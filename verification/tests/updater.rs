use everything_imu::updater::{installed_update_info, release_update_info, semver_newer};

#[test]
fn newer_major() {
    assert!(semver_newer("2.0.0", "1.9.9"));
}

#[test]
fn newer_patch() {
    assert!(semver_newer("1.0.0-beta.6", "1.0.0-beta.5"));
}

#[test]
fn not_newer_equal() {
    assert!(!semver_newer("1.0.0", "1.0.0"));
}

#[test]
fn not_newer_older() {
    assert!(!semver_newer("1.0.0-beta.4", "1.0.0-beta.5"));
}

#[test]
fn release_is_newer_than_its_pre_releases() {
    assert!(semver_newer("1.0.0", "1.0.0-beta.5"));
    assert!(!semver_newer("1.0.0-beta.5", "1.0.0"));
    assert!(!semver_newer("1.0.0-beta.1", "1.0.0"));
}

#[test]
fn longer_core_is_newer_on_equal_prefix() {
    assert!(semver_newer("1.0.0.1", "1.0.0"));
    assert!(!semver_newer("1.0.0", "1.0.0.1"));
}

#[test]
fn components_compare_numerically() {
    assert!(semver_newer("1.10.0", "1.9.0"));
    assert!(!semver_newer("1.9.0", "1.10.0"));
    assert!(!semver_newer("007", "7"));
    assert!(!semver_newer("7", "007"));
    assert!(semver_newer("1.99999999999", "1.9999999999"));
}

#[test]
fn pre_release_identifiers_follow_semver_precedence() {
    // The ordering example of the SemVer specification.
    let ordered = [
        "1.0.0-alpha",
        "1.0.0-alpha.1",
        "1.0.0-alpha.beta",
        "1.0.0-beta",
        "1.0.0-beta.2",
        "1.0.0-beta.11",
        "1.0.0-rc.1",
        "1.0.0",
    ];
    for i in 0..ordered.len() {
        for j in 0..ordered.len() {
            assert_eq!(semver_newer(ordered[i], ordered[j]), i > j, "{} vs {}", ordered[i], ordered[j]);
        }
    }
}

#[test]
fn non_numeric_identifiers_compare_in_ascii_order() {
    assert!(!semver_newer("", ""));
    assert!(semver_newer("1.0.0-beta", "1.0.0-alpha"));
    assert!(semver_newer("beta", "alpha"));
    assert!(semver_newer("beta", "1"));
    assert!(!semver_newer("1", "beta"));
}

#[test]
fn build_metadata_is_ignored() {
    assert!(!semver_newer("1.0.0+build.5", "1.0.0"));
    assert!(!semver_newer("1.0.0", "1.0.0+build.5"));
    assert!(semver_newer("1.0.1+a-b", "1.0.0"));
}

#[test]
fn newer_is_asymmetric_and_transitive_on_examples() {
    let v = ["0.9", "1.0.0-beta.5", "1.0.0-beta.6", "1.0.0", "1.2", "2.0.0", "1.0.0-rc", "x", ""];
    for a in v {
        assert!(!semver_newer(a, a));
        for b in v {
            if semver_newer(a, b) {
                assert!(!semver_newer(b, a));
            }
            for c in v {
                if semver_newer(a, b) && semver_newer(b, c) {
                    assert!(semver_newer(a, c));
                }
            }
        }
    }
}

#[test]
fn release_info_strips_v_prefix() {
    let info = release_update_info("vv1.2.0", "everything-imu 1.2.0", "1.1.9");
    assert_eq!(info.current, "1.1.9");
    assert_eq!(info.latest, "1.2.0");
    assert_eq!(info.url, "everything-imu 1.2.0");
    assert!(info.update_available);
    let same = release_update_info("v1.1.9", "n", "1.1.9");
    assert_eq!(same.latest, "1.1.9");
    assert!(!same.update_available);
}

#[test]
fn release_info_reports_any_different_version() {
    let older = release_update_info("0", "n", "1");
    assert_eq!(older.latest, "0");
    assert!(older.update_available);
}

#[test]
fn installed_info_reports_no_pending_update() {
    let info = installed_update_info("1.0.0", "1.2.0");
    assert_eq!(info.current, "1.0.0");
    assert_eq!(info.latest, "1.2.0");
    assert_eq!(info.url, "");
    assert!(!info.update_available);
}
