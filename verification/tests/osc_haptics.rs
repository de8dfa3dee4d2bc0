use everything_imu::osc_haptics::config::{
    normalize_address, HapticConfig, HapticRule, DEFAULT_OSC_PORT, VRCHAT_PARAM_PREFIX,
};
use everything_imu::osc_haptics::mapping::matching_rules;
use everything_imu::osc_haptics::test_fire::{route_against_config, route_dispatch, TestFireOutcome};

/// How a rule drives its motor; the rule logic only carries it along.
#[derive(Debug, Clone, Copy, PartialEq)]
enum HapticMode {
    Proximity { gain: f32, min_threshold: f32 },
}

impl Default for HapticMode {
    fn default() -> Self {
        HapticMode::Proximity {
            gain: 1.0,
            min_threshold: 0.05,
        }
    }
}

const MAC_A: [u8; 6] = [0x02, 0, 0, 0, 0, 0x0A];
const MAC_B: [u8; 6] = [0x02, 0, 0, 0, 0, 0x0B];

fn rule(addr: &str, mac: [u8; 6]) -> HapticRule<HapticMode> {
    HapticRule {
        osc_address: addr.into(),
        device_mac: mac,
        mode: HapticMode::default(),
    }
}

#[test]
fn normalize_bare_param_gets_vrchat_prefix() {
    assert_eq!(
        normalize_address("Haptics_Chest"),
        "/avatar/parameters/Haptics_Chest"
    );
}

#[test]
fn normalize_full_path_unchanged() {
    assert_eq!(
        normalize_address("/avatar/parameters/Touch"),
        "/avatar/parameters/Touch"
    );
    // Non-VRChat senders (Resonite, VMC) target their own roots — keep
    // verbatim when the user already wrote a slash.
    assert_eq!(
        normalize_address("/tracking/eye/CenterPitchYaw"),
        "/tracking/eye/CenterPitchYaw"
    );
}

#[test]
fn normalize_trims_whitespace() {
    assert_eq!(normalize_address("  Foo  "), "/avatar/parameters/Foo");
}

#[test]
fn normalize_empty_yields_empty() {
    assert_eq!(normalize_address(""), "");
    assert_eq!(normalize_address("   "), "");
}

#[test]
fn normalize_is_idempotent_on_examples() {
    for raw in ["Foo", "  /x/y ", "", " \t", "a b", "\u{3000}Bar\u{00A0}"] {
        let once = normalize_address(raw);
        assert_eq!(normalize_address(&once), once, "{raw:?}");
    }
}

#[test]
fn prefix_constant_is_vrchat_root() {
    assert_eq!(VRCHAT_PARAM_PREFIX, "/avatar/parameters/");
}

#[test]
fn rule_new_normalises() {
    let r = HapticRule::new("Foo", [0; 6], HapticMode::default());
    assert_eq!(r.osc_address, "/avatar/parameters/Foo");
}

#[test]
fn normalize_rules_is_idempotent() {
    let mut cfg = HapticConfig {
        enabled: true,
        listen_port: 9001,
        rules: vec![
            HapticRule {
                osc_address: "Bar".into(),
                device_mac: [0; 6],
                mode: HapticMode::default(),
            },
            HapticRule {
                osc_address: "/avatar/parameters/Already".into(),
                device_mac: [0; 6],
                mode: HapticMode::default(),
            },
        ],
    };
    cfg.normalize_rules();
    assert_eq!(cfg.rules[0].osc_address, "/avatar/parameters/Bar");
    assert_eq!(cfg.rules[1].osc_address, "/avatar/parameters/Already");
    // Run twice; result stable.
    cfg.normalize_rules();
    assert_eq!(cfg.rules[0].osc_address, "/avatar/parameters/Bar");
    assert_eq!(cfg.rules[1].osc_address, "/avatar/parameters/Already");
}

#[test]
fn rule_normalize_in_place_keeps_device_and_mode() {
    let mut r = rule(" Chest ", MAC_B);
    r.normalize();
    assert_eq!(r.osc_address, "/avatar/parameters/Chest");
    assert_eq!(r.device_mac, MAC_B);
    assert_eq!(r.mode, HapticMode::default());
}

#[test]
fn default_config_is_disabled_on_vrchat_port() {
    let cfg: HapticConfig<HapticMode> = HapticConfig::default();
    assert!(!cfg.enabled);
    assert_eq!(cfg.listen_port, DEFAULT_OSC_PORT);
    assert_eq!(cfg.listen_port, 9001);
    assert!(cfg.rules.is_empty());
}

#[test]
fn matching_ignores_non_matching_address() {
    let rules = [rule("/avatar/parameters/Touch", MAC_A)];
    assert!(matching_rules(&rules, "/avatar/parameters/Other").is_empty());
}

#[test]
fn one_address_reaches_multiple_devices_in_rule_order() {
    let rules = [
        rule("/shared", MAC_A),
        rule("/other", MAC_A),
        rule("/shared", MAC_B),
    ];
    let out = matching_rules(&rules, "/shared");
    assert_eq!(out, vec![0, 2]);
    assert_eq!(rules[out[0]].device_mac, MAC_A);
    assert_eq!(rules[out[1]].device_mac, MAC_B);
}

#[test]
fn bare_param_routes_via_auto_prefix() {
    let rules = [rule("/avatar/parameters/Touch", [1; 6])];
    let route = route_dispatch(&rules, "Touch");
    assert_eq!(route.normalised_address, "/avatar/parameters/Touch");
    assert_eq!(route.rule_indices, vec![0]);
}

#[test]
fn full_path_passthrough_routes() {
    let rules = [rule("/avatar/parameters/Touch", [1; 6])];
    let route = route_dispatch(&rules, "/avatar/parameters/Touch");
    assert_eq!(route.rule_indices, vec![0]);
}

#[test]
fn no_match_routes_nowhere() {
    let rules = [rule("/avatar/parameters/Touch", [1; 6])];
    let route = route_dispatch(&rules, "Other");
    assert!(route.rule_indices.is_empty());
    assert_eq!(route.normalised_address, "/avatar/parameters/Other");
}

#[test]
fn empty_address_routes_nowhere() {
    let rules = [rule("/avatar/parameters/Touch", [1; 6]), rule("", [2; 6])];
    let route = route_dispatch(&rules, "   ");
    assert!(route.normalised_address.is_empty());
    assert!(route.rule_indices.is_empty());
}

#[test]
fn route_against_config_uses_config_rules() {
    let cfg = HapticConfig {
        enabled: true,
        listen_port: 9001,
        rules: vec![rule("/avatar/parameters/Touch", [1; 6])],
    };
    let route = route_against_config(&cfg, "Touch");
    assert_eq!(route.rule_indices, vec![0]);
}

#[test]
fn outcome_matched_iff_actions() {
    let none: TestFireOutcome<u8> = TestFireOutcome {
        normalised_address: String::new(),
        actions: vec![],
    };
    assert!(!none.matched());
    let some = TestFireOutcome {
        normalised_address: "/p".to_string(),
        actions: vec![1u8],
    };
    assert!(some.matched());
}
