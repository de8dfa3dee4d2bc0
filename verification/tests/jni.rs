use everything_imu::jni::fusion_version;

#[test]
fn version_non_empty() {
    assert!(!fusion_version().is_empty());
}

#[test]
fn version_is_package_version() {
    assert_eq!(fusion_version(), "0.1.0");
}
