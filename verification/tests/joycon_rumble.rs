use everything_imu::joycon_rumble::{pack_rumble_frame, MAX_HF_AMP, NEUTRAL_RUMBLE_FRAME};

#[test]
fn zero_amplitude_packs_neutral_frame() {
    assert_eq!(pack_rumble_frame(0), NEUTRAL_RUMBLE_FRAME);
}

#[test]
fn full_amplitude_matches_reference_encoding() {
    // Full intensity encodes to amplitude 199 on the firmware curve.
    assert_eq!(pack_rumble_frame(199), [0x00, 0xC8, 0xC0, 0x71]);
}

#[test]
fn half_amplitude_matches_reference_encoding() {
    // Half intensity encodes to amplitude 135 on the firmware curve.
    assert_eq!(pack_rumble_frame(135), [0x00, 0x88, 0xC0, 0x61]);
}

#[test]
fn even_half_leaves_parity_clear() {
    assert_eq!(pack_rumble_frame(200), [0x00, 0xC9, 0x40, 0x72]);
    assert_eq!(pack_rumble_frame(4), [0x00, 0x05, 0x40, 0x41]);
}

#[test]
fn amplitude_byte_strictly_increases() {
    let mut prev = pack_rumble_frame(0)[1];
    for a in 1..=MAX_HF_AMP {
        let b = pack_rumble_frame(a)[1];
        assert!(prev < b);
        prev = b;
    }
}

#[test]
fn only_zero_amplitude_is_neutral() {
    for a in 1..=MAX_HF_AMP {
        assert_ne!(pack_rumble_frame(a), NEUTRAL_RUMBLE_FRAME, "amplitude {a}");
    }
}
