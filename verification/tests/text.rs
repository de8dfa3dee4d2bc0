use everything_imu::text::{is_whitespace, same_text, trim};

#[test]
fn whitespace_matches_std_for_every_char() {
    for u in 0..=0x10FFFFu32 {
        if let Some(c) = char::from_u32(u) {
            assert_eq!(is_whitespace(c), c.is_whitespace(), "U+{u:04X}");
        }
    }
}

#[test]
fn trim_matches_std() {
    let cases = [
        "", " ", "  Foo  ", "\t\nx\r\n", "a b", "\u{3000}x\u{00A0}", "\u{200B}x", "/a/ ",
    ];
    for c in cases {
        assert_eq!(trim(c), c.trim(), "{c:?}");
    }
}

#[test]
fn same_text_compares_characters() {
    assert!(same_text("", ""));
    assert!(same_text("/avatar/parameters/Touch", "/avatar/parameters/Touch"));
    assert!(!same_text("/a", "/b"));
    assert!(!same_text("/a", "/a/"));
    assert!(same_text("é", "é"));
    assert!(!same_text("é", "e"));
}
