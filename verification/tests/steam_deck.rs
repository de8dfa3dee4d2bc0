use everything_imu::steam_deck::factory::{
    fnv1a_64, mac_from_serial, FactoryMode, HidInterfaceInfo, KnownDevices, SteamDeckFactory,
};
use everything_imu::steam_deck::ids::{
    is_gamepad_interface, GAMEPAD_USAGE, GAMEPAD_USAGE_PAGE, STEAM_DECK_PID, VALVE_VID,
};

#[test]
fn mac_is_deterministic() {
    assert_eq!(mac_from_serial("DECK01"), mac_from_serial("DECK01"));
}

#[test]
fn mac_is_locally_administered() {
    let m = mac_from_serial("any");
    assert_eq!(m[0] & 0x02, 0x02);
}

#[test]
fn mac_uses_valve_oui_marker() {
    // bytes [1..3] = 0x28 0xDE so traces are easily tagged as Valve devices.
    let m = mac_from_serial("DECK");
    assert_eq!(m[1], 0x28);
    assert_eq!(m[2], 0xDE);
}

#[test]
fn distinct_serials_yield_distinct_macs() {
    assert_ne!(mac_from_serial("A"), mac_from_serial("B"));
}

#[test]
fn ids_constants_in_scope() {
    assert_eq!(STEAM_DECK_PID, 0x1205);
    assert_eq!(VALVE_VID, 0x28DE);
    assert!(is_gamepad_interface(VALVE_VID, STEAM_DECK_PID, 0, 0));
}

#[test]
fn matches_gamepad_interface() {
    assert!(is_gamepad_interface(
        VALVE_VID,
        STEAM_DECK_PID,
        GAMEPAD_USAGE_PAGE,
        GAMEPAD_USAGE
    ));
    assert!(is_gamepad_interface(VALVE_VID, STEAM_DECK_PID, 0, 0));
}

#[test]
fn rejects_keyboard_mouse_interfaces() {
    // Keyboard usage page = 0x0001, usage = 0x0006
    assert!(!is_gamepad_interface(
        VALVE_VID,
        STEAM_DECK_PID,
        0x0001,
        0x0006
    ));
    // Mouse usage page = 0x0001, usage = 0x0002
    assert!(!is_gamepad_interface(
        VALVE_VID,
        STEAM_DECK_PID,
        0x0001,
        0x0002
    ));
}

#[test]
fn rejects_wrong_vid_pid() {
    assert!(!is_gamepad_interface(0x057E, STEAM_DECK_PID, 0, 0));
    assert!(!is_gamepad_interface(VALVE_VID, 0x1102, 0, 0));
}

#[test]
fn rejects_mixed_usage_pairs() {
    assert!(!is_gamepad_interface(VALVE_VID, STEAM_DECK_PID, GAMEPAD_USAGE_PAGE, 0));
    assert!(!is_gamepad_interface(VALVE_VID, STEAM_DECK_PID, 0, GAMEPAD_USAGE));
}

#[test]
fn fnv1a_reference_vectors() {
    assert_eq!(fnv1a_64(b""), 0xcbf29ce484222325);
    assert_eq!(fnv1a_64(b"a"), 0xaf63dc4c8601ec8c);
    assert_eq!(fnv1a_64(b"foobar"), 0x85944171f73967e8);
}

#[test]
fn mac_low_bytes_are_hash_little_endian() {
    let h = fnv1a_64(b"DECK01").to_le_bytes();
    assert_eq!(mac_from_serial("DECK01"), [0x02, 0x28, 0xDE, h[0], h[1], h[2]]);
}

#[test]
fn factory_modes() {
    assert_eq!(SteamDeckFactory::new().mode(), FactoryMode::Real);
    assert_eq!(SteamDeckFactory::real_devices().mode(), FactoryMode::Real);
    assert_eq!(SteamDeckFactory::default().mode(), FactoryMode::Real);
    assert_eq!(
        SteamDeckFactory::synthetic(3).mode(),
        FactoryMode::Synthetic { count: 3 }
    );
}

fn info(vid: u16, pid: u16, page: u16, usage: u16, serial: Option<&str>, path: &str) -> HidInterfaceInfo {
    HidInterfaceInfo {
        vendor_id: vid,
        product_id: pid,
        usage_page: page,
        usage,
        serial_number: serial.map(|s| s.to_string()),
        path: path.to_string(),
    }
}

#[test]
fn list_paired_keeps_gamepad_interfaces_in_order() {
    let infos = vec![
        info(VALVE_VID, STEAM_DECK_PID, 0x0001, 0x0006, Some("KBD"), "\"/dev/a\""),
        info(VALVE_VID, STEAM_DECK_PID, GAMEPAD_USAGE_PAGE, GAMEPAD_USAGE, Some("DECK01"), "\"/dev/b\""),
        info(0x057E, 0x2009, 0, 0, Some("PRO"), "\"/dev/c\""),
        info(VALVE_VID, STEAM_DECK_PID, 0, 0, None, "\"/dev/d\""),
    ];
    let out = SteamDeckFactory::list_paired(&infos);
    assert_eq!(out.len(), 2);
    assert_eq!(out[0].serial, "DECK01");
    assert_eq!(out[0].path, "\"/dev/b\"");
    assert_eq!(out[0].mac, mac_from_serial("DECK01"));
    assert_eq!(out[1].serial, "");
    assert_eq!(out[1].path, "\"/dev/d\"");
    assert_eq!(out[1].mac, mac_from_serial(""));
}

#[test]
fn known_devices_insert_reports_new_keys_only() {
    let mut k = KnownDevices::new();
    assert!(k.insert("\"/dev/b\"#0"));
    assert!(!k.insert("\"/dev/b\"#0"));
    assert!(k.insert("\"/dev/b\"#1"));
    assert!(k.contains("\"/dev/b\"#0"));
    assert!(!k.contains("\"/dev/x\"#0"));
}

#[test]
fn known_devices_forget_lets_a_key_in_again() {
    let mut k = KnownDevices::new();
    assert!(k.insert("p#0"));
    k.forget("p#0");
    assert!(!k.contains("p#0"));
    assert!(k.insert("p#0"));
}

#[test]
fn known_devices_retain_present_drops_unplugged() {
    let mut k = KnownDevices::new();
    k.insert("a#0");
    k.insert("b#0");
    k.insert("c#0");
    let present = vec!["c#0".to_string(), "a#0".to_string(), "z#0".to_string()];
    k.retain_present(&present);
    assert!(k.contains("a#0"));
    assert!(!k.contains("b#0"));
    assert!(k.contains("c#0"));
    assert!(!k.contains("z#0"));
}

#[test]
fn enumeration_keys_follow_presence() {
    let mut k = KnownDevices::new();
    // First poll: a and b present; the second "a" entry is not new.
    let first = vec!["a#0".to_string(), "b#0".to_string(), "a#0".to_string()];
    k.retain_present(&first);
    let new: Vec<bool> = first.iter().map(|key| k.insert(key)).collect();
    assert_eq!(new, vec![true, true, false]);
    // Same interfaces still present: nothing new.
    k.retain_present(&first);
    assert!(first.iter().all(|key| !k.insert(key)));
    // b unplugged, then back: new again.
    let second = vec!["a#0".to_string()];
    k.retain_present(&second);
    assert!(!k.contains("b#0"));
    assert!(k.insert("b#0"));
}

#[test]
fn failed_open_is_retried_by_a_later_entry() {
    let mut k = KnownDevices::new();
    let present = vec!["a#0".to_string(), "a#0".to_string()];
    k.retain_present(&present);
    assert!(k.insert(&present[0]));
    // Opening failed: forget, so the next entry with the same key is tried.
    k.forget(&present[0]);
    assert!(k.insert(&present[1]));
    assert!(k.contains("a#0"));
}

#[test]
fn handle_entry_hands_out_opened_unknown_keys_once() {
    let mut k = KnownDevices::new();
    let present = vec!["a#0".to_string(), "a#0".to_string(), "b#0".to_string()];
    k.retain_present(&present);
    // First "a" entry fails to open, the second opens: handed out then.
    assert!(!k.handle_entry("a#0", false));
    assert!(!k.contains("a#0"));
    assert!(k.handle_entry("a#0", true));
    assert!(k.contains("a#0"));
    // Already known: not handed out again, whatever the open outcome.
    assert!(!k.handle_entry("a#0", true));
    // b fails this poll and is tried again on the next one.
    assert!(!k.handle_entry("b#0", false));
    k.retain_present(&present);
    assert!(k.handle_entry("b#0", true));
}
