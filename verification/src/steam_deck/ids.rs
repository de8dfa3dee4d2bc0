//! Vendor + product IDs for the Steam Deck integrated controller.

use vstd::prelude::*;

verus! {

/// Valve's USB vendor id.
pub const VALVE_VID: u16 = 0x28DE;

/// Same PID for LCD (jupiter) and OLED (galileo) Decks. Three USB interfaces
/// enumerate under this PID — the gamepad, an emulated mouse, and an emulated
/// keyboard. Only the gamepad interface accepts HID feature reports.
pub const STEAM_DECK_PID: u16 = 0x1205;

/// HID usage page that identifies the gamepad interface.
pub const GAMEPAD_USAGE_PAGE: u16 = 0xFFFF;

/// HID usage that identifies the gamepad interface.
pub const GAMEPAD_USAGE: u16 = 0x0001;

/// The gamepad interface is the Valve Deck PID with either the vendor-defined
/// usage pair or the `(0, 0)` pair that older hidapi builds report.
pub open spec fn spec_is_gamepad_interface(vid: u16, pid: u16, usage_page: u16, usage: u16) -> bool {
    &&& vid == VALVE_VID
    &&& pid == STEAM_DECK_PID
    &&& ((usage_page == 0 && usage == 0) || (usage_page == GAMEPAD_USAGE_PAGE && usage
        == GAMEPAD_USAGE))
}

/// Returns true if a `(vid, pid, usage_page, usage)` tuple is the Steam Deck
/// gamepad interface and not one of the emulated peripherals.
pub fn is_gamepad_interface(vid: u16, pid: u16, usage_page: u16, usage: u16) -> (r: bool)
    ensures
        r == spec_is_gamepad_interface(vid, pid, usage_page, usage),
{
    if vid != VALVE_VID || pid != STEAM_DECK_PID {
        return false;
    }
    (usage_page == 0 && usage == 0) || (usage_page == GAMEPAD_USAGE_PAGE && usage == GAMEPAD_USAGE)
}

} // verus!
