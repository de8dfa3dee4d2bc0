//! Verified core of a game-controller IMU bridge: latency bookkeeping,
//! rumble frame packing, Steam Deck identification, release-version
//! comparison and the OSC haptic routing rules.

pub mod jni;
pub mod joycon_rumble;
pub mod latency;
pub mod osc_haptics;
pub mod steam_deck;
pub mod text;
pub mod updater;
