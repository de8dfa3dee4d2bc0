//! VRChat OSC → device rumble routing.
//!
//! VRChat broadcasts every avatar parameter over OSC; avatars built for
//! haptics write those parameters when touched. A rule binds one OSC
//! address to one device; the mode that turns the parameter value into an
//! intensity is carried along as `M`.

pub mod config;
pub mod mapping;
pub mod test_fire;
