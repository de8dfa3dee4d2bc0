//! Steam Deck integrated controller: interface identification, identity
//! derivation and the device-enumeration bookkeeping.

pub mod factory;
pub mod ids;
