//! Relays over several links at once.

pub mod fan_out;
pub mod flood_relay;
