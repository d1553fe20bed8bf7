//! The flooding protocol: its packets, and the relay that passes them on.

pub mod bytes;
pub mod flood_relay;
pub mod packet;
