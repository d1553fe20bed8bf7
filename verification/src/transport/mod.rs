//! What the links decide, and the protocol that floods packets over one.

pub mod ble;
pub mod protocol;
pub mod wifi_direct;
