//! What a node offers to be written to over Bluetooth.

pub mod chat;

use vstd::prelude::*;

verus! {

/// The property of a characteristic that can be written without a reply.
pub const PROPERTY_WRITE_WITHOUT_RESPONSE: u16 = 0x0004;

/// The permission to write an attribute.
pub const PERMISSION_WRITE: u16 = 0x0002;

/// A descriptor of a characteristic.
#[derive(Debug)]
pub struct GattDescriptor {
    pub uuid: u128,
    pub value: Vec<u8>,
}

/// A characteristic of a Bluetooth service. Properties and permissions are
/// sets of bits as the Bluetooth standard lays them out.
#[derive(Debug)]
pub struct GattCharacteristic {
    pub uuid: u128,
    pub properties: u16,
    pub permissions: u16,
    pub value: Vec<u8>,
    pub descriptors: Vec<GattDescriptor>,
}

/// A place that peers write messages of one kind to.
pub trait Buffer {
    const UUID: u128;
    const PROPERTIES: u16;
    const PERMISSIONS: u16;

    /// The characteristic under which the buffer is offered, without a value
    /// of its own.
    fn characteristics() -> (characteristic: GattCharacteristic)
        ensures
            characteristic.uuid == Self::UUID,
            characteristic.properties == Self::PROPERTIES,
            characteristic.permissions == Self::PERMISSIONS,
            characteristic.value@.len() == 0,
            characteristic.descriptors@.len() == 0,
    {
        GattCharacteristic {
            uuid: Self::UUID,
            properties: Self::PROPERTIES,
            permissions: Self::PERMISSIONS,
            value: Vec::new(),
            descriptors: Vec::new(),
        }
    }
}

} // verus!
