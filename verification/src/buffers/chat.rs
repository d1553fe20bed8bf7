//! The buffer for chat traffic.

use vstd::prelude::*;

use crate::buffers::{Buffer, PERMISSION_WRITE, PROPERTY_WRITE_WITHOUT_RESPONSE};

verus! {

/// Takes messages and heartbeats.
pub struct ChatBuffer;

impl Buffer for ChatBuffer {
    const UUID: u128 = 0x16fe48d4_6b5c_44c1_a331_d6c0ea61d714;
    const PROPERTIES: u16 = PROPERTY_WRITE_WITHOUT_RESPONSE;
    const PERMISSIONS: u16 = PERMISSION_WRITE;
}

/// Where the chat buffer is found, and that it can be written, without a reply.
pub proof fn law_chat_buffer()
    ensures
        ChatBuffer::UUID == 0x16fe48d4_6b5c_44c1_a331_d6c0ea61d714,
        ChatBuffer::PROPERTIES == 0x0004,
        ChatBuffer::PERMISSIONS == 0x0002,
{
}

} // verus!
