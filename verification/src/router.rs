//! Sorting incoming messages by the service they are for.

use vstd::prelude::*;

use crate::buffers::chat::{law_chat_buffer, ChatBuffer};
use crate::buffers::Buffer;
use crate::transport::ble::PeripheralRequest;
use crate::{Message, MessageView};

verus! {

/// A service that takes messages.
#[derive(Debug, Clone, Copy, PartialEq, Eq, Structural)]
pub enum Destination {
    Chat,
    HeartBeat,
}

/// A message on its way to a service.
#[derive(Debug)]
pub struct Delivery {
    pub client_id: String,
    pub destination: Destination,
    pub message: Message,
}

/// What to do about a request: hand a message to a service, and tell the
/// remote node that its write worked.
#[derive(Debug)]
pub struct Routing {
    pub delivery: Option<Delivery>,
    pub reply: bool,
}

/// The service that a message is for.
pub open spec fn destination_of(message: MessageView) -> Destination {
    match message {
        MessageView::Chat { .. } => Destination::Chat,
        MessageView::HeartBeat { .. } => Destination::HeartBeat,
    }
}

/// Whether a request carries a message.
pub open spec fn carries_message(request: PeripheralRequest) -> bool {
    request matches PeripheralRequest::Write { char_uuid, .. } && char_uuid == ChatBuffer::UUID
}

/// Routes requests to services.
#[derive(Debug)]
pub struct Router;

impl Router {
    pub fn new() -> (router: Self)
        ensures
            router == Router,
    {
        Router
    }

    /// The service that a message is for.
    pub fn destination(message: &Message) -> (destination: Destination)
        ensures
            destination == destination_of(message@),
    {
        match message {
            Message::Chat { .. } => Destination::Chat,
            Message::HeartBeat { .. } => Destination::HeartBeat,
        }
    }

    /// Whether the value of a request has to be decoded.
    pub fn wants(&self, request: &PeripheralRequest) -> (wanted: bool)
        ensures
            wanted == carries_message(*request),
    {
        match request {
            PeripheralRequest::Write { char_uuid, .. } => *char_uuid == ChatBuffer::UUID,
            PeripheralRequest::Other => false,
        }
    }

    /// Decides about a request. `decoded` is the message that its value holds,
    /// if it holds one. Every write that waits for a reply gets one, whether
    /// or not it carries a message.
    pub fn route(&self, request: PeripheralRequest, decoded: Option<Message>) -> (routing: Routing)
        ensures
            routing.reply == (request matches PeripheralRequest::Write { expects_reply, .. }
                && expects_reply),
            routing.delivery is Some <==> carries_message(request) && decoded is Some,
            routing.delivery matches Some(delivery) ==> {
                &&& delivery.message == decoded->0
                &&& delivery.destination == destination_of((decoded->0)@)
                &&& request matches PeripheralRequest::Write { client_id, .. }
                &&& delivery.client_id == client_id
            },
    {
        match request {
            PeripheralRequest::Write { client_id, char_uuid, expects_reply, .. } => {
                let delivery = if char_uuid == ChatBuffer::UUID {
                    match decoded {
                        Some(message) => {
                            let destination = Self::destination(&message);
                            Some(Delivery { client_id, destination, message })
                        },
                        None => None,
                    }
                } else {
                    None
                };
                Routing { delivery, reply: expects_reply }
            },
            PeripheralRequest::Other => Routing { delivery: None, reply: false },
        }
    }
}

/// A request carries a message exactly when it is a write to the chat
/// characteristic, whoever it is from, whatever it holds and whether or not a
/// reply is awaited.
pub proof fn law_every_chat_write_carries_a_message(request: PeripheralRequest)
    ensures
        request matches PeripheralRequest::Write { client_id, char_uuid, value, expects_reply }
            ==> (carries_message(request) <==> char_uuid
            == 0x16fe48d4_6b5c_44c1_a331_d6c0ea61d714),
        request is Other ==> !carries_message(request),
{
    law_chat_buffer();
}

/// Messages to read go to the chat and signs of life to the discovery, whatever
/// they say.
pub proof fn law_messages_find_their_service(message: MessageView)
    ensures
        destination_of(message) == Destination::Chat <==> message is Chat,
        destination_of(message) == Destination::HeartBeat <==> message is HeartBeat,
{
}

} // verus!
