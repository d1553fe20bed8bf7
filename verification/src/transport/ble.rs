//! Decisions of the Bluetooth link: which traffic belongs to its channel.

use vstd::prelude::*;

use crate::buffers::GattCharacteristic;

verus! {

/// How a Bluetooth link is set up.
#[derive(Debug)]
pub struct BleTransportConfig {
    pub name: String,
    pub service_uuid: u128,
    pub characteristics: Vec<GattCharacteristic>,
}

/// A Bluetooth service.
#[derive(Debug)]
pub struct GattService {
    pub uuid: u128,
    pub primary: bool,
    pub characteristics: Vec<GattCharacteristic>,
}

/// What a node advertises.
#[derive(Debug)]
pub struct AdvertisingConfig {
    pub local_name: String,
    pub service_uuids: Vec<u128>,
}

/// Something a remote node asks of this one.
#[derive(Debug)]
pub enum PeripheralRequest {
    /// To write `value` to a characteristic. `expects_reply` tells whether the
    /// remote node waits to hear that it worked.
    Write { client_id: String, char_uuid: u128, value: Vec<u8>, expects_reply: bool },
    /// Anything else.
    Other,
}

/// Something that has happened in the neighbourhood.
#[derive(Debug)]
pub enum CentralEvent {
    /// A device has been discovered.
    DeviceDiscovered { device_id: String },
    /// A characteristic of a device has a new value.
    CharacteristicNotification { device_id: String, char_uuid: u128, value: Vec<u8> },
    /// Anything else.
    Other,
}

/// What to do next.
#[derive(Debug)]
pub enum Step {
    /// Nothing.
    Ignore,
    /// Pass on `data` from `peer`, and confirm it if `reply` is set.
    Deliver { peer: String, data: Vec<u8>, reply: bool },
    /// Pass on that a device is there.
    Discovered { device_id: String },
    /// Stop: there will be no more traffic.
    Stop,
}

/// What a request asks of a link with the channel `channel`.
pub open spec fn request_step(channel: u128, request: Option<PeripheralRequest>) -> Step {
    match request {
        Some(PeripheralRequest::Write { client_id, char_uuid, value, expects_reply }) =>
            if char_uuid == channel {
                Step::Deliver { peer: client_id, data: value, reply: expects_reply }
            } else {
                Step::Ignore
            },
        Some(PeripheralRequest::Other) => Step::Ignore,
        None => Step::Stop,
    }
}

/// What an event calls for on a link with the channel `channel`.
pub open spec fn event_step(channel: u128, event: Option<CentralEvent>) -> Step {
    match event {
        Some(CentralEvent::DeviceDiscovered { device_id }) => Step::Discovered { device_id },
        Some(CentralEvent::CharacteristicNotification { device_id, char_uuid, value }) =>
            if char_uuid == channel {
                Step::Deliver { peer: device_id, data: value, reply: false }
            } else {
                Step::Ignore
            },
        Some(CentralEvent::Other) => Step::Ignore,
        None => Step::Stop,
    }
}

/// Why a Bluetooth link cannot do something.
#[derive(Debug, PartialEq, Eq)]
pub enum BleError {
    /// A link needs a characteristic to carry its traffic.
    NoCharacteristic,
    /// A link reaches one peer at a time.
    NoBroadcastChannel,
}

impl BleError {
    /// What the error says.
    pub fn text(&self) -> (text: &'static str)
        ensures
            text@ == match self {
                BleError::NoCharacteristic => "transport requires at least one characteristic"@,
                BleError::NoBroadcastChannel => "ble transport has no broadcast channel"@,
            },
    {
        match self {
            BleError::NoCharacteristic => "transport requires at least one characteristic",
            BleError::NoBroadcastChannel => "ble transport has no broadcast channel",
        }
    }
}

impl GattService {
    /// The service that `config` describes.
    pub fn primary(config: BleTransportConfig) -> (service: Self)
        ensures
            service.uuid == config.service_uuid,
            service.primary,
            service.characteristics == config.characteristics,
    {
        GattService {
            uuid: config.service_uuid,
            primary: true,
            characteristics: config.characteristics,
        }
    }
}

/// A Bluetooth link. Its traffic goes through one characteristic, the channel.
#[derive(Debug)]
pub struct BleTransport {
    pub name: String,
    pub service_uuid: u128,
    pub channel_uuid: u128,
}

impl BleTransport {
    /// A link whose channel is the first characteristic of `config`.
    pub fn new(config: &BleTransportConfig) -> (result: Result<Self, BleError>)
        ensures
            match result {
                Ok(link) => {
                    &&& config.characteristics@.len() > 0
                    &&& link.channel_uuid == config.characteristics@[0].uuid
                    &&& link.service_uuid == config.service_uuid
                    &&& link.name == config.name
                },
                Err(error) => {
                    &&& config.characteristics@.len() == 0
                    &&& error == BleError::NoCharacteristic
                },
            },
    {
        if config.characteristics.len() == 0 {
            return Err(BleError::NoCharacteristic);
        }
        Ok(
            BleTransport {
                name: config.name.clone(),
                service_uuid: config.service_uuid,
                channel_uuid: config.characteristics[0].uuid,
            },
        )
    }

    /// What a request asks for; `None` is the end of the requests. Only writes
    /// to the channel matter.
    pub fn on_request(&self, request: Option<PeripheralRequest>) -> (step: Step)
        ensures
            step == request_step(self.channel_uuid, request),
    {
        match request {
            Some(PeripheralRequest::Write { client_id, char_uuid, value, expects_reply }) => {
                if char_uuid == self.channel_uuid {
                    Step::Deliver { peer: client_id, data: value, reply: expects_reply }
                } else {
                    Step::Ignore
                }
            },
            Some(PeripheralRequest::Other) => Step::Ignore,
            None => Step::Stop,
        }
    }

    /// What an event calls for; `None` is the end of the events. Discoveries
    /// matter, and new values of the channel.
    pub fn on_event(&self, event: Option<CentralEvent>) -> (step: Step)
        ensures
            step == event_step(self.channel_uuid, event),
    {
        match event {
            Some(CentralEvent::DeviceDiscovered { device_id }) => Step::Discovered { device_id },
            Some(CentralEvent::CharacteristicNotification { device_id, char_uuid, value }) => {
                if char_uuid == self.channel_uuid {
                    Step::Deliver { peer: device_id, data: value, reply: false }
                } else {
                    Step::Ignore
                }
            },
            Some(CentralEvent::Other) => Step::Ignore,
            None => Step::Stop,
        }
    }

    /// What to advertise: the name, and the service.
    pub fn advertise(&self) -> (config: AdvertisingConfig)
        ensures
            config.local_name == self.name,
            config.service_uuids@ == seq![self.service_uuid],
    {
        let mut service_uuids: Vec<u128> = Vec::new();
        service_uuids.push(self.service_uuid);
        assert(service_uuids@ =~= seq![self.service_uuid]);
        AdvertisingConfig { local_name: self.name.clone(), service_uuids }
    }

    /// The services to scan for.
    pub fn scan(&self) -> (services: Vec<u128>)
        ensures
            services@ == seq![self.service_uuid],
    {
        let mut services: Vec<u128> = Vec::new();
        services.push(self.service_uuid);
        assert(services@ =~= seq![self.service_uuid]);
        services
    }

    /// Sending to everyone at once is refused.
    pub fn broadcast(&self) -> (result: Result<(), BleError>)
        ensures
            result == Err::<(), BleError>(BleError::NoBroadcastChannel),
    {
        Err(BleError::NoBroadcastChannel)
    }
}

/// Every write to the channel is delivered as it came, and confirmed where that
/// is awaited, whoever it is from and whatever it holds. Nothing else that is
/// asked is delivered, and only the end of the requests stops the link.
pub proof fn law_writes_to_the_channel_are_delivered(
    channel: u128,
    request: Option<PeripheralRequest>,
)
    ensures
        request matches Some(PeripheralRequest::Write {
            client_id,
            char_uuid,
            value,
            expects_reply,
        }) ==> {
            let step = request_step(channel, request);
            &&& char_uuid == channel ==> {
                &&& step is Deliver
                &&& step->peer == client_id
                &&& step->data == value
                &&& step->reply == expects_reply
            }
            &&& char_uuid != channel ==> step is Ignore
        },
        request == Some(PeripheralRequest::Other) ==> request_step(channel, request) is Ignore,
        request_step(channel, request) is Stop <==> request is None,
{
}

/// Every new value of the channel is delivered as it came, without a
/// confirmation, and every device that is discovered is passed on. Nothing else
/// that happens is, and only the end of the events stops the link.
pub proof fn law_values_of_the_channel_are_delivered(channel: u128, event: Option<CentralEvent>)
    ensures
        event matches Some(CentralEvent::CharacteristicNotification {
            device_id: source,
            char_uuid,
            value,
        }) ==> {
            let step = event_step(channel, event);
            &&& char_uuid == channel ==> {
                &&& step is Deliver
                &&& step->peer == source
                &&& step->data == value
                &&& !step->reply
            }
            &&& char_uuid != channel ==> step is Ignore
        },
        event matches Some(CentralEvent::DeviceDiscovered { device_id: found }) ==> {
            &&& event_step(channel, event) is Discovered
            &&& event_step(channel, event)->device_id == found
        },
        event == Some(CentralEvent::Other) ==> event_step(channel, event) is Ignore,
        event_step(channel, event) is Stop <==> event is None,
{
}

} // verus!
