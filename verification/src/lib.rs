//! Verified core of a serverless chat over short-range radio links.

pub mod buffers;
pub mod flood;
pub mod identity;
pub mod relays;
pub mod router;
pub mod seen;
pub mod services;
pub mod table;
pub mod text;
pub mod transport;

use std::sync::Arc;

use vstd::prelude::*;

use crate::identity::{fresh_id, names_random_id};
use crate::router::Router;
use crate::services::chat::ChatService;
use crate::services::discovery::{Discovery, DiscoveryView};
use crate::table::texts;

verus! {

/// The Bluetooth service under which nodes find each other.
pub const SERVICE_UUID: &'static str = "95ebaece-3ea2-4b13-b2ac-c48d6799a9a6";

/// A packet on its way through the mesh: who sent it, the sender's running
/// number for it, how many more hops it may take, and what it carries.
#[derive(Debug)]
pub struct Frame {
    pub origin: String,
    pub seq: u64,
    pub ttl: u8,
    pub payload: Vec<u8>,
}

/// The value of a [`Frame`].
#[verifier::ext_equal]
pub struct FrameView {
    pub origin: Seq<char>,
    pub seq: u64,
    pub ttl: u8,
    pub payload: Seq<u8>,
}

impl View for Frame {
    type V = FrameView;

    open spec fn view(&self) -> FrameView {
        FrameView {
            origin: self.origin@,
            seq: self.seq,
            ttl: self.ttl,
            payload: self.payload@,
        }
    }
}

impl Frame {
    pub fn new(origin: String, seq: u64, ttl: u8, payload: Vec<u8>) -> (frame: Self)
        ensures
            frame.origin == origin,
            frame.seq == seq,
            frame.ttl == ttl,
            frame.payload == payload,
    {
        Frame { origin, seq, ttl, payload }
    }
}

/// What nodes say to each other.
#[derive(Debug)]
pub enum Message {
    /// Something to read, for the node called `target` or, if that is empty,
    /// for everyone.
    Chat { message: String, target: String },
    /// A sign of life of the node called `id`.
    HeartBeat { id: String },
}

/// The value of a [`Message`].
pub enum MessageView {
    Chat { message: Seq<char>, target: Seq<char> },
    HeartBeat { id: Seq<char> },
}

impl View for Message {
    type V = MessageView;

    open spec fn view(&self) -> MessageView {
        match self {
            Message::Chat { message, target } => MessageView::Chat {
                message: message@,
                target: target@,
            },
            Message::HeartBeat { id } => MessageView::HeartBeat { id: id@ },
        }
    }
}

/// A chat over a link that has not been started.
pub struct NetChat<T> {
    pub transport: Arc<T>,
}

/// The parts of a running chat.
pub struct Session<T> {
    pub transport: Arc<T>,
    pub router: Router,
    pub chat: ChatService,
    pub discovery: Discovery,
}

impl<T> Session<T> {
    /// Whether this is a chat over `transport` in which nothing has happened:
    /// all its parts go by the name `own_id`.
    pub open spec fn is_new(&self, transport: Arc<T>, own_id: Seq<char>) -> bool {
        &&& self.transport == transport
        &&& self.chat.own_id@ == own_id
        &&& self.discovery.wf()
        &&& self.discovery@ == (DiscoveryView {
            own_id,
            peers: Set::empty(),
            last_seen: Map::empty(),
            known_ids: Map::empty(),
        })
    }
}

impl<T> NetChat<T> {
    /// A chat over `transport`.
    pub fn new(transport: T) -> (chat: Self)
        ensures
            *chat.transport == transport,
    {
        NetChat { transport: Arc::new(transport) }
    }

    /// Starts the chat under a newly drawn name.
    pub fn start(self) -> (session: Session<T>)
        ensures
            names_random_id(session.chat.own_id@),
            session.is_new(self.transport, session.chat.own_id@),
    {
        self.start_as(fresh_id())
    }

    /// Starts the chat under the name `own_id`.
    pub fn start_as(self, own_id: String) -> (session: Session<T>)
        ensures
            session.is_new(self.transport, own_id@),
    {
        let peers: Vec<String> = Vec::new();
        assert(texts(peers@).to_set() =~= Set::<Seq<char>>::empty());
        Session {
            transport: self.transport,
            router: Router::new(),
            chat: ChatService::new(own_id.clone()),
            discovery: Discovery::new(peers, own_id),
        }
    }
}

/// The value of a frame leaves nothing out and adds nothing.
pub proof fn law_frame_is_its_parts(frame: Frame)
    ensures
        frame@.origin == frame.origin@,
        frame@.seq == frame.seq,
        frame@.ttl == frame.ttl,
        frame@.payload == frame.payload@,
{
}

/// The value of a message leaves nothing out and adds nothing.
pub proof fn law_message_is_its_parts(message: Message)
    ensures
        message matches Message::Chat { message: text, target } ==> message@ == (MessageView::Chat {
            message: text@,
            target: target@,
        }),
        message matches Message::HeartBeat { id } ==> message@ == (MessageView::HeartBeat {
            id: id@,
        }),
{
}

/// In a chat that has just started, the chat and the heartbeats go by the same
/// name over the link that was given, and no one is known yet.
pub proof fn law_new_session<T>(session: Session<T>, transport: Arc<T>, own_id: Seq<char>)
    requires
        session.is_new(transport, own_id),
    ensures
        session.transport == transport,
        session.chat.own_id@ == own_id,
        session.discovery@.own_id == own_id,
        forall|device: Seq<char>|
            {
                &&& !(#[trigger] session.discovery@.peers.contains(device))
                &&& !session.discovery@.last_seen.contains_key(device)
                &&& !session.discovery@.known_ids.contains_key(device)
            },
{
}

} // verus!
