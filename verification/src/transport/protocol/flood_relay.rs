//! A relay that floods packets over one link.

use std::sync::Arc;

use vstd::arithmetic::power::pow;
use vstd::prelude::*;
use vstd::utf8::encode_utf8;

use crate::flood::{
    came_by, is_news, key_of, law_numbers_do_not_repeat, law_taken_up_once,
    law_taken_up_once_while_remembered, law_taken_up_unless_it_came_by, lemma_number_after,
    memory_after, memory_after_all, news_count, next_hop, next_number, number_after, take_up,
    MAX_SEEN, MAX_TTL,
};
use crate::identity::{fresh_id, names_random_id};
use crate::seen::{Key, Seen};
use crate::transport::protocol::packet::{
    decode_packet, encode_packet, fits_packet, law_packet_layout, law_read_gives_back_write,
    law_write_gives_back_read, packet_bytes, packet_frame,
};
use crate::FrameView;

verus! {

/// A relay over the link `inner`.
pub struct FloodRelay<T> {
    inner: Arc<T>,
    own_id: String,
    seq: u64,
    ttl: u8,
    seen: Seen,
}

/// The state of a relay: its name, the number of its next packet, the hops it
/// gives its packets, and what it remembers, oldest first.
pub struct RelayView {
    pub own_id: Seq<char>,
    pub seq: u64,
    pub ttl: u8,
    pub memory: Seq<Key>,
}

/// What to do about a packet: pass a packet on to the link, and hand a payload
/// to whoever listens.
#[derive(Debug)]
pub struct Reaction {
    pub forward: Option<Vec<u8>>,
    pub deliver: Option<Vec<u8>>,
}

/// The value of a [`Reaction`].
#[verifier::ext_equal]
pub struct ReactionView {
    pub forward: Option<Seq<u8>>,
    pub deliver: Option<Seq<u8>>,
}

impl View for Reaction {
    type V = ReactionView;

    open spec fn view(&self) -> ReactionView {
        ReactionView {
            forward: match self.forward {
                Some(bytes) => Some(bytes@),
                None => None,
            },
            deliver: match self.deliver {
                Some(bytes) => Some(bytes@),
                None => None,
            },
        }
    }
}

/// What a relay does about `packet`.
pub open spec fn reaction(relay: RelayView, packet: Seq<u8>) -> ReactionView {
    match packet_frame(packet) {
        Some(frame) if is_news(relay.own_id, relay.memory, frame) => ReactionView {
            forward: match next_hop(frame) {
                Some(next) => Some(packet_bytes(next)),
                None => None,
            },
            deliver: Some(frame.payload),
        },
        _ => ReactionView { forward: None, deliver: None },
    }
}

/// The relay after `packet` has come in.
pub open spec fn after_packet(relay: RelayView, packet: Seq<u8>) -> RelayView {
    match packet_frame(packet) {
        Some(frame) => RelayView {
            memory: memory_after(relay.own_id, relay.memory, MAX_SEEN as nat, frame),
            ..relay
        },
        None => relay,
    }
}

/// The packet in which a relay sends `data`.
pub open spec fn outgoing(relay: RelayView, data: Seq<u8>) -> Seq<u8> {
    packet_bytes(
        FrameView { origin: relay.own_id, seq: relay.seq, ttl: relay.ttl, payload: data },
    )
}

/// The relay after it has sent a packet.
pub open spec fn after_send(relay: RelayView) -> RelayView {
    RelayView { seq: next_number(relay.seq), ..relay }
}

impl<T> View for FloodRelay<T> {
    type V = RelayView;

    closed spec fn view(&self) -> RelayView {
        RelayView { own_id: self.own_id@, seq: self.seq, ttl: self.ttl, memory: self.seen@ }
    }
}

impl<T> FloodRelay<T> {
    /// The memory is in order and has its full size.
    pub closed spec fn wf(&self) -> bool {
        self.seen.wf() && self.seen.capacity() == MAX_SEEN
    }

    /// The link.
    pub closed spec fn link(&self) -> Arc<T> {
        self.inner
    }

    /// A relay remembers no packet twice, and no more of them than it has room for.
    pub proof fn law_memory_is_bounded(&self)
        requires
            self.wf(),
        ensures
            self@.memory.no_duplicates(),
            self@.memory.len() <= MAX_SEEN,
    {
        self.seen.law_bounded();
    }

    /// A relay over `inner` under a newly drawn name.
    pub fn wrap(inner: Arc<T>, ttl: u8) -> (relay: Self)
        ensures
            relay.wf(),
            relay.link() == inner,
            names_random_id(relay@.own_id),
            relay@ == (RelayView {
                own_id: relay@.own_id,
                seq: 0,
                ttl,
                memory: Seq::<Key>::empty(),
            }),
    {
        Self::with_id(inner, fresh_id(), ttl)
    }

    /// A relay over `inner` called `own_id`.
    pub fn with_id(inner: Arc<T>, own_id: String, ttl: u8) -> (relay: Self)
        ensures
            relay.wf(),
            relay.link() == inner,
            relay@ == (RelayView { own_id: own_id@, seq: 0, ttl, memory: Seq::<Key>::empty() }),
    {
        FloodRelay { inner, own_id, seq: 0, ttl, seen: Seen::new(MAX_SEEN) }
    }

    /// A relay that gives its packets the usual number of hops.
    pub fn new(inner: Arc<T>) -> (relay: Self)
        ensures
            relay.wf(),
            relay.link() == inner,
            names_random_id(relay@.own_id),
            relay@ == (RelayView {
                own_id: relay@.own_id,
                seq: 0,
                ttl: MAX_TTL,
                memory: Seq::<Key>::empty(),
            }),
    {
        Self::wrap(inner, MAX_TTL)
    }

    /// The link.
    pub fn inner(&self) -> (inner: Arc<T>)
        ensures
            inner == self.link(),
    {
        self.inner.clone()
    }

    /// The name of the relay.
    pub fn own_id(&self) -> (id: &str)
        ensures
            id@ == self@.own_id,
    {
        self.own_id.as_str()
    }

    /// Takes in a packet from the link.
    pub fn receive(&mut self, packet: &[u8]) -> (done: Reaction)
        requires
            old(self).wf(),
        ensures
            final(self).wf(),
            final(self).link() == old(self).link(),
            final(self)@ == after_packet(old(self)@, packet@),
            done@ == reaction(old(self)@, packet@),
    {
        let Some(frame) = decode_packet(packet) else {
            return Reaction { forward: None, deliver: None };
        };
        if !take_up(&self.own_id, &mut self.seen, &frame) {
            return Reaction { forward: None, deliver: None };
        }
        let forward = if frame.ttl > 1 {
            Some(
                encode_packet(
                    frame.origin.as_str(),
                    frame.seq,
                    frame.ttl - 1,
                    frame.payload.as_slice(),
                ),
            )
        } else {
            None
        };
        Reaction { forward, deliver: Some(frame.payload) }
    }

    /// The packet in which to send `data` over the link.
    pub fn send(&mut self, data: &[u8]) -> (packet: Vec<u8>)
        requires
            old(self).wf(),
        ensures
            final(self).wf(),
            final(self).link() == old(self).link(),
            final(self)@ == after_send(old(self)@),
            packet@ == outgoing(old(self)@, data@),
    {
        let seq: u64 = self.seq;
        self.seq = seq.wrapping_add(1);
        encode_packet(self.own_id.as_str(), seq, self.ttl, data)
    }
}

/// A relay drops its own packets when they come back to it, whatever it has
/// done in the meantime.
pub proof fn law_own_echo_is_dropped(sender: RelayView, data: Seq<u8>, later: RelayView)
    requires
        fits_packet(sender.own_id),
        later.own_id == sender.own_id,
    ensures
        reaction(later, outgoing(sender, data)) == (ReactionView { forward: None, deliver: None }),
        after_packet(later, outgoing(sender, data)) == later,
{
    let frame = FrameView {
        origin: sender.own_id,
        seq: sender.seq,
        ttl: sender.ttl,
        payload: data,
    };
    if sender.ttl != 0 {
        law_read_gives_back_write(frame);
    } else {
        assert(packet_bytes(frame)[0] == 0);
    }
}

/// What one relay sends, another one delivers unchanged the first time, and
/// passes on while hops are left.
pub proof fn law_sent_data_is_delivered(sender: RelayView, data: Seq<u8>, receiver: RelayView)
    requires
        fits_packet(sender.own_id),
        sender.ttl != 0,
        receiver.own_id != sender.own_id,
        !receiver.memory.contains((sender.own_id, sender.seq)),
    ensures
        reaction(receiver, outgoing(sender, data)).deliver == Some(data),
        reaction(receiver, outgoing(sender, data)).forward == (if sender.ttl > 1 {
            Some(outgoing(RelayView { ttl: (sender.ttl - 1) as u8, ..sender }, data))
        } else {
            None
        }),
{
    law_read_gives_back_write(
        FrameView { origin: sender.own_id, seq: sender.seq, ttl: sender.ttl, payload: data },
    );
}

/// A packet that has been taken in is not taken in again, nor is any other
/// packet with the same sender and number, such as the one passed on.
pub proof fn law_relayed_once(relay: RelayView, first: Seq<u8>, second: Seq<u8>)
    requires
        packet_frame(first) is Some,
        packet_frame(second) matches Some(frame) ==> key_of(frame) == key_of(
            packet_frame(first)->0,
        ),
    ensures
        reaction(after_packet(relay, first), second) == (ReactionView {
            forward: None,
            deliver: None,
        }),
{
    if let Some(frame) = packet_frame(second) {
        law_taken_up_once(
            relay.own_id,
            relay.memory,
            MAX_SEEN as nat,
            packet_frame(first)->0,
            frame,
        );
    }
}

/// A packet passed on is the one that came in with one hop less.
pub proof fn law_forwarded_packet(relay: RelayView, packet: Seq<u8>)
    requires
        reaction(relay, packet).forward is Some,
    ensures
        packet_frame(packet) is Some,
        packet_frame(reaction(relay, packet).forward->0) == next_hop(packet_frame(packet)->0),
        reaction(relay, packet).deliver is Some,
{
    law_write_gives_back_read(packet);
    law_read_gives_back_write(next_hop(packet_frame(packet)->0)->0);
}

/// Whether every packet of `path` was passed on by the relay that the one
/// before it came to.
pub open spec fn is_packet_path(path: Seq<Seq<u8>>, relays: Seq<RelayView>) -> bool {
    &&& relays.len() == path.len() - 1
    &&& forall|i: int|
        0 <= i < relays.len() ==> reaction(#[trigger] relays[i], path[i]).forward == Some(
            path[i + 1],
        )
}

/// However the relays are linked, a packet is passed on fewer times than the
/// hops it was given.
pub proof fn law_packet_flood_dies_out(path: Seq<Seq<u8>>, relays: Seq<RelayView>)
    requires
        path.len() > 1,
        is_packet_path(path, relays),
    ensures
        packet_frame(path[0]) is Some,
        relays.len() < (packet_frame(path[0])->0).ttl,
        packet_frame(path.last()) == Some(
            FrameView {
                ttl: ((packet_frame(path[0])->0).ttl - relays.len()) as u8,
                ..packet_frame(path[0])->0
            },
        ),
    decreases path.len(),
{
    let last = relays.len() - 1;
    assert(reaction(relays[last], path[last]).forward == Some(path[last + 1]));
    law_forwarded_packet(relays[last], path[last]);
    if path.len() > 2 {
        let head = path.drop_last();
        assert forall|i: int| 0 <= i < relays.drop_last().len() implies reaction(
            #[trigger] relays.drop_last()[i],
            head[i],
        ).forward == Some(head[i + 1]) by {
            assert(relays.drop_last()[i] == relays[i]);
        }
        law_packet_flood_dies_out(head, relays.drop_last());
    }
}

/// The relay after `packets` have come in, one after the other.
pub open spec fn after_packets(relay: RelayView, packets: Seq<Seq<u8>>) -> RelayView
    decreases packets.len(),
{
    if packets.len() == 0 {
        relay
    } else {
        after_packet(after_packets(relay, packets.drop_last()), packets.last())
    }
}

/// How many of `packets` a relay delivers as they come in.
pub open spec fn delivered_count(relay: RelayView, packets: Seq<Seq<u8>>) -> nat
    decreases packets.len(),
{
    if packets.len() == 0 {
        0
    } else {
        delivered_count(relay, packets.drop_last()) + if reaction(
            after_packets(relay, packets.drop_last()),
            packets.last(),
        ).deliver is Some {
            1nat
        } else {
            0nat
        }
    }
}

/// A packet that a relay has delivered is neither delivered nor passed on
/// again, and neither is any other packet with the same sender and number, such
/// as one that comes back with fewer hops left, until the relay has delivered
/// as many others as it remembers.
pub proof fn law_delivered_once_while_remembered(
    relay: RelayView,
    packet: Seq<u8>,
    later: Seq<Seq<u8>>,
    again: Seq<u8>,
)
    requires
        relay.memory.len() <= MAX_SEEN,
        reaction(relay, packet).deliver is Some,
        delivered_count(after_packet(relay, packet), later) < MAX_SEEN,
        packet_frame(again) matches Some(frame) ==> key_of(frame) == key_of(
            packet_frame(packet)->0,
        ),
    ensures
        reaction(after_packets(after_packet(relay, packet), later), again) == (ReactionView {
            forward: None,
            deliver: None,
        }),
{
    lemma_packets_as_arrivals(after_packet(relay, packet), later);
    if let Some(frame) = packet_frame(again) {
        law_taken_up_once_while_remembered(
            relay.own_id,
            relay.memory,
            MAX_SEEN as nat,
            packet_frame(packet)->0,
            arrivals(later),
            frame,
        );
    }
}

/// What `packets` carry.
spec fn arrivals(packets: Seq<Seq<u8>>) -> Seq<Option<FrameView>> {
    packets.map_values(|packet: Seq<u8>| packet_frame(packet))
}

proof fn lemma_packets_as_arrivals(relay: RelayView, packets: Seq<Seq<u8>>)
    ensures
        after_packets(relay, packets) == (RelayView {
            memory: memory_after_all(
                relay.own_id,
                relay.memory,
                MAX_SEEN as nat,
                arrivals(packets),
            ),
            ..relay
        }),
        delivered_count(relay, packets) == news_count(
            relay.own_id,
            relay.memory,
            MAX_SEEN as nat,
            arrivals(packets),
        ),
    decreases packets.len(),
{
    if packets.len() > 0 {
        lemma_packets_as_arrivals(relay, packets.drop_last());
        assert(arrivals(packets).drop_last() =~= arrivals(packets.drop_last()));
    }
}

/// The relay after it has sent `count` packets.
pub open spec fn after_sends(relay: RelayView, count: nat) -> RelayView
    decreases count,
{
    if count == 0 {
        relay
    } else {
        after_send(after_sends(relay, (count - 1) as nat))
    }
}

/// No packet that a relay sends is mistaken for one that it sent before, as
/// long as its numbers last.
pub proof fn law_sent_packets_are_told_apart(
    relay: RelayView,
    earlier: nat,
    later: nat,
    first: Seq<u8>,
    second: Seq<u8>,
)
    requires
        fits_packet(relay.own_id),
        relay.ttl != 0,
        earlier < later,
        later - earlier <= u64::MAX,
    ensures
        ({
            let before = packet_frame(outgoing(after_sends(relay, earlier), first));
            let after = packet_frame(outgoing(after_sends(relay, later), second));
            &&& before is Some
            &&& after is Some
            &&& key_of(before->0) != key_of(after->0)
        }),
{
    lemma_after_sends(relay, earlier);
    lemma_after_sends(relay, later);
    law_numbers_do_not_repeat(relay.seq, earlier, later);
    law_read_gives_back_write(
        FrameView {
            origin: relay.own_id,
            seq: number_after(relay.seq, earlier),
            ttl: relay.ttl,
            payload: first,
        },
    );
    law_read_gives_back_write(
        FrameView {
            origin: relay.own_id,
            seq: number_after(relay.seq, later),
            ttl: relay.ttl,
            payload: second,
        },
    );
}

proof fn lemma_after_sends(relay: RelayView, count: nat)
    ensures
        after_sends(relay, count) == (RelayView { seq: number_after(relay.seq, count), ..relay }),
    decreases count,
{
    if count > 0 {
        lemma_after_sends(relay, (count - 1) as nat);
    }
}

/// Something that happens to a relay: a packet comes in, or one is sent.
pub enum Event {
    Packet(Seq<u8>),
    Send,
}

/// The relay after `events`, one after the other.
pub open spec fn after_events(relay: RelayView, events: Seq<Event>) -> RelayView
    decreases events.len(),
{
    if events.len() == 0 {
        relay
    } else {
        let before = after_events(relay, events.drop_last());
        match events.last() {
            Event::Packet(packet) => after_packet(before, packet),
            Event::Send => after_send(before),
        }
    }
}

/// How many packets are sent among `events`.
pub open spec fn sends(events: Seq<Event>) -> nat
    decreases events.len(),
{
    if events.len() == 0 {
        0
    } else {
        sends(events.drop_last()) + if events.last() is Send {
            1nat
        } else {
            0nat
        }
    }
}

/// A relay numbers its packets in turn, starting from zero, whatever comes in
/// between: each packet bears as its number how many were sent before it.
pub proof fn law_packets_are_numbered_in_turn(relay: RelayView, events: Seq<Event>, data: Seq<u8>)
    requires
        fits_packet(relay.own_id),
        relay.ttl != 0,
        relay.seq == 0,
        sends(events) <= u64::MAX,
    ensures
        packet_frame(outgoing(after_events(relay, events), data)) == Some(
            FrameView {
                origin: relay.own_id,
                seq: sends(events) as u64,
                ttl: relay.ttl,
                payload: data,
            },
        ),
{
    lemma_events(relay, events);
    lemma_number_after(0, sends(events));
    law_read_gives_back_write(
        FrameView {
            origin: relay.own_id,
            seq: sends(events) as u64,
            ttl: relay.ttl,
            payload: data,
        },
    );
}

proof fn lemma_events(relay: RelayView, events: Seq<Event>)
    ensures
        after_events(relay, events).own_id == relay.own_id,
        after_events(relay, events).ttl == relay.ttl,
        after_events(relay, events).seq == number_after(relay.seq, sends(events)),
    decreases events.len(),
{
    if events.len() > 0 {
        lemma_events(relay, events.drop_last());
    }
}

/// What the packets that have come in among `events` carry, in order.
pub open spec fn arrivals_among(events: Seq<Event>) -> Seq<Option<FrameView>>
    decreases events.len(),
{
    if events.len() == 0 {
        seq![]
    } else {
        let before = arrivals_among(events.drop_last());
        match events.last() {
            Event::Packet(packet) => before.push(packet_frame(packet)),
            Event::Send => before,
        }
    }
}

/// Whether a packet from `origin` with the number `seq` has come in among
/// `events`.
pub open spec fn came_in(events: Seq<Event>, origin: Seq<char>, seq: u64) -> bool {
    exists|i: int|
        0 <= i < events.len() && ((#[trigger] events[i]) matches Event::Packet(packet)
            && packet_frame(packet) matches Some(frame) && frame.origin == origin && frame.seq
            == seq)
}

/// A relay that has not sent or seen anything delivers the payload of every
/// packet that is not its own and has not come in before, and of no other,
/// whatever it has sent in between. It passes the packet on, with one hop less,
/// exactly when it delivers it and hops are left.
pub proof fn law_every_new_packet_is_delivered_once(
    relay: RelayView,
    events: Seq<Event>,
    frame: FrameView,
)
    requires
        relay.memory.len() == 0,
        arrivals_among(events).len() <= 8192,
        fits_packet(frame.origin),
        frame.ttl >= 1,
    ensures
        ({
            let done = reaction(after_events(relay, events), packet_bytes(frame));
            let dropped = frame.origin == relay.own_id || came_in(
                events,
                frame.origin,
                frame.seq,
            );
            &&& dropped ==> done.deliver is None && done.forward is None
            &&& !dropped ==> done.deliver == Some(frame.payload)
            &&& !dropped && frame.ttl == 1 ==> done.forward is None
            &&& !dropped && frame.ttl >= 2 ==> done.forward == Some(
                packet_bytes(
                    FrameView {
                        origin: frame.origin,
                        seq: frame.seq,
                        ttl: (frame.ttl - 1) as u8,
                        payload: frame.payload,
                    },
                ),
            )
        }),
{
    assert(relay.memory =~= Seq::empty());
    law_read_gives_back_write(frame);
    lemma_events_as_arrivals(relay, events);
    lemma_came_in(events, frame.origin, frame.seq);
    law_taken_up_unless_it_came_by(
        relay.own_id,
        MAX_SEEN as nat,
        arrivals_among(events),
        frame,
    );
}

/// A packet that a relay has delivered is neither delivered nor passed on
/// again, and neither is any other packet with the same sender and number,
/// until the relay has delivered as many others as it remembers, whatever it
/// has sent in between.
pub proof fn law_dropped_while_remembered(
    relay: RelayView,
    packet: Seq<u8>,
    later: Seq<Event>,
    again: Seq<u8>,
)
    requires
        relay.memory.len() <= 8192,
        reaction(relay, packet).deliver is Some,
        news_count(
            relay.own_id,
            after_packet(relay, packet).memory,
            MAX_SEEN as nat,
            arrivals_among(later),
        ) < 8192,
        packet_frame(again) matches Some(frame) ==> {
            &&& frame.origin == (packet_frame(packet)->0).origin
            &&& frame.seq == (packet_frame(packet)->0).seq
        },
    ensures
        reaction(after_events(after_packet(relay, packet), later), again).deliver is None,
        reaction(after_events(after_packet(relay, packet), later), again).forward is None,
{
    lemma_events_as_arrivals(after_packet(relay, packet), later);
    if let Some(frame) = packet_frame(again) {
        law_taken_up_once_while_remembered(
            relay.own_id,
            relay.memory,
            MAX_SEEN as nat,
            packet_frame(packet)->0,
            arrivals_among(later),
            frame,
        );
    }
}

/// Sending uses up a number and changes nothing else, and what comes in changes
/// nothing but the memory; what cannot be read changes nothing and is dropped.
pub proof fn law_what_changes(relay: RelayView, packet: Seq<u8>)
    ensures
        after_send(relay).memory == relay.memory,
        after_send(relay).own_id == relay.own_id,
        after_send(relay).ttl == relay.ttl,
        after_send(relay).seq == (relay.seq + 1) % 0x1_0000_0000_0000_0000,
        after_packet(relay, packet).own_id == relay.own_id,
        after_packet(relay, packet).ttl == relay.ttl,
        after_packet(relay, packet).seq == relay.seq,
        packet_frame(packet) is None ==> {
            &&& after_packet(relay, packet) == relay
            &&& reaction(relay, packet).deliver is None
            &&& reaction(relay, packet).forward is None
        },
{
}

/// The value of a reaction leaves nothing out and adds nothing.
pub proof fn law_reaction_is_its_parts(done: Reaction)
    ensures
        done.forward is Some <==> done@.forward is Some,
        done.deliver is Some <==> done@.deliver is Some,
        done.forward matches Some(bytes) ==> done@.forward == Some(bytes@),
        done.deliver matches Some(bytes) ==> done@.deliver == Some(bytes@),
{
}

proof fn lemma_events_as_arrivals(relay: RelayView, events: Seq<Event>)
    ensures
        after_events(relay, events).own_id == relay.own_id,
        after_events(relay, events).memory == memory_after_all(
            relay.own_id,
            relay.memory,
            MAX_SEEN as nat,
            arrivals_among(events),
        ),
    decreases events.len(),
{
    if events.len() > 0 {
        lemma_events_as_arrivals(relay, events.drop_last());
        if let Event::Packet(packet) = events.last() {
            let before = arrivals_among(events.drop_last());
            assert(before.push(packet_frame(packet)).drop_last() =~= before);
        }
    }
}

proof fn lemma_came_in(events: Seq<Event>, origin: Seq<char>, seq: u64)
    ensures
        came_by(arrivals_among(events), origin, seq) <==> came_in(events, origin, seq),
    decreases events.len(),
{
    if events.len() > 0 {
        let head = events.drop_last();
        lemma_came_in(head, origin, seq);
        let before = arrivals_among(head);
        let after = arrivals_among(events);
        if came_in(head, origin, seq) {
            let i = choose|i: int|
                0 <= i < head.len() && ((#[trigger] head[i]) matches Event::Packet(packet)
                    && packet_frame(packet) matches Some(frame) && frame.origin == origin
                    && frame.seq == seq);
            assert(events[i] == head[i]);
        }
        if came_in(events, origin, seq) {
            let i = choose|i: int|
                0 <= i < events.len() && ((#[trigger] events[i]) matches Event::Packet(packet)
                    && packet_frame(packet) matches Some(frame) && frame.origin == origin
                    && frame.seq == seq);
            assert(i < head.len() ==> head[i] == events[i]);
        }
        assert(events[events.len() - 1] == events.last());
        if let Event::Packet(packet) = events.last() {
            assert(after[before.len() as int] == packet_frame(packet));
            if came_by(before, origin, seq) {
                let i = choose|i: int|
                    0 <= i < before.len() && ((#[trigger] before[i]) matches Some(frame)
                        && frame.origin == origin && frame.seq == seq);
                assert(after[i] == before[i]);
            }
            if came_by(after, origin, seq) {
                let i = choose|i: int|
                    0 <= i < after.len() && ((#[trigger] after[i]) matches Some(frame)
                        && frame.origin == origin && frame.seq == seq);
                assert(i < before.len() ==> before[i] == after[i]);
            }
        }
    }
}

/// A relay sends the whole of what it is given, under its own name, with its
/// next number and with the hops it was made with.
pub proof fn law_what_is_sent(relay: RelayView, data: Seq<u8>)
    ensures
        ({
            let name = encode_utf8(relay.own_id);
            let packet = outgoing(relay, data);
            let end = 11 + name.len() as int;
            &&& packet.len() == end + data.len()
            &&& packet[0] == relay.ttl
            &&& forall|i: int|
                0 <= i < 8 ==> #[trigger] packet[1 + i] == (relay.seq as int / pow(
                    256,
                    (7 - i) as nat,
                )) % 256
            &&& packet[9] == (name.len() / 256) % 256
            &&& packet[10] == name.len() % 256
            &&& packet.subrange(11, end) == name
            &&& packet.skip(end) == data
        }),
{
    law_packet_layout(
        FrameView { origin: relay.own_id, seq: relay.seq, ttl: relay.ttl, payload: data },
    );
}

} // verus!
