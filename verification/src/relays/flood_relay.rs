//! A relay that floods frames over several links.

use std::sync::Arc;

use vstd::prelude::*;

use crate::flood::{
    came_by, is_news, key_of, law_numbers_do_not_repeat, law_taken_up_once,
    law_taken_up_unless_it_came_by, lemma_number_after, memory_after, memory_after_all, news_count,
    next_hop, next_number, number_after, take_up, MAX_SEEN, MAX_TTL,
};
use crate::identity::{fresh_id, names_random_id};
use crate::relays::fan_out::{FanOut, Rule};
use crate::seen::{Key, Seen};
use crate::{Frame, FrameView};

verus! {

/// A relay over the links `inners`.
pub struct FloodRelay<T> {
    inners: Vec<Arc<T>>,
    own_id: String,
    seq: u64,
    ttl: u8,
    seen: Seen,
}

/// The state of a relay: its links, its name, the number of its next frame,
/// the hops it gives its frames, and what it remembers, oldest first.
#[verifier::ext_equal]
pub struct RelayView<T> {
    pub links: Seq<Arc<T>>,
    pub own_id: Seq<char>,
    pub seq: u64,
    pub ttl: u8,
    pub memory: Seq<Key>,
}

/// What to do about a frame that came in over a link.
#[derive(Debug)]
pub enum Reception {
    /// Nothing.
    Drop,
    /// Hand the payload to whoever listens.
    Deliver(Vec<u8>),
    /// Encode the frame; what comes of that decides the rest.
    Relay(Frame),
}

/// What to do once a frame to be passed on has been encoded: bytes to send
/// over every link, whatever comes of it, and then a payload to hand to whoever
/// listens.
pub struct Forwarding<T, E> {
    pub send: Vec<u8>,
    pub run: FanOut<T, E>,
    pub deliver: Vec<u8>,
}

/// What to do to send something: a frame to encode, and a run over the links
/// for what comes of that.
pub struct Broadcast<T, E> {
    pub frame: Frame,
    pub run: FanOut<T, E>,
}

/// The relay after a frame has come in; `None` is one that could not be read.
pub open spec fn after_frame<T>(relay: RelayView<T>, decoded: Option<FrameView>) -> RelayView<T> {
    match decoded {
        Some(frame) => RelayView {
            memory: memory_after(relay.own_id, relay.memory, MAX_SEEN as nat, frame),
            ..relay
        },
        None => relay,
    }
}

/// The relay after it has sent a frame.
pub open spec fn after_broadcast<T>(relay: RelayView<T>) -> RelayView<T> {
    RelayView { seq: next_number(relay.seq), ..relay }
}

/// The frame in which a relay sends `data`.
pub open spec fn outgoing<T>(relay: RelayView<T>, data: Seq<u8>) -> FrameView {
    FrameView { origin: relay.own_id, seq: relay.seq, ttl: relay.ttl, payload: data }
}

/// Whether `step` is what a relay does about a frame that came in.
pub open spec fn reacts_with<T>(
    relay: RelayView<T>,
    decoded: Option<FrameView>,
    step: Reception,
) -> bool {
    match decoded {
        Some(frame) if is_news(relay.own_id, relay.memory, frame) => match next_hop(frame) {
            Some(next) => step matches Reception::Relay(passed) && passed@ == next,
            None => step matches Reception::Deliver(payload) && payload@ == frame.payload,
        },
        _ => step is Drop,
    }
}

/// A relay that has not sent or seen anything.
pub open spec fn is_new<T>(relay: RelayView<T>, links: Seq<Arc<T>>, ttl: u8) -> bool {
    relay == (RelayView {
        links,
        own_id: relay.own_id,
        seq: 0,
        ttl,
        memory: Seq::<Key>::empty(),
    })
}

impl<T> View for FloodRelay<T> {
    type V = RelayView<T>;

    closed spec fn view(&self) -> RelayView<T> {
        RelayView {
            links: self.inners@,
            own_id: self.own_id@,
            seq: self.seq,
            ttl: self.ttl,
            memory: self.seen@,
        }
    }
}

impl<T> FloodRelay<T> {
    /// The memory is in order and has its full size.
    pub closed spec fn wf(&self) -> bool {
        self.seen.wf() && self.seen.capacity() == MAX_SEEN
    }

    /// A relay remembers no frame twice, and no more of them than it has room for.
    pub proof fn law_memory_is_bounded(&self)
        requires
            self.wf(),
        ensures
            self@.memory.no_duplicates(),
            self@.memory.len() <= MAX_SEEN,
    {
        self.seen.law_bounded();
    }

    /// A relay over `inners` under a newly drawn name.
    pub fn wrap(inners: Vec<Arc<T>>, ttl: u8) -> (relay: Self)
        ensures
            relay.wf(),
            is_new(relay@, inners@, ttl),
            names_random_id(relay@.own_id),
    {
        Self::with_id(inners, fresh_id(), ttl)
    }

    /// A relay over `inners` called `own_id`.
    pub fn with_id(inners: Vec<Arc<T>>, own_id: String, ttl: u8) -> (relay: Self)
        ensures
            relay.wf(),
            is_new(relay@, inners@, ttl),
            relay@.own_id == own_id@,
    {
        FloodRelay { inners, own_id, seq: 0, ttl, seen: Seen::new(MAX_SEEN) }
    }

    /// A relay over `inners` that gives its frames the usual number of hops.
    pub fn with_inner_transports(inners: Vec<Arc<T>>) -> (relay: Self)
        ensures
            relay.wf(),
            is_new(relay@, inners@, MAX_TTL),
            names_random_id(relay@.own_id),
    {
        Self::wrap(inners, MAX_TTL)
    }

    /// A relay over the one link `inner`.
    pub fn new(inner: T) -> (relay: Self)
        ensures
            relay.wf(),
            is_new(relay@, seq![Arc::new(inner)], MAX_TTL),
            names_random_id(relay@.own_id),
    {
        let mut inners: Vec<Arc<T>> = Vec::new();
        inners.push(Arc::new(inner));
        let relay = Self::wrap(inners, MAX_TTL);
        assert(relay@.links =~= seq![Arc::new(inner)]);
        relay
    }

    /// The links, in the order in which they were added.
    pub fn inners_arc(&self) -> (links: Vec<Arc<T>>)
        ensures
            links@ == self@.links,
    {
        let mut links: Vec<Arc<T>> = Vec::new();
        let mut i: usize = 0;
        while i < self.inners.len()
            invariant
                i <= self.inners@.len(),
                links@ == self.inners@.take(i as int),
            decreases self.inners@.len() - i,
        {
            links.push(self.inners[i].clone());
            i += 1;
            assert(links@ =~= self.inners@.take(i as int));
        }
        assert(links@ =~= self.inners@);
        links
    }

    /// The links, in the order in which they were added.
    pub fn transports(&self) -> (links: Vec<Arc<T>>)
        ensures
            links@ == self@.links,
    {
        self.inners_arc()
    }

    /// Adds a link after the others.
    pub fn add_transport(&mut self, inner: Arc<T>)
        requires
            old(self).wf(),
        ensures
            final(self).wf(),
            final(self)@ == (RelayView { links: old(self)@.links.push(inner), ..old(self)@ }),
    {
        self.inners.push(inner);
    }

    /// The name of the relay.
    pub fn own_id(&self) -> (id: &str)
        ensures
            id@ == self@.own_id,
    {
        self.own_id.as_str()
    }

    /// Takes in a frame; `None` is one that could not be read.
    pub fn receive(&mut self, decoded: Option<Frame>) -> (step: Reception)
        requires
            old(self).wf(),
        ensures
            final(self).wf(),
            final(self)@ == after_frame(
                old(self)@,
                match decoded {
                    Some(frame) => Some(frame@),
                    None => None,
                },
            ),
            reacts_with(
                old(self)@,
                match decoded {
                    Some(frame) => Some(frame@),
                    None => None,
                },
                step,
            ),
    {
        let Some(mut frame) = decoded else {
            return Reception::Drop;
        };
        if !take_up(&self.own_id, &mut self.seen, &frame) {
            return Reception::Drop;
        }
        if frame.ttl > 1 {
            frame.ttl = frame.ttl - 1;
            Reception::Relay(frame)
        } else {
            Reception::Deliver(frame.payload)
        }
    }

    /// Decides what follows the encoding of a frame to be passed on. A frame
    /// that cannot be encoded is neither passed on nor delivered.
    pub fn forward<E>(&self, frame: Frame, encoded: Option<Vec<u8>>) -> (next: Option<
        Forwarding<T, E>,
    >)
        ensures
            next is Some <==> encoded is Some,
            next matches Some(forwarding) ==> {
                &&& forwarding.send == encoded->0
                &&& forwarding.run.is_start(Rule::Everything, self@.links)
                &&& forwarding.deliver == frame.payload
            },
    {
        match encoded {
            Some(send) => Some(
                Forwarding {
                    send,
                    run: FanOut::new(Rule::Everything, self.inners_arc()),
                    deliver: frame.payload,
                },
            ),
            None => None,
        }
    }

    /// The frame in which to send `data` over every link, up to the first one
    /// that fails.
    pub fn broadcast<E>(&mut self, data: &[u8]) -> (sending: Broadcast<T, E>)
        requires
            old(self).wf(),
        ensures
            final(self).wf(),
            final(self)@ == after_broadcast(old(self)@),
            sending.frame@ == outgoing(old(self)@, data@),
            sending.run.is_start(Rule::FirstFailure, old(self)@.links),
    {
        let seq: u64 = self.seq;
        self.seq = seq.wrapping_add(1);
        let frame = Frame::new(
            self.own_id.clone(),
            seq,
            self.ttl,
            vstd::slice::slice_to_vec(data),
        );
        Broadcast { frame, run: FanOut::new(Rule::FirstFailure, self.inners_arc()) }
    }

    /// A run over the links up to the first one on which something works.
    pub fn first_success<E>(&self) -> (run: FanOut<T, E>)
        ensures
            run.is_start(Rule::FirstSuccess, self@.links),
    {
        FanOut::new(Rule::FirstSuccess, self.inners_arc())
    }

    /// A run that advertises on every link, up to the first one that fails.
    pub fn advertise<E>(&self) -> (run: FanOut<T, E>)
        ensures
            run.is_start(Rule::FirstFailure, self@.links),
    {
        FanOut::new(Rule::FirstFailure, self.inners_arc())
    }

    /// A run that scans on every link, up to the first one that fails.
    pub fn scan<E>(&self) -> (run: FanOut<T, E>)
        ensures
            run.is_start(Rule::FirstFailure, self@.links),
    {
        FanOut::new(Rule::FirstFailure, self.inners_arc())
    }

    /// A run that connects to a peer over the first link that can.
    pub fn connect<E>(&self) -> (run: FanOut<T, E>)
        ensures
            run.is_start(Rule::FirstSuccess, self@.links),
    {
        self.first_success()
    }

    /// A run that subscribes to a peer over the first link that can.
    pub fn subscribe<E>(&self) -> (run: FanOut<T, E>)
        ensures
            run.is_start(Rule::FirstSuccess, self@.links),
    {
        self.first_success()
    }

    /// A run that disconnects from a peer on every link, whatever comes of it.
    pub fn disconnect<E>(&self) -> (run: FanOut<T, E>)
        ensures
            run.is_start(Rule::Everything, self@.links),
    {
        FanOut::new(Rule::Everything, self.inners_arc())
    }
}

/// A relay drops its own frames when they come back to it, whatever it has
/// done in the meantime.
pub proof fn law_own_echo_is_dropped<T>(
    sender: RelayView<T>,
    data: Seq<u8>,
    later: RelayView<T>,
    step: Reception,
)
    requires
        later.own_id == sender.own_id,
        reacts_with(later, Some(outgoing(sender, data)), step),
    ensures
        step is Drop,
        after_frame(later, Some(outgoing(sender, data))) == later,
{
}

/// A frame that has just come in is dropped when it comes in again, whatever
/// its remaining hops and payload are then.
pub proof fn law_relayed_once<T>(
    relay: RelayView<T>,
    first: FrameView,
    second: FrameView,
    step: Reception,
)
    requires
        key_of(first) == key_of(second),
        reacts_with(after_frame(relay, Some(first)), Some(second), step),
    ensures
        step is Drop,
{
    law_taken_up_once(relay.own_id, relay.memory, MAX_SEEN as nat, first, second);
}

/// What one relay sends, another one takes up unchanged the first time.
pub proof fn law_sent_data_is_taken_up<T>(
    sender: RelayView<T>,
    data: Seq<u8>,
    receiver: RelayView<T>,
    step: Reception,
)
    requires
        receiver.own_id != sender.own_id,
        !receiver.memory.contains((sender.own_id, sender.seq)),
        reacts_with(receiver, Some(outgoing(sender, data)), step),
    ensures
        sender.ttl <= 1 ==> (step matches Reception::Deliver(payload) && payload@ == data),
        sender.ttl > 1 ==> (step matches Reception::Relay(frame) && frame@ == (FrameView {
            ttl: (sender.ttl - 1) as u8,
            ..outgoing(sender, data)
        })),
{
}

/// The relay after `arrivals` have come in, one after the other; `None` is a
/// frame that could not be read.
pub open spec fn after_frames<T>(
    relay: RelayView<T>,
    arrivals: Seq<Option<FrameView>>,
) -> RelayView<T>
    decreases arrivals.len(),
{
    if arrivals.len() == 0 {
        relay
    } else {
        after_frame(after_frames(relay, arrivals.drop_last()), arrivals.last())
    }
}

/// How many of `arrivals` a relay takes up as they come in.
pub open spec fn taken_up_count<T>(relay: RelayView<T>, arrivals: Seq<Option<FrameView>>) -> nat {
    news_count(relay.own_id, relay.memory, MAX_SEEN as nat, arrivals)
}

/// A frame that a relay has taken up is dropped when it comes in again,
/// whatever its remaining hops and payload are then, until the relay has taken
/// up as many others as it remembers.
pub proof fn law_taken_up_once_while_remembered<T>(
    relay: RelayView<T>,
    frame: FrameView,
    later: Seq<Option<FrameView>>,
    again: FrameView,
    step: Reception,
)
    requires
        relay.memory.len() <= MAX_SEEN,
        is_news(relay.own_id, relay.memory, frame),
        taken_up_count(after_frame(relay, Some(frame)), later) < MAX_SEEN,
        key_of(again) == key_of(frame),
        reacts_with(after_frames(after_frame(relay, Some(frame)), later), Some(again), step),
    ensures
        step is Drop,
{
    lemma_after_frames(after_frame(relay, Some(frame)), later);
    crate::flood::law_taken_up_once_while_remembered(
        relay.own_id,
        relay.memory,
        MAX_SEEN as nat,
        frame,
        later,
        again,
    );
}

proof fn lemma_after_frames<T>(relay: RelayView<T>, arrivals: Seq<Option<FrameView>>)
    ensures
        after_frames(relay, arrivals) == (RelayView {
            memory: memory_after_all(relay.own_id, relay.memory, MAX_SEEN as nat, arrivals),
            ..relay
        }),
    decreases arrivals.len(),
{
    if arrivals.len() > 0 {
        lemma_after_frames(relay, arrivals.drop_last());
    }
}

/// The relay after it has sent `count` frames.
pub open spec fn after_broadcasts<T>(relay: RelayView<T>, count: nat) -> RelayView<T>
    decreases count,
{
    if count == 0 {
        relay
    } else {
        after_broadcast(after_broadcasts(relay, (count - 1) as nat))
    }
}

/// No frame that a relay sends is mistaken for one that it sent before, as long
/// as its numbers last.
pub proof fn law_sent_frames_are_told_apart<T>(
    relay: RelayView<T>,
    earlier: nat,
    later: nat,
    first: Seq<u8>,
    second: Seq<u8>,
)
    requires
        earlier < later,
        later - earlier <= u64::MAX,
    ensures
        key_of(outgoing(after_broadcasts(relay, earlier), first)) != key_of(
            outgoing(after_broadcasts(relay, later), second),
        ),
{
    lemma_after_broadcasts(relay, earlier);
    lemma_after_broadcasts(relay, later);
    law_numbers_do_not_repeat(relay.seq, earlier, later);
}

proof fn lemma_after_broadcasts<T>(relay: RelayView<T>, count: nat)
    ensures
        after_broadcasts(relay, count).seq == number_after(relay.seq, count),
    decreases count,
{
    if count > 0 {
        lemma_after_broadcasts(relay, (count - 1) as nat);
    }
}

/// Something that happens to a relay: a frame comes in, one is sent, whatever
/// comes of it on the links, or a link is added.
pub enum Event<T> {
    Arrival(Option<FrameView>),
    Sending,
    NewLink(Arc<T>),
}

/// The relay after `events`, one after the other.
pub open spec fn after_events<T>(relay: RelayView<T>, events: Seq<Event<T>>) -> RelayView<T>
    decreases events.len(),
{
    if events.len() == 0 {
        relay
    } else {
        let before = after_events(relay, events.drop_last());
        match events.last() {
            Event::Arrival(arrival) => after_frame(before, arrival),
            Event::Sending => after_broadcast(before),
            Event::NewLink(link) => RelayView { links: before.links.push(link), ..before },
        }
    }
}

/// How many frames are sent among `events`.
pub open spec fn sendings<T>(events: Seq<Event<T>>) -> nat
    decreases events.len(),
{
    if events.len() == 0 {
        0
    } else {
        sendings(events.drop_last()) + if events.last() is Sending {
            1nat
        } else {
            0nat
        }
    }
}

/// A new relay numbers its frames in turn, starting from zero, whatever happens
/// in between: each frame bears as its number how many were sent before it, so
/// that no number is left out and none is used twice.
pub proof fn law_frames_are_numbered_in_turn<T>(
    relay: RelayView<T>,
    links: Seq<Arc<T>>,
    ttl: u8,
    events: Seq<Event<T>>,
    data: Seq<u8>,
)
    requires
        is_new(relay, links, ttl),
        sendings(events) <= u64::MAX,
    ensures
        outgoing(after_events(relay, events), data) == (FrameView {
            origin: relay.own_id,
            seq: sendings(events) as u64,
            ttl,
            payload: data,
        }),
{
    lemma_events(relay, events);
    lemma_number_after(0, sendings(events));
}

proof fn lemma_events<T>(relay: RelayView<T>, events: Seq<Event<T>>)
    ensures
        after_events(relay, events).own_id == relay.own_id,
        after_events(relay, events).ttl == relay.ttl,
        after_events(relay, events).seq == number_after(relay.seq, sendings(events)),
    decreases events.len(),
{
    if events.len() > 0 {
        lemma_events(relay, events.drop_last());
    }
}

/// What has come in among `events`, in order.
pub open spec fn arrivals_among<T>(events: Seq<Event<T>>) -> Seq<Option<FrameView>>
    decreases events.len(),
{
    if events.len() == 0 {
        seq![]
    } else {
        let before = arrivals_among(events.drop_last());
        match events.last() {
            Event::Arrival(arrival) => before.push(arrival),
            _ => before,
        }
    }
}

/// Whether a frame from `origin` with the number `seq` has come in among
/// `events`.
pub open spec fn came_in<T>(events: Seq<Event<T>>, origin: Seq<char>, seq: u64) -> bool {
    exists|i: int|
        0 <= i < events.len() && ((#[trigger] events[i]) matches Event::Arrival(Some(frame))
            && frame.origin == origin && frame.seq == seq)
}

/// A new relay drops its own frames and those that have come in before, and no
/// others, whatever it has sent and whatever links it was given in between. It
/// delivers a frame on its last hop as it came, and passes any other on with
/// one hop less.
pub proof fn law_every_new_frame_is_taken_up_once<T>(
    relay: RelayView<T>,
    links: Seq<Arc<T>>,
    ttl: u8,
    events: Seq<Event<T>>,
    frame: FrameView,
    step: Reception,
)
    requires
        is_new(relay, links, ttl),
        arrivals_among(events).len() <= 8192,
        reacts_with(after_events(relay, events), Some(frame), step),
    ensures
        step is Drop <==> {
            ||| frame.origin == relay.own_id
            ||| came_in(events, frame.origin, frame.seq)
        },
        step matches Reception::Deliver(payload) ==> {
            &&& frame.ttl <= 1
            &&& payload@ == frame.payload
        },
        step matches Reception::Relay(passed) ==> {
            &&& frame.ttl == passed.ttl + 1
            &&& frame.ttl >= 2
            &&& passed.origin@ == frame.origin
            &&& passed.seq == frame.seq
            &&& passed.payload@ == frame.payload
        },
{
    lemma_events_as_arrivals(relay, events);
    lemma_came_in(events, frame.origin, frame.seq);
    law_taken_up_unless_it_came_by(
        relay.own_id,
        MAX_SEEN as nat,
        arrivals_among(events),
        frame,
    );
}

/// A frame that a relay has taken up is dropped when it comes in again,
/// whatever its remaining hops and payload are then, until the relay has taken
/// up as many others as it remembers, whatever it has sent and whatever links
/// it was given in between.
pub proof fn law_dropped_while_remembered<T>(
    relay: RelayView<T>,
    frame: FrameView,
    later: Seq<Event<T>>,
    again: FrameView,
    step: Reception,
)
    requires
        relay.memory.len() <= 8192,
        is_news(relay.own_id, relay.memory, frame),
        taken_up_count(after_frame(relay, Some(frame)), arrivals_among(later)) < 8192,
        again.origin == frame.origin,
        again.seq == frame.seq,
        reacts_with(after_events(after_frame(relay, Some(frame)), later), Some(again), step),
    ensures
        step is Drop,
{
    lemma_events_as_arrivals(after_frame(relay, Some(frame)), later);
    crate::flood::law_taken_up_once_while_remembered(
        relay.own_id,
        relay.memory,
        MAX_SEEN as nat,
        frame,
        arrivals_among(later),
        again,
    );
}

/// Sending uses up a number and changes nothing else: what the relay remembers
/// and its links stay as they are.
pub proof fn law_sending_uses_up_a_number<T>(relay: RelayView<T>)
    ensures
        after_broadcast(relay).memory == relay.memory,
        after_broadcast(relay).links == relay.links,
        after_broadcast(relay).own_id == relay.own_id,
        after_broadcast(relay).ttl == relay.ttl,
        after_broadcast(relay).seq == (relay.seq + 1) % 0x1_0000_0000_0000_0000,
{
}

/// What comes in touches neither the links nor what the relay sends, and what
/// cannot be read touches nothing at all and is dropped.
pub proof fn law_arrivals_change_the_memory_only<T>(
    relay: RelayView<T>,
    decoded: Option<FrameView>,
    step: Reception,
)
    requires
        reacts_with(relay, decoded, step),
    ensures
        after_frame(relay, decoded).links == relay.links,
        after_frame(relay, decoded).own_id == relay.own_id,
        after_frame(relay, decoded).ttl == relay.ttl,
        after_frame(relay, decoded).seq == relay.seq,
        decoded is None ==> step is Drop && after_frame(relay, decoded) == relay,
{
}

/// A relay keeps the links it was made with, in order, and new ones come after
/// them.
pub proof fn law_links_are_kept<T>(
    relay: RelayView<T>,
    links: Seq<Arc<T>>,
    ttl: u8,
    events: Seq<Event<T>>,
)
    requires
        is_new(relay, links, ttl),
    ensures
        links.is_prefix_of(after_events(relay, events).links),
        (forall|i: int| 0 <= i < events.len() ==> !((#[trigger] events[i]) is NewLink))
            ==> after_events(relay, events).links == links,
    decreases events.len(),
{
    if events.len() > 0 {
        let head = events.drop_last();
        law_links_are_kept(relay, links, ttl, head);
        if forall|i: int| 0 <= i < events.len() ==> !((#[trigger] events[i]) is NewLink) {
            assert forall|i: int| 0 <= i < head.len() implies !((#[trigger] head[i])
                is NewLink) by {
                assert(head[i] == events[i]);
            }
            assert(events[events.len() - 1] == events.last());
        }
    }
}

proof fn lemma_events_as_arrivals<T>(relay: RelayView<T>, events: Seq<Event<T>>)
    ensures
        after_events(relay, events).own_id == relay.own_id,
        after_events(relay, events).memory == memory_after_all(
            relay.own_id,
            relay.memory,
            MAX_SEEN as nat,
            arrivals_among(events),
        ),
    decreases events.len(),
{
    if events.len() > 0 {
        lemma_events_as_arrivals(relay, events.drop_last());
        if let Event::Arrival(arrival) = events.last() {
            let before = arrivals_among(events.drop_last());
            assert(before.push(arrival).drop_last() =~= before);
        }
    }
}

proof fn lemma_came_in<T>(events: Seq<Event<T>>, origin: Seq<char>, seq: u64)
    ensures
        came_by(arrivals_among(events), origin, seq) <==> came_in(events, origin, seq),
    decreases events.len(),
{
    if events.len() > 0 {
        let head = events.drop_last();
        lemma_came_in(head, origin, seq);
        let before = arrivals_among(head);
        let after = arrivals_among(events);
        if came_in(head, origin, seq) {
            let i = choose|i: int|
                0 <= i < head.len() && ((#[trigger] head[i]) matches Event::Arrival(Some(frame))
                    && frame.origin == origin && frame.seq == seq);
            assert(events[i] == head[i]);
        }
        if came_in(events, origin, seq) {
            let i = choose|i: int|
                0 <= i < events.len() && ((#[trigger] events[i]) matches Event::Arrival(
                    Some(frame),
                ) && frame.origin == origin && frame.seq == seq);
            assert(i < head.len() ==> head[i] == events[i]);
        }
        assert(events[events.len() - 1] == events.last());
        if let Event::Arrival(arrival) = events.last() {
            assert(after[before.len() as int] == arrival);
            if came_by(before, origin, seq) {
                let i = choose|i: int|
                    0 <= i < before.len() && ((#[trigger] before[i]) matches Some(frame)
                        && frame.origin == origin && frame.seq == seq);
                assert(after[i] == before[i]);
            }
            if came_by(after, origin, seq) {
                let i = choose|i: int|
                    0 <= i < after.len() && ((#[trigger] after[i]) matches Some(frame)
                        && frame.origin == origin && frame.seq == seq);
                assert(i < before.len() ==> before[i] == after[i]);
            }
        }
    }
}

/// A relay sends the whole of what it is given, under its own name, with its
/// next number and with the hops it was made with.
pub proof fn law_what_is_sent<T>(relay: RelayView<T>, data: Seq<u8>)
    ensures
        outgoing(relay, data).origin == relay.own_id,
        outgoing(relay, data).seq == relay.seq,
        outgoing(relay, data).ttl == relay.ttl,
        outgoing(relay, data).payload == data,
{
}

/// A new relay has the links and the hops it was made with, starts counting at
/// zero and remembers nothing.
pub proof fn law_new_relay<T>(relay: RelayView<T>, links: Seq<Arc<T>>, ttl: u8)
    requires
        is_new(relay, links, ttl),
    ensures
        relay.links == links,
        relay.ttl == ttl,
        relay.seq == 0,
        relay.memory.len() == 0,
{
}

} // verus!
