//! Keeping track of the peers in reach.

use vstd::prelude::*;

use crate::table::{texts, Table};
use crate::{Message, MessageView};

verus! {

/// Nanoseconds between two heartbeats.
pub const HEARTBEAT_INTERVAL: u128 = 5_000_000_000;

/// Nanoseconds of silence after which a peer counts as lost.
pub const HEARTBEAT_TIMEOUT: u128 = 15_000_000_000;

/// What is known of the peers. Times are nanoseconds on a clock that never
/// goes back.
pub struct Discovery {
    own_id: String,
    peers: Table<()>,
    last_seen: Table<u128>,
    known_ids: Table<String>,
}

/// The state of a [`Discovery`]: the name of the node, the devices it is
/// connected to, when each device was last heard of, and the names under which
/// devices have introduced themselves.
#[verifier::ext_equal]
pub struct DiscoveryView {
    pub own_id: Seq<char>,
    pub peers: Set<Seq<char>>,
    pub last_seen: Map<Seq<char>, u128>,
    pub known_ids: Map<Seq<char>, Seq<char>>,
}

/// What is due when the heartbeat timer fires: devices to disconnect from, and
/// a message to send to the others.
#[derive(Debug)]
pub struct Tick {
    pub lost: Vec<String>,
    pub heartbeat: Message,
    pub targets: Vec<String>,
}

/// Whether a device last heard of at `last` is lost by `now`.
pub open spec fn is_stale(last: u128, now: u128) -> bool {
    now - last > HEARTBEAT_TIMEOUT
}

/// The devices that are lost by `now`.
pub open spec fn stale_devices(last_seen: Map<Seq<char>, u128>, now: u128) -> Set<Seq<char>> {
    Set::new(|device: Seq<char>| last_seen.contains_key(device) && is_stale(last_seen[device], now))
}

/// The state after the connection to `device` has been made.
pub open spec fn after_connect(
    state: DiscoveryView,
    device: Seq<char>,
    now: u128,
) -> DiscoveryView {
    DiscoveryView {
        peers: state.peers.insert(device),
        last_seen: state.last_seen.insert(device, now),
        ..state
    }
}

/// The state after `device` has sent a heartbeat as `id`.
pub open spec fn after_heartbeat(
    state: DiscoveryView,
    device: Seq<char>,
    id: Seq<char>,
    now: u128,
) -> DiscoveryView {
    DiscoveryView {
        last_seen: state.last_seen.insert(device, now),
        known_ids: state.known_ids.insert(device, id),
        ..state
    }
}

/// The state after the timer has fired.
pub open spec fn after_tick(state: DiscoveryView, now: u128) -> DiscoveryView {
    let stale = stale_devices(state.last_seen, now);
    DiscoveryView {
        peers: state.peers.difference(stale),
        last_seen: state.last_seen.remove_keys(stale),
        ..state
    }
}

/// The line that tells what came of connecting to a device.
pub open spec fn connection_text(device: Seq<char>, outcome: Result<(), Seq<char>>) -> Seq<char> {
    match outcome {
        Ok(()) => "Connected to "@ + device,
        Err(reason) => "Connection failed: "@ + reason,
    }
}

/// The line that tells that a device has been lost.
pub open spec fn loss_text(device: Seq<char>) -> Seq<char> {
    "Lost connection to "@ + device
}

/// The line that tells the name of a device.
pub open spec fn introduction(device: Seq<char>, id: Seq<char>) -> Seq<char> {
    "Peer "@ + device + " has id "@ + id
}

impl View for Discovery {
    type V = DiscoveryView;

    closed spec fn view(&self) -> DiscoveryView {
        DiscoveryView {
            own_id: self.own_id@,
            peers: self.peers@.dom(),
            last_seen: self.last_seen@,
            known_ids: self.known_ids@.map_values(|id: String| id@),
        }
    }
}

impl Discovery {
    /// The tables are in order.
    pub closed spec fn wf(&self) -> bool {
        &&& self.peers.wf()
        &&& self.last_seen.wf()
        &&& self.known_ids.wf()
    }

    /// A node called `own_id` that is connected to `peers` and has not heard of
    /// anyone.
    pub fn new(peers: Vec<String>, own_id: String) -> (discovery: Self)
        ensures
            discovery.wf(),
            discovery@ == (DiscoveryView {
                own_id: own_id@,
                peers: texts(peers@).to_set(),
                last_seen: Map::empty(),
                known_ids: Map::empty(),
            }),
    {
        let mut table: Table<()> = Table::new();
        let mut i: usize = 0;
        assert(table@.dom() =~= texts(peers@).take(0).to_set());
        while i < peers.len()
            invariant
                i <= peers@.len(),
                table.wf(),
                table@.dom() == texts(peers@).take(i as int).to_set(),
            decreases peers@.len() - i,
        {
            let ghost before = texts(peers@).take(i as int);
            table.insert(peers[i].clone(), ());
            proof {
                let name = texts(peers@)[i as int];
                assert(texts(peers@).take(i + 1) =~= before.push(name));
                lemma_push_contains(before, name);
                assert(table@.dom() =~= texts(peers@).take(i + 1).to_set());
            }
            i += 1;
        }
        assert(texts(peers@).take(i as int) =~= texts(peers@));
        let discovery = Discovery {
            own_id,
            peers: table,
            last_seen: Table::new(),
            known_ids: Table::new(),
        };
        assert(discovery@.known_ids =~= Map::<Seq<char>, Seq<char>>::empty());
        discovery
    }

    /// The line that tells what came of connecting to `device`: an error comes
    /// with what it says.
    pub fn connection_line(device: &str, outcome: Result<(), &str>) -> (line: String)
        ensures
            line@ == connection_text(
                device@,
                match outcome {
                    Ok(()) => Ok(()),
                    Err(reason) => Err(reason@),
                },
            ),
    {
        match outcome {
            Ok(()) => {
                let mut line = "Connected to ".to_owned();
                line.append(device);
                line
            },
            Err(reason) => {
                let mut line = "Connection failed: ".to_owned();
                line.append(reason);
                line
            },
        }
    }

    /// The line that tells that `device` has been lost.
    pub fn loss_line(device: &str) -> (line: String)
        ensures
            line@ == loss_text(device@),
    {
        let mut line = "Lost connection to ".to_owned();
        line.append(device);
        line
    }

    /// Whether to connect to a device that has been discovered.
    pub fn on_discovered(&self, device: &String) -> (connect: bool)
        requires
            self.wf(),
        ensures
            connect == !self@.peers.contains(device@),
    {
        !self.peers.contains(device)
    }

    /// Whether to subscribe to a device that connecting to has been tried. What
    /// comes of subscribing does not matter: the device is a peer either way.
    pub fn after_connecting(connected: bool) -> (subscribe: bool)
        ensures
            subscribe == connected,
    {
        connected
    }

    /// Notes what came of connecting to a device.
    pub fn on_connect(&mut self, device: String, connected: bool, now: u128)
        requires
            old(self).wf(),
        ensures
            final(self).wf(),
            final(self)@ == (if connected {
                after_connect(old(self)@, device@, now)
            } else {
                old(self)@
            }),
    {
        if connected {
            self.peers.insert(device.clone(), ());
            self.last_seen.insert(device, now);
        }
    }

    /// Takes in a message that came as a heartbeat. Anything else than a
    /// heartbeat is ignored. The line to show is returned when the device is
    /// heard under that name for the first time, or under another name before.
    pub fn on_heartbeat(&mut self, device: String, message: Message, now: u128) -> (line: Option<
        String,
    >)
        requires
            old(self).wf(),
        ensures
            final(self).wf(),
            match message@ {
                MessageView::Chat { .. } => line is None && final(self)@ == old(self)@,
                MessageView::HeartBeat { id } => {
                    let known = old(self)@.known_ids.contains_key(device@)
                        && old(self)@.known_ids[device@] == id;
                    &&& final(self)@ == after_heartbeat(old(self)@, device@, id, now)
                    &&& known ==> line is None
                    &&& !known ==> (line matches Some(text) && text@ == introduction(device@, id))
                },
            },
    {
        match message {
            Message::Chat { .. } => None,
            Message::HeartBeat { id } => {
                self.last_seen.insert(device.clone(), now);
                let known = match self.known_ids.get(&device) {
                    Some(old_id) => old_id.eq(&id),
                    None => false,
                };
                if known {
                    assert(self@ =~= after_heartbeat(old(self)@, device@, id@, now));
                    None
                } else {
                    let mut line = "Peer ".to_owned();
                    line.append(device.as_str());
                    line.append(" has id ");
                    line.append(id.as_str());
                    self.known_ids.insert(device, id);
                    assert(self@ =~= after_heartbeat(old(self)@, device@, id@, now));
                    Some(line)
                }
            },
        }
    }

    /// The devices that are lost by `now`.
    fn stale(&self, now: u128) -> (lost: Vec<String>)
        requires
            self.wf(),
        ensures
            texts(lost@).no_duplicates(),
            texts(lost@).to_set() == stale_devices(self@.last_seen, now),
    {
        let mut lost: Vec<String> = Vec::new();
        let mut i: usize = 0;
        while i < self.last_seen.len()
            invariant
                self.wf(),
                i <= self.last_seen.order().len(),
                texts(lost@).no_duplicates(),
                forall|device: Seq<char>| #[trigger]
                    texts(lost@).contains(device) <==> {
                        &&& self.last_seen.order().take(i as int).contains(device)
                        &&& is_stale(self.last_seen@[device], now)
                    },
            decreases self.last_seen.order().len() - i,
        {
            let ghost before = texts(lost@);
            let ghost order = self.last_seen.order();
            let (device, last) = self.last_seen.entry(i);
            let ghost name = device@;
            proof {
                self.last_seen.lemma_order();
                assert(order.take(i + 1) =~= order.take(i as int).push(name));
                assert(!order.take(i as int).contains(name));
                lemma_push_contains(order.take(i as int), name);
            }
            if now > *last && now - *last > HEARTBEAT_TIMEOUT {
                lost.push(device.clone());
                proof {
                    assert(texts(lost@) =~= before.push(name));
                    lemma_push_contains(before, name);
                    assert(!before.contains(name));
                    assert forall|a: int, b: int|
                        0 <= a < before.len() + 1 && 0 <= b < before.len() + 1 && a
                            != b implies before.push(name)[a] != before.push(name)[b] by {
                        assert(a < before.len() ==> before.contains(before[a]));
                        assert(b < before.len() ==> before.contains(before[b]));
                    }
                }
            }
            i += 1;
        }
        proof {
            self.last_seen.lemma_order();
            let order = self.last_seen.order();
            assert(order.take(order.len() as int) =~= order);
            assert(texts(lost@).to_set() =~= stale_devices(self@.last_seen, now));
        }
        lost
    }

    /// Says what is due when the heartbeat timer fires.
    pub fn on_tick(&mut self, now: u128) -> (tick: Tick)
        requires
            old(self).wf(),
        ensures
            final(self).wf(),
            final(self)@ == after_tick(old(self)@, now),
            texts(tick.lost@).no_duplicates(),
            texts(tick.lost@).to_set() == stale_devices(old(self)@.last_seen, now),
            tick.heartbeat@ == (MessageView::HeartBeat { id: old(self)@.own_id }),
            texts(tick.targets@).no_duplicates(),
            texts(tick.targets@).to_set() == final(self)@.peers,
    {
        let lost = self.stale(now);
        let ghost names = texts(lost@);
        let mut i: usize = 0;
        while i < lost.len()
            invariant
                names == texts(lost@),
                i <= lost@.len(),
                self.peers.wf(),
                self.last_seen.wf(),
                self.known_ids.wf(),
                self@.own_id == old(self)@.own_id,
                self@.known_ids == old(self)@.known_ids,
                self@.peers == old(self)@.peers.difference(names.take(i as int).to_set()),
                self@.last_seen == old(self)@.last_seen.remove_keys(
                    names.take(i as int).to_set(),
                ),
            decreases lost@.len() - i,
        {
            let ghost gone = names.take(i as int);
            self.last_seen.remove(&lost[i]);
            self.peers.remove(&lost[i]);
            proof {
                let name = names[i as int];
                assert(names.take(i + 1) =~= gone.push(name));
                lemma_push_contains(gone, name);
                assert(names.take(i + 1).to_set() =~= gone.to_set().insert(name));
                assert(self@.peers =~= old(self)@.peers.difference(names.take(i + 1).to_set()));
                assert(self@.last_seen =~= old(self)@.last_seen.remove_keys(
                    names.take(i + 1).to_set(),
                ));
            }
            i += 1;
        }
        assert(names.take(names.len() as int) =~= names);
        assert(self@ =~= after_tick(old(self)@, now));
        let targets = self.peers.keys();
        assert(texts(targets@).to_set() =~= self@.peers);
        Tick { lost, heartbeat: Message::HeartBeat { id: self.own_id.clone() }, targets }
    }
}

proof fn lemma_push_contains(names: Seq<Seq<char>>, name: Seq<char>)
    ensures
        forall|other: Seq<char>| #[trigger]
            names.push(name).contains(other) <==> names.contains(other) || other == name,
{
    assert forall|other: Seq<char>| #[trigger]
        names.push(name).contains(other) <==> names.contains(other) || other == name by {
        if names.contains(other) {
            let i = choose|i: int| 0 <= i < names.len() && names[i] == other;
            assert(names.push(name)[i] == other);
        }
        if names.push(name).contains(other) {
            let i = choose|i: int| 0 <= i < names.push(name).len() && names.push(name)[i] == other;
            assert(i < names.len() ==> names[i] == other);
        }
        assert(names.push(name)[names.len() as int] == name);
    }
}

/// Whether every peer is being watched for silence.
pub open spec fn watches_peers(state: DiscoveryView) -> bool {
    state.peers.subset_of(state.last_seen.dom())
}

/// Once every peer is being watched, no peer ever goes unwatched, whatever
/// happens.
pub proof fn law_watches_peers(
    state: DiscoveryView,
    device: Seq<char>,
    id: Seq<char>,
    now: u128,
)
    requires
        watches_peers(state),
    ensures
        watches_peers(after_connect(state, device, now)),
        watches_peers(after_heartbeat(state, device, id, now)),
        watches_peers(after_tick(state, now)),
{
}

/// When the timer has fired, only peers heard of within the timeout are left.
pub proof fn law_silent_peers_are_lost(state: DiscoveryView, now: u128, device: Seq<char>)
    requires
        watches_peers(state),
        after_tick(state, now).peers.contains(device),
    ensures
        after_tick(state, now).last_seen.contains_key(device),
        now - after_tick(state, now).last_seen[device] <= HEARTBEAT_TIMEOUT,
{
}

/// A peer heard of within the timeout is not lost when the timer fires.
pub proof fn law_heard_peers_are_kept(
    state: DiscoveryView,
    device: Seq<char>,
    id: Seq<char>,
    heard: u128,
    now: u128,
)
    requires
        state.peers.contains(device),
        now - heard <= HEARTBEAT_TIMEOUT,
    ensures
        after_tick(after_heartbeat(state, device, id, heard), now).peers.contains(device),
{
}

/// A device that has been lost is no peer, and is connected to again when it
/// is discovered again; the name it was known under stays known.
pub proof fn law_lost_peers_can_return(
    state: DiscoveryView,
    now: u128,
    device: Seq<char>,
    later: u128,
)
    requires
        stale_devices(state.last_seen, now).contains(device),
    ensures
        !after_tick(state, now).peers.contains(device),
        after_connect(after_tick(state, now), device, later).peers.contains(device),
        after_tick(state, now).known_ids == state.known_ids,
{
}

/// A tick loses exactly the devices that were last heard of more than fifteen
/// seconds ago. It leaves every other device as it was, and all names.
pub proof fn law_tick_leaves_the_others(state: DiscoveryView, now: u128, device: Seq<char>)
    ensures
        ({
            let after = after_tick(state, now);
            let lost = state.last_seen.contains_key(device) && state.last_seen[device]
                + 15_000_000_000 < now;
            &&& lost <==> stale_devices(state.last_seen, now).contains(device)
            &&& lost ==> !after.peers.contains(device) && !after.last_seen.contains_key(device)
            &&& !lost ==> {
                &&& after.peers.contains(device) <==> state.peers.contains(device)
                &&& after.last_seen.contains_key(device) <==> state.last_seen.contains_key(device)
                &&& state.last_seen.contains_key(device) ==> after.last_seen[device]
                    == state.last_seen[device]
            }
            &&& after.known_ids == state.known_ids
            &&& after.own_id == state.own_id
        }),
{
}

/// A connection makes the device a peer that was heard of just now, and touches
/// no other device and no name.
pub proof fn law_connection_concerns_one_device(
    state: DiscoveryView,
    device: Seq<char>,
    now: u128,
    other: Seq<char>,
)
    ensures
        ({
            let after = after_connect(state, device, now);
            &&& after.peers.contains(device)
            &&& after.last_seen.contains_key(device)
            &&& after.last_seen[device] == now
            &&& other != device ==> {
                &&& after.peers.contains(other) <==> state.peers.contains(other)
                &&& after.last_seen.contains_key(other) <==> state.last_seen.contains_key(other)
                &&& state.last_seen.contains_key(other) ==> after.last_seen[other]
                    == state.last_seen[other]
            }
            &&& after.known_ids == state.known_ids
            &&& after.own_id == state.own_id
        }),
{
}

/// A heartbeat tells when the device was heard of and its name. It makes no one
/// a peer, and touches no other device.
pub proof fn law_heartbeat_concerns_one_device(
    state: DiscoveryView,
    device: Seq<char>,
    id: Seq<char>,
    now: u128,
    other: Seq<char>,
)
    ensures
        ({
            let after = after_heartbeat(state, device, id, now);
            &&& after.last_seen.contains_key(device)
            &&& after.last_seen[device] == now
            &&& after.known_ids.contains_key(device)
            &&& after.known_ids[device] == id
            &&& other != device ==> {
                &&& after.last_seen.contains_key(other) <==> state.last_seen.contains_key(other)
                &&& state.last_seen.contains_key(other) ==> after.last_seen[other]
                    == state.last_seen[other]
                &&& after.known_ids.contains_key(other) <==> state.known_ids.contains_key(other)
                &&& state.known_ids.contains_key(other) ==> after.known_ids[other]
                    == state.known_ids[other]
            }
            &&& after.peers == state.peers
            &&& after.own_id == state.own_id
        }),
{
}

/// Something that happens to a node: it connects to a device, a device sends a
/// heartbeat, or the timer fires.
pub enum Event {
    Connection { device: Seq<char> },
    HeartBeat { device: Seq<char>, id: Seq<char> },
    Tick,
}

/// The state after `events`, one after the other, each with its time.
pub open spec fn after_events(state: DiscoveryView, events: Seq<(Event, u128)>) -> DiscoveryView
    decreases events.len(),
{
    if events.len() == 0 {
        state
    } else {
        let before = after_events(state, events.drop_last());
        let now = events.last().1;
        match events.last().0 {
            Event::Connection { device } => after_connect(before, device, now),
            Event::HeartBeat { device, id } => after_heartbeat(before, device, id, now),
            Event::Tick => after_tick(before, now),
        }
    }
}

/// Whether an event is a sign of life of `device`.
pub open spec fn is_heard(event: Event, device: Seq<char>) -> bool {
    match event {
        Event::Connection { device: source } => source == device,
        Event::HeartBeat { device: source, .. } => source == device,
        Event::Tick => false,
    }
}

/// A device that gives no sign of life after it was last heard of is lost at
/// the first tick more than fifteen seconds later, and at no earlier one,
/// whatever ticks and other devices come in between.
pub proof fn law_silence_ends_a_connection(
    state: DiscoveryView,
    device: Seq<char>,
    events: Seq<(Event, u128)>,
    now: u128,
)
    requires
        state.last_seen.contains_key(device),
        forall|i: int|
            0 <= i < events.len() ==> {
                &&& !is_heard((#[trigger] events[i]).0, device)
                &&& events[i].0 is Tick ==> events[i].1 <= state.last_seen[device]
                    + 15_000_000_000
            },
    ensures
        ({
            let before = after_events(state, events);
            let after = after_tick(before, now);
            let lost = state.last_seen[device] + 15_000_000_000 < now;
            &&& before.peers.contains(device) <==> state.peers.contains(device)
            &&& stale_devices(before.last_seen, now).contains(device) <==> lost
            &&& after.peers.contains(device) <==> state.peers.contains(device) && !lost
            &&& after.last_seen.contains_key(device) <==> !lost
        }),
{
    lemma_silent_device(state, device, events);
}

/// A peer that has never been heard of is never lost while it gives no sign of
/// life.
pub proof fn law_unwatched_peers_stay(
    state: DiscoveryView,
    device: Seq<char>,
    events: Seq<(Event, u128)>,
)
    requires
        !state.last_seen.contains_key(device),
        forall|i: int| 0 <= i < events.len() ==> !is_heard((#[trigger] events[i]).0, device),
    ensures
        after_events(state, events).peers.contains(device) <==> state.peers.contains(device),
        !after_events(state, events).last_seen.contains_key(device),
    decreases events.len(),
{
    if events.len() > 0 {
        let head = events.drop_last();
        assert forall|i: int| 0 <= i < head.len() implies !is_heard(
            (#[trigger] head[i]).0,
            device,
        ) by {
            assert(head[i] == events[i]);
        }
        law_unwatched_peers_stay(state, device, head);
        assert(events[events.len() - 1] == events.last());
    }
}

/// A device is known by the name of its last heartbeat, whatever else happens,
/// even when it is lost; the node keeps its own name.
pub proof fn law_names_are_kept(
    state: DiscoveryView,
    device: Seq<char>,
    events: Seq<(Event, u128)>,
)
    requires
        forall|i: int|
            0 <= i < events.len() ==> !((#[trigger] events[i]).0 matches Event::HeartBeat {
                device: source,
                ..
            } && source == device),
    ensures
        after_events(state, events).known_ids.contains_key(device)
            <==> state.known_ids.contains_key(device),
        state.known_ids.contains_key(device) ==> after_events(state, events).known_ids[device]
            == state.known_ids[device],
        after_events(state, events).own_id == state.own_id,
    decreases events.len(),
{
    if events.len() > 0 {
        let head = events.drop_last();
        assert forall|i: int| 0 <= i < head.len() implies !((#[trigger] head[i]).0
            matches Event::HeartBeat { device: source, .. } && source == device) by {
            assert(head[i] == events[i]);
        }
        law_names_are_kept(state, device, head);
        assert(events[events.len() - 1] == events.last());
    }
}

proof fn lemma_silent_device(state: DiscoveryView, device: Seq<char>, events: Seq<(Event, u128)>)
    requires
        state.last_seen.contains_key(device),
        forall|i: int|
            0 <= i < events.len() ==> {
                &&& !is_heard((#[trigger] events[i]).0, device)
                &&& events[i].0 is Tick ==> events[i].1 <= state.last_seen[device]
                    + 15_000_000_000
            },
    ensures
        after_events(state, events).peers.contains(device) <==> state.peers.contains(device),
        after_events(state, events).last_seen.contains_key(device),
        after_events(state, events).last_seen[device] == state.last_seen[device],
    decreases events.len(),
{
    if events.len() > 0 {
        let head = events.drop_last();
        assert forall|i: int| 0 <= i < head.len() implies {
            &&& !is_heard((#[trigger] head[i]).0, device)
            &&& head[i].0 is Tick ==> head[i].1 <= state.last_seen[device] + 15_000_000_000
        } by {
            assert(head[i] == events[i]);
        }
        lemma_silent_device(state, device, head);
        assert(events[events.len() - 1] == events.last());
    }
}

/// The lines name the device, the name and the reason in full.
pub proof fn law_lines_name_everything(device: Seq<char>, id: Seq<char>, reason: Seq<char>)
    ensures
        ({
            let line = introduction(device, id);
            let end = 5 + device.len() as int;
            &&& line.len() == device.len() + id.len() + 13
            &&& line.take(5) == "Peer "@
            &&& line.subrange(5, end) == device
            &&& line.subrange(end, end + 8) == " has id "@
            &&& line.skip(end + 8) == id
        }),
        connection_text(device, Ok(())).take(13) == "Connected to "@,
        connection_text(device, Ok(())).skip(13) == device,
        connection_text(device, Err(reason)).take(19) == "Connection failed: "@,
        connection_text(device, Err(reason)).skip(19) == reason,
        loss_text(device).take(19) == "Lost connection to "@,
        loss_text(device).skip(19) == device,
{
    reveal_strlit("Peer ");
    reveal_strlit(" has id ");
    reveal_strlit("Connected to ");
    reveal_strlit("Connection failed: ");
    reveal_strlit("Lost connection to ");
    let line = introduction(device, id);
    let end = 5 + device.len() as int;
    assert(line.take(5) =~= "Peer "@);
    assert(line.subrange(5, end) =~= device);
    assert(line.subrange(end, end + 8) =~= " has id "@);
    assert(line.skip(end + 8) =~= id);
    assert(connection_text(device, Ok(())).take(13) =~= "Connected to "@);
    assert(connection_text(device, Ok(())).skip(13) =~= device);
    assert(connection_text(device, Err(reason)).take(19) =~= "Connection failed: "@);
    assert(connection_text(device, Err(reason)).skip(19) =~= reason);
    assert(loss_text(device).take(19) =~= "Lost connection to "@);
    assert(loss_text(device).skip(19) =~= device);
}

} // verus!
