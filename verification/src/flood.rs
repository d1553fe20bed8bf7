//! What a flooding relay does with a frame, whatever form it came in.

use vstd::arithmetic::div_mod::lemma_fundamental_div_mod;
use vstd::prelude::*;

use crate::seen::{
    comes_anew, fresh_count, law_forgotten_when_displaced, law_remembered_until_displaced,
    remember, remember_all, Key, Seen,
};
use crate::{Frame, FrameView};

verus! {

/// How many hops a relay gives its own frames.
pub const MAX_TTL: u8 = 10;

/// How many frames a relay remembers.
pub const MAX_SEEN: usize = 8192;

/// What identifies a frame.
pub open spec fn key_of(frame: FrameView) -> Key {
    (frame.origin, frame.seq)
}

/// Whether a node called `own_id` takes `frame` up: it is from someone else,
/// and the node does not remember it.
pub open spec fn is_news(own_id: Seq<char>, memory: Seq<Key>, frame: FrameView) -> bool {
    frame.origin != own_id && !memory.contains(key_of(frame))
}

/// What the node remembers after `frame` has come by. Its own frames leave no
/// trace.
pub open spec fn memory_after(
    own_id: Seq<char>,
    memory: Seq<Key>,
    room: nat,
    frame: FrameView,
) -> Seq<Key> {
    if frame.origin == own_id {
        memory
    } else {
        remember(memory, room, key_of(frame))
    }
}

/// The frame to pass on, with one hop less; none when the hops are used up.
pub open spec fn next_hop(frame: FrameView) -> Option<FrameView> {
    if frame.ttl > 1 {
        Some(FrameView { ttl: (frame.ttl - 1) as u8, ..frame })
    } else {
        None
    }
}

/// The running number after `seq`; the last one is followed by the first.
pub open spec fn next_number(seq: u64) -> u64 {
    if seq == u64::MAX {
        0
    } else {
        (seq + 1) as u64
    }
}

/// Decides whether to take `frame` up, and remembers it if so.
pub fn take_up(own_id: &String, seen: &mut Seen, frame: &Frame) -> (news: bool)
    requires
        old(seen).wf(),
    ensures
        final(seen).wf(),
        final(seen).capacity() == old(seen).capacity(),
        news == is_news(own_id@, old(seen)@, frame@),
        final(seen)@ == memory_after(own_id@, old(seen)@, old(seen).capacity(), frame@),
{
    if frame.origin.eq(own_id) {
        return false;
    }
    seen.insert((frame.origin.clone(), frame.seq))
}

/// A node never takes up its own frames, and forgets nothing on their account.
pub proof fn law_own_frames_are_dropped(
    own_id: Seq<char>,
    memory: Seq<Key>,
    room: nat,
    frame: FrameView,
)
    requires
        frame.origin == own_id,
    ensures
        !is_news(own_id, memory, frame),
        memory_after(own_id, memory, room, frame) == memory,
{
}

/// A frame that has just come by is not taken up again, whatever its remaining
/// hops and payload are the second time.
pub proof fn law_taken_up_once(
    own_id: Seq<char>,
    memory: Seq<Key>,
    room: nat,
    first: FrameView,
    second: FrameView,
)
    requires
        room > 0,
        key_of(first) == key_of(second),
    ensures
        !is_news(own_id, memory_after(own_id, memory, room, first), second),
{
    if first.origin != own_id {
        crate::seen::law_latest_is_remembered(memory, room, key_of(first));
    }
}

/// What the node remembers after `arrivals` have come by, one after the other;
/// `None` is something that could not be read as a frame.
pub open spec fn memory_after_all(
    own_id: Seq<char>,
    memory: Seq<Key>,
    room: nat,
    arrivals: Seq<Option<FrameView>>,
) -> Seq<Key>
    decreases arrivals.len(),
{
    if arrivals.len() == 0 {
        memory
    } else {
        let before = memory_after_all(own_id, memory, room, arrivals.drop_last());
        match arrivals.last() {
            Some(frame) => memory_after(own_id, before, room, frame),
            None => before,
        }
    }
}

/// How many of `arrivals` the node takes up as they come by.
pub open spec fn news_count(
    own_id: Seq<char>,
    memory: Seq<Key>,
    room: nat,
    arrivals: Seq<Option<FrameView>>,
) -> nat
    decreases arrivals.len(),
{
    if arrivals.len() == 0 {
        0
    } else {
        let before = memory_after_all(own_id, memory, room, arrivals.drop_last());
        news_count(own_id, memory, room, arrivals.drop_last()) + match arrivals.last() {
            Some(frame) if is_news(own_id, before, frame) => 1nat,
            _ => 0nat,
        }
    }
}

/// A frame that a node has taken up is not taken up again, whatever its
/// remaining hops and payload are then, until the node has taken up as many
/// others as it remembers.
pub proof fn law_taken_up_once_while_remembered(
    own_id: Seq<char>,
    memory: Seq<Key>,
    room: nat,
    frame: FrameView,
    later: Seq<Option<FrameView>>,
    again: FrameView,
)
    requires
        memory.len() <= room,
        is_news(own_id, memory, frame),
        key_of(again) == key_of(frame),
        news_count(own_id, memory_after(own_id, memory, room, frame), room, later) < room,
    ensures
        !is_news(
            own_id,
            memory_after_all(own_id, memory_after(own_id, memory, room, frame), room, later),
            again,
        ),
{
    lemma_arrivals_as_keys(own_id, memory_after(own_id, memory, room, frame), room, later);
    law_remembered_until_displaced(memory, room, key_of(frame), foreign_keys(own_id, later));
}

/// A frame that a node has taken up is taken up again once the node has taken
/// up as many others as it remembers, when it has not come by in the meantime.
pub proof fn law_taken_up_again_when_forgotten(
    own_id: Seq<char>,
    memory: Seq<Key>,
    room: nat,
    frame: FrameView,
    later: Seq<Option<FrameView>>,
    again: FrameView,
)
    requires
        memory.len() <= room,
        is_news(own_id, memory, frame),
        key_of(again) == key_of(frame),
        news_count(own_id, memory_after(own_id, memory, room, frame), room, later) >= room,
        forall|i: int|
            0 <= i < later.len() ==> ((#[trigger] later[i]) matches Some(other) ==> key_of(other)
                != key_of(frame)),
    ensures
        is_news(
            own_id,
            memory_after_all(own_id, memory_after(own_id, memory, room, frame), room, later),
            again,
        ),
{
    let start = memory_after(own_id, memory, room, frame);
    lemma_arrivals_as_keys(own_id, start, room, later);
    lemma_others_do_not_come_anew(own_id, start, room, key_of(frame), later);
    law_forgotten_when_displaced(memory, room, key_of(frame), foreign_keys(own_id, later));
}

/// The keys under which a node called `own_id` remembers `arrivals`.
spec fn foreign_keys(own_id: Seq<char>, arrivals: Seq<Option<FrameView>>) -> Seq<Key>
    decreases arrivals.len(),
{
    if arrivals.len() == 0 {
        seq![]
    } else {
        let before = foreign_keys(own_id, arrivals.drop_last());
        match arrivals.last() {
            Some(frame) if frame.origin != own_id => before.push(key_of(frame)),
            _ => before,
        }
    }
}

proof fn lemma_arrivals_as_keys(
    own_id: Seq<char>,
    memory: Seq<Key>,
    room: nat,
    arrivals: Seq<Option<FrameView>>,
)
    ensures
        memory_after_all(own_id, memory, room, arrivals) == remember_all(
            memory,
            room,
            foreign_keys(own_id, arrivals),
        ),
        news_count(own_id, memory, room, arrivals) == fresh_count(
            memory,
            room,
            foreign_keys(own_id, arrivals),
        ),
    decreases arrivals.len(),
{
    if arrivals.len() > 0 {
        lemma_arrivals_as_keys(own_id, memory, room, arrivals.drop_last());
        let before = foreign_keys(own_id, arrivals.drop_last());
        if let Some(frame) = arrivals.last() {
            assert(before.push(key_of(frame)).drop_last() =~= before);
        }
    }
}

proof fn lemma_others_do_not_come_anew(
    own_id: Seq<char>,
    memory: Seq<Key>,
    room: nat,
    key: Key,
    arrivals: Seq<Option<FrameView>>,
)
    requires
        forall|i: int|
            0 <= i < arrivals.len() ==> ((#[trigger] arrivals[i]) matches Some(other) ==> key_of(
                other,
            ) != key),
    ensures
        !comes_anew(memory, room, key, foreign_keys(own_id, arrivals)),
    decreases arrivals.len(),
{
    if arrivals.len() > 0 {
        let head = arrivals.drop_last();
        assert forall|i: int| 0 <= i < head.len() implies ((#[trigger] head[i]) matches Some(other)
            ==> key_of(other) != key) by {
            assert(head[i] == arrivals[i]);
        }
        lemma_others_do_not_come_anew(own_id, memory, room, key, head);
        let before = foreign_keys(own_id, head);
        assert(arrivals[arrivals.len() - 1] == arrivals.last());
        if let Some(frame) = arrivals.last() {
            assert(before.push(key_of(frame)).drop_last() =~= before);
        }
    }
}

/// Whatever a node remembers, it takes up every frame of another sender of
/// which it does not remember sender and number, and nothing else; hops and
/// payload do not matter. The frame is remembered under these two.
pub proof fn law_sender_and_number_decide(
    own_id: Seq<char>,
    memory: Seq<Key>,
    room: nat,
    frame: FrameView,
)
    ensures
        is_news(own_id, memory, frame) <==> {
            &&& frame.origin != own_id
            &&& forall|i: int|
                0 <= i < memory.len() ==> {
                    ||| (#[trigger] memory[i]).0 != frame.origin
                    ||| memory[i].1 != frame.seq
                }
        },
        frame.origin != own_id ==> memory_after(own_id, memory, room, frame) == remember(
            memory,
            room,
            (frame.origin, frame.seq),
        ),
{
    if memory.contains((frame.origin, frame.seq)) {
        let i = choose|i: int| 0 <= i < memory.len() && memory[i] == (frame.origin, frame.seq);
        assert(memory[i].0 == frame.origin && memory[i].1 == frame.seq);
    }
    if exists|i: int|
        0 <= i < memory.len() && (#[trigger] memory[i]).0 == frame.origin && memory[i].1
            == frame.seq {
        let i = choose|i: int|
            0 <= i < memory.len() && (#[trigger] memory[i]).0 == frame.origin && memory[i].1
                == frame.seq;
        assert(memory[i] == (frame.origin, frame.seq));
    }
}

/// Whether a frame from `origin` with the number `seq` is among `arrivals`.
pub open spec fn came_by(
    arrivals: Seq<Option<FrameView>>,
    origin: Seq<char>,
    seq: u64,
) -> bool {
    exists|i: int|
        0 <= i < arrivals.len() && ((#[trigger] arrivals[i]) matches Some(frame) && frame.origin
            == origin && frame.seq == seq)
}

/// As long as there is room for everything that comes by, a node takes up every
/// frame of another sender that has not come by before, and nothing else: hops
/// and payload do not matter.
pub proof fn law_taken_up_unless_it_came_by(
    own_id: Seq<char>,
    room: nat,
    arrivals: Seq<Option<FrameView>>,
    frame: FrameView,
)
    requires
        arrivals.len() <= room,
    ensures
        is_news(own_id, memory_after_all(own_id, Seq::empty(), room, arrivals), frame) <==> {
            &&& frame.origin != own_id
            &&& !came_by(arrivals, frame.origin, frame.seq)
        },
{
    lemma_memory_is_history(own_id, room, arrivals, frame.origin, frame.seq);
}

proof fn lemma_memory_is_history(
    own_id: Seq<char>,
    room: nat,
    arrivals: Seq<Option<FrameView>>,
    origin: Seq<char>,
    seq: u64,
)
    requires
        arrivals.len() <= room,
    ensures
        memory_after_all(own_id, Seq::empty(), room, arrivals).len() <= arrivals.len(),
        memory_after_all(own_id, Seq::empty(), room, arrivals).contains((origin, seq)) <==> {
            &&& origin != own_id
            &&& came_by(arrivals, origin, seq)
        },
    decreases arrivals.len(),
{
    if arrivals.len() > 0 {
        let head = arrivals.drop_last();
        let before = memory_after_all(own_id, Seq::empty(), room, head);
        let after = memory_after_all(own_id, Seq::empty(), room, arrivals);
        let key = (origin, seq);
        lemma_memory_is_history(own_id, room, head, origin, seq);
        if came_by(head, origin, seq) {
            let i = choose|i: int|
                0 <= i < head.len() && ((#[trigger] head[i]) matches Some(frame) && frame.origin
                    == origin && frame.seq == seq);
            assert(arrivals[i] == head[i]);
        }
        if came_by(arrivals, origin, seq) {
            let i = choose|i: int|
                0 <= i < arrivals.len() && ((#[trigger] arrivals[i]) matches Some(frame)
                    && frame.origin == origin && frame.seq == seq);
            assert(i < head.len() ==> head[i] == arrivals[i]);
        }
        assert(arrivals[arrivals.len() - 1] == arrivals.last());
        if let Some(frame) = arrivals.last() {
            if frame.origin != own_id && !before.contains(key_of(frame)) {
                assert(after == before.push(key_of(frame)));
                if before.contains(key) {
                    let i = choose|i: int| 0 <= i < before.len() && before[i] == key;
                    assert(after[i] == key);
                }
                if after.contains(key) {
                    let i = choose|i: int| 0 <= i < after.len() && after[i] == key;
                    assert(i < before.len() ==> before[i] == key);
                }
                assert(after[before.len() as int] == key_of(frame));
            }
        }
    }
}

/// What is passed on is the same frame with exactly one hop less, and always
/// has a hop left.
pub proof fn law_next_hop(frame: FrameView)
    ensures
        next_hop(frame) is Some <==> frame.ttl >= 2,
        next_hop(frame) matches Some(next) ==> {
            &&& next.origin == frame.origin
            &&& next.seq == frame.seq
            &&& next.payload == frame.payload
            &&& next.ttl + 1 == frame.ttl
            &&& next.ttl >= 1
        },
{
}

/// Whether every frame of `path` is the one before it, passed on.
pub open spec fn is_relay_path(path: Seq<FrameView>) -> bool {
    forall|i: int| 0 <= i < path.len() - 1 ==> next_hop(#[trigger] path[i]) == Some(path[i + 1])
}

/// A flood dies out: a frame travels no more hops than it was given, and
/// arrives as it was sent.
pub proof fn law_flood_dies_out(path: Seq<FrameView>)
    requires
        path.len() > 0,
        is_relay_path(path),
    ensures
        path.len() <= 1 || path.len() <= path[0].ttl,
        forall|i: int|
            0 <= i < path.len() ==> {
                &&& (#[trigger] path[i]).ttl == path[0].ttl - i
                &&& key_of(path[i]) == key_of(path[0])
                &&& path[i].payload == path[0].payload
            },
    decreases path.len(),
{
    if path.len() > 1 {
        let head = path.drop_last();
        assert forall|i: int| 0 <= i < head.len() - 1 implies next_hop(#[trigger] head[i]) == Some(
            head[i + 1],
        ) by {
            assert(head[i] == path[i]);
        }
        law_flood_dies_out(head);
        let last = path.len() - 1;
        assert(head[last - 1] == path[last - 1]);
        assert(next_hop(path[last - 1]) == Some(path[last - 1 + 1]));
        assert forall|i: int| 0 <= i < path.len() implies {
            &&& (#[trigger] path[i]).ttl == path[0].ttl - i
            &&& key_of(path[i]) == key_of(path[0])
            &&& path[i].payload == path[0].payload
        } by {
            if i < last {
                assert(path[i] == head[i]);
            }
        }
    }
}

/// The running number of the frame sent `count` frames after number `seq`.
pub open spec fn number_after(seq: u64, count: nat) -> u64
    decreases count,
{
    if count == 0 {
        seq
    } else {
        next_number(number_after(seq, (count - 1) as nat))
    }
}

/// No two frames of a node bear the same number until all numbers have been
/// used.
pub proof fn law_numbers_do_not_repeat(seq: u64, earlier: nat, later: nat)
    requires
        earlier < later,
        later - earlier <= u64::MAX,
    ensures
        number_after(seq, earlier) != number_after(seq, later),
{
    lemma_number_after(seq, earlier);
    lemma_number_after(seq, later);
    let a = seq + earlier;
    let b = seq + later;
    let m: int = 0x1_0000_0000_0000_0000;
    lemma_fundamental_div_mod(a as int, m);
    lemma_fundamental_div_mod(b as int, m);
    if a % m == b % m {
        assert(b - a == m * (b / m - a / m)) by (nonlinear_arith)
            requires
                a == m * (a / m) + a % m,
                b == m * (b / m) + b % m,
                a % m == b % m,
        ;
        assert(false) by (nonlinear_arith)
            requires
                b - a == m * (b / m - a / m),
                0 < b - a < m,
                m == 0x1_0000_0000_0000_0000,
        ;
    }
}

/// Numbers count up by one, and start over when they have all been used.
pub proof fn lemma_number_after(seq: u64, count: nat)
    ensures
        number_after(seq, count) == (seq + count) % 0x1_0000_0000_0000_0000,
    decreases count,
{
    if count > 0 {
        lemma_number_after(seq, (count - 1) as nat);
    }
}

} // verus!
