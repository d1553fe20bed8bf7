//! A bounded memory of the packets that have passed through a relay.

use std::collections::{HashMap, VecDeque};

use vstd::prelude::*;
use vstd::std_specs::hash::group_hash_axioms;

verus! {

broadcast use group_hash_axioms;

/// What identifies a packet: its sender and the sender's running number.
pub type Key = (Seq<char>, u64);

/// `keys` with only the `cap` newest entries kept.
pub open spec fn newest(keys: Seq<Key>, cap: nat) -> Seq<Key> {
    if keys.len() <= cap {
        keys
    } else {
        keys.skip(keys.len() - cap)
    }
}

/// The memory `keys` after the packet `key` has come by.
pub open spec fn remember(keys: Seq<Key>, cap: nat, key: Key) -> Seq<Key> {
    if keys.contains(key) {
        keys
    } else {
        newest(keys.push(key), cap)
    }
}

/// Whether `name` is among `names`.
spec fn listed(names: Seq<String>, name: Seq<char>) -> bool {
    exists|i: int| 0 <= i < names.len() && (#[trigger] names[i])@ == name
}

/// Whether no name is among `names` twice.
spec fn distinct(names: Seq<String>) -> bool {
    forall|i: int, j: int| 0 <= i < j < names.len() ==> names[i]@ != names[j]@
}

/// The place of `name` among `names`.
fn position(names: &Vec<String>, name: &String) -> (place: Option<usize>)
    ensures
        match place {
            Some(i) => i < names@.len() && names@[i as int]@ == name@,
            None => !listed(names@, name@),
        },
{
    let mut i: usize = 0;
    while i < names.len()
        invariant
            i <= names@.len(),
            forall|j: int| 0 <= j < i ==> names@[j]@ != name@,
        decreases names@.len() - i,
    {
        if names[i].eq(name) {
            return Some(i);
        }
        i += 1;
    }
    None
}

proof fn lemma_push(before: Seq<String>, after: Seq<String>)
    requires
        after.len() == before.len() + 1,
        after.drop_last() == before,
        distinct(before),
        !listed(before, after.last()@),
    ensures
        distinct(after),
        forall|name: Seq<char>|
            listed(after, name) <==> (listed(before, name) || name == after.last()@),
{
    assert forall|name: Seq<char>|
        listed(after, name) <==> (listed(before, name) || name == after.last()@) by {
        if listed(before, name) {
            let i = choose|i: int| 0 <= i < before.len() && (#[trigger] before[i])@ == name;
            assert(after[i] == before[i]);
        }
        if listed(after, name) {
            let i = choose|i: int| 0 <= i < after.len() && (#[trigger] after[i])@ == name;
            assert(i < before.len() ==> after[i] == before[i]);
        }
        assert(after[before.len() as int] == after.last());
    }
    assert forall|i: int, j: int| 0 <= i < j < after.len() implies after[i]@ != after[j]@ by {
        assert(after[i] == before[i]);
        assert(j < before.len() ==> after[j] == before[j]);
    }
}

proof fn lemma_remove(names: Seq<String>, place: int)
    requires
        0 <= place < names.len(),
        distinct(names),
    ensures
        distinct(names.remove(place)),
        forall|name: Seq<char>|
            listed(names.remove(place), name) <==> (listed(names, name) && name
                != names[place]@),
{
    let after = names.remove(place);
    assert forall|name: Seq<char>|
        listed(after, name) <==> (listed(names, name) && name != names[place]@) by {
        if listed(names, name) && name != names[place]@ {
            let i = choose|i: int| 0 <= i < names.len() && (#[trigger] names[i])@ == name;
            assert(after[if i < place { i } else { i - 1 }] == names[i]);
        }
        if listed(after, name) {
            let i = choose|i: int| 0 <= i < after.len() && (#[trigger] after[i])@ == name;
            assert(after[i] == names[if i < place { i } else { i + 1 }]);
        }
    }
}

/// A set of packet keys, found by running number first.
struct KeySet {
    names: HashMap<u64, Vec<String>>,
}

impl KeySet {
    /// Whether the set holds `key`.
    spec fn holds(self, key: Key) -> bool {
        self.names@.contains_key(key.1) && listed(self.names@[key.1]@, key.0)
    }

    /// No name is listed twice under one number.
    spec fn wf(self) -> bool {
        forall|seq: u64| #[trigger]
            self.names@.contains_key(seq) ==> distinct(self.names@[seq]@)
    }

    fn new() -> (set: Self)
        ensures
            set.wf(),
            forall|key: Key| !set.holds(key),
    {
        KeySet { names: HashMap::new() }
    }

    fn contains(&self, origin: &String, seq: u64) -> (found: bool)
        ensures
            found == self.holds((origin@, seq)),
    {
        match self.names.get(&seq) {
            Some(names) => position(names, origin).is_some(),
            None => false,
        }
    }

    fn insert(&mut self, origin: String, seq: u64)
        requires
            old(self).wf(),
            !old(self).holds((origin@, seq)),
        ensures
            final(self).wf(),
            forall|key: Key|
                final(self).holds(key) <==> (old(self).holds(key) || key == (origin@, seq)),
    {
        let mut names = match self.names.remove(&seq) {
            Some(names) => names,
            None => Vec::new(),
        };
        let ghost before = names@;
        let ghost name = origin@;
        names.push(origin);
        let ghost after = names@;
        self.names.insert(seq, names);
        proof {
            assert(after.drop_last() =~= before);
            lemma_push(before, after);
            assert forall|key: Key|
                self.holds(key) <==> (old(self).holds(key) || key == (name, seq)) by {
                assert(key.1 != seq ==> self.holds(key) == old(self).holds(key));
            }
        }
    }

    fn remove(&mut self, origin: &String, seq: u64)
        requires
            old(self).wf(),
            old(self).holds((origin@, seq)),
        ensures
            final(self).wf(),
            forall|key: Key|
                final(self).holds(key) <==> (old(self).holds(key) && key != (origin@, seq)),
    {
        if let Some(mut names) = self.names.remove(&seq) {
            let ghost before = names@;
            if let Some(place) = position(&names, origin) {
                names.remove(place);
                let ghost after = names@;
                if names.len() > 0 {
                    self.names.insert(seq, names);
                }
                proof {
                    lemma_remove(before, place as int);
                    assert forall|key: Key|
                        self.holds(key) <==> (old(self).holds(key) && key != (origin@, seq)) by {
                        assert(key.1 != seq ==> self.holds(key) == old(self).holds(key));
                    }
                }
            }
        }
    }
}

/// Remembers the newest `cap` packets in the order in which they first came.
pub struct Seen {
    set: KeySet,
    order: VecDeque<(String, u64)>,
    cap: usize,
}

impl View for Seen {
    type V = Seq<Key>;

    /// The remembered packets, oldest first.
    closed spec fn view(&self) -> Seq<Key> {
        self.order@.map_values(|entry: (String, u64)| (entry.0@, entry.1))
    }
}

impl Seen {
    /// How many packets are remembered at most.
    pub closed spec fn capacity(&self) -> nat {
        self.cap as nat
    }

    /// No packet is remembered twice, and no more of them than there is room.
    pub open spec fn bounded(&self) -> bool {
        &&& self@.no_duplicates()
        &&& self@.len() <= self.capacity()
    }

    /// The set and the queue hold the same packets.
    pub closed spec fn wf(&self) -> bool {
        &&& self.bounded()
        &&& self.set.wf()
        &&& forall|key: Key| self.set.holds(key) <==> self@.contains(key)
    }

    /// A memory in order is bounded.
    pub proof fn law_bounded(&self)
        requires
            self.wf(),
        ensures
            self.bounded(),
    {
    }

    pub fn new(cap: usize) -> (seen: Self)
        ensures
            seen.wf(),
            seen@ == Seq::<Key>::empty(),
            seen.capacity() == cap,
    {
        let seen = Seen { set: KeySet::new(), order: VecDeque::new(), cap };
        assert(seen@ =~= Seq::<Key>::empty());
        seen
    }

    /// Notes that a packet came by; true exactly when it is not remembered.
    pub fn insert(&mut self, key: (String, u64)) -> (fresh: bool)
        requires
            old(self).wf(),
        ensures
            final(self).wf(),
            final(self).capacity() == old(self).capacity(),
            fresh == !old(self)@.contains((key.0@, key.1)),
            final(self)@ == remember(old(self)@, old(self).capacity(), (key.0@, key.1)),
    {
        let ghost new_key = (key.0@, key.1);
        if self.set.contains(&key.0, key.1) {
            return false;
        }
        self.set.insert(key.0.clone(), key.1);
        self.order.push_back(key);
        let ghost pushed = old(self)@.push(new_key);
        assert(self@ =~= pushed);
        proof {
            assert forall|k: Key| self.set.holds(k) <==> self@.contains(k) by {
                if pushed.contains(k) {
                    let i = choose|i: int| 0 <= i < pushed.len() && pushed[i] == k;
                    assert(i < old(self)@.len() ==> old(self)@[i] == k);
                }
                if old(self)@.contains(k) {
                    let i = choose|i: int| 0 <= i < old(self)@.len() && old(self)@[i] == k;
                    assert(pushed[i] == k);
                }
                assert(pushed[pushed.len() - 1] == new_key);
            }
            assert(pushed.skip(0) =~= pushed);
        }
        while self.order.len() > self.cap
            invariant
                self.cap == old(self).cap,
                self.set.wf(),
                self@.no_duplicates(),
                forall|k: Key| self.set.holds(k) <==> self@.contains(k),
                self@.len() <= pushed.len(),
                self@ == pushed.skip(pushed.len() - self@.len()),
                self@.len() >= self.cap || self@ == pushed,
            decreases self.order@.len(),
        {
            let ghost before = self@;
            assert(before[0] == (self.order@[0].0@, self.order@[0].1));
            assert(before.contains(before[0]));
            if let Some(oldest) = self.order.pop_front() {
                self.set.remove(&oldest.0, oldest.1);
                proof {
                    assert(self@ =~= before.skip(1));
                    assert(self@ =~= pushed.skip(pushed.len() - self@.len()));
                    assert forall|k: Key| self.set.holds(k) <==> self@.contains(k) by {
                        if before.contains(k) && k != before[0] {
                            let i = choose|i: int| 0 <= i < before.len() && before[i] == k;
                            assert(self@[i - 1] == k);
                        }
                        if self@.contains(k) {
                            let i = choose|i: int| 0 <= i < self@.len() && self@[i] == k;
                            assert(before[i + 1] == k);
                        }
                    }
                }
            }
        }
        true
    }
}

/// The memory after all of `keys` have come by, one after the other.
pub open spec fn remember_all(memory: Seq<Key>, cap: nat, keys: Seq<Key>) -> Seq<Key>
    decreases keys.len(),
{
    if keys.len() == 0 {
        memory
    } else {
        remember(remember_all(memory, cap, keys.drop_last()), cap, keys.last())
    }
}

/// How many of `keys`, coming one after the other, are not remembered then.
pub open spec fn fresh_count(memory: Seq<Key>, cap: nat, keys: Seq<Key>) -> nat
    decreases keys.len(),
{
    if keys.len() == 0 {
        0
    } else {
        let before = keys.drop_last();
        fresh_count(memory, cap, before) + if remember_all(memory, cap, before).contains(
            keys.last(),
        ) {
            0nat
        } else {
            1nat
        }
    }
}

/// A memory stays within its bounds whatever comes by.
pub proof fn law_memory_stays_bounded(memory: Seq<Key>, cap: nat, keys: Seq<Key>)
    requires
        memory.no_duplicates(),
        memory.len() <= cap,
    ensures
        remember_all(memory, cap, keys).no_duplicates(),
        remember_all(memory, cap, keys).len() <= cap,
    decreases keys.len(),
{
    if keys.len() > 0 {
        law_memory_stays_bounded(memory, cap, keys.drop_last());
    }
}

/// When a packet comes by, it is remembered afterwards and so is everything
/// that was, in the same order; only when there is no room left for it does the
/// one that has been remembered longest make way.
pub proof fn law_oldest_makes_way(memory: Seq<Key>, cap: nat, key: Key)
    requires
        memory.len() <= cap,
        cap > 0,
    ensures
        memory.contains(key) ==> remember(memory, cap, key) == memory,
        !memory.contains(key) && memory.len() < cap ==> {
            &&& remember(memory, cap, key).drop_last() == memory
            &&& remember(memory, cap, key).last() == key
        },
        !memory.contains(key) && memory.len() == cap ==> {
            &&& remember(memory, cap, key).len() == cap
            &&& remember(memory, cap, key).drop_last() == memory.drop_first()
            &&& remember(memory, cap, key).last() == key
        },
{
    let after = remember(memory, cap, key);
    if !memory.contains(key) {
        if memory.len() < cap {
            assert(after.drop_last() =~= memory);
        } else {
            assert(after.drop_last() =~= memory.drop_first());
        }
    }
}

/// Without room nothing is ever remembered.
pub proof fn law_without_room(key: Key)
    ensures
        remember(Seq::empty(), 0, key) == Seq::<Key>::empty(),
{
}

/// A packet that just came by is remembered, unless there is no room at all.
pub proof fn law_latest_is_remembered(memory: Seq<Key>, cap: nat, key: Key)
    requires
        cap > 0,
    ensures
        remember(memory, cap, key).contains(key),
{
    if !memory.contains(key) {
        let after = remember(memory, cap, key);
        assert(after[after.len() - 1] == key);
    }
}

/// A packet that just came by for the first time is remembered until as many
/// others as there is room for have come by for the first time.
pub proof fn law_remembered_until_displaced(memory: Seq<Key>, cap: nat, key: Key, later: Seq<Key>)
    requires
        memory.len() <= cap,
        !memory.contains(key),
        fresh_count(remember(memory, cap, key), cap, later) < cap,
    ensures
        remember_all(remember(memory, cap, key), cap, later).contains(key),
{
    lemma_sinks_one_place_at_a_time(remember(memory, cap, key), cap, key, later);
    let after = remember_all(remember(memory, cap, key), cap, later);
    let depth = fresh_count(remember(memory, cap, key), cap, later);
    assert(after[after.len() - 1 - depth] == key);
}

/// Whether `key` is among `keys` at a time when it is not remembered, as they
/// come one after the other.
pub open spec fn comes_anew(memory: Seq<Key>, cap: nat, key: Key, keys: Seq<Key>) -> bool
    decreases keys.len(),
{
    &&& keys.len() > 0
    &&& {
        ||| comes_anew(memory, cap, key, keys.drop_last())
        ||| keys.last() == key && !remember_all(memory, cap, keys.drop_last()).contains(key)
    }
}

/// A packet that just came by for the first time is forgotten once as many
/// others as there is room for have come by for the first time, unless it has
/// come anew.
pub proof fn law_forgotten_when_displaced(memory: Seq<Key>, cap: nat, key: Key, later: Seq<Key>)
    requires
        memory.len() <= cap,
        !memory.contains(key),
        fresh_count(remember(memory, cap, key), cap, later) >= cap,
        !comes_anew(remember(memory, cap, key), cap, key, later),
    ensures
        !remember_all(remember(memory, cap, key), cap, later).contains(key),
{
    let start = remember(memory, cap, key);
    assert forall|i: int| 0 <= i < start.len() && start[i] == key implies i == start.len() - 1 by {
        let pushed = memory.push(key);
        let place = pushed.len() - start.len() + i;
        assert(pushed[place] == key);
        assert(place < memory.len() ==> memory[place] == key);
    }
    lemma_stands_nowhere_else(start, cap, key, later);
}

/// A packet that does not come anew stands at most in the one place to which
/// those that came after it have pushed it.
proof fn lemma_stands_nowhere_else(memory: Seq<Key>, cap: nat, key: Key, later: Seq<Key>)
    requires
        memory.len() <= cap,
        forall|i: int| 0 <= i < memory.len() && memory[i] == key ==> i == memory.len() - 1,
        !comes_anew(memory, cap, key, later),
    ensures
        ({
            let after = remember_all(memory, cap, later);
            let depth = fresh_count(memory, cap, later);
            &&& after.len() <= cap
            &&& forall|i: int|
                0 <= i < after.len() && after[i] == key ==> i == after.len() - 1 - depth
        }),
    decreases later.len(),
{
    if later.len() > 0 {
        lemma_stands_nowhere_else(memory, cap, key, later.drop_last());
        let before = remember_all(memory, cap, later.drop_last());
        let after = remember_all(memory, cap, later);
        let depth = fresh_count(memory, cap, later);
        if !before.contains(later.last()) {
            let pushed = before.push(later.last());
            assert forall|i: int| 0 <= i < after.len() && after[i] == key implies i == after.len()
                - 1 - depth by {
                let place = pushed.len() - after.len() + i;
                assert(pushed[place] == key);
                assert(place < before.len() ==> before[place] == key);
            }
        }
    }
}

/// Each packet new to the memory pushes the others one place further down.
proof fn lemma_sinks_one_place_at_a_time(memory: Seq<Key>, cap: nat, key: Key, later: Seq<Key>)
    requires
        0 < memory.len() <= cap,
        memory.last() == key,
        fresh_count(memory, cap, later) < cap,
    ensures
        ({
            let after = remember_all(memory, cap, later);
            let depth = fresh_count(memory, cap, later);
            &&& depth < after.len() <= cap
            &&& after[after.len() - 1 - depth] == key
        }),
    decreases later.len(),
{
    if later.len() > 0 {
        lemma_sinks_one_place_at_a_time(memory, cap, key, later.drop_last());
    }
}

} // verus!
