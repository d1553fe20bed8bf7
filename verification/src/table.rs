//! A small table from names to values.

use vstd::prelude::*;

verus! {

/// Maps names to values; a name stands in it at most once.
pub struct Table<V> {
    entries: Vec<(String, V)>,
}

impl<V> View for Table<V> {
    type V = Map<Seq<char>, V>;

    closed spec fn view(&self) -> Map<Seq<char>, V> {
        Map::new(
            |key: Seq<char>| self.order().contains(key),
            |key: Seq<char>| self.entries@[self.order().index_of(key)].1,
        )
    }
}

impl<V> Table<V> {
    /// The names, in the order in which they came.
    pub closed spec fn order(&self) -> Seq<Seq<char>> {
        self.entries@.map_values(|entry: (String, V)| entry.0@)
    }

    /// No name stands twice.
    pub closed spec fn wf(&self) -> bool {
        self.order().no_duplicates()
    }

    pub fn new() -> (table: Self)
        ensures
            table.wf(),
            table@ == Map::<Seq<char>, V>::empty(),
    {
        let table = Table { entries: Vec::new() };
        assert(table@ =~= Map::<Seq<char>, V>::empty());
        table
    }

    /// The place of `key`.
    fn place(&self, key: &String) -> (place: Option<usize>)
        requires
            self.wf(),
        ensures
            match place {
                Some(i) => {
                    &&& i < self.entries@.len()
                    &&& self.order()[i as int] == key@
                    &&& self@.contains_key(key@)
                    &&& self@[key@] == self.entries@[i as int].1
                },
                None => !self@.contains_key(key@),
            },
    {
        let mut i: usize = 0;
        while i < self.entries.len()
            invariant
                self.wf(),
                i <= self.entries@.len(),
                forall|j: int| 0 <= j < i ==> self.order()[j] != key@,
            decreases self.entries@.len() - i,
        {
            if self.entries[i].0.eq(key) {
                assert(self.order()[i as int] == key@);
                assert(self.order().contains(key@));
                return Some(i);
            }
            i += 1;
        }
        None
    }

    /// Whether `key` stands in the table.
    pub fn contains(&self, key: &String) -> (found: bool)
        requires
            self.wf(),
        ensures
            found == self@.contains_key(key@),
    {
        self.place(key).is_some()
    }

    /// The value of `key`.
    pub fn get(&self, key: &String) -> (value: Option<&V>)
        requires
            self.wf(),
        ensures
            match value {
                Some(v) => self@.contains_key(key@) && *v == self@[key@],
                None => !self@.contains_key(key@),
            },
    {
        match self.place(key) {
            Some(i) => Some(&self.entries[i].1),
            None => None,
        }
    }

    /// Gives `key` the value `value`.
    pub fn insert(&mut self, key: String, value: V)
        requires
            old(self).wf(),
        ensures
            final(self).wf(),
            final(self)@ == old(self)@.insert(key@, value),
    {
        self.remove(&key);
        let ghost before = *self;
        let ghost name = key@;
        self.entries.push((key, value));
        proof {
            assert(self.order() =~= before.order().push(name));
            assert(self.entries@.drop_last() =~= before.entries@);
            lemma_push(before, *self, name, value);
            assert(self@ =~= old(self)@.insert(name, value));
        }
    }

    /// Takes `key` out of the table, if it stands there.
    pub fn remove(&mut self, key: &String)
        requires
            old(self).wf(),
        ensures
            final(self).wf(),
            final(self)@ == old(self)@.remove(key@),
    {
        if let Some(i) = self.place(key) {
            let ghost before = *self;
            self.entries.remove(i);
            proof {
                assert(self.order() =~= before.order().remove(i as int));
                lemma_remove(before, *self, i as int);
            }
        }
        assert(self@ =~= old(self)@.remove(key@));
    }

    /// How many names stand in the table.
    pub fn len(&self) -> (len: usize)
        ensures
            len == self.order().len(),
    {
        self.entries.len()
    }

    /// The name and the value at `place`.
    pub fn entry(&self, place: usize) -> (entry: (&String, &V))
        requires
            self.wf(),
            place < self.order().len(),
        ensures
            entry.0@ == self.order()[place as int],
            self@.contains_key(entry.0@),
            *entry.1 == self@[entry.0@],
    {
        let ghost key = self.order()[place as int];
        assert(self.order().contains(key));
        (&self.entries[place].0, &self.entries[place].1)
    }

    /// The names in order are those that have values, each once.
    pub proof fn lemma_order(&self)
        requires
            self.wf(),
        ensures
            self.order().no_duplicates(),
            forall|key: Seq<char>| self.order().contains(key) <==> self@.contains_key(key),
    {
    }

    /// The names in the table, each once.
    pub fn keys(&self) -> (keys: Vec<String>)
        requires
            self.wf(),
        ensures
            texts(keys@).no_duplicates(),
            forall|key: Seq<char>| texts(keys@).contains(key) <==> self@.contains_key(key),
    {
        let mut keys: Vec<String> = Vec::new();
        let mut i: usize = 0;
        while i < self.len()
            invariant
                self.wf(),
                i <= self.order().len(),
                texts(keys@) == self.order().take(i as int),
            decreases self.order().len() - i,
        {
            let key = self.entry(i).0.clone();
            proof {
                assert(texts(keys@.push(key)) =~= texts(keys@).push(key@));
                assert(self.order().take(i + 1) =~= self.order().take(i as int).push(key@));
            }
            keys.push(key);
            i += 1;
        }
        proof {
            self.lemma_order();
            assert(texts(keys@) =~= self.order());
        }
        keys
    }
}

/// The texts of `strings`.
pub open spec fn texts(strings: Seq<String>) -> Seq<Seq<char>> {
    strings.map_values(|s: String| s@)
}

/// The texts are those of the strings, one for one.
pub proof fn law_texts(strings: Seq<String>, i: int)
    requires
        0 <= i < strings.len(),
    ensures
        texts(strings).len() == strings.len(),
        texts(strings)[i] == strings[i]@,
{
}

proof fn lemma_push<V>(before: Table<V>, after: Table<V>, name: Seq<char>, value: V)
    requires
        before.wf(),
        !before@.contains_key(name),
        after.order() == before.order().push(name),
        after.entries@.len() == before.entries@.len() + 1,
        after.entries@.drop_last() == before.entries@,
        after.entries@.last().1 == value,
    ensures
        after.wf(),
        after@ == before@.insert(name, value),
{
    let old_keys = before.order();
    let new_keys = after.order();
    assert(!old_keys.contains(name));
    assert(new_keys[old_keys.len() as int] == name);
    assert forall|key: Seq<char>| #[trigger]
        new_keys.contains(key) <==> old_keys.contains(key) || key == name by {
        if old_keys.contains(key) {
            let i = choose|i: int| 0 <= i < old_keys.len() && old_keys[i] == key;
            assert(new_keys[i] == key);
        }
        if new_keys.contains(key) {
            let i = choose|i: int| 0 <= i < new_keys.len() && new_keys[i] == key;
            assert(i < old_keys.len() ==> old_keys[i] == key);
        }
    }
    assert forall|key: Seq<char>| #[trigger] after@.contains_key(key) implies after@[key]
        == before@.insert(name, value)[key] by {
        let i = new_keys.index_of(key);
        assert(new_keys[i] == key);
        if key != name {
            assert(old_keys[i] == key);
            assert(old_keys.index_of(key) == i);
            assert(after.entries@[i] == before.entries@[i]);
        }
    }
    assert(after@ =~= before@.insert(name, value));
}

proof fn lemma_remove<V>(before: Table<V>, after: Table<V>, place: int)
    requires
        before.wf(),
        0 <= place < before.entries@.len(),
        after.entries@ == before.entries@.remove(place),
        after.order() == before.order().remove(place),
    ensures
        after.wf(),
        after@ == before@.remove(before.order()[place]),
{
    let old_keys = before.order();
    let new_keys = after.order();
    let name = old_keys[place];
    assert forall|key: Seq<char>| #[trigger]
        new_keys.contains(key) <==> old_keys.contains(key) && key != name by {
        if old_keys.contains(key) && key != name {
            let i = choose|i: int| 0 <= i < old_keys.len() && old_keys[i] == key;
            assert(new_keys[if i < place { i } else { i - 1 }] == key);
        }
        if new_keys.contains(key) {
            let i = choose|i: int| 0 <= i < new_keys.len() && new_keys[i] == key;
            assert(old_keys[if i < place { i } else { i + 1 }] == key);
        }
    }
    assert forall|key: Seq<char>| #[trigger] after@.contains_key(key) implies after@[key]
        == before@.remove(name)[key] by {
        let i = new_keys.index_of(key);
        assert(new_keys[i] == key);
        let j = if i < place { i } else { i + 1 };
        assert(old_keys[j] == key);
        assert(old_keys.index_of(key) == j);
        assert(after.entries@[i] == before.entries@[j]);
    }
    assert(after@ =~= before@.remove(name));
}

} // verus!
