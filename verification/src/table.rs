//! Tables with text keys, and what is needed to find a thing in a sequence.

use vstd::prelude::*;

verus! {

/// The texts of a sequence of strings.
pub open spec fn texts(s: Seq<String>) -> Seq<Seq<char>> {
    s.map_values(|x: String| x@)
}

/// The first position at which `key` stands in `keys`, if any.
pub open spec fn position<K>(keys: Seq<K>, key: K) -> Option<int>
    decreases keys.len(),
{
    if keys.len() == 0 {
        None
    } else if keys[0] == key {
        Some(0)
    } else {
        match position(keys.drop_first(), key) {
            Some(i) => Some(i + 1),
            None => None,
        }
    }
}

/// Nothing stands at two positions.
pub open spec fn distinct<K>(keys: Seq<K>) -> bool {
    forall|i: int, j: int| 0 <= i < j < keys.len() ==> keys[i] != keys[j]
}

/// What `position` finds is the first place of the key, and it finds none only
/// where the key stands nowhere.
pub proof fn lemma_position<K>(keys: Seq<K>, key: K)
    ensures
        match position(keys, key) {
            Some(i) => 0 <= i < keys.len() && keys[i] == key && forall|j: int|
                0 <= j < i ==> keys[j] != key,
            None => forall|j: int| 0 <= j < keys.len() ==> keys[j] != key,
        },
    decreases keys.len(),
{
    if keys.len() == 0 {
    } else if keys[0] == key {
    } else {
        let rest = keys.drop_first();
        lemma_position(rest, key);
        match position(rest, key) {
            Some(i) => {
                assert forall|j: int| 0 <= j < i + 1 implies keys[j] != key by {
                    if j > 0 {
                        assert(rest[j - 1] == keys[j]);
                    }
                }
            },
            None => {
                assert forall|j: int| 0 <= j < keys.len() implies keys[j] != key by {
                    if j > 0 {
                        assert(rest[j - 1] == keys[j]);
                    }
                }
            },
        }
    }
}

/// A map from text keys to values that remembers the order in which its keys
/// first came.
#[derive(Clone, Debug)]
pub struct Table<V> {
    pub(crate) entries: Vec<(String, V)>,
}

/// What a table holds: its keys in the order of their first insertion, and the
/// value of each at the same place.
pub struct TableView<T> {
    pub keys: Seq<Seq<char>>,
    pub values: Seq<T>,
}

impl<T> TableView<T> {
    /// The value stored under `key`, if there is one.
    pub open spec fn lookup(self, key: Seq<char>) -> Option<T> {
        match position(self.keys, key) {
            Some(i) => Some(self.values[i]),
            None => None,
        }
    }
}

impl<V: View> View for Table<V> {
    type V = TableView<V::V>;

    open(crate) spec fn view(&self) -> TableView<V::V> {
        TableView { keys: self.keys(), values: self.values().map_values(|v: V| v@) }
    }
}

impl<V: View> Table<V> {
    /// Looking a key up in what the table holds finds what the value found
    /// in the table holds.
    pub proof fn lemma_lookup(&self, key: Seq<char>)
        ensures
            self@.lookup(key) == match self.lookup(key) {
                Some(v) => Some(v@),
                None => None,
            },
    {
        lemma_position(self.keys(), key);
    }
}

impl<V> Table<V> {
    /// No key occurs twice.
    pub open spec fn wf(&self) -> bool {
        distinct(self.keys())
    }

    /// The keys, in the order of their first insertion.
    pub open(crate) spec fn keys(&self) -> Seq<Seq<char>> {
        self.entries@.map_values(|e: (String, V)| e.0@)
    }

    /// The values, each at the position of its key.
    pub open(crate) spec fn values(&self) -> Seq<V> {
        self.entries@.map_values(|e: (String, V)| e.1)
    }

    /// The value stored under `key`, if there is one.
    pub open spec fn lookup(&self, key: Seq<char>) -> Option<V> {
        match position(self.keys(), key) {
            Some(i) => Some(self.values()[i]),
            None => None,
        }
    }

    /// A table without entries.
    pub fn new() -> (t: Self)
        ensures
            t.wf(),
            t.keys() == Seq::<Seq<char>>::empty(),
            t.values() == Seq::<V>::empty(),
    {
        Table { entries: Vec::new() }
    }

    /// The number of entries.
    pub fn len(&self) -> (n: usize)
        ensures
            n == self.keys().len(),
            n == self.values().len(),
    {
        self.entries.len()
    }

    /// The key at place `i`.
    pub fn key(&self, i: usize) -> (k: &String)
        requires
            i < self.keys().len(),
        ensures
            k@ == self.keys()[i as int],
    {
        &self.entries[i].0
    }

    /// The value at place `i`.
    pub fn value(&self, i: usize) -> (v: &V)
        requires
            i < self.values().len(),
        ensures
            *v == self.values()[i as int],
    {
        &self.entries[i].1
    }

    /// The position of `key`, if the table holds it.
    pub fn find(&self, key: &String) -> (r: Option<usize>)
        ensures
            match r {
                Some(i) => position(self.keys(), key@) == Some(i as int) && i < self.keys().len(),
                None => position(self.keys(), key@).is_none(),
            },
    {
        let mut i: usize = 0;
        while i < self.entries.len()
            invariant
                i <= self.entries.len(),
                forall|j: int| 0 <= j < i ==> self.keys()[j] != key@,
            decreases self.entries.len() - i,
        {
            if self.entries[i].0 == *key {
                proof {
                    assert(self.keys()[i as int] == key@);
                    lemma_position(self.keys(), key@);
                }
                return Some(i);
            }
            assert(self.keys()[i as int] != key@);
            i += 1;
        }
        proof {
            lemma_position(self.keys(), key@);
        }
        None
    }

    /// Whether the table holds `key`.
    pub fn contains_key(&self, key: &String) -> (b: bool)
        ensures
            b == self.lookup(key@).is_some(),
    {
        self.find(key).is_some()
    }

    /// The value stored under `key`, if there is one.
    pub fn get(&self, key: &String) -> (r: Option<&V>)
        ensures
            match r {
                Some(v) => self.lookup(key@) == Some(*v),
                None => self.lookup(key@).is_none(),
            },
    {
        match self.find(key) {
            Some(i) => Some(&self.entries[i].1),
            None => None,
        }
    }

    /// Stores `value` under `key`: in place of the value that the key had, or
    /// behind all other keys if it is new.
    pub fn insert(&mut self, key: String, value: V)
        ensures
            old(self).wf() ==> final(self).wf(),
            match position(old(self).keys(), key@) {
                Some(i) => final(self).keys() == old(self).keys() && final(self).values() == old(
                    self,
                ).values().update(i, value),
                None => final(self).keys() == old(self).keys().push(key@) && final(self).values()
                    == old(self).values().push(value),
            },
    {
        proof {
            lemma_position(self.keys(), key@);
        }
        match self.find(&key) {
            Some(i) => {
                self.entries.set(i, (key, value));
                assert(self.keys() == old(self).keys());
                assert(self.values() == old(self).values().update(i as int, value));
            },
            None => {
                self.entries.push((key, value));
                assert(self.keys() == old(self).keys().push(key@));
                assert(self.values() == old(self).values().push(value));
            },
        }
    }
}

} // verus!
