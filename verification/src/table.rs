//! A small table keyed by strings, in which no key occurs twice and entries
//! keep the order in which their keys first came.

use vstd::prelude::*;
use crate::text::texts;

verus! {

/// Entries under string keys. A key is held once; its place is that of its
/// first insertion.
#[derive(Debug)]
pub struct Table<V> {
    keys: Vec<String>,
    values: Vec<V>,
}

impl<V: Clone> Clone for Table<V> {
    fn clone(&self) -> (r: Table<V>)
        ensures
            r.keys() == self.keys(),
            r.values().len() == self.values().len(),
            self.keys().len() == self.values().len(),
            forall|i: int|
                0 <= i < self.values().len() ==> cloned::<V>(
                    #[trigger] self.values()[i],
                    r.values()[i],
                ),
    {
        proof {
            use_type_invariant(self);
        }
        let keys = self.keys.clone();
        let values = self.values.clone();
        assert(texts(keys@) =~= texts(self.keys@));
        Table { keys, values }
    }
}

impl<V> Table<V> {
    /// The keys, in order.
    pub closed spec fn keys(&self) -> Seq<Seq<char>> {
        texts(self.keys@)
    }

    /// The values, each at the place of its key.
    pub closed spec fn values(&self) -> Seq<V> {
        self.values@
    }

    #[verifier::type_invariant]
    closed spec fn well_formed(self) -> bool {
        &&& self.keys@.len() == self.values@.len()
        &&& texts(self.keys@).no_duplicates()
    }

    /// The value under `key`, if the table holds the key.
    pub open spec fn lookup(&self, key: Seq<char>) -> Option<V> {
        if self.keys().contains(key) {
            Some(self.values()[self.keys().index_of(key)])
        } else {
            None
        }
    }

    /// An empty table.
    pub fn new() -> (t: Table<V>)
        ensures
            t.keys() == Seq::<Seq<char>>::empty(),
            t.values() == Seq::<V>::empty(),
    {
        let t = Table { keys: Vec::new(), values: Vec::new() };
        assert(texts(t.keys@) =~= Seq::<Seq<char>>::empty());
        t
    }

    /// The number of entries.
    pub fn len(&self) -> (n: usize)
        ensures
            n == self.keys().len(),
            n == self.values().len(),
            self.keys().no_duplicates(),
    {
        proof {
            use_type_invariant(self);
        }
        self.keys.len()
    }

    /// The place of `key` in the table.
    pub fn position(&self, key: &String) -> (r: Option<usize>)
        ensures
            self.keys().len() == self.values().len(),
            self.keys().no_duplicates(),
            match r {
                Some(i) => i < self.keys().len() && self.keys()[i as int] == key@,
                None => !self.keys().contains(key@),
            },
    {
        proof {
            use_type_invariant(self);
        }
        let n: usize = self.keys.len();
        let mut i: usize = 0;
        while i < n
            invariant
                i <= n == self.keys@.len(),
                self.keys@.len() == self.values@.len(),
                texts(self.keys@).no_duplicates(),
                forall|j: int| 0 <= j < i ==> texts(self.keys@)[j] != key@,
            decreases n - i,
        {
            if self.keys[i] == *key {
                return Some(i);
            }
            i = i + 1;
        }
        None
    }

    /// The value under `key`.
    pub fn get(&self, key: &String) -> (r: Option<&V>)
        ensures
            match r {
                Some(v) => self.lookup(key@) == Some(*v),
                None => self.lookup(key@) is None,
            },
    {
        match self.position(key) {
            Some(i) => {
                proof {
                    use_type_invariant(self);
                }
                Some(&self.values[i])
            },
            None => None,
        }
    }

    /// The key at place `i`.
    pub fn key_at(&self, i: usize) -> (k: &String)
        requires
            i < self.keys().len(),
        ensures
            k@ == self.keys()[i as int],
    {
        &self.keys[i]
    }

    /// The value at place `i`.
    pub fn value_at(&self, i: usize) -> (v: &V)
        requires
            i < self.values().len(),
        ensures
            *v == self.values()[i as int],
    {
        &self.values[i]
    }

    /// Puts `value` under `key`. Where the key was held already, its value is
    /// replaced and handed back; where it was not, the entry goes to the end.
    pub fn insert(&mut self, key: String, value: V) -> (r: Option<V>)
        ensures
            r == old(self).lookup(key@),
            final(self).lookup(key@) == Some(value),
            forall|other: Seq<char>|
                other != key@ ==> final(self).lookup(other) == old(self).lookup(other),
            match r {
                Some(_) => final(self).keys() == old(self).keys() && final(self).values() == old(self).values().update(old(self).keys().index_of(key@), value),
                None => final(self).keys() == old(self).keys().push(key@) && final(self).values()
                    == old(self).values().push(value),
            },
    {
        let found = self.position(&key);
        let mut taken: Table<V> = Table::new();
        core::mem::swap(self, &mut taken);
        let Table { keys, values } = taken;
        let mut keys = keys;
        let mut values = values;
        let r = match found {
            Some(i) => {
                let mut value = value;
                core::mem::swap(&mut values[i], &mut value);
                Some(value)
            },
            None => {
                keys.push(key);
                values.push(value);
                assert(texts(keys@) =~= texts(old(self).keys@).push(key@));
                None
            },
        };
        let ghost at: int = match found {
            Some(i) => i as int,
            None => old(self).keys@.len() as int,
        };
        assert(texts(keys@)[at] == key@);
        assert(texts(keys@).no_duplicates());
        *self = Table { keys, values };
        assert(self.keys().contains(key@));
        assert(self.keys().index_of(key@) == at);
        assert forall|other: Seq<char>| other != key@ implies self.lookup(other) == old(self).lookup(other) by {
            let before = old(self).keys();
            let after = self.keys();
            if before.contains(other) {
                let j = before.index_of(other);
                assert(after[j] == other);
                assert(after.index_of(other) == j);
            } else if after.contains(other) {
                let j = after.index_of(other);
                assert(j < before.len() ==> before[j] == other);
            }
        }
        r
    }
}

} // verus!
