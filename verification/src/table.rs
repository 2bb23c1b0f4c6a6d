//! A string-keyed table that remembers the order in which keys were first inserted.
//!
//! Lookups go through a hash index; the entries themselves are kept in a vector, so that
//! the table can be walked in insertion order.
use vstd::hash_map::StringHashMap;
use vstd::prelude::*;

verus! {

/// A map from strings to values, iterable in the order in which keys were first inserted.
pub struct Table<V> {
    index: StringHashMap<usize>,
    entries: Vec<(String, V)>,
}

impl<V> Table<V> {
    /// The index and the entries agree: each key sits at the position that the index gives.
    pub closed spec fn wf(&self) -> bool {
        &&& forall|i: int|
            0 <= i < self.entries@.len() ==> #[trigger] self.index@.contains_key(self.entries@[i].0@)
                && self.index@[self.entries@[i].0@] == i
        &&& forall|k: Seq<char>|
            #[trigger] self.index@.contains_key(k) ==> self.index@[k] < self.entries@.len()
                && self.entries@[self.index@[k] as int].0@ == k
    }

    /// The keys, in the order in which they were first inserted.
    pub closed spec fn keys(&self) -> Seq<Seq<char>> {
        Seq::new(self.entries@.len(), |i: int| self.entries@[i].0@)
    }

    /// The table as a map from keys to values.
    pub closed spec fn view(&self) -> Map<Seq<char>, V> {
        Map::new(
            |k: Seq<char>| self.index@.contains_key(k),
            |k: Seq<char>| self.entries@[self.index@[k] as int].1,
        )
    }

    /// The keys are distinct, and they are exactly the keys of the map.
    pub proof fn lemma_keys(&self)
        requires
            self.wf(),
        ensures
            self.keys().no_duplicates(),
            forall|k: Seq<char>| #[trigger] self@.contains_key(k) <==> self.keys().contains(k),
            forall|i: int| 0 <= i < self.keys().len() ==> #[trigger] self@.contains_key(self.keys()[i]),
            self@.dom().finite(),
            self@.dom().len() == self.keys().len(),
    {
        assert forall|k: Seq<char>| #[trigger] self@.contains_key(k) implies self.keys().contains(k) by {
            let i = self.index@[k] as int;
            assert(self.keys()[i] == k);
        }
        assert forall|k: Seq<char>| self.keys().contains(k) implies #[trigger] self@.contains_key(k) by {
            let i = choose|i: int| 0 <= i < self.keys().len() && self.keys()[i] == k;
            assert(self.index@.contains_key(self.entries@[i].0@));
        }
        assert forall|i: int, j: int|
            0 <= i < self.keys().len() && 0 <= j < self.keys().len() && i != j implies self.keys()[i]
            != self.keys()[j] by {
            assert(self.index@.contains_key(self.entries@[i].0@));
            assert(self.index@.contains_key(self.entries@[j].0@));
        }
        assert(self@.dom() =~= self.keys().to_set());
        self.keys().unique_seq_to_set();
    }

    /// Creates an empty table.
    pub fn new() -> (t: Self)
        ensures
            t.wf(),
            t@ == Map::<Seq<char>, V>::empty(),
            t.keys() == Seq::<Seq<char>>::empty(),
    {
        let t = Table { index: StringHashMap::new(), entries: Vec::new() };
        assert(t@ =~= Map::<Seq<char>, V>::empty());
        assert(t.keys() =~= Seq::<Seq<char>>::empty());
        t
    }

    /// The number of keys.
    pub fn len(&self) -> (n: usize)
        requires
            self.wf(),
        ensures
            n == self.keys().len(),
            n == self@.dom().len(),
    {
        proof {
            self.lemma_keys();
        }
        self.entries.len()
    }

    /// The position of a key, if the table holds it.
    pub fn position(&self, k: &str) -> (r: Option<usize>)
        requires
            self.wf(),
        ensures
            match r {
                Some(i) => i < self.keys().len() && self.keys()[i as int] == k@ && self@.contains_key(
                    k@,
                ),
                None => !self@.contains_key(k@),
            },
    {
        match self.index.get(k) {
            Some(i) => Some(*i),
            None => None,
        }
    }

    /// Whether the table holds a key.
    pub fn contains_key(&self, k: &str) -> (b: bool)
        requires
            self.wf(),
        ensures
            b == self@.contains_key(k@),
    {
        self.index.contains_key(k)
    }

    /// The value of a key, if the table holds it.
    pub fn get(&self, k: &str) -> (r: Option<&V>)
        requires
            self.wf(),
        ensures
            match r {
                Some(v) => self@.contains_key(k@) && *v == self@[k@],
                None => !self@.contains_key(k@),
            },
    {
        match self.index.get(k) {
            Some(i) => Some(&self.entries[*i].1),
            None => None,
        }
    }

    /// The key at a position.
    pub fn key_at(&self, i: usize) -> (k: &String)
        requires
            self.wf(),
            i < self.keys().len(),
        ensures
            k@ == self.keys()[i as int],
    {
        &self.entries[i].0
    }

    /// The value at a position.
    pub fn value_at(&self, i: usize) -> (v: &V)
        requires
            self.wf(),
            i < self.keys().len(),
        ensures
            self@.contains_key(self.keys()[i as int]),
            *v == self@[self.keys()[i as int]],
    {
        &self.entries[i].1
    }

    /// Sets the value of a key; a new key goes after all others.
    pub fn insert(&mut self, k: String, v: V)
        requires
            old(self).wf(),
        ensures
            final(self).wf(),
            final(self)@ == old(self)@.insert(k@, v),
            final(self).keys() == (if old(self)@.contains_key(k@) {
                old(self).keys()
            } else {
                old(self).keys().push(k@)
            }),
    {
        match self.index.get(k.as_str()) {
            Some(i) => {
                let i = *i;
                self.entries.set(i, (k, v));
                assert(self@ =~= old(self)@.insert(k@, v));
                assert(self.keys() =~= old(self).keys());
            },
            None => {
                let n = self.entries.len();
                let key = k.clone();
                self.entries.push((k, v));
                self.index.insert(key, n);
                assert(self@ =~= old(self)@.insert(k@, v));
                assert(self.keys() =~= old(self).keys().push(k@));
            },
        }
    }

    /// Replaces the value at a position, and hands back the value that was there.
    pub fn replace_at(&mut self, i: usize, v: V) -> (previous: V)
        requires
            old(self).wf(),
            i < old(self).keys().len(),
        ensures
            final(self).wf(),
            previous == old(self)@[old(self).keys()[i as int]],
            final(self)@ == old(self)@.insert(old(self).keys()[i as int], v),
            final(self).keys() == old(self).keys(),
    {
        let key = self.entries[i].0.clone();
        let mut pair = (key, v);
        self.entries.set_and_swap(i, &mut pair);
        let ghost k = old(self).keys()[i as int];
        assert(old(self).index@.contains_key(old(self).entries@[i as int].0@));
        assert(self@ =~= old(self)@.insert(k, v));
        assert(self.keys() =~= old(self).keys());
        let (_, previous) = pair;
        previous
    }

    /// Moves the entries of `other` into this table; where both have a key, the value of `other`
    /// is kept.
    pub fn absorb(&mut self, other: Table<V>)
        requires
            old(self).wf(),
            other.wf(),
        ensures
            final(self).wf(),
            final(self)@ == old(self)@.union_prefer_right(other@),
    {
        let ghost all = other.entries@;
        let ghost other_map = other@;
        let ghost other_index = other.index@;
        let mut entries = other.entries;
        assert(self@ =~= old(self)@.union_prefer_right(
            Map::new(
                |k: Seq<char>| other_map.contains_key(k) && other_index[k] >= entries@.len(),
                |k: Seq<char>| other_map[k],
            ),
        ));
        while entries.len() > 0
            invariant
                self.wf(),
                entries@ == all.take(entries@.len() as int),
                entries@.len() <= all.len(),
                forall|i: int|
                    0 <= i < all.len() ==> #[trigger] other_index.contains_key(all[i].0@)
                        && other_index[all[i].0@] == i,
                forall|k: Seq<char>|
                    #[trigger] other_index.contains_key(k) ==> other_index[k] < all.len()
                        && all[other_index[k] as int].0@ == k,
                forall|k: Seq<char>|
                    #[trigger] other_map.contains_key(k) == other_index.contains_key(k),
                forall|k: Seq<char>|
                    other_index.contains_key(k) ==> #[trigger] other_map[k] == all[other_index[k] as int].1,
                self@ == old(self)@.union_prefer_right(
                    Map::new(
                        |k: Seq<char>| other_map.contains_key(k) && other_index[k] >= entries@.len(),
                        |k: Seq<char>| other_map[k],
                    ),
                ),
            decreases entries@.len(),
        {
            let ghost m = entries@.len() - 1;
            let (k, v) = entries.pop().unwrap();
            assert(all[m].0@ == k@);
            assert(other_index.contains_key(all[m].0@));
            assert(other_index[k@] == m);
            self.insert(k, v);
            assert(entries@ =~= all.take(m));
            assert(self@ =~= old(self)@.union_prefer_right(
                Map::new(
                    |k: Seq<char>| other_map.contains_key(k) && other_index[k] >= m,
                    |k: Seq<char>| other_map[k],
                ),
            ));
        }
        assert(self@ =~= old(self)@.union_prefer_right(other_map));
    }
}

} // verus!
