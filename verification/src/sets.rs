//! Sets of strings, and tables whose values are sets of strings.
use crate::table::Table;
use vstd::prelude::*;

verus! {

/// A set of strings, iterable in the order in which its members were first inserted.
pub struct StrSet {
    members: Table<()>,
}

impl StrSet {
    pub closed spec fn wf(&self) -> bool {
        self.members.wf()
    }

    /// The members, in the order in which they were first inserted.
    pub closed spec fn elements(&self) -> Seq<Seq<char>> {
        self.members.keys()
    }

    pub closed spec fn view(&self) -> Set<Seq<char>> {
        self.members@.dom()
    }

    /// The members are distinct and are exactly the members of the set.
    pub proof fn lemma_elements(&self)
        requires
            self.wf(),
        ensures
            self.elements().no_duplicates(),
            forall|k: Seq<char>| #[trigger] self@.contains(k) <==> self.elements().contains(k),
            self@.finite(),
            self@.len() == self.elements().len(),
    {
        self.members.lemma_keys();
    }

    /// The empty set.
    pub fn new() -> (s: Self)
        ensures
            s.wf(),
            s@ == Set::<Seq<char>>::empty(),
            s.elements() == Seq::<Seq<char>>::empty(),
    {
        let s = StrSet { members: Table::new() };
        assert(s@ =~= Set::<Seq<char>>::empty());
        s
    }

    /// The number of members.
    pub fn len(&self) -> (n: usize)
        requires
            self.wf(),
        ensures
            n == self.elements().len(),
            n == self@.len(),
    {
        proof {
            self.lemma_elements();
        }
        self.members.len()
    }

    /// Whether a string is a member.
    pub fn contains(&self, k: &str) -> (b: bool)
        requires
            self.wf(),
        ensures
            b == self@.contains(k@),
    {
        self.members.contains_key(k)
    }

    /// Adds a member, and tells whether it was new.
    pub fn insert(&mut self, k: String) -> (added: bool)
        requires
            old(self).wf(),
        ensures
            final(self).wf(),
            final(self)@ == old(self)@.insert(k@),
            added == !old(self)@.contains(k@),
            final(self).elements() == (if added {
                old(self).elements().push(k@)
            } else {
                old(self).elements()
            }),
    {
        let added = !self.members.contains_key(k.as_str());
        self.members.insert(k, ());
        assert(self@ =~= old(self)@.insert(k@));
        added
    }

    /// The member at a position.
    pub fn element_at(&self, i: usize) -> (k: &String)
        requires
            self.wf(),
            i < self.elements().len(),
        ensures
            k@ == self.elements()[i as int],
            self@.contains(k@),
    {
        proof {
            self.lemma_elements();
        }
        self.members.key_at(i)
    }

    /// Adds every member of another set.
    pub fn extend(&mut self, other: &StrSet)
        requires
            old(self).wf(),
            other.wf(),
        ensures
            final(self).wf(),
            final(self)@ == old(self)@.union(other@),
    {
        let n = other.len();
        let mut i: usize = 0;
        proof {
            other.lemma_elements();
        }
        while i < n
            invariant
                n == other.elements().len(),
                i <= n,
                self.wf(),
                other.wf(),
                forall|k: Seq<char>| #[trigger] other@.contains(k) <==> other.elements().contains(k),
                self@ == old(self)@.union(other.elements().take(i as int).to_set()),
            decreases n - i,
        {
            let k = other.element_at(i);
            self.insert(k.clone());
            assert(other.elements().take(i + 1) =~= other.elements().take(i as int).push(
                other.elements()[i as int],
            ));
            proof {
                other.elements().take(i as int).lemma_push_to_set_commute(other.elements()[i as int]);
            }
            assert(self@ =~= old(self)@.union(other.elements().take(i + 1).to_set()));
            i += 1;
        }
        assert(other.elements().take(n as int) =~= other.elements());
        assert(other.elements().to_set() =~= other@);
        assert(self@ =~= old(self)@.union(other@));
    }

    /// Whether two sets have the same members.
    pub fn same_members(&self, other: &StrSet) -> (b: bool)
        requires
            self.wf(),
            other.wf(),
        ensures
            b == (self@ == other@),
    {
        proof {
            self.lemma_elements();
            other.lemma_elements();
        }
        if self.len() != other.len() {
            assert(self@ != other@);
            return false;
        }
        let n = self.len();
        let mut i: usize = 0;
        while i < n
            invariant
                n == self.elements().len(),
                n == self@.len(),
                n == other@.len(),
                i <= n,
                self.wf(),
                other.wf(),
                self@.finite(),
                other@.finite(),
                forall|k: Seq<char>| #[trigger] self@.contains(k) <==> self.elements().contains(k),
                forall|j: int| 0 <= j < i ==> other@.contains(#[trigger] self.elements()[j]),
            decreases n - i,
        {
            let k = self.element_at(i);
            if !other.contains(k.as_str()) {
                assert(self@.contains(k@));
                assert(self@ != other@);
                return false;
            }
            i += 1;
        }
        assert(self@.subset_of(other@)) by {
            assert forall|k: Seq<char>| self@.contains(k) implies other@.contains(k) by {
                let j = choose|j: int| 0 <= j < n && self.elements()[j] == k;
            }
        }
        proof {
            vstd::set_lib::lemma_subset_equality(self@, other@);
        }
        true
    }
}

/// A table from strings to sets of strings.
pub struct SetTable {
    sets: Table<StrSet>,
}

impl SetTable {
    pub closed spec fn wf(&self) -> bool {
        &&& self.sets.wf()
        &&& forall|k: Seq<char>| #[trigger] self.sets@.contains_key(k) ==> self.sets@[k].wf()
    }

    /// The keys, in the order in which they were first inserted.
    pub closed spec fn keys(&self) -> Seq<Seq<char>> {
        self.sets.keys()
    }

    pub closed spec fn view(&self) -> Map<Seq<char>, Set<Seq<char>>> {
        Map::new(|k: Seq<char>| self.sets@.contains_key(k), |k: Seq<char>| self.sets@[k]@)
    }

    /// The keys are distinct and are exactly the keys of the map.
    pub proof fn lemma_keys(&self)
        requires
            self.wf(),
        ensures
            self.keys().no_duplicates(),
            forall|k: Seq<char>| #[trigger] self@.contains_key(k) <==> self.keys().contains(k),
    {
        self.sets.lemma_keys();
    }

    /// The empty table.
    pub fn new() -> (t: Self)
        ensures
            t.wf(),
            t@ == Map::<Seq<char>, Set<Seq<char>>>::empty(),
    {
        let t = SetTable { sets: Table::new() };
        assert(t@ =~= Map::<Seq<char>, Set<Seq<char>>>::empty());
        t
    }

    /// The number of keys.
    pub fn len(&self) -> (n: usize)
        requires
            self.wf(),
        ensures
            n == self.keys().len(),
    {
        self.sets.len()
    }

    /// The key at a position.
    pub fn key_at(&self, i: usize) -> (k: &String)
        requires
            self.wf(),
            i < self.keys().len(),
        ensures
            k@ == self.keys()[i as int],
    {
        self.sets.key_at(i)
    }

    /// The set at a position.
    pub fn set_at(&self, i: usize) -> (s: &StrSet)
        requires
            self.wf(),
            i < self.keys().len(),
        ensures
            s.wf(),
            self@.contains_key(self.keys()[i as int]),
            s@ == self@[self.keys()[i as int]],
    {
        proof {
            self.sets.lemma_keys();
        }
        self.sets.value_at(i)
    }

    /// The set of a key, if the table holds the key.
    pub fn get(&self, k: &str) -> (r: Option<&StrSet>)
        requires
            self.wf(),
        ensures
            match r {
                Some(s) => s.wf() && self@.contains_key(k@) && s@ == self@[k@],
                None => !self@.contains_key(k@),
            },
    {
        self.sets.get(k)
    }

    /// Adds a member to the set of a key, creating an empty set for a new key first.
    pub fn add(&mut self, key: String, member: String)
        requires
            old(self).wf(),
        ensures
            final(self).wf(),
            final(self)@ == old(self)@.insert(
                key@,
                if old(self)@.contains_key(key@) {
                    old(self)@[key@]
                } else {
                    Set::empty()
                }.insert(member@),
            ),
    {
        let i = match self.sets.position(key.as_str()) {
            Some(i) => i,
            None => {
                let n = self.sets.len();
                self.sets.insert(key, StrSet::new());
                n
            },
        };
        let mut set = self.sets.replace_at(i, StrSet::new());
        set.insert(member);
        self.sets.replace_at(i, set);
        assert(self@ =~= old(self)@.insert(
            key@,
            if old(self)@.contains_key(key@) {
                old(self)@[key@]
            } else {
                Set::empty()
            }.insert(member@),
        ));
    }

    /// Sets the set of a key.
    pub fn insert(&mut self, key: String, set: StrSet)
        requires
            old(self).wf(),
            set.wf(),
        ensures
            final(self).wf(),
            final(self)@ == old(self)@.insert(key@, set@),
    {
        let ghost s = set@;
        self.sets.insert(key, set);
        assert(self@ =~= old(self)@.insert(key@, s));
    }

    /// Moves every key of another table into this one; a key in both gets the other's set.
    pub fn extend(&mut self, other: SetTable)
        requires
            old(self).wf(),
            other.wf(),
        ensures
            final(self).wf(),
            final(self)@ == old(self)@.union_prefer_right(other@),
    {
        let mut other = other;
        let n = other.sets.len();
        proof {
            other.sets.lemma_keys();
        }
        let ghost given = other;
        let mut i: usize = 0;
        while i < n
            invariant
                n == given.keys().len(),
                i <= n,
                self.wf(),
                given.wf(),
                other.sets.wf(),
                other.sets.keys() == given.sets.keys(),
                given.keys().no_duplicates(),
                forall|k: Seq<char>|
                    #[trigger] given@.contains_key(k) <==> given.keys().contains(k),
                forall|j: int|
                    i <= j < n ==> #[trigger] other.sets@[given.keys()[j]] == given.sets@[given.keys()[j]],
                self@ == old(self)@.union_prefer_right(
                    given@.restrict(given.keys().take(i as int).to_set()),
                ),
            decreases n - i,
        {
            let ghost ki = given.keys()[i as int];
            assert(given.keys().contains(ki));
            assert(given@.contains_key(ki));
            assert(given.sets@.contains_key(ki));
            let set = other.sets.replace_at(i, StrSet::new());
            let key = other.sets.key_at(i).clone();
            assert(set == given.sets@[ki]);
            self.insert(key, set);
            assert forall|j: int| i + 1 <= j < n implies #[trigger] other.sets@[given.keys()[j]]
                == given.sets@[given.keys()[j]] by {
                assert(given.keys()[j] != ki);
            }
            assert(given.keys().take(i + 1) =~= given.keys().take(i as int).push(ki));
            proof {
                given.keys().take(i as int).lemma_push_to_set_commute(ki);
            }
            assert(self@ =~= old(self)@.union_prefer_right(
                given@.restrict(given.keys().take(i + 1).to_set()),
            ));
            i += 1;
        }
        assert(given.keys().take(n as int) =~= given.keys());
        assert(given@.restrict(given.keys().to_set()) =~= given@);
    }
}

} // verus!
