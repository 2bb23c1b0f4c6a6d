//! Counts of contracting processes per identifier.
use crate::error::CountOverflow;
use crate::sets::StrSet;
use crate::table::Table;
use vstd::prelude::*;

verus! {

/// The count of a key, or zero.
pub open spec fn count_of(m: Map<Seq<char>, nat>, k: Seq<char>) -> nat {
    if m.contains_key(k) {
        m[k]
    } else {
        0
    }
}

/// The counts after one more occurrence of each member of `ids`.
pub open spec fn count_plus(m: Map<Seq<char>, nat>, ids: Set<Seq<char>>) -> Map<Seq<char>, nat> {
    Map::new(
        |k: Seq<char>| m.contains_key(k) || ids.contains(k),
        |k: Seq<char>|
            count_of(m, k) + if ids.contains(k) {
                1nat
            } else {
                0nat
            },
    )
}

/// The counts of two tables added up.
pub open spec fn count_sum(a: Map<Seq<char>, nat>, b: Map<Seq<char>, nat>) -> Map<Seq<char>, nat> {
    Map::new(
        |k: Seq<char>| a.contains_key(k) || b.contains_key(k),
        |k: Seq<char>| count_of(a, k) + count_of(b, k),
    )
}

/// Whether every count fits in `usize`.
pub open spec fn counts_bounded(m: Map<Seq<char>, nat>) -> bool {
    forall|k: Seq<char>| #[trigger] m.contains_key(k) ==> m[k] <= usize::MAX
}

/// The entries of a map whose keys are among `keys`.
pub open spec fn restrict_to(m: Map<Seq<char>, nat>, keys: Seq<Seq<char>>) -> Map<Seq<char>, nat> {
    Map::new(|k: Seq<char>| m.contains_key(k) && keys.contains(k), |k: Seq<char>| m[k])
}

/// The identifier, if any, as a set.
pub open spec fn id_set(id: Option<Seq<char>>) -> Set<Seq<char>> {
    match id {
        Some(id) => set![id],
        None => Set::empty(),
    }
}

/// A table from identifiers to counts.
pub struct CountTable {
    counts: Table<usize>,
}

impl CountTable {
    pub closed spec fn wf(&self) -> bool {
        self.counts.wf()
    }

    pub closed spec fn view(&self) -> Map<Seq<char>, nat> {
        Map::new(|k: Seq<char>| self.counts@.contains_key(k), |k: Seq<char>| self.counts@[k] as nat)
    }

    /// The identifiers, in the order in which they were first counted.
    pub closed spec fn keys(&self) -> Seq<Seq<char>> {
        self.counts.keys()
    }

    /// The keys are distinct and are exactly the keys of the map, whose counts fit in `usize`.
    pub proof fn lemma_keys(&self)
        requires
            self.wf(),
        ensures
            self.keys().no_duplicates(),
            forall|k: Seq<char>| #[trigger] self@.contains_key(k) <==> self.keys().contains(k),
            counts_bounded(self@),
    {
        self.counts.lemma_keys();
    }

    /// The empty table.
    pub fn new() -> (t: Self)
        ensures
            t.wf(),
            t@ == Map::<Seq<char>, nat>::empty(),
    {
        let t = CountTable { counts: Table::new() };
        assert(t@ =~= Map::<Seq<char>, nat>::empty());
        t
    }

    /// The number of identifiers.
    pub fn len(&self) -> (n: usize)
        requires
            self.wf(),
        ensures
            n == self.keys().len(),
    {
        self.counts.len()
    }

    /// The identifier at a position, and its count.
    pub fn entry_at(&self, i: usize) -> (r: (&String, usize))
        requires
            self.wf(),
            i < self.keys().len(),
        ensures
            r.0@ == self.keys()[i as int],
            self@.contains_key(r.0@),
            self@[r.0@] == r.1,
    {
        (self.counts.key_at(i), *self.counts.value_at(i))
    }

    /// The count of an identifier; zero if it was never counted.
    pub fn count(&self, k: &str) -> (n: usize)
        requires
            self.wf(),
        ensures
            n == count_of(self@, k@),
    {
        match self.counts.get(k) {
            Some(n) => *n,
            None => 0,
        }
    }

    /// Counts one more occurrence of each member of `ids`; fails, leaving the counts unspecified,
    /// exactly when a count would exceed `usize::MAX`.
    pub fn add_each(&mut self, ids: &StrSet) -> (r: Result<(), CountOverflow>)
        requires
            old(self).wf(),
            ids.wf(),
        ensures
            final(self).wf(),
            r is Ok <==> counts_bounded(count_plus(old(self)@, ids@)),
            r is Ok ==> final(self)@ == count_plus(old(self)@, ids@),
    {
        let n = ids.len();
        proof {
            ids.lemma_elements();
        }
        let ghost elements = ids.elements();
        assert(elements.take(0).to_set() =~= Set::<Seq<char>>::empty());
        assert(self@ =~= count_plus(old(self)@, elements.take(0).to_set()));
        let mut j: usize = 0;
        while j < n
            invariant
                n == elements.len(),
                elements == ids.elements(),
                elements.no_duplicates(),
                ids.wf(),
                j <= n,
                self.wf(),
                self@ == count_plus(old(self)@, elements.take(j as int).to_set()),
            decreases n - j,
        {
            let id = ids.element_at(j);
            let ghost done = elements.take(j as int).to_set();
            assert(!done.contains(id@)) by {
                if done.contains(id@) {
                    let x = choose|x: int| 0 <= x < j && elements.take(j as int)[x] == id@;
                    assert(elements[x] == elements[j as int]);
                }
            }
            let c = self.count(id.as_str());
            proof {
                elements.take(j as int).lemma_push_to_set_commute(id@);
                assert(elements.take(j + 1) =~= elements.take(j as int).push(id@));
            }
            if c == usize::MAX {
                assert(ids@.contains(id@));
                assert(count_plus(old(self)@, ids@).contains_key(id@));
                return Err(CountOverflow);
            }
            assert(elements.take(j + 1).to_set() == done.insert(id@));
            assert(c == count_of(old(self)@, id@));
            let ghost before = self@;
            self.counts.insert(id.clone(), c + 1);
            assert(self@ =~= before.insert(id@, (c + 1) as nat));
            assert(self@ =~= count_plus(old(self)@, elements.take(j + 1).to_set()));
            j += 1;
        }
        assert(elements.take(n as int) =~= elements);
        assert(elements.to_set() =~= ids@);
        proof {
            self.lemma_keys();
        }
        Ok(())
    }

    /// Adds the counts of another table; fails, leaving the counts unspecified, exactly when a
    /// count would exceed `usize::MAX`.
    pub fn merge(&mut self, other: &CountTable) -> (r: Result<(), CountOverflow>)
        requires
            old(self).wf(),
            other.wf(),
        ensures
            final(self).wf(),
            r is Ok <==> counts_bounded(count_sum(old(self)@, other@)),
            r is Ok ==> final(self)@ == count_sum(old(self)@, other@),
    {
        let n = other.len();
        proof {
            other.lemma_keys();
        }
        let ghost keys = other.keys();
        assert(self@ =~= count_sum(old(self)@, restrict_to(other@, keys.take(0))));
        let mut j: usize = 0;
        while j < n
            invariant
                n == keys.len(),
                keys == other.keys(),
                keys.no_duplicates(),
                forall|k: Seq<char>| #[trigger] other@.contains_key(k) <==> keys.contains(k),
                other.wf(),
                j <= n,
                self.wf(),
                self@ == count_sum(old(self)@, restrict_to(other@, keys.take(j as int))),
            decreases n - j,
        {
            let (id, more) = other.entry_at(j);
            assert(!keys.take(j as int).contains(id@)) by {
                if keys.take(j as int).contains(id@) {
                    let x = choose|x: int| 0 <= x < j && keys.take(j as int)[x] == id@;
                    assert(keys[x] == keys[j as int]);
                }
            }
            assert(keys.take(j + 1) =~= keys.take(j as int).push(id@));
            assert forall|k: Seq<char>| #[trigger] keys.take(j + 1).contains(k) <==> (keys.take(
                j as int,
            ).contains(k) || k == id@) by {
                let next = keys.take(j + 1);
                let prev = keys.take(j as int);
                if next.contains(k) && k != id@ {
                    let x = choose|x: int| 0 <= x < next.len() && next[x] == k;
                    assert(prev[x] == k);
                }
                if prev.contains(k) {
                    let x = choose|x: int| 0 <= x < prev.len() && prev[x] == k;
                    assert(next[x] == k);
                }
                if k == id@ {
                    assert(next[j as int] == k);
                }
            }
            let c = self.count(id.as_str());
            assert(c == count_of(old(self)@, id@));
            match c.checked_add(more) {
                Some(total) => {
                    let ghost before = self@;
                    self.counts.insert(id.clone(), total);
                    assert(self@ =~= before.insert(id@, total as nat));
                    assert(self@ =~= count_sum(old(self)@, restrict_to(other@, keys.take(j + 1))));
                },
                None => {
                    assert(count_sum(old(self)@, other@).contains_key(id@));
                    return Err(CountOverflow);
                },
            }
            j += 1;
        }
        assert(restrict_to(other@, keys.take(n as int)) =~= other@) by {
            assert(keys.take(n as int) =~= keys);
        }
        proof {
            self.lemma_keys();
        }
        Ok(())
    }
}

/// Counts add up the same whichever way states are split and in whichever order they are
/// reduced: adding up counts is commutative and associative, and counting a set of identifiers
/// is adding up its counts.
pub proof fn lemma_count_sum_order(
    a: Map<Seq<char>, nat>,
    b: Map<Seq<char>, nat>,
    c: Map<Seq<char>, nat>,
    ids: Set<Seq<char>>,
)
    ensures
        count_sum(a, b) == count_sum(b, a),
        count_sum(count_sum(a, b), c) == count_sum(a, count_sum(b, c)),
        count_plus(a, ids) == count_sum(
            a,
            Map::new(|k: Seq<char>| ids.contains(k), |k: Seq<char>| 1nat),
        ),
{
    assert(count_sum(a, b) =~= count_sum(b, a));
    assert(count_sum(count_sum(a, b), c) =~= count_sum(a, count_sum(b, c)));
    assert(count_plus(a, ids) =~= count_sum(
        a,
        Map::new(|k: Seq<char>| ids.contains(k), |k: Seq<char>| 1nat),
    ));
}

} // verus!
