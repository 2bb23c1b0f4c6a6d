//! Fractions that accumulate by their mediant: numerators and denominators add up separately.
use crate::error::CountOverflow;
use crate::table::Table;
use vstd::prelude::*;

verus! {

/// A fraction, kept as its numerator and denominator.
#[derive(Clone, Copy, Debug, PartialEq, Eq, Structural)]
pub struct Fraction {
    pub numerator: usize,
    pub denominator: usize,
}

/// A fraction, in the mathematical integers.
pub type Counts = (nat, nat);

/// The fraction of a key, or zero over zero.
pub open spec fn counts_of(m: Map<Seq<char>, Counts>, k: Seq<char>) -> Counts {
    if m.contains_key(k) {
        m[k]
    } else {
        (0, 0)
    }
}

/// Adds `n / d` to the fraction of `k`, by mediant.
pub open spec fn plus(m: Map<Seq<char>, Counts>, k: Seq<char>, n: nat, d: nat) -> Map<
    Seq<char>,
    Counts,
> {
    m.insert(k, (counts_of(m, k).0 + n, counts_of(m, k).1 + d))
}

/// Adds each fraction of a list, in order.
pub open spec fn plus_all(m: Map<Seq<char>, Counts>, incs: Seq<(Seq<char>, nat, nat)>) -> Map<
    Seq<char>,
    Counts,
>
    decreases incs.len(),
{
    if incs.len() == 0 {
        m
    } else {
        plus(plus_all(m, incs.drop_last()), incs.last().0, incs.last().1, incs.last().2)
    }
}

/// Whether every numerator and denominator fits in `usize`.
pub open spec fn bounded(m: Map<Seq<char>, Counts>) -> bool {
    forall|k: Seq<char>|
        #[trigger] m.contains_key(k) ==> m[k].0 <= usize::MAX && m[k].1 <= usize::MAX
}

/// Each fraction of a prefix of a list counts no more than the whole list.
pub proof fn lemma_plus_all_prefix(m: Map<Seq<char>, Counts>, incs: Seq<(Seq<char>, nat, nat)>, j: int)
    requires
        0 <= j <= incs.len(),
    ensures
        forall|k: Seq<char>|
            #![trigger counts_of(plus_all(m, incs.take(j)), k)]
            counts_of(plus_all(m, incs.take(j)), k).0 <= counts_of(plus_all(m, incs), k).0
                && counts_of(plus_all(m, incs.take(j)), k).1 <= counts_of(plus_all(m, incs), k).1,
        forall|k: Seq<char>|
            #[trigger] plus_all(m, incs.take(j)).contains_key(k) ==> plus_all(m, incs).contains_key(k),
    decreases incs.len(),
{
    if j == incs.len() {
        assert(incs.take(j) =~= incs);
    } else {
        lemma_plus_all_prefix(m, incs.drop_last(), j);
        assert(incs.drop_last().take(j) =~= incs.take(j));
    }
}

/// A table from identifiers to fractions.
pub struct FractionTable {
    fractions: Table<Fraction>,
}

impl FractionTable {
    pub closed spec fn wf(&self) -> bool {
        self.fractions.wf()
    }

    /// The identifiers, in the order in which they first got a fraction.
    pub closed spec fn keys(&self) -> Seq<Seq<char>> {
        self.fractions.keys()
    }

    pub closed spec fn view(&self) -> Map<Seq<char>, Counts> {
        Map::new(
            |k: Seq<char>| self.fractions@.contains_key(k),
            |k: Seq<char>|
                (self.fractions@[k].numerator as nat, self.fractions@[k].denominator as nat),
        )
    }

    /// The keys are distinct and are exactly the keys of the map.
    pub proof fn lemma_keys(&self)
        requires
            self.wf(),
        ensures
            self.keys().no_duplicates(),
            forall|k: Seq<char>| #[trigger] self@.contains_key(k) <==> self.keys().contains(k),
            bounded(self@),
    {
        self.fractions.lemma_keys();
    }

    /// The empty table.
    pub fn new() -> (t: Self)
        ensures
            t.wf(),
            t@ == Map::<Seq<char>, Counts>::empty(),
    {
        let t = FractionTable { fractions: Table::new() };
        assert(t@ =~= Map::<Seq<char>, Counts>::empty());
        t
    }

    /// The number of identifiers.
    pub fn len(&self) -> (n: usize)
        requires
            self.wf(),
        ensures
            n == self.keys().len(),
    {
        self.fractions.len()
    }

    /// The identifier at a position, and its fraction.
    pub fn entry_at(&self, i: usize) -> (r: (&String, Fraction))
        requires
            self.wf(),
            i < self.keys().len(),
        ensures
            r.0@ == self.keys()[i as int],
            self@.contains_key(r.0@),
            self@[r.0@] == (r.1.numerator as nat, r.1.denominator as nat),
    {
        (self.fractions.key_at(i), *self.fractions.value_at(i))
    }

    /// The fraction of an identifier, if any.
    pub fn get(&self, k: &str) -> (r: Option<Fraction>)
        requires
            self.wf(),
        ensures
            match r {
                Some(f) => self@.contains_key(k@) && self@[k@] == (
                    f.numerator as nat,
                    f.denominator as nat,
                ),
                None => !self@.contains_key(k@),
            },
    {
        match self.fractions.get(k) {
            Some(f) => Some(*f),
            None => None,
        }
    }

    /// Adds `numerator / denominator` to the fraction of `key`, by mediant; fails, changing nothing,
    /// if a sum would exceed `usize::MAX`.
    pub fn add(&mut self, key: String, numerator: usize, denominator: usize) -> (r: Result<
        (),
        CountOverflow,
    >)
        requires
            old(self).wf(),
        ensures
            final(self).wf(),
            r is Ok <==> bounded(plus(old(self)@, key@, numerator as nat, denominator as nat)),
            r is Ok ==> final(self)@ == plus(old(self)@, key@, numerator as nat, denominator as nat),
            r is Err ==> final(self)@ == old(self)@,
    {
        let current = match self.fractions.get(key.as_str()) {
            Some(f) => *f,
            None => Fraction { numerator: 0, denominator: 0 },
        };
        proof {
            self.fractions.lemma_keys();
        }
        let ghost target = plus(old(self)@, key@, numerator as nat, denominator as nat);
        match (current.numerator.checked_add(numerator), current.denominator.checked_add(denominator)) {
            (Some(n), Some(d)) => {
                self.fractions.insert(key, Fraction { numerator: n, denominator: d });
                assert(self@ =~= target);
                Ok(())
            },
            _ => {
                assert(target.contains_key(key@));
                Err(CountOverflow)
            },
        }
    }

    /// Adds each fraction of a list, in order; fails, leaving the table unspecified, exactly when a
    /// sum would exceed `usize::MAX`.
    pub fn add_all(&mut self, incs: &Vec<(String, Fraction)>) -> (r: Result<(), CountOverflow>)
        requires
            old(self).wf(),
        ensures
            final(self).wf(),
            r is Ok <==> bounded(plus_all(old(self)@, increments(incs@))),
            r is Ok ==> final(self)@ == plus_all(old(self)@, increments(incs@)),
    {
        let ghost all = increments(incs@);
        let mut i: usize = 0;
        assert(all.take(0) =~= Seq::<(Seq<char>, nat, nat)>::empty());
        while i < incs.len()
            invariant
                i <= incs@.len(),
                all == increments(incs@),
                all.len() == incs@.len(),
                self.wf(),
                self@ == plus_all(old(self)@, all.take(i as int)),
            decreases incs.len() - i,
        {
            let (key, f) = (&incs[i].0, incs[i].1);
            assert(all.take(i + 1).drop_last() =~= all.take(i as int));
            assert(all[i as int] == (key@, f.numerator as nat, f.denominator as nat));
            match self.add(key.clone(), f.numerator, f.denominator) {
                Ok(()) => {},
                Err(e) => {
                    proof {
                        lemma_plus_all_prefix(old(self)@, all, i + 1);
                        let k = key@;
                        assert(plus_all(old(self)@, all.take(i + 1)).contains_key(k));
                        assert(counts_of(plus_all(old(self)@, all.take(i + 1)), k).0 <= counts_of(
                            plus_all(old(self)@, all),
                            k,
                        ).0);
                        assert(plus_all(old(self)@, all).contains_key(k));
                    }
                    return Err(e);
                },
            }
            i += 1;
        }
        assert(all.take(incs@.len() as int) =~= all);
        proof {
            self.fractions.lemma_keys();
        }
        Ok(())
    }

    /// Adds the fractions of another table, by mediant; fails, leaving the table unspecified,
    /// exactly when a sum would exceed `usize::MAX`.
    pub fn merge(&mut self, other: &FractionTable) -> (r: Result<(), CountOverflow>)
        requires
            old(self).wf(),
            other.wf(),
        ensures
            final(self).wf(),
            r is Ok <==> bounded(mediants(old(self)@, other@)),
            r is Ok ==> final(self)@ == mediants(old(self)@, other@),
    {
        let n = other.len();
        let mut incs: Vec<(String, Fraction)> = Vec::new();
        let mut i: usize = 0;
        proof {
            other.lemma_keys();
        }
        while i < n
            invariant
                n == other.keys().len(),
                i <= n,
                other.wf(),
                incs@.len() == i,
                forall|j: int|
                    0 <= j < i ==> #[trigger] increments(incs@)[j] == (
                        other.keys()[j],
                        other@[other.keys()[j]].0,
                        other@[other.keys()[j]].1,
                    ),
            decreases n - i,
        {
            let (key, f) = other.entry_at(i);
            let ghost before = incs@;
            incs.push((key.clone(), f));
            assert forall|j: int| 0 <= j < i + 1 implies #[trigger] increments(incs@)[j] == (
                other.keys()[j],
                other@[other.keys()[j]].0,
                other@[other.keys()[j]].1,
            ) by {
                if j < i {
                    assert(incs@[j] == before[j]);
                    assert(increments(before)[j] == increments(incs@)[j]);
                }
            }
            i += 1;
        }
        proof {
            lemma_mediants(old(self)@, other@, other.keys(), increments(incs@));
        }
        self.add_all(&incs)
    }
}

/// A list of fractions, in the mathematical integers.
pub open spec fn increments(incs: Seq<(String, Fraction)>) -> Seq<(Seq<char>, nat, nat)> {
    incs.map_values(
        |e: (String, Fraction)| (e.0@, e.1.numerator as nat, e.1.denominator as nat),
    )
}

/// The fractions of two maps, added by mediant.
pub open spec fn mediants(a: Map<Seq<char>, Counts>, b: Map<Seq<char>, Counts>) -> Map<
    Seq<char>,
    Counts,
> {
    Map::new(
        |k: Seq<char>| a.contains_key(k) || b.contains_key(k),
        |k: Seq<char>| (counts_of(a, k).0 + counts_of(b, k).0, counts_of(a, k).1 + counts_of(b, k).1),
    )
}

/// Adding the fractions of a map one key at a time gives the mediants.
pub proof fn lemma_mediants(
    a: Map<Seq<char>, Counts>,
    b: Map<Seq<char>, Counts>,
    keys: Seq<Seq<char>>,
    incs: Seq<(Seq<char>, nat, nat)>,
)
    requires
        keys.no_duplicates(),
        forall|k: Seq<char>| #[trigger] b.contains_key(k) <==> keys.contains(k),
        incs.len() == keys.len(),
        forall|j: int| 0 <= j < keys.len() ==> #[trigger] incs[j] == (keys[j], b[keys[j]].0, b[keys[j]].1),
    ensures
        plus_all(a, incs) == mediants(a, b),
    decreases keys.len(),
{
    if keys.len() == 0 {
        assert forall|k: Seq<char>| !b.contains_key(k) by {}
        assert(plus_all(a, incs) =~= mediants(a, b));
    } else {
        let last = keys.last();
        let b0 = b.remove(last);
        let keys0 = keys.drop_last();
        assert forall|k: Seq<char>| #[trigger] b0.contains_key(k) <==> keys0.contains(k) by {
            if keys0.contains(k) {
                let j = choose|j: int| 0 <= j < keys0.len() && keys0[j] == k;
                assert(keys[j] == k);
                assert(keys.contains(k));
                assert(k != last);
            }
            if b0.contains_key(k) {
                assert(keys.contains(k));
                let j = choose|j: int| 0 <= j < keys.len() && keys[j] == k;
                assert(j != keys.len() - 1);
                assert(keys0[j] == k);
            }
        }
        assert forall|j: int| 0 <= j < keys0.len() implies #[trigger] incs.drop_last()[j] == (
            keys0[j],
            b0[keys0[j]].0,
            b0[keys0[j]].1,
        ) by {
            assert(keys[j] != last);
        }
        lemma_mediants(a, b0, keys0, incs.drop_last());
        assert(keys.contains(last));
        assert(plus_all(a, incs) =~= mediants(a, b));
    }
}

/// Whether no fraction exceeds one: each numerator is at most its denominator.
pub open spec fn at_most_one(m: Map<Seq<char>, Counts>) -> bool {
    forall|k: Seq<char>| #[trigger] m.contains_key(k) ==> m[k].0 <= m[k].1
}

/// Adding fractions by mediant does not depend on the order in which states are reduced: it is
/// commutative and associative, and a state with no fractions changes nothing.
pub proof fn lemma_mediants_order(
    a: Map<Seq<char>, Counts>,
    b: Map<Seq<char>, Counts>,
    c: Map<Seq<char>, Counts>,
)
    ensures
        mediants(a, b) =~= mediants(b, a),
        mediants(mediants(a, b), c) =~= mediants(a, mediants(b, c)),
        mediants(a, Map::empty()) =~= a,
{
}

/// The mediant of fractions that do not exceed one does not exceed one: a ratio of some bids
/// to the bids they are among stays a ratio as states are reduced.
pub proof fn lemma_mediants_at_most_one(a: Map<Seq<char>, Counts>, b: Map<Seq<char>, Counts>)
    requires
        at_most_one(a),
        at_most_one(b),
    ensures
        at_most_one(mediants(a, b)),
{
    assert forall|k: Seq<char>| #[trigger] mediants(a, b).contains_key(k) implies mediants(a, b)[k].0
        <= mediants(a, b)[k].1 by {
        if a.contains_key(k) {
            assert(a[k].0 <= a[k].1);
        }
        if b.contains_key(k) {
            assert(b[k].0 <= b[k].1);
        }
    }
}

/// Adding fractions that do not exceed one, each to the fraction of its key, keeps every fraction
/// at most one.
pub proof fn lemma_plus_all_at_most_one(m: Map<Seq<char>, Counts>, incs: Seq<(Seq<char>, nat, nat)>)
    requires
        at_most_one(m),
        forall|i: int| 0 <= i < incs.len() ==> #[trigger] incs[i].1 <= incs[i].2,
    ensures
        at_most_one(plus_all(m, incs)),
    decreases incs.len(),
{
    if incs.len() > 0 {
        let prev = incs.drop_last();
        assert forall|i: int| 0 <= i < prev.len() implies #[trigger] prev[i].1 <= prev[i].2 by {
            assert(prev[i] == incs[i]);
        }
        lemma_plus_all_at_most_one(m, prev);
        assert(incs.last().1 <= incs.last().2);
    }
}

/// Adding one fraction to a key is taking the mediants with a map of that one fraction.
pub proof fn lemma_plus_mediants(m: Map<Seq<char>, Counts>, k: Seq<char>, n: nat, d: nat)
    ensures
        plus(m, k, n, d) == mediants(m, Map::empty().insert(k, (n, d))),
{
    assert(plus(m, k, n, d) =~= mediants(m, Map::empty().insert(k, (n, d))));
}

/// Adding a list of fractions is taking the mediants with what the list adds up to on its own.
pub proof fn lemma_plus_all_mediants(m: Map<Seq<char>, Counts>, incs: Seq<(Seq<char>, nat, nat)>)
    ensures
        plus_all(m, incs) == mediants(m, plus_all(Map::empty(), incs)),
    decreases incs.len(),
{
    if incs.len() == 0 {
        assert(mediants(m, Map::empty()) =~= m);
    } else {
        let prev = incs.drop_last();
        let x = incs.last();
        lemma_plus_all_mediants(m, prev);
        let p = plus_all(Map::<Seq<char>, Counts>::empty(), prev);
        assert(plus(mediants(m, p), x.0, x.1, x.2) =~= mediants(m, plus(p, x.0, x.1, x.2)));
    }
}

} // verus!
