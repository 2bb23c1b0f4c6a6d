//! R048: Heterogeneous supplier. The variety of items supplied by a tenderer is a high outlier.
//!
//! The varieties accumulate here; the outliers are found where results are finalized.
use crate::error::CountOverflow;
use crate::indicators::release::{is_active, single_supplier, award_is_active, get_single_supplier};
use crate::indicators::{
    add_members, add_members_to, Group, Indicator, Indicators, IndicatorsView, Settings, Supplies,
};
use crate::table::Table;
use crate::json::Json;
use crate::sets::{SetTable, StrSet};
use crate::text::first_chars;
use crate::indicators::results::Results;
use vstd::prelude::*;

verus! {

/// R048: accumulates, for each supplier, the number of contracting processes in which it supplied
/// classified items, and the kinds of those items.
pub struct R048 {
    digits: usize,
    threshold: Option<usize>,
    minimum_contracting_processes: usize,
}

/// The kind of a classified item: the first `digits` characters of its classification's
/// identifier.
pub open spec fn item_code(item: Json, digits: nat) -> Option<Seq<char>> {
    match item.field("classification"@) {
        Some(c) => if c is Object {
            match c.string_field("id"@) {
                Some(id) => Some(id.take(if digits < id.len() { digits as int } else { id.len() as int })),
                None => None,
            }
        } else {
            None
        },
        None => None,
    }
}

/// The kinds of the classified items among some items.
pub open spec fn item_codes(items: Seq<Json>, digits: nat) -> Set<Seq<char>>
    decreases items.len(),
{
    if items.len() == 0 {
        Set::empty()
    } else {
        match item_code(items.last(), digits) {
            Some(code) => item_codes(items.drop_last(), digits).insert(code),
            None => item_codes(items.drop_last(), digits),
        }
    }
}

/// The single supplier and the items of a complete award, if it has both.
pub open spec fn award_supply(award: Json) -> Option<(Seq<char>, Seq<Json>)> {
    match (award.string_field("status"@), award.array_field("items"@), single_supplier(award)) {
        (Some(status), Some(items), Some(supplier)) => if status == "active"@ {
            Some((supplier, items))
        } else {
            None
        },
        _ => None,
    }
}

/// The kinds of items that each supplier supplied in some awards, for the suppliers with at least
/// one classified item.
pub open spec fn supplied_codes(awards: Seq<Json>, digits: nat) -> Map<Seq<char>, Set<Seq<char>>>
    decreases awards.len(),
{
    if awards.len() == 0 {
        Map::empty()
    } else {
        let prev = supplied_codes(awards.drop_last(), digits);
        match award_supply(awards.last()) {
            Some((supplier, items)) => add_members(prev, supplier, item_codes(items, digits)),
            None => prev,
        }
    }
}

/// The kinds of items that each supplier supplied in a release.
pub open spec fn release_supplies(release: Json, digits: nat) -> Map<Seq<char>, Set<Seq<char>>> {
    match release.array_field("awards"@) {
        Some(awards) => supplied_codes(awards, digits),
        None => Map::empty(),
    }
}

/// The supplies after one more contracting process: each supplier in it counts one more process
/// and adds the kinds of the items it supplied.
pub open spec fn supplies_next(
    m: Map<Seq<char>, (nat, Set<Seq<char>>)>,
    supplied: Map<Seq<char>, Set<Seq<char>>>,
) -> Map<Seq<char>, (nat, Set<Seq<char>>)> {
    Map::new(
        |k: Seq<char>| m.contains_key(k) || supplied.contains_key(k),
        |k: Seq<char>|
            if !supplied.contains_key(k) {
                m[k]
            } else if m.contains_key(k) {
                (m[k].0 + 1, m[k].1.union(supplied[k]))
            } else {
                (1nat, supplied[k])
            },
    )
}

/// Whether every count of the supplies fits in `usize`.
pub open spec fn supplies_bounded(m: Map<Seq<char>, (nat, Set<Seq<char>>)>) -> bool {
    forall|k: Seq<char>| #[trigger] m.contains_key(k) ==> m[k].0 <= usize::MAX
}

impl R048 {
    /// The state after looking at a contracting process: each supplier in it counts one more
    /// process and adds the kinds of the items it supplied.
    pub open spec fn next(&self, v: IndicatorsView, release: Json) -> IndicatorsView {
        IndicatorsView {
            r048_classifications: supplies_next(
                v.r048_classifications,
                release_supplies(release, self.digits()),
            ),
            ..v
        }
    }

    /// Whether the counts after looking at a contracting process fit in `usize`.
    pub open spec fn fits(&self, v: IndicatorsView, release: Json) -> bool {
        supplies_bounded(
            supplies_next(v.r048_classifications, release_supplies(release, self.digits())),
        )
    }

    /// The number of leading characters of a classification that identify its kind.
    pub closed spec fn digits(&self) -> nat {
        self.digits as nat
    }

    /// The minimum number of kinds of items of a flagged supplier, if set.
    pub closed spec fn threshold(&self) -> Option<usize> {
        self.threshold
    }

    /// The minimum number of contracting processes of a supplier that is considered.
    pub closed spec fn minimum(&self) -> nat {
        self.minimum_contracting_processes as nat
    }

    /// Reads the number of digits, 2 by default; the thresholds are read where results are
    /// finalized.
    pub fn new(settings: &mut Settings) -> (r: Self)
        ensures
            r.digits() == match old(settings).R048 {
                Some(section) => match section.digits {
                    Some(d) => d as nat,
                    None => 2,
                },
                None => 2,
            },
            r.threshold() == match old(settings).R048 {
                Some(section) => section.threshold,
                None => None,
            },
            r.minimum() == match old(settings).R048 {
                Some(section) => match section.minimum_contracting_processes {
                    Some(m) => m as nat,
                    None => 20,
                },
                None => 20,
            },
            *final(settings) == (Settings { R048: None, ..*old(settings) }),
    {
        match settings.R048.take() {
            Some(section) => R048 {
                digits: match section.digits {
                    Some(d) => d,
                    None => 2,
                },
                threshold: section.threshold,
                minimum_contracting_processes: match section.minimum_contracting_processes {
                    Some(m) => m,
                    None => 20,
                },
            },
            None => R048 { digits: 2, threshold: None, minimum_contracting_processes: 20 },
        }
    }

    /// The kind of a classified item.
    fn get_item_code(&self, item: &Json) -> (r: Option<String>)
        ensures
            match r {
                Some(code) => item_code(*item, self.digits()) == Some(code@),
                None => item_code(*item, self.digits()) is None,
            },
    {
        match item.get_object("classification") {
            Some(c) => match c.get_string("id") {
                Some(id) => Some(first_chars(id.as_str(), self.digits)),
                None => None,
            },
            None => None,
        }
    }

    /// Counts one contracting process for each supplier that supplied classified items in a
    /// release, and adds the kinds of those items. It fails, leaving the state unspecified,
    /// exactly when a count would exceed `usize::MAX`.
    pub fn fold(&self, item: &mut Indicators, release: &Json, ocid: &str) -> (r: Result<(), CountOverflow>)
        requires
            old(item).wf(),
        ensures
            final(item).wf(),
            final(item).results.extends(old(item).results),
            r is Ok <==> self.fits(old(item)@, *release),
            r is Ok ==> final(item)@ == self.next(old(item)@, *release),
    {
        let mut supplied = SetTable::new();
        if let Some(awards) = release.get_array("awards") {
            let mut i: usize = 0;
            assert(awards@.take(0) =~= Seq::<Json>::empty());
            while i < awards.len()
                invariant
                    item.results == old(item).results,
                    i <= awards@.len(),
                    supplied.wf(),
                    supplied@ == supplied_codes(awards@.take(i as int), self.digits()),
                decreases awards.len() - i,
            {
                let award = &awards[i];
                assert(awards@.take(i + 1).drop_last() =~= awards@.take(i as int));
                assert(awards@.take(i + 1).last() == *award);
                if let (Some(items), Some(supplier)) = (award.get_array("items"), get_single_supplier(award)) {
                    if award_is_active(award) {
                        let mut codes = StrSet::new();
                        let mut k: usize = 0;
                        assert(items@.take(0) =~= Seq::<Json>::empty());
                        while k < items.len()
                            invariant
                                item.results == old(item).results,
                                k <= items@.len(),
                                codes.wf(),
                                codes@ == item_codes(items@.take(k as int), self.digits()),
                            decreases items.len() - k,
                        {
                            assert(items@.take(k + 1).drop_last() =~= items@.take(k as int));
                            assert(items@.take(k + 1).last() == items@[k as int]);
                            if let Some(code) = self.get_item_code(&items[k]) {
                                codes.insert(code);
                            }
                            k += 1;
                        }
                        assert(items@.take(items@.len() as int) =~= items@);
                        add_members_to(&mut supplied, supplier.as_str(), &codes);
                    }
                }
                i += 1;
            }
            assert(awards@.take(awards@.len() as int) =~= awards@);
        } else {
            assert(supplied@ =~= Map::<Seq<char>, Set<Seq<char>>>::empty());
        }
        let ghost s = release_supplies(*release, self.digits());
        assert(supplied@ == s);
        let n = supplied.len();
        proof {
            supplied.lemma_keys();
        }
        let ghost start = old(item)@.r048_classifications;
        let mut j: usize = 0;
        while j < n
            invariant
                item.results == old(item).results,
                n == supplied.keys().len(),
                j <= n,
                supplied.wf(),
                supplied@ == s,
                s == release_supplies(*release, self.digits()),
                start == old(item)@.r048_classifications,
                supplied.keys().no_duplicates(),
                forall|x: Seq<char>| #[trigger] s.contains_key(x) <==> supplied.keys().contains(x),
                item.wf(),
                item@ == (IndicatorsView { r048_classifications: item@.r048_classifications, ..old(item)@ }),
                item@.r048_classifications == supplies_next(
                    start,
                    s.restrict(supplied.keys().take(j as int).to_set()),
                ),
            decreases n - j,
        {
            let supplier = supplied.key_at(j);
            let codes = supplied.set_at(j);
            let ghost kj = supplied.keys()[j as int];
            assert(!supplied.keys().take(j as int).contains(kj)) by {
                if supplied.keys().take(j as int).contains(kj) {
                    let x = choose|x: int| 0 <= x < j && supplied.keys().take(j as int)[x] == kj;
                    assert(supplied.keys()[x] == supplied.keys()[j as int]);
                }
            }
            let ghost before = item@.r048_classifications;
            let ghost table_before = item.r048_classifications@;
            assert(before.contains_key(kj) == start.contains_key(kj));
            assert(start.contains_key(kj) ==> before[kj] == start[kj]);
            let pos = match item.r048_classifications.position(supplier.as_str()) {
                Some(pos) => {
                    assert(item@.r048_classifications == before);
                    pos
                },
                None => {
                    let len = item.r048_classifications.len();
                    let fresh = StrSet::new();
                    let ghost empty_codes = fresh@;
                    item.r048_classifications.insert(supplier.clone(), Supplies { count: 0, codes: fresh });
                    assert(item@.r048_classifications =~= before.insert(kj, (0nat, empty_codes)));
                    len
                },
            };
            proof {
                item.r048_classifications.lemma_keys();
            }
            let ghost mid = item@.r048_classifications;
            let mut current = item.r048_classifications.replace_at(pos, Supplies { count: 0, codes: StrSet::new() });
            assert(supplier@ == kj);
            assert(mid.contains_key(kj));
            assert(mid[kj] == (current.count as nat, current.codes@));
            assert(!s.restrict(supplied.keys().take(j as int).to_set()).contains_key(kj));
            assert(s.contains_key(kj));
            assert(mid[kj] == if start.contains_key(kj) {
                start[kj]
            } else {
                (0nat, Set::<Seq<char>>::empty())
            });
            if current.count == usize::MAX {
                assert(start.contains_key(kj) && start[kj].0 == usize::MAX);
                assert(supplies_next(start, s).contains_key(kj));
                assert(supplies_next(start, s)[kj].0 > usize::MAX);
                assert(!supplies_bounded(supplies_next(start, s)));
                return Err(CountOverflow);
            }
            current.count = current.count + 1;
            current.codes.extend(codes);
            let ghost updated = (current.count as nat, current.codes@);
            assert(updated == supplies_next(start, s)[kj]) by {
                if !start.contains_key(kj) {
                    assert(current.codes@ =~= s[kj]);
                }
            }
            item.r048_classifications.replace_at(pos, current);
            assert(item@.r048_classifications == mid.insert(kj, updated));
            assert(supplied.keys().take(j + 1) =~= supplied.keys().take(j as int).push(kj));
            proof {
                supplied.keys().take(j as int).lemma_push_to_set_commute(kj);
            }
            assert(item@.r048_classifications =~= supplies_next(
                start,
                s.restrict(supplied.keys().take(j + 1).to_set()),
            ));
            j += 1;
        }
        assert(supplied.keys().take(n as int) =~= supplied.keys());
        assert(s.restrict(supplied.keys().to_set()) =~= s);
        Ok(())
    }
}

/// The supplies of two states taken together: the counts of a supplier add up, and the kinds of
/// items it supplied unite.
pub open spec fn supplies_sum(
    a: Map<Seq<char>, (nat, Set<Seq<char>>)>,
    b: Map<Seq<char>, (nat, Set<Seq<char>>)>,
) -> Map<Seq<char>, (nat, Set<Seq<char>>)> {
    Map::new(
        |k: Seq<char>| a.contains_key(k) || b.contains_key(k),
        |k: Seq<char>|
            if !b.contains_key(k) {
                a[k]
            } else if a.contains_key(k) {
                (a[k].0 + b[k].0, a[k].1.union(b[k].1))
            } else {
                b[k]
            },
    )
}

/// The entries of a map whose keys are among `keys`.
pub open spec fn restricted<V>(m: Map<Seq<char>, V>, keys: Seq<Seq<char>>) -> Map<Seq<char>, V> {
    Map::new(|k: Seq<char>| m.contains_key(k) && keys.contains(k), |k: Seq<char>| m[k])
}

impl R048 {
    /// Adds the supplies of another state; fails, leaving the supplies unspecified, exactly when
    /// a count would exceed `usize::MAX`.
    pub fn reduce(&self, item: &mut Indicators, other: &mut Indicators) -> (r: Result<(), CountOverflow>)
        requires
            old(item).wf(),
            old(other).wf(),
        ensures
            final(item).wf(),
            final(item).results.extends(old(item).results),
            *final(other) == *old(other),
            r is Ok <==> supplies_bounded(
                supplies_sum(old(item)@.r048_classifications, old(other)@.r048_classifications),
            ),
            r is Ok ==> final(item)@ == (IndicatorsView {
                r048_classifications: supplies_sum(
                    old(item)@.r048_classifications,
                    old(other)@.r048_classifications,
                ),
                ..old(item)@
            }),
    {
        let t = &other.r048_classifications;
        let n = t.len();
        let ghost a = old(item)@.r048_classifications;
        let ghost b = old(other)@.r048_classifications;
        let ghost keys = t.keys();
        proof {
            t.lemma_keys();
            assert(supplies_sum(a, restricted(b, keys.take(0))) =~= a);
        }
        let mut pos: usize = 0;
        while pos < n
            invariant
                item.results == old(item).results,
                n == keys.len(),
                pos <= n,
                t.wf(),
                keys == t.keys(),
                keys.no_duplicates(),
                forall|k: Seq<char>| #[trigger] t@.contains_key(k) <==> keys.contains(k),
                forall|k: Seq<char>| #[trigger] t@.contains_key(k) ==> t@[k].codes.wf(),
                forall|k: Seq<char>|
                    #[trigger] b.contains_key(k) == t@.contains_key(k),
                forall|k: Seq<char>|
                    #[trigger] b.contains_key(k) ==> b[k] == (t@[k].count as nat, t@[k].codes@),
                item.wf(),
                supplies_bounded(item@.r048_classifications),
                a == old(item)@.r048_classifications,
                b == old(other)@.r048_classifications,
                item@ == (IndicatorsView {
                    r048_classifications: supplies_sum(a, restricted(b, keys.take(pos as int))),
                    ..old(item)@
                }),
            decreases n - pos,
        {
            let key = t.key_at(pos);
            proof {
                t.lemma_keys();
            }
            let supplied = t.value_at(pos);
            let ghost k = key@;
            let ghost before = item@.r048_classifications;
            let ghost table_before = item.r048_classifications@;
            let ghost next = supplies_sum(a, restricted(b, keys.take(pos + 1)));
            assert(keys.take(pos + 1) =~= keys.take(pos as int).push(k));
            assert(!keys.take(pos as int).contains(k)) by {
                if keys.take(pos as int).contains(k) {
                    let j = choose|j: int| 0 <= j < pos && #[trigger] keys.take(pos as int)[j] == k;
                    assert(keys[j] == keys[pos as int]);
                }
            }
            assert forall|x: Seq<char>| #[trigger] keys.take(pos + 1).contains(x) == (keys.take(
                pos as int,
            ).contains(x) || x == k) by {
                if keys.take(pos + 1).contains(x) && x != k {
                    let j = choose|j: int| 0 <= j < pos + 1 && #[trigger] keys.take(pos + 1)[j] == x;
                    assert(keys.take(pos as int)[j] == x);
                }
                if x == k {
                    assert(keys.take(pos + 1)[pos as int] == x);
                }
            }
            match item.r048_classifications.position(key.as_str()) {
                Some(i) => {
                    assert(item.r048_classifications@.contains_key(k));
                    assert(before.contains_key(k));
                    assert(!restricted(b, keys.take(pos as int)).contains_key(k));
                    assert(a.contains_key(k));
                    assert(before[k] == a[k]);
                    let mut existing = item.r048_classifications.replace_at(
                        i,
                        Supplies { count: 0, codes: StrSet::new() },
                    );
                    assert(existing.count == a[k].0 && existing.codes@ == a[k].1);
                    assert(b.contains_key(k) && supplied.count == b[k].0);
                    match existing.count.checked_add(supplied.count) {
                        Some(c) => {
                            existing.count = c;
                        },
                        None => {
                            assert(supplies_sum(a, b).contains_key(k) && supplies_sum(a, b)[k].0
                                > usize::MAX);
                            assert(!supplies_bounded(supplies_sum(a, b)));
                            return Err(CountOverflow);
                        },
                    }
                    existing.codes.extend(&supplied.codes);
                    item.r048_classifications.replace_at(i, existing);
                    assert(item.r048_classifications@ == table_before.insert(k, existing));
                },
                None => {
                    assert(!item.r048_classifications@.contains_key(k));
                    assert(!before.contains_key(k));
                    assert(!a.contains_key(k));
                    let mut codes = StrSet::new();
                    codes.extend(&supplied.codes);
                    item.r048_classifications.insert(
                        key.clone(),
                        Supplies { count: supplied.count, codes },
                    );
                    assert(item.r048_classifications@ == table_before.insert(
                        k,
                        Supplies { count: supplied.count, codes },
                    ));
                },
            }
            assert(item@.r048_classifications.contains_key(k));
            assert(item@.r048_classifications[k] == next[k]);
            assert forall|x: Seq<char>| x != k implies #[trigger] next.contains_key(x) == before.contains_key(x)
                && (before.contains_key(x) ==> next[x] == before[x]) by {
                assert(keys.take(pos + 1).contains(x) == keys.take(pos as int).contains(x));
            }
            assert forall|x: Seq<char>| x != k implies #[trigger] item@.r048_classifications.contains_key(x)
                == before.contains_key(x) && (before.contains_key(x) ==> item@.r048_classifications[x]
                == before[x]) by {}
            assert(item@.r048_classifications =~= next);
            pos += 1;
        }
        assert(keys.take(n as int) =~= keys);
        assert(restricted(b, keys) =~= b);
        Ok(())
    }
}

/// The number of kinds of items of each supplier in at least `minimum` contracting processes.
pub open spec fn varieties(m: Map<Seq<char>, (nat, Set<Seq<char>>)>, minimum: nat) -> Map<
    Seq<char>,
    nat,
> {
    Map::new(|k: Seq<char>| m.contains_key(k) && m[k].0 >= minimum, |k: Seq<char>| m[k].1.len())
}

/// R048's outputs: the variety of each supplier whose variety is at least the upper fence.
pub open spec fn r048_outputs(varieties: Map<Seq<char>, nat>, fence: nat) -> Map<
    (Group, Seq<char>, Indicator),
    u64,
> {
    Map::new(
        |k: (Group, Seq<char>, Indicator)|
            k.0 == Group::Tenderer && k.2 == Indicator::R048 && varieties.contains_key(k.1)
                && varieties[k.1] >= fence,
        |k: (Group, Seq<char>, Indicator)| varieties[k.1] as u64,
    )
}

impl R048 {
    /// The number of kinds of items of each supplier in at least the minimum number of
    /// contracting processes, by supplier.
    pub fn varieties(&self, item: &Indicators) -> (r: Table<usize>)
        requires
            item.wf(),
        ensures
            r.wf(),
            forall|k: Seq<char>|
                #[trigger] r@.contains_key(k) <==> varieties(
                    item@.r048_classifications,
                    self.minimum(),
                ).contains_key(k),
            forall|k: Seq<char>|
                #[trigger] r@.contains_key(k) ==> r@[k] == varieties(
                    item@.r048_classifications,
                    self.minimum(),
                )[k],
    {
        let t = &item.r048_classifications;
        let n = t.len();
        let ghost m = item@.r048_classifications;
        let ghost keys = t.keys();
        proof {
            t.lemma_keys();
        }
        let mut r: Table<usize> = Table::new();
        let mut pos: usize = 0;
        while pos < n
            invariant
                n == keys.len(),
                pos <= n,
                t.wf(),
                keys == t.keys(),
                item.wf(),
                m == item@.r048_classifications,
                *t == item.r048_classifications,
                r.wf(),
                forall|k: Seq<char>|
                    #[trigger] r@.contains_key(k) <==> (varieties(m, self.minimum()).contains_key(k)
                        && keys.take(pos as int).contains(k)),
                forall|k: Seq<char>|
                    #[trigger] r@.contains_key(k) ==> r@[k] == varieties(m, self.minimum())[k],
            decreases n - pos,
        {
            proof {
                t.lemma_keys();
            }
            let key = t.key_at(pos);
            let supplies = t.value_at(pos);
            let ghost k = key@;
            assert(keys.take(pos + 1) =~= keys.take(pos as int).push(k));
            assert(t@.contains_key(t.keys()[pos as int]));
            assert(item.r048_classifications@.contains_key(k));
            assert(m.contains_key(k));
            if supplies.count >= self.minimum_contracting_processes {
                let variety = supplies.codes.len();
                r.insert(key.clone(), variety);
            }
            assert forall|x: Seq<char>| #[trigger] keys.take(pos + 1).contains(x) == (keys.take(
                pos as int,
            ).contains(x) || x == k) by {
                if keys.take(pos + 1).contains(x) && x != k {
                    let j = choose|j: int| 0 <= j < pos + 1 && #[trigger] keys.take(pos + 1)[j] == x;
                    assert(keys.take(pos as int)[j] == x);
                }
                if x == k {
                    assert(keys.take(pos + 1)[pos as int] == x);
                }
            }
            pos += 1;
        }
        proof {
            t.lemma_keys();
            assert(keys.take(n as int) =~= keys);
        }
        r
    }

    /// Flags each supplier in at least the minimum number of contracting processes whose number
    /// of kinds of items is at least the threshold, or, without a threshold, at least
    /// `computed_fence` (none: no supplier is flagged); the output is that number. The supplies
    /// are consumed.
    pub fn finalize(&self, item: &mut Indicators, computed_fence: Option<usize>)
        requires
            old(item).wf(),
        ensures
            final(item).wf(),
            final(item).results.extends(old(item).results),
            final(item)@ == (IndicatorsView {
                results: match (match self.threshold() {
                    Some(t) => Some(t),
                    None => computed_fence,
                }) {
                    Some(fence) => old(item)@.results.union_prefer_right(
                        r048_outputs(
                            varieties(old(item)@.r048_classifications, self.minimum()),
                            fence as nat,
                        ),
                    ),
                    None => old(item)@.results,
                },
                r048_classifications: Map::empty(),
                ..old(item)@
            }),
    {
        let lengths = self.varieties(item);
        let ghost v = varieties(old(item)@.r048_classifications, self.minimum());
        let mut emptied: Table<Supplies> = Table::new();
        std::mem::swap(&mut emptied, &mut item.r048_classifications);
        assert(item@.r048_classifications =~= Map::empty());
        let fence = match self.threshold {
            Some(t) => t,
            None => match computed_fence {
                Some(f) => f,
                None => {
                    return;
                },
            },
        };
        let n = lengths.len();
        let ghost keys = lengths.keys();
        proof {
            lengths.lemma_keys();
        }
        let ghost start = item@;
        assert(item@.results =~= start.results.union_prefer_right(
            Map::new(
                |k: (Group, Seq<char>, Indicator)|
                    r048_outputs(v, fence as nat).contains_key(k) && keys.take(0).contains(k.1),
                |k: (Group, Seq<char>, Indicator)| v[k.1] as u64,
            ),
        ));
        let mut pos: usize = 0;
        while pos < n
            invariant
                item.results.extends(old(item).results),
                n == keys.len(),
                pos <= n,
                lengths.wf(),
                keys == lengths.keys(),
                item.wf(),
                forall|k: Seq<char>| #[trigger] lengths@.contains_key(k) <==> v.contains_key(k),
                forall|k: Seq<char>| #[trigger] lengths@.contains_key(k) ==> lengths@[k] == v[k],
                item@ == (IndicatorsView {
                    results: start.results.union_prefer_right(
                        Map::new(
                            |k: (Group, Seq<char>, Indicator)|
                                r048_outputs(v, fence as nat).contains_key(k) && keys.take(
                                    pos as int,
                                ).contains(k.1),
                            |k: (Group, Seq<char>, Indicator)| v[k.1] as u64,
                        ),
                    ),
                    ..start
                }),
            decreases n - pos,
        {
            proof {
                lengths.lemma_keys();
            }
            let key = lengths.key_at(pos);
            let variety = *lengths.value_at(pos);
            let ghost k = key@;
            assert(keys.take(pos + 1) =~= keys.take(pos as int).push(k));
            assert forall|x: Seq<char>| #[trigger] keys.take(pos + 1).contains(x) == (keys.take(
                pos as int,
            ).contains(x) || x == k) by {
                if keys.take(pos + 1).contains(x) && x != k {
                    let j = choose|j: int| 0 <= j < pos + 1 && #[trigger] keys.take(pos + 1)[j] == x;
                    assert(keys.take(pos as int)[j] == x);
                }
                if x == k {
                    assert(keys.take(pos + 1)[pos as int] == x);
                }
            }
            if variety >= fence {
                let ghost prior = item.results;
                item.results.set(Group::Tenderer, key.clone(), Indicator::R048, variety as u64);
                proof {
                    Results::lemma_extends_trans(old(item).results, prior, item.results);
                }
            }
            assert(item@.results =~= start.results.union_prefer_right(
                Map::new(
                    |x: (Group, Seq<char>, Indicator)|
                        r048_outputs(v, fence as nat).contains_key(x) && keys.take(pos + 1).contains(
                            x.1,
                        ),
                    |x: (Group, Seq<char>, Indicator)| v[x.1] as u64,
                ),
            )) by {
                assert forall|x: (Group, Seq<char>, Indicator)|
                    r048_outputs(v, fence as nat).contains_key(x) && x.1 == k implies x == (
                    Group::Tenderer,
                    k,
                    Indicator::R048,
                ) by {}
            }
            pos += 1;
        }
        proof {
            lengths.lemma_keys();
            assert(keys.take(n as int) =~= keys);
            assert forall|x: (Group, Seq<char>, Indicator)|
                #[trigger] r048_outputs(v, fence as nat).contains_key(x) implies keys.contains(x.1) by {
                assert(lengths@.contains_key(x.1));
            }
        }
        assert(item@.results =~= start.results.union_prefer_right(r048_outputs(v, fence as nat)));
    }
}

/// Adding supplies does not depend on the order in which states are reduced: it is commutative
/// and associative, and a state with no supplies changes nothing.
pub proof fn lemma_supplies_sum_order(
    a: Map<Seq<char>, (nat, Set<Seq<char>>)>,
    b: Map<Seq<char>, (nat, Set<Seq<char>>)>,
    c: Map<Seq<char>, (nat, Set<Seq<char>>)>,
)
    ensures
        supplies_sum(a, b) =~~= supplies_sum(b, a),
        supplies_sum(supplies_sum(a, b), c) =~~= supplies_sum(a, supplies_sum(b, c)),
        supplies_sum(a, Map::empty()) =~= a,
{
    assert forall|k: Seq<char>| #[trigger] supplies_sum(a, b).contains_key(k) implies supplies_sum(
        a,
        b,
    )[k] == supplies_sum(b, a)[k] by {
        if a.contains_key(k) && b.contains_key(k) {
            assert(a[k].1.union(b[k].1) =~= b[k].1.union(a[k].1));
        }
    }
    assert forall|k: Seq<char>| #[trigger] supplies_sum(supplies_sum(a, b), c).contains_key(
        k,
    ) implies supplies_sum(supplies_sum(a, b), c)[k] == supplies_sum(a, supplies_sum(b, c))[k] by {
        if a.contains_key(k) && b.contains_key(k) && c.contains_key(k) {
            assert(a[k].1.union(b[k].1).union(c[k].1) =~= a[k].1.union(b[k].1.union(c[k].1)));
        }
    }
}

/// What one contracting process adds to the supplies: one process, with its kinds of items, for
/// each supplier in it.
pub open spec fn supplies_once(supplied: Map<Seq<char>, Set<Seq<char>>>) -> Map<
    Seq<char>,
    (nat, Set<Seq<char>>),
> {
    Map::new(|k: Seq<char>| supplied.contains_key(k), |k: Seq<char>| (1nat, supplied[k]))
}

/// Looking at a contracting process adds, to each of its suppliers, one process and the kinds of
/// the items it supplied.
pub proof fn lemma_supplies_next_sum(
    m: Map<Seq<char>, (nat, Set<Seq<char>>)>,
    supplied: Map<Seq<char>, Set<Seq<char>>>,
)
    ensures
        supplies_next(m, supplied) == supplies_sum(m, supplies_once(supplied)),
{
    assert(supplies_next(m, supplied) =~= supplies_sum(m, supplies_once(supplied)));
}

/// R048 does not depend on the order of the contracting processes, nor on how they are split
/// among states: looking at two contracting processes in either order gives the same supplies,
/// and looking at a contracting process before or after adding another state's supplies does too.
pub proof fn lemma_r048_order(
    calculator: R048,
    v: IndicatorsView,
    w: Map<Seq<char>, (nat, Set<Seq<char>>)>,
    first: Json,
    second: Json,
)
    ensures
        calculator.next(calculator.next(v, first), second).r048_classifications == calculator.next(
            calculator.next(v, second),
            first,
        ).r048_classifications,
        supplies_sum(calculator.next(v, first).r048_classifications, w) == calculator.next(
            IndicatorsView { r048_classifications: supplies_sum(v.r048_classifications, w), ..v },
            first,
        ).r048_classifications,
{
    let m = v.r048_classifications;
    let x = supplies_once(release_supplies(first, calculator.digits()));
    let y = supplies_once(release_supplies(second, calculator.digits()));
    lemma_supplies_next_sum(m, release_supplies(first, calculator.digits()));
    lemma_supplies_next_sum(m, release_supplies(second, calculator.digits()));
    lemma_supplies_next_sum(supplies_sum(m, x), release_supplies(second, calculator.digits()));
    lemma_supplies_next_sum(supplies_sum(m, y), release_supplies(first, calculator.digits()));
    lemma_supplies_next_sum(supplies_sum(m, w), release_supplies(first, calculator.digits()));
    lemma_supplies_sum_order(m, x, y);
    lemma_supplies_sum_order(m, y, x);
    lemma_supplies_sum_order(x, y, Map::empty());
    lemma_supplies_sum_order(m, x, w);
    lemma_supplies_sum_order(m, w, x);
    lemma_supplies_sum_order(x, w, Map::empty());
}

} // verus!
