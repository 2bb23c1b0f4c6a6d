//! R038: Excessive disqualified bids. The ratio of disqualified bids to submitted bids is a high
//! outlier per buyer, procuring entity or tenderer.
//!
//! The ratios accumulate here, over the contracting processes with enough submitted bids, with the
//! number of such contracting processes of each organization; the ratios of organizations with
//! enough of them are chosen here too. The outliers are found where results are finalized.
use crate::error::CountOverflow;
use crate::indicators::count::{
    count_of, count_plus, count_sum, counts_bounded, id_set, lemma_count_sum_order, CountTable,
};
use crate::indicators::fraction::{
    at_most_one, bounded, increments, lemma_mediants_order, lemma_plus_all_at_most_one,
    lemma_plus_all_mediants, lemma_plus_mediants, mediants, plus, plus_all, Counts, Fraction,
    FractionTable,
};
use crate::indicators::release::{
    buyer_id, derefs, get_buyer_id, get_procuring_entity_id, procuring_entity_id, submitted_bids,
};
use crate::indicators::{Indicators, IndicatorsView, Settings};
use crate::json::{equals, Json};
use crate::sets::StrSet;
use vstd::prelude::*;

verus! {

/// R038: accumulates, for each buyer, procuring entity and tenderer, the disqualified bids over the
/// submitted bids, and the number of contracting processes that count.
pub struct R038 {
    minimum_submitted_bids: usize,
    minimum_contracting_processes: usize,
}

/// Whether a bid's status is "disqualified".
pub open spec fn is_disqualified(bid: Json) -> bool {
    bid.string_field("status"@) == Some("disqualified"@)
}

/// The number of disqualified bids among some bids.
pub open spec fn disqualified_count(bids: Seq<Json>) -> nat
    decreases bids.len(),
{
    if bids.len() == 0 {
        0
    } else {
        disqualified_count(bids.drop_last()) + if is_disqualified(bids.last()) {
            1nat
        } else {
            0nat
        }
    }
}

/// For each tenderer with an identifier, the fraction `inc / 1`.
pub open spec fn tenderer_increments(tenderers: Seq<Json>, inc: nat) -> Seq<(Seq<char>, nat, nat)>
    decreases tenderers.len(),
{
    if tenderers.len() == 0 {
        Seq::empty()
    } else {
        let prev = tenderer_increments(tenderers.drop_last(), inc);
        match tenderers.last().string_field("id"@) {
            Some(id) => prev.push((id, inc, 1)),
            None => prev,
        }
    }
}

/// For each tenderer of each bid, in order, one over one if the bid is disqualified and zero over
/// one otherwise.
pub open spec fn bid_increments(bids: Seq<Json>) -> Seq<(Seq<char>, nat, nat)>
    decreases bids.len(),
{
    if bids.len() == 0 {
        Seq::empty()
    } else {
        let prev = bid_increments(bids.drop_last());
        match bids.last().array_field("tenderers"@) {
            Some(tenderers) => prev + tenderer_increments(
                tenderers,
                if is_disqualified(bids.last()) {
                    1nat
                } else {
                    0nat
                },
            ),
            None => prev,
        }
    }
}

/// The identifiers of the tenderers of some bids.
pub open spec fn tenderer_ids(bids: Seq<Json>) -> Set<Seq<char>> {
    bid_increments(bids).map_values(|x: (Seq<char>, nat, nat)| x.0).to_set()
}

/// The fractions of the buyer or the procuring entity, after one contracting process with
/// `disqualified` disqualified bids out of `submitted` submitted bids.
pub open spec fn plus_organization(
    m: Map<Seq<char>, (nat, nat)>,
    id: Option<Seq<char>>,
    disqualified: nat,
    submitted: nat,
) -> Map<Seq<char>, (nat, nat)> {
    match id {
        Some(id) => plus(m, id, disqualified, submitted),
        None => m,
    }
}

/// The state after R038 counts a contracting process: the ratios and the numbers of contracting
/// processes of its buyer, procuring entity and tenderers.
pub open spec fn r038_next(item: IndicatorsView, release: Json) -> IndicatorsView {
    let bids = submitted_bids(release);
    IndicatorsView {
        r038_buyer_processes: count_plus(item.r038_buyer_processes, id_set(buyer_id(release))),
        r038_procuring_entity_processes: count_plus(
            item.r038_procuring_entity_processes,
            id_set(procuring_entity_id(release)),
        ),
        r038_tenderer_processes: count_plus(item.r038_tenderer_processes, tenderer_ids(bids)),
        r038_tenderer: plus_all(item.r038_tenderer, bid_increments(bids)),
        r038_buyer: plus_organization(
            item.r038_buyer,
            buyer_id(release),
            disqualified_count(bids),
            bids.len(),
        ),
        r038_procuring_entity: plus_organization(
            item.r038_procuring_entity,
            procuring_entity_id(release),
            disqualified_count(bids),
            bids.len(),
        ),
        ..item
    }
}

proof fn lemma_disqualified_count_bound(bids: Seq<Json>)
    ensures
        disqualified_count(bids) <= bids.len(),
    decreases bids.len(),
{
    if bids.len() > 0 {
        lemma_disqualified_count_bound(bids.drop_last());
    }
}

/// The ratios of the organizations with at least `minimum` counted contracting processes.
pub open spec fn qualified_ratios(
    ratios: Map<Seq<char>, Counts>,
    processes: Map<Seq<char>, nat>,
    minimum: nat,
) -> Map<Seq<char>, Counts> {
    Map::new(
        |k: Seq<char>| ratios.contains_key(k) && count_of(processes, k) >= minimum,
        |k: Seq<char>| ratios[k],
    )
}

/// Two states' ratios added up by mediant, and their counts of contracting processes added up;
/// the rest is the first state's.
pub open spec fn r038_reduced(a: IndicatorsView, b: IndicatorsView) -> IndicatorsView {
    IndicatorsView {
        r038_buyer: mediants(a.r038_buyer, b.r038_buyer),
        r038_procuring_entity: mediants(a.r038_procuring_entity, b.r038_procuring_entity),
        r038_tenderer: mediants(a.r038_tenderer, b.r038_tenderer),
        r038_buyer_processes: count_sum(a.r038_buyer_processes, b.r038_buyer_processes),
        r038_procuring_entity_processes: count_sum(
            a.r038_procuring_entity_processes,
            b.r038_procuring_entity_processes,
        ),
        r038_tenderer_processes: count_sum(a.r038_tenderer_processes, b.r038_tenderer_processes),
        ..a
    }
}

/// What R038 accumulates: the ratios and the counts of contracting processes of buyers,
/// procuring entities and tenderers.
pub open spec fn r038_state(v: IndicatorsView) -> (
    Map<Seq<char>, Counts>,
    Map<Seq<char>, Counts>,
    Map<Seq<char>, Counts>,
    Map<Seq<char>, nat>,
    Map<Seq<char>, nat>,
    Map<Seq<char>, nat>,
) {
    (
        v.r038_buyer,
        v.r038_procuring_entity,
        v.r038_tenderer,
        v.r038_buyer_processes,
        v.r038_procuring_entity_processes,
        v.r038_tenderer_processes,
    )
}

/// The fraction of one organization, if it has an identifier.
pub open spec fn organization_fraction(id: Option<Seq<char>>, n: nat, d: nat) -> Map<Seq<char>, Counts> {
    match id {
        Some(k) => Map::empty().insert(k, (n, d)),
        None => Map::empty(),
    }
}

/// One occurrence of each member of a set.
pub open spec fn ones(ids: Set<Seq<char>>) -> Map<Seq<char>, nat> {
    Map::new(|k: Seq<char>| ids.contains(k), |k: Seq<char>| 1nat)
}

/// What one contracting process adds to what R038 accumulates.
pub open spec fn r038_addend(release: Json) -> (
    Map<Seq<char>, Counts>,
    Map<Seq<char>, Counts>,
    Map<Seq<char>, Counts>,
    Map<Seq<char>, nat>,
    Map<Seq<char>, nat>,
    Map<Seq<char>, nat>,
) {
    let bids = submitted_bids(release);
    (
        organization_fraction(buyer_id(release), disqualified_count(bids), bids.len()),
        organization_fraction(procuring_entity_id(release), disqualified_count(bids), bids.len()),
        plus_all(Map::empty(), bid_increments(bids)),
        ones(id_set(buyer_id(release))),
        ones(id_set(procuring_entity_id(release))),
        ones(tenderer_ids(bids)),
    )
}

/// Counting a contracting process adds what it adds to each ratio and count.
proof fn lemma_next_adds(v: IndicatorsView, release: Json)
    ensures
        r038_state(r038_next(v, release)) == ({
            let x = r038_addend(release);
            (
                mediants(v.r038_buyer, x.0),
                mediants(v.r038_procuring_entity, x.1),
                mediants(v.r038_tenderer, x.2),
                count_sum(v.r038_buyer_processes, x.3),
                count_sum(v.r038_procuring_entity_processes, x.4),
                count_sum(v.r038_tenderer_processes, x.5),
            )
        }),
{
    let bids = submitted_bids(release);
    let d = disqualified_count(bids);
    let n = bids.len();
    lemma_plus_all_mediants(v.r038_tenderer, bid_increments(bids));
    match buyer_id(release) {
        Some(k) => lemma_plus_mediants(v.r038_buyer, k, d, n),
        None => lemma_mediants_order(v.r038_buyer, Map::empty(), Map::empty()),
    }
    match procuring_entity_id(release) {
        Some(k) => lemma_plus_mediants(v.r038_procuring_entity, k, d, n),
        None => lemma_mediants_order(v.r038_procuring_entity, Map::empty(), Map::empty()),
    }
    lemma_count_sum_order(v.r038_buyer_processes, Map::empty(), Map::empty(), id_set(buyer_id(release)));
    lemma_count_sum_order(
        v.r038_procuring_entity_processes,
        Map::empty(),
        Map::empty(),
        id_set(procuring_entity_id(release)),
    );
    lemma_count_sum_order(v.r038_tenderer_processes, Map::empty(), Map::empty(), tenderer_ids(bids));
    assert(ones(id_set(buyer_id(release))) =~= Map::new(
        |k: Seq<char>| id_set(buyer_id(release)).contains(k),
        |k: Seq<char>| 1nat,
    ));
}

impl R038 {
    /// The minimum number of submitted bids of a contracting process that counts.
    pub closed spec fn minimum_bids(&self) -> nat {
        self.minimum_submitted_bids as nat
    }

    /// The minimum number of counted contracting processes of an organization whose ratio counts.
    pub closed spec fn minimum_processes(&self) -> nat {
        self.minimum_contracting_processes as nat
    }

    /// Whether a contracting process counts: it has submitted bids, at least the minimum number.
    pub open spec fn counted(&self, release: Json) -> bool {
        submitted_bids(release).len() > 0 && submitted_bids(release).len() >= self.minimum_bids()
    }

    /// The state after looking at a contracting process: if it counts, its buyer, procuring
    /// entity and tenderers add its disqualified bids over its submitted bids, and count one more
    /// contracting process.
    pub open spec fn next(&self, v: IndicatorsView, release: Json) -> IndicatorsView {
        if self.counted(release) {
            r038_next(v, release)
        } else {
            v
        }
    }

    /// Whether the counts after looking at a contracting process fit in `usize`.
    pub open spec fn fits(&self, v: IndicatorsView, release: Json) -> bool {
        !self.counted(release) || {
            let next = r038_next(v, release);
            &&& bounded(next.r038_tenderer)
            &&& bounded(next.r038_buyer)
            &&& bounded(next.r038_procuring_entity)
            &&& counts_bounded(next.r038_tenderer_processes)
            &&& counts_bounded(next.r038_buyer_processes)
            &&& counts_bounded(next.r038_procuring_entity_processes)
        }
    }

    /// Reads the minimums from the settings (two submitted bids and two contracting processes,
    /// unless set), and takes the section out of them.
    pub fn new(settings: &mut Settings) -> (r: Self)
        ensures
            r.minimum_bids() == match old(settings).R038 {
                Some(section) => match section.minimum_submitted_bids {
                    Some(m) => m as nat,
                    None => 2,
                },
                None => 2,
            },
            r.minimum_processes() == match old(settings).R038 {
                Some(section) => match section.minimum_contracting_processes {
                    Some(m) => m as nat,
                    None => 2,
                },
                None => 2,
            },
            *final(settings) == (Settings { R038: None, ..*old(settings) }),
    {
        let (minimum_submitted_bids, minimum_contracting_processes) = match &settings.R038 {
            Some(section) => (
                match section.minimum_submitted_bids {
                    Some(m) => m,
                    None => 2,
                },
                match section.minimum_contracting_processes {
                    Some(m) => m,
                    None => 2,
                },
            ),
            None => (2, 2),
        };
        settings.R038 = None;
        R038 { minimum_submitted_bids, minimum_contracting_processes }
    }

    /// Adds the disqualified bids over the submitted bids of a release to its buyer, its procuring
    /// entity and each tenderer of each submitted bid, and counts one more contracting process for
    /// each of them. A release without submitted bids, or with fewer than the minimum, changes
    /// nothing. It fails, leaving the state unspecified, exactly when a count would exceed
    /// `usize::MAX`.
    pub fn fold(&self, item: &mut Indicators, release: &Json, ocid: &str) -> (r: Result<(), CountOverflow>)
        requires
            old(item).wf(),
        ensures
            final(item).wf(),
            final(item).results.extends(old(item).results),
            r is Ok <==> self.fits(old(item)@, *release),
            r is Ok ==> final(item)@ == self.next(old(item)@, *release),
    {
        let bids = Indicators::get_submitted_bids(release);
        let ghost all = derefs(bids@);
        let count = bids.len();
        if count == 0 || count < self.minimum_submitted_bids {
            return Ok(());
        }
        let mut disqualified: usize = 0;
        let mut incs: Vec<(String, Fraction)> = Vec::new();
        let mut k: usize = 0;
        assert(all.take(0) =~= Seq::<Json>::empty());
        while k < count
            invariant
                count == bids@.len(),
                k <= count,
                all == derefs(bids@),
                disqualified == disqualified_count(all.take(k as int)),
                increments(incs@) == bid_increments(all.take(k as int)),
            decreases count - k,
        {
            let bid: &Json = bids[k];
            assert(all.take(k + 1).drop_last() =~= all.take(k as int));
            assert(all.take(k + 1).last() == *bid);
            proof {
                lemma_disqualified_count_bound(all.take(k as int));
            }
            let increment: usize = match bid.get_string("status") {
                Some(status) => if equals(status.as_str(), "disqualified") {
                    1
                } else {
                    0
                },
                None => 0,
            };
            disqualified = disqualified + increment;
            if let Some(tenderers) = bid.get_array("tenderers") {
                let ghost start = incs@;
                let mut t: usize = 0;
                assert(tenderers@.take(0) =~= Seq::<Json>::empty());
                assert(increments(incs@) =~= increments(start) + tenderer_increments(
                    tenderers@.take(0),
                    increment as nat,
                ));
                while t < tenderers.len()
                    invariant
                        t <= tenderers@.len(),
                        increments(incs@) == increments(start) + tenderer_increments(
                            tenderers@.take(t as int),
                            increment as nat,
                        ),
                    decreases tenderers.len() - t,
                {
                    assert(tenderers@.take(t + 1).drop_last() =~= tenderers@.take(t as int));
                    assert(tenderers@.take(t + 1).last() == tenderers@[t as int]);
                    if let Some(id) = tenderers[t].get_string("id") {
                        let ghost before = incs@;
                        incs.push((id.clone(), Fraction { numerator: increment, denominator: 1 }));
                        assert(increments(incs@) =~= increments(before).push(
                            (id@, increment as nat, 1nat),
                        ));
                    }
                    t += 1;
                }
                assert(tenderers@.take(tenderers@.len() as int) =~= tenderers@);
            }
            k += 1;
        }
        assert(all.take(count as int) =~= all);
        assert(all == submitted_bids(*release));
        let ghost next = r038_next(old(item)@, *release);
        match item.r038_tenderer.add_all(&incs) {
            Ok(()) => {},
            Err(e) => {
                return Err(e);
            },
        }
        if let Some(id) = get_buyer_id(release) {
            match item.r038_buyer.add(id.clone(), disqualified, count) {
                Ok(()) => {},
                Err(e) => {
                    return Err(e);
                },
            }
        }
        if let Some(id) = get_procuring_entity_id(release) {
            match item.r038_procuring_entity.add(id.clone(), disqualified, count) {
                Ok(()) => {},
                Err(e) => {
                    return Err(e);
                },
            }
        }
        let mut tenderers = StrSet::new();
        let mut i: usize = 0;
        assert(increments(incs@).take(0).map_values(|x: (Seq<char>, nat, nat)| x.0).to_set()
            =~= Set::<Seq<char>>::empty());
        while i < incs.len()
            invariant
                i <= incs@.len(),
                tenderers.wf(),
                tenderers@ == increments(incs@).take(i as int).map_values(
                    |x: (Seq<char>, nat, nat)| x.0,
                ).to_set(),
            decreases incs.len() - i,
        {
            let ghost before = increments(incs@).take(i as int).map_values(
                |x: (Seq<char>, nat, nat)| x.0,
            );
            let id = incs[i].0.clone();
            assert(increments(incs@).take(i + 1).map_values(|x: (Seq<char>, nat, nat)| x.0)
                =~= before.push(id@));
            proof {
                before.lemma_push_to_set_commute(id@);
            }
            tenderers.insert(id);
            i += 1;
        }
        assert(increments(incs@).take(incs@.len() as int) =~= increments(incs@));
        let buyer = match get_buyer_id(release) {
            Some(id) => {
                let mut s = StrSet::new();
                s.insert(id.clone());
                s
            },
            None => StrSet::new(),
        };
        assert(buyer@ =~= id_set(buyer_id(*release)));
        let entity = match get_procuring_entity_id(release) {
            Some(id) => {
                let mut s = StrSet::new();
                s.insert(id.clone());
                s
            },
            None => StrSet::new(),
        };
        assert(entity@ =~= id_set(procuring_entity_id(*release)));
        item.r038_tenderer_processes.add_each(&tenderers)?;
        item.r038_buyer_processes.add_each(&buyer)?;
        item.r038_procuring_entity_processes.add_each(&entity)?;
        proof {
            item.r038_buyer.lemma_keys();
            item.r038_procuring_entity.lemma_keys();
        }
        Ok(())
    }
}

impl R038 {
    /// Adds the other state's ratios of disqualified bids to submitted bids, by mediant, and its
    /// numbers of contracting processes, for buyers, procuring entities and tenderers; fails,
    /// leaving them unspecified, exactly when a count would exceed `usize::MAX`.
    pub fn reduce(&self, item: &mut Indicators, other: &mut Indicators) -> (r: Result<(), CountOverflow>)
        requires
            old(item).wf(),
            old(other).wf(),
        ensures
            final(item).wf(),
            final(item).results.extends(old(item).results),
            *final(other) == *old(other),
            r is Ok <==> bounded(mediants(old(item)@.r038_buyer, old(other)@.r038_buyer)) && bounded(
                mediants(old(item)@.r038_procuring_entity, old(other)@.r038_procuring_entity),
            ) && bounded(mediants(old(item)@.r038_tenderer, old(other)@.r038_tenderer))
                && counts_bounded(
                count_sum(old(item)@.r038_buyer_processes, old(other)@.r038_buyer_processes),
            ) && counts_bounded(
                count_sum(
                    old(item)@.r038_procuring_entity_processes,
                    old(other)@.r038_procuring_entity_processes,
                ),
            ) && counts_bounded(
                count_sum(old(item)@.r038_tenderer_processes, old(other)@.r038_tenderer_processes),
            ),
            r is Ok ==> final(item)@ == r038_reduced(old(item)@, old(other)@),
    {
        item.r038_buyer.merge(&other.r038_buyer)?;
        item.r038_procuring_entity.merge(&other.r038_procuring_entity)?;
        item.r038_tenderer.merge(&other.r038_tenderer)?;
        item.r038_buyer_processes.merge(&other.r038_buyer_processes)?;
        item.r038_procuring_entity_processes.merge(&other.r038_procuring_entity_processes)?;
        item.r038_tenderer_processes.merge(&other.r038_tenderer_processes)
    }

    /// The ratios of the organizations with at least the minimum number of counted contracting
    /// processes, the others left out.
    pub fn qualified(&self, ratios: &FractionTable, processes: &CountTable) -> (r: FractionTable)
        requires
            ratios.wf(),
            processes.wf(),
        ensures
            r.wf(),
            r@ == qualified_ratios(ratios@, processes@, self.minimum_processes()),
    {
        let n = ratios.len();
        proof {
            ratios.lemma_keys();
        }
        let ghost keys = ratios.keys();
        let ghost min = self.minimum_processes();
        let mut r = FractionTable::new();
        assert(r@ =~= qualified_ratios(ratios@, processes@, min).restrict(keys.take(0).to_set()));
        let mut i: usize = 0;
        while i < n
            invariant
                n == keys.len(),
                keys == ratios.keys(),
                keys.no_duplicates(),
                forall|k: Seq<char>| #[trigger] ratios@.contains_key(k) <==> keys.contains(k),
                bounded(ratios@),
                ratios.wf(),
                processes.wf(),
                min == self.minimum_processes(),
                i <= n,
                r.wf(),
                r@ == qualified_ratios(ratios@, processes@, min).restrict(keys.take(i as int).to_set()),
            decreases n - i,
        {
            let (id, fraction) = ratios.entry_at(i);
            let ghost done = keys.take(i as int);
            assert(!done.contains(id@)) by {
                if done.contains(id@) {
                    let x = choose|x: int| 0 <= x < i && done[x] == id@;
                    assert(keys[x] == keys[i as int]);
                }
            }
            assert(keys.take(i + 1) =~= done.push(id@));
            proof {
                done.lemma_push_to_set_commute(id@);
            }
            if processes.count(id.as_str()) >= self.minimum_contracting_processes {
                assert(!r@.contains_key(id@));
                let ghost before = r@;
                let added = r.add(id.clone(), fraction.numerator, fraction.denominator);
                assert(plus(before, id@, fraction.numerator as nat, fraction.denominator as nat)
                    =~= before.insert(id@, ratios@[id@]));
                assert(added is Ok);
                assert(r@ =~= qualified_ratios(ratios@, processes@, min).restrict(
                    keys.take(i + 1).to_set(),
                ));
            } else {
                assert(r@ =~= qualified_ratios(ratios@, processes@, min).restrict(
                    keys.take(i + 1).to_set(),
                ));
            }
            i += 1;
        }
        assert(keys.take(n as int) =~= keys);
        assert(keys.to_set() =~= ratios@.dom());
        assert(r@ =~= qualified_ratios(ratios@, processes@, min));
        r
    }
}

/// Each tenderer's fraction from a bid is zero or one over one.
proof fn lemma_tenderer_increments_at_most_one(tenderers: Seq<Json>, inc: nat)
    requires
        inc <= 1,
    ensures
        forall|i: int|
            0 <= i < tenderer_increments(tenderers, inc).len() ==> #[trigger] tenderer_increments(
                tenderers,
                inc,
            )[i].1 <= tenderer_increments(tenderers, inc)[i].2,
    decreases tenderers.len(),
{
    if tenderers.len() > 0 {
        lemma_tenderer_increments_at_most_one(tenderers.drop_last(), inc);
        let prev = tenderer_increments(tenderers.drop_last(), inc);
        let all = tenderer_increments(tenderers, inc);
        assert forall|i: int| 0 <= i < all.len() implies #[trigger] all[i].1 <= all[i].2 by {
            if i < prev.len() {
                assert(all[i] == prev[i]);
            }
        }
    }
}

#[verifier::spinoff_prover]
proof fn lemma_bid_increments_at_most_one(bids: Seq<Json>)
    ensures
        forall|i: int|
            0 <= i < bid_increments(bids).len() ==> #[trigger] bid_increments(bids)[i].1
                <= bid_increments(bids)[i].2,
    decreases bids.len(),
{
    if bids.len() > 0 {
        lemma_bid_increments_at_most_one(bids.drop_last());
        if let Some(tenderers) = bids.last().array_field("tenderers"@) {
            let inc: nat = if is_disqualified(bids.last()) {
                1
            } else {
                0
            };
            lemma_tenderer_increments_at_most_one(tenderers, inc);
            let prev = bid_increments(bids.drop_last());
            let more = tenderer_increments(tenderers, inc);
            assert forall|i: int| 0 <= i < (prev + more).len() implies #[trigger] (prev + more)[i].1
                <= (prev + more)[i].2 by {
                if i >= prev.len() {
                    assert((prev + more)[i] == more[i - prev.len()]);
                }
            }
        }
    }
}

/// A buyer, procuring entity or tenderer never has more disqualified bids than submitted bids:
/// looking at a contracting process keeps each ratio of disqualified to submitted bids at most one.
pub proof fn lemma_disqualified_at_most_submitted(calculator: R038, v: IndicatorsView, release: Json)
    requires
        at_most_one(v.r038_buyer),
        at_most_one(v.r038_procuring_entity),
        at_most_one(v.r038_tenderer),
    ensures
        at_most_one(calculator.next(v, release).r038_buyer),
        at_most_one(calculator.next(v, release).r038_procuring_entity),
        at_most_one(calculator.next(v, release).r038_tenderer),
{
    let bids = submitted_bids(release);
    if calculator.counted(release) {
        lemma_disqualified_count_bound(bids);
        lemma_bid_increments_at_most_one(bids);
        lemma_plus_all_at_most_one(v.r038_tenderer, bid_increments(bids));
        let d = disqualified_count(bids);
        let n = bids.len();
        if let Some(id) = buyer_id(release) {
            assert forall|k: Seq<char>| #[trigger] plus(v.r038_buyer, id, d, n).contains_key(k) implies plus(
                v.r038_buyer,
                id,
                d,
                n,
            )[k].0 <= plus(v.r038_buyer, id, d, n)[k].1 by {
                if v.r038_buyer.contains_key(k) {
                    assert(v.r038_buyer[k].0 <= v.r038_buyer[k].1);
                }
            }
        }
        if let Some(id) = procuring_entity_id(release) {
            let m = v.r038_procuring_entity;
            assert forall|k: Seq<char>| #[trigger] plus(m, id, d, n).contains_key(k) implies plus(
                m,
                id,
                d,
                n,
            )[k].0 <= plus(m, id, d, n)[k].1 by {
                if m.contains_key(k) {
                    assert(m[k].0 <= m[k].1);
                }
            }
        }
    }
}

/// R038 does not depend on the order of the contracting processes, nor on how they are split
/// among states: looking at two contracting processes in either order accumulates the same ratios
/// and counts; reducing two states in either order does too; and looking at a contracting process
/// before or after reducing another state into a state does too.
pub proof fn lemma_r038_order(
    calculator: R038,
    v: IndicatorsView,
    w: IndicatorsView,
    first: Json,
    second: Json,
)
    ensures
        r038_state(calculator.next(calculator.next(v, first), second)) == r038_state(
            calculator.next(calculator.next(v, second), first),
        ),
        r038_state(r038_reduced(v, w)) == r038_state(r038_reduced(w, v)),
        r038_state(r038_reduced(calculator.next(v, first), w)) == r038_state(
            calculator.next(r038_reduced(v, w), first),
        ),
{
    let x = r038_addend(first);
    let y = r038_addend(second);
    let v1 = calculator.next(v, first);
    let v2 = calculator.next(v, second);
    lemma_next_adds(v, first);
    lemma_next_adds(v, second);
    lemma_next_adds(v1, second);
    lemma_next_adds(v2, first);
    lemma_next_adds(r038_reduced(v, w), first);
    lemma_mediants_order(v.r038_buyer, x.0, y.0);
    lemma_mediants_order(v.r038_buyer, y.0, x.0);
    lemma_mediants_order(x.0, y.0, Map::empty());
    lemma_mediants_order(v.r038_procuring_entity, x.1, y.1);
    lemma_mediants_order(v.r038_procuring_entity, y.1, x.1);
    lemma_mediants_order(x.1, y.1, Map::empty());
    lemma_mediants_order(v.r038_tenderer, x.2, y.2);
    lemma_mediants_order(v.r038_tenderer, y.2, x.2);
    lemma_mediants_order(x.2, y.2, Map::empty());
    lemma_count_sum_order(v.r038_buyer_processes, x.3, y.3, Set::empty());
    lemma_count_sum_order(v.r038_buyer_processes, y.3, x.3, Set::empty());
    lemma_count_sum_order(x.3, y.3, Map::empty(), Set::empty());
    lemma_count_sum_order(v.r038_procuring_entity_processes, x.4, y.4, Set::empty());
    lemma_count_sum_order(v.r038_procuring_entity_processes, y.4, x.4, Set::empty());
    lemma_count_sum_order(x.4, y.4, Map::empty(), Set::empty());
    lemma_count_sum_order(v.r038_tenderer_processes, x.5, y.5, Set::empty());
    lemma_count_sum_order(v.r038_tenderer_processes, y.5, x.5, Set::empty());
    lemma_count_sum_order(x.5, y.5, Map::empty(), Set::empty());
    lemma_mediants_order(v.r038_buyer, w.r038_buyer, Map::empty());
    lemma_mediants_order(v.r038_procuring_entity, w.r038_procuring_entity, Map::empty());
    lemma_mediants_order(v.r038_tenderer, w.r038_tenderer, Map::empty());
    lemma_count_sum_order(v.r038_buyer_processes, w.r038_buyer_processes, Map::empty(), Set::empty());
    lemma_count_sum_order(
        v.r038_procuring_entity_processes,
        w.r038_procuring_entity_processes,
        Map::empty(),
        Set::empty(),
    );
    lemma_count_sum_order(v.r038_tenderer_processes, w.r038_tenderer_processes, Map::empty(), Set::empty());
    lemma_mediants_order(v.r038_buyer, x.0, w.r038_buyer);
    lemma_mediants_order(v.r038_buyer, w.r038_buyer, x.0);
    lemma_mediants_order(x.0, w.r038_buyer, Map::empty());
    lemma_mediants_order(v.r038_procuring_entity, x.1, w.r038_procuring_entity);
    lemma_mediants_order(v.r038_procuring_entity, w.r038_procuring_entity, x.1);
    lemma_mediants_order(x.1, w.r038_procuring_entity, Map::empty());
    lemma_mediants_order(v.r038_tenderer, x.2, w.r038_tenderer);
    lemma_mediants_order(v.r038_tenderer, w.r038_tenderer, x.2);
    lemma_mediants_order(x.2, w.r038_tenderer, Map::empty());
    lemma_count_sum_order(v.r038_buyer_processes, x.3, w.r038_buyer_processes, Set::empty());
    lemma_count_sum_order(v.r038_buyer_processes, w.r038_buyer_processes, x.3, Set::empty());
    lemma_count_sum_order(x.3, w.r038_buyer_processes, Map::empty(), Set::empty());
    lemma_count_sum_order(v.r038_procuring_entity_processes, x.4, w.r038_procuring_entity_processes, Set::empty());
    lemma_count_sum_order(v.r038_procuring_entity_processes, w.r038_procuring_entity_processes, x.4, Set::empty());
    lemma_count_sum_order(x.4, w.r038_procuring_entity_processes, Map::empty(), Set::empty());
    lemma_count_sum_order(v.r038_tenderer_processes, x.5, w.r038_tenderer_processes, Set::empty());
    lemma_count_sum_order(v.r038_tenderer_processes, w.r038_tenderer_processes, x.5, Set::empty());
    lemma_count_sum_order(x.5, w.r038_tenderer_processes, Map::empty(), Set::empty());
}

} // verus!
