//! Calculations that several indicators share: the tenderers of each contracting process, and the
//! winning and second-lowest bids of each contracting process.
use crate::indicators::release::{
    add_string_ids, derefs, matches_details, string_ids, submitted_bids, valid_bid, valid_bids,
    winner_and_bids,
};
use crate::indicators::{
    add_members, add_members_to, currency_view, observe_currency, observed_currency, Indicators,
    IndicatorsView, LowestBids, MapsView, Settings,
};
use crate::json::{equals, Json};
use crate::sets::StrSet;
use crate::table::Table;
use crate::text::{parse_pipe_separated_value, pipe_set};
use vstd::prelude::*;

verus! {

/// Maps each contracting process to the tenderers of its submitted bids.
pub struct Tenderers {}

/// The identifiers of the tenderers of some bids.
pub open spec fn tenderers_of(bids: Seq<Json>) -> Set<Seq<char>>
    decreases bids.len(),
{
    if bids.len() == 0 {
        Set::empty()
    } else {
        match bids.last().array_field("tenderers"@) {
            Some(tenderers) => tenderers_of(bids.drop_last()).union(string_ids(tenderers)),
            None => tenderers_of(bids.drop_last()),
        }
    }
}

impl Tenderers {
    /// The state after looking at the contracting process `ocid`: if mapping is on, the tenderers
    /// of its submitted bids are mapped to it.
    pub open spec fn next(&self, v: IndicatorsView, release: Json, ocid: Seq<char>) -> IndicatorsView {
        IndicatorsView {
            maps: MapsView {
                ocid_tenderer: if v.map {
                    add_members(v.maps.ocid_tenderer, ocid, tenderers_of(submitted_bids(release)))
                } else {
                    v.maps.ocid_tenderer
                },
                ..v.maps
            },
            ..v
        }
    }

    /// The mapping of tenderers has no settings.
    pub fn new(settings: &mut Settings) -> (r: Self)
        ensures
            *final(settings) == *old(settings),
    {
        Tenderers {}
    }

    /// If mapping is on, maps `ocid` to the tenderers of its submitted bids.
    pub fn fold(&self, item: &mut Indicators, release: &Json, ocid: &str)
        requires
            old(item).wf(),
        ensures
            final(item).wf(),
            final(item).results.extends(old(item).results),
            final(item)@ == self.next(old(item)@, *release, ocid@),
    {
        if !item.map {
            return;
        }
        let bids = Indicators::get_submitted_bids(release);
        let ghost all = derefs(bids@);
        let mut ids = StrSet::new();
        let mut k: usize = 0;
        assert(all.take(0) =~= Seq::<Json>::empty());
        while k < bids.len()
            invariant
                k <= bids@.len(),
                all == derefs(bids@),
                ids.wf(),
                ids@ == tenderers_of(all.take(k as int)),
            decreases bids.len() - k,
        {
            let bid: &Json = bids[k];
            assert(all.take(k + 1).drop_last() =~= all.take(k as int));
            assert(all.take(k + 1).last() == *bid);
            if let Some(tenderers) = bid.get_array("tenderers") {
                add_string_ids(tenderers, &mut ids);
            }
            k += 1;
        }
        assert(all.take(bids@.len() as int) =~= all);
        add_members_to(&mut item.maps.ocid_tenderer, ocid, &ids);
    }

    /// If mapping is on, moves the other state's mappings of contracting processes to tenderers
    /// into this one.
    pub fn reduce(&self, item: &mut Indicators, other: &mut Indicators)
        requires
            old(item).wf(),
            old(other).wf(),
        ensures
            final(item).wf(),
            final(item).results.extends(old(item).results),
            final(other).wf(),
            final(other)@ == (if old(item)@.map {
                IndicatorsView {
                    maps: MapsView { ocid_tenderer: Map::empty(), ..old(other)@.maps },
                    ..old(other)@
                }
            } else {
                old(other)@
            }),
            final(item)@ == (if old(item)@.map {
                IndicatorsView {
                    maps: MapsView {
                        ocid_tenderer: old(item)@.maps.ocid_tenderer.union_prefer_right(
                            old(other)@.maps.ocid_tenderer,
                        ),
                        ..old(item)@.maps
                    },
                    ..old(item)@
                }
            } else {
                old(item)@
            }),
    {
        if item.map {
            let mut taken = crate::sets::SetTable::new();
            std::mem::swap(&mut taken, &mut other.maps.ocid_tenderer);
            item.maps.ocid_tenderer.extend(taken);
        }
    }
}

/// The winning bid and the lowest bid of another tenderer, for each contracting process.
pub struct SecondLowestBidRatio {
    no_price_comparison_procurement_methods: StrSet,
    price_comparison_procurement_methods: StrSet,
    currency: Option<String>,
}

/// A tenderer and an amount.
pub type Offer = (Seq<char>, u64);

/// The lowest of an offer so far and a new one: the new one if it is strictly lower.
pub open spec fn lower(so_far: Option<Offer>, id: Seq<char>, amount: u64) -> Option<Offer> {
    match so_far {
        Some((i, a)) => if amount < a {
            Some((id, amount))
        } else {
            Some((i, a))
        },
        None => Some((id, amount)),
    }
}

/// The main currency, the winner's lowest offer and the lowest offer of another tenderer, after
/// scanning some valid bids in order. A bid in another currency than the main one is skipped; the
/// main currency settles on the first bid.
pub open spec fn offer_scan(
    bids: Seq<(Seq<char>, u64, Seq<char>)>,
    main: Option<Seq<char>>,
    default: Option<Seq<char>>,
    winner: Seq<char>,
) -> (Option<Seq<char>>, Option<Offer>, Option<Offer>)
    decreases bids.len(),
{
    if bids.len() == 0 {
        (main, None, None)
    } else {
        let (m, w, l) = offer_scan(bids.drop_last(), main, default, winner);
        let (id, amount, c) = bids.last();
        let settled = observed_currency(m, default, c);
        if c != settled {
            (Some(settled), w, l)
        } else if id == winner {
            (Some(settled), lower(w, id, amount), l)
        } else {
            (Some(settled), w, lower(l, id, amount))
        }
    }
}

/// The state after the winning and second-lowest bids of a release are recorded.
pub open spec fn lowest_bids_next(
    item: IndicatorsView,
    release: Json,
    ocid: Seq<char>,
    price: Set<Seq<char>>,
    no_price: Set<Seq<char>>,
    default: Option<Seq<char>>,
) -> IndicatorsView {
    if !matches_details(release, price, no_price) {
        item
    } else {
        match winner_and_bids(release) {
            Some((winner, details)) => {
                let (m, w, l) = offer_scan(valid_bids(details), item.currency, default, winner);
                IndicatorsView {
                    currency: m,
                    lowest_bids: match (w, l) {
                        (Some((wi, wa)), Some((li, la))) => if la >= wa {
                            item.lowest_bids.insert(ocid, (wi, wa, li, la))
                        } else {
                            item.lowest_bids
                        },
                        _ => item.lowest_bids,
                    },
                    ..item
                }
            },
            None => item,
        }
    }
}

impl SecondLowestBidRatio {
    /// The state after looking at the contracting process `ocid`: its winning bid and the lowest
    /// bid of another tenderer, if prices are compared for it.
    pub open spec fn next(&self, v: IndicatorsView, release: Json, ocid: Seq<char>) -> IndicatorsView {
        lowest_bids_next(v, release, ocid, self.price(), self.no_price(), self.default_currency())
    }

    pub closed spec fn wf(&self) -> bool {
        self.no_price_comparison_procurement_methods.wf()
            && self.price_comparison_procurement_methods.wf()
    }

    /// The procurement method details to leave out of price comparisons.
    pub closed spec fn no_price(&self) -> Set<Seq<char>> {
        self.no_price_comparison_procurement_methods@
    }

    /// The procurement method details to keep in price comparisons.
    pub closed spec fn price(&self) -> Set<Seq<char>> {
        self.price_comparison_procurement_methods@
    }

    /// The default main currency.
    pub closed spec fn default_currency(&self) -> Option<Seq<char>> {
        currency_view(self.currency)
    }

    /// Reads the price comparison settings and the main currency.
    pub fn new(settings: &mut Settings) -> (r: Self)
        ensures
            r.wf(),
            r.no_price() == pipe_set(
                match old(settings).no_price_comparison_procurement_methods {
                    Some(v) => Some(v@),
                    None => None,
                },
            ),
            r.price() == pipe_set(
                match old(settings).price_comparison_procurement_methods {
                    Some(v) => Some(v@),
                    None => None,
                },
            ),
            r.default_currency() == currency_view(old(settings).currency),
            *final(settings) == *old(settings),
    {
        SecondLowestBidRatio {
            no_price_comparison_procurement_methods: parse_pipe_separated_value(
                settings.no_price_comparison_procurement_methods.clone(),
            ),
            price_comparison_procurement_methods: parse_pipe_separated_value(
                settings.price_comparison_procurement_methods.clone(),
            ),
            currency: settings.currency.clone(),
        }
    }

    /// Records, for a contracting process that takes part in price comparisons and has a single
    /// winner, the winner's lowest valid bid and the lowest valid bid of another tenderer, if the
    /// latter is not lower than the former.
    pub fn fold(&self, item: &mut Indicators, release: &Json, ocid: &str)
        requires
            self.wf(),
            old(item).wf(),
        ensures
            final(item).wf(),
            final(item).results.extends(old(item).results),
            final(item)@ == self.next(old(item)@, *release, ocid@),
    {
        if !Indicators::matches_procurement_method_details(
            release,
            &self.price_comparison_procurement_methods,
            &self.no_price_comparison_procurement_methods,
        ) {
            return;
        }
        let (supplier, details) = match Indicators::get_winner_and_bids(release) {
            Some(pair) => pair,
            None => {
                return;
            },
        };
        let bids = Indicators::get_tenderer_and_value_of_valid_bids(details);
        let ghost all = bids@.map_values(|e: (&String, u64, &String)| (e.0@, e.1, e.2@));
        let mut winner: Option<(&String, u64)> = None;
        let mut lowest: Option<(&String, u64)> = None;
        let mut k: usize = 0;
        assert(all.take(0) =~= Seq::<(Seq<char>, u64, Seq<char>)>::empty());
        while k < bids.len()
            invariant
                item.results == old(item).results,
                k <= bids@.len(),
                all == bids@.map_values(|e: (&String, u64, &String)| (e.0@, e.1, e.2@)),
                item.wf(),
                item@ == (IndicatorsView { currency: currency_view(item.currency), ..old(item)@ }),
                offer_scan(all.take(k as int), old(item)@.currency, self.default_currency(), supplier@)
                    == (
                    currency_view(item.currency),
                    match winner {
                        Some((i, a)) => Some((i@, a)),
                        None => None,
                    },
                    match lowest {
                        Some((i, a)) => Some((i@, a)),
                        None => None,
                    },
                ),
            decreases bids.len() - k,
        {
            let (id, amount, currency) = bids[k];
            assert(all.take(k + 1).drop_last() =~= all.take(k as int));
            assert(all.take(k + 1).last() == (id@, amount, currency@));
            if observe_currency(&mut item.currency, &self.currency, currency) {
                if equals(supplier.as_str(), id.as_str()) {
                    winner = match winner {
                        Some((i, a)) => if amount < a {
                            Some((id, amount))
                        } else {
                            Some((i, a))
                        },
                        None => Some((id, amount)),
                    };
                } else {
                    lowest = match lowest {
                        Some((i, a)) => if amount < a {
                            Some((id, amount))
                        } else {
                            Some((i, a))
                        },
                        None => Some((id, amount)),
                    };
                }
            }
            k += 1;
        }
        assert(all.take(bids@.len() as int) =~= all);
        assert(all == valid_bids(details@));
        if let (Some((wi, wa)), Some((li, la))) = (winner, lowest) {
            if la >= wa {
                let ghost before = item@;
                item.lowest_bids.insert(
                    ocid.to_owned(),
                    LowestBids {
                        winner: wi.clone(),
                        winner_amount: wa,
                        lowest_non_winner: li.clone(),
                        lowest_non_winner_amount: la,
                    },
                );
                assert(item@.lowest_bids =~= before.lowest_bids.insert(ocid@, (wi@, wa, li@, la)));
            }
        }
    }
}

/// Whether two states' currencies allow their bids to be compared: one of them has not settled a
/// currency, or both settled the same.
pub open spec fn currencies_agree(a: Option<Seq<char>>, b: Option<Seq<char>>) -> bool {
    match (a, b) {
        (Some(x), Some(y)) => x == y,
        _ => true,
    }
}

impl SecondLowestBidRatio {
    /// Moves the other state's winning and second-lowest bids into this one, if the two states'
    /// currencies agree; where both have a contracting process, the other's bids are kept.
    pub fn reduce(&self, item: &mut Indicators, other: &mut Indicators)
        requires
            old(item).wf(),
            old(other).wf(),
        ensures
            final(item).wf(),
            final(item).results.extends(old(item).results),
            final(other).wf(),
            final(other)@ == (if currencies_agree(old(item)@.currency, old(other)@.currency) {
                IndicatorsView { lowest_bids: Map::empty(), ..old(other)@ }
            } else {
                old(other)@
            }),
            final(item)@ == (if currencies_agree(old(item)@.currency, old(other)@.currency) {
                IndicatorsView {
                    lowest_bids: old(item)@.lowest_bids.union_prefer_right(old(other)@.lowest_bids),
                    ..old(item)@
                }
            } else {
                old(item)@
            }),
    {
        let agree = match (&item.currency, &other.currency) {
            (Some(a), Some(b)) => *a == *b,
            _ => true,
        };
        if agree {
            let mut taken = Table::new();
            std::mem::swap(&mut taken, &mut other.lowest_bids);
            assert(other@.lowest_bids =~= Map::empty());
            let ghost before = item.lowest_bids@;
            item.lowest_bids.absorb(taken);
            assert(item@.lowest_bids =~= old(item)@.lowest_bids.union_prefer_right(
                old(other)@.lowest_bids,
            ));
        }
    }
}

/// Each valid bid of a list of bids, and only those, is among `valid_bids`.
proof fn lemma_valid_bids_are_valid(ds: Seq<Json>)
    ensures
        forall|k: int|
            0 <= k < valid_bids(ds).len() ==> exists|j: int|
                0 <= j < ds.len() && #[trigger] valid_bid(ds[j]) == Some(#[trigger] valid_bids(ds)[k]),
        forall|j: int|
            0 <= j < ds.len() && #[trigger] valid_bid(ds[j]) is Some ==> valid_bids(ds).contains(
                valid_bid(ds[j])->Some_0,
            ),
    decreases ds.len(),
{
    if ds.len() > 0 {
        let p = ds.drop_last();
        let n = ds.len() - 1;
        lemma_valid_bids_are_valid(p);
        assert forall|j: int| 0 <= j < p.len() implies p[j] == ds[j] by {}
        let prev = valid_bids(p);
        let all = valid_bids(ds);
        assert forall|k: int| 0 <= k < all.len() implies exists|j: int|
            0 <= j < ds.len() && #[trigger] valid_bid(ds[j]) == Some(#[trigger] all[k]) by {
            if k < prev.len() {
                assert(all[k] == prev[k]);
                let j = choose|j: int| 0 <= j < p.len() && #[trigger] valid_bid(p[j]) == Some(prev[k]);
                assert(valid_bid(ds[j]) == Some(all[k]));
            } else {
                assert(valid_bid(ds[n]) == Some(all[k]));
            }
        }
        assert forall|j: int| 0 <= j < ds.len() && #[trigger] valid_bid(ds[j]) is Some implies all.contains(
            valid_bid(ds[j])->Some_0,
        ) by {
            if j < n {
                assert(valid_bid(p[j]) is Some);
                let k = choose|k: int| 0 <= k < prev.len() && prev[k] == valid_bid(p[j])->Some_0;
                assert(all[k] == prev[k]);
            } else {
                assert(all[all.len() - 1] == valid_bid(ds[n])->Some_0);
            }
        }
    }
}

/// The meaning of the scan of valid bids: the main currency, once settled, stays; the winner's
/// offer is one of the winner's bids in the main currency and at most each of them; the offer of
/// another tenderer is one of the other tenderers' bids in the main currency and at most each of
/// them.
proof fn lemma_offer_scan_meaning(
    bids: Seq<(Seq<char>, u64, Seq<char>)>,
    main: Option<Seq<char>>,
    default: Option<Seq<char>>,
    winner: Seq<char>,
)
    ensures
        ({
            let (m, w, l) = offer_scan(bids, main, default, winner);
            &&& main is Some ==> m == main
            &&& m is None ==> w is None && l is None && bids.len() == 0
            &&& m matches Some(cur) ==> {
                &&& w matches Some((wi, wa)) ==> wi == winner && bids.contains((winner, wa, cur))
                    && forall|j: int|
                    0 <= j < bids.len() && (#[trigger] bids[j]).0 == winner && bids[j].2 == cur ==> wa
                        <= bids[j].1
                &&& w is None ==> forall|j: int|
                    0 <= j < bids.len() ==> !((#[trigger] bids[j]).0 == winner && bids[j].2 == cur)
                &&& l matches Some((li, la)) ==> li != winner && bids.contains((li, la, cur))
                    && forall|j: int|
                    0 <= j < bids.len() && (#[trigger] bids[j]).0 != winner && bids[j].2 == cur ==> la
                        <= bids[j].1
                &&& l is None ==> forall|j: int|
                    0 <= j < bids.len() ==> !((#[trigger] bids[j]).0 != winner && bids[j].2 == cur)
            }
        }),
    decreases bids.len(),
{
    if bids.len() > 0 {
        let p = bids.drop_last();
        let n = bids.len() - 1;
        lemma_offer_scan_meaning(p, main, default, winner);
        assert forall|j: int| 0 <= j < n implies #[trigger] bids[j] == p[j] by {}
        let (m, w, l) = offer_scan(p, main, default, winner);
        let (id, amount, c) = bids.last();
        let settled = observed_currency(m, default, c);
        let cur = settled;
        assert(bids[n] == (id, amount, c));
        let (m2, w2, l2) = offer_scan(bids, main, default, winner);
        assert(m2 == Some(cur));
        if let Some((wi, wa)) = w {
            let k = choose|k: int| 0 <= k < p.len() && p[k] == (winner, wa, cur);
            assert(bids[k] == p[k]);
            assert(bids.contains((winner, wa, cur)));
        }
        if let Some((li, la)) = l {
            let k = choose|k: int| 0 <= k < p.len() && p[k] == (li, la, cur);
            assert(bids[k] == p[k]);
            assert(bids.contains((li, la, cur)));
        }
        if let Some((wi, wa)) = w2 {
            if c == cur && id == winner && (w is None || amount < w->Some_0.1) {
                assert(bids.contains((winner, wa, cur)));
            }
            assert forall|j: int|
                0 <= j < bids.len() && (#[trigger] bids[j]).0 == winner && bids[j].2 == cur implies wa
                <= bids[j].1 by {
                if j < n {
                    assert(p[j] == bids[j]);
                }
            }
        } else {
            assert forall|j: int| 0 <= j < bids.len() implies !((#[trigger] bids[j]).0 == winner
                && bids[j].2 == cur) by {
                if j < n {
                    assert(p[j] == bids[j]);
                }
            }
        }
        if let Some((li, la)) = l2 {
            if c == cur && id != winner && (l is None || amount < l->Some_0.1) {
                assert(bids.contains((id, amount, cur)));
            }
            assert forall|j: int|
                0 <= j < bids.len() && (#[trigger] bids[j]).0 != winner && bids[j].2 == cur implies la
                <= bids[j].1 by {
                if j < n {
                    assert(p[j] == bids[j]);
                }
            }
        } else {
            assert forall|j: int| 0 <= j < bids.len() implies !((#[trigger] bids[j]).0 != winner
                && bids[j].2 == cur) by {
                if j < n {
                    assert(p[j] == bids[j]);
                }
            }
        }
    }
}

/// The bids recorded for a contracting process: the winner's is the lowest of the winner's valid
/// bids in the main currency, and the other is the lowest of the other tenderers' valid bids in
/// that currency, no lower than the winner's; both are among the process's valid bids.
pub proof fn lemma_second_lowest_bid(c: SecondLowestBidRatio, v: IndicatorsView, release: Json, ocid: Seq<char>)
    requires
        !v.lowest_bids.contains_key(ocid),
    ensures
        c.next(v, release, ocid).lowest_bids.contains_key(ocid) ==> ({
            let (wi, wa, li, la) = c.next(v, release, ocid).lowest_bids[ocid];
            (winner_and_bids(release) matches Some((winner, details)) && (c.next(
                v,
                release,
                ocid,
            ).currency matches Some(cur) && {
                &&& wi == winner
                &&& li != winner
                &&& wa <= la
                &&& exists|j: int|
                    0 <= j < details.len() && #[trigger] valid_bid(details[j]) == Some((winner, wa, cur))
                &&& exists|j: int|
                    0 <= j < details.len() && #[trigger] valid_bid(details[j]) == Some((li, la, cur))
                &&& forall|j: int|
                    0 <= j < details.len() && #[trigger] valid_bid(details[j]) is Some && valid_bid(
                        details[j],
                    )->Some_0.2 == cur ==> (valid_bid(details[j])->Some_0.0 == winner ==> wa
                        <= valid_bid(details[j])->Some_0.1) && (valid_bid(details[j])->Some_0.0
                        != winner ==> la <= valid_bid(details[j])->Some_0.1)
            }))
        }),
{
    if let Some((winner, details)) = winner_and_bids(release) {
        let bids = valid_bids(details);
        lemma_valid_bids_are_valid(details);
        lemma_offer_scan_meaning(bids, v.currency, c.default_currency(), winner);
        let n = c.next(v, release, ocid);
        if n.lowest_bids.contains_key(ocid) {
            let (m, w, l) = offer_scan(bids, v.currency, c.default_currency(), winner);
            let cur = m->Some_0;
            let (wi, wa) = w->Some_0;
            let (li, la) = l->Some_0;
            let kw = choose|k: int| 0 <= k < bids.len() && bids[k] == (winner, wa, cur);
            let jw = choose|j: int| 0 <= j < details.len() && #[trigger] valid_bid(details[j]) == Some(bids[kw]);
            let kl = choose|k: int| 0 <= k < bids.len() && bids[k] == (li, la, cur);
            let jl = choose|j: int| 0 <= j < details.len() && #[trigger] valid_bid(details[j]) == Some(bids[kl]);
            assert forall|j: int|
                0 <= j < details.len() && #[trigger] valid_bid(details[j]) is Some && valid_bid(
                    details[j],
                )->Some_0.2 == cur implies (valid_bid(details[j])->Some_0.0 == winner ==> wa
                    <= valid_bid(details[j])->Some_0.1) && (valid_bid(details[j])->Some_0.0 != winner
                    ==> la <= valid_bid(details[j])->Some_0.1) by {
                let x = valid_bid(details[j])->Some_0;
                let k = choose|k: int| 0 <= k < bids.len() && bids[k] == x;
                assert(bids[k] == x);
            }
        }
    }
}

} // verus!
