//! R025: Excessive unsuccessful bids. The ratio of winning bids to submitted bids for a top
//! tenderer is a low outlier.
//!
//! The ratios accumulate here; the outliers are found where results are finalized.
use crate::error::CountOverflow;
use crate::indicators::fraction::{
    at_most_one, bounded, increments, lemma_mediants, lemma_mediants_at_most_one,
    lemma_mediants_order, mediants, Fraction,
};
use crate::indicators::release::winner_and_bids;
use crate::indicators::{Indicators, IndicatorsView, Settings};
use crate::json::{equals, Json};
use crate::sets::StrSet;
use vstd::prelude::*;

verus! {

/// R025: accumulates, for each tenderer, the contracting processes that it won over those in which
/// it submitted a valid bid.
pub struct R025 {}

/// The tenderer of a bid whose status is "valid" and that has exactly one tenderer, whose
/// identifier is a string.
pub open spec fn single_valid_tenderer(bid: Json) -> Option<Seq<char>> {
    match (bid.string_field("status"@), bid.array_field("tenderers"@)) {
        (Some(status), Some(tenderers)) => if tenderers.len() == 1 && status == "valid"@ {
            tenderers[0].string_field("id"@)
        } else {
            None
        },
        _ => None,
    }
}

/// The tenderers of the valid bids with a single tenderer among some bids.
pub open spec fn valid_tenderers(bids: Seq<Json>) -> Set<Seq<char>>
    decreases bids.len(),
{
    if bids.len() == 0 {
        Set::empty()
    } else {
        match single_valid_tenderer(bids.last()) {
            Some(id) => valid_tenderers(bids.drop_last()).insert(id),
            None => valid_tenderers(bids.drop_last()),
        }
    }
}

/// For each tenderer with a valid bid, one over one if it won and zero over one otherwise.
pub open spec fn wins(tenderers: Set<Seq<char>>, winner: Seq<char>) -> Map<Seq<char>, (nat, nat)> {
    Map::new(
        |k: Seq<char>| tenderers.contains(k),
        |k: Seq<char>|
            (
                if k == winner {
                    1nat
                } else {
                    0nat
                },
                1nat,
            ),
    )
}

impl R025 {
    /// The state after looking at a contracting process with a single active award to a single
    /// supplier: each tenderer with a valid bid adds one win, if it is the supplier, or no win, to
    /// one more process.
    pub open spec fn next(&self, v: IndicatorsView, release: Json) -> IndicatorsView {
        match winner_and_bids(release) {
            Some((winner, details)) => IndicatorsView {
                r025_tenderer: mediants(v.r025_tenderer, wins(valid_tenderers(details), winner)),
                ..v
            },
            None => v,
        }
    }

    /// Whether the counts after looking at a contracting process fit in `usize`.
    pub open spec fn fits(&self, v: IndicatorsView, release: Json) -> bool {
        match winner_and_bids(release) {
            Some((winner, details)) => bounded(
                mediants(v.r025_tenderer, wins(valid_tenderers(details), winner)),
            ),
            None => true,
        }
    }

    pub fn new(settings: &mut Settings) -> (r: Self)
        ensures
            *final(settings) == (Settings { R025: None, ..*old(settings) }),
    {
        settings.R025 = None;
        R025 {}
    }

    /// If a release has a single winner, counts one contracting process for each tenderer with a
    /// valid bid, and one win for the winner. It fails, leaving the state unspecified, exactly when
    /// a count would exceed `usize::MAX`.
    pub fn fold(&self, item: &mut Indicators, release: &Json, ocid: &str) -> (r: Result<(), CountOverflow>)
        requires
            old(item).wf(),
        ensures
            final(item).wf(),
            final(item).results.extends(old(item).results),
            r is Ok <==> self.fits(old(item)@, *release),
            r is Ok ==> final(item)@ == self.next(old(item)@, *release),
    {
        let (winner, details) = match Indicators::get_winner_and_bids(release) {
            Some(pair) => pair,
            None => {
                return Ok(());
            },
        };
        let mut valid = StrSet::new();
        let mut i: usize = 0;
        assert(details@.take(0) =~= Seq::<Json>::empty());
        while i < details.len()
            invariant
                i <= details@.len(),
                valid.wf(),
                valid@ == valid_tenderers(details@.take(i as int)),
            decreases details.len() - i,
        {
            let bid = &details[i];
            assert(details@.take(i + 1).drop_last() =~= details@.take(i as int));
            assert(details@.take(i + 1).last() == details@[i as int]);
            if let (Some(status), Some(tenderers)) = (bid.get_string("status"), bid.get_array("tenderers")) {
                if tenderers.len() == 1 {
                    if let Some(id) = tenderers[0].get_string("id") {
                        if equals(status.as_str(), "valid") {
                            valid.insert(id.clone());
                        }
                    }
                }
            }
            i += 1;
        }
        assert(details@.take(details@.len() as int) =~= details@);
        let n = valid.len();
        proof {
            valid.lemma_elements();
        }
        let mut incs: Vec<(String, Fraction)> = Vec::new();
        let mut k: usize = 0;
        while k < n
            invariant
                n == valid.elements().len(),
                k <= n,
                valid.wf(),
                incs@.len() == k,
                forall|j: int|
                    0 <= j < k ==> #[trigger] increments(incs@)[j] == (
                        valid.elements()[j],
                        if valid.elements()[j] == winner@ {
                            1nat
                        } else {
                            0nat
                        },
                        1nat,
                    ),
            decreases n - k,
        {
            let id = valid.element_at(k);
            let won: usize = if equals(id.as_str(), winner.as_str()) {
                1
            } else {
                0
            };
            let ghost before = incs@;
            incs.push((id.clone(), Fraction { numerator: won, denominator: 1 }));
            assert forall|j: int| 0 <= j < k + 1 implies #[trigger] increments(incs@)[j] == (
                valid.elements()[j],
                if valid.elements()[j] == winner@ {
                    1nat
                } else {
                    0nat
                },
                1nat,
            ) by {
                if j < k {
                    assert(incs@[j] == before[j]);
                    assert(increments(before)[j] == increments(incs@)[j]);
                } else {
                    assert(incs@[j].0@ == id@);
                    assert(incs@[j].1.numerator == won);
                    assert(valid.elements()[j] == id@);
                }
            }
            k += 1;
        }
        let ghost m = wins(valid@, winner@);
        proof {
            assert forall|x: Seq<char>| #[trigger] m.contains_key(x) <==> valid.elements().contains(x) by {}
            assert forall|j: int| 0 <= j < valid.elements().len() implies #[trigger] increments(incs@)[j]
                == (valid.elements()[j], m[valid.elements()[j]].0, m[valid.elements()[j]].1) by {
                assert(valid@.contains(valid.elements()[j]));
            }
            lemma_mediants(old(item)@.r025_tenderer, m, valid.elements(), increments(incs@));
        }
        item.r025_tenderer.add_all(&incs)
    }
}

impl R025 {
    /// Adds the other state's ratios of winning bids to submitted bids, by mediant; fails, leaving
    /// the ratios unspecified, exactly when a count would exceed `usize::MAX`.
    pub fn reduce(&self, item: &mut Indicators, other: &mut Indicators) -> (r: Result<(), CountOverflow>)
        requires
            old(item).wf(),
            old(other).wf(),
        ensures
            final(item).wf(),
            final(item).results.extends(old(item).results),
            *final(other) == *old(other),
            r is Ok <==> bounded(mediants(old(item)@.r025_tenderer, old(other)@.r025_tenderer)),
            r is Ok ==> final(item)@ == (IndicatorsView {
                r025_tenderer: mediants(old(item)@.r025_tenderer, old(other)@.r025_tenderer),
                ..old(item)@
            }),
    {
        item.r025_tenderer.merge(&other.r025_tenderer)
    }
}

/// A tenderer never wins more contracting processes than it submitted valid bids in: looking at a
/// contracting process keeps each ratio of wins to processes at most one.
pub proof fn lemma_wins_at_most_processes(calculator: R025, v: IndicatorsView, release: Json)
    requires
        at_most_one(v.r025_tenderer),
    ensures
        at_most_one(calculator.next(v, release).r025_tenderer),
{
    if let Some((winner, details)) = winner_and_bids(release) {
        let w = wins(valid_tenderers(details), winner);
        assert(at_most_one(w));
        lemma_mediants_at_most_one(v.r025_tenderer, w);
    }
}

/// R025 does not depend on the order of the contracting processes, nor on how they are split
/// among states: looking at two contracting processes in either order gives the same ratios, and
/// looking at a contracting process before or after adding another state's ratios does too.
pub proof fn lemma_r025_order(
    calculator: R025,
    v: IndicatorsView,
    w: Map<Seq<char>, (nat, nat)>,
    first: Json,
    second: Json,
)
    ensures
        calculator.next(calculator.next(v, first), second).r025_tenderer == calculator.next(
            calculator.next(v, second),
            first,
        ).r025_tenderer,
        mediants(calculator.next(v, first).r025_tenderer, w) == calculator.next(
            IndicatorsView { r025_tenderer: mediants(v.r025_tenderer, w), ..v },
            first,
        ).r025_tenderer,
{
    let x = match winner_and_bids(first) {
        Some((winner, details)) => wins(valid_tenderers(details), winner),
        None => Map::empty(),
    };
    let y = match winner_and_bids(second) {
        Some((winner, details)) => wins(valid_tenderers(details), winner),
        None => Map::empty(),
    };
    let t = v.r025_tenderer;
    lemma_mediants_order(t, x, y);
    lemma_mediants_order(t, y, x);
    lemma_mediants_order(x, y, Map::empty());
    lemma_mediants_order(t, Map::empty(), Map::empty());
    lemma_mediants_order(mediants(t, x), Map::empty(), Map::empty());
    lemma_mediants_order(mediants(t, y), Map::empty(), Map::empty());
    lemma_mediants_order(t, x, w);
    lemma_mediants_order(t, w, x);
    lemma_mediants_order(x, w, Map::empty());
    lemma_mediants_order(mediants(t, w), Map::empty(), Map::empty());
}

} // verus!
