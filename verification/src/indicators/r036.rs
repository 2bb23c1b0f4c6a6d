//! R036: Lowest bid disqualified. The lowest submitted bid is disqualified, while the award
//! criterion is price only.
use crate::indicators::release::{bid_value, derefs, get_bid_value, is_active, award_is_active, submitted_bids};
use crate::indicators::{
    currency_view, observe_currency, observed_currency, Group, Indicator, Indicators,
    IndicatorsView, Settings,
};
use crate::json::{equals, Json};
use vstd::prelude::*;

verus! {

/// R036: among the submitted bids in the main currency, the first lowest is disqualified.
pub struct R036 {
    default_currency: Option<String>,
}

/// Whether a release has an array of awards, one of which is complete.
pub open spec fn has_complete_award(release: Json) -> bool {
    match release.array_field("awards"@) {
        Some(awards) => exists|i: int| 0 <= i < awards.len() && #[trigger] is_active(awards[i]),
        None => false,
    }
}

/// Whether some bid among some bids is valid and has an amount.
pub open spec fn has_valid_amount(bids: Seq<Json>) -> bool {
    exists|i: int|
        0 <= i < bids.len() && #[trigger] bids[i].string_field("status"@) == Some("valid"@)
            && bid_value(bids[i]) is Some
}

/// The main currency, the lowest amount in it, and whether the first bid with that amount is
/// disqualified, after scanning some bids in order. A bid counts if its status is a string and its
/// value has a numeric amount and a currency; the main currency settles on the first such bid.
pub open spec fn lowest_scan(bids: Seq<Json>, main: Option<Seq<char>>, default: Option<Seq<char>>) -> (
    Option<Seq<char>>,
    Option<u64>,
    bool,
)
    decreases bids.len(),
{
    if bids.len() == 0 {
        (main, None, false)
    } else {
        let (m, lowest, disqualified) = lowest_scan(bids.drop_last(), main, default);
        let bid = bids.last();
        match (bid.string_field("status"@), bid_value(bid)) {
            (Some(status), Some((amount, c))) => {
                let settled = observed_currency(m, default, c);
                if c == settled && (lowest is None || amount < lowest->Some_0) {
                    (Some(settled), Some(amount), status == "disqualified"@)
                } else {
                    (Some(settled), lowest, disqualified)
                }
            },
            _ => (m, lowest, disqualified),
        }
    }
}

impl R036 {
    /// The state after looking at the contracting process `ocid`: if it has an active award and
    /// some valid submitted bid with an amount, the amounts of its submitted bids settle the main
    /// currency, and R036 is raised for it if its lowest bid in that currency was disqualified.
    pub open spec fn next(&self, v: IndicatorsView, release: Json, ocid: Seq<char>) -> IndicatorsView {
        if has_complete_award(release) && has_valid_amount(submitted_bids(release)) {
            let (m, lowest, disqualified) = lowest_scan(
                submitted_bids(release),
                v.currency,
                self.default_currency(),
            );
            IndicatorsView {
                currency: m,
                results: if disqualified {
                    v.results.insert((Group::OCID, ocid, Indicator::R036), 1)
                } else {
                    v.results
                },
                ..v
            }
        } else {
            v
        }
    }

    /// The default main currency.
    pub closed spec fn default_currency(&self) -> Option<Seq<char>> {
        currency_view(self.default_currency)
    }

    /// Reads the main currency from the settings.
    pub fn new(settings: &mut Settings) -> (r: Self)
        ensures
            r.default_currency() == currency_view(old(settings).currency),
            *final(settings) == *old(settings),
    {
        R036 { default_currency: settings.currency.clone() }
    }

    /// Flags the contracting process `ocid` if its lowest submitted bid in the main currency is
    /// disqualified, some award is complete, and some valid bid has an amount. Settles the main
    /// currency on the first bid.
    pub fn fold(&self, item: &mut Indicators, release: &Json, ocid: &str)
        requires
            old(item).wf(),
        ensures
            final(item).wf(),
            final(item).results.extends(old(item).results),
            final(item)@ == self.next(old(item)@, *release, ocid@),
    {
        let awards = match release.get_array("awards") {
            Some(awards) => awards,
            None => {
                return;
            },
        };
        let mut any = false;
        let mut i: usize = 0;
        while i < awards.len()
            invariant
                item.results == old(item).results,
                i <= awards@.len(),
                any == exists|j: int| 0 <= j < i && #[trigger] is_active(awards@[j]),
            decreases awards.len() - i,
        {
            if award_is_active(&awards[i]) {
                any = true;
            }
            i += 1;
        }
        if !any {
            assert(!has_complete_award(*release));
            return;
        }
        assert(has_complete_award(*release)) by {
            let j = choose|j: int| 0 <= j < i && #[trigger] is_active(awards@[j]);
            assert(release.array_field("awards"@) == Some(awards@));
            assert(0 <= j < awards@.len() && is_active(awards@[j]));
            let aw = release.array_field("awards"@)->Some_0;
            assert(aw == awards@);
            assert(is_active(aw[j]));
            assert(exists|x: int| 0 <= x < aw.len() && #[trigger] is_active(aw[x]));
        }
        let bids = Indicators::get_submitted_bids(release);
        let ghost all = derefs(bids@);
        let mut valid = false;
        let mut v: usize = 0;
        while v < bids.len()
            invariant
                item.results == old(item).results,
                v <= bids@.len(),
                all == derefs(bids@),
                valid == exists|j: int|
                    0 <= j < v && #[trigger] all[j].string_field("status"@) == Some("valid"@)
                        && bid_value(all[j]) is Some,
            decreases bids.len() - v,
        {
            let bid: &Json = bids[v];
            assert(all[v as int] == *bid);
            if let (Some(status), Some(_)) = (bid.get_string("status"), get_bid_value(bid)) {
                if equals(status.as_str(), "valid") {
                    valid = true;
                }
            }
            v += 1;
        }
        assert(all == submitted_bids(*release));
        if !valid {
            return;
        }
        let mut lowest: Option<u64> = None;
        let mut disqualified = false;
        let mut k: usize = 0;
        assert(all.take(0) =~= Seq::<Json>::empty());
        while k < bids.len()
            invariant
                item.results == old(item).results,
                k <= bids@.len(),
                all == derefs(bids@),
                item.wf(),
                (currency_view(item.currency), lowest, disqualified) == lowest_scan(
                    all.take(k as int),
                    old(item)@.currency,
                    self.default_currency(),
                ),
                item@ == (IndicatorsView { currency: currency_view(item.currency), ..old(item)@ }),
            decreases bids.len() - k,
        {
            let bid: &Json = bids[k];
            assert(all.take(k + 1).drop_last() =~= all.take(k as int));
            assert(all.take(k + 1).last() == *bid);
            if let (Some(status), Some((amount, c))) = (bid.get_string("status"), get_bid_value(bid)) {
                if observe_currency(&mut item.currency, &self.default_currency, c) {
                    let lower = match lowest {
                        Some(other) => amount < other,
                        None => true,
                    };
                    if lower {
                        lowest = Some(amount);
                        disqualified = equals(status.as_str(), "disqualified");
                    }
                }
            }
            k += 1;
        }
        assert(all.take(bids@.len() as int) =~= all);
        assert(all == submitted_bids(*release));
        if disqualified {
            item.results.set(Group::OCID, ocid.to_owned(), Indicator::R036, 1);
        }
    }
}

/// Whether a bid takes part in the comparison of prices in currency `cur`: its status is a string
/// and its value has a numeric amount in `cur`.
pub open spec fn compared(bid: Json, cur: Seq<char>) -> bool {
    &&& bid.string_field("status"@) is Some
    &&& bid_value(bid) matches Some((_, c))
    &&& c == cur
}

/// The amount of a bid's value, as an order key.
pub open spec fn amount_of(bid: Json) -> u64 {
    bid_value(bid)->Some_0.0
}

/// Whether, among the bids compared in `cur`, the first one whose amount is the lowest is
/// disqualified.
pub open spec fn first_lowest_disqualified(bids: Seq<Json>, cur: Seq<char>) -> bool {
    exists|i: int|
        0 <= i < bids.len() && #[trigger] compared(bids[i], cur) && bids[i].string_field("status"@)
            == Some("disqualified"@) && (forall|j: int|
            0 <= j < bids.len() && #[trigger] compared(bids[j], cur) ==> amount_of(bids[i])
                <= amount_of(bids[j])) && (forall|j: int|
            0 <= j < i && #[trigger] compared(bids[j], cur) ==> amount_of(bids[i]) < amount_of(bids[j]))
}

/// Whether some bid is compared in `cur`.
pub open spec fn any_compared(bids: Seq<Json>, cur: Seq<char>) -> bool {
    exists|i: int| 0 <= i < bids.len() && #[trigger] compared(bids[i], cur)
}

proof fn lemma_first_lowest_skip(bids: Seq<Json>, cur: Seq<char>)
    requires
        bids.len() > 0,
        !compared(bids.last(), cur),
    ensures
        first_lowest_disqualified(bids, cur) == first_lowest_disqualified(bids.drop_last(), cur),
        any_compared(bids, cur) == any_compared(bids.drop_last(), cur),
{
    let p = bids.drop_last();
    let n = bids.len() - 1;
    assert forall|j: int| 0 <= j < p.len() implies p[j] == bids[j] by {}
    if first_lowest_disqualified(bids, cur) {
        let i = choose|i: int|
            0 <= i < bids.len() && #[trigger] compared(bids[i], cur) && bids[i].string_field("status"@)
                == Some("disqualified"@) && (forall|j: int|
                0 <= j < bids.len() && #[trigger] compared(bids[j], cur) ==> amount_of(bids[i])
                    <= amount_of(bids[j])) && (forall|j: int|
                0 <= j < i && #[trigger] compared(bids[j], cur) ==> amount_of(bids[i]) < amount_of(
                    bids[j],
                ));
        assert(i < n);
        assert(compared(p[i], cur));
        assert forall|j: int| 0 <= j < p.len() && #[trigger] compared(p[j], cur) implies amount_of(p[i])
            <= amount_of(p[j]) by {
            assert(compared(bids[j], cur));
        }
        assert forall|j: int| 0 <= j < i && #[trigger] compared(p[j], cur) implies amount_of(p[i])
            < amount_of(p[j]) by {
            assert(compared(bids[j], cur));
        }
    }
    if first_lowest_disqualified(p, cur) {
        let i = choose|i: int|
            0 <= i < p.len() && #[trigger] compared(p[i], cur) && p[i].string_field("status"@) == Some(
                "disqualified"@,
            ) && (forall|j: int|
                0 <= j < p.len() && #[trigger] compared(p[j], cur) ==> amount_of(p[i]) <= amount_of(p[j]))
                && (forall|j: int|
                0 <= j < i && #[trigger] compared(p[j], cur) ==> amount_of(p[i]) < amount_of(p[j]));
        assert(compared(bids[i], cur));
        assert forall|j: int| 0 <= j < bids.len() && #[trigger] compared(bids[j], cur) implies amount_of(
            bids[i],
        ) <= amount_of(bids[j]) by {
            assert(compared(p[j], cur));
        }
        assert forall|j: int| 0 <= j < i && #[trigger] compared(bids[j], cur) implies amount_of(bids[i])
            < amount_of(bids[j]) by {
            assert(compared(p[j], cur));
        }
    }
    if any_compared(bids, cur) {
        let i = choose|i: int| 0 <= i < bids.len() && #[trigger] compared(bids[i], cur);
        assert(compared(p[i], cur));
    }
    if any_compared(p, cur) {
        let i = choose|i: int| 0 <= i < p.len() && #[trigger] compared(p[i], cur);
        assert(compared(bids[i], cur));
    }
}

proof fn lemma_first_lowest_new(bids: Seq<Json>, cur: Seq<char>)
    requires
        bids.len() > 0,
        compared(bids.last(), cur),
        forall|j: int|
            0 <= j < bids.len() - 1 && #[trigger] compared(bids[j], cur) ==> amount_of(bids.last())
                < amount_of(bids[j]),
    ensures
        first_lowest_disqualified(bids, cur) == (bids.last().string_field("status"@) == Some(
            "disqualified"@,
        )),
        any_compared(bids, cur),
{
    let n = bids.len() - 1;
    assert(compared(bids[n], cur));
    if bids.last().string_field("status"@) == Some("disqualified"@) {
        assert forall|j: int| 0 <= j < bids.len() && #[trigger] compared(bids[j], cur) implies amount_of(
            bids[n],
        ) <= amount_of(bids[j]) by {}
    }
    if first_lowest_disqualified(bids, cur) {
        let i = choose|i: int|
            0 <= i < bids.len() && #[trigger] compared(bids[i], cur) && bids[i].string_field("status"@)
                == Some("disqualified"@) && (forall|j: int|
                0 <= j < bids.len() && #[trigger] compared(bids[j], cur) ==> amount_of(bids[i])
                    <= amount_of(bids[j])) && (forall|j: int|
                0 <= j < i && #[trigger] compared(bids[j], cur) ==> amount_of(bids[i]) < amount_of(
                    bids[j],
                ));
        if i < n {
            assert(amount_of(bids[i]) <= amount_of(bids[n]));
        }
    }
}

proof fn lemma_first_lowest_not_lower(bids: Seq<Json>, cur: Seq<char>, low: u64)
    requires
        bids.len() > 0,
        compared(bids.last(), cur),
        amount_of(bids.last()) >= low,
        exists|j: int|
            0 <= j < bids.len() - 1 && #[trigger] compared(bids[j], cur) && amount_of(bids[j]) == low,
        forall|j: int|
            0 <= j < bids.len() - 1 && #[trigger] compared(bids[j], cur) ==> low <= amount_of(bids[j]),
    ensures
        first_lowest_disqualified(bids, cur) == first_lowest_disqualified(bids.drop_last(), cur),
        any_compared(bids, cur),
{
    let p = bids.drop_last();
    let n = bids.len() - 1;
    assert forall|j: int| 0 <= j < p.len() implies p[j] == bids[j] by {}
    let k = choose|j: int|
        0 <= j < bids.len() - 1 && #[trigger] compared(bids[j], cur) && amount_of(bids[j]) == low;
    assert(compared(bids[k], cur));
    if first_lowest_disqualified(bids, cur) {
        let i = choose|i: int|
            0 <= i < bids.len() && #[trigger] compared(bids[i], cur) && bids[i].string_field("status"@)
                == Some("disqualified"@) && (forall|j: int|
                0 <= j < bids.len() && #[trigger] compared(bids[j], cur) ==> amount_of(bids[i])
                    <= amount_of(bids[j])) && (forall|j: int|
                0 <= j < i && #[trigger] compared(bids[j], cur) ==> amount_of(bids[i]) < amount_of(
                    bids[j],
                ));
        if i == n {
            assert(amount_of(bids[i]) <= amount_of(bids[k]));
            assert(amount_of(bids[i]) < amount_of(bids[k]));
        }
        assert(i < n);
        assert(compared(p[i], cur));
        assert forall|j: int| 0 <= j < p.len() && #[trigger] compared(p[j], cur) implies amount_of(p[i])
            <= amount_of(p[j]) by {
            assert(compared(bids[j], cur));
        }
        assert forall|j: int| 0 <= j < i && #[trigger] compared(p[j], cur) implies amount_of(p[i])
            < amount_of(p[j]) by {
            assert(compared(bids[j], cur));
        }
    }
    if first_lowest_disqualified(p, cur) {
        let i = choose|i: int|
            0 <= i < p.len() && #[trigger] compared(p[i], cur) && p[i].string_field("status"@) == Some(
                "disqualified"@,
            ) && (forall|j: int|
                0 <= j < p.len() && #[trigger] compared(p[j], cur) ==> amount_of(p[i]) <= amount_of(p[j]))
                && (forall|j: int|
                0 <= j < i && #[trigger] compared(p[j], cur) ==> amount_of(p[i]) < amount_of(p[j]));
        assert(compared(bids[i], cur));
        assert(compared(p[k], cur));
        assert(amount_of(p[i]) <= low);
        assert forall|j: int| 0 <= j < bids.len() && #[trigger] compared(bids[j], cur) implies amount_of(
            bids[i],
        ) <= amount_of(bids[j]) by {
            if j < n {
                assert(compared(p[j], cur));
            }
        }
        assert forall|j: int| 0 <= j < i && #[trigger] compared(bids[j], cur) implies amount_of(bids[i])
            < amount_of(bids[j]) by {
            assert(compared(p[j], cur));
        }
    }
    assert(compared(bids[n], cur));
}

/// The meaning of the scan of submitted bids: the main currency, once settled, stays; the lowest
/// amount is the least amount of the bids compared in the main currency, and the flag tells whether
/// the first bid with that amount is disqualified.
proof fn lemma_lowest_scan_meaning(bids: Seq<Json>, main: Option<Seq<char>>, default: Option<Seq<char>>)
    ensures
        ({
            let (m, lowest, disqualified) = lowest_scan(bids, main, default);
            &&& main is Some ==> m == main
            &&& m is None ==> lowest is None && !disqualified
            &&& m is None ==> forall|i: int|
                0 <= i < bids.len() ==> !(bids[i].string_field("status"@) is Some && #[trigger] bid_value(
                    bids[i],
                ) is Some)
            &&& m matches Some(cur) ==> {
                &&& (lowest is Some <==> any_compared(bids, cur))
                &&& lowest matches Some(a) ==> (forall|j: int|
                    0 <= j < bids.len() && #[trigger] compared(bids[j], cur) ==> a <= amount_of(bids[j]))
                    && (exists|j: int|
                    0 <= j < bids.len() && #[trigger] compared(bids[j], cur) && amount_of(bids[j]) == a)
                &&& disqualified == first_lowest_disqualified(bids, cur)
            }
        }),
    decreases bids.len(),
{
    if bids.len() > 0 {
        let p = bids.drop_last();
        let n = bids.len() - 1;
        lemma_lowest_scan_meaning(p, main, default);
        assert forall|j: int| 0 <= j < p.len() implies p[j] == bids[j] by {}
        let (m, lowest, dq) = lowest_scan(p, main, default);
        let bid = bids.last();
        assert(bid == bids[n]);
        match (bid.string_field("status"@), bid_value(bid)) {
            (Some(status), Some((amount, c))) => {
                let settled = observed_currency(m, default, c);
                if m is None {
                    assert forall|j: int| 0 <= j < p.len() implies !#[trigger] compared(p[j], settled) by {
                        assert(!(p[j].string_field("status"@) is Some && bid_value(p[j]) is Some));
                    }
                    assert forall|j: int| 0 <= j < n implies !#[trigger] compared(bids[j], settled) by {
                        assert(!compared(p[j], settled));
                    }
                    if c == settled {
                        lemma_first_lowest_new(bids, settled);
                        assert(amount_of(bids[n]) == amount);
                    } else {
                        assert(!compared(bids.last(), settled));
                        lemma_first_lowest_skip(bids, settled);
                        assert(!first_lowest_disqualified(p, settled));
                        assert(!any_compared(p, settled));
                    }
                } else {
                    let cur = m->Some_0;
                    assert(settled == cur);
                    if c == cur {
                        assert(compared(bids[n], cur));
                        assert(amount_of(bids[n]) == amount);
                        if lowest is None || amount < lowest->Some_0 {
                            assert forall|j: int|
                                0 <= j < bids.len() - 1 && #[trigger] compared(bids[j], cur) implies amount_of(
                                bids.last(),
                            ) < amount_of(bids[j]) by {
                                assert(compared(p[j], cur));
                                if lowest is None {
                                    assert(any_compared(p, cur));
                                }
                            }
                            lemma_first_lowest_new(bids, cur);
                            assert forall|j: int|
                                0 <= j < bids.len() && #[trigger] compared(bids[j], cur) implies amount
                                <= amount_of(bids[j]) by {
                                if j < n {
                                    assert(compared(p[j], cur));
                                    if lowest is None {
                                        assert(any_compared(p, cur));
                                    }
                                }
                            }
                        } else {
                            let low = lowest->Some_0;
                            let k = choose|j: int|
                                0 <= j < p.len() && #[trigger] compared(p[j], cur) && amount_of(p[j]) == low;
                            assert(compared(bids[k], cur));
                            assert forall|j: int|
                                0 <= j < bids.len() - 1 && #[trigger] compared(bids[j], cur) implies low
                                <= amount_of(bids[j]) by {
                                assert(compared(p[j], cur));
                            }
                            lemma_first_lowest_not_lower(bids, cur, low);
                            assert forall|j: int|
                                0 <= j < bids.len() && #[trigger] compared(bids[j], cur) implies low
                                <= amount_of(bids[j]) by {
                                if j < n {
                                    assert(compared(p[j], cur));
                                }
                            }
                        }
                    } else {
                        assert(!compared(bids.last(), cur));
                        lemma_first_lowest_skip(bids, cur);
                        if lowest is Some {
                            let low = lowest->Some_0;
                            let k = choose|j: int|
                                0 <= j < p.len() && #[trigger] compared(p[j], cur) && amount_of(p[j]) == low;
                            assert(compared(bids[k], cur));
                            assert forall|j: int|
                                0 <= j < bids.len() && #[trigger] compared(bids[j], cur) implies low
                                <= amount_of(bids[j]) by {
                                if j < n {
                                    assert(compared(p[j], cur));
                                }
                            }
                        }
                    }
                }
            },
            _ => {
                if let Some(cur) = m {
                    assert(!compared(bids.last(), cur));
                    lemma_first_lowest_skip(bids, cur);
                    if lowest is Some {
                        let low = lowest->Some_0;
                        let k = choose|j: int|
                            0 <= j < p.len() && #[trigger] compared(p[j], cur) && amount_of(p[j]) == low;
                        assert(compared(bids[k], cur));
                        assert forall|j: int|
                            0 <= j < bids.len() && #[trigger] compared(bids[j], cur) implies low
                            <= amount_of(bids[j]) by {
                            if j < n {
                                assert(compared(p[j], cur));
                            }
                        }
                    }
                } else {
                    assert forall|i: int| 0 <= i < bids.len() implies !(bids[i].string_field("status"@) is Some
                        && #[trigger] bid_value(bids[i]) is Some) by {
                        if i < n {
                            assert(p[i] == bids[i]);
                        }
                    }
                }
            },
        }
    }
}

/// R036 is raised for a contracting process not yet flagged exactly when some award is active,
/// some valid submitted bid has an amount, and, among the submitted bids compared in the main
/// currency, the first one with the lowest amount is disqualified: a disqualified bid that is not
/// the lowest never raises it.
pub proof fn lemma_r036_first_lowest_bid(c: R036, v: IndicatorsView, release: Json, ocid: Seq<char>)
    requires
        !v.results.contains_key((Group::OCID, ocid, Indicator::R036)),
    ensures
        c.next(v, release, ocid).results.contains_key((Group::OCID, ocid, Indicator::R036)) <==> (
        has_complete_award(release) && has_valid_amount(submitted_bids(release)) && (c.next(
            v,
            release,
            ocid,
        ).currency matches Some(cur) && first_lowest_disqualified(submitted_bids(release), cur))),
{
    lemma_lowest_scan_meaning(submitted_bids(release), v.currency, c.default_currency());
}

} // verus!
