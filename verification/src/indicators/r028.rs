//! R028: Identical bid prices. Different tenderers submitted bids with the same price.
use crate::indicators::release::{
    add_string_ids, bid_value, derefs, get_bid_value, matches_details, string_ids, submitted_bids,
};
use crate::indicators::{
    add_members, add_members_to, outputs, set_outputs, Group, Indicator, Indicators,
    IndicatorsView, MapsView, Settings,
};
use crate::json::Json;
use crate::sets::{SetTable, StrSet};
use crate::text::{parse_pipe_separated_value, pipe_set};
use vstd::prelude::*;

verus! {

/// R028: two submitted bids have the same amount and currency, and different sets of tenderers.
pub struct R028 {
    no_price_comparison_procurement_methods: StrSet,
    price_comparison_procurement_methods: StrSet,
}

/// A price: the order key of an amount, and a currency.
pub type Price = (u64, Seq<char>);

/// The price and the tenderers of a bid, if it has an array of tenderers, at least one of which has
/// an identifier, and a value with a numeric amount and a currency.
pub open spec fn priced_bid(bid: Json) -> Option<(Price, Set<Seq<char>>)> {
    match (bid.array_field("tenderers"@), bid_value(bid)) {
        (Some(tenderers), Some((amount, currency))) => if string_ids(tenderers).is_empty() {
            None
        } else {
            Some(((amount, currency), string_ids(tenderers)))
        },
        _ => None,
    }
}

/// The prices and tenderers of the priced bids among some bids, in order.
pub open spec fn priced_bids(bids: Seq<Json>) -> Seq<(Price, Set<Seq<char>>)>
    decreases bids.len(),
{
    if bids.len() == 0 {
        Seq::empty()
    } else {
        match priced_bid(bids.last()) {
            Some(e) => priced_bids(bids.drop_last()).push(e),
            None => priced_bids(bids.drop_last()),
        }
    }
}

/// The tenderers of the last bid at a price, if any.
pub open spec fn last_at(entries: Seq<(Price, Set<Seq<char>>)>, p: Price) -> Option<Set<Seq<char>>>
    decreases entries.len(),
{
    if entries.len() == 0 {
        None
    } else if entries.last().0 == p {
        Some(entries.last().1)
    } else {
        last_at(entries.drop_last(), p)
    }
}

/// The tenderers that R028 flags: for each priced bid, if the last earlier bid at the same price
/// had other tenderers, the tenderers of both bids.
pub open spec fn same_price_tenderers(entries: Seq<(Price, Set<Seq<char>>)>) -> Set<Seq<char>>
    decreases entries.len(),
{
    if entries.len() == 0 {
        Set::empty()
    } else {
        let prev = same_price_tenderers(entries.drop_last());
        let (p, ids) = entries.last();
        match last_at(entries.drop_last(), p) {
            Some(other) => if other != ids {
                prev.union(ids).union(other)
            } else {
                prev
            },
            None => prev,
        }
    }
}

/// The tenderers that R028 flags in a release that takes part in price comparisons.
pub open spec fn identical_price_tenderers(release: Json) -> Set<Seq<char>> {
    same_price_tenderers(priced_bids(submitted_bids(release)))
}

/// The view of a list of prices and tenderers.
pub open spec fn entries_view(entries: Seq<(u64, String, StrSet)>) -> Seq<(Price, Set<Seq<char>>)> {
    entries.map_values(|e: (u64, String, StrSet)| ((e.0, e.1@), e.2@))
}

/// The tenderers of the last entry at a price, if any.
fn find_last(entries: &Vec<(u64, String, StrSet)>, amount: u64, currency: &String) -> (r: Option<usize>)
    ensures
        match r {
            Some(i) => i < entries@.len() && last_at(entries_view(entries@), (amount, currency@))
                == Some(entries@[i as int].2@),
            None => last_at(entries_view(entries@), (amount, currency@)) is None,
        },
{
    let ghost view = entries_view(entries@);
    let mut i = entries.len();
    assert(view.take(i as int) =~= view);
    while i > 0
        invariant
            i <= entries@.len(),
            view == entries_view(entries@),
            last_at(view, (amount, currency@)) == last_at(view.take(i as int), (amount, currency@)),
        decreases i,
    {
        assert(view.take(i as int).drop_last() =~= view.take(i - 1));
        assert(view.take(i as int).last() == view[i - 1]);
        if entries[i - 1].0 == amount && entries[i - 1].1 == *currency {
            return Some(i - 1);
        }
        i -= 1;
    }
    None
}

impl R028 {
    /// The state after looking at the contracting process `ocid`: if prices are compared for it
    /// and different tenderers bid the same price, R028 is raised for it and for those tenderers,
    /// and they are mapped to it.
    pub open spec fn next(&self, v: IndicatorsView, release: Json, ocid: Seq<char>) -> IndicatorsView {
        if !matches_details(release, self.price(), self.no_price())
            || identical_price_tenderers(release).is_empty() {
            v
        } else {
            IndicatorsView {
                results: v.results.insert((Group::OCID, ocid, Indicator::R028), 1).union_prefer_right(
                    outputs(Group::Tenderer, identical_price_tenderers(release), Indicator::R028, 1),
                ),
                maps: MapsView {
                    ocid_tenderer_r028: if v.map {
                        add_members(v.maps.ocid_tenderer_r028, ocid, identical_price_tenderers(release))
                    } else {
                        v.maps.ocid_tenderer_r028
                    },
                    ..v.maps
                },
                ..v
            }
        }
    }

    pub closed spec fn wf(&self) -> bool {
        self.no_price_comparison_procurement_methods.wf()
            && self.price_comparison_procurement_methods.wf()
    }

    /// The procurement method details to leave out of price comparisons.
    pub closed spec fn no_price(&self) -> Set<Seq<char>> {
        self.no_price_comparison_procurement_methods@
    }

    /// The procurement method details to keep in price comparisons.
    pub closed spec fn price(&self) -> Set<Seq<char>> {
        self.price_comparison_procurement_methods@
    }

    /// Reads the price comparison settings.
    pub fn new(settings: &mut Settings) -> (r: Self)
        ensures
            r.wf(),
            r.no_price() == pipe_set(
                match old(settings).no_price_comparison_procurement_methods {
                    Some(v) => Some(v@),
                    None => None,
                },
            ),
            r.price() == pipe_set(
                match old(settings).price_comparison_procurement_methods {
                    Some(v) => Some(v@),
                    None => None,
                },
            ),
            *final(settings) == *old(settings),
    {
        R028 {
            no_price_comparison_procurement_methods: parse_pipe_separated_value(
                settings.no_price_comparison_procurement_methods.clone(),
            ),
            price_comparison_procurement_methods: parse_pipe_separated_value(
                settings.price_comparison_procurement_methods.clone(),
            ),
        }
    }

    /// Flags a contracting process that takes part in price comparisons, and the tenderers of its
    /// bids at identical prices.
    pub fn fold(&self, item: &mut Indicators, release: &Json, ocid: &str)
        requires
            self.wf(),
            old(item).wf(),
        ensures
            final(item).wf(),
            final(item).results.extends(old(item).results),
            final(item)@ == self.next(old(item)@, *release, ocid@),
    {
        if !Indicators::matches_procurement_method_details(
            release,
            &self.price_comparison_procurement_methods,
            &self.no_price_comparison_procurement_methods,
        ) {
            return;
        }
        let bids = Indicators::get_submitted_bids(release);
        let ghost all = derefs(bids@);
        let mut entries: Vec<(u64, String, StrSet)> = Vec::new();
        let mut flagged = StrSet::new();
        let mut k: usize = 0;
        assert(all.take(0) =~= Seq::<Json>::empty());
        assert(entries_view(entries@) =~= Seq::<(Price, Set<Seq<char>>)>::empty());
        while k < bids.len()
            invariant
                k <= bids@.len(),
                all == derefs(bids@),
                flagged.wf(),
                forall|j: int| 0 <= j < entries@.len() ==> (#[trigger] entries@[j]).2.wf(),
                entries_view(entries@) == priced_bids(all.take(k as int)),
                flagged@ == same_price_tenderers(priced_bids(all.take(k as int))),
            decreases bids.len() - k,
        {
            let bid: &Json = bids[k];
            assert(all.take(k + 1).drop_last() =~= all.take(k as int));
            assert(all.take(k + 1).last() == *bid);
            if let (Some(tenderers), Some((amount, currency))) = (bid.get_array("tenderers"), get_bid_value(bid)) {
                let mut ids = StrSet::new();
                add_string_ids(tenderers, &mut ids);
                assert(ids@ =~= string_ids(tenderers@));
                proof {
                    ids.lemma_elements();
                }
                if ids.len() > 0 {
                    assert(ids@.contains(ids.elements()[0]));
                    let ghost before = entries_view(entries@);
                    let ghost e = ((amount, currency@), string_ids(tenderers@));
                    assert(priced_bid(*bid) == Some(e));
                    assert(priced_bids(all.take(k + 1)) == before.push(e));
                    assert(before.push(e).drop_last() =~= before);
                    let ghost prev_flagged = flagged@;
                    match find_last(&entries, amount, currency) {
                        Some(j) => {
                            assert(entries@[j as int].2.wf());
                            if !ids.same_members(&entries[j].2) {
                                flagged.extend(&ids);
                                flagged.extend(&entries[j].2);
                            }
                        },
                        None => {},
                    }
                    assert(flagged@ =~= same_price_tenderers(before.push(e)));
                    entries.push((amount, currency.clone(), ids));
                    assert(entries_view(entries@) =~= before.push(((amount, currency@), string_ids(tenderers@))));
                } else {
                    assert(string_ids(tenderers@).is_empty());
                }
            }
            k += 1;
        }
        assert(all.take(bids@.len() as int) =~= all);
        assert(flagged@ == identical_price_tenderers(*release));
        proof {
            flagged.lemma_elements();
        }
        if flagged.len() > 0 {
            item.results.set(Group::OCID, ocid.to_owned(), Indicator::R028, 1);
            set_outputs(&mut item.results, Group::Tenderer, &flagged, Indicator::R028, 1);
            if item.map {
                add_members_to(&mut item.maps.ocid_tenderer_r028, ocid, &flagged);
            }
        } else {
            assert(flagged@ =~= Set::<Seq<char>>::empty());
        }
    }
}

impl R028 {
    /// If mapping is on, moves the other state's mappings of flagged contracting processes to
    /// tenderers into this one; where both map a contracting process, the other's mapping is kept.
    pub fn reduce(&self, item: &mut Indicators, other: &mut Indicators)
        requires
            old(item).wf(),
            old(other).wf(),
        ensures
            final(item).wf(),
            final(item).results.extends(old(item).results),
            final(other).wf(),
            final(other)@ == (if old(item)@.map {
                IndicatorsView {
                    maps: MapsView {
                        ocid_tenderer_r028: Map::empty(),
                        ..old(other)@.maps
                    },
                    ..old(other)@
                }
            } else {
                old(other)@
            }),
            final(item)@ == (if old(item)@.map {
                IndicatorsView {
                    maps: MapsView {
                        ocid_tenderer_r028: old(item)@.maps.ocid_tenderer_r028.union_prefer_right(
                            old(other)@.maps.ocid_tenderer_r028,
                        ),
                        ..old(item)@.maps
                    },
                    ..old(item)@
                }
            } else {
                old(item)@
            }),
    {
        if item.map {
            let mut taken = SetTable::new();
            std::mem::swap(&mut taken, &mut other.maps.ocid_tenderer_r028);
            item.maps.ocid_tenderer_r028.extend(taken);
        }
    }
}

} // verus!
