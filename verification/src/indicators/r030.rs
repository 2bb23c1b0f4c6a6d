//! R030: Late bid won. The winning bid was received after the submission deadline.
use crate::indicators::release::{
    add_string_ids, awarded_ids, bid_details, get_awarded_ids, get_bid_details, string_ids,
};
use crate::indicators::{
    add_members, add_members_to, outputs, set_outputs, Group, Indicator, Indicators,
    IndicatorsView, MapsView, Settings,
};
use crate::json::{equals, Json};
use crate::sets::{SetTable, StrSet};
use crate::text::{is_after, str_after};
use vstd::prelude::*;

verus! {

/// R030: a valid bid of an awarded supplier is dated after the end of the tender period.
pub struct R030 {}

/// The end of the tender period of a release, if `/tender/tenderPeriod/endDate` is a string.
pub open spec fn tender_end(release: Json) -> Option<Seq<char>> {
    match release.field("tender"@) {
        Some(tender) => if tender is Object {
            tender.nested_string("tenderPeriod"@, "endDate"@)
        } else {
            None
        },
        None => None,
    }
}

/// The awarded tenderers of a late bid: if the bid's status is "valid" and its date, a string,
/// comes after `end`, the identifiers of its tenderers that are among `awarded`.
pub open spec fn late_winners_of(bid: Json, end: Seq<char>, awarded: Set<Seq<char>>) -> Set<Seq<char>> {
    match (bid.string_field("status"@), bid.string_field("date"@), bid.array_field("tenderers"@)) {
        (Some(status), Some(date), Some(tenderers)) => if status == "valid"@ && str_after(date, end) {
            string_ids(tenderers).intersect(awarded)
        } else {
            Set::empty()
        },
        _ => Set::empty(),
    }
}

/// The awarded tenderers of the late bids among some bids.
pub open spec fn late_winners_among(ds: Seq<Json>, end: Seq<char>, awarded: Set<Seq<char>>) -> Set<
    Seq<char>,
>
    decreases ds.len(),
{
    if ds.len() == 0 {
        Set::empty()
    } else {
        late_winners_among(ds.drop_last(), end, awarded).union(late_winners_of(ds.last(), end, awarded))
    }
}

/// The tenderers that R030 flags in a release: the awarded tenderers of bids dated after the end
/// of the tender period; none if the release lacks the end date, the awards or the bids.
pub open spec fn late_winners(release: Json) -> Set<Seq<char>> {
    match (tender_end(release), release.array_field("awards"@), bid_details(release)) {
        (Some(end), Some(awards), Some(details)) => late_winners_among(details, end, awarded_ids(awards)),
        _ => Set::empty(),
    }
}

impl R030 {
    /// The state after looking at the contracting process `ocid`: if winners bid late, R030 is
    /// raised for it and for them, and they are mapped to it.
    pub open spec fn next(&self, v: IndicatorsView, release: Json, ocid: Seq<char>) -> IndicatorsView {
        IndicatorsView {
            results: if late_winners(release).is_empty() {
                v.results
            } else {
                v.results.insert((Group::OCID, ocid, Indicator::R030), 1).union_prefer_right(
                    outputs(Group::Tenderer, late_winners(release), Indicator::R030, 1),
                )
            },
            maps: MapsView {
                ocid_tenderer_r030: if v.map {
                    add_members(v.maps.ocid_tenderer_r030, ocid, late_winners(release))
                } else {
                    v.maps.ocid_tenderer_r030
                },
                ..v.maps
            },
            ..v
        }
    }

    /// R030 has no settings.
    pub fn new(settings: &mut Settings) -> (r: Self)
        ensures
            *final(settings) == *old(settings),
    {
        R030 {}
    }

    /// Flags the contracting process `ocid` and each of its late winners.
    pub fn fold(&self, item: &mut Indicators, release: &Json, ocid: &str)
        requires
            old(item).wf(),
        ensures
            final(item).wf(),
            final(item).results.extends(old(item).results),
            final(item)@ == self.next(old(item)@, *release, ocid@),
    {
        let mut late = StrSet::new();
        if let Some(tender) = release.get_object("tender") {
            if let Some(end_date) = tender.get_nested_string("tenderPeriod", "endDate") {
                if let (Some(awards), Some(details)) = (release.get_array("awards"), get_bid_details(release)) {
                    let awarded = get_awarded_ids(awards);
                    let mut i: usize = 0;
                    assert(details@.take(0) =~= Seq::<Json>::empty());
                    while i < details.len()
                        invariant
                            i <= details@.len(),
                            late.wf(),
                            awarded.wf(),
                            late@ == late_winners_among(details@.take(i as int), end_date@, awarded@),
                        decreases details.len() - i,
                    {
                        let bid = &details[i];
                        assert(details@.take(i + 1).drop_last() =~= details@.take(i as int));
                        assert(details@.take(i + 1).last() == details@[i as int]);
                        let ghost before = late@;
                        if let (Some(status), Some(date), Some(tenderers)) = (
                            bid.get_string("status"),
                            bid.get_string("date"),
                            bid.get_array("tenderers"),
                        ) {
                            if equals(status.as_str(), "valid") && is_after(date.as_str(), end_date.as_str()) {
                                let mut ids = StrSet::new();
                                add_string_ids(tenderers, &mut ids);
                                let n = ids.len();
                                let mut k: usize = 0;
                                proof {
                                    ids.lemma_elements();
                                }
                                assert(ids@ =~= string_ids(tenderers@));
                                while k < n
                                    invariant
                                        n == ids.elements().len(),
                                        k <= n,
                                        ids.wf(),
                                        awarded.wf(),
                                        late.wf(),
                                        forall|x: Seq<char>|
                                            #[trigger] ids@.contains(x) <==> ids.elements().contains(x),
                                        late@ == before.union(
                                            ids.elements().take(k as int).to_set().intersect(awarded@),
                                        ),
                                    decreases n - k,
                                {
                                    let id = ids.element_at(k);
                                    if awarded.contains(id.as_str()) {
                                        late.insert(id.clone());
                                    }
                                    assert(ids.elements().take(k + 1) =~= ids.elements().take(
                                        k as int,
                                    ).push(id@));
                                    proof {
                                        ids.elements().take(k as int).lemma_push_to_set_commute(id@);
                                    }
                                    assert(late@ =~= before.union(
                                        ids.elements().take(k + 1).to_set().intersect(awarded@),
                                    ));
                                    k += 1;
                                }
                                assert(ids.elements().take(n as int) =~= ids.elements());
                                assert(ids.elements().to_set() =~= ids@);
                            }
                        }
                        assert(late@ =~= late_winners_among(details@.take(i + 1), end_date@, awarded@));
                        i += 1;
                    }
                    assert(details@.take(details@.len() as int) =~= details@);
                }
            }
        }
        assert(late@ == late_winners(*release));
        proof {
            late.lemma_elements();
        }
        if late.len() > 0 {
            item.results.set(Group::OCID, ocid.to_owned(), Indicator::R030, 1);
            set_outputs(&mut item.results, Group::Tenderer, &late, Indicator::R030, 1);
            if item.map {
                add_members_to(&mut item.maps.ocid_tenderer_r030, ocid, &late);
            }
        } else {
            assert(late@ =~= Set::<Seq<char>>::empty());
        }
    }
}

impl R030 {
    /// If mapping is on, moves the other state's mappings of flagged contracting processes to
    /// tenderers into this one; where both map a contracting process, the other's mapping is kept.
    pub fn reduce(&self, item: &mut Indicators, other: &mut Indicators)
        requires
            old(item).wf(),
            old(other).wf(),
        ensures
            final(item).wf(),
            final(item).results.extends(old(item).results),
            final(other).wf(),
            final(other)@ == (if old(item)@.map {
                IndicatorsView {
                    maps: MapsView {
                        ocid_tenderer_r030: Map::empty(),
                        ..old(other)@.maps
                    },
                    ..old(other)@
                }
            } else {
                old(other)@
            }),
            final(item)@ == (if old(item)@.map {
                IndicatorsView {
                    maps: MapsView {
                        ocid_tenderer_r030: old(item)@.maps.ocid_tenderer_r030.union_prefer_right(
                            old(other)@.maps.ocid_tenderer_r030,
                        ),
                        ..old(item)@.maps
                    },
                    ..old(item)@
                }
            } else {
                old(item)@
            }),
    {
        if item.map {
            let mut taken = SetTable::new();
            std::mem::swap(&mut taken, &mut other.maps.ocid_tenderer_r030);
            item.maps.ocid_tenderer_r030.extend(taken);
        }
    }
}

} // verus!
