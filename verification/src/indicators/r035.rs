//! R035: All except winning bid disqualified. Bids are disqualified if not submitted by the single
//! tenderer of the winning bid.
use crate::indicators::release::{
    string_ids,
    add_string_ids, awarded_ids, complete_awards_and_bids, derefs, get_awarded_ids_of,
    ids_with_status,
};
use crate::indicators::{
    add_members, add_members_to, Group, Indicator, Indicators, IndicatorsView, MapsView, Settings,
};
use crate::json::{equals, Json};
use crate::sets::{SetTable, StrSet};
use vstd::prelude::*;

verus! {

/// R035: the single valid tenderer is the single awarded supplier, and at least `threshold` other
/// tenderers have disqualified bids.
pub struct R035 {
    threshold: usize,
}

/// The winner that R035 flags in a release, and the number of other tenderers with disqualified
/// bids: if all awards are final, exactly one tenderer has valid bids, it is exactly the set of
/// suppliers of the complete awards, and at least `threshold` other tenderers have disqualified bids.
pub open spec fn r035_outcome(release: Json, threshold: nat) -> Option<(Seq<char>, nat)> {
    match complete_awards_and_bids(release) {
        Some((awards, details)) => {
            let valid = ids_with_status(details, "valid"@);
            let disqualified = ids_with_status(details, "disqualified"@);
            if valid.len() == 1 && valid == awarded_ids(awards) && disqualified.difference(valid).len()
                >= threshold {
                Some((valid.choose(), disqualified.difference(valid).len()))
            } else {
                None
            }
        },
        None => None,
    }
}

impl R035 {
    /// The state after looking at the contracting process `ocid`: if all bids but the winner's
    /// were disqualified, R035 is raised for it, with the number of disqualified tenderers, and
    /// for the winner, who is mapped to it.
    pub open spec fn next(&self, v: IndicatorsView, release: Json, ocid: Seq<char>) -> IndicatorsView {
        match r035_outcome(release, self.threshold()) {
            Some((winner, difference)) => IndicatorsView {
                results: v.results.insert((Group::OCID, ocid, Indicator::R035), difference as u64).insert(
                    (Group::Tenderer, winner, Indicator::R035),
                    0,
                ),
                maps: MapsView {
                    ocid_tenderer_r035: if v.map {
                        add_members(v.maps.ocid_tenderer_r035, ocid, set![winner])
                    } else {
                        v.maps.ocid_tenderer_r035
                    },
                    ..v.maps
                },
                ..v
            },
            None => v,
        }
    }

    /// The minimum number of other tenderers with disqualified bids.
    pub closed spec fn threshold(&self) -> nat {
        self.threshold as nat
    }

    /// Reads the indicator's threshold, which is at least 1 and 1 by default, and takes the
    /// indicator's section out of the settings.
    pub fn new(settings: &mut Settings) -> (r: Self)
        ensures
            r.threshold() == match old(settings).R035 {
                Some(section) => match section.threshold {
                    Some(t) => if t >= 1 {
                        t as nat
                    } else {
                        1
                    },
                    None => 1,
                },
                None => 1,
            },
            *final(settings) == (Settings { R035: None, ..*old(settings) }),
    {
        let threshold = match settings.R035.take() {
            Some(section) => match section.threshold {
                Some(t) => if t >= 1 {
                    t
                } else {
                    1
                },
                None => 1,
            },
            None => 1,
        };
        R035 { threshold }
    }

    /// Flags the contracting process `ocid`, with the number of other tenderers with disqualified
    /// bids, and its winner.
    pub fn fold(&self, item: &mut Indicators, release: &Json, ocid: &str)
        requires
            old(item).wf(),
        ensures
            final(item).wf(),
            final(item).results.extends(old(item).results),
            final(item)@ == self.next(old(item)@, *release, ocid@),
    {
        let (awards, details) = match Indicators::get_complete_awards_and_bids_if_all_awards_final(
            release,
        ) {
            Some(pair) => pair,
            None => {
                return;
            },
        };
        let awarded = get_awarded_ids_of(&awards);
        let mut valid = StrSet::new();
        let mut disqualified = StrSet::new();
        let mut i: usize = 0;
        proof {
            reveal_strlit("valid");
            reveal_strlit("disqualified");
        }
        assert("valid"@[0] == 'v' && "disqualified"@[0] == 'd');
        assert("valid"@ != "disqualified"@);
        assert(details@.take(0) =~= Seq::<Json>::empty());
        while i < details.len()
            invariant
                i <= details@.len(),
                valid.wf(),
                disqualified.wf(),
                "valid"@ != "disqualified"@,
                valid@ == ids_with_status(details@.take(i as int), "valid"@),
                disqualified@ == ids_with_status(details@.take(i as int), "disqualified"@),
            decreases details.len() - i,
        {
            let bid = &details[i];
            assert(details@.take(i + 1).drop_last() =~= details@.take(i as int));
            assert(details@.take(i + 1).last() == details@[i as int]);
            if let (Some(status), Some(tenderers)) = (bid.get_string("status"), bid.get_array("tenderers")) {
                if equals(status.as_str(), "valid") {
                    add_string_ids(tenderers, &mut valid);
                } else if equals(status.as_str(), "disqualified") {
                    add_string_ids(tenderers, &mut disqualified);
                }
            }
            i += 1;
        }
        assert(details@.take(details@.len() as int) =~= details@);
        proof {
            valid.lemma_elements();
            disqualified.lemma_elements();
        }
        if valid.len() != 1 || !valid.same_members(&awarded) {
            return;
        }
        let winner = valid.element_at(0);
        let ghost w = winner@;
        assert(valid@ =~= set![w]) by {
            assert forall|x: Seq<char>| valid@.contains(x) implies x == w by {
                assert(valid.elements().contains(x));
            }
        }
        assert(valid@.choose() == w) by {
            assert(valid@.contains(valid@.choose()));
        }
        let n = disqualified.len();
        let difference = if disqualified.contains(winner.as_str()) {
            n - 1
        } else {
            n
        };
        assert(disqualified@.difference(valid@) =~= disqualified@.remove(w));
        assert(difference == disqualified@.difference(valid@).len());
        if difference >= self.threshold {
            item.results.set(Group::OCID, ocid.to_owned(), Indicator::R035, difference as u64);
            item.results.set(Group::Tenderer, winner.clone(), Indicator::R035, 0);
            if item.map {
                let mut ids = StrSet::new();
                ids.insert(winner.clone());
                assert(ids@ =~= set![w]);
                add_members_to(&mut item.maps.ocid_tenderer_r035, ocid, &ids);
            }
        }
    }
}

impl R035 {
    /// If mapping is on, moves the other state's mappings of flagged contracting processes to
    /// tenderers into this one; where both map a contracting process, the other's mapping is kept.
    pub fn reduce(&self, item: &mut Indicators, other: &mut Indicators)
        requires
            old(item).wf(),
            old(other).wf(),
        ensures
            final(item).wf(),
            final(item).results.extends(old(item).results),
            final(other).wf(),
            final(other)@ == (if old(item)@.map {
                IndicatorsView {
                    maps: MapsView {
                        ocid_tenderer_r035: Map::empty(),
                        ..old(other)@.maps
                    },
                    ..old(other)@
                }
            } else {
                old(other)@
            }),
            final(item)@ == (if old(item)@.map {
                IndicatorsView {
                    maps: MapsView {
                        ocid_tenderer_r035: old(item)@.maps.ocid_tenderer_r035.union_prefer_right(
                            old(other)@.maps.ocid_tenderer_r035,
                        ),
                        ..old(item)@.maps
                    },
                    ..old(item)@
                }
            } else {
                old(item)@
            }),
    {
        if item.map {
            let mut taken = SetTable::new();
            std::mem::swap(&mut taken, &mut other.maps.ocid_tenderer_r035);
            item.maps.ocid_tenderer_r035.extend(taken);
        }
    }
}

proof fn lemma_string_ids_finite(xs: Seq<Json>)
    ensures
        string_ids(xs).finite(),
    decreases xs.len(),
{
    if xs.len() > 0 {
        lemma_string_ids_finite(xs.drop_last());
    }
}

proof fn lemma_ids_with_status_finite(ds: Seq<Json>, status: Seq<char>)
    ensures
        ids_with_status(ds, status).finite(),
    decreases ds.len(),
{
    if ds.len() > 0 {
        lemma_ids_with_status_finite(ds.drop_last(), status);
        if let Some(tenderers) = ds.last().array_field("tenderers"@) {
            lemma_string_ids_finite(tenderers);
        }
    }
}

/// What R035 records for a contracting process: when it raises anything, exactly one tenderer
/// has valid bids, that tenderer is the awarded supplier, its output is 0, and the process's output
/// is the number of tenderers with disqualified bids, the winner left out, which is at least the
/// threshold: a disqualified bid of the winner itself is never counted.
pub proof fn lemma_r035_counts_other_tenderers(c: R035, v: IndicatorsView, release: Json, ocid: Seq<char>)
    ensures
        c.next(v, release, ocid) != v ==> (complete_awards_and_bids(release) matches Some((awards, details))
            && ({
            let valid = ids_with_status(details, "valid"@);
            let disqualified = ids_with_status(details, "disqualified"@);
            let results = c.next(v, release, ocid).results;
            exists|winner: Seq<char>|
                {
                    &&& valid == set![winner]
                    &&& valid == awarded_ids(awards)
                    &&& results[(Group::Tenderer, winner, Indicator::R035)] == 0
                    &&& results[(Group::OCID, ocid, Indicator::R035)] == (if disqualified.contains(
                        winner,
                    ) {
                        disqualified.len() - 1
                    } else {
                        disqualified.len() as int
                    }) as u64
                    &&& (if disqualified.contains(winner) {
                        disqualified.len() - 1
                    } else {
                        disqualified.len() as int
                    }) >= c.threshold()
                }
        })),
{
    if let Some((awards, details)) = complete_awards_and_bids(release) {
        let valid = ids_with_status(details, "valid"@);
        let disqualified = ids_with_status(details, "disqualified"@);
        if valid.len() == 1 && valid == awarded_ids(awards) {
            lemma_ids_with_status_finite(details, "valid"@);
            lemma_ids_with_status_finite(details, "disqualified"@);
            Set::lemma_is_singleton(valid);
            let w = valid.choose();
            assert(valid.contains(w));
            assert(valid =~= set![w]);
            assert(disqualified.difference(valid) =~= disqualified.remove(w));
            let results = c.next(v, release, ocid).results;
            if r035_outcome(release, c.threshold()) is Some {
                assert(results[(Group::Tenderer, w, Indicator::R035)] == 0);
            }
        }
    }
}

} // verus!
