//! R018: Single bid received. Only one tenderer submitted a bid.
use crate::indicators::release::matches_method;
use crate::indicators::{Group, Indicator, Indicators, IndicatorsView, Settings};
use crate::json::Json;
use crate::sets::StrSet;
use crate::text::{parse_pipe_separated_value, pipe_set};
use vstd::prelude::*;

verus! {

/// R018: the number of tenderers of a tender, with a matching procurement method, is one.
pub struct R018 {
    procurement_methods: StrSet,
}

/// Whether R018 flags a release: its tender is an object, the tender's procurement method is among
/// `methods` (or `methods` is empty), and `/tender/numberOfTenderers` is the number 1.
pub open spec fn r018_flags(release: Json, methods: Set<Seq<char>>) -> bool {
    match release.field("tender"@) {
        Some(tender) => tender is Object && matches_method(tender, methods) && match tender.field(
            "numberOfTenderers"@,
        ) {
            Some(Json::Number(n)) => n.as_u64 == Some(1u64),
            _ => false,
        },
        None => false,
    }
}

impl R018 {
    /// The state after looking at the contracting process `ocid`: R018 is raised for it if the
    /// release is flagged.
    pub open spec fn next(&self, v: IndicatorsView, release: Json, ocid: Seq<char>) -> IndicatorsView {
        IndicatorsView {
            results: if r018_flags(release, self.methods()) {
                v.results.insert((Group::OCID, ocid, Indicator::R018), 1)
            } else {
                v.results
            },
            ..v
        }
    }

    pub closed spec fn wf(&self) -> bool {
        self.procurement_methods.wf()
    }

    /// The procurement methods to which the indicator applies.
    pub closed spec fn methods(&self) -> Set<Seq<char>> {
        self.procurement_methods@
    }

    /// Reads the indicator's section of the settings, and takes it out of them. Without a list of
    /// procurement methods, the indicator applies to "open" and "selective".
    pub fn new(settings: &mut Settings) -> (r: Self)
        ensures
            r.wf(),
            r.methods() == pipe_set(
                Some(
                    match old(settings).R018 {
                        Some(section) => match section.procurement_methods {
                            Some(m) => m@,
                            None => "open|selective"@,
                        },
                        None => "open|selective"@,
                    },
                ),
            ),
            *final(settings) == (Settings { R018: None, ..*old(settings) }),
    {
        let methods = match settings.R018.take() {
            Some(section) => match section.procurement_methods {
                Some(m) => m,
                None => "open|selective".to_owned(),
            },
            None => "open|selective".to_owned(),
        };
        R018 { procurement_methods: parse_pipe_separated_value(Some(methods)) }
    }

    /// Flags the contracting process `ocid` if R018 flags its release.
    pub fn fold(&self, item: &mut Indicators, release: &Json, ocid: &str)
        requires
            self.wf(),
            old(item).wf(),
        ensures
            final(item).wf(),
            final(item).results.extends(old(item).results),
            final(item)@ == self.next(old(item)@, *release, ocid@),
    {
        if let Some(tender) = release.get_object("tender") {
            if Indicators::matches_procurement_method(tender, &self.procurement_methods) {
                if let Some(Json::Number(n)) = tender.get("numberOfTenderers") {
                    if let Some(1) = n.as_u64 {
                        item.results.set(Group::OCID, ocid.to_owned(), Indicator::R018, 1);
                        return;
                    }
                }
            }
        }
    }
}

/// R018 is raised for a contracting process exactly when its tender is an object whose procurement
/// method matches and whose `numberOfTenderers` is the number 1: no other count, and nothing that
/// is not a number, raises it.
pub proof fn lemma_r018_single_tenderer(c: R018, v: IndicatorsView, release: Json, ocid: Seq<char>)
    ensures
        ({
            let k = (Group::OCID, ocid, Indicator::R018);
            let raised = c.next(v, release, ocid).results.contains_key(k) && !v.results.contains_key(k);
            let single = (release.field("tender"@) matches Some(tender) && tender is Object
                && matches_method(tender, c.methods()) && (tender.field("numberOfTenderers"@) matches Some(
                Json::Number(n),
            ) && n.as_u64 == Some(1u64)));
            &&& raised ==> single
            &&& single ==> c.next(v, release, ocid).results[k] == 1
            &&& !single ==> c.next(v, release, ocid).results == v.results
        }),
{
}

} // verus!
