//! R003: Short submission period. The submission period is too short.
use crate::indicators::release::matches_method;
use crate::indicators::{Group, Indicator, Indicators, IndicatorsView, Settings};
use crate::json::Json;
use crate::sets::StrSet;
use crate::table::Table;
use crate::text::{parse_pipe_separated_value, pipe_set};
use chrono::{Datelike, Timelike};
use vstd::prelude::*;

verus! {

/// An instant in UTC: the day counted from the common era, the second of the day, and the
/// nanosecond of the second (at least one second's worth during a leap second).
pub type Instant = (i64, u32, u32);

/// What `chrono::DateTime::parse_from_rfc3339` gives for a string, as an instant in UTC; nothing
/// if the string is not an RFC 3339 date and time.
pub uninterp spec fn rfc3339_instant(s: Seq<char>) -> Option<Instant>;

/// `chrono::DateTime::parse_from_rfc3339`, with the parsed date and time converted to UTC and taken
/// apart into its day number, second of the day and nanosecond. The contract only names the
/// result; which strings parse, and to what, is chrono's RFC 3339 grammar, not spelled out here.
#[verifier::external_body]
fn parse_rfc3339(s: &str) -> (r: Option<Instant>)
    ensures
        r == rfc3339_instant(s@),
{
    match chrono::DateTime::parse_from_rfc3339(s) {
        Ok(d) => {
            let utc = d.naive_utc();
            Some((utc.date().num_days_from_ce() as i64, utc.time().num_seconds_from_midnight(), utc.time().nanosecond()))
        },
        Err(_) => None,
    }
}

/// Integer division rounding toward zero, as Rust's `/` on signed integers.
pub open spec fn div_toward_zero(a: int, b: int) -> int {
    if a >= 0 {
        a / b
    } else {
        -((-a) / b)
    }
}

/// The whole number of days from `start` to `end`, as chrono's `(end - start).num_days()` computes
/// it: the signed duration in seconds and nanoseconds, with a pending leap second counted, its
/// whole seconds rounded toward zero, then divided by 86400 toward zero.
pub open spec fn whole_days(start: Instant, end: Instant) -> int {
    let date_secs = (end.0 - start.0) * 86400;
    let secs = (end.1 - start.1) + if end.1 > start.1 && start.2 >= 1_000_000_000 {
        1int
    } else if end.1 < start.1 && end.2 >= 1_000_000_000 {
        -1int
    } else {
        0int
    };
    let frac = end.2 - start.2;
    let total = date_secs + secs + frac / 1_000_000_000;
    let nanos = frac % 1_000_000_000;
    let seconds = if total < 0 && nanos > 0 {
        total + 1
    } else {
        total
    };
    div_toward_zero(seconds, 86400)
}

/// R003: the number of days of the tender period is less than a threshold.
pub struct R003 {
    threshold: i64,
    procurement_methods: StrSet,
    procurement_method_details: Table<i64>,
}

/// The minimum number of days of a tender's submission period: the threshold for its procurement
/// method details, if there is one, or else `threshold`.
pub open spec fn threshold_for(tender: Json, threshold: i64, thresholds: Map<Seq<char>, i64>) -> i64 {
    match tender.string_field("procurementMethodDetails"@) {
        Some(d) => if thresholds.contains_key(d) {
            thresholds[d]
        } else {
            threshold
        },
        None => threshold,
    }
}

/// Whether R003 flags a release: its tender is an object with a matching procurement method, its
/// tender period has a start date and an end date in RFC 3339, and the whole number of days between
/// them is less than the threshold for the tender's procurement method details, or else `threshold`.
pub open spec fn r003_flags(
    release: Json,
    methods: Set<Seq<char>>,
    threshold: i64,
    thresholds: Map<Seq<char>, i64>,
) -> bool {
    match release.field("tender"@) {
        Some(tender) => {
            &&& tender is Object
            &&& matches_method(tender, methods)
            &&& match (
                tender.nested_string("tenderPeriod"@, "startDate"@),
                tender.nested_string("tenderPeriod"@, "endDate"@),
            ) {
                (Some(start), Some(end)) => match (rfc3339_instant(start), rfc3339_instant(end)) {
                    (Some(s), Some(e)) => whole_days(s, e) < threshold_for(tender, threshold, thresholds),
                    _ => false,
                },
                _ => false,
            }
        },
        None => false,
    }
}

/// The whole number of days from `start` to `end`.
pub fn days_between(start: Instant, end: Instant) -> (r: i128)
    ensures
        r == whole_days(start, end),
{
    let date_secs: i128 = (end.0 as i128 - start.0 as i128) * 86400;
    let mut secs: i128 = end.1 as i128 - start.1 as i128;
    if end.1 > start.1 && start.2 >= 1_000_000_000 {
        secs = secs + 1;
    } else if end.1 < start.1 && end.2 >= 1_000_000_000 {
        secs = secs - 1;
    }
    let frac: i128 = end.2 as i128 - start.2 as i128;
    // Shift the difference of nanoseconds up so that it is not negative, divide, and shift back.
    let shifted: i128 = frac + 5_000_000_000;
    let quotient: i128 = shifted / 1_000_000_000;
    let nanos: i128 = shifted % 1_000_000_000;
    let whole: i128 = quotient - 5;
    proof {
        vstd::arithmetic::div_mod::lemma_fundamental_div_mod(shifted as int, 1_000_000_000);
        vstd::arithmetic::div_mod::lemma_fundamental_div_mod_converse(
            frac as int,
            1_000_000_000,
            whole as int,
            nanos as int,
        );
    }
    let total: i128 = date_secs + secs + whole;
    let seconds: i128 = if total < 0 && nanos > 0 {
        total + 1
    } else {
        total
    };
    if seconds >= 0 {
        seconds / 86400
    } else {
        -((-seconds) / 86400)
    }
}

impl R003 {
    /// The state after looking at the contracting process `ocid`: R003 is raised for it if the
    /// release is flagged.
    pub open spec fn next(&self, v: IndicatorsView, release: Json, ocid: Seq<char>) -> IndicatorsView {
        IndicatorsView {
            results: if r003_flags(release, self.methods(), self.threshold(), self.thresholds()) {
                v.results.insert((Group::OCID, ocid, Indicator::R003), 1)
            } else {
                v.results
            },
            ..v
        }
    }

    pub closed spec fn wf(&self) -> bool {
        self.procurement_methods.wf() && self.procurement_method_details.wf()
    }

    /// The procurement methods to which the indicator applies; all, if empty.
    pub closed spec fn methods(&self) -> Set<Seq<char>> {
        self.procurement_methods@
    }

    /// The default minimum number of days.
    pub closed spec fn threshold(&self) -> i64 {
        self.threshold
    }

    /// The minimum number of days for each value of the procurement method details.
    pub closed spec fn thresholds(&self) -> Map<Seq<char>, i64> {
        self.procurement_method_details@
    }

    /// Reads the indicator's section of the settings, and takes it out of them. The default
    /// threshold is 15 days; without procurement methods, the indicator applies to all of them.
    pub fn new(settings: &mut Settings) -> (r: Self)
        requires
            old(settings).R003 matches Some(section) ==> section.procurement_method_details matches Some(
                t,
            ) ==> t.wf(),
        ensures
            r.wf(),
            *final(settings) == (Settings { R003: None, ..*old(settings) }),
            r.threshold() == match old(settings).R003 {
                Some(section) => match section.threshold {
                    Some(t) => t,
                    None => 15,
                },
                None => 15,
            },
            r.methods() == match old(settings).R003 {
                Some(section) => pipe_set(
                    match section.procurement_methods {
                        Some(m) => Some(m@),
                        None => None,
                    },
                ),
                None => Set::empty(),
            },
            r.thresholds() == match old(settings).R003 {
                Some(section) => match section.procurement_method_details {
                    Some(t) => t@,
                    None => Map::empty(),
                },
                None => Map::empty(),
            },
    {
        match settings.R003.take() {
            Some(section) => R003 {
                threshold: match section.threshold {
                    Some(t) => t,
                    None => 15,
                },
                procurement_methods: parse_pipe_separated_value(section.procurement_methods),
                procurement_method_details: match section.procurement_method_details {
                    Some(t) => t,
                    None => Table::new(),
                },
            },
            None => R003 {
                threshold: 15,
                procurement_methods: StrSet::new(),
                procurement_method_details: Table::new(),
            },
        }
    }

    /// Whether a tender's submission period from `start` to `end` is too short: its whole number
    /// of days is less than the threshold for the tender.
    pub fn is_short(&self, tender: &Json, start: Instant, end: Instant) -> (r: bool)
        requires
            self.wf(),
        ensures
            r == (whole_days(start, end) < threshold_for(*tender, self.threshold(), self.thresholds())),
    {
        let duration = days_between(start, end);
        let threshold: i64 = match tender.get_string("procurementMethodDetails") {
            Some(details) => match self.procurement_method_details.get(details.as_str()) {
                Some(t) => *t,
                None => self.threshold,
            },
            None => self.threshold,
        };
        duration < threshold as i128
    }

    /// Flags the contracting process `ocid` if its submission period is too short.
    pub fn fold(&self, item: &mut Indicators, release: &Json, ocid: &str)
        requires
            self.wf(),
            old(item).wf(),
        ensures
            final(item).wf(),
            final(item).results.extends(old(item).results),
            final(item)@ == self.next(old(item)@, *release, ocid@),
    {
        let tender = match release.get_object("tender") {
            Some(tender) => tender,
            None => {
                return;
            },
        };
        if !Indicators::matches_procurement_method(tender, &self.procurement_methods) {
            return;
        }
        let (start, end) = match (
            tender.get_nested_string("tenderPeriod", "startDate"),
            tender.get_nested_string("tenderPeriod", "endDate"),
        ) {
            (Some(start), Some(end)) => (start, end),
            _ => {
                return;
            },
        };
        let (s, e) = match (parse_rfc3339(start.as_str()), parse_rfc3339(end.as_str())) {
            (Some(s), Some(e)) => (s, e),
            _ => {
                return;
            },
        };
        if self.is_short(tender, s, e) {
            item.results.set(Group::OCID, ocid.to_owned(), Indicator::R003, 1);
        }
    }
}

} // verus!
