//! R055: the amounts of direct awards, compared with those of open tenders: the amounts of open
//! tenders and of awards to a single supplier, dated within a period, in the main currency.
//!
//! The amounts are gathered here, as order keys; they are summed and compared where results are
//! finalized.
use crate::indicators::release::{
    bid_value, buyer_id, get_bid_value, get_buyer_id, get_procuring_entity_id, procuring_entity_id,
};
use crate::indicators::{currency_view, observe_currency, observed_currency, IndicatorsView, Indicators, Settings};
use crate::json::{equals, Json};
use chrono::Datelike;
use vstd::multiset::Multiset;
use vstd::prelude::*;

verus! {

/// The day, counted from the first day of the common era, of a date and time with an offset
/// written as `%Y-%m-%dT%H:%M:%S%z`; nothing if the text is not such a date.
pub uninterp spec fn offset_date(s: Seq<char>) -> Option<i32>;

/// Reads a date and time with an offset, `%Y-%m-%dT%H:%M:%S%z`, with chrono's
/// `NaiveDate::parse_from_str`, and counts its day from the first day of the common era with
/// chrono's `Datelike::num_days_from_ce`. The contract names the result and says no more of it:
/// chrono's grammar of such dates is not restated here.
#[verifier::external_body]
fn parse_offset_date(s: &str) -> (r: Option<i32>)
    ensures
        r == offset_date(s@),
{
    match chrono::NaiveDate::parse_from_str(s, "%Y-%m-%dT%H:%M:%S%z") {
        Ok(d) => Some(d.num_days_from_ce()),
        Err(_) => None,
    }
}

/// The amounts of some awards, kept for each pair of identifiers, as the list of their additions.
pub struct PairAmounts {
    entries: Vec<(String, String, u64)>,
}

/// The amounts of a pair so far; none for a pair without any.
pub open spec fn amounts_of(
    m: Map<(Seq<char>, Seq<char>), Multiset<u64>>,
    k: (Seq<char>, Seq<char>),
) -> Multiset<u64> {
    if m.contains_key(k) {
        m[k]
    } else {
        Multiset::empty()
    }
}

/// One more amount for a pair.
pub open spec fn add_amount(
    m: Map<(Seq<char>, Seq<char>), Multiset<u64>>,
    k: (Seq<char>, Seq<char>),
    amount: u64,
) -> Map<(Seq<char>, Seq<char>), Multiset<u64>> {
    m.insert(k, amounts_of(m, k).insert(amount))
}

/// The amounts of each pair that a list of additions gathers.
pub open spec fn pairs_map(entries: Seq<(Seq<char>, Seq<char>, u64)>) -> Map<
    (Seq<char>, Seq<char>),
    Multiset<u64>,
>
    decreases entries.len(),
{
    if entries.len() == 0 {
        Map::empty()
    } else {
        add_amount(
            pairs_map(entries.drop_last()),
            (entries.last().0, entries.last().1),
            entries.last().2,
        )
    }
}

impl PairAmounts {
    /// The additions, in order.
    pub closed spec fn entries(&self) -> Seq<(Seq<char>, Seq<char>, u64)> {
        self.entries@.map_values(|e: (String, String, u64)| (e.0@, e.1@, e.2))
    }

    /// The amounts of each pair; their total is what the pair was awarded.
    pub open spec fn view(&self) -> Map<(Seq<char>, Seq<char>), Multiset<u64>> {
        pairs_map(self.entries())
    }

    /// No amounts.
    pub fn new() -> (t: Self)
        ensures
            t@ == Map::<(Seq<char>, Seq<char>), Multiset<u64>>::empty(),
    {
        let t = PairAmounts { entries: Vec::new() };
        assert(t.entries() =~= Seq::<(Seq<char>, Seq<char>, u64)>::empty());
        t
    }

    /// Adds an amount to those of a pair.
    pub fn add(&mut self, a: String, b: String, amount: u64)
        ensures
            final(self)@ == add_amount(old(self)@, (a@, b@), amount),
    {
        let ghost before = self.entries();
        self.entries.push((a, b, amount));
        assert(self.entries().drop_last() =~= before);
    }

    /// The number of additions.
    pub fn len(&self) -> (n: usize)
        ensures
            n == self.entries().len(),
    {
        self.entries.len()
    }

    /// The addition at a position: adding up, for each pair, the amounts of all additions gives
    /// its total.
    pub fn entry_at(&self, i: usize) -> (r: (&String, &String, u64))
        requires
            i < self.entries().len(),
        ensures
            (r.0@, r.1@, r.2) == self.entries()[i as int],
    {
        let e = &self.entries[i];
        (&e.0, &e.1, e.2)
    }
}

/// Whether the procurement method of a release's tender is "direct".
pub open spec fn is_direct(release: Json) -> bool {
    match release.field("tender"@) {
        Some(tender) => tender.string_field("procurementMethod"@) == Some("direct"@),
        None => false,
    }
}

/// Whether the procurement method of a release's tender is "direct".
fn get_is_direct(release: &Json) -> (b: bool)
    ensures
        b == is_direct(*release),
{
    match release.get("tender") {
        Some(tender) => match tender.get_string("procurementMethod") {
            Some(method) => equals(method.as_str(), "direct"),
            None => false,
        },
        None => false,
    }
}

/// R055: gathers the amounts of open tenders and of direct awards within a period.
pub struct R055 {
    start_day: i32,
    end_day: i32,
    default_currency: Option<String>,
}

impl R055 {
    /// The first day of the period, counted from the first day of the common era.
    pub closed spec fn start(&self) -> int {
        self.start_day as int
    }

    /// The last day of the period, counted from the first day of the common era.
    pub closed spec fn end(&self) -> int {
        self.end_day as int
    }

    /// The default main currency.
    pub closed spec fn default_currency(&self) -> Option<Seq<char>> {
        currency_view(self.default_currency)
    }

    /// Whether a day, if any, falls within the period.
    pub open spec fn day_in_period(&self, day: Option<i32>) -> bool {
        match day {
            Some(day) => self.start() <= day <= self.end(),
            None => false,
        }
    }

    /// Whether a date and time falls within the period.
    pub open spec fn in_period(&self, date: Seq<char>) -> bool {
        self.day_in_period(offset_date(date))
    }

    /// The amount and currency of an open tender whose submission period starts within the period.
    pub open spec fn open_tender(&self, release: Json) -> Option<(u64, Seq<char>)> {
        match release.field("tender"@) {
            Some(tender) => match (
                tender.nested_string("tenderPeriod"@, "startDate"@),
                tender.string_field("procurementMethod"@),
            ) {
                (Some(date), Some(method)) => if method == "open"@ && self.in_period(date) {
                    bid_value(tender)
                } else {
                    None
                },
                _ => None,
            },
            None => None,
        }
    }

    /// The supplier, amount and currency of an active award to a single supplier, dated within
    /// the period.
    pub open spec fn direct_award(&self, award: Json) -> Option<(Seq<char>, u64, Seq<char>)> {
        match (award.string_field("status"@), award.array_field("suppliers"@)) {
            (Some(status), Some(suppliers)) => if suppliers.len() == 1 && status == "active"@ {
                match (suppliers[0].string_field("id"@), award.string_field("date"@)) {
                    (Some(supplier), Some(date)) => if self.in_period(date) {
                        match bid_value(award) {
                            Some((amount, currency)) => Some((supplier, amount, currency)),
                            None => None,
                        }
                    } else {
                        None
                    },
                    _ => None,
                }
            } else {
                None
            },
            _ => None,
        }
    }

    /// The state after looking at some awards in order: each direct award settles the main
    /// currency and, in it, sets the amount of its supplier with the buyer and with the procuring
    /// entity, where they have identifiers.
    pub open spec fn awards_next(
        &self,
        awards: Seq<Json>,
        v: IndicatorsView,
        buyer: Option<Seq<char>>,
        entity: Option<Seq<char>>,
    ) -> IndicatorsView
        decreases awards.len(),
    {
        if awards.len() == 0 {
            v
        } else {
            let v = self.awards_next(awards.drop_last(), v, buyer, entity);
            match self.direct_award(awards.last()) {
                Some((supplier, amount, currency)) => {
                    let settled = observed_currency(v.currency, self.default_currency(), currency);
                    if currency == settled {
                        IndicatorsView {
                            currency: Some(settled),
                            r055_supplier_buyer: match buyer {
                                Some(b) => add_amount(v.r055_supplier_buyer, (b, supplier), amount),
                                None => v.r055_supplier_buyer,
                            },
                            r055_supplier_procuring_entity: match entity {
                                Some(e) => add_amount(
                                    v.r055_supplier_procuring_entity,
                                    (e, supplier),
                                    amount,
                                ),
                                None => v.r055_supplier_procuring_entity,
                            },
                            ..v
                        }
                    } else {
                        IndicatorsView { currency: Some(settled), ..v }
                    }
                },
                None => v,
            }
        }
    }

    /// The state after looking at the contracting process `ocid`: an open tender within the
    /// period settles the main currency and, in it, sets the amount of `ocid`; if the process is
    /// direct, each direct award within the period settles the main currency and, in it, adds its
    /// amount to its supplier's with the buyer and with the procuring entity.
    pub open spec fn next(&self, v: IndicatorsView, release: Json, ocid: Seq<char>) -> IndicatorsView {
        let v = match self.open_tender(release) {
            Some((amount, currency)) => {
                let settled = observed_currency(v.currency, self.default_currency(), currency);
                IndicatorsView {
                    currency: Some(settled),
                    r055_open_tender_amount: if currency == settled {
                        v.r055_open_tender_amount.insert(ocid, amount)
                    } else {
                        v.r055_open_tender_amount
                    },
                    ..v
                }
            },
            None => v,
        };
        match release.array_field("awards"@) {
            Some(awards) => if is_direct(release) {
                self.awards_next(awards, v, buyer_id(release), procuring_entity_id(release))
            } else {
                v
            },
            None => v,
        }
    }

    pub proof fn lemma_awards_keep_others(
        &self,
        awards: Seq<Json>,
        v: IndicatorsView,
        buyer: Option<Seq<char>>,
        entity: Option<Seq<char>>,
    )
        ensures
            ({
                let n = self.awards_next(awards, v, buyer, entity);
                n == IndicatorsView {
                    currency: n.currency,
                    r055_supplier_buyer: n.r055_supplier_buyer,
                    r055_supplier_procuring_entity: n.r055_supplier_procuring_entity,
                    ..v
                }
            }),
        decreases awards.len(),
    {
        if awards.len() > 0 {
            self.lemma_awards_keep_others(awards.drop_last(), v, buyer, entity);
        }
    }

    /// R055 changes nothing but the main currency and the amounts it gathers: looking at a
    /// contracting process keeps the results and what the other indicators accumulate.
    pub proof fn lemma_keeps_others(&self)
        ensures
            forall|v: IndicatorsView, release: Json, ocid: Seq<char>|
                #[trigger] self.next(v, release, ocid) == (IndicatorsView {
                    currency: self.next(v, release, ocid).currency,
                    r055_open_tender_amount: self.next(v, release, ocid).r055_open_tender_amount,
                    r055_supplier_buyer: self.next(v, release, ocid).r055_supplier_buyer,
                    r055_supplier_procuring_entity: self.next(
                        v,
                        release,
                        ocid,
                    ).r055_supplier_procuring_entity,
                    ..v
                }),
    {
        assert forall|v: IndicatorsView, release: Json, ocid: Seq<char>|
            #[trigger] self.next(v, release, ocid) == (IndicatorsView {
                currency: self.next(v, release, ocid).currency,
                r055_open_tender_amount: self.next(v, release, ocid).r055_open_tender_amount,
                r055_supplier_buyer: self.next(v, release, ocid).r055_supplier_buyer,
                r055_supplier_procuring_entity: self.next(v, release, ocid).r055_supplier_procuring_entity,
                ..v
            }) by {
            let w = match self.open_tender(release) {
                Some((amount, currency)) => {
                    let settled = observed_currency(v.currency, self.default_currency(), currency);
                    IndicatorsView {
                        currency: Some(settled),
                        r055_open_tender_amount: if currency == settled {
                            v.r055_open_tender_amount.insert(ocid, amount)
                        } else {
                            v.r055_open_tender_amount
                        },
                        ..v
                    }
                },
                None => v,
            };
            if let Some(awards) = release.array_field("awards"@) {
                self.lemma_awards_keep_others(awards, w, buyer_id(release), procuring_entity_id(release));
            }
        }
    }

    /// Reads the period and the main currency from the settings. The period runs from
    /// `start_date`, or else the day a year before `today`, to `end_date`, or else `today`; days
    /// count from the first day of the common era.
    pub fn new(settings: &mut Settings, today: i32) -> (r: Self)
        requires
            today >= i32::MIN + 365,
        ensures
            r.start() == match old(settings).R055 {
                Some(section) => match section.start_date {
                    Some(d) => d as int,
                    None => today - 365,
                },
                None => today - 365,
            },
            r.end() == match old(settings).R055 {
                Some(section) => match section.end_date {
                    Some(d) => d as int,
                    None => today as int,
                },
                None => today as int,
            },
            r.default_currency() == currency_view(old(settings).currency),
            *final(settings) == (Settings { R055: None, ..*old(settings) }),
    {
        let (start_day, end_day) = match &settings.R055 {
            Some(section) => (
                match section.start_date {
                    Some(d) => d,
                    None => today - 365,
                },
                match section.end_date {
                    Some(d) => d,
                    None => today,
                },
            ),
            None => (today - 365, today),
        };
        settings.R055 = None;
        R055 { start_day, end_day, default_currency: settings.currency.clone() }
    }

    /// Whether a day, counted from the first day of the common era, falls within the period;
    /// a date that could not be read does not.
    pub fn is_day_in_period(&self, day: Option<i32>) -> (b: bool)
        ensures
            b == self.day_in_period(day),
    {
        match day {
            Some(day) => self.start_day <= day && day <= self.end_day,
            None => false,
        }
    }

    fn is_in_period(&self, date: &str) -> (b: bool)
        ensures
            b == self.in_period(date@),
    {
        self.is_day_in_period(parse_offset_date(date))
    }

    fn get_open_tender<'a>(&self, release: &'a Json) -> (r: Option<(u64, &'a String)>)
        ensures
            match r {
                Some((amount, currency)) => self.open_tender(*release) == Some((amount, currency@)),
                None => self.open_tender(*release) is None,
            },
    {
        let tender = match release.get("tender") {
            Some(tender) => tender,
            None => {
                return None;
            },
        };
        match (tender.get_nested_string("tenderPeriod", "startDate"), tender.get_string("procurementMethod")) {
            (Some(date), Some(method)) => if equals(method.as_str(), "open") && self.is_in_period(date.as_str()) {
                get_bid_value(tender)
            } else {
                None
            },
            _ => None,
        }
    }

    fn get_direct_award<'a>(&self, award: &'a Json) -> (r: Option<(&'a String, u64, &'a String)>)
        ensures
            match r {
                Some((supplier, amount, currency)) => self.direct_award(*award) == Some(
                    (supplier@, amount, currency@),
                ),
                None => self.direct_award(*award) is None,
            },
    {
        let (status, suppliers) = match (award.get_string("status"), award.get_array("suppliers")) {
            (Some(status), Some(suppliers)) => (status, suppliers),
            _ => {
                return None;
            },
        };
        if suppliers.len() != 1 || !equals(status.as_str(), "active") {
            return None;
        }
        match (suppliers[0].get_string("id"), award.get_string("date")) {
            (Some(supplier), Some(date)) => if self.is_in_period(date.as_str()) {
                match get_bid_value(award) {
                    Some((amount, currency)) => Some((supplier, amount, currency)),
                    None => None,
                }
            } else {
                None
            },
            _ => None,
        }
    }

    /// Gathers the amount of the contracting process `ocid` if it is an open tender within the
    /// period, and, if the process is direct, the amount of each direct award within the period
    /// with the buyer and with the procuring entity, in the main currency, which the first such
    /// amount settles.
    pub fn fold(&self, item: &mut Indicators, release: &Json, ocid: &str)
        requires
            old(item).wf(),
        ensures
            final(item).wf(),
            final(item).results.extends(old(item).results),
            final(item)@ == self.next(old(item)@, *release, ocid@),
    {
        if let Some((amount, currency)) = self.get_open_tender(release) {
            if observe_currency(&mut item.currency, &self.default_currency, currency) {
                item.r055_open_tender_amount.insert(ocid.to_owned(), amount);
            }
        }
        let awards = match release.get_array("awards") {
            Some(awards) => awards,
            None => {
                return;
            },
        };
        if !get_is_direct(release) {
            return;
        }
        let buyer = get_buyer_id(release);
        let entity = get_procuring_entity_id(release);
        let ghost start = item@;
        let mut i: usize = 0;
        assert(awards@.take(0) =~= Seq::<Json>::empty());
        while i < awards.len()
            invariant
                item.results == old(item).results,
                i <= awards@.len(),
                item.wf(),
                item@ == self.awards_next(
                    awards@.take(i as int),
                    start,
                    buyer_id(*release),
                    procuring_entity_id(*release),
                ),
                match buyer {
                    Some(id) => buyer_id(*release) == Some(id@),
                    None => buyer_id(*release) is None,
                },
                match entity {
                    Some(id) => procuring_entity_id(*release) == Some(id@),
                    None => procuring_entity_id(*release) is None,
                },
            decreases awards.len() - i,
        {
            assert(awards@.take(i + 1).drop_last() =~= awards@.take(i as int));
            assert(awards@.take(i + 1).last() == awards@[i as int]);
            if let Some((supplier, amount, currency)) = self.get_direct_award(&awards[i]) {
                if observe_currency(&mut item.currency, &self.default_currency, currency) {
                    if let Some(b) = buyer {
                        item.r055_supplier_buyer.add(b.clone(), supplier.clone(), amount);
                    }
                    if let Some(e) = entity {
                        item.r055_supplier_procuring_entity.add(e.clone(), supplier.clone(), amount);
                    }
                }
            }
            i += 1;
        }
        assert(awards@.take(awards@.len() as int) =~= awards@);
    }
}

/// Only active awards to a single supplier, dated within the period, count: an award whose status
/// is not "active", or that has not exactly one supplier, or whose date is absent or outside the
/// period, adds nothing to the amounts of any pair, wherever it comes among the awards, nor settles
/// the main currency.
pub proof fn lemma_r055_only_active_awards(
    c: R055,
    awards: Seq<Json>,
    award: Json,
    more: Seq<Json>,
    v: IndicatorsView,
    buyer: Option<Seq<char>>,
    entity: Option<Seq<char>>,
)
    requires
        award.string_field("status"@) != Some("active"@) || !(award.array_field("suppliers"@) matches Some(
            suppliers,
        ) && suppliers.len() == 1) || !(award.string_field("date"@) matches Some(date) && c.in_period(
            date,
        )),
    ensures
        c.awards_next(awards.push(award) + more, v, buyer, entity) == c.awards_next(
            awards + more,
            v,
            buyer,
            entity,
        ),
    decreases more.len(),
{
    if more.len() == 0 {
        assert(awards.push(award) + more =~= awards.push(award));
        assert(awards + more =~= awards);
        assert(awards.push(award).drop_last() =~= awards);
    } else {
        lemma_r055_only_active_awards(c, awards, award, more.drop_last(), v, buyer, entity);
        assert((awards.push(award) + more).drop_last() =~= awards.push(award) + more.drop_last());
        assert((awards + more).drop_last() =~= awards + more.drop_last());
        assert((awards.push(award) + more).last() == more.last());
        assert((awards + more).last() == more.last());
    }
}

} // verus!
