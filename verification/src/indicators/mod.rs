//! Procurement indicators: settings, results, and the state that the indicators accumulate
//! over the contracting processes of a file.
pub mod count;
pub mod fraction;
pub mod order;
pub mod r003;
pub mod r018;
pub mod r025;
pub mod r028;
pub mod r030;
pub mod r035;
pub mod r036;
pub mod r038;
pub mod r044;
pub mod r048;
pub mod r055;
pub mod release;
pub mod results;
pub mod run;
pub mod util;

use crate::indicators::count::CountTable;
use crate::indicators::fraction::{Counts, FractionTable};
use crate::indicators::r055::PairAmounts;
use crate::indicators::results::Results;
use crate::sets::{SetTable, StrSet};
use crate::table::Table;
use vstd::multiset::Multiset;
use vstd::prelude::*;

verus! {

// Settings.

/// A codelist whose codes the prepare command can replace.
#[derive(Clone, Copy, Debug, PartialEq, Eq, Hash, Structural)]
pub enum Codelist {
    BidStatus,
    AwardStatus,
}

/// Default values that the prepare command fills in.
pub struct Defaults {
    pub currency: Option<String>,
    pub item_classification_scheme: Option<String>,
    pub bid_status: Option<String>,
    pub award_status: Option<String>,
    pub party_roles: Option<bool>,
}

/// Values that the prepare command treats as redacted.
pub struct Redactions {
    pub amount: Option<String>,
    pub organization_id: Option<String>,
}

/// Corrections that the prepare command makes.
pub struct Corrections {
    pub award_status_by_contract_status: Option<bool>,
}

/// Modifications that the prepare command makes.
pub struct Modifications {
    pub move_auctions: Option<bool>,
    pub prefix_buyer_or_procuring_entity_id: Option<String>,
    pub prefix_tenderer_or_supplier_id: Option<String>,
    pub split_procurement_method_details: Option<String>,
}

/// Contracting processes to leave out of all indicators.
pub struct Exclusions {
    /// A pipe-separated list of values of `/tender/procurementMethodDetails`.
    pub procurement_method_details: Option<String>,
}

/// The section of an indicator without settings.
pub struct Empty {}

/// The section of an indicator whose threshold is a count.
pub struct IntegerThreshold {
    pub threshold: Option<usize>,
}

/// The settings of R003 (short submission period).
pub struct R003 {
    /// The minimum number of days of the submission period.
    pub threshold: Option<i64>,
    /// A pipe-separated list of procurement methods to which the indicator applies.
    pub procurement_methods: Option<String>,
    /// The minimum number of days for each value of `/tender/procurementMethodDetails`.
    pub procurement_method_details: Option<Table<i64>>,
}

/// The settings of R018 (single bid received).
pub struct R018 {
    /// A pipe-separated list of procurement methods to which the indicator applies.
    pub procurement_methods: Option<String>,
}

/// The settings of R038 (excessive disqualified bids).
pub struct R038 {
    /// The minimum number of submitted bids of a contracting process that counts.
    pub minimum_submitted_bids: Option<usize>,
    /// The minimum number of contracting processes of an organization whose ratio counts.
    pub minimum_contracting_processes: Option<usize>,
}

/// The settings of R048 (heterogeneous supplier).
pub struct R048 {
    /// The number of leading characters of a classification code that identify its kind.
    pub digits: Option<usize>,
    pub threshold: Option<usize>,
    pub minimum_contracting_processes: Option<usize>,
}

/// The settings of R055 (direct awards compared with open tenders): the period, as days counted
/// from the first day of the common era.
pub struct R055 {
    pub start_date: Option<i32>,
    pub end_date: Option<i32>,
}

/// The settings that the indicators read while they fold over contracting processes.
///
/// A section that is present enables its indicator. Thresholds that apply to ratios and amounts
/// are read where results are finalized, so their sections here only enable their indicators.
#[allow(non_snake_case)]
pub struct Settings {
    /// The main currency.
    pub currency: Option<String>,
    /// A pipe-separated list of procurement method details to leave out of price comparisons.
    pub no_price_comparison_procurement_methods: Option<String>,
    /// A pipe-separated list of procurement method details to keep in price comparisons.
    pub price_comparison_procurement_methods: Option<String>,
    pub exclusions: Option<Exclusions>,
    pub R003: Option<R003>,
    pub R018: Option<R018>,
    pub R024: Option<Empty>,
    pub R025: Option<Empty>,
    pub R028: Option<Empty>,
    pub R030: Option<Empty>,
    pub R035: Option<IntegerThreshold>,
    pub R036: Option<Empty>,
    pub R038: Option<R038>,
    pub R044: Option<Empty>,
    pub R048: Option<R048>,
    pub R055: Option<R055>,
    pub R058: Option<Empty>,
}

// Final results.

/// A group of results: the kind of identifier that a result is about.
#[derive(Clone, Copy, Debug, PartialEq, Eq, Hash, Structural)]
pub enum Group {
    OCID,
    Buyer,
    ProcuringEntity,
    Tenderer,
}

/// An indicator.
#[derive(Clone, Copy, Debug, PartialEq, Eq, Hash, Structural)]
pub enum Indicator {
    R003,
    R018,
    R024,
    R025,
    R028,
    R030,
    R035,
    R036,
    R038,
    R044,
    R048,
    R055,
    R058,
}

/// Mappings from contracting processes to organizations.
pub struct Maps {
    /// The buyer for each `ocid` in which at least one bid is disqualified.
    pub ocid_buyer_r038: Table<String>,
    /// The procuring entity for each `ocid` in which at least one bid is disqualified.
    pub ocid_procuringentity_r038: Table<String>,
    /// The tenderers that submitted bids for each `ocid`.
    pub ocid_tenderer: SetTable,
    /// The flagged tenderers for each flagged `ocid`.
    pub ocid_tenderer_r024: SetTable,
    pub ocid_tenderer_r028: SetTable,
    pub ocid_tenderer_r030: SetTable,
    pub ocid_tenderer_r035: SetTable,
    pub ocid_tenderer_r058: SetTable,
}

/// The mappings, as maps.
pub struct MapsView {
    pub ocid_buyer_r038: Map<Seq<char>, String>,
    pub ocid_procuringentity_r038: Map<Seq<char>, String>,
    pub ocid_tenderer: Map<Seq<char>, Set<Seq<char>>>,
    pub ocid_tenderer_r024: Map<Seq<char>, Set<Seq<char>>>,
    pub ocid_tenderer_r028: Map<Seq<char>, Set<Seq<char>>>,
    pub ocid_tenderer_r030: Map<Seq<char>, Set<Seq<char>>>,
    pub ocid_tenderer_r035: Map<Seq<char>, Set<Seq<char>>>,
    pub ocid_tenderer_r058: Map<Seq<char>, Set<Seq<char>>>,
}

impl Maps {
    pub open spec fn wf(&self) -> bool {
        &&& self.ocid_buyer_r038.wf()
        &&& self.ocid_procuringentity_r038.wf()
        &&& self.ocid_tenderer.wf()
        &&& self.ocid_tenderer_r024.wf()
        &&& self.ocid_tenderer_r028.wf()
        &&& self.ocid_tenderer_r030.wf()
        &&& self.ocid_tenderer_r035.wf()
        &&& self.ocid_tenderer_r058.wf()
    }

    pub open spec fn view(&self) -> MapsView {
        MapsView {
            ocid_buyer_r038: self.ocid_buyer_r038@,
            ocid_procuringentity_r038: self.ocid_procuringentity_r038@,
            ocid_tenderer: self.ocid_tenderer@,
            ocid_tenderer_r024: self.ocid_tenderer_r024@,
            ocid_tenderer_r028: self.ocid_tenderer_r028@,
            ocid_tenderer_r030: self.ocid_tenderer_r030@,
            ocid_tenderer_r035: self.ocid_tenderer_r035@,
            ocid_tenderer_r058: self.ocid_tenderer_r058@,
        }
    }

    /// No mappings.
    pub fn new() -> (m: Self)
        ensures
            m.wf(),
            m@.ocid_buyer_r038 == Map::<Seq<char>, String>::empty(),
            m@.ocid_procuringentity_r038 == Map::<Seq<char>, String>::empty(),
            m@.ocid_tenderer == Map::<Seq<char>, Set<Seq<char>>>::empty(),
            m@.ocid_tenderer_r024 == Map::<Seq<char>, Set<Seq<char>>>::empty(),
            m@.ocid_tenderer_r028 == Map::<Seq<char>, Set<Seq<char>>>::empty(),
            m@.ocid_tenderer_r030 == Map::<Seq<char>, Set<Seq<char>>>::empty(),
            m@.ocid_tenderer_r035 == Map::<Seq<char>, Set<Seq<char>>>::empty(),
            m@.ocid_tenderer_r058 == Map::<Seq<char>, Set<Seq<char>>>::empty(),
    {
        Maps {
            ocid_buyer_r038: Table::new(),
            ocid_procuringentity_r038: Table::new(),
            ocid_tenderer: SetTable::new(),
            ocid_tenderer_r024: SetTable::new(),
            ocid_tenderer_r028: SetTable::new(),
            ocid_tenderer_r030: SetTable::new(),
            ocid_tenderer_r035: SetTable::new(),
            ocid_tenderer_r058: SetTable::new(),
        }
    }
}

/// The outputs `value` of an indicator for each identifier of a group among `ids`.
pub open spec fn outputs(g: Group, ids: Set<Seq<char>>, i: Indicator, value: u64) -> Map<
    (Group, Seq<char>, Indicator),
    u64,
> {
    Map::new(
        |k: (Group, Seq<char>, Indicator)| k.0 == g && ids.contains(k.1) && k.2 == i,
        |k: (Group, Seq<char>, Indicator)| value,
    )
}

/// A table of sets, with `ids` added to the set of `key`; with no `ids`, the table is unchanged.
pub open spec fn add_members(
    m: Map<Seq<char>, Set<Seq<char>>>,
    key: Seq<char>,
    ids: Set<Seq<char>>,
) -> Map<Seq<char>, Set<Seq<char>>> {
    if ids.is_empty() {
        m
    } else {
        m.insert(
            key,
            if m.contains_key(key) {
                m[key]
            } else {
                Set::empty()
            }.union(ids),
        )
    }
}

/// Sets the output `value` of an indicator for each identifier of a group among `ids`.
pub fn set_outputs(results: &mut Results, g: Group, ids: &StrSet, i: Indicator, value: u64)
    requires
        old(results).wf(),
        ids.wf(),
    ensures
        final(results).wf(),
        final(results)@ == old(results)@.union_prefer_right(outputs(g, ids@, i, value)),
        final(results).extends(*old(results)),
{
    let n = ids.len();
    let mut k: usize = 0;
    proof {
        ids.lemma_elements();
    }
    assert(old(results)@ =~= old(results)@.union_prefer_right(
        outputs(g, ids.elements().take(0).to_set(), i, value),
    ));
    while k < n
        invariant
            n == ids.elements().len(),
            k <= n,
            results.wf(),
            ids.wf(),
            forall|x: Seq<char>| #[trigger] ids@.contains(x) <==> ids.elements().contains(x),
            results@ == old(results)@.union_prefer_right(
                outputs(g, ids.elements().take(k as int).to_set(), i, value),
            ),
            results.extends(*old(results)),
        decreases n - k,
    {
        let id = ids.element_at(k);
        let ghost prior = *results;
        results.set(g, id.clone(), i, value);
        proof {
            Results::lemma_extends_trans(*old(results), prior, *results);
        }
        assert(ids.elements().take(k + 1) =~= ids.elements().take(k as int).push(id@));
        proof {
            ids.elements().take(k as int).lemma_push_to_set_commute(id@);
        }
        assert(results@ =~= old(results)@.union_prefer_right(
            outputs(g, ids.elements().take(k + 1).to_set(), i, value),
        ));
        k += 1;
    }
    assert(ids.elements().take(n as int) =~= ids.elements());
    assert(ids.elements().to_set() =~= ids@);
}

/// Adds `ids` to the set of `key`, unless there are no `ids`.
pub fn add_members_to(t: &mut SetTable, key: &str, ids: &StrSet)
    requires
        old(t).wf(),
        ids.wf(),
    ensures
        final(t).wf(),
        final(t)@ == add_members(old(t)@, key@, ids@),
{
    let n = ids.len();
    proof {
        ids.lemma_elements();
    }
    if n == 0 {
        assert(ids@ =~= Set::<Seq<char>>::empty());
        return;
    }
    let existing = match t.get(key) {
        Some(s) => {
            let mut copy = StrSet::new();
            copy.extend(s);
            assert(copy@ =~= s@);
            copy
        },
        None => StrSet::new(),
    };
    let mut merged = existing;
    merged.extend(ids);
    assert(ids@.contains(ids.elements()[0]));
    let ghost m = merged@;
    t.insert(key.to_owned(), merged);
    assert(m =~= if old(t)@.contains_key(key@) {
        old(t)@[key@]
    } else {
        Set::empty()
    }.union(ids@));
}

/// The main currency after observing a value in currency `c`: the main currency so far, or else
/// the default currency, or else `c`.
pub open spec fn observed_currency(
    main: Option<Seq<char>>,
    default: Option<Seq<char>>,
    c: Seq<char>,
) -> Seq<char> {
    match main {
        Some(m) => m,
        None => match default {
            Some(d) => d,
            None => c,
        },
    }
}

/// Settles the main currency on observing a value in currency `c`, and tells whether `c` is the
/// main currency.
pub fn observe_currency(main: &mut Option<String>, default: &Option<String>, c: &String) -> (r: bool)
    ensures
        currency_view(*final(main)) == Some(
            observed_currency(currency_view(*old(main)), currency_view(*default), c@),
        ),
        r == (c@ == observed_currency(currency_view(*old(main)), currency_view(*default), c@)),
{
    if main.is_none() {
        let chosen = match default {
            Some(d) => d.clone(),
            None => c.clone(),
        };
        *main = Some(chosen);
    }
    match main {
        Some(m) => *c == *m,
        None => false,
    }
}

// Accumulated state.

/// The winning bid and the lowest bid of another tenderer, in one contracting process.
pub struct LowestBids {
    pub winner: String,
    /// The order key of the winning amount.
    pub winner_amount: u64,
    pub lowest_non_winner: String,
    /// The order key of the lowest amount of another tenderer.
    pub lowest_non_winner_amount: u64,
}

/// A supplier's number of contracting processes and the kinds of items it supplied.
pub struct Supplies {
    pub count: usize,
    pub codes: StrSet,
}

/// The state that the indicators accumulate over the contracting processes of a file.
pub struct Indicators {
    /// The results that the indicators have raised.
    pub results: Results,
    /// Mappings from contracting processes to organizations.
    pub maps: Maps,
    /// The main currency: the one given in the settings, or else the first observed.
    pub currency: Option<String>,
    /// The winning bid and the second-lowest valid bid for each `ocid`.
    pub lowest_bids: Table<LowestBids>,
    /// The ratio of winning bids to submitted bids for each `bids/details/tenderers/id`.
    pub r025_tenderer: FractionTable,
    /// The ratio of disqualified bids to submitted bids for each `buyer/id`.
    pub r038_buyer: FractionTable,
    /// The ratio of disqualified bids to submitted bids for each `tender/procuringEntity/id`.
    pub r038_procuring_entity: FractionTable,
    /// The ratio of disqualified bids to submitted bids for each `bids/details/tenderers/id`.
    pub r038_tenderer: FractionTable,
    /// The number of contracting processes that R038 counted for each `buyer/id`.
    pub r038_buyer_processes: CountTable,
    /// The number of contracting processes that R038 counted for each `tender/procuringEntity/id`.
    pub r038_procuring_entity_processes: CountTable,
    /// The number of contracting processes that R038 counted for each `bids/details/tenderers/id`.
    pub r038_tenderer_processes: CountTable,
    /// The item classifications for each `awards/suppliers/id`.
    pub r048_classifications: Table<Supplies>,
    /// The amount of each open tender, as an order key, for each `ocid`.
    pub r055_open_tender_amount: Table<u64>,
    /// The amounts of the awards, as order keys, for each pair of `buyer/id` and
    /// `awards/suppliers/id`, when `tender/procurementMethod` is "direct"; their total is what the
    /// pair was awarded.
    pub r055_supplier_buyer: PairAmounts,
    /// The amounts of the awards, as order keys, for each pair of `tender/procuringEntity/id` and
    /// `awards/suppliers/id`, when `tender/procurementMethod` is "direct"; their total is what the
    /// pair was awarded.
    pub r055_supplier_procuring_entity: PairAmounts,
    /// Whether to map contracting processes to organizations.
    pub map: bool,
}

/// The accumulated state, as mathematical values.
pub struct IndicatorsView {
    pub results: Map<(Group, Seq<char>, Indicator), u64>,
    pub maps: MapsView,
    pub currency: Option<Seq<char>>,
    pub lowest_bids: Map<Seq<char>, (Seq<char>, u64, Seq<char>, u64)>,
    pub r025_tenderer: Map<Seq<char>, Counts>,
    pub r038_buyer: Map<Seq<char>, Counts>,
    pub r038_procuring_entity: Map<Seq<char>, Counts>,
    pub r038_tenderer: Map<Seq<char>, Counts>,
    pub r038_buyer_processes: Map<Seq<char>, nat>,
    pub r038_procuring_entity_processes: Map<Seq<char>, nat>,
    pub r038_tenderer_processes: Map<Seq<char>, nat>,
    pub r048_classifications: Map<Seq<char>, (nat, Set<Seq<char>>)>,
    pub r055_open_tender_amount: Map<Seq<char>, u64>,
    pub r055_supplier_buyer: Map<(Seq<char>, Seq<char>), Multiset<u64>>,
    pub r055_supplier_procuring_entity: Map<(Seq<char>, Seq<char>), Multiset<u64>>,
    pub map: bool,
}

/// A currency, as a sequence of characters.
pub open spec fn currency_view(c: Option<String>) -> Option<Seq<char>> {
    match c {
        Some(s) => Some(s@),
        None => None,
    }
}

impl Indicators {
    pub open spec fn wf(&self) -> bool {
        &&& self.results.wf()
        &&& self.maps.wf()
        &&& self.lowest_bids.wf()
        &&& self.r025_tenderer.wf()
        &&& self.r038_buyer.wf()
        &&& self.r038_procuring_entity.wf()
        &&& self.r038_tenderer.wf()
        &&& self.r038_buyer_processes.wf()
        &&& self.r038_procuring_entity_processes.wf()
        &&& self.r038_tenderer_processes.wf()
        &&& self.r048_classifications.wf()
        &&& self.r055_open_tender_amount.wf()
        &&& forall|k: Seq<char>|
            #[trigger] self.r048_classifications@.contains_key(k)
                ==> self.r048_classifications@[k].codes.wf()
    }

    pub open spec fn view(&self) -> IndicatorsView {
        IndicatorsView {
            results: self.results@,
            maps: self.maps@,
            currency: currency_view(self.currency),
            lowest_bids: Map::new(
                |k: Seq<char>| self.lowest_bids@.contains_key(k),
                |k: Seq<char>|
                    (
                        self.lowest_bids@[k].winner@,
                        self.lowest_bids@[k].winner_amount,
                        self.lowest_bids@[k].lowest_non_winner@,
                        self.lowest_bids@[k].lowest_non_winner_amount,
                    ),
            ),
            r025_tenderer: self.r025_tenderer@,
            r038_buyer: self.r038_buyer@,
            r038_procuring_entity: self.r038_procuring_entity@,
            r038_tenderer: self.r038_tenderer@,
            r038_buyer_processes: self.r038_buyer_processes@,
            r038_procuring_entity_processes: self.r038_procuring_entity_processes@,
            r038_tenderer_processes: self.r038_tenderer_processes@,
            r048_classifications: Map::new(
                |k: Seq<char>| self.r048_classifications@.contains_key(k),
                |k: Seq<char>|
                    (
                        self.r048_classifications@[k].count as nat,
                        self.r048_classifications@[k].codes@,
                    ),
            ),
            r055_open_tender_amount: self.r055_open_tender_amount@,
            r055_supplier_buyer: self.r055_supplier_buyer@,
            r055_supplier_procuring_entity: self.r055_supplier_procuring_entity@,
            map: self.map,
        }
    }

    /// An empty state, with the main currency given in the settings, if any.
    pub fn new(currency: Option<String>, map: bool) -> (item: Self)
        ensures
            item.wf(),
            item@ == (IndicatorsView {
                results: Map::empty(),
                maps: MapsView {
                    ocid_buyer_r038: Map::empty(),
                    ocid_procuringentity_r038: Map::empty(),
                    ocid_tenderer: Map::empty(),
                    ocid_tenderer_r024: Map::empty(),
                    ocid_tenderer_r028: Map::empty(),
                    ocid_tenderer_r030: Map::empty(),
                    ocid_tenderer_r035: Map::empty(),
                    ocid_tenderer_r058: Map::empty(),
                },
                currency: currency_view(currency),
                lowest_bids: Map::empty(),
                r025_tenderer: Map::empty(),
                r038_buyer: Map::empty(),
                r038_procuring_entity: Map::empty(),
                r038_tenderer: Map::empty(),
                r038_buyer_processes: Map::empty(),
                r038_procuring_entity_processes: Map::empty(),
                r038_tenderer_processes: Map::empty(),
                r048_classifications: Map::empty(),
                r055_open_tender_amount: Map::empty(),
                r055_supplier_buyer: Map::empty(),
                r055_supplier_procuring_entity: Map::empty(),
                map,
            }),
    {
        let item = Indicators {
            results: Results::new(),
            maps: Maps::new(),
            currency,
            lowest_bids: Table::new(),
            r025_tenderer: FractionTable::new(),
            r038_buyer: FractionTable::new(),
            r038_procuring_entity: FractionTable::new(),
            r038_tenderer: FractionTable::new(),
            r038_buyer_processes: CountTable::new(),
            r038_procuring_entity_processes: CountTable::new(),
            r038_tenderer_processes: CountTable::new(),
            r048_classifications: Table::new(),
            r055_open_tender_amount: Table::new(),
            r055_supplier_buyer: PairAmounts::new(),
            r055_supplier_procuring_entity: PairAmounts::new(),
            map,
        };
        assert(item@.lowest_bids =~= Map::empty());
        assert(item@.r048_classifications =~= Map::empty());
        item
    }
}

} // verus!
