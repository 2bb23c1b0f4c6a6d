use ocdscardinal::indicators::r003::{days_between, R003};
use ocdscardinal::indicators::r018::R018;
use ocdscardinal::indicators::r025::R025;
use ocdscardinal::indicators::r028::R028;
use ocdscardinal::indicators::r030::R030;
use ocdscardinal::indicators::r035::R035;
use ocdscardinal::indicators::r036::R036;
use ocdscardinal::indicators::r038::R038;
use ocdscardinal::indicators::r044::R044;
use ocdscardinal::indicators::r048::R048;
use ocdscardinal::indicators::r055::R055;
use ocdscardinal::indicators::count::CountTable;
use ocdscardinal::sets::StrSet;
use chrono::{Datelike, NaiveDate};
use ocdscardinal::indicators::util::{SecondLowestBidRatio, Tenderers};
use ocdscardinal::indicators::{
    Empty, Group, Indicator, Indicators, IntegerThreshold, Settings, R003 as R003Settings,
    R018 as R018Settings, R038 as R038Settings, R048 as R048Settings, R055 as R055Settings,
};
use ocdscardinal::json::{Json, Number};
use ocdscardinal::table::Table;

fn order_key(f: f64) -> u64 {
    let f = if f == 0.0 { 0.0 } else { f };
    let bits = f.to_bits();
    if bits >> 63 == 1 {
        !bits
    } else {
        bits | (1 << 63)
    }
}

fn convert(v: serde_json::Value) -> Json {
    match v {
        serde_json::Value::Null => Json::Null,
        serde_json::Value::Bool(b) => Json::Bool(b),
        serde_json::Value::Number(n) => Json::Number(Number {
            as_u64: n.as_u64(),
            key: order_key(n.as_f64().unwrap()),
        }),
        serde_json::Value::String(s) => Json::String(s),
        serde_json::Value::Array(a) => Json::Array(a.into_iter().map(convert).collect()),
        serde_json::Value::Object(m) => {
            Json::Object(m.into_iter().map(|(k, v)| (k, convert(v))).collect())
        }
    }
}

fn parse(s: &str) -> Json {
    convert(serde_json::from_str(s).unwrap())
}

fn settings() -> Settings {
    Settings {
        currency: None,
        no_price_comparison_procurement_methods: None,
        price_comparison_procurement_methods: None,
        exclusions: None,
        R003: None,
        R018: None,
        R024: None,
        R025: None,
        R028: None,
        R030: None,
        R035: None,
        R036: None,
        R038: None,
        R044: None,
        R048: None,
        R055: None,
        R058: None,
    }
}

fn period(start: &str, end: &str, extra: &str) -> Json {
    parse(&format!(
        r#"{{"ocid": "a", "tender": {{"procurementMethod": "open", {extra} "tenderPeriod": {{"startDate": "{start}", "endDate": "{end}"}}}}}}"#
    ))
}

fn r003_result(settings: &mut Settings, release: &Json) -> Option<u64> {
    let calculator = R003::new(settings);
    let mut item = Indicators::new(None, false);
    calculator.fold(&mut item, release, "a");
    item.results.get(Group::OCID, "a", Indicator::R003)
}

#[test]
fn r003_short_period_is_flagged() {
    let release = period("2022-01-01T00:00:00Z", "2022-01-11T00:00:00Z", "");
    assert_eq!(r003_result(&mut settings(), &release), Some(1));
}

#[test]
fn r003_long_period_is_not_flagged() {
    let release = period("2022-01-01T00:00:00Z", "2022-01-21T00:00:00Z", "");
    assert_eq!(r003_result(&mut settings(), &release), None);
}

#[test]
fn r003_partial_days_round_toward_zero() {
    // 14 days, 23 hours, 59 minutes and 59 seconds count as 14 days.
    let release = period("2022-01-01T12:00:00Z", "2022-01-16T11:59:59Z", "");
    assert_eq!(r003_result(&mut settings(), &release), Some(1));
    // Exactly 15 days is not less than 15.
    let release = period("2022-01-01T12:00:00Z", "2022-01-16T12:00:00Z", "");
    assert_eq!(r003_result(&mut settings(), &release), None);
}

#[test]
fn r003_offsets_are_converted_to_utc() {
    // 2022-01-16T04:00:00+05:00 is 2022-01-15T23:00:00Z: 14 days and 23 hours.
    let release = period("2022-01-01T00:00:00Z", "2022-01-16T04:00:00+05:00", "");
    assert_eq!(r003_result(&mut settings(), &release), Some(1));
}

#[test]
fn r003_negative_period_is_flagged() {
    let release = period("2022-01-11T00:00:00Z", "2022-01-01T00:00:00Z", "");
    assert_eq!(r003_result(&mut settings(), &release), Some(1));
}

#[test]
fn r003_invalid_dates_are_ignored() {
    let release = period("2022-01-01", "2022-01-02", "");
    assert_eq!(r003_result(&mut settings(), &release), None);
}

#[test]
fn r003_threshold_and_details() {
    let mut s = settings();
    s.R003 = Some(R003Settings {
        threshold: Some(5),
        procurement_methods: None,
        procurement_method_details: None,
    });
    let release = period("2022-01-01T00:00:00Z", "2022-01-11T00:00:00Z", "");
    assert_eq!(r003_result(&mut s, &release), None);

    let mut details = Table::new();
    details.insert("Licitación".to_string(), 20);
    let mut s = settings();
    s.R003 = Some(R003Settings {
        threshold: None,
        procurement_methods: Some("open".to_string()),
        procurement_method_details: Some(details),
    });
    let release = period(
        "2022-01-01T00:00:00Z",
        "2022-01-17T00:00:00Z",
        r#""procurementMethodDetails": "Licitación","#,
    );
    assert_eq!(r003_result(&mut s, &release), Some(1));
    assert!(s.R003.is_none());
}

#[test]
fn r003_other_methods_are_ignored() {
    let mut s = settings();
    s.R003 = Some(R003Settings {
        threshold: None,
        procurement_methods: Some("selective".to_string()),
        procurement_method_details: None,
    });
    let release = period("2022-01-01T00:00:00Z", "2022-01-02T00:00:00Z", "");
    assert_eq!(r003_result(&mut s, &release), None);
}

#[test]
fn r018_single_bid() {
    let mut s = settings();
    s.R018 = Some(R018Settings { procurement_methods: None });
    let calculator = R018::new(&mut s);
    let mut item = Indicators::new(None, false);
    let one = parse(r#"{"tender": {"procurementMethod": "open", "numberOfTenderers": 1}}"#);
    let two = parse(r#"{"tender": {"procurementMethod": "open", "numberOfTenderers": 2}}"#);
    let direct = parse(r#"{"tender": {"procurementMethod": "direct", "numberOfTenderers": 1}}"#);
    calculator.fold(&mut item, &one, "one");
    calculator.fold(&mut item, &two, "two");
    calculator.fold(&mut item, &direct, "direct");
    assert_eq!(item.results.get(Group::OCID, "one", Indicator::R018), Some(1));
    assert_eq!(item.results.get(Group::OCID, "two", Indicator::R018), None);
    assert_eq!(item.results.get(Group::OCID, "direct", Indicator::R018), None);
}

const AWARDED: &str = r#"{
    "awards": [{"status": "active", "suppliers": [{"id": "A"}]}, {"status": "cancelled"}],
    "bids": {"details": [
        {"status": "valid", "tenderers": [{"id": "A"}], "value": {"amount": 100, "currency": "USD"}},
        {"status": "valid", "tenderers": [{"id": "B"}], "value": {"amount": 110, "currency": "USD"}},
        {"status": "valid", "tenderers": [{"id": "B"}], "value": {"amount": 120.5, "currency": "USD"}},
        {"status": "WITHDRAWN", "tenderers": [{"id": "C"}], "value": {"amount": 90, "currency": "USD"}}
    ]}
}"#;

#[test]
fn r025_counts_wins_once_per_process() {
    let mut s = settings();
    s.R025 = Some(Empty {});
    let calculator = R025::new(&mut s);
    let mut item = Indicators::new(None, false);
    let release = parse(AWARDED);
    assert!(calculator.fold(&mut item, &release, "a").is_ok());
    assert!(calculator.fold(&mut item, &release, "b").is_ok());
    let a = item.r025_tenderer.get("A").unwrap();
    assert_eq!((a.numerator, a.denominator), (2, 2));
    let b = item.r025_tenderer.get("B").unwrap();
    assert_eq!((b.numerator, b.denominator), (0, 2));
    assert!(item.r025_tenderer.get("C").is_none());
}

#[test]
fn r025_order_does_not_matter() {
    let calculator = R025::new(&mut settings());
    let first = parse(AWARDED);
    let second = parse(
        r#"{"awards": [{"status": "active", "suppliers": [{"id": "B"}]}],
            "bids": {"details": [
                {"status": "valid", "tenderers": [{"id": "A"}]},
                {"status": "valid", "tenderers": [{"id": "B"}]}
            ]}}"#,
    );
    let mut forward = Indicators::new(None, false);
    assert!(calculator.fold(&mut forward, &first, "a").is_ok());
    assert!(calculator.fold(&mut forward, &second, "b").is_ok());
    let mut backward = Indicators::new(None, false);
    assert!(calculator.fold(&mut backward, &second, "b").is_ok());
    assert!(calculator.fold(&mut backward, &first, "a").is_ok());
    for id in ["A", "B"] {
        assert_eq!(forward.r025_tenderer.get(id), backward.r025_tenderer.get(id));
    }
    let b = forward.r025_tenderer.get("B").unwrap();
    assert_eq!((b.numerator, b.denominator), (1, 2));
}

#[test]
fn r025_pending_award_is_ignored() {
    let calculator = R025::new(&mut settings());
    let mut item = Indicators::new(None, false);
    let release = parse(
        r#"{"awards": [{"status": "pending", "suppliers": [{"id": "A"}]}],
            "bids": {"details": [{"status": "valid", "tenderers": [{"id": "A"}]}]}}"#,
    );
    assert!(calculator.fold(&mut item, &release, "a").is_ok());
    assert_eq!(item.r025_tenderer.len(), 0);
}

#[test]
fn r025_reduce_adds_by_mediant() {
    let calculator = R025::new(&mut settings());
    let release = parse(AWARDED);
    let mut item = Indicators::new(None, false);
    let mut other = Indicators::new(None, false);
    assert!(calculator.fold(&mut item, &release, "a").is_ok());
    assert!(calculator.fold(&mut other, &release, "b").is_ok());
    assert!(calculator.reduce(&mut item, &mut other).is_ok());
    let b = item.r025_tenderer.get("B").unwrap();
    assert_eq!((b.numerator, b.denominator), (0, 2));
}

#[test]
fn r028_identical_prices() {
    let mut s = settings();
    let calculator = R028::new(&mut s);
    let mut item = Indicators::new(None, true);
    let release = parse(
        r#"{"bids": {"details": [
            {"status": "valid", "tenderers": [{"id": "A"}], "value": {"amount": 100, "currency": "USD"}},
            {"status": "valid", "tenderers": [{"id": "B"}], "value": {"amount": 100.0, "currency": "USD"}},
            {"status": "valid", "tenderers": [{"id": "C"}], "value": {"amount": 100, "currency": "EUR"}}
        ]}}"#,
    );
    calculator.fold(&mut item, &release, "a");
    assert_eq!(item.results.get(Group::OCID, "a", Indicator::R028), Some(1));
    assert_eq!(item.results.get(Group::Tenderer, "A", Indicator::R028), Some(1));
    assert_eq!(item.results.get(Group::Tenderer, "B", Indicator::R028), Some(1));
    assert_eq!(item.results.get(Group::Tenderer, "C", Indicator::R028), None);
    let mapped = item.maps.ocid_tenderer_r028.get("a").unwrap();
    assert_eq!(mapped.len(), 2);
    assert!(mapped.contains("A") && mapped.contains("B"));
}

#[test]
fn r028_same_tenderer_may_repeat_a_price() {
    let calculator = R028::new(&mut settings());
    let mut item = Indicators::new(None, false);
    let release = parse(
        r#"{"bids": {"details": [
            {"status": "valid", "tenderers": [{"id": "A"}], "value": {"amount": 100, "currency": "USD"}},
            {"status": "valid", "tenderers": [{"id": "A"}], "value": {"amount": 100, "currency": "USD"}}
        ]}}"#,
    );
    calculator.fold(&mut item, &release, "a");
    assert_eq!(item.results.get(Group::OCID, "a", Indicator::R028), None);
}

#[test]
fn r028_no_price_comparison() {
    let mut s = settings();
    s.no_price_comparison_procurement_methods = Some("Sorteo de Obras".to_string());
    let calculator = R028::new(&mut s);
    let mut item = Indicators::new(None, false);
    let release = parse(
        r#"{"tender": {"procurementMethodDetails": "Sorteo de Obras"}, "bids": {"details": [
            {"status": "valid", "tenderers": [{"id": "A"}], "value": {"amount": 100, "currency": "USD"}},
            {"status": "valid", "tenderers": [{"id": "B"}], "value": {"amount": 100, "currency": "USD"}}
        ]}}"#,
    );
    calculator.fold(&mut item, &release, "a");
    assert_eq!(item.results.get(Group::OCID, "a", Indicator::R028), None);
}

#[test]
fn r030_late_winner() {
    let calculator = R030::new(&mut settings());
    let mut item = Indicators::new(None, true);
    let release = parse(
        r#"{"tender": {"tenderPeriod": {"endDate": "2022-01-10T00:00:00Z"}},
            "awards": [{"status": "active", "suppliers": [{"id": "A"}, {"id": "B"}]}],
            "bids": {"details": [
                {"status": "valid", "date": "2022-01-11T00:00:00Z", "tenderers": [{"id": "A"}]},
                {"status": "valid", "date": "2022-01-09T00:00:00Z", "tenderers": [{"id": "B"}]},
                {"status": "valid", "date": "2022-01-12T00:00:00Z", "tenderers": [{"id": "C"}]}
            ]}}"#,
    );
    calculator.fold(&mut item, &release, "a");
    assert_eq!(item.results.get(Group::OCID, "a", Indicator::R030), Some(1));
    assert_eq!(item.results.get(Group::Tenderer, "A", Indicator::R030), Some(1));
    assert_eq!(item.results.get(Group::Tenderer, "B", Indicator::R030), None);
    assert_eq!(item.results.get(Group::Tenderer, "C", Indicator::R030), None);
    assert!(item.maps.ocid_tenderer_r030.get("a").unwrap().contains("A"));
}

const DISQUALIFIED: &str = r#"{
    "buyer": {"id": "buyer1"},
    "tender": {"procuringEntity": {"id": "entity1"}},
    "awards": [{"status": "active", "suppliers": [{"id": "A"}]}],
    "bids": {"details": [
        {"status": "valid", "tenderers": [{"id": "A"}], "value": {"amount": 100, "currency": "USD"}},
        {"status": "disqualified", "tenderers": [{"id": "B"}], "value": {"amount": 90, "currency": "USD"}},
        {"status": "disqualified", "tenderers": [{"id": "C"}], "value": {"amount": 95, "currency": "USD"}}
    ]}
}"#;

#[test]
fn r035_all_except_winner_disqualified() {
    let calculator = R035::new(&mut settings());
    let mut item = Indicators::new(None, true);
    calculator.fold(&mut item, &parse(DISQUALIFIED), "a");
    assert_eq!(item.results.get(Group::OCID, "a", Indicator::R035), Some(2));
    assert_eq!(item.results.get(Group::Tenderer, "A", Indicator::R035), Some(0));
    assert!(item.maps.ocid_tenderer_r035.get("a").unwrap().contains("A"));
}

#[test]
fn r035_threshold() {
    let mut s = settings();
    s.R035 = Some(IntegerThreshold { threshold: Some(3) });
    let calculator = R035::new(&mut s);
    let mut item = Indicators::new(None, false);
    calculator.fold(&mut item, &parse(DISQUALIFIED), "a");
    assert_eq!(item.results.get(Group::OCID, "a", Indicator::R035), None);
    // A threshold of zero counts as one.
    let mut s = settings();
    s.R035 = Some(IntegerThreshold { threshold: Some(0) });
    let calculator = R035::new(&mut s);
    calculator.fold(&mut item, &parse(DISQUALIFIED), "a");
    assert_eq!(item.results.get(Group::OCID, "a", Indicator::R035), Some(2));
}

#[test]
fn r036_lowest_bid_disqualified() {
    let calculator = R036::new(&mut settings());
    let mut item = Indicators::new(None, false);
    calculator.fold(&mut item, &parse(DISQUALIFIED), "a");
    assert_eq!(item.results.get(Group::OCID, "a", Indicator::R036), Some(1));
    assert_eq!(item.currency.as_deref(), Some("USD"));
}

#[test]
fn r036_other_currency_is_skipped() {
    let mut s = settings();
    s.currency = Some("EUR".to_string());
    let calculator = R036::new(&mut s);
    let mut item = Indicators::new(None, false);
    calculator.fold(&mut item, &parse(DISQUALIFIED), "a");
    assert_eq!(item.results.get(Group::OCID, "a", Indicator::R036), None);
    assert_eq!(item.currency.as_deref(), Some("EUR"));
}

#[test]
fn r038_disqualified_ratios() {
    let calculator = R038::new(&mut settings());
    let mut item = Indicators::new(None, false);
    assert!(calculator.fold(&mut item, &parse(DISQUALIFIED), "a").is_ok());
    let buyer = item.r038_buyer.get("buyer1").unwrap();
    assert_eq!((buyer.numerator, buyer.denominator), (2, 3));
    let entity = item.r038_procuring_entity.get("entity1").unwrap();
    assert_eq!((entity.numerator, entity.denominator), (2, 3));
    let a = item.r038_tenderer.get("A").unwrap();
    assert_eq!((a.numerator, a.denominator), (0, 1));
    let b = item.r038_tenderer.get("B").unwrap();
    assert_eq!((b.numerator, b.denominator), (1, 1));

    let mut other = Indicators::new(None, false);
    assert!(calculator.fold(&mut other, &parse(DISQUALIFIED), "b").is_ok());
    assert!(calculator.reduce(&mut item, &mut other).is_ok());
    let buyer = item.r038_buyer.get("buyer1").unwrap();
    assert_eq!((buyer.numerator, buyer.denominator), (4, 6));
}

#[test]
fn r036_no_valid_bid_with_amount() {
    let calculator = R036::new(&mut settings());
    let mut item = Indicators::new(None, false);
    let release = parse(
        r#"{"awards": [{"status": "active"}], "bids": {"details": [
            {"status": "disqualified", "value": {"amount": 1, "currency": "USD"}},
            {"status": "valid"}
        ]}}"#,
    );
    calculator.fold(&mut item, &release, "F");
    assert_eq!(item.results.get(Group::OCID, "F", Indicator::R036), None);
    assert_eq!(item.currency, None);
}

const ONE_DISQUALIFIED_BID: &str = r#"{"buyer": {"id": "B"}, "bids": {"details": [
    {"status": "disqualified", "tenderers": [{"id": "T"}]}
]}}"#;

#[test]
fn r038_minimum_submitted_bids() {
    let mut s = settings();
    s.R038 = Some(R038Settings { minimum_submitted_bids: Some(2), minimum_contracting_processes: None });
    let calculator = R038::new(&mut s);
    let mut item = Indicators::new(None, false);
    assert!(calculator.fold(&mut item, &parse(ONE_DISQUALIFIED_BID), "a").is_ok());
    assert!(item.r038_buyer.get("B").is_none());
    assert!(item.r038_tenderer.get("T").is_none());
    assert_eq!(item.r038_buyer_processes.count("B"), 0);

    // The default minimum is two submitted bids.
    let calculator = R038::new(&mut settings());
    assert!(calculator.fold(&mut item, &parse(ONE_DISQUALIFIED_BID), "a").is_ok());
    assert!(item.r038_buyer.get("B").is_none());

    let mut s = settings();
    s.R038 = Some(R038Settings { minimum_submitted_bids: Some(1), minimum_contracting_processes: None });
    let calculator = R038::new(&mut s);
    assert!(calculator.fold(&mut item, &parse(ONE_DISQUALIFIED_BID), "a").is_ok());
    let buyer = item.r038_buyer.get("B").unwrap();
    assert_eq!((buyer.numerator, buyer.denominator), (1, 1));
    assert_eq!(item.r038_buyer_processes.count("B"), 1);
    assert_eq!(item.r038_tenderer_processes.count("T"), 1);
}

#[test]
fn r038_minimum_contracting_processes() {
    let calculator = R038::new(&mut settings());
    let mut item = Indicators::new(None, false);
    let release = parse(
        r#"{"buyer": {"id": "B"}, "tender": {"procuringEntity": {"id": "E"}}, "bids": {"details": [
            {"status": "disqualified", "tenderers": [{"id": "T"}]},
            {"status": "valid", "tenderers": [{"id": "T"}, {"id": "U"}]}
        ]}}"#,
    );
    assert!(calculator.fold(&mut item, &release, "a").is_ok());
    // A tenderer with two bids in one contracting process counts it once.
    assert_eq!(item.r038_tenderer_processes.count("T"), 1);
    let t = item.r038_tenderer.get("T").unwrap();
    assert_eq!((t.numerator, t.denominator), (1, 2));
    // One contracting process is fewer than the default minimum of two.
    let qualified = calculator.qualified(&item.r038_buyer, &item.r038_buyer_processes);
    assert_eq!(qualified.len(), 0);

    let mut other = Indicators::new(None, false);
    assert!(calculator.fold(&mut other, &release, "b").is_ok());
    assert!(calculator.reduce(&mut item, &mut other).is_ok());
    assert_eq!(item.r038_buyer_processes.count("B"), 2);
    assert_eq!(item.r038_procuring_entity_processes.count("E"), 2);
    assert_eq!(item.r038_tenderer_processes.count("U"), 2);
    let qualified = calculator.qualified(&item.r038_buyer, &item.r038_buyer_processes);
    assert_eq!(qualified.len(), 1);
    let b = qualified.get("B").unwrap();
    assert_eq!((b.numerator, b.denominator), (2, 4));

    let mut s = settings();
    s.R038 = Some(R038Settings { minimum_submitted_bids: None, minimum_contracting_processes: Some(3) });
    let strict = R038::new(&mut s);
    assert_eq!(strict.qualified(&item.r038_tenderer, &item.r038_tenderer_processes).len(), 0);
}

#[test]
fn r038_order_and_split_do_not_matter() {
    let mut s = settings();
    s.R038 = Some(R038Settings { minimum_submitted_bids: Some(1), minimum_contracting_processes: None });
    let calculator = R038::new(&mut s);
    let first = parse(ONE_DISQUALIFIED_BID);
    let second = parse(DISQUALIFIED);
    let mut forward = Indicators::new(None, false);
    assert!(calculator.fold(&mut forward, &first, "a").is_ok());
    assert!(calculator.fold(&mut forward, &second, "b").is_ok());
    let mut backward = Indicators::new(None, false);
    assert!(calculator.fold(&mut backward, &second, "b").is_ok());
    assert!(calculator.fold(&mut backward, &first, "a").is_ok());
    let mut split = Indicators::new(None, false);
    let mut other = Indicators::new(None, false);
    assert!(calculator.fold(&mut split, &second, "b").is_ok());
    assert!(calculator.fold(&mut other, &first, "a").is_ok());
    assert!(calculator.reduce(&mut split, &mut other).is_ok());
    for item in [&backward, &split] {
        for id in ["A", "B", "C", "T"] {
            assert_eq!(item.r038_tenderer.get(id), forward.r038_tenderer.get(id));
            assert_eq!(item.r038_tenderer_processes.count(id), forward.r038_tenderer_processes.count(id));
        }
        for id in ["B", "buyer1"] {
            assert_eq!(item.r038_buyer.get(id), forward.r038_buyer.get(id));
            assert_eq!(item.r038_buyer_processes.count(id), forward.r038_buyer_processes.count(id));
        }
        assert_eq!(item.r038_procuring_entity.get("entity1"), forward.r038_procuring_entity.get("entity1"));
    }
    let b = forward.r038_tenderer.get("B").unwrap();
    assert_eq!((b.numerator, b.denominator), (1, 1));
}

#[test]
fn count_table_adds_and_merges() {
    let mut ids = StrSet::new();
    ids.insert("a".to_string());
    ids.insert("b".to_string());
    let mut counts = CountTable::new();
    assert!(counts.add_each(&ids).is_ok());
    assert!(counts.add_each(&ids).is_ok());
    assert_eq!(counts.count("a"), 2);
    assert_eq!(counts.count("c"), 0);
    let mut other = CountTable::new();
    let mut more = StrSet::new();
    more.insert("c".to_string());
    more.insert("a".to_string());
    assert!(other.add_each(&more).is_ok());
    assert!(counts.merge(&other).is_ok());
    assert_eq!((counts.count("a"), counts.count("b"), counts.count("c")), (3, 2, 1));
    assert_eq!(counts.len(), 3);
}

fn day(y: i32, m: u32, d: u32) -> i32 {
    NaiveDate::from_ymd_opt(y, m, d).unwrap().num_days_from_ce()
}

const R055_RELEASE: &str = r#"{
    "buyer": {"id": "B"},
    "tender": {"procurementMethod": "open", "tenderPeriod": {"startDate": "2022-06-01T00:00:00+00:00"},
               "value": {"amount": 1000, "currency": "USD"}, "procuringEntity": {"id": "E"}},
    "awards": [
        {"status": "active", "date": "2022-07-01T10:00:00-04:00", "suppliers": [{"id": "S"}], "value": {"amount": 50, "currency": "USD"}},
        {"status": "active", "date": "2023-07-01T10:00:00+00:00", "suppliers": [{"id": "T"}], "value": {"amount": 60, "currency": "USD"}},
        {"status": "active", "date": "2022-07-01T10:00:00Z", "suppliers": [{"id": "U"}], "value": {"amount": 70, "currency": "USD"}},
        {"status": "pending", "date": "2022-07-01T10:00:00+00:00", "suppliers": [{"id": "V"}], "value": {"amount": 80, "currency": "USD"}},
        {"status": "active", "date": "2022-08-01T10:00:00+00:00", "suppliers": [{"id": "W"}, {"id": "X"}], "value": {"amount": 90, "currency": "USD"}},
        {"status": "active", "date": "2022-09-01T10:00:00+00:00", "suppliers": [{"id": "S"}], "value": {"amount": 40, "currency": "EUR"}}
    ]
}"#;

fn r055_calculator() -> R055 {
    let mut s = settings();
    s.R055 = Some(R055Settings { start_date: Some(day(2022, 1, 1)), end_date: Some(day(2022, 12, 31)) });
    R055::new(&mut s, day(2024, 1, 1))
}

#[test]
fn r055_amounts_within_period() {
    let calculator = r055_calculator();
    // An open process: its tender amount counts, its awards do not.
    let mut item = Indicators::new(None, false);
    calculator.fold(&mut item, &parse(R055_RELEASE), "a");
    assert_eq!(item.currency.as_deref(), Some("USD"));
    assert_eq!(item.r055_open_tender_amount.get("a"), Some(&order_key(1000.0)));
    assert_eq!(item.r055_supplier_buyer.len(), 0);
    assert_eq!(item.r055_supplier_procuring_entity.len(), 0);

    // A direct process: its awards within the period count, its tender amount does not.
    let mut item = Indicators::new(None, false);
    calculator.fold(&mut item, &parse(&R055_RELEASE.replace("\"open\"", "\"direct\"")), "a");
    assert!(item.r055_open_tender_amount.get("a").is_none());
    assert_eq!(item.r055_supplier_buyer.len(), 1);
    assert_eq!(item.r055_supplier_buyer.entry_at(0), (&"B".to_string(), &"S".to_string(), order_key(50.0)));
    assert_eq!(item.r055_supplier_procuring_entity.len(), 1);
    assert_eq!(
        item.r055_supplier_procuring_entity.entry_at(0),
        (&"E".to_string(), &"S".to_string(), order_key(50.0))
    );
    assert!(item.results.get(Group::Buyer, "B", Indicator::R055).is_none());
}

fn r055_award(amount: u32) -> String {
    format!(
        r#"{{"status": "active", "date": "2022-06-01T00:00:00+00:00", "suppliers": [{{"id": "S"}}], "value": {{"amount": {amount}, "currency": "USD"}}}}"#
    )
}

#[test]
fn r055_awards_of_a_pair_add_up() {
    let calculator = r055_calculator();
    let mut item = Indicators::new(None, false);
    let release = parse(&format!(
        r#"{{"buyer": {{"id": "B"}}, "tender": {{"procurementMethod": "direct"}}, "awards": [{}, {}]}}"#,
        r055_award(10),
        r055_award(20)
    ));
    calculator.fold(&mut item, &release, "F");
    assert_eq!(item.r055_supplier_buyer.len(), 2);
    assert_eq!(item.r055_supplier_buyer.entry_at(0), (&"B".to_string(), &"S".to_string(), order_key(10.0)));
    assert_eq!(item.r055_supplier_buyer.entry_at(1), (&"B".to_string(), &"S".to_string(), order_key(20.0)));
}

#[test]
fn r055_awards_of_an_open_process_are_left_out() {
    let calculator = r055_calculator();
    let mut item = Indicators::new(None, false);
    let release = parse(&format!(
        r#"{{"buyer": {{"id": "B"}}, "tender": {{"procurementMethod": "open"}}, "awards": [{}]}}"#,
        r055_award(20)
    ));
    calculator.fold(&mut item, &release, "F");
    assert_eq!(item.r055_supplier_buyer.len(), 0);
}

#[test]
fn r055_period_is_inclusive() {
    let mut s = settings();
    s.R055 = Some(R055Settings { start_date: Some(100), end_date: Some(200) });
    let calculator = R055::new(&mut s, 1_000);
    assert!(calculator.is_day_in_period(Some(100)));
    assert!(calculator.is_day_in_period(Some(200)));
    assert!(!calculator.is_day_in_period(Some(99)));
    assert!(!calculator.is_day_in_period(Some(201)));
    assert!(!calculator.is_day_in_period(None));
}

#[test]
fn r055_default_period_ends_today() {
    let mut s = settings();
    s.R055 = Some(R055Settings { start_date: None, end_date: None });
    let calculator = R055::new(&mut s, day(2022, 12, 31));
    assert!(s.R055.is_none());
    let mut item = Indicators::new(Some("USD".to_string()), false);
    let open = |date: &str| {
        parse(&format!(
            r#"{{"tender": {{"procurementMethod": "open", "tenderPeriod": {{"startDate": "{date}"}}, "value": {{"amount": 5, "currency": "USD"}}}}}}"#
        ))
    };
    // The period starts 365 days before today.
    calculator.fold(&mut item, &open("2021-12-31T00:00:00+00:00"), "first");
    calculator.fold(&mut item, &open("2022-12-31T23:59:59+00:00"), "last");
    calculator.fold(&mut item, &open("2021-12-30T00:00:00+00:00"), "before");
    calculator.fold(&mut item, &open("2023-01-01T00:00:00+00:00"), "after");
    calculator.fold(&mut item, &open("not a date"), "text");
    assert_eq!(item.r055_open_tender_amount.len(), 2);
    assert!(item.r055_open_tender_amount.get("first").is_some());
    assert!(item.r055_open_tender_amount.get("last").is_some());
    // A selective tender is not open.
    let selective = parse(
        r#"{"tender": {"procurementMethod": "selective", "tenderPeriod": {"startDate": "2022-06-01T00:00:00+00:00"}, "value": {"amount": 5, "currency": "USD"}}}"#,
    );
    calculator.fold(&mut item, &selective, "selective");
    assert!(item.r055_open_tender_amount.get("selective").is_none());
}

#[test]
fn r044_shared_address() {
    let calculator = R044::new(&mut settings());
    let mut item = Indicators::new(None, false);
    let release = parse(
        r#"{"parties": [
            {"id": "T1", "roles": ["tenderer"], "address": {"streetAddress": " 1 Main St", "locality": "Town"}},
            {"id": "T2", "roles": ["tenderer"], "address": {"streetAddress": "1 MAIN ST ", "locality": "town"}},
            {"id": "T3", "roles": ["tenderer"], "address": {"streetAddress": "2 Main St", "locality": "Town"}},
            {"id": "B1", "roles": ["buyer"], "address": {"streetAddress": "1 Main St", "locality": "Town"}}
        ]}"#,
    );
    calculator.fold(&mut item, &release, "a");
    assert_eq!(item.results.get(Group::OCID, "a", Indicator::R044), Some(1));
    assert_eq!(item.results.get(Group::Tenderer, "T1", Indicator::R044), Some(1));
    assert_eq!(item.results.get(Group::Tenderer, "T2", Indicator::R044), Some(1));
    assert_eq!(item.results.get(Group::Tenderer, "T3", Indicator::R044), None);
    assert_eq!(item.results.get(Group::Tenderer, "B1", Indicator::R044), None);
}

#[test]
fn r044_shared_contact_point() {
    let calculator = R044::new(&mut settings());
    let mut item = Indicators::new(None, false);
    let release = parse(
        r#"{"parties": [
            {"id": "T1", "roles": ["tenderer"], "contactPoint": {"email": "x@example.com", "name": "X"}},
            {"id": "T2", "roles": ["tenderer"], "contactPoint": {"email": "y@example.com", "name": "X"}}
        ]}"#,
    );
    calculator.fold(&mut item, &release, "a");
    assert_eq!(item.results.get(Group::OCID, "a", Indicator::R044), Some(1));
}

const SUPPLIES: &str = r#"{"awards": [
    {"status": "active", "suppliers": [{"id": "S"}], "items": [
        {"classification": {"id": "12345"}}, {"classification": {"id": "12999"}}, {"classification": {"id": "34000"}}
    ]},
    {"status": "active", "suppliers": [{"id": "S"}], "items": [{"classification": {"id": "56000"}}]},
    {"status": "active", "suppliers": [{"id": "T"}, {"id": "U"}], "items": [{"classification": {"id": "78000"}}]}
]}"#;

#[test]
fn r048_heterogeneous_supplier() {
    let mut s = settings();
    s.R048 = Some(R048Settings {
        digits: None,
        threshold: Some(3),
        minimum_contracting_processes: Some(2),
    });
    let calculator = R048::new(&mut s);
    let mut item = Indicators::new(None, false);
    assert!(calculator.fold(&mut item, &parse(SUPPLIES), "a").is_ok());
    let supplies = item.r048_classifications.get("S").unwrap();
    assert_eq!(supplies.count, 1);
    assert_eq!(supplies.codes.len(), 3);
    assert!(supplies.codes.contains("12") && supplies.codes.contains("34") && supplies.codes.contains("56"));
    assert!(item.r048_classifications.get("T").is_none());

    let mut other = Indicators::new(None, false);
    assert!(calculator.fold(&mut other, &parse(SUPPLIES), "b").is_ok());
    assert!(calculator.reduce(&mut item, &mut other).is_ok());
    assert_eq!(item.r048_classifications.get("S").unwrap().count, 2);
    assert_eq!(calculator.varieties(&item).get("S"), Some(&3));

    calculator.finalize(&mut item, None);
    assert_eq!(item.results.get(Group::Tenderer, "S", Indicator::R048), Some(3));
    assert_eq!(item.r048_classifications.len(), 0);
}

#[test]
fn r048_order_and_split_do_not_matter() {
    let calculator = R048::new(&mut settings());
    let first = parse(SUPPLIES);
    let second = parse(
        r#"{"awards": [{"status": "active", "suppliers": [{"id": "S"}], "items": [{"classification": {"id": "99000"}}]}]}"#,
    );
    let mut forward = Indicators::new(None, false);
    assert!(calculator.fold(&mut forward, &first, "a").is_ok());
    assert!(calculator.fold(&mut forward, &second, "b").is_ok());
    let mut split = Indicators::new(None, false);
    let mut other = Indicators::new(None, false);
    assert!(calculator.fold(&mut split, &second, "b").is_ok());
    assert!(calculator.fold(&mut other, &first, "a").is_ok());
    assert!(calculator.reduce(&mut split, &mut other).is_ok());
    for item in [&forward, &split] {
        let supplies = item.r048_classifications.get("S").unwrap();
        assert_eq!(supplies.count, 2);
        assert_eq!(supplies.codes.len(), 4);
    }
}

#[test]
fn r048_minimum_processes_and_computed_fence() {
    let calculator = R048::new(&mut settings());
    let mut item = Indicators::new(None, false);
    assert!(calculator.fold(&mut item, &parse(SUPPLIES), "a").is_ok());
    // The default minimum is 20 contracting processes.
    assert_eq!(calculator.varieties(&item).len(), 0);
    calculator.finalize(&mut item, Some(1));
    assert_eq!(item.results.get(Group::Tenderer, "S", Indicator::R048), None);
}

#[test]
fn second_lowest_bid_ratio_bids() {
    let calculator = SecondLowestBidRatio::new(&mut settings());
    let mut item = Indicators::new(None, false);
    calculator.fold(&mut item, &parse(AWARDED), "a");
    let bids = item.lowest_bids.get("a").unwrap();
    assert_eq!(bids.winner, "A");
    assert_eq!(bids.lowest_non_winner, "B");
    assert_eq!(bids.winner_amount, order_key(100.0));
    assert_eq!(bids.lowest_non_winner_amount, order_key(110.0));
    assert_eq!(item.currency.as_deref(), Some("USD"));
}

#[test]
fn second_lowest_bid_ratio_reduce_needs_agreeing_currencies() {
    let calculator = SecondLowestBidRatio::new(&mut settings());
    let mut item = Indicators::new(Some("EUR".to_string()), false);
    let mut other = Indicators::new(None, false);
    calculator.fold(&mut other, &parse(AWARDED), "a");
    calculator.reduce(&mut item, &mut other);
    assert!(item.lowest_bids.get("a").is_none());

    let mut item = Indicators::new(None, false);
    let mut other = Indicators::new(None, false);
    calculator.fold(&mut other, &parse(AWARDED), "a");
    calculator.reduce(&mut item, &mut other);
    assert!(item.lowest_bids.get("a").is_some());
}

#[test]
fn tenderers_are_mapped() {
    let calculator = Tenderers::new(&mut settings());
    let mut item = Indicators::new(None, true);
    calculator.fold(&mut item, &parse(AWARDED), "a");
    let mapped = item.maps.ocid_tenderer.get("a").unwrap();
    assert_eq!(mapped.len(), 2);
    assert!(mapped.contains("A") && mapped.contains("B") && !mapped.contains("C"));

    let mut unmapped = Indicators::new(None, false);
    calculator.fold(&mut unmapped, &parse(AWARDED), "a");
    assert!(unmapped.maps.ocid_tenderer.get("a").is_none());
}

#[test]
fn r048_reduce_does_not_depend_on_order() {
    let mut s = settings();
    s.R048 = Some(R048Settings {
        digits: Some(1),
        threshold: None,
        minimum_contracting_processes: Some(1),
    });
    let calculator = R048::new(&mut s);
    let other_supplies = r#"{"awards": [
        {"status": "active", "suppliers": [{"id": "S"}], "items": [{"classification": {"id": "99"}}]}
    ]}"#;
    let mut a1 = Indicators::new(None, false);
    let mut b1 = Indicators::new(None, false);
    assert!(calculator.fold(&mut a1, &parse(SUPPLIES), "a").is_ok());
    assert!(calculator.fold(&mut b1, &parse(other_supplies), "b").is_ok());
    let mut a2 = Indicators::new(None, false);
    let mut b2 = Indicators::new(None, false);
    assert!(calculator.fold(&mut a2, &parse(SUPPLIES), "a").is_ok());
    assert!(calculator.fold(&mut b2, &parse(other_supplies), "b").is_ok());
    assert!(calculator.reduce(&mut a1, &mut b1).is_ok());
    assert!(calculator.reduce(&mut b2, &mut a2).is_ok());
    let x = a1.r048_classifications.get("S").unwrap();
    let y = b2.r048_classifications.get("S").unwrap();
    assert_eq!((x.count, x.codes.len()), (y.count, y.codes.len()));
    assert_eq!((x.count, x.codes.len()), (2, 4));
    assert_eq!(calculator.varieties(&a1).get("S"), Some(&4));
}

#[test]
fn whole_days_between_instants() {
    assert_eq!(days_between((0, 0, 0), (15, 0, 0)), 15);
    assert_eq!(days_between((0, 43_200, 0), (15, 43_199, 0)), 14);
    assert_eq!(days_between((10, 0, 0), (0, 0, 0)), -10);
    assert_eq!(days_between((10, 0, 0), (0, 1, 0)), -9);
    assert_eq!(days_between((0, 0, 500_000_000), (1, 0, 0)), 0);
    assert_eq!(days_between((1, 0, 0), (0, 0, 500_000_000)), 0);
    assert_eq!(days_between((0, 0, 0), (1, 0, 0)), 1);
}

#[test]
fn r003_is_short_uses_the_details_threshold() {
    let mut details = Table::new();
    details.insert("Licitación".to_string(), 20);
    let mut s = settings();
    s.R003 = Some(R003Settings {
        threshold: None,
        procurement_methods: None,
        procurement_method_details: Some(details),
    });
    let calculator = R003::new(&mut s);
    let tender = parse(r#"{"procurementMethodDetails": "Licitación"}"#);
    let other = parse(r#"{"procurementMethodDetails": "Otra"}"#);
    assert!(calculator.is_short(&tender, (0, 0, 0), (19, 0, 0)));
    assert!(!calculator.is_short(&tender, (0, 0, 0), (20, 0, 0)));
    assert!(calculator.is_short(&other, (0, 0, 0), (14, 86_399, 0)));
    assert!(!calculator.is_short(&other, (0, 0, 0), (15, 0, 0)));
}

#[test]
fn r044_similar_ids() {
    let contact = parse(r#"{"name": "X"}"#);
    let other_contact = parse(r#"{"name": "Y"}"#);
    let mut tenderers: Table<(Option<String>, Option<&Json>)> = Table::new();
    tenderers.insert("T1".to_string(), (Some("1 main st ".to_string()), Some(&other_contact)));
    tenderers.insert("T2".to_string(), (Some("1 main st ".to_string()), None));
    tenderers.insert("T3".to_string(), (Some("2 main st ".to_string()), Some(&contact)));
    tenderers.insert("T4".to_string(), (None, Some(&contact)));
    tenderers.insert("T5".to_string(), (None, None));
    let flagged = R044::similar_ids(&tenderers);
    assert_eq!(flagged.len(), 4);
    assert!(flagged.contains("T1") && flagged.contains("T2"));
    assert!(flagged.contains("T3") && flagged.contains("T4"));
    assert!(!flagged.contains("T5"));
}
