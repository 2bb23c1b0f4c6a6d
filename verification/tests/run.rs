use ocdscardinal::error::CountOverflow;
use ocdscardinal::indicators::fraction::FractionTable;
use ocdscardinal::indicators::results::Results;
use ocdscardinal::indicators::run::Calculators;
use ocdscardinal::indicators::{
    Empty, Exclusions, Group, Indicator, Indicators, Settings, R003 as R003Settings, R018 as R018Settings,
    R038 as R038Settings, R048 as R048Settings, R055 as R055Settings,
};
use ocdscardinal::json::{Json, Number};

/// A day, counted from the first day of the common era, in 2021.
const TODAY: i32 = 738_000;

fn convert(v: serde_json::Value) -> Json {
    match v {
        serde_json::Value::Null => Json::Null,
        serde_json::Value::Bool(b) => Json::Bool(b),
        serde_json::Value::Number(n) => Json::Number(Number {
            as_u64: n.as_u64(),
            key: n.as_f64().unwrap().to_bits() | (1 << 63),
        }),
        serde_json::Value::String(s) => Json::String(s),
        serde_json::Value::Array(a) => Json::Array(a.into_iter().map(convert).collect()),
        serde_json::Value::Object(m) => {
            Json::Object(m.into_iter().map(|(k, v)| (k, convert(v))).collect())
        }
    }
}

fn parse(s: &str) -> Json {
    convert(serde_json::from_str(s).unwrap())
}

fn settings() -> Settings {
    Settings {
        currency: None,
        no_price_comparison_procurement_methods: None,
        price_comparison_procurement_methods: None,
        exclusions: Some(Exclusions {
            procurement_method_details: Some("Random Selection|Sorteo de Obras".to_string()),
        }),
        R003: Some(R003Settings {
            threshold: None,
            procurement_methods: None,
            procurement_method_details: None,
        }),
        R018: Some(R018Settings { procurement_methods: None }),
        R024: None,
        R025: Some(Empty {}),
        R028: None,
        R030: None,
        R035: None,
        R036: None,
        R038: None,
        R044: None,
        R048: None,
        R055: None,
        R058: Some(Empty {}),
    }
}

fn release(ocid: &str, extra: &str) -> Json {
    parse(&format!(
        r#"{{"ocid": {ocid}, "tender": {{"procurementMethod": "open", "numberOfTenderers": 1, {extra}
            "tenderPeriod": {{"startDate": "2022-01-01T00:00:00Z", "endDate": "2022-01-02T00:00:00Z"}}}}}}"#
    ))
}

#[test]
fn enabled_indicators() {
    let mut s = settings();
    let calculators = Calculators::new(&mut s, true, TODAY);
    assert!(calculators.r003.is_some());
    assert!(calculators.r018.is_some());
    assert!(calculators.r025.is_some());
    assert!(calculators.r028.is_none());
    assert!(calculators.second_lowest_bid_ratio.is_some());
    assert!(calculators.tenderers.is_some());
    assert!(calculators.exclusions.contains("Sorteo de Obras"));
    assert!(s.R003.is_none() && s.R018.is_none() && s.R025.is_none());
    let calculators = Calculators::new(&mut Settings { R058: None, ..settings() }, false, TODAY);
    assert!(calculators.second_lowest_bid_ratio.is_none());
    assert!(calculators.tenderers.is_none());
}

#[test]
fn fold_runs_enabled_indicators() {
    let calculators = Calculators::new(&mut settings(), false, TODAY);
    let mut item = Indicators::new(None, false);
    assert!(calculators.fold(&mut item, &release("\"a\"", "")).is_ok());
    assert_eq!(item.results.get(Group::OCID, "a", Indicator::R003), Some(1));
    assert_eq!(item.results.get(Group::OCID, "a", Indicator::R018), Some(1));
}

#[test]
fn fold_excludes_cancelled_and_listed_processes() {
    let calculators = Calculators::new(&mut settings(), false, TODAY);
    let mut item = Indicators::new(None, false);
    let cancelled = release("\"a\"", r#""status": "cancelled","#);
    let listed = release("\"b\"", r#""procurementMethodDetails": "Random Selection","#);
    let kept = release("\"c\"", r#""status": "active", "procurementMethodDetails": "Open","#);
    assert!(calculators.is_excluded(&cancelled));
    assert!(calculators.is_excluded(&listed));
    assert!(!calculators.is_excluded(&kept));
    assert!(calculators.fold(&mut item, &cancelled).is_ok());
    assert!(calculators.fold(&mut item, &listed).is_ok());
    assert!(calculators.fold(&mut item, &kept).is_ok());
    assert_eq!(item.results.id_count(Group::OCID), 1);
    assert_eq!(item.results.get(Group::OCID, "c", Indicator::R003), Some(1));
}

#[test]
fn fold_skips_releases_without_string_ocid() {
    let calculators = Calculators::new(&mut settings(), false, TODAY);
    let mut item = Indicators::new(None, false);
    assert!(calculators.fold(&mut item, &release("1", "")).is_ok());
    assert!(calculators.fold(&mut item, &parse("[1]")).is_ok());
    assert_eq!(item.results.id_count(Group::OCID), 0);
}

#[test]
fn reduce_unites_results() {
    let calculators = Calculators::new(&mut settings(), false, TODAY);
    let mut item = Indicators::new(None, false);
    let mut other = Indicators::new(None, false);
    assert!(calculators.fold(&mut item, &release("\"a\"", "")).is_ok());
    assert!(calculators.fold(&mut other, &release("\"b\"", "")).is_ok());
    assert!(calculators.reduce(&mut item, &mut other).is_ok());
    assert_eq!(item.results.id_count(Group::OCID), 2);
    assert_eq!(item.results.get(Group::OCID, "b", Indicator::R018), Some(1));
}

#[test]
fn results_merge_keeps_other_on_conflict() {
    let mut a = Results::new();
    let mut b = Results::new();
    a.set(Group::Tenderer, "t".to_string(), Indicator::R028, 1);
    a.set(Group::Tenderer, "t".to_string(), Indicator::R030, 1);
    b.set(Group::Tenderer, "t".to_string(), Indicator::R030, 0);
    b.set(Group::Buyer, "x".to_string(), Indicator::R038, 7);
    a.merge(&b);
    assert_eq!(a.get(Group::Tenderer, "t", Indicator::R028), Some(1));
    assert_eq!(a.get(Group::Tenderer, "t", Indicator::R030), Some(0));
    assert_eq!(a.get(Group::Buyer, "x", Indicator::R038), Some(7));
    assert_eq!(a.id_count(Group::Tenderer), 1);
}

#[test]
fn count_overflow_is_an_error() {
    let mut t = FractionTable::new();
    assert!(t.add("a".to_string(), usize::MAX, usize::MAX).is_ok());
    let r: Result<(), CountOverflow> = t.add("a".to_string(), 1, 1);
    assert!(r.is_err());
    let mut u = FractionTable::new();
    assert!(u.add("a".to_string(), 1, 1).is_ok());
    assert!(u.merge(&t).is_err());
}

fn fractions(t: &FractionTable) -> Vec<(String, usize, usize)> {
    let mut out: Vec<(String, usize, usize)> = (0..t.len())
        .map(|i| {
            let (k, f) = t.entry_at(i);
            (k.clone(), f.numerator, f.denominator)
        })
        .collect();
    out.sort();
    out
}

#[test]
fn mediant_merge_does_not_depend_on_order() {
    let mut a = FractionTable::new();
    let mut b = FractionTable::new();
    assert!(a.add("x".to_string(), 1, 2).is_ok());
    assert!(a.add("y".to_string(), 0, 1).is_ok());
    assert!(b.add("x".to_string(), 2, 3).is_ok());
    assert!(b.add("z".to_string(), 1, 1).is_ok());
    let mut ab = FractionTable::new();
    assert!(ab.merge(&a).is_ok());
    assert!(ab.merge(&b).is_ok());
    let mut ba = FractionTable::new();
    assert!(ba.merge(&b).is_ok());
    assert!(ba.merge(&a).is_ok());
    assert_eq!(fractions(&ab), fractions(&ba));
    assert_eq!(
        fractions(&ab),
        vec![("x".to_string(), 3, 5), ("y".to_string(), 0, 1), ("z".to_string(), 1, 1)]
    );
}

#[test]
fn merge_of_disjoint_results_does_not_depend_on_order() {
    let mut a = Results::new();
    let mut b = Results::new();
    a.set(Group::OCID, "a".to_string(), Indicator::R003, 1);
    b.set(Group::OCID, "b".to_string(), Indicator::R018, 1);
    let mut ab = Results::new();
    ab.merge(&a);
    ab.merge(&b);
    let mut ba = Results::new();
    ba.merge(&b);
    ba.merge(&a);
    for (id, i) in [("a", Indicator::R003), ("b", Indicator::R018), ("a", Indicator::R018)] {
        assert_eq!(ab.get(Group::OCID, id, i), ba.get(Group::OCID, id, i));
    }
    assert_eq!(ab.get(Group::OCID, "b", Indicator::R018), Some(1));
}

#[test]
fn flags_stay_raised() {
    let calculators = Calculators::new(&mut settings(), false, TODAY);
    let mut item = Indicators::new(None, false);
    assert!(calculators.fold(&mut item, &release("\"a\"", "")).is_ok());
    let later = parse(
        r#"{"ocid": "a", "tender": {"procurementMethod": "open", "numberOfTenderers": 3,
            "tenderPeriod": {"startDate": "2022-01-01T00:00:00Z", "endDate": "2022-03-01T00:00:00Z"}}}"#,
    );
    assert!(calculators.fold(&mut item, &later).is_ok());
    assert_eq!(item.results.get(Group::OCID, "a", Indicator::R018), Some(1));
    assert_eq!(item.results.get(Group::OCID, "a", Indicator::R003), Some(1));
    let mut other = Indicators::new(None, false);
    assert!(calculators.fold(&mut other, &later).is_ok());
    assert!(calculators.reduce(&mut item, &mut other).is_ok());
    assert_eq!(item.results.get(Group::OCID, "a", Indicator::R018), Some(1));
}

#[test]
fn r055_amounts_stay_with_their_state() {
    let mut s = Settings { R055: Some(R055Settings { start_date: None, end_date: None }), ..settings() };
    let calculators = Calculators::new(&mut s, false, TODAY);
    assert!(calculators.r055.is_some());
    assert!(s.R055.is_none());
    let open = |ocid: &str| {
        parse(&format!(
            r#"{{"ocid": "{ocid}", "tender": {{"procurementMethod": "open", "tenderPeriod": {{"startDate": "2021-06-01T00:00:00+00:00"}}, "value": {{"amount": 5, "currency": "USD"}}}}}}"#
        ))
    };
    let mut item = Indicators::new(None, false);
    let mut other = Indicators::new(None, false);
    assert!(calculators.fold(&mut item, &open("a")).is_ok());
    assert!(calculators.fold(&mut other, &open("b")).is_ok());
    assert!(calculators.reduce(&mut item, &mut other).is_ok());
    assert!(item.r055_open_tender_amount.get("a").is_some());
    assert!(item.r055_open_tender_amount.get("b").is_none());
}

#[test]
fn accumulations_do_not_depend_on_order() {
    let mut s = Settings {
        R038: Some(R038Settings { minimum_submitted_bids: Some(1), minimum_contracting_processes: None }),
        R048: Some(R048Settings { digits: None, threshold: None, minimum_contracting_processes: None }),
        ..settings()
    };
    let calculators = Calculators::new(&mut s, false, TODAY);
    let first = parse(
        r#"{"ocid": "a", "buyer": {"id": "B"},
            "awards": [{"status": "active", "suppliers": [{"id": "S"}], "items": [{"classification": {"id": "12000"}}]}],
            "bids": {"details": [
                {"status": "valid", "tenderers": [{"id": "S"}]},
                {"status": "disqualified", "tenderers": [{"id": "T"}]}
            ]}}"#,
    );
    let second = parse(
        r#"{"ocid": "b", "buyer": {"id": "B"},
            "awards": [{"status": "active", "suppliers": [{"id": "T"}], "items": [{"classification": {"id": "34000"}}]}],
            "bids": {"details": [
                {"status": "valid", "tenderers": [{"id": "S"}]},
                {"status": "valid", "tenderers": [{"id": "T"}]}
            ]}}"#,
    );
    let mut forward = Indicators::new(None, false);
    assert!(calculators.fold(&mut forward, &first).is_ok());
    assert!(calculators.fold(&mut forward, &second).is_ok());
    let mut backward = Indicators::new(None, false);
    assert!(calculators.fold(&mut backward, &second).is_ok());
    assert!(calculators.fold(&mut backward, &first).is_ok());
    for id in ["S", "T"] {
        assert_eq!(forward.r025_tenderer.get(id), backward.r025_tenderer.get(id));
        assert_eq!(forward.r038_tenderer.get(id), backward.r038_tenderer.get(id));
        assert_eq!(forward.r038_tenderer_processes.count(id), backward.r038_tenderer_processes.count(id));
        let (f, b) = (forward.r048_classifications.get(id).unwrap(), backward.r048_classifications.get(id).unwrap());
        assert_eq!((f.count, f.codes.len()), (b.count, b.codes.len()));
    }
    assert_eq!(forward.r038_buyer.get("B"), backward.r038_buyer.get("B"));
    let b = forward.r038_buyer.get("B").unwrap();
    assert_eq!((b.numerator, b.denominator), (1, 4));
}

#[test]
fn state_does_not_depend_on_order() {
    let mut s = Settings { currency: Some("USD".to_string()), R036: Some(Empty {}), ..settings() };
    let calculators = Calculators::new(&mut s, true, TODAY);
    let bids = r#""awards": [{"status": "active", "suppliers": [{"id": "S"}]}],
        "bids": {"details": [
            {"status": "valid", "tenderers": [{"id": "S"}], "value": {"amount": 100, "currency": "USD"}},
            {"status": "disqualified", "tenderers": [{"id": "T"}], "value": {"amount": 90, "currency": "USD"}}
        ]},"#;
    let first = parse(&format!(
        r#"{{"ocid": "a", {bids} "tender": {{"procurementMethod": "open", "numberOfTenderers": 1,
            "tenderPeriod": {{"startDate": "2022-01-01T00:00:00Z", "endDate": "2022-01-02T00:00:00Z"}}}}}}"#
    ));
    let second = parse(&format!(r#"{{"ocid": "b", {bids} "tender": {{"procurementMethod": "direct"}}}}"#));
    let mut forward = Indicators::new(Some("USD".to_string()), true);
    assert!(calculators.fold(&mut forward, &first).is_ok());
    assert!(calculators.fold(&mut forward, &second).is_ok());
    let mut backward = Indicators::new(Some("USD".to_string()), true);
    assert!(calculators.fold(&mut backward, &second).is_ok());
    assert!(calculators.fold(&mut backward, &first).is_ok());
    for ocid in ["a", "b"] {
        for indicator in [Indicator::R003, Indicator::R018, Indicator::R036] {
            assert_eq!(
                forward.results.get(Group::OCID, ocid, indicator),
                backward.results.get(Group::OCID, ocid, indicator)
            );
        }
        assert_eq!(forward.maps.ocid_tenderer.get(ocid).map(|s| s.len()), backward.maps.ocid_tenderer.get(ocid).map(|s| s.len()));
    }
    assert_eq!(forward.results.get(Group::OCID, "a", Indicator::R036), Some(1));
    assert_eq!(forward.results.get(Group::OCID, "a", Indicator::R003), Some(1));
    assert_eq!(forward.r025_tenderer.get("S"), backward.r025_tenderer.get("S"));
    assert_eq!(forward.currency, backward.currency);
}

#[test]
fn identifiers_keep_their_first_places() {
    let mut results = Results::new();
    results.set(Group::Tenderer, "b".to_string(), Indicator::R028, 1);
    results.set(Group::Tenderer, "a".to_string(), Indicator::R030, 1);
    results.set(Group::Tenderer, "b".to_string(), Indicator::R044, 1);
    let mut other = Results::new();
    other.set(Group::Tenderer, "c".to_string(), Indicator::R035, 0);
    other.set(Group::Tenderer, "a".to_string(), Indicator::R035, 0);
    results.merge(&other);
    let ids: Vec<String> = (0..results.id_count(Group::Tenderer))
        .map(|i| results.entry_at(Group::Tenderer, i).unwrap().0.clone())
        .collect();
    assert_eq!(ids, vec!["b".to_string(), "a".to_string(), "c".to_string()]);
}
