use ocdscardinal::coverage::Coverage;
use ocdscardinal::json::{Json, Number};

fn convert(v: serde_json::Value) -> Json {
    match v {
        serde_json::Value::Null => Json::Null,
        serde_json::Value::Bool(b) => Json::Bool(b),
        serde_json::Value::Number(n) => Json::Number(Number {
            as_u64: n.as_u64(),
            key: n.as_f64().unwrap().to_bits(),
        }),
        serde_json::Value::String(s) => Json::String(s),
        serde_json::Value::Array(a) => Json::Array(a.into_iter().map(convert).collect()),
        serde_json::Value::Object(m) => {
            Json::Object(m.into_iter().map(|(k, v)| (k, convert(v))).collect())
        }
    }
}

fn coverage(lines: &[&str]) -> Coverage {
    let mut c = Coverage::new();
    for line in lines {
        let value = convert(serde_json::from_str(line).unwrap());
        assert!(c.add_line(&value).is_ok());
    }
    c
}

fn counts(c: &Coverage) -> Vec<(String, u32)> {
    let table = c.results();
    let mut out: Vec<(String, u32)> = (0..table.len())
        .map(|i| (table.key_at(i).clone(), *table.value_at(i)))
        .collect();
    out.sort();
    out
}

fn expected(pairs: &[(&str, u32)]) -> Vec<(String, u32)> {
    let mut out: Vec<(String, u32)> = pairs.iter().map(|(k, v)| (k.to_string(), *v)).collect();
    out.sort();
    out
}

#[test]
fn success_stdin() {
    let c = coverage(&["[0]"]);
    assert_eq!(counts(&c), expected(&[("", 1), ("[]", 1)]));
}

#[test]
fn success_file() {
    let c = coverage(&["[0]"]);
    assert_eq!(counts(&c), expected(&[("[]", 1), ("", 1)]));
}

#[test]
fn documentation() {
    let demonstration = coverage(&[
        r#"{"phoneNumbers": [{"type": "home", "number": "212 555-1234"}, {"type": "office", "number": "646 555-4567"}]}"#,
    ]);
    assert_eq!(
        counts(&demonstration),
        expected(&[
            ("/phoneNumbers[]/type", 2),
            ("/phoneNumbers[]/number", 2),
            ("/phoneNumbers[]/", 2),
            ("/phoneNumbers[]", 2),
            ("/phoneNumbers", 1),
            ("/", 1),
            ("", 1),
        ])
    );
    // If a member name is duplicated, only the last duplicate is considered.
    let duplicate = coverage(&[r#"{"a": 0, "a": null}"#]);
    assert_eq!(counts(&duplicate), expected(&[]));
    // If a member name is empty, its path is the same as its parent object's path.
    let empty = coverage(&[r#"{"": 0}"#]);
    assert_eq!(counts(&empty), expected(&[("/", 2), ("", 1)]));
    // If a member name ends with [], its path can be the same as a matching sibling's path.
    let bracket = coverage(&[r#"{"a": [0], "a[]": 0}"#]);
    assert_eq!(counts(&bracket), expected(&[("/a[]", 2), ("/a", 1), ("/", 1), ("", 1)]));
}

#[test]
fn coverage_empty_nodes_count_nothing() {
    let c = coverage(&[r#"{"a": "", "b": [], "c": {}, "d": null, "e": [{"f": [null]}]}"#, "[]", "{}", "null", "\"\""]);
    assert_eq!(counts(&c), expected(&[]));
}

#[test]
fn coverage_scalars_and_lines() {
    let c = coverage(&["true", "false", "0", "\"x\"", r#"{"a": false}"#]);
    assert_eq!(counts(&c), expected(&[("", 5), ("/", 1), ("/a", 1)]));
}

#[test]
fn coverage_merge_adds_counts() {
    let mut a = coverage(&["[0]", r#"{"a": 1}"#]);
    let b = coverage(&["[0, 1]", r#"{"b": 1}"#]);
    assert!(a.merge(b).is_ok());
    assert_eq!(
        counts(&a),
        expected(&[("", 4), ("[]", 3), ("/", 2), ("/a", 1), ("/b", 1)])
    );
    let whole = coverage(&["[0]", r#"{"a": 1}"#, "[0, 1]", r#"{"b": 1}"#]);
    assert_eq!(counts(&a), counts(&whole));
}
