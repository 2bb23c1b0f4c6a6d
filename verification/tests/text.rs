use ocdscardinal::text::{first_chars, is_after, parse_pipe_separated_value};

#[test]
fn pipe_separated_values() {
    let set = parse_pipe_separated_value(Some("open|selective".to_string()));
    assert_eq!(set.len(), 2);
    assert!(set.contains("open") && set.contains("selective"));
    let set = parse_pipe_separated_value(Some("Random Selection|Sorteo de Obras|".to_string()));
    assert_eq!(set.len(), 3);
    assert!(set.contains("Random Selection") && set.contains("Sorteo de Obras") && set.contains(""));
    assert_eq!(parse_pipe_separated_value(None).len(), 0);
    let set = parse_pipe_separated_value(Some("a|a".to_string()));
    assert_eq!(set.len(), 1);
}

#[test]
fn first_characters_and_order() {
    assert_eq!(first_chars("12345", 2), "12");
    assert_eq!(first_chars("ñandú", 3), "ñan");
    assert_eq!(first_chars("1", 2), "1");
    assert!(is_after("2022-01-11", "2022-01-10"));
    assert!(!is_after("2022-01-10", "2022-01-10"));
    assert!(!is_after("2022-01-09", "2022-01-10"));
}
