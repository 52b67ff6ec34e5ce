use cephlens::json::{parse_json, Json};
use serde_json::Value;

const DOCUMENT: &str = r#"{"b":[10,-3,2.5,1e400,true,null,"x",[],{}],"a/b":{"m~n":1,"":2,"0":3},
  "big":18446744073709551615,"huge":18446744073709551616,"low":-9223372036854775808,"é":"é"}"#;

// 1e400 is refused by the parser, so the document that is walked leaves it out.
fn document() -> String {
    DOCUMENT.replace("1e400,", "")
}

fn same(ours: &Json, theirs: &Value) {
    assert_eq!(ours.as_str(), theirs.as_str());
    assert_eq!(ours.as_bool(), theirs.as_bool());
    assert_eq!(ours.as_u64(), theirs.as_u64());
    assert_eq!(ours.as_i64(), theirs.as_i64());
    assert_eq!(ours.as_double().map(|x| x.bits), theirs.as_f64().map(f64::to_bits));
    assert_eq!(matches!(ours, Json::Null), theirs.is_null());
    assert_eq!(ours.as_array().is_some(), theirs.is_array());
    assert_eq!(ours.as_object().is_some(), theirs.is_object());
    if let (Some(ours), Some(theirs)) = (ours.as_array(), theirs.as_array()) {
        assert_eq!(ours.len(), theirs.len());
        for (a, b) in ours.iter().zip(theirs) {
            same(a, b);
        }
    }
    if let (Some(ours), Some(theirs)) = (ours.as_object(), theirs.as_object()) {
        assert_eq!(ours.len(), theirs.len());
        for ((key, a), (other, b)) in ours.iter().zip(theirs) {
            assert_eq!(key, other);
            same(a, b);
        }
    }
}

#[test]
fn documents_hold_what_the_parser_read() {
    let text = document();
    same(&parse_json(&text).unwrap(), &serde_json::from_str(&text).unwrap());
    for text in ["1", "-0", "0.1", "\"s\"", "[]", "{}", "null", "true", " [1] "] {
        same(&parse_json(text).unwrap(), &serde_json::from_str(text).unwrap());
    }
}

#[test]
fn errors_carry_the_words_of_the_parser() {
    for text in ["", "{", "[1,]", "nul", "{\"a\":1}x", DOCUMENT] {
        let theirs = serde_json::from_str::<Value>(text).unwrap_err().to_string();
        assert_eq!(parse_json(text).unwrap_err(), theirs);
    }
}

#[test]
fn pointers_lead_where_the_parser_says() {
    let text = document();
    let ours = parse_json(&text).unwrap();
    let theirs: Value = serde_json::from_str(&text).unwrap();
    for path in [
        "", "/", "b", "/b", "/b/0", "/b/00", "/b/01", "/b/+1", "/b/-1", "/b/99", "/b/7", "/b/8",
        "/a~1b/m~0n", "/a~1b/", "/a~1b/0", "/a/b", "/big", "/b/0/x", "/é", "/b/18446744073709551616",
        "/~01", "/b//",
    ] {
        match (ours.pointer(path), theirs.pointer(path)) {
            (Some(a), Some(b)) => same(a, b),
            (a, b) => assert_eq!(a.is_some(), b.is_some(), "{path}"),
        }
    }
}

#[test]
fn entries_of_a_missing_array_are_none() {
    let value = parse_json(r#"{"a":[1,2],"b":3}"#).unwrap();
    assert_eq!(value.entries("/a").len(), 2);
    assert!(value.entries("/b").is_empty());
    assert!(value.entries("/c").is_empty());
    assert!(value.array("/b").is_none());
}

#[test]
fn doubled_names_are_kept_once() {
    let value = parse_json(r#"{"b":1,"a":2,"b":3}"#).unwrap();
    let names = value.as_object().unwrap().iter().map(|(name, _)| name.as_str()).collect::<Vec<_>>();
    assert_eq!(names, vec!["a", "b"]);
    assert_eq!(value.pointer("/b").unwrap().as_u64(), Some(3));
}
