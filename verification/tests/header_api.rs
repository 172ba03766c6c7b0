//! The keyword API of `Header`: strict access, writes, and identifier rules.

use xisf_header::XisfError as Error;
use xisf_header::{FitsKeyword, Header};

#[test]
fn validate_name_rules() {
    assert!(Header::validate_name("GAIN").is_ok());
    assert!(Header::validate_name("DATE-OBS").is_ok());
    assert!(Header::validate_name("lower_k").is_ok());
    assert!(Header::validate_name("EIGHTCHR").is_ok());
    assert!(Header::validate_name("").is_err());
    assert!(Header::validate_name("NINECHARS").is_err());
    assert!(Header::validate_name("BAD KEY").is_err());
    assert!(Header::validate_name("NAME!").is_err());
}

#[test]
fn validate_property_id_rules() {
    assert!(Header::validate_property_id("Instrument:Telescope:FocalLength").is_ok());
    assert!(Header::validate_property_id("A_b:9").is_ok());
    assert!(Header::validate_property_id("").is_err());
    assert!(Header::validate_property_id("bad id!").is_err());
    assert!(Header::validate_property_id("hy-phen").is_err());
}

#[test]
fn nth_write_on_absent_name_errors() {
    let mut h = Header::new();
    assert!(matches!(
        h.set(("MISSING", 0), 1_i64),
        Err(Error::IndexOutOfRange { count: 0, .. })
    ));
}

#[test]
fn set_with_comment_creates_and_updates() {
    let mut h = Header::new();
    h.set_with_comment("GAIN", 100_i64, "sensor gain").unwrap();
    assert_eq!(h.get_i64("GAIN").unwrap(), Some(100));
    assert_eq!(h.keywords()[0].comment, "sensor gain");

    h.set_with_comment("GAIN", 200_i64, "updated").unwrap();
    assert_eq!(h.get_i64("GAIN").unwrap(), Some(200));
    assert_eq!(h.keywords()[0].comment, "updated");

    h.append("HISTORY", "a").unwrap();
    h.append("HISTORY", "b").unwrap();
    assert!(matches!(
        h.set_with_comment("HISTORY", "x", "c"),
        Err(Error::Ambiguous { .. })
    ));
}

#[test]
fn set_comment_on_absent_keyword_reports_not_found() {
    let mut h = Header::new();
    assert!(!h.set_comment("MISSING", "c").unwrap());
}

#[test]
fn remove_all_clears_every_occurrence() {
    let mut h = Header::new();
    h.append("HISTORY", "a").unwrap();
    h.append("HISTORY", "b").unwrap();
    h.set("GAIN", 1_i64).unwrap();
    assert_eq!(h.remove_all("history"), 2); // case-insensitive
    assert_eq!(h.count("HISTORY"), 0);
    assert_eq!(h.remove_all("HISTORY"), 0);
    assert_eq!(h.get_i64("GAIN").unwrap(), Some(1));
}

#[test]
fn iter_preserves_document_order() {
    let mut h = Header::new();
    h.set("A", 1_i64).unwrap();
    h.set("B", 2_i64).unwrap();
    h.set("C", 3_i64).unwrap();
    let names: Vec<&str> = h.iter().map(|k| k.name.as_str()).collect();
    assert_eq!(names, ["A", "B", "C"]);
}

#[test]
fn string_keys_are_accepted() {
    let mut h = Header::new();
    let key = String::from("GAIN");
    h.set(&key, 100_i64).unwrap();
    assert_eq!(h.get_i64(&key).unwrap(), Some(100));
}

#[test]
fn generic_get_reads_string() {
    let mut h = Header::new();
    h.set("OBJECT", "M31").unwrap();
    assert_eq!(h.get::<String>("OBJECT").unwrap(), Some("M31".to_owned()));
}

#[test]
fn new_selects_value_kind_from_rust_type() {
    let s = FitsKeyword::new("OBJECT", "M31", "target");
    assert_eq!(s.value_str(), "M31");
    assert_eq!(s.comment, "target");
    assert_eq!(s.get::<String>(), Some("M31".to_owned()));

    let n = FitsKeyword::new("GAIN", 100_i64, "");
    assert_eq!(n.value_str(), "100");
    assert_eq!(n.get::<i64>(), Some(100));
    assert_eq!(n.get::<bool>(), None);
}

// ----- further cases ---------------------------------------------------------------

#[test]
fn invalid_name_reports_the_reason() {
    let mut h = Header::new();
    match h.set("NINECHARS", 1_i64) {
        Err(Error::InvalidName { name, reason }) => {
            assert_eq!(name, "NINECHARS");
            assert_eq!(reason, "exceeds 8 characters");
        }
        other => panic!("unexpected {other:?}"),
    }
    match h.append("BAD KEY", 1_i64) {
        Err(Error::InvalidName { reason, .. }) => {
            assert_eq!(reason, "must be ASCII letters, digits, `-`, or `_`")
        }
        other => panic!("unexpected {other:?}"),
    }
    match h.set_property("", "x") {
        Err(Error::InvalidName { reason, .. }) => assert_eq!(reason, "empty"),
        other => panic!("unexpected {other:?}"),
    }
    assert!(h.keywords().is_empty());
}

#[test]
fn set_keeps_an_existing_comment() {
    let mut h = Header::new();
    h.set_with_comment("GAIN", 100_i64, "sensor gain").unwrap();
    h.set("GAIN", 200_i64).unwrap();
    assert_eq!(h.keywords()[0].comment, "sensor gain");
    assert_eq!(h.get_str("GAIN").unwrap(), Some("200"));
}

#[test]
fn set_then_get_by_occurrence() {
    let mut h = Header::new();
    h.append("HISTORY", "first").unwrap();
    h.append("HISTORY", "second").unwrap();
    h.set(("HISTORY", 1), "changed").unwrap();
    assert_eq!(h.get_str(("history", 1)).unwrap(), Some("changed"));
    assert_eq!(h.get_str(("HISTORY", 0)).unwrap(), Some("first"));
}

#[test]
fn append_adds_one_occurrence_at_the_end() {
    let mut h = Header::new();
    h.set("GAIN", 1_i64).unwrap();
    h.append("GAIN", 2_i64).unwrap();
    assert_eq!(h.count("GAIN"), 2);
    assert_eq!(h.get_i64(("GAIN", 1)).unwrap(), Some(2));
    assert!(matches!(
        h.get_i64("GAIN"),
        Err(Error::Ambiguous { count: 2, .. })
    ));
}

#[test]
fn set_many_writes_in_order_and_remove_many_counts() {
    let mut h = Header::new();
    h.set_many(vec![("A", 1_i64), ("B", 2_i64), ("A", 3_i64)]).unwrap();
    let names: Vec<&str> = h.iter().map(|k| k.name.as_str()).collect();
    assert_eq!(names, ["A", "B"]);
    assert_eq!(h.get_i64("A").unwrap(), Some(3));
    assert_eq!(h.remove_many(vec!["A", "MISSING", "B"]).unwrap(), 2);
    assert!(h.keywords().is_empty());
}

#[test]
fn remove_many_rejects_a_duplicated_name_and_changes_nothing() {
    let mut h = Header::new();
    h.append("HISTORY", "a").unwrap();
    h.append("HISTORY", "b").unwrap();
    h.set("GAIN", 1_i64).unwrap();
    assert!(matches!(
        h.remove_many(vec!["GAIN", "HISTORY"]),
        Err(Error::Ambiguous { count: 2, .. })
    ));
    assert_eq!(h.keywords().len(), 3);
}

#[test]
fn duplicate_is_equal() {
    let mut h = Header::new();
    h.set("OBJECT", "M31").unwrap();
    h.set_property("Observer:Name", "Sjors").unwrap();
    assert_eq!(h.duplicate(), h);
}

#[test]
fn set_many_equals_single_sets_in_order() {
    let mut base = Header::new();
    base.set("GAIN", 1_i64).unwrap();
    let mut batch = base.clone();
    batch.set_many(vec![("A", 1_i64), ("GAIN", 2_i64), ("a", 3_i64)]).unwrap();
    let mut single = base.clone();
    single.set("A", 1_i64).unwrap();
    single.set("GAIN", 2_i64).unwrap();
    single.set("a", 3_i64).unwrap();
    assert_eq!(batch, single);
}

#[test]
fn count_ignores_case_and_matches_get_all() {
    let mut h = Header::new();
    h.append("HISTORY", "a").unwrap();
    h.append("history", "b").unwrap();
    h.set("GAIN", 1_i64).unwrap();
    assert_eq!(h.count("HISTORY"), 2);
    assert_eq!(h.count("History"), 2);
    assert_eq!(h.get_all::<String>("history").len(), h.count("HISTORY"));
}
