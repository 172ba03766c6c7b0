//! Typed reads (`FromField`) and writes (`IntoValue`).

use xisf_header::{DateTime, FromField, IntoValue, Literal, Value};

#[test]
fn from_field_string_is_verbatim() {
    assert_eq!(String::from_field(" M31 "), Some(" M31 ".to_owned()));
}

#[test]
fn from_field_i64_is_lenient() {
    assert_eq!(i64::from_field("20"), Some(20));
    assert_eq!(i64::from_field("20.0"), Some(20));
    assert_eq!(i64::from_field(" -7 "), Some(-7));
    assert_eq!(i64::from_field("1e10"), Some(10_000_000_000));
    assert_eq!(i64::from_field("20.5"), None);
    assert_eq!(i64::from_field("1e300"), None); // beyond exact-f64 range
    assert_eq!(i64::from_field("inf"), None);
    assert_eq!(i64::from_field("abc"), None);
}

#[test]
fn from_field_u32() {
    assert_eq!(u32::from_field("2"), Some(2));
    assert_eq!(u32::from_field("2.0"), Some(2));
    assert_eq!(u32::from_field("-1"), None);
    assert_eq!(u32::from_field("4294967296"), None); // u32::MAX + 1
}

#[test]
fn from_field_bool_spellings() {
    for t in ["T", "t", "1", "true", "TRUE", " T "] {
        assert_eq!(bool::from_field(t), Some(true), "{t:?}");
    }
    for f in ["F", "f", "0", "false", "FALSE"] {
        assert_eq!(bool::from_field(f), Some(false), "{f:?}");
    }
    assert_eq!(bool::from_field("yes"), None);
    assert_eq!(bool::from_field(""), None);
}

#[test]
fn from_field_datetime_forms() {
    let dt = DateTime::from_field("2026-07-11T22:15:03").unwrap();
    assert_eq!((dt.year(), dt.hour(), dt.second()), (2026, 22, 3));

    let frac = DateTime::from_field("2026-07-11T22:15:03.25").unwrap();
    assert_eq!(frac.millisecond(), 250);

    // A trailing Z (UTC designator) is tolerated.
    assert!(DateTime::from_field("2026-07-11T22:15:03Z").is_some());

    // A bare calendar date reads as midnight.
    let date = DateTime::from_field("2026-07-11").unwrap();
    assert_eq!((date.hour(), date.minute()), (0, 0));

    assert_eq!(DateTime::from_field("2026-13-40T00:00:00"), None);
    assert_eq!(DateTime::from_field("not a date"), None);
}

#[test]
fn into_value_kind_selection() {
    assert_eq!("s".into_value(), Value::Str("s".to_owned()));
    assert_eq!(String::from("s").into_value(), Value::Str("s".to_owned()));
    assert_eq!(100_i64.into_value(), Value::Literal("100".to_owned()));
    assert_eq!(2_u32.into_value(), Value::Literal("2".to_owned()));
    assert_eq!(true.into_value(), Value::Literal("T".to_owned()));
    assert_eq!(false.into_value(), Value::Literal("F".to_owned()));
    let v = Value::Literal("x".to_owned());
    assert_eq!(v.clone().into_value(), v);
}

#[test]
fn value_text_and_default() {
    assert_eq!(Value::Str("a".to_owned()).text(), "a");
    assert_eq!(Value::Literal("1".to_owned()).text(), "1");
    assert_eq!(Value::default(), Value::Str(String::new()));
}

// ----- further cases ---------------------------------------------------------------

#[test]
fn literal_wrapper_is_kept_verbatim() {
    assert_eq!(
        Literal("0x1F".to_owned()).into_value(),
        Value::Literal("0x1F".to_owned())
    );
}

#[test]
fn integers_read_back_as_written() {
    for n in [0_i64, 7, -7, 42, i64::MAX, i64::MIN, 10_000_000_000] {
        let v = n.into_value();
        assert_eq!(i64::from_field(v.text()), Some(n), "{n}");
    }
    for n in [0_u32, 1, u32::MAX] {
        let v = n.into_value();
        assert_eq!(u32::from_field(v.text()), Some(n), "{n}");
    }
    for b in [true, false] {
        assert_eq!(bool::from_field(true.into_value().text()), Some(true));
        assert_eq!(bool::from_field(b.into_value().text()), Some(b));
    }
}

#[test]
fn lenient_int_edge_cases() {
    assert_eq!(i64::from_field("+5"), Some(5));
    assert_eq!(i64::from_field("9223372036854775807"), Some(i64::MAX));
    assert_eq!(i64::from_field("-9223372036854775808"), Some(i64::MIN));
    assert_eq!(i64::from_field("1.5e1"), Some(15));
    assert_eq!(i64::from_field(".5e1"), Some(5));
    assert_eq!(i64::from_field("5."), Some(5));
    assert_eq!(i64::from_field("9007199254740992.0"), None);
    assert_eq!(i64::from_field("-9007199254740991.0"), Some(-9_007_199_254_740_991));
    assert_eq!(i64::from_field(""), None);
    assert_eq!(i64::from_field("."), None);
    assert_eq!(i64::from_field("1e"), None);
}

#[test]
fn datetime_fields_are_those_parsed() {
    assert_eq!(
        DateTime::from_field("2026-07-11T22:15:03.25"),
        Some(DateTime { year: 2026, month: 7, day: 11, hour: 22, minute: 15, second: 3, nanosecond: 250_000_000 })
    );
    assert_eq!(
        DateTime::from_field("2026-07-11"),
        Some(DateTime { year: 2026, month: 7, day: 11, hour: 0, minute: 0, second: 0, nanosecond: 0 })
    );
}
