use std::cmp::Ordering;

use crypto_screener::decimal::Decimal;
use crypto_screener::normalize::{normalize, FieldValue, RawValue};

fn number(text: &str) -> Decimal {
    Decimal::parse(text).unwrap()
}

fn text(s: &str) -> RawValue {
    RawValue::Text(s.to_string())
}

#[test]
fn text_that_writes_a_number_becomes_that_number() {
    assert_eq!(normalize(text("100")), FieldValue::Float(number("100.0")));
    assert_eq!(normalize(text("45000")), FieldValue::Float(number("45000")));
    assert_eq!(normalize(text("-0.53")), FieldValue::Float(number("-0.53")));
    assert_eq!(normalize(text("1e3")), FieldValue::Float(number("1000")));
    assert_eq!(normalize(text("42")), FieldValue::Float(Decimal::from_i64(42)));
}

#[test]
fn other_text_stays_text() {
    assert_eq!(normalize(text("BTC")), FieldValue::Text("BTC".to_string()));
    assert_eq!(normalize(text("1INCH")), FieldValue::Text("1INCH".to_string()));
    assert_eq!(normalize(text("")), FieldValue::Text(String::new()));
    assert_eq!(normalize(text("n/a")), FieldValue::Text("n/a".to_string()));
    assert_eq!(normalize(text("NaN")), FieldValue::Text("NaN".to_string()));
    assert_eq!(normalize(text(" 1")), FieldValue::Text(" 1".to_string()));
}

#[test]
fn numbers_stay_numbers() {
    assert_eq!(normalize(RawValue::Integer(30)), FieldValue::Integer(30));
    assert_eq!(normalize(RawValue::Integer(-7)), FieldValue::Integer(-7));
    assert_eq!(normalize(RawValue::Float(number("100.5"))), FieldValue::Float(number("100.5")));
}

#[test]
fn nothing_becomes_empty_text() {
    assert_eq!(normalize(RawValue::Null), FieldValue::Text(String::new()));
}

#[test]
fn number_of_a_field_is_its_value_or_zero() {
    assert_eq!(normalize(text("100")).number(), number("100"));
    assert_eq!(normalize(RawValue::Float(number("100.5"))).number(), number("100.5"));
    assert_eq!(normalize(RawValue::Null).number(), Decimal::zero());
    assert_eq!(normalize(text("abc")).number(), Decimal::zero());
    assert_eq!(normalize(RawValue::Integer(30)).number(), number("30"));
    assert_eq!(
        normalize(RawValue::Integer(30)).number().compare(&normalize(text("30.0")).number()),
        Ordering::Equal
    );
}

#[test]
fn fields_show_as_text() {
    assert_eq!(normalize(text("abc")).text(), "abc");
    assert_eq!(normalize(text("1.50")).text(), "1.5");
    assert_eq!(normalize(RawValue::Integer(-30)).text(), "-30");
    assert_eq!(normalize(RawValue::Null).text(), "");
    assert_eq!(normalize(text("abc")).text_fixed(2), "abc");
    assert_eq!(normalize(text("1.505")).text_fixed(2), "1.50");
    assert_eq!(normalize(RawValue::Integer(-30)).text_fixed(2), "-30.00");
    assert_eq!(normalize(RawValue::Null).text_fixed(2), "");
}
