use std::cmp::Ordering;

use crypto_screener::decimal::Decimal;

fn number(text: &str) -> Decimal {
    match Decimal::parse(text) {
        Some(d) => d,
        None => panic!("{:?} should write a number", text),
    }
}

#[test]
fn parse_accepts_number_texts() {
    for text in [
        "0", "-0", "+0", "7", "007", "1.5", "+1.5", "-1.5", ".5", "5.", "-.5", "0.00100", "1e5",
        "1E5", "1e-5", "1e+5", "1.2e+3", "12.e3", ".5e1", "1e10000", "1e-10000", "1e00010000",
        "123456789012345678901234567890.123456789012345678901234567890",
    ] {
        assert!(Decimal::parse(text).is_some(), "{:?} should write a number", text);
    }
}

#[test]
fn parse_refuses_other_texts() {
    for text in [
        "", ".", "-", "+", "e5", ".e5", "1e", "1e+", "1e-", "abc", "1.2.3", " 1", "1 ", "1,5",
        "inf", "-inf", "infinity", "nan", "NaN", "1e5x", "1x", "--1", "+-1", "1e1.5", "0x10",
        "1e10001", "1e-10001", "١٢٣", "1_000",
    ] {
        assert!(Decimal::parse(text).is_none(), "{:?} should write no number", text);
    }
}

#[test]
fn equal_numbers_have_one_form() {
    for text in ["100.0", "1e2", "+100", "0100.00", "10e1", "1000e-1", "0.01e4", "100."] {
        assert_eq!(number(text), number("100"), "{:?}", text);
    }
    for text in ["-0", "+0", "0.0", ".0", "0.", "0e5", "-0.000e-7", "000"] {
        assert_eq!(number(text), Decimal::zero(), "{:?}", text);
    }
    assert_ne!(number("100"), number("-100"));
    assert_ne!(number("100"), number("100.000000000000000000001"));
}

#[test]
fn compare_orders_by_value() {
    let ascending = [
        "-1e3", "-100.5", "-100", "-2", "-1", "-0.5", "-1e-3", "0", "1e-10000", "0.0001", "1e-3",
        "0.0011", "0.01", "0.5", "0.51", "1", "9.99", "10", "30", "100", "100.000000000000000000001",
        "100.5", "45000", "1e10000",
    ];
    for i in 0..ascending.len() {
        for j in 0..ascending.len() {
            let expected = i.cmp(&j);
            assert_eq!(
                number(ascending[i]).compare(&number(ascending[j])),
                expected,
                "{} against {}",
                ascending[i],
                ascending[j]
            );
        }
    }
    assert_eq!(number("1.50").compare(&number("1.5")), Ordering::Equal);
    assert_eq!(number("-0").compare(&number("0")), Ordering::Equal);
}

#[test]
fn whole_numbers_are_exact() {
    for i in [0i64, 1, -1, 5, -5, 10, 99, 100, 1000, -120, 9007199254740993, i64::MAX, i64::MIN] {
        assert_eq!(Decimal::from_i64(i), number(&i.to_string()), "{}", i);
        assert_eq!(Decimal::from_i64(i).to_text(), i.to_string());
    }
    assert_eq!(
        Decimal::from_i64(9007199254740993).compare(&Decimal::from_i64(9007199254740992)),
        Ordering::Greater
    );
}

#[test]
fn plain_notation_holds_every_digit() {
    for (text, plain) in [
        ("0", "0"),
        ("-0", "0"),
        ("100.5", "100.5"),
        ("100.50", "100.5"),
        ("0100", "100"),
        ("1e3", "1000"),
        ("1.5e3", "1500"),
        ("1e-3", "0.001"),
        ("-0.53", "-0.53"),
        ("+.5", "0.5"),
        ("5.", "5"),
        ("12345.678e-2", "123.45678"),
        ("12345.678e2", "1234567.8"),
        ("-1e0", "-1"),
        ("0.000000000000000000000001", "0.000000000000000000000001"),
    ] {
        assert_eq!(number(text).to_text(), plain, "{:?}", text);
        assert_eq!(number(&number(text).to_text()), number(text), "{:?}", text);
    }
}

#[test]
fn fixed_notation_rounds_half_to_even() {
    for (text, places, fixed) in [
        ("45000", 6, "45000.000000"),
        ("45000.1", 6, "45000.100000"),
        ("0.1234567", 6, "0.123457"),
        ("0.1234564", 6, "0.123456"),
        ("0.0000005", 6, "0.000000"),
        ("0.00000050000001", 6, "0.000001"),
        ("0.0000015", 6, "0.000002"),
        ("0.0000025", 6, "0.000002"),
        ("0.0000035", 6, "0.000004"),
        ("9.9999995", 6, "10.000000"),
        ("9.9999994", 6, "9.999999"),
        ("999.995", 2, "1000.00"),
        ("999.985", 2, "999.98"),
        ("1.005", 2, "1.00"),
        ("1.015", 2, "1.02"),
        ("1.0150", 2, "1.02"),
        ("-1.015", 2, "-1.02"),
        ("-0.004", 2, "0.00"),
        ("-0.006", 2, "-0.01"),
        ("123.456", 0, "123"),
        ("0.5", 0, "0"),
        ("1.5", 0, "2"),
        ("2.5", 0, "2"),
        ("2.51", 0, "3"),
        ("1e-10", 6, "0.000000"),
        ("5e-7", 6, "0.000000"),
        ("6e-7", 6, "0.000001"),
        ("4.99e-7", 6, "0.000000"),
        ("0", 2, "0.00"),
        ("1e3", 2, "1000.00"),
        ("25862670689.767", 2, "25862670689.77"),
        ("0.05", 1, "0.0"),
        ("0.15", 1, "0.2"),
        ("0.95", 1, "1.0"),
        ("99.95", 1, "100.0"),
    ] {
        assert_eq!(number(text).to_fixed(places), fixed, "{:?} to {} places", text, places);
    }
}

#[test]
fn rounding_gives_a_number_of_that_many_places() {
    assert_eq!(number("1.2345").round_to(2), number("1.23"));
    assert_eq!(number("1.235").round_to(2), number("1.24"));
    assert_eq!(number("1.225").round_to(2), number("1.22"));
    assert_eq!(number("-1.235").round_to(2), number("-1.24"));
    assert_eq!(number("1.2").round_to(2), number("1.2"));
    assert_eq!(number("0.004").round_to(2), Decimal::zero());
    assert_eq!(number("-0.004").round_to(2), Decimal::zero());
    assert_eq!(number("99.999").round_to(2), number("100"));
    assert_eq!(number("1200").round_to(0), number("1200"));
}

#[test]
fn clone_keeps_the_number() {
    let d = number("-12.5e3");
    assert_eq!(d.clone(), d);
    assert_eq!(d.clone().compare(&d), Ordering::Equal);
}

#[test]
fn floats_written_out_read_back() {
    for x in [
        0.0f64, 0.1, 100.5, -0.53, 1e-7, 1e21, -2.5e-3, 45000.123456, 25862670689.767,
        1.7976931348623157e308, 5e-324,
    ] {
        let d = number(&x.to_string());
        assert_eq!(d.to_text().parse::<f64>().unwrap(), x, "{}", x);
        assert_eq!(number(&format!("{:e}", x)), d, "{}", x);
    }
    assert!(Decimal::parse(&f64::NAN.to_string()).is_none());
    assert!(Decimal::parse(&f64::INFINITY.to_string()).is_none());
}

#[test]
fn order_of_numbers_is_the_order_of_floats() {
    let values = [-1e3f64, -100.5, -1.0, -1e-3, 0.0, 1e-7, 0.5, 1.0, 9.99, 10.0, 100.5, 4.5e4];
    for a in values {
        for b in values {
            assert_eq!(
                number(&a.to_string()).compare(&number(&b.to_string())),
                a.partial_cmp(&b).unwrap(),
                "{} against {}",
                a,
                b
            );
        }
    }
}

#[test]
fn fixed_notation_agrees_with_float_formatting_within_float_precision() {
    for x in [0.0f64, 0.1, 100.5, -0.53, 1e-7, 45000.123456, 0.000123456789, 2.0 / 3.0] {
        let d = number(&x.to_string());
        assert_eq!(d.to_fixed(6), format!("{:.6}", x), "{}", x);
    }
    for x in [0.0f64, 0.1, 100.5, -0.53, 45000.123456, 25862670689.767, 2.0 / 3.0] {
        let d = number(&x.to_string());
        assert_eq!(d.to_fixed(2), format!("{:.2}", x), "{}", x);
    }
}

#[test]
fn fixed_notation_is_exact_beyond_float_precision() {
    assert_eq!(number("25862670689.767").to_fixed(6), "25862670689.767000");
    assert_eq!(number("0.1").to_fixed(20), "0.10000000000000000000");
    assert_eq!(number("123456789012345678901234567890.5").to_fixed(0), "123456789012345678901234567890");
    assert_eq!(number("123456789012345678901234567891.5").to_fixed(0), "123456789012345678901234567892");
}
