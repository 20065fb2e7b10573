use crypto_screener::decimal::Decimal;
use crypto_screener::normalize::{normalize, FieldValue, RawValue};
use crypto_screener::record::{CryptoData, RawRecord};
use crypto_screener::sort::{
    comes_after, compare_f64, compare_name, compare_percent, compare_percent_change_1h,
    compare_percent_change_24h, compare_percent_change_7d, compare_price_usd, compare_symbol,
    compare_volume24, reverse_records, sort_data, sort_records, SortField,
};
use std::cmp::Ordering;

fn number(text: &str) -> Decimal {
    Decimal::parse(text).unwrap()
}

fn text(s: &str) -> RawValue {
    RawValue::Text(s.to_string())
}

fn float(x: f64) -> RawValue {
    RawValue::Float(number(&x.to_string()))
}

fn ticker(symbol: &str, price: RawValue) -> CryptoData {
    CryptoData::from_raw(RawRecord {
        symbol: text(symbol),
        name: RawValue::Null,
        price_usd: price,
        percent_change_1h: RawValue::Null,
        percent_change_24h: RawValue::Null,
        percent_change_7d: RawValue::Null,
        volume24: RawValue::Null,
    })
}

fn full(symbol: &str, name: &str, price: &str, h1: &str, h24: &str, d7: &str, volume: &str) -> CryptoData {
    CryptoData::from_raw(RawRecord {
        symbol: text(symbol),
        name: text(name),
        price_usd: text(price),
        percent_change_1h: text(h1),
        percent_change_24h: text(h24),
        percent_change_7d: text(d7),
        volume24: RawValue::Float(number(volume)),
    })
}

fn market() -> Vec<CryptoData> {
    vec![
        full("BTC", "Bitcoin", "45000.12", "0.10", "-1.5", "12", "25862670689.767"),
        full("eth", "ethereum", "3000", "-0.53", "2.25", "-3", "9000000000.5"),
        full("ADA", "Cardano", "0.45", "1.2", "0", "7.5", "300000000"),
        full("doge", "Dogecoin", "0.08", "-2", "-0.5", "0.5", "500000000"),
        full("XRP", "ripple", "0.5", "0.1", "2.250", "n/a", "1200000000"),
    ]
}

fn symbols(table: &[CryptoData]) -> Vec<String> {
    table.iter().map(|r| r.symbol.clone().unwrap_or_default()).collect()
}

fn sorted(mut table: Vec<CryptoData>, key: &str, ascending: bool) -> Vec<String> {
    sort_data(&mut table, &Some(key.to_string()), ascending);
    symbols(&table)
}

#[test]
fn sort_by_symbol_ignores_case() {
    let mut table = vec![ticker("eth", RawValue::Integer(30)), ticker("BTC", text("45000"))];
    sort_data(&mut table, &Some("symbol".to_string()), true);
    assert_eq!(symbols(&table), vec!["BTC", "eth"]);
    assert_eq!(compare_symbol(&table[0], &table[1]), Ordering::Less);
}

#[test]
fn sort_by_symbol_folds_case_before_comparing() {
    let table = vec![ticker("Zeta", RawValue::Null), ticker("alpha", RawValue::Null)];
    assert_eq!(compare_symbol(&table[0], &table[1]), Ordering::Greater);
    assert_eq!(compare_symbol(&ticker("btc", RawValue::Null), &ticker("BTC", RawValue::Null)), Ordering::Equal);
    assert_eq!(sorted(table, "symbol", true), vec!["alpha", "Zeta"]);
}

#[test]
fn sort_by_price_counts_missing_as_zero() {
    let mut table = vec![
        ticker("a", text("100")),
        ticker("b", float(100.5)),
        ticker("c", RawValue::Null),
    ];
    assert_eq!(table[0].price_usd, FieldValue::Float(number("100.0")));
    assert_eq!(table[1].price_usd, FieldValue::Float(number("100.5")));
    assert_eq!(table[2].price_usd, FieldValue::Text(String::new()));
    assert_eq!(table[0].price_usd.number(), number("100.0"));
    assert_eq!(table[1].price_usd.number(), number("100.5"));
    assert_eq!(table[2].price_usd.number(), number("0.0"));
    let mut again = table.clone();
    sort_data(&mut table, &Some("price".to_string()), true);
    assert_eq!(symbols(&table), vec!["c", "a", "b"]);
    sort_data(&mut again, &Some("price_usd".to_string()), true);
    assert_eq!(again, table);
}

#[test]
fn sort_by_unknown_key_changes_nothing() {
    let mut table = market();
    let before = table.clone();
    sort_data(&mut table, &Some("foo".to_string()), true);
    assert_eq!(table, before);
    sort_data(&mut table, &Some("foo".to_string()), false);
    assert_eq!(table, before);
    sort_data(&mut table, &Some("Symbol".to_string()), true);
    assert_eq!(table, before);
    sort_data(&mut table, &Some(String::new()), false);
    assert_eq!(table, before);
}

#[test]
fn sort_without_a_key_changes_nothing() {
    let mut table = market();
    let before = table.clone();
    sort_data(&mut table, &None, true);
    assert_eq!(table, before);
    sort_data(&mut table, &None, false);
    assert_eq!(table, before);
}

#[test]
fn every_column_orders_the_table() {
    assert_eq!(sorted(market(), "symbol", true), vec!["ADA", "BTC", "doge", "eth", "XRP"]);
    assert_eq!(sorted(market(), "name", true), vec!["BTC", "ADA", "doge", "eth", "XRP"]);
    assert_eq!(sorted(market(), "price_usd", true), vec!["doge", "ADA", "XRP", "eth", "BTC"]);
    assert_eq!(sorted(market(), "percent_change_1h", true), vec!["doge", "eth", "BTC", "XRP", "ADA"]);
    assert_eq!(sorted(market(), "percent_change_24h", true), vec!["BTC", "doge", "ADA", "eth", "XRP"]);
    assert_eq!(sorted(market(), "percent_change_7d", true), vec!["eth", "XRP", "doge", "ADA", "BTC"]);
    assert_eq!(sorted(market(), "volume24", true), vec!["ADA", "doge", "XRP", "eth", "BTC"]);
}

#[test]
fn descending_is_ascending_turned_round() {
    for key in [
        "symbol", "name", "price_usd", "percent_change_1h", "percent_change_24h",
        "percent_change_7d", "volume24",
    ] {
        let mut up = sorted(market(), key, true);
        up.reverse();
        assert_eq!(sorted(market(), key, false), up, "{}", key);
    }
    assert_eq!(sorted(market(), "percent_change_1h", false), vec!["ADA", "XRP", "BTC", "eth", "doge"]);
}

#[test]
fn ties_keep_their_order() {
    let table = vec![
        ticker("a", text("2")),
        ticker("b", text("1")),
        ticker("c", text("2.0")),
        ticker("d", text("1e0")),
        ticker("e", RawValue::Integer(2)),
        ticker("f", text("0.5")),
    ];
    assert_eq!(sorted(table.clone(), "price_usd", true), vec!["f", "b", "d", "a", "c", "e"]);
    assert_eq!(sorted(table.clone(), "price_usd", false), vec!["e", "c", "a", "d", "b", "f"]);
    assert_eq!(sorted(table, "name", true), vec!["a", "b", "c", "d", "e", "f"]);
}

#[test]
fn sorting_a_sorted_table_changes_nothing() {
    for key in ["symbol", "price_usd", "percent_change_24h", "volume24"] {
        let mut table = market();
        sort_data(&mut table, &Some(key.to_string()), true);
        let once = table.clone();
        sort_data(&mut table, &Some(key.to_string()), true);
        assert_eq!(table, once, "{}", key);
    }
}

#[test]
fn missing_text_sorts_first() {
    let mut nameless = ticker("x", RawValue::Null);
    nameless.symbol = None;
    let table = vec![ticker("b", RawValue::Null), nameless, ticker("A", RawValue::Null)];
    assert_eq!(sorted(table, "symbol", true), vec!["", "A", "b"]);
}

#[test]
fn unparseable_quantity_sorts_as_zero() {
    let table = vec![
        ticker("plus", text("1")),
        ticker("word", text("n/a")),
        ticker("minus", text("-1")),
        ticker("zero", text("0")),
        ticker("none", RawValue::Null),
    ];
    assert_eq!(sorted(table, "price_usd", true), vec!["minus", "word", "zero", "none", "plus"]);
}

#[test]
fn sorting_keeps_every_record() {
    let mut table = market();
    let mut before = symbols(&table);
    sort_data(&mut table, &Some("volume24".to_string()), false);
    let mut after = symbols(&table);
    before.sort();
    after.sort();
    assert_eq!(after, before);
}

#[test]
fn sorting_an_empty_table_gives_an_empty_table() {
    let mut table: Vec<CryptoData> = Vec::new();
    sort_data(&mut table, &Some("symbol".to_string()), false);
    assert!(table.is_empty());
}

#[test]
fn keys_name_columns() {
    assert_eq!(SortField::from_key("symbol"), Some(SortField::Symbol));
    assert_eq!(SortField::from_key("name"), Some(SortField::Name));
    assert_eq!(SortField::from_key("price_usd"), Some(SortField::PriceUsd));
    assert_eq!(SortField::from_key("percent_change_1h"), Some(SortField::PercentChange1h));
    assert_eq!(SortField::from_key("percent_change_24h"), Some(SortField::PercentChange24h));
    assert_eq!(SortField::from_key("percent_change_7d"), Some(SortField::PercentChange7d));
    assert_eq!(SortField::from_key("volume24"), Some(SortField::Volume24));
    assert_eq!(SortField::from_key("price"), Some(SortField::PriceUsd));
    assert_eq!(SortField::from_key("percentChange1h"), Some(SortField::PercentChange1h));
    assert_eq!(SortField::from_key("percentChange24h"), Some(SortField::PercentChange24h));
    assert_eq!(SortField::from_key("percentChange7d"), Some(SortField::PercentChange7d));
    assert_eq!(SortField::from_key("volume24h"), Some(SortField::Volume24));
    assert_eq!(SortField::from_key("foo"), None);
    assert_eq!(SortField::from_key("Price"), None);
    assert_eq!(SortField::from_key("price_usd "), None);
    assert_eq!(SortField::from_key(""), None);
}

#[test]
fn comparators_agree_with_values() {
    let table = market();
    assert_eq!(compare_name(&table[0], &table[1]), Ordering::Less);
    assert_eq!(compare_price_usd(&table[0], &table[1]), Ordering::Greater);
    assert_eq!(compare_percent_change_1h(&table[0], &table[4]), Ordering::Equal);
    assert_eq!(compare_percent_change_24h(&table[1], &table[4]), Ordering::Equal);
    assert_eq!(compare_percent_change_7d(&table[4], &table[1]), Ordering::Greater);
    assert_eq!(compare_volume24(&table[2], &table[3]), Ordering::Less);
    assert_eq!(compare_f64(&normalize(text("2")), &normalize(RawValue::Integer(2))), Ordering::Equal);
    assert_eq!(compare_f64(&normalize(text("x")), &normalize(text("-0.1"))), Ordering::Greater);
    assert_eq!(compare_percent(&normalize(text("-2")), &normalize(text("-1"))), Ordering::Less);
    assert_eq!(compare_percent(&normalize(RawValue::Null), &normalize(text("0"))), Ordering::Equal);
    assert!(comes_after(SortField::PriceUsd, &table[0], &table[1]));
    assert!(!comes_after(SortField::PriceUsd, &table[1], &table[0]));
    assert!(!comes_after(SortField::Symbol, &table[0], &table[0]));
}

#[test]
fn records_sort_by_column_and_turn_round() {
    let mut table = market();
    sort_records(&mut table, SortField::PriceUsd);
    assert_eq!(symbols(&table), vec!["doge", "ADA", "XRP", "eth", "BTC"]);
    reverse_records(&mut table);
    assert_eq!(symbols(&table), vec!["BTC", "eth", "XRP", "ADA", "doge"]);
    let mut one = vec![ticker("only", RawValue::Null)];
    reverse_records(&mut one);
    assert_eq!(symbols(&one), vec!["only"]);
}
