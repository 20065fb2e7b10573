use crypto_screener::decimal::Decimal;
use crypto_screener::normalize::RawValue;
use crypto_screener::record::{CryptoData, RawRecord};
use crypto_screener::selection::{toggle_cell_selection, CellSelection};
use crypto_screener::sort::sort_data;
use std::collections::HashSet;

/// A small generator of numbers that repeats from run to run.
struct Dice(u64);

impl Dice {
    fn roll(&mut self, sides: u64) -> u64 {
        self.0 = self.0.wrapping_mul(6364136223846793005).wrapping_add(1442695040888963407);
        (self.0 >> 33) % sides
    }
}

fn quantity(dice: &mut Dice) -> String {
    match dice.roll(12) {
        0 => String::new(),
        1 => "n/a".to_string(),
        _ => {
            let digits = dice.roll(2000);
            let sign = if dice.roll(3) == 0 { "-" } else { "" };
            match dice.roll(4) {
                0 => format!("{}{}", sign, digits),
                1 => format!("{}{}.{}", sign, digits / 10, digits % 10),
                2 => format!("{}{}e-{}", sign, digits, dice.roll(4)),
                _ => format!("{}0.{:04}", sign, digits),
            }
        }
    }
}

fn as_float(text: &str) -> f64 {
    text.parse::<f64>().unwrap_or(0.0)
}

fn table(dice: &mut Dice, rows: usize) -> (Vec<CryptoData>, Vec<(usize, String, String)>) {
    let mut records = Vec::new();
    let mut plain = Vec::new();
    for row in 0..rows {
        let symbol: String = (0..1 + dice.roll(3))
            .map(|_| {
                let letter = (b'a' + dice.roll(4) as u8) as char;
                if dice.roll(2) == 0 { letter.to_ascii_uppercase() } else { letter }
            })
            .collect();
        let price = quantity(dice);
        plain.push((row, symbol.clone(), price.clone()));
        records.push(CryptoData::from_raw(RawRecord {
            symbol: RawValue::Text(symbol),
            name: RawValue::Text(row.to_string()),
            price_usd: RawValue::Text(price),
            percent_change_1h: RawValue::Null,
            percent_change_24h: RawValue::Null,
            percent_change_7d: RawValue::Null,
            volume24: RawValue::Null,
        }));
    }
    (records, plain)
}

fn rows_of(records: &[CryptoData]) -> Vec<usize> {
    records.iter().map(|r| r.name.clone().unwrap().parse::<usize>().unwrap()).collect()
}

#[test]
fn sorting_by_price_agrees_with_a_stable_sort_of_floats() {
    let mut dice = Dice(7);
    for round in 0..60 {
        let (mut records, mut plain) = table(&mut dice, round % 23);
        let ascending = round % 2 == 0;
        sort_data(&mut records, &Some("price_usd".to_string()), ascending);
        plain.sort_by(|a, b| as_float(&a.2).partial_cmp(&as_float(&b.2)).unwrap());
        if !ascending {
            plain.reverse();
        }
        let expected: Vec<usize> = plain.iter().map(|p| p.0).collect();
        assert_eq!(rows_of(&records), expected, "round {}", round);
    }
}

#[test]
fn sorting_by_symbol_agrees_with_a_stable_sort_of_folded_texts() {
    let mut dice = Dice(11);
    for round in 0..60 {
        let (mut records, mut plain) = table(&mut dice, round % 19);
        let ascending = round % 3 != 0;
        sort_data(&mut records, &Some("symbol".to_string()), ascending);
        plain.sort_by(|a, b| a.1.to_lowercase().cmp(&b.1.to_lowercase()));
        if !ascending {
            plain.reverse();
        }
        let expected: Vec<usize> = plain.iter().map(|p| p.0).collect();
        assert_eq!(rows_of(&records), expected, "round {}", round);
    }
}

#[test]
fn comparing_agrees_with_comparing_floats() {
    let mut dice = Dice(3);
    for _ in 0..2000 {
        let a = quantity(&mut dice);
        let b = quantity(&mut dice);
        if let (Some(x), Some(y)) = (Decimal::parse(&a), Decimal::parse(&b)) {
            let expected = as_float(&a).partial_cmp(&as_float(&b)).unwrap();
            assert_eq!(x.compare(&y), expected, "{} against {}", a, b);
            assert_eq!(Decimal::parse(&x.to_text()).unwrap(), x, "{}", a);
            assert_eq!(as_float(&x.to_text()), as_float(&a), "{}", a);
        } else {
            assert!(a.is_empty() || a == "n/a" || b.is_empty() || b == "n/a");
        }
    }
}

#[test]
fn toggling_agrees_with_a_hash_set() {
    let mut dice = Dice(5);
    let mut cells = CellSelection::new();
    let mut expected: HashSet<(String, String)> = HashSet::new();
    for _ in 0..500 {
        let id = format!("row{}", dice.roll(5));
        let column = format!("col{}", dice.roll(4));
        toggle_cell_selection(&mut cells, id.clone(), column.clone());
        let cell = (id, column);
        if expected.contains(&cell) {
            expected.remove(&cell);
        } else {
            expected.insert(cell);
        }
        assert_eq!(cells.len(), expected.len());
        for row in 0..5 {
            for col in 0..4 {
                let (i, c) = (format!("row{}", row), format!("col{}", col));
                assert_eq!(cells.contains(&i, &c), expected.contains(&(i.clone(), c.clone())));
            }
        }
    }
}
