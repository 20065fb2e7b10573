//! Ordering the table by one of its columns.

use std::cmp::Ordering;
use vstd::prelude::*;
use crate::decimal::{lemma_decimal_le_total, lemma_decimal_le_transitive};
use crate::lex::{code_points, lemma_lex_le_total, lemma_lex_le_transitive, lex_le};
use crate::normalize::{number_of, FieldValue, FieldView};
use crate::order::{
    ascending, lemma_insert_point_unique, lemma_stable_sort_ascending,
    lemma_stable_sort_is_the_stable_order, lemma_stable_sort_keeps_ties, lemma_stable_sort_len,
    lemma_stable_sort_of_ascending, lemma_stable_sort_permutes, same_ties, stable_sort, ties_of,
    total_preorder,
};
use crate::record::{CryptoData, CryptoView};
use crate::text::{compare_text, lowercase, same_text, text_order, to_lowercase};

verus! {

/// A column by which the table can be ordered.
#[derive(Clone, Copy, Debug, PartialEq, Eq)]
pub enum SortField {
    Symbol,
    Name,
    PriceUsd,
    PercentChange1h,
    PercentChange24h,
    PercentChange7d,
    Volume24,
}

/// The column that a key names, if it names one. A column is known by the
/// key under which the tickers arrive and by its name in the table.
pub open spec fn field_of_key(key: Seq<char>) -> Option<SortField> {
    if key == "symbol"@ {
        Some(SortField::Symbol)
    } else if key == "name"@ {
        Some(SortField::Name)
    } else if key == "price_usd"@ || key == "price"@ {
        Some(SortField::PriceUsd)
    } else if key == "percent_change_1h"@ || key == "percentChange1h"@ {
        Some(SortField::PercentChange1h)
    } else if key == "percent_change_24h"@ || key == "percentChange24h"@ {
        Some(SortField::PercentChange24h)
    } else if key == "percent_change_7d"@ || key == "percentChange7d"@ {
        Some(SortField::PercentChange7d)
    } else if key == "volume24"@ || key == "volume24h"@ {
        Some(SortField::Volume24)
    } else {
        None
    }
}

impl SortField {
    /// The column that a key names, if it names one.
    pub fn from_key(key: &str) -> (r: Option<SortField>)
        ensures
            r == field_of_key(key@),
    {
        if same_text(key, "symbol") {
            Some(SortField::Symbol)
        } else if same_text(key, "name") {
            Some(SortField::Name)
        } else if same_text(key, "price_usd") || same_text(key, "price") {
            Some(SortField::PriceUsd)
        } else if same_text(key, "percent_change_1h") || same_text(key, "percentChange1h") {
            Some(SortField::PercentChange1h)
        } else if same_text(key, "percent_change_24h") || same_text(key, "percentChange24h") {
            Some(SortField::PercentChange24h)
        } else if same_text(key, "percent_change_7d") || same_text(key, "percentChange7d") {
            Some(SortField::PercentChange7d)
        } else if same_text(key, "volume24") || same_text(key, "volume24h") {
            Some(SortField::Volume24)
        } else {
            None
        }
    }
}

/// The text by which a text column is ordered: the lower-case form, and the
/// empty text where the text is missing.
pub open spec fn text_key(t: Option<Seq<char>>) -> Seq<char> {
    match t {
        Some(s) => lowercase(s),
        None => Seq::empty(),
    }
}

/// `a` is at most `b` as texts of a text column.
pub open spec fn text_key_le(a: Option<Seq<char>>, b: Option<Seq<char>>) -> bool {
    lex_le(code_points(text_key(a)), code_points(text_key(b)))
}

/// `a` is at most `b` as quantities: by value, a text counting as zero.
pub open spec fn quantity_le(a: FieldView, b: FieldView) -> bool {
    number_of(a).le(number_of(b))
}

/// `a` is at most `b` in the column `field`.
pub open spec fn key_le(field: SortField, a: CryptoView, b: CryptoView) -> bool {
    match field {
        SortField::Symbol => text_key_le(a.symbol, b.symbol),
        SortField::Name => text_key_le(a.name, b.name),
        SortField::PriceUsd => quantity_le(a.price_usd, b.price_usd),
        SortField::PercentChange1h => quantity_le(a.percent_change_1h, b.percent_change_1h),
        SortField::PercentChange24h => quantity_le(a.percent_change_24h, b.percent_change_24h),
        SortField::PercentChange7d => quantity_le(a.percent_change_7d, b.percent_change_7d),
        SortField::Volume24 => quantity_le(a.volume24, b.volume24),
    }
}

/// The order of records in the column `field`.
pub open spec fn record_le(field: SortField) -> spec_fn(CryptoData, CryptoData) -> bool {
    |a: CryptoData, b: CryptoData| key_le(field, a@, b@)
}

/// How `a` stands to `b` as quantities.
pub open spec fn quantity_order(a: FieldView, b: FieldView) -> Ordering {
    number_of(a).order(number_of(b))
}

/// How `a` stands to `b` as texts of a text column.
pub open spec fn text_key_order(a: Option<Seq<char>>, b: Option<Seq<char>>) -> Ordering {
    text_order(text_key(a), text_key(b))
}

/// The lower-case form of a text, the empty text where it is missing.
fn folded(t: &Option<String>) -> (r: String)
    ensures
        r@ == text_key(crate::record::text_view(*t)),
{
    match t {
        Some(s) => to_lowercase(s.as_str()),
        None => String::new(),
    }
}

/// Orders two quantities by value; a text counts as zero.
pub fn compare_f64(a: &FieldValue, b: &FieldValue) -> (o: Ordering)
    ensures
        o == quantity_order(a@, b@),
{
    let x = a.number();
    let y = b.number();
    x.compare(&y)
}

/// Orders two percentages by value; a text counts as zero.
pub fn compare_percent(a: &FieldValue, b: &FieldValue) -> (o: Ordering)
    ensures
        o == quantity_order(a@, b@),
{
    let x = a.number();
    let y = b.number();
    x.compare(&y)
}

/// Orders two records by symbol, without regard to case.
pub fn compare_symbol(a: &CryptoData, b: &CryptoData) -> (o: Ordering)
    ensures
        o == text_key_order(a@.symbol, b@.symbol),
{
    let x = folded(&a.symbol);
    let y = folded(&b.symbol);
    compare_text(x.as_str(), y.as_str())
}

/// Orders two records by name, without regard to case.
pub fn compare_name(a: &CryptoData, b: &CryptoData) -> (o: Ordering)
    ensures
        o == text_key_order(a@.name, b@.name),
{
    let x = folded(&a.name);
    let y = folded(&b.name);
    compare_text(x.as_str(), y.as_str())
}

/// Orders two records by price.
pub fn compare_price_usd(a: &CryptoData, b: &CryptoData) -> (o: Ordering)
    ensures
        o == quantity_order(a@.price_usd, b@.price_usd),
{
    compare_f64(&a.price_usd, &b.price_usd)
}

/// Orders two records by their change over one hour.
pub fn compare_percent_change_1h(a: &CryptoData, b: &CryptoData) -> (o: Ordering)
    ensures
        o == quantity_order(a@.percent_change_1h, b@.percent_change_1h),
{
    compare_percent(&a.percent_change_1h, &b.percent_change_1h)
}

/// Orders two records by their change over a day.
pub fn compare_percent_change_24h(a: &CryptoData, b: &CryptoData) -> (o: Ordering)
    ensures
        o == quantity_order(a@.percent_change_24h, b@.percent_change_24h),
{
    compare_percent(&a.percent_change_24h, &b.percent_change_24h)
}

/// Orders two records by their change over a week.
pub fn compare_percent_change_7d(a: &CryptoData, b: &CryptoData) -> (o: Ordering)
    ensures
        o == quantity_order(a@.percent_change_7d, b@.percent_change_7d),
{
    compare_percent(&a.percent_change_7d, &b.percent_change_7d)
}

/// Orders two records by volume.
pub fn compare_volume24(a: &CryptoData, b: &CryptoData) -> (o: Ordering)
    ensures
        o == quantity_order(a@.volume24, b@.volume24),
{
    compare_f64(&a.volume24, &b.volume24)
}

/// Whether `a` comes strictly after `b` in the column `field`.
pub fn comes_after(field: SortField, a: &CryptoData, b: &CryptoData) -> (r: bool)
    ensures
        r == !key_le(field, a@, b@),
{
    let o = match field {
        SortField::Symbol => compare_symbol(a, b),
        SortField::Name => compare_name(a, b),
        SortField::PriceUsd => compare_price_usd(a, b),
        SortField::PercentChange1h => compare_percent_change_1h(a, b),
        SortField::PercentChange24h => compare_percent_change_24h(a, b),
        SortField::PercentChange7d => compare_percent_change_7d(a, b),
        SortField::Volume24 => compare_volume24(a, b),
    };
    proof {
        lemma_lex_le_total(code_points(text_key(a@.symbol)), code_points(text_key(b@.symbol)));
        lemma_lex_le_total(code_points(text_key(a@.name)), code_points(text_key(b@.name)));
        lemma_decimal_le_total(number_of(a@.price_usd), number_of(b@.price_usd));
        lemma_decimal_le_total(number_of(a@.percent_change_1h), number_of(b@.percent_change_1h));
        lemma_decimal_le_total(number_of(a@.percent_change_24h), number_of(b@.percent_change_24h));
        lemma_decimal_le_total(number_of(a@.percent_change_7d), number_of(b@.percent_change_7d));
        lemma_decimal_le_total(number_of(a@.volume24), number_of(b@.volume24));
    }
    match o {
        Ordering::Greater => true,
        _ => false,
    }
}

/// In each column the order is a total preorder.
pub proof fn lemma_record_le_total_preorder(field: SortField)
    ensures
        total_preorder(record_le(field)),
{
    let le = record_le(field);
    assert forall|a: CryptoData, b: CryptoData| #[trigger] le(a, b) || le(b, a) by {
        lemma_lex_le_total(code_points(text_key(a@.symbol)), code_points(text_key(b@.symbol)));
        lemma_lex_le_total(code_points(text_key(a@.name)), code_points(text_key(b@.name)));
        lemma_decimal_le_total(number_of(a@.price_usd), number_of(b@.price_usd));
        lemma_decimal_le_total(number_of(a@.percent_change_1h), number_of(b@.percent_change_1h));
        lemma_decimal_le_total(number_of(a@.percent_change_24h), number_of(b@.percent_change_24h));
        lemma_decimal_le_total(number_of(a@.percent_change_7d), number_of(b@.percent_change_7d));
        lemma_decimal_le_total(number_of(a@.volume24), number_of(b@.volume24));
    }
    assert forall|a: CryptoData, b: CryptoData, c: CryptoData|
        #![trigger le(a, b), le(b, c)]
        le(a, b) && le(b, c) implies le(a, c) by {
        match field {
            SortField::Symbol => lemma_lex_le_transitive(
                code_points(text_key(a@.symbol)),
                code_points(text_key(b@.symbol)),
                code_points(text_key(c@.symbol)),
            ),
            SortField::Name => lemma_lex_le_transitive(
                code_points(text_key(a@.name)),
                code_points(text_key(b@.name)),
                code_points(text_key(c@.name)),
            ),
            SortField::PriceUsd => lemma_decimal_le_transitive(
                number_of(a@.price_usd),
                number_of(b@.price_usd),
                number_of(c@.price_usd),
            ),
            SortField::PercentChange1h => lemma_decimal_le_transitive(
                number_of(a@.percent_change_1h),
                number_of(b@.percent_change_1h),
                number_of(c@.percent_change_1h),
            ),
            SortField::PercentChange24h => lemma_decimal_le_transitive(
                number_of(a@.percent_change_24h),
                number_of(b@.percent_change_24h),
                number_of(c@.percent_change_24h),
            ),
            SortField::PercentChange7d => lemma_decimal_le_transitive(
                number_of(a@.percent_change_7d),
                number_of(b@.percent_change_7d),
                number_of(c@.percent_change_7d),
            ),
            SortField::Volume24 => lemma_decimal_le_transitive(
                number_of(a@.volume24),
                number_of(b@.volume24),
                number_of(c@.volume24),
            ),
        }
    }
}

/// Puts the records in ascending order of the column `field`. Records that
/// are tied in that column keep their order.
///
/// Each record is put in among those before it, at a place found by halving:
/// the comparisons are of the order of `n log n`, the moves of `n * n`.
pub fn sort_records(data: &mut Vec<CryptoData>, field: SortField)
    ensures
        final(data)@ == stable_sort(old(data)@, record_le(field)),
{
    let ghost le = record_le(field);
    let ghost input = data@;
    let n = data.len();
    let mut i: usize = 0;
    proof {
        lemma_record_le_total_preorder(field);
        assert(input.take(0) =~= Seq::<CryptoData>::empty());
        assert(input.skip(0) =~= input);
    }
    while i < n
        invariant
            i <= n,
            n == input.len(),
            le == record_le(field),
            total_preorder(le),
            data@ =~= stable_sort(input.take(i as int), le) + input.skip(i as int),
        decreases n - i,
    {
        let ghost placed = stable_sort(input.take(i as int), le);
        proof {
            lemma_stable_sort_len(input.take(i as int), le);
            lemma_stable_sort_ascending(input.take(i as int), le);
        }
        let x = data.remove(i);
        assert(x == input[i as int]);
        assert(data@ =~= placed + input.skip(i + 1));
        let mut low: usize = 0;
        let mut high: usize = i;
        while low < high
            invariant
                low <= high <= i,
                i < n,
                n == input.len(),
                placed.len() == i,
                le == record_le(field),
                total_preorder(le),
                ascending(placed, le),
                data@ =~= placed + input.skip(i + 1),
                forall|k: int| 0 <= k < low ==> le(#[trigger] placed[k], x),
                forall|k: int| high <= k < i ==> !le(#[trigger] placed[k], x),
            decreases high - low,
        {
            let mid = low + (high - low) / 2;
            assert(data@[mid as int] == placed[mid as int]);
            if comes_after(field, &data[mid], &x) {
                assert forall|k: int| mid <= k < i implies !le(#[trigger] placed[k], x) by {
                    if k > mid && le(placed[k], x) {
                        assert(le(placed[mid as int], placed[k]));
                        assert(le(placed[mid as int], x));
                    }
                }
                high = mid;
            } else {
                assert forall|k: int| 0 <= k < mid + 1 implies le(#[trigger] placed[k], x) by {
                    if k < mid {
                        assert(le(placed[k], placed[mid as int]));
                        assert(le(placed[mid as int], x));
                    }
                }
                low = mid + 1;
            }
        }
        proof {
            lemma_insert_point_unique(placed, x, le, low as int);
            let next = input.take(i + 1);
            assert(next.drop_last() =~= input.take(i as int));
            assert(next.last() == x);
        }
        data.insert(low, x);
        assert(data@ =~= placed.insert(low as int, x) + input.skip(i + 1));
        i += 1;
    }
    assert(input.take(n as int) =~= input);
}

/// Turns the order of the records round.
pub fn reverse_records(data: &mut Vec<CryptoData>)
    ensures
        final(data)@ == old(data)@.reverse(),
{
    let ghost input = data@;
    let mut out: Vec<CryptoData> = Vec::new();
    while data.len() > 0
        invariant
            data@ =~= input.take(data.len() as int),
            data.len() <= input.len(),
            out@ =~= input.skip(data.len() as int).reverse(),
        decreases data.len(),
    {
        let ghost before = data@;
        match data.pop() {
            Some(x) => {
                out.push(x);
                assert(x == input[before.len() - 1]);
            },
            None => {},
        }
    }
    assert(input.skip(0) =~= input);
    *data = out;
}

/// The table ordered by the column that `key` names: ascending with ties
/// kept in place, or that order turned round. Without a key, or with a key
/// that names no column, the table as it is.
pub open spec fn sorted_table(
    table: Seq<CryptoData>,
    key: Option<Seq<char>>,
    ascending: bool,
) -> Seq<CryptoData> {
    match key {
        None => table,
        Some(k) => match field_of_key(k) {
            None => table,
            Some(field) => if ascending {
                stable_sort(table, record_le(field))
            } else {
                stable_sort(table, record_le(field)).reverse()
            },
        },
    }
}

/// Orders the table by the column that `sort_by` names, ascending or
/// descending. The descending order is the ascending one turned round.
pub fn sort_data(data: &mut Vec<CryptoData>, sort_by: &Option<String>, sort_asc: bool)
    ensures
        final(data)@ == sorted_table(old(data)@, crate::record::text_view(*sort_by), sort_asc),
{
    match sort_by {
        None => {},
        Some(key) => match SortField::from_key(key.as_str()) {
            None => {},
            Some(field) => {
                sort_records(data, field);
                if !sort_asc {
                    reverse_records(data);
                }
            },
        },
    }
}

/// Ordering descending gives what ordering ascending gives, turned round.
pub proof fn lemma_descending_is_ascending_reversed(table: Seq<CryptoData>, key: Seq<char>)
    requires
        field_of_key(key) is Some,
    ensures
        sorted_table(table, Some(key), false) == sorted_table(table, Some(key), true).reverse(),
{
}

/// Ordering a table ascending by a column in which it is ascending already
/// changes nothing.
pub proof fn lemma_sorting_ascending_table(table: Seq<CryptoData>, key: Seq<char>)
    requires
        field_of_key(key) is Some,
        ascending(table, record_le(field_of_key(key)->0)),
    ensures
        sorted_table(table, Some(key), true) == table,
{
    lemma_stable_sort_of_ascending(table, record_le(field_of_key(key)->0));
}

/// Ordering ascending twice by one column gives what ordering once gives.
pub proof fn lemma_sorting_twice(table: Seq<CryptoData>, key: Seq<char>)
    ensures
        sorted_table(sorted_table(table, Some(key), true), Some(key), true) == sorted_table(
            table,
            Some(key),
            true,
        ),
{
    if field_of_key(key) is Some {
        let field = field_of_key(key)->0;
        lemma_record_le_total_preorder(field);
        lemma_stable_sort_ascending(table, record_le(field));
        lemma_stable_sort_of_ascending(stable_sort(table, record_le(field)), record_le(field));
    }
}

/// A table ordered ascending by a column is ascending in that column.
pub proof fn lemma_sorted_table_ascending(table: Seq<CryptoData>, key: Seq<char>)
    requires
        field_of_key(key) is Some,
    ensures
        ascending(sorted_table(table, Some(key), true), record_le(field_of_key(key)->0)),
{
    let field = field_of_key(key)->0;
    lemma_record_le_total_preorder(field);
    lemma_stable_sort_ascending(table, record_le(field));
}

/// Ordering moves records and neither adds, drops nor changes one.
pub proof fn lemma_sorted_table_permutes(
    table: Seq<CryptoData>,
    key: Option<Seq<char>>,
    ascending: bool,
)
    ensures
        sorted_table(table, key, ascending).to_multiset() == table.to_multiset(),
        sorted_table(table, key, ascending).len() == table.len(),
{
    if key is Some && field_of_key(key->0) is Some {
        let le = record_le(field_of_key(key->0)->0);
        lemma_stable_sort_permutes(table, le);
        lemma_stable_sort_len(table, le);
        stable_sort(table, le).lemma_reverse_to_multiset();
    }
}

/// Records that are tied in the column stand, after ordering ascending, in
/// the order in which they stood before.
pub proof fn lemma_sorted_table_keeps_ties(table: Seq<CryptoData>, key: Seq<char>, z: CryptoData)
    requires
        field_of_key(key) is Some,
    ensures
        ties_of(sorted_table(table, Some(key), true), record_le(field_of_key(key)->0), z)
            == ties_of(table, record_le(field_of_key(key)->0), z),
{
    let field = field_of_key(key)->0;
    lemma_record_le_total_preorder(field);
    lemma_stable_sort_keeps_ties(table, record_le(field), z);
}

/// The table ordered ascending by a column is the one arrangement of it
/// that is ascending in that column and keeps tied records in the order in
/// which they stood.
pub proof fn lemma_sorted_table_is_the_stable_order(
    table: Seq<CryptoData>,
    key: Seq<char>,
    arranged: Seq<CryptoData>,
)
    requires
        field_of_key(key) is Some,
        ascending(arranged, record_le(field_of_key(key)->0)),
        arranged.len() == table.len(),
        same_ties(arranged, table, record_le(field_of_key(key)->0)),
    ensures
        arranged == sorted_table(table, Some(key), true),
{
    let field = field_of_key(key)->0;
    lemma_record_le_total_preorder(field);
    lemma_stable_sort_is_the_stable_order(table, arranged, record_le(field));
}

} // verus!
