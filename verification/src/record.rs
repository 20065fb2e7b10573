//! One ticker of the table.

use vstd::prelude::*;
use vstd::string::*;
use crate::normalize::{
    normalize, normalized, shown, shown_fixed, FieldValue, FieldView, RawValue, RawView,
};

verus! {

/// A ticker as it arrives, field by field.
#[derive(Clone, Debug, PartialEq, Eq)]
pub struct RawRecord {
    pub symbol: RawValue,
    pub name: RawValue,
    pub price_usd: RawValue,
    pub percent_change_1h: RawValue,
    pub percent_change_24h: RawValue,
    pub percent_change_7d: RawValue,
    pub volume24: RawValue,
}

/// A ticker of the table. The two texts may be missing; the five quantities
/// are normalized field values.
#[derive(Clone, Debug, PartialEq, Eq)]
pub struct CryptoData {
    pub symbol: Option<String>,
    pub name: Option<String>,
    pub price_usd: FieldValue,
    pub percent_change_1h: FieldValue,
    pub percent_change_24h: FieldValue,
    pub percent_change_7d: FieldValue,
    pub volume24: FieldValue,
}

/// A `RawRecord` as a mathematical value.
pub struct RawRecordView {
    pub symbol: RawView,
    pub name: RawView,
    pub price_usd: RawView,
    pub percent_change_1h: RawView,
    pub percent_change_24h: RawView,
    pub percent_change_7d: RawView,
    pub volume24: RawView,
}

/// A `CryptoData` as a mathematical value.
pub struct CryptoView {
    pub symbol: Option<Seq<char>>,
    pub name: Option<Seq<char>>,
    pub price_usd: FieldView,
    pub percent_change_1h: FieldView,
    pub percent_change_24h: FieldView,
    pub percent_change_7d: FieldView,
    pub volume24: FieldView,
}

/// A text that may be missing, as a mathematical value.
pub open spec fn text_view(t: Option<String>) -> Option<Seq<char>> {
    match t {
        Some(s) => Some(s@),
        None => None,
    }
}

impl View for RawRecord {
    type V = RawRecordView;

    open spec fn view(&self) -> RawRecordView {
        RawRecordView {
            symbol: self.symbol@,
            name: self.name@,
            price_usd: self.price_usd@,
            percent_change_1h: self.percent_change_1h@,
            percent_change_24h: self.percent_change_24h@,
            percent_change_7d: self.percent_change_7d@,
            volume24: self.volume24@,
        }
    }
}

impl View for CryptoData {
    type V = CryptoView;

    open spec fn view(&self) -> CryptoView {
        CryptoView {
            symbol: text_view(self.symbol),
            name: text_view(self.name),
            price_usd: self.price_usd@,
            percent_change_1h: self.percent_change_1h@,
            percent_change_24h: self.percent_change_24h@,
            percent_change_7d: self.percent_change_7d@,
            volume24: self.volume24@,
        }
    }
}

/// The text of a raw value that is one; anything else gives no text.
pub open spec fn text_of_raw(raw: RawView) -> Option<Seq<char>> {
    match raw {
        RawView::Text(s) => Some(s),
        _ => None,
    }
}

/// The record that a raw record becomes: texts are kept, quantities are
/// normalized one by one, and no field makes the record fail.
pub open spec fn normalized_record(raw: RawRecordView) -> CryptoView {
    CryptoView {
        symbol: text_of_raw(raw.symbol),
        name: text_of_raw(raw.name),
        price_usd: normalized(raw.price_usd),
        percent_change_1h: normalized(raw.percent_change_1h),
        percent_change_24h: normalized(raw.percent_change_24h),
        percent_change_7d: normalized(raw.percent_change_7d),
        volume24: normalized(raw.volume24),
    }
}

/// A text that may be missing, the empty text standing for a missing one.
pub open spec fn text_or_empty(t: Option<Seq<char>>) -> Seq<char> {
    match t {
        Some(s) => s,
        None => Seq::empty(),
    }
}

/// The most characters of a name that a row shows.
pub const NAME_LIMIT: usize = 30;

/// The first `NAME_LIMIT` characters of a text, or all of it if it has
/// fewer.
pub open spec fn shortened(s: Seq<char>) -> Seq<char> {
    if s.len() <= NAME_LIMIT {
        s
    } else {
        s.take(NAME_LIMIT as int)
    }
}

/// The digits that a price shows behind the point.
pub const PRICE_PLACES: u32 = 6;

/// The digits that a volume shows behind the point.
pub const VOLUME_PLACES: u32 = 2;

/// Keeps the text of a raw value that is one.
fn text_field(raw: RawValue) -> (t: Option<String>)
    ensures
        text_view(t) == text_of_raw(raw@),
{
    match raw {
        RawValue::Text(s) => Some(s),
        _ => None,
    }
}

impl CryptoData {
    /// The name as a row shows it: cut to `NAME_LIMIT` characters, and empty
    /// where the name is missing.
    pub fn truncated_name(&self) -> (r: String)
        ensures
            r@ == shortened(text_or_empty(self@.name)),
    {
        match &self.name {
            Some(name) => {
                let text = name.as_str();
                let n = text.unicode_len();
                if n <= NAME_LIMIT {
                    name.clone()
                } else {
                    text.substring_char(0, NAME_LIMIT).to_owned()
                }
            },
            None => String::new(),
        }
    }

    /// The price as a row shows it: with six digits behind the point, or
    /// the text as it came where it writes no number.
    pub fn formatted_price(&self) -> (r: String)
        ensures
            r@ == shown_fixed(self@.price_usd, PRICE_PLACES as nat),
    {
        self.price_usd.text_fixed(PRICE_PLACES)
    }

    /// The change over one hour as a row shows it.
    pub fn formatted_percent_change_1h(&self) -> (r: String)
        ensures
            r@ == shown(self@.percent_change_1h),
    {
        self.percent_change_1h.text()
    }

    /// The change over a day as a row shows it.
    pub fn formatted_percent_change_24h(&self) -> (r: String)
        ensures
            r@ == shown(self@.percent_change_24h),
    {
        self.percent_change_24h.text()
    }

    /// The change over a week as a row shows it.
    pub fn formatted_percent_change_7d(&self) -> (r: String)
        ensures
            r@ == shown(self@.percent_change_7d),
    {
        self.percent_change_7d.text()
    }

    /// The volume as a row shows it: with two digits behind the point, or
    /// the text as it came where it writes no number.
    pub fn formatted_volume(&self) -> (r: String)
        ensures
            r@ == shown_fixed(self@.volume24, VOLUME_PLACES as nat),
    {
        self.volume24.text_fixed(VOLUME_PLACES)
    }

    /// The id of the record's row: its symbol, and the empty text where the
    /// symbol is missing.
    pub fn row_id(&self) -> (r: String)
        ensures
            r@ == text_or_empty(self@.symbol),
    {
        match &self.symbol {
            Some(symbol) => symbol.clone(),
            None => String::new(),
        }
    }

    /// Turns a raw record into a record of the table.
    pub fn from_raw(raw: RawRecord) -> (r: CryptoData)
        ensures
            r@ == normalized_record(raw@),
    {
        CryptoData {
            symbol: text_field(raw.symbol),
            name: text_field(raw.name),
            price_usd: normalize(raw.price_usd),
            percent_change_1h: normalize(raw.percent_change_1h),
            percent_change_24h: normalize(raw.percent_change_24h),
            percent_change_7d: normalize(raw.percent_change_7d),
            volume24: normalize(raw.volume24),
        }
    }
}

} // verus!
