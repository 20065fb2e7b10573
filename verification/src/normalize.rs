//! Field values as they arrive and as the table keeps them.

use vstd::prelude::*;
use crate::decimal::{int_number, Decimal, DecimalValue};
use crate::notation::{is_number_text, text_number};
use crate::render::plain_text;
use crate::rounding::{fixed_text, rounded};

verus! {

/// A scalar as it arrives: nothing, a text, a whole number, or a number
/// with a fraction.
#[derive(Clone, Debug, PartialEq, Eq)]
pub enum RawValue {
    Null,
    Text(String),
    Integer(i64),
    Float(Decimal),
}

/// A field of a record: a text, a whole number, or a number with a fraction.
#[derive(Clone, Debug, PartialEq, Eq)]
pub enum FieldValue {
    Text(String),
    Integer(i64),
    Float(Decimal),
}

/// A `RawValue` as a mathematical value.
pub enum RawView {
    Null,
    Text(Seq<char>),
    Integer(int),
    Float(DecimalValue),
}

/// A `FieldValue` as a mathematical value.
pub enum FieldView {
    Text(Seq<char>),
    Integer(int),
    Float(DecimalValue),
}

impl View for RawValue {
    type V = RawView;

    open spec fn view(&self) -> RawView {
        match self {
            RawValue::Null => RawView::Null,
            RawValue::Text(s) => RawView::Text(s@),
            RawValue::Integer(i) => RawView::Integer(*i as int),
            RawValue::Float(d) => RawView::Float(d@),
        }
    }
}

impl View for FieldValue {
    type V = FieldView;

    open spec fn view(&self) -> FieldView {
        match self {
            FieldValue::Text(s) => FieldView::Text(s@),
            FieldValue::Integer(i) => FieldView::Integer(*i as int),
            FieldValue::Float(d) => FieldView::Float(d@),
        }
    }
}

/// What a raw value becomes: a text that writes a number becomes that number,
/// any other text stays as it is, a number stays the number it is, and
/// nothing becomes the empty text.
pub open spec fn normalized(raw: RawView) -> FieldView {
    match raw {
        RawView::Null => FieldView::Text(Seq::empty()),
        RawView::Text(s) => if is_number_text(s) {
            FieldView::Float(text_number(s))
        } else {
            FieldView::Text(s)
        },
        RawView::Integer(i) => FieldView::Integer(i),
        RawView::Float(d) => FieldView::Float(d),
    }
}

/// The number by which a field is ordered: its value if it is a number,
/// zero if it is a text.
pub open spec fn number_of(v: FieldView) -> DecimalValue {
    match v {
        FieldView::Text(_) => DecimalValue::zero(),
        FieldView::Integer(i) => int_number(i),
        FieldView::Float(d) => d,
    }
}

/// A field as a row shows it: a text as it is, a number in plain notation.
pub open spec fn shown(v: FieldView) -> Seq<char> {
    match v {
        FieldView::Text(s) => s,
        _ => plain_text(number_of(v)),
    }
}

/// A field as a row shows it with `places` digits behind the point: a text
/// as it is, a number rounded half to even.
pub open spec fn shown_fixed(v: FieldView, places: nat) -> Seq<char> {
    match v {
        FieldView::Text(s) => s,
        _ => fixed_text(rounded(number_of(v), places), places),
    }
}

/// Turns a raw value into a field value. Never fails: what writes no number
/// is kept as text.
pub fn normalize(raw: RawValue) -> (v: FieldValue)
    ensures
        v@ == normalized(raw@),
{
    match raw {
        RawValue::Null => FieldValue::Text(String::new()),
        RawValue::Text(s) => match Decimal::parse(s.as_str()) {
            Some(d) => FieldValue::Float(d),
            None => FieldValue::Text(s),
        },
        RawValue::Integer(i) => FieldValue::Integer(i),
        RawValue::Float(d) => FieldValue::Float(d),
    }
}

/// Normalizing keeps the number: a text that writes a number is ordered by
/// that number, a number by itself, and whatever writes no number by zero.
pub proof fn lemma_normalized_number(raw: RawView)
    ensures
        number_of(normalized(raw)) == match raw {
            RawView::Null => DecimalValue::zero(),
            RawView::Text(s) => if is_number_text(s) {
                text_number(s)
            } else {
                DecimalValue::zero()
            },
            RawView::Integer(i) => int_number(i),
            RawView::Float(d) => d,
        },
{
}

impl FieldValue {
    /// The field as a row shows it.
    pub fn text(&self) -> (r: String)
        ensures
            r@ == shown(self@),
    {
        match self {
            FieldValue::Text(s) => s.clone(),
            FieldValue::Integer(i) => Decimal::from_i64(*i).to_text(),
            FieldValue::Float(d) => d.to_text(),
        }
    }

    /// The field as a row shows it with `places` digits behind the point.
    pub fn text_fixed(&self, places: u32) -> (r: String)
        ensures
            r@ == shown_fixed(self@, places as nat),
    {
        match self {
            FieldValue::Text(s) => s.clone(),
            FieldValue::Integer(i) => Decimal::from_i64(*i).to_fixed(places),
            FieldValue::Float(d) => d.to_fixed(places),
        }
    }

    /// The number by which the field is ordered.
    pub fn number(&self) -> (d: Decimal)
        ensures
            d@ == number_of(self@),
    {
        match self {
            FieldValue::Text(_) => Decimal::zero(),
            FieldValue::Integer(i) => Decimal::from_i64(*i),
            FieldValue::Float(d) => d.clone(),
        }
    }
}

} // verus!
