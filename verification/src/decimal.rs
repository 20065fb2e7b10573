//! Exact decimal numbers: a sign, the significant digits, and the power of
//! ten of the first of them. Nothing is rounded.

use std::cmp::Ordering;
use vstd::prelude::*;
use crate::notation::{is_number_text, read_mantissa, read_power, text_number};
use crate::text::chars_of;
use crate::lex::{
    digit_ranks, lemma_lex_le_total, lemma_lex_le_transitive, lemma_mismatch,
    lemma_mismatch_symmetric, lemma_mismatch_unique, lex_le, mismatch,
};

verus! {

/// A decimal number as a mathematical value: `digits[i]` counts
/// `10^(top - i)`, and `negative` flips the sign of the sum.
pub struct DecimalValue {
    pub negative: bool,
    pub digits: Seq<u8>,
    pub top: int,
}

impl DecimalValue {
    /// The number zero.
    pub open spec fn zero() -> DecimalValue {
        DecimalValue { negative: false, digits: Seq::empty(), top: 0 }
    }

    /// The one way to write a number: decimal digits, neither the first nor
    /// the last of them zero, and zero itself with no digit, no sign and
    /// `top` zero.
    pub open spec fn wf(self) -> bool {
        &&& forall|i: int| 0 <= i < self.digits.len() ==> #[trigger] self.digits[i] <= 9
        &&& self.digits.len() > 0 ==> self.digits[0] != 0 && self.digits.last() != 0
        &&& self.digits.len() == 0 ==> !self.negative && self.top == 0
    }

    /// `self` is at most `other` in absolute value.
    pub open spec fn magnitude_le(self, other: DecimalValue) -> bool {
        if self.digits.len() == 0 {
            true
        } else if other.digits.len() == 0 {
            false
        } else if self.top != other.top {
            self.top < other.top
        } else {
            lex_le(digit_ranks(self.digits), digit_ranks(other.digits))
        }
    }

    /// `self` is at most `other`.
    pub open spec fn le(self, other: DecimalValue) -> bool {
        if self.negative {
            !other.negative || other.magnitude_le(self)
        } else {
            !other.negative && self.magnitude_le(other)
        }
    }

    /// How `self` stands to `other` in absolute value.
    pub open spec fn magnitude_order(self, other: DecimalValue) -> Ordering {
        if !other.magnitude_le(self) {
            Ordering::Less
        } else if !self.magnitude_le(other) {
            Ordering::Greater
        } else {
            Ordering::Equal
        }
    }

    /// How `self` stands to `other`.
    pub open spec fn order(self, other: DecimalValue) -> Ordering {
        if !other.le(self) {
            Ordering::Less
        } else if !self.le(other) {
            Ordering::Greater
        } else {
            Ordering::Equal
        }
    }
}

/// The position of the first digit from `i` on that is not zero, or the
/// length of `d` if there is none.
pub open spec fn first_nonzero(d: Seq<u8>, i: int) -> int
    decreases d.len() - i,
{
    if 0 <= i < d.len() && d[i] == 0 {
        first_nonzero(d, i + 1)
    } else {
        i
    }
}

/// The position behind the last digit that is not zero, or zero if there is
/// none.
pub open spec fn significant_end(d: Seq<u8>) -> int
    decreases d.len(),
{
    if d.len() > 0 && d.last() == 0 {
        significant_end(d.drop_last())
    } else {
        d.len() as int
    }
}

/// The number written by the digits `d`, the first of which counts
/// `10^first_power`, with the sign given: leading and trailing zeros
/// dropped.
pub open spec fn normal_form(negative: bool, d: Seq<u8>, first_power: int) -> DecimalValue {
    let lo = first_nonzero(d, 0);
    if lo >= d.len() {
        DecimalValue::zero()
    } else {
        DecimalValue { negative, digits: d.subrange(lo, significant_end(d)), top: first_power - lo }
    }
}

/// The decimal digits of `n`, the most significant first.
pub open spec fn nat_digits(n: nat) -> Seq<u8>
    decreases n,
{
    if n < 10 {
        seq![n as u8]
    } else {
        nat_digits(n / 10).push((n % 10) as u8)
    }
}

/// The whole number `i` as a decimal number.
pub open spec fn int_number(i: int) -> DecimalValue {
    let digits = nat_digits(vstd::math::abs(i));
    normal_form(i < 0, digits, digits.len() - 1)
}

/// Up to the first digit that is not zero all digits are zero.
pub proof fn lemma_first_nonzero(d: Seq<u8>, i: int)
    requires
        0 <= i <= d.len(),
    ensures
        i <= first_nonzero(d, i) <= d.len(),
        forall|j: int| i <= j < first_nonzero(d, i) ==> d[j] == 0,
        first_nonzero(d, i) < d.len() ==> d[first_nonzero(d, i)] != 0,
    decreases d.len() - i,
{
    if i < d.len() && d[i] == 0 {
        lemma_first_nonzero(d, i + 1);
    }
}

/// Behind the last digit that is not zero all digits are zero.
pub proof fn lemma_significant_end(d: Seq<u8>)
    ensures
        0 <= significant_end(d) <= d.len(),
        forall|j: int| significant_end(d) <= j < d.len() ==> d[j] == 0,
        significant_end(d) > 0 ==> d[significant_end(d) - 1] != 0,
    decreases d.len(),
{
    if d.len() > 0 && d.last() == 0 {
        let t = d.drop_last();
        lemma_significant_end(t);
        assert forall|j: int| significant_end(d) <= j < d.len() implies d[j] == 0 by {
            if j < t.len() {
                assert(t[j] == d[j]);
            }
        }
        if significant_end(d) > 0 {
            assert(t[significant_end(t) - 1] == d[significant_end(d) - 1]);
        }
    }
}

/// A position before which all digits are zero, and which holds a digit
/// that is not, is the position of the first digit that is not zero.
pub proof fn lemma_first_nonzero_unique(d: Seq<u8>, k: int)
    requires
        0 <= k <= d.len(),
        forall|j: int| 0 <= j < k ==> d[j] == 0,
        k < d.len() ==> d[k] != 0,
    ensures
        first_nonzero(d, 0) == k,
{
    lemma_first_nonzero(d, 0);
    let m = first_nonzero(d, 0);
    if m < k {
        assert(d[m] == 0);
    } else if k < m {
        assert(d[k] == 0);
    }
}

/// A position from which on all digits are zero, and before which stands a
/// digit that is not, is the position behind the last digit that is not
/// zero.
pub proof fn lemma_significant_end_unique(d: Seq<u8>, k: int)
    requires
        0 <= k <= d.len(),
        forall|j: int| k <= j < d.len() ==> d[j] == 0,
        k > 0 ==> d[k - 1] != 0,
    ensures
        significant_end(d) == k,
{
    lemma_significant_end(d);
    let m = significant_end(d);
    if m < k {
        assert(d[k - 1] == 0);
    } else if k < m {
        assert(d[m - 1] == 0);
    }
}

/// Digits that are decimal have a well-formed normal form.
pub proof fn lemma_normal_form_wf(negative: bool, d: Seq<u8>, first_power: int)
    requires
        forall|i: int| 0 <= i < d.len() ==> #[trigger] d[i] <= 9,
    ensures
        normal_form(negative, d, first_power).wf(),
{
    lemma_first_nonzero(d, 0);
    lemma_significant_end(d);
    let lo = first_nonzero(d, 0);
    let hi = significant_end(d);
    if lo < d.len() {
        assert(hi > lo) by {
            if hi <= lo {
                assert(d[lo] == 0);
            }
        }
        let r = d.subrange(lo, hi);
        assert(r[0] == d[lo]);
        assert(r.last() == d[hi - 1]);
        assert forall|i: int| 0 <= i < r.len() implies #[trigger] r[i] <= 9 by {
            assert(r[i] == d[lo + i]);
        }
    }
}

/// No digit of a `Decimal` counts a power of ten beyond this, up or down.
pub const POWER_BOUND: i128 = 0x1_0000_0000_0000_0000_0000_0000;

/// An exact decimal number.
#[derive(Debug, PartialEq, Eq)]
pub struct Decimal {
    pub(crate) negative: bool,
    pub(crate) digits: Vec<u8>,
    pub(crate) top: i128,
}

impl View for Decimal {
    type V = DecimalValue;

    open(crate) spec fn view(&self) -> DecimalValue {
        DecimalValue { negative: self.negative, digits: self.digits@, top: self.top as int }
    }
}

/// The length of the longest common prefix of two digit strings.
fn common_digits(a: &Vec<u8>, b: &Vec<u8>) -> (k: usize)
    ensures
        k == mismatch(digit_ranks(a@), digit_ranks(b@)),
        k <= a.len(),
        k <= b.len(),
{
    let mut i: usize = 0;
    while i < a.len() && i < b.len() && a[i] == b[i]
        invariant
            i <= a.len(),
            i <= b.len(),
            forall|j: int| 0 <= j < i ==> a@[j] == b@[j],
        decreases a.len() - i,
    {
        i += 1;
    }
    proof {
        lemma_mismatch_unique(digit_ranks(a@), digit_ranks(b@), i as int);
    }
    i
}

impl Decimal {
    /// What holds of every `Decimal`: it is written in the one way, and its
    /// digits count powers of ten within the bound.
    #[verifier::type_invariant]
    pub(crate) open spec fn well_formed(self) -> bool {
        &&& self@.wf()
        &&& -POWER_BOUND <= self.top - self.digits.len()
        &&& self.top <= POWER_BOUND
    }

    /// The number zero.
    pub fn zero() -> (r: Decimal)
        ensures
            r@ == DecimalValue::zero(),
    {
        Decimal { negative: false, digits: Vec::new(), top: 0 }
    }

    /// The number written by the digits `all`, the first of which counts
    /// `10^first_power`, with the sign given.
    pub(crate) fn from_digits(negative: bool, all: &Vec<u8>, first_power: i128) -> (r: Decimal)
        requires
            forall|i: int| 0 <= i < all.len() ==> #[trigger] all[i] <= 9,
            -POWER_BOUND <= first_power - all.len(),
            first_power <= POWER_BOUND,
        ensures
            r@ == normal_form(negative, all@, first_power as int),
    {
        let mut lo: usize = 0;
        while lo < all.len() && all[lo] == 0
            invariant
                lo <= all.len(),
                forall|j: int| 0 <= j < lo ==> all@[j] == 0,
            decreases all.len() - lo,
        {
            lo += 1;
        }
        proof {
            lemma_first_nonzero_unique(all@, lo as int);
            lemma_normal_form_wf(negative, all@, first_power as int);
        }
        if lo == all.len() {
            return Decimal::zero();
        }
        let mut hi: usize = all.len();
        while hi > lo + 1 && all[hi - 1] == 0
            invariant
                lo < hi <= all.len(),
                all@[lo as int] != 0,
                forall|j: int| hi <= j < all.len() ==> all@[j] == 0,
            decreases hi,
        {
            hi -= 1;
        }
        proof {
            lemma_significant_end_unique(all@, hi as int);
        }
        let mut digits: Vec<u8> = Vec::new();
        let mut i: usize = lo;
        while i < hi
            invariant
                lo <= i <= hi <= all.len(),
                digits@ == all@.subrange(lo as int, i as int),
            decreases hi - i,
        {
            digits.push(all[i]);
            i += 1;
            assert(digits@ =~= all@.subrange(lo as int, i as int));
        }
        Decimal { negative, digits, top: first_power - (lo as i128) }
    }

    /// The whole number `i`.
    pub fn from_i64(i: i64) -> (r: Decimal)
        ensures
            r@ == int_number(i as int),
    {
        let size: u64 = if i < 0 {
            (-(i as i128)) as u64
        } else {
            i as u64
        };
        let mut rest: u64 = size;
        let mut low_first: Vec<u8> = Vec::new();
        loop
            invariant_except_break
                nat_digits(size as nat) =~= nat_digits(rest as nat) + low_first@.reverse(),
            invariant
                forall|j: int| 0 <= j < low_first.len() ==> #[trigger] low_first[j] <= 9,
            ensures
                forall|j: int| 0 <= j < low_first.len() ==> #[trigger] low_first[j] <= 9,
                nat_digits(size as nat) =~= low_first@.reverse(),
            decreases rest,
        {
            let digit = (rest % 10) as u8;
            let ghost before = low_first@;
            if rest < 10 {
                low_first.push(digit);
                assert(low_first@.reverse() =~= seq![digit] + before.reverse());
                break;
            }
            low_first.push(digit);
            assert(low_first@.reverse() =~= seq![digit] + before.reverse());
            assert(nat_digits(rest as nat) == nat_digits((rest / 10) as nat).push(digit));
            rest = rest / 10;
        }
        let mut all: Vec<u8> = Vec::new();
        let mut k: usize = low_first.len();
        while k > 0
            invariant
                k <= low_first.len(),
                all@ =~= low_first@.reverse().subrange(0, low_first.len() - k),
            decreases k,
        {
            k -= 1;
            all.push(low_first[k]);
        }
        assert(all@ =~= low_first@.reverse());
        Decimal::from_digits(i < 0, &all, (all.len() as i128) - 1)
    }

    /// Reads a number text. A text that writes no number gives `None`.
    pub fn parse(text: &str) -> (r: Option<Decimal>)
        ensures
            r is Some <==> is_number_text(text@),
            r is Some ==> r->0@ == text_number(text@),
    {
        let s = chars_of(text);
        let (negative, all, whole_len, part_end) = read_mantissa(&s);
        if all.len() == 0 {
            return None;
        }
        match read_power(&s, part_end) {
            None => None,
            Some(power) => {
                let first_power = (whole_len as i128) - 1 + (power as i128);
                Some(Decimal::from_digits(negative, &all, first_power))
            },
        }
    }

    /// Orders the absolute values of two numbers.
    fn compare_magnitude(&self, other: &Decimal) -> (o: Ordering)
        ensures
            o == self@.magnitude_order(other@),
    {
        if self.digits.len() == 0 {
            if other.digits.len() == 0 {
                Ordering::Equal
            } else {
                Ordering::Less
            }
        } else if other.digits.len() == 0 {
            Ordering::Greater
        } else if self.top < other.top {
            Ordering::Less
        } else if self.top > other.top {
            Ordering::Greater
        } else {
            let k = common_digits(&self.digits, &other.digits);
            proof {
                lemma_mismatch(digit_ranks(self.digits@), digit_ranks(other.digits@));
                lemma_mismatch_symmetric(digit_ranks(self.digits@), digit_ranks(other.digits@));
            }
            if k == self.digits.len() {
                if k == other.digits.len() {
                    Ordering::Equal
                } else {
                    Ordering::Less
                }
            } else if k == other.digits.len() {
                Ordering::Greater
            } else if self.digits[k] < other.digits[k] {
                Ordering::Less
            } else {
                Ordering::Greater
            }
        }
    }

    /// Orders two numbers by value.
    pub fn compare(&self, other: &Decimal) -> (o: Ordering)
        ensures
            o == self@.order(other@),
    {
        if self.negative {
            if other.negative {
                other.compare_magnitude(self)
            } else {
                Ordering::Less
            }
        } else if other.negative {
            Ordering::Greater
        } else {
            self.compare_magnitude(other)
        }
    }
}

impl Clone for Decimal {
    fn clone(&self) -> (r: Self)
        ensures
            r@ == self@,
    {
        proof {
            use_type_invariant(&*self);
        }
        let digits = self.digits.clone();
        assert(digits@ =~= self.digits@);
        Decimal { negative: self.negative, digits, top: self.top }
    }
}

/// Of two numbers one is at most the other.
pub proof fn lemma_decimal_le_total(a: DecimalValue, b: DecimalValue)
    ensures
        a.le(b) || b.le(a),
{
    lemma_lex_le_total(digit_ranks(a.digits), digit_ranks(b.digits));
}

/// The order of numbers chains.
pub proof fn lemma_decimal_le_transitive(a: DecimalValue, b: DecimalValue, c: DecimalValue)
    requires
        a.le(b),
        b.le(c),
    ensures
        a.le(c),
{
    if a.magnitude_le(b) && b.magnitude_le(c) {
        lemma_magnitude_le_transitive(a, b, c);
    }
    if c.magnitude_le(b) && b.magnitude_le(a) {
        lemma_magnitude_le_transitive(c, b, a);
    }
}

/// The order of absolute values chains.
proof fn lemma_magnitude_le_transitive(a: DecimalValue, b: DecimalValue, c: DecimalValue)
    requires
        a.magnitude_le(b),
        b.magnitude_le(c),
    ensures
        a.magnitude_le(c),
{
    if a.digits.len() > 0 && a.top == b.top && b.top == c.top {
        lemma_lex_le_transitive(digit_ranks(a.digits), digit_ranks(b.digits), digit_ranks(c.digits));
    }
}

} // verus!
