//! Writing a decimal number out in plain notation: digits, with a point
//! among them where the number has a fraction.

use vstd::prelude::*;
use vstd::string::*;
use crate::decimal::{
    lemma_first_nonzero_unique, lemma_significant_end_unique, Decimal, DecimalValue,
    POWER_BOUND,
};
use crate::notation::{
    digit_value, frac_end, frac_start, has_exponent, int_end, int_start, is_digit,
    is_number_text, lemma_digits_end, mantissa, mantissa_text, text_number,
};

verus! {

/// The character of a digit.
pub open spec fn digit_char(d: u8) -> char {
    (d + 48) as char
}

impl DecimalValue {
    /// The digit that counts `10^power`; zero beyond the digits held.
    pub open spec fn digit_at(self, power: int) -> u8 {
        if self.top - self.digits.len() < power <= self.top {
            self.digits[self.top - power]
        } else {
            0
        }
    }

    /// The highest power of ten that the plain notation writes a digit for.
    pub open spec fn high(self) -> int {
        if self.top > 0 {
            self.top
        } else {
            0
        }
    }

    /// The lowest power of ten that the plain notation writes a digit for.
    pub open spec fn low(self) -> int {
        if self.digits.len() > 0 && self.top - self.digits.len() + 1 < 0 {
            self.top - self.digits.len() + 1
        } else {
            0
        }
    }
}

/// The digits of the plain notation from `10^from` down to `10^to`.
pub open spec fn digits_text(v: DecimalValue, from: int, to: int) -> Seq<char> {
    Seq::new((from - to + 1) as nat, |i: int| digit_char(v.digit_at(from - i)))
}

/// The sign of the plain notation: a minus for a negative number.
pub open spec fn sign_text(v: DecimalValue) -> Seq<char> {
    if v.negative {
        seq!['-']
    } else {
        Seq::empty()
    }
}

/// The fraction of a notation that writes digits down to `10^low`: the point
/// and the digits behind it, or nothing if `low` is not below zero.
pub open spec fn fraction_text(v: DecimalValue, low: int) -> Seq<char> {
    if low < 0 {
        seq!['.'] + digits_text(v, -1, low)
    } else {
        Seq::empty()
    }
}

/// The notation that writes digits down to `10^low`: a minus if the number
/// is negative, the digits from the highest power of ten down to the units,
/// at least one, and, if `low` is below zero, a point and the digits down
/// to `10^low`.
pub open spec fn positional_text(v: DecimalValue, low: int) -> Seq<char> {
    sign_text(v) + digits_text(v, v.high(), 0) + fraction_text(v, low)
}

/// The plain notation of a number: the notation that writes digits down to
/// the last digit of the number, and no further than the units if the
/// number is whole.
pub open spec fn plain_text(v: DecimalValue) -> Seq<char> {
    positional_text(v, v.low())
}

/// A notation that writes every digit of a number is a number text, and the
/// number that it writes is that number.
pub proof fn lemma_positional_text_reads_back(v: DecimalValue, low: int)
    requires
        v.wf(),
        low <= 0,
        v.digits.len() > 0 ==> low <= v.top - v.digits.len() + 1,
    ensures
        is_number_text(positional_text(v, low)),
        text_number(positional_text(v, low)) == v,
{
    let s = positional_text(v, low);
    let sign = sign_text(v).len() as int;
    let high = v.high();
    let n = v.digits.len() as int;
    let whole_end = sign + high + 1;
    assert forall|p: int| is_digit(digit_char(#[trigger] v.digit_at(p))) && digit_value(
        digit_char(v.digit_at(p)),
    ) == v.digit_at(p) by {
        assert(v.digit_at(p) <= 9);
    }
    assert forall|j: int| sign <= j < whole_end implies is_digit(#[trigger] s[j]) by {
        assert(s[j] == digit_char(v.digit_at(high - (j - sign))));
    }
    assert(s.len() == whole_end + fraction_text(v, low).len());
    if low < 0 {
        assert(s[whole_end] == '.');
        assert forall|j: int| whole_end + 1 <= j < s.len() implies is_digit(#[trigger] s[j]) by {
            assert(s[j] == digit_char(v.digit_at(-1 - (j - whole_end - 1))));
        }
    }
    assert(s[0] == '-' <==> v.negative) by {
        if !v.negative {
            assert(is_digit(s[0]));
        }
    }
    assert(int_start(s) == sign) by {
        if !v.negative {
            assert(is_digit(s[0]));
        }
    }
    lemma_digits_end(s, sign, whole_end);
    assert(int_end(s) == whole_end);
    if low < 0 {
        assert(frac_start(s) == whole_end + 1);
        lemma_digits_end(s, whole_end + 1, s.len() as int);
    } else {
        assert(frac_start(s) == whole_end);
        lemma_digits_end(s, whole_end, s.len() as int);
    }
    assert(frac_end(s) == s.len());
    assert(!has_exponent(s));
    assert(is_number_text(s));
    let d = mantissa(s);
    let chars = mantissa_text(s);
    assert(d.len() == high - low + 1);
    assert forall|i: int| 0 <= i < d.len() implies d[i] == v.digit_at(high - i) by {
        if i <= high {
            assert(chars[i] == s[sign + i]);
            assert(s[sign + i] == digit_char(v.digit_at(high - i)));
        } else {
            assert(chars[i] == s[frac_start(s) + (i - high - 1)]);
            assert(s[whole_end + 1 + (i - high - 1)] == digit_char(v.digit_at(-1 - (i - high - 1))));
        }
    }
    let r = text_number(s);
    assert(r == crate::decimal::normal_form(s.len() > 0 && s[0] == '-', d, high));
    if n == 0 {
        assert forall|j: int| 0 <= j < d.len() implies d[j] == 0 by {
            assert(d[j] == v.digit_at(high - j));
        }
        lemma_first_nonzero_unique(d, d.len() as int);
        assert(r == DecimalValue::zero());
        assert(v.digits =~= Seq::<u8>::empty());
        assert(v == DecimalValue::zero());
    } else {
        let unit = v.top - n + 1;
        let lo = high - v.top;
        let hi = high - unit + 1;
        assert(d[lo] == v.digits[0]);
        assert(d[hi - 1] == v.digits[n - 1]);
        lemma_first_nonzero_unique(d, lo);
        lemma_significant_end_unique(d, hi);
        assert(d.subrange(lo, hi) =~= v.digits) by {
            assert forall|j: int| 0 <= j < n implies d.subrange(lo, hi)[j] == v.digits[j] by {
                assert(d[lo + j] == v.digit_at(high - (lo + j)));
            }
        }
        assert(r.digits == v.digits);
        assert(r.top == v.top);
        assert(r.negative == v.negative);
    }
}

/// The plain notation of a number is a number text, and the number that it
/// writes is that number.
pub proof fn lemma_plain_text_reads_back(v: DecimalValue)
    requires
        v.wf(),
    ensures
        is_number_text(plain_text(v)),
        text_number(plain_text(v)) == v,
{
    lemma_positional_text_reads_back(v, v.low());
}

/// Appends the character of the digit `d`.
fn push_digit(out: &mut String, d: u8)
    requires
        d <= 9,
    ensures
        final(out)@ == old(out)@.push(digit_char(d)),
{
    proof {
        reveal_strlit("0");
        reveal_strlit("1");
        reveal_strlit("2");
        reveal_strlit("3");
        reveal_strlit("4");
        reveal_strlit("5");
        reveal_strlit("6");
        reveal_strlit("7");
        reveal_strlit("8");
        reveal_strlit("9");
    }
    let ghost before = out@;
    if d == 0 {
        out.append("0");
        assert(out@ =~= before.push('0'));
    } else if d == 1 {
        out.append("1");
        assert(out@ =~= before.push('1'));
    } else if d == 2 {
        out.append("2");
        assert(out@ =~= before.push('2'));
    } else if d == 3 {
        out.append("3");
        assert(out@ =~= before.push('3'));
    } else if d == 4 {
        out.append("4");
        assert(out@ =~= before.push('4'));
    } else if d == 5 {
        out.append("5");
        assert(out@ =~= before.push('5'));
    } else if d == 6 {
        out.append("6");
        assert(out@ =~= before.push('6'));
    } else if d == 7 {
        out.append("7");
        assert(out@ =~= before.push('7'));
    } else if d == 8 {
        out.append("8");
        assert(out@ =~= before.push('8'));
    } else {
        out.append("9");
        assert(out@ =~= before.push('9'));
    }
}

impl Decimal {
    /// The digit that counts `10^power`; zero beyond the digits held.
    fn digit_at(&self, power: i128) -> (d: u8)
        requires
            -2 * POWER_BOUND <= power <= 2 * POWER_BOUND,
        ensures
            d == self@.digit_at(power as int),
            d <= 9,
    {
        proof {
            use_type_invariant(self);
        }
        let n = self.digits.len() as i128;
        if self.top - n < power && power <= self.top {
            let i = (self.top - power) as usize;
            assert(self.digits@[i as int] <= 9);
            self.digits[i]
        } else {
            0
        }
    }

    /// Appends the digits from `10^from` down to `10^to`.
    pub(crate) fn push_digits(&self, out: &mut String, from: i128, to: i128)
        requires
            -POWER_BOUND <= to <= from + 1,
            from <= POWER_BOUND,
        ensures
            final(out)@ == old(out)@ + digits_text(self@, from as int, to as int),
    {
        let mut power: i128 = from;
        let ghost before = out@;
        assert(out@ =~= before + digits_text(self@, from as int, to as int).take(0));
        while power >= to
            invariant
                -POWER_BOUND <= to <= from + 1,
                from <= POWER_BOUND,
                to - 1 <= power <= from,
                out@ == before + digits_text(self@, from as int, to as int).take(from - power),
            decreases power - to + 1,
        {
            let d = self.digit_at(power);
            push_digit(out, d);
            assert(out@ =~= before + digits_text(self@, from as int, to as int).take(
                from - power + 1,
            ));
            power = power - 1;
        }
        assert(digits_text(self@, from as int, to as int).take(from - to + 1) =~= digits_text(
            self@,
            from as int,
            to as int,
        ));
    }

    /// Writes the number in plain notation. Nothing is rounded: the text
    /// holds every digit of the number.
    pub fn to_text(&self) -> (r: String)
        ensures
            r@ == plain_text(self@),
    {
        proof {
            use_type_invariant(self);
        }
        let mut out = String::new();
        if self.negative {
            proof {
                reveal_strlit("-");
            }
            out.append("-");
            assert(out@ =~= sign_text(self@));
        }
        let high: i128 = if self.top > 0 {
            self.top
        } else {
            0
        };
        self.push_digits(&mut out, high, 0);
        let unit = self.top - (self.digits.len() as i128) + 1;
        if self.digits.len() > 0 && unit < 0 {
            proof {
                reveal_strlit(".");
            }
            let ghost before = out@;
            out.append(".");
            assert(out@ =~= before + seq!['.']);
            self.push_digits(&mut out, -1, unit);
            assert(out@ =~= before + fraction_text(self@, unit as int));
        }
        out
    }
}

} // verus!
