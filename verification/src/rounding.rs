//! Rounding a decimal number to a count of digits behind the point, half to
//! even, and writing the rounded number out.

use vstd::prelude::*;
use vstd::string::*;
use vstd::arithmetic::div_mod::lemma_fundamental_div_mod_converse;
use crate::decimal::{lemma_normal_form_wf, Decimal, DecimalValue};
use crate::notation::{is_number_text, text_number};
use crate::render::{digits_text, lemma_positional_text_reads_back, positional_text, sign_text};
use crate::value::{
    all_decimal, coefficient, counts_in, lemma_coefficient_bounds, lemma_coefficient_split,
    lemma_decimal_le_antisymmetric, lemma_magnitude_bounds, lemma_normal_form_value,
    lemma_order_is_numeric, lemma_pow10_monotone, lemma_pow10_positive, pow10,
};

verus! {

/// `c` of some unit counted in a unit `div` times as large, to the nearest
/// whole count; where `c` lies half way between two counts, to the even one.
pub open spec fn half_even(c: nat, div: nat) -> nat {
    let q = c / div;
    let r = c % div;
    if 2 * r > div || (2 * r == div && q % 2 == 1) {
        q + 1
    } else {
        q
    }
}

/// The number, without its sign, counted in units of `10^-places` and
/// rounded half to even to a whole count.
pub open spec fn rounded_units(v: DecimalValue, places: nat) -> nat {
    let m = -(places as int);
    if v.digits.len() == 0 || v.unit() >= m {
        v.magnitude_in(m)
    } else {
        half_even(coefficient(v.digits), pow10((m - v.unit()) as nat))
    }
}

/// `w` is `v` rounded half to even to `places` digits behind the point.
pub open spec fn is_rounding(v: DecimalValue, places: nat, w: DecimalValue) -> bool {
    &&& w.wf()
    &&& counts_in(w, -(places as int))
    &&& w.magnitude_in(-(places as int)) == rounded_units(v, places)
    &&& w.negative == (v.negative && rounded_units(v, places) > 0)
}

/// `v` rounded half to even to `places` digits behind the point.
pub open spec fn rounded(v: DecimalValue, places: nat) -> DecimalValue {
    choose|w: DecimalValue| is_rounding(v, places, w)
}

/// The notation with exactly `places` digits behind the point: a minus if
/// the number is negative, the digits down to the units, at least one, and,
/// if `places` is not zero, a point and `places` digits.
pub open spec fn fixed_text(w: DecimalValue, places: nat) -> Seq<char> {
    positional_text(w, -(places as int))
}

/// The notation of a rounded number with as many digits behind the point as
/// it was rounded to is a number text that writes the rounded number.
pub proof fn lemma_fixed_text_reads_back(v: DecimalValue, places: nat, w: DecimalValue)
    requires
        is_rounding(v, places, w),
    ensures
        is_number_text(fixed_text(w, places)),
        text_number(fixed_text(w, places)) == w,
{
    lemma_positional_text_reads_back(w, -(places as int));
}

/// A number has one rounding only.
pub proof fn lemma_rounding_unique(v: DecimalValue, places: nat, w: DecimalValue)
    requires
        is_rounding(v, places, w),
    ensures
        rounded(v, places) == w,
{
    let x = rounded(v, places);
    let m = -(places as int);
    lemma_order_is_numeric(x, w, m);
    lemma_order_is_numeric(w, x, m);
    lemma_decimal_le_antisymmetric(x, w);
}

/// Nines write one less than a power of ten.
proof fn lemma_coefficient_of_nines(d: Seq<u8>)
    requires
        forall|i: int| 0 <= i < d.len() ==> d[i] == 9,
    ensures
        coefficient(d) + 1 == pow10(d.len()),
    decreases d.len(),
{
    if d.len() > 0 {
        let t = d.drop_last();
        assert forall|i: int| 0 <= i < t.len() implies t[i] == 9 by {
            assert(t[i] == d[i]);
        }
        lemma_coefficient_of_nines(t);
    }
}

/// One digit writes itself.
proof fn lemma_coefficient_of_one(x: u8)
    ensures
        coefficient(seq![x]) == x,
{
    assert(seq![x].drop_last() =~= Seq::<u8>::empty());
    assert(coefficient(Seq::<u8>::empty()) == 0);
}

/// The digits of the number that is one more than the number that `d`
/// writes, one digit longer than `d`.
fn increment(d: &Vec<u8>) -> (r: Vec<u8>)
    requires
        all_decimal(d@),
    ensures
        all_decimal(r@),
        r.len() == d.len() + 1,
        coefficient(r@) == coefficient(d@) + 1,
{
    let mut r: Vec<u8> = Vec::new();
    r.push(0);
    let mut k: usize = 0;
    while k < d.len()
        invariant
            k <= d.len(),
            r@ =~= seq![0u8] + d@.take(k as int),
        decreases d.len() - k,
    {
        r.push(d[k]);
        k += 1;
    }
    let ghost padded = r@;
    assert(padded =~= seq![0u8] + d@);
    proof {
        lemma_coefficient_split(seq![0u8], d@);
        lemma_coefficient_of_one(0u8);
        assert(0 * pow10(d@.len()) == 0) by (nonlinear_arith);
    }
    let mut i: usize = d.len();
    while r[i] == 9
        invariant
            i <= d.len(),
            r.len() == d.len() + 1,
            padded.len() == d.len() + 1,
            padded[0] == 0,
            forall|j: int| 0 <= j <= i ==> #[trigger] r@[j] == padded[j],
            forall|j: int| i < j < r.len() ==> #[trigger] r@[j] == 0,
            forall|j: int| i < j < r.len() ==> #[trigger] padded[j] == 9,
        decreases i,
    {
        assert(r@[i as int] == padded[i as int]);
        assert(i > 0);
        r.set(i, 0);
        i -= 1;
    }
    let old_digit = r[i];
    assert(old_digit == padded[i as int]);
    assert(old_digit <= 8) by {
        if i > 0 {
            assert(padded[i as int] == d@[i - 1]);
        }
    }
    r.set(i, old_digit + 1);
    proof {
        let front = padded.subrange(0, i as int);
        let nines = padded.subrange(i + 1, padded.len() as int);
        let zeros = r@.subrange(i + 1, r.len() as int);
        assert(padded =~= (front + seq![old_digit]) + nines);
        assert(r@ =~= (front + seq![(old_digit + 1) as u8]) + zeros);
        lemma_coefficient_split(front + seq![old_digit], nines);
        lemma_coefficient_split(front + seq![(old_digit + 1) as u8], zeros);
        lemma_coefficient_split(front, seq![old_digit]);
        lemma_coefficient_split(front, seq![(old_digit + 1) as u8]);
        lemma_coefficient_of_one(old_digit);
        lemma_coefficient_of_one((old_digit + 1) as u8);
        assert forall|j: int| 0 <= j < nines.len() implies nines[j] == 9 by {
            assert(nines[j] == padded[i + 1 + j]);
        }
        assert forall|j: int| 0 <= j < zeros.len() implies zeros[j] == 0 by {
            assert(zeros[j] == r@[i + 1 + j]);
        }
        lemma_coefficient_of_nines(nines);
        crate::value::lemma_coefficient_zeros(zeros);
        let a = coefficient(front + seq![old_digit]);
        let p = pow10(nines.len());
        assert(coefficient(front + seq![(old_digit + 1) as u8]) == a + 1);
        assert((a + 1) * p == a * p + p) by (nonlinear_arith);
        assert forall|j: int| 0 <= j < r.len() implies #[trigger] r@[j] <= 9 by {
            if j < i {
                assert(r@[j] == padded[j]);
                if j > 0 {
                    assert(padded[j] == d@[j - 1]);
                }
            } else if j > i {
                assert(r@[j] == 0);
            }
        }
    }
    r
}

/// Whether digits cut behind the first `keep` of them round up: the first
/// digit cut is above five, or is five and either a digit follows it or the
/// last digit kept is odd. Meant for digits the last of which is not zero.
pub open spec fn rounds_up(d: Seq<u8>, keep: int) -> bool {
    d[keep] > 5 || (d[keep] == 5 && (keep + 1 < d.len() || (keep > 0 && d[keep - 1] % 2 == 1)))
}

/// Rounding half to even, read off the digits: what the digits kept write,
/// and one more if the digits cut round up.
proof fn lemma_half_even_of_digits(d: Seq<u8>, keep: int)
    requires
        all_decimal(d),
        0 <= keep < d.len(),
        d.last() != 0,
    ensures
        half_even(coefficient(d), pow10((d.len() - keep) as nat)) == coefficient(d.take(keep)) + if rounds_up(
            d,
            keep,
        ) {
            1nat
        } else {
            0nat
        },
{
    let kept = d.take(keep);
    let cut = d.subrange(keep, d.len() as int);
    let rest = d.subrange(keep + 1, d.len() as int);
    let k = cut.len();
    let c = coefficient(d);
    let q = coefficient(kept);
    let r = coefficient(cut);
    let div = pow10(k);
    let h = pow10((k - 1) as nat);
    let t = coefficient(rest);
    assert(d =~= kept + cut);
    assert(cut =~= seq![d[keep]] + rest);
    lemma_coefficient_split(kept, cut);
    lemma_coefficient_split(seq![d[keep]], rest);
    lemma_coefficient_of_one(d[keep]);
    crate::value::lemma_all_decimal_subrange(d, keep, d.len() as int);
    crate::value::lemma_all_decimal_subrange(d, keep + 1, d.len() as int);
    lemma_coefficient_bounds(cut);
    lemma_coefficient_bounds(rest);
    lemma_pow10_positive((k - 1) as nat);
    assert(div == 10 * h);
    assert(r == d[keep] * h + t);
    assert(c == q * div + r);
    lemma_fundamental_div_mod_converse(c as int, div as int, q as int, r as int);
    if rest.len() > 0 {
        assert(rest.last() == d.last());
        assert(t >= 1);
    } else {
        assert(t == 0);
    }
    if kept.len() > 0 {
        assert(kept.last() == d[keep - 1]);
        assert(q == coefficient(kept.drop_last()) * 10 + d[keep - 1]);
    } else {
        assert(q == 0);
    }
    let f = d[keep] as nat;
    if f > 5 {
        assert(2 * (f * h + t) > 10 * h) by (nonlinear_arith)
            requires
                f >= 6,
                h >= 1,
        ;
    } else if f == 5 {
        assert(2 * (5 * h + t) == 10 * h + 2 * t) by (nonlinear_arith);
    } else {
        assert(2 * (f * h + t) < 10 * h) by (nonlinear_arith)
            requires
                f <= 4,
                t < h,
        ;
    }
}

impl Decimal {
    /// Writes the number with exactly `places` digits behind the point,
    /// rounded half to even.
    pub fn to_fixed(&self, places: u32) -> (r: String)
        ensures
            r@ == fixed_text(rounded(self@, places as nat), places as nat),
    {
        let w = self.round_to(places);
        proof {
            use_type_invariant(&w);
        }
        let mut out = String::new();
        if w.negative {
            proof {
                reveal_strlit("-");
            }
            out.append("-");
            assert(out@ =~= sign_text(w@));
        }
        let high: i128 = if w.top > 0 {
            w.top
        } else {
            0
        };
        w.push_digits(&mut out, high, 0);
        if places > 0 {
            proof {
                reveal_strlit(".");
            }
            let ghost before = out@;
            out.append(".");
            assert(out@ =~= before + seq!['.']);
            w.push_digits(&mut out, -1, -(places as i128));
            assert(out@ =~= before + (seq!['.'] + digits_text(w@, -1, -(places as int))));
        }
        out
    }

    /// Rounds the number to `places` digits behind the point, half to even.
    pub fn round_to(&self, places: u32) -> (r: Decimal)
        ensures
            is_rounding(self@, places as nat, r@),
            r@ == rounded(self@, places as nat),
    {
        proof {
            use_type_invariant(self);
        }
        let ghost v = self@;
        let ghost m = -(places as int);
        let n = self.digits.len();
        let cut: i128 = self.top + (places as i128) + 1;
        if n == 0 || cut >= n as i128 {
            let r = self.clone();
            proof {
                if n > 0 {
                    lemma_magnitude_bounds(v, m);
                    lemma_pow10_positive((v.top - m) as nat);
                } else {
                    assert(coefficient(v.digits) == 0);
                    assert(0 * pow10((v.unit() - m) as nat) == 0) by (nonlinear_arith);
                }
                lemma_rounding_unique(v, places as nat, r@);
            }
            return r;
        }
        if cut < 0 {
            let r = Decimal::zero();
            proof {
                let c = coefficient(v.digits);
                let div = pow10((m - v.unit()) as nat);
                lemma_coefficient_bounds(v.digits);
                lemma_pow10_monotone(n as nat, (m - v.unit()) as nat);
                lemma_pow10_positive(n as nat);
                lemma_fundamental_div_mod_converse(c as int, div as int, 0, c as int);
                assert(coefficient(r@.digits) == 0);
                assert(0 * pow10((r@.unit() - m) as nat) == 0) by (nonlinear_arith);
                lemma_rounding_unique(v, places as nat, r@);
            }
            return r;
        }
        let keep = cut as usize;
        let first_cut = self.digits[keep];
        let follows = keep + 1 < n;
        let odd = keep > 0 && self.digits[keep - 1] % 2 == 1;
        let up = first_cut > 5 || (first_cut == 5 && (follows || odd));
        let mut kept: Vec<u8> = Vec::new();
        let mut i: usize = 0;
        while i < keep
            invariant
                i <= keep < n,
                n == self.digits.len(),
                kept@ =~= self.digits@.take(i as int),
            decreases keep - i,
        {
            kept.push(self.digits[i]);
            i += 1;
        }
        proof {
            crate::value::lemma_all_decimal_subrange(v.digits, 0, keep as int);
            assert(v.digits.take(keep as int) =~= v.digits.subrange(0, keep as int));
            lemma_half_even_of_digits(v.digits, keep as int);
            assert((m - v.unit()) as nat == (n - keep) as nat);
        }
        let r = if up {
            let bumped = increment(&kept);
            let r = Decimal::from_digits(self.negative, &bumped, self.top + 1);
            proof {
                lemma_normal_form_wf(self.negative, bumped@, self.top + 1);
                lemma_normal_form_value(self.negative, bumped@, self.top + 1, m);
                assert(pow10(0) == 1);
                assert(coefficient(bumped@) * 1 == coefficient(bumped@)) by (nonlinear_arith);
            }
            r
        } else {
            let r = Decimal::from_digits(self.negative, &kept, self.top);
            proof {
                lemma_normal_form_wf(self.negative, kept@, self.top as int);
                lemma_normal_form_value(self.negative, kept@, self.top as int, m);
                assert(pow10(0) == 1);
                assert(coefficient(kept@) * 1 == coefficient(kept@)) by (nonlinear_arith);
            }
            r
        };
        proof {
            lemma_rounding_unique(v, places as nat, r@);
        }
        r
    }
}

} // verus!
