//! What a decimal number is worth, in whole numbers: the number counted in
//! units of a power of ten small enough to hold its last digit.

use vstd::prelude::*;
use crate::decimal::{
    first_nonzero, int_number, lemma_first_nonzero, lemma_significant_end, nat_digits,
    normal_form, significant_end, DecimalValue,
};
use crate::notation::{
    digit_value, digit_values, digits_value, exponent, fraction_len, frac_end, frac_start,
    int_end, int_start, is_digit, is_number_text, lemma_digits_run, mantissa, mantissa_text,
    text_number,
};
use crate::lex::{digit_ranks, lemma_mismatch, lemma_mismatch_symmetric, mismatch};

verus! {

/// Ten to the power `n`.
pub open spec fn pow10(n: nat) -> nat
    decreases n,
{
    if n == 0 {
        1
    } else {
        10 * pow10((n - 1) as nat)
    }
}

/// The whole number that a string of digits writes.
pub open spec fn coefficient(d: Seq<u8>) -> nat
    decreases d.len(),
{
    if d.len() == 0 {
        0
    } else {
        coefficient(d.drop_last()) * 10 + d.last() as nat
    }
}

/// Every element is a decimal digit.
pub open spec fn all_decimal(d: Seq<u8>) -> bool {
    forall|i: int| 0 <= i < d.len() ==> #[trigger] d[i] <= 9
}

impl DecimalValue {
    /// The power of ten that the last digit counts.
    pub open spec fn unit(self) -> int {
        self.top - self.digits.len() + 1
    }

    /// The number in units of `10^m`, without its sign. Meant for `m` at
    /// most `unit()`.
    pub open spec fn magnitude_in(self, m: int) -> nat {
        coefficient(self.digits) * pow10((self.unit() - m) as nat)
    }

    /// The number in units of `10^m`. Meant for `m` at most `unit()`.
    pub open spec fn scaled(self, m: int) -> int {
        if self.negative {
            -(self.magnitude_in(m) as int)
        } else {
            self.magnitude_in(m) as int
        }
    }
}

/// A power of ten is at least one.
pub proof fn lemma_pow10_positive(n: nat)
    ensures
        pow10(n) >= 1,
    decreases n,
{
    if n > 0 {
        lemma_pow10_positive((n - 1) as nat);
    }
}

/// Powers of ten multiply by adding their exponents.
pub proof fn lemma_pow10_add(a: nat, b: nat)
    ensures
        pow10(a + b) == pow10(a) * pow10(b),
    decreases a,
{
    if a > 0 {
        lemma_pow10_add((a - 1) as nat, b);
        let x = pow10((a - 1) as nat);
        let y = pow10(b);
        assert(((a - 1) as nat) + b == (a + b - 1) as nat);
        assert(pow10(a + b) == 10 * pow10((a + b - 1) as nat));
        assert(pow10((a + b - 1) as nat) == x * y);
        assert(pow10(a) == 10 * x);
        assert(10 * (x * y) == (10 * x) * y) by (nonlinear_arith);
    } else {
        assert(pow10(a) == 1);
        assert(a + b == b);
        assert(1 * pow10(b) == pow10(b)) by (nonlinear_arith);
    }
}

/// A larger exponent gives a larger power of ten.
pub proof fn lemma_pow10_monotone(a: nat, b: nat)
    requires
        a <= b,
    ensures
        pow10(a) <= pow10(b),
        a < b ==> 10 * pow10(a) <= pow10(b),
{
    lemma_pow10_add(a, (b - a) as nat);
    lemma_pow10_positive((b - a) as nat);
    lemma_pow10_positive(a);
    let x = pow10(a);
    let y = pow10((b - a) as nat);
    assert(x <= x * y) by (nonlinear_arith)
        requires
            x >= 1,
            y >= 1,
    ;
    if a < b {
        assert(y >= 10) by {
            lemma_pow10_positive((b - a - 1) as nat);
        }
        assert(10 * x <= x * y) by (nonlinear_arith)
            requires
                x >= 1,
                y >= 10,
        ;
    }
}

/// A string of `n` digits writes a number below `10^n`, and one of at least
/// `10^(n - 1)` if its first digit is not zero.
pub proof fn lemma_coefficient_bounds(d: Seq<u8>)
    requires
        all_decimal(d),
    ensures
        coefficient(d) < pow10(d.len()),
        d.len() > 0 && d[0] != 0 ==> coefficient(d) >= pow10((d.len() - 1) as nat),
    decreases d.len(),
{
    if d.len() > 0 {
        let t = d.drop_last();
        assert(all_decimal(t)) by {
            assert forall|i: int| 0 <= i < t.len() implies #[trigger] t[i] <= 9 by {
                assert(t[i] == d[i]);
            }
        }
        lemma_coefficient_bounds(t);
        assert(d.last() <= 9);
        if t.len() > 0 {
            assert(t[0] == d[0]);
        }
    }
}

/// A number written in two pieces: the first piece counts the power of ten
/// that the length of the second gives.
pub proof fn lemma_coefficient_split(x: Seq<u8>, y: Seq<u8>)
    ensures
        coefficient(x + y) == coefficient(x) * pow10(y.len()) + coefficient(y),
    decreases y.len(),
{
    if y.len() == 0 {
        assert(x + y =~= x);
        assert(pow10(0) == 1);
        assert(coefficient(x) * 1 == coefficient(x)) by (nonlinear_arith);
    } else {
        let t = y.drop_last();
        lemma_coefficient_split(x, t);
        assert((x + y).drop_last() =~= x + t);
        assert((x + y).last() == y.last());
        let cx = coefficient(x);
        let p = pow10(t.len());
        let ct = coefficient(t);
        assert(pow10(y.len()) == 10 * p);
        assert(coefficient(x + y) == (cx * p + ct) * 10 + y.last() as nat);
        assert(coefficient(y) == ct * 10 + y.last() as nat);
        assert((cx * p + ct) * 10 == cx * (10 * p) + ct * 10) by (nonlinear_arith);
    }
}

/// Zeros write zero.
pub proof fn lemma_coefficient_zeros(d: Seq<u8>)
    requires
        forall|i: int| 0 <= i < d.len() ==> d[i] == 0,
    ensures
        coefficient(d) == 0,
    decreases d.len(),
{
    if d.len() > 0 {
        let t = d.drop_last();
        assert forall|i: int| 0 <= i < t.len() implies t[i] == 0 by {
            assert(t[i] == d[i]);
        }
        lemma_coefficient_zeros(t);
    }
}

/// The digits of a whole number write that number.
pub proof fn lemma_coefficient_of_nat_digits(n: nat)
    ensures
        coefficient(nat_digits(n)) == n,
        all_decimal(nat_digits(n)),
        nat_digits(n).len() > 0,
    decreases n,
{
    if n < 10 {
        let d = nat_digits(n);
        assert(d =~= seq![n as u8]);
        assert(d.drop_last() =~= Seq::<u8>::empty());
        assert(coefficient(d.drop_last()) == 0);
    } else {
        lemma_coefficient_of_nat_digits(n / 10);
        let d = nat_digits(n);
        assert(d.drop_last() =~= nat_digits(n / 10));
        assert(d.last() == (n % 10) as u8);
    }
}

/// Dropping the zeros before and behind the digits keeps the number: the
/// normal form of digits `d`, the first of which counts `10^first_power`, is
/// worth what `d` writes, counted in the power of ten of the last digit of
/// `d`.
pub proof fn lemma_normal_form_value(negative: bool, d: Seq<u8>, first_power: int, m: int)
    requires
        all_decimal(d),
        m <= first_power - d.len() + 1,
    ensures
        counts_in(normal_form(negative, d, first_power), m),
        normal_form(negative, d, first_power).magnitude_in(m) == coefficient(d) * pow10(
            (first_power - d.len() + 1 - m) as nat,
        ),
        normal_form(negative, d, first_power).negative == (negative && coefficient(d) > 0),
        normal_form(negative, d, first_power).digits.len() > 0 <==> coefficient(d) > 0,
{
    lemma_first_nonzero(d, 0);
    lemma_significant_end(d);
    let lo = first_nonzero(d, 0);
    let hi = significant_end(d);
    let nf = normal_form(negative, d, first_power);
    let raw = (first_power - d.len() + 1 - m) as nat;
    if lo >= d.len() {
        lemma_coefficient_zeros(d);
        assert(coefficient(nf.digits) == 0);
        assert(0 * pow10((nf.unit() - m) as nat) == 0) by (nonlinear_arith);
        assert(0 * pow10(raw) == 0) by (nonlinear_arith);
    } else {
        assert(hi > lo) by {
            if hi <= lo {
                assert(d[lo] == 0);
            }
        }
        let head = d.subrange(0, lo);
        let mid = d.subrange(lo, hi);
        let tail = d.subrange(hi, d.len() as int);
        assert(d =~= (head + mid) + tail);
        lemma_coefficient_split(head + mid, tail);
        lemma_coefficient_split(head, mid);
        lemma_coefficient_zeros(head);
        lemma_coefficient_zeros(tail);
        let c = coefficient(mid);
        let back = pow10(tail.len());
        assert(coefficient(head + mid) == c) by {
            assert(0 * pow10(mid.len()) == 0) by (nonlinear_arith);
        }
        assert(coefficient(d) == c * back);
        assert(nf.unit() == first_power - hi + 1);
        lemma_pow10_add(tail.len(), raw);
        assert(tail.len() + raw == (nf.unit() - m) as nat);
        assert((c * back) * pow10(raw) == c * (back * pow10(raw))) by (nonlinear_arith);
        lemma_pow10_positive(tail.len());
        assert(c * back >= c) by (nonlinear_arith)
            requires
                back >= 1,
        ;
        assert(c > 0) by {
            assert(all_decimal(mid)) by {
                assert forall|i: int| 0 <= i < mid.len() implies #[trigger] mid[i] <= 9 by {
                    assert(mid[i] == d[lo + i]);
                }
            }
            assert(mid[0] == d[lo]);
            lemma_coefficient_bounds(mid);
            lemma_pow10_positive((mid.len() - 1) as nat);
        }
    }
}

/// A number that is not zero, counted in units of `10^m`, is at least
/// `10^(top - m)` and below ten times that.
pub proof fn lemma_magnitude_bounds(v: DecimalValue, m: int)
    requires
        v.wf(),
        v.digits.len() > 0,
        m <= v.unit(),
    ensures
        pow10((v.top - m) as nat) <= v.magnitude_in(m) < pow10((v.top - m + 1) as nat),
{
    lemma_coefficient_bounds(v.digits);
    let n = v.digits.len();
    let c = coefficient(v.digits);
    let s = (v.unit() - m) as nat;
    let p = pow10(s);
    lemma_pow10_positive(s);
    lemma_pow10_add((n - 1) as nat, s);
    lemma_pow10_add(n, s);
    assert((n - 1) as nat + s == (v.top - m) as nat);
    assert(n + s == (v.top - m + 1) as nat);
    let low = pow10((n - 1) as nat);
    let high = pow10(n);
    assert(low * p <= c * p) by (nonlinear_arith)
        requires
            low <= c,
            p >= 1,
    ;
    assert(c * p < high * p) by (nonlinear_arith)
        requires
            c < high,
            p >= 1,
    ;
}

/// `m` is a power of ten in which `v` can be counted: at most the power of
/// its last digit. Zero can be counted in any.
pub open spec fn counts_in(v: DecimalValue, m: int) -> bool {
    v.digits.len() > 0 ==> m <= v.unit()
}

/// Digits the last of which is not zero write a number that is not zero.
proof fn lemma_coefficient_of_last(d: Seq<u8>)
    requires
        d.len() > 0,
        d.last() != 0,
    ensures
        coefficient(d) >= 1,
{
}

/// A stretch of decimal digits holds decimal digits.
pub proof fn lemma_all_decimal_subrange(d: Seq<u8>, i: int, j: int)
    requires
        all_decimal(d),
        0 <= i <= j <= d.len(),
    ensures
        all_decimal(d.subrange(i, j)),
{
    let r = d.subrange(i, j);
    assert forall|k: int| 0 <= k < r.len() implies #[trigger] r[k] <= 9 by {
        assert(r[k] == d[i + k]);
    }
}

/// A number that is smaller in absolute value counts fewer units.
proof fn lemma_magnitude_strict(a: DecimalValue, b: DecimalValue, m: int)
    requires
        a.wf(),
        b.wf(),
        counts_in(a, m),
        counts_in(b, m),
        a.magnitude_le(b),
        !b.magnitude_le(a),
    ensures
        a.magnitude_in(m) < b.magnitude_in(m),
{
    lemma_magnitude_bounds(b, m);
    if a.digits.len() == 0 {
        assert(coefficient(a.digits) == 0);
        assert(0 * pow10((a.unit() - m) as nat) == 0) by (nonlinear_arith);
        lemma_pow10_positive((b.top - m) as nat);
    } else if a.top != b.top {
        lemma_magnitude_bounds(a, m);
        lemma_pow10_monotone((a.top - m + 1) as nat, (b.top - m) as nat);
    } else {
        let ra = digit_ranks(a.digits);
        let rb = digit_ranks(b.digits);
        let k = mismatch(ra, rb);
        let na = a.digits.len() as int;
        let nb = b.digits.len() as int;
        lemma_mismatch(ra, rb);
        lemma_mismatch_symmetric(ra, rb);
        assert forall|j: int| 0 <= j < k implies a.digits[j] == b.digits[j] by {
            assert(ra[j] == rb[j]);
        }
        let ya = pow10((a.unit() - m) as nat);
        let yb = pow10((b.unit() - m) as nat);
        lemma_pow10_positive((a.unit() - m) as nat);
        lemma_pow10_positive((b.unit() - m) as nat);
        if k == na {
            let tail = b.digits.subrange(na, nb);
            assert(b.digits =~= a.digits + tail);
            lemma_coefficient_split(a.digits, tail);
            assert(tail.last() == b.digits.last());
            lemma_coefficient_of_last(tail);
            let ca = coefficient(a.digits);
            let t = coefficient(tail);
            let x = pow10(tail.len());
            lemma_pow10_add(tail.len(), (b.unit() - m) as nat);
            assert(tail.len() + (b.unit() - m) as nat == (a.unit() - m) as nat);
            assert(ya == x * yb);
            assert(ca * (x * yb) < (ca * x + t) * yb) by (nonlinear_arith)
                requires
                    t >= 1,
                    yb >= 1,
            ;
        } else {
            assert(ra[k] < rb[k]);
            assert(a.digits[k] < b.digits[k]);
            let pa = a.digits.subrange(0, k + 1);
            let pb = b.digits.subrange(0, k + 1);
            let sa = a.digits.subrange(k + 1, na);
            let sb = b.digits.subrange(k + 1, nb);
            assert(a.digits =~= pa + sa);
            assert(b.digits =~= pb + sb);
            lemma_coefficient_split(pa, sa);
            lemma_coefficient_split(pb, sb);
            assert(pa.drop_last() =~= pb.drop_last());
            let cpa = coefficient(pa);
            let cpb = coefficient(pb);
            assert(cpa + 1 <= cpb);
            lemma_all_decimal_subrange(a.digits, k + 1, na);
            lemma_coefficient_bounds(sa);
            let xa = pow10(sa.len());
            let xb = pow10(sb.len());
            let csa = coefficient(sa);
            let csb = coefficient(sb);
            let q = pow10((a.top - k - m) as nat);
            lemma_pow10_add(sa.len(), (a.unit() - m) as nat);
            lemma_pow10_add(sb.len(), (b.unit() - m) as nat);
            assert(sa.len() + (a.unit() - m) as nat == (a.top - k - m) as nat);
            assert(sb.len() + (b.unit() - m) as nat == (a.top - k - m) as nat);
            assert(xa * ya == q);
            assert(xb * yb == q);
            assert((cpa * xa + csa) * ya < (cpa + 1) * (xa * ya)) by (nonlinear_arith)
                requires
                    csa < xa,
                    ya >= 1,
            ;
            assert((cpa + 1) * q <= cpb * q) by (nonlinear_arith)
                requires
                    cpa + 1 <= cpb,
            ;
            assert(cpb * (xb * yb) <= (cpb * xb + csb) * yb) by (nonlinear_arith);
        }
    }
}

/// Numbers that are each at most the other in absolute value have the same
/// digits at the same powers of ten.
proof fn lemma_magnitude_tied(a: DecimalValue, b: DecimalValue)
    requires
        a.wf(),
        b.wf(),
        a.magnitude_le(b),
        b.magnitude_le(a),
    ensures
        a.digits == b.digits,
        a.top == b.top,
{
    if a.digits.len() > 0 && b.digits.len() > 0 {
        crate::lex::lemma_lex_le_antisymmetric(digit_ranks(a.digits), digit_ranks(b.digits));
        assert forall|j: int| 0 <= j < a.digits.len() implies a.digits[j] == b.digits[j] by {
            assert(digit_ranks(a.digits)[j] == digit_ranks(b.digits)[j]);
        }
        assert(digit_ranks(a.digits).len() == digit_ranks(b.digits).len());
    }
    assert(a.digits =~= b.digits);
}

/// The order of numbers is the order of what they are worth: counted in
/// units of one power of ten that holds the last digit of both, `a` is at
/// most `b` just when it counts at most as many.
pub proof fn lemma_order_is_numeric(a: DecimalValue, b: DecimalValue, m: int)
    requires
        a.wf(),
        b.wf(),
        counts_in(a, m),
        counts_in(b, m),
    ensures
        a.le(b) <==> a.scaled(m) <= b.scaled(m),
{
    crate::lex::lemma_lex_le_total(digit_ranks(a.digits), digit_ranks(b.digits));
    if a.magnitude_le(b) && b.magnitude_le(a) {
        lemma_magnitude_tied(a, b);
        assert(a.unit() == b.unit());
    } else if a.magnitude_le(b) {
        lemma_magnitude_strict(a, b, m);
    } else {
        lemma_magnitude_strict(b, a, m);
    }
    if a.digits.len() > 0 {
        lemma_magnitude_bounds(a, m);
        lemma_pow10_positive((a.top - m) as nat);
    }
    if b.digits.len() > 0 {
        lemma_magnitude_bounds(b, m);
        lemma_pow10_positive((b.top - m) as nat);
    }
}

/// Numbers that are each at most the other are the same number.
pub proof fn lemma_decimal_le_antisymmetric(a: DecimalValue, b: DecimalValue)
    requires
        a.wf(),
        b.wf(),
        a.le(b),
        b.le(a),
    ensures
        a == b,
{
    lemma_magnitude_tied(a, b);
}

/// A whole number as a decimal number is worth that whole number.
pub proof fn lemma_int_number_value(i: int)
    ensures
        int_number(i).wf(),
        counts_in(int_number(i), 0),
        int_number(i).scaled(0) == i,
{
    let n = vstd::math::abs(i);
    let d = nat_digits(n);
    lemma_coefficient_of_nat_digits(n);
    crate::decimal::lemma_normal_form_wf(i < 0, d, d.len() - 1);
    lemma_normal_form_value(i < 0, d, d.len() - 1, 0);
    assert(pow10(0) == 1);
    assert(coefficient(d) * 1 == coefficient(d)) by (nonlinear_arith);
}

/// What the digits of a text stand for writes the number that the text
/// writes.
pub proof fn lemma_coefficient_of_digit_values(chars: Seq<char>)
    requires
        forall|j: int| 0 <= j < chars.len() ==> is_digit(#[trigger] chars[j]),
    ensures
        coefficient(digit_values(chars)) == digits_value(chars),
        all_decimal(digit_values(chars)),
    decreases chars.len(),
{
    let d = digit_values(chars);
    assert forall|i: int| 0 <= i < d.len() implies #[trigger] d[i] <= 9 by {
        assert(is_digit(chars[i]));
    }
    if chars.len() > 0 {
        let t = chars.drop_last();
        assert forall|j: int| 0 <= j < t.len() implies is_digit(#[trigger] t[j]) by {
            assert(t[j] == chars[j]);
        }
        lemma_coefficient_of_digit_values(t);
        assert(d.drop_last() =~= digit_values(t));
        assert(d.last() == digit_value(chars.last()));
    }
}

/// The sign that a text starts with: minus one behind a minus, else one.
pub open spec fn sign_of(s: Seq<char>) -> int {
    if s.len() > 0 && s[0] == '-' {
        -1
    } else {
        1
    }
}

/// A number text writes its digits, read as a whole number, times ten to
/// its power less the count of digits behind the point, with its sign.
pub proof fn lemma_text_number_value(s: Seq<char>, m: int)
    requires
        is_number_text(s),
        m <= exponent(s) - fraction_len(s),
    ensures
        text_number(s).wf(),
        counts_in(text_number(s), m),
        text_number(s).scaled(m) == sign_of(s) * (digits_value(mantissa_text(s)) * pow10(
            (exponent(s) - fraction_len(s) - m) as nat,
        )),
{
    lemma_digits_run(s, int_start(s));
    lemma_digits_run(s, frac_start(s));
    let chars = mantissa_text(s);
    let whole = s.subrange(int_start(s), int_end(s));
    let part = s.subrange(frac_start(s), frac_end(s));
    assert forall|j: int| 0 <= j < chars.len() implies is_digit(#[trigger] chars[j]) by {
        if j < whole.len() {
            assert(chars[j] == s[int_start(s) + j]);
        } else {
            assert(chars[j] == s[frac_start(s) + (j - whole.len())]);
        }
    }
    lemma_coefficient_of_digit_values(chars);
    let d = mantissa(s);
    let first_power = int_end(s) - int_start(s) - 1 + exponent(s);
    let negative = s.len() > 0 && s[0] == '-';
    crate::decimal::lemma_normal_form_wf(negative, d, first_power);
    lemma_normal_form_value(negative, d, first_power, m);
    let v = text_number(s);
    let p = pow10((exponent(s) - fraction_len(s) - m) as nat);
    let c = coefficient(d);
    assert(first_power - d.len() + 1 == exponent(s) - fraction_len(s));
    assert(v.magnitude_in(m) == c * p);
    if c == 0 {
        assert(0 * p == 0) by (nonlinear_arith);
    }
}

} // verus!
