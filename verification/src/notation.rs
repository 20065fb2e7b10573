//! The decimal notation of numbers: an optional sign, digits with an
//! optional point among them, and an optional power of ten.

use vstd::prelude::*;
use crate::decimal::{normal_form, DecimalValue};

verus! {

/// The largest power of ten, in absolute value, that a number text may name.
pub const EXPONENT_LIMIT: u64 = 10_000;

/// `c` is one of the ten decimal digits.
pub open spec fn is_digit(c: char) -> bool {
    '0' <= c && c <= '9'
}

/// The number that the digit `c` stands for.
pub open spec fn digit_value(c: char) -> u8 {
    (c as int - '0' as int) as u8
}

/// The numbers that the digits of `s` stand for.
pub open spec fn digit_values(s: Seq<char>) -> Seq<u8> {
    s.map_values(|c: char| digit_value(c))
}

/// The position behind the run of digits that starts at `i`.
pub open spec fn digits_end(s: Seq<char>, i: int) -> int
    decreases s.len() - i,
{
    if 0 <= i < s.len() && is_digit(s[i]) {
        digits_end(s, i + 1)
    } else {
        i
    }
}

/// The number written by a string of digits.
pub open spec fn digits_value(d: Seq<char>) -> nat
    decreases d.len(),
{
    if d.len() == 0 {
        0
    } else {
        digits_value(d.drop_last()) * 10 + digit_value(d.last()) as nat
    }
}

/// One if a sign stands at position `i`, else zero.
pub open spec fn sign_len(s: Seq<char>, i: int) -> int {
    if 0 <= i < s.len() && (s[i] == '+' || s[i] == '-') {
        1
    } else {
        0
    }
}

/// Where the digits before the point start: behind the sign, if there is one.
pub open spec fn int_start(s: Seq<char>) -> int {
    sign_len(s, 0)
}

/// Where the digits before the point end.
pub open spec fn int_end(s: Seq<char>) -> int {
    digits_end(s, int_start(s))
}

/// Where the digits behind the point start: behind the point, if there is one.
pub open spec fn frac_start(s: Seq<char>) -> int {
    if int_end(s) < s.len() && s[int_end(s)] == '.' {
        int_end(s) + 1
    } else {
        int_end(s)
    }
}

/// Where the digits behind the point end.
pub open spec fn frac_end(s: Seq<char>) -> int {
    digits_end(s, frac_start(s))
}

/// The digits of the number as written, those before the point and those
/// behind it.
pub open spec fn mantissa_text(s: Seq<char>) -> Seq<char> {
    s.subrange(int_start(s), int_end(s)) + s.subrange(frac_start(s), frac_end(s))
}

/// The digits of the number, those before the point and those behind it.
pub open spec fn mantissa(s: Seq<char>) -> Seq<u8> {
    digit_values(mantissa_text(s))
}

/// How many digits stand behind the point.
pub open spec fn fraction_len(s: Seq<char>) -> int {
    frac_end(s) - frac_start(s)
}

/// An `e` or `E` follows the digits.
pub open spec fn has_exponent(s: Seq<char>) -> bool {
    frac_end(s) < s.len() && (s[frac_end(s)] == 'e' || s[frac_end(s)] == 'E')
}

/// Where the digits of the power of ten start: behind the `e` and its sign.
pub open spec fn exponent_start(s: Seq<char>) -> int {
    frac_end(s) + 1 + sign_len(s, frac_end(s) + 1)
}

/// Where the digits of the power of ten end.
pub open spec fn exponent_end(s: Seq<char>) -> int {
    digits_end(s, exponent_start(s))
}

/// The power of ten without its sign.
pub open spec fn exponent_magnitude(s: Seq<char>) -> nat {
    digits_value(s.subrange(exponent_start(s), exponent_end(s)))
}

/// The power of ten that the text names, zero if it names none.
pub open spec fn exponent(s: Seq<char>) -> int {
    if !has_exponent(s) {
        0
    } else if sign_len(s, frac_end(s) + 1) == 1 && s[frac_end(s) + 1] == '-' {
        -(exponent_magnitude(s) as int)
    } else {
        exponent_magnitude(s) as int
    }
}

/// What follows the digits is well written: either nothing, or an `e` or
/// `E`, an optional sign and at least one digit up to the end of the text,
/// which name a power of ten within the limit.
pub open spec fn power_is_written(s: Seq<char>) -> bool {
    if has_exponent(s) {
        &&& exponent_start(s) < exponent_end(s)
        &&& exponent_end(s) == s.len()
        &&& exponent_magnitude(s) <= EXPONENT_LIMIT
    } else {
        frac_end(s) == s.len()
    }
}

/// The text writes a number: `[+-]? (digits | digits '.' digits? | '.'
/// digits) ([eE] [+-]? digits)?`, nothing before or behind, and the power of
/// ten within the limit.
pub open spec fn is_number_text(s: Seq<char>) -> bool {
    &&& (int_end(s) - int_start(s)) + (frac_end(s) - frac_start(s)) >= 1
    &&& power_is_written(s)
}

/// The number that a number text writes.
pub open spec fn text_number(s: Seq<char>) -> DecimalValue {
    normal_form(
        s.len() > 0 && s[0] == '-',
        mantissa(s),
        int_end(s) - int_start(s) - 1 + exponent(s),
    )
}

/// A run of digits holds digits only, and ends within the text.
pub proof fn lemma_digits_run(s: Seq<char>, i: int)
    requires
        0 <= i <= s.len(),
    ensures
        i <= digits_end(s, i) <= s.len(),
        forall|j: int| i <= j < digits_end(s, i) ==> is_digit(#[trigger] s[j]),
        digits_end(s, i) < s.len() ==> !is_digit(s[digits_end(s, i)]),
    decreases s.len() - i,
{
    if i < s.len() && is_digit(s[i]) {
        lemma_digits_run(s, i + 1);
    }
}

/// A stretch of digits that ends before something else, or with the text,
/// is a run of digits.
pub proof fn lemma_digits_end(s: Seq<char>, i: int, k: int)
    requires
        0 <= i <= k <= s.len(),
        forall|j: int| i <= j < k ==> is_digit(#[trigger] s[j]),
        k < s.len() ==> !is_digit(s[k]),
    ensures
        digits_end(s, i) == k,
    decreases k - i,
{
    if i < k {
        lemma_digits_end(s, i + 1, k);
    }
}

/// The digit that `c` stands for, if it is one.
fn digit_of(c: char) -> (r: Option<u8>)
    ensures
        r is Some <==> is_digit(c),
        r is Some ==> r->0 == digit_value(c) && r->0 <= 9,
{
    if '0' <= c && c <= '9' {
        Some(((c as u32) - 48) as u8)
    } else {
        None
    }
}

/// Reads the run of digits that starts at `start` and appends what they
/// stand for to `out`.
pub(crate) fn scan_digits(s: &Vec<char>, start: usize, out: &mut Vec<u8>) -> (end: usize)
    requires
        start <= s.len(),
        forall|j: int| 0 <= j < old(out).len() ==> #[trigger] old(out)[j] <= 9,
    ensures
        end == digits_end(s@, start as int),
        start <= end <= s.len(),
        final(out)@ == old(out)@ + digit_values(s@.subrange(start as int, end as int)),
        forall|j: int| 0 <= j < final(out).len() ==> #[trigger] final(out)[j] <= 9,
{
    let mut i: usize = start;
    loop
        invariant
            start <= i <= s.len(),
            forall|j: int| start <= j < i ==> is_digit(#[trigger] s@[j]),
            out@ == old(out)@ + digit_values(s@.subrange(start as int, i as int)),
            forall|j: int| 0 <= j < out.len() ==> #[trigger] out[j] <= 9,
        ensures
            start <= i <= s.len(),
            forall|j: int| start <= j < i ==> is_digit(#[trigger] s@[j]),
            i < s.len() ==> !is_digit(s@[i as int]),
            out@ == old(out)@ + digit_values(s@.subrange(start as int, i as int)),
            forall|j: int| 0 <= j < out.len() ==> #[trigger] out[j] <= 9,
        decreases s.len() - i,
    {
        if i >= s.len() {
            break;
        }
        match digit_of(s[i]) {
            None => {
                break;
            },
            Some(d) => {
                out.push(d);
                assert(digit_values(s@.subrange(start as int, i + 1)) =~= digit_values(
                    s@.subrange(start as int, i as int),
                ).push(d));
                i += 1;
            },
        }
    }
    proof {
        lemma_digits_end(s@, start as int, i as int);
    }
    i
}

/// Reads the run of digits that starts at `start` as a number, as far as it
/// stays within the limit.
pub(crate) fn scan_exponent(s: &Vec<char>, start: usize) -> (r: (usize, Option<u64>))
    requires
        start <= s.len(),
    ensures
        r.0 == digits_end(s@, start as int),
        start <= r.0 <= s.len(),
        r.1 is Some <==> digits_value(s@.subrange(start as int, r.0 as int)) <= EXPONENT_LIMIT,
        r.1 is Some ==> r.1->0 == digits_value(s@.subrange(start as int, r.0 as int)),
{
    let mut i: usize = start;
    let mut value: u64 = 0;
    let mut within: bool = true;
    loop
        invariant
            start <= i <= s.len(),
            forall|j: int| start <= j < i ==> is_digit(#[trigger] s@[j]),
            within ==> value == digits_value(s@.subrange(start as int, i as int)) && value
                <= EXPONENT_LIMIT,
            !within ==> digits_value(s@.subrange(start as int, i as int)) > EXPONENT_LIMIT,
        ensures
            start <= i <= s.len(),
            forall|j: int| start <= j < i ==> is_digit(#[trigger] s@[j]),
            i < s.len() ==> !is_digit(s@[i as int]),
            within ==> value == digits_value(s@.subrange(start as int, i as int)) && value
                <= EXPONENT_LIMIT,
            !within ==> digits_value(s@.subrange(start as int, i as int)) > EXPONENT_LIMIT,
        decreases s.len() - i,
    {
        if i >= s.len() {
            break;
        }
        match digit_of(s[i]) {
            None => {
                break;
            },
            Some(d) => {
                proof {
                    let next = s@.subrange(start as int, i + 1);
                    assert(next.drop_last() =~= s@.subrange(start as int, i as int));
                    assert(next.last() == s@[i as int]);
                }
                if within {
                    value = value * 10 + (d as u64);
                    if value > EXPONENT_LIMIT {
                        within = false;
                    }
                }
                i += 1;
            },
        }
    }
    proof {
        lemma_digits_end(s@, start as int, i as int);
    }
    if within {
        (i, Some(value))
    } else {
        (i, None)
    }
}

/// Reads the sign and the digits of a number text: whether the text starts
/// with a minus, the digits, how many of them stand before the point, and
/// where the digits end.
pub(crate) fn read_mantissa(s: &Vec<char>) -> (r: (bool, Vec<u8>, usize, usize))
    ensures
        r.0 == (s.len() > 0 && s@[0] == '-'),
        r.1@ == mantissa(s@),
        r.2 == int_end(s@) - int_start(s@),
        r.3 == frac_end(s@),
        r.3 <= s.len(),
        r.1.len() == (int_end(s@) - int_start(s@)) + (frac_end(s@) - frac_start(s@)),
        forall|j: int| 0 <= j < r.1.len() ==> #[trigger] r.1[j] <= 9,
{
    let n = s.len();
    let mut first: usize = 0;
    let mut negative = false;
    if n > 0 && (s[0] == '+' || s[0] == '-') {
        negative = s[0] == '-';
        first = 1;
    }
    let mut all: Vec<u8> = Vec::new();
    let whole_end = scan_digits(s, first, &mut all);
    let mut point_end = whole_end;
    if point_end < n && s[point_end] == '.' {
        point_end += 1;
    }
    let part_end = scan_digits(s, point_end, &mut all);
    proof {
        let whole = s@.subrange(first as int, whole_end as int);
        let part = s@.subrange(point_end as int, part_end as int);
        assert(all@ =~= digit_values(whole) + digit_values(part));
        assert(digit_values(whole) + digit_values(part) =~= digit_values(whole + part));
    }
    (negative, all, whole_end - first, part_end)
}

/// Reads what follows the digits of a number text, from `at` on: the power
/// of ten that it names, or nothing if it is not well written.
pub(crate) fn read_power(s: &Vec<char>, at: usize) -> (r: Option<i64>)
    requires
        at == frac_end(s@),
        at <= s.len(),
    ensures
        r is Some <==> power_is_written(s@),
        r is Some ==> r->0 == exponent(s@),
{
    let n = s.len();
    if at < n && (s[at] == 'e' || s[at] == 'E') {
        let mut k = at + 1;
        let mut down = false;
        if k < n && (s[k] == '+' || s[k] == '-') {
            down = s[k] == '-';
            k += 1;
        }
        let (end, value) = scan_exponent(s, k);
        if end == k || end != n {
            return None;
        }
        match value {
            None => None,
            Some(v) => {
                if down {
                    Some(-(v as i64))
                } else {
                    Some(v as i64)
                }
            },
        }
    } else if at != n {
        None
    } else {
        Some(0)
    }
}

} // verus!
