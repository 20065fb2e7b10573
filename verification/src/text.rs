//! Texts as sequences of characters: reading them out, folding their case,
//! and ordering them by code point.

use std::cmp::Ordering;
use vstd::prelude::*;
use crate::lex::{code_points, lex_le, mismatch, lemma_mismatch, lemma_mismatch_symmetric, lemma_mismatch_unique};

verus! {

/// The characters of `s`, in order.
pub fn chars_of(s: &str) -> (r: Vec<char>)
    ensures
        r@ == s@,
{
    let mut out: Vec<char> = Vec::new();
    for c in it: s.chars()
        invariant
            out@ == it.seq().take(it.index()),
            it.seq() == s@,
    {
        out.push(c);
    }
    out
}

/// The lower-case form of a text.
pub uninterp spec fn lowercase(s: Seq<char>) -> Seq<char>;

/// Calls `str::to_lowercase` of the standard library, which maps each
/// character to its Unicode lower-case form. The result depends on the text
/// alone; the contract gives it the name `lowercase` and says nothing else
/// of it.
#[verifier::external_body]
pub(crate) fn to_lowercase(s: &str) -> (r: String)
    ensures
        r@ == lowercase(s@),
{
    s.to_lowercase()
}

/// Whether two texts are the same text.
pub fn same_text(a: &str, b: &str) -> (r: bool)
    ensures
        r == (a@ == b@),
{
    let x = chars_of(a);
    let y = chars_of(b);
    let k = common_prefix_len(&x, &y);
    proof {
        lemma_mismatch(code_points(x@), code_points(y@));
        if k == x.len() && k == y.len() {
            assert forall|j: int| 0 <= j < x.len() implies x@[j] == y@[j] by {
                assert(code_points(x@)[j] == code_points(y@)[j]);
            }
            assert(x@ =~= y@);
        }
    }
    k == x.len() && k == y.len()
}

/// The length of the longest common prefix of `a` and `b`.
pub fn common_prefix_len(a: &Vec<char>, b: &Vec<char>) -> (k: usize)
    ensures
        k == mismatch(code_points(a@), code_points(b@)),
        k <= a.len(),
        k <= b.len(),
{
    let mut i: usize = 0;
    while i < a.len() && i < b.len() && a[i] == b[i]
        invariant
            i <= a.len(),
            i <= b.len(),
            forall|j: int| 0 <= j < i ==> a@[j] == b@[j],
        decreases a.len() - i,
    {
        i += 1;
    }
    proof {
        lemma_mismatch_unique(code_points(a@), code_points(b@), i as int);
    }
    i
}

/// How `a` stands to `b` in the order of texts by code point.
pub open spec fn text_order(a: Seq<char>, b: Seq<char>) -> Ordering {
    if !lex_le(code_points(b), code_points(a)) {
        Ordering::Less
    } else if !lex_le(code_points(a), code_points(b)) {
        Ordering::Greater
    } else {
        Ordering::Equal
    }
}

/// Orders two texts by code point, a prefix before its extensions.
pub fn compare_text(a: &str, b: &str) -> (o: Ordering)
    ensures
        o == text_order(a@, b@),
{
    let x = chars_of(a);
    let y = chars_of(b);
    let k = common_prefix_len(&x, &y);
    proof {
        lemma_mismatch(code_points(x@), code_points(y@));
        lemma_mismatch_symmetric(code_points(x@), code_points(y@));
    }
    if k == x.len() {
        if k == y.len() {
            Ordering::Equal
        } else {
            Ordering::Less
        }
    } else if k == y.len() {
        Ordering::Greater
    } else if x[k] < y[k] {
        Ordering::Less
    } else {
        Ordering::Greater
    }
}

} // verus!
