//! Lexicographic order on sequences of integers: the order of texts by code
//! point and of digit strings by digit.

use vstd::prelude::*;

verus! {

/// The first position from `i` on at which `a` and `b` differ or one of them
/// ends.
pub open spec fn mismatch_from(a: Seq<int>, b: Seq<int>, i: int) -> int
    decreases a.len() - i,
{
    if 0 <= i < a.len() && i < b.len() && a[i] == b[i] {
        mismatch_from(a, b, i + 1)
    } else {
        i
    }
}

/// The length of the longest common prefix of `a` and `b`.
pub open spec fn mismatch(a: Seq<int>, b: Seq<int>) -> int {
    mismatch_from(a, b, 0)
}

/// `a` is a prefix of `b`, or is smaller at the first position where they
/// differ.
pub open spec fn lex_le(a: Seq<int>, b: Seq<int>) -> bool {
    let k = mismatch(a, b);
    k == a.len() || (k < b.len() && a[k] < b[k])
}

/// The code points of a text.
pub open spec fn code_points(s: Seq<char>) -> Seq<int> {
    s.map_values(|c: char| c as int)
}

/// The digits of a digit string as integers.
pub open spec fn digit_ranks(s: Seq<u8>) -> Seq<int> {
    s.map_values(|d: u8| d as int)
}

/// From `i` on the sequences agree up to the position that `mismatch_from`
/// gives, and differ there unless one of them ends.
proof fn lemma_mismatch_from(a: Seq<int>, b: Seq<int>, i: int)
    requires
        0 <= i <= a.len(),
        i <= b.len(),
    ensures
        i <= mismatch_from(a, b, i) <= a.len(),
        mismatch_from(a, b, i) <= b.len(),
        forall|j: int| i <= j < mismatch_from(a, b, i) ==> a[j] == b[j],
        mismatch_from(a, b, i) < a.len() && mismatch_from(a, b, i) < b.len() ==> a[mismatch_from(
            a,
            b,
            i,
        )] != b[mismatch_from(a, b, i)],
    decreases a.len() - i,
{
    if i < a.len() && i < b.len() && a[i] == b[i] {
        lemma_mismatch_from(a, b, i + 1);
    }
}

/// The common prefix ends where the sequences first differ or one of them
/// ends.
pub proof fn lemma_mismatch(a: Seq<int>, b: Seq<int>)
    ensures
        0 <= mismatch(a, b) <= a.len(),
        mismatch(a, b) <= b.len(),
        forall|j: int| 0 <= j < mismatch(a, b) ==> a[j] == b[j],
        mismatch(a, b) < a.len() && mismatch(a, b) < b.len() ==> a[mismatch(a, b)] != b[mismatch(
            a,
            b,
        )],
{
    lemma_mismatch_from(a, b, 0);
}

/// A position up to which the sequences agree and at which they differ or
/// one of them ends is where the common prefix ends.
pub proof fn lemma_mismatch_unique(a: Seq<int>, b: Seq<int>, k: int)
    requires
        0 <= k <= a.len(),
        k <= b.len(),
        forall|j: int| 0 <= j < k ==> a[j] == b[j],
        k < a.len() && k < b.len() ==> a[k] != b[k],
    ensures
        mismatch(a, b) == k,
{
    lemma_mismatch(a, b);
    let m = mismatch(a, b);
    if m < k {
        assert(a[m] == b[m]);
    } else if k < m {
        assert(a[k] == b[k]);
    }
}

/// The common prefix of `b` and `a` is as long as that of `a` and `b`.
pub proof fn lemma_mismatch_symmetric(a: Seq<int>, b: Seq<int>)
    ensures
        mismatch(b, a) == mismatch(a, b),
{
    lemma_mismatch(a, b);
    lemma_mismatch_unique(b, a, mismatch(a, b));
}

/// Of two sequences one is at most the other.
pub proof fn lemma_lex_le_total(a: Seq<int>, b: Seq<int>)
    ensures
        lex_le(a, b) || lex_le(b, a),
{
    lemma_mismatch(a, b);
    lemma_mismatch_symmetric(a, b);
}

/// The order chains.
pub proof fn lemma_lex_le_transitive(a: Seq<int>, b: Seq<int>, c: Seq<int>)
    requires
        lex_le(a, b),
        lex_le(b, c),
    ensures
        lex_le(a, c),
{
    lemma_mismatch(a, b);
    lemma_mismatch(b, c);
    lemma_mismatch(a, c);
    let ab = mismatch(a, b);
    let bc = mismatch(b, c);
    let ac = mismatch(a, c);
    let low = if ab <= bc { ab } else { bc };
    assert forall|j: int| 0 <= j < low implies a[j] == c[j] by {
        assert(a[j] == b[j] && b[j] == c[j]);
    }
    if ac < low {
        assert(a[ac] == c[ac]);
    } else if ac > low {
        assert(a[low] == c[low]);
        if ab < bc {
            assert(b[ab] == c[ab]);
        } else if bc < ab {
            assert(a[bc] == b[bc]);
        }
    } else {
        if ab < bc {
            assert(b[ab] == c[ab]);
        } else if bc < ab {
            assert(a[bc] == b[bc]);
        }
    }
}

/// Sequences that are each at most the other are the same sequence.
pub proof fn lemma_lex_le_antisymmetric(a: Seq<int>, b: Seq<int>)
    requires
        lex_le(a, b),
        lex_le(b, a),
    ensures
        a == b,
{
    lemma_mismatch(a, b);
    lemma_mismatch_symmetric(a, b);
    assert(a =~= b);
}

} // verus!
