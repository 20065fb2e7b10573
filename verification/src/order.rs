//! Stable sorting as a mathematical function on sequences, and the facts
//! that make it a sort: it permutes, it orders, it keeps ties in place.

use vstd::prelude::*;

verus! {

/// Any two values compare one way or the other, and comparisons chain.
pub open spec fn total_preorder<A>(le: spec_fn(A, A) -> bool) -> bool {
    &&& forall|a: A, b: A| #[trigger] le(a, b) || le(b, a)
    &&& forall|a: A, b: A, c: A| #![trigger le(a, b), le(b, c)] le(a, b) && le(b, c) ==> le(a, c)
}

/// Neither value comes strictly before the other.
pub open spec fn tied<A>(le: spec_fn(A, A) -> bool, a: A, b: A) -> bool {
    le(a, b) && le(b, a)
}

/// Every element is at most every later one.
pub open spec fn ascending<A>(s: Seq<A>, le: spec_fn(A, A) -> bool) -> bool {
    forall|i: int, j: int| 0 <= i < j < s.len() ==> le(#[trigger] s[i], #[trigger] s[j])
}

/// Where `x` lands in `s`: behind the last element that is at most `x`.
pub open spec fn insert_point<A>(s: Seq<A>, x: A, le: spec_fn(A, A) -> bool) -> int
    decreases s.len(),
{
    if s.len() > 0 && !le(s.last(), x) {
        insert_point(s.drop_last(), x, le)
    } else {
        s.len() as int
    }
}

/// `s` with `x` put in behind the last element that is at most `x`.
pub open spec fn insert_stable<A>(s: Seq<A>, x: A, le: spec_fn(A, A) -> bool) -> Seq<A> {
    s.insert(insert_point(s, x, le), x)
}

/// The elements of `s`, taken front to back and each put in behind those
/// already placed that are at most it.
pub open spec fn stable_sort<A>(s: Seq<A>, le: spec_fn(A, A) -> bool) -> Seq<A>
    decreases s.len(),
{
    if s.len() == 0 {
        s
    } else {
        insert_stable(stable_sort(s.drop_last(), le), s.last(), le)
    }
}

/// The insert point is a position of `s`; everything from it on is strictly
/// greater than `x`, and the element before it, if any, is at most `x`.
pub proof fn lemma_insert_point<A>(s: Seq<A>, x: A, le: spec_fn(A, A) -> bool)
    ensures
        0 <= insert_point(s, x, le) <= s.len(),
        forall|k: int| insert_point(s, x, le) <= k < s.len() ==> !le(#[trigger] s[k], x),
        insert_point(s, x, le) > 0 ==> le(s[insert_point(s, x, le) - 1], x),
    decreases s.len(),
{
    if s.len() > 0 && !le(s.last(), x) {
        let t = s.drop_last();
        lemma_insert_point(t, x, le);
        assert forall|k: int| insert_point(s, x, le) <= k < s.len() implies !le(#[trigger] s[k], x) by {
            if k < t.len() {
                assert(t[k] == s[k]);
            }
        }
        if insert_point(s, x, le) > 0 {
            assert(t[insert_point(t, x, le) - 1] == s[insert_point(s, x, le) - 1]);
        }
    }
}

/// A position with the two properties of the insert point is the insert
/// point.
pub proof fn lemma_insert_point_unique<A>(s: Seq<A>, x: A, le: spec_fn(A, A) -> bool, p: int)
    requires
        0 <= p <= s.len(),
        forall|k: int| p <= k < s.len() ==> !le(#[trigger] s[k], x),
        p > 0 ==> le(s[p - 1], x),
    ensures
        insert_point(s, x, le) == p,
    decreases s.len(),
{
    if s.len() > 0 && !le(s.last(), x) {
        let t = s.drop_last();
        assert(p < s.len()) by {
            if p == s.len() {
                assert(le(s[p - 1], x));
            }
        }
        assert forall|k: int| p <= k < t.len() implies !le(#[trigger] t[k], x) by {
            assert(t[k] == s[k]);
        }
        if p > 0 {
            assert(t[p - 1] == s[p - 1]);
        }
        lemma_insert_point_unique(t, x, le, p);
    } else if s.len() > 0 {
        if p < s.len() {
            assert(!le(s[s.len() - 1], x));
        }
    }
}

/// A stable sort has the length of its input.
pub proof fn lemma_stable_sort_len<A>(s: Seq<A>, le: spec_fn(A, A) -> bool)
    ensures
        stable_sort(s, le).len() == s.len(),
    decreases s.len(),
{
    if s.len() > 0 {
        lemma_stable_sort_len(s.drop_last(), le);
        lemma_insert_point(stable_sort(s.drop_last(), le), s.last(), le);
    }
}

/// A stable sort holds each element as often as its input does.
pub proof fn lemma_stable_sort_permutes<A>(s: Seq<A>, le: spec_fn(A, A) -> bool)
    ensures
        stable_sort(s, le).to_multiset() == s.to_multiset(),
    decreases s.len(),
{
    broadcast use {vstd::seq_lib::to_multiset_build, vstd::seq_lib::to_multiset_insert};

    if s.len() > 0 {
        let t = s.drop_last();
        let r = stable_sort(t, le);
        lemma_stable_sort_permutes(t, le);
        lemma_insert_point(r, s.last(), le);
        assert(s == t.push(s.last()));
        assert(r.insert(insert_point(r, s.last(), le), s.last()).to_multiset()
            == r.to_multiset().insert(s.last()));
        assert(t.push(s.last()).to_multiset() == t.to_multiset().insert(s.last()));
    }
}

/// Putting a value into an ascending sequence at its insert point leaves the
/// sequence ascending.
pub proof fn lemma_insert_stable_ascending<A>(s: Seq<A>, x: A, le: spec_fn(A, A) -> bool)
    requires
        total_preorder(le),
        ascending(s, le),
    ensures
        ascending(insert_stable(s, x, le), le),
{
    let p = insert_point(s, x, le);
    let r = insert_stable(s, x, le);
    lemma_insert_point(s, x, le);
    assert forall|i: int, j: int| 0 <= i < j < r.len() implies le(#[trigger] r[i], #[trigger] r[j]) by {
        if j < p {
            assert(r[i] == s[i] && r[j] == s[j]);
        } else if j == p {
            assert(r[j] == x);
            assert(r[i] == s[i]);
            if i < p - 1 {
                assert(le(s[i], s[p - 1]));
            }
            assert(le(s[p - 1], x));
            assert(le(s[i], x));
        } else if i < p {
            assert(r[i] == s[i] && r[j] == s[j - 1]);
            if i < j - 1 {
                assert(le(s[i], s[j - 1]));
            }
        } else if i == p {
            assert(r[i] == x && r[j] == s[j - 1]);
            assert(!le(s[j - 1], x));
            assert(le(s[j - 1], x) || le(x, s[j - 1]));
        } else {
            assert(r[i] == s[i - 1] && r[j] == s[j - 1]);
        }
    }
}

/// Under a total preorder a stable sort is ascending.
pub proof fn lemma_stable_sort_ascending<A>(s: Seq<A>, le: spec_fn(A, A) -> bool)
    requires
        total_preorder(le),
    ensures
        ascending(stable_sort(s, le), le),
    decreases s.len(),
{
    if s.len() > 0 {
        lemma_stable_sort_ascending(s.drop_last(), le);
        lemma_insert_stable_ascending(stable_sort(s.drop_last(), le), s.last(), le);
    }
}

/// Sorting a sequence that is already ascending changes nothing.
pub proof fn lemma_stable_sort_of_ascending<A>(s: Seq<A>, le: spec_fn(A, A) -> bool)
    requires
        ascending(s, le),
    ensures
        stable_sort(s, le) == s,
    decreases s.len(),
{
    if s.len() > 0 {
        let t = s.drop_last();
        assert forall|i: int, j: int| 0 <= i < j < t.len() implies le(#[trigger] t[i], #[trigger] t[j]) by {
            assert(t[i] == s[i] && t[j] == s[j]);
        }
        lemma_stable_sort_of_ascending(t, le);
        if t.len() > 0 {
            assert(t[t.len() - 1] == s[t.len() - 1]);
            assert(le(s[t.len() - 1], s[s.len() - 1]));
        }
        lemma_insert_point_unique(t, s.last(), le, t.len() as int);
        assert(t.insert(t.len() as int, s.last()) =~= s);
    }
}

/// Sorting twice gives what sorting once gives.
pub proof fn lemma_stable_sort_idempotent<A>(s: Seq<A>, le: spec_fn(A, A) -> bool)
    requires
        total_preorder(le),
    ensures
        stable_sort(stable_sort(s, le), le) == stable_sort(s, le),
{
    lemma_stable_sort_ascending(s, le);
    lemma_stable_sort_of_ascending(stable_sort(s, le), le);
}

/// The elements of `s` that are tied with `z`, in the order in which `s`
/// holds them.
pub open spec fn ties_of<A>(s: Seq<A>, le: spec_fn(A, A) -> bool, z: A) -> Seq<A> {
    s.filter(|y: A| tied(le, y, z))
}

/// A stable sort keeps tied elements in the order in which its input holds
/// them.
pub proof fn lemma_stable_sort_keeps_ties<A>(s: Seq<A>, le: spec_fn(A, A) -> bool, z: A)
    requires
        total_preorder(le),
    ensures
        ties_of(stable_sort(s, le), le, z) == ties_of(s, le, z),
    decreases s.len(),
{
    if s.len() > 0 {
        let t = s.drop_last();
        let x = s.last();
        let r = stable_sort(t, le);
        let p = insert_point(r, x, le);
        let f = |y: A| tied(le, y, z);
        let front = r.subrange(0, p);
        let back = r.subrange(p, r.len() as int);
        lemma_stable_sort_keeps_ties(t, le, z);
        lemma_insert_point(r, x, le);
        assert(r.insert(p, x) =~= front.push(x) + back);
        assert(r =~= front + back);
        assert(s =~= t.push(x));
        Seq::filter_distributes_over_add(front.push(x), back, f);
        Seq::filter_distributes_over_add(front, back, f);
        front.lemma_filter_push(x, f);
        t.lemma_filter_push(x, f);
        if f(x) {
            assert forall|k: int| 0 <= k < back.len() implies (|y: A| !f(y))(#[trigger] back[k]) by {
                assert(back[k] == r[p + k]);
                assert(!le(r[p + k], x));
                if le(back[k], z) {
                    assert(le(z, x));
                    assert(le(back[k], x));
                }
            }
            back.lemma_all_neg_filter_empty(f);
            assert(back.filter(f) =~= Seq::<A>::empty());
            assert(front.filter(f).push(x) + back.filter(f) =~= (front.filter(f) + back.filter(f)).push(x));
        }
    }
}

/// Two sequences agree on the order of tied elements: whatever `z`, they
/// hold the elements tied with `z` in the same order.
pub open spec fn same_ties<A>(r: Seq<A>, s: Seq<A>, le: spec_fn(A, A) -> bool) -> bool {
    forall|z: A| #[trigger] ties_of(r, le, z) == ties_of(s, le, z)
}

/// An element put behind a sequence comes last among the elements tied
/// with `z`, if it is tied with `z`, and leaves them as they are if not.
proof fn lemma_ties_of_push<A>(s: Seq<A>, x: A, le: spec_fn(A, A) -> bool, z: A)
    ensures
        ties_of(s.push(x), le, z) == if tied(le, x, z) {
            ties_of(s, le, z).push(x)
        } else {
            ties_of(s, le, z)
        },
{
    s.lemma_filter_push(x, |y: A| tied(le, y, z));
}

/// Ascending sequences of one length that agree on the order of tied
/// elements are the same sequence.
pub proof fn lemma_ascending_with_same_ties<A>(r: Seq<A>, s: Seq<A>, le: spec_fn(A, A) -> bool)
    requires
        total_preorder(le),
        ascending(r, le),
        ascending(s, le),
        r.len() == s.len(),
        same_ties(r, s, le),
    ensures
        r == s,
    decreases r.len(),
{
    if r.len() == 0 {
        assert(r =~= s);
    } else {
        let x = r.last();
        let y = s.last();
        let rt = r.drop_last();
        let st = s.drop_last();
        assert(r =~= rt.push(x));
        assert(s =~= st.push(y));
        assert(le(x, x) && le(y, y));
        // `y` is among the elements of `r` tied with `y`, so it is at most `x`.
        assert(le(y, x)) by {
            lemma_ties_of_push(st, y, le, y);
            assert(ties_of(r, le, y) == ties_of(s, le, y));
            let t = ties_of(s, le, y);
            assert(t.last() == y);
            assert(t.contains(y));
            r.lemma_filter_contains_rev(|v: A| tied(le, v, y), y);
            let i = choose|i: int| 0 <= i < r.len() && r[i] == y;
            if i < r.len() - 1 {
                assert(le(r[i], r[r.len() - 1]));
            }
        }
        // `x` is among the elements of `s` tied with `x`, so it is at most `y`.
        assert(le(x, y)) by {
            lemma_ties_of_push(rt, x, le, x);
            assert(ties_of(r, le, x) == ties_of(s, le, x));
            let t = ties_of(r, le, x);
            assert(t.last() == x);
            assert(t.contains(x));
            s.lemma_filter_contains_rev(|v: A| tied(le, v, x), x);
            let i = choose|i: int| 0 <= i < s.len() && s[i] == x;
            if i < s.len() - 1 {
                assert(le(s[i], s[s.len() - 1]));
            }
        }
        // Both are the last of the elements tied with `x`.
        assert(x == y) by {
            lemma_ties_of_push(rt, x, le, x);
            lemma_ties_of_push(st, y, le, x);
            assert(ties_of(r, le, x) == ties_of(s, le, x));
            assert(ties_of(rt, le, x).push(x).last() == x);
            assert(ties_of(st, le, x).push(y).last() == y);
        }
        assert(ascending(rt, le)) by {
            assert forall|i: int, j: int| 0 <= i < j < rt.len() implies le(
                #[trigger] rt[i],
                #[trigger] rt[j],
            ) by {
                assert(rt[i] == r[i] && rt[j] == r[j]);
            }
        }
        assert(ascending(st, le)) by {
            assert forall|i: int, j: int| 0 <= i < j < st.len() implies le(
                #[trigger] st[i],
                #[trigger] st[j],
            ) by {
                assert(st[i] == s[i] && st[j] == s[j]);
            }
        }
        assert(same_ties(rt, st, le)) by {
            assert forall|z: A| #[trigger] ties_of(rt, le, z) == ties_of(st, le, z) by {
                lemma_ties_of_push(rt, x, le, z);
                lemma_ties_of_push(st, x, le, z);
                assert(ties_of(r, le, z) == ties_of(s, le, z));
                if tied(le, x, z) {
                    let a = ties_of(rt, le, z);
                    let b = ties_of(st, le, z);
                    assert(a.push(x).drop_last() =~= a);
                    assert(b.push(x).drop_last() =~= b);
                }
            }
        }
        lemma_ascending_with_same_ties(rt, st, le);
    }
}

/// A stable sort is the one arrangement that is ascending and keeps tied
/// elements in the order of the input.
pub proof fn lemma_stable_sort_is_the_stable_order<A>(
    s: Seq<A>,
    r: Seq<A>,
    le: spec_fn(A, A) -> bool,
)
    requires
        total_preorder(le),
        ascending(r, le),
        r.len() == s.len(),
        same_ties(r, s, le),
    ensures
        r == stable_sort(s, le),
{
    let sorted = stable_sort(s, le);
    lemma_stable_sort_ascending(s, le);
    lemma_stable_sort_len(s, le);
    assert(same_ties(r, sorted, le)) by {
        assert forall|z: A| #[trigger] ties_of(r, le, z) == ties_of(sorted, le, z) by {
            lemma_stable_sort_keeps_ties(s, le, z);
            assert(ties_of(r, le, z) == ties_of(s, le, z));
        }
    }
    lemma_ascending_with_same_ties(r, sorted, le);
}

} // verus!
