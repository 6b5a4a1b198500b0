//! Orders on values and what it means for a sequence to follow one.

use vstd::prelude::*;

verus! {

/// `le` relates every two values in at least one direction, and chains.
pub open spec fn total_preorder<T>(le: spec_fn(T, T) -> bool) -> bool {
    &&& forall|a: T, b: T| #[trigger] le(a, b) || le(b, a)
    &&& forall|a: T, b: T, d: T| #[trigger] le(a, b) && #[trigger] le(b, d) ==> le(a, d)
}

/// No element of `s` is followed, anywhere later, by one that is strictly
/// smaller.
pub open spec fn sorted<T>(s: Seq<T>, le: spec_fn(T, T) -> bool) -> bool {
    forall|i: int, j: int| 0 <= i < j < s.len() ==> le(#[trigger] s[i], #[trigger] s[j])
}

/// Each of the first `n` elements of `s` is strictly smaller than `key`.
pub open spec fn below<T, I: Integer>(s: Seq<T>, key: T, le: spec_fn(T, T) -> bool, n: I) -> bool {
    forall|i: int| 0 <= i < (n as int) && i < s.len() ==> !le(key, #[trigger] s[i])
}

/// None of the first `n` elements of `s` is greater than `key`.
pub open spec fn not_above<T, I: Integer>(s: Seq<T>, key: T, le: spec_fn(T, T) -> bool, n: I) -> bool {
    forall|i: int| 0 <= i < (n as int) && i < s.len() ==> le(#[trigger] s[i], key)
}

/// Each element of `s` from position `n` on is strictly greater than `key`.
pub open spec fn above_from<T, I: Integer>(s: Seq<T>, key: T, le: spec_fn(T, T) -> bool, n: I) -> bool {
    forall|i: int| (n as int) <= i < s.len() ==> !le(#[trigger] s[i], key)
}

/// No element of `s` from position `n` on is smaller than `key`.
pub open spec fn not_below_from<T, I: Integer>(s: Seq<T>, key: T, le: spec_fn(T, T) -> bool, n: I) -> bool {
    forall|i: int| (n as int) <= i < s.len() ==> le(key, #[trigger] s[i])
}

/// `r` is where `key` goes in the sorted `s` to stand before every element
/// equal to it: the first position whose element is not smaller than `key`.
pub open spec fn left_point<T, I: Integer>(s: Seq<T>, key: T, le: spec_fn(T, T) -> bool, r: I) -> bool {
    &&& 0 <= (r as int) <= s.len()
    &&& below(s, key, le, r)
    &&& not_below_from(s, key, le, r)
}

/// `r` is where `key` goes in the sorted `s` to stand behind every element
/// equal to it: the first position whose element is greater than `key`.
pub open spec fn right_point<T, I: Integer>(s: Seq<T>, key: T, le: spec_fn(T, T) -> bool, r: I) -> bool {
    &&& 0 <= (r as int) <= s.len()
    &&& not_above(s, key, le, r)
    &&& above_from(s, key, le, r)
}

/// Both insertion points of `key` lie in `base ..= base + lim`: what stands
/// before `base` is smaller than `key`, what stands from `base + lim` on is
/// greater.
pub open spec fn brackets<T, I: Integer>(
    s: Seq<T>,
    key: T,
    le: spec_fn(T, T) -> bool,
    base: I,
    lim: I,
) -> bool {
    &&& 0 <= base as int
    &&& 0 <= lim as int
    &&& base as int + lim as int <= s.len()
    &&& below(s, key, le, base)
    &&& above_from(s, key, le, base as int + lim as int)
}

/// In a sorted sequence, everything up to an element smaller than `key` is
/// smaller than `key`.
pub proof fn lemma_below_through<T, I: Integer>(s: Seq<T>, key: T, le: spec_fn(T, T) -> bool, ix: I)
    requires
        total_preorder(le),
        sorted(s, le),
        0 <= (ix as int) < s.len(),
        !le(key, s[ix as int]),
    ensures
        below(s, key, le, ix as int + 1),
{
    assert forall|i: int| 0 <= i < (ix as int) + 1 && i < s.len() implies !le(key, #[trigger] s[i]) by {
        if i < (ix as int) {
            assert(le(s[i], s[ix as int]));
        }
    }
}

/// In a sorted sequence, everything up to an element not greater than `key`
/// is not greater than `key`.
pub proof fn lemma_not_above_through<T, I: Integer>(s: Seq<T>, key: T, le: spec_fn(T, T) -> bool, ix: I)
    requires
        total_preorder(le),
        sorted(s, le),
        0 <= (ix as int) < s.len(),
        le(s[ix as int], key),
    ensures
        not_above(s, key, le, ix as int + 1),
{
    assert forall|i: int| 0 <= i < (ix as int) + 1 && i < s.len() implies le(#[trigger] s[i], key) by {
        if i < (ix as int) {
            assert(le(s[i], s[ix as int]));
        }
    }
}

/// In a sorted sequence, everything from an element greater than `key` on is
/// greater than `key`.
pub proof fn lemma_above_from<T, I: Integer>(s: Seq<T>, key: T, le: spec_fn(T, T) -> bool, ix: I)
    requires
        total_preorder(le),
        sorted(s, le),
        0 <= (ix as int) < s.len(),
        !le(s[ix as int], key),
    ensures
        above_from(s, key, le, ix),
{
    assert forall|i: int| (ix as int) <= i < s.len() implies !le(#[trigger] s[i], key) by {
        if (ix as int) < i {
            assert(le(s[ix as int], s[i]));
        }
    }
}

/// In a sorted sequence, nothing from an element not smaller than `key` on is
/// smaller than `key`.
pub proof fn lemma_not_below_from<T, I: Integer>(s: Seq<T>, key: T, le: spec_fn(T, T) -> bool, ix: I)
    requires
        total_preorder(le),
        sorted(s, le),
        0 <= (ix as int) < s.len(),
        le(key, s[ix as int]),
    ensures
        not_below_from(s, key, le, ix),
{
    assert forall|i: int| (ix as int) <= i < s.len() implies le(key, #[trigger] s[i]) by {
        if (ix as int) < i {
            assert(le(s[ix as int], s[i]));
        }
    }
}

/// The first `len` elements of `s` are sorted.
pub open spec fn sorted_to<T, I: Integer>(s: Seq<T>, le: spec_fn(T, T) -> bool, len: I) -> bool {
    sorted(s.subrange(0, len as int), le)
}

/// The `count` elements of `s` from `from` on.
pub open spec fn part<T, I: Integer, J: Integer>(s: Seq<T>, from: I, count: J) -> Seq<T> {
    s.subrange(from as int, from as int + count as int)
}

/// `s` is two sorted runs side by side: its first `first_len` elements, and
/// the rest.
pub open spec fn two_runs<T, I: Integer>(s: Seq<T>, first_len: I, le: spec_fn(T, T) -> bool) -> bool {
    &&& 0 <= (first_len as int) <= s.len()
    &&& sorted(s.subrange(0, first_len as int), le)
    &&& sorted(s.subrange(first_len as int, s.len() as int), le)
}

/// In `a`, the element at `i` belongs before the one at `j`: it is smaller,
/// or `le` ranks the two equal and it stands earlier.
pub open spec fn precedes<T>(a: Seq<T>, le: spec_fn(T, T) -> bool, i: int, j: int) -> bool {
    le(a[i], a[j]) && (le(a[j], a[i]) ==> i < j)
}

/// Belonging before chains.
pub proof fn lemma_precedes_chains<T>(a: Seq<T>, le: spec_fn(T, T) -> bool, i: int, j: int, k: int)
    requires
        total_preorder(le),
        precedes(a, le, i, j),
        precedes(a, le, j, k),
    ensures
        precedes(a, le, i, k),
{
}

/// Within a sorted run, the earlier element belongs before the later.
pub proof fn lemma_precedes_in_run<T>(
    a: Seq<T>,
    le: spec_fn(T, T) -> bool,
    lo: int,
    hi: int,
    i: int,
    j: int,
)
    requires
        0 <= lo <= i < j < hi <= a.len(),
        sorted(a.subrange(lo, hi), le),
    ensures
        precedes(a, le, i, j),
        le(a[i], a[j]),
{
    let r = a.subrange(lo, hi);
    assert(le(r[i - lo], r[j - lo]));
}

/// Each of the first `k` elements of `s` but the first is strictly smaller
/// than the one before it.
pub open spec fn descending_to<T, I: Integer>(s: Seq<T>, le: spec_fn(T, T) -> bool, k: I) -> bool {
    forall|i: int| 1 <= i < (k as int) && i < s.len() ==> !le(s[i - 1], #[trigger] s[i])
}

/// None of the first `k` elements of `s` is smaller than the one before it.
pub open spec fn ascending_to<T, I: Integer>(s: Seq<T>, le: spec_fn(T, T) -> bool, k: I) -> bool {
    forall|i: int| 1 <= i < (k as int) && i < s.len() ==> le(s[i - 1], #[trigger] s[i])
}

/// The first `len` elements of `s` are its first run, strictly descending
/// if `descending` and ascending if not: they keep that direction, and the
/// element that follows them, if there is one, breaks it. A sequence of less
/// than two elements is one ascending run.
pub open spec fn first_run<T, I: Integer>(
    s: Seq<T>,
    le: spec_fn(T, T) -> bool,
    descending: bool,
    len: I,
) -> bool {
    let k = len as int;
    if s.len() < 2 {
        !descending && k == s.len()
    } else {
        &&& 2 <= k <= s.len()
        &&& descending ==> descending_to(s, le, k) && (k < s.len() ==> le(s[k - 1], s[k]))
        &&& !descending ==> ascending_to(s, le, k) && (k < s.len() ==> !le(s[k - 1], s[k]))
    }
}

/// `s` with its first `len` elements in reverse order.
pub open spec fn reverse_prefix<T, I: Integer>(s: Seq<T>, len: I) -> Seq<T> {
    s.subrange(0, len as int).reverse() + s.subrange(len as int, s.len() as int)
}

/// Elements of which none is smaller than the one before it are sorted.
pub proof fn lemma_ascending_sorted<T>(s: Seq<T>, le: spec_fn(T, T) -> bool, k: int)
    requires
        total_preorder(le),
        0 <= k <= s.len(),
        ascending_to(s, le, k),
    ensures
        sorted(s.subrange(0, k), le),
    decreases k,
{
    if k >= 2 {
        lemma_ascending_sorted(s, le, k - 1);
        let r = s.subrange(0, k);
        let q = s.subrange(0, k - 1);
        assert forall|i: int, j: int| 0 <= i < j < r.len() implies le(
            #[trigger] r[i],
            #[trigger] r[j],
        ) by {
            if j < k - 1 {
                assert(le(q[i], q[j]));
            } else {
                assert(le(s[k - 2], s[k - 1]));
                if i < k - 2 {
                    assert(le(q[i], q[k - 2]));
                }
            }
        }
    }
}

/// Of elements of which each is strictly smaller than the one before it,
/// every later one is strictly smaller than every earlier one.
pub proof fn lemma_descending_strictly<T>(s: Seq<T>, le: spec_fn(T, T) -> bool, k: int)
    requires
        total_preorder(le),
        0 <= k <= s.len(),
        descending_to(s, le, k),
    ensures
        forall|i: int, j: int| 0 <= i < j < k ==> !le(#[trigger] s[i], #[trigger] s[j]),
    decreases k,
{
    if k >= 2 {
        lemma_descending_strictly(s, le, k - 1);
        assert forall|i: int, j: int| 0 <= i < j < k implies !le(
            #[trigger] s[i],
            #[trigger] s[j],
        ) by {
            if j == k - 1 {
                assert(!le(s[k - 2], s[k - 1]));
                if i < k - 2 {
                    assert(!le(s[i], s[k - 2]));
                    assert(le(s[k - 1], s[k - 2]));
                    assert(le(s[k - 2], s[i]));
                }
            }
        }
    }
}

/// The first run of a sorted sequence is the whole of it, ascending.
pub proof fn lemma_sorted_one_run<T>(s: Seq<T>, le: spec_fn(T, T) -> bool, descending: bool, len: int)
    requires
        total_preorder(le),
        sorted(s, le),
        first_run(s, le, descending, len),
    ensures
        !descending,
        len == s.len(),
{
    if s.len() >= 2 {
        assert(le(s[0], s[1]));
        if len < s.len() {
            assert(le(s[len - 1], s[len]));
        }
    }
}

} // verus!
