//! How a comparator, a function from two elements to an `Ordering`, relates
//! to an order on the elements.

use vstd::prelude::*;
use core::cmp::Ordering;
use crate::order::total_preorder;

verus! {

/// The comparator may be called on every two elements of `s`.
pub open spec fn accepts<T, C: Fn(&T, &T) -> Ordering>(c: C, s: Seq<T>) -> bool {
    forall|i: int, j: int|
        0 <= i < s.len() && 0 <= j < s.len() ==> call_requires(
            c,
            (&#[trigger] s[i], &#[trigger] s[j]),
        )
}

/// The comparator may be called on every element of `s` with `key`.
pub open spec fn accepts_with<T, C: Fn(&T, &T) -> Ordering>(c: C, s: Seq<T>, key: T) -> bool {
    forall|i: int| 0 <= i < s.len() ==> call_requires(c, (&#[trigger] s[i], &key))
}

/// A comparator that may be called on the elements of a sequence may be
/// called on the elements of every sequence that holds no others.
pub proof fn lemma_accepts_same<T, C: Fn(&T, &T) -> Ordering>(c: C, a: Seq<T>, b: Seq<T>)
    requires
        accepts(c, a),
        forall|i: int| 0 <= i < b.len() ==> a.contains(#[trigger] b[i]),
    ensures
        accepts(c, b),
{
    assert forall|i: int, j: int| 0 <= i < b.len() && 0 <= j < b.len() implies call_requires(
        c,
        (&#[trigger] b[i], &#[trigger] b[j]),
    ) by {
        assert(a.contains(b[i]));
        assert(a.contains(b[j]));
        let x = choose|x: int| 0 <= x < a.len() && a[x] == b[i];
        let y = choose|y: int| 0 <= y < a.len() && a[y] == b[j];
        assert(call_requires(c, (&a[x], &a[y])));
    }
}

/// A comparator that may be called on the elements of a sequence may be
/// called on them in whatever order they stand.
pub proof fn lemma_accepts_rearranged<T, C: Fn(&T, &T) -> Ordering>(c: C, a: Seq<T>, b: Seq<T>)
    requires
        accepts(c, a),
        a.to_multiset() == b.to_multiset(),
    ensures
        accepts(c, b),
{
    broadcast use vstd::seq_lib::group_to_multiset_ensures;

    assert forall|i: int| 0 <= i < b.len() implies a.contains(#[trigger] b[i]) by {
        assert(b.contains(b[i]));
        assert(b.to_multiset().count(b[i]) > 0);
    }
    lemma_accepts_same(c, a, b);
}

/// The comparator decides `le`: whatever it answers for `a` and `b` is
/// `Greater` exactly when `a` is not `le` `b`, and `Less` exactly when `b`
/// is not `le` `a`.
pub open spec fn decides<T, C: Fn(&T, &T) -> Ordering>(c: C, le: spec_fn(T, T) -> bool) -> bool {
    forall|a: T, b: T, o: Ordering| #[trigger]
        call_ensures(c, (&a, &b), o) ==> {
            &&& (o == Ordering::Greater <==> !le(a, b))
            &&& (o == Ordering::Less <==> !le(b, a))
        }
}

/// The comparator decides `le`, and `le` is a total preorder.
pub open spec fn orders<T, C: Fn(&T, &T) -> Ordering>(c: C, le: spec_fn(T, T) -> bool) -> bool {
    &&& total_preorder(le)
    &&& decides(c, le)
}

} // verus!
