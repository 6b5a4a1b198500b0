//! Insertion sort: the sort for short slices, and for lengthening a run.

use vstd::prelude::*;
use core::cmp::Ordering;
use crate::comparator::{accepts, orders};
use crate::natural::{ord_le, ord_total};
use vstd::std_specs::cmp::OrdSpec;
use crate::order::{lemma_precedes_chains, precedes, sorted, total_preorder};
use crate::rearrange::{
    exchanged, identity, lemma_exchange_rearranged, lemma_in_order, lemma_rearranged_multiset,
    rearranged, stable, swap_at,
};

verus! {

/// While the element that stood at `pos` moves toward the front and has
/// reached `at`: `list` is `a` rearranged by `p`, and only the first `pos + 1`
/// elements have moved, among themselves.
spec fn inserting<T>(a: Seq<T>, list: Seq<T>, p: Seq<int>, pos: usize, at: usize) -> bool {
    &&& rearranged(a, list, p)
    &&& at <= pos < a.len()
    &&& p[at as int] == pos
    &&& forall|i: int| 0 <= i <= pos ==> #[trigger] p[i] <= pos
    &&& forall|i: int| pos < i < a.len() ==> #[trigger] p[i] == i
}

/// While the element that stood at `pos` moves toward the front and has
/// reached `at`: the other elements up to `pos` stand in the order in which
/// they belong, and the moving one belongs before all that stand behind it.
spec fn inserting_ordered<T, I: Integer>(
    a: Seq<T>,
    le: spec_fn(T, T) -> bool,
    p: Seq<int>,
    pos: usize,
    at: I,
) -> bool {
    &&& forall|i: int, j: int|
        0 <= i < j <= pos && i != (at as int) && j != (at as int) ==> precedes(
            a,
            le,
            #[trigger] p[i],
            #[trigger] p[j],
        )
    &&& forall|j: int| (at as int) < j <= pos ==> precedes(a, le, p[at as int], #[trigger] p[j])
}

/// The first `pos` elements stand in the order in which they belong.
spec fn ordered_to<T, I: Integer>(a: Seq<T>, le: spec_fn(T, T) -> bool, p: Seq<int>, pos: I) -> bool {
    forall|i: int, j: int|
        0 <= i < j < (pos as int) ==> precedes(a, le, #[trigger] p[i], #[trigger] p[j])
}

/// The moving element may pass the one before it if that one is greater.
proof fn lemma_pass<T>(
    a: Seq<T>,
    list: Seq<T>,
    le: spec_fn(T, T) -> bool,
    p: Seq<int>,
    pos: usize,
    at: usize,
)
    requires
        total_preorder(le),
        inserting(a, list, p, pos, at),
        inserting_ordered(a, le, p, pos, at),
        at > 0,
        !le(list[at - 1], list[at as int]),
    ensures
        inserting_ordered(a, le, exchanged(p, at - 1, at), pos, at - 1),
{
    let q = exchanged(p, at - 1, at);
    assert forall|i: int, j: int| 0 <= i < j <= pos && i != at - 1 && j != at - 1 implies precedes(
        a,
        le,
        #[trigger] q[i],
        #[trigger] q[j],
    ) by {
        if j == at {
            assert(precedes(a, le, p[i], p[at - 1]));
        } else if i == at {
            assert(precedes(a, le, p[at - 1], p[j]));
        } else {
            assert(precedes(a, le, p[i], p[j]));
        }
    }
    assert forall|j: int| at - 1 < j <= pos implies precedes(a, le, q[at - 1], #[trigger] q[j]) by {
        if j == at {
            assert(list[at - 1] == a[p[at - 1]]);
            assert(list[at as int] == a[p[at as int]]);
        } else {
            assert(precedes(a, le, p[at as int], p[j]));
        }
    }
}

/// The moving element has found its place when it stands at the front, or
/// behind an element that is not greater.
proof fn lemma_placed<T>(
    a: Seq<T>,
    list: Seq<T>,
    le: spec_fn(T, T) -> bool,
    p: Seq<int>,
    pos: usize,
    at: usize,
)
    requires
        total_preorder(le),
        inserting(a, list, p, pos, at),
        inserting_ordered(a, le, p, pos, at),
        at > 0 ==> le(list[at - 1], list[at as int]),
    ensures
        ordered_to(a, le, p, pos + 1),
{
    assert forall|i: int, j: int| 0 <= i < j < pos + 1 implies precedes(
        a,
        le,
        #[trigger] p[i],
        #[trigger] p[j],
    ) by {
        if i == at {
        } else if j == at {
            assert(list[at - 1] == a[p[at - 1]]);
            assert(list[at as int] == a[p[at as int]]);
            assert(p[at - 1] <= pos);
            assert(p[at - 1] != p[at as int]);
            assert(precedes(a, le, p[at - 1], p[at as int]));
            if i < at - 1 {
                assert(precedes(a, le, p[i], p[at - 1]));
                lemma_precedes_chains(a, le, p[i], p[at - 1], p[at as int]);
            }
        } else {
        }
    }
}

/// Sorts `list` by insertion: each element in turn moves toward the front,
/// past every element that is greater. Two elements that compare equal
/// never pass one another.
pub fn sort_by<T, C: Fn(&T, &T) -> Ordering>(list: &mut [T], c: C)
    requires
        accepts(c, old(list)@),
    ensures
        final(list)@.len() == old(list)@.len(),
        final(list)@.to_multiset() == old(list)@.to_multiset(),
        forall|le: spec_fn(T, T) -> bool| #[trigger]
            orders(c, le) ==> sorted(final(list)@, le) && stable(old(list)@, final(list)@, le),
{
    let len = list.len();
    let ghost a = list@;
    let ghost mut p = identity(a.len());
    let mut pos: usize = 1;
    while pos < len
        invariant
            len == a.len(),
            1 <= pos,
            rearranged(a, list@, p),
            forall|i: int| 0 <= i < pos && i < len ==> #[trigger] p[i] < pos,
            forall|i: int| pos <= i < len ==> #[trigger] p[i] == i,
            accepts(c, a),
            forall|le: spec_fn(T, T) -> bool| #[trigger] orders(c, le) ==> ordered_to(a, le, p, pos),
        decreases len - pos,
    {
        let mut pos_sorted: usize = pos;
        loop
            invariant
                len == a.len(),
                inserting(a, list@, p, pos, pos_sorted),
                accepts(c, a),
                forall|le: spec_fn(T, T) -> bool| #[trigger]
                    orders(c, le) ==> inserting_ordered(a, le, p, pos, pos_sorted),
            ensures
                inserting(a, list@, p, pos, pos_sorted),
                forall|le: spec_fn(T, T) -> bool| #[trigger]
                    orders(c, le) ==> ordered_to(a, le, p, pos + 1),
            decreases pos_sorted,
        {
            if pos_sorted == 0 {
                proof {
                    assert forall|le: spec_fn(T, T) -> bool| #[trigger] orders(c, le) implies ordered_to(
                        a,
                        le,
                        p,
                        pos + 1,
                    ) by {
                        lemma_placed(a, list@, le, p, pos, pos_sorted);
                    }
                }
                break ;
            }
            match c(&list[pos_sorted - 1], &list[pos_sorted]) {
                Ordering::Greater => {
                    let ghost list_before = list@;
                    let ghost p_before = p;
                    swap_at(list, pos_sorted - 1, pos_sorted);
                    proof {
                        p = exchanged(p_before, pos_sorted - 1, pos_sorted);
                        lemma_exchange_rearranged(a, list_before, p_before, pos_sorted - 1, pos_sorted);
                        assert forall|le: spec_fn(T, T) -> bool| #[trigger]
                            orders(c, le) implies inserting_ordered(a, le, p, pos, pos_sorted - 1) by {
                            lemma_pass(a, list_before, le, p_before, pos, pos_sorted);
                        }
                    }
                    pos_sorted -= 1;
                },
                _ => {
                    proof {
                        assert forall|le: spec_fn(T, T) -> bool| #[trigger]
                            orders(c, le) implies ordered_to(a, le, p, pos + 1) by {
                            lemma_placed(a, list@, le, p, pos, pos_sorted);
                        }
                    }
                    break ;
                },
            }
        }
        pos += 1;
    }
    proof {
        lemma_rearranged_multiset(a, list@, p);
        assert forall|le: spec_fn(T, T) -> bool| #[trigger] orders(c, le) implies sorted(list@, le)
            && stable(a, list@, le) by {
            lemma_in_order(a, list@, le, p);
        }
    }
}

/// [`sort_by`] with the order that `T` has by `Ord`.
pub fn sort<T: Ord>(list: &mut [T])
    ensures
        final(list)@.len() == old(list)@.len(),
        final(list)@.to_multiset() == old(list)@.to_multiset(),
        ord_total::<T>() ==> sorted(final(list)@, ord_le::<T>()) && stable(
            old(list)@,
            final(list)@,
            ord_le::<T>(),
        ),
{
    let c = |a: &T, b: &T| -> (o: Ordering)
        ensures
            T::obeys_cmp_spec() ==> o == a.cmp_spec(b),
        { a.cmp(b) };
    sort_by(list, c);
    proof {
        if ord_total::<T>() {
            assert(orders(c, ord_le::<T>()));
        }
    }
}

} // verus!
