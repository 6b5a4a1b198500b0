//! Run detection: how far a slice is already in order from its front, and
//! in which direction.

use vstd::prelude::*;
use core::cmp::Ordering;
use crate::comparator::{accepts, decides, orders};
use crate::natural::{ord_le, ord_total};
use vstd::std_specs::cmp::OrdSpec;
use crate::order::{
    ascending_to, descending_to, first_run, lemma_ascending_sorted, lemma_descending_strictly,
    reverse_prefix, sorted, sorted_to, total_preorder,
};
use crate::rearrange::{
    keeps_ties, lemma_rearranged_multiset, lemma_stable_same, rearranged, stable, swap_at,
};

verus! {

/// Finds the first run of `list`: returns whether it descends, and its
/// length.
///
/// A run descends only strictly: two elements that compare equal end a
/// descending run, as they continue an ascending one. So a descending run
/// can be reversed without two equal elements changing places.
pub fn find_run_by<T, C: Fn(&T, &T) -> Ordering>(list: &[T], c: C) -> (r: (bool, usize))
    requires
        accepts(c, list@),
    ensures
        r.1 <= list@.len(),
        list@.len() < 2 ==> !r.0 && r.1 == list@.len(),
        list@.len() >= 2 ==> r.1 >= 2,
        forall|le: spec_fn(T, T) -> bool| #[trigger] decides(c, le) ==> first_run(list@, le, r.0, r.1),
{
    let list_len = list.len();
    if list_len < 2 {
        return (false, list_len);
    }
    let mut pos: usize = 1;
    match c(&list[1], &list[0]) {
        Ordering::Less => {
            loop
                invariant
                    list_len == list@.len(),
                    1 <= pos < list_len,
                    accepts(c, list@),
                    forall|le: spec_fn(T, T) -> bool| #[trigger]
                        decides(c, le) ==> descending_to(list@, le, pos + 1),
                ensures
                    forall|le: spec_fn(T, T) -> bool| #[trigger]
                        decides(c, le) ==> first_run(list@, le, true, pos + 1),
                decreases list_len - pos,
            {
                if pos >= list_len - 1 {
                    break ;
                }
                match c(&list[pos + 1], &list[pos]) {
                    Ordering::Less => {
                        pos += 1;
                    },
                    _ => {
                        break ;
                    },
                }
            }
            (true, pos + 1)
        },
        _ => {
            loop
                invariant
                    list_len == list@.len(),
                    1 <= pos < list_len,
                    accepts(c, list@),
                    forall|le: spec_fn(T, T) -> bool| #[trigger]
                        decides(c, le) ==> ascending_to(list@, le, pos + 1),
                ensures
                    forall|le: spec_fn(T, T) -> bool| #[trigger]
                        decides(c, le) ==> first_run(list@, le, false, pos + 1),
                decreases list_len - pos,
            {
                if pos >= list_len - 1 {
                    break ;
                }
                match c(&list[pos + 1], &list[pos]) {
                    Ordering::Less => {
                        break ;
                    },
                    _ => {
                        pos += 1;
                    },
                }
            }
            (false, pos + 1)
        },
    }
}

/// The arrangement that reverses the first `len` of `n` positions.
spec fn reversal(n: nat, len: int) -> Seq<int> {
    Seq::new(
        n,
        |i: int|
            if i < len {
                len - 1 - i
            } else {
                i
            },
    )
}

/// A sequence with its front reversed holds the elements that it held.
proof fn lemma_reverse_prefix_rearranged<T>(s: Seq<T>, len: usize)
    requires
        0 <= len <= s.len(),
    ensures
        rearranged(s, reverse_prefix(s, len), reversal(s.len(), len as int)),
        reverse_prefix(s, len).to_multiset() == s.to_multiset(),
        reverse_prefix(s, len).len() == s.len(),
{
    let b = reverse_prefix(s, len);
    let p = reversal(s.len(), len as int);
    assert forall|i: int| 0 <= i < b.len() implies #[trigger] b[i] == s[p[i]] by {
        if i < len {
            assert(b[i] == s.subrange(0, len as int).reverse()[i]);
        } else {
            assert(b[i] == s.subrange(len as int, s.len() as int)[i - len]);
        }
    }
    lemma_rearranged_multiset(s, b, p);
}

/// A strictly descending run, reversed, is sorted, and no two elements that
/// rank equal have changed places.
proof fn lemma_reversed_run<T>(s: Seq<T>, le: spec_fn(T, T) -> bool, len: usize)
    requires
        total_preorder(le),
        0 <= len <= s.len(),
        descending_to(s, le, len),
    ensures
        sorted_to(reverse_prefix(s, len), le, len),
        stable(s, reverse_prefix(s, len), le),
{
    let b = reverse_prefix(s, len);
    let p = reversal(s.len(), len as int);
    lemma_reverse_prefix_rearranged(s, len);
    lemma_descending_strictly(s, le, len as int);
    let front = b.subrange(0, len as int);
    assert forall|i: int, j: int| 0 <= i < j < front.len() implies le(
        #[trigger] front[i],
        #[trigger] front[j],
    ) by {
        assert(front[i] == s[p[i]]);
        assert(front[j] == s[p[j]]);
        assert(!le(s[len - 1 - j], s[len - 1 - i]));
    }
    assert forall|i: int, j: int|
        0 <= i < j < p.len() && le(s[#[trigger] p[i]], s[#[trigger] p[j]]) && le(
            s[p[j]],
            s[p[i]],
        ) implies p[i] < p[j] by {
        if j < len {
            assert(!le(s[len - 1 - j], s[len - 1 - i]));
        }
    }
    assert(keeps_ties(s, p, le));
}

/// An ascending run is sorted.
proof fn lemma_kept_run<T>(s: Seq<T>, le: spec_fn(T, T) -> bool, len: usize)
    requires
        total_preorder(le),
        0 <= len <= s.len(),
        ascending_to(s, le, len),
    ensures
        sorted_to(s, le, len),
        stable(s, s, le),
{
    lemma_ascending_sorted(s, le, len as int);
    let p = Seq::new(s.len(), |i: int| i);
    assert(rearranged(s, s, p));
    assert(keeps_ties(s, p, le));
}

/// Where the first run of `s` was found and, if it descends, reversed, the
/// first `upto` elements, which hold the run, have kept the order of
/// elements that rank equal, and what stands behind the run is as it was.
pub proof fn lemma_run_front_stable<T>(
    s: Seq<T>,
    after: Seq<T>,
    le: spec_fn(T, T) -> bool,
    found: usize,
    upto: usize,
)
    requires
        total_preorder(le),
        found <= upto <= s.len(),
        first_run(s, le, false, found) && after == s || first_run(s, le, true, found) && after
            == reverse_prefix(s, found),
    ensures
        after.len() == s.len(),
        forall|k: int| found <= k < s.len() ==> #[trigger] after[k] == s[k],
        stable(s.subrange(0, upto as int), after.subrange(0, upto as int), le),
{
    let front = s.subrange(0, upto as int);
    if first_run(s, le, true, found) && after == reverse_prefix(s, found) {
        lemma_reverse_prefix_rearranged(s, found);
        assert forall|k: int| found <= k < s.len() implies #[trigger] after[k] == s[k] by {
            assert(after[k] == s.subrange(found as int, s.len() as int)[k - found]);
        }
        assert(descending_to(front, le, found)) by {
            assert forall|i: int| 1 <= i < found && i < front.len() implies !le(
                front[i - 1],
                #[trigger] front[i],
            ) by {
                assert(!le(s[i - 1], s[i]));
            }
        }
        lemma_reversed_run(front, le, found);
        assert(reverse_prefix(front, found) =~= after.subrange(0, upto as int)) by {
            assert forall|k: int| 0 <= k < upto implies reverse_prefix(front, found)[k]
                == after[k] by {
                if k < found {
                    assert(reverse_prefix(front, found)[k] == front.subrange(
                        0,
                        found as int,
                    ).reverse()[k]);
                    assert(after[k] == s.subrange(0, found as int).reverse()[k]);
                } else {
                    assert(reverse_prefix(front, found)[k] == front.subrange(
                        found as int,
                        front.len() as int,
                    )[k - found]);
                }
            }
        }
    } else {
        lemma_stable_same(front, le);
    }
}

/// Reverses the order of the first `len` elements of `list`.
fn reverse<T>(list: &mut [T], len: usize)
    requires
        len <= old(list)@.len(),
    ensures
        final(list)@ == reverse_prefix(old(list)@, len),
{
    let mut i: usize = 0;
    let mut j: usize = len;
    while i + 1 < j
        invariant
            i <= j <= len <= list@.len(),
            i + j == len,
            list@.len() == old(list)@.len(),
            forall|k: int| 0 <= k < i ==> #[trigger] list@[k] == old(list)@[len - 1 - k],
            forall|k: int| j <= k < len ==> #[trigger] list@[k] == old(list)@[len - 1 - k],
            forall|k: int| i <= k < j ==> #[trigger] list@[k] == old(list)@[k],
            forall|k: int| len <= k < list@.len() ==> #[trigger] list@[k] == old(list)@[k],
        decreases j - i,
    {
        j -= 1;
        swap_at(list, i, j);
        i += 1;
    }
    proof {
        let b = reverse_prefix(old(list)@, len);
        assert forall|k: int| 0 <= k < list@.len() implies list@[k] == b[k] by {
            if k < len {
                assert(b[k] == old(list)@.subrange(0, len as int).reverse()[k]);
            } else {
                assert(b[k] == old(list)@.subrange(len as int, list@.len() as int)[k - len]);
            }
        }
        assert(list@ =~= b);
    }
}

/// Finds the first run of `list` and, where it descends, reverses it:
/// returns the length of the run, which then stands sorted at the front of
/// `list`.
pub fn get_run_by<T, C: Fn(&T, &T) -> Ordering>(list: &mut [T], c: C) -> (len: usize)
    requires
        accepts(c, old(list)@),
    ensures
        len <= old(list)@.len(),
        old(list)@.len() < 2 ==> len == old(list)@.len(),
        old(list)@.len() >= 2 ==> len >= 2,
        final(list)@ == old(list)@ || final(list)@ == reverse_prefix(old(list)@, len),
        final(list)@.len() == old(list)@.len(),
        final(list)@.to_multiset() == old(list)@.to_multiset(),
        forall|le: spec_fn(T, T) -> bool| #[trigger]
            decides(c, le) ==> {
                ||| first_run(old(list)@, le, false, len) && final(list)@ == old(list)@
                ||| first_run(old(list)@, le, true, len) && final(list)@ == reverse_prefix(
                    old(list)@,
                    len,
                )
            },
        forall|le: spec_fn(T, T) -> bool| #[trigger]
            orders(c, le) ==> sorted_to(final(list)@, le, len) && stable(
                old(list)@,
                final(list)@,
                le,
            ),
{
    let (ord, len) = find_run_by(list, &c);
    if ord {
        reverse(list, len);
    }
    proof {
        lemma_reverse_prefix_rearranged(old(list)@, len);
        assert forall|le: spec_fn(T, T) -> bool| #[trigger] decides(c, le) implies ({
            ||| first_run(old(list)@, le, false, len) && list@ == old(list)@
            ||| first_run(old(list)@, le, true, len) && list@ == reverse_prefix(old(list)@, len)
        }) by {
            assert(decides(&c, le));
        }
        assert forall|le: spec_fn(T, T) -> bool| #[trigger] orders(c, le) implies sorted_to(
            list@,
            le,
            len,
        ) && stable(old(list)@, list@, le) by {
            assert(decides(&c, le));
            if ord {
                lemma_reversed_run(old(list)@, le, len);
            } else {
                lemma_kept_run(old(list)@, le, len);
            }
        }
    }
    len
}

/// [`find_run_by`] with the order that `T` has by `Ord`.
pub fn find_run<T: Ord>(list: &[T]) -> (r: (bool, usize))
    ensures
        r.1 <= list@.len(),
        list@.len() < 2 ==> !r.0 && r.1 == list@.len(),
        list@.len() >= 2 ==> r.1 >= 2,
        ord_total::<T>() ==> first_run(list@, ord_le::<T>(), r.0, r.1),
{
    let c = |a: &T, b: &T| -> (o: Ordering)
        ensures
            T::obeys_cmp_spec() ==> o == a.cmp_spec(b),
        { a.cmp(b) };
    let r = find_run_by(list, c);
    proof {
        if ord_total::<T>() {
            assert(orders(c, ord_le::<T>()));
        }
    }
    r
}

/// [`get_run_by`] with the order that `T` has by `Ord`.
pub fn get_run<T: Ord>(list: &mut [T]) -> (len: usize)
    ensures
        len <= old(list)@.len(),
        old(list)@.len() < 2 ==> len == old(list)@.len(),
        old(list)@.len() >= 2 ==> len >= 2,
        final(list)@ == old(list)@ || final(list)@ == reverse_prefix(old(list)@, len),
        final(list)@.len() == old(list)@.len(),
        final(list)@.to_multiset() == old(list)@.to_multiset(),
        ord_total::<T>() ==> {
            ||| first_run(old(list)@, ord_le::<T>(), false, len) && final(list)@ == old(list)@
            ||| first_run(old(list)@, ord_le::<T>(), true, len) && final(list)@ == reverse_prefix(
                old(list)@,
                len,
            )
        },
        ord_total::<T>() ==> sorted_to(final(list)@, ord_le::<T>(), len) && stable(
            old(list)@,
            final(list)@,
            ord_le::<T>(),
        ),
{
    let c = |a: &T, b: &T| -> (o: Ordering)
        ensures
            T::obeys_cmp_spec() ==> o == a.cmp_spec(b),
        { a.cmp(b) };
    let len = get_run_by(list, c);
    proof {
        if ord_total::<T>() {
            assert(orders(c, ord_le::<T>()));
        }
    }
    len
}

} // verus!
