//! The sort: finds the runs of the slice one after another, lengthens the
//! short ones, and merges the runs found as the balance of their lengths
//! asks for.

use vstd::prelude::*;
use core::cmp::Ordering;
use crate::comparator::{accepts, lemma_accepts_rearranged, orders};
use crate::natural::{ord_le, ord_total};
use vstd::std_specs::cmp::OrdSpec;
use crate::find_run::{get_run_by, lemma_run_front_stable};
use crate::insort;
use crate::merge::merge_by;
use crate::order::{
    first_run, lemma_sorted_one_run, part, reverse_prefix, sorted, sorted_to, total_preorder, two_runs,
};
use crate::rearrange::{
    lemma_sorted_stable_same, lemma_stable_chain, lemma_stable_glue, lemma_stable_same, stable,
};
use vstd::arithmetic::div_mod::{lemma_fundamental_div_mod, lemma_fundamental_div_mod_converse};
use vstd::arithmetic::power2::{lemma2_to64, lemma_pow2_pos, lemma_pow2_unfold, pow2};
use vstd::seq_lib::lemma_multiset_commutative;

verus! {

/// A slice shorter than this is sorted by insertion alone. A longer one is
/// cut into runs of at least about half this length, which are merged.
pub const MIN_MERGE: usize = 64;

/// `len` halved until it is below `MIN_MERGE`, and one more if `carry` is set
/// or any of the halvings left a remainder.
pub open spec fn halved(len: nat, carry: nat) -> nat
    decreases len,
{
    if len < 64 {
        len + carry
    } else {
        halved(
            len / 2,
            if len % 2 == 1 {
                1
            } else {
                carry
            },
        )
    }
}

/// The least length that a run of a slice of `len` elements is brought to
/// before it is merged: `len` itself below `MIN_MERGE`; else `len` divided
/// by the power of two that brings it below `MIN_MERGE`, rounded up.
pub open spec fn min_run_length(len: nat) -> nat {
    halved(len, 0)
}

/// From half of `MIN_MERGE` on, halving ends between half of `MIN_MERGE` and
/// `MIN_MERGE`.
pub proof fn lemma_halved_bounds(len: nat, carry: nat)
    requires
        32 <= len,
        carry <= 1,
    ensures
        32 <= halved(len, carry) <= 64,
    decreases len,
{
    if len >= 64 {
        lemma_halved_bounds(
            len / 2,
            if len % 2 == 1 {
                1
            } else {
                carry
            },
        );
    }
}

/// What dividing by `d` and then by 2 gives, and what it leaves over.
proof fn lemma_halve(len: int, d: int)
    requires
        0 <= len,
        0 < d,
    ensures
        (len / d) / 2 == len / (2 * d),
        len % (2 * d) != 0 <==> (len / d) % 2 == 1 || len % d != 0,
        (len + d - 1) / d == len / d + (if len % d != 0 {
            1int
        } else {
            0int
        }),
        len / (2 * d) <= len / d,
{
    let q = len / d;
    let r = len % d;
    lemma_fundamental_div_mod(len, d);
    lemma_fundamental_div_mod(q, 2);
    let h = q / 2;
    let b = q % 2;
    assert(len == (2 * d) * h + (d * b + r)) by (nonlinear_arith)
        requires
            len == d * q + r,
            q == 2 * h + b,
    ;
    assert(0 <= d * b + r < 2 * d) by (nonlinear_arith)
        requires
            0 <= r < d,
            0 <= b < 2,
    ;
    lemma_fundamental_div_mod_converse(len, 2 * d, h, d * b + r);
    assert(d * b + r != 0 <==> b == 1 || r != 0) by (nonlinear_arith)
        requires
            0 <= r < d,
            0 <= b < 2,
    ;
    if r != 0 {
        assert(len + d - 1 == d * (q + 1) + (r - 1)) by (nonlinear_arith)
            requires
                len == d * q + r,
        ;
        lemma_fundamental_div_mod_converse(len + d - 1, d, q + 1, r - 1);
    } else {
        assert(len + d - 1 == d * q + (d - 1)) by (nonlinear_arith)
            requires
                len == d * q + r,
                r == 0,
        ;
        lemma_fundamental_div_mod_converse(len + d - 1, d, q, d - 1);
    }
}

/// Whether dividing `len` by two `k` times leaves something over.
pub open spec fn carried(len: nat, k: nat) -> nat {
    if len % pow2(k) != 0 {
        1
    } else {
        0
    }
}

/// Halving from `len` divided by two `j` times ends at `len` divided by two
/// `k` times, where that is the first to be below `MIN_MERGE`.
proof fn lemma_halved_from(len: nat, j: nat, k: nat)
    requires
        j <= k,
        len / pow2(k) < 64,
        forall|i: nat| i < k ==> len / #[trigger] pow2(i) >= 64,
    ensures
        halved(len / pow2(j), carried(len, j)) == len / pow2(k) + carried(len, k),
    decreases k - j,
{
    lemma_pow2_pos(j);
    if j < k {
        assert(len / pow2(j) >= 64);
        lemma_pow2_unfold(j + 1);
        lemma_halve(len as int, pow2(j) as int);
        lemma_halved_from(len, j + 1, k);
    } else {
    }
}

/// The least run length of a slice of `MIN_MERGE` elements or more is its
/// length divided by the least power of two that brings it below
/// `MIN_MERGE`, rounded up.
pub proof fn lemma_min_run_rounds_up(len: nat, k: nat)
    requires
        1 <= k,
        len / pow2(k) < 64,
        len / pow2((k - 1) as nat) >= 64,
    ensures
        min_run_length(len) == (len + pow2(k) - 1) / (pow2(k) as int),
{
    lemma_pow2_pos(k);
    lemma2_to64();
    assert forall|i: nat| i < k implies len / #[trigger] pow2(i) >= 64 by {
        lemma_halves_ordered(len, i, (k - 1) as nat);
    }
    assert(len / pow2(0) == len);
    assert(carried(len, 0) == 0);
    lemma_halved_from(len, 0, k);
    lemma_halve(len as int, pow2(k) as int);
}

/// Dividing by two more often gives no more.
proof fn lemma_halves_ordered(len: nat, i: nat, j: nat)
    requires
        i <= j,
    ensures
        len / pow2(j) <= len / pow2(i),
    decreases j - i,
{
    lemma_pow2_pos(i);
    if i < j {
        lemma_pow2_unfold(i + 1);
        lemma_halve(len as int, pow2(i) as int);
        lemma_halves_ordered(len, i + 1, j);
    }
}

/// Computes the least length that the runs of a slice of `len` elements are
/// brought to: a number such that `len` divided by it is a power of two or
/// a little less, so that the merges stay balanced.
pub fn calc_min_merge(len: usize) -> (r: usize)
    ensures
        r == min_run_length(len as nat),
        len < MIN_MERGE ==> r == len,
        len >= MIN_MERGE ==> MIN_MERGE / 2 <= r <= MIN_MERGE,
{
    let mut len = len;
    if len < MIN_MERGE {
        len
    } else {
        let ghost whole = len;
        let mut r: usize = 0;
        proof {
            lemma_halved_bounds(whole as nat, 0);
        }
        while len >= MIN_MERGE
            invariant
                r <= 1,
                32 <= len,
                halved(len as nat, r as nat) == min_run_length(whole as nat),
            decreases len,
        {
            assert(r <= 1 ==> (r | (len & 1)) == (if len % 2 == 1 {
                1usize
            } else {
                r
            })) by (bit_vector);
            assert(len >> 1 == len / 2) by (bit_vector);
            r |= len & 1;
            len >>= 1;
        }
        len + r
    }
}

/// A part of the slice that is known to be sorted.
#[derive(Copy, Clone, Debug)]
struct Run {
    /// Where the run begins.
    pos: usize,
    /// How many elements it holds.
    len: usize,
}

/// The runs found so far and not yet merged into one, first found first, and
/// how far the slice has been read.
struct SortState {
    runs: Vec<Run>,
    /// Where the next run begins: all before it belongs to the runs.
    pos: usize,
    /// The least length that a run is brought to.
    min_run: usize,
}

/// The run at `i` ends where the next begins.
spec fn adjoins(runs: Seq<Run>, i: int) -> bool {
    runs[i].pos + runs[i].len == runs[i + 1].pos
}

/// The runs are not empty and lie side by side, the first at the front of
/// the slice, the last ending at `pos`.
spec fn tiled(runs: Seq<Run>, pos: int) -> bool {
    &&& runs.len() == 0 ==> pos == 0
    &&& runs.len() > 0 ==> runs[0].pos == 0 && runs.last().pos + runs.last().len == pos
    &&& forall|i: int| 0 <= i < runs.len() ==> (#[trigger] runs[i]).len >= 1
    &&& forall|i: int| 0 <= i < runs.len() - 1 ==> #[trigger] adjoins(runs, i)
}

/// Each of the runs is sorted in `list`, and holds what it held in `a`,
/// elements that rank equal in the order that they had there.
spec fn each_settled<T>(
    runs: Seq<Run>,
    a: Seq<T>,
    list: Seq<T>,
    le: spec_fn(T, T) -> bool,
) -> bool {
    forall|i: int|
        0 <= i < runs.len() ==> sorted(
            list.subrange((#[trigger] runs[i]).pos as int, runs[i].pos + runs[i].len),
            le,
        ) && stable(
            a.subrange(runs[i].pos as int, runs[i].pos + runs[i].len),
            list.subrange(runs[i].pos as int, runs[i].pos + runs[i].len),
            le,
        )
}

/// The run at `i` is longer than the next.
spec fn outweighs(runs: Seq<Run>, i: int) -> bool {
    runs[i].len > runs[i + 1].len
}

/// The run at `i` is longer than the next two together.
spec fn outweighs_two(runs: Seq<Run>, i: int) -> bool {
    runs[i].len > runs[i + 1].len + runs[i + 2].len
}

/// The first `m` of the runs are balanced: each is longer than the next,
/// and longer than the next two together.
spec fn balanced_to(runs: Seq<Run>, m: int) -> bool {
    &&& forall|i: int| 0 <= i && i + 2 < m && i + 2 < runs.len() ==> #[trigger] outweighs_two(runs, i)
    &&& forall|i: int| 0 <= i && i + 1 < m && i + 1 < runs.len() ==> #[trigger] outweighs(runs, i)
}

/// `runs` with the runs at `i` and behind it made one.
spec fn joined(runs: Seq<Run>, i: int) -> Seq<Run> {
    runs.remove(i + 1).update(i, Run { pos: runs[i].pos, len: (runs[i].len + runs[i + 1].len) as usize })
}

/// Where two runs that lie side by side were merged, the runs are settled
/// as before, and the two are one settled run.
proof fn lemma_joined_settled<T>(
    runs: Seq<Run>,
    pos: int,
    i: int,
    a: Seq<T>,
    list: Seq<T>,
    after: Seq<T>,
    le: spec_fn(T, T) -> bool,
)
    requires
        tiled(runs, pos),
        pos <= list.len(),
        a.len() == list.len(),
        0 <= i,
        i + 1 < runs.len(),
        each_settled(runs, a, list, le),
        runs[i].len + runs[i + 1].len <= usize::MAX,
        after.len() == list.len(),
        forall|k: int|
            0 <= k < runs[i].pos || runs[i + 1].pos + runs[i + 1].len <= k < list.len()
                ==> #[trigger] after[k] == list[k],
        sorted(after.subrange(runs[i].pos as int, runs[i + 1].pos + runs[i + 1].len), le),
        stable(
            list.subrange(runs[i].pos as int, runs[i + 1].pos + runs[i + 1].len),
            after.subrange(runs[i].pos as int, runs[i + 1].pos + runs[i + 1].len),
            le,
        ),
    ensures
        each_settled(joined(runs, i), a, after, le),
{
    let next = joined(runs, i);
    lemma_tiled_ascends(runs, pos);
    assert(adjoins(runs, i));
    assert forall|j: int| 0 <= j < next.len() implies sorted(
        after.subrange((#[trigger] next[j]).pos as int, next[j].pos + next[j].len),
        le,
    ) && stable(
        a.subrange(next[j].pos as int, next[j].pos + next[j].len),
        after.subrange(next[j].pos as int, next[j].pos + next[j].len),
        le,
    ) by {
        if j < i {
            assert(next[j] == runs[j]);
            lemma_tiled_order(runs, pos, j, i);
            assert(after.subrange(runs[j].pos as int, runs[j].pos + runs[j].len) =~= list.subrange(
                runs[j].pos as int,
                runs[j].pos + runs[j].len,
            ));
        } else if j > i {
            assert(next[j] == runs[j + 1]);
            lemma_tiled_order(runs, pos, i + 1, j + 1);
            assert(after.subrange(runs[j + 1].pos as int, runs[j + 1].pos + runs[j + 1].len)
                =~= list.subrange(runs[j + 1].pos as int, runs[j + 1].pos + runs[j + 1].len));
        } else {
            let from = runs[i].pos as int;
            let mid = runs[i + 1].pos as int;
            let to = mid + runs[i + 1].len;
            assert(runs[i + 1].pos + runs[i + 1].len <= pos);
            assert(list.subrange(from, mid) + list.subrange(mid, to) =~= list.subrange(from, to));
            assert(a.subrange(from, mid) + a.subrange(mid, to) =~= a.subrange(from, to));
            lemma_stable_glue(
                a.subrange(from, mid),
                list.subrange(from, mid),
                a.subrange(mid, to),
                list.subrange(mid, to),
                after.subrange(from, to),
                le,
            );
        }
    }
}

/// Runs that lie side by side end within the part of the slice that was
/// read.
proof fn lemma_tiled_ascends(runs: Seq<Run>, pos: int)
    requires
        tiled(runs, pos),
    ensures
        forall|i: int| 0 <= i < runs.len() ==> (#[trigger] runs[i]).pos + runs[i].len <= pos,
    decreases runs.len(),
{
    if runs.len() > 1 {
        let front = runs.drop_last();
        assert(adjoins(runs, runs.len() - 2));
        assert(tiled(front, runs.last().pos as int)) by {
            assert(front.last() == runs[runs.len() - 2]);
            assert forall|i: int| 0 <= i < front.len() implies (#[trigger] front[i]).len >= 1 by {
                assert(front[i] == runs[i]);
            }
            assert forall|i: int| 0 <= i < front.len() - 1 implies #[trigger] adjoins(front, i) by {
                assert(adjoins(runs, i));
                assert(front[i] == runs[i]);
                assert(front[i + 1] == runs[i + 1]);
            }
        }
        lemma_tiled_ascends(front, runs.last().pos as int);
        assert forall|i: int| 0 <= i < runs.len() implies (#[trigger] runs[i]).pos + runs[i].len
            <= pos by {
            if i < runs.len() - 1 {
                assert(front[i] == runs[i]);
            }
        }
    }
}

/// Of runs that lie side by side, an earlier one ends where a later one
/// begins, or before.
proof fn lemma_tiled_order(runs: Seq<Run>, pos: int, i: int, j: int)
    requires
        tiled(runs, pos),
        0 <= i < j < runs.len(),
    ensures
        runs[i].pos + runs[i].len <= runs[j].pos,
    decreases j - i,
{
    assert(adjoins(runs, i));
    if i + 1 < j {
        lemma_tiled_order(runs, pos, i + 1, j);
        assert(runs[i + 1].len >= 1);
    }
}

/// Joining two runs that lie side by side leaves the runs side by side.
proof fn lemma_joined_tiled(runs: Seq<Run>, pos: int, i: int)
    requires
        tiled(runs, pos),
        0 <= i,
        i + 1 < runs.len(),
        pos <= usize::MAX,
    ensures
        tiled(joined(runs, i), pos),
        runs[i].len + runs[i + 1].len <= pos,
        runs[i].pos + runs[i].len == runs[i + 1].pos,
        runs[i + 1].pos + runs[i + 1].len <= pos,
{
    let next = joined(runs, i);
    lemma_tiled_ascends(runs, pos);
    assert(adjoins(runs, i));
    assert(runs[i + 1].pos + runs[i + 1].len <= pos);
    assert forall|k: int| 0 <= k < next.len() implies (#[trigger] next[k]).len >= 1 by {
        if k < i {
            assert(next[k] == runs[k]);
        } else if k > i {
            assert(next[k] == runs[k + 1]);
        } else {
            assert(runs[i].len >= 1);
        }
    }
    assert forall|k: int| 0 <= k < next.len() - 1 implies #[trigger] adjoins(next, k) by {
        if k + 1 < i {
            assert(adjoins(runs, k));
            assert(next[k] == runs[k]);
            assert(next[k + 1] == runs[k + 1]);
        } else if k + 1 == i {
            assert(adjoins(runs, k));
            assert(next[k] == runs[k]);
        } else if k == i {
            assert(adjoins(runs, i + 1));
            assert(next[k + 1] == runs[k + 2]);
        } else {
            assert(adjoins(runs, k + 1));
            assert(next[k] == runs[k + 1]);
            assert(next[k + 1] == runs[k + 2]);
        }
    }
    if i + 1 == runs.len() - 1 {
        assert(next.last() == next[i]);
    } else {
        assert(next.last() == runs.last());
    }
    if i > 0 {
        assert(next[0] == runs[0]);
    }
}

/// A slice of which a part in the middle was rearranged holds what it held.
proof fn lemma_middle_rearranged<T>(list: Seq<T>, after: Seq<T>, from: int, to: int)
    requires
        0 <= from <= to <= list.len(),
        after.len() == list.len(),
        after.subrange(0, from) == list.subrange(0, from),
        after.subrange(to, after.len() as int) == list.subrange(to, list.len() as int),
        after.subrange(from, to).to_multiset() == list.subrange(from, to).to_multiset(),
    ensures
        after.to_multiset() == list.to_multiset(),
{
    let n = list.len() as int;
    assert(list =~= list.subrange(0, from) + list.subrange(from, to) + list.subrange(to, n));
    assert(after =~= after.subrange(0, from) + after.subrange(from, to) + after.subrange(to, n));
    lemma_multiset_commutative(list.subrange(0, from) + list.subrange(from, to), list.subrange(to, n));
    lemma_multiset_commutative(list.subrange(0, from), list.subrange(from, to));
    lemma_multiset_commutative(
        after.subrange(0, from) + after.subrange(from, to),
        after.subrange(to, n),
    );
    lemma_multiset_commutative(after.subrange(0, from), after.subrange(from, to));
}

/// What a slice is after a part of it was replaced by a rearrangement of
/// that part.
proof fn lemma_part_replaced<T>(
    list: Seq<T>,
    after: Seq<T>,
    middle: Seq<T>,
    from: usize,
    count: usize,
)
    requires
        from + count <= list.len(),
        after == list.subrange(0, from as int) + (middle + list.subrange(
            from as int,
            list.len() as int,
        ).subrange(count as int, list.len() - from)),
        middle.len() == count,
        middle.to_multiset() == part(list, from, count).to_multiset(),
    ensures
        after.len() == list.len(),
        after.to_multiset() == list.to_multiset(),
        forall|k: int| 0 <= k < from || from + count <= k < list.len() ==> #[trigger] after[k] == list[k],
        part(after, from, count) == middle,
{
    let n = list.len() as int;
    assert(part(after, from, count) =~= middle);
    assert(after.subrange(0, from as int) =~= list.subrange(0, from as int));
    assert(after.subrange(from + count, n) =~= list.subrange(from + count, n));
    lemma_middle_rearranged(list, after, from as int, from + count);
}

/// The part of a slice that two runs side by side make up is two sorted
/// runs.
proof fn lemma_part_two_runs<T>(
    list: Seq<T>,
    le: spec_fn(T, T) -> bool,
    from: usize,
    first_len: usize,
    second_len: usize,
)
    requires
        from + first_len + second_len <= list.len(),
        sorted(part(list, from, first_len), le),
        sorted(part(list, from + first_len, second_len), le),
    ensures
        two_runs(part(list, from, first_len + second_len), first_len, le),
{
    let both = part(list, from, first_len + second_len);
    assert(both.subrange(0, first_len as int) =~= part(list, from, first_len));
    assert(both.subrange(first_len as int, both.len() as int) =~= part(
        list,
        from + first_len,
        second_len,
    ));
}

/// Merges the two sorted runs that lie side by side in the `count` elements
/// of `list` from `from` on, the first of them `first_len` long.
fn merge_within<T, C: Fn(&T, &T) -> Ordering>(
    list: &mut [T],
    from: usize,
    first_len: usize,
    count: usize,
    c: &C,
)
    requires
        first_len <= count,
        from + count <= old(list)@.len(),
        accepts(*c, old(list)@),
    ensures
        final(list)@.len() == old(list)@.len(),
        final(list)@.to_multiset() == old(list)@.to_multiset(),
        forall|k: int|
            0 <= k < from || from + count <= k < old(list)@.len() ==> #[trigger] final(list)@[k]
                == old(list)@[k],
        forall|le: spec_fn(T, T) -> bool| #[trigger]
            orders(*c, le) && two_runs(part(old(list)@, from, count), first_len, le) ==> sorted(
                part(final(list)@, from, count),
                le,
            ) && stable(part(old(list)@, from, count), part(final(list)@, from, count), le),
{
    let ghost list_before = list@;
    let (_, rest) = list.split_at_mut(from);
    let (both, _) = rest.split_at_mut(count);
    let ghost both_before = both@;
    merge_by(both, first_len, c);
    let ghost both_after = both@;
    proof {
        assert(both_before =~= part(list_before, from, count));
        lemma_part_replaced(list_before, list@, both_after, from, count);
        assert forall|le: spec_fn(T, T) -> bool| #[trigger]
            orders(*c, le) && two_runs(part(list_before, from, count), first_len, le) implies sorted(
            part(list@, from, count),
            le,
        ) && stable(part(list_before, from, count), part(list@, from, count), le) by {
            assert(orders(c, le));
        }
    }
}

/// Sorts the first `count` elements of `list` by insertion.
fn sort_front<T, C: Fn(&T, &T) -> Ordering>(list: &mut [T], count: usize, c: &C)
    requires
        count <= old(list)@.len(),
        accepts(*c, old(list)@),
    ensures
        final(list)@.len() == old(list)@.len(),
        final(list)@.to_multiset() == old(list)@.to_multiset(),
        forall|k: int| count <= k < old(list)@.len() ==> #[trigger] final(list)@[k] == old(list)@[k],
        forall|le: spec_fn(T, T) -> bool| #[trigger]
            orders(*c, le) ==> sorted_to(final(list)@, le, count) && stable(
                part(old(list)@, 0usize, count),
                part(final(list)@, 0usize, count),
                le,
            ),
{
    let ghost list_before = list@;
    let (short, _) = list.split_at_mut(count);
    let ghost short_before = short@;
    insort::sort_by(short, c);
    let ghost short_after = short@;
    proof {
        lemma_front_replaced(list_before, list@, short_after, count);
        assert(short_before =~= part(list_before, 0usize, count));
        assert(short_after =~= part(list@, 0usize, count));
        assert forall|le: spec_fn(T, T) -> bool| #[trigger] orders(*c, le) implies sorted_to(
            list@,
            le,
            count,
        ) && stable(part(list_before, 0usize, count), part(list@, 0usize, count), le) by {
            assert(orders(c, le));
        }
    }
}

/// What a slice is after its first `count` elements were replaced by a
/// rearrangement of them.
proof fn lemma_front_replaced<T>(list: Seq<T>, after: Seq<T>, short: Seq<T>, count: usize)
    requires
        count <= list.len(),
        short.len() == count,
        short.to_multiset() == list.subrange(0, count as int).to_multiset(),
        after == short + list.subrange(count as int, list.len() as int),
    ensures
        after.len() == list.len(),
        after.to_multiset() == list.to_multiset(),
        after.subrange(0, count as int) == short,
        forall|k: int| count <= k < list.len() ==> #[trigger] after[k] == list[k],
{
    let n = list.len() as int;
    let tail = list.subrange(count as int, n);
    assert(list =~= list.subrange(0, count as int) + tail);
    lemma_multiset_commutative(list.subrange(0, count as int), tail);
    lemma_multiset_commutative(short, tail);
    assert(after.subrange(0, count as int) =~= short);
}

/// Finds the first run of `list` and brings it to at least `min_run`
/// elements, or to all of `list` if that is shorter, by insertion sort:
/// returns its length.
fn take_run<T, C: Fn(&T, &T) -> Ordering>(list: &mut [T], min_run: usize, c: &C) -> (run_len: usize)
    requires
        1 <= old(list)@.len(),
        accepts(*c, old(list)@),
    ensures
        1 <= run_len <= old(list)@.len(),
        min_run <= old(list)@.len() ==> min_run <= run_len,
        min_run > old(list)@.len() ==> run_len == old(list)@.len(),
        final(list)@.len() == old(list)@.len(),
        final(list)@.to_multiset() == old(list)@.to_multiset(),
        forall|k: int| run_len <= k < old(list)@.len() ==> #[trigger] final(list)@[k] == old(list)@[k],
        forall|le: spec_fn(T, T) -> bool| #[trigger]
            orders(*c, le) ==> sorted_to(final(list)@, le, run_len) && stable(
                part(old(list)@, 0usize, run_len),
                part(final(list)@, 0usize, run_len),
                le,
            ),
        forall|le: spec_fn(T, T) -> bool| #[trigger]
            orders(*c, le) && sorted(old(list)@, le) ==> final(list)@ == old(list)@ && run_len
                == old(list)@.len(),
{
    let list_len = list.len();
    let ghost list_before = list@;
    let found = get_run_by(list, c);
    let ghost list_after = list@;
    proof {
        assert forall|le: spec_fn(T, T) -> bool| #[trigger]
            orders(*c, le) && sorted(list_before, le) implies list_after == list_before
            && found == list_before.len() by {
            assert(orders(c, le));
            lemma_whole_run(list_before, list_after, le, found);
        }
        assert forall|le: spec_fn(T, T) -> bool| #[trigger] orders(*c, le) implies sorted_to(
            list_after,
            le,
            found,
        ) by {
            assert(orders(c, le));
        }
        assert(forall|k: int| found <= k < list_len ==> #[trigger] list_after[k] == list_before[k])
            by {
            lemma_behind_run(list_before, list_after, found);
        }
    }
    let run_min_len = if min_run < list_len {
        min_run
    } else {
        list_len
    };
    if found < run_min_len {
        sort_front(list, run_min_len, c);
        proof {
            assert forall|le: spec_fn(T, T) -> bool| #[trigger] orders(*c, le) implies stable(
                part(list_before, 0usize, run_min_len),
                part(list@, 0usize, run_min_len),
                le,
            ) by {
                assert(orders(c, le));
                lemma_run_front_stable(list_before, list_after, le, found, run_min_len);
                lemma_stable_chain(
                    part(list_before, 0usize, run_min_len),
                    part(list_after, 0usize, run_min_len),
                    part(list@, 0usize, run_min_len),
                    le,
                );
            }
        }
        run_min_len
    } else {
        proof {
            assert forall|le: spec_fn(T, T) -> bool| #[trigger] orders(*c, le) implies stable(
                part(list_before, 0usize, found),
                part(list@, 0usize, found),
                le,
            ) by {
                assert(orders(c, le));
                lemma_run_front_stable(list_before, list_after, le, found, found);
            }
        }
        found
    }
}

/// A slice of which the front was reversed, or nothing, is behind that
/// front as it was.
proof fn lemma_behind_run<T>(list: Seq<T>, after: Seq<T>, found: usize)
    requires
        found <= list.len(),
        after == list || after == reverse_prefix(list, found),
    ensures
        forall|k: int| found <= k < list.len() ==> #[trigger] after[k] == list[k],
{
    if after == reverse_prefix(list, found) {
        assert forall|k: int| found <= k < list.len() implies #[trigger] after[k] == list[k] by {
            assert(after[k] == list.subrange(found as int, list.len() as int)[k - found]);
        }
    }
}

/// Where the first run of a sorted slice was found, nothing was moved and
/// the run is the whole slice.
proof fn lemma_whole_run<T>(rest: Seq<T>, after: Seq<T>, le: spec_fn(T, T) -> bool, found: usize)
    requires
        total_preorder(le),
        sorted(rest, le),
        first_run(rest, le, false, found) && after == rest || first_run(rest, le, true, found)
            && after == reverse_prefix(rest, found),
    ensures
        after == rest,
        found == rest.len(),
{
    if first_run(rest, le, true, found) {
        lemma_sorted_one_run(rest, le, true, found as int);
    } else {
        lemma_sorted_one_run(rest, le, false, found as int);
    }
}

/// Finds the run that begins at `pos` and brings it to at least `min_run`
/// elements, or to all that are left if they are fewer, by insertion sort:
/// returns its length.
fn next_run<T, C: Fn(&T, &T) -> Ordering>(list: &mut [T], pos: usize, min_run: usize, c: &C) -> (run_len:
    usize)
    requires
        pos < old(list)@.len(),
        accepts(*c, old(list)@),
    ensures
        1 <= run_len,
        pos + run_len <= old(list)@.len(),
        min_run <= old(list)@.len() - pos ==> min_run <= run_len,
        min_run > old(list)@.len() - pos ==> run_len == old(list)@.len() - pos,
        final(list)@.len() == old(list)@.len(),
        final(list)@.to_multiset() == old(list)@.to_multiset(),
        forall|k: int|
            0 <= k < pos || pos + run_len <= k < old(list)@.len() ==> #[trigger] final(list)@[k]
                == old(list)@[k],
        forall|le: spec_fn(T, T) -> bool| #[trigger]
            orders(*c, le) ==> sorted(part(final(list)@, pos, run_len), le) && stable(
                part(old(list)@, pos, run_len),
                part(final(list)@, pos, run_len),
                le,
            ),
        forall|le: spec_fn(T, T) -> bool| #[trigger]
            orders(*c, le) && sorted(part(old(list)@, pos, old(list)@.len() - pos), le)
                ==> final(list)@ == old(list)@ && pos + run_len == old(list)@.len(),
{
    let ghost list_before = list@;
    let (_, rest) = list.split_at_mut(pos);
    let ghost rest_before = rest@;
    let run_len = take_run(rest, min_run, c);
    let ghost rest_after = rest@;
    proof {
        lemma_rest_replaced(list_before, list@, rest_after, pos);
        assert(rest_before =~= part(list_before, pos, list_before.len() - pos));
        assert(part(list@, pos, run_len) =~= part(rest_after, 0usize, run_len));
        assert(part(list_before, pos, run_len) =~= part(rest_before, 0usize, run_len));
        assert forall|k: int| pos + run_len <= k < list_before.len() implies #[trigger] list@[k]
            == list_before[k] by {
            assert(rest_after[k - pos] == rest_before[k - pos]);
        }
        assert forall|le: spec_fn(T, T) -> bool| #[trigger] orders(*c, le) implies sorted(
            part(list@, pos, run_len),
            le,
        ) && stable(part(list_before, pos, run_len), part(list@, pos, run_len), le) by {
            assert(sorted_to(rest_after, le, run_len));
        }
    }
    run_len
}

/// What a slice is after all from `pos` on was replaced by a rearrangement
/// of it.
proof fn lemma_rest_replaced<T>(list: Seq<T>, after: Seq<T>, rest: Seq<T>, pos: usize)
    requires
        pos <= list.len(),
        rest.len() == list.len() - pos,
        rest.to_multiset() == list.subrange(pos as int, list.len() as int).to_multiset(),
        after == list.subrange(0, pos as int) + rest,
    ensures
        after.len() == list.len(),
        after.to_multiset() == list.to_multiset(),
        forall|k: int| 0 <= k < pos ==> #[trigger] after[k] == list[k],
        after.subrange(pos as int, list.len() as int) == rest,
{
    let n = list.len() as int;
    let head = list.subrange(0, pos as int);
    assert(list =~= head + list.subrange(pos as int, n));
    lemma_multiset_commutative(head, list.subrange(pos as int, n));
    lemma_multiset_commutative(head, rest);
    assert(after.subrange(pos as int, n) =~= rest);
}

/// A slice that holds what it held, and behind `pos` holds it where it held
/// it, holds before `pos` what it held there.
proof fn lemma_front_kept<T>(list: Seq<T>, after: Seq<T>, pos: usize)
    requires
        pos <= list.len(),
        after.len() == list.len(),
        after.to_multiset() == list.to_multiset(),
        forall|k: int| pos <= k < list.len() ==> #[trigger] after[k] == list[k],
    ensures
        part(after, 0usize, pos).to_multiset() == part(list, 0usize, pos).to_multiset(),
{
    let n = list.len() as int;
    let tail = list.subrange(pos as int, n);
    let front = part(list, 0usize, pos);
    let front_after = part(after, 0usize, pos);
    assert(list =~= front + tail);
    assert(after =~= front_after + tail);
    lemma_multiset_commutative(front, tail);
    lemma_multiset_commutative(front_after, tail);
    assert forall|x: T| front_after.to_multiset().count(x) == front.to_multiset().count(x) by {
        assert(front_after.to_multiset().add(tail.to_multiset()).count(x) == front.to_multiset().add(
            tail.to_multiset(),
        ).count(x));
    }
    assert(front_after.to_multiset() =~= front.to_multiset());
}

/// Runs that stay settled where the slice changed behind them only, with one
/// more settled run behind them.
proof fn lemma_run_pushed<T>(
    runs: Seq<Run>,
    pos: usize,
    run_len: usize,
    a: Seq<T>,
    list: Seq<T>,
    after: Seq<T>,
    le: spec_fn(T, T) -> bool,
)
    requires
        tiled(runs, pos as int),
        pos + run_len <= list.len(),
        after.len() == list.len(),
        each_settled(runs, a, list, le),
        forall|k: int| 0 <= k < pos ==> #[trigger] after[k] == list[k],
        sorted(part(after, pos, run_len), le),
        stable(part(a, pos, run_len), part(after, pos, run_len), le),
    ensures
        each_settled(runs.push(Run { pos: pos, len: run_len }), a, after, le),
{
    let next = runs.push(Run { pos: pos, len: run_len });
    lemma_tiled_ascends(runs, pos as int);
    assert forall|j: int| 0 <= j < next.len() implies sorted(
        after.subrange((#[trigger] next[j]).pos as int, next[j].pos + next[j].len),
        le,
    ) && stable(
        a.subrange(next[j].pos as int, next[j].pos + next[j].len),
        after.subrange(next[j].pos as int, next[j].pos + next[j].len),
        le,
    ) by {
        if j < runs.len() {
            assert(next[j] == runs[j]);
            assert(after.subrange(runs[j].pos as int, runs[j].pos + runs[j].len) =~= list.subrange(
                runs[j].pos as int,
                runs[j].pos + runs[j].len,
            ));
        }
    }
}

/// One more run behind runs that lie side by side leaves them side by side.
proof fn lemma_pushed_tiled(runs: Seq<Run>, pos: usize, run_len: usize)
    requires
        tiled(runs, pos as int),
        1 <= run_len,
        pos + run_len <= usize::MAX,
    ensures
        tiled(runs.push(Run { pos: pos, len: run_len }), pos + run_len),
{
    let next = runs.push(Run { pos: pos, len: run_len });
    assert forall|i: int| 0 <= i < next.len() implies (#[trigger] next[i]).len >= 1 by {
        if i < runs.len() {
            assert(next[i] == runs[i]);
        }
    }
    assert forall|i: int| 0 <= i < next.len() - 1 implies #[trigger] adjoins(next, i) by {
        assert(next[i] == runs[i]);
        if i + 1 < runs.len() {
            assert(adjoins(runs, i));
            assert(next[i + 1] == runs[i + 1]);
        } else {
            assert(runs[i] == runs.last());
        }
    }
    if runs.len() > 0 {
        assert(next[0] == runs[0]);
    }
}

/// One more run behind balanced runs leaves balanced what lies under it.
proof fn lemma_pushed_balanced(runs: Seq<Run>, run: Run)
    requires
        balanced_to(runs, runs.len() as int),
    ensures
        balanced_to(runs.push(run), runs.len() as int),
{
    let next = runs.push(run);
    assert forall|i: int|
        0 <= i && i + 2 < runs.len() && i + 2 < next.len() implies #[trigger] outweighs_two(
        next,
        i,
    ) by {
        assert(outweighs_two(runs, i));
    }
    assert forall|i: int| 0 <= i && i + 1 < runs.len() && i + 1 < next.len() implies #[trigger] outweighs(
        next,
        i,
    ) by {
        assert(outweighs(runs, i));
    }
}

/// One settled run that lies over the whole slice: the slice is sorted, and
/// its elements that rank equal stand in the order that they had.
proof fn lemma_one_run<T>(runs: Seq<Run>, a: Seq<T>, list: Seq<T>, le: spec_fn(T, T) -> bool)
    requires
        tiled(runs, list.len() as int),
        a.len() == list.len(),
        runs.len() <= 1,
        each_settled(runs, a, list, le),
    ensures
        sorted(list, le),
        stable(a, list, le),
{
    if runs.len() == 1 {
        assert(runs.last() == runs[0]);
        assert(list.subrange(runs[0].pos as int, runs[0].pos + runs[0].len) =~= list);
        assert(a.subrange(runs[0].pos as int, runs[0].pos + runs[0].len) =~= a);
    } else {
        assert(a =~= list);
        lemma_stable_same(a, le);
    }
}

impl SortState {
    /// The runs lie side by side over all of a slice of `n` elements that
    /// was read.
    spec fn wf(&self, n: nat) -> bool {
        &&& tiled(self.runs@, self.pos as int)
        &&& self.pos <= n
    }

    /// Each of the runs is sorted in `list`, and holds what it held in `a`,
    /// elements that rank equal in the order that they had there.
    spec fn settled<T>(&self, a: Seq<T>, list: Seq<T>, le: spec_fn(T, T) -> bool) -> bool {
        each_settled(self.runs@, a, list, le)
    }

    /// Each run is longer than the next, and longer than the next two
    /// together.
    spec fn balanced(&self) -> bool {
        balanced_to(self.runs@, self.runs@.len() as int)
    }

    /// All runs but the last `top` are balanced among themselves.
    spec fn balanced_under(&self, top: int) -> bool {
        balanced_to(self.runs@, self.runs@.len() - top)
    }

    /// The runs with the runs at `i` and behind it made one.
    spec fn joined_at(&self, i: usize) -> Seq<Run> {
        joined(self.runs@, i as int)
    }

    /// The state for a slice of `len` elements of which nothing was read:
    /// no run is found yet, and the least length that a run is to be
    /// brought to is the one that belongs to `len`.
    fn new(len: usize) -> (state: Self)
        ensures
            state.wf(len as nat),
            state.runs@.len() == 0,
            state.pos == 0,
            state.min_run == min_run_length(len as nat),
            state.balanced(),
    {
        SortState { min_run: calc_min_merge(len), runs: Vec::new(), pos: 0 }
    }

    /// Joining the runs at `i` and behind it leaves the runs side by side,
    /// and the new run within what was read.
    proof fn lemma_join<I: Integer>(self, n: nat, i: I)
        requires
            self.wf(n),
            n <= usize::MAX,
            0 <= (i as int),
            i as int + 1 < self.runs@.len(),
        ensures
            tiled(joined(self.runs@, i as int), self.pos as int),
            self.runs@[i as int].len + self.runs@[i as int + 1].len <= self.pos,
            self.runs@[i as int].pos + self.runs@[i as int].len + self.runs@[i as int + 1].len
                <= self.pos,
            self.runs@[i as int].pos + self.runs@[i as int].len == self.runs@[i as int + 1].pos,
    {
        lemma_joined_tiled(self.runs@, self.pos as int, i as int);
    }

    /// Where the runs at `i` and behind it were merged, the runs are settled
    /// as before, and the two are one settled run.
    proof fn lemma_join_settled<T>(
        self,
        i: usize,
        a: Seq<T>,
        list: Seq<T>,
        after: Seq<T>,
        le: spec_fn(T, T) -> bool,
    )
        requires
            self.wf(list.len()),
            list.len() <= usize::MAX,
            a.len() == list.len(),
            i + 1 < self.runs@.len(),
            self.settled(a, list, le),
            after.len() == list.len(),
            forall|k: int|
                0 <= k < self.runs@[i as int].pos || self.runs@[i as int].pos
                    + self.runs@[i as int].len + self.runs@[i + 1].len <= k < list.len()
                    ==> #[trigger] after[k] == list[k],
            two_runs(
                part(
                    list,
                    self.runs@[i as int].pos,
                    self.runs@[i as int].len + self.runs@[i + 1].len,
                ),
                self.runs@[i as int].len,
                le,
            ) ==> sorted(
                part(
                    after,
                    self.runs@[i as int].pos,
                    self.runs@[i as int].len + self.runs@[i + 1].len,
                ),
                le,
            ) && stable(
                part(
                    list,
                    self.runs@[i as int].pos,
                    self.runs@[i as int].len + self.runs@[i + 1].len,
                ),
                part(
                    after,
                    self.runs@[i as int].pos,
                    self.runs@[i as int].len + self.runs@[i + 1].len,
                ),
                le,
            ),
        ensures
            each_settled(self.joined_at(i), a, after, le),
    {
        let runs = self.runs@;
        let first = runs[i as int];
        let second = runs[i + 1];
        lemma_joined_tiled(runs, self.pos as int, i as int);
        assert(part(list, first.pos + first.len, second.len) =~= list.subrange(
            second.pos as int,
            second.pos + second.len,
        ));
        lemma_part_two_runs(list, le, first.pos, first.len, second.len);
        lemma_joined_settled(runs, self.pos as int, i as int, a, list, after, le);
    }

    /// Joining two of the last three runs leaves balanced what lies under
    /// the last two.
    proof fn lemma_step_balanced<I: Integer>(self, after: Self, i: I)
        requires
            self.runs@.len() >= 2,
            0 <= (i as int),
            i as int == self.runs@.len() - 2 || i as int == self.runs@.len() - 3,
            self.balanced_under(2),
            after.runs@ == joined(self.runs@, i as int),
        ensures
            after.balanced_under(2),
            after.runs@.len() == self.runs@.len() - 1,
    {
        let runs = self.runs@;
        let next = after.runs@;
        assert forall|j: int| 0 <= j && j + 2 < next.len() - 2 implies #[trigger] outweighs_two(
            next,
            j,
        ) by {
            assert(outweighs_two(runs, j));
            assert(next[j] == runs[j]);
            assert(next[j + 1] == runs[j + 1]);
            assert(next[j + 2] == runs[j + 2]);
        }
        assert forall|j: int| 0 <= j && j + 1 < next.len() - 2 implies #[trigger] outweighs(
            next,
            j,
        ) by {
            assert(outweighs(runs, j));
            assert(next[j] == runs[j]);
            assert(next[j + 1] == runs[j + 1]);
        }
    }

    /// The runs are balanced when what lies under the last two is and the
    /// last three stand as they should.
    proof fn lemma_done_balanced(self)
        requires
            self.runs@.len() >= 2,
            self.balanced_under(2),
            self.runs@.len() >= 3 ==> outweighs_two(self.runs@, self.runs@.len() - 3),
            self.runs@.len() >= 4 ==> outweighs_two(self.runs@, self.runs@.len() - 4),
            outweighs(self.runs@, self.runs@.len() - 2),
        ensures
            self.balanced(),
    {
        let runs = self.runs@;
        let k = runs.len() as int;
        assert forall|j: int| 0 <= j && j + 2 < k implies #[trigger] outweighs_two(runs, j) by {
            if j + 2 < k - 2 {
            } else if j == k - 4 {
            } else {
                assert(j == k - 3);
            }
        }
        assert forall|j: int| 0 <= j && j + 1 < k implies #[trigger] outweighs(runs, j) by {
            if j + 1 < k - 2 {
            } else if j == k - 3 {
                assert(outweighs_two(runs, k - 3));
            } else if j == k - 4 {
                assert(outweighs_two(runs, k - 4));
            } else {
                assert(j == k - 2);
            }
        }
    }

    /// Merges the runs at `i` and behind it into one.
    fn merge_at<T, C: Fn(&T, &T) -> Ordering>(
        &mut self,
        list: &mut [T],
        c: &C,
        i: usize,
        Ghost(a): Ghost<Seq<T>>,
    )
        requires
            old(self).wf(old(list)@.len()),
            i + 1 < old(self).runs@.len(),
            accepts(*c, old(list)@),
            a.len() == old(list)@.len(),
        ensures
            forall|k: int|
                old(self).pos <= k < old(list)@.len() ==> #[trigger] final(list)@[k] == old(list)@[k],
            part(final(list)@, 0usize, old(self).pos).to_multiset() == part(
                old(list)@,
                0usize,
                old(self).pos,
            ).to_multiset(),
            final(self).wf(final(list)@.len()),
            final(self).pos == old(self).pos,
            final(self).min_run == old(self).min_run,
            final(self).runs@ == old(self).joined_at(i),
            final(list)@.len() == old(list)@.len(),
            final(list)@.to_multiset() == old(list)@.to_multiset(),
            forall|le: spec_fn(T, T) -> bool| #[trigger]
                orders(*c, le) && old(self).settled(a, old(list)@, le) ==> final(self).settled(
                    a,
                    final(list)@,
                    le,
                ),
    {
        let list_len = list.len();
        let runs_len = self.runs.len();
        let ghost before = *self;
        let ghost list_before = list@;
        let first = self.runs[i];
        let second = self.runs[i + 1];
        proof {
            before.lemma_join(list_before.len(), i);
        }
        self.runs.remove(i + 1);
        self.runs[i] = Run { pos: first.pos, len: first.len + second.len };
        merge_within(list, first.pos, first.len, first.len + second.len, c);
        proof {
            lemma_front_kept(list_before, list@, self.pos);
            assert(self.runs@ =~= before.joined_at(i));
            assert forall|le: spec_fn(T, T) -> bool| #[trigger]
                orders(*c, le) && before.settled(a, list_before, le) implies self.settled(a, list@, le) by {
                before.lemma_join_settled(i, a, list_before, list@, le);
            }
        }
    }

    /// Merges runs until the runs are balanced: until each is longer than
    /// the next, and longer than the next two together. Of the last three
    /// runs, the middle one is merged with the shorter of its neighbours.
    fn merge_collapse<T, C: Fn(&T, &T) -> Ordering>(
        &mut self,
        list: &mut [T],
        c: &C,
        Ghost(a): Ghost<Seq<T>>,
    )
        requires
            old(self).wf(old(list)@.len()),
            old(self).balanced_under(1),
            accepts(*c, old(list)@),
            a.len() == old(list)@.len(),
        ensures
            forall|k: int|
                old(self).pos <= k < old(list)@.len() ==> #[trigger] final(list)@[k] == old(list)@[k],
            part(final(list)@, 0usize, old(self).pos).to_multiset() == part(
                old(list)@,
                0usize,
                old(self).pos,
            ).to_multiset(),
            final(self).wf(final(list)@.len()),
            final(self).balanced(),
            final(self).pos == old(self).pos,
            final(self).min_run == old(self).min_run,
            final(self).runs@.len() <= old(self).runs@.len(),
            final(self).runs@.len() >= 1 || old(self).runs@.len() == 0,
            old(self).runs@.len() <= 1 ==> final(list)@ == old(list)@,
            final(list)@.len() == old(list)@.len(),
            final(list)@.to_multiset() == old(list)@.to_multiset(),
            forall|le: spec_fn(T, T) -> bool| #[trigger]
                orders(*c, le) && old(self).settled(a, old(list)@, le) ==> final(self).settled(
                    a,
                    final(list)@,
                    le,
                ),
    {
        let list_len = list.len();
        while self.runs.len() > 1
            invariant
                list_len == list@.len(),
                self.wf(list@.len()),
                self.balanced_under(2),
                self.pos == old(self).pos,
                self.min_run == old(self).min_run,
                1 <= self.runs@.len() <= old(self).runs@.len() || old(self).runs@.len() == 0,
                self.runs@.len() <= old(self).runs@.len(),
                old(self).runs@.len() <= 1 ==> list@ == old(list)@,
                list@.len() == old(list)@.len(),
                a.len() == list@.len(),
                forall|k: int| self.pos <= k < list@.len() ==> #[trigger] list@[k] == old(list)@[k],
                self.runs@.len() >= 1 || old(self).runs@.len() == 0,
                list@.to_multiset() == old(list)@.to_multiset(),
                accepts(*c, list@),
                forall|le: spec_fn(T, T) -> bool| #[trigger]
                    orders(*c, le) && old(self).settled(a, old(list)@, le) ==> self.settled(a, list@, le),
            ensures
                self.balanced(),
            decreases self.runs@.len(),
        {
            let n = self.runs.len() - 2;
            let ghost before = *self;
            let ghost list_before = list@;
            proof {
                if n >= 1 {
                    self.lemma_join(list@.len(), n);
                    self.lemma_join(list@.len(), n - 1);
                } else {
                    self.lemma_join(list@.len(), n);
                }
            }
            let last = self.runs[n + 1].len;
            let middle = self.runs[n].len;
            let unbalanced = (n >= 1 && self.runs[n - 1].len <= middle + last) || (n >= 2
                && self.runs[n - 2].len <= middle + self.runs[n - 1].len);
            if unbalanced {
                if self.runs[n - 1].len < last {
                    self.merge_at(list, c, n - 1, Ghost(a));
                    proof {
                        before.lemma_step_balanced(*self, n - 1);
                    }
                } else {
                    self.merge_at(list, c, n, Ghost(a));
                    proof {
                        before.lemma_step_balanced(*self, n);
                    }
                }
            } else if middle <= last {
                self.merge_at(list, c, n, Ghost(a));
                proof {
                    before.lemma_step_balanced(*self, n);
                }
            } else {
                proof {
                    self.lemma_done_balanced();
                }
                break ;
            }
            proof {
                lemma_accepts_rearranged(*c, list_before, list@);
            }
        }
        proof {
            lemma_front_kept(old(list)@, list@, self.pos);
        }
    }

    /// Merges the last two runs until one run is left.
    fn merge_force_collapse<T, C: Fn(&T, &T) -> Ordering>(
        &mut self,
        list: &mut [T],
        c: &C,
        Ghost(a): Ghost<Seq<T>>,
    )
        requires
            old(self).wf(old(list)@.len()),
            accepts(*c, old(list)@),
            a.len() == old(list)@.len(),
        ensures
            forall|k: int|
                old(self).pos <= k < old(list)@.len() ==> #[trigger] final(list)@[k] == old(list)@[k],
            part(final(list)@, 0usize, old(self).pos).to_multiset() == part(
                old(list)@,
                0usize,
                old(self).pos,
            ).to_multiset(),
            final(self).wf(final(list)@.len()),
            final(self).pos == old(self).pos,
            final(self).min_run == old(self).min_run,
            final(self).runs@.len() <= 1,
            old(self).runs@.len() >= 1 ==> final(self).runs@.len() == 1,
            old(self).runs@.len() <= 1 ==> final(list)@ == old(list)@,
            final(list)@.len() == old(list)@.len(),
            final(list)@.to_multiset() == old(list)@.to_multiset(),
            forall|le: spec_fn(T, T) -> bool| #[trigger]
                orders(*c, le) && old(self).settled(a, old(list)@, le) ==> final(self).settled(
                    a,
                    final(list)@,
                    le,
                ),
    {
        while self.runs.len() > 1
            invariant
                self.wf(list@.len()),
                self.pos == old(self).pos,
                self.min_run == old(self).min_run,
                self.runs@.len() <= old(self).runs@.len(),
                old(self).runs@.len() <= 1 ==> list@ == old(list)@,
                list@.len() == old(list)@.len(),
                a.len() == list@.len(),
                forall|k: int| self.pos <= k < list@.len() ==> #[trigger] list@[k] == old(list)@[k],
                self.runs@.len() >= 1 || old(self).runs@.len() == 0,
                list@.to_multiset() == old(list)@.to_multiset(),
                accepts(*c, list@),
                forall|le: spec_fn(T, T) -> bool| #[trigger]
                    orders(*c, le) && old(self).settled(a, old(list)@, le) ==> self.settled(a, list@, le),
            decreases self.runs@.len(),
        {
            let n = self.runs.len() - 2;
            let ghost list_before = list@;
            self.merge_at(list, c, n, Ghost(a));
            proof {
                lemma_accepts_rearranged(*c, list_before, list@);
            }
        }
        proof {
            lemma_front_kept(old(list)@, list@, self.pos);
        }
    }

    /// Sorts `list`: finds its runs one after another, lengthens the short
    /// ones, keeps the runs found balanced by merging, and at the end merges
    /// all that are left.
    fn sort<T, C: Fn(&T, &T) -> Ordering>(&mut self, list: &mut [T], c: &C)
        requires
            old(self).wf(old(list)@.len()),
            old(self).runs@.len() == 0,
            old(self).pos == 0,
            accepts(*c, old(list)@),
        ensures
            final(self).pos == old(list)@.len(),
            final(self).min_run == old(self).min_run,
            old(list)@.len() == 0 ==> final(self).runs@.len() == 0,
            old(list)@.len() > 0 ==> final(self).runs@.len() == 1 && final(self).runs@[0].pos == 0
                && final(self).runs@[0].len == old(list)@.len(),
            final(list)@.len() == old(list)@.len(),
            final(list)@.to_multiset() == old(list)@.to_multiset(),
            forall|le: spec_fn(T, T) -> bool| #[trigger]
                orders(*c, le) ==> sorted(final(list)@, le) && stable(old(list)@, final(list)@, le),
            forall|le: spec_fn(T, T) -> bool| #[trigger]
                orders(*c, le) && sorted(old(list)@, le) ==> final(list)@ == old(list)@,
    {
        let list_len = list.len();
        let min_run = self.min_run;
        let ghost a = list@;
        while self.pos < list_len
            invariant
                list_len == list@.len(),
                a == old(list)@,
                self.min_run == old(self).min_run,
                self.wf(list@.len()),
                self.balanced(),
                list@.len() == old(list)@.len(),
                list@.to_multiset() == old(list)@.to_multiset(),
                forall|k: int| self.pos <= k < list_len ==> #[trigger] list@[k] == a[k],
                accepts(*c, list@),
                forall|le: spec_fn(T, T) -> bool| #[trigger]
                    orders(*c, le) ==> self.settled(a, list@, le),
                forall|le: spec_fn(T, T) -> bool| #[trigger]
                    orders(*c, le) && sorted(old(list)@, le) ==> list@ == old(list)@
                        && self.runs@.len() <= 1 && (self.pos == 0 || self.pos == list_len),
            decreases list_len - self.pos,
        {
            let pos = self.pos;
            let ghost before = *self;
            let ghost list_before = list@;
            let run_len = next_run(list, pos, min_run, c);
            let ghost list_after = list@;
            self.runs.push(Run { pos: pos, len: run_len });
            self.pos += run_len;
            proof {
                lemma_accepts_rearranged(*c, list_before, list_after);
                lemma_pushed_tiled(before.runs@, pos, run_len);
                lemma_pushed_balanced(before.runs@, Run { pos: pos, len: run_len });
                assert(part(list_before, pos, run_len) =~= part(a, pos, run_len));
                assert forall|le: spec_fn(T, T) -> bool| #[trigger]
                    orders(*c, le) implies self.settled(a, list_after, le) by {
                    lemma_run_pushed(before.runs@, pos, run_len, a, list_before, list_after, le);
                }
                assert forall|le: spec_fn(T, T) -> bool| #[trigger]
                    orders(*c, le) && sorted(old(list)@, le) implies list_after == old(list)@
                    && self.runs@.len() <= 1 && self.pos == list_len by {
                    assert(part(list_before, pos, list_before.len() - pos) =~= list_before);
                    assert(before.runs@.len() == 0);
                }
            }
            self.merge_collapse(list, c, Ghost(a));
            proof {
                lemma_accepts_rearranged(*c, list_after, list@);
            }
        }
        self.merge_force_collapse(list, c, Ghost(a));
        proof {
            if list_len > 0 {
                assert(self.runs@.last() == self.runs@[0]);
            }
            assert forall|le: spec_fn(T, T) -> bool| #[trigger] orders(*c, le) implies sorted(
                list@,
                le,
            ) && stable(a, list@, le) by {
                lemma_one_run(self.runs@, a, list@, le);
            }
        }
    }
}

/// Sorts `list` by the order that `c` decides. Elements that compare equal
/// keep their order, and a sorted slice is left as it is.
///
/// Whatever `c` answers, `list` holds afterwards the elements that it held.
pub fn sort_by<T, C: Fn(&T, &T) -> Ordering>(list: &mut [T], c: C)
    requires
        accepts(c, old(list)@),
    ensures
        final(list)@.len() == old(list)@.len(),
        final(list)@.to_multiset() == old(list)@.to_multiset(),
        forall|le: spec_fn(T, T) -> bool| #[trigger]
            orders(c, le) ==> sorted(final(list)@, le) && stable(old(list)@, final(list)@, le),
        forall|le: spec_fn(T, T) -> bool| #[trigger]
            orders(c, le) && sorted(old(list)@, le) ==> final(list)@ == old(list)@,
{
    if list.len() < MIN_MERGE {
        insort::sort_by(list, &c);
        proof {
            assert forall|le: spec_fn(T, T) -> bool| #[trigger] orders(c, le) implies sorted(
                list@,
                le,
            ) && stable(old(list)@, list@, le) && (sorted(old(list)@, le) ==> list@ == old(list)@) by {
                assert(orders(&c, le));
                if sorted(old(list)@, le) {
                    lemma_sorted_stable_same(old(list)@, list@, le);
                }
            }
        }
    } else {
        let mut sort_state = SortState::new(list.len());
        sort_state.sort(list, &c);
    }
}

/// [`sort_by`] with the order that `T` has by `Ord`.
pub fn sort<T: Ord>(list: &mut [T])
    ensures
        final(list)@.len() == old(list)@.len(),
        final(list)@.to_multiset() == old(list)@.to_multiset(),
        ord_total::<T>() ==> sorted(final(list)@, ord_le::<T>()) && stable(
            old(list)@,
            final(list)@,
            ord_le::<T>(),
        ),
        ord_total::<T>() && sorted(old(list)@, ord_le::<T>()) ==> final(list)@ == old(list)@,
{
    let c = |a: &T, b: &T| -> (o: Ordering)
        ensures
            T::obeys_cmp_spec() ==> o == a.cmp_spec(b),
        { a.cmp(b) };
    sort_by(list, c);
    proof {
        if ord_total::<T>() {
            assert(orders(c, ord_le::<T>()));
        }
    }
}

} // verus!
