//! Merging two sorted runs that stand side by side in a slice: the order of
//! the elements is decided on the slice as it stands and recorded, and the
//! slice is then brought into that order by exchanges.

use vstd::prelude::*;
use core::cmp::Ordering;
use crate::comparator::{accepts, orders};
use crate::natural::{ord_le, ord_total};
use vstd::std_specs::cmp::OrdSpec;
use crate::gallop::{gallop_left_by, gallop_right_by, Mode};
use crate::order::{
    left_point, lemma_precedes_chains, lemma_precedes_in_run, precedes, right_point, sorted,
    total_preorder, two_runs,
};
use crate::rearrange::{
    arrange, in_order, interleaved, interleaves, is_arrangement, lemma_in_order,
    lemma_rearranged_multiset, positions, rearranged, stable,
};

verus! {

/// The number of times in a row that one run has to win before the merge
/// turns to galloping.
pub const MIN_GALLOP: usize = 7;

/// Writes into `order`, from `dest` on, the `count` positions from `start`
/// on.
fn record(order: &mut Vec<usize>, dest: usize, start: usize, count: usize)
    requires
        dest + count <= old(order)@.len(),
        start + count <= usize::MAX,
    ensures
        final(order)@.len() == old(order)@.len(),
        forall|j: int|
            dest <= j < dest + count ==> #[trigger] final(order)@[j] == start + (j - dest),
        forall|j: int|
            0 <= j < dest || dest + count <= j < old(order)@.len() ==> #[trigger] final(order)@[j]
                == old(order)@[j],
{
    let len = order.len();
    let mut i: usize = 0;
    while i < count
        invariant
            i <= count,
            dest + count <= len,
            start + count <= usize::MAX,
            len == order@.len(),
            order@.len() == old(order)@.len(),
            forall|j: int| dest <= j < dest + i ==> #[trigger] order@[j] == start + (j - dest),
            forall|j: int|
                0 <= j < dest || dest + i <= j < len ==> #[trigger] order@[j] == old(order)@[j],
        decreases count - i,
    {
        order[dest + i] = start + i;
        i += 1;
    }
}

/// A list of positions in which each names itself.
fn identity_order(len: usize) -> (order: Vec<usize>)
    ensures
        order@.len() == len,
        forall|i: int| 0 <= i < len ==> #[trigger] order@[i] == i,
{
    let mut order: Vec<usize> = Vec::with_capacity(len);
    let mut i: usize = 0;
    while i < len
        invariant
            i <= len,
            order@.len() == i,
            forall|k: int| 0 <= k < i ==> #[trigger] order@[k] == k,
        decreases len - i,
    {
        order.push(i);
        i += 1;
    }
    order
}

/// `p` with the `count` entries from `dest` on replaced by `start`,
/// `start + 1`, and so on.
spec fn with_block(p: Seq<int>, dest: int, start: int, count: int) -> Seq<int> {
    Seq::new(
        p.len(),
        |i: int|
            if dest <= i < dest + count {
                start + (i - dest)
            } else {
                p[i]
            },
    )
}

/// What holds of the merged front when both runs of `a` were sorted: the
/// `dest` elements placed so far, which came from the positions that `p`
/// names, stand in the order in which they belong, and each belongs before
/// the next element of either run, at `f` in the first and at `s` in the
/// second.
spec fn lo_ordered<T>(
    a: Seq<T>,
    le: spec_fn(T, T) -> bool,
    p: Seq<int>,
    dest: int,
    f: int,
    m: int,
    s: int,
) -> bool {
    &&& forall|i: int, j: int|
        0 <= i < j < dest ==> precedes(a, le, #[trigger] p[i], #[trigger] p[j])
    &&& f < m ==> forall|i: int| 0 <= i < dest ==> precedes(a, le, #[trigger] p[i], f)
    &&& s < a.len() ==> forall|i: int| 0 <= i < dest ==> precedes(a, le, #[trigger] p[i], s)
}

/// Placing the next `k` elements of the second run keeps the front in
/// order, if each of them is smaller than the next element of the first run.
proof fn lemma_lo_second_block<T>(
    a: Seq<T>,
    le: spec_fn(T, T) -> bool,
    p: Seq<int>,
    dest: int,
    f: int,
    m: int,
    s: int,
    k: int,
)
    requires
        total_preorder(le),
        two_runs(a, m, le),
        0 <= f <= m <= s,
        0 <= k,
        s + k <= a.len(),
        0 <= dest,
        dest + k <= p.len(),
        lo_ordered(a, le, p, dest, f, m, s),
        f < m ==> forall|x: int| s <= x < s + k ==> !le(a[f], #[trigger] a[x]),
    ensures
        lo_ordered(a, le, with_block(p, dest, s, k), dest + k, f, m, s + k),
{
    let q = with_block(p, dest, s, k);
    let n = a.len() as int;
    assert forall|i: int, j: int| 0 <= i < j < dest + k implies precedes(
        a,
        le,
        #[trigger] q[i],
        #[trigger] q[j],
    ) by {
        if j < dest {
        } else if i < dest {
            assert(precedes(a, le, p[i], s));
            if q[j] > s {
                lemma_precedes_in_run(a, le, m, n, s, q[j]);
                lemma_precedes_chains(a, le, p[i], s, q[j]);
            }
        } else {
            lemma_precedes_in_run(a, le, m, n, q[i], q[j]);
        }
    }
    if f < m {
        assert forall|i: int| 0 <= i < dest + k implies precedes(a, le, #[trigger] q[i], f) by {
            if i >= dest {
                assert(!le(a[f], a[q[i]]));
            }
        }
    }
    if s + k < n {
        assert forall|i: int| 0 <= i < dest + k implies precedes(a, le, #[trigger] q[i], s + k) by {
            if i < dest {
                assert(precedes(a, le, p[i], s));
                if k > 0 {
                    lemma_precedes_in_run(a, le, m, n, s, s + k);
                    lemma_precedes_chains(a, le, p[i], s, s + k);
                }
            } else {
                lemma_precedes_in_run(a, le, m, n, q[i], s + k);
            }
        }
    }
}

/// Placing the next `k` elements of the first run keeps the front in order,
/// if none of them is greater than the next element of the second run.
proof fn lemma_lo_first_block<T>(
    a: Seq<T>,
    le: spec_fn(T, T) -> bool,
    p: Seq<int>,
    dest: int,
    f: int,
    m: int,
    s: int,
    k: int,
)
    requires
        total_preorder(le),
        two_runs(a, m, le),
        0 <= f,
        0 <= k,
        f + k <= m <= s <= a.len(),
        0 <= dest,
        dest + k <= p.len(),
        lo_ordered(a, le, p, dest, f, m, s),
        s < a.len() ==> forall|x: int| f <= x < f + k ==> le(#[trigger] a[x], a[s]),
    ensures
        lo_ordered(a, le, with_block(p, dest, f, k), dest + k, f + k, m, s),
{
    let q = with_block(p, dest, f, k);
    let n = a.len() as int;
    assert forall|i: int, j: int| 0 <= i < j < dest + k implies precedes(
        a,
        le,
        #[trigger] q[i],
        #[trigger] q[j],
    ) by {
        if j < dest {
        } else if i < dest {
            assert(precedes(a, le, p[i], f));
            if q[j] > f {
                lemma_precedes_in_run(a, le, 0, m, f, q[j]);
                lemma_precedes_chains(a, le, p[i], f, q[j]);
            }
        } else {
            lemma_precedes_in_run(a, le, 0, m, q[i], q[j]);
        }
    }
    if f + k < m {
        assert forall|i: int| 0 <= i < dest + k implies precedes(a, le, #[trigger] q[i], f + k) by {
            if i < dest {
                assert(precedes(a, le, p[i], f));
                if k > 0 {
                    lemma_precedes_in_run(a, le, 0, m, f, f + k);
                    lemma_precedes_chains(a, le, p[i], f, f + k);
                }
            } else {
                lemma_precedes_in_run(a, le, 0, m, q[i], f + k);
            }
        }
    }
    if s < n {
        assert forall|i: int| 0 <= i < dest + k implies precedes(a, le, #[trigger] q[i], s) by {
            if i >= dest {
                assert(le(a[q[i]], a[s]));
            }
        }
    }
}

/// The state of a merge that decides the slice front to back: which element
/// goes to which position is recorded, and the slice itself is left as it
/// is until the record is complete.
struct MergeLo<T> {
    list_len: usize,
    /// The next element of the first run.
    first_pos: usize,
    first_len: usize,
    /// The next element of the second run.
    second_pos: usize,
    /// The next position to decide.
    dest_pos: usize,
    /// For each position decided so far, where its element stands.
    order: Vec<usize>,
    /// The slice as it was when the merge began.
    orig: Ghost<Seq<T>>,
    /// `order` as numbers.
    placed: Ghost<Seq<int>>,
}

impl<T> MergeLo<T> {
    /// The slice is as it was. Of the positions decided so far, the first
    /// `dest_pos`, each takes an element that was passed in one of the two
    /// runs, those of each run in their order; every other position is
    /// recorded as taking its own.
    spec fn inv(&self, list: Seq<T>) -> bool {
        &&& list == self.orig@
        &&& self.inv_state()
    }

    /// What [`inv`](Self::inv) says of the state alone.
    spec fn inv_state(&self) -> bool {
        let a = self.orig@;
        let p = self.placed@;
        &&& a.len() == self.list_len
        &&& p.len() == self.list_len
        &&& self.order@.len() == self.list_len
        &&& self.first_pos <= self.first_len <= self.second_pos <= self.list_len
        &&& self.dest_pos + self.first_len == self.first_pos + self.second_pos
        &&& forall|i: int| 0 <= i < self.list_len ==> #[trigger] self.order@[i] == p[i]
        &&& forall|i: int|
            0 <= i < self.dest_pos ==> (0 <= #[trigger] p[i] < self.first_pos || self.first_len
                <= p[i] < self.second_pos)
        &&& forall|i: int, j: int|
            #![trigger p[i], p[j]]
            0 <= i < j < self.dest_pos && ((p[i] < self.first_len) == (p[j] < self.first_len))
                ==> p[i] < p[j]
        &&& forall|i: int| self.dest_pos <= i < self.list_len ==> #[trigger] p[i] == i
    }

    /// The first run.
    spec fn first(&self) -> Seq<T> {
        self.orig@.subrange(0, self.first_len as int)
    }

    /// What is left of the first run.
    spec fn rest_first(&self) -> Seq<T> {
        self.orig@.subrange(self.first_pos as int, self.first_len as int)
    }

    /// The front merged so far is in order: see [`lo_ordered`].
    spec fn ordered(&self, le: spec_fn(T, T) -> bool) -> bool {
        lo_ordered(
            self.orig@,
            le,
            self.placed@,
            self.dest_pos as int,
            self.first_pos as int,
            self.first_len as int,
            self.second_pos as int,
        )
    }

    /// The two runs were sorted when the merge began.
    spec fn began_sorted(&self, le: spec_fn(T, T) -> bool) -> bool {
        two_runs(self.orig@, self.first_len, le)
    }

    /// Nothing is left to compare: one of the two runs is used up.
    spec fn exhausted(&self) -> bool {
        self.first_pos == self.first_len || self.second_pos == self.list_len
    }

    /// This state belongs to the same merge as `other`.
    spec fn continues(&self, other: &Self) -> bool {
        &&& self.orig == other.orig
        &&& self.first_len == other.first_len
        &&& self.list_len == other.list_len
    }

    /// The slice that the merge began with.
    spec fn began_with(&self) -> Seq<T> {
        self.orig@
    }

    /// The length of the first run.
    spec fn first_run(&self) -> usize {
        self.first_len
    }

    /// Starts a merge of the first `first_len` elements of `list` with the
    /// rest.
    fn new(list: &[T], first_len: usize) -> (state: Self)
        requires
            first_len <= list@.len(),
        ensures
            state.inv(list@),
            state.began_with() == list@,
            state.first_run() == first_len,
            forall|le: spec_fn(T, T) -> bool| state.ordered(le),
    {
        let len = list.len();
        let order = identity_order(len);
        MergeLo {
            list_len: len,
            first_pos: 0,
            first_len: first_len,
            second_pos: first_len,
            dest_pos: 0,
            order: order,
            orig: Ghost(list@),
            placed: Ghost(Seq::new(list@.len(), |i: int| i)),
        }
    }

    /// The state after the next `k` elements of the second run were placed.
    spec fn took_second(&self, k: usize) -> Self {
        MergeLo {
            second_pos: (self.second_pos + k) as usize,
            dest_pos: (self.dest_pos + k) as usize,
            placed: Ghost(
                with_block(self.placed@, self.dest_pos as int, self.second_pos as int, k as int),
            ),
            ..*self
        }
    }

    /// The state after the next `k` elements of the first run were placed.
    spec fn took_first(&self, k: usize) -> Self {
        MergeLo {
            first_pos: (self.first_pos + k) as usize,
            dest_pos: (self.dest_pos + k) as usize,
            placed: Ghost(
                with_block(self.placed@, self.dest_pos as int, self.first_pos as int, k as int),
            ),
            ..*self
        }
    }

    /// The front stays in order when an element of the second run is placed
    /// that is smaller than the next of the first.
    proof fn lemma_took_second_one(self, list: Seq<T>, le: spec_fn(T, T) -> bool)
        requires
            self.inv(list),
            total_preorder(le),
            self.began_sorted(le),
            self.ordered(le),
            self.first_pos < self.first_len,
            self.second_pos < self.list_len,
            !le(self.first()[self.first_pos as int], list[self.second_pos as int]),
        ensures
            self.took_second(1).ordered(le),
    {
        lemma_lo_second_block(
            self.orig@,
            le,
            self.placed@,
            self.dest_pos as int,
            self.first_pos as int,
            self.first_len as int,
            self.second_pos as int,
            1,
        );
    }

    /// The front stays in order when an element of the first run is placed
    /// that is not greater than the next of the second.
    proof fn lemma_took_first_one(self, list: Seq<T>, le: spec_fn(T, T) -> bool)
        requires
            self.inv(list),
            total_preorder(le),
            self.began_sorted(le),
            self.ordered(le),
            self.first_pos < self.first_len,
            self.second_pos < self.list_len,
            le(self.first()[self.first_pos as int], list[self.second_pos as int]),
        ensures
            self.took_first(1).ordered(le),
    {
        lemma_lo_first_block(
            self.orig@,
            le,
            self.placed@,
            self.dest_pos as int,
            self.first_pos as int,
            self.first_len as int,
            self.second_pos as int,
            1,
        );
    }

    /// The front stays in order when those elements of the second run are
    /// placed that are smaller than the next of the first.
    proof fn lemma_took_second_block(self, list: Seq<T>, le: spec_fn(T, T) -> bool, k: usize)
        requires
            self.inv(list),
            total_preorder(le),
            self.began_sorted(le),
            self.ordered(le),
            self.first_pos < self.first_len,
            left_point(
                list.subrange(self.second_pos as int, self.list_len as int),
                self.first()[self.first_pos as int],
                le,
                k,
            ),
        ensures
            self.took_second(k).ordered(le),
    {
        let a = self.orig@;
        let s = self.second_pos as int;
        let f = self.first_pos as int;
        let right = list.subrange(s, self.list_len as int);
        assert forall|x: int| s <= x < s + k implies !le(a[f], #[trigger] a[x]) by {
            assert(right[x - s] == a[x]);
        }
        lemma_lo_second_block(
            a,
            le,
            self.placed@,
            self.dest_pos as int,
            f,
            self.first_len as int,
            s,
            k as int,
        );
    }

    /// The front stays in order when those elements of the first run are
    /// placed that are not greater than the next of the second.
    proof fn lemma_took_first_block(self, list: Seq<T>, le: spec_fn(T, T) -> bool, k: usize)
        requires
            self.inv(list),
            total_preorder(le),
            self.began_sorted(le),
            self.ordered(le),
            self.second_pos < self.list_len,
            right_point(self.rest_first(), list[self.second_pos as int], le, k),
        ensures
            self.took_first(k).ordered(le),
    {
        let a = self.orig@;
        let s = self.second_pos as int;
        let f = self.first_pos as int;
        let left = self.rest_first();
        assert forall|x: int| f <= x < f + k implies le(#[trigger] a[x], a[s]) by {
            assert(left[x - f] == a[x]);
        }
        lemma_lo_first_block(
            a,
            le,
            self.placed@,
            self.dest_pos as int,
            f,
            self.first_len as int,
            s,
            k as int,
        );
    }

    /// What is left of each run is sorted if the run was.
    proof fn lemma_rests_sorted(self, list: Seq<T>, le: spec_fn(T, T) -> bool)
        requires
            self.inv(list),
            self.began_sorted(le),
        ensures
            sorted(list.subrange(self.second_pos as int, self.list_len as int), le),
            sorted(self.rest_first(), le),
    {
        let a = self.orig@;
        let m = self.first_len as int;
        let n = self.list_len as int;
        let f = self.first_pos as int;
        let s = self.second_pos as int;
        let right = list.subrange(s, n);
        let left = self.rest_first();
        assert forall|i: int, j: int| 0 <= i < j < right.len() implies le(
            #[trigger] right[i],
            #[trigger] right[j],
        ) by {
            lemma_precedes_in_run(a, le, m, n, s + i, s + j);
        }
        assert forall|i: int, j: int| 0 <= i < j < left.len() implies le(
            #[trigger] left[i],
            #[trigger] left[j],
        ) by {
            lemma_precedes_in_run(a, le, 0, m, f + i, f + j);
        }
    }

    /// Merges until one of the two runs is used up: compares the next
    /// elements of the two one pair at a time, and once one run has won
    /// `MIN_GALLOP` times in a row, gallops: searches the second run for all
    /// that goes before the next element of the first and moves it in one
    /// piece, then the first run likewise, until one of the two searches
    /// finds no more than one element.
    #[verifier::rlimit(60)]
    fn merge<C: Fn(&T, &T) -> Ordering>(&mut self, list: &[T], c: &C)
        requires
            old(self).inv(list@),
            accepts(*c, old(self).began_with()),
            forall|le: spec_fn(T, T) -> bool|
                orders(*c, le) && old(self).began_sorted(le) ==> old(self).ordered(le),
        ensures
            final(self).inv(list@),
            final(self).continues(old(self)),
            final(self).exhausted(),
            forall|le: spec_fn(T, T) -> bool|
                orders(*c, le) && final(self).began_sorted(le) ==> final(self).ordered(le),
    {
        let mut first_count: usize = 0;
        let mut second_count: usize = 0;
        let mut galloping = false;
        while self.second_pos > self.dest_pos && self.second_pos < self.list_len
            invariant
                self.inv(list@),
                self.continues(old(self)),
                accepts(*c, self.began_with()),
                !galloping ==> first_count < MIN_GALLOP && second_count < MIN_GALLOP,
                forall|le: spec_fn(T, T) -> bool|
                    orders(*c, le) && self.began_sorted(le) ==> self.ordered(le),
            ensures
                self.exhausted(),
            decreases
                    self.list_len - self.dest_pos,
                    (if galloping {
                        1int
                    } else {
                        0int
                    }),
        {
            let ghost before = *self;
            let ghost list_before = list@;
            if !galloping {
                let ghost from_second: bool;
                match c(&list[self.first_pos], &list[self.second_pos]) {
                    Ordering::Greater => {
                        self.order[self.dest_pos] = self.second_pos;
                        self.second_pos += 1;
                        second_count += 1;
                        first_count = 0;
                        proof {
                            from_second = true;
                        }
                    },
                    _ => {
                        self.order[self.dest_pos] = self.first_pos;
                        self.first_pos += 1;
                        first_count += 1;
                        second_count = 0;
                        proof {
                            from_second = false;
                        }
                    },
                }
                self.dest_pos += 1;
                galloping = first_count >= MIN_GALLOP || second_count >= MIN_GALLOP;
                proof {
                    if from_second {
                        self.placed@ = before.took_second(1).placed@;
                    } else {
                        self.placed@ = before.took_first(1).placed@;
                    }
                    assert(self.inv(list@));
                    assert forall|le: spec_fn(T, T) -> bool|
                        orders(*c, le) && self.began_sorted(le) implies self.ordered(le) by {
                        if from_second {
                            before.lemma_took_second_one(list_before, le);
                        } else {
                            before.lemma_took_first_one(list_before, le);
                        }
                    }
                }
            } else {
                let (_, right) = list.split_at(self.second_pos);
                second_count = gallop_left_by(&list[self.first_pos], right, Mode::Forward, c);
                record(&mut self.order, self.dest_pos, self.second_pos, second_count);
                self.dest_pos += second_count;
                self.second_pos += second_count;
                proof {
                    self.placed@ = before.took_second(second_count).placed@;
                    assert(self.inv(list@));
                    assert forall|le: spec_fn(T, T) -> bool|
                        orders(*c, le) && self.began_sorted(le) implies self.ordered(le) by {
                        assert(orders(c, le));
                        before.lemma_rests_sorted(list_before, le);
                        before.lemma_took_second_block(list_before, le, second_count);
                    }
                }
                if self.second_pos > self.dest_pos && self.second_pos < self.list_len {
                    let ghost middle = *self;
                    let ghost list_between = list@;
                    let (_, rest) = list.split_at(self.first_pos);
                    let (left, _) = rest.split_at(self.first_len - self.first_pos);
                    proof {
                        assert(left@ =~= middle.rest_first());
                    }
                    first_count = gallop_right_by(&list[self.second_pos], left, Mode::Forward, c);
                    record(&mut self.order, self.dest_pos, self.first_pos, first_count);
                    self.dest_pos += first_count;
                    self.first_pos += first_count;
                    proof {
                        self.placed@ = middle.took_first(first_count).placed@;
                        assert(self.inv(list@));
                        assert forall|le: spec_fn(T, T) -> bool|
                            orders(*c, le) && self.began_sorted(le) implies self.ordered(le) by {
                            assert(orders(c, le));
                            middle.lemma_rests_sorted(list_between, le);
                            middle.lemma_took_first_block(list_between, le, first_count);
                        }
                    }
                }
                if first_count <= 1 || second_count <= 1 {
                    galloping = false;
                    first_count = 0;
                    second_count = 0;
                }
            }
        }
    }

    /// Completes the record: what is left of the first run goes to the
    /// positions that are still to decide before the second run, and what is
    /// left of the second run stays where it is. The rest of the record is
    /// left as it is.
    fn drain(&mut self)
        requires
            old(self).inv_state(),
        ensures
            final(self).continues(old(self)),
            final(self).order@.len() == old(self).order@.len(),
            forall|j: int|
                old(self).dest_pos <= j < old(self).dest_pos + (old(self).first_len
                    - old(self).first_pos) ==> #[trigger] final(self).order@[j] == old(self).first_pos + (j - old(self).dest_pos),
            forall|j: int|
                0 <= j < old(self).dest_pos || old(self).dest_pos + (old(self).first_len
                    - old(self).first_pos) <= j < old(self).list_len
                    ==> #[trigger] final(self).order@[j] == old(self).order@[j],
            positions(final(self).order@) == final(self).placed@,
            is_arrangement(final(self).placed@, old(self).list_len as nat),
            interleaved(final(self).placed@, old(self).first_len as int),
            forall|le: spec_fn(T, T) -> bool|
                total_preorder(le) && old(self).began_sorted(le) && old(self).ordered(le)
                    && old(self).exhausted() ==> in_order(old(self).began_with(), le, final(self).placed@),
    {
        let ghost a = self.orig@;
        let ghost placed = self.placed@;
        let ghost f = self.first_pos as int;
        let ghost s = self.second_pos as int;
        let ghost m = self.first_len as int;
        let ghost n = self.list_len as int;
        let ghost d = self.dest_pos as int;
        if self.first_pos < self.first_len {
            record(&mut self.order, self.dest_pos, self.first_pos, self.first_len - self.first_pos);
        }
        proof {
            let whole = with_block(placed, d, f, m - f);
            self.placed@ = whole;
            assert(positions(self.order@) =~= whole);
            assert(interleaved(whole, m)) by {
                assert forall|i: int, j: int|
                    #![trigger whole[i], whole[j]]
                    0 <= i < j < n && ((whole[i] < m) == (whole[j] < m)) implies whole[i]
                    < whole[j] by {}
            }
            assert(is_arrangement(whole, n as nat)) by {
                assert forall|i: int| 0 <= i < n implies 0 <= #[trigger] whole[i] < n by {}
                assert forall|i: int, j: int| 0 <= i < j < n implies whole[i] != whole[j] by {}
            }
            assert forall|le: spec_fn(T, T) -> bool|
                total_preorder(le) && old(self).began_sorted(le) && old(self).ordered(le)
                    && old(self).exhausted() implies in_order(a, le, whole) by {
                lemma_lo_first_block(a, le, placed, d, f, m, s, m - f);
                lemma_lo_second_block(a, le, whole, s, m, m, s, n - s);
                assert(with_block(whole, s, s, n - s) =~= whole);
            }
        }
        self.first_pos = self.first_len;
    }
}

/// What holds of the merged back when both runs of `a` were sorted: the
/// elements placed so far, from `dest_end` on, which came from the positions
/// that `p` names, stand in the order in which they belong, and each
/// belongs behind the last element left of either run: the one before `first_end` in the first, the one before
/// `second_end` in the second, which begins at `m`.
spec fn hi_ordered<T>(
    a: Seq<T>,
    le: spec_fn(T, T) -> bool,
    p: Seq<int>,
    dest_end: int,
    first_end: int,
    m: int,
    second_end: int,
) -> bool {
    &&& forall|i: int, j: int|
        dest_end <= i < j < a.len() ==> precedes(a, le, #[trigger] p[i],
            #[trigger] p[j],
        )
    &&& first_end > 0 ==> forall|i: int|
        dest_end <= i < a.len() ==> precedes(a, le, first_end - 1, #[trigger] p[i])
    &&& second_end > 0 ==> forall|i: int|
        dest_end <= i < a.len() ==> precedes(a, le, m + second_end - 1,
            #[trigger] p[i],
        )
}

/// Placing the last `k` elements left of the first run keeps the back in
/// order, if each of them is greater than the last element left of the
/// second run.
proof fn lemma_hi_first_block<T>(
    a: Seq<T>,
    le: spec_fn(T, T) -> bool,
    p: Seq<int>,
    dest_end: int,
    first_end: int,
    m: int,
    second_end: int,
    k: int,
)
    requires
        total_preorder(le),
        two_runs(a, m, le),
        0 <= k <= first_end <= m,
        0 <= second_end,
        m + second_end <= a.len(),
        k <= dest_end <= a.len(),
        p.len() == a.len(),
        hi_ordered(a, le, p, dest_end, first_end, m, second_end),
        second_end > 0 ==> forall|x: int|
            first_end - k <= x < first_end ==> !le(#[trigger] a[x], a[m + second_end - 1]),
    ensures
        hi_ordered(
            a,
            le,
            with_block(p, dest_end - k, first_end - k, k),
            dest_end - k,
            first_end - k,
            m,
            second_end,
        ),
{
    let q = with_block(p, dest_end - k, first_end - k, k);
    let n = a.len() as int;
    let last = first_end - 1;
    assert forall|i: int, j: int| dest_end - k <= i < j < n implies precedes(a, le, #[trigger] q[i],
        #[trigger] q[j],
    ) by {
        if i >= dest_end {
        } else if j >= dest_end {
            assert(precedes(a, le, last, p[j]));
            if q[i] < last {
                lemma_precedes_in_run(a, le, 0, m, q[i], last);
                lemma_precedes_chains(a, le, q[i], last, p[j]);
            }
        } else {
            lemma_precedes_in_run(a, le, 0, m, q[i], q[j]);
        }
    }
    if first_end - k > 0 {
        let next = first_end - k - 1;
        assert forall|i: int| dest_end - k <= i < n implies precedes(a, le, next,
            #[trigger] q[i],
        ) by {
            if i >= dest_end {
                assert(precedes(a, le, last, p[i]));
                if k > 0 {
                    lemma_precedes_in_run(a, le, 0, m, next, last);
                    lemma_precedes_chains(a, le, next, last, p[i]);
                }
            } else {
                lemma_precedes_in_run(a, le, 0, m, next, q[i]);
            }
        }
    }
    if second_end > 0 {
        assert forall|i: int| dest_end - k <= i < n implies precedes(a, le, m + second_end - 1,
            #[trigger] q[i],
        ) by {
            if i < dest_end {
                assert(!le(a[q[i]], a[m + second_end - 1]));
            }
        }
    }
}

/// Placing the last `k` elements left of the second run keeps the back in
/// order, if none of them is smaller than the last element left of the
/// first run.
proof fn lemma_hi_second_block<T>(
    a: Seq<T>,
    le: spec_fn(T, T) -> bool,
    p: Seq<int>,
    dest_end: int,
    first_end: int,
    m: int,
    second_end: int,
    k: int,
)
    requires
        total_preorder(le),
        two_runs(a, m, le),
        0 <= first_end <= m,
        0 <= k <= second_end,
        m + second_end <= a.len(),
        k <= dest_end <= a.len(),
        p.len() == a.len(),
        hi_ordered(a, le, p, dest_end, first_end, m, second_end),
        first_end > 0 ==> forall|x: int|
            m + second_end - k <= x < m + second_end ==> le(a[first_end - 1], #[trigger] a[x]),
    ensures
        hi_ordered(
            a,
            le,
            with_block(p, dest_end - k, m + second_end - k, k),
            dest_end - k,
            first_end,
            m,
            second_end - k,
        ),
{
    let q = with_block(p, dest_end - k, m + second_end - k, k);
    let n = a.len() as int;
    let last = m + second_end - 1;
    assert forall|i: int, j: int| dest_end - k <= i < j < n implies precedes(a, le, #[trigger] q[i],
        #[trigger] q[j],
    ) by {
        if i >= dest_end {
        } else if j >= dest_end {
            assert(precedes(a, le, last, p[j]));
            if q[i] < last {
                lemma_precedes_in_run(a, le, m, n, q[i], last);
                lemma_precedes_chains(a, le, q[i], last, p[j]);
            }
        } else {
            lemma_precedes_in_run(a, le, m, n, q[i], q[j]);
        }
    }
    if second_end - k > 0 {
        let next = m + second_end - k - 1;
        assert forall|i: int| dest_end - k <= i < n implies precedes(a, le, next,
            #[trigger] q[i],
        ) by {
            if i >= dest_end {
                assert(precedes(a, le, last, p[i]));
                if k > 0 {
                    lemma_precedes_in_run(a, le, m, n, next, last);
                    lemma_precedes_chains(a, le, next, last, p[i]);
                }
            } else {
                lemma_precedes_in_run(a, le, m, n, next, q[i]);
            }
        }
    }
    if first_end > 0 {
        assert forall|i: int| dest_end - k <= i < n implies precedes(a, le, first_end - 1,
            #[trigger] q[i],
        ) by {
            if i < dest_end {
                assert(le(a[first_end - 1], a[q[i]]));
            }
        }
    }
}

/// The state of a merge that decides the slice back to front: which element
/// goes to which position is recorded, and the slice itself is left as it
/// is until the record is complete.
struct MergeHi<T> {
    list_len: usize,
    first_len: usize,
    /// How many elements of the first run are left.
    first_end: usize,
    /// How many elements of the second run are left.
    second_end: usize,
    /// Where the positions that are still to decide end.
    dest_end: usize,
    /// For each position decided so far, where its element stands.
    order: Vec<usize>,
    /// The slice as it was when the merge began.
    orig: Ghost<Seq<T>>,
    /// `order` as numbers.
    placed: Ghost<Seq<int>>,
}

impl<T> MergeHi<T> {
    /// The slice is as it was. Of the positions decided so far, those from
    /// `dest_end` on, each takes an element that was passed in one of the two
    /// runs, those of each run in their order; every other position is
    /// recorded as taking its own.
    spec fn inv(&self, list: Seq<T>) -> bool {
        &&& list == self.orig@
        &&& self.inv_state()
    }

    /// What [`inv`](Self::inv) says of the state alone.
    spec fn inv_state(&self) -> bool {
        let a = self.orig@;
        let p = self.placed@;
        &&& a.len() == self.list_len
        &&& p.len() == self.list_len
        &&& self.order@.len() == self.list_len
        &&& self.first_end <= self.first_len <= self.list_len
        &&& self.second_end <= self.list_len - self.first_len
        &&& self.dest_end == self.first_end + self.second_end
        &&& forall|i: int| 0 <= i < self.list_len ==> #[trigger] self.order@[i] == p[i]
        &&& forall|i: int|
            self.dest_end <= i < self.list_len ==> (self.first_end <= #[trigger] p[i]
                < self.first_len || self.first_len + self.second_end <= p[i] < self.list_len)
        &&& forall|i: int, j: int|
            #![trigger p[i], p[j]]
            self.dest_end <= i < j < self.list_len && ((p[i] < self.first_len) == (p[j]
                < self.first_len)) ==> p[i] < p[j]
        &&& forall|i: int| 0 <= i < self.dest_end ==> #[trigger] p[i] == i
    }

    /// The second run.
    spec fn second(&self) -> Seq<T> {
        self.orig@.subrange(self.first_len as int, self.list_len as int)
    }

    /// What is left of the second run.
    spec fn rest_second(&self) -> Seq<T> {
        self.orig@.subrange(self.first_len as int, self.first_len + self.second_end)
    }

    /// The back merged so far is in order: see [`hi_ordered`].
    spec fn ordered(&self, le: spec_fn(T, T) -> bool) -> bool {
        hi_ordered(
            self.orig@,
            le,
            self.placed@,
            self.dest_end as int,
            self.first_end as int,
            self.first_len as int,
            self.second_end as int,
        )
    }

    /// The two runs were sorted when the merge began.
    spec fn began_sorted(&self, le: spec_fn(T, T) -> bool) -> bool {
        two_runs(self.orig@, self.first_len, le)
    }

    /// Nothing is left to compare: one of the two runs is used up.
    spec fn exhausted(&self) -> bool {
        self.first_end == 0 || self.second_end == 0
    }

    /// This state belongs to the same merge as `other`.
    spec fn continues(&self, other: &Self) -> bool {
        &&& self.orig == other.orig
        &&& self.first_len == other.first_len
        &&& self.list_len == other.list_len
    }

    /// The slice that the merge began with.
    spec fn began_with(&self) -> Seq<T> {
        self.orig@
    }

    /// The length of the first run.
    spec fn first_run(&self) -> usize {
        self.first_len
    }

    /// The state after the last `k` elements left of the first run were
    /// placed.
    spec fn took_first(&self, k: usize) -> Self {
        MergeHi {
            first_end: (self.first_end - k) as usize,
            dest_end: (self.dest_end - k) as usize,
            placed: Ghost(
                with_block(self.placed@, self.dest_end - k, self.first_end - k, k as int),
            ),
            ..*self
        }
    }

    /// The state after the last `k` elements left of the second run were
    /// placed.
    spec fn took_second(&self, k: usize) -> Self {
        MergeHi {
            second_end: (self.second_end - k) as usize,
            dest_end: (self.dest_end - k) as usize,
            placed: Ghost(
                with_block(
                    self.placed@,
                    self.dest_end - k,
                    self.first_len + self.second_end - k,
                    k as int,
                ),
            ),
            ..*self
        }
    }

    /// The back stays in order when the last element of the second run is
    /// placed and is not smaller than the last of the first.
    proof fn lemma_took_second_one(self, list: Seq<T>, le: spec_fn(T, T) -> bool)
        requires
            self.inv(list),
            total_preorder(le),
            self.began_sorted(le),
            self.ordered(le),
            self.first_end > 0,
            self.second_end > 0,
            le(list[self.first_end - 1], self.second()[self.second_end - 1]),
        ensures
            self.took_second(1).ordered(le),
    {
        lemma_hi_second_block(
            self.orig@,
            le,
            self.placed@,
            self.dest_end as int,
            self.first_end as int,
            self.first_len as int,
            self.second_end as int,
            1,
        );
    }

    /// The back stays in order when the last element of the first run is
    /// placed and is greater than the last of the second.
    proof fn lemma_took_first_one(self, list: Seq<T>, le: spec_fn(T, T) -> bool)
        requires
            self.inv(list),
            total_preorder(le),
            self.began_sorted(le),
            self.ordered(le),
            self.first_end > 0,
            self.second_end > 0,
            !le(list[self.first_end - 1], self.second()[self.second_end - 1]),
        ensures
            self.took_first(1).ordered(le),
    {
        lemma_hi_first_block(
            self.orig@,
            le,
            self.placed@,
            self.dest_end as int,
            self.first_end as int,
            self.first_len as int,
            self.second_end as int,
            1,
        );
    }

    /// The back stays in order when those elements of the first run are
    /// placed that are greater than the last of the second: those from `g`
    /// on.
    proof fn lemma_took_first_block(self, list: Seq<T>, le: spec_fn(T, T) -> bool, g: usize)
        requires
            self.inv(list),
            total_preorder(le),
            self.began_sorted(le),
            self.ordered(le),
            self.second_end > 0,
            g <= self.first_end,
            right_point(
                list.subrange(0, self.first_end as int),
                self.second()[self.second_end - 1],
                le,
                g,
            ),
        ensures
            self.took_first((self.first_end - g) as usize).ordered(le),
    {
        let a = self.orig@;
        let fe = self.first_end as int;
        let left = list.subrange(0, fe);
        let key = a[self.first_len + self.second_end - 1];
        assert forall|x: int| g <= x < fe implies !le(#[trigger] a[x], key) by {
            assert(left[x] == a[x]);
        }
        lemma_hi_first_block(
            a,
            le,
            self.placed@,
            self.dest_end as int,
            fe,
            self.first_len as int,
            self.second_end as int,
            fe - g,
        );
    }

    /// The back stays in order when those elements of the second run are
    /// placed that are not smaller than the last of the first: those from
    /// `g` on.
    proof fn lemma_took_second_block(self, list: Seq<T>, le: spec_fn(T, T) -> bool, g: usize)
        requires
            self.inv(list),
            total_preorder(le),
            self.began_sorted(le),
            self.ordered(le),
            self.first_end > 0,
            g <= self.second_end,
            left_point(self.rest_second(), list[self.first_end - 1], le, g),
        ensures
            self.took_second((self.second_end - g) as usize).ordered(le),
    {
        let a = self.orig@;
        let m = self.first_len as int;
        let se = self.second_end as int;
        let rest = self.rest_second();
        let key = a[self.first_end - 1];
        assert forall|x: int| m + g <= x < m + se implies le(key, #[trigger] a[x]) by {
            assert(rest[x - m] == a[x]);
        }
        lemma_hi_second_block(
            a,
            le,
            self.placed@,
            self.dest_end as int,
            self.first_end as int,
            m,
            se,
            se - g,
        );
    }

    /// What is left of each run is sorted if the run was.
    proof fn lemma_rests_sorted(self, list: Seq<T>, le: spec_fn(T, T) -> bool)
        requires
            self.inv(list),
            self.began_sorted(le),
        ensures
            sorted(list.subrange(0, self.first_end as int), le),
            sorted(self.rest_second(), le),
    {
        let a = self.orig@;
        let m = self.first_len as int;
        let n = self.list_len as int;
        let left = list.subrange(0, self.first_end as int);
        let rest = self.rest_second();
        assert forall|i: int, j: int| 0 <= i < j < left.len() implies le(
            #[trigger] left[i],
            #[trigger] left[j],
        ) by {
            lemma_precedes_in_run(a, le, 0, m, i, j);
        }
        assert forall|i: int, j: int| 0 <= i < j < rest.len() implies le(
            #[trigger] rest[i],
            #[trigger] rest[j],
        ) by {
            lemma_precedes_in_run(a, le, m, n, m + i, m + j);
        }
    }

    /// Starts a merge of the first `first_len` elements of `list` with the
    /// `second_len` that follow.
    fn new(list: &[T], first_len: usize, second_len: usize) -> (state: Self)
        requires
            first_len + second_len == list@.len(),
        ensures
            state.inv(list@),
            state.began_with() == list@,
            state.first_run() == first_len,
            forall|le: spec_fn(T, T) -> bool| state.ordered(le),
    {
        let len = list.len();
        let order = identity_order(len);
        MergeHi {
            list_len: len,
            first_len: first_len,
            first_end: first_len,
            second_end: second_len,
            dest_end: len,
            order: order,
            orig: Ghost(list@),
            placed: Ghost(Seq::new(list@.len(), |i: int| i)),
        }
    }

    /// Merges until one of the two runs is used up: compares the last
    /// elements left of the two one pair at a time, and once one run has won
    /// `MIN_GALLOP` times in a row, gallops: searches the first run for all
    /// that goes behind the last element of the second and moves it in one
    /// piece, then the second run likewise, until one of the two searches
    /// finds no more than one element.
    ///
    /// Of two elements that compare equal, the one of the second run is
    /// placed first, and so comes to stand behind the one of the first.
    #[verifier::rlimit(60)]
    fn merge<C: Fn(&T, &T) -> Ordering>(&mut self, list: &[T], c: &C)
        requires
            old(self).inv(list@),
            accepts(*c, old(self).began_with()),
            forall|le: spec_fn(T, T) -> bool|
                orders(*c, le) && old(self).began_sorted(le) ==> old(self).ordered(le),
        ensures
            final(self).inv(list@),
            final(self).continues(old(self)),
            final(self).exhausted(),
            forall|le: spec_fn(T, T) -> bool|
                orders(*c, le) && final(self).began_sorted(le) ==> final(self).ordered(le),
    {
        let mut first_count: usize = 0;
        let mut second_count: usize = 0;
        let mut galloping = false;
        while self.first_end > 0 && self.second_end > 0
            invariant
                self.inv(list@),
                self.continues(old(self)),
                accepts(*c, self.began_with()),
                !galloping ==> first_count < MIN_GALLOP && second_count < MIN_GALLOP,
                forall|le: spec_fn(T, T) -> bool|
                    orders(*c, le) && self.began_sorted(le) ==> self.ordered(le),
            ensures
                self.exhausted(),
            decreases
                    self.dest_end,
                    (if galloping {
                        1int
                    } else {
                        0int
                    }),
        {
            let ghost before = *self;
            let ghost list_before = list@;
            if !galloping {
                let ghost from_second: bool;
                match c(&list[self.first_len + self.second_end - 1], &list[self.first_end - 1]) {
                    Ordering::Less => {
                        self.order[self.dest_end - 1] = self.first_end - 1;
                        self.first_end -= 1;
                        first_count += 1;
                        second_count = 0;
                        proof {
                            from_second = false;
                        }
                    },
                    _ => {
                        self.order[self.dest_end - 1] = self.first_len + self.second_end - 1;
                        self.second_end -= 1;
                        second_count += 1;
                        first_count = 0;
                        proof {
                            from_second = true;
                        }
                    },
                }
                self.dest_end -= 1;
                galloping = first_count >= MIN_GALLOP || second_count >= MIN_GALLOP;
                proof {
                    if from_second {
                        self.placed@ = before.took_second(1).placed@;
                    } else {
                        self.placed@ = before.took_first(1).placed@;
                    }
                    assert(self.inv(list@));
                    assert forall|le: spec_fn(T, T) -> bool|
                        orders(*c, le) && self.began_sorted(le) implies self.ordered(le) by {
                        if from_second {
                            before.lemma_took_second_one(list_before, le);
                        } else {
                            before.lemma_took_first_one(list_before, le);
                        }
                    }
                }
            } else {
                let (left, _) = list.split_at(self.first_end);
                let stay = gallop_right_by(
                    &list[self.first_len + self.second_end - 1],
                    left,
                    Mode::Reverse,
                    c,
                );
                first_count = self.first_end - stay;
                record(
                    &mut self.order,
                    self.dest_end - first_count,
                    self.first_end - first_count,
                    first_count,
                );
                self.dest_end -= first_count;
                self.first_end -= first_count;
                proof {
                    self.placed@ = before.took_first(first_count).placed@;
                    assert(self.inv(list@));
                    assert forall|le: spec_fn(T, T) -> bool|
                        orders(*c, le) && self.began_sorted(le) implies self.ordered(le) by {
                        assert(orders(c, le));
                        before.lemma_rests_sorted(list_before, le);
                        before.lemma_took_first_block(list_before, le, stay);
                    }
                }
                if self.first_end > 0 && self.second_end > 0 {
                    let ghost middle = *self;
                    let ghost list_between = list@;
                    let (_, second) = list.split_at(self.first_len);
                    let (rest, _) = second.split_at(self.second_end);
                    proof {
                        assert(rest@ =~= middle.rest_second());
                    }
                    let stay = gallop_left_by(&list[self.first_end - 1], rest, Mode::Reverse, c);
                    second_count = self.second_end - stay;
                    record(
                        &mut self.order,
                        self.dest_end - second_count,
                        self.first_len + self.second_end - second_count,
                        second_count,
                    );
                    self.dest_end -= second_count;
                    self.second_end -= second_count;
                    proof {
                        self.placed@ = middle.took_second(second_count).placed@;
                        assert(self.inv(list@));
                        assert forall|le: spec_fn(T, T) -> bool|
                            orders(*c, le) && self.began_sorted(le) implies self.ordered(le) by {
                            assert(orders(c, le));
                            middle.lemma_rests_sorted(list_between, le);
                            middle.lemma_took_second_block(list_between, le, stay);
                        }
                    }
                }
                if first_count <= 1 || second_count <= 1 {
                    galloping = false;
                    first_count = 0;
                    second_count = 0;
                }
            }
        }
    }

    /// Completes the record: what is left of the second run goes to the
    /// positions that are still to decide behind the first run, and what is
    /// left of the first run stays where it is. The rest of the record is
    /// left as it is.
    fn drain(&mut self)
        requires
            old(self).inv_state(),
        ensures
            final(self).continues(old(self)),
            final(self).order@.len() == old(self).order@.len(),
            forall|j: int|
                old(self).first_end <= j < old(self).dest_end ==> #[trigger] final(self).order@[j]
                    == old(self).first_len + (j - old(self).first_end),
            forall|j: int|
                0 <= j < old(self).first_end || old(self).dest_end <= j < old(self).list_len
                    ==> #[trigger] final(self).order@[j] == old(self).order@[j],
            positions(final(self).order@) == final(self).placed@,
            is_arrangement(final(self).placed@, old(self).list_len as nat),
            interleaved(final(self).placed@, old(self).first_len as int),
            forall|le: spec_fn(T, T) -> bool|
                total_preorder(le) && old(self).began_sorted(le) && old(self).ordered(le)
                    && old(self).exhausted() ==> in_order(old(self).began_with(), le, final(self).placed@),
    {
        let ghost a = self.orig@;
        let ghost placed = self.placed@;
        let ghost fe = self.first_end as int;
        let ghost se = self.second_end as int;
        let ghost m = self.first_len as int;
        let ghost n = self.list_len as int;
        let ghost d = self.dest_end as int;
        if self.second_end > 0 {
            record(&mut self.order, self.first_end, self.first_len, self.second_end);
        }
        proof {
            let whole = with_block(placed, fe, m, se);
            self.placed@ = whole;
            assert(positions(self.order@) =~= whole);
            assert(interleaved(whole, m)) by {
                assert forall|i: int, j: int|
                    #![trigger whole[i], whole[j]]
                    0 <= i < j < n && ((whole[i] < m) == (whole[j] < m)) implies whole[i]
                    < whole[j] by {}
            }
            assert(is_arrangement(whole, n as nat)) by {
                assert forall|i: int| 0 <= i < n implies 0 <= #[trigger] whole[i] < n by {}
                assert forall|i: int, j: int| 0 <= i < j < n implies whole[i] != whole[j] by {}
            }
            assert forall|le: spec_fn(T, T) -> bool|
                total_preorder(le) && old(self).began_sorted(le) && old(self).ordered(le)
                    && old(self).exhausted() implies in_order(a, le, whole) by {
                lemma_hi_second_block(a, le, placed, d, fe, m, se, se);
                lemma_hi_first_block(a, le, whole, fe, fe, m, 0, fe);
                assert(with_block(whole, 0, 0, fe) =~= whole);
            }
        }
        self.second_end = 0;
    }
}

/// Merges the first `first_len` elements of `list` with the rest, deciding
/// the slice front to back. Of two elements that compare equal, the one of
/// the first run comes first.
///
/// The comparator is called while the slice stands as it was; the elements
/// are then brought into their order by exchanges.
pub fn merge_lo<T, C: Fn(&T, &T) -> Ordering>(list: &mut [T], first_len: usize, c: C)
    requires
        first_len <= old(list)@.len(),
        accepts(c, old(list)@),
    ensures
        final(list)@.len() == old(list)@.len(),
        final(list)@.to_multiset() == old(list)@.to_multiset(),
        interleaves(old(list)@, final(list)@, first_len),
        forall|le: spec_fn(T, T) -> bool| #[trigger]
            orders(c, le) && two_runs(old(list)@, first_len, le) ==> sorted(final(list)@, le)
                && stable(old(list)@, final(list)@, le),
{
    let mut state = MergeLo::new(list, first_len);
    state.merge(list, &c);
    state.drain();
    arrange(list, &mut state.order);
    proof {
        lemma_rearranged_multiset(old(list)@, list@, state.placed@);
        assert forall|le: spec_fn(T, T) -> bool| #[trigger]
            orders(c, le) && two_runs(old(list)@, first_len, le) implies sorted(list@, le)
            && stable(old(list)@, list@, le) by {
            lemma_in_order(old(list)@, list@, le, state.placed@);
        }
    }
}

/// Merges the first `first_len` elements of `list` with the `second_len`
/// that follow, deciding the slice back to front. Of two elements that
/// compare equal, the one of the first run comes first.
///
/// The comparator is called while the slice stands as it was; the elements
/// are then brought into their order by exchanges.
pub fn merge_hi<T, C: Fn(&T, &T) -> Ordering>(
    list: &mut [T],
    first_len: usize,
    second_len: usize,
    c: C,
)
    requires
        first_len + second_len == old(list)@.len(),
        accepts(c, old(list)@),
    ensures
        final(list)@.len() == old(list)@.len(),
        final(list)@.to_multiset() == old(list)@.to_multiset(),
        interleaves(old(list)@, final(list)@, first_len),
        forall|le: spec_fn(T, T) -> bool| #[trigger]
            orders(c, le) && two_runs(old(list)@, first_len, le) ==> sorted(final(list)@, le)
                && stable(old(list)@, final(list)@, le),
{
    let mut state = MergeHi::new(list, first_len, second_len);
    state.merge(list, &c);
    state.drain();
    arrange(list, &mut state.order);
    proof {
        lemma_rearranged_multiset(old(list)@, list@, state.placed@);
        assert forall|le: spec_fn(T, T) -> bool| #[trigger]
            orders(c, le) && two_runs(old(list)@, first_len, le) implies sorted(list@, le)
            && stable(old(list)@, list@, le) by {
            lemma_in_order(old(list)@, list@, le, state.placed@);
        }
    }
}

/// Merges the two sorted runs that `list` consists of, its first `first_len`
/// elements and the rest, into one: through [`merge_lo`] where the first run
/// is not the longer one, through [`merge_hi`] where it is. Elements that
/// compare equal keep their order.
///
/// Whatever `c` answers, and whether the runs were sorted or not, `list`
/// holds afterwards the elements that it held, those of each run in the
/// order that they had.
pub fn merge_by<T, C: Fn(&T, &T) -> Ordering>(list: &mut [T], first_len: usize, c: C)
    requires
        first_len <= old(list)@.len(),
        accepts(c, old(list)@),
    ensures
        final(list)@.len() == old(list)@.len(),
        final(list)@.to_multiset() == old(list)@.to_multiset(),
        interleaves(old(list)@, final(list)@, first_len),
        forall|le: spec_fn(T, T) -> bool| #[trigger]
            orders(c, le) && two_runs(old(list)@, first_len, le) ==> sorted(final(list)@, le)
                && stable(old(list)@, final(list)@, le),
{
    let second_len = list.len() - first_len;
    if first_len <= second_len {
        merge_lo(list, first_len, c);
    } else {
        merge_hi(list, first_len, second_len, c);
    }
}

/// [`merge_by`] with the order that `T` has by `Ord`.
pub fn merge<T: Ord>(list: &mut [T], first_len: usize)
    requires
        first_len <= old(list)@.len(),
    ensures
        final(list)@.len() == old(list)@.len(),
        final(list)@.to_multiset() == old(list)@.to_multiset(),
        interleaves(old(list)@, final(list)@, first_len),
        ord_total::<T>() && two_runs(old(list)@, first_len, ord_le::<T>()) ==> sorted(
            final(list)@,
            ord_le::<T>(),
        ) && stable(old(list)@, final(list)@, ord_le::<T>()),
{
    let c = |a: &T, b: &T| -> (o: Ordering)
        ensures
            T::obeys_cmp_spec() ==> o == a.cmp_spec(b),
        { a.cmp(b) };
    merge_by(list, first_len, c);
    proof {
        if ord_total::<T>() {
            assert(orders(c, ord_le::<T>()));
        }
    }
}

} // verus!
