//! Rearrangements: which element of a sequence went where.

use vstd::prelude::*;
use crate::order::{precedes, sorted};

verus! {

broadcast use vstd::seq_lib::group_to_multiset_ensures;

/// `p` names each position below `n` at most once, and nothing else: with
/// its length `n`, it names each exactly once.
pub open spec fn is_arrangement(p: Seq<int>, n: nat) -> bool {
    &&& p.len() == n
    &&& forall|i: int| 0 <= i < n ==> 0 <= #[trigger] p[i] < n
    &&& forall|i: int, j: int| 0 <= i < j < n ==> p[i] != p[j]
}

/// `b` holds the elements of `a` in another order: the element at `i` of `b`
/// is the one that stood at `p[i]` in `a`.
pub open spec fn rearranged<T>(a: Seq<T>, b: Seq<T>, p: Seq<int>) -> bool {
    &&& is_arrangement(p, a.len())
    &&& b.len() == a.len()
    &&& forall|i: int| 0 <= i < b.len() ==> #[trigger] b[i] == a[p[i]]
}

/// Among elements that `le` ranks equal, `p` keeps the order they had:
/// of two such, the one that comes first came from the earlier position.
pub open spec fn keeps_ties<T>(a: Seq<T>, p: Seq<int>, le: spec_fn(T, T) -> bool) -> bool {
    forall|i: int, j: int|
        0 <= i < j < p.len() && le(a[#[trigger] p[i]], a[#[trigger] p[j]]) && le(a[p[j]], a[p[i]])
            ==> p[i] < p[j]
}

/// `b` is `a` rearranged so that elements which `le` ranks equal stand in
/// the order they had in `a`.
pub open spec fn stable<T>(a: Seq<T>, b: Seq<T>, le: spec_fn(T, T) -> bool) -> bool {
    exists|p: Seq<int>| rearranged(a, b, p) && keeps_ties(a, p, le)
}

/// `p` keeps the order among the first `m` positions, and among the rest:
/// of two positions on the same side of `m`, it names the earlier first.
pub open spec fn interleaved(p: Seq<int>, m: int) -> bool {
    forall|i: int, j: int|
        #![trigger p[i], p[j]]
        0 <= i < j < p.len() && ((p[i] < m) == (p[j] < m)) ==> p[i] < p[j]
}

/// `b` is the first `first_len` elements of `a` interleaved with the rest:
/// it holds the elements of `a`, those of each of the two parts in the order
/// that they had.
pub open spec fn interleaves<T, I: Integer>(a: Seq<T>, b: Seq<T>, first_len: I) -> bool {
    let m = first_len as int;
    exists|p: Seq<int>| #[trigger] rearranged(a, b, p) && interleaved(p, m)
}

/// No element among the first `first_len` of `a` ranks equal to one of the
/// rest.
pub open spec fn no_ties_across<T, I: Integer>(
    a: Seq<T>,
    first_len: I,
    le: spec_fn(T, T) -> bool,
) -> bool {
    let m = first_len as int;
    forall|i: int, j: int|
        0 <= i < m <= j < a.len() ==> !(le(#[trigger] a[i], #[trigger] a[j]) && le(a[j], a[i]))
}

/// An interleaving of two parts keeps the order of elements that rank equal
/// if no element of the one part ranks equal to one of the other.
pub proof fn lemma_interleaves_stable<T, I: Integer>(
    a: Seq<T>,
    b: Seq<T>,
    first_len: I,
    le: spec_fn(T, T) -> bool,
)
    requires
        interleaves(a, b, first_len),
        no_ties_across(a, first_len, le),
    ensures
        stable(a, b, le),
{
    let m = first_len as int;
    let p = choose|p: Seq<int>| #[trigger] rearranged(a, b, p) && interleaved(p, m);
    assert forall|i: int, j: int|
        0 <= i < j < p.len() && le(a[#[trigger] p[i]], a[#[trigger] p[j]]) && le(
            a[p[j]],
            a[p[i]],
        ) implies p[i] < p[j] by {
        if (p[i] < m) != (p[j] < m) {
            if p[i] < m {
                assert(!(le(a[p[i]], a[p[j]]) && le(a[p[j]], a[p[i]])));
            } else {
                assert(!(le(a[p[j]], a[p[i]]) && le(a[p[i]], a[p[j]])));
            }
        }
    }
    assert(keeps_ties(a, p, le));
}

/// The identity arrangement of `n` positions.
pub open spec fn identity(n: nat) -> Seq<int> {
    Seq::new(n, |i: int| i)
}

/// A rearrangement keeps every element, as often as it occurred.
pub proof fn lemma_rearranged_multiset<T>(a: Seq<T>, b: Seq<T>, p: Seq<int>)
    requires
        rearranged(a, b, p),
    ensures
        a.to_multiset() == b.to_multiset(),
    decreases a.len(),
{
    if a.len() == 0 {
        assert(a =~= b);
    } else {
        let n = a.len() as int;
        let k = p[n - 1];
        let a_rest = a.remove(k);
        let b_rest = b.drop_last();
        let p_rest = Seq::new(
            (n - 1) as nat,
            |i: int|
                if p[i] > k {
                    p[i] - 1
                } else {
                    p[i]
                },
        );
        assert forall|i: int| 0 <= i < n - 1 implies 0 <= #[trigger] p_rest[i] < n - 1 by {
            assert(p[i] != p[n - 1]);
        }
        assert forall|i: int, j: int| 0 <= i < j < n - 1 implies p_rest[i] != p_rest[j] by {
            assert(p[i] != p[j]);
            assert(p[i] != p[n - 1]);
            assert(p[j] != p[n - 1]);
        }
        assert forall|i: int| 0 <= i < b_rest.len() implies #[trigger] b_rest[i] == a_rest[p_rest[i]] by {
            assert(b_rest[i] == b[i]);
            assert(p[i] != p[n - 1]);
        }
        lemma_rearranged_multiset(a_rest, b_rest, p_rest);
        assert(b =~= b_rest.push(b[n - 1]));
        assert(a_rest.to_multiset() == a.to_multiset().remove(a[k]));
        assert(a.to_multiset().count(a[k]) > 0);
        assert(a.to_multiset() =~= a_rest.to_multiset().insert(a[k]));
        assert(b.to_multiset() =~= b_rest.to_multiset().insert(b[n - 1]));
    }
}

/// `p` names the positions of `a` in the order in which their elements
/// belong.
pub open spec fn in_order<T>(a: Seq<T>, le: spec_fn(T, T) -> bool, p: Seq<int>) -> bool {
    forall|i: int, j: int| 0 <= i < j < p.len() ==> precedes(a, le, #[trigger] p[i], #[trigger] p[j])
}

/// Elements that stand in the order in which they belong are sorted, and
/// those that rank equal have kept their order.
pub proof fn lemma_in_order<T>(a: Seq<T>, b: Seq<T>, le: spec_fn(T, T) -> bool, p: Seq<int>)
    requires
        rearranged(a, b, p),
        in_order(a, le, p),
    ensures
        sorted(b, le),
        keeps_ties(a, p, le),
        stable(a, b, le),
{
    assert forall|i: int, j: int| 0 <= i < j < b.len() implies le(
        #[trigger] b[i],
        #[trigger] b[j],
    ) by {
        assert(precedes(a, le, p[i], p[j]));
    }
}

/// Exchanges the elements at `i` and `j`.
pub fn swap_at<T>(list: &mut [T], i: usize, j: usize)
    requires
        i < j < old(list)@.len(),
    ensures
        final(list)@ == old(list)@.update(i as int, old(list)@[j as int]).update(
            j as int,
            old(list)@[i as int],
        ),
{
    let (front, back) = list.split_at_mut(j);
    core::mem::swap(&mut front[i], &mut back[0]);
    assert(list@ =~= old(list)@.update(i as int, old(list)@[j as int]).update(
        j as int,
        old(list)@[i as int],
    ));
}

/// `p` with the entries at `i` and `j` exchanged.
pub open spec fn exchanged<I: Integer, J: Integer>(p: Seq<int>, i: I, j: J) -> Seq<int> {
    p.update(i as int, p[j as int]).update(j as int, p[i as int])
}

/// Exchanging two elements of a rearrangement gives the rearrangement in
/// which the two entries are exchanged.
pub proof fn lemma_exchange_rearranged<T, I: Integer, J: Integer>(
    a: Seq<T>,
    b: Seq<T>,
    p: Seq<int>,
    i: I,
    j: J,
)
    requires
        rearranged(a, b, p),
        0 <= (i as int) < b.len(),
        0 <= (j as int) < b.len(),
    ensures
        rearranged(
            a,
            b.update(i as int, b[j as int]).update(j as int, b[i as int]),
            exchanged(p, i, j),
        ),
{
    let q = exchanged(p, i, j);
    let i = i as int;
    let j = j as int;
    assert forall|x: int, y: int| 0 <= x < y < q.len() implies q[x] != q[y] by {
        let px = if x == i {
            j
        } else if x == j {
            i
        } else {
            x
        };
        let py = if y == i {
            j
        } else if y == j {
            i
        } else {
            y
        };
        assert(q[x] == p[px]);
        assert(q[y] == p[py]);
        if px < py {
            assert(p[px] != p[py]);
        } else {
            assert(p[py] != p[px]);
        }
    }
}

/// An arrangement that names ever later positions names each position at
/// its own place.
pub proof fn lemma_ascending_arrangement(p: Seq<int>, n: nat, i: int)
    requires
        is_arrangement(p, n),
        forall|x: int, y: int| 0 <= x < y < n ==> #[trigger] p[x] < #[trigger] p[y],
        0 <= i < n,
    ensures
        p[i] == i,
{
    lemma_ascending_least(p, n, i);
    lemma_ascending_most(p, n, i);
}

proof fn lemma_ascending_least(p: Seq<int>, n: nat, i: int)
    requires
        is_arrangement(p, n),
        forall|x: int, y: int| 0 <= x < y < n ==> #[trigger] p[x] < #[trigger] p[y],
        0 <= i < n,
    ensures
        p[i] >= i,
    decreases i,
{
    if i > 0 {
        lemma_ascending_least(p, n, i - 1);
        assert(p[i - 1] < p[i]);
    }
}

proof fn lemma_ascending_most(p: Seq<int>, n: nat, i: int)
    requires
        is_arrangement(p, n),
        forall|x: int, y: int| 0 <= x < y < n ==> #[trigger] p[x] < #[trigger] p[y],
        0 <= i < n,
    ensures
        p[i] <= i,
    decreases n - i,
{
    if i + 1 < n {
        lemma_ascending_most(p, n, i + 1);
        assert(p[i] < p[i + 1]);
    }
}

/// A sorted sequence has one sorted rearrangement that keeps the order of
/// elements that rank equal: itself.
pub proof fn lemma_sorted_stable_same<T>(a: Seq<T>, b: Seq<T>, le: spec_fn(T, T) -> bool)
    requires
        sorted(a, le),
        sorted(b, le),
        stable(a, b, le),
    ensures
        a == b,
{
    let p = choose|p: Seq<int>| rearranged(a, b, p) && keeps_ties(a, p, le);
    let n = a.len();
    assert forall|x: int, y: int| 0 <= x < y < n implies #[trigger] p[x] < #[trigger] p[y] by {
        if p[x] > p[y] {
            assert(le(a[p[y]], a[p[x]]));
            assert(le(b[x], b[y]));
        }
    }
    assert forall|i: int| 0 <= i < n implies a[i] == b[i] by {
        lemma_ascending_arrangement(p, n, i);
    }
    assert(a =~= b);
}

/// An arrangement of `n` positions names every one of them.
pub proof fn lemma_arrangement_names_all(p: Seq<int>, n: nat, v: int)
    requires
        is_arrangement(p, n),
        0 <= v < n,
    ensures
        exists|i: int| 0 <= i < n && p[i] == v,
{
    let id = identity(n);
    assert(rearranged(id, p, p));
    lemma_rearranged_multiset(id, p, p);
    assert(id[v] == v);
    assert(id.contains(v));
    assert(id.to_multiset().count(v) > 0);
    assert(p.contains(v));
}

/// Two arrangements are one if both list the positions in an order that no
/// two positions can have both ways.
pub proof fn lemma_one_arrangement(
    p: Seq<int>,
    q: Seq<int>,
    n: nat,
    before: spec_fn(int, int) -> bool,
)
    requires
        is_arrangement(p, n),
        is_arrangement(q, n),
        forall|x: int, y: int| #[trigger] before(x, y) && before(y, x) ==> x == y,
        forall|i: int, j: int| 0 <= i < j < n ==> before(#[trigger] p[i], #[trigger] p[j]),
        forall|i: int, j: int| 0 <= i < j < n ==> before(#[trigger] q[i], #[trigger] q[j]),
    ensures
        p == q,
{
    let r = Seq::new(n, |i: int| choose|j: int| 0 <= j < n && q[j] == p[i]);
    assert forall|i: int| 0 <= i < n implies 0 <= #[trigger] r[i] < n && q[r[i]] == p[i] by {
        lemma_arrangement_names_all(q, n, p[i]);
    }
    assert forall|x: int, y: int| 0 <= x < y < n implies #[trigger] r[x] < #[trigger] r[y] by {
        assert(p[x] != p[y]);
        assert(before(p[x], p[y]));
        if r[x] > r[y] {
            assert(before(q[r[y]], q[r[x]]));
        }
    }
    assert(is_arrangement(r, n));
    assert forall|i: int| 0 <= i < n implies p[i] == q[i] by {
        lemma_ascending_arrangement(r, n, i);
    }
    assert(p =~= q);
}

/// A sequence has one sorted rearrangement that keeps the order of elements
/// that rank equal.
pub proof fn lemma_stable_sorted_unique<T>(
    a: Seq<T>,
    b: Seq<T>,
    d: Seq<T>,
    le: spec_fn(T, T) -> bool,
)
    requires
        sorted(b, le),
        stable(a, b, le),
        sorted(d, le),
        stable(a, d, le),
    ensures
        b == d,
{
    let n = a.len();
    let pb = choose|p: Seq<int>| rearranged(a, b, p) && keeps_ties(a, p, le);
    let pd = choose|p: Seq<int>| rearranged(a, d, p) && keeps_ties(a, p, le);
    let before = |x: int, y: int| precedes(a, le, x, y);
    assert forall|i: int, j: int| 0 <= i < j < n implies before(
        #[trigger] pb[i],
        #[trigger] pb[j],
    ) by {
        assert(le(b[i], b[j]));
    }
    assert forall|i: int, j: int| 0 <= i < j < n implies before(
        #[trigger] pd[i],
        #[trigger] pd[j],
    ) by {
        assert(le(d[i], d[j]));
    }
    lemma_one_arrangement(pb, pd, n, before);
    assert(b =~= d);
}

/// A sequence as it stands keeps the order of its elements.
pub proof fn lemma_stable_same<T>(a: Seq<T>, le: spec_fn(T, T) -> bool)
    ensures
        stable(a, a, le),
{
    let p = identity(a.len());
    assert(rearranged(a, a, p));
    assert(keeps_ties(a, p, le));
}

/// Rearranging twice, each time keeping the order of elements that rank
/// equal, keeps it.
pub proof fn lemma_stable_chain<T>(a: Seq<T>, b: Seq<T>, d: Seq<T>, le: spec_fn(T, T) -> bool)
    requires
        stable(a, b, le),
        stable(b, d, le),
    ensures
        stable(a, d, le),
{
    let n = a.len();
    let p = choose|p: Seq<int>| rearranged(a, b, p) && keeps_ties(a, p, le);
    let q = choose|q: Seq<int>| rearranged(b, d, q) && keeps_ties(b, q, le);
    let r = Seq::new(n, |i: int| p[q[i]]);
    assert forall|i: int, j: int| 0 <= i < j < n implies r[i] != r[j] by {
        assert(q[i] != q[j]);
        if q[i] < q[j] {
            assert(p[q[i]] != p[q[j]]);
        } else {
            assert(p[q[j]] != p[q[i]]);
        }
    }
    assert forall|i: int| 0 <= i < n implies 0 <= #[trigger] r[i] < n by {
        assert(0 <= q[i] < n);
    }
    assert forall|i: int| 0 <= i < d.len() implies #[trigger] d[i] == a[r[i]] by {
        assert(d[i] == b[q[i]]);
        assert(b[q[i]] == a[p[q[i]]]);
    }
    assert(rearranged(a, d, r));
    assert forall|i: int, j: int|
        0 <= i < j < r.len() && le(a[#[trigger] r[i]], a[#[trigger] r[j]]) && le(
            a[r[j]],
            a[r[i]],
        ) implies r[i] < r[j] by {
        assert(b[q[i]] == a[p[q[i]]]);
        assert(b[q[j]] == a[p[q[j]]]);
        assert(q[i] < q[j]);
        assert(p[q[i]] < p[q[j]]);
    }
    assert(keeps_ties(a, r, le));
}

/// Two parts that were each rearranged keeping the order of elements that
/// rank equal, and then together, have kept it together.
pub proof fn lemma_stable_glue<T>(
    a_first: Seq<T>,
    b_first: Seq<T>,
    a_second: Seq<T>,
    b_second: Seq<T>,
    whole: Seq<T>,
    le: spec_fn(T, T) -> bool,
)
    requires
        stable(a_first, b_first, le),
        stable(a_second, b_second, le),
        stable(b_first + b_second, whole, le),
    ensures
        stable(a_first + a_second, whole, le),
{
    let a = a_first + a_second;
    let b = b_first + b_second;
    let m = a_first.len() as int;
    let n = a.len();
    let pf = choose|p: Seq<int>| rearranged(a_first, b_first, p) && keeps_ties(a_first, p, le);
    let ps = choose|p: Seq<int>| rearranged(a_second, b_second, p) && keeps_ties(a_second, p, le);
    let q = choose|q: Seq<int>| rearranged(b, whole, q) && keeps_ties(b, q, le);
    let r = Seq::new(
        n,
        |i: int|
            if q[i] < m {
                pf[q[i]]
            } else {
                m + ps[q[i] - m]
            },
    );
    assert forall|i: int| 0 <= i < n implies 0 <= #[trigger] r[i] < n && whole[i] == a[r[i]]
        && ((r[i] < m) == (q[i] < m)) && b[q[i]] == a[r[i]] by {
        assert(0 <= q[i] < n);
        assert(whole[i] == b[q[i]]);
        if q[i] < m {
            assert(b_first[q[i]] == a_first[pf[q[i]]]);
            assert(0 <= pf[q[i]] < m);
        } else {
            assert(b_second[q[i] - m] == a_second[ps[q[i] - m]]);
            assert(0 <= ps[q[i] - m] < n - m);
        }
    }
    assert forall|i: int, j: int| 0 <= i < j < n implies r[i] != r[j] by {
        assert(q[i] != q[j]);
        assert((r[i] < m) == (q[i] < m));
        assert((r[j] < m) == (q[j] < m));
        if q[i] < m && q[j] < m {
            if q[i] < q[j] {
                assert(pf[q[i]] != pf[q[j]]);
            } else {
                assert(pf[q[j]] != pf[q[i]]);
            }
        } else if q[i] >= m && q[j] >= m {
            if q[i] < q[j] {
                assert(ps[q[i] - m] != ps[q[j] - m]);
            } else {
                assert(ps[q[j] - m] != ps[q[i] - m]);
            }
        }
    }
    assert(rearranged(a, whole, r));
    assert forall|i: int, j: int|
        0 <= i < j < r.len() && le(a[#[trigger] r[i]], a[#[trigger] r[j]]) && le(
            a[r[j]],
            a[r[i]],
        ) implies r[i] < r[j] by {
        assert(b[q[i]] == a[r[i]]);
        assert(b[q[j]] == a[r[j]]);
        assert(q[i] < q[j]);
        assert((r[i] < m) == (q[i] < m));
        assert((r[j] < m) == (q[j] < m));
        if q[j] < m {
            assert(b_first[q[i]] == a_first[pf[q[i]]]);
            assert(b_first[q[j]] == a_first[pf[q[j]]]);
            assert(pf[q[i]] < pf[q[j]]);
        } else if q[i] >= m {
            assert(b_second[q[i] - m] == a_second[ps[q[i] - m]]);
            assert(b_second[q[j] - m] == a_second[ps[q[j] - m]]);
            assert(ps[q[i] - m] < ps[q[j] - m]);
        }
    }
    assert(keeps_ties(a, r, le));
}

/// The positions that `order` names, as numbers.
pub open spec fn positions(order: Seq<usize>) -> Seq<int> {
    Seq::new(order.len(), |i: int| order[i] as int)
}

/// Exchanges the elements at `i` and `j`, whichever comes first.
pub fn exchange<T>(list: &mut [T], i: usize, j: usize)
    requires
        i < old(list)@.len(),
        j < old(list)@.len(),
        i != j,
    ensures
        final(list)@ == old(list)@.update(i as int, old(list)@[j as int]).update(
            j as int,
            old(list)@[i as int],
        ),
{
    if i < j {
        swap_at(list, i, j);
    } else {
        swap_at(list, j, i);
        assert(list@ =~= old(list)@.update(i as int, old(list)@[j as int]).update(
            j as int,
            old(list)@[i as int],
        ));
    }
}

/// The position that takes its element from each position under `s`.
spec fn takers(s: Seq<int>) -> Seq<int> {
    Seq::new(s.len(), |v: int| choose|x: int| 0 <= x < s.len() && s[x] == v)
}

/// Each position is taken from by one position, and takes from one.
proof fn lemma_takers(s: Seq<int>, n: nat)
    requires
        is_arrangement(s, n),
    ensures
        takers(s).len() == n,
        forall|v: int| 0 <= v < n ==> 0 <= #[trigger] takers(s)[v] < n && s[takers(s)[v]] == v,
        forall|x: int| 0 <= x < n ==> takers(s)[#[trigger] s[x]] == x,
{
    let d = takers(s);
    assert forall|v: int| 0 <= v < n implies 0 <= #[trigger] d[v] < n && s[d[v]] == v by {
        lemma_arrangement_names_all(s, n, v);
    }
    assert forall|x: int| 0 <= x < n implies d[#[trigger] s[x]] == x by {
        let y = d[s[x]];
        assert(s[y] == s[x]);
        if y < x {
            assert(s[y] != s[x]);
        } else if x < y {
            assert(s[x] != s[y]);
        }
    }
}

/// While `list` is brought into the arrangement `s` of `a`: the position `x`
/// is either unsettled, and holds what it held, or settled, and holds what
/// it is to hold; and but for `start`, where the turn began that is under
/// way, a settled position gave its own element to a settled one.
spec fn entry_ok<T>(
    order: Seq<usize>,
    list: Seq<T>,
    a: Seq<T>,
    s: Seq<int>,
    unsettled: Set<int>,
    start: int,
    x: int,
) -> bool {
    if unsettled.contains(x) {
        order[x] == s[x] && list[x] == a[x]
    } else {
        order[x] == x && list[x] == a[s[x]] && (x != start ==> !unsettled.contains(takers(s)[x]))
    }
}

/// Brings `list` into the arrangement that `order` names: afterwards the
/// element at each position is the one that stood where `order` says. Only
/// exchanges move the elements, so `list` holds each of them once at every
/// moment. `order` is used up.
pub fn arrange<T>(list: &mut [T], order: &mut Vec<usize>)
    requires
        old(order)@.len() == old(list)@.len(),
        is_arrangement(positions(old(order)@), old(list)@.len()),
    ensures
        rearranged(old(list)@, final(list)@, positions(old(order)@)),
{
    let n = list.len();
    let ghost a = list@;
    let ghost s = positions(order@);
    let ghost d = takers(s);
    let ghost mut unsettled: Set<int> = Set::new(|x: int| 0 <= x < n);
    proof {
        lemma_takers(s, n as nat);
        assert(unsettled =~= vstd::set_lib::set_int_range(0, n as int));
        vstd::set_lib::lemma_int_range(0, n as int);
        assert forall|x: int| 0 <= x < n implies #[trigger] entry_ok(
            order@,
            list@,
            a,
            s,
            unsettled,
            -1,
            x,
        ) by {
            assert(s[x] == order@[x]);
        }
    }
    let mut i: usize = 0;
    while i < n
        invariant
            n == a.len(),
            list@.len() == n,
            order@.len() == n,
            s.len() == n,
            is_arrangement(s, n as nat),
            i <= n,
            unsettled.finite(),
            forall|x: int| unsettled.contains(x) ==> 0 <= x < n,
            forall|x: int| 0 <= x < i ==> !unsettled.contains(x),
            forall|x: int|
                0 <= x < n ==> #[trigger] entry_ok(order@, list@, a, s, unsettled, -1, x),
        decreases n - i,
    {
        proof {
            lemma_takers(s, n as nat);
            assert(entry_ok(order@, list@, a, s, unsettled, -1, i as int));
        }
        if order[i] != i {
            let mut j: usize = i;
            proof {
                assert forall|x: int| 0 <= x < n && x != j implies #[trigger] entry_ok(
                    order@,
                    list@,
                    a,
                    s,
                    unsettled,
                    i as int,
                    x,
                ) by {
                    assert(entry_ok(order@, list@, a, s, unsettled, -1, x));
                }
            }
            loop
                invariant_except_break
                    unsettled.contains(j as int),
                    order@[j as int] == s[j as int],
                    s[j as int] != j,
                    list@[j as int] == a[i as int],
                    j != i ==> !unsettled.contains(takers(s)[j as int]) && !unsettled.contains(
                        i as int,
                    ),
                    forall|x: int|
                        0 <= x < n && x != j ==> #[trigger] entry_ok(
                            order@,
                            list@,
                            a,
                            s,
                            unsettled,
                            i as int,
                            x,
                        ),
                invariant
                    n == a.len(),
                    list@.len() == n,
                    order@.len() == n,
                    s.len() == n,
                    is_arrangement(s, n as nat),
                    i < n,
                    j < n,
                    unsettled.finite(),
                    forall|x: int| unsettled.contains(x) ==> 0 <= x < n,
                    forall|x: int| 0 <= x < i ==> !unsettled.contains(x),
                ensures
                    !unsettled.contains(i as int),
                    forall|x: int|
                        0 <= x < n ==> #[trigger] entry_ok(order@, list@, a, s, unsettled, -1, x),
                decreases unsettled.len(),
            {
                let ghost order_before = order@;
                let ghost list_before = list@;
                let ghost unsettled_before = unsettled;
                let k = order[j];
                order[j] = j;
                proof {
                    lemma_takers(s, n as nat);
                    assert(0 <= s[j as int] < n);
                    assert(takers(s)[s[j as int]] == j);
                    unsettled = unsettled.remove(j as int);
                }
                if k == i {
                    proof {
                        assert forall|x: int| 0 <= x < n implies #[trigger] entry_ok(
                            order@,
                            list@,
                            a,
                            s,
                            unsettled,
                            -1,
                            x,
                        ) by {
                            if x != j {
                                assert(entry_ok(
                                    order_before,
                                    list_before,
                                    a,
                                    s,
                                    unsettled_before,
                                    i as int,
                                    x,
                                ));
                            }
                        }
                    }
                    break ;
                }
                proof {
                    assert(entry_ok(
                        order_before,
                        list_before,
                        a,
                        s,
                        unsettled_before,
                        i as int,
                        k as int,
                    ));
                    assert(takers(s)[k as int] == j);
                    assert(unsettled.contains(k as int));
                    assert(s[k as int] != k) by {
                        if s[k as int] == k {
                            assert(takers(s)[s[k as int]] == k);
                        }
                    }
                }
                exchange(list, j, k);
                proof {
                    assert forall|x: int| 0 <= x < n && x != k implies #[trigger] entry_ok(
                        order@,
                        list@,
                        a,
                        s,
                        unsettled,
                        i as int,
                        x,
                    ) by {
                        if x != j {
                            assert(entry_ok(
                                order_before,
                                list_before,
                                a,
                                s,
                                unsettled_before,
                                i as int,
                                x,
                            ));
                        }
                    }
                }
                j = k;
            }
        } else {
            proof {
                if unsettled.contains(i as int) {
                    let ghost unsettled_before = unsettled;
                    assert(s[i as int] == i);
                    assert(takers(s)[s[i as int]] == i);
                    unsettled = unsettled.remove(i as int);
                    assert forall|x: int| 0 <= x < n implies #[trigger] entry_ok(
                        order@,
                        list@,
                        a,
                        s,
                        unsettled,
                        -1,
                        x,
                    ) by {
                        assert(entry_ok(order@, list@, a, s, unsettled_before, -1, x));
                    }
                }
            }
        }
        i += 1;
    }
    proof {
        assert forall|x: int| 0 <= x < list@.len() implies #[trigger] list@[x] == a[s[x]] by {
            assert(entry_ok(order@, list@, a, s, unsettled, -1, x));
        }
    }
}

} // verus!
