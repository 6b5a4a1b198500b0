//! Galloping search: an exponential probe that brackets where a key belongs
//! in a sorted slice, and a binary search inside the bracket.

use vstd::prelude::*;
use core::cmp::Ordering;
use crate::comparator::{accepts_with, decides, orders};
use crate::natural::{ord_le, ord_total};
use vstd::std_specs::cmp::OrdSpec;
use crate::order::{
    above_from, below, brackets, left_point, lemma_above_from, lemma_below_through,
    lemma_not_above_through, lemma_not_below_from, not_above, not_below_from, right_point, sorted,
};

verus! {

/// From which end of the slice the probe starts.
#[derive(Copy, Clone)]
pub enum Mode {
    /// Probe outward from the front: right for a key that belongs near it.
    Forward,
    /// Probe outward from the back: right for a key that belongs near it.
    Reverse,
}

/// Where the probe goes from `offset`: twice as far and one more, or to
/// `len` where that would pass it. From 1 these are the offsets 1, 3, 7, 15
/// and so on.
pub open spec fn next_probe(offset: int, len: int) -> int {
    if offset < len - offset {
        2 * offset + 1
    } else {
        len
    }
}

/// The bracket that the probe from the front gives, when it has found a
/// smaller element last at `prev`, or none and `prev` is 0, and looks at
/// `next` now: it goes on past a smaller element, which becomes `prev`, and
/// past an equal one, and ends before a greater one or at the end of `s`.
pub open spec fn forward_bracket<T>(
    s: Seq<T>,
    key: T,
    le: spec_fn(T, T) -> bool,
    prev: int,
    next: int,
) -> (int, int)
    decreases s.len() - next,
{
    if next < 1 || next >= s.len() {
        (prev, s.len() - prev)
    } else if !le(key, s[next]) {
        forward_bracket(s, key, le, next, next_probe(next, s.len() as int))
    } else if !le(s[next], key) {
        (prev, next - prev)
    } else {
        forward_bracket(s, key, le, prev, next_probe(next, s.len() as int))
    }
}

/// The bracket that the probe from the back gives, when all from `prev` on
/// is known to be greater and it looks `offset` before the last element
/// now: it goes on past a greater element, behind which `prev` then lies,
/// and past an equal one, and ends at a smaller one or at the front of `s`.
pub open spec fn reverse_bracket<T>(
    s: Seq<T>,
    key: T,
    le: spec_fn(T, T) -> bool,
    prev: int,
    offset: int,
) -> (int, int)
    decreases s.len() - offset,
{
    let next = s.len() - 1 - offset;
    if offset < 1 || offset >= s.len() {
        (0, prev)
    } else if !le(key, s[next]) {
        (next, prev - next)
    } else if !le(s[next], key) {
        reverse_bracket(s, key, le, next + 1, next_probe(offset, s.len() as int))
    } else {
        reverse_bracket(s, key, le, prev, next_probe(offset, s.len() as int))
    }
}

/// The bracket `(base, lim)` that the probe gives for `key` in `s`: nothing
/// for an empty `s`; else the probe starts one element from the end that
/// `mode` names.
pub open spec fn bracket<T>(s: Seq<T>, key: T, le: spec_fn(T, T) -> bool, mode: Mode) -> (
    int,
    int,
) {
    if s.len() == 0 {
        (0, 0)
    } else {
        match mode {
            Mode::Forward => forward_bracket(s, key, le, 0, 1),
            Mode::Reverse => reverse_bracket(s, key, le, s.len() as int, 1),
        }
    }
}

/// [`forward_bracket`] from positions of a slice.
pub open spec fn forward_bracket_at<T>(
    s: Seq<T>,
    key: T,
    le: spec_fn(T, T) -> bool,
    prev: usize,
    next: usize,
) -> (int, int) {
    forward_bracket(s, key, le, prev as int, next as int)
}

/// [`reverse_bracket`] from positions of a slice.
pub open spec fn reverse_bracket_at<T>(
    s: Seq<T>,
    key: T,
    le: spec_fn(T, T) -> bool,
    prev: usize,
    offset: usize,
) -> (int, int) {
    reverse_bracket(s, key, le, prev as int, offset as int)
}

/// Brackets both insertion points of `key` in `list`, which is expected to be
/// sorted: returns `(base, lim)` with the points in `base ..= base + lim`.
///
/// The probe starts one element from the end that `mode` names and doubles
/// its distance from there with every step, until it has passed the points
/// or the other end.
pub fn gallop<T, C: Fn(&T, &T) -> Ordering>(key: &T, list: &[T], mode: Mode, c: &C) -> (r: (
    usize,
    usize,
))
    requires
        accepts_with(*c, list@, *key),
    ensures
        r.0 + r.1 <= list@.len(),
        list@.len() == 0 ==> r.0 == 0 && r.1 == 0,
        list@.len() > 0 ==> r.1 >= 1,
        forall|le: spec_fn(T, T) -> bool| #[trigger]
            decides(*c, le) ==> r.0 == bracket(list@, *key, le, mode).0 && r.1 == bracket(
                list@,
                *key,
                le,
                mode,
            ).1,
        forall|le: spec_fn(T, T) -> bool| #[trigger]
            orders(*c, le) && sorted(list@, le) ==> brackets(list@, *key, le, r.0, r.1),
{
    let len = list.len();
    if len == 0 {
        return (0, 0);
    }
    match mode {
        Mode::Forward => {
            let mut prev: usize = 0;
            let mut next: usize = 1;
            while next < len
                invariant
                    len == list@.len(),
                    prev < next <= len,
                    accepts_with(*c, list@, *key),
                    forall|le: spec_fn(T, T) -> bool| #[trigger]
                        decides(*c, le) ==> forward_bracket_at(list@, *key, le, prev, next)
                            == forward_bracket(list@, *key, le, 0, 1),
                    forall|le: spec_fn(T, T) -> bool| #[trigger]
                        orders(*c, le) && sorted(list@, le) ==> below(list@, *key, le, prev),
                ensures
                    prev < next <= len,
                    forall|le: spec_fn(T, T) -> bool| #[trigger]
                        decides(*c, le) ==> prev == forward_bracket(list@, *key, le, 0, 1).0 && next
                            - prev == forward_bracket(list@, *key, le, 0, 1).1,
                    forall|le: spec_fn(T, T) -> bool| #[trigger]
                        orders(*c, le) && sorted(list@, le) ==> below(list@, *key, le, prev)
                            && above_from(list@, *key, le, next),
                decreases len - next,
            {
                match c(&list[next], key) {
                    Ordering::Less => {
                        proof {
                            assert forall|le: spec_fn(T, T) -> bool| #[trigger]
                                orders(*c, le) && sorted(list@, le) implies below(
                                list@,
                                *key,
                                le,
                                next,
                            ) by {
                                lemma_below_through(list@, *key, le, next);
                            }
                        }
                        prev = next;
                    },
                    Ordering::Greater => {
                        proof {
                            assert forall|le: spec_fn(T, T) -> bool| #[trigger]
                                orders(*c, le) && sorted(list@, le) implies above_from(
                                list@,
                                *key,
                                le,
                                next,
                            ) by {
                                lemma_above_from(list@, *key, le, next);
                            }
                        }
                        break ;
                    },
                    Ordering::Equal => {},
                }
                next = if next < len - next {
                    2 * next + 1
                } else {
                    len
                };
            }
            (prev, next - prev)
        },
        Mode::Reverse => {
            let mut base: usize = 0;
            let mut prev: usize = len;
            let mut offset: usize = 1;
            while offset < len
                invariant_except_break
                    base == 0,
                    forall|le: spec_fn(T, T) -> bool| #[trigger]
                        decides(*c, le) ==> reverse_bracket_at(list@, *key, le, prev, offset)
                            == reverse_bracket_at(list@, *key, le, len, 1),
                invariant
                    len == list@.len(),
                    1 <= offset <= len,
                    1 <= prev <= len,
                    len <= prev + offset,
                    accepts_with(*c, list@, *key),
                    forall|le: spec_fn(T, T) -> bool| #[trigger]
                        orders(*c, le) && sorted(list@, le) ==> above_from(list@, *key, le, prev),
                ensures
                    base < prev,
                    forall|le: spec_fn(T, T) -> bool| #[trigger]
                        decides(*c, le) ==> base == reverse_bracket_at(list@, *key, le, len, 1).0
                            && prev - base == reverse_bracket_at(list@, *key, le, len, 1).1,
                    forall|le: spec_fn(T, T) -> bool| #[trigger]
                        orders(*c, le) && sorted(list@, le) ==> below(list@, *key, le, base)
                            && above_from(list@, *key, le, prev),
                decreases len - offset,
            {
                let next = len - 1 - offset;
                match c(&list[next], key) {
                    Ordering::Greater => {
                        proof {
                            assert forall|le: spec_fn(T, T) -> bool| #[trigger]
                                orders(*c, le) && sorted(list@, le) implies above_from(
                                list@,
                                *key,
                                le,
                                next + 1,
                            ) by {
                                lemma_above_from(list@, *key, le, next);
                            }
                        }
                        prev = next + 1;
                    },
                    Ordering::Less => {
                        proof {
                            assert forall|le: spec_fn(T, T) -> bool| #[trigger]
                                orders(*c, le) && sorted(list@, le) implies below(
                                list@,
                                *key,
                                le,
                                next,
                            ) by {
                                lemma_below_through(list@, *key, le, next);
                            }
                        }
                        base = next;
                        break ;
                    },
                    Ordering::Equal => {},
                }
                offset = if offset < len - offset {
                    2 * offset + 1
                } else {
                    len
                };
            }
            (base, prev - base)
        },
    }
}

/// Returns the position at which `key` is to be inserted into the sorted
/// `list` to stand before every element equal to it: the first position whose
/// element is not smaller than `key`, or the length of `list` if there is
/// none.
pub fn gallop_left_by<T, C: Fn(&T, &T) -> Ordering>(key: &T, list: &[T], mode: Mode, c: C) -> (r:
    usize)
    requires
        accepts_with(c, list@, *key),
    ensures
        r <= list@.len(),
        forall|le: spec_fn(T, T) -> bool| #[trigger]
            orders(c, le) && sorted(list@, le) ==> left_point(list@, *key, le, r),
{
    let len = list.len();
    let (mut base, mut lim) = gallop(key, list, mode, &c);
    while lim != 0
        invariant_except_break
            base + lim <= len,
            forall|le: spec_fn(T, T) -> bool| #[trigger]
                orders(c, le) && sorted(list@, le) ==> below(list@, *key, le, base)
                    && not_below_from(list@, *key, le, base + lim),
        invariant
            len == list@.len(),
            accepts_with(c, list@, *key),
        ensures
            base <= len,
            forall|le: spec_fn(T, T) -> bool| #[trigger]
                orders(c, le) && sorted(list@, le) ==> left_point(list@, *key, le, base),
        decreases lim,
    {
        let ix = base + lim / 2;
        match c(&list[ix], key) {
            Ordering::Less => {
                proof {
                    assert forall|le: spec_fn(T, T) -> bool| #[trigger]
                        orders(c, le) && sorted(list@, le) implies below(list@, *key, le, ix + 1) by {
                        lemma_below_through(list@, *key, le, ix);
                    }
                }
                base = ix + 1;
                lim = lim - 1;
            },
            Ordering::Greater => {
                proof {
                    assert forall|le: spec_fn(T, T) -> bool| #[trigger]
                        orders(c, le) && sorted(list@, le) implies not_below_from(list@, *key, le, ix) by {
                        lemma_not_below_from(list@, *key, le, ix);
                    }
                }
            },
            Ordering::Equal => {
                proof {
                    assert forall|le: spec_fn(T, T) -> bool| #[trigger]
                        orders(c, le) && sorted(list@, le) implies not_below_from(list@, *key, le, ix) by {
                        lemma_not_below_from(list@, *key, le, ix);
                    }
                }
                let first = if ix == 0 {
                    true
                } else {
                    match c(&list[ix - 1], key) {
                        Ordering::Less => {
                            proof {
                                assert forall|le: spec_fn(T, T) -> bool| #[trigger]
                                    orders(c, le) && sorted(list@, le) implies below(list@, *key, le, ix) by {
                                    lemma_below_through(list@, *key, le, ix - 1);
                                }
                            }
                            true
                        },
                        _ => false,
                    }
                };
                if first {
                    base = ix;
                    break ;
                }
            },
        }
        lim = lim / 2;
    }
    base
}

/// Returns the position at which `key` is to be inserted into the sorted
/// `list` to stand behind every element equal to it: the first position whose
/// element is greater than `key`, or the length of `list` if there is none.
pub fn gallop_right_by<T, C: Fn(&T, &T) -> Ordering>(key: &T, list: &[T], mode: Mode, c: C) -> (r:
    usize)
    requires
        accepts_with(c, list@, *key),
    ensures
        r <= list@.len(),
        forall|le: spec_fn(T, T) -> bool| #[trigger]
            orders(c, le) && sorted(list@, le) ==> right_point(list@, *key, le, r),
{
    let len = list.len();
    let (mut base, mut lim) = gallop(key, list, mode, &c);
    while lim != 0
        invariant_except_break
            base + lim <= len,
            forall|le: spec_fn(T, T) -> bool| #[trigger]
                orders(c, le) && sorted(list@, le) ==> not_above(list@, *key, le, base)
                    && above_from(list@, *key, le, base + lim),
        invariant
            len == list@.len(),
            accepts_with(c, list@, *key),
        ensures
            base <= len,
            forall|le: spec_fn(T, T) -> bool| #[trigger]
                orders(c, le) && sorted(list@, le) ==> right_point(list@, *key, le, base),
        decreases lim,
    {
        let ix = base + lim / 2;
        match c(&list[ix], key) {
            Ordering::Less => {
                proof {
                    assert forall|le: spec_fn(T, T) -> bool| #[trigger]
                        orders(c, le) && sorted(list@, le) implies not_above(list@, *key, le, ix + 1) by {
                        lemma_not_above_through(list@, *key, le, ix);
                    }
                }
                base = ix + 1;
                lim = lim - 1;
            },
            Ordering::Greater => {
                proof {
                    assert forall|le: spec_fn(T, T) -> bool| #[trigger]
                        orders(c, le) && sorted(list@, le) implies above_from(list@, *key, le, ix) by {
                        lemma_above_from(list@, *key, le, ix);
                    }
                }
            },
            Ordering::Equal => {
                proof {
                    assert forall|le: spec_fn(T, T) -> bool| #[trigger]
                        orders(c, le) && sorted(list@, le) implies not_above(list@, *key, le, ix + 1) by {
                        lemma_not_above_through(list@, *key, le, ix);
                    }
                }
                base = ix + 1;
                let last = if ix == len - 1 {
                    true
                } else {
                    match c(&list[ix + 1], key) {
                        Ordering::Greater => {
                            proof {
                                assert forall|le: spec_fn(T, T) -> bool| #[trigger]
                                    orders(c, le) && sorted(list@, le) implies above_from(list@, *key, le, base) by {
                                    lemma_above_from(list@, *key, le, base);
                                }
                            }
                            true
                        },
                        _ => false,
                    }
                };
                if last {
                    break ;
                }
                lim = lim - 1;
            },
        }
        lim = lim / 2;
    }
    base
}

/// [`gallop_left_by`] with the order that `T` has by `Ord`.
pub fn gallop_left<T: Ord>(key: &T, list: &[T], mode: Mode) -> (r: usize)
    ensures
        r <= list@.len(),
        ord_total::<T>() && sorted(list@, ord_le::<T>()) ==> left_point(
            list@,
            *key,
            ord_le::<T>(),
            r,
        ),
{
    let c = |a: &T, b: &T| -> (o: Ordering)
        ensures
            T::obeys_cmp_spec() ==> o == a.cmp_spec(b),
        { a.cmp(b) };
    let r = gallop_left_by(key, list, mode, c);
    proof {
        if ord_total::<T>() {
            assert(orders(c, ord_le::<T>()));
        }
    }
    r
}

/// [`gallop_right_by`] with the order that `T` has by `Ord`.
pub fn gallop_right<T: Ord>(key: &T, list: &[T], mode: Mode) -> (r: usize)
    ensures
        r <= list@.len(),
        ord_total::<T>() && sorted(list@, ord_le::<T>()) ==> right_point(
            list@,
            *key,
            ord_le::<T>(),
            r,
        ),
{
    let c = |a: &T, b: &T| -> (o: Ordering)
        ensures
            T::obeys_cmp_spec() ==> o == a.cmp_spec(b),
        { a.cmp(b) };
    let r = gallop_right_by(key, list, mode, c);
    proof {
        if ord_total::<T>() {
            assert(orders(c, ord_le::<T>()));
        }
    }
    r
}

} // verus!
