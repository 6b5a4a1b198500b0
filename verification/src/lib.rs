//! An adaptive merge sort for slices, with the run detection, galloping
//! search, insertion sort, merging and run-stack scheduling it is built
//! from.
//!
//! Every function takes its order from a comparator. What a function
//! guarantees of the order of its result is stated for every relation `le`
//! that the comparator decides (see [`comparator::orders`]); that the result
//! holds exactly the elements of the input is guaranteed whatever the
//! comparator answers.
//!
//! The sort is stable: elements that compare equal keep the order that they
//! had. Elements are moved by exchanges alone, and never between two calls
//! of the comparator that belong to one merge, so the slice holds each of
//! its elements once whenever the comparator is called.

pub mod order;
pub mod natural;
pub mod comparator;
pub mod rearrange;
pub mod find_run;
pub mod gallop;
pub mod insort;
pub mod sort;
pub mod merge;

use vstd::prelude::*;
use core::cmp::Ordering;
use vstd::std_specs::cmp::PartialOrdSpec;
use crate::comparator::orders;
use crate::natural::{partial_le, partial_total};
use crate::order::sorted;
use crate::rearrange::stable;

pub use crate::sort::sort_by;

verus! {

/// Sorts `list` by the order that `T` has by `PartialOrd`; two elements that
/// it does not compare count as equal.
pub fn sort<T: PartialOrd>(list: &mut [T])
    ensures
        final(list)@.len() == old(list)@.len(),
        final(list)@.to_multiset() == old(list)@.to_multiset(),
        partial_total::<T>() ==> sorted(final(list)@, partial_le::<T>()) && stable(
            old(list)@,
            final(list)@,
            partial_le::<T>(),
        ),
        partial_total::<T>() && sorted(old(list)@, partial_le::<T>()) ==> final(list)@ == old(list)@,
{
    let c = |a: &T, b: &T| -> (o: Ordering)
        ensures
            T::obeys_partial_cmp_spec() ==> o == (match a.partial_cmp_spec(b) {
                Some(x) => x,
                None => Ordering::Equal,
            }),
        {
            match a.partial_cmp(b) {
                Some(x) => x,
                None => Ordering::Equal,
            }
        };
    sort_by(list, c);
    proof {
        if partial_total::<T>() {
            assert(orders(c, partial_le::<T>()));
        }
    }
}

} // verus!
