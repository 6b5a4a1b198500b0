//! The order that a type has of itself, through `Ord` or `PartialOrd`, as an
//! order to sort by.

use vstd::prelude::*;
use core::cmp::Ordering;
use vstd::std_specs::cmp::{OrdSpec, PartialOrdSpec};
use crate::order::total_preorder;

verus! {

/// `a` is not greater than `b` by `Ord`.
pub open spec fn ord_le<T: Ord>() -> spec_fn(T, T) -> bool {
    |a: T, b: T| a.cmp_spec(&b) != Ordering::Greater
}

/// `cmp` on `T` answers as `cmp_spec` says, and that is a total preorder:
/// `a` is less than `b` exactly when `b` is greater than `a`, and not being
/// greater chains.
pub open spec fn ord_total<T: Ord>() -> bool {
    &&& T::obeys_cmp_spec()
    &&& forall|a: T, b: T| #[trigger]
        a.cmp_spec(&b) == Ordering::Less <==> b.cmp_spec(&a) == Ordering::Greater
    &&& total_preorder(ord_le::<T>())
}

/// `a` is not greater than `b` by `PartialOrd`; two values that it does not
/// compare count as equal.
pub open spec fn partial_le<T: PartialOrd>() -> spec_fn(T, T) -> bool {
    |a: T, b: T| a.partial_cmp_spec(&b) != Some(Ordering::Greater)
}

/// `partial_cmp` on `T` answers as `partial_cmp_spec` says, and with values
/// that it does not compare counted as equal that is a total preorder.
pub open spec fn partial_total<T: PartialOrd>() -> bool {
    &&& T::obeys_partial_cmp_spec()
    &&& forall|a: T, b: T| #[trigger]
        a.partial_cmp_spec(&b) == Some(Ordering::Less) <==> b.partial_cmp_spec(&a) == Some(
            Ordering::Greater,
        )
    &&& total_preorder(partial_le::<T>())
}

/// A type whose comparisons obey the laws that `vstd` states for them has
/// a total preorder by `Ord`.
pub proof fn lemma_lawful_ord_total<T: Ord>()
    requires
        vstd::laws_cmp::obeys_cmp::<T>(),
    ensures
        ord_total::<T>(),
{
    reveal(vstd::laws_eq::obeys_eq_spec_properties);
    reveal(vstd::laws_cmp::obeys_partial_cmp_spec_properties);
    reveal(vstd::laws_cmp::obeys_cmp_partial_ord);
    reveal(vstd::laws_cmp::obeys_cmp_ord);
    let le = ord_le::<T>();
    assert forall|a: T, b: T| #[trigger]
        a.cmp_spec(&b) == Ordering::Less <==> b.cmp_spec(&a) == Ordering::Greater by {
        assert(a.partial_cmp_spec(&b) == Some(a.cmp_spec(&b)));
        assert(b.partial_cmp_spec(&a) == Some(b.cmp_spec(&a)));
    }
    assert forall|a: T, b: T| #[trigger] le(a, b) || le(b, a) by {
        assert(a.partial_cmp_spec(&b) == Some(a.cmp_spec(&b)));
        assert(b.partial_cmp_spec(&a) == Some(b.cmp_spec(&a)));
    }
    assert forall|a: T, b: T, d: T| #[trigger] le(a, b) && #[trigger] le(b, d) implies le(a, d) by {
        assert(a.partial_cmp_spec(&b) == Some(a.cmp_spec(&b)));
        assert(b.partial_cmp_spec(&d) == Some(b.cmp_spec(&d)));
        assert(a.partial_cmp_spec(&d) == Some(a.cmp_spec(&d)));
        assert(d.partial_cmp_spec(&a) == Some(d.cmp_spec(&a)));
        assert(d.partial_cmp_spec(&b) == Some(d.cmp_spec(&b)));
        assert(b.partial_cmp_spec(&a) == Some(b.cmp_spec(&a)));
    }
}

} // verus!
