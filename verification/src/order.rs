//! The strict total order that the tree keeps its values in.
//!
//! Values are compared with `Ord::cmp`. The tree is only meaningful for types
//! whose comparison is a total order that agrees with equality; `total_order`
//! says so, and the lemmas below draw the usual consequences from it.

use core::cmp::Ordering;
use vstd::laws_cmp::obeys_cmp;
use vstd::laws_eq::obeys_concrete_eq;
use vstd::prelude::*;
use vstd::std_specs::cmp::{OrdSpec, PartialEqSpec, PartialOrdSpec};

verus! {

/// How one value stands to another.
#[derive(Clone, Copy, Debug, PartialEq, Eq, Structural)]
pub enum Rank {
    Below,
    Same,
    Above,
}

/// `T`'s comparison is a total order, and two values compare equal exactly
/// when they are the same value.
pub open spec fn total_order<T: Ord>() -> bool {
    obeys_cmp::<T>() && obeys_concrete_eq::<T>()
}

/// `a` sorts strictly before `b`.
pub open spec fn less<T: Ord>(a: T, b: T) -> bool {
    a.cmp_spec(&b) == Ordering::Less
}

/// What each outcome of a comparison means for `less` and for equality.
proof fn lemma_outcomes<T: Ord>(a: T, b: T)
    requires
        total_order::<T>(),
    ensures
        T::obeys_cmp_spec(),
        a.cmp_spec(&b) == Ordering::Equal <==> a == b,
        a.cmp_spec(&b) == Ordering::Greater <==> less(b, a),
{
    reveal(obeys_concrete_eq);
    reveal(vstd::laws_cmp::obeys_cmp_partial_ord);
    reveal(vstd::laws_cmp::obeys_cmp_ord);
    reveal(vstd::laws_cmp::obeys_partial_cmp_spec_properties);
    assert(a.partial_cmp_spec(&b) == Some(a.cmp_spec(&b)));
    assert(b.partial_cmp_spec(&a) == Some(b.cmp_spec(&a)));
    assert(a.eq_spec(&b) <==> a == b);
    assert(b.eq_spec(&a) <==> b == a);
}

/// Exactly one of `a < b`, `a == b`, `b < a` holds.
pub proof fn lemma_less_trichotomy<T: Ord>(a: T, b: T)
    requires
        total_order::<T>(),
    ensures
        less(a, b) || a == b || less(b, a),
        !(less(a, b) && a == b),
        !(less(b, a) && a == b),
        !(less(a, b) && less(b, a)),
{
    lemma_outcomes(a, b);
}

/// `less` is transitive.
pub proof fn lemma_less_transitive<T: Ord>(a: T, b: T, c: T)
    requires
        total_order::<T>(),
        less(a, b),
        less(b, c),
    ensures
        less(a, c),
{
    reveal(vstd::laws_cmp::obeys_cmp_ord);
    reveal(vstd::laws_cmp::obeys_partial_cmp_spec_properties);
    assert(a.partial_cmp_spec(&b) == Some(a.cmp_spec(&b)));
    assert(b.partial_cmp_spec(&c) == Some(b.cmp_spec(&c)));
    assert(a.partial_cmp_spec(&c) == Some(a.cmp_spec(&c)));
}

/// The comparison of each built-in integer type is a total order.
pub proof fn lemma_integers_total_order()
    ensures
        total_order::<u8>(),
        total_order::<u16>(),
        total_order::<u32>(),
        total_order::<u64>(),
        total_order::<u128>(),
        total_order::<usize>(),
        total_order::<i8>(),
        total_order::<i16>(),
        total_order::<i32>(),
        total_order::<i64>(),
        total_order::<i128>(),
        total_order::<isize>(),
{
    broadcast use vstd::laws_cmp::group_laws_cmp;
    broadcast use vstd::laws_eq::group_laws_eq;

}

/// Compares two values and reports the outcome in terms of `less`.
pub fn compare<T: Ord>(a: &T, b: &T) -> (r: Rank)
    requires
        total_order::<T>(),
    ensures
        r == Rank::Below <==> less(*a, *b),
        r == Rank::Same <==> *a == *b,
        r == Rank::Above <==> less(*b, *a),
{
    proof {
        lemma_outcomes(*a, *b);
    }
    match a.cmp(b) {
        Ordering::Less => Rank::Below,
        Ordering::Equal => Rank::Same,
        Ordering::Greater => Rank::Above,
    }
}

} // verus!
