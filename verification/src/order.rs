//! The total order on sampled values.
//!
//! The values of a stream are of any type that is ordered in full. What is proved of
//! the library holds for every such type whose comparison operators follow the laws of
//! a total order, as those of the integers do.

use core::cmp::Ordering;
use vstd::prelude::*;
use vstd::laws_cmp::obeys_cmp;
use vstd::std_specs::cmp::PartialOrdSpec;

verus! {

/// The comparison operators of `T` follow the laws of a total order.
pub open spec fn lawful<T: Ord>() -> bool {
    obeys_cmp::<T>()
}

/// `a` is strictly below `b`.
pub open spec fn lt<T: Ord>(a: T, b: T) -> bool {
    a.partial_cmp_spec(&b) == Some(Ordering::Less)
}

/// `a` is below `b` or equal to it.
pub open spec fn le<T: Ord>(a: T, b: T) -> bool {
    !lt(b, a)
}

/// Every value is below or equal to itself.
pub proof fn lemma_le_refl<T: Ord>(a: T)
    requires
        lawful::<T>(),
    ensures
        le(a, a),
{
    reveal(vstd::laws_cmp::obeys_partial_cmp_spec_properties);
    reveal(vstd::laws_cmp::obeys_cmp_partial_ord);
    reveal(vstd::laws_cmp::obeys_cmp_ord);
    reveal(vstd::laws_eq::obeys_eq_spec_properties);
}

/// What is not above a value is not above what that value is not above.
pub proof fn lemma_le_trans<T: Ord>(a: T, b: T, c: T)
    requires
        lawful::<T>(),
        le(a, b),
        le(b, c),
    ensures
        le(a, c),
{
    reveal(vstd::laws_cmp::obeys_partial_cmp_spec_properties);
    reveal(vstd::laws_cmp::obeys_cmp_partial_ord);
    reveal(vstd::laws_cmp::obeys_cmp_ord);
    reveal(vstd::laws_eq::obeys_eq_spec_properties);
}

/// What is strictly below a value is not above it.
pub proof fn lemma_lt_le<T: Ord>(a: T, b: T)
    requires
        lawful::<T>(),
        lt(a, b),
    ensures
        le(a, b),
{
    reveal(vstd::laws_cmp::obeys_partial_cmp_spec_properties);
    reveal(vstd::laws_cmp::obeys_cmp_partial_ord);
    reveal(vstd::laws_cmp::obeys_cmp_ord);
    reveal(vstd::laws_eq::obeys_eq_spec_properties);
}

/// What is strictly below a value is strictly below what that value is not above.
pub proof fn lemma_lt_le_trans<T: Ord>(a: T, b: T, c: T)
    requires
        lawful::<T>(),
        lt(a, b),
        le(b, c),
    ensures
        lt(a, c),
{
    reveal(vstd::laws_cmp::obeys_partial_cmp_spec_properties);
    reveal(vstd::laws_cmp::obeys_cmp_partial_ord);
    reveal(vstd::laws_cmp::obeys_cmp_ord);
    reveal(vstd::laws_eq::obeys_eq_spec_properties);
}

/// What is not above a value is strictly below what that value is strictly below.
pub proof fn lemma_le_lt_trans<T: Ord>(a: T, b: T, c: T)
    requires
        lawful::<T>(),
        le(a, b),
        lt(b, c),
    ensures
        lt(a, c),
{
    reveal(vstd::laws_cmp::obeys_partial_cmp_spec_properties);
    reveal(vstd::laws_cmp::obeys_cmp_partial_ord);
    reveal(vstd::laws_cmp::obeys_cmp_ord);
    reveal(vstd::laws_eq::obeys_eq_spec_properties);
}

/// Returns whether `a` is strictly below `b`.
pub fn less<T: Ord>(a: &T, b: &T) -> (r: bool)
    requires
        lawful::<T>(),
    ensures
        r == lt(*a, *b),
{
    proof {
        reveal(vstd::laws_cmp::obeys_cmp_partial_ord);
    }
    *a < *b
}

} // verus!
