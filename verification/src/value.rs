//! What the containers of this crate ask of the values they hold: that `==`
//! decides equality, and that a clone equals the value it was made from.

use vstd::prelude::*;
use vstd::laws_eq::obeys_concrete_eq;

verus! {

/// `==` on `T` is exactly equality of values.
pub open spec fn eq_is_exact<T: PartialEq>() -> bool {
    obeys_concrete_eq::<T>()
}

/// Every clone of a `T` equals the value it was cloned from.
pub open spec fn clone_is_exact<T: Clone>() -> bool {
    forall|a: T, b: T| #[trigger] cloned(a, b) ==> a == b
}

/// Compares two values with `==`.
pub fn same<T: PartialEq>(a: &T, b: &T) -> (r: bool)
    requires
        eq_is_exact::<T>(),
    ensures
        r == (*a == *b),
{
    proof {
        reveal(obeys_concrete_eq);
    }
    *a == *b
}

/// Clones a value.
pub fn duplicate<T: Clone>(a: &T) -> (r: T)
    requires
        clone_is_exact::<T>(),
    ensures
        r == *a,
{
    let r = a.clone();
    assert(cloned(*a, r));
    r
}

/// The laws hold for `Option<T>` whenever `==` on `T` is exact.
pub proof fn lemma_option_eq_is_exact<T: PartialEq>()
    requires
        eq_is_exact::<T>(),
    ensures
        eq_is_exact::<Option<T>>(),
{
    broadcast use vstd::laws_eq::lemma_option_obeys_concrete_eq;
}

/// Both laws hold for `bool` and for the integer types.
pub proof fn lemma_plain_values()
    ensures
        eq_is_exact::<bool>() && clone_is_exact::<bool>(),
        eq_is_exact::<u8>() && clone_is_exact::<u8>(),
        eq_is_exact::<u16>() && clone_is_exact::<u16>(),
        eq_is_exact::<u32>() && clone_is_exact::<u32>(),
        eq_is_exact::<u64>() && clone_is_exact::<u64>(),
        eq_is_exact::<usize>() && clone_is_exact::<usize>(),
        eq_is_exact::<i8>() && clone_is_exact::<i8>(),
        eq_is_exact::<i16>() && clone_is_exact::<i16>(),
        eq_is_exact::<i32>() && clone_is_exact::<i32>(),
        eq_is_exact::<i64>() && clone_is_exact::<i64>(),
        eq_is_exact::<isize>() && clone_is_exact::<isize>(),
{
    broadcast use vstd::laws_eq::group_laws_eq;

}

} // verus!
