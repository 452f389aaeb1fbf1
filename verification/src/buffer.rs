//! Bounds-checked access to buffers, and comparison of values by identity.
//!
//! Values are compared with `==`, and the functions that do so ask that `==`
//! on the type tells exactly whether two values are the same value
//! (`obeys_concrete_eq`), as it does for integers and for enumerations
//! without data.

use vstd::prelude::*;
use vstd::laws_eq::obeys_concrete_eq;

verus! {

/// Returns the element of `slice` at `index`.
pub fn slice_index<T>(slice: &[T], index: usize) -> (element: &T)
    requires
        index < slice@.len(),
    ensures
        *element == slice@[index as int],
{
    &slice[index]
}

/// Returns the element of `slice` at `index` for writing: what the caller
/// leaves in it replaces that element, and no other element changes.
pub fn slice_index_mut<T>(slice: &mut [T], index: usize) -> (element: &mut T)
    requires
        index < old(slice)@.len(),
    ensures
        *element == old(slice)@[index as int],
        final(slice)@ == old(slice)@.update(index as int, *final(element)),
{
    &mut slice[index]
}

/// Whether `lhs` and `rhs` are the same value.
pub fn bitwise_partialeq<T: PartialEq>(lhs: &T, rhs: &T) -> (same: bool)
    requires
        obeys_concrete_eq::<T>(),
    ensures
        same == (*lhs == *rhs),
{
    proof {
        reveal(obeys_concrete_eq);
    }
    *lhs == *rhs
}

/// Whether `needle` is one of the values in `haystack`.
pub fn const_slice_bitwise_contains<T: PartialEq>(haystack: &[T], needle: &T) -> (found: bool)
    requires
        obeys_concrete_eq::<T>(),
    ensures
        found == haystack@.contains(*needle),
{
    let mut i: usize = 0;
    while i < haystack.len()
        invariant
            i <= haystack@.len(),
            obeys_concrete_eq::<T>(),
            forall|k: int| 0 <= k < i ==> haystack@[k] != *needle,
        decreases haystack@.len() - i,
    {
        let indexed = slice_index(haystack, i);
        if bitwise_partialeq(indexed, needle) {
            return true;
        }
        i += 1;
    }
    false
}

/// The elements of a slice of `N` elements, as an array.
///
/// Rests on `TryFrom<&[T]> for &[T; N]` of the standard library, which is
/// not verified here: for a slice of exactly `N` elements it succeeds with a
/// reference to the same elements.
#[verifier::external_body]
pub fn mkarray<T, const N: usize>(slice: &[T]) -> (array: &[T; N])
    requires
        slice@.len() == N,
    ensures
        array@ == slice@,
{
    <&[T; N]>::try_from(slice).expect("slice length does not match array length")
}

/// The elements of an array, as a slice.
pub fn mkslice<T, const N: usize>(array: &[T; N]) -> (slice: &[T])
    ensures
        slice@ == array@,
{
    array.as_slice()
}

} // verus!
