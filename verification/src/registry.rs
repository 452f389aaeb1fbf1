//! The resolved order of one enumeration, computed once and then only read.

use vstd::prelude::*;
use vstd::laws_eq::obeys_concrete_eq;
use crate::buffer::{mkslice, slice_index};
use crate::guarantees::lemma_resolution_succeeds_iff_valid;
use crate::placement::{is_explicit_subset, resolution, valid_decls};
use crate::resolver::{order_decls_properly, OrderDeclsError};

verus! {

/// The `N` members of an enumeration in their resolved order, with their
/// names.
///
/// A value of this type exists only for a description that resolved, and
/// nothing changes it afterwards.
pub struct EnumOrder<'a, T, const N: usize> {
    order: [T; N],
    names: [&'a [u8]; N],
}

impl<'a, T: Copy + PartialEq, const N: usize> EnumOrder<'a, T, N> {
    /// The members, by position.
    pub closed spec fn order(&self) -> Seq<T> {
        self.order@
    }

    /// The names of the members, by position.
    pub closed spec fn names(&self) -> Seq<&'a [u8]> {
        self.names@
    }

    /// Resolves the description of an enumeration and keeps the outcome.
    ///
    /// `declared` lists the members in declaration order, `explicit` those
    /// that ask for a position. A description that does not resolve yields
    /// the resolver's error and no order.
    pub fn register<const LEN_SPECIFIED: usize>(
        declared: &[(T, &'a [u8]); N],
        explicit: &[(T, &'a [u8], u128); LEN_SPECIFIED],
    ) -> (res: Result<Self, OrderDeclsError>)
        requires
            obeys_concrete_eq::<T>(),
        ensures
            match res {
                Ok(registered) => resolution(declared@, explicit@) == Ok::<_, OrderDeclsError>(
                    (registered.order(), registered.names()),
                ),
                Err(e) => resolution(declared@, explicit@) == Err::<(Seq<T>, Seq<&[u8]>), _>(e),
            },
            is_explicit_subset(declared@, explicit@) ==> (res is Ok <==> valid_decls(
                declared@,
                explicit@,
            )),
    {
        proof {
            if is_explicit_subset(declared@, explicit@) {
                lemma_resolution_succeeds_iff_valid(declared@, explicit@);
            }
        }
        match order_decls_properly(declared, explicit) {
            Ok((order, names)) => Ok(EnumOrder { order, names }),
            Err(e) => Err(e),
        }
    }

    /// The number of members.
    pub fn count(&self) -> (n: usize)
        ensures
            n == N,
            n == self.order().len(),
            n == self.names().len(),
    {
        N
    }

    /// The member at position `i`, if there is such a position.
    pub fn order_at(&self, i: usize) -> (member: Option<T>)
        ensures
            member == if i < N {
                Some(self.order()[i as int])
            } else {
                None
            },
    {
        if i < N {
            Some(*slice_index(mkslice(&self.order), i))
        } else {
            None
        }
    }

    /// The name of the member at position `i`, if there is such a position.
    pub fn name_at(&self, i: usize) -> (name: Option<&'a [u8]>)
        ensures
            name == if i < N {
                Some(self.names()[i as int])
            } else {
                None
            },
    {
        if i < N {
            Some(*slice_index(mkslice(&self.names), i))
        } else {
            None
        }
    }
}

} // verus!
