//! Resolution of a declared set and its explicit entries into a dense order.
//!
//! Names are NUL-terminated byte strings; resolution carries each name along
//! with its member and never reads it. Members are told apart by their
//! values alone, so `==` on the member type has to tell exactly whether two
//! values are the same value (`obeys_concrete_eq`).

use vstd::prelude::*;
use vstd::laws_eq::obeys_concrete_eq;
use vstd::seq_lib::{to_multiset_build, to_multiset_len};
use crate::buffer::{
    bitwise_partialeq,
    const_slice_bitwise_contains,
    mkarray,
    mkslice,
    slice_index,
    slice_index_mut,
};
use crate::guarantees::lemma_resolution_succeeds_iff_valid;
use crate::placement::{
    claim_scan,
    claimant,
    decl_values,
    free_before,
    is_exact_permutation,
    is_explicit_subset,
    lemma_free_before_monotone,
    lemma_is_specified_contains,
    lemma_miscount_is_no_permutation,
    lemma_once_each_is_permutation,
    placed,
    resolution,
    resolved_names,
    resolved_order,
    resolves,
    specified_values,
    unspecified_decls,
    unspecified_only,
    valid_decls,
};

verus! {

/// Why a description could not be resolved into an order.
#[derive(Clone, Copy, Debug, PartialEq, Eq, Structural)]
pub enum OrderDeclsError {
    /// A free position was reached with no unspecified member left to fill
    /// it: the explicit ordinals leave a hole in the order.
    RanOutOfDecls,
    /// The positions were all filled, but not with exactly the declared
    /// members, each once.
    FinalSliceMissingEntries,
}

/// Copies the values of the first `LEN_SPECIFIED` explicit entries, in the
/// order of the entries.
pub fn reduce_slice_to_array_of_field_copied<T: Copy, const LEN_SPECIFIED: usize>(
    slice: &[(T, &[u8], u128)],
) -> (values: [T; LEN_SPECIFIED])
    requires
        LEN_SPECIFIED <= slice@.len(),
    ensures
        values@ == specified_values(slice@.take(LEN_SPECIFIED as int)),
{
    let mut buf: Vec<T> = Vec::new();
    let mut i: usize = 0;
    while i < LEN_SPECIFIED
        invariant
            i <= LEN_SPECIFIED <= slice@.len(),
            buf@.len() == i,
            forall|k: int| 0 <= k < i ==> buf@[k] == slice@[k].0,
        decreases LEN_SPECIFIED - i,
    {
        let indexed = slice_index(slice, i);
        buf.push(indexed.0);
        i += 1;
    }
    *mkarray(buf.as_slice())
}

/// Whether the first `len` slots hold `members`, in order, and the slots
/// behind them are empty.
pub open spec fn slots_hold<Member>(
    slots: Seq<Option<Member>>,
    len: int,
    members: Seq<Member>,
) -> bool {
    &&& len == members.len()
    &&& len <= slots.len()
    &&& forall|k: int| 0 <= k < len ==> slots[k] == Some(members[k])
    &&& forall|k: int| len <= k < slots.len() ==> slots[k] is None
}

/// Collects the declared members that no explicit entry names, in declaration
/// order: they fill the first slots of the returned buffer, and the number
/// returned with it says how many there are.
///
/// Each kept member is first noted in a slot of a scratch buffer and then
/// read back from it; a slot found empty on the way back would be an
/// accounting error. None ever is, so the call always succeeds.
pub fn get_unspecified_from_unordered_and_specified_decls<
    'a,
    T: Copy + PartialEq,
    const LEN_TOTAL: usize,
    const LEN_SPECIFIED: usize,
>(
    total_unordered: &[(T, &'a [u8]); LEN_TOTAL],
    specified: &[(T, &'a [u8], u128); LEN_SPECIFIED],
) -> (res: Result<([Option<(T, &'a [u8])>; LEN_TOTAL], usize), OrderDeclsError>)
    requires
        obeys_concrete_eq::<T>(),
    ensures
        res matches Ok((unspecified, unspecified_len)) && slots_hold(
            unspecified@,
            unspecified_len as int,
            unspecified_decls(total_unordered@, specified@),
        ),
{
    let specified_array: [T; LEN_SPECIFIED] = reduce_slice_to_array_of_field_copied(
        mkslice(specified),
    );
    assert(specified@.take(LEN_SPECIFIED as int) == specified@);
    let ghost keep = unspecified_only(specified@);
    let ghost kept = unspecified_decls(total_unordered@, specified@);
    let mut unspecified: [Option<(T, &'a [u8])>; LEN_TOTAL] = [None; LEN_TOTAL];
    let mut unspecified_len: usize = 0;
    let mut i: usize = 0;
    while i < LEN_TOTAL
        invariant
            obeys_concrete_eq::<T>(),
            specified_array@ == specified_values(specified@),
            keep == unspecified_only(specified@),
            i <= LEN_TOTAL,
            unspecified_len <= i,
            slots_hold(
                unspecified@,
                unspecified_len as int,
                total_unordered@.take(i as int).filter(keep),
            ),
        decreases LEN_TOTAL - i,
    {
        let in_question = slice_index(mkslice(total_unordered), i);
        proof {
            lemma_is_specified_contains(specified@, in_question.0);
            total_unordered@.lemma_take_succ_push(i as int);
            total_unordered@.take(i as int).lemma_filter_push(*in_question, keep);
        }
        if !const_slice_bitwise_contains(mkslice(&specified_array), &in_question.0) {
            *slice_index_mut(&mut unspecified, unspecified_len) = Some(*in_question);
            unspecified_len += 1;
        }
        i += 1;
    }
    proof {
        total_unordered@.lemma_take_len();
    }
    let mut final_buf: [Option<(T, &'a [u8])>; LEN_TOTAL] = [None; LEN_TOTAL];
    let mut j: usize = 0;
    while j < unspecified_len
        invariant
            j <= unspecified_len,
            kept == unspecified_decls(total_unordered@, specified@),
            slots_hold(unspecified@, unspecified_len as int, kept),
            slots_hold(final_buf@, j as int, kept.take(j as int)),
        decreases unspecified_len - j,
    {
        let val = slice_index(mkslice(&unspecified), j);
        match *val {
            Some(t) => {
                *slice_index_mut(&mut final_buf, j) = Some(t);
            },
            None => {
                return Err(OrderDeclsError::RanOutOfDecls);
            },
        }
        j += 1;
    }
    assert(kept.take(unspecified_len as int) == kept);
    Ok((final_buf, unspecified_len))
}

/// Finds the first explicit entry that asks for position `pos`.
fn find_specified<T>(specified: &[(T, &[u8], u128)], pos: usize) -> (found: Option<usize>)
    ensures
        claimant(specified@, pos as int) == match found {
            Some(j) => Some(j as int),
            None => None,
        },
        found matches Some(j) ==> j < specified@.len(),
{
    let mut j: usize = 0;
    while j < specified.len()
        invariant
            j <= specified@.len(),
            claimant(specified@, pos as int) == claim_scan(specified@, pos as int, j as int),
        decreases specified@.len() - j,
    {
        let x = slice_index(specified, j);
        if x.2 == pos as u128 {
            return Some(j);
        }
        j += 1;
    }
    None
}

/// Counts the elements of `values` that are `needle`.
fn count_occurrences<T: PartialEq>(values: &[T], needle: &T) -> (count: usize)
    requires
        obeys_concrete_eq::<T>(),
    ensures
        count == values@.to_multiset().count(*needle),
{
    let mut count: usize = 0;
    let mut k: usize = 0;
    proof {
        to_multiset_len(values@.take(0));
    }
    while k < values.len()
        invariant
            obeys_concrete_eq::<T>(),
            k <= values@.len(),
            count <= k,
            count == values@.take(k as int).to_multiset().count(*needle),
        decreases values@.len() - k,
    {
        let candidate = slice_index(values, k);
        proof {
            values@.lemma_take_succ_push(k as int);
            to_multiset_build(values@.take(k as int), *candidate);
        }
        if bitwise_partialeq(candidate, needle) {
            count += 1;
        }
        k += 1;
    }
    proof {
        values@.lemma_take_len();
    }
    count
}

/// Checks that `result` holds exactly the declared values, each once, and
/// that no value is declared twice.
fn all_entries_from_total_exist_in_result<T: Copy + PartialEq>(
    total_unordered: &[(T, &[u8])],
    result: &[T],
) -> (exact: bool)
    requires
        obeys_concrete_eq::<T>(),
        result@.len() == total_unordered@.len(),
    ensures
        exact == is_exact_permutation(result@, decl_values(total_unordered@)),
{
    let mut declared: Vec<T> = Vec::new();
    let mut i: usize = 0;
    while i < total_unordered.len()
        invariant
            i <= total_unordered@.len(),
            declared@.len() == i,
            forall|k: int| 0 <= k < i ==> declared@[k] == total_unordered@[k].0,
        decreases total_unordered@.len() - i,
    {
        declared.push(slice_index(total_unordered, i).0);
        i += 1;
    }
    assert(declared@ == decl_values(total_unordered@));
    let mut j: usize = 0;
    while j < declared.len()
        invariant
            obeys_concrete_eq::<T>(),
            j <= declared@.len(),
            result@.len() == declared@.len(),
            declared@ == decl_values(total_unordered@),
            forall|k: int|
                0 <= k < j ==> result@.to_multiset().count(#[trigger] declared@[k]) == 1
                    && declared@.to_multiset().count(declared@[k]) == 1,
        decreases declared@.len() - j,
    {
        let ptotal = slice_index(declared.as_slice(), j);
        if count_occurrences(result, ptotal) != 1 || count_occurrences(declared.as_slice(), ptotal)
            != 1 {
            proof {
                lemma_miscount_is_no_permutation(result@, declared@, j as int);
            }
            return false;
        }
        j += 1;
    }
    proof {
        lemma_once_each_is_permutation(result@, declared@);
    }
    true
}

/// Resolves a declared set and its explicit entries into a dense order.
///
/// Position `i` of the order receives the first explicit entry whose ordinal
/// is `i`; a position that no entry asks for receives the next member, in
/// declaration order, that no explicit entry names. The names follow their
/// members. The order is returned only if it holds exactly the declared
/// values, each once; no partial order is ever returned.
pub fn order_decls_properly<
    'a,
    T: Copy + PartialEq,
    const LEN_TOTAL: usize,
    const LEN_SPECIFIED: usize,
>(
    total_unordered: &[(T, &'a [u8]); LEN_TOTAL],
    specified: &[(T, &'a [u8], u128); LEN_SPECIFIED],
) -> (res: Result<([T; LEN_TOTAL], [&'a [u8]; LEN_TOTAL]), OrderDeclsError>)
    requires
        obeys_concrete_eq::<T>(),
    ensures
        match res {
            Ok((order, names)) => resolution(total_unordered@, specified@) == Ok::<
                _,
                OrderDeclsError,
            >((order@, names@)),
            Err(e) => resolution(total_unordered@, specified@) == Err::<(Seq<T>, Seq<&[u8]>), _>(e),
        },
        res matches Ok((order, _)) ==> is_exact_permutation(
            order@,
            decl_values(total_unordered@),
        ),
        is_explicit_subset(total_unordered@, specified@) ==> (res is Ok <==> valid_decls(
            total_unordered@,
            specified@,
        )),
{
    proof {
        if is_explicit_subset(total_unordered@, specified@) {
            lemma_resolution_succeeds_iff_valid(total_unordered@, specified@);
        }
    }
    let res = match get_unspecified_from_unordered_and_specified_decls(
        total_unordered,
        specified,
    ) {
        Ok(t) => t,
        Err(e) => return Err(e),
    };
    let unspecified: [Option<(T, &'a [u8])>; LEN_TOTAL] = res.0;
    let unspecified_len: usize = res.1;
    let ghost kept = unspecified_decls(total_unordered@, specified@);
    let mut result_t: Vec<T> = Vec::new();
    let mut result_char: Vec<&'a [u8]> = Vec::new();
    let mut unspecified_iter: usize = 0;
    let mut i: usize = 0;
    while i < LEN_TOTAL
        invariant
            i <= LEN_TOTAL,
            is_explicit_subset(total_unordered@, specified@) ==> (resolves(
                total_unordered@,
                specified@,
            ) <==> valid_decls(total_unordered@, specified@)),
            kept == unspecified_decls(total_unordered@, specified@),
            slots_hold(unspecified@, unspecified_len as int, kept),
            result_t@.len() == i,
            result_char@.len() == i,
            unspecified_iter == free_before(specified@, i as int),
            unspecified_iter <= unspecified_len,
            forall|p: int|
                0 <= p < i ==> (result_t@[p], result_char@[p]) == placed(
                    total_unordered@,
                    specified@,
                    p,
                ),
        decreases LEN_TOTAL - i,
    {
        if let Some(j) = find_specified(mkslice(specified), i) {
            let found = slice_index(mkslice(specified), j);
            result_t.push(found.0);
            result_char.push(found.1);
        } else if let Some(unsp) = if unspecified_iter < unspecified_len {
            *slice_index(mkslice(&unspecified), unspecified_iter)
        } else {
            None
        } {
            unspecified_iter += 1;
            result_t.push(unsp.0);
            result_char.push(unsp.1);
        } else {
            proof {
                lemma_free_before_monotone(specified@, i as int + 1, LEN_TOTAL as int);
            }
            return Err(OrderDeclsError::RanOutOfDecls);
        }
        i += 1;
    }
    assert(result_t@ == resolved_order(total_unordered@, specified@));
    assert(result_char@ == resolved_names(total_unordered@, specified@));
    if !all_entries_from_total_exist_in_result(mkslice(total_unordered), result_t.as_slice()) {
        return Err(OrderDeclsError::FinalSliceMissingEntries);
    }
    Ok((*mkarray(result_t.as_slice()), *mkarray(result_char.as_slice())))
}

} // verus!
