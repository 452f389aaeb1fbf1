//! The placement of enumeration members, stated over sequences.
//!
//! A declared set is a sequence of `(value, name)` pairs in declaration
//! order. An explicit entry is a `(value, name, ordinal)` triple: the member
//! with that value asks for the position `ordinal`. A position that an
//! explicit entry asks for is *claimed*; the others are *free* and are filled,
//! in order, by the declared members that no explicit entry names.

use vstd::prelude::*;
use vstd::seq_lib::to_multiset_contains;
use vstd::set_lib::lemma_subset_equality;
use crate::resolver::OrderDeclsError;

verus! {

/// The values of the declared members, in declaration order.
pub open spec fn decl_values<T, Name>(total: Seq<(T, Name)>) -> Seq<T> {
    Seq::new(total.len(), |i: int| total[i].0)
}

/// The values of the explicit entries, in the order of the entries.
pub open spec fn specified_values<T, Name>(specified: Seq<(T, Name, u128)>) -> Seq<T> {
    Seq::new(specified.len(), |j: int| specified[j].0)
}

/// Whether an explicit entry names `value`.
pub open spec fn is_specified<T, Name>(specified: Seq<(T, Name, u128)>, value: T) -> bool {
    exists|j: int| 0 <= j < specified.len() && (#[trigger] specified[j]).0 == value
}

/// The test that keeps the declared members that no explicit entry names.
pub open spec fn unspecified_only<T, Name>(specified: Seq<(T, Name, u128)>) -> spec_fn(
    (T, Name),
) -> bool {
    |decl: (T, Name)| !is_specified(specified, decl.0)
}

/// The declared members that no explicit entry names, in declaration order.
pub open spec fn unspecified_decls<T, Name>(
    total: Seq<(T, Name)>,
    specified: Seq<(T, Name, u128)>,
) -> Seq<(T, Name)> {
    total.filter(unspecified_only(specified))
}

/// The index of the first explicit entry at or after `from` that asks for
/// position `pos`.
pub open spec fn claim_scan<T, Name>(specified: Seq<(T, Name, u128)>, pos: int, from: int) -> Option<
    int,
>
    decreases specified.len() - from,
{
    if from < 0 || from >= specified.len() {
        None
    } else if specified[from].2 == pos {
        Some(from)
    } else {
        claim_scan(specified, pos, from + 1)
    }
}

/// The explicit entry that wins position `pos`: the first one that asks for
/// it.
pub open spec fn claimant<T, Name>(specified: Seq<(T, Name, u128)>, pos: int) -> Option<int> {
    claim_scan(specified, pos, 0)
}

/// The number of free positions before `pos`.
pub open spec fn free_before<T, Name>(specified: Seq<(T, Name, u128)>, pos: int) -> int
    decreases pos,
{
    if pos <= 0 {
        0
    } else {
        free_before(specified, pos - 1) + if claimant(specified, pos - 1) is None {
            1int
        } else {
            0int
        }
    }
}

/// Whether every free position can be filled: there are at least as many
/// unspecified members as free positions.
pub open spec fn placement_fits<T, Name>(
    total: Seq<(T, Name)>,
    specified: Seq<(T, Name, u128)>,
) -> bool {
    free_before(specified, total.len() as int) <= unspecified_decls(total, specified).len()
}

/// The member placed at position `pos`: the claimant if the position is
/// claimed, else the unspecified member whose rank is the number of free
/// positions before `pos`.
pub open spec fn placed<T, Name>(
    total: Seq<(T, Name)>,
    specified: Seq<(T, Name, u128)>,
    pos: int,
) -> (T, Name) {
    match claimant(specified, pos) {
        Some(j) => (specified[j].0, specified[j].1),
        None => unspecified_decls(total, specified)[free_before(specified, pos)],
    }
}

/// The values placed at the positions `0 .. total.len()`.
pub open spec fn resolved_order<T, Name>(
    total: Seq<(T, Name)>,
    specified: Seq<(T, Name, u128)>,
) -> Seq<T> {
    Seq::new(total.len(), |pos: int| placed(total, specified, pos).0)
}

/// The names placed at the positions `0 .. total.len()`.
pub open spec fn resolved_names<T, Name>(
    total: Seq<(T, Name)>,
    specified: Seq<(T, Name, u128)>,
) -> Seq<Name> {
    Seq::new(total.len(), |pos: int| placed(total, specified, pos).1)
}

/// Whether `order` holds exactly the values of `declared`, each once, and no
/// value is declared twice.
pub open spec fn is_exact_permutation<T>(order: Seq<T>, declared: Seq<T>) -> bool {
    declared.no_duplicates() && order.to_multiset() == declared.to_multiset()
}

/// Whether resolution succeeds: every free position can be filled, and the
/// placed values are exactly the declared values.
pub open spec fn resolves<T, Name>(total: Seq<(T, Name)>, specified: Seq<(T, Name, u128)>) -> bool {
    placement_fits(total, specified) && is_exact_permutation(
        resolved_order(total, specified),
        decl_values(total),
    )
}

/// The outcome of resolution: the placed values and names where resolution
/// succeeds; `RanOutOfDecls` where some free position cannot be filled;
/// `FinalSliceMissingEntries` where every position is filled, but not with
/// exactly the declared values.
pub open spec fn resolution<T, Name>(
    total: Seq<(T, Name)>,
    specified: Seq<(T, Name, u128)>,
) -> Result<(Seq<T>, Seq<Name>), OrderDeclsError> {
    if !placement_fits(total, specified) {
        Err(OrderDeclsError::RanOutOfDecls)
    } else if !is_exact_permutation(resolved_order(total, specified), decl_values(total)) {
        Err(OrderDeclsError::FinalSliceMissingEntries)
    } else {
        Ok((resolved_order(total, specified), resolved_names(total, specified)))
    }
}

/// Whether the explicit entries name distinct declared members.
pub open spec fn is_explicit_subset<T, Name>(
    total: Seq<(T, Name)>,
    specified: Seq<(T, Name, u128)>,
) -> bool {
    &&& specified_values(specified).no_duplicates()
    &&& forall|j: int|
        0 <= j < specified.len() ==> decl_values(total).contains((#[trigger] specified[j]).0)
}

/// Whether the explicit ordinals are pairwise different and each lies in
/// `0 .. total.len()`.
pub open spec fn ordinals_in_place<T, Name>(
    total: Seq<(T, Name)>,
    specified: Seq<(T, Name, u128)>,
) -> bool {
    &&& forall|j: int| 0 <= j < specified.len() ==> (#[trigger] specified[j]).2 < total.len()
    &&& forall|j: int, k: int|
        0 <= j < k < specified.len() ==> (#[trigger] specified[j]).2 != (#[trigger] specified[k]).2
}

/// Whether a description is well formed: the declared values are pairwise
/// different, the explicit entries name distinct declared members, and their
/// ordinals are pairwise different positions of the order.
pub open spec fn valid_decls<T, Name>(
    total: Seq<(T, Name)>,
    specified: Seq<(T, Name, u128)>,
) -> bool {
    &&& decl_values(total).no_duplicates()
    &&& is_explicit_subset(total, specified)
    &&& ordinals_in_place(total, specified)
}

/// A scan from `from` finds the first entry at or after `from` that asks for
/// `pos`, and finds none exactly when no such entry asks for it.
pub proof fn lemma_claim_scan<T, Name>(specified: Seq<(T, Name, u128)>, pos: int, from: int)
    requires
        0 <= from,
    ensures
        match claim_scan(specified, pos, from) {
            Some(j) => from <= j < specified.len() && specified[j].2 == pos && forall|k: int|
                from <= k < j ==> (#[trigger] specified[k]).2 != pos,
            None => forall|k: int|
                from <= k < specified.len() ==> (#[trigger] specified[k]).2 != pos,
        },
    decreases specified.len() - from,
{
    if from < specified.len() && specified[from].2 != pos {
        lemma_claim_scan(specified, pos, from + 1);
    }
}

/// The count of free positions never decreases, and grows by at most one per
/// position.
pub proof fn lemma_free_before_monotone<T, Name>(specified: Seq<(T, Name, u128)>, a: int, b: int)
    requires
        0 <= a <= b,
    ensures
        0 <= free_before(specified, a) <= free_before(specified, b),
        free_before(specified, b) - free_before(specified, a) <= b - a,
    decreases b,
{
    if a < b {
        lemma_free_before_monotone(specified, a, b - 1);
    } else if a > 0 {
        lemma_free_before_monotone(specified, a - 1, a - 1);
    }
}

/// An explicit entry names a value exactly when the value is among the values
/// of the explicit entries.
pub proof fn lemma_is_specified_contains<T, Name>(specified: Seq<(T, Name, u128)>, value: T)
    ensures
        is_specified(specified, value) <==> specified_values(specified).contains(value),
{
    let values = specified_values(specified);
    if is_specified(specified, value) {
        let j = choose|j: int| 0 <= j < specified.len() && (#[trigger] specified[j]).0 == value;
        assert(values[j] == value);
    }
    if values.contains(value) {
        let j = choose|j: int| 0 <= j < values.len() && values[j] == value;
        assert(specified[j].0 == value);
    }
}

/// Two sequences without repeated values that hold the same set of values
/// hold each value equally often.
pub proof fn lemma_same_values_same_multiset<T>(a: Seq<T>, b: Seq<T>)
    requires
        a.no_duplicates(),
        b.no_duplicates(),
        a.to_set() == b.to_set(),
    ensures
        a.to_multiset() == b.to_multiset(),
{
    a.lemma_multiset_has_no_duplicates();
    b.lemma_multiset_has_no_duplicates();
    assert forall|v: T| a.to_multiset().count(v) == b.to_multiset().count(v) by {
        to_multiset_contains(a, v);
        to_multiset_contains(b, v);
        assert(a.contains(v) <==> a.to_set().contains(v));
        assert(b.contains(v) <==> b.to_set().contains(v));
    }
    assert(a.to_multiset() =~= b.to_multiset());
}

/// A sequence in which every declared value occurs exactly once, and which is
/// as long as the declared sequence, is an exact permutation of it, provided
/// that every declared value is declared once.
pub proof fn lemma_once_each_is_permutation<T>(order: Seq<T>, declared: Seq<T>)
    requires
        order.len() == declared.len(),
        forall|j: int|
            0 <= j < declared.len() ==> order.to_multiset().count(#[trigger] declared[j]) == 1
                && declared.to_multiset().count(declared[j]) == 1,
    ensures
        is_exact_permutation(order, declared),
{
    assert forall|v: T| declared.to_multiset().contains(v) implies declared.to_multiset().count(v)
        == 1 by {
        to_multiset_contains(declared, v);
        let j = choose|j: int| 0 <= j < declared.len() && declared[j] == v;
        assert(declared[j] == v);
    }
    declared.lemma_multiset_has_no_duplicates_conv();
    // Every declared value is in `order`, so `order` holds at least the
    // declared values; being no longer, it holds no others and none twice.
    assert forall|v: T| declared.to_set().contains(v) implies order.to_set().contains(v) by {
        let j = choose|j: int| 0 <= j < declared.len() && declared[j] == v;
        assert(order.to_multiset().count(declared[j]) == 1);
        to_multiset_contains(order, v);
    }
    assert(declared.to_set().subset_of(order.to_set()));
    declared.unique_seq_to_set();
    order.lemma_cardinality_of_set();
    vstd::seq_lib::seq_to_set_is_finite(order);
    vstd::set_lib::lemma_len_subset(declared.to_set(), order.to_set());
    lemma_subset_equality(declared.to_set(), order.to_set());
    order.lemma_no_dup_set_cardinality();
    lemma_same_values_same_multiset(order, declared);
}

/// A declared value that does not occur exactly once in `order`, or is
/// declared more than once, rules out an exact permutation.
pub proof fn lemma_miscount_is_no_permutation<T>(order: Seq<T>, declared: Seq<T>, j: int)
    requires
        0 <= j < declared.len(),
        order.to_multiset().count(declared[j]) != 1 || declared.to_multiset().count(declared[j])
            != 1,
    ensures
        !is_exact_permutation(order, declared),
{
    if declared.no_duplicates() {
        declared.lemma_multiset_has_no_duplicates();
        to_multiset_contains(declared, declared[j]);
        assert(declared.contains(declared[j]));
        assert(declared.to_multiset().count(declared[j]) == 1);
    }
}

} // verus!
