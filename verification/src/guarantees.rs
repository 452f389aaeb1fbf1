//! What resolution guarantees, proved from the placement rules.

use vstd::prelude::*;
use vstd::seq_lib::to_multiset_contains;
use vstd::set_lib::lemma_subset_equality;
use crate::resolver::OrderDeclsError;
use crate::placement::{
    claimant,
    decl_values,
    free_before,
    is_explicit_subset,
    is_specified,
    lemma_claim_scan,
    lemma_free_before_monotone,
    lemma_same_values_same_multiset,
    ordinals_in_place,
    placed,
    placement_fits,
    resolution,
    resolved_names,
    resolved_order,
    resolves,
    specified_values,
    unspecified_decls,
    unspecified_only,
    valid_decls,
};

verus! {

/// The number of unspecified members among the first `n` declared members.
pub open spec fn unspecified_before<T, Name>(
    total: Seq<(T, Name)>,
    specified: Seq<(T, Name, u128)>,
    n: int,
) -> int {
    total.take(n).filter(unspecified_only(specified)).len() as int
}

/// Extending the declared prefix by one member extends the unspecified
/// members by that member if no explicit entry names it, and leaves them as
/// they are otherwise. The unspecified members of a prefix open those of the
/// whole declared set.
proof fn lemma_unspecified_step<T, Name>(
    total: Seq<(T, Name)>,
    specified: Seq<(T, Name, u128)>,
    i: int,
)
    requires
        0 <= i < total.len(),
    ensures
        0 <= unspecified_before(total, specified, i) <= i,
        unspecified_before(total, specified, i + 1) == unspecified_before(total, specified, i)
            + if is_specified(specified, total[i].0) {
            0int
        } else {
            1int
        },
        unspecified_before(total, specified, i + 1) <= unspecified_decls(total, specified).len(),
        !is_specified(specified, total[i].0) ==> unspecified_decls(
            total,
            specified,
        )[unspecified_before(total, specified, i)] == total[i],
{
    let keep = unspecified_only(specified);
    total.lemma_take_succ_push(i);
    total.take(i).lemma_filter_push(total[i], keep);
    total.take(i).lemma_filter_len(keep);
    total.take(i + 1).lemma_filter_monotone(total, keep);
    if !is_specified(specified, total[i].0) {
        let grown = total.take(i + 1).filter(keep);
        let all = unspecified_decls(total, specified);
        let rank = unspecified_before(total, specified, i);
        assert(grown[rank] == total[i]);
        assert(all.subrange(0, grown.len() as int)[rank] == all[rank]);
    }
}

/// The count of unspecified members among the first `n` declared members
/// never decreases with `n`, and reaches the number of all unspecified
/// members at the end.
proof fn lemma_unspecified_before_monotone<T, Name>(
    total: Seq<(T, Name)>,
    specified: Seq<(T, Name, u128)>,
    a: int,
    b: int,
)
    requires
        0 <= a <= b <= total.len(),
    ensures
        0 <= unspecified_before(total, specified, a) <= unspecified_before(total, specified, b),
        unspecified_before(total, specified, b) <= unspecified_decls(total, specified).len(),
        unspecified_before(total, specified, total.len() as int) == unspecified_decls(
            total,
            specified,
        ).len(),
    decreases b - a,
{
    let keep = unspecified_only(specified);
    total.lemma_take_len();
    total.take(b).lemma_filter_monotone(total, keep);
    if a < b {
        lemma_unspecified_step(total, specified, a);
        lemma_unspecified_before_monotone(total, specified, a + 1, b);
    }
}

/// Every unspecified member is a declared member that no explicit entry
/// names, and its rank among the unspecified members is the number of such
/// members declared before it. Returns its index in the declared set.
proof fn lemma_unspecified_source<T, Name>(
    total: Seq<(T, Name)>,
    specified: Seq<(T, Name, u128)>,
    u: int,
    n: int,
) -> (i: int)
    requires
        0 <= n <= total.len(),
        0 <= u < unspecified_before(total, specified, n),
    ensures
        0 <= i < n,
        !is_specified(specified, total[i].0),
        unspecified_before(total, specified, i) == u,
        unspecified_decls(total, specified)[u] == total[i],
    decreases n,
{
    if n == 0 {
        assert(total.take(0) =~= Seq::empty());
        total.take(0).lemma_filter_len(unspecified_only(specified));
        0
    } else {
        lemma_unspecified_step(total, specified, n - 1);
        if u < unspecified_before(total, specified, n - 1) {
            lemma_unspecified_source(total, specified, u, n - 1)
        } else {
            n - 1
        }
    }
}

/// No member of an empty prefix is unspecified.
proof fn lemma_unspecified_before_zero<T, Name>(
    total: Seq<(T, Name)>,
    specified: Seq<(T, Name, u128)>,
)
    ensures
        unspecified_before(total, specified, 0) == 0,
{
    assert(total.take(0) =~= Seq::empty());
    total.take(0).lemma_filter_len(unspecified_only(specified));
}

/// A position is claimed by a list of entries exactly when it is claimed by
/// the list without its last entry, or the last entry asks for it.
proof fn lemma_claimant_drop_last<T, Name>(specified: Seq<(T, Name, u128)>, pos: int)
    requires
        specified.len() > 0,
    ensures
        claimant(specified, pos) is None <==> claimant(specified.drop_last(), pos) is None
            && specified.last().2 != pos,
{
    let rest = specified.drop_last();
    lemma_claim_scan(specified, pos, 0);
    lemma_claim_scan(rest, pos, 0);
    if claimant(specified, pos) is None {
        assert forall|k: int| 0 <= k < rest.len() implies (#[trigger] rest[k]).2 != pos by {
            assert(specified[k].2 != pos);
        }
        assert(specified[specified.len() - 1].2 != pos);
    } else {
        let j = claimant(specified, pos)->0;
        if j < rest.len() {
            assert(rest[j].2 == pos);
        }
    }
    if claimant(rest, pos) is None && specified.last().2 != pos {
        assert forall|k: int| 0 <= k < specified.len() implies (#[trigger] specified[k]).2
            != pos by {
            if k < rest.len() {
                assert(rest[k].2 != pos);
            }
        }
    }
}

/// An entry that asks for a position which no earlier entry asks for takes
/// one free position away: the one it asks for.
proof fn lemma_free_before_drop_last<T, Name>(specified: Seq<(T, Name, u128)>, n: int)
    requires
        specified.len() > 0,
        0 <= n,
        claimant(specified.drop_last(), specified.last().2 as int) is None,
    ensures
        free_before(specified, n) == free_before(specified.drop_last(), n) - if specified.last().2
            < n {
            1int
        } else {
            0int
        },
    decreases n,
{
    if n > 0 {
        lemma_free_before_drop_last(specified, n - 1);
        lemma_claimant_drop_last(specified, n - 1);
    }
}

/// Entries with pairwise different ordinals below `n` leave `n` less their
/// number of the first `n` positions free.
proof fn lemma_free_count<T, Name>(specified: Seq<(T, Name, u128)>, n: int)
    requires
        0 <= n,
        forall|j: int| 0 <= j < specified.len() ==> (#[trigger] specified[j]).2 < n,
        forall|j: int, k: int|
            0 <= j < k < specified.len() ==> (#[trigger] specified[j]).2
                != (#[trigger] specified[k]).2,
    ensures
        free_before(specified, n) == n - specified.len(),
    decreases specified.len(), n,
{
    if specified.len() == 0 {
        if n > 0 {
            lemma_free_count(specified, n - 1);
        }
    } else {
        let rest = specified.drop_last();
        let last = specified.last();
        assert(last == specified[specified.len() - 1]);
        assert forall|j: int| 0 <= j < rest.len() implies (#[trigger] rest[j]).2 < n by {
            assert(rest[j] == specified[j]);
        }
        assert forall|j: int, k: int| 0 <= j < k < rest.len() implies (#[trigger] rest[j]).2 != (
        #[trigger] rest[k]).2 by {
            assert(rest[j] == specified[j]);
            assert(rest[k] == specified[k]);
        }
        lemma_free_count(rest, n);
        lemma_claim_scan(rest, last.2 as int, 0);
        if claimant(rest, last.2 as int) is Some {
            let j = claimant(rest, last.2 as int)->0;
            assert(rest[j] == specified[j]);
        }
        lemma_free_before_drop_last(specified, n);
    }
}

/// A list of entries names a value exactly when the list without its last
/// entry names it, or the last entry does.
proof fn lemma_is_specified_drop_last<T, Name>(specified: Seq<(T, Name, u128)>, value: T)
    requires
        specified.len() > 0,
    ensures
        is_specified(specified, value) <==> is_specified(specified.drop_last(), value)
            || specified.last().0 == value,
{
    let rest = specified.drop_last();
    if is_specified(specified, value) {
        let j = choose|j: int| 0 <= j < specified.len() && (#[trigger] specified[j]).0 == value;
        if j < rest.len() {
            assert(rest[j].0 == value);
        }
    }
    if is_specified(rest, value) {
        let j = choose|j: int| 0 <= j < rest.len() && (#[trigger] rest[j]).0 == value;
        assert(specified[j].0 == value);
    }
    if specified.last().0 == value {
        assert(specified[specified.len() - 1].0 == value);
    }
}

/// An entry that names a declared member which no earlier entry names takes
/// one unspecified member away: the one it names.
proof fn lemma_unspecified_before_drop_last<T, Name>(
    total: Seq<(T, Name)>,
    specified: Seq<(T, Name, u128)>,
    named: int,
    n: int,
)
    requires
        specified.len() > 0,
        0 <= n <= total.len(),
        0 <= named < total.len(),
        decl_values(total).no_duplicates(),
        total[named].0 == specified.last().0,
        !is_specified(specified.drop_last(), specified.last().0),
    ensures
        unspecified_before(total, specified, n) == unspecified_before(
            total,
            specified.drop_last(),
            n,
        ) - if named < n {
            1int
        } else {
            0int
        },
    decreases n,
{
    if n == 0 {
        lemma_unspecified_before_zero(total, specified);
        lemma_unspecified_before_zero(total, specified.drop_last());
    } else {
        lemma_unspecified_before_drop_last(total, specified, named, n - 1);
        lemma_unspecified_step(total, specified, n - 1);
        lemma_unspecified_step(total, specified.drop_last(), n - 1);
        lemma_is_specified_drop_last(specified, total[n - 1].0);
        if n - 1 != named {
            assert(decl_values(total)[n - 1] != decl_values(total)[named]);
        }
    }
}

/// Entries that name distinct declared members, of a declared set without
/// repeated values, leave all but as many members as there are entries
/// unspecified.
proof fn lemma_unspecified_count<T, Name>(total: Seq<(T, Name)>, specified: Seq<(T, Name, u128)>)
    requires
        decl_values(total).no_duplicates(),
        is_explicit_subset(total, specified),
    ensures
        unspecified_decls(total, specified).len() == total.len() - specified.len(),
    decreases specified.len(), total.len(),
{
    lemma_unspecified_before_monotone(total, specified, 0, total.len() as int);
    if specified.len() == 0 {
        lemma_unspecified_all_kept(total, specified, total.len() as int);
    } else {
        let rest = specified.drop_last();
        let last = specified.last();
        assert(last == specified[specified.len() - 1]);
        assert(specified_values(rest).no_duplicates()) by {
            assert forall|j: int, k: int|
                0 <= j < rest.len() && 0 <= k < rest.len() && j != k implies specified_values(
                rest,
            )[j] != specified_values(rest)[k] by {
                assert(specified_values(specified)[j] != specified_values(specified)[k]);
            }
        }
        assert forall|j: int| 0 <= j < rest.len() implies decl_values(total).contains(
            (#[trigger] rest[j]).0,
        ) by {
            assert(rest[j] == specified[j]);
        }
        lemma_unspecified_count(total, rest);
        if is_specified(rest, last.0) {
            let j = choose|j: int| 0 <= j < rest.len() && (#[trigger] rest[j]).0 == last.0;
            assert(specified_values(specified)[j] == specified_values(specified)[specified.len()
                - 1]);
        }
        let values = decl_values(total);
        assert(values.contains(last.0));
        let named = choose|i: int| 0 <= i < values.len() && values[i] == last.0;
        lemma_unspecified_before_monotone(total, rest, 0, total.len() as int);
        lemma_unspecified_before_drop_last(total, specified, named, total.len() as int);
    }
}

/// Where no entry names anything, every declared member is unspecified.
proof fn lemma_unspecified_all_kept<T, Name>(
    total: Seq<(T, Name)>,
    specified: Seq<(T, Name, u128)>,
    n: int,
)
    requires
        specified.len() == 0,
        0 <= n <= total.len(),
    ensures
        unspecified_before(total, specified, n) == n,
    decreases n,
{
    if n == 0 {
        lemma_unspecified_before_zero(total, specified);
    } else {
        lemma_unspecified_all_kept(total, specified, n - 1);
        lemma_unspecified_step(total, specified, n - 1);
    }
}

/// Where every free position can be filled, a free position below the end
/// holds an unspecified member: a declared member that no explicit entry
/// names. Returns the index of that member in the declared set.
proof fn lemma_free_position<T, Name>(
    total: Seq<(T, Name)>,
    specified: Seq<(T, Name, u128)>,
    pos: int,
) -> (i: int)
    requires
        placement_fits(total, specified),
        0 <= pos < total.len(),
        claimant(specified, pos) is None,
    ensures
        0 <= free_before(specified, pos) < unspecified_decls(total, specified).len(),
        0 <= i < total.len(),
        placed(total, specified, pos) == total[i],
        !is_specified(specified, total[i].0),
        unspecified_before(total, specified, i) == free_before(specified, pos),
{
    lemma_free_before_monotone(specified, pos, pos);
    lemma_free_before_monotone(specified, pos + 1, total.len() as int);
    lemma_unspecified_before_monotone(total, specified, 0, total.len() as int);
    lemma_unspecified_source(total, specified, free_before(specified, pos), total.len() as int)
}

/// A claimed position holds the value of an explicit entry that asks for it.
proof fn lemma_claimed_position<T, Name>(
    total: Seq<(T, Name)>,
    specified: Seq<(T, Name, u128)>,
    pos: int,
) -> (j: int)
    requires
        claimant(specified, pos) is Some,
    ensures
        claimant(specified, pos) == Some(j),
        0 <= j < specified.len(),
        specified[j].2 == pos,
        placed(total, specified, pos) == (specified[j].0, specified[j].1),
        is_specified(specified, specified[j].0),
{
    lemma_claim_scan(specified, pos, 0);
    claimant(specified, pos)->0
}

/// With pairwise different ordinals, each explicit entry is the claimant of
/// the position it asks for.
proof fn lemma_claimant_of_own_ordinal<T, Name>(specified: Seq<(T, Name, u128)>, j: int)
    requires
        0 <= j < specified.len(),
        forall|a: int, b: int|
            0 <= a < b < specified.len() ==> (#[trigger] specified[a]).2
                != (#[trigger] specified[b]).2,
    ensures
        claimant(specified, specified[j].2 as int) == Some(j),
{
    lemma_claim_scan(specified, specified[j].2 as int, 0);
}

/// A well-formed description is placed without repeating a value.
proof fn lemma_valid_order_has_no_duplicates<T, Name>(
    total: Seq<(T, Name)>,
    specified: Seq<(T, Name, u128)>,
)
    requires
        valid_decls(total, specified),
        placement_fits(total, specified),
    ensures
        resolved_order(total, specified).no_duplicates(),
{
    let order = resolved_order(total, specified);
    assert forall|p: int, q: int| 0 <= p < q < order.len() implies order[p] != order[q] by {
        if claimant(specified, p) is Some {
            let j = lemma_claimed_position(total, specified, p);
            if claimant(specified, q) is Some {
                let k = lemma_claimed_position(total, specified, q);
                assert(specified_values(specified)[j] != specified_values(specified)[k]);
            } else {
                let i = lemma_free_position(total, specified, q);
            }
        } else {
            let i = lemma_free_position(total, specified, p);
            if claimant(specified, q) is Some {
                let k = lemma_claimed_position(total, specified, q);
            } else {
                let l = lemma_free_position(total, specified, q);
                lemma_free_before_monotone(specified, p + 1, q);
                if i == l {
                    assert(free_before(specified, p) == free_before(specified, q));
                } else {
                    assert(decl_values(total)[i] != decl_values(total)[l]);
                }
            }
        }
    }
}

/// A well-formed description resolves: every free position can be filled,
/// and the order holds exactly the declared values, each once.
pub proof fn lemma_valid_decls_resolve<T, Name>(
    total: Seq<(T, Name)>,
    specified: Seq<(T, Name, u128)>,
)
    requires
        valid_decls(total, specified),
    ensures
        resolves(total, specified),
        resolved_order(total, specified).no_duplicates(),
{
    let order = resolved_order(total, specified);
    let declared = decl_values(total);
    lemma_free_count(specified, total.len() as int);
    lemma_unspecified_count(total, specified);
    lemma_valid_order_has_no_duplicates(total, specified);
    assert forall|v: T| order.to_set().contains(v) implies declared.to_set().contains(v) by {
        let p = choose|p: int| 0 <= p < order.len() && order[p] == v;
        if claimant(specified, p) is Some {
            let j = lemma_claimed_position(total, specified, p);
            assert(declared.contains(specified[j].0));
        } else {
            let i = lemma_free_position(total, specified, p);
            assert(declared[i] == v);
        }
    }
    assert(order.to_set().subset_of(declared.to_set()));
    order.unique_seq_to_set();
    declared.unique_seq_to_set();
    vstd::seq_lib::seq_to_set_is_finite(declared);
    lemma_subset_equality(order.to_set(), declared.to_set());
    lemma_same_values_same_multiset(order, declared);
}

/// Each explicit entry of a well-formed description stands at the position
/// it asks for, with its name.
pub proof fn lemma_explicit_position<T, Name>(
    total: Seq<(T, Name)>,
    specified: Seq<(T, Name, u128)>,
    j: int,
)
    requires
        ordinals_in_place(total, specified),
        0 <= j < specified.len(),
    ensures
        specified[j].2 < total.len(),
        resolved_order(total, specified)[specified[j].2 as int] == specified[j].0,
        resolved_names(total, specified)[specified[j].2 as int] == specified[j].1,
{
    lemma_claimant_of_own_ordinal(specified, j);
}

/// In a resolved order, unspecified members stand in declaration order: of
/// two members that no explicit entry names, the one declared first has the
/// smaller position.
pub proof fn lemma_stable_fill<T, Name>(
    total: Seq<(T, Name)>,
    specified: Seq<(T, Name, u128)>,
    a: int,
    b: int,
    pos_a: int,
    pos_b: int,
)
    requires
        resolves(total, specified),
        0 <= a < b < total.len(),
        !is_specified(specified, total[a].0),
        !is_specified(specified, total[b].0),
        0 <= pos_a < total.len(),
        0 <= pos_b < total.len(),
        resolved_order(total, specified)[pos_a] == total[a].0,
        resolved_order(total, specified)[pos_b] == total[b].0,
    ensures
        pos_a < pos_b,
{
    let declared = decl_values(total);
    if claimant(specified, pos_a) is Some {
        let j = lemma_claimed_position(total, specified, pos_a);
    }
    if claimant(specified, pos_b) is Some {
        let j = lemma_claimed_position(total, specified, pos_b);
    }
    let i = lemma_free_position(total, specified, pos_a);
    let l = lemma_free_position(total, specified, pos_b);
    if i != a {
        assert(declared[i] != declared[a]);
    }
    if l != b {
        assert(declared[l] != declared[b]);
    }
    lemma_unspecified_step(total, specified, a);
    lemma_unspecified_before_monotone(total, specified, a + 1, b);
    if pos_b <= pos_a {
        lemma_free_before_monotone(specified, pos_b, pos_a);
    }
}

/// Where the explicit entries name distinct declared members, resolution
/// succeeds only if their ordinals are pairwise different positions of the
/// order: an ordinal out of range, or one that another entry has taken,
/// makes resolution fail.
pub proof fn lemma_resolved_ordinals_in_place<T, Name>(
    total: Seq<(T, Name)>,
    specified: Seq<(T, Name, u128)>,
)
    requires
        is_explicit_subset(total, specified),
        resolves(total, specified),
    ensures
        valid_decls(total, specified),
{
    let order = resolved_order(total, specified);
    let declared = decl_values(total);
    assert forall|j: int| 0 <= j < specified.len() implies (#[trigger] specified[j]).2
        < total.len() && claimant(specified, specified[j].2 as int) == Some(j) by {
        let v = specified[j].0;
        to_multiset_contains(order, v);
        to_multiset_contains(declared, v);
        let p = choose|p: int| 0 <= p < order.len() && order[p] == v;
        if claimant(specified, p) is Some {
            let k = lemma_claimed_position(total, specified, p);
            if k != j {
                assert(specified_values(specified)[k] != specified_values(specified)[j]);
            }
        } else {
            let i = lemma_free_position(total, specified, p);
        }
    }
    assert forall|j: int, k: int| 0 <= j < k < specified.len() implies (#[trigger] specified[j]).2
        != (#[trigger] specified[k]).2 by {
        assert(claimant(specified, specified[j].2 as int) == Some(j));
        assert(claimant(specified, specified[k].2 as int) == Some(k));
    }
}

/// A resolved order holds exactly the declared values, each once: it is as
/// long as the declared set, repeats no value, and holds a value exactly when
/// the value is declared.
pub proof fn lemma_resolved_order_is_permutation<T, Name>(
    total: Seq<(T, Name)>,
    specified: Seq<(T, Name, u128)>,
)
    requires
        resolves(total, specified),
    ensures
        resolution(total, specified) == Ok::<_, OrderDeclsError>(
            (resolved_order(total, specified), resolved_names(total, specified)),
        ),
        resolved_order(total, specified).len() == total.len(),
        resolved_order(total, specified).to_multiset() == decl_values(total).to_multiset(),
        resolved_order(total, specified).no_duplicates(),
        forall|v: T|
            resolved_order(total, specified).contains(v) <==> decl_values(total).contains(v),
{
    let order = resolved_order(total, specified);
    let declared = decl_values(total);
    declared.lemma_multiset_has_no_duplicates();
    order.lemma_multiset_has_no_duplicates_conv();
    assert forall|v: T| order.contains(v) <==> declared.contains(v) by {
        to_multiset_contains(order, v);
        to_multiset_contains(declared, v);
    }
}

/// Where the explicit entries name distinct declared members, an ordinal
/// that lies outside the order, or that two entries share, makes resolution
/// fail: no order is produced.
pub proof fn lemma_ordinal_out_of_place_fails<T, Name>(
    total: Seq<(T, Name)>,
    specified: Seq<(T, Name, u128)>,
    j: int,
    k: int,
)
    requires
        is_explicit_subset(total, specified),
        0 <= j < specified.len(),
        0 <= k < specified.len(),
        specified[j].2 >= total.len() || (j != k && specified[j].2 == specified[k].2),
    ensures
        !resolves(total, specified),
        resolution(total, specified) is Err,
{
    if resolves(total, specified) {
        lemma_resolved_ordinals_in_place(total, specified);
        if j < k {
            assert(specified[j].2 != specified[k].2);
        } else if k < j {
            assert(specified[k].2 != specified[j].2);
        }
    }
}

/// Where the explicit entries name distinct declared members, resolution
/// succeeds exactly for the well-formed descriptions: those whose declared
/// values are pairwise different and whose ordinals are pairwise different
/// positions of the order.
pub proof fn lemma_resolution_succeeds_iff_valid<T, Name>(
    total: Seq<(T, Name)>,
    specified: Seq<(T, Name, u128)>,
)
    requires
        is_explicit_subset(total, specified),
    ensures
        resolution(total, specified) is Ok <==> valid_decls(total, specified),
{
    if valid_decls(total, specified) {
        lemma_valid_decls_resolve(total, specified);
    }
    if resolves(total, specified) {
        lemma_resolved_ordinals_in_place(total, specified);
    }
}

} // verus!
