use crust::resolver::{
    get_unspecified_from_unordered_and_specified_decls, order_decls_properly,
    reduce_slice_to_array_of_field_copied, OrderDeclsError,
};

#[derive(Clone, Copy, Debug, PartialEq)]
enum Letter {
    A,
    B,
    C,
    D,
}

const NAME_A: &[u8] = b"A\0";
const NAME_B: &[u8] = b"B\0";
const NAME_C: &[u8] = b"C\0";
const NAME_D: &[u8] = b"D\0";

fn four() -> [(Letter, &'static [u8]); 4] {
    [
        (Letter::A, NAME_A),
        (Letter::B, NAME_B),
        (Letter::C, NAME_C),
        (Letter::D, NAME_D),
    ]
}

#[test]
fn no_explicit_ordinals_keep_declaration_order() {
    let (order, names) = order_decls_properly(&four(), &[]).unwrap();
    assert_eq!(order, [Letter::A, Letter::B, Letter::C, Letter::D]);
    assert_eq!(names, [NAME_A, NAME_B, NAME_C, NAME_D]);
}

#[test]
fn explicit_first_position_moves_member_to_front() {
    let specified = [(Letter::B, NAME_B, 0u128)];
    let (order, names) = order_decls_properly(&four(), &specified).unwrap();
    assert_eq!(order, [Letter::B, Letter::A, Letter::C, Letter::D]);
    assert_eq!(names, [NAME_B, NAME_A, NAME_C, NAME_D]);
}

#[test]
fn explicit_last_position_moves_member_to_back() {
    let total = [(Letter::A, NAME_A), (Letter::B, NAME_B), (Letter::C, NAME_C)];
    let specified = [(Letter::A, NAME_A, 2u128)];
    let (order, names) = order_decls_properly(&total, &specified).unwrap();
    assert_eq!(order, [Letter::B, Letter::C, Letter::A]);
    assert_eq!(names, [NAME_B, NAME_C, NAME_A]);
}

#[test]
fn ordinal_out_of_range_fails() {
    let total = [(Letter::A, NAME_A), (Letter::B, NAME_B)];
    let specified = [(Letter::A, NAME_A, 5u128)];
    assert_eq!(
        order_decls_properly(&total, &specified),
        Err(OrderDeclsError::RanOutOfDecls)
    );
}

#[test]
fn ordinal_equal_to_count_fails() {
    let total = [(Letter::A, NAME_A), (Letter::B, NAME_B)];
    let specified = [(Letter::B, NAME_B, 2u128)];
    assert_eq!(
        order_decls_properly(&total, &specified),
        Err(OrderDeclsError::RanOutOfDecls)
    );
}

#[test]
fn huge_ordinal_fails() {
    let total = [(Letter::A, NAME_A), (Letter::B, NAME_B)];
    let specified = [(Letter::A, NAME_A, u128::MAX)];
    assert_eq!(
        order_decls_properly(&total, &specified),
        Err(OrderDeclsError::RanOutOfDecls)
    );
}

#[test]
fn shared_ordinal_fails() {
    let specified = [(Letter::A, NAME_A, 1u128), (Letter::C, NAME_C, 1u128)];
    assert_eq!(
        order_decls_properly(&four(), &specified),
        Err(OrderDeclsError::RanOutOfDecls)
    );
}

#[test]
fn value_declared_twice_fails() {
    let total = [(Letter::A, NAME_A), (Letter::A, NAME_B)];
    assert_eq!(
        order_decls_properly(&total, &[]),
        Err(OrderDeclsError::FinalSliceMissingEntries)
    );
}

#[test]
fn member_with_two_ordinals_fails() {
    let total = [(Letter::A, NAME_A), (Letter::B, NAME_B), (Letter::C, NAME_C)];
    let specified = [(Letter::A, NAME_A, 0u128), (Letter::A, NAME_A, 1u128)];
    assert_eq!(
        order_decls_properly(&total, &specified),
        Err(OrderDeclsError::FinalSliceMissingEntries)
    );
}

#[test]
fn undeclared_member_in_order_fails() {
    let total = [(Letter::A, NAME_A), (Letter::B, NAME_B)];
    let specified = [(Letter::D, NAME_D, 0u128)];
    assert_eq!(
        order_decls_properly(&total, &specified),
        Err(OrderDeclsError::FinalSliceMissingEntries)
    );
}

#[test]
fn value_declared_twice_beside_undeclared_member_fails() {
    let total = [(Letter::A, NAME_A), (Letter::A, NAME_B)];
    let specified = [(Letter::B, NAME_B, 1u128)];
    assert_eq!(
        order_decls_properly(&total, &specified),
        Err(OrderDeclsError::FinalSliceMissingEntries)
    );
}

#[test]
fn empty_enumeration_resolves_to_empty_order() {
    let total: [(Letter, &[u8]); 0] = [];
    let (order, names) = order_decls_properly(&total, &[]).unwrap();
    assert_eq!(order.len(), 0);
    assert_eq!(names.len(), 0);
}

#[test]
fn explicit_entry_for_empty_enumeration_is_ignored() {
    let total: [(Letter, &[u8]); 0] = [];
    let specified = [(Letter::A, NAME_A, 0u128)];
    let (order, names) = order_decls_properly(&total, &specified).unwrap();
    assert_eq!(order.len(), 0);
    assert_eq!(names.len(), 0);
}

#[test]
fn all_members_explicit_in_reverse() {
    let specified = [
        (Letter::A, NAME_A, 3u128),
        (Letter::B, NAME_B, 2u128),
        (Letter::C, NAME_C, 1u128),
        (Letter::D, NAME_D, 0u128),
    ];
    let (order, names) = order_decls_properly(&four(), &specified).unwrap();
    assert_eq!(order, [Letter::D, Letter::C, Letter::B, Letter::A]);
    assert_eq!(names, [NAME_D, NAME_C, NAME_B, NAME_A]);
}

#[test]
fn order_of_explicit_entries_does_not_matter() {
    let one = [(Letter::D, NAME_D, 0u128), (Letter::A, NAME_A, 2u128)];
    let other = [(Letter::A, NAME_A, 2u128), (Letter::D, NAME_D, 0u128)];
    let expected = [Letter::D, Letter::B, Letter::A, Letter::C];
    assert_eq!(order_decls_properly(&four(), &one).unwrap().0, expected);
    assert_eq!(order_decls_properly(&four(), &other).unwrap().0, expected);
}

#[test]
fn eleven_members_two_explicit() {
    let names: [&[u8]; 11] = [
        b"m0\0", b"m1\0", b"m2\0", b"m3\0", b"m4\0", b"m5\0", b"m6\0", b"m7\0", b"m8\0", b"m9\0",
        b"m10\0",
    ];
    let mut total: [(u32, &[u8]); 11] = [(0, names[0]); 11];
    for (i, name) in names.iter().enumerate() {
        total[i] = (100 + i as u32, *name);
    }
    let specified = [(109u32, names[9], 5u128), (110u32, names[10], 3u128)];
    let (order, resolved_names) = order_decls_properly(&total, &specified).unwrap();
    assert_eq!(
        order,
        [100, 101, 102, 110, 103, 109, 104, 105, 106, 107, 108]
    );
    assert_eq!(resolved_names[3], names[10]);
    assert_eq!(resolved_names[5], names[9]);
    assert_eq!(resolved_names[10], names[8]);
}

#[test]
fn resolved_order_is_a_permutation_of_the_declared_set() {
    let specified = [(Letter::C, NAME_C, 0u128), (Letter::A, NAME_A, 3u128)];
    let (order, _) = order_decls_properly(&four(), &specified).unwrap();
    assert_eq!(order.len(), 4);
    for (member, _) in four() {
        assert_eq!(order.iter().filter(|m| **m == member).count(), 1);
    }
}

#[test]
fn explicit_members_stand_at_their_ordinals() {
    let specified = [(Letter::C, NAME_C, 0u128), (Letter::A, NAME_A, 3u128)];
    let (order, names) = order_decls_properly(&four(), &specified).unwrap();
    for (member, name, ordinal) in specified {
        assert_eq!(order[ordinal as usize], member);
        assert_eq!(names[ordinal as usize], name);
    }
}

#[test]
fn unspecified_members_keep_their_relative_order() {
    let specified = [(Letter::C, NAME_C, 1u128)];
    let (order, _) = order_decls_properly(&four(), &specified).unwrap();
    assert_eq!(order, [Letter::A, Letter::C, Letter::B, Letter::D]);
    let position = |m: Letter| order.iter().position(|x| *x == m).unwrap();
    assert!(position(Letter::A) < position(Letter::B));
    assert!(position(Letter::B) < position(Letter::D));
}

#[test]
fn unspecified_members_are_collected_in_declaration_order() {
    let specified = [(Letter::B, NAME_B, 0u128), (Letter::D, NAME_D, 1u128)];
    let (unspecified, len) =
        get_unspecified_from_unordered_and_specified_decls(&four(), &specified).unwrap();
    assert_eq!(len, 2);
    assert_eq!(
        unspecified,
        [Some((Letter::A, NAME_A)), Some((Letter::C, NAME_C)), None, None]
    );
}

#[test]
fn nothing_specified_leaves_every_member_unspecified() {
    let (unspecified, len) =
        get_unspecified_from_unordered_and_specified_decls(&four(), &[]).unwrap();
    assert_eq!(len, 4);
    assert_eq!(unspecified, four().map(Some));
}

#[test]
fn everything_specified_leaves_no_member_unspecified() {
    let specified = [
        (Letter::A, NAME_A, 0u128),
        (Letter::B, NAME_B, 1u128),
        (Letter::C, NAME_C, 2u128),
        (Letter::D, NAME_D, 3u128),
    ];
    let (unspecified, len) =
        get_unspecified_from_unordered_and_specified_decls(&four(), &specified).unwrap();
    assert_eq!(len, 0);
    assert_eq!(unspecified, [None; 4]);
}

#[test]
fn values_of_explicit_entries_are_copied_in_order() {
    let specified = [(Letter::D, NAME_D, 7u128), (Letter::A, NAME_A, 0u128)];
    let both: [Letter; 2] = reduce_slice_to_array_of_field_copied(&specified);
    assert_eq!(both, [Letter::D, Letter::A]);
    let first: [Letter; 1] = reduce_slice_to_array_of_field_copied(&specified);
    assert_eq!(first, [Letter::D]);
    let none: [Letter; 0] = reduce_slice_to_array_of_field_copied(&specified);
    assert_eq!(none.len(), 0);
}

#[test]
fn error_kinds_are_distinct_and_copyable() {
    let e = OrderDeclsError::RanOutOfDecls;
    let copy = e;
    assert_eq!(e, copy);
    assert_ne!(e, OrderDeclsError::FinalSliceMissingEntries);
}

fn three() -> [(Letter, &'static [u8]); 3] {
    [(Letter::A, NAME_A), (Letter::B, NAME_B), (Letter::C, NAME_C)]
}

fn check_resolved(order: &[Letter; 3], specified: &[(Letter, &[u8], u128)]) {
    for (member, _) in three() {
        assert_eq!(order.iter().filter(|m| **m == member).count(), 1);
    }
    for (member, _, ordinal) in specified {
        assert_eq!(order[*ordinal as usize], *member);
    }
    let unspecified: Vec<Letter> = three()
        .iter()
        .map(|d| d.0)
        .filter(|m| specified.iter().all(|s| s.0 != *m))
        .collect();
    let filled: Vec<Letter> = order
        .iter()
        .copied()
        .filter(|m| unspecified.contains(m))
        .collect();
    assert_eq!(filled, unspecified);
}

#[test]
fn every_single_explicit_entry_resolves_exactly_when_in_range() {
    for (member, name) in three() {
        for ordinal in 0u128..5 {
            let specified = [(member, name, ordinal)];
            match order_decls_properly(&three(), &specified) {
                Ok((order, _)) => {
                    assert!(ordinal < 3);
                    check_resolved(&order, &specified);
                }
                Err(e) => {
                    assert!(ordinal >= 3);
                    assert_eq!(e, OrderDeclsError::RanOutOfDecls);
                }
            }
        }
    }
}

#[test]
fn every_pair_of_explicit_entries_resolves_exactly_when_well_formed() {
    for (first, first_name) in three() {
        for (second, second_name) in three() {
            if first == second {
                continue;
            }
            for i in 0u128..4 {
                for j in 0u128..4 {
                    let specified = [(first, first_name, i), (second, second_name, j)];
                    let well_formed = i < 3 && j < 3 && i != j;
                    match order_decls_properly(&three(), &specified) {
                        Ok((order, _)) => {
                            assert!(well_formed);
                            check_resolved(&order, &specified);
                        }
                        Err(e) => {
                            assert!(!well_formed);
                            assert_eq!(e, OrderDeclsError::RanOutOfDecls);
                        }
                    }
                }
            }
        }
    }
}
