use crust::lookup::{
    assoc_lookup, assoc_lookup_cstr, assoc_lookup_cstr_mut, assoc_lookup_mut, compar_cstr,
    slice_contains,
};

#[test]
fn lookup_returns_value_of_matching_key() {
    let table = [(1u32, "one"), (2, "two"), (3, "three")];
    assert_eq!(assoc_lookup(&table, &2), Some(&"two"));
}

#[test]
fn lookup_of_absent_key_finds_nothing() {
    let table = [(1u32, "one"), (2, "two")];
    assert_eq!(assoc_lookup(&table, &9), None);
    let empty: [(u32, &str); 0] = [];
    assert_eq!(assoc_lookup(&empty, &1), None);
}

#[test]
fn lookup_takes_first_of_equal_keys() {
    let table = [(7u32, 'a'), (5, 'b'), (5, 'c'), (7, 'd')];
    assert_eq!(assoc_lookup(&table, &5), Some(&'b'));
    assert_eq!(assoc_lookup(&table, &7), Some(&'a'));
}

#[test]
fn lookup_returns_the_slot_inside_the_table() {
    let table = [(1u32, 10u64), (2, 20)];
    let found = assoc_lookup(&table, &2).unwrap();
    assert!(std::ptr::eq(found, &table[1].1));
}

#[test]
fn lookup_mut_writes_into_the_matched_entry_only() {
    let mut table = [(1u32, 10u64), (2, 20), (2, 30)];
    *assoc_lookup_mut(&mut table, &2).unwrap() = 21;
    assert_eq!(table, [(1, 10), (2, 21), (2, 30)]);
}

#[test]
fn lookup_mut_of_absent_key_leaves_table_alone() {
    let mut table = [(1u32, 10u64), (2, 20)];
    assert!(assoc_lookup_mut(&mut table, &3).is_none());
    assert_eq!(table, [(1, 10), (2, 20)]);
}

#[test]
fn both_access_modes_match_the_same_entry() {
    let mut table = [(4u32, 1u8), (8, 2), (4, 3), (8, 4)];
    for needle in [4u32, 8, 15] {
        let read = assoc_lookup(&table, &needle).copied();
        let write = assoc_lookup_mut(&mut table, &needle).map(|slot| *slot);
        assert_eq!(read, write);
    }
}

#[test]
fn cstr_lookup_compares_text_up_to_the_terminator() {
    let table: [(&[u8], i32); 3] = [(b"alpha\0", 1), (b"beta\0junk", 2), (b"gamma", 3)];
    assert_eq!(assoc_lookup_cstr(&table, b"beta\0"), Some(&2));
    assert_eq!(assoc_lookup_cstr(&table, b"beta\0other"), Some(&2));
    assert_eq!(assoc_lookup_cstr(&table, b"gamma\0"), Some(&3));
    assert_eq!(assoc_lookup_cstr(&table, b"alpha"), Some(&1));
}

#[test]
fn cstr_lookup_of_absent_text_finds_nothing() {
    let table: [(&[u8], i32); 2] = [(b"alpha\0", 1), (b"beta\0", 2)];
    assert_eq!(assoc_lookup_cstr(&table, b"alph\0"), None);
    assert_eq!(assoc_lookup_cstr(&table, b"alphabet\0"), None);
    assert_eq!(assoc_lookup_cstr(&table, b"\0"), None);
}

#[test]
fn cstr_lookup_takes_first_of_equal_texts() {
    let table: [(&[u8], i32); 3] = [(b"k\0x", 1), (b"k\0y", 2), (b"\0", 3)];
    assert_eq!(assoc_lookup_cstr(&table, b"k\0"), Some(&1));
    assert_eq!(assoc_lookup_cstr(&table, b""), Some(&3));
}

#[test]
fn cstr_lookup_mut_writes_into_the_matched_entry_only() {
    let mut table: [(&[u8], i32); 3] = [(b"a\0", 1), (b"b\0", 2), (b"b\0", 3)];
    *assoc_lookup_cstr_mut(&mut table, b"b\0").unwrap() += 40;
    assert_eq!(table[0].1, 1);
    assert_eq!(table[1].1, 42);
    assert_eq!(table[2].1, 3);
    assert!(assoc_lookup_cstr_mut(&mut table, b"c\0").is_none());
}

#[test]
fn both_cstr_access_modes_match_the_same_entry() {
    let mut table: [(&[u8], u8); 3] = [(b"x\0", 1), (b"y\0", 2), (b"x\0", 3)];
    let needles: [&[u8]; 3] = [b"x\0", b"y\0", b"z\0"];
    for needle in needles {
        let read = assoc_lookup_cstr(&table, needle).copied();
        let write = assoc_lookup_cstr_mut(&mut table, needle).map(|slot| *slot);
        assert_eq!(read, write);
    }
}

#[test]
fn slice_contains_finds_equal_element() {
    assert!(slice_contains(&[3u8, 1, 4, 1, 5], &4));
    assert!(!slice_contains(&[3u8, 1, 4, 1, 5], &9));
    let empty: [u8; 0] = [];
    assert!(!slice_contains(&empty, &0));
}

#[test]
fn compar_cstr_orders_by_bytes() {
    assert_eq!(compar_cstr(b"abc\0", b"abc\0"), 0);
    assert_eq!(compar_cstr(b"abc\0", b"abd\0"), -1);
    assert_eq!(compar_cstr(b"abd\0", b"abc\0"), 1);
    assert_eq!(compar_cstr(b"ab\0", b"abc\0"), -99);
    assert_eq!(compar_cstr(b"abc\0", b"ab\0"), 99);
}

#[test]
fn compar_cstr_sorts_names() {
    let mut names: Vec<&[u8]> = vec![b"pear\0", b"apple\0", b"fig\0", b"apple pie\0"];
    names.sort_by(|a, b| compar_cstr(a, b).cmp(&0));
    let expected: Vec<&[u8]> = vec![b"apple\0", b"apple pie\0", b"fig\0", b"pear\0"];
    assert_eq!(names, expected);
}
