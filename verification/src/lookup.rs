//! Linear lookups in caller-owned tables of key/value pairs.
//!
//! A table is scanned from its first entry and the first entry whose key
//! matches wins; entries with the same key behind it are never reached. The
//! table is neither reordered nor copied. A lookup for reading and a lookup
//! for writing match the same entry and differ only in the access they give.
//!
//! Keys are compared with `==`, which has to follow the equality that the key
//! type specifies (`obeys_eq_spec`), or, for NUL-terminated strings, by their
//! texts.

use vstd::prelude::*;
use vstd::std_specs::cmp::PartialEqSpec;
use crate::cstr::{compare, cstr_order, cstr_text, text_precedes};

verus! {

/// The index of the first `true` at or after `from`.
pub open spec fn first_hit(hits: Seq<bool>, from: int) -> Option<int>
    decreases hits.len() - from,
{
    if from < 0 || from >= hits.len() {
        None
    } else if hits[from] {
        Some(from)
    } else {
        first_hit(hits, from + 1)
    }
}

/// For each entry of the table, whether its key equals `needle`.
pub open spec fn key_hits<Key: PartialEq, Value>(assoc: Seq<(Key, Value)>, needle: Key) -> Seq<
    bool,
> {
    Seq::new(assoc.len(), |i: int| assoc[i].0.eq_spec(&needle))
}

/// For each entry of the table, whether its key holds the text of `needle`.
pub open spec fn cstr_key_hits<Value>(assoc: Seq<(&[u8], Value)>, needle: Seq<u8>) -> Seq<bool> {
    Seq::new(assoc.len(), |i: int| cstr_text(assoc[i].0@) == cstr_text(needle))
}

/// The index of the entry that a lookup of `needle` matches.
pub open spec fn assoc_position<Key: PartialEq, Value>(
    assoc: Seq<(Key, Value)>,
    needle: Key,
) -> Option<int> {
    first_hit(key_hits(assoc, needle), 0)
}

/// The index of the entry that a lookup of the string `needle` matches.
pub open spec fn assoc_position_cstr<Value>(assoc: Seq<(&[u8], Value)>, needle: Seq<u8>) -> Option<
    int,
> {
    first_hit(cstr_key_hits(assoc, needle), 0)
}

/// What a lookup for reading returns when it matches the entry at
/// `position`: the value of that entry, or nothing where no entry matches.
pub open spec fn found_for_reading<Key, Value>(
    assoc: Seq<(Key, Value)>,
    position: Option<int>,
    found: Option<Value>,
) -> bool {
    found == match position {
        Some(i) => Some(assoc[i].1),
        None => None,
    }
}

/// What a lookup for writing gives when it matches the entry at `position`.
///
/// `slot` is what the returned slot holds on return and `left` what the
/// caller leaves in it; `after` is the table once the caller is done. The
/// slot is the value of the matched entry, and only that value changes.
/// Where no entry matches there is no slot and the table stays as it was.
pub open spec fn found_for_writing<Key, Value>(
    before: Seq<(Key, Value)>,
    position: Option<int>,
    slot: Option<Value>,
    left: Option<Value>,
    after: Seq<(Key, Value)>,
) -> bool {
    match position {
        Some(i) => {
            &&& slot == Some(before[i].1)
            &&& left is Some
            &&& after == before.update(i, (before[i].0, left->0))
        },
        None => slot is None && left is None && after == before,
    }
}

/// A scan from `from` stops at the first hit at or after `from`, and finds
/// nothing exactly when there is no hit from there on.
pub proof fn lemma_first_hit(hits: Seq<bool>, from: int)
    requires
        0 <= from,
    ensures
        match first_hit(hits, from) {
            Some(i) => from <= i < hits.len() && hits[i] && forall|k: int| from <= k < i ==> !hits[k],
            None => forall|k: int| from <= k < hits.len() ==> !hits[k],
        },
    decreases hits.len() - from,
{
    if from < hits.len() && !hits[from] {
        lemma_first_hit(hits, from + 1);
    }
}

/// A lookup matches the first entry, in scan order, whose key equals the
/// needle, and matches none exactly when no key equals it.
pub proof fn lemma_assoc_position<Key: PartialEq, Value>(assoc: Seq<(Key, Value)>, needle: Key)
    ensures
        match assoc_position(assoc, needle) {
            Some(i) => {
                &&& 0 <= i < assoc.len()
                &&& assoc[i].0.eq_spec(&needle)
                &&& forall|k: int| 0 <= k < i ==> !(#[trigger] assoc[k]).0.eq_spec(&needle)
            },
            None => forall|k: int|
                0 <= k < assoc.len() ==> !(#[trigger] assoc[k]).0.eq_spec(&needle),
        },
{
    let hits = key_hits(assoc, needle);
    lemma_first_hit(hits, 0);
    assert forall|k: int| 0 <= k < assoc.len() && !hits[k] implies !(#[trigger] assoc[k]).0.eq_spec(
        &needle,
    ) by {}
}

/// A lookup of a string matches the first entry, in scan order, whose key
/// holds the same text, and matches none exactly when no key holds it.
pub proof fn lemma_assoc_position_cstr<Value>(assoc: Seq<(&[u8], Value)>, needle: Seq<u8>)
    ensures
        match assoc_position_cstr(assoc, needle) {
            Some(i) => {
                &&& 0 <= i < assoc.len()
                &&& cstr_text(assoc[i].0@) == cstr_text(needle)
                &&& forall|k: int|
                    0 <= k < i ==> cstr_text((#[trigger] assoc[k]).0@) != cstr_text(needle)
            },
            None => forall|k: int|
                0 <= k < assoc.len() ==> cstr_text((#[trigger] assoc[k]).0@) != cstr_text(needle),
        },
{
    let hits = cstr_key_hits(assoc, needle);
    lemma_first_hit(hits, 0);
    assert forall|k: int| 0 <= k < assoc.len() && !hits[k] implies cstr_text(
        (#[trigger] assoc[k]).0@,
    ) != cstr_text(needle) by {}
}

/// A lookup for reading and a lookup for writing, of one needle in one
/// table, agree on the matched entry: either both find nothing, and the
/// table stays as it was, or the slot handed out for writing holds the value
/// that the lookup for reading returns, and a write through it changes the
/// value of that entry and nothing else.
pub proof fn lemma_access_modes_agree<Key, Value>(
    assoc: Seq<(Key, Value)>,
    position: Option<int>,
    found: Option<Value>,
    slot: Option<Value>,
    left: Option<Value>,
    after: Seq<(Key, Value)>,
)
    requires
        found_for_reading(assoc, position, found),
        found_for_writing(assoc, position, slot, left, after),
    ensures
        found == slot,
        found is None ==> after == assoc,
        found is Some ==> position is Some && after == assoc.update(
            position->0,
            (assoc[position->0].0, left->0),
        ),
{
}

/// Whether some element of `slice` equals `needle`.
pub fn slice_contains<Value: PartialEq>(slice: &[Value], needle: &Value) -> (found: bool)
    requires
        Value::obeys_eq_spec(),
    ensures
        found == exists|i: int| 0 <= i < slice@.len() && (#[trigger] slice@[i]).eq_spec(needle),
{
    let mut i: usize = 0;
    while i < slice.len()
        invariant
            i <= slice@.len(),
            Value::obeys_eq_spec(),
            forall|k: int| 0 <= k < i ==> !(#[trigger] slice@[k]).eq_spec(needle),
        decreases slice@.len() - i,
    {
        if slice[i] == *needle {
            return true;
        }
        i += 1;
    }
    false
}

/// Looks up the string `needle` and returns the value of the first entry
/// whose key holds the same text, for writing.
///
/// What the caller leaves in the returned slot replaces that value; nothing
/// else in the table changes.
pub fn assoc_lookup_cstr_mut<'a, Value>(assoc: &'a mut [(&[u8], Value)], needle: &[u8]) -> (found:
    Option<&'a mut Value>)
    ensures
        found_for_writing(
            old(assoc)@,
            assoc_position_cstr(old(assoc)@, needle@),
            match found {
                Some(slot) => Some(*slot),
                None => None,
            },
            match found {
                Some(slot) => Some(*final(slot)),
                None => None,
            },
            final(assoc)@,
        ),
{
    let ghost hits = cstr_key_hits(assoc@, needle@);
    let mut i: usize = 0;
    while i < assoc.len()
        invariant
            i <= assoc@.len(),
            assoc@ == old(assoc)@,
            hits == cstr_key_hits(assoc@, needle@),
            first_hit(hits, 0) == first_hit(hits, i as int),
        decreases assoc@.len() - i,
    {
        if compare(assoc[i].0, needle) == 0 {
            return Some(&mut assoc[i].1);
        }
        i += 1;
    }
    None
}

/// Looks up the string `needle` and returns the value of the first entry
/// whose key holds the same text.
pub fn assoc_lookup_cstr<'a, Value>(assoc: &'a [(&[u8], Value)], needle: &[u8]) -> (found: Option<
    &'a Value,
>)
    ensures
        found_for_reading(
            assoc@,
            assoc_position_cstr(assoc@, needle@),
            match found {
                Some(value) => Some(*value),
                None => None,
            },
        ),
{
    let ghost hits = cstr_key_hits(assoc@, needle@);
    let mut i: usize = 0;
    while i < assoc.len()
        invariant
            i <= assoc@.len(),
            hits == cstr_key_hits(assoc@, needle@),
            first_hit(hits, 0) == first_hit(hits, i as int),
        decreases assoc@.len() - i,
    {
        if compare(assoc[i].0, needle) == 0 {
            return Some(&assoc[i].1);
        }
        i += 1;
    }
    None
}

/// Looks up `needle` and returns the value of the first entry whose key
/// equals it, for writing.
///
/// What the caller leaves in the returned slot replaces that value; nothing
/// else in the table changes.
pub fn assoc_lookup_mut<'a, Key: PartialEq, Value>(
    assoc: &'a mut [(Key, Value)],
    needle: &Key,
) -> (found: Option<&'a mut Value>)
    requires
        Key::obeys_eq_spec(),
    ensures
        found_for_writing(
            old(assoc)@,
            assoc_position(old(assoc)@, *needle),
            match found {
                Some(slot) => Some(*slot),
                None => None,
            },
            match found {
                Some(slot) => Some(*final(slot)),
                None => None,
            },
            final(assoc)@,
        ),
{
    let ghost hits = key_hits(assoc@, *needle);
    let mut i: usize = 0;
    while i < assoc.len()
        invariant
            i <= assoc@.len(),
            Key::obeys_eq_spec(),
            assoc@ == old(assoc)@,
            hits == key_hits(assoc@, *needle),
            first_hit(hits, 0) == first_hit(hits, i as int),
        decreases assoc@.len() - i,
    {
        if assoc[i].0 == *needle {
            return Some(&mut assoc[i].1);
        }
        i += 1;
    }
    None
}

/// Looks up `needle` and returns the value of the first entry whose key
/// equals it.
pub fn assoc_lookup<'a, Key: PartialEq, Value>(assoc: &'a [(Key, Value)], needle: &Key) -> (found:
    Option<&'a Value>)
    requires
        Key::obeys_eq_spec(),
    ensures
        found_for_reading(
            assoc@,
            assoc_position(assoc@, *needle),
            match found {
                Some(value) => Some(*value),
                None => None,
            },
        ),
{
    let ghost hits = key_hits(assoc@, *needle);
    let mut i: usize = 0;
    while i < assoc.len()
        invariant
            i <= assoc@.len(),
            Key::obeys_eq_spec(),
            hits == key_hits(assoc@, *needle),
            first_hit(hits, 0) == first_hit(hits, i as int),
        decreases assoc@.len() - i,
    {
        if assoc[i].0 == *needle {
            return Some(&assoc[i].1);
        }
        i += 1;
    }
    None
}

/// Orders two NUL-terminated strings for a sort: by their texts, byte by
/// byte as unsigned bytes.
pub fn compar_cstr(a: &[u8], b: &[u8]) -> (order: i32)
    ensures
        order == cstr_order(a@, b@, 0),
        order == 0 <==> cstr_text(a@) == cstr_text(b@),
        order < 0 <==> text_precedes(cstr_text(a@), cstr_text(b@)),
        order > 0 <==> text_precedes(cstr_text(b@), cstr_text(a@)),
{
    compare(a, b)
}

} // verus!
