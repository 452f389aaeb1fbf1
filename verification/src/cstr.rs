//! NUL-terminated byte strings held in byte buffers.
//!
//! A buffer stands for the text that precedes its first NUL byte. A buffer
//! without a NUL byte stands for all of its bytes: the end of the buffer then
//! acts as the terminator, so no read ever leaves the buffer.

use vstd::prelude::*;

verus! {

/// The byte that a reader of the string sees at offset `i`: the stored byte
/// inside the buffer, the terminator past its end.
pub open spec fn cstr_byte(s: Seq<u8>, i: int) -> u8 {
    if 0 <= i < s.len() {
        s[i]
    } else {
        0
    }
}

/// The offset of the first terminator at or after `from`.
pub open spec fn cstr_end(s: Seq<u8>, from: int) -> int
    decreases s.len() - from,
{
    if cstr_byte(s, from) == 0 {
        from
    } else {
        cstr_end(s, from + 1)
    }
}

/// The number of bytes of text in the buffer.
pub open spec fn cstr_len(s: Seq<u8>) -> int {
    cstr_end(s, 0)
}

/// The text of the buffer: its bytes up to the first terminator.
pub open spec fn cstr_text(s: Seq<u8>) -> Seq<u8> {
    s.take(cstr_len(s))
}

/// The difference between the first pair of bytes, at or after `from`, in
/// which the two strings differ, and zero when they agree up to a common
/// terminator.
pub open spec fn cstr_order(s1: Seq<u8>, s2: Seq<u8>, from: int) -> int
    decreases s1.len() - from,
{
    let x = cstr_byte(s1, from);
    let y = cstr_byte(s2, from);
    if x != y {
        x - y
    } else if x == 0 {
        0
    } else {
        cstr_order(s1, s2, from + 1)
    }
}

/// Byte order on texts: `a` is a proper prefix of `b`, or holds the smaller
/// byte at the first offset where the two differ.
pub open spec fn text_precedes(a: Seq<u8>, b: Seq<u8>) -> bool {
    exists|k: int|
        0 <= k <= a.len() && k < b.len() && #[trigger] a.take(k) == b.take(k) && (k == a.len()
            || a[k] < b[k])
}

/// The terminator found from `from` lies inside the buffer or at its end, and
/// no byte between `from` and it is a terminator.
pub proof fn lemma_cstr_end(s: Seq<u8>, from: int)
    requires
        0 <= from <= s.len(),
    ensures
        from <= cstr_end(s, from) <= s.len(),
        cstr_byte(s, cstr_end(s, from)) == 0,
        forall|i: int| from <= i < cstr_end(s, from) ==> s[i] != 0,
    decreases s.len() - from,
{
    if cstr_byte(s, from) != 0 {
        lemma_cstr_end(s, from + 1);
    }
}

/// An offset that holds a terminator, with none before it, is the length of
/// the text.
pub proof fn lemma_cstr_len_unique(s: Seq<u8>, n: int)
    requires
        0 <= n <= s.len(),
        cstr_byte(s, n) == 0,
        forall|i: int| 0 <= i < n ==> s[i] != 0,
    ensures
        cstr_len(s) == n,
{
    lemma_cstr_end(s, 0);
}

/// Two strings that agree from offset 0 to `from` compare from `from` as
/// their texts do: zero exactly for equal texts, negative exactly when the
/// first text precedes the second.
proof fn lemma_cstr_order_from(s1: Seq<u8>, s2: Seq<u8>, from: int)
    requires
        0 <= from <= s1.len(),
        from <= s2.len(),
        forall|i: int| 0 <= i < from ==> s1[i] == s2[i] && s1[i] != 0,
    ensures
        cstr_order(s1, s2, from) == 0 <==> cstr_text(s1) == cstr_text(s2),
        cstr_order(s1, s2, from) < 0 <==> text_precedes(cstr_text(s1), cstr_text(s2)),
        cstr_order(s1, s2, from) > 0 <==> text_precedes(cstr_text(s2), cstr_text(s1)),
    decreases s1.len() - from,
{
    let x = cstr_byte(s1, from);
    let y = cstr_byte(s2, from);
    let t1 = cstr_text(s1);
    let t2 = cstr_text(s2);
    lemma_cstr_end(s1, 0);
    lemma_cstr_end(s2, 0);
    if x == y && x != 0 {
        lemma_cstr_order_from(s1, s2, from + 1);
    } else {
        // The two strings part at `from`, or end there together.
        assert(t1.len() >= from && t2.len() >= from);
        assert(t1.take(from) =~= t2.take(from));
        if x == y {
            lemma_cstr_len_unique(s1, from);
            lemma_cstr_len_unique(s2, from);
            assert(t1 =~= t2);
            lemma_text_precedes_irreflexive(t1);
        } else {
            if x == 0 {
                lemma_cstr_len_unique(s1, from);
            } else {
                assert(t1.len() > from);
            }
            if y == 0 {
                lemma_cstr_len_unique(s2, from);
            } else {
                assert(t2.len() > from);
            }
            if x < y {
                lemma_text_precedes_at(t1, t2, from);
            } else {
                lemma_text_precedes_at(t2, t1, from);
            }
        }
    }
}

/// No text precedes itself.
proof fn lemma_text_precedes_irreflexive(a: Seq<u8>)
    ensures
        !text_precedes(a, a),
{
}

/// A text that parts from another at offset `k`, by ending there or by a
/// smaller byte, precedes it, differs from it, and is not preceded by it.
proof fn lemma_text_precedes_at(a: Seq<u8>, b: Seq<u8>, k: int)
    requires
        0 <= k <= a.len(),
        k < b.len(),
        a.take(k) == b.take(k),
        k == a.len() || a[k] < b[k],
    ensures
        text_precedes(a, b),
        !text_precedes(b, a),
        a != b,
{
    assert forall|j: int|
        0 <= j <= b.len() && j < a.len() && #[trigger] b.take(j) == a.take(j) implies !(j
        == b.len() || b[j] < a[j]) by {
        if j < k {
            assert(a.take(k)[j] == a[j]);
            assert(b.take(k)[j] == b[j]);
        } else if j > k {
            assert(a.take(j)[k] == a[k]);
            assert(b.take(j)[k] == b[k]);
        }
    }
    if a == b {
        assert(b.take(k) == a.take(k));
    }
}

/// The sign of `cstr_order` is the byte order of the two texts.
pub proof fn lemma_cstr_order_sign(s1: Seq<u8>, s2: Seq<u8>)
    ensures
        cstr_order(s1, s2, 0) == 0 <==> cstr_text(s1) == cstr_text(s2),
        cstr_order(s1, s2, 0) < 0 <==> text_precedes(cstr_text(s1), cstr_text(s2)),
        cstr_order(s1, s2, 0) > 0 <==> text_precedes(cstr_text(s2), cstr_text(s1)),
{
    lemma_cstr_order_from(s1, s2, 0);
}

/// Compares two NUL-terminated strings byte by byte, as unsigned bytes.
///
/// The result is zero when the texts are equal, negative when the first text
/// comes before the second in byte order, positive when it comes after.
pub fn compare(s1: &[u8], s2: &[u8]) -> (order: i32)
    ensures
        order == cstr_order(s1@, s2@, 0),
        order == 0 <==> cstr_text(s1@) == cstr_text(s2@),
        order < 0 <==> text_precedes(cstr_text(s1@), cstr_text(s2@)),
        order > 0 <==> text_precedes(cstr_text(s2@), cstr_text(s1@)),
{
    let mut i: usize = 0;
    loop
        invariant
            i <= s1@.len(),
            cstr_order(s1@, s2@, 0) == cstr_order(s1@, s2@, i as int),
        decreases s1@.len() - i,
    {
        let x: u8 = if i < s1.len() { s1[i] } else { 0 };
        let y: u8 = if i < s2.len() { s2[i] } else { 0 };
        if x != y || x == 0 {
            proof {
                lemma_cstr_order_sign(s1@, s2@);
            }
            return x as i32 - y as i32;
        }
        i += 1;
    }
}

} // verus!
