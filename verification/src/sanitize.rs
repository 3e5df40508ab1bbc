//! Making text of arbitrary bytes: each byte that is no part of a
//! well-formed UTF-8 sequence is replaced by a question mark.

use vstd::prelude::*;
use vstd::utf8::{
    codepoint_width_1, codepoint_width_2, codepoint_width_3, codepoint_width_4,
    is_continuation_byte, is_leading_byte_width_1, is_leading_byte_width_2, is_leading_byte_width_3,
    is_leading_byte_width_4, length_of_first_scalar, not_surrogate, pop_first_scalar,
    valid_first_scalar, valid_utf8,
};

verus! {

/// The byte that takes the place of a byte that cannot stay.
pub const REPLACEMENT: u8 = 0x3f;

/// The length of the well-formed UTF-8 sequence that begins at index `i` of
/// `s`, and 0 where none begins there.
pub open spec fn scalar_len(s: Seq<u8>, i: int) -> int {
    if 0 <= i < s.len() && valid_first_scalar(s.skip(i)) {
        length_of_first_scalar(s.skip(i))
    } else {
        0
    }
}

/// `s` from index `i` on, made text: a well-formed sequence stays, and a
/// byte at which none begins becomes a question mark.
pub open spec fn sanitized_from(s: Seq<u8>, i: int) -> Seq<u8>
    decreases s.len() - i,
{
    if i < 0 || i >= s.len() {
        Seq::empty()
    } else {
        let k = scalar_len(s, i);
        if 0 < k <= s.len() - i {
            s.subrange(i, i + k) + sanitized_from(s, i + k)
        } else {
            seq![REPLACEMENT] + sanitized_from(s, i + 1)
        }
    }
}

/// `s` made text.
pub open spec fn sanitized(s: Seq<u8>) -> Seq<u8> {
    sanitized_from(s, 0)
}

/// A two-byte sequence is well formed where its first byte is at least
/// `0xC2`; it never stands for a surrogate.
pub proof fn lemma_width_2(b1: u8, b2: u8)
    by (bit_vector)
    requires
        is_leading_byte_width_2(b1),
        is_continuation_byte(b2),
    ensures
        0x80 <= codepoint_width_2(b1, b2) <==> b1 >= 0xc2,
        not_surrogate(codepoint_width_2(b1, b2)),
{
}

/// A three-byte sequence is no longer than needed unless it begins `0xE0`
/// and goes on under `0xA0`; it stands for a surrogate where it begins
/// `0xED` and goes on from `0xA0`.
pub proof fn lemma_width_3(b1: u8, b2: u8, b3: u8)
    by (bit_vector)
    requires
        is_leading_byte_width_3(b1),
        is_continuation_byte(b2),
        is_continuation_byte(b3),
    ensures
        0x800 <= codepoint_width_3(b1, b2, b3) <==> (b1 != 0xe0 || b2 >= 0xa0),
        not_surrogate(codepoint_width_3(b1, b2, b3)) <==> !(b1 == 0xed && b2 >= 0xa0),
{
}

/// A four-byte sequence stands for a character past the three-byte ones
/// unless it begins `0xF0` and goes on under `0x90`; it stays in the range of
/// Unicode where it begins under `0xF4`, or begins `0xF4` and goes on under
/// `0x90`.
pub proof fn lemma_width_4(b1: u8, b2: u8, b3: u8, b4: u8)
    by (bit_vector)
    requires
        is_leading_byte_width_4(b1),
        is_continuation_byte(b2),
        is_continuation_byte(b3),
        is_continuation_byte(b4),
    ensures
        0x10000 <= codepoint_width_4(b1, b2, b3, b4) <==> (b1 != 0xf0 || b2 >= 0x90),
        codepoint_width_4(b1, b2, b3, b4) <= 0x10ffff <==> (b1 < 0xf4 || (b1 == 0xf4 && b2
            < 0x90)),
        0x10000 <= codepoint_width_4(b1, b2, b3, b4) ==> not_surrogate(
            codepoint_width_4(b1, b2, b3, b4),
        ),
{
}

/// A one-byte sequence stands for no surrogate.
pub proof fn lemma_width_1(b1: u8)
    by (bit_vector)
    requires
        is_leading_byte_width_1(b1),
    ensures
        not_surrogate(codepoint_width_1(b1)),
{
}

/// What a well-formed sequence looks like: it fits into the text, it begins
/// with a byte that continues nothing, and goes on with bytes that do.
pub proof fn lemma_scalar_shape(s: Seq<u8>, a: int)
    requires
        scalar_len(s, a) > 0,
    ensures
        1 <= scalar_len(s, a) <= 4,
        a + scalar_len(s, a) <= s.len(),
        !is_continuation_byte(s[a]),
        forall|m: int| 1 <= m < scalar_len(s, a) ==> is_continuation_byte(#[trigger] s[a + m]),
{
    let t = s.skip(a);
    assert(t[0] == s[a]);
    assert forall|m: int| 1 <= m < scalar_len(s, a) implies is_continuation_byte(
        #[trigger] s[a + m],
    ) by {
        assert(t[m] == s[a + m]);
    }
}

/// Making text of bytes keeps their number.
pub proof fn lemma_sanitized_len(s: Seq<u8>, i: int)
    requires
        0 <= i <= s.len(),
    ensures
        sanitized_from(s, i).len() == s.len() - i,
    decreases s.len() - i,
{
    if i < s.len() {
        let k = scalar_len(s, i);
        if 0 < k <= s.len() - i {
            lemma_sanitized_len(s, i + k);
        } else {
            lemma_sanitized_len(s, i + 1);
        }
    }
}

/// Each byte of the text that is made is the byte that was there, or a
/// question mark.
pub proof fn lemma_sanitized_bytes(s: Seq<u8>, i: int)
    requires
        0 <= i <= s.len(),
    ensures
        forall|j: int|
            0 <= j < s.len() - i ==> (#[trigger] sanitized_from(s, i)[j]) == s[i + j]
                || sanitized_from(s, i)[j] == REPLACEMENT,
    decreases s.len() - i,
{
    if i < s.len() {
        let k = scalar_len(s, i);
        let out = sanitized_from(s, i);
        lemma_sanitized_len(s, i);
        if 0 < k <= s.len() - i {
            lemma_sanitized_bytes(s, i + k);
            lemma_sanitized_len(s, i + k);
            let rest = sanitized_from(s, i + k);
            assert forall|j: int| 0 <= j < s.len() - i implies (#[trigger] out[j]) == s[i + j]
                || out[j] == REPLACEMENT by {
                if j >= k {
                    assert(out[j] == rest[j - k]);
                }
            }
        } else {
            lemma_sanitized_bytes(s, i + 1);
            lemma_sanitized_len(s, i + 1);
            let rest = sanitized_from(s, i + 1);
            assert forall|j: int| 0 <= j < s.len() - i implies (#[trigger] out[j]) == s[i + j]
                || out[j] == REPLACEMENT by {
                if j >= 1 {
                    assert(out[j] == rest[j - 1]);
                }
            }
        }
    }
}

/// The text that is made is valid UTF-8.
pub proof fn lemma_sanitized_valid(s: Seq<u8>, i: int)
    requires
        0 <= i <= s.len(),
    ensures
        valid_utf8(sanitized_from(s, i)),
    decreases s.len() - i,
{
    if i < s.len() {
        let k = scalar_len(s, i);
        let out = sanitized_from(s, i);
        if 0 < k <= s.len() - i {
            let t = s.skip(i);
            let rest = sanitized_from(s, i + k);
            lemma_sanitized_valid(s, i + k);
            lemma_scalar_shape(s, i);
            assert forall|j: int| 0 <= j < k implies out[j] == t[j] by {
                assert(s.subrange(i, i + k)[j] == s[i + j]);
            }
            assert(out[0] == t[0]);
            if k >= 2 {
                assert(out[1] == t[1]);
            }
            if k >= 3 {
                assert(out[2] == t[2]);
            }
            if k >= 4 {
                assert(out[3] == t[3]);
            }
            assert(valid_first_scalar(out));
            assert(pop_first_scalar(out) =~= rest);
        } else {
            let rest = sanitized_from(s, i + 1);
            lemma_sanitized_valid(s, i + 1);
            lemma_width_1(REPLACEMENT);
            assert(out[0] == REPLACEMENT);
            assert(valid_first_scalar(out));
            assert(pop_first_scalar(out) =~= rest);
        }
    }
}

/// Whether the byte at index `j` of `s` is part of a well-formed sequence
/// that begins at index `i` or later.
pub open spec fn in_scalar(s: Seq<u8>, i: int, j: int) -> bool {
    exists|a: int| i <= a <= j && j < a + #[trigger] scalar_len(s, a)
}

/// A byte that is part of no well-formed sequence becomes a question mark.
pub proof fn lemma_sanitized_outside(s: Seq<u8>, i: int)
    requires
        0 <= i <= s.len(),
    ensures
        forall|j: int|
            i <= j < s.len() && !in_scalar(s, i, j) ==> #[trigger] sanitized_from(s, i)[j - i]
                == REPLACEMENT,
    decreases s.len() - i,
{
    if i < s.len() {
        let k = scalar_len(s, i);
        let out = sanitized_from(s, i);
        lemma_sanitized_len(s, i);
        if 0 < k <= s.len() - i {
            lemma_sanitized_outside(s, i + k);
            lemma_sanitized_len(s, i + k);
            let rest = sanitized_from(s, i + k);
            assert forall|j: int| i <= j < s.len() && !in_scalar(s, i, j) implies #[trigger] out[j
                - i] == REPLACEMENT by {
                if j < i + k {
                    assert(i <= i <= j && j < i + scalar_len(s, i));
                } else {
                    assert(out[j - i] == rest[j - (i + k)]);
                    if in_scalar(s, i + k, j) {
                        let a = choose|a: int| i + k <= a <= j && j < a + #[trigger] scalar_len(s, a);
                        assert(i <= a <= j && j < a + scalar_len(s, a));
                    }
                }
            }
        } else {
            lemma_sanitized_outside(s, i + 1);
            lemma_sanitized_len(s, i + 1);
            let rest = sanitized_from(s, i + 1);
            assert forall|j: int| i <= j < s.len() && !in_scalar(s, i, j) implies #[trigger] out[j
                - i] == REPLACEMENT by {
                if j > i {
                    assert(out[j - i] == rest[j - (i + 1)]);
                    if in_scalar(s, i + 1, j) {
                        let a = choose|a: int| i + 1 <= a <= j && j < a + #[trigger] scalar_len(s, a);
                        assert(i <= a <= j && j < a + scalar_len(s, a));
                    }
                }
            }
        }
    }
}

/// Where a byte that continues nothing is followed by bytes of which none
/// is the first of a well-formed sequence, and no well-formed sequence
/// begins at that byte, none of these bytes is part of a well-formed
/// sequence.
pub proof fn lemma_not_in_scalar(s: Seq<u8>, i: int, n: int)
    requires
        0 <= i,
        1 <= n,
        i + n <= s.len(),
        !is_continuation_byte(s[i]),
        scalar_len(s, i) == 0,
        forall|m: int| 1 <= m < n ==> is_continuation_byte(#[trigger] s[i + m]),
    ensures
        forall|j: int| i <= j < i + n ==> !in_scalar(s, 0, j),
{
    assert forall|j: int| i <= j < i + n implies !in_scalar(s, 0, j) by {
        if in_scalar(s, 0, j) {
            let a = choose|a: int| 0 <= a <= j && j < a + #[trigger] scalar_len(s, a);
            lemma_scalar_shape(s, a);
            if a < i {
                assert(is_continuation_byte(s[a + (i - a)]));
            } else if a > i {
                assert(is_continuation_byte(s[i + (a - i)]));
            }
        }
    }
}

/// Three bytes that have the form of a sequence but stand for a surrogate
/// become three question marks.
pub proof fn lemma_sanitized_surrogate(s: Seq<u8>, i: int)
    requires
        0 <= i,
        i + 3 <= s.len(),
        is_leading_byte_width_3(s[i]),
        is_continuation_byte(s[i + 1]),
        is_continuation_byte(s[i + 2]),
        !not_surrogate(codepoint_width_3(s[i], s[i + 1], s[i + 2])),
    ensures
        sanitized(s)[i] == REPLACEMENT,
        sanitized(s)[i + 1] == REPLACEMENT,
        sanitized(s)[i + 2] == REPLACEMENT,
{
    let t = s.skip(i);
    assert(t[0] == s[i] && t[1] == s[i + 1] && t[2] == s[i + 2]);
    assert(scalar_len(s, i) == 0);
    assert forall|m: int| 1 <= m < 3 implies is_continuation_byte(#[trigger] s[i + m]) by {}
    lemma_not_in_scalar(s, i, 3);
    lemma_sanitized_outside(s, 0);
    assert(sanitized_from(s, 0)[i - 0] == REPLACEMENT);
    assert(sanitized_from(s, 0)[i + 1 - 0] == REPLACEMENT);
    assert(sanitized_from(s, 0)[i + 2 - 0] == REPLACEMENT);
}

/// Four bytes that have the form of a sequence but stand for a number past
/// the last character of Unicode become four question marks.
pub proof fn lemma_sanitized_beyond(s: Seq<u8>, i: int)
    requires
        0 <= i,
        i + 4 <= s.len(),
        is_leading_byte_width_4(s[i]),
        is_continuation_byte(s[i + 1]),
        is_continuation_byte(s[i + 2]),
        is_continuation_byte(s[i + 3]),
        codepoint_width_4(s[i], s[i + 1], s[i + 2], s[i + 3]) >= 0x110000,
    ensures
        sanitized(s)[i] == REPLACEMENT,
        sanitized(s)[i + 1] == REPLACEMENT,
        sanitized(s)[i + 2] == REPLACEMENT,
        sanitized(s)[i + 3] == REPLACEMENT,
{
    let t = s.skip(i);
    assert(t[0] == s[i] && t[1] == s[i + 1] && t[2] == s[i + 2] && t[3] == s[i + 3]);
    assert(scalar_len(s, i) == 0);
    assert forall|m: int| 1 <= m < 4 implies is_continuation_byte(#[trigger] s[i + m]) by {}
    lemma_not_in_scalar(s, i, 4);
    lemma_sanitized_outside(s, 0);
    assert(sanitized_from(s, 0)[i - 0] == REPLACEMENT);
    assert(sanitized_from(s, 0)[i + 1 - 0] == REPLACEMENT);
    assert(sanitized_from(s, 0)[i + 2 - 0] == REPLACEMENT);
    assert(sanitized_from(s, 0)[i + 3 - 0] == REPLACEMENT);
}

/// Bytes that are valid UTF-8 from index `i` on stay as they are.
pub proof fn lemma_sanitized_keeps(s: Seq<u8>, i: int)
    requires
        0 <= i <= s.len(),
        valid_utf8(s.skip(i)),
    ensures
        sanitized_from(s, i) == s.skip(i),
    decreases s.len() - i,
{
    if i < s.len() {
        let t = s.skip(i);
        let k = scalar_len(s, i);
        assert(valid_first_scalar(t));
        lemma_scalar_shape(s, i);
        assert(pop_first_scalar(t) =~= s.skip(i + k));
        lemma_sanitized_keeps(s, i + k);
        assert(s.subrange(i, i + k) + s.skip(i + k) =~= s.skip(i));
    } else {
        assert(s.skip(i) =~= Seq::<u8>::empty());
    }
}

/// What making text of bytes promises: as many bytes as before, each the
/// one that was there or a question mark, and together valid UTF-8. Bytes
/// that were valid UTF-8 stay as they are.
pub proof fn lemma_sanitized(s: Seq<u8>)
    ensures
        sanitized(s).len() == s.len(),
        valid_utf8(sanitized(s)),
        forall|j: int|
            0 <= j < s.len() ==> (#[trigger] sanitized(s)[j]) == s[j] || sanitized(s)[j]
                == REPLACEMENT,
        valid_utf8(s) ==> sanitized(s) == s,
{
    lemma_sanitized_len(s, 0);
    lemma_sanitized_valid(s, 0);
    lemma_sanitized_bytes(s, 0);
    assert forall|j: int| 0 <= j < s.len() implies (#[trigger] sanitized(s)[j]) == s[j]
        || sanitized(s)[j] == REPLACEMENT by {
        assert(s[0 + j] == s[j]);
    }
    if valid_utf8(s) {
        assert(s.skip(0) =~= s);
        lemma_sanitized_keeps(s, 0);
    }
}

/// Whether a byte continues a sequence.
pub fn continues(b: u8) -> (r: bool)
    ensures
        r == is_continuation_byte(b),
{
    0x80 <= b && b <= 0xbf
}

/// The length of the well-formed UTF-8 sequence that begins at index `i`.
pub fn scalar_len_at(buf: &Vec<u8>, i: usize) -> (k: usize)
    requires
        i < buf.len(),
    ensures
        k == scalar_len(buf@, i as int),
        k <= buf.len() - i,
        k <= 4,
{
    let ghost t = buf@.skip(i as int);
    let n = buf.len() - i;
    let b1 = buf[i];
    assert(t[0] == b1 && t.len() == n);
    if b1 <= 0x7f {
        proof {
            lemma_width_1(b1);
        }
        1
    } else if 0xc0 <= b1 && b1 <= 0xdf {
        if n >= 2 && continues(buf[i + 1]) {
            assert(t[1] == buf@[i + 1]);
            proof {
                lemma_width_2(b1, t[1]);
            }
            if b1 >= 0xc2 {
                2
            } else {
                0
            }
        } else {
            if n >= 2 {
                assert(t[1] == buf@[i + 1]);
            }
            0
        }
    } else if 0xe0 <= b1 && b1 <= 0xef {
        if n >= 3 && continues(buf[i + 1]) && continues(buf[i + 2]) {
            assert(t[1] == buf@[i + 1] && t[2] == buf@[i + 2]);
            proof {
                lemma_width_3(b1, t[1], t[2]);
            }
            if (b1 != 0xe0 || buf[i + 1] >= 0xa0) && !(b1 == 0xed && buf[i + 1] >= 0xa0) {
                3
            } else {
                0
            }
        } else {
            if n >= 3 {
                assert(t[1] == buf@[i + 1] && t[2] == buf@[i + 2]);
            }
            0
        }
    } else if 0xf0 <= b1 && b1 <= 0xf7 {
        if n >= 4 && continues(buf[i + 1]) && continues(buf[i + 2]) && continues(buf[i + 3]) {
            assert(t[1] == buf@[i + 1] && t[2] == buf@[i + 2] && t[3] == buf@[i + 3]);
            proof {
                lemma_width_4(b1, t[1], t[2], t[3]);
            }
            if (b1 != 0xf0 || buf[i + 1] >= 0x90) && (b1 < 0xf4 || (b1 == 0xf4 && buf[i + 1]
                < 0x90)) {
                4
            } else {
                0
            }
        } else {
            if n >= 4 {
                assert(t[1] == buf@[i + 1] && t[2] == buf@[i + 2] && t[3] == buf@[i + 3]);
            }
            0
        }
    } else {
        0
    }
}

/// Makes text of the bytes in `buf`, in place: the result is valid UTF-8 of
/// the same length, each byte the one that was there or a question mark.
pub fn sanitize(buf: &mut Vec<u8>)
    ensures
        final(buf)@ == sanitized(old(buf)@),
        final(buf)@.len() == old(buf)@.len(),
        valid_utf8(final(buf)@),
        forall|j: int|
            0 <= j < old(buf)@.len() ==> (#[trigger] final(buf)@[j]) == old(buf)@[j]
                || final(buf)@[j] == REPLACEMENT,
{
    let ghost orig = buf@;
    let mut i: usize = 0;
    assert(buf@.take(0) + sanitized_from(orig, 0) =~= sanitized(orig));
    while i < buf.len()
        invariant
            i <= buf.len(),
            buf@.len() == orig.len(),
            buf@.skip(i as int) == orig.skip(i as int),
            sanitized(orig) == buf@.take(i as int) + sanitized_from(orig, i as int),
        decreases buf.len() - i,
    {
        let k = scalar_len_at(buf, i);
        let ghost before = buf@;
        proof {
            assert(before[i as int] == before.skip(i as int)[0]);
        }
        if k > 0 {
            proof {
                assert(before.subrange(i as int, i + k) =~= before.skip(i as int).take(k as int));
                assert(orig.subrange(i as int, i + k) =~= orig.skip(i as int).take(k as int));
                assert(before.take(i + k) =~= before.take(i as int) + before.subrange(
                    i as int,
                    i + k,
                ));
                assert(before.skip(i + k) =~= before.skip(i as int).skip(k as int));
                assert(orig.skip(i + k) =~= orig.skip(i as int).skip(k as int));
                assert(before.take(i as int) + (orig.subrange(i as int, i + k) + sanitized_from(
                    orig,
                    i + k,
                )) =~= before.take(i + k) + sanitized_from(orig, i + k));
            }
            i += k;
        } else {
            buf.set(i, REPLACEMENT);
            proof {
                assert(buf@.take(i + 1) =~= before.take(i as int) + seq![REPLACEMENT]);
                assert(buf@.skip(i + 1) =~= before.skip(i as int).skip(1));
                assert(orig.skip(i + 1) =~= orig.skip(i as int).skip(1));
                assert(before.take(i as int) + (seq![REPLACEMENT] + sanitized_from(orig, i + 1))
                    =~= buf@.take(i + 1) + sanitized_from(orig, i + 1));
            }
            i += 1;
        }
    }
    assert(buf@.take(i as int) =~= buf@);
    assert(buf@ + Seq::<u8>::empty() =~= buf@);
    proof {
        lemma_sanitized(orig);
    }
}

/// Takes the bytes of a file into the buffer `s`, which loses what it held,
/// and makes text of them. The result is the number of bytes.
pub fn read_to_string(content: &[u8], s: &mut Vec<u8>) -> (n: usize)
    ensures
        final(s)@ == sanitized(content@),
        final(s)@.len() == content@.len(),
        valid_utf8(final(s)@),
        n == content@.len(),
{
    s.clear();
    s.extend_from_slice(content);
    assert(s@ =~= content@);
    sanitize(s);
    content.len()
}

/// Takes the bytes of a file into the buffer `s`, which loses what it held,
/// as they are: for files that hold nothing but ASCII. The result is the
/// number of bytes.
pub fn read_to_string_unchecked(content: &[u8], s: &mut Vec<u8>) -> (n: usize)
    ensures
        final(s)@ == content@,
        n == content@.len(),
{
    s.clear();
    s.extend_from_slice(content);
    assert(s@ =~= content@);
    content.len()
}

} // verus!
