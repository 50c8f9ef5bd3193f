use vstd::prelude::*;
use vstd::utf8::{
    char_is_scalar, encode_scalar, encode_utf8, encode_utf8_decode_utf8, encode_utf8_first_scalar,
    encode_utf8_valid_utf8, is_char_boundary, is_char_boundary_iff_not_is_continuation_byte,
    is_char_boundary_start_end_of_seq,
};

verus! {

/// The byte offset, in the UTF-8 encoding of `s`, of character position `i`.
pub open spec fn byte_offset(s: Seq<char>, i: int) -> int {
    encode_utf8(s.subrange(0, i)).len() as int
}

/// Encoding a concatenation encodes each part in turn.
pub proof fn lemma_encode_concat(a: Seq<char>, b: Seq<char>)
    ensures
        encode_utf8(a + b) == encode_utf8(a) + encode_utf8(b),
    decreases a.len(),
{
    if a.len() == 0 {
        assert(a + b =~= b);
        assert(encode_utf8(a) =~= Seq::<u8>::empty());
        assert(encode_utf8(a) + encode_utf8(b) =~= encode_utf8(b));
    } else {
        lemma_encode_concat(a.drop_first(), b);
        assert((a + b).drop_first() =~= a.drop_first() + b);
        assert((a + b)[0] == a[0]);
        assert(encode_utf8(a + b) =~= encode_utf8(a) + encode_utf8(b));
    }
}

/// The encoding of the characters in `[i, j)` is the part of the whole
/// encoding between their byte offsets; offsets grow with positions.
pub proof fn lemma_byte_range(s: Seq<char>, i: int, j: int)
    requires
        0 <= i <= j <= s.len(),
    ensures
        encode_utf8(s.subrange(0, j)) == encode_utf8(s.subrange(0, i)) + encode_utf8(
            s.subrange(i, j),
        ),
        byte_offset(s, j) == byte_offset(s, i) + encode_utf8(s.subrange(i, j)).len(),
        encode_utf8(s).subrange(byte_offset(s, i), byte_offset(s, j)) == encode_utf8(
            s.subrange(i, j),
        ),
        byte_offset(s, i) <= byte_offset(s, j) <= encode_utf8(s).len(),
        i < j ==> byte_offset(s, i) < byte_offset(s, j),
{
    lemma_encode_concat(s.subrange(0, i), s.subrange(i, j));
    assert(s.subrange(0, i) + s.subrange(i, j) =~= s.subrange(0, j));
    lemma_encode_concat(s.subrange(0, j), s.subrange(j, s.len() as int));
    assert(s.subrange(0, j) + s.subrange(j, s.len() as int) =~= s);
    let whole = encode_utf8(s);
    let pre = encode_utf8(s.subrange(0, i));
    let mid = encode_utf8(s.subrange(i, j));
    assert(whole.subrange(pre.len() as int, (pre.len() + mid.len()) as int) =~= mid);
    if i < j {
        let t = s.subrange(i, j);
        char_is_scalar(t[0]);
        assert(encode_utf8(t).len() >= encode_scalar(t[0] as u32).len());
    }
}

/// Byte offsets within the text after position `p` are those of the whole
/// text less the byte offset of `p`.
pub proof fn lemma_byte_offset_suffix(s: Seq<char>, p: int, k: int)
    requires
        0 <= p <= s.len(),
        0 <= k <= s.len() - p,
    ensures
        byte_offset(s, p + k) == byte_offset(s, p) + byte_offset(s.subrange(p, s.len() as int), k),
{
    lemma_byte_range(s, p, p + k);
    assert(s.subrange(p, s.len() as int).subrange(0, k) =~= s.subrange(p, p + k));
}

/// One character more adds the length of its encoding.
pub proof fn lemma_byte_offset_step(s: Seq<char>, i: int)
    requires
        0 <= i < s.len(),
    ensures
        byte_offset(s, i + 1) == byte_offset(s, i) + encode_scalar(s[i] as u32).len(),
{
    lemma_byte_range(s, i, i + 1);
    let one = s.subrange(i, i + 1);
    assert(one.drop_first() =~= Seq::<char>::empty());
    assert(encode_utf8(one) =~= encode_scalar(s[i] as u32) + encode_utf8(one.drop_first()));
}

/// Two character sequences with the same encoding are equal.
pub proof fn lemma_encode_injective(x: Seq<char>, y: Seq<char>)
    requires
        encode_utf8(x) == encode_utf8(y),
    ensures
        x == y,
{
    encode_utf8_decode_utf8(x);
    encode_utf8_decode_utf8(y);
}

/// The byte offset of every character position is a character boundary of
/// the encoding, so the bytes between two such offsets are exactly the
/// encoding of the characters between the positions.
pub proof fn lemma_span_text(s: Seq<char>, i: int, j: int)
    requires
        0 <= i <= j <= s.len(),
    ensures
        is_char_boundary(encode_utf8(s), byte_offset(s, i)),
        is_char_boundary(encode_utf8(s), byte_offset(s, j)),
        encode_utf8(s).subrange(byte_offset(s, i), byte_offset(s, j)) == encode_utf8(
            s.subrange(i, j),
        ),
{
    lemma_byte_range(s, i, j);
    lemma_offset_boundary(s, i);
    lemma_offset_boundary(s, j);
}

proof fn lemma_offset_boundary(s: Seq<char>, i: int)
    requires
        0 <= i <= s.len(),
    ensures
        is_char_boundary(encode_utf8(s), byte_offset(s, i)),
{
    let b = encode_utf8(s);
    encode_utf8_valid_utf8(s);
    is_char_boundary_start_end_of_seq(b);
    assert(s.subrange(0, s.len() as int) =~= s);
    if i < s.len() {
        lemma_byte_range(s, i, s.len() as int);
        let rest = s.subrange(i, s.len() as int);
        encode_utf8_first_scalar(rest);
        let tail = b.subrange(byte_offset(s, i), b.len() as int);
        assert(tail == encode_utf8(rest));
        assert(b[byte_offset(s, i)] == tail[0]);
        is_char_boundary_iff_not_is_continuation_byte(b, byte_offset(s, i));
    }
}

/// The number of bytes that UTF-8 takes for `c`.
pub fn utf8_width(c: char) -> (r: usize)
    ensures
        r == encode_scalar(c as u32).len(),
        1 <= r <= 4,
{
    let v = c as u32;
    proof {
        char_is_scalar(c);
    }
    if v <= 0x7F {
        1
    } else if v <= 0x7FF {
        2
    } else if v <= 0xFFFF {
        3
    } else {
        4
    }
}

} // verus!
