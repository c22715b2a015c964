//! Byte-level views of text: UTF-8 lengths, char boundaries and byte slices.
use vstd::prelude::*;
use vstd::utf8::*;
use vstd::string::*;

verus! {

broadcast use {
    vstd::utf8::group_utf8_lib,
    vstd::string::group_string_axioms,
    vstd::slice::group_slice_axioms,
};

/// Number of bytes in the UTF-8 encoding of `s`.
pub open spec fn byte_len(s: Seq<char>) -> nat {
    encode_utf8(s).len()
}

/// Byte offset `i` starts a char (or is the end) in the encoding of `s`.
pub open spec fn is_boundary(s: Seq<char>, i: int) -> bool {
    is_char_boundary(encode_utf8(s), i)
}

/// The chars encoded by bytes `a..b` of the encoding of `s`.
pub open spec fn byte_slice(s: Seq<char>, a: int, b: int) -> Seq<char> {
    decode_utf8(encode_utf8(s).subrange(a, b))
}

/// The encoding of a concatenation is the concatenation of the encodings.
pub proof fn lemma_encode_concat(a: Seq<char>, b: Seq<char>)
    ensures
        encode_utf8(a + b) == encode_utf8(a) + encode_utf8(b),
    decreases a.len(),
{
    if a.len() == 0 {
        assert(a + b =~= b);
        assert(encode_utf8(a) + encode_utf8(b) =~= encode_utf8(b));
    } else {
        assert((a + b).drop_first() =~= a.drop_first() + b);
        assert((a + b)[0] == a[0]);
        lemma_encode_concat(a.drop_first(), b);
        assert(encode_utf8(a + b) =~= encode_utf8(a) + encode_utf8(b));
    }
}

/// The byte offset where a prefix ends is a char boundary.
pub proof fn lemma_boundary_at_concat(a: Seq<char>, b: Seq<char>)
    ensures
        is_boundary(a + b, byte_len(a) as int),
    decreases a.len(),
{
    if a.len() == 0 {
    } else {
        let ab = a + b;
        assert(ab.drop_first() =~= a.drop_first() + b);
        encode_utf8_first_scalar(ab);
        encode_utf8_first_scalar(a);
        assert(ab[0] == a[0]);
        lemma_encode_concat(a, b);
        lemma_boundary_at_concat(a.drop_first(), b);
        let bytes = encode_utf8(ab);
        assert(pop_first_scalar(bytes) =~= encode_utf8(ab.drop_first()));
        assert(encode_utf8(a) =~= encode_scalar(a[0] as u32) + encode_utf8(a.drop_first()));
    }
}

/// The chars of a split at a boundary are the two byte slices.
pub proof fn lemma_split_chars(s: Seq<char>, i: int)
    requires
        is_boundary(s, i),
    ensures
        s == byte_slice(s, 0, i) + byte_slice(s, i, byte_len(s) as int),
{
    let bytes = encode_utf8(s);
    decode_utf8_split(bytes, i);
    assert(bytes.subrange(0, bytes.len() as int) =~= bytes);
}

/// The byte length and the boundaries of a split string.
pub proof fn lemma_prefix_bytes(a: Seq<char>, b: Seq<char>)
    ensures
        byte_len(a + b) == byte_len(a) + byte_len(b),
        byte_slice(a + b, 0, byte_len(a) as int) == a,
        byte_slice(a + b, byte_len(a) as int, byte_len(a + b) as int) == b,
        is_boundary(a + b, byte_len(a) as int),
{
    lemma_encode_concat(a, b);
    lemma_boundary_at_concat(a, b);
    let bytes = encode_utf8(a + b);
    assert(bytes.subrange(0, byte_len(a) as int) =~= encode_utf8(a));
    assert(bytes.subrange(byte_len(a) as int, bytes.len() as int) =~= encode_utf8(b));
}

/// A boundary of a string stays a boundary of any byte prefix that reaches it.
proof fn lemma_boundary_in_prefix(bytes: Seq<u8>, a: int, b: int)
    requires
        valid_utf8(bytes),
        0 <= a <= b <= bytes.len(),
        is_char_boundary(bytes, a),
        is_char_boundary(bytes, b),
    ensures
        valid_utf8(bytes.subrange(0, b)),
        is_char_boundary(bytes.subrange(0, b), a),
{
    valid_utf8_split(bytes, b);
    let head = bytes.subrange(0, b);
    if a < b {
        is_char_boundary_iff_not_is_continuation_byte(bytes, a);
        is_char_boundary_iff_not_is_continuation_byte(head, a);
    } else {
        is_char_boundary_start_end_of_seq(head);
    }
}

/// Number of bytes of `s`.
pub fn byte_length(s: &str) -> (n: usize)
    ensures
        n == byte_len(s@),
{
    s.as_bytes().len()
}

/// The text between byte offsets `a` and `b` of `s`.
pub fn str_slice<'a>(s: &'a str, a: usize, b: usize) -> (r: &'a str)
    requires
        a <= b <= byte_len(s@),
        is_boundary(s@, a as int),
        is_boundary(s@, b as int),
    ensures
        r@ == byte_slice(s@, a as int, b as int),
        byte_len(r@) == b - a,
{
    let bytes = Ghost(encode_utf8(s@));
    let (head, _tail) = s.split_at(b);
    proof {
        lemma_boundary_in_prefix(bytes@, a as int, b as int);
    }
    let (_lead, mid) = head.split_at(a);
    proof {
        assert(mid.spec_bytes() =~= bytes@.subrange(a as int, b as int));
        encode_utf8_decode_utf8(mid@);
    }
    mid
}

} // verus!
