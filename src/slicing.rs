//! Cutting a string slice at a character position, with the byte offset of
//! that position tracked alongside.

use vstd::prelude::*;
use vstd::string::StringSliceAdditionalSpecFns;
use vstd::utf8::{
    encode_scalar, encode_utf8, encode_utf8_decode_utf8, encode_utf8_first_scalar,
    encode_utf8_valid_utf8, is_char_boundary, pop_first_scalar, char_is_scalar,
};

verus! {

/// The encoding of a concatenation is the concatenation of the encodings.
pub proof fn lemma_encode_concat(a: Seq<char>, b: Seq<char>)
    ensures
        encode_utf8(a + b) == encode_utf8(a) + encode_utf8(b),
    decreases a.len(),
{
    if a.len() == 0 {
        assert(a + b =~= b);
        assert(encode_utf8(a) + encode_utf8(b) =~= encode_utf8(b));
    } else {
        assert((a + b).drop_first() =~= a.drop_first() + b);
        lemma_encode_concat(a.drop_first(), b);
        assert(encode_utf8(a + b) =~= encode_utf8(a) + encode_utf8(b));
    }
}

/// The encoding of one more character grows by that character's width.
pub proof fn lemma_encode_push(a: Seq<char>, c: char)
    ensures
        encode_utf8(a.push(c)).len() == encode_utf8(a).len() + encode_scalar(c as u32).len(),
{
    assert(a.push(c) =~= a + seq![c]);
    lemma_encode_concat(a, seq![c]);
    assert(seq![c].drop_first() =~= Seq::<char>::empty());
    assert(encode_utf8(Seq::<char>::empty()).len() == 0);
    assert(encode_utf8(seq![c]) == encode_scalar(c as u32) + encode_utf8(seq![c].drop_first()));
}

/// The end of the encoding of a prefix is a character boundary of the whole.
proof fn lemma_prefix_boundary(a: Seq<char>, b: Seq<char>)
    ensures
        is_char_boundary(encode_utf8(a + b), encode_utf8(a).len() as int),
    decreases a.len(),
{
    encode_utf8_valid_utf8(a + b);
    lemma_encode_concat(a, b);
    if a.len() > 0 {
        let bytes = encode_utf8(a + b);
        encode_utf8_first_scalar(a + b);
        assert((a + b).drop_first() =~= a.drop_first() + b);
        assert(pop_first_scalar(bytes) =~= encode_utf8(a.drop_first() + b));
        lemma_prefix_boundary(a.drop_first(), b);
        lemma_encode_concat(a.drop_first(), b);
    }
}

/// A string slice whose bytes encode `x` holds the characters `x`.
proof fn lemma_view_of_bytes(s: &str, x: Seq<char>)
    requires
        s.spec_bytes() == encode_utf8(x),
    ensures
        s@ == x,
{
    encode_utf8_decode_utf8(s@);
    encode_utf8_decode_utf8(x);
}

/// The number of bytes in the UTF-8 encoding of `c`.
pub fn utf8_width(c: char) -> (w: usize)
    ensures
        w == encode_scalar(c as u32).len(),
{
    proof {
        char_is_scalar(c);
    }
    let v = c as u32;
    if v <= 0x7F {
        1
    } else if v <= 0x7FF {
        2
    } else if v <= 0xFFFF {
        3
    } else {
        4
    }
}

/// Cuts `s`, which holds `a` followed by `b`, into `a` and `b`; `mid` is the
/// byte length of `a`.
pub fn split_chars<'a>(s: &'a str, mid: usize, Ghost(a): Ghost<Seq<char>>, Ghost(b): Ghost<Seq<char>>) -> (r: (&'a str, &'a str))
    requires
        s@ == a + b,
        mid == encode_utf8(a).len(),
    ensures
        r.0@ == a,
        r.1@ == b,
{
    proof {
        lemma_encode_concat(a, b);
        lemma_prefix_boundary(a, b);
    }
    let r = s.split_at(mid);
    proof {
        let bytes = encode_utf8(a + b);
        assert(bytes.subrange(0, mid as int) =~= encode_utf8(a));
        assert(bytes.subrange(mid as int, bytes.len() as int) =~= encode_utf8(b));
        lemma_view_of_bytes(r.0, a);
        lemma_view_of_bytes(r.1, b);
    }
    r
}

} // verus!
