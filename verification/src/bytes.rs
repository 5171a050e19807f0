//! Text as the bytes of its UTF-8 encoding.
//!
//! Source positions are byte offsets, so everything that cuts a source file
//! apart reasons about its bytes.
use vstd::prelude::*;
use vstd::utf8::{encode_utf8, is_char_boundary};

verus! {

/// Encoding distributes over concatenation.
pub proof fn lemma_encode_concat(a: Seq<char>, b: Seq<char>)
    ensures
        encode_utf8(a + b) == encode_utf8(a) + encode_utf8(b),
    decreases a.len(),
{
    if a.len() == 0 {
        assert(a + b == b);
        assert(encode_utf8(a) + encode_utf8(b) == encode_utf8(b));
    } else {
        assert((a + b).drop_first() == a.drop_first() + b);
        lemma_encode_concat(a.drop_first(), b);
    }
}

/// A character boundary lies inside the text.
pub proof fn lemma_boundary_in_range(s: Seq<char>, at: int)
    requires
        is_char_boundary(encode_utf8(s), at),
    ensures
        0 <= at <= encode_utf8(s).len(),
{
    vstd::utf8::encode_utf8_valid_utf8(s);
    reveal_with_fuel(is_char_boundary, 1);
}

/// A boundary of the whole is a boundary of a prefix that ends on a boundary.
pub proof fn lemma_boundary_of_prefix(s: Seq<char>, at: int, end: int)
    requires
        is_char_boundary(encode_utf8(s), at),
        is_char_boundary(encode_utf8(s), end),
        0 <= at <= end,
    ensures
        is_char_boundary(encode_utf8(s).subrange(0, end), at),
{
    let b = encode_utf8(s);
    let p = b.subrange(0, end);
    lemma_boundary_in_range(s, end);
    vstd::utf8::encode_utf8_valid_utf8(s);
    vstd::utf8::valid_utf8_split(b, end);
    vstd::utf8::is_char_boundary_start_end_of_seq(p);
    if at < end {
        vstd::utf8::is_char_boundary_iff_not_is_continuation_byte(p, at);
        vstd::utf8::is_char_boundary_iff_not_is_continuation_byte(b, at);
        assert(p[at] == b[at]);
    } else {
        assert(p.len() == at);
    }
}

/// Both ends of a text are character boundaries.
pub proof fn lemma_ends_are_boundaries(s: Seq<char>)
    ensures
        is_char_boundary(encode_utf8(s), 0),
        is_char_boundary(encode_utf8(s), encode_utf8(s).len() as int),
{
    vstd::utf8::encode_utf8_valid_utf8(s);
    vstd::utf8::is_char_boundary_start_end_of_seq(encode_utf8(s));
}

/// How many bytes `s` takes.
pub fn byte_len(s: &str) -> (r: usize)
    ensures
        r == encode_utf8(s@).len(),
{
    s.as_bytes().len()
}

/// Whether `at` is a character boundary of `s`.
pub fn on_boundary(s: &str, at: usize) -> (r: bool)
    ensures
        r == is_char_boundary(encode_utf8(s@), at as int),
{
    s.is_char_boundary(at)
}

/// The text of the bytes `from..to` of `s`.
pub fn slice(s: &str, from: usize, to: usize) -> (r: &str)
    requires
        from <= to,
        is_char_boundary(encode_utf8(s@), from as int),
        is_char_boundary(encode_utf8(s@), to as int),
    ensures
        encode_utf8(r@) == encode_utf8(s@).subrange(from as int, to as int),
{
    proof {
        lemma_boundary_in_range(s@, to as int);
        lemma_boundary_of_prefix(s@, from as int, to as int);
    }
    let (head, _) = s.split_at(to);
    let (_, middle) = head.split_at(from);
    proof {
        let b = encode_utf8(s@);
        assert(b.subrange(0, to as int).subrange(from as int, to as int) == b.subrange(
            from as int,
            to as int,
        ));
    }
    middle
}

} // verus!
