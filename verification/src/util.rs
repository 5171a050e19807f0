//! Positions in source text, and a scanner that knows where Rust's comments
//! and literals end.
use vstd::prelude::*;
use vstd::utf8::{decode_utf8, encode_scalar, encode_utf8, is_char_boundary};

use crate::bytes::{byte_len, lemma_encode_concat, lemma_ends_are_boundaries, slice};
use crate::path::{relative_to, strip_prefix};
pub use crate::scan::{macro_body_open, matching_close, Delim};
use crate::text::{chars_of, owned, replace_char, replaced, string_of};

verus! {

/// How a file is shown: relative to the root where it is below it, with forward
/// slashes. The root itself is shown as `.`.
pub open spec fn shown_path(root: Seq<char>, file: Seq<char>) -> Seq<char> {
    match relative_to(file, root) {
        Some(rel) => if rel.len() == 0 {
            "."@
        } else {
            replaced(rel, '\\', '/')
        },
        None => replaced(file, '\\', '/'),
    }
}

/// The path of `file` for display, relative to `root`.
pub fn display_rel_path(root: &str, file: &str) -> (r: String)
    ensures
        r@ == shown_path(root@, file@),
{
    match strip_prefix(file, root) {
        // `root` relative to itself is empty, which would print as nothing at
        // all; report it as "." the way a shell would.
        Some(rel) => if rel.as_str().unicode_len() == 0 {
            owned(".")
        } else {
            replace_char(rel.as_str(), '\\', '/')
        },
        None => replace_char(file, '\\', '/'),
    }
}

// ---------------------------------------------------------------------------
// Lines and columns
// ---------------------------------------------------------------------------

/// How often `b` occurs in `s`.
pub open spec fn count_byte(s: Seq<u8>, b: u8) -> nat
    decreases s.len(),
{
    if s.len() == 0 {
        0
    } else {
        count_byte(s.drop_last(), b) + if s.last() == b {
            1nat
        } else {
            0nat
        }
    }
}

/// The smaller of two numbers.
pub open spec fn smaller(a: int, b: int) -> int {
    if a < b {
        a
    } else {
        b
    }
}

/// 1-based line of a byte offset: one more than the newlines before it.
pub open spec fn line_at(src: Seq<char>, byte: int) -> nat {
    let b = encode_utf8(src);
    1 + count_byte(b.take(smaller(byte, b.len() as int)), 10)
}

/// How many characters follow the last newline of `s`.
pub open spec fn last_line_len(s: Seq<char>) -> nat
    decreases s.len(),
{
    if s.len() == 0 || s.last() == '\n' {
        0
    } else {
        1 + last_line_len(s.drop_last())
    }
}

/// The text before a byte offset.
pub open spec fn text_before(src: Seq<char>, byte: int) -> Seq<char> {
    let b = encode_utf8(src);
    decode_utf8(b.take(smaller(byte, b.len() as int)))
}

/// 1-based column, in characters, of a byte offset.
pub open spec fn column_at(src: Seq<char>, byte: int) -> nat {
    1 + last_line_len(text_before(src, byte))
}

/// 1-based line number of a byte offset.
pub fn line_of(src: &str, byte: usize) -> (r: usize)
    requires
        encode_utf8(src@).len() < usize::MAX,
    ensures
        r == line_at(src@, byte as int),
{
    let b = src.as_bytes();
    let end: usize = if byte < b.len() {
        byte
    } else {
        b.len()
    };
    let mut count: usize = 0;
    let mut i: usize = 0;
    proof {
        assert(b@.take(0) == Seq::<u8>::empty());
    }
    while i < end
        invariant
            i <= end <= b@.len(),
            count == count_byte(b@.take(i as int), 10),
            count <= i,
        decreases end - i,
    {
        proof {
            assert(b@.take(i + 1).drop_last() == b@.take(i as int));
            assert(b@.take(i + 1).last() == b@[i as int]);
        }
        if b[i] == 10 {
            count = count + 1;
        }
        i = i + 1;
    }
    1 + count
}

/// 1-based column number (in characters) of a byte offset.
pub fn column_of(src: &str, byte: usize) -> (r: usize)
    requires
        encode_utf8(src@).len() < usize::MAX,
        byte < encode_utf8(src@).len() ==> is_char_boundary(encode_utf8(src@), byte as int),
    ensures
        r == column_at(src@, byte as int),
{
    let len: usize = byte_len(src);
    let end: usize = if byte < len {
        byte
    } else {
        len
    };
    proof {
        lemma_ends_are_boundaries(src@);
    }
    let head = slice(src, 0, end);
    proof {
        assert(encode_utf8(src@).subrange(0, end as int) == encode_utf8(src@).take(end as int));
        vstd::utf8::encode_utf8_decode_utf8(head@);
        lemma_encoding_is_not_shorter(head@);
    }
    let v = chars_of(head);
    let mut n: usize = v.len();
    let mut count: usize = 0;
    proof {
        assert(v@.take(n as int) == v@);
    }
    while n > 0 && v[n - 1] != '\n'
        invariant
            n <= v@.len(),
            v@.len() < usize::MAX,
            count == v@.len() - n,
            last_line_len(v@) == count + last_line_len(v@.take(n as int)),
        decreases n,
    {
        proof {
            assert(v@.take(n as int).drop_last() == v@.take(n - 1));
            assert(v@.take(n as int).last() == v@[n - 1]);
        }
        n = n - 1;
        count = count + 1;
    }
    proof {
        if n > 0 {
            assert(v@.take(n as int).last() == v@[n - 1]);
        }
    }
    1 + count
}

proof fn lemma_count_byte(s: Seq<u8>, b: u8)
    ensures
        count_byte(s, b) <= s.len(),
    decreases s.len(),
{
    if s.len() > 0 {
        lemma_count_byte(s.drop_last(), b);
    }
}

proof fn lemma_last_line_len(s: Seq<char>)
    ensures
        last_line_len(s) <= s.len(),
    decreases s.len(),
{
    if s.len() > 0 && s.last() != '\n' {
        lemma_last_line_len(s.drop_last());
    }
}

/// Lines and columns are at most one more than the bytes before them.
pub proof fn lemma_place_fits(src: Seq<char>, byte: int)
    requires
        0 <= byte,
        byte < encode_utf8(src).len() ==> is_char_boundary(encode_utf8(src), byte),
    ensures
        1 <= line_at(src, byte) <= encode_utf8(src).len() + 1,
        1 <= column_at(src, byte) <= encode_utf8(src).len() + 1,
{
    let b = encode_utf8(src);
    let end = smaller(byte, b.len() as int);
    let head = b.take(end);
    lemma_count_byte(head, 10);
    lemma_ends_are_boundaries(src);
    vstd::utf8::encode_utf8_valid_utf8(src);
    vstd::utf8::valid_utf8_split(b, end);
    assert(b.subrange(0, end) =~= head);
    vstd::utf8::decode_utf8_encode_utf8(head);
    lemma_encoding_is_not_shorter(decode_utf8(head));
    lemma_last_line_len(decode_utf8(head));
}

/// A text takes at least one byte per character.
pub proof fn lemma_encoding_is_not_shorter(s: Seq<char>)
    ensures
        s.len() <= encode_utf8(s).len(),
    decreases s.len(),
{
    if s.len() > 0 {
        lemma_encoding_is_not_shorter(s.drop_first());
    }
}

// ---------------------------------------------------------------------------
// Truncation
// ---------------------------------------------------------------------------

/// How many bytes a character takes.
pub open spec fn char_width(c: char) -> nat {
    encode_scalar(c as u32).len()
}

/// How many leading characters of `s` fit in `max` bytes.
pub open spec fn fitting(s: Seq<char>, max: int) -> nat
    decreases s.len(),
{
    if s.len() == 0 || char_width(s[0]) > max {
        0
    } else {
        1 + fitting(s.drop_first(), max - char_width(s[0]))
    }
}

/// `s` cut to at most `max` bytes of whole characters, with an ellipsis to
/// show that something was cut.
pub open spec fn truncated(s: Seq<char>, max: nat) -> Seq<char> {
    if encode_utf8(s).len() <= max {
        s
    } else {
        s.take(fitting(s, max as int) as int) + "…"@
    }
}

fn width_of(c: char) -> (r: usize)
    ensures
        r == char_width(c),
        1 <= r <= 4,
{
    let u: u32 = c as u32;
    if u <= 0x7f {
        1
    } else if u <= 0x7ff {
        2
    } else if u <= 0xffff {
        3
    } else {
        4
    }
}

/// The kept part is a prefix that fits, and one more character would not.
pub proof fn lemma_fitting(s: Seq<char>, max: int)
    requires
        0 <= max,
    ensures
        fitting(s, max) <= s.len(),
        encode_utf8(s.take(fitting(s, max) as int)).len() <= max,
        fitting(s, max) < s.len() ==> encode_utf8(s.take((fitting(s, max) + 1) as int)).len() > max,
    decreases s.len(),
{
    if s.len() > 0 {
        let w = char_width(s[0]) as int;
        if w > max {
            assert(s.take(0) == Seq::<char>::empty());
            let one = s.take(1);
            assert(one[0] == s[0]);
            assert(encode_utf8(one).len() >= w);
        } else {
            lemma_fitting(s.drop_first(), max - w);
            let n = fitting(s.drop_first(), max - w) as int;
            let t = s.take(n + 1);
            assert(t.drop_first() == s.drop_first().take(n));
            assert(t[0] == s[0]);
            if n < s.drop_first().len() {
                let t2 = s.take(n + 2);
                assert(t2.drop_first() == s.drop_first().take(n + 1));
                assert(t2[0] == s[0]);
            }
        }
    } else {
        assert(s.take(0) == Seq::<char>::empty());
    }
}

/// A truncated text keeps as much of the beginning of the original as fits, and takes at
/// most three bytes more than allowed: those of the ellipsis.
pub proof fn lemma_truncated_is_short(s: Seq<char>, max: nat)
    ensures
        encode_utf8(truncated(s, max)).len() <= max + 3,
        encode_utf8(s).len() <= max ==> truncated(s, max) == s,
        encode_utf8(s).len() > max ==> truncated(s, max).len() > 0 && truncated(s, max).last() == '…'
            && truncated(s, max).drop_last().is_prefix_of(s),
        encode_utf8(s).len() > max ==> encode_utf8(truncated(s, max).drop_last()).len() <= max
            < encode_utf8(s.take(truncated(s, max).len() as int)).len(),
{
    reveal_strlit("…");
    if encode_utf8(s).len() > max {
        lemma_fitting(s, max as int);
        let head = s.take(fitting(s, max as int) as int);
        lemma_encode_concat(head, "…"@);
        assert("…"@.len() == 1);
        assert("…"@ =~= seq!['…']);
        assert("…"@.drop_first() =~= Seq::<char>::empty());
        assert("…"@[0] as u32 == 0x2026);
        reveal_with_fuel(encode_utf8, 2);
        assert(encode_utf8("…"@) == encode_scalar(0x2026) + encode_utf8(Seq::<char>::empty()));
        assert(truncated(s, max).drop_last() =~= head);
        assert(s.take(s.len() as int) =~= s);
    }
}

/// Cut `s` to at most `max` bytes, on a character boundary.
pub fn truncate(s: &str, max: usize) -> (r: String)
    ensures
        r@ == truncated(s@, max as nat),
{
    if byte_len(s) <= max {
        return owned(s);
    }
    let v = chars_of(s);
    let mut n: usize = 0;
    let mut left: usize = max;
    proof {
        assert(v@.skip(0) == v@);
    }
    while n < v.len() && width_of(v[n]) <= left
        invariant
            n <= v@.len(),
            v@ == s@,
            fitting(s@, max as int) == n + fitting(v@.skip(n as int), left as int),
        decreases v.len() - n,
    {
        proof {
            assert(v@.skip(n as int).drop_first() == v@.skip(n + 1));
            assert(v@.skip(n as int)[0] == v@[n as int]);
        }
        left = left - width_of(v[n]);
        n = n + 1;
    }
    proof {
        if n < v@.len() {
            assert(v@.skip(n as int)[0] == v@[n as int]);
        }
        assert(v@.subrange(0, n as int) == s@.take(n as int));
    }
    let mut out = string_of(&v, 0, n);
    out.push_str("…");
    out
}

} // verus!
