//! What a scan of source bytes takes for a delimiter, and what it steps over.
use vstd::prelude::*;

use crate::scan::{
    block_end, body_open_from, body_open_of, byte_is, char_end, char_literal_end, char_width,
    close_from, continuations, delim_opened_by, escape_end, hash_run, hashes_at,
    lemma_lexeme_advances, lexeme_at, line_end, matching_close_of, prefixed_string_end, quoted_end,
    raw_body_end, raw_end, Delim, Lexeme,
};

verus! {

/// Whether two bytes are a pair of delimiters: `()`, `[]` or `{}`.
pub open spec fn is_pair(open: u8, close: u8) -> bool {
    (open == 40 && close == 41) || (open == 91 && close == 93) || (open == 123 && close == 125)
}

/// Whether a stretch of source holds neither of two delimiters, and no quote or slash, so
/// that nothing in it can begin a literal or a comment.
pub open spec fn is_bare(t: Seq<u8>, open: u8, close: u8) -> bool {
    forall|i: int|
        0 <= i < t.len() ==> (#[trigger] t[i]) != open && t[i] != close && t[i] != 34 && t[i] != 39
            && t[i] != 47
}

/// Whether nothing at the end of a stretch can be the prefix of a string that follows it.
pub open spec fn ends_apart(t: Seq<u8>) -> bool {
    t.len() > 0 ==> t.last() != 35 && t.last() != 98 && t.last() != 114
}

/// Whether a byte stands nowhere in a stretch.
pub open spec fn lacks_byte(t: Seq<u8>, b: u8) -> bool {
    forall|i: int| 0 <= i < t.len() ==> #[trigger] t[i] != b
}

/// A delimited stretch: the opening byte, what is inside, the closing byte.
pub open spec fn enclosed(open: u8, inside: Seq<u8>, close: u8) -> Seq<u8> {
    seq![open] + inside + seq![close]
}

proof fn lemma_hash_run(s: Seq<u8>, i: int, m: int)
    requires
        0 <= i <= m < s.len(),
        s[m] != 35,
    ensures
        i + hash_run(s, i) <= m,
    decreases m - i,
{
    if byte_is(s, i, 35) {
        lemma_hash_run(s, i + 1, m);
    }
}

proof fn lemma_no_prefix(s: Seq<u8>, i: int, m: int)
    requires
        0 <= i <= m < s.len(),
        s[m] != 34 && s[m] != 35 && s[m] != 98 && s[m] != 114,
        forall|k: int| i <= k < m ==> #[trigger] s[k] != 34,
    ensures
        prefixed_string_end(s, i) is None,
{
    if byte_is(s, i, 114) || byte_is(s, i, 98) {
        lemma_hash_run(s, i + 1, m);
        if byte_is(s, i + 1, 98) || byte_is(s, i + 1, 114) {
            lemma_hash_run(s, i + 2, m);
        }
    }
}

proof fn lemma_over_bare(s: Seq<u8>, i: int, j: int, m: int, d: Delim, depth: nat)
    requires
        0 <= i <= j <= s.len(),
        j - 1 <= m <= j,
        i <= m || i == j,
        i < j ==> m < s.len() && s[m] != 34 && s[m] != 35 && s[m] != 98 && s[m] != 114,
        forall|k: int|
            i <= k < j ==> (#[trigger] s[k]) != d.open && s[k] != d.close && s[k] != 34 && s[k] != 39
                && s[k] != 47,
    ensures
        close_from(s, i, d, depth) == close_from(s, j, d, depth),
    decreases j - i,
{
    if i < j {
        lemma_lexeme_advances(s, i);
        lemma_no_prefix(s, i, m);
        assert(s[i] != 34);
        assert(lexeme_at(s, i) is Plain);
        lemma_over_bare(s, i + 1, j, m, d, depth);
    }
}

proof fn lemma_around(open: u8, close: u8, pre: Seq<u8>, p: Seq<u8>, post: Seq<u8>, rest: Seq<u8>)
    requires
        is_pair(open, close),
        is_bare(pre, open, close),
        ends_apart(pre),
        is_bare(post, open, close),
        ({
            let s = enclosed(open, pre + p + post, close) + rest;
            let i = 1 + pre.len() as int;
            let d = Delim { open, close };
            close_from(s, i, d, 1) == close_from(s, i + p.len(), d, 1)
        }),
    ensures
        matching_close_of(enclosed(open, pre + p + post, close) + rest, 0) == Some(
            (1 + pre.len() + p.len() + post.len()) as int,
        ),
{
    let s = enclosed(open, pre + p + post, close) + rest;
    let d = Delim { open, close };
    let i = 1 + pre.len() as int;
    let j = i + p.len();
    let e = j + post.len();
    lemma_lexeme_advances(s, 0);
    assert(s[0] == open);
    assert(lexeme_at(s, 0) is Plain);
    assert(matching_close_of(s, 0) == close_from(s, 1, d, 1));
    assert forall|k: int| 1 <= k < i implies (#[trigger] s[k]) != open && s[k] != close && s[k]
        != 34 && s[k] != 39 && s[k] != 47 by {
        assert(s[k] == pre[k - 1]);
    }
    if pre.len() > 0 {
        assert(s[i - 1] == pre.last());
        assert(s[i - 1] != 34);
    }
    lemma_over_bare(s, 1, i, i - 1, d, 1);
    assert(s[e] == close);
    assert forall|k: int| j <= k < e implies (#[trigger] s[k]) != open && s[k] != close && s[k]
        != 34 && s[k] != 39 && s[k] != 47 by {
        assert(s[k] == post[k - j]);
    }
    lemma_over_bare(s, j, e, e, d, 1);
    lemma_lexeme_advances(s, e);
    assert(lexeme_at(s, e) is Plain);
}

/// The place at which a piece stands inside delimiters.
proof fn lemma_place(open: u8, close: u8, pre: Seq<u8>, p: Seq<u8>, post: Seq<u8>, rest: Seq<u8>)
    ensures
        ({
            let s = enclosed(open, pre + p + post, close) + rest;
            let i = 1 + pre.len() as int;
            &&& i + p.len() < s.len()
            &&& forall|k: int| 0 <= k < p.len() ==> s[i + k] == #[trigger] p[k]
            &&& forall|k: int| i <= k < i + p.len() ==> #[trigger] s[k] == p[k - i]
        }),
{
}

/// A stretch without delimiters, literals and comments is closed by the first closing byte
/// after it.
pub proof fn lemma_plain_body_is_closed_at_its_end(
    open: u8,
    close: u8,
    body: Seq<u8>,
    rest: Seq<u8>,
)
    requires
        is_pair(open, close),
        is_bare(body, open, close),
    ensures
        matching_close_of(enclosed(open, body, close) + rest, 0) == Some((1 + body.len()) as int),
{
    let none = Seq::<u8>::empty();
    assert(none + none + body =~= body);
    lemma_around(open, close, none, none, body, rest);
}

/// Without a closing byte there is no end.
pub proof fn lemma_open_body_has_no_end(open: u8, close: u8, body: Seq<u8>)
    requires
        is_pair(open, close),
        is_bare(body, open, close),
        ends_apart(body),
    ensures
        matching_close_of(seq![open] + body, 0) is None,
{
    let s = seq![open] + body;
    let d = Delim { open, close };
    lemma_lexeme_advances(s, 0);
    assert(s[0] == open);
    assert(lexeme_at(s, 0) is Plain);
    assert forall|k: int| 1 <= k < s.len() implies (#[trigger] s[k]) != open && s[k] != close
        && s[k] != 34 && s[k] != 39 && s[k] != 47 by {
        assert(s[k] == body[k - 1]);
    }
    if body.len() > 0 {
        assert(s[s.len() - 1] == body.last());
        assert(s[s.len() - 1] != 34);
    }
    lemma_over_bare(s, 1, s.len() as int, s.len() - 1, d, 1);
}

/// A pair inside a pair does not end it.
pub proof fn lemma_inner_pair_does_not_close(
    open: u8,
    close: u8,
    pre: Seq<u8>,
    inner: Seq<u8>,
    post: Seq<u8>,
    rest: Seq<u8>,
)
    requires
        is_pair(open, close),
        is_bare(pre, open, close),
        ends_apart(pre),
        is_bare(inner, open, close),
        is_bare(post, open, close),
    ensures
        matching_close_of(
            enclosed(open, pre + enclosed(open, inner, close) + post, close) + rest,
            0,
        ) == Some((3 + pre.len() + inner.len() + post.len()) as int),
{
    let p = enclosed(open, inner, close);
    let s = enclosed(open, pre + p + post, close) + rest;
    let i = 1 + pre.len() as int;
    let d = Delim { open, close };
    lemma_place(open, close, pre, p, post, rest);
    let e = i + 1 + inner.len();
    assert(s[i] == p[0]);
    assert(s[e] == p[e - i]);
    lemma_lexeme_advances(s, i);
    assert(lexeme_at(s, i) is Plain);
    assert forall|k: int| i + 1 <= k < e implies (#[trigger] s[k]) != open && s[k] != close && s[k]
        != 34 && s[k] != 39 && s[k] != 47 by {
        assert(s[k] == p[k - i]);
        assert(s[k] == inner[k - i - 1]);
    }
    lemma_over_bare(s, i + 1, e, e, d, 2);
    lemma_lexeme_advances(s, e);
    assert(lexeme_at(s, e) is Plain);
    assert(close_from(s, i, d, 1) == close_from(s, i + p.len(), d, 1));
    lemma_around(open, close, pre, p, post, rest);
}

proof fn lemma_quoted_end_at(s: Seq<u8>, i: int, j: int)
    requires
        0 <= i <= j < s.len(),
        s[j] == 34,
        forall|k: int| i <= k < j ==> (#[trigger] s[k]) != 34 && s[k] != 92,
    ensures
        quoted_end(s, i, 34) == Some(j + 1),
    decreases j - i,
{
    if i < j {
        assert(s[i] != 34 && s[i] != 92);
        lemma_quoted_end_at(s, i + 1, j);
    }
}

/// Nothing in a string counts, whatever it holds.
pub proof fn lemma_strings_are_stepped_over(
    open: u8,
    close: u8,
    pre: Seq<u8>,
    text: Seq<u8>,
    post: Seq<u8>,
    rest: Seq<u8>,
)
    requires
        is_pair(open, close),
        is_bare(pre, open, close),
        ends_apart(pre),
        lacks_byte(text, 34),
        lacks_byte(text, 92),
        is_bare(post, open, close),
    ensures
        matching_close_of(
            enclosed(open, pre + enclosed(34, text, 34) + post, close) + rest,
            0,
        ) == Some((3 + pre.len() + text.len() + post.len()) as int),
{
    let p = enclosed(34, text, 34);
    let s = enclosed(open, pre + p + post, close) + rest;
    let i = 1 + pre.len() as int;
    let d = Delim { open, close };
    lemma_place(open, close, pre, p, post, rest);
    let e = i + 1 + text.len();
    assert(s[i] == p[0]);
    assert(s[e] == p[e - i]);
    assert forall|k: int| i + 1 <= k < e implies (#[trigger] s[k]) != 34 && s[k] != 92 by {
        assert(s[k] == p[k - i]);
        assert(s[k] == text[k - i - 1]);
    }
    lemma_quoted_end_at(s, i + 1, e);
    lemma_lexeme_advances(s, i);
    assert(lexeme_at(s, i) == Lexeme::Skip(e + 1));
    lemma_around(open, close, pre, p, post, rest);
}

proof fn lemma_quoted_end_past(s: Seq<u8>, i: int, j: int)
    requires
        0 <= i <= j,
        j + 1 < s.len(),
        s[j] == 92,
        forall|k: int| i <= k < j ==> (#[trigger] s[k]) != 34 && s[k] != 92,
    ensures
        quoted_end(s, i, 34) == quoted_end(s, j + 2, 34),
    decreases j - i,
{
    if i < j {
        assert(s[i] != 34 && s[i] != 92);
        lemma_quoted_end_past(s, i + 1, j);
    }
}

proof fn lemma_escaped_string(s: Seq<u8>, j: int, e: int)
    requires
        2 <= j,
        j + 2 <= e < s.len(),
        s[1] == 34,
        s[j] == 92,
        s[e] == 34,
        forall|k: int| 2 <= k < j ==> (#[trigger] s[k]) != 34 && s[k] != 92,
        forall|k: int| j + 2 <= k < e ==> (#[trigger] s[k]) != 34 && s[k] != 92,
    ensures
        lexeme_at(s, 1) == Lexeme::Skip(e + 1),
{
    lemma_quoted_end_past(s, 2, j);
    lemma_quoted_end_at(s, j + 2, e);
}

/// A piece that is skipped whole, with nothing around it inside the delimiters.
proof fn lemma_alone(open: u8, close: u8, p: Seq<u8>, rest: Seq<u8>)
    requires
        is_pair(open, close),
        lexeme_at(enclosed(open, p, close) + rest, 1) == Lexeme::Skip(1 + p.len() as int),
    ensures
        matching_close_of(enclosed(open, p, close) + rest, 0) == Some((1 + p.len()) as int),
{
    let none = Seq::<u8>::empty();
    assert(none + p + none =~= p);
    let s = enclosed(open, p, close) + rest;
    lemma_lexeme_advances(s, 1);
    lemma_around(open, close, none, p, none, rest);
}

/// A backslash in a string takes the next byte with it: an escaped quote does not end the
/// string.
#[verifier::rlimit(50)]
pub proof fn lemma_escaped_byte_does_not_end_a_string(
    open: u8,
    close: u8,
    a: Seq<u8>,
    escaped: u8,
    b: Seq<u8>,
    rest: Seq<u8>,
)
    requires
        is_pair(open, close),
        lacks_byte(a, 34),
        lacks_byte(a, 92),
        lacks_byte(b, 34),
        lacks_byte(b, 92),
    ensures
        matching_close_of(
            enclosed(open, enclosed(34, a + seq![92, escaped] + b, 34), close) + rest,
            0,
        ) == Some((5 + a.len() + b.len()) as int),
{
    let none = Seq::<u8>::empty();
    let text = a + seq![92, escaped] + b;
    let p = enclosed(34, text, 34);
    assert(none + p + none =~= p);
    let s = enclosed(open, p, close) + rest;
    let d = Delim { open, close };
    lemma_place(open, close, none, p, none, rest);
    let j = 2 + a.len() as int;
    let e = 2 + text.len() as int;
    assert(s[1] == p[0]);
    assert(s[j] == p[j - 1]);
    assert(s[e] == p[e - 1]);
    assert forall|k: int| 2 <= k < j implies (#[trigger] s[k]) != 34 && s[k] != 92 by {
        assert(s[k] == p[k - 1]);
        assert(s[k] == a[k - 2]);
    }
    assert forall|k: int| j + 2 <= k < e implies (#[trigger] s[k]) != 34 && s[k] != 92 by {
        assert(s[k] == p[k - 1]);
        assert(s[k] == b[k - j - 2]);
    }
    lemma_escaped_string(s, j, e);
    lemma_alone(open, close, p, rest);
}

proof fn lemma_hash_run_is(s: Seq<u8>, i: int, n: nat)
    requires
        0 <= i,
        i + n < s.len(),
        s[i + n] != 35,
        forall|k: int| i <= k < i + n ==> #[trigger] s[k] == 35,
    ensures
        hash_run(s, i) == n,
    decreases n,
{
    if n > 0 {
        assert(s[i] == 35);
        lemma_hash_run_is(s, i + 1, (n - 1) as nat);
    }
}

proof fn lemma_raw_end_at(s: Seq<u8>, i: int, j: int, n: nat)
    requires
        0 <= i <= j,
        0 < n,
        j + n < s.len(),
        s[j] == 34,
        forall|k: int| j < k <= j + n ==> #[trigger] s[k] == 35,
        forall|k: int| i <= k < j ==> #[trigger] s[k] != 35,
    ensures
        raw_end(s, i, n) == Some(j + 1 + n),
    decreases j - i,
{
    if i < j {
        if hashes_at(s, i + 1, n) {
            assert(s[i + 1] == 35);
        }
        lemma_raw_end_at(s, i + 1, j, n);
    } else {
        assert(hashes_at(s, i + 1, n));
    }
}

proof fn lemma_raw_string(s: Seq<u8>, n: nat, e: int)
    requires
        0 < n,
        3 + n <= e,
        e + n < s.len(),
        s[1] == 114,
        s[2 + n as int] == 34,
        s[e] == 34,
        forall|k: int| 2 <= k < 2 + n ==> #[trigger] s[k] == 35,
        forall|k: int| 3 + n <= k < e ==> #[trigger] s[k] != 35,
        forall|k: int| e < k <= e + n ==> #[trigger] s[k] == 35,
    ensures
        lexeme_at(s, 1) == Lexeme::Skip(e + 1 + n),
{
    assert(s[2] == 35);
    lemma_hash_run_is(s, 2, n);
    lemma_raw_end_at(s, 3 + n as int, e, n);
}

proof fn lemma_raw_end_plain(s: Seq<u8>, i: int, j: int)
    requires
        0 <= i <= j < s.len(),
        s[j] == 34,
        forall|k: int| i <= k < j ==> #[trigger] s[k] != 34,
    ensures
        raw_end(s, i, 0) == Some(j + 1),
    decreases j - i,
{
    if i < j {
        assert(s[i] != 34);
        lemma_raw_end_plain(s, i + 1, j);
    } else {
        assert(hashes_at(s, i + 1, 0));
    }
}

/// A raw string without hashes ends at the next quote, whatever a backslash stands before.
pub proof fn lemma_raw_string_ends_at_its_quote(open: u8, close: u8, text: Seq<u8>, rest: Seq<u8>)
    requires
        is_pair(open, close),
        lacks_byte(text, 34),
    ensures
        matching_close_of(
            enclosed(open, seq![114u8] + enclosed(34, text, 34), close) + rest,
            0,
        ) == Some((4 + text.len()) as int),
{
    let p = seq![114u8] + enclosed(34, text, 34);
    let s = enclosed(open, p, close) + rest;
    assert forall|k: int| 1 <= k <= p.len() implies #[trigger] s[k] == p[k - 1] by {}
    let e = 3 + text.len() as int;
    assert(s[1] == 114 && s[2] == 34 && s[e] == 34);
    assert forall|k: int| 3 <= k < e implies #[trigger] s[k] != 34 by {
        assert(s[k] == text[k - 3]);
    }
    lemma_raw_end_plain(s, 3, e);
    assert(hash_run(s, 2) == 0);
    assert(lexeme_at(s, 1) == Lexeme::Skip(e + 1));
    lemma_alone(open, close, p, rest);
}

/// A raw byte string ends as a raw string does.
pub proof fn lemma_raw_byte_string_ends_at_its_quote(
    open: u8,
    close: u8,
    text: Seq<u8>,
    rest: Seq<u8>,
)
    requires
        is_pair(open, close),
        lacks_byte(text, 34),
    ensures
        matching_close_of(
            enclosed(open, seq![98u8, 114] + enclosed(34, text, 34), close) + rest,
            0,
        ) == Some((5 + text.len()) as int),
{
    let p = seq![98u8, 114] + enclosed(34, text, 34);
    let s = enclosed(open, p, close) + rest;
    assert forall|k: int| 1 <= k <= p.len() implies #[trigger] s[k] == p[k - 1] by {}
    let e = 4 + text.len() as int;
    assert(s[1] == 98 && s[2] == 114 && s[3] == 34 && s[e] == 34);
    assert forall|k: int| 4 <= k < e implies #[trigger] s[k] != 34 by {
        assert(s[k] == text[k - 4]);
    }
    lemma_raw_end_plain(s, 4, e);
    assert(hash_run(s, 3) == 0);
    assert(lexeme_at(s, 1) == Lexeme::Skip(e + 1));
    lemma_alone(open, close, p, rest);
}

/// A character of several bytes is a character: its literal is stepped over whole.
pub proof fn lemma_wide_characters_are_stepped_over(
    open: u8,
    close: u8,
    first: u8,
    more: Seq<u8>,
    rest: Seq<u8>,
)
    requires
        is_pair(open, close),
        (0xC0 <= first < 0xE0 && more.len() == 1) || (0xE0 <= first < 0xF0 && more.len() == 2) || (
        0xF0 <= first < 0xF8 && more.len() == 3),
        forall|i: int| 0 <= i < more.len() ==> 0x80 <= #[trigger] more[i] < 0xC0,
    ensures
        matching_close_of(
            enclosed(open, seq![39u8, first] + more + seq![39u8], close) + rest,
            0,
        ) == Some((4 + more.len()) as int),
{
    let p = seq![39u8, first] + more + seq![39u8];
    let s = enclosed(open, p, close) + rest;
    assert forall|k: int| 1 <= k <= p.len() implies #[trigger] s[k] == p[k - 1] by {}
    let e = 3 + more.len() as int;
    assert(s[1] == 39 && s[2] == first && s[e] == 39);
    assert forall|k: int| 3 <= k < e implies 0x80 <= #[trigger] s[k] < 0xC0 by {
        assert(s[k] == more[k - 3]);
    }
    assert(continuations(s, 3, e));
    assert(char_end(s, 2) == e);
    assert(lexeme_at(s, 1) == Lexeme::Skip(e + 1));
    lemma_alone(open, close, p, rest);
}

/// Hashes in a row.
pub open spec fn hashes(n: nat) -> Seq<u8> {
    Seq::new(n, |i: int| 35u8)
}

/// A raw string with hashes.
pub open spec fn raw_string(n: nat, text: Seq<u8>) -> Seq<u8> {
    seq![114u8] + hashes(n) + enclosed(34, text, 34) + hashes(n)
}

proof fn lemma_raw_piece(n: nat, text: Seq<u8>)
    requires
        lacks_byte(text, 35),
    ensures
        ({
            let p = raw_string(n, text);
            let e = 2 + n + text.len();
            &&& p.len() == 3 + 2 * n + text.len()
            &&& p[0] == 114
            &&& p[1 + n as int] == 34
            &&& p[e as int] == 34
            &&& forall|k: int| 1 <= k < 1 + n ==> #[trigger] p[k] == 35
            &&& forall|k: int| 2 + n <= k < e ==> #[trigger] p[k] != 35
            &&& forall|k: int| e < k <= e + n ==> #[trigger] p[k] == 35
        }),
{
    let p = raw_string(n, text);
    let e = 2 + n + text.len();
    assert forall|k: int| 2 + n <= k < e implies #[trigger] p[k] != 35 by {
        assert(p[k] == text[k - 2 - n]);
    }
}

/// Nothing in a raw string counts, not a quote or a backslash either: it ends where a quote
/// is followed by as many hashes as it began with.
pub proof fn lemma_raw_strings_are_stepped_over(
    open: u8,
    close: u8,
    n: nat,
    text: Seq<u8>,
    rest: Seq<u8>,
)
    requires
        is_pair(open, close),
        n > 0,
        lacks_byte(text, 35),
    ensures
        matching_close_of(enclosed(open, raw_string(n, text), close) + rest, 0) == Some(
            (4 + 2 * n + text.len()) as int,
        ),
{
    let p = raw_string(n, text);
    lemma_raw_piece(n, text);
    lemma_shifted_raw(open, close, p, n, 2 + n + text.len() as int, rest);
    lemma_alone(open, close, p, rest);
}

proof fn lemma_shifted_raw(open: u8, close: u8, p: Seq<u8>, n: nat, e: int, rest: Seq<u8>)
    requires
        0 < n,
        2 + n <= e,
        p.len() == e + n + 1,
        p[0] == 114,
        p[1 + n as int] == 34,
        p[e] == 34,
        forall|k: int| 1 <= k < 1 + n ==> #[trigger] p[k] == 35,
        forall|k: int| 2 + n <= k < e ==> #[trigger] p[k] != 35,
        forall|k: int| e < k <= e + n ==> #[trigger] p[k] == 35,
    ensures
        lexeme_at(enclosed(open, p, close) + rest, 1) == Lexeme::Skip(1 + p.len() as int),
{
    let s = enclosed(open, p, close) + rest;
    assert forall|k: int| 1 <= k <= p.len() implies #[trigger] s[k] == p[k - 1] by {}
    lemma_raw_string(s, n, e + 1);
}

proof fn lemma_block_end_at(s: Seq<u8>, i: int, j: int, depth: nat)
    requires
        0 <= i <= j,
        j + 1 < s.len(),
        s[j] == 42,
        s[j + 1] == 47,
        forall|k: int| i <= k < j ==> (#[trigger] s[k]) != 42 && s[k] != 47,
    ensures
        block_end(s, i, depth) == if depth <= 1 {
            Some(j + 2)
        } else {
            block_end(s, j + 2, (depth - 1) as nat)
        },
    decreases j - i,
{
    if i < j {
        assert(s[i] != 42 && s[i] != 47);
        lemma_block_end_at(s, i + 1, j, depth);
    }
}

proof fn lemma_block_end_into(s: Seq<u8>, i: int, j: int, depth: nat)
    requires
        0 <= i <= j,
        j + 1 < s.len(),
        s[j] == 47,
        s[j + 1] == 42,
        forall|k: int| i <= k < j ==> (#[trigger] s[k]) != 42 && s[k] != 47,
    ensures
        block_end(s, i, depth) == block_end(s, j + 2, depth + 1),
    decreases j - i,
{
    if i < j {
        assert(s[i] != 42 && s[i] != 47);
        lemma_block_end_into(s, i + 1, j, depth);
    }
}

/// A block comment.
pub open spec fn block_comment(text: Seq<u8>) -> Seq<u8> {
    seq![47u8, 42] + text + seq![42u8, 47]
}

/// Nothing in a block comment counts, and one inside another does not end it.
#[verifier::rlimit(50)]
pub proof fn lemma_block_comments_are_stepped_over(
    open: u8,
    close: u8,
    a: Seq<u8>,
    inner: Seq<u8>,
    b: Seq<u8>,
    rest: Seq<u8>,
)
    requires
        is_pair(open, close),
        lacks_byte(a, 42) && lacks_byte(a, 47),
        lacks_byte(inner, 42) && lacks_byte(inner, 47),
        lacks_byte(b, 42) && lacks_byte(b, 47),
    ensures
        matching_close_of(enclosed(open, block_comment(a), close) + rest, 0) == Some(
            (5 + a.len()) as int,
        ),
        matching_close_of(
            enclosed(open, block_comment(a + block_comment(inner) + b), close) + rest,
            0,
        ) == Some((9 + a.len() + inner.len() + b.len()) as int),
{
    let none = Seq::<u8>::empty();
    let d = Delim { open, close };
    {
        let p = block_comment(a);
        assert(none + p + none =~= p);
        let s = enclosed(open, p, close) + rest;
        lemma_place(open, close, none, p, none, rest);
        let e = 3 + a.len() as int;
        assert(s[1] == p[0] && s[2] == p[1] && s[e] == p[e - 1] && s[e + 1] == p[e]);
        assert forall|k: int| 3 <= k < e implies (#[trigger] s[k]) != 42 && s[k] != 47 by {
            assert(s[k] == p[k - 1]);
            assert(s[k] == a[k - 3]);
        }
        lemma_block_end_at(s, 3, e, 1);
        lemma_lexeme_advances(s, 1);
        assert(lexeme_at(s, 1) == Lexeme::Skip(e + 2));
        lemma_around(open, close, none, p, none, rest);
    }
    lemma_nested_piece(a, inner, b);
    let x = 2 + a.len() as int;
    let y = x + 2 + inner.len();
    let z = y + 2 + b.len();
    lemma_nested_comment(open, close, block_comment(a + block_comment(inner) + b), x, y, z, rest);
}

proof fn lemma_nested_block(s: Seq<u8>, x: int, y: int, z: int)
    requires
        3 <= x,
        x + 2 <= y,
        y + 2 <= z,
        z + 1 < s.len(),
        s[1] == 47 && s[2] == 42,
        s[x] == 47 && s[x + 1] == 42,
        s[y] == 42 && s[y + 1] == 47,
        s[z] == 42 && s[z + 1] == 47,
        forall|k: int| 3 <= k < x ==> (#[trigger] s[k]) != 42 && s[k] != 47,
        forall|k: int| x + 2 <= k < y ==> (#[trigger] s[k]) != 42 && s[k] != 47,
        forall|k: int| y + 2 <= k < z ==> (#[trigger] s[k]) != 42 && s[k] != 47,
    ensures
        lexeme_at(s, 1) == Lexeme::Skip(z + 2),
{
    lemma_block_end_into(s, 3, x, 1);
    lemma_block_end_at(s, x + 2, y, 2);
    lemma_block_end_at(s, y + 2, z, 1);
}

/// Whether a piece is one block comment inside another: it begins at `x` and ends at `y`, and
/// the outer one ends at `z`.
spec fn is_nested(p: Seq<u8>, x: int, y: int, z: int) -> bool {
    &&& 2 <= x
    &&& x + 2 <= y
    &&& y + 2 <= z
    &&& z + 2 == p.len()
    &&& p[0] == 47 && p[1] == 42
    &&& p[x] == 47 && p[x + 1] == 42
    &&& p[y] == 42 && p[y + 1] == 47
    &&& p[z] == 42 && p[z + 1] == 47
    &&& forall|k: int| 2 <= k < x ==> (#[trigger] p[k]) != 42 && p[k] != 47
    &&& forall|k: int| x + 2 <= k < y ==> (#[trigger] p[k]) != 42 && p[k] != 47
    &&& forall|k: int| y + 2 <= k < z ==> (#[trigger] p[k]) != 42 && p[k] != 47
}

proof fn lemma_nested_piece(a: Seq<u8>, inner: Seq<u8>, b: Seq<u8>)
    requires
        lacks_byte(a, 42) && lacks_byte(a, 47),
        lacks_byte(inner, 42) && lacks_byte(inner, 47),
        lacks_byte(b, 42) && lacks_byte(b, 47),
    ensures
        ({
            let x = 2 + a.len() as int;
            let y = x + 2 + inner.len();
            let z = y + 2 + b.len();
            is_nested(block_comment(a + block_comment(inner) + b), x, y, z)
        }),
{
    let p = block_comment(a + block_comment(inner) + b);
    let x = 2 + a.len() as int;
    let y = x + 2 + inner.len();
    let z = y + 2 + b.len();
    assert forall|k: int| 2 <= k < x implies (#[trigger] p[k]) != 42 && p[k] != 47 by {
        assert(p[k] == a[k - 2]);
    }
    assert forall|k: int| x + 2 <= k < y implies (#[trigger] p[k]) != 42 && p[k] != 47 by {
        assert(p[k] == inner[k - x - 2]);
    }
    assert forall|k: int| y + 2 <= k < z implies (#[trigger] p[k]) != 42 && p[k] != 47 by {
        assert(p[k] == b[k - y - 2]);
    }
}

proof fn lemma_nested_comment(
    open: u8,
    close: u8,
    p: Seq<u8>,
    x: int,
    y: int,
    z: int,
    rest: Seq<u8>,
)
    requires
        is_pair(open, close),
        is_nested(p, x, y, z),
    ensures
        matching_close_of(enclosed(open, p, close) + rest, 0) == Some((1 + p.len()) as int),
{
    let s = enclosed(open, p, close) + rest;
    assert forall|k: int| 1 <= k <= p.len() implies #[trigger] s[k] == p[k - 1] by {}
    lemma_nested_block(s, x + 1, y + 1, z + 1);
    lemma_alone(open, close, p, rest);
}

proof fn lemma_line_end_at(s: Seq<u8>, i: int, j: int)
    requires
        0 <= i <= j < s.len(),
        s[j] == 10,
        forall|k: int| i <= k < j ==> #[trigger] s[k] != 10,
    ensures
        line_end(s, i) == j,
    decreases j - i,
{
    if i < j {
        assert(s[i] != 10);
        lemma_line_end_at(s, i + 1, j);
    }
}

/// Nothing in a line comment counts, up to the end of its line.
pub proof fn lemma_line_comments_are_stepped_over(
    open: u8,
    close: u8,
    pre: Seq<u8>,
    text: Seq<u8>,
    post: Seq<u8>,
    rest: Seq<u8>,
)
    requires
        is_pair(open, close),
        is_bare(pre, open, close),
        ends_apart(pre),
        lacks_byte(text, 10),
        is_bare(post, open, close),
    ensures
        matching_close_of(
            enclosed(open, pre + (seq![47u8, 47] + text + seq![10u8]) + post, close) + rest,
            0,
        ) == Some((4 + pre.len() + text.len() + post.len()) as int),
{
    let p = seq![47u8, 47] + text + seq![10u8];
    let s = enclosed(open, pre + p + post, close) + rest;
    let i = 1 + pre.len() as int;
    let d = Delim { open, close };
    lemma_place(open, close, pre, p, post, rest);
    let e = i + 2 + text.len();
    assert(s[i] == p[0] && s[i + 1] == p[1] && s[e] == p[e - i]);
    assert forall|k: int| i <= k < e implies #[trigger] s[k] != 10 by {
        assert(s[k] == p[k - i]);
        if k >= i + 2 {
            assert(s[k] == text[k - i - 2]);
        }
    }
    lemma_line_end_at(s, i, e);
    lemma_lexeme_advances(s, i);
    assert(lexeme_at(s, i) == Lexeme::Skip(e));
    lemma_lexeme_advances(s, e);
    assert(lexeme_at(s, e) is Plain);
    assert(close_from(s, i, d, 1) == close_from(s, e, d, 1));
    assert(close_from(s, e, d, 1) == close_from(s, e + 1, d, 1));
    assert(i + p.len() == e + 1);
    lemma_around(open, close, pre, p, post, rest);
}

/// A delimiter in a character literal does not count, nor does an escaped character; the
/// quote of a lifetime begins no literal.
#[verifier::rlimit(50)]
pub proof fn lemma_characters_are_stepped_over(
    open: u8,
    close: u8,
    c: u8,
    name: Seq<u8>,
    rest: Seq<u8>,
)
    requires
        is_pair(open, close),
        c < 0x80,
        c != 92,
        c != 39,
        c != 10,
        is_bare(name, open, close),
        name.len() > 1,
        forall|i: int| 0 <= i < name.len() ==> #[trigger] name[i] < 0x80 && name[i] != 92,
    ensures
        matching_close_of(enclosed(open, seq![39u8, c, 39], close) + rest, 0) == Some(4int),
        matching_close_of(enclosed(open, seq![39u8, 92, c, 39], close) + rest, 0) == Some(5int),
        matching_close_of(enclosed(open, seq![39u8, 92, 39, 39], close) + rest, 0) == Some(5int),
        matching_close_of(enclosed(open, seq![39u8] + name, close) + rest, 0) == Some(
            (2 + name.len()) as int,
        ),
{
    let none = Seq::<u8>::empty();
    let d = Delim { open, close };
    {
        let p = seq![39u8, c, 39];
        assert(none + p + none =~= p);
        let s = enclosed(open, p, close) + rest;
        lemma_place(open, close, none, p, none, rest);
        assert(s[1] == p[0] && s[2] == p[1] && s[3] == p[2]);
        lemma_lexeme_advances(s, 1);
        assert(lexeme_at(s, 1) == Lexeme::Skip(4));
        lemma_around(open, close, none, p, none, rest);
    }
    {
        let p = seq![39u8, 92, c, 39];
        assert(none + p + none =~= p);
        let s = enclosed(open, p, close) + rest;
        lemma_place(open, close, none, p, none, rest);
        assert(s[1] == p[0] && s[2] == p[1] && s[3] == p[2] && s[4] == p[3]);
        reveal_with_fuel(escape_end, 3);
        assert(char_literal_end(s, 1) == Some(5int));
        lemma_lexeme_advances(s, 1);
        assert(lexeme_at(s, 1) == Lexeme::Skip(5));
        lemma_around(open, close, none, p, none, rest);
    }
    {
        let p = seq![39u8, 92, 39, 39];
        assert(none + p + none =~= p);
        let s = enclosed(open, p, close) + rest;
        lemma_place(open, close, none, p, none, rest);
        assert(s[1] == p[0] && s[2] == p[1] && s[3] == p[2] && s[4] == p[3]);
        reveal_with_fuel(escape_end, 2);
        assert(char_literal_end(s, 1) == Some(5int));
        lemma_lexeme_advances(s, 1);
        assert(lexeme_at(s, 1) == Lexeme::Skip(5));
        lemma_around(open, close, none, p, none, rest);
    }
    {
        let p = seq![39u8];
        assert(none + p + name =~= p + name);
        let s = enclosed(open, p + name, close) + rest;
        lemma_place(open, close, none, p, name, rest);
        assert(s[1] == p[0]);
        assert(s[2] == name[0]);
        assert(s[3] == name[1]);
        assert(char_literal_end(s, 1) is None);
        lemma_lexeme_advances(s, 1);
        assert(lexeme_at(s, 1) == Lexeme::Skip(2));
        lemma_around(open, close, none, p, name, rest);
    }
}

proof fn lemma_body_open_at(s: Seq<u8>, i: int, j: int, limit: int)
    requires
        0 <= i <= j < s.len(),
        s[j] == 40 || s[j] == 91 || s[j] == 123,
        forall|k: int|
            i <= k < j ==> (#[trigger] s[k]) != 40 && s[k] != 91 && s[k] != 123 && s[k] != 34
                && s[k] != 47,
    ensures
        body_open_from(s, i, limit) == if j < limit {
            Some(j)
        } else {
            None
        },
    decreases j - i,
{
    if i < j {
        assert(s[i] != 40 && s[i] != 91 && s[i] != 123 && s[i] != 34 && s[i] != 47);
        if i < limit {
            lemma_body_open_at(s, i + 1, j, limit);
        }
    }
}

/// The body of a macro opens at the first delimiter after its path, which has to begin
/// within 64 bytes.
pub proof fn lemma_body_opens_at_the_first_delimiter(
    before: Seq<u8>,
    path: Seq<u8>,
    open: u8,
    rest: Seq<u8>,
)
    requires
        open == 40 || open == 91 || open == 123,
        forall|i: int|
            0 <= i < path.len() ==> (#[trigger] path[i]) != 40 && path[i] != 91 && path[i] != 123
                && path[i] != 34 && path[i] != 47,
    ensures
        body_open_of(before + path + seq![open] + rest, before.len() as int) == if path.len() < 64 {
            Some((before.len() + path.len()) as int)
        } else {
            None
        },
{
    let s = before + path + seq![open] + rest;
    let i = before.len() as int;
    let j = i + path.len();
    assert(s[j] == open);
    assert forall|k: int| i <= k < j implies (#[trigger] s[k]) != 40 && s[k] != 91 && s[k] != 123
        && s[k] != 34 && s[k] != 47 by {
        assert(s[k] == path[k - i]);
    }
    lemma_body_open_at(s, i, j, i + 64);
}

/// Only the three opening bytes open anything.
pub proof fn lemma_other_bytes_open_nothing(s: Seq<u8>, at: int)
    requires
        0 <= at < s.len(),
        s[at] != 40 && s[at] != 91 && s[at] != 123,
    ensures
        matching_close_of(s, at) is None,
{
}

// ---------------------------------------------------------------------------
// What stands before
// ---------------------------------------------------------------------------

/// A place, further along.
pub open spec fn moved(at: Option<int>, by: int) -> Option<int> {
    match at {
        Some(i) => Some(i + by),
        None => None,
    }
}

proof fn lemma_line_end_moves(b: Seq<u8>, s: Seq<u8>, i: int)
    requires
        0 <= i,
    ensures
        line_end(b + s, b.len() + i) == line_end(s, i) + b.len(),
    decreases s.len() - i,
{
    if i < s.len() {
        assert((b + s)[b.len() + i] == s[i]);
        lemma_line_end_moves(b, s, i + 1);
    }
}

proof fn lemma_byte_moves(b: Seq<u8>, s: Seq<u8>, i: int, x: u8)
    requires
        0 <= i,
    ensures
        byte_is(b + s, b.len() + i, x) == byte_is(s, i, x),
{
    if i < s.len() {
        assert((b + s)[b.len() + i] == s[i]);
    }
}

proof fn lemma_block_end_moves(b: Seq<u8>, s: Seq<u8>, i: int, depth: nat)
    requires
        0 <= i,
    ensures
        block_end(b + s, b.len() + i, depth) == moved(block_end(s, i, depth), b.len() as int),
    decreases s.len() - i,
{
    if i < s.len() {
        assert((b + s)[b.len() + i] == s[i]);
        lemma_byte_moves(b, s, i + 1, 42);
        lemma_byte_moves(b, s, i + 1, 47);
        lemma_block_end_moves(b, s, i + 1, depth);
        if i + 1 < s.len() {
            lemma_block_end_moves(b, s, i + 2, depth + 1);
            if depth > 1 {
                lemma_block_end_moves(b, s, i + 2, (depth - 1) as nat);
            }
        }
    }
}

proof fn lemma_quoted_end_moves(b: Seq<u8>, s: Seq<u8>, i: int, quote: u8)
    requires
        0 <= i,
    ensures
        quoted_end(b + s, b.len() + i, quote) == moved(quoted_end(s, i, quote), b.len() as int),
    decreases s.len() - i,
{
    if i < s.len() {
        assert((b + s)[b.len() + i] == s[i]);
        lemma_quoted_end_moves(b, s, i + 1, quote);
        if i + 1 < s.len() {
            lemma_quoted_end_moves(b, s, i + 2, quote);
        }
    }
}

proof fn lemma_hash_run_moves(b: Seq<u8>, s: Seq<u8>, i: int)
    requires
        0 <= i,
    ensures
        hash_run(b + s, b.len() + i) == hash_run(s, i),
    decreases s.len() - i,
{
    lemma_byte_moves(b, s, i, 35);
    if byte_is(s, i, 35) {
        lemma_hash_run_moves(b, s, i + 1);
    }
}

proof fn lemma_hashes_move(b: Seq<u8>, s: Seq<u8>, i: int, n: nat)
    requires
        0 <= i,
    ensures
        hashes_at(b + s, b.len() + i, n) == hashes_at(s, i, n),
{
    let t = b + s;
    let m = b.len() as int;
    if hashes_at(s, i, n) {
        assert forall|k: int| m + i <= k < m + i + n implies #[trigger] t[k] == 35 by {
            assert(t[k] == s[k - m]);
        }
    }
    if hashes_at(t, m + i, n) {
        assert forall|k: int| i <= k < i + n implies #[trigger] s[k] == 35 by {
            assert(t[k + m] == s[k]);
        }
    }
}

proof fn lemma_raw_end_moves(b: Seq<u8>, s: Seq<u8>, i: int, n: nat)
    requires
        0 <= i,
    ensures
        raw_end(b + s, b.len() + i, n) == moved(raw_end(s, i, n), b.len() as int),
    decreases s.len() - i,
{
    if i < s.len() {
        assert((b + s)[b.len() + i] == s[i]);
        lemma_hashes_move(b, s, i + 1, n);
        lemma_raw_end_moves(b, s, i + 1, n);
    }
}

proof fn lemma_raw_body_moves(b: Seq<u8>, s: Seq<u8>, i: int)
    requires
        0 <= i,
    ensures
        raw_body_end(b + s, b.len() + i) == moved(raw_body_end(s, i), b.len() as int),
{
    let n = hash_run(s, i);
    lemma_hash_run_moves(b, s, i);
    lemma_byte_moves(b, s, i + n, 34);
    lemma_raw_end_moves(b, s, i + n + 1, n);
}

proof fn lemma_prefixed_moves(b: Seq<u8>, s: Seq<u8>, i: int)
    requires
        0 <= i,
    ensures
        prefixed_string_end(b + s, b.len() + i) == moved(
            prefixed_string_end(s, i),
            b.len() as int,
        ),
{
    lemma_byte_moves(b, s, i, 114);
    lemma_byte_moves(b, s, i, 98);
    lemma_byte_moves(b, s, i + 1, 114);
    lemma_byte_moves(b, s, i + 1, 98);
    lemma_byte_moves(b, s, i + 1, 34);
    lemma_raw_body_moves(b, s, i + 1);
    lemma_raw_body_moves(b, s, i + 2);
    lemma_quoted_end_moves(b, s, i + 2, 34);
}

proof fn lemma_escape_end_moves(b: Seq<u8>, s: Seq<u8>, i: int)
    requires
        0 <= i,
    ensures
        escape_end(b + s, b.len() + i) == moved(escape_end(s, i), b.len() as int),
    decreases s.len() - i,
{
    if i < s.len() {
        assert((b + s)[b.len() + i] == s[i]);
        lemma_escape_end_moves(b, s, i + 1);
    }
}

proof fn lemma_char_end_moves(b: Seq<u8>, s: Seq<u8>, i: int)
    requires
        0 <= i < s.len(),
    ensures
        char_end(b + s, b.len() + i) == char_end(s, i) + b.len(),
{
    let t = b + s;
    let m = b.len() as int;
    assert(t[m + i] == s[i]);
    let w = char_width(s[i]);
    if continuations(s, i + 1, i + w) {
        assert forall|k: int| m + i + 1 <= k < m + i + w implies 0x80 <= #[trigger] t[k] < 0xC0 by {
            assert(t[k] == s[k - m]);
        }
    }
    if continuations(t, m + i + 1, m + i + w) {
        assert forall|k: int| i + 1 <= k < i + w implies 0x80 <= #[trigger] s[k] < 0xC0 by {
            assert(t[k + m] == s[k]);
        }
    }
}

proof fn lemma_char_literal_moves(b: Seq<u8>, s: Seq<u8>, i: int)
    requires
        0 <= i,
    ensures
        char_literal_end(b + s, b.len() + i) == moved(char_literal_end(s, i), b.len() as int),
{
    lemma_byte_moves(b, s, i + 1, 92);
    lemma_byte_moves(b, s, i + 2, 39);
    lemma_escape_end_moves(b, s, i + 2);
    lemma_escape_end_moves(b, s, i + 3);
    if i + 1 < s.len() {
        lemma_char_end_moves(b, s, i + 1);
        lemma_byte_moves(b, s, char_end(s, i + 1), 39);
    }
}

proof fn lemma_lexeme_moves(b: Seq<u8>, s: Seq<u8>, i: int)
    requires
        0 <= i < s.len(),
    ensures
        lexeme_at(b + s, b.len() + i) == match lexeme_at(s, i) {
            Lexeme::Skip(j) => Lexeme::Skip(j + b.len()),
            Lexeme::Unterminated => Lexeme::Unterminated,
            Lexeme::Plain => Lexeme::Plain,
        },
{
    assert((b + s)[b.len() + i] == s[i]);
    lemma_byte_moves(b, s, i + 1, 47);
    lemma_byte_moves(b, s, i + 1, 42);
    lemma_line_end_moves(b, s, i);
    lemma_block_end_moves(b, s, i + 2, 1);
    lemma_prefixed_moves(b, s, i);
    lemma_quoted_end_moves(b, s, i + 1, 34);
    lemma_char_literal_moves(b, s, i);
}

proof fn lemma_close_moves(b: Seq<u8>, s: Seq<u8>, i: int, d: Delim, depth: nat)
    requires
        0 <= i,
    ensures
        close_from(b + s, b.len() + i, d, depth) == moved(close_from(s, i, d, depth), b.len() as int),
    decreases s.len() - i,
{
    if i < s.len() {
        let t = b + s;
        assert(t[b.len() + i] == s[i]);
        lemma_lexeme_advances(s, i);
        lemma_lexeme_advances(t, b.len() + i);
        lemma_lexeme_moves(b, s, i);
        match lexeme_at(s, i) {
            Lexeme::Skip(j) => {
                lemma_close_moves(b, s, j, d, depth);
            },
            Lexeme::Unterminated => {},
            Lexeme::Plain => {
                lemma_close_moves(b, s, i + 1, d, depth + 1);
                lemma_close_moves(b, s, i + 1, d, depth);
                if depth > 1 {
                    lemma_close_moves(b, s, i + 1, d, (depth - 1) as nat);
                }
            },
        }
    }
}

/// What stands before a delimiter has no part in where it is closed.
pub proof fn lemma_what_stands_before_does_not_matter(before: Seq<u8>, s: Seq<u8>)
    requires
        s.len() > 0,
    ensures
        matching_close_of(before + s, before.len() as int) == moved(
            matching_close_of(s, 0),
            before.len() as int,
        ),
{
    assert((before + s)[before.len() as int] == s[0]);
    if delim_opened_by(s[0]) is Some {
        lemma_close_moves(before, s, 0, delim_opened_by(s[0])->0, 0);
    }
}

} // verus!
