//! A byte scanner that steps over Rust's comments and literals whole, so that
//! a delimiter inside one of them is never counted.
use vstd::prelude::*;

verus! {

/// A pair of delimiters.
#[derive(Debug, Clone, Copy, PartialEq, Eq, Structural)]
pub struct Delim {
    pub open: u8,
    pub close: u8,
}

impl Delim {
    /// `(` and `)`.
    pub fn paren() -> (r: Delim)
        ensures
            r == (Delim { open: 40, close: 41 }),
    {
        Delim { open: 40, close: 41 }
    }

    /// `[` and `]`.
    pub fn bracket() -> (r: Delim)
        ensures
            r == (Delim { open: 91, close: 93 }),
    {
        Delim { open: 91, close: 93 }
    }

    /// `{` and `}`.
    pub fn brace() -> (r: Delim)
        ensures
            r == (Delim { open: 123, close: 125 }),
    {
        Delim { open: 123, close: 125 }
    }

    /// The pair that `b` opens.
    pub fn from_open_byte(b: u8) -> (r: Option<Delim>)
        ensures
            r == delim_opened_by(b),
    {
        match b {
            40 => Some(Delim::paren()),
            91 => Some(Delim::bracket()),
            123 => Some(Delim::brace()),
            _ => None,
        }
    }
}

/// The pair that `b` opens: `()`, `[]` or `{}`.
pub open spec fn delim_opened_by(b: u8) -> Option<Delim> {
    if b == 40 {
        Some(Delim { open: 40, close: 41 })
    } else if b == 91 {
        Some(Delim { open: 91, close: 93 })
    } else if b == 123 {
        Some(Delim { open: 123, close: 125 })
    } else {
        None
    }
}

/// Whether byte `b` stands at `i`.
pub open spec fn byte_is(s: Seq<u8>, i: int, b: u8) -> bool {
    0 <= i < s.len() && s[i] == b
}

/// The end of the line `i` is on: its newline, or the end of the text.
pub open spec fn line_end(s: Seq<u8>, i: int) -> int
    decreases s.len() - i,
{
    if i >= s.len() || s[i] == 10 {
        i
    } else {
        line_end(s, i + 1)
    }
}

/// The position after the `*/` that closes the `depth`-th level of a nested
/// block comment whose text goes on at `i`.
pub open spec fn block_end(s: Seq<u8>, i: int, depth: nat) -> Option<int>
    decreases s.len() - i,
{
    if i >= s.len() {
        None
    } else if s[i] == 47 && byte_is(s, i + 1, 42) {
        block_end(s, i + 2, depth + 1)
    } else if s[i] == 42 && byte_is(s, i + 1, 47) {
        if depth <= 1 {
            Some(i + 2)
        } else {
            block_end(s, i + 2, (depth - 1) as nat)
        }
    } else {
        block_end(s, i + 1, depth)
    }
}

/// The position after the quote that closes a string whose text goes on at
/// `i`. A backslash takes the next byte with it.
pub open spec fn quoted_end(s: Seq<u8>, i: int, quote: u8) -> Option<int>
    decreases s.len() - i,
{
    if i >= s.len() {
        None
    } else if s[i] == 92 {
        if i + 1 < s.len() {
            quoted_end(s, i + 2, quote)
        } else {
            None
        }
    } else if s[i] == quote {
        Some(i + 1)
    } else {
        quoted_end(s, i + 1, quote)
    }
}

/// How many `#` stand in a row from `i` on.
pub open spec fn hash_run(s: Seq<u8>, i: int) -> nat
    decreases s.len() - i,
{
    if byte_is(s, i, 35) {
        1 + hash_run(s, i + 1)
    } else {
        0
    }
}

/// Whether `n` bytes from `i` on are all `#`.
pub open spec fn hashes_at(s: Seq<u8>, i: int, n: nat) -> bool {
    i + n <= s.len() && forall|k: int| i <= k < i + n ==> #[trigger] s[k] == 35
}

/// The position after the quote and `hashes` hashes that close a raw string
/// whose text goes on at `i`.
pub open spec fn raw_end(s: Seq<u8>, i: int, hashes: nat) -> Option<int>
    decreases s.len() - i,
{
    if i >= s.len() {
        None
    } else if s[i] == 34 && hashes_at(s, i + 1, hashes) {
        Some(i + 1 + hashes)
    } else {
        raw_end(s, i + 1, hashes)
    }
}

/// The end of a raw string whose hashes, if any, start at `i`.
pub open spec fn raw_body_end(s: Seq<u8>, i: int) -> Option<int> {
    let n = hash_run(s, i);
    if byte_is(s, i + n, 34) {
        raw_end(s, i + n + 1, n)
    } else {
        None
    }
}

/// The end of the raw or byte string that starts at `i`, if one does:
/// `r"..."`, `b"..."`, `br"..."`, `rb"..."`, and the raw ones with any number
/// of hashes.
pub open spec fn prefixed_string_end(s: Seq<u8>, i: int) -> Option<int> {
    if byte_is(s, i, 114) {
        if byte_is(s, i + 1, 98) {
            raw_body_end(s, i + 2)
        } else {
            raw_body_end(s, i + 1)
        }
    } else if byte_is(s, i, 98) {
        if byte_is(s, i + 1, 114) {
            raw_body_end(s, i + 2)
        } else if byte_is(s, i + 1, 34) {
            quoted_end(s, i + 2, 34)
        } else {
            None
        }
    } else {
        None
    }
}

/// The position after the quote that closes an escaped character whose text
/// goes on at `i`. It has to come before the line ends.
pub open spec fn escape_end(s: Seq<u8>, i: int) -> Option<int>
    decreases s.len() - i,
{
    if i >= s.len() || s[i] == 10 {
        None
    } else if s[i] == 39 {
        Some(i + 1)
    } else {
        escape_end(s, i + 1)
    }
}

/// How many bytes the UTF-8 character takes that begins with `b`.
pub open spec fn char_width(b: u8) -> int {
    if 0xC0 <= b < 0xE0 {
        2
    } else if 0xE0 <= b < 0xF0 {
        3
    } else if 0xF0 <= b < 0xF8 {
        4
    } else {
        1
    }
}

/// Whether the bytes from `i` up to `j` all continue a UTF-8 character.
pub open spec fn continuations(s: Seq<u8>, i: int, j: int) -> bool {
    j <= s.len() && forall|k: int| i <= k < j ==> 0x80 <= #[trigger] s[k] < 0xC0
}

/// The position after the character at `i`. A byte that begins no whole
/// character counts as one by itself.
pub open spec fn char_end(s: Seq<u8>, i: int) -> int {
    let w = char_width(s[i]);
    if continuations(s, i + 1, i + w) {
        i + w
    } else {
        i + 1
    }
}

/// The end of the character literal that the quote at `i` starts, if it starts
/// one rather than a lifetime.
pub open spec fn char_literal_end(s: Seq<u8>, i: int) -> Option<int> {
    if byte_is(s, i + 1, 92) {
        // The byte after the backslash belongs to the escape, a quote too.
        if byte_is(s, i + 2, 39) {
            escape_end(s, i + 3)
        } else {
            escape_end(s, i + 2)
        }
    } else if i + 1 < s.len() && byte_is(s, char_end(s, i + 1), 39) {
        Some(char_end(s, i + 1) + 1)
    } else {
        None
    }
}

/// What the scanner makes of the bytes at a position.
pub enum Lexeme {
    /// A comment, a literal, or the quote of a lifetime: go on at the position.
    Skip(int),
    /// A comment or string that never ends.
    Unterminated,
    /// An ordinary byte.
    Plain,
}

/// What stands at `i`.
pub open spec fn lexeme_at(s: Seq<u8>, i: int) -> Lexeme {
    if s[i] == 47 && byte_is(s, i + 1, 47) {
        Lexeme::Skip(line_end(s, i))
    } else if s[i] == 47 && byte_is(s, i + 1, 42) {
        match block_end(s, i + 2, 1) {
            Some(j) => Lexeme::Skip(j),
            None => Lexeme::Unterminated,
        }
    } else if prefixed_string_end(s, i) is Some {
        Lexeme::Skip(prefixed_string_end(s, i)->0)
    } else if s[i] == 34 {
        match quoted_end(s, i + 1, 34) {
            Some(j) => Lexeme::Skip(j),
            None => Lexeme::Unterminated,
        }
    } else if s[i] == 39 {
        match char_literal_end(s, i) {
            Some(j) => Lexeme::Skip(j),
            None => Lexeme::Skip(i + 1),
        }
    } else {
        Lexeme::Plain
    }
}

/// A line ends no earlier than it is read from.
pub proof fn lemma_line_end(s: Seq<u8>, i: int)
    requires
        0 <= i <= s.len(),
    ensures
        i <= line_end(s, i) <= s.len(),
    decreases s.len() - i,
{
    if i < s.len() && s[i] != 10 {
        lemma_line_end(s, i + 1);
    }
}

/// A block comment ends after where it is read from.
pub proof fn lemma_block_end(s: Seq<u8>, i: int, depth: nat)
    ensures
        block_end(s, i, depth) matches Some(j) ==> i < j <= s.len(),
    decreases s.len() - i,
{
    if i < s.len() {
        if s[i] == 47 && byte_is(s, i + 1, 42) {
            lemma_block_end(s, i + 2, depth + 1);
        } else if s[i] == 42 && byte_is(s, i + 1, 47) {
            if depth > 1 {
                lemma_block_end(s, i + 2, (depth - 1) as nat);
            }
        } else {
            lemma_block_end(s, i + 1, depth);
        }
    }
}

/// A string ends after where it is read from.
pub proof fn lemma_quoted_end(s: Seq<u8>, i: int, quote: u8)
    ensures
        quoted_end(s, i, quote) matches Some(j) ==> i < j <= s.len(),
    decreases s.len() - i,
{
    if i < s.len() {
        if s[i] == 92 {
            if i + 1 < s.len() {
                lemma_quoted_end(s, i + 2, quote);
            }
        } else if s[i] != quote {
            lemma_quoted_end(s, i + 1, quote);
        }
    }
}

proof fn lemma_raw_end(s: Seq<u8>, i: int, hashes: nat)
    ensures
        raw_end(s, i, hashes) matches Some(j) ==> i < j <= s.len(),
    decreases s.len() - i,
{
    if i < s.len() {
        lemma_raw_end(s, i + 1, hashes);
    }
}

proof fn lemma_escape_end(s: Seq<u8>, i: int)
    ensures
        escape_end(s, i) matches Some(j) ==> i < j <= s.len(),
    decreases s.len() - i,
{
    if i < s.len() {
        lemma_escape_end(s, i + 1);
    }
}

/// The scanner always moves forward, and stays inside the text.
pub proof fn lemma_lexeme_advances(s: Seq<u8>, i: int)
    requires
        0 <= i < s.len(),
    ensures
        lexeme_at(s, i) matches Lexeme::Skip(j) ==> i < j <= s.len(),
{
    if s[i] == 47 && byte_is(s, i + 1, 47) {
        lemma_line_end(s, i + 1);
    }
    lemma_block_end(s, i + 2, 1);
    lemma_quoted_end(s, i + 1, 34);
    lemma_quoted_end(s, i + 2, 34);
    lemma_escape_end(s, i + 2);
    lemma_escape_end(s, i + 3);
    let n1 = hash_run(s, i + 1);
    let n2 = hash_run(s, i + 2);
    lemma_raw_end(s, i + 1 + n1 + 1, n1);
    lemma_raw_end(s, i + 2 + n2 + 1, n2);
}

/// Where the delimiter that is `depth` levels open at `i` is closed.
pub open spec fn close_from(s: Seq<u8>, i: int, delim: Delim, depth: nat) -> Option<int>
    decreases s.len() - i,
{
    if !(0 <= i < s.len()) {
        None
    } else {
        proof {
            lemma_lexeme_advances(s, i);
        }
        match lexeme_at(s, i) {
            Lexeme::Skip(j) => close_from(s, j, delim, depth),
            Lexeme::Unterminated => None,
            Lexeme::Plain => if s[i] == delim.open {
                close_from(s, i + 1, delim, depth + 1)
            } else if s[i] == delim.close {
                if depth <= 1 {
                    Some(i)
                } else {
                    close_from(s, i + 1, delim, (depth - 1) as nat)
                }
            } else {
                close_from(s, i + 1, delim, depth)
            },
        }
    }
}

/// The position of the byte that closes the delimiter at `open`.
pub open spec fn matching_close_of(s: Seq<u8>, open: int) -> Option<int> {
    if 0 <= open < s.len() && delim_opened_by(s[open]) is Some {
        close_from(s, open, delim_opened_by(s[open])->0, 0)
    } else {
        None
    }
}

proof fn lemma_close_from(s: Seq<u8>, i: int, delim: Delim, depth: nat)
    requires
        0 <= i,
    ensures
        close_from(s, i, delim, depth) matches Some(j) ==> i <= j < s.len() && s[j] == delim.close,
    decreases s.len() - i,
{
    if i < s.len() {
        lemma_lexeme_advances(s, i);
        match lexeme_at(s, i) {
            Lexeme::Skip(j) => {
                lemma_close_from(s, j, delim, depth);
            },
            Lexeme::Unterminated => {},
            Lexeme::Plain => {
                lemma_close_from(s, i + 1, delim, depth + 1);
                lemma_close_from(s, i + 1, delim, depth);
                if depth > 0 {
                    lemma_close_from(s, i + 1, delim, (depth - 1) as nat);
                }
            },
        }
    }
}

/// A match, when there is one, lies after the opener and holds the byte that
/// closes it.
pub proof fn lemma_matching_close(s: Seq<u8>, open: int)
    ensures
        matching_close_of(s, open) matches Some(j) ==> open < j < s.len()
            && delim_opened_by(s[open]) is Some && s[j] == delim_opened_by(s[open])->0.close,
{
    if 0 <= open < s.len() && delim_opened_by(s[open]) is Some {
        let d = delim_opened_by(s[open])->0;
        lemma_close_from(s, open, d, 0);
    }
}

/// Where the body of a macro opens, when reading from `i` and giving up at
/// `limit`.
pub open spec fn body_open_from(s: Seq<u8>, i: int, limit: int) -> Option<int>
    decreases s.len() - i,
{
    if !(0 <= i < limit && i < s.len()) {
        None
    } else if s[i] == 40 || s[i] == 91 || s[i] == 123 {
        Some(i)
    } else if s[i] == 47 && byte_is(s, i + 1, 47) {
        proof {
            lemma_line_end(s, i + 1);
        }
        body_open_from(s, line_end(s, i), limit)
    } else if s[i] == 47 && byte_is(s, i + 1, 42) {
        proof {
            lemma_block_end(s, i + 2, 1);
        }
        match block_end(s, i + 2, 1) {
            Some(j) => body_open_from(s, j, limit),
            None => None,
        }
    } else if s[i] == 34 {
        proof {
            lemma_quoted_end(s, i + 1, 34);
        }
        match quoted_end(s, i + 1, 34) {
            Some(j) => body_open_from(s, j, limit),
            None => None,
        }
    } else {
        body_open_from(s, i + 1, limit)
    }
}

/// Where the body of the macro whose path ends at `from` opens. A path and its
/// body are adjacent in practice, so the search gives up after 64 bytes.
pub open spec fn body_open_of(s: Seq<u8>, from: int) -> Option<int> {
    body_open_from(s, from, from + 64)
}

// ---------------------------------------------------------------------------
// The scanner
// ---------------------------------------------------------------------------

/// Whether byte `b` stands `ahead` bytes after `i`.
fn peek_is(src: &[u8], i: usize, ahead: usize, b: u8) -> (r: bool)
    ensures
        r == byte_is(src@, i + ahead, b),
        src@.len() <= usize::MAX,
{
    src.len() > i && src.len() - i > ahead && src[i + ahead] == b
}

/// The end of the line comment at `start`.
pub fn skip_line_comment(src: &[u8], start: usize) -> (r: usize)
    ensures
        r == line_end(src@, start as int),
        start <= r,
        start <= src@.len() ==> r <= src@.len(),
{
    let mut i: usize = start;
    while i < src.len() && src[i] != 10
        invariant
            start <= i,
            start <= src@.len() ==> i <= src@.len(),
            line_end(src@, start as int) == line_end(src@, i as int),
        decreases src.len() - i,
    {
        i = i + 1;
    }
    i
}

/// Block comments nest in Rust, so track depth. Returns the index just past the
/// terminating `*/`, or `None` if unterminated.
pub fn skip_block_comment(src: &[u8], start: usize) -> (r: Option<usize>)
    ensures
        match r {
            Some(j) => block_end(src@, start + 2, 1) == Some(j as int) && start < j <= src@.len(),
            None => block_end(src@, start + 2, 1) is None,
        },
{
    let n: usize = src.len();
    if n < 2 || start > n - 2 {
        return None;
    }
    let mut i: usize = start + 2;
    let mut depth: usize = 1;
    while i < n
        invariant
            n == src@.len(),
            start + 2 <= i <= n,
            1 <= depth <= i,
            block_end(src@, start + 2, 1) == block_end(src@, i as int, depth as nat),
        decreases n - i,
    {
        if src[i] == 47 && peek_is(src, i, 1, 42) {
            depth = depth + 1;
            i = i + 2;
        } else if src[i] == 42 && peek_is(src, i, 1, 47) {
            depth = depth - 1;
            i = i + 2;
            if depth == 0 {
                return Some(i);
            }
        } else {
            i = i + 1;
        }
    }
    None
}

/// Skip a normal (non-raw) string literal starting at `start`. Returns the
/// index just past the closing quote.
pub fn skip_normal_string(src: &[u8], start: usize, quote: u8) -> (r: Option<usize>)
    ensures
        match r {
            Some(j) => quoted_end(src@, start + 1, quote) == Some(j as int) && start < j
                <= src@.len(),
            None => quoted_end(src@, start + 1, quote) is None,
        },
{
    let n: usize = src.len();
    if start >= n {
        return None;
    }
    let mut i: usize = start + 1;
    while i < n
        invariant
            n == src@.len(),
            start < i <= n,
            quoted_end(src@, start + 1, quote) == quoted_end(src@, i as int, quote),
        decreases n - i,
    {
        if src[i] == 92 {
            if n - i < 2 {
                return None;
            }
            i = i + 2;
        } else if src[i] == quote {
            return Some(i + 1);
        } else {
            i = i + 1;
        }
    }
    None
}

/// Whether `n` hashes stand at `i`.
fn all_hashes(src: &[u8], i: usize, n: usize) -> (r: bool)
    requires
        i <= src@.len(),
    ensures
        r == hashes_at(src@, i as int, n as nat),
{
    if src.len() - i < n {
        return false;
    }
    let mut k: usize = 0;
    while k < n
        invariant
            i + n <= src.len(),
            k <= n,
            forall|m: int| i <= m < i + k ==> #[trigger] src@[m] == 35,
        decreases n - k,
    {
        if src[i + k] != 35 {
            return false;
        }
        k = k + 1;
    }
    true
}

/// The end of a raw string whose hashes, if any, start at `start`.
fn skip_raw_body(src: &[u8], start: usize) -> (r: Option<usize>)
    requires
        start <= src@.len(),
    ensures
        match r {
            Some(j) => raw_body_end(src@, start as int) == Some(j as int) && start < j
                <= src@.len(),
            None => raw_body_end(src@, start as int) is None,
        },
{
    let mut i: usize = start;
    while i < src.len() && src[i] == 35
        invariant
            start <= i <= src@.len(),
            hash_run(src@, start as int) == (i - start) + hash_run(src@, i as int),
        decreases src.len() - i,
    {
        i = i + 1;
    }
    let hashes: usize = i - start;
    if !peek_is(src, i, 0, 34) {
        return None;
    }
    i = i + 1;
    // Find `"` followed by `hashes` `#` characters.
    while i < src.len()
        invariant
            start + hashes + 1 <= i <= src@.len(),
            raw_body_end(src@, start as int) == raw_end(src@, i as int, hashes as nat),
        decreases src.len() - i,
    {
        if src[i] == 34 && all_hashes(src, i + 1, hashes) {
            return Some(i + 1 + hashes);
        }
        i = i + 1;
    }
    None
}

/// If a raw/byte string literal starts at `start`, return the index just past
/// its terminator. Recognises `r"..."`, `r#"..."#`, `b"..."`, `br#"..."#`,
/// `rb"..."` and any hash count.
pub fn raw_string_end(src: &[u8], start: usize) -> (r: Option<usize>)
    ensures
        match r {
            Some(j) => prefixed_string_end(src@, start as int) == Some(j as int) && start < j
                <= src@.len(),
            None => prefixed_string_end(src@, start as int) is None,
        },
{
    if peek_is(src, start, 0, 114) {
        if peek_is(src, start, 1, 98) {
            skip_raw_body(src, start + 2)
        } else {
            skip_raw_body(src, start + 1)
        }
    } else if peek_is(src, start, 0, 98) {
        if peek_is(src, start, 1, 114) {
            skip_raw_body(src, start + 2)
        } else if peek_is(src, start, 1, 34) {
            // Plain byte string: not raw, but it is a literal we must skip.
            skip_normal_string(src, start + 1, 34)
        } else {
            None
        }
    } else {
        None
    }
}

/// The position after the character at `i`.
fn step_char(src: &[u8], i: usize) -> (r: usize)
    requires
        i < src@.len(),
    ensures
        r == char_end(src@, i as int),
        i < r <= src@.len(),
{
    let b: u8 = src[i];
    let width: usize = if 0xC0 <= b && b < 0xE0 {
        2
    } else if 0xE0 <= b && b < 0xF0 {
        3
    } else if 0xF0 <= b && b < 0xF8 {
        4
    } else {
        1
    };
    if src.len() - i < width {
        return i + 1;
    }
    let end: usize = i + width;
    let mut k: usize = i + 1;
    while k < end
        invariant
            i < k <= end <= src@.len(),
            end == i + char_width(src@[i as int]),
            forall|m: int| i < m < k ==> 0x80 <= #[trigger] src@[m] < 0xC0,
        decreases end - k,
    {
        if src[k] < 0x80 || src[k] >= 0xC0 {
            return i + 1;
        }
        k = k + 1;
    }
    end
}

/// Distinguish a char literal from a lifetime and skip it if it is a char.
/// Returns the index just past the literal, or `None` if this is a lifetime
/// (i.e. the caller should just advance one byte).
pub fn skip_char_or_lifetime(src: &[u8], start: usize) -> (r: Option<usize>)
    ensures
        match r {
            Some(j) => char_literal_end(src@, start as int) == Some(j as int) && start < j
                <= src@.len(),
            None => char_literal_end(src@, start as int) is None,
        },
{
    if peek_is(src, start, 1, 92) {
        // Escaped char: `'\n'`, `'\''`, `'\u{1F600}'`.
        let mut i: usize = if peek_is(src, start, 2, 39) {
            start + 3
        } else {
            start + 2
        };
        while i < src.len()
            invariant
                start < i <= src@.len(),
                char_literal_end(src@, start as int) == escape_end(src@, i as int),
            decreases src.len() - i,
        {
            if src[i] == 39 {
                return Some(i + 1);
            }
            if src[i] == 10 {
                return None;
            }
            i = i + 1;
        }
        return None;
    }
    if start >= src.len() || start + 1 >= src.len() {
        return None;
    }
    // `'a'` and `'é'` are char literals; `'a` or `'ab` is a lifetime.
    let end: usize = step_char(src, start + 1);
    if peek_is(src, end, 0, 39) {
        return Some(end + 1);
    }
    None
}

/// Find the byte index of the matching close delimiter for the opener at
/// `open_idx`.
///
/// Returns the index *of the closing byte* (not one past it). Returns `None`
/// if the source is truncated, if `open_idx` does not point at an opener, or if
/// the nesting does not balance.
///
/// The scan is aware of:
/// - line comments (`// ...`) and nested block comments (`/* /* */ */`)
/// - normal strings with escapes (`"a\"b"`)
/// - raw strings with any number of `#` (`r#"..."#`, `r##"..."##`)
/// - byte strings and byte chars (`b"..."`, `b'x'`) and raw byte strings (`br#"..."#`)
/// - char literals (`'x'`, `'é'`, `'\n'`, `'\''`)
/// - lifetimes (`'a`), which are NOT char literals and must not derail the scan
pub fn matching_close(src: &[u8], open_idx: usize) -> (r: Option<usize>)
    ensures
        match r {
            Some(j) => matching_close_of(src@, open_idx as int) == Some(j as int) && open_idx < j
                < src@.len(),
            None => matching_close_of(src@, open_idx as int) is None,
        },
{
    if open_idx >= src.len() {
        return None;
    }
    let delim = match Delim::from_open_byte(src[open_idx]) {
        Some(d) => d,
        None => {
            return None;
        },
    };
    proof {
        lemma_matching_close(src@, open_idx as int);
    }
    let mut depth: usize = 0;
    let mut i: usize = open_idx;
    while i < src.len()
        invariant
            open_idx <= i <= src@.len(),
            depth <= i,
            i > open_idx ==> depth >= 1,
            open_idx < src@.len(),
            delim_opened_by(src@[open_idx as int]) == Some(delim),
            matching_close_of(src@, open_idx as int) == close_from(
                src@,
                i as int,
                delim,
                depth as nat,
            ),
            matching_close_of(src@, open_idx as int) matches Some(j) ==> open_idx < j < src@.len(),
        decreases src.len() - i,
    {
        let b = src[i];
        proof {
            lemma_lexeme_advances(src@, i as int);
        }
        // Comments and literals can only start where a token can start, and we
        // are always at a token boundary here because we consume them wholesale.
        if b == 47 && peek_is(src, i, 1, 47) {
            i = skip_line_comment(src, i);
            continue;
        }
        if b == 47 && peek_is(src, i, 1, 42) {
            match skip_block_comment(src, i) {
                Some(next) => {
                    i = next;
                    continue;
                },
                None => {
                    return None;
                },
            }
        }
        if let Some(next) = raw_string_end(src, i) {
            i = next;
            continue;
        }
        if b == 34 {
            match skip_normal_string(src, i, 34) {
                Some(next) => {
                    i = next;
                    continue;
                },
                None => {
                    return None;
                },
            }
        }
        // A char literal vs a lifetime. `'a'` is a char; `'a` is a lifetime.
        if b == 39 {
            match skip_char_or_lifetime(src, i) {
                Some(next) => {
                    i = next;
                },
                None => {
                    i = i + 1;
                },
            }
            continue;
        }
        if b == delim.open {
            depth = depth + 1;
        } else if b == delim.close {
            if depth == 1 {
                return Some(i);
            }
            depth = depth - 1;
        }
        i = i + 1;
    }
    None
}

/// Scan forward from the `!` of a macro to the opening delimiter of its body.
///
/// The `!` and `(` normally sit immediately after the macro path, but we scan
/// rather than assume so that whitespace and comments between path, bang and
/// delimiter are tolerated. Returns the byte index of the opening delimiter.
pub fn macro_body_open(src: &[u8], from: usize) -> (r: Option<usize>)
    ensures
        match r {
            Some(j) => body_open_of(src@, from as int) == Some(j as int) && from <= j < src@.len(),
            None => body_open_of(src@, from as int) is None,
        },
{
    if from >= src.len() {
        return None;
    }
    // Bound the search: a path and its bang should be adjacent in practice.
    let limit: usize = if src.len() - from > 64 {
        from + 64
    } else {
        src.len()
    };
    let mut i: usize = from;
    while i < limit
        invariant
            from <= i <= src@.len(),
            limit <= src@.len(),
            limit <= from + 64,
            limit < src@.len() ==> limit == from + 64,
            body_open_of(src@, from as int) == body_open_from(src@, i as int, from + 64),
        decreases src.len() - i,
    {
        let b = src[i];
        if b == 40 || b == 91 || b == 123 {
            return Some(i);
        } else if b == 47 && peek_is(src, i, 1, 47) {
            proof {
                lemma_line_end(src@, i + 1);
            }
            i = skip_line_comment(src, i);
        } else if b == 47 && peek_is(src, i, 1, 42) {
            match skip_block_comment(src, i) {
                Some(next) => {
                    i = next;
                },
                None => {
                    return None;
                },
            }
        } else if b == 34 {
            match skip_normal_string(src, i, 34) {
                Some(next) => {
                    i = next;
                },
                None => {
                    return None;
                },
            }
        } else {
            i = i + 1;
        }
    }
    None
}

} // verus!
