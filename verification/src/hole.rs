//! A hole: one `todo!("spec: ...")` placeholder, and what identifies it.
use vstd::prelude::*;
use vstd::utf8::{encode_utf8, is_char_boundary};

use crate::bytes::{byte_len, on_boundary, slice};
use crate::text::{
    chars_of, decimal_of, decimal_usize, join, join_of, opt_view, owned, replace_char, replaced,
    string_of, trim, trim_end_of, trim_of, trim_start_of, words, words_of,
};

verus! {

/// Where in the syntax tree a hole sits. This is a hint for the type probe:
/// a hole in statement position is known to be `()` even when rustc's type
/// inference cannot say so.
#[derive(Debug, Clone, Copy, PartialEq, Eq, Structural)]
pub enum HolePosition {
    /// The hole is a whole statement: `todo!("spec: ...");`
    Statement,
    /// The hole is an expression in some other position (tail, argument, ...).
    Expression,
    /// The hole is inside another macro's token body: `vec![todo!("spec: ...")]`
    MacroBody,
    /// The hole sits in item position.
    Item,
    /// Position could not be determined.
    Unknown,
}

/// The name of a position.
pub open spec fn position_name(p: HolePosition) -> Seq<char> {
    match p {
        HolePosition::Statement => "statement"@,
        HolePosition::Expression => "expression"@,
        HolePosition::MacroBody => "macro-body"@,
        HolePosition::Item => "item"@,
        HolePosition::Unknown => "unknown"@,
    }
}

impl HolePosition {
    /// The name of the position.
    pub fn as_str(self) -> (r: &'static str)
        ensures
            r@ == position_name(self),
    {
        match self {
            HolePosition::Statement => "statement",
            HolePosition::Expression => "expression",
            HolePosition::MacroBody => "macro-body",
            HolePosition::Item => "item",
            HolePosition::Unknown => "unknown",
        }
    }
}

/// A single `todo!("spec: ...")` placeholder.
#[derive(Debug, PartialEq, Eq)]
pub struct Hole {
    /// Source file containing the hole.
    pub file: String,
    /// Byte offset of the `t` in `todo!`, i.e. the inclusive start of the hole.
    pub byte_start: usize,
    /// Byte offset one past the closing `)`, i.e. the exclusive end.
    pub byte_end: usize,
    /// The spec text, with the `spec:` prefix and surrounding whitespace removed.
    pub spec: String,
    /// Source text of the enclosing function's signature.
    pub fn_sig: String,
    /// Name of the enclosing function, for reporting.
    pub fn_name: String,
    /// Enclosing `impl`/`trait` header, when the hole is in a method body.
    pub impl_ctx: Option<String>,
    /// 1-based line of the hole.
    pub line: usize,
    /// 1-based column of the hole, in characters.
    pub column: usize,
    /// Which macro was used: `todo` or `unimplemented`.
    pub macro_name: String,
    /// Syntactic position, used as a probe hint.
    pub position: HolePosition,
    /// True when the hole is marked `// hole:pinned`, or its macro or an item
    /// around it (a fn, an `impl`, a trait) carries `#[hole::pin]`. Pinned holes
    /// are never regenerated.
    pub pinned: bool,
    /// Set when the hole was found but its byte range could not be trusted.
    /// Such holes are reported to the user and never acted upon.
    pub unresolvable: Option<String>,
}

/// What identifies a hole within one listing.
pub type HoleIndex = (String, usize, usize);

/// A hole as plain text and numbers.
#[verifier::ext_equal]
pub struct HoleView {
    pub file: Seq<char>,
    pub byte_start: usize,
    pub byte_end: usize,
    pub spec: Seq<char>,
    pub fn_sig: Seq<char>,
    pub fn_name: Seq<char>,
    pub impl_ctx: Option<Seq<char>>,
    pub line: usize,
    pub column: usize,
    pub macro_name: Seq<char>,
    pub position: HolePosition,
    pub pinned: bool,
    pub unresolvable: Option<Seq<char>>,
}

impl View for Hole {
    type V = HoleView;

    open spec fn view(&self) -> HoleView {
        HoleView {
            file: self.file@,
            byte_start: self.byte_start,
            byte_end: self.byte_end,
            spec: self.spec@,
            fn_sig: self.fn_sig@,
            fn_name: self.fn_name@,
            impl_ctx: opt_view(self.impl_ctx),
            line: self.line,
            column: self.column,
            macro_name: self.macro_name@,
            position: self.position,
            pinned: self.pinned,
            unresolvable: opt_view(self.unresolvable),
        }
    }
}

/// The holes of a list, as plain text and numbers.
pub open spec fn hole_views(holes: Seq<Hole>) -> Seq<HoleView> {
    Seq::new(holes.len(), |i: int| holes[i]@)
}

/// A copy of an optional string.
pub fn clone_opt(s: &Option<String>) -> (r: Option<String>)
    ensures
        r == *s,
{
    match s {
        Some(t) => Some(t.clone()),
        None => None,
    }
}

impl Clone for Hole {
    fn clone(&self) -> (r: Self)
        ensures
            r == *self,
    {
        Hole {
            file: self.file.clone(),
            byte_start: self.byte_start,
            byte_end: self.byte_end,
            spec: self.spec.clone(),
            fn_sig: self.fn_sig.clone(),
            fn_name: self.fn_name.clone(),
            impl_ctx: clone_opt(&self.impl_ctx),
            line: self.line,
            column: self.column,
            macro_name: self.macro_name.clone(),
            position: self.position,
            pinned: self.pinned,
            unresolvable: clone_opt(&self.unresolvable),
        }
    }
}

/// `path:line` of a hole.
pub open spec fn location_of(h: HoleView) -> Seq<char> {
    h.file + ":"@ + decimal_of(h.line as nat)
}

/// A spec on one line, cut to `max` characters. A cut spec ends in an ellipsis.
pub open spec fn summary_of(spec: Seq<char>, max: nat) -> Seq<char> {
    let flat = replaced(spec, '\n', ' ');
    if flat.len() <= max {
        flat
    } else {
        flat.take(if max == 0 {
            0
        } else {
            max - 1
        }) + "…"@
    }
}

/// `s` with every run of whitespace turned into one space, and none at its
/// ends.
pub open spec fn collapsed(s: Seq<char>) -> Seq<char> {
    join_of(words_of(s), " "@)
}

/// The text of an optional context, or nothing.
pub open spec fn or_empty(s: Option<Seq<char>>) -> Seq<char> {
    match s {
        Some(t) => t,
        None => seq![],
    }
}

/// What a hole's answer depends on, as one text: the spec, the signature it
/// has to fit, the type it belongs to, and the position it is in.
pub open spec fn key_material(h: HoleView) -> Seq<char> {
    "cargo-hole/v1\0"@ + collapsed(h.spec) + "\0"@ + trim_of(h.fn_sig) + "\0"@ + trim_of(
        or_empty(h.impl_ctx),
    ) + "\0"@ + position_name(h.position)
}

/// The hexadecimal digits of the BLAKE3 hash of some bytes.
pub uninterp spec fn blake3_hex(input: Seq<u8>) -> Seq<char>;

/// Whether `c` is a lower case hexadecimal digit.
pub open spec fn is_hex_digit(c: char) -> bool {
    ('0' <= c && c <= '9') || ('a' <= c && c <= 'f')
}

/// The key of a hole: the first 16 digits of the hash of what its answer
/// depends on.
pub open spec fn hash_key_of(h: HoleView) -> Seq<char> {
    blake3_hex(encode_utf8(key_material(h))).take(16)
}

/// `blake3::hash` followed by `Hash::to_hex`: the hash is a function of the
/// input bytes, and it is written as 64 lower case hexadecimal digits.
#[verifier::external_body]
fn blake3_hex_digits(input: &[u8]) -> (r: String)
    ensures
        r@ == blake3_hex(input@),
        r@.len() == 64,
        forall|i: int| 0 <= i < r@.len() ==> is_hex_digit(#[trigger] r@[i]),
{
    blake3::hash(input).to_hex().to_string()
}

/// Whether bytes `start..end` of `src` can be cut out as text.
pub open spec fn sliceable(src: Seq<char>, start: int, end: int) -> bool {
    let b = encode_utf8(src);
    start <= end <= b.len() && is_char_boundary(b, start) && is_char_boundary(b, end)
}

/// The text at bytes `start..end` of `src`, if there is one.
pub fn get(src: &str, start: usize, end: usize) -> (r: Option<&str>)
    ensures
        match r {
            Some(t) => sliceable(src@, start as int, end as int) && encode_utf8(t@) == encode_utf8(
                src@,
            ).subrange(start as int, end as int),
            None => !sliceable(src@, start as int, end as int),
        },
{
    if start <= end && end <= byte_len(src) && on_boundary(src, start) && on_boundary(src, end) {
        Some(slice(src, start, end))
    } else {
        None
    }
}

/// `s` with every run of whitespace turned into one space, and none at its
/// ends.
pub fn collapse_whitespace(s: &str) -> (r: String)
    ensures
        r@ == collapsed(s@),
{
    let w = words(s);
    join(&w, " ")
}

impl Hole {
    /// `path:line` identifier used by the CLI and the ledger.
    pub fn location(&self) -> (r: String)
        ensures
            r@ == location_of(self@),
    {
        let mut out = owned(self.file.as_str());
        out.push_str(":");
        out.push_str(decimal_usize(self.line).as_str());
        out
    }

    /// Short single-line form of the spec, for `list` output.
    pub fn spec_summary(&self, max_chars: usize) -> (r: String)
        ensures
            r@ == summary_of(self.spec@, max_chars as nat),
    {
        let flat = replace_char(self.spec.as_str(), '\n', ' ');
        let v = chars_of(flat.as_str());
        if v.len() <= max_chars {
            return flat;
        }
        let keep: usize = if max_chars == 0 {
            0
        } else {
            max_chars - 1
        };
        proof {
            assert(v@.subrange(0, keep as int) == v@.take(keep as int));
        }
        let mut out = string_of(&v, 0, keep);
        out.push_str("…");
        out
    }

    /// The exact source text of the hole.
    pub fn source_slice<'a>(&self, src: &'a str) -> (r: Option<&'a str>)
        ensures
            match r {
                Some(t) => sliceable(src@, self.byte_start as int, self.byte_end as int)
                    && encode_utf8(t@) == encode_utf8(src@).subrange(
                    self.byte_start as int,
                    self.byte_end as int,
                ),
                None => !sliceable(src@, self.byte_start as int, self.byte_end as int),
            },
    {
        get(src, self.byte_start, self.byte_end)
    }

    /// The text the key is computed from.
    pub fn key_text(&self) -> (r: String)
        ensures
            r@ == key_material(self@),
    {
        let mut m = owned("cargo-hole/v1\0");
        m.push_str(collapse_whitespace(self.spec.as_str()).as_str());
        m.push_str("\0");
        m.push_str(trim(self.fn_sig.as_str()).as_str());
        m.push_str("\0");
        let ctx = match &self.impl_ctx {
            Some(t) => trim(t.as_str()),
            None => {
                let empty = String::new();
                trim(empty.as_str())
            },
        };
        m.push_str(ctx.as_str());
        m.push_str("\0");
        m.push_str(self.position.as_str());
        m
    }

    /// The key an answer to this hole is recorded under.
    pub fn hash_key(&self) -> (r: String)
        ensures
            r@ == hash_key_of(self@),
            r@.len() == 16,
            forall|i: int| 0 <= i < r@.len() ==> is_hex_digit(#[trigger] r@[i]),
    {
        let m = self.key_text();
        let hex = blake3_hex_digits(m.as_str().as_bytes());
        let v = chars_of(hex.as_str());
        proof {
            assert(v@.subrange(0, 16) == v@.take(16));
        }
        string_of(&v, 0, 16)
    }

    /// What identifies the hole within one listing.
    pub fn index_key(&self) -> (r: HoleIndex)
        ensures
            r == (self.file, self.byte_start, self.byte_end),
    {
        (self.file.clone(), self.byte_start, self.byte_end)
    }
}

// ---------------------------------------------------------------------------
// Laws
// ---------------------------------------------------------------------------

/// Whether `s` has no NUL character.
pub open spec fn nul_free(s: Seq<char>) -> bool {
    forall|i: int| 0 <= i < s.len() ==> #[trigger] s[i] != '\0'
}

/// A key depends on the words of the spec, the signature, the `impl` and the
/// position alone. Where the hole stands, how it is spelled, how the spec is
/// wrapped, and whether it is pinned do not count.
pub proof fn lemma_key_ignores_the_rest(a: HoleView, b: HoleView)
    requires
        words_of(a.spec) == words_of(b.spec),
        trim_of(a.fn_sig) == trim_of(b.fn_sig),
        trim_of(or_empty(a.impl_ctx)) == trim_of(or_empty(b.impl_ctx)),
        a.position == b.position,
    ensures
        key_material(a) == key_material(b),
        hash_key_of(a) == hash_key_of(b),
{
}

proof fn lemma_cut_at_nul(a: Seq<char>, x: Seq<char>, b: Seq<char>, y: Seq<char>)
    requires
        nul_free(a),
        nul_free(b),
        a + "\0"@ + x == b + "\0"@ + y,
    ensures
        a == b,
        x == y,
{
    reveal_strlit("\0");
    let s = a + "\0"@ + x;
    assert("\0"@ =~= seq!['\0']);
    assert(s[a.len() as int] == '\0');
    assert(s[b.len() as int] == (b + "\0"@ + y)[b.len() as int]);
    if a.len() < b.len() {
        assert((b + "\0"@ + y)[a.len() as int] == b[a.len() as int]);
    }
    if b.len() < a.len() {
        assert(s[b.len() as int] == a[b.len() as int]);
    }
    assert(a =~= s.take(a.len() as int));
    assert(b =~= (b + "\0"@ + y).take(b.len() as int));
    assert(x =~= s.skip(a.len() as int + 1));
    assert(y =~= (b + "\0"@ + y).skip(b.len() as int + 1));
}

proof fn lemma_position_names_differ(p: HolePosition, q: HolePosition)
    requires
        position_name(p) == position_name(q),
    ensures
        p == q,
{
    reveal_strlit("statement");
    reveal_strlit("expression");
    reveal_strlit("macro-body");
    reveal_strlit("item");
    reveal_strlit("unknown");
    assert("statement"@.len() == 9);
    assert("expression"@.len() == 10 && "expression"@[0] == 'e');
    assert("macro-body"@.len() == 10 && "macro-body"@[0] == 'm');
    assert("item"@.len() == 4);
    assert("unknown"@.len() == 7);
    assert(position_name(p).len() == position_name(q).len());
    assert(position_name(p)[0] == position_name(q)[0]);
}

proof fn lemma_regroup(
    head: Seq<char>,
    nul: Seq<char>,
    s: Seq<char>,
    g: Seq<char>,
    c: Seq<char>,
    p: Seq<char>,
)
    ensures
        head + s + nul + g + nul + c + nul + p == head + (s + nul + (g + nul + (c + nul + p))),
{
    assert(head + s + nul + g + nul + c + nul + p =~= head + (s + nul + (g + nul + (c + nul + p))));
}

proof fn lemma_cancel(head: Seq<char>, x: Seq<char>, y: Seq<char>)
    requires
        head + x == head + y,
    ensures
        x == y,
{
    assert(x =~= (head + x).skip(head.len() as int));
    assert(y =~= (head + y).skip(head.len() as int));
}

/// Holes that differ in what their answers depend on are hashed from different
/// texts, so one can never be given the other's answer short of a hash
/// collision. (A NUL inside a field could stand for the separator.)
pub proof fn lemma_key_material_is_faithful(a: HoleView, b: HoleView)
    requires
        key_material(a) == key_material(b),
        nul_free(collapsed(a.spec)),
        nul_free(collapsed(b.spec)),
        nul_free(a.fn_sig),
        nul_free(b.fn_sig),
        nul_free(or_empty(a.impl_ctx)),
        nul_free(or_empty(b.impl_ctx)),
    ensures
        collapsed(a.spec) == collapsed(b.spec),
        trim_of(a.fn_sig) == trim_of(b.fn_sig),
        trim_of(or_empty(a.impl_ctx)) == trim_of(or_empty(b.impl_ctx)),
        a.position == b.position,
{
    let head = "cargo-hole/v1\0"@;
    let nul = "\0"@;
    let (s1, s2) = (collapsed(a.spec), collapsed(b.spec));
    let (g1, g2) = (trim_of(a.fn_sig), trim_of(b.fn_sig));
    let (c1, c2) = (trim_of(or_empty(a.impl_ctx)), trim_of(or_empty(b.impl_ctx)));
    let (p1, p2) = (position_name(a.position), position_name(b.position));
    lemma_trim_nul_free(a.fn_sig);
    lemma_trim_nul_free(b.fn_sig);
    lemma_trim_nul_free(or_empty(a.impl_ctx));
    lemma_trim_nul_free(or_empty(b.impl_ctx));
    let x1 = g1 + nul + (c1 + nul + p1);
    let x2 = g2 + nul + (c2 + nul + p2);
    lemma_regroup(head, nul, s1, g1, c1, p1);
    lemma_regroup(head, nul, s2, g2, c2, p2);
    lemma_cancel(head, s1 + nul + x1, s2 + nul + x2);
    lemma_cut_at_nul(s1, x1, s2, x2);
    lemma_cut_at_nul(g1, c1 + nul + p1, g2, c2 + nul + p2);
    lemma_cut_at_nul(c1, p1, c2, p2);
    lemma_position_names_differ(a.position, b.position);
}

proof fn lemma_trim_nul_free(s: Seq<char>)
    requires
        nul_free(s),
    ensures
        nul_free(trim_of(s)),
{
    lemma_trim_start_nul_free(s);
    lemma_trim_end_nul_free(trim_start_of(s));
}

proof fn lemma_trim_start_nul_free(s: Seq<char>)
    requires
        nul_free(s),
    ensures
        nul_free(trim_start_of(s)),
    decreases s.len(),
{
    if s.len() > 0 {
        lemma_trim_start_nul_free(s.drop_first());
    }
}

proof fn lemma_trim_end_nul_free(s: Seq<char>)
    requires
        nul_free(s),
    ensures
        nul_free(trim_end_of(s)),
    decreases s.len(),
{
    if s.len() > 0 {
        lemma_trim_end_nul_free(s.drop_last());
    }
}

} // verus!
