//! Finding the holes of one source file.
//!
//! A syntax visitor reports what it enters, leaves and meets as a list of
//! [`Event`]s. Everything that is decided about them is decided here: which
//! macros are holes, where each one stands, and which function, `impl` and
//! position it belongs to.
use vstd::prelude::*;
use vstd::utf8::{decode_utf8, encode_utf8, is_char_boundary};

use crate::bytes::{byte_len, lemma_ends_are_boundaries, on_boundary, slice};
use crate::hole::{
    collapse_whitespace, collapsed, get, hole_views, sliceable, Hole, HolePosition, HoleView,
};
use crate::order::{order_of, sort_positions, Key};
use crate::scan::{body_open_of, macro_body_open, matching_close, matching_close_of};
use crate::text::{
    begins, chars_of, contains, contains_text, join, join_of, lemma_trim_is_final, opt_view, owned,
    same, starts_with,
    string_of, strip_prefix, trim, trim_of, trim_start, trim_start_of, views,
};
use crate::util::{
    column_at, column_of, lemma_place_fits, line_at, line_of, smaller, text_before,
};

verus! {

/// One token of a macro body.
#[derive(Debug)]
pub enum Token {
    /// An identifier, and the byte it starts at.
    Ident { name: String, start: usize },
    /// A punctuation character.
    Punct(char),
    /// A literal, as it is written.
    Literal(String),
    /// A delimited group: whether its delimiters are parentheses, what it holds,
    /// and the byte after its closing delimiter.
    Group { paren: bool, stream: Vec<Token>, end: usize },
}

/// One macro invocation.
#[derive(Debug)]
pub struct MacroCall {
    /// The last segment of the macro's path.
    pub name: String,
    /// Whether its body is in parentheses.
    pub paren: bool,
    /// Its body.
    pub tokens: Vec<Token>,
    /// The byte range of the whole invocation, as far as it is known.
    pub span_start: usize,
    pub span_end: usize,
    /// The byte its path starts at.
    pub path_start: usize,
}

/// A function's signature: where it stands, and its parts as token text.
#[derive(Debug)]
pub struct Signature {
    pub span_start: usize,
    pub span_end: usize,
    pub constness: bool,
    pub asyncness: bool,
    pub unsafety: bool,
    pub name: String,
    pub params: Vec<String>,
    pub inputs: Vec<String>,
    pub output: Option<String>,
    pub where_clause: Option<String>,
}

/// What a syntax visitor meets, in the order it meets it. An attribute is given
/// by the segments of its path.
#[derive(Debug)]
pub enum Event {
    EnterFn { sig: Signature, attrs: Vec<Vec<String>> },
    LeaveFn,
    EnterImpl { self_ty: String, attrs: Vec<Vec<String>> },
    EnterTrait { name: String, attrs: Vec<Vec<String>> },
    /// The end of an `impl` or a `trait`.
    LeaveImpl,
    EnterPosition(HolePosition),
    LeavePosition,
    EnterAttrs(Vec<Vec<String>>),
    LeaveAttrs,
    Macro(MacroCall),
}

// ---------------------------------------------------------------------------
// Text helpers
// ---------------------------------------------------------------------------

/// The text at bytes `start..end`.
pub open spec fn text_at(src: Seq<char>, start: int, end: int) -> Seq<char> {
    decode_utf8(encode_utf8(src).subrange(start, end))
}

/// The value of a string literal, if `text` is one.
pub uninterp spec fn string_literal_value(text: Seq<char>) -> Option<Seq<char>>;

/// `syn::parse_str::<syn::LitStr>` followed by `LitStr::value`: `None` unless
/// the text is one string literal, else the string it stands for. Both are
/// functions of the text.
#[verifier::external_body]
fn literal_value(text: &str) -> (r: Option<String>)
    ensures
        opt_view(r) == string_literal_value(text@),
{
    syn::parse_str::<syn::LitStr>(text).ok().map(|lit| lit.value())
}

/// The spec in the argument of a `todo!`: what follows `spec:`, if anything
/// does.
pub open spec fn spec_in(value: Seq<char>) -> Option<Seq<char>> {
    let v = trim_start_of(value);
    if begins(v, "spec:"@) && trim_of(v.skip("spec:"@.len() as int)).len() > 0 {
        Some(trim_of(v.skip("spec:"@.len() as int)))
    } else {
        None
    }
}

/// The spec in the argument of a `todo!`, if it holds one.
pub fn spec_of_value(value: &str) -> (r: Option<String>)
    ensures
        opt_view(r) == spec_in(value@),
{
    let v = trim_start(value);
    match strip_prefix(v.as_str(), "spec:") {
        None => None,
        Some(rest) => {
            let spec = trim(rest.as_str());
            if spec.as_str().unicode_len() == 0 {
                None
            } else {
                Some(spec)
            }
        },
    }
}

/// Whether a macro of this name can be a hole.
pub open spec fn is_hole_macro(name: Seq<char>) -> bool {
    name == "todo"@ || name == "unimplemented"@
}

fn names_hole(name: &str) -> (r: bool)
    ensures
        r == is_hole_macro(name@),
{
    same(name, "todo") || same(name, "unimplemented")
}

/// Whether what follows the first argument is nothing, or one comma.
pub open spec fn single_argument(tokens: Seq<Token>) -> bool {
    tokens.len() == 1 || (tokens.len() == 2 && tokens[1] == Token::Punct(','))
}

/// The spec a macro body holds: its only argument is a string with one.
pub open spec fn spec_in_tokens(tokens: Seq<Token>) -> Option<Seq<char>> {
    if !single_argument(tokens) {
        None
    } else {
        match tokens[0] {
            Token::Literal(text) => match string_literal_value(text@) {
                Some(value) => spec_in(value),
                None => None,
            },
            _ => None,
        }
    }
}

/// Parse the `spec:` payload out of a `todo!`-like macro.
///
/// Returns `None` when the invocation is not a cargo-hole spec: no argument, no
/// literal, no `spec:` prefix, an empty spec, or an argument list we do not
/// understand (anything beyond a single string and an optional trailing comma).
pub fn spec_from_macro(tokens: &Vec<Token>) -> (r: Option<String>)
    ensures
        opt_view(r) == spec_in_tokens(tokens@),
{
    let single = if tokens.len() == 1 {
        true
    } else if tokens.len() == 2 {
        match &tokens[1] {
            Token::Punct(c) => *c == ',',
            _ => false,
        }
    } else {
        false
    };
    if !single {
        return None;
    }
    match &tokens[0] {
        Token::Literal(text) => match literal_value(text.as_str()) {
            Some(value) => spec_of_value(value.as_str()),
            None => None,
        },
        _ => None,
    }
}

// ---------------------------------------------------------------------------
// Pins
// ---------------------------------------------------------------------------

/// ASCII whitespace.
pub open spec fn is_ascii_space(c: char) -> bool {
    c == ' ' || c == '\t' || c == '\n' || c == '\r' || c == '\u{c}'
}

/// `s` without trailing ASCII whitespace.
pub open spec fn ascii_trimmed_end(s: Seq<char>) -> Seq<char>
    decreases s.len(),
{
    if s.len() > 0 && is_ascii_space(s.last()) {
        ascii_trimmed_end(s.drop_last())
    } else {
        s
    }
}

/// Where the last line of `s` starts.
pub open spec fn last_line_start(s: Seq<char>) -> int
    decreases s.len(),
{
    if s.len() == 0 || s.last() == '\n' {
        s.len() as int
    } else {
        last_line_start(s.drop_last())
    }
}

/// Trimming makes nothing longer.
pub proof fn lemma_ascii_trimmed_end(s: Seq<char>)
    ensures
        ascii_trimmed_end(s).len() <= s.len(),
        ascii_trimmed_end(s) == s.take(ascii_trimmed_end(s).len() as int),
        ascii_trimmed_end(s).len() > 0 ==> !is_ascii_space(ascii_trimmed_end(s).last()),
    decreases s.len(),
{
    if s.len() > 0 && is_ascii_space(s.last()) {
        lemma_ascii_trimmed_end(s.drop_last());
        let t = ascii_trimmed_end(s);
        assert(s.drop_last().take(t.len() as int) == s.take(t.len() as int));
    } else {
        assert(s.take(s.len() as int) == s);
    }
}

/// The last line starts inside the text.
pub proof fn lemma_last_line_start(s: Seq<char>)
    ensures
        0 <= last_line_start(s) <= s.len(),
        s.len() > 0 && s.last() != '\n' ==> last_line_start(s) < s.len(),
    decreases s.len(),
{
    if s.len() > 0 && s.last() != '\n' {
        lemma_last_line_start(s.drop_last());
    }
}

/// Whether the run of `//` comments that ends `before` carries the pin marker.
pub open spec fn pinned_above(before: Seq<char>) -> bool
    decreases before.len(),
{
    let t = ascii_trimmed_end(before);
    let start = last_line_start(t);
    let line = trim_of(t.skip(start));
    proof {
        lemma_ascii_trimmed_end(before);
        lemma_last_line_start(t);
    }
    t.len() > 0 && begins(line, "//"@) && (contains_text(
        line.skip("//"@.len() as int),
        "hole:pinned"@,
    ) || pinned_above(t.take(start)))
}

/// True when the contiguous comment block immediately above `hole_start`
/// carries the `hole:pinned` marker.
pub fn preceding_pin_marker(src: &str, hole_start: usize) -> (r: bool)
    requires
        hole_start < encode_utf8(src@).len() ==> is_char_boundary(
            encode_utf8(src@),
            hole_start as int,
        ),
    ensures
        r == pinned_above(text_before(src@, hole_start as int)),
{
    let len: usize = byte_len(src);
    let cut: usize = if hole_start < len {
        hole_start
    } else {
        len
    };
    proof {
        lemma_ends_are_boundaries(src@);
    }
    let before = slice(src, 0, cut);
    proof {
        assert(encode_utf8(src@).subrange(0, cut as int) == encode_utf8(src@).take(cut as int));
        vstd::utf8::encode_utf8_decode_utf8(before@);
    }
    let v = chars_of(before);
    let mut end: usize = v.len();
    proof {
        assert(v@.take(end as int) == v@);
    }
    loop
        invariant
            end <= v@.len(),
            pinned_above(text_before(src@, hole_start as int)) == pinned_above(
                v@.take(end as int),
            ),
        decreases end,
    {
        let ghost whole = v@.take(end as int);
        let ghost entry = end;
        while end > 0 && (v[end - 1] == ' ' || v[end - 1] == '\t' || v[end - 1] == '\n' || v[end
            - 1] == '\r' || v[end - 1] == '\u{c}')
            invariant
                end <= entry <= v@.len(),
                whole == v@.take(entry as int),
                ascii_trimmed_end(whole) == ascii_trimmed_end(v@.take(end as int)),
            decreases end,
        {
            proof {
                assert(v@.take(end as int).drop_last() == v@.take(end - 1));
                assert(v@.take(end as int).last() == v@[end - 1]);
            }
            end = end - 1;
        }
        proof {
            if end > 0 {
                assert(v@.take(end as int).last() == v@[end - 1]);
            }
            assert(ascii_trimmed_end(whole) == v@.take(end as int));
        }
        if end == 0 {
            return false;
        }
        let ghost t = v@.take(end as int);
        let mut line_start: usize = end;
        proof {
            assert(t.take(end as int) == t);
        }
        while line_start > 0 && v[line_start - 1] != '\n'
            invariant
                line_start <= end <= v@.len(),
                t == v@.take(end as int),
                last_line_start(t) == last_line_start(t.take(line_start as int)),
            decreases line_start,
        {
            proof {
                assert(t.take(line_start as int).drop_last() == t.take(line_start - 1));
                assert(t.take(line_start as int).last() == v@[line_start - 1]);
            }
            line_start = line_start - 1;
        }
        proof {
            if line_start > 0 {
                assert(t.take(line_start as int).last() == v@[line_start - 1]);
            }
            assert(last_line_start(t) == line_start);
            assert(t.skip(line_start as int) == v@.subrange(line_start as int, end as int));
            assert(t.take(line_start as int) == v@.take(line_start as int));
            lemma_ascii_trimmed_end(whole);
            lemma_last_line_start(t);
        }
        let text = string_of(&v, line_start, end);
        let line = trim(text.as_str());
        match strip_prefix(line.as_str(), "//") {
            Some(rest) => {
                if contains(rest.as_str(), "hole:pinned") {
                    return true;
                }
                end = line_start;
            },
            None => {
                return false;
            },
        }
    }
}

/// Whether an attribute path is a pin: `pin`, or one that starts `hole::pin`.
pub open spec fn is_pin(segments: Seq<String>) -> bool {
    (segments.len() == 1 && segments[0]@ == "pin"@) || (segments.len() >= 2 && segments[0]@
        == "hole"@ && segments[1]@ == "pin"@)
}

/// Whether one of the attributes is a pin.
pub open spec fn has_pin(attrs: Seq<Vec<String>>) -> bool {
    exists|i: int| 0 <= i < attrs.len() && is_pin(#[trigger] attrs[i]@)
}

/// Whether any of the flags is set.
fn any_set(flags: &Vec<bool>) -> (r: bool)
    ensures
        r == flags@.contains(true),
{
    let mut i: usize = 0;
    while i < flags.len()
        invariant
            i <= flags@.len(),
            forall|k: int| 0 <= k < i ==> !#[trigger] flags@[k],
        decreases flags.len() - i,
    {
        if flags[i] {
            return true;
        }
        i = i + 1;
    }
    false
}

/// True when an item's attribute list contains a pin marker.
///
/// `#[hole::pin]` and `#[pin]` are both accepted. Pinned holes are listed
/// prominently by the CLI and never regenerated.
pub fn has_pin_attribute(attrs: &Vec<Vec<String>>) -> (r: bool)
    ensures
        r == has_pin(attrs@),
{
    let mut i: usize = 0;
    while i < attrs.len()
        invariant
            i <= attrs@.len(),
            forall|k: int| 0 <= k < i ==> !is_pin(#[trigger] attrs@[k]@),
        decreases attrs.len() - i,
    {
        let segs = &attrs[i];
        if segs.len() == 1 && same(segs[0].as_str(), "pin") {
            assert(is_pin(attrs@[i as int]@));
            return true;
        }
        if segs.len() >= 2 && same(segs[0].as_str(), "hole") && same(segs[1].as_str(), "pin") {
            assert(is_pin(attrs@[i as int]@));
            return true;
        }
        i = i + 1;
    }
    false
}

// ---------------------------------------------------------------------------
// Signatures
// ---------------------------------------------------------------------------

/// Token texts with their whitespace collapsed.
pub open spec fn rendered(parts: Seq<String>) -> Seq<Seq<char>> {
    Seq::new(parts.len(), |i: int| collapsed(parts[i]@))
}

/// A word that stands or does not.
pub open spec fn optional(there: bool, word: Seq<char>) -> Seq<char> {
    if there {
        word
    } else {
        ""@
    }
}

/// A signature put together from its parts, with the `where` clause after the
/// return type where it belongs.
pub open spec fn assembled_signature(sig: Signature) -> Seq<char> {
    let generics = if sig.params@.len() > 0 {
        "<"@ + join_of(rendered(sig.params@), ", "@) + ">"@
    } else {
        ""@
    };
    let output = match sig.output {
        Some(ty) => " -> "@ + collapsed(ty@),
        None => ""@,
    };
    let bounds = match sig.where_clause {
        Some(wc) => " "@ + collapsed(wc@),
        None => ""@,
    };
    optional(sig.constness, "const "@) + optional(sig.asyncness, "async "@) + optional(
        sig.unsafety,
        "unsafe "@,
    ) + "fn "@ + sig.name@ + generics + "("@ + join_of(rendered(sig.inputs@), ", "@) + ")"@ + output
        + bounds
}

/// Whether `s` begins like a function signature.
pub open spec fn begins_signature(s: Seq<char>) -> bool {
    begins(s, "fn"@) || begins(s, "pub"@) || begins(s, "const"@) || begins(s, "async"@) || begins(
        s,
        "unsafe"@,
    ) || begins(s, "extern"@)
}

/// The text of a signature: as it stands in the source where its span can be
/// trusted, else put together from its parts.
pub open spec fn signature_of(src: Seq<char>, sig: Signature) -> Seq<char> {
    let start = sig.span_start as int;
    let end = sig.span_end as int;
    if start < end && sliceable(src, start, end) && begins_signature(text_at(src, start, end)) {
        collapsed(text_at(src, start, end))
    } else {
        assembled_signature(sig)
    }
}

fn render_all(parts: &Vec<String>) -> (r: Vec<String>)
    ensures
        views(r@) == rendered(parts@),
{
    let mut out: Vec<String> = Vec::new();
    let mut i: usize = 0;
    while i < parts.len()
        invariant
            i <= parts@.len(),
            views(out@) == rendered(parts@).take(i as int),
        decreases parts.len() - i,
    {
        let one = collapse_whitespace(parts[i].as_str());
        proof {
            assert(views(out@.push(one)) =~= views(out@).push(one@));
            assert(rendered(parts@).take(i + 1) =~= rendered(parts@).take(i as int).push(one@));
        }
        out.push(one);
        i = i + 1;
    }
    proof {
        assert(rendered(parts@).take(parts@.len() as int) =~= rendered(parts@));
    }
    out
}

/// Assemble a signature from tokens, placing the `where` clause after the
/// return type where it belongs.
pub fn fallback_signature_text(sig: &Signature) -> (r: String)
    ensures
        r@ == assembled_signature(*sig),
{
    let mut s = owned(
        if sig.constness {
            "const "
        } else {
            ""
        },
    );
    s.push_str(
        if sig.asyncness {
            "async "
        } else {
            ""
        },
    );
    s.push_str(
        if sig.unsafety {
            "unsafe "
        } else {
            ""
        },
    );
    s.push_str("fn ");
    s.push_str(sig.name.as_str());
    let mut generics = owned("");
    if sig.params.len() > 0 {
        let params = render_all(&sig.params);
        generics = owned("<");
        generics.push_str(join(&params, ", ").as_str());
        generics.push_str(">");
    }
    s.push_str(generics.as_str());
    let args = render_all(&sig.inputs);
    s.push_str("(");
    s.push_str(join(&args, ", ").as_str());
    s.push_str(")");
    let mut output = owned("");
    if let Some(ty) = &sig.output {
        output = owned(" -> ");
        output.push_str(collapse_whitespace(ty.as_str()).as_str());
    }
    s.push_str(output.as_str());
    let mut bounds = owned("");
    if let Some(wc) = &sig.where_clause {
        bounds = owned(" ");
        bounds.push_str(collapse_whitespace(wc.as_str()).as_str());
    }
    s.push_str(bounds.as_str());
    s
}

/// Source text of a function signature.
///
/// Slicing the source is preferred over re-rendering the token stream: tokens
/// print a `where` clause as part of the generics, which lands in the wrong
/// place for display (`fn f<T> where T: X(...)`). The fallback only runs when
/// the span is unusable.
pub fn signature_text(src: &str, sig: &Signature) -> (r: String)
    ensures
        r@ == signature_of(src@, *sig),
{
    if sig.span_start < sig.span_end {
        if let Some(text) = get(src, sig.span_start, sig.span_end) {
            proof {
                vstd::utf8::encode_utf8_decode_utf8(text@);
            }
            if starts_with(text, "fn") || starts_with(text, "pub") || starts_with(text, "const")
                || starts_with(text, "async") || starts_with(text, "unsafe") || starts_with(
                text,
                "extern",
            ) {
                return collapse_whitespace(text);
            }
        }
    }
    fallback_signature_text(sig)
}

// ---------------------------------------------------------------------------
// Ranges
// ---------------------------------------------------------------------------

/// The byte range of a macro invocation: its span, when that begins with the
/// macro's name, else what a scan from its path finds.
pub open spec fn macro_range_of(
    src: Seq<char>,
    name: Seq<char>,
    span_start: int,
    span_end: int,
    path_start: int,
) -> Option<(int, int)> {
    let b = encode_utf8(src);
    if span_start < span_end && sliceable(src, span_start, span_end) && name.len() > 0 && begins(
        text_at(src, span_start, span_end),
        name,
    ) {
        Some((span_start, span_end))
    } else if path_start >= b.len() {
        None
    } else {
        match body_open_of(b, path_start) {
            None => None,
            Some(open) => match matching_close_of(b, open) {
                None => None,
                Some(close) => Some((path_start, close + 1)),
            },
        }
    }
}

/// Trusted byte range of a whole macro invocation.
pub fn macro_range(
    src: &str,
    name: &str,
    span_start: usize,
    span_end: usize,
    path_start: usize,
) -> (r: Option<(usize, usize)>)
    ensures
        match r {
            Some((start, end)) => macro_range_of(
                src@,
                name@,
                span_start as int,
                span_end as int,
                path_start as int,
            ) == Some((start as int, end as int)) && start < end <= encode_utf8(src@).len(),
            None => macro_range_of(
                src@,
                name@,
                span_start as int,
                span_end as int,
                path_start as int,
            ) is None,
        },
{
    // Preferred: the exact span of the whole invocation.
    if span_start < span_end {
        if let Some(text) = get(src, span_start, span_end) {
            proof {
                vstd::utf8::encode_utf8_decode_utf8(text@);
            }
            // Sanity check: the slice must begin with the macro's own name. This
            // rejects the degenerate `0..0` span and any stale span.
            if name.unicode_len() > 0 && starts_with(text, name) {
                return Some((span_start, span_end));
            }
        }
    }
    // Fallback: locate the body by scanning from the path span.
    let bytes = src.as_bytes();
    if path_start >= bytes.len() {
        return None;
    }
    match macro_body_open(bytes, path_start) {
        None => None,
        Some(open) => match matching_close(bytes, open) {
            None => None,
            Some(close) => Some((path_start, close + 1)),
        },
    }
}

/// Byte range of `todo!("...")` taken from its tokens: the ident's start to the
/// closing delimiter's end.
pub open spec fn token_range_of(start: usize, end: usize) -> Option<(int, int)> {
    if start < end {
        Some((start as int, end as int))
    } else {
        None
    }
}

// ---------------------------------------------------------------------------
// What is in scope
// ---------------------------------------------------------------------------

/// What encloses the place a visitor has reached.
#[verifier::ext_equal]
pub struct Scope {
    /// Enclosing functions: signature and name, innermost last.
    pub fns: Seq<(Seq<char>, Seq<char>)>,
    /// Enclosing `impl`s and `trait`s.
    pub impls: Seq<Seq<char>>,
    /// Enclosing positions.
    pub positions: Seq<HolePosition>,
    /// For each enclosing thing with attributes, whether they pin it.
    pub pins: Seq<bool>,
}

/// A file that is searched, by name and text.
pub struct Source {
    pub file: Seq<char>,
    pub text: Seq<char>,
}

/// The innermost entry of a stack.
pub open spec fn top<T>(stack: Seq<T>) -> Option<T> {
    if stack.len() > 0 {
        Some(stack.last())
    } else {
        None
    }
}

/// A stack without its innermost entry.
pub open spec fn popped<T>(stack: Seq<T>) -> Seq<T> {
    if stack.len() > 0 {
        stack.drop_last()
    } else {
        stack
    }
}

/// The position a hole would be in.
pub open spec fn position_in(scope: Scope) -> HolePosition {
    match top(scope.positions) {
        Some(p) => p,
        None => HolePosition::Unknown,
    }
}

/// The scope after an event.
pub open spec fn scope_after(src: Seq<char>, scope: Scope, e: Event) -> Scope {
    match e {
        Event::EnterFn { sig, attrs } => Scope {
            fns: scope.fns.push((signature_of(src, sig), sig.name@)),
            pins: scope.pins.push(has_pin(attrs@)),
            ..scope
        },
        Event::LeaveFn => Scope { fns: popped(scope.fns), pins: popped(scope.pins), ..scope },
        Event::EnterImpl { self_ty, attrs } => Scope {
            impls: scope.impls.push(collapsed(self_ty@)),
            pins: scope.pins.push(has_pin(attrs@)),
            ..scope
        },
        Event::EnterTrait { name, attrs } => Scope {
            impls: scope.impls.push("trait "@ + name@),
            pins: scope.pins.push(has_pin(attrs@)),
            ..scope
        },
        Event::LeaveImpl => Scope { impls: popped(scope.impls), pins: popped(scope.pins), ..scope },
        Event::EnterPosition(p) => Scope { positions: scope.positions.push(p), ..scope },
        Event::LeavePosition => Scope { positions: popped(scope.positions), ..scope },
        Event::EnterAttrs(attrs) => Scope { pins: scope.pins.push(has_pin(attrs@)), ..scope },
        Event::LeaveAttrs => Scope { pins: popped(scope.pins), ..scope },
        Event::Macro(_) => scope,
    }
}

// ---------------------------------------------------------------------------
// Which macros are holes
// ---------------------------------------------------------------------------

/// The hole at a byte range, or, without a range that fits the text, the hole
/// at the macro's path, marked as unusable.
pub open spec fn hole_at(
    source: Source,
    scope: Scope,
    position: HolePosition,
    name: Seq<char>,
    spec: Seq<char>,
    range: Option<(int, int)>,
    path_start: int,
) -> HoleView {
    let len = encode_utf8(source.text).len() as int;
    let fallback = smaller(path_start, len);
    let (start, end, trusted) = match range {
        Some((start, end)) => if start < end && end <= len {
            (start, end, true)
        } else {
            (fallback, fallback, false)
        },
        None => (fallback, fallback, false),
    };
    let ctx = top(scope.fns);
    HoleView {
        file: source.file,
        byte_start: start as usize,
        byte_end: end as usize,
        spec,
        fn_sig: match ctx {
            Some(c) => c.0,
            None => seq![],
        },
        fn_name: match ctx {
            Some(c) => c.1,
            None => seq![],
        },
        impl_ctx: top(scope.impls),
        line: line_at(source.text, start) as usize,
        column: column_at(source.text, start) as usize,
        macro_name: name,
        position,
        pinned: pinned_above(text_before(source.text, start)) || scope.pins.contains(true),
        unresolvable: if trusted {
            None
        } else {
            Some("could not determine a trustworthy byte range for this hole"@)
        },
    }
}

/// The hole a macro invocation is, if it is one: a `todo!` or `unimplemented!`
/// in parentheses with a spec.
pub open spec fn own_hole(
    source: Source,
    scope: Scope,
    position: HolePosition,
    name: Seq<char>,
    tokens: Seq<Token>,
    range: Option<(int, int)>,
    path_start: int,
) -> Seq<HoleView> {
    if is_hole_macro(name) && spec_in_tokens(tokens) is Some {
        seq![
            hole_at(
                source,
                scope,
                position,
                name,
                spec_in_tokens(tokens)->0,
                range,
                path_start,
            ),
        ]
    } else {
        seq![]
    }
}

/// Whether a hole macro's name at `i` is followed by `!` and a parenthesised
/// group.
pub open spec fn call_at(tokens: Seq<Token>, i: int) -> bool {
    &&& i + 2 < tokens.len()
    &&& tokens[i] matches Token::Ident { name, .. }
    &&& is_hole_macro(name@)
    &&& tokens[i + 1] == Token::Punct('!')
    &&& tokens[i + 2] matches Token::Group { paren, .. }
    &&& paren
}

/// The range of the invocation whose name is at `i`.
pub open spec fn call_range(text: Seq<char>, tokens: Seq<Token>, i: int) -> Option<(int, int)> {
    let name = tokens[i]->name;
    let start = tokens[i]->start;
    let end = tokens[i + 2]->end;
    match token_range_of(start, end) {
        Some(r) => Some(r),
        None => macro_range_of(text, name@, start as int, start as int, start as int),
    }
}

/// How deeply groups may nest before a walk gives up. Real code never goes this
/// deep.
pub const MAX_TOKEN_DEPTH: usize = 32;

/// The holes in a macro body, from token `i` on. Tokens never open a scope, so
/// every hole found here belongs to what encloses the whole macro.
pub open spec fn holes_in_tokens(
    source: Source,
    scope: Scope,
    tokens: Vec<Token>,
    i: int,
    depth: int,
) -> Seq<HoleView>
    decreases tokens, tokens@.len() - i,
{
    if depth > MAX_TOKEN_DEPTH || !(0 <= i < tokens@.len()) {
        seq![]
    } else if call_at(tokens@, i) {
        match tokens@[i + 2] {
            Token::Group { stream, .. } => holes_in_tokens(source, scope, stream, 0, 0) + own_hole(
                source,
                scope,
                HolePosition::MacroBody,
                tokens@[i]->name@,
                stream@,
                call_range(source.text, tokens@, i),
                tokens@[i]->start as int,
            ) + holes_in_tokens(source, scope, tokens, i + 3, depth),
            _ => seq![],
        }
    } else {
        match tokens@[i] {
            Token::Group { stream, .. } => holes_in_tokens(source, scope, stream, 0, depth + 1)
                + holes_in_tokens(source, scope, tokens, i + 1, depth),
            _ => holes_in_tokens(source, scope, tokens, i + 1, depth),
        }
    }
}

/// The holes a macro invocation holds and is.
pub open spec fn holes_in_macro(source: Source, scope: Scope, m: MacroCall) -> Seq<HoleView> {
    let inner = holes_in_tokens(source, scope, m.tokens, 0, 0);
    if m.paren {
        inner + own_hole(
            source,
            scope,
            position_in(scope),
            m.name@,
            m.tokens@,
            macro_range_of(
                source.text,
                m.name@,
                m.span_start as int,
                m.span_end as int,
                m.path_start as int,
            ),
            m.path_start as int,
        )
    } else {
        inner
    }
}

/// What one more token of a macro body adds.
proof fn lemma_tokens_step(source: Source, scope: Scope, tokens: Vec<Token>, i: int, depth: int)
    requires
        0 <= i < tokens@.len(),
        depth <= MAX_TOKEN_DEPTH,
    ensures
        holes_in_tokens(source, scope, tokens, i, depth) == if call_at(tokens@, i) {
            let stream = tokens@[i + 2]->stream;
            holes_in_tokens(source, scope, stream, 0, 0) + own_hole(
                source,
                scope,
                HolePosition::MacroBody,
                tokens@[i]->name@,
                stream@,
                call_range(source.text, tokens@, i),
                tokens@[i]->start as int,
            ) + holes_in_tokens(source, scope, tokens, i + 3, depth)
        } else {
            match tokens@[i] {
                Token::Group { stream, .. } => holes_in_tokens(source, scope, stream, 0, depth + 1)
                    + holes_in_tokens(source, scope, tokens, i + 1, depth),
                _ => holes_in_tokens(source, scope, tokens, i + 1, depth),
            }
        },
{
}

/// What is placed of a macro body is placed of each of its tokens.
proof fn lemma_token_placed(text: Seq<char>, tokens: Vec<Token>, i: int)
    requires
        tokens_placed(text, tokens),
        0 <= i < tokens@.len(),
    ensures
        match tokens@[i] {
            Token::Ident { start, .. } => placed(text, start),
            Token::Group { stream, .. } => tokens_placed(text, stream),
            _ => true,
        },
{
    let t = tokens@[i];
}

/// Whether a hole macro's name at `i` is followed by `!` and a parenthesised
/// group.
fn is_call(tokens: &Vec<Token>, i: usize) -> (r: bool)
    requires
        i < tokens@.len(),
    ensures
        r == call_at(tokens@, i as int),
{
    if tokens.len() - i <= 2 {
        return false;
    }
    let named = match &tokens[i] {
        Token::Ident { name, .. } => names_hole(name.as_str()),
        _ => false,
    };
    let bang = match &tokens[i + 1] {
        Token::Punct(c) => *c == '!',
        _ => false,
    };
    let group = match &tokens[i + 2] {
        Token::Group { paren, .. } => *paren,
        _ => false,
    };
    named && bang && group
}

/// Whether a byte offset inside the text is the start of a character.
pub open spec fn placed(text: Seq<char>, at: usize) -> bool {
    at < encode_utf8(text).len() ==> is_char_boundary(encode_utf8(text), at as int)
}

/// Whether every offset in a macro body is the start of a character.
pub open spec fn tokens_placed(text: Seq<char>, tokens: Vec<Token>) -> bool
    decreases tokens,
{
    forall|i: int|
        0 <= i < tokens@.len() ==> match #[trigger] tokens@[i] {
            Token::Ident { start, .. } => placed(text, start),
            Token::Group { stream, .. } => tokens_placed(text, stream),
            _ => true,
        }
}

/// Whether every offset of an event that a hole could start at is the start of
/// a character.
pub open spec fn event_placed(text: Seq<char>, e: Event) -> bool {
    match e {
        Event::Macro(m) => placed(text, m.path_start) && tokens_placed(text, m.tokens),
        _ => true,
    }
}

/// Whether all events of a file are placed.
pub open spec fn events_placed(text: Seq<char>, events: Seq<Event>) -> bool {
    forall|i: int| 0 <= i < events.len() ==> event_placed(text, #[trigger] events[i])
}

fn is_placed(src: &str, at: usize) -> (r: bool)
    ensures
        r == placed(src@, at),
{
    at >= byte_len(src) || on_boundary(src, at)
}

fn are_tokens_placed(src: &str, tokens: &Vec<Token>) -> (r: bool)
    ensures
        r == tokens_placed(src@, *tokens),
    decreases tokens,
{
    let mut i: usize = 0;
    while i < tokens.len()
        invariant
            i <= tokens@.len(),
            forall|k: int|
                0 <= k < i ==> match #[trigger] tokens@[k] {
                    Token::Ident { start, .. } => placed(src@, start),
                    Token::Group { stream, .. } => tokens_placed(src@, stream),
                    _ => true,
                },
        decreases tokens.len() - i,
    {
        let ok = match &tokens[i] {
            Token::Ident { start, .. } => is_placed(src, *start),
            Token::Group { stream, .. } => are_tokens_placed(src, stream),
            _ => true,
        };
        if !ok {
            assert(match tokens@[i as int] {
                Token::Ident { start, .. } => !placed(src@, start),
                Token::Group { stream, .. } => !tokens_placed(src@, stream),
                _ => false,
            });
            return false;
        }
        i = i + 1;
    }
    true
}

/// Whether all events of a file are placed: a caller that got its offsets from
/// another text finds out here.
pub fn are_events_placed(src: &str, events: &Vec<Event>) -> (r: bool)
    ensures
        r == events_placed(src@, events@),
{
    let mut i: usize = 0;
    while i < events.len()
        invariant
            i <= events@.len(),
            forall|k: int| 0 <= k < i ==> event_placed(src@, #[trigger] events@[k]),
        decreases events.len() - i,
    {
        let ok = match &events[i] {
            Event::Macro(m) => is_placed(src, m.path_start) && are_tokens_placed(src, &m.tokens),
            _ => true,
        };
        if !ok {
            assert(!event_placed(src@, events@[i as int]));
            return false;
        }
        i = i + 1;
    }
    true
}

/// Enclosing-function context, tracked as a stack so that nested items (a
/// function inside a function) resolve to the innermost one.
pub struct FnCtx {
    pub sig: String,
    pub name: String,
}

/// The search through one file.
pub struct Finder<'a> {
    pub path: &'a str,
    pub src: &'a str,
    pub fn_stack: Vec<FnCtx>,
    pub impl_stack: Vec<String>,
    pub position_stack: Vec<HolePosition>,
    /// Whether each enclosing item or macro carries `#[hole::pin]` / `#[pin]`.
    pub pin_stack: Vec<bool>,
    pub holes: Vec<Hole>,
}

impl<'a> Finder<'a> {
    /// What encloses the place reached.
    pub open spec fn scope(self) -> Scope {
        Scope {
            fns: Seq::new(
                self.fn_stack@.len(),
                |i: int| (self.fn_stack@[i].sig@, self.fn_stack@[i].name@),
            ),
            impls: views(self.impl_stack@),
            positions: self.position_stack@,
            pins: self.pin_stack@,
        }
    }

    /// The file that is searched.
    pub open spec fn source(self) -> Source {
        Source { file: self.path@, text: self.src@ }
    }

    /// Whether `self` is `other` with other holes found.
    pub open spec fn only_holes_differ(self, other: Finder<'a>) -> bool {
        &&& self.path == other.path
        &&& self.src == other.src
        &&& self.fn_stack == other.fn_stack
        &&& self.impl_stack == other.impl_stack
        &&& self.position_stack == other.position_stack
        &&& self.pin_stack == other.pin_stack
    }

    /// A search that has found nothing yet.
    pub fn new(path: &'a str, src: &'a str) -> (r: Finder<'a>)
        ensures
            r.path == path,
            r.src == src,
            r.scope() == (Scope { fns: seq![], impls: seq![], positions: seq![], pins: seq![] }),
            r.holes@ == Seq::<Hole>::empty(),
    {
        let r = Finder {
            path,
            src,
            fn_stack: Vec::new(),
            impl_stack: Vec::new(),
            position_stack: Vec::new(),
            pin_stack: Vec::new(),
            holes: Vec::new(),
        };
        proof {
            assert(r.scope() =~= Scope {
                fns: seq![],
                impls: seq![],
                positions: seq![],
                pins: seq![],
            });
        }
        r
    }

    /// The innermost position.
    pub fn current_position(&self) -> (r: HolePosition)
        ensures
            r == position_in(self.scope()),
    {
        let n: usize = self.position_stack.len();
        if n == 0 {
            HolePosition::Unknown
        } else {
            self.position_stack[n - 1]
        }
    }

    /// Record the hole that a call in a macro body is, if it is one.
    fn record_call(&mut self, name: &str, start: usize, end: usize, stream: &Vec<Token>)
        requires
            encode_utf8(old(self).src@).len() < usize::MAX,
            placed(old(self).src@, start),
            is_hole_macro(name@),
        ensures
            final(self).only_holes_differ(*old(self)),
            hole_views(final(self).holes@) == hole_views(old(self).holes@) + own_hole(
                old(self).source(),
                old(self).scope(),
                HolePosition::MacroBody,
                name@,
                stream@,
                match token_range_of(start, end) {
                    Some(r) => Some(r),
                    None => macro_range_of(
                        old(self).src@,
                        name@,
                        start as int,
                        start as int,
                        start as int,
                    ),
                },
                start as int,
            ),
    {
        let ghost before = hole_views(self.holes@);
        if let Some(spec) = spec_from_macro(stream) {
            let range = if start < end {
                Some((start, end))
            } else {
                macro_range(self.src, name, start, start, start)
            };
            self.record(HolePosition::MacroBody, name, spec, range, start);
            proof {
                let now = hole_views(self.holes@);
                assert(before + seq![now.last()] =~= now);
            }
        } else {
            proof {
                assert(before + Seq::<HoleView>::empty() =~= before);
            }
        }
    }

    /// Record the hole of one macro invocation.
    fn record(
        &mut self,
        position: HolePosition,
        name: &str,
        spec: String,
        range: Option<(usize, usize)>,
        path_start: usize,
    )
        requires
            encode_utf8(old(self).src@).len() < usize::MAX,
            placed(old(self).src@, path_start),
            range matches Some((start, end)) ==> start < end && end <= encode_utf8(
                old(self).src@,
            ).len() ==> placed(old(self).src@, start),
        ensures
            final(self).only_holes_differ(*old(self)),
            hole_views(final(self).holes@) == hole_views(old(self).holes@).push(
                hole_at(
                    old(self).source(),
                    old(self).scope(),
                    position,
                    name@,
                    spec@,
                    match range {
                        Some((start, end)) => Some((start as int, end as int)),
                        None => None,
                    },
                    path_start as int,
                ),
            ),
    {
        let len: usize = byte_len(self.src);
        let fallback: usize = if path_start < len {
            path_start
        } else {
            len
        };
        let (byte_start, byte_end, trusted) = match range {
            Some((start, end)) => if start < end && end <= len {
                (start, end, true)
            } else {
                (fallback, fallback, false)
            },
            None => (fallback, fallback, false),
        };
        let unresolvable = if trusted {
            None
        } else {
            // The path still says where the hole is, but it is unusable.
            Some(owned("could not determine a trustworthy byte range for this hole"))
        };
        let pinned = preceding_pin_marker(self.src, byte_start) || any_set(&self.pin_stack);
        let fns: usize = self.fn_stack.len();
        let (fn_sig, fn_name) = if fns > 0 {
            let c = &self.fn_stack[fns - 1];
            (c.sig.clone(), c.name.clone())
        } else {
            (String::new(), String::new())
        };
        let impls: usize = self.impl_stack.len();
        let impl_ctx = if impls > 0 {
            Some(self.impl_stack[impls - 1].clone())
        } else {
            None
        };
        let hole = Hole {
            file: owned(self.path),
            byte_start,
            byte_end,
            spec,
            fn_sig,
            fn_name,
            impl_ctx,
            line: line_of(self.src, byte_start),
            column: column_of(self.src, byte_start),
            macro_name: owned(name),
            position,
            pinned,
            unresolvable,
        };
        proof {
            let h = hole_at(
                self.source(),
                self.scope(),
                position,
                name@,
                spec@,
                match range {
                    Some((start, end)) => Some((start as int, end as int)),
                    None => None,
                },
                path_start as int,
            );
            assert(h.fn_sig == hole@.fn_sig);
            assert(h.fn_name == hole@.fn_name);
            assert(h.impl_ctx == hole@.impl_ctx);
            assert(h =~= hole@);
            assert(hole_views(self.holes@.push(hole)) =~= hole_views(self.holes@).push(h));
        }
        self.holes.push(hole);
    }

    /// Search a macro token body for nested holes.
    ///
    /// Macro bodies are raw tokens that a syntax visitor never looks inside, so
    /// this walk is the only way to see `vec![todo!("spec: ...")]`.
    fn descend_tokens(&mut self, tokens: &Vec<Token>, depth: usize)
        requires
            encode_utf8(old(self).src@).len() < usize::MAX,
            tokens_placed(old(self).src@, *tokens),
            depth <= MAX_TOKEN_DEPTH + 1,
        ensures
            final(self).only_holes_differ(*old(self)),
            hole_views(final(self).holes@) == hole_views(old(self).holes@) + holes_in_tokens(
                old(self).source(),
                old(self).scope(),
                *tokens,
                0,
                depth as int,
            ),
        decreases tokens,
    {
        let ghost source = self.source();
        let ghost scope = self.scope();
        let ghost before = hole_views(self.holes@);
        // Guard against pathological nesting; real code never goes this deep.
        if depth > MAX_TOKEN_DEPTH {
            proof {
                assert(before + Seq::<HoleView>::empty() =~= before);
            }
            return;
        }
        let n: usize = tokens.len();
        let mut i: usize = 0;
        proof {
            assert(before + holes_in_tokens(source, scope, *tokens, 0, depth as int) =~= before
                + holes_in_tokens(source, scope, *tokens, 0, depth as int));
        }
        while i < n
            invariant
                i <= n,
                n == tokens@.len(),
                depth <= MAX_TOKEN_DEPTH,
                self.only_holes_differ(*old(self)),
                source == old(self).source(),
                scope == old(self).scope(),
                encode_utf8(self.src@).len() < usize::MAX,
                tokens_placed(self.src@, *tokens),
                before + holes_in_tokens(source, scope, *tokens, 0, depth as int) == hole_views(
                    self.holes@,
                ) + holes_in_tokens(source, scope, *tokens, i as int, depth as int),
            decreases n - i,
        {
            let ghost now = hole_views(self.holes@);
            proof {
                assert(self.source() == source);
                assert(self.scope() == scope);
                lemma_tokens_step(source, scope, *tokens, i as int, depth as int);
                lemma_token_placed(self.src@, *tokens, i as int);
            }
            if is_call(tokens, i) {
                proof {
                    lemma_token_placed(self.src@, *tokens, i + 2);
                }
                if let (Token::Ident { name, start }, Token::Group { stream, end, .. }) = (
                    &tokens[i],
                    &tokens[i + 2],
                ) {
                    self.descend_tokens(stream, 0);
                    self.record_call(name.as_str(), *start, *end, stream);
                    proof {
                        let a = holes_in_tokens(source, scope, *stream, 0, 0);
                        let own = own_hole(
                            source,
                            scope,
                            HolePosition::MacroBody,
                            name@,
                            stream@,
                            call_range(source.text, tokens@, i as int),
                            *start as int,
                        );
                        let c = holes_in_tokens(source, scope, *tokens, i + 3, depth as int);
                        assert(hole_views(self.holes@) =~= now + a + own);
                        assert(now + (a + own + c) =~= (now + a + own) + c);
                    }
                }
                i = i + 3;
            } else {
                if let Token::Group { stream, .. } = &tokens[i] {
                    self.descend_tokens(stream, depth + 1);
                    proof {
                        let a = holes_in_tokens(source, scope, *stream, 0, depth + 1);
                        let c = holes_in_tokens(source, scope, *tokens, i + 1, depth as int);
                        assert(now + (a + c) =~= (now + a) + c);
                    }
                }
                i = i + 1;
            }
        }
        proof {
            assert(hole_views(self.holes@) + Seq::<HoleView>::empty() =~= hole_views(self.holes@));
        }
    }

    /// Record a hole if `mac` is a `todo!`/`unimplemented!` carrying a spec,
    /// after those in its body.
    ///
    /// The token body is searched regardless of whether *this* macro is a hole:
    /// `todo!("not a spec", todo!("spec: x"))` still contains a hole, and a
    /// nested `todo!` inside a spec string is a single literal token so it can
    /// never be mistaken for a second hole.
    pub fn consider_macro(&mut self, mac: &MacroCall)
        requires
            encode_utf8(old(self).src@).len() < usize::MAX,
            event_placed(old(self).src@, Event::Macro(*mac)),
        ensures
            final(self).only_holes_differ(*old(self)),
            hole_views(final(self).holes@) == hole_views(old(self).holes@) + holes_in_macro(
                old(self).source(),
                old(self).scope(),
                *mac,
            ),
    {
        let ghost before = hole_views(self.holes@);
        self.descend_tokens(&mac.tokens, 0);
        proof {
            assert(self.source() == old(self).source());
            assert(self.scope() == old(self).scope());
        }
        let ghost inner = hole_views(self.holes@);
        // Only the parenthesised form is a hole, matching the documented
        // convention.
        if mac.paren && names_hole(mac.name.as_str()) {
            if let Some(spec) = spec_from_macro(&mac.tokens) {
                let position = self.current_position();
                let range = macro_range(
                    self.src,
                    mac.name.as_str(),
                    mac.span_start,
                    mac.span_end,
                    mac.path_start,
                );
                self.record(position, mac.name.as_str(), spec, range, mac.path_start);
            }
        }
        proof {
            assert(hole_views(self.holes@) =~= before + holes_in_macro(
                old(self).source(),
                old(self).scope(),
                *mac,
            ));
        }
    }

    /// Take one event into account.
    pub fn apply(&mut self, e: &Event)
        requires
            encode_utf8(old(self).src@).len() < usize::MAX,
            event_placed(old(self).src@, *e),
        ensures
            final(self).path == old(self).path,
            final(self).src == old(self).src,
            final(self).scope() == scope_after(old(self).src@, old(self).scope(), *e),
            hole_views(final(self).holes@) == hole_views(old(self).holes@) + match *e {
                Event::Macro(m) => holes_in_macro(old(self).source(), old(self).scope(), m),
                _ => seq![],
            },
    {
        let ghost holes = hole_views(self.holes@);
        match e {
            Event::EnterFn { sig, attrs } => {
                let text = signature_text(self.src, sig);
                self.fn_stack.push(FnCtx { sig: text, name: sig.name.clone() });
                self.pin_stack.push(has_pin_attribute(attrs));
            },
            Event::LeaveFn => {
                self.fn_stack.pop();
                self.pin_stack.pop();
            },
            Event::EnterImpl { self_ty, attrs } => {
                self.impl_stack.push(collapse_whitespace(self_ty.as_str()));
                self.pin_stack.push(has_pin_attribute(attrs));
            },
            Event::EnterTrait { name, attrs } => {
                let mut header = owned("trait ");
                header.push_str(name.as_str());
                self.impl_stack.push(header);
                self.pin_stack.push(has_pin_attribute(attrs));
            },
            Event::LeaveImpl => {
                self.impl_stack.pop();
                self.pin_stack.pop();
            },
            Event::EnterPosition(p) => {
                self.position_stack.push(*p);
            },
            Event::LeavePosition => {
                self.position_stack.pop();
            },
            Event::EnterAttrs(attrs) => {
                self.pin_stack.push(has_pin_attribute(attrs));
            },
            Event::LeaveAttrs => {
                self.pin_stack.pop();
            },
            Event::Macro(m) => {
                self.consider_macro(m);
            },
        }
        proof {
            assert(holes + Seq::<HoleView>::empty() =~= holes);
            assert(self.scope() =~= scope_after(old(self).src@, old(self).scope(), *e));
        }
    }
}

// ---------------------------------------------------------------------------
// One file
// ---------------------------------------------------------------------------

/// A parsed Rust source file.
#[verifier::external_type_specification]
#[verifier::external_body]
pub struct ExFile(syn::File);

/// Why a source file could not be parsed.
#[verifier::external_type_specification]
#[verifier::external_body]
pub struct ExError(syn::Error);

/// Whether a text is the content of a Rust source file.
pub uninterp spec fn parses_as_rust(text: Seq<char>) -> bool;

/// `syn::parse_file`: whether it succeeds is a function of the text. What the
/// tree holds is left unsaid; it is only handed on to a visitor.
#[verifier::external_body]
fn parse_rust(src: &str) -> (r: Result<syn::File, syn::Error>)
    ensures
        r is Ok == parses_as_rust(src@),
{
    syn::parse_file(src)
}

/// Parse a source file for a visitor to report on.
pub fn parse_source(path: &str, src: &str) -> (r: Result<syn::File, String>)
    ensures
        match r {
            Ok(_) => parses_as_rust(src@),
            Err(m) => !parses_as_rust(src@) && m@ == "error: failed to parse "@ + path@,
        },
{
    match parse_rust(src) {
        Ok(file) => Ok(file),
        Err(_) => {
            let mut m = owned("error: failed to parse ");
            m.push_str(path);
            Err(m)
        },
    }
}

/// The scope and the holes after some events.
pub open spec fn scanned(source: Source, events: Seq<Event>) -> (Scope, Seq<HoleView>)
    decreases events.len(),
{
    if events.len() == 0 {
        (Scope { fns: seq![], impls: seq![], positions: seq![], pins: seq![] }, seq![])
    } else {
        let (scope, holes) = scanned(source, events.drop_last());
        let e = events.last();
        (
            scope_after(source.text, scope, e),
            holes + match e {
                Event::Macro(m) => holes_in_macro(source, scope, m),
                _ => seq![],
            },
        )
    }
}

/// The ranges holes are sorted by.
pub open spec fn hole_keys(holes: Seq<HoleView>) -> Seq<Key> {
    Seq::new(holes.len(), |i: int| (holes[i].byte_start, holes[i].byte_end, 0usize))
}

/// Holes in the order of their ranges.
pub open spec fn in_range_order(holes: Seq<HoleView>) -> Seq<HoleView> {
    let order = order_of(hole_keys(holes));
    Seq::new(order.len(), |k: int| holes[order[k] as int])
}

/// Whether two holes have the same range.
pub open spec fn same_range(a: HoleView, b: HoleView) -> bool {
    a.byte_start == b.byte_start && a.byte_end == b.byte_end
}

/// The first hole of every run with one range.
pub open spec fn without_repeats(holes: Seq<HoleView>) -> Seq<HoleView>
    decreases holes.len(),
{
    if holes.len() == 0 {
        seq![]
    } else {
        let kept = without_repeats(holes.drop_last());
        if kept.len() > 0 && same_range(kept.last(), holes.last()) {
            kept
        } else {
            kept.push(holes.last())
        }
    }
}

/// The holes of a file: in order, each range once.
pub open spec fn holes_of(source: Source, events: Seq<Event>) -> Seq<HoleView> {
    without_repeats(in_range_order(scanned(source, events).1))
}

impl Hole {
    /// Extract every hole from one source file, given what a visitor met in it:
    /// in the order they stand in, none twice, each one sound.
    pub fn list_holes_one_file(path: &str, src: &str, events: &Vec<Event>) -> (r: Vec<Hole>)
        requires
            encode_utf8(src@).len() < usize::MAX,
            events_placed(src@, events@),
        ensures
            hole_views(r@) == holes_of(Source { file: path@, text: src@ }, events@),
            strictly_ordered(hole_views(r@)),
            all_sound(Source { file: path@, text: src@ }, hole_views(r@)),
    {
        let ghost source = Source { file: path@, text: src@ };
        let mut finder = Finder::new(path, src);
        let mut i: usize = 0;
        proof {
            assert(events@.take(0) =~= Seq::<Event>::empty());
            assert(hole_views(finder.holes@) =~= Seq::<HoleView>::empty());
        }
        while i < events.len()
            invariant
                i <= events@.len(),
                finder.path == path,
                finder.src == src,
                source == (Source { file: path@, text: src@ }),
                encode_utf8(src@).len() < usize::MAX,
                events_placed(src@, events@),
                (finder.scope(), hole_views(finder.holes@)) == scanned(
                    source,
                    events@.take(i as int),
                ),
            decreases events.len() - i,
        {
            proof {
                assert(events@.take(i + 1).drop_last() =~= events@.take(i as int));
                assert(events@.take(i + 1).last() == events@[i as int]);
                assert(event_placed(src@, events@[i as int]));
                assert(finder.source() == source);
            }
            finder.apply(&events[i]);
            i = i + 1;
        }
        proof {
            assert(events@.take(events@.len() as int) =~= events@);
        }
        let found = finder.holes;
        let ghost all = hole_views(found@);

        let mut keys: Vec<Key> = Vec::new();
        let mut i: usize = 0;
        while i < found.len()
            invariant
                i <= found@.len(),
                all == hole_views(found@),
                keys@ == hole_keys(all).take(i as int),
            decreases found.len() - i,
        {
            keys.push((found[i].byte_start, found[i].byte_end, 0));
            proof {
                assert(hole_keys(all).take(i + 1) =~= hole_keys(all).take(i as int).push(
                    hole_keys(all)[i as int],
                ));
            }
            i = i + 1;
        }
        proof {
            assert(keys@ =~= hole_keys(all));
        }
        let order = sort_positions(&keys);
        let ghost sorted = in_range_order(all);

        let mut out: Vec<Hole> = Vec::new();
        let mut k: usize = 0;
        proof {
            assert(sorted.take(0) =~= Seq::<HoleView>::empty());
            assert(hole_views(out@) =~= Seq::<HoleView>::empty());
        }
        while k < order.len()
            invariant
                k <= order@.len(),
                order@.len() == found@.len(),
                forall|j: int| 0 <= j < order@.len() ==> #[trigger] order@[j] < found@.len(),
                all == hole_views(found@),
                order@ == order_of(hole_keys(all)),
                sorted == in_range_order(all),
                hole_views(out@) == without_repeats(sorted.take(k as int)),
            decreases order.len() - k,
        {
            let h = &found[order[k]];
            proof {
                assert(sorted.take(k + 1).drop_last() =~= sorted.take(k as int));
                assert(sorted.take(k + 1).last() == h@);
                if out@.len() > 0 {
                    assert(hole_views(out@).last() == out@[out@.len() - 1]@);
                }
            }
            let n: usize = out.len();
            let repeat = n > 0 && out[n - 1].byte_start == h.byte_start && out[n - 1].byte_end
                == h.byte_end;
            if !repeat {
                let copy = h.clone();
                proof {
                    assert(hole_views(out@.push(copy)) =~= hole_views(out@).push(h@));
                }
                out.push(copy);
            }
            k = k + 1;
        }
        proof {
            assert(sorted.take(order@.len() as int) =~= sorted);
            assert(all.len() == found@.len());
            lemma_listing_is_sound(source, events@);
        }
        out
    }
}

// ---------------------------------------------------------------------------
// Laws
// ---------------------------------------------------------------------------

/// What holds of every hole that is found: it belongs to the file, it is a
/// hole macro with a spec, which is trimmed, its line and column are those of its
/// first byte, and either its range is a non-empty range of the text or it is
/// marked as unusable.
pub open spec fn is_sound(source: Source, h: HoleView) -> bool {
    let len = encode_utf8(source.text).len();
    &&& h.file == source.file
    &&& is_hole_macro(h.macro_name)
    &&& h.spec.len() > 0
    &&& h.spec == trim_of(h.spec)
    &&& h.line == line_at(source.text, h.byte_start as int)
    &&& h.column == column_at(source.text, h.byte_start as int)
    &&& h.byte_end <= len
    &&& (h.unresolvable is None ==> h.byte_start < h.byte_end)
    &&& (h.unresolvable is Some ==> h.byte_start == h.byte_end)
}

/// Whether every hole of a list is sound.
pub open spec fn all_sound(source: Source, holes: Seq<HoleView>) -> bool {
    forall|i: int| 0 <= i < holes.len() ==> is_sound(source, #[trigger] holes[i])
}

proof fn lemma_own_hole_sound(
    source: Source,
    scope: Scope,
    position: HolePosition,
    name: Seq<char>,
    tokens: Seq<Token>,
    range: Option<(int, int)>,
    path_start: int,
)
    requires
        encode_utf8(source.text).len() < usize::MAX,
        starts_char(source.text, path_start),
        range matches Some((start, _)) ==> starts_char(source.text, start),
    ensures
        all_sound(
            source,
            own_hole(source, scope, position, name, tokens, range, path_start),
        ),
{
    if is_hole_macro(name) && spec_in_tokens(tokens) is Some {
        let spec = spec_in_tokens(tokens)->0;
        let h = hole_at(source, scope, position, name, spec, range, path_start);
        let len = encode_utf8(source.text).len() as int;
        lemma_place_fits(source.text, smaller(path_start, len));
        if let Some((start, end)) = range {
            lemma_place_fits(source.text, start);
        }
        if let Token::Literal(text) = tokens[0] {
            if let Some(value) = string_literal_value(text@) {
                let v = trim_start_of(value);
                lemma_trim_is_final(v.skip("spec:"@.len() as int));
            }
        }
        assert(is_sound(source, h));
    }
}

/// Whether a byte offset is that of a character, or past the end.
pub open spec fn starts_char(text: Seq<char>, at: int) -> bool {
    0 <= at && (at < encode_utf8(text).len() ==> is_char_boundary(encode_utf8(text), at))
}

/// A range that was found starts where it was looked for, with a character.
proof fn lemma_range_starts_char(
    text: Seq<char>,
    name: Seq<char>,
    span_start: int,
    span_end: int,
    path_start: int,
)
    requires
        0 <= span_start,
        starts_char(text, path_start),
    ensures
        macro_range_of(text, name, span_start, span_end, path_start) matches Some((start, _))
            ==> starts_char(text, start),
{
}

proof fn lemma_sound_append(source: Source, a: Seq<HoleView>, b: Seq<HoleView>)
    requires
        all_sound(source, a),
        all_sound(source, b),
    ensures
        all_sound(source, a + b),
{
    assert forall|i: int| 0 <= i < (a + b).len() implies is_sound(source, #[trigger] (a + b)[i]) by {
        if i < a.len() {
            assert((a + b)[i] == a[i]);
        } else {
            assert((a + b)[i] == b[i - a.len()]);
        }
    }
}

proof fn lemma_tokens_sound(source: Source, scope: Scope, tokens: Vec<Token>, i: int, depth: int)
    requires
        encode_utf8(source.text).len() < usize::MAX,
        tokens_placed(source.text, tokens),
    ensures
        all_sound(source, holes_in_tokens(source, scope, tokens, i, depth)),
    decreases tokens, tokens@.len() - i,
{
    if depth > MAX_TOKEN_DEPTH || !(0 <= i < tokens@.len()) {
    } else if call_at(tokens@, i) {
        match tokens@[i + 2] {
            Token::Group { stream, .. } => {
                let a = holes_in_tokens(source, scope, stream, 0, 0);
                let own = own_hole(
                    source,
                    scope,
                    HolePosition::MacroBody,
                    tokens@[i]->name@,
                    stream@,
                    call_range(source.text, tokens@, i),
                    tokens@[i]->start as int,
                );
                let start = tokens@[i]->start;
                assert(placed(source.text, start)) by {
                    match tokens@[i] {
                        Token::Ident { start, .. } => {},
                        _ => {},
                    }
                }
                lemma_range_starts_char(
                    source.text,
                    tokens@[i]->name@,
                    start as int,
                    start as int,
                    start as int,
                );
                assert(tokens_placed(source.text, stream));
                lemma_tokens_sound(source, scope, stream, 0, 0);
                lemma_own_hole_sound(
                    source,
                    scope,
                    HolePosition::MacroBody,
                    tokens@[i]->name@,
                    stream@,
                    call_range(source.text, tokens@, i),
                    tokens@[i]->start as int,
                );
                lemma_tokens_sound(source, scope, tokens, i + 3, depth);
                lemma_sound_append(source, a, own);
                lemma_sound_append(
                    source,
                    a + own,
                    holes_in_tokens(source, scope, tokens, i + 3, depth),
                );
            },
            _ => {},
        }
    } else {
        lemma_tokens_sound(source, scope, tokens, i + 1, depth);
        match tokens@[i] {
            Token::Group { stream, .. } => {
                assert(tokens_placed(source.text, stream));
                lemma_tokens_sound(source, scope, stream, 0, depth + 1);
                lemma_sound_append(
                    source,
                    holes_in_tokens(source, scope, stream, 0, depth + 1),
                    holes_in_tokens(source, scope, tokens, i + 1, depth),
                );
            },
            _ => {},
        }
    }
}

proof fn lemma_scanned_sound(source: Source, events: Seq<Event>)
    requires
        encode_utf8(source.text).len() < usize::MAX,
        events_placed(source.text, events),
    ensures
        all_sound(source, scanned(source, events).1),
    decreases events.len(),
{
    if events.len() > 0 {
        let (scope, holes) = scanned(source, events.drop_last());
        assert forall|i: int| 0 <= i < events.len() - 1 implies event_placed(
            source.text,
            #[trigger] events.drop_last()[i],
        ) by {
            assert(events.drop_last()[i] == events[i]);
        }
        lemma_scanned_sound(source, events.drop_last());
        assert(event_placed(source.text, events[events.len() - 1]));
        match events.last() {
            Event::Macro(m) => {
                lemma_range_starts_char(
                    source.text,
                    m.name@,
                    m.span_start as int,
                    m.span_end as int,
                    m.path_start as int,
                );
                let inner = holes_in_tokens(source, scope, m.tokens, 0, 0);
                lemma_tokens_sound(source, scope, m.tokens, 0, 0);
                let range = macro_range_of(
                    source.text,
                    m.name@,
                    m.span_start as int,
                    m.span_end as int,
                    m.path_start as int,
                );
                lemma_own_hole_sound(
                    source,
                    scope,
                    position_in(scope),
                    m.name@,
                    m.tokens@,
                    range,
                    m.path_start as int,
                );
                lemma_sound_append(
                    source,
                    inner,
                    own_hole(
                        source,
                        scope,
                        position_in(scope),
                        m.name@,
                        m.tokens@,
                        range,
                        m.path_start as int,
                    ),
                );
                lemma_sound_append(source, holes, holes_in_macro(source, scope, m));
            },
            _ => {
                assert(holes + Seq::<HoleView>::empty() =~= holes);
            },
        }
    }
}

/// Holes come in the order of their ranges, no range twice.
pub open spec fn strictly_ordered(holes: Seq<HoleView>) -> bool {
    forall|i: int, j: int|
        0 <= i < j < holes.len() ==> crate::order::key_less(
            ((#[trigger] holes[i]).byte_start, holes[i].byte_end, 0usize),
            ((#[trigger] holes[j]).byte_start, holes[j].byte_end, 0usize),
        )
}

proof fn lemma_without_repeats(holes: Seq<HoleView>)
    requires
        forall|i: int, j: int|
            0 <= i < j < holes.len() ==> !crate::order::key_less(
                ((#[trigger] holes[j]).byte_start, holes[j].byte_end, 0usize),
                ((#[trigger] holes[i]).byte_start, holes[i].byte_end, 0usize),
            ),
    ensures
        strictly_ordered(without_repeats(holes)),
        holes.len() > 0 ==> without_repeats(holes).len() > 0 && same_range(
            without_repeats(holes).last(),
            holes.last(),
        ),
        forall|h: HoleView| #[trigger] without_repeats(holes).contains(h) ==> holes.contains(h),
    decreases holes.len(),
{
    if holes.len() > 0 {
        let front = holes.drop_last();
        lemma_without_repeats(front);
        let kept = without_repeats(front);
        let r = without_repeats(holes);
        assert(holes.last() == holes[holes.len() - 1]);
        if front.len() > 0 {
            assert(front.last() == holes[holes.len() - 2]);
        }
        if !(kept.len() > 0 && same_range(kept.last(), holes.last())) {
            assert forall|i: int, j: int| 0 <= i < j < r.len() implies crate::order::key_less(
                ((#[trigger] r[i]).byte_start, r[i].byte_end, 0usize),
                ((#[trigger] r[j]).byte_start, r[j].byte_end, 0usize),
            ) by {
                if j < kept.len() {
                    assert(r[i] == kept[i] && r[j] == kept[j]);
                } else {
                    assert(r[j] == holes.last());
                    assert(r[i] == kept[i]);
                    let last = kept[kept.len() - 1];
                    if i < kept.len() - 1 {
                        assert(crate::order::key_less(
                            (kept[i].byte_start, kept[i].byte_end, 0usize),
                            (last.byte_start, last.byte_end, 0usize),
                        ));
                    }
                }
            }
        }
        assert forall|h: HoleView| #[trigger] r.contains(h) implies holes.contains(h) by {
            let k = choose|k: int| 0 <= k < r.len() && r[k] == h;
            if k < kept.len() {
                assert(kept[k] == h);
                assert(kept.contains(h));
                assert(front.contains(h));
                let m = choose|m: int| 0 <= m < front.len() && front[m] == h;
                assert(holes[m] == h);
            } else {
                assert(holes[holes.len() - 1] == h);
            }
        }
    }
}

/// A file's holes come in the order they stand in, none twice, and each one is
/// sound.
proof fn lemma_listing_is_sound(source: Source, events: Seq<Event>)
    requires
        encode_utf8(source.text).len() < usize::MAX,
        events_placed(source.text, events),
        scanned(source, events).1.len() <= usize::MAX,
    ensures
        strictly_ordered(holes_of(source, events)),
        all_sound(source, holes_of(source, events)),
{
    let all = scanned(source, events).1;
    let keys = hole_keys(all);
    let order = order_of(keys);
    let sorted = in_range_order(all);
    let r = holes_of(source, events);
    lemma_scanned_sound(source, events);
    crate::order::lemma_order_is_stable(keys, all.len() as int);
    assert forall|i: int, j: int| 0 <= i < j < sorted.len() implies !crate::order::key_less(
        ((#[trigger] sorted[j]).byte_start, sorted[j].byte_end, 0usize),
        ((#[trigger] sorted[i]).byte_start, sorted[i].byte_end, 0usize),
    ) by {
        assert(crate::order::comes_before(keys, order[i] as int, order[j] as int));
    }
    lemma_without_repeats(sorted);
    assert forall|i: int| 0 <= i < r.len() implies is_sound(source, #[trigger] r[i]) by {
        assert(r.contains(r[i]));
        assert(sorted.contains(r[i]));
        let k = choose|k: int| 0 <= k < sorted.len() && sorted[k] == r[i];
        assert(order[k] < all.len());
        assert(sorted[k] == all[order[k] as int]);
    }
}

} // verus!
