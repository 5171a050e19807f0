//! The type probe: use rustc's own diagnostics as a type-query API.
//!
//! # The trick
//!
//! A hole's type is `!`, which coerces to anything and therefore never produces
//! a type error. Replace the hole with `()` and rustc reports
//! `E0308: expected X, found ()` — handing us the expected type, the exact
//! span, and real inference results (including coercions) for the price of one
//! `cargo check`. No LSP, no type checker reimplementation.
//!
//! # Mapping rustc's answers onto [`ProbeOutcome`]
//!
//! The probe is a hint source, not an oracle. It reports what it actually
//! learned, and declines rather than guessing:
//!
//! | situation | outcome |
//! |---|---|
//! | an `E0308` naming a concrete type | [`ProbeOutcome::Known`] |
//! | the hole is a whole statement | [`ProbeOutcome::NoExpectation`] (no `cargo check` needed) |
//! | rustc answered, but with a non-concrete type (`T`, `_`, `{integer}`, `impl Trait`) | [`ProbeOutcome::NoExpectation`] |
//! | the crate compiles and reports nothing about this hole | [`ProbeOutcome::NoExpectation`] |
//! | the patched crate does not compile, and no `E0308` is attributable to the hole | [`ProbeOutcome::ProbeFailed`] |
//! | `cargo` could not be run, or it timed out | [`ProbeOutcome::Broken`] |
//!
//! # Attribution
//!
//! `E0308` is not always placed on the hole. For `let b = todo!(); b`, rustc
//! reports the mismatch at the *later use* of `b`, so a probe that only looked
//! at the hole's own span would miss it. A diagnostic is therefore attributed
//! to the hole when it is in the same file, mentions ``found `()` `` (which
//! ties it to the `()` we substituted), and lies within
//! [`ATTRIBUTION_WINDOW`] bytes of the hole.
use vstd::prelude::*;

use crate::hole::{clone_opt, Hole, HoleView};
use crate::path::{
    ends_with, is_absolute, is_same_path, is_tail, join, joined, rooted, same_path,
};
use crate::text::{
    begins, chars_of, decimal_of, decimal_usize, ends, find_in, find_of, join as join_texts,
    join_of, opt_view, owned, rfind_in, rfind_of, same, starts_with, string_of, trim, trim_of,
    trim_start, trim_start_of, views,
};
use crate::util::{truncate, truncated};

verus! {

// ---------------------------------------------------------------------------
// Outcomes
// ---------------------------------------------------------------------------

/// What the probe learned (or failed to learn) about one hole.
#[derive(Debug)]
pub enum ProbeOutcome {
    /// The expected type, as text, e.g. "i64".
    Known(String),
    /// The position has no expected type to find (a statement), which is
    /// reported honestly rather than guessed around.
    NoExpectation,
    /// The probe itself did not compile. That is the probe's problem, not the
    /// model's.
    ProbeFailed(String),
    /// Cargo could not be run.
    Broken(String),
}

/// An outcome as plain text.
#[verifier::ext_equal]
pub enum OutcomeView {
    Known(Seq<char>),
    NoExpectation,
    ProbeFailed(Seq<char>),
    Broken(Seq<char>),
}

impl View for ProbeOutcome {
    type V = OutcomeView;

    open spec fn view(&self) -> OutcomeView {
        match *self {
            ProbeOutcome::Known(t) => OutcomeView::Known(t@),
            ProbeOutcome::NoExpectation => OutcomeView::NoExpectation,
            ProbeOutcome::ProbeFailed(t) => OutcomeView::ProbeFailed(t@),
            ProbeOutcome::Broken(t) => OutcomeView::Broken(t@),
        }
    }
}

impl ProbeOutcome {
    /// A short label, for logs and for `list` output.
    pub fn label(&self) -> (r: &'static str)
        ensures
            r@ == match self@ {
                OutcomeView::Known(_) => "known"@,
                OutcomeView::NoExpectation => "no-expectation"@,
                OutcomeView::ProbeFailed(_) => "probe-failed"@,
                OutcomeView::Broken(_) => "broken"@,
            },
    {
        match self {
            ProbeOutcome::Known(_) => "known",
            ProbeOutcome::NoExpectation => "no-expectation",
            ProbeOutcome::ProbeFailed(_) => "probe-failed",
            ProbeOutcome::Broken(_) => "broken",
        }
    }

    /// The expected type, when one was found.
    pub fn type_text(&self) -> (r: Option<&str>)
        ensures
            match r {
                Some(t) => self@ == OutcomeView::Known(t@),
                None => !(self@ is Known),
            },
    {
        match self {
            ProbeOutcome::Known(t) => Some(t.as_str()),
            _ => None,
        }
    }
}

/// How far from the hole an `E0308` may sit and still be attributed to it.
///
/// rustc sometimes reports the mismatch at a later use of the value rather than
/// at the substituted `()`; a tight bound would miss those, and an unbounded
/// search would grab unrelated errors from the same file. The ``found `()` ``
/// requirement in [`mentions_unit_value`] is what keeps this window safe.
pub const ATTRIBUTION_WINDOW: usize = 4096;

/// How close an error must be to be blamed on the patch rather than on the
/// user's pre-existing code. Deliberately much tighter than
/// [`ATTRIBUTION_WINDOW`]: this decides what a failure *message* claims, so it
/// should not reach across a file to find something to blame.
pub const LOCAL_WINDOW: usize = 64;

/// Default deadline for one `cargo check`, in seconds.
pub const DEFAULT_TIMEOUT: u64 = 300;

/// How long to wait for another process's probe to finish before giving up, in
/// seconds.
pub const DEFAULT_LOCK_WAIT: u64 = 600;

// ---------------------------------------------------------------------------
// Diagnostics
// ---------------------------------------------------------------------------

/// One rustc span, reduced to what the probe actually uses.
#[derive(Debug, PartialEq, Eq)]
pub struct Span {
    /// As rustc reported it: often relative to the crate root.
    pub file_name: String,
    pub byte_start: usize,
    pub byte_end: usize,
    pub is_primary: bool,
    pub label: Option<String>,
}

impl Clone for Span {
    fn clone(&self) -> (r: Self)
        ensures
            r == *self,
    {
        Span {
            file_name: self.file_name.clone(),
            byte_start: self.byte_start,
            byte_end: self.byte_end,
            is_primary: self.is_primary,
            label: clone_opt(&self.label),
        }
    }
}

/// One rustc diagnostic, reduced to what the probe actually uses.
#[derive(Debug, PartialEq, Eq)]
pub struct Diagnostic {
    /// e.g. `E0308`. Absent for some diagnostics.
    pub code: Option<String>,
    /// `error`, `warning`, `note`, ...
    pub level: String,
    /// The headline, e.g. `mismatched types`.
    pub message: String,
    pub spans: Vec<Span>,
}

/// The labels of some spans, in order.
pub open spec fn labels_of(spans: Seq<Span>) -> Seq<Seq<char>>
    decreases spans.len(),
{
    if spans.len() == 0 {
        seq![]
    } else {
        match spans.last().label {
            Some(l) => labels_of(spans.drop_last()).push(l@),
            None => labels_of(spans.drop_last()),
        }
    }
}

/// Every text of a diagnostic: its headline, then its labels.
pub open spec fn texts_of(d: Diagnostic) -> Seq<Seq<char>> {
    seq![d.message@] + labels_of(d.spans@)
}

/// Whether a diagnostic is an error.
pub open spec fn is_error(d: Diagnostic) -> bool {
    d.level@ == "error"@
}

/// How far a byte is from a span.
pub open spec fn span_distance(s: Span, byte: usize) -> int {
    if byte < s.byte_start {
        s.byte_start - byte
    } else if byte > s.byte_end {
        byte - s.byte_end
    } else {
        0
    }
}

/// Where paths really lead: for each path that was looked up, the canonical
/// path, or nothing where there is none.
#[derive(Debug)]
pub struct PathTable {
    pub entries: Vec<(String, Option<String>)>,
}

/// What a path was looked up to be.
pub open spec fn canonical(entries: Seq<(String, Option<String>)>, path: Seq<char>) -> Option<
    Seq<char>,
>
    decreases entries.len(),
{
    if entries.len() == 0 {
        None
    } else if entries[0].0@ == path {
        opt_view(entries[0].1)
    } else {
        canonical(entries.drop_first(), path)
    }
}

/// Whether two lookups came to the same place. A path that leads nowhere is in
/// no place, so it is never the same as another.
pub open spec fn same_place(a: Option<Seq<char>>, b: Option<Seq<char>>) -> bool {
    match (a, b) {
        (Some(x), Some(y)) => is_same_path(x, y),
        _ => false,
    }
}

/// Whether the file name rustc reported means `file`.
pub open spec fn is_same_file(
    table: PathTable,
    root: Seq<char>,
    reported: Seq<char>,
    file: Seq<char>,
) -> bool {
    if reported.len() == 0 {
        false
    } else if is_same_path(reported, file) {
        true
    } else if rooted(reported) {
        same_place(canonical(table.entries@, reported), canonical(table.entries@, file))
    } else {
        is_same_path(joined(root, reported), file) || is_tail(file, reported)
    }
}

/// The smaller of a distance and one that may be missing.
pub open spec fn nearer(a: Option<int>, b: int) -> Option<int> {
    match a {
        Some(x) => if x <= b {
            Some(x)
        } else {
            Some(b)
        },
        None => Some(b),
    }
}

/// The nearest distance from `byte` to a span in `file`, if any span is in it.
pub open spec fn nearest(
    table: PathTable,
    root: Seq<char>,
    spans: Seq<Span>,
    file: Seq<char>,
    byte: usize,
) -> Option<int>
    decreases spans.len(),
{
    if spans.len() == 0 {
        None
    } else {
        let rest = nearest(table, root, spans.drop_last(), file, byte);
        if is_same_file(table, root, spans.last().file_name@, file) {
            nearer(rest, span_distance(spans.last(), byte))
        } else {
            rest
        }
    }
}

/// Whether a diagnostic has a span within `window` bytes of a place.
pub open spec fn is_near(
    table: PathTable,
    root: Seq<char>,
    d: Diagnostic,
    file: Seq<char>,
    byte: usize,
    window: int,
) -> bool {
    match nearest(table, root, d.spans@, file, byte) {
        Some(x) => x <= window,
        None => false,
    }
}

impl PathTable {
    /// What `path` was looked up to be.
    pub fn find(&self, path: &str) -> (r: Option<&String>)
        ensures
            match r {
                Some(t) => canonical(self.entries@, path@) == Some(t@),
                None => canonical(self.entries@, path@) is None,
            },
    {
        let n: usize = self.entries.len();
        let mut i: usize = 0;
        proof {
            assert(self.entries@.skip(0) =~= self.entries@);
        }
        while i < n
            invariant
                i <= n,
                n == self.entries@.len(),
                canonical(self.entries@, path@) == canonical(self.entries@.skip(i as int), path@),
            decreases n - i,
        {
            let e = &self.entries[i];
            proof {
                assert(self.entries@.skip(i as int)[0] == *e);
                assert(self.entries@.skip(i as int).drop_first() =~= self.entries@.skip(i + 1));
            }
            if same(e.0.as_str(), path) {
                return match &e.1 {
                    Some(t) => Some(t),
                    None => None,
                };
            }
            i = i + 1;
        }
        None
    }
}

/// Compare rustc's reported file name with ours.
///
/// rustc usually emits a path relative to the crate root, so an exact
/// comparison against an absolute path would never match. Handles the three
/// shapes that actually occur: identical, absolute-and-equal, and
/// relative-to-root.
pub fn same_file(table: &PathTable, root: &str, reported: &str, file: &str) -> (r: bool)
    ensures
        r == is_same_file(*table, root@, reported@, file@),
{
    if reported.unicode_len() == 0 {
        return false;
    }
    if same_path(reported, file) {
        return true;
    }
    if is_absolute(reported) {
        return match (table.find(reported), table.find(file)) {
            (Some(a), Some(b)) => same_path(a.as_str(), b.as_str()),
            _ => false,
        };
    }
    // Relative: try it against the crate root, then as a suffix of our path.
    let full = join(root, reported);
    same_path(full.as_str(), file) || ends_with(file, reported)
}

impl Diagnostic {
    /// Whether this is an error.
    pub fn is_error(&self) -> (r: bool)
        ensures
            r == is_error(*self),
    {
        same(self.level.as_str(), "error")
    }

    /// Every string this diagnostic carries that might state an expectation.
    ///
    /// For `E0308` the headline is usually just `mismatched types` and the type
    /// lives in a span label, but both shapes occur, so both are searched.
    pub fn texts(&self) -> (r: Vec<String>)
        ensures
            views(r@) == texts_of(*self),
    {
        let mut out: Vec<String> = Vec::new();
        out.push(self.message.clone());
        let mut i: usize = 0;
        proof {
            assert(self.spans@.take(0) =~= Seq::<Span>::empty());
            assert(views(out@) =~= seq![self.message@] + labels_of(self.spans@.take(0)));
        }
        while i < self.spans.len()
            invariant
                i <= self.spans@.len(),
                views(out@) == seq![self.message@] + labels_of(self.spans@.take(i as int)),
            decreases self.spans.len() - i,
        {
            proof {
                assert(self.spans@.take(i + 1).drop_last() =~= self.spans@.take(i as int));
                assert(self.spans@.take(i + 1).last() == self.spans@[i as int]);
            }
            if let Some(l) = &self.spans[i].label {
                let copy = l.clone();
                proof {
                    let front = labels_of(self.spans@.take(i as int));
                    assert(views(out@.push(copy)) =~= views(out@).push(l@));
                    assert((seq![self.message@] + front).push(l@) =~= seq![self.message@]
                        + front.push(l@));
                }
                out.push(copy);
            }
            i = i + 1;
        }
        proof {
            assert(self.spans@.take(self.spans@.len() as int) =~= self.spans@);
        }
        out
    }

    /// The nearest distance from `byte` to any span in `file`, if any span is
    /// in that file at all.
    pub fn distance_to(&self, table: &PathTable, file: &str, root: &str, byte: usize) -> (r: Option<
        usize,
    >)
        ensures
            match r {
                Some(x) => nearest(*table, root@, self.spans@, file@, byte) == Some(x as int),
                None => nearest(*table, root@, self.spans@, file@, byte) is None,
            },
    {
        let mut best: Option<usize> = None;
        let mut i: usize = 0;
        proof {
            assert(self.spans@.take(0) =~= Seq::<Span>::empty());
        }
        while i < self.spans.len()
            invariant
                i <= self.spans@.len(),
                nearest(*table, root@, self.spans@.take(i as int), file@, byte) == match best {
                    Some(x) => Some(x as int),
                    None => None,
                },
            decreases self.spans.len() - i,
        {
            let s = &self.spans[i];
            proof {
                assert(self.spans@.take(i + 1).drop_last() =~= self.spans@.take(i as int));
                assert(self.spans@.take(i + 1).last() == *s);
            }
            if same_file(table, root, s.file_name.as_str(), file) {
                let distance: usize = if byte < s.byte_start {
                    s.byte_start - byte
                } else if byte > s.byte_end {
                    byte - s.byte_end
                } else {
                    0
                };
                best = match best {
                    Some(x) => if x <= distance {
                        Some(x)
                    } else {
                        Some(distance)
                    },
                    None => Some(distance),
                };
            }
            i = i + 1;
        }
        proof {
            assert(self.spans@.take(self.spans@.len() as int) =~= self.spans@);
        }
        best
    }

    /// Whether a span is within `window` bytes of a place.
    fn is_within(&self, table: &PathTable, file: &str, root: &str, byte: usize, window: usize) -> (r:
        bool)
        ensures
            r == is_near(*table, root@, *self, file@, byte, window as int),
    {
        match self.distance_to(table, file, root, byte) {
            Some(x) => x <= window,
            None => false,
        }
    }
}

// ---------------------------------------------------------------------------
// Reading rustc's answer
// ---------------------------------------------------------------------------

/// Whether a text says that a unit value was found.
pub open spec fn mentions_unit(text: Seq<char>) -> bool {
    match rfind_of(text, "found "@) {
        None => false,
        Some(pos) => {
            let rest = trim_start_of(text.skip(pos + "found "@.len()));
            begins(rest, "`()`"@) || begins(rest, "()"@)
        },
    }
}

/// Does `text` say that a unit value was found?
///
/// This is what ties a diagnostic to the `()` this module substituted, and it is
/// what makes the attribution window safe: an unrelated `E0308` in the same file
/// mentions its own found type, not `()`.
pub fn mentions_unit_value(text: &str) -> (r: bool)
    ensures
        r == mentions_unit(text@),
{
    let v = chars_of(text);
    let key = chars_of("found ");
    let n: usize = v.len();
    match rfind_in(&v, &key) {
        None => false,
        Some(pos) => {
            proof {
                assert(v@.subrange(pos + key@.len(), v@.len() as int) =~= v@.skip(
                    pos + key@.len(),
                ));
            }
            let tail = string_of(&v, pos + key.len(), n);
            let rest = trim_start(tail.as_str());
            starts_with(rest.as_str(), "`()`") || starts_with(rest.as_str(), "()")
        },
    }
}

/// What stands between the first two backticks of `raw`, or all of it without
/// two of them. Nothing but whitespace between them is no answer.
pub open spec fn in_backticks(raw: Seq<char>) -> Option<Seq<char>> {
    match find_of(raw, "`"@) {
        None => Some(raw),
        Some(a) => match find_of(raw.skip(a + 1), "`"@) {
            None => Some(raw),
            Some(b) => {
                let inner = trim_of(raw.skip(a + 1).take(b));
                if inner.len() > 0 {
                    Some(inner)
                } else {
                    None
                }
            },
        },
    }
}

/// The type a text like ``expected `i64`, found `()` `` names.
pub open spec fn expected_in(text: Seq<char>) -> Option<Seq<char>> {
    match find_of(text, "expected "@) {
        None => None,
        Some(pos) => {
            let rest = text.skip(pos + "expected "@.len());
            let end = match find_of(rest, ", found"@) {
                Some(e) => e,
                None => rest.len() as int,
            };
            let raw = trim_of(rest.take(end));
            if raw.len() == 0 {
                None
            } else {
                in_backticks(raw)
            }
        },
    }
}

/// Pull the expected type out of text like ``expected `i64`, found `()` ``.
///
/// Returns the raw text between `expected` and `found`. The result is *not*
/// validated here — see [`concrete_type`], which decides whether it is usable.
pub fn expected_type_from(text: &str) -> (r: Option<String>)
    ensures
        opt_view(r) == expected_in(text@),
{
    let v = chars_of(text);
    let key = chars_of("expected ");
    let n: usize = v.len();
    let pos: usize = match find_in(&v, &key, 0) {
        Some(p) => p,
        None => {
            return None;
        },
    };
    let from: usize = pos + key.len();
    proof {
        assert(v@.subrange(from as int, v@.len() as int) =~= v@.skip(from as int));
    }
    let rest = string_of(&v, from, n);

    // Prefer the ", found" boundary; fall back to the end of the text.
    let w = chars_of(rest.as_str());
    let stop = chars_of(", found");
    let end: usize = match find_in(&w, &stop, 0) {
        Some(e) => e,
        None => w.len(),
    };
    proof {
        assert(w@.subrange(0, end as int) =~= w@.take(end as int));
    }
    let cut = string_of(&w, 0, end);
    let raw = trim(cut.as_str());
    if raw.as_str().unicode_len() == 0 {
        return None;
    }

    // `expected type parameter `T`` keeps a prose prefix; the type itself is in
    // the backticks, so prefer them when present.
    let u = chars_of(raw.as_str());
    let tick = chars_of("`");
    proof {
        reveal_strlit("`");
    }
    if let Some(a) = find_in(&u, &tick, 0) {
        proof {
            assert(u@.subrange(a + 1, u@.len() as int) =~= u@.skip(a + 1));
        }
        let after = string_of(&u, a + 1, u.len());
        let x = chars_of(after.as_str());
        if let Some(b) = find_in(&x, &tick, 0) {
            proof {
                assert(x@.subrange(0, b as int) =~= x@.take(b as int));
            }
            let between = string_of(&x, 0, b);
            let inner = trim(between.as_str());
            return if inner.as_str().unicode_len() == 0 {
                None
            } else {
                Some(inner)
            };
        }
    }
    Some(raw)
}

/// `s` without leading backticks.
pub open spec fn without_ticks_before(s: Seq<char>) -> Seq<char>
    decreases s.len(),
{
    if s.len() > 0 && s[0] == '`' {
        without_ticks_before(s.drop_first())
    } else {
        s
    }
}

/// `s` without trailing backticks.
pub open spec fn without_ticks_after(s: Seq<char>) -> Seq<char>
    decreases s.len(),
{
    if s.len() > 0 && s.last() == '`' {
        without_ticks_after(s.drop_last())
    } else {
        s
    }
}

/// A type as rustc wrote it, without backticks and whitespace around it.
pub open spec fn bare_type(ty: Seq<char>) -> Seq<char> {
    trim_of(without_ticks_after(without_ticks_before(trim_of(ty))))
}

/// Why a type is not something to write code against, if it is not.
pub open spec fn type_problem(t: Seq<char>) -> Option<Seq<char>> {
    if t.len() == 0 {
        Some("the compiler named an empty type"@)
    } else if t == "_"@ {
        Some("the compiler said the type is `_`, i.e. still unresolved"@)
    } else if begins(t, "{"@) && ends(t, "}"@) {
        Some("`"@ + t + "` is an unresolved inference variable, not a type"@)
    } else if begins(t, "impl "@) {
        Some("`"@ + t + "` is an opaque type, which cannot be written by name"@)
    } else if t.len() == 1 && 'A' <= t[0] && t[0] <= 'Z' {
        Some("`"@ + t + "` is a generic type parameter, so it is not concrete"@)
    } else {
        None
    }
}

fn strip_ticks(s: &str) -> (r: String)
    ensures
        r@ == without_ticks_after(without_ticks_before(s@)),
{
    let v = chars_of(s);
    let mut i: usize = 0;
    proof {
        assert(v@.skip(0) =~= v@);
    }
    while i < v.len() && v[i] == '`'
        invariant
            i <= v@.len(),
            without_ticks_before(s@) == without_ticks_before(v@.skip(i as int)),
        decreases v.len() - i,
    {
        proof {
            assert(v@.skip(i as int).drop_first() =~= v@.skip(i + 1));
        }
        i = i + 1;
    }
    let mut j: usize = v.len();
    let ghost front = without_ticks_before(s@);
    proof {
        if i < v@.len() {
            assert(v@.skip(i as int)[0] == v@[i as int]);
        }
        assert(v@.subrange(i as int, j as int) =~= v@.skip(i as int));
    }
    while i < j && v[j - 1] == '`'
        invariant
            i <= j <= v@.len(),
            without_ticks_after(front) == without_ticks_after(v@.subrange(i as int, j as int)),
        decreases j,
    {
        proof {
            assert(v@.subrange(i as int, j as int).drop_last() =~= v@.subrange(i as int, j - 1));
        }
        j = j - 1;
    }
    string_of(&v, i, j)
}

fn in_ticks(t: &str, rest: &str) -> (r: String)
    ensures
        r@ == "`"@ + t@ + rest@,
{
    let mut m = owned("`");
    m.push_str(t);
    m.push_str(rest);
    m
}

/// Decide whether an expected type is usable, or explain why it is not.
///
/// The probe must not hand the model `T` or `{integer}`: those are not types
/// anything can be written against, and passing them on as though they were a
/// real answer is exactly the confident-but-wrong behaviour this module exists
/// to avoid.
pub fn concrete_type(ty: &str) -> (r: Result<String, String>)
    ensures
        match r {
            Ok(t) => t@ == bare_type(ty@) && type_problem(t@) is None,
            Err(m) => type_problem(bare_type(ty@)) == Some(m@),
        },
{
    let outer = trim(ty);
    let inner = strip_ticks(outer.as_str());
    let t = trim(inner.as_str());
    let v = chars_of(t.as_str());

    if v.len() == 0 {
        return Err(owned("the compiler named an empty type"));
    }
    if same(t.as_str(), "_") {
        return Err(owned("the compiler said the type is `_`, i.e. still unresolved"));
    }
    if starts_with(t.as_str(), "{") && crate::text::ends_with(t.as_str(), "}") {
        // `{integer}` / `{float}`: inference never settled on a concrete type.
        return Err(in_ticks(t.as_str(), "` is an unresolved inference variable, not a type"));
    }
    if starts_with(t.as_str(), "impl ") {
        return Err(in_ticks(t.as_str(), "` is an opaque type, which cannot be written by name"));
    }
    // A bare single-uppercase-letter path is a generic parameter.
    if v.len() == 1 && 'A' <= v[0] && v[0] <= 'Z' {
        return Err(in_ticks(t.as_str(), "` is a generic type parameter, so it is not concrete"));
    }
    Ok(t)
}

/// The first type that any text from `i` on names.
pub open spec fn first_expected(texts: Seq<Seq<char>>, i: int) -> Option<Seq<char>>
    decreases texts.len() - i,
{
    if i >= texts.len() {
        None
    } else if expected_in(texts[i]) is Some {
        expected_in(texts[i])
    } else {
        first_expected(texts, i + 1)
    }
}

/// The type a diagnostic names.
pub open spec fn type_named(d: Diagnostic) -> Option<Seq<char>> {
    first_expected(texts_of(d), 0)
}

/// Whether a diagnostic is an `E0308` about a unit value.
pub open spec fn is_unit_mismatch(d: Diagnostic) -> bool {
    &&& is_error(d)
    &&& opt_view(d.code) == Some("E0308"@)
    &&& exists|i: int| 0 <= i < texts_of(d).len() && mentions_unit(#[trigger] texts_of(d)[i])
}

impl Diagnostic {
    /// The type this diagnostic names.
    pub fn expected_type(&self) -> (r: Option<String>)
        ensures
            opt_view(r) == type_named(*self),
    {
        let texts = self.texts();
        let mut i: usize = 0;
        while i < texts.len()
            invariant
                i <= texts@.len(),
                views(texts@) == texts_of(*self),
                type_named(*self) == first_expected(texts_of(*self), i as int),
            decreases texts.len() - i,
        {
            proof {
                assert(views(texts@)[i as int] == texts@[i as int]@);
            }
            if let Some(ty) = expected_type_from(texts[i].as_str()) {
                return Some(ty);
            }
            i = i + 1;
        }
        proof {
            assert(views(texts@).len() == texts@.len());
        }
        None
    }

    /// Whether this is an `E0308` about a unit value.
    pub fn is_unit_mismatch(&self) -> (r: bool)
        ensures
            r == is_unit_mismatch(*self),
    {
        if !self.is_error() {
            return false;
        }
        match &self.code {
            None => {
                return false;
            },
            Some(c) => if !same(c.as_str(), "E0308") {
                return false;
            },
        }
        let texts = self.texts();
        let mut i: usize = 0;
        while i < texts.len()
            invariant
                i <= texts@.len(),
                views(texts@) == texts_of(*self),
                forall|k: int| 0 <= k < i ==> !mentions_unit(#[trigger] texts_of(*self)[k]),
                is_error(*self),
                opt_view(self.code) == Some("E0308"@),
            decreases texts.len() - i,
        {
            proof {
                assert(views(texts@)[i as int] == texts@[i as int]@);
            }
            if mentions_unit_value(texts[i].as_str()) {
                assert(mentions_unit(texts_of(*self)[i as int]));
                return true;
            }
            i = i + 1;
        }
        proof {
            assert(views(texts@).len() == texts@.len());
        }
        false
    }
}

/// Whether a diagnostic is about the `()` that was put in for a hole.
pub open spec fn is_attributable(
    table: PathTable,
    root: Seq<char>,
    d: Diagnostic,
    hole: HoleView,
) -> bool {
    is_unit_mismatch(d) && is_near(
        table,
        root,
        d,
        hole.file,
        hole.byte_start,
        ATTRIBUTION_WINDOW as int,
    )
}

/// Is this diagnostic an `E0308` that attributes to the hole?
///
/// `Err(())` means "nothing to do with us"; `Ok(None)` means "it is about our
/// `()` but named no type"; `Ok(Some(t))` means "it named `t`".
pub fn attributable_e0308(d: &Diagnostic, hole: &Hole, table: &PathTable, root: &str) -> (r: Result<
    Option<String>,
    (),
>)
    ensures
        match r {
            Ok(t) => is_attributable(*table, root@, *d, hole@) && opt_view(t) == type_named(*d),
            Err(()) => !is_attributable(*table, root@, *d, hole@),
        },
{
    if !d.is_unit_mismatch() {
        return Err(());
    }
    if !d.is_within(table, hole.file.as_str(), root, hole.byte_start, ATTRIBUTION_WINDOW) {
        return Err(());
    }
    Ok(d.expected_type())
}

// ---------------------------------------------------------------------------
// A finished check
// ---------------------------------------------------------------------------

/// A finished `cargo check`.
#[derive(Debug)]
pub struct CheckRun {
    pub diagnostics: Vec<Diagnostic>,
    /// Cargo's own stderr, for messages when there are no diagnostics.
    pub stderr: String,
}

/// The errors among some diagnostics, in order.
pub open spec fn errors_of(ds: Seq<Diagnostic>) -> Seq<Diagnostic>
    decreases ds.len(),
{
    if ds.len() == 0 {
        seq![]
    } else if is_error(ds.last()) {
        errors_of(ds.drop_last()).push(ds.last())
    } else {
        errors_of(ds.drop_last())
    }
}

/// What references refer to.
pub open spec fn referents(refs: Seq<&Diagnostic>) -> Seq<Diagnostic> {
    Seq::new(refs.len(), |i: int| *refs[i])
}

/// An error in a summary: its code, when it has one, and its headline.
pub open spec fn headline(d: Diagnostic) -> Seq<char> {
    match d.code {
        Some(c) => c@ + ": "@ + d.message@,
        None => d.message@,
    }
}

/// The headlines of the first `n` errors.
pub open spec fn headlines(errs: Seq<Diagnostic>, n: int) -> Seq<Seq<char>> {
    Seq::new(
        if errs.len() < n {
            errs.len()
        } else {
            n as nat
        },
        |i: int| headline(errs[i]),
    )
}

/// A one-line summary of the errors of a run.
pub open spec fn summary_of_run(run: CheckRun) -> Seq<char> {
    let errs = errors_of(run.diagnostics@);
    if errs.len() == 0 {
        let stderr = trim_of(run.stderr@);
        if stderr.len() == 0 {
            "cargo check failed with no diagnostics"@
        } else {
            "cargo check failed: "@ + truncated(stderr, 300)
        }
    } else {
        let line = decimal_of(errs.len()) + " error(s): "@ + join_of(headlines(errs, 3), "; "@);
        if errs.len() > 3 {
            line + "; ..."@
        } else {
            line
        }
    }
}

impl CheckRun {
    /// Every error in the run.
    pub fn errors(&self) -> (r: Vec<&Diagnostic>)
        ensures
            referents(r@) == errors_of(self.diagnostics@),
    {
        let mut out: Vec<&Diagnostic> = Vec::new();
        let mut i: usize = 0;
        proof {
            assert(self.diagnostics@.take(0) =~= Seq::<Diagnostic>::empty());
            assert(referents(out@) =~= Seq::<Diagnostic>::empty());
        }
        while i < self.diagnostics.len()
            invariant
                i <= self.diagnostics@.len(),
                referents(out@) == errors_of(self.diagnostics@.take(i as int)),
            decreases self.diagnostics.len() - i,
        {
            let d = &self.diagnostics[i];
            proof {
                assert(self.diagnostics@.take(i + 1).drop_last() =~= self.diagnostics@.take(
                    i as int,
                ));
                assert(self.diagnostics@.take(i + 1).last() == *d);
                assert(referents(out@.push(d)) =~= referents(out@).push(*d));
            }
            if d.is_error() {
                out.push(d);
            }
            i = i + 1;
        }
        proof {
            assert(self.diagnostics@.take(self.diagnostics@.len() as int) =~= self.diagnostics@);
        }
        out
    }

    /// How many errors the run produced.
    pub fn error_count(&self) -> (r: usize)
        ensures
            r == errors_of(self.diagnostics@).len(),
    {
        let errs = self.errors();
        proof {
            assert(referents(errs@).len() == errs@.len());
        }
        errs.len()
    }

    /// Whether the crate compiled cleanly.
    pub fn is_clean(&self) -> (r: bool)
        ensures
            r == (errors_of(self.diagnostics@).len() == 0),
    {
        self.error_count() == 0
    }

    /// A one-line summary of the errors, for user-facing messages.
    pub fn error_summary(&self) -> (r: String)
        ensures
            r@ == summary_of_run(*self),
    {
        let errs = self.errors();
        let ghost all = errors_of(self.diagnostics@);
        proof {
            assert(referents(errs@).len() == errs@.len());
        }
        if errs.len() == 0 {
            let stderr = trim(self.stderr.as_str());
            if stderr.as_str().unicode_len() == 0 {
                return owned("cargo check failed with no diagnostics");
            }
            let mut m = owned("cargo check failed: ");
            m.push_str(truncate(stderr.as_str(), 300).as_str());
            return m;
        }
        let shown: usize = if errs.len() < 3 {
            errs.len()
        } else {
            3
        };
        let mut heads: Vec<String> = Vec::new();
        let mut i: usize = 0;
        while i < shown
            invariant
                i <= shown <= errs@.len(),
                all == referents(errs@),
                headlines(all, 3).len() == shown,
                views(heads@) == headlines(all, 3).take(i as int),
            decreases shown - i,
        {
            let d = errs[i];
            let line = match &d.code {
                Some(c) => {
                    let mut m = owned(c.as_str());
                    m.push_str(": ");
                    m.push_str(d.message.as_str());
                    m
                },
                None => owned(d.message.as_str()),
            };
            proof {
                assert(all[i as int] == *d);
                assert(views(heads@.push(line)) =~= views(heads@).push(line@));
                assert(headlines(all, 3).take(i + 1) =~= headlines(all, 3).take(i as int).push(
                    line@,
                ));
            }
            heads.push(line);
            i = i + 1;
        }
        proof {
            assert(headlines(all, 3).take(shown as int) =~= headlines(all, 3));
        }
        let mut m = decimal_usize(errs.len());
        m.push_str(" error(s): ");
        m.push_str(join_texts(&heads, "; ").as_str());
        if errs.len() > 3 {
            m.push_str("; ...");
        }
        m
    }
}

} // verus!
