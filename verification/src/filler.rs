//! Asking for one expression per hole, and reading the answers.
//!
//! The prompt carries the spec, the hole's position, and — when the type probe
//! can find one — the type rustc expects at that position. The expected type is
//! the difference between asking a model to invent a value and asking it to
//! produce one of a known type.
use vstd::prelude::*;

use crate::hole::{location_of, position_name, Hole, HoleIndex, HoleView};
use crate::path::{is_same_path, same_path};
use crate::prober::{OutcomeView, ProbeOutcome};
use crate::text::{
    begins, chars_of, decimal, decimal_of, decimal_usize, find_in, find_of, lemma_find_occurs,
    occurs_at, opt_view, owned, rfind_in, rfind_of, string_of, strip_prefix, trim, trim_of, views,
};
use crate::util::{display_rel_path, shown_path};

verus! {

pub const OPEN_MARKER: &'static str = "<<<HOLE>>>";

pub const CLOSE_MARKER: &'static str = "<<<END>>>";

/// How many compiler errors to quote back when asking again for a hole.
///
/// Capped because one bad answer can produce a long cascade, and the first few
/// errors already say what is wrong. The rest would only crowd the prompt.
pub const MAX_REPORTED_ERRORS: usize = 8;

// ---------------------------------------------------------------------------
// Reading a reply
// ---------------------------------------------------------------------------

/// `body` without a ``` fence (with or without a language tag) around it.
pub open spec fn unfenced(body: Seq<char>) -> Seq<char> {
    let t = trim_of(body);
    if !begins(t, "```"@) {
        t
    } else {
        let rest = t.skip("```"@.len() as int);
        match find_of(rest, "\n"@) {
            None => t,
            Some(nl) => {
                let inner = rest.skip(nl + 1);
                match rfind_of(inner, "```"@) {
                    Some(end) => trim_of(inner.take(end)),
                    None => trim_of(inner),
                }
            },
        }
    }
}

/// The part of a reply that holds the answer: what stands between the markers,
/// or all of it where they do not stand in order.
pub open spec fn marked_part(reply: Seq<char>) -> Seq<char> {
    match (find_of(reply, OPEN_MARKER@), find_of(reply, CLOSE_MARKER@)) {
        (Some(open), Some(close)) => if close > open {
            reply.subrange(open + OPEN_MARKER@.len(), close)
        } else {
            reply
        },
        _ => reply,
    }
}

/// The expression in a reply; empty where there is none.
pub open spec fn expression_in(raw: Seq<char>) -> Seq<char> {
    trim_of(unfenced(marked_part(trim_of(raw))))
}

/// Why a reply holds no expression, if it holds none.
pub open spec fn reply_error(raw: Seq<char>) -> Option<Seq<char>> {
    if trim_of(raw).len() == 0 {
        Some("the model returned an empty reply."@)
    } else if expression_in(raw).len() == 0 {
        Some("the model's reply had no expression in it."@)
    } else {
        None
    }
}

/// Strip a ``` fence (with or without a language tag) around `body`.
pub fn strip_fences(body: &str) -> (r: String)
    ensures
        r@ == unfenced(body@),
{
    let t = trim(body);
    let rest = match strip_prefix(t.as_str(), "```") {
        Some(rest) => rest,
        None => {
            return t;
        },
    };
    // Drop the language tag on the opening fence, if any.
    let v = chars_of(rest.as_str());
    let newline = chars_of("\n");
    let n: usize = v.len();
    proof {
        reveal_strlit("\n");
    }
    let nl: usize = match find_in(&v, &newline, 0) {
        Some(i) => i,
        None => {
            return t;
        },
    };
    proof {
        assert(v@.subrange(nl + 1, n as int) =~= v@.skip(nl + 1));
    }
    let inner = string_of(&v, nl + 1, n);
    let w = chars_of(inner.as_str());
    let fence = chars_of("```");
    match rfind_in(&w, &fence) {
        Some(end) => {
            proof {
                assert(w@.subrange(0, end as int) =~= w@.take(end as int));
            }
            let cut = string_of(&w, 0, end);
            trim(cut.as_str())
        },
        None => trim(inner.as_str()),
    }
}

/// A closing marker after an opening one comes after all of it.
proof fn lemma_markers_do_not_overlap(s: Seq<char>, open: int, close: int)
    requires
        occurs_at(s, OPEN_MARKER@, open),
        occurs_at(s, CLOSE_MARKER@, close),
        close > open,
    ensures
        open + OPEN_MARKER@.len() <= close,
{
    reveal_strlit("<<<HOLE>>>");
    reveal_strlit("<<<END>>>");
    let o = s.subrange(open, open + OPEN_MARKER@.len());
    let c = s.subrange(close, close + CLOSE_MARKER@.len());
    assert(OPEN_MARKER@.len() == 10);
    assert(CLOSE_MARKER@.len() == 9);
    assert(c[0] == '<' && c[1] == '<' && c[2] == '<');
    assert(o[3] == 'H' && o[4] == 'O' && o[5] == 'L' && o[6] == 'E' && o[7] == '>' && o[8] == '>'
        && o[9] == '>');
    assert(s[close] == c[0] && s[close + 1] == c[1] && s[close + 2] == c[2]);
    if close < open + 10 {
        let k = close - open;
        assert(s[open + k] == o[k]);
        assert(s[open + 3] == o[3]);
    }
}

/// Pull the expression out of a model reply.
///
/// Prefers the explicit markers the prompt asks for, then falls back to the
/// whole reply: models routinely wrap an otherwise-correct answer in prose or a
/// code fence, and rejecting it over formatting would be unhelpful. Splicing the
/// raw reply instead would put the markers themselves into the source file.
pub fn extract_expression(raw: &str) -> (r: Result<String, String>)
    ensures
        match r {
            Ok(code) => reply_error(raw@) is None && code@ == expression_in(raw@),
            Err(m) => reply_error(raw@) == Some(m@),
        },
{
    let trimmed = trim(raw);
    let v = chars_of(trimmed.as_str());
    if v.len() == 0 {
        return Err(owned("the model returned an empty reply."));
    }
    let open_marker = chars_of(OPEN_MARKER);
    let close_marker = chars_of(CLOSE_MARKER);
    let mut body = trimmed;
    match (find_in(&v, &open_marker, 0), find_in(&v, &close_marker, 0)) {
        (Some(open), Some(close)) => {
            if close > open {
                proof {
                    lemma_find_occurs(v@, OPEN_MARKER@, 0);
                    lemma_find_occurs(v@, CLOSE_MARKER@, 0);
                    lemma_markers_do_not_overlap(v@, open as int, close as int);
                }
                body = string_of(&v, open + open_marker.len(), close);
            }
        },
        _ => {},
    }
    let bare = strip_fences(body.as_str());
    let cleaned = trim(bare.as_str());
    if cleaned.as_str().unicode_len() == 0 {
        return Err(owned("the model's reply had no expression in it."));
    }
    Ok(cleaned)
}

// ---------------------------------------------------------------------------
// Prompts
// ---------------------------------------------------------------------------

/// An optional outcome as plain text.
pub open spec fn opt_outcome_ref(o: Option<&ProbeOutcome>) -> Option<OutcomeView> {
    match o {
        Some(x) => Some(x@),
        None => None,
    }
}

/// What the prompt says about the expected type, if anything.
pub open spec fn type_hint(expected: Option<OutcomeView>) -> Option<Seq<char>> {
    match expected {
        Some(OutcomeView::Known(ty)) => Some(ty),
        Some(OutcomeView::NoExpectation) => Some(
            "none discovered -- infer it from the specification"@,
        ),
        _ => None,
    }
}

/// Render the probe's verdict as a line for the prompt.
///
/// `None` means no line is emitted at all, which is the right answer for
/// `--no-probe` and for a probe that could not run: inventing "unknown" as an
/// expected type would only invite the model to guess at a type that was never
/// established.
pub fn expected_type_hint(expected: Option<&ProbeOutcome>) -> (r: Option<String>)
    ensures
        opt_view(r) == type_hint(opt_outcome_ref(expected)),
{
    match expected {
        None => None,
        Some(outcome) => match outcome {
            ProbeOutcome::Known(ty) => Some(ty.clone()),
            // Said plainly rather than omitted, so the model does not assume a
            // type was checked and found to be something obvious.
            ProbeOutcome::NoExpectation => Some(
                owned("none discovered -- infer it from the specification"),
            ),
            ProbeOutcome::ProbeFailed(_) => None,
            ProbeOutcome::Broken(_) => None,
        },
    }
}

/// The prompt for a hole.
pub open spec fn prompt_text(
    root: Seq<char>,
    h: HoleView,
    expected: Option<OutcomeView>,
    feedback: Option<Seq<char>>,
) -> Seq<char> {
    let hint = match type_hint(expected) {
        Some(ty) => "Expected type: "@ + ty + "\n"@,
        None => ""@,
    };
    let complaint = match feedback {
        Some(fb) => "\n\n"@ + fb,
        None => ""@,
    };
    "File: "@ + shown_path(root, h.file) + "\nLine: "@ + decimal_of(h.line as nat)
        + "\nPosition: "@ + position_name(h.position) + "\n"@ + hint + "\nSpecification:\n"@ + h.spec
        + "\n\nImplement just this one hole. Reply with one expression between "@ + OPEN_MARKER@
        + " and "@ + CLOSE_MARKER@ + "."@ + complaint
}

/// The feedback after an answer that did not compile: the first few errors, and
/// how many more there were.
pub open spec fn compile_feedback(errors: Seq<Seq<char>>) -> Seq<char> {
    let shown = if errors.len() < MAX_REPORTED_ERRORS {
        errors.len()
    } else {
        MAX_REPORTED_ERRORS as nat
    };
    let more = if errors.len() > MAX_REPORTED_ERRORS {
        "  (and "@ + decimal_of((errors.len() - MAX_REPORTED_ERRORS) as nat) + " more error(s))\n"@
    } else {
        ""@
    };
    "Your previous answer compiled with errors. Fix it. The compiler reported:\n"@ + bullets(
        errors,
        shown as int,
    ) + more
}

/// The first `n` errors as a list.
pub open spec fn bullets(errors: Seq<Seq<char>>, n: int) -> Seq<char>
    decreases n,
{
    if n <= 0 {
        seq![]
    } else {
        bullets(errors, n - 1) + "  - "@ + errors[n - 1] + "\n"@
    }
}

/// The feedback for asking again about an answer that failed the compile gate.
///
/// A bare retry would ask the same question with the same information and tend
/// to get the same answer back.
pub fn refill_feedback(errors: &Vec<String>) -> (r: String)
    ensures
        r@ == compile_feedback(views(errors@)),
{
    let ghost all = views(errors@);
    let n: usize = errors.len();
    let shown: usize = if n < MAX_REPORTED_ERRORS {
        n
    } else {
        MAX_REPORTED_ERRORS
    };
    let mut list = String::new();
    let mut i: usize = 0;
    proof {
        assert(list@ =~= bullets(all, 0));
    }
    while i < shown
        invariant
            i <= shown <= errors@.len(),
            all == views(errors@),
            list@ == bullets(all, i as int),
        decreases shown - i,
    {
        proof {
            assert(all[i as int] == errors@[i as int]@);
        }
        list.push_str("  - ");
        list.push_str(errors[i].as_str());
        list.push_str("\n");
        i = i + 1;
    }
    let mut more = owned("");
    if n > MAX_REPORTED_ERRORS {
        more = owned("  (and ");
        more.push_str(decimal_usize(n - MAX_REPORTED_ERRORS).as_str());
        more.push_str(" more error(s))\n");
    }
    proof {
        assert(all.len() == n);
    }
    let mut out = owned(
        "Your previous answer compiled with errors. Fix it. The compiler reported:\n",
    );
    out.push_str(list.as_str());
    out.push_str(more.as_str());
    out
}

// ---------------------------------------------------------------------------
// Expectations
// ---------------------------------------------------------------------------

/// What the probe learned, keyed by hole so it can be looked up later.
#[derive(Debug)]
pub struct Expectations {
    pub entries: Vec<(HoleIndex, ProbeOutcome)>,
}

/// Whether two keys mean the same hole.
pub open spec fn same_key(a: HoleIndex, file: Seq<char>, start: usize, end: usize) -> bool {
    is_same_path(a.0@, file) && a.1 == start && a.2 == end
}

/// The outcome recorded last for a hole, among the first `n` entries.
pub open spec fn recorded(
    entries: Seq<(HoleIndex, ProbeOutcome)>,
    file: Seq<char>,
    start: usize,
    end: usize,
    n: int,
) -> Option<OutcomeView>
    decreases n,
{
    if n <= 0 {
        None
    } else if same_key(entries[n - 1].0, file, start, end) {
        Some(entries[n - 1].1@)
    } else {
        recorded(entries, file, start, end, n - 1)
    }
}

impl Expectations {
    /// What is known about a hole.
    pub open spec fn known(self, h: HoleView) -> Option<OutcomeView> {
        recorded(
            self.entries@,
            h.file,
            h.byte_start,
            h.byte_end,
            self.entries@.len() as int,
        )
    }

    /// Nothing known yet.
    pub fn new() -> (r: Expectations)
        ensures
            forall|h: HoleView| #[trigger] r.known(h) is None,
    {
        Expectations { entries: Vec::new() }
    }

    /// Record what was learned about a hole, in place of what was known.
    pub fn insert(&mut self, hole: &Hole, outcome: ProbeOutcome)
        ensures
            forall|h: HoleView| #[trigger]
                final(self).known(h) == if is_same_path(hole@.file, h.file) && hole@.byte_start
                    == h.byte_start && hole@.byte_end == h.byte_end {
                    Some(outcome@)
                } else {
                    old(self).known(h)
                },
    {
        let ghost before = self.entries@;
        let key = hole.index_key();
        self.entries.push((key, outcome));
        proof {
            let now = self.entries@;
            let n = before.len() as int;
            assert forall|h: HoleView| #[trigger] self.known(h) == if is_same_path(
                hole@.file,
                h.file,
            ) && hole@.byte_start == h.byte_start && hole@.byte_end == h.byte_end {
                Some(outcome@)
            } else {
                old(self).known(h)
            } by {
                lemma_recorded_prefix(before, now, h.file, h.byte_start, h.byte_end, n);
            }
        }
    }

    /// What is known about a hole.
    pub fn get(&self, hole: &Hole) -> (r: Option<&ProbeOutcome>)
        ensures
            opt_outcome_ref(r) == self.known(hole@),
    {
        let mut n: usize = self.entries.len();
        while n > 0
            invariant
                n <= self.entries@.len(),
                self.known(hole@) == recorded(
                    self.entries@,
                    hole@.file,
                    hole@.byte_start,
                    hole@.byte_end,
                    n as int,
                ),
            decreases n,
        {
            let e = &self.entries[n - 1];
            if same_path(e.0.0.as_str(), hole.file.as_str()) && e.0.1 == hole.byte_start && e.0.2
                == hole.byte_end {
                return Some(&e.1);
            }
            n = n - 1;
        }
        None
    }
}

proof fn lemma_recorded_prefix(
    a: Seq<(HoleIndex, ProbeOutcome)>,
    b: Seq<(HoleIndex, ProbeOutcome)>,
    file: Seq<char>,
    start: usize,
    end: usize,
    n: int,
)
    requires
        0 <= n <= a.len() <= b.len(),
        forall|i: int| 0 <= i < a.len() ==> a[i] == b[i],
    ensures
        recorded(a, file, start, end, n) == recorded(b, file, start, end, n),
    decreases n,
{
    if n > 0 {
        lemma_recorded_prefix(a, b, file, start, end, n - 1);
    }
}

// ---------------------------------------------------------------------------
// Filling a hole
// ---------------------------------------------------------------------------

/// Fills holes by asking an agent for one expression per hole.
#[derive(Debug)]
pub struct Filler {
    pub root: String,
    /// Off with `--no-probe`: the prompt then carries no expected type and no
    /// hole costs a `cargo check`.
    pub probing: bool,
}

/// How to go about a hole.
#[derive(Debug)]
pub enum FillStart<'k> {
    /// Ask right away, with this expectation.
    Ask { expected: Option<&'k ProbeOutcome> },
    /// Probe the hole first, and ask with what the probe finds.
    Probe,
}

/// Why a hole is never filled, if it is not.
pub open spec fn refusal(h: HoleView) -> Option<Seq<char>> {
    if h.pinned {
        Some(location_of(h) + " is pinned, so it is never regenerated"@)
    } else {
        match h.unresolvable {
            Some(reason) => Some(
                "the byte range of "@ + location_of(h) + " could not be validated ("@ + reason
                    + "), so it is never patched"@,
            ),
            None => None,
        }
    }
}

/// The warning about a hole that could not be probed.
pub open spec fn broken_probe_warning(h: HoleView, reason: Seq<char>) -> Seq<char> {
    "warning: could not probe "@ + location_of(h) + ": "@ + reason
        + "; filling from the spec alone"@
}

/// The warnings for the first `n` holes, one for each broken probe.
pub open spec fn broken_probe_warnings(
    holes: Seq<Hole>,
    outcomes: Seq<ProbeOutcome>,
    n: int,
) -> Seq<Seq<char>>
    decreases n,
{
    if n <= 0 {
        seq![]
    } else {
        let front = broken_probe_warnings(holes, outcomes, n - 1);
        match outcomes[n - 1]@ {
            OutcomeView::Broken(e) => front.push(broken_probe_warning(holes[n - 1]@, e)),
            _ => front,
        }
    }
}

/// What is known of hole `h` after recording the outcomes of the first `n`
/// holes in turn.
pub open spec fn learned(
    holes: Seq<Hole>,
    outcomes: Seq<OutcomeView>,
    h: HoleView,
    n: int,
) -> Option<OutcomeView>
    decreases n,
{
    if n <= 0 {
        None
    } else if is_same_path(holes[n - 1]@.file, h.file) && holes[n - 1]@.byte_start == h.byte_start
        && holes[n - 1]@.byte_end == h.byte_end {
        Some(outcomes[n - 1])
    } else {
        learned(holes, outcomes, h, n - 1)
    }
}

/// Outcomes as plain text.
pub open spec fn outcome_views(outcomes: Seq<ProbeOutcome>) -> Seq<OutcomeView> {
    Seq::new(outcomes.len(), |i: int| outcomes[i]@)
}

/// The warning about a hole that could not be probed: the model can still work
/// from the spec alone, so losing the whole fill over it would be a poor trade.
pub fn warn_broken_probe(hole: &Hole, reason: &str) -> (r: String)
    ensures
        r@ == broken_probe_warning(hole@, reason@),
{
    let mut m = owned("warning: could not probe ");
    m.push_str(hole.location().as_str());
    m.push_str(": ");
    m.push_str(reason);
    m.push_str("; filling from the spec alone");
    m
}

/// Why a hole may not be filled, if it may not.
fn refuse(hole: &Hole) -> (r: Option<String>)
    ensures
        opt_view(r) == refusal(hole@),
{
    if hole.pinned {
        let mut m = hole.location();
        m.push_str(" is pinned, so it is never regenerated");
        return Some(m);
    }
    if let Some(reason) = &hole.unresolvable {
        let mut m = owned("the byte range of ");
        m.push_str(hole.location().as_str());
        m.push_str(" could not be validated (");
        m.push_str(reason.as_str());
        m.push_str("), so it is never patched");
        return Some(m);
    }
    None
}

impl Filler {
    /// A filler that probes for expected types.
    pub fn new(root: String) -> (r: Filler)
        ensures
            r.root == root,
            r.probing,
    {
        Filler { root, probing: true }
    }

    /// A filler that never probes, for `--no-probe`.
    pub fn without_probe(root: String) -> (r: Filler)
        ensures
            r.root == root,
            !r.probing,
    {
        Filler { root, probing: false }
    }

    /// Record what probing every hole up front came to, so the whole run costs
    /// one `cargo check` per file instead of one per hole. Also returns a
    /// warning for every probe that could not run. A filler that does not probe
    /// learns nothing.
    pub fn probe_all(&self, holes: &Vec<Hole>, outcomes: Vec<ProbeOutcome>) -> (r: (
        Expectations,
        Vec<String>,
    ))
        requires
            self.probing ==> outcomes@.len() == holes@.len(),
        ensures
            forall|h: HoleView| #[trigger]
                r.0.known(h) == if self.probing {
                    learned(holes@, outcome_views(outcomes@), h, holes@.len() as int)
                } else {
                    None
                },
            views(r.1@) == if self.probing {
                broken_probe_warnings(holes@, outcomes@, holes@.len() as int)
            } else {
                seq![]
            },
    {
        let mut known = Expectations::new();
        let mut warnings: Vec<String> = Vec::new();
        proof {
            assert(views(warnings@) =~= Seq::<Seq<char>>::empty());
        }
        if !self.probing {
            return (known, warnings);
        }
        let ghost all = outcomes@;
        let ghost seen = outcome_views(outcomes@);
        let mut rest = outcomes;
        let n: usize = holes.len();
        let mut i: usize = 0;
        proof {
            assert(all.skip(0) =~= all);
        }
        while i < n
            invariant
                i <= n,
                n == holes@.len(),
                all.len() == n,
                rest@ == all.skip(i as int),
                seen == outcome_views(all),
                forall|h: HoleView| #[trigger] known.known(h) == learned(holes@, seen, h, i as int),
                views(warnings@) == broken_probe_warnings(holes@, all, i as int),
            decreases n - i,
        {
            let outcome = rest.remove(0);
            proof {
                assert(outcome == all[i as int]);
                assert(rest@ =~= all.skip(i + 1));
                assert(seen[i as int] == outcome@);
            }
            if let ProbeOutcome::Broken(e) = &outcome {
                let w = warn_broken_probe(&holes[i], e.as_str());
                proof {
                    assert(views(warnings@.push(w)) =~= views(warnings@).push(w@));
                }
                warnings.push(w);
            }
            known.insert(&holes[i], outcome);
            i = i + 1;
        }
        (known, warnings)
    }

    /// How to fill a hole, without anything known about it.
    pub fn fill_hole(&self, hole: &Hole) -> (r: Result<FillStart<'static>, String>)
        ensures
            match r {
                Err(m) => refusal(hole@) == Some(m@),
                Ok(FillStart::Probe) => refusal(hole@) is None && self.probing,
                Ok(FillStart::Ask { expected }) => refusal(hole@) is None && !self.probing
                    && expected is None,
            },
    {
        match self.fill_hole_with(hole, None) {
            Err(m) => Err(m),
            Ok(FillStart::Probe) => Ok(FillStart::Probe),
            Ok(FillStart::Ask { .. }) => Ok(FillStart::Ask { expected: None }),
        }
    }

    /// How to fill a hole, reusing a verdict from [`Filler::probe_all`] when one
    /// was supplied for this hole.
    ///
    /// Pinned and unresolvable holes are refused rather than filled: the caller
    /// is expected to have filtered them out already, so reaching either check
    /// is a bug worth reporting instead of patching bytes that were never
    /// validated.
    ///
    /// The probe runs at most once per hole, before the attempts: it costs a
    /// `cargo check`, and the expected type cannot change between attempts
    /// because nothing is written until one succeeds.
    pub fn fill_hole_with<'k>(&self, hole: &Hole, known: Option<&'k Expectations>) -> (r: Result<
        FillStart<'k>,
        String,
    >)
        ensures
            ({
                let verdict = match known {
                    Some(k) => k.known(hole@),
                    None => None,
                };
                match r {
                    Err(m) => refusal(hole@) == Some(m@),
                    Ok(FillStart::Probe) => refusal(hole@) is None && verdict is None
                        && self.probing,
                    Ok(FillStart::Ask { expected }) => refusal(hole@) is None && opt_outcome_ref(
                        expected,
                    ) == verdict && (verdict is Some || !self.probing),
                }
            }),
    {
        if let Some(m) = refuse(hole) {
            return Err(m);
        }
        let verdict = match known {
            Some(k) => k.get(hole),
            None => None,
        };
        if verdict.is_none() && self.probing {
            return Ok(FillStart::Probe);
        }
        Ok(FillStart::Ask { expected: verdict })
    }

    /// How to ask again for a hole whose previous answer failed the compile
    /// gate: with the same expectation, and the compiler's complaint. A hole
    /// that may not be filled is refused here too.
    ///
    /// A fresh probe is deliberately *not* run. The expected type is a property
    /// of the hole and its neighbours, and the probe never observes the filled
    /// tree. Reusing the expectation keeps the retry cheap.
    pub fn refill_hole<'k>(
        &self,
        hole: &Hole,
        known: Option<&'k Expectations>,
        errors: &Vec<String>,
    ) -> (r: Result<(Option<&'k ProbeOutcome>, String), String>)
        ensures
            match r {
                Err(m) => refusal(hole@) == Some(m@),
                Ok((expected, feedback)) => {
                    &&& refusal(hole@) is None
                    &&& opt_outcome_ref(expected) == match known {
                        Some(k) => k.known(hole@),
                        None => None,
                    }
                    &&& feedback@ == compile_feedback(views(errors@))
                },
            },
    {
        if let Some(m) = refuse(hole) {
            return Err(m);
        }
        let expected = match known {
            Some(k) => k.get(hole),
            None => None,
        };
        Ok((expected, refill_feedback(errors)))
    }

    /// The prompt for a hole.
    pub fn build_prompt(
        &self,
        hole: &Hole,
        expected: Option<&ProbeOutcome>,
        feedback: Option<&str>,
    ) -> (r: String)
        ensures
            r@ == prompt_text(
                self.root@,
                hole@,
                opt_outcome_ref(expected),
                crate::text::opt_str_view(feedback),
            ),
    {
        let mut hint = owned("");
        if let Some(ty) = expected_type_hint(expected) {
            hint = owned("Expected type: ");
            hint.push_str(ty.as_str());
            hint.push_str("\n");
        }
        let mut complaint = owned("");
        if let Some(fb) = feedback {
            complaint = owned("\n\n");
            complaint.push_str(fb);
        }
        let mut prompt = owned("File: ");
        prompt.push_str(display_rel_path(self.root.as_str(), hole.file.as_str()).as_str());
        prompt.push_str("\nLine: ");
        prompt.push_str(decimal_usize(hole.line).as_str());
        prompt.push_str("\nPosition: ");
        prompt.push_str(hole.position.as_str());
        prompt.push_str("\n");
        prompt.push_str(hint.as_str());
        prompt.push_str("\nSpecification:\n");
        prompt.push_str(hole.spec.as_str());
        prompt.push_str("\n\nImplement just this one hole. Reply with one expression between ");
        prompt.push_str(OPEN_MARKER);
        prompt.push_str(" and ");
        prompt.push_str(CLOSE_MARKER);
        prompt.push_str(".");
        prompt.push_str(complaint.as_str());
        prompt
    }
}

// ---------------------------------------------------------------------------
// The attempts
// ---------------------------------------------------------------------------

/// What to do about a hole after an attempt.
#[derive(Debug)]
pub enum AskStep {
    /// Ask (again), as attempt number `attempt`, with this feedback.
    Ask { attempt: u32, feedback: Option<String> },
    /// The answer, and the number of model calls it took.
    Answer { code: String, attempts: u32 },
    /// No attempt is left.
    GiveUp { message: String },
}

/// Steps as plain text and numbers.
#[verifier::ext_equal]
pub enum AskView {
    Ask { attempt: u32, feedback: Option<Seq<char>> },
    Answer { code: Seq<char>, attempts: u32 },
    GiveUp { message: Seq<char> },
}

impl View for AskStep {
    type V = AskView;

    open spec fn view(&self) -> AskView {
        match *self {
            AskStep::Ask { attempt, feedback } => AskView::Ask {
                attempt,
                feedback: opt_view(feedback),
            },
            AskStep::Answer { code, attempts } => AskView::Answer { code: code@, attempts },
            AskStep::GiveUp { message } => AskView::GiveUp { message: message@ },
        }
    }
}

/// A hole that could not be filled.
pub open spec fn gave_up(h: HoleView, max_attempts: u32) -> AskView {
    AskView::GiveUp {
        message: "could not fill "@ + location_of(h) + " after "@ + decimal_of(max_attempts as nat)
            + " attempt(s)"@,
    }
}

/// Attempt number `attempt`, where there may be so many.
pub open spec fn attempt_or_give_up(
    h: HoleView,
    attempt: int,
    max_attempts: u32,
    feedback: Option<Seq<char>>,
) -> AskView {
    if attempt <= max_attempts {
        AskView::Ask { attempt: attempt as u32, feedback }
    } else {
        gave_up(h, max_attempts)
    }
}

/// The feedback after a call that failed.
pub open spec fn failed_call_feedback(e: Seq<char>) -> Seq<char> {
    "Your previous reply could not be used: "@ + e
        + ". Reply with exactly one expression between <<<HOLE>>> and <<<END>>>."@
}

/// The feedback after a reply without an expression.
pub open spec fn rejected_reply_feedback(e: Seq<char>) -> Seq<char> {
    "Your previous reply was rejected: "@ + e
        + " Reply with exactly one expression between <<<HOLE>>> and <<<END>>>, and nothing else."@
}

/// What follows from a reply, or from the failure to get one.
pub open spec fn after_reply(
    h: HoleView,
    attempt: u32,
    max_attempts: u32,
    reply: Result<Seq<char>, Seq<char>>,
) -> AskView {
    match reply {
        Err(e) => attempt_or_give_up(
            h,
            attempt + 1,
            max_attempts,
            Some(failed_call_feedback(e)),
        ),
        Ok(raw) => match reply_error(raw) {
            Some(e) => attempt_or_give_up(
                h,
                attempt + 1,
                max_attempts,
                Some(rejected_reply_feedback(e)),
            ),
            None => AskView::Answer { code: expression_in(raw), attempts: attempt },
        },
    }
}

/// A reply as plain text.
pub open spec fn reply_view(reply: Result<String, String>) -> Result<Seq<char>, Seq<char>> {
    match reply {
        Ok(raw) => Ok(raw@),
        Err(e) => Err(e@),
    }
}

fn give_up(hole: &Hole, max_attempts: u32) -> (r: AskStep)
    ensures
        r@ == gave_up(hole@, max_attempts),
{
    let mut m = owned("could not fill ");
    m.push_str(hole.location().as_str());
    m.push_str(" after ");
    m.push_str(decimal(max_attempts as u64).as_str());
    m.push_str(" attempt(s)");
    AskStep::GiveUp { message: m }
}

impl Filler {
    /// Begin asking about a hole. `seed` is feedback to include in the *first*
    /// prompt, which is how a retry after a failed compile gate carries the
    /// compiler's complaint.
    pub fn ask(&self, hole: &Hole, max_attempts: u32, seed: Option<String>) -> (r: AskStep)
        ensures
            r@ == attempt_or_give_up(hole@, 1, max_attempts, opt_view(seed)),
    {
        if max_attempts == 0 {
            return give_up(hole, max_attempts);
        }
        AskStep::Ask { attempt: 1, feedback: seed }
    }

    /// Go on after attempt number `attempt`, given the agent's reply or why it
    /// gave none.
    ///
    /// A failed call is worth retrying: it is often transient (a rate limit, a
    /// restarting daemon), and nothing is written until an attempt succeeds, so
    /// a retry cannot corrupt the file.
    pub fn ask_again(
        &self,
        hole: &Hole,
        attempt: u32,
        max_attempts: u32,
        reply: Result<String, String>,
    ) -> (r: AskStep)
        requires
            1 <= attempt <= max_attempts,
        ensures
            r@ == after_reply(hole@, attempt, max_attempts, reply_view(reply)),
    {
        let feedback = match reply {
            Err(e) => {
                let mut m = owned("Your previous reply could not be used: ");
                m.push_str(e.as_str());
                m.push_str(
                    ". Reply with exactly one expression between <<<HOLE>>> and <<<END>>>.",
                );
                m
            },
            Ok(raw) => match extract_expression(raw.as_str()) {
                Ok(code) => {
                    return AskStep::Answer { code, attempts: attempt };
                },
                Err(e) => {
                    let mut m = owned("Your previous reply was rejected: ");
                    m.push_str(e.as_str());
                    m.push_str(
                        " Reply with exactly one expression between <<<HOLE>>> and <<<END>>>, and nothing else.",
                    );
                    m
                },
            },
        };
        if attempt == max_attempts {
            return give_up(hole, max_attempts);
        }
        AskStep::Ask { attempt: attempt + 1, feedback: Some(feedback) }
    }
}

/// Asking ends: every attempt answers, gives up, or is followed by the next
/// one, and there are never more than allowed. An answer is never empty.
pub proof fn lemma_attempts_are_bounded(
    h: HoleView,
    attempt: u32,
    max_attempts: u32,
    reply: Result<Seq<char>, Seq<char>>,
)
    requires
        1 <= attempt <= max_attempts,
    ensures
        match after_reply(h, attempt, max_attempts, reply) {
            AskView::Ask { attempt: next, feedback } => next == attempt + 1 && next <= max_attempts
                && feedback is Some,
            AskView::Answer { code, attempts } => code.len() > 0 && attempts == attempt,
            AskView::GiveUp { .. } => attempt == max_attempts,
        },
{
}

/// A pinned or unresolvable hole is always refused, whatever is known about it.
pub proof fn lemma_pins_are_respected(h: HoleView)
    ensures
        refusal(h) is Some <==> h.pinned || h.unresolvable is Some,
{
}

} // verus!
