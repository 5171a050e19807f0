//! The compile gate: the one thing that makes the ledger trustworthy.
//!
//! The ledger records an answer for a hole only once the generated tree has
//! compiled. This module decides that: it says what text is to be checked, and
//! what a check of it means.
//!
//! A hole is `todo!("spec: ...")`, whose type is `!`, which coerces to every
//! type, so a crate full of unelaborated holes compiles cleanly. The compile gate must
//! therefore put the generated code into the compilation unit before checking
//! it, for every file at once, and the verdict is for the whole tree: a hole's
//! answer can depend on what another hole was filled with, so "this hole
//! compiled" is not a property a single hole can have.
//!
//! A rejection is only useful if it says *which* answers are at fault, because
//! the caller can then re-ask for those and keep the rest. Every error is mapped
//! to the hole whose generated code it lands in, using the byte ranges in the
//! checked text that [`crate::splice::splice_many`] hands back.
use vstd::prelude::*;
use vstd::utf8::encode_utf8;

use crate::bytes::byte_len;
use crate::finder::text_at;
use crate::hole::{clone_opt, get, location_of, sliceable, Hole, HoleView};
use crate::order::order_of;
use crate::patching::{debug_format, debug_text};
use crate::path::{join, joined};
use crate::prober::{
    errors_of, is_same_file, referents, same_file, CheckRun, Diagnostic, PathTable, Span,
};
use crate::splice::{
    anchor, edit_keys, inserted, left_to_right, lemma_accepted_edits_are_disjoint,
    lemma_region_holds_replacement, splice_error, splice_many, spliced, Edit,
};
use crate::text::{
    begins, decimal_of, decimal_usize, opt_view, owned, replace_char, replaced, same, starts_with,
};
use crate::util::{truncate, truncated};

verus! {

/// Where one hole's generated code ended up in the checked text.
///
/// A byte range rather than a copy of the code, because the only question asked
/// of a region is which diagnostics land inside it.
#[derive(Debug, PartialEq, Eq)]
pub struct Region {
    pub hole: Hole,
    /// Start of the generated code in the file's checked text.
    pub byte_start: usize,
    /// End of it, exclusive.
    pub byte_end: usize,
}

impl Clone for Region {
    fn clone(&self) -> (r: Self)
        ensures
            r == *self,
    {
        Region {
            hole: self.hole.clone(),
            byte_start: self.byte_start,
            byte_end: self.byte_end,
        }
    }
}

/// Whether a byte lies in a region, or right after it.
pub open spec fn region_contains(r: Region, byte: usize) -> bool {
    r.byte_start <= byte <= r.byte_end
}

impl Region {
    /// Whether `byte` lies in the region, or right after it.
    pub fn contains(&self, byte: usize) -> (r: bool)
        ensures
            r == region_contains(*self, byte),
    {
        self.byte_start <= byte && byte <= self.byte_end
    }
}

/// One file to check: the path on disk, the text that should be there while the
/// check runs, and where each generated answer sits in that text.
///
/// `checked` is the artifact `fill` just produced, which may hold answers
/// replayed from the ledger as well as freshly generated ones. Both are in the
/// check, because old and new answers can depend on each other: verifying only
/// the new ones would not verify anything.
#[derive(Debug, PartialEq, Eq)]
pub struct Patch {
    pub file: String,
    pub checked: String,
    pub regions: Vec<Region>,
}

/// How far past the end of generated code a diagnostic may sit and still be
/// blamed on it.
///
/// Small on purpose. This is a fallback for rustc spanning a trailing token, not
/// a blame window: a genuine error in generated code has a primary span inside
/// it, and a wide window here would let one answer swallow the next hole's error.
pub const NEAR_MISS: usize = 2;

/// The positions, among the first `n`, of the answers that are there.
pub open spec fn filled(answers: Seq<(&Hole, Option<&str>)>, n: int) -> Seq<int>
    decreases n,
{
    if n <= 0 {
        seq![]
    } else if answers[n - 1].1 is Some {
        filled(answers, n - 1).push(n - 1)
    } else {
        filled(answers, n - 1)
    }
}

/// Why an answer cannot be put over its hole, if it cannot.
pub open spec fn answer_error(src: Seq<char>, h: HoleView) -> Option<Seq<char>> {
    let (start, end) = (h.byte_start as int, h.byte_end as int);
    if !sliceable(src, start, end) {
        Some("hole "@ + location_of(h) + " is out of range"@)
    } else if !begins(text_at(src, start, end), h.macro_name) {
        Some(
            location_of(h) + " no longer starts a `"@ + h.macro_name + "!` (found "@ + debug_text(
                truncated(text_at(src, start, end), 40),
            ) + "); the file changed since the holes were listed"@,
        )
    } else {
        None
    }
}

/// The error of the first answer, at the positions from `k` on, that cannot be
/// put over its hole.
pub open spec fn first_answer_error(
    src: Seq<char>,
    answers: Seq<(&Hole, Option<&str>)>,
    at: Seq<int>,
    k: int,
) -> Option<Seq<char>>
    decreases at.len() - k,
{
    if k >= at.len() {
        None
    } else if answer_error(src, answers[at[k]].0@) is Some {
        answer_error(src, answers[at[k]].0@)
    } else {
        first_answer_error(src, answers, at, k + 1)
    }
}

/// The edit that puts an answer over its hole.
pub open spec fn answer_edit<'a>(answer: (&Hole, Option<&'a str>)) -> Edit<'a> {
    Edit {
        byte_start: answer.0.byte_start,
        byte_end: answer.0.byte_end,
        replacement: answer.1->0,
    }
}

/// The edits for the answers that are there.
pub open spec fn answer_edits<'a>(answers: Seq<(&Hole, Option<&'a str>)>) -> Seq<Edit<'a>> {
    let at = filled(answers, answers.len() as int);
    Seq::new(at.len(), |k: int| answer_edit(answers[at[k]]))
}

/// Why the answers cannot be put over their holes, if they cannot.
pub open spec fn answers_error(src: Seq<char>, answers: Seq<(&Hole, Option<&str>)>) -> Option<
    Seq<char>,
> {
    let at = filled(answers, answers.len() as int);
    if first_answer_error(src, answers, at, 0) is Some {
        first_answer_error(src, answers, at, 0)
    } else {
        splice_error(encode_utf8(src), answer_edits(answers))
    }
}

/// Whether a patch is a text with the answers over their holes, and has one region
/// for each answer: where it landed.
pub open spec fn is_spliced(p: Patch, src: Seq<char>, answers: Seq<(&Hole, Option<&str>)>) -> bool {
    let b = encode_utf8(src);
    let at = filled(answers, answers.len() as int);
    let edits = answer_edits(answers);
    &&& encode_utf8(p.checked@) == spliced(b, left_to_right(edits))
    &&& p.regions@.len() == at.len()
    &&& forall|k: int| 0 <= k < at.len() ==> (#[trigger] p.regions@[k]).hole == *answers[at[k]].0
    &&& forall|k: int|
        0 <= k < at.len() ==> p.regions@[#[trigger] order_of(
            edit_keys(edits),
        )[k] as int].byte_start == anchor(b, left_to_right(edits), k)
    &&& forall|k: int|
        0 <= k < at.len() ==> (#[trigger] p.regions@[k]).byte_end == p.regions@[k].byte_start
            + inserted(edits[k]).len()
    &&& forall|k: int|
        0 <= k < at.len() ==> (#[trigger] p.regions@[k]).byte_end <= encode_utf8(
            p.checked@,
        ).len() && encode_utf8(p.checked@).subrange(
            p.regions@[k].byte_start as int,
            p.regions@[k].byte_end as int,
        ) == inserted(edits[k])
}

/// The first region from `i` on that contains a byte.
pub open spec fn first_containing(regions: Seq<Region>, byte: usize, i: int) -> Option<int>
    decreases regions.len() - i,
{
    if i >= regions.len() {
        None
    } else if region_contains(regions[i], byte) {
        Some(i)
    } else {
        first_containing(regions, byte, i + 1)
    }
}

/// How far past a region a byte lies.
pub open spec fn past(r: Region, byte: usize) -> int {
    if byte > r.byte_end {
        byte - r.byte_end
    } else {
        0
    }
}

/// Of the first `n` regions that start before a byte, the one the byte is the
/// least past; the first of several.
pub open spec fn least_past(regions: Seq<Region>, byte: usize, n: int) -> Option<int>
    decreases n,
{
    if n <= 0 {
        None
    } else {
        let best = least_past(regions, byte, n - 1);
        if regions[n - 1].byte_start > byte {
            best
        } else {
            match best {
                Some(b) => if past(regions[n - 1], byte) < past(regions[b], byte) {
                    Some(n - 1)
                } else {
                    best
                },
                None => Some(n - 1),
            }
        }
    }
}

/// The region a diagnostic at `byte` is about: one that contains it, or else
/// one that ends just before it.
pub open spec fn region_index(regions: Seq<Region>, byte: usize) -> Option<int> {
    if first_containing(regions, byte, 0) is Some {
        first_containing(regions, byte, 0)
    } else {
        match least_past(regions, byte, regions.len() as int) {
            Some(i) => if past(regions[i], byte) < NEAR_MISS {
                Some(i)
            } else {
                None
            },
            None => None,
        }
    }
}

/// The filled positions are positions of answers that are there.
pub proof fn lemma_filled(answers: Seq<(&Hole, Option<&str>)>, n: int)
    requires
        0 <= n <= answers.len(),
    ensures
        forall|k: int|
            0 <= k < filled(answers, n).len() ==> 0 <= #[trigger] filled(answers, n)[k] < n
                && answers[filled(answers, n)[k]].1 is Some,
        filled(answers, n).len() <= n,
    decreases n,
{
    if n > 0 {
        lemma_filled(answers, n - 1);
        let front = filled(answers, n - 1);
        assert forall|k: int| 0 <= k < filled(answers, n).len() implies 0 <= #[trigger] filled(
            answers,
            n,
        )[k] < n && answers[filled(answers, n)[k]].1 is Some by {
            if k < front.len() {
                assert(filled(answers, n)[k] == front[k]);
            }
        }
    }
}

impl Patch {
    /// A patch without regions.
    pub fn new(file: String, checked: String) -> (r: Patch)
        ensures
            r.file == file,
            r.checked == checked,
            r.regions@ == Seq::<Region>::empty(),
    {
        Patch { file, checked, regions: Vec::new() }
    }

    /// Build a patch by splicing each answer over its hole.
    ///
    /// `answers` pairs every hole with the code to put in it, or `None` to leave
    /// the hole unelaborated (a pinned hole, or one the model could not fill).
    ///
    /// This is the constructor callers should use. The checked text and the
    /// regions are produced by the *same* splice, so they cannot disagree: an
    /// answer of a different length than the `todo!(...)` it replaced shifts
    /// every later hole, and regions computed from some other splice would
    /// attribute errors to the wrong one.
    ///
    /// Fails if the holes' spans are stale or overlap, since splicing them would
    /// corrupt the file.
    pub fn splice(file: String, src: &str, answers: &Vec<(&Hole, Option<&str>)>) -> (r: Result<
        Patch,
        String,
    >)
        ensures
            match r {
                Ok(p) => answers_error(src@, answers@) is None && p.file == file && is_spliced(
                    p,
                    src@,
                    answers@,
                ),
                Err(m) => answers_error(src@, answers@) == Some(m@),
            },
    {
        // Only filled holes become edits; the others keep their `todo!()`, which
        // compiles, so they contribute no region and need no check.
        let ghost at = filled(answers@, answers@.len() as int);
        let mut picked: Vec<usize> = Vec::new();
        let mut i: usize = 0;
        while i < answers.len()
            invariant
                i <= answers@.len(),
                picked@.len() == filled(answers@, i as int).len(),
                forall|k: int|
                    0 <= k < picked@.len() ==> #[trigger] picked@[k] == filled(
                        answers@,
                        i as int,
                    )[k],
            decreases answers.len() - i,
        {
            if answers[i].1.is_some() {
                picked.push(i);
            }
            i = i + 1;
        }
        proof {
            lemma_filled(answers@, answers@.len() as int);
        }

        // `splice_many` validates byte ranges but not that a hole still holds a
        // `todo!`.
        let mut k: usize = 0;
        while k < picked.len()
            invariant
                k <= picked@.len(),
                picked@.len() == at.len(),
                at == filled(answers@, answers@.len() as int),
                forall|j: int| 0 <= j < picked@.len() ==> #[trigger] picked@[j] == at[j],
                forall|j: int|
                    0 <= j < at.len() ==> 0 <= #[trigger] at[j] < answers@.len()
                        && answers@[at[j]].1 is Some,
                first_answer_error(src@, answers@, at, 0) == first_answer_error(
                    src@,
                    answers@,
                    at,
                    k as int,
                ),
            decreases picked.len() - k,
        {
            proof {
                assert(picked@[k as int] == at[k as int]);
                assert(0 <= at[k as int] < answers@.len());
            }
            let hole = answers[picked[k]].0;
            match get(src, hole.byte_start, hole.byte_end) {
                None => {
                    let mut m = owned("hole ");
                    m.push_str(hole.location().as_str());
                    m.push_str(" is out of range");
                    return Err(m);
                },
                Some(text) => {
                    proof {
                        vstd::utf8::encode_utf8_decode_utf8(text@);
                    }
                    if !starts_with(text, hole.macro_name.as_str()) {
                        let mut m = hole.location();
                        m.push_str(" no longer starts a `");
                        m.push_str(hole.macro_name.as_str());
                        m.push_str("!` (found ");
                        let shown = truncate(text, 40);
                        m.push_str(debug_format(shown.as_str()).as_str());
                        m.push_str("); the file changed since the holes were listed");
                        return Err(m);
                    }
                },
            }
            k = k + 1;
        }

        let mut edits: Vec<Edit<'_>> = Vec::new();
        let mut k: usize = 0;
        while k < picked.len()
            invariant
                k <= picked@.len(),
                picked@.len() == at.len(),
                at == filled(answers@, answers@.len() as int),
                forall|j: int| 0 <= j < picked@.len() ==> #[trigger] picked@[j] == at[j],
                forall|j: int|
                    0 <= j < at.len() ==> 0 <= #[trigger] at[j] < answers@.len()
                        && answers@[at[j]].1 is Some,
                edits@ == answer_edits(answers@).take(k as int),
            decreases picked.len() - k,
        {
            proof {
                assert(picked@[k as int] == at[k as int]);
                assert(0 <= at[k as int] < answers@.len());
            }
            let hole = answers[picked[k]].0;
            let code: &str = match answers[picked[k]].1 {
                Some(c) => c,
                None => "",
            };
            edits.push(
                Edit { byte_start: hole.byte_start, byte_end: hole.byte_end, replacement: code },
            );
            proof {
                assert(answer_edits(answers@).take(k + 1) =~= answer_edits(answers@).take(
                    k as int,
                ).push(answer_edit(answers@[at[k as int]])));
            }
            k = k + 1;
        }
        proof {
            assert(edits@ =~= answer_edits(answers@));
        }

        let (checked, anchors) = match splice_many(src, edits.as_slice()) {
            Ok(pair) => pair,
            Err(m) => {
                return Err(m);
            },
        };
        let ghost b = encode_utf8(src@);
        let ghost sorted = left_to_right(edits@);
        let ghost order = order_of(edit_keys(edits@));
        proof {
            lemma_accepted_edits_are_disjoint(b, edits@);
            crate::order::lemma_order_is_stable(edit_keys(edits@), edits@.len() as int);
            assert forall|j: int| 0 <= j < edits@.len() implies #[trigger] anchors@[j] + inserted(
                edits@[j],
            ).len() <= encode_utf8(checked@).len() && encode_utf8(checked@).subrange(
                anchors@[j] as int,
                anchors@[j] + inserted(edits@[j]).len(),
            ) == inserted(edits@[j]) by {
                assert(order.contains(j as usize));
                let m = choose|m: int| 0 <= m < order.len() && order[m] == j as usize;
                assert(anchors@[order[m] as int] == anchor(b, sorted, m));
                assert(sorted[m] == edits@[j]);
                lemma_region_holds_replacement(b, sorted, m);
            }
        }
        let total: usize = byte_len(checked.as_str());
        let mut regions: Vec<Region> = Vec::new();
        let mut k: usize = 0;
        while k < picked.len()
            invariant
                k <= picked@.len(),
                picked@.len() == at.len(),
                at == filled(answers@, answers@.len() as int),
                edits@ == answer_edits(answers@),
                anchors@.len() == edits@.len(),
                edits@.len() == at.len(),
                total == encode_utf8(checked@).len(),
                forall|j: int| 0 <= j < picked@.len() ==> #[trigger] picked@[j] == at[j],
                forall|j: int|
                    0 <= j < at.len() ==> 0 <= #[trigger] at[j] < answers@.len()
                        && answers@[at[j]].1 is Some,
                forall|j: int|
                    0 <= j < edits@.len() ==> #[trigger] anchors@[j] + inserted(edits@[j]).len()
                        <= total,
                regions@.len() == k,
                forall|j: int|
                    0 <= j < k ==> (#[trigger] regions@[j]).hole == *answers@[at[j]].0
                        && regions@[j].byte_start == anchors@[j] && regions@[j].byte_end
                        == anchors@[j] + inserted(edits@[j]).len(),
            decreases picked.len() - k,
        {
            proof {
                assert(picked@[k as int] == at[k as int]);
                assert(0 <= at[k as int] < answers@.len());
                assert(anchors@[k as int] + inserted(edits@[k as int]).len() <= total);
            }
            let hole = answers[picked[k]].0;
            let len: usize = byte_len(edits[k].replacement);
            regions.push(
                Region {
                    hole: hole.clone(),
                    byte_start: anchors[k],
                    byte_end: anchors[k] + len,
                },
            );
            k = k + 1;
        }
        proof {
            assert forall|m: int| 0 <= m < at.len() implies regions@[#[trigger] order[m] as int].byte_start
                == anchor(b, sorted, m) by {
                assert(order[m] < edits@.len());
                assert(anchors@[order[m] as int] == anchor(b, sorted, m));
                assert(regions@[order[m] as int].byte_start == anchors@[order[m] as int]);
            }
            assert forall|j: int| 0 <= j < at.len() implies (#[trigger] regions@[j]).byte_end
                <= encode_utf8(checked@).len() && encode_utf8(checked@).subrange(
                regions@[j].byte_start as int,
                regions@[j].byte_end as int,
            ) == inserted(edits@[j]) by {
                assert(anchors@[j] + inserted(edits@[j]).len() <= encode_utf8(checked@).len());
            }
        }
        Ok(Patch { file, checked, regions })
    }

    /// Attach the regions generated answers occupy.
    pub fn with_regions(self, regions: Vec<Region>) -> (r: Patch)
        ensures
            r.file == self.file,
            r.checked == self.checked,
            r.regions == regions,
    {
        Patch { file: self.file, checked: self.checked, regions }
    }

    /// The region containing `byte`, if any.
    ///
    /// A diagnostic can point just past the end of the code it is about (rustc
    /// often spans the following token too), so failing that it is the nearest
    /// region that starts before the byte and is close by.
    pub fn region_at(&self, byte: usize) -> (r: Option<&Region>)
        ensures
            match r {
                Some(region) => region_index(self.regions@, byte) is Some && *region
                    == self.regions@[region_index(self.regions@, byte)->0],
                None => region_index(self.regions@, byte) is None,
            },
    {
        let n: usize = self.regions.len();
        let mut i: usize = 0;
        while i < n
            invariant
                i <= n,
                n == self.regions@.len(),
                first_containing(self.regions@, byte, 0) == first_containing(
                    self.regions@,
                    byte,
                    i as int,
                ),
            decreases n - i,
        {
            if self.regions[i].contains(byte) {
                return Some(&self.regions[i]);
            }
            i = i + 1;
        }
        let mut best: Option<usize> = None;
        let mut i: usize = 0;
        while i < n
            invariant
                i <= n,
                n == self.regions@.len(),
                match best {
                    Some(b) => b < i && least_past(self.regions@, byte, i as int) == Some(b as int),
                    None => least_past(self.regions@, byte, i as int) is None,
                },
            decreases n - i,
        {
            if self.regions[i].byte_start <= byte {
                best = match best {
                    Some(b) => if self.past_end(i, byte) < self.past_end(b, byte) {
                        Some(i)
                    } else {
                        Some(b)
                    },
                    None => Some(i),
                };
            }
            i = i + 1;
        }
        match best {
            Some(b) => if self.past_end(b, byte) < NEAR_MISS {
                Some(&self.regions[b])
            } else {
                None
            },
            None => None,
        }
    }

    fn past_end(&self, i: usize, byte: usize) -> (r: usize)
        requires
            i < self.regions@.len(),
        ensures
            r == past(self.regions@[i as int], byte),
    {
        let end: usize = self.regions[i].byte_end;
        if byte > end {
            byte - end
        } else {
            0
        }
    }
}

// ---------------------------------------------------------------------------
// Failures and verdicts
// ---------------------------------------------------------------------------

/// One error the compile gate blames on a generated answer.
#[derive(Debug, PartialEq, Eq)]
pub struct Failure {
    /// The hole whose generated code the error lands in, when one could be
    /// identified.
    ///
    /// `None` means the error sits outside every generated region, so it belongs
    /// to the crate as it already was rather than to anything this run produced.
    /// Reporting those separately matters: they are not the model's fault, and
    /// asking it to try again would never fix them.
    pub hole: Option<Hole>,
    /// The file the error was reported in.
    pub file: String,
    /// The error, one line, for reporting.
    pub message: String,
    pub code: Option<String>,
}

/// A failure as plain text and numbers.
#[verifier::ext_equal]
pub struct FailureView {
    pub hole: Option<HoleView>,
    pub file: Seq<char>,
    pub message: Seq<char>,
    pub code: Option<Seq<char>>,
}

/// An optional hole as plain text and numbers.
pub open spec fn opt_hole(h: Option<Hole>) -> Option<HoleView> {
    match h {
        Some(x) => Some(x@),
        None => None,
    }
}

impl View for Failure {
    type V = FailureView;

    open spec fn view(&self) -> FailureView {
        FailureView {
            hole: opt_hole(self.hole),
            file: self.file@,
            message: self.message@,
            code: opt_view(self.code),
        }
    }
}

/// One line for a failure: where it is, and what it says.
pub open spec fn failure_label(f: FailureView) -> Seq<char> {
    (match f.hole {
        Some(h) => location_of(h),
        None => replaced(f.file, '\\', '/'),
    }) + ": "@ + f.message
}

impl Failure {
    /// One line naming the hole, or the file when no hole owns the error.
    pub fn label(&self) -> (r: String)
        ensures
            r@ == failure_label(self@),
    {
        let mut m = match &self.hole {
            Some(hole) => hole.location(),
            None => replace_char(self.file.as_str(), '\\', '/'),
        };
        m.push_str(": ");
        m.push_str(self.message.as_str());
        m
    }
}

/// What the compile gate concluded about a generated tree.
#[derive(Debug)]
pub enum Verdict {
    /// The whole generated tree compiled. Every answer may be recorded.
    Accepted,
    /// It did not compile, so nothing may be recorded.
    Rejected {
        /// Every error, in the order rustc reported them. Some may have no hole:
        /// see [`Failure::hole`].
        failures: Vec<Failure>,
    },
    /// The compile gate could not run.
    ///
    /// Deliberately distinct from a rejection, because a missing cargo, a
    /// timeout, or a broken manifest says nothing about whether the generated
    /// code is correct. Reporting it as a rejection would blame the model for the
    /// environment.
    Inconclusive { reason: String },
}

/// A verdict as plain text and numbers.
#[verifier::ext_equal]
pub enum VerdictView {
    Accepted,
    Rejected { failures: Seq<FailureView> },
    Inconclusive { reason: Seq<char> },
}

/// Failures as plain text and numbers.
pub open spec fn failure_views(failures: Seq<Failure>) -> Seq<FailureView> {
    Seq::new(failures.len(), |i: int| failures[i]@)
}

impl View for Verdict {
    type V = VerdictView;

    open spec fn view(&self) -> VerdictView {
        match *self {
            Verdict::Accepted => VerdictView::Accepted,
            Verdict::Rejected { failures } => VerdictView::Rejected {
                failures: failure_views(failures@),
            },
            Verdict::Inconclusive { reason } => VerdictView::Inconclusive { reason: reason@ },
        }
    }
}

/// The failures that do, or do not, belong to a generated answer, in order.
pub open spec fn failures_where(failures: Seq<FailureView>, ours: bool) -> Seq<FailureView>
    decreases failures.len(),
{
    if failures.len() == 0 {
        seq![]
    } else {
        let front = failures_where(failures.drop_last(), ours);
        if (failures.last().hole is Some) == ours {
            front.push(failures.last())
        } else {
            front
        }
    }
}

/// The failures of a verdict that do, or do not, belong to a generated answer.
pub open spec fn verdict_failures(v: VerdictView, ours: bool) -> Seq<FailureView> {
    match v {
        VerdictView::Rejected { failures } => failures_where(failures, ours),
        _ => seq![],
    }
}

/// What failure references refer to.
pub open spec fn failure_refs(refs: Seq<&Failure>) -> Seq<FailureView> {
    Seq::new(refs.len(), |i: int| refs[i]@)
}

/// One line for the run summary.
pub open spec fn verdict_label(v: VerdictView) -> Seq<char> {
    match v {
        VerdictView::Accepted => "verified"@,
        VerdictView::Rejected { failures } => {
            let ours = failures_where(failures, true).len();
            let theirs = (failures.len() - ours) as nat;
            if ours == 0 {
                "not verified: "@ + decimal_of(theirs)
                    + " error(s), none in generated code -- the crate did not compile before this run either"@
            } else if theirs == 0 {
                "not verified: "@ + decimal_of(ours) + " generated answer(s) did not compile"@
            } else {
                "not verified: "@ + decimal_of(ours) + " generated answer(s) did not compile, plus "@
                    + decimal_of(theirs) + " error(s) elsewhere in the crate"@
            }
        },
        VerdictView::Inconclusive { reason } => "not verified: "@ + reason,
    }
}

/// Every failure is either ours or theirs.
pub proof fn lemma_failures_split(failures: Seq<FailureView>)
    ensures
        failures_where(failures, true).len() + failures_where(failures, false).len()
            == failures.len(),
    decreases failures.len(),
{
    if failures.len() > 0 {
        lemma_failures_split(failures.drop_last());
    }
}

impl Verdict {
    /// Whether the tree was accepted.
    pub fn is_accepted(&self) -> (r: bool)
        ensures
            r == (self@ is Accepted),
    {
        match self {
            Verdict::Accepted => true,
            _ => false,
        }
    }

    /// Whether the tree was rejected.
    pub fn is_rejected(&self) -> (r: bool)
        ensures
            r == (self@ is Rejected),
    {
        match self {
            Verdict::Rejected { .. } => true,
            _ => false,
        }
    }

    fn pick(&self, ours: bool) -> (r: Vec<&Failure>)
        ensures
            failure_refs(r@) == verdict_failures(self@, ours),
    {
        let mut out: Vec<&Failure> = Vec::new();
        proof {
            assert(failure_refs(out@) =~= Seq::<FailureView>::empty());
        }
        if let Verdict::Rejected { failures } = self {
            let ghost all = failure_views(failures@);
            let mut i: usize = 0;
            proof {
                assert(all.take(0) =~= Seq::<FailureView>::empty());
            }
            while i < failures.len()
                invariant
                    i <= failures@.len(),
                    all == failure_views(failures@),
                    failure_refs(out@) == failures_where(all.take(i as int), ours),
                decreases failures.len() - i,
            {
                let f = &failures[i];
                proof {
                    assert(all.take(i + 1).drop_last() =~= all.take(i as int));
                    assert(all.take(i + 1).last() == f@);
                    assert(failure_refs(out@.push(f)) =~= failure_refs(out@).push(f@));
                }
                if f.hole.is_some() == ours {
                    out.push(f);
                }
                i = i + 1;
            }
            proof {
                assert(all.take(failures@.len() as int) =~= all);
            }
        }
        out
    }

    /// The failures that belong to a generated answer, in report order.
    ///
    /// These are the ones worth re-asking the model about.
    pub fn attributable(&self) -> (r: Vec<&Failure>)
        ensures
            failure_refs(r@) == verdict_failures(self@, true),
    {
        self.pick(true)
    }

    /// The failures that belong to the crate as it already was.
    ///
    /// Retrying cannot fix these, so the caller must report them instead.
    pub fn pre_existing(&self) -> (r: Vec<&Failure>)
        ensures
            failure_refs(r@) == verdict_failures(self@, false),
    {
        self.pick(false)
    }

    /// One line for the run summary.
    pub fn label(&self) -> (r: String)
        ensures
            r@ == verdict_label(self@),
    {
        match self {
            Verdict::Accepted => owned("verified"),
            Verdict::Rejected { failures } => {
                let picked = self.attributable();
                let ours: usize = picked.len();
                proof {
                    lemma_failures_split(failure_views(failures@));
                    assert(failure_refs(picked@).len() == picked@.len());
                    assert(failure_views(failures@).len() == failures@.len());
                }
                let theirs: usize = failures.len() - ours;
                let mut m = owned("not verified: ");
                if ours == 0 {
                    m.push_str(decimal_usize(theirs).as_str());
                    m.push_str(
                        " error(s), none in generated code -- the crate did not compile before this run either",
                    );
                } else if theirs == 0 {
                    m.push_str(decimal_usize(ours).as_str());
                    m.push_str(" generated answer(s) did not compile");
                } else {
                    m.push_str(decimal_usize(ours).as_str());
                    m.push_str(" generated answer(s) did not compile, plus ");
                    m.push_str(decimal_usize(theirs).as_str());
                    m.push_str(" error(s) elsewhere in the crate");
                }
                m
            },
            Verdict::Inconclusive { reason } => {
                let mut m = owned("not verified: ");
                m.push_str(reason.as_str());
                m
            },
        }
    }
}

// ---------------------------------------------------------------------------
// Attribution
// ---------------------------------------------------------------------------

/// The first primary span from `i` on.
pub open spec fn first_primary(spans: Seq<Span>, i: int) -> Option<int>
    decreases spans.len() - i,
{
    if i >= spans.len() {
        None
    } else if spans[i].is_primary {
        Some(i)
    } else {
        first_primary(spans, i + 1)
    }
}

/// The first patch, from `i` on, of the file rustc named.
pub open spec fn patch_of(
    table: PathTable,
    root: Seq<char>,
    patches: Seq<Patch>,
    reported: Seq<char>,
    i: int,
) -> Option<int>
    decreases patches.len() - i,
{
    if i >= patches.len() {
        None
    } else if is_same_file(table, root, reported, patches[i].file@) {
        Some(i)
    } else {
        patch_of(table, root, patches, reported, i + 1)
    }
}

/// One line for an error: the code, the headline, and the primary span label
/// when it says something the headline does not.
pub open spec fn description(d: Diagnostic) -> Seq<char> {
    let code = match d.code {
        Some(c) => c@ + ": "@,
        None => ""@,
    };
    let label = match first_primary(d.spans@, 0) {
        Some(i) => match d.spans@[i].label {
            Some(l) => if l@.len() > 0 && l@ != d.message@ {
                ": "@ + l@
            } else {
                ""@
            },
            None => ""@,
        },
        None => ""@,
    };
    code + d.message@ + label
}

/// The hole whose region a byte is in.
pub open spec fn hole_in(regions: Seq<Region>, byte: usize) -> Option<HoleView> {
    match region_index(regions, byte) {
        Some(i) => Some(regions[i].hole@),
        None => None,
    }
}

/// What an error means for the patches: it belongs to the hole whose generated
/// code its primary span lands in.
pub open spec fn classified(
    table: PathTable,
    root: Seq<char>,
    d: Diagnostic,
    patches: Seq<Patch>,
) -> FailureView {
    let (file, hole) = match first_primary(d.spans@, 0) {
        None => (root, None),
        Some(i) => {
            let span = d.spans@[i];
            match patch_of(table, root, patches, span.file_name@, 0) {
                Some(p) => (patches[p].file@, hole_in(patches[p].regions@, span.byte_start)),
                None => (joined(root, span.file_name@), None),
            }
        },
    };
    FailureView { hole, file, message: description(d), code: opt_view(d.code) }
}

/// What each of some errors means for the patches.
pub open spec fn classified_all(
    table: PathTable,
    root: Seq<char>,
    errors: Seq<Diagnostic>,
    patches: Seq<Patch>,
) -> Seq<FailureView> {
    Seq::new(errors.len(), |i: int| classified(table, root, errors[i], patches))
}

/// What a finished check says about the patched tree.
pub open spec fn verdict_of(
    table: PathTable,
    root: Seq<char>,
    run: CheckRun,
    patches: Seq<Patch>,
) -> VerdictView {
    let errors = errors_of(run.diagnostics@);
    if errors.len() == 0 {
        VerdictView::Accepted
    } else {
        VerdictView::Rejected { failures: classified_all(table, root, errors, patches) }
    }
}

fn primary_span(d: &Diagnostic) -> (r: Option<&Span>)
    ensures
        match r {
            Some(s) => first_primary(d.spans@, 0) is Some && *s == d.spans@[first_primary(
                d.spans@,
                0,
            )->0],
            None => first_primary(d.spans@, 0) is None,
        },
{
    let mut i: usize = 0;
    while i < d.spans.len()
        invariant
            i <= d.spans@.len(),
            first_primary(d.spans@, 0) == first_primary(d.spans@, i as int),
        decreases d.spans.len() - i,
    {
        if d.spans[i].is_primary {
            return Some(&d.spans[i]);
        }
        i = i + 1;
    }
    None
}

/// One line for an error: the code, the headline, and the primary span label
/// when it says something the headline does not.
pub fn describe(diagnostic: &Diagnostic) -> (r: String)
    ensures
        r@ == description(*diagnostic),
{
    let mut m = match &diagnostic.code {
        Some(c) => {
            let mut m = owned(c.as_str());
            m.push_str(": ");
            m
        },
        None => owned(""),
    };
    m.push_str(diagnostic.message.as_str());
    let mut label = owned("");
    if let Some(s) = primary_span(diagnostic) {
        if let Some(l) = &s.label {
            if l.as_str().unicode_len() > 0 && !same(l.as_str(), diagnostic.message.as_str()) {
                label = owned(": ");
                label.push_str(l.as_str());
            }
        }
    }
    m.push_str(label.as_str());
    m
}

/// Map one error onto the answer responsible for it.
///
/// Attribution is positional: an error belongs to the hole whose generated
/// code its primary span lands in. That is exact rather than heuristic,
/// because the spans were computed by the same splice that produced the text
/// rustc read.
pub fn classify(
    table: &PathTable,
    root: &str,
    diagnostic: &Diagnostic,
    patches: &Vec<Patch>,
) -> (r: Failure)
    ensures
        r@ == classified(*table, root@, *diagnostic, patches@),
{
    let message = describe(diagnostic);
    let code = clone_opt(&diagnostic.code);
    let span = match primary_span(diagnostic) {
        None => {
            return Failure { hole: None, file: owned(root), message, code };
        },
        Some(s) => s,
    };
    // Which checked file is the error in? Without a span in one of our files it
    // is about something else entirely -- a dependency, or the manifest.
    let mut i: usize = 0;
    while i < patches.len()
        invariant
            i <= patches@.len(),
            patch_of(*table, root@, patches@, span.file_name@, 0) == patch_of(
                *table,
                root@,
                patches@,
                span.file_name@,
                i as int,
            ),
            message@ == description(*diagnostic),
            opt_view(code) == opt_view(diagnostic.code),
            first_primary(diagnostic.spans@, 0) is Some,
            *span == diagnostic.spans@[first_primary(diagnostic.spans@, 0)->0],
        decreases patches.len() - i,
    {
        let p = &patches[i];
        if same_file(table, root, span.file_name.as_str(), p.file.as_str()) {
            let hole = match p.region_at(span.byte_start) {
                Some(r) => Some(r.hole.clone()),
                None => None,
            };
            return Failure { hole, file: p.file.clone(), message, code };
        }
        i = i + 1;
    }
    // Report it against whatever file rustc named, so the message is still
    // actionable.
    Failure { hole: None, file: join(root, span.file_name.as_str()), message, code }
}

/// What a finished check says about the patched tree.
pub fn judge(table: &PathTable, root: &str, run: &CheckRun, patches: &Vec<Patch>) -> (r: Verdict)
    ensures
        r@ == verdict_of(*table, root@, *run, patches@),
{
    if run.is_clean() {
        return Verdict::Accepted;
    }
    let errs = run.errors();
    let ghost errors = errors_of(run.diagnostics@);
    let ghost all = classified_all(*table, root@, errors, patches@);
    let mut failures: Vec<Failure> = Vec::new();
    let mut i: usize = 0;
    proof {
        assert(errors.len() == errs@.len());
    }
    while i < errs.len()
        invariant
            i <= errs@.len(),
            errors == referents(errs@),
            errors.len() == errs@.len(),
            all == classified_all(*table, root@, errors, patches@),
            failure_views(failures@) == all.take(i as int),
        decreases errs.len() - i,
    {
        proof {
            assert(errors[i as int] == *errs@[i as int]);
        }
        let f = classify(table, root, errs[i], patches);
        proof {
            assert(failure_views(failures@.push(f)) =~= failure_views(failures@).push(f@));
            assert(all.take(i + 1) =~= all.take(i as int).push(f@));
        }
        failures.push(f);
        i = i + 1;
    }
    proof {
        assert(all.take(errs@.len() as int) =~= all);
    }
    Verdict::Rejected { failures }
}

/// An error that lands in the code of an answer is blamed on that answer's
/// hole, whenever no two regions overlap or touch.
pub proof fn lemma_error_in_code_is_blamed(regions: Seq<Region>, k: int, byte: usize)
    requires
        0 <= k < regions.len(),
        region_contains(regions[k], byte),
        forall|i: int, j: int|
            0 <= i < regions.len() && 0 <= j < regions.len() && i != j ==> (#[trigger] regions[i]).byte_end
                < (#[trigger] regions[j]).byte_start || regions[j].byte_end
                < regions[i].byte_start,
        forall|i: int|
            0 <= i < regions.len() ==> (#[trigger] regions[i]).byte_start <= regions[i].byte_end,
    ensures
        hole_in(regions, byte) == Some(regions[k].hole@),
{
    lemma_first_containing(regions, k, byte, 0);
}

proof fn lemma_first_containing(regions: Seq<Region>, k: int, byte: usize, i: int)
    requires
        0 <= i <= k < regions.len(),
        region_contains(regions[k], byte),
        forall|j: int| 0 <= j < regions.len() && j != k ==> !region_contains(#[trigger] regions[j], byte),
    ensures
        first_containing(regions, byte, i) == Some(k),
    decreases k - i,
{
    if i < k {
        assert(!region_contains(regions[i], byte));
        lemma_first_containing(regions, k, byte, i + 1);
    }
}

// ---------------------------------------------------------------------------
// Running the compile gate
// ---------------------------------------------------------------------------

/// The compile gate for one crate.
#[derive(Debug)]
pub struct Verifier {
    pub root: String,
}

/// How far one run of the compile gate has come.
#[derive(Debug)]
pub enum GateStage {
    /// Waiting for the lock.
    Locking,
    /// Putting the checked text of patch `next` in place; those before it are.
    Patching { next: usize },
    /// A patch could not be put in place, for this reason; putting back the
    /// `patched` files before it.
    Undoing { patched: usize, reason: String },
    /// Every patch is in place and the check is running.
    Checking,
    /// The check is over; putting back every file.
    Restoring { outcome: Result<CheckRun, String> },
    /// The verdict is out.
    Finished,
}

/// What the compile gate wants done next.
#[derive(Debug)]
pub enum GateAction {
    /// Take the probe lock.
    Lock,
    /// Replace the file of this patch by its checked text.
    Patch(usize),
    /// Run one check of the whole tree.
    Check,
    /// Put back the files of the first so many patches, all of them whatever
    /// happens to one.
    Restore(usize),
    /// Release the lock and report.
    Report(Verdict),
}

/// What came of it.
#[derive(Debug)]
pub enum GateEvent {
    Locked,
    LockFailed(String),
    Patched,
    PatchFailed(String),
    Checked(CheckRun),
    CheckFailed(String),
    Restored,
    /// Some file could not be put back; the first such failure.
    RestoreFailed(String),
}

/// How many files hold generated text at a stage.
pub open spec fn files_patched(stage: GateStage, total: nat) -> nat {
    match stage {
        GateStage::Locking => 0,
        GateStage::Patching { next } => next as nat,
        GateStage::Undoing { patched, .. } => patched as nat,
        GateStage::Checking => total,
        GateStage::Restoring { .. } => total,
        GateStage::Finished => 0,
    }
}

/// Whether an event answers what was asked for at a stage.
pub open spec fn event_answers(stage: GateStage, event: GateEvent) -> bool {
    match stage {
        GateStage::Locking => event is Locked || event is LockFailed,
        GateStage::Patching { .. } => event is Patched || event is PatchFailed,
        GateStage::Undoing { .. } => event is Restored || event is RestoreFailed,
        GateStage::Checking => event is Checked || event is CheckFailed,
        GateStage::Restoring { .. } => event is Restored || event is RestoreFailed,
        GateStage::Finished => false,
    }
}

/// Whether a stage is one of a run over `total` patches.
pub open spec fn stage_fits(stage: GateStage, total: nat) -> bool {
    match stage {
        GateStage::Patching { next } => next < total,
        GateStage::Undoing { patched, .. } => patched < total,
        _ => true,
    }
}

/// Stages as plain text and numbers.
#[verifier::ext_equal]
pub enum StageView {
    Locking,
    Patching { next: usize },
    Undoing { patched: usize, reason: Seq<char> },
    Checking,
    Restoring { outcome: Result<CheckRun, Seq<char>> },
    Finished,
}

impl View for GateStage {
    type V = StageView;

    open spec fn view(&self) -> StageView {
        match *self {
            GateStage::Locking => StageView::Locking,
            GateStage::Patching { next } => StageView::Patching { next },
            GateStage::Undoing { patched, reason } => StageView::Undoing {
                patched,
                reason: reason@,
            },
            GateStage::Checking => StageView::Checking,
            GateStage::Restoring { outcome } => StageView::Restoring {
                outcome: match outcome {
                    Ok(run) => Ok(run),
                    Err(e) => Err(e@),
                },
            },
            GateStage::Finished => StageView::Finished,
        }
    }
}

/// Actions as plain text and numbers.
#[verifier::ext_equal]
pub enum ActionView {
    Lock,
    Patch(usize),
    Check,
    Restore(usize),
    Report(VerdictView),
}

impl View for GateAction {
    type V = ActionView;

    open spec fn view(&self) -> ActionView {
        match *self {
            GateAction::Lock => ActionView::Lock,
            GateAction::Patch(i) => ActionView::Patch(i),
            GateAction::Check => ActionView::Check,
            GateAction::Restore(n) => ActionView::Restore(n),
            GateAction::Report(v) => ActionView::Report(v@),
        }
    }
}

/// A run that ends without a verdict on the code.
pub open spec fn inconclusive(reason: Seq<char>) -> (StageView, ActionView) {
    (StageView::Finished, ActionView::Report(VerdictView::Inconclusive { reason }))
}

/// The next stage and action.
pub open spec fn next_stage(
    table: PathTable,
    root: Seq<char>,
    patches: Seq<Patch>,
    stage: GateStage,
    event: GateEvent,
) -> (StageView, ActionView) {
    let total = patches.len() as usize;
    match (stage, event) {
        (GateStage::Locking, GateEvent::Locked) => (
            StageView::Patching { next: 0 },
            ActionView::Patch(0),
        ),
        (GateStage::Locking, GateEvent::LockFailed(e)) => inconclusive(
            "cannot take the probe lock: "@ + e@,
        ),
        (GateStage::Patching { next }, GateEvent::Patched) => if next + 1 < total {
            (
                StageView::Patching { next: (next + 1) as usize },
                ActionView::Patch((next + 1) as usize),
            )
        } else {
            (StageView::Checking, ActionView::Check)
        },
        (GateStage::Patching { next }, GateEvent::PatchFailed(e)) => (
            StageView::Undoing { patched: next, reason: e@ },
            ActionView::Restore(next),
        ),
        (GateStage::Undoing { reason, .. }, GateEvent::RestoreFailed(e)) => inconclusive(
            reason@ + "; and restoring the patched files failed: "@ + e@,
        ),
        (GateStage::Undoing { reason, .. }, _) => inconclusive(reason@),
        (GateStage::Checking, GateEvent::Checked(run)) => (
            StageView::Restoring { outcome: Ok(run) },
            ActionView::Restore(total),
        ),
        (GateStage::Checking, GateEvent::CheckFailed(e)) => (
            StageView::Restoring { outcome: Err(e@) },
            ActionView::Restore(total),
        ),
        (GateStage::Restoring { outcome: Err(e) }, _) => inconclusive(e@),
        (GateStage::Restoring { outcome: Ok(_) }, GateEvent::RestoreFailed(e)) => inconclusive(e@),
        (GateStage::Restoring { outcome: Ok(run) }, _) => (
            StageView::Finished,
            ActionView::Report(verdict_of(table, root, run, patches)),
        ),
        _ => (StageView::Finished, ActionView::Report(VerdictView::Accepted)),
    }
}

fn give_up(reason: String) -> (r: (GateStage, GateAction))
    ensures
        (r.0@, r.1@) == inconclusive(reason@),
{
    (GateStage::Finished, GateAction::Report(Verdict::Inconclusive { reason }))
}

impl Verifier {
    /// A gate for the crate at `root`.
    pub fn new(root: &str) -> (r: Verifier)
        ensures
            r.root@ == root@,
    {
        Verifier { root: owned(root) }
    }

    /// The root of the crate.
    pub fn root(&self) -> (r: &str)
        ensures
            r@ == self.root@,
    {
        self.root.as_str()
    }

    /// Begin a check of the whole generated tree.
    ///
    /// With nothing generated there is nothing to gate. Accepting is the honest
    /// answer: the run produced no code, and the ledger gains nothing from this
    /// call either way.
    pub fn verify(&self, patches: &Vec<Patch>) -> (r: (GateStage, GateAction))
        ensures
            patches@.len() == 0 ==> r.0@ == StageView::Finished && r.1@ == ActionView::Report(
                VerdictView::Accepted,
            ),
            patches@.len() > 0 ==> r.0@ == StageView::Locking && r.1@ == ActionView::Lock,
            stage_fits(r.0, patches@.len()),
            files_patched(r.0, patches@.len()) == 0,
    {
        if patches.len() == 0 {
            (GateStage::Finished, GateAction::Report(Verdict::Accepted))
        } else {
            (GateStage::Locking, GateAction::Lock)
        }
    }

    /// Go on with a check of the whole generated tree.
    ///
    /// Every file is patched before the check runs: one at a time would leave
    /// the others holding `todo!()`, which coerces to anything. Every file is
    /// put back before the verdict is worked out, on every path.
    pub fn step(
        &self,
        table: &PathTable,
        patches: &Vec<Patch>,
        stage: GateStage,
        event: GateEvent,
    ) -> (r: (GateStage, GateAction))
        requires
            patches@.len() > 0,
            stage_fits(stage, patches@.len()),
            event_answers(stage, event),
        ensures
            (r.0@, r.1@) == next_stage(*table, self.root@, patches@, stage, event),
            stage_fits(r.0, patches@.len()),
    {
        let total: usize = patches.len();
        match stage {
            GateStage::Locking => match event {
                GateEvent::LockFailed(e) => {
                    let mut m = owned("cannot take the probe lock: ");
                    m.push_str(e.as_str());
                    give_up(m)
                },
                _ => (GateStage::Patching { next: 0 }, GateAction::Patch(0)),
            },
            GateStage::Patching { next } => match event {
                GateEvent::PatchFailed(e) => (
                    GateStage::Undoing { patched: next, reason: e },
                    GateAction::Restore(next),
                ),
                _ => if next + 1 < total {
                    (GateStage::Patching { next: next + 1 }, GateAction::Patch(next + 1))
                } else {
                    (GateStage::Checking, GateAction::Check)
                },
            },
            GateStage::Undoing { patched: _, reason } => match event {
                GateEvent::RestoreFailed(e) => {
                    let mut m = reason;
                    m.push_str("; and restoring the patched files failed: ");
                    m.push_str(e.as_str());
                    give_up(m)
                },
                _ => give_up(reason),
            },
            GateStage::Checking => match event {
                GateEvent::CheckFailed(e) => (
                    GateStage::Restoring { outcome: Err(e) },
                    GateAction::Restore(total),
                ),
                GateEvent::Checked(run) => (
                    GateStage::Restoring { outcome: Ok(run) },
                    GateAction::Restore(total),
                ),
                _ => (GateStage::Finished, GateAction::Report(Verdict::Accepted)),
            },
            GateStage::Restoring { outcome } => match outcome {
                Err(e) => give_up(e),
                Ok(run) => match event {
                    // A check that cannot be undone safely is not a check we can
                    // trust.
                    GateEvent::RestoreFailed(e) => give_up(e),
                    _ => (
                        GateStage::Finished,
                        GateAction::Report(judge(table, self.root.as_str(), &run, patches)),
                    ),
                },
            },
            GateStage::Finished => (GateStage::Finished, GateAction::Report(Verdict::Accepted)),
        }
    }
}

/// How many files hold generated text at a stage.
pub open spec fn still_patched(stage: StageView, total: nat) -> nat {
    match stage {
        StageView::Locking => 0,
        StageView::Patching { next } => next as nat,
        StageView::Undoing { patched, .. } => patched as nat,
        StageView::Checking => total,
        StageView::Restoring { .. } => total,
        StageView::Finished => 0,
    }
}

/// The compile gate never leaves a file patched: while any file holds generated text, a
/// verdict is only reported once all of those files were to be put back, files
/// are patched one after the other, and the check runs with all of them in
/// place.
pub proof fn lemma_gate_puts_files_back(
    table: PathTable,
    root: Seq<char>,
    patches: Seq<Patch>,
    stage: GateStage,
    event: GateEvent,
)
    requires
        0 < patches.len() <= usize::MAX,
        stage_fits(stage, patches.len()),
        event_answers(stage, event),
    ensures
        ({
            let total = patches.len();
            let held = files_patched(stage, total);
            let (after, action) = next_stage(table, root, patches, stage, event);
            &&& action is Report ==> held == 0 || event is Restored || event is RestoreFailed
            &&& action matches ActionView::Restore(n) ==> n == held && still_patched(after, total)
                == held
            &&& action matches ActionView::Patch(i) ==> i == still_patched(after, total)
            &&& action is Check ==> event is Patched && held + 1 == total && still_patched(
                after,
                total,
            ) == total
        }),
{
}

/// A tree is accepted only when a check of it, with every patch in place, came
/// out clean and every file could be put back.
pub proof fn lemma_accepted_means_checked(
    table: PathTable,
    root: Seq<char>,
    patches: Seq<Patch>,
    stage: GateStage,
    event: GateEvent,
)
    requires
        0 < patches.len() <= usize::MAX,
        stage_fits(stage, patches.len()),
        event_answers(stage, event),
        next_stage(table, root, patches, stage, event).1 == ActionView::Report(
            VerdictView::Accepted,
        ),
    ensures
        event is Restored,
        stage is Restoring,
        stage->outcome is Ok,
        errors_of(stage->outcome->Ok_0.diagnostics@).len() == 0,
{
}

/// Replacing a whole file by its checked text never fails, and leaves exactly
/// that text.
pub proof fn lemma_whole_file_replacement(src: Seq<char>, checked: &str)
    requires
        encode_utf8(src).len() <= usize::MAX,
    ensures
        ({
            let b = encode_utf8(src);
            let e = Edit { byte_start: 0, byte_end: b.len() as usize, replacement: checked };
            splice_error(b, seq![e]) is None && spliced(b, left_to_right(seq![e])) == encode_utf8(
                checked@,
            )
        }),
{
    let b = encode_utf8(src);
    let e = Edit { byte_start: 0, byte_end: b.len() as usize, replacement: checked };
    crate::bytes::lemma_ends_are_boundaries(src);
    crate::splice::lemma_one_edit(b, e);
    assert(b.take(0) =~= Seq::<u8>::empty());
    assert(b.skip(b.len() as int) =~= Seq::<u8>::empty());
    assert(b.take(0) + inserted(e) + b.skip(b.len() as int) =~= inserted(e));
}

/// The first failure of a list of attempts, all of which were made.
pub open spec fn first_failure(results: Seq<Result<(), String>>, i: int) -> Option<Seq<char>>
    decreases results.len() - i,
{
    if i >= results.len() {
        None
    } else {
        match results[i] {
            Err(e) => Some(e@),
            Ok(()) => first_failure(results, i + 1),
        }
    }
}

/// What restoring every file came to: the first failure, when there was one. A
/// file that cannot be restored does not stop the others from being.
pub fn restore_all(results: &Vec<Result<(), String>>) -> (r: GateEvent)
    ensures
        match r {
            GateEvent::Restored => first_failure(results@, 0) is None,
            GateEvent::RestoreFailed(e) => first_failure(results@, 0) == Some(e@),
            _ => false,
        },
{
    let mut i: usize = 0;
    while i < results.len()
        invariant
            i <= results@.len(),
            first_failure(results@, 0) == first_failure(results@, i as int),
        decreases results.len() - i,
    {
        if let Err(e) = &results[i] {
            return GateEvent::RestoreFailed(e.clone());
        }
        i = i + 1;
    }
    GateEvent::Restored
}

} // verus!
