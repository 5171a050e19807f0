//! Putting the probe's unit value in the place of holes.
use vstd::prelude::*;
use vstd::utf8::{encode_utf8, is_char_boundary};

use crate::bytes::{byte_len, lemma_encode_concat, lemma_ends_are_boundaries, on_boundary, slice};
use crate::finder::text_at;
use crate::groups::{add_member, group_views, grouped, FileGroup};
use crate::hole::{location_of, Hole, HolePosition, HoleView};
use crate::order::order_of;
use crate::path::{file_name, file_name_of, renamed, with_file_name};
use crate::prober::{OutcomeView, ProbeOutcome};
use crate::splice::{
    anchor, edit_error, edit_keys, left_to_right, lemma_one_edit, splice_error, splice_many,
    spliced, Edit,
};
use crate::text::{begins, decimal_of, decimal_usize, owned, starts_with};
use crate::util::{truncate, truncated};

verus! {

/// The text substituted for the hole.
///
/// A unit value, so that a mismatch against the hole's real type is reported as
/// `expected X, found ()` — the whole trick in one constant.
pub const UNIT: &'static str = "()";

/// Suffix of the on-disk backup, for recovery after a hard kill.
pub const BACKUP_SUFFIX: &'static str = ".cargo-hole.bak";

/// Name of the cross-process lock file, created in the crate root.
pub const LOCK_NAME: &'static str = ".cargo-hole.probe.lock";

/// How `{:?}` writes a text: in quotes, with escapes.
pub uninterp spec fn debug_text(s: Seq<char>) -> Seq<char>;

/// The standard library's `Debug` for `str`: what it writes is a function of the
/// text.
#[verifier::external_body]
pub(crate) fn debug_format(s: &str) -> (r: String)
    ensures
        r@ == debug_text(s@),
{
    format!("{s:?}")
}

/// Why a hole's recorded span cannot be replaced in `src`, if it cannot.
pub open spec fn span_error(src: Seq<char>, h: HoleView) -> Option<Seq<char>> {
    let b = encode_utf8(src);
    let (start, end) = (h.byte_start, h.byte_end);
    if start > end {
        Some(
            "the recorded span is inverted ("@ + decimal_of(start as nat) + ".."@ + decimal_of(
                end as nat,
            ) + ")"@,
        )
    } else if end > b.len() {
        Some(
            "the recorded span "@ + decimal_of(start as nat) + ".."@ + decimal_of(end as nat)
                + " runs past the end of the file ("@ + decimal_of(b.len())
                + " bytes); the file has changed since the holes were listed"@,
        )
    } else if !is_char_boundary(b, start as int) || !is_char_boundary(b, end as int) {
        Some("the recorded span does not land on character boundaries"@)
    } else if !begins(text_at(src, start as int, end as int), h.macro_name) {
        Some(
            "byte "@ + decimal_of(start as nat) + " no longer starts a `"@ + h.macro_name
                + "!` (found "@ + debug_text(
                truncated(text_at(src, start as int, end as int), 40),
            ) + "); the file changed since the holes were listed"@,
        )
    } else {
        None
    }
}

/// Check that the recorded span still addresses a hole macro.
///
/// The offsets were computed when the file was last read. If the file changed on
/// disk in between — a concurrent edit, a stale listing — patching them would
/// corrupt arbitrary bytes, so this refuses instead.
pub fn validate_span(src: &str, hole: &Hole) -> (r: Result<(), String>)
    ensures
        match r {
            Ok(()) => span_error(src@, hole@) is None,
            Err(m) => span_error(src@, hole@) == Some(m@),
        },
{
    let len: usize = byte_len(src);
    if hole.byte_start > hole.byte_end {
        let mut m = owned("the recorded span is inverted (");
        m.push_str(decimal_usize(hole.byte_start).as_str());
        m.push_str("..");
        m.push_str(decimal_usize(hole.byte_end).as_str());
        m.push_str(")");
        return Err(m);
    }
    if hole.byte_end > len {
        let mut m = owned("the recorded span ");
        m.push_str(decimal_usize(hole.byte_start).as_str());
        m.push_str("..");
        m.push_str(decimal_usize(hole.byte_end).as_str());
        m.push_str(" runs past the end of the file (");
        m.push_str(decimal_usize(len).as_str());
        m.push_str(" bytes); the file has changed since the holes were listed");
        return Err(m);
    }
    if !on_boundary(src, hole.byte_start) || !on_boundary(src, hole.byte_end) {
        return Err(owned("the recorded span does not land on character boundaries"));
    }
    let text = slice(src, hole.byte_start, hole.byte_end);
    proof {
        vstd::utf8::encode_utf8_decode_utf8(text@);
    }
    if !starts_with(text, hole.macro_name.as_str()) {
        let mut m = owned("byte ");
        m.push_str(decimal_usize(hole.byte_start).as_str());
        m.push_str(" no longer starts a `");
        m.push_str(hole.macro_name.as_str());
        m.push_str("!` (found ");
        let shown = truncate(text, 40);
        m.push_str(debug_format(shown.as_str()).as_str());
        m.push_str("); the file changed since the holes were listed");
        return Err(m);
    }
    Ok(())
}

/// The edit that puts the unit value in a hole's place.
pub open spec fn unit_edit(h: Hole) -> Edit<'static> {
    Edit { byte_start: h.byte_start, byte_end: h.byte_end, replacement: UNIT }
}

/// `src` with the unit value in a hole's place.
pub open spec fn unit_patched(src: Seq<char>, h: Hole) -> Seq<u8> {
    let b = encode_utf8(src);
    b.take(h.byte_start as int) + encode_utf8(UNIT@) + b.skip(h.byte_end as int)
}

/// Replace the hole with [`UNIT`].
pub fn patched_source(src: &str, hole: &Hole) -> (r: Result<String, String>)
    ensures
        match r {
            Ok(out) => span_error(src@, hole@) is None && encode_utf8(out@) == unit_patched(
                src@,
                *hole,
            ),
            Err(m) => span_error(src@, hole@) == Some(m@),
        },
{
    match validate_span(src, hole) {
        Ok(()) => {},
        Err(m) => {
            return Err(m);
        },
    }
    let len: usize = byte_len(src);
    proof {
        lemma_ends_are_boundaries(src@);
    }
    let head = slice(src, 0, hole.byte_start);
    let tail = slice(src, hole.byte_end, len);
    let mut out = owned(head);
    out.push_str(UNIT);
    out.push_str(tail);
    proof {
        let b = encode_utf8(src@);
        lemma_encode_concat(head@, UNIT@);
        lemma_encode_concat(head@ + UNIT@, tail@);
        assert(b.subrange(0, hole.byte_start as int) =~= b.take(hole.byte_start as int));
        assert(b.subrange(hole.byte_end as int, len as int) =~= b.skip(hole.byte_end as int));
    }
    Ok(out)
}

/// The error of the first hole from `i` on whose span cannot be replaced.
pub open spec fn first_span_error(src: Seq<char>, holes: Seq<&Hole>, i: int) -> Option<Seq<char>>
    decreases holes.len() - i,
{
    if i >= holes.len() {
        None
    } else if span_error(src, holes[i]@) is Some {
        span_error(src, holes[i]@)
    } else {
        first_span_error(src, holes, i + 1)
    }
}

/// The edits that put the unit value in the place of every hole.
pub open spec fn unit_edits(holes: Seq<&Hole>) -> Seq<Edit<'static>> {
    Seq::new(holes.len(), |i: int| unit_edit(*holes[i]))
}

/// Why the holes cannot all be replaced, if they cannot.
pub open spec fn patch_error(src: Seq<char>, holes: Seq<&Hole>) -> Option<Seq<char>> {
    if first_span_error(src, holes, 0) is Some {
        first_span_error(src, holes, 0)
    } else {
        splice_error(encode_utf8(src), unit_edits(holes))
    }
}

/// Replace several non-overlapping holes with [`UNIT`] in one pass.
///
/// Returns the patched source together with each hole's new byte offset, in the
/// **input's** order.
pub fn patched_source_many(src: &str, holes: &Vec<&Hole>) -> (r: Result<
    (String, Vec<usize>),
    String,
>)
    ensures
        match r {
            Ok((out, anchors)) => {
                let b = encode_utf8(src@);
                let edits = unit_edits(holes@);
                &&& patch_error(src@, holes@) is None
                &&& encode_utf8(out@) == spliced(b, left_to_right(edits))
                &&& anchors@.len() == holes@.len()
                &&& forall|k: int|
                    0 <= k < holes@.len() ==> anchors@[#[trigger] order_of(
                        edit_keys(edits),
                    )[k] as int] == anchor(b, left_to_right(edits), k)
            },
            Err(m) => patch_error(src@, holes@) == Some(m@),
        },
{
    // The hole's span must still hold a `todo!` before it is replaced, and this
    // is where that check lives: `splice_many` works on raw byte ranges and
    // cannot know what should be there.
    let mut i: usize = 0;
    while i < holes.len()
        invariant
            i <= holes@.len(),
            first_span_error(src@, holes@, 0) == first_span_error(src@, holes@, i as int),
        decreases holes.len() - i,
    {
        match validate_span(src, holes[i]) {
            Ok(()) => {},
            Err(m) => {
                return Err(m);
            },
        }
        i = i + 1;
    }
    let mut edits: Vec<Edit<'static>> = Vec::new();
    let mut i: usize = 0;
    while i < holes.len()
        invariant
            i <= holes@.len(),
            edits@ == unit_edits(holes@).take(i as int),
        decreases holes.len() - i,
    {
        let h = holes[i];
        edits.push(Edit { byte_start: h.byte_start, byte_end: h.byte_end, replacement: UNIT });
        proof {
            assert(unit_edits(holes@).take(i + 1) =~= unit_edits(holes@).take(i as int).push(
                unit_edit(*h),
            ));
        }
        i = i + 1;
    }
    proof {
        assert(edits@ =~= unit_edits(holes@));
    }
    splice_many(src, edits.as_slice())
}

/// Patching one hole alone and patching it as a batch of one come to the same
/// text, and the hole stays where it was.
pub proof fn lemma_batch_of_one(src: Seq<char>, hole: &Hole)
    requires
        span_error(src, hole@) is None,
    ensures
        patch_error(src, seq![hole]) is None,
        spliced(encode_utf8(src), left_to_right(unit_edits(seq![hole]))) == unit_patched(
            src,
            *hole,
        ),
        anchor(encode_utf8(src), left_to_right(unit_edits(seq![hole])), 0) == hole.byte_start,
{
    let b = encode_utf8(src);
    let e = unit_edit(*hole);
    reveal_with_fuel(first_span_error, 2);
    assert(unit_edits(seq![hole]) =~= seq![e]);
    lemma_one_edit(b, e);
    assert(edit_error(b, e) is None);
}

// ---------------------------------------------------------------------------
// Which holes can be patched
// ---------------------------------------------------------------------------

/// Why a hole with an untrusted range is not patched.
pub open spec fn untrusted_text(h: HoleView, reason: Seq<char>) -> Seq<char> {
    "the byte range of "@ + location_of(h) + " could not be validated ("@ + reason
        + "), so it cannot be patched safely"@
}

/// What is known of a hole without any check: a statement has no expectation,
/// and one with an untrusted range cannot be probed.
pub open spec fn settled_without_check(h: HoleView) -> Option<OutcomeView> {
    if h.position == HolePosition::Statement {
        Some(OutcomeView::NoExpectation)
    } else {
        match h.unresolvable {
            Some(reason) => Some(OutcomeView::ProbeFailed(untrusted_text(h, reason))),
            None => None,
        }
    }
}

/// What is known of a hole without any check.
pub fn settle_without_check(hole: &Hole) -> (r: Option<ProbeOutcome>)
    ensures
        crate::blame::opt_outcome(r) == settled_without_check(hole@),
{
    if hole.position == HolePosition::Statement {
        return Some(ProbeOutcome::NoExpectation);
    }
    match &hole.unresolvable {
        Some(reason) => {
            let mut m = owned("the byte range of ");
            m.push_str(hole.location().as_str());
            m.push_str(" could not be validated (");
            m.push_str(reason.as_str());
            m.push_str("), so it cannot be patched safely");
            Some(ProbeOutcome::ProbeFailed(m))
        },
        None => None,
    }
}

/// The positions of the holes, among the first `n`, that need a check.
pub open spec fn batchable(holes: Seq<Hole>, n: int) -> Seq<usize>
    decreases n,
{
    if n <= 0 {
        seq![]
    } else if settled_without_check(holes[n - 1]@) is None {
        batchable(holes, n - 1).push((n - 1) as usize)
    } else {
        batchable(holes, n - 1)
    }
}

/// The holes, among the first `n`, that need no check, with what is known.
pub open spec fn settled(holes: Seq<Hole>, n: int) -> Seq<(usize, OutcomeView)>
    decreases n,
{
    if n <= 0 {
        seq![]
    } else {
        match settled_without_check(holes[n - 1]@) {
            Some(o) => settled(holes, n - 1).push(((n - 1) as usize, o)),
            None => settled(holes, n - 1),
        }
    }
}

/// The files of some holes.
pub open spec fn files_of(holes: Seq<Hole>) -> Seq<Seq<char>> {
    Seq::new(holes.len(), |i: int| holes[i].file@)
}

/// Outcomes with their positions, as plain text.
pub open spec fn settled_views(v: Seq<(usize, ProbeOutcome)>) -> Seq<(usize, OutcomeView)> {
    Seq::new(v.len(), |i: int| (v[i].0, v[i].1@))
}

/// Every hole is either grouped for a check or settled without one.
pub proof fn lemma_split_is_complete(holes: Seq<Hole>, n: int, i: int)
    requires
        0 <= i < n <= holes.len(),
        n <= usize::MAX,
    ensures
        batchable(holes, n).contains(i as usize) <==> settled_without_check(holes[i]@) is None,
        settled_without_check(holes[i]@) is Some ==> settled(holes, n).contains(
            (i as usize, settled_without_check(holes[i]@)->0),
        ),
    decreases n,
{
    let all = batchable(holes, n);
    let front = batchable(holes, n - 1);
    let done = settled(holes, n);
    let before = settled(holes, n - 1);
    lemma_batchable_bound(holes, n - 1);
    if i < n - 1 {
        lemma_split_is_complete(holes, n - 1, i);
        if front.contains(i as usize) {
            let k = choose|k: int| 0 <= k < front.len() && front[k] == i as usize;
            assert(all[k] == i as usize);
        }
        if all.contains(i as usize) {
            let k = choose|k: int| 0 <= k < all.len() && all[k] == i as usize;
            assert(front[k] == i as usize);
        }
        if settled_without_check(holes[i]@) is Some {
            let item = (i as usize, settled_without_check(holes[i]@)->0);
            let k = choose|k: int| 0 <= k < before.len() && before[k] == item;
            assert(done[k] == item);
        }
    } else {
        if settled_without_check(holes[i]@) is None {
            assert(all[front.len() as int] == i as usize);
        } else {
            assert(done[before.len() as int] == (
                i as usize,
                settled_without_check(holes[i]@)->0,
            ));
            if all.contains(i as usize) {
                let k = choose|k: int| 0 <= k < all.len() && all[k] == i as usize;
                assert(front[k] < n - 1);
            }
        }
    }
}

/// Every position that needs a check is one of the list.
pub proof fn lemma_batchable_bound(holes: Seq<Hole>, n: int)
    requires
        0 <= n <= usize::MAX,
    ensures
        forall|k: int| 0 <= k < batchable(holes, n).len() ==> #[trigger] batchable(holes, n)[k] < n,
    decreases n,
{
    if n > 0 {
        lemma_batchable_bound(holes, n - 1);
        let front = batchable(holes, n - 1);
        assert forall|k: int| 0 <= k < batchable(holes, n).len() implies #[trigger] batchable(
            holes,
            n,
        )[k] < n by {
            if k < front.len() {
                assert(front[k] < n - 1);
            }
        }
    }
}

/// Group holes by file, splitting off the ones that can never be patched.
///
/// Returns the holes to check, by their index in the caller's list and grouped
/// by file, so a verdict can be written back to the right slot; and the holes
/// decided without touching any file.
pub fn split_batchable(holes: &Vec<Hole>) -> (r: (Vec<FileGroup>, Vec<(usize, ProbeOutcome)>))
    ensures
        group_views(r.0@) == grouped(
            files_of(holes@),
            batchable(holes@, holes@.len() as int),
        ),
        settled_views(r.1@) == settled(holes@, holes@.len() as int),
{
    let mut by_file: Vec<FileGroup> = Vec::new();
    let mut impossible: Vec<(usize, ProbeOutcome)> = Vec::new();
    let mut i: usize = 0;
    proof {
        assert(group_views(by_file@) =~= Seq::<(Seq<char>, Seq<usize>)>::empty());
        assert(settled_views(impossible@) =~= Seq::<(usize, OutcomeView)>::empty());
    }
    while i < holes.len()
        invariant
            i <= holes@.len(),
            group_views(by_file@) == grouped(files_of(holes@), batchable(holes@, i as int)),
            settled_views(impossible@) == settled(holes@, i as int),
        decreases holes.len() - i,
    {
        match settle_without_check(&holes[i]) {
            Some(outcome) => {
                proof {
                    assert(settled_views(impossible@.push((i, outcome))) =~= settled_views(
                        impossible@,
                    ).push((i, outcome@)));
                }
                impossible.push((i, outcome));
            },
            None => {
                proof {
                    let all = batchable(holes@, i + 1);
                    assert(all.drop_last() =~= batchable(holes@, i as int));
                    assert(all.last() == i);
                    assert(files_of(holes@)[i as int] == holes@[i as int].file@);
                }
                add_member(&mut by_file, holes[i].file.as_str(), i);
            },
        }
        i = i + 1;
    }
    (by_file, impossible)
}

// ---------------------------------------------------------------------------
// Backups
// ---------------------------------------------------------------------------

/// Where the backup of a file stands: beside it, with the suffix added to its
/// name.
pub open spec fn backup_path_of(path: Seq<char>) -> Seq<char> {
    renamed(
        path,
        (match file_name_of(path) {
            Some(name) => name,
            None => ""@,
        }) + BACKUP_SUFFIX@,
    )
}

/// Path of the on-disk backup beside `path`.
pub fn backup_path(path: &str) -> (r: String)
    ensures
        r@ == backup_path_of(path@),
{
    let mut name = match file_name(path) {
        Some(n) => n,
        None => owned(""),
    };
    name.push_str(BACKUP_SUFFIX);
    with_file_name(path, name.as_str())
}

} // verus!
