//! What a probe that failed says, what is remembered of probes, and what is said about a
//! tree that does not compile.
use vstd::prelude::*;
use vstd::utf8::encode_utf8;

use crate::blame::{decided, error_at_hole, Isolation};
use crate::cmdline::{is_stranded, start_keys, top_to_bottom};
use crate::fill_run::{pre_existing_messages, rejection_messages};
use crate::filler::learned;
use crate::finder::{hole_at, same_range, without_repeats, Scope, Source};
use crate::gate::{failure_label, verdict_failures, VerdictView};
use crate::hole::{Hole, HolePosition, HoleView};
use crate::laws::places::{is_plain_name, lemma_add_name, lemma_places_are_counted};
use crate::laws::probing::{gap, is_span_in, lemma_distance_is_the_least};
use crate::laws::running::lemma_sorting_goes_by_the_first_number;
use crate::laws::sources::lemma_texts_meet_at_a_character;
use crate::order::{lemma_order_is_stable, order_of};
use crate::path::{components_of, is_below, is_same_path};
use crate::probe::with_settled;
use crate::prober::{
    errors_of, nearest, summary_of_run, CheckRun, Diagnostic, OutcomeView, PathTable,
};
use crate::text::begins;
use crate::util::lemma_place_fits;

verus! {

// ---------------------------------------------------------------------------
// Failed probes
// ---------------------------------------------------------------------------

/// Whether the spans of a diagnostic are the right way round.
pub open spec fn is_upright(d: Diagnostic) -> bool {
    forall|i: int|
        0 <= i < d.spans@.len() ==> (#[trigger] d.spans@[i]).byte_start <= d.spans@[i].byte_end
}

/// Whether one of the errors of a check has a span within 64 bytes of a hole.
pub open spec fn has_error_beside(
    table: PathTable,
    root: Seq<char>,
    run: CheckRun,
    hole: HoleView,
) -> bool {
    exists|e: int, i: int|
        0 <= e < errors_of(run.diagnostics@).len() && #[trigger] is_span_in(
            table,
            root,
            errors_of(run.diagnostics@)[e].spans@,
            hole.file,
            i,
        ) && gap(errors_of(run.diagnostics@)[e].spans@[i], hole.byte_start) <= 64
}

/// Whether an error is at a hole goes by the distance of its spans from where the hole
/// starts.
pub proof fn lemma_errors_beside_the_hole_are_at_it(
    table: PathTable,
    root: Seq<char>,
    run: CheckRun,
    hole: HoleView,
)
    requires
        forall|e: int|
            0 <= e < errors_of(run.diagnostics@).len() ==> is_upright(
                #[trigger] errors_of(run.diagnostics@)[e],
            ),
    ensures
        error_at_hole(table, root, run, hole) <==> has_error_beside(table, root, run, hole),
{
    let errs = errors_of(run.diagnostics@);
    assert forall|e: int| 0 <= e < errs.len() implies {
        &&& (nearest(table, root, (#[trigger] errs[e]).spans@, hole.file, hole.byte_start)
            matches Some(x) ==> exists|i: int| #[trigger]
            is_span_in(table, root, errs[e].spans@, hole.file, i) && gap(
                errs[e].spans@[i],
                hole.byte_start,
            ) == x)
    } by {
        assert(is_upright(errs[e]));
        lemma_distance_is_the_least(table, root, errs[e].spans@, hole.file, hole.byte_start);
    }
    if error_at_hole(table, root, run, hole) {
        let e = choose|e: int|
            0 <= e < errs.len() && crate::prober::is_near(
                table,
                root,
                #[trigger] errs[e],
                hole.file,
                hole.byte_start,
                64,
            );
        let x = nearest(table, root, errs[e].spans@, hole.file, hole.byte_start)->0;
        let i = choose|i: int| #[trigger]
            is_span_in(table, root, errs[e].spans@, hole.file, i) && gap(
                errs[e].spans@[i],
                hole.byte_start,
            ) == x;
        assert(is_span_in(table, root, errs[e].spans@, hole.file, i));
    }
    if has_error_beside(table, root, run, hole) {
        let (e, i) = choose|e: int, i: int|
            0 <= e < errs.len() && #[trigger] is_span_in(
                table,
                root,
                errs[e].spans@,
                hole.file,
                i,
            ) && gap(errs[e].spans@[i], hole.byte_start) <= 64;
        assert(is_upright(errs[e]));
        lemma_distance_is_the_least(table, root, errs[e].spans@, hole.file, hole.byte_start);
        assert(crate::prober::is_near(table, root, errs[e], hole.file, hole.byte_start, 64));
    }
}

/// A probe of one hole that gave errors, none of them the one it was made for, says whether
/// they are at the hole or elsewhere.
pub proof fn lemma_failed_probe_says_where(
    table: PathTable,
    root: Seq<char>,
    hole: HoleView,
    run: CheckRun,
    none: Seq<Diagnostic>,
)
    requires
        hole.position != HolePosition::Statement,
        none.len() == 0,
        errors_of(run.diagnostics@).len() > 0,
    ensures
        decided(table, root, hole, run, none, Isolation::Single) matches Some(
            OutcomeView::ProbeFailed(why),
        ) && begins(
            why,
            if error_at_hole(table, root, run, hole) {
                "substituting `()` at the hole does not compile: "@ + summary_of_run(run)
            } else {
                "the crate does not compile, so its inference cannot be trusted, and the errors are not at the hole: "@
                    + summary_of_run(run)
            },
        ),
{
    let r = decided(table, root, hole, run, none, Isolation::Single);
    let why = match r {
        Some(OutcomeView::ProbeFailed(w)) => w,
        _ => seq![],
    };
    let a = "substituting `()` at the hole does not compile: "@ + summary_of_run(run);
    let b = "the crate does not compile, so its inference cannot be trusted, and the errors are not at the hole: "@
        + summary_of_run(run);
    if error_at_hole(table, root, run, hole) {
        assert(why.take(a.len() as int) =~= a);
    } else {
        assert(why.take(b.len() as int) =~= b);
    }
}

// ---------------------------------------------------------------------------
// What is remembered
// ---------------------------------------------------------------------------

/// Whether a hole stands at the place of another: the same file, from the same byte to the
/// same byte.
pub open spec fn is_at_place_of(a: HoleView, b: HoleView) -> bool {
    is_same_path(a.file, b.file) && a.byte_start == b.byte_start && a.byte_end == b.byte_end
}

/// What is remembered of a hole is the last outcome for its place, and nothing where there
/// is none.
pub proof fn lemma_outcome_is_remembered_by_place(
    holes: Seq<Hole>,
    outcomes: Seq<OutcomeView>,
    h: HoleView,
    n: int,
)
    requires
        0 <= n <= holes.len(),
        holes.len() == outcomes.len(),
    ensures
        forall|i: int|
            #![trigger holes[i]]
            0 <= i < n && is_at_place_of(holes[i]@, h) && (forall|j: int|
                i < j < n ==> !is_at_place_of((#[trigger] holes[j])@, h)) ==> learned(
                holes,
                outcomes,
                h,
                n,
            ) == Some(outcomes[i]),
        (forall|i: int| 0 <= i < n ==> !is_at_place_of((#[trigger] holes[i])@, h)) ==> learned(
            holes,
            outcomes,
            h,
            n,
        ) is None,
    decreases n,
{
    if n > 0 {
        lemma_outcome_is_remembered_by_place(holes, outcomes, h, n - 1);
        if is_at_place_of(holes[n - 1]@, h) {
            assert forall|i: int|
                #![trigger holes[i]]
                0 <= i < n && is_at_place_of(holes[i]@, h) && (forall|j: int|
                    i < j < n ==> !is_at_place_of((#[trigger] holes[j])@, h)) implies learned(
                holes,
                outcomes,
                h,
                n,
            ) == Some(outcomes[i]) by {
                if i < n - 1 {
                    assert(!is_at_place_of(holes[n - 1]@, h));
                }
            }
        }
    }
}

// ---------------------------------------------------------------------------
// What is said
// ---------------------------------------------------------------------------

/// Every error outside the answers is told by itself, as not being one of them.
pub proof fn lemma_every_error_elsewhere_is_told(v: VerdictView, i: int)
    requires
        0 <= i < verdict_failures(v, false).len(),
    ensures
        pre_existing_messages(v).len() == verdict_failures(v, false).len(),
        begins(
            pre_existing_messages(v)[i],
            "warning: "@ + failure_label(verdict_failures(v, false)[i]),
        ),
{
    let m = pre_existing_messages(v)[i];
    let p = "warning: "@ + failure_label(verdict_failures(v, false)[i]);
    assert(m.take(p.len() as int) =~= p);
}

/// Every answer that did not compile is told by itself, as not written; nothing is said of a
/// tree that was accepted.
pub proof fn lemma_every_rejected_answer_is_told(v: VerdictView, i: int)
    ensures
        v is Accepted ==> rejection_messages(v).len() == 0,
        0 <= i < verdict_failures(v, true).len() ==> rejection_messages(v).len()
            == verdict_failures(v, true).len() && begins(
            rejection_messages(v)[i],
            "error: "@ + failure_label(verdict_failures(v, true)[i]),
        ),
        !(v is Accepted) && verdict_failures(v, true).len() == 0 ==> rejection_messages(v).len()
            == 1,
{
    if 0 <= i < verdict_failures(v, true).len() {
        let m = rejection_messages(v)[i];
        let p = "error: "@ + failure_label(verdict_failures(v, true)[i]);
        assert(m.take(p.len() as int) =~= p);
    }
}

// ---------------------------------------------------------------------------
// Where a hole is
// ---------------------------------------------------------------------------

/// A hole with a usable range is where that range is, on the line and in the column where it
/// starts.
pub proof fn lemma_hole_is_where_it_starts(
    p: Seq<char>,
    q: Seq<char>,
    rest: Seq<char>,
    file: Seq<char>,
    scope: Scope,
    position: HolePosition,
    name: Seq<char>,
    spec: Seq<char>,
    end: usize,
    path: int,
)
    requires
        p.len() > 0 ==> p.last() == '\n',
        forall|i: int| 0 <= i < q.len() ==> #[trigger] q[i] != '\n',
        encode_utf8(p + q).len() < end <= encode_utf8(p + q + rest).len() < usize::MAX,
    ensures
        ({
            let source = Source { file, text: p + q + rest };
            let start = encode_utf8(p + q).len() as int;
            let h = hole_at(source, scope, position, name, spec, Some((start, end as int)), path);
            &&& h.byte_start == start
            &&& h.byte_end == end
            &&& h.line == 1 + p.filter(|c: char| c == '\n').len()
            &&& h.column == 1 + q.len()
            &&& h.unresolvable is None
            &&& scope.pins.contains(true) ==> h.pinned
        }),
{
    lemma_places_are_counted(p, q, rest);
    lemma_texts_meet_at_a_character(p + q, rest);
    lemma_place_fits(p + q + rest, encode_utf8(p + q).len() as int);
}

/// A hole without a usable range has an empty one, and is marked as such.
pub proof fn lemma_hole_without_a_range_is_marked(
    source: Source,
    scope: Scope,
    position: HolePosition,
    name: Seq<char>,
    spec: Seq<char>,
    path: int,
)
    requires
        0 <= path <= usize::MAX,
    ensures
        ({
            let h = hole_at(source, scope, position, name, spec, None, path);
            &&& h.unresolvable is Some
            &&& h.byte_start == h.byte_end
            &&& h.spec == spec && h.macro_name == name && h.position == position
        }),
{
}

proof fn lemma_last_range_is_kept(holes: Seq<HoleView>)
    requires
        holes.len() > 0,
    ensures
        without_repeats(holes).len() > 0,
        same_range(without_repeats(holes).last(), holes.last()),
    decreases holes.len(),
{
}

/// Of holes that follow each other with one range, the first is kept; all others are.
pub proof fn lemma_first_of_a_range_is_kept(holes: Seq<HoleView>, h: HoleView)
    requires
        holes.len() > 0,
    ensures
        holes.last().byte_start == h.byte_start && holes.last().byte_end == h.byte_end
            ==> without_repeats(holes.push(h)) == without_repeats(holes),
        holes.last().byte_start != h.byte_start || holes.last().byte_end != h.byte_end
            ==> without_repeats(holes.push(h)) == without_repeats(holes).push(h),
{
    lemma_last_range_is_kept(holes);
    assert(holes.push(h).drop_last() =~= holes);
}

// ---------------------------------------------------------------------------
// Files and batches
// ---------------------------------------------------------------------------

/// What a batch settles is put down for the holes it was about, one for one, and nothing
/// else is touched.
pub proof fn lemma_batch_settles_its_members(
    known: Seq<Option<OutcomeView>>,
    members: Seq<usize>,
    settled: Seq<Option<OutcomeView>>,
    n: int,
)
    requires
        0 <= n <= members.len(),
        members.len() == settled.len(),
        forall|k: int| 0 <= k < members.len() ==> #[trigger] members[k] < known.len(),
        forall|k: int, l: int|
            0 <= k < l < members.len() ==> #[trigger] members[k] != #[trigger] members[l],
    ensures
        with_settled(known, members, settled, n).len() == known.len(),
        forall|k: int|
            #![trigger members[k]]
            0 <= k < n ==> with_settled(known, members, settled, n)[members[k] as int]
                == settled[k],
        forall|p: int|
            0 <= p < known.len() && (forall|k: int| 0 <= k < n ==> #[trigger] members[k] != p)
                ==> #[trigger] with_settled(known, members, settled, n)[p] == known[p],
    decreases n,
{
    if n > 0 {
        lemma_batch_settles_its_members(known, members, settled, n - 1);
        let before = with_settled(known, members, settled, n - 1);
        let after = with_settled(known, members, settled, n);
        assert forall|k: int|
            #![trigger members[k]]
            0 <= k < n implies after[members[k] as int] == settled[k] by {
            if k < n - 1 {
                assert(members[k] != members[n - 1]);
                assert(before[members[k] as int] == settled[k]);
            }
        }
        assert forall|p: int|
            0 <= p < known.len() && (forall|k: int| 0 <= k < n ==> #[trigger] members[k] != p)
                implies #[trigger] after[p] == known[p] by {
            assert(members[n - 1] != p);
            assert(before[p] == known[p]);
        }
    }
}

/// The holes of a file are gone through from top to bottom, each of them once.
pub proof fn lemma_holes_of_a_file_go_down(holes: Seq<HoleView>, members: Seq<usize>)
    requires
        members.len() <= usize::MAX,
    ensures
        top_to_bottom(holes, members).len() == members.len(),
        forall|i: int, j: int|
            0 <= i < j < members.len() ==> (#[trigger] top_to_bottom(holes, members)[i]).byte_start
                <= (#[trigger] top_to_bottom(holes, members)[j]).byte_start,
        forall|k: int|
            0 <= k < members.len() ==> top_to_bottom(holes, members).contains(
                holes[(#[trigger] members[k]) as int],
            ),
{
    let keys = start_keys(holes, members);
    lemma_sorting_goes_by_the_first_number(keys);
    let order = order_of(keys);
    let all = top_to_bottom(holes, members);
    lemma_order_is_stable(keys, keys.len() as int);
    assert forall|i: int, j: int| 0 <= i < j < members.len() implies (#[trigger] all[i]).byte_start
        <= (#[trigger] all[j]).byte_start by {
        assert(keys[order[i] as int].0 <= keys[order[j] as int].0);
        assert(keys[order[i] as int].0 == all[i].byte_start);
        assert(keys[order[j] as int].0 == all[j].byte_start);
    }
    assert forall|k: int| 0 <= k < members.len() implies all.contains(
        holes[(#[trigger] members[k]) as int],
    ) by {
        let p = k as usize;
        assert(order.contains(p));
        let i = choose|i: int| 0 <= i < order.len() && order[i] == p;
        assert(all[i] == holes[members[k] as int]);
    }
}

/// Generated code below a directory of the store is read by a build exactly when that is the
/// one for patches or the one for builds.
pub proof fn lemma_only_patches_are_built(
    root: Seq<char>,
    dir: Seq<char>,
    top: Seq<char>,
    stem: Seq<char>,
)
    requires
        root.len() > 0,
        root.last() != '/',
        is_plain_name(top),
        stem.len() > 0,
        !stem.contains('/'),
        !is_below(root + "/"@ + ".cargo-hole"@ + "/"@ + top + "/"@ + (stem + ".rs"@), dir),
    ensures
        is_stranded(root, dir, root + "/"@ + ".cargo-hole"@ + "/"@ + top + "/"@ + (stem + ".rs"@))
            <==> top != "patch"@ && top != "build"@,
{
    lemma_store_names();
    reveal_strlit("/");
    reveal_strlit(".rs");
    reveal_strlit(".");
    reveal_strlit("..");
    let leaf = stem + ".rs"@;
    assert(leaf.len() > 3);
    assert(leaf != "."@ && leaf != ".."@);
    assert(!leaf.contains('/')) by {
        assert forall|i: int| 0 <= i < leaf.len() implies leaf[i] != '/' by {
            if i < stem.len() {
                assert(stem.contains(stem[i]));
            }
        }
    }
    let store = root + "/"@ + ".cargo-hole"@;
    lemma_add_name(root, ".cargo-hole"@);
    lemma_add_name(store, top);
    lemma_add_name(store, "patch"@);
    lemma_add_name(store, "build"@);
    let mid = store + "/"@ + top;
    lemma_add_name(mid, leaf);
    let file = mid + "/"@ + leaf;
    let n = components_of(store).len() as int;
    let c = components_of(file);
    assert(c =~= components_of(store).push(top).push(leaf));
    assert(c[n] == top);
    lemma_below_by_name(components_of(store), top, leaf, "patch"@);
    lemma_below_by_name(components_of(store), top, leaf, "build"@);
    assert(file.skip(file.len() - 3) =~= ".rs"@);
}

proof fn lemma_below_by_name(s: Seq<Seq<char>>, top: Seq<char>, leaf: Seq<char>, other: Seq<char>)
    ensures
        s.push(other).is_prefix_of(s.push(top).push(leaf)) <==> top == other,
{
    let a = s.push(other);
    let c = s.push(top).push(leaf);
    assert(a[s.len() as int] == other);
    assert(c[s.len() as int] == top);
    if top == other {
        assert(c.take(a.len() as int) =~= a);
    } else if a.is_prefix_of(c) {
        assert(c.take(a.len() as int)[s.len() as int] == c[s.len() as int]);
    }
}

proof fn lemma_store_names()
    ensures
        is_plain_name(".cargo-hole"@),
        is_plain_name("patch"@),
        is_plain_name("build"@),
        "patch"@ != "build"@,
{
    reveal_strlit(".");
    reveal_strlit("..");
    reveal_strlit(".cargo-hole");
    reveal_strlit("patch");
    reveal_strlit("build");
    assert(".cargo-hole"@.len() == 11 && "patch"@.len() == 5 && "build"@.len() == 5);
    assert("patch"@[0] != "build"@[0]);
    assert("."@.len() == 1 && ".."@.len() == 2);
}

} // verus!
