//! Deciding holes from the diagnostics of one check.
use vstd::prelude::*;

use crate::hole::{Hole, HolePosition, HoleView};
use crate::order::{order_of, sort_positions, Key};
use crate::prober::{
    attributable_e0308, bare_type, concrete_type, errors_of, is_attributable, is_near,
    is_unit_mismatch, nearest, referents, summary_of_run, type_named, type_problem, CheckRun,
    Diagnostic, OutcomeView, PathTable, ProbeOutcome, ATTRIBUTION_WINDOW, LOCAL_WINDOW,
};
use crate::text::owned;

verus! {

/// Whether the run being interpreted patched one hole or many.
#[derive(Debug, Clone, Copy, PartialEq, Eq, Structural)]
pub enum Isolation {
    /// Exactly one hole was patched, so every error in the run belongs either to
    /// this hole or to the crate as it was already.
    Single,
    /// Many holes were patched at once, so an error may belong to any of them.
    Batched,
}

/// The first concrete type that any of the diagnostics from `i` on names.
pub open spec fn first_concrete(blame: Seq<Diagnostic>, i: int) -> Option<Seq<char>>
    decreases blame.len() - i,
{
    if i >= blame.len() {
        None
    } else {
        match type_named(blame[i]) {
            Some(ty) => if type_problem(bare_type(ty)) is None {
                Some(bare_type(ty))
            } else {
                first_concrete(blame, i + 1)
            },
            None => first_concrete(blame, i + 1),
        }
    }
}

/// Whether one of the errors is right at the hole.
pub open spec fn error_at_hole(
    table: PathTable,
    root: Seq<char>,
    run: CheckRun,
    hole: HoleView,
) -> bool {
    exists|i: int|
        0 <= i < errors_of(run.diagnostics@).len() && is_near(
            table,
            root,
            #[trigger] errors_of(run.diagnostics@)[i],
            hole.file,
            hole.byte_start,
            LOCAL_WINDOW as int,
        )
}

/// What a probe that did not compile says about it.
pub open spec fn failure_text(at_hole: bool, summary: Seq<char>) -> Seq<char> {
    if at_hole {
        "substituting `()` at the hole does not compile: "@ + summary
            + ". This position usually means `!` fell back to `()` (an operator, a method call, or an `impl Trait` return), so rustc never emits the E0308 this probe needs"@
    } else {
        "the crate does not compile, so its inference cannot be trusted, and the errors are not at the hole: "@
            + summary + ". Fix these first"@
    }
}

/// What a check settles about a hole, given the diagnostics that are about it.
/// A batched check with errors and none of them about the hole settles nothing.
pub open spec fn decided(
    table: PathTable,
    root: Seq<char>,
    hole: HoleView,
    run: CheckRun,
    blame: Seq<Diagnostic>,
    isolation: Isolation,
) -> Option<OutcomeView> {
    if hole.position == HolePosition::Statement {
        Some(OutcomeView::NoExpectation)
    } else if first_concrete(blame, 0) is Some {
        Some(OutcomeView::Known(first_concrete(blame, 0)->0))
    } else if blame.len() > 0 || errors_of(run.diagnostics@).len() == 0 {
        Some(OutcomeView::NoExpectation)
    } else if isolation == Isolation::Batched {
        None
    } else {
        Some(
            OutcomeView::ProbeFailed(
                failure_text(error_at_hole(table, root, run, hole), summary_of_run(run)),
            ),
        )
    }
}

/// The diagnostics that are about a hole when it is the only one patched.
pub open spec fn attributable_of(
    table: PathTable,
    root: Seq<char>,
    ds: Seq<Diagnostic>,
    hole: HoleView,
) -> Seq<Diagnostic>
    decreases ds.len(),
{
    if ds.len() == 0 {
        seq![]
    } else if is_attributable(table, root, ds.last(), hole) {
        attributable_of(table, root, ds.drop_last(), hole).push(ds.last())
    } else {
        attributable_of(table, root, ds.drop_last(), hole)
    }
}

/// An outcome that may be missing, as plain text.
pub open spec fn opt_outcome(o: Option<ProbeOutcome>) -> Option<OutcomeView> {
    match o {
        Some(x) => Some(x@),
        None => None,
    }
}

/// A check that patched one hole always settles it.
pub proof fn lemma_single_probe_decides(
    table: PathTable,
    root: Seq<char>,
    hole: HoleView,
    run: CheckRun,
    blame: Seq<Diagnostic>,
)
    ensures
        decided(table, root, hole, run, blame, Isolation::Single) is Some,
{
}

/// Where a batched check settles a hole, a check of that hole alone with the
/// same diagnostics settles it the same way.
pub proof fn lemma_batch_is_only_faster(
    table: PathTable,
    root: Seq<char>,
    hole: HoleView,
    run: CheckRun,
    blame: Seq<Diagnostic>,
)
    ensures
        decided(table, root, hole, run, blame, Isolation::Batched) is Some ==> decided(
            table,
            root,
            hole,
            run,
            blame,
            Isolation::Batched,
        ) == decided(table, root, hole, run, blame, Isolation::Single),
{
}

/// Decide a hole from one completed check run, given the diagnostics already
/// attributed to it.
///
/// Returns `None` only when the run cannot settle this hole *because it was
/// batched*: see [`Isolation`]. Callers in [`Isolation::Single`] always get
/// `Some`.
pub fn decide(
    hole: &Hole,
    table: &PathTable,
    root: &str,
    run: &CheckRun,
    blame: &Vec<&Diagnostic>,
    isolation: Isolation,
) -> (r: Option<ProbeOutcome>)
    ensures
        opt_outcome(r) == decided(*table, root@, hole@, *run, referents(blame@), isolation),
{
    // A statement's value is discarded, so there is no expected type to find.
    if hole.position == HolePosition::Statement {
        return Some(ProbeOutcome::NoExpectation);
    }

    // An attributable E0308 is direct evidence about this hole, and it outranks
    // anything else in the stream. Another hole's error elsewhere in the crate
    // does not invalidate it.
    let ghost all = referents(blame@);
    let mut i: usize = 0;
    while i < blame.len()
        invariant
            i <= blame@.len(),
            all == referents(blame@),
            hole.position != HolePosition::Statement,
            first_concrete(all, 0) == first_concrete(all, i as int),
        decreases blame.len() - i,
    {
        let d = blame[i];
        proof {
            assert(all[i as int] == *d);
        }
        if let Some(ty) = d.expected_type() {
            if let Ok(t) = concrete_type(ty.as_str()) {
                return Some(ProbeOutcome::Known(t));
            }
        }
        i = i + 1;
    }
    proof {
        assert(all.len() == blame@.len());
    }

    // rustc answered, but the answer is not something a model can be asked for;
    // or the run produced no errors at all, so nothing can have cascaded into
    // suppressing this hole's diagnostic. Either way there is honestly no
    // expectation to report.
    if blame.len() > 0 || run.error_count() == 0 {
        return Some(ProbeOutcome::NoExpectation);
    }

    // Errors exist and none is attributable to this hole.
    //
    // In a batch that is ambiguous: another patched hole may have broken
    // inference badly enough to suppress or redirect the diagnostic this hole
    // would otherwise have produced. So the batch declines and the caller
    // re-probes this hole in isolation.
    if isolation == Isolation::Batched {
        return None;
    }

    // Single: the only patch was ours, so say which of the two situations it is,
    // because they need different fixes.
    let errs = run.errors();
    let ghost errors = errors_of(run.diagnostics@);
    let mut near_hole = false;
    let mut i: usize = 0;
    proof {
        assert(errors.len() == errs@.len());
    }
    while i < errs.len()
        invariant
            i <= errs@.len(),
            errors == errors_of(run.diagnostics@),
            errors == referents(errs@),
            errors.len() == errs@.len(),
            near_hole == (exists|k: int|
                0 <= k < i && is_near(
                    *table,
                    root@,
                    #[trigger] errors[k],
                    hole@.file,
                    hole@.byte_start,
                    LOCAL_WINDOW as int,
                )),
        decreases errs.len() - i,
    {
        proof {
            assert(errors[i as int] == *errs@[i as int]);
        }
        let here = match errs[i].distance_to(table, hole.file.as_str(), root, hole.byte_start) {
            Some(x) => x <= LOCAL_WINDOW,
            None => false,
        };
        near_hole = near_hole || here;
        i = i + 1;
    }
    proof {
        assert(near_hole == error_at_hole(*table, root@, *run, hole@));
    }

    let mut m = if near_hole {
        owned("substituting `()` at the hole does not compile: ")
    } else {
        owned(
            "the crate does not compile, so its inference cannot be trusted, and the errors are not at the hole: ",
        )
    };
    m.push_str(run.error_summary().as_str());
    m.push_str(
        if near_hole {
            ". This position usually means `!` fell back to `()` (an operator, a method call, or an `impl Trait` return), so rustc never emits the E0308 this probe needs"
        } else {
            ". Fix these first"
        },
    );
    Some(ProbeOutcome::ProbeFailed(m))
}

/// The `E0308`s in `run` that name our `()` and lie near this hole.
///
/// This is the single-hole view: with only one hole patched, every diagnostic
/// that mentions `found ()` and is close enough belongs to it.
pub fn attributable_diagnostics<'a>(
    hole: &Hole,
    table: &PathTable,
    root: &str,
    run: &'a CheckRun,
) -> (r: Vec<&'a Diagnostic>)
    ensures
        referents(r@) == attributable_of(*table, root@, run.diagnostics@, hole@),
{
    let mut out: Vec<&'a Diagnostic> = Vec::new();
    let mut i: usize = 0;
    proof {
        assert(run.diagnostics@.take(0) =~= Seq::<Diagnostic>::empty());
        assert(referents(out@) =~= Seq::<Diagnostic>::empty());
    }
    while i < run.diagnostics.len()
        invariant
            i <= run.diagnostics@.len(),
            referents(out@) == attributable_of(
                *table,
                root@,
                run.diagnostics@.take(i as int),
                hole@,
            ),
        decreases run.diagnostics.len() - i,
    {
        let d = &run.diagnostics[i];
        proof {
            assert(run.diagnostics@.take(i + 1).drop_last() =~= run.diagnostics@.take(i as int));
            assert(run.diagnostics@.take(i + 1).last() == *d);
            assert(referents(out@.push(d)) =~= referents(out@).push(*d));
        }
        if attributable_e0308(d, hole, table, root).is_ok() {
            out.push(d);
        }
        i = i + 1;
    }
    proof {
        assert(run.diagnostics@.take(run.diagnostics@.len() as int) =~= run.diagnostics@);
    }
    out
}

/// Turn a finished `cargo check` into a verdict about one hole.
///
/// Split out from the process handling so the decision logic — which is where
/// the subtle mistakes live — can be tested exhaustively without running cargo.
pub fn interpret(hole: &Hole, table: &PathTable, root: &str, run: &CheckRun) -> (r: ProbeOutcome)
    ensures
        Some(r@) == decided(
            *table,
            root@,
            hole@,
            *run,
            attributable_of(*table, root@, run.diagnostics@, hole@),
            Isolation::Single,
        ),
{
    let blame = attributable_diagnostics(hole, table, root, run);
    match decide(hole, table, root, run, &blame, Isolation::Single) {
        Some(outcome) => outcome,
        // Single-hole probing patches only this hole, so nothing else can have
        // disturbed it and the ambiguous case cannot arise.
        None => {
            assert(false);
            ProbeOutcome::NoExpectation
        },
    }
}

// ---------------------------------------------------------------------------
// Sharing out the diagnostics of a batch
// ---------------------------------------------------------------------------

/// The diagnostics of a run that a batch shares out.
pub open spec fn candidates_of(ds: Seq<Diagnostic>) -> Seq<Diagnostic>
    decreases ds.len(),
{
    if ds.len() == 0 {
        seq![]
    } else if is_unit_mismatch(ds.last()) {
        candidates_of(ds.drop_last()).push(ds.last())
    } else {
        candidates_of(ds.drop_last())
    }
}

/// Where hole `h` stands in the patched text: its anchor, when it has one.
pub open spec fn anchor_of(holes: Seq<&Hole>, anchors: Seq<usize>, h: int) -> usize {
    if h < anchors.len() {
        anchors[h]
    } else {
        holes[h].byte_start
    }
}

/// How far candidate `c` is from hole `h`, when it is in the window.
pub open spec fn reach(
    table: PathTable,
    root: Seq<char>,
    candidates: Seq<Diagnostic>,
    holes: Seq<&Hole>,
    anchors: Seq<usize>,
    c: int,
    h: int,
) -> Option<int> {
    match nearest(
        table,
        root,
        candidates[c].spans@,
        holes[h].file@,
        anchor_of(holes, anchors, h),
    ) {
        Some(x) => if x <= ATTRIBUTION_WINDOW {
            Some(x)
        } else {
            None
        },
        None => None,
    }
}

/// The pairings of candidate `c` with the holes before `h`.
pub open spec fn pairs_with(
    table: PathTable,
    root: Seq<char>,
    candidates: Seq<Diagnostic>,
    holes: Seq<&Hole>,
    anchors: Seq<usize>,
    c: int,
    h: int,
) -> Seq<Key>
    decreases h,
{
    if h <= 0 {
        seq![]
    } else {
        let front = pairs_with(table, root, candidates, holes, anchors, c, h - 1);
        match reach(table, root, candidates, holes, anchors, c, h - 1) {
            Some(x) => front.push((x as usize, c as usize, (h - 1) as usize)),
            None => front,
        }
    }
}

/// The pairings of the candidates before `c` with all holes: the distance, the
/// candidate and the hole of each.
pub open spec fn pairs_before(
    table: PathTable,
    root: Seq<char>,
    candidates: Seq<Diagnostic>,
    holes: Seq<&Hole>,
    anchors: Seq<usize>,
    c: int,
) -> Seq<Key>
    decreases c,
{
    if c <= 0 {
        seq![]
    } else {
        pairs_before(table, root, candidates, holes, anchors, c - 1) + pairs_with(
            table,
            root,
            candidates,
            holes,
            anchors,
            c - 1,
            holes.len() as int,
        )
    }
}

/// The pairings from the closest to the farthest; a tie goes to the earlier
/// diagnostic, then to the earlier hole.
pub open spec fn closest_first(pairs: Seq<Key>) -> Seq<Key> {
    let order = order_of(pairs);
    Seq::new(order.len(), |k: int| pairs[order[k] as int])
}

/// Whether candidate `c` has been given to a hole.
pub open spec fn is_given(given: Seq<Option<int>>, c: int) -> bool {
    exists|h: int| 0 <= h < given.len() && #[trigger] given[h] == Some(c)
}

/// Which candidate each of `n` holes has after the first `k` pairings: a
/// pairing counts when neither its diagnostic nor its hole is taken.
pub open spec fn given_after(pairs: Seq<Key>, n: nat, k: int) -> Seq<Option<int>>
    decreases k,
{
    if k <= 0 {
        Seq::new(n, |h: int| None)
    } else {
        let given = given_after(pairs, n, k - 1);
        let (_, c, h) = pairs[k - 1];
        if given[h as int] is Some || is_given(given, c as int) {
            given
        } else {
            given.update(h as int, Some(c as int))
        }
    }
}

/// Which candidate each hole of a batch is given.
pub open spec fn assignment(
    table: PathTable,
    root: Seq<char>,
    holes: Seq<&Hole>,
    anchors: Seq<usize>,
    run: CheckRun,
) -> Seq<Option<int>> {
    let candidates = candidates_of(run.diagnostics@);
    let pairs = closest_first(
        pairs_before(table, root, candidates, holes, anchors, candidates.len() as int),
    );
    given_after(pairs, holes.len(), pairs.len() as int)
}

/// What is given to a hole, as a list.
pub open spec fn as_list(candidates: Seq<Diagnostic>, given: Option<int>) -> Seq<Diagnostic> {
    match given {
        Some(c) => seq![candidates[c]],
        None => seq![],
    }
}

/// Every pairing is between a candidate and a hole.
pub open spec fn pairs_fit(pairs: Seq<Key>, candidates: nat, holes: nat) -> bool {
    forall|k: int|
        0 <= k < pairs.len() ==> (#[trigger] pairs[k]).1 < candidates && pairs[k].2 < holes
}

proof fn lemma_pairs_with_fit(
    table: PathTable,
    root: Seq<char>,
    candidates: Seq<Diagnostic>,
    holes: Seq<&Hole>,
    anchors: Seq<usize>,
    c: int,
    h: int,
)
    requires
        0 <= c < candidates.len() <= usize::MAX,
        0 <= h <= holes.len() <= usize::MAX,
    ensures
        pairs_fit(
            pairs_with(table, root, candidates, holes, anchors, c, h),
            candidates.len(),
            holes.len(),
        ),
    decreases h,
{
    if h > 0 {
        lemma_pairs_with_fit(table, root, candidates, holes, anchors, c, h - 1);
    }
}

proof fn lemma_pairs_fit(
    table: PathTable,
    root: Seq<char>,
    candidates: Seq<Diagnostic>,
    holes: Seq<&Hole>,
    anchors: Seq<usize>,
    c: int,
)
    requires
        0 <= c <= candidates.len() <= usize::MAX,
        holes.len() <= usize::MAX,
    ensures
        pairs_fit(
            pairs_before(table, root, candidates, holes, anchors, c),
            candidates.len(),
            holes.len(),
        ),
    decreases c,
{
    if c > 0 {
        lemma_pairs_fit(table, root, candidates, holes, anchors, c - 1);
        lemma_pairs_with_fit(
            table,
            root,
            candidates,
            holes,
            anchors,
            c - 1,
            holes.len() as int,
        );
        let a = pairs_before(table, root, candidates, holes, anchors, c - 1);
        let b = pairs_with(table, root, candidates, holes, anchors, c - 1, holes.len() as int);
        assert forall|k: int| 0 <= k < (a + b).len() implies (#[trigger] (a + b)[k]).1
            < candidates.len() && (a + b)[k].2 < holes.len() by {
            if k < a.len() {
                assert((a + b)[k] == a[k]);
            } else {
                assert((a + b)[k] == b[k - a.len()]);
            }
        }
    }
}

proof fn lemma_closest_first_fit(pairs: Seq<Key>, candidates: nat, holes: nat)
    requires
        pairs_fit(pairs, candidates, holes),
        pairs.len() <= usize::MAX,
    ensures
        pairs_fit(closest_first(pairs), candidates, holes),
        closest_first(pairs).len() == pairs.len(),
{
    crate::order::lemma_order_is_stable(pairs, pairs.len() as int);
    let order = order_of(pairs);
    assert forall|k: int| 0 <= k < closest_first(pairs).len() implies (#[trigger] closest_first(
        pairs,
    )[k]).1 < candidates && closest_first(pairs)[k].2 < holes by {
        assert(order[k] < pairs.len());
        assert(closest_first(pairs)[k] == pairs[order[k] as int]);
    }
}

/// No diagnostic is ever given to two holes.
pub proof fn lemma_given_once(pairs: Seq<Key>, n: nat, k: int)
    requires
        0 <= k <= pairs.len(),
        forall|j: int| 0 <= j < pairs.len() ==> (#[trigger] pairs[j]).2 < n,
    ensures
        given_after(pairs, n, k).len() == n,
        forall|a: int, b: int|
            0 <= a < b < n && (#[trigger] given_after(pairs, n, k)[a]) is Some ==> given_after(
                pairs,
                n,
                k,
            )[a] != #[trigger] given_after(pairs, n, k)[b],
    decreases k,
{
    if k > 0 {
        lemma_given_once(pairs, n, k - 1);
        let given = given_after(pairs, n, k - 1);
        let (_, c, h) = pairs[k - 1];
        let now = given_after(pairs, n, k);
        if !(given[h as int] is Some || is_given(given, c as int)) {
            assert forall|a: int, b: int| 0 <= a < b < n && (#[trigger] now[a]) is Some implies now[a]
                != #[trigger] now[b] by {
                assert(a != h ==> now[a] == given[a]);
                assert(b != h ==> now[b] == given[b]);
                if a == h && given[b] == Some(c as int) {
                    assert(is_given(given, c as int));
                }
                if b == h && given[a] == Some(c as int) {
                    assert(is_given(given, c as int));
                }
            }
        }
    }
}

/// What a hole is given comes from a pairing with it.
proof fn lemma_given_by(pairs: Seq<Key>, n: nat, k: int, h: int)
    requires
        0 <= k <= pairs.len(),
        0 <= h < n,
        forall|m: int| 0 <= m < pairs.len() ==> (#[trigger] pairs[m]).2 < n,
        given_after(pairs, n, k)[h] is Some,
    ensures
        exists|i: int|
            0 <= i < k && (#[trigger] pairs[i]).2 == h && given_after(pairs, n, k)[h] == Some(
                pairs[i].1 as int,
            ),
    decreases k,
{
    lemma_given_once(pairs, n, k);
    if k > 0 {
        lemma_given_once(pairs, n, k - 1);
        let given = given_after(pairs, n, k - 1);
        let now = given_after(pairs, n, k);
        if now[h] == given[h] {
            lemma_given_by(pairs, n, k - 1, h);
        } else {
            assert(pairs[k - 1].2 == h);
        }
    }
}

proof fn lemma_given_stays(pairs: Seq<Key>, n: nat, j: int, k: int, h: int)
    requires
        0 <= j <= k <= pairs.len(),
        0 <= h < n,
        forall|m: int| 0 <= m < pairs.len() ==> (#[trigger] pairs[m]).2 < n,
        given_after(pairs, n, j)[h] is Some,
    ensures
        given_after(pairs, n, k)[h] == given_after(pairs, n, j)[h],
    decreases k,
{
    if j < k {
        lemma_given_stays(pairs, n, j, k - 1, h);
        lemma_given_once(pairs, n, k - 1);
    }
}

/// Whether pairing `i` was made, no later than `j` was looked at, and took the
/// diagnostic or the hole of `j`.
spec fn settles(pairs: Seq<Key>, given: Seq<Option<int>>, i: int, j: int) -> bool {
    &&& 0 <= i <= j
    &&& given[pairs[i].2 as int] == Some(pairs[i].1 as int)
    &&& pairs[i].1 == pairs[j].1 || pairs[i].2 == pairs[j].2
}

/// Of every pairing, the diagnostic or the hole goes to a pairing that does not come
/// after it.
proof fn lemma_pairings_are_settled(pairs: Seq<Key>, n: nat, j: int)
    requires
        0 <= j < pairs.len(),
        forall|m: int| 0 <= m < pairs.len() ==> (#[trigger] pairs[m]).2 < n,
    ensures
        exists|i: int| #[trigger]
            settles(pairs, given_after(pairs, n, pairs.len() as int), i, j),
{
    let end = pairs.len() as int;
    let (_, c, h) = pairs[j];
    let given = given_after(pairs, n, j);
    let last = given_after(pairs, n, end);
    lemma_given_once(pairs, n, j);
    if given[h as int] is Some {
        lemma_given_by(pairs, n, j, h as int);
        let i = choose|i: int|
            0 <= i < j && (#[trigger] pairs[i]).2 == h && given[h as int] == Some(
                pairs[i].1 as int,
            );
        lemma_given_stays(pairs, n, j, end, h as int);
        assert(settles(pairs, last, i, j));
    } else if is_given(given, c as int) {
        let g = choose|g: int| 0 <= g < given.len() && #[trigger] given[g] == Some(c as int);
        lemma_given_by(pairs, n, j, g);
        let i = choose|i: int|
            0 <= i < j && (#[trigger] pairs[i]).2 == g && given[g] == Some(pairs[i].1 as int);
        lemma_given_stays(pairs, n, j, end, g);
        assert(settles(pairs, last, i, j));
    } else {
        lemma_given_once(pairs, n, j + 1);
        assert(given_after(pairs, n, j + 1)[h as int] == Some(c as int));
        lemma_given_stays(pairs, n, j + 1, end, h as int);
        assert(settles(pairs, last, j, j));
    }
}

/// Every pairing in a list is within reach, and says how far.
spec fn pairs_true(
    table: PathTable,
    root: Seq<char>,
    candidates: Seq<Diagnostic>,
    holes: Seq<&Hole>,
    anchors: Seq<usize>,
    pairs: Seq<Key>,
) -> bool {
    forall|k: int|
        0 <= k < pairs.len() ==> reach(
            table,
            root,
            candidates,
            holes,
            anchors,
            (#[trigger] pairs[k]).1 as int,
            pairs[k].2 as int,
        ) == Some(pairs[k].0 as int)
}

proof fn lemma_nearest_is_not_negative(
    table: PathTable,
    root: Seq<char>,
    spans: Seq<crate::prober::Span>,
    file: Seq<char>,
    byte: usize,
)
    ensures
        nearest(table, root, spans, file, byte) matches Some(x) ==> 0 <= x,
    decreases spans.len(),
{
    if spans.len() > 0 {
        lemma_nearest_is_not_negative(table, root, spans.drop_last(), file, byte);
    }
}

proof fn lemma_pairs_with_true(
    table: PathTable,
    root: Seq<char>,
    candidates: Seq<Diagnostic>,
    holes: Seq<&Hole>,
    anchors: Seq<usize>,
    c: int,
    h: int,
)
    requires
        0 <= c < candidates.len() <= usize::MAX,
        0 <= h <= holes.len() <= usize::MAX,
    ensures
        pairs_true(
            table,
            root,
            candidates,
            holes,
            anchors,
            pairs_with(table, root, candidates, holes, anchors, c, h),
        ),
        forall|g: int|
            0 <= g < h ==> (#[trigger] reach(table, root, candidates, holes, anchors, c, g) matches Some(
                x,
            ) ==> pairs_with(table, root, candidates, holes, anchors, c, h).contains(
                (x as usize, c as usize, g as usize),
            )),
    decreases h,
{
    if h > 0 {
        lemma_pairs_with_true(table, root, candidates, holes, anchors, c, h - 1);
        lemma_nearest_is_not_negative(
            table,
            root,
            candidates[c].spans@,
            holes[h - 1].file@,
            anchor_of(holes, anchors, h - 1),
        );
        let front = pairs_with(table, root, candidates, holes, anchors, c, h - 1);
        let all = pairs_with(table, root, candidates, holes, anchors, c, h);
        assert forall|g: int| 0 <= g < h implies (#[trigger] reach(
            table,
            root,
            candidates,
            holes,
            anchors,
            c,
            g,
        ) matches Some(x) ==> all.contains((x as usize, c as usize, g as usize))) by {
            if let Some(x) = reach(table, root, candidates, holes, anchors, c, g) {
                let key = (x as usize, c as usize, g as usize);
                if g < h - 1 {
                    assert(front.contains(key));
                    let k = choose|k: int| 0 <= k < front.len() && front[k] == key;
                    assert(all[k] == key);
                } else {
                    assert(all[front.len() as int] == key);
                }
            }
        }
    }
}

proof fn lemma_pairs_true(
    table: PathTable,
    root: Seq<char>,
    candidates: Seq<Diagnostic>,
    holes: Seq<&Hole>,
    anchors: Seq<usize>,
    c: int,
)
    requires
        0 <= c <= candidates.len() <= usize::MAX,
        holes.len() <= usize::MAX,
    ensures
        pairs_true(
            table,
            root,
            candidates,
            holes,
            anchors,
            pairs_before(table, root, candidates, holes, anchors, c),
        ),
        forall|d: int, g: int|
            0 <= d < c && 0 <= g < holes.len() ==> (#[trigger] reach(
                table,
                root,
                candidates,
                holes,
                anchors,
                d,
                g,
            ) matches Some(x) ==> pairs_before(table, root, candidates, holes, anchors, c).contains(
                (x as usize, d as usize, g as usize),
            )),
    decreases c,
{
    if c > 0 {
        let n = holes.len() as int;
        lemma_pairs_true(table, root, candidates, holes, anchors, c - 1);
        lemma_pairs_with_true(table, root, candidates, holes, anchors, c - 1, n);
        let a = pairs_before(table, root, candidates, holes, anchors, c - 1);
        let b = pairs_with(table, root, candidates, holes, anchors, c - 1, n);
        let all = pairs_before(table, root, candidates, holes, anchors, c);
        assert(all == a + b);
        assert forall|k: int| 0 <= k < all.len() implies reach(
            table,
            root,
            candidates,
            holes,
            anchors,
            (#[trigger] all[k]).1 as int,
            all[k].2 as int,
        ) == Some(all[k].0 as int) by {
            if k < a.len() {
                assert(all[k] == a[k]);
            } else {
                assert(all[k] == b[k - a.len()]);
            }
        }
        assert forall|d: int, g: int| 0 <= d < c && 0 <= g < n implies (#[trigger] reach(
            table,
            root,
            candidates,
            holes,
            anchors,
            d,
            g,
        ) matches Some(x) ==> all.contains((x as usize, d as usize, g as usize))) by {
            if let Some(x) = reach(table, root, candidates, holes, anchors, d, g) {
                let key = (x as usize, d as usize, g as usize);
                if d < c - 1 {
                    assert(a.contains(key));
                    let k = choose|k: int| 0 <= k < a.len() && a[k] == key;
                    assert(all[k] == key);
                } else {
                    assert(b.contains(key));
                    let k = choose|k: int| 0 <= k < b.len() && b[k] == key;
                    assert(all[a.len() + k] == key);
                }
            }
        }
    }
}

/// Whether candidate `d` is within reach of hole `g`, and no farther than `x`.
pub open spec fn is_as_close(
    table: PathTable,
    root: Seq<char>,
    candidates: Seq<Diagnostic>,
    holes: Seq<&Hole>,
    anchors: Seq<usize>,
    d: int,
    g: int,
    x: int,
) -> bool {
    reach(table, root, candidates, holes, anchors, d, g) matches Some(y) && y <= x
}

/// Whether a batch is shared out fairly: no diagnostic is given to two holes, each
/// is within reach of the hole it is given to, and a diagnostic near a hole is not
/// given to it only where the hole has one at least as close, or the diagnostic
/// went to a hole at least as close.
pub open spec fn is_fair(
    table: PathTable,
    root: Seq<char>,
    holes: Seq<&Hole>,
    anchors: Seq<usize>,
    run: CheckRun,
) -> bool {
    let cs = candidates_of(run.diagnostics@);
    let given = assignment(table, root, holes, anchors, run);
    &&& given.len() == holes.len()
    &&& forall|a: int, b: int|
        0 <= a < b < given.len() && (#[trigger] given[a]) is Some ==> given[a]
            != #[trigger] given[b]
    &&& forall|h: int|
        0 <= h < given.len() ==> ((#[trigger] given[h]) matches Some(d) ==> 0 <= d < cs.len()
            && reach(table, root, cs, holes, anchors, d, h) is Some)
    &&& forall|c: int, h: int|
        0 <= c < cs.len() && 0 <= h < holes.len() ==> (#[trigger] reach(
            table,
            root,
            cs,
            holes,
            anchors,
            c,
            h,
        ) matches Some(x) ==> {
            ||| given[h] matches Some(d) && is_as_close(table, root, cs, holes, anchors, d, h, x)
            ||| exists|g: int|
                0 <= g < given.len() && (#[trigger] given[g]) == Some(c) && is_as_close(
                    table,
                    root,
                    cs,
                    holes,
                    anchors,
                    c,
                    g,
                    x,
                )
        })
}

proof fn lemma_assignment_is_fair(
    table: PathTable,
    root: Seq<char>,
    holes: Seq<&Hole>,
    anchors: Seq<usize>,
    run: CheckRun,
)
    requires
        candidates_of(run.diagnostics@).len() <= usize::MAX,
        holes.len() <= usize::MAX,
        pairs_before(
            table,
            root,
            candidates_of(run.diagnostics@),
            holes,
            anchors,
            candidates_of(run.diagnostics@).len() as int,
        ).len() <= usize::MAX,
    ensures
        is_fair(table, root, holes, anchors, run),
{
    let cs = candidates_of(run.diagnostics@);
    let n = holes.len();
    let pairs = pairs_before(table, root, cs, holes, anchors, cs.len() as int);
    let order = order_of(pairs);
    let sorted = closest_first(pairs);
    let end = sorted.len() as int;
    let given = assignment(table, root, holes, anchors, run);
    lemma_pairs_true(table, root, cs, holes, anchors, cs.len() as int);
    lemma_pairs_fit(table, root, cs, holes, anchors, cs.len() as int);
    lemma_closest_first_fit(pairs, cs.len(), n);
    lemma_given_once(sorted, n, end);
    crate::order::lemma_order_is_stable(pairs, pairs.len() as int);
    assert forall|i: int| 0 <= i < end implies ({
        let q = #[trigger] sorted[i];
        reach(table, root, cs, holes, anchors, q.1 as int, q.2 as int) == Some(q.0 as int)
    }) by {
        assert(order[i] < pairs.len());
        assert(sorted[i] == pairs[order[i] as int]);
    }
    assert forall|h: int| 0 <= h < given.len() implies ((#[trigger] given[h]) matches Some(d) ==> 0
        <= d < cs.len() && reach(table, root, cs, holes, anchors, d, h) is Some) by {
        if given[h] is Some {
            lemma_given_by(sorted, n, end, h);
            let i = choose|i: int|
                0 <= i < end && (#[trigger] sorted[i]).2 == h && given[h] == Some(
                    sorted[i].1 as int,
                );
            assert(sorted[i].1 < cs.len());
        }
    }
    assert forall|c: int, h: int| 0 <= c < cs.len() && 0 <= h < holes.len() implies (
    #[trigger] reach(table, root, cs, holes, anchors, c, h) matches Some(x) ==> {
        ||| given[h] matches Some(d) && is_as_close(table, root, cs, holes, anchors, d, h, x)
        ||| exists|g: int|
            0 <= g < given.len() && (#[trigger] given[g]) == Some(c) && is_as_close(
                table,
                root,
                cs,
                holes,
                anchors,
                c,
                g,
                x,
            )
    }) by {
        if let Some(x) = reach(table, root, cs, holes, anchors, c, h) {
            lemma_nearest_is_not_negative(
                table,
                root,
                cs[c].spans@,
                holes[h].file@,
                anchor_of(holes, anchors, h),
            );
            let key = (x as usize, c as usize, h as usize);
            assert(pairs.contains(key));
            let p = choose|p: int| 0 <= p < pairs.len() && pairs[p] == key;
            assert(order.contains(p as usize));
            let j = choose|j: int| 0 <= j < order.len() && order[j] == p as usize;
            assert(sorted[j] == key);
            lemma_pairings_are_settled(sorted, n, j);
            let i = choose|i: int| #[trigger] settles(sorted, given, i, j);
            let q = sorted[i];
            if i < j {
                assert(crate::order::comes_before(pairs, order[i] as int, order[j] as int));
                assert(order[i] < pairs.len());
                assert(sorted[i] == pairs[order[i] as int]);
            }
            assert(q.0 <= x);
            assert(is_as_close(table, root, cs, holes, anchors, q.1 as int, q.2 as int, x));
            assert(given[q.2 as int] == Some(q.1 as int));
        }
    }
}

/// An error right on a hole is that hole's, whatever else is near: in a batch that
/// is shared out fairly it is given to the hole, as long as it is on no other hole
/// and no other such error is on this one.
pub proof fn lemma_own_error_wins(
    table: PathTable,
    root: Seq<char>,
    holes: Seq<&Hole>,
    anchors: Seq<usize>,
    run: CheckRun,
    c: int,
    h: int,
)
    requires
        is_fair(table, root, holes, anchors, run),
        0 <= c < candidates_of(run.diagnostics@).len(),
        0 <= h < holes.len(),
        reach(table, root, candidates_of(run.diagnostics@), holes, anchors, c, h) == Some(0int),
        forall|d: int|
            0 <= d < candidates_of(run.diagnostics@).len() && d != c ==> #[trigger] reach(
                table,
                root,
                candidates_of(run.diagnostics@),
                holes,
                anchors,
                d,
                h,
            ) != Some(0int),
        forall|g: int|
            0 <= g < holes.len() && g != h ==> #[trigger] reach(
                table,
                root,
                candidates_of(run.diagnostics@),
                holes,
                anchors,
                c,
                g,
            ) != Some(0int),
    ensures
        assignment(table, root, holes, anchors, run)[h] == Some(c),
{
    let cs = candidates_of(run.diagnostics@);
    let given = assignment(table, root, holes, anchors, run);
    if given[h] matches Some(d) && is_as_close(table, root, cs, holes, anchors, d, h, 0) {
        let d = given[h]->0;
        lemma_nearest_is_not_negative(
            table,
            root,
            cs[d].spans@,
            holes[h].file@,
            anchor_of(holes, anchors, h),
        );
        assert(reach(table, root, cs, holes, anchors, d, h) == Some(0int));
    } else {
        assert(reach(table, root, cs, holes, anchors, c, h) is Some);
        let g = choose|g: int|
            0 <= g < given.len() && (#[trigger] given[g]) == Some(c) && is_as_close(
                table,
                root,
                cs,
                holes,
                anchors,
                c,
                g,
                0,
            );
        lemma_nearest_is_not_negative(
            table,
            root,
            cs[c].spans@,
            holes[g].file@,
            anchor_of(holes, anchors, g),
        );
        assert(reach(table, root, cs, holes, anchors, c, g) == Some(0int));
    }
}

/// Decide which hole each `E0308` in a *batched* run belongs to.
///
/// The single-hole rule — "near this hole, and mentions `found ()`" — cannot be
/// used here, for two reasons.
///
/// First, [`ATTRIBUTION_WINDOW`] is deliberately wider than the gap between
/// typical holes, because rustc sometimes reports at a later use rather than at
/// the substituted `()`; applied per hole in a batch, that window would let
/// *every* hole claim the *first* `E0308` in the file.
///
/// Second, and more subtly, the diagnostics are offsets into the **patched**
/// text. Substituting `()` for `todo!(...)` shortens the file, so holes after
/// the first sit at different offsets than when they were listed. `anchors`
/// carries each hole's position in the patched text, in the same order as
/// `holes`.
///
/// So the batch assigns each diagnostic to exactly one hole, greedily by
/// distance: the closest pairing wins, and a diagnostic already claimed cannot
/// be claimed again. The hole that actually produced an error sits at distance 0
/// from it, so genuine pairs always outrank the spurious ones.
///
/// Returns one entry per input hole, in the same order.
pub fn assign_diagnostics<'a>(
    holes: &Vec<&Hole>,
    anchors: &Vec<usize>,
    table: &PathTable,
    root: &str,
    run: &'a CheckRun,
) -> (r: Vec<Vec<&'a Diagnostic>>)
    ensures
        r@.len() == holes@.len(),
        forall|h: int|
            0 <= h < holes@.len() ==> referents((#[trigger] r@[h])@) == as_list(
                candidates_of(run.diagnostics@),
                assignment(*table, root@, holes@, anchors@, *run)[h],
            ),
        is_fair(*table, root@, holes@, anchors@, *run),
{
    // Candidates: an E0308 that names our `()`. Anything else cannot be about
    // the substitution this probe made.
    let mut candidates: Vec<&'a Diagnostic> = Vec::new();
    let mut i: usize = 0;
    proof {
        assert(run.diagnostics@.take(0) =~= Seq::<Diagnostic>::empty());
        assert(referents(candidates@) =~= Seq::<Diagnostic>::empty());
    }
    while i < run.diagnostics.len()
        invariant
            i <= run.diagnostics@.len(),
            referents(candidates@) == candidates_of(run.diagnostics@.take(i as int)),
        decreases run.diagnostics.len() - i,
    {
        let d = &run.diagnostics[i];
        proof {
            assert(run.diagnostics@.take(i + 1).drop_last() =~= run.diagnostics@.take(i as int));
            assert(run.diagnostics@.take(i + 1).last() == *d);
            assert(referents(candidates@.push(d)) =~= referents(candidates@).push(*d));
        }
        if d.is_unit_mismatch() {
            candidates.push(d);
        }
        i = i + 1;
    }
    let ghost cs = candidates_of(run.diagnostics@);
    proof {
        assert(run.diagnostics@.take(run.diagnostics@.len() as int) =~= run.diagnostics@);
        assert(cs.len() == candidates@.len());
    }
    let nc: usize = candidates.len();
    let nh: usize = holes.len();

    // Every (distance, diagnostic, hole) pairing inside the window.
    let mut pairs: Vec<Key> = Vec::new();
    let mut c: usize = 0;
    while c < nc
        invariant
            c <= nc,
            nc == candidates@.len(),
            nh == holes@.len(),
            cs == referents(candidates@),
            pairs@ == pairs_before(*table, root@, cs, holes@, anchors@, c as int),
        decreases nc - c,
    {
        let ghost before = pairs@;
        let mut h: usize = 0;
        proof {
            assert(before + Seq::<Key>::empty() =~= before);
        }
        while h < nh
            invariant
                h <= nh,
                c < nc,
                nc == candidates@.len(),
                nh == holes@.len(),
                cs == referents(candidates@),
                pairs@ == before + pairs_with(
                    *table,
                    root@,
                    cs,
                    holes@,
                    anchors@,
                    c as int,
                    h as int,
                ),
            decreases nh - h,
        {
            let anchor: usize = if h < anchors.len() {
                anchors[h]
            } else {
                holes[h].byte_start
            };
            proof {
                assert(cs[c as int] == *candidates@[c as int]);
            }
            if let Some(distance) = candidates[c].distance_to(
                table,
                holes[h].file.as_str(),
                root,
                anchor,
            ) {
                if distance <= ATTRIBUTION_WINDOW {
                    let ghost front = pairs_with(
                        *table,
                        root@,
                        cs,
                        holes@,
                        anchors@,
                        c as int,
                        h as int,
                    );
                    proof {
                        assert((before + front).push((distance, c, h)) =~= before + front.push(
                            (distance, c, h),
                        ));
                    }
                    pairs.push((distance, c, h));
                }
            }
            h = h + 1;
        }
        c = c + 1;
    }

    // Closest first. The trailing indices make the order total.
    let order = sort_positions(&pairs);
    let ghost sorted = closest_first(pairs@);
    proof {
        lemma_pairs_fit(*table, root@, cs, holes@, anchors@, nc as int);
        lemma_closest_first_fit(pairs@, cs.len(), holes@.len());
        assert(pairs.len() == pairs@.len() && holes.len() == holes@.len());
        lemma_assignment_is_fair(*table, root@, holes@, anchors@, *run);
    }

    let mut given: Vec<Option<usize>> = Vec::new();
    let mut taken: Vec<bool> = Vec::new();
    let mut h: usize = 0;
    while h < nh
        invariant
            h <= nh,
            given@.len() == h,
            forall|j: int| 0 <= j < h ==> (#[trigger] given@[j]) is None,
        decreases nh - h,
    {
        given.push(None);
        h = h + 1;
    }
    let mut c: usize = 0;
    while c < nc
        invariant
            c <= nc,
            taken@.len() == c,
            forall|j: int| 0 <= j < c ==> (#[trigger] taken@[j]) == false,
        decreases nc - c,
    {
        taken.push(false);
        c = c + 1;
    }
    let mut k: usize = 0;
    let ghost state = given_after(sorted, nh as nat, 0);
    while k < order.len()
        invariant
            k <= order@.len(),
            order@.len() == pairs@.len(),
            sorted == closest_first(pairs@),
            sorted.len() == pairs@.len(),
            order@ == order_of(pairs@),
            forall|j: int| 0 <= j < order@.len() ==> #[trigger] order@[j] < pairs@.len(),
            pairs_fit(sorted, nc as nat, nh as nat),
            given@.len() == nh,
            taken@.len() == nc,
            state == given_after(sorted, nh as nat, k as int),
            state.len() == nh,
            forall|j: int|
                0 <= j < nh ==> state[j] == match #[trigger] given@[j] {
                    Some(x) => Some(x as int),
                    None => None,
                },
            forall|j: int|
                0 <= j < nh ==> ((#[trigger] given@[j]) matches Some(x) ==> x < nc),
            forall|j: int| 0 <= j < nc ==> #[trigger] taken@[j] == is_given(state, j),
        decreases order.len() - k,
    {
        let (_, ci, hi) = pairs[order[k]];
        proof {
            assert(sorted[k as int] == pairs@[order@[k as int] as int]);
            lemma_given_once(sorted, nh as nat, k + 1);
        }
        let ghost next = given_after(sorted, nh as nat, k + 1);
        if !taken[ci] && given[hi].is_none() {
            taken.set(ci, true);
            given.set(hi, Some(ci));
            proof {
                assert(next == state.update(hi as int, Some(ci as int)));
                assert(next[hi as int] == Some(ci as int));
                assert forall|j: int| 0 <= j < nc implies #[trigger] taken@[j] == is_given(
                    next,
                    j,
                ) by {
                    if j != ci && is_given(state, j) {
                        let m = choose|m: int|
                            0 <= m < state.len() && #[trigger] state[m] == Some(j);
                        assert(next[m] == Some(j));
                    }
                    if j != ci && is_given(next, j) {
                        let m = choose|m: int| 0 <= m < next.len() && #[trigger] next[m] == Some(j);
                        assert(state[m] == Some(j));
                    }
                }
            }
        }
        proof {
            state = next;
        }
        k = k + 1;
    }

    let mut assigned: Vec<Vec<&'a Diagnostic>> = Vec::new();
    let mut h: usize = 0;
    while h < nh
        invariant
            h <= nh,
            nh == given@.len(),
            nc == candidates@.len(),
            cs == referents(candidates@),
            state.len() == nh,
            forall|j: int|
                0 <= j < nh ==> state[j] == match #[trigger] given@[j] {
                    Some(x) => Some(x as int),
                    None => None,
                },
            forall|j: int|
                0 <= j < nh ==> ((#[trigger] given@[j]) matches Some(x) ==> x < nc),
            assigned@.len() == h,
            forall|j: int|
                0 <= j < h ==> referents((#[trigger] assigned@[j])@) == as_list(cs, state[j]),
        decreases nh - h,
    {
        let mut one: Vec<&'a Diagnostic> = Vec::new();
        if let Some(x) = given[h] {
            one.push(candidates[x]);
        }
        proof {
            let g = given@[h as int];
            assert(referents(one@) =~= as_list(cs, state[h as int]));
        }
        assigned.push(one);
        h = h + 1;
    }
    assigned
}

} // verus!
