//! What a run of `fill` holds: the answers that go into each file, those waiting
//! to be recorded, and the tallies of what became of the holes.
//!
//! The ledger is a cache of answers that *work*, so an answer of this run is held
//! back until the generated tree has compiled.
use vstd::prelude::*;

use crate::cmdline::is_fillable;
use crate::fill::{
    answer_of, answer_views, assembly_error, blame_of, errors_for, is_patch_for,
    lemma_blame_count, Blame, FileWork, HoleResult, ResultView, WorkView,
};
use crate::gate::{
    failure_label, failure_refs, verdict_failures, Failure, Patch, Verdict, VerdictView,
};
use crate::hole::{hash_key_of, location_of, Hole, HoleView};
use crate::text::{decimal, decimal_of, decimal_usize, opt_view, owned, views};

verus! {

/// How many times to re-ask after the compile gate rejects a tree.
///
/// Bounded so a hole the model simply cannot get right terminates rather than
/// burning calls forever. Each round re-runs the compile gate once, so the cost of
/// raising this is a `cargo check` per round.
pub const MAX_GATE_ROUNDS: usize = 2;

/// A run of `fill` in progress.
#[derive(Debug)]
pub struct FillRun {
    /// What goes into each file.
    pub work: Vec<FileWork>,
    /// Answers generated this run, by the key they are to be recorded under, held
    /// back until the compile gate accepts the tree they belong to.
    pub pending: Vec<(String, String)>,
    pub filled: usize,
    pub cached: usize,
    pub rejected: usize,
    pub skipped: usize,
    pub model_calls: u32,
    /// Answers re-asked after a rejection, and the rounds that took.
    pub retried: usize,
    pub rounds: usize,
}

/// A run as plain text and numbers.
#[verifier::ext_equal]
pub struct RunView {
    pub work: Seq<WorkView>,
    pub pending: Seq<(Seq<char>, Seq<char>)>,
    pub filled: nat,
    pub cached: nat,
    pub rejected: nat,
    pub skipped: nat,
    pub model_calls: nat,
    pub retried: nat,
    pub rounds: nat,
}

/// The work on several files as plain text and numbers.
pub open spec fn work_views(work: Seq<FileWork>) -> Seq<WorkView> {
    Seq::new(work.len(), |i: int| work[i]@)
}

/// Pending answers as plain text.
pub open spec fn pending_views(pending: Seq<(String, String)>) -> Seq<(Seq<char>, Seq<char>)> {
    Seq::new(pending.len(), |i: int| (pending[i].0@, pending[i].1@))
}

impl View for FillRun {
    type V = RunView;

    open spec fn view(&self) -> RunView {
        RunView {
            work: work_views(self.work@),
            pending: pending_views(self.pending@),
            filled: self.filled as nat,
            cached: self.cached as nat,
            rejected: self.rejected as nat,
            skipped: self.skipped as nat,
            model_calls: self.model_calls as nat,
            retried: self.retried as nat,
            rounds: self.rounds as nat,
        }
    }
}

/// A run that has not looked at any hole yet.
pub open spec fn fresh_run() -> RunView {
    RunView {
        work: seq![],
        pending: seq![],
        filled: 0,
        cached: 0,
        rejected: 0,
        skipped: 0,
        model_calls: 0,
        retried: 0,
        rounds: 0,
    }
}

/// A run after one more hole. Only an answer of this run is held for the ledger:
/// a replayed one is in it already.
pub open spec fn counted(r: RunView, hole: HoleView, result: ResultView) -> RunView {
    match result {
        ResultView::Skipped => RunView { skipped: (r.skipped + 1) as nat, ..r },
        ResultView::Cached(_) => RunView { cached: (r.cached + 1) as nat, ..r },
        ResultView::Filled { code, calls } => RunView {
            filled: (r.filled + 1) as nat,
            model_calls: (r.model_calls + calls) as nat,
            pending: r.pending.push((hash_key_of(hole), code)),
            ..r
        },
        ResultView::Failed => RunView { rejected: (r.rejected + 1) as nat, ..r },
    }
}

/// A file's work after one more hole.
pub open spec fn answered(w: WorkView, hole: HoleView, result: ResultView) -> WorkView {
    WorkView { answers: w.answers.push((hole, answer_of(result))), ..w }
}

/// A run with one more file.
pub open spec fn with_file(r: RunView, w: WorkView) -> RunView {
    RunView { work: r.work.push(w), ..r }
}

/// A run with nothing left to record.
pub open spec fn with_nothing_pending(r: RunView) -> RunView {
    RunView { pending: seq![], ..r }
}

/// Why some file's answers cannot be put over their holes, if they cannot: the
/// reason of the first such file from `i` on.
pub open spec fn first_assembly_error(work: Seq<WorkView>, i: int) -> Option<Seq<char>>
    decreases work.len() - i,
{
    if i >= work.len() {
        None
    } else if assembly_error(work[i]) is Some {
        assembly_error(work[i])
    } else {
        first_assembly_error(work, i + 1)
    }
}

/// Whether there is one patch per file, each what the file's answers come to.
pub open spec fn are_patches_for(patches: Seq<Patch>, work: Seq<WorkView>) -> bool {
    &&& patches.len() == work.len()
    &&& forall|i: int| 0 <= i < work.len() ==> is_patch_for(#[trigger] patches[i], work[i])
}

// ---------------------------------------------------------------------------
// Rejections
// ---------------------------------------------------------------------------

/// How to go on after a rejection.
#[derive(Debug)]
pub enum RoundStep {
    /// No answer is at fault: the remaining errors are the crate's own.
    Stop,
    /// Too many rounds already.
    GiveUp { warning: String },
    /// Ask again for these answers, given by file and position in it, with the
    /// errors blamed on each.
    AskAgain { blame: Blame, asks: Vec<(usize, usize)> },
}

/// The answers of a file, among its first `n`, that are blamed. A hole that may
/// not be filled is left alone, though it share its key with one that is blamed.
pub open spec fn asks_in_file(
    answers: Seq<(HoleView, Option<Seq<char>>)>,
    blame: Seq<(Seq<char>, Seq<Seq<char>>)>,
    file: usize,
    n: int,
) -> Seq<(usize, usize)>
    decreases n,
{
    if n <= 0 {
        seq![]
    } else {
        let front = asks_in_file(answers, blame, file, n - 1);
        if is_fillable(answers[n - 1].0) && errors_for(blame, hash_key_of(answers[n - 1].0)) is Some {
            front.push((file, (n - 1) as usize))
        } else {
            front
        }
    }
}

/// The answers, in the first `n` files, that are blamed.
pub open spec fn asks_in(
    work: Seq<WorkView>,
    blame: Seq<(Seq<char>, Seq<Seq<char>>)>,
    n: int,
) -> Seq<(usize, usize)>
    decreases n,
{
    if n <= 0 {
        seq![]
    } else {
        asks_in(work, blame, n - 1) + asks_in_file(
            work[n - 1].answers,
            blame,
            (n - 1) as usize,
            work[n - 1].answers.len() as int,
        )
    }
}

/// The pending answers whose keys are not blamed.
pub open spec fn unblamed(
    pending: Seq<(Seq<char>, Seq<char>)>,
    blame: Seq<(Seq<char>, Seq<Seq<char>>)>,
) -> Seq<(Seq<char>, Seq<char>)>
    decreases pending.len(),
{
    if pending.len() == 0 {
        seq![]
    } else {
        let front = unblamed(pending.drop_last(), blame);
        if errors_for(blame, pending.last().0) is None {
            front.push(pending.last())
        } else {
            front
        }
    }
}

/// A run at the start of another round: what is blamed is not pending any more.
pub open spec fn round_begun(r: RunView, blame: Seq<(Seq<char>, Seq<Seq<char>>)>) -> RunView {
    RunView {
        pending: unblamed(r.pending, blame),
        rounds: (r.rounds + 1) as nat,
        retried: (r.retried + blame.len()) as nat,
        ..r
    }
}

/// A run after an answer was asked for again. One that still does not come is
/// left unelaborated.
pub open spec fn reanswered(
    r: RunView,
    file: int,
    at: int,
    result: Result<(Seq<char>, u32), Seq<char>>,
) -> RunView {
    let w = r.work[file];
    let hole = w.answers[at].0;
    match result {
        Ok((code, calls)) => RunView {
            work: r.work.update(
                file,
                WorkView { answers: w.answers.update(at, (hole, Some(code))), ..w },
            ),
            pending: r.pending.push((hash_key_of(hole), code)),
            model_calls: (r.model_calls + calls) as nat,
            ..r
        },
        Err(_) => RunView {
            work: r.work.update(
                file,
                WorkView { answers: w.answers.update(at, (hole, None)), ..w },
            ),
            ..r
        },
    }
}

/// A model's answer as plain text.
pub open spec fn reply_text(result: Result<(String, u32), String>) -> Result<
    (Seq<char>, u32),
    Seq<char>,
> {
    match result {
        Ok((code, calls)) => Ok((code@, calls)),
        Err(e) => Err(e@),
    }
}

/// A run at its end: a tree that was not accepted leaves nothing to record.
pub open spec fn concluded(r: RunView, v: VerdictView) -> RunView {
    if v is Accepted {
        r
    } else {
        with_nothing_pending(r)
    }
}

// ---------------------------------------------------------------------------
// What is pending is in the tree
// ---------------------------------------------------------------------------

/// A rejected answer is never left among the pending ones.
pub proof fn lemma_unblamed(
    pending: Seq<(Seq<char>, Seq<char>)>,
    blame: Seq<(Seq<char>, Seq<Seq<char>>)>,
)
    ensures
        forall|i: int|
            0 <= i < unblamed(pending, blame).len() ==> errors_for(
                blame,
                (#[trigger] unblamed(pending, blame)[i]).0,
            ) is None,
    decreases pending.len(),
{
    if pending.len() > 0 {
        lemma_unblamed(pending.drop_last(), blame);
        let front = unblamed(pending.drop_last(), blame);
        let all = unblamed(pending, blame);
        assert forall|i: int| 0 <= i < all.len() implies errors_for(blame, (#[trigger] all[i]).0)
            is None by {
            if i < front.len() {
                assert(all[i] == front[i]);
            }
        }
    }
}

/// Whether the tree holds this answer, for a hole with this key, at a place.
pub open spec fn stands_at(
    work: Seq<WorkView>,
    key: Seq<char>,
    code: Seq<char>,
    place: (int, int),
) -> bool {
    &&& 0 <= place.0 < work.len()
    &&& 0 <= place.1 < work[place.0].answers.len()
    &&& hash_key_of(work[place.0].answers[place.1].0) == key
    &&& work[place.0].answers[place.1].1 == Some(code)
}

/// Whether the tree holds this answer at a place that is not about to be asked
/// for again.
pub open spec fn stands_somewhere(
    work: Seq<WorkView>,
    entry: (Seq<char>, Seq<char>),
    asked: Set<(int, int)>,
) -> bool {
    exists|place: (int, int)|
        #[trigger] stands_at(work, entry.0, entry.1, place) && !asked.contains(place)
}

/// Whether the tree holds every pending answer, each at a place that is not
/// about to be asked for again.
pub open spec fn is_in_tree(
    work: Seq<WorkView>,
    pending: Seq<(Seq<char>, Seq<char>)>,
    asked: Set<(int, int)>,
) -> bool {
    forall|i: int| 0 <= i < pending.len() ==> stands_somewhere(work, #[trigger] pending[i], asked)
}

/// The places, from the `k`th on, that are about to be asked for again.
pub open spec fn asked_places(asks: Seq<(usize, usize)>, k: int) -> Set<(int, int)> {
    Set::new(
        |p: (int, int)|
            exists|i: int|
                k <= i < asks.len() && (#[trigger] asks[i]).0 == p.0 && asks[i].1 == p.1,
    )
}

/// What is pending is part of the tree, and one more hole keeps it so.
pub proof fn lemma_counted_is_in_tree(r: RunView, w: WorkView, hole: HoleView, result: ResultView)
    requires
        is_in_tree(r.work.push(w), r.pending, Set::empty()),
    ensures
        is_in_tree(
            counted(r, hole, result).work.push(answered(w, hole, result)),
            counted(r, hole, result).pending,
            Set::empty(),
        ),
{
    let before = r.work.push(w);
    let after = counted(r, hole, result).work.push(answered(w, hole, result));
    let more = counted(r, hole, result).pending;
    assert forall|i: int| 0 <= i < more.len() implies stands_somewhere(
        after,
        #[trigger] more[i],
        Set::empty(),
    ) by {
        if i < r.pending.len() {
            assert(more[i] == r.pending[i]);
            let place = choose|place: (int, int)|
                #[trigger] stands_at(before, r.pending[i].0, r.pending[i].1, place);
            assert(stands_at(after, more[i].0, more[i].1, place));
        } else {
            let place = (r.work.len() as int, w.answers.len() as int);
            assert(stands_at(after, more[i].0, more[i].1, place));
        }
    }
}

/// Dropping the blamed answers keeps what is pending part of the tree, and none
/// that stays pending is about to be replaced.
pub proof fn lemma_round_is_in_tree(r: RunView, blame: Seq<(Seq<char>, Seq<Seq<char>>)>)
    requires
        is_bounded(r.work),
        is_in_tree(r.work, r.pending, Set::empty()),
    ensures
        is_in_tree(
            round_begun(r, blame).work,
            round_begun(r, blame).pending,
            asked_places(asks_in(r.work, blame, r.work.len() as int), 0),
        ),
{
    lemma_unblamed_is_in_tree(r.work, r.pending, blame);
}

/// Whether every place in the tree can be given by machine numbers.
pub open spec fn is_bounded(work: Seq<WorkView>) -> bool {
    &&& work.len() <= usize::MAX
    &&& forall|i: int| 0 <= i < work.len() ==> (#[trigger] work[i]).answers.len() <= usize::MAX
}

proof fn lemma_unblamed_is_in_tree(
    work: Seq<WorkView>,
    pending: Seq<(Seq<char>, Seq<char>)>,
    blame: Seq<(Seq<char>, Seq<Seq<char>>)>,
)
    requires
        is_bounded(work),
        is_in_tree(work, pending, Set::empty()),
    ensures
        is_in_tree(
            work,
            unblamed(pending, blame),
            asked_places(asks_in(work, blame, work.len() as int), 0),
        ),
    decreases pending.len(),
{
    let asks = asks_in(work, blame, work.len() as int);
    let kept = unblamed(pending, blame);
    if pending.len() > 0 {
        let rest = pending.drop_last();
        assert(is_in_tree(work, rest, Set::empty())) by {
            assert forall|i: int| 0 <= i < rest.len() implies stands_somewhere(
                work,
                #[trigger] rest[i],
                Set::empty(),
            ) by {
                assert(pending[i] == rest[i]);
            }
        }
        lemma_unblamed_is_in_tree(work, rest, blame);
        let front = unblamed(rest, blame);
        assert forall|i: int| 0 <= i < kept.len() implies stands_somewhere(
            work,
            #[trigger] kept[i],
            asked_places(asks, 0),
        ) by {
            if i < front.len() {
                assert(kept[i] == front[i]);
            } else {
                let last = pending[pending.len() - 1];
                assert(kept[i] == last);
                let place = choose|place: (int, int)|
                    #[trigger] stands_at(work, last.0, last.1, place);
                assert(stands_at(work, kept[i].0, kept[i].1, place));
                assert(!asked_places(asks, 0).contains(place)) by {
                    lemma_asks_are_blamed(work, blame, work.len() as int);
                }
            }
        }
    }
}

/// Replacing an answer that was asked for again keeps what is pending part of
/// the tree: nothing that is pending stood there.
pub proof fn lemma_reanswered_is_in_tree(
    r: RunView,
    asks: Seq<(usize, usize)>,
    k: int,
    result: Result<(Seq<char>, u32), Seq<char>>,
)
    requires
        0 <= k < asks.len(),
        asks[k].0 < r.work.len(),
        asks[k].1 < r.work[asks[k].0 as int].answers.len(),
        forall|i: int| k < i < asks.len() ==> #[trigger] asks[i] != asks[k],
        is_in_tree(r.work, r.pending, asked_places(asks, k)),
    ensures
        is_in_tree(
            reanswered(r, asks[k].0 as int, asks[k].1 as int, result).work,
            reanswered(r, asks[k].0 as int, asks[k].1 as int, result).pending,
            asked_places(asks, k + 1),
        ),
{
    let place = (asks[k].0 as int, asks[k].1 as int);
    let after = reanswered(r, place.0, place.1, result);
    let more = after.pending;
    let asked = asked_places(asks, k + 1);
    assert(!asked.contains(place)) by {
        if asked.contains(place) {
            let i = choose|i: int|
                k + 1 <= i < asks.len() && (#[trigger] asks[i]).0 == place.0 && asks[i].1 == place.1;
            assert(asks[i] == asks[k]);
        }
    }
    assert forall|i: int| 0 <= i < more.len() implies stands_somewhere(
        after.work,
        #[trigger] more[i],
        asked,
    ) by {
        if i < r.pending.len() {
            assert(more[i] == r.pending[i]);
            let p = choose|p: (int, int)|
                #[trigger] stands_at(r.work, r.pending[i].0, r.pending[i].1, p)
                    && !asked_places(asks, k).contains(p);
            assert(p != place) by {
                assert(asks[k].0 == place.0 && asks[k].1 == place.1);
            }
            assert(!asked.contains(p)) by {
                if asked.contains(p) {
                    let j = choose|j: int|
                        k + 1 <= j < asks.len() && (#[trigger] asks[j]).0 == p.0 && asks[j].1
                            == p.1;
                    assert(asked_places(asks, k).contains(p));
                }
            }
            assert(stands_at(after.work, more[i].0, more[i].1, p));
        } else {
            assert(stands_at(after.work, more[i].0, more[i].1, place));
        }
    }
}

proof fn lemma_asks_in_file_are_blamed(
    answers: Seq<(HoleView, Option<Seq<char>>)>,
    blame: Seq<(Seq<char>, Seq<Seq<char>>)>,
    file: usize,
    n: int,
)
    requires
        n <= answers.len() <= usize::MAX,
    ensures
        forall|i: int|
            0 <= i < asks_in_file(answers, blame, file, n).len() ==> ({
                let p = #[trigger] asks_in_file(answers, blame, file, n)[i];
                p.0 == file && p.1 < n && is_fillable(answers[p.1 as int].0) && errors_for(
                    blame,
                    hash_key_of(answers[p.1 as int].0),
                ) is Some
            }),
        forall|i: int, j: int|
            0 <= i < j < asks_in_file(answers, blame, file, n).len() ==> (
            #[trigger] asks_in_file(answers, blame, file, n)[i]).1 < (
            #[trigger] asks_in_file(answers, blame, file, n)[j]).1,
    decreases n,
{
    if n > 0 {
        lemma_asks_in_file_are_blamed(answers, blame, file, n - 1);
    }
}

/// An answer is asked for again only if its hole may be filled and it is blamed,
/// and only once.
pub proof fn lemma_asks_are_blamed(
    work: Seq<WorkView>,
    blame: Seq<(Seq<char>, Seq<Seq<char>>)>,
    n: int,
)
    requires
        n <= work.len(),
        is_bounded(work),
    ensures
        forall|i: int|
            0 <= i < asks_in(work, blame, n).len() ==> ({
                let p = #[trigger] asks_in(work, blame, n)[i];
                p.0 < n && p.1 < work[p.0 as int].answers.len() && is_fillable(
                    work[p.0 as int].answers[p.1 as int].0,
                ) && errors_for(
                    blame,
                    hash_key_of(work[p.0 as int].answers[p.1 as int].0),
                ) is Some
            }),
        forall|i: int, j: int|
            0 <= i < j < asks_in(work, blame, n).len() ==> #[trigger] asks_in(work, blame, n)[i]
                != #[trigger] asks_in(work, blame, n)[j],
    decreases n,
{
    if n > 0 {
        lemma_asks_are_blamed(work, blame, n - 1);
        let front = asks_in(work, blame, n - 1);
        let answers = work[n - 1].answers;
        let back = asks_in_file(answers, blame, (n - 1) as usize, answers.len() as int);
        lemma_asks_in_file_are_blamed(answers, blame, (n - 1) as usize, answers.len() as int);
        let all = asks_in(work, blame, n);
        assert(all == front + back);
        assert forall|i: int, j: int| 0 <= i < j < all.len() implies #[trigger] all[i]
            != #[trigger] all[j] by {
            if j < front.len() {
                assert(all[i] == front[i] && all[j] == front[j]);
            } else if i < front.len() {
                assert(all[i] == front[i] && all[j] == back[j - front.len()]);
            } else {
                assert(all[i] == back[i - front.len()] && all[j] == back[j - front.len()]);
            }
        }
    }
}

proof fn lemma_blamed_are_asked_in_file(
    answers: Seq<(HoleView, Option<Seq<char>>)>,
    blame: Seq<(Seq<char>, Seq<Seq<char>>)>,
    file: usize,
    n: int,
    at: usize,
)
    requires
        at < n <= answers.len(),
        is_fillable(answers[at as int].0),
        errors_for(blame, hash_key_of(answers[at as int].0)) is Some,
    ensures
        asks_in_file(answers, blame, file, n).contains((file, at)),
    decreases n,
{
    let all = asks_in_file(answers, blame, file, n);
    if at == n - 1 {
        assert(all[all.len() - 1] == (file, at));
    } else {
        lemma_blamed_are_asked_in_file(answers, blame, file, n - 1, at);
        let front = asks_in_file(answers, blame, file, n - 1);
        let i = choose|i: int| 0 <= i < front.len() && front[i] == (file, at);
        assert(all[i] == (file, at));
    }
}

/// Every answer that is blamed, for a hole that may be filled, is asked for again.
pub proof fn lemma_blamed_are_asked(
    work: Seq<WorkView>,
    blame: Seq<(Seq<char>, Seq<Seq<char>>)>,
    n: int,
    file: usize,
    at: usize,
)
    requires
        file < n <= work.len(),
        at < work[file as int].answers.len(),
        is_fillable(work[file as int].answers[at as int].0),
        errors_for(blame, hash_key_of(work[file as int].answers[at as int].0)) is Some,
    ensures
        asks_in(work, blame, n).contains((file, at)),
    decreases n,
{
    let all = asks_in(work, blame, n);
    let front = asks_in(work, blame, n - 1);
    let answers = work[n - 1].answers;
    let back = asks_in_file(answers, blame, (n - 1) as usize, answers.len() as int);
    if file == n - 1 {
        lemma_blamed_are_asked_in_file(answers, blame, file, answers.len() as int, at);
        let i = choose|i: int| 0 <= i < back.len() && back[i] == (file, at);
        assert(all[front.len() + i] == (file, at));
    } else {
        lemma_blamed_are_asked(work, blame, n - 1, file, at);
        let i = choose|i: int| 0 <= i < front.len() && front[i] == (file, at);
        assert(all[i] == (file, at));
    }
}

// ---------------------------------------------------------------------------
// What is said
// ---------------------------------------------------------------------------

/// The warning when the rounds are used up.
pub open spec fn giving_up_text(count: nat) -> Seq<char> {
    "warning: giving up after "@ + decimal_of(MAX_GATE_ROUNDS as nat) + " round(s); "@ + decimal_of(
        count,
    )
        + " answer(s) still do not compile"@
}

/// The warning about a run without the compile gate.
pub open spec fn ungated_text() -> Seq<char> {
    "warning: --no-verify skips the compile gate, so no answers were recorded; the next run will have to generate them again"@
}

/// The warning about a hole that was asked for again in vain.
pub open spec fn still_open_text(hole: HoleView, why: Seq<char>) -> Seq<char> {
    "warning: still cannot fill "@ + location_of(hole) + ": "@ + why
}

/// What is said about a tree that was not accepted.
pub open spec fn rejection_messages(v: VerdictView) -> Seq<Seq<char>> {
    let ours = verdict_failures(v, true);
    if v is Accepted {
        seq![]
    } else if ours.len() == 0 {
        seq![
            "error: the crate did not compile, and not because of a generated answer; nothing was written"@,
        ]
    } else {
        Seq::new(
            ours.len(),
            |i: int|
                "error: "@ + failure_label(ours[i]) + " did not compile and was not written"@,
        )
    }
}

/// What is said about errors that no answer can fix.
pub open spec fn pre_existing_messages(v: VerdictView) -> Seq<Seq<char>> {
    let theirs = verdict_failures(v, false);
    Seq::new(
        theirs.len(),
        |i: int|
            "warning: "@ + failure_label(theirs[i])
                + " is not a generated answer, so it was already broken; fix it and re-run"@,
    )
}

/// What is said at the end of a run.
pub open spec fn run_summary(r: RunView) -> Seq<char> {
    let retries = if r.retried > 0 {
        "re-asked for "@ + decimal_of(r.retried) + " answer(s) across "@ + decimal_of(r.rounds)
            + " extra round(s) after the compile gate rejected them\n"@
    } else {
        ""@
    };
    let recorded = if r.pending.len() > 0 {
        decimal_of(r.pending.len()) + " answer(s) recorded in the ledger\n"@
    } else {
        ""@
    };
    "\n"@ + decimal_of(r.filled) + " filled, "@ + decimal_of(r.cached) + " cached, "@ + decimal_of(
        r.rejected,
    ) + " not filled, "@ + decimal_of(r.skipped) + " skipped ("@ + decimal_of(r.model_calls)
        + " model call(s))\n"@ + retries + recorded
}

fn labelled(prefix: &str, f: &Failure, rest: &str) -> (r: String)
    ensures
        r@ == prefix@ + failure_label(f@) + rest@,
{
    let mut m = owned(prefix);
    m.push_str(f.label().as_str());
    m.push_str(rest);
    m
}

/// What is said about the errors of a verdict that no answer can fix.
pub fn report_pre_existing(verdict: &Verdict) -> (r: Vec<String>)
    ensures
        views(r@) == pre_existing_messages(verdict@),
{
    let picked = verdict.pre_existing();
    let ghost theirs = verdict_failures(verdict@, false);
    let ghost all = pre_existing_messages(verdict@);
    let mut out: Vec<String> = Vec::new();
    let mut i: usize = 0;
    proof {
        assert(theirs.len() == picked@.len());
    }
    while i < picked.len()
        invariant
            i <= picked@.len(),
            theirs == failure_refs(picked@),
            theirs == verdict_failures(verdict@, false),
            theirs.len() == picked@.len(),
            all == pre_existing_messages(verdict@),
            views(out@) == all.take(i as int),
        decreases picked.len() - i,
    {
        proof {
            assert(theirs[i as int] == picked@[i as int]@);
        }
        let m = labelled(
            "warning: ",
            picked[i],
            " is not a generated answer, so it was already broken; fix it and re-run",
        );
        proof {
            assert(views(out@.push(m)) =~= views(out@).push(m@));
            assert(all.take(i + 1) =~= all.take(i as int).push(m@));
        }
        out.push(m);
        i = i + 1;
    }
    proof {
        assert(all.take(picked@.len() as int) =~= all);
    }
    out
}

impl FillRun {
    /// A run that has not looked at any hole yet.
    pub fn new() -> (r: FillRun)
        ensures
            r@ == fresh_run(),
    {
        let r = FillRun {
            work: Vec::new(),
            pending: Vec::new(),
            filled: 0,
            cached: 0,
            rejected: 0,
            skipped: 0,
            model_calls: 0,
            retried: 0,
            rounds: 0,
        };
        proof {
            assert(r@ =~= fresh_run());
        }
        r
    }

    /// Take what became of a hole into account, in its file and in the tallies.
    pub fn take(&mut self, item: &mut FileWork, hole: &Hole, result: HoleResult)
        requires
            old(self).filled < usize::MAX,
            old(self).cached < usize::MAX,
            old(self).rejected < usize::MAX,
            old(self).skipped < usize::MAX,
            result matches HoleResult::Filled { calls, .. } ==> old(self).model_calls + calls
                <= u32::MAX,
        ensures
            final(item)@ == answered(old(item)@, hole@, result@),
            final(self)@ == counted(old(self)@, hole@, result@),
    {
        let ghost answers = item.answers@;
        let ghost expected = answer_of(result@);
        let answer: Option<String> = match result {
            HoleResult::Skipped => {
                self.skipped = self.skipped + 1;
                None
            },
            HoleResult::Cached(code) => {
                self.cached = self.cached + 1;
                Some(code)
            },
            HoleResult::Filled { code, calls } => {
                self.model_calls = self.model_calls + calls;
                self.filled = self.filled + 1;
                let entry = (hole.hash_key(), code.clone());
                proof {
                    assert(pending_views(self.pending@.push(entry)) =~= pending_views(
                        self.pending@,
                    ).push((entry.0@, entry.1@)));
                }
                self.pending.push(entry);
                Some(code)
            },
            HoleResult::Failed => {
                self.rejected = self.rejected + 1;
                None
            },
        };
        let pair = (hole.clone(), answer);
        proof {
            assert(answer_views(answers.push(pair)) =~= answer_views(answers).push(
                (hole@, expected),
            ));
        }
        item.answers.push(pair);
    }

    /// Take a file whose holes have all been looked at.
    pub fn add_file(&mut self, item: FileWork)
        ensures
            final(self)@ == with_file(old(self)@, item@),
    {
        proof {
            assert(work_views(self.work@.push(item)) =~= work_views(self.work@).push(item@));
        }
        self.work.push(item);
    }

    /// One patch per file, ready for the compile gate. Each holds the whole
    /// generated text, because every answer in the tree has to be checked --
    /// replayed and generated alike, since they can depend on each other.
    pub fn patches(&self) -> (r: Result<Vec<Patch>, String>)
        ensures
            match r {
                Ok(v) => first_assembly_error(self@.work, 0) is None && are_patches_for(
                    v@,
                    self@.work,
                ),
                Err(m) => first_assembly_error(self@.work, 0) == Some(m@),
            },
    {
        let mut out: Vec<Patch> = Vec::new();
        let mut i: usize = 0;
        while i < self.work.len()
            invariant
                i <= self.work@.len(),
                out@.len() == i,
                first_assembly_error(self@.work, 0) == first_assembly_error(self@.work, i as int),
                forall|j: int|
                    0 <= j < i ==> is_patch_for(#[trigger] out@[j], self@.work[j]),
            decreases self.work.len() - i,
        {
            proof {
                assert(self@.work[i as int] == self.work@[i as int]@);
            }
            match self.work[i].patch() {
                Ok(p) => {
                    out.push(p);
                },
                Err(m) => {
                    return Err(m);
                },
            }
            i = i + 1;
        }
        Ok(out)
    }

    /// Go without the compile gate. Nothing was compiled then, so nothing may be
    /// recorded either, which is said rather than silent.
    pub fn skip_gate(&mut self) -> (r: String)
        ensures
            final(self)@ == with_nothing_pending(old(self)@),
            r@ == ungated_text(),
    {
        self.pending = Vec::new();
        proof {
            assert(pending_views(self.pending@) =~= seq![]);
        }
        owned(
            "warning: --no-verify skips the compile gate, so no answers were recorded; the next run will have to generate them again",
        )
    }

    /// After the compile gate rejects a tree, drop the answers it blamed and say
    /// which to ask for again. Nothing is written to disk here.
    pub fn retry_rejected(&mut self, verdict: &Verdict) -> (r: RoundStep)
        requires
            old(self).retried + verdict_failures(verdict@, true).len() <= usize::MAX,
        ensures
            ({
                let blamed = blame_of(verdict_failures(verdict@, true));
                match r {
                    RoundStep::Stop => blamed.len() == 0 && *final(self) == *old(self),
                    RoundStep::GiveUp { warning } => blamed.len() > 0 && old(self).rounds
                        >= MAX_GATE_ROUNDS && *final(self) == *old(self) && warning@
                        == giving_up_text(blamed.len()),
                    RoundStep::AskAgain { blame, asks } => {
                        &&& blamed.len() > 0
                        &&& old(self).rounds < MAX_GATE_ROUNDS
                        &&& blame.view_all() == blamed
                        &&& asks@ == asks_in(
                            old(self)@.work,
                            blamed,
                            old(self)@.work.len() as int,
                        )
                        &&& final(self)@ == round_begun(old(self)@, blamed)
                    },
                }
            }),
    {
        let blame = Blame::of(verdict);
        let ghost blamed = blame.view_all();
        let count: usize = blame.entries.len();
        proof {
            assert(blamed.len() == count);
            lemma_blame_count(verdict_failures(verdict@, true));
        }
        if count == 0 {
            return RoundStep::Stop;
        }
        if self.rounds >= MAX_GATE_ROUNDS {
            let mut m = owned("warning: giving up after ");
            m.push_str(decimal_usize(MAX_GATE_ROUNDS).as_str());
            m.push_str(" round(s); ");
            m.push_str(decimal_usize(count).as_str());
            m.push_str(" answer(s) still do not compile");
            return RoundStep::GiveUp { warning: m };
        }
        self.rounds = self.rounds + 1;
        self.retried = self.retried + count;

        // A rejected answer must not be recorded, whatever else happens.
        let ghost before = pending_views(self.pending@);
        let mut kept: Vec<(String, String)> = Vec::new();
        let mut i: usize = 0;
        proof {
            assert(before.take(0) =~= Seq::<(Seq<char>, Seq<char>)>::empty());
            assert(pending_views(kept@) =~= Seq::<(Seq<char>, Seq<char>)>::empty());
        }
        while i < self.pending.len()
            invariant
                i <= self.pending@.len(),
                before == pending_views(self.pending@),
                blamed == blame.view_all(),
                pending_views(kept@) == unblamed(before.take(i as int), blamed),
            decreases self.pending.len() - i,
        {
            proof {
                assert(before.take(i + 1).drop_last() =~= before.take(i as int));
                assert(before.take(i + 1).last() == before[i as int]);
            }
            if blame.errors(self.pending[i].0.as_str()).is_none() {
                let entry = (self.pending[i].0.clone(), self.pending[i].1.clone());
                proof {
                    assert(pending_views(kept@.push(entry)) =~= pending_views(kept@).push(
                        before[i as int],
                    ));
                }
                kept.push(entry);
            }
            i = i + 1;
        }
        proof {
            assert(before.take(self.pending@.len() as int) =~= before);
        }
        self.pending = kept;

        let asks = self.find_blamed(&blame);
        RoundStep::AskAgain { blame, asks }
    }

    fn find_blamed(&self, blame: &Blame) -> (r: Vec<(usize, usize)>)
        ensures
            r@ == asks_in(self@.work, blame.view_all(), self@.work.len() as int),
    {
        let ghost blamed = blame.view_all();
        let mut out: Vec<(usize, usize)> = Vec::new();
        let mut f: usize = 0;
        while f < self.work.len()
            invariant
                f <= self.work@.len(),
                blamed == blame.view_all(),
                out@ == asks_in(self@.work, blamed, f as int),
            decreases self.work.len() - f,
        {
            let answers = &self.work[f].answers;
            let ghost all = answer_views(answers@);
            let ghost before = out@;
            let mut a: usize = 0;
            proof {
                assert(self@.work[f as int].answers == all);
                assert(before + asks_in_file(all, blamed, f, 0) =~= before);
            }
            while a < answers.len()
                invariant
                    a <= answers@.len(),
                    blamed == blame.view_all(),
                    all == answer_views(answers@),
                    out@ == before + asks_in_file(all, blamed, f, a as int),
                decreases answers.len() - a,
            {
                proof {
                    assert(all[a as int].0 == answers@[a as int].0@);
                }
                let hole = &answers[a].0;
                let key = hole.hash_key();
                if !hole.pinned && hole.unresolvable.is_none() && blame.errors(key.as_str()).is_some() {
                    proof {
                        let front = asks_in_file(all, blamed, f, a as int);
                        assert((before + front).push((f, a)) =~= before + front.push((f, a)));
                    }
                    out.push((f, a));
                }
                a = a + 1;
            }
            f = f + 1;
        }
        out
    }

    /// Take the answer that was asked for again. One that still does not come is
    /// left unelaborated, which compiles, so one hole the model cannot do does
    /// not sink the whole tree; the warning about it is returned.
    pub fn refilled(&mut self, file: usize, at: usize, result: Result<(String, u32), String>) -> (r:
        Option<String>)
        requires
            file < old(self).work@.len(),
            at < old(self).work@[file as int].answers@.len(),
            result matches Ok((_, calls)) ==> old(self).model_calls + calls <= u32::MAX,
        ensures
            final(self)@ == reanswered(old(self)@, file as int, at as int, reply_text(result)),
            match result {
                Ok(_) => r is None,
                Err(e) => r is Some && r->0@ == still_open_text(
                    old(self)@.work[file as int].answers[at as int].0,
                    e@,
                ),
            },
    {
        let ghost old_work = self@.work;
        let mut item = self.work.remove(file);
        let ghost before = item.answers@;
        let ghost w = item@;
        let (hole, _) = item.answers.remove(at);
        proof {
            assert(old_work[file as int] == w);
            assert(w.answers[at as int].0 == hole@);
        }
        let mut warning: Option<String> = None;
        let mut answer: Option<String> = None;
        match result {
            Ok((code, calls)) => {
                self.model_calls = self.model_calls + calls;
                let entry = (hole.hash_key(), code.clone());
                proof {
                    assert(pending_views(self.pending@.push(entry)) =~= pending_views(
                        self.pending@,
                    ).push((entry.0@, entry.1@)));
                }
                self.pending.push(entry);
                answer = Some(code);
            },
            Err(e) => {
                let mut m = owned("warning: still cannot fill ");
                m.push_str(hole.location().as_str());
                m.push_str(": ");
                m.push_str(e.as_str());
                warning = Some(m);
            },
        }
        let ghost view = opt_view(answer);
        let ghost h = hole@;
        item.answers.insert(at, (hole, answer));
        proof {
            assert(answer_views(item.answers@) =~= answer_views(before).update(
                at as int,
                (h, view),
            ));
        }
        let ghost now = item@;
        self.work.insert(file, item);
        proof {
            assert(work_views(self.work@) =~= old_work.update(file as int, now));
        }
        warning
    }

    /// End the run with the last verdict. A tree that was not accepted leaves
    /// nothing to record, and what was the problem is said, so the run is
    /// actionable rather than just failed.
    pub fn conclude(&mut self, verdict: &Verdict) -> (r: Vec<String>)
        ensures
            final(self)@ == concluded(old(self)@, verdict@),
            views(r@) == rejection_messages(verdict@),
    {
        let mut out: Vec<String> = Vec::new();
        if verdict.is_accepted() {
            proof {
                assert(views(out@) =~= seq![]);
            }
            return out;
        }
        self.pending = Vec::new();
        proof {
            assert(pending_views(self.pending@) =~= seq![]);
        }
        let picked = verdict.attributable();
        let ghost ours = verdict_failures(verdict@, true);
        let ghost all = rejection_messages(verdict@);
        proof {
            assert(ours.len() == picked@.len());
        }
        if picked.len() == 0 {
            let m = owned(
                "error: the crate did not compile, and not because of a generated answer; nothing was written",
            );
            proof {
                assert(views(out@.push(m)) =~= seq![m@]);
            }
            out.push(m);
            return out;
        }
        let mut i: usize = 0;
        while i < picked.len()
            invariant
                i <= picked@.len(),
                ours == failure_refs(picked@),
                ours == verdict_failures(verdict@, true),
                ours.len() == picked@.len(),
                ours.len() > 0,
                !(verdict@ is Accepted),
                all == rejection_messages(verdict@),
                views(out@) == all.take(i as int),
            decreases picked.len() - i,
        {
            proof {
                assert(ours[i as int] == picked@[i as int]@);
            }
            let m = labelled("error: ", picked[i], " did not compile and was not written");
            proof {
                assert(views(out@.push(m)) =~= views(out@).push(m@));
                assert(all.take(i + 1) =~= all.take(i as int).push(m@));
            }
            out.push(m);
            i = i + 1;
        }
        proof {
            assert(all.take(picked@.len() as int) =~= all);
        }
        out
    }

    /// What is said at the end of the run.
    pub fn summary(&self) -> (r: String)
        ensures
            r@ == run_summary(self@),
    {
        let mut retries = owned("");
        if self.retried > 0 {
            retries = owned("re-asked for ");
            retries.push_str(decimal_usize(self.retried).as_str());
            retries.push_str(" answer(s) across ");
            retries.push_str(decimal_usize(self.rounds).as_str());
            retries.push_str(" extra round(s) after the compile gate rejected them\n");
        }
        let mut recorded = owned("");
        if self.pending.len() > 0 {
            recorded = decimal_usize(self.pending.len());
            recorded.push_str(" answer(s) recorded in the ledger\n");
        }
        let mut m = owned("\n");
        m.push_str(decimal_usize(self.filled).as_str());
        m.push_str(" filled, ");
        m.push_str(decimal_usize(self.cached).as_str());
        m.push_str(" cached, ");
        m.push_str(decimal_usize(self.rejected).as_str());
        m.push_str(" not filled, ");
        m.push_str(decimal_usize(self.skipped).as_str());
        m.push_str(" skipped (");
        m.push_str(decimal(self.model_calls as u64).as_str());
        m.push_str(" model call(s))\n");
        m.push_str(retries.as_str());
        m.push_str(recorded.as_str());
        m
    }
}

} // verus!
