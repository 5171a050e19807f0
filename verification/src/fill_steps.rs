//! The course of a `fill` run, one step at a time.
//!
//! A run reads each file, comes by an answer for each of its holes, puts the
//! whole tree through the compile gate, asks again for what it rejects, and only
//! then writes and records. Reading, asking, checking and writing are done by the
//! caller: a step takes what came of the last action and says what to do next.
//!
//! Nothing is written until the generated tree has compiled, because in
//! `--in-place` mode a write *is* the user's source: a rejected answer left behind
//! would be worse than not filling the hole at all. Keeping the write last also
//! means a rejection leaves no trace to undo.
use vstd::prelude::*;
use vstd::utf8::encode_utf8;

use crate::cmdline::{
    files_of, group_by_file, holes_of_file, is_fillable, positions, skipped_text, skipping_text,
    start_keys, top_to_bottom,
};
use crate::fill::{
    assembled, assembly_error, blame_of, errors_for, plan_hole, planned, Blame, FileWork,
    HolePlan, HoleResult, PlanView, ResultView, WorkView,
};
use crate::fill_run::{
    answered, are_patches_for, asked_places, asks_in, concluded, counted, first_assembly_error,
    fresh_run, giving_up_text, is_bounded, is_in_tree, lemma_asks_are_blamed,
    lemma_counted_is_in_tree, lemma_reanswered_is_in_tree, lemma_round_is_in_tree,
    pre_existing_messages, reanswered, rejection_messages, reply_text, report_pre_existing,
    round_begun, run_summary, stands_at, stands_somewhere, still_open_text, ungated_text, with_file,
    with_nothing_pending, FillRun, RoundStep, RunView, MAX_GATE_ROUNDS,
};
use crate::gate::{verdict_failures, Patch, Verdict, VerdictView};
use crate::groups::{
    group_views, grouped, has_member, lemma_grouped, lemma_grouped_count, views_count,
};
use crate::hole::{hash_key_of, hole_views, Hole, HoleView};
use crate::order::lemma_order_is_stable;
use crate::storage::Storage;
use crate::text::{owned, views};

verus! {

// ---------------------------------------------------------------------------
// What there is to fill
// ---------------------------------------------------------------------------

/// A file and its holes, from top to bottom.
#[derive(Debug)]
pub struct FileHoles {
    pub file: String,
    pub holes: Vec<Hole>,
}

/// Files and their holes as plain text and numbers.
pub open spec fn file_views(files: Seq<FileHoles>) -> Seq<(Seq<char>, Seq<HoleView>)> {
    Seq::new(files.len(), |i: int| (files[i].file@, hole_views(files[i].holes@)))
}

/// Holes by file: in path order, and within a file from top to bottom.
pub open spec fn by_file(holes: Seq<HoleView>) -> Seq<(Seq<char>, Seq<HoleView>)> {
    let groups = grouped(files_of(holes), positions(holes.len()));
    Seq::new(groups.len(), |g: int| (groups[g].0, top_to_bottom(holes, groups[g].1)))
}

/// How many holes the first `n` files have together.
pub open spec fn holes_before(files: Seq<(Seq<char>, Seq<HoleView>)>, n: int) -> nat
    decreases n,
{
    if n <= 0 {
        0
    } else {
        holes_before(files, n - 1) + files[n - 1].1.len()
    }
}

proof fn lemma_holes_before(files: Seq<(Seq<char>, Seq<HoleView>)>, i: int, n: int)
    requires
        0 <= i <= n <= files.len(),
    ensures
        holes_before(files, i) <= holes_before(files, n),
    decreases n,
{
    if i < n {
        lemma_holes_before(files, i, n - 1);
    }
}

proof fn lemma_by_file_count(
    files: Seq<(Seq<char>, Seq<HoleView>)>,
    groups: Seq<(Seq<char>, Seq<usize>)>,
    n: int,
)
    requires
        0 <= n <= groups.len(),
        files.len() == groups.len(),
        forall|g: int| 0 <= g < groups.len() ==> (#[trigger] files[g]).1.len() == groups[g].1.len(),
    ensures
        holes_before(files, n) == views_count(groups.take(n)),
    decreases n,
{
    if n > 0 {
        lemma_by_file_count(files, groups, n - 1);
        assert(groups.take(n).drop_last() =~= groups.take(n - 1));
        assert(groups.take(n).last() == groups[n - 1]);
        assert(files[n - 1].1.len() == groups[n - 1].1.len());
    } else {
        assert(groups.take(0) =~= seq![]);
    }
}

proof fn lemma_group_within_count(groups: Seq<(Seq<char>, Seq<usize>)>, g: int)
    requires
        0 <= g < groups.len(),
    ensures
        groups[g].1.len() <= views_count(groups),
    decreases groups.len(),
{
    if g < groups.len() - 1 {
        lemma_group_within_count(groups.drop_last(), g);
    }
}

/// Grouping by file loses no hole and repeats none.
pub proof fn lemma_by_file_keeps_every_hole(holes: Seq<HoleView>)
    requires
        holes.len() <= usize::MAX,
    ensures
        holes_before(by_file(holes), by_file(holes).len() as int) == holes.len(),
{
    let groups = grouped(files_of(holes), positions(holes.len()));
    let files = by_file(holes);
    lemma_grouped_count(files_of(holes), positions(holes.len()));
    assert forall|g: int| 0 <= g < groups.len() implies (#[trigger] files[g]).1.len()
        == groups[g].1.len() by {
        lemma_group_within_count(groups, g);
        let keys = start_keys(holes, groups[g].1);
        lemma_order_is_stable(keys, keys.len() as int);
    }
    lemma_by_file_count(files, groups, groups.len() as int);
    assert(groups.take(groups.len() as int) =~= groups);
}

/// The holes by file, so each file is read and written once.
pub fn files_to_fill(holes: &Vec<Hole>) -> (r: Vec<FileHoles>)
    ensures
        file_views(r@) == by_file(hole_views(holes@)),
{
    let n: usize = holes.len();
    let groups = group_by_file(holes);
    let ghost all = hole_views(holes@);
    let ghost gs = grouped(files_of(all), positions(all.len()));
    let mut out: Vec<FileHoles> = Vec::new();
    let mut i: usize = 0;
    proof {
        lemma_grouped(files_of(all), positions(all.len()));
        assert(group_views(groups@) == gs);
        assert(gs.len() == groups@.len());
        assert(file_views(out@) =~= by_file(all).take(0));
    }
    while i < groups.len()
        invariant
            i <= groups@.len(),
            n == holes@.len(),
            all == hole_views(holes@),
            gs == grouped(files_of(all), positions(all.len())),
            gs == group_views(groups@),
            gs.len() == groups@.len(),
            forall|p: usize| #[trigger]
                has_member(gs, p) <==> positions(all.len()).contains(p),
            file_views(out@) == by_file(all).take(i as int),
        decreases groups.len() - i,
    {
        proof {
            assert(gs[i as int] == (groups@[i as int].file@, groups@[i as int].members@));
            assert forall|k: int| 0 <= k < groups@[i as int].members@.len() implies
            #[trigger] groups@[i as int].members@[k] < holes@.len() by {
                let p = groups@[i as int].members@[k];
                assert(gs[i as int].1[k] == p);
                assert(gs[i as int].1.contains(p));
                assert(has_member(gs, p));
                let j = choose|j: int|
                    0 <= j < positions(all.len()).len() && positions(all.len())[j] == p;
                assert(j <= usize::MAX);
            }
        }
        let item = FileHoles {
            file: groups[i].file.clone(),
            holes: holes_of_file(holes, &groups[i].members),
        };
        proof {
            assert(file_views(out@.push(item)) =~= file_views(out@).push(
                (item.file@, hole_views(item.holes@)),
            ));
            assert(by_file(all).take(i + 1) =~= by_file(all).take(i as int).push(
                by_file(all)[i as int],
            ));
        }
        out.push(item);
        i = i + 1;
    }
    proof {
        assert(by_file(all).take(groups@.len() as int) =~= by_file(all));
    }
    out
}

// ---------------------------------------------------------------------------
// Stages, events and actions
// ---------------------------------------------------------------------------

/// How far a run has come.
#[derive(Debug)]
pub enum FillStage {
    /// Waiting for the text of a file.
    Reading { file: usize },
    /// Waiting for the model's answer for hole `at` of a file.
    Asking { item: FileWork, file: usize, at: usize },
    /// Waiting for the verdict of the compile gate.
    Gating,
    /// Waiting for a better answer, the `next`th of those asked for again.
    Reasking { blame: Blame, asks: Vec<(usize, usize)>, next: usize },
    /// The tree is accepted; waiting for file `next` to be written.
    Writing { next: usize },
    /// Everything is written; waiting for pending answer `next` to be recorded.
    Recording { next: usize },
    Finished,
}

/// What came of an action.
#[derive(Debug)]
pub enum FillEvent {
    Text(String),
    ReadFailed(String),
    /// The model's answer and the number of calls it took, or why there is none.
    Answered(Result<(String, u32), String>),
    Gated(Verdict),
    Written,
    WriteFailed(String),
    Recorded,
    RecordFailed(String),
}

/// What to do next.
#[derive(Debug)]
pub enum FillAction {
    /// Read this file.
    Read { file: String },
    /// Ask the model for this hole.
    Ask { hole: Hole },
    /// Put these patches through the compile gate.
    Gate { patches: Vec<Patch> },
    /// Ask the model again for this hole, quoting these errors.
    Reask { hole: Hole, errors: Vec<String> },
    /// Put this text in place of the file, or beside it as its artifact.
    Write { file: String, text: String },
    /// Record this answer in the ledger.
    Record { key: String, code: String },
    /// The run is over; say this.
    Done { summary: String },
    /// The run cannot go on.
    Fail { message: String },
}

/// A stage as plain text and numbers.
#[verifier::ext_equal]
pub enum StageView {
    Reading { file: int },
    Asking { item: WorkView, file: int, at: int },
    Gating,
    Reasking {
        blame: Seq<(Seq<char>, Seq<Seq<char>>)>,
        asks: Seq<(usize, usize)>,
        next: int,
    },
    Writing { next: int },
    Recording { next: int },
    Finished,
}

/// An event as plain text and numbers.
#[verifier::ext_equal]
pub enum EventView {
    Text(Seq<char>),
    ReadFailed(Seq<char>),
    Answered(Result<(Seq<char>, u32), Seq<char>>),
    Gated(VerdictView),
    Written,
    WriteFailed(Seq<char>),
    Recorded,
    RecordFailed(Seq<char>),
}

/// An action as plain text and numbers; of the patches, see
/// [`Filling::step`].
#[verifier::ext_equal]
pub enum ActionView {
    Read { file: Seq<char> },
    Ask { hole: HoleView },
    Gate,
    Reask { hole: HoleView, errors: Seq<Seq<char>> },
    Write { file: Seq<char>, bytes: Seq<u8> },
    Record { key: Seq<char>, code: Seq<char> },
    Done { summary: Seq<char> },
    Fail { message: Seq<char> },
}

impl View for FillStage {
    type V = StageView;

    open spec fn view(&self) -> StageView {
        match *self {
            FillStage::Reading { file } => StageView::Reading { file: file as int },
            FillStage::Asking { item, file, at } => StageView::Asking {
                item: item@,
                file: file as int,
                at: at as int,
            },
            FillStage::Gating => StageView::Gating,
            FillStage::Reasking { blame, asks, next } => StageView::Reasking {
                blame: blame.view_all(),
                asks: asks@,
                next: next as int,
            },
            FillStage::Writing { next } => StageView::Writing { next: next as int },
            FillStage::Recording { next } => StageView::Recording { next: next as int },
            FillStage::Finished => StageView::Finished,
        }
    }
}

impl View for FillEvent {
    type V = EventView;

    open spec fn view(&self) -> EventView {
        match *self {
            FillEvent::Text(s) => EventView::Text(s@),
            FillEvent::ReadFailed(e) => EventView::ReadFailed(e@),
            FillEvent::Answered(r) => EventView::Answered(reply_text(r)),
            FillEvent::Gated(v) => EventView::Gated(v@),
            FillEvent::Written => EventView::Written,
            FillEvent::WriteFailed(e) => EventView::WriteFailed(e@),
            FillEvent::Recorded => EventView::Recorded,
            FillEvent::RecordFailed(e) => EventView::RecordFailed(e@),
        }
    }
}

impl View for FillAction {
    type V = ActionView;

    open spec fn view(&self) -> ActionView {
        match *self {
            FillAction::Read { file } => ActionView::Read { file: file@ },
            FillAction::Ask { hole } => ActionView::Ask { hole: hole@ },
            FillAction::Gate { .. } => ActionView::Gate,
            FillAction::Reask { hole, errors } => ActionView::Reask {
                hole: hole@,
                errors: views(errors@),
            },
            FillAction::Write { file, text } => ActionView::Write {
                file: file@,
                bytes: encode_utf8(text@),
            },
            FillAction::Record { key, code } => ActionView::Record { key: key@, code: code@ },
            FillAction::Done { summary } => ActionView::Done { summary: summary@ },
            FillAction::Fail { message } => ActionView::Fail { message: message@ },
        }
    }
}

/// What a run of `fill` is to do.
#[derive(Debug)]
pub struct FillTask {
    pub files: Vec<FileHoles>,
    /// Set by `--no-verify`: the tree is not put through the compile gate.
    pub ungated: bool,
}

/// A task as plain text and numbers.
#[verifier::ext_equal]
pub struct TaskView {
    pub files: Seq<(Seq<char>, Seq<HoleView>)>,
    pub ungated: bool,
}

impl View for FillTask {
    type V = TaskView;

    open spec fn view(&self) -> TaskView {
        TaskView { files: file_views(self.files@), ungated: self.ungated }
    }
}

/// A run of `fill`: what there is to fill, what has been filled, and how far it
/// has come.
#[derive(Debug)]
pub struct Filling {
    pub task: FillTask,
    pub run: FillRun,
    pub stage: FillStage,
}

/// A run as plain text and numbers.
#[verifier::ext_equal]
pub struct FillingView {
    pub task: TaskView,
    pub run: RunView,
    pub stage: StageView,
}

impl View for Filling {
    type V = FillingView;

    open spec fn view(&self) -> FillingView {
        FillingView { task: self.task@, run: self.run@, stage: self.stage@ }
    }
}

// ---------------------------------------------------------------------------
// What a step comes to
// ---------------------------------------------------------------------------

/// A run after a step, the action to take, and what to say on the way.
#[verifier::ext_equal]
pub struct StepView {
    pub filling: FillingView,
    pub action: ActionView,
    pub said: Seq<Seq<char>>,
}

/// A run that has reached a stage.
pub open spec fn reached(t: TaskView, run: RunView, stage: StageView) -> FillingView {
    FillingView { task: t, run, stage }
}

/// The end of a run that cannot go on.
pub open spec fn failing(
    t: TaskView,
    run: RunView,
    message: Seq<char>,
    said: Seq<Seq<char>>,
) -> StepView {
    StepView {
        filling: reached(t, run, StageView::Finished),
        action: ActionView::Fail { message },
        said,
    }
}

/// Recording the pending answers from the `i`th on, then the end of the run.
pub open spec fn recording(
    t: TaskView,
    run: RunView,
    i: int,
    said: Seq<Seq<char>>,
) -> StepView {
    if i < run.pending.len() {
        StepView {
            filling: reached(t, run, StageView::Recording { next: i }),
            action: ActionView::Record { key: run.pending[i].0, code: run.pending[i].1 },
            said,
        }
    } else {
        StepView {
            filling: reached(t, run, StageView::Finished),
            action: ActionView::Done { summary: run_summary(run) },
            said,
        }
    }
}

/// Writing the files from the `i`th on, then recording.
pub open spec fn writing(t: TaskView, run: RunView, i: int, said: Seq<Seq<char>>) -> StepView {
    if i < run.work.len() {
        match assembly_error(run.work[i]) {
            Some(e) => failing(t, run, e, said),
            None => StepView {
                filling: reached(t, run, StageView::Writing { next: i }),
                action: ActionView::Write {
                    file: run.work[i].file,
                    bytes: assembled(run.work[i]),
                },
                said,
            },
        }
    } else {
        recording(t, run, 0, said)
    }
}

/// Putting the tree through the compile gate.
pub open spec fn gating(t: TaskView, run: RunView, said: Seq<Seq<char>>) -> StepView {
    match first_assembly_error(run.work, 0) {
        Some(e) => failing(t, run, e, said),
        None => StepView {
            filling: reached(t, run, StageView::Gating),
            action: ActionView::Gate,
            said,
        },
    }
}

/// Asking again from the `k`th answer on, then the compile gate once more.
pub open spec fn reasking(
    t: TaskView,
    run: RunView,
    blame: Seq<(Seq<char>, Seq<Seq<char>>)>,
    asks: Seq<(usize, usize)>,
    k: int,
    said: Seq<Seq<char>>,
) -> StepView {
    if k < asks.len() {
        let hole = run.work[asks[k].0 as int].answers[asks[k].1 as int].0;
        StepView {
            filling: reached(t, run, StageView::Reasking { blame, asks, next: k }),
            action: ActionView::Reask {
                hole,
                errors: match errors_for(blame, hash_key_of(hole)) {
                    Some(errors) => errors,
                    None => seq![],
                },
            },
            said,
        }
    } else {
        gating(t, run, said)
    }
}

/// The end of a run after its last verdict. The writes if the tree was accepted,
/// else what was the problem.
pub open spec fn concluding(
    t: TaskView,
    before: RunView,
    v: VerdictView,
    said: Seq<Seq<char>>,
) -> StepView {
    let run = concluded(before, v);
    if v is Accepted {
        writing(t, run, 0, said)
    } else {
        StepView {
            filling: reached(t, run, StageView::Finished),
            action: ActionView::Done { summary: run_summary(run) },
            said: said + rejection_messages(v),
        }
    }
}

/// What follows when the tree was checked: another round if answers are at fault
/// and rounds are left, else the end. Errors that no answer can fix are reported
/// once.
pub open spec fn gated(t: TaskView, run: RunView, v: VerdictView) -> StepView {
    let blamed = blame_of(verdict_failures(v, true));
    let said = if v is Rejected && run.rounds == 0 {
        pre_existing_messages(v)
    } else {
        seq![]
    };
    if !(v is Rejected) || blamed.len() == 0 {
        concluding(t, run, v, said)
    } else if run.rounds >= MAX_GATE_ROUNDS {
        concluding(t, run, v, said.push(giving_up_text(blamed.len())))
    } else {
        reasking(
            t,
            round_begun(run, blamed),
            blamed,
            asks_in(run.work, blamed, run.work.len() as int),
            0,
            said,
        )
    }
}

/// What follows when every file has been looked at.
pub open spec fn all_looked_at(t: TaskView, run: RunView, said: Seq<Seq<char>>) -> StepView {
    if t.ungated {
        writing(t, with_nothing_pending(run), 0, said.push(ungated_text()))
    } else {
        gating(t, run, said)
    }
}

/// What follows when every hole of a file has been looked at.
pub open spec fn file_looked_at(
    t: TaskView,
    run: RunView,
    item: WorkView,
    file: int,
    said: Seq<Seq<char>>,
) -> StepView {
    match assembly_error(item) {
        Some(e) => failing(t, run, e, said),
        None => if file + 1 < t.files.len() {
            StepView {
                filling: reached(t, with_file(run, item), StageView::Reading { file: file + 1 }),
                action: ActionView::Read { file: t.files[file + 1].0 },
                said,
            }
        } else {
            all_looked_at(t, with_file(run, item), said)
        },
    }
}

/// Looking at the holes of a file from the `at`th on, up to the first that has to
/// be asked for.
pub open spec fn looking(
    t: TaskView,
    recorded: Map<Seq<char>, Seq<char>>,
    run: RunView,
    item: WorkView,
    file: int,
    at: int,
    said: Seq<Seq<char>>,
) -> StepView
    decreases t.files[file].1.len() - at,
{
    let holes = t.files[file].1;
    if at >= holes.len() {
        file_looked_at(t, run, item, file, said)
    } else {
        match planned(holes[at], recorded) {
            PlanView::Ask => StepView {
                filling: reached(t, run, StageView::Asking { item, file, at }),
                action: ActionView::Ask { hole: holes[at] },
                said,
            },
            PlanView::Skip => looking(
                t,
                recorded,
                counted(run, holes[at], ResultView::Skipped),
                answered(item, holes[at], ResultView::Skipped),
                file,
                at + 1,
                said,
            ),
            PlanView::Replay(code) => looking(
                t,
                recorded,
                counted(run, holes[at], ResultView::Cached(code)),
                answered(item, holes[at], ResultView::Cached(code)),
                file,
                at + 1,
                said,
            ),
        }
    }
}

/// What became of a hole that was asked for.
pub open spec fn asked_result(reply: Result<(Seq<char>, u32), Seq<char>>) -> ResultView {
    match reply {
        Ok((code, calls)) => ResultView::Filled { code, calls },
        Err(_) => ResultView::Failed,
    }
}

/// A run after one event, the action to take, and what to say on the way. An
/// event that does not answer the stage ends the run.
pub open spec fn next_step(
    m: FillingView,
    recorded: Map<Seq<char>, Seq<char>>,
    event: EventView,
) -> StepView {
    match (m.stage, event) {
        (StageView::Reading { file }, EventView::Text(text)) => looking(
            m.task,
            recorded,
            m.run,
            WorkView { file: m.task.files[file].0, original: text, answers: seq![] },
            file,
            0,
            seq![],
        ),
        (StageView::Reading { file }, EventView::ReadFailed(e)) => failing(
            m.task,
            m.run,
            "cannot read "@ + m.task.files[file].0 + ": "@ + e,
            seq![],
        ),
        (StageView::Asking { item, file, at }, EventView::Answered(reply)) => {
            let hole = m.task.files[file].1[at];
            let result = asked_result(reply);
            looking(
                m.task,
                recorded,
                counted(m.run, hole, result),
                answered(item, hole, result),
                file,
                at + 1,
                match reply {
                    Ok(_) => seq![],
                    Err(e) => seq![skipped_text(hole, e)],
                },
            )
        },
        (StageView::Gating, EventView::Gated(v)) => gated(m.task, m.run, v),
        (StageView::Reasking { blame, asks, next }, EventView::Answered(reply)) => {
            let (file, at) = (asks[next].0 as int, asks[next].1 as int);
            reasking(
                m.task,
                reanswered(m.run, file, at, reply),
                blame,
                asks,
                next + 1,
                match reply {
                    Ok(_) => seq![],
                    Err(e) => seq![still_open_text(m.run.work[file].answers[at].0, e)],
                },
            )
        },
        (StageView::Writing { next }, EventView::Written) => writing(
            m.task,
            m.run,
            next + 1,
            seq![],
        ),
        (StageView::Writing { .. }, EventView::WriteFailed(e)) => failing(m.task, m.run, e, seq![]),
        (StageView::Recording { next }, EventView::Recorded) => recording(
            m.task,
            m.run,
            next + 1,
            seq![],
        ),
        (StageView::Recording { .. }, EventView::RecordFailed(e)) => failing(
            m.task,
            m.run,
            e,
            seq![],
        ),
        _ => failing(m.task, m.run, "the step does not follow"@, seq![]),
    }
}

/// The first step of a run.
pub open spec fn first_step(t: TaskView) -> StepView {
    if t.files.len() == 0 {
        all_looked_at(t, fresh_run(), seq![])
    } else {
        StepView {
            filling: reached(t, fresh_run(), StageView::Reading { file: 0 }),
            action: ActionView::Read { file: t.files[0].0 },
            said: seq![],
        }
    }
}

// ---------------------------------------------------------------------------
// Taking a step
// ---------------------------------------------------------------------------

/// A run after a step, the action to take, and what to say on the way.
#[derive(Debug)]
pub struct Step {
    pub filling: Filling,
    pub action: FillAction,
    pub said: Vec<String>,
}

impl View for Step {
    type V = StepView;

    open spec fn view(&self) -> StepView {
        StepView { filling: self.filling@, action: self.action@, said: views(self.said@) }
    }
}

/// Whether a step that goes to the compile gate brings what every file's answers
/// come to.
pub open spec fn brings_patches(s: Step) -> bool {
    s.action matches FillAction::Gate { patches } ==> are_patches_for(
        patches@,
        s.filling@.run.work,
    )
}

/// Whether the holes of a task can be counted.
pub open spec fn is_countable(t: TaskView) -> bool {
    holes_before(t.files, t.files.len() as int) <= usize::MAX
}

/// How many holes have been looked at.
pub open spec fn tally(r: RunView) -> nat {
    r.filled + r.cached + r.rejected + r.skipped
}

/// Whether answers that are asked for again are there.
pub open spec fn asks_fit(work: Seq<WorkView>, asks: Seq<(usize, usize)>) -> bool {
    forall|i: int|
        0 <= i < asks.len() ==> ({
            let p = #[trigger] asks[i];
            p.0 < work.len() && p.1 < work[p.0 as int].answers.len()
        })
}

/// Whether a run is somewhere it can be.
pub open spec fn is_under_way(m: FillingView) -> bool {
    &&& is_countable(m.task)
    &&& match m.stage {
        StageView::Reading { file } => 0 <= file < m.task.files.len() && tally(m.run)
            == holes_before(m.task.files, file),
        StageView::Asking { item, file, at } => 0 <= file < m.task.files.len() && 0 <= at
            < m.task.files[file].1.len() && tally(m.run) == holes_before(m.task.files, file) + at,
        StageView::Gating => true,
        StageView::Reasking { asks, next, .. } => 0 <= next < asks.len() && asks_fit(
            m.run.work,
            asks,
        ),
        StageView::Writing { next } => 0 <= next < m.run.work.len(),
        StageView::Recording { next } => 0 <= next < m.run.pending.len(),
        StageView::Finished => true,
    }
}

/// Whether the numbers of an event can be added to those of the run.
pub open spec fn can_be_counted(r: RunView, event: EventView) -> bool {
    match event {
        EventView::Answered(Ok((_, calls))) => r.model_calls + calls <= u32::MAX,
        EventView::Gated(v) => r.retried + verdict_failures(v, true).len() <= usize::MAX,
        _ => true,
    }
}

fn fail(task: FillTask, run: FillRun, message: String, said: Vec<String>) -> (r: Step)
    requires
        is_countable(task@),
    ensures
        r@ == failing(task@, run@, message@, views(said@)),
        is_under_way(r.filling@),
        brings_patches(r),
{
    Step {
        filling: Filling { task, run, stage: FillStage::Finished },
        action: FillAction::Fail { message },
        said,
    }
}

fn record_from(task: FillTask, run: FillRun, i: usize, said: Vec<String>) -> (r: Step)
    requires
        is_countable(task@),
    ensures
        r@ == recording(task@, run@, i as int, views(said@)),
        is_under_way(r.filling@),
        brings_patches(r),
{
    if i < run.pending.len() {
        let key = run.pending[i].0.clone();
        let code = run.pending[i].1.clone();
        proof {
            assert(run@.pending[i as int] == (key@, code@));
        }
        Step {
            filling: Filling { task, run, stage: FillStage::Recording { next: i } },
            action: FillAction::Record { key, code },
            said,
        }
    } else {
        let summary = run.summary();
        Step {
            filling: Filling { task, run, stage: FillStage::Finished },
            action: FillAction::Done { summary },
            said,
        }
    }
}

fn write_from(task: FillTask, run: FillRun, i: usize, said: Vec<String>) -> (r: Step)
    requires
        is_countable(task@),
    ensures
        r@ == writing(task@, run@, i as int, views(said@)),
        is_under_way(r.filling@),
        brings_patches(r),
{
    if i < run.work.len() {
        proof {
            assert(run@.work[i as int] == run.work@[i as int]@);
        }
        match run.work[i].checked() {
            Err(message) => fail(task, run, message, said),
            Ok(text) => {
                let file = run.work[i].file.clone();
                Step {
                    filling: Filling { task, run, stage: FillStage::Writing { next: i } },
                    action: FillAction::Write { file, text },
                    said,
                }
            },
        }
    } else {
        record_from(task, run, 0, said)
    }
}

fn gate_tree(task: FillTask, run: FillRun, said: Vec<String>) -> (r: Step)
    requires
        is_countable(task@),
    ensures
        r@ == gating(task@, run@, views(said@)),
        is_under_way(r.filling@),
        brings_patches(r),
{
    match run.patches() {
        Err(message) => fail(task, run, message, said),
        Ok(patches) => Step {
            filling: Filling { task, run, stage: FillStage::Gating },
            action: FillAction::Gate { patches },
            said,
        },
    }
}

fn copy_texts(texts: &Vec<String>) -> (r: Vec<String>)
    ensures
        views(r@) == views(texts@),
{
    let mut out: Vec<String> = Vec::new();
    let mut i: usize = 0;
    proof {
        assert(views(out@) =~= views(texts@).take(0));
    }
    while i < texts.len()
        invariant
            i <= texts@.len(),
            views(out@) == views(texts@).take(i as int),
        decreases texts.len() - i,
    {
        let one = texts[i].clone();
        proof {
            assert(views(out@.push(one)) =~= views(out@).push(one@));
            assert(views(texts@).take(i + 1) =~= views(texts@).take(i as int).push(one@));
        }
        out.push(one);
        i = i + 1;
    }
    proof {
        assert(views(texts@).take(texts@.len() as int) =~= views(texts@));
    }
    out
}

fn reask_from(
    task: FillTask,
    run: FillRun,
    blame: Blame,
    asks: Vec<(usize, usize)>,
    k: usize,
    said: Vec<String>,
) -> (r: Step)
    requires
        is_countable(task@),
        asks_fit(run@.work, asks@),
    ensures
        r@ == reasking(task@, run@, blame.view_all(), asks@, k as int, views(said@)),
        is_under_way(r.filling@),
        brings_patches(r),
{
    if k < asks.len() {
        let (f, a) = asks[k];
        proof {
            assert(asks@[k as int] == (f, a));
            assert(run@.work[f as int] == run.work@[f as int]@);
            assert(run@.work[f as int].answers[a as int].0 == run.work@[f as int].answers@[a as int].0@);
        }
        let hole = run.work[f].answers[a].0.clone();
        let key = hole.hash_key();
        let errors: Vec<String> = match blame.errors(key.as_str()) {
            Some(found) => copy_texts(found),
            None => Vec::new(),
        };
        proof {
            if errors_for(blame.view_all(), key@) is None {
                assert(views(errors@) =~= seq![]);
            }
        }
        Step {
            filling: Filling { task, run, stage: FillStage::Reasking { blame, asks, next: k } },
            action: FillAction::Reask { hole, errors },
            said,
        }
    } else {
        gate_tree(task, run, said)
    }
}

fn conclude(task: FillTask, run: FillRun, verdict: &Verdict, said: Vec<String>) -> (r: Step)
    requires
        is_countable(task@),
    ensures
        r@ == concluding(task@, run@, verdict@, views(said@)),
        is_under_way(r.filling@),
        brings_patches(r),
{
    let mut run = run;
    let mut said = said;
    let mut messages = run.conclude(verdict);
    if verdict.is_accepted() {
        return write_from(task, run, 0, said);
    }
    proof {
        assert(views(said@ + messages@) =~= views(said@) + views(messages@));
    }
    said.append(&mut messages);
    let summary = run.summary();
    Step {
        filling: Filling { task, run, stage: FillStage::Finished },
        action: FillAction::Done { summary },
        said,
    }
}

fn after_gate(task: FillTask, run: FillRun, verdict: Verdict) -> (r: Step)
    requires
        is_countable(task@),
        can_be_counted(run@, EventView::Gated(verdict@)),
    ensures
        r@ == gated(task@, run@, verdict@),
        is_under_way(r.filling@),
        brings_patches(r),
{
    let mut run = run;
    let ghost before = run@;
    let ghost blamed = blame_of(verdict_failures(verdict@, true));
    let mut said: Vec<String> = Vec::new();
    proof {
        assert(views(said@) =~= seq![]);
    }
    if !verdict.is_rejected() {
        return conclude(task, run, &verdict, said);
    }
    if run.rounds == 0 {
        said = report_pre_existing(&verdict);
    }
    match run.retry_rejected(&verdict) {
        RoundStep::Stop => conclude(task, run, &verdict, said),
        RoundStep::GiveUp { warning } => {
            proof {
                assert(views(said@.push(warning)) =~= views(said@).push(warning@));
            }
            said.push(warning);
            conclude(task, run, &verdict, said)
        },
        RoundStep::AskAgain { blame, asks } => {
            proof {
                lemma_run_is_bounded(run);
                lemma_asks_are_blamed(before.work, blamed, before.work.len() as int);
            }
            reask_from(task, run, blame, asks, 0, said)
        },
    }
}

proof fn lemma_run_is_bounded(run: FillRun)
    ensures
        is_bounded(run@.work),
{
    assert(run.work.len() == run.work@.len());
    assert forall|i: int| 0 <= i < run@.work.len() implies (#[trigger] run@.work[i]).answers.len()
        <= usize::MAX by {
        assert(run.work@[i].answers.len() == run.work@[i].answers@.len());
    }
}

fn after_files(task: FillTask, run: FillRun, said: Vec<String>) -> (r: Step)
    requires
        is_countable(task@),
    ensures
        r@ == all_looked_at(task@, run@, views(said@)),
        is_under_way(r.filling@),
        brings_patches(r),
{
    let mut run = run;
    let mut said = said;
    if task.ungated {
        let warning = run.skip_gate();
        proof {
            assert(views(said@.push(warning)) =~= views(said@).push(warning@));
        }
        said.push(warning);
        write_from(task, run, 0, said)
    } else {
        gate_tree(task, run, said)
    }
}

fn after_file(task: FillTask, run: FillRun, item: FileWork, file: usize, said: Vec<String>) -> (r:
    Step)
    requires
        is_countable(task@),
        file < task.files@.len(),
        tally(run@) == holes_before(task@.files, file + 1),
    ensures
        r@ == file_looked_at(task@, run@, item@, file as int, views(said@)),
        is_under_way(r.filling@),
        brings_patches(r),
{
    match item.patch() {
        Err(message) => fail(task, run, message, said),
        Ok(_) => {
            let mut run = run;
            run.add_file(item);
            let n: usize = task.files.len();
            if file < n - 1 {
                let next: usize = file + 1;
                let name = task.files[next].file.clone();
                proof {
                    assert(task@.files[next as int].0 == name@);
                }
                Step {
                    filling: Filling { task, run, stage: FillStage::Reading { file: next } },
                    action: FillAction::Read { file: name },
                    said,
                }
            } else {
                after_files(task, run, said)
            }
        },
    }
}

fn look(
    task: FillTask,
    storage: &Storage,
    run: FillRun,
    item: FileWork,
    file: usize,
    at: usize,
    said: Vec<String>,
) -> (r: Step)
    requires
        is_countable(task@),
        file < task.files@.len(),
        at <= task.files@[file as int].holes@.len(),
        tally(run@) == holes_before(task@.files, file as int) + at,
    ensures
        r@ == looking(
            task@,
            storage.cache().answers(),
            run@,
            item@,
            file as int,
            at as int,
            views(said@),
        ),
        is_under_way(r.filling@),
        brings_patches(r),
{
    let ghost recorded = storage.cache().answers();
    let ghost holes = task@.files[file as int].1;
    let ghost target = looking(
        task@,
        recorded,
        run@,
        item@,
        file as int,
        at as int,
        views(said@),
    );
    let mut run = run;
    let mut item = item;
    let mut at: usize = at;
    let n: usize = task.files[file].holes.len();
    proof {
        assert(holes == hole_views(task.files@[file as int].holes@));
        lemma_holes_before(task@.files, file + 1, task@.files.len() as int);
    }
    let mut asking = false;
    while at < n && !asking
        invariant
            at <= n,
            asking ==> at < n && planned(holes[at as int], recorded) is Ask,
            n == task.files@[file as int].holes@.len(),
            file < task.files@.len(),
            is_countable(task@),
            recorded == storage.cache().answers(),
            holes == task@.files[file as int].1,
            holes == hole_views(task.files@[file as int].holes@),
            holes_before(task@.files, file + 1) <= usize::MAX,
            tally(run@) == holes_before(task@.files, file as int) + at,
            target == looking(
                task@,
                recorded,
                run@,
                item@,
                file as int,
                at as int,
                views(said@),
            ),
        decreases
            n - at + if asking {
                0int
            } else {
                1int
            },
    {
        proof {
            assert(holes[at as int] == task.files@[file as int].holes@[at as int]@);
            assert(holes_before(task@.files, file + 1) == holes_before(task@.files, file as int)
                + holes.len());
        }
        let plan = plan_hole(&task.files[file].holes[at], storage);
        match plan {
            HolePlan::Ask => {
                asking = true;
            },
            HolePlan::Skip => {
                run.take(&mut item, &task.files[file].holes[at], HoleResult::Skipped);
                at = at + 1;
            },
            HolePlan::Replay(code) => {
                run.take(&mut item, &task.files[file].holes[at], HoleResult::Cached(code));
                at = at + 1;
            },
        }
    }
    if asking {
        let hole = task.files[file].holes[at].clone();
        return Step {
            filling: Filling { task, run, stage: FillStage::Asking { item, file, at } },
            action: FillAction::Ask { hole },
            said,
        };
    }
    after_file(task, run, item, file, said)
}

impl Filling {
    /// Begin a run.
    pub fn begin(task: FillTask) -> (r: Step)
        requires
            is_countable(task@),
        ensures
            r@ == first_step(task@),
            is_under_way(r.filling@),
            brings_patches(r),
    {
        let run = FillRun::new();
        let said: Vec<String> = Vec::new();
        proof {
            assert(views(said@) =~= seq![]);
        }
        if task.files.len() == 0 {
            return after_files(task, run, said);
        }
        let name = task.files[0].file.clone();
        proof {
            assert(task@.files[0].0 == name@);
        }
        Step {
            filling: Filling { task, run, stage: FillStage::Reading { file: 0 } },
            action: FillAction::Read { file: name },
            said,
        }
    }

    fn after_reading(
        task: FillTask,
        storage: &Storage,
        run: FillRun,
        file: usize,
        text: String,
    ) -> (r: Step)
        requires
            is_countable(task@),
            file < task.files@.len(),
            tally(run@) == holes_before(task@.files, file as int),
        ensures
            r@ == looking(
                task@,
                storage.cache().answers(),
                run@,
                WorkView {
                    file: task@.files[file as int].0,
                    original: text@,
                    answers: seq![],
                },
                file as int,
                0,
                seq![],
            ),
            is_under_way(r.filling@),
            brings_patches(r),
    {
        let said: Vec<String> = Vec::new();
        let item = FileWork::new(task.files[file].file.clone(), text);
        proof {
            assert(views(said@) =~= seq![]);
            assert(task@.files[file as int].0 == task.files@[file as int].file@);
            assert(item@ =~= (WorkView {
                file: task@.files[file as int].0,
                original: text@,
                answers: seq![],
            }));
        }
        look(task, storage, run, item, file, 0, said)
    }

    fn after_reading_failed(task: FillTask, run: FillRun, file: usize, why: String) -> (r: Step)
        requires
            is_countable(task@),
            file < task.files@.len(),
        ensures
            r@ == failing(
                task@,
                run@,
                "cannot read "@ + task@.files[file as int].0 + ": "@ + why@,
                seq![],
            ),
            is_under_way(r.filling@),
            brings_patches(r),
    {
        let said: Vec<String> = Vec::new();
        proof {
            assert(views(said@) =~= seq![]);
            assert(task@.files[file as int].0 == task.files@[file as int].file@);
        }
        let mut message = owned("cannot read ");
        message.push_str(task.files[file].file.as_str());
        message.push_str(": ");
        message.push_str(why.as_str());
        fail(task, run, message, said)
    }

    fn after_asking(
        task: FillTask,
        storage: &Storage,
        run: FillRun,
        item: FileWork,
        file: usize,
        at: usize,
        reply: Result<(String, u32), String>,
    ) -> (r: Step)
        requires
            is_countable(task@),
            file < task.files@.len(),
            at < task.files@[file as int].holes@.len(),
            tally(run@) == holes_before(task@.files, file as int) + at,
            reply matches Ok((_, calls)) ==> run@.model_calls + calls <= u32::MAX,
        ensures
            ({
                let hole = task@.files[file as int].1[at as int];
                let result = asked_result(reply_text(reply));
                r@ == looking(
                    task@,
                    storage.cache().answers(),
                    counted(run@, hole, result),
                    answered(item@, hole, result),
                    file as int,
                    at + 1,
                    match reply_text(reply) {
                        Ok(_) => seq![],
                        Err(e) => seq![skipped_text(hole, e)],
                    },
                )
            }),
            is_under_way(r.filling@),
            brings_patches(r),
    {
        let mut run = run;
        let mut item = item;
        let mut said: Vec<String> = Vec::new();
        let hole = &task.files[file].holes[at];
        proof {
            assert(views(said@) =~= seq![]);
            let holes = task@.files[file as int].1;
            assert(holes[at as int] == hole@);
            lemma_holes_before(task@.files, file + 1, task@.files.len() as int);
            assert(holes_before(task@.files, file + 1) == holes_before(task@.files, file as int)
                + holes.len());
        }
        match reply {
            Ok((code, calls)) => {
                run.take(&mut item, hole, HoleResult::Filled { code, calls });
            },
            Err(e) => {
                let warning = skipping_text(hole, e.as_str());
                proof {
                    assert(views(said@.push(warning)) =~= seq![warning@]);
                }
                said.push(warning);
                run.take(&mut item, hole, HoleResult::Failed);
            },
        }
        look(task, storage, run, item, file, at + 1, said)
    }

    fn after_reasking(
        task: FillTask,
        run: FillRun,
        blame: Blame,
        asks: Vec<(usize, usize)>,
        next: usize,
        reply: Result<(String, u32), String>,
    ) -> (r: Step)
        requires
            is_countable(task@),
            next < asks@.len(),
            asks_fit(run@.work, asks@),
            reply matches Ok((_, calls)) ==> run@.model_calls + calls <= u32::MAX,
        ensures
            ({
                let (file, at) = (asks@[next as int].0 as int, asks@[next as int].1 as int);
                r@ == reasking(
                    task@,
                    reanswered(run@, file, at, reply_text(reply)),
                    blame.view_all(),
                    asks@,
                    next + 1,
                    match reply_text(reply) {
                        Ok(_) => seq![],
                        Err(e) => seq![still_open_text(run@.work[file].answers[at].0, e)],
                    },
                )
            }),
            is_under_way(r.filling@),
            brings_patches(r),
    {
        let mut run = run;
        let mut said: Vec<String> = Vec::new();
        let (f, a) = asks[next];
        let ghost before = run@;
        proof {
            assert(asks.len() == asks@.len());
            assert(views(said@) =~= seq![]);
            assert(asks@[next as int] == (f, a));
            assert(run@.work[f as int] == run.work@[f as int]@);
        }
        if let Some(warning) = run.refilled(f, a, reply) {
            proof {
                assert(views(said@.push(warning)) =~= seq![warning@]);
            }
            said.push(warning);
        }
        proof {
            assert forall|i: int| 0 <= i < asks@.len() implies ({
                let p = #[trigger] asks@[i];
                p.0 < run@.work.len() && p.1 < run@.work[p.0 as int].answers.len()
            }) by {
                let p = asks@[i];
                assert(before.work[p.0 as int].answers.len()
                    == run@.work[p.0 as int].answers.len());
            }
        }
        reask_from(task, run, blame, asks, next + 1, said)
    }

    /// Go on with what came of the last action.
    pub fn step(self, storage: &Storage, event: FillEvent) -> (r: Step)
        requires
            is_under_way(self@),
            can_be_counted(self@.run, event@),
        ensures
            r@ == next_step(self@, storage.cache().answers(), event@),
            is_under_way(r.filling@),
            brings_patches(r),
    {
        let Filling { task, run, stage } = self;
        let said: Vec<String> = Vec::new();
        proof {
            assert(views(said@) =~= seq![]);
        }
        match (stage, event) {
            (FillStage::Reading { file }, FillEvent::Text(text)) => Filling::after_reading(
                task,
                storage,
                run,
                file,
                text,
            ),
            (FillStage::Reading { file }, FillEvent::ReadFailed(why)) => {
                Filling::after_reading_failed(task, run, file, why)
            },
            (FillStage::Asking { item, file, at }, FillEvent::Answered(reply)) => {
                Filling::after_asking(task, storage, run, item, file, at, reply)
            },
            (FillStage::Gating, FillEvent::Gated(verdict)) => after_gate(task, run, verdict),
            (FillStage::Reasking { blame, asks, next }, FillEvent::Answered(reply)) => {
                Filling::after_reasking(task, run, blame, asks, next, reply)
            },
            (FillStage::Writing { next }, FillEvent::Written) => {
                proof {
                    assert(run.work.len() == run.work@.len());
                }
                write_from(task, run, next + 1, said)
            },
            (FillStage::Writing { .. }, FillEvent::WriteFailed(e)) => fail(task, run, e, said),
            (FillStage::Recording { next }, FillEvent::Recorded) => {
                proof {
                    assert(run.pending.len() == run.pending@.len());
                }
                record_from(task, run, next + 1, said)
            },
            (FillStage::Recording { .. }, FillEvent::RecordFailed(e)) => fail(task, run, e, said),
            _ => fail(task, run, owned("the step does not follow"), said),
        }
    }
}

// ---------------------------------------------------------------------------
// What holds of every run
// ---------------------------------------------------------------------------

/// Whether an action changes what is on disk.
pub open spec fn changes_disk(a: ActionView) -> bool {
    a is Write || a is Record
}

/// Whether what a step writes or records is part of what the run holds.
pub open spec fn acts_on_what_it_holds(s: StepView) -> bool {
    match s.action {
        ActionView::Write { file, bytes } => s.filling.stage is Writing && exists|i: int|
            0 <= i < s.filling.run.work.len() && (#[trigger] s.filling.run.work[i]).file == file
                && bytes == assembled(s.filling.run.work[i]),
        ActionView::Record { key, code } => s.filling.stage is Recording
            && s.filling.run.pending.contains((key, code)),
        _ => true,
    }
}

/// Whether a run without the compile gate keeps away from it and from the ledger.
pub open spec fn keeps_off_the_ledger(m: FillingView) -> bool {
    m.task.ungated ==> match m.stage {
        StageView::Reading { .. } | StageView::Asking { .. } | StageView::Finished => true,
        StageView::Writing { .. } => m.run.pending.len() == 0,
        _ => false,
    }
}

/// Whether every answer that may be recorded stands in the tree, at a place that
/// is not about to be asked for again.
pub open spec fn pending_stands(m: FillingView) -> bool {
    match m.stage {
        StageView::Asking { item, .. } => is_in_tree(
            m.run.work.push(item),
            m.run.pending,
            Set::empty(),
        ),
        StageView::Reasking { asks, next, .. } => {
            &&& is_in_tree(m.run.work, m.run.pending, asked_places(asks, next))
            &&& forall|i: int, j: int|
                0 <= i < j < asks.len() ==> #[trigger] asks[i] != #[trigger] asks[j]
        },
        StageView::Finished => true,
        _ => is_in_tree(m.run.work, m.run.pending, Set::empty()),
    }
}

proof fn lemma_recording(t: TaskView, run: RunView, i: int, said: Seq<Seq<char>>)
    requires
        0 <= i,
    ensures
        ({
            let r = recording(t, run, i, said);
            &&& r.filling.task == t
            &&& r.filling.run == run
            &&& acts_on_what_it_holds(r)
            &&& r.filling.stage is Recording || r.filling.stage is Finished
            &&& r.action is Record ==> r.filling.stage is Recording
            &&& !(r.action is Write)
            &&& r.filling.stage is Recording ==> run.pending.len() > 0
        }),
{
    if i < run.pending.len() {
        assert(run.pending[i] == (run.pending[i].0, run.pending[i].1));
        assert(run.pending.contains((run.pending[i].0, run.pending[i].1)));
    }
}

proof fn lemma_writing(t: TaskView, run: RunView, i: int, said: Seq<Seq<char>>)
    requires
        0 <= i,
    ensures
        ({
            let r = writing(t, run, i, said);
            &&& r.filling.task == t
            &&& r.filling.run == run
            &&& acts_on_what_it_holds(r)
            &&& r.filling.stage is Writing || r.filling.stage is Recording || r.filling.stage
                is Finished
            &&& r.action is Record ==> r.filling.stage is Recording
            &&& r.filling.stage is Recording ==> run.pending.len() > 0
        }),
{
    lemma_recording(t, run, 0, said);
    let r = writing(t, run, i, said);
    if r.action is Write {
        let w = r.filling.run.work[i];
        assert(w.file == r.action->Write_file && r.action->bytes == assembled(w));
    }
}

proof fn lemma_gating(t: TaskView, run: RunView, said: Seq<Seq<char>>)
    ensures
        ({
            let r = gating(t, run, said);
            &&& r.filling.task == t
            &&& r.filling.run == run
            &&& !changes_disk(r.action)
            &&& r.filling.stage is Gating || r.filling.stage is Finished
        }),
{
}

proof fn lemma_reasking(
    t: TaskView,
    run: RunView,
    blame: Seq<(Seq<char>, Seq<Seq<char>>)>,
    asks: Seq<(usize, usize)>,
    k: int,
    said: Seq<Seq<char>>,
)
    ensures
        ({
            let r = reasking(t, run, blame, asks, k, said);
            &&& r.filling.task == t
            &&& r.filling.run == run
            &&& !changes_disk(r.action)
            &&& is_in_tree(run.work, run.pending, asked_places(asks, k)) && (forall|i: int, j: int|
                0 <= i < j < asks.len() ==> #[trigger] asks[i] != #[trigger] asks[j])
                ==> pending_stands(r.filling)
        }),
{
    lemma_gating(t, run, said);
    if k >= asks.len() {
        assert(asked_places(asks, k) =~= Set::empty());
    }
}

proof fn lemma_concluding(t: TaskView, run: RunView, v: VerdictView, said: Seq<Seq<char>>)
    ensures
        ({
            let r = concluding(t, run, v, said);
            &&& r.filling.task == t
            &&& r.filling.run == concluded(run, v)
            &&& acts_on_what_it_holds(r)
            &&& changes_disk(r.action) ==> v is Accepted
            &&& is_in_tree(run.work, run.pending, Set::empty()) ==> pending_stands(r.filling)
        }),
{
    lemma_writing(t, concluded(run, v), 0, said);
}

proof fn lemma_gated(t: TaskView, run: RunView, v: VerdictView)
    ensures
        ({
            let r = gated(t, run, v);
            &&& r.filling.task == t
            &&& acts_on_what_it_holds(r)
            &&& changes_disk(r.action) ==> v is Accepted
            &&& v is Accepted ==> r.filling.run == run
            &&& run.rounds <= MAX_GATE_ROUNDS ==> r.filling.run.rounds <= MAX_GATE_ROUNDS
            &&& is_bounded(run.work) && is_in_tree(run.work, run.pending, Set::empty())
                ==> pending_stands(r.filling)
        }),
{
    let blamed = blame_of(verdict_failures(v, true));
    let said = if v is Rejected && run.rounds == 0 {
        pre_existing_messages(v)
    } else {
        seq![]
    };
    lemma_concluding(t, run, v, said);
    lemma_concluding(t, run, v, said.push(giving_up_text(blamed.len())));
    let asks = asks_in(run.work, blamed, run.work.len() as int);
    lemma_reasking(t, round_begun(run, blamed), blamed, asks, 0, said);
    if is_bounded(run.work) && is_in_tree(run.work, run.pending, Set::empty()) {
        lemma_round_is_in_tree(run, blamed);
        lemma_asks_are_blamed(run.work, blamed, run.work.len() as int);
    }
}

proof fn lemma_all_looked_at(t: TaskView, run: RunView, said: Seq<Seq<char>>)
    ensures
        ({
            let r = all_looked_at(t, run, said);
            &&& r.filling.task == t
            &&& r.filling.run.rounds == run.rounds
            &&& acts_on_what_it_holds(r)
            &&& changes_disk(r.action) ==> t.ungated
            &&& t.ungated ==> !(r.action is Record)
            &&& keeps_off_the_ledger(r.filling)
            &&& is_in_tree(run.work, run.pending, Set::empty()) ==> pending_stands(r.filling)
        }),
{
    lemma_writing(t, with_nothing_pending(run), 0, said.push(ungated_text()));
    lemma_gating(t, run, said);
}

proof fn lemma_looking(
    t: TaskView,
    recorded: Map<Seq<char>, Seq<char>>,
    run: RunView,
    item: WorkView,
    file: int,
    at: int,
    said: Seq<Seq<char>>,
)
    ensures
        ({
            let r = looking(t, recorded, run, item, file, at, said);
            &&& r.filling.task == t
            &&& r.filling.run.rounds == run.rounds
            &&& acts_on_what_it_holds(r)
            &&& changes_disk(r.action) ==> t.ungated
            &&& t.ungated ==> !(r.action is Record)
            &&& keeps_off_the_ledger(r.filling)
            &&& is_in_tree(run.work.push(item), run.pending, Set::empty()) ==> pending_stands(
                r.filling,
            )
        }),
    decreases t.files[file].1.len() - at,
{
    let holes = t.files[file].1;
    if at >= holes.len() {
        lemma_all_looked_at(t, with_file(run, item), said);
    } else {
        let result = match planned(holes[at], recorded) {
            PlanView::Replay(code) => ResultView::Cached(code),
            _ => ResultView::Skipped,
        };
        if is_in_tree(run.work.push(item), run.pending, Set::empty()) {
            lemma_counted_is_in_tree(run, item, holes[at], result);
        }
        if !(planned(holes[at], recorded) is Ask) {
            lemma_looking(
                t,
                recorded,
                counted(run, holes[at], result),
                answered(item, holes[at], result),
                file,
                at + 1,
                said,
            );
        }
    }
}

proof fn lemma_empty_file_keeps_tree(
    work: Seq<WorkView>,
    item: WorkView,
    pending: Seq<(Seq<char>, Seq<char>)>,
)
    requires
        is_in_tree(work, pending, Set::empty()),
    ensures
        is_in_tree(work.push(item), pending, Set::empty()),
{
    assert forall|i: int| 0 <= i < pending.len() implies stands_somewhere(
        work.push(item),
        #[trigger] pending[i],
        Set::empty(),
    ) by {
        let place = choose|place: (int, int)|
            #[trigger] stands_at(work, pending[i].0, pending[i].1, place);
        assert(stands_at(work.push(item), pending[i].0, pending[i].1, place));
    }
}

/// What follows a step by step look at [`next_step`].
proof fn lemma_next_step(
    m: FillingView,
    recorded: Map<Seq<char>, Seq<char>>,
    event: EventView,
)
    requires
        is_under_way(m),
    ensures
        ({
            let r = next_step(m, recorded, event);
            &&& r.filling.task == m.task
            &&& acts_on_what_it_holds(r)
            &&& changes_disk(r.action) ==> m.task.ungated || m.stage is Writing || m.stage
                is Recording || (m.stage is Gating && event == EventView::Gated(
                VerdictView::Accepted,
            ))
            &&& m.run.rounds <= MAX_GATE_ROUNDS ==> r.filling.run.rounds <= MAX_GATE_ROUNDS
            &&& m.stage is Writing || m.stage is Recording || (m.stage is Gating && event
                == EventView::Gated(VerdictView::Accepted)) ==> r.filling.run == m.run
            &&& keeps_off_the_ledger(m) ==> keeps_off_the_ledger(r.filling) && (m.task.ungated
                ==> !(r.action is Record))
            &&& pending_stands(m) && is_bounded(m.run.work) ==> pending_stands(r.filling)
        }),
{
    match (m.stage, event) {
        (StageView::Reading { file }, EventView::Text(text)) => {
            let item = WorkView { file: m.task.files[file].0, original: text, answers: seq![] };
            if pending_stands(m) {
                lemma_empty_file_keeps_tree(m.run.work, item, m.run.pending);
            }
            lemma_looking(m.task, recorded, m.run, item, file, 0, seq![]);
        },
        (StageView::Asking { item, file, at }, EventView::Answered(reply)) => {
            let hole = m.task.files[file].1[at];
            let result = asked_result(reply);
            if pending_stands(m) {
                lemma_counted_is_in_tree(m.run, item, hole, result);
            }
            lemma_looking(
                m.task,
                recorded,
                counted(m.run, hole, result),
                answered(item, hole, result),
                file,
                at + 1,
                match reply {
                    Ok(_) => seq![],
                    Err(e) => seq![skipped_text(hole, e)],
                },
            );
        },
        (StageView::Gating, EventView::Gated(v)) => {
            lemma_gated(m.task, m.run, v);
        },
        (StageView::Reasking { blame, asks, next }, EventView::Answered(reply)) => {
            let (file, at) = (asks[next].0 as int, asks[next].1 as int);
            if pending_stands(m) {
                assert forall|i: int| next < i < asks.len() implies #[trigger] asks[i]
                    != asks[next] by {}
                lemma_reanswered_is_in_tree(m.run, asks, next, reply);
            }
            lemma_reasking(
                m.task,
                reanswered(m.run, file, at, reply),
                blame,
                asks,
                next + 1,
                match reply {
                    Ok(_) => seq![],
                    Err(e) => seq![still_open_text(m.run.work[file].answers[at].0, e)],
                },
            );
        },
        (StageView::Writing { next }, EventView::Written) => {
            lemma_writing(m.task, m.run, next + 1, seq![]);
        },
        (StageView::Recording { next }, EventView::Recorded) => {
            lemma_recording(m.task, m.run, next + 1, seq![]);
        },
        _ => {},
    }
}

/// Nothing is written or recorded until the generated tree has compiled: the disk
/// is changed only after the compile gate accepted, or when it was switched off.
pub proof fn lemma_nothing_is_written_before_it_compiled(
    m: FillingView,
    recorded: Map<Seq<char>, Seq<char>>,
    event: EventView,
)
    requires
        is_under_way(m),
        changes_disk(next_step(m, recorded, event).action),
    ensures
        ({
            ||| m.task.ungated
            ||| m.stage is Gating && event == EventView::Gated(VerdictView::Accepted)
            ||| m.stage is Writing
            ||| m.stage is Recording
        }),
{
    lemma_next_step(m, recorded, event);
}

/// What is written and recorded is what the compile gate accepted: from its
/// verdict on, neither the tree nor what is pending changes, and each file is
/// written with what its answers come to.
pub proof fn lemma_accepted_tree_is_written(
    m: FillingView,
    recorded: Map<Seq<char>, Seq<char>>,
    event: EventView,
)
    requires
        is_under_way(m),
        m.stage is Writing || m.stage is Recording || (m.stage is Gating && event
            == EventView::Gated(VerdictView::Accepted)),
    ensures
        next_step(m, recorded, event).filling.run == m.run,
        acts_on_what_it_holds(next_step(m, recorded, event)),
{
    lemma_next_step(m, recorded, event);
}

/// The ledger's one guarantee is that every entry is code the compile gate
/// accepted, so a run with `--no-verify` records nothing: it starts off the
/// ledger, every step keeps it there, and no step from there records.
pub proof fn lemma_ungated_records_nothing(
    m: FillingView,
    recorded: Map<Seq<char>, Seq<char>>,
    event: EventView,
)
    requires
        is_under_way(m),
        keeps_off_the_ledger(m),
    ensures
        keeps_off_the_ledger(first_step(m.task).filling),
        keeps_off_the_ledger(next_step(m, recorded, event).filling),
        m.task.ungated ==> !(next_step(m, recorded, event).action is Record),
{
    lemma_next_step(m, recorded, event);
    lemma_all_looked_at(m.task, fresh_run(), seq![]);
}

/// Nothing in the ledger is code that was never compiled: throughout a run, every
/// answer that may be recorded stands in the tree that goes to the compile gate,
/// and a step that records an answer does so with that answer in the tree.
pub proof fn lemma_recorded_answers_were_compiled(
    m: FillingView,
    recorded: Map<Seq<char>, Seq<char>>,
    event: EventView,
)
    requires
        is_under_way(m),
        is_bounded(m.run.work),
        pending_stands(m),
    ensures
        pending_stands(first_step(m.task).filling),
        pending_stands(next_step(m, recorded, event).filling),
        next_step(m, recorded, event).action matches ActionView::Record { key, code }
            ==> stands_somewhere(
            next_step(m, recorded, event).filling.run.work,
            (key, code),
            Set::empty(),
        ),
{
    lemma_next_step(m, recorded, event);
    lemma_all_looked_at(m.task, fresh_run(), seq![]);
    let r = next_step(m, recorded, event);
    if let ActionView::Record { key, code } = r.action {
        let i = choose|i: int|
            0 <= i < r.filling.run.pending.len() && r.filling.run.pending[i] == (key, code);
        assert(stands_somewhere(r.filling.run.work, r.filling.run.pending[i], Set::empty()));
    }
}

/// An answer is recorded only once every file is written: the ledger never claims
/// that code exists which does not.
pub proof fn lemma_files_are_written_first(
    m: FillingView,
    recorded: Map<Seq<char>, Seq<char>>,
    event: EventView,
)
    requires
        is_under_way(m),
        next_step(m, recorded, event).action is Record,
    ensures
        ({
            ||| m.stage is Recording
            ||| m.stage == (StageView::Writing { next: m.run.work.len() - 1 }) && event
                == EventView::Written
            ||| m.run.work.len() == 0 && m.stage is Gating
        }),
{
    match (m.stage, event) {
        (StageView::Reading { file }, EventView::Text(text)) => {
            let item = WorkView { file: m.task.files[file].0, original: text, answers: seq![] };
            lemma_looking(m.task, recorded, m.run, item, file, 0, seq![]);
        },
        (StageView::Asking { item, file, at }, EventView::Answered(reply)) => {
            let hole = m.task.files[file].1[at];
            let result = asked_result(reply);
            lemma_looking(
                m.task,
                recorded,
                counted(m.run, hole, result),
                answered(item, hole, result),
                file,
                at + 1,
                match reply {
                    Ok(_) => seq![],
                    Err(e) => seq![skipped_text(hole, e)],
                },
            );
        },
        _ => {},
    }
}

/// A run never changes what it is to do, and it never asks again more often than
/// allowed, so a hole the model cannot get right ends the run.
pub proof fn lemma_rounds_are_bounded(
    m: FillingView,
    recorded: Map<Seq<char>, Seq<char>>,
    event: EventView,
)
    requires
        is_under_way(m),
        m.run.rounds <= MAX_GATE_ROUNDS,
    ensures
        next_step(m, recorded, event).filling.task == m.task,
        next_step(m, recorded, event).filling.run.rounds <= MAX_GATE_ROUNDS,
{
    lemma_next_step(m, recorded, event);
}

/// Whether a file has an answer only for holes that may be filled.
pub open spec fn answers_are_allowed(w: WorkView) -> bool {
    forall|a: int|
        0 <= a < w.answers.len() && !is_fillable((#[trigger] w.answers[a]).0)
            ==> w.answers[a].1 is None
}

/// Whether a run has an answer only for holes that may be filled, and is not
/// waiting for any other.
pub open spec fn keeps_hands_off(m: FillingView) -> bool {
    &&& forall|f: int| 0 <= f < m.run.work.len() ==> answers_are_allowed(#[trigger] m.run.work[f])
    &&& match m.stage {
        StageView::Asking { item, file, at } => answers_are_allowed(item) && is_fillable(
            m.task.files[file].1[at],
        ),
        StageView::Reasking { asks, .. } => forall|i: int|
            0 <= i < asks.len() ==> ({
                let p = #[trigger] asks[i];
                is_fillable(m.run.work[p.0 as int].answers[p.1 as int].0)
            }),
        _ => true,
    }
}

/// Whether an action asks the model only for a hole that may be filled.
pub open spec fn asks_what_it_may(a: ActionView) -> bool {
    match a {
        ActionView::Ask { hole } => is_fillable(hole),
        ActionView::Reask { hole, .. } => is_fillable(hole),
        _ => true,
    }
}

proof fn lemma_looking_keeps_hands_off(
    t: TaskView,
    recorded: Map<Seq<char>, Seq<char>>,
    run: RunView,
    item: WorkView,
    file: int,
    at: int,
    said: Seq<Seq<char>>,
)
    requires
        answers_are_allowed(item),
        forall|f: int| 0 <= f < run.work.len() ==> answers_are_allowed(#[trigger] run.work[f]),
    ensures
        keeps_hands_off(looking(t, recorded, run, item, file, at, said).filling),
        asks_what_it_may(looking(t, recorded, run, item, file, at, said).action),
    decreases t.files[file].1.len() - at,
{
    let holes = t.files[file].1;
    if at >= holes.len() {
        let all = with_file(run, item);
        assert forall|f: int| 0 <= f < all.work.len() implies answers_are_allowed(
            #[trigger] all.work[f],
        ) by {
            if f < run.work.len() {
                assert(all.work[f] == run.work[f]);
            }
        }
        lemma_all_looked_at(t, all, said);
    } else if !(planned(holes[at], recorded) is Ask) {
        let result = match planned(holes[at], recorded) {
            PlanView::Replay(code) => ResultView::Cached(code),
            _ => ResultView::Skipped,
        };
        lemma_looking_keeps_hands_off(
            t,
            recorded,
            counted(run, holes[at], result),
            answered(item, holes[at], result),
            file,
            at + 1,
            said,
        );
    }
}

proof fn lemma_gated_keeps_hands_off(t: TaskView, run: RunView, v: VerdictView)
    requires
        is_bounded(run.work),
        forall|f: int| 0 <= f < run.work.len() ==> answers_are_allowed(#[trigger] run.work[f]),
    ensures
        keeps_hands_off(gated(t, run, v).filling),
        asks_what_it_may(gated(t, run, v).action),
{
    let blamed = blame_of(verdict_failures(v, true));
    lemma_asks_are_blamed(run.work, blamed, run.work.len() as int);
}

proof fn lemma_reanswered_keeps_hands_off(
    m: FillingView,
    recorded: Map<Seq<char>, Seq<char>>,
    reply: Result<(Seq<char>, u32), Seq<char>>,
)
    requires
        is_under_way(m),
        m.stage is Reasking,
        keeps_hands_off(m),
    ensures
        keeps_hands_off(next_step(m, recorded, EventView::Answered(reply)).filling),
        asks_what_it_may(next_step(m, recorded, EventView::Answered(reply)).action),
{
    if let StageView::Reasking { blame, asks, next } = m.stage {
        let (file, at) = (asks[next].0 as int, asks[next].1 as int);
        let after = reanswered(m.run, file, at, reply);
        assert(is_fillable(m.run.work[file].answers[at].0));
        assert forall|f: int| 0 <= f < after.work.len() implies answers_are_allowed(
            #[trigger] after.work[f],
        ) by {
            assert(answers_are_allowed(m.run.work[f]));
            let (new, old_one) = (after.work[f], m.run.work[f]);
            assert forall|a: int|
                0 <= a < new.answers.len() && !is_fillable((#[trigger] new.answers[a]).0) implies
                new.answers[a].1 is None by {
                if f != file || a != at {
                    assert(new.answers[a] == old_one.answers[a]);
                }
            }
        }
        assert forall|i: int| 0 <= i < asks.len() implies ({
            let p = #[trigger] asks[i];
            is_fillable(after.work[p.0 as int].answers[p.1 as int].0)
        }) by {
            let p = asks[i];
            assert(is_fillable(m.run.work[p.0 as int].answers[p.1 as int].0));
        }
    }
}

/// A pinned or unresolvable hole keeps its text through a whole run: it never gets
/// an answer, not from the ledger, not from the model, not after a rejection, and
/// the model is never asked for it. A run starts so, and every step keeps it so.
/// (That a hole without an answer keeps its text is
/// [`crate::fill::lemma_unanswered_hole_keeps_its_text`].)
pub proof fn lemma_unfillable_holes_are_left_alone(
    m: FillingView,
    recorded: Map<Seq<char>, Seq<char>>,
    event: EventView,
)
    requires
        is_under_way(m),
        is_bounded(m.run.work),
        keeps_hands_off(m),
    ensures
        keeps_hands_off(first_step(m.task).filling),
        keeps_hands_off(next_step(m, recorded, event).filling),
        asks_what_it_may(next_step(m, recorded, event).action),
{
    match (m.stage, event) {
        (StageView::Reading { file }, EventView::Text(text)) => {
            let item = WorkView { file: m.task.files[file].0, original: text, answers: seq![] };
            lemma_looking_keeps_hands_off(m.task, recorded, m.run, item, file, 0, seq![]);
        },
        (StageView::Asking { item, file, at }, EventView::Answered(reply)) => {
            let hole = m.task.files[file].1[at];
            let result = asked_result(reply);
            lemma_looking_keeps_hands_off(
                m.task,
                recorded,
                counted(m.run, hole, result),
                answered(item, hole, result),
                file,
                at + 1,
                match reply {
                    Ok(_) => seq![],
                    Err(e) => seq![skipped_text(hole, e)],
                },
            );
        },
        (StageView::Gating, EventView::Gated(v)) => {
            lemma_gated_keeps_hands_off(m.task, m.run, v);
        },
        (StageView::Reasking { .. }, EventView::Answered(reply)) => {
            lemma_reanswered_keeps_hands_off(m, recorded, reply);
        },
        _ => {},
    }
}

/// Whether the ledger has an answer for every hole of a task that may be filled.
pub open spec fn is_answered(t: TaskView, recorded: Map<Seq<char>, Seq<char>>) -> bool {
    forall|f: int, a: int|
        0 <= f < t.files.len() && 0 <= a < t.files[f].1.len() ==> !(planned(
            #[trigger] t.files[f].1[a],
            recorded,
        ) is Ask)
}

proof fn lemma_looking_asks_nothing(
    t: TaskView,
    recorded: Map<Seq<char>, Seq<char>>,
    run: RunView,
    item: WorkView,
    file: int,
    at: int,
    said: Seq<Seq<char>>,
)
    requires
        is_answered(t, recorded),
        0 <= file < t.files.len(),
        0 <= at,
    ensures
        ({
            let r = looking(t, recorded, run, item, file, at, said);
            !(r.action is Ask) && !(r.filling.stage is Asking) && r.filling.run.model_calls
                == run.model_calls
        }),
    decreases t.files[file].1.len() - at,
{
    let holes = t.files[file].1;
    if at >= holes.len() {
    } else {
        assert(!(planned(t.files[file].1[at], recorded) is Ask));
        let result = match planned(holes[at], recorded) {
            PlanView::Replay(code) => ResultView::Cached(code),
            _ => ResultView::Skipped,
        };
        lemma_looking_asks_nothing(
            t,
            recorded,
            counted(run, holes[at], result),
            answered(item, holes[at], result),
            file,
            at + 1,
            said,
        );
    }
}

/// A second run over an unchanged crate costs nothing: once every hole has its
/// answer in the ledger, the model is not asked for any of them.
pub proof fn lemma_recorded_answers_cost_nothing(
    m: FillingView,
    recorded: Map<Seq<char>, Seq<char>>,
    text: Seq<char>,
)
    requires
        is_under_way(m),
        m.stage is Reading,
        is_answered(m.task, recorded),
    ensures
        ({
            let r = next_step(m, recorded, EventView::Text(text));
            !(r.action is Ask) && !(r.filling.stage is Asking) && r.filling.run.model_calls
                == m.run.model_calls
        }),
{
    if let StageView::Reading { file } = m.stage {
        lemma_looking_asks_nothing(
            m.task,
            recorded,
            m.run,
            WorkView { file: m.task.files[file].0, original: text, answers: seq![] },
            file,
            0,
            seq![],
        );
    }
}

} // verus!
