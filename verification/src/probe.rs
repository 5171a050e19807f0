//! Probing holes: patch, check, put back, decide.
//!
//! Probing rewrites a source file in place, which is the only reason this module
//! needs any care at all. Three guards cover it:
//!
//! - [`RestoreGuard`] knows the original bytes until they are back.
//! - A `<file>.cargo-hole.bak` backup on disk, so a hard kill (`SIGKILL`, power
//!   loss) is recoverable afterwards.
//! - A cross-process advisory lock in the crate root, so two runs cannot restore
//!   each other's bytes mid-flight and produce nonsense diagnostics.
use vstd::prelude::*;
use vstd::utf8::encode_utf8;

use crate::blame::{
    as_list, assign_diagnostics, assignment, attributable_of, candidates_of, decide, decided,
    interpret, opt_outcome, Isolation,
};
use crate::cargo_check::{check_error, read_check, Output, ProberOptions};
use crate::diagnostics::{diagnostic_views, diagnostics_of, lossy_text};
use crate::groups::{
    lemma_member_count_grows, lemma_member_counts_agree, member_count, FileGroup,
};
use crate::hole::Hole;
use crate::order::order_of;
use crate::patching::{
    backup_path, backup_path_of, patch_error, patched_source, patched_source_many, settle_without_check,
    settled_without_check, span_error, unit_edits, unit_patched,
};
use crate::prober::{referents, CheckRun, OutcomeView, PathTable, ProbeOutcome};
use crate::splice::{anchor, edit_keys, left_to_right, spliced};
use crate::text::{lines_of, owned};

verus! {

// ---------------------------------------------------------------------------
// Restoring the file
// ---------------------------------------------------------------------------

/// Something to do to a file.
#[derive(Debug)]
pub enum DiskStep {
    /// Replace the file's bytes.
    Write { path: String, bytes: Vec<u8> },
    /// Remove the file; that it is gone already is no failure.
    Remove { path: String },
}

/// The bytes of a patched file, until they are put back or the patch is kept.
#[derive(Debug)]
pub struct RestoreGuard {
    pub path: String,
    pub backup: String,
    pub original: Vec<u8>,
    pub armed: bool,
}

/// Whether a step replaces a file's bytes by these.
pub open spec fn writes(step: DiskStep, path: Seq<char>, bytes: Seq<u8>) -> bool {
    match step {
        DiskStep::Write { path: p, bytes: b } => p@ == path && b@ == bytes,
        _ => false,
    }
}

/// Whether a step removes a file.
pub open spec fn removes(step: DiskStep, path: Seq<char>) -> bool {
    match step {
        DiskStep::Remove { path: p } => p@ == path,
        _ => false,
    }
}

/// The files after a step.
pub open spec fn after_step(disk: Map<Seq<char>, Seq<u8>>, step: DiskStep) -> Map<
    Seq<char>,
    Seq<u8>,
> {
    match step {
        DiskStep::Write { path, bytes } => disk.insert(path@, bytes@),
        DiskStep::Remove { path } => disk.remove(path@),
    }
}

/// The files after the first `n` steps.
pub open spec fn after_steps(disk: Map<Seq<char>, Seq<u8>>, steps: Seq<DiskStep>, n: int) -> Map<
    Seq<char>,
    Seq<u8>,
>
    decreases n,
{
    if n <= 0 {
        disk
    } else {
        after_step(after_steps(disk, steps, n - 1), steps[n - 1])
    }
}

/// Whether the original bytes are still somewhere: in the file or its backup.
pub open spec fn is_recoverable(
    disk: Map<Seq<char>, Seq<u8>>,
    path: Seq<char>,
    backup: Seq<char>,
    original: Seq<u8>,
) -> bool {
    disk.contains_pair(path, original) || disk.contains_pair(backup, original)
}

fn copy_bytes(bytes: &Vec<u8>) -> (r: Vec<u8>)
    ensures
        r@ == bytes@,
{
    let mut out: Vec<u8> = Vec::new();
    let mut i: usize = 0;
    while i < bytes.len()
        invariant
            i <= bytes@.len(),
            out@ == bytes@.take(i as int),
        decreases bytes.len() - i,
    {
        out.push(bytes[i]);
        proof {
            assert(bytes@.take(i + 1) =~= bytes@.take(i as int).push(bytes@[i as int]));
        }
        i = i + 1;
    }
    proof {
        assert(bytes@.take(bytes@.len() as int) =~= bytes@);
    }
    out
}

fn text_bytes(text: &str) -> (r: Vec<u8>)
    ensures
        r@ == encode_utf8(text@),
{
    let b = text.as_bytes();
    let mut out: Vec<u8> = Vec::new();
    let mut i: usize = 0;
    while i < b.len()
        invariant
            i <= b@.len(),
            out@ == b@.take(i as int),
        decreases b.len() - i,
    {
        out.push(b[i]);
        proof {
            assert(b@.take(i + 1) =~= b@.take(i as int).push(b@[i as int]));
        }
        i = i + 1;
    }
    proof {
        assert(b@.take(b@.len() as int) =~= b@);
    }
    out
}

impl RestoreGuard {
    /// A guard for a file that is about to be patched.
    pub fn new(path: &str, original: Vec<u8>) -> (r: RestoreGuard)
        ensures
            r.path@ == path@,
            r.backup@ == backup_path_of(path@),
            r.original == original,
            r.armed,
    {
        RestoreGuard { path: owned(path), backup: backup_path(path), original, armed: true }
    }

    /// How to put `patched` in place.
    ///
    /// The backup is written first, so even a kill between the two writes leaves
    /// a recoverable backup rather than a patched file with no original.
    pub fn patch_steps(&self, patched: &str) -> (r: Vec<DiskStep>)
        ensures
            r@.len() == 2,
            writes(r@[0], self.backup@, self.original@),
            writes(r@[1], self.path@, encode_utf8(patched@)),
    {
        let mut steps: Vec<DiskStep> = Vec::new();
        steps.push(
            DiskStep::Write { path: self.backup.clone(), bytes: copy_bytes(&self.original) },
        );
        steps.push(DiskStep::Write { path: self.path.clone(), bytes: text_bytes(patched) });
        steps
    }

    /// Accept the patch: keep the new bytes, and drop the backup. A guard acts
    /// once.
    pub fn keep(&mut self) -> (r: Vec<DiskStep>)
        ensures
            !final(self).armed,
            final(self).path == old(self).path,
            final(self).backup == old(self).backup,
            final(self).original == old(self).original,
            !old(self).armed ==> r@.len() == 0,
            old(self).armed ==> r@.len() == 1 && removes(r@[0], old(self).backup@),
    {
        let mut steps: Vec<DiskStep> = Vec::new();
        if !self.armed {
            return steps;
        }
        self.armed = false;
        steps.push(DiskStep::Remove { path: self.backup.clone() });
        steps
    }

    /// Put the original bytes back, and remove the backup. A guard acts once.
    pub fn restore(&mut self) -> (r: Vec<DiskStep>)
        ensures
            !final(self).armed,
            final(self).path == old(self).path,
            final(self).backup == old(self).backup,
            final(self).original == old(self).original,
            !old(self).armed ==> r@.len() == 0,
            old(self).armed ==> r@.len() == 2 && writes(
                r@[0],
                old(self).path@,
                old(self).original@,
            ) && removes(r@[1], old(self).backup@),
    {
        let mut steps: Vec<DiskStep> = Vec::new();
        if !self.armed {
            return steps;
        }
        self.armed = false;
        steps.push(DiskStep::Write { path: self.path.clone(), bytes: copy_bytes(&self.original) });
        steps.push(DiskStep::Remove { path: self.backup.clone() });
        steps
    }
}

/// A hard kill is always recoverable: at every point between patching a file and
/// putting it back, the original bytes are in the file or in its backup. And
/// after the last step the file is as it was, with no backup left.
pub proof fn lemma_original_is_never_lost(
    disk: Map<Seq<char>, Seq<u8>>,
    path: Seq<char>,
    backup: Seq<char>,
    original: Seq<u8>,
    patched: Seq<u8>,
    steps: Seq<DiskStep>,
    n: int,
)
    requires
        path != backup,
        disk.contains_pair(path, original),
        steps.len() == 4,
        0 <= n <= 4,
        writes(steps[0], backup, original),
        writes(steps[1], path, patched),
        writes(steps[2], path, original),
        removes(steps[3], backup),
    ensures
        is_recoverable(after_steps(disk, steps, n), path, backup, original),
        after_steps(disk, steps, 4).contains_pair(path, original),
        !after_steps(disk, steps, 4).contains_key(backup),
{
    reveal_with_fuel(after_steps, 5);
}

// ---------------------------------------------------------------------------
// One hole
// ---------------------------------------------------------------------------

/// Asks rustc for the expected type of a hole.
#[derive(Debug)]
pub struct Prober {
    pub root: String,
    pub options: ProberOptions,
}

/// How far one probe has come.
#[derive(Debug)]
pub enum ProbeStage {
    Locking,
    Reading,
    /// The file was read; finding out whether it can be written.
    Testing { src: String },
    /// Putting the patched text in place.
    Patching,
    Checking,
    /// The check is over; putting the file back.
    Restoring { outcome: Result<CheckRun, String> },
    Finished,
}

/// What a probe wants done next.
#[derive(Debug)]
pub enum ProbeAction {
    /// Take the probe lock.
    Lock,
    /// Read the file.
    Read,
    /// Find out whether the file can be written.
    TestWritable,
    /// Replace the file by this text, with a backup.
    Patch(String),
    Check,
    /// Put the original back.
    Restore,
    /// Release the lock and report.
    Report(ProbeOutcome),
}

/// What came of it.
#[derive(Debug)]
pub enum ProbeEvent {
    Locked,
    LockFailed(String),
    ReadText(String),
    ReadNotUtf8,
    ReadFailed(String),
    Writable,
    NotWritable,
    Patched,
    PatchFailed(String),
    Checked(CheckRun),
    CheckFailed(String),
    Restored,
    RestoreFailed(String),
}

/// Whether an event answers what was asked for at a stage.
pub open spec fn probe_event_answers(stage: ProbeStage, event: ProbeEvent) -> bool {
    match stage {
        ProbeStage::Locking => event is Locked || event is LockFailed,
        ProbeStage::Reading => event is ReadText || event is ReadNotUtf8 || event is ReadFailed,
        ProbeStage::Testing { .. } => event is Writable || event is NotWritable,
        ProbeStage::Patching => event is Patched || event is PatchFailed,
        ProbeStage::Checking => event is Checked || event is CheckFailed,
        ProbeStage::Restoring { .. } => event is Restored || event is RestoreFailed,
        ProbeStage::Finished => false,
    }
}

/// Whether a probe has ended with an outcome.
pub open spec fn reports(stage: ProbeStage, action: ProbeAction, outcome: OutcomeView) -> bool {
    stage is Finished && action is Report && action->Report_0@ == outcome
}

/// Whether a probe goes on as it should.
pub open spec fn probe_goes_on(
    table: PathTable,
    root: Seq<char>,
    hole: Hole,
    stage: ProbeStage,
    event: ProbeEvent,
    after: ProbeStage,
    action: ProbeAction,
) -> bool {
    let file = hole.file@;
    match (stage, event) {
        (ProbeStage::Locking, ProbeEvent::Locked) => after is Reading && action is Read,
        (ProbeStage::Locking, ProbeEvent::LockFailed(e)) => reports(
            after,
            action,
            OutcomeView::Broken(e@),
        ),
        (ProbeStage::Reading, ProbeEvent::ReadText(src)) => after == (ProbeStage::Testing { src })
            && action is TestWritable,
        (ProbeStage::Reading, ProbeEvent::ReadNotUtf8) => reports(
            after,
            action,
            OutcomeView::ProbeFailed(file + " is not valid UTF-8, so it cannot be patched"@),
        ),
        (ProbeStage::Reading, ProbeEvent::ReadFailed(e)) => reports(
            after,
            action,
            OutcomeView::Broken("cannot read "@ + file + ": "@ + e@),
        ),
        (ProbeStage::Testing { .. }, ProbeEvent::NotWritable) => reports(
            after,
            action,
            OutcomeView::ProbeFailed(
                file + " is not writable, and probing needs to patch it in place"@,
            ),
        ),
        (ProbeStage::Testing { src }, ProbeEvent::Writable) => match span_error(src@, hole@) {
            Some(why) => reports(after, action, OutcomeView::ProbeFailed(why)),
            None => after is Patching && action is Patch && encode_utf8(action->Patch_0@)
                == unit_patched(src@, hole),
        },
        (ProbeStage::Patching, ProbeEvent::Patched) => after is Checking && action is Check,
        (ProbeStage::Patching, ProbeEvent::PatchFailed(e)) => reports(
            after,
            action,
            OutcomeView::Broken(e@),
        ),
        (ProbeStage::Checking, ProbeEvent::Checked(run)) => after == (ProbeStage::Restoring {
            outcome: Ok(run),
        }) && action is Restore,
        (ProbeStage::Checking, ProbeEvent::CheckFailed(e)) => after == (ProbeStage::Restoring {
            outcome: Err(e),
        }) && action is Restore,
        (ProbeStage::Restoring { .. }, ProbeEvent::RestoreFailed(e)) => reports(
            after,
            action,
            OutcomeView::Broken(e@),
        ),
        (ProbeStage::Restoring { outcome: Err(e) }, _) => reports(
            after,
            action,
            OutcomeView::Broken(e@),
        ),
        (ProbeStage::Restoring { outcome: Ok(run) }, _) => after is Finished && action is Report
            && Some(action->Report_0@) == decided(
            table,
            root,
            hole@,
            run,
            attributable_of(table, root, run.diagnostics@, hole@),
            Isolation::Single,
        ),
        _ => false,
    }
}

/// Whether the file holds the patched text at a stage.
pub open spec fn probe_holds_patch(stage: ProbeStage) -> bool {
    stage is Checking || stage is Restoring
}

/// A probe never leaves the file modified: while it holds the patched text, the
/// only thing asked for is the check and putting it back, and an outcome is
/// reported only once it was to be put back. A file that could not be patched
/// was never changed.
pub proof fn lemma_probe_puts_file_back(
    table: PathTable,
    root: Seq<char>,
    hole: Hole,
    stage: ProbeStage,
    event: ProbeEvent,
    after: ProbeStage,
    action: ProbeAction,
)
    requires
        probe_event_answers(stage, event),
        probe_goes_on(table, root, hole, stage, event, after, action),
    ensures
        probe_holds_patch(stage) ==> action is Restore || event is Restored
            || event is RestoreFailed,
        action is Report ==> !probe_holds_patch(after),
        action is Restore ==> probe_holds_patch(after),
        event is Patched ==> action is Check,
{
}

fn report(outcome: ProbeOutcome) -> (r: (ProbeStage, ProbeAction))
    ensures
        reports(r.0, r.1, outcome@),
{
    (ProbeStage::Finished, ProbeAction::Report(outcome))
}

fn about_file(file: &str, what: &str) -> (r: String)
    ensures
        r@ == file@ + what@,
{
    let mut m = owned(file);
    m.push_str(what);
    m
}

impl Prober {
    /// A prober for the crate at `root`.
    pub fn new(root: &str, options: ProberOptions) -> (r: Prober)
        ensures
            r.root@ == root@,
            r.options == options,
    {
        Prober { root: owned(root), options }
    }

    /// The root of the crate.
    pub fn root(&self) -> (r: &str)
        ensures
            r@ == self.root@,
    {
        self.root.as_str()
    }

    /// How long to wait for another process's probe lock, in seconds.
    pub fn lock_wait(&self) -> (r: u64)
        ensures
            r == self.options.lock_wait,
    {
        self.options.lock_wait
    }

    /// What the output of `cargo check` comes to.
    ///
    /// Shared with the compile gate, so that the two read the same invocation --
    /// the same cargo binary, timeout, `--offline`, target directory and
    /// `CARGO_HOME` -- the same way.
    pub fn check(&self, out: &Output) -> (r: Result<CheckRun, String>)
        ensures
            match r {
                Ok(run) => check_error(self.options, self.root@, *out) is None && diagnostic_views(
                    run.diagnostics@,
                ) == diagnostics_of(lines_of(lossy_text(out.stdout@))) && run.stderr@
                    == lossy_text(out.stderr@),
                Err(m) => check_error(self.options, self.root@, *out) == Some(m@),
            },
    {
        read_check(&self.options, self.root.as_str(), out)
    }

    /// Begin to ask rustc what type `hole` must have. A statement needs no
    /// compiler at all, and an untrusted range is never patched.
    pub fn probe(&self, hole: &Hole) -> (r: (ProbeStage, ProbeAction))
        ensures
            match settled_without_check(hole@) {
                Some(outcome) => reports(r.0, r.1, outcome),
                None => r.0 is Locking && r.1 is Lock,
            },
    {
        match settle_without_check(hole) {
            Some(outcome) => report(outcome),
            None => (ProbeStage::Locking, ProbeAction::Lock),
        }
    }

    /// Go on with a probe. The lock must outlive the patch, so it is taken first
    /// and released last; and the file is put back before the outcome is worked
    /// out.
    pub fn probe_step(&self, table: &PathTable, hole: &Hole, stage: ProbeStage, event: ProbeEvent) -> (
    r: (ProbeStage, ProbeAction))
        requires
            probe_event_answers(stage, event),
        ensures
            probe_goes_on(*table, self.root@, *hole, stage, event, r.0, r.1),
    {
        match stage {
            ProbeStage::Locking => match event {
                ProbeEvent::LockFailed(e) => report(ProbeOutcome::Broken(e)),
                _ => (ProbeStage::Reading, ProbeAction::Read),
            },
            ProbeStage::Reading => match event {
                ProbeEvent::ReadText(src) => (
                    ProbeStage::Testing { src },
                    ProbeAction::TestWritable,
                ),
                ProbeEvent::ReadFailed(e) => {
                    let mut m = owned("cannot read ");
                    m.push_str(hole.file.as_str());
                    m.push_str(": ");
                    m.push_str(e.as_str());
                    report(ProbeOutcome::Broken(m))
                },
                _ => report(
                    ProbeOutcome::ProbeFailed(
                        about_file(
                            hole.file.as_str(),
                            " is not valid UTF-8, so it cannot be patched",
                        ),
                    ),
                ),
            },
            ProbeStage::Testing { src } => match event {
                ProbeEvent::Writable => match patched_source(src.as_str(), hole) {
                    Ok(text) => (ProbeStage::Patching, ProbeAction::Patch(text)),
                    Err(why) => report(ProbeOutcome::ProbeFailed(why)),
                },
                _ => report(
                    ProbeOutcome::ProbeFailed(
                        about_file(
                            hole.file.as_str(),
                            " is not writable, and probing needs to patch it in place",
                        ),
                    ),
                ),
            },
            ProbeStage::Patching => match event {
                ProbeEvent::PatchFailed(e) => report(ProbeOutcome::Broken(e)),
                _ => (ProbeStage::Checking, ProbeAction::Check),
            },
            ProbeStage::Checking => match event {
                ProbeEvent::Checked(run) => (
                    ProbeStage::Restoring { outcome: Ok(run) },
                    ProbeAction::Restore,
                ),
                ProbeEvent::CheckFailed(e) => (
                    ProbeStage::Restoring { outcome: Err(e) },
                    ProbeAction::Restore,
                ),
                _ => report(ProbeOutcome::NoExpectation),
            },
            ProbeStage::Restoring { outcome } => match event {
                ProbeEvent::RestoreFailed(e) => report(ProbeOutcome::Broken(e)),
                _ => match outcome {
                    Err(e) => report(ProbeOutcome::Broken(e)),
                    Ok(run) => report(interpret(hole, table, self.root.as_str(), &run)),
                },
            },
            ProbeStage::Finished => report(ProbeOutcome::NoExpectation),
        }
    }
}

// ---------------------------------------------------------------------------
// Many holes
// ---------------------------------------------------------------------------

/// The holes of a group.
pub open spec fn members_of<'a>(holes: Seq<Hole>, group: FileGroup) -> Seq<&'a Hole> {
    Seq::new(group.members@.len(), |k: int| &holes[group.members@[k] as int])
}

/// Whether a group's members are holes of the list.
pub open spec fn group_fits(holes: Seq<Hole>, group: FileGroup) -> bool {
    forall|k: int| 0 <= k < group.members@.len() ==> #[trigger] group.members@[k] < holes.len()
}

/// What a check of a whole group settles about its member `k`, given where the
/// holes landed in the patched text.
pub open spec fn batch_decided(
    table: PathTable,
    root: Seq<char>,
    members: Seq<&Hole>,
    anchors: Seq<usize>,
    run: CheckRun,
    k: int,
) -> Option<OutcomeView> {
    decided(
        table,
        root,
        members[k]@,
        run,
        as_list(
            candidates_of(run.diagnostics@),
            assignment(table, root, members, anchors, run)[k],
        ),
        Isolation::Batched,
    )
}

/// How far the batch of one file has come.
#[derive(Debug)]
pub enum BatchStage {
    Reading,
    Testing { src: String },
    Patching { anchors: Vec<usize> },
    Checking { anchors: Vec<usize> },
    Restoring { anchors: Vec<usize>, outcome: Result<CheckRun, String> },
    Finished,
}

/// What the batch of one file wants done next.
#[derive(Debug)]
pub enum BatchAction {
    Read,
    TestWritable,
    /// Replace the file by this text, with a backup.
    Patch(String),
    Check,
    Restore,
    /// What is settled, one entry per member.
    Settle(Vec<Option<ProbeOutcome>>),
}

/// Whether an event answers what was asked for at a stage.
pub open spec fn batch_event_answers(stage: BatchStage, event: ProbeEvent) -> bool {
    match stage {
        BatchStage::Reading => event is ReadText || event is ReadNotUtf8 || event is ReadFailed,
        BatchStage::Testing { .. } => event is Writable || event is NotWritable,
        BatchStage::Patching { .. } => event is Patched || event is PatchFailed,
        BatchStage::Checking { .. } => event is Checked || event is CheckFailed,
        BatchStage::Restoring { .. } => event is Restored || event is RestoreFailed,
        BatchStage::Finished => false,
    }
}

/// Whether the batch of a file has ended with nothing settled.
pub open spec fn settles_nothing(after: BatchStage, action: BatchAction, n: nat) -> bool {
    &&& after is Finished
    &&& action is Settle
    &&& action->Settle_0@.len() == n
    &&& forall|k: int| 0 <= k < n ==> (#[trigger] action->Settle_0@[k]) is None
}

/// Whether anchors are those of the group's holes in the patched text.
pub open spec fn anchors_match(src: Seq<char>, members: Seq<&Hole>, anchors: Seq<usize>) -> bool {
    let edits = unit_edits(members);
    &&& anchors.len() == members.len()
    &&& forall|k: int|
        0 <= k < members.len() ==> anchors[#[trigger] order_of(edit_keys(edits))[k] as int] == anchor(
            encode_utf8(src),
            left_to_right(edits),
            k,
        )
}

/// Whether the batch of a file goes on as it should. A file that cannot be
/// patched or checked is skipped whole, leaving its holes undecided so that
/// probing them one by one reports the real reason.
pub open spec fn batch_goes_on(
    table: PathTable,
    root: Seq<char>,
    members: Seq<&Hole>,
    stage: BatchStage,
    event: ProbeEvent,
    after: BatchStage,
    action: BatchAction,
) -> bool {
    match (stage, event) {
        (BatchStage::Reading, ProbeEvent::ReadText(src)) => after == (BatchStage::Testing { src })
            && action is TestWritable,
        (BatchStage::Testing { src }, ProbeEvent::Writable) => match patch_error(src@, members) {
            Some(_) => settles_nothing(after, action, members.len()),
            None => after is Patching && action is Patch && encode_utf8(action->Patch_0@)
                == spliced(encode_utf8(src@), left_to_right(unit_edits(members))) && anchors_match(
                src@,
                members,
                after->Patching_anchors@,
            ),
        },
        (BatchStage::Patching { anchors }, ProbeEvent::Patched) => after == (BatchStage::Checking {
            anchors,
        }) && action is Check,
        (BatchStage::Checking { anchors }, ProbeEvent::Checked(run)) => after == (
        BatchStage::Restoring { anchors, outcome: Ok(run) }) && action is Restore,
        (BatchStage::Checking { anchors }, ProbeEvent::CheckFailed(e)) => after == (
        BatchStage::Restoring { anchors, outcome: Err(e) }) && action is Restore,
        (BatchStage::Restoring { anchors, outcome: Ok(run) }, ProbeEvent::Restored) => {
            &&& after is Finished
            &&& action is Settle
            &&& action->Settle_0@.len() == members.len()
            &&& forall|k: int|
                0 <= k < members.len() ==> opt_outcome(#[trigger] action->Settle_0@[k])
                    == batch_decided(table, root, members, anchors@, run, k)
        },
        _ => settles_nothing(after, action, members.len()),
    }
}

/// Whether the file holds patched text at a stage.
pub open spec fn batch_holds_patch(stage: BatchStage) -> bool {
    stage is Checking || stage is Restoring
}

/// A batch never leaves a file modified: while the file holds patched text,
/// nothing is settled before it was to be put back.
pub proof fn lemma_batch_puts_file_back(
    table: PathTable,
    root: Seq<char>,
    members: Seq<&Hole>,
    stage: BatchStage,
    event: ProbeEvent,
    after: BatchStage,
    action: BatchAction,
)
    requires
        batch_event_answers(stage, event),
        batch_goes_on(table, root, members, stage, event, after, action),
    ensures
        batch_holds_patch(stage) ==> action is Restore || event is Restored
            || event is RestoreFailed,
        action is Settle ==> !batch_holds_patch(after),
        action is Restore ==> batch_holds_patch(after),
        event is Patched ==> action is Check,
{
}

fn settle_nothing(n: usize) -> (r: (BatchStage, BatchAction))
    ensures
        settles_nothing(r.0, r.1, n as nat),
{
    let mut out: Vec<Option<ProbeOutcome>> = Vec::new();
    let mut i: usize = 0;
    while i < n
        invariant
            i <= n,
            out@.len() == i,
            forall|k: int| 0 <= k < i ==> (#[trigger] out@[k]) is None,
        decreases n - i,
    {
        out.push(None);
        i = i + 1;
    }
    (BatchStage::Finished, BatchAction::Settle(out))
}

fn pick_members<'a>(holes: &'a Vec<Hole>, group: &FileGroup) -> (r: Vec<&'a Hole>)
    requires
        group_fits(holes@, *group),
    ensures
        r@ == members_of(holes@, *group),
{
    let mut out: Vec<&'a Hole> = Vec::new();
    let mut k: usize = 0;
    while k < group.members.len()
        invariant
            k <= group.members@.len(),
            group_fits(holes@, *group),
            out@ == members_of(holes@, *group).take(k as int),
        decreases group.members.len() - k,
    {
        proof {
            assert(group.members@[k as int] < holes@.len());
        }
        let h = &holes[group.members[k]];
        proof {
            assert(members_of(holes@, *group).take(k + 1) =~= members_of(holes@, *group).take(
                k as int,
            ).push(h));
        }
        out.push(h);
        k = k + 1;
    }
    proof {
        assert(members_of(holes@, *group).take(group.members@.len() as int) =~= members_of(
            holes@,
            *group,
        ));
    }
    out
}

/// How many holes the groups have, but no more than two are counted.
fn several_members(groups: &Vec<FileGroup>) -> (r: bool)
    ensures
        r == (member_count(groups@) > 1),
{
    let mut n: usize = 0;
    let mut i: usize = 0;
    proof {
        assert(groups@.take(0) =~= Seq::<FileGroup>::empty());
    }
    while i < groups.len()
        invariant
            i <= groups@.len(),
            n <= 1,
            n == member_count(groups@.take(i as int)),
        decreases groups.len() - i,
    {
        proof {
            assert(groups@.take(i + 1).drop_last() =~= groups@.take(i as int));
            assert(groups@.take(i + 1).last() == groups@[i as int]);
        }
        let m: usize = groups[i].members.len();
        if m > 1 || n + m > 1 {
            proof {
                lemma_member_count_grows(groups@, i + 1);
            }
            return true;
        }
        n = n + m;
        i = i + 1;
    }
    proof {
        assert(groups@.take(groups@.len() as int) =~= groups@);
    }
    false
}

impl Prober {
    /// Whether the groups are worth probing as batches: a batch of one is just a
    /// probe, and going through the batched path would cost an extra check on
    /// the ambiguous case for no benefit.
    pub fn worth_batching(groups: &Vec<FileGroup>) -> (r: bool)
        ensures
            r == (member_count(groups@) > 1),
    {
        several_members(groups)
    }

    /// Go on with the batch of one file: patch its holes at once, run one check,
    /// put the file back, and settle what the check settles.
    pub fn batch_step(
        &self,
        table: &PathTable,
        holes: &Vec<Hole>,
        group: &FileGroup,
        stage: BatchStage,
        event: ProbeEvent,
    ) -> (r: (BatchStage, BatchAction))
        requires
            group_fits(holes@, *group),
            batch_event_answers(stage, event),
        ensures
            batch_goes_on(
                *table,
                self.root@,
                members_of(holes@, *group),
                stage,
                event,
                r.0,
                r.1,
            ),
    {
        let n: usize = group.members.len();
        let members = pick_members(holes, group);
        match stage {
            BatchStage::Reading => match event {
                ProbeEvent::ReadText(src) => (
                    BatchStage::Testing { src },
                    BatchAction::TestWritable,
                ),
                _ => settle_nothing(n),
            },
            BatchStage::Testing { src } => match event {
                ProbeEvent::Writable => match patched_source_many(src.as_str(), &members) {
                    Ok((text, anchors)) => (
                        BatchStage::Patching { anchors },
                        BatchAction::Patch(text),
                    ),
                    Err(_) => settle_nothing(n),
                },
                _ => settle_nothing(n),
            },
            BatchStage::Patching { anchors } => match event {
                ProbeEvent::Patched => (BatchStage::Checking { anchors }, BatchAction::Check),
                _ => settle_nothing(n),
            },
            BatchStage::Checking { anchors } => match event {
                ProbeEvent::Checked(run) => (
                    BatchStage::Restoring { anchors, outcome: Ok(run) },
                    BatchAction::Restore,
                ),
                ProbeEvent::CheckFailed(e) => (
                    BatchStage::Restoring { anchors, outcome: Err(e) },
                    BatchAction::Restore,
                ),
                _ => settle_nothing(n),
            },
            BatchStage::Restoring { anchors, outcome } => match event {
                ProbeEvent::Restored => match outcome {
                    Err(_) => settle_nothing(n),
                    Ok(run) => {
                        let settled = self.settle_batch(table, &members, &anchors, &run);
                        (BatchStage::Finished, BatchAction::Settle(settled))
                    },
                },
                _ => settle_nothing(n),
            },
            BatchStage::Finished => settle_nothing(n),
        }
    }

    /// What one check of several patched holes settles about each. Each
    /// diagnostic is assigned to at most one hole, so a wide attribution window
    /// cannot let several holes claim the same error.
    pub fn settle_batch(
        &self,
        table: &PathTable,
        members: &Vec<&Hole>,
        anchors: &Vec<usize>,
        run: &CheckRun,
    ) -> (r: Vec<Option<ProbeOutcome>>)
        ensures
            r@.len() == members@.len(),
            forall|k: int|
                0 <= k < members@.len() ==> opt_outcome(#[trigger] r@[k]) == batch_decided(
                    *table,
                    self.root@,
                    members@,
                    anchors@,
                    *run,
                    k,
                ),
    {
        let blame = assign_diagnostics(members, anchors, table, self.root.as_str(), run);
        let mut out: Vec<Option<ProbeOutcome>> = Vec::new();
        let mut k: usize = 0;
        while k < members.len()
            invariant
                k <= members@.len(),
                blame@.len() == members@.len(),
                forall|h: int|
                    0 <= h < members@.len() ==> referents((#[trigger] blame@[h])@) == as_list(
                        candidates_of(run.diagnostics@),
                        assignment(*table, self.root@, members@, anchors@, *run)[h],
                    ),
                out@.len() == k,
                forall|j: int|
                    0 <= j < k ==> opt_outcome(#[trigger] out@[j]) == batch_decided(
                        *table,
                        self.root@,
                        members@,
                        anchors@,
                        *run,
                        j,
                    ),
            decreases members.len() - k,
        {
            let one = decide(
                members[k],
                table,
                self.root.as_str(),
                run,
                &blame[k],
                Isolation::Batched,
            );
            out.push(one);
            k = k + 1;
        }
        out
    }
}

// ---------------------------------------------------------------------------
// A whole list
// ---------------------------------------------------------------------------

/// What is known so far about a list of holes that are probed together.
#[derive(Debug)]
pub struct ProbeRun {
    /// One entry per hole, in the order of the list.
    pub outcomes: Vec<Option<ProbeOutcome>>,
    /// The batches that are worth trying before probing one by one.
    pub batches: Vec<FileGroup>,
}

/// What is known about each hole.
pub open spec fn known_outcomes(outcomes: Seq<Option<ProbeOutcome>>) -> Seq<Option<OutcomeView>> {
    Seq::new(outcomes.len(), |i: int| opt_outcome(outcomes[i]))
}

/// What is known after the first `n` members of a group were settled.
pub open spec fn with_settled(
    known: Seq<Option<OutcomeView>>,
    members: Seq<usize>,
    settled: Seq<Option<OutcomeView>>,
    n: int,
) -> Seq<Option<OutcomeView>>
    decreases n,
{
    if n <= 0 {
        known
    } else {
        with_settled(known, members, settled, n - 1).update(members[n - 1] as int, settled[n - 1])
    }
}

proof fn lemma_groups_fit(holes: Seq<Hole>, groups: Seq<FileGroup>)
    requires
        holes.len() <= usize::MAX,
        crate::groups::group_views(groups) == crate::groups::grouped(
            crate::patching::files_of(holes),
            crate::patching::batchable(holes, holes.len() as int),
        ),
    ensures
        forall|g: int| 0 <= g < groups.len() ==> group_fits(holes, #[trigger] groups[g]),
{
    let files = crate::patching::files_of(holes);
    let picks = crate::patching::batchable(holes, holes.len() as int);
    let views = crate::groups::group_views(groups);
    crate::groups::lemma_grouped(files, picks);
    crate::patching::lemma_batchable_bound(holes, holes.len() as int);
    assert forall|g: int| 0 <= g < groups.len() implies group_fits(holes, #[trigger] groups[g]) by {
        assert forall|k: int| 0 <= k < groups[g].members@.len() implies #[trigger] groups[g].members@[k]
            < holes.len() by {
            let p = groups[g].members@[k];
            assert(views[g].1[k] == p);
            assert(views[g].1.contains(p));
            assert(crate::groups::has_member(views, p));
            assert(picks.contains(p));
            let j = choose|j: int| 0 <= j < picks.len() && picks[j] == p;
            assert(picks[j] < holes.len());
        }
    }
}

impl ProbeRun {
    /// Begin with a list of holes: those that need no compiler are settled, and
    /// the others are grouped into batches, one check per *file* rather than per
    /// hole.
    pub fn probe_all(holes: &Vec<Hole>) -> (r: ProbeRun)
        ensures
            r.outcomes@.len() == holes@.len(),
            forall|i: int|
                0 <= i < holes@.len() ==> opt_outcome(#[trigger] r.outcomes@[i])
                    == settled_without_check(holes@[i]@),
            forall|g: int|
                0 <= g < r.batches@.len() ==> group_fits(holes@, #[trigger] r.batches@[g]),
            ({
                let groups = crate::groups::grouped(
                    crate::patching::files_of(holes@),
                    crate::patching::batchable(holes@, holes@.len() as int),
                );
                let all = crate::patching::batchable(holes@, holes@.len() as int);
                crate::groups::group_views(r.batches@) == if all.len() > 1 {
                    groups
                } else {
                    seq![]
                }
            }),
    {
        let (groups, _) = crate::patching::split_batchable(holes);
        let n: usize = holes.len();
        proof {
            lemma_groups_fit(holes@, groups@);
            lemma_member_counts_agree(
                crate::patching::files_of(holes@),
                crate::patching::batchable(holes@, holes@.len() as int),
                groups@,
            );
        }
        let mut outcomes: Vec<Option<ProbeOutcome>> = Vec::new();
        let mut i: usize = 0;
        while i < n
            invariant
                i <= n,
                n == holes@.len(),
                outcomes@.len() == i,
                forall|j: int|
                    0 <= j < i ==> opt_outcome(#[trigger] outcomes@[j]) == settled_without_check(
                        holes@[j]@,
                    ),
            decreases n - i,
        {
            outcomes.push(settle_without_check(&holes[i]));
            i = i + 1;
        }
        let batches = if Prober::worth_batching(&groups) {
            groups
        } else {
            Vec::new()
        };
        proof {
            if member_count(groups@) <= 1 {
                assert(crate::groups::group_views(batches@) =~= seq![]);
            }
        }
        ProbeRun { outcomes, batches }
    }

    /// Record what the batch of one file settled. What it could not settle stays
    /// open.
    pub fn record(&mut self, group: &FileGroup, settled: Vec<Option<ProbeOutcome>>)
        requires
            settled@.len() == group.members@.len(),
            forall|k: int|
                0 <= k < group.members@.len() ==> #[trigger] group.members@[k] < old(
                    self,
                ).outcomes@.len(),
        ensures
            final(self).batches == old(self).batches,
            final(self).outcomes@.len() == old(self).outcomes@.len(),
            known_outcomes(final(self).outcomes@) == with_settled(
                known_outcomes(old(self).outcomes@),
                group.members@,
                known_outcomes(settled@),
                group.members@.len() as int,
            ),
    {
        let ghost known = known_outcomes(self.outcomes@);
        let ghost all = settled@;
        let ghost given = known_outcomes(settled@);
        let mut rest = settled;
        let n: usize = group.members.len();
        let mut k: usize = 0;
        proof {
            assert(all.skip(0) =~= all);
        }
        while k < n
            invariant
                k <= n,
                n == group.members@.len(),
                all.len() == n,
                rest@ == all.skip(k as int),
                given == known_outcomes(all),
                self.batches == old(self).batches,
                self.outcomes@.len() == old(self).outcomes@.len(),
                forall|j: int|
                    0 <= j < n ==> #[trigger] group.members@[j] < self.outcomes@.len(),
                known_outcomes(self.outcomes@) == with_settled(
                    known,
                    group.members@,
                    given,
                    k as int,
                ),
            decreases n - k,
        {
            let one = rest.remove(0);
            proof {
                assert(one == all[k as int]);
                assert(rest@ =~= all.skip(k + 1));
                assert(given[k as int] == opt_outcome(one));
                assert(group.members@[k as int] < self.outcomes@.len());
            }
            let at: usize = group.members[k];
            let ghost before = self.outcomes@;
            self.outcomes.set(at, one);
            proof {
                assert(known_outcomes(self.outcomes@) =~= known_outcomes(before).update(
                    at as int,
                    opt_outcome(one),
                ));
            }
            k = k + 1;
        }
    }

    /// The first hole that is still open: to be probed on its own, the slow,
    /// reliable way.
    pub fn next_open(&self) -> (r: Option<usize>)
        ensures
            match r {
                Some(i) => i < self.outcomes@.len() && self.outcomes@[i as int] is None
                    && forall|j: int|
                    0 <= j < i ==> (#[trigger] self.outcomes@[j]) is Some,
                None => forall|j: int|
                    0 <= j < self.outcomes@.len() ==> (#[trigger] self.outcomes@[j]) is Some,
            },
    {
        let mut i: usize = 0;
        while i < self.outcomes.len()
            invariant
                i <= self.outcomes@.len(),
                forall|j: int| 0 <= j < i ==> (#[trigger] self.outcomes@[j]) is Some,
            decreases self.outcomes.len() - i,
        {
            if self.outcomes[i].is_none() {
                return Some(i);
            }
            i = i + 1;
        }
        None
    }

    /// Record the outcome of one hole.
    pub fn settle(&mut self, i: usize, outcome: ProbeOutcome)
        requires
            i < old(self).outcomes@.len(),
        ensures
            final(self).batches == old(self).batches,
            final(self).outcomes@ == old(self).outcomes@.update(i as int, Some(outcome)),
    {
        self.outcomes.set(i, Some(outcome));
    }

    /// The verdicts, one for **every** hole, in the order of the list.
    pub fn finish(self) -> (r: Vec<ProbeOutcome>)
        requires
            forall|j: int|
                0 <= j < self.outcomes@.len() ==> (#[trigger] self.outcomes@[j]) is Some,
        ensures
            r@.len() == self.outcomes@.len(),
            forall|j: int|
                0 <= j < self.outcomes@.len() ==> self.outcomes@[j] == Some(#[trigger] r@[j]),
    {
        let mut rest = self.outcomes;
        let ghost all = rest@;
        let n: usize = rest.len();
        let mut out: Vec<ProbeOutcome> = Vec::new();
        let mut i: usize = 0;
        proof {
            assert(all.skip(0) =~= all);
        }
        while i < n
            invariant
                i <= n,
                n == all.len(),
                rest@ == all.skip(i as int),
                forall|j: int| 0 <= j < n ==> (#[trigger] all[j]) is Some,
                out@.len() == i,
                forall|j: int| 0 <= j < i ==> all[j] == Some(#[trigger] out@[j]),
            decreases n - i,
        {
            let one = rest.remove(0);
            proof {
                assert(one == all[i as int]);
                assert(rest@ =~= all.skip(i + 1));
            }
            if let Some(o) = one {
                out.push(o);
            }
            i = i + 1;
        }
        out
    }
}

} // verus!
