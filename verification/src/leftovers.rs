//! What a hard kill leaves on disk, and what putting it back comes to.
//!
//! A walk for backups finds every one that can be read, and putting them back
//! leaves none.
use vstd::prelude::*;

use crate::patching::BACKUP_SUFFIX;
use crate::path::{joined, paths_in_order, rooted, sorted_paths};
use crate::text::{ends, owned, views};
use crate::tree::{
    is_entered, is_findable, is_reached, is_single, is_wanted_in, lemma_sorting_keeps_paths,
    lemma_walk_finds_everything, misses_nothing, repeats_nothing, DiskView, Listed,
};
use crate::walk::{
    backup_target, pair_views, restorations, restore_leftovers, takes, EntryKind, Wanted,
};

verus! {

/// Whether a path is that of a backup under `root`, outside the directories that
/// a walk passes by.
pub open spec fn is_leftover(disk: DiskView, root: Seq<char>, path: Seq<char>) -> bool {
    is_findable(disk, Wanted::Backups, root, path)
}

/// Whether a walk for backups from `root` is over, and what it found.
pub open spec fn has_found(
    disk: DiskView,
    root: Seq<char>,
    listed: Listed,
    found: Seq<Seq<char>>,
) -> bool {
    misses_nothing(disk, Wanted::Backups, root, listed, seq![], found) && repeats_nothing(
        root,
        listed,
        seq![],
        found,
    )
}

proof fn lemma_leftover_ends(disk: DiskView, root: Seq<char>, path: Seq<char>)
    requires
        is_leftover(disk, root, path),
    ensures
        ends(path, BACKUP_SUFFIX@),
{
    reveal_strlit(".cargo-hole.bak");
    let wanted = Wanted::Backups;
    let (dir, n) = choose|dir: Seq<char>, n: nat|
        #![trigger is_reached(disk, wanted, root, dir, n), is_wanted_in(wanted, dir, path)]
        is_reached(disk, wanted, root, dir, n) && is_wanted_in(wanted, dir, path);
    let name = choose|name: Seq<char>|
        is_single(name) && takes(wanted, name, EntryKind::File) && path == #[trigger] joined(
            dir,
            name,
        );
    assert(!rooted(name)) by {
        if name[0] == '/' {
            assert(name.contains('/'));
        }
    }
    assert(path.skip(path.len() - BACKUP_SUFFIX@.len()) =~= name.skip(
        name.len() - BACKUP_SUFFIX@.len(),
    ));
}

// ---------------------------------------------------------------------------
// Putting back
// ---------------------------------------------------------------------------

/// The disk after each backup was written over the file it belongs to and
/// removed, and the files that were restored. A backup that cannot be read is
/// left alone.
pub open spec fn put_back(disk: DiskView, pairs: Seq<(Seq<char>, Seq<char>)>) -> (
    DiskView,
    Seq<Seq<char>>,
)
    decreases pairs.len(),
{
    if pairs.len() == 0 {
        (disk, seq![])
    } else {
        let (before, restored) = put_back(disk, pairs.drop_last());
        let (backup, target) = pairs.last();
        if before.files.contains_key(backup) {
            (
                DiskView {
                    files: before.files.insert(target, before.files[backup]).remove(backup),
                    ..before
                },
                restored.push(target),
            )
        } else {
            (before, restored)
        }
    }
}

/// The files that the readable ones of some backups belong to, in order.
pub open spec fn restored_files(disk: DiskView, backups: Seq<Seq<char>>) -> Seq<Seq<char>>
    decreases backups.len(),
{
    if backups.len() == 0 {
        seq![]
    } else {
        let front = restored_files(disk, backups.drop_last());
        if disk.files.contains_key(backups.last()) {
            front.push(backup_target(backups.last())->0)
        } else {
            front
        }
    }
}

/// Whether putting the backups back is safe from one another: each is named as
/// one, and what it belongs to is not. A backup of a backup is not.
pub open spec fn are_plain_backups(disk: DiskView, backups: Seq<Seq<char>>) -> bool {
    forall|b: Seq<char>| #[trigger]
        backups.contains(b) ==> ends(b, BACKUP_SUFFIX@) && (disk.files.contains_key(b) ==> !ends(
            backup_target(b)->0,
            BACKUP_SUFFIX@,
        ))
}

/// Whether a path is that of one of the backups, and readable.
pub open spec fn is_taken(disk: DiskView, backups: Seq<Seq<char>>, path: Seq<char>) -> bool {
    backups.contains(path) && disk.files.contains_key(path)
}

/// Whether the disk is as it has to be once the backups are back: each file has
/// its backup's bytes, the backups are gone, everything else is as it was.
pub open spec fn are_back(disk: DiskView, backups: Seq<Seq<char>>, after: DiskView) -> bool {
    &&& after.dirs == disk.dirs
    &&& forall|p: Seq<char>|
        is_taken(disk, backups, p) ==> !(#[trigger] after.files.contains_key(p))
    &&& forall|p: Seq<char>|
        is_taken(disk, backups, p + BACKUP_SUFFIX@) ==> (#[trigger] after.files.contains_key(p))
            && after.files[p] == disk.files[p + BACKUP_SUFFIX@]
    &&& forall|p: Seq<char>|
        !is_taken(disk, backups, p) && !is_taken(disk, backups, p + BACKUP_SUFFIX@) ==> (
        #[trigger] after.files.contains_key(p) <==> disk.files.contains_key(p))
            && after.files[p] == disk.files[p]
}

proof fn lemma_put_back(disk: DiskView, backups: Seq<Seq<char>>)
    requires
        are_plain_backups(disk, backups),
        backups.no_duplicates(),
    ensures
        are_back(disk, backups, put_back(disk, restorations(backups)).0),
        put_back(disk, restorations(backups)).1 == restored_files(disk, backups),
    decreases backups.len(),
{
    reveal_strlit(".cargo-hole.bak");
    let suffix = BACKUP_SUFFIX@;
    if backups.len() > 0 {
        let rest = backups.drop_last();
        let b = backups.last();
        assert(backups[backups.len() - 1] == b);
        assert(backups.contains(b));
        assert forall|x: Seq<char>| #[trigger] rest.contains(x) implies backups.contains(x) by {
            let i = choose|i: int| 0 <= i < rest.len() && rest[i] == x;
            assert(backups[i] == x);
        }
        assert(are_plain_backups(disk, rest));
        assert(rest.no_duplicates());
        lemma_put_back(disk, rest);
        let t = backup_target(b)->0;
        let pairs = restorations(backups);
        assert(pairs == restorations(rest).push((b, t)));
        assert(pairs.drop_last() =~= restorations(rest));
        let before = put_back(disk, restorations(rest)).0;
        let after = put_back(disk, pairs).0;
        assert(t + suffix =~= b);
        assert(!rest.contains(b)) by {
            if rest.contains(b) {
                let i = choose|i: int| 0 <= i < rest.len() && rest[i] == b;
                assert(backups[i] == backups[backups.len() - 1]);
            }
        }
        assert forall|x: Seq<char>| is_taken(disk, backups, x) implies #[trigger] is_taken(
            disk,
            rest,
            x,
        ) || x == b by {
            let i = choose|i: int| 0 <= i < backups.len() && backups[i] == x;
            if i < rest.len() {
                assert(rest[i] == x);
            }
        }
        assert(!is_taken(disk, rest, b + suffix)) by {
            if is_taken(disk, rest, b + suffix) {
                assert((b + suffix).take((b + suffix).len() - suffix.len()) =~= b);
                assert(backups.contains(b + suffix));
            }
        }
        assert(before.files.contains_key(b) <==> disk.files.contains_key(b));
        assert forall|p: Seq<char>| p + suffix == b implies p == t by {
            assert((p + suffix).take((p + suffix).len() - suffix.len()) =~= p);
        }
        if disk.files.contains_key(b) {
            assert(!ends(t, suffix));
            assert(!is_taken(disk, backups, t)) by {
                if backups.contains(t) {
                    assert(ends(t, suffix));
                }
            }
            assert forall|p: Seq<char>| is_taken(disk, backups, p) implies !(
            #[trigger] after.files.contains_key(p)) by {
                assert(p != t);
                assert(is_taken(disk, rest, p) || p == b);
                if p != b {
                    assert(!before.files.contains_key(p));
                }
            }
            assert forall|p: Seq<char>| is_taken(disk, backups, p + suffix) implies (
            #[trigger] after.files.contains_key(p)) && after.files[p] == disk.files[p + suffix] by {
                assert((p + suffix).take((p + suffix).len() - suffix.len()) =~= p);
                assert(backups.contains(p + suffix));
                assert(!ends(p, suffix));
                assert(p != b);
                if p != t {
                    assert(is_taken(disk, rest, p + suffix));
                    assert(before.files.contains_key(p));
                }
            }
            assert forall|p: Seq<char>|
                !is_taken(disk, backups, p) && !is_taken(disk, backups, p + suffix) implies (
            #[trigger] after.files.contains_key(p) <==> disk.files.contains_key(p))
                && after.files[p] == disk.files[p] by {
                assert(p != b);
                assert(p != t);
                assert(before.files.contains_key(p) <==> disk.files.contains_key(p));
            }
        } else {
            assert(after == before);
            assert forall|p: Seq<char>|
                !is_taken(disk, backups, p) && !is_taken(disk, backups, p + suffix) implies (
            #[trigger] after.files.contains_key(p) <==> disk.files.contains_key(p))
                && after.files[p] == disk.files[p] by {
                assert(before.files.contains_key(p) <==> disk.files.contains_key(p));
            }
        }
    }
}

proof fn lemma_same_walk(a: DiskView, b: DiskView, root: Seq<char>, dir: Seq<char>, n: nat)
    requires
        a.dirs == b.dirs,
        is_reached(a, Wanted::Backups, root, dir, n),
    ensures
        is_reached(b, Wanted::Backups, root, dir, n),
    decreases n,
{
    if n > 0 {
        let m = (n - 1) as nat;
        let parent = choose|parent: Seq<char>|
            is_reached(a, Wanted::Backups, root, parent, m) && #[trigger] is_entered(
                a,
                Wanted::Backups,
                parent,
                m,
                dir,
            );
        lemma_same_walk(a, b, root, parent, m);
        assert(is_entered(b, Wanted::Backups, parent, m, dir));
    }
}

proof fn lemma_same_leftovers(a: DiskView, b: DiskView, root: Seq<char>, path: Seq<char>)
    requires
        a.dirs == b.dirs,
        is_leftover(a, root, path),
    ensures
        is_leftover(b, root, path),
{
    let wanted = Wanted::Backups;
    let (dir, n) = choose|dir: Seq<char>, n: nat|
        #![trigger is_reached(a, wanted, root, dir, n), is_wanted_in(wanted, dir, path)]
        is_reached(a, wanted, root, dir, n) && is_wanted_in(wanted, dir, path);
    lemma_same_walk(a, b, root, dir, n);
}

/// Whether no readable backup belongs to a file that is itself named as a backup.
pub open spec fn has_no_backups_of_backups(disk: DiskView, found: Seq<Seq<char>>) -> bool {
    forall|b: Seq<char>| #[trigger]
        found.contains(b) && disk.files.contains_key(b) ==> !ends(
            backup_target(b)->0,
            BACKUP_SUFFIX@,
        )
}

/// A hard kill is recoverable: putting back what a walk found restores, in path
/// order, the file of every readable backup to that backup's bytes, removes the
/// backups, and changes no other file. After that no backup is left to find. (A
/// backup of a backup is left out: putting it back makes a backup again.)
pub proof fn lemma_leftovers_are_restored(
    disk: DiskView,
    root: Seq<char>,
    listed: Listed,
    found: Seq<Seq<char>>,
)
    requires
        has_found(disk, root, listed, found),
        has_no_backups_of_backups(disk, found),
    ensures
        ({
            let backups = sorted_paths(found);
            let (after, restored) = put_back(disk, restorations(backups));
            &&& paths_in_order(backups)
            &&& restored == restored_files(disk, backups)
            &&& forall|path: Seq<char>| #[trigger]
                is_taken(disk, found, path) <==> disk.files.contains_key(path) && is_leftover(
                    disk,
                    root,
                    path,
                )
            &&& are_back(disk, found, after)
            &&& forall|path: Seq<char>| #[trigger]
                after.files.contains_key(path) ==> !is_leftover(after, root, path)
        }),
{
    let backups = sorted_paths(found);
    let suffix = BACKUP_SUFFIX@;
    lemma_walk_finds_everything(disk, Wanted::Backups, root, listed, found);
    lemma_sorting_keeps_paths(found);
    assert forall|b: Seq<char>| #[trigger] backups.contains(b) implies ends(b, suffix) && (
    disk.files.contains_key(b) ==> !ends(backup_target(b)->0, suffix)) by {
        assert(found.contains(b));
        lemma_leftover_ends(disk, root, b);
    }
    lemma_put_back(disk, backups);
    let after = put_back(disk, restorations(backups)).0;
    assert forall|p: Seq<char>| #[trigger] is_taken(disk, backups, p) == is_taken(
        disk,
        found,
        p,
    ) by {}
    assert forall|path: Seq<char>| #[trigger] after.files.contains_key(path) implies !is_leftover(
        after,
        root,
        path,
    ) by {
        if is_leftover(after, root, path) {
            lemma_same_leftovers(after, disk, root, path);
            lemma_leftover_ends(disk, root, path);
            if is_taken(disk, backups, path + suffix) {
                assert((path + suffix).take((path + suffix).len() - suffix.len()) =~= path);
                assert(found.contains(path + suffix));
            } else if !is_taken(disk, backups, path) {
                assert(disk.files.contains_key(path));
            }
        }
    }
}

proof fn lemma_nothing_to_put_back(disk: DiskView, backups: Seq<Seq<char>>)
    requires
        forall|b: Seq<char>| #[trigger] backups.contains(b) ==> !disk.files.contains_key(b),
    ensures
        put_back(disk, restorations(backups)) == (disk, Seq::<Seq<char>>::empty()),
    decreases backups.len(),
{
    if backups.len() > 0 {
        let rest = backups.drop_last();
        assert forall|b: Seq<char>| #[trigger] rest.contains(b) implies !disk.files.contains_key(
            b,
        ) by {
            let i = choose|i: int| 0 <= i < rest.len() && rest[i] == b;
            assert(backups[i] == b);
            assert(backups.contains(b));
        }
        lemma_nothing_to_put_back(disk, rest);
        assert(backups[backups.len() - 1] == backups.last());
        assert(backups.contains(backups.last()));
        if backup_target(backups.last()) is Some {
            assert(restorations(backups).drop_last() =~= restorations(rest));
        }
    }
}

/// Restoring a second time finds nothing and changes nothing.
pub proof fn lemma_second_restore_does_nothing(
    disk: DiskView,
    root: Seq<char>,
    listed: Listed,
    found: Seq<Seq<char>>,
    listed_again: Listed,
    found_again: Seq<Seq<char>>,
)
    requires
        has_found(disk, root, listed, found),
        has_no_backups_of_backups(disk, found),
        has_found(
            put_back(disk, restorations(sorted_paths(found))).0,
            root,
            listed_again,
            found_again,
        ),
    ensures
        ({
            let after = put_back(disk, restorations(sorted_paths(found))).0;
            put_back(after, restorations(sorted_paths(found_again))) == (
                after,
                Seq::<Seq<char>>::empty(),
            )
        }),
{
    let after = put_back(disk, restorations(sorted_paths(found))).0;
    lemma_leftovers_are_restored(disk, root, listed, found);
    lemma_walk_finds_everything(after, Wanted::Backups, root, listed_again, found_again);
    lemma_sorting_keeps_paths(found_again);
    assert forall|b: Seq<char>| #[trigger] sorted_paths(found_again).contains(
        b,
    ) implies !after.files.contains_key(b) by {
        assert(found_again.contains(b));
    }
    lemma_nothing_to_put_back(after, sorted_paths(found_again));
}

// ---------------------------------------------------------------------------
// Carrying it out
// ---------------------------------------------------------------------------

/// A restore in progress: what to put back, how far it has come, and the files
/// restored so far.
#[derive(Debug)]
pub struct Restoring {
    pub pairs: Vec<(String, String)>,
    pub next: usize,
    pub restored: Vec<String>,
}

/// What came of an action.
#[derive(Debug)]
pub enum RestoreEvent {
    /// What the backup holds.
    Contents(Vec<u8>),
    /// The backup cannot be read.
    Unreadable,
    /// The file was written and the backup removed.
    Restored,
    /// The file could not be written.
    WriteFailed(String),
}

/// What to do next.
#[derive(Debug)]
pub enum RestoreAction {
    /// Read this backup.
    Read { backup: String },
    /// Write the bytes over the target, then remove the backup.
    Restore { backup: String, target: String, bytes: Vec<u8> },
    /// These files were restored.
    Done { restored: Vec<String> },
    /// The restore cannot go on.
    Fail { message: String },
}

/// A restore as plain text and numbers.
#[verifier::ext_equal]
pub struct RestoringView {
    pub pairs: Seq<(Seq<char>, Seq<char>)>,
    pub next: int,
    pub restored: Seq<Seq<char>>,
}

/// An event as plain text and bytes.
#[verifier::ext_equal]
pub enum RestoreEventView {
    Contents(Seq<u8>),
    Unreadable,
    Restored,
    WriteFailed(Seq<char>),
}

/// An action as plain text and bytes.
#[verifier::ext_equal]
pub enum RestoreActionView {
    Read { backup: Seq<char> },
    Restore { backup: Seq<char>, target: Seq<char>, bytes: Seq<u8> },
    Done { restored: Seq<Seq<char>> },
    Fail { message: Seq<char> },
}

impl View for Restoring {
    type V = RestoringView;

    open spec fn view(&self) -> RestoringView {
        RestoringView {
            pairs: pair_views(self.pairs@),
            next: self.next as int,
            restored: views(self.restored@),
        }
    }
}

impl View for RestoreEvent {
    type V = RestoreEventView;

    open spec fn view(&self) -> RestoreEventView {
        match *self {
            RestoreEvent::Contents(bytes) => RestoreEventView::Contents(bytes@),
            RestoreEvent::Unreadable => RestoreEventView::Unreadable,
            RestoreEvent::Restored => RestoreEventView::Restored,
            RestoreEvent::WriteFailed(e) => RestoreEventView::WriteFailed(e@),
        }
    }
}

impl View for RestoreAction {
    type V = RestoreActionView;

    open spec fn view(&self) -> RestoreActionView {
        match *self {
            RestoreAction::Read { backup } => RestoreActionView::Read { backup: backup@ },
            RestoreAction::Restore { backup, target, bytes } => RestoreActionView::Restore {
                backup: backup@,
                target: target@,
                bytes: bytes@,
            },
            RestoreAction::Done { restored } => RestoreActionView::Done {
                restored: views(restored@),
            },
            RestoreAction::Fail { message } => RestoreActionView::Fail { message: message@ },
        }
    }
}

/// Going on with the backup that is next, or the end.
pub open spec fn going_on(r: RestoringView) -> RestoreActionView {
    if r.next < r.pairs.len() {
        RestoreActionView::Read { backup: r.pairs[r.next].0 }
    } else {
        RestoreActionView::Done { restored: r.restored }
    }
}

/// A restore that is past the backup that was next.
pub open spec fn past_one(r: RestoringView) -> RestoringView {
    RestoringView { next: r.next + 1, ..r }
}

/// A restore after one event, and the action to take. A backup that cannot be read
/// is left alone; a file that cannot be written ends the restore.
pub open spec fn restore_step(r: RestoringView, event: RestoreEventView) -> (
    RestoringView,
    RestoreActionView,
) {
    if r.next >= r.pairs.len() {
        (r, going_on(r))
    } else {
        let (backup, target) = r.pairs[r.next];
        match event {
            RestoreEventView::Contents(bytes) => (
                r,
                RestoreActionView::Restore { backup, target, bytes },
            ),
            RestoreEventView::Unreadable => (past_one(r), going_on(past_one(r))),
            RestoreEventView::Restored => {
                let after = RestoringView { restored: r.restored.push(target), ..past_one(r) };
                (after, going_on(after))
            },
            RestoreEventView::WriteFailed(e) => (
                RestoringView { next: r.pairs.len() as int, ..r },
                RestoreActionView::Fail { message: "cannot restore "@ + target + ": "@ + e },
            ),
        }
    }
}

fn action_for(r: &Restoring) -> (a: RestoreAction)
    ensures
        a@ == going_on(r@),
{
    if r.next < r.pairs.len() {
        RestoreAction::Read { backup: r.pairs[r.next].0.clone() }
    } else {
        let mut restored: Vec<String> = Vec::new();
        let mut i: usize = 0;
        while i < r.restored.len()
            invariant
                i <= r.restored@.len(),
                views(restored@) =~= views(r.restored@).take(i as int),
            decreases r.restored.len() - i,
        {
            let file = r.restored[i].clone();
            proof {
                assert(views(restored@.push(file)) =~= views(restored@).push(file@));
            }
            restored.push(file);
            i = i + 1;
        }
        proof {
            assert(views(restored@) =~= views(r.restored@));
        }
        RestoreAction::Done { restored }
    }
}

impl Restoring {
    /// Start putting back some leftover backups.
    pub fn begin(backups: &Vec<String>) -> (r: (Restoring, RestoreAction))
        ensures
            r.0@ == (RestoringView {
                pairs: restorations(views(backups@)),
                next: 0,
                restored: seq![],
            }),
            r.1@ == going_on(r.0@),
    {
        let r = Restoring { pairs: restore_leftovers(backups), next: 0, restored: Vec::new() };
        proof {
            assert(views(r.restored@) =~= Seq::<Seq<char>>::empty());
        }
        let action = action_for(&r);
        (r, action)
    }

    /// Take what came of the last action, and say what to do next.
    pub fn step(&mut self, event: RestoreEvent) -> (r: RestoreAction)
        ensures
            (final(self)@, r@) == restore_step(old(self)@, event@),
    {
        if self.next >= self.pairs.len() {
            return action_for(self);
        }
        proof {
            assert(self@.pairs[self.next as int] == (
                self.pairs@[self.next as int].0@,
                self.pairs@[self.next as int].1@,
            ));
        }
        match event {
            RestoreEvent::Contents(bytes) => RestoreAction::Restore {
                backup: self.pairs[self.next].0.clone(),
                target: self.pairs[self.next].1.clone(),
                bytes,
            },
            RestoreEvent::Unreadable => {
                self.next = self.next + 1;
                action_for(self)
            },
            RestoreEvent::Restored => {
                let target = self.pairs[self.next].1.clone();
                proof {
                    assert(views(self.restored@.push(target)) =~= views(self.restored@).push(
                        target@,
                    ));
                }
                self.restored.push(target);
                self.next = self.next + 1;
                action_for(self)
            },
            RestoreEvent::WriteFailed(e) => {
                let mut message = owned("cannot restore ");
                message.push_str(self.pairs[self.next].1.as_str());
                message.push_str(": ");
                message.push_str(e.as_str());
                self.next = self.pairs.len();
                RestoreAction::Fail { message }
            },
        }
    }
}

/// The disk after an action.
pub open spec fn performed(disk: DiskView, action: RestoreActionView) -> DiskView {
    match action {
        RestoreActionView::Restore { backup, target, bytes } => DiskView {
            files: disk.files.insert(target, bytes).remove(backup),
            ..disk
        },
        _ => disk,
    }
}

/// A restore that has come to its `k`th backup, on a disk where every write
/// succeeds.
pub open spec fn restoring_at(
    disk: DiskView,
    pairs: Seq<(Seq<char>, Seq<char>)>,
    k: int,
) -> RestoringView {
    RestoringView { pairs, next: k, restored: put_back(disk, pairs.take(k)).1 }
}

/// Carrying out a restore step by step, where every write succeeds, comes to
/// [`put_back`]: each backup that can be read is restored and counted, each other
/// passed by, and at the end what was restored is handed over.
pub proof fn lemma_restoring_puts_back(
    disk: DiskView,
    pairs: Seq<(Seq<char>, Seq<char>)>,
    k: int,
)
    requires
        0 <= k <= pairs.len(),
    ensures
        ({
            let r = restoring_at(disk, pairs, k);
            let now = put_back(disk, pairs.take(k)).0;
            if k == pairs.len() {
                now == put_back(disk, pairs).0 && going_on(r) == (RestoreActionView::Done {
                    restored: put_back(disk, pairs).1,
                })
            } else {
                let (backup, target) = pairs[k];
                let after = put_back(disk, pairs.take(k + 1)).0;
                &&& going_on(r) == (RestoreActionView::Read { backup })
                &&& if now.files.contains_key(backup) {
                    let (held, action) = restore_step(
                        r,
                        RestoreEventView::Contents(now.files[backup]),
                    );
                    &&& held == r
                    &&& performed(now, action) == after
                    &&& restore_step(r, RestoreEventView::Restored).0 == restoring_at(
                        disk,
                        pairs,
                        k + 1,
                    )
                } else {
                    &&& now == after
                    &&& restore_step(r, RestoreEventView::Unreadable).0 == restoring_at(
                        disk,
                        pairs,
                        k + 1,
                    )
                }
            }
        }),
{
    if k == pairs.len() {
        assert(pairs.take(k) =~= pairs);
    } else {
        assert(pairs.take(k + 1).drop_last() =~= pairs.take(k));
        assert(pairs.take(k + 1).last() == pairs[k]);
    }
}

} // verus!
