//! Walking a crate's directories: which to enter and which files to take.
//!
//! A walk hands out directories to list, takes in what they hold, and in the end
//! gives the files found, in path order.
use vstd::prelude::*;

use crate::patching::{backup_path_of, BACKUP_SUFFIX};
use crate::path::{file_name_of, joined, rooted, sort_paths, sorted_paths, without_last};
use crate::text::{begins, ends, ends_with, owned, same, starts_with, strip_suffix, views};

verus! {

/// What a directory entry is.
#[derive(Debug, Clone, Copy, PartialEq, Eq, Structural)]
pub enum EntryKind {
    Directory,
    File,
    /// Something else, or it could not be found out.
    Other,
}

/// One entry of a directory.
#[derive(Debug)]
pub struct DirEntry {
    pub name: String,
    pub path: String,
    pub kind: EntryKind,
}

/// What a walk looks for.
#[derive(Debug, Clone, Copy, PartialEq, Eq, Structural)]
pub enum Wanted {
    /// The crate's Rust sources.
    RustFiles,
    /// Backups that a killed probe left behind.
    Backups,
}

/// How deep a search for sources goes: a crude but effective guard against
/// symlink cycles.
pub const MAX_DEPTH: usize = 32;

/// Whether a name ends in a `.rs` extension.
pub open spec fn has_rs_extension(name: Seq<char>) -> bool {
    name.len() > 3 && ends(name, ".rs"@)
}

/// Whether a name is hidden.
pub open spec fn is_hidden(name: Seq<char>) -> bool {
    begins(name, "."@)
}

/// Whether a walk enters a directory of this name, below a directory `depth`
/// levels down. Build output and dotdirs are never worth walking.
pub open spec fn enters(wanted: Wanted, name: Seq<char>, depth: int) -> bool {
    match wanted {
        Wanted::RustFiles => !is_hidden(name) && name != "target"@ && name != "node_modules"@
            && depth < MAX_DEPTH,
        Wanted::Backups => !is_hidden(name) && name != "target"@,
    }
}

/// Whether a walk takes an entry of this name that is not a directory.
pub open spec fn takes(wanted: Wanted, name: Seq<char>, kind: EntryKind) -> bool {
    match wanted {
        Wanted::RustFiles => kind == EntryKind::File && !is_hidden(name) && has_rs_extension(name),
        Wanted::Backups => ends(name, BACKUP_SUFFIX@),
    }
}

/// The directories to walk after the first `n` entries of one.
pub open spec fn dirs_after(
    wanted: Wanted,
    pending: Seq<(Seq<char>, usize)>,
    entries: Seq<DirEntry>,
    depth: usize,
    n: int,
) -> Seq<(Seq<char>, usize)>
    decreases n,
{
    if n <= 0 {
        pending
    } else {
        let front = dirs_after(wanted, pending, entries, depth, n - 1);
        let e = entries[n - 1];
        if e.kind == EntryKind::Directory && enters(wanted, e.name@, depth as int) {
            front.push((e.path@, (depth + 1) as usize))
        } else {
            front
        }
    }
}

/// The files found after the first `n` entries of a directory.
pub open spec fn found_after(
    wanted: Wanted,
    found: Seq<Seq<char>>,
    entries: Seq<DirEntry>,
    n: int,
) -> Seq<Seq<char>>
    decreases n,
{
    if n <= 0 {
        found
    } else {
        let front = found_after(wanted, found, entries, n - 1);
        let e = entries[n - 1];
        if e.kind != EntryKind::Directory && takes(wanted, e.name@, e.kind) {
            front.push(e.path@)
        } else {
            front
        }
    }
}

/// A walk in progress.
#[derive(Debug)]
pub struct FileWalk {
    pub wanted: Wanted,
    /// Directories still to list, with how deep each one is.
    pub pending: Vec<(String, usize)>,
    pub found: Vec<String>,
}

/// Directories as plain text and numbers.
pub open spec fn pending_views(v: Seq<(String, usize)>) -> Seq<(Seq<char>, usize)> {
    Seq::new(v.len(), |i: int| (v[i].0@, v[i].1))
}

fn is_hidden_name(name: &str) -> (r: bool)
    ensures
        r == is_hidden(name@),
{
    starts_with(name, ".")
}

fn does_enter(wanted: Wanted, name: &str, depth: usize) -> (r: bool)
    ensures
        r == enters(wanted, name@, depth as int),
{
    match wanted {
        Wanted::RustFiles => !is_hidden_name(name) && !same(name, "target") && !same(
            name,
            "node_modules",
        ) && depth < MAX_DEPTH,
        Wanted::Backups => !is_hidden_name(name) && !same(name, "target"),
    }
}

fn does_take(wanted: Wanted, name: &str, kind: EntryKind) -> (r: bool)
    ensures
        r == takes(wanted, name@, kind),
{
    match wanted {
        Wanted::RustFiles => kind == EntryKind::File && !is_hidden_name(name)
            && name.unicode_len() > 3 && ends_with(name, ".rs"),
        Wanted::Backups => ends_with(name, BACKUP_SUFFIX),
    }
}

impl FileWalk {
    /// A walk that starts at `root`.
    pub fn new(wanted: Wanted, root: &str) -> (r: FileWalk)
        ensures
            r.wanted == wanted,
            pending_views(r.pending@) == seq![(root@, 0usize)],
            r.found@.len() == 0,
    {
        let mut pending: Vec<(String, usize)> = Vec::new();
        pending.push((owned(root), 0));
        proof {
            assert(pending_views(pending@) =~= seq![(root@, 0usize)]);
        }
        FileWalk { wanted, pending, found: Vec::new() }
    }

    /// The next directory to list, and how deep it is.
    pub fn next(&mut self) -> (r: Option<(String, usize)>)
        ensures
            final(self).wanted == old(self).wanted,
            final(self).found == old(self).found,
            match r {
                Some((dir, depth)) => old(self).pending@.len() > 0 && final(self).pending@ == old(
                    self,
                ).pending@.drop_last() && (dir, depth) == old(self).pending@.last(),
                None => old(self).pending@.len() == 0 && final(self).pending@ == old(self).pending@,
            },
    {
        self.pending.pop()
    }

    /// Take in the entries of a directory that is `depth` levels down. An
    /// unreadable directory has none.
    pub fn visit(&mut self, depth: usize, entries: &Vec<DirEntry>)
        requires
            depth < usize::MAX,
        ensures
            final(self).wanted == old(self).wanted,
            pending_views(final(self).pending@) == dirs_after(
                old(self).wanted,
                pending_views(old(self).pending@),
                entries@,
                depth,
                entries@.len() as int,
            ),
            views(final(self).found@) == found_after(
                old(self).wanted,
                views(old(self).found@),
                entries@,
                entries@.len() as int,
            ),
    {
        let wanted = self.wanted;
        let ghost dirs = pending_views(self.pending@);
        let ghost files = views(self.found@);
        let mut i: usize = 0;
        while i < entries.len()
            invariant
                i <= entries@.len(),
                depth < usize::MAX,
                wanted == old(self).wanted,
                self.wanted == wanted,
                pending_views(self.pending@) == dirs_after(
                    wanted,
                    dirs,
                    entries@,
                    depth,
                    i as int,
                ),
                views(self.found@) == found_after(wanted, files, entries@, i as int),
            decreases entries.len() - i,
        {
            let e = &entries[i];
            match e.kind {
                EntryKind::Directory => {
                    if does_enter(wanted, e.name.as_str(), depth) {
                        let dir = (e.path.clone(), depth + 1);
                        proof {
                            assert(pending_views(self.pending@.push(dir)) =~= pending_views(
                                self.pending@,
                            ).push((e.path@, (depth + 1) as usize)));
                        }
                        self.pending.push(dir);
                    }
                },
                _ => {
                    if does_take(wanted, e.name.as_str(), e.kind) {
                        let file = e.path.clone();
                        proof {
                            assert(views(self.found@.push(file)) =~= views(self.found@).push(
                                e.path@,
                            ));
                        }
                        self.found.push(file);
                    }
                },
            }
            i = i + 1;
        }
    }

    /// The files found, in path order.
    pub fn finish(self) -> (r: Vec<String>)
        ensures
            views(r@) == sorted_paths(views(self.found@)),
    {
        sort_paths(&self.found)
    }
}

/// The file that a leftover backup belongs to, if it is one.
pub open spec fn backup_target(backup: Seq<char>) -> Option<Seq<char>> {
    if ends(backup, BACKUP_SUFFIX@) {
        Some(backup.take(backup.len() - BACKUP_SUFFIX@.len()))
    } else {
        None
    }
}

/// The file that a leftover backup belongs to.
pub fn restore_target(backup: &str) -> (r: Option<String>)
    ensures
        crate::text::opt_view(r) == backup_target(backup@),
{
    strip_suffix(backup, BACKUP_SUFFIX)
}

/// Which leftover backups are put back, each with the file it belongs to.
pub open spec fn restorations(backups: Seq<Seq<char>>) -> Seq<(Seq<char>, Seq<char>)>
    decreases backups.len(),
{
    if backups.len() == 0 {
        seq![]
    } else {
        let front = restorations(backups.drop_last());
        match backup_target(backups.last()) {
            Some(target) => front.push((backups.last(), target)),
            None => front,
        }
    }
}

/// Pairs of paths as plain text.
pub open spec fn pair_views(pairs: Seq<(String, String)>) -> Seq<(Seq<char>, Seq<char>)> {
    Seq::new(pairs.len(), |i: int| (pairs[i].0@, pairs[i].1@))
}

/// Which leftover backups to put back, each with the file to write it over.
///
/// This is what makes a hard kill recoverable. It is to be carried out under the
/// probe lock: restoring a backup over a file that another process is
/// *currently* probing would destroy that probe's patch mid-flight, and the
/// probe would then silently report a clean compile with no type information.
pub fn restore_leftovers(backups: &Vec<String>) -> (r: Vec<(String, String)>)
    ensures
        pair_views(r@) == restorations(views(backups@)),
{
    let ghost all = views(backups@);
    let mut out: Vec<(String, String)> = Vec::new();
    let mut i: usize = 0;
    proof {
        assert(all.take(0) =~= Seq::<Seq<char>>::empty());
        assert(pair_views(out@) =~= Seq::<(Seq<char>, Seq<char>)>::empty());
    }
    while i < backups.len()
        invariant
            i <= backups@.len(),
            all == views(backups@),
            pair_views(out@) == restorations(all.take(i as int)),
        decreases backups.len() - i,
    {
        proof {
            assert(all.take(i + 1).drop_last() =~= all.take(i as int));
            assert(all.take(i + 1).last() == backups@[i as int]@);
        }
        if let Some(target) = restore_target(backups[i].as_str()) {
            let pair = (backups[i].clone(), target);
            proof {
                assert(pair_views(out@.push(pair)) =~= pair_views(out@).push(
                    (pair.0@, pair.1@),
                ));
            }
            out.push(pair);
        }
        i = i + 1;
    }
    proof {
        assert(all.take(backups@.len() as int) =~= all);
    }
    out
}

/// A leftover backup is restored over the very file it was made of, when that
/// file's path is written plainly: its directory, one slash, its name.
pub proof fn lemma_backup_restores_its_file(file: Seq<char>)
    requires
        file_name_of(file) is Some,
        file == joined(without_last(file), file_name_of(file)->0),
        !rooted(file_name_of(file)->0),
    ensures
        backup_target(backup_path_of(file)) == Some(file),
        backup_path_of(file) != file,
{
    reveal_strlit(".cargo-hole.bak");
    let name = file_name_of(file)->0;
    let dir = without_last(file);
    let suffix = BACKUP_SUFFIX@;
    let backup = backup_path_of(file);
    assert(suffix.len() == 15);
    assert(!rooted(name + suffix)) by {
        if name.len() > 0 {
            assert((name + suffix)[0] == name[0]);
        } else {
            assert((name + suffix)[0] == suffix[0]);
        }
    }
    assert(backup =~= joined(dir, name) + suffix);
    assert(backup.skip(backup.len() - suffix.len()) =~= suffix);
    assert(backup.take(backup.len() - suffix.len()) =~= file);
}

} // verus!
