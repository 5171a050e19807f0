//! What a walk over a whole tree of directories finds.
//!
//! A disk is modelled as its files and its directories. A walk is given
//! directories to list one after the other; however deep the tree is, when
//! nothing is left to list it has found every file it looks for, each once.
use vstd::prelude::*;

use crate::path::{joined, lemma_sorted_paths, paths_in_order, rooted, sorted_paths};
use crate::walk::{
    dirs_after, enters, found_after, takes, DirEntry, EntryKind, Wanted, MAX_DEPTH,
};

verus! {

/// The files of a disk with what they hold, and its directories.
#[verifier::ext_equal]
pub struct DiskView {
    pub files: Map<Seq<char>, Seq<u8>>,
    pub dirs: Set<Seq<char>>,
}

/// Whether no path is both a file and a directory.
pub open spec fn is_disk(disk: DiskView) -> bool {
    forall|p: Seq<char>| #[trigger] disk.files.contains_key(p) ==> !disk.dirs.contains(p)
}

/// Whether a name is a single component.
pub open spec fn is_single(name: Seq<char>) -> bool {
    name.len() > 0 && !name.contains('/')
}

/// Whether a walk goes from a directory that is `n` levels down to another.
pub open spec fn is_entered(
    disk: DiskView,
    wanted: Wanted,
    parent: Seq<char>,
    n: nat,
    dir: Seq<char>,
) -> bool {
    disk.dirs.contains(dir) && exists|name: Seq<char>|
        is_single(name) && enters(wanted, name, n as int) && dir == #[trigger] joined(parent, name)
}

/// Whether a walk from `root` comes to a directory `n` levels down.
pub open spec fn is_reached(
    disk: DiskView,
    wanted: Wanted,
    root: Seq<char>,
    dir: Seq<char>,
    n: nat,
) -> bool
    decreases n,
{
    if n == 0 {
        dir == root
    } else {
        exists|parent: Seq<char>|
            is_reached(disk, wanted, root, parent, (n - 1) as nat) && #[trigger] is_entered(
                disk,
                wanted,
                parent,
                (n - 1) as nat,
                dir,
            )
    }
}

/// Whether a path is that of a file in a directory that the walk looks for, going
/// by its name.
pub open spec fn is_wanted_in(wanted: Wanted, dir: Seq<char>, path: Seq<char>) -> bool {
    exists|name: Seq<char>|
        is_single(name) && takes(wanted, name, EntryKind::File) && path == #[trigger] joined(
            dir,
            name,
        )
}

/// Whether a path is that of a file that a walk from `root` looks for, in a
/// directory that it comes to.
pub open spec fn is_findable(disk: DiskView, wanted: Wanted, root: Seq<char>, path: Seq<char>) -> bool {
    exists|dir: Seq<char>, n: nat|
        #![trigger is_reached(disk, wanted, root, dir, n), is_wanted_in(wanted, dir, path)]
        is_reached(disk, wanted, root, dir, n) && is_wanted_in(wanted, dir, path)
}

/// Whether one of the entries has the name.
pub open spec fn has_entry(entries: Seq<DirEntry>, name: Seq<char>) -> bool {
    exists|i: int| 0 <= i < entries.len() && (#[trigger] entries[i]).name@ == name
}

/// Whether the entries are those of a directory of the disk, each once. Looking for
/// sources, a walk is told which entries are files; looking for backups, there may
/// be some that are neither a directory nor a file that can be read.
pub open spec fn lists(disk: DiskView, wanted: Wanted, dir: Seq<char>, entries: Seq<DirEntry>) -> bool {
    &&& forall|i: int|
        0 <= i < entries.len() ==> {
            let e = #[trigger] entries[i];
            &&& is_single(e.name@)
            &&& e.path@ == joined(dir, e.name@)
            &&& e.kind == EntryKind::Directory <==> disk.dirs.contains(e.path@)
            &&& wanted == Wanted::RustFiles ==> (e.kind == EntryKind::File
                <==> disk.files.contains_key(e.path@))
        }
    &&& forall|i: int, j: int|
        0 <= i < j < entries.len() ==> (#[trigger] entries[i]).name@ != (#[trigger] entries[j]).name@
    &&& forall|name: Seq<char>|
        is_single(name) && (disk.files.contains_key(#[trigger] joined(dir, name))
            || disk.dirs.contains(joined(dir, name))) ==> has_entry(entries, name)
}

/// The directories that were listed, each with how deep it is.
pub type Listed = Set<(Seq<char>, nat)>;

/// Whether a directory, `n` levels down, is still to be listed.
pub open spec fn is_pending(pending: Seq<(Seq<char>, usize)>, dir: Seq<char>, n: nat) -> bool {
    exists|i: int|
        0 <= i < pending.len() && (#[trigger] pending[i]).0 == dir && pending[i].1 as nat == n
}

/// Whether a walk has missed nothing: what the listed directories lead to is listed
/// or will be, what they hold is found, and nothing else is.
pub open spec fn misses_nothing(
    disk: DiskView,
    wanted: Wanted,
    root: Seq<char>,
    listed: Listed,
    pending: Seq<(Seq<char>, usize)>,
    found: Seq<Seq<char>>,
) -> bool {
    &&& listed.contains((root, 0)) || is_pending(pending, root, 0)
    &&& forall|d: Seq<char>, n: nat| #[trigger]
        listed.contains((d, n)) ==> is_reached(disk, wanted, root, d, n)
    &&& forall|d: Seq<char>, n: nat| #[trigger]
        is_pending(pending, d, n) ==> is_reached(disk, wanted, root, d, n)
    &&& forall|d: Seq<char>, n: nat, dir: Seq<char>|
        listed.contains((d, n)) && #[trigger] is_entered(disk, wanted, d, n, dir)
            ==> listed.contains((dir, n + 1)) || is_pending(pending, dir, n + 1)
    &&& forall|d: Seq<char>, n: nat, path: Seq<char>| #[trigger]
        listed.contains((d, n)) && #[trigger] is_wanted_in(wanted, d, path)
            && disk.files.contains_key(path) ==> found.contains(path)
    &&& forall|path: Seq<char>| #[trigger]
        found.contains(path) ==> is_findable(disk, wanted, root, path) && (wanted
            == Wanted::RustFiles ==> disk.files.contains_key(path))
}

/// Whether a path is that of something in a directory that was listed.
pub open spec fn is_in_listed(listed: Listed, path: Seq<char>) -> bool {
    exists|d: Seq<char>, n: nat, name: Seq<char>|
        #![trigger listed.contains((d, n)), joined(d, name)]
        listed.contains((d, n)) && is_single(name) && path == joined(d, name)
}

/// Whether a walk has nothing twice: no directory is to be listed that was, or that
/// is to be already, and no file is found twice.
pub open spec fn repeats_nothing(
    root: Seq<char>,
    listed: Listed,
    pending: Seq<(Seq<char>, usize)>,
    found: Seq<Seq<char>>,
) -> bool {
    &&& forall|i: int, j: int|
        0 <= i < j < pending.len() ==> (#[trigger] pending[i]).0 != (#[trigger] pending[j]).0
    &&& forall|i: int, n: nat|
        0 <= i < pending.len() ==> !(#[trigger] listed.contains(((#[trigger] pending[i]).0, n)))
    &&& forall|i: int|
        0 <= i < pending.len() ==> (#[trigger] pending[i]).0 == root || is_in_listed(
            listed,
            pending[i].0,
        )
    &&& forall|d: Seq<char>, n: nat| #[trigger]
        listed.contains((d, n)) ==> d == root || is_in_listed(listed, d)
    &&& forall|path: Seq<char>| #[trigger] found.contains(path) ==> is_in_listed(listed, path)
    &&& found.no_duplicates()
}

// ---------------------------------------------------------------------------
// Paths
// ---------------------------------------------------------------------------

/// Whether a path is the root, or one that leads on from it.
spec fn leads_on(root: Seq<char>, dir: Seq<char>) -> bool {
    dir == root || (dir.len() > root.len() && dir.last() != '/')
}

proof fn lemma_single(name: Seq<char>)
    requires
        is_single(name),
    ensures
        !rooted(name),
        name.last() != '/',
{
    assert(name.contains(name[0]));
    assert(name.contains(name[name.len() - 1]));
}

proof fn lemma_child_leads_on(root: Seq<char>, parent: Seq<char>, name: Seq<char>)
    requires
        leads_on(root, parent),
        is_single(name),
    ensures
        leads_on(root, joined(parent, name)),
        joined(parent, name).len() > root.len(),
{
    lemma_single(name);
    reveal_strlit("/");
}

proof fn lemma_reached_leads_on(
    disk: DiskView,
    wanted: Wanted,
    root: Seq<char>,
    dir: Seq<char>,
    n: nat,
)
    requires
        is_reached(disk, wanted, root, dir, n),
    ensures
        leads_on(root, dir),
    decreases n,
{
    if n > 0 {
        let parent = choose|parent: Seq<char>|
            is_reached(disk, wanted, root, parent, (n - 1) as nat) && #[trigger] is_entered(
                disk,
                wanted,
                parent,
                (n - 1) as nat,
                dir,
            );
        lemma_reached_leads_on(disk, wanted, root, parent, (n - 1) as nat);
        let name = choose|name: Seq<char>|
            is_single(name) && enters(wanted, name, n - 1) && dir == #[trigger] joined(
                parent,
                name,
            );
        lemma_child_leads_on(root, parent, name);
    }
}

/// The part of a joined path before the name.
spec fn stem(dir: Seq<char>) -> Seq<char> {
    if dir.len() > 0 && dir.last() != '/' {
        dir + seq!['/']
    } else {
        dir
    }
}

/// Two directories of one tree have no path in common.
proof fn lemma_one_parent(
    root: Seq<char>,
    p: Seq<char>,
    q: Seq<char>,
    a: Seq<char>,
    b: Seq<char>,
)
    requires
        leads_on(root, p),
        leads_on(root, q),
        is_single(a),
        is_single(b),
        joined(p, a) == joined(q, b),
    ensures
        p == q,
        a == b,
{
    reveal_strlit("/");
    lemma_single(a);
    lemma_single(b);
    let whole = joined(p, a);
    assert("/"@ =~= seq!['/']);
    assert(whole =~= stem(p) + a);
    assert(whole =~= stem(q) + b);
    if a.len() < b.len() {
        let i = b.len() - a.len() - 1;
        assert(whole[stem(p).len() - 1] == '/');
        assert(whole[stem(q).len() + i] == b[i]);
        assert(b.contains(b[i]));
    } else if b.len() < a.len() {
        let i = a.len() - b.len() - 1;
        assert(whole[stem(q).len() - 1] == '/');
        assert(whole[stem(p).len() + i] == a[i]);
        assert(a.contains(a[i]));
    }
    assert(a =~= whole.skip(stem(p).len() as int));
    assert(b =~= whole.skip(stem(q).len() as int));
    assert(stem(p) =~= whole.take(stem(p).len() as int));
    assert(stem(q) =~= whole.take(stem(q).len() as int));
    assert(stem(p) == stem(q));
    if p != root && q != root {
        assert(p =~= stem(p).drop_last());
        assert(q =~= stem(q).drop_last());
    } else if p == root && q != root {
        assert(stem(q).len() == q.len() + 1);
    } else if q == root && p != root {
        assert(stem(p).len() == p.len() + 1);
    }
}

// ---------------------------------------------------------------------------
// One directory
// ---------------------------------------------------------------------------

/// Whether a directory among the first `n` entries is one to enter.
spec fn enters_one(
    wanted: Wanted,
    entries: Seq<DirEntry>,
    depth: nat,
    n: int,
    dir: Seq<char>,
) -> bool {
    exists|i: int|
        0 <= i < n && (#[trigger] entries[i]).path@ == dir && entries[i].kind
            == EntryKind::Directory && enters(wanted, entries[i].name@, depth as int)
}

/// Whether a file among the first `n` entries is one to take.
spec fn takes_one(wanted: Wanted, entries: Seq<DirEntry>, n: int, path: Seq<char>) -> bool {
    exists|i: int|
        0 <= i < n && (#[trigger] entries[i]).path@ == path && entries[i].kind
            != EntryKind::Directory && takes(wanted, entries[i].name@, entries[i].kind)
}

proof fn lemma_dirs_after(
    wanted: Wanted,
    pending: Seq<(Seq<char>, usize)>,
    entries: Seq<DirEntry>,
    depth: usize,
    n: int,
    dir: Seq<char>,
    m: nat,
)
    requires
        0 <= n <= entries.len(),
        depth < usize::MAX,
    ensures
        is_pending(dirs_after(wanted, pending, entries, depth, n), dir, m) <==> is_pending(
            pending,
            dir,
            m,
        ) || (m == depth + 1 && enters_one(wanted, entries, depth as nat, n, dir)),
    decreases n,
{
    if n > 0 {
        lemma_dirs_after(wanted, pending, entries, depth, n - 1, dir, m);
        let front = dirs_after(wanted, pending, entries, depth, n - 1);
        let all = dirs_after(wanted, pending, entries, depth, n);
        let e = entries[n - 1];
        if is_pending(front, dir, m) {
            let i = choose|i: int|
                0 <= i < front.len() && (#[trigger] front[i]).0 == dir && front[i].1 as nat == m;
            assert(all[i] == front[i]);
        }
        if e.kind == EntryKind::Directory && enters(wanted, e.name@, depth as int) {
            assert(all[all.len() - 1] == (e.path@, (depth + 1) as usize));
        }
        if is_pending(all, dir, m) {
            let i = choose|i: int|
                0 <= i < all.len() && (#[trigger] all[i]).0 == dir && all[i].1 as nat == m;
            if i < front.len() {
                assert(front[i] == all[i]);
            } else {
                assert(entries[n - 1].path@ == dir);
            }
        }
        if enters_one(wanted, entries, depth as nat, n, dir) {
            let i = choose|i: int|
                0 <= i < n && (#[trigger] entries[i]).path@ == dir && entries[i].kind
                    == EntryKind::Directory && enters(wanted, entries[i].name@, depth as int);
            if i < n - 1 {
                assert(entries[i].path@ == dir);
            }
        }
    }
}

proof fn lemma_found_after(
    wanted: Wanted,
    found: Seq<Seq<char>>,
    entries: Seq<DirEntry>,
    n: int,
    path: Seq<char>,
)
    requires
        0 <= n <= entries.len(),
    ensures
        found_after(wanted, found, entries, n).contains(path) <==> found.contains(path)
            || takes_one(wanted, entries, n, path),
    decreases n,
{
    if n > 0 {
        lemma_found_after(wanted, found, entries, n - 1, path);
        let front = found_after(wanted, found, entries, n - 1);
        let all = found_after(wanted, found, entries, n);
        let e = entries[n - 1];
        if front.contains(path) {
            let i = choose|i: int| 0 <= i < front.len() && front[i] == path;
            assert(all[i] == path);
        }
        if e.kind != EntryKind::Directory && takes(wanted, e.name@, e.kind) {
            assert(all[all.len() - 1] == e.path@);
        }
        if all.contains(path) {
            let i = choose|i: int| 0 <= i < all.len() && all[i] == path;
            if i < front.len() {
                assert(front[i] == path);
            } else {
                assert(entries[n - 1].path@ == path);
            }
        }
        if takes_one(wanted, entries, n, path) {
            let i = choose|i: int|
                0 <= i < n && (#[trigger] entries[i]).path@ == path && entries[i].kind
                    != EntryKind::Directory && takes(wanted, entries[i].name@, entries[i].kind);
            if i < n - 1 {
                assert(entries[i].path@ == path);
            }
        }
    }
}

/// Whether the entries have paths of their own.
spec fn have_own_paths(entries: Seq<DirEntry>) -> bool {
    forall|i: int, j: int|
        0 <= i < j < entries.len() ==> (#[trigger] entries[i]).path@ != (#[trigger] entries[j]).path@
}

proof fn lemma_dirs_stay_distinct(
    wanted: Wanted,
    pending: Seq<(Seq<char>, usize)>,
    entries: Seq<DirEntry>,
    depth: usize,
    n: int,
)
    requires
        0 <= n <= entries.len(),
        depth < usize::MAX,
        have_own_paths(entries),
        forall|i: int, j: int|
            0 <= i < j < pending.len() ==> (#[trigger] pending[i]).0 != (#[trigger] pending[j]).0,
        forall|i: int, j: int|
            0 <= i < pending.len() && 0 <= j < entries.len() ==> (#[trigger] pending[i]).0 != (
            #[trigger] entries[j]).path@,
    ensures
        ({
            let all = dirs_after(wanted, pending, entries, depth, n);
            forall|i: int, j: int| 0 <= i < j < all.len() ==> (#[trigger] all[i]).0 != (
            #[trigger] all[j]).0
        }),
    decreases n,
{
    if n > 0 {
        lemma_dirs_stay_distinct(wanted, pending, entries, depth, n - 1);
        let front = dirs_after(wanted, pending, entries, depth, n - 1);
        let all = dirs_after(wanted, pending, entries, depth, n);
        assert forall|i: int, j: int| 0 <= i < j < all.len() implies (#[trigger] all[i]).0 != (
        #[trigger] all[j]).0 by {
            assert(all[i] == front[i]);
            if j < front.len() {
                assert(all[j] == front[j]);
            } else {
                let (d, m) = (front[i].0, front[i].1 as nat);
                assert(is_pending(front, d, m));
                lemma_dirs_after(wanted, pending, entries, depth, n - 1, d, m);
                if is_pending(pending, d, m) {
                    let k = choose|k: int|
                        0 <= k < pending.len() && (#[trigger] pending[k]).0 == d
                            && pending[k].1 as nat == m;
                    assert(pending[k].0 != entries[n - 1].path@);
                } else {
                    let k = choose|k: int|
                        0 <= k < n - 1 && (#[trigger] entries[k]).path@ == d && entries[k].kind
                            == EntryKind::Directory && enters(
                            wanted,
                            entries[k].name@,
                            depth as int,
                        );
                    assert(entries[k].path@ != entries[n - 1].path@);
                }
            }
        }
    }
}

proof fn lemma_found_stays_distinct(
    wanted: Wanted,
    found: Seq<Seq<char>>,
    entries: Seq<DirEntry>,
    n: int,
)
    requires
        0 <= n <= entries.len(),
        have_own_paths(entries),
        found.no_duplicates(),
        forall|j: int| 0 <= j < entries.len() ==> !found.contains((#[trigger] entries[j]).path@),
    ensures
        found_after(wanted, found, entries, n).no_duplicates(),
    decreases n,
{
    if n > 0 {
        lemma_found_stays_distinct(wanted, found, entries, n - 1);
        let front = found_after(wanted, found, entries, n - 1);
        let path = entries[n - 1].path@;
        assert(!front.contains(path)) by {
            lemma_found_after(wanted, found, entries, n - 1, path);
            if takes_one(wanted, entries, n - 1, path) {
                let k = choose|k: int|
                    0 <= k < n - 1 && (#[trigger] entries[k]).path@ == path && entries[k].kind
                        != EntryKind::Directory && takes(wanted, entries[k].name@, entries[k].kind);
                assert(entries[k].path@ != entries[n - 1].path@);
            }
        }
    }
}

// ---------------------------------------------------------------------------
// A whole walk
// ---------------------------------------------------------------------------

/// A walk misses nothing and repeats nothing at its start.
pub proof fn lemma_walk_begins(disk: DiskView, wanted: Wanted, root: Seq<char>)
    ensures
        misses_nothing(disk, wanted, root, Set::empty(), seq![(root, 0usize)], seq![]),
        repeats_nothing(root, Set::empty(), seq![(root, 0usize)], seq![]),
{
    let pending = seq![(root, 0usize)];
    assert(pending[0].0 == root);
    assert(is_pending(pending, root, 0));
    assert(is_reached(disk, wanted, root, root, 0));
}

/// A walk that takes in the directory it is given next still misses nothing.
pub proof fn lemma_walk_goes_on(
    disk: DiskView,
    wanted: Wanted,
    root: Seq<char>,
    listed: Listed,
    pending: Seq<(Seq<char>, usize)>,
    found: Seq<Seq<char>>,
    entries: Seq<DirEntry>,
)
    requires
        is_disk(disk),
        pending.len() > 0,
        pending.last().1 < usize::MAX,
        lists(disk, wanted, pending.last().0, entries),
        misses_nothing(disk, wanted, root, listed, pending, found),
    ensures
        misses_nothing(
            disk,
            wanted,
            root,
            listed.insert((pending.last().0, pending.last().1 as nat)),
            dirs_after(
                wanted,
                pending.drop_last(),
                entries,
                pending.last().1,
                entries.len() as int,
            ),
            found_after(wanted, found, entries, entries.len() as int),
        ),
{
    let here = pending.last().0;
    let depth = pending.last().1;
    let level = depth as nat;
    let n = entries.len() as int;
    let rest = pending.drop_last();
    let now = listed.insert((here, level));
    let dirs = dirs_after(wanted, rest, entries, depth, n);
    let files = found_after(wanted, found, entries, n);
    assert(pending[pending.len() - 1] == (here, depth));
    assert(is_pending(pending, here, level));
    assert forall|d: Seq<char>, m: nat| is_pending(pending, d, m) implies (d == here && m == level)
        || #[trigger] is_pending(rest, d, m) by {
        let i = choose|i: int|
            0 <= i < pending.len() && (#[trigger] pending[i]).0 == d && pending[i].1 as nat == m;
        if i < rest.len() {
            assert(rest[i] == pending[i]);
        }
    }
    assert forall|d: Seq<char>, m: nat| is_pending(rest, d, m) implies #[trigger] is_pending(
        dirs,
        d,
        m,
    ) by {
        lemma_dirs_after(wanted, rest, entries, depth, n, d, m);
    }
    assert(now.contains((root, 0)) || is_pending(dirs, root, 0)) by {
        if is_pending(pending, root, 0) && !(root == here && level == 0) {
            assert(is_pending(rest, root, 0));
            assert(is_pending(dirs, root, 0));
        }
    }
    assert forall|d: Seq<char>, m: nat| #[trigger] is_pending(dirs, d, m) implies is_reached(
        disk,
        wanted,
        root,
        d,
        m,
    ) by {
        lemma_dirs_after(wanted, rest, entries, depth, n, d, m);
        if is_pending(rest, d, m) {
            let i = choose|i: int|
                0 <= i < rest.len() && (#[trigger] rest[i]).0 == d && rest[i].1 as nat == m;
            assert(pending[i] == rest[i]);
            assert(is_pending(pending, d, m));
        } else {
            let i = choose|i: int|
                0 <= i < n && (#[trigger] entries[i]).path@ == d && entries[i].kind
                    == EntryKind::Directory && enters(wanted, entries[i].name@, level as int);
            assert(d == joined(here, entries[i].name@));
            assert(is_entered(disk, wanted, here, (m - 1) as nat, d));
            assert(is_reached(disk, wanted, root, here, (m - 1) as nat));
        }
    }
    assert forall|d: Seq<char>, m: nat, dir: Seq<char>|
        now.contains((d, m)) && #[trigger] is_entered(disk, wanted, d, m, dir) implies now.contains(
        (dir, m + 1),
    ) || is_pending(dirs, dir, m + 1) by {
        if listed.contains((d, m)) {
            assert(listed.contains((dir, m + 1)) || is_pending(pending, dir, m + 1));
        } else {
            let name = choose|name: Seq<char>|
                is_single(name) && enters(wanted, name, m as int) && dir == #[trigger] joined(
                    d,
                    name,
                );
            assert(has_entry(entries, name));
            let i = choose|i: int| 0 <= i < n && (#[trigger] entries[i]).name@ == name;
            assert(entries[i].path@ == dir);
            assert(enters_one(wanted, entries, level, n, dir));
            lemma_dirs_after(wanted, rest, entries, depth, n, dir, m + 1);
        }
    }
    assert forall|d: Seq<char>, m: nat, path: Seq<char>| #[trigger]
        now.contains((d, m)) && #[trigger] is_wanted_in(wanted, d, path)
            && disk.files.contains_key(path) implies files.contains(path) by {
        lemma_found_after(wanted, found, entries, n, path);
        if listed.contains((d, m)) {
            assert(found.contains(path));
        } else {
            let name = choose|name: Seq<char>|
                is_single(name) && takes(wanted, name, EntryKind::File) && path
                    == #[trigger] joined(d, name);
            assert(has_entry(entries, name));
            let i = choose|i: int| 0 <= i < n && (#[trigger] entries[i]).name@ == name;
            assert(entries[i].path@ == path);
            assert(takes_one(wanted, entries, n, path));
        }
    }
    assert forall|path: Seq<char>| #[trigger] files.contains(path) implies is_findable(
        disk,
        wanted,
        root,
        path,
    ) && (wanted == Wanted::RustFiles ==> disk.files.contains_key(path)) by {
        lemma_found_after(wanted, found, entries, n, path);
        if !found.contains(path) {
            let i = choose|i: int|
                0 <= i < n && (#[trigger] entries[i]).path@ == path && entries[i].kind
                    != EntryKind::Directory && takes(wanted, entries[i].name@, entries[i].kind);
            assert(path == joined(here, entries[i].name@));
            assert(is_wanted_in(wanted, here, path));
            assert(is_reached(disk, wanted, root, here, level));
        }
    }
}

/// A walk that takes in the directory it is given next still repeats nothing.
pub proof fn lemma_walk_repeats_nothing(
    disk: DiskView,
    wanted: Wanted,
    root: Seq<char>,
    listed: Listed,
    pending: Seq<(Seq<char>, usize)>,
    found: Seq<Seq<char>>,
    entries: Seq<DirEntry>,
)
    requires
        pending.len() > 0,
        pending.last().1 < usize::MAX,
        lists(disk, wanted, pending.last().0, entries),
        misses_nothing(disk, wanted, root, listed, pending, found),
        repeats_nothing(root, listed, pending, found),
    ensures
        repeats_nothing(
            root,
            listed.insert((pending.last().0, pending.last().1 as nat)),
            dirs_after(
                wanted,
                pending.drop_last(),
                entries,
                pending.last().1,
                entries.len() as int,
            ),
            found_after(wanted, found, entries, entries.len() as int),
        ),
{
    let here = pending.last().0;
    let depth = pending.last().1;
    let level = depth as nat;
    let n = entries.len() as int;
    let rest = pending.drop_last();
    let now = listed.insert((here, level));
    let dirs = dirs_after(wanted, rest, entries, depth, n);
    let files = found_after(wanted, found, entries, n);
    let last = pending.len() - 1;
    assert(pending[last] == (here, depth));
    assert(is_pending(pending, here, level));
    lemma_reached_leads_on(disk, wanted, root, here, level);
    // What is in a directory listed earlier is not in this one.
    assert forall|j: int| 0 <= j < n implies !is_in_listed(
        listed,
        (#[trigger] entries[j]).path@,
    ) && entries[j].path@ != root by {
        let path = entries[j].path@;
        lemma_child_leads_on(root, here, entries[j].name@);
        if is_in_listed(listed, path) {
            let (d, m, name) = choose|d: Seq<char>, m: nat, name: Seq<char>|
                #![trigger listed.contains((d, m)), joined(d, name)]
                listed.contains((d, m)) && is_single(name) && path == joined(d, name);
            lemma_reached_leads_on(disk, wanted, root, d, m);
            lemma_one_parent(root, d, here, name, entries[j].name@);
            assert(!listed.contains((pending[last].0, m)));
        }
    }
    assert(have_own_paths(entries)) by {
        assert forall|i: int, j: int| 0 <= i < j < entries.len() implies (
        #[trigger] entries[i]).path@ != (#[trigger] entries[j]).path@ by {
            if entries[i].path@ == entries[j].path@ {
                lemma_one_parent(root, here, here, entries[i].name@, entries[j].name@);
            }
        }
    }
    assert forall|path: Seq<char>| is_in_listed(listed, path) implies #[trigger] is_in_listed(
        now,
        path,
    ) by {
        let (d, m, name) = choose|d: Seq<char>, m: nat, name: Seq<char>|
            #![trigger listed.contains((d, m)), joined(d, name)]
            listed.contains((d, m)) && is_single(name) && path == joined(d, name);
        assert(now.contains((d, m)));
    }
    assert forall|j: int| 0 <= j < n implies is_in_listed(now, (#[trigger] entries[j]).path@) by {
        assert(now.contains((here, level)));
        assert(entries[j].path@ == joined(here, entries[j].name@));
    }
    assert forall|i: int, j: int| 0 <= i < rest.len() && 0 <= j < n implies (
    #[trigger] rest[i]).0 != (#[trigger] entries[j]).path@ by {
        assert(rest[i] == pending[i]);
    }
    assert forall|i: int, j: int| 0 <= i < j < rest.len() implies (#[trigger] rest[i]).0 != (
    #[trigger] rest[j]).0 by {
        assert(rest[i] == pending[i] && rest[j] == pending[j]);
    }
    lemma_dirs_stay_distinct(wanted, rest, entries, depth, n);
    lemma_found_stays_distinct(wanted, found, entries, n);
    assert forall|i: int| 0 <= i < dirs.len() implies ({
        let d = (#[trigger] dirs[i]).0;
        &&& d != here
        &&& forall|m: nat| !(#[trigger] listed.contains((d, m)))
        &&& d == root || is_in_listed(now, d)
    }) by {
        let (d, m) = (dirs[i].0, dirs[i].1 as nat);
        assert(is_pending(dirs, d, m));
        lemma_dirs_after(wanted, rest, entries, depth, n, d, m);
        if is_pending(rest, d, m) {
            let k = choose|k: int|
                0 <= k < rest.len() && (#[trigger] rest[k]).0 == d && rest[k].1 as nat == m;
            assert(pending[k] == rest[k]);
            assert(pending[k].0 != pending[last].0);
        } else {
            let k = choose|k: int|
                0 <= k < n && (#[trigger] entries[k]).path@ == d && entries[k].kind
                    == EntryKind::Directory && enters(wanted, entries[k].name@, level as int);
            assert(!is_in_listed(listed, entries[k].path@));
            assert(is_in_listed(now, entries[k].path@));
            assert(pending[last].0 == root || is_in_listed(listed, pending[last].0));
        }
    }
    assert forall|i: int, m: nat| 0 <= i < dirs.len() implies !(#[trigger] now.contains(
        ((#[trigger] dirs[i]).0, m),
    )) by {
        assert(!listed.contains((dirs[i].0, m)));
    }
    assert forall|path: Seq<char>| #[trigger] files.contains(path) implies is_in_listed(
        now,
        path,
    ) by {
        lemma_found_after(wanted, found, entries, n, path);
        if found.contains(path) {
            assert(is_in_listed(listed, path));
        } else {
            let k = choose|k: int|
                0 <= k < n && (#[trigger] entries[k]).path@ == path && entries[k].kind
                    != EntryKind::Directory && takes(wanted, entries[k].name@, entries[k].kind);
            assert(is_in_listed(now, entries[k].path@));
        }
    }
}

proof fn lemma_reached_is_listed(
    disk: DiskView,
    wanted: Wanted,
    root: Seq<char>,
    listed: Listed,
    found: Seq<Seq<char>>,
    dir: Seq<char>,
    n: nat,
)
    requires
        misses_nothing(disk, wanted, root, listed, seq![], found),
        is_reached(disk, wanted, root, dir, n),
    ensures
        listed.contains((dir, n)),
    decreases n,
{
    let none: Seq<(Seq<char>, usize)> = seq![];
    assert(forall|d: Seq<char>, m: nat| !is_pending(none, d, m));
    if n > 0 {
        let m = (n - 1) as nat;
        let parent = choose|parent: Seq<char>|
            is_reached(disk, wanted, root, parent, m) && #[trigger] is_entered(
                disk,
                wanted,
                parent,
                m,
                dir,
            );
        lemma_reached_is_listed(disk, wanted, root, listed, found, parent, m);
        assert(listed.contains((dir, m + 1)) || is_pending(none, dir, m + 1));
    }
}

/// A walk that has listed every directory it came to has found every file it looks
/// for, and nothing that is not named as one.
pub proof fn lemma_walk_finds_everything(
    disk: DiskView,
    wanted: Wanted,
    root: Seq<char>,
    listed: Listed,
    found: Seq<Seq<char>>,
)
    requires
        misses_nothing(disk, wanted, root, listed, seq![], found),
    ensures
        forall|path: Seq<char>| #[trigger]
            disk.files.contains_key(path) ==> (found.contains(path) <==> is_findable(
                disk,
                wanted,
                root,
                path,
            )),
{
    assert forall|path: Seq<char>| #[trigger] disk.files.contains_key(path) && is_findable(
        disk,
        wanted,
        root,
        path,
    ) implies found.contains(path) by {
        let (dir, n) = choose|dir: Seq<char>, n: nat|
            #![trigger is_reached(disk, wanted, root, dir, n), is_wanted_in(wanted, dir, path)]
            is_reached(disk, wanted, root, dir, n) && is_wanted_in(wanted, dir, path);
        lemma_reached_is_listed(disk, wanted, root, listed, found, dir, n);
    }
}

/// Sorting keeps the paths, and repeats none.
pub proof fn lemma_sorting_keeps_paths(paths: Seq<Seq<char>>)
    ensures
        forall|p: Seq<char>| #[trigger] sorted_paths(paths).contains(p) <==> paths.contains(p),
        paths.no_duplicates() ==> sorted_paths(paths).no_duplicates(),
        paths_in_order(sorted_paths(paths)),
{
    broadcast use vstd::seq_lib::group_to_multiset_ensures;

    let sorted = sorted_paths(paths);
    lemma_sorted_paths(paths);
    assert forall|p: Seq<char>| #[trigger] sorted.contains(p) <==> paths.contains(p) by {
        assert(sorted.contains(p) <==> sorted.to_multiset().count(p) > 0);
        assert(paths.contains(p) <==> paths.to_multiset().count(p) > 0);
    }
    if paths.no_duplicates() {
        paths.lemma_multiset_has_no_duplicates();
        sorted.lemma_multiset_has_no_duplicates_conv();
    }
}

/// No source is looked for more than [`MAX_DEPTH`] levels down.
pub proof fn lemma_sources_are_not_far(
    disk: DiskView,
    root: Seq<char>,
    dir: Seq<char>,
    n: nat,
)
    requires
        is_reached(disk, Wanted::RustFiles, root, dir, n),
    ensures
        n <= MAX_DEPTH,
{
}

/// Listing a crate's sources gives exactly the `.rs` files in the directories that a
/// walk comes to, at most [`MAX_DEPTH`] levels down, each once and in path order.
pub proof fn lemma_every_source_is_listed_once(
    disk: DiskView,
    root: Seq<char>,
    listed: Listed,
    found: Seq<Seq<char>>,
)
    requires
        misses_nothing(disk, Wanted::RustFiles, root, listed, seq![], found),
        repeats_nothing(root, listed, seq![], found),
    ensures
        forall|path: Seq<char>| #[trigger]
            sorted_paths(found).contains(path) <==> disk.files.contains_key(path) && is_findable(
                disk,
                Wanted::RustFiles,
                root,
                path,
            ),
        sorted_paths(found).no_duplicates(),
        paths_in_order(sorted_paths(found)),
{
    lemma_walk_finds_everything(disk, Wanted::RustFiles, root, listed, found);
    lemma_sorting_keeps_paths(found);
    assert forall|path: Seq<char>| #[trigger] sorted_paths(found).contains(path)
        <==> disk.files.contains_key(path) && is_findable(
        disk,
        Wanted::RustFiles,
        root,
        path,
    ) by {
        assert(sorted_paths(found).contains(path) <==> found.contains(path));
    }
}

} // verus!
