//! What the commands decide: which holes are worked on, what becomes of each
//! answer, and what is said about it.
use vstd::prelude::*;

use crate::cargo_check::{cargo_of, CargoEnv, ProberOptions};
use crate::groups::{add_member, group_views, grouped, FileGroup};
use crate::hole::{hole_views, location_of, Hole, HoleView};
use crate::order::{order_of, sort_positions, Key};
use crate::path::{file_name, file_name_of, is_below, join, joined, strip_prefix};
use crate::prober::DEFAULT_LOCK_WAIT;
use crate::storage::{patch_dir_of, PATCH_DIR, STORE_DIR};
use crate::text::{
    decimal_of, decimal_usize, ends, ends_with, join as join_texts, join_of, opt_str_view, opt_view,
    owned, same, views,
};
use crate::util::{display_rel_path, shown_path};

verus! {

// ---------------------------------------------------------------------------
// Arguments
// ---------------------------------------------------------------------------

/// The command line without the `hole` that cargo puts in when it runs
/// `cargo-hole` as a subcommand.
pub open spec fn without_subcommand(args: Seq<Seq<char>>) -> Seq<Seq<char>> {
    if args.len() > 1 && args[1] == "hole"@ {
        args.remove(1)
    } else {
        args
    }
}

/// The command line, whether it was run as `cargo hole` or `cargo-hole`.
pub fn cargo_subcommand_argv(args: Vec<String>) -> (r: Vec<String>)
    ensures
        views(r@) == without_subcommand(views(args@)),
{
    let mut args = args;
    let ghost before = args@;
    if args.len() > 1 && same(args[1].as_str(), "hole") {
        args.remove(1);
        proof {
            assert(views(args@) =~= views(before).remove(1));
        }
    }
    args
}

/// The first position from `i` on that holds the separator.
pub open spec fn separator(args: Seq<Seq<char>>, i: int) -> Option<int>
    decreases args.len() - i,
{
    if i >= args.len() {
        None
    } else if args[i] == "--"@ {
        Some(i)
    } else {
        separator(args, i + 1)
    }
}

/// The trailing arguments of `run`: cargo's, and the program's. Those after a
/// separator among the first come before those after a second one.
pub open spec fn split_arguments(before: Seq<Seq<char>>, after: Seq<Seq<char>>) -> (
    Seq<Seq<char>>,
    Seq<Seq<char>>,
) {
    match separator(before, 0) {
        Some(at) => (before.take(at), before.skip(at + 1) + after),
        None => (before, after),
    }
}

/// What `cargo run` is handed: its own arguments, and the program's behind a
/// separator of their own.
pub open spec fn forwarded_arguments(
    cargo: Seq<Seq<char>>,
    program: Seq<Seq<char>>,
) -> Seq<Seq<char>> {
    if program.len() == 0 {
        cargo
    } else {
        cargo + seq!["--"@] + program
    }
}

/// The trailing arguments of `run`.
#[derive(Debug)]
pub struct RunArgs {
    /// Flags for `cargo run`, up to an explicit `--`.
    pub before_separator: Vec<String>,
    /// Arguments for the program itself.
    pub after_separator: Vec<String>,
}

fn push_all(out: &mut Vec<String>, more: &Vec<String>, from: usize)
    requires
        from <= more@.len(),
    ensures
        views(final(out)@) == views(old(out)@) + views(more@).skip(from as int),
{
    let ghost before = views(out@);
    let mut i: usize = from;
    proof {
        assert(before + views(more@).subrange(from as int, from as int) =~= before);
    }
    while i < more.len()
        invariant
            from <= i <= more@.len(),
            views(out@) == before + views(more@).subrange(from as int, i as int),
        decreases more.len() - i,
    {
        let one = more[i].clone();
        proof {
            assert(views(out@.push(one)) =~= views(out@).push(one@));
            assert(before + views(more@).subrange(from as int, i + 1) =~= (before + views(
                more@,
            ).subrange(from as int, i as int)).push(one@));
        }
        out.push(one);
        i = i + 1;
    }
    proof {
        assert(views(more@).subrange(from as int, more@.len() as int) =~= views(more@).skip(
            from as int,
        ));
    }
}

impl RunArgs {
    /// Split the trailing arguments into cargo flags and program arguments.
    pub fn split(&self) -> (r: (Vec<String>, Vec<String>))
        ensures
            (views(r.0@), views(r.1@)) == split_arguments(
                views(self.before_separator@),
                views(self.after_separator@),
            ),
    {
        let before = &self.before_separator;
        let ghost all = views(before@);
        let n: usize = before.len();
        let mut at: usize = 0;
        while at < n && !same(before[at].as_str(), "--")
            invariant
                at <= n,
                n == before@.len(),
                all == views(before@),
                all.len() == n,
                separator(all, 0) == separator(all, at as int),
            decreases n - at,
        {
            proof {
                assert(all[at as int] == before@[at as int]@);
            }
            at = at + 1;
        }
        let mut cargo: Vec<String> = Vec::new();
        let mut i: usize = 0;
        while i < at
            invariant
                i <= at <= n,
                n == before@.len(),
                all == views(before@),
                views(cargo@) == all.take(i as int),
            decreases at - i,
        {
            let one = before[i].clone();
            proof {
                assert(views(cargo@.push(one)) =~= views(cargo@).push(one@));
                assert(all.take(i + 1) =~= all.take(i as int).push(one@));
            }
            cargo.push(one);
            i = i + 1;
        }
        let mut program: Vec<String> = Vec::new();
        proof {
            assert(views(program@) =~= Seq::<Seq<char>>::empty());
            if at < n {
                assert(all[at as int] == before@[at as int]@);
            } else {
                assert(all.take(at as int) =~= all);
            }
        }
        if at < n {
            push_all(&mut program, before, at + 1);
        }
        push_all(&mut program, &self.after_separator, 0);
        proof {
            let after = views(self.after_separator@);
            assert(after.skip(0) =~= after);
            if at < n {
                assert(views(program@) =~= all.skip(at + 1) + after);
            } else {
                assert(views(program@) =~= after);
            }
        }
        (cargo, program)
    }

    /// What `cargo run` is handed.
    pub fn forwarded(&self) -> (r: Vec<String>)
        ensures
            ({
                let (cargo, program) = split_arguments(
                    views(self.before_separator@),
                    views(self.after_separator@),
                );
                views(r@) == forwarded_arguments(cargo, program)
            }),
    {
        let (cargo, program) = self.split();
        let mut out = cargo;
        if program.len() > 0 {
            let ghost before = views(out@);
            let sep = owned("--");
            proof {
                assert(views(out@.push(sep)) =~= before + seq!["--"@]);
                assert(views(program@).skip(0) =~= views(program@));
            }
            out.push(sep);
            push_all(&mut out, &program, 0);
        } else {
            proof {
                assert(views(program@).len() == 0);
            }
        }
        out
    }
}

/// No argument is lost or invented on the way to cargo: taken together, cargo's
/// and the program's are what was written, without the separator.
pub proof fn lemma_arguments_are_kept(before: Seq<Seq<char>>, after: Seq<Seq<char>>)
    ensures
        ({
            let (cargo, program) = split_arguments(before, after);
            match separator(before, 0) {
                Some(at) => cargo + seq!["--"@] + program == before + after && 0 <= at
                    < before.len(),
                None => cargo + program == before + after,
            }
        }),
{
    lemma_separator(before, 0);
    let (cargo, program) = split_arguments(before, after);
    if let Some(at) = separator(before, 0) {
        assert(cargo + seq!["--"@] + program =~= before + after);
    }
}

proof fn lemma_separator(args: Seq<Seq<char>>, i: int)
    requires
        0 <= i,
    ensures
        separator(args, i) matches Some(at) ==> i <= at < args.len() && args[at] == "--"@,
    decreases args.len() - i,
{
    if i < args.len() {
        lemma_separator(args, i + 1);
    }
}

// ---------------------------------------------------------------------------
// Which holes
// ---------------------------------------------------------------------------

/// Whether a hole is asked for: its file has the name given, if one is.
pub open spec fn is_asked_for(h: HoleView, file: Option<Seq<char>>) -> bool {
    match file {
        Some(name) => file_name_of(h.file) == Some(name),
        None => true,
    }
}

/// Whether a hole can be filled at all.
pub open spec fn is_fillable(h: HoleView) -> bool {
    !h.pinned && h.unresolvable is None
}

/// The holes that are asked for, in order.
pub open spec fn asked_for(holes: Seq<HoleView>, file: Option<Seq<char>>) -> Seq<HoleView>
    decreases holes.len(),
{
    if holes.len() == 0 {
        seq![]
    } else {
        let front = asked_for(holes.drop_last(), file);
        if is_asked_for(holes.last(), file) {
            front.push(holes.last())
        } else {
            front
        }
    }
}

/// The holes that can be filled, in order.
pub open spec fn fillable(holes: Seq<HoleView>) -> Seq<HoleView>
    decreases holes.len(),
{
    if holes.len() == 0 {
        seq![]
    } else {
        let front = fillable(holes.drop_last());
        if is_fillable(holes.last()) {
            front.push(holes.last())
        } else {
            front
        }
    }
}

/// The holes in a file of the given name, or all of them. The name has to match
/// exactly; it is no path.
pub fn select_holes(holes: &Vec<Hole>, file: Option<&str>) -> (r: Vec<Hole>)
    ensures
        hole_views(r@) == asked_for(hole_views(holes@), opt_str_view(file)),
{
    let ghost all = hole_views(holes@);
    let mut out: Vec<Hole> = Vec::new();
    let mut i: usize = 0;
    proof {
        assert(all.take(0) =~= Seq::<HoleView>::empty());
        assert(hole_views(out@) =~= Seq::<HoleView>::empty());
    }
    while i < holes.len()
        invariant
            i <= holes@.len(),
            all == hole_views(holes@),
            hole_views(out@) == asked_for(all.take(i as int), opt_str_view(file)),
        decreases holes.len() - i,
    {
        let h = &holes[i];
        proof {
            assert(all.take(i + 1).drop_last() =~= all.take(i as int));
            assert(all.take(i + 1).last() == h@);
        }
        let keep = match file {
            None => true,
            Some(name) => match file_name(h.file.as_str()) {
                Some(n) => same(n.as_str(), name),
                None => false,
            },
        };
        if keep {
            let copy = h.clone();
            proof {
                assert(hole_views(out@.push(copy)) =~= hole_views(out@).push(h@));
            }
            out.push(copy);
        }
        i = i + 1;
    }
    proof {
        assert(all.take(holes@.len() as int) =~= all);
    }
    out
}

/// The holes that are worth probing: a pinned hole is never regenerated, and an
/// unresolvable one is never patched, so neither needs a type.
pub fn needs_probe(holes: &Vec<Hole>) -> (r: Vec<Hole>)
    ensures
        hole_views(r@) == fillable(hole_views(holes@)),
{
    let ghost all = hole_views(holes@);
    let mut out: Vec<Hole> = Vec::new();
    let mut i: usize = 0;
    proof {
        assert(all.take(0) =~= Seq::<HoleView>::empty());
        assert(hole_views(out@) =~= Seq::<HoleView>::empty());
    }
    while i < holes.len()
        invariant
            i <= holes@.len(),
            all == hole_views(holes@),
            hole_views(out@) == fillable(all.take(i as int)),
        decreases holes.len() - i,
    {
        let h = &holes[i];
        proof {
            assert(all.take(i + 1).drop_last() =~= all.take(i as int));
            assert(all.take(i + 1).last() == h@);
        }
        if !h.pinned && h.unresolvable.is_none() {
            let copy = h.clone();
            proof {
                assert(hole_views(out@.push(copy)) =~= hole_views(out@).push(h@));
            }
            out.push(copy);
        }
        i = i + 1;
    }
    proof {
        assert(all.take(holes@.len() as int) =~= all);
    }
    out
}

/// The files of some holes.
pub open spec fn files_of(holes: Seq<HoleView>) -> Seq<Seq<char>> {
    Seq::new(holes.len(), |i: int| holes[i].file)
}

/// All positions of a list, in order.
pub open spec fn positions(n: nat) -> Seq<usize> {
    Seq::new(n, |i: int| i as usize)
}

/// The holes by file, so each file is read and written once.
pub fn group_by_file(holes: &Vec<Hole>) -> (r: Vec<FileGroup>)
    ensures
        group_views(r@) == grouped(files_of(hole_views(holes@)), positions(holes@.len())),
{
    let ghost files = files_of(hole_views(holes@));
    let ghost all = positions(holes@.len());
    let mut groups: Vec<FileGroup> = Vec::new();
    let mut i: usize = 0;
    proof {
        assert(all.take(0) =~= Seq::<usize>::empty());
        assert(group_views(groups@) =~= Seq::<(Seq<char>, Seq<usize>)>::empty());
    }
    while i < holes.len()
        invariant
            i <= holes@.len(),
            files == files_of(hole_views(holes@)),
            all == positions(holes@.len()),
            group_views(groups@) == grouped(files, all.take(i as int)),
        decreases holes.len() - i,
    {
        proof {
            assert(all.take(i + 1).drop_last() =~= all.take(i as int));
            assert(all.take(i + 1).last() == i);
            assert(files[i as int] == holes@[i as int].file@);
        }
        add_member(&mut groups, holes[i].file.as_str(), i);
        i = i + 1;
    }
    proof {
        assert(all.take(holes@.len() as int) =~= all);
    }
    groups
}

/// Positions sorted by where their holes start.
pub open spec fn start_keys(holes: Seq<HoleView>, members: Seq<usize>) -> Seq<Key> {
    Seq::new(members.len(), |k: int| (holes[members[k] as int].byte_start, 0usize, 0usize))
}

/// The holes of a file from top to bottom.
pub open spec fn top_to_bottom(holes: Seq<HoleView>, members: Seq<usize>) -> Seq<HoleView> {
    let order = order_of(start_keys(holes, members));
    Seq::new(order.len(), |k: int| holes[members[order[k] as int] as int])
}

/// The holes of a file from top to bottom.
pub fn holes_of_file(holes: &Vec<Hole>, members: &Vec<usize>) -> (r: Vec<Hole>)
    requires
        forall|k: int| 0 <= k < members@.len() ==> #[trigger] members@[k] < holes@.len(),
    ensures
        hole_views(r@) == top_to_bottom(hole_views(holes@), members@),
{
    let ghost all = hole_views(holes@);
    let mut keys: Vec<Key> = Vec::new();
    let mut k: usize = 0;
    while k < members.len()
        invariant
            k <= members@.len(),
            all == hole_views(holes@),
            forall|j: int| 0 <= j < members@.len() ==> #[trigger] members@[j] < holes@.len(),
            keys@ == start_keys(all, members@).take(k as int),
        decreases members.len() - k,
    {
        proof {
            assert(members@[k as int] < holes@.len());
            assert(start_keys(all, members@).take(k + 1) =~= start_keys(all, members@).take(
                k as int,
            ).push(start_keys(all, members@)[k as int]));
        }
        keys.push((holes[members[k]].byte_start, 0, 0));
        k = k + 1;
    }
    proof {
        assert(keys@ =~= start_keys(all, members@));
    }
    let order = sort_positions(&keys);
    let ghost sorted = top_to_bottom(all, members@);
    let mut out: Vec<Hole> = Vec::new();
    let mut k: usize = 0;
    while k < order.len()
        invariant
            k <= order@.len(),
            order@.len() == members@.len(),
            order@ == order_of(start_keys(all, members@)),
            all == hole_views(holes@),
            sorted == top_to_bottom(all, members@),
            forall|j: int| 0 <= j < members@.len() ==> #[trigger] members@[j] < holes@.len(),
            forall|j: int| 0 <= j < order@.len() ==> #[trigger] order@[j] < members@.len(),
            hole_views(out@) == sorted.take(k as int),
        decreases order.len() - k,
    {
        proof {
            assert(order@[k as int] < members@.len());
            assert(members@[order@[k as int] as int] < holes@.len());
        }
        let copy = holes[members[order[k]]].clone();
        proof {
            assert(hole_views(out@.push(copy)) =~= hole_views(out@).push(copy@));
            assert(sorted.take(k + 1) =~= sorted.take(k as int).push(copy@));
        }
        out.push(copy);
        k = k + 1;
    }
    proof {
        assert(sorted.take(order@.len() as int) =~= sorted);
    }
    out
}

/// What `list --fail-on-unelaborated` fails with: any hole that is listed.
pub fn unelaborated_error(fail_on_unelaborated: bool, count: usize) -> (r: Option<String>)
    ensures
        match r {
            Some(m) => fail_on_unelaborated && count > 0 && m@ == decimal_of(count as nat)
                + " unelaborated hole(s) present and --fail-on-unelaborated was given"@,
            None => !fail_on_unelaborated || count == 0,
        },
{
    if !fail_on_unelaborated || count == 0 {
        return None;
    }
    let mut m = decimal_usize(count);
    m.push_str(" unelaborated hole(s) present and --fail-on-unelaborated was given");
    Some(m)
}

/// Prober and gate options for one run.
///
/// Built here rather than inside either of them so that `fill`'s `--timeout`
/// governs the probing check, the compile gate check, and the re-checks after a
/// rejection alike. Environment overrides still apply.
pub fn prober_options(env: &CargoEnv, timeout: u64) -> (r: ProberOptions)
    ensures
        r.timeout == timeout,
        r.cargo@ == cargo_of(opt_view(env.cargo)),
        r.offline == env.offline,
        r.target_dir == env.target_dir,
        r.cargo_home == env.cargo_home,
        r.lock_wait == DEFAULT_LOCK_WAIT,
{
    let mut options = ProberOptions::from_env(env);
    options.timeout = timeout;
    options
}

// ---------------------------------------------------------------------------
// What `fill` says
// ---------------------------------------------------------------------------

/// What is said when there is nothing to fill.
pub fn no_holes_text(root: &str) -> (r: String)
    ensures
        r@ == "no holes found in "@ + shown_path(root@, root@),
{
    let mut m = owned("no holes found in ");
    m.push_str(display_rel_path(root, root).as_str());
    m
}

/// The header of a run, which names the agent actually in use.
pub fn filling_text(count: usize, root: &str, agent: &str) -> (r: String)
    ensures
        r@ == "filling "@ + decimal_of(count as nat) + " hole(s) in "@ + shown_path(root@, root@)
            + " using "@ + agent@,
{
    let mut m = owned("filling ");
    m.push_str(decimal_usize(count).as_str());
    m.push_str(" hole(s) in ");
    m.push_str(display_rel_path(root, root).as_str());
    m.push_str(" using ");
    m.push_str(agent);
    m
}

/// What is said before the holes are probed together, if they are: a single hole
/// is left to be probed on its own. The file count is how many `cargo check`
/// runs this is about to cost.
pub fn probing_text(no_probe: bool, needs_probe: &Vec<Hole>) -> (r: Option<String>)
    ensures
        match r {
            Some(m) => !no_probe && needs_probe@.len() >= 2 && m@ == "probing "@ + decimal_of(
                needs_probe@.len(),
            ) + " hole(s) in "@ + decimal_of(
                grouped(
                    files_of(hole_views(needs_probe@)),
                    positions(needs_probe@.len()),
                ).len(),
            ) + " file(s) for expected types"@,
            None => no_probe || needs_probe@.len() < 2,
        },
{
    if no_probe || needs_probe.len() < 2 {
        return None;
    }
    let groups = group_by_file(needs_probe);
    proof {
        assert(group_views(groups@).len() == groups@.len());
    }
    let mut m = owned("probing ");
    m.push_str(decimal_usize(needs_probe.len()).as_str());
    m.push_str(" hole(s) in ");
    m.push_str(decimal_usize(groups.len()).as_str());
    m.push_str(" file(s) for expected types");
    Some(m)
}

/// The warning about a hole that could not be filled.
pub open spec fn skipped_text(hole: HoleView, error: Seq<char>) -> Seq<char> {
    "warning: skipping "@ + location_of(hole) + ": "@ + error
}

/// The warning about a hole that could not be filled.
pub fn skipping_text(hole: &Hole, error: &str) -> (r: String)
    ensures
        r@ == skipped_text(hole@, error@),
{
    let mut m = owned("warning: skipping ");
    m.push_str(hole.location().as_str());
    m.push_str(": ");
    m.push_str(error);
    m
}

// ---------------------------------------------------------------------------
// What `build` and `run` say
// ---------------------------------------------------------------------------

/// What went into a build tree.
#[derive(Debug, Clone, Copy)]
pub struct SyncStats {
    /// Files written because they were missing or differed.
    pub copied: usize,
    /// Files left alone because they already matched.
    pub reused: usize,
    /// Generated files laid over the copy.
    pub artifacts: usize,
    /// Those of them that are links rather than copies.
    pub linked: usize,
    /// Holes still unelaborated in the tree.
    pub holes_left: usize,
}

/// Name of the directory inside [`STORE_DIR`] that a build tree is assembled in
/// unless told otherwise.
pub const BUILD_DIR: &'static str = "build";

/// Where the build tree is assembled. It has to be somewhere the crate root is
/// not inside, because `--clean` deletes it.
pub fn build_dir(root: &str, given: Option<&str>) -> (r: Result<String, String>)
    ensures
        ({
            let dir = match opt_str_view(given) {
                Some(d) => d,
                None => joined(joined(root@, STORE_DIR@), BUILD_DIR@),
            };
            match r {
                Ok(d) => !is_below(root@, dir) && d@ == dir,
                Err(m) => is_below(root@, dir) && m@ == "the build directory "@ + dir
                    + " contains the crate root "@ + root@,
            }
        }),
{
    let dir = match given {
        Some(d) => owned(d),
        None => join(join(root, STORE_DIR).as_str(), BUILD_DIR),
    };
    match strip_prefix(root, dir.as_str()) {
        Some(_) => {
            let mut m = owned("the build directory ");
            m.push_str(dir.as_str());
            m.push_str(" contains the crate root ");
            m.push_str(root);
            Err(m)
        },
        None => Ok(dir),
    }
}

/// Whether a file of the store is generated code that no build reads: Rust source
/// that is neither below `patch/` nor in a build tree.
pub open spec fn is_stranded(root: Seq<char>, dir: Seq<char>, file: Seq<char>) -> bool {
    let store = joined(root, STORE_DIR@);
    &&& ends(file, ".rs"@)
    &&& !is_below(file, patch_dir_of(store))
    &&& !is_below(file, joined(store, BUILD_DIR@))
    &&& !is_below(file, dir)
}

/// The first file from `i` on that is generated code no build reads.
pub open spec fn first_stranded(
    root: Seq<char>,
    dir: Seq<char>,
    files: Seq<Seq<char>>,
    i: int,
) -> Option<Seq<char>>
    decreases files.len() - i,
{
    if i >= files.len() {
        None
    } else if is_stranded(root, dir, files[i]) {
        Some(files[i])
    } else {
        first_stranded(root, dir, files, i + 1)
    }
}

/// Why no build is made while generated code stands at `file`.
pub open spec fn stranded_text(root: Seq<char>, file: Seq<char>) -> Seq<char> {
    shown_path(root, file) + " is generated code that no build reads; move it below "@ + shown_path(
        root,
        patch_dir_of(joined(root, STORE_DIR@)),
    ) + " or delete it"@
}

/// Refuse to build while the store, of which `files` are the files, holds
/// generated code outside `patch/`, such as an older `.cargo-hole/src/`. Building
/// without it would compile perfectly and quietly run with every hole
/// unimplemented.
pub fn refuse_stranded(root: &str, dir: &str, files: &Vec<String>) -> (r: Result<(), String>)
    ensures
        match r {
            Ok(()) => first_stranded(root@, dir@, views(files@), 0) is None,
            Err(m) => first_stranded(root@, dir@, views(files@), 0) is Some && m@ == stranded_text(
                root@,
                first_stranded(root@, dir@, views(files@), 0)->0,
            ),
        },
{
    let store = join(root, STORE_DIR);
    let patch = join(store.as_str(), PATCH_DIR);
    let build = join(store.as_str(), BUILD_DIR);
    let ghost all = views(files@);
    let mut i: usize = 0;
    while i < files.len()
        invariant
            i <= files@.len(),
            all == views(files@),
            patch@ == patch_dir_of(joined(root@, STORE_DIR@)),
            build@ == joined(joined(root@, STORE_DIR@), BUILD_DIR@),
            first_stranded(root@, dir@, all, 0) == first_stranded(root@, dir@, all, i as int),
        decreases files.len() - i,
    {
        let file = files[i].as_str();
        proof {
            assert(all[i as int] == file@);
        }
        if ends_with(file, ".rs") && strip_prefix(file, patch.as_str()).is_none() && strip_prefix(
            file,
            build.as_str(),
        ).is_none() && strip_prefix(file, dir).is_none() {
            let mut m = display_rel_path(root, file);
            m.push_str(" is generated code that no build reads; move it below ");
            m.push_str(display_rel_path(root, patch.as_str()).as_str());
            m.push_str(" or delete it");
            return Err(m);
        }
        i = i + 1;
    }
    Ok(())
}

/// What is said after `--clean` deleted the build tree.
pub fn removed_text(root: &str, dir: &str) -> (r: String)
    ensures
        r@ == "removed "@ + shown_path(root@, dir@),
{
    let mut m = owned("removed ");
    m.push_str(display_rel_path(root, dir).as_str());
    m
}

/// What is said about an assembled build tree.
pub open spec fn assembled(root: Seq<char>, dir: Seq<char>, stats: SyncStats) -> Seq<char> {
    "assembled "@ + shown_path(root, dir) + " at "@ + dir + " ("@ + decimal_of(
        stats.copied as nat,
    ) + " file(s) copied, "@ + decimal_of(stats.reused as nat) + " reused, "@ + decimal_of(
        stats.artifacts as nat,
    ) + " artifact(s) overlaid)"@
}

/// What is said about an assembled build tree.
pub fn assembled_text(root: &str, dir: &str, stats: &SyncStats) -> (r: String)
    ensures
        r@ == assembled(root@, dir@, *stats),
{
    let mut m = owned("assembled ");
    m.push_str(display_rel_path(root, dir).as_str());
    m.push_str(" at ");
    m.push_str(dir);
    m.push_str(" (");
    m.push_str(decimal_usize(stats.copied).as_str());
    m.push_str(" file(s) copied, ");
    m.push_str(decimal_usize(stats.reused).as_str());
    m.push_str(" reused, ");
    m.push_str(decimal_usize(stats.artifacts).as_str());
    m.push_str(" artifact(s) overlaid)");
    m
}

/// The note that the paths rustc reports are the generated code, where they are:
/// rustc reports errors against paths inside the build tree, and when those are
/// links a user can edit them without losing the edit.
pub fn link_note(root: &str, stats: &SyncStats, dry_run: bool) -> (r: Option<String>)
    ensures
        match r {
            Some(m) => stats.linked > 0 && !dry_run && m@ == "note: "@ + decimal_of(
                stats.linked as nat,
            ) + " artifact(s) are linked into "@ + shown_path(
                root@,
                patch_dir_of(joined(root@, STORE_DIR@)),
            )
                + ", so edits to the paths rustc reports are edits to the generated code"@,
            None => stats.linked == 0 || dry_run,
        },
{
    if stats.linked == 0 || dry_run {
        return None;
    }
    let dir = join(join(root, STORE_DIR).as_str(), PATCH_DIR);
    let mut m = owned("note: ");
    m.push_str(decimal_usize(stats.linked).as_str());
    m.push_str(" artifact(s) are linked into ");
    m.push_str(display_rel_path(root, dir.as_str()).as_str());
    m.push_str(", so edits to the paths rustc reports are edits to the generated code");
    Some(m)
}

/// The warning about holes that are still open in the build tree. Said out loud
/// because its absence is invisible: `todo!()` has type `!`, so an unfilled hole
/// compiles and the build would look like success.
pub fn open_holes_warning(stats: &SyncStats) -> (r: Option<String>)
    ensures
        match r {
            Some(m) => stats.holes_left > 0 && m@ == "warning: "@ + decimal_of(
                stats.holes_left as nat,
            ) + " hole(s) are still unelaborated in the build tree; "@ + (if stats.artifacts == 0 {
                "run `cargo hole fill` first"@
            } else {
                "those holes are still `todo!()`, so this build does not exercise them"@
            }),
            None => stats.holes_left == 0,
        },
{
    if stats.holes_left == 0 {
        return None;
    }
    let mut m = owned("warning: ");
    m.push_str(decimal_usize(stats.holes_left).as_str());
    m.push_str(" hole(s) are still unelaborated in the build tree; ");
    if stats.artifacts == 0 {
        m.push_str("run `cargo hole fill` first");
    } else {
        m.push_str("those holes are still `todo!()`, so this build does not exercise them");
    }
    Some(m)
}

/// What `build --dry-run` says it would do.
pub fn would_build_text(cargo: &str, arguments: &Vec<String>, dir: &str) -> (r: String)
    ensures
        r@ == "\nwould run `"@ + cargo@ + " build "@ + join_of(views(arguments@), " "@) + "` in "@
            + dir@,
{
    let mut m = owned("\nwould run `");
    m.push_str(cargo);
    m.push_str(" build ");
    m.push_str(join_texts(arguments, " ").as_str());
    m.push_str("` in ");
    m.push_str(dir);
    m
}

/// What `run --dry-run` says it would do.
pub fn would_run_text(cargo: &str, forwarded: &Vec<String>, root: &str) -> (r: String)
    ensures
        r@ == "\nwould run `"@ + cargo@ + " "@ + join_of(seq!["run"@] + views(forwarded@), " "@)
            + "` from "@ + root@,
{
    let mut words: Vec<String> = Vec::new();
    words.push(owned("run"));
    proof {
        assert(views(words@) =~= seq!["run"@] + views(forwarded@).take(0));
    }
    let mut i: usize = 0;
    while i < forwarded.len()
        invariant
            i <= forwarded@.len(),
            views(words@) == seq!["run"@] + views(forwarded@).take(i as int),
        decreases forwarded.len() - i,
    {
        let word = forwarded[i].clone();
        proof {
            assert(views(words@.push(word)) =~= views(words@).push(word@));
            assert(views(forwarded@).take(i + 1) =~= views(forwarded@).take(i as int).push(
                word@,
            ));
            assert(seq!["run"@] + views(forwarded@).take(i + 1) =~= (seq!["run"@] + views(
                forwarded@,
            ).take(i as int)).push(word@));
        }
        words.push(word);
        i = i + 1;
    }
    proof {
        assert(views(forwarded@).take(forwarded@.len() as int) =~= views(forwarded@));
    }
    let mut m = owned("\nwould run `");
    m.push_str(cargo);
    m.push_str(" ");
    m.push_str(join_texts(&words, " ").as_str());
    m.push_str("` from ");
    m.push_str(root);
    m
}

/// What is said before cargo builds the tree.
pub fn building_text(root: &str, dir: &str) -> (r: String)
    ensures
        r@ == "\nbuilding "@ + shown_path(root@, dir@) + " with cargo"@,
{
    let mut m = owned("\nbuilding ");
    m.push_str(display_rel_path(root, dir).as_str());
    m.push_str(" with cargo");
    m
}

/// What is said before cargo runs the tree.
pub fn running_text(root: &str, dir: &str) -> (r: String)
    ensures
        r@ == "\nrunning "@ + shown_path(root@, dir@) + " with cargo"@,
{
    let mut m = owned("\nrunning ");
    m.push_str(display_rel_path(root, dir).as_str());
    m.push_str(" with cargo");
    m
}

/// The exit status to hand back for a child's, so a script sees exactly what
/// `cargo` would have told it; `None` is success. A child without a code was
/// killed by a signal, and 1 is the closest honest answer.
pub fn exit_with(success: bool, code: Option<i32>) -> (r: Option<i32>)
    ensures
        r == if success {
            None::<i32>
        } else if code is Some {
            code
        } else {
            Some(1i32)
        },
{
    if success {
        return None;
    }
    match code {
        Some(c) => Some(c),
        None => Some(1),
    }
}

} // verus!
