//! The holes of a whole crate.
use vstd::prelude::*;

use crate::hole::{hole_views, Hole, HoleView};
use crate::order::{order_of, sort_positions, Key};
use crate::path::{lemma_path_order, path_less, precedes};
use crate::text::owned;
use crate::util::{display_rel_path, shown_path};

verus! {

/// How many of the holes are in a file that sorts before `file`.
pub open spec fn holes_before(holes: Seq<HoleView>, file: Seq<char>) -> nat
    decreases holes.len(),
{
    if holes.len() == 0 {
        0
    } else {
        holes_before(holes.drop_last(), file) + if path_less(holes.last().file, file) {
            1nat
        } else {
            0nat
        }
    }
}

/// Holes sort by file, then by where they start.
pub open spec fn crate_keys(holes: Seq<HoleView>) -> Seq<Key> {
    Seq::new(
        holes.len(),
        |i: int| (holes_before(holes, holes[i].file) as usize, holes[i].byte_start, 0usize),
    )
}

/// The holes of a crate in order.
pub open spec fn in_crate_order(holes: Seq<HoleView>) -> Seq<HoleView> {
    let order = order_of(crate_keys(holes));
    Seq::new(order.len(), |k: int| holes[order[k] as int])
}

/// The holes of all files, one after the other.
pub open spec fn all_of(per_file: Seq<Vec<Hole>>) -> Seq<HoleView>
    decreases per_file.len(),
{
    if per_file.len() == 0 {
        seq![]
    } else {
        all_of(per_file.drop_last()) + hole_views(per_file.last()@)
    }
}

proof fn lemma_holes_before_bound(holes: Seq<HoleView>, file: Seq<char>)
    ensures
        holes_before(holes, file) <= holes.len(),
    decreases holes.len(),
{
    if holes.len() > 0 {
        lemma_holes_before_bound(holes.drop_last(), file);
    }
}

proof fn lemma_holes_before_grows(holes: Seq<HoleView>, a: Seq<char>, b: Seq<char>)
    requires
        !path_less(b, a),
    ensures
        holes_before(holes, a) <= holes_before(holes, b),
        path_less(a, b) && (exists|i: int| 0 <= i < holes.len() && (#[trigger] holes[i]).file == a)
            ==> holes_before(holes, a) < holes_before(holes, b),
    decreases holes.len(),
{
    if holes.len() > 0 {
        let front = holes.drop_last();
        lemma_holes_before_grows(front, a, b);
        lemma_path_order(holes.last().file, a, b);
        lemma_path_order(a, a, a);
        if path_less(a, b) && (exists|i: int|
            0 <= i < holes.len() && (#[trigger] holes[i]).file == a) {
            let i = choose|i: int| 0 <= i < holes.len() && (#[trigger] holes[i]).file == a;
            if i < front.len() {
                assert(front[i].file == a);
            } else {
                assert(holes.last().file == a);
            }
        }
    }
}

/// A crate's holes come file by file in path order, and within a file from top
/// to bottom.
pub proof fn lemma_crate_order(holes: Seq<HoleView>)
    requires
        holes.len() <= usize::MAX,
    ensures
        in_crate_order(holes).len() == holes.len(),
        forall|i: int, j: int|
            0 <= i < j < holes.len() ==> !path_less(
                (#[trigger] in_crate_order(holes)[j]).file,
                (#[trigger] in_crate_order(holes)[i]).file,
            ) && (in_crate_order(holes)[i].file == in_crate_order(holes)[j].file
                ==> in_crate_order(holes)[i].byte_start <= in_crate_order(holes)[j].byte_start),
{
    let keys = crate_keys(holes);
    let order = order_of(keys);
    let r = in_crate_order(holes);
    crate::order::lemma_order_is_stable(keys, holes.len() as int);
    assert forall|i: int, j: int| 0 <= i < j < holes.len() implies !path_less(
        (#[trigger] r[j]).file,
        (#[trigger] r[i]).file,
    ) && (r[i].file == r[j].file ==> r[i].byte_start <= r[j].byte_start) by {
        assert(crate::order::comes_before(keys, order[i] as int, order[j] as int));
        assert(order[i] < holes.len() && order[j] < holes.len());
        lemma_holes_before_bound(holes, r[i].file);
        lemma_holes_before_bound(holes, r[j].file);
        if path_less(r[j].file, r[i].file) {
            lemma_path_order(r[j].file, r[i].file, r[i].file);
            assert(holes[order[j] as int].file == r[j].file);
            lemma_holes_before_grows(holes, r[j].file, r[i].file);
        }
    }
}

/// The warning about a file whose holes cannot be listed. It is reported, not
/// fatal: one broken file should not hide every hole in the crate.
pub fn skipped_file_text(root: &str, file: &str, why: &str) -> (r: String)
    ensures
        r@ == "warning: skipping "@ + shown_path(root@, file@) + ": "@ + why@,
{
    let mut m = owned("warning: skipping ");
    m.push_str(display_rel_path(root, file).as_str());
    m.push_str(": ");
    m.push_str(why);
    m
}

impl Hole {
    /// Every hole in the crate, sorted by file then position, given the holes
    /// of each file.
    pub fn list_holes(per_file: &Vec<Vec<Hole>>) -> (r: Vec<Hole>)
        ensures
            hole_views(r@) == in_crate_order(all_of(per_file@)),
    {
        let mut all: Vec<Hole> = Vec::new();
        let mut f: usize = 0;
        proof {
            assert(per_file@.take(0) =~= Seq::<Vec<Hole>>::empty());
            assert(hole_views(all@) =~= Seq::<HoleView>::empty());
        }
        while f < per_file.len()
            invariant
                f <= per_file@.len(),
                hole_views(all@) == all_of(per_file@.take(f as int)),
            decreases per_file.len() - f,
        {
            let one = &per_file[f];
            let ghost before = hole_views(all@);
            let mut i: usize = 0;
            proof {
                assert(before + hole_views(one@).take(0) =~= before);
            }
            while i < one.len()
                invariant
                    i <= one@.len(),
                    hole_views(all@) == before + hole_views(one@).take(i as int),
                decreases one.len() - i,
            {
                let copy = one[i].clone();
                proof {
                    assert(hole_views(all@.push(copy)) =~= hole_views(all@).push(copy@));
                    assert(before + hole_views(one@).take(i + 1) =~= (before + hole_views(
                        one@,
                    ).take(i as int)).push(copy@));
                }
                all.push(copy);
                i = i + 1;
            }
            proof {
                assert(hole_views(one@).take(one@.len() as int) =~= hole_views(one@));
                assert(per_file@.take(f + 1).drop_last() =~= per_file@.take(f as int));
                assert(per_file@.take(f + 1).last() == one);
            }
            f = f + 1;
        }
        proof {
            assert(per_file@.take(per_file@.len() as int) =~= per_file@);
        }
        let ghost holes = hole_views(all@);
        let n: usize = all.len();

        let mut keys: Vec<Key> = Vec::new();
        let mut i: usize = 0;
        while i < n
            invariant
                i <= n,
                n == all@.len(),
                holes == hole_views(all@),
                keys@ == crate_keys(holes).take(i as int),
            decreases n - i,
        {
            let mut count: usize = 0;
            let mut j: usize = 0;
            proof {
                assert(holes.take(0) =~= Seq::<HoleView>::empty());
            }
            while j < n
                invariant
                    j <= n,
                    i < n,
                    n == all@.len(),
                    holes == hole_views(all@),
                    count <= j,
                    count == holes_before(holes.take(j as int), holes[i as int].file),
                decreases n - j,
            {
                proof {
                    assert(holes.take(j + 1).drop_last() =~= holes.take(j as int));
                    assert(holes.take(j + 1).last() == all@[j as int]@);
                }
                if precedes(all[j].file.as_str(), all[i].file.as_str()) {
                    count = count + 1;
                }
                j = j + 1;
            }
            proof {
                assert(holes.take(n as int) =~= holes);
            }
            keys.push((count, all[i].byte_start, 0));
            proof {
                assert(crate_keys(holes).take(i + 1) =~= crate_keys(holes).take(i as int).push(
                    crate_keys(holes)[i as int],
                ));
            }
            i = i + 1;
        }
        proof {
            assert(keys@ =~= crate_keys(holes));
        }
        let order = sort_positions(&keys);

        let mut out: Vec<Hole> = Vec::new();
        let mut k: usize = 0;
        while k < n
            invariant
                k <= n,
                n == all@.len(),
                order@.len() == n,
                forall|j: int| 0 <= j < order@.len() ==> #[trigger] order@[j] < n,
                holes == hole_views(all@),
                order@ == order_of(crate_keys(holes)),
                hole_views(out@) == in_crate_order(holes).take(k as int),
            decreases n - k,
        {
            let copy = all[order[k]].clone();
            proof {
                assert(hole_views(out@.push(copy)) =~= hole_views(out@).push(copy@));
                assert(in_crate_order(holes).take(k + 1) =~= in_crate_order(holes).take(
                    k as int,
                ).push(copy@));
            }
            out.push(copy);
            k = k + 1;
        }
        proof {
            assert(in_crate_order(holes).take(n as int) =~= in_crate_order(holes));
        }
        out
    }
}

} // verus!
