//! Positions of a list grouped by the file they belong to.
use vstd::prelude::*;

use crate::path::{
    is_same_path, lemma_path_order, lemma_path_order_total, path_less, precedes, same_path,
};
use crate::text::owned;

verus! {

/// One file and the positions that belong to it.
#[derive(Debug)]
pub struct FileGroup {
    pub file: String,
    pub members: Vec<usize>,
}

/// Groups as plain text and numbers.
pub open spec fn group_views(groups: Seq<FileGroup>) -> Seq<(Seq<char>, Seq<usize>)> {
    Seq::new(groups.len(), |i: int| (groups[i].file@, groups[i].members@))
}

/// The groups with position `i` added to those of `file`. Groups stay in path
/// order.
pub open spec fn with_member(
    groups: Seq<(Seq<char>, Seq<usize>)>,
    file: Seq<char>,
    i: usize,
) -> Seq<(Seq<char>, Seq<usize>)>
    decreases groups.len(),
{
    if groups.len() == 0 {
        seq![(file, seq![i])]
    } else {
        let (name, members) = groups.last();
        if is_same_path(file, name) {
            groups.drop_last().push((name, members.push(i)))
        } else if path_less(name, file) {
            groups.push((file, seq![i]))
        } else {
            with_member(groups.drop_last(), file, i).push(groups.last())
        }
    }
}

/// The positions `picks`, taken in turn, grouped by file.
pub open spec fn grouped(files: Seq<Seq<char>>, picks: Seq<usize>) -> Seq<
    (Seq<char>, Seq<usize>),
>
    decreases picks.len(),
{
    if picks.len() == 0 {
        seq![]
    } else {
        with_member(
            grouped(files, picks.drop_last()),
            files[picks.last() as int],
            picks.last(),
        )
    }
}

/// Each file once, in path order.
pub open spec fn files_in_order(groups: Seq<(Seq<char>, Seq<usize>)>) -> bool {
    forall|a: int, b: int|
        0 <= a < b < groups.len() ==> path_less((#[trigger] groups[a]).0, (#[trigger] groups[b]).0)
}

/// Every position stands in a group of its own file.
pub open spec fn members_belong(
    files: Seq<Seq<char>>,
    groups: Seq<(Seq<char>, Seq<usize>)>,
) -> bool {
    forall|g: int, m: int|
        0 <= g < groups.len() && 0 <= m < groups[g].1.len() ==> is_same_path(
            files[#[trigger] groups[g].1[m] as int],
            groups[g].0,
        )
}

/// Whether some group has position `p`.
pub open spec fn has_member(groups: Seq<(Seq<char>, Seq<usize>)>, p: usize) -> bool {
    exists|g: int| 0 <= g < groups.len() && (#[trigger] groups[g]).1.contains(p)
}

proof fn lemma_with_member(
    files: Seq<Seq<char>>,
    groups: Seq<(Seq<char>, Seq<usize>)>,
    file: Seq<char>,
    i: usize,
)
    requires
        files_in_order(groups),
        members_belong(files, groups),
        files[i as int] == file,
    ensures
        files_in_order(with_member(groups, file, i)),
        members_belong(files, with_member(groups, file, i)),
        forall|p: usize| #[trigger]
            has_member(with_member(groups, file, i), p) <==> has_member(groups, p) || p == i,
        forall|g: int|
            0 <= g < with_member(groups, file, i).len() ==> is_same_path(
                (#[trigger] with_member(groups, file, i)[g]).0,
                file,
            ) || groups.contains(with_member(groups, file, i)[g]),
    decreases groups.len(),
{
    let r = with_member(groups, file, i);
    lemma_path_order_total(file, file);
    if groups.len() == 0 {
        assert(r[0].1[0] == i);
        assert(r[0].1.contains(i));
        assert forall|p: usize| #[trigger] has_member(r, p) <==> has_member(groups, p) || p
            == i by {
            if has_member(r, p) {
                let g = choose|g: int| 0 <= g < r.len() && (#[trigger] r[g]).1.contains(p);
                assert(r[g] == r[0]);
            }
        }
    } else {
        let front = groups.drop_last();
        let (name, members) = groups.last();
        let n = groups.len() - 1;
        assert(groups[n] == (name, members));
        lemma_path_order_total(file, name);
        if is_same_path(file, name) {
            assert forall|a: int, b: int| 0 <= a < b < r.len() implies path_less(
                (#[trigger] r[a]).0,
                (#[trigger] r[b]).0,
            ) by {
                assert(r[a].0 == groups[a].0 && r[b].0 == groups[b].0);
            }
            assert forall|g: int, m: int|
                0 <= g < r.len() && 0 <= m < r[g].1.len() implies is_same_path(
                files[#[trigger] r[g].1[m] as int],
                r[g].0,
            ) by {
                if g < n {
                    assert(r[g] == groups[g]);
                    assert(is_same_path(files[groups[g].1[m] as int], groups[g].0));
                } else if m < members.len() {
                    assert(r[g].1[m] == groups[n].1[m]);
                }
            }
            assert forall|p: usize| #[trigger] has_member(r, p) <==> has_member(groups, p) || p
                == i by {
                assert(r[n].1 == members.push(i));
                if has_member(r, p) {
                    let g = choose|g: int| 0 <= g < r.len() && (#[trigger] r[g]).1.contains(p);
                    if g < n {
                        assert(groups[g].1.contains(p));
                    } else {
                        let k = choose|k: int| 0 <= k < r[n].1.len() && r[n].1[k] == p;
                        if k < members.len() {
                            assert(groups[n].1[k] == p);
                            assert(groups[n].1.contains(p));
                        }
                    }
                }
                if has_member(groups, p) {
                    let g = choose|g: int|
                        0 <= g < groups.len() && (#[trigger] groups[g]).1.contains(p);
                    if g < n {
                        assert(r[g].1.contains(p));
                    } else {
                        let k = choose|k: int| 0 <= k < members.len() && members[k] == p;
                        assert(r[n].1[k] == p);
                        assert(r[n].1.contains(p));
                    }
                }
                if p == i {
                    assert(r[n].1[members.len() as int] == i);
                    assert(r[n].1.contains(i));
                }
            }
            assert forall|g: int| 0 <= g < r.len() implies is_same_path((#[trigger] r[g]).0, file)
                || groups.contains(r[g]) by {
                if g < n {
                    assert(groups[g] == r[g]);
                }
            }
        } else if path_less(name, file) {
            assert forall|a: int, b: int| 0 <= a < b < r.len() implies path_less(
                (#[trigger] r[a]).0,
                (#[trigger] r[b]).0,
            ) by {
                if b == groups.len() {
                    if a < n {
                        assert(path_less(groups[a].0, groups[n].0));
                        lemma_path_order(groups[a].0, name, file);
                        lemma_path_order(name, file, name);
                    }
                } else {
                    assert(r[a] == groups[a] && r[b] == groups[b]);
                }
            }
            assert forall|g: int, m: int|
                0 <= g < r.len() && 0 <= m < r[g].1.len() implies is_same_path(
                files[#[trigger] r[g].1[m] as int],
                r[g].0,
            ) by {
                if g < groups.len() {
                    assert(r[g] == groups[g]);
                    assert(is_same_path(files[groups[g].1[m] as int], groups[g].0));
                }
            }
            let last = groups.len() as int;
            assert forall|p: usize| #[trigger] has_member(r, p) <==> has_member(groups, p) || p
                == i by {
                if has_member(r, p) {
                    let g = choose|g: int| 0 <= g < r.len() && (#[trigger] r[g]).1.contains(p);
                    if g < last {
                        assert(groups[g].1.contains(p));
                    }
                }
                if has_member(groups, p) {
                    let g = choose|g: int|
                        0 <= g < groups.len() && (#[trigger] groups[g]).1.contains(p);
                    assert(r[g].1.contains(p));
                }
                if p == i {
                    assert(r[last].1[0] == i);
                    assert(r[last].1.contains(i));
                }
            }
            assert forall|g: int| 0 <= g < r.len() implies is_same_path((#[trigger] r[g]).0, file)
                || groups.contains(r[g]) by {
                if g < last {
                    assert(groups[g] == r[g]);
                }
            }
        } else {
            let t = with_member(front, file, i);
            assert forall|g: int, m: int|
                0 <= g < front.len() && 0 <= m < front[g].1.len() implies is_same_path(
                files[#[trigger] front[g].1[m] as int],
                front[g].0,
            ) by {
                assert(front[g] == groups[g]);
                assert(is_same_path(files[groups[g].1[m] as int], groups[g].0));
            }
            lemma_with_member(files, front, file, i);
            let last = t.len() as int;
            assert(r == t.push(groups.last()));
            assert forall|a: int, b: int| 0 <= a < b < r.len() implies path_less(
                (#[trigger] r[a]).0,
                (#[trigger] r[b]).0,
            ) by {
                if b == last {
                    assert(r[a] == t[a]);
                    if is_same_path(t[a].0, file) {
                        lemma_same_path_less(t[a].0, file, name);
                    } else {
                        assert(front.contains(t[a]));
                        let k = choose|k: int| 0 <= k < front.len() && front[k] == t[a];
                        assert(path_less(groups[k].0, groups[n].0));
                    }
                } else {
                    assert(r[a] == t[a] && r[b] == t[b]);
                }
            }
            assert forall|g: int, m: int|
                0 <= g < r.len() && 0 <= m < r[g].1.len() implies is_same_path(
                files[#[trigger] r[g].1[m] as int],
                r[g].0,
            ) by {
                if g < last {
                    assert(r[g] == t[g]);
                    assert(is_same_path(files[t[g].1[m] as int], t[g].0));
                } else {
                    assert(r[g].1[m] == groups[n].1[m]);
                }
            }
            assert forall|p: usize| #[trigger] has_member(r, p) <==> has_member(groups, p) || p
                == i by {
                if has_member(r, p) {
                    let g = choose|g: int| 0 <= g < r.len() && (#[trigger] r[g]).1.contains(p);
                    if g < last {
                        assert(t[g].1.contains(p));
                        assert(has_member(t, p));
                        if p != i {
                            let k = choose|k: int|
                                0 <= k < front.len() && (#[trigger] front[k]).1.contains(p);
                            assert(groups[k].1.contains(p));
                        }
                    } else {
                        assert(groups[n].1.contains(p));
                    }
                }
                if has_member(groups, p) || p == i {
                    if has_member(front, p) || p == i {
                        assert(has_member(t, p));
                        let k = choose|k: int| 0 <= k < t.len() && (#[trigger] t[k]).1.contains(p);
                        assert(r[k].1.contains(p));
                    } else {
                        let g = choose|g: int|
                            0 <= g < groups.len() && (#[trigger] groups[g]).1.contains(p);
                        if g < n {
                            assert(front[g].1.contains(p));
                        }
                        assert(r[last].1.contains(p));
                    }
                }
            }
            assert forall|g: int| 0 <= g < r.len() implies is_same_path((#[trigger] r[g]).0, file)
                || groups.contains(r[g]) by {
                if g < last {
                    assert(r[g] == t[g]);
                    if !is_same_path(t[g].0, file) {
                        let k = choose|k: int| 0 <= k < front.len() && front[k] == t[g];
                        assert(groups[k] == t[g]);
                    }
                } else {
                    assert(groups[n] == r[g]);
                }
            }
        }
    }
}

proof fn lemma_same_path_less(a: Seq<char>, b: Seq<char>, c: Seq<char>)
    requires
        is_same_path(a, b),
        path_less(b, c),
    ensures
        path_less(a, c),
{
}

/// Grouping loses nothing and adds nothing: each picked position stands in a
/// group of its own file, and the files come in path order, each once.
pub proof fn lemma_grouped(files: Seq<Seq<char>>, picks: Seq<usize>)
    ensures
        files_in_order(grouped(files, picks)),
        members_belong(files, grouped(files, picks)),
        forall|p: usize| #[trigger] has_member(grouped(files, picks), p) <==> picks.contains(p),
    decreases picks.len(),
{
    let r = grouped(files, picks);
    if picks.len() > 0 {
        let front = picks.drop_last();
        lemma_grouped(files, front);
        lemma_with_member(
            files,
            grouped(files, front),
            files[picks.last() as int],
            picks.last(),
        );
        assert forall|p: usize| #[trigger] has_member(r, p) <==> picks.contains(p) by {
            assert(has_member(r, p) <==> has_member(grouped(files, front), p) || p
                == picks.last());
            assert(has_member(grouped(files, front), p) <==> front.contains(p));
            if front.contains(p) {
                let k = choose|k: int| 0 <= k < front.len() && front[k] == p;
                assert(picks[k] == p);
            }
            if picks.contains(p) {
                let k = choose|k: int| 0 <= k < picks.len() && picks[k] == p;
                if k < front.len() {
                    assert(front[k] == p);
                }
            }
            assert(picks[picks.len() - 1] == picks.last());
        }
    }
}

/// Add position `i` to the group of `file`.
pub fn add_member(groups: &mut Vec<FileGroup>, file: &str, i: usize)
    ensures
        group_views(final(groups)@) == with_member(group_views(old(groups)@), file@, i),
{
    let ghost before = group_views(groups@);
    let ghost target = with_member(before, file@, i);
    let mut at: usize = groups.len();
    proof {
        assert(before.take(at as int) =~= before);
        assert(target + before.skip(at as int) =~= target);
    }
    while at > 0 && !same_path(file, groups[at - 1].file.as_str()) && !precedes(
        groups[at - 1].file.as_str(),
        file,
    )
        invariant
            at <= groups@.len(),
            *groups == *old(groups),
            before == group_views(groups@),
            target == with_member(before.take(at as int), file@, i) + before.skip(at as int),
        decreases at,
    {
        proof {
            let t = before.take(at as int);
            assert(t.drop_last() =~= before.take(at - 1));
            assert(t.last() == (groups@[at - 1].file@, groups@[at - 1].members@));
            assert(with_member(t.drop_last(), file@, i).push(t.last()) + before.skip(at as int)
                =~= with_member(before.take(at - 1), file@, i) + before.skip(at - 1));
        }
        at = at - 1;
    }
    proof {
        let t = before.take(at as int);
        if at > 0 {
            assert(t.last() == (groups@[at - 1].file@, groups@[at - 1].members@));
        }
    }
    if at > 0 && same_path(file, groups[at - 1].file.as_str()) {
        let ghost name = groups@[at - 1].file@;
        let ghost members = groups@[at - 1].members@;
        let mut group = groups.remove(at - 1);
        group.members.push(i);
        groups.insert(at - 1, group);
        proof {
            assert(group_views(groups@) =~= before.take(at as int).drop_last().push(
                (name, members.push(i)),
            ) + before.skip(at as int));
        }
    } else {
        let mut members: Vec<usize> = Vec::new();
        members.push(i);
        groups.insert(at, FileGroup { file: owned(file), members });
        proof {
            let t = before.take(at as int);
            assert(seq![i] =~= members@);
            if at == 0 {
                assert(with_member(t, file@, i) =~= seq![(file@, seq![i])]);
            }
            assert(t.push((file@, members@)) =~= with_member(t, file@, i));
            assert(group_views(groups@) =~= t.push((file@, members@)) + before.skip(at as int));
        }
    }
}

/// How many positions the groups have together.
pub open spec fn member_count(groups: Seq<FileGroup>) -> nat
    decreases groups.len(),
{
    if groups.len() == 0 {
        0
    } else {
        member_count(groups.drop_last()) + groups.last().members@.len()
    }
}

pub proof fn lemma_member_count_grows(groups: Seq<FileGroup>, n: int)
    requires
        0 <= n <= groups.len(),
    ensures
        member_count(groups.take(n)) <= member_count(groups),
    decreases groups.len(),
{
    if n == groups.len() {
        assert(groups.take(n) =~= groups);
    } else {
        lemma_member_count_grows(groups.drop_last(), n);
        assert(groups.drop_last().take(n) =~= groups.take(n));
    }
}

/// How many positions groups have together.
pub open spec fn views_count(groups: Seq<(Seq<char>, Seq<usize>)>) -> nat
    decreases groups.len(),
{
    if groups.len() == 0 {
        0
    } else {
        views_count(groups.drop_last()) + groups.last().1.len()
    }
}

proof fn lemma_with_member_count(
    groups: Seq<(Seq<char>, Seq<usize>)>,
    file: Seq<char>,
    i: usize,
)
    ensures
        views_count(with_member(groups, file, i)) == views_count(groups) + 1,
    decreases groups.len(),
{
    let r = with_member(groups, file, i);
    if groups.len() == 0 {
        assert(r.drop_last() =~= Seq::<(Seq<char>, Seq<usize>)>::empty());
        reveal_with_fuel(views_count, 2);
    } else {
        let (name, members) = groups.last();
        let front = groups.drop_last();
        if crate::path::is_same_path(file, name) {
            assert(r.drop_last() =~= front);
        } else if crate::path::path_less(name, file) {
            assert(r.drop_last() =~= groups);
        } else {
            lemma_with_member_count(front, file, i);
            assert(r.drop_last() =~= with_member(front, file, i));
        }
    }
}

/// Grouping keeps every position, and none twice.
pub proof fn lemma_grouped_count(files: Seq<Seq<char>>, picks: Seq<usize>)
    ensures
        views_count(grouped(files, picks)) == picks.len(),
    decreases picks.len(),
{
    if picks.len() > 0 {
        lemma_grouped_count(files, picks.drop_last());
        lemma_with_member_count(
            grouped(files, picks.drop_last()),
            files[picks.last() as int],
            picks.last(),
        );
    }
}

pub proof fn lemma_count_of_views(groups: Seq<FileGroup>)
    ensures
        member_count(groups) == views_count(group_views(groups)),
    decreases groups.len(),
{
    let v = group_views(groups);
    if groups.len() > 0 {
        lemma_count_of_views(groups.drop_last());
        assert(v.drop_last() =~= group_views(groups.drop_last()));
    }
}

pub proof fn lemma_member_counts_agree(
    files: Seq<Seq<char>>,
    picks: Seq<usize>,
    groups: Seq<FileGroup>,
)
    requires
        group_views(groups) == grouped(files, picks),
    ensures
        member_count(groups) == picks.len(),
{
    lemma_grouped_count(files, picks);
    lemma_count_of_views(groups);
}

} // verus!
