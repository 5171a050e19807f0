//! What the compile gate makes of rustc's errors.
use vstd::prelude::*;

use crate::gate::{
    classified, first_containing, first_primary, least_past, patch_of, past, verdict_of, Patch,
    Region, VerdictView,
};
use crate::path::joined;
use crate::prober::{errors_of, is_same_file, CheckRun, Diagnostic, PathTable, Span};
use crate::text::opt_view;

verus! {

/// Whether span `i` is the primary one of a diagnostic: it is marked so, and none
/// before it is.
pub open spec fn is_primary_at(d: Diagnostic, i: int) -> bool {
    &&& 0 <= i < d.spans@.len()
    &&& d.spans@[i].is_primary
    &&& forall|j: int| 0 <= j < i ==> !(#[trigger] d.spans@[j]).is_primary
}

/// Whether patch `p` is the first of those for the file that rustc named.
pub open spec fn is_patch_named(
    table: PathTable,
    root: Seq<char>,
    reported: Seq<char>,
    patches: Seq<Patch>,
    p: int,
) -> bool {
    &&& 0 <= p < patches.len()
    &&& is_same_file(table, root, reported, patches[p].file@)
    &&& forall|q: int|
        0 <= q < p ==> !is_same_file(table, root, reported, (#[trigger] patches[q]).file@)
}

/// Whether region `k` holds a byte, or ends right before it, and no other does.
pub open spec fn is_only_region(regions: Seq<Region>, byte: usize, k: int) -> bool {
    &&& 0 <= k < regions.len()
    &&& regions[k].byte_start <= byte <= regions[k].byte_end
    &&& forall|j: int|
        0 <= j < regions.len() && j != k ==> !((#[trigger] regions[j]).byte_start <= byte
            <= regions[j].byte_end)
}

proof fn lemma_first_primary(spans: Seq<Span>, i: int, k: int)
    requires
        0 <= i <= k < spans.len(),
        spans[k].is_primary,
        forall|j: int| i <= j < k ==> !(#[trigger] spans[j]).is_primary,
    ensures
        first_primary(spans, i) == Some(k),
    decreases k - i,
{
    if i < k {
        assert(!spans[i].is_primary);
        lemma_first_primary(spans, i + 1, k);
    }
}

proof fn lemma_no_primary(spans: Seq<Span>, i: int)
    requires
        0 <= i,
        forall|j: int| 0 <= j < spans.len() ==> !(#[trigger] spans[j]).is_primary,
    ensures
        first_primary(spans, i) is None,
    decreases spans.len() - i,
{
    if i < spans.len() {
        assert(!spans[i].is_primary);
        lemma_no_primary(spans, i + 1);
    }
}

proof fn lemma_patch_of(
    table: PathTable,
    root: Seq<char>,
    patches: Seq<Patch>,
    reported: Seq<char>,
    i: int,
    p: int,
)
    requires
        is_patch_named(table, root, reported, patches, p),
        0 <= i <= p,
    ensures
        patch_of(table, root, patches, reported, i) == Some(p),
    decreases p - i,
{
    if i < p {
        assert(!is_same_file(table, root, reported, patches[i].file@));
        lemma_patch_of(table, root, patches, reported, i + 1, p);
    }
}

proof fn lemma_no_patch_of(
    table: PathTable,
    root: Seq<char>,
    patches: Seq<Patch>,
    reported: Seq<char>,
    i: int,
)
    requires
        0 <= i,
        forall|q: int|
            0 <= q < patches.len() ==> !is_same_file(
                table,
                root,
                reported,
                (#[trigger] patches[q]).file@,
            ),
    ensures
        patch_of(table, root, patches, reported, i) is None,
    decreases patches.len() - i,
{
    if i < patches.len() {
        assert(!is_same_file(table, root, reported, patches[i].file@));
        lemma_no_patch_of(table, root, patches, reported, i + 1);
    }
}

proof fn lemma_first_containing(regions: Seq<Region>, byte: usize, i: int, k: int)
    requires
        is_only_region(regions, byte, k),
        0 <= i <= k,
    ensures
        first_containing(regions, byte, i) == Some(k),
    decreases k - i,
{
    if i < k {
        assert(!(regions[i].byte_start <= byte <= regions[i].byte_end));
        lemma_first_containing(regions, byte, i + 1, k);
    }
}

/// An error is blamed on the hole whose generated code its primary span is in,
/// whatever the other spans and their labels are.
pub proof fn lemma_primary_span_decides(
    table: PathTable,
    root: Seq<char>,
    d: Diagnostic,
    patches: Seq<Patch>,
    i: int,
    p: int,
    k: int,
)
    requires
        is_primary_at(d, i),
        is_patch_named(table, root, d.spans@[i].file_name@, patches, p),
        is_only_region(patches[p].regions@, d.spans@[i].byte_start, k),
    ensures
        classified(table, root, d, patches).hole == Some(patches[p].regions@[k].hole@),
        classified(table, root, d, patches).file == patches[p].file@,
        classified(table, root, d, patches).code == opt_view(d.code),
{
    lemma_first_primary(d.spans@, 0, i);
    lemma_patch_of(table, root, patches, d.spans@[i].file_name@, 0, p);
    lemma_first_containing(patches[p].regions@, d.spans@[i].byte_start, 0, k);
}

/// Two errors with one primary span are blamed alike: the spans that are not primary
/// have no influence on the hole and the file.
pub proof fn lemma_other_spans_do_not_count(
    table: PathTable,
    root: Seq<char>,
    d: Diagnostic,
    e: Diagnostic,
    patches: Seq<Patch>,
    i: int,
    j: int,
)
    requires
        is_primary_at(d, i),
        is_primary_at(e, j),
        d.spans@[i].file_name@ == e.spans@[j].file_name@,
        d.spans@[i].byte_start == e.spans@[j].byte_start,
    ensures
        classified(table, root, d, patches).hole == classified(table, root, e, patches).hole,
        classified(table, root, d, patches).file == classified(table, root, e, patches).file,
{
    lemma_first_primary(d.spans@, 0, i);
    lemma_first_primary(e.spans@, 0, j);
}

proof fn lemma_contained_nowhere(regions: Seq<Region>, byte: usize, i: int)
    requires
        0 <= i,
        forall|j: int|
            0 <= j < regions.len() ==> !((#[trigger] regions[j]).byte_start <= byte
                <= regions[j].byte_end),
    ensures
        first_containing(regions, byte, i) is None,
    decreases regions.len() - i,
{
    if i < regions.len() {
        assert(!(regions[i].byte_start <= byte <= regions[i].byte_end));
        lemma_contained_nowhere(regions, byte, i + 1);
    }
}

proof fn lemma_least_past(regions: Seq<Region>, byte: usize, n: int)
    requires
        0 <= n <= regions.len(),
    ensures
        least_past(regions, byte, n) matches Some(i) ==> 0 <= i < n && regions[i].byte_start
            <= byte && forall|j: int|
            0 <= j < n && (#[trigger] regions[j]).byte_start <= byte ==> past(regions[i], byte)
                <= past(regions[j], byte),
        least_past(regions, byte, n) is None ==> forall|j: int|
            0 <= j < n ==> byte < (#[trigger] regions[j]).byte_start,
    decreases n,
{
    if n > 0 {
        lemma_least_past(regions, byte, n - 1);
    }
}

/// An error that is in no generated code, and not right behind any, is no hole's.
pub proof fn lemma_error_elsewhere_is_nobodys(
    table: PathTable,
    root: Seq<char>,
    d: Diagnostic,
    patches: Seq<Patch>,
    i: int,
    p: int,
)
    requires
        is_primary_at(d, i),
        is_patch_named(table, root, d.spans@[i].file_name@, patches, p),
        forall|j: int|
            0 <= j < patches[p].regions@.len() ==> d.spans@[i].byte_start < (
            #[trigger] patches[p].regions@[j]).byte_start || d.spans@[i].byte_start
                >= patches[p].regions@[j].byte_end + 2,
    ensures
        classified(table, root, d, patches).hole is None,
        classified(table, root, d, patches).file == patches[p].file@,
{
    let regions = patches[p].regions@;
    let byte = d.spans@[i].byte_start;
    lemma_first_primary(d.spans@, 0, i);
    lemma_patch_of(table, root, patches, d.spans@[i].file_name@, 0, p);
    assert forall|j: int| 0 <= j < regions.len() implies !((#[trigger] regions[j]).byte_start
        <= byte <= regions[j].byte_end) by {
        assert(byte < regions[j].byte_start || byte >= regions[j].byte_end + 2);
    }
    lemma_contained_nowhere(regions, byte, 0);
    lemma_least_past(regions, byte, regions.len() as int);
}

/// An error in a file that was not patched, or in no file at all, is no hole's.
pub proof fn lemma_error_in_another_file_is_nobodys(
    table: PathTable,
    root: Seq<char>,
    d: Diagnostic,
    patches: Seq<Patch>,
)
    ensures
        (forall|j: int| 0 <= j < d.spans@.len() ==> !(#[trigger] d.spans@[j]).is_primary) ==> {
            &&& classified(table, root, d, patches).hole is None
            &&& classified(table, root, d, patches).file == root
        },
        forall|i: int| #[trigger]
            is_primary_at(d, i) && (forall|q: int|
                0 <= q < patches.len() ==> !is_same_file(
                    table,
                    root,
                    d.spans@[i].file_name@,
                    (#[trigger] patches[q]).file@,
                )) ==> {
                &&& classified(table, root, d, patches).hole is None
                &&& classified(table, root, d, patches).file == joined(
                    root,
                    d.spans@[i].file_name@,
                )
            },
{
    if forall|j: int| 0 <= j < d.spans@.len() ==> !(#[trigger] d.spans@[j]).is_primary {
        lemma_no_primary(d.spans@, 0);
    }
    assert forall|i: int| #[trigger]
        is_primary_at(d, i) && (forall|q: int|
            0 <= q < patches.len() ==> !is_same_file(
                table,
                root,
                d.spans@[i].file_name@,
                (#[trigger] patches[q]).file@,
            )) implies {
        &&& classified(table, root, d, patches).hole is None
        &&& classified(table, root, d, patches).file == joined(root, d.spans@[i].file_name@)
    } by {
        lemma_first_primary(d.spans@, 0, i);
        lemma_no_patch_of(table, root, patches, d.spans@[i].file_name@, 0);
    }
}

/// What is said about an error begins with its code and headline, and ends with the
/// label of its primary span, where that says something else; no other label is
/// quoted.
pub proof fn lemma_failure_says_what_is_wrong(
    table: PathTable,
    root: Seq<char>,
    d: Diagnostic,
    patches: Seq<Patch>,
    i: int,
)
    requires
        is_primary_at(d, i),
    ensures
        ({
            let said = classified(table, root, d, patches).message;
            let head = match d.code {
                Some(c) => c@ + ": "@ + d.message@,
                None => d.message@,
            };
            match d.spans@[i].label {
                Some(l) => if l@.len() > 0 && l@ != d.message@ {
                    said == head + ": "@ + l@
                } else {
                    said == head
                },
                None => said == head,
            }
        }),
{
    lemma_first_primary(d.spans@, 0, i);
    reveal_strlit("");
    assert(""@ + d.message@ =~= d.message@);
    match d.code {
        Some(c) => {
            assert(c@ + ": "@ + d.message@ + ""@ =~= c@ + ": "@ + d.message@);
        },
        None => {
            assert(d.message@ + ""@ =~= d.message@);
        },
    }
}

/// The errors of a run are its diagnostics of that level, in order.
pub proof fn lemma_errors_are_those_of_that_level(ds: Seq<Diagnostic>)
    ensures
        errors_of(ds) == ds.filter(|d: Diagnostic| d.level@ == "error"@),
    decreases ds.len(),
{
    reveal(Seq::filter);
    if ds.len() > 0 {
        lemma_errors_are_those_of_that_level(ds.drop_last());
    }
}

/// A tree is accepted exactly when rustc reported no error; else the failures are what
/// the errors come to, each once and in order.
pub proof fn lemma_verdict_is_rustcs(
    table: PathTable,
    root: Seq<char>,
    run: CheckRun,
    patches: Seq<Patch>,
)
    ensures
        ({
            let errors = run.diagnostics@.filter(|d: Diagnostic| d.level@ == "error"@);
            match verdict_of(table, root, run, patches) {
                VerdictView::Rejected { failures } => {
                    &&& errors.len() > 0
                    &&& failures.len() == errors.len()
                    &&& forall|k: int|
                        0 <= k < errors.len() ==> (#[trigger] failures[k]) == classified(
                            table,
                            root,
                            errors[k],
                            patches,
                        )
                },
                VerdictView::Accepted => errors.len() == 0,
                VerdictView::Inconclusive { .. } => false,
            }
        }),
{
    lemma_errors_are_those_of_that_level(run.diagnostics@);
}

} // verus!
