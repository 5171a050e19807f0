//! What the type probe reads out of rustc's errors.
use vstd::prelude::*;
use vstd::utf8::encode_utf8;

use crate::laws::text::{
    is_free_of, is_trimmed, lemma_find_after, lemma_find_at_start, lemma_find_char,
    lemma_find_no_char, lemma_find_of_absent, lemma_trimmed_stays,
};
use crate::blame::{attributable_of, candidates_of, decided, first_concrete, Isolation};
use crate::hole::{Hole, HolePosition, HoleView};
use crate::laws::judging::lemma_errors_are_those_of_that_level;
use crate::patching::{unit_edit, unit_patched, UNIT};
use crate::path::{components_of, is_tail, joined, rooted};
use crate::prober::{
    bare_type, expected_in, first_expected, in_backticks, is_attributable, is_same_file,
    is_unit_mismatch, labels_of, mentions_unit, nearest, texts_of, type_named, type_problem,
    CheckRun, Diagnostic, OutcomeView, PathTable, Span,
};
use crate::splice::inserted;
use crate::text::{begins, ends, is_space, occurs_at, rfind_of};

verus! {

/// What rustc says about a type in backticks, after some words of prose.
pub open spec fn quoted_label(prose: Seq<char>, t: Seq<char>, found: Seq<char>) -> Seq<char> {
    "expected "@ + prose + "`"@ + t + "`, found"@ + found
}

/// What rustc says about a type without backticks.
pub open spec fn bare_label(t: Seq<char>, found: Seq<char>) -> Seq<char> {
    "expected "@ + t + ", found"@ + found
}

/// Whether a text has no backtick.
pub open spec fn has_no_backtick(s: Seq<char>) -> bool {
    forall|i: int| 0 <= i < s.len() ==> #[trigger] s[i] != '`'
}

/// The type is read whole, whatever commas, brackets or spaces it holds: what stands
/// in the backticks of ``expected `T`, found ...`` is the answer, with or without
/// words before it, and whatever was found.
pub proof fn lemma_quoted_type_is_read_whole(prose: Seq<char>, t: Seq<char>, found: Seq<char>)
    requires
        prose.len() > 0 ==> !is_space(prose[0]),
        has_no_backtick(prose),
        is_free_of(prose, ", found"@),
        is_trimmed(t),
        has_no_backtick(t),
        is_free_of(t, ", found"@),
    ensures
        expected_in(quoted_label(prose, t, found)) == Some(t),
{
    reveal_strlit("`");
    reveal_strlit("`, found");
    reveal_strlit(", found");
    let stop = ", found"@;
    let tick = seq!['`'];
    let cut = prose + tick + t + tick;
    assert("`"@ =~= tick);
    assert("`, found"@ =~= tick + stop);
    let rest = cut + stop + found;
    assert(quoted_label(prose, t, found) =~= "expected "@ + rest);
    lemma_find_at_start("expected "@, rest);
    lemma_stop_is_after_the_ticks(prose, t, found);
    lemma_find_after(cut, stop, found);
    assert(!is_space('`'));
    assert(cut.last() == '`');
    assert(is_trimmed(cut)) by {
        if prose.len() > 0 {
            assert(cut[0] == prose[0]);
        } else {
            assert(cut[0] == '`');
        }
    }
    lemma_trimmed_stays(cut);
    lemma_ticks_are_opened(prose, t);
}

proof fn lemma_ticks_are_opened(prose: Seq<char>, t: Seq<char>)
    requires
        has_no_backtick(prose),
        is_trimmed(t),
        has_no_backtick(t),
    ensures
        in_backticks(prose + seq!['`'] + t + seq!['`']) == Some(t),
{
    reveal_strlit("`");
    let tick = seq!['`'];
    assert("`"@ =~= tick);
    assert(prose + tick + t + tick =~= prose + tick + (t + tick));
    lemma_find_char(prose, '`', t + tick);
    lemma_find_char(t, '`', seq![]);
    assert(t + tick + Seq::<char>::empty() =~= t + tick);
    lemma_trimmed_stays(t);
}

/// `, found` does not begin in the prose or the type, and it has no backtick.
proof fn lemma_stop_is_after_the_ticks(prose: Seq<char>, t: Seq<char>, found: Seq<char>)
    requires
        is_free_of(prose, ", found"@),
        is_free_of(t, ", found"@),
    ensures
        ({
            let cut = prose + seq!['`'] + t + seq!['`'];
            forall|j: int|
                0 <= j < cut.len() ==> !#[trigger] occurs_at(
                    cut + ", found"@ + found,
                    ", found"@,
                    j,
                )
        }),
{
    reveal_strlit(", found");
    let stop = ", found"@;
    let cut = prose + seq!['`'] + t + seq!['`'];
    let rest = cut + stop + found;
    let p = prose.len() as int;
    let e = cut.len() as int;
    assert(rest[p] == '`');
    assert(rest[e - 1] == '`');
    assert forall|j: int| 0 <= j < e implies !#[trigger] occurs_at(rest, stop, j) by {
        if occurs_at(rest, stop, j) {
            let w = rest.subrange(j, j + 7);
            assert(w == stop);
            if j <= p < j + 7 {
                assert(w[p - j] == '`');
            } else if j <= e - 1 < j + 7 {
                assert(w[e - 1 - j] == '`');
            } else if j + 7 <= p {
                assert(prose.subrange(j, j + 7) =~= w);
                assert(occurs_at(prose, stop, j));
            } else {
                assert(t.subrange(j - p - 1, j - p - 1 + 7) =~= w);
                assert(occurs_at(t, stop, j - p - 1));
            }
        }
    }
}

/// A type without backticks is read whole too, up to what was found.
pub proof fn lemma_bare_type_is_read_whole(t: Seq<char>, found: Seq<char>)
    requires
        is_trimmed(t),
        has_no_backtick(t),
        is_free_of(t + ", foun"@, ", found"@),
    ensures
        expected_in(bare_label(t, found)) == Some(t),
        expected_in("expected "@ + t) == Some(t),
{
    reveal_strlit("`");
    let stop = ", found"@;
    let n = t.len() as int;
    assert("`"@ =~= seq!['`']);
    lemma_find_no_char(t, '`');
    lemma_trimmed_stays(t);
    lemma_stop_is_after_the_type(t, found);
    lemma_find_after(t, stop, found);
    assert(bare_label(t, found) =~= "expected "@ + (t + stop + found));
    lemma_find_at_start("expected "@, t + stop + found);
    lemma_find_at_start("expected "@, t);
    lemma_find_of_absent(t, stop);
    assert(t.take(n) =~= t);
}

proof fn lemma_stop_is_after_the_type(t: Seq<char>, found: Seq<char>)
    requires
        is_free_of(t + ", foun"@, ", found"@),
    ensures
        is_free_of(t, ", found"@),
        forall|j: int|
            0 <= j < t.len() ==> !#[trigger] occurs_at(t + ", found"@ + found, ", found"@, j),
{
    reveal_strlit(", found");
    reveal_strlit(", foun");
    let stop = ", found"@;
    let most = t + ", foun"@;
    let rest = t + stop + found;
    assert forall|j: int| 0 <= j < t.len() implies !#[trigger] occurs_at(rest, stop, j) by {
        if occurs_at(rest, stop, j) {
            assert(most.subrange(j, j + 7) =~= rest.subrange(j, j + 7));
            assert(occurs_at(most, stop, j));
        }
    }
    assert forall|j: int| !#[trigger] occurs_at(t, stop, j) by {
        if occurs_at(t, stop, j) {
            assert(most.subrange(j, j + 7) =~= t.subrange(j, j + 7));
            assert(occurs_at(most, stop, j));
        }
    }
}

/// A text that does not say what is expected names no type.
pub proof fn lemma_no_expectation_no_type(text: Seq<char>)
    requires
        is_free_of(text, "expected "@),
    ensures
        expected_in(text) is None,
{
    lemma_find_of_absent(text, "expected "@);
}

// ---------------------------------------------------------------------------
// Which error is about a hole
// ---------------------------------------------------------------------------

/// Whether span `i` is in the file.
pub open spec fn is_span_in(
    table: PathTable,
    root: Seq<char>,
    spans: Seq<Span>,
    file: Seq<char>,
    i: int,
) -> bool {
    0 <= i < spans.len() && is_same_file(table, root, spans[i].file_name@, file)
}

/// How many bytes lie between a place and a span; none where the place is in it.
pub open spec fn gap(s: Span, byte: usize) -> int {
    if s.byte_start <= byte <= s.byte_end {
        0
    } else if byte < s.byte_start {
        s.byte_start - byte
    } else {
        byte - s.byte_end
    }
}

/// The distance of a diagnostic from a place is that of its closest span in the file; a
/// diagnostic without one has none.
pub proof fn lemma_distance_is_the_least(
    table: PathTable,
    root: Seq<char>,
    spans: Seq<Span>,
    file: Seq<char>,
    byte: usize,
)
    requires
        forall|i: int| 0 <= i < spans.len() ==> (#[trigger] spans[i]).byte_start <= spans[i].byte_end,
    ensures
        match nearest(table, root, spans, file, byte) {
            Some(x) => {
                &&& exists|i: int| #[trigger]
                    is_span_in(table, root, spans, file, i) && gap(spans[i], byte) == x
                &&& forall|i: int| #[trigger]
                    is_span_in(table, root, spans, file, i) ==> x <= gap(spans[i], byte)
            },
            None => forall|i: int| !#[trigger] is_span_in(table, root, spans, file, i),
        },
    decreases spans.len(),
{
    if spans.len() > 0 {
        let front = spans.drop_last();
        let n = spans.len() - 1;
        assert forall|i: int| 0 <= i < front.len() implies (#[trigger] front[i]).byte_start
            <= front[i].byte_end by {
            assert(front[i] == spans[i]);
        }
        lemma_distance_is_the_least(table, root, front, file, byte);
        assert(spans[n] == spans.last());
        assert forall|i: int| #[trigger] is_span_in(table, root, spans, file, i) && i < n implies
            is_span_in(table, root, front, file, i) && front[i] == spans[i] by {}
        assert forall|i: int| #[trigger] is_span_in(table, root, front, file, i) implies is_span_in(
            table,
            root,
            spans,
            file,
            i,
        ) && front[i] == spans[i] by {}
        if is_same_file(table, root, spans.last().file_name@, file) {
            assert(is_span_in(table, root, spans, file, n));
            assert(gap(spans[n], byte) == crate::prober::span_distance(spans[n], byte));
        }
        if let Some(x) = nearest(table, root, front, file, byte) {
            let i = choose|i: int| #[trigger]
                is_span_in(table, root, front, file, i) && gap(front[i], byte) == x;
            assert(is_span_in(table, root, spans, file, i));
        }
    }
}

/// Whether a diagnostic is the error that `()` in place of a value gives, near a place:
/// `E0308`, one of its texts says that `()` was found, and one of its spans is at most
/// 4096 bytes away.
pub open spec fn is_our_error(
    table: PathTable,
    root: Seq<char>,
    d: Diagnostic,
    hole: HoleView,
) -> bool {
    &&& d.level@ == "error"@
    &&& d.code matches Some(c) && c@ == "E0308"@
    &&& mentions_unit(d.message@) || exists|i: int|
        0 <= i < d.spans@.len() && says_unit(#[trigger] d.spans@[i])
    &&& exists|i: int| #[trigger]
        is_span_in(table, root, d.spans@, hole.file, i) && gap(d.spans@[i], hole.byte_start)
            <= 4096
}

/// Whether the label of a span says that `()` was found.
pub open spec fn says_unit(s: Span) -> bool {
    s.label matches Some(l) && mentions_unit(l@)
}

proof fn lemma_labels(spans: Seq<Span>)
    ensures
        (exists|i: int|
            0 <= i < labels_of(spans).len() && mentions_unit(#[trigger] labels_of(spans)[i]))
            <==> exists|i: int| 0 <= i < spans.len() && says_unit(#[trigger] spans[i]),
    decreases spans.len(),
{
    if spans.len() > 0 {
        let front = spans.drop_last();
        lemma_labels(front);
        let n = spans.len() - 1;
        assert(spans[n] == spans.last());
        let a = labels_of(front);
        let all = labels_of(spans);
        if exists|i: int| 0 <= i < front.len() && says_unit(#[trigger] front[i]) {
            let i = choose|i: int| 0 <= i < front.len() && says_unit(#[trigger] front[i]);
            assert(says_unit(spans[i]));
            let k = choose|k: int| 0 <= k < a.len() && mentions_unit(#[trigger] a[k]);
            assert(mentions_unit(all[k]));
        }
        if says_unit(spans[n]) {
            assert(mentions_unit(all[all.len() - 1]));
        }
        if exists|i: int| 0 <= i < all.len() && mentions_unit(#[trigger] all[i]) {
            let i = choose|i: int| 0 <= i < all.len() && mentions_unit(#[trigger] all[i]);
            if i < a.len() {
                assert(mentions_unit(a[i]));
            } else {
                assert(says_unit(spans[n]));
            }
        }
        if exists|i: int| 0 <= i < spans.len() && says_unit(#[trigger] spans[i]) {
            let i = choose|i: int| 0 <= i < spans.len() && says_unit(#[trigger] spans[i]);
            if i < n {
                assert(says_unit(front[i]));
            }
        }
    }
}

/// An error counts as about a hole exactly when it is the one that `()` gives, near it.
pub proof fn lemma_attribution_is_by_kind_and_distance(
    table: PathTable,
    root: Seq<char>,
    d: Diagnostic,
    hole: HoleView,
)
    requires
        forall|i: int|
            0 <= i < d.spans@.len() ==> (#[trigger] d.spans@[i]).byte_start <= d.spans@[i].byte_end,
    ensures
        is_attributable(table, root, d, hole) <==> is_our_error(table, root, d, hole),
{
    lemma_distance_is_the_least(table, root, d.spans@, hole.file, hole.byte_start);
    lemma_labels(d.spans@);
    let texts = texts_of(d);
    let labels = labels_of(d.spans@);
    assert(texts[0] == d.message@);
    if mentions_unit(d.message@) {
        assert(mentions_unit(texts[0]));
    }
    if exists|i: int| 0 <= i < labels.len() && mentions_unit(#[trigger] labels[i]) {
        let i = choose|i: int| 0 <= i < labels.len() && mentions_unit(#[trigger] labels[i]);
        assert(texts[i + 1] == labels[i]);
    }
    if exists|i: int| 0 <= i < texts.len() && mentions_unit(#[trigger] texts[i]) {
        let i = choose|i: int| 0 <= i < texts.len() && mentions_unit(#[trigger] texts[i]);
        if i > 0 {
            assert(labels[i - 1] == texts[i]);
        }
    }
}

/// A text says that `()` was found when `found` is last followed by it, in backticks or not.
pub proof fn lemma_unit_is_recognised(before: Seq<char>, after: Seq<char>)
    requires
        is_free_of(after, "found "@),
    ensures
        mentions_unit(before + "found `()`"@ + after),
        mentions_unit(before + "found ()"@ + after),
{
    reveal_strlit("found ");
    reveal_strlit("found `()`");
    reveal_strlit("found ()");
    reveal_strlit("`()`");
    reveal_strlit("()");
    let key = "found "@;
    lemma_last_found(before, "`()`"@, after);
    lemma_last_found(before, "()"@, after);
    assert("found `()`"@ =~= key + "`()`"@);
    assert("found ()"@ =~= key + "()"@);
    assert(before + "found `()`"@ + after =~= before + key + ("`()`"@ + after));
    assert(before + "found ()"@ + after =~= before + key + ("()"@ + after));
    assert(!is_space('`') && !is_space('('));
    assert(("`()`"@ + after).take(4) =~= "`()`"@);
    assert(("()"@ + after).take(2) =~= "()"@);
}

proof fn lemma_last_found(before: Seq<char>, what: Seq<char>, after: Seq<char>)
    requires
        is_free_of(after, "found "@),
        what.len() > 0,
        forall|i: int| 0 <= i < what.len() ==> (#[trigger] what[i] == '`' || what[i] == '(' || what[i]
            == ')'),
    ensures
        ({
            let text = before + "found "@ + (what + after);
            rfind_of(text, "found "@) == Some(before.len() as int) && text.skip(
                (before.len() + 6) as int,
            ) == what + after
        }),
{
    reveal_strlit("found ");
    let key = "found "@;
    let text = before + key + (what + after);
    let n = before.len() as int;
    assert(text.subrange(n, n + 6) =~= key);
    assert forall|j: int| n < j implies !#[trigger] occurs_at(text, key, j) by {
        if occurs_at(text, key, j) {
            let w = text.subrange(j, j + 6);
            assert(w == key);
            let a = n + 6 + what.len();
            if j >= a {
                assert(after.subrange(j - a, j - a + 6) =~= w);
                assert(occurs_at(after, key, j - a));
            } else if j >= n + 6 {
                assert(w[0] == what[j - n - 6]);
            } else {
                assert(text[n + 6] == what[0]);
                assert(w[n + 6 - j] == what[0]);
            }
        }
    }
    crate::laws::text::lemma_rfind_is_last(text, key, n);
    assert(text.skip(n + 6) =~= what + after);
}

/// The diagnostics about a hole, and those a batch shares out, are those that qualify, in
/// the order rustc gave them.
pub proof fn lemma_candidates_are_selected(
    table: PathTable,
    root: Seq<char>,
    ds: Seq<Diagnostic>,
    hole: HoleView,
)
    ensures
        attributable_of(table, root, ds, hole) == ds.filter(
            |d: Diagnostic| is_attributable(table, root, d, hole),
        ),
        candidates_of(ds) == ds.filter(|d: Diagnostic| is_unit_mismatch(d)),
    decreases ds.len(),
{
    reveal(Seq::filter);
    if ds.len() > 0 {
        lemma_candidates_are_selected(table, root, ds.drop_last(), hole);
    }
}

/// Whether rustc's name for a file, relative to the crate, means the file at that place.
pub proof fn lemma_relative_names_mean_files_of_the_crate(
    table: PathTable,
    root: Seq<char>,
    reported: Seq<char>,
    file: Seq<char>,
)
    requires
        reported.len() > 0,
        !rooted(reported),
    ensures
        file == joined(root, reported) ==> is_same_file(table, root, reported, file),
        components_of(reported).len() > 0 && components_of(file).len() > 0 && components_of(
            reported,
        ).last() != components_of(file).last() && components_of(joined(root, reported)).len() > 0
            && components_of(joined(root, reported)).last() == components_of(reported).last()
            ==> !is_same_file(table, root, reported, file),
{
    let r = components_of(reported);
    let f = components_of(file);
    if r.len() > 0 && f.len() > 0 && r.last() != f.last() {
        if is_tail(file, reported) {
            assert(f.skip(f.len() - r.len()) =~= r);
            assert(f.skip(f.len() - r.len()).last() == f.last());
        }
    }
}

// ---------------------------------------------------------------------------
// What a probe comes to
// ---------------------------------------------------------------------------

/// Whether a type can be written down: it is not `_`, not in braces, not `impl ...`, and not
/// a single capital letter.
pub open spec fn can_be_written(t: Seq<char>) -> bool {
    &&& is_trimmed(t)
    &&& t[0] != '`' && t.last() != '`'
    &&& t != seq!['_']
    &&& !(t[0] == '{' && t.last() == '}')
    &&& !(t.len() >= 5 && t.take(5) == "impl "@)
    &&& !(t.len() == 1 && 'A' <= t[0] <= 'Z')
}

proof fn lemma_written_types_are_concrete(t: Seq<char>)
    requires
        can_be_written(t),
    ensures
        bare_type(t) == t,
        type_problem(t) is None,
{
    reveal_strlit("_");
    reveal_strlit("{");
    reveal_strlit("}");
    reveal_strlit("impl ");
    lemma_trimmed_stays(t);
    assert("_"@ =~= seq!['_']);
    if begins(t, "{"@) {
        assert(t.take(1)[0] == t[0]);
    }
    if ends(t, "}"@) {
        assert(t.skip(t.len() - 1)[0] == t.last());
    }
}

/// A type that cannot be written down is refused, with its text in the reason.
pub proof fn lemma_other_types_are_refused(t: Seq<char>)
    ensures
        t == seq!['_'] ==> type_problem(t) is Some,
        t.len() == 0 ==> type_problem(t) is Some,
        t.len() >= 2 && t[0] == '{' && t.last() == '}' ==> type_problem(t) is Some,
        t.len() >= 5 && t.take(5) == "impl "@ ==> type_problem(t) is Some,
        t.len() == 1 && 'A' <= t[0] <= 'Z' ==> type_problem(t) is Some,
{
    reveal_strlit("_");
    reveal_strlit("{");
    reveal_strlit("}");
    reveal_strlit("impl ");
    assert("_"@ =~= seq!['_']);
    if t.len() >= 2 && t[0] == '{' && t.last() == '}' {
        assert(t.take(1) =~= "{"@);
        assert(t.skip(t.len() - 1) =~= "}"@);
    }
}

proof fn lemma_first_label(spans: Seq<Span>, j: int)
    requires
        0 <= j < spans.len(),
        spans[j].label is Some,
        forall|i: int| 0 <= i < j ==> (#[trigger] spans[i]).label is None,
    ensures
        labels_of(spans).len() > 0,
        labels_of(spans)[0] == spans[j].label->0@,
    decreases spans.len(),
{
    let front = spans.drop_last();
    if j < front.len() {
        assert forall|i: int| 0 <= i < j implies (#[trigger] front[i]).label is None by {
            assert(front[i] == spans[i]);
        }
        lemma_first_label(front, j);
    } else {
        lemma_no_labels(front);
    }
}

proof fn lemma_no_labels(spans: Seq<Span>)
    requires
        forall|i: int| 0 <= i < spans.len() ==> (#[trigger] spans[i]).label is None,
    ensures
        labels_of(spans).len() == 0,
    decreases spans.len(),
{
    if spans.len() > 0 {
        let front = spans.drop_last();
        assert forall|i: int| 0 <= i < front.len() implies (#[trigger] front[i]).label is None by {
            assert(front[i] == spans[i]);
        }
        assert(spans[spans.len() - 1].label is None);
        lemma_no_labels(front);
    }
}

/// A diagnostic names the type that its first label says is expected, when its headline
/// says nothing of it.
pub proof fn lemma_label_names_the_type(d: Diagnostic, j: int, t: Seq<char>, found: Seq<char>)
    requires
        is_free_of(d.message@, "expected "@),
        0 <= j < d.spans@.len(),
        forall|i: int| 0 <= i < j ==> (#[trigger] d.spans@[i]).label is None,
        d.spans@[j].label matches Some(l) && l@ == quoted_label(seq![], t, found),
        is_trimmed(t),
        has_no_backtick(t),
        is_free_of(t, ", found"@),
    ensures
        type_named(d) == Some(t),
{
    reveal_strlit(", found");
    let none = Seq::<char>::empty();
    assert(is_free_of(none, ", found"@));
    lemma_quoted_type_is_read_whole(none, t, found);
    lemma_no_expectation_no_type(d.message@);
    lemma_first_label(d.spans@, j);
    let texts = texts_of(d);
    assert(texts[0] == d.message@);
    assert(texts[1] == labels_of(d.spans@)[0]);
    reveal_with_fuel(first_expected, 3);
}

/// The probe's outcome is the type that the first error about the hole names, when it can
/// be written down; a statement has no type, and neither has a hole whose check is clean.
pub proof fn lemma_probe_finds_the_type(
    table: PathTable,
    root: Seq<char>,
    hole: HoleView,
    run: CheckRun,
    blame: Seq<Diagnostic>,
    t: Seq<char>,
    isolation: Isolation,
)
    ensures
        hole.position != HolePosition::Statement && blame.len() > 0 && type_named(blame[0]) == Some(
            t,
        ) && can_be_written(t) ==> decided(table, root, hole, run, blame, isolation) == Some(
            OutcomeView::Known(t),
        ),
        hole.position == HolePosition::Statement ==> decided(
            table,
            root,
            hole,
            run,
            blame,
            isolation,
        ) == Some(OutcomeView::NoExpectation),
        blame.len() == 0 && (forall|i: int|
            0 <= i < run.diagnostics@.len() ==> (#[trigger] run.diagnostics@[i]).level@ != "error"@)
            ==> decided(table, root, hole, run, blame, isolation) == Some(
            OutcomeView::NoExpectation,
        ),
        hole.position != HolePosition::Statement && blame.len() == 0 && (exists|i: int|
            0 <= i < run.diagnostics@.len() && (#[trigger] run.diagnostics@[i]).level@ == "error"@)
            ==> match isolation {
            Isolation::Batched => decided(table, root, hole, run, blame, isolation) is None,
            Isolation::Single => decided(table, root, hole, run, blame, isolation) matches Some(
                OutcomeView::ProbeFailed(_),
            ),
        },
        decided(table, root, hole, run, blame, isolation) matches Some(OutcomeView::Known(ty))
            ==> exists|i: int|
            0 <= i < blame.len() && type_named(#[trigger] blame[i]) is Some && ty == bare_type(
                type_named(blame[i])->0,
            ),
{
    if can_be_written(t) {
        lemma_written_types_are_concrete(t);
    }
    lemma_errors_are_those_of_that_level(run.diagnostics@);
    let ds = run.diagnostics@;
    let pred = |d: Diagnostic| d.level@ == "error"@;
    let errors = ds.filter(pred);
    lemma_filter_empty(ds, pred);
    if let Some(OutcomeView::Known(ty)) = decided(table, root, hole, run, blame, isolation) {
        lemma_first_concrete(blame, 0);
    }
}

proof fn lemma_filter_empty(ds: Seq<Diagnostic>, pred: spec_fn(Diagnostic) -> bool)
    ensures
        ds.filter(pred).len() == 0 <==> forall|i: int| 0 <= i < ds.len() ==> !pred(#[trigger] ds[i]),
    decreases ds.len(),
{
    reveal(Seq::filter);
    if ds.len() > 0 {
        let front = ds.drop_last();
        lemma_filter_empty(front, pred);
        assert(ds[ds.len() - 1] == ds.last());
        if forall|i: int| 0 <= i < ds.len() ==> !pred(#[trigger] ds[i]) {
            assert forall|i: int| 0 <= i < front.len() implies !pred(#[trigger] front[i]) by {
                assert(front[i] == ds[i]);
            }
        }
        if ds.filter(pred).len() == 0 {
            assert forall|i: int| 0 <= i < ds.len() implies !pred(#[trigger] ds[i]) by {
                if i < front.len() {
                    assert(front[i] == ds[i]);
                }
            }
        }
    }
}

proof fn lemma_first_concrete(blame: Seq<Diagnostic>, i: int)
    requires
        0 <= i,
        first_concrete(blame, i) is Some,
    ensures
        exists|k: int|
            0 <= k < blame.len() && type_named(#[trigger] blame[k]) is Some && first_concrete(blame, i)
                == Some(bare_type(type_named(blame[k])->0)),
    decreases blame.len() - i,
{
    if i < blame.len() {
        match type_named(blame[i]) {
            Some(ty) => {
                if type_problem(bare_type(ty)) is None {
                    assert(type_named(blame[i]) is Some);
                } else {
                    lemma_first_concrete(blame, i + 1);
                }
            },
            None => {
                lemma_first_concrete(blame, i + 1);
            },
        }
    }
}

/// Probing a hole puts the two bytes `()` in its place and leaves the rest of the file.
pub proof fn lemma_probe_puts_unit_in_place(src: Seq<char>, h: Hole)
    ensures
        unit_patched(src, h) == encode_utf8(src).take(h.byte_start as int) + seq![40u8, 41u8]
            + encode_utf8(src).skip(h.byte_end as int),
        unit_edit(h).byte_start == h.byte_start,
        unit_edit(h).byte_end == h.byte_end,
        inserted(unit_edit(h)) == seq![40u8, 41u8],
{
    reveal_strlit("()");
    assert(UNIT@ =~= seq!['(', ')']);
    let s = seq!['(', ')'];
    assert(vstd::utf8::is_ascii_chars(s));
    vstd::utf8::is_ascii_chars_encode_utf8(s);
    assert(s[0] as u8 == 40 && s[1] as u8 == 41);
    assert(encode_utf8(s) =~= seq![40u8, 41u8]);
}

} // verus!
