//! Splicing replacement text into a source file.
use vstd::prelude::*;
use vstd::utf8::{encode_utf8, is_char_boundary};

use crate::bytes::{byte_len, lemma_encode_concat, lemma_ends_are_boundaries, on_boundary, slice};
use crate::order::{is_stable_order, key_less, order_of, sort_positions, Key};
use crate::text::{decimal_of, decimal_usize, owned};

verus! {

/// One replacement: bytes `byte_start..byte_end` of the original become
/// `replacement`.
///
/// The general form of what a probe does with a unit value and what a verifier
/// does with generated code. Both splice text into a source file and then need
/// to know where each piece landed.
#[derive(Debug, Clone, Copy, PartialEq, Eq)]
pub struct Edit<'a> {
    pub byte_start: usize,
    pub byte_end: usize,
    pub replacement: &'a str,
}

/// The bytes an edit puts in.
pub open spec fn inserted(e: Edit) -> Seq<u8> {
    encode_utf8(e.replacement@)
}

/// Why `e` cannot be applied to `src` by itself, if it cannot.
pub open spec fn edit_error(src: Seq<u8>, e: Edit) -> Option<Seq<char>> {
    let head = "edit "@ + decimal_of(e.byte_start as nat) + ".."@ + decimal_of(e.byte_end as nat);
    if e.byte_start > e.byte_end {
        Some(head + " ends before it starts"@)
    } else if e.byte_end > src.len() {
        Some(
            head + " runs past the end of a "@ + decimal_of(src.len()) + " byte file"@,
        )
    } else if !is_char_boundary(src, e.byte_start as int) || !is_char_boundary(
        src,
        e.byte_end as int,
    ) {
        Some(head + " does not land on character boundaries"@)
    } else {
        None
    }
}

/// The error of the first edit from `i` on that cannot be applied.
pub open spec fn first_edit_error(src: Seq<u8>, edits: Seq<Edit>, i: int) -> Option<Seq<char>>
    decreases edits.len() - i,
{
    if i >= edits.len() {
        None
    } else if edit_error(src, edits[i]) is Some {
        edit_error(src, edits[i])
    } else {
        first_edit_error(src, edits, i + 1)
    }
}

/// The range of an edit as a sort key.
pub open spec fn edit_key(e: Edit) -> Key {
    (e.byte_start, e.byte_end, 0usize)
}

/// No two edits address the same range.
pub open spec fn distinct_ranges(edits: Seq<Edit>) -> bool {
    forall|i: int, j: int|
        0 <= i < j < edits.len() ==> edit_key(#[trigger] edits[i]) != edit_key(#[trigger] edits[j])
}

/// The order edits are applied in: by where they start, then where they end.
pub open spec fn edit_keys(edits: Seq<Edit>) -> Seq<Key> {
    Seq::new(edits.len(), |i: int| edit_key(edits[i]))
}

/// The edits from left to right.
pub open spec fn left_to_right(edits: Seq<Edit>) -> Seq<Edit> {
    let order = order_of(edit_keys(edits));
    Seq::new(order.len(), |k: int| edits[order[k] as int])
}

/// Why two edits cannot both be applied.
pub open spec fn overlap_message(a: Edit, b: Edit) -> Seq<char> {
    "edits at bytes "@ + decimal_of(a.byte_start as nat) + ".."@ + decimal_of(a.byte_end as nat)
        + " and "@ + decimal_of(b.byte_start as nat) + ".."@ + decimal_of(b.byte_end as nat)
        + " overlap, so they cannot be spliced together"@
}

/// The two edits overlap, or address the same range. An empty range overlaps
/// nothing, not even itself, so the second has to be asked for on its own.
pub open spec fn collide(a: Edit, b: Edit) -> bool {
    b.byte_start < a.byte_end || edit_key(a) == edit_key(b)
}

/// The first pair of neighbours, from position `k` on, that overlap or address
/// the same range.
pub open spec fn first_overlap(sorted: Seq<Edit>, k: int) -> Option<Seq<char>>
    decreases sorted.len() - k,
{
    if k + 1 >= sorted.len() {
        None
    } else if collide(sorted[k], sorted[k + 1]) {
        Some(overlap_message(sorted[k], sorted[k + 1]))
    } else {
        first_overlap(sorted, k + 1)
    }
}

/// Why the edits cannot be spliced into `src`, if they cannot.
pub open spec fn splice_error(src: Seq<u8>, edits: Seq<Edit>) -> Option<Seq<char>> {
    if first_edit_error(src, edits, 0) is Some {
        first_edit_error(src, edits, 0)
    } else {
        first_overlap(left_to_right(edits), 0)
    }
}

/// Where the untouched text after the first `k` edits begins in the original.
pub open spec fn resume_at(sorted: Seq<Edit>, k: int) -> int {
    if k <= 0 {
        0
    } else {
        sorted[k - 1].byte_end as int
    }
}

/// The new text up to where edit `k` begins.
pub open spec fn before_edit(src: Seq<u8>, sorted: Seq<Edit>, k: int) -> Seq<u8>
    decreases k, 1int,
{
    spliced_first(src, sorted, k) + src.subrange(
        resume_at(sorted, k),
        sorted[k].byte_start as int,
    )
}

/// The new text up to the end of the first `k` edits.
pub open spec fn spliced_first(src: Seq<u8>, sorted: Seq<Edit>, k: int) -> Seq<u8>
    decreases k, 0int,
{
    if k <= 0 {
        seq![]
    } else {
        before_edit(src, sorted, k - 1) + inserted(sorted[k - 1])
    }
}

/// `src` with the edits, given from left to right, applied.
pub open spec fn spliced(src: Seq<u8>, sorted: Seq<Edit>) -> Seq<u8> {
    spliced_first(src, sorted, sorted.len() as int) + src.subrange(
        resume_at(sorted, sorted.len() as int),
        src.len() as int,
    )
}

/// Where the replacement of the `k`-th edit from the left begins in the new
/// text.
pub open spec fn anchor(src: Seq<u8>, sorted: Seq<Edit>, k: int) -> int {
    before_edit(src, sorted, k).len() as int
}

/// Every edit is inside the text, and each begins no earlier than the one
/// before it ends.
pub open spec fn disjoint(src: Seq<u8>, sorted: Seq<Edit>) -> bool {
    &&& forall|k: int|
        0 <= k < sorted.len() ==> (#[trigger] sorted[k]).byte_start <= sorted[k].byte_end
            <= src.len()
    &&& forall|k: int|
        0 < k < sorted.len() ==> sorted[k - 1].byte_end <= (#[trigger] sorted[k]).byte_start
}

// ---------------------------------------------------------------------------
// Laws
// ---------------------------------------------------------------------------

proof fn lemma_no_edit_error(src: Seq<u8>, edits: Seq<Edit>, i: int)
    requires
        first_edit_error(src, edits, i) is None,
        0 <= i,
    ensures
        forall|k: int| i <= k < edits.len() ==> edit_error(src, #[trigger] edits[k]) is None,
    decreases edits.len() - i,
{
    if i < edits.len() {
        lemma_no_edit_error(src, edits, i + 1);
    }
}

proof fn lemma_no_overlap(sorted: Seq<Edit>, k: int)
    requires
        first_overlap(sorted, k) is None,
        0 <= k,
    ensures
        forall|j: int|
            k < j < sorted.len() ==> !collide(sorted[j - 1], #[trigger] sorted[j]),
    decreases sorted.len() - k,
{
    if k + 1 < sorted.len() {
        lemma_no_overlap(sorted, k + 1);
    }
}

/// Neighbours that do not collide are strictly in order, so that any two are.
proof fn lemma_strictly_before(edits: Seq<Edit>, i: int, j: int)
    requires
        edits.len() <= usize::MAX,
        first_overlap(left_to_right(edits), 0) is None,
        0 <= i < j < edits.len(),
    ensures
        left_to_right(edits).len() == edits.len(),
        key_less(edit_key(left_to_right(edits)[i]), edit_key(left_to_right(edits)[j])),
    decreases j,
{
    let keys = edit_keys(edits);
    let order = order_of(keys);
    let sorted = left_to_right(edits);
    crate::order::lemma_order_is_stable(keys, edits.len() as int);
    lemma_no_overlap(sorted, 0);
    assert(crate::order::comes_before(keys, order[j - 1] as int, order[j] as int));
    assert(order[j - 1] < edits.len() && order[j] < edits.len());
    assert(!collide(sorted[j - 1], sorted[j]));
    if i < j - 1 {
        lemma_strictly_before(edits, i, j - 1);
    }
}

/// Edits that can be spliced are inside the text, do not overlap, and no two of
/// them address the same range, not even an empty one.
pub proof fn lemma_accepted_edits_are_disjoint(src: Seq<u8>, edits: Seq<Edit>)
    requires
        splice_error(src, edits) is None,
        edits.len() <= usize::MAX,
    ensures
        left_to_right(edits).len() == edits.len(),
        disjoint(src, left_to_right(edits)),
        forall|k: int|
            0 <= k < edits.len() ==> edit_error(src, #[trigger] left_to_right(edits)[k]) is None,
        distinct_ranges(edits),
{
    let sorted = left_to_right(edits);
    let order = order_of(edit_keys(edits));
    crate::order::lemma_order_is_stable(edit_keys(edits), edits.len() as int);
    lemma_no_edit_error(src, edits, 0);
    lemma_no_overlap(sorted, 0);
    assert forall|k: int| 0 <= k < edits.len() implies edit_error(src, #[trigger] sorted[k]) is None
        && sorted[k].byte_start <= sorted[k].byte_end <= src.len() by {
        assert(order[k] < edits.len());
        assert(sorted[k] == edits[order[k] as int]);
        assert(edit_error(src, edits[order[k] as int]) is None);
    }
    assert forall|k: int| 0 < k < sorted.len() implies sorted[k - 1].byte_end <= (
    #[trigger] sorted[k]).byte_start by {
        assert(!collide(sorted[k - 1], sorted[k]));
    }
    assert forall|i: int, j: int| 0 <= i < j < edits.len() implies edit_key(#[trigger] edits[i])
        != edit_key(#[trigger] edits[j]) by {
        assert(order.contains(i as usize) && order.contains(j as usize));
        let p = choose|p: int| 0 <= p < order.len() && order[p] == i as usize;
        let q = choose|q: int| 0 <= q < order.len() && order[q] == j as usize;
        assert(sorted[p] == edits[i] && sorted[q] == edits[j]);
        if p < q {
            lemma_strictly_before(edits, p, q);
        } else {
            lemma_strictly_before(edits, q, p);
        }
    }
}

/// What is spliced in first stays as it was: the new text begins with the text
/// up to any edit.
proof fn lemma_spliced_prefix(src: Seq<u8>, sorted: Seq<Edit>, k: int, n: int)
    requires
        disjoint(src, sorted),
        0 <= k <= n <= sorted.len(),
    ensures
        spliced_first(src, sorted, k).len() <= spliced_first(src, sorted, n).len(),
        spliced_first(src, sorted, n).take(spliced_first(src, sorted, k).len() as int)
            == spliced_first(src, sorted, k),
    decreases n,
{
    let a = spliced_first(src, sorted, k);
    if k < n {
        lemma_spliced_prefix(src, sorted, k, n - 1);
        let b = spliced_first(src, sorted, n - 1);
        let c = spliced_first(src, sorted, n);
        assert(c.take(b.len() as int) == b);
        assert(c.take(a.len() as int) == b.take(a.len() as int));
    } else {
        assert(a.take(a.len() as int) == a);
    }
}

/// Each replacement stands, whole, at its anchor in the new text.
pub proof fn lemma_region_holds_replacement(src: Seq<u8>, sorted: Seq<Edit>, k: int)
    requires
        disjoint(src, sorted),
        0 <= k < sorted.len(),
    ensures
        0 <= anchor(src, sorted, k),
        anchor(src, sorted, k) + inserted(sorted[k]).len() <= spliced(src, sorted).len(),
        spliced(src, sorted).subrange(
            anchor(src, sorted, k),
            anchor(src, sorted, k) + inserted(sorted[k]).len(),
        ) == inserted(sorted[k]),
{
    let n = sorted.len() as int;
    let all = spliced_first(src, sorted, n);
    let upto = spliced_first(src, sorted, k + 1);
    let start = anchor(src, sorted, k);
    let end = start + inserted(sorted[k]).len();
    lemma_spliced_prefix(src, sorted, k + 1, n);
    assert(upto.len() == end);
    assert(upto.subrange(start, end) == inserted(sorted[k]));
    assert(spliced(src, sorted).subrange(start, end) == upto.subrange(start, end)) by {
        assert(all.take(upto.len() as int) == upto);
        assert forall|j: int| start <= j < end implies spliced(src, sorted)[j] == upto[j] by {
            assert(all[j] == all.take(upto.len() as int)[j]);
        }
    }
}

/// The text between two neighbouring edits is carried over as it was, right
/// before the second one's anchor.
pub proof fn lemma_gap_is_untouched(src: Seq<u8>, sorted: Seq<Edit>, k: int)
    requires
        disjoint(src, sorted),
        0 <= k < sorted.len(),
    ensures
        spliced(src, sorted).subrange(
            anchor(src, sorted, k) - (sorted[k].byte_start - resume_at(sorted, k)),
            anchor(src, sorted, k),
        ) == src.subrange(resume_at(sorted, k), sorted[k].byte_start as int),
{
    let n = sorted.len() as int;
    let all = spliced_first(src, sorted, n);
    let upto = spliced_first(src, sorted, k + 1);
    let end = anchor(src, sorted, k);
    let gap = src.subrange(resume_at(sorted, k), sorted[k].byte_start as int);
    lemma_spliced_prefix(src, sorted, k + 1, n);
    assert(all.take(upto.len() as int) == upto);
    assert(before_edit(src, sorted, k).subrange(end - gap.len(), end) == gap);
    assert forall|j: int| end - gap.len() <= j < end implies spliced(src, sorted)[j]
        == before_edit(src, sorted, k)[j] by {
        assert(all[j] == all.take(upto.len() as int)[j]);
    }
    assert(spliced(src, sorted).subrange(end - gap.len(), end) == gap);
}

/// The text after the last edit is carried over as it was, at the end.
pub proof fn lemma_tail_is_untouched(src: Seq<u8>, sorted: Seq<Edit>)
    requires
        disjoint(src, sorted),
    ensures
        ({
            let from = resume_at(sorted, sorted.len() as int);
            let new = spliced(src, sorted);
            new.len() >= src.len() - from && new.skip(new.len() - (src.len() - from)) == src.skip(
                from,
            )
        }),
{
    let n = sorted.len() as int;
    let from = resume_at(sorted, n);
    let new = spliced(src, sorted);
    if n > 0 {
        assert(sorted[n - 1].byte_end <= src.len());
    }
    assert(new.skip(new.len() - (src.len() - from)) == src.skip(from));
}

/// Whether `piece` stands in `text` at a position.
pub open spec fn stands_in(text: Seq<u8>, piece: Seq<u8>, at: int) -> bool {
    0 <= at && at + piece.len() <= text.len() && text.subrange(at, at + piece.len()) == piece
}

#[verifier::rlimit(60)]
#[verifier::spinoff_prover]
proof fn lemma_untouched_from(src: Seq<u8>, sorted: Seq<Edit>, from: int, to: int, k: int)
    requires
        disjoint(src, sorted),
        0 <= from <= to <= src.len(),
        0 <= k <= sorted.len(),
        resume_at(sorted, k) <= from,
        forall|j: int|
            0 <= j < sorted.len() ==> (#[trigger] sorted[j]).byte_end <= from || to
                <= sorted[j].byte_start,
    ensures
        exists|at: int| stands_in(spliced(src, sorted), src.subrange(from, to), at),
    decreases sorted.len() - k,
{
    let new = spliced(src, sorted);
    let piece = src.subrange(from, to);
    let resume = resume_at(sorted, k);
    if k == sorted.len() {
        lemma_tail_is_untouched(src, sorted);
        let tail = new.len() - (src.len() - resume);
        let at = tail + (from - resume);
        assert forall|j: int| 0 <= j < piece.len() implies new[at + j] == piece[j] by {
            assert(new.skip(tail)[from - resume + j] == src.skip(resume)[from - resume + j]);
        }
        assert(new.subrange(at, at + piece.len()) =~= piece);
        assert(stands_in(new, piece, at));
    } else if sorted[k].byte_end <= from {
        lemma_untouched_from(src, sorted, from, to, k + 1);
    } else {
        lemma_gap_is_untouched(src, sorted, k);
        lemma_region_holds_replacement(src, sorted, k);
        let end = anchor(src, sorted, k);
        let gap = end - (sorted[k].byte_start - resume);
        let at = gap + (from - resume);
        assert(before_edit(src, sorted, k).len() == spliced_first(src, sorted, k).len() + (
        sorted[k].byte_start - resume));
        assert forall|j: int| 0 <= j < piece.len() implies new[at + j] == piece[j] by {
            assert(new.subrange(gap, end)[from - resume + j] == src.subrange(
                resume,
                sorted[k].byte_start as int,
            )[from - resume + j]);
        }
        assert(new.subrange(at, at + piece.len()) =~= piece);
        assert(stands_in(new, piece, at));
    }
}

/// What no edit touches is carried over, whole.
pub proof fn lemma_untouched_text_is_kept(src: Seq<u8>, sorted: Seq<Edit>, from: int, to: int)
    requires
        disjoint(src, sorted),
        0 <= from <= to <= src.len(),
        forall|j: int|
            0 <= j < sorted.len() ==> (#[trigger] sorted[j]).byte_end <= from || to
                <= sorted[j].byte_start,
    ensures
        exists|at: int| stands_in(spliced(src, sorted), src.subrange(from, to), at),
{
    lemma_untouched_from(src, sorted, from, to, 0);
}

/// No edit, no change.
pub proof fn lemma_no_edits_no_change(src: Seq<u8>)
    ensures
        splice_error(src, seq![]) is None,
        spliced(src, left_to_right(seq![])) == src,
{
    assert(left_to_right(Seq::<Edit>::empty()) == Seq::<Edit>::empty());
    assert(seq![] + src.subrange(0, src.len() as int) == src);
}

/// One edit replaces its range and nothing else.
pub proof fn lemma_one_edit(src: Seq<u8>, e: Edit)
    requires
        e.byte_start <= e.byte_end <= src.len(),
    ensures
        left_to_right(seq![e]) == seq![e],
        splice_error(src, seq![e]) == edit_error(src, e),
        spliced(src, seq![e]) == src.take(e.byte_start as int) + inserted(e) + src.skip(
            e.byte_end as int,
        ),
        anchor(src, seq![e], 0) == e.byte_start,
{
    let s = seq![e];
    crate::order::lemma_order_is_stable(edit_keys(s), 1);
    assert(order_of(edit_keys(s))[0] == 0);
    assert(left_to_right(s) =~= s);
    reveal_with_fuel(first_edit_error, 2);
    reveal_with_fuel(first_overlap, 1);
    reveal_with_fuel(spliced_first, 2);
    reveal_with_fuel(before_edit, 2);
    assert(spliced_first(src, s, 0) == Seq::<u8>::empty());
    assert(before_edit(src, s, 0) =~= src.take(e.byte_start as int));
    assert(spliced_first(src, s, 1) =~= src.take(e.byte_start as int) + inserted(e));
    assert(src.subrange(e.byte_end as int, src.len() as int) =~= src.skip(e.byte_end as int));
}

/// Each edit ranges before all edits after it.
spec fn strictly_sorted(edits: Seq<Edit>) -> bool {
    forall|i: int, j: int|
        0 <= i < j < edits.len() ==> key_less(
            edit_key(#[trigger] edits[i]),
            edit_key(#[trigger] edits[j]),
        )
}

/// Two lists that hold the same edits.
pub open spec fn same_edits(a: Seq<Edit>, b: Seq<Edit>) -> bool {
    forall|e: Edit| #[trigger] a.contains(e) <==> b.contains(e)
}

proof fn lemma_left_to_right(edits: Seq<Edit>)
    requires
        edits.len() <= usize::MAX,
        distinct_ranges(edits),
    ensures
        strictly_sorted(left_to_right(edits)),
        same_edits(left_to_right(edits), edits),
{
    let keys = edit_keys(edits);
    let order = order_of(keys);
    let sorted = left_to_right(edits);
    crate::order::lemma_order_is_stable(keys, edits.len() as int);
    assert forall|i: int, j: int| 0 <= i < j < sorted.len() implies key_less(
        edit_key(#[trigger] sorted[i]),
        edit_key(#[trigger] sorted[j]),
    ) by {
        assert(crate::order::comes_before(keys, order[i] as int, order[j] as int));
        assert(order[i] != order[j]);
        if order[i] < order[j] {
            assert(edit_key(edits[order[i] as int]) != edit_key(edits[order[j] as int]));
        } else {
            assert(edit_key(edits[order[j] as int]) != edit_key(edits[order[i] as int]));
        }
    }
    assert forall|e: Edit| #[trigger] sorted.contains(e) <==> edits.contains(e) by {
        if sorted.contains(e) {
            let k = choose|k: int| 0 <= k < sorted.len() && sorted[k] == e;
            assert(order[k] < edits.len());
            assert(edits[order[k] as int] == e);
        }
        if edits.contains(e) {
            let i = choose|i: int| 0 <= i < edits.len() && edits[i] == e;
            assert(order.contains(i as usize));
            let k = choose|k: int| 0 <= k < order.len() && order[k] == i as usize;
            assert(sorted[k] == e);
        }
    }
}

proof fn lemma_sorted_unique(a: Seq<Edit>, b: Seq<Edit>)
    requires
        strictly_sorted(a),
        strictly_sorted(b),
        same_edits(a, b),
    ensures
        a == b,
    decreases a.len(),
{
    if a.len() == 0 {
        if b.len() > 0 {
            assert(b.contains(b[0]));
            assert(a.contains(b[0]));
        }
        assert(a =~= b);
    } else {
        assert(a.contains(a.last()));
        assert(b.contains(a.last()));
        let j = choose|j: int| 0 <= j < b.len() && b[j] == a.last();
        assert(b.contains(b.last()));
        assert(a.contains(b.last()));
        let i = choose|i: int| 0 <= i < a.len() && a[i] == b.last();
        assert(a.last() == a[a.len() - 1]);
        assert(b.last() == b[b.len() - 1]);
        assert(a.last() == b.last());
        let x = a.drop_last();
        let y = b.drop_last();
        assert forall|e: Edit| #[trigger] x.contains(e) <==> y.contains(e) by {
            if x.contains(e) {
                let k = choose|k: int| 0 <= k < x.len() && x[k] == e;
                assert(a[k] == e);
                assert(a.contains(e));
                assert(b.contains(e));
                let m = choose|m: int| 0 <= m < b.len() && b[m] == e;
                assert(key_less(edit_key(a[k]), edit_key(a[a.len() - 1])));
                assert(m < b.len() - 1);
                assert(y[m] == e);
            }
            if y.contains(e) {
                let k = choose|k: int| 0 <= k < y.len() && y[k] == e;
                assert(b[k] == e);
                assert(b.contains(e));
                assert(a.contains(e));
                let m = choose|m: int| 0 <= m < a.len() && a[m] == e;
                assert(key_less(edit_key(b[k]), edit_key(b[b.len() - 1])));
                assert(m < a.len() - 1);
                assert(x[m] == e);
            }
        }
        lemma_sorted_unique(x, y);
        assert(a =~= x.push(a.last()));
        assert(b =~= y.push(b.last()));
    }
}

proof fn lemma_edit_errors_absent(src: Seq<u8>, edits: Seq<Edit>, i: int)
    requires
        0 <= i,
        forall|k: int| 0 <= k < edits.len() ==> edit_error(src, #[trigger] edits[k]) is None,
    ensures
        first_edit_error(src, edits, i) is None,
    decreases edits.len() - i,
{
    if i < edits.len() {
        lemma_edit_errors_absent(src, edits, i + 1);
    }
}

/// The order the edits are given in does not matter, as long as no two address
/// the same range: the same edits give the same text.
pub proof fn lemma_edit_order_is_irrelevant(src: Seq<u8>, a: Seq<Edit>, b: Seq<Edit>)
    requires
        a.len() <= usize::MAX,
        b.len() <= usize::MAX,
        distinct_ranges(a),
        distinct_ranges(b),
        same_edits(a, b),
    ensures
        left_to_right(a) == left_to_right(b),
        spliced(src, left_to_right(a)) == spliced(src, left_to_right(b)),
        splice_error(src, a) is None <==> splice_error(src, b) is None,
{
    lemma_left_to_right(a);
    lemma_left_to_right(b);
    let x = left_to_right(a);
    let y = left_to_right(b);
    assert forall|e: Edit| #[trigger] x.contains(e) <==> y.contains(e) by {
        assert(a.contains(e) <==> b.contains(e));
    }
    lemma_sorted_unique(x, y);
    if first_edit_error(src, a, 0) is None {
        lemma_no_edit_error(src, a, 0);
        assert forall|k: int| 0 <= k < b.len() implies edit_error(src, #[trigger] b[k]) is None by {
            assert(b.contains(b[k]));
            assert(a.contains(b[k]));
        }
        lemma_edit_errors_absent(src, b, 0);
    }
    if first_edit_error(src, b, 0) is None {
        lemma_no_edit_error(src, b, 0);
        assert forall|k: int| 0 <= k < a.len() implies edit_error(src, #[trigger] a[k]) is None by {
            assert(a.contains(a[k]));
            assert(b.contains(a[k]));
        }
        lemma_edit_errors_absent(src, a, 0);
    }
}

/// Edits of the same ranges that put in the same bytes.
pub open spec fn alike(a: Seq<Edit>, b: Seq<Edit>) -> bool {
    &&& a.len() == b.len()
    &&& forall|k: int|
        0 <= k < a.len() ==> (#[trigger] a[k]).byte_start == b[k].byte_start && a[k].byte_end
            == b[k].byte_end && inserted(a[k]) == inserted(b[k])
}

proof fn lemma_alike_errors(src: Seq<u8>, a: Seq<Edit>, b: Seq<Edit>, i: int)
    requires
        alike(a, b),
        0 <= i,
    ensures
        first_edit_error(src, a, i) == first_edit_error(src, b, i),
    decreases a.len() - i,
{
    if i < a.len() {
        assert(a[i].byte_start == b[i].byte_start);
        assert(edit_error(src, a[i]) == edit_error(src, b[i]));
        lemma_alike_errors(src, a, b, i + 1);
    }
}

proof fn lemma_alike_overlaps(a: Seq<Edit>, b: Seq<Edit>, k: int)
    requires
        alike(a, b),
        0 <= k,
    ensures
        first_overlap(a, k) == first_overlap(b, k),
    decreases a.len() - k,
{
    if k + 1 < a.len() {
        assert(a[k].byte_end == b[k].byte_end);
        assert(a[k + 1].byte_start == b[k + 1].byte_start);
        assert(collide(a[k], a[k + 1]) == collide(b[k], b[k + 1]));
        lemma_alike_overlaps(a, b, k + 1);
    }
}

proof fn lemma_alike_first(src: Seq<u8>, a: Seq<Edit>, b: Seq<Edit>, k: int)
    requires
        alike(a, b),
        0 <= k <= a.len(),
    ensures
        spliced_first(src, a, k) == spliced_first(src, b, k),
        resume_at(a, k) == resume_at(b, k),
    decreases k,
{
    if k > 0 {
        lemma_alike_first(src, a, b, k - 1);
        assert(a[k - 1].byte_start == b[k - 1].byte_start);
    }
}

/// What is spliced depends on the ranges and the bytes put in alone.
pub proof fn lemma_alike_edits_splice_alike(src: Seq<u8>, a: Seq<Edit>, b: Seq<Edit>)
    requires
        alike(a, b),
        a.len() <= usize::MAX,
    ensures
        splice_error(src, a) == splice_error(src, b),
        spliced(src, left_to_right(a)) == spliced(src, left_to_right(b)),
{
    lemma_alike_errors(src, a, b, 0);
    assert(edit_keys(a) =~= edit_keys(b)) by {
        assert forall|i: int| 0 <= i < a.len() implies edit_keys(a)[i] == edit_keys(b)[i] by {
            assert(a[i].byte_start == b[i].byte_start);
        }
    }
    let order = order_of(edit_keys(a));
    crate::order::lemma_order_is_stable(edit_keys(a), a.len() as int);
    let x = left_to_right(a);
    let y = left_to_right(b);
    assert(alike(x, y)) by {
        assert forall|k: int| 0 <= k < x.len() implies (#[trigger] x[k]).byte_start == y[k].byte_start
            && x[k].byte_end == y[k].byte_end && inserted(x[k]) == inserted(y[k]) by {
            assert(order[k] < a.len());
            assert(a[order[k] as int].byte_start == b[order[k] as int].byte_start);
        }
    }
    lemma_alike_overlaps(x, y, 0);
    lemma_alike_first(src, x, y, x.len() as int);
}

// ---------------------------------------------------------------------------
// The operation
// ---------------------------------------------------------------------------

fn range_head(prefix: &str, start: usize, end: usize) -> (r: String)
    ensures
        r@ == prefix@ + decimal_of(start as nat) + ".."@ + decimal_of(end as nat),
{
    let mut m = owned(prefix);
    m.push_str(decimal_usize(start).as_str());
    m.push_str("..");
    m.push_str(decimal_usize(end).as_str());
    m
}

/// Why `e` cannot be applied to `src` by itself, if it cannot.
fn check_edit(src: &str, e: Edit<'_>) -> (r: Result<(), String>)
    ensures
        match r {
            Ok(()) => edit_error(encode_utf8(src@), e) is None,
            Err(m) => edit_error(encode_utf8(src@), e) == Some(m@),
        },
{
    let len: usize = byte_len(src);
    if e.byte_start > e.byte_end {
        let mut m = range_head("edit ", e.byte_start, e.byte_end);
        m.push_str(" ends before it starts");
        return Err(m);
    }
    if e.byte_end > len {
        let mut m = range_head("edit ", e.byte_start, e.byte_end);
        m.push_str(" runs past the end of a ");
        m.push_str(decimal_usize(len).as_str());
        m.push_str(" byte file");
        return Err(m);
    }
    if !on_boundary(src, e.byte_start) || !on_boundary(src, e.byte_end) {
        let mut m = range_head("edit ", e.byte_start, e.byte_end);
        m.push_str(" does not land on character boundaries");
        return Err(m);
    }
    Ok(())
}

/// The message for two edits that overlap or address the same range.
fn overlap_text(a: Edit<'_>, b: Edit<'_>) -> (r: String)
    ensures
        r@ == overlap_message(a, b),
{
    let mut m = range_head("edits at bytes ", a.byte_start, a.byte_end);
    m.push_str(" and ");
    m.push_str(decimal_usize(b.byte_start).as_str());
    m.push_str("..");
    m.push_str(decimal_usize(b.byte_end).as_str());
    m.push_str(" overlap, so they cannot be spliced together");
    m
}

/// Splice several non-overlapping edits into `src` in one pass.
///
/// Returns the new source together with each edit's byte offset in it, in the
/// **input's** order. Those offsets are the point: everything downstream works
/// in the new text's coordinates, because that is what rustc reports spans
/// against. Replacements are rarely the same length as what they replace, so
/// every edit after the first shifts.
///
/// Overlapping or duplicate ranges are refused rather than resolved: a caller
/// that got here with duplicates has a bug, and splicing both would silently
/// corrupt the file.
pub fn splice_many(src: &str, edits: &[Edit<'_>]) -> (r: Result<(String, Vec<usize>), String>)
    ensures
        match r {
            Ok((out, anchors)) => {
                let b = encode_utf8(src@);
                let sorted = left_to_right(edits@);
                &&& splice_error(b, edits@) is None
                &&& encode_utf8(out@) == spliced(b, sorted)
                &&& anchors@.len() == edits@.len()
                &&& forall|k: int|
                    0 <= k < edits@.len() ==> anchors@[#[trigger] order_of(
                        edit_keys(edits@),
                    )[k] as int] == anchor(b, sorted, k)
            },
            Err(m) => splice_error(encode_utf8(src@), edits@) == Some(m@),
        },
{
    let ghost b = encode_utf8(src@);
    let mut i: usize = 0;
    while i < edits.len()
        invariant
            i <= edits@.len(),
            b == encode_utf8(src@),
            first_edit_error(b, edits@, 0) == first_edit_error(b, edits@, i as int),
        decreases edits.len() - i,
    {
        match check_edit(src, edits[i]) {
            Ok(()) => {},
            Err(m) => {
                return Err(m);
            },
        }
        i = i + 1;
    }

    // Sort by start so splices can be emitted left to right, remembering where
    // each edit came from so the offsets can be returned in input order.
    let mut keys: Vec<Key> = Vec::new();
    let mut i: usize = 0;
    while i < edits.len()
        invariant
            i <= edits@.len(),
            keys@ == edit_keys(edits@).take(i as int),
        decreases edits.len() - i,
    {
        keys.push((edits[i].byte_start, edits[i].byte_end, 0));
        proof {
            assert(edit_keys(edits@).take(i + 1) =~= edit_keys(edits@).take(i as int).push(
                edit_keys(edits@)[i as int],
            ));
        }
        i = i + 1;
    }
    proof {
        assert(keys@ =~= edit_keys(edits@));
    }
    let order = sort_positions(&keys);
    let ghost sorted = left_to_right(edits@);
    proof {
        assert(order@ == order_of(edit_keys(edits@)));
    }

    let mut k: usize = 1;
    while k < order.len()
        invariant
            1 <= k,
            order@ == order_of(edit_keys(edits@)),
            order@.len() == edits@.len(),
            forall|j: int| 0 <= j < order@.len() ==> #[trigger] order@[j] < edits@.len(),
            sorted == left_to_right(edits@),
            first_edit_error(encode_utf8(src@), edits@, 0) is None,
            k > order@.len() ==> order@.len() == 0,
            first_overlap(sorted, 0) == first_overlap(sorted, k - 1),
        decreases order.len() - k,
    {
        let a = edits[order[k - 1]];
        let c = edits[order[k]];
        proof {
            assert(sorted[k - 1] == a);
            assert(sorted[k as int] == c);
        }
        if c.byte_start < a.byte_end || (a.byte_start == c.byte_start && a.byte_end == c.byte_end) {
            return Err(overlap_text(a, c));
        }
        k = k + 1;
    }
    proof {
        assert(first_overlap(sorted, 0) is None);
        lemma_accepted_edits_are_disjoint(b, edits@);
        lemma_ends_are_boundaries(src@);
    }

    let mut out = String::new();
    let mut anchors: Vec<usize> = vec![0usize; edits.len()];
    let mut cursor: usize = 0;
    let mut k: usize = 0;
    proof {
        assert(encode_utf8(out@) =~= seq![]);
    }
    while k < order.len()
        invariant
            k <= order@.len(),
            order@ == order_of(edit_keys(edits@)),
            order@.len() == edits@.len(),
            anchors@.len() == edits@.len(),
            is_stable_order(edit_keys(edits@), edits@.len() as int, order@),
            sorted == left_to_right(edits@),
            b == encode_utf8(src@),
            disjoint(b, sorted),
            sorted.len() == edits@.len(),
            forall|j: int| 0 <= j < edits@.len() ==> edit_error(b, #[trigger] sorted[j]) is None,
            is_char_boundary(b, 0),
            cursor == resume_at(sorted, k as int),
            encode_utf8(out@) == spliced_first(b, sorted, k as int),
            forall|j: int|
                0 <= j < k ==> anchors@[#[trigger] order@[j] as int] == anchor(b, sorted, j),
        decreases order.len() - k,
    {
        let at: usize = order[k];
        let e = edits[at];
        proof {
            assert(sorted[k as int] == e);
            assert(edit_error(b, sorted[k as int]) is None);
            if k > 0 {
                assert(edit_error(b, sorted[k - 1]) is None);
                assert(sorted[k - 1].byte_end <= sorted[k as int].byte_start);
            }
        }
        let gap = slice(src, cursor, e.byte_start);
        proof {
            lemma_encode_concat(out@, gap@);
        }
        out.push_str(gap);
        anchors.set(at, byte_len(out.as_str()));
        proof {
            lemma_encode_concat(out@, e.replacement@);
            assert forall|j: int| 0 <= j < k implies order@[j] != at by {
                assert(crate::order::comes_before(
                    edit_keys(edits@),
                    order@[j] as int,
                    order@[k as int] as int,
                ));
            }
        }
        out.push_str(e.replacement);
        cursor = e.byte_end;
        k = k + 1;
    }
    let len: usize = byte_len(src);
    proof {
        if k > 0 {
            assert(edit_error(b, sorted[k - 1]) is None);
        }
    }
    let tail = slice(src, cursor, len);
    proof {
        lemma_encode_concat(out@, tail@);
    }
    out.push_str(tail);
    Ok((out, anchors))
}

} // verus!
