//! What `list` shows of each hole.
use vstd::prelude::*;

use crate::hole::{position_name, summary_of, HoleView};
use crate::laws::numbers::{lemma_decimal_reads_back, lemma_decimals_differ};
use crate::path::{file_name_of, is_same_path};
use crate::render::{
    content_width, count_where, counts, field_rest, field_text, fields_text, file_heading, gutter,
    label_column, line_column, listing_text, note_of, plain_block, plain_blocks, pretty_block,
    pretty_blocks, pretty_header, status_of, status_text, status_word, summary_text, tally_of,
    tally_part, RenderOptions, Style, Tally,
};
use crate::text::{decimal_of, is_blank, is_space, join_of, right_aligned, spaces_of, trim_of};
use crate::util::shown_path;
use crate::wrap::{
    all_visible, lemma_nothing_is_elided, lemma_visible_concat, visible, wrapped,
};

verus! {

/// Texts one after the other.
pub open spec fn all_of(parts: Seq<Seq<char>>) -> Seq<char>
    decreases parts.len(),
{
    if parts.len() == 0 {
        seq![]
    } else {
        all_of(parts.drop_last()) + parts.last()
    }
}

/// The status the line-oriented layout has to show.
pub open spec fn plain_status(h: HoleView) -> Seq<char> {
    if h.unresolvable is Some {
        "UNRESOLVABLE"@
    } else if h.pinned {
        "PINNED"@
    } else {
        "open"@
    }
}

/// A line, with its end.
pub open spec fn line(s: Seq<char>) -> Seq<char> {
    s + "\n"@
}

/// Whether a block is the one of a hole: a line with its number, place, status, macro
/// and position, then its signature, its short spec, why it cannot be used, if so, and
/// an empty line.
pub open spec fn is_block_of(
    block: Seq<char>,
    root: Seq<char>,
    h: HoleView,
    number: nat,
    width: nat,
) -> bool {
    let place = shown_path(root, h.file) + ":"@ + decimal_of(h.line as nat);
    let kind = "("@ + h.macro_name + ", "@ + position_name(h.position) + ")"@;
    let why = match h.unresolvable {
        Some(reason) => line("     why:  "@ + reason),
        None => seq![],
    };
    block == line(
        "["@ + right_aligned(decimal_of(number), 2) + "] "@ + place + "  "@ + plain_status(h)
            + "  "@ + kind,
    ) + line("     fn:   "@ + h.fn_sig) + line("     spec: "@ + summary_of(h.spec, width)) + why
        + line(seq![])
}

proof fn lemma_plain_block(root: Seq<char>, h: HoleView, number: nat, width: nat)
    ensures
        is_block_of(plain_block(root, h, number, width), root, h, number, width),
{
    reveal_strlit("\n");
    reveal_strlit("");
    reveal_strlit("  (");
    reveal_strlit("  ");
    reveal_strlit("(");
    reveal_strlit(")");
    reveal_strlit(")\n     fn:   ");
    reveal_strlit("     fn:   ");
    reveal_strlit("\n     spec: ");
    reveal_strlit("     spec: ");
    let b = plain_block(root, h, number, width);
    assert("  ("@ =~= "  "@ + "("@);
    assert(")\n     fn:   "@ =~= ")"@ + "\n"@ + "     fn:   "@);
    assert("\n     spec: "@ =~= "\n"@ + "     spec: "@);
    let place = shown_path(root, h.file) + ":"@ + decimal_of(h.line as nat);
    let kind = "("@ + h.macro_name + ", "@ + position_name(h.position) + ")"@;
    let why = match h.unresolvable {
        Some(reason) => line("     why:  "@ + reason),
        None => seq![],
    };
    let first = "["@ + right_aligned(decimal_of(number), 2) + "] "@ + place + "  "@ + plain_status(h)
        + "  "@ + kind;
    assert(b =~= line(first) + line("     fn:   "@ + h.fn_sig) + line(
        "     spec: "@ + summary_of(h.spec, width),
    ) + why + line(seq![]));
}

proof fn lemma_plain_blocks(
    root: Seq<char>,
    holes: Seq<HoleView>,
    width: nat,
    blocks: Seq<Seq<char>>,
    n: int,
)
    requires
        0 <= n <= holes.len(),
        blocks.len() == holes.len(),
        forall|i: int|
            0 <= i < holes.len() ==> (#[trigger] blocks[i]) == plain_block(
                root,
                holes[i],
                (i + 1) as nat,
                width,
            ),
    ensures
        plain_blocks(root, holes, width, n) == all_of(blocks.take(n)),
    decreases n,
{
    if n > 0 {
        lemma_plain_blocks(root, holes, width, blocks, n - 1);
        assert(blocks.take(n).drop_last() =~= blocks.take(n - 1));
        assert(blocks.take(n).last() == blocks[n - 1]);
    }
}

/// How many holes are of a kind.
pub open spec fn how_many(holes: Seq<HoleView>, is_kind: spec_fn(HoleView) -> bool) -> nat {
    holes.filter(is_kind).len()
}

proof fn lemma_count(holes: Seq<HoleView>, what: Tally, is_kind: spec_fn(HoleView) -> bool)
    requires
        forall|h: HoleView| #[trigger] is_kind(h) == counts(h, what),
    ensures
        count_where(holes, what) == how_many(holes, is_kind),
    decreases holes.len(),
{
    reveal(Seq::filter);
    if holes.len() > 0 {
        lemma_count(holes.drop_last(), what, is_kind);
    }
}

/// What the line-oriented layout ends with: how many holes are open, pinned and
/// unresolvable, and a note where some are pinned.
pub open spec fn is_summary(text: Seq<char>, holes: Seq<HoleView>) -> bool {
    let open = how_many(holes, |h: HoleView| !h.pinned && h.unresolvable is None);
    let pinned = how_many(holes, |h: HoleView| h.pinned);
    let lost = how_many(holes, |h: HoleView| h.unresolvable is Some);
    text == line(
        "summary: "@ + decimal_of(open) + " open, "@ + decimal_of(pinned) + " pinned, "@
            + decimal_of(lost) + " unresolvable"@,
    ) + (if pinned > 0 {
        line(
            "note: "@ + decimal_of(pinned)
                + " pinned hole(s) are hand-written and will never be regenerated; they are tracked technical debt."@,
        )
    } else {
        seq![]
    })
}

proof fn lemma_summary(holes: Seq<HoleView>)
    ensures
        is_summary(summary_text(holes), holes),
{
    reveal_strlit("\n");
    reveal_strlit("");
    reveal_strlit(" unresolvable\n");
    reveal_strlit(" unresolvable");
    reveal_strlit(
        " pinned hole(s) are hand-written and will never be regenerated; they are tracked technical debt.\n",
    );
    reveal_strlit(
        " pinned hole(s) are hand-written and will never be regenerated; they are tracked technical debt.",
    );
    lemma_count(holes, Tally::Open, |h: HoleView| !h.pinned && h.unresolvable is None);
    lemma_count(holes, Tally::Pinned, |h: HoleView| h.pinned);
    lemma_count(holes, Tally::Unresolvable, |h: HoleView| h.unresolvable is Some);
    assert(" unresolvable\n"@ =~= " unresolvable"@ + "\n"@);
    assert(
    " pinned hole(s) are hand-written and will never be regenerated; they are tracked technical debt.\n"@
        =~= " pinned hole(s) are hand-written and will never be regenerated; they are tracked technical debt."@
        + "\n"@);
    let open = count_where(holes, Tally::Open);
    let pinned = count_where(holes, Tally::Pinned);
    let lost = count_where(holes, Tally::Unresolvable);
    let first = line(
        "summary: "@ + decimal_of(open) + " open, "@ + decimal_of(pinned) + " pinned, "@
            + decimal_of(lost) + " unresolvable"@,
    );
    if pinned > 0 {
        let note = line(
            "note: "@ + decimal_of(pinned)
                + " pinned hole(s) are hand-written and will never be regenerated; they are tracked technical debt."@,
        );
        assert(summary_text(holes) =~= first + note);
    } else {
        assert(summary_text(holes) =~= first + Seq::<char>::empty());
    }
}

/// Whether a text is a heading, a block for each hole, in order, and a summary.
pub open spec fn is_plain_listing(
    text: Seq<char>,
    root: Seq<char>,
    holes: Seq<HoleView>,
    width: nat,
    blocks: Seq<Seq<char>>,
    tail: Seq<char>,
) -> bool {
    &&& blocks.len() == holes.len()
    &&& forall|i: int|
        0 <= i < holes.len() ==> is_block_of(
            #[trigger] blocks[i],
            root,
            holes[i],
            (i + 1) as nat,
            width,
        )
    &&& is_summary(tail, holes)
    &&& text == line(decimal_of(holes.len()) + " hole(s) in "@ + root) + line(seq![]) + all_of(
        blocks,
    ) + tail
}

/// The line-oriented listing shows every hole, in order, each in a block of its own with
/// its own number, place, status, macro, position, signature and short spec.
pub proof fn lemma_plain_listing_shows_every_hole(
    root: Seq<char>,
    holes: Seq<HoleView>,
    opts: RenderOptions,
)
    requires
        !opts.pretty,
        holes.len() > 0,
    ensures
        exists|blocks: Seq<Seq<char>>, tail: Seq<char>| #[trigger]
            is_plain_listing(
                listing_text(root, holes, opts),
                root,
                holes,
                opts.spec_width as nat,
                blocks,
                tail,
            ),
{
    reveal_strlit("\n");
    reveal_strlit("\n\n");
    let width = opts.spec_width as nat;
    let n = holes.len() as int;
    let blocks = Seq::new(
        holes.len(),
        |i: int| plain_block(root, holes[i], (i + 1) as nat, width),
    );
    assert forall|i: int| 0 <= i < holes.len() implies is_block_of(
        #[trigger] blocks[i],
        root,
        holes[i],
        (i + 1) as nat,
        width,
    ) by {
        lemma_plain_block(root, holes[i], (i + 1) as nat, width);
    }
    lemma_plain_blocks(root, holes, width, blocks, n);
    assert(blocks.take(n) =~= blocks);
    let tail = summary_text(holes);
    lemma_summary(holes);
    assert("\n\n"@ =~= "\n"@ + "\n"@);
    assert(line(seq![]) =~= "\n"@);
    let text = listing_text(root, holes, opts);
    assert(text =~= line(decimal_of(holes.len()) + " hole(s) in "@ + root) + line(seq![]) + all_of(
        blocks,
    ) + tail);
    assert(is_plain_listing(text, root, holes, width, blocks, tail));
}

proof fn lemma_cancel_around(p: Seq<char>, x: Seq<char>, y: Seq<char>, q: Seq<char>)
    requires
        p + x + q == p + y + q,
    ensures
        x == y,
{
    let a = p + x + q;
    let b = p + y + q;
    assert(a.len() == b.len());
    assert(x.len() == y.len());
    assert forall|i: int| 0 <= i < x.len() implies x[i] == y[i] by {
        assert(a[p.len() + i] == x[i]);
        assert(b[p.len() + i] == y[i]);
    }
    assert(x =~= y);
}

/// Holes on different lines, or with different short specs, are shown differently.
pub proof fn lemma_blocks_tell_holes_apart(
    root: Seq<char>,
    a: HoleView,
    b: HoleView,
    number: nat,
    width: nat,
    x: Seq<char>,
    y: Seq<char>,
)
    requires
        is_block_of(x, root, a, number, width),
        is_block_of(y, root, b, number, width),
        b == (HoleView { line: b.line, ..a }) || b == (HoleView { spec: b.spec, ..a }),
        a.line != b.line || summary_of(a.spec, width) != summary_of(b.spec, width),
    ensures
        x != y,
{
    if x == y {
        let why = match a.unresolvable {
            Some(reason) => line("     why:  "@ + reason),
            None => seq![],
        };
        let kind = "("@ + a.macro_name + ", "@ + position_name(a.position) + ")"@;
        let number_part = "["@ + right_aligned(decimal_of(number), 2) + "] "@;
        let path = shown_path(root, a.file) + ":"@;
        let status = plain_status(a);
        let (da, db) = (decimal_of(a.line as nat), decimal_of(b.line as nat));
        let (sa, sb) = (summary_of(a.spec, width), summary_of(b.spec, width));
        let first = |d: Seq<char>| line(number_part + (path + d) + "  "@ + status + "  "@ + kind);
        let sig = line("     fn:   "@ + a.fn_sig);
        let label = "     spec: "@;
        let end = line(seq![]);
        assert(x == first(da) + sig + line(label + sa) + why + end);
        assert(y == first(db) + sig + line(label + sb) + why + end);
        if a.line != b.line {
            lemma_tail_cancels(first(da), first(db), sig, line(label + sa), why, end);
            lemma_first_line(number_part, path + da, status, kind);
            lemma_first_line(number_part, path + db, status, kind);
            lemma_head_cancels(number_part, path, da, db, "  "@ + status + "  "@ + kind);
            lemma_decimals_differ(a.line as nat, b.line as nat);
        } else {
            lemma_spec_cancels(first(da), sig, label, sa, sb, why, end);
        }
    }
}

proof fn lemma_first_line(n: Seq<char>, place: Seq<char>, status: Seq<char>, kind: Seq<char>)
    ensures
        line(n + place + "  "@ + status + "  "@ + kind) == n + place + ("  "@ + status + "  "@
            + kind) + "\n"@,
{
    assert(line(n + place + "  "@ + status + "  "@ + kind) =~= n + place + ("  "@ + status + "  "@
        + kind) + "\n"@);
}

proof fn lemma_head_cancels(
    n: Seq<char>,
    path: Seq<char>,
    x: Seq<char>,
    y: Seq<char>,
    rest: Seq<char>,
)
    requires
        n + (path + x) + rest + "\n"@ == n + (path + y) + rest + "\n"@,
    ensures
        x == y,
{
    assert(n + (path + x) + rest + "\n"@ =~= (n + path) + x + (rest + "\n"@));
    assert(n + (path + y) + rest + "\n"@ =~= (n + path) + y + (rest + "\n"@));
    lemma_cancel_around(n + path, x, y, rest + "\n"@);
}

proof fn lemma_tail_cancels(
    x: Seq<char>,
    y: Seq<char>,
    a: Seq<char>,
    b: Seq<char>,
    c: Seq<char>,
    d: Seq<char>,
)
    requires
        x + a + b + c + d == y + a + b + c + d,
    ensures
        x == y,
{
    let none = Seq::<char>::empty();
    assert(x + a + b + c + d =~= none + x + (a + b + c + d));
    assert(y + a + b + c + d =~= none + y + (a + b + c + d));
    lemma_cancel_around(none, x, y, a + b + c + d);
}

proof fn lemma_spec_cancels(
    a: Seq<char>,
    b: Seq<char>,
    label: Seq<char>,
    x: Seq<char>,
    y: Seq<char>,
    c: Seq<char>,
    d: Seq<char>,
)
    requires
        a + b + line(label + x) + c + d == a + b + line(label + y) + c + d,
    ensures
        x == y,
{
    assert(a + b + line(label + x) + c + d =~= (a + b + label) + x + ("\n"@ + c + d));
    assert(a + b + line(label + y) + c + d =~= (a + b + label) + y + ("\n"@ + c + d));
    lemma_cancel_around(a + b + label, x, y, "\n"@ + c + d);
}

/// A short spec is the spec on one line where it fits, else as much of it as fits and an
/// ellipsis; it never has a newline.
pub proof fn lemma_short_spec_is_the_spec(spec: Seq<char>, max: nat)
    ensures
        ({
            let s = summary_of(spec, max);
            let kept = if spec.len() <= max {
                spec.len() as int
            } else {
                s.len() - 1
            };
            &&& spec.len() <= max ==> s.len() == spec.len()
            &&& spec.len() > max && max > 0 ==> s.len() == max && s.last() == '…'
            &&& forall|i: int|
                0 <= i < kept ==> (#[trigger] s[i]) == if spec[i] == '\n' {
                    ' '
                } else {
                    spec[i]
                }
        }),
{
    reveal_strlit("…");
}

// ---------------------------------------------------------------------------
// The block layout
// ---------------------------------------------------------------------------

/// The status the block layout has to show.
pub open spec fn pretty_status(h: HoleView) -> Seq<char> {
    match (h.pinned, h.unresolvable is Some) {
        (false, false) => "open"@,
        (true, false) => "pinned"@,
        (false, true) => "unresolvable"@,
        (true, true) => "pinned+unresolved"@,
    }
}

/// What a hole's block has to say, whitespace apart: its file, where it is the first of
/// that file, its line and status, and then, each behind its label, the signature, the
/// `impl`, the spec, what is wrong with it and what is odd about it.
pub open spec fn shown_of(root: Seq<char>, holes: Seq<HoleView>, i: int) -> Seq<char> {
    let h = holes[i];
    let heading = if i > 0 && is_same_path(holes[i - 1].file, h.file) {
        seq![]
    } else {
        visible(shown_path(root, h.file))
    };
    let sig = if is_blank(h.fn_sig) {
        seq![]
    } else {
        visible("sig"@) + visible(h.fn_sig)
    };
    let ctx = match h.impl_ctx {
        Some(c) => visible("ctx"@) + visible(c),
        None => seq![],
    };
    let why = match h.unresolvable {
        Some(r) => visible("why"@) + visible(r),
        None => seq![],
    };
    let note = match note_of(h) {
        Some(n) => visible("note"@) + visible(n),
        None => seq![],
    };
    heading + visible(decimal_of(h.line as nat)) + visible(pretty_status(h)) + sig + ctx + visible(
        "spec"@,
    ) + visible(h.spec) + why + note
}

proof fn lemma_visible_of_blank(s: Seq<char>)
    requires
        is_blank(s),
    ensures
        visible(s) == Seq::<char>::empty(),
    decreases s.len(),
{
    if s.len() > 0 {
        assert(is_space(s[s.len() - 1]));
        lemma_visible_of_blank(s.drop_last());
    }
}

proof fn lemma_visible_trim(s: Seq<char>)
    ensures
        visible(trim_of(s)) == visible(s),
{
    if is_blank(s) {
        crate::laws::text::lemma_trim_of_blank(s);
        lemma_visible_of_blank(s);
        assert(trim_of(s) =~= Seq::<char>::empty());
    } else {
        crate::laws::text::lemma_trim_is_the_middle(s);
        let t = trim_of(s);
        let (a, b) = choose|a: Seq<char>, b: Seq<char>| #[trigger]
            crate::laws::text::is_padded(s, a, t, b);
        lemma_visible_concat(a + t, b);
        lemma_visible_concat(a, t);
        lemma_visible_of_blank(a);
        lemma_visible_of_blank(b);
        assert(visible(s) =~= visible(t));
    }
}

proof fn lemma_visible_spaces(n: nat)
    ensures
        visible(spaces_of(n)) == Seq::<char>::empty(),
{
    assert(is_space(' '));
    lemma_visible_of_blank(spaces_of(n));
}

proof fn lemma_visible_rest(lines: Seq<Seq<char>>, label: Seq<char>, pad: nat, n: int)
    requires
        1 <= n <= lines.len(),
    ensures
        visible(lines[0]) + visible(field_rest(lines, label, pad, n)) == all_visible(
            lines.take(n),
        ),
    decreases n,
{
    assert(lines.take(n).drop_last() =~= lines.take(n - 1));
    assert(lines.take(n).last() == lines[n - 1]);
    if n == 1 {
        assert(lines.take(0) =~= Seq::<Seq<char>>::empty());
        assert(visible(Seq::<char>::empty()) =~= Seq::<char>::empty());
        assert(visible(lines[0]) + Seq::<char>::empty() =~= visible(lines[0]));
        assert(Seq::<char>::empty() + visible(lines[0]) =~= visible(lines[0]));
        assert(all_visible(lines.take(0)) == Seq::<char>::empty());
        assert(field_rest(lines, label, pad, 1) =~= Seq::<char>::empty());
        assert(all_visible(lines.take(1)) == all_visible(lines.take(1).drop_last()) + visible(
            lines.take(1).last(),
        ));
    } else {
        lemma_visible_rest(lines, label, pad, n - 1);
        let front = field_rest(lines, label, pad, n - 1);
        let a = front + spaces_of(pad);
        let b = a + spaces_of(label.len());
        let c = b + "  "@;
        let d = c + lines[n - 1];
        lemma_blank_literals();
        lemma_visible_concat(front, spaces_of(pad));
        lemma_visible_concat(a, spaces_of(label.len()));
        lemma_visible_concat(b, "  "@);
        lemma_visible_concat(c, lines[n - 1]);
        lemma_visible_concat(d, "\n"@);
        lemma_visible_spaces(pad);
        lemma_visible_spaces(label.len());
        assert(visible(field_rest(lines, label, pad, n)) =~= visible(front) + visible(
            lines[n - 1],
        ));
        assert(visible(lines[0]) + (visible(front) + visible(lines[n - 1])) =~= (visible(lines[0])
            + visible(front)) + visible(lines[n - 1]));
    }
}

proof fn lemma_blank_literals()
    ensures
        visible("  "@) == Seq::<char>::empty(),
        visible("\n"@) == Seq::<char>::empty(),
        visible("\n  "@) == Seq::<char>::empty(),
        visible(""@) == Seq::<char>::empty(),
{
    reveal_strlit("  ");
    reveal_strlit("\n");
    reveal_strlit("\n  ");
    reveal_strlit("");
    assert(is_space(' ') && is_space('\n'));
    lemma_visible_of_blank("  "@);
    lemma_visible_of_blank("\n"@);
    lemma_visible_of_blank("\n  "@);
    lemma_visible_of_blank(""@);
}

/// A field shows its label and its whole text.
pub proof fn lemma_field_shows_its_text(label: Seq<char>, text: Seq<char>, pad: nat, width: nat)
    ensures
        visible(field_text(label, text, pad, width)) == visible(label) + visible(text),
{
    let lines = wrapped(text, width);
    let n = lines.len() as int;
    let rest = field_rest(lines, label, pad, n);
    let a = spaces_of(pad) + label;
    let b = a + "  "@;
    let c = b + lines[0];
    let d = c + "\n"@;
    lemma_blank_literals();
    lemma_visible_spaces(pad);
    lemma_visible_concat(spaces_of(pad), label);
    lemma_visible_concat(a, "  "@);
    lemma_visible_concat(b, lines[0]);
    lemma_visible_concat(c, "\n"@);
    lemma_visible_concat(d, rest);
    lemma_visible_rest(lines, label, pad, n);
    assert(lines.take(n) =~= lines);
    lemma_nothing_is_elided(text, width);
    assert(visible(field_text(label, text, pad, width)) =~= visible(label) + (visible(lines[0])
        + visible(rest)));
}

proof fn lemma_visible_fields(h: HoleView, pad: nat, width: nat)
    ensures
        ({
            let sig = if is_blank(h.fn_sig) {
                seq![]
            } else {
                visible("sig"@) + visible(h.fn_sig)
            };
            let ctx = match h.impl_ctx {
                Some(c) => visible("ctx"@) + visible(c),
                None => seq![],
            };
            let why = match h.unresolvable {
                Some(r) => visible("why"@) + visible(r),
                None => seq![],
            };
            let note = match note_of(h) {
                Some(n) => visible("note"@) + visible(n),
                None => seq![],
            };
            visible(fields_text(h, pad, width)) == sig + ctx + visible("spec"@) + visible(h.spec)
                + why + note
        }),
{
    lemma_blank_literals();
    lemma_visible_trim(h.fn_sig);
    lemma_visible_trim(h.spec);
    lemma_field_shows_its_text("sig"@, trim_of(h.fn_sig), pad, width);
    lemma_field_shows_its_text("spec"@, trim_of(h.spec), pad, width);
    let sig = if is_blank(h.fn_sig) {
        ""@
    } else {
        field_text("sig"@, trim_of(h.fn_sig), pad, width)
    };
    let ctx = match h.impl_ctx {
        Some(c) => {
            lemma_field_shows_its_text("ctx"@, c, pad, width);
            field_text("ctx"@, c, pad, width)
        },
        None => ""@,
    };
    let spec = field_text("spec"@, trim_of(h.spec), pad, width);
    let why = match h.unresolvable {
        Some(r) => {
            lemma_field_shows_its_text("why"@, r, pad, width);
            field_text("why"@, r, pad, width)
        },
        None => ""@,
    };
    let note = match note_of(h) {
        Some(n) => {
            lemma_field_shows_its_text("note"@, n, pad, width);
            field_text("note"@, n, pad, width)
        },
        None => ""@,
    };
    lemma_visible_concat(sig, ctx);
    lemma_visible_concat(sig + ctx, spec);
    lemma_visible_concat(sig + ctx + spec, why);
    lemma_visible_concat(sig + ctx + spec + why, note);
    assert(visible(sig) + visible(ctx) + (visible("spec"@) + visible(h.spec)) + visible(why)
        + visible(note) =~= visible(sig) + visible(ctx) + visible("spec"@) + visible(h.spec)
        + visible(why) + visible(note));
}

proof fn lemma_visible_status(h: HoleView, width: nat)
    ensures
        visible(status_text(status_of(h), width, false)) == visible(pretty_status(h)),
{
    let word = status_word(status_of(h));
    assert(word == pretty_status(h));
    let pad = if word.len() < width {
        (width - word.len()) as nat
    } else {
        0
    };
    let label = crate::text::left_aligned(word, width);
    assert(label =~= word + spaces_of(pad));
    lemma_visible_concat(word, spaces_of(pad));
    lemma_visible_spaces(pad);
    assert(visible(word) + Seq::<char>::empty() =~= visible(word));
    lemma_visible_trim_end(label);
}

proof fn lemma_visible_trim_end(s: Seq<char>)
    ensures
        visible(crate::text::trim_end_of(s)) == visible(s),
    decreases s.len(),
{
    if s.len() > 0 && is_space(s.last()) {
        lemma_visible_trim_end(s.drop_last());
    }
}

/// A block of the block layout, without colour, shows all there is to say about its hole.
pub proof fn lemma_pretty_block_shows_its_hole(
    root: Seq<char>,
    holes: Seq<HoleView>,
    i: int,
    opts: RenderOptions,
)
    requires
        !opts.color,
        0 <= i < holes.len(),
    ensures
        visible(pretty_block(root, holes, i, opts)) == shown_of(root, holes, i),
{
    let h = holes[i];
    let pad = gutter(holes);
    let width = content_width(holes, opts.wrap_width as nat);
    let heading = file_heading(root, holes, i, false);
    let number = right_aligned(decimal_of(h.line as nat), line_column(holes));
    let status = status_text(status_of(h), label_column(holes), false);
    let fields = fields_text(h, pad, width);
    lemma_blank_literals();
    lemma_visible_fields(h, pad, width);
    lemma_visible_status(h, label_column(holes));
    lemma_visible_heading(root, holes, i);
    lemma_visible_number(h.line as nat, line_column(holes));
    let a = heading + "  "@;
    let b = a + number;
    let c = b + "  "@;
    let d = c + status;
    let e = d + "\n"@;
    let f = e + fields;
    lemma_visible_concat(heading, "  "@);
    lemma_visible_concat(a, number);
    lemma_visible_concat(b, "  "@);
    lemma_visible_concat(c, status);
    lemma_visible_concat(d, "\n"@);
    lemma_visible_concat(e, fields);
    lemma_visible_concat(f, "\n"@);
    assert(visible(pretty_block(root, holes, i, opts)) =~= visible(heading) + visible(number)
        + visible(status) + visible(fields));
    assert(visible(pretty_block(root, holes, i, opts)) =~= shown_of(root, holes, i));
}

proof fn lemma_visible_heading(root: Seq<char>, holes: Seq<HoleView>, i: int)
    ensures
        visible(file_heading(root, holes, i, false)) == if i > 0 && is_same_path(
            holes[i - 1].file,
            holes[i].file,
        ) {
            seq![]
        } else {
            visible(shown_path(root, holes[i].file))
        },
{
    lemma_blank_literals();
    let lead = if i > 0 {
        "\n  "@
    } else {
        "  "@
    };
    let path = shown_path(root, holes[i].file);
    lemma_visible_concat(lead, path);
    lemma_visible_concat(lead + path, "\n"@);
    assert(Seq::<char>::empty() + visible(path) + Seq::<char>::empty() =~= visible(path));
}

proof fn lemma_visible_number(n: nat, width: nat)
    ensures
        visible(right_aligned(decimal_of(n), width)) == visible(decimal_of(n)),
{
    let d = decimal_of(n);
    if d.len() < width {
        let k = (width - d.len()) as nat;
        lemma_visible_concat(spaces_of(k), d);
        lemma_visible_spaces(k);
        assert(Seq::<char>::empty() + visible(d) =~= visible(d));
    }
}

/// How many there are of something, if there are any, after what was counted before.
pub open spec fn counted_on(before: Seq<char>, n: nat, word: Seq<char>) -> Seq<char> {
    if n == 0 {
        before
    } else if before.len() == 0 {
        decimal_of(n) + " "@ + word
    } else {
        before + " · "@ + (decimal_of(n) + " "@ + word)
    }
}

/// The header of the block layout names the crate and says how many holes there are, and
/// how many of them are open, pinned and unresolvable.
pub proof fn lemma_header_counts_the_holes(root: Seq<char>, holes: Seq<HoleView>)
    ensures
        ({
            let open = how_many(holes, |h: HoleView| !h.pinned && h.unresolvable is None);
            let pinned = how_many(holes, |h: HoleView| h.pinned);
            let lost = how_many(holes, |h: HoleView| h.unresolvable is Some);
            let tally = counted_on(
                counted_on(counted_on(seq![], open, "open"@), pinned, "pinned"@),
                lost,
                "unresolvable"@,
            );
            let name = match file_name_of(root) {
                Some(n) => n,
                None => root,
            };
            pretty_header(root, holes, false) == name + " — "@ + decimal_of(holes.len()) + (
            if holes.len() == 1 {
                " hole: "@
            } else {
                " holes: "@
            }) + tally + "\n"@ + root + "\n"@
        }),
{
    lemma_count(holes, Tally::Open, |h: HoleView| !h.pinned && h.unresolvable is None);
    lemma_count(holes, Tally::Pinned, |h: HoleView| h.pinned);
    lemma_count(holes, Tally::Unresolvable, |h: HoleView| h.unresolvable is Some);
    let open = count_where(holes, Tally::Open);
    let pinned = count_where(holes, Tally::Pinned);
    let lost = count_where(holes, Tally::Unresolvable);
    let none = Seq::<Seq<char>>::empty();
    let one = tally_part(open, "open"@, Style::Yellow, false);
    let two = one + tally_part(pinned, "pinned"@, Style::Cyan, false);
    let three = two + tally_part(lost, "unresolvable"@, Style::Red, false);
    assert(none + one =~= one);
    lemma_tally_joined(none, open, "open"@, Style::Yellow);
    lemma_tally_joined(one, pinned, "pinned"@, Style::Cyan);
    lemma_tally_joined(two, lost, "unresolvable"@, Style::Red);
    assert(tally_of(holes, false) == three);
}

proof fn lemma_tally_joined(front: Seq<Seq<char>>, n: nat, word: Seq<char>, style: Style)
    requires
        front.len() > 0 ==> join_of(front, " · "@).len() > 0,
    ensures
        ({
            let all = front + tally_part(n, word, style, false);
            join_of(all, " · "@) == counted_on(join_of(front, " · "@), n, word) && (all.len() > 0
                ==> join_of(all, " · "@).len() > 0)
        }),
{
    let all = front + tally_part(n, word, style, false);
    lemma_decimal_reads_back(n);
    if n == 0 {
        assert(all =~= front);
    } else {
        let part = decimal_of(n) + " "@ + word;
        assert(all =~= front.push(part));
        assert(all.drop_last() =~= front);
        assert(all.last() == part);
    }
}

/// Whether a text is a header and a block for each hole, in order, each showing all
/// there is to say about its own hole.
pub open spec fn is_pretty_listing(
    text: Seq<char>,
    root: Seq<char>,
    holes: Seq<HoleView>,
    blocks: Seq<Seq<char>>,
    head: Seq<char>,
    tail: Seq<char>,
) -> bool {
    &&& blocks.len() == holes.len()
    &&& forall|i: int|
        0 <= i < holes.len() ==> visible(#[trigger] blocks[i]) == shown_of(root, holes, i)
    &&& text == head + all_of(blocks) + tail
}

proof fn lemma_pretty_blocks(
    root: Seq<char>,
    holes: Seq<HoleView>,
    opts: RenderOptions,
    blocks: Seq<Seq<char>>,
    n: int,
)
    requires
        0 <= n <= holes.len(),
        blocks.len() == holes.len(),
        forall|i: int|
            0 <= i < holes.len() ==> (#[trigger] blocks[i]) == pretty_block(root, holes, i, opts),
    ensures
        pretty_blocks(root, holes, opts, n) == all_of(blocks.take(n)),
    decreases n,
{
    if n > 0 {
        lemma_pretty_blocks(root, holes, opts, blocks, n - 1);
        assert(blocks.take(n).drop_last() =~= blocks.take(n - 1));
        assert(blocks.take(n).last() == blocks[n - 1]);
    }
}

/// The block layout shows every hole, in order, each in a block of its own.
pub proof fn lemma_pretty_listing_shows_every_hole(
    root: Seq<char>,
    holes: Seq<HoleView>,
    opts: RenderOptions,
)
    requires
        opts.pretty,
        !opts.color,
        holes.len() > 0,
    ensures
        exists|blocks: Seq<Seq<char>>, head: Seq<char>, tail: Seq<char>| #[trigger]
            is_pretty_listing(listing_text(root, holes, opts), root, holes, blocks, head, tail),
{
    let n = holes.len() as int;
    let blocks = Seq::new(holes.len(), |i: int| pretty_block(root, holes, i, opts));
    assert forall|i: int| 0 <= i < holes.len() implies visible(#[trigger] blocks[i]) == shown_of(
        root,
        holes,
        i,
    ) by {
        lemma_pretty_block_shows_its_hole(root, holes, i, opts);
    }
    lemma_pretty_blocks(root, holes, opts, blocks, n);
    assert(blocks.take(n) =~= blocks);
    let head = pretty_header(root, holes, false);
    let text = listing_text(root, holes, opts);
    let pinned = count_where(holes, Tally::Pinned);
    let tail = if pinned > 0 {
        "  "@ + decimal_of(pinned)
            + " pinned hole(s) are hand-written and will never be regenerated; they are tracked technical debt.\n"@
    } else {
        ""@
    };
    assert(text == head + all_of(blocks) + tail);
    assert(is_pretty_listing(text, root, holes, blocks, head, tail));
}

} // verus!
