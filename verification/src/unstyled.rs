//! What is left of a listing when its colours are taken out.
//!
//! Colour is never load-bearing: the block layout with its escape sequences
//! removed reads as the block layout without colour does, but for spaces at the
//! ends of lines.
use vstd::prelude::*;

use crate::hole::{HolePosition, HoleView};
use crate::path::{components_of, file_name_of, lemma_spans, spans};
use crate::render::{
    content_width, count_where, field_rest, field_text, fields_text, file_heading, gutter,
    label_column, lemma_plain_layout_ignores_the_terminal, line_column, listing_text, note_of,
    painted, pretty_block, pretty_blocks, pretty_header, pretty_text, status_of, status_text,
    status_word, style_code, summary_text, tally_of, tally_part, RenderOptions, Status, Style,
    Tally,
};
use crate::text::{
    decimal_of, is_space, join_of, left_aligned, right_aligned, spaces_of, trim_end_of, trim_of,
    trim_start_of,
};
use crate::util::shown_path;
use crate::wrap::{all_visible, lemma_nothing_is_elided, visible, wrapped};

verus! {

/// What follows an escape sequence whose parameters begin `s`: the first
/// character from `@` to `~` ends it.
pub open spec fn after_parameters(s: Seq<char>) -> Seq<char>
    decreases s.len(),
{
    if s.len() == 0 {
        s
    } else if '@' <= s[0] <= '~' {
        s.drop_first()
    } else {
        after_parameters(s.drop_first())
    }
}

/// Passing over an escape sequence never goes back.
pub proof fn lemma_after_parameters(s: Seq<char>)
    ensures
        after_parameters(s).len() <= s.len(),
    decreases s.len(),
{
    if s.len() > 0 && !('@' <= s[0] <= '~') {
        lemma_after_parameters(s.drop_first());
    }
}

/// `s` without its ANSI escape sequences: an escape character, `[`, parameters,
/// and the character that ends them.
pub open spec fn unstyled(s: Seq<char>) -> Seq<char>
    decreases s.len(),
{
    if s.len() == 0 {
        s
    } else if s[0] != '\x1b' {
        seq![s[0]] + unstyled(s.drop_first())
    } else if s.len() > 1 && s[1] == '[' {
        proof {
            lemma_after_parameters(s.skip(2));
        }
        unstyled(after_parameters(s.skip(2)))
    } else {
        unstyled(s.drop_first())
    }
}

/// Whether there is nothing but spaces up to the end of the line.
pub open spec fn is_line_end(s: Seq<char>) -> bool
    decreases s.len(),
{
    s.len() == 0 || s[0] == '\n' || (s[0] == ' ' && is_line_end(s.drop_first()))
}

/// `s` without the spaces at the ends of its lines.
pub open spec fn trim_lines(s: Seq<char>) -> Seq<char>
    decreases s.len(),
{
    if s.len() == 0 {
        s
    } else if s[0] == ' ' && is_line_end(s) {
        trim_lines(s.drop_first())
    } else {
        seq![s[0]] + trim_lines(s.drop_first())
    }
}

/// Whether a text has no escape character.
pub open spec fn is_escape_free(s: Seq<char>) -> bool {
    forall|i: int| 0 <= i < s.len() ==> #[trigger] s[i] != '\x1b'
}

/// Whether no path or text of a hole has an escape character.
pub open spec fn is_hole_escape_free(h: HoleView) -> bool {
    &&& is_escape_free(h.file)
    &&& is_escape_free(h.spec)
    &&& is_escape_free(h.fn_sig)
    &&& is_escape_free(h.macro_name)
    &&& h.impl_ctx matches Some(c) ==> is_escape_free(c)
    &&& h.unresolvable matches Some(c) ==> is_escape_free(c)
}

/// Whether `a`, in colour, reads as `b` does, whatever follows them.
#[verifier::opaque]
spec fn reads_as(a: Seq<char>, b: Seq<char>) -> bool {
    forall|s: Seq<char>, t: Seq<char>|
        #![trigger unstyled(a + s), trim_lines(b + t)]
        trim_lines(unstyled(s)) == trim_lines(t) ==> trim_lines(unstyled(a + s)) == trim_lines(
            b + t,
        )
}

// ---------------------------------------------------------------------------
// Reading alike
// ---------------------------------------------------------------------------

proof fn lemma_line_end(s: Seq<char>)
    ensures
        is_line_end(s) <==> trim_lines(s).len() == 0 || trim_lines(s)[0] == '\n',
    decreases s.len(),
{
    if s.len() > 0 {
        lemma_line_end(s.drop_first());
    }
}

proof fn lemma_trim_after(x: Seq<char>, s: Seq<char>, t: Seq<char>)
    requires
        trim_lines(s) == trim_lines(t),
    ensures
        trim_lines(x + s) == trim_lines(x + t),
        is_line_end(x + s) == is_line_end(x + t),
    decreases x.len(),
{
    if x.len() == 0 {
        assert(x + s =~= s);
        assert(x + t =~= t);
        lemma_line_end(s);
        lemma_line_end(t);
    } else {
        lemma_trim_after(x.drop_first(), s, t);
        assert((x + s).drop_first() =~= x.drop_first() + s);
        assert((x + t).drop_first() =~= x.drop_first() + t);
    }
}

proof fn lemma_unstyled_after(x: Seq<char>, s: Seq<char>)
    requires
        is_escape_free(x),
    ensures
        unstyled(x + s) == x + unstyled(s),
    decreases x.len(),
{
    if x.len() == 0 {
        assert(x + s =~= s);
        assert(x + unstyled(s) =~= unstyled(s));
    } else {
        let rest = x.drop_first();
        assert(is_escape_free(rest)) by {
            assert forall|i: int| 0 <= i < rest.len() implies #[trigger] rest[i] != '\x1b' by {
                assert(rest[i] == x[i + 1]);
            }
        }
        lemma_unstyled_after(rest, s);
        assert((x + s).drop_first() =~= rest + s);
        assert((x + s)[0] == x[0]);
        assert(seq![x[0]] + (rest + unstyled(s)) =~= x + unstyled(s));
    }
}

proof fn lemma_reads_as_itself(x: Seq<char>)
    requires
        is_escape_free(x),
    ensures
        reads_as(x, x),
{
    reveal(reads_as);
    assert forall|s: Seq<char>, t: Seq<char>|
        #![trigger unstyled(x + s), trim_lines(x + t)]
        trim_lines(unstyled(s)) == trim_lines(t) implies trim_lines(unstyled(x + s)) == trim_lines(
        x + t,
    ) by {
        lemma_unstyled_after(x, s);
        lemma_trim_after(x, unstyled(s), t);
    }
}

proof fn lemma_reads_as_concat(a: Seq<char>, b: Seq<char>, c: Seq<char>, d: Seq<char>)
    requires
        reads_as(a, b),
        reads_as(c, d),
    ensures
        reads_as(a + c, b + d),
{
    reveal(reads_as);
    assert forall|s: Seq<char>, t: Seq<char>|
        #![trigger unstyled((a + c) + s), trim_lines((b + d) + t)]
        trim_lines(unstyled(s)) == trim_lines(t) implies trim_lines(unstyled((a + c) + s))
        == trim_lines((b + d) + t) by {
        assert((a + c) + s =~= a + (c + s));
        assert((b + d) + t =~= b + (d + t));
        assert(trim_lines(unstyled(c + s)) == trim_lines(d + t));
    }
}

proof fn lemma_code_vanishes(style: Style, s: Seq<char>)
    ensures
        unstyled(style_code(style) + s) == unstyled(s),
        unstyled("\x1b[0m"@ + s) == unstyled(s),
{
    reveal_strlit("\x1b[0m");
    reveal_strlit("\x1b[1m");
    reveal_strlit("\x1b[2m");
    reveal_strlit("\x1b[33m");
    reveal_strlit("\x1b[36m");
    reveal_strlit("\x1b[31m");
    lemma_escape_vanishes(style_code(style), s);
    lemma_escape_vanishes("\x1b[0m"@, s);
}

proof fn lemma_escape_vanishes(code: Seq<char>, s: Seq<char>)
    requires
        code.len() == 4 || code.len() == 5,
        code[0] == '\x1b',
        code[1] == '[',
        code.last() == 'm',
        forall|i: int| 2 <= i < code.len() - 1 ==> '0' <= #[trigger] code[i] <= '9',
    ensures
        unstyled(code + s) == unstyled(s),
{
    let all = code + s;
    let x = all.skip(2);
    assert(all[0] == code[0] && all[1] == code[1]);
    assert(x[0] == code[2]);
    assert(x.drop_first()[0] == code[3]);
    reveal_with_fuel(after_parameters, 4);
    if code.len() == 4 {
        assert(x.drop_first().drop_first() =~= s);
    } else {
        assert(x.drop_first().drop_first()[0] == code[4]);
        assert(x.drop_first().drop_first().drop_first() =~= s);
    }
    assert(after_parameters(x) == s);
}

proof fn lemma_painted_reads_as(text: Seq<char>, style: Style)
    requires
        is_escape_free(text),
    ensures
        reads_as(painted(text, style, true), text),
{
    reveal(reads_as);
    let a = painted(text, style, true);
    assert forall|s: Seq<char>, t: Seq<char>|
        #![trigger unstyled(a + s), trim_lines(text + t)]
        trim_lines(unstyled(s)) == trim_lines(t) implies trim_lines(unstyled(a + s)) == trim_lines(
        text + t,
    ) by {
        let tail = "\x1b[0m"@ + s;
        assert(a + s =~= style_code(style) + (text + tail));
        lemma_code_vanishes(style, text + tail);
        lemma_unstyled_after(text, tail);
        lemma_code_vanishes(style, s);
        lemma_trim_after(text, unstyled(s), t);
    }
}

proof fn lemma_trailing_spaces(n: nat, t: Seq<char>)
    ensures
        trim_lines(spaces_of(n) + ("\n"@ + t)) == trim_lines("\n"@ + t),
        is_line_end(spaces_of(n) + ("\n"@ + t)),
    decreases n,
{
    reveal_strlit("\n");
    let x = spaces_of(n) + ("\n"@ + t);
    if n == 0 {
        assert(x =~= "\n"@ + t);
        assert(("\n"@ + t)[0] == '\n');
    } else {
        lemma_trailing_spaces((n - 1) as nat, t);
        assert(x[0] == ' ');
        assert(x.drop_first() =~= spaces_of((n - 1) as nat) + ("\n"@ + t));
    }
}

proof fn lemma_trim_end_of_padded(word: Seq<char>, n: nat)
    requires
        word.len() > 0,
        !is_space(word.last()),
    ensures
        trim_end_of(word + spaces_of(n)) == word,
    decreases n,
{
    let x = word + spaces_of(n);
    if n == 0 {
        assert(x =~= word);
    } else {
        lemma_trim_end_of_padded(word, (n - 1) as nat);
        assert(x.last() == ' ');
        assert(x.drop_last() =~= word + spaces_of((n - 1) as nat));
    }
}

proof fn lemma_status_word(s: Status)
    ensures
        status_word(s).len() > 0,
        !is_space(status_word(s).last()),
        is_escape_free(status_word(s)),
{
    reveal_strlit("pinned+unresolved");
    reveal_strlit("pinned");
    reveal_strlit("unresolvable");
    reveal_strlit("open");
}

proof fn lemma_status_reads_as(s: Status, width: nat)
    ensures
        reads_as(status_text(s, width, true) + "\n"@, status_text(s, width, false) + "\n"@),
{
    reveal(reads_as);
    reveal_strlit("\n");
    let word = status_word(s);
    let label = left_aligned(word, width);
    let pad = if word.len() < width {
        (width - word.len()) as nat
    } else {
        0
    };
    lemma_status_word(s);
    assert(label =~= word + spaces_of(pad));
    lemma_trim_end_of_padded(word, pad);
    assert(is_escape_free(label));
    lemma_painted_reads_as(label, crate::render::status_style(s));
    lemma_reads_as_itself("\n"@);
    let a = status_text(s, width, true);
    lemma_reads_as_concat(a, label, "\n"@, "\n"@);
    assert forall|x: Seq<char>, t: Seq<char>|
        #![trigger unstyled((a + "\n"@) + x), trim_lines((word + "\n"@) + t)]
        trim_lines(unstyled(x)) == trim_lines(t) implies trim_lines(unstyled((a + "\n"@) + x))
        == trim_lines((word + "\n"@) + t) by {
        assert(trim_lines(unstyled((a + "\n"@) + x)) == trim_lines((label + "\n"@) + t));
        assert((label + "\n"@) + t =~= word + (spaces_of(pad) + ("\n"@ + t)));
        assert((word + "\n"@) + t =~= word + ("\n"@ + t));
        lemma_trailing_spaces(pad, t);
        lemma_trim_after(word, spaces_of(pad) + ("\n"@ + t), "\n"@ + t);
    }
}

/// Whether two lists of texts read alike, one by one.
spec fn read_as(a: Seq<Seq<char>>, b: Seq<Seq<char>>) -> bool {
    a.len() == b.len() && forall|i: int| 0 <= i < a.len() ==> reads_as(#[trigger] a[i], b[i])
}

proof fn lemma_join_reads_as(a: Seq<Seq<char>>, b: Seq<Seq<char>>, sep: Seq<char>)
    requires
        read_as(a, b),
        is_escape_free(sep),
    ensures
        reads_as(join_of(a, sep), join_of(b, sep)),
    decreases a.len(),
{
    if a.len() == 0 {
        lemma_reads_as_itself(Seq::<char>::empty());
    } else if a.len() == 1 {
        assert(reads_as(a[0], b[0]));
    } else {
        let n = a.len() - 1;
        assert forall|i: int| 0 <= i < n implies reads_as(
            #[trigger] a.drop_last()[i],
            b.drop_last()[i],
        ) by {
            assert(reads_as(a[i], b[i]));
        }
        lemma_join_reads_as(a.drop_last(), b.drop_last(), sep);
        lemma_reads_as_itself(sep);
        lemma_reads_as_concat(
            join_of(a.drop_last(), sep),
            join_of(b.drop_last(), sep),
            sep,
            sep,
        );
        assert(reads_as(a[n], b[n]));
        lemma_reads_as_concat(
            join_of(a.drop_last(), sep) + sep,
            join_of(b.drop_last(), sep) + sep,
            a.last(),
            b.last(),
        );
    }
}

// ---------------------------------------------------------------------------
// What holds no escape character
// ---------------------------------------------------------------------------

proof fn lemma_decimal_escape_free(n: nat)
    ensures
        is_escape_free(decimal_of(n)),
    decreases n,
{
    if n >= 10 {
        lemma_decimal_escape_free(n / 10);
    }
}

proof fn lemma_number_escape_free(n: nat, width: nat)
    ensures
        is_escape_free(right_aligned(decimal_of(n), width)),
{
    lemma_decimal_escape_free(n);
}

proof fn lemma_trim_start_escape_free(s: Seq<char>)
    requires
        is_escape_free(s),
    ensures
        is_escape_free(trim_start_of(s)),
    decreases s.len(),
{
    if s.len() > 0 && is_space(s[0]) {
        let rest = s.drop_first();
        assert forall|i: int| 0 <= i < rest.len() implies #[trigger] rest[i] != '\x1b' by {
            assert(rest[i] == s[i + 1]);
        }
        lemma_trim_start_escape_free(rest);
    }
}

proof fn lemma_trim_end_escape_free(s: Seq<char>)
    requires
        is_escape_free(s),
    ensures
        is_escape_free(trim_end_of(s)),
    decreases s.len(),
{
    if s.len() > 0 && is_space(s.last()) {
        lemma_trim_end_escape_free(s.drop_last());
    }
}

proof fn lemma_trim_escape_free(s: Seq<char>)
    requires
        is_escape_free(s),
    ensures
        is_escape_free(trim_of(s)),
{
    lemma_trim_start_escape_free(s);
    lemma_trim_end_escape_free(trim_start_of(s));
}

proof fn lemma_visible_holds(s: Seq<char>, c: char)
    requires
        !is_space(c),
    ensures
        visible(s).contains(c) <==> s.contains(c),
    decreases s.len(),
{
    if s.len() > 0 {
        let rest = s.drop_last();
        lemma_visible_holds(rest, c);
        if s.contains(c) && s.last() != c {
            let i = choose|i: int| 0 <= i < s.len() && s[i] == c;
            assert(rest[i] == c);
        }
        if rest.contains(c) {
            let i = choose|i: int| 0 <= i < rest.len() && rest[i] == c;
            assert(s[i] == c);
            let v = visible(rest);
            let k = choose|k: int| 0 <= k < v.len() && v[k] == c;
            assert(visible(s)[k] == c);
        }
        if s.last() == c {
            assert(s[s.len() - 1] == c);
            assert(visible(s)[visible(s).len() - 1] == c);
        }
        if visible(s).contains(c) && s.last() != c {
            let k = choose|k: int| 0 <= k < visible(s).len() && visible(s)[k] == c;
            assert(visible(rest)[k] == c);
        }
    }
}

proof fn lemma_all_visible_holds(lines: Seq<Seq<char>>, i: int, c: char)
    requires
        0 <= i < lines.len(),
        visible(lines[i]).contains(c),
    ensures
        all_visible(lines).contains(c),
    decreases lines.len(),
{
    let front = all_visible(lines.drop_last());
    let back = visible(lines.last());
    if i == lines.len() - 1 {
        let k = choose|k: int| 0 <= k < back.len() && back[k] == c;
        assert(all_visible(lines)[front.len() + k] == c);
    } else {
        lemma_all_visible_holds(lines.drop_last(), i, c);
        let k = choose|k: int| 0 <= k < front.len() && front[k] == c;
        assert(all_visible(lines)[k] == c);
    }
}

proof fn lemma_wrapped_escape_free(text: Seq<char>, width: nat, i: int)
    requires
        is_escape_free(text),
        0 <= i < wrapped(text, width).len(),
    ensures
        is_escape_free(wrapped(text, width)[i]),
{
    let line = wrapped(text, width)[i];
    let c = '\x1b';
    assert(!is_space(c));
    if line.contains(c) {
        lemma_visible_holds(line, c);
        lemma_all_visible_holds(wrapped(text, width), i, c);
        lemma_nothing_is_elided(text, width);
        lemma_visible_holds(text, c);
    }
    assert forall|k: int| 0 <= k < line.len() implies #[trigger] line[k] != c by {
        if line[k] == c {
            assert(line.contains(c));
        }
    }
}

proof fn lemma_concat_escape_free(a: Seq<char>, b: Seq<char>)
    requires
        is_escape_free(a),
        is_escape_free(b),
    ensures
        is_escape_free(a + b),
{
}

proof fn lemma_field_rest_escape_free(
    text: Seq<char>,
    label: Seq<char>,
    pad: nat,
    width: nat,
    n: int,
)
    requires
        is_escape_free(text),
        n <= wrapped(text, width).len(),
    ensures
        is_escape_free(field_rest(wrapped(text, width), label, pad, n)),
    decreases n,
{
    if n > 1 {
        let lines = wrapped(text, width);
        reveal_strlit("  ");
        reveal_strlit("\n");
        lemma_field_rest_escape_free(text, label, pad, width, n - 1);
        lemma_wrapped_escape_free(text, width, n - 1);
        let a = field_rest(lines, label, pad, n - 1) + spaces_of(pad) + spaces_of(label.len())
            + "  "@;
        assert(is_escape_free(a));
        lemma_concat_escape_free(a, lines[n - 1]);
        lemma_concat_escape_free(a + lines[n - 1], "\n"@);
    }
}

proof fn lemma_field_escape_free(label: Seq<char>, text: Seq<char>, pad: nat, width: nat)
    requires
        is_escape_free(label),
        is_escape_free(text),
    ensures
        is_escape_free(field_text(label, text, pad, width)),
{
    reveal_strlit("  ");
    reveal_strlit("\n");
    let lines = wrapped(text, width);
    assert(lines.len() >= 1);
    lemma_wrapped_escape_free(text, width, 0);
    lemma_field_rest_escape_free(text, label, pad, width, lines.len() as int);
    let a = spaces_of(pad) + label + "  "@;
    assert(is_escape_free(a));
    lemma_concat_escape_free(a, lines[0]);
    lemma_concat_escape_free(a + lines[0], "\n"@);
    lemma_concat_escape_free(
        a + lines[0] + "\n"@,
        field_rest(lines, label, pad, lines.len() as int),
    );
}

proof fn lemma_note_escape_free(h: HoleView)
    requires
        is_hole_escape_free(h),
    ensures
        note_of(h) matches Some(n) ==> is_escape_free(n),
{
    reveal_strlit("inside a `");
    reveal_strlit("!` body, so rustc sees it as raw tokens");
    reveal_strlit("position could not be determined");
    if h.position == HolePosition::MacroBody {
        lemma_concat_escape_free("inside a `"@, h.macro_name);
        lemma_concat_escape_free(
            "inside a `"@ + h.macro_name,
            "!` body, so rustc sees it as raw tokens"@,
        );
    }
}

proof fn lemma_fields_escape_free(h: HoleView, pad: nat, width: nat)
    requires
        is_hole_escape_free(h),
    ensures
        is_escape_free(fields_text(h, pad, width)),
{
    reveal_strlit("");
    reveal_strlit("sig");
    reveal_strlit("ctx");
    reveal_strlit("spec");
    reveal_strlit("why");
    reveal_strlit("note");
    lemma_trim_escape_free(h.fn_sig);
    lemma_trim_escape_free(h.spec);
    lemma_note_escape_free(h);
    lemma_field_escape_free("sig"@, trim_of(h.fn_sig), pad, width);
    lemma_field_escape_free("spec"@, trim_of(h.spec), pad, width);
    if let Some(c) = h.impl_ctx {
        lemma_field_escape_free("ctx"@, c, pad, width);
    }
    if let Some(c) = h.unresolvable {
        lemma_field_escape_free("why"@, c, pad, width);
    }
    if let Some(c) = note_of(h) {
        lemma_field_escape_free("note"@, c, pad, width);
    }
}

proof fn lemma_shown_path_escape_free(root: Seq<char>, file: Seq<char>)
    requires
        is_escape_free(file),
    ensures
        is_escape_free(shown_path(root, file)),
{
    reveal_strlit(".");
    lemma_spans(file);
}

proof fn lemma_name_escape_free(root: Seq<char>)
    requires
        is_escape_free(root),
    ensures
        file_name_of(root) matches Some(n) ==> is_escape_free(n),
{
    lemma_spans(root);
    let c = components_of(root);
    if c.len() > 0 {
        let k = c.len() - 1;
        assert(c[k] == root.subrange(spans(root)[k].0, spans(root)[k].1));
        assert forall|i: int| 0 <= i < c[k].len() implies #[trigger] c[k][i] != '\x1b' by {
            assert(c[k][i] == root[spans(root)[k].0 + i]);
        }
    }
}

// ---------------------------------------------------------------------------
// The block layout
// ---------------------------------------------------------------------------

proof fn lemma_tally_part_reads_as(n: nat, word: Seq<char>, style: Style)
    requires
        is_escape_free(word),
    ensures
        read_as(tally_part(n, word, style, true), tally_part(n, word, style, false)),
{
    reveal_strlit(" ");
    let text = decimal_of(n) + " "@ + word;
    lemma_decimal_escape_free(n);
    assert(is_escape_free(text));
    lemma_painted_reads_as(text, style);
}

proof fn lemma_lists_read_as(
    a: Seq<Seq<char>>,
    b: Seq<Seq<char>>,
    c: Seq<Seq<char>>,
    d: Seq<Seq<char>>,
)
    requires
        read_as(a, b),
        read_as(c, d),
    ensures
        read_as(a + c, b + d),
{
    let (x, y) = (a + c, b + d);
    assert forall|i: int| 0 <= i < x.len() implies reads_as(#[trigger] x[i], y[i]) by {
        if i < a.len() {
            assert(reads_as(a[i], b[i]));
        } else {
            assert(reads_as(c[i - a.len()], d[i - a.len()]));
        }
    }
}

proof fn lemma_tally_reads_as(holes: Seq<HoleView>)
    ensures
        reads_as(join_of(tally_of(holes, true), " · "@), join_of(tally_of(holes, false), " · "@)),
{
    reveal_strlit(" · ");
    reveal_strlit("open");
    reveal_strlit("pinned");
    reveal_strlit("unresolvable");
    let (open, pinned, lost) = (
        count_where(holes, Tally::Open),
        count_where(holes, Tally::Pinned),
        count_where(holes, Tally::Unresolvable),
    );
    lemma_tally_part_reads_as(open, "open"@, Style::Yellow);
    lemma_tally_part_reads_as(pinned, "pinned"@, Style::Cyan);
    lemma_tally_part_reads_as(lost, "unresolvable"@, Style::Red);
    let (a, b) = (
        tally_part(open, "open"@, Style::Yellow, true),
        tally_part(open, "open"@, Style::Yellow, false),
    );
    let (c, d) = (
        tally_part(pinned, "pinned"@, Style::Cyan, true),
        tally_part(pinned, "pinned"@, Style::Cyan, false),
    );
    lemma_lists_read_as(a, b, c, d);
    lemma_lists_read_as(
        a + c,
        b + d,
        tally_part(lost, "unresolvable"@, Style::Red, true),
        tally_part(lost, "unresolvable"@, Style::Red, false),
    );
    lemma_join_reads_as(tally_of(holes, true), tally_of(holes, false), " · "@);
}

/// Six texts in a row, in two ways of putting them together.
proof fn lemma_regroup(
    a: Seq<char>,
    b: Seq<char>,
    c: Seq<char>,
    d: Seq<char>,
    e: Seq<char>,
    f: Seq<char>,
)
    ensures
        a + b + c + d + e + f == a + (b + c + d) + (e + f),
        a + b + c + d + e + f == a + (b + c + d) + e + f,
{
    assert(a + b + c + d + e + f =~= a + (b + c + d) + (e + f));
    assert(a + b + c + d + e + f =~= a + (b + c + d) + e + f);
}

proof fn lemma_header_reads_as(root: Seq<char>, holes: Seq<HoleView>)
    requires
        is_escape_free(root),
    ensures
        reads_as(pretty_header(root, holes, true), pretty_header(root, holes, false)),
{
    reveal_strlit("\n");
    reveal_strlit(" — ");
    reveal_strlit(" hole: ");
    reveal_strlit(" holes: ");
    let name = match file_name_of(root) {
        Some(n) => n,
        None => root,
    };
    let noun = if holes.len() == 1 {
        " hole: "@
    } else {
        " holes: "@
    };
    let number = decimal_of(holes.len());
    let count = " — "@ + number + noun;
    lemma_name_escape_free(root);
    lemma_decimal_escape_free(holes.len());
    lemma_concat_escape_free(" — "@, number);
    lemma_concat_escape_free(" — "@ + number, noun);
    lemma_painted_reads_as(name, Style::Bold);
    lemma_painted_reads_as(root, Style::Dim);
    lemma_reads_as_itself(count);
    lemma_reads_as_itself("\n"@);
    lemma_tally_reads_as(holes);
    let (x, y) = (join_of(tally_of(holes, true), " · "@), join_of(tally_of(holes, false), " · "@));
    let (bold, dim) = (painted(name, Style::Bold, true), painted(root, Style::Dim, true));
    lemma_reads_as_concat(bold, name, count, count);
    lemma_reads_as_concat(bold + count, name + count, x, y);
    lemma_reads_as_concat(bold + count + x, name + count + y, "\n"@, "\n"@);
    lemma_reads_as_concat(bold + count + x + "\n"@, name + count + y + "\n"@, dim, root);
    lemma_reads_as_concat(
        bold + count + x + "\n"@ + dim,
        name + count + y + "\n"@ + root,
        "\n"@,
        "\n"@,
    );
    lemma_regroup(bold, " — "@, number, noun, x, "\n"@);
    lemma_regroup(name, " — "@, number, noun, y, "\n"@);
}

proof fn lemma_heading_reads_as(root: Seq<char>, holes: Seq<HoleView>, i: int)
    requires
        is_escape_free(holes[i].file),
    ensures
        reads_as(file_heading(root, holes, i, true), file_heading(root, holes, i, false)),
{
    reveal_strlit("");
    reveal_strlit("\n");
    reveal_strlit("\n  ");
    reveal_strlit("  ");
    let lead = if i > 0 {
        "\n  "@
    } else {
        "  "@
    };
    let path = shown_path(root, holes[i].file);
    let bold = painted(path, Style::Bold, true);
    lemma_shown_path_escape_free(root, holes[i].file);
    lemma_painted_reads_as(path, Style::Bold);
    lemma_reads_as_itself(lead);
    lemma_reads_as_itself(""@);
    lemma_reads_as_itself("\n"@);
    lemma_reads_as_concat(lead, lead, bold, path);
    lemma_reads_as_concat(lead + bold, lead + path, "\n"@, "\n"@);
}

proof fn lemma_block_reads_as(
    root: Seq<char>,
    holes: Seq<HoleView>,
    i: int,
    a: RenderOptions,
    b: RenderOptions,
)
    requires
        is_hole_escape_free(holes[i]),
        a.color,
        !b.color,
        a.wrap_width == b.wrap_width,
    ensures
        reads_as(pretty_block(root, holes, i, a), pretty_block(root, holes, i, b)),
{
    reveal_strlit("  ");
    reveal_strlit("\n");
    let h = holes[i];
    let number = right_aligned(decimal_of(h.line as nat), line_column(holes));
    let lead = "  "@ + number + "  "@;
    let fields = fields_text(h, gutter(holes), content_width(holes, a.wrap_width as nat));
    let (head, plain_head) = (
        file_heading(root, holes, i, true),
        file_heading(root, holes, i, false),
    );
    let (status, plain_status) = (
        status_text(status_of(h), label_column(holes), true),
        status_text(status_of(h), label_column(holes), false),
    );
    lemma_number_escape_free(h.line as nat, line_column(holes));
    lemma_concat_escape_free("  "@, number);
    lemma_concat_escape_free("  "@ + number, "  "@);
    lemma_fields_escape_free(h, gutter(holes), content_width(holes, a.wrap_width as nat));
    lemma_heading_reads_as(root, holes, i);
    lemma_status_reads_as(status_of(h), label_column(holes));
    lemma_reads_as_itself(lead);
    lemma_reads_as_itself(fields);
    lemma_reads_as_itself("\n"@);
    lemma_reads_as_concat(head, plain_head, lead, lead);
    lemma_reads_as_concat(
        head + lead,
        plain_head + lead,
        status + "\n"@,
        plain_status + "\n"@,
    );
    lemma_reads_as_concat(
        head + lead + (status + "\n"@),
        plain_head + lead + (plain_status + "\n"@),
        fields,
        fields,
    );
    lemma_reads_as_concat(
        head + lead + (status + "\n"@) + fields,
        plain_head + lead + (plain_status + "\n"@) + fields,
        "\n"@,
        "\n"@,
    );
    lemma_regroup(head, "  "@, number, "  "@, status, "\n"@);
    lemma_regroup(plain_head, "  "@, number, "  "@, plain_status, "\n"@);
}

proof fn lemma_blocks_read_as(
    root: Seq<char>,
    holes: Seq<HoleView>,
    a: RenderOptions,
    b: RenderOptions,
    n: int,
)
    requires
        n <= holes.len(),
        forall|i: int| 0 <= i < holes.len() ==> is_hole_escape_free(#[trigger] holes[i]),
        a.color,
        !b.color,
        a.wrap_width == b.wrap_width,
    ensures
        reads_as(pretty_blocks(root, holes, a, n), pretty_blocks(root, holes, b, n)),
    decreases n,
{
    if n <= 0 {
        lemma_reads_as_itself(Seq::<char>::empty());
    } else {
        lemma_blocks_read_as(root, holes, a, b, n - 1);
        assert(is_hole_escape_free(holes[n - 1]));
        lemma_block_reads_as(root, holes, n - 1, a, b);
        lemma_reads_as_concat(
            pretty_blocks(root, holes, a, n - 1),
            pretty_blocks(root, holes, b, n - 1),
            pretty_block(root, holes, n - 1, a),
            pretty_block(root, holes, n - 1, b),
        );
    }
}

/// Colour is never load-bearing: without the escape sequences, and up to spaces
/// at the ends of lines, the block layout in colour is the block layout without.
/// The line-oriented layout is the same with colour and without.
pub proof fn lemma_colour_is_never_load_bearing(
    root: Seq<char>,
    holes: Seq<HoleView>,
    a: RenderOptions,
    b: RenderOptions,
)
    requires
        is_escape_free(root),
        forall|i: int| 0 <= i < holes.len() ==> is_hole_escape_free(#[trigger] holes[i]),
        a.color,
        b == (RenderOptions { color: false, ..a }),
    ensures
        !a.pretty ==> listing_text(root, holes, a) == listing_text(root, holes, b),
        a.pretty ==> trim_lines(unstyled(listing_text(root, holes, a))) == trim_lines(
            listing_text(root, holes, b),
        ),
{
    if !a.pretty {
        lemma_plain_layout_ignores_the_terminal(root, holes, a, b);
    } else if holes.len() == 0 {
        reveal_strlit("no holes found in ");
        reveal_strlit("\n");
        let text = listing_text(root, holes, b);
        lemma_shown_path_escape_free(root, root);
        assert(is_escape_free(text));
        lemma_unstyled_after(text, seq![]);
        assert(text + seq![] =~= text);
    } else {
        reveal_strlit("");
        reveal_strlit("  ");
        reveal_strlit(
            " pinned hole(s) are hand-written and will never be regenerated; they are tracked technical debt.\n",
        );
        let pinned = count_where(holes, Tally::Pinned);
        let caveat = if pinned > 0 {
            "  "@ + decimal_of(pinned)
                + " pinned hole(s) are hand-written and will never be regenerated; they are tracked technical debt.\n"@
        } else {
            ""@
        };
        lemma_decimal_escape_free(pinned);
        assert(is_escape_free(caveat));
        lemma_header_reads_as(root, holes);
        lemma_blocks_read_as(root, holes, a, b, holes.len() as int);
        lemma_reads_as_itself(caveat);
        let (x, y) = (pretty_header(root, holes, true), pretty_header(root, holes, false));
        let n = holes.len() as int;
        let (u, v) = (pretty_blocks(root, holes, a, n), pretty_blocks(root, holes, b, n));
        lemma_reads_as_concat(x, y, u, v);
        lemma_reads_as_concat(x + u, y + v, caveat, caveat);
        let (s, t) = (pretty_text(root, holes, a), pretty_text(root, holes, b));
        assert(reads_as(s, t));
        reveal(reads_as);
        let none = Seq::<char>::empty();
        assert(s + none =~= s);
        assert(t + none =~= t);
        assert(trim_lines(unstyled(none)) == trim_lines(none));
        assert(trim_lines(unstyled(s + none)) == trim_lines(t + none));
    }
}

/// A listing always ends its last line.
pub proof fn lemma_listing_ends_its_last_line(
    root: Seq<char>,
    holes: Seq<HoleView>,
    opts: RenderOptions,
)
    ensures
        listing_text(root, holes, opts).len() > 0,
        listing_text(root, holes, opts).last() == '\n',
{
    reveal_strlit("");
    reveal_strlit("\n");
    reveal_strlit(" unresolvable\n");
    reveal_strlit(
        " pinned hole(s) are hand-written and will never be regenerated; they are tracked technical debt.\n",
    );
    let n = holes.len() as int;
    if n == 0 {
    } else if opts.pretty {
        let block = pretty_block(root, holes, n - 1, opts);
        assert(block.last() == '\n');
        let blocks = pretty_blocks(root, holes, opts, n);
        assert(blocks == pretty_blocks(root, holes, opts, n - 1) + block);
        assert(blocks.last() == '\n');
    } else {
        let tail = summary_text(holes);
        assert(tail.last() == '\n');
    }
}

} // verus!
