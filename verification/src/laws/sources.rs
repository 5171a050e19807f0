//! What is read off a source text: pins, signatures, the extent of a call.
use vstd::prelude::*;
use vstd::utf8::{encode_utf8, is_char_boundary};

use crate::bytes::{lemma_encode_concat, lemma_ends_are_boundaries};
use crate::finder::{
    ascii_trimmed_end, assembled_signature, is_ascii_space, last_line_start, macro_range_of,
    pinned_above, rendered, signature_of, text_at, Signature,
};
use crate::hole::sliceable;
use crate::laws::scanning::{
    enclosed, is_bare, is_pair, lemma_body_opens_at_the_first_delimiter,
    lemma_plain_body_is_closed_at_its_end, lemma_what_stands_before_does_not_matter,
};
use crate::laws::text::{is_free_of, is_trimmed, lemma_find_of_absent, lemma_trim_keeps_the_middle};
use crate::text::{begins, contains_text, is_space, join_of, lemma_find_occurs, occurs_at, words_of};

verus! {

// ---------------------------------------------------------------------------
// Places in a text
// ---------------------------------------------------------------------------

/// Where two texts meet, a character begins.
pub proof fn lemma_texts_meet_at_a_character(a: Seq<char>, b: Seq<char>)
    ensures
        is_char_boundary(encode_utf8(a + b), encode_utf8(a).len() as int),
{
    lemma_encode_concat(a, b);
    vstd::utf8::encode_utf8_valid_utf8(a + b);
    vstd::utf8::encode_utf8_valid_utf8(b);
    lemma_ends_are_boundaries(a + b);
    lemma_ends_are_boundaries(b);
    let n = encode_utf8(a).len() as int;
    if encode_utf8(b).len() > 0 {
        assert(encode_utf8(a + b)[n] == encode_utf8(b)[0]);
        vstd::utf8::is_char_boundary_iff_not_is_continuation_byte(encode_utf8(b), 0);
        vstd::utf8::is_char_boundary_iff_not_is_continuation_byte(encode_utf8(a + b), n);
    }
}

/// The text between two places is what was written there.
pub proof fn lemma_text_is_what_stands_there(a: Seq<char>, m: Seq<char>, b: Seq<char>)
    ensures
        ({
            let start = encode_utf8(a).len() as int;
            let end = start + encode_utf8(m).len();
            &&& sliceable(a + m + b, start, end)
            &&& text_at(a + m + b, start, end) == m
        }),
{
    let s = a + m + b;
    let start = encode_utf8(a).len() as int;
    let end = start + encode_utf8(m).len();
    lemma_encode_concat(a, m);
    lemma_encode_concat(a + m, b);
    lemma_texts_meet_at_a_character(a + m, b);
    assert(a + (m + b) =~= s);
    lemma_texts_meet_at_a_character(a, m + b);
    assert(encode_utf8(s).subrange(start, end) =~= encode_utf8(m));
    vstd::utf8::encode_utf8_decode_utf8(m);
}

// ---------------------------------------------------------------------------
// Pins
// ---------------------------------------------------------------------------

/// Whether a text is blank, and plainly so.
pub open spec fn is_ascii_blank(s: Seq<char>) -> bool {
    forall|i: int|
        0 <= i < s.len() ==> (#[trigger] s[i]) == ' ' || s[i] == '\t' || s[i] == '\n' || s[i]
            == '\r'
}

/// Whether a text ends before a line begins.
pub open spec fn is_whole_lines(p: Seq<char>) -> bool {
    p.len() > 0 ==> p.last() == '\n'
}

/// Whether a text holds one line, that ends in something to see.
pub open spec fn is_one_line(l: Seq<char>) -> bool {
    is_trimmed(l) && forall|i: int| 0 <= i < l.len() ==> #[trigger] l[i] != '\n'
}

proof fn lemma_ascii_trim(s: Seq<char>, ws: Seq<char>)
    requires
        is_ascii_blank(ws),
        s.len() > 0 ==> !is_ascii_space(s.last()),
    ensures
        ascii_trimmed_end(s + ws) == s,
    decreases ws.len(),
{
    if ws.len() == 0 {
        assert(s + ws =~= s);
    } else {
        let front = ws.drop_last();
        assert forall|i: int| 0 <= i < front.len() implies (#[trigger] front[i]) == ' ' || front[i]
            == '\t' || front[i] == '\n' || front[i] == '\r' by {
            assert(front[i] == ws[i]);
        }
        lemma_ascii_trim(s, front);
        assert((s + ws).last() == ws[ws.len() - 1]);
        assert((s + ws).drop_last() =~= s + front);
    }
}

proof fn lemma_line_start(p: Seq<char>, l: Seq<char>)
    requires
        is_whole_lines(p),
        forall|i: int| 0 <= i < l.len() ==> #[trigger] l[i] != '\n',
    ensures
        last_line_start(p + l) == p.len(),
    decreases l.len(),
{
    if l.len() == 0 {
        assert(p + l =~= p);
    } else {
        let front = l.drop_last();
        assert forall|i: int| 0 <= i < front.len() implies #[trigger] front[i] != '\n' by {
            assert(front[i] == l[i]);
        }
        lemma_line_start(p, front);
        assert((p + l).last() == l[l.len() - 1]);
        assert((p + l).drop_last() =~= p + front);
    }
}

proof fn lemma_last_line_decides(p: Seq<char>, indent: Seq<char>, l: Seq<char>, ws: Seq<char>)
    requires
        is_whole_lines(p),
        is_ascii_blank(indent),
        forall|i: int| 0 <= i < indent.len() ==> #[trigger] indent[i] != '\n',
        is_one_line(l),
        is_ascii_blank(ws),
    ensures
        pinned_above(p + indent + l + ws) == (begins(l, "//"@) && (contains_text(
            l.skip(2),
            "hole:pinned"@,
        ) || pinned_above(p))),
{
    reveal_strlit("//");
    let t = p + indent + l;
    assert(t.last() == l.last());
    lemma_ascii_trim(t, ws);
    let line = indent + l;
    assert forall|i: int| 0 <= i < line.len() implies #[trigger] line[i] != '\n' by {
        if i < indent.len() {
            assert(line[i] == indent[i]);
        } else {
            assert(line[i] == l[i - indent.len()]);
        }
    }
    assert(p + line =~= t);
    lemma_line_start(p, line);
    assert(t.skip(p.len() as int) =~= line);
    assert(t.take(p.len() as int) =~= p);
    assert forall|i: int| 0 <= i < indent.len() implies is_space(#[trigger] indent[i]) by {
        assert(indent[i] == ' ' || indent[i] == '\t' || indent[i] == '\n' || indent[i] == '\r');
    }
    let none = Seq::<char>::empty();
    lemma_trim_keeps_the_middle(indent, l, none);
    assert(indent + l + none =~= line);
    assert("//"@.len() == 2);
}

/// A comment with the marker in it, right above a place, pins it.
pub proof fn lemma_marked_comment_pins(
    p: Seq<char>,
    indent: Seq<char>,
    a: Seq<char>,
    b: Seq<char>,
    ws: Seq<char>,
)
    requires
        is_whole_lines(p),
        is_ascii_blank(indent),
        forall|i: int| 0 <= i < indent.len() ==> #[trigger] indent[i] != '\n',
        is_one_line("//"@ + a + "hole:pinned"@ + b),
        is_ascii_blank(ws),
    ensures
        pinned_above(p + indent + ("//"@ + a + "hole:pinned"@ + b) + ws),
{
    reveal_strlit("//");
    let l = "//"@ + a + "hole:pinned"@ + b;
    lemma_last_line_decides(p, indent, l, ws);
    assert(l.take(2) =~= "//"@);
    let pat = "hole:pinned"@;
    let rest = l.skip(2);
    let k = a.len() as int;
    assert(rest =~= a + pat + b);
    assert(rest.subrange(k, k + pat.len()) =~= pat);
    assert(occurs_at(rest, pat, k));
    lemma_find_occurs(rest, pat, 0);
}

/// A comment without the marker passes on what the lines above it say.
pub proof fn lemma_other_comments_pass_pins_on(
    p: Seq<char>,
    indent: Seq<char>,
    c: Seq<char>,
    ws: Seq<char>,
)
    requires
        is_whole_lines(p),
        is_ascii_blank(indent),
        forall|i: int| 0 <= i < indent.len() ==> #[trigger] indent[i] != '\n',
        is_one_line("//"@ + c),
        is_free_of(c, "hole:pinned"@),
        is_ascii_blank(ws),
    ensures
        pinned_above(p + indent + ("//"@ + c) + ws) == pinned_above(p),
{
    reveal_strlit("//");
    let l = "//"@ + c;
    lemma_last_line_decides(p, indent, l, ws);
    assert(l.take(2) =~= "//"@);
    assert(l.skip(2) =~= c);
    lemma_find_of_absent(c, "hole:pinned"@);
}

/// Any other line above a place ends the comments there: it is not pinned by one, whatever
/// the line holds.
pub proof fn lemma_code_above_ends_the_comments(
    p: Seq<char>,
    indent: Seq<char>,
    l: Seq<char>,
    ws: Seq<char>,
)
    requires
        is_whole_lines(p),
        is_ascii_blank(indent),
        forall|i: int| 0 <= i < indent.len() ==> #[trigger] indent[i] != '\n',
        is_one_line(l),
        !begins(l, "//"@),
        is_ascii_blank(ws),
    ensures
        !pinned_above(p + indent + l + ws),
        !pinned_above(ws),
{
    lemma_last_line_decides(p, indent, l, ws);
    let none = Seq::<char>::empty();
    lemma_ascii_trim(none, ws);
    assert(none + ws =~= ws);
}

// ---------------------------------------------------------------------------
// Signatures
// ---------------------------------------------------------------------------

/// A signature whose place is known is shown as it is written, word for word.
pub proof fn lemma_signature_is_what_is_written(
    a: Seq<char>,
    m: Seq<char>,
    b: Seq<char>,
    sig: Signature,
)
    requires
        sig.span_start == encode_utf8(a).len(),
        sig.span_end == encode_utf8(a).len() + encode_utf8(m).len(),
        begins(m, "fn"@) || begins(m, "pub"@) || begins(m, "const"@) || begins(m, "async"@)
            || begins(m, "unsafe"@) || begins(m, "extern"@),
    ensures
        signature_of(a + m + b, sig) == join_of(words_of(m), " "@),
{
    reveal_strlit("fn");
    reveal_strlit("pub");
    reveal_strlit("const");
    reveal_strlit("async");
    reveal_strlit("unsafe");
    reveal_strlit("extern");
    lemma_text_is_what_stands_there(a, m, b);
    if encode_utf8(m).len() == 0 {
        vstd::utf8::encode_utf8_decode_utf8(m);
        reveal_with_fuel(vstd::utf8::decode_utf8, 1);
        assert(m.len() == 0);
    }
}

/// A signature whose place is not known is put together: its words, its name, what it takes
/// and what it returns.
pub proof fn lemma_signature_is_put_together(src: Seq<char>, sig: Signature)
    requires
        sig.span_end <= sig.span_start,
        sig.params@.len() == 0,
        sig.where_clause is None,
    ensures
        ({
            let word = |there: bool, w: Seq<char>| if there {
                w
            } else {
                Seq::<char>::empty()
            };
            let output = match sig.output {
                Some(ty) => " -> "@ + join_of(words_of(ty@), " "@),
                None => Seq::<char>::empty(),
            };
            signature_of(src, sig) == word(sig.constness, "const "@) + word(
                sig.asyncness,
                "async "@,
            ) + word(sig.unsafety, "unsafe "@) + "fn "@ + sig.name@ + "("@ + join_of(
                rendered(sig.inputs@),
                ", "@,
            ) + ")"@ + output
        }),
        rendered(sig.inputs@).len() == sig.inputs@.len(),
        forall|i: int|
            0 <= i < sig.inputs@.len() ==> (#[trigger] rendered(sig.inputs@)[i]) == join_of(
                words_of(sig.inputs@[i]@),
                " "@,
            ),
{
    reveal_strlit("");
    assert(""@ =~= Seq::<char>::empty());
    let word = |there: bool, w: Seq<char>| if there {
        w
    } else {
        Seq::<char>::empty()
    };
    let head = word(sig.constness, "const "@) + word(sig.asyncness, "async "@) + word(
        sig.unsafety,
        "unsafe "@,
    ) + "fn "@ + sig.name@;
    assert(head + ""@ =~= head);
    let output = match sig.output {
        Some(ty) => " -> "@ + join_of(words_of(ty@), " "@),
        None => Seq::<char>::empty(),
    };
    let body = head + "("@ + join_of(rendered(sig.inputs@), ", "@) + ")"@ + output;
    assert(body + ""@ =~= body);
}

/// Generic parameters stand in angle brackets after the name, and bounds at the end.
pub proof fn lemma_generics_and_bounds_are_shown(sig: Signature)
    requires
        sig.params@.len() > 0,
        sig.where_clause is Some,
        !sig.constness,
        !sig.asyncness,
        !sig.unsafety,
        sig.output is None,
    ensures
        assembled_signature(sig) == "fn "@ + sig.name@ + "<"@ + join_of(
            rendered(sig.params@),
            ", "@,
        ) + ">("@ + join_of(rendered(sig.inputs@), ", "@) + ") "@ + join_of(
            words_of(sig.where_clause->0@),
            " "@,
        ),
{
    reveal_strlit("");
    reveal_strlit("(");
    reveal_strlit(")");
    reveal_strlit(">");
    reveal_strlit(" ");
    reveal_strlit(">(");
    reveal_strlit(") ");
    let f = "fn "@ + sig.name@;
    let g = join_of(rendered(sig.params@), ", "@);
    let i = join_of(rendered(sig.inputs@), ", "@);
    let w = join_of(words_of(sig.where_clause->0@), " "@);
    assert(">("@ =~= ">"@ + "("@);
    assert(") "@ =~= ")"@ + " "@);
    assert(assembled_signature(sig) =~= f + ("<"@ + g + ">"@) + "("@ + i + ")"@ + (" "@ + w));
    assert(f + ("<"@ + g + ">"@) + "("@ =~= f + "<"@ + g + ">("@);
    let x = f + "<"@ + g + ">("@ + i;
    assert(x + ")"@ + (" "@ + w) =~= x + ") "@ + w);
}

// ---------------------------------------------------------------------------
// The extent of a call
// ---------------------------------------------------------------------------

/// A span that begins with the name of the macro is the extent of the call.
pub proof fn lemma_span_is_the_extent(
    a: Seq<char>,
    name: Seq<char>,
    call: Seq<char>,
    b: Seq<char>,
    path: int,
)
    requires
        name.len() > 0,
    ensures
        ({
            let start = encode_utf8(a).len() as int;
            let end = start + encode_utf8(name + call).len();
            macro_range_of(a + (name + call) + b, name, start, end, path) == Some((start, end))
        }),
{
    let m = name + call;
    lemma_text_is_what_stands_there(a, m, b);
    assert(m.take(name.len() as int) =~= name);
    crate::util::lemma_encoding_is_not_shorter(m);
}

/// Without a usable span, the call goes from its path to the delimiter that closes its body.
pub proof fn lemma_body_is_the_extent(
    before: Seq<u8>,
    path: Seq<u8>,
    body: Seq<u8>,
    rest: Seq<u8>,
    src: Seq<char>,
    name: Seq<char>,
    open: u8,
    close: u8,
)
    requires
        is_pair(open, close),
        is_bare(body, open, close),
        path.len() < 64,
        forall|i: int|
            0 <= i < path.len() ==> (#[trigger] path[i]) != 40 && path[i] != 91 && path[i] != 123
                && path[i] != 34 && path[i] != 47,
        encode_utf8(src) == before + path + enclosed(open, body, close) + rest,
    ensures
        macro_range_of(src, name, 0, 0, before.len() as int) == Some(
            (before.len() as int, (before.len() + path.len() + body.len() + 2) as int),
        ),
{
    let s = encode_utf8(src);
    let inner = body + seq![close] + rest;
    assert(s =~= before + path + seq![open] + inner);
    lemma_body_opens_at_the_first_delimiter(before, path, open, inner);
    let call = enclosed(open, body, close) + rest;
    assert(before + path + call =~= s);
    lemma_plain_body_is_closed_at_its_end(open, close, body, rest);
    lemma_what_stands_before_does_not_matter(before + path, call);
}

} // verus!
