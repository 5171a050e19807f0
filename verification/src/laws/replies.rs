//! What is taken out of a model's reply.
use vstd::prelude::*;

use crate::filler::{
    expression_in, marked_part, reply_error, unfenced, CLOSE_MARKER, OPEN_MARKER,
};
use crate::laws::text::{
    is_free_of, is_trimmed, lemma_find_after, lemma_find_at_start, lemma_find_char,
    lemma_find_of_absent, lemma_rfind_is_last, lemma_trim_keeps_the_middle, lemma_trim_of_blank,
    lemma_trimmed_stays,
};
use crate::text::{begins, find_of, is_blank, is_space, occurs_at, trim_of};

verus! {

/// Code as a model is asked to write it: not blank at its ends, without the markers
/// and without a code fence.
pub open spec fn is_plain_code(c: Seq<char>) -> bool {
    is_trimmed(c) && is_free_of(c, "<<<HOLE>>>"@) && is_free_of(c, "<<<END>>>"@) && is_free_of(
        c,
        "```"@,
    )
}

/// Code in a fence with a language tag, or none.
pub open spec fn fenced(tag: Seq<char>, c: Seq<char>) -> Seq<char> {
    "```"@ + tag + "\n"@ + c + "\n```"@
}

/// Something between the markers, on lines of its own.
pub open spec fn marked(s: Seq<char>) -> Seq<char> {
    "<<<HOLE>>>"@ + s + "<<<END>>>"@
}

/// Whether a text has no newline and no backtick.
pub open spec fn is_tag(tag: Seq<char>) -> bool {
    forall|i: int| 0 <= i < tag.len() ==> #[trigger] tag[i] != '\n' && tag[i] != '`' && tag[i] != '<'
}

/// The code in a fence is what stands between its two lines, over however many lines
/// it goes.
proof fn lemma_fence_is_taken_off(tag: Seq<char>, c: Seq<char>)
    requires
        is_tag(tag),
        is_trimmed(c),
        is_free_of(c, "```"@),
    ensures
        unfenced(fenced(tag, c)) == c,
        is_trimmed(fenced(tag, c)),
{
    reveal_strlit("```");
    reveal_strlit("\n");
    reveal_strlit("\n```");
    let fence = "```"@;
    let nl = seq!['\n'];
    assert("\n"@ =~= nl);
    assert("\n```"@ =~= nl + fence);
    let text = fenced(tag, c);
    let inner = c + nl + fence;
    let rest = tag + nl + inner;
    assert(text =~= fence + rest);
    assert(text[0] == '`');
    assert(text.last() == '`');
    assert(!is_space('`'));
    lemma_trimmed_stays(text);
    lemma_find_at_start(fence, rest);
    assert(text.take(3) =~= fence);
    lemma_find_char(tag, '\n', inner);
    let end = (c + nl).len() as int;
    assert(inner.subrange(end, end + 3) =~= fence);
    lemma_rfind_is_last(inner, fence, end);
    assert(inner.take(end) =~= c + nl);
    assert(is_space('\n'));
    assert(is_blank(nl));
    let none = Seq::<char>::empty();
    assert(none + c + nl =~= c + nl);
    lemma_trim_keeps_the_middle(none, c, nl);
}

/// Without a fence the code is left as it is, but for whitespace at its ends.
proof fn lemma_bare_code_is_kept(c: Seq<char>)
    requires
        is_trimmed(c),
        is_free_of(c, "```"@),
    ensures
        unfenced(c) == c,
{
    lemma_trimmed_stays(c);
    if begins(c, "```"@) {
        assert(c.subrange(0, "```"@.len() as int) =~= c.take("```"@.len() as int));
        assert(occurs_at(c, "```"@, 0));
    }
}

proof fn lemma_fence_has_no_marker(tag: Seq<char>, c: Seq<char>, marker: Seq<char>)
    requires
        is_tag(tag),
        is_free_of(c, marker),
        marker.len() > 1,
        marker[0] == '<',
        forall|i: int| 0 <= i < marker.len() ==> #[trigger] marker[i] != '\n' && marker[i] != '`',
    ensures
        is_free_of(fenced(tag, c), marker),
{
    reveal_strlit("```");
    reveal_strlit("\n");
    reveal_strlit("\n```");
    let text = fenced(tag, c);
    let n = (3 + tag.len() + 1) as int;
    assert forall|j: int| !#[trigger] occurs_at(text, marker, j) by {
        if occurs_at(text, marker, j) {
            let w = text.subrange(j, j + marker.len());
            assert(w[0] == text[j]);
            if j < n {
                if j < 3 {
                    assert(text[j] == '`');
                } else if j < 3 + tag.len() {
                    assert(text[j] == tag[j - 3]);
                } else {
                    assert(text[j] == '\n');
                }
            } else if j + marker.len() <= n + c.len() {
                assert(c.subrange(j - n, j - n + marker.len()) =~= w);
                assert(occurs_at(c, marker, j - n));
            } else if j < n + c.len() {
                assert(text[n + c.len()] == '\n');
                assert(w[n + c.len() - j] == '\n');
            } else if j == n + c.len() {
                assert(text[j] == '\n');
            } else {
                assert(text[j] == '`');
            }
        }
    }
}

/// The opening marker is found right after what stands before it.
proof fn lemma_open_is_found(a: Seq<char>, rest: Seq<char>)
    requires
        is_free_of(a + "<<<HOLE>>"@, "<<<HOLE>>>"@),
    ensures
        find_of(a + "<<<HOLE>>>"@ + rest, "<<<HOLE>>>"@) == Some(a.len() as int),
{
    reveal_strlit("<<<HOLE>>>");
    reveal_strlit("<<<HOLE>>");
    let open = "<<<HOLE>>>"@;
    let most = a + "<<<HOLE>>"@;
    let text = a + open + rest;
    assert forall|j: int| 0 <= j < a.len() implies !#[trigger] occurs_at(text, open, j) by {
        if occurs_at(text, open, j) {
            assert(most.subrange(j, j + 10) =~= text.subrange(j, j + 10));
            assert(occurs_at(most, open, j));
        }
    }
    lemma_find_after(a, open, rest);
}

/// The closing marker does not begin in the opening one, nor run into it.
proof fn lemma_no_close_around_open(t: Seq<char>, n: int, j: int)
    requires
        occurs_at(t, "<<<HOLE>>>"@, n),
        n > 0 ==> t[n - 1] != '<',
        0 <= j,
        n - 9 < j < n + 10,
    ensures
        !occurs_at(t, "<<<END>>>"@, j),
{
    reveal_strlit("<<<HOLE>>>");
    reveal_strlit("<<<END>>>");
    if occurs_at(t, "<<<END>>>"@, j) {
        let o = t.subrange(n, n + 10);
        let w = t.subrange(j, j + 9);
        assert(forall|k: int| 0 <= k < 10 ==> #[trigger] o[k] == t[n + k]);
        assert(forall|k: int| 0 <= k < 9 ==> #[trigger] w[k] == t[j + k]);
        if j < n {
            let k = n - j;
            assert(w[k] == o[0]);
            assert(w[k - 1] == t[n - 1]);
        } else {
            let k = j - n;
            assert(w[0] == o[k]);
            if k <= 2 {
                assert(w[3 - k] == o[3]);
            }
        }
    }
}

/// The closing marker is found right after what stands between the markers.
proof fn lemma_close_is_found(a: Seq<char>, s: Seq<char>, b: Seq<char>)
    requires
        is_free_of(a, "<<<END>>>"@),
        is_free_of(s, "<<<END>>>"@),
        s.len() > 0 ==> s.last() != '<',
        a.len() > 0 ==> a.last() != '<',
    ensures
        find_of(a + "<<<HOLE>>>"@ + s + "<<<END>>>"@ + b, "<<<END>>>"@) == Some(
            (a.len() + 10 + s.len()) as int,
        ),
{
    reveal_strlit("<<<HOLE>>>");
    reveal_strlit("<<<END>>>");
    let open = "<<<HOLE>>>"@;
    let close = "<<<END>>>"@;
    let head = a + open + s;
    let t = head + close + b;
    let n = a.len() as int;
    let e = head.len() as int;
    assert(t.subrange(n, n + 10) =~= open);
    assert(n > 0 ==> t[n - 1] == a.last());
    assert forall|j: int| 0 <= j < e implies !#[trigger] occurs_at(t, close, j) by {
        if occurs_at(t, close, j) {
            let w = t.subrange(j, j + 9);
            if j + 9 <= n {
                assert(a.subrange(j, j + 9) =~= w);
                assert(occurs_at(a, close, j));
            } else if j < n + 10 {
                lemma_no_close_around_open(t, n, j);
            } else if j + 9 <= e {
                assert(s.subrange(j - n - 10, j - n - 10 + 9) =~= w);
                assert(occurs_at(s, close, j - n - 10));
            } else {
                assert(t.subrange(e, e + 9) =~= close);
                assert(t[e - 1] == s.last());
                lemma_no_close_into_close(t, e, j);
            }
        }
    }
    lemma_find_after(head, close, b);
}

/// The closing marker does not run into another one.
proof fn lemma_no_close_into_close(t: Seq<char>, e: int, j: int)
    requires
        occurs_at(t, "<<<END>>>"@, e),
        e > 0,
        t[e - 1] != '<',
        0 <= j,
        e - 9 < j < e,
    ensures
        !occurs_at(t, "<<<END>>>"@, j),
{
    reveal_strlit("<<<END>>>");
    if occurs_at(t, "<<<END>>>"@, j) {
        let o = t.subrange(e, e + 9);
        let w = t.subrange(j, j + 9);
        assert(o[0] == t[e]);
        assert(w[e - j] == t[e]);
        assert(w[e - j - 1] == t[e - 1]);
    }
}

proof fn lemma_marked_is_opened(a: Seq<char>, s: Seq<char>, b: Seq<char>)
    requires
        is_free_of(a + "<<<HOLE>>"@, "<<<HOLE>>>"@),
        is_free_of(a, "<<<END>>>"@),
        is_free_of(s, "<<<END>>>"@),
        s.len() > 0 ==> s.last() != '<',
        a.len() > 0 ==> a.last() != '<',
    ensures
        marked_part(a + marked(s) + b) == s,
{
    let open = "<<<HOLE>>>"@;
    let close = "<<<END>>>"@;
    let text = a + marked(s) + b;
    assert(text =~= a + open + (s + close + b));
    assert(text =~= a + open + s + close + b);
    lemma_open_is_found(a, s + close + b);
    lemma_close_is_found(a, s, b);
    reveal_strlit("<<<HOLE>>>");
    let n = a.len() as int;
    assert(text.subrange(n + 10, n + 10 + s.len()) =~= s);
}

/// The expression in a reply is exactly the code that was written, over however many
/// lines: bare, in a fence with any language tag, and either of them between the
/// markers, with any prose before and after them.
pub proof fn lemma_code_is_extracted_whole(
    tag: Seq<char>,
    c: Seq<char>,
    before: Seq<char>,
    after: Seq<char>,
)
    requires
        is_tag(tag),
        is_plain_code(c),
        is_free_of(before + "<<<HOLE>>"@, "<<<HOLE>>>"@),
        is_free_of(before, "<<<END>>>"@),
        before.len() > 0 ==> is_trimmed(before) && before.last() != '<',
        after.len() > 0 ==> is_trimmed(after),
    ensures
        reply_error(c) is None && expression_in(c) == c,
        reply_error(fenced(tag, c)) is None && expression_in(fenced(tag, c)) == c,
        ({
            let whole = before + marked("\n"@ + c + "\n"@) + after;
            reply_error(whole) is None && expression_in(whole) == c
        }),
        ({
            let whole = before + marked("\n"@ + fenced(tag, c) + "\n"@) + after;
            reply_error(whole) is None && expression_in(whole) == c
        }),
        ({
            let whole = before + marked(fenced(tag, c)) + after;
            reply_error(whole) is None && expression_in(whole) == c
        }),
        c.last() != '<' ==> ({
            let whole = before + marked(c) + after;
            reply_error(whole) is None && expression_in(whole) == c
        }),
{
    reveal_strlit("<<<HOLE>>>");
    reveal_strlit("<<<END>>>");
    lemma_trimmed_stays(c);
    lemma_bare_code_is_kept(c);
    lemma_find_of_absent(c, OPEN_MARKER@);
    let f = fenced(tag, c);
    lemma_fence_is_taken_off(tag, c);
    lemma_trimmed_stays(f);
    lemma_fence_has_no_marker(tag, c, OPEN_MARKER@);
    lemma_fence_has_no_marker(tag, c, CLOSE_MARKER@);
    lemma_find_of_absent(f, OPEN_MARKER@);
    lemma_around_newlines(before, c, after);
    lemma_around_newlines(before, f, after);
    assert(f.last() == '`') by {
        reveal_strlit("\n```");
    }
    lemma_between_markers(before, f, after);
    if c.last() != '<' {
        lemma_between_markers(before, c, after);
    }
    lemma_unfenced_trims(c);
    lemma_unfenced_trims(f);
}

proof fn lemma_unfenced_trims(s: Seq<char>)
    requires
        is_trimmed(s),
    ensures
        unfenced("\n"@ + s + "\n"@) == unfenced(s),
{
    reveal_strlit("\n");
    assert(is_space('\n'));
    assert(is_blank("\n"@));
    lemma_trim_keeps_the_middle("\n"@, s, "\n"@);
    lemma_trimmed_stays(s);
}

proof fn lemma_around_newlines(before: Seq<char>, s: Seq<char>, after: Seq<char>)
    requires
        is_trimmed(s),
        is_free_of(s, "<<<END>>>"@),
        is_free_of(before + "<<<HOLE>>"@, "<<<HOLE>>>"@),
        is_free_of(before, "<<<END>>>"@),
        before.len() > 0 ==> is_trimmed(before) && before.last() != '<',
        after.len() > 0 ==> is_trimmed(after),
    ensures
        ({
            let whole = before + marked("\n"@ + s + "\n"@) + after;
            trim_of(whole) == whole && marked_part(whole) == "\n"@ + s + "\n"@
        }),
{
    reveal_strlit("\n");
    reveal_strlit("<<<END>>>");
    let inside = "\n"@ + s + "\n"@;
    assert forall|j: int| !#[trigger] occurs_at(inside, "<<<END>>>"@, j) by {
        if occurs_at(inside, "<<<END>>>"@, j) {
            let w = inside.subrange(j, j + 9);
            assert(w[0] == inside[j] && w[8] == inside[j + 8]);
            assert(s.subrange(j - 1, j - 1 + 9) =~= w);
            assert(occurs_at(s, "<<<END>>>"@, j - 1));
        }
    }
    lemma_between_markers(before, inside, after);
}

proof fn lemma_between_markers(before: Seq<char>, inside: Seq<char>, after: Seq<char>)
    requires
        inside.len() > 0,
        inside.last() != '<',
        is_free_of(inside, "<<<END>>>"@),
        is_free_of(before + "<<<HOLE>>"@, "<<<HOLE>>>"@),
        is_free_of(before, "<<<END>>>"@),
        before.len() > 0 ==> is_trimmed(before) && before.last() != '<',
        after.len() > 0 ==> is_trimmed(after),
    ensures
        ({
            let whole = before + marked(inside) + after;
            trim_of(whole) == whole && marked_part(whole) == inside
        }),
{
    reveal_strlit("<<<HOLE>>>");
    reveal_strlit("<<<END>>>");
    let whole = before + marked(inside) + after;
    assert(!is_space('<') && !is_space('>'));
    assert(is_trimmed(whole)) by {
        if before.len() > 0 {
            assert(whole[0] == before[0]);
        } else {
            assert(whole[0] == '<');
        }
        if after.len() > 0 {
            assert(whole.last() == after.last());
        } else {
            assert(whole.last() == '>');
        }
    }
    lemma_trimmed_stays(whole);
    lemma_marked_is_opened(before, inside, after);
}

/// A blank reply is refused as empty.
pub proof fn lemma_blank_reply_is_refused(raw: Seq<char>)
    requires
        is_blank(raw),
    ensures
        reply_error(raw) == Some("the model returned an empty reply."@),
{
    lemma_trim_of_blank(raw);
}

} // verus!
