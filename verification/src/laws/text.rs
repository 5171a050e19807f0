//! What trimming, searching and joining come to.
use vstd::prelude::*;

use crate::text::{
    find_of, is_blank, is_space, join_of, lemma_find_occurs, line_scan, lines_of, occurs_at,
    rfind_from, rfind_of, trim_end_of, trim_of, trim_start_of, word_scan, words_of,
};

verus! {

/// Whether a text has something in it, and no whitespace at either end.
pub open spec fn is_trimmed(s: Seq<char>) -> bool {
    s.len() > 0 && !is_space(s[0]) && !is_space(s.last())
}

/// Whether `pat` stands nowhere in `s`.
pub open spec fn is_free_of(s: Seq<char>, pat: Seq<char>) -> bool {
    forall|j: int| !#[trigger] occurs_at(s, pat, j)
}

proof fn lemma_trim_start_of_blank(a: Seq<char>, s: Seq<char>)
    requires
        is_blank(a),
        s.len() > 0 ==> !is_space(s[0]),
    ensures
        trim_start_of(a + s) == s,
    decreases a.len(),
{
    if a.len() == 0 {
        assert(a + s =~= s);
    } else {
        let rest = a.drop_first();
        assert forall|i: int| 0 <= i < rest.len() implies is_space(#[trigger] rest[i]) by {
            assert(rest[i] == a[i + 1]);
        }
        lemma_trim_start_of_blank(rest, s);
        assert((a + s)[0] == a[0]);
        assert((a + s).drop_first() =~= rest + s);
    }
}

proof fn lemma_trim_end_of_blank(s: Seq<char>, b: Seq<char>)
    requires
        is_blank(b),
        s.len() > 0 ==> !is_space(s.last()),
    ensures
        trim_end_of(s + b) == s,
    decreases b.len(),
{
    if b.len() == 0 {
        assert(s + b =~= s);
    } else {
        let rest = b.drop_last();
        assert forall|i: int| 0 <= i < rest.len() implies is_space(#[trigger] rest[i]) by {
            assert(rest[i] == b[i]);
        }
        lemma_trim_end_of_blank(s, rest);
        assert((s + b).last() == b[b.len() - 1]);
        assert((s + b).drop_last() =~= s + rest);
    }
}

/// Trimming takes away the whitespace at the two ends and nothing else.
pub proof fn lemma_trim_keeps_the_middle(a: Seq<char>, s: Seq<char>, b: Seq<char>)
    requires
        is_blank(a),
        is_trimmed(s),
        is_blank(b),
    ensures
        trim_of(a + s + b) == s,
{
    let sb = s + b;
    assert(sb[0] == s[0]);
    assert(a + s + b =~= a + sb);
    lemma_trim_start_of_blank(a, sb);
    lemma_trim_end_of_blank(s, b);
}

/// Nothing is left of a blank text.
pub proof fn lemma_trim_of_blank(s: Seq<char>)
    requires
        is_blank(s),
    ensures
        trim_of(s).len() == 0,
        trim_start_of(s).len() == 0,
{
    let none = Seq::<char>::empty();
    lemma_trim_start_of_blank(s, none);
    assert(s + none =~= s);
}

/// A text without whitespace at its ends is left as it is.
pub proof fn lemma_trimmed_stays(s: Seq<char>)
    requires
        is_trimmed(s),
    ensures
        trim_of(s) == s,
        trim_start_of(s) == s,
        trim_end_of(s) == s,
{
}

proof fn lemma_trim_start_splits(s: Seq<char>)
    ensures
        exists|a: Seq<char>| is_blank(a) && s == #[trigger] (a + trim_start_of(s)),
        trim_start_of(s).len() > 0 ==> !is_space(trim_start_of(s)[0]),
    decreases s.len(),
{
    if s.len() > 0 && is_space(s[0]) {
        let rest = s.drop_first();
        lemma_trim_start_splits(rest);
        let a = choose|a: Seq<char>| is_blank(a) && rest == #[trigger] (a + trim_start_of(rest));
        let b = seq![s[0]] + a;
        assert forall|i: int| 0 <= i < b.len() implies is_space(#[trigger] b[i]) by {
            if i > 0 {
                assert(b[i] == a[i - 1]);
            }
        }
        let t = trim_start_of(rest);
        assert(s =~= seq![s[0]] + rest);
        assert(seq![s[0]] + (a + t) =~= b + t);
    } else {
        let none = Seq::<char>::empty();
        assert(s =~= none + trim_start_of(s));
    }
}

proof fn lemma_trim_end_splits(s: Seq<char>)
    ensures
        exists|b: Seq<char>| is_blank(b) && s == #[trigger] (trim_end_of(s) + b),
        trim_end_of(s).len() > 0 ==> !is_space(trim_end_of(s).last()),
    decreases s.len(),
{
    if s.len() > 0 && is_space(s.last()) {
        let rest = s.drop_last();
        lemma_trim_end_splits(rest);
        let b = choose|b: Seq<char>| is_blank(b) && rest == #[trigger] (trim_end_of(rest) + b);
        let c = b.push(s.last());
        assert forall|i: int| 0 <= i < c.len() implies is_space(#[trigger] c[i]) by {
            if i < b.len() {
                assert(c[i] == b[i]);
            }
        }
        let t = trim_end_of(rest);
        assert(s =~= rest.push(s.last()));
        assert((t + b).push(s.last()) =~= t + c);
        assert(s == trim_end_of(s) + c);
    } else {
        let none = Seq::<char>::empty();
        assert(s =~= trim_end_of(s) + none);
    }
}

/// Whether `s` is whitespace, `middle`, and whitespace again.
pub open spec fn is_padded(s: Seq<char>, a: Seq<char>, middle: Seq<char>, b: Seq<char>) -> bool {
    is_blank(a) && is_blank(b) && s == a + middle + b
}

/// What is left of a text that is not blank stands in it whole, with nothing but
/// whitespace around it.
pub proof fn lemma_trim_is_the_middle(s: Seq<char>)
    requires
        !is_blank(s),
    ensures
        is_trimmed(trim_of(s)),
        exists|a: Seq<char>, b: Seq<char>| #[trigger] is_padded(s, a, trim_of(s), b),
{
    lemma_trim_start_splits(s);
    let t = trim_start_of(s);
    let a = choose|a: Seq<char>| is_blank(a) && s == #[trigger] (a + t);
    lemma_trim_end_splits(t);
    let b = choose|b: Seq<char>| is_blank(b) && t == #[trigger] (trim_end_of(t) + b);
    if t.len() == 0 {
        assert(s =~= a);
    }
    if trim_end_of(t).len() == 0 {
        assert(t =~= b);
        assert(is_space(b[0]));
    }
    assert(s =~= a + trim_of(s) + b);
    assert(is_padded(s, a, trim_of(s), b));
    assert(trim_of(s)[0] == t[0]);
}

/// A search finds the first place.
pub proof fn lemma_find_is_first(s: Seq<char>, pat: Seq<char>, k: int)
    requires
        occurs_at(s, pat, k),
        forall|j: int| 0 <= j < k ==> !#[trigger] occurs_at(s, pat, j),
    ensures
        find_of(s, pat) == Some(k),
{
    lemma_find_occurs(s, pat, 0);
}

/// A search for what is not there finds nothing.
pub proof fn lemma_find_of_absent(s: Seq<char>, pat: Seq<char>)
    requires
        is_free_of(s, pat),
    ensures
        find_of(s, pat) is None,
{
    lemma_find_occurs(s, pat, 0);
}

/// A text is found at the start of what begins with it.
pub proof fn lemma_find_at_start(pat: Seq<char>, rest: Seq<char>)
    ensures
        find_of(pat + rest, pat) == Some(0int),
        (pat + rest).skip(pat.len() as int) == rest,
{
    assert((pat + rest).subrange(0, pat.len() as int) =~= pat);
    assert((pat + rest).skip(pat.len() as int) =~= rest);
    lemma_find_is_first(pat + rest, pat, 0);
}

/// A character is found where it first stands.
pub proof fn lemma_find_char(a: Seq<char>, c: char, b: Seq<char>)
    requires
        forall|i: int| 0 <= i < a.len() ==> #[trigger] a[i] != c,
    ensures
        find_of(a + seq![c] + b, seq![c]) == Some(a.len() as int),
        (a + seq![c] + b).take(a.len() as int) == a,
        (a + seq![c] + b).skip((a.len() + 1) as int) == b,
{
    let s = a + seq![c] + b;
    let n = a.len() as int;
    assert(s.subrange(n, n + 1) =~= seq![c]);
    assert forall|j: int| 0 <= j < n implies !#[trigger] occurs_at(s, seq![c], j) by {
        if occurs_at(s, seq![c], j) {
            assert(s.subrange(j, j + 1)[0] == a[j]);
        }
    }
    lemma_find_is_first(s, seq![c], n);
    assert(s.take(n) =~= a);
    assert(s.skip(n + 1) =~= b);
}

/// A character that is not there is not found.
pub proof fn lemma_find_no_char(a: Seq<char>, c: char)
    requires
        forall|i: int| 0 <= i < a.len() ==> #[trigger] a[i] != c,
    ensures
        find_of(a, seq![c]) is None,
{
    assert forall|j: int| !#[trigger] occurs_at(a, seq![c], j) by {
        if occurs_at(a, seq![c], j) {
            assert(a.subrange(j, j + 1)[0] == a[j]);
        }
    }
    lemma_find_of_absent(a, seq![c]);
}

/// A text is found right after what it does not begin in.
pub proof fn lemma_find_after(a: Seq<char>, pat: Seq<char>, b: Seq<char>)
    requires
        forall|j: int| 0 <= j < a.len() ==> !#[trigger] occurs_at(a + pat + b, pat, j),
    ensures
        find_of(a + pat + b, pat) == Some(a.len() as int),
        (a + pat + b).take(a.len() as int) == a,
        (a + pat + b).skip((a.len() + pat.len()) as int) == b,
{
    let s = a + pat + b;
    let n = a.len() as int;
    assert(s.subrange(n, n + pat.len()) =~= pat);
    lemma_find_is_first(s, pat, n);
    assert(s.take(n) =~= a);
    assert(s.skip(n + pat.len()) =~= b);
}

proof fn lemma_rfind_from(s: Seq<char>, pat: Seq<char>, i: int, k: int)
    requires
        occurs_at(s, pat, k),
        k <= i,
        forall|j: int| k < j <= i ==> !#[trigger] occurs_at(s, pat, j),
    ensures
        rfind_from(s, pat, i) == Some(k),
    decreases i,
{
    if i > k {
        lemma_rfind_from(s, pat, i - 1, k);
    }
}

/// A search from the end finds the last place.
pub proof fn lemma_rfind_is_last(s: Seq<char>, pat: Seq<char>, k: int)
    requires
        occurs_at(s, pat, k),
        forall|j: int| k < j ==> !#[trigger] occurs_at(s, pat, j),
    ensures
        rfind_of(s, pat) == Some(k),
{
    lemma_rfind_from(s, pat, s.len() - pat.len(), k);
}

/// What stands in a part of a text stands in the text.
pub proof fn lemma_occurs_within(a: Seq<char>, s: Seq<char>, b: Seq<char>, pat: Seq<char>, j: int)
    requires
        0 <= j - a.len(),
        j + pat.len() <= a.len() + s.len(),
    ensures
        occurs_at(a + s + b, pat, j) <==> occurs_at(s, pat, j - a.len()),
{
    assert((a + s + b).subrange(j, j + pat.len()) =~= s.subrange(
        j - a.len(),
        j - a.len() + pat.len(),
    ));
}

// ---------------------------------------------------------------------------
// Words and lines
// ---------------------------------------------------------------------------

/// Whether a text is one word: something, and no whitespace.
pub open spec fn is_one_word(w: Seq<char>) -> bool {
    w.len() > 0 && forall|i: int| 0 <= i < w.len() ==> !is_space(#[trigger] w[i])
}

proof fn lemma_scan_word(s: Seq<char>, w: Seq<char>)
    requires
        forall|i: int| 0 <= i < w.len() ==> !is_space(#[trigger] w[i]),
        word_scan(s).1.len() == 0,
    ensures
        word_scan(s + w) == (word_scan(s).0, w),
    decreases w.len(),
{
    if w.len() == 0 {
        assert(s + w =~= s);
        assert(word_scan(s).1 =~= w);
    } else {
        let front = w.drop_last();
        assert forall|i: int| 0 <= i < front.len() implies !is_space(#[trigger] front[i]) by {
            assert(front[i] == w[i]);
        }
        lemma_scan_word(s, front);
        assert((s + w).drop_last() =~= s + front);
        assert((s + w).last() == w[w.len() - 1]);
        assert(front.push(w.last()) =~= w);
    }
}

proof fn lemma_scan_blank(s: Seq<char>, b: Seq<char>)
    requires
        is_blank(b),
        b.len() > 0,
    ensures
        word_scan(s + b) == (words_of(s), Seq::<char>::empty()),
    decreases b.len(),
{
    let front = b.drop_last();
    assert((s + b).drop_last() =~= s + front);
    assert((s + b).last() == b[b.len() - 1]);
    if front.len() == 0 {
        assert(s + front =~= s);
        if word_scan(s).1.len() == 0 {
            assert(word_scan(s).1 =~= Seq::<char>::empty());
        }
    } else {
        assert forall|i: int| 0 <= i < front.len() implies is_space(#[trigger] front[i]) by {
            assert(front[i] == b[i]);
        }
        lemma_scan_blank(s, front);
    }
}

/// Whitespace parts words and does nothing else: one more word behind it is one more word.
pub proof fn lemma_words_are_parted_by_whitespace(s: Seq<char>, b: Seq<char>, w: Seq<char>)
    requires
        is_blank(b),
        b.len() > 0,
        is_one_word(w),
    ensures
        words_of(s + b) == words_of(s),
        words_of(s + b + w) == words_of(s).push(w),
        words_of(w) == seq![w],
        words_of(Seq::<char>::empty()).len() == 0,
{
    lemma_scan_blank(s, b);
    lemma_scan_word(s + b, w);
    let none = Seq::<char>::empty();
    lemma_scan_word(none, w);
    assert(none + w =~= w);
    assert(words_of(w) =~= seq![w]);
}

proof fn lemma_scan_line(s: Seq<char>, l: Seq<char>)
    requires
        forall|i: int| 0 <= i < l.len() ==> #[trigger] l[i] != '\n',
        line_scan(s).1.len() == 0,
    ensures
        line_scan(s + l) == (line_scan(s).0, l),
    decreases l.len(),
{
    if l.len() == 0 {
        assert(s + l =~= s);
        assert(line_scan(s).1 =~= l);
    } else {
        let front = l.drop_last();
        assert forall|i: int| 0 <= i < front.len() implies #[trigger] front[i] != '\n' by {
            assert(front[i] == l[i]);
        }
        lemma_scan_line(s, front);
        assert((s + l).drop_last() =~= s + front);
        assert((s + l).last() == l[l.len() - 1]);
        assert(front.push(l.last()) =~= l);
    }
}

/// A newline ends a line and does nothing else; one at the very end begins no further line,
/// and a carriage return before it belongs to it.
pub proof fn lemma_lines_are_ended_by_newlines(s: Seq<char>, l: Seq<char>)
    requires
        s.len() > 0 ==> s.last() == '\n',
        forall|i: int| 0 <= i < l.len() ==> #[trigger] l[i] != '\n' && l[i] != '\r',
    ensures
        lines_of(s + l + seq!['\n']) == lines_of(s).push(l),
        lines_of(s + l + seq!['\r', '\n']) == lines_of(s).push(l),
        l.len() > 0 ==> lines_of(s + l) == lines_of(s).push(l),
        lines_of(Seq::<char>::empty()).len() == 0,
{
    assert(line_scan(s).1.len() == 0);
    lemma_scan_line(s, l);
    let a = s + l + seq!['\n'];
    assert(a.drop_last() =~= s + l);
    let cr = l.push('\r');
    assert forall|i: int| 0 <= i < cr.len() implies #[trigger] cr[i] != '\n' by {
        if i < l.len() {
            assert(cr[i] == l[i]);
        }
    }
    lemma_scan_line(s, cr);
    let b = s + l + seq!['\r', '\n'];
    assert(b.drop_last() =~= s + cr);
    assert(cr.drop_last() =~= l);
    if l.len() > 0 {
        assert(l[l.len() - 1] != '\r');
    }
}

/// Joined texts stand in order with the separator between them.
pub proof fn lemma_join_adds_one(parts: Seq<Seq<char>>, sep: Seq<char>, p: Seq<char>)
    ensures
        join_of(parts.push(p), sep) == if parts.len() == 0 {
            p
        } else {
            join_of(parts, sep) + sep + p
        },
{
    assert(parts.push(p).drop_last() =~= parts);
    assert(parts.push(p).last() == p);
}

} // verus!
