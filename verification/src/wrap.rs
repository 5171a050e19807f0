//! Wrapping text by the cells it takes in a terminal.
use vstd::prelude::*;

use crate::text::{chars_of, is_space, join_of, owned, views, word_scan, words, words_of};

verus! {

/// How many terminal cells a character occupies: none for control characters,
/// combining marks and other zero-width formatting characters, two for East
/// Asian wide and fullwidth characters, else one.
pub open spec fn cell_width(c: char) -> nat {
    let cp = c as u32;
    if cp <= 0x1f || 0x7f <= cp <= 0x9f || 0x300 <= cp <= 0x36f || 0x200b <= cp <= 0x200f || 0xfe00
        <= cp <= 0xfe0f {
        0
    } else if 0x1100 <= cp <= 0x115f || 0x2e80 <= cp <= 0x303e || 0x3041 <= cp <= 0x33ff || 0x3400
        <= cp <= 0x4dbf || 0x4e00 <= cp <= 0x9fff || 0xa000 <= cp <= 0xa4cf || 0xac00 <= cp
        <= 0xd7a3 || 0xf900 <= cp <= 0xfaff || 0xfe10 <= cp <= 0xfe19 || 0xfe30 <= cp <= 0xfe6f
        || 0xff00 <= cp <= 0xff60 || 0xffe0 <= cp <= 0xffe6 || 0x1f300 <= cp <= 0x1f64f || 0x1f900
        <= cp <= 0x1f9ff || 0x20000 <= cp <= 0x3fffd {
        2
    } else {
        1
    }
}

/// The width of a text in terminal cells.
pub open spec fn cells(s: Seq<char>) -> nat
    decreases s.len(),
{
    if s.len() == 0 {
        0
    } else {
        cells(s.drop_last()) + cell_width(s.last())
    }
}

/// Finished lines and a line that is still being filled.
pub struct Wrapping {
    pub lines: Seq<Seq<char>>,
    pub line: Seq<char>,
}

/// A word that is too long for a line, broken at the last character that fits.
pub open spec fn broken(lines: Seq<Seq<char>>, word: Seq<char>, width: nat) -> Wrapping
    decreases word.len(),
{
    if word.len() == 0 {
        Wrapping { lines, line: seq![] }
    } else {
        let f = broken(lines, word.drop_last(), width);
        let c = word.last();
        if cells(f.line) + cell_width(c) > width {
            Wrapping { lines: f.lines.push(f.line), line: seq![c] }
        } else {
            Wrapping { lines: f.lines, line: f.line.push(c) }
        }
    }
}

/// One more word: on the same line where it fits, else on a line of its own,
/// else broken.
pub open spec fn with_word(f: Wrapping, word: Seq<char>, width: nat) -> Wrapping {
    let sep = if f.line.len() > 0 {
        1nat
    } else {
        0nat
    };
    if cells(f.line) + sep + cells(word) <= width {
        Wrapping {
            lines: f.lines,
            line: if f.line.len() > 0 {
                f.line.push(' ') + word
            } else {
                word
            },
        }
    } else {
        let lines = if f.line.len() > 0 {
            f.lines.push(f.line)
        } else {
            f.lines
        };
        if cells(word) <= width {
            Wrapping { lines, line: word }
        } else {
            broken(lines, word, width)
        }
    }
}

/// All words in turn.
pub open spec fn with_words(words: Seq<Seq<char>>, width: nat) -> Wrapping
    decreases words.len(),
{
    if words.len() == 0 {
        Wrapping { lines: seq![], line: seq![] }
    } else {
        with_word(with_words(words.drop_last(), width), words.last(), width)
    }
}

/// The lines of a filling; at least one, which may be empty.
pub open spec fn finished(f: Wrapping) -> Seq<Seq<char>> {
    if f.line.len() > 0 || f.lines.len() == 0 {
        f.lines.push(f.line)
    } else {
        f.lines
    }
}

/// `text` in lines of at most `width` cells.
pub open spec fn wrapped(text: Seq<char>, width: nat) -> Seq<Seq<char>> {
    finished(
        with_words(
            words_of(text),
            if width == 0 {
                1
            } else {
                width
            },
        ),
    )
}

// ---------------------------------------------------------------------------
// Laws
// ---------------------------------------------------------------------------

/// Widths add up.
pub proof fn lemma_cells_concat(a: Seq<char>, b: Seq<char>)
    ensures
        cells(a + b) == cells(a) + cells(b),
    decreases b.len(),
{
    if b.len() == 0 {
        assert(a + b =~= a);
    } else {
        assert((a + b).drop_last() =~= a + b.drop_last());
        lemma_cells_concat(a, b.drop_last());
    }
}

/// Every line takes at most `width` cells.
pub open spec fn lines_fit(lines: Seq<Seq<char>>, width: nat) -> bool {
    forall|i: int| 0 <= i < lines.len() ==> cells(#[trigger] lines[i]) <= width
}

proof fn lemma_broken_fits(lines: Seq<Seq<char>>, word: Seq<char>, width: nat)
    requires
        width >= 2,
        lines_fit(lines, width),
    ensures
        lines_fit(broken(lines, word, width).lines, width),
        cells(broken(lines, word, width).line) <= width,
    decreases word.len(),
{
    if word.len() > 0 {
        lemma_broken_fits(lines, word.drop_last(), width);
        let f = broken(lines, word.drop_last(), width);
        let c = word.last();
        assert(f.line.push(c).drop_last() =~= f.line);
        assert(seq![c].drop_last() =~= Seq::<char>::empty());
        assert(cells(seq![c]) == cell_width(c)) by {
            reveal_with_fuel(cells, 2);
        }
    }
}

proof fn lemma_with_words_fits(words: Seq<Seq<char>>, width: nat)
    requires
        width >= 2,
    ensures
        lines_fit(with_words(words, width).lines, width),
        cells(with_words(words, width).line) <= width,
    decreases words.len(),
{
    if words.len() > 0 {
        lemma_with_words_fits(words.drop_last(), width);
        let f = with_words(words.drop_last(), width);
        let word = words.last();
        let lines = if f.line.len() > 0 {
            f.lines.push(f.line)
        } else {
            f.lines
        };
        assert(f.line.push(' ').drop_last() =~= f.line);
        lemma_cells_concat(f.line.push(' '), word);
        assert(lines_fit(lines, width));
        lemma_broken_fits(lines, word, width);
    }
}

/// No wrapped line is wider than the width asked for. (In a single cell there
/// is no room for a wide character, so the width has to be at least two.)
pub proof fn lemma_wrapped_lines_fit(text: Seq<char>, width: nat)
    requires
        width >= 2,
    ensures
        lines_fit(wrapped(text, width), width),
        wrapped(text, width).len() >= 1,
{
    lemma_with_words_fits(words_of(text), width);
}

/// The characters of `s` that are not whitespace.
pub open spec fn visible(s: Seq<char>) -> Seq<char>
    decreases s.len(),
{
    if s.len() == 0 {
        seq![]
    } else if is_space(s.last()) {
        visible(s.drop_last())
    } else {
        visible(s.drop_last()).push(s.last())
    }
}

/// The visible characters of all lines.
pub open spec fn all_visible(lines: Seq<Seq<char>>) -> Seq<char>
    decreases lines.len(),
{
    if lines.len() == 0 {
        seq![]
    } else {
        all_visible(lines.drop_last()) + visible(lines.last())
    }
}

/// What is visible in a filling.
spec fn filling_visible(f: Wrapping) -> Seq<char> {
    all_visible(f.lines) + visible(f.line)
}

/// What is visible of two texts is visible of them together.
pub proof fn lemma_visible_concat(a: Seq<char>, b: Seq<char>)
    ensures
        visible(a + b) == visible(a) + visible(b),
    decreases b.len(),
{
    if b.len() == 0 {
        assert(a + b =~= a);
        assert(visible(a) + visible(b) =~= visible(a));
    } else {
        assert((a + b).drop_last() =~= a + b.drop_last());
        lemma_visible_concat(a, b.drop_last());
        assert(visible(a) + visible(b.drop_last()).push(b.last()) =~= (visible(a) + visible(
            b.drop_last(),
        )).push(b.last()));
    }
}

proof fn lemma_push_line(lines: Seq<Seq<char>>, line: Seq<char>)
    ensures
        all_visible(lines.push(line)) == all_visible(lines) + visible(line),
{
    assert(lines.push(line).drop_last() =~= lines);
}

proof fn lemma_visible_push(s: Seq<char>, c: char)
    ensures
        visible(s.push(c)) == if is_space(c) {
            visible(s)
        } else {
            visible(s).push(c)
        },
{
    assert(s.push(c).drop_last() =~= s);
}

proof fn lemma_broken_visible(lines: Seq<Seq<char>>, word: Seq<char>, width: nat)
    ensures
        filling_visible(broken(lines, word, width)) == all_visible(lines) + visible(word),
    decreases word.len(),
{
    if word.len() == 0 {
        assert(visible(word) =~= Seq::<char>::empty());
        assert(visible(Seq::<char>::empty()) =~= Seq::<char>::empty());
    } else {
        let f = broken(lines, word.drop_last(), width);
        let c = word.last();
        lemma_broken_visible(lines, word.drop_last(), width);
        lemma_push_line(f.lines, f.line);
        lemma_visible_push(f.line, c);
        lemma_visible_push(Seq::<char>::empty(), c);
        assert(Seq::<char>::empty().push(c) =~= seq![c]);
        assert(visible(Seq::<char>::empty()) =~= Seq::<char>::empty());
        let b = broken(lines, word, width);
        assert(filling_visible(b) =~= if is_space(c) {
            filling_visible(f)
        } else {
            filling_visible(f).push(c)
        });
        assert(all_visible(lines) + visible(word) =~= if is_space(c) {
            all_visible(lines) + visible(word.drop_last())
        } else {
            (all_visible(lines) + visible(word.drop_last())).push(c)
        });
    }
}

proof fn lemma_with_words_visible(words: Seq<Seq<char>>, width: nat)
    ensures
        filling_visible(with_words(words, width)) == all_visible(words),
    decreases words.len(),
{
    let f = with_words(words, width);
    if words.len() == 0 {
        assert(filling_visible(f) =~= Seq::<char>::empty());
    } else {
        let p = with_words(words.drop_last(), width);
        let word = words.last();
        lemma_with_words_visible(words.drop_last(), width);
        lemma_visible_push(p.line, ' ');
        lemma_visible_concat(p.line.push(' '), word);
        lemma_push_line(p.lines, p.line);
        let lines = if p.line.len() > 0 {
            p.lines.push(p.line)
        } else {
            p.lines
        };
        lemma_broken_visible(lines, word, width);
        if p.line.len() == 0 {
            assert(visible(p.line) =~= Seq::<char>::empty());
            assert(all_visible(p.lines) + visible(p.line) =~= all_visible(p.lines));
        }
        assert(filling_visible(f) =~= filling_visible(p) + visible(word));
    }
}

proof fn lemma_words_visible(s: Seq<char>)
    ensures
        all_visible(word_scan(s).0) + visible(word_scan(s).1) == visible(s),
    decreases s.len(),
{
    if s.len() == 0 {
        assert(all_visible(word_scan(s).0) + visible(word_scan(s).1) =~= visible(s));
    } else {
        let (done, word) = word_scan(s.drop_last());
        let c = s.last();
        lemma_words_visible(s.drop_last());
        lemma_visible_push(word, c);
        lemma_push_line(done, word);
        assert(visible(Seq::<char>::empty()) =~= Seq::<char>::empty());
        assert(all_visible(word_scan(s).0) + visible(word_scan(s).1) =~= visible(s));
    }
}

/// Wrapping drops and adds nothing but whitespace: the visible characters of
/// the lines, in order, are those of the text.
pub proof fn lemma_nothing_is_elided(text: Seq<char>, width: nat)
    ensures
        all_visible(wrapped(text, width)) == visible(text),
{
    let w = if width == 0 {
        1
    } else {
        width
    };
    let words = words_of(text);
    let f = with_words(words, w);
    lemma_with_words_visible(words, w);
    lemma_push_line(f.lines, f.line);
    if f.line.len() == 0 {
        assert(visible(f.line) =~= Seq::<char>::empty());
        assert(filling_visible(f) =~= all_visible(f.lines));
    }
    lemma_words_visible(text);
    let (done, word) = word_scan(text);
    lemma_push_line(done, word);
    if word.len() == 0 {
        assert(visible(word) =~= Seq::<char>::empty());
        assert(all_visible(done) + visible(word) =~= all_visible(done));
    }
}

/// `s` up to its first space.
pub open spec fn first_word(s: Seq<char>) -> Seq<char>
    decreases s.len(),
{
    if s.len() == 0 || s[0] == ' ' {
        seq![]
    } else {
        seq![s[0]] + first_word(s.drop_first())
    }
}

/// Whether every word takes at most `width` cells.
pub open spec fn words_fit(words: Seq<Seq<char>>, width: nat) -> bool {
    forall|i: int| 0 <= i < words.len() ==> cells(#[trigger] words[i]) <= width
}

/// Whether no line has room for the first word of the line after it.
pub open spec fn is_greedy(lines: Seq<Seq<char>>, width: nat) -> bool {
    forall|i: int|
        0 < i < lines.len() ==> cells(lines[i - 1]) + 1 + cells(first_word(#[trigger] lines[i]))
            > width
}

/// Whether there are only words: none empty, and no space in any.
spec fn are_words(words: Seq<Seq<char>>) -> bool {
    forall|i: int| 0 <= i < words.len() ==> is_word(#[trigger] words[i])
}

spec fn is_word(w: Seq<char>) -> bool {
    w.len() > 0 && forall|k: int| 0 <= k < w.len() ==> !is_space(#[trigger] w[k])
}

proof fn lemma_scanned_words(s: Seq<char>)
    ensures
        are_words(word_scan(s).0),
        word_scan(s).1.len() > 0 ==> is_word(word_scan(s).1),
    decreases s.len(),
{
    if s.len() > 0 {
        lemma_scanned_words(s.drop_last());
        let (done, word) = word_scan(s.drop_last());
        let c = s.last();
        if !is_space(c) {
            assert forall|k: int| 0 <= k < word.push(c).len() implies !is_space(
                #[trigger] word.push(c)[k],
            ) by {
                if k < word.len() {
                    assert(word.push(c)[k] == word[k]);
                }
            }
        }
    }
}

proof fn lemma_first_word_of_word(w: Seq<char>)
    requires
        forall|k: int| 0 <= k < w.len() ==> !is_space(#[trigger] w[k]),
    ensures
        first_word(w) == w,
    decreases w.len(),
{
    if w.len() > 0 {
        let rest = w.drop_first();
        assert forall|k: int| 0 <= k < rest.len() implies !is_space(#[trigger] rest[k]) by {
            assert(rest[k] == w[k + 1]);
        }
        lemma_first_word_of_word(rest);
        assert(!is_space(w[0]));
        assert(seq![w[0]] + rest =~= w);
    }
}

proof fn lemma_first_word_stays(a: Seq<char>, b: Seq<char>)
    ensures
        first_word(a.push(' ') + b) == first_word(a),
    decreases a.len(),
{
    let all = a.push(' ') + b;
    if a.len() == 0 {
        assert(all[0] == ' ');
    } else {
        lemma_first_word_stays(a.drop_first(), b);
        assert(all[0] == a[0]);
        assert(all.drop_first() =~= a.drop_first().push(' ') + b);
    }
}

proof fn lemma_join_push(lines: Seq<Seq<char>>, line: Seq<char>, sep: Seq<char>)
    ensures
        join_of(lines.push(line), sep) == if lines.len() == 0 {
            line
        } else {
            join_of(lines, sep) + sep + line
        },
{
    let all = lines.push(line);
    assert(all.drop_last() =~= lines);
    assert(all.last() == line);
}

proof fn lemma_with_words_greedy(words: Seq<Seq<char>>, width: nat)
    requires
        are_words(words),
        words_fit(words, width),
    ensures
        ({
            let f = with_words(words, width);
            &&& is_greedy(f.lines.push(f.line), width)
            &&& words.len() > 0 ==> f.line.len() > 0
            &&& words.len() == 0 ==> f.lines.len() == 0
            &&& words.len() > 0 ==> join_of(f.lines.push(f.line), " "@) == join_of(words, " "@)
        }),
    decreases words.len(),
{
    if words.len() > 0 {
        let front = words.drop_last();
        let word = words.last();
        assert(word == words[words.len() - 1]);
        assert(is_word(words[words.len() - 1]));
        assert forall|i: int| 0 <= i < front.len() implies is_word(#[trigger] front[i]) && cells(
            front[i],
        ) <= width by {
            assert(front[i] == words[i]);
        }
        lemma_with_words_greedy(front, width);
        let p = with_words(front, width);
        let f = with_words(words, width);
        let before = p.lines.push(p.line);
        let after = f.lines.push(f.line);
        reveal_strlit(" ");
        assert(" "@ =~= seq![' ']);
        lemma_join_push(front, word, " "@);
        assert(front.push(word) =~= words);
        lemma_first_word_of_word(word);
        if front.len() == 0 {
            assert(cells(p.line) == 0);
            assert(after =~= seq![word]);
            assert(join_of(after, " "@) == word);
        } else if cells(p.line) + 1 + cells(word) <= width {
            lemma_first_word_stays(p.line, word);
            lemma_join_push(p.lines, p.line, " "@);
            lemma_join_push(p.lines, f.line, " "@);
            assert(p.line.push(' ') + word =~= p.line + " "@ + word);
            assert(join_of(after, " "@) =~= join_of(before, " "@) + " "@ + word);
            assert forall|i: int| 0 < i < after.len() implies cells(after[i - 1]) + 1 + cells(
                first_word(#[trigger] after[i]),
            ) > width by {
                assert(after[i - 1] == before[i - 1]);
                assert(cells(before[i - 1]) + 1 + cells(first_word(before[i])) > width);
                if i < p.lines.len() {
                    assert(after[i] == before[i]);
                }
            }
        } else {
            assert(f.lines == before);
            assert(f.line == word);
            lemma_join_push(before, word, " "@);
            assert forall|i: int| 0 < i < after.len() implies cells(after[i - 1]) + 1 + cells(
                first_word(#[trigger] after[i]),
            ) > width by {
                assert(after[i - 1] == before[i - 1]);
                if i < before.len() {
                    assert(after[i] == before[i]);
                } else {
                    assert(after[i - 1] == p.line);
                }
            }
        }
    }
}

/// Prose wraps greedily and at word boundaries: where every word fits, the lines
/// hold the words of the text, whole and in order, and no line has room for the
/// first word of the next.
pub proof fn lemma_wrapping_is_greedy(text: Seq<char>, width: nat)
    requires
        width > 0,
        words_fit(words_of(text), width),
    ensures
        join_of(wrapped(text, width), " "@) == join_of(words_of(text), " "@),
        is_greedy(wrapped(text, width), width),
{
    let words = words_of(text);
    lemma_scanned_words(text);
    assert(are_words(words));
    lemma_with_words_greedy(words, width);
    let f = with_words(words, width);
    if words.len() == 0 {
        assert(finished(f) =~= seq![Seq::<char>::empty()]);
        assert(join_of(finished(f), " "@) =~= Seq::<char>::empty());
    }
}

/// The pieces that follow `n` lines, put together again.
pub open spec fn pieces_from(lines: Seq<Seq<char>>, n: int) -> Seq<char>
    decreases lines.len() - n,
{
    if !(0 <= n < lines.len()) {
        seq![]
    } else {
        lines[n] + pieces_from(lines, n + 1)
    }
}

proof fn lemma_pieces_push(lines: Seq<Seq<char>>, line: Seq<char>, n: int)
    requires
        0 <= n <= lines.len(),
    ensures
        pieces_from(lines.push(line), n) == pieces_from(lines, n) + line,
    decreases lines.len() - n,
{
    let all = lines.push(line);
    if n < lines.len() {
        lemma_pieces_push(lines, line, n + 1);
        assert(all[n] == lines[n]);
        assert(lines[n] + (pieces_from(lines, n + 1) + line) =~= (lines[n] + pieces_from(
            lines,
            n + 1,
        )) + line);
    } else {
        assert(pieces_from(all, n + 1) =~= Seq::<char>::empty());
        assert(all[n] + Seq::<char>::empty() =~= line);
        assert(pieces_from(lines, n) + line =~= line);
    }
}

/// A word that is too long for a line is broken at the last character that fits:
/// its pieces make up the word, and no piece has room for the first character of
/// the next. The lines before it are kept.
pub proof fn lemma_long_words_break_late(lines: Seq<Seq<char>>, word: Seq<char>, width: nat)
    ensures
        ({
            let f = broken(lines, word, width);
            let all = f.lines.push(f.line);
            let n = lines.len() as int;
            &&& n < all.len()
            &&& all.take(n) == lines
            &&& pieces_from(all, n) == word
            &&& forall|i: int|
                n < i < all.len() ==> (#[trigger] all[i]).len() > 0 && cells(all[i - 1])
                    + cell_width(all[i][0]) > width
        }),
    decreases word.len(),
{
    let f = broken(lines, word, width);
    let all = f.lines.push(f.line);
    let n = lines.len() as int;
    if word.len() == 0 {
        assert(all.take(n) =~= lines);
        lemma_pieces_push(lines, seq![], n);
        assert(pieces_from(all, n) =~= word);
    } else {
        lemma_long_words_break_late(lines, word.drop_last(), width);
        let p = broken(lines, word.drop_last(), width);
        let before = p.lines.push(p.line);
        let c = word.last();
        assert(word.drop_last().push(c) =~= word);
        if cells(p.line) + cell_width(c) > width {
            assert(f.lines == before);
            lemma_pieces_push(before, seq![c], n);
            assert(pieces_from(all, n) =~= word);
            assert(all.take(n) =~= before.take(n));
            assert forall|i: int| n < i < all.len() implies (#[trigger] all[i]).len() > 0 && cells(
                all[i - 1],
            ) + cell_width(all[i][0]) > width by {
                assert(all[i - 1] == before[i - 1]);
                if i < before.len() {
                    assert(all[i] == before[i]);
                } else {
                    assert(all[i] == seq![c]);
                    assert(all[i - 1] == p.line);
                }
            }
        } else {
            lemma_pieces_push(p.lines, p.line, n);
            lemma_pieces_push(p.lines, f.line, n);
            assert(pieces_from(all, n) =~= pieces_from(before, n).push(c));
            assert(all.take(n) =~= before.take(n));
            assert forall|i: int| n < i < all.len() implies (#[trigger] all[i]).len() > 0 && cells(
                all[i - 1],
            ) + cell_width(all[i][0]) > width by {
                assert(all[i - 1] == before[i - 1]);
                assert(before[i].len() > 0);
                assert(all[i][0] == before[i][0]);
            }
        }
    }
}

// ---------------------------------------------------------------------------
// Operations
// ---------------------------------------------------------------------------

/// How many terminal cells `c` occupies.
///
/// A small `wcwidth` rather than a dependency: the crate's only source of
/// Unicode is a spec someone typed, and the case that actually matters is a
/// CJK spec, whose characters are two cells wide. Counting every character as
/// one would wrap those lines short and, worse, mis-pad every aligned column
/// to their right.
///
/// Ambiguous-width characters (box-drawing and geometric shapes) are treated as
/// one cell, which is correct in a Western terminal and wrong in a CJK one. They
/// are not used here for exactly that reason: the layout is plain ASCII, so it
/// lines up everywhere.
pub fn char_width(c: char) -> (r: usize)
    ensures
        r == cell_width(c),
{
    let cp: u32 = c as u32;
    // Combining marks and other zero-width formatting characters.
    if cp <= 0x1f || (0x7f <= cp && cp <= 0x9f) || (0x300 <= cp && cp <= 0x36f) || (0x200b <= cp
        && cp <= 0x200f) || (0xfe00 <= cp && cp <= 0xfe0f) {
        return 0;
    }
    // East Asian Wide and Fullwidth.
    if (0x1100 <= cp && cp <= 0x115f) || (0x2e80 <= cp && cp <= 0x303e) || (0x3041 <= cp && cp
        <= 0x33ff) || (0x3400 <= cp && cp <= 0x4dbf) || (0x4e00 <= cp && cp <= 0x9fff) || (0xa000
        <= cp && cp <= 0xa4cf) || (0xac00 <= cp && cp <= 0xd7a3) || (0xf900 <= cp && cp <= 0xfaff)
        || (0xfe10 <= cp && cp <= 0xfe19) || (0xfe30 <= cp && cp <= 0xfe6f) || (0xff00 <= cp && cp
        <= 0xff60) || (0xffe0 <= cp && cp <= 0xffe6) || (0x1f300 <= cp && cp <= 0x1f64f) || (
    0x1f900 <= cp && cp <= 0x1f9ff) || (0x20000 <= cp && cp <= 0x3fffd) {
        return 2;
    }
    1
}

proof fn lemma_cells_grow(s: Seq<char>, i: int)
    requires
        0 <= i <= s.len(),
    ensures
        cells(s.take(i)) <= cells(s),
{
    lemma_cells_concat(s.take(i), s.skip(i));
    assert(s.take(i) + s.skip(i) =~= s);
}

/// The width of `s` in terminal cells.
pub fn text_width(s: &str) -> (r: usize)
    requires
        cells(s@) <= usize::MAX,
    ensures
        r == cells(s@),
{
    let v = chars_of(s);
    let mut n: usize = 0;
    let mut i: usize = 0;
    proof {
        assert(v@.take(0) =~= Seq::<char>::empty());
    }
    while i < v.len()
        invariant
            i <= v@.len(),
            n == cells(v@.take(i as int)),
            cells(v@) <= usize::MAX,
        decreases v.len() - i,
    {
        proof {
            assert(v@.take(i + 1).drop_last() =~= v@.take(i as int));
            assert(v@.take(i + 1).last() == v@[i as int]);
            lemma_cells_grow(v@, i + 1);
        }
        n = n + char_width(v[i]);
        i = i + 1;
    }
    proof {
        assert(v@.take(v@.len() as int) =~= v@);
    }
    n
}

/// A width, as long as it is at most `width`.
spec fn capped(n: nat, width: usize) -> Option<usize> {
    if n <= width {
        Some(n as usize)
    } else {
        None
    }
}

/// A width with one more character, as long as it is at most `width`.
fn plus(used: Option<usize>, c: char, width: usize, Ghost(n): Ghost<nat>) -> (r: Option<usize>)
    requires
        used == capped(n, width),
    ensures
        r == capped(n + cell_width(c), width),
{
    let w: usize = char_width(c);
    match used {
        None => None,
        Some(x) => if width - x >= w {
            Some(x + w)
        } else {
            None
        },
    }
}

/// A width with all of a word's characters, as long as it is at most `width`.
fn plus_word(used: Option<usize>, word: &Vec<char>, width: usize, Ghost(n): Ghost<nat>) -> (r:
    Option<usize>)
    requires
        used == capped(n, width),
    ensures
        r == capped(n + cells(word@), width),
{
    let mut total = used;
    let mut i: usize = 0;
    proof {
        assert(word@.take(0) =~= Seq::<char>::empty());
    }
    while i < word.len()
        invariant
            i <= word@.len(),
            total == capped(n + cells(word@.take(i as int)), width),
        decreases word.len() - i,
    {
        proof {
            assert(word@.take(i + 1).drop_last() =~= word@.take(i as int));
            assert(word@.take(i + 1).last() == word@[i as int]);
        }
        let ghost m = n + cells(word@.take(i as int));
        total = plus(total, word[i], width, Ghost(m));
        i = i + 1;
    }
    proof {
        assert(word@.take(word@.len() as int) =~= word@);
    }
    total
}

/// Break `text` into lines of at most `width` cells.
///
/// Greedy on whitespace, so prose wraps at word boundaries and keeps its
/// indentation meaningful. A single word longer than the line -- a path, a URL,
/// or a CJK run with no spaces at all -- is broken at the last character that
/// fits, since the alternative is a line that overflows the terminal.
pub fn wrap(text: &str, width: usize) -> (r: Vec<String>)
    ensures
        views(r@) == wrapped(text@, width as nat),
{
    let width: usize = if width == 0 {
        1
    } else {
        width
    };
    let ghost w = width as nat;
    let all = words(text);
    let ghost ws = words_of(text@);
    let mut lines: Vec<String> = Vec::new();
    let mut line = String::new();
    let mut used: Option<usize> = Some(0);
    let mut i: usize = 0;
    proof {
        assert(ws.len() == all@.len());
        assert(ws.take(0) =~= Seq::<Seq<char>>::empty());
        assert(views(lines@) =~= Seq::<Seq<char>>::empty());
        assert(line@ =~= Seq::<char>::empty());
    }
    while i < all.len()
        invariant
            i <= all@.len(),
            w == width,
            ws == views(all@),
            ws.len() == all@.len(),
            with_words(ws.take(i as int), w) == (Wrapping { lines: views(lines@), line: line@ }),
            used == capped(cells(line@), width),
        decreases all.len() - i,
    {
        let word = chars_of(all[i].as_str());
        let ghost f = with_words(ws.take(i as int), w);
        proof {
            assert(ws.take(i + 1).drop_last() =~= ws.take(i as int));
            assert(ws.take(i + 1).last() == word@);
        }
        let empty = line.as_str().unicode_len() == 0;
        let ghost before = cells(line@);
        let start: Option<usize> = if empty {
            used
        } else {
            plus(used, ' ', width, Ghost(before))
        };
        let ghost from = if line@.len() > 0 {
            before + 1
        } else {
            before
        };
        proof {
            assert(cell_width(' ') == 1);
        }
        let total = plus_word(start, &word, width, Ghost(from));
        if total.is_some() {
            proof {
                assert(line@.push(' ').drop_last() =~= line@);
                lemma_cells_concat(line@.push(' '), word@);
                lemma_cells_concat(line@, word@);
                assert(line@.len() == 0 ==> line@ + word@ =~= word@);
            }
            if !empty {
                line.push(' ');
            }
            line.push_str(all[i].as_str());
            used = total;
            i = i + 1;
            continue;
        }
        if !empty {
            proof {
                assert(views(lines@.push(line)) =~= views(lines@).push(line@));
            }
            lines.push(line);
            line = String::new();
        }
        let alone = plus_word(Some(0), &word, width, Ghost(0));
        if alone.is_some() {
            line = owned(all[i].as_str());
            used = alone;
            i = i + 1;
            continue;
        }
        // Too long to fit on a line of its own: hard-break it.
        let ghost base = views(lines@);
        let mut chunk = String::new();
        let mut chunk_used: Option<usize> = Some(0);
        let mut k: usize = 0;
        proof {
            assert(word@.take(0) =~= Seq::<char>::empty());
            assert(chunk@ =~= Seq::<char>::empty());
        }
        while k < word.len()
            invariant
                k <= word@.len(),
                w == width,
                broken(base, word@.take(k as int), w) == (Wrapping {
                    lines: views(lines@),
                    line: chunk@,
                }),
                chunk_used == capped(cells(chunk@), width),
            decreases word.len() - k,
        {
            let c = word[k];
            proof {
                assert(word@.take(k + 1).drop_last() =~= word@.take(k as int));
                assert(word@.take(k + 1).last() == c);
                assert(chunk@.push(c).drop_last() =~= chunk@);
                assert(Seq::<char>::empty().push(c) =~= seq![c]);
                assert(seq![c].drop_last() =~= Seq::<char>::empty());
                reveal_with_fuel(cells, 2);
                assert(cells(seq![c]) == cell_width(c));
            }
            let ghost n = cells(chunk@);
            let more = plus(chunk_used, c, width, Ghost(n));
            if more.is_none() {
                proof {
                    assert(views(lines@.push(chunk)) =~= views(lines@).push(chunk@));
                }
                lines.push(chunk);
                chunk = String::new();
                chunk.push(c);
                chunk_used = plus(Some(0), c, width, Ghost(0));
            } else {
                chunk.push(c);
                chunk_used = more;
            }
            k = k + 1;
        }
        proof {
            assert(word@.take(word@.len() as int) =~= word@);
        }
        line = chunk;
        used = chunk_used;
        i = i + 1;
    }
    proof {
        assert(ws.take(all@.len() as int) =~= ws);
        assert(views(lines@.push(line)) =~= views(lines@).push(line@));
        assert(views(lines@).len() == lines@.len());
    }
    if line.as_str().unicode_len() > 0 || lines.len() == 0 {
        lines.push(line);
    }
    lines
}

} // verus!
