//! Where generated code and the record of it live.
//!
//! Two things live under `<root>/.cargo-hole/`:
//!
//! - **Artifacts**: one generated `.rs` per source file that had holes,
//!   mirroring the source tree (`src/lib.rs` -> `.cargo-hole/patch/src/lib.rs`).
//!   They live in a `patch/` subdirectory so that the store's top level holds
//!   only the ledger and the lock, and so that generated code is never confused
//!   with `build/`, the disposable tree that `cargo hole build` derives from it.
//!   The real source is never touched, so every hole keeps its
//!   `todo!("spec: ...")` and its byte offsets stay valid across runs.
//! - The **ledger**: `ledger.jsonl`, one JSON object per line, mapping a hole to
//!   the code that was generated for it.
//!
//! The ledger is what makes a repeated `fill` cheap. Because the source is
//! untouched, the same hole derives the same [`crate::hole::Hole::hash_key`] on
//! every run, so a second run replays the recorded answer instead of paying for
//! it again.
//!
//! # Why the ledger holds only three fields
//!
//! An entry is a cache slot, not a log. The whole question it answers is "what
//! code was proven to work for this hole", so it stores exactly that: which hole
//! ([`Entry::id`]), what code ([`Entry::code`]), and what format the record is
//! in ([`Entry::v`]).
//!
//! There is deliberately **no `verified` flag**: [`Storage::put`] is simply never
//! called until the whole generated tree has compiled, so everything in the
//! ledger is verified *by construction*.
//!
//! **The ledger is append-only.** Nothing is ever rewritten in place, so there
//! is no read-modify-write window in which two processes can lose each other's
//! entries, and a crash can only ever truncate the *tail*. A newer entry for an
//! id supersedes the older one on read, so "update" is spelled "append".
//!
//! An artifact is written **first**, its ledger entry second. Crash in between
//! and the ledger is simply missing an entry, which costs one regeneration on
//! the next run. The reverse order would leave the ledger claiming that code
//! exists which does not, and no later run could tell the difference.
use vstd::prelude::*;

use crate::json::{
    as_number, entry_text, json_number, json_string, json_text, json_text_at, lemma_entry_is_one_line,
    write_entry,
};
use crate::path::{
    components, components_of, file_name, file_name_of, is_below, is_name, join, joined, parent,
    relative_to, rooted, spans, strip_prefix, without_last,
};
use crate::record::{entry_members, field_of, has_at_most, record_in, values_named, Record, RecordView};
use crate::text::{
    blank, decimal, decimal_of, is_blank, line_scan, lines, lines_of, opt_view, owned, same, views,
    without_cr,
};

verus! {

/// Directory holding artifacts and the ledger, relative to the crate root.
pub const STORE_DIR: &'static str = ".cargo-hole";

/// Name of the directory inside [`STORE_DIR`] that holds the generated code.
///
/// Kept separate from [`STORE_DIR`] itself so that the store's top level holds
/// only the ledger and the lock, and so that the build tree -- which is derived,
/// disposable output -- can never be confused with the generated code, which is
/// the product. Renaming this is a layout change: old artifacts left at
/// `.cargo-hole/src/` are not silently ignored, because ignoring them would build
/// an all-`todo!()` tree that still compiles.
pub const PATCH_DIR: &'static str = "patch";

/// Name of the append-only ledger inside [`STORE_DIR`].
pub const LEDGER_FILE: &'static str = "ledger.jsonl";

/// Schema version of the ledger.
///
/// Bump this whenever a field changes meaning, or a new field becomes
/// load-bearing for replay. An entry from another version is ignored rather than
/// read: regenerating it costs one model call, whereas misreading it could
/// splice the wrong code into a file.
pub const SCHEMA: u32 = 1;

/// One recorded answer: a hole and the code that was generated for it.
#[derive(Debug, PartialEq, Eq)]
pub struct Entry {
    /// Ledger schema version; see [`SCHEMA`].
    pub v: u32,
    /// [`crate::hole::Hole::hash_key`] of the hole this is an answer for.
    pub id: String,
    /// The generated expression, exactly as spliced into the artifact.
    pub code: String,
}

/// The entry that three fields make up, if they are all there and of their
/// types.
pub open spec fn entry_of(v: Option<u64>, id: Option<Seq<char>>, code: Option<Seq<char>>) -> Option<
    (u32, Seq<char>, Seq<char>),
> {
    match (v, id, code) {
        (Some(v), Some(id), Some(code)) => if v <= u32::MAX {
            Some((v as u32, id, code))
        } else {
            None
        },
        _ => None,
    }
}

/// What a ledger line says: a schema version, a hole and its code, by name or, in
/// an array of three, by place. A line that lacks any of them, or has one twice,
/// says nothing.
pub open spec fn entry_in(line: Seq<char>) -> Option<(u32, Seq<char>, Seq<char>)> {
    match record_in(line) {
        Some(r) => if has_at_most(r, 3) {
            match (field_of(r, 0, "v"@), field_of(r, 1, "id"@), field_of(r, 2, "code"@)) {
                (Some(Some(v)), Some(Some(id)), Some(Some(code))) => entry_of(
                    json_number(v),
                    json_text(id, ""@),
                    json_text(code, ""@),
                ),
                _ => None,
            }
        } else {
            None
        },
        None => None,
    }
}

/// An entry as plain text and numbers.
pub open spec fn entry_view(e: Option<Entry>) -> Option<(u32, Seq<char>, Seq<char>)> {
    match e {
        Some(x) => Some((x.v, x.id@, x.code@)),
        None => None,
    }
}

/// A line that was written for an entry is read as that entry.
pub open spec fn reads_back(line: Seq<char>) -> bool {
    forall|v: u32, id: Seq<char>, code: Seq<char>|
        line == #[trigger] entry_text(v as nat, id, code) ==> entry_in(line) == Some(
            (v, id, code),
        )
}

/// A line that was written for an entry and then cut short is not read as one.
pub open spec fn drops_torn(line: Seq<char>) -> bool {
    forall|v: nat, id: Seq<char>, code: Seq<char>, k: int|
        0 <= k < entry_text(v, id, code).len() && line == #[trigger] entry_text(v, id, code).take(k)
            ==> entry_in(line) is None
}

impl Entry {
    /// An entry recording `code` as the answer for hole `id`.
    pub fn new(id: &str, code: &str) -> (r: Entry)
        ensures
            r.v == SCHEMA,
            r.id@ == id@,
            r.code@ == code@,
    {
        Entry { v: SCHEMA, id: owned(id), code: owned(code) }
    }

    /// The entry as one line of JSON, without its line end.
    pub fn to_line(&self) -> (r: String)
        ensures
            r@ == entry_text(self.v as nat, self.id@, self.code@),
    {
        write_entry(self.v, self.id.as_str(), self.code.as_str())
    }

    /// The entry that three fields make up, if they are all there.
    pub fn from_fields(v: Option<u64>, id: Option<String>, code: Option<String>) -> (r: Option<
        Entry,
    >)
        ensures
            entry_view(r) == entry_of(v, opt_view(id), opt_view(code)),
    {
        match (v, id, code) {
            (Some(n), Some(id), Some(code)) => if n <= 0xffff_ffff {
                Some(Entry { v: n as u32, id, code })
            } else {
                None
            },
            _ => None,
        }
    }

    /// The entry a ledger line holds, if it holds one. What was written is read
    /// back as it was, and a line cut short is not read at all.
    pub fn from_line(line: &str) -> (r: Option<Entry>)
        ensures
            entry_view(r) == entry_in(line@),
            reads_back(line@),
            drops_torn(line@),
    {
        let record = Record::read(line);
        proof {
            assert forall|v: u32, id: Seq<char>, code: Seq<char>|
                line@ == #[trigger] entry_text(v as nat, id, code) implies record_in(line@) == Some(
                RecordView::Named(entry_members(v as nat, id, code)),
            ) by {}
        }
        let r = match record {
            Some(r) => r,
            None => {
                return None;
            },
        };
        if !r.fits(3) {
            return None;
        }
        let v = r.field(0, "v");
        let id = r.field(1, "id");
        let code = r.field(2, "code");
        match (v, id, code) {
            (Some(Some(v)), Some(Some(id)), Some(Some(code))) => {
                let number = as_number(v.as_str());
                let hole = json_text_at(id.as_str(), "");
                let answer = json_text_at(code.as_str(), "");
                proof {
                    assert forall|w: u32, i: Seq<char>, c: Seq<char>|
                        line@ == #[trigger] entry_text(w as nat, i, c) implies entry_in(line@)
                        == Some((w, i, c)) by {
                        lemma_entry_fields(w as nat, i, c);
                    }
                }
                Entry::from_fields(number, hole, answer)
            },
            _ => {
                proof {
                    assert forall|w: u32, i: Seq<char>, c: Seq<char>|
                        line@ == #[trigger] entry_text(w as nat, i, c) implies entry_in(line@)
                        == Some((w, i, c)) by {
                        lemma_entry_fields(w as nat, i, c);
                    }
                }
                None
            },
        }
    }
}

/// The fields of a ledger line, each there once.
proof fn lemma_entry_fields(v: nat, id: Seq<char>, code: Seq<char>)
    ensures
        ({
            let r = RecordView::Named(entry_members(v, id, code));
            &&& field_of(r, 0, "v"@) == Some(Some(decimal_of(v)))
            &&& field_of(r, 1, "id"@) == Some(Some(json_string(id)))
            &&& field_of(r, 2, "code"@) == Some(Some(json_string(code)))
        }),
{
    reveal_strlit("v");
    reveal_strlit("id");
    reveal_strlit("code");
    let m = entry_members(v, id, code);
    assert("v"@.len() == 1 && "id"@.len() == 2 && "code"@.len() == 4);
    let (a, b) = (m.drop_last(), m.drop_last().drop_last());
    assert(m.last() == m[2] && a.last() == m[1] && b.last() == m[0]);
    assert(b.drop_last() =~= Seq::<(Seq<char>, Seq<char>)>::empty());
    reveal_with_fuel(values_named, 4);
}

// ---------------------------------------------------------------------------
// The ledger
// ---------------------------------------------------------------------------

/// The answers after one more line: a line of this schema sets the answer of
/// its hole, any other changes nothing.
pub open spec fn after_line(answers: Map<Seq<char>, Seq<char>>, line: Seq<char>) -> Map<
    Seq<char>,
    Seq<char>,
> {
    if is_blank(line) {
        answers
    } else {
        match entry_in(line) {
            Some((v, id, code)) => if v == SCHEMA {
                answers.insert(id, code)
            } else {
                answers
            },
            None => answers,
        }
    }
}

/// The answers after some lines in turn.
pub open spec fn replayed(lines: Seq<Seq<char>>) -> Map<Seq<char>, Seq<char>>
    decreases lines.len(),
{
    if lines.len() == 0 {
        Map::empty()
    } else {
        after_line(replayed(lines.drop_last()), lines.last())
    }
}

/// The answers a ledger holds.
pub open spec fn ledger_answers(text: Seq<char>) -> Map<Seq<char>, Seq<char>> {
    replayed(lines_of(text))
}

/// The last of the first `n` lines that is not blank.
pub open spec fn last_content(lines: Seq<Seq<char>>, n: int) -> Option<int>
    decreases n,
{
    if n <= 0 {
        None
    } else if !is_blank(lines[n - 1]) {
        Some(n - 1)
    } else {
        last_content(lines, n - 1)
    }
}

/// The numbers of the lines, among the first `n`, that are damaged and should
/// not be. The last line with content may be: a tear in the tail is the expected
/// shape of a crash during an append.
pub open spec fn damaged_lines(lines: Seq<Seq<char>>, n: int) -> Seq<usize>
    decreases n,
{
    if n <= 0 {
        seq![]
    } else {
        let front = damaged_lines(lines, n - 1);
        if !is_blank(lines[n - 1]) && entry_in(lines[n - 1]) is None && last_content(
            lines,
            lines.len() as int,
        ) != Some(n - 1) {
            front.push(n as usize)
        } else {
            front
        }
    }
}

/// Whether a text is empty or ends its last line.
pub open spec fn ends_line(text: Seq<char>) -> bool {
    text.len() == 0 || text.last() == '\n'
}

/// Whether `text` is a ledger that one entry was appended to.
pub open spec fn appended(
    text: Seq<char>,
    before: Seq<char>,
    id: Seq<char>,
    code: Seq<char>,
) -> bool {
    ends_line(before) && text == before + entry_text(SCHEMA as nat, id, code) + "\n"@
}

/// Whether `text` is a ledger that an append to was cut short at `k` characters.
pub open spec fn torn(
    text: Seq<char>,
    before: Seq<char>,
    id: Seq<char>,
    code: Seq<char>,
    k: int,
) -> bool {
    &&& ends_line(before)
    &&& 0 <= k < entry_text(SCHEMA as nat, id, code).len()
    &&& text == before + entry_text(SCHEMA as nat, id, code).take(k)
}

proof fn lemma_scan_within_line(before: Seq<char>, line: Seq<char>)
    requires
        ends_line(before),
        forall|i: int| 0 <= i < line.len() ==> #[trigger] line[i] != '\n',
    ensures
        line_scan(before + line) == (line_scan(before).0, line),
        line_scan(before).1.len() == 0,
    decreases line.len(),
{
    if line.len() == 0 {
        assert(before + line =~= before);
        assert(line_scan(before).1 =~= line);
    } else {
        let t = before + line;
        assert(t.drop_last() =~= before + line.drop_last());
        assert(t.last() == line.last());
        assert(line.last() == line[line.len() - 1]);
        assert forall|i: int| 0 <= i < line.drop_last().len() implies #[trigger] line.drop_last()[i]
            != '\n' by {
            assert(line.drop_last()[i] == line[i]);
        }
        lemma_scan_within_line(before, line.drop_last());
        assert(line.drop_last().push(line.last()) =~= line);
    }
}

/// Appending a line to a text that ends its last line appends it to its lines.
pub proof fn lemma_append_line(before: Seq<char>, line: Seq<char>)
    requires
        ends_line(before),
        forall|i: int| 0 <= i < line.len() ==> #[trigger] line[i] != '\n',
        line.len() > 0,
        line.last() != '\r',
    ensures
        lines_of(before + line + "\n"@) == lines_of(before).push(line),
        lines_of(before + line) == lines_of(before).push(line),
        ends_line(before + line + "\n"@),
{
    reveal_strlit("\n");
    lemma_scan_within_line(before, line);
    let t = before + line + "\n"@;
    assert("\n"@ =~= seq!['\n']);
    assert(t.drop_last() =~= before + line);
    assert(t.last() == '\n');
    assert(without_cr(line) == line);
}

proof fn lemma_entry_line(v: nat, id: Seq<char>, code: Seq<char>)
    ensures
        forall|i: int|
            0 <= i < entry_text(v, id, code).len() ==> #[trigger] entry_text(v, id, code)[i]
                != '\n' && entry_text(v, id, code)[i] != '\r',
        entry_text(v, id, code).len() > 0,
        !is_blank(entry_text(v, id, code)),
{
    lemma_entry_is_one_line(v, id, code);
    let e = entry_text(v, id, code);
    assert forall|i: int| 0 <= i < e.len() implies #[trigger] e[i] != '\n' && e[i] != '\r' by {
        assert(e[i] as u32 >= 0x20);
    }
    assert(!crate::text::is_space(e[0]));
}

/// Every line of a ledger is read back or dropped as it was written.
pub open spec fn lines_faithful(lines: Seq<Seq<char>>) -> bool {
    forall|i: int|
        0 <= i < lines.len() ==> reads_back(#[trigger] lines[i]) && drops_torn(lines[i])
}

proof fn lemma_appended_answer(text: Seq<char>, before: Seq<char>, id: Seq<char>, code: Seq<char>)
    requires
        appended(text, before, id, code),
        lines_faithful(lines_of(text)),
    ensures
        ledger_answers(text) == ledger_answers(before).insert(id, code),
{
    let e = entry_text(SCHEMA as nat, id, code);
    lemma_entry_line(SCHEMA as nat, id, code);
    lemma_append_line(before, e);
    let ls = lines_of(text);
    assert(ls.drop_last() =~= lines_of(before));
    assert(ls[ls.len() - 1] == e);
    assert(reads_back(ls[ls.len() - 1]));
}

proof fn lemma_torn_answer(
    text: Seq<char>,
    before: Seq<char>,
    id: Seq<char>,
    code: Seq<char>,
    k: int,
)
    requires
        torn(text, before, id, code, k),
        lines_faithful(lines_of(text)),
    ensures
        ledger_answers(text) == ledger_answers(before),
{
    let e = entry_text(SCHEMA as nat, id, code);
    let t = e.take(k);
    lemma_entry_line(SCHEMA as nat, id, code);
    if k == 0 {
        assert(before + t =~= before);
    } else {
        assert forall|i: int| 0 <= i < t.len() implies #[trigger] t[i] != '\n' by {
            assert(t[i] == e[i]);
        }
        assert(t.last() == e[k - 1]);
        lemma_append_line(before, t);
        let ls = lines_of(text);
        assert(ls.drop_last() =~= lines_of(before));
        assert(ls[ls.len() - 1] == t);
        assert(drops_torn(ls[ls.len() - 1]));
    }
}

// ---------------------------------------------------------------------------
// The answers in memory
// ---------------------------------------------------------------------------

/// The answers a list of pairs holds; a later pair counts over an earlier one.
pub open spec fn pairs_map(pairs: Seq<(String, String)>) -> Map<Seq<char>, Seq<char>>
    decreases pairs.len(),
{
    if pairs.len() == 0 {
        Map::empty()
    } else {
        pairs_map(pairs.drop_last()).insert(pairs.last().0@, pairs.last().1@)
    }
}

/// No hole occurs twice.
pub open spec fn distinct_ids(pairs: Seq<(String, String)>) -> bool {
    forall|i: int, j: int|
        0 <= i < j < pairs.len() ==> (#[trigger] pairs[i]).0@ != (#[trigger] pairs[j]).0@
}

proof fn lemma_pairs_map(pairs: Seq<(String, String)>)
    requires
        distinct_ids(pairs),
    ensures
        pairs_map(pairs).dom().finite(),
        pairs_map(pairs).dom().len() == pairs.len(),
        forall|i: int|
            0 <= i < pairs.len() ==> pairs_map(pairs).contains_pair(
                (#[trigger] pairs[i]).0@,
                pairs[i].1@,
            ),
        forall|id: Seq<char>| #[trigger]
            pairs_map(pairs).contains_key(id) ==> exists|i: int|
                0 <= i < pairs.len() && (#[trigger] pairs[i]).0@ == id,
    decreases pairs.len(),
{
    if pairs.len() > 0 {
        let front = pairs.drop_last();
        let last = pairs.last();
        assert(distinct_ids(front)) by {
            assert forall|i: int, j: int| 0 <= i < j < front.len() implies (#[trigger] front[i]).0@
                != (#[trigger] front[j]).0@ by {
                assert(pairs[i].0@ != pairs[j].0@);
            }
        }
        lemma_pairs_map(front);
        let m = pairs_map(front);
        assert(pairs[pairs.len() - 1] == last);
        assert(!m.contains_key(last.0@)) by {
            if m.contains_key(last.0@) {
                let i = choose|i: int| 0 <= i < front.len() && (#[trigger] front[i]).0@ == last.0@;
                assert(pairs[i].0@ != pairs[pairs.len() - 1].0@);
            }
        }
        assert(pairs_map(pairs).dom() =~= m.dom().insert(last.0@));
        assert forall|i: int| 0 <= i < pairs.len() implies pairs_map(pairs).contains_pair(
            (#[trigger] pairs[i]).0@,
            pairs[i].1@,
        ) by {
            if i < front.len() {
                assert(front[i] == pairs[i]);
                assert(pairs[i].0@ != pairs[pairs.len() - 1].0@);
            }
        }
        assert forall|id: Seq<char>| #[trigger] pairs_map(pairs).contains_key(id) implies exists|
            i: int,
        | 0 <= i < pairs.len() && (#[trigger] pairs[i]).0@ == id by {
            if id == last.0@ {
                assert(pairs[pairs.len() - 1].0@ == id);
            } else {
                assert(m.contains_key(id));
                let i = choose|i: int| 0 <= i < front.len() && (#[trigger] front[i]).0@ == id;
                assert(pairs[i].0@ == id);
            }
        }
    } else {
        assert(pairs_map(pairs).dom() =~= Set::empty());
    }
}

/// Artifacts and the ledger, read into memory and appended to as holes are
/// filled.
#[derive(Debug)]
pub struct DiskCache {
    /// The crate root, as given to [`DiskCache::open`].
    pub root: String,
    /// `<root>/.cargo-hole`, where everything this backend writes lives.
    pub dir: String,
    /// The recorded code for each hole.
    ///
    /// Only the newest entry per hole is kept: older ones were superseded and
    /// nothing reads them, and holding every historical answer would grow
    /// without bound as a crate is regenerated over time.
    pub by_id: Vec<(String, String)>,
}

impl DiskCache {
    /// The recorded answers.
    pub open spec fn answers(self) -> Map<Seq<char>, Seq<char>> {
        pairs_map(self.by_id@)
    }

    /// No hole is recorded twice, and the store is the root's.
    pub open spec fn wf(self) -> bool {
        distinct_ids(self.by_id@) && self.dir@ == joined(self.root@, STORE_DIR@)
    }

    /// Open the store rooted at `root`, with whatever ledger is already there; a
    /// missing ledger is an empty one. Also returns the numbers of the lines
    /// that are damaged and deserve a warning: they must not fail the run, since
    /// the entries around them are intact, and regenerating the rest is always
    /// correct.
    ///
    /// A recorded answer survives reopening: whatever else the ledger holds, the
    /// entry appended last is there, over any earlier one for its hole, and all
    /// others are undisturbed. An append that was cut short loses nothing that
    /// was recorded before it.
    pub fn open(root: &str, ledger: Option<&str>) -> (r: (DiskCache, Vec<usize>))
        ensures
            r.0.wf(),
            r.0.root@ == root@,
            ledger is None ==> r.0.answers() == Map::<Seq<char>, Seq<char>>::empty() && r.1@.len()
                == 0,
            ledger is Some ==> ({
                let text = ledger->0@;
                &&& r.0.answers() == ledger_answers(text)
                &&& r.1@ == damaged_lines(lines_of(text), lines_of(text).len() as int)
                &&& forall|before: Seq<char>, id: Seq<char>, code: Seq<char>| #[trigger]
                    appended(text, before, id, code) ==> r.0.answers() == ledger_answers(
                        before,
                    ).insert(id, code)
                &&& forall|before: Seq<char>, id: Seq<char>, code: Seq<char>, k: int| #[trigger]
                    torn(text, before, id, code, k) ==> r.0.answers() == ledger_answers(before)
            }),
    {
        let dir = join(root, STORE_DIR);
        let mut cache = DiskCache { root: owned(root), dir, by_id: Vec::new() };
        let mut damaged: Vec<usize> = Vec::new();
        let text = match ledger {
            None => {
                return (cache, damaged);
            },
            Some(t) => t,
        };
        let all = lines(text);
        let ghost ls = lines_of(text@);
        let n: usize = all.len();
        proof {
            assert(ls.len() == n);
        }
        // The last line with content.
        let mut content: usize = n;
        proof {
            assert(views(all@).take(n as int) =~= ls);
        }
        while content > 0 && blank(all[content - 1].as_str())
            invariant
                content <= n,
                n == all@.len(),
                ls == views(all@),
                ls.len() == n,
                last_content(ls, n as int) == last_content(ls, content as int),
            decreases content,
        {
            proof {
                assert(ls[content - 1] == all@[content - 1]@);
            }
            content = content - 1;
        }
        proof {
            if content > 0 {
                assert(ls[content - 1] == all@[content - 1]@);
            }
        }
        let mut i: usize = 0;
        proof {
            assert(ls.take(0) =~= Seq::<Seq<char>>::empty());
        }
        while i < n
            invariant
                i <= n,
                n == all@.len(),
                ls == views(all@),
                ls.len() == n,
                content <= n,
                last_content(ls, n as int) == if content > 0 {
                    Some(content - 1)
                } else {
                    None
                },
                cache.wf(),
                cache.root@ == root@,
                cache.answers() == replayed(ls.take(i as int)),
                damaged@ == damaged_lines(ls, i as int),
                forall|j: int|
                    0 <= j < i ==> reads_back(#[trigger] ls[j]) && drops_torn(ls[j]),
            decreases n - i,
        {
            proof {
                assert(ls[i as int] == all@[i as int]@);
                assert(ls.take(i + 1).drop_last() =~= ls.take(i as int));
                assert(ls.take(i + 1).last() == ls[i as int]);
            }
            // The line is read even where it is blank, which is never an entry.
            let entry = Entry::from_line(all[i].as_str());
            if !blank(all[i].as_str()) {
                match entry {
                    // The only entries that count. A different schema version
                    // means the fields may no longer mean what this code thinks
                    // they mean, so the entry is ignored rather than misread.
                    //
                    // An entry that is *later* in the file overwrites an earlier
                    // one, so this keeps the newest answer per hole.
                    Some(e) => {
                        if e.v == SCHEMA {
                            cache.put(e.id.as_str(), e.code.as_str());
                        }
                    },
                    None => {
                        if i + 1 != content {
                            damaged.push(i + 1);
                        }
                    },
                }
            }
            i = i + 1;
        }
        proof {
            assert(ls.take(n as int) =~= ls);
            assert(lines_faithful(ls));
            assert forall|before: Seq<char>, id: Seq<char>, code: Seq<char>| #[trigger]
                appended(text@, before, id, code) implies cache.answers() == ledger_answers(
                before,
            ).insert(id, code) by {
                lemma_appended_answer(text@, before, id, code);
            }
            assert forall|before: Seq<char>, id: Seq<char>, code: Seq<char>, k: int| #[trigger]
                torn(text@, before, id, code, k) implies cache.answers() == ledger_answers(
                before,
            ) by {
                lemma_torn_answer(text@, before, id, code, k);
            }
        }
        (cache, damaged)
    }

    /// The directory artifacts and the ledger live in.
    pub fn dir(&self) -> (r: &str)
        ensures
            r@ == self.dir@,
    {
        self.dir.as_str()
    }

    /// The recorded code for hole `id`, if the ledger has an answer for it.
    pub fn get(&self, id: &str) -> (r: Option<&str>)
        ensures
            match r {
                Some(code) => self.answers().contains_pair(id@, code@),
                None => !self.answers().contains_key(id@),
            },
    {
        let mut n: usize = self.by_id.len();
        proof {
            assert(self.by_id@.take(n as int) =~= self.by_id@);
        }
        while n > 0
            invariant
                n <= self.by_id@.len(),
                self.answers().contains_key(id@) == pairs_map(
                    self.by_id@.take(n as int),
                ).contains_key(id@),
                self.answers()[id@] == pairs_map(self.by_id@.take(n as int))[id@],
            decreases n,
        {
            let pair = &self.by_id[n - 1];
            proof {
                let t = self.by_id@.take(n as int);
                assert(t.drop_last() =~= self.by_id@.take(n - 1));
                assert(t.last() == *pair);
            }
            if same(pair.0.as_str(), id) {
                return Some(pair.1.as_str());
            }
            n = n - 1;
        }
        None
    }

    /// Record `code` as the answer for hole `id`.
    ///
    /// The caller must have compiled `code` in its tree first. Returns what is to
    /// be appended to the ledger, in one write: a line that reading the ledger
    /// again gives the answer back from.
    pub fn put(&mut self, id: &str, code: &str) -> (r: String)
        requires
            old(self).wf(),
        ensures
            r@ == entry_text(SCHEMA as nat, id@, code@) + "\n"@,
            final(self).wf(),
            final(self).root == old(self).root,
            final(self).dir == old(self).dir,
            final(self).answers() == old(self).answers().insert(id@, code@),
    {
        let ghost before = self.by_id@;
        let n: usize = self.by_id.len();
        let mut i: usize = 0;
        while i < n && !same(self.by_id[i].0.as_str(), id)
            invariant
                i <= n,
                n == self.by_id@.len(),
                *self == *old(self),
                forall|j: int| 0 <= j < i ==> (#[trigger] self.by_id@[j]).0@ != id@,
            decreases n - i,
        {
            i = i + 1;
        }
        let pair = (owned(id), owned(code));
        if i < n {
            self.by_id.set(i, pair);
        } else {
            self.by_id.push(pair);
        }
        proof {
            let now = self.by_id@;
            assert(distinct_ids(now)) by {
                assert forall|a: int, b: int| 0 <= a < b < now.len() implies (#[trigger] now[a]).0@
                    != (#[trigger] now[b]).0@ by {
                    if a < before.len() && b < before.len() {
                        assert(before[a].0@ != before[b].0@);
                        assert(now[a].0@ == before[a].0@ && now[b].0@ == before[b].0@);
                    }
                }
            }
            lemma_pairs_map(before);
            lemma_pairs_map(now);
            let target = pairs_map(before).insert(id@, code@);
            assert(now[i as int] == pair);
            assert forall|k: Seq<char>| #[trigger] pairs_map(now).contains_key(k)
                <==> target.contains_key(k) by {
                if pairs_map(now).contains_key(k) {
                    let j = choose|j: int| 0 <= j < now.len() && (#[trigger] now[j]).0@ == k;
                    if j != i {
                        assert(before[j] == now[j]);
                        assert(pairs_map(before).contains_pair(before[j].0@, before[j].1@));
                    }
                }
                if target.contains_key(k) {
                    if k == id@ {
                        assert(pairs_map(now).contains_pair(now[i as int].0@, now[i as int].1@));
                    } else {
                        assert(pairs_map(before).contains_key(k));
                        let j = choose|j: int|
                            0 <= j < before.len() && (#[trigger] before[j]).0@ == k;
                        assert(j != i);
                        assert(now[j] == before[j]);
                        assert(pairs_map(now).contains_pair(now[j].0@, now[j].1@));
                    }
                }
            }
            assert forall|k: Seq<char>| pairs_map(now).contains_key(k) implies #[trigger] pairs_map(
                now,
            )[k] == target[k] by {
                let j = choose|j: int| 0 <= j < now.len() && (#[trigger] now[j]).0@ == k;
                assert(pairs_map(now).contains_pair(now[j].0@, now[j].1@));
                if j != i {
                    assert(before[j] == now[j]);
                    assert(pairs_map(before).contains_pair(before[j].0@, before[j].1@));
                    if k == id@ {
                        assert(now[i as int].0@ == id@);
                        if j < i {
                            assert(now[j].0@ != now[i as int].0@);
                        } else {
                            assert(now[i as int].0@ != now[j].0@);
                        }
                    }
                }
            }
            assert(pairs_map(now) =~= target);
        }
        let mut line = Entry::new(id, code).to_line();
        line.push_str("\n");
        line
    }

    /// How many distinct holes the ledger has an answer for.
    pub fn len(&self) -> (r: usize)
        requires
            self.wf(),
        ensures
            r == self.answers().dom().len(),
    {
        proof {
            lemma_pairs_map(self.by_id@);
        }
        self.by_id.len()
    }

    /// Whether the ledger has no answers at all.
    pub fn is_empty(&self) -> (r: bool)
        requires
            self.wf(),
        ensures
            r == (self.answers() == Map::<Seq<char>, Seq<char>>::empty()),
    {
        proof {
            lemma_pairs_map(self.by_id@);
            if self.by_id@.len() == 0 {
                assert(self.answers() =~= Map::empty());
            } else {
                assert(self.answers().contains_key(self.by_id@[0].0@));
            }
        }
        self.by_id.len() == 0
    }
}

// ---------------------------------------------------------------------------
// Artifacts
// ---------------------------------------------------------------------------

/// Whether every component of a path is a name.
pub open spec fn all_names(path: Seq<char>) -> bool {
    forall|i: int| 0 <= i < components_of(path).len() ==> is_name(#[trigger] components_of(path)[i])
}

/// Why a file has no place in the store, if it has none.
pub open spec fn artifact_error(root: Seq<char>, dir: Seq<char>, file: Seq<char>) -> Option<
    Seq<char>,
> {
    match relative_to(file, root) {
        None => Some(file + " is not inside the crate root "@ + root),
        Some(rel) => if rel.len() == 0 {
            Some(file + " is the crate root, not a source file"@)
        } else if !all_names(rel) {
            Some(
                file
                    + " has a path component that is not a plain name, so it cannot be mapped into "@
                    + dir,
            )
        } else {
            None
        },
    }
}

/// Where the artifact of a file belongs.
pub open spec fn artifact_of(root: Seq<char>, dir: Seq<char>, file: Seq<char>) -> Seq<char> {
    joined(dir, relative_to(file, root)->0)
}

/// The name of the temporary file an artifact is written to before it takes the
/// artifact's place: beside it, since a rename is only atomic within one
/// filesystem.
pub open spec fn temp_path_of(dest: Seq<char>, pid: nat, counter: nat) -> Seq<char> {
    let name = match file_name_of(dest) {
        Some(n) => n,
        None => "artifact"@,
    };
    joined(
        without_last(dest),
        "."@ + name + ".tmp-"@ + decimal_of(pid) + "-"@ + decimal_of(counter),
    )
}

/// Where the store of a crate keeps its artifacts.
pub open spec fn patch_dir_of(dir: Seq<char>) -> Seq<char> {
    joined(dir, PATCH_DIR@)
}

proof fn lemma_mapped_below(root: Seq<char>, dir: Seq<char>, file: Seq<char>)
    requires
        dir.len() > 0,
        dir.last() != '/',
        artifact_error(root, dir, file) is None,
    ensures
        ({
            let dest = artifact_of(root, dir, file);
            let below = relative_to(file, root)->0;
            &&& components_of(dest) == components_of(dir) + components_of(below)
            &&& is_below(dest, dir)
            &&& all_names(below)
        }),
{
    let below = relative_to(file, root)->0;
    if rooted(below) {
        reveal_strlit("/");
        assert(spans(below)[0] == (0int, 1int));
        assert(below.subrange(0, 1) =~= "/"@);
        assert(components_of(below)[0] == "/"@);
    }
    if components_of(below).len() > 0 {
        assert(is_name(components_of(below)[0]));
    }
    crate::path::lemma_join_components(dir, below);
    let dest = artifact_of(root, dir, file);
    let a = components_of(dir);
    let b = components_of(below);
    assert((a + b).take(a.len() as int) =~= a);
    assert(a.is_prefix_of(components_of(dest)));
}

/// An artifact never escapes the store: its path is that of the store's `patch/`,
/// followed by plain names, the same that lead from the root to the source.
pub proof fn lemma_artifacts_stay_in_the_store(root: Seq<char>, file: Seq<char>)
    requires
        artifact_error(root, patch_dir_of(joined(root, STORE_DIR@)), file) is None,
    ensures
        ({
            let patch = patch_dir_of(joined(root, STORE_DIR@));
            let dest = artifact_of(root, patch, file);
            let below = relative_to(file, root)->0;
            &&& components_of(dest) == components_of(patch) + components_of(below)
            &&& is_below(dest, patch)
            &&& all_names(below)
        }),
{
    reveal_strlit("patch");
    let patch = patch_dir_of(joined(root, STORE_DIR@));
    assert(PATCH_DIR@.len() == 5 && PATCH_DIR@[0] == 'p' && PATCH_DIR@[4] == 'h');
    assert(patch.last() == PATCH_DIR@[4]);
    lemma_mapped_below(root, patch, file);
}

fn only_names(path: &str) -> (r: bool)
    ensures
        r == all_names(path@),
{
    let parts = components(path);
    let ghost all = components_of(path@);
    let mut i: usize = 0;
    proof {
        assert(all.len() == parts@.len());
    }
    while i < parts.len()
        invariant
            i <= parts@.len(),
            all == views(parts@),
            all.len() == parts@.len(),
            all == components_of(path@),
            forall|j: int| 0 <= j < i ==> is_name(#[trigger] all[j]),
        decreases parts.len() - i,
    {
        let c = parts[i].as_str();
        proof {
            assert(all[i as int] == c@);
        }
        if same(c, "/") || same(c, ".") || same(c, "..") {
            assert(!is_name(components_of(path@)[i as int]));
            return false;
        }
        i = i + 1;
    }
    true
}

/// Where a file of the crate belongs in `dir`, which mirrors the crate.
fn map_into(root: &str, dir: &str, file: &str) -> (r: Result<String, String>)
    ensures
        match r {
            Ok(dest) => artifact_error(root@, dir@, file@) is None && dest@ == artifact_of(
                root@,
                dir@,
                file@,
            ),
            Err(m) => artifact_error(root@, dir@, file@) == Some(m@),
        },
{
    let rel = match strip_prefix(file, root) {
        Some(rel) => rel,
        None => {
            let mut m = owned(file);
            m.push_str(" is not inside the crate root ");
            m.push_str(root);
            return Err(m);
        },
    };
    if rel.as_str().unicode_len() == 0 {
        let mut m = owned(file);
        m.push_str(" is the crate root, not a source file");
        return Err(m);
    }
    if !only_names(rel.as_str()) {
        let mut m = owned(file);
        m.push_str(" has a path component that is not a plain name, so it cannot be mapped into ");
        m.push_str(dir);
        return Err(m);
    }
    Ok(join(dir, rel.as_str()))
}

impl DiskCache {
    /// Where source file `file` belongs in this backend's directory:
    /// `<root>/.cargo-hole/<file relative to root>`. The store keeps generated
    /// code one level down; see [`Storage::artifact_path`].
    ///
    /// Refuses a path outside the root, or one containing `..`, `.` or a root
    /// component: an artifact can never be written outside the store.
    pub fn artifact_path(&self, file: &str) -> (r: Result<String, String>)
        ensures
            match r {
                Ok(dest) => artifact_error(self.root@, self.dir@, file@) is None && dest@
                    == artifact_of(self.root@, self.dir@, file@),
                Err(m) => artifact_error(self.root@, self.dir@, file@) == Some(m@),
            },
    {
        map_into(self.root.as_str(), self.dir.as_str(), file)
    }

    /// The files that writing an artifact goes through: where it belongs, and
    /// the temporary file that takes its place once it is complete. A reader
    /// either sees the previous artifact or the new one, never a mixture.
    pub fn write_artifact(&self, file: &str, pid: u32, counter: u32) -> (r: Result<
        (String, String),
        String,
    >)
        ensures
            match r {
                Ok((dest, tmp)) => artifact_error(self.root@, self.dir@, file@) is None && dest@
                    == artifact_of(self.root@, self.dir@, file@) && tmp@ == temp_path_of(
                    dest@,
                    pid as nat,
                    counter as nat,
                ),
                Err(m) => artifact_error(self.root@, self.dir@, file@) == Some(m@),
            },
    {
        let dest = match self.artifact_path(file) {
            Ok(d) => d,
            Err(m) => {
                return Err(m);
            },
        };
        let tmp = temp_path(dest.as_str(), pid, counter);
        Ok((dest, tmp))
    }
}

/// The temporary file for an artifact.
fn temp_path(dest: &str, pid: u32, counter: u32) -> (r: String)
    ensures
        r@ == temp_path_of(dest@, pid as nat, counter as nat),
{
    let name = match file_name(dest) {
        Some(n) => n,
        None => owned("artifact"),
    };
    let mut tmp = owned(".");
    tmp.push_str(name.as_str());
    tmp.push_str(".tmp-");
    tmp.push_str(decimal(pid as u64).as_str());
    tmp.push_str("-");
    tmp.push_str(decimal(counter as u64).as_str());
    join(parent(dest).as_str(), tmp.as_str())
}

/// The store, behind an enum so callers never name a backend.
#[derive(Debug)]
pub enum Storage {
    DiskCache(DiskCache),
}

impl Storage {
    /// The backend.
    pub open spec fn cache(self) -> DiskCache {
        match self {
            Storage::DiskCache(cache) => cache,
        }
    }

    /// Open the store rooted at `root`, given its ledger if there is one; see
    /// [`DiskCache::open`].
    pub fn open(root: &str, ledger: Option<&str>) -> (r: (Storage, Vec<usize>))
        ensures
            r.0.cache().wf(),
            r.0.cache().root@ == root@,
            ledger is None ==> r.0.cache().answers() == Map::<Seq<char>, Seq<char>>::empty()
                && r.1@.len() == 0,
            ledger is Some ==> ({
                let text = ledger->0@;
                &&& r.0.cache().answers() == ledger_answers(text)
                &&& r.1@ == damaged_lines(lines_of(text), lines_of(text).len() as int)
                &&& forall|before: Seq<char>, id: Seq<char>, code: Seq<char>| #[trigger]
                    appended(text, before, id, code) ==> r.0.cache().answers() == ledger_answers(
                        before,
                    ).insert(id, code)
                &&& forall|before: Seq<char>, id: Seq<char>, code: Seq<char>, k: int| #[trigger]
                    torn(text, before, id, code, k) ==> r.0.cache().answers() == ledger_answers(
                        before,
                    )
            }),
    {
        let (cache, damaged) = DiskCache::open(root, ledger);
        (Storage::DiskCache(cache), damaged)
    }

    /// The directory artifacts and the ledger live in.
    pub fn dir(&self) -> (r: &str)
        ensures
            r@ == self.cache().dir@,
    {
        match self {
            Storage::DiskCache(cache) => cache.dir(),
        }
    }

    /// Where the generated code for source file `file` belongs:
    /// `<root>/.cargo-hole/patch/<file relative to root>`.
    ///
    /// Fails if `file` is outside the crate root, or if the relative path would
    /// climb out with `..`.
    pub fn artifact_path(&self, file: &str) -> (r: Result<String, String>)
        ensures
            ({
                let patch = patch_dir_of(self.cache().dir@);
                match r {
                    Ok(dest) => artifact_error(self.cache().root@, patch, file@) is None && dest@
                        == artifact_of(self.cache().root@, patch, file@),
                    Err(m) => artifact_error(self.cache().root@, patch, file@) == Some(m@),
                }
            }),
    {
        match self {
            Storage::DiskCache(cache) => {
                let patch = join(cache.dir.as_str(), PATCH_DIR);
                map_into(cache.root.as_str(), patch.as_str(), file)
            },
        }
    }

    /// The files that writing an artifact goes through: where it belongs, and the
    /// temporary file that takes its place once it is complete. A reader either
    /// sees the previous artifact or the new one, never a mixture.
    ///
    /// Writing an artifact records nothing in the ledger: an artifact may be
    /// rewritten many times before a version of it compiles.
    pub fn write_artifact(&self, file: &str, pid: u32, counter: u32) -> (r: Result<
        (String, String),
        String,
    >)
        ensures
            ({
                let patch = patch_dir_of(self.cache().dir@);
                match r {
                    Ok((dest, tmp)) => artifact_error(self.cache().root@, patch, file@) is None
                        && dest@ == artifact_of(self.cache().root@, patch, file@) && tmp@
                        == temp_path_of(dest@, pid as nat, counter as nat),
                    Err(m) => artifact_error(self.cache().root@, patch, file@) == Some(m@),
                }
            }),
    {
        let dest = match self.artifact_path(file) {
            Ok(d) => d,
            Err(m) => {
                return Err(m);
            },
        };
        let tmp = temp_path(dest.as_str(), pid, counter);
        Ok((dest, tmp))
    }

    /// The recorded code for hole `id`, if the ledger has an answer for it.
    ///
    /// `None` is not an error and not a problem: it means this hole has to be
    /// generated, which is always correct, just slower.
    pub fn get(&self, id: &str) -> (r: Option<&str>)
        ensures
            match r {
                Some(code) => self.cache().answers().contains_pair(id@, code@),
                None => !self.cache().answers().contains_key(id@),
            },
    {
        match self {
            Storage::DiskCache(cache) => cache.get(id),
        }
    }

    /// Record `code` as the answer for hole `id`.
    ///
    /// **Call this only once the generated tree has compiled.** Everything in
    /// the ledger must be code that passed the compile gate: recording a
    /// candidate that was never compiled caches it permanently, and every later
    /// run would replay it as though a gate had accepted it.
    ///
    /// Returns what is to be appended to the ledger.
    pub fn put(&mut self, id: &str, code: &str) -> (r: String)
        requires
            old(self).cache().wf(),
        ensures
            r@ == entry_text(SCHEMA as nat, id@, code@) + "\n"@,
            final(self).cache().wf(),
            final(self).cache().root == old(self).cache().root,
            final(self).cache().dir == old(self).cache().dir,
            final(self).cache().answers() == old(self).cache().answers().insert(id@, code@),
    {
        match self {
            Storage::DiskCache(cache) => cache.put(id, code),
        }
    }

    /// How many distinct holes the ledger has an answer for.
    pub fn len(&self) -> (r: usize)
        requires
            self.cache().wf(),
        ensures
            r == self.cache().answers().dom().len(),
    {
        match self {
            Storage::DiskCache(cache) => cache.len(),
        }
    }

    /// Whether the ledger has no answers at all.
    pub fn is_empty(&self) -> (r: bool)
        requires
            self.cache().wf(),
        ensures
            r == (self.cache().answers() == Map::<Seq<char>, Seq<char>>::empty()),
    {
        match self {
            Storage::DiskCache(cache) => cache.is_empty(),
        }
    }
}

} // verus!
