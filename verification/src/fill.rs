//! The parts of a `fill` run: one file's work and what its answers come to, how
//! to come by an answer for one hole, and which holes a rejection is about.
use vstd::prelude::*;
use vstd::utf8::{encode_utf8, encode_utf8_decode_utf8};

use crate::cmdline::is_fillable;
use crate::gate::{
    answer_edits, answers_error, failure_refs, filled, first_answer_error, is_spliced,
    lemma_filled, verdict_failures, FailureView, Patch, Verdict,
};
use crate::hole::{hash_key_of, Hole, HoleView};
use crate::order::{lemma_order_is_stable, order_of};
use crate::splice::{
    alike, edit_keys, inserted, left_to_right, lemma_accepted_edits_are_disjoint,
    lemma_alike_edits_splice_alike, lemma_untouched_text_is_kept, spliced, stands_in,
};
use crate::storage::Storage;
use crate::text::{opt_str_view, opt_view, owned, same, views};

verus! {

// ---------------------------------------------------------------------------
// One file
// ---------------------------------------------------------------------------

/// One file's work: the path, the source *as it was before anything was
/// written*, and each hole paired with the answer that went into it.
///
/// `None` as an answer means the hole was left unelaborated -- pinned,
/// unresolvable, or unfillable. It still compiles as `todo!()`, so it needs no
/// answer, but the compile gate has to see it in place.
///
/// Carrying the original text is what lets a retry rebuild the file without
/// reading it back. In `--in-place` mode the file on disk may already hold an
/// answer, and re-reading it would splice a second answer over the first.
#[derive(Debug)]
pub struct FileWork {
    pub file: String,
    pub original: String,
    pub answers: Vec<(Hole, Option<String>)>,
}

/// A file's work as plain text and numbers.
#[verifier::ext_equal]
pub struct WorkView {
    pub file: Seq<char>,
    pub original: Seq<char>,
    pub answers: Seq<(HoleView, Option<Seq<char>>)>,
}

/// Answers as plain text and numbers.
pub open spec fn answer_views(answers: Seq<(Hole, Option<String>)>) -> Seq<
    (HoleView, Option<Seq<char>>),
> {
    Seq::new(answers.len(), |i: int| (answers[i].0@, opt_view(answers[i].1)))
}

impl View for FileWork {
    type V = WorkView;

    open spec fn view(&self) -> WorkView {
        WorkView {
            file: self.file@,
            original: self.original@,
            answers: answer_views(self.answers@),
        }
    }
}

/// Whether borrowed pairs are these answers.
pub open spec fn same_answers(
    pairs: Seq<(&Hole, Option<&str>)>,
    answers: Seq<(HoleView, Option<Seq<char>>)>,
) -> bool {
    &&& pairs.len() == answers.len()
    &&& forall|i: int|
        0 <= i < pairs.len() ==> (#[trigger] pairs[i]).0@ == answers[i].0 && opt_str_view(
            pairs[i].1,
        ) == answers[i].1
}

/// The answers, borrowed in some way. It does not matter in which; see
/// [`lemma_patch_text_is_determined`].
pub open spec fn borrowed<'a>(answers: Seq<(HoleView, Option<Seq<char>>)>) -> Seq<
    (&'a Hole, Option<&'a str>),
> {
    choose|pairs: Seq<(&'a Hole, Option<&'a str>)>| same_answers(pairs, answers)
}

/// Why a file's answers cannot be put over their holes, if they cannot.
pub open spec fn assembly_error(w: WorkView) -> Option<Seq<char>> {
    match answers_error(w.original, borrowed(w.answers)) {
        Some(e) => Some("cannot assemble "@ + w.file + ": "@ + e),
        None => None,
    }
}

/// The bytes of a file with its answers over their holes.
pub open spec fn assembled(w: WorkView) -> Seq<u8> {
    spliced(encode_utf8(w.original), left_to_right(answer_edits(borrowed(w.answers))))
}

/// Whether a patch is what the answers come to, spliced over their holes, with
/// one region for each answer.
pub open spec fn is_patch_for(p: Patch, w: WorkView) -> bool {
    &&& p.file@ == w.file
    &&& encode_utf8(p.checked@) == assembled(w)
    &&& exists|pairs: Seq<(&Hole, Option<&str>)>|
        #![trigger answer_edits(pairs)]
        same_answers(pairs, w.answers) && is_spliced(p, w.original, pairs)
}

/// What the answers come to depends on the holes and the texts alone: however
/// they are borrowed, they splice to the same text, or fail with the same error.
pub proof fn lemma_patch_text_is_determined(
    original: Seq<char>,
    answers: Seq<(HoleView, Option<Seq<char>>)>,
    a: Seq<(&Hole, Option<&str>)>,
    b: Seq<(&Hole, Option<&str>)>,
)
    requires
        same_answers(a, answers),
        same_answers(b, answers),
        answers.len() <= usize::MAX,
    ensures
        answers_error(original, a) == answers_error(original, b),
        answers_error(original, a) is None ==> spliced(
            encode_utf8(original),
            left_to_right(answer_edits(a)),
        ) == spliced(encode_utf8(original), left_to_right(answer_edits(b))),
{
    let n = answers.len() as int;
    lemma_filled_agree(answers, a, b, n);
    let at = filled(a, n);
    lemma_filled(a, n);
    lemma_filled(b, n);
    lemma_answer_errors_agree(original, answers, a, b, at, 0);
    let x = answer_edits(a);
    let y = answer_edits(b);
    assert(alike(x, y)) by {
        assert forall|k: int| 0 <= k < x.len() implies (#[trigger] x[k]).byte_start == y[k].byte_start
            && x[k].byte_end == y[k].byte_end && inserted(x[k]) == inserted(y[k]) by {
            assert(a[at[k]].0@ == answers[at[k]].0);
            assert(b[at[k]].0@ == answers[at[k]].0);
            assert(opt_str_view(a[at[k]].1) == opt_str_view(b[at[k]].1));
        }
    }
    lemma_alike_edits_splice_alike(encode_utf8(original), x, y);
}

proof fn lemma_filled_agree(
    answers: Seq<(HoleView, Option<Seq<char>>)>,
    a: Seq<(&Hole, Option<&str>)>,
    b: Seq<(&Hole, Option<&str>)>,
    n: int,
)
    requires
        same_answers(a, answers),
        same_answers(b, answers),
        0 <= n <= answers.len(),
    ensures
        filled(a, n) == filled(b, n),
    decreases n,
{
    if n > 0 {
        lemma_filled_agree(answers, a, b, n - 1);
        assert(opt_str_view(a[n - 1].1) == answers[n - 1].1);
        assert(opt_str_view(b[n - 1].1) == answers[n - 1].1);
    }
}

proof fn lemma_answer_errors_agree(
    original: Seq<char>,
    answers: Seq<(HoleView, Option<Seq<char>>)>,
    a: Seq<(&Hole, Option<&str>)>,
    b: Seq<(&Hole, Option<&str>)>,
    at: Seq<int>,
    k: int,
)
    requires
        same_answers(a, answers),
        same_answers(b, answers),
        0 <= k,
        forall|j: int| 0 <= j < at.len() ==> 0 <= #[trigger] at[j] < answers.len(),
    ensures
        first_answer_error(original, a, at, k) == first_answer_error(original, b, at, k),
    decreases at.len() - k,
{
    if k < at.len() {
        assert(a[at[k]].0@ == answers[at[k]].0);
        assert(b[at[k]].0@ == answers[at[k]].0);
        lemma_answer_errors_agree(original, answers, a, b, at, k + 1);
    }
}

impl FileWork {
    /// The work on a file, before any hole of it is looked at.
    pub fn new(file: String, original: String) -> (r: FileWork)
        ensures
            r.file == file,
            r.original == original,
            r.answers@.len() == 0,
    {
        FileWork { file, original, answers: Vec::new() }
    }

    /// The patch for the current answers, rebuilt from the untouched original.
    ///
    /// The text and the regions come out of the same splice -- an answer of a
    /// different length than the `todo!(...)` it replaced moves every hole after
    /// it, so regions computed separately would blame the wrong hole.
    pub fn patch(&self) -> (r: Result<Patch, String>)
        ensures
            match r {
                Ok(p) => assembly_error(self@) is None && is_patch_for(p, self@),
                Err(m) => assembly_error(self@) == Some(m@),
            },
    {
        let n: usize = self.answers.len();
        let mut pairs: Vec<(&Hole, Option<&str>)> = Vec::new();
        let mut i: usize = 0;
        while i < n
            invariant
                i <= n,
                n == self.answers@.len(),
                pairs@.len() == i,
                forall|j: int|
                    0 <= j < i ==> (#[trigger] pairs@[j]).0@ == self@.answers[j].0 && opt_str_view(
                        pairs@[j].1,
                    ) == self@.answers[j].1,
            decreases n - i,
        {
            let a = &self.answers[i];
            let code: Option<&str> = match &a.1 {
                Some(c) => Some(c.as_str()),
                None => None,
            };
            pairs.push((&a.0, code));
            i = i + 1;
        }
        proof {
            assert(same_answers(pairs@, self@.answers));
            lemma_patch_text_is_determined(
                self.original@,
                self@.answers,
                pairs@,
                borrowed(self@.answers),
            );
        }
        match Patch::splice(self.file.clone(), self.original.as_str(), &pairs) {
            Ok(p) => {
                proof {
                    let e = answer_edits(pairs@);
                }
                Ok(p)
            },
            Err(e) => {
                let mut m = owned("cannot assemble ");
                m.push_str(self.file.as_str());
                m.push_str(": ");
                m.push_str(e.as_str());
                Err(m)
            },
        }
    }

    /// The text that should end up on disk, if the compile gate accepts it.
    pub fn checked(&self) -> (r: Result<String, String>)
        ensures
            match r {
                Ok(text) => assembly_error(self@) is None && encode_utf8(text@) == assembled(self@),
                Err(m) => assembly_error(self@) == Some(m@),
            },
    {
        match self.patch() {
            Ok(p) => Ok(p.checked),
            Err(m) => Err(m),
        }
    }
}

/// A hole without an answer keeps its text: in what goes to the compile gate and
/// into the file, it stands as it was, wherever the answers before it moved it to.
pub proof fn lemma_unanswered_hole_keeps_its_text(p: Patch, w: WorkView, i: int)
    requires
        is_patch_for(p, w),
        assembly_error(w) is None,
        w.answers.len() <= usize::MAX,
        0 <= i < w.answers.len(),
        w.answers[i].1 is None,
        w.answers[i].0.byte_start <= w.answers[i].0.byte_end <= encode_utf8(w.original).len(),
        forall|j: int|
            0 <= j < w.answers.len() && (#[trigger] w.answers[j]).1 is Some
                ==> w.answers[j].0.byte_end <= w.answers[i].0.byte_start
                || w.answers[i].0.byte_end <= w.answers[j].0.byte_start,
    ensures
        exists|at: int|
            stands_in(
                assembled(w),
                encode_utf8(w.original).subrange(
                    w.answers[i].0.byte_start as int,
                    w.answers[i].0.byte_end as int,
                ),
                at,
            ),
{
    let pairs = borrowed(w.answers);
    assert(same_answers(pairs, w.answers));
    let src = encode_utf8(w.original);
    let edits = answer_edits(pairs);
    let at = filled(pairs, pairs.len() as int);
    let sorted = left_to_right(edits);
    let (from, to) = (w.answers[i].0.byte_start as int, w.answers[i].0.byte_end as int);
    lemma_filled(pairs, pairs.len() as int);
    lemma_accepted_edits_are_disjoint(src, edits);
    lemma_order_is_stable(edit_keys(edits), edits.len() as int);
    assert forall|k: int| 0 <= k < sorted.len() implies (#[trigger] sorted[k]).byte_end <= from || to
        <= sorted[k].byte_start by {
        let e = order_of(edit_keys(edits))[k] as int;
        assert(e < edits.len());
        assert(sorted[k] == edits[e]);
        let j = at[e];
        assert(pairs[j].0@ == w.answers[j].0);
        assert(opt_str_view(pairs[j].1) == w.answers[j].1);
        assert(w.answers[j].1 is Some);
    }
    lemma_untouched_text_is_kept(src, sorted, from, to);
}

/// The text that a file is written with is the one that was checked.
pub proof fn lemma_written_is_checked(p: Patch, w: WorkView, text: Seq<char>)
    requires
        is_patch_for(p, w),
        encode_utf8(text) == assembled(w),
    ensures
        text == p.checked@,
{
    encode_utf8_decode_utf8(text);
    encode_utf8_decode_utf8(p.checked@);
}

// ---------------------------------------------------------------------------
// One hole
// ---------------------------------------------------------------------------

/// How to come by an answer for a hole.
#[derive(Debug)]
pub enum HolePlan {
    /// Leave it unelaborated.
    Skip,
    /// Replay the recorded answer.
    Replay(String),
    /// Ask for one.
    Ask,
}

/// A plan as plain text.
pub enum PlanView {
    Skip,
    Replay(Seq<char>),
    Ask,
}

impl View for HolePlan {
    type V = PlanView;

    open spec fn view(&self) -> PlanView {
        match *self {
            HolePlan::Skip => PlanView::Skip,
            HolePlan::Replay(code) => PlanView::Replay(code@),
            HolePlan::Ask => PlanView::Ask,
        }
    }
}

/// How an answer for a hole is come by.
pub open spec fn planned(h: HoleView, recorded: Map<Seq<char>, Seq<char>>) -> PlanView {
    if !is_fillable(h) {
        PlanView::Skip
    } else if recorded.contains_key(hash_key_of(h)) {
        PlanView::Replay(recorded[hash_key_of(h)])
    } else {
        PlanView::Ask
    }
}

/// How to come by an answer for a hole, given the recorded ones.
///
/// Pinned and unresolvable holes never consult the ledger. A pin says the
/// hand-written body is the authority, so replaying a recorded answer would
/// silently route around the pin; and an unresolvable hole must not be patched
/// at all.
pub fn plan_hole(hole: &Hole, storage: &Storage) -> (r: HolePlan)
    ensures
        r@ == planned(hole@, storage.cache().answers()),
{
    if hole.pinned || hole.unresolvable.is_some() {
        return HolePlan::Skip;
    }
    let key = hole.hash_key();
    match storage.get(key.as_str()) {
        Some(code) => HolePlan::Replay(owned(code)),
        None => HolePlan::Ask,
    }
}

/// What became of a hole.
#[derive(Debug)]
pub enum HoleResult {
    Skipped,
    Cached(String),
    /// The model answered, after so many calls.
    Filled { code: String, calls: u32 },
    /// The model could not answer.
    Failed,
}

/// What became of a hole, as plain text and numbers.
pub enum ResultView {
    Skipped,
    Cached(Seq<char>),
    Filled { code: Seq<char>, calls: u32 },
    Failed,
}

impl View for HoleResult {
    type V = ResultView;

    open spec fn view(&self) -> ResultView {
        match *self {
            HoleResult::Skipped => ResultView::Skipped,
            HoleResult::Cached(code) => ResultView::Cached(code@),
            HoleResult::Filled { code, calls } => ResultView::Filled { code: code@, calls },
            HoleResult::Failed => ResultView::Failed,
        }
    }
}

/// The answer a result comes to.
pub open spec fn answer_of(result: ResultView) -> Option<Seq<char>> {
    match result {
        ResultView::Cached(code) => Some(code),
        ResultView::Filled { code, .. } => Some(code),
        _ => None,
    }
}

// ---------------------------------------------------------------------------
// Blame
// ---------------------------------------------------------------------------

/// The errors of a rejection by the key of the hole they belong to.
#[derive(Debug)]
pub struct Blame {
    pub entries: Vec<(String, Vec<String>)>,
}

/// Blame as plain text.
pub open spec fn blame_views(entries: Seq<(String, Vec<String>)>) -> Seq<
    (Seq<char>, Seq<Seq<char>>),
> {
    Seq::new(entries.len(), |i: int| (entries[i].0@, views(entries[i].1@)))
}

/// Blame with one more error for a key.
pub open spec fn with_error(
    blame: Seq<(Seq<char>, Seq<Seq<char>>)>,
    key: Seq<char>,
    message: Seq<char>,
) -> Seq<(Seq<char>, Seq<Seq<char>>)>
    decreases blame.len(),
{
    if blame.len() == 0 {
        seq![(key, seq![message])]
    } else if blame.last().0 == key {
        blame.drop_last().push((key, blame.last().1.push(message)))
    } else {
        with_error(blame.drop_last(), key, message).push(blame.last())
    }
}

/// The errors of some failures by key.
pub open spec fn blame_of(failures: Seq<FailureView>) -> Seq<(Seq<char>, Seq<Seq<char>>)>
    decreases failures.len(),
{
    if failures.len() == 0 {
        seq![]
    } else {
        let front = blame_of(failures.drop_last());
        match failures.last().hole {
            Some(h) => with_error(front, hash_key_of(h), failures.last().message),
            None => front,
        }
    }
}

/// The errors blamed on a key.
pub open spec fn errors_for(
    blame: Seq<(Seq<char>, Seq<Seq<char>>)>,
    key: Seq<char>,
) -> Option<Seq<Seq<char>>>
    decreases blame.len(),
{
    if blame.len() == 0 {
        None
    } else if blame.last().0 == key {
        Some(blame.last().1)
    } else {
        errors_for(blame.drop_last(), key)
    }
}

impl Blame {
    /// The errors by key.
    pub open spec fn view_all(self) -> Seq<(Seq<char>, Seq<Seq<char>>)> {
        blame_views(self.entries@)
    }

    fn add_error(&mut self, key: &str, message: &str)
        ensures
            final(self).view_all() == with_error(old(self).view_all(), key@, message@),
    {
        let ghost before = self.view_all();
        let ghost target = with_error(before, key@, message@);
        let n: usize = self.entries.len();
        let mut at: usize = n;
        proof {
            assert(before.take(at as int) =~= before);
            assert(target + before.skip(at as int) =~= target);
        }
        while at > 0 && !same(self.entries[at - 1].0.as_str(), key)
            invariant
                at <= n,
                n == self.entries@.len(),
                *self == *old(self),
                before == self.view_all(),
                target == with_error(before.take(at as int), key@, message@) + before.skip(
                    at as int,
                ),
            decreases at,
        {
            proof {
                let t = before.take(at as int);
                assert(t.drop_last() =~= before.take(at - 1));
                assert(t.last() == before[at - 1]);
                assert(with_error(t.drop_last(), key@, message@).push(t.last()) + before.skip(
                    at as int,
                ) =~= with_error(before.take(at - 1), key@, message@) + before.skip(at - 1));
            }
            at = at - 1;
        }
        if at > 0 {
            let ghost t = before.take(at as int);
            let mut entry = self.entries.remove(at - 1);
            let ghost errors = views(entry.1@);
            let m = owned(message);
            proof {
                assert(t.last() == before[at - 1]);
                assert(views(entry.1@.push(m)) =~= errors.push(m@));
            }
            entry.1.push(m);
            self.entries.insert(at - 1, entry);
            proof {
                assert(self.view_all() =~= t.drop_last().push((key@, errors.push(message@)))
                    + before.skip(at as int));
            }
        } else {
            let mut errors: Vec<String> = Vec::new();
            errors.push(owned(message));
            proof {
                assert(views(errors@) =~= seq![message@]);
                assert(before.take(0) =~= Seq::<(Seq<char>, Seq<Seq<char>>)>::empty());
                assert(with_error(before.take(0), key@, message@) =~= seq![
                    (key@, seq![message@]),
                ]);
            }
            self.entries.insert(0, (owned(key), errors));
            proof {
                assert(self.view_all() =~= seq![(key@, seq![message@])] + before.skip(0));
            }
        }
    }

    /// Which holes a verdict blames, with the errors of each, keyed by ledger key
    /// -- the key that pending answers have, so a rejected answer can be dropped
    /// directly and identity is decided in one place.
    pub fn of(verdict: &Verdict) -> (r: Blame)
        ensures
            r.view_all() == blame_of(verdict_failures(verdict@, true)),
    {
        let picked = verdict.attributable();
        let ghost all = verdict_failures(verdict@, true);
        let mut blame = Blame { entries: Vec::new() };
        let mut i: usize = 0;
        proof {
            assert(all.len() == picked@.len());
            assert(all.take(0) =~= Seq::<FailureView>::empty());
            assert(blame.view_all() =~= Seq::<(Seq<char>, Seq<Seq<char>>)>::empty());
        }
        while i < picked.len()
            invariant
                i <= picked@.len(),
                all == failure_refs(picked@),
                all.len() == picked@.len(),
                blame.view_all() == blame_of(all.take(i as int)),
            decreases picked.len() - i,
        {
            let f = picked[i];
            proof {
                assert(all[i as int] == f@);
                assert(all.take(i + 1).drop_last() =~= all.take(i as int));
                assert(all.take(i + 1).last() == f@);
            }
            if let Some(hole) = &f.hole {
                let key = hole.hash_key();
                blame.add_error(key.as_str(), f.message.as_str());
            }
            i = i + 1;
        }
        proof {
            assert(all.take(picked@.len() as int) =~= all);
        }
        blame
    }

    /// The errors blamed on a key.
    pub fn errors(&self, key: &str) -> (r: Option<&Vec<String>>)
        ensures
            match r {
                Some(v) => errors_for(self.view_all(), key@) == Some(views(v@)),
                None => errors_for(self.view_all(), key@) is None,
            },
    {
        let mut n: usize = self.entries.len();
        let ghost all = self.view_all();
        proof {
            assert(all.take(n as int) =~= all);
        }
        while n > 0
            invariant
                n <= self.entries@.len(),
                all == self.view_all(),
                errors_for(all, key@) == errors_for(all.take(n as int), key@),
            decreases n,
        {
            proof {
                let t = all.take(n as int);
                assert(t.drop_last() =~= all.take(n - 1));
                assert(t.last() == all[n - 1]);
            }
            if same(self.entries[n - 1].0.as_str(), key) {
                return Some(&self.entries[n - 1].1);
            }
            n = n - 1;
        }
        None
    }
}

/// No more keys are blamed than there are failures.
pub proof fn lemma_blame_count(failures: Seq<FailureView>)
    ensures
        blame_of(failures).len() <= failures.len(),
    decreases failures.len(),
{
    if failures.len() > 0 {
        lemma_blame_count(failures.drop_last());
        if let Some(h) = failures.last().hole {
            lemma_with_error_count(
                blame_of(failures.drop_last()),
                hash_key_of(h),
                failures.last().message,
            );
        }
    }
}

proof fn lemma_with_error_count(
    blame: Seq<(Seq<char>, Seq<Seq<char>>)>,
    key: Seq<char>,
    message: Seq<char>,
)
    ensures
        with_error(blame, key, message).len() <= blame.len() + 1,
    decreases blame.len(),
{
    if blame.len() > 0 {
        lemma_with_error_count(blame.drop_last(), key, message);
    }
}

/// A key is blamed exactly when some failure of its hole is.
pub proof fn lemma_blamed_keys(failures: Seq<FailureView>, key: Seq<char>)
    ensures
        errors_for(blame_of(failures), key) is Some <==> exists|i: int|
            0 <= i < failures.len() && (#[trigger] failures[i]).hole is Some && hash_key_of(
                failures[i].hole->0,
            ) == key,
    decreases failures.len(),
{
    if failures.len() > 0 {
        let front = failures.drop_last();
        lemma_blamed_keys(front, key);
        let last = failures.last();
        if let Some(h) = last.hole {
            lemma_with_error(blame_of(front), hash_key_of(h), last.message, key);
        }
        if exists|i: int|
            0 <= i < front.len() && (#[trigger] front[i]).hole is Some && hash_key_of(
                front[i].hole->0,
            ) == key {
            let i = choose|i: int|
                0 <= i < front.len() && (#[trigger] front[i]).hole is Some && hash_key_of(
                    front[i].hole->0,
                ) == key;
            assert(failures[i] == front[i]);
        }
        if exists|i: int|
            0 <= i < failures.len() && (#[trigger] failures[i]).hole is Some && hash_key_of(
                failures[i].hole->0,
            ) == key {
            let i = choose|i: int|
                0 <= i < failures.len() && (#[trigger] failures[i]).hole is Some && hash_key_of(
                    failures[i].hole->0,
                ) == key;
            if i < front.len() {
                assert(front[i] == failures[i]);
            }
        }
        assert(failures[failures.len() - 1] == last);
    }
}

proof fn lemma_with_error(
    blame: Seq<(Seq<char>, Seq<Seq<char>>)>,
    key: Seq<char>,
    message: Seq<char>,
    other: Seq<char>,
)
    ensures
        errors_for(with_error(blame, key, message), other) is Some <==> errors_for(blame, other)
            is Some || other == key,
    decreases blame.len(),
{
    let r = with_error(blame, key, message);
    if blame.len() == 0 {
        assert(r.drop_last() =~= Seq::<(Seq<char>, Seq<Seq<char>>)>::empty());
        reveal_with_fuel(errors_for, 2);
    } else if blame.last().0 == key {
        assert(r.drop_last() =~= blame.drop_last());
    } else {
        lemma_with_error(blame.drop_last(), key, message, other);
        assert(r.drop_last() =~= with_error(blame.drop_last(), key, message));
    }
}

} // verus!
