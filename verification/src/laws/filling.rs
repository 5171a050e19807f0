//! What is asked of a model, and what becomes of its answers.
use vstd::prelude::*;

use crate::cmdline::{asked_for, fillable, forwarded_arguments, separator, split_arguments};
use crate::fill::{
    blame_of, errors_for, planned, with_error, PlanView, ResultView, WorkView,
};
use crate::fill_run::{
    answered, asks_in, counted, is_bounded, lemma_asks_are_blamed, reanswered, run_summary,
    unblamed, RunView,
};
use crate::fill_steps::{gated, ActionView, TaskView};
use crate::filler::{
    after_reply, bullets, compile_feedback, expression_in, prompt_text, reply_error, AskView,
};
use crate::gate::{failures_where, verdict_failures, FailureView, VerdictView};
use crate::hole::{hash_key_of, location_of, position_name, HoleView};
use crate::laws::listing::all_of;
use crate::path::file_name_of;
use crate::prober::OutcomeView;
use crate::text::decimal_of;
use crate::util::shown_path;

verus! {

// ---------------------------------------------------------------------------
// Asking
// ---------------------------------------------------------------------------

/// What the prompt says about the type a hole should have.
pub open spec fn type_line(expected: Option<OutcomeView>) -> Seq<char> {
    match expected {
        Some(OutcomeView::Known(ty)) => "Expected type: "@ + ty + "\n"@,
        Some(OutcomeView::NoExpectation) =>
            "Expected type: none discovered -- infer it from the specification\n"@,
        _ => seq![],
    }
}

/// The prompt says where the hole is, what is expected of it and, whole, what it is to do;
/// what went wrong before comes last.
pub proof fn lemma_prompt_carries_the_hole(
    root: Seq<char>,
    h: HoleView,
    expected: Option<OutcomeView>,
    feedback: Option<Seq<char>>,
)
    ensures
        ({
            let place = "File: "@ + shown_path(root, h.file) + "\nLine: "@ + decimal_of(
                h.line as nat,
            ) + "\nPosition: "@ + position_name(h.position) + "\n"@;
            let task = "\nSpecification:\n"@ + h.spec
                + "\n\nImplement just this one hole. Reply with one expression between <<<HOLE>>> and <<<END>>>."@;
            let complaint = match feedback {
                Some(fb) => "\n\n"@ + fb,
                None => seq![],
            };
            prompt_text(root, h, expected, feedback) == place + type_line(expected) + task
                + complaint
        }),
{
    reveal_strlit("");
    reveal_strlit("\n");
    reveal_strlit("Expected type: ");
    reveal_strlit("none discovered -- infer it from the specification");
    reveal_strlit("Expected type: none discovered -- infer it from the specification\n");
    assert("Expected type: none discovered -- infer it from the specification\n"@
        =~= "Expected type: "@ + "none discovered -- infer it from the specification"@ + "\n"@);
    reveal_strlit("\n\nImplement just this one hole. Reply with one expression between ");
    reveal_strlit("<<<HOLE>>>");
    reveal_strlit(" and ");
    reveal_strlit("<<<END>>>");
    reveal_strlit(".");
    reveal_strlit(
        "\n\nImplement just this one hole. Reply with one expression between <<<HOLE>>> and <<<END>>>.",
    );
    let tail =
        "\n\nImplement just this one hole. Reply with one expression between <<<HOLE>>> and <<<END>>>."@;
    assert(tail =~= "\n\nImplement just this one hole. Reply with one expression between "@
        + "<<<HOLE>>>"@ + " and "@ + "<<<END>>>"@ + "."@);
    let place = "File: "@ + shown_path(root, h.file) + "\nLine: "@ + decimal_of(h.line as nat)
        + "\nPosition: "@ + position_name(h.position) + "\n"@;
    let task = "\nSpecification:\n"@ + h.spec + tail;
    let complaint = match feedback {
        Some(fb) => "\n\n"@ + fb,
        None => seq![],
    };
    assert(prompt_text(root, h, expected, feedback) =~= place + type_line(expected) + task
        + complaint);
}

/// What is said after an answer that did not compile: the first eight errors, each on a line
/// of its own and in order, and how many more there are.
pub proof fn lemma_feedback_quotes_the_errors(errors: Seq<Seq<char>>)
    ensures
        ({
            let shown = if errors.len() <= 8 {
                errors
            } else {
                errors.take(8)
            };
            let lines = Seq::new(shown.len(), |i: int| "  - "@ + shown[i] + "\n"@);
            let more = if errors.len() <= 8 {
                seq![]
            } else {
                "  (and "@ + decimal_of((errors.len() - 8) as nat) + " more error(s))\n"@
            };
            compile_feedback(errors)
                == "Your previous answer compiled with errors. Fix it. The compiler reported:\n"@
                + all_of(lines) + more
        }),
{
    reveal_strlit("");
    let shown = if errors.len() <= 8 {
        errors
    } else {
        errors.take(8)
    };
    let lines = Seq::new(shown.len(), |i: int| "  - "@ + shown[i] + "\n"@);
    lemma_bullets(errors, shown, lines, shown.len() as int);
    assert(lines.take(shown.len() as int) =~= lines);
    if errors.len() <= 8 {
        assert(""@ =~= Seq::<char>::empty());
    }
}

proof fn lemma_bullets(
    errors: Seq<Seq<char>>,
    shown: Seq<Seq<char>>,
    lines: Seq<Seq<char>>,
    n: int,
)
    requires
        0 <= n <= shown.len() <= errors.len(),
        lines.len() == shown.len(),
        forall|i: int| 0 <= i < shown.len() ==> (#[trigger] shown[i]) == errors[i],
        forall|i: int| 0 <= i < shown.len() ==> (#[trigger] lines[i]) == "  - "@ + shown[i] + "\n"@,
    ensures
        bullets(errors, n) == all_of(lines.take(n)),
    decreases n,
{
    if n > 0 {
        lemma_bullets(errors, shown, lines, n - 1);
        assert(lines.take(n).drop_last() =~= lines.take(n - 1));
        assert(lines.take(n).last() == lines[n - 1]);
        let a = bullets(errors, n - 1);
        assert(a + "  - "@ + errors[n - 1] + "\n"@ =~= a + ("  - "@ + errors[n - 1] + "\n"@));
    } else {
        assert(lines.take(0) =~= Seq::<Seq<char>>::empty());
    }
}

/// A reply with an expression in it ends the asking; any other is answered with why it
/// cannot be used, until the attempts are used up, and then the hole is named.
pub proof fn lemma_asking_goes_on_until_answered(
    h: HoleView,
    attempt: u32,
    max_attempts: u32,
    reply: Result<Seq<char>, Seq<char>>,
)
    requires
        1 <= attempt <= max_attempts,
    ensures
        reply matches Ok(raw) ==> (reply_error(raw) is None ==> after_reply(
            h,
            attempt,
            max_attempts,
            reply,
        ) == (AskView::Answer { code: expression_in(raw), attempts: attempt })),
        ({
            let why = match reply {
                Ok(raw) => reply_error(raw),
                Err(e) => Some(e),
            };
            why matches Some(e) ==> match after_reply(h, attempt, max_attempts, reply) {
                AskView::Ask { attempt: next, feedback } => {
                    &&& attempt < max_attempts && next == attempt + 1
                    &&& feedback matches Some(fb) && mentions(fb, e)
                },
                AskView::GiveUp { message } => {
                    &&& attempt == max_attempts
                    &&& mentions(message, location_of(h))
                },
                AskView::Answer { .. } => false,
            }
        }),
{
    let r = after_reply(h, attempt, max_attempts, reply);
    let why = match reply {
        Ok(raw) => reply_error(raw),
        Err(e) => Some(e),
    };
    if let Some(e) = why {
        if attempt < max_attempts {
            let (a, b) = match reply {
                Err(_) => (
                    "Your previous reply could not be used: "@,
                    ". Reply with exactly one expression between <<<HOLE>>> and <<<END>>>."@,
                ),
                Ok(_) => (
                    "Your previous reply was rejected: "@,
                    " Reply with exactly one expression between <<<HOLE>>> and <<<END>>>, and nothing else."@,
                ),
            };
            assert(is_around(a + e + b, a, e, b));
        } else {
            let a = "could not fill "@;
            let b = " after "@ + decimal_of(max_attempts as nat) + " attempt(s)"@;
            let m = "could not fill "@ + location_of(h) + " after "@ + decimal_of(
                max_attempts as nat,
            ) + " attempt(s)"@;
            assert(m =~= a + location_of(h) + b);
            assert(is_around(m, a, location_of(h), b));
        }
    }
}

/// Whether a text is `what` with something before and after it.
pub open spec fn is_around(s: Seq<char>, a: Seq<char>, what: Seq<char>, b: Seq<char>) -> bool {
    s == a + what + b
}

/// Whether `what` stands somewhere in a text.
pub open spec fn mentions(s: Seq<char>, what: Seq<char>) -> bool {
    exists|a: Seq<char>, b: Seq<char>| #[trigger] is_around(s, a, what, b)
}

// ---------------------------------------------------------------------------
// Which holes
// ---------------------------------------------------------------------------

/// The holes that are asked for are those in a file of that name, all of them where no name
/// is given; those that can be filled are neither pinned nor unresolvable. Their order
/// stays.
pub proof fn lemma_holes_are_selected(holes: Seq<HoleView>, file: Option<Seq<char>>)
    ensures
        file is None ==> asked_for(holes, file) == holes,
        file matches Some(name) ==> asked_for(holes, file) == holes.filter(
            |h: HoleView| file_name_of(h.file) == Some(name),
        ),
        fillable(holes) == holes.filter(|h: HoleView| !h.pinned && h.unresolvable is None),
    decreases holes.len(),
{
    reveal(Seq::filter);
    if holes.len() > 0 {
        lemma_holes_are_selected(holes.drop_last(), file);
        if file is None {
            assert(holes.drop_last().push(holes.last()) =~= holes);
        }
    } else {
        assert(holes =~= Seq::<HoleView>::empty());
    }
}

/// A hole that may not be filled is skipped; one that the ledger has an answer for is given
/// that answer; any other is asked for.
pub proof fn lemma_answers_are_come_by(h: HoleView, recorded: Map<Seq<char>, Seq<char>>)
    ensures
        h.pinned || h.unresolvable is Some ==> planned(h, recorded) is Skip,
        !h.pinned && h.unresolvable is None ==> match planned(h, recorded) {
            PlanView::Replay(code) => recorded.contains_pair(hash_key_of(h), code),
            PlanView::Ask => !recorded.contains_key(hash_key_of(h)),
            PlanView::Skip => false,
        },
{
}

/// Each hole counts once, as what became of it.
pub proof fn lemma_each_hole_counts_once(r: RunView, h: HoleView, result: ResultView)
    ensures
        ({
            let after = counted(r, h, result);
            &&& after.filled == r.filled + if result is Filled {
                1int
            } else {
                0
            }
            &&& after.cached == r.cached + if result is Cached {
                1int
            } else {
                0
            }
            &&& after.rejected == r.rejected + if result is Failed {
                1int
            } else {
                0
            }
            &&& after.skipped == r.skipped + if result is Skipped {
                1int
            } else {
                0
            }
            &&& result matches ResultView::Filled { code, calls } ==> after.pending
                == r.pending.push((hash_key_of(h), code)) && after.model_calls == r.model_calls
                + calls
            &&& !(result is Filled) ==> after.pending == r.pending && after.model_calls
                == r.model_calls
            &&& after.work == r.work && after.rounds == r.rounds && after.retried == r.retried
        }),
{
}

/// The summary of a run gives each of its numbers.
pub proof fn lemma_summary_gives_the_numbers(r: RunView)
    ensures
        ({
            let first = "\n"@ + decimal_of(r.filled) + " filled, "@ + decimal_of(r.cached)
                + " cached, "@ + decimal_of(r.rejected) + " not filled, "@ + decimal_of(r.skipped)
                + " skipped ("@ + decimal_of(r.model_calls) + " model call(s))\n"@;
            let second = if r.retried > 0 {
                "re-asked for "@ + decimal_of(r.retried) + " answer(s) across "@ + decimal_of(
                    r.rounds,
                ) + " extra round(s) after the compile gate rejected them\n"@
            } else {
                seq![]
            };
            let third = if r.pending.len() > 0 {
                decimal_of(r.pending.len()) + " answer(s) recorded in the ledger\n"@
            } else {
                seq![]
            };
            run_summary(r) == first + second + third
        }),
{
    reveal_strlit("");
    assert(""@ =~= Seq::<char>::empty());
}

// ---------------------------------------------------------------------------
// After a rejection
// ---------------------------------------------------------------------------

/// Whether a failure is one of the hole with this key.
pub open spec fn is_failure_for(f: FailureView, key: Seq<char>) -> bool {
    f.hole matches Some(h) && hash_key_of(h) == key
}

/// What rustc said about the hole with this key, in order.
pub open spec fn complaints_about(failures: Seq<FailureView>, key: Seq<char>) -> Seq<Seq<char>> {
    failures.filter(|f: FailureView| is_failure_for(f, key)).map_values(
        |f: FailureView| f.message,
    )
}

proof fn lemma_with_error(
    blame: Seq<(Seq<char>, Seq<Seq<char>>)>,
    key: Seq<char>,
    message: Seq<char>,
    other: Seq<char>,
)
    ensures
        errors_for(with_error(blame, key, message), other) == if other == key {
            match errors_for(blame, key) {
                Some(errors) => Some(errors.push(message)),
                None => Some(seq![message]),
            }
        } else {
            errors_for(blame, other)
        },
    decreases blame.len(),
{
    let after = with_error(blame, key, message);
    if blame.len() == 0 {
        assert(after.drop_last() =~= blame);
    } else if blame.last().0 == key {
        assert(after.drop_last() =~= blame.drop_last());
    } else {
        lemma_with_error(blame.drop_last(), key, message, other);
        assert(after.drop_last() =~= with_error(blame.drop_last(), key, message));
    }
}

/// Every error of a hole's answer is blamed on it, in order, and no other is; a hole without
/// errors is not blamed.
pub proof fn lemma_blame_keeps_every_error(failures: Seq<FailureView>, key: Seq<char>)
    ensures
        errors_for(blame_of(failures), key) == if complaints_about(failures, key).len() == 0 {
            None
        } else {
            Some(complaints_about(failures, key))
        },
    decreases failures.len(),
{
    reveal(Seq::filter);
    let pred = |f: FailureView| is_failure_for(f, key);
    let text = |f: FailureView| f.message;
    if failures.len() > 0 {
        let front = failures.drop_last();
        let last = failures.last();
        lemma_blame_keeps_every_error(front, key);
        let a = front.filter(pred);
        if let Some(h) = last.hole {
            lemma_with_error(blame_of(front), hash_key_of(h), last.message, key);
        }
        if pred(last) {
            assert(failures.filter(pred) =~= a.push(last));
            assert(complaints_about(failures, key) =~= complaints_about(front, key).push(
                last.message,
            ));
            if a.len() == 0 {
                assert(complaints_about(front, key) =~= Seq::<Seq<char>>::empty());
                assert(complaints_about(failures, key) =~= seq![last.message]);
            }
        } else {
            assert(failures.filter(pred) =~= a);
        }
    } else {
        assert(complaints_about(failures, key) =~= Seq::<Seq<char>>::empty());
    }
}

/// The failures of generated answers are those with a hole, the others those without.
pub proof fn lemma_failures_are_told_apart(failures: Seq<FailureView>)
    ensures
        failures_where(failures, true) == failures.filter(|f: FailureView| f.hole is Some),
        failures_where(failures, false) == failures.filter(|f: FailureView| f.hole is None),
    decreases failures.len(),
{
    reveal(Seq::filter);
    if failures.len() > 0 {
        lemma_failures_are_told_apart(failures.drop_last());
    }
}

proof fn lemma_ours_keep_complaints(failures: Seq<FailureView>, key: Seq<char>)
    ensures
        complaints_about(failures_where(failures, true), key) == complaints_about(failures, key),
    decreases failures.len(),
{
    reveal(Seq::filter);
    let pred = |f: FailureView| is_failure_for(f, key);
    if failures.len() > 0 {
        let front = failures.drop_last();
        lemma_ours_keep_complaints(front, key);
        let ours = failures_where(front, true);
        let last = failures.last();
        if last.hole is Some {
            let more = ours.push(last);
            assert(more.drop_last() =~= ours);
            if pred(last) {
                assert(complaints_about(more, key) =~= complaints_about(ours, key).push(
                    last.message,
                ));
                assert(complaints_about(failures, key) =~= complaints_about(front, key).push(
                    last.message,
                ));
            } else {
                assert(complaints_about(more, key) =~= complaints_about(ours, key));
                assert(complaints_about(failures, key) =~= complaints_about(front, key));
            }
        } else {
            assert(complaints_about(failures, key) =~= complaints_about(front, key));
        }
    }
}

/// When answers are at fault, the first that is asked for again is one that was blamed, for a
/// hole that may be filled, and all that rustc said about it is quoted.
pub proof fn lemma_rejected_answer_is_asked_for_again(
    t: TaskView,
    run: RunView,
    failures: Seq<FailureView>,
)
    requires
        run.rounds < 2,
        is_bounded(run.work),
    ensures
        gated(t, run, VerdictView::Rejected { failures }).action matches ActionView::Reask {
            hole,
            errors,
        } ==> {
            &&& errors == complaints_about(failures, hash_key_of(hole))
            &&& errors.len() > 0
            &&& !hole.pinned && hole.unresolvable is None
        },
{
    let v = VerdictView::Rejected { failures };
    let ours = verdict_failures(v, true);
    let blamed = blame_of(ours);
    let asks = asks_in(run.work, blamed, run.work.len() as int);
    lemma_asks_are_blamed(run.work, blamed, run.work.len() as int);
    let r = gated(t, run, v);
    if let ActionView::Reask { hole, errors } = r.action {
        let p = asks[0];
        lemma_blame_keeps_every_error(ours, hash_key_of(hole));
        lemma_ours_keep_complaints(failures, hash_key_of(hole));
    }
}

/// Of the answers waiting to be recorded, those that were blamed are dropped and the others
/// stay, in order.
pub proof fn lemma_blamed_answers_are_dropped(
    pending: Seq<(Seq<char>, Seq<char>)>,
    failures: Seq<FailureView>,
)
    ensures
        unblamed(pending, blame_of(failures)) == pending.filter(
            |e: (Seq<char>, Seq<char>)| complaints_about(failures, e.0).len() == 0,
        ),
    decreases pending.len(),
{
    reveal(Seq::filter);
    if pending.len() > 0 {
        lemma_blamed_answers_are_dropped(pending.drop_last(), failures);
        lemma_blame_keeps_every_error(failures, pending.last().0);
    }
}

/// A new answer takes the place of the old one, and nothing else in the tree changes; where
/// none came, the hole is left open.
pub proof fn lemma_new_answer_replaces_the_old(
    r: RunView,
    file: int,
    at: int,
    result: Result<(Seq<char>, u32), Seq<char>>,
    f: int,
    a: int,
)
    requires
        0 <= file < r.work.len(),
        0 <= at < r.work[file].answers.len(),
        0 <= f < r.work.len(),
        0 <= a < r.work[f].answers.len(),
    ensures
        ({
            let after = reanswered(r, file, at, result);
            let hole = r.work[file].answers[at].0;
            &&& after.work.len() == r.work.len()
            &&& after.work[f].file == r.work[f].file && after.work[f].original
                == r.work[f].original
            &&& after.work[f].answers.len() == r.work[f].answers.len()
            &&& after.work[f].answers[a].0 == r.work[f].answers[a].0
            &&& after.work[f].answers[a].1 == if f == file && a == at {
                match result {
                    Ok((code, _)) => Some(code),
                    Err(_) => None,
                }
            } else {
                r.work[f].answers[a].1
            }
            &&& after.pending == match result {
                Ok((code, _)) => r.pending.push((hash_key_of(hole), code)),
                Err(_) => r.pending,
            }
        }),
{
}

// ---------------------------------------------------------------------------
// Arguments
// ---------------------------------------------------------------------------

/// Whether no argument is a separator.
pub open spec fn has_no_separator(args: Seq<Seq<char>>) -> bool {
    forall|i: int| 0 <= i < args.len() ==> (#[trigger] args[i]) != "--"@
}

proof fn lemma_separator_is_first(args: Seq<Seq<char>>, i: int, k: int)
    requires
        0 <= i <= k <= args.len(),
        forall|j: int| 0 <= j < k ==> (#[trigger] args[j]) != "--"@,
        k < args.len() ==> args[k] == "--"@,
    ensures
        separator(args, i) == if k < args.len() {
            Some(k)
        } else {
            None
        },
    decreases k - i,
{
    if i < k {
        assert(args[i] != "--"@);
        lemma_separator_is_first(args, i + 1, k);
    }
}

/// What stands before the first `--` is cargo's, what stands after it is the program's; each
/// keeps its order, and cargo is handed both with one `--` between them, where the program
/// has any.
pub proof fn lemma_arguments_go_where_they_belong(
    cargo: Seq<Seq<char>>,
    program: Seq<Seq<char>>,
    more: Seq<Seq<char>>,
)
    requires
        has_no_separator(cargo),
    ensures
        split_arguments(cargo + seq!["--"@] + program, more) == (cargo, program + more),
        split_arguments(cargo, more) == (cargo, more),
        forwarded_arguments(cargo, program) == if program.len() == 0 {
            cargo
        } else {
            cargo + seq!["--"@] + program
        },
{
    let all = cargo + seq!["--"@] + program;
    let n = cargo.len() as int;
    assert forall|j: int| 0 <= j < n implies (#[trigger] all[j]) != "--"@ by {
        assert(all[j] == cargo[j]);
    }
    lemma_separator_is_first(all, 0, n);
    lemma_separator_is_first(cargo, 0, n);
    assert(all.take(n) =~= cargo);
    assert(all.skip(n + 1) =~= program);
}

/// A hole gets the answer that was recorded or given for it, and none where it was skipped
/// or could not be filled; the answers before it stay.
pub proof fn lemma_answers_go_to_their_holes(w: WorkView, h: HoleView, code: Seq<char>, calls: u32)
    ensures
        answered(w, h, ResultView::Cached(code)).answers == w.answers.push((h, Some(code))),
        answered(w, h, ResultView::Filled { code, calls }).answers == w.answers.push(
            (h, Some(code)),
        ),
        answered(w, h, ResultView::Skipped).answers == w.answers.push((h, None)),
        answered(w, h, ResultView::Failed).answers == w.answers.push((h, None)),
        answered(w, h, ResultView::Cached(code)).file == w.file,
        answered(w, h, ResultView::Cached(code)).original == w.original,
{
}

} // verus!
