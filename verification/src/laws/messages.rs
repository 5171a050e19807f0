//! What is told to whoever runs the tool, and the names it is told by.
use vstd::prelude::*;

use crate::agent::{agent_label, env_number, number_warning, Agent};
use crate::filler::type_hint;
use crate::gate::{failure_label, verdict_failures, verdict_label, FailureView, VerdictView};
use crate::hole::{location_of, position_name, HolePosition, HoleView};
use crate::laws::numbers::lemma_decimals_differ;
use crate::laws::places::{is_plain_name, lemma_backup_stands_beside};
use crate::locking::lock_path;
use crate::patching::settled_without_check;
use crate::path::{rooted, spans};
use crate::prober::OutcomeView;
use crate::storage::temp_path_of;
use crate::text::{begins, decimal_of, is_blank, replaced};

verus! {

/// A hole is told by its file and line: two on different lines are told apart.
pub proof fn lemma_location_tells_lines_apart(a: HoleView, b: HoleView)
    ensures
        location_of(a) == a.file + ":"@ + decimal_of(a.line as nat),
        a.file == b.file && location_of(a) == location_of(b) ==> a.line == b.line,
{
    reveal_strlit(":");
    if a.file == b.file && location_of(a) == location_of(b) {
        let n = a.file.len() as int + 1;
        assert(location_of(a).skip(n) =~= decimal_of(a.line as nat));
        assert(location_of(b).skip(n) =~= decimal_of(b.line as nat));
        lemma_decimals_differ(a.line as nat, b.line as nat);
    }
}

/// Every position has a name of its own.
pub proof fn lemma_positions_have_names_of_their_own(p: HolePosition, q: HolePosition)
    ensures
        position_name(p) == position_name(q) ==> p == q,
        position_name(HolePosition::Statement) == "statement"@,
        position_name(HolePosition::Expression) == "expression"@,
        position_name(HolePosition::MacroBody) == "macro-body"@,
        position_name(HolePosition::Item) == "item"@,
        position_name(HolePosition::Unknown) == "unknown"@,
{
    reveal_strlit("statement");
    reveal_strlit("expression");
    reveal_strlit("macro-body");
    reveal_strlit("item");
    reveal_strlit("unknown");
    assert("statement"@.len() == 9);
    assert("expression"@.len() == 10 && "expression"@[0] == 'e');
    assert("macro-body"@.len() == 10 && "macro-body"@[0] == 'm');
    assert("item"@.len() == 4);
    assert("unknown"@.len() == 7);
}

/// An error is told by the place of the hole that owns it, or by its file, and by what rustc
/// said.
pub proof fn lemma_failure_names_its_place(f: FailureView)
    ensures
        f.hole is Some ==> failure_label(f) == f.hole->0.file + ":"@ + decimal_of(
            f.hole->0.line as nat,
        ) + ": "@ + f.message,
        f.hole is None && !f.file.contains('\\') ==> failure_label(f) == f.file + ": "@ + f.message,
{
    if f.hole is None && !f.file.contains('\\') {
        assert(replaced(f.file, '\\', '/') =~= f.file) by {
            assert forall|i: int| 0 <= i < f.file.len() implies #[trigger] f.file[i] != '\\' by {
                assert(f.file.contains(f.file[i]));
            }
        }
    }
}

/// A tree is called verified exactly when it was accepted; otherwise it is said that it was
/// not, and how many of its errors are in answers and how many are not.
pub proof fn lemma_only_accepted_is_called_verified(v: VerdictView)
    ensures
        v is Accepted ==> verdict_label(v) == "verified"@,
        !(v is Accepted) ==> begins(verdict_label(v), "not verified: "@),
        v matches VerdictView::Inconclusive { reason } ==> verdict_label(v) == "not verified: "@
            + reason,
        v is Rejected && verdict_failures(v, true).len() > 0 ==> begins(
            verdict_label(v),
            "not verified: "@ + decimal_of(verdict_failures(v, true).len())
                + " generated answer(s) did not compile"@,
        ),
        verdict_label(v) == "verified"@ ==> v is Accepted,
{
    reveal_strlit("not verified: ");
    reveal_strlit("verified");
    reveal_strlit(" generated answer(s) did not compile");
    reveal_strlit(" generated answer(s) did not compile, plus ");
    let l = verdict_label(v);
    let p = "not verified: "@;
    assert("verified"@.len() == 8);
    assert(p.len() == 14);
    match v {
        VerdictView::Accepted => {},
        VerdictView::Inconclusive { reason } => {
            assert(l.take(14) =~= p);
        },
        VerdictView::Rejected { failures } => {
            assert(l.take(14) =~= p);
            let n = decimal_of(verdict_failures(v, true).len());
            let x = p + n + " generated answer(s) did not compile"@;
            let y = p + n + " generated answer(s) did not compile, plus "@;
            let m = " generated answer(s) did not compile"@.len() as int;
            assert(" generated answer(s) did not compile, plus "@.take(m)
                =~= " generated answer(s) did not compile"@);
            assert(y.take(x.len() as int) =~= x) by {
                let k = p.len() + n.len();
                assert forall|i: int| 0 <= i < x.len() implies x[i] == y[i] by {
                    if i >= k {
                        assert(" generated answer(s) did not compile, plus "@.take(m)[i - k]
                            == " generated answer(s) did not compile, plus "@[i - k]);
                    }
                }
            }
            if verdict_failures(v, true).len() > 0 {
                assert(l.take(x.len() as int) =~= x);
            }
        },
    }
}

/// The model is told a type that was found, and nothing made up where a probe failed.
pub proof fn lemma_model_is_told_what_was_found(ty: Seq<char>, why: Seq<char>)
    ensures
        type_hint(Some(OutcomeView::Known(ty))) == Some(ty),
        type_hint(Some(OutcomeView::NoExpectation)) is Some,
        type_hint(Some(OutcomeView::ProbeFailed(why))) is None,
        type_hint(Some(OutcomeView::Broken(why))) is None,
        type_hint(None) is None,
{
}

/// Whoever answers is told by what it is and by the model it was given.
pub proof fn lemma_agent_is_told_by_its_model(a: Agent)
    ensures
        match a {
            Agent::Cli(_, c) => !is_blank(c.model_name@) ==> agent_label(a) == "cli:codex:"@
                + c.model_name@,
            Agent::BuiltIn(c) => !is_blank(c.model_name@) ==> agent_label(a) == "builtin:"@
                + c.model_name@,
        },
{
}

/// A number that is set is either used or complained about by name, never both and never
/// neither.
pub proof fn lemma_numbers_are_used_or_complained_about(name: Seq<char>, v: Option<Seq<char>>)
    ensures
        v is None || is_blank(v->0) ==> env_number(v) is None && number_warning(name, v).len() == 0,
        v is Some && !is_blank(v->0) ==> (env_number(v) is Some <==> number_warning(name, v).len()
            == 0),
        number_warning(name, v).len() > 0 ==> begins(
            number_warning(name, v)[0],
            "warning: ignoring "@ + name,
        ),
{
    if number_warning(name, v).len() > 0 {
        let w = number_warning(name, v)[0];
        let p = "warning: ignoring "@ + name;
        assert(w.take(p.len() as int) =~= p);
    }
}

/// What is known of a hole without asking rustc: a statement has no type, and one whose
/// place is not known cannot be probed.
pub proof fn lemma_statements_are_not_probed(h: HoleView)
    ensures
        h.position == HolePosition::Statement ==> settled_without_check(h) == Some(
            OutcomeView::NoExpectation,
        ),
        h.position != HolePosition::Statement && h.unresolvable is Some
            ==> settled_without_check(h) matches Some(OutcomeView::ProbeFailed(_)),
        h.position != HolePosition::Statement && h.unresolvable is None ==> settled_without_check(
            h,
        ) is None,
{
}

// ---------------------------------------------------------------------------
// Files of the tool's own
// ---------------------------------------------------------------------------

/// The lock of a crate stands at its root.
pub proof fn lemma_lock_stands_at_the_root(root: Seq<char>)
    requires
        root.len() > 0,
        root.last() != '/',
    ensures
        lock_path(root) == root + "/.cargo-hole.probe.lock"@,
{
    reveal_strlit("/");
    reveal_strlit(".cargo-hole.probe.lock");
    reveal_strlit("/.cargo-hole.probe.lock");
    assert(!rooted(".cargo-hole.probe.lock"@));
    assert("/.cargo-hole.probe.lock"@ =~= "/"@ + ".cargo-hole.probe.lock"@);
    assert(root + "/"@ + ".cargo-hole.probe.lock"@ =~= root + "/.cargo-hole.probe.lock"@);
}

/// What is written aside for a file stands beside it, hidden, under a name that no other
/// write of the process has.
pub proof fn lemma_temporary_files_stand_beside(
    base: Seq<char>,
    name: Seq<char>,
    pid: nat,
    i: nat,
    j: nat,
)
    requires
        base.len() > 0,
        base.last() != '/',
        spans(base).len() > 0,
        spans(base).last().1 == base.len(),
        is_plain_name(name),
    ensures
        begins(temp_path_of(base + "/"@ + name, pid, i), base + "/."@ + name + ".tmp-"@),
        temp_path_of(base + "/"@ + name, pid, i) == temp_path_of(base + "/"@ + name, pid, j) ==> i
            == j,
{
    reveal_strlit("/");
    reveal_strlit(".");
    reveal_strlit("/.");
    lemma_backup_stands_beside(base, name);
    let dest = base + "/"@ + name;
    let rest = |k: nat| "."@ + name + ".tmp-"@ + decimal_of(pid) + "-"@ + decimal_of(k);
    assert(rest(i)[0] == '.');
    assert(rest(j)[0] == '.');
    assert(!rooted(rest(i)));
    assert(!rooted(rest(j)));
    let t = temp_path_of(dest, pid, i);
    let u = temp_path_of(dest, pid, j);
    assert(t =~= base + "/"@ + rest(i));
    assert(u =~= base + "/"@ + rest(j));
    let head = base + "/."@ + name + ".tmp-"@;
    assert("/."@ =~= "/"@ + "."@);
    assert(t =~= head + decimal_of(pid) + "-"@ + decimal_of(i));
    assert(u =~= head + decimal_of(pid) + "-"@ + decimal_of(j));
    assert(t.take(head.len() as int) =~= head);
    if t == u {
        let front = head + decimal_of(pid) + "-"@;
        assert(t.skip(front.len() as int) =~= decimal_of(i));
        assert(u.skip(front.len() as int) =~= decimal_of(j));
        lemma_decimals_differ(i, j);
    }
}

} // verus!
