//! Driving `codex exec`, and reading what it says.
use vstd::prelude::*;

use crate::agent::ModelConfig;
use crate::json::{is_json, json_text, json_text_at, json_valid};
use crate::text::{
    blank, is_blank, join, join_of, lines, lines_of, opt_view, owned, same, trim, trim_of, views,
};
use crate::util::{truncate, truncated};

verus! {

pub const CODEX_BIN: &'static str = "codex";

/// The arguments every run has.
///
/// Structured events on stdout, so the answer is picked out by parsing rather
/// than by guessing at human-readable output. A read-only sandbox: we want text
/// back, never file edits, which would fight with the patch/verify cycle. And
/// the crate under repair is not necessarily a git repo.
pub open spec fn fixed_arguments() -> Seq<Seq<char>> {
    seq![
        "exec"@,
        "--json"@,
        "--sandbox"@,
        "read-only"@,
        "--skip-git-repo-check"@,
        "--color"@,
        "never"@,
    ]
}

/// The arguments of a run. An empty model name defers to the CLI's own
/// configured model. The prompt goes to *stdin*, which is what `-` asks for.
pub open spec fn arguments(model_name: Seq<char>) -> Seq<Seq<char>> {
    if is_blank(model_name) {
        fixed_arguments() + seq!["-"@]
    } else {
        fixed_arguments() + seq!["--model"@, model_name, "-"@]
    }
}

/// The arguments to run `codex` with.
pub fn command_arguments(model: &ModelConfig) -> (r: Vec<String>)
    ensures
        views(r@) == arguments(model.model_name@),
{
    let mut args: Vec<String> = Vec::new();
    args.push(owned("exec"));
    args.push(owned("--json"));
    args.push(owned("--sandbox"));
    args.push(owned("read-only"));
    args.push(owned("--skip-git-repo-check"));
    args.push(owned("--color"));
    args.push(owned("never"));
    if !blank(model.model_name.as_str()) {
        args.push(owned("--model"));
        args.push(model.model_name.clone());
    }
    args.push(owned("-"));
    proof {
        assert(views(args@) =~= arguments(model.model_name@));
    }
    args
}

// ---------------------------------------------------------------------------
// Events
// ---------------------------------------------------------------------------

/// What a `codex exec --json` run told us.
#[derive(Debug, PartialEq)]
pub struct CodexEvents {
    /// Text of the last completed `agent_message`, i.e. the reply.
    pub message: Option<String>,
    /// Non-fatal diagnostics worth showing, including failures.
    pub warnings: Vec<String>,
    /// True when at least one line parsed as a JSON event.
    pub parsed_any: bool,
}

/// Events as plain text.
#[verifier::ext_equal]
pub struct EventsView {
    pub message: Option<Seq<char>>,
    pub warnings: Seq<Seq<char>>,
    pub parsed_any: bool,
}

impl View for CodexEvents {
    type V = EventsView;

    open spec fn view(&self) -> EventsView {
        EventsView {
            message: opt_view(self.message),
            warnings: views(self.warnings@),
            parsed_any: self.parsed_any,
        }
    }
}

/// The texts of one event line that count, as far as it has them.
#[derive(Debug)]
pub struct EventLine {
    /// At `/type`.
    pub kind: Option<String>,
    /// At `/item/type`.
    pub item_kind: Option<String>,
    /// At `/item/text`.
    pub item_text: Option<String>,
    /// At `/item/message`.
    pub item_message: Option<String>,
    /// At `/message`.
    pub message: Option<String>,
    /// At `/error/message`.
    pub error_message: Option<String>,
}

/// The texts of an event line.
#[verifier::ext_equal]
pub struct LineView {
    pub kind: Option<Seq<char>>,
    pub item_kind: Option<Seq<char>>,
    pub item_text: Option<Seq<char>>,
    pub item_message: Option<Seq<char>>,
    pub message: Option<Seq<char>>,
    pub error_message: Option<Seq<char>>,
}

impl View for EventLine {
    type V = LineView;

    open spec fn view(&self) -> LineView {
        LineView {
            kind: opt_view(self.kind),
            item_kind: opt_view(self.item_kind),
            item_text: opt_view(self.item_text),
            item_message: opt_view(self.item_message),
            message: opt_view(self.message),
            error_message: opt_view(self.error_message),
        }
    }
}

/// Whether a kind of event is a terminal failure. Shapes vary, so the common
/// spellings count.
pub open spec fn is_failure(kind: Option<Seq<char>>) -> bool {
    kind == Some("turn.failed"@) || kind == Some("error"@) || kind == Some("thread.failed"@)
}

/// What a failure says.
pub open spec fn failure_message(line: LineView) -> Seq<char> {
    match (line.message, line.error_message) {
        (Some(m), _) => m,
        (None, Some(m)) => m,
        (None, None) => "the agent reported a failure"@,
    }
}

/// The events after one more event line.
///
/// The *last* `agent_message` wins. Only `item.completed` is trusted for the
/// reply text; `item.updated` carries streaming deltas, and reading a partial
/// delta as the final answer would be worse than reading nothing. An `error`
/// item is not necessarily fatal.
pub open spec fn after_event(e: EventsView, line: LineView) -> EventsView {
    let seen = EventsView { parsed_any: true, ..e };
    if line.kind == Some("item.completed"@) {
        if line.item_kind == Some("agent_message"@) {
            match line.item_text {
                Some(text) => EventsView { message: Some(text), ..seen },
                None => seen,
            }
        } else if line.item_kind == Some("error"@) {
            match line.item_message {
                Some(m) => EventsView { warnings: e.warnings.push(m), ..seen },
                None => seen,
            }
        } else {
            seen
        }
    } else if is_failure(line.kind) {
        EventsView { warnings: e.warnings.push(failure_message(line)), ..seen }
    } else {
        seen
    }
}

/// The texts of a line of JSON that count.
pub open spec fn line_texts(line: Seq<char>) -> LineView {
    LineView {
        kind: json_text(line, "/type"@),
        item_kind: json_text(line, "/item/type"@),
        item_text: json_text(line, "/item/text"@),
        item_message: json_text(line, "/item/message"@),
        message: json_text(line, "/message"@),
        error_message: json_text(line, "/error/message"@),
    }
}

/// The events of the lines of a run. Lines that are not JSON are skipped rather
/// than fatal: the CLI mixes log output into stdout, and a single stray line
/// should not discard a good answer.
pub open spec fn events_of(lines: Seq<Seq<char>>) -> EventsView
    decreases lines.len(),
{
    if lines.len() == 0 {
        EventsView { message: None, warnings: seq![], parsed_any: false }
    } else {
        let before = events_of(lines.drop_last());
        let line = trim_of(lines.last());
        if line.len() > 0 && json_valid(line) {
            after_event(before, line_texts(line))
        } else {
            before
        }
    }
}

fn is_text(value: &Option<String>, text: &str) -> (r: bool)
    ensures
        r == (opt_view(*value) == Some(text@)),
{
    match value {
        Some(v) => same(v.as_str(), text),
        None => false,
    }
}

impl CodexEvents {
    /// Nothing said yet.
    pub fn new() -> (r: CodexEvents)
        ensures
            r@ == (EventsView { message: None, warnings: seq![], parsed_any: false }),
    {
        let r = CodexEvents { message: None, warnings: Vec::new(), parsed_any: false };
        proof {
            assert(r@ =~= EventsView { message: None, warnings: seq![], parsed_any: false });
        }
        r
    }

    fn warn(&mut self, message: &str)
        ensures
            final(self)@ == (EventsView {
                warnings: old(self)@.warnings.push(message@),
                ..old(self)@
            }),
    {
        let m = owned(message);
        proof {
            assert(views(self.warnings@.push(m)) =~= views(self.warnings@).push(m@));
        }
        self.warnings.push(m);
        proof {
            assert(self@ =~= EventsView {
                warnings: old(self)@.warnings.push(message@),
                ..old(self)@
            });
        }
    }

    /// Take one event line into account.
    pub fn apply(&mut self, line: &EventLine)
        ensures
            final(self)@ == after_event(old(self)@, line@),
    {
        self.parsed_any = true;
        if is_text(&line.kind, "item.completed") {
            if is_text(&line.item_kind, "agent_message") {
                if let Some(text) = &line.item_text {
                    self.message = Some(text.clone());
                }
            } else if is_text(&line.item_kind, "error") {
                if let Some(m) = &line.item_message {
                    self.warn(m.as_str());
                }
            }
        } else if is_text(&line.kind, "turn.failed") || is_text(&line.kind, "error") || is_text(
            &line.kind,
            "thread.failed",
        ) {
            match (&line.message, &line.error_message) {
                (Some(m), _) => self.warn(m.as_str()),
                (None, Some(m)) => self.warn(m.as_str()),
                (None, None) => self.warn("the agent reported a failure"),
            }
        }
        proof {
            assert(self@ =~= after_event(old(self)@, line@));
        }
    }

    /// A single line describing what we learned, for error messages.
    pub fn diagnostics(&self) -> (r: String)
        ensures
            r@ == diagnosis(self@),
    {
        if self.warnings.len() == 0 {
            return owned("");
        }
        let ghost all = shortened(self@.warnings);
        let mut short: Vec<String> = Vec::new();
        let mut i: usize = 0;
        while i < self.warnings.len()
            invariant
                i <= self.warnings@.len(),
                all == shortened(self@.warnings),
                views(short@) == all.take(i as int),
            decreases self.warnings.len() - i,
        {
            let w = truncate(self.warnings[i].as_str(), 200);
            proof {
                assert(views(short@.push(w)) =~= views(short@).push(w@));
                assert(all.take(i + 1) =~= all.take(i as int).push(w@));
            }
            short.push(w);
            i = i + 1;
        }
        proof {
            assert(all.take(self.warnings@.len() as int) =~= all);
        }
        let joined = join(&short, "; ");
        truncate(joined.as_str(), 800)
    }
}

/// Warnings, each cut short.
pub open spec fn shortened(warnings: Seq<Seq<char>>) -> Seq<Seq<char>> {
    Seq::new(warnings.len(), |i: int| truncated(warnings[i], 200))
}

/// What the events say went wrong, in one line.
pub open spec fn diagnosis(e: EventsView) -> Seq<char> {
    if e.warnings.len() == 0 {
        ""@
    } else {
        truncated(join_of(shortened(e.warnings), "; "@), 800)
    }
}

/// The texts of an event line that count.
fn read_line(line: &str) -> (r: EventLine)
    ensures
        r@ == line_texts(line@),
{
    EventLine {
        kind: json_text_at(line, "/type"),
        item_kind: json_text_at(line, "/item/type"),
        item_text: json_text_at(line, "/item/text"),
        item_message: json_text_at(line, "/item/message"),
        message: json_text_at(line, "/message"),
        error_message: json_text_at(line, "/error/message"),
    }
}

/// Parse the JSONL event stream that `codex exec --json` writes to stdout.
pub fn parse_codex_jsonl(stdout: &str) -> (r: CodexEvents)
    ensures
        r@ == events_of(lines_of(stdout@)),
{
    let mut events = CodexEvents::new();
    let all = lines(stdout);
    let ghost ls = lines_of(stdout@);
    let mut i: usize = 0;
    proof {
        assert(ls.len() == all@.len());
        assert(ls.take(0) =~= Seq::<Seq<char>>::empty());
    }
    while i < all.len()
        invariant
            i <= all@.len(),
            ls == views(all@),
            ls.len() == all@.len(),
            events@ == events_of(ls.take(i as int)),
        decreases all.len() - i,
    {
        proof {
            assert(ls[i as int] == all@[i as int]@);
            assert(ls.take(i + 1).drop_last() =~= ls.take(i as int));
            assert(ls.take(i + 1).last() == ls[i as int]);
        }
        let line = trim(all[i].as_str());
        if line.as_str().unicode_len() > 0 && is_json(line.as_str()) {
            let facts = read_line(line.as_str());
            events.apply(&facts);
        }
        i = i + 1;
    }
    proof {
        assert(ls.take(all@.len() as int) =~= ls);
    }
    events
}

// ---------------------------------------------------------------------------
// The answer
// ---------------------------------------------------------------------------

/// A failure, with what the events say about it where they say something.
pub open spec fn with_detail(what: Seq<char>, detail: Seq<char>) -> Seq<char> {
    if detail.len() == 0 {
        what
    } else {
        what + ": "@ + detail
    }
}

/// What a finished run comes to: the reply, or why there is none. `failed` is
/// how the run ended, when it did not end well.
pub open spec fn reply_of(events: EventsView, stdout: Seq<char>, failed: Option<Seq<char>>) -> Result<
    Seq<char>,
    Seq<char>,
> {
    match failed {
        Some(status) => Err(
            with_detail("`codex exec` exited with "@ + status, diagnosis(events)),
        ),
        None => match events.message {
            Some(message) => Ok(message),
            None => if !events.parsed_any && trim_of(stdout).len() > 0 {
                Ok(trim_of(stdout))
            } else {
                Err(with_detail("`codex exec` produced no reply"@, diagnosis(events)))
            },
        },
    }
}

/// The warnings a finished run is worth: those of a run that ended well, which
/// are common and benign.
pub open spec fn warnings_of(events: EventsView, failed: Option<Seq<char>>) -> Seq<Seq<char>> {
    if failed is Some {
        seq![]
    } else {
        Seq::new(events.warnings.len(), |i: int| "warning: codex: "@ + events.warnings[i])
    }
}

fn add_detail(what: String, detail: String) -> (r: String)
    ensures
        r@ == with_detail(what@, detail@),
{
    let mut m = what;
    if detail.as_str().unicode_len() > 0 {
        m.push_str(": ");
        m.push_str(detail.as_str());
    }
    m
}

/// What a finished run comes to, and the warnings to show for it.
///
/// With no structured event at all this falls back to raw stdout. The reply is
/// still held to the "one expression" shape by the caller, so this cannot
/// smuggle a bad answer through -- it only avoids losing a usable reply if the
/// event format ever changes.
pub fn conclude(events: &CodexEvents, stdout: &str, failed: Option<&str>) -> (r: (
    Result<String, String>,
    Vec<String>,
))
    ensures
        crate::filler::reply_view(r.0) == reply_of(
            events@,
            stdout@,
            crate::text::opt_str_view(failed),
        ),
        views(r.1@) == warnings_of(events@, crate::text::opt_str_view(failed)),
{
    let mut warnings: Vec<String> = Vec::new();
    proof {
        assert(views(warnings@) =~= Seq::<Seq<char>>::empty());
    }
    if let Some(status) = failed {
        // The agent's own explanation is far more useful than "exit 1".
        let mut what = owned("`codex exec` exited with ");
        what.push_str(status);
        return (Err(add_detail(what, events.diagnostics())), warnings);
    }
    let ghost all = warnings_of(events@, None);
    let mut i: usize = 0;
    while i < events.warnings.len()
        invariant
            i <= events.warnings@.len(),
            all == warnings_of(events@, None),
            views(warnings@) == all.take(i as int),
        decreases events.warnings.len() - i,
    {
        let mut w = owned("warning: codex: ");
        w.push_str(events.warnings[i].as_str());
        proof {
            assert(views(warnings@.push(w)) =~= views(warnings@).push(w@));
            assert(all.take(i + 1) =~= all.take(i as int).push(w@));
        }
        warnings.push(w);
        i = i + 1;
    }
    proof {
        assert(all.take(events.warnings@.len() as int) =~= all);
    }
    if let Some(message) = &events.message {
        return (Ok(message.clone()), warnings);
    }
    let text = trim(stdout);
    if !events.parsed_any && text.as_str().unicode_len() > 0 {
        return (Ok(text), warnings);
    }
    (Err(add_detail(owned("`codex exec` produced no reply"), events.diagnostics())), warnings)
}

/// Read a finished run: its events, and what they come to.
pub fn handle(stdout: &str, failed: Option<&str>) -> (r: (Result<String, String>, Vec<String>))
    ensures
        crate::filler::reply_view(r.0) == reply_of(
            events_of(lines_of(stdout@)),
            stdout@,
            crate::text::opt_str_view(failed),
        ),
        views(r.1@) == warnings_of(
            events_of(lines_of(stdout@)),
            crate::text::opt_str_view(failed),
        ),
{
    let events = parse_codex_jsonl(stdout);
    conclude(&events, stdout, failed)
}

} // verus!
