//! Where settings come from, and what is made of an agent's output.
use vstd::prelude::*;

use crate::agent::codex::{events_of, reply_of, warnings_of, EventsView};
use crate::agent::{
    cli_name, config_of_file, with_env, with_flags, FileConfig, ConfigRead, ConfigView, EnvLayer,
};
use crate::json::{json_text, json_valid};
use crate::text::{all_digits, digits_value, is_blank, opt_view, trim_of};

verus! {

/// Settings as they are resolved: the file over the defaults, the environment over the
/// file, the flags over everything.
pub open spec fn resolved(
    read: ConfigRead,
    key: Option<Seq<char>>,
    env: EnvLayer,
    model: Option<Seq<char>>,
    base_url: Option<Seq<char>>,
    api_key: Option<Seq<char>>,
) -> ConfigView {
    with_flags(with_env(config_of_file(read, key), env), model, base_url, api_key)
}

/// Whether a layer says something.
pub open spec fn says(v: Option<Seq<char>>, t: Seq<char>) -> bool {
    v == Some(t) && !is_blank(t)
}

/// Whether a layer says nothing: it is unset, or blank.
pub open spec fn is_silent(v: Option<Seq<char>>) -> bool {
    v matches Some(t) ==> is_blank(t)
}

/// A flag wins over everything.
pub proof fn lemma_flags_win(
    read: ConfigRead,
    key: Option<Seq<char>>,
    env: EnvLayer,
    model: Option<Seq<char>>,
    base_url: Option<Seq<char>>,
    api_key: Option<Seq<char>>,
)
    ensures
        ({
            let c = resolved(read, key, env, model, base_url, api_key);
            &&& forall|t: Seq<char>| #[trigger] says(model, t) ==> c.model_name == t
            &&& forall|t: Seq<char>| #[trigger] says(base_url, t) ==> c.base_url == t
            &&& forall|t: Seq<char>| #[trigger] says(api_key, t) ==> c.api_key == t
        }),
{
}

/// A variable wins over the file, where no flag says otherwise. A blank one, or one that is
/// no number, counts as unset.
pub proof fn lemma_variables_win_over_the_file(
    read: ConfigRead,
    key: Option<Seq<char>>,
    env: EnvLayer,
    model: Option<Seq<char>>,
    base_url: Option<Seq<char>>,
    api_key: Option<Seq<char>>,
)
    requires
        is_silent(model),
        is_silent(base_url),
        is_silent(api_key),
    ensures
        ({
            let c = resolved(read, key, env, model, base_url, api_key);
            let file = config_of_file(read, key);
            &&& forall|t: Seq<char>| #[trigger] says(opt_view(env.model), t) ==> c.model_name == t
            &&& is_silent(opt_view(env.model)) ==> c.model_name == file.model_name
            &&& forall|t: Seq<char>| #[trigger] says(opt_view(env.base_url), t) ==> c.base_url == t
            &&& is_silent(opt_view(env.base_url)) ==> c.base_url == file.base_url
            &&& forall|t: Seq<char>| #[trigger] says(opt_view(env.api_key), t) ==> c.api_key == t
            &&& is_silent(opt_view(env.api_key)) ==> c.api_key == file.api_key
            &&& forall|t: Seq<char>| #[trigger]
                says(opt_view(env.max_attempts), t) && all_digits(t) && digits_value(t) <= u32::MAX
                    ==> c.max_attempts == digits_value(t)
            &&& is_silent(opt_view(env.max_attempts)) ==> c.max_attempts == file.max_attempts
            &&& forall|t: Seq<char>| #[trigger]
                says(opt_view(env.max_tokens), t) && all_digits(t) && digits_value(t) <= u32::MAX
                    ==> c.max_tokens == digits_value(t)
            &&& is_silent(opt_view(env.max_tokens)) ==> c.max_tokens == file.max_tokens
            &&& env.temperature is None ==> c.temperature_bits == file.temperature_bits
            &&& env.temperature matches Some((t, Ok(bits))) ==> (!is_blank(t@)
                ==> c.temperature_bits == bits)
            &&& env.temperature matches Some((_, Err(_))) ==> c.temperature_bits
                == file.temperature_bits
        }),
{
    assert forall|t: Seq<char>| all_digits(t) implies #[trigger] t[0] != '+' by {
        assert(crate::text::is_digit(t[0]));
    }
}

/// The file wins over the defaults, field by field; the variable that it names for the key
/// wins over a key that it spells out.
pub proof fn lemma_file_wins_over_the_defaults(file: FileConfig, key: Option<Seq<char>>)
    ensures
        ({
            let c = config_of_file(ConfigRead::Parsed(file), key);
            &&& file.model matches Some(s) ==> {
                &&& s.model matches Some(t) ==> c.model_name == t@
                &&& s.model is None ==> c.model_name.len() == 0
                &&& s.base_url matches Some(t) ==> c.base_url == t@
                &&& s.base_url is None ==> c.base_url.len() == 0
                &&& forall|t: Seq<char>| #[trigger]
                    says(key, t) && s.api_key_env is Some ==> c.api_key == t
                &&& (s.api_key_env is None || is_silent(key)) ==> (match s.api_key {
                    Some(t) => c.api_key == t@,
                    None => c.api_key.len() == 0,
                })
            }
            &&& file.model is None ==> c.model_name.len() == 0 && c.base_url.len() == 0
                && c.api_key.len() == 0
            &&& file.fill matches Some(s) ==> {
                &&& s.max_attempts matches Some(n) ==> c.max_attempts == n
                &&& s.max_attempts is None ==> c.max_attempts == 3
                &&& s.max_tokens matches Some(n) ==> c.max_tokens == n
                &&& s.max_tokens is None ==> c.max_tokens == 2048
                &&& s.temperature_bits matches Some(n) ==> c.temperature_bits == n
                &&& s.temperature_bits is None ==> c.temperature_bits == 0
            }
            &&& file.fill is None ==> c.max_attempts == 3 && c.max_tokens == 2048
                && c.temperature_bits == 0
        }),
{
}

/// Without a file that can be read there are only the defaults.
pub proof fn lemma_no_file_no_settings(read: ConfigRead, key: Option<Seq<char>>)
    requires
        !(read is Parsed),
    ensures
        ({
            let c = config_of_file(read, key);
            &&& c.model_name.len() == 0 && c.base_url.len() == 0 && c.api_key.len() == 0
            &&& c.max_attempts == 3 && c.max_tokens == 2048 && c.temperature_bits == 0
        }),
{
}

/// The CLI is the one the flag names, else the one the variable names, else `codex`.
pub proof fn lemma_cli_is_the_one_named(flag: Option<Seq<char>>, env: Option<Seq<char>>)
    ensures
        forall|t: Seq<char>| #[trigger] says(flag, t) ==> cli_name(flag, env) == trim_of(t),
        forall|t: Seq<char>| is_silent(flag) && #[trigger] says(env, t) ==> cli_name(flag, env) == t,
        is_silent(flag) && is_silent(env) ==> cli_name(flag, env) == "codex"@,
{
}

// ---------------------------------------------------------------------------
// What an agent said
// ---------------------------------------------------------------------------

/// Whether a line is an event.
pub open spec fn is_event(line: Seq<char>) -> bool {
    trim_of(line).len() > 0 && json_valid(trim_of(line))
}

/// Whether a line is an answer of the agent, with this text.
pub open spec fn is_answer(line: Seq<char>, t: Seq<char>) -> bool {
    let e = trim_of(line);
    &&& is_event(line)
    &&& json_text(e, "/type"@) == Some("item.completed"@)
    &&& json_text(e, "/item/type"@) == Some("agent_message"@)
    &&& json_text(e, "/item/text"@) == Some(t)
}

/// Whether a line is no answer of the agent.
pub open spec fn is_no_answer(line: Seq<char>) -> bool {
    forall|t: Seq<char>| !#[trigger] is_answer(line, t)
}

proof fn lemma_message_stays(lines: Seq<Seq<char>>, more: Seq<Seq<char>>)
    requires
        forall|i: int| 0 <= i < more.len() ==> is_no_answer(#[trigger] more[i]),
    ensures
        events_of(lines + more).message == events_of(lines).message,
    decreases more.len(),
{
    if more.len() == 0 {
        assert(lines + more =~= lines);
    } else {
        let front = more.drop_last();
        assert forall|i: int| 0 <= i < front.len() implies is_no_answer(#[trigger] front[i]) by {
            assert(front[i] == more[i]);
        }
        lemma_message_stays(lines, front);
        assert((lines + more).drop_last() =~= lines + front);
        let last = more[more.len() - 1];
        assert((lines + more).last() == last);
        assert(is_no_answer(last));
        reveal_strlit("item.completed");
        reveal_strlit("agent_message");
        let e = trim_of(last);
        if let Some(t) = json_text(e, "/item/text"@) {
            assert(!is_answer(last, t));
        }
    }
}

/// The reply is the agent's last answer, whatever was said before and after it, unless the
/// run failed.
pub proof fn lemma_last_answer_is_the_reply(
    before: Seq<Seq<char>>,
    line: Seq<char>,
    t: Seq<char>,
    after: Seq<Seq<char>>,
    stdout: Seq<char>,
)
    requires
        is_answer(line, t),
        forall|i: int| 0 <= i < after.len() ==> is_no_answer(#[trigger] after[i]),
    ensures
        reply_of(events_of(before.push(line) + after), stdout, None) == Ok::<Seq<char>, Seq<char>>(
            t,
        ),
{
    lemma_message_stays(before.push(line), after);
    assert(before.push(line).drop_last() =~= before);
    assert(before.push(line).last() == line);
}

/// A run that failed has no reply, whatever was said; the status is in the error.
pub proof fn lemma_failed_run_has_no_reply(
    events: EventsView,
    stdout: Seq<char>,
    status: Seq<char>,
)
    ensures
        reply_of(events, stdout, Some(status)) matches Err(m) && ("`codex exec` exited with "@
            + status).is_prefix_of(m),
        warnings_of(events, Some(status)).len() == 0,
{
    let what = "`codex exec` exited with "@ + status;
    let m = reply_of(events, stdout, Some(status))->Err_0;
    assert(m.take(what.len() as int) =~= what);
}

proof fn lemma_no_message(lines: Seq<Seq<char>>)
    requires
        forall|i: int| 0 <= i < lines.len() ==> is_no_answer(#[trigger] lines[i]),
    ensures
        events_of(lines).message is None,
        events_of(lines).parsed_any <==> exists|i: int|
            0 <= i < lines.len() && is_event(#[trigger] lines[i]),
    decreases lines.len(),
{
    let none = Seq::<Seq<char>>::empty();
    assert(none + lines =~= lines);
    lemma_message_stays(none, lines);
    if lines.len() > 0 {
        let front = lines.drop_last();
        assert forall|i: int| 0 <= i < front.len() implies is_no_answer(#[trigger] front[i]) by {
            assert(front[i] == lines[i]);
        }
        lemma_no_message(front);
        assert(lines[lines.len() - 1] == lines.last());
        if exists|i: int| 0 <= i < front.len() && is_event(#[trigger] front[i]) {
            let i = choose|i: int| 0 <= i < front.len() && is_event(#[trigger] front[i]);
            assert(is_event(lines[i]));
        }
        if exists|i: int| 0 <= i < lines.len() && is_event(#[trigger] lines[i]) {
            let i = choose|i: int| 0 <= i < lines.len() && is_event(#[trigger] lines[i]);
            if i < front.len() {
                assert(is_event(front[i]));
            }
        }
    }
}

/// Output without a single event is the reply itself; output with events but no answer is
/// none.
pub proof fn lemma_raw_output_is_the_last_resort(lines: Seq<Seq<char>>, stdout: Seq<char>)
    requires
        forall|i: int| 0 <= i < lines.len() ==> is_no_answer(#[trigger] lines[i]),
    ensures
        (exists|i: int| 0 <= i < lines.len() && is_event(#[trigger] lines[i])) ==> reply_of(
            events_of(lines),
            stdout,
            None,
        ) is Err,
        (forall|i: int| 0 <= i < lines.len() ==> !is_event(#[trigger] lines[i])) && !is_blank(
            stdout,
        ) ==> reply_of(events_of(lines), stdout, None) == Ok::<Seq<char>, Seq<char>>(
            trim_of(stdout),
        ),
{
    lemma_no_message(lines);
    if !is_blank(stdout) {
        crate::laws::text::lemma_trim_is_the_middle(stdout);
    }
}

/// Whether a line is an event that says something went wrong, and what.
pub open spec fn is_complaint(line: Seq<char>, m: Seq<char>) -> bool {
    let e = trim_of(line);
    let kind = json_text(e, "/type"@);
    &&& is_event(line)
    &&& {
        ||| kind == Some("item.completed"@) && json_text(e, "/item/type"@) == Some("error"@)
            && json_text(e, "/item/message"@) == Some(m)
        ||| (kind == Some("turn.failed"@) || kind == Some("error"@) || kind == Some(
            "thread.failed"@,
        )) && (match (json_text(e, "/message"@), json_text(e, "/error/message"@)) {
            (Some(x), _) => m == x,
            (None, Some(y)) => m == y,
            (None, None) => m == "the agent reported a failure"@,
        })
    }
}

/// Every complaint is passed on as a warning, in order; nothing else is.
pub proof fn lemma_complaints_are_warnings(before: Seq<Seq<char>>, line: Seq<char>, m: Seq<char>)
    ensures
        is_complaint(line, m) ==> warnings_of(events_of(before.push(line)), None) == warnings_of(
            events_of(before),
            None,
        ).push("warning: codex: "@ + m),
        (forall|x: Seq<char>| !#[trigger] is_complaint(line, x)) ==> warnings_of(
            events_of(before.push(line)),
            None,
        ) == warnings_of(events_of(before), None),
{
    reveal_strlit("item.completed");
    reveal_strlit("agent_message");
    reveal_strlit("turn.failed");
    reveal_strlit("thread.failed");
    reveal_strlit("error");
    assert("item.completed"@.len() == 14 && "turn.failed"@.len() == 11);
    assert("thread.failed"@.len() == 13 && "error"@.len() == 5 && "agent_message"@.len() == 13);
    assert(before.push(line).drop_last() =~= before);
    assert(before.push(line).last() == line);
    let e = trim_of(line);
    let a = events_of(before);
    let b = events_of(before.push(line));
    if is_complaint(line, m) {
        assert(b.warnings == a.warnings.push(m));
        assert(warnings_of(b, None) =~= warnings_of(a, None).push("warning: codex: "@ + m));
    }
    if forall|x: Seq<char>| !#[trigger] is_complaint(line, x) {
        if let Some(x) = json_text(e, "/item/message"@) {
            assert(!is_complaint(line, x));
        }
        if let Some(x) = json_text(e, "/message"@) {
            assert(!is_complaint(line, x));
        }
        if let Some(x) = json_text(e, "/error/message"@) {
            assert(!is_complaint(line, x));
        }
        assert(!is_complaint(line, "the agent reported a failure"@));
        assert(b.warnings == a.warnings);
    }
}

} // verus!
