//! What is read back from the ledger and from rustc's messages.
use vstd::prelude::*;

use crate::diagnostics::{diagnostic_in, diagnostics_of, message_in, span_in, spans_of};
use crate::json::{json_bool, json_null, json_number, json_text};
use crate::record::{field_of, list_in, record_in, values_named, RecordView};
use crate::storage::{damaged_lines, entry_in, last_content, replayed};
use crate::text::{begins, is_blank, trim_of};

verus! {

// ---------------------------------------------------------------------------
// The ledger
// ---------------------------------------------------------------------------

/// Whether a line records an answer for a hole.
pub open spec fn records(line: Seq<char>, id: Seq<char>, code: Seq<char>) -> bool {
    !is_blank(line) && entry_in(line) == Some((1u32, id, code))
}

/// Whether a line records nothing for a hole.
pub open spec fn records_nothing_for(line: Seq<char>, id: Seq<char>) -> bool {
    forall|code: Seq<char>| !#[trigger] records(line, id, code)
}

proof fn lemma_other_lines_change_nothing(
    lines: Seq<Seq<char>>,
    more: Seq<Seq<char>>,
    id: Seq<char>,
)
    requires
        forall|i: int| 0 <= i < more.len() ==> records_nothing_for(#[trigger] more[i], id),
    ensures
        replayed(lines + more).contains_key(id) <==> replayed(lines).contains_key(id),
        replayed(lines + more)[id] == replayed(lines)[id],
    decreases more.len(),
{
    if more.len() == 0 {
        assert(lines + more =~= lines);
    } else {
        let front = more.drop_last();
        assert forall|i: int| 0 <= i < front.len() implies records_nothing_for(
            #[trigger] front[i],
            id,
        ) by {
            assert(front[i] == more[i]);
        }
        lemma_other_lines_change_nothing(lines, front, id);
        assert((lines + more).drop_last() =~= lines + front);
        let last = more[more.len() - 1];
        assert((lines + more).last() == last);
        assert(records_nothing_for(last, id));
        if let Some((v, other, code)) = entry_in(last) {
            assert(!records(last, id, code));
        }
    }
}

/// The answer for a hole is the last one recorded for it, whatever else the ledger holds.
pub proof fn lemma_last_record_counts(
    before: Seq<Seq<char>>,
    line: Seq<char>,
    after: Seq<Seq<char>>,
    id: Seq<char>,
    code: Seq<char>,
)
    requires
        records(line, id, code),
        forall|i: int| 0 <= i < after.len() ==> records_nothing_for(#[trigger] after[i], id),
    ensures
        replayed(before.push(line) + after).contains_pair(id, code),
{
    lemma_other_lines_change_nothing(before.push(line), after, id);
    assert(before.push(line).drop_last() =~= before);
    assert(before.push(line).last() == line);
}

/// A hole that no line records an answer for has none.
pub proof fn lemma_unrecorded_holes_have_no_answer(lines: Seq<Seq<char>>, id: Seq<char>)
    requires
        forall|i: int| 0 <= i < lines.len() ==> records_nothing_for(#[trigger] lines[i], id),
    ensures
        !replayed(lines).contains_key(id),
{
    let none = Seq::<Seq<char>>::empty();
    assert(none + lines =~= lines);
    lemma_other_lines_change_nothing(none, lines, id);
}

proof fn lemma_last_content(lines: Seq<Seq<char>>, n: int)
    requires
        0 <= n <= lines.len(),
    ensures
        match last_content(lines, n) {
            Some(k) => 0 <= k < n && !is_blank(lines[k]) && forall|j: int|
                k < j < n ==> is_blank(#[trigger] lines[j]),
            None => forall|j: int| 0 <= j < n ==> is_blank(#[trigger] lines[j]),
        },
    decreases n,
{
    if n > 0 && is_blank(lines[n - 1]) {
        lemma_last_content(lines, n - 1);
    }
}

proof fn lemma_damaged(lines: Seq<Seq<char>>, n: int, i: int)
    requires
        0 <= n <= lines.len() <= usize::MAX,
        0 <= i < lines.len(),
    ensures
        damaged_lines(lines, n).contains((i + 1) as usize) <==> i < n && !is_blank(lines[i])
            && entry_in(lines[i]) is None && last_content(lines, lines.len() as int) != Some(i),
        forall|k: int| 0 <= k < damaged_lines(lines, n).len() ==> #[trigger] damaged_lines(lines, n)[k]
            <= n,
    decreases n,
{
    if n > 0 {
        lemma_damaged(lines, n - 1, i);
        let front = damaged_lines(lines, n - 1);
        let all = damaged_lines(lines, n);
        let x = (i + 1) as usize;
        if front.contains(x) {
            let k = choose|k: int| 0 <= k < front.len() && front[k] == x;
            assert(all[k] == x);
        }
        if all.len() > front.len() {
            assert(all[all.len() - 1] == n as usize);
        }
        if all.contains(x) {
            let k = choose|k: int| 0 <= k < all.len() && all[k] == x;
            if k < front.len() {
                assert(front[k] == x);
            }
        }
    }
}

/// A line is reported as damaged exactly when it has content, is no entry, and some later
/// line has content too: a torn last line is no damage.
pub proof fn lemma_damage_is_reported(lines: Seq<Seq<char>>, i: int)
    requires
        lines.len() <= usize::MAX,
        0 <= i < lines.len(),
    ensures
        damaged_lines(lines, lines.len() as int).contains((i + 1) as usize) <==> !is_blank(lines[i])
            && entry_in(lines[i]) is None && exists|j: int|
            i < j < lines.len() && !is_blank(#[trigger] lines[j]),
{
    let n = lines.len() as int;
    lemma_damaged(lines, n, i);
    lemma_last_content(lines, n);
    if let Some(k) = last_content(lines, n) {
        if i < k {
            assert(!is_blank(lines[k]));
        }
    }
}

// ---------------------------------------------------------------------------
// Fields
// ---------------------------------------------------------------------------

/// Whether a record has a field exactly once, with this value.
pub open spec fn has_field(
    members: Seq<(Seq<char>, Seq<char>)>,
    name: Seq<char>,
    value: Seq<char>,
) -> bool {
    exists|i: int| #[trigger] is_sole_field(members, name, value, i)
}

/// Whether member `i` is the only one of its name.
pub open spec fn is_sole_field(
    members: Seq<(Seq<char>, Seq<char>)>,
    name: Seq<char>,
    value: Seq<char>,
    i: int,
) -> bool {
    &&& 0 <= i < members.len()
    &&& members[i] == (name, value)
    &&& forall|j: int| 0 <= j < members.len() && j != i ==> (#[trigger] members[j]).0 != name
}

proof fn lemma_values_named_none(members: Seq<(Seq<char>, Seq<char>)>, name: Seq<char>)
    requires
        forall|j: int| 0 <= j < members.len() ==> (#[trigger] members[j]).0 != name,
    ensures
        values_named(members, name).len() == 0,
    decreases members.len(),
{
    if members.len() > 0 {
        let front = members.drop_last();
        assert forall|j: int| 0 <= j < front.len() implies (#[trigger] front[j]).0 != name by {
            assert(front[j] == members[j]);
        }
        assert(members[members.len() - 1].0 != name);
        lemma_values_named_none(front, name);
    }
}

proof fn lemma_values_named_one(
    members: Seq<(Seq<char>, Seq<char>)>,
    name: Seq<char>,
    value: Seq<char>,
    i: int,
)
    requires
        is_sole_field(members, name, value, i),
    ensures
        values_named(members, name) == seq![value],
    decreases members.len(),
{
    let front = members.drop_last();
    if i == members.len() - 1 {
        assert forall|j: int| 0 <= j < front.len() implies (#[trigger] front[j]).0 != name by {
            assert(front[j] == members[j]);
        }
        lemma_values_named_none(front, name);
        assert(values_named(members, name) =~= seq![value]);
    } else {
        assert forall|j: int| 0 <= j < front.len() && j != i implies (#[trigger] front[j]).0
            != name by {
            assert(front[j] == members[j]);
        }
        assert(members[members.len() - 1].0 != name);
        lemma_values_named_one(front, name, value, i);
    }
}

/// A field of an object is the value of the member of that name, wherever it stands; an object
/// without one lacks the field.
pub proof fn lemma_fields_go_by_name(
    members: Seq<(Seq<char>, Seq<char>)>,
    place: int,
    name: Seq<char>,
    value: Seq<char>,
)
    ensures
        has_field(members, name, value) ==> field_of(RecordView::Named(members), place, name) == Some(
            Some(value),
        ),
        (forall|j: int| 0 <= j < members.len() ==> (#[trigger] members[j]).0 != name) ==> field_of(
            RecordView::Named(members),
            place,
            name,
        ) == Some(None::<Seq<char>>),
{
    if has_field(members, name, value) {
        let i = choose|i: int| #[trigger] is_sole_field(members, name, value, i);
        lemma_values_named_one(members, name, value, i);
    }
    if forall|j: int| 0 <= j < members.len() ==> (#[trigger] members[j]).0 != name {
        lemma_values_named_none(members, name);
    }
}

proof fn lemma_values_named_two(
    members: Seq<(Seq<char>, Seq<char>)>,
    name: Seq<char>,
    i: int,
    j: int,
)
    requires
        0 <= i < j < members.len(),
        members[i].0 == name,
        members[j].0 == name,
    ensures
        values_named(members, name).len() >= 2,
    decreases members.len(),
{
    let front = members.drop_last();
    if j < front.len() {
        lemma_values_named_two(front, name, i, j);
    } else {
        lemma_values_named_some(front, name, i);
    }
}

proof fn lemma_values_named_some(members: Seq<(Seq<char>, Seq<char>)>, name: Seq<char>, i: int)
    requires
        0 <= i < members.len(),
        members[i].0 == name,
    ensures
        values_named(members, name).len() >= 1,
    decreases members.len(),
{
    if i < members.len() - 1 {
        lemma_values_named_some(members.drop_last(), name, i);
    }
}

/// An entry of the ledger is what its three fields say, in whatever order and among whatever
/// others they stand; a line that has one of them twice, or lacks one, is no entry.
pub proof fn lemma_entry_is_its_fields(
    line: Seq<char>,
    members: Seq<(Seq<char>, Seq<char>)>,
    v: Seq<char>,
    id: Seq<char>,
    code: Seq<char>,
)
    requires
        record_in(line) == Some(RecordView::Named(members)),
    ensures
        has_field(members, "v"@, v) && has_field(members, "id"@, id) && has_field(
            members,
            "code"@,
            code,
        ) ==> match (json_number(v), json_text(id, ""@), json_text(code, ""@)) {
            (Some(n), Some(i), Some(c)) => if n <= u32::MAX {
                entry_in(line) == Some((n as u32, i, c))
            } else {
                entry_in(line) is None
            },
            _ => entry_in(line) is None,
        },
        forall|i: int, j: int|
            0 <= i < j < members.len() && (#[trigger] members[i]).0 == (#[trigger] members[j]).0
                && is_entry_field(members[i].0) ==> entry_in(line) is None,
        lacks(members, "v"@) || lacks(members, "id"@) || lacks(members, "code"@) ==> entry_in(line)
            is None,
{
    lemma_fields_go_by_name(members, 0, "v"@, v);
    lemma_fields_go_by_name(members, 1, "id"@, id);
    lemma_fields_go_by_name(members, 2, "code"@, code);
    assert forall|i: int, j: int|
        0 <= i < j < members.len() && (#[trigger] members[i]).0 == (#[trigger] members[j]).0
            && is_entry_field(members[i].0) implies entry_in(line) is None by {
        lemma_values_named_two(members, members[i].0, i, j);
    }
    if lacks(members, "v"@) {
        lemma_values_named_none(members, "v"@);
    }
    if lacks(members, "id"@) {
        lemma_values_named_none(members, "id"@);
    }
    if lacks(members, "code"@) {
        lemma_values_named_none(members, "code"@);
    }
}

/// Whether a name is that of a field of an entry.
pub open spec fn is_entry_field(name: Seq<char>) -> bool {
    name == "v"@ || name == "id"@ || name == "code"@
}

/// Whether no member has the name.
pub open spec fn lacks(members: Seq<(Seq<char>, Seq<char>)>, name: Seq<char>) -> bool {
    forall|j: int| 0 <= j < members.len() ==> (#[trigger] members[j]).0 != name
}

// ---------------------------------------------------------------------------
// rustc's messages
// ---------------------------------------------------------------------------

/// A span is what its five fields say.
pub proof fn lemma_span_is_its_fields(
    text: Seq<char>,
    members: Seq<(Seq<char>, Seq<char>)>,
    file_name: Seq<char>,
    byte_start: Seq<char>,
    byte_end: Seq<char>,
    is_primary: Seq<char>,
    label: Seq<char>,
)
    requires
        record_in(text) == Some(RecordView::Named(members)),
        has_field(members, "file_name"@, file_name),
        has_field(members, "byte_start"@, byte_start),
        has_field(members, "byte_end"@, byte_end),
        has_field(members, "is_primary"@, is_primary),
        has_field(members, "label"@, label),
        json_text(file_name, ""@) is Some,
        json_number(byte_start) matches Some(n) && n <= usize::MAX,
        json_number(byte_end) matches Some(n) && n <= usize::MAX,
        json_bool(is_primary) is Some,
        json_null(label) || json_text(label, ""@) is Some,
    ensures
        span_in(text) matches Some(s) && {
            &&& Some(s.file_name) == json_text(file_name, ""@)
            &&& Some(s.byte_start as u64) == json_number(byte_start)
            &&& Some(s.byte_end as u64) == json_number(byte_end)
            &&& Some(s.is_primary) == json_bool(is_primary)
            &&& s.label == if json_null(label) {
                None
            } else {
                json_text(label, ""@)
            }
        },
{
    lemma_fields_go_by_name(members, 0, "file_name"@, file_name);
    lemma_fields_go_by_name(members, 1, "byte_start"@, byte_start);
    lemma_fields_go_by_name(members, 2, "byte_end"@, byte_end);
    lemma_fields_go_by_name(members, 3, "is_primary"@, is_primary);
    lemma_fields_go_by_name(members, 4, "label"@, label);
}

/// The spans of a message are all of them, in order.
pub proof fn lemma_spans_are_all_read(texts: Seq<Seq<char>>)
    ensures
        match spans_of(texts) {
            Some(spans) => spans.len() == texts.len() && forall|i: int|
                0 <= i < texts.len() ==> Some(#[trigger] spans[i]) == span_in(texts[i]),
            None => exists|i: int| 0 <= i < texts.len() && span_in(#[trigger] texts[i]) is None,
        },
    decreases texts.len(),
{
    if texts.len() > 0 {
        let front = texts.drop_last();
        lemma_spans_are_all_read(front);
        assert(texts[texts.len() - 1] == texts.last());
        match spans_of(front) {
            Some(a) => {
                if let Some(s) = span_in(texts.last()) {
                    let spans = a.push(s);
                    assert forall|i: int| 0 <= i < texts.len() implies Some(#[trigger] spans[i])
                        == span_in(texts[i]) by {
                        if i < a.len() {
                            assert(spans[i] == a[i]);
                            assert(front[i] == texts[i]);
                        }
                    }
                }
            },
            None => {
                let i = choose|i: int|
                    0 <= i < front.len() && span_in(#[trigger] front[i]) is None;
                assert(texts[i] == front[i]);
            },
        }
    }
}

/// A diagnostic is what its four fields say; an empty code is none.
pub proof fn lemma_diagnostic_is_its_fields(
    text: Seq<char>,
    members: Seq<(Seq<char>, Seq<char>)>,
    message: Seq<char>,
    level: Seq<char>,
    code: Seq<char>,
    inner: Seq<(Seq<char>, Seq<char>)>,
    code_text: Seq<char>,
    spans: Seq<char>,
    elements: Seq<Seq<char>>,
)
    requires
        record_in(text) == Some(RecordView::Named(members)),
        has_field(members, "message"@, message),
        has_field(members, "level"@, level),
        has_field(members, "code"@, code),
        has_field(members, "spans"@, spans),
        json_text(message, ""@) is Some,
        json_text(level, ""@) is Some,
        json_null(code) || (record_in(code) == Some(RecordView::Named(inner)) && has_field(
            inner,
            "code"@,
            code_text,
        ) && json_text(code_text, ""@) is Some),
        list_in(spans) == Some(elements),
        forall|i: int| 0 <= i < elements.len() ==> span_in(#[trigger] elements[i]) is Some,
    ensures
        message_in(text) matches Some(d) && {
            &&& Some(d.message) == json_text(message, ""@)
            &&& Some(d.level) == json_text(level, ""@)
            &&& d.code == if json_null(code) || json_text(code_text, ""@)->0.len() == 0 {
                None
            } else {
                json_text(code_text, ""@)
            }
            &&& d.spans.len() == elements.len()
            &&& forall|i: int|
                0 <= i < elements.len() ==> Some(#[trigger] d.spans[i]) == span_in(elements[i])
        },
{
    lemma_fields_go_by_name(members, 0, "message"@, message);
    lemma_fields_go_by_name(members, 1, "level"@, level);
    lemma_fields_go_by_name(members, 2, "code"@, code);
    lemma_fields_go_by_name(members, 3, "spans"@, spans);
    lemma_fields_go_by_name(inner, 0, "code"@, code_text);
    lemma_spans_are_all_read(elements);
}

/// A line of the stream carries the diagnostic of its `message` exactly when its `reason` is
/// `compiler-message`.
pub proof fn lemma_only_compiler_messages_count(
    line: Seq<char>,
    members: Seq<(Seq<char>, Seq<char>)>,
    reason: Seq<char>,
    message: Seq<char>,
)
    requires
        record_in(line) == Some(RecordView::Named(members)),
        has_field(members, "reason"@, reason),
        has_field(members, "message"@, message),
        !json_null(message),
    ensures
        json_text(reason, ""@) == Some("compiler-message"@) ==> diagnostic_in(line) == message_in(
            message,
        ),
        json_text(reason, ""@) != Some("compiler-message"@) ==> diagnostic_in(line) is None,
{
    lemma_fields_go_by_name(members, 0, "reason"@, reason);
    lemma_fields_go_by_name(members, 1, "message"@, message);
}

/// Every line that carries a diagnostic is read, in order, and no other.
pub proof fn lemma_every_message_is_read(lines: Seq<Seq<char>>, line: Seq<char>)
    ensures
        diagnostics_of(lines.push(line)) == (match diagnostic_in(trim_of(line)) {
            Some(d) => if trim_of(line).len() > 0 && trim_of(line)[0] == '{' {
                diagnostics_of(lines).push(d)
            } else {
                diagnostics_of(lines)
            },
            None => diagnostics_of(lines),
        }),
        diagnostics_of(seq![]).len() == 0,
{
    reveal_strlit("{");
    assert(lines.push(line).drop_last() =~= lines);
    assert(lines.push(line).last() == line);
    let t = trim_of(line);
    if t.len() > 0 && t[0] == '{' {
        assert(t.take(1) =~= "{"@);
    }
    if begins(t, "{"@) {
        assert(t.take(1)[0] == t[0]);
    }
}

} // verus!
