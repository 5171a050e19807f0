//! The fields of a record that JSON holds: by name where it is an object, by
//! place where it is an array.
//!
//! `serde_json` says where each value ends and what a name or a plain value
//! holds; which value is which field is decided here. Asking for a field that an
//! object has twice is an error. A field that nobody asks for is passed over, and
//! may be there as often as it likes.
use vstd::prelude::*;

use crate::json::{
    ends_number, entry_text, json_head, json_split, json_string, json_text, json_text_at,
};
use crate::text::{chars_of, decimal_of, opt_view, same, string_of, views};

verus! {

// ---------------------------------------------------------------------------
// Members and elements
// ---------------------------------------------------------------------------

/// Whether JSON passes over a character between values.
pub open spec fn is_json_blank(c: char) -> bool {
    c == ' ' || c == '\n' || c == '\t' || c == '\r'
}

/// `s` without the blanks it begins with.
pub open spec fn after_blanks(s: Seq<char>) -> Seq<char>
    decreases s.len(),
{
    if s.len() > 0 && is_json_blank(s[0]) {
        after_blanks(s.drop_first())
    } else {
        s
    }
}

/// The value that `s` begins with, and what follows it.
pub open spec fn value_at(s: Seq<char>) -> Option<(Seq<char>, Seq<char>)> {
    match json_head(s) {
        Some(v) => if 0 < v.len() <= s.len() {
            Some((v, after_blanks(s.skip(v.len() as int))))
        } else {
            None
        },
        None => None,
    }
}

/// The member that `s` begins with, its name and its value, and what follows it.
pub open spec fn member_at(s: Seq<char>) -> Option<(Seq<char>, Seq<char>, Seq<char>)> {
    match value_at(s) {
        Some((key, rest)) => if rest.len() > 0 && rest[0] == ':' {
            match (json_text(key, ""@), value_at(rest.drop_first())) {
                (Some(name), Some((value, after))) => Some((name, value, after)),
                _ => None,
            }
        } else {
            None
        },
        None => None,
    }
}

/// Passing over blanks never goes back.
pub proof fn lemma_after_blanks(s: Seq<char>)
    ensures
        after_blanks(s).len() <= s.len(),
    decreases s.len(),
{
    if s.len() > 0 && is_json_blank(s[0]) {
        lemma_after_blanks(s.drop_first());
    }
}

/// What follows a value, or a member, is shorter than what it began.
pub proof fn lemma_reading_advances(s: Seq<char>)
    ensures
        value_at(s) matches Some((_, rest)) ==> rest.len() < s.len(),
        member_at(s) matches Some((_, _, rest)) ==> rest.len() < s.len(),
{
    if let Some((key, rest)) = value_at(s) {
        lemma_after_blanks(s.skip(key.len() as int));
        if rest.len() > 0 {
            let t = rest.drop_first();
            if let Some((v, _)) = value_at(t) {
                lemma_after_blanks(t.skip(v.len() as int));
            }
        }
    }
}

/// A list after another, if there is one.
pub open spec fn prepended<T>(front: Seq<T>, rest: Option<Seq<T>>) -> Option<Seq<T>> {
    match rest {
        Some(r) => Some(front + r),
        None => None,
    }
}

/// The members of an object from `s` on, up to the brace that closes it.
pub open spec fn members_from(s: Seq<char>) -> Option<Seq<(Seq<char>, Seq<char>)>>
    decreases s.len(),
{
    proof {
        lemma_reading_advances(s);
    }
    match member_at(s) {
        Some((name, value, rest)) => if rest.len() > 0 && rest[0] == '}' {
            Some(seq![(name, value)])
        } else if rest.len() > 0 && rest[0] == ',' {
            prepended(seq![(name, value)], members_from(rest.drop_first()))
        } else {
            None
        },
        None => None,
    }
}

/// The elements of an array from `s` on, up to the bracket that closes it.
pub open spec fn elements_from(s: Seq<char>) -> Option<Seq<Seq<char>>>
    decreases s.len(),
{
    proof {
        lemma_reading_advances(s);
    }
    match value_at(s) {
        Some((value, rest)) => if rest.len() > 0 && rest[0] == ']' {
            Some(seq![value])
        } else if rest.len() > 0 && rest[0] == ',' {
            prepended(seq![value], elements_from(rest.drop_first()))
        } else {
            None
        },
        None => None,
    }
}

/// Whether a text is one JSON value that begins with `mark`.
pub open spec fn is_value(text: Seq<char>, mark: char) -> bool {
    &&& value_at(text) matches Some((_, rest)) && rest.len() == 0
    &&& after_blanks(text).len() > 0
    &&& after_blanks(text)[0] == mark
}

/// What stands behind the mark that a text begins with.
pub open spec fn inside(text: Seq<char>) -> Seq<char> {
    after_blanks(text).drop_first()
}

/// Whether `mark` closes an object or array before anything is in it.
pub open spec fn is_closed(s: Seq<char>, mark: char) -> bool {
    after_blanks(s).len() > 0 && after_blanks(s)[0] == mark
}

/// The members of the object a text is, if it is one.
pub open spec fn object_in(text: Seq<char>) -> Option<Seq<(Seq<char>, Seq<char>)>> {
    if !is_value(text, '{') {
        None
    } else if is_closed(inside(text), '}') {
        Some(seq![])
    } else {
        members_from(inside(text))
    }
}

/// The elements of the array a text is, if it is one.
pub open spec fn list_in(text: Seq<char>) -> Option<Seq<Seq<char>>> {
    if !is_value(text, '[') {
        None
    } else if is_closed(inside(text), ']') {
        Some(seq![])
    } else {
        elements_from(inside(text))
    }
}

// ---------------------------------------------------------------------------
// Records
// ---------------------------------------------------------------------------

/// What a record holds, as texts of JSON.
#[verifier::ext_equal]
pub enum RecordView {
    Named(Seq<(Seq<char>, Seq<char>)>),
    Listed(Seq<Seq<char>>),
}

/// The record a text is, if it is one.
pub open spec fn record_in(text: Seq<char>) -> Option<RecordView> {
    match object_in(text) {
        Some(members) => Some(RecordView::Named(members)),
        None => match list_in(text) {
            Some(elements) => Some(RecordView::Listed(elements)),
            None => None,
        },
    }
}

/// The values of the members of a name.
pub open spec fn values_named(members: Seq<(Seq<char>, Seq<char>)>, name: Seq<char>) -> Seq<
    Seq<char>,
>
    decreases members.len(),
{
    if members.len() == 0 {
        seq![]
    } else {
        let front = values_named(members.drop_last(), name);
        if members.last().0 == name {
            front.push(members.last().1)
        } else {
            front
        }
    }
}

/// Whether a record has room for `n` fields and has no more.
pub open spec fn has_at_most(r: RecordView, n: nat) -> bool {
    r matches RecordView::Listed(elements) ==> elements.len() <= n
}

/// The field of a name, which in an array stands at a place: nothing (`Some(None)`)
/// where the record lacks it, and no field at all (`None`) where it is there twice.
pub open spec fn field_of(r: RecordView, place: int, name: Seq<char>) -> Option<Option<Seq<char>>> {
    match r {
        RecordView::Named(members) => {
            let values = values_named(members, name);
            if values.len() == 0 {
                Some(None)
            } else if values.len() == 1 {
                Some(Some(values[0]))
            } else {
                None
            }
        },
        RecordView::Listed(elements) => if place < elements.len() {
            Some(Some(elements[place]))
        } else {
            Some(None)
        },
    }
}

/// What a record holds, as texts of JSON.
#[derive(Debug)]
pub enum Record {
    Named(Vec<(String, String)>),
    Listed(Vec<String>),
}

/// Members as plain text.
pub open spec fn member_views(v: Seq<(String, String)>) -> Seq<(Seq<char>, Seq<char>)> {
    Seq::new(v.len(), |i: int| (v[i].0@, v[i].1@))
}

impl View for Record {
    type V = RecordView;

    open spec fn view(&self) -> RecordView {
        match *self {
            Record::Named(members) => RecordView::Named(member_views(members@)),
            Record::Listed(elements) => RecordView::Listed(views(elements@)),
        }
    }
}

/// A record that may be missing, as plain text.
pub open spec fn opt_record(r: Option<Record>) -> Option<RecordView> {
    match r {
        Some(x) => Some(x@),
        None => None,
    }
}

// ---------------------------------------------------------------------------
// What was written
// ---------------------------------------------------------------------------

/// Whether a value is one that the ledger writes: a string in compact form or a
/// number.
pub open spec fn is_scalar(v: Seq<char>) -> bool {
    ||| exists|x: Seq<char>| v == #[trigger] json_string(x)
    ||| exists|n: nat| n <= u32::MAX && v == #[trigger] decimal_of(n)
}

/// Whether there are members, each with a value that the ledger writes.
pub open spec fn are_scalar(members: Seq<(Seq<char>, Seq<char>)>) -> bool {
    members.len() > 0 && forall|i: int|
        0 <= i < members.len() ==> is_scalar((#[trigger] members[i]).1)
}

/// Members in compact form, with the brace that closes them.
pub open spec fn written(members: Seq<(Seq<char>, Seq<char>)>) -> Seq<char>
    decreases members.len(),
{
    if members.len() == 0 {
        seq![]
    } else {
        let tail = if members.len() == 1 {
            seq!['}']
        } else {
            seq![','] + written(members.drop_first())
        };
        json_string(members[0].0) + (seq![':'] + (members[0].1 + tail))
    }
}

/// What follows the first member in compact form.
pub open spec fn written_tail(members: Seq<(Seq<char>, Seq<char>)>) -> Seq<char> {
    if members.len() == 1 {
        seq!['}']
    } else {
        seq![','] + written(members.drop_first())
    }
}

/// The members of a ledger line.
pub open spec fn entry_members(v: nat, id: Seq<char>, code: Seq<char>) -> Seq<
    (Seq<char>, Seq<char>),
> {
    seq![("v"@, decimal_of(v)), ("id"@, json_string(id)), ("code"@, json_string(code))]
}

/// A ledger line that was written for an entry is read as that entry's members.
pub open spec fn recovers(text: Seq<char>) -> bool {
    forall|v: nat, id: Seq<char>, code: Seq<char>|
        v <= u32::MAX && text == #[trigger] entry_text(v, id, code) ==> record_in(text) == Some(
            RecordView::Named(entry_members(v, id, code)),
        )
}

/// A ledger line that was cut short is no record.
pub open spec fn forgets(text: Seq<char>) -> bool {
    forall|v: nat, id: Seq<char>, code: Seq<char>, k: int|
        0 <= k < entry_text(v, id, code).len() && text == #[trigger] entry_text(v, id, code).take(k)
            ==> record_in(text) is None
}

proof fn lemma_plain_name(name: Seq<char>)
    requires
        forall|i: int|
            0 <= i < name.len() ==> 'a' <= #[trigger] name[i] && name[i] <= 'z',
    ensures
        crate::json::json_contents(name) == name,
    decreases name.len(),
{
    if name.len() > 0 {
        lemma_plain_name(name.drop_last());
        assert(crate::json::json_escaped(name.last()) =~= seq![name.last()]);
        assert(name.drop_last() + seq![name.last()] =~= name);
    }
}

#[verifier::rlimit(60)]
#[verifier::spinoff_prover]
proof fn lemma_entry_is_written(v: nat, id: Seq<char>, code: Seq<char>)
    requires
        v <= u32::MAX,
    ensures
        entry_text(v, id, code) == seq!['{'] + written(entry_members(v, id, code)),
        are_scalar(entry_members(v, id, code)),
{
    reveal_strlit("{\"v\":");
    reveal_strlit(",\"id\":");
    reveal_strlit(",\"code\":");
    reveal_strlit("}");
    reveal_strlit("v");
    reveal_strlit("id");
    reveal_strlit("code");
    lemma_plain_name("v"@);
    lemma_plain_name("id"@);
    lemma_plain_name("code"@);
    let m = entry_members(v, id, code);
    let m1 = m.drop_first();
    let m2 = m1.drop_first();
    assert(m1[0] == ("id"@, json_string(id)));
    assert(m2[0] == ("code"@, json_string(code)));
    assert(written(m2) == json_string("code"@) + (seq![':'] + (json_string(code) + seq!['}'])));
    assert(written(m1) == json_string("id"@) + (seq![':'] + (json_string(id) + (seq![',']
        + written(m2)))));
    assert(written(m) == json_string("v"@) + (seq![':'] + (decimal_of(v) + (seq![','] + written(
        m1,
    )))));
    assert("{\"v\":"@ =~= seq!['{'] + json_string("v"@) + seq![':']);
    assert(",\"id\":"@ =~= seq![','] + json_string("id"@) + seq![':']);
    assert(",\"code\":"@ =~= seq![','] + json_string("code"@) + seq![':']);
    assert("}"@ =~= seq!['}']);
    assert(entry_text(v, id, code) =~= seq!['{'] + written(m));
    assert(is_scalar(decimal_of(v)));
    assert(is_scalar(json_string(id)));
    assert(is_scalar(json_string(code)));
}

// ---------------------------------------------------------------------------
// Reading
// ---------------------------------------------------------------------------

fn skip_blanks(s: &str) -> (r: String)
    ensures
        r@ == after_blanks(s@),
{
    let v = chars_of(s);
    let n: usize = v.len();
    let mut i: usize = 0;
    proof {
        assert(s@.skip(0) =~= s@);
    }
    while i < n && (v[i] == ' ' || v[i] == '\n' || v[i] == '\t' || v[i] == '\r')
        invariant
            n == v@.len(),
            v@ == s@,
            i <= n,
            after_blanks(s@) == after_blanks(s@.skip(i as int)),
        decreases n - i,
    {
        proof {
            assert(s@.skip(i as int)[0] == s@[i as int]);
            assert(s@.skip(i as int).drop_first() =~= s@.skip(i + 1));
        }
        i = i + 1;
    }
    proof {
        let t = s@.skip(i as int);
        if i < n {
            assert(t[0] == s@[i as int]);
        }
        assert(t =~= s@.subrange(i as int, n as int));
    }
    string_of(&v, i, n)
}

/// The first character and the others.
fn take_mark(s: &str) -> (r: Option<(char, String)>)
    ensures
        match r {
            Some((c, rest)) => s@.len() > 0 && c == s@[0] && rest@ == s@.drop_first(),
            None => s@.len() == 0,
        },
{
    let v = chars_of(s);
    if v.len() == 0 {
        return None;
    }
    proof {
        assert(v@.subrange(1, v@.len() as int) =~= s@.drop_first());
    }
    Some((v[0], string_of(&v, 1, v.len())))
}

fn read_value(s: &str) -> (r: Option<(String, String)>)
    ensures
        match r {
            Some((v, rest)) => value_at(s@) == Some((v@, rest@)) && rest@.len() < s@.len(),
            None => value_at(s@) is None,
        },
        forall|x: Seq<char>, rest: Seq<char>|
            s@ == #[trigger] (json_string(x) + rest) ==> json_head(s@) == Some(json_string(x)),
        forall|n: nat, rest: Seq<char>|
            n <= u32::MAX && ends_number(rest) && s@ == #[trigger] (decimal_of(n) + rest)
                ==> json_head(s@) == Some(decimal_of(n)),
        forall|v: nat, id: Seq<char>, code: Seq<char>|
            s@ == #[trigger] entry_text(v, id, code) ==> json_head(s@) == Some(s@),
        forall|v: nat, id: Seq<char>, code: Seq<char>, k: int|
            0 <= k < entry_text(v, id, code).len() && s@ == #[trigger] entry_text(
                v,
                id,
                code,
            ).take(k) ==> json_head(s@) is None,
{
    match json_split(s) {
        Some((head, rest)) => {
            proof {
                assert(s@.skip(head@.len() as int) =~= rest@);
                lemma_after_blanks(rest@);
            }
            Some((head, skip_blanks(rest.as_str())))
        },
        None => None,
    }
}

/// What was written for some members begins with the first of them.
spec fn reads_first(s: Seq<char>) -> bool {
    forall|g: Seq<(Seq<char>, Seq<char>)>|
        are_scalar(g) && s == #[trigger] written(g) ==> member_at(s) == Some(
            (g[0].0, g[0].1, written_tail(g)),
        )
}

fn read_member(s: &str) -> (r: Option<(String, String, String)>)
    ensures
        match r {
            Some((name, value, rest)) => member_at(s@) == Some((name@, value@, rest@))
                && rest@.len() < s@.len(),
            None => member_at(s@) is None,
        },
        reads_first(s@),
{
    let split = read_value(s);
    proof {
        assert forall|g: Seq<(Seq<char>, Seq<char>)>|
            are_scalar(g) && s@ == #[trigger] written(g) implies json_head(s@) == Some(
            json_string(g[0].0),
        ) && value_at(s@) == Some(
            (json_string(g[0].0), seq![':'] + (g[0].1 + written_tail(g))),
        ) by {
            let rest = seq![':'] + (g[0].1 + written_tail(g));
            let key = json_string(g[0].0);
            assert(s@ == key + rest);
            assert(s@.skip(key.len() as int) =~= rest);
            assert(rest[0] == ':');
        }
    }
    let (key, rest) = match split {
        Some(p) => p,
        None => {
            return None;
        },
    };
    let (mark, behind) = match take_mark(rest.as_str()) {
        Some(p) => p,
        None => {
            return None;
        },
    };
    if mark != ':' {
        return None;
    }
    let name = json_text_at(key.as_str(), "");
    let found = read_value(behind.as_str());
    proof {
        assert forall|g: Seq<(Seq<char>, Seq<char>)>|
            are_scalar(g) && s@ == #[trigger] written(g) implies member_at(s@) == Some(
            (g[0].0, g[0].1, written_tail(g)),
        ) by {
            let (v, tail) = (g[0].1, written_tail(g));
            assert(behind@ =~= v + tail);
            assert(is_scalar(g[0].1));
            assert(ends_number(tail));
            if exists|x: Seq<char>| v == #[trigger] json_string(x) {
                let x = choose|x: Seq<char>| v == #[trigger] json_string(x);
                assert(behind@ == json_string(x) + tail);
            } else {
                let n = choose|n: nat| n <= u32::MAX && v == #[trigger] decimal_of(n);
                assert(behind@ == decimal_of(n) + tail);
            }
            assert(json_head(behind@) == Some(v));
            assert(v.len() > 0) by {
                if let Some((value, _)) = found {
                    assert(value@.len() > 0);
                }
            }
            assert(behind@.skip(v.len() as int) =~= tail);
            assert(after_blanks(tail) == tail);
        }
    }
    match (name, found) {
        (Some(name), Some((value, after))) => Some((name, value, after)),
        _ => None,
    }
}

proof fn lemma_prepended<T>(a: Seq<T>, x: T, rest: Option<Seq<T>>)
    ensures
        prepended(a, prepended(seq![x], rest)) == prepended(a.push(x), rest),
{
    if let Some(r) = rest {
        assert(a + (seq![x] + r) =~= a.push(x) + r);
    }
}

fn read_members(s: &str) -> (r: Option<Vec<(String, String)>>)
    ensures
        match r {
            Some(v) => members_from(s@) == Some(member_views(v@)),
            None => members_from(s@) is None,
        },
        forall|g: Seq<(Seq<char>, Seq<char>)>|
            are_scalar(g) && s@ == #[trigger] written(g) ==> members_from(s@) == Some(g),
{
    let mut done: Vec<(String, String)> = Vec::new();
    let mut left = crate::text::owned(s);
    proof {
        let none = Seq::<(Seq<char>, Seq<char>)>::empty();
        assert(member_views(done@) =~= none);
        if let Some(all) = members_from(s@) {
            assert(none + all =~= all);
        }
        assert forall|g: Seq<(Seq<char>, Seq<char>)>|
            are_scalar(g) && s@ == #[trigger] written(g) implies is_part_way(
            g,
            member_views(done@),
            left@,
        ) by {
            assert(g.take(0) =~= none);
            assert(g.skip(0) =~= g);
        }
    }
    loop
        invariant
            members_from(s@) == prepended(member_views(done@), members_from(left@)),
            forall|g: Seq<(Seq<char>, Seq<char>)>|
                are_scalar(g) && s@ == #[trigger] written(g) ==> is_part_way(
                    g,
                    member_views(done@),
                    left@,
                ),
        decreases left@.len(),
    {
        let ghost before = member_views(done@);
        let ghost here = left@;
        let step = read_member(left.as_str());
        proof {
            assert forall|g: Seq<(Seq<char>, Seq<char>)>|
                are_scalar(g) && s@ == #[trigger] written(g) implies member_at(here) == Some(
                (
                    g[before.len() as int].0,
                    g[before.len() as int].1,
                    written_tail(g.skip(before.len() as int)),
                ),
            ) by {
                lemma_part_way(g, before, here);
            }
        }
        let (name, value, rest) = match step {
            Some(p) => p,
            None => {
                return None;
            },
        };
        let mark = take_mark(rest.as_str());
        let ghost pair = (name@, value@);
        done.push((name, value));
        proof {
            assert(member_views(done@) =~= before.push(pair));
            assert forall|g: Seq<(Seq<char>, Seq<char>)>|
                are_scalar(g) && s@ == #[trigger] written(g) implies before.push(pair) == g.take(
                (before.len() + 1) as int,
            ) && rest@ == written_tail(g.skip(before.len() as int)) && rest@.len() > 0 && (rest@[0]
                == '}' || rest@[0] == ',') && (rest@[0] == '}' <==> before.len() + 1 == g.len()) by {
                assert(is_part_way(g, before, here));
                assert(g.take((before.len() + 1) as int) =~= g.take(before.len() as int).push(
                    g[before.len() as int],
                ));
            }
        }
        match mark {
            Some(('}', _)) => {
                proof {
                    assert(before + seq![pair] =~= before.push(pair));
                    assert forall|g: Seq<(Seq<char>, Seq<char>)>|
                        are_scalar(g) && s@ == #[trigger] written(g) implies members_from(s@)
                        == Some(g) by {
                        assert(g.take(g.len() as int) =~= g);
                    }
                }
                return Some(done);
            },
            Some((',', behind)) => {
                proof {
                    lemma_prepended(before, pair, members_from(behind@));
                    assert forall|g: Seq<(Seq<char>, Seq<char>)>|
                        are_scalar(g) && s@ == #[trigger] written(g) implies is_part_way(
                        g,
                        before.push(pair),
                        behind@,
                    ) by {
                        let h = g.skip(before.len() as int);
                        assert(h.drop_first() =~= g.skip((before.len() + 1) as int));
                        assert(rest@.drop_first() =~= written(h.drop_first()));
                    }
                }
                left = behind;
            },
            _ => {
                return None;
            },
        }
    }
}

/// Whether the members `done` are the first of `g`, and `left` is what was written
/// for the others.
spec fn is_part_way(
    g: Seq<(Seq<char>, Seq<char>)>,
    done: Seq<(Seq<char>, Seq<char>)>,
    left: Seq<char>,
) -> bool {
    done.len() < g.len() && done == g.take(done.len() as int) && left == written(
        g.skip(done.len() as int),
    )
}

proof fn lemma_part_way(
    g: Seq<(Seq<char>, Seq<char>)>,
    done: Seq<(Seq<char>, Seq<char>)>,
    left: Seq<char>,
)
    requires
        are_scalar(g),
        is_part_way(g, done, left),
        reads_first(left),
    ensures
        member_at(left) == Some(
            (
                g[done.len() as int].0,
                g[done.len() as int].1,
                written_tail(g.skip(done.len() as int)),
            ),
        ),
{
    let h = g.skip(done.len() as int);
    assert(h[0] == g[done.len() as int]);
    assert forall|i: int| 0 <= i < h.len() implies is_scalar((#[trigger] h[i]).1) by {
        assert(h[i] == g[i + done.len()]);
    }
}

fn read_elements(s: &str) -> (r: Option<Vec<String>>)
    ensures
        match r {
            Some(v) => elements_from(s@) == Some(views(v@)),
            None => elements_from(s@) is None,
        },
{
    let mut done: Vec<String> = Vec::new();
    let mut left = crate::text::owned(s);
    proof {
        let none = Seq::<Seq<char>>::empty();
        assert(views(done@) =~= none);
        if let Some(all) = elements_from(s@) {
            assert(none + all =~= all);
        }
    }
    loop
        invariant
            elements_from(s@) == prepended(views(done@), elements_from(left@)),
        decreases left@.len(),
    {
        let ghost before = views(done@);
        let (value, rest) = match read_value(left.as_str()) {
            Some(p) => p,
            None => {
                return None;
            },
        };
        let ghost element = value@;
        done.push(value);
        proof {
            assert(views(done@) =~= before.push(element));
            assert(before + seq![element] =~= before.push(element));
        }
        match take_mark(rest.as_str()) {
            Some((']', _)) => {
                return Some(done);
            },
            Some((',', behind)) => {
                proof {
                    lemma_prepended(before, element, elements_from(behind@));
                }
                left = behind;
            },
            _ => {
                return None;
            },
        }
    }
}

/// What stands behind `mark`, where a text is one JSON value that begins with it.
fn open_value(text: &str, mark: char) -> (r: Option<String>)
    ensures
        match r {
            Some(s) => is_value(text@, mark) && s@ == inside(text@),
            None => !is_value(text@, mark),
        },
        forall|v: nat, id: Seq<char>, code: Seq<char>|
            text@ == #[trigger] entry_text(v, id, code) ==> value_at(text@) == Some(
                (text@, Seq::<char>::empty()),
            ),
        forall|v: nat, id: Seq<char>, code: Seq<char>, k: int|
            0 <= k < entry_text(v, id, code).len() && text@ == #[trigger] entry_text(
                v,
                id,
                code,
            ).take(k) ==> value_at(text@) is None,
{
    let split = read_value(text);
    proof {
        assert(text@.skip(text@.len() as int) =~= Seq::<char>::empty());
    }
    let whole = match split {
        Some((_, rest)) => rest.as_str().unicode_len() == 0,
        None => false,
    };
    match take_mark(skip_blanks(text).as_str()) {
        Some((c, behind)) => if whole && c == mark {
            Some(behind)
        } else {
            None
        },
        None => None,
    }
}

fn closes(s: &str, mark: char) -> (r: bool)
    ensures
        r == is_closed(s@, mark),
{
    match take_mark(skip_blanks(s).as_str()) {
        Some((c, _)) => c == mark,
        None => false,
    }
}

/// The elements of the array a text is, if it is one.
pub fn read_list(text: &str) -> (r: Option<Vec<String>>)
    ensures
        match r {
            Some(v) => list_in(text@) == Some(views(v@)),
            None => list_in(text@) is None,
        },
{
    match open_value(text, '[') {
        Some(s) => if closes(s.as_str(), ']') {
            let none: Vec<String> = Vec::new();
            proof {
                assert(views(none@) =~= Seq::<Seq<char>>::empty());
            }
            Some(none)
        } else {
            read_elements(s.as_str())
        },
        None => None,
    }
}

fn read_object(text: &str) -> (r: Option<Vec<(String, String)>>)
    ensures
        match r {
            Some(v) => object_in(text@) == Some(member_views(v@)),
            None => object_in(text@) is None,
        },
        forall|v: nat, id: Seq<char>, code: Seq<char>|
            v <= u32::MAX && text@ == #[trigger] entry_text(v, id, code) ==> object_in(text@)
                == Some(entry_members(v, id, code)),
        forall|v: nat, id: Seq<char>, code: Seq<char>, k: int|
            0 <= k < entry_text(v, id, code).len() && text@ == #[trigger] entry_text(
                v,
                id,
                code,
            ).take(k) ==> value_at(text@) is None,
{
    let opened = open_value(text, '{');
    proof {
        assert forall|v: nat, id: Seq<char>, code: Seq<char>|
            v <= u32::MAX && text@ == #[trigger] entry_text(v, id, code) implies is_value(
            text@,
            '{',
        ) && inside(text@) == written(entry_members(v, id, code)) && !is_closed(
            inside(text@),
            '}',
        ) by {
            lemma_entry_is_written(v, id, code);
            let w = written(entry_members(v, id, code));
            assert(text@[0] == '{');
            assert(after_blanks(text@) == text@);
            assert(inside(text@) =~= w);
            assert(w[0] == '"');
        }
    }
    match opened {
        Some(s) => if closes(s.as_str(), '}') {
            let none: Vec<(String, String)> = Vec::new();
            proof {
                assert(member_views(none@) =~= Seq::<(Seq<char>, Seq<char>)>::empty());
            }
            Some(none)
        } else {
            let found = read_members(s.as_str());
            proof {
                assert forall|v: nat, id: Seq<char>, code: Seq<char>|
                    v <= u32::MAX && text@ == #[trigger] entry_text(v, id, code) implies object_in(
                    text@,
                ) == Some(entry_members(v, id, code)) by {
                    lemma_entry_is_written(v, id, code);
                }
            }
            found
        },
        None => None,
    }
}

impl Record {
    /// The record a text is, if it is one. A ledger line is read as it was
    /// written, and not at all when it was cut short.
    pub fn read(text: &str) -> (r: Option<Record>)
        ensures
            opt_record(r) == record_in(text@),
            recovers(text@),
            forgets(text@),
    {
        match read_object(text) {
            Some(members) => Some(Record::Named(members)),
            None => match read_list(text) {
                Some(elements) => Some(Record::Listed(elements)),
                None => None,
            },
        }
    }

    /// Whether the record has room for `n` fields and has no more.
    pub fn fits(&self, n: usize) -> (r: bool)
        ensures
            r == has_at_most(self@, n as nat),
    {
        match self {
            Record::Named(_) => true,
            Record::Listed(elements) => elements.len() <= n,
        }
    }

    /// The field of a name, which in an array stands at `place`. There is none at
    /// all where the record has it twice.
    pub fn field(&self, place: usize, name: &str) -> (r: Option<Option<String>>)
        ensures
            match r {
                Some(v) => field_of(self@, place as int, name@) == Some(opt_view(v)),
                None => field_of(self@, place as int, name@) is None,
            },
    {
        match self {
            Record::Named(members) => {
                let ghost all = member_views(members@);
                let mut values: Vec<String> = Vec::new();
                let mut i: usize = 0;
                proof {
                    assert(all.take(0) =~= Seq::<(Seq<char>, Seq<char>)>::empty());
                    assert(views(values@) =~= Seq::<Seq<char>>::empty());
                }
                while i < members.len()
                    invariant
                        i <= members@.len(),
                        all == member_views(members@),
                        views(values@) == values_named(all.take(i as int), name@),
                    decreases members.len() - i,
                {
                    proof {
                        assert(all.take(i + 1).drop_last() =~= all.take(i as int));
                        assert(all.take(i + 1).last() == all[i as int]);
                    }
                    if same(members[i].0.as_str(), name) {
                        let value = members[i].1.clone();
                        proof {
                            assert(views(values@.push(value)) =~= views(values@).push(value@));
                        }
                        values.push(value);
                    }
                    i = i + 1;
                }
                proof {
                    assert(all.take(members@.len() as int) =~= all);
                    assert(views(values@).len() == values@.len());
                    if values@.len() == 1 {
                        assert(views(values@)[0] == values@[0]@);
                        assert(values@.last() == values@[0]);
                    }
                }
                if values.len() > 1 {
                    None
                } else {
                    Some(values.pop())
                }
            },
            Record::Listed(elements) => if place < elements.len() {
                proof {
                    assert(views(elements@)[place as int] == elements@[place as int]@);
                }
                Some(Some(elements[place].clone()))
            } else {
                Some(None)
            },
        }
    }
}

} // verus!
