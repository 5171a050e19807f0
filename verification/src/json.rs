//! The JSON this crate reads and writes, one text at a time.
use vstd::prelude::*;

use crate::text::{decimal, decimal_of, opt_view, owned};

verus! {

/// A hexadecimal digit in lower case.
pub open spec fn hex_digit(d: int) -> char {
    if d < 10 {
        (48 + d) as char
    } else {
        (87 + d) as char
    }
}

/// A character as it stands inside a JSON string.
pub open spec fn json_escaped(c: char) -> Seq<char> {
    let u = c as u32;
    if c == '"' {
        seq!['\\', '"']
    } else if c == '\\' {
        seq!['\\', '\\']
    } else if c == '\n' {
        seq!['\\', 'n']
    } else if c == '\r' {
        seq!['\\', 'r']
    } else if c == '\t' {
        seq!['\\', 't']
    } else if u == 0x08 {
        seq!['\\', 'b']
    } else if u == 0x0c {
        seq!['\\', 'f']
    } else if u < 0x20 {
        seq!['\\', 'u', '0', '0', hex_digit(u as int / 16), hex_digit(u as int % 16)]
    } else {
        seq![c]
    }
}

/// The characters of `s` as they stand inside a JSON string.
pub open spec fn json_contents(s: Seq<char>) -> Seq<char>
    decreases s.len(),
{
    if s.len() == 0 {
        seq![]
    } else {
        json_contents(s.drop_last()) + json_escaped(s.last())
    }
}

/// `s` as a JSON string.
pub open spec fn json_string(s: Seq<char>) -> Seq<char> {
    seq!['"'] + json_contents(s) + seq!['"']
}

/// One recorded answer as a line of the ledger: a JSON object with the schema
/// version, the hole and the code.
pub open spec fn entry_text(v: nat, id: Seq<char>, code: Seq<char>) -> Seq<char> {
    "{\"v\":"@ + decimal_of(v) + ",\"id\":"@ + json_string(id) + ",\"code\":"@ + json_string(code)
        + "}"@
}

/// The first part of a text that was split, if it was.
pub open spec fn split_head(parts: Option<(String, String)>) -> Option<Seq<char>> {
    match parts {
        Some((head, _)) => Some(head@),
        None => None,
    }
}

/// Whether a text, if it was split, was split into these two parts, and the first
/// is not empty.
pub open spec fn is_split(parts: Option<(String, String)>, text: Seq<char>) -> bool {
    match parts {
        Some((head, rest)) => head@.len() > 0 && text == head@ + rest@,
        None => true,
    }
}

/// Whether a text begins with what ends a number in an object: a comma or the
/// closing brace.
pub open spec fn ends_number(s: Seq<char>) -> bool {
    s.len() > 0 && (s[0] == ',' || s[0] == '}')
}

/// Whether a text is one JSON value.
pub uninterp spec fn json_valid(text: Seq<char>) -> bool;

/// The JSON value that a text begins with, with the blanks before it.
pub uninterp spec fn json_head(text: Seq<char>) -> Option<Seq<char>>;

/// The string a JSON text has at a JSON Pointer, if it has one there.
pub uninterp spec fn json_text(text: Seq<char>, pointer: Seq<char>) -> Option<Seq<char>>;

/// The unsigned 64-bit number a JSON text is, if it is one.
pub uninterp spec fn json_number(text: Seq<char>) -> Option<u64>;

/// The truth value a JSON text is, if it is one.
pub uninterp spec fn json_bool(text: Seq<char>) -> Option<bool>;

/// Whether a JSON text is `null`.
pub uninterp spec fn json_null(text: Seq<char>) -> bool;

/// The compact form `serde_json` gives a string: in double quotes, with the
/// quote, the backslash and the control characters escaped.
#[verifier::external_body]
pub(crate) fn json_quote(s: &str) -> (r: String)
    ensures
        r@ == json_string(s@),
{
    serde_json::Value::from(s).to_string()
}

/// `serde_json::from_str` into a `Value`: whether it succeeds is a function of
/// the text.
#[verifier::external_body]
pub(crate) fn is_json(text: &str) -> (r: bool)
    ensures
        r == json_valid(text@),
{
    serde_json::from_str::<serde_json::Value>(text).is_ok()
}

/// `serde_json`'s `StreamDeserializer`, asked for one value that is passed over,
/// and its `byte_offset`: the value that the text begins with, and the rest. Where
/// that value ends is a function of the text. A string in compact form ends with
/// its closing quote, a number where a comma or a brace follows. A ledger line is
/// one value, and one that was cut short begins with none.
#[verifier::external_body]
pub(crate) fn json_split(text: &str) -> (r: Option<(String, String)>)
    ensures
        split_head(r) == json_head(text@),
        is_split(r, text@),
        forall|x: Seq<char>, rest: Seq<char>|
            text@ == #[trigger] (json_string(x) + rest) ==> split_head(r) == Some(json_string(x)),
        forall|n: nat, rest: Seq<char>|
            n <= u32::MAX && ends_number(rest) && text@ == #[trigger] (decimal_of(n) + rest)
                ==> split_head(r) == Some(decimal_of(n)),
        forall|v: nat, id: Seq<char>, code: Seq<char>|
            text@ == #[trigger] entry_text(v, id, code) ==> split_head(r) == Some(text@),
        forall|v: nat, id: Seq<char>, code: Seq<char>, k: int|
            0 <= k < entry_text(v, id, code).len() && text@ == #[trigger] entry_text(
                v,
                id,
                code,
            ).take(k) ==> r is None,
{
    let reader = serde_json::Deserializer::from_str(text);
    let mut values = reader.into_iter::<serde::de::IgnoredAny>();
    values.next()?.ok()?;
    let (head, rest) = text.split_at(values.byte_offset());
    Some((head.to_string(), rest.to_string()))
}

/// `serde_json::from_str` into a `Value`, then `Value::pointer` and
/// `Value::as_str`: a function of the text and the pointer. A string in compact
/// form, looked at as a whole, gives back what it was written for.
#[verifier::external_body]
pub(crate) fn json_text_at(text: &str, pointer: &str) -> (r: Option<String>)
    ensures
        opt_view(r) == json_text(text@, pointer@),
        forall|x: Seq<char>|
            pointer@ == ""@ && text@ == #[trigger] json_string(x) ==> opt_view(r) == Some(x),
{
    let value: serde_json::Value = serde_json::from_str(text).ok()?;
    value.pointer(pointer)?.as_str().map(|s| s.to_string())
}

/// `serde_json::from_str` into a `Value`, then `Value::as_u64`: a function of the
/// text. A number in decimal gives itself back.
#[verifier::external_body]
pub(crate) fn as_number(text: &str) -> (r: Option<u64>)
    ensures
        r == json_number(text@),
        forall|n: nat|
            n <= u64::MAX && text@ == #[trigger] decimal_of(n) ==> r == Some(n as u64),
{
    let value: serde_json::Value = serde_json::from_str(text).ok()?;
    value.as_u64()
}

/// `serde_json::from_str` into a `Value`, then `Value::as_bool`: a function of the
/// text.
#[verifier::external_body]
pub(crate) fn as_bool(text: &str) -> (r: Option<bool>)
    ensures
        r == json_bool(text@),
{
    let value: serde_json::Value = serde_json::from_str(text).ok()?;
    value.as_bool()
}

/// `serde_json::from_str` into a `Value`: whether it gives `Value::Null` is a
/// function of the text.
#[verifier::external_body]
pub(crate) fn is_null(text: &str) -> (r: bool)
    ensures
        r == json_null(text@),
{
    matches!(serde_json::from_str(text), Ok(serde_json::Value::Null))
}

proof fn lemma_contents_have_no_control(s: Seq<char>)
    ensures
        forall|i: int| 0 <= i < json_contents(s).len() ==> #[trigger] json_contents(s)[i] as u32
            >= 0x20,
    decreases s.len(),
{
    if s.len() > 0 {
        lemma_contents_have_no_control(s.drop_last());
        let front = json_contents(s.drop_last());
        let back = json_escaped(s.last());
        let u = s.last() as u32;
        if u < 0x20 {
            assert(0 <= u as int / 16 < 16 && 0 <= u as int % 16 < 16);
        }
        assert forall|i: int| 0 <= i < back.len() implies #[trigger] back[i] as u32 >= 0x20 by {}
        assert forall|i: int| 0 <= i < (front + back).len() implies #[trigger] (front + back)[i] as u32
            >= 0x20 by {
            if i < front.len() {
                assert((front + back)[i] == front[i]);
            } else {
                assert((front + back)[i] == back[i - front.len()]);
            }
        }
    }
}

proof fn lemma_decimal_has_no_control(n: nat)
    ensures
        forall|i: int| 0 <= i < decimal_of(n).len() ==> #[trigger] decimal_of(n)[i] as u32 >= 0x20,
    decreases n,
{
    let d = decimal_of(n);
    if n >= 10 {
        lemma_decimal_has_no_control(n / 10);
        let front = decimal_of(n / 10);
        assert forall|i: int| 0 <= i < d.len() implies #[trigger] d[i] as u32 >= 0x20 by {
            if i < front.len() {
                assert(d[i] == front[i]);
            }
        }
    } else {
        assert forall|i: int| 0 <= i < d.len() implies #[trigger] d[i] as u32 >= 0x20 by {}
    }
}

/// Whether `s` has no control character.
pub open spec fn control_free(s: Seq<char>) -> bool {
    forall|i: int| 0 <= i < s.len() ==> #[trigger] s[i] as u32 >= 0x20
}

proof fn lemma_control_free_concat(a: Seq<char>, b: Seq<char>)
    requires
        control_free(a),
        control_free(b),
    ensures
        control_free(a + b),
{
    assert forall|i: int| 0 <= i < (a + b).len() implies #[trigger] (a + b)[i] as u32 >= 0x20 by {
        if i < a.len() {
            assert((a + b)[i] == a[i]);
        } else {
            assert((a + b)[i] == b[i - a.len()]);
        }
    }
}

proof fn lemma_json_string_control_free(s: Seq<char>)
    ensures
        control_free(json_string(s)),
{
    lemma_contents_have_no_control(s);
    lemma_control_free_concat(seq!['"'], json_contents(s));
    lemma_control_free_concat(seq!['"'] + json_contents(s), seq!['"']);
}

/// A ledger line is one line, and ends in a brace.
pub proof fn lemma_entry_is_one_line(v: nat, id: Seq<char>, code: Seq<char>)
    ensures
        control_free(entry_text(v, id, code)),
        entry_text(v, id, code).len() > 0,
        entry_text(v, id, code).last() == '}',
        entry_text(v, id, code)[0] == '{',
{
    reveal_strlit("{\"v\":");
    reveal_strlit(",\"id\":");
    reveal_strlit(",\"code\":");
    reveal_strlit("}");
    let a = "{\"v\":"@;
    let b = decimal_of(v);
    let c = ",\"id\":"@;
    let d = json_string(id);
    let e = ",\"code\":"@;
    let f = json_string(code);
    let g = "}"@;
    assert(control_free(a));
    assert(control_free(c));
    assert(control_free(e));
    assert(control_free(g));
    lemma_decimal_has_no_control(v);
    lemma_json_string_control_free(id);
    lemma_json_string_control_free(code);
    lemma_control_free_concat(a, b);
    lemma_control_free_concat(a + b, c);
    lemma_control_free_concat(a + b + c, d);
    lemma_control_free_concat(a + b + c + d, e);
    lemma_control_free_concat(a + b + c + d + e, f);
    lemma_control_free_concat(a + b + c + d + e + f, g);
    assert(a[0] == '{');
    assert(g.last() == '}');
    assert(entry_text(v, id, code)[0] == a[0]);
}

/// One recorded answer as a line of the ledger, without its line end.
pub fn write_entry(v: u32, id: &str, code: &str) -> (r: String)
    ensures
        r@ == entry_text(v as nat, id@, code@),
{
    let mut line = owned("{\"v\":");
    line.push_str(decimal(v as u64).as_str());
    line.push_str(",\"id\":");
    line.push_str(json_quote(id).as_str());
    line.push_str(",\"code\":");
    line.push_str(json_quote(code).as_str());
    line.push_str("}");
    line
}

} // verus!
