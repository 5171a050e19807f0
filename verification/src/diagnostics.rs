//! Reading the messages of `cargo check --message-format=json`.
use vstd::prelude::*;
use vstd::utf8::encode_utf8;

use crate::json::{
    as_bool, as_number, is_null, json_bool, json_null, json_number, json_text, json_text_at,
};
use crate::prober::{Diagnostic, Span};
use crate::record::{field_of, has_at_most, list_in, read_list, record_in, Record};
use crate::text::{
    begins, lines, lines_of, opt_view, owned, same, starts_with, trim, trim_of, views,
};

verus! {

/// One message of the stream, reduced to what the probe needs.
#[derive(Debug)]
pub struct RawMessage {
    pub reason: String,
    pub message: Option<RawDiagnostic>,
}

/// The diagnostic in a message. A code may be there and empty.
#[derive(Debug)]
pub struct RawDiagnostic {
    pub message: String,
    pub level: String,
    pub code: Option<String>,
    pub spans: Vec<Span>,
}

/// A span as plain text and numbers.
#[verifier::ext_equal]
pub struct SpanView {
    pub file_name: Seq<char>,
    pub byte_start: usize,
    pub byte_end: usize,
    pub is_primary: bool,
    pub label: Option<Seq<char>>,
}

/// A diagnostic as plain text and numbers.
#[verifier::ext_equal]
pub struct DiagnosticView {
    pub code: Option<Seq<char>>,
    pub level: Seq<char>,
    pub message: Seq<char>,
    pub spans: Seq<SpanView>,
}

/// A span as plain text and numbers.
pub open spec fn span_view(s: Span) -> SpanView {
    SpanView {
        file_name: s.file_name@,
        byte_start: s.byte_start,
        byte_end: s.byte_end,
        is_primary: s.is_primary,
        label: opt_view(s.label),
    }
}

/// Spans as plain text and numbers.
pub open spec fn span_views(spans: Seq<Span>) -> Seq<SpanView> {
    Seq::new(spans.len(), |i: int| span_view(spans[i]))
}

/// A diagnostic as plain text and numbers.
pub open spec fn diagnostic_view(d: Diagnostic) -> DiagnosticView {
    DiagnosticView {
        code: opt_view(d.code),
        level: d.level@,
        message: d.message@,
        spans: span_views(d.spans@),
    }
}

/// Diagnostics as plain text and numbers.
pub open spec fn diagnostic_views(ds: Seq<Diagnostic>) -> Seq<DiagnosticView> {
    Seq::new(ds.len(), |i: int| diagnostic_view(ds[i]))
}

/// What a message is taken for, as plain text and numbers.
pub open spec fn opt_diagnostic(d: Option<Diagnostic>) -> Option<DiagnosticView> {
    match d {
        Some(x) => Some(diagnostic_view(x)),
        None => None,
    }
}

// ---------------------------------------------------------------------------
// From a message to a diagnostic
// ---------------------------------------------------------------------------

/// The diagnostic a message carries, if it is a compiler message. The stream
/// legitimately contains `build-script-executed`, `artifact` and other reasons.
/// An empty code is no code.
pub open spec fn taken_from(raw: RawMessage) -> Option<DiagnosticView> {
    if raw.reason@ != "compiler-message"@ {
        None
    } else {
        match raw.message {
            None => None,
            Some(d) => Some(raw_view(d)),
        }
    }
}

/// The diagnostic in a message, as plain text and numbers.
pub open spec fn raw_view(d: RawDiagnostic) -> DiagnosticView {
    DiagnosticView {
        code: real_code(opt_view(d.code)),
        level: d.level@,
        message: d.message@,
        spans: span_views(d.spans@),
    }
}

/// The diagnostic a message carries, if it is a compiler message.
pub fn take_diagnostic(raw: RawMessage) -> (r: Option<Diagnostic>)
    ensures
        opt_diagnostic(r) == taken_from(raw),
{
    if !same(raw.reason.as_str(), "compiler-message") {
        return None;
    }
    match raw.message {
        None => None,
        Some(d) => {
            let code = match d.code {
                Some(c) => if c.as_str().unicode_len() > 0 {
                    Some(c)
                } else {
                    None
                },
                None => None,
            };
            Some(Diagnostic { code, level: d.level, message: d.message, spans: d.spans })
        },
    }
}

// ---------------------------------------------------------------------------
// From a line to a message
// ---------------------------------------------------------------------------

/// A text field: its value, nothing where it is absent, or an error (`None`)
/// where something else stands there.
pub open spec fn text_field(field: Option<Seq<char>>) -> Option<Seq<char>> {
    match field {
        None => Some(""@),
        Some(v) => json_text(v, ""@),
    }
}

/// An optional text field: absent and `null` are alike.
pub open spec fn opt_text_field(field: Option<Seq<char>>) -> Option<Option<Seq<char>>> {
    match field {
        None => Some(None),
        Some(v) => if json_null(v) {
            Some(None)
        } else {
            match json_text(v, ""@) {
                Some(t) => Some(Some(t)),
                None => None,
            }
        },
    }
}

/// A number field, zero where it is absent.
pub open spec fn number_field(field: Option<Seq<char>>) -> Option<usize> {
    match field {
        None => Some(0),
        Some(v) => match json_number(v) {
            Some(n) => if n <= usize::MAX {
                Some(n as usize)
            } else {
                None
            },
            None => None,
        },
    }
}

/// A truth value field, false where it is absent.
pub open spec fn bool_field(field: Option<Seq<char>>) -> Option<bool> {
    match field {
        None => Some(false),
        Some(v) => json_bool(v),
    }
}

/// The span that five fields make up.
pub open spec fn span_of(
    file_name: Option<Seq<char>>,
    byte_start: Option<Seq<char>>,
    byte_end: Option<Seq<char>>,
    is_primary: Option<Seq<char>>,
    label: Option<Seq<char>>,
) -> Option<SpanView> {
    match (
        text_field(file_name),
        number_field(byte_start),
        number_field(byte_end),
        bool_field(is_primary),
        opt_text_field(label),
    ) {
        (Some(file_name), Some(byte_start), Some(byte_end), Some(is_primary), Some(label)) => Some(
            SpanView { file_name, byte_start, byte_end, is_primary, label },
        ),
        _ => None,
    }
}

/// The span a text is, if it is one.
pub open spec fn span_in(text: Seq<char>) -> Option<SpanView> {
    match record_in(text) {
        Some(r) => if has_at_most(r, 5) {
            match (
                field_of(r, 0, "file_name"@),
                field_of(r, 1, "byte_start"@),
                field_of(r, 2, "byte_end"@),
                field_of(r, 3, "is_primary"@),
                field_of(r, 4, "label"@),
            ) {
                (Some(a), Some(b), Some(c), Some(d), Some(e)) => span_of(a, b, c, d, e),
                _ => None,
            }
        } else {
            None
        },
        None => None,
    }
}

/// The spans some texts are, if all of them are spans.
pub open spec fn spans_of(texts: Seq<Seq<char>>) -> Option<Seq<SpanView>>
    decreases texts.len(),
{
    if texts.len() == 0 {
        Some(seq![])
    } else {
        match (spans_of(texts.drop_last()), span_in(texts.last())) {
            (Some(front), Some(s)) => Some(front.push(s)),
            _ => None,
        }
    }
}

/// A field of spans, none where it is absent.
pub open spec fn spans_field(field: Option<Seq<char>>) -> Option<Seq<SpanView>> {
    match field {
        None => Some(seq![]),
        Some(v) => match list_in(v) {
            Some(texts) => spans_of(texts),
            None => None,
        },
    }
}

/// A code field, which may be there and empty.
pub open spec fn code_field(field: Option<Seq<char>>) -> Option<Option<Seq<char>>> {
    match field {
        None => Some(None),
        Some(v) => if json_null(v) {
            Some(None)
        } else {
            match record_in(v) {
                Some(r) => if has_at_most(r, 1) {
                    match field_of(r, 0, "code"@) {
                        Some(c) => match text_field(c) {
                            Some(t) => Some(Some(t)),
                            None => None,
                        },
                        None => None,
                    }
                } else {
                    None
                },
                None => None,
            }
        },
    }
}

/// A code, unless it is empty.
pub open spec fn real_code(code: Option<Seq<char>>) -> Option<Seq<char>> {
    match code {
        Some(c) => if c.len() > 0 {
            Some(c)
        } else {
            None
        },
        None => None,
    }
}

/// The diagnostic that four fields make up.
pub open spec fn diagnostic_of(
    message: Option<Seq<char>>,
    level: Option<Seq<char>>,
    code: Option<Seq<char>>,
    spans: Option<Seq<char>>,
) -> Option<DiagnosticView> {
    match (text_field(message), text_field(level), code_field(code), spans_field(spans)) {
        (Some(message), Some(level), Some(code), Some(spans)) => Some(
            DiagnosticView { code: real_code(code), level, message, spans },
        ),
        _ => None,
    }
}

/// The diagnostic a text is, if it is one.
pub open spec fn message_in(text: Seq<char>) -> Option<DiagnosticView> {
    match record_in(text) {
        Some(r) => if has_at_most(r, 4) {
            match (
                field_of(r, 0, "message"@),
                field_of(r, 1, "level"@),
                field_of(r, 2, "code"@),
                field_of(r, 3, "spans"@),
            ) {
                (Some(a), Some(b), Some(c), Some(d)) => diagnostic_of(a, b, c, d),
                _ => None,
            }
        } else {
            None
        },
        None => None,
    }
}

/// The diagnostic a line of the stream carries. A line that is not a message of
/// the expected shape carries none: it is not worth failing the probe over.
pub open spec fn diagnostic_in(line: Seq<char>) -> Option<DiagnosticView> {
    match record_in(line) {
        Some(r) => if has_at_most(r, 2) {
            match (field_of(r, 0, "reason"@), field_of(r, 1, "message"@)) {
                (Some(Some(reason)), Some(Some(message))) => if json_text(reason, ""@) == Some(
                    "compiler-message"@,
                ) && !json_null(message) {
                    message_in(message)
                } else {
                    None
                },
                _ => None,
            }
        } else {
            None
        },
        None => None,
    }
}

/// Whether a line of the stream can be a message at all.
pub open spec fn is_candidate(line: Seq<char>) -> bool {
    begins(trim_of(line), "{"@)
}

/// The diagnostics of some lines, in order.
pub open spec fn diagnostics_of(lines: Seq<Seq<char>>) -> Seq<DiagnosticView>
    decreases lines.len(),
{
    if lines.len() == 0 {
        seq![]
    } else {
        let front = diagnostics_of(lines.drop_last());
        let line = trim_of(lines.last());
        if is_candidate(lines.last()) && diagnostic_in(line) is Some {
            front.push(diagnostic_in(line)->0)
        } else {
            front
        }
    }
}

/// Bytes read as UTF-8, with replacement characters where they are not.
pub uninterp spec fn lossy_text(bytes: Seq<u8>) -> Seq<char>;

/// The standard library's `String::from_utf8_lossy`: a function of the bytes
/// that gives valid UTF-8 back as the text it encodes.
#[verifier::external_body]
pub(crate) fn from_utf8_lossy(bytes: &[u8]) -> (r: String)
    ensures
        r@ == lossy_text(bytes@),
        forall|t: Seq<char>| bytes@ == #[trigger] encode_utf8(t) ==> r@ == t,
{
    String::from_utf8_lossy(bytes).into_owned()
}

fn read_text(field: &Option<String>) -> (r: Option<String>)
    ensures
        opt_view(r) == text_field(opt_view(*field)),
{
    match field {
        None => Some(owned("")),
        Some(v) => json_text_at(v.as_str(), ""),
    }
}

fn read_opt_text(field: &Option<String>) -> (r: Option<Option<String>>)
    ensures
        match r {
            Some(t) => opt_text_field(opt_view(*field)) == Some(opt_view(t)),
            None => opt_text_field(opt_view(*field)) is None,
        },
{
    match field {
        None => Some(None),
        Some(v) => if is_null(v.as_str()) {
            Some(None)
        } else {
            match json_text_at(v.as_str(), "") {
                Some(t) => Some(Some(t)),
                None => None,
            }
        },
    }
}

fn read_number(field: &Option<String>) -> (r: Option<usize>)
    ensures
        r == number_field(opt_view(*field)),
{
    match field {
        None => Some(0),
        Some(v) => match as_number(v.as_str()) {
            Some(n) => if n <= usize::MAX as u64 {
                Some(n as usize)
            } else {
                None
            },
            None => None,
        },
    }
}

fn read_bool(field: &Option<String>) -> (r: Option<bool>)
    ensures
        r == bool_field(opt_view(*field)),
{
    match field {
        None => Some(false),
        Some(v) => as_bool(v.as_str()),
    }
}

fn make_span(
    file_name: Option<String>,
    byte_start: Option<String>,
    byte_end: Option<String>,
    is_primary: Option<String>,
    label: Option<String>,
) -> (r: Option<Span>)
    ensures
        opt_span(r) == span_of(
            opt_view(file_name),
            opt_view(byte_start),
            opt_view(byte_end),
            opt_view(is_primary),
            opt_view(label),
        ),
{
    match (
        read_text(&file_name),
        read_number(&byte_start),
        read_number(&byte_end),
        read_bool(&is_primary),
        read_opt_text(&label),
    ) {
        (Some(file_name), Some(byte_start), Some(byte_end), Some(is_primary), Some(label)) => Some(
            Span { file_name, byte_start, byte_end, is_primary, label },
        ),
        _ => None,
    }
}

/// A span that may be missing, as plain text and numbers.
pub open spec fn opt_span(s: Option<Span>) -> Option<SpanView> {
    match s {
        Some(x) => Some(span_view(x)),
        None => None,
    }
}

fn read_span(text: &str) -> (r: Option<Span>)
    ensures
        opt_span(r) == span_in(text@),
{
    let r = match Record::read(text) {
        Some(r) => r,
        None => {
            return None;
        },
    };
    if !r.fits(5) {
        return None;
    }
    let a = r.field(0, "file_name");
    let b = r.field(1, "byte_start");
    let c = r.field(2, "byte_end");
    let d = r.field(3, "is_primary");
    let e = r.field(4, "label");
    match (a, b, c, d, e) {
        (Some(a), Some(b), Some(c), Some(d), Some(e)) => make_span(a, b, c, d, e),
        _ => None,
    }
}

fn read_spans(field: &Option<String>) -> (r: Option<Vec<Span>>)
    ensures
        match r {
            Some(v) => spans_field(opt_view(*field)) == Some(span_views(v@)),
            None => spans_field(opt_view(*field)) is None,
        },
{
    let mut out: Vec<Span> = Vec::new();
    proof {
        assert(span_views(out@) =~= Seq::<SpanView>::empty());
    }
    let text = match field {
        None => {
            return Some(out);
        },
        Some(v) => v,
    };
    let texts = match read_list(text.as_str()) {
        Some(t) => t,
        None => {
            return None;
        },
    };
    let ghost all = views(texts@);
    let mut i: usize = 0;
    proof {
        assert(all.take(0) =~= Seq::<Seq<char>>::empty());
    }
    while i < texts.len()
        invariant
            i <= texts@.len(),
            all == views(texts@),
            spans_field(opt_view(*field)) == spans_of(all),
            spans_of(all.take(i as int)) == Some(span_views(out@)),
        decreases texts.len() - i,
    {
        proof {
            assert(all.take(i + 1).drop_last() =~= all.take(i as int));
            assert(all.take(i + 1).last() == texts@[i as int]@);
        }
        match read_span(texts[i].as_str()) {
            Some(s) => {
                proof {
                    assert(span_views(out@.push(s)) =~= span_views(out@).push(span_view(s)));
                }
                out.push(s);
            },
            None => {
                proof {
                    lemma_spans_stay_broken(all, i + 1);
                }
                return None;
            },
        }
        i = i + 1;
    }
    proof {
        assert(all.take(texts@.len() as int) =~= all);
    }
    Some(out)
}

proof fn lemma_spans_stay_broken(texts: Seq<Seq<char>>, i: int)
    requires
        0 <= i <= texts.len(),
        spans_of(texts.take(i)) is None,
    ensures
        spans_of(texts) is None,
    decreases texts.len() - i,
{
    if i < texts.len() {
        assert(texts.take(i + 1).drop_last() =~= texts.take(i));
        lemma_spans_stay_broken(texts, i + 1);
    } else {
        assert(texts.take(i) =~= texts);
    }
}

fn read_code(field: &Option<String>) -> (r: Option<Option<String>>)
    ensures
        match r {
            Some(c) => code_field(opt_view(*field)) == Some(opt_view(c)),
            None => code_field(opt_view(*field)) is None,
        },
{
    let v = match field {
        None => {
            return Some(None);
        },
        Some(v) => v,
    };
    if is_null(v.as_str()) {
        return Some(None);
    }
    let r = match Record::read(v.as_str()) {
        Some(r) => r,
        None => {
            return None;
        },
    };
    if !r.fits(1) {
        return None;
    }
    match r.field(0, "code") {
        Some(c) => match read_text(&c) {
            Some(t) => Some(Some(t)),
            None => None,
        },
        None => None,
    }
}

fn make_diagnostic(
    message: Option<String>,
    level: Option<String>,
    code: Option<String>,
    spans: Option<String>,
) -> (r: Option<RawDiagnostic>)
    ensures
        match r {
            Some(d) => diagnostic_of(
                opt_view(message),
                opt_view(level),
                opt_view(code),
                opt_view(spans),
            ) == Some(raw_view(d)),
            None => diagnostic_of(
                opt_view(message),
                opt_view(level),
                opt_view(code),
                opt_view(spans),
            ) is None,
        },
{
    match (read_text(&message), read_text(&level), read_code(&code), read_spans(&spans)) {
        (Some(message), Some(level), Some(code), Some(spans)) => Some(
            RawDiagnostic { message, level, code, spans },
        ),
        _ => None,
    }
}

fn read_diagnostic(text: &str) -> (r: Option<RawDiagnostic>)
    ensures
        match r {
            Some(d) => message_in(text@) == Some(raw_view(d)),
            None => message_in(text@) is None,
        },
{
    let r = match Record::read(text) {
        Some(r) => r,
        None => {
            return None;
        },
    };
    if !r.fits(4) {
        return None;
    }
    let a = r.field(0, "message");
    let b = r.field(1, "level");
    let c = r.field(2, "code");
    let d = r.field(3, "spans");
    match (a, b, c, d) {
        (Some(a), Some(b), Some(c), Some(d)) => make_diagnostic(a, b, c, d),
        _ => None,
    }
}

/// The message a line of the stream holds, if it holds one that carries a
/// diagnostic.
fn read_message(line: &str) -> (r: Option<RawMessage>)
    ensures
        match r {
            Some(raw) => taken_from(raw) == diagnostic_in(line@),
            None => diagnostic_in(line@) is None,
        },
{
    let r = match Record::read(line) {
        Some(r) => r,
        None => {
            return None;
        },
    };
    if !r.fits(2) {
        return None;
    }
    match (r.field(0, "reason"), r.field(1, "message")) {
        (Some(Some(reason)), Some(Some(message))) => {
            let reason = match json_text_at(reason.as_str(), "") {
                Some(t) => t,
                None => {
                    return None;
                },
            };
            if is_null(message.as_str()) {
                return None;
            }
            match read_diagnostic(message.as_str()) {
                Some(d) => Some(RawMessage { reason, message: Some(d) }),
                None => None,
            }
        },
        _ => None,
    }
}

/// Parse `cargo check --message-format=json` output into diagnostics.
///
/// Non-JSON lines (progress output, cargo's own warnings) and messages that are
/// not compiler diagnostics are skipped.
pub fn parse_diagnostics(stdout: &[u8]) -> (r: Vec<Diagnostic>)
    ensures
        diagnostic_views(r@) == diagnostics_of(lines_of(lossy_text(stdout@))),
{
    let text = from_utf8_lossy(stdout);
    let all = lines(text.as_str());
    let ghost ls = lines_of(text@);
    let mut out: Vec<Diagnostic> = Vec::new();
    let mut i: usize = 0;
    proof {
        assert(ls.len() == all@.len());
        assert(ls.take(0) =~= Seq::<Seq<char>>::empty());
        assert(diagnostic_views(out@) =~= Seq::<DiagnosticView>::empty());
    }
    while i < all.len()
        invariant
            i <= all@.len(),
            ls == views(all@),
            ls.len() == all@.len(),
            diagnostic_views(out@) == diagnostics_of(ls.take(i as int)),
        decreases all.len() - i,
    {
        proof {
            assert(ls[i as int] == all@[i as int]@);
            assert(ls.take(i + 1).drop_last() =~= ls.take(i as int));
            assert(ls.take(i + 1).last() == ls[i as int]);
        }
        let line = trim(all[i].as_str());
        if starts_with(line.as_str(), "{") {
            if let Some(raw) = read_message(line.as_str()) {
                if let Some(d) = take_diagnostic(raw) {
                    proof {
                        assert(diagnostic_views(out@.push(d)) =~= diagnostic_views(out@).push(
                            diagnostic_view(d),
                        ));
                    }
                    out.push(d);
                }
            }
        }
        i = i + 1;
    }
    proof {
        assert(ls.take(all@.len() as int) =~= ls);
    }
    out
}

} // verus!
