//! What makes a macro call a hole, and what is recorded of it.
use vstd::prelude::*;
use vstd::utf8::encode_utf8;

use crate::finder::{
    call_at, call_range, has_pin, hole_keys, holes_in_macro, holes_in_tokens, holes_of,
    in_range_order, is_pin, macro_range_of, own_hole, position_in, same_range, scanned, scope_after,
    signature_of, spec_in, spec_in_tokens, string_literal_value, text_at, without_repeats, Event,
    MacroCall, Scope, Signature, Source, Token, MAX_TOKEN_DEPTH,
};
use crate::hole::{sliceable, HolePosition, HoleView};
use crate::laws::text::{
    is_padded, is_trimmed, lemma_trim_is_the_middle, lemma_trim_keeps_the_middle,
    lemma_trim_of_blank,
};
use crate::order::{lemma_order_is_stable, order_of};
use crate::text::{begins, is_blank, is_space, trim_of, trim_start_of};

verus! {

// ---------------------------------------------------------------------------
// The spec
// ---------------------------------------------------------------------------

proof fn lemma_trim_start_of_lead(lead: Seq<char>, s: Seq<char>)
    requires
        is_blank(lead),
        s.len() > 0,
        !is_space(s[0]),
    ensures
        trim_start_of(lead + s) == s,
    decreases lead.len(),
{
    if lead.len() == 0 {
        assert(lead + s =~= s);
    } else {
        let rest = lead.drop_first();
        assert forall|i: int| 0 <= i < rest.len() implies is_space(#[trigger] rest[i]) by {
            assert(rest[i] == lead[i + 1]);
        }
        lemma_trim_start_of_lead(rest, s);
        assert((lead + s)[0] == lead[0]);
        assert((lead + s).drop_first() =~= rest + s);
    }
}

/// The spec is all that follows `spec:`, over however many lines, but for whitespace at
/// its two ends.
pub proof fn lemma_spec_is_read_whole(
    lead: Seq<char>,
    a: Seq<char>,
    s: Seq<char>,
    b: Seq<char>,
)
    requires
        is_blank(lead),
        is_blank(a),
        is_trimmed(s),
        is_blank(b),
    ensures
        spec_in(lead + "spec:"@ + a + s + b) == Some(s),
{
    reveal_strlit("spec:");
    let key = "spec:"@;
    let rest = a + s + b;
    let v = key + rest;
    assert(lead + key + a + s + b =~= lead + v);
    assert(!is_space('s'));
    assert(v[0] == 's');
    lemma_trim_start_of_lead(lead, v);
    assert(v.take(5) =~= key);
    assert(v.skip(5) =~= rest);
    lemma_trim_keeps_the_middle(a, s, b);
}

/// Whatever is not blank after `spec:` is a spec, and none of it is lost but whitespace at
/// its ends.
pub proof fn lemma_every_spec_is_read(lead: Seq<char>, t: Seq<char>)
    requires
        is_blank(lead),
        !is_blank(t),
    ensures
        spec_in(lead + "spec:"@ + t) matches Some(s) && is_trimmed(s) && exists|
            a: Seq<char>,
            b: Seq<char>,
        | #[trigger] is_padded(t, a, s, b),
{
    lemma_trim_is_the_middle(t);
    let s = trim_of(t);
    let (a, b) = choose|a: Seq<char>, b: Seq<char>| #[trigger] is_padded(t, a, s, b);
    assert(lead + "spec:"@ + t =~= lead + "spec:"@ + a + s + b);
    lemma_spec_is_read_whole(lead, a, s, b);
}

/// A text that is blank after `spec:`, or that does not begin so, is no spec.
pub proof fn lemma_other_texts_are_no_specs(lead: Seq<char>, t: Seq<char>)
    requires
        is_blank(lead),
    ensures
        is_blank(t) ==> spec_in(lead + "spec:"@ + t) is None,
        t.len() > 0 && !is_space(t[0]) && (t.len() < 5 || t.take(5) != "spec:"@) ==> spec_in(
            lead + t,
        ) is None,
{
    reveal_strlit("spec:");
    if is_blank(t) {
        let v = "spec:"@ + t;
        assert(lead + "spec:"@ + t =~= lead + v);
        assert(!is_space('s'));
        assert(v[0] == 's');
        lemma_trim_start_of_lead(lead, v);
        assert(v.skip(5) =~= t);
        lemma_trim_of_blank(t);
    }
    if t.len() > 0 && !is_space(t[0]) {
        lemma_trim_start_of_lead(lead, t);
    }
}

/// A macro body holds a spec exactly when it is one string literal that holds one, with at
/// most a comma after it.
pub proof fn lemma_spec_is_the_only_argument(tokens: Seq<Token>)
    ensures
        spec_in_tokens(tokens) is Some ==> {
            &&& tokens.len() == 1 || (tokens.len() == 2 && tokens[1] == Token::Punct(','))
            &&& tokens[0] is Literal
        },
        (tokens.len() == 1 || (tokens.len() == 2 && tokens[1] == Token::Punct(','))) ==> (
        tokens[0] matches Token::Literal(text) ==> spec_in_tokens(tokens) == (
        match string_literal_value(text@) {
            Some(value) => spec_in(value),
            None => None,
        })),
{
}

// ---------------------------------------------------------------------------
// What encloses a hole
// ---------------------------------------------------------------------------

/// Whether a macro call can be a hole: `todo!(...)` or `unimplemented!(...)` with a spec.
pub open spec fn is_hole_call(m: MacroCall) -> bool {
    m.paren && (m.name@ == "todo"@ || m.name@ == "unimplemented"@) && spec_in_tokens(m.tokens@)
        is Some
}

/// Whether an event neither enters nor leaves a function.
pub open spec fn is_within_fn(e: Event) -> bool {
    !(e is EnterFn) && !(e is LeaveFn)
}

/// Whether an event neither enters nor leaves an `impl` or a trait.
pub open spec fn is_within_impl(e: Event) -> bool {
    !(e is EnterImpl) && !(e is EnterTrait) && !(e is LeaveImpl)
}

proof fn lemma_scanned_push(source: Source, events: Seq<Event>, e: Event)
    ensures
        scanned(source, events.push(e)).0 == scope_after(source.text, scanned(source, events).0, e),
        scanned(source, events.push(e)).1 == scanned(source, events).1 + (match e {
            Event::Macro(m) => holes_in_macro(source, scanned(source, events).0, m),
            _ => seq![],
        }),
{
    assert(events.push(e).drop_last() =~= events);
    assert(events.push(e).last() == e);
}

proof fn lemma_fns_stay(source: Source, events: Seq<Event>, mid: Seq<Event>)
    requires
        forall|i: int| 0 <= i < mid.len() ==> is_within_fn(#[trigger] mid[i]),
    ensures
        scanned(source, events + mid).0.fns == scanned(source, events).0.fns,
    decreases mid.len(),
{
    if mid.len() == 0 {
        assert(events + mid =~= events);
    } else {
        let front = mid.drop_last();
        assert forall|i: int| 0 <= i < front.len() implies is_within_fn(#[trigger] front[i]) by {
            assert(front[i] == mid[i]);
        }
        lemma_fns_stay(source, events, front);
        assert((events + front).push(mid.last()) =~= events + mid);
        lemma_scanned_push(source, events + front, mid.last());
        assert(is_within_fn(mid[mid.len() - 1]));
    }
}

proof fn lemma_impls_stay(source: Source, events: Seq<Event>, mid: Seq<Event>)
    requires
        forall|i: int| 0 <= i < mid.len() ==> is_within_impl(#[trigger] mid[i]),
    ensures
        scanned(source, events + mid).0.impls == scanned(source, events).0.impls,
    decreases mid.len(),
{
    if mid.len() == 0 {
        assert(events + mid =~= events);
    } else {
        let front = mid.drop_last();
        assert forall|i: int| 0 <= i < front.len() implies is_within_impl(#[trigger] front[i]) by {
            assert(front[i] == mid[i]);
        }
        lemma_impls_stay(source, events, front);
        assert((events + front).push(mid.last()) =~= events + mid);
        lemma_scanned_push(source, events + front, mid.last());
        assert(is_within_impl(mid[mid.len() - 1]));
    }
}

/// The hole that a macro call is, the last one recorded, has what was written and where.
pub proof fn lemma_call_is_recorded(source: Source, events: Seq<Event>, m: MacroCall)
    requires
        is_hole_call(m),
    ensures
        ({
            let before = scanned(source, events);
            let after = scanned(source, events.push(Event::Macro(m))).1;
            let h = after.last();
            &&& after.len() > before.1.len()
            &&& h.file == source.file
            &&& Some(h.spec) == spec_in_tokens(m.tokens@)
            &&& h.macro_name == m.name@
            &&& h.position == position_in(before.0)
            &&& m.span_start < m.span_end <= encode_utf8(source.text).len() && sliceable(
                source.text,
                m.span_start as int,
                m.span_end as int,
            ) && m.name@.len() > 0 && begins(
                text_at(source.text, m.span_start as int, m.span_end as int),
                m.name@,
            ) ==> h.byte_start == m.span_start && h.byte_end == m.span_end && h.unresolvable is None
        }),
{
    let before = scanned(source, events);
    lemma_scanned_push(source, events, Event::Macro(m));
    let own = own_hole(
        source,
        before.0,
        position_in(before.0),
        m.name@,
        m.tokens@,
        macro_range_of(
            source.text,
            m.name@,
            m.span_start as int,
            m.span_end as int,
            m.path_start as int,
        ),
        m.path_start as int,
    );
    assert(own.len() == 1);
    let after = scanned(source, events.push(Event::Macro(m))).1;
    assert(after.last() == own[0]);
}

/// A hole belongs to the function around it, the innermost one, and to no other.
pub proof fn lemma_hole_belongs_to_its_fn(
    source: Source,
    before: Seq<Event>,
    sig: Signature,
    attrs: Vec<Vec<String>>,
    mid: Seq<Event>,
    m: MacroCall,
)
    requires
        is_hole_call(m),
        forall|i: int| 0 <= i < mid.len() ==> is_within_fn(#[trigger] mid[i]),
    ensures
        ({
            let events = before.push(Event::EnterFn { sig, attrs }) + mid;
            let h = scanned(source, events.push(Event::Macro(m))).1.last();
            h.fn_name == sig.name@ && h.fn_sig == signature_of(source.text, sig)
        }),
{
    let inside = before.push(Event::EnterFn { sig, attrs });
    lemma_scanned_push(source, before, Event::EnterFn { sig, attrs });
    lemma_fns_stay(source, inside, mid);
    lemma_last_is_own(source, inside + mid, m);
}

proof fn lemma_last_is_own(source: Source, events: Seq<Event>, m: MacroCall)
    requires
        is_hole_call(m),
    ensures
        ({
            let scope = scanned(source, events).0;
            let h = scanned(source, events.push(Event::Macro(m))).1.last();
            &&& scope.fns.len() > 0 ==> h.fn_sig == scope.fns.last().0 && h.fn_name
                == scope.fns.last().1
            &&& scope.fns.len() == 0 ==> h.fn_sig.len() == 0 && h.fn_name.len() == 0
            &&& scope.impls.len() > 0 ==> h.impl_ctx == Some(scope.impls.last())
            &&& scope.impls.len() == 0 ==> h.impl_ctx is None
            &&& scope.pins.contains(true) ==> h.pinned
        }),
{
    let scope = scanned(source, events).0;
    lemma_scanned_push(source, events, Event::Macro(m));
    let own = own_hole(
        source,
        scope,
        position_in(scope),
        m.name@,
        m.tokens@,
        macro_range_of(
            source.text,
            m.name@,
            m.span_start as int,
            m.span_end as int,
            m.path_start as int,
        ),
        m.path_start as int,
    );
    assert(own.len() == 1);
    assert(scanned(source, events.push(Event::Macro(m))).1.last() == own[0]);
}

/// When a function has been left, what comes next belongs to the function around it again,
/// as if the inner one had not been there.
pub proof fn lemma_left_fn_is_forgotten(
    source: Source,
    before: Seq<Event>,
    sig: Signature,
    attrs: Vec<Vec<String>>,
    mid: Seq<Event>,
)
    requires
        forall|i: int| 0 <= i < mid.len() ==> is_within_fn(#[trigger] mid[i]),
    ensures
        scanned(
            source,
            (before.push(Event::EnterFn { sig, attrs }) + mid).push(Event::LeaveFn),
        ).0.fns == scanned(source, before).0.fns,
{
    let inside = before.push(Event::EnterFn { sig, attrs });
    lemma_scanned_push(source, before, Event::EnterFn { sig, attrs });
    lemma_fns_stay(source, inside, mid);
    lemma_scanned_push(source, inside + mid, Event::LeaveFn);
    let fns = scanned(source, before).0.fns;
    let one = (signature_of(source.text, sig), sig.name@);
    assert(fns.push(one).drop_last() =~= fns);
}

/// A hole in an `impl` or a trait says which.
pub proof fn lemma_hole_belongs_to_its_impl(
    source: Source,
    before: Seq<Event>,
    mid: Seq<Event>,
    m: MacroCall,
    self_ty: String,
    name: String,
    attrs: Vec<Vec<String>>,
)
    requires
        is_hole_call(m),
        forall|i: int| 0 <= i < mid.len() ==> is_within_impl(#[trigger] mid[i]),
    ensures
        ({
            let events = before.push(Event::EnterImpl { self_ty, attrs }) + mid;
            scanned(source, events.push(Event::Macro(m))).1.last().impl_ctx == Some(
                crate::hole::collapsed(self_ty@),
            )
        }),
        ({
            let events = before.push(Event::EnterTrait { name, attrs }) + mid;
            scanned(source, events.push(Event::Macro(m))).1.last().impl_ctx == Some(
                "trait "@ + name@,
            )
        }),
{
    let a = Event::EnterImpl { self_ty, attrs };
    lemma_scanned_push(source, before, a);
    lemma_impls_stay(source, before.push(a), mid);
    lemma_last_is_own(source, before.push(a) + mid, m);
    let b = Event::EnterTrait { name, attrs };
    lemma_scanned_push(source, before, b);
    lemma_impls_stay(source, before.push(b), mid);
    lemma_last_is_own(source, before.push(b) + mid, m);
}

/// Whether an event neither enters nor leaves anything that can carry attributes.
pub open spec fn is_within_attrs(e: Event) -> bool {
    e is EnterPosition || e is LeavePosition || e is Macro
}

proof fn lemma_pins_stay(source: Source, events: Seq<Event>, mid: Seq<Event>)
    requires
        forall|i: int| 0 <= i < mid.len() ==> is_within_attrs(#[trigger] mid[i]),
    ensures
        scanned(source, events + mid).0.pins == scanned(source, events).0.pins,
    decreases mid.len(),
{
    if mid.len() == 0 {
        assert(events + mid =~= events);
    } else {
        let front = mid.drop_last();
        assert forall|i: int| 0 <= i < front.len() implies is_within_attrs(#[trigger] front[i]) by {
            assert(front[i] == mid[i]);
        }
        lemma_pins_stay(source, events, front);
        assert((events + front).push(mid.last()) =~= events + mid);
        lemma_scanned_push(source, events + front, mid.last());
        assert(is_within_attrs(mid[mid.len() - 1]));
    }
}

/// Whether one of the attributes is `#[pin]` or `#[hole::pin]`.
pub open spec fn carries_pin(attrs: Seq<Vec<String>>) -> bool {
    exists|i: int|
        0 <= i < attrs.len() && (((#[trigger] attrs[i])@.len() == 1 && attrs[i]@[0]@ == "pin"@) || (
        attrs[i]@.len() == 2 && attrs[i]@[0]@ == "hole"@ && attrs[i]@[1]@ == "pin"@))
}

/// Whether no attribute has `pin` in its path.
pub open spec fn mentions_no_pin(attrs: Seq<Vec<String>>) -> bool {
    forall|i: int, j: int|
        0 <= i < attrs.len() && 0 <= j < attrs[i]@.len() ==> (#[trigger] attrs[i]@[j])@ != "pin"@
}

/// A pin on the function, `impl` or trait around a hole pins it, directly or from farther
/// out; attributes that do not mention pins pin nothing.
pub proof fn lemma_pins_reach_the_hole(
    source: Source,
    before: Seq<Event>,
    attrs: Vec<Vec<String>>,
    inner: Vec<Vec<String>>,
    sig: Signature,
    mid: Seq<Event>,
    m: MacroCall,
)
    requires
        is_hole_call(m),
        carries_pin(attrs@),
        forall|i: int| 0 <= i < mid.len() ==> is_within_attrs(#[trigger] mid[i]),
    ensures
        ({
            let events = before.push(Event::EnterFn { sig, attrs }) + mid;
            scanned(source, events.push(Event::Macro(m))).1.last().pinned
        }),
        ({
            let events = before.push(Event::EnterAttrs(attrs)) + mid;
            scanned(source, events.push(Event::Macro(m))).1.last().pinned
        }),
        ({
            let events = before.push(Event::EnterAttrs(attrs)).push(
                Event::EnterFn { sig, attrs: inner },
            ) + mid;
            scanned(source, events.push(Event::Macro(m))).1.last().pinned
        }),
        mentions_no_pin(inner@) ==> !has_pin(inner@),
{
    let i = choose|i: int|
        0 <= i < attrs@.len() && (((#[trigger] attrs@[i])@.len() == 1 && attrs@[i]@[0]@ == "pin"@)
            || (attrs@[i]@.len() == 2 && attrs@[i]@[0]@ == "hole"@ && attrs@[i]@[1]@ == "pin"@));
    assert(is_pin(attrs@[i]@));
    assert(has_pin(attrs@));
    let pins = scanned(source, before).0.pins;
    let a = before.push(Event::EnterFn { sig, attrs });
    lemma_scanned_push(source, before, Event::EnterFn { sig, attrs });
    lemma_pins_stay(source, a, mid);
    assert(pins.push(true)[pins.len() as int]);
    lemma_last_is_own(source, a + mid, m);
    let b = before.push(Event::EnterAttrs(attrs));
    lemma_scanned_push(source, before, Event::EnterAttrs(attrs));
    lemma_pins_stay(source, b, mid);
    lemma_last_is_own(source, b + mid, m);
    let c = b.push(Event::EnterFn { sig, attrs: inner });
    lemma_scanned_push(source, b, Event::EnterFn { sig, attrs: inner });
    lemma_pins_stay(source, c, mid);
    assert(pins.push(true).push(has_pin(inner@))[pins.len() as int]);
    lemma_last_is_own(source, c + mid, m);
    if mentions_no_pin(inner@) && has_pin(inner@) {
        let k = choose|k: int| 0 <= k < inner@.len() && is_pin(#[trigger] inner@[k]@);
        if inner@[k]@.len() == 1 {
            assert(inner@[k]@[0]@ != "pin"@);
        } else {
            assert(inner@[k]@[1]@ != "pin"@);
        }
    }
}

// ---------------------------------------------------------------------------
// Nothing is left out
// ---------------------------------------------------------------------------

/// Every call in a macro body is found, however many stand before it.
pub proof fn lemma_calls_in_bodies_are_found(
    source: Source,
    scope: Scope,
    tokens: Vec<Token>,
    i: int,
    k: int,
    depth: int,
)
    requires
        0 <= i <= k,
        depth <= MAX_TOKEN_DEPTH,
        call_at(tokens@, k),
        spec_in_tokens(tokens@[k + 2]->stream@) is Some,
    ensures
        exists|j: int|
            0 <= j < holes_in_tokens(source, scope, tokens, i, depth).len() && Some(
                (#[trigger] holes_in_tokens(source, scope, tokens, i, depth)[j]).spec,
            ) == spec_in_tokens(tokens@[k + 2]->stream@) && holes_in_tokens(
                source,
                scope,
                tokens,
                i,
                depth,
            )[j].position == HolePosition::MacroBody,
    decreases k - i,
{
    let all = holes_in_tokens(source, scope, tokens, i, depth);
    let wanted = spec_in_tokens(tokens@[k + 2]->stream@);
    if i == k {
        let stream = tokens@[i + 2]->stream;
        let a = holes_in_tokens(source, scope, stream, 0, 0);
        let own = own_hole(
            source,
            scope,
            HolePosition::MacroBody,
            tokens@[i]->name@,
            stream@,
            call_range(source.text, tokens@, i),
            tokens@[i]->start as int,
        );
        let c = holes_in_tokens(source, scope, tokens, i + 3, depth);
        assert(all == a + own + c);
        assert(own.len() == 1);
        assert(all[a.len() as int] == own[0]);
        assert(Some(all[a.len() as int].spec) == wanted);
    } else if call_at(tokens@, i) {
        // The parts of one call never begin another.
        assert(tokens@[i + 1] is Punct && tokens@[i + 2] is Group && tokens@[k] is Ident);
        lemma_calls_in_bodies_are_found(source, scope, tokens, i + 3, k, depth);
        let rest = holes_in_tokens(source, scope, tokens, i + 3, depth);
        let j = choose|j: int|
            0 <= j < rest.len() && Some((#[trigger] rest[j]).spec) == wanted && rest[j].position
                == HolePosition::MacroBody;
        let n = all.len() - rest.len();
        assert(all[n + j] == rest[j]);
    } else {
        lemma_calls_in_bodies_are_found(source, scope, tokens, i + 1, k, depth);
        let rest = holes_in_tokens(source, scope, tokens, i + 1, depth);
        let j = choose|j: int|
            0 <= j < rest.len() && Some((#[trigger] rest[j]).spec) == wanted && rest[j].position
                == HolePosition::MacroBody;
        let n = all.len() - rest.len();
        assert(all[n + j] == rest[j]);
    }
}

proof fn lemma_scanned_grows(source: Source, events: Seq<Event>, n: int)
    requires
        0 <= n <= events.len(),
    ensures
        scanned(source, events.take(n)).1.len() <= scanned(source, events).1.len(),
        forall|j: int|
            0 <= j < scanned(source, events.take(n)).1.len() ==> (#[trigger] scanned(
                source,
                events,
            ).1[j]) == scanned(source, events.take(n)).1[j],
    decreases events.len(),
{
    if n == events.len() {
        assert(events.take(n) =~= events);
    } else {
        let front = events.drop_last();
        lemma_scanned_grows(source, front, n);
        assert(front.take(n) =~= events.take(n));
        let a = scanned(source, front).1;
        let all = scanned(source, events).1;
        assert forall|j: int| 0 <= j < scanned(source, events.take(n)).1.len() implies (
        #[trigger] all[j]) == scanned(source, events.take(n)).1[j] by {
            assert(all[j] == a[j]);
        }
    }
}

proof fn lemma_kept_by_range(holes: Seq<HoleView>, i: int)
    requires
        0 <= i < holes.len(),
    ensures
        without_repeats(holes).len() > 0,
        same_range(without_repeats(holes).last(), holes.last()),
        exists|k: int|
            0 <= k < without_repeats(holes).len() && same_range(
                #[trigger] without_repeats(holes)[k],
                holes[i],
            ),
    decreases holes.len(),
{
    let front = holes.drop_last();
    let kept = without_repeats(front);
    let all = without_repeats(holes);
    assert(same_range(all.last(), holes.last()));
    if i == holes.len() - 1 {
        assert(same_range(all[all.len() - 1], holes[i]));
    } else {
        lemma_kept_by_range(front, i);
        let k = choose|k: int| 0 <= k < kept.len() && same_range(#[trigger] kept[k], front[i]);
        assert(all[k] == kept[k]);
    }
}

/// Every hole that was met is listed: for each there is one with its range in the list, and
/// nothing is in the list that was not met.
pub proof fn lemma_every_hole_is_listed(source: Source, events: Seq<Event>, i: int)
    requires
        scanned(source, events).1.len() <= usize::MAX,
        0 <= i < scanned(source, events).1.len(),
    ensures
        exists|k: int|
            0 <= k < holes_of(source, events).len() && same_range(
                #[trigger] holes_of(source, events)[k],
                scanned(source, events).1[i],
            ),
{
    let all = scanned(source, events).1;
    let sorted = in_range_order(all);
    let keys = hole_keys(all);
    let order = order_of(keys);
    lemma_order_is_stable(keys, all.len() as int);
    assert(order.contains(i as usize));
    let p = choose|p: int| 0 <= p < order.len() && order[p] == i as usize;
    assert(sorted[p] == all[i]);
    lemma_kept_by_range(sorted, p);
    let kept = without_repeats(sorted);
    let k = choose|k: int| 0 <= k < kept.len() && same_range(#[trigger] kept[k], sorted[p]);
    assert(same_range(holes_of(source, events)[k], all[i]));
}

/// Every `todo!("spec: ...")` and `unimplemented!("spec: ...")` that a visitor meets is
/// listed, with its range.
pub proof fn lemma_every_call_is_listed(
    source: Source,
    events: Seq<Event>,
    i: int,
    m: MacroCall,
)
    requires
        scanned(source, events).1.len() <= usize::MAX,
        0 <= i < events.len(),
        events[i] == Event::Macro(m),
        is_hole_call(m),
        m.span_start < m.span_end <= encode_utf8(source.text).len(),
        sliceable(source.text, m.span_start as int, m.span_end as int),
        m.name@.len() > 0,
        begins(text_at(source.text, m.span_start as int, m.span_end as int), m.name@),
    ensures
        exists|k: int|
            0 <= k < holes_of(source, events).len() && (#[trigger] holes_of(
                source,
                events,
            )[k]).byte_start == m.span_start && holes_of(source, events)[k].byte_end == m.span_end,
{
    let before = events.take(i);
    lemma_call_is_recorded(source, before, m);
    assert(before.push(Event::Macro(m)) =~= events.take(i + 1));
    let upto = scanned(source, events.take(i + 1)).1;
    lemma_scanned_grows(source, events, i + 1);
    let j = upto.len() - 1;
    assert(scanned(source, events).1[j] == upto[j]);
    lemma_every_hole_is_listed(source, events, j);
}

} // verus!
