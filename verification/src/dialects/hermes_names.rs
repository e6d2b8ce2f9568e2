//! The name that the deltas of a Hermes call carry is the name in its body.

use crate::braces;
use crate::dialects::hermes;
use crate::dialects::hermes::{Hermes, HermesParser, CLOSE_MARKER};
use crate::dialects::hermes_laws;
use crate::json;
use crate::parser;
use crate::parser::DialectParser;
use crate::text;
use crate::types::{CallState, ToolCallState};
use vstd::prelude::*;

verus! {

/// Whether `known` is the name that has been emitted of the current call: the one
/// that its body shows. Outside a call, none.
pub open spec fn named(call: CallState, known: Option<Seq<char>>) -> bool {
    if call.state == ToolCallState::InToolCall && call.name_emitted {
        known is Some && known == hermes::tool_name(call.buffer)
    } else {
        known is None
    }
}

proof fn lemma_named_extended(call: CallState, more: Seq<char>, known: Option<Seq<char>>)
    requires
        named(call, known),
    ensures
        named(call.extended(more), known),
{
    if hermes::tool_name(call.buffer) is Some {
        hermes_laws::law_name_is_final(call.buffer, more);
    }
}

proof fn lemma_emitted_name(call: CallState, is_complete: bool, known: Option<Seq<char>>)
    requires
        call.state == ToolCallState::InToolCall,
        named(call, known),
    ensures
        ({
            let r = hermes::emitted(call, call.buffer, is_complete);
            &&& named(r.0, parser::open_name(known, r.1))
            &&& parser::open_name(known, r.1) == hermes::tool_name(call.buffer)
            &&& parser::complete_names(known, r.1).len() == 0
        }),
{
    reveal_with_fuel(parser::open_name, 3);
    reveal_with_fuel(parser::complete_names, 3);
    let head = hermes::announced(call, call.buffer);
    let args = hermes::streamed(head.0, call.buffer, is_complete);
    if head.1.len() > 0 {
        assert(head.1.drop_last() =~= Seq::empty());
    }
    if args.1.len() > 0 {
        assert(args.1.drop_last() =~= Seq::empty());
    }
    parser::lemma_names(known, head.1, args.1);
    assert(parser::complete_names(known, head.1) =~= Seq::empty());
    assert(parser::complete_names(parser::open_name(known, head.1), args.1) =~= Seq::empty());
}

proof fn lemma_closed_name(call: CallState, known: Option<Seq<char>>)
    requires
        call.state == ToolCallState::InToolCall,
        named(call, known),
    ensures
        ({
            let r = hermes::closed_now(call);
            &&& named(r.0, parser::open_name(known, r.1))
            &&& parser::complete_names(known, r.1) == seq![hermes::tool_name(call.buffer)]
        }),
{
    reveal(hermes::closed_now);
    let is_complete = json::is_json(call.buffer);
    let before = hermes::emitted(call, call.buffer, is_complete);
    let r = hermes::closing(call, is_complete);
    lemma_emitted_name(call, is_complete, known);
    assert(r.1.drop_last() =~= before.1);
    assert(parser::complete_names(known, r.1) =~= seq![hermes::tool_name(call.buffer)]);
}

/// The names of the bodies.
pub open spec fn body_names(bodies: Seq<Seq<char>>) -> Seq<Option<Seq<char>>> {
    bodies.map_values(|body: Seq<char>| hermes::tool_name(body))
}

proof fn lemma_step_names(own: Hermes, call: CallState, text: Seq<char>, known: Option<Seq<char>>)
    requires
        named(call, known),
    ensures
        ({
            let s = hermes::step(own, call, text);
            &&& named(s.call, parser::open_name(known, s.out.tool_calls))
            &&& parser::complete_names(known, s.out.tool_calls) == (if call.state
                == ToolCallState::InToolCall && s.next is Some {
                seq![hermes::tool_name(s.call.buffer)]
            } else {
                Seq::empty()
            })
        }),
{
    reveal(hermes::step);
    reveal(hermes::emitted_now);
    if call.state == ToolCallState::InToolCall {
        let chunk = if own.bare {
            match braces::balance_from(text, own.braces, 0) {
                Some(end) => text.take(end),
                None => text,
            }
        } else {
            match text::find(text, CLOSE_MARKER@) {
                Some(pos) => text.take(pos),
                None => text.take(text.len() - text::overlap(text, CLOSE_MARKER@)),
            }
        };
        let grown = call.extended(chunk);
        lemma_named_extended(call, chunk, known);
        lemma_emitted_name(grown, json::is_json(grown.buffer), known);
        lemma_closed_name(grown, known);
        assert(hermes::closed_now(grown).0.buffer == grown.buffer) by {
            reveal(hermes::closed_now);
        }
        let s = hermes::step(own, call, text);
        if s.next is None {
            assert(parser::complete_names(known, s.out.tool_calls) =~= Seq::empty());
        }
    }
}

proof fn lemma_scan_names(own: Hermes, call: CallState, text: Seq<char>, known: Option<Seq<char>>)
    requires
        named(call, known),
    ensures
        ({
            let r = hermes::scan(own, call, text);
            &&& named(r.1, parser::open_name(known, r.2.tool_calls))
            &&& parser::complete_names(known, r.2.tool_calls) == body_names(
                hermes_laws::bodies(own, call, text),
            )
        }),
    decreases text.len(), hermes::rank(call.state),
{
    let r = hermes::scan(own, call, text);
    if text.len() > 0 {
        let s = hermes::step(own, call, text);
        hermes_laws::lemma_step_sound(own, call, text);
        lemma_step_names(own, call, text, known);
        if let Some(next) = s.next {
            let now = parser::open_name(known, s.out.tool_calls);
            lemma_scan_names(s.own, s.call, text.skip(next), now);
            let rest = hermes::scan(s.own, s.call, text.skip(next));
            parser::lemma_names(known, s.out.tool_calls, rest.2.tool_calls);
        }
    }
    assert(parser::complete_names(known, r.2.tool_calls) =~= body_names(
        hermes_laws::bodies(own, call, text),
    ));
}

/// In any stream: each call that a batch of chunks completes was announced with
/// the name that its body shows, and with none if it shows none.
pub proof fn law_batch_names_are_exact(
    own: Hermes,
    call: CallState,
    chunks: Seq<Seq<char>>,
    known: Option<Seq<char>>,
)
    requires
        named(call, known),
    ensures
        ({
            let (_, call1, out) = parser::fed_all::<HermesParser>(own, call, chunks);
            let bodies = hermes_laws::batch_bodies(own, call, chunks);
            let names = parser::complete_names(known, out.tool_calls);
            &&& named(call1, parser::open_name(known, out.tool_calls))
            &&& names.len() == bodies.len()
            &&& forall|i: int|
                0 <= i < bodies.len() ==> #[trigger] names[i] == hermes::tool_name(bodies[i])
        }),
    decreases chunks.len(),
{
    let r = parser::fed_all::<HermesParser>(own, call, chunks);
    if chunks.len() > 0 {
        let init = chunks.drop_last();
        let last = chunks.last();
        law_batch_names_are_exact(own, call, init, known);
        let before = parser::fed_all::<HermesParser>(own, call, init);
        let now = parser::open_name(known, before.2.tool_calls);
        let start = Hermes { pending: Seq::empty(), ..before.0 };
        lemma_scan_names(start, before.1, before.0.pending + last, now);
        let after = HermesParser::fed(before.0, before.1, last);
        parser::lemma_names(known, before.2.tool_calls, after.2.tool_calls);
        let early = hermes_laws::batch_bodies(own, call, init);
        let late = hermes_laws::fed_bodies(before.0, before.1, last);
        let bodies = hermes_laws::batch_bodies(own, call, chunks);
        let early_names = parser::complete_names(known, before.2.tool_calls);
        let late_names = parser::complete_names(now, after.2.tool_calls);
        let names = parser::complete_names(known, r.2.tool_calls);
        assert(bodies == early + late);
        assert(names == early_names + late_names);
        assert forall|i: int| 0 <= i < bodies.len() implies #[trigger] names[i]
            == hermes::tool_name(bodies[i]) by {
            if i < early.len() {
                assert(names[i] == early_names[i]);
                assert(bodies[i] == early[i]);
            } else {
                assert(names[i] == late_names[i - early.len()]);
                assert(bodies[i] == late[i - early.len()]);
            }
        }
    }
}

/// A call that is open at the end of the stream is announced with the name that
/// its body shows by then.
pub proof fn law_finish_name_is_exact(own: Hermes, call: CallState, known: Option<Seq<char>>)
    requires
        call.state == ToolCallState::InToolCall,
        named(call, known),
    ensures
        ({
            let (_, _, out) = HermesParser::finished(own, call);
            parser::complete_names(known, out.tool_calls) == seq![
                hermes::tool_name(call.buffer + own.pending),
            ]
        }),
{
    lemma_named_extended(call, own.pending, known);
    lemma_closed_name(call.extended(own.pending), known);
}

} // verus!
