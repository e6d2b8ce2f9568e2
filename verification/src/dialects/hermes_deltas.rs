//! What the deltas of a Hermes stream look like one by one, and which ids they
//! carry.

use crate::braces;
use crate::dialects::hermes;
use crate::dialects::hermes::{Hermes, HermesParser, CLOSE_MARKER, OPEN_MARKER};
use crate::dialects::hermes_laws;
use crate::ids;
use crate::json;
use crate::parser;
use crate::parser::DialectParser;
use crate::text;
use crate::types::{CallState, Delta, ToolCallState};
use vstd::prelude::*;
use vstd::string::*;

verus! {

/// Whether a delta says one thing: it announces a call, with the id and the name
/// and no arguments; or it carries a fragment, which is not empty; or it completes
/// a call.
pub open spec fn says_one_thing(delta: Delta) -> bool {
    if delta.is_complete {
        delta.name is None
    } else if delta.name is Some {
        delta.id is Some && delta.arguments_fragment.len() == 0
    } else {
        delta.id is None && delta.arguments_fragment.len() > 0
    }
}

/// Whether each of the deltas says one thing.
pub open spec fn each_says_one_thing(deltas: Seq<Delta>) -> bool {
    forall|i: int| 0 <= i < deltas.len() ==> says_one_thing(#[trigger] deltas[i])
}

/// The ids that deltas carry.
pub open spec fn sent_ids(deltas: Seq<Delta>) -> Seq<Seq<char>>
    decreases deltas.len(),
{
    if deltas.len() == 0 {
        Seq::empty()
    } else {
        let before = sent_ids(deltas.drop_last());
        match deltas.last().id {
            Some(id) => before.push(id),
            None => before,
        }
    }
}

proof fn lemma_sent_ids(a: Seq<Delta>, b: Seq<Delta>)
    ensures
        sent_ids(a + b) == sent_ids(a) + sent_ids(b),
    decreases b.len(),
{
    if b.len() == 0 {
        assert(a + b =~= a);
        assert(sent_ids(a) + sent_ids(b) =~= sent_ids(a));
    } else {
        lemma_sent_ids(a, b.drop_last());
        assert((a + b).drop_last() =~= a + b.drop_last());
        assert((a + b).last() == b.last());
        assert(sent_ids(a + b) =~= sent_ids(a) + sent_ids(b));
    }
}

/// The state of the id generator after some steps.
pub open spec fn stepped(state: u64, steps: nat) -> u64
    decreases steps,
{
    if steps == 0 {
        state
    } else {
        ids::xorshift(stepped(state, (steps - 1) as nat))
    }
}

/// The first ids that the generator draws.
pub open spec fn drawn(state: u64, count: nat) -> Seq<Seq<char>> {
    Seq::new(count, |i: int| ids::id_text(stepped(state, (i + 1) as nat)))
}

/// Whether the ids that were sent are the first that were drawn, one for each call:
/// all of them, or all but that of the current call.
pub open spec fn ids_in_turn(start: u64, call: CallState, sent: Seq<Seq<char>>) -> bool {
    &&& sent == drawn(start, sent.len())
    &&& if call.state == ToolCallState::InToolCall && call.id is Some {
        &&& call.ids == stepped(start, sent.len() + 1)
        &&& call.id == Some(ids::id_text(call.ids))
    } else {
        call.ids == stepped(start, sent.len())
    }
}

proof fn lemma_one_more(start: u64, n: nat)
    ensures
        drawn(start, n + 1) == drawn(start, n).push(ids::id_text(stepped(start, n + 1))),
{
    assert(drawn(start, n + 1) =~= drawn(start, n).push(ids::id_text(stepped(start, n + 1))));
}

proof fn lemma_emitted_deltas(
    call: CallState,
    body: Seq<char>,
    is_complete: bool,
    start: u64,
    sent: Seq<Seq<char>>,
)
    requires
        call.state == ToolCallState::InToolCall,
        parser::call_in_order(call),
        ids_in_turn(start, call, sent),
    ensures
        ({
            let r = hermes::emitted(call, body, is_complete);
            &&& each_says_one_thing(r.1)
            &&& r.1.len() <= 2
            &&& call.name_emitted ==> r.1.len() <= 1
            &&& parser::call_in_order(r.0)
            &&& r.0.state == ToolCallState::InToolCall
            &&& ids_in_turn(start, r.0, sent + sent_ids(r.1))
        }),
{
    reveal_with_fuel(sent_ids, 2);
    let head = hermes::announced(call, body);
    let args = hermes::streamed(head.0, body, is_complete);
    let r = hermes::emitted(call, body, is_complete);
    assert(sent + Seq::<Seq<char>>::empty() =~= sent);
    if args.1.len() > 0 {
        assert(args.1.drop_last() =~= Seq::empty());
    }
    assert(sent_ids(args.1) =~= Seq::empty());
    if head.1.len() > 0 {
        assert(head.1.drop_last() =~= Seq::empty());
        assert(sent_ids(head.1) =~= seq![call.id->0]);
        lemma_one_more(start, sent.len());
        assert(sent + seq![call.id->0] =~= sent.push(call.id->0));
    } else {
        assert(sent_ids(head.1) =~= Seq::empty());
    }
    lemma_sent_ids(head.1, args.1);
    assert(sent_ids(head.1) + sent_ids(args.1) =~= sent_ids(head.1));
}

proof fn lemma_closing_deltas(
    call: CallState,
    is_complete: bool,
    start: u64,
    sent: Seq<Seq<char>>,
)
    requires
        call.state == ToolCallState::InToolCall,
        parser::call_in_order(call),
        ids_in_turn(start, call, sent),
    ensures
        ({
            let r = hermes::closing(call, is_complete);
            &&& each_says_one_thing(r.1)
            &&& 1 <= r.1.len() <= 3
            &&& ids_in_turn(start, r.0, sent + sent_ids(r.1))
        }),
{
    lemma_emitted_deltas(call, call.buffer, is_complete, start, sent);
    let before = hermes::emitted(call, call.buffer, is_complete);
    let r = hermes::closing(call, is_complete);
    assert(r.1.drop_last() =~= before.1);
    let now = sent + sent_ids(before.1);
    assert forall|i: int| 0 <= i < r.1.len() implies says_one_thing(#[trigger] r.1[i]) by {
        if i < before.1.len() {
            assert(r.1[i] == before.1[i]);
        }
    }
    if let Some(id) = before.0.id {
        lemma_one_more(start, now.len());
        assert(sent + sent_ids(r.1) =~= now.push(id));
    } else {
        assert(sent + sent_ids(r.1) =~= now);
    }
}

proof fn lemma_step_deltas(
    own: Hermes,
    call: CallState,
    text: Seq<char>,
    start: u64,
    sent: Seq<Seq<char>>,
)
    requires
        parser::call_in_order(call),
        ids_in_turn(start, call, sent),
    ensures
        ({
            let s = hermes::step(own, call, text);
            &&& each_says_one_thing(s.out.tool_calls)
            &&& ids_in_turn(start, s.call, sent + sent_ids(s.out.tool_calls))
        }),
{
    reveal(hermes::step);
    reveal(hermes::emitted_now);
    reveal(hermes::closed_now);
    assert(sent + Seq::<Seq<char>>::empty() =~= sent);
    if call.state == ToolCallState::InToolCall {
        let chunk = if own.bare {
            match braces::balance_from(text, own.braces, 0) {
                Some(end) => text.take(end),
                None => text,
            }
        } else {
            match text::find(text, CLOSE_MARKER@) {
                Some(pos) => text.take(pos),
                None => text.take(text.len() - text::overlap(text, CLOSE_MARKER@)),
            }
        };
        let grown = call.extended(chunk);
        lemma_emitted_deltas(grown, grown.buffer, json::is_json(grown.buffer), start, sent);
        lemma_closing_deltas(grown, json::is_json(grown.buffer), start, sent);
    }
}

proof fn lemma_scan_deltas(
    own: Hermes,
    call: CallState,
    text: Seq<char>,
    start: u64,
    sent: Seq<Seq<char>>,
)
    requires
        parser::call_in_order(call),
        ids_in_turn(start, call, sent),
    ensures
        ({
            let r = hermes::scan(own, call, text);
            &&& each_says_one_thing(r.2.tool_calls)
            &&& ids_in_turn(start, r.1, sent + sent_ids(r.2.tool_calls))
        }),
    decreases text.len(), hermes::rank(call.state),
{
    assert(sent + Seq::<Seq<char>>::empty() =~= sent);
    if text.len() > 0 {
        let s = hermes::step(own, call, text);
        hermes_laws::lemma_step_sound(own, call, text);
        hermes_laws::lemma_step_in_order(own, call, text);
        lemma_step_deltas(own, call, text, start, sent);
        if let Some(next) = s.next {
            let now = sent + sent_ids(s.out.tool_calls);
            lemma_scan_deltas(s.own, s.call, text.skip(next), start, now);
            let rest = hermes::scan(s.own, s.call, text.skip(next));
            lemma_sent_ids(s.out.tool_calls, rest.2.tool_calls);
            assert(now + sent_ids(rest.2.tool_calls) =~= sent + (sent_ids(s.out.tool_calls)
                + sent_ids(rest.2.tool_calls)));
        }
    }
}

/// Each delta of a chunk says one thing: it announces a call, carries a fragment
/// that is not empty, or completes a call.
pub proof fn law_each_delta_says_one_thing(
    own: Hermes,
    call: CallState,
    text: Seq<char>,
    start: u64,
    sent: Seq<Seq<char>>,
)
    requires
        parser::call_in_order(call),
        ids_in_turn(start, call, sent),
    ensures
        each_says_one_thing(HermesParser::fed(own, call, text).2.tool_calls),
{
    lemma_scan_deltas(
        Hermes { pending: Seq::empty(), ..own },
        call,
        own.pending + text,
        start,
        sent,
    );
}

/// The ids that a batch of chunks sends go on in turn from those that were sent
/// before: each call gets the next id that its generator draws, and gets it once.
pub proof fn law_ids_come_in_turn(
    own: Hermes,
    call: CallState,
    chunks: Seq<Seq<char>>,
    start: u64,
    sent: Seq<Seq<char>>,
)
    requires
        parser::call_in_order(call),
        ids_in_turn(start, call, sent),
    ensures
        ({
            let (_, call1, out) = parser::fed_all::<HermesParser>(own, call, chunks);
            ids_in_turn(start, call1, sent + sent_ids(out.tool_calls))
        }),
    decreases chunks.len(),
{
    assert(sent + Seq::<Seq<char>>::empty() =~= sent);
    if chunks.len() > 0 {
        let init = chunks.drop_last();
        law_ids_come_in_turn(own, call, init, start, sent);
        hermes_laws::law_batch_in_order(own, call, init);
        let before = parser::fed_all::<HermesParser>(own, call, init);
        let now = sent + sent_ids(before.2.tool_calls);
        lemma_scan_deltas(
            Hermes { pending: Seq::empty(), ..before.0 },
            before.1,
            before.0.pending + chunks.last(),
            start,
            now,
        );
        let after = HermesParser::fed(before.0, before.1, chunks.last());
        lemma_sent_ids(before.2.tool_calls, after.2.tool_calls);
        assert(now + sent_ids(after.2.tool_calls) =~= sent + (sent_ids(before.2.tool_calls)
            + sent_ids(after.2.tool_calls)));
    }
}

/// A new parser has sent no ids.
pub proof fn law_new_parser_has_sent_no_ids(ids: u64)
    ensures
        ids_in_turn(ids, CallState::fresh(ids), Seq::empty()),
{
    assert(drawn(ids, 0) =~= Seq::empty());
}

/// While a call is open, a chunk gives no more than the announcement and one
/// fragment, and the fragment alone once the call is announced.
pub proof fn law_few_deltas(own: Hermes, call: CallState, text: Seq<char>)
    requires
        call.state == ToolCallState::InToolCall,
        HermesParser::fed(own, call, text).1.state == ToolCallState::InToolCall,
        if own.bare {
            braces::balance_from(own.pending + text, own.braces, 0) is None
        } else {
            text::find(own.pending + text, CLOSE_MARKER@) is None
        },
    ensures
        ({
            let deltas = HermesParser::fed(own, call, text).2.tool_calls;
            &&& deltas.len() <= 2
            &&& call.name_emitted ==> deltas.len() <= 1
        }),
{
    reveal(hermes::step);
    reveal(hermes::emitted_now);
}

/// The end of a call gives no more than the announcement, one fragment and the
/// completion.
pub proof fn law_few_closing_deltas(call: CallState)
    ensures
        1 <= hermes::closed_now(call).1.len() <= 3,
        hermes::closed_now(call).1.last().is_complete,
        forall|i: int|
            0 <= i < hermes::closed_now(call).1.len() - 1 ==> !(#[trigger] hermes::closed_now(
                call,
            ).1[i]).is_complete,
{
    reveal(hermes::closed_now);
}

/// Behind a completed call nothing is kept back, and a call without markers can
/// follow. The markers are `<tool_call>` and `</tool_call>`, and a new parser is
/// behind no call.
pub proof fn law_states_and_markers(call: CallState, text: Seq<char>)
    ensures
        hermes::behind_call().after_call,
        !hermes::behind_call().bare,
        hermes::behind_call().pending.len() == 0,
        hermes::scan(hermes::behind_call(), call, text) == HermesParser::fed(
            hermes::behind_call(),
            call,
            text,
        ),
        !HermesParser::initial().after_call,
        !HermesParser::initial().bare,
        HermesParser::initial().pending.len() == 0,
        OPEN_MARKER@ == seq!['<', 't', 'o', 'o', 'l', '_', 'c', 'a', 'l', 'l', '>'],
        CLOSE_MARKER@ == seq!['<', '/', 't', 'o', 'o', 'l', '_', 'c', 'a', 'l', 'l', '>'],
{
    reveal_strlit("<tool_call>");
    reveal_strlit("</tool_call>");
    assert(Seq::<char>::empty() + text =~= text);
    assert(OPEN_MARKER@ =~= seq!['<', 't', 'o', 'o', 'l', '_', 'c', 'a', 'l', 'l', '>']);
    assert(CLOSE_MARKER@ =~= seq!['<', '/', 't', 'o', 'o', 'l', '_', 'c', 'a', 'l', 'l', '>']);
}

} // verus!
