//! What arrives is not held back: after every chunk of a Hermes stream, all that
//! can be emitted has been emitted.

use crate::braces;
use crate::dialects::hermes;
use crate::dialects::hermes::{Hermes, HermesParser, CLOSE_MARKER, OPEN_MARKER};
use crate::dialects::hermes_laws;
use crate::json;
use crate::parser;
use crate::parser::DialectParser;
use crate::text;
use crate::types::{CallState, ToolCallState};
use vstd::prelude::*;
use vstd::string::*;

verus! {

/// Whether nothing of the current call is held back: the call has been announced
/// exactly if its body shows the name, and from then on as many characters of
/// the arguments have been emitted as the body shows.
pub open spec fn caught_up(call: CallState) -> bool {
    call.state == ToolCallState::InToolCall ==> {
        &&& call.name_emitted <==> hermes::tool_name(call.buffer) is Some
        &&& call.name_emitted ==> (hermes::arguments_raw(
            call.buffer,
            json::is_json(call.buffer),
        ) matches Some(raw) ==> call.emitted >= raw.len())
    }
}

/// Whether `sent` begins with all of the arguments text that a body shows.
pub open spec fn covers(sent: Seq<char>, body: Seq<char>) -> bool {
    hermes::arguments_raw(body, json::is_json(body)) matches Some(raw) ==> {
        &&& raw.len() <= sent.len()
        &&& sent.take(raw.len() as int) == raw
    }
}

proof fn lemma_emission_catches_up(call: CallState, more: Seq<char>)
    requires
        call.state == ToolCallState::InToolCall,
        caught_up(call),
    ensures
        caught_up(hermes::emitted_now(call.extended(more)).0),
{
    reveal(hermes::emitted_now);
    if hermes::tool_name(call.buffer) is Some {
        hermes_laws::law_name_is_final(call.buffer, more);
    }
}

proof fn lemma_empty_body_has_no_name()
    ensures
        hermes::tool_name(Seq::empty()) is None,
{
}

proof fn lemma_step_catches_up(own: Hermes, call: CallState, text: Seq<char>)
    requires
        caught_up(call),
    ensures
        caught_up(hermes::step(own, call, text).call),
{
    reveal(hermes::step);
    if call.state == ToolCallState::InToolCall {
        assert(hermes::step(own, call, text).next is Some ==> hermes::step(
            own,
            call,
            text,
        ).call.state == ToolCallState::Idle) by {
            reveal(hermes::closed_now);
        }
        lemma_emission_catches_up(call, text);
        lemma_emission_catches_up(
            call,
            text.take(text.len() - text::overlap(text, CLOSE_MARKER@)),
        );
    } else {
        lemma_empty_body_has_no_name();
    }
}

proof fn lemma_scan_catches_up(own: Hermes, call: CallState, text: Seq<char>)
    requires
        caught_up(call),
    ensures
        caught_up(hermes::scan(own, call, text).1),
    decreases text.len(), hermes::rank(call.state),
{
    if text.len() > 0 {
        let s = hermes::step(own, call, text);
        hermes_laws::lemma_step_sound(own, call, text);
        lemma_step_catches_up(own, call, text);
        if let Some(next) = s.next {
            lemma_scan_catches_up(s.own, s.call, text.skip(next));
        }
    }
}

proof fn lemma_batch_catches_up(own: Hermes, call: CallState, chunks: Seq<Seq<char>>)
    requires
        caught_up(call),
    ensures
        caught_up(parser::fed_all::<HermesParser>(own, call, chunks).1),
    decreases chunks.len(),
{
    if chunks.len() > 0 {
        lemma_batch_catches_up(own, call, chunks.drop_last());
        let before = parser::fed_all::<HermesParser>(own, call, chunks.drop_last());
        lemma_scan_catches_up(
            Hermes { pending: Seq::empty(), ..before.0 },
            before.1,
            before.0.pending + chunks.last(),
        );
    }
}

/// Arguments are streamed as they arrive, not buffered until completion: after
/// every feed, if a call is open and has been announced, the fragments sent so
/// far of that call, appended to one another, begin with all of the arguments
/// text that its body shows by then. And it has been announced exactly if its
/// body shows the name.
pub proof fn law_arguments_are_not_held_back(
    own: Hermes,
    call: CallState,
    chunks: Seq<Seq<char>>,
    sent: Seq<char>,
)
    requires
        hermes_laws::carried(call, sent),
        caught_up(call),
    ensures
        ({
            let (_, call1, out) = parser::fed_all::<HermesParser>(own, call, chunks);
            let sent1 = parser::open_args(sent, out.tool_calls);
            &&& caught_up(call1)
            &&& call1.state == ToolCallState::InToolCall ==> {
                &&& call1.name_emitted <==> hermes::tool_name(call1.buffer) is Some
                &&& call1.name_emitted ==> covers(sent1, call1.buffer)
            }
        }),
{
    lemma_batch_catches_up(own, call, chunks);
    hermes_laws::law_batch_arguments_arrive(own, call, chunks, sent);
    let r = parser::fed_all::<HermesParser>(own, call, chunks);
    let body = r.1.buffer;
    let sent1 = parser::open_args(sent, r.2.tool_calls);
    if r.1.state == ToolCallState::InToolCall && r.1.name_emitted {
        if let Some(rest) = hermes::arguments_rest(body) {
            hermes_laws::lemma_without_wrapper(rest);
            let raw = hermes::arguments_raw(body, json::is_json(body))->0;
            assert(rest.take(rest.len() as int) =~= rest);
            assert(raw =~= rest.take(raw.len() as int));
            assert(sent1.take(raw.len() as int) =~= raw);
        }
    }
}

/// A new parser holds nothing back.
pub proof fn law_new_parser_is_caught_up(ids: u64)
    ensures
        caught_up(CallState::fresh(ids)),
{
}

/// The marker that a state waits for.
pub open spec fn awaited_marker(state: ToolCallState) -> Seq<char> {
    if state == ToolCallState::InToolCall {
        CLOSE_MARKER@
    } else {
        OPEN_MARKER@
    }
}

/// Whether what is kept back must be: it is the beginning, but not the whole, of
/// the marker that can come next, and nothing inside a call without markers.
pub open spec fn keeps_back_little(own: Hermes, call: CallState) -> bool {
    let marker = awaited_marker(call.state);
    &&& own.pending.len() < marker.len()
    &&& own.pending == marker.take(own.pending.len() as int)
    &&& call.state == ToolCallState::InToolCall && own.bare ==> own.pending.len() == 0
}

proof fn lemma_step_keeps_little(own: Hermes, call: CallState, text: Seq<char>)
    requires
        hermes::step(own, call, text).next is None,
    ensures
        keeps_back_little(
            hermes::step(own, call, text).own,
            hermes::step(own, call, text).call,
        ),
{
    reveal(hermes::step);
    reveal(hermes::emitted_now);
    reveal(hermes::closed_now);
    reveal_strlit("<tool_call>");
    reveal_strlit("</tool_call>");
    let marker = awaited_marker(call.state);
    hermes_laws::lemma_step_sound(own, call, text);
    text::lemma_overlap(text, marker);
    text::lemma_find_from(text, marker, 0);
    let k = text::overlap(text, marker) as int;
    if k == marker.len() {
        assert(marker.subrange(0, k) =~= marker);
        assert(text::occurs_at(text, marker, text.len() - k));
    }
    assert(text.subrange(text.len() - k, text.len() as int) =~= text.skip(text.len() - k));
    assert(marker.subrange(0, k) =~= marker.take(k));
    assert(marker.take(0) =~= Seq::empty());
}

proof fn lemma_scan_keeps_little(own: Hermes, call: CallState, text: Seq<char>)
    requires
        own.pending.len() == 0,
    ensures
        ({
            let r = hermes::scan(own, call, text);
            keeps_back_little(r.0, r.1)
        }),
    decreases text.len(), hermes::rank(call.state),
{
    reveal_strlit("<tool_call>");
    reveal_strlit("</tool_call>");
    if text.len() == 0 {
        assert(own.pending =~= awaited_marker(call.state).take(0));
    } else {
        let s = hermes::step(own, call, text);
        hermes_laws::lemma_step_sound(own, call, text);
        match s.next {
            Some(next) => lemma_scan_keeps_little(s.own, s.call, text.skip(next)),
            None => lemma_step_keeps_little(own, call, text),
        }
    }
}

/// No more is kept back than must be: after every feed, the pending text is the
/// beginning, but not the whole, of the marker that can come next.
pub proof fn law_little_is_kept_back(own: Hermes, call: CallState, text: Seq<char>)
    ensures
        ({
            let (own1, call1, _) = HermesParser::fed(own, call, text);
            keeps_back_little(own1, call1)
        }),
{
    lemma_scan_keeps_little(
        Hermes { pending: Seq::empty(), ..own },
        call,
        own.pending + text,
    );
}

/// Whether the first character of a text that is not white space is `{`.
pub open spec fn leads_with_brace(text: Seq<char>) -> bool {
    exists|i: int|
        0 <= i < text.len() && #[trigger] text[i] == '{' && forall|j: int|
            0 <= j < i ==> text::is_white(#[trigger] text[j])
}

proof fn lemma_leads(own: Hermes, text: Seq<char>)
    ensures
        hermes::continues(own, text) <==> own.after_call && leads_with_brace(text),
{
    text::lemma_skip_white(text, 0);
    let lead = text::skip_white(text, 0);
    assert(!text::is_white('{'));
    if leads_with_brace(text) {
        let i = choose|i: int|
            0 <= i < text.len() && #[trigger] text[i] == '{' && forall|j: int|
                0 <= j < i ==> text::is_white(#[trigger] text[j]);
        if i < lead {
            assert(text::is_white(text[i]));
        }
        if lead < i {
            assert(text::is_white(text[lead]));
        }
    }
}

/// Outside any call, text without the open marker, and without a brace that
/// continues a completed call, is all content, apart from what is kept back.
/// Nothing else changes; a completed call can still be continued if all of it
/// was white space.
pub proof fn law_text_outside_calls(own: Hermes, call: CallState, text: Seq<char>)
    requires
        call.state == ToolCallState::Idle,
        text::find(own.pending + text, OPEN_MARKER@) is None,
        own.after_call ==> !leads_with_brace(own.pending + text),
        own.pending.len() + text.len() > 0,
    ensures
        ({
            let (own1, call1, out) = HermesParser::fed(own, call, text);
            let content = (own.pending + text).take(
                own.pending.len() + text.len() - own1.pending.len(),
            );
            &&& call1 == call
            &&& content + own1.pending == own.pending + text
            &&& out.content == (if content.len() > 0 {
                seq![content]
            } else {
                Seq::empty()
            })
            &&& out.tool_calls.len() == 0
            &&& out.reasoning.len() == 0
            &&& own1.after_call == (own.after_call && text::all_white(content))
        }),
{
    let whole = own.pending + text;
    let own0 = Hermes { pending: Seq::empty(), ..own };
    hermes_laws::lemma_step_is(own0, call, whole);
    lemma_leads(own0, whole);
    text::lemma_overlap(whole, OPEN_MARKER@);
    let cut = whole.len() - text::overlap(whole, OPEN_MARKER@);
    assert(whole.take(cut) + whole.skip(cut) =~= whole);
}

/// Inside a call with markers, text without the close marker goes into the body,
/// apart from what is kept back. It is neither content nor reasoning.
pub proof fn law_text_inside_a_marked_call(own: Hermes, call: CallState, text: Seq<char>)
    requires
        call.state == ToolCallState::InToolCall,
        !own.bare,
        text::find(own.pending + text, CLOSE_MARKER@) is None,
    ensures
        ({
            let (own1, call1, out) = HermesParser::fed(own, call, text);
            &&& call1.state == ToolCallState::InToolCall
            &&& !own1.bare
            &&& call1.buffer + own1.pending == call.buffer + own.pending + text
            &&& (call1.index, call1.next_index, call1.ids) == (
                call.index,
                call.next_index,
                call.ids,
            )
            &&& out.content.len() == 0
            &&& out.reasoning.len() == 0
        }),
{
    reveal(hermes::emitted_now);
    let whole = own.pending + text;
    let own0 = Hermes { pending: Seq::empty(), ..own };
    assert(call.buffer + own.pending + text =~= call.buffer + whole);
    if whole.len() == 0 {
        assert(call.buffer + own0.pending =~= call.buffer + whole);
    } else {
        hermes_laws::lemma_step_is(own0, call, whole);
        text::lemma_overlap(whole, CLOSE_MARKER@);
        let cut = whole.len() - text::overlap(whole, CLOSE_MARKER@);
        assert(call.buffer + whole.take(cut) + whole.skip(cut) =~= call.buffer + whole);
        if cut == 0 {
            assert(call.buffer + whole.skip(0) =~= call.buffer + whole);
        }
    }
}

/// Inside a call without markers, text that does not balance its braces goes into
/// the body, all of it. It is neither content nor reasoning.
pub proof fn law_text_inside_a_bare_call(own: Hermes, call: CallState, text: Seq<char>)
    requires
        call.state == ToolCallState::InToolCall,
        own.bare,
        own.pending.len() == 0,
        braces::balance_from(text, own.braces, 0) is None,
    ensures
        ({
            let (own1, call1, out) = HermesParser::fed(own, call, text);
            &&& call1.state == ToolCallState::InToolCall
            &&& own1.bare
            &&& call1.buffer == call.buffer + text
            &&& own1.braces == braces::braces_from(text, own.braces, 0)
            &&& (call1.index, call1.next_index, call1.ids) == (
                call.index,
                call.next_index,
                call.ids,
            )
            &&& out.content.len() == 0
            &&& out.reasoning.len() == 0
        }),
{
    reveal(hermes::emitted_now);
    let own0 = Hermes { pending: Seq::empty(), ..own };
    assert(own.pending + text =~= text);
    if text.len() == 0 {
        assert(call.buffer + text =~= call.buffer);
    } else {
        hermes_laws::lemma_step_is(own0, call, text);
    }
}

} // verus!
