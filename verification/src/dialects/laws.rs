//! Laws of whole sessions, whatever the dialect.

use crate::dialects::{deepseek, hermes_laws, llama3_json};
use crate::dialects::deepseek::Thinking;
use crate::dialects::hermes::Hermes;
use crate::dialects::llama3_json::Llama;
use crate::dialects::{
    DeepSeekReasoningParser, Dialect, DialectState, HermesParser, Llama3JsonParser,
};
use crate::parser;
use crate::parser::{DialectParser, Progress};
use crate::types::{CallState, ToolCallState};
use vstd::prelude::*;

verus! {

/// What holds of a session between chunks: the current call is in order; the
/// Llama-3 JSON dialect announces a call only when it completes it, and the
/// reasoning dialect has no calls.
pub open spec fn in_order(own: DialectState, call: CallState) -> bool {
    &&& parser::call_in_order(call)
    &&& match own {
        DialectState::Hermes(_) => true,
        DialectState::Llama3Json(_) => call.state == ToolCallState::InToolCall
            ==> !call.name_emitted,
        DialectState::DeepSeekReasoning(_) => call.state == ToolCallState::Idle,
    }
}

/// A chunk keeps the session in order, and its deltas come in turn.
proof fn lemma_fed_in_order(own: DialectState, call: CallState, text: Seq<char>)
    requires
        in_order(own, call),
    ensures
        ({
            let (own1, call1, out) = Dialect::fed(own, call, text);
            &&& in_order(own1, call1)
            &&& Progress::of(call).after_all(out.tool_calls) == Some(Progress::of(call1))
        }),
{
    match own {
        DialectState::Hermes(p) => hermes_laws::law_deltas_in_order(p, call, text),
        DialectState::Llama3Json(p) => llama3_json::law_deltas_in_order(p, call, text),
        DialectState::DeepSeekReasoning(p) => deepseek::lemma_no_calls(
            p.in_think,
            p.pending + text,
        ),
    }
}

/// A batch keeps the session in order, and its deltas come in turn.
pub proof fn law_batch_in_order(own: DialectState, call: CallState, chunks: Seq<Seq<char>>)
    requires
        in_order(own, call),
    ensures
        ({
            let (own1, call1, out) = parser::fed_all::<Dialect>(own, call, chunks);
            &&& in_order(own1, call1)
            &&& Progress::of(call).after_all(out.tool_calls) == Some(Progress::of(call1))
        }),
    decreases chunks.len(),
{
    if chunks.len() > 0 {
        law_batch_in_order(own, call, chunks.drop_last());
        let before = parser::fed_all::<Dialect>(own, call, chunks.drop_last());
        lemma_fed_in_order(before.0, before.1, chunks.last());
        let last = Dialect::fed(before.0, before.1, chunks.last());
        parser::lemma_progress(
            Progress::of(call),
            before.2.tool_calls,
            last.2.tool_calls,
        );
    }
}

/// A whole session, from a new parser through any chunks to the end of the
/// stream: the deltas come in turn, and no call is left open. Each call's first
/// delta, and no other, carries its id and may carry its name, all of them carry
/// its index, the last and no other is complete, and the indexes of successive
/// calls count up from 0.
pub proof fn law_session_in_order(dialect: DialectState, ids: u64, chunks: Seq<Seq<char>>)
    ensures
        ({
            let (own1, call1, out1) = parser::fed_all::<Dialect>(
                dialect.fresh(),
                CallState::fresh(ids),
                chunks,
            );
            let (_, call2, out2) = Dialect::finished(own1, call1);
            let start = Progress { open: None, next: 0 };
            &&& call2.state == ToolCallState::Idle
            &&& start.after_all(out1.plus(out2).tool_calls) == Some(
                Progress { open: None, next: call2.next_index },
            )
        }),
{
    let call = CallState::fresh(ids);
    law_batch_in_order(dialect.fresh(), call, chunks);
    let fed = parser::fed_all::<Dialect>(dialect.fresh(), call, chunks);
    match fed.0 {
        DialectState::Hermes(p) => hermes_laws::law_finish_in_order(p, fed.1),
        DialectState::Llama3Json(p) => llama3_json::law_finish_in_order(p, fed.1),
        DialectState::DeepSeekReasoning(p) => {},
    }
    let done = Dialect::finished(fed.0, fed.1);
    parser::lemma_progress(Progress::of(call), fed.2.tool_calls, done.2.tool_calls);
}

/// A parser that was chosen by name does what the parser of its dialect does, with
/// every chunk and at the end of the stream.
pub proof fn law_dialect_is_its_parser(
    h: Hermes,
    l: Llama,
    d: Thinking,
    call: CallState,
    text: Seq<char>,
)
    ensures
        ({
            let (own, call1, out) = HermesParser::fed(h, call, text);
            Dialect::fed(DialectState::Hermes(h), call, text) == (
                DialectState::Hermes(own),
                call1,
                out,
            )
        }),
        ({
            let (own, call1, out) = HermesParser::finished(h, call);
            Dialect::finished(DialectState::Hermes(h), call) == (
                DialectState::Hermes(own),
                call1,
                out,
            )
        }),
        ({
            let (own, call1, out) = Llama3JsonParser::fed(l, call, text);
            Dialect::fed(DialectState::Llama3Json(l), call, text) == (
                DialectState::Llama3Json(own),
                call1,
                out,
            )
        }),
        ({
            let (own, call1, out) = Llama3JsonParser::finished(l, call);
            Dialect::finished(DialectState::Llama3Json(l), call) == (
                DialectState::Llama3Json(own),
                call1,
                out,
            )
        }),
        ({
            let (own, call1, out) = DeepSeekReasoningParser::fed(d, call, text);
            Dialect::fed(DialectState::DeepSeekReasoning(d), call, text) == (
                DialectState::DeepSeekReasoning(own),
                call1,
                out,
            )
        }),
        ({
            let (own, call1, out) = DeepSeekReasoningParser::finished(d, call);
            Dialect::finished(DialectState::DeepSeekReasoning(d), call) == (
                DialectState::DeepSeekReasoning(own),
                call1,
                out,
            )
        }),
        DialectState::Hermes(h).fresh() == DialectState::Hermes(HermesParser::initial()),
        DialectState::Llama3Json(l).fresh() == DialectState::Llama3Json(
            Llama3JsonParser::initial(),
        ),
        DialectState::DeepSeekReasoning(d).fresh() == DialectState::DeepSeekReasoning(
            DeepSeekReasoningParser::initial(),
        ),
{
}

} // verus!
