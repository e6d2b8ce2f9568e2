//! Built-in dialects, and the closed choice among them.

use crate::parser::{DialectParser, Output, ParseResult};
use crate::types::{CallState, ToolCallArgState};
use vstd::prelude::*;

pub mod deepseek;
pub mod hermes;
pub mod hermes_arrival;
pub mod hermes_calls;
pub mod hermes_deltas;
pub mod hermes_exact;
pub mod hermes_laws;
pub mod hermes_names;
pub mod hermes_reading;
pub mod id_laws;
pub mod laws;
pub mod llama3_json;

pub use deepseek::DeepSeekReasoningParser;
pub use hermes::HermesParser;
pub use llama3_json::Llama3JsonParser;

verus! {

/// What a [`Dialect`] holds between chunks.
pub enum DialectState {
    Hermes(hermes::Hermes),
    Llama3Json(llama3_json::Llama),
    DeepSeekReasoning(deepseek::Thinking),
}

/// A parser of one of the built-in dialects.
#[derive(Debug)]
pub enum Dialect {
    /// `<tool_call>` markers around JSON.
    Hermes(HermesParser),
    /// Bare JSON with `name` and `parameters`.
    Llama3Json(Llama3JsonParser),
    /// `<think>` reasoning blocks.
    DeepSeekReasoning(DeepSeekReasoningParser),
}

impl View for Dialect {
    type V = DialectState;

    open spec fn view(&self) -> DialectState {
        match self {
            Dialect::Hermes(p) => DialectState::Hermes(p@),
            Dialect::Llama3Json(p) => DialectState::Llama3Json(p@),
            Dialect::DeepSeekReasoning(p) => DialectState::DeepSeekReasoning(p@),
        }
    }
}

impl DialectState {
    /// The state of the same dialect before any text.
    pub open spec fn fresh(self) -> DialectState {
        match self {
            DialectState::Hermes(_) => DialectState::Hermes(HermesParser::initial()),
            DialectState::Llama3Json(_) => DialectState::Llama3Json(Llama3JsonParser::initial()),
            DialectState::DeepSeekReasoning(_) => DialectState::DeepSeekReasoning(
                DeepSeekReasoningParser::initial(),
            ),
        }
    }
}

impl DialectParser for Dialect {
    open spec fn fits(own: DialectState, call: CallState) -> bool {
        match own {
            DialectState::Hermes(p) => HermesParser::fits(p, call),
            DialectState::Llama3Json(p) => Llama3JsonParser::fits(p, call),
            DialectState::DeepSeekReasoning(p) => DeepSeekReasoningParser::fits(p, call),
        }
    }

    open spec fn restarted(own: DialectState) -> DialectState {
        own.fresh()
    }

    open spec fn fed(own: DialectState, call: CallState, text: Seq<char>) -> (
        DialectState,
        CallState,
        Output,
    ) {
        match own {
            DialectState::Hermes(p) => {
                let r = HermesParser::fed(p, call, text);
                (DialectState::Hermes(r.0), r.1, r.2)
            },
            DialectState::Llama3Json(p) => {
                let r = Llama3JsonParser::fed(p, call, text);
                (DialectState::Llama3Json(r.0), r.1, r.2)
            },
            DialectState::DeepSeekReasoning(p) => {
                let r = DeepSeekReasoningParser::fed(p, call, text);
                (DialectState::DeepSeekReasoning(r.0), r.1, r.2)
            },
        }
    }

    open spec fn finished(own: DialectState, call: CallState) -> (
        DialectState,
        CallState,
        Output,
    ) {
        match own {
            DialectState::Hermes(p) => {
                let r = HermesParser::finished(p, call);
                (DialectState::Hermes(r.0), r.1, r.2)
            },
            DialectState::Llama3Json(p) => {
                let r = Llama3JsonParser::finished(p, call);
                (DialectState::Llama3Json(r.0), r.1, r.2)
            },
            DialectState::DeepSeekReasoning(p) => {
                let r = DeepSeekReasoningParser::finished(p, call);
                (DialectState::DeepSeekReasoning(r.0), r.1, r.2)
            },
        }
    }

    open spec fn dialect_name(own: DialectState) -> Seq<char> {
        match own {
            DialectState::Hermes(p) => HermesParser::dialect_name(p),
            DialectState::Llama3Json(p) => Llama3JsonParser::dialect_name(p),
            DialectState::DeepSeekReasoning(p) => DeepSeekReasoningParser::dialect_name(p),
        }
    }

    fn name(&self) -> (name: &'static str) {
        match self {
            Dialect::Hermes(p) => p.name(),
            Dialect::Llama3Json(p) => p.name(),
            Dialect::DeepSeekReasoning(p) => p.name(),
        }
    }

    fn feed(&mut self, text: &str, state: &mut ToolCallArgState, result: &mut ParseResult) {
        match self {
            Dialect::Hermes(p) => p.feed(text, state, result),
            Dialect::Llama3Json(p) => p.feed(text, state, result),
            Dialect::DeepSeekReasoning(p) => p.feed(text, state, result),
        }
    }

    fn finish(&mut self, state: &mut ToolCallArgState, result: &mut ParseResult) {
        match self {
            Dialect::Hermes(p) => p.finish(state, result),
            Dialect::Llama3Json(p) => p.finish(state, result),
            Dialect::DeepSeekReasoning(p) => p.finish(state, result),
        }
    }

    fn reset(&mut self, state: &mut ToolCallArgState) {
        match self {
            Dialect::Hermes(p) => p.reset(state),
            Dialect::Llama3Json(p) => p.reset(state),
            Dialect::DeepSeekReasoning(p) => p.reset(state),
        }
    }
}

} // verus!
