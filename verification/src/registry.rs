//! Dialect registry: the available parser dialects, selected by name at
//! engine start.
//!
//! Each dialect is either a **tool-call** parser or a **reasoning** parser.
//! The [`ParserKind`] tag tells which engine interface to use.

use crate::dialects::{
    DeepSeekReasoningParser, Dialect, DialectState, HermesParser, Llama3JsonParser,
};
use crate::parser::DialectParser;
use crate::text;
use crate::types::{ParseError, ParserKind};
use vstd::prelude::*;
use vstd::string::*;

verus! {

/// A registry of available parser dialects.
#[derive(Debug, Clone)]
pub struct DialectRegistry;

/// The texts of a list of names.
pub open spec fn texts(names: Seq<&'static str>) -> Seq<Seq<char>> {
    names.map_values(|name: &'static str| name@)
}

/// The names of the tool-call dialects.
pub open spec fn tool_names() -> Seq<Seq<char>> {
    seq!["hermes"@, "llama3_json"@]
}

/// The names of the reasoning dialects.
pub open spec fn reasoning_names() -> Seq<Seq<char>> {
    seq!["deepseek_reasoning"@]
}

/// The kind of the dialect with the given name.
pub open spec fn kind_of(name: Seq<char>) -> Option<ParserKind> {
    if name == "hermes"@ || name == "llama3_json"@ {
        Some(ParserKind::Tool)
    } else if name == "deepseek_reasoning"@ {
        Some(ParserKind::Reasoning)
    } else {
        None
    }
}

/// The state of a new parser of the dialect with the given name.
pub open spec fn new_dialect(name: Seq<char>) -> Option<DialectState> {
    if name == "hermes"@ {
        Some(DialectState::Hermes(HermesParser::initial()))
    } else if name == "llama3_json"@ {
        Some(DialectState::Llama3Json(Llama3JsonParser::initial()))
    } else if name == "deepseek_reasoning"@ {
        Some(DialectState::DeepSeekReasoning(DeepSeekReasoningParser::initial()))
    } else {
        None
    }
}

impl DialectRegistry {
    /// List all registered dialect names.
    pub fn names() -> (names: Vec<&'static str>)
        ensures
            texts(names@) == tool_names() + reasoning_names(),
    {
        let mut names: Vec<&'static str> = Vec::new();
        names.push(HermesParser::new().name());
        names.push(Llama3JsonParser::new().name());
        names.push(DeepSeekReasoningParser::new().name());
        assert(texts(names@) =~= tool_names() + reasoning_names());
        names
    }

    /// List only tool-call dialect names.
    pub fn tool_dialects() -> (names: Vec<&'static str>)
        ensures
            texts(names@) == tool_names(),
    {
        let mut names: Vec<&'static str> = Vec::new();
        names.push("hermes");
        names.push("llama3_json");
        assert(texts(names@) =~= tool_names());
        names
    }

    /// List only reasoning dialect names.
    pub fn reasoning_dialects() -> (names: Vec<&'static str>)
        ensures
            texts(names@) == reasoning_names(),
    {
        let mut names: Vec<&'static str> = Vec::new();
        names.push("deepseek_reasoning");
        assert(texts(names@) =~= reasoning_names());
        names
    }

    /// The kind (tool or reasoning) of a dialect name.
    pub fn kind(name: &str) -> (kind: Option<ParserKind>)
        ensures
            kind == kind_of(name@),
    {
        if text::same_text(name, "hermes") || text::same_text(name, "llama3_json") {
            Some(ParserKind::Tool)
        } else if text::same_text(name, "deepseek_reasoning") {
            Some(ParserKind::Reasoning)
        } else {
            None
        }
    }

    /// Create a new dialect parser by name, or return
    /// [`ParseError::UnknownDialect`] if the name is not recognised.
    pub fn create(name: &str) -> (dialect: Result<Dialect, ParseError>)
        ensures
            match dialect {
                Ok(dialect) => new_dialect(name@) == Some(dialect@),
                Err(error) => new_dialect(name@) is None && (error matches
                    ParseError::UnknownDialect(unknown) && unknown@ == name@),
            },
    {
        if text::same_text(name, "hermes") {
            Ok(Dialect::Hermes(HermesParser::new()))
        } else if text::same_text(name, "llama3_json") {
            Ok(Dialect::Llama3Json(Llama3JsonParser::new()))
        } else if text::same_text(name, "deepseek_reasoning") {
            Ok(Dialect::DeepSeekReasoning(DeepSeekReasoningParser::new()))
        } else {
            Err(ParseError::UnknownDialect(String::from_str(name)))
        }
    }

    /// Check if a dialect is registered.
    pub fn contains(name: &str) -> (registered: bool)
        ensures
            registered == (tool_names() + reasoning_names()).contains(name@),
    {
        proof {
            law_registry_agrees(name@);
        }
        text::same_text(name, "hermes") || text::same_text(name, "llama3_json")
            || text::same_text(name, "deepseek_reasoning")
    }
}

impl Default for DialectRegistry {
    fn default() -> (r: Self)
        ensures
            r == DialectRegistry,
    {
        DialectRegistry
    }
}

/// The registry agrees with itself: a name is listed if and only if it has a
/// kind, and if and only if a parser can be created for it; it is listed among
/// the tool-call or the reasoning dialects as its kind says.
pub proof fn law_registry_agrees(name: Seq<char>)
    ensures
        (tool_names() + reasoning_names()).contains(name) <==> kind_of(name) is Some,
        kind_of(name) is Some <==> new_dialect(name) is Some,
        tool_names().contains(name) <==> kind_of(name) == Some(ParserKind::Tool),
        reasoning_names().contains(name) <==> kind_of(name) == Some(ParserKind::Reasoning),
{
    lemma_names_differ();
    let all = tool_names() + reasoning_names();
    assert(all[0] == "hermes"@ && all[1] == "llama3_json"@ && all[2] == "deepseek_reasoning"@);
    assert(tool_names()[0] == "hermes"@ && tool_names()[1] == "llama3_json"@);
    assert(reasoning_names()[0] == "deepseek_reasoning"@);
}

/// A parser that is created by a name has that name, and is as new.
pub proof fn law_created_by_name(name: Seq<char>)
    ensures
        new_dialect(name) matches Some(state) ==> {
            &&& Dialect::dialect_name(state) == name
            &&& state.fresh() == state
        },
{
}

/// What the names are, and which dialect and kind each is.
pub proof fn law_names()
    ensures
        tool_names() == seq!["hermes"@, "llama3_json"@],
        reasoning_names() == seq!["deepseek_reasoning"@],
        kind_of("hermes"@) == Some(ParserKind::Tool),
        kind_of("llama3_json"@) == Some(ParserKind::Tool),
        kind_of("deepseek_reasoning"@) == Some(ParserKind::Reasoning),
        new_dialect("hermes"@) matches Some(DialectState::Hermes(_)),
        new_dialect("llama3_json"@) matches Some(DialectState::Llama3Json(_)),
        new_dialect("deepseek_reasoning"@) matches Some(DialectState::DeepSeekReasoning(_)),
{
    lemma_names_differ();
}

/// No two dialects have the same name.
proof fn lemma_names_differ()
    ensures
        "hermes"@ != "llama3_json"@,
        "hermes"@ != "deepseek_reasoning"@,
        "llama3_json"@ != "deepseek_reasoning"@,
{
    reveal_strlit("hermes");
    reveal_strlit("llama3_json");
    reveal_strlit("deepseek_reasoning");
    assert("hermes"@.len() == 6);
    assert("llama3_json"@.len() == 11);
    assert("deepseek_reasoning"@.len() == 18);
}

} // verus!
