//! The streaming parsers, dialect by dialect.

use infe::dialects::deepseek::{THINK_CLOSE, THINK_OPEN};
use infe::dialects::hermes::{CLOSE_MARKER, OPEN_MARKER};
use infe::dialects::{HermesParser, Llama3JsonParser};
use infe::ids::{encode_id, make_tool_call_id, xorshift64, IdGenerator};
use infe::json::{get_member, is_complete_json, JsonMember};
use infe::registry::DialectRegistry;
use infe::types::{ParserKind, ReasoningState};
use infe::{
    DialectParser, ParseError, ParseResult, ReasoningDelta, StreamingParser, ToolCallArgState,
    ToolCallDelta, ToolCallState, COMPONENT_NAME,
};

fn parser(name: &str) -> StreamingParser {
    StreamingParser::new(DialectRegistry::create(name).unwrap())
}

fn accumulate_args(deltas: &[ToolCallDelta]) -> String {
    deltas.iter().map(|d| d.arguments_fragment.as_str()).collect()
}

fn find_name(deltas: &[ToolCallDelta]) -> Option<&str> {
    deltas.iter().find_map(|d| d.name.as_deref())
}

// --- registry ------------------------------------------------------------

#[test]
fn registry_lists_known_dialects() {
    let names = DialectRegistry::names();
    assert!(names.contains(&"hermes"));
    assert!(names.contains(&"llama3_json"));
    assert!(names.contains(&"deepseek_reasoning"));
}

#[test]
fn registry_tool_dialects() {
    let tools = DialectRegistry::tool_dialects();
    assert_eq!(tools, vec!["hermes", "llama3_json"]);
}

#[test]
fn registry_reasoning_dialects() {
    let reasoning = DialectRegistry::reasoning_dialects();
    assert_eq!(reasoning, vec!["deepseek_reasoning"]);
}

#[test]
fn registry_kind_lookup() {
    assert_eq!(DialectRegistry::kind("hermes"), Some(ParserKind::Tool));
    assert_eq!(DialectRegistry::kind("deepseek_reasoning"), Some(ParserKind::Reasoning));
    assert_eq!(DialectRegistry::kind("nonexistent"), None);
}

#[test]
fn registry_creates_hermes() {
    let p = DialectRegistry::create("hermes");
    assert!(p.is_ok());
}

#[test]
fn registry_unknown_dialect_errors() {
    let p = DialectRegistry::create("nonexistent");
    assert!(matches!(p, Err(ParseError::UnknownDialect(_))));
}

#[test]
fn registry_agrees_with_itself() {
    for name in DialectRegistry::names() {
        assert!(DialectRegistry::contains(name));
        assert_eq!(DialectRegistry::create(name).unwrap().name(), name);
        let tool = DialectRegistry::tool_dialects().contains(&name);
        let reasoning = DialectRegistry::reasoning_dialects().contains(&name);
        assert_eq!(tool, DialectRegistry::kind(name) == Some(ParserKind::Tool));
        assert_eq!(reasoning, DialectRegistry::kind(name) == Some(ParserKind::Reasoning));
    }
    assert!(!DialectRegistry::contains("Hermes"));
    assert!(!DialectRegistry::contains(""));
}

#[test]
fn parse_error_messages() {
    let e = DialectRegistry::create("mistral").unwrap_err();
    assert_eq!(e.to_text(), "unknown dialect: mistral");
    let e = ParseError::Malformed { dialect: "hermes", detail: "no brace".to_string() };
    assert_eq!(e.to_text(), "parse error in dialect hermes: no brace");
}

#[test]
fn kinds_and_names_as_text() {
    assert_eq!(ParserKind::Tool.as_str(), "tool");
    assert_eq!(ParserKind::Reasoning.as_str(), "reasoning");
    assert_eq!(COMPONENT_NAME, "infe-parsers");
}

// --- ids and call state --------------------------------------------------

#[test]
fn tool_call_ids_are_unique() {
    let mut ids = Vec::new();
    for _ in 0..100 {
        let id = make_tool_call_id();
        assert!(id.starts_with("call_"));
        assert_eq!(id.len(), 13, "id should be call_ + 8 chars");
        ids.push(id);
    }
    let unique: std::collections::HashSet<_> = ids.into_iter().collect();
    assert_eq!(unique.len(), 100, "IDs should be unique");
}

#[test]
fn tool_call_ids_are_alphanumeric() {
    for _ in 0..50 {
        let id = make_tool_call_id();
        assert!(id.starts_with("call_"));
        for c in id["call_".len()..].chars() {
            assert!(c.is_ascii_alphanumeric(), "id char '{c}' should be alphanumeric");
        }
    }
}

#[test]
fn begin_tool_call_generates_different_ids() {
    let mut state = ToolCallArgState::new();
    state.begin_tool_call();
    let id1 = state.id.clone().unwrap();
    state.complete_tool_call();
    state.reset_to_idle();
    state.begin_tool_call();
    let id2 = state.id.clone().unwrap();
    assert_ne!(id1, id2, "consecutive tool calls should have different IDs");
}

#[test]
fn ids_of_a_seeded_generator() {
    let mut ids = IdGenerator::seeded(0, 1);
    assert_eq!(ids.next_id(), "call_7y2m6raa");
    assert_eq!(ids.next_id(), "call_fh2wynx6");
    let mut ids = IdGenerator::seeded(3, 0xdeadbeef1234567);
    assert_eq!(ids.next_id(), "call_v83cgjjl");
    assert_eq!(encode_id(0), "call_aaaaaaaa");
    assert_eq!(encode_id(35), "call_9aaaaaaa");
    assert_eq!(encode_id(36), "call_abaaaaaa");
}

#[test]
fn one_generator_does_not_repeat_soon() {
    let mut ids = IdGenerator::new();
    let drawn: std::collections::HashSet<_> = (0..100).map(|_| ids.next_id()).collect();
    assert_eq!(drawn.len(), 100);
}

#[test]
fn call_state_goes_round() {
    let mut state = ToolCallArgState::default();
    assert_eq!(state.state, ToolCallState::default());
    assert_eq!(state.state, ToolCallState::Idle);
    assert_eq!(state.index, None);
    state.begin_tool_call();
    assert_eq!(state.state, ToolCallState::InToolCall);
    assert_eq!((state.index, state.next_index), (Some(0), 1));
    state.arguments_buffer.push('x');
    state.name_emitted = true;
    state.last_emitted_args_len = 3;
    state.reset_to_idle();
    assert_eq!(state.state, ToolCallState::InToolCall);
    state.complete_tool_call();
    assert_eq!(state.state, ToolCallState::Idle);
    assert_eq!((state.index, state.next_index), (Some(0), 1));
    assert_eq!(state.arguments_buffer, "x");
    assert!(state.name_emitted && state.id.is_some());
    assert_eq!(state.last_emitted_args_len, 3);
    state.state = ToolCallState::Complete;
    state.reset_to_idle();
    assert_eq!(state.state, ToolCallState::Idle);
    state.begin_tool_call();
    assert_eq!((state.index, state.next_index), (Some(1), 2));
    assert_eq!(state.arguments_buffer, "");
    assert!(!state.name_emitted);
    assert_eq!(state.last_emitted_args_len, 0);
    assert_eq!(ReasoningState::default(), ReasoningState::Idle);
}

// --- Hermes --------------------------------------------------------------

#[test]
fn hermes_plain_content_passes_through() {
    let mut p = parser("hermes");
    let r = p.feed("Hello, world!");
    assert!(r.tool_calls.is_empty());
    assert_eq!(r.content, vec!["Hello, world!".to_string()]);
}

#[test]
fn tool_call_single_chunk() {
    let mut p = parser("hermes");
    let input = format!("{OPEN_MARKER}{{\"name\":\"fn\",\"arguments\":{{}}}}{CLOSE_MARKER}");
    let r = p.feed(&input);
    let completed: Vec<_> = r.tool_calls.iter().filter(|d| d.is_complete).collect();
    assert_eq!(completed.len(), 1);
    assert_eq!(find_name(&r.tool_calls).unwrap(), "fn");
}

#[test]
fn tool_call_extracts_arguments_subobject() {
    let mut p = parser("hermes");
    let input = format!(
        "{OPEN_MARKER}{{\"name\":\"get_weather\",\"arguments\":{{\"city\":\"London\"}}}}{CLOSE_MARKER}"
    );
    let r = p.feed(&input);
    let completed: Vec<_> = r.tool_calls.iter().filter(|d| d.is_complete).collect();
    assert_eq!(completed.len(), 1);
    assert_eq!(find_name(&r.tool_calls).unwrap(), "get_weather");
    let args = accumulate_args(&r.tool_calls);
    assert!(
        args.contains("\"city\"") && args.contains("\"London\""),
        "args should contain city/London, got: {args}"
    );
    assert!(!args.contains("\"name\""), "args should NOT contain the name field, got: {args}");
    assert_eq!(args, "{\"city\":\"London\"}");
}

#[test]
fn tool_call_generates_id_on_first_delta() {
    let mut p = parser("hermes");
    let input = format!("{OPEN_MARKER}{{\"name\":\"fn\",\"arguments\":{{}}}}{CLOSE_MARKER}");
    let r = p.feed(&input);
    assert!(!r.tool_calls.is_empty());
    let first = &r.tool_calls[0];
    assert!(first.id.is_some(), "first delta should have an id");
    let id = first.id.as_ref().unwrap();
    assert!(id.starts_with("call_"), "id should start with call_, got: {id}");
}

#[test]
fn multiple_tool_calls_get_incrementing_indexes() {
    let mut p = parser("hermes");
    let input = format!(
        "{OPEN_MARKER}{{\"name\":\"fn1\",\"arguments\":{{\"a\":1}}}}{CLOSE_MARKER}{OPEN_MARKER}{{\"name\":\"fn2\",\"arguments\":{{\"b\":2}}}}{CLOSE_MARKER}"
    );
    let r = p.feed(&input);
    let completed: Vec<_> = r.tool_calls.iter().filter(|d| d.is_complete).collect();
    assert_eq!(completed.len(), 2);
    assert_eq!(completed[0].index, 0);
    assert_eq!(completed[1].index, 1);
    let names: Vec<_> = r.tool_calls.iter().filter_map(|d| d.name.as_deref()).collect();
    assert!(names.contains(&"fn1"));
    assert!(names.contains(&"fn2"));
}

#[test]
fn tool_call_streamed_across_chunks() {
    let mut p = parser("hermes");
    let marker_prefix = &OPEN_MARKER[..5];
    let r1 = p.feed(marker_prefix);
    assert!(r1.is_empty());
    p.feed(&OPEN_MARKER[5..]);
    let args = "{\"name\":\"get_weather\",\"arguments\":{\"city\":\"";
    let r3 = p.feed(args);
    assert!(!r3.tool_calls.is_empty(), "should emit name delta when name is available");
    assert_eq!(find_name(&r3.tool_calls).unwrap(), "get_weather");
    assert!(r3.tool_calls[0].id.is_some());
    let _ = p.feed("London\"}}");
    let r5 = p.feed(CLOSE_MARKER);
    let last = r5.tool_calls.last().expect("at least one delta");
    assert!(last.is_complete);
}

#[test]
fn partial_marker_not_emitted_as_content() {
    let mut p = parser("hermes");
    let r1 = p.feed("Hello <tool");
    assert_eq!(r1.content.len(), 1);
    assert_eq!(r1.content[0], "Hello ");
    assert!(r1.tool_calls.is_empty());
    p.feed("_call>{}");
    let r3 = p.feed(CLOSE_MARKER);
    assert!(!r3.tool_calls.is_empty());
}

#[test]
fn content_after_tool_call() {
    let mut p = parser("hermes");
    let input = format!("{OPEN_MARKER}{{\"name\":\"fn\",\"arguments\":{{}}}}{CLOSE_MARKER}");
    p.feed(&input);
    let r = p.feed(" Done.");
    assert!(!r.content.is_empty());
    assert!(r.content[0].contains("Done"));
}

#[test]
fn arguments_are_streamed_as_diffs() {
    let mut p = parser("hermes");
    let _ = p.feed(OPEN_MARKER);
    let r_name = p.feed("{\"name\":\"fn\",\"arguments\":");
    assert_eq!(find_name(&r_name.tool_calls).unwrap(), "fn");
    let r = p.feed("{\"city\":\"London\"}");
    assert!(!r.tool_calls.is_empty());
    let r2 = p.feed(CLOSE_MARKER);
    let _completed = r2.tool_calls.iter().find(|d| d.is_complete).expect("a completion delta");
}

#[test]
fn incremental_argument_streaming() {
    let mut p = parser("hermes");
    let _ = p.feed(OPEN_MARKER);
    let _ = p.feed("{\"name\":\"fn\",\"arguments\":");
    let mut all_args = String::new();
    for piece in ["{\"city\":", "\"London\"}"] {
        let r = p.feed(piece);
        for tc in &r.tool_calls {
            all_args.push_str(&tc.arguments_fragment);
        }
    }
    let r = p.feed(CLOSE_MARKER);
    for tc in &r.tool_calls {
        all_args.push_str(&tc.arguments_fragment);
    }
    assert!(
        all_args.contains("London"),
        "Accumulated args should contain London, got: {all_args}"
    );
    assert!(
        all_args.contains("\"city\""),
        "Accumulated args should contain city key, got: {all_args}"
    );
}

#[test]
fn hermes_deltas_of_one_call() {
    let mut p = parser("hermes");
    let r = p.feed("<tool_call>{\"name\": \"fn\", \"arg");
    assert_eq!(r.tool_calls.len(), 1);
    assert!(r.tool_calls[0].id.is_some());
    assert_eq!(r.tool_calls[0].name.as_deref(), Some("fn"));
    assert_eq!(r.tool_calls[0].arguments_fragment, "");
    let r = p.feed("uments\": {\"a\": [1");
    assert_eq!(r.tool_calls.len(), 1);
    assert_eq!(r.tool_calls[0].id, None);
    assert_eq!(r.tool_calls[0].name, None);
    assert_eq!(r.tool_calls[0].arguments_fragment, "{\"a\": [1");
    let r = p.feed(", 2]}}</tool_");
    assert_eq!(r.tool_calls.len(), 1);
    assert_eq!(r.tool_calls[0].arguments_fragment, ", 2]}");
    assert!(!r.tool_calls[0].is_complete);
    let r = p.feed("call>");
    assert_eq!(r.tool_calls.len(), 1);
    assert_eq!(r.tool_calls[0].arguments_fragment, "");
    assert!(r.tool_calls[0].is_complete);
    assert_eq!(r.tool_calls[0].id, None);
}

#[test]
fn hermes_call_without_a_name_still_has_an_id() {
    let mut p = parser("hermes");
    let r = p.feed("<tool_call>{}</tool_call>");
    assert_eq!(r.tool_calls.len(), 1);
    assert!(r.tool_calls[0].is_complete);
    assert!(r.tool_calls[0].id.is_some());
    assert_eq!(r.tool_calls[0].name, None);
}

#[test]
fn hermes_markers_behind_other_brackets() {
    let mut p = parser("hermes");
    let r = p.feed("a < b <tool_call>{\"name\":\"f\",\"arguments\":{}}</tool_call>");
    assert_eq!(r.content, vec!["a < b "]);
    assert_eq!(find_name(&r.tool_calls), Some("f"));
    assert_eq!(accumulate_args(&r.tool_calls), "{}");
}

#[test]
fn hermes_text_that_is_not_ascii() {
    let mut p = parser("hermes");
    let r = p.feed("caf\u{e9} \u{2603}<tool_call>{\"name\":\"f\",\"arguments\":{\"q\":\"\u{e9}t");
    assert_eq!(r.content, vec!["caf\u{e9} \u{2603}"]);
    assert_eq!(accumulate_args(&r.tool_calls), "{\"q\":\"\u{e9}t");
    let r = p.feed("\u{e9}\"}}</tool_call>");
    assert_eq!(accumulate_args(&r.tool_calls), "\u{e9}\"}");
}

#[test]
fn hermes_bare_continuation() {
    let mut p = parser("hermes");
    let first = "<tool_call>{\"name\":\"f1\",\"arguments\":{\"a\":1}}</tool_call>";
    let r = p.feed(first);
    assert_eq!(r.tool_calls.last().unwrap().index, 0);
    let r = p.feed("\n{\"name\":\"f2\",\"arguments\":{\"b\":");
    assert_eq!(r.content, vec!["\n"]);
    assert_eq!(find_name(&r.tool_calls), Some("f2"));
    assert!(r.tool_calls.iter().all(|d| d.index == 1 && !d.is_complete));
    assert_eq!(accumulate_args(&r.tool_calls), "{\"b\":");
    let r = p.feed("{}}} tail");
    assert_eq!(accumulate_args(&r.tool_calls), "{}}");
    assert!(r.tool_calls.last().unwrap().is_complete);
    assert_eq!(r.content, vec![" tail"]);
    // Behind other text a brace is content.
    let r = p.feed(" {\"name\":\"f3\"}");
    assert!(r.tool_calls.is_empty());
    assert_eq!(r.content, vec![" {\"name\":\"f3\"}"]);
    // And so it is before any call.
    let r = parser("hermes").feed("{\"name\":\"f3\"}");
    assert_eq!(r.content, vec!["{\"name\":\"f3\"}"]);
}

#[test]
fn hermes_finish_closes_an_open_call() {
    let mut p = parser("hermes");
    p.feed("<tool_call>{\"name\":\"f\",\"arguments\":{\"a\":1}}</tool");
    let r = p.finish();
    let last = r.tool_calls.last().unwrap();
    assert!(last.is_complete);
    let r = p.feed("after");
    assert_eq!(r.content, vec!["after"]);
    p.feed("<tool");
    let r = p.finish();
    assert_eq!(r.content, vec!["<tool"]);
    assert!(p.finish().is_empty());
}

#[test]
fn hermes_name_extraction() {
    assert_eq!(HermesParser::extract_name("{\"name\" : \"fn\", "), Some("fn".to_string()));
    assert_eq!(HermesParser::extract_name("{\"name\":\"f"), None);
    assert_eq!(HermesParser::extract_name("{\"name\":\"\"}"), None);
    assert_eq!(HermesParser::extract_name("{\"name\":1,\"name\":\"g\"}"), Some("g".to_string()));
    assert_eq!(HermesParser::extract_name("{\"title\":\"x\"}"), None);
}

#[test]
fn hermes_argument_extraction() {
    let body = "{\"name\":\"f\",\"arguments\" : {\"a\":1} } ";
    assert_eq!(
        HermesParser::extract_arguments_raw(body, false),
        Some("{\"a\":1} } ".to_string())
    );
    assert_eq!(HermesParser::extract_arguments_raw(body, true), Some("{\"a\":1}".to_string()));
    assert_eq!(HermesParser::extract_arguments_raw("{\"arguments\"", false), None);
    assert_eq!(HermesParser::extract_arguments_raw("{\"name\":\"f\"}", true), None);
    assert_eq!(
        HermesParser::extract_arguments_raw("{\"arguments\": [1", true),
        Some("[1".to_string())
    );
}

#[test]
fn hermes_emission_for_each_answer_of_the_json_library() {
    let body = "{\"name\":\"f\",\"arguments\":{} }";
    for (complete, expected) in [(false, "{} }"), (true, "{}")] {
        let mut state = ToolCallArgState::new();
        state.begin_tool_call();
        let mut result = ParseResult::new();
        HermesParser::emit_incremental(&mut state, body, complete, &mut result);
        assert_eq!(accumulate_args(&result.tool_calls), expected);
        assert_eq!(state.last_emitted_args_len, expected.len());
        assert!(state.name_emitted);
        let mut again = ParseResult::new();
        HermesParser::emit_incremental(&mut state, body, complete, &mut again);
        assert!(again.is_empty());
    }
    let mut state = ToolCallArgState::new();
    state.begin_tool_call();
    state.arguments_buffer = body.to_string();
    let mut result = ParseResult::new();
    HermesParser::close_call(&mut state, true, &mut result);
    assert_eq!(accumulate_args(&result.tool_calls), "{}");
    assert_eq!(state.state, ToolCallState::Idle);
    let mut state = ToolCallArgState::new();
    state.begin_tool_call();
    let mut result = ParseResult::new();
    HermesParser::try_emit_incremental(&mut state, body, &mut result);
    assert_eq!(accumulate_args(&result.tool_calls), "{}");
}

#[test]
fn complete_json() {
    assert!(is_complete_json("{\"a\": [1, 2.5, null]}"));
    assert!(is_complete_json(" true "));
    assert!(!is_complete_json("{\"a\": [1, 2.5"));
    assert!(!is_complete_json("{} x"));
    assert!(!is_complete_json(""));
}

// --- Llama-3 JSON --------------------------------------------------------

#[test]
fn llama3_json_plain_content_passes_through() {
    let mut p = parser("llama3_json");
    let r = p.feed("Hello, world!");
    assert!(r.tool_calls.is_empty());
    assert!(!r.content.is_empty());
    let joined: String = r.content.join("");
    assert!(joined.contains("Hello"));
    assert_eq!(joined, "Hello, world!");
}

#[test]
fn json_tool_call_single_chunk() {
    let mut p = parser("llama3_json");
    let r = p.feed(r#"{"name":"get_weather","parameters":{"city":"London"}}"#);
    let completed: Vec<_> = r.tool_calls.iter().filter(|d| d.is_complete).collect();
    assert_eq!(completed.len(), 1);
    assert!(completed[0].is_complete);
    assert_eq!(completed[0].name.as_deref(), Some("get_weather"));
    let args = &completed[0].arguments_fragment;
    assert!(args.contains("\"London\""));
    assert!(!args.contains("\"name\""));
}

#[test]
fn json_tool_call_generates_id() {
    let mut p = parser("llama3_json");
    let r = p.feed(r#"{"name":"fn","parameters":{}}"#);
    assert!(!r.tool_calls.is_empty());
    let first = &r.tool_calls[0];
    assert!(first.id.is_some());
    assert!(first.id.as_ref().unwrap().starts_with("call_"));
}

#[test]
fn multiple_json_calls_get_incrementing_indexes() {
    let mut p = parser("llama3_json");
    let _ = p.feed(r#"{"name":"fn1","parameters":{"a":1}}"#);
    let r = p.feed(r#"{"name":"fn2","parameters":{"b":2}}"#);
    let completed: Vec<_> = r.tool_calls.iter().filter(|d| d.is_complete).collect();
    assert_eq!(completed.len(), 1);
    assert_eq!(completed[0].index, 1);
    assert_eq!(completed[0].name.as_deref(), Some("fn2"));
}

#[test]
fn json_tool_call_streamed() {
    let mut p = parser("llama3_json");
    let _r1 = p.feed(r#"{"name":"#);
    let _r2 = p.feed(r#""get_weather","#);
    let _r3 = p.feed(r#""parameters":{"city":"#);
    let r4 = p.feed(r#""London"}}"#);
    assert!(!r4.tool_calls.is_empty());
    let completed = r4.tool_calls.iter().find(|d| d.is_complete).unwrap();
    assert_eq!(completed.name.as_deref(), Some("get_weather"));
}

#[test]
fn nested_json_braces() {
    let mut p = parser("llama3_json");
    let r = p.feed(r#"{"name":"fn","parameters":{"nested":{"a":1}}}"#);
    assert_eq!(r.tool_calls.len(), 1);
    assert!(r.tool_calls[0].is_complete);
}

#[test]
fn content_before_and_after_json() {
    let mut p = parser("llama3_json");
    let r1 = p.feed("Sure! ");
    assert!(!r1.content.is_empty());
    let r2 = p.feed(r#"{"name":"fn","parameters":{}}"#);
    assert_eq!(r2.tool_calls.len(), 1);
    assert!(r2.tool_calls[0].is_complete);
    let r3 = p.feed(" Done.");
    assert!(!r3.content.is_empty());
}

#[test]
fn llama3_json_parts_of_a_body() {
    let parts = Llama3JsonParser::extract_name_and_params;
    assert_eq!(
        parts(r#"{"name":"f","parameters":{"b": 1, "a": [true]}}"#),
        (Some("f".to_string()), r#"{"a":[true],"b":1}"#.to_string())
    );
    // A string is its content; "arguments" stands in for "parameters".
    assert_eq!(
        parts(r#"{"name":"f","arguments":"{\"a\":1}"}"#),
        (Some("f".to_string()), r#"{"a":1}"#.to_string())
    );
    assert_eq!(parts(r#"{"name":7}"#), (None, "{}".to_string()));
    assert_eq!(parts("[]"), (None, "{}".to_string()));
    // Text that is not JSON.
    assert_eq!(
        parts(r#"{"name" : "f", oops}"#),
        (Some("f".to_string()), r#"{"name" : "f", oops}"#.to_string())
    );
    assert_eq!(parts("{oops}"), (None, "{oops}".to_string()));
}

#[test]
fn llama3_json_members_for_each_answer_of_the_json_library() {
    let member = |key: &str, is_string: bool, text: &str| JsonMember {
        key: key.to_string(),
        is_string,
        text: text.to_string(),
    };
    let members = Some(vec![member("name", true, "f"), member("parameters", false, "[1]")]);
    assert_eq!(
        Llama3JsonParser::name_and_params_of("x", &members),
        (Some("f".to_string()), "[1]".to_string())
    );
    let members = Some(vec![member("name", false, "1"), member("arguments", true, "s")]);
    assert_eq!(
        Llama3JsonParser::name_and_params_of("x", &members),
        (None, "s".to_string())
    );
    assert_eq!(
        Llama3JsonParser::name_and_params_of("\"name\":\"g\"", &None),
        (Some("g".to_string()), "\"name\":\"g\"".to_string())
    );
    let list = vec![member("a", true, "1"), member("b", false, "2")];
    assert_eq!(get_member(&list, "b").map(|m| m.text.as_str()), Some("2"));
    assert!(get_member(&list, "c").is_none());
}

#[test]
fn llama3_json_completion_sends_only_what_is_new() {
    let mut state = ToolCallArgState::new();
    state.begin_tool_call();
    state.last_emitted_args_len = 2;
    let mut result = ParseResult::new();
    Llama3JsonParser::complete_call(&mut state, Some("f".to_string()), "{\"a\":1}", &mut result);
    let d = &result.tool_calls[0];
    assert_eq!(d.arguments_fragment, "a\":1}");
    assert_eq!(d.name.as_deref(), Some("f"));
    assert!(d.is_complete && d.id.is_some());
    assert_eq!(state.state, ToolCallState::Idle);
    assert_eq!(state.last_emitted_args_len, 7);
    // Once the name has been emitted, it is not repeated.
    let mut result = ParseResult::new();
    Llama3JsonParser::complete_call(&mut state, Some("f".to_string()), "{}", &mut result);
    assert_eq!(result.tool_calls[0].name, None);
    assert_eq!(result.tool_calls[0].arguments_fragment, "");
}

#[test]
fn llama3_json_finish_closes_an_open_call() {
    let mut p = parser("llama3_json");
    p.feed(r#"{"name":"f","parameters":{"a"#);
    let r = p.finish();
    assert_eq!(r.tool_calls.len(), 1);
    assert!(r.tool_calls[0].is_complete);
    assert_eq!(r.tool_calls[0].name.as_deref(), Some("f"));
    assert_eq!(r.tool_calls[0].arguments_fragment, r#"{"name":"f","parameters":{"a"#);
    assert_eq!(p.feed("x").content, vec!["x"]);
}

// --- DeepSeek reasoning --------------------------------------------------

#[test]
fn plain_content_no_reasoning() {
    let mut p = parser("deepseek_reasoning");
    let r = p.feed("Hello, world!");
    assert!(r.reasoning.is_empty());
    assert!(!r.content.is_empty());
}

#[test]
fn reasoning_single_block() {
    let mut p = parser("deepseek_reasoning");
    let input = format!("{THINK_OPEN}Let me think.{THINK_CLOSE}Done.");
    let r = p.feed(&input);
    assert!(!r.reasoning.is_empty());
    let last = r.reasoning.last().unwrap();
    assert!(last.is_complete);
    let joined: String = r.content.join("");
    assert!(joined.contains("Done"));
    assert!(!r.content.is_empty());
}

#[test]
fn reasoning_streamed_across_chunks() {
    let mut p = parser("deepseek_reasoning");
    let r1 = p.feed("<thi");
    assert!(r1.is_empty());
    let r2 = p.feed("nk>");
    assert!(r2.reasoning.is_empty());
    let r3 = p.feed("Reasoning here");
    assert!(!r3.reasoning.is_empty());
    assert!(!r3.reasoning[0].is_complete);
    let r4 = p.feed(THINK_CLOSE);
    assert!(!r4.reasoning.is_empty());
    let last = r4.reasoning.last().unwrap();
    assert!(last.is_complete);
}

#[test]
fn reasoning_deltas_exactly() {
    let thought = |fragment: &str, is_complete: bool| ReasoningDelta {
        fragment: fragment.to_string(),
        is_complete,
    };
    let mut p = parser("deepseek_reasoning");
    let r = p.feed("a<think>b</think>c<think>d<");
    assert_eq!(r.content, vec!["a", "c"]);
    assert_eq!(r.reasoning, vec![thought("b", false), thought("", true), thought("d", false)]);
    let r = p.finish();
    assert_eq!(r.reasoning, vec![thought("<", false)]);
    assert!(r.content.is_empty());
}

// --- sessions ------------------------------------------------------------

/// What a client has at the end of a stream: the content, the reasoning and its
/// completions, and of each call the index, the name and the arguments.
type Story = (String, String, usize, Vec<(usize, Option<String>, String)>);

fn story(p: &mut StreamingParser, chunks: &[&str]) -> Story {
    let mut all = p.feed_batch(chunks);
    let last = p.finish();
    all.tool_calls.extend(last.tool_calls);
    all.reasoning.extend(last.reasoning);
    all.content.extend(last.content);
    let mut calls: Vec<(usize, Option<String>, String)> = Vec::new();
    let mut open = false;
    for d in all.tool_calls {
        if open {
            assert_eq!(d.id, None);
            assert_eq!(d.name, None);
            let call = calls.last_mut().unwrap();
            assert_eq!(call.0, d.index);
            call.2.push_str(&d.arguments_fragment);
        } else {
            assert!(d.id.is_some());
            assert_eq!(d.index, calls.len());
            calls.push((d.index, d.name, d.arguments_fragment));
        }
        open = !d.is_complete;
    }
    assert!(!open);
    let thoughts: String = all.reasoning.iter().map(|r| r.fragment.as_str()).collect();
    let completions = all.reasoning.iter().filter(|r| r.is_complete).count();
    (all.content.concat(), thoughts, completions, calls)
}

fn every_cut(name: &str, text: &str) -> Story {
    let expected = story(&mut parser(name), &[text]);
    let cuts: Vec<usize> = text.char_indices().map(|(i, _)| i).collect();
    for &cut in &cuts {
        assert_eq!(story(&mut parser(name), &[&text[..cut], &text[cut..]]), expected);
    }
    let letters: Vec<String> = text.chars().map(|c| c.to_string()).collect();
    let letters: Vec<&str> = letters.iter().map(|s| s.as_str()).collect();
    assert_eq!(story(&mut parser(name), &letters), expected);
    expected
}

#[test]
fn hermes_chunks_do_not_matter() {
    let text = "Hi <<tool_call>{\"name\":\"f\",\"arguments\":{\"x\":\"</tool\"}}</tool_call>\n{\"name\":\"g\",\"arguments\":{\"y\":{}}}\u{e9}";
    let told = every_cut("hermes", text);
    assert_eq!(told.0, "Hi <\n\u{e9}");
    assert_eq!(
        told.3,
        vec![
            (0, Some("f".to_string()), "{\"x\":\"</tool\"}".to_string()),
            (1, Some("g".to_string()), "{\"y\":{}}".to_string()),
        ]
    );
}

#[test]
fn llama3_json_chunks_do_not_matter() {
    let text = r#"A{"name":"f","parameters":{"a":{}}}B{"name":"g"}"#;
    let told = every_cut("llama3_json", text);
    assert_eq!(told.0, "AB");
    assert_eq!(
        told.3,
        vec![
            (0, Some("f".to_string()), r#"{"a":{}}"#.to_string()),
            (1, Some("g".to_string()), "{}".to_string()),
        ]
    );
}

#[test]
fn deepseek_chunks_do_not_matter() {
    let told = every_cut("deepseek_reasoning", "<<think>why </thin k</think>so\u{2603}</think>");
    assert_eq!(told, ("<so\u{2603}</think>".to_string(), "why </thin k".to_string(), 1, vec![]));
}

#[test]
fn a_batch_is_its_chunks_in_turn() {
    let mut one = parser("hermes");
    let mut other = parser("hermes");
    let chunks = ["a<tool_", "call>{}", "</tool_call>", "b"];
    let batch = one.feed_batch(&chunks);
    let mut contents = Vec::new();
    let mut calls = 0;
    for chunk in chunks {
        let r = other.feed(chunk);
        contents.extend(r.content);
        calls += r.tool_calls.len();
    }
    assert_eq!(batch.content, contents);
    assert_eq!(batch.tool_calls.len(), calls);
    assert!(one.feed_batch(&[]).is_empty());
}

#[test]
fn reset_starts_over() {
    for (name, open) in [("hermes", "<tool_call>{\"na"), ("llama3_json", "{{"), ("deepseek_reasoning", "<think>")] {
        let mut p = parser(name);
        p.feed(open);
        p.reset();
        let r = p.feed("plain");
        assert_eq!(r.content.concat(), "plain");
        assert!(r.tool_calls.is_empty() && r.reasoning.is_empty());
    }
    let mut p = parser("hermes");
    let r1 = p.feed("<tool_call>{}</tool_call>");
    p.reset();
    let r2 = p.feed("<tool_call>{}</tool_call>");
    assert_eq!(r2.tool_calls[0].index, 0);
    assert_ne!(r1.tool_calls[0].id, r2.tool_calls[0].id);
}

#[test]
fn parse_results_are_empty_at_first() {
    let r = ParseResult::default();
    assert!(r.is_empty());
    assert_eq!(r, ParseResult::new());
}

#[test]
fn hermes_an_announced_name_stays_right() {
    let body = "{\"name\":\"f\",\"arguments\":{\"name\":\"g\"}}";
    for (end, _) in body.char_indices() {
        if let Some(name) = HermesParser::extract_name(&body[..end]) {
            assert_eq!(name, "f");
        }
    }
    assert_eq!(HermesParser::extract_name(body), Some("f".to_string()));
}

#[test]
fn hermes_trailing_space_behind_the_arguments() {
    // In one chunk the body is complete JSON: exactly the arguments value.
    let call = "<tool_call>{\"name\":\"f\",\"arguments\": {\"a\":1} }\n</tool_call>";
    let r = parser("hermes").feed(call);
    assert_eq!(accumulate_args(&r.tool_calls), "{\"a\":1}");
    // A fragment that was sent while the body was open is not taken back.
    let mut p = parser("hermes");
    let mut args = accumulate_args(&p.feed("<tool_call>{\"name\":\"f\",\"arguments\": {\"a\":1} ").tool_calls);
    args.push_str(&accumulate_args(&p.feed("}\n</tool_call>").tool_calls));
    assert_eq!(args, "{\"a\":1} ");
}

#[test]
fn text_that_only_looks_like_a_marker_is_kept() {
    for name in ["hermes", "deepseek_reasoning"] {
        for text in ["a <tool_cal", "<thin", "x</think", "<<<"] {
            let told = story(&mut parser(name), &[text]);
            assert_eq!(told.0, text);
        }
    }
}

#[test]
fn deepseek_plain_text_passes_at_once() {
    let mut p = parser("deepseek_reasoning");
    assert_eq!(p.feed("no tags here").content, vec!["no tags here"]);
    assert_eq!(p.feed("<thi").content, Vec::<String>::new());
    assert_eq!(p.finish().content, vec!["<thi"]);
}

#[test]
fn llama3_json_brace_inside_a_string() {
    let mut parser = Llama3JsonParser::new();
    let mut state = ToolCallArgState::new();
    let mut result = ParseResult::new();
    parser.feed(r#"{"name":"fn","parameters":{"s":"}"}}"#, &mut state, &mut result);
    assert_eq!(result.tool_calls.len(), 1);
    assert_eq!(result.tool_calls[0].name.as_deref(), Some("fn"));
    assert_eq!(result.tool_calls[0].arguments_fragment, r#"{"s":"}"}"#);
    assert!(result.tool_calls[0].is_complete);
    assert!(result.content.is_empty());
}

#[test]
fn llama3_json_escapes_inside_a_string() {
    for args in [r#"{"s":"\"}{"}"#, r#"{"s":"\\"}"#, r#"{"s":"{{\\\"}"}"#] {
        let text = format!("a{{\"name\":\"fn\",\"parameters\":{args}}}b");
        let told = every_cut("llama3_json", &text);
        assert_eq!(told.0, "ab");
        assert_eq!(told.3, vec![(0, Some("fn".to_string()), args.to_string())]);
    }
}

#[test]
fn hermes_bare_call_with_a_brace_inside_a_string() {
    let text = "<tool_call>{\"name\":\"f\",\"arguments\":{}}</tool_call>{\"name\":\"g\",\"arguments\":{\"s\":\"}\\\"}\"}}.";
    let told = every_cut("hermes", text);
    assert_eq!(told.0, ".");
    assert_eq!(told.3[1], (1, Some("g".to_string()), "{\"s\":\"}\\\"}\"}".to_string()));
}

#[test]
fn llama3_json_takes_the_character_behind_a_completed_call() {
    let mut parser = Llama3JsonParser::new();
    let mut state = ToolCallArgState::new();
    state.begin_tool_call();
    state.state = ToolCallState::Complete;
    let mut result = ParseResult::new();
    parser.feed("xy", &mut state, &mut result);
    assert_eq!(result.content, vec!["x", "y"]);
    assert_eq!(state.state, ToolCallState::Idle);
    state.state = ToolCallState::Complete;
    parser.feed("{}", &mut state, &mut result);
    assert_eq!(result.tool_calls.len(), 1);
    assert_eq!(result.tool_calls[0].index, 1);
}

#[test]
fn hermes_streamed_arguments_are_exact() {
    for name in ["fn", "arguments", "name", "get_weather_2"] {
        for args in ["{}", "{\"city\":\"London\"}", "{\"arguments\": {\"name\": \"x\"} }", "[1, {}]"] {
            let text = format!(
                "{OPEN_MARKER}{{\"name\":\"{name}\",\"arguments\":{args}}}{CLOSE_MARKER}"
            );
            let told = every_cut("hermes", &text);
            assert_eq!(told.0, "");
            assert_eq!(told.3, vec![(0, Some(name.to_string()), args.to_string())]);
        }
    }
}

#[test]
fn new_states_are_equal_and_clones_draw_their_own_ids() {
    let state = ToolCallArgState::new();
    assert_eq!(state, ToolCallArgState::new());
    let mut one = state.clone();
    let mut other = state.clone();
    assert_eq!(one, other);
    one.begin_tool_call();
    other.begin_tool_call();
    assert_ne!(one.id, other.id);
    assert_ne!(one, other);
}

#[test]
fn ids_agree_where_the_lowest_digits_do() {
    let count = 36u64.pow(8);
    assert_eq!(encode_id(5), encode_id(5 + count));
    assert_ne!(encode_id(5), encode_id(6 + count));
    // The one way for successive ids to be the same.
    let state = 17_867_187_096_738_267_192;
    assert_eq!(state % count, xorshift64(state) % count);
    assert_eq!(encode_id(state), encode_id(xorshift64(state)));
}

#[test]
fn a_reset_parser_is_as_new() {
    let text = "x<tool_call>{\"name\":\"f\",\"arguments\":{}}</tool_call>{<think>t</think>}";
    for name in DialectRegistry::names() {
        for before in ["", "<tool_call>{\"na", "{\"a\":\"", "<think>", "<tool_call>{}</tool_call>"] {
            let mut p = parser(name);
            p.feed(before);
            p.reset();
            assert_eq!(story(&mut p, &[text]), story(&mut parser(name), &[text]));
        }
    }
}

#[test]
fn hermes_arguments_are_exact_wherever_the_call_stands() {
    let first = "{\"a\": \"</tool\"}";
    let second = "[{\"arguments\": \"}\"}, 2]";
    let third = "{\"deep\":{\"er\":{}}}";
    let text = format!(
        "Let me see < \n<tool_call>\n{{\"name\": \"f\", \"arguments\": {first}}}\n \n</tool_call>\n{{\"name\":\"g\",\"arguments\":{second}}}\t{{\"name\":\"g\",\"arguments\":{third}}} and <tool_call>{{\"name\":\"h\",\"arguments\":{third}}}</tool_call>."
    );
    let told = every_cut("hermes", &text);
    assert_eq!(told.0, "Let me see < \n\n\t and .");
    let expected = [("f", first), ("g", second), ("g", third), ("h", third)];
    assert_eq!(told.3.len(), expected.len());
    for (i, (name, args)) in expected.iter().enumerate() {
        assert_eq!(told.3[i], (i, Some(name.to_string()), args.to_string()));
    }
}

#[test]
fn hermes_arguments_of_a_call_without_a_close_marker_are_exact() {
    let told = every_cut("hermes", "x<tool_call>{\"name\":\"f\",\"arguments\":{\"a\":{}}}\n");
    assert_eq!(told.0, "x");
    assert_eq!(told.3, vec![(0, Some("f".to_string()), "{\"a\":{}}".to_string())]);
}
