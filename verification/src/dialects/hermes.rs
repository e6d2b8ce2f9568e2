//! Hermes tool-call parser.
//!
//! A tool call is a JSON object between `<tool_call>` and `</tool_call>`:
//!
//! 1. The body between the markers is accumulated as it arrives.
//! 2. As soon as the body shows the `name` field, a delta with the name and
//!    the id is emitted.
//! 3. The arguments are what follows the `"arguments":` key. Each delta
//!    carries the part of them that no earlier delta carried.
//! 4. At the close marker the rest of the arguments is emitted, and the call
//!    is marked complete.
//!
//! After a completed call, a bare `{` continues with another call that has no
//! markers around it: it ends where its braces balance, apart from those inside
//! strings.

use crate::braces;
use crate::braces::{BraceCounter, Braces};
use crate::json;
use crate::parser::{DialectParser, Output, ParseResult};
use crate::text;
use crate::types;
use crate::types::{CallState, Delta, ToolCallArgState, ToolCallDelta, ToolCallState};
use vstd::prelude::*;
use vstd::string::*;

verus! {

/// Opens a tool call.
pub const OPEN_MARKER: &'static str = "<tool_call>";

/// Closes a tool call.
pub const CLOSE_MARKER: &'static str = "</tool_call>";

/// What a [`HermesParser`] holds between chunks.
#[verifier::ext_equal]
pub struct Hermes {
    /// The beginning of a marker with which the text so far ends.
    pub pending: Seq<char>,
    /// Whether nothing but white space has followed a completed call.
    pub after_call: bool,
    /// Whether the current call has no markers around it.
    pub bare: bool,
    /// What has been seen of the braces of such a call.
    pub braces: Braces,
}

/// Hermes tool-call parser.
#[derive(Debug)]
pub struct HermesParser {
    pending: String,
    after_call: bool,
    bare: bool,
    braces: BraceCounter,
}

impl View for HermesParser {
    type V = Hermes;

    closed spec fn view(&self) -> Hermes {
        Hermes {
            pending: self.pending@,
            after_call: self.after_call,
            bare: self.bare,
            braces: self.braces@,
        }
    }
}

/// The name that a match of `"name"\s*:\s*"([^"]+)"` at position `at` gives.
pub open spec fn name_at(body: Seq<char>, at: int) -> Option<Seq<char>> {
    let colon = text::skip_white(body, at + 6);
    let quote = text::skip_white(body, colon + 1);
    if !text::occurs_at(body, "\"name\""@, at) {
        None
    } else if colon >= body.len() || body[colon] != ':' {
        None
    } else if quote >= body.len() || body[quote] != '"' {
        None
    } else {
        match text::find_from(body, seq!['"'], quote + 1) {
            Some(end) => if end > quote + 1 {
                Some(body.subrange(quote + 1, end))
            } else {
                None
            },
            None => None,
        }
    }
}

/// The name that the first match at or after `from` gives.
pub open spec fn name_from(body: Seq<char>, from: int) -> Option<Seq<char>>
    decreases body.len() - from,
{
    if from < 0 || from >= body.len() {
        None
    } else if name_at(body, from) is Some {
        name_at(body, from)
    } else {
        name_from(body, from + 1)
    }
}

/// The tool name in a possibly partial JSON body: the first match of
/// `"name"\s*:\s*"([^"]+)"`.
pub open spec fn tool_name(body: Seq<char>) -> Option<Seq<char>> {
    name_from(body, 0)
}

/// What follows the first `"arguments"` key and the colon behind it, without
/// leading white space.
pub open spec fn arguments_rest(body: Seq<char>) -> Option<Seq<char>> {
    match text::find(body, "\"arguments\""@) {
        Some(key) => match text::find(body.skip(key + 11), seq![':']) {
            Some(colon) => Some(text::trim_start(body.skip(key + 11).skip(colon + 1))),
            None => None,
        },
        None => None,
    }
}

/// Arguments text without the brace that closes the object around it, and
/// without the white space around that brace.
pub open spec fn without_wrapper(rest: Seq<char>) -> Seq<char> {
    let raw = text::trim_end(rest);
    if raw.len() > 0 && raw.last() == '}' {
        text::trim_end(raw.drop_last())
    } else {
        raw
    }
}

/// The arguments text of a body; where the body is complete, without the
/// brace that closes the wrapper object.
pub open spec fn arguments_raw(body: Seq<char>, is_complete: bool) -> Option<Seq<char>> {
    match arguments_rest(body) {
        Some(rest) => Some(
            if is_complete {
                without_wrapper(rest)
            } else {
                rest
            },
        ),
        None => None,
    }
}

/// The delta that announces a call.
pub open spec fn name_delta(call: CallState, name: Seq<char>) -> Delta {
    Delta {
        index: call.call_index(),
        id: call.id,
        name: Some(name),
        arguments_fragment: Seq::empty(),
        is_complete: false,
    }
}

/// A delta that carries a piece of the arguments and nothing else.
pub open spec fn fragment_delta(call: CallState, fragment: Seq<char>) -> Delta {
    Delta {
        index: call.call_index(),
        id: None,
        name: None,
        arguments_fragment: fragment,
        is_complete: false,
    }
}

/// The delta that completes a call. It carries the id if no delta did before.
pub open spec fn closing_delta(call: CallState, fragment: Seq<char>) -> Delta {
    Delta {
        index: call.call_index(),
        id: call.id,
        name: None,
        arguments_fragment: fragment,
        is_complete: true,
    }
}

/// Announce the call, if that has not been done and the body shows the name.
pub open spec fn announced(call: CallState, body: Seq<char>) -> (CallState, Seq<Delta>) {
    match tool_name(body) {
        Some(name) => if call.name_emitted {
            (call, Seq::empty())
        } else {
            (
                CallState { name_emitted: true, id: None, ..call },
                seq![name_delta(call, name)],
            )
        },
        None => (call, Seq::empty()),
    }
}

/// Emit the arguments that have not been emitted.
pub open spec fn streamed(call: CallState, body: Seq<char>, is_complete: bool) -> (
    CallState,
    Seq<Delta>,
) {
    match arguments_raw(body, is_complete) {
        Some(raw) => if raw.len() > call.emitted {
            (
                CallState { emitted: raw.len(), ..call },
                seq![fragment_delta(call, raw.skip(call.emitted as int))],
            )
        } else {
            (call, Seq::empty())
        },
        None => (call, Seq::empty()),
    }
}

/// What can be emitted of a body: first the call is announced; the arguments
/// follow once it is. `is_complete` says whether the body is complete JSON.
pub open spec fn emitted(call: CallState, body: Seq<char>, is_complete: bool) -> (
    CallState,
    Seq<Delta>,
) {
    let head = announced(call, body);
    if head.0.name_emitted {
        let args = streamed(head.0, body, is_complete);
        (args.0, head.1 + args.1)
    } else {
        head
    }
}

/// The part of the arguments of a finished body that has not been emitted.
pub open spec fn last_fragment(call: CallState) -> Seq<char> {
    match arguments_raw(call.buffer, true) {
        Some(raw) => if raw.len() > call.emitted {
            raw.skip(call.emitted as int)
        } else {
            Seq::empty()
        },
        None => Seq::empty(),
    }
}

/// The end of a call whose body is in the buffer: what can be emitted, and
/// the delta that completes the call with the rest of the arguments.
pub open spec fn closing(call: CallState, is_complete: bool) -> (CallState, Seq<Delta>) {
    let sent = emitted(call, call.buffer, is_complete);
    let fragment = last_fragment(sent.0);
    (
        CallState {
            state: ToolCallState::Idle,
            id: None,
            emitted: sent.0.emitted + fragment.len(),
            ..sent.0
        },
        sent.1.push(closing_delta(sent.0, fragment)),
    )
}

/// Emission where the JSON library says whether the body is complete.
#[verifier::opaque]
pub open spec fn emitted_now(call: CallState) -> (CallState, Seq<Delta>) {
    emitted(call, call.buffer, json::is_json(call.buffer))
}

/// The end of a call where the JSON library says whether the body is complete.
#[verifier::opaque]
pub open spec fn closed_now(call: CallState) -> (CallState, Seq<Delta>) {
    closing(call, json::is_json(call.buffer))
}

/// One step of the scan.
pub struct Step {
    /// The parser's own state after the step.
    pub own: Hermes,
    /// The state of the tool call after the step.
    pub call: CallState,
    /// What the step emits.
    pub out: Output,
    /// Where the scan goes on; `None` where the text is used up.
    pub next: Option<int>,
}

/// The state with nothing kept back.
pub open spec fn calm(after_call: bool, bare: bool) -> Hermes {
    Hermes { pending: Seq::empty(), after_call, bare, braces: Braces::none() }
}

/// Whether a text continues a completed call with a bare one.
pub open spec fn continues(own: Hermes, text: Seq<char>) -> bool {
    let lead = text::skip_white(text, 0);
    own.after_call && lead < text.len() && text[lead] == '{'
}

/// A step outside any call. A call begins at a bare `{` behind a completed
/// call, or behind the open marker. Text before it is content; where there is
/// none, what could be the beginning of the marker is kept back.
pub open spec fn idle_step(own: Hermes, call: CallState, text: Seq<char>) -> Step {
    let lead = text::skip_white(text, 0);
    if continues(own, text) {
        Step {
            own: calm(false, true),
            call: call.begun(),
            out: Output::of_content(text.take(lead)),
            next: Some(lead),
        }
    } else {
        match text::find(text, OPEN_MARKER@) {
            Some(pos) => Step {
                own: calm(false, false),
                call: call.begun(),
                out: Output::of_content(text.take(pos)),
                next: Some(pos + OPEN_MARKER@.len()),
            },
            None => {
                let cut = text.len() - text::overlap(text, OPEN_MARKER@);
                Step {
                    own: Hermes {
                        pending: text.skip(cut),
                        after_call: own.after_call && text::all_white(text.take(cut)),
                        ..own
                    },
                    call,
                    out: Output::of_content(text.take(cut)),
                    next: None,
                }
            },
        }
    }
}

/// The state behind a completed call.
pub open spec fn behind_call() -> Hermes {
    calm(true, false)
}

/// A step inside a call without markers: it ends where its braces balance.
pub open spec fn bare_step(own: Hermes, call: CallState, text: Seq<char>) -> Step {
    match braces::balance_from(text, own.braces, 0) {
        Some(end) => {
            let closed = closed_now(call.extended(text.take(end)));
            Step {
                own: behind_call(),
                call: closed.0,
                out: Output::of_calls(closed.1),
                next: Some(end),
            }
        },
        None => {
            let sent = emitted_now(call.extended(text));
            Step {
                own: Hermes {
                    pending: Seq::empty(),
                    braces: braces::braces_from(text, own.braces, 0),
                    ..own
                },
                call: sent.0,
                out: Output::of_calls(sent.1),
                next: None,
            }
        },
    }
}

/// A step inside a call with markers: it ends at the close marker. Where there
/// is none, what could be the beginning of it is kept back.
pub open spec fn marked_step(own: Hermes, call: CallState, text: Seq<char>) -> Step {
    match text::find(text, CLOSE_MARKER@) {
        Some(pos) => {
            let closed = closed_now(call.extended(text.take(pos)));
            Step {
                own: behind_call(),
                call: closed.0,
                out: Output::of_calls(closed.1),
                next: Some(pos + CLOSE_MARKER@.len()),
            }
        },
        None => {
            let cut = text.len() - text::overlap(text, CLOSE_MARKER@);
            let sent = if cut > 0 {
                emitted_now(call.extended(text.take(cut)))
            } else {
                (call, Seq::empty())
            };
            Step {
                own: Hermes { pending: text.skip(cut), ..own },
                call: sent.0,
                out: Output::of_calls(sent.1),
                next: None,
            }
        },
    }
}

/// One step of the scan.
#[verifier::opaque]
pub open spec fn step(own: Hermes, call: CallState, text: Seq<char>) -> Step {
    match call.state {
        ToolCallState::Idle => idle_step(own, call, text),
        ToolCallState::InToolCall => if own.bare {
            bare_step(own, call, text)
        } else {
            marked_step(own, call, text)
        },
        ToolCallState::Complete => Step {
            own,
            call: call.idled(),
            out: Output::none(),
            next: Some(0),
        },
    }
}

/// How far a state is from taking up text.
pub open spec fn rank(state: ToolCallState) -> nat {
    match state {
        ToolCallState::Complete => 2,
        ToolCallState::Idle => 1,
        ToolCallState::InToolCall => 0,
    }
}

/// What comes of a text: step by step, until it is used up.
pub open spec fn scan(own: Hermes, call: CallState, text: Seq<char>) -> (Hermes, CallState, Output)
    decreases text.len(), rank(call.state),
{
    if text.len() == 0 {
        (own, call, Output::none())
    } else {
        let s = step(own, call, text);
        match s.next {
            Some(next) => if 0 <= next <= text.len() && (next > 0 || rank(s.call.state) < rank(
                call.state,
            )) {
                let rest = scan(s.own, s.call, text.skip(next));
                (rest.0, rest.1, s.out.plus(rest.2))
            } else {
                (s.own, s.call, s.out)
            },
            None => (s.own, s.call, s.out),
        }
    }
}

/// A delta of the current call.
fn delta(
    state: &ToolCallArgState,
    id: Option<String>,
    name: Option<String>,
    arguments_fragment: String,
    is_complete: bool,
) -> (d: ToolCallDelta)
    ensures
        d@ == (Delta {
            index: state@.call_index(),
            id: types::opt_view(id),
            name: types::opt_view(name),
            arguments_fragment: arguments_fragment@,
            is_complete,
        }),
{
    ToolCallDelta { index: state.call_index(), id, name, arguments_fragment, is_complete }
}

/// Where the name stands, if it matches at position `at`.
fn match_name(body: &[char], key: &[char], at: usize) -> (range: Option<(usize, usize)>)
    requires
        key@ == "\"name\""@,
        at <= body@.len(),
    ensures
        match range {
            Some((start, end)) => start <= end <= body@.len() && name_at(body@, at as int) == Some(
                body@.subrange(start as int, end as int),
            ),
            None => name_at(body@, at as int) is None,
        },
{
    proof {
        reveal_strlit("\"name\"");
    }
    let n = body.len();
    if !text::occurs_here(body, key, at) {
        return None;
    }
    let colon = text::skip_white_from(body, at + 6);
    if colon >= n || body[colon] != ':' {
        return None;
    }
    let quote = text::skip_white_from(body, colon + 1);
    if quote >= n || body[quote] != '"' {
        return None;
    }
    let closing_quote: [char; 1] = ['"'];
    assert(closing_quote@ =~= seq!['"']);
    match text::find_chars(body, &closing_quote, quote + 1) {
        Some(end) => {
            proof {
                text::lemma_find_from(body@, seq!['"'], quote + 1);
            }
            if end > quote + 1 {
                Some((quote + 1, end))
            } else {
                None
            }
        },
        None => None,
    }
}

/// The arguments text of a body.
fn arguments_chars(body: &[char], is_complete: bool) -> (raw: Option<&[char]>)
    ensures
        match raw {
            Some(raw) => arguments_raw(body@, is_complete) == Some(raw@),
            None => arguments_raw(body@, is_complete) is None,
        },
{
    let n = body.len();
    let key = text::to_chars("\"arguments\"");
    proof {
        reveal_strlit("\"arguments\"");
        text::lemma_find_from(body@, key@, 0);
    }
    let at = match text::find_chars(body, key.as_slice(), 0) {
        Some(at) => at,
        None => {
            return None;
        },
    };
    let after_key = vstd::slice::slice_subrange(body, at + 11, n);
    assert(after_key@ =~= body@.skip(at + 11));
    let colon: [char; 1] = [':'];
    assert(colon@ =~= seq![':']);
    proof {
        text::lemma_find_from(after_key@, colon@, 0);
    }
    let colon_at = match text::find_chars(after_key, &colon, 0) {
        Some(colon_at) => colon_at,
        None => {
            return None;
        },
    };
    let after_colon = vstd::slice::slice_subrange(after_key, colon_at + 1, after_key.len());
    assert(after_colon@ =~= after_key@.skip(colon_at + 1));
    let rest = text::trim_start_chars(after_colon);
    if !is_complete {
        return Some(rest);
    }
    let raw = text::trim_end_chars(rest);
    if raw.len() > 0 && raw[raw.len() - 1] == '}' {
        let inner = vstd::slice::slice_subrange(raw, 0, raw.len() - 1);
        assert(inner@ =~= raw@.drop_last());
        Some(text::trim_end_chars(inner))
    } else {
        Some(raw)
    }
}

/// What of the arguments text lies beyond the first `already` characters.
fn beyond(raw: &[char], already: usize) -> (fragment: String)
    requires
        already <= raw@.len(),
    ensures
        fragment@ == raw@.skip(already as int),
{
    let rest = vstd::slice::slice_subrange(raw, already, raw.len());
    assert(rest@ =~= raw@.skip(already as int));
    text::from_chars(rest)
}

impl HermesParser {
    /// The state before any text.
    pub open spec fn initial() -> Hermes {
        calm(false, false)
    }

    /// A parser that has seen no text.
    pub fn new() -> (p: Self)
        ensures
            p@ == Self::initial(),
    {
        HermesParser {
            pending: String::new(),
            after_call: false,
            bare: false,
            braces: BraceCounter::new(),
        }
    }

    /// The tool name in a possibly partial JSON body: the first match of
    /// `"name"\s*:\s*"([^"]+)"`, or `None` if the name field is not complete
    /// yet.
    pub fn extract_name(json_str: &str) -> (name: Option<String>)
        ensures
            types::opt_view(name) == tool_name(json_str@),
    {
        let body = text::to_chars(json_str);
        let key = text::to_chars("\"name\"");
        let mut at: usize = 0;
        while at < body.len()
            invariant
                at <= body@.len(),
                body@ == json_str@,
                key@ == "\"name\""@,
                tool_name(body@) == name_from(body@, at as int),
            decreases body@.len() - at,
        {
            if let Some((start, end)) = match_name(body.as_slice(), key.as_slice(), at) {
                let name = text::from_chars(
                    vstd::slice::slice_subrange(body.as_slice(), start, end),
                );
                return Some(name);
            }
            at = at + 1;
        }
        None
    }

    /// The raw arguments text: everything after `"arguments":`, or `None` if
    /// that key has not been seen yet. With `is_complete`, without the `}`
    /// that closes the wrapper object.
    pub fn extract_arguments_raw(json_str: &str, is_complete: bool) -> (raw: Option<String>)
        ensures
            types::opt_view(raw) == arguments_raw(json_str@, is_complete),
    {
        let body = text::to_chars(json_str);
        match arguments_chars(body.as_slice(), is_complete) {
            Some(raw) => Some(text::from_chars(raw)),
            None => None,
        }
    }

    /// Emit what can be emitted of the current tool call, given whether its
    /// body is complete JSON: the name once it is there, then the part of the
    /// arguments that has not been emitted.
    pub fn emit_incremental(
        state: &mut ToolCallArgState,
        json_body: &str,
        is_complete: bool,
        result: &mut ParseResult,
    )
        ensures
            final(state)@ == emitted(old(state)@, json_body@, is_complete).0,
            final(result)@ == old(result)@.plus(
                Output::of_calls(emitted(old(state)@, json_body@, is_complete).1),
            ),
    {
        let ghost before = state@;
        let ghost head = announced(before, json_body@);
        if !state.name_emitted {
            match Self::extract_name(json_body) {
                Some(name) => {
                    state.name_emitted = true;
                    let id = state.take_id();
                    let d = delta(state, id, Some(name), String::new(), false);
                    result.push_call(d);
                },
                None => {
                    assert(result@ =~= old(result)@.plus(Output::of_calls(Seq::empty())));
                    return;
                },
            }
        }
        assert(state@ == head.0);
        assert(result@ =~= old(result)@.plus(Output::of_calls(head.1)));
        let body = text::to_chars(json_body);
        if let Some(raw) = arguments_chars(body.as_slice(), is_complete) {
            let already = state.last_emitted_args_len;
            if raw.len() > already {
                state.last_emitted_args_len = raw.len();
                let d = delta(state, None, None, beyond(raw, already), false);
                result.push_call(d);
            }
        }
        assert(state@ == streamed(head.0, json_body@, is_complete).0);
        assert(result@ =~= old(result)@.plus(
            Output::of_calls(emitted(before, json_body@, is_complete).1),
        ));
    }

    /// Emit what can be emitted of the current tool call. This is called after
    /// every piece of text that is added to the body.
    pub fn try_emit_incremental(
        state: &mut ToolCallArgState,
        json_body: &str,
        result: &mut ParseResult,
    )
        ensures
            final(state)@ == emitted(old(state)@, json_body@, json::is_json(json_body@)).0,
            final(result)@ == old(result)@.plus(
                Output::of_calls(
                    emitted(old(state)@, json_body@, json::is_json(json_body@)).1,
                ),
            ),
    {
        let is_complete = json::is_complete_json(json_body);
        Self::emit_incremental(state, json_body, is_complete, result);
    }

    /// Close the current tool call, given whether its body is complete JSON.
    pub fn close_call(state: &mut ToolCallArgState, is_complete: bool, result: &mut ParseResult)
        ensures
            final(state)@ == closing(old(state)@, is_complete).0,
            final(result)@ == old(result)@.plus(
                Output::of_calls(closing(old(state)@, is_complete).1),
            ),
    {
        let ghost before = state@;
        let json_body = String::from_str(state.arguments_buffer.as_str());
        let body = text::to_chars(json_body.as_str());
        Self::emit_incremental(state, json_body.as_str(), is_complete, result);
        let ghost sent = emitted(before, before.buffer, is_complete);
        assert(sent.0.buffer == before.buffer);
        let mut fragment = String::new();
        if let Some(raw) = arguments_chars(body.as_slice(), true) {
            let already = state.last_emitted_args_len;
            if raw.len() > already {
                fragment = beyond(raw, already);
                state.last_emitted_args_len = raw.len();
            }
        }
        assert(fragment@ =~= last_fragment(sent.0));
        let id = state.take_id();
        let d = delta(state, id, None, fragment, true);
        result.push_call(d);
        state.complete_tool_call();
        assert(result@ =~= old(result)@.plus(Output::of_calls(closing(before, is_complete).1)));
    }
}

/// Whether a position is the expected one.
pub open spec fn same_next(next: Option<usize>, expected: Option<int>) -> bool {
    match next {
        Some(n) => expected == Some(n as int),
        None => expected is None,
    }
}

impl HermesParser {
    /// A step outside any call.
    fn step_idle(
        &mut self,
        rest: &[char],
        state: &mut ToolCallArgState,
        result: &mut ParseResult,
    ) -> (next: Option<usize>)
        ensures
            ({
                let s = idle_step(old(self)@, old(state)@, rest@);
                &&& final(self)@ == s.own
                &&& final(state)@ == s.call
                &&& final(result)@ == old(result)@.plus(s.out)
                &&& same_next(next, s.next)
            }),
            next matches Some(n) ==> n <= rest@.len(),
    {
        if self.after_call {
            let lead = text::skip_white_from(rest, 0);
            if lead < rest.len() && rest[lead] == '{' {
                let space = vstd::slice::slice_subrange(rest, 0, lead);
                result.push_content(text::from_chars(space));
                state.begin_tool_call();
                self.pending = String::new();
                self.after_call = false;
                self.bare = true;
                self.braces = BraceCounter::new();
                assert(self@.pending =~= Seq::empty());
                return Some(lead);
            }
        }
        let n = rest.len();
        let marker = text::to_chars(OPEN_MARKER);
        proof {
            text::lemma_find_from(rest@, marker@, 0);
        }
        match text::find_chars(rest, marker.as_slice(), 0) {
            Some(pos) => {
                let before = vstd::slice::slice_subrange(rest, 0, pos);
                result.push_content(text::from_chars(before));
                state.begin_tool_call();
                self.pending = String::new();
                self.after_call = false;
                self.bare = false;
                self.braces = BraceCounter::new();
                assert(self@.pending =~= Seq::empty());
                Some(pos + marker.len())
            },
            None => {
                let cut = n - text::overlap_len(rest, marker.as_slice());
                let content = vstd::slice::slice_subrange(rest, 0, cut);
                let held = vstd::slice::slice_subrange(rest, cut, n);
                assert(held@ =~= rest@.skip(cut as int));
                assert(content@ =~= rest@.take(cut as int));
                self.after_call = self.after_call && text::only_white(content);
                result.push_content(text::from_chars(content));
                self.pending = text::from_chars(held);
                None
            },
        }
    }

    /// Close the call behind its last piece of text.
    fn close_behind(
        &mut self,
        last: &[char],
        state: &mut ToolCallArgState,
        result: &mut ParseResult,
    )
        ensures
            final(self)@ == behind_call(),
            final(state)@ == closed_now(old(state)@.extended(last@)).0,
            final(result)@ == old(result)@.plus(
                Output::of_calls(closed_now(old(state)@.extended(last@)).1),
            ),
    {
        reveal(closed_now);
        state.extend(text::from_chars(last).as_str());
        let is_complete = json::is_complete_json(state.arguments_buffer.as_str());
        Self::close_call(state, is_complete, result);
        self.pending = String::new();
        self.after_call = true;
        self.bare = false;
        self.braces = BraceCounter::new();
        assert(self@.pending =~= Seq::empty());
    }

    /// Add a piece of text to the body of the call, and emit what can be
    /// emitted.
    fn grow_call(last: &[char], state: &mut ToolCallArgState, result: &mut ParseResult)
        ensures
            final(state)@ == emitted_now(old(state)@.extended(last@)).0,
            final(result)@ == old(result)@.plus(
                Output::of_calls(emitted_now(old(state)@.extended(last@)).1),
            ),
    {
        reveal(emitted_now);
        state.extend(text::from_chars(last).as_str());
        let json_body = String::from_str(state.arguments_buffer.as_str());
        Self::try_emit_incremental(state, json_body.as_str(), result);
    }

    /// A step inside a call without markers.
    fn step_bare(
        &mut self,
        rest: &[char],
        state: &mut ToolCallArgState,
        result: &mut ParseResult,
    ) -> (next: Option<usize>)
        requires
            old(self)@.bare,
            old(self)@.braces.depth <= old(state)@.buffer.len(),
        ensures
            ({
                let s = bare_step(old(self)@, old(state)@, rest@);
                &&& final(self)@ == s.own
                &&& final(state)@ == s.call
                &&& final(result)@ == old(result)@.plus(s.out)
                &&& same_next(next, s.next)
            }),
            next matches Some(n) ==> 0 < n <= rest@.len(),
            next is None ==> final(self)@.braces.depth <= final(state)@.buffer.len(),
    {
        reveal(emitted_now);
        let ghost start = self@.braces;
        let mut whole = String::from_str(state.arguments_buffer.as_str());
        whole.append(text::from_chars(rest).as_str());
        let bound = text::count_bound(whole.as_str());
        let mut counter = self.braces;
        let mut at: usize = 0;
        while at < rest.len()
            invariant
                at <= rest@.len(),
                start.depth <= old(state)@.buffer.len(),
                old(state)@.buffer.len() + rest@.len() <= bound,
                counter@.depth <= start.depth + at,
                *state == *old(state),
                *result == *old(result),
                *self == *old(self),
                start == old(self)@.braces,
                braces::balance_from(rest@, start, 0) == braces::balance_from(
                    rest@,
                    counter@,
                    at as int,
                ),
                braces::braces_from(rest@, start, 0) == braces::braces_from(
                    rest@,
                    counter@,
                    at as int,
                ),
            decreases rest@.len() - at,
        {
            let c = rest[at];
            if counter.is_balanced_by(c) {
                let last = vstd::slice::slice_subrange(rest, 0, at + 1);
                assert(last@ =~= rest@.take(at + 1));
                self.close_behind(last, state, result);
                return Some(at + 1);
            }
            counter.advance(c);
            at = at + 1;
        }
        Self::grow_call(rest, state, result);
        self.pending = String::new();
        self.braces = counter;
        assert(self@.pending =~= Seq::empty());
        None
    }

    /// A step inside a call with markers.
    fn step_marked(
        &mut self,
        rest: &[char],
        state: &mut ToolCallArgState,
        result: &mut ParseResult,
    ) -> (next: Option<usize>)
        ensures
            ({
                let s = marked_step(old(self)@, old(state)@, rest@);
                &&& final(self)@ == s.own
                &&& final(state)@ == s.call
                &&& final(result)@ == old(result)@.plus(s.out)
                &&& same_next(next, s.next)
            }),
            next matches Some(n) ==> 0 < n <= rest@.len(),
    {
        let n = rest.len();
        let marker = text::to_chars(CLOSE_MARKER);
        proof {
            reveal_strlit("</tool_call>");
            text::lemma_find_from(rest@, marker@, 0);
        }
        match text::find_chars(rest, marker.as_slice(), 0) {
            Some(pos) => {
                let last = vstd::slice::slice_subrange(rest, 0, pos);
                assert(last@ =~= rest@.take(pos as int));
                self.close_behind(last, state, result);
                Some(pos + marker.len())
            },
            None => {
                let cut = n - text::overlap_len(rest, marker.as_slice());
                let chunk = vstd::slice::slice_subrange(rest, 0, cut);
                let held = vstd::slice::slice_subrange(rest, cut, n);
                assert(held@ =~= rest@.skip(cut as int));
                assert(chunk@ =~= rest@.take(cut as int));
                if cut > 0 {
                    Self::grow_call(chunk, state, result);
                }
                assert(cut == 0 ==> result@ =~= old(result)@.plus(
                    Output::of_calls(Seq::empty()),
                ));
                self.pending = text::from_chars(held);
                None
            },
        }
    }
}

impl HermesParser {
    /// One step of the scan.
    fn step_once(
        &mut self,
        rest: &[char],
        state: &mut ToolCallArgState,
        result: &mut ParseResult,
    ) -> (next: Option<usize>)
        requires
            Self::fits(old(self)@, old(state)@),
        ensures
            ({
                let s = step(old(self)@, old(state)@, rest@);
                &&& final(self)@ == s.own
                &&& final(state)@ == s.call
                &&& final(result)@ == old(result)@.plus(s.out)
                &&& same_next(next, s.next)
            }),
            next matches Some(n) ==> n <= rest@.len() && (n > 0 || rank(final(state)@.state)
                < rank(old(state)@.state)),
            Self::fits(final(self)@, final(state)@),
    {
        reveal(step);
        reveal(emitted_now);
        reveal(closed_now);
        match state.state {
            ToolCallState::Idle => self.step_idle(rest, state, result),
            ToolCallState::InToolCall => if self.bare {
                self.step_bare(rest, state, result)
            } else {
                self.step_marked(rest, state, result)
            },
            ToolCallState::Complete => {
                state.reset_to_idle();
                assert(result@ =~= old(result)@.plus(Output::none()));
                Some(0)
            },
        }
    }
}

impl DialectParser for HermesParser {
    open spec fn fits(own: Hermes, call: CallState) -> bool {
        call.state == ToolCallState::InToolCall && own.bare ==> own.braces.depth
            <= call.buffer.len()
    }

    open spec fn restarted(own: Hermes) -> Hermes {
        Self::initial()
    }

    open spec fn fed(own: Hermes, call: CallState, text: Seq<char>) -> (
        Hermes,
        CallState,
        Output,
    ) {
        scan(Hermes { pending: Seq::empty(), ..own }, call, own.pending + text)
    }

    open spec fn finished(own: Hermes, call: CallState) -> (Hermes, CallState, Output) {
        if call.state == ToolCallState::InToolCall {
            let closed = closed_now(call.extended(own.pending));
            (Self::initial(), closed.0, Output::of_calls(closed.1))
        } else {
            (Self::initial(), call.idled(), Output::of_content(own.pending))
        }
    }

    open spec fn dialect_name(own: Hermes) -> Seq<char> {
        "hermes"@
    }

    fn name(&self) -> (name: &'static str) {
        "hermes"
    }

    fn feed(&mut self, text: &str, state: &mut ToolCallArgState, result: &mut ParseResult) {
        let mut full_text = String::from_str(self.pending.as_str());
        full_text.append(text);
        self.pending = String::new();
        let chars = text::to_chars(full_text.as_str());
        let mut at: usize = 0;
        let ghost whole = Self::fed(old(self)@, old(state)@, text@);
        assert(self@ == Hermes { pending: Seq::empty(), ..old(self)@ });
        assert(chars@ =~= chars@.skip(0));
        assert(result@ =~= old(result)@.plus(Output::none()));
        while at < chars.len()
            invariant
                at <= chars@.len(),
                Self::fits(self@, state@),
                whole == Self::fed(old(self)@, old(state)@, text@),
                ({
                    let rest = scan(self@, state@, chars@.skip(at as int));
                    &&& whole.0 == rest.0
                    &&& whole.1 == rest.1
                    &&& old(result)@.plus(whole.2) == result@.plus(rest.2)
                }),
            decreases chars@.len() - at, rank(state@.state),
        {
            let rest = vstd::slice::slice_subrange(chars.as_slice(), at, chars.len());
            assert(rest@ =~= chars@.skip(at as int));
            let ghost own0 = self@;
            let ghost call0 = state@;
            let ghost out0 = result@;
            let next = self.step_once(rest, state, result);
            let ghost s = step(own0, call0, rest@);
            match next {
                Some(n) => {
                    proof {
                        assert(chars@.skip(at as int).skip(n as int) =~= chars@.skip(at + n));
                        let tail = scan(s.own, s.call, rest@.skip(n as int));
                        assert(out0.plus(s.out).plus(tail.2) =~= out0.plus(s.out.plus(tail.2)));
                    }
                    at = at + n;
                },
                None => {
                    return;
                },
            }
        }
        assert(result@.plus(Output::none()) =~= result@);
    }

    fn finish(&mut self, state: &mut ToolCallArgState, result: &mut ParseResult) {
        let pending = text::to_chars(self.pending.as_str());
        if state.state == ToolCallState::InToolCall {
            self.close_behind(pending.as_slice(), state, result);
        } else {
            result.push_content(text::from_chars(pending.as_slice()));
            state.reset_to_idle();
        }
        *self = Self::new();
    }

    fn reset(&mut self, state: &mut ToolCallArgState) {
        state.clear();
        *self = Self::new();
    }
}

impl Default for HermesParser {
    fn default() -> (p: Self)
        ensures
            p@ == Self::initial(),
    {
        Self::new()
    }
}

} // verus!
