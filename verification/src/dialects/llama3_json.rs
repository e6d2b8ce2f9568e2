//! Llama-3 JSON tool-call parser.
//!
//! A tool call is a bare JSON object with "name" and "parameters" fields. The
//! parser detects the opening brace of the object, accumulates the object, and
//! emits one complete delta when the closing brace is seen.
//!
//! The arguments are the value of the "parameters" field, not the whole
//! object.

use crate::braces;
use crate::braces::{BraceCounter, Braces};
use crate::json;
use crate::json::JsonMember;
use crate::parser;
use crate::parser::{DialectParser, Output, ParseResult, Progress};
use crate::text;
use crate::types;
use crate::types::{CallState, Delta, ToolCallArgState, ToolCallDelta, ToolCallState};
use vstd::prelude::*;
use vstd::string::*;

verus! {

/// What a [`Llama3JsonParser`] holds between chunks.
#[verifier::ext_equal]
pub struct Llama {
    /// What has been seen of the braces of the current call.
    pub braces: Braces,
}

/// Llama-3 JSON tool-call parser.
#[derive(Debug)]
pub struct Llama3JsonParser {
    braces: BraceCounter,
}

impl View for Llama3JsonParser {
    type V = Llama;

    closed spec fn view(&self) -> Llama {
        Llama { braces: self.braces@ }
    }
}

/// The quoted text behind the first `"name"` key and the colon behind it, in a
/// text that need not be JSON.
pub open spec fn plain_name(text: Seq<char>) -> Option<Seq<char>> {
    match text::find(text, "\"name\""@) {
        Some(key) => match text::find(text.skip(key + 6), seq![':']) {
            Some(colon) => {
                let value = text::trim_start(text.skip(key + 6).skip(colon + 1));
                if value.len() > 0 && value[0] == '"' {
                    match text::find(value.skip(1), seq!['"']) {
                        Some(end) => Some(value.skip(1).take(end)),
                        None => None,
                    }
                } else {
                    None
                }
            },
            None => None,
        },
        None => None,
    }
}

/// The name and the parameters of a body, given the members of the object that
/// it is. The parameters stand under "parameters" or else "arguments"; a body
/// that is not JSON is its own parameters.
pub open spec fn name_and_params(
    body: Seq<char>,
    members: Option<Seq<(Seq<char>, bool, Seq<char>)>>,
) -> (Option<Seq<char>>, Seq<char>) {
    match members {
        Some(members) => (
            match json::member(members, "name"@) {
                Some((true, name)) => Some(name),
                _ => None,
            },
            match json::member(members, "parameters"@) {
                Some((_, params)) => params,
                None => match json::member(members, "arguments"@) {
                    Some((_, params)) => params,
                    None => "{}"@,
                },
            },
        ),
        None => (plain_name(body), body),
    }
}

/// The end of a call with the given name and parameters: the delta that
/// completes it, and the idle state.
pub open spec fn completing(call: CallState, name: Option<Seq<char>>, params: Seq<char>) -> (
    CallState,
    Delta,
) {
    let already = if call.emitted < params.len() {
        call.emitted as int
    } else {
        params.len() as int
    };
    (
        CallState {
            state: ToolCallState::Idle,
            id: None,
            name_emitted: true,
            emitted: params.len(),
            ..call
        },
        Delta {
            index: call.call_index(),
            id: call.id,
            name: if call.name_emitted {
                None
            } else {
                name
            },
            arguments_fragment: params.skip(already),
            is_complete: true,
        },
    )
}

/// The end of a call whose body is in the buffer.
pub open spec fn completed_now(call: CallState) -> (CallState, Delta) {
    let parts = name_and_params(call.buffer, json::json_members(call.buffer));
    completing(call, parts.0, parts.1)
}

/// What comes of one character outside a call: a brace begins one.
pub open spec fn idle_char(own: Llama, call: CallState, c: char) -> (Llama, CallState, Output) {
    if c == '{' {
        (
            Llama { braces: Braces::none().after(c) },
            call.begun().extended(seq![c]),
            Output::none(),
        )
    } else {
        (own, call, Output::of_content(seq![c]))
    }
}

/// What comes of one character. A call ends where its braces balance, apart
/// from those inside strings.
pub open spec fn char_step(own: Llama, call: CallState, c: char) -> (Llama, CallState, Output) {
    match call.state {
        ToolCallState::Idle => idle_char(own, call, c),
        ToolCallState::InToolCall => {
            let grown = call.extended(seq![c]);
            if own.braces.balanced_by(c) {
                let done = completed_now(grown);
                (Llama { braces: Braces::none() }, done.0, Output::of_calls(seq![done.1]))
            } else {
                (Llama { braces: own.braces.after(c) }, grown, Output::none())
            }
        },
        ToolCallState::Complete => idle_char(own, call.idled(), c),
    }
}

/// What comes of a text: character by character.
pub open spec fn char_scan(own: Llama, call: CallState, text: Seq<char>) -> (
    Llama,
    CallState,
    Output,
)
    decreases text.len(),
{
    if text.len() == 0 {
        (own, call, Output::none())
    } else {
        let before = char_scan(own, call, text.drop_last());
        let last = char_step(before.0, before.1, text.last());
        (last.0, last.1, before.2.plus(last.2))
    }
}

/// A copy of a string.
fn copy(s: &String) -> (r: String)
    ensures
        r@ == s@,
{
    String::from_str(s.as_str())
}

/// The quoted text behind the first `"name"` key.
fn plain_name_of(json_str: &str) -> (name: Option<String>)
    ensures
        types::opt_view(name) == plain_name(json_str@),
{
    let body = text::to_chars(json_str);
    let key = text::to_chars("\"name\"");
    let colon: [char; 1] = [':'];
    let quote: [char; 1] = ['"'];
    assert(colon@ =~= seq![':']);
    assert(quote@ =~= seq!['"']);
    proof {
        reveal_strlit("\"name\"");
        text::lemma_find_from(body@, key@, 0);
    }
    let at = match text::find_chars(body.as_slice(), key.as_slice(), 0) {
        Some(at) => at,
        None => {
            return None;
        },
    };
    let n = body.len();
    let after_key = vstd::slice::slice_subrange(body.as_slice(), at + 6, n);
    assert(after_key@ =~= body@.skip(at + 6));
    proof {
        text::lemma_find_from(after_key@, colon@, 0);
    }
    let colon_at = match text::find_chars(after_key, &colon, 0) {
        Some(colon_at) => colon_at,
        None => {
            return None;
        },
    };
    let after_colon = vstd::slice::slice_subrange(after_key, colon_at + 1, after_key.len());
    assert(after_colon@ =~= after_key@.skip(colon_at + 1));
    let value = text::trim_start_chars(after_colon);
    if value.len() == 0 || value[0] != '"' {
        return None;
    }
    let rest = vstd::slice::slice_subrange(value, 1, value.len());
    assert(rest@ =~= value@.skip(1));
    proof {
        text::lemma_find_from(rest@, quote@, 0);
    }
    match text::find_chars(rest, &quote, 0) {
        Some(end) => {
            let name = vstd::slice::slice_subrange(rest, 0, end);
            assert(name@ =~= rest@.take(end as int));
            Some(text::from_chars(name))
        },
        None => None,
    }
}

impl Llama3JsonParser {
    /// The state before any text.
    pub open spec fn initial() -> Llama {
        Llama { braces: Braces::none() }
    }

    /// A parser that has seen no text.
    pub fn new() -> (p: Self)
        ensures
            p@ == Self::initial(),
    {
        Llama3JsonParser { braces: BraceCounter::new() }
    }

    /// The name and the parameters of a body, given the members of the object
    /// that it is, or `None` where it is not JSON.
    pub fn name_and_params_of(json_str: &str, members: &Option<Vec<JsonMember>>) -> (parts: (
        Option<String>,
        String,
    ))
        ensures
            (types::opt_view(parts.0), parts.1@) == name_and_params(
                json_str@,
                json::members_view(*members),
            ),
    {
        match members {
            Some(members) => {
                let name = match json::get_member(members, "name") {
                    Some(m) => if m.is_string {
                        Some(copy(&m.text))
                    } else {
                        None
                    },
                    None => None,
                };
                let params = match json::get_member(members, "parameters") {
                    Some(m) => copy(&m.text),
                    None => match json::get_member(members, "arguments") {
                        Some(m) => copy(&m.text),
                        None => String::from_str("{}"),
                    },
                };
                (name, params)
            },
            None => (plain_name_of(json_str), String::from_str(json_str)),
        }
    }

    /// The `name` field and the `parameters` value of a body
    /// `{"name":"fn","parameters":{...}}`. The parameters are a string's
    /// content, or any other value as JSON text.
    pub fn extract_name_and_params(json_str: &str) -> (parts: (Option<String>, String))
        ensures
            (types::opt_view(parts.0), parts.1@) == name_and_params(
                json_str@,
                json::json_members(json_str@),
            ),
    {
        let members = json::parse_members(json_str);
        Self::name_and_params_of(json_str, &members)
    }

    /// Complete the current tool call with the given name and parameters.
    pub fn complete_call(
        state: &mut ToolCallArgState,
        name: Option<String>,
        params: &str,
        result: &mut ParseResult,
    )
        ensures
            final(state)@ == completing(old(state)@, types::opt_view(name), params@).0,
            final(result)@ == old(result)@.plus(
                Output::of_calls(
                    seq![completing(old(state)@, types::opt_view(name), params@).1],
                ),
            ),
    {
        let ghost before = state@;
        let ghost given = types::opt_view(name);
        let chars = text::to_chars(params);
        let n = chars.len();
        let already: usize = if state.last_emitted_args_len < n {
            state.last_emitted_args_len
        } else {
            n
        };
        let diff = vstd::slice::slice_subrange(chars.as_slice(), already, n);
        assert(diff@ =~= params@.skip(already as int));
        let index = state.call_index();
        let name = if state.name_emitted {
            None
        } else {
            name
        };
        let id = state.take_id();
        let delta = ToolCallDelta {
            index,
            id,
            name,
            arguments_fragment: text::from_chars(diff),
            is_complete: true,
        };
        assert(delta@ == completing(before, given, params@).1);
        result.push_call(delta);
        assert(result@ =~= old(result)@.plus(
            Output::of_calls(seq![completing(before, given, params@).1]),
        ));
        state.name_emitted = true;
        state.last_emitted_args_len = n;
        state.complete_tool_call();
    }

    /// Complete the current tool call with what its body says.
    fn complete_now(state: &mut ToolCallArgState, result: &mut ParseResult)
        ensures
            final(state)@ == completed_now(old(state)@).0,
            final(result)@ == old(result)@.plus(
                Output::of_calls(seq![completed_now(old(state)@).1]),
            ),
    {
        let (name, params) = Self::extract_name_and_params(state.arguments_buffer.as_str());
        Self::complete_call(state, name, params.as_str(), result);
    }

    /// Take one character.
    fn feed_char(&mut self, c: char, state: &mut ToolCallArgState, result: &mut ParseResult)
        requires
            Self::fits(old(self)@, old(state)@),
        ensures
            Self::fits(final(self)@, final(state)@),
            final(self)@ == char_step(old(self)@, old(state)@, c).0,
            final(state)@ == char_step(old(self)@, old(state)@, c).1,
            final(result)@ == old(result)@.plus(char_step(old(self)@, old(state)@, c).2),
    {
        let one: [char; 1] = [c];
        assert(one@ =~= seq![c]);
        let text = text::from_chars(&one);
        state.reset_to_idle();
        if state.state == ToolCallState::InToolCall {
            state.extend(text.as_str());
            if self.braces.is_balanced_by(c) {
                Self::complete_now(state, result);
                self.braces = BraceCounter::new();
            } else {
                let _ = text::count_bound(state.arguments_buffer.as_str());
                self.braces.advance(c);
                assert(result@ =~= old(result)@.plus(Output::none()));
            }
        } else if c == '{' {
            self.braces = BraceCounter::new();
            self.braces.advance(c);
            state.begin_tool_call();
            state.extend(text.as_str());
            assert(result@ =~= old(result)@.plus(Output::none()));
        } else {
            result.push_content(text);
        }
    }
}

impl DialectParser for Llama3JsonParser {
    open spec fn fits(own: Llama, call: CallState) -> bool {
        call.state == ToolCallState::InToolCall ==> own.braces.depth <= call.buffer.len()
    }

    open spec fn restarted(own: Llama) -> Llama {
        Self::initial()
    }

    open spec fn fed(own: Llama, call: CallState, text: Seq<char>) -> (Llama, CallState, Output) {
        char_scan(own, call, text)
    }

    open spec fn finished(own: Llama, call: CallState) -> (Llama, CallState, Output) {
        if call.state == ToolCallState::InToolCall {
            let done = completed_now(call);
            (Self::initial(), done.0, Output::of_calls(seq![done.1]))
        } else {
            (Self::initial(), call.idled(), Output::none())
        }
    }

    open spec fn dialect_name(own: Llama) -> Seq<char> {
        "llama3_json"@
    }

    fn name(&self) -> (name: &'static str) {
        "llama3_json"
    }

    fn feed(&mut self, text: &str, state: &mut ToolCallArgState, result: &mut ParseResult) {
        let chars = text::to_chars(text);
        let n = chars.len();
        let mut i: usize = 0;
        assert(result@ =~= old(result)@.plus(Output::none()));
        while i < n
            invariant
                n == chars@.len(),
                chars@ == text@,
                i <= n,
                Self::fits(self@, state@),
                ({
                    let sofar = char_scan(old(self)@, old(state)@, chars@.take(i as int));
                    &&& self@ == sofar.0
                    &&& state@ == sofar.1
                    &&& result@ == old(result)@.plus(sofar.2)
                }),
            decreases n - i,
        {
            let ghost sofar = char_scan(old(self)@, old(state)@, chars@.take(i as int));
            self.feed_char(chars[i], state, result);
            proof {
                let longer = chars@.take(i + 1);
                assert(longer.drop_last() =~= chars@.take(i as int));
                let last = char_step(sofar.0, sofar.1, longer.last());
                assert(old(result)@.plus(sofar.2).plus(last.2) =~= old(result)@.plus(
                    sofar.2.plus(last.2),
                ));
            }
            i = i + 1;
        }
        assert(chars@.take(n as int) =~= text@);
    }

    fn finish(&mut self, state: &mut ToolCallArgState, result: &mut ParseResult) {
        if state.state == ToolCallState::InToolCall {
            Self::complete_now(state, result);
        } else {
            state.reset_to_idle();
            assert(result@ =~= old(result)@.plus(Output::none()));
        }
        *self = Self::new();
    }

    fn reset(&mut self, state: &mut ToolCallArgState) {
        state.clear();
        *self = Self::new();
    }
}

impl Default for Llama3JsonParser {
    fn default() -> (p: Self)
        ensures
            p@ == Self::initial(),
    {
        Self::new()
    }
}

/// How the stream is cut into chunks does not matter at all: two chunks give
/// the same state and the same deltas as the two together.
pub proof fn law_chunks_do_not_matter(
    own: Llama,
    call: CallState,
    first: Seq<char>,
    second: Seq<char>,
)
    ensures
        ({
            let (own1, call1, out1) = Llama3JsonParser::fed(own, call, first);
            let (own2, call2, out2) = Llama3JsonParser::fed(own1, call1, second);
            Llama3JsonParser::fed(own, call, first + second) == (own2, call2, out1.plus(out2))
        }),
    decreases second.len(),
{
    let r1 = char_scan(own, call, first);
    if second.len() == 0 {
        assert(first + second =~= first);
        assert(r1.2.plus(Output::none()) =~= r1.2);
    } else {
        law_chunks_do_not_matter(own, call, first, second.drop_last());
        let both = first + second;
        assert(both.drop_last() =~= first + second.drop_last());
        let before = char_scan(r1.0, r1.1, second.drop_last());
        let last = char_step(before.0, before.1, second.last());
        assert(r1.2.plus(before.2).plus(last.2) =~= r1.2.plus(before.2.plus(last.2)));
    }
}

/// A batch of chunks gives what the whole text gives in one chunk, however it
/// is cut.
pub proof fn law_batch_is_one_text(own: Llama, call: CallState, chunks: Seq<Seq<char>>)
    ensures
        parser::fed_all::<Llama3JsonParser>(own, call, chunks) == Llama3JsonParser::fed(
            own,
            call,
            parser::joined(chunks),
        ),
    decreases chunks.len(),
{
    if chunks.len() > 0 {
        law_batch_is_one_text(own, call, chunks.drop_last());
        law_chunks_do_not_matter(
            own,
            call,
            parser::joined(chunks.drop_last()),
            chunks.last(),
        );
    }
}

/// The deltas of a chunk come in turn: each call has one delta, which carries
/// its id and its index and is complete, and the indexes count up.
pub proof fn law_deltas_in_order(own: Llama, call: CallState, text: Seq<char>)
    requires
        parser::call_in_order(call),
        call.state == ToolCallState::InToolCall ==> !call.name_emitted,
    ensures
        ({
            let (_, call1, out) = Llama3JsonParser::fed(own, call, text);
            &&& parser::call_in_order(call1)
            &&& call1.state == ToolCallState::InToolCall ==> !call1.name_emitted
            &&& Progress::of(call).after_all(out.tool_calls) == Some(Progress::of(call1))
            &&& forall|i: int|
                0 <= i < out.tool_calls.len() ==> (#[trigger] out.tool_calls[i]).is_complete
        }),
    decreases text.len(),
{
    if text.len() > 0 {
        law_deltas_in_order(own, call, text.drop_last());
        let before = char_scan(own, call, text.drop_last());
        let last = char_step(before.0, before.1, text.last());
        reveal_with_fuel(Progress::after_all, 2);
        if last.2.tool_calls.len() > 0 {
            assert(last.2.tool_calls.drop_last() =~= Seq::empty());
        }
        parser::lemma_progress(Progress::of(call), before.2.tool_calls, last.2.tool_calls);
    }
}

/// The end of the stream leaves no call open.
pub proof fn law_finish_in_order(own: Llama, call: CallState)
    requires
        parser::call_in_order(call),
        call.state == ToolCallState::InToolCall ==> !call.name_emitted,
    ensures
        ({
            let (_, call1, out) = Llama3JsonParser::finished(own, call);
            &&& call1.state == ToolCallState::Idle
            &&& Progress::of(call).after_all(out.tool_calls) == Some(Progress::of(call1))
            &&& Progress::of(call1).open is None
        }),
{
    reveal_with_fuel(Progress::after_all, 2);
    if call.state == ToolCallState::InToolCall {
        assert(seq![completed_now(call).1].drop_last() =~= Seq::empty());
    }
}

/// Outside a call, text without `{` passes through as content.
pub proof fn law_plain_content_passes(own: Llama, call: CallState, text: Seq<char>)
    requires
        call.state == ToolCallState::Idle,
        !text.contains('{'),
    ensures
        ({
            let (own1, call1, out) = Llama3JsonParser::fed(own, call, text);
            &&& own1 == own
            &&& call1 == call
            &&& out.tool_calls.len() == 0
            &&& out.reasoning.len() == 0
            &&& parser::joined(out.content) == text
        }),
    decreases text.len(),
{
    if text.len() > 0 {
        let init = text.drop_last();
        assert forall|c: char| init.contains(c) implies text.contains(c) by {
            let i = choose|i: int| 0 <= i < init.len() && init[i] == c;
            assert(text[i] == c);
        }
        law_plain_content_passes(own, call, init);
        assert(text.contains(text.last()));
        let before = char_scan(own, call, init);
        reveal_with_fuel(parser::joined, 2);
        parser::lemma_joined(before.2.content, seq![seq![text.last()]]);
        assert(parser::joined(seq![seq![text.last()]]) =~= seq![text.last()]);
        assert(init.push(text.last()) =~= text);
    }
}

/// Inside an object: the call is begun, and the object so far is its body.
proof fn lemma_inside_object(own: Llama, call: CallState, body: Seq<char>, k: int)
    requires
        call.state == ToolCallState::Idle,
        braces::is_object(body),
        1 <= k < body.len(),
    ensures
        ({
            let r = char_scan(own, call, body.take(k));
            &&& braces::balance_from(body, r.0.braces, k) == Some(body.len() as int)
            &&& r.1 == call.begun().extended(body.take(k))
            &&& r.2 == Output::none()
        }),
    decreases k,
{
    let now = body.take(k);
    let init = body.take(k - 1);
    assert(now.drop_last() =~= init);
    assert(Output::none().plus(Output::none()) =~= Output::none());
    if k == 1 {
        assert(init =~= Seq::empty());
        assert(call.begun().extended(seq!['{']).buffer =~= now);
    } else {
        lemma_inside_object(own, call, body, k - 1);
        assert(call.begun().extended(init).extended(seq![body[k - 1]]).buffer =~= now);
    }
}

/// A JSON object is a call: text without `{` is content, an object whose braces
/// balance at its end, apart from those inside strings, is begun and completed
/// with the whole object as its body, and the rest follows. Its delta carries the
/// name and the parameters of the body, all of them.
pub proof fn law_object_is_call(
    own: Llama,
    call: CallState,
    before: Seq<char>,
    body: Seq<char>,
    after: Seq<char>,
)
    requires
        call.state == ToolCallState::Idle,
        !before.contains('{'),
        braces::is_object(body),
    ensures
        ({
            let done = completed_now(call.begun().extended(body));
            let lead = char_scan(own, call, before);
            let rest = char_scan(Llama3JsonParser::initial(), done.0, after);
            &&& Llama3JsonParser::fed(own, call, before + body + after) == (
                rest.0,
                rest.1,
                lead.2.plus(Output::of_calls(seq![done.1])).plus(rest.2),
            )
            &&& lead.2.tool_calls.len() == 0
            &&& parser::joined(lead.2.content) == before
            &&& (done.1.name, done.1.arguments_fragment) == name_and_params(
                body,
                json::json_members(body),
            )
            &&& done.1.is_complete && done.1.id == call.begun().id
            &&& done.1.index == call.next_index
        }),
{
    law_plain_content_passes(own, call, before);
    law_chunks_do_not_matter(own, call, before + body, after);
    law_chunks_do_not_matter(own, call, before, body);
    let n = body.len() as int;
    assert(n > 1) by {
        reveal_with_fuel(braces::balance_from, 3);
    }
    lemma_inside_object(own, call, body, n - 1);
    assert(body.drop_last() =~= body.take(n - 1));
    let inside = call.begun().extended(body.take(n - 1)).extended(seq![body.last()]);
    assert(inside.buffer =~= body);
    assert(inside == call.begun().extended(body));
    let done = completed_now(inside);
    let params = name_and_params(body, json::json_members(body)).1;
    assert(params.skip(0) =~= params);
    let open = char_scan(own, call, body.take(n - 1)).0.braces;
    assert(open.balanced_by(body.last())) by {
        reveal_with_fuel(braces::balance_from, 2);
    }
    assert(Output::none().plus(Output::of_calls(seq![done.1])) =~= Output::of_calls(
        seq![done.1],
    ));
}

/// The parameters of a body are the text of the member "parameters", whether or
/// not its value is a string.
pub proof fn law_parameters_are_the_member(
    body: Seq<char>,
    members: Seq<(Seq<char>, bool, Seq<char>)>,
    at: int,
)
    requires
        json::distinct_keys(members),
        0 <= at < members.len(),
        members[at].0 == "parameters"@,
    ensures
        name_and_params(body, Some(members)).1 == members[at].2,
{
    json::law_member_is_found(members, at);
}

/// Without a member "parameters", the parameters of a body are the text of the
/// member "arguments", whether or not its value is a string.
pub proof fn law_arguments_stand_in(
    body: Seq<char>,
    members: Seq<(Seq<char>, bool, Seq<char>)>,
    at: int,
)
    requires
        json::distinct_keys(members),
        0 <= at < members.len(),
        members[at].0 == "arguments"@,
        forall|i: int| 0 <= i < members.len() ==> (#[trigger] members[i]).0 != "parameters"@,
    ensures
        name_and_params(body, Some(members)).1 == members[at].2,
{
    json::law_member_is_found(members, at);
    json::law_other_keys_are_missing(members, "parameters"@);
}

/// Without either member, the parameters are an empty object.
pub proof fn law_no_parameters(body: Seq<char>, members: Seq<(Seq<char>, bool, Seq<char>)>)
    requires
        forall|i: int|
            0 <= i < members.len() ==> (#[trigger] members[i]).0 != "parameters"@ && members[i].0
                != "arguments"@,
    ensures
        name_and_params(body, Some(members)).1 == seq!['{', '}'],
{
    reveal_strlit("{}");
    json::law_other_keys_are_missing(members, "parameters"@);
    json::law_other_keys_are_missing(members, "arguments"@);
    assert("{}"@ =~= seq!['{', '}']);
}

/// The name of a body is the text of the member "name" if its value is a string,
/// and no other value is a name.
pub proof fn law_name_is_the_member(
    body: Seq<char>,
    members: Seq<(Seq<char>, bool, Seq<char>)>,
    at: int,
)
    requires
        json::distinct_keys(members),
        0 <= at < members.len(),
        members[at].0 == "name"@,
    ensures
        name_and_params(body, Some(members)).0 == (if members[at].1 {
            Some(members[at].2)
        } else {
            None
        }),
{
    json::law_member_is_found(members, at);
}

/// Without a member "name" there is no name.
pub proof fn law_no_name(body: Seq<char>, members: Seq<(Seq<char>, bool, Seq<char>)>)
    requires
        forall|i: int| 0 <= i < members.len() ==> (#[trigger] members[i]).0 != "name"@,
    ensures
        name_and_params(body, Some(members)).0 is None,
{
    json::law_other_keys_are_missing(members, "name"@);
}

/// A body that is not JSON is its own parameters. Its name is the quoted text
/// behind the first `"name"` and the first colon behind that, if nothing but white
/// space stands between the colon and the quotation mark.
pub proof fn law_body_that_is_not_json(
    body: Seq<char>,
    key: int,
    colon: int,
    quote: int,
    end: int,
)
    requires
        text::occurs_at(body, "\"name\""@, key),
        forall|i: int| 0 <= i < key ==> !#[trigger] text::occurs_at(body, "\"name\""@, i),
        0 <= key && key + 6 <= colon < quote < end < body.len(),
        body[colon] == ':',
        forall|i: int| key + 6 <= i < colon ==> #[trigger] body[i] != ':',
        forall|i: int| colon < i < quote ==> text::is_white(#[trigger] body[i]),
        body[quote] == '"',
        forall|i: int| quote < i < end ==> #[trigger] body[i] != '"',
        body[end] == '"',
    ensures
        name_and_params(body, None) == (Some(body.subrange(quote + 1, end)), body),
{
    text::lemma_find_is(body, "\"name\""@, 0, key);
    let tail = body.skip(key + 6);
    let c = colon - (key + 6);
    assert(tail.subrange(c, c + 1) =~= seq![':']);
    assert forall|i: int| 0 <= i < c implies !#[trigger] text::occurs_at(tail, seq![':'], i) by {
        assert(tail.subrange(i, i + 1)[0] == body[key + 6 + i]);
    }
    text::lemma_find_is(tail, seq![':'], 0, c);
    let after = tail.skip(c + 1);
    assert(after =~= body.skip(colon + 1));
    let lead = quote - (colon + 1);
    text::lemma_skip_white(after, 0);
    assert(!text::is_white('"'));
    let stop = text::skip_white(after, 0);
    if stop < lead {
        assert(after[stop] == body[colon + 1 + stop]);
    } else if lead < stop {
        assert(text::is_white(after[lead]));
    }
    let value = after.skip(lead);
    let inner = value.skip(1);
    assert(inner =~= body.skip(quote + 1));
    let n = end - (quote + 1);
    assert(inner.subrange(n, n + 1) =~= seq!['"']);
    assert forall|i: int| 0 <= i < n implies !#[trigger] text::occurs_at(inner, seq!['"'], i) by {
        assert(inner.subrange(i, i + 1)[0] == body[quote + 1 + i]);
    }
    text::lemma_find_is(inner, seq!['"'], 0, n);
    assert(inner.take(n) =~= body.subrange(quote + 1, end));
}

/// Whatever its name, a body that is not JSON is its own parameters.
pub proof fn law_body_that_is_not_json_is_kept(body: Seq<char>)
    ensures
        name_and_params(body, None).1 == body,
{
}

/// A body that is not JSON and has no `"name"` has no name, and is its own
/// parameters.
pub proof fn law_nameless_body_that_is_not_json(body: Seq<char>)
    requires
        forall|i: int| 0 <= i ==> !#[trigger] text::occurs_at(body, "\"name\""@, i),
    ensures
        name_and_params(body, None) == (None::<Seq<char>>, body),
{
    text::lemma_find_from(body, "\"name\""@, 0);
}

/// The delta that completes a call carries what no delta carried before: the name
/// unless it has been emitted, the id, and the parameters behind the part that
/// has been emitted. It is complete, and the state is idle.
pub proof fn law_completion_is_what_is_new(
    call: CallState,
    name: Option<Seq<char>>,
    params: Seq<char>,
    sent: Seq<char>,
)
    requires
        call.emitted == sent.len(),
        sent.len() <= params.len(),
        sent == params.take(sent.len() as int),
    ensures
        ({
            let (call1, delta) = completing(call, name, params);
            &&& sent + delta.arguments_fragment == params
            &&& delta.id == call.id
            &&& !call.name_emitted ==> delta.name == name
            &&& call.name_emitted ==> delta.name is None
            &&& delta.is_complete
            &&& call.index matches Some(index) ==> delta.index == index
            &&& call1.state == ToolCallState::Idle
            &&& (call1.index, call1.next_index, call1.ids) == (
                call.index,
                call.next_index,
                call.ids,
            )
        }),
{
    assert(sent + params.skip(sent.len() as int) =~= params);
}

/// An object that is not finished emits nothing: the call is begun, and all of the
/// text is its body. At the end of the stream it is completed with the name and
/// the parameters of that body.
pub proof fn law_unfinished_object(own: Llama, call: CallState, text: Seq<char>)
    requires
        call.state == ToolCallState::Idle,
        text.len() > 0 && text[0] == '{',
        braces::balance_from(text, Braces::none(), 0) is None,
    ensures
        ({
            let (own1, call1, out1) = Llama3JsonParser::fed(own, call, text);
            let (_, call2, out2) = Llama3JsonParser::finished(own1, call1);
            &&& call1 == call.begun().extended(text)
            &&& out1 == Output::none()
            &&& call2.state == ToolCallState::Idle
            &&& out2.content.len() == 0 && out2.reasoning.len() == 0 && out2.tool_calls.len() == 1
            &&& out2.tool_calls[0].is_complete && out2.tool_calls[0].id == call.begun().id
            &&& out2.tool_calls[0].index == call.next_index
            &&& (out2.tool_calls[0].name, out2.tool_calls[0].arguments_fragment)
                == name_and_params(text, json::json_members(text))
        }),
{
    lemma_inside_text(own, call, text, text.len() as int);
    assert(text.take(text.len() as int) =~= text);
    let params = name_and_params(text, json::json_members(text)).1;
    assert(params.skip(0) =~= params);
    assert(call.begun().extended(text).buffer =~= text);
}

proof fn lemma_inside_text(own: Llama, call: CallState, text: Seq<char>, k: int)
    requires
        call.state == ToolCallState::Idle,
        text.len() > 0 && text[0] == '{',
        braces::balance_from(text, Braces::none(), 0) is None,
        1 <= k <= text.len(),
    ensures
        ({
            let r = char_scan(own, call, text.take(k));
            &&& braces::balance_from(text, r.0.braces, k) is None
            &&& r.1 == call.begun().extended(text.take(k))
            &&& r.2 == Output::none()
        }),
    decreases k,
{
    let now = text.take(k);
    let init = text.take(k - 1);
    assert(now.drop_last() =~= init);
    assert(Output::none().plus(Output::none()) =~= Output::none());
    if k == 1 {
        assert(init =~= Seq::empty());
        assert(call.begun().extended(seq!['{']).buffer =~= now);
    } else {
        lemma_inside_text(own, call, text, k - 1);
        assert(call.begun().extended(init).extended(seq![text[k - 1]]).buffer =~= now);
    }
}

/// At the end of the stream, outside any call, nothing comes out.
pub proof fn law_finish_outside_calls(own: Llama, call: CallState)
    requires
        call.state == ToolCallState::Idle,
    ensures
        Llama3JsonParser::finished(own, call) == (
            Llama3JsonParser::initial(),
            call,
            Output::none(),
        ),
{
}

/// From `Complete` a chunk gives what it gives from idle.
pub proof fn law_complete_is_as_idle(own: Llama, call: CallState, text: Seq<char>)
    requires
        call.state == ToolCallState::Complete,
        text.len() > 0,
    ensures
        Llama3JsonParser::fed(own, call, text) == Llama3JsonParser::fed(
            own,
            CallState { state: ToolCallState::Idle, ..call },
            text,
        ),
    decreases text.len(),
{
    let idle = CallState { state: ToolCallState::Idle, ..call };
    let init = text.drop_last();
    assert(call.idled() == idle);
    assert(idle.idled() == idle);
    if init.len() > 0 {
        law_complete_is_as_idle(own, call, init);
    } else {
        reveal_with_fuel(char_scan, 2);
        assert(init =~= Seq::empty());
        assert(char_step(own, call, text.last()) == char_step(own, idle, text.last()));
    }
}

} // verus!
