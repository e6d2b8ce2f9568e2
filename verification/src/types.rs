//! Delta types emitted by the streaming parser, and the per-request state of
//! the tool call that is being parsed.
//!
//! The deltas follow the `OpenAI` streaming chunk format.

use crate::ids;
use crate::ids::IdGenerator;
use vstd::prelude::*;
use vstd::string::*;

verus! {

/// The view of an optional string.
pub open spec fn opt_view(s: Option<String>) -> Option<Seq<char>> {
    match s {
        Some(s) => Some(s@),
        None => None,
    }
}

/// What a [`ToolCallDelta`] says.
#[verifier::ext_equal]
pub struct Delta {
    pub index: usize,
    pub id: Option<Seq<char>>,
    pub name: Option<Seq<char>>,
    pub arguments_fragment: Seq<char>,
    pub is_complete: bool,
}

/// A structured tool-call delta, emitted as the parser discovers tool-call
/// content in the token stream.
///
/// Each delta carries a *fragment* of the arguments JSON string: the API
/// server appends it to the accumulated arguments string.
#[derive(Debug, Clone, PartialEq)]
pub struct ToolCallDelta {
    /// Index of the tool call in the message, counted from 0.
    pub index: usize,
    /// Tool-call id, present on the first delta for this call.
    pub id: Option<String>,
    /// Function name, present on the delta that announces the call.
    pub name: Option<String>,
    /// The part of the arguments that no previous delta carried.
    pub arguments_fragment: String,
    /// Whether this delta completes the tool call.
    pub is_complete: bool,
}

impl View for ToolCallDelta {
    type V = Delta;

    open spec fn view(&self) -> Delta {
        Delta {
            index: self.index,
            id: opt_view(self.id),
            name: opt_view(self.name),
            arguments_fragment: self.arguments_fragment@,
            is_complete: self.is_complete,
        }
    }
}

/// What a [`ReasoningDelta`] says.
#[verifier::ext_equal]
pub struct Thought {
    pub fragment: Seq<char>,
    pub is_complete: bool,
}

/// A reasoning-content delta, used by thinking models.
#[derive(Debug, Clone, PartialEq, Eq)]
pub struct ReasoningDelta {
    /// Fragment of reasoning text.
    pub fragment: String,
    /// Whether this delta completes the reasoning block.
    pub is_complete: bool,
}

impl View for ReasoningDelta {
    type V = Thought;

    open spec fn view(&self) -> Thought {
        Thought { fragment: self.fragment@, is_complete: self.is_complete }
    }
}

/// State of the tool call that is being parsed.
#[derive(Debug, Clone, Copy, PartialEq, Eq, Structural)]
pub enum ToolCallState {
    /// Not inside a tool-call block.
    Idle,
    /// Inside the tool-call block, accumulating JSON.
    InToolCall,
    /// Tool call is complete (closing delimiter seen).
    Complete,
}

impl Default for ToolCallState {
    fn default() -> (s: Self)
        ensures
            s == ToolCallState::Idle,
    {
        ToolCallState::Idle
    }
}

/// State of reasoning content.
#[derive(Debug, Clone, Copy, PartialEq, Eq, Structural)]
pub enum ReasoningState {
    /// Not inside a reasoning block.
    Idle,
    /// Inside a reasoning block.
    InReasoning,
    /// The reasoning block is complete.
    Complete,
}

impl Default for ReasoningState {
    fn default() -> (s: Self)
        ensures
            s == ReasoningState::Idle,
    {
        ReasoningState::Idle
    }
}

/// What a [`ToolCallArgState`] holds.
#[verifier::ext_equal]
pub struct CallState {
    pub state: ToolCallState,
    pub buffer: Seq<char>,
    pub id: Option<Seq<char>>,
    pub index: Option<usize>,
    pub next_index: usize,
    pub emitted: nat,
    pub name_emitted: bool,
    pub ids: u64,
}

impl CallState {
    /// The idle state before any tool call, with the given generator state.
    pub open spec fn fresh(ids: u64) -> CallState {
        CallState {
            state: ToolCallState::Idle,
            buffer: Seq::empty(),
            id: None,
            index: None,
            next_index: 0,
            emitted: 0,
            name_emitted: false,
            ids,
        }
    }

    /// The state after a tool call has begun: the next index is taken, an id
    /// is drawn, and the per-call fields are reset.
    pub open spec fn begun(self) -> CallState {
        CallState {
            state: ToolCallState::InToolCall,
            buffer: Seq::empty(),
            id: Some(ids::id_text(ids::xorshift(self.ids))),
            index: Some(self.next_index),
            next_index: self.next_index.wrapping_add(1),
            emitted: 0,
            name_emitted: false,
            ids: ids::xorshift(self.ids),
        }
    }

    /// The state ready for the next tool call.
    pub open spec fn idled(self) -> CallState {
        CallState {
            state: if self.state == ToolCallState::Complete {
                ToolCallState::Idle
            } else {
                self.state
            },
            ..self
        }
    }

    /// The state with text added to the body of the tool call.
    pub open spec fn extended(self, text: Seq<char>) -> CallState {
        CallState { buffer: self.buffer + text, ..self }
    }

    /// The index that the deltas of the current tool call carry.
    pub open spec fn call_index(self) -> usize {
        match self.index {
            Some(i) => i,
            None => 0,
        }
    }
}

/// Per-request state of the tool call that is being parsed.
#[derive(Debug, Clone, PartialEq)]
pub struct ToolCallArgState {
    /// Current parser state.
    pub state: ToolCallState,
    /// Accumulated inner JSON string (between the open and close markers).
    pub arguments_buffer: String,
    /// Tool-call id, assigned when the call is first detected and handed to
    /// its first delta.
    pub id: Option<String>,
    /// Index assigned when this tool call was detected.
    pub index: Option<usize>,
    /// Index for the next tool call.
    pub next_index: usize,
    /// How many characters of the arguments value previous deltas carried.
    pub last_emitted_args_len: usize,
    /// Whether a delta has carried the name.
    pub name_emitted: bool,
    /// Source of the tool-call ids.
    pub ids: IdGenerator,
}

impl View for ToolCallArgState {
    type V = CallState;

    open spec fn view(&self) -> CallState {
        CallState {
            state: self.state,
            buffer: self.arguments_buffer@,
            id: opt_view(self.id),
            index: self.index,
            next_index: self.next_index,
            emitted: self.last_emitted_args_len as nat,
            name_emitted: self.name_emitted,
            ids: self.ids@,
        }
    }
}

impl ToolCallArgState {
    /// A new idle state, with a random source of ids.
    pub fn new() -> (s: Self)
        ensures
            s@ == CallState::fresh(s@.ids),
            ids::drawn_at_random(s@.ids),
            s@.ids != 0,
    {
        Self::with_ids(IdGenerator::new())
    }

    /// A new idle state that draws its ids from the given generator.
    pub fn with_ids(ids: IdGenerator) -> (s: Self)
        ensures
            s@ == CallState::fresh(ids@),
    {
        Self {
            state: ToolCallState::Idle,
            arguments_buffer: String::new(),
            id: None,
            index: None,
            next_index: 0,
            last_emitted_args_len: 0,
            name_emitted: false,
            ids,
        }
    }

    /// Begin a new tool call: assign index, generate id, reset per-call fields.
    pub fn begin_tool_call(&mut self)
        ensures
            final(self)@ == old(self)@.begun(),
            final(self).id matches Some(id) && ids::is_call_id(id@),
    {
        self.state = ToolCallState::InToolCall;
        self.index = Some(self.next_index);
        self.next_index = self.next_index.wrapping_add(1);
        let id = self.ids.next_id();
        self.id = Some(id);
        self.arguments_buffer = String::new();
        self.last_emitted_args_len = 0;
        self.name_emitted = false;
    }

    /// Complete the current tool call and return to idle.
    pub fn complete_tool_call(&mut self)
        ensures
            final(self)@ == (CallState { state: ToolCallState::Idle, ..old(self)@ }),
    {
        self.state = ToolCallState::Idle;
    }

    /// Transition from `Complete` back to `Idle` for the next tool call.
    pub fn reset_to_idle(&mut self)
        ensures
            final(self)@ == old(self)@.idled(),
    {
        if self.state == ToolCallState::Complete {
            self.state = ToolCallState::Idle;
        }
    }

    /// Back to the idle state before any tool call. The source of ids goes on
    /// from where it is, so that ids do not repeat.
    pub fn clear(&mut self)
        ensures
            final(self)@ == CallState::fresh(old(self)@.ids),
    {
        self.state = ToolCallState::Idle;
        self.arguments_buffer = String::new();
        self.id = None;
        self.index = None;
        self.next_index = 0;
        self.last_emitted_args_len = 0;
        self.name_emitted = false;
    }

    /// The id of the current call, if no delta has carried it yet.
    pub fn take_id(&mut self) -> (id: Option<String>)
        ensures
            opt_view(id) == old(self)@.id,
            final(self)@ == (CallState { id: None, ..old(self)@ }),
    {
        self.id.take()
    }

    /// The index that the deltas of the current tool call carry.
    pub fn call_index(&self) -> (index: usize)
        ensures
            index == self@.call_index(),
    {
        match self.index {
            Some(i) => i,
            None => 0,
        }
    }

    /// Add text to the body of the tool call.
    pub fn extend(&mut self, text: &str)
        ensures
            final(self)@ == old(self)@.extended(text@),
    {
        self.arguments_buffer.append(text);
    }
}

impl Default for ToolCallArgState {
    fn default() -> (s: Self)
        ensures
            s@ == CallState::fresh(s@.ids),
            ids::drawn_at_random(s@.ids),
            s@.ids != 0,
    {
        Self::new()
    }
}

/// What kind of parser a dialect is: tool-call or reasoning.
#[derive(Debug, Clone, Copy, PartialEq, Eq, Structural)]
pub enum ParserKind {
    /// Tool-call parser.
    Tool,
    /// Reasoning parser.
    Reasoning,
}

impl ParserKind {
    /// The kind as text.
    pub open spec fn text(self) -> Seq<char> {
        match self {
            ParserKind::Tool => "tool"@,
            ParserKind::Reasoning => "reasoning"@,
        }
    }

    /// The kind as a static string: "tool" or "reasoning".
    pub fn as_str(self) -> (s: &'static str)
        ensures
            s@ == self.text(),
    {
        match self {
            ParserKind::Tool => "tool",
            ParserKind::Reasoning => "reasoning",
        }
    }
}

/// A parse error: something went wrong that the engine should surface.
#[derive(Debug, Clone)]
pub enum ParseError {
    /// The dialect name was not found in the registry.
    UnknownDialect(String),
    /// The token text could not be parsed by the dialect's state machine.
    Malformed {
        /// Which dialect produced the error.
        dialect: &'static str,
        /// Human-readable detail.
        detail: String,
    },
}

impl ParseError {
    /// The message of the error.
    pub open spec fn text(self) -> Seq<char> {
        match self {
            ParseError::UnknownDialect(name) => "unknown dialect: "@ + name@,
            ParseError::Malformed { dialect, detail } => "parse error in dialect "@ + dialect@
                + ": "@ + detail@,
        }
    }

    /// The message of the error.
    pub fn to_text(&self) -> (s: String)
        ensures
            s@ == self.text(),
    {
        match self {
            ParseError::UnknownDialect(name) => String::from_str("unknown dialect: ").concat(
                name.as_str(),
            ),
            ParseError::Malformed { dialect, detail } => String::from_str(
                "parse error in dialect ",
            ).concat(dialect).concat(": ").concat(detail.as_str()),
        }
    }
}

/// Tool calls are numbered in the order in which they begin: each takes the
/// index after the one before it, however the call before it went.
pub proof fn law_indexes_increment(before: CallState, between: CallState)
    requires
        before.next_index < usize::MAX,
        between.next_index == before.begun().next_index,
    ensures
        before.begun().call_index() == before.next_index,
        between.begun().call_index() == before.begun().call_index() + 1,
{
}

/// A tool call that begins has an id of the documented format, and nothing of
/// the call before it is left: its body is empty, and no argument or name
/// counts as sent.
pub proof fn law_call_begins_clean(before: CallState)
    ensures
        before.begun().id matches Some(id) && ids::is_call_id(id),
        before.begun().buffer.len() == 0,
        before.begun().emitted == 0,
        !before.begun().name_emitted,
        before.begun().state == ToolCallState::InToolCall,
{
    ids::lemma_id_format(ids::xorshift(before.ids));
}

/// Both ways lead back to idle with everything else unchanged: completing a call,
/// and going on from `Complete`. Going on from idle changes nothing.
pub proof fn law_complete_then_idle(st: CallState)
    ensures
        ({
            let idle = CallState { state: ToolCallState::Idle, ..st };
            &&& idle.idled() == idle
            &&& (CallState { state: ToolCallState::Complete, ..st }).idled() == idle
        }),
{
}

/// A tool call that begins takes the next index and draws the next id, and the one
/// after it gets the ones after that.
pub proof fn law_call_takes_the_next(before: CallState)
    ensures
        before.begun().index == Some(before.next_index),
        before.begun().call_index() == before.next_index,
        before.begun().ids == ids::xorshift(before.ids),
        before.begun().id == Some(ids::id_text(before.begun().ids)),
        before.next_index < usize::MAX ==> before.begun().next_index == before.next_index + 1,
{
}

/// Text is added to the end of the body, and nothing else changes.
pub proof fn law_body_grows(call: CallState, a: Seq<char>, b: Seq<char>)
    ensures
        call.extended(a).buffer == call.buffer + a,
        call.extended(a).extended(b) == call.extended(a + b),
        (CallState { buffer: call.buffer, ..call.extended(a) }) == call,
{
    assert(call.buffer + a + b =~= call.buffer + (a + b));
}

/// A fresh state is idle, and nothing of a call is in it.
pub proof fn law_fresh_state(ids: u64)
    ensures
        CallState::fresh(ids).state == ToolCallState::Idle,
        CallState::fresh(ids).buffer.len() == 0,
        CallState::fresh(ids).id is None && CallState::fresh(ids).index is None,
        CallState::fresh(ids).next_index == 0 && CallState::fresh(ids).emitted == 0,
        !CallState::fresh(ids).name_emitted,
        CallState::fresh(ids).ids == ids,
{
}

/// The message of an error says what it holds, all of it.
pub proof fn law_parse_messages(name: String, dialect: &'static str)
    ensures
        ParseError::UnknownDialect(name).text() == "unknown dialect: "@ + name@,
        (ParseError::Malformed { dialect, detail: name }).text() == "parse error in dialect "@
            + dialect@ + ": "@ + name@,
{
}

} // verus!
