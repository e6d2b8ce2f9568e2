//! The dialect parser trait and the per-request parsing session.
//!
//! [`StreamingParser`] is the top-level entry point. The engine creates one
//! per request, selects a dialect by name, and calls [`StreamingParser::feed`]
//! with each batch of decoded text. The parser returns a [`ParseResult`] with
//! zero or more deltas.

use crate::dialects::Dialect;
use crate::ids;
use crate::types::{
    CallState, Delta, ReasoningDelta, Thought, ToolCallArgState, ToolCallDelta, ToolCallState,
};
use vstd::prelude::*;

verus! {

/// What a [`ParseResult`] holds.
#[verifier::ext_equal]
pub struct Output {
    pub tool_calls: Seq<Delta>,
    pub reasoning: Seq<Thought>,
    pub content: Seq<Seq<char>>,
}

impl Output {
    /// No deltas.
    pub open spec fn none() -> Output {
        Output { tool_calls: Seq::empty(), reasoning: Seq::empty(), content: Seq::empty() }
    }

    /// These deltas, and after them those of `later`.
    pub open spec fn plus(self, later: Output) -> Output {
        Output {
            tool_calls: self.tool_calls + later.tool_calls,
            reasoning: self.reasoning + later.reasoning,
            content: self.content + later.content,
        }
    }

    /// Tool-call deltas alone.
    pub open spec fn of_calls(tool_calls: Seq<Delta>) -> Output {
        Output { tool_calls, ..Output::none() }
    }

    /// One piece of content, or nothing where the text is empty.
    pub open spec fn of_content(text: Seq<char>) -> Output {
        if text.len() == 0 {
            Output::none()
        } else {
            Output { content: seq![text], ..Output::none() }
        }
    }

    /// One piece of reasoning, or nothing where the text is empty.
    pub open spec fn of_reasoning(text: Seq<char>) -> Output {
        if text.len() == 0 {
            Output::none()
        } else {
            Output {
                reasoning: seq![Thought { fragment: text, is_complete: false }],
                ..Output::none()
            }
        }
    }

    /// The delta that completes a reasoning block.
    pub open spec fn reasoning_done() -> Output {
        Output {
            reasoning: seq![Thought { fragment: Seq::empty(), is_complete: true }],
            ..Output::none()
        }
    }
}

/// The pieces put together.
pub open spec fn joined(pieces: Seq<Seq<char>>) -> Seq<char>
    decreases pieces.len(),
{
    if pieces.len() == 0 {
        Seq::empty()
    } else {
        joined(pieces.drop_last()) + pieces.last()
    }
}

/// One reasoning delta as a run of characters, with `None` for the end of a
/// block.
pub open spec fn thought_run(thought: Thought) -> Seq<Option<char>> {
    let chars = thought.fragment.map_values(|c: char| Some(c));
    if thought.is_complete {
        chars.push(None)
    } else {
        chars
    }
}

/// Reasoning deltas as one run of characters, with `None` for the end of a
/// block: how the text was cut into deltas does not show.
pub open spec fn reasoned(thoughts: Seq<Thought>) -> Seq<Option<char>>
    decreases thoughts.len(),
{
    if thoughts.len() == 0 {
        Seq::empty()
    } else {
        reasoned(thoughts.drop_last()) + thought_run(thoughts.last())
    }
}

/// Pieces put together in two groups.
pub proof fn lemma_joined(a: Seq<Seq<char>>, b: Seq<Seq<char>>)
    ensures
        joined(a + b) == joined(a) + joined(b),
    decreases b.len(),
{
    if b.len() == 0 {
        assert(a + b =~= a);
        assert(joined(a) + joined(b) =~= joined(a));
    } else {
        lemma_joined(a, b.drop_last());
        assert((a + b).drop_last() =~= a + b.drop_last());
        assert(joined(a + b) =~= joined(a) + joined(b));
    }
}

/// Reasoning deltas taken in two groups.
pub proof fn lemma_reasoned(a: Seq<Thought>, b: Seq<Thought>)
    ensures
        reasoned(a + b) == reasoned(a) + reasoned(b),
    decreases b.len(),
{
    if b.len() == 0 {
        assert(a + b =~= a);
        assert(reasoned(a) + reasoned(b) =~= reasoned(a));
    } else {
        lemma_reasoned(a, b.drop_last());
        assert((a + b).drop_last() =~= a + b.drop_last());
        assert(reasoned(a + b) =~= reasoned(a) + reasoned(b));
    }
}

/// How far the tool-call deltas of a stream have come.
#[verifier::ext_equal]
pub struct Progress {
    /// The index of a call that has had a delta and is not complete.
    pub open: Option<usize>,
    /// The index of the next call to have a delta.
    pub next: usize,
}

impl Progress {
    /// The progress that belongs to a state of the tool call.
    pub open spec fn of(call: CallState) -> Progress {
        if call.state == ToolCallState::InToolCall {
            if call.id is Some {
                Progress { open: None, next: call.call_index() }
            } else {
                Progress { open: Some(call.call_index()), next: call.next_index }
            }
        } else {
            Progress { open: None, next: call.next_index }
        }
    }

    /// One more delta, or `None` where it does not come in turn. The first
    /// delta of a call carries the id and the next index; the name comes with
    /// it or not at all. The others repeat the index. The last is complete.
    pub open spec fn after(self, delta: Delta) -> Option<Progress> {
        let open = if delta.is_complete {
            None
        } else {
            Some(delta.index)
        };
        match self.open {
            None => if delta.id is Some && delta.index == self.next {
                Some(Progress { open, next: self.next.wrapping_add(1) })
            } else {
                None
            },
            Some(index) => if delta.id is None && delta.name is None && delta.index == index {
                Some(Progress { open, next: self.next })
            } else {
                None
            },
        }
    }

    /// The progress after all of the deltas, if each comes in turn.
    pub open spec fn after_all(self, deltas: Seq<Delta>) -> Option<Progress>
        decreases deltas.len(),
    {
        if deltas.len() == 0 {
            Some(self)
        } else {
            match self.after_all(deltas.drop_last()) {
                Some(before) => before.after(deltas.last()),
                None => None,
            }
        }
    }
}

/// Whether the current call has its index, and its id exactly as long as its
/// name has not been emitted.
pub open spec fn call_in_order(call: CallState) -> bool {
    call.state == ToolCallState::InToolCall ==> {
        &&& call.id is Some <==> !call.name_emitted
        &&& call.index matches Some(index) && call.next_index == index.wrapping_add(1)
    }
}

/// Deltas in two parts come in turn as the parts do.
pub proof fn lemma_progress(p: Progress, a: Seq<Delta>, b: Seq<Delta>)
    ensures
        p.after_all(a + b) == (match p.after_all(a) {
            Some(between) => between.after_all(b),
            None => None,
        }),
    decreases b.len(),
{
    if b.len() == 0 {
        assert(a + b =~= a);
    } else {
        lemma_progress(p, a, b.drop_last());
        assert((a + b).drop_last() =~= a + b.drop_last());
        assert((a + b).last() == b.last());
    }
}

/// The name, so far, of the call that is open behind the deltas, where `known` is
/// that of the call that was open before them.
pub open spec fn open_name(known: Option<Seq<char>>, deltas: Seq<Delta>) -> Option<Seq<char>>
    decreases deltas.len(),
{
    if deltas.len() == 0 {
        known
    } else if deltas.last().is_complete {
        None
    } else if deltas.last().name is Some {
        deltas.last().name
    } else {
        open_name(known, deltas.drop_last())
    }
}

/// The names of the calls that the deltas complete: for each call, the name that
/// its deltas carried.
pub open spec fn complete_names(known: Option<Seq<char>>, deltas: Seq<Delta>) -> Seq<
    Option<Seq<char>>,
>
    decreases deltas.len(),
{
    if deltas.len() == 0 {
        Seq::empty()
    } else {
        let last = deltas.last();
        let before = complete_names(known, deltas.drop_last());
        if last.is_complete {
            before.push(
                if last.name is Some {
                    last.name
                } else {
                    open_name(known, deltas.drop_last())
                },
            )
        } else {
            before
        }
    }
}

/// The names of deltas in two parts.
pub proof fn lemma_names(known: Option<Seq<char>>, a: Seq<Delta>, b: Seq<Delta>)
    ensures
        open_name(known, a + b) == open_name(open_name(known, a), b),
        complete_names(known, a + b) == complete_names(known, a) + complete_names(
            open_name(known, a),
            b,
        ),
    decreases b.len(),
{
    if b.len() == 0 {
        assert(a + b =~= a);
        assert(complete_names(known, a) + complete_names(open_name(known, a), b)
            =~= complete_names(known, a));
    } else {
        lemma_names(known, a, b.drop_last());
        assert((a + b).drop_last() =~= a + b.drop_last());
        assert((a + b).last() == b.last());
        assert(complete_names(known, a + b) =~= complete_names(known, a) + complete_names(
            open_name(known, a),
            b,
        ));
    }
}

/// Whether there is an id, and not what it is.
pub open spec fn id_mark(id: Option<Seq<char>>) -> Option<Seq<char>> {
    match id {
        Some(_) => Some(Seq::empty()),
        None => None,
    }
}

/// The state of a call, whatever its id and the ids to come are.
pub open spec fn call_sans_ids(call: CallState) -> CallState {
    CallState { id: id_mark(call.id), ids: 0, ..call }
}

/// Deltas, whatever the ids in them are.
pub open spec fn deltas_sans_ids(deltas: Seq<Delta>) -> Seq<Delta> {
    deltas.map_values(|d: Delta| Delta { id: id_mark(d.id), ..d })
}

/// An output, whatever the ids in it are.
pub open spec fn sans_ids(out: Output) -> Output {
    Output { tool_calls: deltas_sans_ids(out.tool_calls), ..out }
}

/// An output in two parts, whatever the ids are.
pub proof fn lemma_sans_ids(a: Output, b: Output)
    ensures
        sans_ids(a.plus(b)) == sans_ids(a).plus(sans_ids(b)),
{
    assert(deltas_sans_ids(a.tool_calls + b.tool_calls) =~= deltas_sans_ids(a.tool_calls)
        + deltas_sans_ids(b.tool_calls));
}

/// The arguments, so far, of the call that is open behind the deltas, where
/// `sent` are those of the call that was open before them.
pub open spec fn open_args(sent: Seq<char>, deltas: Seq<Delta>) -> Seq<char>
    decreases deltas.len(),
{
    if deltas.len() == 0 {
        sent
    } else if deltas.last().is_complete {
        Seq::empty()
    } else {
        open_args(sent, deltas.drop_last()) + deltas.last().arguments_fragment
    }
}

/// The arguments of the calls that the deltas complete: for each call, what its
/// fragments come to when they are appended to one another.
pub open spec fn complete_args(sent: Seq<char>, deltas: Seq<Delta>) -> Seq<Seq<char>>
    decreases deltas.len(),
{
    if deltas.len() == 0 {
        Seq::empty()
    } else {
        let before = complete_args(sent, deltas.drop_last());
        if deltas.last().is_complete {
            before.push(open_args(sent, deltas.drop_last()) + deltas.last().arguments_fragment)
        } else {
            before
        }
    }
}

/// The arguments of deltas in two parts.
pub proof fn lemma_args(sent: Seq<char>, a: Seq<Delta>, b: Seq<Delta>)
    ensures
        open_args(sent, a + b) == open_args(open_args(sent, a), b),
        complete_args(sent, a + b) == complete_args(sent, a) + complete_args(
            open_args(sent, a),
            b,
        ),
    decreases b.len(),
{
    if b.len() == 0 {
        assert(a + b =~= a);
        assert(complete_args(sent, a) + complete_args(open_args(sent, a), b) =~= complete_args(
            sent,
            a,
        ));
    } else {
        lemma_args(sent, a, b.drop_last());
        assert((a + b).drop_last() =~= a + b.drop_last());
        assert((a + b).last() == b.last());
        assert(complete_args(sent, a + b) =~= complete_args(sent, a) + complete_args(
            open_args(sent, a),
            b,
        ));
    }
}

/// The result of feeding text into the parser: zero or more deltas.
#[derive(Debug, Clone, PartialEq)]
pub struct ParseResult {
    /// Tool-call deltas, in stream order.
    pub tool_calls: Vec<ToolCallDelta>,
    /// Reasoning deltas, in stream order.
    pub reasoning: Vec<ReasoningDelta>,
    /// Text that is neither tool call nor reasoning, to be passed through.
    pub content: Vec<String>,
}

impl View for ParseResult {
    type V = Output;

    open spec fn view(&self) -> Output {
        Output {
            tool_calls: Seq::new(self.tool_calls@.len(), |i: int| self.tool_calls@[i]@),
            reasoning: Seq::new(self.reasoning@.len(), |i: int| self.reasoning@[i]@),
            content: Seq::new(self.content@.len(), |i: int| self.content@[i]@),
        }
    }
}

impl ParseResult {
    /// Create an empty result.
    pub fn new() -> (r: Self)
        ensures
            r@ == Output::none(),
    {
        let r = ParseResult { tool_calls: Vec::new(), reasoning: Vec::new(), content: Vec::new() };
        assert(r@ =~= Output::none());
        r
    }

    /// Whether this result has no deltas at all.
    pub fn is_empty(&self) -> (empty: bool)
        ensures
            empty == (self@ == Output::none()),
    {
        let empty = self.tool_calls.is_empty() && self.reasoning.is_empty()
            && self.content.is_empty();
        assert(empty ==> self@ =~= Output::none());
        assert(self@ == Output::none() ==> self@.tool_calls.len() == 0 && self@.reasoning.len()
            == 0 && self@.content.len() == 0);
        empty
    }

    /// Append a tool-call delta.
    pub fn push_call(&mut self, delta: ToolCallDelta)
        ensures
            final(self)@ == old(self)@.plus(Output::of_calls(seq![delta@])),
    {
        self.tool_calls.push(delta);
        assert(self@ =~= old(self)@.plus(Output::of_calls(seq![delta@])));
    }

    /// Append a piece of content, unless it is empty.
    pub fn push_content(&mut self, text: String)
        ensures
            final(self)@ == old(self)@.plus(Output::of_content(text@)),
    {
        if !text.as_str().is_empty() {
            self.content.push(text);
        }
        assert(self@ =~= old(self)@.plus(Output::of_content(text@)));
    }

    /// Append a piece of reasoning, unless it is empty.
    pub fn push_reasoning(&mut self, text: String)
        ensures
            final(self)@ == old(self)@.plus(Output::of_reasoning(text@)),
    {
        if !text.as_str().is_empty() {
            self.reasoning.push(ReasoningDelta { fragment: text, is_complete: false });
        }
        assert(self@ =~= old(self)@.plus(Output::of_reasoning(text@)));
    }

    /// Append the delta that completes a reasoning block.
    pub fn push_reasoning_done(&mut self)
        ensures
            final(self)@ == old(self)@.plus(Output::reasoning_done()),
    {
        self.reasoning.push(ReasoningDelta { fragment: String::new(), is_complete: true });
        assert(self@ =~= old(self)@.plus(Output::reasoning_done()));
    }

    /// Append the deltas of a later result.
    pub fn extend(&mut self, later: ParseResult)
        ensures
            final(self)@ == old(self)@.plus(later@),
    {
        let ghost before = self@;
        let mut later = later;
        let ghost after = later@;
        self.tool_calls.append(&mut later.tool_calls);
        self.reasoning.append(&mut later.reasoning);
        self.content.append(&mut later.content);
        assert(self@ =~= before.plus(after));
    }
}

impl Default for ParseResult {
    fn default() -> (r: Self)
        ensures
            r@ == Output::none(),
    {
        Self::new()
    }
}

/// The dialect parser trait: one implementation per model dialect.
///
/// Each dialect is a state machine that recognises tool-call and reasoning
/// markers in the text and emits structured deltas. The view of a parser is
/// its own state; the tool call in progress is in a [`ToolCallArgState`].
pub trait DialectParser: View + Sized + Send + Sync {
    /// Whether the parser's own state fits the state of the tool call.
    spec fn fits(own: Self::V, call: CallState) -> bool;

    /// The state of the same parser before any text.
    spec fn restarted(own: Self::V) -> Self::V;

    /// What comes of a piece of text: the next own state, the next state of
    /// the tool call, and the deltas.
    spec fn fed(own: Self::V, call: CallState, text: Seq<char>) -> (Self::V, CallState, Output);

    /// What comes of the end of the stream.
    spec fn finished(own: Self::V, call: CallState) -> (Self::V, CallState, Output);

    /// The dialect's name.
    spec fn dialect_name(own: Self::V) -> Seq<char>;

    /// The dialect name (e.g. `"hermes"`, `"llama3_json"`).
    fn name(&self) -> (name: &'static str)
        ensures
            name@ == Self::dialect_name(self@),
    ;

    /// Feed a chunk of decoded text and append the deltas it produces.
    ///
    /// The text is a fragment of the model's decoded output. Markers may span
    /// chunk boundaries: the parser keeps back the part it has seen.
    fn feed(&mut self, text: &str, state: &mut ToolCallArgState, result: &mut ParseResult)
        requires
            Self::fits(old(self)@, old(state)@),
        ensures
            Self::fits(final(self)@, final(state)@),
            final(self)@ == Self::fed(old(self)@, old(state)@, text@).0,
            final(state)@ == Self::fed(old(self)@, old(state)@, text@).1,
            final(result)@ == old(result)@.plus(Self::fed(old(self)@, old(state)@, text@).2),
    ;

    /// Signal the end of the stream: text that was kept back is handed out,
    /// and an open tool call is closed.
    fn finish(&mut self, state: &mut ToolCallArgState, result: &mut ParseResult)
        requires
            Self::fits(old(self)@, old(state)@),
        ensures
            Self::fits(final(self)@, final(state)@),
            final(self)@ == Self::finished(old(self)@, old(state)@).0,
            final(state)@ == Self::finished(old(self)@, old(state)@).1,
            final(result)@ == old(result)@.plus(Self::finished(old(self)@, old(state)@).2),
    ;

    /// Reset the parser to its initial state (e.g. for a new request).
    fn reset(&mut self, state: &mut ToolCallArgState)
        ensures
            final(self)@ == Self::restarted(old(self)@),
            final(state)@ == CallState::fresh(old(state)@.ids),
            Self::fits(final(self)@, final(state)@),
    ;
}

/// The top-level streaming parser, holding per-request state.
pub struct StreamingParser<D: DialectParser = Dialect> {
    /// The dialect-specific parser.
    dialect: D,
    /// Per-request tool-call state.
    state: ToolCallArgState,
}

impl<D: DialectParser> StreamingParser<D> {
    /// The state of the dialect parser.
    pub closed spec fn own(&self) -> D::V {
        self.dialect@
    }

    /// The state of the tool call.
    pub closed spec fn call(&self) -> CallState {
        self.state@
    }

    /// Whether the two fit.
    pub open spec fn wf(&self) -> bool {
        D::fits(self.own(), self.call())
    }

    /// Create a new parser with the given dialect.
    pub fn new(dialect: D) -> (p: Self)
        requires
            forall|ids: u64| D::fits(dialect@, #[trigger] CallState::fresh(ids)),
        ensures
            p.wf(),
            p.own() == dialect@,
            p.call() == CallState::fresh(p.call().ids),
            ids::drawn_at_random(p.call().ids),
            p.call().ids != 0,
    {
        StreamingParser { dialect, state: ToolCallArgState::new() }
    }

    /// Feed a chunk of decoded text and return the deltas produced.
    pub fn feed(&mut self, text: &str) -> (result: ParseResult)
        requires
            old(self).wf(),
        ensures
            final(self).wf(),
            (final(self).own(), final(self).call(), result@) == D::fed(
                old(self).own(),
                old(self).call(),
                text@,
            ),
    {
        let mut result = ParseResult::new();
        self.dialect.feed(text, &mut self.state, &mut result);
        assert(result@ =~= D::fed(old(self).own(), old(self).call(), text@).2);
        result
    }

    /// Feed a batch of text chunks, one after the other, and return all the
    /// deltas they produce.
    pub fn feed_batch(&mut self, chunks: &[&str]) -> (result: ParseResult)
        requires
            old(self).wf(),
        ensures
            final(self).wf(),
            (final(self).own(), final(self).call(), result@) == fed_all::<D>(
                old(self).own(),
                old(self).call(),
                chunk_texts(chunks@),
            ),
    {
        let mut combined = ParseResult::new();
        let n = chunks.len();
        let mut i: usize = 0;
        assert(combined@ =~= Output::none());
        assert(chunk_texts(chunks@).take(0) =~= Seq::empty());
        while i < n
            invariant
                n == chunks@.len(),
                i <= n,
                self.wf(),
                (self.own(), self.call(), combined@) == fed_all::<D>(
                    old(self).own(),
                    old(self).call(),
                    chunk_texts(chunks@).take(i as int),
                ),
            decreases n - i,
        {
            let result = self.feed(chunks[i]);
            combined.extend(result);
            proof {
                let texts = chunk_texts(chunks@);
                assert(texts.take(i + 1).drop_last() =~= texts.take(i as int));
            }
            i = i + 1;
        }
        assert(chunk_texts(chunks@).take(n as int) =~= chunk_texts(chunks@));
        combined
    }

    /// Signal the end of the stream and return the last deltas: text that was
    /// kept back is handed out, and an open tool call is closed.
    pub fn finish(&mut self) -> (result: ParseResult)
        requires
            old(self).wf(),
        ensures
            final(self).wf(),
            (final(self).own(), final(self).call(), result@) == D::finished(
                old(self).own(),
                old(self).call(),
            ),
    {
        let mut result = ParseResult::new();
        self.dialect.finish(&mut self.state, &mut result);
        assert(result@ =~= D::finished(old(self).own(), old(self).call()).2);
        result
    }

    /// Reset the parser for a new request. Its state is that of a new parser,
    /// but the ids go on, so that they do not repeat.
    pub fn reset(&mut self)
        ensures
            final(self).wf(),
            final(self).own() == D::restarted(old(self).own()),
            final(self).call() == CallState::fresh(old(self).call().ids),
            (final(self).own(), final(self).call()) == after_reset::<D>(
                old(self).own(),
                old(self).call(),
            ),
    {
        self.dialect.reset(&mut self.state);
    }
}

/// What a parser is reset to.
pub open spec fn after_reset<D: DialectParser>(own: D::V, call: CallState) -> (D::V, CallState) {
    (D::restarted(own), CallState::fresh(call.ids))
}

/// The texts of a batch of chunks.
pub open spec fn chunk_texts(chunks: Seq<&str>) -> Seq<Seq<char>> {
    chunks.map_values(|chunk: &str| chunk@)
}

/// What comes of several chunks, one after the other.
pub open spec fn fed_all<D: DialectParser>(
    own: D::V,
    call: CallState,
    chunks: Seq<Seq<char>>,
) -> (D::V, CallState, Output)
    decreases chunks.len(),
{
    if chunks.len() == 0 {
        (own, call, Output::none())
    } else {
        let before = fed_all::<D>(own, call, chunks.drop_last());
        let last = D::fed(before.0, before.1, chunks.last());
        (last.0, last.1, before.2.plus(last.2))
    }
}

/// A batch in two parts gives what the two parts give, one after the other.
pub proof fn law_batches_join<D: DialectParser>(
    own: D::V,
    call: CallState,
    first: Seq<Seq<char>>,
    second: Seq<Seq<char>>,
)
    ensures
        ({
            let (own1, call1, out1) = fed_all::<D>(own, call, first);
            let (own2, call2, out2) = fed_all::<D>(own1, call1, second);
            fed_all::<D>(own, call, first + second) == (own2, call2, out1.plus(out2))
        }),
    decreases second.len(),
{
    let r1 = fed_all::<D>(own, call, first);
    if second.len() == 0 {
        assert(first + second =~= first);
        assert(r1.2.plus(Output::none()) =~= r1.2);
    } else {
        law_batches_join::<D>(own, call, first, second.drop_last());
        assert((first + second).drop_last() =~= first + second.drop_last());
        let before = fed_all::<D>(r1.0, r1.1, second.drop_last());
        let last = D::fed(before.0, before.1, second.last());
        assert(r1.2.plus(before.2).plus(last.2) =~= r1.2.plus(before.2.plus(last.2)));
    }
}

/// Feeding a batch of one chunk is feeding the chunk, and an empty batch does
/// nothing.
pub proof fn law_batch_of_one<D: DialectParser>(own: D::V, call: CallState, chunk: Seq<char>)
    ensures
        fed_all::<D>(own, call, seq![chunk]) == D::fed(own, call, chunk),
        fed_all::<D>(own, call, Seq::empty()) == (own, call, Output::none()),
{
    reveal_with_fuel(fed_all, 2);
    assert(seq![chunk].drop_last() =~= Seq::<Seq<char>>::empty());
    let r = D::fed(own, call, chunk);
    assert(Output::none().plus(r.2) =~= r.2);
}

/// Results are put together in stream order, and nothing of them is lost.
pub proof fn law_results_add_up(a: Output, b: Output)
    ensures
        a.plus(b).tool_calls == a.tool_calls + b.tool_calls,
        a.plus(b).reasoning == a.reasoning + b.reasoning,
        a.plus(b).content == a.content + b.content,
        Output::none().tool_calls.len() == 0 && Output::none().reasoning.len() == 0
            && Output::none().content.len() == 0,
        a.plus(Output::none()) == a && Output::none().plus(a) == a,
{
    assert(a.plus(Output::none()) =~= a);
    assert(Output::none().plus(a) =~= a);
}

/// Text becomes one piece, and no piece where it is empty.
pub proof fn law_one_piece(text: Seq<char>, deltas: Seq<Delta>)
    ensures
        joined(Output::of_content(text).content) == text,
        Output::of_content(text).content.len() == (if text.len() > 0 {
            1nat
        } else {
            0nat
        }),
        Output::of_content(text).tool_calls.len() == 0,
        Output::of_content(text).reasoning.len() == 0,
        Output::of_calls(deltas).tool_calls == deltas,
        Output::of_calls(deltas).content.len() == 0,
        Output::of_calls(deltas).reasoning.len() == 0,
{
    reveal_with_fuel(joined, 2);
    assert(joined(Output::of_content(text).content) =~= text);
}

} // verus!
