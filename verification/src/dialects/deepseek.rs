//! `DeepSeek` reasoning parser.
//!
//! DeepSeek-R1 and similar thinking models emit reasoning wrapped in
//! `<think>...</think>` tags. This parser hands the text between the tags out
//! as reasoning, and the rest as content.

use crate::parser;
use crate::parser::{DialectParser, Output, ParseResult};
use crate::text;
use crate::types::{CallState, Thought, ToolCallArgState};
use vstd::prelude::*;
use vstd::string::*;

verus! {

/// Opens a reasoning block.
pub const THINK_OPEN: &'static str = "<think>";

/// Closes a reasoning block.
pub const THINK_CLOSE: &'static str = "</think>";

/// What a [`DeepSeekReasoningParser`] holds between chunks.
#[verifier::ext_equal]
pub struct Thinking {
    /// Whether a reasoning block is open.
    pub in_think: bool,
    /// The beginning of a marker with which the text so far ends.
    pub pending: Seq<char>,
}

/// Parser for reasoning blocks.
#[derive(Debug)]
pub struct DeepSeekReasoningParser {
    in_think: bool,
    pending: String,
}

impl View for DeepSeekReasoningParser {
    type V = Thinking;

    closed spec fn view(&self) -> Thinking {
        Thinking { in_think: self.in_think, pending: self.pending@ }
    }
}

/// The marker that ends the current stretch of text.
pub open spec fn next_marker(in_think: bool) -> Seq<char> {
    if in_think {
        THINK_CLOSE@
    } else {
        THINK_OPEN@
    }
}

/// A stretch of text, as reasoning inside a block and as content outside.
pub open spec fn stretch(in_think: bool, text: Seq<char>) -> Output {
    if in_think {
        Output::of_reasoning(text)
    } else {
        Output::of_content(text)
    }
}

/// What a marker itself emits: the end of a block is announced.
pub open spec fn marker_output(in_think: bool) -> Output {
    if in_think {
        Output::reasoning_done()
    } else {
        Output::none()
    }
}

/// What comes of a text: up to the next marker it is one stretch; behind the
/// marker the other kind begins. Where no marker follows, what could be the
/// beginning of one is kept back.
pub open spec fn think_scan(in_think: bool, text: Seq<char>) -> (Thinking, Output)
    decreases text.len(),
{
    let marker = next_marker(in_think);
    match text::find(text, marker) {
        Some(pos) => {
            let end = pos + marker.len();
            if 0 < end <= text.len() {
                let rest = think_scan(!in_think, text.skip(end));
                (
                    rest.0,
                    stretch(in_think, text.take(pos)).plus(marker_output(in_think)).plus(rest.1),
                )
            } else {
                (Thinking { in_think, pending: text }, Output::none())
            }
        },
        None => {
            let cut = text.len() - text::overlap(text, marker);
            (Thinking { in_think, pending: text.skip(cut) }, stretch(in_think, text.take(cut)))
        },
    }
}

/// Both markers have characters.
proof fn lemma_markers()
    ensures
        THINK_OPEN@.len() == 7,
        THINK_CLOSE@.len() == 8,
{
    reveal_strlit("<think>");
    reveal_strlit("</think>");
}

/// The text and reasoning of an output, however they were cut into pieces.
#[verifier::opaque]
pub open spec fn told(out: Output) -> (Seq<char>, Seq<Option<char>>) {
    (parser::joined(out.content), parser::reasoned(out.reasoning))
}

proof fn lemma_told_plus(a: Output, b: Output)
    ensures
        told(a.plus(b)).0 == told(a).0 + told(b).0,
        told(a.plus(b)).1 == told(a).1 + told(b).1,
{
    reveal(told);
    parser::lemma_joined(a.content, b.content);
    parser::lemma_reasoned(a.reasoning, b.reasoning);
}

/// What one stretch tells.
proof fn lemma_told_stretch(in_think: bool, text: Seq<char>)
    ensures
        told(stretch(in_think, text)).0 == if in_think { Seq::<char>::empty() } else { text },
        told(stretch(in_think, text)).1 == if in_think {
            text.map_values(|c: char| Some(c))
        } else {
            Seq::<Option<char>>::empty()
        },
{
    reveal(told);
    reveal_with_fuel(parser::joined, 2);
    reveal_with_fuel(parser::reasoned, 2);
    let out = stretch(in_think, text);
    if text.len() > 0 {
        if in_think {
            assert(out.reasoning.drop_last() =~= Seq::empty());
        } else {
            assert(out.content.drop_last() =~= Seq::empty());
        }
    }
    assert(told(out).0 =~= if in_think { Seq::<char>::empty() } else { text });
    assert(told(out).1 =~= if in_think {
        text.map_values(|c: char| Some(c))
    } else {
        Seq::<Option<char>>::empty()
    });
}

/// A stretch in two parts tells what it tells in one.
proof fn lemma_told_two(in_think: bool, a: Seq<char>, b: Seq<char>)
    ensures
        told(stretch(in_think, a + b)).0 == told(stretch(in_think, a)).0 + told(
            stretch(in_think, b),
        ).0,
        told(stretch(in_think, a + b)).1 == told(stretch(in_think, a)).1 + told(
            stretch(in_think, b),
        ).1,
{
    lemma_told_stretch(in_think, a);
    lemma_told_stretch(in_think, b);
    lemma_told_stretch(in_think, a + b);
    assert(told(stretch(in_think, a + b)).0 =~= told(stretch(in_think, a)).0 + told(
        stretch(in_think, b),
    ).0);
    assert(told(stretch(in_think, a + b)).1 =~= told(stretch(in_think, a)).1 + told(
        stretch(in_think, b),
    ).1);
}

/// Whether scanning a text in two parts comes to the same as in one.
spec fn splits(in_think: bool, text: Seq<char>, more: Seq<char>) -> bool {
    let first = think_scan(in_think, text);
    let second = think_scan(first.0.in_think, first.0.pending + more);
    let whole = think_scan(in_think, text + more);
    &&& whole.0 == second.0
    &&& told(whole.1) == told(first.1.plus(second.1))
}

/// The first part holds the next marker.
proof fn lemma_split_found(in_think: bool, text: Seq<char>, more: Seq<char>)
    requires
        text::find(text, next_marker(in_think)) matches Some(pos) && splits(
            !in_think,
            text.skip(pos + next_marker(in_think).len()),
            more,
        ),
    ensures
        splits(in_think, text, more),
{
    lemma_markers();
    let marker = next_marker(in_think);
    text::lemma_find_from(text, marker, 0);
    let pos = text::find(text, marker)->0;
    let end = pos + marker.len();
    text::lemma_find_extend(text, more, marker);
    assert((text + more).take(pos) =~= text.take(pos));
    assert((text + more).skip(end) =~= text.skip(end) + more);
    let head = stretch(in_think, text.take(pos)).plus(marker_output(in_think));
    let rest = think_scan(!in_think, text.skip(end));
    let second = think_scan(rest.0.in_think, rest.0.pending + more);
    let rest_whole = think_scan(!in_think, text.skip(end) + more);
    assert(think_scan(in_think, text) == (rest.0, head.plus(rest.1)));
    assert(think_scan(in_think, text + more) == (rest_whole.0, head.plus(rest_whole.1)));
    lemma_told_plus(head, rest.1);
    lemma_told_plus(head, rest_whole.1);
    lemma_told_plus(rest.1, second.1);
    lemma_told_plus(head.plus(rest.1), second.1);
    assert(told(head.plus(rest_whole.1)).0 =~= told(head.plus(rest.1).plus(second.1)).0);
    assert(told(head.plus(rest_whole.1)).1 =~= told(head.plus(rest.1).plus(second.1)).1);
}

/// How a scan goes where the next marker is found.
proof fn lemma_scan_found(in_think: bool, text: Seq<char>, pos: int)
    requires
        text::find(text, next_marker(in_think)) == Some(pos),
    ensures
        0 <= pos,
        pos + next_marker(in_think).len() <= text.len(),
        think_scan(in_think, text) == (
            think_scan(!in_think, text.skip(pos + next_marker(in_think).len())).0,
            stretch(in_think, text.take(pos)).plus(marker_output(in_think)).plus(
                think_scan(!in_think, text.skip(pos + next_marker(in_think).len())).1,
            ),
        ),
{
    lemma_markers();
    text::lemma_find_from(text, next_marker(in_think), 0);
}

/// The parts of an output that is cut into a leading stretch and the rest
/// tell what the whole tells.
proof fn lemma_told_lead(in_think: bool, a: Seq<char>, b: Seq<char>, mark: Output, rest: Output)
    ensures
        told(stretch(in_think, a + b).plus(mark).plus(rest)) == told(
            stretch(in_think, a).plus(stretch(in_think, b).plus(mark).plus(rest)),
        ),
{
    let long = stretch(in_think, a + b);
    let lead = stretch(in_think, a);
    let piece = stretch(in_think, b);
    lemma_told_two(in_think, a, b);
    lemma_told_plus(piece, mark);
    lemma_told_plus(piece.plus(mark), rest);
    lemma_told_plus(long, mark);
    lemma_told_plus(long.plus(mark), rest);
    lemma_told_plus(lead, piece.plus(mark).plus(rest));
    assert(told(long.plus(mark).plus(rest)).0 =~= told(
        lead.plus(piece.plus(mark).plus(rest)),
    ).0);
    assert(told(long.plus(mark).plus(rest)).1 =~= told(
        lead.plus(piece.plus(mark).plus(rest)),
    ).1);
}

/// The first part does not hold the next marker.
proof fn lemma_split_kept(in_think: bool, text: Seq<char>, more: Seq<char>)
    requires
        text::find(text, next_marker(in_think)) is None,
    ensures
        splits(in_think, text, more),
{
    let marker = next_marker(in_think);
    let cut = text.len() - text::overlap(text, marker);
    assert(0 <= cut <= text.len()) by {
        text::lemma_overlap(text, marker);
    }
    text::lemma_find_across(text, more, marker);
    let kept = text.skip(cut) + more;
    let whole = text + more;
    match text::find(kept, marker) {
        Some(q) => {
            lemma_scan_found(in_think, kept, q);
            lemma_scan_found(in_think, whole, q + cut);
            let end = q + marker.len();
            assert(whole.take(q + cut) =~= text.take(cut) + kept.take(q));
            assert(whole.skip(end + cut) =~= kept.skip(end));
            lemma_told_lead(
                in_think,
                text.take(cut),
                kept.take(q),
                marker_output(in_think),
                think_scan(!in_think, kept.skip(end)).1,
            );
        },
        None => {
            let stop = kept.len() - text::overlap(kept, marker);
            assert(0 <= stop <= kept.len()) by {
                text::lemma_overlap(kept, marker);
            }
            text::lemma_overlap_across(text, more, marker);
            assert(whole.take(stop + cut) =~= text.take(cut) + kept.take(stop));
            assert(whole.skip(stop + cut) =~= kept.skip(stop));
            lemma_told_two(in_think, text.take(cut), kept.take(stop));
            lemma_told_plus(
                stretch(in_think, text.take(cut)),
                stretch(in_think, kept.take(stop)),
            );
        },
    }
}

/// Scanning a text in two parts comes to the same as in one.
proof fn lemma_scan_split(in_think: bool, text: Seq<char>, more: Seq<char>)
    ensures
        splits(in_think, text, more),
    decreases text.len(),
{
    lemma_markers();
    let marker = next_marker(in_think);
    text::lemma_find_from(text, marker, 0);
    match text::find(text, marker) {
        Some(pos) => {
            lemma_scan_split(!in_think, text.skip(pos + marker.len()), more);
            lemma_split_found(in_think, text, more);
        },
        None => lemma_split_kept(in_think, text, more),
    }
}

/// A scan emits no tool-call deltas.
pub(crate) proof fn lemma_no_calls(in_think: bool, text: Seq<char>)
    ensures
        think_scan(in_think, text).1.tool_calls.len() == 0,
    decreases text.len(),
{
    lemma_markers();
    let marker = next_marker(in_think);
    text::lemma_find_from(text, marker, 0);
    if let Some(pos) = text::find(text, marker) {
        lemma_no_calls(!in_think, text.skip(pos + marker.len()));
    }
}

/// How the stream is cut into chunks does not matter: two chunks leave the
/// parser in the same state as the two together, and tell the same content
/// and the same reasoning. In particular a marker may span chunks.
pub proof fn law_chunks_do_not_matter(
    own: Thinking,
    call: CallState,
    first: Seq<char>,
    second: Seq<char>,
)
    ensures
        ({
            let (own1, call1, out1) = DeepSeekReasoningParser::fed(own, call, first);
            let (own2, call2, out2) = DeepSeekReasoningParser::fed(own1, call1, second);
            let (own3, call3, out3) = DeepSeekReasoningParser::fed(own, call, first + second);
            &&& own2 == own3
            &&& call2 == call3
            &&& told(out1.plus(out2)) == told(out3)
        }),
{
    lemma_scan_split(own.in_think, own.pending + first, second);
    assert(own.pending + first + second =~= own.pending + (first + second));
}

/// A batch of chunks gives what the whole text gives in one chunk, however it
/// is cut.
pub proof fn law_batch_is_one_text(own: Thinking, call: CallState, chunks: Seq<Seq<char>>)
    requires
        chunks.len() > 0,
    ensures
        ({
            let (own1, call1, out1) = parser::fed_all::<DeepSeekReasoningParser>(
                own,
                call,
                chunks,
            );
            let (own2, call2, out2) = DeepSeekReasoningParser::fed(
                own,
                call,
                parser::joined(chunks),
            );
            &&& own1 == own2
            &&& call1 == call2
            &&& told(out1) == told(out2)
        }),
    decreases chunks.len(),
{
    let init = chunks.drop_last();
    let last = chunks.last();
    let before = parser::fed_all::<DeepSeekReasoningParser>(own, call, init);
    let then_last = DeepSeekReasoningParser::fed(before.0, before.1, last);
    if init.len() == 0 {
        assert(parser::joined(init) =~= Seq::empty());
        assert(parser::joined(chunks) =~= last);
        assert(Output::none().plus(then_last.2) =~= then_last.2);
    } else {
        law_batch_is_one_text(own, call, init);
        let text = parser::joined(init);
        let one = DeepSeekReasoningParser::fed(own, call, text);
        law_chunks_do_not_matter(own, call, text, last);
        lemma_told_plus(before.2, then_last.2);
        lemma_told_plus(one.2, then_last.2);
    }
}

/// Outside a block, text without `<` passes through as content, at once and
/// in one piece.
pub proof fn law_plain_content_passes(call: CallState, text: Seq<char>)
    requires
        !text.contains('<'),
    ensures
        DeepSeekReasoningParser::fed(DeepSeekReasoningParser::initial(), call, text) == (
            DeepSeekReasoningParser::initial(),
            call,
            Output::of_content(text),
        ),
{
    reveal_strlit("<think>");
    text::lemma_no_marker(text, THINK_OPEN@);
    assert(Seq::<char>::empty() + text =~= text);
    assert(text.skip(text.len() as int) =~= Seq::empty());
    assert(text.take(text.len() as int) =~= text);
}

/// Outside a block, text without the open marker comes out as content, all of it
/// by the end of the stream: what was kept back as the possible beginning of a
/// marker is not lost.
pub proof fn law_unmarked_text_is_kept(call: CallState, text: Seq<char>)
    requires
        text::find(text, THINK_OPEN@) is None,
    ensures
        ({
            let (own1, call1, out1) = DeepSeekReasoningParser::fed(
                DeepSeekReasoningParser::initial(),
                call,
                text,
            );
            let (_, call2, out2) = DeepSeekReasoningParser::finished(own1, call1);
            &&& call2 == call
            &&& told(out1.plus(out2)) == (text, Seq::<Option<char>>::empty())
        }),
{
    let own = DeepSeekReasoningParser::initial();
    assert(own.pending + text =~= text);
    let cut = text.len() - text::overlap(text, THINK_OPEN@);
    assert(0 <= cut <= text.len()) by {
        text::lemma_overlap(text, THINK_OPEN@);
    }
    let fed = DeepSeekReasoningParser::fed(own, call, text);
    let done = DeepSeekReasoningParser::finished(fed.0, fed.1);
    lemma_told_plus(fed.2, done.2);
    lemma_told_stretch(false, text.take(cut));
    lemma_told_stretch(false, text.skip(cut));
    assert(text.take(cut) + text.skip(cut) =~= text);
    assert(told(fed.2.plus(done.2)).1 =~= Seq::empty());
}

/// A stream with one reasoning block, fed and finished: the content is the
/// text around the block, and the reasoning is the text in the block, once
/// completed. Nothing of the text is lost, and the markers do not show.
pub proof fn law_block_is_reasoning(
    call: CallState,
    before: Seq<char>,
    inside: Seq<char>,
    after: Seq<char>,
)
    requires
        text::find(before + THINK_OPEN@, THINK_OPEN@) == Some(before.len() as int),
        text::find(inside + THINK_CLOSE@, THINK_CLOSE@) == Some(inside.len() as int),
        text::find(after, THINK_OPEN@) is None,
    ensures
        ({
            let stream = before + THINK_OPEN@ + inside + THINK_CLOSE@ + after;
            let (own, call1, out1) = DeepSeekReasoningParser::fed(
                DeepSeekReasoningParser::initial(),
                call,
                stream,
            );
            let (_, _, out2) = DeepSeekReasoningParser::finished(own, call1);
            told(out1.plus(out2)) == (
                before + after,
                inside.map_values(|c: char| Some(c)).push(None),
            )
        }),
{
    lemma_markers();
    let open = THINK_OPEN@;
    let close = THINK_CLOSE@;
    let stream = before + open + inside + close + after;
    let tail1 = inside + close + after;
    assert(stream =~= (before + open) + tail1);
    assert(Seq::<char>::empty() + stream =~= stream);
    text::lemma_find_extend(before + open, tail1, open);
    lemma_scan_found(false, stream, before.len() as int);
    assert(stream.skip((before.len() + open.len()) as int) =~= tail1);
    assert(stream.take(before.len() as int) =~= before);
    assert(tail1 =~= (inside + close) + after);
    text::lemma_find_extend(inside + close, after, close);
    lemma_scan_found(true, tail1, inside.len() as int);
    assert(tail1.skip((inside.len() + close.len()) as int) =~= after);
    assert(tail1.take(inside.len() as int) =~= inside);
    let cut = after.len() - text::overlap(after, open);
    assert(0 <= cut <= after.len()) by {
        text::lemma_overlap(after, open);
    }
    let p1 = stretch(false, before);
    let p2 = stretch(true, inside);
    let p3 = stretch(false, after.take(cut));
    let p4 = stretch(false, after.skip(cut));
    let done = Output::reasoning_done();
    let none = Output::none();
    let inner = p2.plus(done).plus(p3);
    let out = p1.plus(none).plus(inner);
    lemma_told_plus(out, p4);
    lemma_told_plus(p1.plus(none), inner);
    lemma_told_plus(p1, none);
    lemma_told_plus(p2.plus(done), p3);
    lemma_told_plus(p2, done);
    lemma_told_stretch(false, before);
    lemma_told_stretch(true, inside);
    lemma_told_stretch(false, after.take(cut));
    lemma_told_stretch(false, after.skip(cut));
    assert(told(none).0 =~= Seq::empty() && told(none).1 =~= Seq::empty()) by {
        reveal(told);
    }
    assert(told(done).0 =~= Seq::empty() && told(done).1 =~= seq![None::<char>]) by {
        reveal(told);
        reveal_with_fuel(parser::reasoned, 2);
        assert(done.reasoning.drop_last() =~= Seq::empty());
    }
    assert(after =~= after.take(cut) + after.skip(cut));
    assert(told(out.plus(p4)).0 =~= before + after);
    assert(told(out.plus(p4)).1 =~= inside.map_values(|c: char| Some(c)).push(None));
}

impl DeepSeekReasoningParser {
    /// The state before any text.
    pub open spec fn initial() -> Thinking {
        Thinking { in_think: false, pending: Seq::empty() }
    }

    /// A parser outside any reasoning block.
    pub fn new() -> (p: Self)
        ensures
            p@ == Self::initial(),
    {
        DeepSeekReasoningParser { in_think: false, pending: String::new() }
    }
}

impl Default for DeepSeekReasoningParser {
    fn default() -> (p: Self)
        ensures
            p@ == Self::initial(),
    {
        Self::new()
    }
}

impl DialectParser for DeepSeekReasoningParser {
    open spec fn fits(own: Thinking, call: CallState) -> bool {
        true
    }

    open spec fn restarted(own: Thinking) -> Thinking {
        Self::initial()
    }

    open spec fn fed(own: Thinking, call: CallState, text: Seq<char>) -> (
        Thinking,
        CallState,
        Output,
    ) {
        let scanned = think_scan(own.in_think, own.pending + text);
        (scanned.0, call, scanned.1)
    }

    open spec fn finished(own: Thinking, call: CallState) -> (Thinking, CallState, Output) {
        (
            Thinking { in_think: own.in_think, pending: Seq::empty() },
            call,
            stretch(own.in_think, own.pending),
        )
    }

    open spec fn dialect_name(own: Thinking) -> Seq<char> {
        "deepseek_reasoning"@
    }

    fn name(&self) -> &'static str {
        "deepseek_reasoning"
    }

    fn feed(&mut self, text: &str, state: &mut ToolCallArgState, result: &mut ParseResult) {
        let ghost own = self@;
        let ghost before = result@;
        let mut combined = self.pending.clone();
        combined.append(text);
        self.pending = String::new();
        let full = text::to_chars(combined.as_str());
        let open = text::to_chars(THINK_OPEN);
        let close = text::to_chars(THINK_CLOSE);
        proof {
            lemma_markers();
        }
        let mut at: usize = 0;
        assert(full@.skip(0) =~= full@);
        assert(before.plus(Output::none()) =~= before);
        let ghost mut done = Output::none();
        assert(forall|o: Output| #[trigger] Output::none().plus(o) =~= o);
        loop
            invariant_except_break
                at <= full@.len(),
                self.pending@.len() == 0,
                open@ == THINK_OPEN@,
                close@ == THINK_CLOSE@,
                open@.len() == 7,
                close@.len() == 8,
                result@ == before.plus(done),
                think_scan(own.in_think, full@).0 == think_scan(
                    self.in_think,
                    full@.skip(at as int),
                ).0,
                think_scan(own.in_think, full@).1 == done.plus(
                    think_scan(self.in_think, full@.skip(at as int)).1,
                ),
            ensures
                self@ == think_scan(own.in_think, full@).0,
                result@ == before.plus(think_scan(own.in_think, full@).1),
            decreases full@.len() - at,
        {
            let rest = vstd::slice::slice_subrange(full.as_slice(), at, full.len());
            assert(rest@ == full@.skip(at as int));
            let marker: &[char] = if self.in_think {
                close.as_slice()
            } else {
                open.as_slice()
            };
            let found = text::find_chars(rest, marker, 0);
            let cut: usize = match found {
                Some(pos) => pos,
                None => rest.len() - text::overlap_len(rest, marker),
            };
            proof {
                text::lemma_find_from(rest@, marker@, 0);
            }
            let piece = text::from_chars(vstd::slice::slice_subrange(rest, 0, cut));
            assert(piece@ == rest@.take(cut as int));
            let ghost emitted = stretch(self.in_think, piece@);
            if self.in_think {
                result.push_reasoning(piece);
            } else {
                result.push_content(piece);
            }
            if found.is_none() {
                self.pending = text::from_chars(
                    vstd::slice::slice_subrange(rest, cut, rest.len()),
                );
                assert(self.pending@ == rest@.skip(cut as int));
                assert(result@ =~= before.plus(done.plus(emitted)));
                break;
            }
            let ghost marked = marker_output(self.in_think);
            if self.in_think {
                result.push_reasoning_done();
            } else {
                assert(result@.plus(marked) =~= result@);
            }
            proof {
                let tail = think_scan(!self.in_think, rest@.skip(cut + marker@.len())).1;
                assert(done.plus(emitted.plus(marked).plus(tail)) =~= done.plus(emitted).plus(
                    marked,
                ).plus(tail));
                assert(rest@.skip(cut + marker@.len()) =~= full@.skip(at + cut + marker@.len()));
                assert(result@ =~= before.plus(done.plus(emitted).plus(marked)));
                done = done.plus(emitted).plus(marked);
            }
            at = at + cut + marker.len();
            self.in_think = !self.in_think;
        }
    }

    fn finish(&mut self, state: &mut ToolCallArgState, result: &mut ParseResult) {
        let piece = self.pending.clone();
        self.pending = String::new();
        if self.in_think {
            result.push_reasoning(piece);
        } else {
            result.push_content(piece);
        }
    }

    fn reset(&mut self, state: &mut ToolCallArgState) {
        state.clear();
        self.in_think = false;
        self.pending = String::new();
    }
}

/// One piece of text, or none where it is empty.
pub open spec fn piece(text: Seq<char>) -> Seq<Seq<char>> {
    if text.len() > 0 {
        seq![text]
    } else {
        Seq::empty()
    }
}

/// One piece of reasoning, or none where it is empty.
pub open spec fn thought(text: Seq<char>) -> Seq<Thought> {
    if text.len() > 0 {
        seq![Thought { fragment: text, is_complete: false }]
    } else {
        Seq::empty()
    }
}

/// No more is kept back than must be: after every feed, inside a block and outside,
/// the pending text is the beginning, but not the whole, of the marker that can
/// come next. So every character that cannot be part of a marker any more has been
/// emitted.
pub proof fn law_little_is_kept_back(own: Thinking, call: CallState, text: Seq<char>)
    ensures
        ({
            let (own1, _, _) = DeepSeekReasoningParser::fed(own, call, text);
            let marker = if own1.in_think {
                THINK_CLOSE@
            } else {
                THINK_OPEN@
            };
            &&& own1.pending.len() < marker.len()
            &&& own1.pending == marker.take(own1.pending.len() as int)
        }),
{
    lemma_scan_keeps_little(own.in_think, own.pending + text);
}

proof fn lemma_scan_keeps_little(in_think: bool, text: Seq<char>)
    ensures
        ({
            let own1 = think_scan(in_think, text).0;
            let marker = next_marker(own1.in_think);
            &&& own1.pending.len() < marker.len()
            &&& own1.pending == marker.take(own1.pending.len() as int)
        }),
    decreases text.len(),
{
    lemma_markers();
    let marker = next_marker(in_think);
    text::lemma_find_from(text, marker, 0);
    match text::find(text, marker) {
        Some(pos) => lemma_scan_keeps_little(!in_think, text.skip(pos + marker.len())),
        None => {
            text::lemma_overlap(text, marker);
            let k = text::overlap(text, marker) as int;
            if k == marker.len() {
                assert(marker.subrange(0, k) =~= marker);
                assert(text::occurs_at(text, marker, text.len() - k));
            }
            assert(text.subrange(text.len() - k, text.len() as int) =~= text.skip(
                text.len() - k,
            ));
            assert(marker.subrange(0, k) =~= marker.take(k));
        },
    }
}

/// Text without the marker that can come next is one piece of content outside a
/// block, and one piece of reasoning inside, apart from what is kept back.
pub proof fn law_text_without_a_marker(own: Thinking, call: CallState, text: Seq<char>)
    requires
        text::find(
            own.pending + text,
            if own.in_think {
                THINK_CLOSE@
            } else {
                THINK_OPEN@
            },
        ) is None,
    ensures
        ({
            let (own1, call1, out) = DeepSeekReasoningParser::fed(own, call, text);
            let all = own.pending + text;
            let said = all.take(all.len() - own1.pending.len());
            &&& call1 == call
            &&& own1.in_think == own.in_think
            &&& said + own1.pending == all
            &&& out.content == (if own.in_think {
                Seq::empty()
            } else {
                piece(said)
            })
            &&& out.reasoning == (if own.in_think {
                thought(said)
            } else {
                Seq::empty()
            })
            &&& out.tool_calls.len() == 0
        }),
{
    let all = own.pending + text;
    let marker = next_marker(own.in_think);
    text::lemma_overlap(all, marker);
    let cut = all.len() - text::overlap(all, marker);
    assert(all.take(cut) + all.skip(cut) =~= all);
}

/// Outside a block, text up to the first open marker is one piece of content. What
/// follows the marker goes as in a block with nothing kept back.
pub proof fn law_open_marker_begins_a_block(
    own: Thinking,
    call: CallState,
    text: Seq<char>,
    before: Seq<char>,
    rest: Seq<char>,
)
    requires
        !own.in_think,
        own.pending + text == before + THINK_OPEN@ + rest,
        text::find(before + THINK_OPEN@, THINK_OPEN@) == Some(before.len() as int),
    ensures
        ({
            let (own1, call1, out) = DeepSeekReasoningParser::fed(own, call, text);
            let inside = Thinking { in_think: true, pending: Seq::empty() };
            let (own2, _, later) = DeepSeekReasoningParser::fed(inside, call, rest);
            &&& call1 == call
            &&& own1 == own2
            &&& out.content == piece(before) + later.content
            &&& out.reasoning == later.reasoning
            &&& out.tool_calls.len() == 0
        }),
{
    lemma_markers();
    let all = own.pending + text;
    let open = THINK_OPEN@;
    text::lemma_find_extend(before + open, rest, open);
    assert(all == (before + open) + rest);
    lemma_scan_found(false, all, before.len() as int);
    assert(all.take(before.len() as int) =~= before);
    assert(all.skip((before.len() + open.len()) as int) =~= rest);
    assert(Seq::<char>::empty() + rest =~= rest);
    lemma_no_calls(false, all);
    let later = think_scan(true, rest).1;
    let out = think_scan(false, all).1;
    assert(out.content =~= piece(before) + later.content);
    assert(out.reasoning =~= later.reasoning);
}

/// Inside a block, text up to the first close marker is one piece of reasoning,
/// and the block is then announced complete. What follows the marker goes as
/// outside a block with nothing kept back.
pub proof fn law_close_marker_ends_a_block(
    own: Thinking,
    call: CallState,
    text: Seq<char>,
    inside: Seq<char>,
    rest: Seq<char>,
)
    requires
        own.in_think,
        own.pending + text == inside + THINK_CLOSE@ + rest,
        text::find(inside + THINK_CLOSE@, THINK_CLOSE@) == Some(inside.len() as int),
    ensures
        ({
            let (own1, call1, out) = DeepSeekReasoningParser::fed(own, call, text);
            let outside = Thinking { in_think: false, pending: Seq::empty() };
            let (own2, _, later) = DeepSeekReasoningParser::fed(outside, call, rest);
            let done = Thought { fragment: Seq::empty(), is_complete: true };
            &&& call1 == call
            &&& own1 == own2
            &&& out.content == later.content
            &&& out.reasoning == thought(inside).push(done) + later.reasoning
            &&& out.tool_calls.len() == 0
        }),
{
    lemma_markers();
    let all = own.pending + text;
    let close = THINK_CLOSE@;
    text::lemma_find_extend(inside + close, rest, close);
    assert(all == (inside + close) + rest);
    lemma_scan_found(true, all, inside.len() as int);
    assert(all.take(inside.len() as int) =~= inside);
    assert(all.skip((inside.len() + close.len()) as int) =~= rest);
    assert(Seq::<char>::empty() + rest =~= rest);
    lemma_no_calls(true, all);
    let later = think_scan(false, rest).1;
    let out = think_scan(true, all).1;
    let done = Thought { fragment: Seq::empty(), is_complete: true };
    assert(out.content =~= later.content);
    assert(out.reasoning =~= thought(inside).push(done) + later.reasoning);
}

/// At the end of the stream, what was kept back comes out in one piece, as
/// reasoning inside a block and as content outside.
pub proof fn law_finish_flushes(own: Thinking, call: CallState)
    ensures
        ({
            let (own1, call1, out) = DeepSeekReasoningParser::finished(own, call);
            &&& call1 == call
            &&& own1.in_think == own.in_think
            &&& own1.pending.len() == 0
            &&& out.content == (if own.in_think {
                Seq::empty()
            } else {
                piece(own.pending)
            })
            &&& out.reasoning == (if own.in_think {
                thought(own.pending)
            } else {
                Seq::empty()
            })
            &&& out.tool_calls.len() == 0
        }),
{
}

/// The markers are `<think>` and `</think>`, and a new parser is outside a block.
pub proof fn law_markers()
    ensures
        THINK_OPEN@ == seq!['<', 't', 'h', 'i', 'n', 'k', '>'],
        THINK_CLOSE@ == seq!['<', '/', 't', 'h', 'i', 'n', 'k', '>'],
        !DeepSeekReasoningParser::initial().in_think,
        DeepSeekReasoningParser::initial().pending.len() == 0,
{
    reveal_strlit("<think>");
    reveal_strlit("</think>");
    assert(THINK_OPEN@ =~= seq!['<', 't', 'h', 'i', 'n', 'k', '>']);
    assert(THINK_CLOSE@ =~= seq!['<', '/', 't', 'h', 'i', 'n', 'k', '>']);
}

} // verus!
