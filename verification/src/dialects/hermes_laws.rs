//! Laws of the Hermes dialect.

use crate::braces;
use crate::braces::Braces;
use crate::dialects::hermes;
use crate::dialects::hermes::{Hermes, HermesParser, Step, CLOSE_MARKER, OPEN_MARKER};
use crate::json;
use crate::parser;
use crate::parser::{DialectParser, Output, Progress};
use crate::text;
use crate::types::{CallState, Delta, ToolCallState};
use vstd::prelude::*;
use vstd::string::*;

verus! {

/// A match of the name is not undone by more text.
proof fn lemma_name_at_extend(body: Seq<char>, more: Seq<char>, at: int)
    requires
        0 <= at,
        hermes::name_at(body, at) is Some,
    ensures
        hermes::name_at(body + more, at) == hermes::name_at(body, at),
{
    reveal_strlit("\"name\"");
    let key = "\"name\""@;
    let whole = body + more;
    assert(whole.subrange(at, at + 6) =~= body.subrange(at, at + 6));
    let colon = text::skip_white(body, at + 6);
    text::lemma_skip_white(body, at + 6);
    text::lemma_skip_white_extend(body, more, at + 6);
    let quote = text::skip_white(body, colon + 1);
    text::lemma_skip_white(body, colon + 1);
    text::lemma_skip_white_extend(body, more, colon + 1);
    text::lemma_find_from(body, seq!['"'], quote + 1);
    text::lemma_find_from_extend(body, more, seq!['"'], quote + 1);
    let end = text::find_from(body, seq!['"'], quote + 1)->0;
    assert(whole.subrange(quote + 1, end) =~= body.subrange(quote + 1, end));
}

/// A match of the name that more text completes leaves no room for another
/// match behind it in the shorter text.
proof fn lemma_name_at_first(body: Seq<char>, more: Seq<char>, early: int, late: int)
    requires
        0 <= early < late,
        hermes::name_at(body, early) is None,
        hermes::name_at(body, late) is Some,
    ensures
        hermes::name_at(body + more, early) is None,
{
    reveal_strlit("\"name\"");
    let key = "\"name\""@;
    let whole = body + more;
    let quote_mark = seq!['"'];
    assert(body.subrange(late, late + 6) =~= key);
    assert(body[late] == key[0] && body[late + 1] == key[1] && body[late + 5] == key[5]) by {
        assert(body.subrange(late, late + 6)[0] == body[late]);
        assert(body.subrange(late, late + 6)[1] == body[late + 1]);
        assert(body.subrange(late, late + 6)[5] == body[late + 5]);
    }
    if hermes::name_at(whole, early) is Some {
        let sub = whole.subrange(early, early + 6);
        assert(sub == key);
        assert forall|i: int| 0 <= i < 6 implies whole[early + i] == #[trigger] key[i] by {
            assert(sub[i] == whole[early + i]);
        }
        let colon = text::skip_white(whole, early + 6);
        text::lemma_skip_white(whole, early + 6);
        let quote = text::skip_white(whole, colon + 1);
        text::lemma_skip_white(whole, colon + 1);
        text::lemma_find_from(whole, quote_mark, quote + 1);
        let end = text::find_from(whole, quote_mark, quote + 1)->0;
        assert(whole.subrange(end, end + 1) =~= quote_mark);
        assert forall|i: int| quote < i < end implies whole[i] != '"' by {
            if whole[i] == '"' {
                assert(whole.subrange(i, i + 1) =~= quote_mark);
                assert(text::occurs_at(whole, quote_mark, i));
            }
        }
        // The first quotation marks from `early` on stand at `early`,
        // `early + 5`, `quote` and `end`.
        assert(whole[late] == '"');
        assert(whole[late + 1] == 'n');
        assert(whole[late + 5] == '"');
        assert(!text::is_white('n'));
        assert(!text::is_white('"'));
        if end < body.len() {
            assert(body.subrange(early, early + 6) =~= sub);
            lemma_skip_white_shorter(body, more, early + 6);
            lemma_skip_white_shorter(body, more, colon + 1);
            assert(body.subrange(end, end + 1) =~= quote_mark);
            assert forall|i: int| quote + 1 <= i < end implies !#[trigger] text::occurs_at(
                body,
                quote_mark,
                i,
            ) by {
                if text::occurs_at(body, quote_mark, i) {
                    assert(body.subrange(i, i + 1)[0] == body[i]);
                    assert(whole[i] == '"');
                }
            }
            text::lemma_find_is(body, quote_mark, quote + 1, end);
            assert(false);
        }
        if late < early + 5 {
            assert(key[late - early] == whole[late]);
        } else if late == early + 5 {
            assert(whole[early + 6] == 'n');
        }
        assert(false);
    }
}

/// White space that ends inside a text ends there without what follows too.
proof fn lemma_skip_white_shorter(text: Seq<char>, more: Seq<char>, from: int)
    requires
        0 <= from <= text.len(),
        text::skip_white(text + more, from) < text.len(),
    ensures
        text::skip_white(text, from) == text::skip_white(text + more, from),
{
    text::lemma_skip_white(text, from);
    text::lemma_skip_white(more, 0);
    text::lemma_skip_white_extend(text, more, from);
}

/// What `name_from` finds, it finds in a longer body too.
proof fn lemma_name_from_extend(body: Seq<char>, more: Seq<char>, from: int)
    requires
        0 <= from,
        hermes::name_from(body, from) is Some,
    ensures
        hermes::name_from(body + more, from) == hermes::name_from(body, from),
    decreases body.len() - from,
{
    if hermes::name_at(body, from) is Some {
        lemma_name_at_extend(body, more, from);
    } else {
        lemma_name_from_extend(body, more, from + 1);
        let late = lemma_name_from_at(body, from + 1);
        lemma_name_at_first(body, more, from, late);
    }
}

/// Where the name is that `name_from` finds.
proof fn lemma_name_from_at(body: Seq<char>, from: int) -> (at: int)
    requires
        0 <= from,
        hermes::name_from(body, from) is Some,
    ensures
        from <= at,
        hermes::name_at(body, at) == hermes::name_from(body, from),
        hermes::name_at(body, at) is Some,
    decreases body.len() - from,
{
    if hermes::name_at(body, from) is Some {
        from
    } else {
        lemma_name_from_at(body, from + 1)
    }
}

/// The name that a part of a body shows is the name that the whole body shows:
/// a name that was announced stays right, whatever follows.
pub proof fn law_name_is_final(body: Seq<char>, more: Seq<char>)
    requires
        hermes::tool_name(body) is Some,
    ensures
        hermes::tool_name(body + more) == hermes::tool_name(body),
{
    lemma_name_from_extend(body, more, 0);
}

/// The deltas of an output without the argument fragments: who is called, with
/// which id, and which calls are complete.
pub open spec fn heads(deltas: Seq<Delta>) -> Seq<Delta>
    decreases deltas.len(),
{
    if deltas.len() == 0 {
        Seq::empty()
    } else {
        let last = deltas.last();
        let before = heads(deltas.drop_last());
        if last.id is None && last.name is None && !last.is_complete {
            before
        } else {
            before.push(Delta { arguments_fragment: Seq::empty(), ..last })
        }
    }
}

/// What an output tells apart from the arguments: the content, and the heads of
/// the deltas.
#[verifier::opaque]
pub open spec fn told(out: Output) -> (Seq<char>, Seq<Delta>) {
    (parser::joined(out.content), heads(out.tool_calls))
}

/// The state of a call apart from how much of its arguments has been emitted.
pub open spec fn apart(call: CallState) -> CallState {
    CallState { emitted: 0, ..call }
}

/// The bodies of the calls that a text completes.
pub open spec fn bodies(own: Hermes, call: CallState, text: Seq<char>) -> Seq<Seq<char>>
    decreases text.len(), hermes::rank(call.state),
{
    if text.len() == 0 {
        Seq::empty()
    } else {
        let s = hermes::step(own, call, text);
        match s.next {
            Some(next) => if 0 <= next <= text.len() && (next > 0 || hermes::rank(s.call.state)
                < hermes::rank(call.state)) {
                let rest = bodies(s.own, s.call, text.skip(next));
                if call.state == ToolCallState::InToolCall {
                    seq![s.call.buffer] + rest
                } else {
                    rest
                }
            } else {
                Seq::empty()
            },
            None => Seq::empty(),
        }
    }
}

proof fn lemma_heads(a: Seq<Delta>, b: Seq<Delta>)
    ensures
        heads(a + b) == heads(a) + heads(b),
    decreases b.len(),
{
    if b.len() == 0 {
        assert(a + b =~= a);
        assert(heads(a) + heads(b) =~= heads(a));
    } else {
        lemma_heads(a, b.drop_last());
        assert((a + b).drop_last() =~= a + b.drop_last());
        assert((a + b).last() == b.last());
        assert(heads(a + b) =~= heads(a) + heads(b));
    }
}

proof fn lemma_told_plus(a: Output, b: Output)
    ensures
        told(a.plus(b)) == (told(a).0 + told(b).0, told(a).1 + told(b).1),
{
    reveal(told);
    lemma_heads(a.tool_calls, b.tool_calls);
    parser::lemma_joined(a.content, b.content);
}

proof fn lemma_told_content(text: Seq<char>)
    ensures
        told(Output::of_content(text)) == (text, Seq::<Delta>::empty()),
{
    reveal(told);
    reveal_with_fuel(parser::joined, 2);
    assert(parser::joined(Output::of_content(text).content) =~= text);
}

proof fn lemma_told_calls(deltas: Seq<Delta>)
    ensures
        told(Output::of_calls(deltas)) == (Seq::<char>::empty(), heads(deltas)),
{
    reveal(told);
}

proof fn lemma_told_none()
    ensures
        told(Output::none()) == (Seq::<char>::empty(), Seq::<Delta>::empty()),
{
    reveal(told);
}

/// The delta that completes a call, without the arguments.
spec fn end_head(call: CallState) -> Delta {
    hermes::closing_delta(call, Seq::empty())
}

/// The state behind a completed call.
spec fn ended(call: CallState) -> CallState {
    CallState { state: ToolCallState::Idle, id: None, ..call }
}

/// The heads of what is emitted of a body are the announcement.
proof fn lemma_emitted_heads(call: CallState, body: Seq<char>, is_complete: bool)
    ensures
        heads(hermes::emitted(call, body, is_complete).1) == hermes::announced(call, body).1,
        apart(hermes::emitted(call, body, is_complete).0) == apart(
            hermes::announced(call, body).0,
        ),
{
    reveal_with_fuel(heads, 3);
    let head = hermes::announced(call, body);
    let args = hermes::streamed(head.0, body, is_complete);
    assert(heads(head.1) =~= head.1);
    assert(heads(args.1) =~= Seq::empty());
    lemma_heads(head.1, args.1);
    assert(head.1 + Seq::<Delta>::empty() =~= head.1);
}

/// The heads of what closes a call are the announcement and the end.
proof fn lemma_closing_heads(call: CallState, is_complete: bool)
    ensures
        ({
            let head = hermes::announced(call, call.buffer);
            let closed = hermes::closing(call, is_complete);
            &&& heads(closed.1) == head.1.push(end_head(head.0))
            &&& apart(closed.0) == apart(ended(head.0))
        }),
{
    let sent = hermes::emitted(call, call.buffer, is_complete);
    let closed = hermes::closing(call, is_complete);
    lemma_emitted_heads(call, call.buffer, is_complete);
    assert(closed.1.drop_last() =~= sent.1);
    assert(apart(closed.0) =~= apart(ended(hermes::announced(call, call.buffer).0)));
}

/// Announcing after a part of a body and after the whole comes to the same as
/// announcing after the whole.
proof fn lemma_announced_twice(call: CallState, part: Seq<char>, more: Seq<char>)
    ensures
        ({
            let first = hermes::announced(call.extended(part), call.extended(part).buffer);
            let both = call.extended(part + more);
            let second = hermes::announced(first.0.extended(more), both.buffer);
            let once = hermes::announced(both, both.buffer);
            &&& first.0.extended(more).buffer == both.buffer
            &&& first.1 + second.1 == once.1
            &&& second.0 == once.0
        }),
{
    let body = call.buffer + part;
    assert(body + more =~= call.buffer + (part + more));
    if hermes::tool_name(body) is Some {
        law_name_is_final(body, more);
    }
    let first = hermes::announced(call.extended(part), body);
    let both = call.extended(part + more);
    let second = hermes::announced(first.0.extended(more), both.buffer);
    let once = hermes::announced(both, both.buffer);
    assert(first.1 + second.1 =~= once.1);
}

/// Whether a step is one that the scan can go on from.
pub open spec fn sound_step(own: Hermes, call: CallState, text: Seq<char>) -> bool {
    let s = hermes::step(own, call, text);
    match s.next {
        Some(next) => {
            &&& 0 <= next <= text.len()
            &&& next > 0 || hermes::rank(s.call.state) < hermes::rank(call.state)
            &&& own.pending.len() == 0 ==> s.own.pending.len() == 0
        },
        None => {
            &&& call.state != ToolCallState::Complete
            &&& s.call.state == call.state
            &&& s.own.pending.len() <= text.len()
            &&& s.own.pending == text.skip(text.len() - s.own.pending.len())
            &&& s.own.bare == own.bare
        },
    }
}

pub(crate) proof fn lemma_step_sound(own: Hermes, call: CallState, text: Seq<char>)
    ensures
        sound_step(own, call, text),
{
    reveal(hermes::emitted_now);
    reveal(hermes::closed_now);
    reveal(hermes::step);
    reveal_strlit("<tool_call>");
    reveal_strlit("</tool_call>");
    match call.state {
        ToolCallState::Idle => {
            text::lemma_skip_white(text, 0);
            text::lemma_find_from(text, OPEN_MARKER@, 0);
            text::lemma_overlap(text, OPEN_MARKER@);
        },
        ToolCallState::InToolCall => {
            braces::lemma_balance_bounds(text, own.braces, 0);
            text::lemma_find_from(text, CLOSE_MARKER@, 0);
            text::lemma_overlap(text, CLOSE_MARKER@);
            assert(text.skip(text.len() as int) =~= Seq::empty());
        },
        ToolCallState::Complete => {},
    }
}

/// More text behind a step that leaves text over does not change the step.
proof fn lemma_step_extend(own: Hermes, call: CallState, text: Seq<char>, more: Seq<char>)
    requires
        hermes::step(own, call, text).next is Some,
    ensures
        hermes::step(own, call, text + more) == hermes::step(own, call, text),
{
    reveal(hermes::step);
    let whole = text + more;
    match call.state {
        ToolCallState::Idle => {
            let lead = text::skip_white(text, 0);
            text::lemma_skip_white(text, 0);
            text::lemma_skip_white_extend(text, more, 0);
            if hermes::continues(own, text) {
                assert(whole.take(lead) =~= text.take(lead));
            } else {
                text::lemma_find_from(text, OPEN_MARKER@, 0);
                text::lemma_find_extend(text, more, OPEN_MARKER@);
                let pos = text::find(text, OPEN_MARKER@)->0;
                assert(whole.take(pos) =~= text.take(pos));
                lemma_open_not_white(text);
            }
        },
        ToolCallState::InToolCall => if own.bare {
            braces::lemma_balance_bounds(text, own.braces, 0);
            braces::lemma_balance_extend(text, more, own.braces, 0);
            let end = braces::balance_from(text, own.braces, 0)->0;
            assert(whole.take(end) =~= text.take(end));
        } else {
            text::lemma_find_from(text, CLOSE_MARKER@, 0);
            text::lemma_find_extend(text, more, CLOSE_MARKER@);
            let pos = text::find(text, CLOSE_MARKER@)->0;
            assert(whole.take(pos) =~= text.take(pos));
        },
        ToolCallState::Complete => {},
    }
}

/// White space holds neither the open marker nor the beginning of it.
proof fn lemma_open_not_white(text: Seq<char>)
    ensures
        text::skip_white(text, 0) == text.len() ==> text::find(text, OPEN_MARKER@) is None
            && text::overlap(text, OPEN_MARKER@) == 0,
{
    reveal_strlit("<tool_call>");
    text::lemma_skip_white(text, 0);
    if text::skip_white(text, 0) == text.len() {
        assert(!text::is_white('<'));
        assert(OPEN_MARKER@[0] == '<');
        assert(!text.contains('<'));
        text::lemma_no_marker(text, OPEN_MARKER@);
    }
}

/// Whether two steps differ at most in how the arguments were cut.
spec fn steps_alike(a: Step, b: Step) -> bool {
    &&& a.own == b.own
    &&& a.next == b.next
    &&& apart(a.call) == apart(b.call)
    &&& told(a.out) == told(b.out)
}

/// A step does not depend on how much of the arguments has been emitted, apart
/// from the arguments.
proof fn lemma_step_alike(own: Hermes, a: CallState, b: CallState, text: Seq<char>)
    requires
        apart(a) == apart(b),
    ensures
        steps_alike(hermes::step(own, a, text), hermes::step(own, b, text)),
{
    reveal(hermes::emitted_now);
    reveal(hermes::closed_now);
    reveal(hermes::step);
    assert(a == CallState { emitted: a.emitted, ..b });
    match a.state {
        ToolCallState::Idle => {
            assert(a.begun() == b.begun());
        },
        ToolCallState::InToolCall => {
            let chunk = if own.bare {
                match braces::balance_from(text, own.braces, 0) {
                    Some(end) => text.take(end),
                    None => text,
                }
            } else {
                match text::find(text, CLOSE_MARKER@) {
                    Some(pos) => text.take(pos),
                    None => text.take(text.len() - text::overlap(text, CLOSE_MARKER@)),
                }
            };
            let ea = a.extended(chunk);
            let eb = b.extended(chunk);
            let body = ea.buffer;
            let complete = json::is_json(body);
            assert(hermes::announced(ea, body).1 =~= hermes::announced(eb, body).1);
            assert(apart(hermes::announced(ea, body).0) =~= apart(hermes::announced(eb, body).0));
            lemma_emitted_heads(ea, body, complete);
            lemma_emitted_heads(eb, body, complete);
            lemma_closing_heads(ea, complete);
            lemma_closing_heads(eb, complete);
            lemma_told_calls(hermes::emitted(ea, body, complete).1);
            lemma_told_calls(hermes::emitted(eb, body, complete).1);
            lemma_told_calls(hermes::closing(ea, complete).1);
            lemma_told_calls(hermes::closing(eb, complete).1);
        },
        ToolCallState::Complete => {},
    }
}

/// Whether two scans differ at most in how the arguments were cut.
spec fn scans_alike(own: Hermes, a: CallState, b: CallState, text: Seq<char>) -> bool {
    let ra = hermes::scan(own, a, text);
    let rb = hermes::scan(own, b, text);
    &&& ra.0 == rb.0
    &&& apart(ra.1) == apart(rb.1)
    &&& told(ra.2) == told(rb.2)
    &&& bodies(own, a, text) == bodies(own, b, text)
}

proof fn lemma_scan_alike(own: Hermes, a: CallState, b: CallState, text: Seq<char>)
    requires
        apart(a) == apart(b),
    ensures
        scans_alike(own, a, b, text),
    decreases text.len(), hermes::rank(a.state),
{
    assert(a.state == b.state) by {
        assert(apart(a).state == apart(b).state);
    }
    if text.len() > 0 {
        lemma_step_alike(own, a, b, text);
        lemma_step_sound(own, a, text);
        lemma_step_sound(own, b, text);
        let sa = hermes::step(own, a, text);
        let sb = hermes::step(own, b, text);
        if let Some(next) = sa.next {
            assert(apart(sa.call).state == apart(sb.call).state);
            assert(apart(sa.call).buffer == apart(sb.call).buffer);
            lemma_scan_alike(sa.own, sa.call, sb.call, text.skip(next));
            let ra = hermes::scan(sa.own, sa.call, text.skip(next));
            let rb = hermes::scan(sb.own, sb.call, text.skip(next));
            lemma_told_plus(sa.out, ra.2);
            lemma_told_plus(sb.out, rb.2);
        }
    }
}

/// A step that uses up its text, and the step that takes up what it kept back
/// and the text behind it, together do what one step does on the whole.
spec fn steps_join(own: Hermes, call: CallState, text: Seq<char>, more: Seq<char>) -> bool {
    let s = hermes::step(own, call, text);
    let own1 = Hermes { pending: Seq::empty(), ..s.own };
    let kept = s.own.pending + more;
    let first = hermes::step(own1, s.call, kept);
    let whole = hermes::step(own, call, text + more);
    &&& whole.own == first.own
    &&& whole.next == braces::shifted(first.next, text.len() - s.own.pending.len())
    &&& apart(whole.call) == apart(first.call)
    &&& told(whole.out) == (
        told(s.out).0 + told(first.out).0,
        told(s.out).1 + told(first.out).1,
    )
}

/// The step that is taken in each state.
pub(crate) proof fn lemma_step_is(own: Hermes, call: CallState, text: Seq<char>)
    ensures
        call.state == ToolCallState::Idle ==> hermes::step(own, call, text) == hermes::idle_step(
            own,
            call,
            text,
        ),
        call.state == ToolCallState::InToolCall && own.bare ==> hermes::step(own, call, text)
            == hermes::bare_step(own, call, text),
        call.state == ToolCallState::InToolCall && !own.bare ==> hermes::step(own, call, text)
            == hermes::marked_step(own, call, text),
{
    reveal(hermes::step);
}

/// A text whose step outside a call uses it up, cut where the step cut it:
/// whether a bare call follows can be seen from the part that was kept back
/// and what comes behind it.
proof fn lemma_continues_across(own: Hermes, own1: Hermes, text: Seq<char>, more: Seq<char>)
    requires
        !hermes::continues(own, text),
        own1.after_call == (own.after_call && text::all_white(
            text.take(text.len() - text::overlap(text, OPEN_MARKER@)),
        )),
    ensures
        ({
            let cut = text.len() - text::overlap(text, OPEN_MARKER@);
            let kept = text.skip(cut) + more;
            let lead = text::skip_white(text + more, 0);
            &&& hermes::continues(own, text + more) == hermes::continues(own1, kept)
            &&& hermes::continues(own, text + more) ==> cut <= lead && text::skip_white(kept, 0)
                == lead - cut && lead < (text + more).len()
        }),
{
    let cut = text.len() - text::overlap(text, OPEN_MARKER@);
    text::lemma_overlap(text, OPEN_MARKER@);
    let kept = text.skip(cut) + more;
    let whole = text + more;
    let head = text.take(cut);
    assert(whole =~= head + kept);
    text::lemma_skip_white(text, 0);
    text::lemma_skip_white_extend(text, more, 0);
    text::lemma_skip_white(head, 0);
    text::lemma_skip_white_extend(head, kept, 0);
    text::lemma_skip_white(kept, 0);
    text::lemma_skip_white(more, 0);
    if text::skip_white(head, 0) < head.len() {
        assert(!text::all_white(head));
    } else {
        assert(text::all_white(head));
    }
    if hermes::continues(own, whole) {
        if text::skip_white(text, 0) < text.len() {
            assert(whole[text::skip_white(text, 0)] == text[text::skip_white(text, 0)]);
            assert(false);
        }
        lemma_open_not_white(text);
        assert(head =~= text);
    }
}

/// [`steps_join`] where a bare call begins.
proof fn lemma_join_idle_bare(own: Hermes, call: CallState, text: Seq<char>, more: Seq<char>)
    requires
        call.state == ToolCallState::Idle,
        hermes::step(own, call, text).next is None,
        hermes::continues(own, text + more),
    ensures
        steps_join(own, call, text, more),
{
    let cut = text.len() - text::overlap(text, OPEN_MARKER@);
    assert(0 <= cut <= text.len()) by {
        text::lemma_overlap(text, OPEN_MARKER@);
    }
    lemma_step_is(own, call, text);
    let s = hermes::step(own, call, text);
    let own1 = Hermes { pending: Seq::empty(), ..s.own };
    let kept = text.skip(cut) + more;
    let whole = text + more;
    lemma_step_is(own, call, text + more);
    lemma_step_is(own1, call, kept);
    let lead = text::skip_white(whole, 0);
    lemma_continues_across(own, own1, text, more);
    lemma_told_content(text.take(cut));
    lemma_told_content(whole.take(lead));
    lemma_told_content(kept.take(lead - cut));
    assert(whole.take(lead) =~= text.take(cut) + kept.take(lead - cut));
}

/// [`steps_join`] where a marked call begins.
proof fn lemma_join_idle_found(own: Hermes, call: CallState, text: Seq<char>, more: Seq<char>)
    requires
        call.state == ToolCallState::Idle,
        hermes::step(own, call, text).next is None,
        !hermes::continues(own, text + more),
        text::find(text + more, OPEN_MARKER@) is Some,
    ensures
        steps_join(own, call, text, more),
{
    let marker = OPEN_MARKER@;
    let cut = text.len() - text::overlap(text, marker);
    assert(0 <= cut <= text.len()) by {
        text::lemma_overlap(text, marker);
    }
    lemma_step_is(own, call, text);
    let s = hermes::step(own, call, text);
    let own1 = Hermes { pending: Seq::empty(), ..s.own };
    let kept = text.skip(cut) + more;
    let whole = text + more;
    let head = text.take(cut);
    lemma_step_is(own, call, whole);
    lemma_step_is(own1, call, kept);
    lemma_continues_across(own, own1, text, more);
    text::lemma_find_across(text, more, marker);
    lemma_told_content(head);
    assert(s.own.pending.len() == text.len() - cut);
    let q = text::find(kept, marker)->0;
    assert(0 <= q <= kept.len()) by {
        text::lemma_find_from(kept, marker, 0);
    }
    lemma_told_content(whole.take(q + cut));
    lemma_told_content(kept.take(q));
    assert(whole.take(q + cut) =~= head + kept.take(q));
}

/// [`steps_join`] where no call begins.
proof fn lemma_join_idle_kept(own: Hermes, call: CallState, text: Seq<char>, more: Seq<char>)
    requires
        call.state == ToolCallState::Idle,
        hermes::step(own, call, text).next is None,
        !hermes::continues(own, text + more),
        text::find(text + more, OPEN_MARKER@) is None,
    ensures
        steps_join(own, call, text, more),
{
    let marker = OPEN_MARKER@;
    let cut = text.len() - text::overlap(text, marker);
    assert(0 <= cut <= text.len()) by {
        text::lemma_overlap(text, marker);
    }
    lemma_step_is(own, call, text);
    let s = hermes::step(own, call, text);
    let own1 = Hermes { pending: Seq::empty(), ..s.own };
    let kept = text.skip(cut) + more;
    let whole = text + more;
    let head = text.take(cut);
    lemma_step_is(own, call, whole);
    lemma_step_is(own1, call, kept);
    lemma_continues_across(own, own1, text, more);
    text::lemma_find_across(text, more, marker);
    lemma_told_content(head);
    assert(s.own.pending.len() == text.len() - cut);
    text::lemma_overlap_across(text, more, marker);
    let stop = kept.len() - text::overlap(kept, marker);
    assert(0 <= stop <= kept.len()) by {
        text::lemma_overlap(kept, marker);
    }
    assert(whole.take(stop + cut) =~= head + kept.take(stop));
    assert(whole.skip(stop + cut) =~= kept.skip(stop));
    lemma_told_content(whole.take(stop + cut));
    lemma_told_content(kept.take(stop));
    lemma_all_white(head, kept.take(stop));
}

proof fn lemma_all_white(a: Seq<char>, b: Seq<char>)
    ensures
        text::all_white(a + b) == (text::all_white(a) && text::all_white(b)),
{
    if text::all_white(a + b) {
        assert forall|i: int| 0 <= i < a.len() implies text::is_white(#[trigger] a[i]) by {
            assert((a + b)[i] == a[i]);
        }
        assert forall|i: int| 0 <= i < b.len() implies text::is_white(#[trigger] b[i]) by {
            assert((a + b)[a.len() + i] == b[i]);
        }
    }
}

/// Emitting from a part of a body and going on from there tells what going on
/// from the whole body tells.
proof fn lemma_grow_then(call: CallState, part: Seq<char>, more: Seq<char>)
    ensures
        ({
            let sent = hermes::emitted_now(call.extended(part));
            let grown = sent.0.extended(more);
            let both = call.extended(part + more);
            &&& heads(sent.1) + heads(hermes::emitted_now(grown).1) == heads(
                hermes::emitted_now(both).1,
            )
            &&& apart(hermes::emitted_now(grown).0) == apart(hermes::emitted_now(both).0)
            &&& heads(sent.1) + heads(hermes::closed_now(grown).1) == heads(
                hermes::closed_now(both).1,
            )
            &&& apart(hermes::closed_now(grown).0) == apart(hermes::closed_now(both).0)
        }),
{
    reveal(hermes::emitted_now);
    reveal(hermes::closed_now);
    let first = call.extended(part);
    let sent = hermes::emitted_now(first);
    let grown = sent.0.extended(more);
    let both = call.extended(part + more);
    let head = hermes::announced(first, first.buffer);
    lemma_emitted_heads(first, first.buffer, json::is_json(first.buffer));
    assert(sent.0 == CallState { emitted: sent.0.emitted, ..head.0 });
    lemma_announced_twice(call, part, more);
    let body = both.buffer;
    assert(grown.buffer == body);
    let next = hermes::announced(head.0.extended(more), body);
    let again = hermes::announced(grown, body);
    let once = hermes::announced(both, body);
    assert(again.1 =~= next.1);
    assert(apart(again.0) =~= apart(once.0));
    let complete = json::is_json(body);
    lemma_emitted_heads(grown, body, complete);
    lemma_emitted_heads(both, body, complete);
    lemma_closing_heads(grown, complete);
    lemma_closing_heads(both, complete);
    assert(end_head(again.0) == end_head(once.0));
    assert(head.1 + next.1 =~= once.1);
    assert(head.1 + again.1.push(end_head(again.0)) =~= once.1.push(end_head(once.0)));
    assert(apart(ended(again.0)) == apart(ended(once.0)));
}

/// [`steps_join`] inside a call without markers.
proof fn lemma_join_bare(own: Hermes, call: CallState, text: Seq<char>, more: Seq<char>)
    requires
        call.state == ToolCallState::InToolCall,
        own.bare,
        hermes::step(own, call, text).next is None,
    ensures
        steps_join(own, call, text, more),
{
    lemma_step_sound(own, call, text);
    lemma_step_is(own, call, text);
    lemma_step_is(own, call, text + more);
    let s = hermes::step(own, call, text);
    let own1 = Hermes { pending: Seq::empty(), ..s.own };
    let kept = s.own.pending + more;
    assert(kept =~= more);
    lemma_step_is(own1, s.call, kept);
    braces::lemma_balance_extend(text, more, own.braces, 0);
    let sent = hermes::emitted_now(call.extended(text));
    lemma_told_calls(sent.1);
    match braces::balance_from(more, s.own.braces, 0) {
        Some(end) => {
            assert(0 <= end <= more.len()) by {
                braces::lemma_balance_bounds(more, s.own.braces, 0);
            }
            lemma_grow_then(call, text, more.take(end));
            assert((text + more).take(text.len() + end) =~= text + more.take(end));
            lemma_told_calls(hermes::closed_now(sent.0.extended(more.take(end))).1);
            lemma_told_calls(hermes::closed_now(call.extended(text + more.take(end))).1);
        },
        None => {
            lemma_grow_then(call, text, more);
            lemma_told_calls(hermes::emitted_now(sent.0.extended(more)).1);
            lemma_told_calls(hermes::emitted_now(call.extended(text + more)).1);
        },
    }
}

/// [`steps_join`] inside a call with markers.
proof fn lemma_join_marked(own: Hermes, call: CallState, text: Seq<char>, more: Seq<char>)
    requires
        own.pending == Seq::<char>::empty(),
        call.state == ToolCallState::InToolCall,
        !own.bare,
        hermes::step(own, call, text).next is None,
    ensures
        steps_join(own, call, text, more),
{
    let marker = CLOSE_MARKER@;
    let cut = text.len() - text::overlap(text, marker);
    assert(0 <= cut <= text.len()) by {
        text::lemma_overlap(text, marker);
    }
    lemma_step_sound(own, call, text);
    lemma_step_is(own, call, text);
    lemma_step_is(own, call, text + more);
    let s = hermes::step(own, call, text);
    let own1 = Hermes { pending: Seq::empty(), ..s.own };
    let kept = text.skip(cut) + more;
    let whole = text + more;
    let head = text.take(cut);
    lemma_step_is(own1, s.call, kept);
    lemma_told_calls(Seq::empty());
    if cut == 0 {
        assert(kept =~= whole);
        assert(own1 =~= own);
    } else {
        let sent = hermes::emitted_now(call.extended(head));
        lemma_told_calls(sent.1);
        text::lemma_find_across(text, more, marker);
        match text::find(kept, marker) {
            Some(q) => {
                assert(0 <= q <= kept.len()) by {
                    text::lemma_find_from(kept, marker, 0);
                }
                assert(whole.take(q + cut) =~= head + kept.take(q));
                lemma_grow_then(call, head, kept.take(q));
                lemma_told_calls(hermes::closed_now(sent.0.extended(kept.take(q))).1);
                lemma_told_calls(hermes::closed_now(call.extended(head + kept.take(q))).1);
            },
            None => {
                text::lemma_overlap_across(text, more, marker);
                let stop = kept.len() - text::overlap(kept, marker);
                assert(0 <= stop <= kept.len()) by {
                    text::lemma_overlap(kept, marker);
                }
                assert(whole.take(stop + cut) =~= head + kept.take(stop));
                assert(whole.skip(stop + cut) =~= kept.skip(stop));
                lemma_grow_then(call, head, kept.take(stop));
                lemma_told_calls(hermes::emitted_now(sent.0.extended(kept.take(stop))).1);
                lemma_told_calls(hermes::emitted_now(call.extended(head + kept.take(stop))).1);
                if stop == 0 {
                    assert(head + kept.take(stop) =~= head);
                    assert(heads(sent.1) + Seq::<Delta>::empty() =~= heads(sent.1));
                }
            },
        }
    }
}

/// Whether scanning a text in two parts comes to the same as in one, apart
/// from how the arguments are cut.
spec fn splits(own: Hermes, call: CallState, text: Seq<char>, more: Seq<char>) -> bool {
    let first = hermes::scan(own, call, text);
    let own1 = Hermes { pending: Seq::empty(), ..first.0 };
    let kept = first.0.pending + more;
    let second = hermes::scan(own1, first.1, kept);
    let whole = hermes::scan(own, call, text + more);
    &&& whole.0 == second.0
    &&& apart(whole.1) == apart(second.1)
    &&& told(whole.2) == told(first.2.plus(second.2))
    &&& bodies(own, call, text + more) == bodies(own, call, text) + bodies(own1, first.1, kept)
}

/// [`splits`] where the first part ends inside a step.
proof fn lemma_split_kept(own: Hermes, call: CallState, text: Seq<char>, more: Seq<char>)
    requires
        own.pending == Seq::<char>::empty(),
        text.len() > 0,
        hermes::step(own, call, text).next is None,
    ensures
        splits(own, call, text, more),
{
    let s = hermes::step(own, call, text);
    let own1 = Hermes { pending: Seq::empty(), ..s.own };
    let kept = s.own.pending + more;
    let whole = text + more;
    let cut = text.len() - s.own.pending.len();
    lemma_step_sound(own, call, text);
    if kept.len() == 0 {
        assert(whole =~= text);
        assert(own1 =~= s.own);
        assert(bodies(own, call, text) + bodies(own1, s.call, kept) =~= bodies(own, call, text));
        assert(s.out.plus(Output::none()) =~= s.out);
    } else {
        assert(steps_join(own, call, text, more)) by {
            if call.state == ToolCallState::Idle {
                if hermes::continues(own, whole) {
                    lemma_join_idle_bare(own, call, text, more);
                } else if text::find(whole, OPEN_MARKER@) is Some {
                    lemma_join_idle_found(own, call, text, more);
                } else {
                    lemma_join_idle_kept(own, call, text, more);
                }
            } else if own.bare {
                lemma_join_bare(own, call, text, more);
            } else {
                lemma_join_marked(own, call, text, more);
            }
        }
        let first = hermes::step(own1, s.call, kept);
        let both = hermes::step(own, call, whole);
        lemma_step_sound(own, call, whole);
        lemma_step_sound(own1, s.call, kept);
        match first.next {
            Some(next) => {
                assert(whole.skip(next + cut) =~= kept.skip(next));
                lemma_scan_alike(both.own, both.call, first.call, kept.skip(next));
                let a = hermes::scan(both.own, both.call, kept.skip(next));
                let b = hermes::scan(first.own, first.call, kept.skip(next));
                assert(apart(both.call).buffer == apart(first.call).buffer);
                lemma_told_plus(both.out, a.2);
                lemma_told_plus(first.out, b.2);
                lemma_told_plus(s.out, first.out.plus(b.2));
                assert(told(both.out.plus(a.2)).0 =~= told(s.out.plus(first.out.plus(b.2))).0);
                assert(told(both.out.plus(a.2)).1 =~= told(s.out.plus(first.out.plus(b.2))).1);
                assert(bodies(own, call, whole) =~= bodies(own, call, text) + bodies(
                    own1,
                    s.call,
                    kept,
                ));
            },
            None => {
                lemma_told_plus(s.out, first.out);
                assert(bodies(own, call, whole) =~= bodies(own, call, text) + bodies(
                    own1,
                    s.call,
                    kept,
                ));
            },
        }
    }
}

/// Scanning a text in two parts comes to the same as in one.
proof fn lemma_scan_split(own: Hermes, call: CallState, text: Seq<char>, more: Seq<char>)
    requires
        own.pending == Seq::<char>::empty(),
    ensures
        splits(own, call, text, more),
    decreases text.len(), hermes::rank(call.state),
{
    let whole = text + more;
    if text.len() == 0 {
        assert(whole =~= more);
        assert(own.pending + more =~= more);
        assert(Hermes { pending: Seq::empty(), ..own } =~= own);
        let r = hermes::scan(own, call, more);
        assert(Output::none().plus(r.2) =~= r.2);
        assert(Seq::<Seq<char>>::empty() + bodies(own, call, more) =~= bodies(own, call, more));
    } else {
        let s = hermes::step(own, call, text);
        lemma_step_sound(own, call, text);
        match s.next {
            Some(next) => {
                assert(s.own.pending =~= Seq::empty());
                lemma_scan_split(s.own, s.call, text.skip(next), more);
                lemma_step_extend(own, call, text, more);
                assert(whole.skip(next) =~= text.skip(next) + more);
                let first = hermes::scan(s.own, s.call, text.skip(next));
                let own1 = Hermes { pending: Seq::empty(), ..first.0 };
                let kept = first.0.pending + more;
                let second = hermes::scan(own1, first.1, kept);
                let both = hermes::scan(s.own, s.call, whole.skip(next));
                lemma_told_plus(s.out, both.2);
                lemma_told_plus(s.out, first.2);
                lemma_told_plus(first.2, second.2);
                lemma_told_plus(s.out.plus(first.2), second.2);
                assert(told(s.out.plus(both.2)).0 =~= told(s.out.plus(first.2).plus(second.2)).0);
                assert(told(s.out.plus(both.2)).1 =~= told(s.out.plus(first.2).plus(second.2)).1);
                assert(bodies(own, call, whole) =~= bodies(own, call, text) + bodies(
                    own1,
                    first.1,
                    kept,
                ));
            },
            None => lemma_split_kept(own, call, text, more),
        }
    }
}

/// The bodies of the calls that a chunk completes.
pub open spec fn fed_bodies(own: Hermes, call: CallState, text: Seq<char>) -> Seq<Seq<char>> {
    bodies(Hermes { pending: Seq::empty(), ..own }, call, own.pending + text)
}

/// How the stream is cut into chunks does not matter: two chunks leave the
/// parser in the same state as the two together, and tell the same content,
/// the same names, ids and indexes, the same completions, and complete calls
/// with the same bodies. Only how the arguments are cut into fragments differs,
/// and so how much of them has been emitted. In particular a marker may span
/// chunks.
pub proof fn law_chunks_do_not_matter(
    own: Hermes,
    call: CallState,
    first: Seq<char>,
    second: Seq<char>,
)
    ensures
        ({
            let (own1, call1, out1) = HermesParser::fed(own, call, first);
            let (own2, call2, out2) = HermesParser::fed(own1, call1, second);
            let (own3, call3, out3) = HermesParser::fed(own, call, first + second);
            &&& own2 == own3
            &&& apart(call2) == apart(call3)
            &&& told(out1.plus(out2)) == told(out3)
            &&& fed_bodies(own, call, first) + fed_bodies(own1, call1, second) == fed_bodies(
                own,
                call,
                first + second,
            )
        }),
{
    let start = Hermes { pending: Seq::empty(), ..own };
    lemma_scan_split(start, call, own.pending + first, second);
    assert(own.pending + first + second =~= own.pending + (first + second));
}

/// The deltas that are emitted of a body come in turn.
proof fn lemma_emitted_in_order(call: CallState, body: Seq<char>, is_complete: bool)
    requires
        call.state == ToolCallState::InToolCall,
        parser::call_in_order(call),
    ensures
        ({
            let sent = hermes::emitted(call, body, is_complete);
            &&& parser::call_in_order(sent.0)
            &&& sent.0.state == ToolCallState::InToolCall
            &&& Progress::of(call).after_all(sent.1) == Some(Progress::of(sent.0))
        }),
{
    reveal_with_fuel(Progress::after_all, 2);
    let head = hermes::announced(call, body);
    let args = hermes::streamed(head.0, body, is_complete);
    if head.1.len() > 0 {
        assert(head.1.drop_last() =~= Seq::empty());
    }
    if args.1.len() > 0 {
        assert(args.1.drop_last() =~= Seq::empty());
    }
    parser::lemma_progress(Progress::of(call), head.1, args.1);
}

/// The deltas that close a call come in turn.
proof fn lemma_closing_in_order(call: CallState, is_complete: bool)
    requires
        call.state == ToolCallState::InToolCall,
        parser::call_in_order(call),
    ensures
        ({
            let closed = hermes::closing(call, is_complete);
            &&& closed.0.state == ToolCallState::Idle
            &&& Progress::of(call).after_all(closed.1) == Some(Progress::of(closed.0))
        }),
{
    lemma_emitted_in_order(call, call.buffer, is_complete);
    let sent = hermes::emitted(call, call.buffer, is_complete);
    let closed = hermes::closing(call, is_complete);
    assert(closed.1.drop_last() =~= sent.1);
}

/// A step's deltas come in turn.
pub(crate) proof fn lemma_step_in_order(own: Hermes, call: CallState, text: Seq<char>)
    requires
        parser::call_in_order(call),
    ensures
        ({
            let s = hermes::step(own, call, text);
            &&& parser::call_in_order(s.call)
            &&& Progress::of(call).after_all(s.out.tool_calls) == Some(Progress::of(s.call))
        }),
{
    reveal(hermes::step);
    reveal(hermes::emitted_now);
    reveal(hermes::closed_now);
    if call.state == ToolCallState::InToolCall {
        let chunk = if own.bare {
            match braces::balance_from(text, own.braces, 0) {
                Some(end) => text.take(end),
                None => text,
            }
        } else {
            match text::find(text, CLOSE_MARKER@) {
                Some(pos) => text.take(pos),
                None => text.take(text.len() - text::overlap(text, CLOSE_MARKER@)),
            }
        };
        let grown = call.extended(chunk);
        assert(Progress::of(grown) == Progress::of(call));
        lemma_emitted_in_order(grown, grown.buffer, json::is_json(grown.buffer));
        lemma_closing_in_order(grown, json::is_json(grown.buffer));
    }
}

proof fn lemma_scan_in_order(own: Hermes, call: CallState, text: Seq<char>)
    requires
        parser::call_in_order(call),
    ensures
        ({
            let r = hermes::scan(own, call, text);
            &&& parser::call_in_order(r.1)
            &&& Progress::of(call).after_all(r.2.tool_calls) == Some(Progress::of(r.1))
        }),
    decreases text.len(), hermes::rank(call.state),
{
    if text.len() > 0 {
        let s = hermes::step(own, call, text);
        lemma_step_sound(own, call, text);
        lemma_step_in_order(own, call, text);
        if let Some(next) = s.next {
            lemma_scan_in_order(s.own, s.call, text.skip(next));
            let rest = hermes::scan(s.own, s.call, text.skip(next));
            parser::lemma_progress(
                Progress::of(call),
                s.out.tool_calls,
                rest.2.tool_calls,
            );
        }
    }
}

/// The deltas of a chunk come in turn: each call's first delta, and no other,
/// carries its id and may carry its name, all of them carry its index, the last
/// and no other is complete, and the indexes of successive calls count up.
pub proof fn law_deltas_in_order(own: Hermes, call: CallState, text: Seq<char>)
    requires
        parser::call_in_order(call),
    ensures
        ({
            let (_, call1, out) = HermesParser::fed(own, call, text);
            &&& parser::call_in_order(call1)
            &&& Progress::of(call).after_all(out.tool_calls) == Some(Progress::of(call1))
        }),
{
    lemma_scan_in_order(
        Hermes { pending: Seq::empty(), ..own },
        call,
        own.pending + text,
    );
}

/// The deltas of a batch of chunks come in turn.
pub proof fn law_batch_in_order(own: Hermes, call: CallState, chunks: Seq<Seq<char>>)
    requires
        parser::call_in_order(call),
    ensures
        ({
            let (_, call1, out) = parser::fed_all::<HermesParser>(own, call, chunks);
            &&& parser::call_in_order(call1)
            &&& Progress::of(call).after_all(out.tool_calls) == Some(Progress::of(call1))
        }),
    decreases chunks.len(),
{
    if chunks.len() > 0 {
        law_batch_in_order(own, call, chunks.drop_last());
        let before = parser::fed_all::<HermesParser>(own, call, chunks.drop_last());
        law_deltas_in_order(before.0, before.1, chunks.last());
        let last = HermesParser::fed(before.0, before.1, chunks.last());
        parser::lemma_progress(
            Progress::of(call),
            before.2.tool_calls,
            last.2.tool_calls,
        );
    }
}

/// The deltas of the end of the stream come in turn, and no call stays open.
pub proof fn law_finish_in_order(own: Hermes, call: CallState)
    requires
        parser::call_in_order(call),
    ensures
        ({
            let (_, call1, out) = HermesParser::finished(own, call);
            &&& call1.state == ToolCallState::Idle
            &&& Progress::of(call).after_all(out.tool_calls) == Some(Progress::of(call1))
            &&& Progress::of(call1).open is None
        }),
{
    reveal(hermes::closed_now);
    if call.state == ToolCallState::InToolCall {
        let grown = call.extended(own.pending);
        assert(Progress::of(grown) == Progress::of(call));
        lemma_closing_in_order(grown, json::is_json(grown.buffer));
    }
}

/// Whether `sent` are the first `emitted` characters of the arguments of a body.
pub open spec fn faithful(body: Seq<char>, emitted: nat, sent: Seq<char>) -> bool {
    match hermes::arguments_rest(body) {
        Some(rest) => emitted <= rest.len() && sent == rest.take(emitted as int),
        None => emitted == 0 && sent.len() == 0,
    }
}

/// Whether `sent` is what has been emitted of the arguments of the current
/// call; outside a call, nothing.
pub open spec fn carried(call: CallState, sent: Seq<char>) -> bool {
    if call.state == ToolCallState::InToolCall {
        faithful(call.buffer, call.emitted, sent)
    } else {
        sent.len() == 0
    }
}

/// Whether `args` are the arguments of a finished body: what follows its
/// `"arguments"` key, at least up to the brace that closes the wrapper object,
/// and nothing else.
pub open spec fn delivered(body: Seq<char>, args: Seq<char>) -> bool {
    match hermes::arguments_rest(body) {
        Some(rest) => {
            &&& hermes::without_wrapper(rest).len() <= args.len() <= rest.len()
            &&& args == rest.take(args.len() as int)
        },
        None => args.len() == 0,
    }
}

proof fn lemma_trim_end(text: Seq<char>)
    ensures
        text::trim_end(text).len() <= text.len(),
        text::trim_end(text) == text.take(text::trim_end(text).len() as int),
    decreases text.len(),
{
    if text.len() > 0 && text::is_white(text.last()) {
        lemma_trim_end(text.drop_last());
        let n = text::trim_end(text).len() as int;
        assert(text.drop_last().take(n) =~= text.take(n));
    } else {
        assert(text.take(text.len() as int) =~= text);
    }
}

/// The arguments text without the wrapper's brace is the beginning of it.
pub(crate) proof fn lemma_without_wrapper(rest: Seq<char>)
    ensures
        hermes::without_wrapper(rest).len() <= rest.len(),
        hermes::without_wrapper(rest) == rest.take(hermes::without_wrapper(rest).len() as int),
{
    let raw = text::trim_end(rest);
    lemma_trim_end(rest);
    if raw.len() > 0 && raw.last() == '}' {
        lemma_trim_end(raw.drop_last());
        let n = hermes::without_wrapper(rest).len() as int;
        assert(raw.drop_last().take(n) =~= rest.take(n));
    }
}

/// The arguments text of a body is the beginning of that of a longer body.
pub(crate) proof fn lemma_rest_extend(body: Seq<char>, more: Seq<char>)
    ensures
        hermes::arguments_rest(body) matches Some(rest) ==> {
            &&& hermes::arguments_rest(body + more) matches Some(longer)
                && rest.len() <= longer.len() && rest == longer.take(rest.len() as int) && (
            rest.len() > 0 ==> longer == rest + more)
        },
{
    reveal_strlit("\"arguments\"");
    let key = "\"arguments\""@;
    if hermes::arguments_rest(body) is Some {
        let whole = body + more;
        text::lemma_find_from(body, key, 0);
        text::lemma_find_extend(body, more, key);
        let at = text::find(body, key)->0;
        let tail = body.skip(at + 11);
        assert(whole.skip(at + 11) =~= tail + more);
        text::lemma_find_from(tail, seq![':'], 0);
        text::lemma_find_extend(tail, more, seq![':']);
        let colon = text::find(tail, seq![':'])->0;
        let value = tail.skip(colon + 1);
        assert((tail + more).skip(colon + 1) =~= value + more);
        text::lemma_skip_white(value, 0);
        text::lemma_skip_white(more, 0);
        text::lemma_skip_white_extend(value, more, 0);
        let rest = text::trim_start(value);
        let longer = text::trim_start(value + more);
        assert(rest =~= longer.take(rest.len() as int));
        if rest.len() > 0 {
            assert(longer =~= rest + more);
        }
    }
}

/// More of the body does not make wrong what was sent.
pub(crate) proof fn lemma_carried_extended(call: CallState, more: Seq<char>, sent: Seq<char>)
    requires
        call.state == ToolCallState::InToolCall,
        carried(call, sent),
    ensures
        carried(call.extended(more), sent),
{
    lemma_rest_extend(call.buffer, more);
    match hermes::arguments_rest(call.buffer) {
        Some(rest) => {
            let longer = hermes::arguments_rest(call.buffer + more)->0;
            assert(rest.take(call.emitted as int) =~= longer.take(call.emitted as int));
        },
        None => {
            if let Some(longer) = hermes::arguments_rest(call.buffer + more) {
                assert(sent =~= longer.take(0));
            }
        },
    }
}

/// What is emitted of a body goes on where the last fragment ended.
pub(crate) proof fn lemma_emitted_carried(call: CallState, is_complete: bool, sent: Seq<char>)
    requires
        call.state == ToolCallState::InToolCall,
        carried(call, sent),
    ensures
        ({
            let r = hermes::emitted(call, call.buffer, is_complete);
            &&& carried(r.0, parser::open_args(sent, r.1))
            &&& parser::complete_args(sent, r.1).len() == 0
        }),
{
    reveal_with_fuel(parser::open_args, 2);
    reveal_with_fuel(parser::complete_args, 2);
    let head = hermes::announced(call, call.buffer);
    let args = hermes::streamed(head.0, call.buffer, is_complete);
    assert(parser::open_args(sent, head.1) =~= sent) by {
        if head.1.len() > 0 {
            assert(head.1.drop_last() =~= Seq::empty());
        }
    }
    assert(parser::complete_args(sent, head.1) =~= Seq::empty());
    if args.1.len() > 0 {
        assert(args.1.drop_last() =~= Seq::empty());
        let rest = hermes::arguments_rest(call.buffer)->0;
        lemma_without_wrapper(rest);
        assert(rest.take(rest.len() as int) =~= rest);
        let raw = hermes::arguments_raw(call.buffer, is_complete)->0;
        assert(raw =~= rest.take(raw.len() as int));
        assert(parser::open_args(sent, args.1) =~= sent + raw.skip(call.emitted as int));
        assert(sent + raw.skip(call.emitted as int) =~= raw);
    }
    assert(parser::complete_args(sent, args.1) =~= Seq::empty());
    parser::lemma_args(sent, head.1, args.1);
    assert(Seq::<Seq<char>>::empty() + Seq::<Seq<char>>::empty() =~= Seq::empty());
}

/// What closes a call delivers its arguments.
pub(crate) proof fn lemma_closing_delivers(call: CallState, is_complete: bool, sent: Seq<char>)
    requires
        call.state == ToolCallState::InToolCall,
        carried(call, sent),
    ensures
        ({
            let r = hermes::closing(call, is_complete);
            &&& carried(r.0, parser::open_args(sent, r.1))
            &&& parser::complete_args(sent, r.1).len() == 1
            &&& delivered(call.buffer, parser::complete_args(sent, r.1)[0])
        }),
{
    let before = hermes::emitted(call, call.buffer, is_complete);
    lemma_emitted_carried(call, is_complete, sent);
    let r = hermes::closing(call, is_complete);
    assert(r.1.drop_last() =~= before.1);
    let now = parser::open_args(sent, before.1);
    let fragment = hermes::last_fragment(before.0);
    assert(before.0.buffer == call.buffer);
    assert(parser::complete_args(sent, r.1) =~= seq![now + fragment]);
    match hermes::arguments_rest(call.buffer) {
        Some(rest) => {
            lemma_without_wrapper(rest);
            let raw = hermes::without_wrapper(rest);
            if raw.len() > before.0.emitted {
                assert(now + fragment =~= raw);
            } else {
                assert(now + fragment =~= now);
            }
        },
        None => {},
    }
}

/// Whether each of the completed calls got its arguments.
pub open spec fn all_delivered(bodies: Seq<Seq<char>>, args: Seq<Seq<char>>) -> bool {
    &&& bodies.len() == args.len()
    &&& forall|i: int| 0 <= i < bodies.len() ==> delivered(#[trigger] bodies[i], args[i])
}

/// What a step delivers.
pub(crate) proof fn lemma_step_delivers(own: Hermes, call: CallState, text: Seq<char>, sent: Seq<char>)
    requires
        carried(call, sent),
    ensures
        ({
            let s = hermes::step(own, call, text);
            let args = parser::complete_args(sent, s.out.tool_calls);
            &&& carried(s.call, parser::open_args(sent, s.out.tool_calls))
            &&& if call.state == ToolCallState::InToolCall && s.next is Some {
                args.len() == 1 && delivered(s.call.buffer, args[0])
            } else {
                args.len() == 0
            }
        }),
{
    reveal(hermes::step);
    reveal(hermes::emitted_now);
    reveal(hermes::closed_now);
    if call.state == ToolCallState::InToolCall {
        let chunk = if own.bare {
            match braces::balance_from(text, own.braces, 0) {
                Some(end) => text.take(end),
                None => text,
            }
        } else {
            match text::find(text, CLOSE_MARKER@) {
                Some(pos) => text.take(pos),
                None => text.take(text.len() - text::overlap(text, CLOSE_MARKER@)),
            }
        };
        let grown = call.extended(chunk);
        lemma_carried_extended(call, chunk, sent);
        lemma_emitted_carried(grown, json::is_json(grown.buffer), sent);
        lemma_closing_delivers(grown, json::is_json(grown.buffer), sent);
    } else {
        lemma_no_arguments();
        assert(sent =~= Seq::empty());
    }
}

/// An empty body has no arguments.
proof fn lemma_no_arguments()
    ensures
        hermes::arguments_rest(Seq::empty()) is None,
{
    reveal_strlit("\"arguments\"");
    text::lemma_find_from(Seq::empty(), "\"arguments\""@, 0);
}

proof fn lemma_scan_delivers(own: Hermes, call: CallState, text: Seq<char>, sent: Seq<char>)
    requires
        carried(call, sent),
    ensures
        ({
            let r = hermes::scan(own, call, text);
            &&& carried(r.1, parser::open_args(sent, r.2.tool_calls))
            &&& all_delivered(
                bodies(own, call, text),
                parser::complete_args(sent, r.2.tool_calls),
            )
        }),
    decreases text.len(), hermes::rank(call.state),
{
    if text.len() > 0 {
        let s = hermes::step(own, call, text);
        lemma_step_sound(own, call, text);
        lemma_step_delivers(own, call, text, sent);
        if let Some(next) = s.next {
            let now = parser::open_args(sent, s.out.tool_calls);
            let done = parser::complete_args(sent, s.out.tool_calls);
            lemma_scan_delivers(s.own, s.call, text.skip(next), now);
            let rest = hermes::scan(s.own, s.call, text.skip(next));
            let later = bodies(s.own, s.call, text.skip(next));
            parser::lemma_args(sent, s.out.tool_calls, rest.2.tool_calls);
            let args = parser::complete_args(now, rest.2.tool_calls);
            if call.state == ToolCallState::InToolCall {
                let all = seq![s.call.buffer] + later;
                assert(bodies(own, call, text) == all);
                assert forall|i: int| 0 <= i < all.len() implies delivered(
                    #[trigger] all[i],
                    (done + args)[i],
                ) by {
                    if i > 0 {
                        assert(all[i] == later[i - 1]);
                        assert((done + args)[i] == args[i - 1]);
                    }
                }
            } else {
                assert(done + args =~= args);
            }
        }
    }
}

/// The fragments of the deltas, appended to one another, are the arguments: of
/// the open call, as far as they have been emitted, so that nothing is sent
/// twice and nothing is left out in between; of each call that the chunk
/// completes, all of them.
pub proof fn law_arguments_arrive(own: Hermes, call: CallState, text: Seq<char>, sent: Seq<char>)
    requires
        carried(call, sent),
    ensures
        ({
            let (_, call1, out) = HermesParser::fed(own, call, text);
            &&& carried(call1, parser::open_args(sent, out.tool_calls))
            &&& all_delivered(
                fed_bodies(own, call, text),
                parser::complete_args(sent, out.tool_calls),
            )
        }),
{
    lemma_scan_delivers(
        Hermes { pending: Seq::empty(), ..own },
        call,
        own.pending + text,
        sent,
    );
}

/// A call whose body is complete JSON gets exactly the arguments value, without
/// the brace of the wrapper object, unless more than that had been emitted
/// before.
pub proof fn law_complete_body_is_exact(call: CallState, sent: Seq<char>, args: Seq<char>)
    requires
        call.state == ToolCallState::InToolCall,
        carried(call, sent),
        json::is_json(call.buffer),
        hermes::arguments_raw(call.buffer, true) == Some(args),
        call.emitted <= args.len(),
    ensures
        parser::complete_args(sent, hermes::closed_now(call).1) == seq![args],
{
    reveal(hermes::closed_now);
    lemma_closing_delivers(call, true, sent);
    lemma_emitted_carried(call, true, sent);
    let before = hermes::emitted(call, call.buffer, true);
    let closed = hermes::closing(call, true);
    assert(closed.1.drop_last() =~= before.1);
    let rest = hermes::arguments_rest(call.buffer)->0;
    lemma_without_wrapper(rest);
    assert(before.0.emitted <= args.len());
    let now = parser::open_args(sent, before.1);
    assert(now == rest.take(before.0.emitted as int));
    assert(now + hermes::last_fragment(before.0) =~= args);
    assert(parser::complete_args(sent, closed.1) =~= seq![args]);
}

/// A call that is open at the end of the stream gets the arguments of the body
/// that it has by then.
pub proof fn law_finish_delivers(own: Hermes, call: CallState, sent: Seq<char>)
    requires
        carried(call, sent),
    ensures
        ({
            let (_, call1, out) = HermesParser::finished(own, call);
            let args = parser::complete_args(sent, out.tool_calls);
            &&& carried(call1, parser::open_args(sent, out.tool_calls))
            &&& if call.state == ToolCallState::InToolCall {
                args.len() == 1 && delivered(call.buffer + own.pending, args[0])
            } else {
                args.len() == 0
            }
        }),
{
    reveal(hermes::closed_now);
    if call.state == ToolCallState::InToolCall {
        let grown = call.extended(own.pending);
        lemma_carried_extended(call, own.pending, sent);
        lemma_closing_delivers(grown, json::is_json(grown.buffer), sent);
    }
}

/// Before any call, text without `<` passes through as content, at once and in
/// one piece.
pub proof fn law_plain_content_passes(call: CallState, text: Seq<char>)
    requires
        call.state == ToolCallState::Idle,
        !text.contains('<'),
    ensures
        HermesParser::fed(HermesParser::initial(), call, text) == (
            HermesParser::initial(),
            call,
            Output::of_content(text),
        ),
{
    reveal_strlit("<tool_call>");
    text::lemma_no_marker(text, OPEN_MARKER@);
    let own = HermesParser::initial();
    assert(own.pending + text =~= text);
    lemma_step_is(own, call, text);
    assert(text.skip(text.len() as int) =~= Seq::empty());
    assert(text.take(text.len() as int) =~= text);
    assert(hermes::step(own, call, text).own =~= own);
}

/// Before any call, text without the open marker comes out as content, all of it
/// by the end of the stream: what was kept back as the possible beginning of a
/// marker is not lost.
pub proof fn law_unmarked_text_is_kept(call: CallState, text: Seq<char>)
    requires
        call.state == ToolCallState::Idle,
        text::find(text, OPEN_MARKER@) is None,
    ensures
        ({
            let (own1, call1, out1) = HermesParser::fed(HermesParser::initial(), call, text);
            let (_, call2, out2) = HermesParser::finished(own1, call1);
            &&& call2 == call
            &&& told(out1.plus(out2)) == (text, Seq::<Delta>::empty())
        }),
{
    let own = HermesParser::initial();
    assert(own.pending + text =~= text);
    let cut = text.len() - text::overlap(text, OPEN_MARKER@);
    assert(0 <= cut <= text.len()) by {
        text::lemma_overlap(text, OPEN_MARKER@);
    }
    lemma_step_is(own, call, text);
    let fed = HermesParser::fed(own, call, text);
    let done = HermesParser::finished(fed.0, fed.1);
    lemma_told_plus(fed.2, done.2);
    lemma_told_content(text.take(cut));
    lemma_told_content(text.skip(cut));
    lemma_told_content(Seq::empty());
    lemma_told_none();
    assert(text.take(cut) + text.skip(cut) =~= text);
}

/// At the end of the stream, outside any call, what was kept back comes out as
/// content, in one piece, and nothing else comes out.
pub proof fn law_finish_flushes(own: Hermes, call: CallState)
    requires
        call.state == ToolCallState::Idle,
    ensures
        ({
            let (own1, call1, out) = HermesParser::finished(own, call);
            &&& own1 == HermesParser::initial()
            &&& call1 == call
            &&& out.content == (if own.pending.len() > 0 {
                seq![own.pending]
            } else {
                Seq::empty()
            })
            &&& out.tool_calls.len() == 0
            &&& out.reasoning.len() == 0
        }),
{
}

/// At the end of the stream, an open call is closed, and neither content nor
/// reasoning comes out. The parser is then as new.
pub proof fn law_finish_closes(own: Hermes, call: CallState)
    requires
        call.state == ToolCallState::InToolCall,
    ensures
        ({
            let (own1, call1, out) = HermesParser::finished(own, call);
            &&& own1 == HermesParser::initial()
            &&& call1.state == ToolCallState::Idle
            &&& call1.buffer == call.buffer + own.pending
            &&& (call1.index, call1.next_index, call1.ids) == (
                call.index,
                call.next_index,
                call.ids,
            )
            &&& out.tool_calls.len() > 0 && out.tool_calls.last().is_complete
            &&& out.content.len() == 0
            &&& out.reasoning.len() == 0
        }),
{
    reveal(hermes::closed_now);
}

/// From `Complete` a chunk gives what it gives from idle.
pub proof fn law_complete_is_as_idle(own: Hermes, call: CallState, text: Seq<char>)
    requires
        call.state == ToolCallState::Complete,
        own.pending.len() + text.len() > 0,
    ensures
        HermesParser::fed(own, call, text) == HermesParser::fed(
            own,
            CallState { state: ToolCallState::Idle, ..call },
            text,
        ),
{
    reveal(hermes::step);
    let own0 = Hermes { pending: Seq::empty(), ..own };
    let idle = CallState { state: ToolCallState::Idle, ..call };
    let whole = own.pending + text;
    assert(whole.skip(0) =~= whole);
    let r = hermes::scan(own0, idle, whole);
    assert(hermes::step(own0, call, whole).call == idle);
    assert(Output::none().plus(r.2) =~= r.2);
}

/// Text, a call between its markers, and more text: the text before is content,
/// the call is begun and closed with what stands between the markers as its
/// body, and the rest follows as behind a completed call.
pub proof fn law_marked_call(
    own: Hermes,
    call: CallState,
    before: Seq<char>,
    body: Seq<char>,
    after: Seq<char>,
)
    requires
        own.pending.len() == 0,
        call.state == ToolCallState::Idle,
        !hermes::continues(own, before + OPEN_MARKER@),
        text::find(before + OPEN_MARKER@, OPEN_MARKER@) == Some(before.len() as int),
        text::find(body + CLOSE_MARKER@, CLOSE_MARKER@) == Some(body.len() as int),
    ensures
        ({
            let stream = before + OPEN_MARKER@ + body + CLOSE_MARKER@ + after;
            let closed = hermes::closed_now(call.begun().extended(body));
            let rest = hermes::scan(hermes::behind_call(), closed.0, after);
            &&& HermesParser::fed(own, call, stream) == (
                rest.0,
                rest.1,
                Output::of_content(before).plus(Output::of_calls(closed.1).plus(rest.2)),
            )
            &&& fed_bodies(own, call, stream) == seq![body] + bodies(
                hermes::behind_call(),
                closed.0,
                after,
            )
        }),
{
    reveal_strlit("<tool_call>");
    reveal_strlit("</tool_call>");
    let open = OPEN_MARKER@;
    let close = CLOSE_MARKER@;
    let stream = before + open + body + close + after;
    let inner = body + close + after;
    let own0 = Hermes { pending: Seq::empty(), ..own };
    assert(own.pending + stream =~= stream);
    assert(stream =~= (before + open) + inner);
    lemma_step_is(own0, call, before + open);
    assert((before + open).take(before.len() as int) =~= before);
    lemma_step_extend(own0, call, before + open, inner);
    let s = hermes::step(own0, call, stream);
    assert(s.next == Some((before.len() + open.len()) as int));
    assert(stream.skip((before.len() + open.len()) as int) =~= inner);
    assert(inner =~= (body + close) + after);
    lemma_step_is(s.own, s.call, body + close);
    assert((body + close).take(body.len() as int) =~= body);
    lemma_step_extend(s.own, s.call, body + close, after);
    let t = hermes::step(s.own, s.call, inner);
    assert(t.next == Some((body.len() + close.len()) as int));
    assert(inner.skip((body.len() + close.len()) as int) =~= after);
    assert(hermes::scan(s.own, s.call, inner).2 == t.out.plus(
        hermes::scan(t.own, t.call, after).2,
    ));
    assert(t.call.buffer =~= body) by {
        reveal(hermes::closed_now);
        assert(call.begun().extended(body).buffer =~= body);
    }
    assert(bodies(s.own, s.call, inner) == seq![body] + bodies(t.own, t.call, after));
    assert(bodies(own0, call, stream) == bodies(s.own, s.call, inner));
}

/// Behind a completed call, white space and a body whose braces balance at its
/// end: the white space is content, the body is a call without markers, and the
/// rest follows as behind a completed call.
pub proof fn law_bare_call(
    own: Hermes,
    call: CallState,
    space: Seq<char>,
    body: Seq<char>,
    after: Seq<char>,
)
    requires
        own.pending.len() == 0,
        own.after_call,
        call.state == ToolCallState::Idle,
        text::all_white(space),
        braces::is_object(body),
    ensures
        ({
            let stream = space + body + after;
            let closed = hermes::closed_now(call.begun().extended(body));
            let rest = hermes::scan(hermes::behind_call(), closed.0, after);
            &&& HermesParser::fed(own, call, stream) == (
                rest.0,
                rest.1,
                Output::of_content(space).plus(Output::of_calls(closed.1).plus(rest.2)),
            )
            &&& fed_bodies(own, call, stream) == seq![body] + bodies(
                hermes::behind_call(),
                closed.0,
                after,
            )
        }),
{
    let stream = space + body + after;
    let inner = body + after;
    let own0 = Hermes { pending: Seq::empty(), ..own };
    assert(own.pending + stream =~= stream);
    assert(stream =~= space + inner);
    text::lemma_skip_white(space, 0);
    assert(text::skip_white(space, 0) == space.len());
    text::lemma_skip_white_extend(space, inner, 0);
    assert(!text::is_white('{'));
    assert(inner[0] == '{');
    assert(text::skip_white(inner, 0) == 0);
    assert(stream[space.len() as int] == '{');
    lemma_step_is(own0, call, stream);
    assert(stream.take(space.len() as int) =~= space);
    let s = hermes::step(own0, call, stream);
    assert(s.next == Some(space.len() as int));
    assert(stream.skip(space.len() as int) =~= inner);
    lemma_step_is(s.own, s.call, inner);
    braces::lemma_balance_extend(body, after, Braces::none(), 0);
    assert(inner.take(body.len() as int) =~= body);
    let t = hermes::step(s.own, s.call, inner);
    assert(t.next == Some(body.len() as int));
    assert(inner.skip(body.len() as int) =~= after);
    assert(hermes::scan(s.own, s.call, inner).2 == t.out.plus(
        hermes::scan(t.own, t.call, after).2,
    ));
    assert(t.call.buffer =~= body) by {
        reveal(hermes::closed_now);
        assert(call.begun().extended(body).buffer =~= body);
    }
    assert(bodies(s.own, s.call, inner) == seq![body] + bodies(t.own, t.call, after));
    assert(bodies(own0, call, stream) == bodies(s.own, s.call, inner));
}

/// A batch of chunks gives what the whole text gives in one chunk, however it
/// is cut, apart from how the arguments are cut into fragments. The calls it
/// completes have the same bodies.
pub proof fn law_batch_is_one_text(own: Hermes, call: CallState, chunks: Seq<Seq<char>>)
    requires
        chunks.len() > 0,
    ensures
        ({
            let (own1, call1, out1) = parser::fed_all::<HermesParser>(own, call, chunks);
            let (own2, call2, out2) = HermesParser::fed(own, call, parser::joined(chunks));
            &&& own1 == own2
            &&& apart(call1) == apart(call2)
            &&& told(out1) == told(out2)
            &&& batch_bodies(own, call, chunks) == fed_bodies(own, call, parser::joined(chunks))
        }),
    decreases chunks.len(),
{
    let init = chunks.drop_last();
    let last = chunks.last();
    let before = parser::fed_all::<HermesParser>(own, call, init);
    let then_last = HermesParser::fed(before.0, before.1, last);
    if init.len() == 0 {
        assert(parser::joined(init) =~= Seq::empty());
        assert(parser::joined(chunks) =~= last);
        assert(Output::none().plus(then_last.2) =~= then_last.2);
        assert(batch_bodies(own, call, init) =~= Seq::empty());
        assert(batch_bodies(own, call, chunks) =~= fed_bodies(own, call, last));
    } else {
        law_batch_is_one_text(own, call, init);
        let text = parser::joined(init);
        let one = HermesParser::fed(own, call, text);
        let after_one = HermesParser::fed(one.0, one.1, last);
        lemma_scan_alike(
            Hermes { pending: Seq::empty(), ..one.0 },
            before.1,
            one.1,
            one.0.pending + last,
        );
        law_chunks_do_not_matter(own, call, text, last);
        lemma_told_plus(before.2, then_last.2);
        lemma_told_plus(one.2, after_one.2);
    }
}

/// The bodies of the calls that a batch of chunks completes.
pub open spec fn batch_bodies(own: Hermes, call: CallState, chunks: Seq<Seq<char>>) -> Seq<
    Seq<char>,
>
    decreases chunks.len(),
{
    if chunks.len() == 0 {
        Seq::empty()
    } else {
        let before = parser::fed_all::<HermesParser>(own, call, chunks.drop_last());
        batch_bodies(own, call, chunks.drop_last()) + fed_bodies(
            before.0,
            before.1,
            chunks.last(),
        )
    }
}

/// The fragments of a batch, appended to one another, are the arguments, as
/// those of one chunk are.
pub proof fn law_batch_arguments_arrive(
    own: Hermes,
    call: CallState,
    chunks: Seq<Seq<char>>,
    sent: Seq<char>,
)
    requires
        carried(call, sent),
    ensures
        ({
            let (_, call1, out) = parser::fed_all::<HermesParser>(own, call, chunks);
            &&& carried(call1, parser::open_args(sent, out.tool_calls))
            &&& all_delivered(
                batch_bodies(own, call, chunks),
                parser::complete_args(sent, out.tool_calls),
            )
        }),
    decreases chunks.len(),
{
    if chunks.len() > 0 {
        let init = chunks.drop_last();
        let last = chunks.last();
        law_batch_arguments_arrive(own, call, init, sent);
        let before = parser::fed_all::<HermesParser>(own, call, init);
        let now = parser::open_args(sent, before.2.tool_calls);
        law_arguments_arrive(before.0, before.1, last, now);
        let after = HermesParser::fed(before.0, before.1, last);
        parser::lemma_args(sent, before.2.tool_calls, after.2.tool_calls);
        let early = batch_bodies(own, call, init);
        let late = fed_bodies(before.0, before.1, last);
        let early_args = parser::complete_args(sent, before.2.tool_calls);
        let late_args = parser::complete_args(now, after.2.tool_calls);
        assert forall|i: int| 0 <= i < (early + late).len() implies delivered(
            #[trigger] (early + late)[i],
            (early_args + late_args)[i],
        ) by {
            if i < early.len() {
                assert((early + late)[i] == early[i]);
            } else {
                assert((early + late)[i] == late[i - early.len()]);
                assert((early_args + late_args)[i] == late_args[i - early.len()]);
            }
        }
    }
}

/// No part of a body that is complete JSON shows more than the arguments, if
/// the wrapper's brace follows them at its end.
pub(crate) proof fn lemma_part_shows_no_more(body: Seq<char>, args: Seq<char>, part: Seq<char>)
    requires
        hermes::arguments_rest(body) == Some(args + seq!['}']),
        json::is_json(body),
        args.len() > 0 && !text::is_white(args.last()),
        part.len() <= body.len(),
        part == body.take(part.len() as int),
    ensures
        hermes::arguments_raw(part, json::is_json(part)) matches Some(raw) ==> raw.len()
            <= args.len(),
        hermes::arguments_raw(body, true) == Some(args),
{
    let whole = args + seq!['}'];
    assert(!text::is_white('}'));
    assert(whole.last() == '}');
    assert(text::trim_end(whole) == whole);
    assert(whole.drop_last() =~= args);
    assert(text::trim_end(args) == args);
    if part.len() == body.len() {
        assert(part =~= body);
    } else {
        let more = body.skip(part.len() as int);
        assert(part + more =~= body);
        lemma_rest_extend(part, more);
        if let Some(rest) = hermes::arguments_rest(part) {
            lemma_without_wrapper(rest);
        }
    }
}

/// How far a stream that is one call has come: before the open marker is
/// complete, inside the call, or behind it. `deltas` are those that have been
/// emitted, and `future` is the text that is still to come.
spec fn on_course(
    own: Hermes,
    call: CallState,
    deltas: Seq<Delta>,
    body: Seq<char>,
    args: Seq<char>,
    future: Seq<char>,
) -> bool {
    &&& !own.bare
    &&& match call.state {
        ToolCallState::Idle => if future.len() + own.pending.len() > 0 {
            &&& !own.after_call
            &&& own.pending + future == OPEN_MARKER@ + body + CLOSE_MARKER@
            &&& deltas.len() == 0
        } else {
            parser::complete_args(Seq::empty(), deltas) == seq![args]
        },
        ToolCallState::InToolCall => {
            &&& call.buffer.len() <= body.len()
            &&& call.buffer + own.pending + future == body + CLOSE_MARKER@
            &&& call.emitted <= args.len()
            &&& carried(call, parser::open_args(Seq::empty(), deltas))
            &&& parser::complete_args(Seq::empty(), deltas).len() == 0
        },
        ToolCallState::Complete => false,
    }
}

/// What is required of the call in such a stream.
spec fn one_call(body: Seq<char>, args: Seq<char>) -> bool {
    &&& text::find(body + CLOSE_MARKER@, CLOSE_MARKER@) == Some(body.len() as int)
    &&& hermes::arguments_rest(body) == Some(args + seq!['}'])
    &&& json::is_json(body)
    &&& args.len() > 0 && !text::is_white(args.last())
}

/// Growing the body keeps what has been emitted within the arguments.
proof fn lemma_grow_on_course(
    call: CallState,
    piece: Seq<char>,
    deltas: Seq<Delta>,
    body: Seq<char>,
    args: Seq<char>,
)
    requires
        one_call(body, args),
        call.state == ToolCallState::InToolCall,
        call.emitted <= args.len(),
        carried(call, parser::open_args(Seq::empty(), deltas)),
        parser::complete_args(Seq::empty(), deltas).len() == 0,
        call.buffer.len() + piece.len() <= body.len(),
        call.buffer + piece == body.take((call.buffer.len() + piece.len()) as int),
    ensures
        ({
            let sent = hermes::emitted_now(call.extended(piece));
            &&& sent.0.state == ToolCallState::InToolCall
            &&& sent.0.buffer == call.buffer + piece
            &&& sent.0.emitted <= args.len()
            &&& carried(sent.0, parser::open_args(Seq::empty(), deltas + sent.1))
            &&& parser::complete_args(Seq::empty(), deltas + sent.1).len() == 0
        }),
{
    reveal(hermes::emitted_now);
    let none = Seq::<char>::empty();
    let now = parser::open_args(none, deltas);
    let grown = call.extended(piece);
    let sent = hermes::emitted_now(grown);
    lemma_part_shows_no_more(body, args, grown.buffer);
    lemma_carried_extended(call, piece, now);
    lemma_emitted_carried(grown, json::is_json(grown.buffer), now);
    parser::lemma_args(none, deltas, sent.1);
}

/// Closing the whole body delivers exactly the arguments.
proof fn lemma_close_on_course(
    call: CallState,
    piece: Seq<char>,
    deltas: Seq<Delta>,
    body: Seq<char>,
    args: Seq<char>,
)
    requires
        one_call(body, args),
        call.state == ToolCallState::InToolCall,
        call.emitted <= args.len(),
        carried(call, parser::open_args(Seq::empty(), deltas)),
        parser::complete_args(Seq::empty(), deltas).len() == 0,
        call.buffer + piece == body,
    ensures
        ({
            let closed = hermes::closed_now(call.extended(piece));
            &&& closed.0.state == ToolCallState::Idle
            &&& parser::complete_args(Seq::empty(), deltas + closed.1) == seq![args]
        }),
{
    let none = Seq::<char>::empty();
    let now = parser::open_args(none, deltas);
    let grown = call.extended(piece);
    let closed = hermes::closed_now(grown);
    assert(body.take(body.len() as int) =~= body);
    lemma_part_shows_no_more(body, args, body);
    lemma_carried_extended(call, piece, now);
    law_complete_body_is_exact(grown, now, args);
    parser::lemma_args(none, deltas, closed.1);
    assert(parser::complete_args(none, deltas) + seq![args] =~= seq![args]);
    assert(closed.0.state == ToolCallState::Idle) by {
        reveal(hermes::closed_now);
    }
}

/// A text inside the call keeps the stream on course.
proof fn lemma_inside_on_course(
    own: Hermes,
    call: CallState,
    text: Seq<char>,
    deltas: Seq<Delta>,
    body: Seq<char>,
    args: Seq<char>,
    future: Seq<char>,
)
    requires
        one_call(body, args),
        own.pending.len() == 0,
        call.state == ToolCallState::InToolCall,
        on_course(own, call, deltas, body, args, text + future),
    ensures
        ({
            let r = hermes::scan(own, call, text);
            &&& on_course(r.0, r.1, deltas + r.2.tool_calls, body, args, future)
            &&& r.2.content.len() == 0
            &&& r.2.reasoning.len() == 0
        }),
{
    reveal_strlit("</tool_call>");
    let close = CLOSE_MARKER@;
    let whole = body + close;
    let start = call.buffer.len() as int;
    assert(call.buffer + own.pending + (text + future) =~= call.buffer + text + future);
    assert(call.buffer + text + future == whole);
    assert(deltas + Seq::<Delta>::empty() =~= deltas);
    if text.len() == 0 {
        assert(text + future =~= future);
    } else {
        lemma_step_is(own, call, text);
        text::lemma_find_from(whole, close, 0);
        text::lemma_find_from(text, close, 0);
        match text::find(text, close) {
            Some(pos) => {
                let at = start + pos;
                assert(whole.subrange(at, at + 12) =~= text.subrange(pos, pos + 12));
                assert(text::occurs_at(whole, close, at));
                assert(at == body.len());
                let piece = text.take(pos);
                assert(call.buffer + piece =~= whole.take(at));
                assert(whole.take(at) =~= body);
                lemma_close_on_course(call, piece, deltas, body, args);
                assert(text.skip(pos + 12) =~= Seq::empty());
                assert(future =~= Seq::empty());
                let s = hermes::step(own, call, text);
                let rest = hermes::scan(s.own, s.call, text.skip(pos + 12));
                assert(s.out.plus(Output::none()) =~= s.out);
            },
            None => {
                text::lemma_overlap(text, close);
                let cut = text.len() - text::overlap(text, close);
                let k = start + text.len() - body.len();
                if k > 0 {
                    assert(text.subrange(text.len() - k, text.len() as int) =~= whole.subrange(
                        body.len() as int,
                        body.len() + k,
                    ));
                    assert(whole.subrange(body.len() as int, body.len() + k) =~= close.subrange(
                        0,
                        k,
                    ));
                    if k == 12 {
                        assert(close.subrange(0, 12) =~= close);
                        assert(text::occurs_at(text, close, text.len() - 12));
                    }
                    assert(text::is_overlap(text, close, k));
                }
                assert(start + cut <= body.len());
                let piece = text.take(cut);
                assert(call.buffer + piece =~= whole.take(start + cut));
                assert(whole.take(start + cut) =~= body.take(start + cut));
                if cut > 0 {
                    lemma_grow_on_course(call, piece, deltas, body, args);
                }
                assert(call.buffer + piece + text.skip(cut) + future =~= whole);
                assert(call.buffer + piece =~= call.buffer || cut > 0);
            },
        }
    }
}

/// A chunk keeps the stream on course.
proof fn lemma_chunk_on_course(
    own: Hermes,
    call: CallState,
    chunk: Seq<char>,
    deltas: Seq<Delta>,
    body: Seq<char>,
    args: Seq<char>,
    future: Seq<char>,
)
    requires
        one_call(body, args),
        on_course(own, call, deltas, body, args, chunk + future),
    ensures
        ({
            let r = HermesParser::fed(own, call, chunk);
            &&& on_course(r.0, r.1, deltas + r.2.tool_calls, body, args, future)
            &&& r.2.content.len() == 0
            &&& r.2.reasoning.len() == 0
        }),
{
    reveal_strlit("<tool_call>");
    let open = OPEN_MARKER@;
    let own0 = Hermes { pending: Seq::empty(), ..own };
    let text = own.pending + chunk;
    assert(deltas + Seq::<Delta>::empty() =~= deltas);
    assert(own.pending + (chunk + future) =~= text + future);
    if call.state == ToolCallState::InToolCall {
        assert(call.buffer + own.pending + (chunk + future) =~= call.buffer + own0.pending + (text
            + future));
        lemma_inside_on_course(own0, call, text, deltas, body, args, future);
    } else if text.len() + future.len() == 0 {
        assert(text.len() == 0);
    } else if text.len() == 0 {
        assert(own.pending =~= Seq::empty());
        assert(own0.pending + future =~= own.pending + (chunk + future));
    } else {
        let stream = open + body + CLOSE_MARKER@;
        assert(text + future == stream);
        lemma_step_is(own0, call, text);
        if text.len() >= 11 {
            assert(text.subrange(0, 11) =~= stream.subrange(0, 11));
            assert(stream.subrange(0, 11) =~= open);
            assert(text::find(text, open) == Some(0int));
            let s = hermes::step(own0, call, text);
            assert(s.out.content.len() == 0);
            let rest = text.skip(11);
            assert(rest + future =~= stream.skip(11));
            assert(stream.skip(11) =~= body + CLOSE_MARKER@);
            assert(s.call.buffer + s.own.pending + (rest + future) =~= body + CLOSE_MARKER@);
            lemma_no_arguments();
            lemma_inside_on_course(s.own, s.call, rest, deltas, body, args, future);
            let r = hermes::scan(s.own, s.call, rest);
            assert(s.out.plus(r.2).tool_calls =~= r.2.tool_calls);
        } else {
            text::lemma_find_from(text, open, 0);
            assert(text::find(text, open) is None);
            let k = text.len() as int;
            assert(text.subrange(0, k) =~= open.subrange(0, k)) by {
                assert(stream.subrange(0, k) =~= open.subrange(0, k));
                assert(text =~= stream.subrange(0, k));
            }
            assert(text::is_overlap(text, open, k));
            text::lemma_overlap(text, open);
            assert(text.skip(0) =~= text);
        }
    }
}

/// A batch of chunks keeps the stream on course.
proof fn lemma_batch_on_course(
    ids: u64,
    chunks: Seq<Seq<char>>,
    body: Seq<char>,
    args: Seq<char>,
    future: Seq<char>,
)
    requires
        one_call(body, args),
        parser::joined(chunks) + future == OPEN_MARKER@ + body + CLOSE_MARKER@,
    ensures
        ({
            let r = parser::fed_all::<HermesParser>(
                HermesParser::initial(),
                CallState::fresh(ids),
                chunks,
            );
            &&& on_course(r.0, r.1, r.2.tool_calls, body, args, future)
            &&& r.2.content.len() == 0
            &&& r.2.reasoning.len() == 0
        }),
    decreases chunks.len(),
{
    reveal_strlit("<tool_call>");
    if chunks.len() == 0 {
        assert(parser::joined(chunks) + future =~= future);
        assert(HermesParser::initial().pending + future =~= future);
    } else {
        let init = chunks.drop_last();
        let last = chunks.last();
        assert(parser::joined(init) + (last + future) =~= parser::joined(chunks) + future);
        lemma_batch_on_course(ids, init, body, args, last + future);
        let before = parser::fed_all::<HermesParser>(
            HermesParser::initial(),
            CallState::fresh(ids),
            init,
        );
        lemma_chunk_on_course(
            before.0,
            before.1,
            last,
            before.2.tool_calls,
            body,
            args,
            future,
        );
    }
}

/// A stream that is one call ends behind the call, and tells no content and the
/// heads of the call's deltas.
pub(crate) proof fn lemma_course_ends(ids: u64, chunks: Seq<Seq<char>>, body: Seq<char>)
    requires
        parser::joined(chunks) == OPEN_MARKER@ + body + CLOSE_MARKER@,
        text::find(body + CLOSE_MARKER@, CLOSE_MARKER@) == Some(body.len() as int),
    ensures
        ({
            let r = parser::fed_all::<HermesParser>(
                HermesParser::initial(),
                CallState::fresh(ids),
                chunks,
            );
            let closed = hermes::closed_now(CallState::fresh(ids).begun().extended(body));
            &&& r.0 == hermes::behind_call()
            &&& apart(r.1) == apart(closed.0)
            &&& r.1.state == ToolCallState::Idle
            &&& told(r.2) == (Seq::<char>::empty(), heads(closed.1))
        }),
{
    reveal_strlit("<tool_call>");
    let none = Seq::<char>::empty();
    let own = HermesParser::initial();
    let call = CallState::fresh(ids);
    let open = OPEN_MARKER@;
    let close = CLOSE_MARKER@;
    let closed = hermes::closed_now(call.begun().extended(body));
    assert(chunks.len() > 0) by {
        if chunks.len() == 0 {
            assert(parser::joined(chunks).len() == 0);
        }
    }
    law_batch_is_one_text(own, call, chunks);
    assert(none + open =~= open);
    assert(open.subrange(0, 11) =~= open);
    assert(text::find(none + open, open) == Some(0int));
    law_marked_call(own, call, none, body, none);
    assert(none + open + body + close + none =~= open + body + close);
    let one = HermesParser::fed(own, call, open + body + close);
    assert(apart(one.1) == apart(closed.0));
    lemma_told_content(none);
    lemma_told_calls(closed.1);
    lemma_told_none();
    lemma_told_plus(Output::of_calls(closed.1), Output::none());
    lemma_told_plus(
        Output::of_content(none),
        Output::of_calls(closed.1).plus(Output::none()),
    );
    assert(told(one.2).0 =~= none);
    assert(told(one.2).1 =~= heads(closed.1));
    let r = parser::fed_all::<HermesParser>(own, call, chunks);
    assert(apart(r.1).state == apart(closed.0).state);
    assert(closed.0.state == ToolCallState::Idle) by {
        reveal(hermes::closed_now);
    }
}

/// The heads of what closes a call now.
pub(crate) proof fn lemma_closed_heads(call: CallState)
    ensures
        ({
            let head = hermes::announced(call, call.buffer);
            let closed = hermes::closed_now(call);
            &&& heads(closed.1) == head.1.push(hermes::closing_delta(head.0, Seq::empty()))
            &&& closed.0.next_index == call.next_index
        }),
{
    reveal(hermes::closed_now);
    lemma_closing_heads(call, json::is_json(call.buffer));
}

/// A stream that is one call has neither content nor reasoning.
pub(crate) proof fn lemma_streamed_call_is_silent(
    ids: u64,
    head: Seq<char>,
    args: Seq<char>,
    chunks: Seq<Seq<char>>,
)
    requires
        ({
            let body = head + args + seq!['}'];
            &&& parser::joined(chunks) == OPEN_MARKER@ + body + CLOSE_MARKER@
            &&& text::find(body + CLOSE_MARKER@, CLOSE_MARKER@) == Some(body.len() as int)
            &&& hermes::arguments_rest(body) == Some(args + seq!['}'])
            &&& json::is_json(body)
        }),
        args.len() > 0 && !text::is_white(args.last()),
    ensures
        ({
            let r = parser::fed_all::<HermesParser>(
                HermesParser::initial(),
                CallState::fresh(ids),
                chunks,
            );
            r.2.content.len() == 0 && r.2.reasoning.len() == 0
        }),
{
    let none = Seq::<char>::empty();
    assert(parser::joined(chunks) + none =~= parser::joined(chunks));
    lemma_batch_on_course(ids, chunks, head + args + seq!['}'], args, none);
}

/// A call between its markers, streamed in any chunks: the fragments of its
/// deltas, appended to one another, are exactly the arguments, without the brace
/// that closes the wrapper object.
pub proof fn law_streamed_arguments_are_exact(
    ids: u64,
    head: Seq<char>,
    args: Seq<char>,
    chunks: Seq<Seq<char>>,
)
    requires
        ({
            let body = head + args + seq!['}'];
            &&& parser::joined(chunks) == OPEN_MARKER@ + body + CLOSE_MARKER@
            &&& text::find(body + CLOSE_MARKER@, CLOSE_MARKER@) == Some(body.len() as int)
            &&& hermes::arguments_rest(body) == Some(args + seq!['}'])
            &&& json::is_json(body)
        }),
        args.len() > 0 && !text::is_white(args.last()),
    ensures
        parser::complete_args(
            Seq::empty(),
            parser::fed_all::<HermesParser>(
                HermesParser::initial(),
                CallState::fresh(ids),
                chunks,
            ).2.tool_calls,
        ) == seq![args],
{
    reveal_strlit("</tool_call>");
    let body = head + args + seq!['}'];
    let none = Seq::<char>::empty();
    assert(parser::joined(chunks) + none =~= parser::joined(chunks));
    lemma_batch_on_course(ids, chunks, body, args, none);
    lemma_course_ends(ids, chunks, body);
}

} // verus!
