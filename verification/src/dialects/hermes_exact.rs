//! The fragments of a Hermes call, appended to one another, are exactly its
//! arguments: wherever in a stream the call stands, with or without markers, and
//! however the stream is cut into chunks.

use crate::braces;
use crate::dialects::hermes;
use crate::dialects::hermes::{Hermes, HermesParser, CLOSE_MARKER};
use crate::dialects::hermes_laws;
use crate::json;
use crate::parser;
use crate::parser::DialectParser;
use crate::text;
use crate::types::{CallState, ToolCallState};
use vstd::prelude::*;

verus! {

/// Whether a body is complete JSON that ends in its arguments and the brace that
/// closes the wrapper object.
pub open spec fn plain_args(body: Seq<char>, args: Seq<char>) -> bool {
    &&& json::is_json(body)
    &&& hermes::arguments_rest(body) == Some(args + seq!['}'])
    &&& args.len() > 0 && !text::is_white(args.last())
}

/// Whether a body is as in [`plain_args`], with white space behind it that leaves
/// it complete JSON.
pub open spec fn spaced_args(body: Seq<char>, args: Seq<char>, space: Seq<char>) -> bool {
    let core = body.take(body.len() - space.len());
    &&& space.len() <= body.len()
    &&& body == core + space
    &&& text::all_white(space)
    &&& plain_args(core, args)
    &&& forall|k: int| 0 <= k <= space.len() ==> json::is_json(core + #[trigger] space.take(k))
}

/// Whether `got` are the arguments of a body, where the body says exactly what
/// they are.
pub open spec fn exact_args(body: Seq<char>, got: Seq<char>) -> bool {
    &&& forall|args: Seq<char>| #[trigger] plain_args(body, args) ==> got == args
    &&& forall|args: Seq<char>, space: Seq<char>| #[trigger]
        spaced_args(body, args, space) ==> got == args
}

/// Whether a part of a body shows that many characters of the arguments.
pub open spec fn shows(part: Seq<char>, count: nat) -> bool {
    hermes::arguments_raw(part, json::is_json(part)) matches Some(raw) && raw.len() == count
}

/// Whether what has been emitted of the arguments of the current call is nothing,
/// or what some part of its body showed.
pub open spec fn shown(call: CallState) -> bool {
    call.state == ToolCallState::InToolCall ==> {
        ||| call.emitted == 0
        ||| exists|n: int|
            0 <= n <= call.buffer.len() && shows(#[trigger] call.buffer.take(n), call.emitted)
    }
}

/// White space at the end is trimmed away.
proof fn lemma_trim_space(text: Seq<char>, space: Seq<char>)
    requires
        text::all_white(space),
    ensures
        text::trim_end(text + space) == text::trim_end(text),
    decreases space.len(),
{
    if space.len() == 0 {
        assert(text + space =~= text);
    } else {
        let init = space.drop_last();
        assert(text::all_white(init)) by {
            assert forall|i: int| 0 <= i < init.len() implies text::is_white(
                #[trigger] init[i],
            ) by {
                assert(init[i] == space[i]);
            }
        }
        assert(text::is_white(space[space.len() - 1]));
        assert((text + space).last() == space.last());
        assert((text + space).drop_last() =~= text + init);
        lemma_trim_space(text, init);
    }
}

/// No part of a body shows more than the arguments, and the whole body shows
/// them.
proof fn lemma_part_of_spaced(
    body: Seq<char>,
    args: Seq<char>,
    space: Seq<char>,
    part: Seq<char>,
)
    requires
        spaced_args(body, args, space),
        part.len() <= body.len(),
        part == body.take(part.len() as int),
    ensures
        hermes::arguments_raw(part, json::is_json(part)) matches Some(raw) ==> raw.len()
            <= args.len(),
        part.len() == body.len() ==> json::is_json(part) && hermes::arguments_raw(part, true)
            == Some(args),
{
    let core = body.take(body.len() - space.len());
    if part.len() < core.len() {
        assert(part =~= core.take(part.len() as int));
        hermes_laws::lemma_part_shows_no_more(core, args, part);
    } else {
        let k = part.len() - core.len();
        let behind = space.take(k);
        assert(part =~= core + behind);
        assert(json::is_json(part));
        assert(core.take(core.len() as int) =~= core);
        hermes_laws::lemma_part_shows_no_more(core, args, core);
        hermes_laws::lemma_rest_extend(core, behind);
        let whole = args + seq!['}'];
        assert(hermes::arguments_rest(part) == Some(whole + behind));
        assert(text::all_white(behind)) by {
            assert forall|i: int| 0 <= i < behind.len() implies text::is_white(
                #[trigger] behind[i],
            ) by {
                assert(behind[i] == space[i]);
            }
        }
        lemma_trim_space(whole, behind);
        assert(hermes::without_wrapper(whole + behind) == hermes::without_wrapper(whole));
    }
}

/// A body without white space behind it is one with none.
proof fn lemma_plain_is_spaced(body: Seq<char>, args: Seq<char>)
    requires
        plain_args(body, args),
    ensures
        spaced_args(body, args, Seq::empty()),
{
    let none = Seq::<char>::empty();
    assert(body.take(body.len() as int) =~= body);
    assert(body + none =~= body);
    assert forall|k: int| 0 <= k <= none.len() implies json::is_json(
        body + #[trigger] none.take(k),
    ) by {
        assert(none.take(k) =~= none);
    }
}

proof fn lemma_shown_extended(call: CallState, more: Seq<char>)
    requires
        shown(call),
    ensures
        shown(call.extended(more)),
{
    if call.state == ToolCallState::InToolCall && call.emitted != 0 {
        let n = choose|n: int|
            0 <= n <= call.buffer.len() && shows(#[trigger] call.buffer.take(n), call.emitted);
        let grown = call.extended(more);
        assert(grown.buffer.take(n) =~= call.buffer.take(n));
    }
}

proof fn lemma_shown_emitted(call: CallState)
    requires
        call.state == ToolCallState::InToolCall,
        shown(call),
    ensures
        shown(hermes::emitted_now(call).0),
{
    reveal(hermes::emitted_now);
    let sent = hermes::emitted_now(call);
    let n = call.buffer.len() as int;
    assert(call.buffer.take(n) =~= call.buffer);
    if sent.0.emitted != call.emitted {
        assert(shows(sent.0.buffer.take(n), sent.0.emitted));
    }
}

/// Closing a call delivers exactly its arguments.
proof fn lemma_closed_exact(call: CallState, sent: Seq<char>)
    requires
        call.state == ToolCallState::InToolCall,
        hermes_laws::carried(call, sent),
        shown(call),
        parser::complete_args(sent, hermes::closed_now(call).1).len() == 1,
    ensures
        exact_args(call.buffer, parser::complete_args(sent, hermes::closed_now(call).1)[0]),
{
    let got = parser::complete_args(sent, hermes::closed_now(call).1)[0];
    let body = call.buffer;
    assert forall|args: Seq<char>, space: Seq<char>| #[trigger]
        spaced_args(body, args, space) implies got == args by {
        assert(body.take(body.len() as int) =~= body);
        lemma_part_of_spaced(body, args, space, body);
        if call.emitted != 0 {
            let n = choose|n: int|
                0 <= n <= body.len() && shows(#[trigger] body.take(n), call.emitted);
            lemma_part_of_spaced(body, args, space, body.take(n));
        }
        hermes_laws::law_complete_body_is_exact(call, sent, args);
    }
    assert forall|args: Seq<char>| #[trigger] plain_args(body, args) implies got == args by {
        lemma_plain_is_spaced(body, args);
    }
}

/// A step keeps what is shown, and delivers exactly the arguments of the call
/// that it closes.
proof fn lemma_step_exact(own: Hermes, call: CallState, text: Seq<char>, sent: Seq<char>)
    requires
        hermes_laws::carried(call, sent),
        shown(call),
    ensures
        ({
            let s = hermes::step(own, call, text);
            let args = parser::complete_args(sent, s.out.tool_calls);
            &&& shown(s.call)
            &&& call.state == ToolCallState::InToolCall && s.next is Some ==> args.len() == 1
                && exact_args(s.call.buffer, args[0])
        }),
{
    reveal(hermes::step);
    hermes_laws::lemma_step_delivers(own, call, text, sent);
    if call.state == ToolCallState::InToolCall {
        let chunk = if own.bare {
            match braces::balance_from(text, own.braces, 0) {
                Some(end) => text.take(end),
                None => text,
            }
        } else {
            match text::find(text, CLOSE_MARKER@) {
                Some(pos) => text.take(pos),
                None => text.take(text.len() - text::overlap(text, CLOSE_MARKER@)),
            }
        };
        let grown = call.extended(chunk);
        lemma_shown_extended(call, chunk);
        hermes_laws::lemma_carried_extended(call, chunk, sent);
        lemma_shown_emitted(grown);
        let s = hermes::step(own, call, text);
        if s.next is Some {
            assert(s.out.tool_calls == hermes::closed_now(grown).1);
            lemma_closed_exact(grown, sent);
            assert(s.call.buffer == grown.buffer && s.call.state == ToolCallState::Idle) by {
                reveal(hermes::closed_now);
            }
        }
    }
}

/// Whether each of the completed calls got exactly its arguments.
pub open spec fn all_exact(bodies: Seq<Seq<char>>, args: Seq<Seq<char>>) -> bool {
    &&& args.len() == bodies.len()
    &&& forall|i: int| 0 <= i < bodies.len() ==> exact_args(#[trigger] bodies[i], args[i])
}

proof fn lemma_all_exact_joined(
    bodies: Seq<Seq<char>>,
    args: Seq<Seq<char>>,
    more_bodies: Seq<Seq<char>>,
    more_args: Seq<Seq<char>>,
)
    requires
        all_exact(bodies, args),
        all_exact(more_bodies, more_args),
    ensures
        all_exact(bodies + more_bodies, args + more_args),
{
    let all = bodies + more_bodies;
    assert forall|i: int| 0 <= i < all.len() implies exact_args(
        #[trigger] all[i],
        (args + more_args)[i],
    ) by {
        if i < bodies.len() {
            assert(all[i] == bodies[i]);
        } else {
            assert(all[i] == more_bodies[i - bodies.len()]);
        }
    }
}

proof fn lemma_scan_exact(own: Hermes, call: CallState, text: Seq<char>, sent: Seq<char>)
    requires
        hermes_laws::carried(call, sent),
        shown(call),
    ensures
        ({
            let r = hermes::scan(own, call, text);
            &&& shown(r.1)
            &&& all_exact(
                hermes_laws::bodies(own, call, text),
                parser::complete_args(sent, r.2.tool_calls),
            )
        }),
    decreases text.len(), hermes::rank(call.state),
{
    if text.len() > 0 {
        let s = hermes::step(own, call, text);
        hermes_laws::lemma_step_sound(own, call, text);
        hermes_laws::lemma_step_delivers(own, call, text, sent);
        lemma_step_exact(own, call, text, sent);
        if let Some(next) = s.next {
            let now = parser::open_args(sent, s.out.tool_calls);
            let done = parser::complete_args(sent, s.out.tool_calls);
            lemma_scan_exact(s.own, s.call, text.skip(next), now);
            let rest = hermes::scan(s.own, s.call, text.skip(next));
            let later = hermes_laws::bodies(s.own, s.call, text.skip(next));
            let args = parser::complete_args(now, rest.2.tool_calls);
            parser::lemma_args(sent, s.out.tool_calls, rest.2.tool_calls);
            if call.state == ToolCallState::InToolCall {
                assert(all_exact(seq![s.call.buffer], done));
                lemma_all_exact_joined(seq![s.call.buffer], done, later, args);
            } else {
                assert(done + args =~= args);
            }
        }
    }
}

/// In any stream, from any state in which what was sent are the arguments that
/// were emitted: each call that a batch of chunks completes gets exactly its
/// arguments. The fragments of its deltas, appended to one another, are the value
/// of the arguments, without the brace that closes the wrapper object. This holds
/// of every call whose body is complete JSON that ends in its arguments and that
/// brace, and may have white space behind it: behind text or behind another call,
/// with markers or without them, in however many chunks.
pub proof fn law_batch_arguments_are_exact(
    own: Hermes,
    call: CallState,
    chunks: Seq<Seq<char>>,
    sent: Seq<char>,
)
    requires
        hermes_laws::carried(call, sent),
        shown(call),
    ensures
        ({
            let (_, call1, out) = parser::fed_all::<HermesParser>(own, call, chunks);
            let bodies = hermes_laws::batch_bodies(own, call, chunks);
            let args = parser::complete_args(sent, out.tool_calls);
            &&& hermes_laws::carried(call1, parser::open_args(sent, out.tool_calls))
            &&& shown(call1)
            &&& args.len() == bodies.len()
            &&& forall|i: int, a: Seq<char>|
                0 <= i < bodies.len() && #[trigger] plain_args(bodies[i], a) ==> args[i] == a
            &&& forall|i: int, a: Seq<char>, space: Seq<char>|
                0 <= i < bodies.len() && #[trigger] spaced_args(bodies[i], a, space) ==> args[i]
                    == a
        }),
{
    lemma_batch_exact(own, call, chunks, sent);
    let out = parser::fed_all::<HermesParser>(own, call, chunks).2;
    let bodies = hermes_laws::batch_bodies(own, call, chunks);
    let args = parser::complete_args(sent, out.tool_calls);
    assert forall|i: int, a: Seq<char>|
        0 <= i < bodies.len() && #[trigger] plain_args(bodies[i], a) implies args[i] == a by {
        assert(exact_args(bodies[i], args[i]));
    }
    assert forall|i: int, a: Seq<char>, space: Seq<char>|
        0 <= i < bodies.len() && #[trigger] spaced_args(bodies[i], a, space) implies args[i]
        == a by {
        assert(exact_args(bodies[i], args[i]));
    }
}

proof fn lemma_batch_exact(
    own: Hermes,
    call: CallState,
    chunks: Seq<Seq<char>>,
    sent: Seq<char>,
)
    requires
        hermes_laws::carried(call, sent),
        shown(call),
    ensures
        ({
            let (_, call1, out) = parser::fed_all::<HermesParser>(own, call, chunks);
            &&& hermes_laws::carried(call1, parser::open_args(sent, out.tool_calls))
            &&& shown(call1)
            &&& all_exact(
                hermes_laws::batch_bodies(own, call, chunks),
                parser::complete_args(sent, out.tool_calls),
            )
        }),
    decreases chunks.len(),
{
    if chunks.len() > 0 {
        let init = chunks.drop_last();
        let last = chunks.last();
        lemma_batch_exact(own, call, init, sent);
        let before = parser::fed_all::<HermesParser>(own, call, init);
        let now = parser::open_args(sent, before.2.tool_calls);
        hermes_laws::law_arguments_arrive(before.0, before.1, last, now);
        let start = Hermes { pending: Seq::empty(), ..before.0 };
        lemma_scan_exact(start, before.1, before.0.pending + last, now);
        let after = HermesParser::fed(before.0, before.1, last);
        parser::lemma_args(sent, before.2.tool_calls, after.2.tool_calls);
        lemma_all_exact_joined(
            hermes_laws::batch_bodies(own, call, init),
            parser::complete_args(sent, before.2.tool_calls),
            hermes_laws::fed_bodies(before.0, before.1, last),
            parser::complete_args(now, after.2.tool_calls),
        );
    }
}

/// A call that is open at the end of the stream gets exactly the arguments of the
/// body that it has by then.
pub proof fn law_finish_arguments_are_exact(own: Hermes, call: CallState, sent: Seq<char>)
    requires
        hermes_laws::carried(call, sent),
        shown(call),
        call.state == ToolCallState::InToolCall,
    ensures
        ({
            let (_, _, out) = HermesParser::finished(own, call);
            let args = parser::complete_args(sent, out.tool_calls);
            &&& args.len() == 1
            &&& forall|a: Seq<char>| #[trigger]
                plain_args(call.buffer + own.pending, a) ==> args[0] == a
            &&& forall|a: Seq<char>, space: Seq<char>| #[trigger]
                spaced_args(call.buffer + own.pending, a, space) ==> args[0] == a
        }),
{
    hermes_laws::law_finish_delivers(own, call, sent);
    lemma_shown_extended(call, own.pending);
    hermes_laws::lemma_carried_extended(call, own.pending, sent);
    lemma_closed_exact(call.extended(own.pending), sent);
}

/// The larger of two lengths.
pub open spec fn longer(a: nat, b: nat) -> nat {
    if a < b {
        b
    } else {
        a
    }
}

/// The length of what a body shows of the arguments; 0 where it shows none.
pub open spec fn shown_len(body: Seq<char>, is_complete: bool) -> nat {
    match hermes::arguments_raw(body, is_complete) {
        Some(raw) => raw.len(),
        None => 0,
    }
}

/// How many characters of the arguments a call gets in all, when it is closed:
/// those that it had; those that its body shows, if it has a name; and in any case
/// those before the brace of the wrapper object. No more, whether or not the body
/// is JSON.
pub proof fn law_how_much_a_call_gets(call: CallState, sent: Seq<char>)
    requires
        call.state == ToolCallState::InToolCall,
        hermes_laws::carried(call, sent),
    ensures
        ({
            let args = parser::complete_args(sent, hermes::closed_now(call).1);
            let named = call.name_emitted || hermes::tool_name(call.buffer) is Some;
            let shows = if named {
                shown_len(call.buffer, json::is_json(call.buffer))
            } else {
                0
            };
            &&& args.len() == 1
            &&& args[0].len() == longer(
                longer(call.emitted, shows),
                shown_len(call.buffer, true),
            )
            &&& hermes_laws::delivered(call.buffer, args[0])
        }),
{
    reveal(hermes::closed_now);
    let is_complete = json::is_json(call.buffer);
    hermes_laws::lemma_closing_delivers(call, is_complete, sent);
    hermes_laws::lemma_emitted_carried(call, is_complete, sent);
    let before = hermes::emitted(call, call.buffer, is_complete);
    let closed = hermes::closing(call, is_complete);
    assert(closed.1.drop_last() =~= before.1);
    let now = parser::open_args(sent, before.1);
    assert(parser::complete_args(sent, closed.1)[0] == now + hermes::last_fragment(before.0));
    if let Some(rest) = hermes::arguments_rest(call.buffer) {
        hermes_laws::lemma_without_wrapper(rest);
    }
}

/// A new parser has emitted nothing, so the laws above hold of it from its first
/// chunk on.
pub proof fn law_new_parser_has_shown_nothing(ids: u64)
    ensures
        hermes_laws::carried(CallState::fresh(ids), Seq::empty()),
        shown(CallState::fresh(ids)),
{
}

} // verus!
