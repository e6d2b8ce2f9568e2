//! Laws of a Hermes call in its usual form, streamed in any chunks.

use crate::dialects::hermes;
use crate::dialects::hermes::{HermesParser, CLOSE_MARKER, OPEN_MARKER};
use crate::dialects::hermes_exact;
use crate::dialects::hermes_laws;
use crate::json;
use crate::parser;
use crate::parser::{DialectParser, Progress};
use crate::text;
use crate::types::{CallState, Delta, ToolCallState};
use vstd::prelude::*;
use vstd::string::*;

verus! {

/// Whether a name is made of letters, digits and underscores.
pub open spec fn is_identifier(name: Seq<char>) -> bool {
    name.len() > 0 && forall|i: int|
        0 <= i < name.len() ==> ('a' <= #[trigger] name[i] <= 'z' || 'A' <= name[i] <= 'Z' || '0'
            <= name[i] <= '9' || name[i] == '_')
}

/// The body of a call, `{"name":"...","arguments":...}`, up to the arguments.
pub open spec fn call_head(name: Seq<char>) -> Seq<char> {
    "{\"name\":\""@ + name + "\",\"arguments\":"@
}

/// The body of a call, `{"name":"...","arguments":...}`.
pub open spec fn call_body(name: Seq<char>, args: Seq<char>) -> Seq<char> {
    call_head(name) + args + seq!['}']
}

/// The characters of the head of a call.
proof fn lemma_call_head(name: Seq<char>)
    requires
        is_identifier(name),
    ensures
        ({
            let head = call_head(name);
            let n = name.len() as int;
            &&& head.len() == 23 + n
            &&& head[0] == '{' && head[6] == '"' && head[7] == ':' && head[8] == '"'
            &&& head.subrange(1, 7) == "\"name\""@
            &&& head.subrange(9, 9 + n) == name
            &&& head[9 + n] == '"' && head[10 + n] == ','
            &&& head.subrange(11 + n, 22 + n) == "\"arguments\""@
            &&& head[22 + n] == ':'
            &&& forall|i: int| 0 <= i < head.len() ==> #[trigger] head[i] != '<'
            &&& forall|i: int| 9 <= i < 9 + n ==> #[trigger] head[i] != '"' && head[i] != ':'
        }),
{
    reveal_strlit("{\"name\":\"");
    reveal_strlit("\",\"arguments\":");
    reveal_strlit("\"name\"");
    reveal_strlit("\"arguments\"");
    let pre = "{\"name\":\""@;
    let mid = "\",\"arguments\":"@;
    let head = call_head(name);
    let n = name.len() as int;
    assert(pre.len() == 9 && mid.len() == 14);
    assert forall|i: int| 0 <= i < 9 implies #[trigger] head[i] == pre[i] by {}
    assert forall|i: int| 9 <= i < 9 + n implies #[trigger] head[i] == name[i - 9] by {}
    assert forall|i: int| 9 + n <= i < 23 + n implies #[trigger] head[i] == mid[i - 9 - n] by {}
    assert(head.subrange(1, 7) =~= "\"name\""@);
    assert(head.subrange(9, 9 + n) =~= name);
    assert(head.subrange(11 + n, 22 + n) =~= "\"arguments\""@);
    assert forall|i: int| 0 <= i < head.len() implies #[trigger] head[i] != '<' by {
        if i < 9 {
            assert(pre[i] != '<');
        } else if i >= 9 + n {
            assert(mid[i - 9 - n] != '<');
        }
    }
}

/// The name of such a body is the name.
proof fn lemma_call_name(name: Seq<char>, args: Seq<char>)
    requires
        is_identifier(name),
    ensures
        hermes::tool_name(call_body(name, args)) == Some(name),
{
    reveal_strlit("\"name\"");
    lemma_call_head(name);
    let head = call_head(name);
    let body = call_body(name, args);
    let n = name.len() as int;
    let quote = seq!['"'];
    assert forall|i: int| 0 <= i < head.len() implies #[trigger] body[i] == head[i] by {}
    assert(body.subrange(0, 6)[0] == head[0]);
    assert(hermes::name_at(body, 0) is None);
    assert(body.subrange(1, 7) =~= head.subrange(1, 7));
    assert(body[7] == ':' && body[8] == '"');
    assert(text::skip_white(body, 7) == 7);
    assert(text::skip_white(body, 8) == 8);
    assert(body.subrange(9 + n, 10 + n) =~= quote);
    assert forall|i: int| 9 <= i < 9 + n implies !#[trigger] text::occurs_at(body, quote, i) by {
        assert(body.subrange(i, i + 1)[0] == head[i]);
    }
    text::lemma_find_is(body, quote, 9, 9 + n);
    assert(body.subrange(9, 9 + n) =~= name);
    assert(hermes::name_at(body, 1) == Some(name));
    reveal_with_fuel(hermes::name_from, 3);
}

/// Where the arguments key of such a body is found: where it stands, or before
/// it where the name is the same word.
proof fn lemma_call_key(name: Seq<char>, args: Seq<char>) -> (key: int)
    requires
        is_identifier(name),
    ensures
        text::find(call_body(name, args), "\"arguments\""@) == Some(key),
        key == 11 + name.len() || (key == 8 && name.len() == 9),
{
    reveal_strlit("\"arguments\"");
    lemma_call_head(name);
    reveal_strlit("\"name\"");
    let head = call_head(name);
    let body = call_body(name, args);
    let word = "\"arguments\""@;
    let n = name.len() as int;
    assert forall|i: int| 0 <= i < head.len() implies #[trigger] body[i] == head[i] by {}
    assert(body.subrange(11 + n, 22 + n) =~= head.subrange(11 + n, 22 + n));
    assert(text::occurs_at(body, word, 11 + n));
    text::lemma_find_from(body, word, 0);
    let key = text::find(body, word)->0;
    assert(key <= 11 + n);
    let sub = body.subrange(key, key + 11);
    assert(sub == word);
    assert(sub[0] == body[key] && sub[1] == body[key + 1] && sub[10] == body[key + 10]);
    assert(word[0] == '"' && word[1] == 'a' && word[10] == '"');
    if key < 8 {
        let short = head.subrange(1, 7);
        if 1 <= key < 7 {
            assert(short[key - 1] == head[key]);
            if key < 6 {
                assert(short[key] == head[key + 1]);
            }
        }
        assert(false);
    } else if key == 8 {
        if n < 9 {
            assert(sub[1 + n] == body[9 + n]);
            assert(word[1 + n] != '"');
        } else if n > 9 {
            assert(body[18] == head[18]);
        }
    } else if key < 11 + n {
        assert(key == 9 + n);
        assert(false);
    }
    key
}

/// The arguments of such a body are the arguments, with the brace that closes
/// the wrapper object.
proof fn lemma_call_arguments(name: Seq<char>, args: Seq<char>)
    requires
        is_identifier(name),
        args.len() > 0 && !text::is_white(args[0]),
    ensures
        hermes::arguments_rest(call_body(name, args)) == Some(args + seq!['}']),
{
    lemma_call_head(name);
    let key = lemma_call_key(name, args);
    let head = call_head(name);
    let body = call_body(name, args);
    let n = name.len() as int;
    let colon = seq![':'];
    assert forall|i: int| 0 <= i < head.len() implies #[trigger] body[i] == head[i] by {}
    let tail = body.skip(key + 11);
    let at = 22 + n - (key + 11);
    assert(tail.subrange(at, at + 1) =~= colon);
    assert forall|i: int| 0 <= i < at implies !#[trigger] text::occurs_at(tail, colon, i) by {
        assert(tail.subrange(i, i + 1)[0] == head[key + 11 + i]);
        reveal_strlit("\"arguments\"");
        let word = head.subrange(11 + n, 22 + n);
        let p = key + 11 + i;
        if p >= 11 + n {
            assert(word[p - 11 - n] == head[p]);
        }
    }
    text::lemma_find_is(tail, colon, 0, at);
    let value = tail.skip(at + 1);
    assert(value =~= args + seq!['}']);
    assert(value[0] == args[0]);
    assert(text::skip_white(value, 0) == 0);
    assert(text::trim_start(value) =~= value);
}

/// The close marker behind such a body is the first one.
proof fn lemma_call_close(name: Seq<char>, args: Seq<char>)
    requires
        is_identifier(name),
        text::find(args, CLOSE_MARKER@) is None,
    ensures
        text::find(call_body(name, args) + CLOSE_MARKER@, CLOSE_MARKER@) == Some(
            call_body(name, args).len() as int,
        ),
{
    reveal_strlit("</tool_call>");
    lemma_call_head(name);
    let head = call_head(name);
    let body = call_body(name, args);
    let close = CLOSE_MARKER@;
    let whole = body + close;
    let end = body.len() as int;
    assert(whole.subrange(end, end + 12) =~= close);
    text::lemma_find_from(args, close, 0);
    assert forall|i: int| 0 <= i < end implies !#[trigger] text::occurs_at(whole, close, i) by {
        if text::occurs_at(whole, close, i) {
            let sub = whole.subrange(i, i + 12);
            assert(sub == close);
            assert(sub[0] == whole[i]);
            if i + 12 >= end {
                assert(sub[end - 1 - i] == whole[end - 1]);
                assert(whole[end - 1] == '}');
                assert(close[end - 1 - i] != '}');
            } else if i < head.len() {
                assert(whole[i] == head[i]);
            } else {
                let j = i - head.len();
                assert(args.subrange(j, j + 12) =~= sub);
                assert(text::occurs_at(args, close, j));
            }
            assert(false);
        }
    }
    text::lemma_find_is(whole, close, 0, end);
}

/// A body `{"name":"...","arguments":...}` that is complete JSON says what its
/// name is and, exactly, what its arguments are.
pub proof fn law_usual_body(name: Seq<char>, args: Seq<char>)
    requires
        is_identifier(name),
        args.len() > 0 && !text::is_white(args[0]) && !text::is_white(args.last()),
        json::is_json(call_body(name, args)),
    ensures
        hermes::tool_name(call_body(name, args)) == Some(name),
        hermes_exact::plain_args(call_body(name, args), args),
{
    lemma_call_name(name, args);
    lemma_call_arguments(name, args);
}

/// Deltas without a head do not come in turn at the start of a call.
proof fn lemma_headless(deltas: Seq<Delta>, start: Progress)
    requires
        start.open is None,
        deltas.len() > 0,
        hermes_laws::heads(deltas).len() == 0,
    ensures
        start.after_all(deltas) is None,
    decreases deltas.len(),
{
    reveal_with_fuel(Progress::after_all, 2);
    let init = deltas.drop_last();
    if init.len() > 0 {
        lemma_headless(init, start);
    } else {
        assert(init =~= Seq::empty());
    }
}

/// The deltas of a call that has one head and is not complete: the first is that
/// head, and the others carry nothing but fragments.
proof fn lemma_open_call(deltas: Seq<Delta>, start: Progress, head: Delta)
    requires
        start.open is None,
        start.after_all(deltas) is Some,
        hermes_laws::heads(deltas) == seq![head],
        head.id is Some && !head.is_complete,
    ensures
        deltas.len() > 0,
        deltas[0].id == head.id && deltas[0].name == head.name,
        forall|i: int|
            0 < i < deltas.len() ==> (#[trigger] deltas[i]).id is None && deltas[i].name is None,
        forall|i: int|
            0 <= i < deltas.len() ==> (#[trigger] deltas[i]).index == start.next
                && !deltas[i].is_complete,
        start.after_all(deltas)->0.open == Some(start.next),
    decreases deltas.len(),
{
    reveal_with_fuel(Progress::after_all, 2);
    assert(hermes_laws::heads(deltas).len() == 1);
    let init = deltas.drop_last();
    let last = deltas.last();
    assert(deltas[deltas.len() - 1] == last);
    assert(forall|i: int| 0 <= i < init.len() ==> init[i] == deltas[i]);
    if last.id is None && last.name is None && !last.is_complete {
        lemma_open_call(init, start, head);
        assert(deltas[0] == init[0]);
        assert forall|i: int| 0 < i < deltas.len() implies (#[trigger] deltas[i]).id is None
            && deltas[i].name is None by {
            if i < init.len() {
                assert(init[i].id is None);
            }
        }
        assert forall|i: int| 0 <= i < deltas.len() implies (#[trigger] deltas[i]).index
            == start.next && !deltas[i].is_complete by {
            if i < init.len() {
                assert(init[i].index == start.next);
            }
        }
    } else {
        let before = hermes_laws::heads(init);
        let erased = Delta { arguments_fragment: Seq::empty(), ..last };
        assert(before.push(erased) == seq![head]);
        assert(before.len() == 0);
        assert(before.push(erased)[0] == seq![head][0]);
        if init.len() > 0 {
            lemma_headless(init, start);
            assert(false);
        }
        assert(init =~= Seq::empty());
    }
}

/// Fragments of deltas that complete no call are appended to one another.
proof fn lemma_open_args(sent: Seq<char>, deltas: Seq<Delta>)
    requires
        forall|i: int| 0 <= i < deltas.len() ==> !(#[trigger] deltas[i]).is_complete,
    ensures
        parser::open_args(sent, deltas) == sent + fragments(deltas),
        parser::complete_args(sent, deltas).len() == 0,
    decreases deltas.len(),
{
    let texts = deltas.map_values(|d: Delta| d.arguments_fragment);
    if deltas.len() == 0 {
        assert(texts =~= Seq::empty());
        assert(sent + parser::joined(texts) =~= sent);
    } else {
        let init = deltas.drop_last();
        assert forall|i: int| 0 <= i < init.len() implies !(#[trigger] init[i]).is_complete by {
            assert(init[i] == deltas[i]);
        }
        assert(!deltas[deltas.len() - 1].is_complete);
        lemma_open_args(sent, init);
        assert(texts.drop_last() =~= init.map_values(|d: Delta| d.arguments_fragment));
        assert(sent + fragments(init) + deltas.last().arguments_fragment =~= sent + fragments(
            deltas,
        ));
    }
}

/// The argument fragments of deltas, appended to one another.
pub open spec fn fragments(deltas: Seq<Delta>) -> Seq<char> {
    parser::joined(deltas.map_values(|d: Delta| d.arguments_fragment))
}

/// A call `{"name":"...","arguments":...}` between its markers, streamed in any
/// chunks to a new parser. Over all its deltas, in order: the fragments, appended
/// to one another, are exactly the arguments; the first delta, and no other, has
/// the id and the name; the last, and no other, is complete; every index is 0.
/// Neither content nor reasoning is emitted, and no call is left open.
pub proof fn law_streamed_call(
    ids: u64,
    name: Seq<char>,
    args: Seq<char>,
    chunks: Seq<Seq<char>>,
)
    requires
        is_identifier(name),
        args.len() > 0 && !text::is_white(args[0]) && !text::is_white(args.last()),
        text::find(args, CLOSE_MARKER@) is None,
        json::is_json(call_body(name, args)),
        parser::joined(chunks) == OPEN_MARKER@ + call_body(name, args) + CLOSE_MARKER@,
    ensures
        ({
            let (own, call, out) = parser::fed_all::<HermesParser>(
                HermesParser::initial(),
                CallState::fresh(ids),
                chunks,
            );
            let deltas = out.tool_calls;
            &&& fragments(deltas) == args
            &&& deltas.len() >= 2
            &&& deltas[0].id == CallState::fresh(ids).begun().id && deltas[0].id is Some
            &&& deltas[0].name == Some(name)
            &&& forall|i: int|
                0 < i < deltas.len() ==> (#[trigger] deltas[i]).id is None && deltas[i].name is None
            &&& forall|i: int|
                0 <= i < deltas.len() ==> (#[trigger] deltas[i]).index == 0 && (
                deltas[i].is_complete <==> i == deltas.len() - 1)
            &&& out.content.len() == 0
            &&& out.reasoning.len() == 0
            &&& call.state == ToolCallState::Idle
        }),
{
    let none = Seq::<char>::empty();
    let head = call_head(name);
    let body = call_body(name, args);
    let fresh = CallState::fresh(ids);
    lemma_call_close(name, args);
    lemma_call_arguments(name, args);
    lemma_call_name(name, args);
    hermes_laws::law_streamed_arguments_are_exact(ids, head, args, chunks);
    hermes_laws::lemma_streamed_call_is_silent(ids, head, args, chunks);
    hermes_laws::lemma_course_ends(ids, chunks, body);
    let r = parser::fed_all::<HermesParser>(HermesParser::initial(), fresh, chunks);
    let deltas = r.2.tool_calls;
    let inside = fresh.begun().extended(body);
    assert(inside.buffer =~= body);
    hermes_laws::lemma_closed_heads(inside);
    assert(hermes_laws::heads(deltas) == hermes_laws::told(r.2).1) by {
        reveal(hermes_laws::told);
    }
    let first = hermes::name_delta(inside, name);
    let told = hermes_laws::heads(deltas);
    assert(told.len() == 2 && told[0] == first);
    hermes_laws::law_batch_in_order(HermesParser::initial(), fresh, chunks);
    let start = Progress::of(fresh);
    let init = deltas.drop_last();
    let last = deltas.last();
    assert(deltas.len() > 0);
    assert(last.is_complete);
    assert(hermes_laws::heads(init) =~= seq![first]);
    lemma_open_call(init, start, first);
    lemma_open_args(none, init);
    assert(parser::complete_args(none, deltas)[0] == fragments(init) + last.arguments_fragment);
    let texts = deltas.map_values(|d: Delta| d.arguments_fragment);
    assert(texts.drop_last() =~= init.map_values(|d: Delta| d.arguments_fragment));
    assert forall|i: int| 0 < i < deltas.len() implies (#[trigger] deltas[i]).id is None
        && deltas[i].name is None by {
        if i < init.len() {
            assert(init[i] == deltas[i]);
        }
    }
    assert forall|i: int| 0 <= i < deltas.len() implies (#[trigger] deltas[i]).index == 0 && (
    deltas[i].is_complete <==> i == deltas.len() - 1) by {
        if i < init.len() {
            assert(init[i] == deltas[i]);
        }
    }
    assert(deltas[0] == init[0]);
}

} // verus!
