//! What the body of a Hermes call says, in terms of its characters.

use crate::dialects::hermes;
use crate::text;
use crate::text_laws;
use vstd::prelude::*;
use vstd::string::*;

verus! {

/// Whether the characters from `from` up to `to` are white space.
pub open spec fn white_between(body: Seq<char>, from: int, to: int) -> bool {
    forall|i: int| from <= i < to ==> text::is_white(#[trigger] body[i])
}

/// Whether the characters from `from` up to `to` are all other than `c`.
pub open spec fn without(body: Seq<char>, c: char, from: int, to: int) -> bool {
    forall|i: int| from <= i < to ==> #[trigger] body[i] != c
}

/// Whether `"name"`, a colon, and a quoted text that is not empty follow one
/// another from `at` on, with white space around the colon. The text stands
/// behind the quotation mark at `quote`, and ends before the one at `end`.
pub open spec fn names_at(body: Seq<char>, at: int, colon: int, quote: int, end: int) -> bool {
    &&& 0 <= at && at + 6 <= colon < quote && quote + 1 < end < body.len()
    &&& body[at] == '"' && body[at + 1] == 'n' && body[at + 2] == 'a' && body[at + 3] == 'm'
        && body[at + 4] == 'e' && body[at + 5] == '"'
    &&& white_between(body, at + 6, colon)
    &&& body[colon] == ':'
    &&& white_between(body, colon + 1, quote)
    &&& body[quote] == '"'
    &&& without(body, '"', quote + 1, end)
    &&& body[end] == '"'
}

/// White space ends where a character that is none follows it.
proof fn lemma_white_ends(body: Seq<char>, from: int, to: int)
    requires
        0 <= from <= to < body.len(),
        white_between(body, from, to),
        !text::is_white(body[to]),
    ensures
        text::skip_white(body, from) == to,
{
    text::lemma_skip_white(body, from);
    let stop = text::skip_white(body, from);
    if stop < to {
        assert(text::is_white(body[stop]));
    } else if to < stop {
        assert(text::is_white(body[to]));
    }
}

/// A character is found where it first occurs.
proof fn lemma_char_found(body: Seq<char>, c: char, from: int, at: int)
    requires
        0 <= from <= at < body.len(),
        body[at] == c,
        without(body, c, from, at),
    ensures
        text::find_from(body, seq![c], from) == Some(at),
{
    assert(body.subrange(at, at + 1) =~= seq![c]);
    assert forall|i: int| from <= i < at implies !#[trigger] text::occurs_at(
        body,
        seq![c],
        i,
    ) by {
        assert(body.subrange(i, i + 1)[0] == body[i]);
    }
    text::lemma_find_is(body, seq![c], from, at);
}

/// What is found of a character.
proof fn lemma_char_find(body: Seq<char>, c: char, from: int)
    requires
        0 <= from,
    ensures
        match text::find_from(body, seq![c], from) {
            Some(at) => from <= at < body.len() && body[at] == c && without(body, c, from, at),
            None => without(body, c, from, body.len() as int),
        },
{
    text::lemma_find_from(body, seq![c], from);
    match text::find_from(body, seq![c], from) {
        Some(at) => {
            assert(body.subrange(at, at + 1)[0] == body[at]);
            assert forall|i: int| from <= i < at implies #[trigger] body[i] != c by {
                if body[i] == c {
                    assert(body.subrange(i, i + 1) =~= seq![c]);
                    assert(text::occurs_at(body, seq![c], i));
                }
            }
        },
        None => {
            assert forall|i: int| from <= i < body.len() implies #[trigger] body[i] != c by {
                if body[i] == c {
                    assert(body.subrange(i, i + 1) =~= seq![c]);
                    assert(text::occurs_at(body, seq![c], i));
                }
            }
        },
    }
}

/// The name key in terms of its characters.
proof fn lemma_name_key(body: Seq<char>, at: int)
    requires
        0 <= at,
    ensures
        text::occurs_at(body, "\"name\""@, at) <==> at + 6 <= body.len() && body[at] == '"'
            && body[at + 1] == 'n' && body[at + 2] == 'a' && body[at + 3] == 'm' && body[at + 4]
            == 'e' && body[at + 5] == '"',
{
    reveal_strlit("\"name\"");
    let key = "\"name\""@;
    if at + 6 <= body.len() {
        let sub = body.subrange(at, at + 6);
        assert(sub[0] == body[at] && sub[1] == body[at + 1] && sub[2] == body[at + 2] && sub[3]
            == body[at + 3] && sub[4] == body[at + 4] && sub[5] == body[at + 5]);
        if body[at] == '"' && body[at + 1] == 'n' && body[at + 2] == 'a' && body[at + 3] == 'm'
            && body[at + 4] == 'e' && body[at + 5] == '"' {
            assert(sub =~= key);
        }
    }
}

proof fn lemma_match_is(body: Seq<char>, at: int, colon: int, quote: int, end: int)
    requires
        names_at(body, at, colon, quote, end),
    ensures
        hermes::name_at(body, at) == Some(body.subrange(quote + 1, end)),
{
    lemma_name_key(body, at);
    assert(!text::is_white(':') && !text::is_white('"'));
    lemma_white_ends(body, at + 6, colon);
    lemma_white_ends(body, colon + 1, quote);
    lemma_char_found(body, '"', quote + 1, end);
}

proof fn lemma_match_shape(body: Seq<char>, at: int) -> (r: (int, int, int))
    requires
        0 <= at,
        hermes::name_at(body, at) is Some,
    ensures
        names_at(body, at, r.0, r.1, r.2),
        hermes::name_at(body, at) == Some(body.subrange(r.1 + 1, r.2)),
{
    lemma_name_key(body, at);
    let colon = text::skip_white(body, at + 6);
    text::lemma_skip_white(body, at + 6);
    let quote = text::skip_white(body, colon + 1);
    text::lemma_skip_white(body, colon + 1);
    lemma_char_find(body, '"', quote + 1);
    let end = text::find_from(body, seq!['"'], quote + 1)->0;
    (colon, quote, end)
}

proof fn lemma_first_name(body: Seq<char>, from: int, at: int)
    requires
        0 <= from <= at < body.len(),
        hermes::name_at(body, at) is Some,
        forall|i: int| from <= i < at ==> hermes::name_at(body, i) is None,
    ensures
        hermes::name_from(body, from) == hermes::name_at(body, at),
    decreases at - from,
{
    if from < at {
        assert(hermes::name_at(body, from) is None);
        lemma_first_name(body, from + 1, at);
    }
}

proof fn lemma_name_somewhere(body: Seq<char>, from: int) -> (at: int)
    requires
        0 <= from,
        hermes::name_from(body, from) is Some,
    ensures
        from <= at < body.len(),
        hermes::name_at(body, at) == hermes::name_from(body, from),
        hermes::name_at(body, at) is Some,
    decreases body.len() - from,
{
    if hermes::name_at(body, from) is Some {
        from
    } else {
        lemma_name_somewhere(body, from + 1)
    }
}

/// The name of a body is the quoted text behind the first `"name"` key that has a
/// colon and a quoted text behind it, whatever the text is and however much white
/// space is around the colon.
pub proof fn law_name_is_quoted_text(body: Seq<char>, at: int, colon: int, quote: int, end: int)
    requires
        names_at(body, at, colon, quote, end),
        forall|i: int, c: int, q: int, e: int| i < at ==> !#[trigger] names_at(body, i, c, q, e),
    ensures
        hermes::tool_name(body) == Some(body.subrange(quote + 1, end)),
{
    lemma_match_is(body, at, colon, quote, end);
    assert forall|i: int| 0 <= i < at implies hermes::name_at(body, i) is None by {
        if hermes::name_at(body, i) is Some {
            let r = lemma_match_shape(body, i);
            assert(names_at(body, i, r.0, r.1, r.2));
        }
    }
    lemma_first_name(body, 0, at);
}

/// A body shows a name only where it has such a key and such a text.
pub proof fn law_name_needs_a_key(body: Seq<char>)
    requires
        forall|i: int, c: int, q: int, e: int| !#[trigger] names_at(body, i, c, q, e),
    ensures
        hermes::tool_name(body) is None,
{
    if hermes::tool_name(body) is Some {
        let at = lemma_name_somewhere(body, 0);
        let r = lemma_match_shape(body, at);
        assert(names_at(body, at, r.0, r.1, r.2));
    }
}

/// Whether `"arguments"` stands at `at`.
pub open spec fn arguments_key_at(body: Seq<char>, at: int) -> bool {
    &&& 0 <= at && at + 11 <= body.len()
    &&& body[at] == '"' && body[at + 1] == 'a' && body[at + 2] == 'r' && body[at + 3] == 'g'
        && body[at + 4] == 'u' && body[at + 5] == 'm' && body[at + 6] == 'e' && body[at + 7]
        == 'n' && body[at + 8] == 't' && body[at + 9] == 's' && body[at + 10] == '"'
}

proof fn lemma_arguments_key(body: Seq<char>, at: int)
    requires
        0 <= at,
    ensures
        text::occurs_at(body, "\"arguments\""@, at) <==> arguments_key_at(body, at),
{
    reveal_strlit("\"arguments\"");
    let key = "\"arguments\""@;
    if at + 11 <= body.len() {
        let sub = body.subrange(at, at + 11);
        assert(forall|i: int| 0 <= i < 11 ==> sub[i] == body[at + i]);
        assert(sub[0] == body[at] && sub[1] == body[at + 1] && sub[2] == body[at + 2] && sub[3]
            == body[at + 3] && sub[4] == body[at + 4] && sub[5] == body[at + 5] && sub[6]
            == body[at + 6] && sub[7] == body[at + 7] && sub[8] == body[at + 8] && sub[9]
            == body[at + 9] && sub[10] == body[at + 10]);
        if arguments_key_at(body, at) {
            assert(sub =~= key);
        }
    }
}

/// The arguments text of a body begins at the first character that is not white
/// space, behind the first colon behind the first `"arguments"` key, and goes to
/// the end of the body.
pub proof fn law_arguments_follow_their_key(body: Seq<char>, at: int, colon: int, start: int)
    requires
        arguments_key_at(body, at),
        forall|i: int| i < at ==> !#[trigger] arguments_key_at(body, i),
        at + 11 <= colon < start <= body.len(),
        body[colon] == ':',
        without(body, ':', at + 11, colon),
        white_between(body, colon + 1, start),
        start < body.len() ==> !text::is_white(body[start]),
    ensures
        hermes::arguments_rest(body) == Some(body.skip(start)),
        hermes::arguments_raw(body, false) == Some(body.skip(start)),
        hermes::arguments_raw(body, true) == Some(hermes::without_wrapper(body.skip(start))),
{
    lemma_arguments_key(body, at);
    let key = "\"arguments\""@;
    assert forall|i: int| 0 <= i < at implies !#[trigger] text::occurs_at(body, key, i) by {
        lemma_arguments_key(body, i);
    }
    text::lemma_find_is(body, key, 0, at);
    let tail = body.skip(at + 11);
    let c = colon - (at + 11);
    assert(without(tail, ':', 0, c)) by {
        assert forall|i: int| 0 <= i < c implies #[trigger] tail[i] != ':' by {
            assert(tail[i] == body[at + 11 + i]);
        }
    }
    lemma_char_found(tail, ':', 0, c);
    let value = tail.skip(c + 1);
    let s = start - (colon + 1);
    assert(value =~= body.skip(colon + 1));
    assert(white_between(value, 0, s)) by {
        assert forall|i: int| 0 <= i < s implies text::is_white(#[trigger] value[i]) by {
            assert(value[i] == body[colon + 1 + i]);
        }
    }
    text::lemma_skip_white(value, 0);
    if s < value.len() {
        lemma_white_ends(value, 0, s);
    } else {
        let stop = text::skip_white(value, 0);
        if stop < value.len() {
            assert(text::is_white(value[stop]));
        }
    }
    assert(value.skip(s) =~= body.skip(start));
}

/// A body without the key, or without a colon behind it, shows no arguments.
pub proof fn law_arguments_need_a_key(body: Seq<char>, is_complete: bool)
    requires
        forall|i: int, c: int|
            #![trigger arguments_key_at(body, i), body[c]]
            arguments_key_at(body, i) && i + 11 <= c < body.len() ==> body[c] != ':',
    ensures
        hermes::arguments_rest(body) is None,
        hermes::arguments_raw(body, is_complete) is None,
{
    let key = "\"arguments\""@;
    reveal_strlit("\"arguments\"");
    text::lemma_find_from(body, key, 0);
    if let Some(at) = text::find(body, key) {
        lemma_arguments_key(body, at);
        let tail = body.skip(at + 11);
        lemma_char_find(tail, ':', 0);
        if let Some(c) = text::find(tail, seq![':']) {
            assert(tail[c] == body[at + 11 + c]);
            assert(arguments_key_at(body, at) && body[at + 11 + c] == ':');
        }
    }
}

/// The arguments of a complete body are its arguments text without the brace that
/// closes the wrapper object and the white space before and behind that brace.
pub proof fn law_wrapper_is_left_out(
    args: Seq<char>,
    before: Seq<char>,
    behind: Seq<char>,
)
    requires
        args.len() == 0 || !text::is_white(args.last()),
        text::all_white(before),
        text::all_white(behind),
    ensures
        hermes::without_wrapper(args + before + seq!['}'] + behind) == args,
{
    let inner = args + before;
    let raw = inner + seq!['}'];
    assert(!text::is_white('}'));
    assert(raw.last() == '}');
    text_laws::law_trim_end(raw, behind);
    assert(raw.drop_last() =~= inner);
    text_laws::law_trim_end(args, before);
}

/// Arguments text that does not end in a brace loses only white space at its end.
pub proof fn law_without_a_wrapper(args: Seq<char>, behind: Seq<char>)
    requires
        args.len() == 0 || (!text::is_white(args.last()) && args.last() != '}'),
        text::all_white(behind),
    ensures
        hermes::without_wrapper(args + behind) == args,
{
    text_laws::law_trim_end(args, behind);
}

} // verus!
