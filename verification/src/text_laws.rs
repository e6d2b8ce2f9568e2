//! Laws of text: what the functions of [`crate::text`] mean to one another.

use crate::text;
use vstd::prelude::*;

verus! {

/// The characters of a decimal number are digits.
pub proof fn law_decimal_is_a_number(n: nat)
    ensures
        text::is_number(text::decimal(n)),
    decreases n,
{
    let d = text::decimal(n);
    if n >= 10 {
        law_decimal_is_a_number(n / 10);
        let init = text::decimal(n / 10);
        assert forall|i: int| 0 <= i < d.len() implies text::is_digit(#[trigger] d[i]) by {
            if i < init.len() {
                assert(d[i] == init[i]);
            }
        }
    }
}

/// Writing a number and reading it gives the number.
pub proof fn law_decimal_reads_back(n: nat)
    ensures
        text::number(text::decimal(n)) == n,
    decreases n,
{
    let d = text::decimal(n);
    reveal_with_fuel(text::number, 2);
    if n >= 10 {
        law_decimal_reads_back(n / 10);
        assert(d.drop_last() =~= text::decimal(n / 10));
    } else {
        assert(d.drop_last() =~= Seq::empty());
    }
}

/// A decimal number has no zero in front.
pub proof fn law_decimal_is_short(n: nat)
    ensures
        text::decimal(n).len() > 0,
        n > 0 ==> text::decimal(n)[0] != '0',
        n < 10 ==> text::decimal(n).len() == 1,
        text::decimal(10 * n + 10).len() == text::decimal(n + 1).len() + 1,
    decreases n,
{
    reveal_with_fuel(text::decimal, 2);
    if n >= 10 {
        law_decimal_is_short(n / 10);
        assert(text::decimal(n)[0] == text::decimal(n / 10)[0]);
    }
    assert((10 * n + 10) / 10 == n + 1);
}

/// Zeros in front do not change a number.
pub proof fn law_zeros_in_front(text: Seq<char>)
    ensures
        text::number(seq!['0'] + text) == text::number(text),
    decreases text.len(),
{
    reveal_with_fuel(text::number, 2);
    let longer = seq!['0'] + text;
    if text.len() == 0 {
        assert(longer.drop_last() =~= Seq::empty());
    } else {
        law_zeros_in_front(text.drop_last());
        assert(longer.drop_last() =~= seq!['0'] + text.drop_last());
        assert(longer.last() == text.last());
    }
}

/// The pieces of a text, with the separator between them, are the text: joining
/// undoes splitting.
pub open spec fn rejoined(pieces: Seq<Seq<char>>, separator: char) -> Seq<char>
    decreases pieces.len(),
{
    if pieces.len() == 0 {
        Seq::empty()
    } else if pieces.len() == 1 {
        pieces[0]
    } else {
        pieces[0] + seq![separator] + rejoined(pieces.skip(1), separator)
    }
}

/// Splitting a text and joining the pieces gives the text, and no piece holds the
/// separator.
pub proof fn law_split_pieces(text: Seq<char>, separator: char)
    ensures
        text::split(text, separator).len() > 0,
        rejoined(text::split(text, separator), separator) == text,
        forall|i: int|
            0 <= i < text::split(text, separator).len() ==> !(#[trigger] text::split(
                text,
                separator,
            )[i]).contains(separator),
    decreases text.len(),
{
    let mark = seq![separator];
    let pieces = text::split(text, separator);
    text::lemma_find_from(text, mark, 0);
    match text::find(text, mark) {
        Some(at) => {
            let head = text.take(at);
            let tail = text.skip(at + 1);
            law_split_pieces(tail, separator);
            let rest = text::split(tail, separator);
            assert(pieces == seq![head] + rest);
            assert(pieces.skip(1) =~= rest);
            assert(text.subrange(at, at + 1)[0] == text[at]);
            assert(head + mark + tail =~= text);
            assert(!head.contains(separator)) by {
                if head.contains(separator) {
                    let i = choose|i: int| 0 <= i < head.len() && head[i] == separator;
                    assert(text.subrange(i, i + 1) =~= mark);
                    assert(text::occurs_at(text, mark, i));
                }
            }
            assert forall|i: int| 0 <= i < pieces.len() implies !(
            #[trigger] pieces[i]).contains(separator) by {
                if i > 0 {
                    assert(pieces[i] == rest[i - 1]);
                }
            }
        },
        None => {
            assert(pieces == seq![text]);
            if text.contains(separator) {
                let i = choose|i: int| 0 <= i < text.len() && text[i] == separator;
                assert(text.subrange(i, i + 1) =~= mark);
                assert(text::occurs_at(text, mark, i));
            }
        },
    }
}

/// A text without the separator is one piece.
pub proof fn law_split_nothing(text: Seq<char>, separator: char)
    requires
        !text.contains(separator),
    ensures
        text::split(text, separator) == seq![text],
{
    let mark = seq![separator];
    text::lemma_find_from(text, mark, 0);
    if let Some(at) = text::find(text, mark) {
        assert(text.subrange(at, at + 1)[0] == text[at]);
    }
}

/// The pieces of two texts with a separator between them are the pieces of the
/// one and of the other.
pub proof fn law_split_joined(a: Seq<char>, b: Seq<char>, separator: char)
    ensures
        text::split(a + seq![separator] + b, separator) == text::split(a, separator)
            + text::split(b, separator),
    decreases a.len(),
{
    let mark = seq![separator];
    let whole = a + mark + b;
    text::lemma_find_from(a, mark, 0);
    match text::find(a, mark) {
        Some(at) => {
            text::lemma_find_extend(a, mark + b, mark);
            assert(a + (mark + b) =~= whole);
            law_split_joined(a.skip(at + 1), b, separator);
            assert(whole.skip(at + 1) =~= a.skip(at + 1) + mark + b);
            assert(whole.take(at) =~= a.take(at));
            assert(seq![a.take(at)] + (text::split(a.skip(at + 1), separator) + text::split(
                b,
                separator,
            )) =~= text::split(a, separator) + text::split(b, separator));
        },
        None => {
            let at = a.len() as int;
            assert(whole.subrange(at, at + 1) =~= mark);
            assert forall|i: int| 0 <= i < at implies !#[trigger] text::occurs_at(
                whole,
                mark,
                i,
            ) by {
                assert(whole.subrange(i, i + 1) =~= a.subrange(i, i + 1));
                assert(!text::occurs_at(a, mark, i));
            }
            text::lemma_find_is(whole, mark, 0, at);
            assert(whole.take(at) =~= a);
            assert(whole.skip(at + 1) =~= b);
        },
    }
}

/// White space is taken off the end of a text, all of it.
pub proof fn law_trim_end(text: Seq<char>, space: Seq<char>)
    requires
        text::all_white(space),
        text.len() == 0 || !text::is_white(text.last()),
    ensures
        text::trim_end(text + space) == text,
    decreases space.len(),
{
    if space.len() == 0 {
        assert(text + space =~= text);
    } else {
        let init = space.drop_last();
        assert(text::all_white(init)) by {
            assert forall|i: int| 0 <= i < init.len() implies text::is_white(
                #[trigger] init[i],
            ) by {
                assert(init[i] == space[i]);
            }
        }
        assert(text::is_white(space[space.len() - 1]));
        assert((text + space).last() == space.last());
        assert((text + space).drop_last() =~= text + init);
        law_trim_end(text, init);
    }
}

/// Trimming takes the white space off both ends, all of it, and nothing else.
pub proof fn law_trim_takes_white_space(before: Seq<char>, text: Seq<char>, behind: Seq<char>)
    requires
        text::all_white(before),
        text::all_white(behind),
        text.len() > 0 ==> !text::is_white(text[0]) && !text::is_white(text.last()),
    ensures
        text::trim(before + text + behind) == text,
        text::trim_start(before + text) == text,
        text::trim_end(text + behind) == text,
{
    let tail = text + behind;
    let whole = before + text + behind;
    assert(whole =~= before + tail);
    law_trim_end(text, behind);
    text::lemma_skip_white(before, 0);
    let stop = text::skip_white(before, 0);
    if stop < before.len() {
        assert(text::is_white(before[stop]));
    }
    text::lemma_skip_white_extend(before, text, 0);
    text::lemma_skip_white_extend(before, tail, 0);
    if text.len() > 0 {
        assert(text::skip_white(text, 0) == 0);
        assert(tail[0] == text[0]);
        assert(text::skip_white(tail, 0) == 0);
        assert(whole.skip(before.len() as int) =~= tail);
        assert((before + text).skip(before.len() as int) =~= text);
    } else {
        text::lemma_skip_white(tail, 0);
        let t = text::skip_white(tail, 0);
        if t < tail.len() {
            assert(tail[t] == behind[t]);
            assert(text::is_white(behind[t]));
        }
        assert(whole.skip(whole.len() as int) =~= Seq::empty());
        assert((before + text).skip((before + text).len() as int) =~= Seq::empty());
        assert(text =~= Seq::empty());
        text::lemma_skip_white(text, 0);
    }
}

/// White space is what Unicode calls so: the characters from tab to carriage
/// return, the space, and the wider spaces, and nothing else.
pub proof fn law_white_space(c: char)
    ensures
        text::is_white(c) <==> (c == '\t' || c == '\n' || c == '\u{b}' || c == '\u{c}' || c
            == '\r' || c == ' ' || c == '\u{85}' || c == '\u{a0}' || c == '\u{1680}'
            || '\u{2000}' <= c <= '\u{200a}' || c == '\u{2028}' || c == '\u{2029}' || c
            == '\u{202f}' || c == '\u{205f}' || c == '\u{3000}'),
{
}

/// A pattern stands at a position if each of its characters does, one behind the
/// other.
pub proof fn law_occurrence(text: Seq<char>, pattern: Seq<char>, at: int)
    ensures
        text::occurs_at(text, pattern, at) <==> 0 <= at && at + pattern.len() <= text.len() && (
        forall|i: int| 0 <= i < pattern.len() ==> #[trigger] pattern[i] == text[at + i]),
{
    if 0 <= at && at + pattern.len() <= text.len() {
        let sub = text.subrange(at, at + pattern.len());
        if sub == pattern {
            assert forall|i: int| 0 <= i < pattern.len() implies #[trigger] pattern[i] == text[at
                + i] by {
                assert(sub[i] == text[at + i]);
            }
        }
        if forall|i: int| 0 <= i < pattern.len() ==> #[trigger] pattern[i] == text[at + i] {
            assert(sub =~= pattern);
        }
    }
}

/// A pattern is found where it first stands, and not found where it stands nowhere.
pub proof fn law_first_is_found(text: Seq<char>, pattern: Seq<char>)
    ensures
        match text::find(text, pattern) {
            Some(at) => text::occurs_at(text, pattern, at) && forall|i: int|
                i < at ==> !#[trigger] text::occurs_at(text, pattern, i),
            None => forall|i: int| !#[trigger] text::occurs_at(text, pattern, i),
        },
{
    text::lemma_find_from(text, pattern, 0);
    assert forall|i: int| i < 0 implies !#[trigger] text::occurs_at(text, pattern, i) by {}
}

/// The overlap of a text with a marker is the longest beginning of the marker with
/// which the text ends.
pub proof fn law_longest_overlap(text: Seq<char>, marker: Seq<char>, k: int)
    ensures
        ({
            let o = text::overlap(text, marker) as int;
            &&& o <= text.len() && o <= marker.len()
            &&& text.skip(text.len() - o) == marker.take(o)
            &&& 0 <= k <= text.len() && k <= marker.len() && text.skip(text.len() - k)
                == marker.take(k) ==> k <= o
        }),
{
    text::lemma_overlap(text, marker);
    let o = text::overlap(text, marker) as int;
    assert(text.subrange(text.len() - o, text.len() as int) =~= text.skip(text.len() - o));
    assert(marker.subrange(0, o) =~= marker.take(o));
    if 0 <= k <= text.len() && k <= marker.len() && text.skip(text.len() - k) == marker.take(k) {
        assert(text.subrange(text.len() - k, text.len() as int) =~= text.skip(text.len() - k));
        assert(marker.subrange(0, k) =~= marker.take(k));
        assert(text::is_overlap(text, marker, k));
    }
}

} // verus!
