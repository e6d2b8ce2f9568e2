//! Character-level text operations: searching for a marker, holding back the
//! part of a marker that a chunk ends with, and trimming white space.
//!
//! Text is modelled as `Seq<char>`, so positions and lengths count characters.

use vstd::prelude::*;
use vstd::string::*;

verus! {

/// `String::push`: appends the character to the end of the string.
pub assume_specification[ String::push ](s: &mut String, ch: char)
    ensures
        final(s)@ == old(s)@.push(ch),
;

/// Whether `pattern` stands in `text` at position `at`.
pub open spec fn occurs_at(text: Seq<char>, pattern: Seq<char>, at: int) -> bool {
    &&& 0 <= at
    &&& at + pattern.len() <= text.len()
    &&& text.subrange(at, at + pattern.len()) == pattern
}

/// The first position at or after `from` at which `pattern` stands in `text`.
pub open spec fn find_from(text: Seq<char>, pattern: Seq<char>, from: int) -> Option<int>
    decreases text.len() - from + 1,
{
    if from < 0 || from + pattern.len() > text.len() {
        None
    } else if occurs_at(text, pattern, from) {
        Some(from)
    } else {
        find_from(text, pattern, from + 1)
    }
}

/// The position of the leftmost occurrence of `pattern` in `text`.
pub open spec fn find(text: Seq<char>, pattern: Seq<char>) -> Option<int> {
    find_from(text, pattern, 0)
}

/// Whether the last `k` characters of `text` are the first `k` of `marker`.
pub open spec fn is_overlap(text: Seq<char>, marker: Seq<char>, k: int) -> bool {
    &&& 0 <= k <= text.len()
    &&& k <= marker.len()
    &&& text.subrange(text.len() - k, text.len() as int) == marker.subrange(0, k)
}

/// The longest overlap of `text` with `marker` that is at most `k` long.
pub open spec fn overlap_up_to(text: Seq<char>, marker: Seq<char>, k: nat) -> nat
    decreases k,
{
    if k == 0 || is_overlap(text, marker, k as int) {
        k
    } else {
        overlap_up_to(text, marker, (k - 1) as nat)
    }
}

/// Length of the longest suffix of `text` that is a prefix of `marker`.
pub open spec fn overlap(text: Seq<char>, marker: Seq<char>) -> nat {
    overlap_up_to(text, marker, if text.len() < marker.len() { text.len() } else { marker.len() })
}

/// The characters with the Unicode property `White_Space`.
pub open spec fn is_white(c: char) -> bool {
    ||| '\u{9}' <= c <= '\u{d}'
    ||| c == '\u{20}'
    ||| c == '\u{85}'
    ||| c == '\u{a0}'
    ||| c == '\u{1680}'
    ||| '\u{2000}' <= c <= '\u{200a}'
    ||| c == '\u{2028}'
    ||| c == '\u{2029}'
    ||| c == '\u{202f}'
    ||| c == '\u{205f}'
    ||| c == '\u{3000}'
}

/// Whether every character of `text` is white space.
pub open spec fn all_white(text: Seq<char>) -> bool {
    forall|i: int| 0 <= i < text.len() ==> is_white(#[trigger] text[i])
}

/// The first position at or after `from` that does not hold white space, or
/// the length of `text` if there is none.
pub open spec fn skip_white(text: Seq<char>, from: int) -> int
    decreases text.len() - from,
{
    if 0 <= from < text.len() && is_white(text[from]) {
        skip_white(text, from + 1)
    } else {
        from
    }
}

/// `text` without its leading white space.
pub open spec fn trim_start(text: Seq<char>) -> Seq<char> {
    text.skip(skip_white(text, 0))
}

/// `text` without its trailing white space.
pub open spec fn trim_end(text: Seq<char>) -> Seq<char>
    decreases text.len(),
{
    if text.len() > 0 && is_white(text.last()) {
        trim_end(text.drop_last())
    } else {
        text
    }
}

/// `text` without the white space around it.
pub open spec fn trim(text: Seq<char>) -> Seq<char> {
    trim_end(trim_start(text))
}

/// The decimal digit for a value below ten.
pub open spec fn digit(d: int) -> char {
    if d == 0 { '0' } else if d == 1 { '1' } else if d == 2 { '2' } else if d == 3 { '3' }
    else if d == 4 { '4' } else if d == 5 { '5' } else if d == 6 { '6' } else if d == 7 { '7' }
    else if d == 8 { '8' } else { '9' }
}

/// `n` in decimal, without leading zeros.
pub open spec fn decimal(n: nat) -> Seq<char>
    decreases n,
{
    if n < 10 {
        seq![digit(n as int)]
    } else {
        decimal(n / 10).push(digit((n % 10) as int))
    }
}

/// The pieces of a text between the separators.
pub open spec fn split(text: Seq<char>, separator: char) -> Seq<Seq<char>>
    decreases text.len(),
{
    match find(text, seq![separator]) {
        Some(at) => if 0 <= at < text.len() {
            seq![text.take(at)] + split(text.skip(at + 1), separator)
        } else {
            seq![text]
        },
        None => seq![text],
    }
}

/// Whether `text` begins with `prefix`.
pub open spec fn starts_with(text: Seq<char>, prefix: Seq<char>) -> bool {
    occurs_at(text, prefix, 0)
}

/// Whether a character is a decimal digit.
pub open spec fn is_digit(c: char) -> bool {
    '0' <= c && c <= '9'
}

/// Whether a text is made of one or more decimal digits.
pub open spec fn is_number(text: Seq<char>) -> bool {
    text.len() > 0 && forall|i: int| 0 <= i < text.len() ==> is_digit(#[trigger] text[i])
}

/// The number that a text of decimal digits stands for.
pub open spec fn number(text: Seq<char>) -> nat
    decreases text.len(),
{
    if text.len() == 0 {
        0
    } else {
        (number(text.drop_last()) * 10 + (text.last() as u32 - '0' as u32)) as nat
    }
}

/// What `find_from` says: its position is the first occurrence, and without
/// one there is no occurrence.
pub proof fn lemma_find_from(text: Seq<char>, pattern: Seq<char>, from: int)
    requires
        0 <= from,
    ensures
        find_from(text, pattern, from) matches Some(p) ==> {
            &&& from <= p
            &&& occurs_at(text, pattern, p)
            &&& forall|i: int| from <= i < p ==> !#[trigger] occurs_at(text, pattern, i)
        },
        find_from(text, pattern, from) is None ==> forall|i: int|
            from <= i ==> !#[trigger] occurs_at(text, pattern, i),
    decreases text.len() - from + 1,
{
    if from + pattern.len() > text.len() {
    } else if occurs_at(text, pattern, from) {
    } else {
        lemma_find_from(text, pattern, from + 1);
    }
}

/// A position that is the first occurrence is what `find_from` gives.
pub proof fn lemma_find_is(text: Seq<char>, pattern: Seq<char>, from: int, p: int)
    requires
        0 <= from <= p,
        occurs_at(text, pattern, p),
        forall|i: int| from <= i < p ==> !#[trigger] occurs_at(text, pattern, i),
    ensures
        find_from(text, pattern, from) == Some(p),
{
    lemma_find_from(text, pattern, from);
    if let Some(q) = find_from(text, pattern, from) {
        if q < p {
            assert(!occurs_at(text, pattern, q));
        }
    }
}

/// What `overlap_up_to` says: it is an overlap, and no longer one fits.
pub proof fn lemma_overlap_up_to(text: Seq<char>, marker: Seq<char>, k: nat)
    ensures
        overlap_up_to(text, marker, k) <= k,
        is_overlap(text, marker, overlap_up_to(text, marker, k) as int),
        forall|j: int|
            overlap_up_to(text, marker, k) < j <= k ==> !#[trigger] is_overlap(text, marker, j),
    decreases k,
{
    if k == 0 {
        assert(text.subrange(text.len() as int, text.len() as int) =~= marker.subrange(0, 0));
    } else if is_overlap(text, marker, k as int) {
    } else {
        lemma_overlap_up_to(text, marker, (k - 1) as nat);
    }
}

/// What `overlap` says: it is an overlap, and no other is longer.
pub proof fn lemma_overlap(text: Seq<char>, marker: Seq<char>)
    ensures
        overlap(text, marker) <= text.len(),
        overlap(text, marker) <= marker.len(),
        is_overlap(text, marker, overlap(text, marker) as int),
        forall|j: int|
            overlap(text, marker) < j ==> !#[trigger] is_overlap(text, marker, j),
{
    lemma_overlap_up_to(
        text,
        marker,
        if text.len() < marker.len() {
            text.len()
        } else {
            marker.len()
        },
    );
}

/// An overlap that no other exceeds is what `overlap` gives.
pub proof fn lemma_overlap_is(text: Seq<char>, marker: Seq<char>, k: int)
    requires
        is_overlap(text, marker, k),
        forall|j: int| k < j ==> !#[trigger] is_overlap(text, marker, j),
    ensures
        overlap(text, marker) == k,
{
    lemma_overlap(text, marker);
    let o = overlap(text, marker) as int;
    if o < k {
        assert(!is_overlap(text, marker, k));
    } else if k < o {
        assert(!is_overlap(text, marker, o));
    }
}

/// More text behind an occurrence does not move it.
pub proof fn lemma_find_from_extend(
    text: Seq<char>,
    more: Seq<char>,
    pattern: Seq<char>,
    from: int,
)
    requires
        0 <= from,
        find_from(text, pattern, from) is Some,
    ensures
        find_from(text + more, pattern, from) == find_from(text, pattern, from),
{
    lemma_find_from(text, pattern, from);
    let p = find_from(text, pattern, from)->0;
    assert((text + more).subrange(p, p + pattern.len()) =~= text.subrange(p, p + pattern.len()));
    assert forall|i: int| from <= i < p implies !#[trigger] occurs_at(text + more, pattern, i) by {
        assert((text + more).subrange(i, i + pattern.len()) =~= text.subrange(
            i,
            i + pattern.len(),
        ));
        assert(!occurs_at(text, pattern, i));
    }
    lemma_find_is(text + more, pattern, from, p);
}

/// More text behind the first occurrence does not move it.
pub proof fn lemma_find_extend(text: Seq<char>, more: Seq<char>, pattern: Seq<char>)
    requires
        find(text, pattern) is Some,
    ensures
        find(text + more, pattern) == find(text, pattern),
{
    lemma_find_from_extend(text, more, pattern, 0);
}

/// A text without the marker, cut where its overlap with the marker begins:
/// whatever follows, the marker is found in the kept-back part and what
/// follows it, or not at all.
pub proof fn lemma_find_across(text: Seq<char>, more: Seq<char>, marker: Seq<char>)
    requires
        find(text, marker) is None,
    ensures
        ({
            let cut = text.len() - overlap(text, marker);
            match find(text.skip(cut) + more, marker) {
                Some(q) => find(text + more, marker) == Some(q + cut),
                None => find(text + more, marker) is None,
            }
        }),
{
    let cut = text.len() - overlap(text, marker);
    let kept = text.skip(cut) + more;
    let whole = text + more;
    lemma_overlap(text, marker);
    lemma_find_from(text, marker, 0);
    lemma_find_from(kept, marker, 0);
    lemma_find_from(whole, marker, 0);
    assert forall|i: int| 0 <= i < cut implies !#[trigger] occurs_at(whole, marker, i) by {
        if occurs_at(whole, marker, i) {
            if i + marker.len() <= text.len() {
                assert(text.subrange(i, i + marker.len()) =~= whole.subrange(
                    i,
                    i + marker.len(),
                ));
                assert(occurs_at(text, marker, i));
            } else {
                let k = text.len() - i;
                assert(text.subrange(i, text.len() as int) =~= whole.subrange(
                    i,
                    i + marker.len(),
                ).subrange(0, k));
                assert(is_overlap(text, marker, k));
            }
        }
    }
    assert forall|i: int| cut <= i implies #[trigger] occurs_at(whole, marker, i) == occurs_at(
        kept,
        marker,
        i - cut,
    ) by {
        if i + marker.len() <= whole.len() {
            assert(whole.subrange(i, i + marker.len()) =~= kept.subrange(
                i - cut,
                i - cut + marker.len(),
            ));
        }
    }
    match find(kept, marker) {
        Some(q) => {
            assert(occurs_at(whole, marker, q + cut));
            assert forall|i: int| 0 <= i < q + cut implies !#[trigger] occurs_at(
                whole,
                marker,
                i,
            ) by {
                if cut <= i {
                    assert(!occurs_at(kept, marker, i - cut));
                }
            }
            lemma_find_is(whole, marker, 0, q + cut);
        },
        None => {
            if let Some(p) = find(whole, marker) {
                assert(occurs_at(kept, marker, p - cut));
            }
        },
    }
}

/// A text without the marker, cut where its overlap with the marker begins:
/// the overlap of any longer text lies in the kept-back part and what follows.
pub proof fn lemma_overlap_across(text: Seq<char>, more: Seq<char>, marker: Seq<char>)
    ensures
        overlap(text + more, marker) == overlap(
            text.skip(text.len() - overlap(text, marker)) + more,
            marker,
        ),
{
    let cut = text.len() - overlap(text, marker);
    let kept = text.skip(cut) + more;
    let whole = text + more;
    lemma_overlap(text, marker);
    lemma_overlap(kept, marker);
    let k = overlap(kept, marker) as int;
    assert(whole.subrange(whole.len() - k, whole.len() as int) =~= kept.subrange(
        kept.len() - k,
        kept.len() as int,
    ));
    assert forall|j: int| k < j implies !#[trigger] is_overlap(whole, marker, j) by {
        if is_overlap(whole, marker, j) {
            if j <= kept.len() {
                assert(whole.subrange(whole.len() - j, whole.len() as int) =~= kept.subrange(
                    kept.len() - j,
                    kept.len() as int,
                ));
                assert(is_overlap(kept, marker, j));
            } else {
                let start = whole.len() - j;
                let in_text = text.len() - start;
                assert(text.subrange(start, text.len() as int) =~= whole.subrange(
                    start,
                    whole.len() as int,
                ).subrange(0, in_text));
                assert(marker.subrange(0, j).subrange(0, in_text) =~= marker.subrange(0, in_text));
                assert(is_overlap(text, marker, in_text));
            }
        }
    }
    lemma_overlap_is(whole, marker, k);
}

/// A text that the marker's first character does not occur in holds neither
/// the marker nor the beginning of one.
pub proof fn lemma_no_marker(text: Seq<char>, marker: Seq<char>)
    requires
        marker.len() > 0,
        !text.contains(marker[0]),
    ensures
        find(text, marker) is None,
        overlap(text, marker) == 0,
{
    lemma_find_from(text, marker, 0);
    lemma_overlap(text, marker);
    if let Some(p) = find(text, marker) {
        assert(text.subrange(p, p + marker.len())[0] == text[p]);
    }
    let k = overlap(text, marker) as int;
    if k > 0 {
        assert(text.subrange(text.len() - k, text.len() as int)[0] == text[text.len() - k]);
        assert(marker.subrange(0, k)[0] == marker[0]);
    }
}

/// The characters of a string.
pub fn to_chars(s: &str) -> (chars: Vec<char>)
    ensures
        chars@ == s@,
{
    let mut chars: Vec<char> = Vec::new();
    for c in it: s.chars()
        invariant
            it.seq() == s@,
            chars@ == s@.take(it.index() as int),
    {
        chars.push(c);
    }
    assert(s@.take(s@.len() as int) == s@);
    chars
}

/// The string made of the given characters.
pub fn from_chars(chars: &[char]) -> (s: String)
    ensures
        s@ == chars@,
{
    let mut s = String::new();
    let n = chars.len();
    let mut i: usize = 0;
    while i < n
        invariant
            n == chars@.len(),
            i <= n,
            s@ == chars@.take(i as int),
        decreases n - i,
    {
        s.push(chars[i]);
        i = i + 1;
    }
    assert(chars@.take(n as int) == chars@);
    s
}

/// A text has at least as many bytes as characters.
proof fn lemma_utf8_len(chars: Seq<char>)
    ensures
        vstd::utf8::encode_utf8(chars).len() >= chars.len(),
    decreases chars.len(),
{
    if chars.len() > 0 {
        lemma_utf8_len(chars.drop_first());
    }
}

/// The characters of a string can be counted: they are no more than the bytes
/// of a slice.
pub fn count_bound(s: &str) -> (bytes: usize)
    ensures
        s@.len() <= bytes,
{
    proof {
        lemma_utf8_len(s@);
    }
    s.as_bytes().len()
}

/// Whether two slices hold the same characters.
pub fn same_chars(a: &[char], b: &[char]) -> (same: bool)
    ensures
        same == (a@ == b@),
{
    if a.len() != b.len() {
        return false;
    }
    let n = a.len();
    let mut i: usize = 0;
    while i < n
        invariant
            n == a@.len(),
            n == b@.len(),
            i <= n,
            a@.take(i as int) == b@.take(i as int),
        decreases n - i,
    {
        if a[i] != b[i] {
            assert(a@ != b@);
            return false;
        }
        i = i + 1;
        assert(a@.take(i as int) =~= a@.take(i - 1).push(a@[i - 1]));
        assert(b@.take(i as int) =~= b@.take(i - 1).push(b@[i - 1]));
    }
    assert(a@.take(n as int) == a@);
    assert(b@.take(n as int) == b@);
    true
}

/// Whether two strings are the same text.
pub fn same_text(a: &str, b: &str) -> (same: bool)
    ensures
        same == (a@ == b@),
{
    same_chars(to_chars(a).as_slice(), to_chars(b).as_slice())
}

/// Whether `pattern` stands in `text` at position `at`.
pub fn occurs_here(text: &[char], pattern: &[char], at: usize) -> (found: bool)
    requires
        at <= text@.len(),
    ensures
        found == occurs_at(text@, pattern@, at as int),
{
    if pattern.len() > text.len() - at {
        return false;
    }
    same_chars(vstd::slice::slice_subrange(text, at, at + pattern.len()), pattern)
}

/// Position of the first occurrence of `pattern` in `text` at or after `from`.
pub fn find_chars(text: &[char], pattern: &[char], from: usize) -> (found: Option<usize>)
    requires
        from <= text@.len(),
    ensures
        match found {
            Some(p) => find_from(text@, pattern@, from as int) == Some(p as int),
            None => find_from(text@, pattern@, from as int) is None,
        },
{
    let mut at: usize = from;
    while pattern.len() <= text.len() - at
        invariant
            from <= at <= text@.len(),
            find_from(text@, pattern@, from as int) == find_from(text@, pattern@, at as int),
        decreases text@.len() - at,
    {
        if occurs_here(text, pattern, at) {
            return Some(at);
        }
        if at == text.len() {
            // Only the empty pattern fits here, and it would have occurred.
            assert(text@.subrange(at as int, at as int) =~= pattern@);
            return None;
        }
        at = at + 1;
    }
    None
}

/// Length of the longest suffix of `text` that is a prefix of `marker`.
pub fn overlap_len(text: &[char], marker: &[char]) -> (k: usize)
    ensures
        k == overlap(text@, marker@),
        k <= text@.len(),
{
    let mut k: usize = if text.len() < marker.len() {
        text.len()
    } else {
        marker.len()
    };
    while k > 0
        invariant
            k <= text@.len(),
            k <= marker@.len(),
            overlap(text@, marker@) == overlap_up_to(text@, marker@, k as nat),
        decreases k,
    {
        let tail = vstd::slice::slice_subrange(text, text.len() - k, text.len());
        if same_chars(tail, vstd::slice::slice_subrange(marker, 0, k)) {
            return k;
        }
        k = k - 1;
    }
    0
}

/// Whether `c` is white space.
pub fn white(c: char) -> (w: bool)
    ensures
        w == is_white(c),
{
    ('\u{9}' <= c && c <= '\u{d}') || c == '\u{20}' || c == '\u{85}' || c == '\u{a0}'
        || c == '\u{1680}' || ('\u{2000}' <= c && c <= '\u{200a}') || c == '\u{2028}'
        || c == '\u{2029}' || c == '\u{202f}' || c == '\u{205f}' || c == '\u{3000}'
}

/// Where `skip_white` stops: white space up to there, none at it.
pub proof fn lemma_skip_white(text: Seq<char>, from: int)
    requires
        0 <= from <= text.len(),
    ensures
        from <= skip_white(text, from) <= text.len(),
        forall|i: int| from <= i < skip_white(text, from) ==> is_white(#[trigger] text[i]),
        skip_white(text, from) < text.len() ==> !is_white(text[skip_white(text, from)]),
    decreases text.len() - from,
{
    if from < text.len() && is_white(text[from]) {
        lemma_skip_white(text, from + 1);
    }
}

/// White space in a text that follows another is skipped as in that text.
pub proof fn lemma_skip_white_shift(text: Seq<char>, more: Seq<char>, from: int)
    requires
        0 <= from <= more.len(),
    ensures
        skip_white(text + more, text.len() + from) == text.len() + skip_white(more, from),
    decreases more.len() - from,
{
    if from < more.len() && is_white(more[from]) {
        lemma_skip_white_shift(text, more, from + 1);
    }
}

/// More text moves the end of white space only where the text ends in it.
pub proof fn lemma_skip_white_extend(text: Seq<char>, more: Seq<char>, from: int)
    requires
        0 <= from <= text.len(),
    ensures
        skip_white(text, from) < text.len() ==> skip_white(text + more, from) == skip_white(
            text,
            from,
        ),
        skip_white(text, from) == text.len() ==> skip_white(text + more, from) == text.len()
            + skip_white(more, 0),
    decreases text.len() - from,
{
    if from < text.len() {
        if is_white(text[from]) {
            lemma_skip_white_extend(text, more, from + 1);
        }
    } else {
        lemma_skip_white_shift(text, more, 0);
    }
}

/// First position at or after `from` that does not hold white space.
pub fn skip_white_from(text: &[char], from: usize) -> (at: usize)
    requires
        from <= text@.len(),
    ensures
        at == skip_white(text@, from as int),
        from <= at <= text@.len(),
{
    let mut at: usize = from;
    while at < text.len() && white(text[at])
        invariant
            from <= at <= text@.len(),
            skip_white(text@, from as int) == skip_white(text@, at as int),
        decreases text@.len() - at,
    {
        at = at + 1;
    }
    at
}

/// `text` without its leading white space.
pub fn trim_start_chars(text: &[char]) -> (r: &[char])
    ensures
        r@ == trim_start(text@),
{
    let at = skip_white_from(text, 0);
    vstd::slice::slice_subrange(text, at, text.len())
}

/// `text` without its trailing white space.
pub fn trim_end_chars(text: &[char]) -> (r: &[char])
    ensures
        r@ == trim_end(text@),
{
    let mut end: usize = text.len();
    assert(text@.take(end as int) == text@);
    while end > 0 && white(text[end - 1])
        invariant
            end <= text@.len(),
            trim_end(text@) == trim_end(text@.take(end as int)),
        decreases end,
    {
        assert(text@.take(end as int).drop_last() =~= text@.take(end - 1));
        end = end - 1;
    }
    let r = vstd::slice::slice_subrange(text, 0, end);
    assert(r@ == text@.take(end as int));
    r
}

/// `text` without the white space around it.
pub fn trim_chars(text: &[char]) -> (r: &[char])
    ensures
        r@ == trim(text@),
{
    trim_end_chars(trim_start_chars(text))
}

/// Whether every character of `text` is white space.
pub fn only_white(text: &[char]) -> (w: bool)
    ensures
        w == all_white(text@),
{
    let at = skip_white_from(text, 0);
    proof {
        lemma_skip_white(text@, 0);
    }
    at == text.len()
}

/// The decimal digit for a value below ten.
fn digit_char(d: u64) -> (c: char)
    requires
        d < 10,
    ensures
        c == digit(d as int),
{
    if d == 0 { '0' } else if d == 1 { '1' } else if d == 2 { '2' } else if d == 3 { '3' }
    else if d == 4 { '4' } else if d == 5 { '5' } else if d == 6 { '6' } else if d == 7 { '7' }
    else if d == 8 { '8' } else { '9' }
}

/// `n` in decimal, without leading zeros.
pub fn decimal_text(n: u64) -> (s: String)
    ensures
        s@ == decimal(n as nat),
    decreases n,
{
    if n < 10 {
        let mut s = String::new();
        s.push(digit_char(n));
        assert(s@ =~= seq![digit(n as int)]);
        s
    } else {
        let mut s = decimal_text(n / 10);
        s.push(digit_char(n % 10));
        s
    }
}

/// Whether `text` begins with `prefix`.
pub fn begins_with(text: &[char], prefix: &[char]) -> (begins: bool)
    ensures
        begins == starts_with(text@, prefix@),
{
    occurs_here(text, prefix, 0)
}

/// The pieces of `text` between the separators.
pub fn split_chars<'a>(text: &'a [char], separator: char) -> (pieces: Vec<&'a [char]>)
    ensures
        pieces@.map_values(|piece: &'a [char]| piece@) == split(text@, separator),
        pieces@.len() > 0,
{
    let mark: [char; 1] = [separator];
    assert(mark@ =~= seq![separator]);
    let mut pieces: Vec<&'a [char]> = Vec::new();
    let mut rest: &'a [char] = text;
    let ghost view = |piece: &'a [char]| piece@;
    assert(pieces@.map_values(view) + split(rest@, separator) =~= split(text@, separator));
    loop
        invariant
            mark@ == seq![separator],
            view == (|piece: &'a [char]| piece@),
            pieces@.map_values(view) + split(rest@, separator) == split(text@, separator),
        decreases rest@.len(),
    {
        let n = rest.len();
        proof {
            lemma_find_from(rest@, mark@, 0);
        }
        match find_chars(rest, &mark, 0) {
            Some(at) => {
                let ghost before = pieces@.map_values(view);
                let piece = vstd::slice::slice_subrange(rest, 0, at);
                let tail = vstd::slice::slice_subrange(rest, at + 1, n);
                assert(piece@ =~= rest@.take(at as int));
                assert(tail@ =~= rest@.skip(at + 1));
                pieces.push(piece);
                assert(pieces@.map_values(view) =~= before.push(piece@));
                assert(before.push(piece@) + split(tail@, separator) =~= before + (seq![piece@]
                    + split(tail@, separator)));
                rest = tail;
            },
            None => {
                let ghost before = pieces@.map_values(view);
                pieces.push(rest);
                assert(pieces@.map_values(view) =~= before.push(rest@));
                assert(before.push(rest@) =~= before + seq![rest@]);
                return pieces;
            },
        }
    }
}

/// The number that a text of decimal digits stands for, if it is one and no
/// more than `u32::MAX`.
pub fn number_of(text: &[char]) -> (n: Option<u32>)
    ensures
        match n {
            Some(n) => is_number(text@) && number(text@) == n,
            None => !is_number(text@) || number(text@) > u32::MAX,
        },
{
    if text.len() == 0 {
        return None;
    }
    let mut n: u64 = 0;
    let mut i: usize = 0;
    let mut too_big = false;
    assert(text@.take(0) =~= Seq::empty());
    while i < text.len()
        invariant
            i <= text@.len(),
            forall|j: int| 0 <= j < i ==> is_digit(#[trigger] text@[j]),
            too_big ==> number(text@.take(i as int)) > u32::MAX,
            !too_big ==> number(text@.take(i as int)) == n && n <= u32::MAX,
        decreases text@.len() - i,
    {
        let c = text[i];
        if c < '0' || '9' < c {
            return None;
        }
        assert(text@.take(i + 1).drop_last() =~= text@.take(i as int));
        if !too_big {
            n = n * 10 + (c as u32 - '0' as u32) as u64;
            too_big = n > 0xFFFF_FFFF;
        }
        i = i + 1;
    }
    assert(text@.take(i as int) =~= text@);
    if too_big {
        None
    } else {
        Some(n as u32)
    }
}

} // verus!
