//! Where a JSON object ends in a stream of text: its braces, apart from those
//! inside strings, balance.

use vstd::prelude::*;

verus! {

/// What has been seen of an object.
#[verifier::ext_equal]
pub struct Braces {
    /// How many braces are open.
    pub depth: nat,
    /// Whether a string is open.
    pub in_string: bool,
    /// Whether the next character of the string is escaped by a backslash.
    pub escaped: bool,
}

impl Braces {
    /// Nothing has been seen.
    pub open spec fn none() -> Braces {
        Braces { depth: 0, in_string: false, escaped: false }
    }

    /// Whether a character balances the braces.
    pub open spec fn balanced_by(self, c: char) -> bool {
        !self.in_string && c == '}' && self.depth <= 1
    }

    /// One more character.
    pub open spec fn after(self, c: char) -> Braces {
        if self.in_string {
            if self.escaped {
                Braces { escaped: false, ..self }
            } else if c == '\\' {
                Braces { escaped: true, ..self }
            } else if c == '"' {
                Braces { in_string: false, ..self }
            } else {
                self
            }
        } else if c == '"' {
            Braces { in_string: true, escaped: false, ..self }
        } else if c == '{' {
            Braces { depth: self.depth + 1, ..self }
        } else if c == '}' && self.depth > 0 {
            Braces { depth: (self.depth - 1) as nat, ..self }
        } else {
            self
        }
    }
}

/// Position behind the brace that balances the open braces and those of the
/// text from `from` on.
pub open spec fn balance_from(text: Seq<char>, open: Braces, from: int) -> Option<int>
    decreases text.len() - from,
{
    if from < 0 || from >= text.len() {
        None
    } else if open.balanced_by(text[from]) {
        Some(from + 1)
    } else {
        balance_from(text, open.after(text[from]), from + 1)
    }
}

/// What has been seen behind a text, read from `from` on.
pub open spec fn braces_from(text: Seq<char>, open: Braces, from: int) -> Braces
    decreases text.len() - from,
{
    if from < 0 || from >= text.len() {
        open
    } else {
        braces_from(text, open.after(text[from]), from + 1)
    }
}

/// Whether a text is one object: it begins with a brace, and its braces balance
/// at its end.
pub open spec fn is_object(text: Seq<char>) -> bool {
    &&& text.len() > 0
    &&& text[0] == '{'
    &&& balance_from(text, Braces::none(), 0) == Some(text.len() as int)
}

/// A position that is counted from further back.
pub open spec fn shifted(pos: Option<int>, by: int) -> Option<int> {
    match pos {
        Some(p) => Some(p + by),
        None => None,
    }
}

/// Where braces balance lies inside the text.
pub proof fn lemma_balance_bounds(text: Seq<char>, open: Braces, from: int)
    ensures
        balance_from(text, open, from) matches Some(end) ==> from < end <= text.len(),
    decreases text.len() - from,
{
    if 0 <= from < text.len() && !open.balanced_by(text[from]) {
        lemma_balance_bounds(text, open.after(text[from]), from + 1);
    }
}

/// Braces in a text that follows another balance as in that text.
proof fn lemma_balance_shift(text: Seq<char>, more: Seq<char>, open: Braces, from: int)
    requires
        0 <= from <= more.len(),
    ensures
        balance_from(text + more, open, text.len() + from) == shifted(
            balance_from(more, open, from),
            text.len() as int,
        ),
        braces_from(text + more, open, text.len() + from) == braces_from(more, open, from),
    decreases more.len() - from,
{
    if from < more.len() {
        lemma_balance_shift(text, more, open.after(more[from]), from + 1);
    }
}

/// Braces of a text in two parts balance in the first part, or in the second
/// with what the first left open.
pub proof fn lemma_balance_extend(text: Seq<char>, more: Seq<char>, open: Braces, from: int)
    requires
        0 <= from <= text.len(),
    ensures
        match balance_from(text, open, from) {
            Some(end) => balance_from(text + more, open, from) == Some(end),
            None => {
                let left = braces_from(text, open, from);
                &&& balance_from(text + more, open, from) == shifted(
                    balance_from(more, left, 0),
                    text.len() as int,
                )
                &&& braces_from(text + more, open, from) == braces_from(more, left, 0)
            },
        },
    decreases text.len() - from,
{
    if from < text.len() {
        if !open.balanced_by(text[from]) {
            lemma_balance_extend(text, more, open.after(text[from]), from + 1);
        }
    } else {
        lemma_balance_shift(text, more, open, 0);
    }
}

/// Counts the braces of an object as it arrives.
#[derive(Debug, Clone, Copy)]
pub struct BraceCounter {
    depth: usize,
    in_string: bool,
    escaped: bool,
}

impl View for BraceCounter {
    type V = Braces;

    closed spec fn view(&self) -> Braces {
        Braces { depth: self.depth as nat, in_string: self.in_string, escaped: self.escaped }
    }
}

impl BraceCounter {
    /// A counter that has seen nothing.
    pub fn new() -> (b: Self)
        ensures
            b@ == Braces::none(),
    {
        BraceCounter { depth: 0, in_string: false, escaped: false }
    }

    /// Whether a character balances the braces.
    pub fn is_balanced_by(&self, c: char) -> (balanced: bool)
        ensures
            balanced == self@.balanced_by(c),
    {
        !self.in_string && c == '}' && self.depth <= 1
    }

    /// Take one more character.
    pub fn advance(&mut self, c: char)
        requires
            old(self)@.depth < usize::MAX,
        ensures
            final(self)@ == old(self)@.after(c),
    {
        if self.in_string {
            if self.escaped {
                self.escaped = false;
            } else if c == '\\' {
                self.escaped = true;
            } else if c == '"' {
                self.in_string = false;
            }
        } else if c == '"' {
            self.in_string = true;
            self.escaped = false;
        } else if c == '{' {
            self.depth = self.depth + 1;
        } else if c == '}' && self.depth > 0 {
            self.depth = self.depth - 1;
        }
    }
}

/// How often a character stands in a text.
pub open spec fn times(text: Seq<char>, c: char) -> nat
    decreases text.len(),
{
    if text.len() == 0 {
        0
    } else {
        times(text.drop_first(), c) + (if text[0] == c {
            1nat
        } else {
            0nat
        })
    }
}

/// Reading a text in two parts is reading the one and then the other.
pub proof fn law_reading_in_parts(a: Seq<char>, b: Seq<char>, open: Braces)
    ensures
        braces_from(a + b, open, 0) == braces_from(b, braces_from(a, open, 0), 0),
{
    lemma_read(a, b, open, 0);
}

proof fn lemma_read(a: Seq<char>, b: Seq<char>, open: Braces, from: int)
    requires
        0 <= from <= a.len(),
    ensures
        braces_from(a + b, open, from) == braces_from(b, braces_from(a, open, from), 0),
    decreases a.len() - from,
{
    if from < a.len() {
        lemma_read(a, b, open.after(a[from]), from + 1);
    } else {
        lemma_balance_shift(a, b, open, 0);
    }
}

/// Outside strings, text without quotation marks opens as many braces as it has
/// opening ones and closes as many as it has closing ones, as long as enough are
/// open.
pub proof fn law_braces_count(text: Seq<char>, open: Braces)
    requires
        !open.in_string,
        !text.contains('"'),
        open.depth >= times(text, '}'),
    ensures
        braces_from(text, open, 0).depth == open.depth + times(text, '{') - times(text, '}'),
        !braces_from(text, open, 0).in_string,
        open.depth > times(text, '}') ==> balance_from(text, open, 0) is None,
    decreases text.len(),
{
    if text.len() > 0 {
        let head = seq![text[0]];
        let tail = text.drop_first();
        assert(head + tail =~= text);
        assert(!tail.contains('"')) by {
            if tail.contains('"') {
                let i = choose|i: int| 0 <= i < tail.len() && tail[i] == '"';
                assert(text[i + 1] == '"');
            }
        }
        assert(text.contains(text[0]));
        reveal_with_fuel(braces_from, 2);
        reveal_with_fuel(balance_from, 2);
        assert(braces_from(head, open, 0) == open.after(text[0]));
        law_reading_in_parts(head, tail, open);
        law_braces_count(tail, open.after(text[0]));
        lemma_balance_extend(head, tail, open, 0);
    }
}

/// A string does not count, whatever braces it holds: behind it, what was open is
/// open, and nothing balances inside. Its text has no quotation mark and no
/// backslash here.
pub proof fn law_strings_do_not_count(text: Seq<char>, open: Braces)
    requires
        !open.in_string,
        !open.escaped,
        !text.contains('"'),
        !text.contains('\\'),
    ensures
        braces_from(seq!['"'] + text + seq!['"'], open, 0) == open,
        balance_from(seq!['"'] + text + seq!['"'], open, 0) is None,
{
    let quote = seq!['"'];
    let inside = Braces { in_string: true, ..open };
    reveal_with_fuel(braces_from, 2);
    reveal_with_fuel(balance_from, 2);
    assert(braces_from(quote, open, 0) == inside);
    assert(balance_from(quote, open, 0) is None);
    lemma_string_text(text, inside);
    assert(braces_from(quote, inside, 0) == open);
    assert(balance_from(quote, inside, 0) is None);
    law_reading_in_parts(quote + text, quote, open);
    law_reading_in_parts(quote, text, open);
    lemma_balance_extend(quote, text, open, 0);
    lemma_balance_extend(quote + text, quote, open, 0);
}

/// Inside a string, text without quotation marks and backslashes changes nothing.
proof fn lemma_string_text(text: Seq<char>, open: Braces)
    requires
        open.in_string,
        !open.escaped,
        !text.contains('"'),
        !text.contains('\\'),
    ensures
        braces_from(text, open, 0) == open,
        balance_from(text, open, 0) is None,
    decreases text.len(),
{
    if text.len() > 0 {
        let init = text.drop_last();
        let last = seq![text.last()];
        assert(init + last =~= text);
        assert(text[text.len() - 1] == text.last());
        assert(text.contains(text.last()));
        assert forall|c: char| init.contains(c) implies text.contains(c) by {
            let i = choose|i: int| 0 <= i < init.len() && init[i] == c;
            assert(text[i] == c);
        }
        lemma_string_text(init, open);
        reveal_with_fuel(braces_from, 2);
        reveal_with_fuel(balance_from, 2);
        law_reading_in_parts(init, last, open);
        lemma_balance_extend(init, last, open, 0);
    }
}

/// Inside a string, a backslash and the character behind it, whichever it is, change
/// nothing.
pub proof fn law_escapes_do_not_count(c: char, open: Braces)
    requires
        open.in_string,
        !open.escaped,
    ensures
        braces_from(seq!['\\', c], open, 0) == open,
        balance_from(seq!['\\', c], open, 0) is None,
{
    reveal_with_fuel(braces_from, 3);
    reveal_with_fuel(balance_from, 3);
    let text = seq!['\\', c];
    assert(text[0] == '\\' && text[1] == c);
    let one = open.after('\\');
    assert(one == Braces { escaped: true, ..open });
    assert(one.after(c) == open);
}

/// Braces balance at the brace that closes the last open one, and there alone.
pub proof fn law_last_brace_balances(c: char, open: Braces)
    ensures
        open.balanced_by(c) <==> !open.in_string && c == '}' && open.depth <= 1,
        balance_from(seq![c], open, 0) is Some <==> open.balanced_by(c),
        Braces::none().depth == 0 && !Braces::none().in_string && !Braces::none().escaped,
{
    reveal_with_fuel(balance_from, 2);
}

} // verus!
