//! Splitting a string into tokens while keeping quoted stretches together.
//!
//! A `QuoteSplit` walks a borrowed string and hands out one token per call of
//! `next`. Separator characters outside quotes end a token; each symbol
//! character (typically a quote) toggles the quote state and separators
//! inside quotes are kept. With an empty separator set every call returns a
//! single character.

use vstd::prelude::*;

verus! {

/// The separators used by `split_space_keep_symbol`: the common whitespace
/// characters.
pub open spec fn common_whitespace() -> Seq<char> {
    seq![' ', '\t', '\n', '\r', '\u{B}', '\u{C}']
}

/// The first position at or after `pos` that does not carry a separator (or
/// the end of the text).
pub open spec fn skip_separators(text: Seq<char>, split: Seq<char>, pos: int) -> int
    decreases text.len() - pos,
{
    if pos < 0 || pos >= text.len() {
        pos
    } else if split.contains(text[pos]) {
        skip_separators(text, split, pos + 1)
    } else {
        pos
    }
}

/// Where the token that starts at `pos` ends, with `q` the current quote
/// state: a symbol character toggles `q`, a separator outside quotes ends
/// the token, everything else extends it.
pub open spec fn token_end(text: Seq<char>, split: Seq<char>, symbols: Seq<char>, pos: int, q: bool) -> int
    decreases text.len() - pos,
{
    if pos < 0 || pos >= text.len() {
        pos
    } else if symbols.contains(text[pos]) {
        token_end(text, split, symbols, pos + 1, !q)
    } else if !q && split.contains(text[pos]) {
        pos
    } else {
        token_end(text, split, symbols, pos + 1, q)
    }
}

/// The bounds of the next token when scanning starts at `pos`: first the
/// separators are skipped, then the token runs to its end. `None` when only
/// separators remain. With no separators at all, the token is one character.
pub open spec fn next_token_range(
    text: Seq<char>,
    split: Seq<char>,
    symbols: Seq<char>,
    pos: int,
) -> Option<(int, int)> {
    if pos >= text.len() {
        None
    } else {
        let start = skip_separators(text, split, pos);
        if start >= text.len() {
            None
        } else if split.len() == 0 {
            Some((start, start + 1))
        } else {
            Some((start, token_end(text, split, symbols, start, false)))
        }
    }
}

/// The scan position after one call of `next` that started at `pos`.
pub open spec fn position_after_next(
    text: Seq<char>,
    split: Seq<char>,
    symbols: Seq<char>,
    pos: int,
) -> int {
    if pos >= text.len() {
        pos
    } else {
        match next_token_range(text, split, symbols, pos) {
            None => text.len() as int,
            Some(r) => r.1,
        }
    }
}

pub proof fn lemma_skip_separators_bounds(text: Seq<char>, split: Seq<char>, pos: int)
    requires
        0 <= pos <= text.len(),
    ensures
        pos <= skip_separators(text, split, pos) <= text.len(),
        skip_separators(text, split, pos) < text.len() ==> !split.contains(
            text[skip_separators(text, split, pos)],
        ),
    decreases text.len() - pos,
{
    if pos < text.len() && split.contains(text[pos]) {
        lemma_skip_separators_bounds(text, split, pos + 1);
    }
}

pub proof fn lemma_token_end_bounds(
    text: Seq<char>,
    split: Seq<char>,
    symbols: Seq<char>,
    pos: int,
    q: bool,
)
    requires
        0 <= pos <= text.len(),
    ensures
        pos <= token_end(text, split, symbols, pos, q) <= text.len(),
        pos < text.len() && !(!q && split.contains(text[pos])) ==> token_end(
            text,
            split,
            symbols,
            pos,
            q,
        ) > pos,
    decreases text.len() - pos,
{
    if pos < text.len() {
        if symbols.contains(text[pos]) {
            lemma_token_end_bounds(text, split, symbols, pos + 1, !q);
        } else if !q && split.contains(text[pos]) {
        } else {
            lemma_token_end_bounds(text, split, symbols, pos + 1, q);
        }
    }
}

/// All the tokens that repeated calls of `next` would hand out from
/// position `pos` on, in order.
pub open spec fn remaining_tokens(
    text: Seq<char>,
    split: Seq<char>,
    symbols: Seq<char>,
    pos: int,
) -> Seq<Seq<char>>
    decreases text.len() - pos,
    when 0 <= pos <= text.len()
{
    match next_token_range(text, split, symbols, pos) {
        None => Seq::empty(),
        Some(range) => {
            proof {
                lemma_skip_separators_bounds(text, split, pos);
                lemma_token_end_bounds(
                    text,
                    split,
                    symbols,
                    skip_separators(text, split, pos),
                    false,
                );
            }
            seq![text.subrange(range.0, range.1)] + remaining_tokens(
                text,
                split,
                symbols,
                position_after_next(text, split, symbols, pos),
            )
        },
    }
}

/// One `next` step peels the first remaining token off.
pub proof fn lemma_remaining_tokens_step(
    text: Seq<char>,
    split: Seq<char>,
    symbols: Seq<char>,
    pos: int,
)
    requires
        0 <= pos <= text.len(),
    ensures
        (match next_token_range(text, split, symbols, pos) {
            None => remaining_tokens(text, split, symbols, pos) == Seq::<Seq<char>>::empty(),
            Some(range) => {
                &&& 0 <= range.0 < range.1 <= text.len()
                &&& pos < position_after_next(text, split, symbols, pos) <= text.len()
                &&& remaining_tokens(text, split, symbols, pos) == seq![
                    text.subrange(range.0, range.1),
                ] + remaining_tokens(
                    text,
                    split,
                    symbols,
                    position_after_next(text, split, symbols, pos),
                )
            },
        }),
{
    if next_token_range(text, split, symbols, pos) is Some {
        lemma_skip_separators_bounds(text, split, pos);
        lemma_token_end_bounds(text, split, symbols, skip_separators(text, split, pos), false);
    }
}

/// Returns whether `c` occurs in `cs`.
fn contains_char(cs: &Vec<char>, c: char) -> (r: bool)
    ensures
        r == cs@.contains(c),
{
    let mut i: usize = 0;
    while i < cs.len()
        invariant
            i <= cs@.len(),
            forall|j: int| 0 <= j < i ==> cs@[j] != c,
        decreases cs@.len() - i,
    {
        if cs[i] == c {
            return true;
        }
        i = i + 1;
    }
    false
}

/// Collects the characters of `s` into a vector.
fn chars_vec(s: &str) -> (r: Vec<char>)
    ensures
        r@ == s@,
{
    let n = s.unicode_len();
    let mut r: Vec<char> = Vec::new();
    let mut i: usize = 0;
    while i < n
        invariant
            i <= n,
            n == s@.len(),
            r@ == s@.take(i as int),
        decreases n - i,
    {
        let c = s.get_char(i);
        r.push(c);
        proof {
            assert(r@ =~= s@.take(i + 1));
        }
        i = i + 1;
    }
    proof {
        assert(s@.take(n as int) =~= s@);
    }
    r
}

/// A token scanner over a borrowed string: separators split, symbol
/// characters toggle a quote state that shields separators.
pub struct QuoteSplit<'a> {
    text: &'a str,
    /// The scan position, as a character index into `text`.
    position: usize,
    symbols: Vec<char>,
    split_chars: Vec<char>,
}

impl<'a> QuoteSplit<'a> {
    /// The text being scanned.
    pub closed spec fn spec_text(self) -> Seq<char> {
        self.text@
    }

    /// The separator characters.
    pub closed spec fn spec_split_chars(self) -> Seq<char> {
        self.split_chars@
    }

    /// The quote-toggling characters.
    pub closed spec fn spec_symbols(self) -> Seq<char> {
        self.symbols@
    }

    /// The current scan position (a character index).
    pub closed spec fn spec_position(self) -> int {
        self.position as int
    }

    /// The scan position never runs past the text.
    pub closed spec fn wf(self) -> bool {
        self.position <= self.text@.len()
    }

    /// Creates a scanner over `text` with the given separator and symbol
    /// characters.
    pub fn new(text: &'a str, split_chars: &'a str, symbols: &'a str) -> (r: Self)
        ensures
            r.wf(),
            r.spec_text() == text@,
            r.spec_split_chars() == split_chars@,
            r.spec_symbols() == symbols@,
            r.spec_position() == 0,
    {
        let symbol_set = chars_vec(symbols);
        let split_chars_set = chars_vec(split_chars);
        QuoteSplit { text, position: 0, split_chars: split_chars_set, symbols: symbol_set }
    }

    /// Whether `ch` is one of the separator characters.
    fn is_whitespace(&self, ch: char) -> (r: bool)
        ensures
            r == self.spec_split_chars().contains(ch),
    {
        contains_char(&self.split_chars, ch)
    }

    /// Returns the next token, or `None` when only separators (or nothing)
    /// remain. The token is handed out as a slice of the scanned text.
    pub fn next(&mut self) -> (r: Option<&'a str>)
        requires
            old(self).wf(),
        ensures
            final(self).wf(),
            final(self).spec_text() == old(self).spec_text(),
            final(self).spec_split_chars() == old(self).spec_split_chars(),
            final(self).spec_symbols() == old(self).spec_symbols(),
            final(self).spec_position() == position_after_next(
                old(self).spec_text(),
                old(self).spec_split_chars(),
                old(self).spec_symbols(),
                old(self).spec_position(),
            ),
            match next_token_range(
                old(self).spec_text(),
                old(self).spec_split_chars(),
                old(self).spec_symbols(),
                old(self).spec_position(),
            ) {
                Some(range) => (r matches Some(t) && t@ == old(self).spec_text().subrange(
                    range.0,
                    range.1,
                )),
                None => r is None,
            },
            r is Some ==> final(self).spec_position() > old(self).spec_position(),
    {
        let text = self.text;
        let n = text.unicode_len();
        let ghost t = text@;
        let ghost split = self.split_chars@;
        let ghost symbols = self.symbols@;
        let ghost pos0 = self.position as int;
        if self.position >= n {
            return None;
        }
        // skip leading separators
        while self.position < n
            invariant
                self.text == text,
                self.split_chars@ == split,
                self.symbols@ == symbols,
                t == text@,
                n == t.len(),
                0 <= pos0 <= self.position <= n,
                skip_separators(t, split, pos0) == skip_separators(t, split, self.position as int),
            ensures
                self.text == text,
                self.split_chars@ == split,
                self.symbols@ == symbols,
                pos0 <= self.position <= n,
                skip_separators(t, split, pos0) == self.position as int,
                self.position < n ==> !split.contains(t[self.position as int]),
            decreases n - self.position,
        {
            let c = text.get_char(self.position);
            if !self.is_whitespace(c) {
                break;
            }
            self.position = self.position + 1;
        }
        if self.position >= n {
            return None;
        }
        let start = self.position;
        if self.split_chars.len() == 0 {
            self.position = self.position + 1;
            let token = text.substring_char(start, start + 1);
            return Some(token);
        }
        let ghost gstart = start as int;
        let mut in_quotes = false;
        while self.position < n
            invariant
                self.text == text,
                self.split_chars@ == split,
                self.symbols@ == symbols,
                t == text@,
                n == t.len(),
                split.len() > 0,
                0 <= gstart <= self.position <= n,
                token_end(t, split, symbols, gstart, false) == token_end(
                    t,
                    split,
                    symbols,
                    self.position as int,
                    in_quotes,
                ),
            ensures
                self.text == text,
                self.split_chars@ == split,
                self.symbols@ == symbols,
                gstart <= self.position <= n,
                n == t.len(),
                token_end(t, split, symbols, gstart, false) == self.position as int,
            decreases n - self.position,
        {
            let c = text.get_char(self.position);
            if contains_char(&self.symbols, c) {
                in_quotes = !in_quotes;
                self.position = self.position + 1;
            } else if !in_quotes && contains_char(&self.split_chars, c) {
                break;
            } else {
                self.position = self.position + 1;
            }
        }
        proof {
            lemma_token_end_bounds(t, split, symbols, gstart, false);
        }
        let token = text.substring_char(start, self.position);
        Some(token)
    }
}

/// Returns a scanner that splits `s` at the characters of `split_chars`,
/// keeping stretches between symbol characters together.
pub fn split_keep_symbol<'a>(s: &'a str, split_chars: &'a str, symbol_set: &'a str) -> (r:
    QuoteSplit<'a>)
    ensures
        r.wf(),
        r.spec_text() == s@,
        r.spec_split_chars() == split_chars@,
        r.spec_symbols() == symbol_set@,
        r.spec_position() == 0,
{
    QuoteSplit::new(s, split_chars, symbol_set)
}

/// Returns a scanner that splits `s` at common whitespace, keeping stretches
/// between symbol characters together.
pub fn split_space_keep_symbol<'a>(s: &'a str, symbol_set: &'a str) -> (r: QuoteSplit<'a>)
    ensures
        r.wf(),
        r.spec_text() == s@,
        r.spec_split_chars() == common_whitespace(),
        r.spec_symbols() == symbol_set@,
        r.spec_position() == 0,
{
    let ws = " \t\n\r\x0B\x0C";
    proof {
        reveal_strlit(" \t\n\r\x0B\x0C");
        assert(ws@ =~= common_whitespace());
    }
    split_keep_symbol(s, ws, symbol_set)
}

} // verus!
