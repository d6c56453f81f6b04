//! Selecting words on a page: what is between two carets, what a word and a
//! line around a caret are, and what a range reads as when it is pasted.
//!
//! pdfium answers per character, so a selection is two indices, what it
//! covers is a range of characters, and the order is the document's own.
//! Where a caret lands for a point on the page is a question in the page's
//! own floating-point geometry and is answered outside this library.

use vstd::prelude::*;
use crate::render::PageText;
use crate::text::{is_white, is_whitespace, push_char, string_of, trim, trimmed};
use crate::unicode::{alphanumeric, is_alphanumeric};

verus! {

/// One end of a selection: a page, one-based, and a caret in its text, which
/// sits *between* characters and so runs 0..=len.
#[derive(Clone, Copy, Debug, PartialEq, Eq, PartialOrd, Ord, Structural)]
pub struct Spot {
    pub page: usize,
    pub index: usize,
}

/// Reading order: the page first, then the place on it.
pub open spec fn spot_le(a: Spot, b: Spot) -> bool {
    a.page < b.page || (a.page == b.page && a.index <= b.index)
}

/// Where a sweep began and where it has got to. Dragging back past the
/// anchor must not turn the selection inside out, so everything that reads a
/// selection asks for its span.
#[derive(Clone, Copy, Debug, PartialEq, Eq, Structural)]
pub struct Selection {
    pub anchor: Spot,
    pub head: Spot,
}

/// The two ends of a selection in reading order.
pub open spec fn span_of(s: Selection) -> (Spot, Spot) {
    if spot_le(s.anchor, s.head) { (s.anchor, s.head) } else { (s.head, s.anchor) }
}

/// What a selection covers on one page of `len` characters.
pub open spec fn covered(s: Selection, page: int, len: int) -> Option<(int, int)> {
    let (from, to) = span_of(s);
    if page < from.page || page > to.page {
        None
    } else {
        let start = if page == from.page { from.index as int } else { 0 };
        let end = if page == to.page { to.index as int } else { len };
        let start = if start < len { start } else { len };
        let end = if end < len { end } else { len };
        if start >= end { None } else { Some((start, end)) }
    }
}

impl Selection {
    /// A sweep that has begun and covers nothing yet.
    pub fn at(spot: Spot) -> (r: Selection)
        ensures
            r.anchor == spot,
            r.head == spot,
    {
        Selection { anchor: spot, head: spot }
    }

    /// The two ends in reading order.
    pub fn span(&self) -> (r: (Spot, Spot))
        ensures
            r == span_of(*self),
    {
        if self.anchor.page < self.head.page || (self.anchor.page == self.head.page && self.anchor.index <= self.head.index) {
            (self.anchor, self.head)
        } else {
            (self.head, self.anchor)
        }
    }

    /// Nothing is covered, which is what a click is.
    pub fn is_empty(&self) -> (r: bool)
        ensures
            r == (self.anchor == self.head),
    {
        self.anchor == self.head
    }

    /// The pages this selection touches, in order.
    pub fn pages(&self) -> (r: std::ops::RangeInclusive<usize>)
        ensures
            r@.start == span_of(*self).0.page,
            r@.end == span_of(*self).1.page,
            !r@.exhausted,
    {
        let (from, to) = self.span();
        std::ops::RangeInclusive::new(from.page, to.page)
    }

    /// What is covered on one page, as a range of characters, `None` for a
    /// page the selection does not reach or only grazes. `len` is the page's
    /// own character count: the middle pages of a sweep are covered whole.
    pub fn range_on(&self, page: usize, len: usize) -> (r: Option<(usize, usize)>)
        ensures
            (match r { Some((a, b)) => Some((a as int, b as int)), None => None }) == covered(*self, page as int, len as int),
    {
        let (from, to) = self.span();
        if page < from.page || page > to.page {
            return None;
        }
        let start = if page == from.page { from.index } else { 0 };
        let end = if page == to.page { to.index } else { len };
        let start = if start < len { start } else { len };
        let end = if end < len { end } else { len };
        if start >= end {
            return None;
        }
        Some((start, end))
    }
}

/// Which way a sweep went does not change what it covers.
pub proof fn law_span_ignores_direction(a: Spot, b: Spot)
    ensures
        span_of(Selection { anchor: a, head: b }) == span_of(Selection { anchor: b, head: a }),
        forall|page: int, len: int|
            covered(Selection { anchor: a, head: b }, page, len) == #[trigger] covered(Selection { anchor: b, head: a }, page, len),
{
}

/// What a sweep covers is a range within the page, never one of no width.
pub proof fn law_covered_is_within_the_page(s: Selection, page: int, len: int)
    requires
        len >= 0,
    ensures
        covered(s, page, len) matches Some((a, b)) ==> 0 <= a < b <= len,
{
}

/* ---------------------------------------------------------------- words */

/// A character of a word: a letter or digit, or an apostrophe with one on
/// each side of it, so that "don't" is one word.
pub open spec fn wordy(cs: Seq<char>, at: int) -> bool {
    alphanumeric(cs[at]) || ((cs[at] == '\'' || cs[at] == '\u{2019}') && at > 0 && at + 1 < cs.len()
        && alphanumeric(cs[at - 1]) && alphanumeric(cs[at + 1]))
}

fn is_wordy(cs: &Vec<char>, at: usize) -> (r: bool)
    requires
        at < cs@.len(),
    ensures
        r == wordy(cs@, at as int),
{
    is_alphanumeric(cs[at]) || ((cs[at] == '\'' || cs[at] == '\u{2019}') && at > 0 && cs.len() - at > 1
        && is_alphanumeric(cs[at - 1]) && is_alphanumeric(cs[at + 1]))
}

/// The character a caret is "in": the one after it, unless that is not a
/// word and the one before it is, or that is white space after something that
/// is not: a click at the end of a word means that word.
pub open spec fn char_at_caret(cs: Seq<char>, caret: int) -> int {
    let at = if caret < cs.len() - 1 { caret } else { cs.len() - 1 };
    if at > 0 && !wordy(cs, at) && (wordy(cs, at - 1) || (is_white(cs[at]) && !is_white(cs[at - 1]))) {
        at - 1
    } else {
        at
    }
}

/// Back from `i` over word characters.
pub open spec fn run_back(cs: Seq<char>, i: int) -> int
    decreases i,
{
    if i > 0 && wordy(cs, i - 1) { run_back(cs, i - 1) } else { i }
}

/// On from `i` over word characters.
pub open spec fn run_on(cs: Seq<char>, i: int) -> int
    decreases cs.len() - i,
{
    if 0 <= i < cs.len() && wordy(cs, i) { run_on(cs, i + 1) } else { i }
}

/// The word the caret is in: the run of word characters around the
/// character it is in; that character alone when it is punctuation; the
/// caret twice over in white space.
pub open spec fn word_range(cs: Seq<char>, caret: int) -> (int, int) {
    if cs.len() == 0 {
        (0, 0)
    } else {
        let at = char_at_caret(cs, caret);
        if is_white(cs[at]) {
            (caret, caret)
        } else if !wordy(cs, at) {
            (at, at + 1)
        } else {
            (run_back(cs, at), run_on(cs, at + 1))
        }
    }
}

/// `from..to` is a run of word characters that cannot be made longer.
pub open spec fn whole_word(cs: Seq<char>, from: int, to: int) -> bool {
    &&& 0 <= from < to <= cs.len()
    &&& forall|i: int| from <= i < to ==> #[trigger] wordy(cs, i)
    &&& (from == 0 || !wordy(cs, from - 1))
    &&& (to == cs.len() || !wordy(cs, to))
}

proof fn lemma_run_back(cs: Seq<char>, i: int, j: int)
    requires
        0 <= j <= i,
        forall|k: int| j <= k < i ==> #[trigger] wordy(cs, k),
    ensures
        run_back(cs, i) == run_back(cs, j),
    decreases i - j,
{
    if i > j {
        lemma_run_back(cs, i - 1, j);
    }
}

proof fn lemma_run_back_stops(cs: Seq<char>, i: int)
    requires
        0 <= i,
    ensures
        0 <= run_back(cs, i) <= i,
        forall|k: int| run_back(cs, i) <= k < i ==> #[trigger] wordy(cs, k),
        run_back(cs, i) == 0 || !wordy(cs, run_back(cs, i) - 1),
    decreases i,
{
    if i > 0 && wordy(cs, i - 1) {
        lemma_run_back_stops(cs, i - 1);
    }
}

proof fn lemma_run_on_stops(cs: Seq<char>, i: int)
    requires
        0 <= i <= cs.len(),
    ensures
        i <= run_on(cs, i) <= cs.len(),
        forall|k: int| i <= k < run_on(cs, i) ==> #[trigger] wordy(cs, k),
        run_on(cs, i) == cs.len() || !wordy(cs, run_on(cs, i)),
    decreases cs.len() - i,
{
    if 0 <= i < cs.len() && wordy(cs, i) {
        lemma_run_on_stops(cs, i + 1);
    }
}

/// A double click on a word takes the whole word and nothing else: a run of
/// letters and digits, apostrophes inside it, that cannot be made longer.
pub proof fn law_a_word_is_whole(cs: Seq<char>, caret: int)
    requires
        cs.len() > 0,
        caret >= 0,
        !is_white(cs[char_at_caret(cs, caret)]),
        wordy(cs, char_at_caret(cs, caret)),
    ensures
        word_range(cs, caret).0 <= char_at_caret(cs, caret) < word_range(cs, caret).1,
        whole_word(cs, word_range(cs, caret).0, word_range(cs, caret).1),
{
    let at = char_at_caret(cs, caret);
    lemma_run_back_stops(cs, at);
    lemma_run_on_stops(cs, at + 1);
    assert forall|i: int| run_back(cs, at) <= i < run_on(cs, at + 1) implies #[trigger] wordy(cs, i) by {
        if i > at {
        } else if i < at {
        }
    }
}

/// A letter or digit, or an apostrophe (straight or curly) with a letter or
/// digit on each side of it.
pub open spec fn inside_a_word(cs: Seq<char>, i: int) -> bool {
    ||| alphanumeric(cs[i])
    ||| ((cs[i] == '\'' || cs[i] == '\u{2019}') && 0 < i && i + 1 < cs.len() && alphanumeric(cs[i - 1]) && alphanumeric(cs[i + 1]))
}

/// A double click on a word takes all of it and stops where it ends: every
/// character taken is a letter or digit, or an apostrophe between two, so
/// that "don't" is one word whichever apostrophe it is written with; and the
/// character on either side is neither.
pub proof fn law_a_word_runs_to_its_ends(cs: Seq<char>, caret: int)
    requires
        caret >= 0,
        word_range(cs, caret).0 < word_range(cs, caret).1,
        exists|i: int| word_range(cs, caret).0 <= i < word_range(cs, caret).1 && alphanumeric(#[trigger] cs[i]),
    ensures
        ({
            let (from, to) = word_range(cs, caret);
            &&& 0 <= from < to <= cs.len()
            &&& forall|i: int| from <= i < to ==> #[trigger] inside_a_word(cs, i)
            &&& (from == 0 || !inside_a_word(cs, from - 1))
            &&& (to == cs.len() || !inside_a_word(cs, to))
        }),
{
    let at = char_at_caret(cs, caret);
    if !is_white(cs[at]) && wordy(cs, at) {
        law_a_word_is_whole(cs, caret);
        let (from, to) = word_range(cs, caret);
        assert forall|i: int| from <= i < to implies #[trigger] inside_a_word(cs, i) by {
            assert(wordy(cs, i));
        }
    } else {
        let i = choose|i: int| word_range(cs, caret).0 <= i < word_range(cs, caret).1 && alphanumeric(#[trigger] cs[i]);
        assert(i == at);
        assert(wordy(cs, at));
    }
}

/// The word the caret is in, as a range, or the caret twice over when it is
/// in white space. A double click on a punctuation mark takes that mark alone.
pub fn words_around(text: &PageText, caret: usize) -> (r: (usize, usize))
    ensures
        (r.0 as int, r.1 as int) == word_range(text.chars@, caret as int),
{
    let chars = &text.chars;
    let len = chars.len();
    if len == 0 {
        return (0, 0);
    }
    let at = if caret < len - 1 { caret } else { len - 1 };
    let at = if at > 0 && !is_wordy(chars, at)
        && (is_wordy(chars, at - 1) || (is_whitespace(chars[at]) && !is_whitespace(chars[at - 1]))) {
        at - 1
    } else {
        at
    };
    if is_whitespace(chars[at]) {
        return (caret, caret);
    }
    if !is_wordy(chars, at) {
        return (at, at + 1);
    }
    let mut from = at;
    while from > 0 && is_wordy(chars, from - 1)
        invariant
            from <= at < len,
            len == chars@.len(),
            run_back(chars@, at as int) == run_back(chars@, from as int),
        decreases from,
    {
        from = from - 1;
    }
    let mut to = at + 1;
    proof { assert(run_on(chars@, at + 1) == run_on(chars@, to as int)); }
    while to < len && is_wordy(chars, to)
        invariant
            at < to <= len,
            len == chars@.len(),
            run_on(chars@, at + 1) == run_on(chars@, to as int),
        decreases len - to,
    {
        to = to + 1;
    }
    (from, to)
}

/// What a sweep takes hold of at a time: one character, one word, or one
/// line, which is a first, a second and a third click on the same spot.
#[derive(Clone, Copy, Debug, PartialEq, Eq, Structural)]
pub enum Unit {
    Char,
    Word,
    Line,
}

/// A line break as pdfium writes one.
pub open spec fn is_break(c: char) -> bool {
    c == '\r' || c == '\n'
}

/// From `at` back past any line breaks, stopping at the start.
pub open spec fn back_over_breaks(cs: Seq<char>, at: int) -> int
    decreases at,
{
    if at > 0 && is_break(cs[at]) { back_over_breaks(cs, at - 1) } else { at }
}

/// Back from `i` over characters that are not line breaks.
pub open spec fn line_back(cs: Seq<char>, i: int) -> int
    decreases i,
{
    if i > 0 && !is_break(cs[i - 1]) { line_back(cs, i - 1) } else { i }
}

/// On from `i` over characters that are not line breaks.
pub open spec fn line_on(cs: Seq<char>, i: int) -> int
    decreases cs.len() - i,
{
    if 0 <= i < cs.len() && !is_break(cs[i]) { line_on(cs, i + 1) } else { i }
}

/// The line the caret is on: a caret at the end of a line sits on its break
/// and means that line; a page of nothing but breaks gives the caret twice.
pub open spec fn line_range(cs: Seq<char>, caret: int) -> (int, int) {
    if cs.len() == 0 {
        (0, 0)
    } else {
        let at = back_over_breaks(cs, if caret < cs.len() - 1 { caret } else { cs.len() - 1 });
        if is_break(cs[at]) {
            (caret, caret)
        } else {
            (line_back(cs, at), line_on(cs, at + 1))
        }
    }
}

/// The line the caret is on, as a range, the break at its end left out.
pub fn line_around(text: &PageText, caret: usize) -> (r: (usize, usize))
    ensures
        (r.0 as int, r.1 as int) == line_range(text.chars@, caret as int),
{
    let chars = &text.chars;
    let len = chars.len();
    if len == 0 {
        return (0, 0);
    }
    let start = if caret < len - 1 { caret } else { len - 1 };
    let mut at = start;
    while at > 0 && (chars[at] == '\r' || chars[at] == '\n')
        invariant
            at <= start < len,
            len == chars@.len(),
            back_over_breaks(chars@, start as int) == back_over_breaks(chars@, at as int),
        decreases at,
    {
        at = at - 1;
    }
    if chars[at] == '\r' || chars[at] == '\n' {
        return (caret, caret);
    }
    let mut from = at;
    while from > 0 && !(chars[from - 1] == '\r' || chars[from - 1] == '\n')
        invariant
            from <= at < len,
            len == chars@.len(),
            line_back(chars@, at as int) == line_back(chars@, from as int),
        decreases from,
    {
        from = from - 1;
    }
    let mut to = at + 1;
    while to < len && !(chars[to] == '\r' || chars[to] == '\n')
        invariant
            at < to <= len,
            len == chars@.len(),
            line_on(chars@, at + 1) == line_on(chars@, to as int),
        decreases len - to,
    {
        to = to + 1;
    }
    (from, to)
}

/// The unit the caret is in, as a range: a character is the caret twice
/// over, so a plain sweep goes through the same door as the others.
pub fn unit_around(text: &PageText, caret: usize, unit: Unit) -> (r: (usize, usize))
    ensures
        unit == Unit::Char ==> r == (caret, caret),
        unit == Unit::Word ==> (r.0 as int, r.1 as int) == word_range(text.chars@, caret as int),
        unit == Unit::Line ==> (r.0 as int, r.1 as int) == line_range(text.chars@, caret as int),
{
    match unit {
        Unit::Char => (caret, caret),
        Unit::Word => words_around(text, caret),
        Unit::Line => line_around(text, caret),
    }
}

/* --------------------------------------------------------------- quotes */

/// One character as it is pasted: pdfium's stand-ins for a hyphen that ends
/// a line are a hyphen.
pub open spec fn pasted(c: char) -> char {
    if c == '\u{2}' || c == '\u{fffe}' { '-' } else { c }
}

/// Characters as they are pasted: a `\r` and the `\n` after it are one line
/// end, `\n`.
pub open spec fn mended(s: Seq<char>) -> Seq<char>
    decreases s.len(),
{
    if s.len() == 0 {
        s
    } else if s[0] == '\r' {
        seq!['\n'] + mended(if s.len() > 1 && s[1] == '\n' { s.skip(2) } else { s.skip(1) })
    } else {
        seq![pasted(s[0])] + mended(s.skip(1))
    }
}

/// A range of a page's characters as the reader would paste it: the line
/// endings mended and the ends trimmed; a range past the end stops at it.
pub open spec fn quoted(cs: Seq<char>, from: int, to: int) -> Seq<char> {
    let to = if to < cs.len() { to } else { cs.len() as int };
    if from >= to { Seq::empty() } else { trimmed(mended(cs.subrange(from, to))) }
}

/// A range of a page's characters, as the reader would paste it.
///
/// Hyphenated words are deliberately not joined across a line: a reader
/// copying a passage is taking the document's own words.
pub fn quote(text: &PageText, from: usize, to: usize) -> (r: String)
    ensures
        r@ == quoted(text.chars@, from as int, to as int),
{
    let chars = &text.chars;
    let to = if to < chars.len() { to } else { chars.len() };
    if from >= to {
        return String::new();
    }
    let ghost s = chars@.subrange(from as int, to as int);
    let mut out: Vec<char> = Vec::new();
    let mut i = from;
    proof { assert(s.skip(0) =~= s); }
    while i < to
        invariant
            from <= i <= to <= chars@.len(),
            s == chars@.subrange(from as int, to as int),
            out@ + mended(s.skip(i - from)) == mended(s),
        decreases to - i,
    {
        let c = chars[i];
        let ghost rest = s.skip(i - from);
        let ghost before = out@;
        proof { assert(rest[0] == c); }
        if c == '\r' {
            out.push('\n');
            if i + 1 < to && chars[i + 1] == '\n' {
                proof {
                    assert(rest[1] == chars@[i + 1]);
                    assert(rest.skip(2) =~= s.skip(i + 2 - from));
                    assert(out@ + mended(s.skip(i + 2 - from)) =~= before + mended(rest));
                }
                i = i + 2;
            } else {
                proof {
                    if rest.len() > 1 { assert(rest[1] == chars@[i + 1]); }
                    assert(rest.skip(1) =~= s.skip(i + 1 - from));
                    assert(out@ + mended(s.skip(i + 1 - from)) =~= before + mended(rest));
                }
                i = i + 1;
            }
        } else {
            let p = if c == '\u{2}' || c == '\u{fffe}' { '-' } else { c };
            out.push(p);
            proof {
                assert(rest.skip(1) =~= s.skip(i + 1 - from));
                assert(out@ + mended(s.skip(i + 1 - from)) =~= before + mended(rest));
            }
            i = i + 1;
        }
    }
    proof {
        assert(s.skip(i - from) =~= Seq::<char>::empty());
        assert(out@ =~= out@ + mended(Seq::<char>::empty()));
    }
    let trimmed_out = trim(out.as_slice());
    string_of(trimmed_out.as_slice())
}

} // verus!
