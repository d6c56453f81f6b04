//! Full-document search: the fold, the index, and stepping through what it
//! found.
//!
//! A page is searched as its characters *folded*: ligatures split, accents
//! and soft hyphens dropped, white space collapsed and, unless case matters,
//! lowered. Every folded character remembers which character of the page it
//! came from, so a match in the folded text is a range of the page's own
//! characters.

use vstd::prelude::*;
use std::collections::HashMap;
use crate::text::{chars_of, is_white, is_whitespace, same_chars, slice_of, string_of, push_char};
use crate::unicode::{alphanumeric, compat_decomposition, decompose, is_alphanumeric, lower_case, to_lowercase};

verus! {

/// Where a search gives up: a hundred thousand matches.
pub const MATCH_LIMIT: usize = 100_000;

/// How many results a list shows.
pub const RESULT_LIMIT: usize = 300;

/* ------------------------------------------------------------------ fold */

/// Combining marks, which are what is left of an accent after decomposition.
pub open spec fn is_combining(c: char) -> bool {
    let u = c as u32;
    ||| 0x0300 <= u <= 0x036f
    ||| 0x1ab0 <= u <= 0x1aff
    ||| 0x1dc0 <= u <= 0x1dff
    ||| 0x20d0 <= u <= 0x20f0
    ||| 0xfe20 <= u <= 0xfe2f
}

/// What a producer writes for a hyphen that only ends a line: the soft
/// hyphen, and pdfium's U+0002 and U+FFFE.
pub open spec fn is_hyphen(c: char) -> bool {
    let u = c as u32;
    u == 0x0002 || u == 0x00ad || u == 0xfffe
}

/// Characters that are in the text but not in the word: the line-end
/// hyphens, and the zero-width characters some producers scatter through it.
pub open spec fn is_ignored(c: char) -> bool {
    let u = c as u32;
    is_hyphen(c) || (0x200b <= u <= 0x200d) || u == 0xfeff
}

fn combining(c: char) -> (r: bool)
    ensures
        r == is_combining(c),
{
    let u = c as u32;
    (0x0300 <= u && u <= 0x036f) || (0x1ab0 <= u && u <= 0x1aff) || (0x1dc0 <= u && u <= 0x1dff)
        || (0x20d0 <= u && u <= 0x20f0) || (0xfe20 <= u && u <= 0xfe2f)
}

fn hyphen(c: char) -> (r: bool)
    ensures
        r == is_hyphen(c),
{
    let u = c as u32;
    u == 0x0002 || u == 0x00ad || u == 0xfffe
}

fn ignored(c: char) -> (r: bool)
    ensures
        r == is_ignored(c),
{
    let u = c as u32;
    hyphen(c) || (0x200b <= u && u <= 0x200d) || u == 0xfeff
}

/// A page's characters folded, and where each folded character came from:
/// `origin` has one entry per folded character and one more at the end.
#[derive(Debug, Default)]
pub struct Fold {
    pub text: Vec<char>,
    pub origin: Vec<usize>,
}

/// What folding has made so far: the text, the origin of each of its
/// characters, and whether a line-end hyphen has just been dropped (so the
/// line break after it goes too).
pub struct Folding {
    pub text: Seq<char>,
    pub origin: Seq<usize>,
    pub joining: bool,
}

/// The lowered pieces of one character, combining marks dropped.
pub open spec fn push_lowered(text: Seq<char>, origin: Seq<usize>, lowered: Seq<char>, source: usize)
    -> (Seq<char>, Seq<usize>)
    decreases lowered.len(),
{
    if lowered.len() == 0 {
        (text, origin)
    } else {
        let (t, o) = push_lowered(text, origin, lowered.drop_last(), source);
        if is_combining(lowered.last()) {
            (t, o)
        } else {
            (t.push(lowered.last()), o.push(source))
        }
    }
}

/// One piece of a decomposed character, taken into the fold.
pub open spec fn fold_piece(f: Folding, source: usize, piece: char, cased: bool) -> Folding {
    if is_combining(piece) || is_ignored(piece) {
        Folding { joining: f.joining || is_hyphen(piece), ..f }
    } else if is_white(piece) {
        if !f.joining && !(f.text.len() > 0 && f.text.last() == ' ') {
            Folding { text: f.text.push(' '), origin: f.origin.push(source), joining: f.joining }
        } else {
            f
        }
    } else if cased {
        Folding { text: f.text.push(piece), origin: f.origin.push(source), joining: false }
    } else {
        let (t, o) = push_lowered(f.text, f.origin, lower_case(piece), source);
        Folding { text: t, origin: o, joining: false }
    }
}

/// The pieces of one character, taken in order.
pub open spec fn fold_pieces(f: Folding, source: usize, pieces: Seq<char>, cased: bool) -> Folding
    decreases pieces.len(),
{
    if pieces.len() == 0 {
        f
    } else {
        fold_piece(fold_pieces(f, source, pieces.drop_last(), cased), source, pieces.last(), cased)
    }
}

/// The fold of the first `n` characters of `input`.
pub open spec fn folding(input: Seq<char>, n: nat, cased: bool) -> Folding
    decreases n,
{
    if n == 0 {
        Folding { text: Seq::empty(), origin: Seq::empty(), joining: false }
    } else {
        let k = (n - 1) as nat;
        fold_pieces(folding(input, k, cased), k as usize, compat_decomposition(input[k as int]), cased)
    }
}

/// The folded text of `input`.
pub open spec fn folded_text(input: Seq<char>, cased: bool) -> Seq<char> {
    folding(input, input.len(), cased).text
}

/// Where each folded character of `input` came from, and the length of the
/// input at the end.
pub open spec fn folded_origin(input: Seq<char>, cased: bool) -> Seq<usize> {
    folding(input, input.len(), cased).origin.push(input.len() as usize)
}

/// What every folding so far keeps: one origin per character, in order, each
/// pointing at a character already read.
pub open spec fn folding_wf(f: Folding, n: int) -> bool {
    &&& f.origin.len() == f.text.len()
    &&& forall|i: int, j: int| 0 <= i <= j < f.origin.len() ==> f.origin[i] <= f.origin[j]
    &&& forall|i: int| 0 <= i < f.origin.len() ==> f.origin[i] < n
}

proof fn lemma_push_lowered(text: Seq<char>, origin: Seq<usize>, lowered: Seq<char>, source: usize)
    requires
        folding_wf(Folding { text, origin, joining: false }, source + 1),
        forall|i: int| 0 <= i < origin.len() ==> origin[i] <= source,
    ensures
        ({
            let (t, o) = push_lowered(text, origin, lowered, source);
            &&& folding_wf(Folding { text: t, origin: o, joining: false }, source + 1)
            &&& forall|i: int| 0 <= i < o.len() ==> o[i] <= source
            &&& t.len() >= text.len()
            &&& t.subrange(0, text.len() as int) == text
            &&& o.subrange(0, origin.len() as int) == origin
        }),
    decreases lowered.len(),
{
    if lowered.len() > 0 {
        lemma_push_lowered(text, origin, lowered.drop_last(), source);
        let (t, o) = push_lowered(text, origin, lowered.drop_last(), source);
        assert(t.push(lowered.last()).subrange(0, text.len() as int) =~= t.subrange(0, text.len() as int));
        assert(o.push(source).subrange(0, origin.len() as int) =~= o.subrange(0, origin.len() as int));
    } else {
        assert(text.subrange(0, text.len() as int) =~= text);
        assert(origin.subrange(0, origin.len() as int) =~= origin);
    }
}

proof fn lemma_fold_piece(f: Folding, source: usize, piece: char, cased: bool)
    requires
        folding_wf(f, source + 1),
        forall|i: int| 0 <= i < f.origin.len() ==> f.origin[i] <= source,
    ensures
        folding_wf(fold_piece(f, source, piece, cased), source + 1),
        forall|i: int| 0 <= i < fold_piece(f, source, piece, cased).origin.len()
            ==> fold_piece(f, source, piece, cased).origin[i] <= source,
{
    if !(is_combining(piece) || is_ignored(piece)) && !is_white(piece) && !cased {
        lemma_push_lowered(f.text, f.origin, lower_case(piece), source);
    }
}

proof fn lemma_fold_pieces(f: Folding, source: usize, pieces: Seq<char>, cased: bool)
    requires
        folding_wf(f, source + 1),
        forall|i: int| 0 <= i < f.origin.len() ==> f.origin[i] <= source,
    ensures
        folding_wf(fold_pieces(f, source, pieces, cased), source + 1),
        forall|i: int| 0 <= i < fold_pieces(f, source, pieces, cased).origin.len()
            ==> fold_pieces(f, source, pieces, cased).origin[i] <= source,
    decreases pieces.len(),
{
    if pieces.len() > 0 {
        lemma_fold_pieces(f, source, pieces.drop_last(), cased);
        lemma_fold_piece(fold_pieces(f, source, pieces.drop_last(), cased), source, pieces.last(), cased);
    }
}

proof fn lemma_folding(input: Seq<char>, n: nat, cased: bool)
    requires
        n <= input.len(),
        input.len() <= usize::MAX,
    ensures
        folding_wf(folding(input, n, cased), n as int),
    decreases n,
{
    if n > 0 {
        let k = (n - 1) as nat;
        lemma_folding(input, k, cased);
        lemma_fold_pieces(folding(input, k, cased), k as usize, compat_decomposition(input[k as int]), cased);
    }
}

/// **Folding keeps every character's origin honest**: one origin per folded
/// character and one more at the end, in the order of the input, each
/// pointing into it, and the last one past its end.
pub proof fn law_fold_origin(input: Seq<char>, cased: bool)
    requires
        input.len() <= usize::MAX,
    ensures
        folded_origin(input, cased).len() == folded_text(input, cased).len() + 1,
        folded_origin(input, cased).last() == input.len(),
        forall|i: int, j: int| 0 <= i <= j < folded_origin(input, cased).len()
            ==> folded_origin(input, cased)[i] <= folded_origin(input, cased)[j],
        forall|i: int| 0 <= i < folded_text(input, cased).len()
            ==> folded_origin(input, cased)[i] < input.len(),
{
    lemma_folding(input, input.len(), cased);
}

/// Fold text into the form a search is done against, and record where every
/// character of the result came from.
pub fn fold(input: &[char], case_sensitive: bool) -> (r: Fold)
    ensures
        r.text@ == folded_text(input@, case_sensitive),
        r.origin@ == folded_origin(input@, case_sensitive),
{
    let mut text: Vec<char> = Vec::new();
    let mut origin: Vec<usize> = Vec::new();
    let mut joining = false;
    let mut source: usize = 0;
    while source < input.len()
        invariant
            source <= input@.len(),
            folding(input@, source as nat, case_sensitive) == (Folding {
                text: text@,
                origin: origin@,
                joining,
            }),
        decreases input@.len() - source,
    {
        let character = input[source];
        let pieces = decompose(character);
        let ghost before = Folding { text: text@, origin: origin@, joining };
        let mut p: usize = 0;
        while p < pieces.len()
            invariant
                p <= pieces@.len(),
                fold_pieces(before, source, pieces@.take(p as int), case_sensitive) == (Folding {
                    text: text@,
                    origin: origin@,
                    joining,
                }),
            decreases pieces@.len() - p,
        {
            let piece = pieces[p];
            assert(pieces@.take(p + 1).drop_last() =~= pieces@.take(p as int));
            if combining(piece) || ignored(piece) {
                joining = joining || hyphen(piece);
            } else if is_whitespace(piece) {
                let ends_in_space = text.len() > 0 && text[text.len() - 1] == ' ';
                if !joining && !ends_in_space {
                    text.push(' ');
                    origin.push(source);
                }
            } else {
                joining = false;
                if case_sensitive {
                    text.push(piece);
                    origin.push(source);
                } else {
                    let lowered = to_lowercase(piece);
                    let mut l: usize = 0;
                    let ghost t0 = text@;
                    let ghost o0 = origin@;
                    while l < lowered.len()
                        invariant
                            l <= lowered@.len(),
                            push_lowered(t0, o0, lowered@.take(l as int), source) == (text@, origin@),
                        decreases lowered@.len() - l,
                    {
                        assert(lowered@.take(l + 1).drop_last() =~= lowered@.take(l as int));
                        let lower = lowered[l];
                        if !combining(lower) {
                            text.push(lower);
                            origin.push(source);
                        }
                        l = l + 1;
                    }
                    assert(lowered@.take(lowered@.len() as int) =~= lowered@);
                }
            }
            p = p + 1;
        }
        assert(pieces@.take(pieces@.len() as int) =~= pieces@);
        source = source + 1;
    }
    origin.push(input.len());
    Fold { text, origin }
}


/* ---------------------------------------------------------------- locate */

/// One match: a page, and the characters of it that matched.
#[derive(Clone, Copy, Debug, PartialEq, Eq, Structural)]
pub struct Hit {
    /// One-based, as every page number in this crate is.
    pub page: usize,
    /// Into the page's own characters.
    pub from: usize,
    pub to: usize,
}

/// Letters, digits and the underscore: what "whole words" counts as being
/// part of a word, in every alphabet.
pub open spec fn is_word(c: char) -> bool {
    alphanumeric(c) || c == '_'
}

fn word(c: char) -> (r: bool)
    ensures
        r == is_word(c),
{
    is_alphanumeric(c) || c == '_'
}

/// Whether `text[start..end]` has something other than a word character on
/// each side.
pub open spec fn stands_alone_in(text: Seq<char>, start: int, end: int) -> bool {
    &&& !(start > 0 && is_word(text[start - 1]))
    &&& !(end < text.len() && is_word(text[end]))
}

fn stands_alone(text: &[char], start: usize, end: usize) -> (r: bool)
    requires
        start <= end <= text@.len(),
    ensures
        r == stands_alone_in(text@, start as int, end as int),
{
    if start > 0 && word(text[start - 1]) {
        return false;
    }
    if end < text.len() && word(text[end]) {
        return false;
    }
    true
}

/// A fold that can be searched: one origin per character and one more.
pub open spec fn fold_wf(text: Seq<char>, origin: Seq<usize>) -> bool {
    &&& origin.len() == text.len() + 1
    &&& forall|i: int| 0 <= i < text.len() ==> origin[i] < usize::MAX
}

/// The page range of a match at `at` in the folded text: from where its first
/// character came from, to past the last one it touched.
pub open spec fn hit_at(origin: Seq<usize>, at: int, n: int, number: usize) -> Hit {
    let end = origin[at + n];
    let last = origin[at + n - 1] + 1;
    Hit { page: number, from: origin[at], to: if end >= last { end } else { last as usize } }
}

/// Whether the needle matches the folded text at `at`, and may be taken there.
pub open spec fn takes_at(text: Seq<char>, needle: Seq<char>, at: int, whole_words: bool) -> bool {
    &&& text.subrange(at, at + needle.len()) == needle
    &&& (whole_words ==> stands_alone_in(text, at, at + needle.len()))
}

/// Every match from folded position `at` on, scanning left to right and
/// moving past each match taken.
pub open spec fn matches_from(
    text: Seq<char>,
    origin: Seq<usize>,
    needle: Seq<char>,
    number: usize,
    whole_words: bool,
    at: int,
) -> Seq<Hit>
    decreases text.len() - at,
{
    if needle.len() == 0 || at < 0 || at + needle.len() > text.len() {
        Seq::empty()
    } else if takes_at(text, needle, at, whole_words) {
        seq![hit_at(origin, at, needle.len() as int, number)]
            + matches_from(text, origin, needle, number, whole_words, at + needle.len())
    } else {
        matches_from(text, origin, needle, number, whole_words, at + 1)
    }
}

/// Every place `needle` occurs in a folded page, as ranges of the page's own
/// characters.
pub fn locate(page: &Fold, needle: &[char], number: usize, whole_words: bool) -> (r: Vec<Hit>)
    requires
        fold_wf(page.text@, page.origin@),
    ensures
        r@ == matches_from(page.text@, page.origin@, needle@, number, whole_words, 0),
{
    let mut found: Vec<Hit> = Vec::new();
    if needle.len() == 0 || page.text.len() < needle.len() {
        return found;
    }
    let n = needle.len();
    let mut at: usize = 0;
    while at <= page.text.len() - n
        invariant
            fold_wf(page.text@, page.origin@),
            n == needle@.len(),
            0 < n <= page.text@.len(),
            at <= page.text@.len(),
            found@ + matches_from(page.text@, page.origin@, needle@, number, whole_words, at as int)
                == matches_from(page.text@, page.origin@, needle@, number, whole_words, 0),
        decreases page.text@.len() - at,
    {
        let window = slice_of(page.text.as_slice(), at, at + n);
        let same = same_chars(window.as_slice(), needle);
        if !same {
            at += 1;
            continue;
        }
        if whole_words && !stands_alone(page.text.as_slice(), at, at + n) {
            at += 1;
            continue;
        }
        let last = at + n - 1;
        let from = page.origin[at];
        let end = page.origin[at + n];
        let after_last = page.origin[last] + 1;
        let to = if end >= after_last { end } else { after_last };
        let hit = Hit { page: number, from, to };
        proof {
            assert(hit == hit_at(page.origin@, at as int, n as int, number));
            assert(found@.push(hit) + matches_from(page.text@, page.origin@, needle@, number, whole_words, at + n)
                =~= found@ + matches_from(page.text@, page.origin@, needle@, number, whole_words, at as int));
        }
        found.push(hit);
        at += n;
    }
    proof {
        assert(matches_from(page.text@, page.origin@, needle@, number, whole_words, at as int) =~= Seq::<Hit>::empty());
        assert(found@ + Seq::<Hit>::empty() =~= found@);
    }
    found
}

/// A hit the needle makes at folded position `p`, with no letter, digit or
/// underscore just before it or just after it.
pub open spec fn alone_at(text: Seq<char>, origin: Seq<usize>, needle: Seq<char>, number: usize, h: Hit, p: int) -> bool {
    &&& 0 <= p
    &&& p + needle.len() <= text.len()
    &&& text.subrange(p, p + needle.len()) == needle
    &&& h == hit_at(origin, p, needle.len() as int, number)
    &&& (p > 0 ==> !alphanumeric(text[p - 1]) && text[p - 1] != '_')
    &&& (p + needle.len() < text.len() ==> !alphanumeric(text[p + needle.len()]) && text[p + needle.len()] != '_')
}

proof fn lemma_whole_words_alone(text: Seq<char>, origin: Seq<usize>, needle: Seq<char>, number: usize, at: int, k: int)
    requires
        0 <= k < matches_from(text, origin, needle, number, true, at).len(),
    ensures
        exists|p: int| at <= p && #[trigger] alone_at(text, origin, needle, number, matches_from(text, origin, needle, number, true, at)[k], p),
    decreases text.len() - at,
{
    let n = needle.len();
    let m = matches_from(text, origin, needle, number, true, at);
    if takes_at(text, needle, at, true) {
        let rest = matches_from(text, origin, needle, number, true, at + n);
        if k == 0 {
            assert(alone_at(text, origin, needle, number, m[k], at));
        } else {
            lemma_whole_words_alone(text, origin, needle, number, at + n, k - 1);
            assert(m[k] == rest[k - 1]);
            let p = choose|p: int| at + n <= p && #[trigger] alone_at(text, origin, needle, number, rest[k - 1], p);
            assert(alone_at(text, origin, needle, number, m[k], p));
        }
    } else {
        lemma_whole_words_alone(text, origin, needle, number, at + 1, k);
        let p = choose|p: int| at + 1 <= p && #[trigger] alone_at(text, origin, needle, number, m[k], p);
        assert(alone_at(text, origin, needle, number, m[k], p));
    }
}

/// With whole words on, every match found is the needle with something
/// other than a letter, digit or underscore on each side of it in the
/// folded text: "cat" is not found in "catalog", nor in "concat".
pub proof fn law_whole_words_stand_alone(text: Seq<char>, origin: Seq<usize>, needle: Seq<char>, number: usize, k: int)
    requires
        0 <= k < matches_from(text, origin, needle, number, true, 0).len(),
    ensures
        exists|p: int| #[trigger] alone_at(text, origin, needle, number, matches_from(text, origin, needle, number, true, 0)[k], p),
{
    lemma_whole_words_alone(text, origin, needle, number, 0, k);
}

/* ------------------------------------------------------------ the order */

/// The page the reader is on, clamped into the document.
pub open spec fn clamped_page(current: usize, count: usize) -> int {
    let top = if count >= 1 { count as int } else { 1 };
    if current < 1 { 1 } else if current > top { top } else { current as int }
}

/// `from..=to`, as a sequence.
pub open spec fn run_of(from: int, to: int) -> Seq<usize>
    decreases to - from + 1,
{
    if to < from { Seq::empty() } else { seq![from as usize] + run_of(from + 1, to) }
}

/// The pages of a document, starting at the one being read and coming round.
pub open spec fn pages_order(current: usize, count: usize) -> Seq<usize> {
    let c = clamped_page(current, count);
    run_of(c, count as int) + run_of(1, c - 1)
}

proof fn lemma_run_of(from: int, to: int)
    requires
        0 <= from <= to + 1,
        to <= usize::MAX,
    ensures
        run_of(from, to).len() == to - from + 1,
        forall|i: int| 0 <= i < run_of(from, to).len() ==> run_of(from, to)[i] == from + i,
    decreases to - from + 1,
{
    if from <= to {
        lemma_run_of(from + 1, to);
        let s = run_of(from, to);
        assert forall|i: int| 0 <= i < s.len() implies s[i] == from + i by {
            if i > 0 {
                assert(s[i] == run_of(from + 1, to)[i - 1]);
            }
        }
    }
}

/// The pages of a document, starting at the one being read.
pub fn pages_from_here(current: usize, count: usize) -> (r: Vec<usize>)
    ensures
        r@ == pages_order(current, count),
{
    let top = if count >= 1 { count } else { 1 };
    let current = if current < 1 { 1 } else if current > top { top } else { current };
    let mut order: Vec<usize> = Vec::new();
    let mut page = current;
    while page < count
        invariant
            1 <= current <= page,
            current <= top,
            top == if count >= 1 { count } else { 1 },
            page <= count || (count == 0 && page == 1),
            order@ == run_of(current as int, page - 1),
        decreases count - page,
    {
        proof {
            lemma_run_of(current as int, page - 1);
            lemma_run_of(current as int, page as int);
            assert(order@.push(page) =~= run_of(current as int, page as int));
        }
        order.push(page);
        page = page + 1;
    }
    if current <= count {
        proof {
            lemma_run_of(current as int, count - 1);
            lemma_run_of(current as int, count as int);
            assert(order@.push(count) =~= run_of(current as int, count as int));
        }
        order.push(count);
    }
    proof { lemma_run_of(current as int, count as int); assert(order@ =~= run_of(current as int, count as int)); }
    let ghost head = order@;
    let mut page: usize = 1;
    while page < current
        invariant
            1 <= page <= current,
            order@ == head + run_of(1, page - 1),
        decreases current - page,
    {
        proof {
            lemma_run_of(1, page - 1);
            lemma_run_of(1, page as int);
            assert(head + run_of(1, page as int) =~= (head + run_of(1, page - 1)).push(page));
        }
        order.push(page);
        page = page + 1;
    }
    order
}

/// **A scan visits every page once**: the order starts at the page being
/// read (clamped into the document), and holds each page of the document
/// exactly once.
pub proof fn law_every_page_once(current: usize, count: usize)
    ensures
        pages_order(current, count).len() == count,
        count >= 1 ==> pages_order(current, count)[0] == clamped_page(current, count),
        forall|p: int| 1 <= p <= count ==> #[trigger] pages_order(current, count).contains(p as usize),
        forall|i: int, j: int| 0 <= i < j < pages_order(current, count).len()
            ==> pages_order(current, count)[i] != pages_order(current, count)[j],
{
    let c = clamped_page(current, count);
    lemma_run_of(c, count as int);
    lemma_run_of(1, c - 1);
    let s = pages_order(current, count);
    assert forall|p: int| 1 <= p <= count implies #[trigger] s.contains(p as usize) by {
        if p >= c {
            assert(s[p - c] == p);
        } else {
            assert(s[(count - c + 1) + (p - 1)] == p);
        }
    }
}


/* ------------------------------------------------------------------ tidy */

/// Collapsing white space, `n` characters in: the text so far, and whether a
/// run of white space is waiting to be written as one space.
pub open spec fn tidying(chars: Seq<char>, n: nat) -> (Seq<char>, bool)
    decreases n,
{
    if n == 0 {
        (Seq::empty(), false)
    } else {
        let (out, space) = tidying(chars, (n - 1) as nat);
        let c = chars[n - 1];
        if is_white(c) {
            (out, true)
        } else if space {
            (out.push(' ').push(c), false)
        } else {
            (out.push(c), false)
        }
    }
}

/// A cut of the document with every run of white space, at either end too,
/// made one space.
pub open spec fn tidied(chars: Seq<char>) -> Seq<char> {
    let (out, space) = tidying(chars, chars.len());
    if space { out.push(' ') } else { out }
}

/// Whitespace collapsed, so a result reads as a sentence.
fn tidy(chars: &[char]) -> (r: String)
    ensures
        r@ == tidied(chars@),
{
    let mut out = String::new();
    let mut space = false;
    let mut i: usize = 0;
    while i < chars.len()
        invariant
            i <= chars@.len(),
            tidying(chars@, i as nat) == (out@, space),
        decreases chars@.len() - i,
    {
        let character = chars[i];
        if is_whitespace(character) {
            space = true;
        } else {
            if space {
                push_char(&mut out, ' ');
            }
            space = false;
            push_char(&mut out, character);
        }
        i = i + 1;
    }
    if space {
        push_char(&mut out, ' ');
    }
    out
}

/// Whether every character is white space, which is what an empty
/// `str::trim` says.
pub open spec fn all_white(chars: Seq<char>) -> bool {
    forall|i: int| 0 <= i < chars.len() ==> is_white(chars[i])
}

fn only_white(chars: &[char]) -> (r: bool)
    ensures
        r == all_white(chars@),
{
    let mut i: usize = 0;
    while i < chars.len()
        invariant
            i <= chars@.len(),
            forall|k: int| 0 <= k < i ==> is_white(chars@[k]),
        decreases chars@.len() - i,
    {
        if !is_whitespace(chars[i]) {
            return false;
        }
        i = i + 1;
    }
    true
}

/* ---------------------------------------------------------------- search */

/// How a query is matched.
#[derive(Clone, Copy, Debug, Default, PartialEq, Eq, Structural)]
pub struct Options {
    pub match_case: bool,
    pub whole_words: bool,
}

/// What the find bar says about itself.
#[derive(Clone, Debug, Default, PartialEq)]
pub struct State {
    pub query: String,
    pub total: usize,
    /// Which match the reader is on, zero-based; `None` when there is none.
    pub at: Option<usize>,
    pub scanning: bool,
    /// True when the scan stopped at [`MATCH_LIMIT`], so the total is a floor.
    pub capped: bool,
    /// True when the scan read the whole document and found no text at all.
    pub textless: bool,
}

/// One line of the results list: enough of the document either side of a
/// match to read it as a sentence.
#[derive(Clone, Debug, PartialEq)]
pub struct Result {
    pub at: usize,
    pub page: usize,
    pub before: String,
    pub hit: String,
    pub after: String,
}

/// A page, as the index holds it: its characters, and their fold made with
/// the case setting `cased`.
struct Indexed {
    chars: Vec<char>,
    fold: Fold,
    cased: bool,
}

/// The matches of one page.
struct Found {
    page: usize,
    hits: Vec<Hit>,
}

/// The index, the matches, and where the reader is in them.
pub struct Search {
    pages: HashMap<usize, Indexed>,
    found: Vec<Found>,
    matches: Vec<Hit>,
    at: Option<usize>,
    preferred: Option<Hit>,
    query: String,
    needle: Vec<char>,
    options: Options,
    capped: bool,
    scanning: bool,
    textless: bool,
    queue: Vec<usize>,
}

/// A search, as its callers can reason about it.
pub struct SearchView {
    /// Every page read so far, by number: its characters.
    pub index: Map<usize, Seq<char>>,
    /// The matches found in this scan, by page, in page order.
    pub found: Seq<(usize, Seq<Hit>)>,
    /// The matches as the list shows them, as of the last publish.
    pub matches: Seq<Hit>,
    pub at: Option<usize>,
    pub preferred: Option<Hit>,
    pub query: Seq<char>,
    pub needle: Seq<char>,
    pub options: Options,
    pub capped: bool,
    pub scanning: bool,
    pub textless: bool,
    /// The pages still to be read; the next one is the last.
    pub queue: Seq<usize>,
}

/// The matches of every page in `found`, in order.
pub open spec fn flat(found: Seq<(usize, Seq<Hit>)>) -> Seq<Hit>
    decreases found.len(),
{
    if found.len() == 0 {
        Seq::empty()
    } else {
        found[0].1 + flat(found.drop_first())
    }
}

/// `found` with `page` holding `hits`, in page order: replaced if it was
/// there, put in its place if it was not.
pub open spec fn found_insert(found: Seq<(usize, Seq<Hit>)>, page: usize, hits: Seq<Hit>) -> Seq<
    (usize, Seq<Hit>),
>
    decreases found.len(),
{
    if found.len() == 0 {
        seq![(page, hits)]
    } else if found[0].0 == page {
        seq![(page, hits)] + found.drop_first()
    } else if found[0].0 > page {
        seq![(page, hits)] + found
    } else {
        seq![found[0]] + found_insert(found.drop_first(), page, hits)
    }
}

/// Where `hit` first appears in `list`.
pub open spec fn first_index(list: Seq<Hit>, hit: Hit) -> Option<int>
    decreases list.len(),
{
    if list.len() == 0 {
        None
    } else if list[0] == hit {
        Some(0)
    } else {
        match first_index(list.drop_first(), hit) {
            Some(i) => Some(i + 1),
            None => None,
        }
    }
}

/// The search with every trace of a query gone, and the index kept.
pub open spec fn cleared(v: SearchView) -> SearchView {
    SearchView {
        found: Seq::empty(),
        matches: Seq::empty(),
        at: None,
        preferred: None,
        query: Seq::empty(),
        needle: Seq::empty(),
        capped: false,
        scanning: false,
        textless: false,
        queue: Seq::empty(),
        ..v
    }
}

/// Page `page`, with characters `chars`, read into the index and searched.
pub open spec fn fed(v: SearchView, page: usize, chars: Seq<char>) -> SearchView {
    searched(SearchView { queue: v.queue.drop_last(), index: v.index.insert(page, chars), ..v }, page)
}

/// An indexed page searched for the needle: what it says about the
/// document having text, and its matches, up to the limit.
pub open spec fn searched(v: SearchView, page: usize) -> SearchView {
    let chars = v.index[page];
    let textless = v.textless && all_white(chars);
    let hits = matches_from(
        folded_text(chars, v.options.match_case),
        folded_origin(chars, v.options.match_case),
        v.needle,
        page,
        v.options.whole_words,
        0,
    );
    let total = flat(v.found).len();
    if v.capped || hits.len() == 0 {
        SearchView { textless, ..v }
    } else {
        let over = total + hits.len() > MATCH_LIMIT;
        let kept = if over { hits.take(MATCH_LIMIT - total) } else { hits };
        let queue = if over { Seq::empty() } else { v.queue };
        if kept.len() == 0 {
            SearchView { queue, textless, capped: over, ..v }
        } else {
            SearchView {
                queue,
                textless,
                capped: over,
                preferred: if v.preferred is Some { v.preferred } else { Some(kept[0]) },
                found: found_insert(v.found, page, kept),
                ..v
            }
        }
    }
}

/// The list rebuilt from what has been found, keeping the reader on the
/// match they were on.
pub open spec fn published(v: SearchView) -> SearchView {
    let standing = match v.at {
        Some(at) if at < v.matches.len() => Some(v.matches[at as int]),
        _ => v.preferred,
    };
    let matches = flat(v.found);
    let at = match standing {
        Some(hit) if first_index(matches, hit) is Some => Some(first_index(matches, hit)->0 as usize),
        _ => if matches.len() == 0 { None } else { Some(0usize) },
    };
    SearchView { matches, at, scanning: if v.queue.len() == 0 { false } else { v.scanning }, ..v }
}

/// The match after the current one, or the one before, wrapping round.
pub open spec fn stepped(v: SearchView, forwards: bool) -> SearchView {
    let count = v.matches.len();
    if count == 0 {
        v
    } else {
        SearchView {
            at: Some(
                match v.at {
                    Some(at) => if forwards { ((at + 1) % (count as int)) as usize } else { ((at + count - 1) % (count as int)) as usize },
                    None => 0usize,
                },
            ),
            ..v
        }
    }
}

/// A step forwards and a step back undo each other, whichever comes first:
/// stepping wraps round at both ends of the matches.
pub proof fn law_a_step_back_undoes_a_step_forward(v: SearchView, forwards: bool)
    requires
        v.at matches Some(at) && at < v.matches.len(),
        v.matches.len() <= usize::MAX,
    ensures
        stepped(stepped(v, forwards), !forwards) == v,
{
    let n = v.matches.len() as int;
    let a = v.at->0 as int;
    if a + 1 < n {
        vstd::arithmetic::div_mod::lemma_small_mod((a + 1) as nat, n as nat);
    } else {
        vstd::arithmetic::div_mod::lemma_mod_add_multiples_vanish(0, n);
    }
    vstd::arithmetic::div_mod::lemma_mod_add_multiples_vanish(a, n);
    vstd::arithmetic::div_mod::lemma_small_mod(a as nat, n as nat);
    if a == 0 {
        vstd::arithmetic::div_mod::lemma_small_mod((n - 1) as nat, n as nat);
        vstd::arithmetic::div_mod::lemma_mod_add_multiples_vanish(n - 1, n);
    } else {
        vstd::arithmetic::div_mod::lemma_small_mod((a - 1) as nat, n as nat);
        vstd::arithmetic::div_mod::lemma_mod_add_multiples_vanish(a - 1, n);
    }
    let w = stepped(v, forwards);
    let b = w.at->0 as int;
    if forwards {
        assert(b == (a + 1) % n);
        if a + 1 < n {
            assert(b == a + 1);
            assert((b + n - 1) % n == a);
        } else {
            assert(b == 0);
            assert((b + n - 1) % n == a);
        }
    } else {
        assert(b == (a + n - 1) % n);
        if a == 0 {
            assert(b == n - 1);
            assert((b + 1) % n == a) by {
                vstd::arithmetic::div_mod::lemma_mod_add_multiples_vanish(0, n);
            }
        } else {
            assert(b == a - 1);
        }
    }
}

/// One line of the results, for the match at `at` on a page with
/// characters `chars`: a little before it, the match, and more after it.
pub open spec fn result_row(at: usize, hit: Hit, chars: Seq<char>) -> (usize, usize, Seq<char>, Seq<char>, Seq<char>) {
    let len = chars.len() as int;
    let before = if hit.from >= 18 { hit.from - 18 } else { 0 };
    let to = if hit.to <= len { hit.to as int } else { len };
    let after = if hit.to + 70 <= len { hit.to + 70 } else { len };
    (
        at,
        hit.page,
        tidied(chars.subrange(before, hit.from as int)),
        tidied(chars.subrange(hit.from as int, to)),
        tidied(chars.subrange(to, after)),
    )
}

/// The lines of the results for the first `n` matches.
pub open spec fn result_rows(v: SearchView, n: nat) -> Seq<(usize, usize, Seq<char>, Seq<char>, Seq<char>)>
    decreases n,
{
    if n == 0 {
        Seq::empty()
    } else {
        let k = (n - 1) as nat;
        let rows = result_rows(v, k);
        let hit = v.matches[k as int];
        if v.index.contains_key(hit.page) {
            rows.push(result_row(k as usize, hit, v.index[hit.page]))
        } else {
            rows
        }
    }
}

/// The lines of the results list: one per match on a page the index holds,
/// at most `limit` of them.
pub open spec fn results_of(v: SearchView, limit: usize) -> Seq<(usize, usize, Seq<char>, Seq<char>, Seq<char>)> {
    let rows = result_rows(v, v.matches.len());
    if rows.len() <= limit { rows } else { rows.take(limit as int) }
}

/// A line of the results as its parts.
pub open spec fn row_of(row: Result) -> (usize, usize, Seq<char>, Seq<char>, Seq<char>) {
    (row.at, row.page, row.before@, row.hit@, row.after@)
}

/// A match that points into a page the index holds.
pub open spec fn hit_valid(index: Map<usize, Seq<char>>, hit: Hit) -> bool {
    &&& index.contains_key(hit.page)
    &&& hit.from < hit.to <= index[hit.page].len()
}

impl Search {
    pub closed spec fn view(&self) -> SearchView {
        SearchView {
            index: self.pages@.map_values(|ix: Indexed| ix.chars@),
            found: self.found@.map_values(|f: Found| (f.page, f.hits@)),
            matches: self.matches@,
            at: self.at,
            preferred: self.preferred,
            query: self.query@,
            needle: self.needle@,
            options: self.options,
            capped: self.capped,
            scanning: self.scanning,
            textless: self.textless,
            queue: self.queue@,
        }
    }

    /// What every search keeps: each page's fold is the fold of its
    /// characters, the matches point into pages the index holds, the list
    /// of found pages is in order, and there are never more than
    /// [`MATCH_LIMIT`] of them.
    pub closed spec fn wf(&self) -> bool {
        let v = self.view();
        &&& forall|p: usize| #[trigger] self.pages@.contains_key(p) ==> {
            let ix = self.pages@[p];
            &&& ix.fold.text@ == folded_text(ix.chars@, ix.cased)
            &&& ix.fold.origin@ == folded_origin(ix.chars@, ix.cased)
        }
        &&& forall|i: int, j: int| 0 <= i < j < v.found.len() ==> v.found[i].0 < v.found[j].0
        &&& forall|i: int| 0 <= i < v.found.len() ==> v.found[i].1.len() > 0
        &&& forall|i: int, k: int| 0 <= i < v.found.len() && 0 <= k < v.found[i].1.len()
            ==> #[trigger] v.found[i].1[k].page == v.found[i].0 && hit_valid(v.index, v.found[i].1[k])
        &&& flat(v.found).len() <= MATCH_LIMIT
        &&& forall|k: int| 0 <= k < v.matches.len() ==> hit_valid(v.index, #[trigger] v.matches[k])
        &&& (v.preferred matches Some(h) ==> hit_valid(v.index, h))
        &&& (v.at matches Some(a) ==> a < v.matches.len())
    }
}


impl Search {
    pub fn new() -> (r: Search)
        ensures
            r.wf(),
            r@ == (SearchView {
                index: Map::empty(),
                found: Seq::empty(),
                matches: Seq::empty(),
                at: None,
                preferred: None,
                query: Seq::empty(),
                needle: Seq::empty(),
                options: Options { match_case: false, whole_words: false },
                capped: false,
                scanning: false,
                textless: false,
                queue: Seq::empty(),
            }),
    {
        let r = Search {
            pages: HashMap::new(),
            found: Vec::new(),
            matches: Vec::new(),
            at: None,
            preferred: None,
            query: String::new(),
            needle: Vec::new(),
            options: Options { match_case: false, whole_words: false },
            capped: false,
            scanning: false,
            textless: false,
            queue: Vec::new(),
        };
        proof {
            assert(r@.index =~= Map::empty());
            assert(r@.found =~= Seq::empty());
        }
        r
    }

    pub fn options(&self) -> (r: Options)
        ensures
            r == self@.options,
    {
        self.options
    }

    /// Change how a query is matched. The extracted text stays.
    pub fn set_options(&mut self, options: Options)
        requires
            old(self).wf(),
        ensures
            final(self).wf(),
            final(self)@ == (SearchView { options, ..old(self)@ }),
    {
        self.options = options;
    }

    pub fn query(&self) -> (r: &str)
        ensures
            r@ == self@.query,
    {
        self.query.as_str()
    }

    pub fn scanning(&self) -> (r: bool)
        ensures
            r == self@.scanning,
    {
        self.scanning
    }

    pub fn matches(&self) -> (r: &[Hit])
        ensures
            r@ == self@.matches,
    {
        self.matches.as_slice()
    }

    /// The next page the scan wants, or `None` when it is done.
    pub fn wants(&self) -> (r: Option<usize>)
        ensures
            r == (if self@.queue.len() == 0 { None } else { Some(self@.queue.last()) }),
    {
        if self.queue.len() == 0 {
            None
        } else {
            Some(self.queue[self.queue.len() - 1])
        }
    }

    /// Stop looking, and keep what has been read.
    pub fn clear(&mut self)
        requires
            old(self).wf(),
        ensures
            final(self).wf(),
            final(self)@ == cleared(old(self)@),
    {
        self.query = String::new();
        self.needle = Vec::new();
        self.found = Vec::new();
        self.matches = Vec::new();
        self.queue = Vec::new();
        self.at = None;
        self.preferred = None;
        self.capped = false;
        self.scanning = false;
        self.textless = false;
        proof {
            assert(self@.found =~= Seq::empty());
        }
    }

    /// Put the index down, and everything found with it.
    pub fn forget(&mut self)
        requires
            old(self).wf(),
        ensures
            final(self).wf(),
            final(self)@ == (SearchView { index: Map::empty(), ..cleared(old(self)@) }),
    {
        self.clear();
        self.pages = HashMap::new();
        proof {
            assert(self@.index =~= Map::empty());
        }
    }

    /// Move to the next match, or the one before. Wraps.
    pub fn step(&mut self, forwards: bool)
        requires
            old(self).wf(),
        ensures
            final(self).wf(),
            final(self)@ == stepped(old(self)@, forwards),
    {
        if self.matches.len() == 0 {
            return;
        }
        let count = self.matches.len();
        proof {
            if let Some(at) = self.at {
                let a = at as int;
                let c = count as int;
                if a == 0 {
                    assert((a + c - 1) % c == c - 1) by (nonlinear_arith)
                        requires a == 0, c > 0;
                } else {
                    assert((a + c - 1) % c == a - 1) by (nonlinear_arith)
                        requires 0 < a < c;
                }
            }
        }
        self.at = Some(
            match self.at {
                Some(at) => if forwards { (at + 1) % count } else if at == 0 { count - 1 } else { at - 1 },
                None => 0,
            },
        );
    }

    /// Go to one result by its place in the list.
    pub fn go_to(&mut self, at: usize)
        requires
            old(self).wf(),
        ensures
            final(self).wf(),
            final(self)@ == (if at < old(self)@.matches.len() {
                SearchView { at: Some(at), ..old(self)@ }
            } else {
                old(self)@
            }),
    {
        if at < self.matches.len() {
            self.at = Some(at);
        }
    }

    /// The match the reader is on.
    pub fn current(&self) -> (r: Option<Hit>)
        requires
            self.wf(),
        ensures
            r == (match self@.at {
                Some(at) => Some(self@.matches[at as int]),
                None => None,
            }),
    {
        match self.at {
            Some(at) => Some(self.matches[at]),
            None => None,
        }
    }

    pub fn state(&self) -> (r: State)
        ensures
            r.query@ == self@.query,
            r.total == self@.matches.len(),
            r.at == self@.at,
            r.scanning == self@.scanning,
            r.capped == self@.capped,
            r.textless == (self@.textless && !self@.scanning),
    {
        State {
            query: self.query.clone(),
            total: self.matches.len(),
            at: self.at,
            scanning: self.scanning,
            capped: self.capped,
            textless: self.textless && !self.scanning,
        }
    }
}


/* ------------------------------------------------------- search, proofs */

/// Pages in strictly increasing order.
pub open spec fn in_page_order(found: Seq<(usize, Seq<Hit>)>) -> bool {
    forall|i: int, j: int| 0 <= i < j < found.len() ==> found[i].0 < found[j].0
}

proof fn lemma_flat_concat(a: Seq<(usize, Seq<Hit>)>, b: Seq<(usize, Seq<Hit>)>)
    ensures
        flat(a + b) == flat(a) + flat(b),
    decreases a.len(),
{
    if a.len() == 0 {
        assert(a + b =~= b);
        assert(flat(a) + flat(b) =~= flat(b));
    } else {
        assert((a + b).drop_first() =~= a.drop_first() + b);
        lemma_flat_concat(a.drop_first(), b);
        assert(flat(a + b) =~= flat(a) + flat(b));
    }
}

proof fn lemma_flat_one(x: (usize, Seq<Hit>))
    ensures
        flat(seq![x]) == x.1,
{
    assert(seq![x].drop_first() =~= Seq::<(usize, Seq<Hit>)>::empty());
    assert(flat(Seq::<(usize, Seq<Hit>)>::empty()) =~= Seq::<Hit>::empty());
    assert(seq![x][0] == x);
    assert(x.1 + Seq::<Hit>::empty() =~= x.1);
}

proof fn lemma_flat_take(a: Seq<(usize, Seq<Hit>)>, i: int)
    requires
        0 <= i < a.len(),
    ensures
        flat(a.take(i + 1)) == flat(a.take(i)) + a[i].1,
        flat(a.take(i)).len() + a[i].1.len() <= flat(a).len(),
{
    assert(a.take(i + 1) =~= a.take(i) + seq![a[i]]);
    lemma_flat_concat(a.take(i), seq![a[i]]);
    lemma_flat_one(a[i]);
    assert(a =~= a.take(i + 1) + a.skip(i + 1));
    lemma_flat_concat(a.take(i + 1), a.skip(i + 1));
}

proof fn lemma_flat_member(a: Seq<(usize, Seq<Hit>)>, k: int)
    requires
        0 <= k < flat(a).len(),
    ensures
        exists|i: int, j: int| 0 <= i < a.len() && 0 <= j < a[i].1.len() && flat(a)[k] == a[i].1[j],
    decreases a.len(),
{
    if a.len() > 0 {
        if k < a[0].1.len() {
            assert(flat(a)[k] == a[0].1[k]);
        } else {
            lemma_flat_member(a.drop_first(), k - a[0].1.len());
            let (i, j) = choose|i: int, j: int|
                0 <= i < a.drop_first().len() && 0 <= j < a.drop_first()[i].1.len()
                    && flat(a.drop_first())[k - a[0].1.len()] == a.drop_first()[i].1[j];
            assert(flat(a)[k] == a[i + 1].1[j]);
        }
    }
}

proof fn lemma_found_insert(f: Seq<(usize, Seq<Hit>)>, page: usize, hits: Seq<Hit>)
    requires
        in_page_order(f),
    ensures
        in_page_order(found_insert(f, page, hits)),
        forall|j: int| 0 <= j < found_insert(f, page, hits).len() ==> {
            ||| found_insert(f, page, hits)[j] == (page, hits)
            ||| exists|i: int| 0 <= i < f.len() && #[trigger] f[i] == found_insert(f, page, hits)[j]
        },
        flat(found_insert(f, page, hits)).len() <= flat(f).len() + hits.len(),
        forall|j: int| 0 <= j < found_insert(f, page, hits).len() ==> (found_insert(f, page, hits)[j].0 == page
            ==> found_insert(f, page, hits)[j] == (page, hits)),
        forall|j: int| 0 <= j < found_insert(f, page, hits).len() ==> (found_insert(f, page, hits)[j].0 == page
            || exists|i: int| 0 <= i < f.len() && #[trigger] f[i] == found_insert(f, page, hits)[j]),
    decreases f.len(),
{
    let r = found_insert(f, page, hits);
    if f.len() == 0 {
        lemma_flat_one((page, hits));
    } else if f[0].0 == page {
        assert(r.drop_first() =~= f.drop_first());
        assert forall|j: int| 0 <= j < r.len() implies (r[j] == (page, hits) || exists|i: int| 0 <= i < f.len() && #[trigger] f[i] == r[j]) by {
            if j > 0 { assert(f[j] == r[j]); }
        }
        assert forall|j: int| 0 <= j < r.len() && r[j].0 == page implies r[j] == (page, hits) by {
            if j > 0 { assert(f[0].0 < f[j].0); }
        }
        assert forall|j: int| 0 <= j < r.len() implies (r[j].0 == page || exists|i: int| 0 <= i < f.len() && #[trigger] f[i] == r[j]) by {
            if j > 0 { assert(f[j] == r[j]); }
        }
    } else if f[0].0 > page {
        assert(r.drop_first() =~= f);
        assert forall|j: int| 0 <= j < r.len() implies (r[j] == (page, hits) || exists|i: int| 0 <= i < f.len() && #[trigger] f[i] == r[j]) by {
            if j > 0 { assert(f[j - 1] == r[j]); }
        }
        assert forall|j: int| 0 <= j < r.len() && r[j].0 == page implies r[j] == (page, hits) by {
            if j > 0 { assert(f[0].0 <= f[j - 1].0); }
        }
        assert forall|j: int| 0 <= j < r.len() implies (r[j].0 == page || exists|i: int| 0 <= i < f.len() && #[trigger] f[i] == r[j]) by {
            if j > 0 { assert(f[j - 1] == r[j]); }
        }
        assert forall|i: int, j: int| 0 <= i < j < r.len() implies r[i].0 < r[j].0 by {
            if i > 0 { assert(f[i - 1].0 < f[j - 1].0); } else if j > 1 { assert(f[0].0 < f[j - 1].0); }
        }
    } else {
        let rest = found_insert(f.drop_first(), page, hits);
        assert(in_page_order(f.drop_first()));
        lemma_found_insert(f.drop_first(), page, hits);
        assert(r.drop_first() =~= rest);
        assert forall|j: int| 0 <= j < r.len() implies (r[j] == (page, hits) || exists|i: int| 0 <= i < f.len() && #[trigger] f[i] == r[j]) by {
            if j == 0 {
                assert(f[0] == r[0]);
            } else {
                assert(r[j] == rest[j - 1]);
                if rest[j - 1] != (page, hits) {
                    let i = choose|i: int| 0 <= i < f.drop_first().len() && #[trigger] f.drop_first()[i] == rest[j - 1];
                    assert(f[i + 1] == r[j]);
                }
            }
        }
        assert forall|j: int| 0 <= j < r.len() && r[j].0 == page implies r[j] == (page, hits) by {
            if j > 0 { assert(r[j] == rest[j - 1]); }
        }
        assert forall|j: int| 0 <= j < r.len() implies (r[j].0 == page || exists|i: int| 0 <= i < f.len() && #[trigger] f[i] == r[j]) by {
            if j == 0 {
                assert(f[0] == r[0]);
            } else {
                assert(r[j] == rest[j - 1]);
                if rest[j - 1].0 != page {
                    let i = choose|i: int| 0 <= i < f.drop_first().len() && #[trigger] f.drop_first()[i] == rest[j - 1];
                    assert(f[i + 1] == r[j]);
                }
            }
        }
        assert forall|i: int, j: int| 0 <= i < j < r.len() implies r[i].0 < r[j].0 by {
            if i > 0 {
                assert(r[i] == rest[i - 1] && r[j] == rest[j - 1]);
            } else {
                assert(r[j] == rest[j - 1]);
                if rest[j - 1] == (page, hits) {
                } else {
                    let k = choose|k: int| 0 <= k < f.drop_first().len() && #[trigger] f.drop_first()[k] == rest[j - 1];
                    assert(f[0].0 < f[k + 1].0);
                }
            }
        }
    }
}

proof fn lemma_found_insert_at(f: Seq<(usize, Seq<Hit>)>, page: usize, hits: Seq<Hit>, i: int)
    requires
        0 <= i <= f.len(),
        forall|j: int| 0 <= j < i ==> f[j].0 < page,
        i == f.len() || f[i].0 >= page,
    ensures
        found_insert(f, page, hits) == (if i < f.len() && f[i].0 == page {
            f.take(i) + seq![(page, hits)] + f.skip(i + 1)
        } else {
            f.take(i) + seq![(page, hits)] + f.skip(i)
        }),
    decreases i,
{
    if i == 0 {
        if f.len() == 0 {
            assert(f.take(0) + seq![(page, hits)] + f.skip(0) =~= seq![(page, hits)]);
        } else if f[0].0 == page {
            assert(f.take(0) + seq![(page, hits)] + f.skip(1) =~= seq![(page, hits)] + f.drop_first());
        } else {
            assert(f.take(0) + seq![(page, hits)] + f.skip(0) =~= seq![(page, hits)] + f);
        }
    } else {
        lemma_found_insert_at(f.drop_first(), page, hits, i - 1);
        if i < f.len() && f[i].0 == page {
            assert(seq![f[0]] + (f.drop_first().take(i - 1) + seq![(page, hits)] + f.drop_first().skip(i))
                =~= f.take(i) + seq![(page, hits)] + f.skip(i + 1));
        } else {
            assert(seq![f[0]] + (f.drop_first().take(i - 1) + seq![(page, hits)] + f.drop_first().skip(i - 1))
                =~= f.take(i) + seq![(page, hits)] + f.skip(i));
        }
    }
}

proof fn lemma_hits_valid(
    text: Seq<char>,
    origin: Seq<usize>,
    needle: Seq<char>,
    number: usize,
    whole_words: bool,
    at: int,
    len: int,
)
    requires
        origin.len() == text.len() + 1,
        origin[text.len() as int] == len,
        forall|i: int, j: int| 0 <= i <= j < origin.len() ==> origin[i] <= origin[j],
        forall|i: int| 0 <= i < text.len() ==> origin[i] < len,
        at >= 0,
    ensures
        forall|k: int| 0 <= k < matches_from(text, origin, needle, number, whole_words, at).len() ==> {
            let h = #[trigger] matches_from(text, origin, needle, number, whole_words, at)[k];
            h.page == number && h.from < h.to <= len
        },
    decreases text.len() - at,
{
    if needle.len() == 0 || at + needle.len() > text.len() {
    } else if takes_at(text, needle, at, whole_words) {
        lemma_hits_valid(text, origin, needle, number, whole_words, at + needle.len(), len);
        let n = needle.len() as int;
        assert(origin[at] <= origin[at + n - 1]);
        let m = matches_from(text, origin, needle, number, whole_words, at);
        let rest = matches_from(text, origin, needle, number, whole_words, at + n);
        assert(m == seq![hit_at(origin, at, n, number)] + rest);
        assert(origin[at + n] <= origin[text.len() as int]);
        assert forall|k: int| 0 <= k < m.len() implies ({
            let h = #[trigger] m[k];
            h.page == number && h.from < h.to <= len
        }) by {
            if k > 0 { assert(m[k] == rest[k - 1]); }
        }
    } else {
        lemma_hits_valid(text, origin, needle, number, whole_words, at + 1, len);
        assert(matches_from(text, origin, needle, number, whole_words, at)
            == matches_from(text, origin, needle, number, whole_words, at + 1));
    }
}

proof fn lemma_first_index(list: Seq<Hit>, hit: Hit, i: int)
    requires
        0 <= i <= list.len(),
        forall|k: int| 0 <= k < i ==> list[k] != hit,
    ensures
        i < list.len() && list[i] == hit ==> first_index(list, hit) == Some(i),
        i == list.len() ==> first_index(list, hit) is None,
    decreases i,
{
    if i > 0 {
        assert forall|k: int| 0 <= k < i - 1 implies list.drop_first()[k] != hit by {
            assert(list.drop_first()[k] == list[k + 1]);
        }
        lemma_first_index(list.drop_first(), hit, i - 1);
    }
}

proof fn lemma_first_index_in(list: Seq<Hit>, hit: Hit)
    ensures
        first_index(list, hit) matches Some(i) ==> 0 <= i < list.len() && list[i] == hit,
    decreases list.len(),
{
    if list.len() > 0 && list[0] != hit {
        lemma_first_index_in(list.drop_first(), hit);
        if let Some(i) = first_index(list.drop_first(), hit) {
            assert(list[i + 1] == list.drop_first()[i]);
        }
    }
}

proof fn lemma_rows_prefix(v: SearchView, m: nat, n: nat)
    requires
        m <= n,
    ensures
        result_rows(v, m).len() <= result_rows(v, n).len(),
        result_rows(v, n).take(result_rows(v, m).len() as int) == result_rows(v, m),
    decreases n,
{
    if m < n {
        lemma_rows_prefix(v, m, (n - 1) as nat);
        let a = result_rows(v, m);
        let b = result_rows(v, (n - 1) as nat);
        assert(result_rows(v, n).take(a.len() as int) =~= b.take(a.len() as int));
    } else {
        assert(result_rows(v, n).take(result_rows(v, n).len() as int) =~= result_rows(v, n));
    }
}

proof fn lemma_rows_grow(v: SearchView, n: nat)
    ensures
        result_rows(v, n).len() <= n,
    decreases n,
{
    if n > 0 {
        lemma_rows_grow(v, (n - 1) as nat);
    }
}

impl Search {
    /// How many matches have been found so far.
    fn total(&self) -> (r: usize)
        requires
            self.wf(),
        ensures
            r == flat(self@.found).len(),
    {
        let ghost f = self@.found;
        let mut sum: usize = 0;
        let mut i: usize = 0;
        while i < self.found.len()
            invariant
                self.wf(),
                f == self@.found,
                i <= f.len(),
                sum == flat(f.take(i as int)).len(),
            decreases f.len() - i,
        {
            proof {
                lemma_flat_take(f, i as int);
            }
            sum = sum + self.found[i].hits.len();
            i = i + 1;
        }
        proof {
            assert(f.take(f.len() as int) =~= f);
        }
        sum
    }

    /// Every match found, in page order.
    fn flattened(&self) -> (r: Vec<Hit>)
        requires
            self.wf(),
        ensures
            r@ == flat(self@.found),
    {
        let ghost f = self@.found;
        let mut out: Vec<Hit> = Vec::new();
        let mut i: usize = 0;
        while i < self.found.len()
            invariant
                self.wf(),
                f == self@.found,
                i <= f.len(),
                out@ == flat(f.take(i as int)),
            decreases f.len() - i,
        {
            proof {
                lemma_flat_take(f, i as int);
            }
            let hits = &self.found[i].hits;
            let mut k: usize = 0;
            let ghost start = out@;
            while k < hits.len()
                invariant
                    k <= hits@.len(),
                    out@ == start + hits@.take(k as int),
                decreases hits@.len() - k,
            {
                out.push(hits[k]);
                proof {
                    assert(start + hits@.take(k + 1) =~= (start + hits@.take(k as int)).push(hits@[k as int]));
                }
                k = k + 1;
            }
            proof {
                assert(hits@.take(hits@.len() as int) =~= hits@);
            }
            i = i + 1;
        }
        proof {
            assert(f.take(f.len() as int) =~= f);
        }
        out
    }

    /// Put `hits` in the list of found pages, at `page`'s place.
    fn insert_found(&mut self, page: usize, hits: Vec<Hit>)
        requires
            in_page_order(old(self)@.found),
        ensures
            final(self)@ == (SearchView { found: found_insert(old(self)@.found, page, hits@), ..old(self)@ }),
            final(self).pages == old(self).pages,
    {
        let ghost f = self@.found;
        let mut i: usize = 0;
        while i < self.found.len() && self.found[i].page < page
            invariant
                f == self@.found,
                i <= f.len(),
                forall|j: int| 0 <= j < i ==> f[j].0 < page,
            decreases f.len() - i,
        {
            i = i + 1;
        }
        proof {
            lemma_found_insert_at(f, page, hits@, i as int);
        }
        let ghost h = hits@;
        if i < self.found.len() && self.found[i].page == page {
            self.found.remove(i);
            self.found.insert(i, Found { page, hits });
            proof {
                assert(self@.found =~= f.take(i as int) + seq![(page, h)] + f.skip(i + 1));
            }
        } else {
            self.found.insert(i, Found { page, hits });
            proof {
                assert(self@.found =~= f.take(i as int) + seq![(page, h)] + f.skip(i as int));
            }
        }
    }

    /// Start looking for `query`, from the page being read outwards. Returns
    /// whether there is a scan to run.
    pub fn find(&mut self, query: &str, from_page: usize, pages: usize) -> (r: bool)
        requires
            old(self).wf(),
        ensures
            final(self).wf(),
            ({
                let v = old(self)@;
                let needle = folded_text(query@, v.options.match_case);
                &&& r == (!all_white(query@) && needle.len() > 0)
                &&& final(self)@ == (if all_white(query@) {
                    SearchView { query: query@, ..cleared(v) }
                } else if needle.len() == 0 {
                    SearchView { query: query@, needle, ..cleared(v) }
                } else {
                    SearchView {
                        query: query@,
                        needle,
                        textless: true,
                        scanning: true,
                        queue: pages_order(from_page, pages).reverse(),
                        ..cleared(v)
                    }
                })
            }),
    {
        self.clear();
        self.query = query.to_owned();
        let typed = chars_of(query);
        if only_white(typed.as_slice()) {
            return false;
        }
        self.needle = fold(typed.as_slice(), self.options.match_case).text;
        if self.needle.len() == 0 {
            return false;
        }
        self.textless = true;
        self.scanning = true;
        let order = pages_from_here(from_page, pages);
        let mut queue: Vec<usize> = Vec::new();
        let mut i: usize = 0;
        while i < order.len()
            invariant
                i <= order@.len(),
                queue@.len() == i,
                forall|k: int| 0 <= k < i ==> queue@[k] == order@[order@.len() - 1 - k],
            decreases order@.len() - i,
        {
            queue.push(order[order.len() - 1 - i]);
            i = i + 1;
        }
        proof {
            assert(queue@ =~= order@.reverse());
        }
        self.queue = queue;
        true
    }

    /// Read a page into the index if it is not there, and bring its fold up
    /// to the case setting.
    fn index_page<F: FnOnce() -> Vec<char>>(&mut self, page: usize, text: F, case: bool)
        requires
            old(self).wf(),
            text.requires(()),
        ensures
            final(self).wf(),
            final(self).pages@.contains_key(page),
            final(self).pages@[page].cased == case,
            final(self)@ == (SearchView { index: old(self)@.index.insert(page, final(self)@.index[page]), ..old(self)@ }),
            old(self)@.index.contains_key(page) ==> final(self)@.index[page] == old(self)@.index[page],
            !old(self)@.index.contains_key(page) ==> exists|chars: Vec<char>|
                text.ensures((), chars) && chars@ == final(self)@.index[page],
    {
        broadcast use vstd::std_specs::hash::group_hash_axioms;
        let ghost v = self@;
        let ghost old_pages = self.pages@;
        let ghost mut read: Seq<char> = Seq::empty();
        if !self.pages.contains_key(&page) {
            let chars = text();
            proof { read = chars@; assert(text.ensures((), chars)); }
            let folded = fold(chars.as_slice(), case);
            self.pages.insert(page, Indexed { chars, fold: folded, cased: case });
        } else {
            let entry = self.pages.remove(&page);
            let entry = entry.unwrap();
            let entry = if entry.cased != case {
                let folded = fold(entry.chars.as_slice(), case);
                Indexed { chars: entry.chars, fold: folded, cased: case }
            } else {
                entry
            };
            self.pages.insert(page, entry);
        }
        proof {
            let chars = self.pages@[page].chars@;
            if v.index.contains_key(page) {
                assert(chars == v.index[page]);
            } else {
                assert(chars == read);
            }
            assert(self@.index =~= v.index.insert(page, chars));
            assert forall|p: usize| #[trigger] self.pages@.contains_key(p) implies ({
                let ix = self.pages@[p];
                &&& ix.fold.text@ == folded_text(ix.chars@, ix.cased)
                &&& ix.fold.origin@ == folded_origin(ix.chars@, ix.cased)
            }) by {
                if p != page {
                    assert(old_pages.contains_key(p));
                }
            }
            assert forall|h: Hit| hit_valid(v.index, h) implies hit_valid(self@.index, h) by {
                if h.page == page {
                    assert(old_pages.contains_key(page));
                }
            }
            let f = self@.found;
            assert forall|i: int, k: int| 0 <= i < f.len() && 0 <= k < f[i].1.len()
                implies #[trigger] f[i].1[k].page == f[i].0 && hit_valid(self@.index, f[i].1[k]) by {
                assert(hit_valid(v.index, f[i].1[k]));
            }
            assert forall|k: int| 0 <= k < self@.matches.len() implies hit_valid(self@.index, #[trigger] self@.matches[k]) by {
                assert(hit_valid(v.index, self@.matches[k]));
            }
        }
    }

    /// Hand over the page [`Search::wants`] asked for. `text` is only called
    /// when the page has not been read before.
    #[verifier::rlimit(50)]
    pub fn feed<F: FnOnce() -> Vec<char>>(&mut self, page: usize, text: F)
        requires
            old(self).wf(),
            text.requires(()),
        ensures
            final(self).wf(),
            ({
                let v = old(self)@;
                if v.queue.len() > 0 && v.queue.last() == page {
                    &&& v.index.contains_key(page) ==> final(self)@ == fed(v, page, v.index[page])
                    &&& !v.index.contains_key(page) ==> exists|chars: Vec<char>|
                        text.ensures((), chars) && final(self)@ == fed(v, page, chars@)
                } else {
                    final(self)@ == v
                }
            }),
    {
        broadcast use vstd::std_specs::hash::group_hash_axioms;
        if self.queue.len() == 0 || self.queue[self.queue.len() - 1] != page {
            return;
        }
        let ghost v = self@;
        self.queue.pop();
        let case = self.options.match_case;
        self.index_page(page, text, case);
        let ghost chars = self@.index[page];
        proof {
            assert(self@ == (SearchView { queue: v.queue.drop_last(), index: v.index.insert(page, chars), ..v }));
        }
        self.search_page(page);
    }

    /// Search one indexed page, whose fold is made with the case setting.
    #[verifier::rlimit(50)]
    fn search_page(&mut self, page: usize)
        requires
            old(self).wf(),
            old(self).pages@.contains_key(page),
            old(self).pages@[page].cased == old(self)@.options.match_case,
        ensures
            final(self).wf(),
            final(self)@ == searched(old(self)@, page),
    {
        broadcast use vstd::std_specs::hash::group_hash_axioms;
        let case = self.options.match_case;
        let ghost chars = self@.index[page];
        let indexed = self.pages.get(&page).unwrap();
        let blank = only_white(indexed.chars.as_slice());
        if !blank {
            self.textless = false;
        }
        if self.capped {
            return;
        }
        let _ = indexed.chars.len();
        proof {
            law_fold_origin(chars, case);
            lemma_hits_valid(folded_text(chars, case), folded_origin(chars, case), self.needle@, page, self.options.whole_words, 0, chars.len() as int);
        }
        let mut hits = locate(&indexed.fold, self.needle.as_slice(), page, self.options.whole_words);
        if hits.len() == 0 {
            return;
        }
        let total = self.total();
        let ghost all = hits@;
        if hits.len() > MATCH_LIMIT - total {
            hits.truncate(MATCH_LIMIT - total);
            self.capped = true;
            self.queue.clear();
        }
        proof {
            assert forall|k: int| 0 <= k < hits@.len() implies #[trigger] hits@[k].page == page && hit_valid(self@.index, hits@[k]) by {
                assert(hits@[k] == all[k]);
            }
        }
        if hits.len() > 0 {
            self.record(page, hits);
        }
    }

    /// Take a page's matches into the list of found pages, and settle on the
    /// first of them if nothing has been settled on.
    #[verifier::rlimit(30)]
    fn record(&mut self, page: usize, hits: Vec<Hit>)
        requires
            old(self).wf(),
            hits@.len() > 0,
            flat(old(self)@.found).len() + hits@.len() <= MATCH_LIMIT,
            forall|k: int| 0 <= k < hits@.len() ==> #[trigger] hits@[k].page == page && hit_valid(old(self)@.index, hits@[k]),
        ensures
            final(self).wf(),
            final(self)@ == (SearchView {
                preferred: if old(self)@.preferred is Some { old(self)@.preferred } else { Some(hits@[0]) },
                found: found_insert(old(self)@.found, page, hits@),
                ..old(self)@
            }),
    {
        if self.preferred.is_none() {
            self.preferred = Some(hits[0]);
        }
        let ghost before = self@.found;
        let ghost kept = hits@;
        proof {
            lemma_found_insert(before, page, kept);
        }
        self.insert_found(page, hits);
        proof {
            let after = self@.found;
            assert forall|i: int, k: int| 0 <= i < after.len() && 0 <= k < after[i].1.len()
                implies #[trigger] after[i].1[k].page == after[i].0 && hit_valid(self@.index, after[i].1[k]) by {
                if after[i] != (page, kept) {
                    let j = choose|j: int| 0 <= j < before.len() && #[trigger] before[j] == after[i];
                    assert(before[j].1[k] == after[i].1[k]);
                } else {
                    assert(kept[k] == hits@[k]);
                }
            }
            assert forall|i: int| 0 <= i < after.len() implies after[i].1.len() > 0 by {
                if after[i] != (page, kept) {
                    let j = choose|j: int| 0 <= j < before.len() && #[trigger] before[j] == after[i];
                }
            }
        }
    }

    /// Rebuild the ordered list from what has been found so far, keeping the
    /// reader on the match they were on.
    pub fn publish(&mut self)
        requires
            old(self).wf(),
        ensures
            final(self).wf(),
            final(self)@ == published(old(self)@),
    {
        let standing = match self.at {
            Some(at) => if at < self.matches.len() { Some(self.matches[at]) } else { self.preferred },
            None => self.preferred,
        };
        let matches = self.flattened();
        let mut at: Option<usize> = None;
        if let Some(hit) = standing {
            let mut i: usize = 0;
            while i < matches.len() && at.is_none()
                invariant
                    i <= matches@.len(),
                    at is None ==> forall|k: int| 0 <= k < i ==> matches@[k] != hit,
                    at matches Some(j) ==> first_index(matches@, hit) == Some(j as int),
                decreases matches@.len() - i,
            {
                if matches[i] == hit {
                    proof { lemma_first_index(matches@, hit, i as int); }
                    at = Some(i);
                }
                i = i + 1;
            }
            proof {
                if at is None { lemma_first_index(matches@, hit, i as int); }
            }
        }
        if at.is_none() {
            at = if matches.len() == 0 { None } else { Some(0) };
        }
        proof {
            if let Some(hit) = standing { lemma_first_index_in(matches@, hit); }
            let f = self@.found;
            assert forall|k: int| 0 <= k < matches@.len() implies hit_valid(self@.index, #[trigger] matches@[k]) by {
                lemma_flat_member(f, k);
                let (i, j) = choose|i: int, j: int| 0 <= i < f.len() && 0 <= j < f[i].1.len() && flat(f)[k] == f[i].1[j];
                assert(f[i].1[j].page == f[i].0);
            }
        }
        self.matches = matches;
        self.at = at;
        if self.queue.len() == 0 {
            self.scanning = false;
        }
    }

    /// The matches, in page order, with a line of the document either side of
    /// each, at most `limit` of them.
    pub fn results(&self, limit: usize) -> (r: Vec<Result>)
        requires
            self.wf(),
        ensures
            r@.map_values(|row: Result| row_of(row)) == results_of(self@, limit),
    {
        broadcast use vstd::std_specs::hash::group_hash_axioms;
        let ghost v = self@;
        let mut out: Vec<Result> = Vec::new();
        let mut at: usize = 0;
        proof {
            lemma_rows_grow(v, self@.matches.len());
            assert(out@.map_values(|row: Result| row_of(row)) =~= result_rows(v, 0));
        }
        while at < self.matches.len() && out.len() < limit
            invariant
                self.wf(),
                v == self@,
                at <= v.matches.len(),
                out@.len() <= limit,
                out@.map_values(|row: Result| row_of(row)) == result_rows(v, at as nat),
            decreases v.matches.len() - at,
        {
            let hit = self.matches[at];
            let ghost rows = result_rows(v, at as nat);
            let ghost before_out = out@;
            match self.pages.get(&hit.page) {
                None => {
                    proof {
                        assert(!v.index.contains_key(hit.page));
                        assert(result_rows(v, (at + 1) as nat) == rows);
                    }
                },
                Some(indexed) => {
                    let chars = &indexed.chars;
                    let len = chars.len();
                    let before = if hit.from >= 18 { hit.from - 18 } else { 0 };
                    let to = if hit.to <= len { hit.to } else { len };
                    let after = if len - to > 70 { to + 70 } else { len };
                    proof {
                        assert(v.index.contains_key(hit.page));
                        assert(v.index[hit.page] == chars@);
                        assert(hit_valid(v.index, hit));
                    }
                    let before_text = tidy(slice_of(chars.as_slice(), before, hit.from).as_slice());
                    let hit_text = tidy(slice_of(chars.as_slice(), hit.from, to).as_slice());
                    let after_text = tidy(slice_of(chars.as_slice(), to, after).as_slice());
                    let line = Result { at, page: hit.page, before: before_text, hit: hit_text, after: after_text };
                    proof {
                        let row = result_row(at, hit, chars@);
                        assert(result_rows(v, (at + 1) as nat) == rows.push(row));
                        assert(row_of(line) == row);
                    }
                    out.push(line);
                    proof {
                        assert(out@.map_values(|row: Result| row_of(row))
                            =~= before_out.map_values(|row: Result| row_of(row)).push(row_of(line)));
                    }
                },
            }
            at = at + 1;
        }
        proof {
            lemma_rows_prefix(v, at as nat, v.matches.len());
            let all = result_rows(v, v.matches.len());
            let got = result_rows(v, at as nat);
            if at == v.matches.len() {
                assert(all == got);
                assert(results_of(v, limit) == got);
            } else {
                assert(out@.len() == limit);
                assert(all.take(limit as int) =~= got);
                if all.len() <= limit {
                    assert(all.len() == limit);
                    assert(all =~= got);
                }
                assert(results_of(v, limit) == got);
            }
        }
        out
    }
}

} // verus!
