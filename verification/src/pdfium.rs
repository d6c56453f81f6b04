//! What is read out of a document once pdfium has answered: dates written
//! for people, whether a sample of printed page numbers agrees on where the
//! numbering starts, whether a document's own labels say anything, and the
//! last `/ModDate` in a run of bytes.
//!
//! Asking pdfium, and reading the file, are done outside this library.

use vstd::prelude::*;
use crate::text::{chars_of, decimal, decimal_of, push_char, push_str, string_of, starts_with, same};

verus! {

/* ---------------------------------------------------------------- dates */

pub open spec fn month_name(m: int) -> Seq<char> {
    if m == 1 { "January"@ } else if m == 2 { "February"@ } else if m == 3 { "March"@ } else if m == 4 { "April"@ }
    else if m == 5 { "May"@ } else if m == 6 { "June"@ } else if m == 7 { "July"@ } else if m == 8 { "August"@ }
    else if m == 9 { "September"@ } else if m == 10 { "October"@ } else if m == 11 { "November"@ } else { "December"@ }
}

fn month_name_of(m: usize) -> (r: &'static str)
    requires
        1 <= m <= 12,
    ensures
        r@ == month_name(m as int),
{
    if m == 1 { "January" } else if m == 2 { "February" } else if m == 3 { "March" } else if m == 4 { "April" }
    else if m == 5 { "May" } else if m == 6 { "June" } else if m == 7 { "July" } else if m == 8 { "August" }
    else if m == 9 { "September" } else if m == 10 { "October" } else if m == 11 { "November" } else { "December" }
}

pub open spec fn is_digit(c: char) -> bool {
    '0' <= c <= '9'
}

pub open spec fn digit_value(c: char) -> int {
    c as int - '0' as int
}

/// Two digits as a number.
pub open spec fn pair_value(s: Seq<char>, at: int) -> int {
    10 * digit_value(s[at]) + digit_value(s[at + 1])
}

/// All of `from..to` are ASCII digits.
pub open spec fn digits_in(s: Seq<char>, from: int, to: int) -> bool {
    to <= s.len() && forall|i: int| from <= i < to ==> is_digit(#[trigger] s[i])
}

/// A number below a hundred in two digits.
pub open spec fn two_digits(n: int) -> Seq<char> {
    seq![(('0' as int) + n / 10) as char, (('0' as int) + n % 10) as char]
}

/// `D:20240131120000+01'00'` as `31 January 2024, 12:00`: the day, the
/// month's English name and the year, and the time where the document wrote
/// one on a 24-hour clock. Anything that is not a PDF date is passed
/// through as written.
pub open spec fn date_text(raw: Seq<char>) -> Seq<char> {
    let d = if raw.len() >= 2 && raw[0] == 'D' && raw[1] == ':' { raw.skip(2) } else { raw };
    if !digits_in(d, 0, 8) {
        raw
    } else {
        let month = pair_value(d, 4);
        let day = pair_value(d, 6);
        if month < 1 || month > 12 || day < 1 || day > 31 {
            raw
        } else {
            let clock = if digits_in(d, 8, 12) && pair_value(d, 8) < 24 && pair_value(d, 10) < 60 {
                ", "@ + two_digits(pair_value(d, 8)) + ":"@ + two_digits(pair_value(d, 10))
            } else {
                Seq::empty()
            };
            decimal(day as nat) + " "@ + month_name(month) + " "@ + d.subrange(0, 4) + clock
        }
    }
}

fn all_digits_in(s: &Vec<char>, from: usize, to: usize) -> (r: bool)
    requires
        from <= to,
    ensures
        r == digits_in(s@, from as int, to as int),
{
    if to > s.len() {
        return false;
    }
    let mut i = from;
    while i < to
        invariant
            from <= i <= to <= s@.len(),
            forall|k: int| from <= k < i ==> is_digit(#[trigger] s@[k]),
        decreases to - i,
    {
        if s[i] < '0' || s[i] > '9' {
            return false;
        }
        i = i + 1;
    }
    true
}

fn pair_at(s: &Vec<char>, at: usize) -> (r: usize)
    requires
        digits_in(s@, at as int, at + 2),
    ensures
        r == pair_value(s@, at as int),
        r < 100,
{
    let len = s.len();
    let a = s[at];
    proof { assert(at + 1 < len); }
    let b = s[at + 1];
    10 * ((a as u32 - '0' as u32) as usize) + ((b as u32 - '0' as u32) as usize)
}

fn push_two(out: &mut String, n: usize)
    requires
        n < 100,
    ensures
        final(out)@ == old(out)@ + two_digits(n as int),
{
    push_char(out, ((('0' as u32) + (n / 10) as u32) as u8) as char);
    push_char(out, ((('0' as u32) + (n % 10) as u32) as u8) as char);
    proof { assert(out@ =~= old(out)@ + two_digits(n as int)); }
}

/// A PDF date as a person reads it; anything else as written.
pub fn readable_date(raw: &str) -> (r: String)
    ensures
        r@ == date_text(raw@),
{
    let typed = chars_of(raw);
    let digits = if typed.len() >= 2 && typed[0] == 'D' && typed[1] == ':' {
        crate::text::slice_of(typed.as_slice(), 2, typed.len())
    } else {
        typed.clone()
    };
    proof {
        if typed@.len() >= 2 && typed@[0] == 'D' && typed@[1] == ':' {
            assert(digits@ =~= raw@.skip(2));
        } else {
            assert(digits@ =~= raw@);
        }
    }
    if !all_digits_in(&digits, 0, 8) {
        return string_of(typed.as_slice());
    }
    let month = pair_at(&digits, 4);
    let day = pair_at(&digits, 6);
    if month < 1 || month > 12 || day < 1 || day > 31 {
        return string_of(typed.as_slice());
    }
    let mut out = decimal_of(day);
    push_str(&mut out, " ");
    push_str(&mut out, month_name_of(month));
    push_str(&mut out, " ");
    let year = string_of(crate::text::slice_of(digits.as_slice(), 0, 4).as_slice());
    push_str(&mut out, year.as_str());
    let ghost before_clock = out@;
    if all_digits_in(&digits, 8, 12) {
        let hour = pair_at(&digits, 8);
        let minute = pair_at(&digits, 10);
        if hour < 24 && minute < 60 {
            push_str(&mut out, ", ");
            push_two(&mut out, hour);
            push_str(&mut out, ":");
            push_two(&mut out, minute);
        }
    }
    proof {
        reveal_strlit(", ");
        reveal_strlit(":");
        reveal_strlit(" ");
        assert(out@ =~= date_text(raw@));
    }
    out
}

/* ------------------------------------------------------------ numbering */

/// Whether a sampled page, at `index`, has printed in its margins a number
/// that makes the first page `first`.
pub open spec fn says_first(sample: (usize, Seq<usize>), first: int) -> bool {
    first >= 1 && exists|k: int| 0 <= k < sample.1.len() && sample.1[k] - sample.0 == first
}

/// How many of the sampled pages say the first page is `first`: one vote a
/// page, whatever else is printed in its margins.
pub open spec fn votes(samples: Seq<(usize, Seq<usize>)>, first: int) -> int
    decreases samples.len(),
{
    if samples.len() == 0 {
        0
    } else {
        votes(samples.drop_last(), first) + (if says_first(samples.last(), first) { 1int } else { 0 })
    }
}

/// The number most of the sample votes for, the smaller on a tie.
pub open spec fn leads(samples: Seq<(usize, Seq<usize>)>, first: int) -> bool {
    votes(samples, first) > 0 && forall|g: int| #[trigger] votes(samples, g) > 0 ==> votes(samples, g) < votes(samples, first)
        || (votes(samples, g) == votes(samples, first) && g >= first)
}

/// What the sample agrees the first page is printed with: the leading
/// number, if at least three pages and more than half the sample say it,
/// and it is neither 1, which the position already says, nor implausibly
/// large.
pub open spec fn agreed(samples: Seq<(usize, Seq<usize>)>, pages: int, first: int) -> bool {
    leads(samples, first) && votes(samples, first) >= 3 && votes(samples, first) * 2 > samples.len() && first > 1
        && first + pages < 100_000
}

pub open spec fn sample_view(s: Seq<(usize, Vec<usize>)>) -> Seq<(usize, Seq<usize>)> {
    s.map_values(|p: (usize, Vec<usize>)| (p.0, p.1@))
}

proof fn lemma_votes_bound(samples: Seq<(usize, Seq<usize>)>, first: int)
    ensures
        0 <= votes(samples, first) <= samples.len(),
    decreases samples.len(),
{
    if samples.len() > 0 {
        lemma_votes_bound(samples.drop_last(), first);
    }
}

proof fn lemma_votes_positive(samples: Seq<(usize, Seq<usize>)>, f: int)
    requires
        votes(samples, f) > 0,
    ensures
        exists|i: int| 0 <= i < samples.len() && says_first(samples[i], f),
    decreases samples.len(),
{
    if samples.len() > 0 {
        if says_first(samples.last(), f) {
            assert(says_first(samples[samples.len() - 1], f));
        } else {
            lemma_votes_positive(samples.drop_last(), f);
            let i = choose|i: int| 0 <= i < samples.len() - 1 && says_first(samples.drop_last()[i], f);
            assert(samples.drop_last()[i] == samples[i]);
        }
    }
}

fn says(index: usize, numbers: &Vec<usize>, first: usize) -> (r: bool)
    ensures
        r == says_first((index, numbers@), first as int),
{
    if first < 1 {
        return false;
    }
    let mut k: usize = 0;
    while k < numbers.len()
        invariant
            k <= numbers@.len(),
            first >= 1,
            forall|j: int| 0 <= j < k ==> numbers@[j] - index != first,
        decreases numbers@.len() - k,
    {
        if numbers[k] >= index && numbers[k] - index == first {
            proof {
                let sample = (index, numbers@);
                assert(sample.1[k as int] - sample.0 == first);
                assert(says_first(sample, first as int));
            }
            return true;
        }
        k = k + 1;
    }
    false
}

fn votes_of(samples: &Vec<(usize, Vec<usize>)>, first: usize) -> (r: usize)
    ensures
        r == votes(sample_view(samples@), first as int),
{
    let ghost all = sample_view(samples@);
    let mut count: usize = 0;
    let mut i: usize = 0;
    while i < samples.len()
        invariant
            all == sample_view(samples@),
            i <= samples@.len(),
            count == votes(all.take(i as int), first as int),
            count <= i,
        decreases samples@.len() - i,
    {
        proof {
            assert(all.take(i + 1).drop_last() =~= all.take(i as int));
            assert(all.take(i + 1).last() == (samples@[i as int].0, samples@[i as int].1@));
        }
        if says(samples[i].0, &samples[i].1, first) {
            count = count + 1;
        }
        i = i + 1;
    }
    proof { assert(all.take(samples@.len() as int) =~= all); }
    count
}

/// The number the first page is printed with, if enough of the sample
/// says the same thing; `None` when nothing agrees.
pub fn agreed_first_number(samples: &Vec<(usize, Vec<usize>)>, pages: usize) -> (r: Option<usize>)
    ensures
        match r {
            Some(f) => agreed(sample_view(samples@), pages as int, f as int),
            None => forall|f: int| !agreed(sample_view(samples@), pages as int, f),
        },
{
    let ghost all = sample_view(samples@);
    let mut best: Option<(usize, usize)> = None;
    let mut i: usize = 0;
    while i < samples.len()
        invariant
            all == sample_view(samples@),
            i <= samples@.len(),
            match best {
                Some((f, c)) => c == votes(all, f as int) && c > 0 && forall|j: int, k: int|
                    0 <= j < i && 0 <= k < all[j].1.len() && all[j].1[k] - all[j].0 >= 1
                        ==> #[trigger] votes(all, all[j].1[k] - all[j].0) < c || (votes(all, all[j].1[k] - all[j].0) == c && all[j].1[k] - all[j].0 >= f),
                None => forall|j: int, k: int| 0 <= j < i && 0 <= k < all[j].1.len() ==> all[j].1[k] - all[j].0 < 1,
            },
        decreases samples@.len() - i,
    {
        let index = samples[i].0;
        let numbers = &samples[i].1;
        let mut k: usize = 0;
        while k < numbers.len()
            invariant
                all == sample_view(samples@),
                i < samples@.len(),
                index == all[i as int].0,
                numbers@ == all[i as int].1,
                k <= numbers@.len(),
                match best {
                    Some((f, c)) => c == votes(all, f as int) && c > 0 && (forall|j: int, m: int|
                        0 <= j < i && 0 <= m < all[j].1.len() && all[j].1[m] - all[j].0 >= 1
                            ==> #[trigger] votes(all, all[j].1[m] - all[j].0) < c || (votes(all, all[j].1[m] - all[j].0) == c && all[j].1[m] - all[j].0 >= f))
                        && (forall|m: int| 0 <= m < k && numbers@[m] - index >= 1
                            ==> #[trigger] votes(all, numbers@[m] - index) < c || (votes(all, numbers@[m] - index) == c && numbers@[m] - index >= f)),
                    None => (forall|j: int, m: int| 0 <= j < i && 0 <= m < all[j].1.len() ==> all[j].1[m] - all[j].0 < 1)
                        && (forall|m: int| 0 <= m < k ==> numbers@[m] - index < 1),
                },
            decreases numbers@.len() - k,
        {
            let n = numbers[k];
            if n >= index && n - index >= 1 {
                let first = n - index;
                let c = votes_of(samples, first);
                proof {
                    assert(says_first(all[i as int], first as int)) by { assert(all[i as int].1[k as int] - all[i as int].0 == first); }
                    lemma_votes_includes(all, i as int, first as int);
                }
                let better = match best {
                    None => true,
                    Some((bf, bc)) => c > bc || (c == bc && first < bf),
                };
                if better {
                    best = Some((first, c));
                }
            }
            k = k + 1;
        }
        proof {
            assert(all[i as int].1 == numbers@);
        }
        i = i + 1;
    }
    proof {
        assert forall|g: int| #[trigger] votes(all, g) > 0 implies exists|j: int, m: int| 0 <= j < all.len() && 0 <= m < all[j].1.len() && all[j].1[m] - all[j].0 == g && g >= 1 by {
            lemma_votes_positive(all, g);
            let j = choose|j: int| 0 <= j < all.len() && says_first(all[j], g);
            let m = choose|m: int| 0 <= m < all[j].1.len() && all[j].1[m] - all[j].0 == g;
        }
        lemma_votes_bound(all, 0);
    }
    match best {
        None => {
            proof {
                assert forall|f: int| !agreed(all, pages as int, f) by {
                    if votes(all, f) > 0 {
                        let (j, m) = choose|j: int, m: int| 0 <= j < all.len() && 0 <= m < all[j].1.len() && all[j].1[m] - all[j].0 == f && f >= 1;
                    }
                }
            }
            None
        },
        Some((first, count)) => {
            proof {
                assert(leads(all, first as int)) by {
                    assert forall|g: int| #[trigger] votes(all, g) > 0 implies votes(all, g) < votes(all, first as int)
                        || (votes(all, g) == votes(all, first as int) && g >= first) by {
                        let (j, m) = choose|j: int, m: int| 0 <= j < all.len() && 0 <= m < all[j].1.len() && all[j].1[m] - all[j].0 == g && g >= 1;
                    }
                }
                assert forall|f: int| f != first && #[trigger] leads(all, f) implies false by {
                    assert(votes(all, f) <= votes(all, first as int));
                    assert(votes(all, first as int) <= votes(all, f));
                }
                lemma_votes_bound(all, first as int);
            }
            if count >= 3 && count > samples.len() / 2 && first > 1 && pages < 100_000 && first < 100_000 - pages {
                Some(first)
            } else {
                None
            }
        },
    }
}

proof fn lemma_votes_includes(samples: Seq<(usize, Seq<usize>)>, i: int, f: int)
    requires
        0 <= i < samples.len(),
        says_first(samples[i], f),
    ensures
        votes(samples, f) > 0,
    decreases samples.len(),
{
    lemma_votes_bound(samples.drop_last(), f);
    if i < samples.len() - 1 {
        assert(samples.drop_last()[i] == samples[i]);
        lemma_votes_includes(samples.drop_last(), i, f);
    } else {
        assert(samples.last() == samples[i]);
    }
}

/// Whether a document's labels say anything the position does not: every
/// one empty, or the page's own number, is saying nothing.
pub open spec fn says_nothing(labels: Seq<Seq<char>>) -> bool {
    forall|i: int| 0 <= i < labels.len() ==> #[trigger] labels[i].len() == 0 || labels[i] == decimal((i + 1) as nat)
}

/// The labels, unless they say nothing, in which case none.
pub fn own_numbering(labels: Vec<String>) -> (r: Vec<String>)
    ensures
        r@.len() == if says_nothing(labels@.map_values(|l: String| l@)) { 0 } else { labels@.len() },
        !says_nothing(labels@.map_values(|l: String| l@)) ==> r@ == labels@,
{
    let ghost ls = labels@.map_values(|l: String| l@);
    let mut nothing = true;
    let mut i: usize = 0;
    while i < labels.len()
        invariant
            ls == labels@.map_values(|l: String| l@),
            i <= labels@.len(),
            nothing == forall|k: int| 0 <= k < i ==> #[trigger] ls[k].len() == 0 || ls[k] == decimal((k + 1) as nat),
        decreases labels@.len() - i,
    {
        let own = chars_of(labels[i].as_str());
        let says = own.len() == 0 || {
            let n = decimal_of(i + 1);
            same(labels[i].as_str(), n.as_str())
        };
        proof { assert(ls[i as int] == labels@[i as int]@); }
        if !says {
            nothing = false;
        }
        i = i + 1;
    }
    if nothing {
        Vec::new()
    } else {
        labels
    }
}

/* ------------------------------------------------------- the last date */

/// The key a document's modification date is written under.
pub open spec fn mod_date_key() -> Seq<u8> {
    seq![0x2fu8, 0x4d, 0x6f, 0x64, 0x44, 0x61, 0x74, 0x65]
}

/// Whether the key stands at `p`.
pub open spec fn key_at(b: Seq<u8>, p: int) -> bool {
    0 <= p && p + 8 <= b.len() && b.subrange(p, p + 8) == mod_date_key()
}

/// Where the key next stands, at or after `at`; -1 when it does not.
pub open spec fn next_key(b: Seq<u8>, at: int) -> int
    decreases b.len() - at,
{
    if at < 0 || at + 8 > b.len() {
        -1
    } else if key_at(b, at) {
        at
    } else {
        next_key(b, at + 1)
    }
}

/// What ASCII calls white space: space, tab, line feed, form feed and
/// carriage return.
pub open spec fn is_space(c: u8) -> bool {
    c == 0x20 || c == 0x09 || c == 0x0a || c == 0x0c || c == 0x0d
}

/// The first byte at or after `at` that is not white space; -1 when there
/// is none.
pub open spec fn next_ink(b: Seq<u8>, at: int) -> int
    decreases b.len() - at,
{
    if at < 0 || at >= b.len() {
        -1
    } else if !is_space(b[at]) {
        at
    } else {
        next_ink(b, at + 1)
    }
}

/// The first `)` at or after `at`; -1 when there is none.
pub open spec fn next_close(b: Seq<u8>, at: int) -> int
    decreases b.len() - at,
{
    if at < 0 || at >= b.len() {
        -1
    } else if b[at] == 0x29 {
        at
    } else {
        next_close(b, at + 1)
    }
}

/// The date the scan from `at` on settles on, `found` being the last one
/// read before it: each `/ModDate` followed by white space and a literal
/// string replaces what was found, when the string is UTF-8. A key followed
/// by anything else is passed over; one with nothing readable after it ends
/// the scan with what was found.
pub open spec fn last_date_from(b: Seq<u8>, at: int, found: Option<Seq<u8>>) -> Option<Seq<u8>>
    decreases b.len() - at,
{
    let p = next_key(b, at);
    if at < 0 || p < 0 {
        found
    } else {
        proof { lemma_next_key_bounds(b, at); }
        let open = next_ink(b, p + 8);
        if open < 0 {
            found
        } else if b[open] != 0x28 {
            last_date_from(b, p + 8, found)
        } else {
            let close = next_close(b, open + 1);
            if close < 0 {
                found
            } else {
                let value = b.subrange(open + 1, close);
                last_date_from(b, p + 8, if vstd::utf8::valid_utf8(value) { Some(value) } else { found })
            }
        }
    }
}

pub proof fn lemma_next_key_bounds(b: Seq<u8>, at: int)
    ensures
        next_key(b, at) == -1 || (at <= next_key(b, at) && key_at(b, next_key(b, at))),
    decreases b.len() - at,
{
    if !(at < 0 || at + 8 > b.len()) && !key_at(b, at) {
        lemma_next_key_bounds(b, at + 1);
    }
}

proof fn lemma_next_ink_bounds(b: Seq<u8>, at: int)
    ensures
        next_ink(b, at) == -1 || (at <= next_ink(b, at) < b.len()),
    decreases b.len() - at,
{
    if !(at < 0 || at >= b.len()) && is_space(b[at]) {
        lemma_next_ink_bounds(b, at + 1);
    }
}

proof fn lemma_next_close_bounds(b: Seq<u8>, at: int)
    ensures
        next_close(b, at) == -1 || (at <= next_close(b, at) < b.len()),
    decreases b.len() - at,
{
    if !(at < 0 || at >= b.len()) && b[at] != 0x29 {
        lemma_next_close_bounds(b, at + 1);
    }
}

fn key_at_exec(b: &[u8], p: usize) -> (r: bool)
    requires
        p + 8 <= b@.len(),
    ensures
        r == key_at(b@, p as int),
{
    let r = b[p] == 0x2f && b[p + 1] == 0x4d && b[p + 2] == 0x6f && b[p + 3] == 0x64 && b[p + 4] == 0x44 && b[p + 5] == 0x61
        && b[p + 6] == 0x74 && b[p + 7] == 0x65;
    proof {
        if r {
            assert(b@.subrange(p as int, p + 8) =~= mod_date_key());
        } else {
            assert(b@.subrange(p as int, p + 8) != mod_date_key()) by {
                if b@.subrange(p as int, p + 8) == mod_date_key() {
                    assert(b@.subrange(p as int, p + 8)[0] == b@[p as int]);
                    assert(b@.subrange(p as int, p + 8)[1] == b@[p + 1]);
                    assert(b@.subrange(p as int, p + 8)[2] == b@[p + 2]);
                    assert(b@.subrange(p as int, p + 8)[3] == b@[p + 3]);
                    assert(b@.subrange(p as int, p + 8)[4] == b@[p + 4]);
                    assert(b@.subrange(p as int, p + 8)[5] == b@[p + 5]);
                    assert(b@.subrange(p as int, p + 8)[6] == b@[p + 6]);
                    assert(b@.subrange(p as int, p + 8)[7] == b@[p + 7]);
                }
            }
        }
    }
    r
}

/// Where the key next stands, at or after `at`.
fn find_key(b: &[u8], at: usize) -> (r: Option<usize>)
    ensures
        match r {
            Some(p) => p as int == next_key(b@, at as int),
            None => next_key(b@, at as int) == -1,
        },
{
    let mut p = at;
    while b.len() >= 8 && p <= b.len() - 8
        invariant
            at <= p,
            next_key(b@, at as int) == next_key(b@, p as int),
        decreases b@.len() - p,
    {
        if key_at_exec(b, p) {
            return Some(p);
        }
        p = p + 1;
    }
    None
}

/// The first byte at or after `at` that is not white space.
fn find_ink(b: &[u8], at: usize) -> (r: Option<usize>)
    ensures
        match r {
            Some(p) => p as int == next_ink(b@, at as int),
            None => next_ink(b@, at as int) == -1,
        },
{
    let mut p = at;
    while p < b.len()
        invariant
            at <= p,
            next_ink(b@, at as int) == next_ink(b@, p as int),
        decreases b@.len() - p,
    {
        let c = b[p];
        if !(c == 0x20 || c == 0x09 || c == 0x0a || c == 0x0c || c == 0x0d) {
            return Some(p);
        }
        p = p + 1;
    }
    None
}

/// The first `)` at or after `at`.
fn find_close(b: &[u8], at: usize) -> (r: Option<usize>)
    ensures
        match r {
            Some(p) => p as int == next_close(b@, at as int),
            None => next_close(b@, at as int) == -1,
        },
{
    let mut p = at;
    while p < b.len()
        invariant
            at <= p,
            next_close(b@, at as int) == next_close(b@, p as int),
        decreases b@.len() - p,
    {
        if b[p] == 0x29 {
            return Some(p);
        }
        p = p + 1;
    }
    None
}

/// `std::str::from_utf8`, taken as text: what comes back is the bytes as
/// text when they are UTF-8, and nothing when they are not.
#[verifier::external_body]
fn utf8_text(bytes: &[u8]) -> (r: Option<String>)
    ensures
        r is Some <==> vstd::utf8::valid_utf8(bytes@),
        r matches Some(t) ==> vstd::utf8::encode_utf8(t@) == bytes@,
{
    std::str::from_utf8(bytes).ok().map(|t| t.to_string())
}

/// Some text's bytes, when there is text.
pub open spec fn bytes_of(t: Option<String>) -> Option<Seq<u8>> {
    match t {
        Some(t) => Some(vstd::utf8::encode_utf8(t@)),
        None => None,
    }
}

/// The last `/ModDate (…)` in a run of bytes, as it was written: the last,
/// because a document that has been appended to carries every version of
/// its `/Info`, and only the newest counts. A date written any other way is
/// left alone rather than guessed at.
pub fn last_mod_date(bytes: &[u8]) -> (r: Option<String>)
    ensures
        bytes_of(r) == last_date_from(bytes@, 0, None),
{
    let mut found: Option<String> = None;
    let mut at: usize = 0;
    loop
        invariant
            at <= bytes@.len(),
            last_date_from(bytes@, 0, None) == last_date_from(bytes@, at as int, bytes_of(found)),
        decreases bytes@.len() - at,
    {
        proof { lemma_next_key_bounds(bytes@, at as int); }
        let p = match find_key(bytes, at) {
            Some(p) => p,
            None => return found,
        };
        proof {
            assert(key_at(bytes@, p as int));
            assert(bytes@.len() == bytes.len());
        }
        let after = p + 8;
        proof { lemma_next_ink_bounds(bytes@, after as int); }
        let open = match find_ink(bytes, after) {
            Some(o) => o,
            None => return found,
        };
        if bytes[open] != 0x28 {
            at = after;
        } else {
            proof { lemma_next_close_bounds(bytes@, open + 1); }
            let close = match find_close(bytes, open + 1) {
                Some(c) => c,
                None => return found,
            };
            let value = slice_of_bytes(bytes, open + 1, close);
            let text = utf8_text(value.as_slice());
            match text {
                Some(t) => {
                    found = Some(t);
                },
                None => {},
            }
            at = after;
        }
    }
}

/// Some bytes, `from` up to `to`.
fn slice_of_bytes(b: &[u8], from: usize, to: usize) -> (r: Vec<u8>)
    requires
        from <= to <= b@.len(),
    ensures
        r@ == b@.subrange(from as int, to as int),
{
    let mut out: Vec<u8> = Vec::new();
    let mut i = from;
    while i < to
        invariant
            from <= i <= to <= b@.len(),
            out@ == b@.subrange(from as int, i as int),
        decreases to - i,
    {
        out.push(b[i]);
        proof { assert(out@ =~= b@.subrange(from as int, i + 1)); }
        i = i + 1;
    }
    out
}

} // verus!
