//! What the crate asks of Unicode: a character's compatibility decomposition,
//! its lower case, and whether it is a letter or a digit. The tables are the
//! outside crates' and std's; what each answer is called is here.

use vstd::prelude::*;

verus! {

/// What `unicode_normalization::char::decompose_compatible` emits for a
/// character: its full compatibility decomposition, falling back to the
/// canonical one, or the character itself.
pub uninterp spec fn compat_decomposition(c: char) -> Seq<char>;

/// What `char::to_lowercase` yields for a character.
pub uninterp spec fn lower_case(c: char) -> Seq<char>;

/// What `char::is_alphanumeric` answers for a character.
pub uninterp spec fn alphanumeric(c: char) -> bool;

pub open spec fn is_ascii_letter(c: char) -> bool {
    ('a' <= c <= 'z') || ('A' <= c <= 'Z')
}

pub open spec fn is_ascii_digit(c: char) -> bool {
    '0' <= c <= '9'
}

/// The compatibility decomposition of one character, from
/// `unicode_normalization::char::decompose_compatible`, collected in the order
/// the pieces are emitted. The contract says the result is the decomposition
/// the crate's tables give, and, as its source shows, that a character in
/// 7-bit ASCII comes back as itself. Nothing else of the tables is stated.
#[verifier::external_body]
pub(crate) fn decompose(c: char) -> (r: Vec<char>)
    ensures
        r@ == compat_decomposition(c),
        (c as u32) <= 0x7f ==> r@ == seq![c],
{
    let mut pieces: Vec<char> = Vec::new();
    unicode_normalization::char::decompose_compatible(c, |piece| pieces.push(piece));
    pieces
}

/// `char::to_lowercase`, collected. The contract names the result, and states
/// what std documents for ASCII: an upper-case ASCII letter becomes its lower
/// case and every other ASCII character is itself.
#[verifier::external_body]
pub(crate) fn to_lowercase(c: char) -> (r: Vec<char>)
    ensures
        r@ == lower_case(c),
        'A' <= c <= 'Z' ==> r@ == seq![((c as u32) + 32) as char],
        (c as u32) <= 0x7f && !('A' <= c <= 'Z') ==> r@ == seq![c],
{
    c.to_lowercase().collect()
}

/// `char::is_alphanumeric`. The contract names the answer, and states what it
/// is for ASCII: the letters and the digits, and nothing else.
#[verifier::external_body]
pub(crate) fn is_alphanumeric(c: char) -> (r: bool)
    ensures
        r == alphanumeric(c),
        (c as u32) <= 0x7f ==> (r <==> (is_ascii_letter(c) || is_ascii_digit(c))),
{
    c.is_alphanumeric()
}

/// What `str::to_lowercase` returns for a string.
pub uninterp spec fn lower_case_str(s: Seq<char>) -> Seq<char>;

/// An ASCII character in lower case; anything else as it is.
pub open spec fn ascii_lower(c: char) -> char {
    if 'A' <= c <= 'Z' { ((c as u32) + 32) as char } else { c }
}

/// An ASCII character in upper case; anything else as it is.
pub open spec fn ascii_upper(c: char) -> char {
    if 'a' <= c <= 'z' { ((c as u32) - 32) as char } else { c }
}

pub open spec fn all_ascii(s: Seq<char>) -> bool {
    forall|i: int| 0 <= i < s.len() ==> (s[i] as u32) < 0x80
}

/// A string as `str::to_lowercase` gives it back: an ASCII string with each
/// letter in lower case, and any other string as the call returns it.
pub open spec fn lowercase(s: Seq<char>) -> Seq<char> {
    if all_ascii(s) { s.map_values(|c: char| ascii_lower(c)) } else { lower_case_str(s) }
}

/// `str::to_lowercase`. The contract names the result, and states what it is
/// for a string of ASCII characters: each one in lower case.
#[verifier::external_body]
pub(crate) fn str_to_lowercase(s: &str) -> (r: String)
    ensures
        r@ == lower_case_str(s@),
        all_ascii(s@) ==> r@ == s@.map_values(|c: char| ascii_lower(c)),
{
    s.to_lowercase()
}

} // verus!
