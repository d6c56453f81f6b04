//! A theme's colours, as the renderer and the stylesheet read them.
//!
//! A theme on disk is seven optional strings; a theme being drawn with is a
//! fixed set of colours with every absent one derived. Reading the strings,
//! and saying which of them cannot be read, is here. The shades the chrome
//! derives from a theme are mixed and measured in floating point, and are
//! worked out outside this library.

use vstd::prelude::*;
use crate::text::{chars_of, push_char};
use crate::unicode::{ascii_lower, ascii_upper};

verus! {

/// An 8-bit colour. Alpha is dropped on the way in.
pub type Rgb = [u8; 3];

/// A theme as its file has it: the two colours every theme names, the ones
/// it may leave out, and whether the pages themselves are recoloured.
#[derive(Clone, Debug)]
pub struct Theme {
    pub name: String,
    pub text: String,
    pub background: String,
    pub accent: Option<String>,
    pub link: Option<String>,
    pub selection_area: Option<String>,
    pub selection_text: Option<String>,
    pub recolor: bool,
}

/// A theme's colours, all of them present.
#[derive(Clone, Copy, Debug, PartialEq, Eq)]
pub struct Palette {
    pub text: Rgb,
    pub background: Rgb,
    pub accent: Rgb,
    /// What links are tinted with while the document is recoloured.
    pub link: Rgb,
    /// The ground behind selected text, and the ink on it.
    pub selection_area: Rgb,
    pub selection_text: Rgb,
    /// Whether the pages themselves are recoloured, or only the chrome.
    pub recolor: bool,
    /// Whether a pixel that has a colour of its own keeps it.
    pub keep_colour: bool,
}

/// White, which is the paper where the pages are not recoloured.
pub open spec fn white() -> Rgb {
    [0xffu8, 0xffu8, 0xffu8]
}

/// What is drawn with when a theme names a colour the renderer cannot
/// read, and when there is no theme at all: black on white, deliberately
/// not any theme's colours.
pub open spec fn fallback_palette() -> Palette {
    Palette {
        text: [0x00u8, 0x00u8, 0x00u8],
        background: [0xffu8, 0xffu8, 0xffu8],
        accent: [0x3du8, 0x6bu8, 0xb3u8],
        link: [0x3du8, 0x6bu8, 0xb3u8],
        selection_area: [0xb4u8, 0xcdu8, 0xf0u8],
        selection_text: [0x00u8, 0x00u8, 0x00u8],
        recolor: false,
        keep_colour: true,
    }
}

/// The fallback palette.
pub fn fallback() -> (r: Palette)
    ensures
        r == fallback_palette(),
{
    Palette {
        text: [0x00, 0x00, 0x00],
        background: [0xff, 0xff, 0xff],
        accent: [0x3d, 0x6b, 0xb3],
        link: [0x3d, 0x6b, 0xb3],
        selection_area: [0xb4, 0xcd, 0xf0],
        selection_text: [0x00, 0x00, 0x00],
        recolor: false,
        keep_colour: true,
    }
}

/* ----------------------------------------------------------------- hex */

/// A hexadecimal digit, in either case.
pub open spec fn is_hex(c: char) -> bool {
    ('0' <= c <= '9') || ('a' <= c <= 'f') || ('A' <= c <= 'F')
}

/// What a hexadecimal digit is worth.
pub open spec fn hex_value(c: char) -> int {
    if '0' <= c <= '9' {
        c as int - '0' as int
    } else if 'a' <= c <= 'f' {
        c as int - 'a' as int + 10
    } else {
        c as int - 'A' as int + 10
    }
}

/// A colour as CSS writes it in hexadecimal, `#` and three, four, six or
/// eight digits, alpha read and dropped; `None` for anything else.
pub open spec fn colour_of(text: Seq<char>) -> Option<Rgb> {
    if text.len() == 0 || text[0] != '#' {
        None
    } else {
        let b = text.skip(1);
        if !(forall|i: int| 0 <= i < b.len() ==> #[trigger] is_hex(b[i])) {
            None
        } else if b.len() == 3 || b.len() == 4 {
            Some([(hex_value(b[0]) * 17) as u8, (hex_value(b[1]) * 17) as u8, (hex_value(b[2]) * 17) as u8])
        } else if b.len() == 6 || b.len() == 8 {
            Some([(hex_value(b[0]) * 16 + hex_value(b[1])) as u8, (hex_value(b[2]) * 16 + hex_value(b[3])) as u8,
                (hex_value(b[4]) * 16 + hex_value(b[5])) as u8])
        } else {
            None
        }
    }
}

fn hex_digit(c: char) -> (r: Option<u8>)
    ensures
        match r {
            Some(v) => is_hex(c) && v == hex_value(c),
            None => !is_hex(c),
        },
{
    if '0' <= c && c <= '9' {
        Some((c as u32 - '0' as u32) as u8)
    } else if 'a' <= c && c <= 'f' {
        Some((c as u32 - 'a' as u32 + 10) as u8)
    } else if 'A' <= c && c <= 'F' {
        Some((c as u32 - 'A' as u32 + 10) as u8)
    } else {
        None
    }
}

/// Hex and nothing else, checked against the alphabet: `#12345g` is not a
/// plausible colour from a string that is not one, it is `None`.
pub fn read_colour(text: &str) -> (r: Option<Rgb>)
    ensures
        r == colour_of(text@),
{
    let cs = chars_of(text);
    if cs.len() == 0 || cs[0] != '#' {
        return None;
    }
    let ghost b = cs@.skip(1);
    let mut values: Vec<u8> = Vec::new();
    let mut i: usize = 1;
    while i < cs.len()
        invariant
            1 <= i <= cs@.len(),
            cs@ == text@,
            b == cs@.skip(1),
            values@.len() == i - 1,
            forall|k: int| 0 <= k < i - 1 ==> #[trigger] is_hex(b[k]) && values@[k] == hex_value(b[k]) && values@[k] < 16,
        decreases cs@.len() - i,
    {
        match hex_digit(cs[i]) {
            Some(v) => values.push(v),
            None => {
                proof { assert(!is_hex(b[i - 1])); }
                return None;
            },
        }
        i = i + 1;
    }
    let n = values.len();
    proof {
        assert forall|k: int| 0 <= k < b.len() implies #[trigger] is_hex(b[k]) by {}
        assert forall|k: int| 0 <= k < n implies values@[k] < 16 && values@[k] == hex_value(#[trigger] b[k]) by {
            assert(is_hex(b[k]));
        }
    }
    if n == 3 || n == 4 {
        proof {
            assert(values@[0] == hex_value(b[0]) && values@[1] == hex_value(b[1]) && values@[2] == hex_value(b[2]));
        }
        Some([values[0] * 17, values[1] * 17, values[2] * 17])
    } else if n == 6 || n == 8 {
        proof {
            assert(values@[0] == hex_value(b[0]) && values@[1] == hex_value(b[1]) && values@[2] == hex_value(b[2]));
            assert(values@[3] == hex_value(b[3]) && values@[4] == hex_value(b[4]) && values@[5] == hex_value(b[5]));
        }
        Some([values[0] * 16 + values[1], values[2] * 16 + values[3], values[4] * 16 + values[5]])
    } else {
        None
    }
}

/// A digit of a byte in lower-case hexadecimal.
pub open spec fn hex_char(d: int) -> char {
    if d < 10 { ((d + '0' as int) as u32) as char } else { ((d - 10 + 'a' as int) as u32) as char }
}

/// A byte as two lower-case hexadecimal digits.
pub open spec fn byte_hex(b: u8) -> Seq<char> {
    seq![hex_char(b as int / 16), hex_char(b as int % 16)]
}

/// A colour's three bytes in hexadecimal.
pub open spec fn colour_hex(c: Rgb) -> Seq<char> {
    byte_hex(c[0]) + byte_hex(c[1]) + byte_hex(c[2])
}

pub(crate) fn hex_char_of(d: u8) -> (r: char)
    requires
        d < 16,
    ensures
        r == hex_char(d as int),
{
    if d < 10 { ((d as u32) + ('0' as u32)) as u8 as char } else { ((d as u32) - 10 + ('a' as u32)) as u8 as char }
}

pub(crate) fn push_byte(out: &mut Vec<char>, b: u8)
    ensures
        final(out)@ == old(out)@ + byte_hex(b),
{
    out.push(hex_char_of(b / 16));
    out.push(hex_char_of(b % 16));
    proof { assert(out@ =~= old(out)@ + byte_hex(b)); }
}

fn push_colour(out: &mut Vec<char>, c: Rgb)
    ensures
        final(out)@ == old(out)@ + colour_hex(c),
{
    push_byte(out, c[0]);
    push_byte(out, c[1]);
    push_byte(out, c[2]);
    proof { assert(out@ =~= old(out)@ + colour_hex(c)); }
}

/// A colour as CSS writes it, which is how it reaches both the stylesheet
/// and an icon.
pub fn hex(colour: Rgb) -> (r: String)
    ensures
        r@ == seq!['#'] + colour_hex(colour),
{
    let mut out: Vec<char> = Vec::new();
    out.push('#');
    push_colour(&mut out, colour);
    crate::text::string_of(out.as_slice())
}

proof fn lemma_hex_char_reads_back(d: int)
    requires
        0 <= d < 16,
    ensures
        is_hex(hex_char(d)),
        hex_value(hex_char(d)) == d,
{
}

/// What `hex` writes, `read_colour` reads back: the colour it was.
pub proof fn law_a_colour_written_reads_back(c: Rgb)
    ensures
        colour_of(seq!['#'] + colour_hex(c)) == Some(c),
{
    let t = seq!['#'] + colour_hex(c);
    let b = t.skip(1);
    assert(b =~= colour_hex(c));
    assert forall|k: int| 0 <= k < 3 implies #[trigger] (c[k] as int / 16) < 16 && c[k] as int % 16 < 16 by {}
    lemma_hex_char_reads_back(c[0] as int / 16);
    lemma_hex_char_reads_back(c[0] as int % 16);
    lemma_hex_char_reads_back(c[1] as int / 16);
    lemma_hex_char_reads_back(c[1] as int % 16);
    lemma_hex_char_reads_back(c[2] as int / 16);
    lemma_hex_char_reads_back(c[2] as int % 16);
    assert(b[0] == hex_char(c[0] as int / 16) && b[1] == hex_char(c[0] as int % 16));
    assert(b[2] == hex_char(c[1] as int / 16) && b[3] == hex_char(c[1] as int % 16));
    assert(b[4] == hex_char(c[2] as int / 16) && b[5] == hex_char(c[2] as int % 16));
    assert forall|i: int| 0 <= i < b.len() implies #[trigger] is_hex(b[i]) by {}
    assert(colour_of(t) == Some([(hex_value(b[0]) * 16 + hex_value(b[1])) as u8, (hex_value(b[2]) * 16 + hex_value(b[3])) as u8,
        (hex_value(b[4]) * 16 + hex_value(b[5])) as u8]));
    assert([(hex_value(b[0]) * 16 + hex_value(b[1])) as u8, (hex_value(b[2]) * 16 + hex_value(b[3])) as u8,
        (hex_value(b[4]) * 16 + hex_value(b[5])) as u8] =~= c);
}

/// A flag as a digit.
pub open spec fn flag(b: bool) -> Seq<char> {
    if b { seq!['1'] } else { seq!['0'] }
}

/// Every colour of a palette and both its flags, so that two palettes differ
/// in it wherever they would differ on the page.
pub open spec fn palette_key(p: Palette) -> Seq<char> {
    colour_hex(p.text) + colour_hex(p.background) + colour_hex(p.accent) + colour_hex(p.link)
        + colour_hex(p.selection_area) + colour_hex(p.selection_text) + flag(p.recolor) + flag(p.keep_colour)
}

impl Palette {
    /// The palette as a component key can carry it.
    pub fn key(&self) -> (r: String)
        ensures
            r@ == palette_key(*self),
    {
        let mut out: Vec<char> = Vec::new();
        push_colour(&mut out, self.text);
        push_colour(&mut out, self.background);
        push_colour(&mut out, self.accent);
        push_colour(&mut out, self.link);
        push_colour(&mut out, self.selection_area);
        push_colour(&mut out, self.selection_text);
        out.push(if self.recolor { '1' } else { '0' });
        out.push(if self.keep_colour { '1' } else { '0' });
        proof { assert(out@ =~= palette_key(*self)); }
        crate::text::string_of(out.as_slice())
    }

    /// What an undrawn page is, and what the toolbar stands on: the theme's
    /// background where it recolours, the printer's white where it does not.
    pub fn page(&self) -> (r: Rgb)
        ensures
            r == if self.recolor { self.background } else { white() },
    {
        if self.recolor { self.background } else { [0xff, 0xff, 0xff] }
    }

    /// What a colour painted onto the page comes out as under this theme.
    /// A highlight is written into the document and drawn with it, so where
    /// the pages are recoloured it is mapped like any other ink, by
    /// `recolour` with this palette's ink, paper and its setting for
    /// coloured pixels; where they are not, it is as written.
    pub fn on_page(&self, colour: Rgb, recolour: impl Fn(Rgb, Rgb, Rgb, bool) -> Rgb) -> (r: Rgb)
        requires
            self.recolor ==> recolour.requires((colour, self.text, self.background, self.keep_colour)),
        ensures
            !self.recolor ==> r == colour,
            self.recolor ==> recolour.ensures((colour, self.text, self.background, self.keep_colour), r),
    {
        if !self.recolor {
            return colour;
        }
        recolour(colour, self.text, self.background, self.keep_colour)
    }
}

proof fn lemma_hex_char_tells_digits_apart(d: int, e: int)
    requires
        0 <= d < 16,
        0 <= e < 16,
        hex_char(d) == hex_char(e),
    ensures
        d == e,
{
    assert(hex_char(d) as u32 == hex_char(e) as u32);
}

proof fn lemma_byte_hex_tells_bytes_apart(x: u8, y: u8)
    requires
        byte_hex(x) == byte_hex(y),
    ensures
        x == y,
{
    assert(byte_hex(x)[0] == byte_hex(y)[0]);
    assert(byte_hex(x)[1] == byte_hex(y)[1]);
    lemma_hex_char_tells_digits_apart(x as int / 16, y as int / 16);
    lemma_hex_char_tells_digits_apart(x as int % 16, y as int % 16);
}

proof fn lemma_colour_hex_tells_colours_apart(x: Rgb, y: Rgb)
    requires
        colour_hex(x) == colour_hex(y),
    ensures
        x == y,
{
    assert(colour_hex(x).subrange(0, 2) =~= byte_hex(x[0]));
    assert(colour_hex(y).subrange(0, 2) =~= byte_hex(y[0]));
    assert(colour_hex(x).subrange(2, 4) =~= byte_hex(x[1]));
    assert(colour_hex(y).subrange(2, 4) =~= byte_hex(y[1]));
    assert(colour_hex(x).subrange(4, 6) =~= byte_hex(x[2]));
    assert(colour_hex(y).subrange(4, 6) =~= byte_hex(y[2]));
    lemma_byte_hex_tells_bytes_apart(x[0], y[0]);
    lemma_byte_hex_tells_bytes_apart(x[1], y[1]);
    lemma_byte_hex_tells_bytes_apart(x[2], y[2]);
    assert(x =~= y);
}

proof fn lemma_ends_agree(a: Seq<char>, b: Seq<char>, c: Seq<char>, d: Seq<char>)
    requires
        a + b == c + d,
        b.len() == d.len(),
    ensures
        a == c,
        b == d,
{
    assert(a =~= (a + b).subrange(0, a.len() as int));
    assert(c =~= (c + d).subrange(0, c.len() as int));
    assert(b =~= (a + b).subrange(a.len() as int, (a + b).len() as int));
    assert(d =~= (c + d).subrange(c.len() as int, (c + d).len() as int));
}

/// Two palettes with the same key are the same palette: the key leaves
/// nothing out.
pub proof fn law_the_key_tells_palettes_apart(a: Palette, b: Palette)
    requires
        palette_key(a) == palette_key(b),
    ensures
        a == b,
{
    let h = |p: Palette, k: int| if k == 0 { colour_hex(p.text) } else if k == 1 { colour_hex(p.background) } else if k == 2 {
        colour_hex(p.accent) } else if k == 3 { colour_hex(p.link) } else if k == 4 { colour_hex(p.selection_area) } else {
        colour_hex(p.selection_text) };
    let a5 = h(a, 0) + h(a, 1) + h(a, 2) + h(a, 3) + h(a, 4);
    let b5 = h(b, 0) + h(b, 1) + h(b, 2) + h(b, 3) + h(b, 4);
    lemma_ends_agree(a5 + h(a, 5) + flag(a.recolor), flag(a.keep_colour), b5 + h(b, 5) + flag(b.recolor), flag(b.keep_colour));
    lemma_ends_agree(a5 + h(a, 5), flag(a.recolor), b5 + h(b, 5), flag(b.recolor));
    lemma_ends_agree(a5, h(a, 5), b5, h(b, 5));
    lemma_ends_agree(h(a, 0) + h(a, 1) + h(a, 2) + h(a, 3), h(a, 4), h(b, 0) + h(b, 1) + h(b, 2) + h(b, 3), h(b, 4));
    lemma_ends_agree(h(a, 0) + h(a, 1) + h(a, 2), h(a, 3), h(b, 0) + h(b, 1) + h(b, 2), h(b, 3));
    lemma_ends_agree(h(a, 0) + h(a, 1), h(a, 2), h(b, 0) + h(b, 1), h(b, 2));
    lemma_ends_agree(h(a, 0), h(a, 1), h(b, 0), h(b, 1));
    lemma_colour_hex_tells_colours_apart(a.text, b.text);
    lemma_colour_hex_tells_colours_apart(a.background, b.background);
    lemma_colour_hex_tells_colours_apart(a.accent, b.accent);
    lemma_colour_hex_tells_colours_apart(a.link, b.link);
    lemma_colour_hex_tells_colours_apart(a.selection_area, b.selection_area);
    lemma_colour_hex_tells_colours_apart(a.selection_text, b.selection_text);
    assert(flag(a.recolor)[0] == flag(b.recolor)[0]);
    assert(flag(a.keep_colour)[0] == flag(b.keep_colour)[0]);
}

/// Which of a theme's colours could not be read, by field name, in the
/// order the file lists them.
pub open spec fn unreadable_fields(theme: Theme) -> Seq<Seq<char>> {
    let bad = |v: Option<String>| match v { Some(s) => colour_of(s@) is None, None => false };
    (if colour_of(theme.text@) is None { seq!["text"@] } else { Seq::empty() })
        + (if colour_of(theme.background@) is None { seq!["background"@] } else { Seq::empty() })
        + (if bad(theme.accent) { seq!["accent"@] } else { Seq::empty() })
        + (if bad(theme.link) { seq!["link"@] } else { Seq::empty() })
        + (if bad(theme.selection_area) { seq!["selection_area"@] } else { Seq::empty() })
        + (if bad(theme.selection_text) { seq!["selection_text"@] } else { Seq::empty() })
}

fn check(bad: &mut Vec<&'static str>, field: &'static str, value: &Option<String>)
    ensures
        final(bad)@.map_values(|f: &'static str| f@) == old(bad)@.map_values(|f: &'static str| f@)
            + match value { Some(s) => if colour_of(s@) is None { seq![field@] } else { Seq::empty() }, None => Seq::empty() },
{
    match value {
        Some(s) => {
            if read_colour(s.as_str()).is_none() {
                bad.push(field);
                proof {
                    assert(bad@.map_values(|f: &'static str| f@) =~= old(bad)@.map_values(|f: &'static str| f@).push(field@));
                }
            } else {
                proof { assert(bad@.map_values(|f: &'static str| f@) =~= old(bad)@.map_values(|f: &'static str| f@) + Seq::empty()); }
            }
        },
        None => {
            proof { assert(bad@.map_values(|f: &'static str| f@) =~= old(bad)@.map_values(|f: &'static str| f@) + Seq::empty()); }
        },
    }
}

/// Which of a theme's colours could not be read, by field name. Silently
/// rendering black on white is the behaviour this exists to replace.
pub fn unreadable(theme: &Theme) -> (r: Vec<&'static str>)
    ensures
        r@.map_values(|f: &'static str| f@) == unreadable_fields(*theme),
{
    let mut bad: Vec<&'static str> = Vec::new();
    proof { assert(bad@.map_values(|f: &'static str| f@) =~= Seq::<Seq<char>>::empty()); }
    let text = Some(theme.text.clone());
    let background = Some(theme.background.clone());
    check(&mut bad, "text", &text);
    check(&mut bad, "background", &background);
    check(&mut bad, "accent", &theme.accent);
    check(&mut bad, "link", &theme.link);
    check(&mut bad, "selection_area", &theme.selection_area);
    check(&mut bad, "selection_text", &theme.selection_text);
    proof { assert(bad@.map_values(|f: &'static str| f@) =~= unreadable_fields(*theme)); }
    bad
}

proof fn lemma_hex_either_case(c: char)
    ensures
        is_hex(ascii_lower(c)) == is_hex(c),
        is_hex(c) ==> hex_value(ascii_lower(c)) == hex_value(c),
        is_hex(ascii_upper(c)) == is_hex(c),
        is_hex(c) ==> hex_value(ascii_upper(c)) == hex_value(c),
{
    let u = c as u32;
    if 'A' <= c <= 'Z' {
        assert(((u + 32) as char) as u32 == u + 32);
    }
    if 'a' <= c <= 'z' {
        assert(((u - 32) as char) as u32 == u - 32);
    }
}

proof fn lemma_case_keeps_colour(text: Seq<char>, t: Seq<char>, lower: bool)
    requires
        t.len() == text.len(),
        forall|i: int| 0 <= i < text.len() ==> #[trigger] t[i] == if lower { ascii_lower(text[i]) } else { ascii_upper(text[i]) },
    ensures
        colour_of(t) == colour_of(text),
{
    if text.len() > 0 {
        assert(t[0] == '#' <==> text[0] == '#');
        let b = text.skip(1);
        let d = t.skip(1);
        assert forall|i: int| 0 <= i < b.len() implies is_hex(#[trigger] d[i]) == is_hex(b[i])
            && (is_hex(b[i]) ==> hex_value(d[i]) == hex_value(b[i])) by {
            assert(d[i] == t[i + 1] && b[i] == text[i + 1]);
            lemma_hex_either_case(b[i]);
        }
        if forall|i: int| 0 <= i < b.len() ==> #[trigger] is_hex(b[i]) {
            assert forall|i: int| 0 <= i < d.len() implies #[trigger] is_hex(d[i]) by {
                assert(is_hex(b[i]));
            }
            if b.len() >= 3 {
                assert(is_hex(b[0]) && is_hex(b[1]) && is_hex(b[2]));
            }
            if b.len() >= 6 {
                assert(is_hex(b[3]) && is_hex(b[4]) && is_hex(b[5]));
            }
        } else {
            let k = choose|k: int| 0 <= k < b.len() && !is_hex(#[trigger] b[k]);
            assert(!is_hex(d[k]));
        }
    }
}

/// Hex digits are read in either case: a colour spelled in capitals, or in
/// any mixture of the two, is the same colour as in small letters, and a
/// text one refuses the other refuses too.
pub proof fn law_hex_is_read_in_either_case(text: Seq<char>)
    ensures
        colour_of(text.map_values(|c: char| ascii_lower(c))) == colour_of(text),
        colour_of(text.map_values(|c: char| ascii_upper(c))) == colour_of(text),
{
    lemma_case_keeps_colour(text, text.map_values(|c: char| ascii_lower(c)), true);
    lemma_case_keeps_colour(text, text.map_values(|c: char| ascii_upper(c)), false);
}

} // verus!
