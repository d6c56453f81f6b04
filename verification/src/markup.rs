//! Where markup on a document can go, decided once when it opens rather than
//! found out halfway through the reader's gesture; and the words a mark
//! covers, as the sidebar quotes them.
//!
//! The questions are asked of the disk, by opening the file for writing and
//! a probe file beside it: the only answers that are actually true. What the
//! answers come to is decided here.

use vstd::prelude::*;
use crate::text::{join, join_with, push_str, string_of, chars_of, words, words_of, views};

verus! {

/// Whether a mark can be written into the document, why not when it cannot,
/// and whether the document carries a signature.
#[derive(Clone, Debug, Default, PartialEq)]
pub struct Standing {
    /// When this is false the mark is kept beside the document instead, and
    /// the reader is told once, in one line.
    pub into_file: bool,
    /// Why not, in a sentence, when it cannot.
    pub refused: String,
    /// Asked, not refused: it is their document. Said once.
    pub signed: bool,
}

/// The largest document a mark is written into: a mark is the whole file
/// read, rewritten and written back.
pub const IN_FILE_LIMIT: u64 = 100 * 1024 * 1024;

/// What the disk said when something was opened for writing.
#[derive(Clone, Debug, PartialEq)]
pub enum Access {
    Writable,
    /// Refused for want of permission.
    ReadOnly,
    /// Refused for another reason, said in words.
    Failed(String),
}

/// What is refused, in a sentence: "`what` is read-only", or "`what` cannot
/// be written (`why`)".
pub open spec fn refusal(access: Access, what: Seq<char>) -> Seq<char> {
    match access {
        Access::ReadOnly => what + " is read-only"@,
        Access::Failed(why) => what + " cannot be written ("@ + why@ + ")"@,
        Access::Writable => Seq::empty(),
    }
}

/// Where markup can go, from what was found: an encrypted document is
/// refused first, whatever its folder; then a very large one; then a file or
/// a folder the disk will not write. Everything else takes the mark, and a
/// signature is said.
pub open spec fn standing_spec(encrypted: bool, too_large: bool, file: Access, folder: Access, sealed: bool) -> (bool, Seq<char>, bool) {
    if encrypted {
        (false, "this document is encrypted"@, false)
    } else if too_large {
        (false, "this document is very large"@, false)
    } else if !(file is Writable) {
        (false, refusal(file, "this document"@), false)
    } else if !(folder is Writable) {
        (false, refusal(folder, "the folder this document is in"@), false)
    } else {
        (true, Seq::empty(), sealed)
    }
}

fn refused_by(access: &Access, what: &str) -> (r: Standing)
    requires
        !(*access is Writable),
    ensures
        !r.into_file,
        r.refused@ == refusal(*access, what@),
        !r.signed,
{
    let mut refused = string_of(chars_of(what).as_slice());
    match access {
        Access::ReadOnly => push_str(&mut refused, " is read-only"),
        Access::Failed(why) => {
            push_str(&mut refused, " cannot be written (");
            push_str(&mut refused, why.as_str());
            push_str(&mut refused, ")");
        },
        Access::Writable => {},
    }
    Standing { into_file: false, refused, signed: false }
}

/// Where markup on this document can go, from what the disk answered. The
/// answers not needed to decide are not looked at.
pub fn standing(encrypted: bool, too_large: bool, file: &Access, folder: &Access, sealed: bool) -> (r: Standing)
    ensures
        (r.into_file, r.refused@, r.signed) == standing_spec(encrypted, too_large, *file, *folder, sealed),
{
    if encrypted {
        let mut refused = String::new();
        push_str(&mut refused, "this document is encrypted");
        return Standing { into_file: false, refused, signed: false };
    }
    if too_large {
        let mut refused = String::new();
        push_str(&mut refused, "this document is very large");
        return Standing { into_file: false, refused, signed: false };
    }
    match file {
        Access::Writable => {},
        _ => {
            return refused_by(file, "this document");
        },
    }
    match folder {
        Access::Writable => Standing { into_file: true, refused: String::new(), signed: sealed },
        _ => refused_by(folder, "the folder this document is in"),
    }
}

/* ------------------------------------------------------ what a mark says */

/// The text under a mark before it is tidied: every character the mark
/// covers, and a space where the renderer generated a character between
/// words, never two together. `generated[i]` says whether character `i` is
/// one the renderer made rather than one the printer drew, and `inside[i]`
/// whether the mark covers it.
pub open spec fn marked_text(chars: Seq<char>, generated: Seq<bool>, inside: Seq<bool>) -> Seq<char>
    decreases chars.len(),
{
    if chars.len() == 0 {
        Seq::empty()
    } else {
        let n = chars.len() - 1;
        let r = marked_text(chars.take(n), generated, inside);
        if generated[n] {
            if r.len() > 0 && r[r.len() - 1] != ' ' { r.push(' ') } else { r }
        } else if inside[n] {
            r.push(chars[n])
        } else {
            r
        }
    }
}

/// The words under a mark, read off the page rather than out of the file,
/// one space between each two: what the sidebar shows of it.
pub fn quote_marked(chars: &Vec<char>, generated: &Vec<bool>, inside: &Vec<bool>) -> (r: String)
    requires
        generated@.len() == chars@.len(),
        inside@.len() == chars@.len(),
    ensures
        r@ == join(words(marked_text(chars@, generated@, inside@)), " "@),
{
    let mut out: Vec<char> = Vec::new();
    let mut i: usize = 0;
    proof { assert(chars@.take(0) =~= Seq::<char>::empty()); }
    while i < chars.len()
        invariant
            i <= chars@.len(),
            generated@.len() == chars@.len(),
            inside@.len() == chars@.len(),
            out@ == marked_text(chars@.take(i as int), generated@, inside@),
        decreases chars@.len() - i,
    {
        proof {
            assert(chars@.take(i + 1).take(i as int) =~= chars@.take(i as int));
            assert(chars@.take(i + 1)[i as int] == chars@[i as int]);
        }
        if generated[i] {
            if out.len() > 0 && out[out.len() - 1] != ' ' {
                out.push(' ');
            }
        } else if inside[i] {
            out.push(chars[i]);
        }
        i = i + 1;
    }
    proof { assert(chars@.take(chars@.len() as int) =~= chars@); }
    let ws = words_of(out.as_slice());
    let mut parts: Vec<String> = Vec::new();
    let mut k: usize = 0;
    while k < ws.len()
        invariant
            k <= ws@.len(),
            parts@.map_values(|p: String| p@) == views(ws@).take(k as int),
        decreases ws@.len() - k,
    {
        let part = string_of(ws[k].as_slice());
        let ghost before = parts@;
        parts.push(part);
        proof {
            assert(parts@.map_values(|p: String| p@) =~= before.map_values(|p: String| p@).push(part@));
            assert(views(ws@).take(k + 1) =~= views(ws@).take(k as int).push(ws@[k as int]@));
        }
        k = k + 1;
    }
    proof { assert(views(ws@).take(ws@.len() as int) =~= views(ws@)); }
    join_with(&parts, " ")
}

} // verus!
