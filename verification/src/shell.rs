//! What the window shell decides, rather than what it does: what a file
//! dragged over a window comes to.

use vstd::prelude::*;
use crate::text::{chars_of, string_of};

verus! {

/// What is happening with a file over a window.
#[derive(Clone, Debug, PartialEq, Eq)]
pub enum Drag {
    /// Over the window, and whether there is a document in it.
    Over(bool),
    /// Gone, without anything being let go.
    Left,
    /// Let go, on this document.
    Drop(String),
    /// Let go, on something this reader will not open: "That is not a PDF".
    Refused,
}

/// What `Path::extension` gives a path: the part of its file name after the
/// last dot, unless the name has no dot or only the one it begins with.
pub uninterp spec fn extension_name(path: Seq<char>) -> Option<Seq<char>>;

/// `Path::extension`, as text. The contract names the result and states
/// what the documentation promises of it: it has no dot in it.
#[verifier::external_body]
fn extension_of(path: &str) -> (r: Option<String>)
    ensures
        (match r { Some(e) => Some(e@), None => None }) == extension_name(path@),
        r matches Some(e) ==> !e@.contains('.'),
{
    std::path::Path::new(path).extension().and_then(|e| e.to_str()).map(|e| e.to_string())
}

/// `pdf` in any mixture of cases.
pub open spec fn is_pdf(e: Seq<char>) -> bool {
    e.len() == 3 && (e[0] == 'p' || e[0] == 'P') && (e[1] == 'd' || e[1] == 'D') && (e[2] == 'f' || e[2] == 'F')
}

/// Whether a dragged path is something this reader would open: by extension
/// and nothing else, because this runs every time a pointer carrying a file
/// crosses the window.
pub fn is_document(path: &str) -> (r: bool)
    ensures
        r == (extension_name(path@) matches Some(e) && is_pdf(e)),
{
    match extension_of(path) {
        Some(e) => {
            let cs = chars_of(e.as_str());
            cs.len() == 3 && (cs[0] == 'p' || cs[0] == 'P') && (cs[1] == 'd' || cs[1] == 'D') && (cs[2] == 'f' || cs[2] == 'F')
        },
        None => false,
    }
}

/// What a window hears of a file being dragged across it: the pointer
/// carrying it came in, went away, or let it go.
#[derive(Clone, Copy, Debug, PartialEq, Eq, Structural)]
pub enum DragEvent {
    Entered,
    Left,
    Dropped,
}

/// A path this reader would open.
pub open spec fn is_document_path(path: Seq<char>) -> bool {
    extension_name(path) matches Some(e) && is_pdf(e)
}

/// The first of the paths that is a document, where one is.
pub open spec fn first_document(paths: Seq<String>, k: int) -> bool {
    &&& 0 <= k < paths.len()
    &&& is_document_path(paths[k]@)
    &&& forall|j: int| 0 <= j < k ==> !is_document_path(#[trigger] paths[j]@)
}

/// What a drag comes to, for the window to tell the app. A drag coming in
/// says whether it carries a document, so that the hint means "this will be
/// caught"; a drop opens the first document of the paths, because four files
/// dropped on one window mean one document; and a drop with none in it is
/// refused rather than ignored, so the reader is told why nothing happened.
pub fn drag_of(event: DragEvent, paths: &Vec<String>) -> (r: Drag)
    ensures
        event == DragEvent::Entered ==> r == Drag::Over(exists|k: int| 0 <= k < paths@.len() && is_document_path(#[trigger] paths@[k]@)),
        event == DragEvent::Left ==> r == Drag::Left,
        event == DragEvent::Dropped ==> match r {
            Drag::Drop(path) => exists|k: int| first_document(paths@, k) && path@ == paths@[k]@,
            Drag::Refused => forall|k: int| 0 <= k < paths@.len() ==> !is_document_path(#[trigger] paths@[k]@),
            _ => false,
        },
{
    if event == DragEvent::Left {
        return Drag::Left;
    }
    let mut i: usize = 0;
    while i < paths.len()
        invariant
            event != DragEvent::Left,
            i <= paths@.len(),
            forall|j: int| 0 <= j < i ==> !is_document_path(#[trigger] paths@[j]@),
        decreases paths@.len() - i,
    {
        if is_document(paths[i].as_str()) {
            if event == DragEvent::Entered {
                return Drag::Over(true);
            }
            let path = string_of(chars_of(paths[i].as_str()).as_slice());
            proof { assert(first_document(paths@, i as int)); }
            return Drag::Drop(path);
        }
        i = i + 1;
    }
    if event == DragEvent::Entered { Drag::Over(false) } else { Drag::Refused }
}

} // verus!
