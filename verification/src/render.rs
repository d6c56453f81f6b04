//! What the renderer hands up, in the shapes everything above it reads.
//!
//! The renderer itself — drawing a page, measuring it, asking it for its
//! text — is behind a door this library does not open: it is pdfium, and it
//! answers in floating point. What comes through the door and is decided on
//! is here.

use vstd::prelude::*;
use crate::text::{push_str, string_of, chars_of};

verus! {

/// One line of a document's own table of contents, flat, with a depth.
///
/// `page` is one-based, and `None` for an entry whose destination the
/// document does not actually resolve: a row you cannot click rather than a
/// row that is not there.
#[derive(Clone, Debug, PartialEq)]
pub struct Heading {
    pub title: String,
    pub depth: usize,
    pub page: Option<usize>,
}

/// A page's text, in the document's own order: the characters, indexed as
/// their boxes are.
#[derive(Clone, Debug)]
pub struct PageText {
    pub chars: Vec<char>,
}

impl PageText {
    pub fn is_empty(&self) -> (r: bool)
        ensures
            r == (self.chars@.len() == 0),
    {
        self.chars.len() == 0
    }
}

/// Why a document would not open.
///
/// Two arms, and the whole point is the first one: a locked document is the
/// one case where there is something for the reader to do.
#[derive(Debug, Clone, PartialEq, Eq)]
pub enum Refusal {
    /// It wants a password, or the one it was given was not right.
    Locked,
    /// Anything else, already said in a sentence.
    Said(String),
}

impl Refusal {
    /// The refusal in words, as the terminal prints it at launch.
    pub fn message(&self) -> (r: String)
        ensures
            r@ == match self {
                Refusal::Locked => "That document is locked. It needs a password."@,
                Refusal::Said(said) => said@,
            },
    {
        match self {
            Refusal::Locked => {
                let mut out = String::new();
                push_str(&mut out, "That document is locked. It needs a password.");
                out
            },
            Refusal::Said(said) => string_of(chars_of(said.as_str()).as_slice()),
        }
    }
}

/// A window with nothing in it: a document of no pages, which is what every
/// question about it answers with.
pub struct Nothing;

impl Nothing {
    pub fn pages(&self) -> (r: usize)
        ensures
            r == 0,
    {
        0
    }
}

} // verus!
