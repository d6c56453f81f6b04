//! Moonowl's reading logic: searching a document's text, selecting it,
//! reading the keyboard file, resolving a theme, and the small formats the
//! reader writes and reads, each with its contract.

pub mod text;
pub mod unicode;
pub mod search;
pub mod keymap;
pub mod render;
pub mod select;
pub mod palette;
pub mod gpu;
pub mod icons;
pub mod layout;
pub mod markup;
pub mod shell;
pub mod fixture;
pub mod pdfium;
pub mod keys;
pub mod settings;
