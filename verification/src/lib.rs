//! An in-memory text buffer addressed by grapheme clusters: rows of text that
//! can be edited, split, joined, rendered and searched, and a document that
//! routes cursor positions to rows.

use vstd::prelude::*;

pub mod display;
pub mod document;
pub mod grapheme;
pub mod highlighting;
pub mod lines;
pub mod row;
pub mod screen;
pub mod search;
pub mod text;

pub use document::{Document, FileImage};
pub use highlighting::{Highlighter, Style};
pub use row::Row;

verus! {

/// A cursor position: `x` counts grapheme clusters within a row, `y` counts rows.
#[derive(Clone, Copy, Debug, PartialEq, Eq, Structural, Default)]
pub struct Position {
    pub x: usize,
    pub y: usize,
}

/// The direction in which a search walks through the text.
#[derive(Clone, Copy, Debug, PartialEq, Eq, Structural)]
pub enum SearchDirection {
    Forward,
    Backward,
}

} // verus!
