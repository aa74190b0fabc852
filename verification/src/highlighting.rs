//! Display annotations for the clusters of a row, and the hook that
//! produces them.

use vstd::prelude::*;

verus! {

/// The display class of one grapheme cluster.
#[derive(Clone, Copy, Debug, PartialEq, Eq, Structural)]
pub enum Style {
    Plain,
    Number,
    Match,
    Text,
    Character,
    Comment,
    Keyword,
}

/// A source of display annotations, chosen by the kind of file that is
/// edited. The buffer hands it the text of a row and, during a search, the
/// word that is looked for; it answers with one style for each grapheme
/// cluster of the text. Nothing is assumed of the answer: one of any other
/// length is dropped where it arrives.
pub trait Highlighter {
    /// The styles of the clusters of `text`, in order.
    fn annotate(&self, text: &str, word: Option<&str>) -> Vec<Style>;

    /// The name of the kind of file that this highlighter is for.
    fn name(&self) -> String;
}

} // verus!
