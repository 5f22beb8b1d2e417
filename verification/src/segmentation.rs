//! Grapheme clusters, as the unicode-segmentation crate computes them.
use unicode_segmentation::UnicodeSegmentation;
use vstd::prelude::*;

verus! {

/// The characters of `parts`, one part after another.
pub open spec fn concat(parts: Seq<Seq<char>>) -> Seq<char>
    decreases parts.len(),
{
    if parts.len() == 0 {
        Seq::empty()
    } else {
        concat(parts.drop_last()) + parts.last()
    }
}

/// The extended grapheme clusters (UAX #29) of a text, in order.
pub uninterp spec fn extended_graphemes(text: Seq<char>) -> Seq<Seq<char>>;

/// Calls `UnicodeSegmentation::graphemes(text, true)` and copies each cluster.
/// Claimed: the clusters are `extended_graphemes(text@)`, and they are
/// consecutive slices of `text`, so together they spell `text` (the iterator
/// returns `&text[start..next]` with `next` the following boundary). Which
/// boundaries UAX #29 chooses is not stated.
#[verifier::external_body]
pub(crate) fn graphemes_of(text: &str) -> (parts: Vec<String>)
    ensures
        parts@.map_values(|p: String| p@) == extended_graphemes(text@),
        concat(parts@.map_values(|p: String| p@)) == text@,
{
    text.graphemes(true).map(String::from).collect()
}

} // verus!
