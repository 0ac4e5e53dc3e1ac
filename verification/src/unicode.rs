//! Trusted bridge to the Unicode crates: grapheme-cluster segmentation
//! and terminal display width.

use unicode_segmentation::UnicodeSegmentation;
use unicode_width::UnicodeWidthStr;
use vstd::prelude::*;

verus! {

/// The grapheme-cluster segmentation of a character sequence, as the
/// extended-cluster rules of UAX #29 divide it.
pub uninterp spec fn grapheme_clusters(s: Seq<char>) -> Seq<Seq<char>>;

/// The display width, in terminal columns, of a character sequence.
pub uninterp spec fn display_width(s: Seq<char>) -> nat;

/// The character sequences of a list of string pieces.
pub open spec fn views_of(v: Seq<String>) -> Seq<Seq<char>> {
    v.map_values(|g: String| g@)
}

/// Relies on unicode-segmentation's `graphemes(true)`: the extended
/// grapheme clusters of the string, in order. The clusters are non-empty
/// substrings that concatenate back to the string.
#[verifier::external_body]
pub(crate) fn graphemes_of(s: &str) -> (r: Vec<String>)
    ensures
        views_of(r@) == grapheme_clusters(s@),
        views_of(r@).flatten() == s@,
        forall|i: int| 0 <= i < r@.len() ==> r@[i]@.len() > 0,
{
    s.graphemes(true).map(|g| g.to_string()).collect()
}

/// Relies on unicode-width's `UnicodeWidthStr::width`: the string's
/// display width in terminal columns. Every character contributes at
/// most two columns, so the width never exceeds twice the character
/// count.
#[verifier::external_body]
pub(crate) fn str_width(s: &str) -> (w: usize)
    ensures
        w == display_width(s@),
        w <= 2 * s@.len(),
{
    UnicodeWidthStr::width(s)
}

} // verus!
