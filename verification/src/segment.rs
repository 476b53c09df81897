//! Tokenization of text into unicode word segments.

use vstd::prelude::*;

verus! {

/// The unicode word segments of a string, in order: the pieces that splitting
/// on UAX#29 word boundaries produces.
pub uninterp spec fn word_segments_of(s: Seq<char>) -> Seq<Seq<char>>;

/// Relies on `unicode_segmentation::UnicodeSegmentation::split_word_bounds`:
/// it splits on UAX#29 word boundaries, which depend on the string alone; the
/// concatenation of the returned substrings is the original string, and each
/// returned substring is non-empty.
#[verifier::external_body]
pub(crate) fn split_words(s: &str) -> (r: Vec<String>)
    ensures
        r.deep_view() == word_segments_of(s@),
        r.deep_view().flatten() == s@,
        forall|i: int| 0 <= i < r.deep_view().len() ==> (#[trigger] r.deep_view()[i]).len() > 0,
{
    unicode_segmentation::UnicodeSegmentation::split_word_bounds(s)
        .map(|w| w.to_string())
        .collect()
}

} // verus!
