//! Display widths and grapheme clusters, from `unicode-width` and
//! `unicode-segmentation`.
//!
//! Their results follow tables of the Unicode standard, so they are named
//! here rather than spelled out; the rest of the library is verified over
//! these names.

use vstd::prelude::*;
use unicode_segmentation::UnicodeSegmentation;
use unicode_width::UnicodeWidthChar;
use unicode_width::UnicodeWidthStr;

verus! {

/// What `UnicodeWidthStr::width` returns for a string.
pub uninterp spec fn str_width(s: Seq<char>) -> usize;

/// What `UnicodeWidthChar::width` returns for a character (`None` for control
/// characters).
pub uninterp spec fn char_width(c: char) -> Option<usize>;

/// What `UnicodeSegmentation::graphemes(s, true).count()` returns: the number
/// of extended grapheme clusters of a string.
pub uninterp spec fn grapheme_count(s: Seq<char>) -> usize;

/// `unicode_width::UnicodeWidthStr::width`: the displayed width of `s` in
/// columns. The contract claims only that the result is the named function
/// of the string's characters.
#[verifier::external_body]
pub(crate) fn display_width(s: &str) -> (res: usize)
    ensures
        res == str_width(s@),
{
    s.width()
}

/// `unicode_width::UnicodeWidthChar::width`: the displayed width of `c` in
/// columns, `None` for control characters. The contract claims only that the
/// result is the named function of the character.
#[verifier::external_body]
pub(crate) fn char_display_width(c: char) -> (res: Option<usize>)
    ensures
        res == char_width(c),
{
    c.width()
}

/// `unicode_segmentation::UnicodeSegmentation::graphemes(s, true)`, counted:
/// the number of extended grapheme clusters of `s`. The contract claims only
/// that the result is the named function of the string's characters.
#[verifier::external_body]
pub(crate) fn count_graphemes(s: &str) -> (res: usize)
    ensures
        res == grapheme_count(s@),
{
    s.graphemes(true).count()
}

} // verus!
