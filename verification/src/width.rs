//! Display widths of chars and strings in terminal columns, from the
//! `unicode-width` crate.

use vstd::prelude::*;

verus! {

/// The width that `unicode-width` looks up in its tables for a char at or
/// above U+00A0.
pub uninterp spec fn char_width_table(c: char) -> usize;

/// The display width of a char: printable ASCII is one column, the other
/// C0 and C1 control chars have no width, and the rest come from the tables.
pub open spec fn char_width(c: char) -> Option<usize> {
    if (c as u32) < 0x7f {
        if (c as u32) >= 0x20 {
            Some(1)
        } else {
            None
        }
    } else if (c as u32) >= 0xa0 {
        Some(char_width_table(c))
    } else {
        None
    }
}

/// `unicode_width::UnicodeWidthChar::width`: `Some(1)` for printable ASCII,
/// `None` for the C0 and C1 control chars and DEL, and otherwise the width
/// from its tables, which is at most 3.
#[verifier::external_body]
pub fn char_display_width(c: char) -> (res: Option<usize>)
    ensures
        res == char_width(c),
        (c as u32) >= 0xa0 ==> res == Some(char_width_table(c)),
        res matches Some(w) ==> w <= 3,
{
    unicode_width::UnicodeWidthChar::width(c)
}

/// The display width that `unicode-width` gives a whole string (which is not
/// always the sum of its chars' widths).
pub uninterp spec fn str_width(s: Seq<char>) -> usize;

/// `unicode_width::UnicodeWidthStr::width`: the display width of `s`.
#[verifier::external_body]
pub fn str_display_width(s: &str) -> (res: usize)
    ensures
        res == str_width(s@),
{
    unicode_width::UnicodeWidthStr::width(s)
}

} // verus!
