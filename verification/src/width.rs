//! How many terminal columns a character takes.

use crate::text;
use unicode_width::{UnicodeWidthChar, UnicodeWidthStr};
use vstd::prelude::*;

verus! {

/// What `UnicodeWidthChar::width` gives for a character: its columns, or
/// nothing where it is a control character.
pub uninterp spec fn columns(c: char) -> Option<usize>;

/// `UnicodeWidthChar::width` depends on the character alone. It gives nothing
/// exactly for control characters, one column for printable ASCII, and never
/// more columns than the character has bytes in UTF-8.
#[verifier::external_body]
fn char_columns(c: char) -> (r: Option<usize>)
    ensures
        r == columns(c),
        r is None == text::control(c),
        0x20 <= (c as u32) < 0x7f ==> r == Some(1usize),
        r matches Some(n) ==> n <= text::utf8_len(c),
{
    UnicodeWidthChar::width(c)
}

/// The columns a character takes, none for a control character.
pub open spec fn cell_width(c: char) -> nat {
    match columns(c) {
        Some(n) => n as nat,
        None => 0,
    }
}

/// The columns a character takes, none for a control character.
pub fn width_of(c: char) -> (n: usize)
    ensures
        n == cell_width(c),
        n <= text::utf8_len(c),
        0x20 <= (c as u32) < 0x7f ==> n == 1,
{
    match char_columns(c) {
        Some(n) => n,
        None => 0,
    }
}

/// What `UnicodeWidthStr::width` gives for a text: its columns, where joined
/// characters count as one.
pub uninterp spec fn joined_columns(s: Seq<char>) -> usize;

/// `UnicodeWidthStr::width` depends on the text alone. Which characters join is
/// left unsaid.
#[verifier::external_body]
pub(crate) fn str_columns(s: &str) -> (r: usize)
    ensures
        r == joined_columns(s@),
{
    UnicodeWidthStr::width(s)
}

}
