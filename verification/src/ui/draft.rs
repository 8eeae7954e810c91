//! The draft as the keys and the screen see it.

use crate::model::Attachment;
use vstd::prelude::*;

verus! {

/// What is read of the editor that holds the draft. An image is one piece of it,
/// so places in the draft are counted in pieces and in bytes of what is shown.
#[derive(Clone, Debug, PartialEq, Eq)]
pub struct DraftView {
    /// What is shown.
    pub display_text: String,
    /// Where the cursor stands in what is shown.
    pub cursor_byte: usize,
    /// Where the cursor stands, counted in pieces.
    pub cursor_atom: usize,
    /// The piece that starts at or covers each byte of what is shown, and the
    /// end behind the last one.
    pub atoms: Vec<usize>,
    /// The bytes of the image that the cursor stands on.
    pub highlight: Option<(usize, usize)>,
    /// What would be sent.
    pub submission_text: String,
    pub attachment_at_cursor: Option<Attachment>,
    pub attachment_behind_cursor: Option<Attachment>,
}

}
