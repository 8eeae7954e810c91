//! Text laid out in rows of terminal cells.

pub mod block;
pub mod cells;
pub mod document;
pub mod reading;
pub mod rows;
pub mod turn_cache;
pub mod wrap;

pub use block::TurnInput;
pub use document::{sticky_overlay, HistoryDocument, PromptSection, StickyRows};
pub use rows::{wrap_styled, CellStyle, VisualRow, VisualSpan};
pub use turn_cache::TurnRenderCache;
pub use wrap::{wrap_plain, WrappedText};
