//! The overlay: what it shows and what it does with a key.

pub mod adopt;
pub mod bindings;
pub mod draft;
pub mod events;
pub mod history;
pub mod keys;
pub mod render;
pub mod reports;
pub mod runtime;
pub mod session;
pub mod visual_rows;
