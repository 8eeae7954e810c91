//! The screen.

pub mod parts;
pub mod screen;
pub mod shown;
