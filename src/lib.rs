//! An in-place rewriting cursor over a text buffer.
//!
//! A [`Replacinator`] reads characters from the front of the unread part of a
//! buffer and writes (usually shorter) replacements into the space that reading
//! freed, so that a text can be decoded without a second allocation.
pub mod model;
pub mod text;
pub mod cursor;
pub mod laws;

pub use cursor::Replacinator;
pub use model::CursorState;
