//! A reflow filter for pasted text: strips decorative borders, rejoins
//! soft-wrapped lines into paragraphs, keeps list items and headings apart,
//! and tidies whitespace and blank lines.
pub mod laws;
pub mod reflow;
pub mod text;

pub use reflow::{clean, normalize_spaces, remove_border_pipes, should_break_before};
