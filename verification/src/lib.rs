//! The document model of a small terminal note-taking tool: the buffer that
//! keeps committed text apart from the line being typed, the wrapping of text
//! into rows of a fixed width, and the placement of the newest rows on screen.

pub mod editor;
pub mod viewport;
pub mod wrap;

pub use editor::{Editor, Key, DEFAULT_WIDTH};
pub use viewport::{layout, Layout, Placement, VISIBLE_ROWS};
pub use wrap::{split_line, split_lines, wrap, LineChunk};
