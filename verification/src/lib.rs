//! Paragraph iteration over text.
//!
//! A paragraph is a maximal run of consecutive lines that each hold at least one
//! character that is not white space. Runs are separated by one or more blank
//! lines. Every function here is verified against a model of the text as its
//! UTF-8 bytes.

pub mod blank;
pub mod encoding;
pub mod laws;
pub mod lines;
pub mod model;
pub mod paragraphs;
pub mod runs;
pub mod shape;
pub mod windows;

pub use paragraphs::{Paragraphs, SplitParagraphs};
