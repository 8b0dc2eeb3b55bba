//! Syntax highlighting core of a terminal text editor: a line lexer that carries
//! multi-line string and comment state from one line to the next, and a span
//! normalizer that resolves overlapping spans by priority into a partition of
//! the line.

pub mod config;
pub mod document;
pub mod highlight;
pub mod history;
pub mod lexer;
pub mod navigation;
pub mod normalize;
pub mod row;
pub mod style;
pub mod token;
pub mod utils;
