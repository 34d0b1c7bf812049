//! A front end for a small, declarative, Python-flavored build-description
//! language: an ordered-choice, backtracking grammar over raw bytes that
//! produces a source-range-annotated syntax tree, plus a resolution pass
//! that turns raw byte offsets into 1-indexed line/column coordinates.

pub mod ast;
pub mod grammar;
pub mod laws;
pub mod parse;
pub mod resolve;
pub mod utils;
