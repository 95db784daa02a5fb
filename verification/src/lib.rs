//! Front end for a small esoteric instruction language: a lexer that maps
//! each source character to one token, and a recursive-descent parser that
//! builds a tree of instructions, tracking bracket nesting for loops.
//!
//! The parser's result is pinned down by a specification-level pushdown
//! machine in [`model`]: `parse` returns exactly what that machine computes
//! on the lexed token sequence, both on success and on each failure.

pub mod common;
pub mod model;
pub mod parser;
