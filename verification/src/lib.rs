//! Markup-driven dialogue text.
//!
//! Authored dialogue strings carry inline directives (colors, effects, timing
//! changes, pauses) in a lightweight markup syntax.  This crate parses such a
//! string into a nested token forest, normalizes its whitespace, flattens it
//! into a linear text buffer with offset-indexed commands and styling spans,
//! and drives a typewriter-style reveal of that buffer one time step at a
//! time.

pub mod text;
pub mod tokens;
pub mod type_writer;

mod strutil;
