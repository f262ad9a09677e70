//! Turns a set of fixed-format issue reports into a canvas document:
//! a JSON object whose text nodes carry a deterministic identifier and
//! sit on a fixed 20-column grid.
//!
//! The library is pure: it works on values that the surrounding program
//! has already read from disk, and hands back either the finished
//! document or an error message naming the offending file.

pub mod canvas_generation;
pub mod cli;
pub mod issue_parsing;
pub mod text;

pub use canvas_generation::generate_canvas_file_content;
