//! Parsing of the SVG path mini-language into sub-path outlines.
//!
//! The library reads path text as a sequence of characters, splits it into
//! commands with their numeric operands, and groups those commands into
//! sub-paths. Each numeric operand is handed out as the span of its text, so
//! that coordinates can be evaluated at whatever precision a caller uses.

pub mod elements;
pub mod lexer;
pub mod subpaths;
pub mod syntax;
pub mod utils;
