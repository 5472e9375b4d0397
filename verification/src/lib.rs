//! A small interpreter for a minimal tape language: a lexer that turns
//! source text into opcodes, a parser that matches loop brackets and builds
//! an instruction tree, and an executor that runs the tree against a byte
//! tape with a movable data pointer.

pub mod interp;
pub mod lexer;
pub mod parser;
