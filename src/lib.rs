//! A parser for a small, indentation-sensitive configuration language:
//! quoted strings, numbers and booleans, arrays written as `- item` lines,
//! and objects written as `key: value` lines, nested by indentation.
//!
//! `parse` is proved to return exactly what the grammar in `grammar`
//! assigns to its input; `canonical` and `laws` state and prove properties
//! of that grammar.

pub mod canonical;
pub mod grammar;
pub mod laws;
pub mod lexer;
pub mod lines;
pub mod parser;
pub mod tracker;
pub mod value;

pub use parser::{parse, SyntaxError};
pub use tracker::Tracker;
pub use value::{Node, Value};
