//! A small regular expression engine: a parser, a compiler to a
//! non-deterministic automaton that is simulated over the input, and a
//! backtracking virtual machine with groups, back references and recursion.

pub mod utils;

pub use utils::is_special;
pub mod types;
pub mod parser;
pub mod compiler;
pub mod matcher;
pub mod language;
pub mod text;
pub mod graph;
pub mod vm;
