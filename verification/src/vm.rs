//! A backtracking virtual machine: regular expressions compiled to a list of
//! instructions, with capture groups, back references and recursion.

pub mod types;
pub mod parser;
pub mod matcher;
pub mod text;
pub mod language;
