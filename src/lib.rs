//! A translator from "HOHOHO!" source text, whose words are six-letter case
//! patterns, to the eight-instruction tape-machine language Brainfuck.

pub mod command;
pub mod parser;
pub mod program;

pub use command::Command;
pub use parser::{Error, TripletParseIter};
pub use program::Program;
