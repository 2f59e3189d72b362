//! A small command-line shell language: the syntax tree of a command line, the
//! parser that reads a line into that tree, the printer that writes the tree
//! back, the proof that what is printed parses again, and the decisions the
//! shell takes while it runs a tree and keeps its history.
pub mod history;
pub mod myparser;
pub mod roundtrip;
pub mod run;
pub mod text;
pub mod yparser;
pub mod ysh;
