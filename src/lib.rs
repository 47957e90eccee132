//! A small regular-expression engine: patterns are parsed into a tree,
//! compiled into a program for a backtracking virtual machine, and run
//! against an input line.
pub mod engine;
pub mod helper;

pub use engine::{describe, do_matching};


