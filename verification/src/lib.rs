//! An interpreter for Lazy K: a heap of combinator graph nodes, reduced
//! lazily in normal order with sharing, fed with the input as a list of
//! Church numerals and decoded into the bytes of the output.

pub mod collect;
pub mod driver;
pub mod echo;
pub mod expr;
pub mod graft;
pub mod grammar;
pub mod graph;
pub mod heap;
pub mod loader;
pub mod machine;
pub mod numeral;
pub mod pair;
pub mod parse;
pub mod program;
pub mod render;
pub mod runner;
pub mod steps;
pub mod text;
