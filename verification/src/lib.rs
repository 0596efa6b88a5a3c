//! An interpreter front end for Backtick, a Brainfuck-derived language with
//! absolute addressing, named labels, reusable parametrized code blocks,
//! multi-way conditional branching, counted operators, and literal array
//! initialization.
//!
//! The crate is split into a comparator codec (bitflag decoding and
//! evaluation of one comparison), a grammar that turns source bytes into a
//! nested token tree, and an execution engine that walks that tree against a
//! growable byte tape using an explicit work stack.

pub mod cfg;
pub mod comparator;
pub mod parser;
