//! Compiler for a small language of two-party session protocols.
//!
//! Source text is lexed and parsed into a syntax tree, each protocol body is
//! expanded into a labelled transition system over its messages, the result
//! is checked for well-formedness, and typed state handles are generated for
//! both roles of each protocol.
use vstd::prelude::*;

pub mod ast;
pub mod channel;
pub mod compile;
pub mod format;
pub mod generate;
pub mod graph;
pub mod lexer;
pub mod parser;
pub mod report;
pub mod roundtrip;
pub mod state_machine;
pub mod text;
pub mod token;
pub mod validate;

verus! {

} // verus!
