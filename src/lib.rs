//! A table-driven incremental parsing engine: compiled tables are loaded,
//! texts are lexed and parsed into syntax trees, and edited texts re-parsed.
//!
//! - `abi`: the versioned header in front of a compiled table.
//! - `lexer`: longest-match tokenizing, resumable from any offset.
//! - `grammar`: checks a grammar must pass before it is compiled.
//! - `parser`: the LR engine with error recovery.
//! - `tree`: the syntax tree arena and its well-formedness.
//! - `edit`: text edits, tree shifting and incremental re-lexing.
use vstd::prelude::*;

pub mod abi;
pub mod lexer;
pub mod tree;
pub mod parser;
pub mod edit;
pub mod grammar;

verus! {

} // verus!
