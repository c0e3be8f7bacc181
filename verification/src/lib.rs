//! Parsing and interpretation of `chirp` files, a small scene description
//! language: a chirp file describes a tree of entities, each with a name,
//! a list of methods (with arguments) and children.
use vstd::prelude::*;

pub mod lex;
pub mod stream;
pub mod ast;
pub mod grammar;
pub mod interpret;
pub mod parse_dsl;
pub mod spawn;
pub mod dsl;
pub mod quick;
pub mod state;

verus! {
} // verus!
