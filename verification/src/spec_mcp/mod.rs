//! Indexing of the KerML specification: its clause tree, its grammar, and where the
//! compiler implements each clause.
pub mod chars;
pub mod clause_tree;
pub mod bnf;
pub mod implementation;
pub mod index;
pub mod tools;
use vstd::prelude::*;

verus! {

/// The error of an index operation. Building an index from text cannot fail; the type
/// keeps the `Result` in the signatures that callers match on.
#[derive(Debug)]
pub struct SpecError {
    pub message: String,
}

} // verus!
