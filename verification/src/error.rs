//! Errors of the core types.  Errors are values: malformed market data never panics.

use vstd::prelude::*;

verus! {

/// Errors producible by core types.
#[derive(Debug, PartialEq, Eq)]
pub enum CoreError {
    /// A ticker failed validation; holds the text as it was given.
    InvalidSymbol(String),
}

} // verus!
