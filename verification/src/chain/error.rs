//! Errors of the block sources.

use vstd::prelude::*;

verus! {

/// Why a block source gave no blocks.
#[derive(Clone, Debug, PartialEq, Eq)]
pub enum ChainError {
    /// The stored data is not what it should be; the text says in what way.
    Parse(String),
}

} // verus!
