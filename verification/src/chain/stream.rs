//! Blocks as the block sources hand them out.

use vstd::prelude::*;

verus! {

/// A block with its place in the chain.
#[derive(Clone, Debug, PartialEq, Eq)]
pub struct RawBlock {
    /// Distance from the first block of the chain.
    pub height: usize,
    /// The block hash, as it is displayed.
    pub hash: String,
    /// The block as it is stored.
    pub data: Vec<u8>,
}

} // verus!
