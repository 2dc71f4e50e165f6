//! Reading a block chain out of the node's block files.

pub mod blk_file_reader;
pub mod error;
pub mod frame;
pub mod hash_index;
pub mod header;
pub mod names;
pub mod order;
pub mod storage;
pub mod stream;
pub mod visit;
