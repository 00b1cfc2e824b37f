//! A length-prefixed binary block format: a codec that validates and parses
//! one block frame out of a byte buffer, an incremental decoder that turns a
//! stream of byte chunks into a stream of blocks, and a search over several
//! decoded streams for the most recent block whose parent hash is shared by
//! all of them.

pub mod block;
pub mod error;
pub mod stream;
pub mod utils;

pub use block::Block;
pub use error::Error;
