//! The SLEEP binary file format: the 32-byte header codec, the fixed-size
//! entry codec, flat-tree index arithmetic, and the Merkle tree
//! builder/validator that interprets a linear entry sequence as a binary
//! hash tree over data blocks.

pub mod entry;
pub mod error;
pub mod flat_tree;
pub mod hashing;
pub mod header;
pub mod tree;

pub use entry::Entry;
pub use error::SleepError;
pub use header::{FileType, HashAlgorithm, Header, Version};
pub use tree::Tree;
