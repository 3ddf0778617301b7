//! Finds groups of byte-identical files: paths are bucketed by size, the
//! size singletons are pruned, the survivors are hashed with a 64-byte
//! BLAKE2b digest, and the digest singletons are pruned in turn. What
//! remains, every group of two or more paths, is rendered for stdout and
//! the log.

pub mod digest;
pub mod hex;
pub mod index;
pub mod laws;
pub mod pipeline;
pub mod report;
