//! The command types of the storage layer: plain queries and updates that
//! the repositories take. The repositories themselves do I/O and live
//! outside the verified library.

pub mod info_hash;
pub mod peer;
