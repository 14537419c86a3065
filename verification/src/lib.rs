//! A per-user, content-addressed tree of files and directories.
//!
//! Every node is named by a SHA-384 digest of its own content and, for a
//! directory, of the digests of its children. Changing a leaf therefore
//! changes the digest of each ancestor up to the root. This crate holds the
//! digest rules, the bottom-up recomputation over a fetched context, the
//! three workflows built from it, and the plan of what has to be written
//! back to the store.

pub mod ancestry;
pub mod bytes;
pub mod codec;
pub mod commute;
pub mod connect;
pub mod digest;
pub mod fetch;
pub mod inverse;
pub mod laws;
pub mod mutator;
pub mod node;
pub mod order;
pub mod persist;
pub mod propagation;
pub mod rearrange;
pub mod workflow;
