//! A randomized directory-tree walker.
//!
//! The crate's core is a traversal engine that interleaves random descent
//! decisions over a lazily discovered tree with asynchronous directory
//! listings, coordinated through a per-path state machine that prevents
//! duplicate work and guarantees termination.  The engine itself never
//! touches the file system: callers submit the listings it asks for and
//! hand back each result, in any completion order.

pub mod node;
mod rng;
pub mod tree;
pub mod walker;
