//! A tree container whose nodes live in a slot pool and are addressed by
//! generation-tagged identifiers.
//!
//! Every node carries a payload and five optional links (parent, first and
//! last child, previous and next sibling). The structural operations keep
//! the sibling lists doubly linked and the parent relation acyclic; each of
//! them is verified against [`Arena::wf`].

use vstd::prelude::*;

pub mod arena;
pub mod id;
pub mod laws;
pub mod node;
pub mod order;
pub mod pool;
pub mod prune;
pub mod topology;
pub mod traverse;
pub mod tree;

pub use crate::arena::Arena;
pub use crate::id::NodeId;
pub use crate::node::{Links, Node};
pub use crate::traverse::{Descendants, Walk};
