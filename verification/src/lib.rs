//! Iterative depth-first summation of the leaves of a binary tree whose nodes
//! are addressed by 32-byte digests and kept in a store.
//!
//! Six traversals are offered. They differ in whether the auxiliary stack can
//! grow or is capped at a fixed number of entries, and in how they sequence
//! pushes and pops. Each one is proved to return exactly the outcome that the
//! mathematical model in [`model`] assigns to the store and the root.

pub mod bounded_stack;
pub mod indexed;
pub mod laws;
pub mod model;
pub mod steps;
pub mod store;
pub mod traverse;
pub mod traverse_chase_loop_vec;
pub mod traverse_chase_option;
pub mod traverse_heapless;
pub mod unfold;

pub use crate::indexed::IndexedNode;
pub use crate::model::TraverseError;
pub use crate::store::{Digest, Node, Store};
pub use crate::traverse::{
    Heapless, HeaplessLoop, HeaplessOption, Simple, Traverse, VecLoop, VecOption,
};
