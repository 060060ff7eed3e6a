//! A generic doubly linked list whose nodes live in an index-addressed arena.
//!
//! Every operation is specified against the sequence of elements that the
//! list holds from head to tail.

mod arena;
pub mod laws;
pub mod list;
pub mod model;
mod node;

pub use crate::list::List;
