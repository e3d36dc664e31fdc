//! A slab allocator whose occupancy is tracked by a bitset, so that iteration
//! only visits occupied slots.
//!
//! Values are stored in a dense array of slots and addressed by [`Key`]s. An
//! occupancy index records which slots hold a value; it starts out as a small
//! inline bitset and moves to a growable one when the slab outgrows it.

pub mod bit_tree;
pub mod indexer;
mod iter;
mod key;
pub mod occupancy;
pub mod slab;

pub use iter::{IntoIter, IntoValues, Iter, IterMut, Keys, Values, ValuesMut};
pub use key::Key;
pub use slab::Slab;
