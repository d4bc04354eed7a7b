//! An ordered map that keeps its keys in an AVL tree laid out in a slot arena
//! and its values in a separate store addressed by key.

pub mod balance;
pub mod free_list;
pub mod insert;
pub mod laws;
pub mod link_lemmas;
pub mod lookup_map;
pub mod node;
pub mod order;
pub mod queries;
pub mod remove;
pub mod shape;
pub mod shape_lemmas;
pub mod tree;
pub mod tree_map;
mod vectors;

pub use crate::free_list::{FreeList, FreeListIndex};
pub use crate::lookup_map::LookupMap;
pub use crate::node::{expect, Node};
pub use crate::shape::Shape;
pub use crate::tree::Tree;
pub use crate::tree_map::TreeMap;
