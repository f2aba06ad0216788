//! A size-indexed store of page-mapped memory chunks.
//!
//! Free chunks are kept in an AVL tree keyed by capacity ([`avl_tree`]) and
//! are handed out again by best fit through [`large_allocator`]. The tree
//! lives in a table of chunk headers keyed by address; its links are
//! addresses, and it has no parent links. Nothing here maps memory: a
//! request that no free chunk can serve is answered with the number of
//! bytes to map, and the mapped region is handed back in.
//!
//! Every structural claim about the tree is stated over the ghost outline
//! in [`shape`] and proved; [`laws`] states what holds of every reachable
//! state. [`rb_tree`] is a red-black tree over the same kind of table,
//! with its outline in [`rb_shape`]; the store does not use it.

pub mod avl_tree;
pub mod common;
pub mod large_allocator;
pub mod laws;
pub mod rb_shape;
pub mod rb_tree;
pub mod shape;
