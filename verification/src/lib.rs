//! An ordered map with `u32` keys, implemented as a van Emde Boas tree.
//!
//! The tree associates keys drawn from the full `u32` universe with values of
//! any `Copy` type and answers membership, insertion, deletion, minimum,
//! maximum, successor and predecessor queries in `O(log log U)` expected time,
//! where `U` is the size of the key universe.  Children are kept in a sparse
//! hash table, so the space is proportional to the number of live keys.
//!
//! Every operation is specified against a mathematical view of the tree as a
//! `Map<u32, V>`, and the module `laws` states and proves the laws that relate
//! the operations to one another.

pub mod keys;
pub mod laws;
pub mod tree;

pub use tree::VebTreeMap;
