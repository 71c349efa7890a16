//! A doubly linked list with positional insertion, deletion and lookup.
//!
//! The list keeps its nodes in an arena (a `Vec` of nodes linked by slot
//! index), so every operation is ordinary safe code, and the chain of
//! `next` and `prev` links is proved consistent with the abstract sequence
//! of values after every operation.

pub mod linked_list;
pub mod ops;
pub mod render;
