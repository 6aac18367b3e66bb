//! Rebuilds a hierarchical note collection, delivered as flat parent-pointer
//! records, into a named document tree.
//!
//! The crate has three parts: an in-memory index over the flat folder and note
//! records with a path resolver and a subtree collector (`joplin`), a merge
//! engine that inserts named leaves into an ordered forest without duplicating
//! sibling names (`feather`), and a driver that runs a structural pass and a
//! content pass over a set of folders (`convert_logic`). Small verified text
//! helpers used at the serialization boundary live in `textops`.

pub mod convert_logic;
pub mod errors;
pub mod feather;
pub mod joplin;
pub mod textops;
