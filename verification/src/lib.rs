//! Branch-and-bound search for a multiset of catalog items whose values sum
//! exactly to a target amount, in minor currency units.
//!
//! The search explores an implicit tree held in an append-only arena; a
//! frontier abstraction lets the one engine run either breadth-first or
//! depth-first, and a path walk turns a matched node back into the ordered
//! list of chosen items.

pub mod arena;
pub mod catalog;
pub mod engine;
pub mod frontier;
