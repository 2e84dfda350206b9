//! A wildcard key-chord matching engine.
//!
//! Partially-specified key-event patterns are kept in a tree ordered by a
//! generality (subsumption) relation.  A concrete key event is matched
//! against the tree to find all maximally-specific registered patterns, and
//! that result drives a set of currently "held" named actions with
//! press/release semantics.

pub mod mason;
pub mod pattern;
pub mod config;
pub mod laws;
pub mod tree;
