//! E-graphs: a union-find over e-classes, hash-consed nodes, congruence
//! rebuilding and e-matching, in three variants.
pub mod acyclic;
pub mod egraph;
pub mod simple;
pub mod util;

pub use egraph::{EGraph, Id, Name, Node, Pattern, Subst};
