//! Weighted directed graphs in compressed adjacency form, with three
//! classical queries: least-cost paths, minimum spanning trees and
//! topological orders.

pub mod graph;
pub mod ordering;
pub mod shortest;
pub mod spanning;
pub mod text;
