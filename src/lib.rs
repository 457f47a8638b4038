//! Detection and breaking of arbitrage cycles in a graph of exchange quotes.
//!
//! Quotes become a directed multigraph whose edge weights are fixed-point
//! values of `-log2(price)`, so that a profitable round of conversions is a
//! cycle of negative total weight. The detector finds such a cycle by
//! Bellman-Ford relaxation, and the breaking step removes one of its nodes.

pub mod breaking;
pub mod builder;
pub mod cycle;
pub mod graph;
pub mod laws;
pub mod sampling;

