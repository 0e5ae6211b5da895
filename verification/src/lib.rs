//! A generic graph library: capability traits that say what "being a graph"
//! means, a compact immutable array-backed graph with constant-time edge
//! reversal, filtered subgraph views, dense property maps, and union-find
//! over a graph's vertex domain.

pub mod graph;
pub mod props;
mod sample;
pub mod static_;
pub mod subgraph;
pub mod unionfind;
