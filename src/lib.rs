//! Turns a Python `-X importtime` trace into an aggregated import tree, and
//! provides the integer and text logic that the treemap layout relies on.

mod text;
pub mod parser;
pub mod tree;
pub mod graph;
pub mod launch;
pub mod laws;
