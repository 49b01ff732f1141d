//! A small graph-construction library: a node/edge container, deterministic
//! classic constructors (empty, complete, star), and a suite of random graph
//! generators (Erdos-Renyi, configuration-model regular, Barabasi-Albert
//! preferential attachment), each with a verified contract.

pub mod classic;
pub mod decimal;
pub mod exception;
pub mod graph;
pub mod random_graphs;
mod sampling;
