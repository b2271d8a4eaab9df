//! Solver core for punctual reachability games on temporal graphs.
//!
//! A temporal graph is a directed multigraph whose edges are available only
//! at certain discrete time steps; availability is given by a logical
//! constraint over a single time variable.  The crate models the constraint
//! language, compiles constraints into time-indexed predicates, assembles
//! temporal graphs, and computes by backward induction which nodes let a
//! chosen player force reaching a target set at an exact time horizon.

pub mod formulae;

pub mod game;

pub mod meta;

pub mod parser;

pub mod temporal_graphs;
