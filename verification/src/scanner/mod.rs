//! Forward scan over a trace that builds the dependency graph.

pub mod deps;
pub mod failure_laws;
pub mod last_def;
pub mod laws;
pub mod lines;
pub mod meaning;
pub mod model;
pub mod pass1;
pub mod scan;
