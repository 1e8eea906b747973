//! Queries on open traces.

pub mod session;
pub mod call_tree;
pub mod site;
pub mod activation;
pub mod functions;
pub mod laws;
pub mod query_laws;
pub mod text_laws;
pub mod dep_tree;
pub mod strings;
pub mod memory;
pub mod registers;
