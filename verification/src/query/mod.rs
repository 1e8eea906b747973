//! Structures that queries read.

pub mod activation;
pub mod activation_laws;
pub mod announced;
pub mod announced_laws;
pub mod announced_meaning;
pub mod call_tree;
pub mod mem_access;
pub mod registers;
pub mod strings;
