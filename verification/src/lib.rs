//! Analysis of instruction traces.
//!
//! A trace is a text file with one executed instruction per line. The library
//! builds the dependency graph of a trace ([`scanner`], [`parallel`],
//! [`merge`]), the structures that queries read ([`query`], [`engine`]), the
//! files in which they are kept ([`flat`], [`cache`], [`staging`]), and it
//! searches the memory that a trace shows over time for byte patterns
//! ([`memory_search`], [`helper`]).
//!
//! Lines come in decoded: what the trace parser makes of them is in [`types`].
//! All that is assumed of other crates stands in [`foreign`].

pub mod bytes;
pub mod cache;
pub mod engine;
pub mod error;
pub mod flat;
pub mod foreign;
pub mod helper;
pub mod line_index;
pub mod memory_search;
pub mod merge;
pub mod parallel;
pub mod parallel_types;
pub mod query;
pub mod scanner;
pub mod seqs;
pub mod staging;
pub mod text;
pub mod types;
