//! Search for a byte pattern in the memory that a trace shows over time.
//!
//! The lines of the trace are replayed in order on a sparse memory; a match is
//! reported at the line at which the pattern comes to stand in memory.

pub mod cache;
pub mod cache_laws;
pub mod cached;
pub mod expand;
pub mod expand_laws;
pub mod fingerprint;
pub mod identity;
pub mod laws;
pub mod meaning;
pub mod request;
pub mod scan;
pub mod state;
