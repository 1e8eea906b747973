//! Joining the scans of consecutive chunks into the scan of the whole trace.

pub mod annot_laws;
pub mod call_laws;
pub mod deps;
pub mod events;
pub mod forward;
pub mod indices;
pub mod join_laws;
pub mod knowledge;
pub mod laws;
pub mod loads;
pub mod meaning;
pub mod orchestrator;
pub mod patches;
