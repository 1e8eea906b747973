//! Flat files: sections of plain numbers behind a table.

pub mod cache_format;
pub mod archives;
pub mod validation;
