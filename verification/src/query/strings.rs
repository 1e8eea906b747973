//! Strings found in memory.

use vstd::prelude::*;

verus! {

#[derive(Debug, Clone, Copy, PartialEq, Eq, Structural)]
pub enum StringEncoding {
    Ascii,
    Utf8,
}

#[derive(Debug, Clone, Copy, PartialEq, Eq, Structural)]
pub enum StringRw {
    Read,
    Write,
}

/// A string, with the line that completed it.
pub struct StringRecord {
    pub addr: u64,
    pub content: String,
    pub encoding: StringEncoding,
    pub byte_len: u32,
    pub seq: u32,
    pub xref_count: u32,
    pub rw: StringRw,
}

pub struct StringIndex {
    pub strings: Vec<StringRecord>,
}

impl Default for StringIndex {
    fn default() -> (r: Self)
        ensures
            r.strings@.len() == 0,
    {
        StringIndex { strings: Vec::new() }
    }
}

/// A memory access as the string search reads it: address, data, size, line
/// and direction.
pub type StringAccess = (u64, u64, u8, u32, StringRw);

} // verus!
