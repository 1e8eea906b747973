//! What the scan of one chunk leaves open for the merge.

use crate::types::RegId;
use vstd::prelude::*;

verus! {

/// A load none of whose bytes was stored within its chunk.
pub struct UnresolvedLoad {
    pub line: u32,
    pub addr: u64,
    pub width: u8,
    pub load_value: Option<u64>,
    /// Registers that the load reads.
    pub uses: Vec<RegId>,
}

/// A load some of whose bytes were stored within its chunk.
pub struct PartialUnresolvedLoad {
    pub line: u32,
    pub missing_addrs: Vec<u64>,
}

/// A pair load without any store within its chunk.
pub struct UnresolvedPairLoad {
    pub line: u32,
    pub addr: u64,
    pub elem_width: u8,
    pub base_reg: Option<RegId>,
    pub defs: Vec<RegId>,
}

/// A pair load parts of which are open.
pub struct PartialUnresolvedPairLoad {
    pub line: u32,
    pub addr: u64,
    pub elem_width: u8,
    pub half1_unresolved: bool,
    pub half2_unresolved: bool,
    pub base_reg_unresolved: bool,
    pub base_reg: Option<RegId>,
}

/// A register read without a definition within the chunk.
#[derive(Clone, Copy)]
pub struct UnresolvedRegUse {
    pub line: u32,
    pub reg: RegId,
}

/// What a chunk contributes to the call tree, in line order.
pub enum CallTreeEvent {
    SetRootAddr { addr: u64 },
    LineAddr { seq: u32, addr: u64 },
    Call { seq: u32, target: u64 },
    Ret { seq: u32 },
    BlrPending { seq: u32, pc: u64 },
    SetFuncName { entry_seq: u32, name: String },
}

/// A line that annotates a call.
pub enum SpecialLineData {
    CallFunc { name: String, is_jni: bool, raw: String },
    Arg { index: String, value: String, raw: String },
    Ret { value: String, raw: String },
    HexDump { raw: String },
}

/// What a chunk contributes to the call annotations, in line order.
pub enum GumtraceAnnotEvent {
    BranchInstr { seq: u32 },
    SpecialLine { seq: u32, special: SpecialLineData },
    OrphanLine { seq: u32 },
}

} // verus!
