//! The parsed form of a trace line, as far as the analyses read it.

use vstd::prelude::*;

verus! {

/// Number of register slots tracked by the analyses.
pub const REG_COUNT: usize = 98;

/// A register slot, below [`REG_COUNT`].
#[derive(Debug, Clone, Copy, PartialEq, Eq, Hash, PartialOrd, Ord, Structural)]
pub struct RegId(pub u8);

impl RegId {
    /// The slot exists.
    pub open spec fn valid(self) -> bool {
        self.0 < REG_COUNT
    }
}

/// Text format of a trace file.
#[derive(Debug, Clone, Copy, PartialEq, Eq, Hash, Structural)]
pub enum TraceFormat {
    Unidbg,
    Gumtrace,
}

/// Instruction classes, as far as dependency tracking tells them apart.
#[derive(Debug, Clone, Copy, PartialEq, Eq, Hash, Structural)]
pub enum InsnClass {
    LoadReg,
    StoreReg,
    LoadPair,
    StorePair,
    SimdLoad,
    SimdStore,
    CondBranchNzcv,
    CondBranchReg,
    Nop,
    Other,
}

/// How the register values of a memory access are laid out in memory.
#[derive(Debug, Clone, Copy, PartialEq, Eq, Hash, Structural)]
pub enum MemLayout {
    Scalar,
    Pair,
    Atomic,
    ExclusiveScalar,
    ExclusivePair,
    SimdLane,
    SimdContiguous,
    SimdInterleaved,
}

/// A memory access with the values that the trace exposes for it.
#[derive(Debug, Clone, Copy, PartialEq, Eq)]
pub struct MemOp {
    pub is_write: bool,
    /// Absolute address of the first byte.
    pub abs: u64,
    /// Bytes per register value.
    pub elem_width: u8,
    pub value: Option<u64>,
    pub value_lo: Option<u64>,
    pub value_hi: Option<u64>,
    pub value2: Option<u64>,
    pub value2_lo: Option<u64>,
    pub value2_hi: Option<u64>,
    /// Number of register values that the access covers.
    pub value_count: u8,
    pub layout: MemLayout,
    /// Status register of an exclusive store; zero means that it happened.
    pub exclusive_status: Option<u64>,
    pub simd_values: [Option<u128>; 4],
    pub simd_reg_bytes: u8,
    pub simd_elem_bytes: u8,
    pub simd_lane: u8,
}

/// An instruction operand; only register operands are told apart.
#[derive(Debug, Clone, Copy, PartialEq, Eq, Structural)]
pub enum Operand {
    Reg(RegId),
    Other,
}

impl Operand {
    pub open spec fn spec_as_reg(self) -> Option<RegId> {
        match self {
            Operand::Reg(r) => Some(r),
            Operand::Other => None,
        }
    }

    pub fn as_reg(&self) -> (r: Option<RegId>)
        ensures
            r == self.spec_as_reg(),
    {
        match *self {
            Operand::Reg(r) => Some(r),
            Operand::Other => None,
        }
    }
}

/// A trace line that holds an instruction.
#[derive(Debug, Clone)]
pub struct ParsedLine {
    pub mnemonic: String,
    pub operands: Vec<Operand>,
    pub base_reg: Option<RegId>,
    pub writeback: bool,
    pub mem_op: Option<MemOp>,
}

/// A parsed line together with its class and its register effects.
#[derive(Debug, Clone)]
pub struct Insn {
    pub line: ParsedLine,
    pub class: InsnClass,
    /// The mnemonic is a genuine no-op (as opposed to an unknown one).
    pub known_nop: bool,
    /// Registers that the instruction writes.
    pub defs: Vec<RegId>,
    /// Registers that the instruction reads.
    pub uses: Vec<RegId>,
}

/// What a slice request at a line asks for.
#[derive(Debug, Clone, Copy, PartialEq, Eq, Hash, Structural)]
pub enum LineTarget {
    Reg(RegId),
    Mem(u64),
}

} // verus!
