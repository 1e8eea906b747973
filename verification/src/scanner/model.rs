//! What the forward scan computes, stated over mathematical values.

use crate::scanner::last_def;
use crate::seqs;
use crate::types::{Insn, InsnClass, LineTarget, MemOp, Operand, ParsedLine, RegId};
use vstd::prelude::*;

verus! {

/// Tags on a line reference. Line numbers stay far below these bits.
///
/// A reference to a pair instruction says by which path it was reached:
/// - no tag: its first half
/// - [`PAIR_HALF2_BIT`]: its second half
/// - [`PAIR_SHARED_BIT`]: what both halves share (the written-back base)
pub const PAIR_HALF2_BIT: u32 = 0x8000_0000;

pub const PAIR_SHARED_BIT: u32 = 0x4000_0000;

/// Marks a control dependency.
pub const CONTROL_DEP_BIT: u32 = 0x2000_0000;

/// The line number of a reference.
pub const LINE_MASK: u32 = 0x1FFF_FFFF;

/// Last stores to memory bytes: address to (line, stored value).
pub type MemDefs = Map<u64, (u32, u64)>;

// ---------------------------------------------------------------------------
// Access width
// ---------------------------------------------------------------------------

/// Number of register operands among the first `n`.
pub open spec fn reg_operands(operands: Seq<Operand>, n: int) -> int
    decreases n,
{
    if n <= 0 {
        0
    } else {
        reg_operands(operands, n - 1) + if operands[n - 1].spec_as_reg() is Some {
            1int
        } else {
            0int
        }
    }
}

/// Position of the first operand that is the base register.
pub open spec fn base_position(operands: Seq<Operand>, base: RegId, n: int) -> int
    decreases n,
{
    if n <= 0 {
        0
    } else {
        let p = base_position(operands, base, n - 1);
        if p < n - 1 {
            p
        } else if operands[n - 1].spec_as_reg() == Some(base) {
            n - 1
        } else {
            n
        }
    }
}

/// Number of data registers: the register operands before the base, counted in
/// eight bits.
pub open spec fn data_regs(line: ParsedLine) -> int {
    match line.base_reg {
        None => 1,
        Some(base) => {
            reg_operands(
                line.operands@,
                base_position(line.operands@, base, line.operands@.len() as int),
            ) % 256
        },
    }
}

/// `x` capped at 255.
pub open spec fn cap(x: int) -> int {
    if x > 255 {
        255
    } else {
        x
    }
}

/// Bytes that an access covers: twice the element for pairs, one element per
/// data register for vector accesses, one element otherwise.
pub open spec fn access_width(class: InsnClass, elem_width: u8, line: ParsedLine) -> int {
    match class {
        InsnClass::LoadPair | InsnClass::StorePair => cap(elem_width * 2),
        InsnClass::SimdLoad | InsnClass::SimdStore => {
            let regs = data_regs(line);
            cap(elem_width * (if regs == 0 {
                1
            } else {
                regs
            }))
        },
        _ => elem_width as int,
    }
}

// ---------------------------------------------------------------------------
// Sources of a line
// ---------------------------------------------------------------------------

/// Lines of the last stores to the bytes `abs + from .. abs + to`, in address
/// order, bytes without a store left out.
pub open spec fn byte_defs(mem: MemDefs, abs: u64, from: int, to: int) -> Seq<u32>
    decreases to - from,
{
    if to <= from {
        Seq::empty()
    } else {
        let before = byte_defs(mem, abs, from, to - 1);
        let addr = (abs + to - 1) as u64;
        if mem.contains_key(addr) {
            before.push(mem[addr].0)
        } else {
            before
        }
    }
}

/// Every byte of the access has a store.
pub open spec fn all_stored(mem: MemDefs, abs: u64, width: int) -> bool {
    forall|o: int| 0 <= o < width ==> mem.contains_key(#[trigger] byte_at(abs, o))
}

/// Address of the byte at an offset.
pub open spec fn byte_at(abs: u64, offset: int) -> u64 {
    (abs + offset) as u64
}

/// All bytes of the access come from one store.
pub open spec fn one_store(mem: MemDefs, abs: u64, width: int) -> bool {
    &&& width > 0
    &&& all_stored(mem, abs, width)
    &&& forall|o: int| 0 <= o < width ==> mem[#[trigger] byte_at(abs, o)].0 == mem[abs].0
}

/// The load hands on what a single store wrote: its address does not matter.
pub open spec fn pass_through(mem: MemDefs, abs: u64, width: int, value: Option<u64>) -> bool {
    &&& one_store(mem, abs, width)
    &&& value == Some(mem[abs].1)
}

/// Last definitions of registers, undefined ones left out.
pub open spec fn reg_defs(slots: Seq<u32>, regs: Seq<RegId>) -> Seq<u32>
    decreases regs.len(),
{
    if regs.len() == 0 {
        Seq::empty()
    } else {
        let before = reg_defs(slots, regs.drop_last());
        match last_def::slot_def(slots, regs.last()) {
            Some(line) => before.push(line),
            None => before,
        }
    }
}

/// Last definition of a register that may be absent.
pub open spec fn opt_reg_def(slots: Seq<u32>, reg: Option<RegId>) -> Seq<u32> {
    match reg {
        Some(r) => match last_def::slot_def(slots, r) {
            Some(line) => seq![line],
            None => Seq::empty(),
        },
        None => Seq::empty(),
    }
}

/// The control dependency on the latest conditional branch.
pub open spec fn control_def(last_cond: Option<u32>, data_only: bool) -> Seq<u32> {
    match last_cond {
        Some(cb) if !data_only => seq![cb | CONTROL_DEP_BIT],
        _ => Seq::empty(),
    }
}

// ---------------------------------------------------------------------------
// Scan state
// ---------------------------------------------------------------------------

/// The dependencies of a pair instruction by half.
pub struct PairView {
    pub shared: Seq<u32>,
    pub half1: Seq<u32>,
    pub half2: Seq<u32>,
}

/// Scan options that bear on the result.
pub struct ScanOptions {
    pub data_only: bool,
    pub no_prune: bool,
    pub start_seq: u32,
    pub end_seq: Option<u32>,
    pub targets: Map<u32, Seq<LineTarget>>,
}

/// Everything the scan knows after some lines.
pub struct ScanModel {
    pub slots: Seq<u32>,
    pub mem: MemDefs,
    pub last_cond: Option<u32>,
    pub rows: Seq<Seq<u32>>,
    pub edges: int,
    pub parsed: int,
    pub mem_ops: int,
    pub resolved: Map<(u32, LineTarget), u32>,
    pub unknown: Map<Seq<char>, (u32, u32)>,
    pub init: Seq<bool>,
    pub pairs: Map<u32, PairView>,
}

/// Why a scan stops.
#[derive(Debug, Clone, Copy, PartialEq, Eq, Structural)]
pub enum ScanError {
    /// The line does not define the register and no earlier line does.
    NoRegDef { line: u32, reg: RegId },
    /// The line does not store to the address and no earlier line does.
    NoStore { line: u32, addr: u64 },
    /// A requested line lies beyond the trace.
    TargetOutOfRange { line: u32, line_count: u32, target: LineTarget },
    /// More dependency edges than row offsets can count.
    TooManyEdges { line: u32 },
}

pub open spec fn is_pair(class: InsnClass) -> bool {
    class == InsnClass::LoadPair || class == InsnClass::StorePair
}

/// The line loads from memory.
pub open spec fn loads(insn: Insn) -> bool {
    insn.line.mem_op is Some && !insn.line.mem_op->0.is_write
}

pub open spec fn stores(insn: Insn) -> bool {
    insn.line.mem_op is Some && insn.line.mem_op->0.is_write
}

pub open spec fn insn_width(insn: Insn) -> int {
    access_width(insn.class, insn.line.mem_op->0.elem_width, insn.line)
}

/// The line is a plain load that hands on the value of a single store.
pub open spec fn insn_pass_through(m: ScanModel, insn: Insn, opts: ScanOptions) -> bool {
    &&& !opts.no_prune
    &&& !is_pair(insn.class)
    &&& loads(insn)
    &&& pass_through(
        m.mem,
        insn.line.mem_op->0.abs,
        insn_width(insn),
        insn.line.mem_op->0.value,
    )
}

/// Lines of the stores that a plain load reads from.
pub open spec fn load_sources(m: ScanModel, insn: Insn) -> Seq<u32> {
    if loads(insn) {
        byte_defs(m.mem, insn.line.mem_op->0.abs, 0, insn_width(insn))
    } else {
        Seq::empty()
    }
}

/// The sources of a line in the order in which they are found.
pub open spec fn line_sources(m: ScanModel, insn: Insn, opts: ScanOptions) -> Seq<u32> {
    if is_pair(insn.class) {
        Seq::empty()
    } else {
        let regs = if insn_pass_through(m, insn, opts) {
            Seq::empty()
        } else {
            reg_defs(m.slots, insn.uses@)
        };
        let control = control_def(m.last_cond, opts.data_only);
        if opts.no_prune {
            regs + load_sources(m, insn) + control
        } else {
            load_sources(m, insn) + regs + control
        }
    }
}

/// The dependencies of a line. Those of a pair instruction are kept by half
/// instead, in [`pair_view`].
pub open spec fn line_row(m: ScanModel, insn: Insn, opts: ScanOptions) -> Seq<u32> {
    seqs::dedup(line_sources(m, insn, opts))
}

/// The line reads a byte that no earlier line has stored.
pub open spec fn reads_initial(m: ScanModel, insn: Insn) -> bool {
    loads(insn) && !all_stored(m.mem, insn.line.mem_op->0.abs, insn_width(insn))
}

pub open spec fn operand_reg(operands: Seq<Operand>, i: int) -> Option<RegId> {
    if 0 <= i < operands.len() {
        operands[i].spec_as_reg()
    } else {
        None
    }
}

/// The dependencies of a pair instruction by half.
pub open spec fn pair_view(m: ScanModel, insn: Insn, opts: ScanOptions) -> PairView {
    let mem = insn.line.mem_op->0;
    let ew = mem.elem_width as int;
    let shared = seqs::dedup(
        opt_reg_def(m.slots, insn.line.base_reg) + control_def(m.last_cond, opts.data_only),
    );
    if insn.class == InsnClass::LoadPair {
        PairView {
            shared,
            half1: seqs::dedup(byte_defs(m.mem, mem.abs, 0, ew)),
            half2: seqs::dedup(byte_defs(m.mem, mem.abs, ew, 2 * ew)),
        }
    } else {
        PairView {
            shared,
            half1: opt_reg_def(m.slots, operand_reg(insn.line.operands@, 0)),
            half2: opt_reg_def(m.slots, operand_reg(insn.line.operands@, 1)),
        }
    }
}

/// Slots after the registers were defined one after the other.
pub open spec fn define_regs(slots: Seq<u32>, regs: Seq<RegId>, line: u32) -> Seq<u32>
    decreases regs.len(),
{
    if regs.len() == 0 {
        slots
    } else {
        define_regs(slots, regs.drop_last(), line).update(regs.last().0 as int, line)
    }
}

/// The last register definition of a load pair is its written-back base.
pub open spec fn has_base_writeback(insn: Insn) -> bool {
    insn.line.writeback && insn.line.base_reg is Some
}

/// Registers that receive loaded data.
pub open spec fn data_defs(insn: Insn) -> Seq<RegId> {
    if has_base_writeback(insn) {
        insn.defs@.drop_last()
    } else {
        insn.defs@
    }
}

/// Slots after the line: the two halves of a load pair, and a base that a pair
/// writes back, are told apart by tags.
pub open spec fn slots_after(slots: Seq<u32>, insn: Insn, line: u32) -> Seq<u32> {
    if insn.class == InsnClass::LoadPair {
        let data = data_defs(insn);
        let mid = (data.len() / 2) as int;
        let first = define_regs(slots, data.take(mid), line);
        let both = define_regs(first, data.skip(mid), line | PAIR_HALF2_BIT);
        if has_base_writeback(insn) {
            both.update(insn.defs@.last().0 as int, line | PAIR_SHARED_BIT)
        } else {
            both
        }
    } else if insn.class == InsnClass::StorePair {
        define_regs(slots, insn.defs@, line | PAIR_SHARED_BIT)
    } else {
        define_regs(slots, insn.defs@, line)
    }
}

/// Bytes `abs + from .. abs + to` now hold `entry`.
pub open spec fn store_bytes(
    mem: MemDefs,
    abs: u64,
    from: int,
    to: int,
    entry: (u32, u64),
) -> MemDefs {
    Map::new(
        |a: u64| mem.contains_key(a) || abs + from <= a < abs + to,
        |a: u64|
            if abs + from <= a < abs + to {
                entry
            } else {
                mem[a]
            },
    )
}

pub open spec fn stored_value(mem: MemOp) -> u64 {
    match mem.value {
        Some(v) => v,
        None => 0,
    }
}

/// Memory after the line; the second half of a store pair is tagged and its
/// value is not kept.
pub open spec fn mem_after(mem: MemDefs, insn: Insn, line: u32) -> MemDefs {
    if stores(insn) {
        let op = insn.line.mem_op->0;
        let ew = op.elem_width as int;
        if insn.class == InsnClass::StorePair {
            store_bytes(
                store_bytes(mem, op.abs, 0, ew, (line, stored_value(op))),
                op.abs,
                ew,
                2 * ew,
                (line | PAIR_HALF2_BIT, 0),
            )
        } else {
            store_bytes(mem, op.abs, 0, insn_width(insn), (line, stored_value(op)))
        }
    } else {
        mem
    }
}

pub open spec fn note_unknown(
    unknown: Map<Seq<char>, (u32, u32)>,
    insn: Insn,
    line: u32,
) -> Map<Seq<char>, (u32, u32)> {
    if insn.class == InsnClass::Nop && !insn.known_nop {
        let name = insn.line.mnemonic@;
        if unknown.contains_key(name) {
            unknown.insert(name, (unknown[name].0, (unknown[name].1 + 1) as u32))
        } else {
            unknown.insert(name, (line, 1))
        }
    } else {
        unknown
    }
}

/// The line stores to the byte.
pub open spec fn stores_to(insn: Insn, addr: u64) -> bool {
    stores(insn) && insn.line.mem_op->0.abs <= addr < insn.line.mem_op->0.abs + insn_width(insn)
}

/// The line that a target stands for: this line if it defines the target, else
/// the last one before it that did.
pub open spec fn target_line(m: ScanModel, insn: Insn, line: u32, target: LineTarget) -> Option<
    u32,
> {
    match target {
        LineTarget::Reg(reg) => {
            if insn.defs@.contains(reg) {
                Some(line)
            } else {
                last_def::slot_def(m.slots, reg)
            }
        },
        LineTarget::Mem(addr) => {
            if stores_to(insn, addr) {
                Some(line)
            } else if m.mem.contains_key(addr) {
                Some(m.mem[addr].0)
            } else {
                None
            }
        },
    }
}

pub open spec fn target_error(line: u32, target: LineTarget) -> ScanError {
    match target {
        LineTarget::Reg(reg) => ScanError::NoRegDef { line, reg },
        LineTarget::Mem(addr) => ScanError::NoStore { line, addr },
    }
}

/// The targets of a line entered one after the other; the first one without a
/// definition stops it.
pub open spec fn resolve_targets(
    m: ScanModel,
    insn: Insn,
    line: u32,
    targets: Seq<LineTarget>,
) -> Result<Map<(u32, LineTarget), u32>, ScanError>
    decreases targets.len(),
{
    if targets.len() == 0 {
        Ok(m.resolved)
    } else {
        match resolve_targets(m, insn, line, targets.drop_last()) {
            Err(e) => Err(e),
            Ok(resolved) => match target_line(m, insn, line, targets.last()) {
                Some(at) => Ok(resolved.insert((line, targets.last()), at)),
                None => Err(target_error(line, targets.last())),
            },
        }
    }
}

pub open spec fn line_targets(opts: ScanOptions, line: u32) -> Seq<LineTarget> {
    if opts.targets.contains_key(line) {
        opts.targets[line]
    } else {
        Seq::empty()
    }
}

pub open spec fn in_range(opts: ScanOptions, line: u32) -> bool {
    opts.start_seq <= line && (opts.end_seq matches Some(end) ==> line <= end)
}

/// A line that is out of range or holds no instruction: an empty row.
pub open spec fn skip_line(m: ScanModel) -> ScanModel {
    ScanModel { rows: m.rows.push(Seq::empty()), ..m }
}

/// One line of the scan.
pub open spec fn scan_step(m: ScanModel, line: Option<Insn>, opts: ScanOptions) -> Result<
    ScanModel,
    ScanError,
> {
    let i = m.rows.len() as u32;
    if m.edges > u32::MAX {
        Err(ScanError::TooManyEdges { line: i })
    } else {
        match line {
            Some(insn) if in_range(opts, i) => {
                match resolve_targets(m, insn, i, line_targets(opts, i)) {
                    Err(e) => Err(e),
                    Ok(resolved) => {
                        let row = line_row(m, insn, opts);
                        Ok(
                            ScanModel {
                                slots: slots_after(m.slots, insn, i),
                                mem: mem_after(m.mem, insn, i),
                                last_cond: if insn.class == InsnClass::CondBranchNzcv || insn.class
                                    == InsnClass::CondBranchReg {
                                    Some(i)
                                } else {
                                    m.last_cond
                                },
                                rows: m.rows.push(row),
                                edges: m.edges + row.len(),
                                parsed: m.parsed + 1,
                                mem_ops: m.mem_ops + if insn.line.mem_op is Some {
                                    1int
                                } else {
                                    0int
                                },
                                resolved,
                                unknown: note_unknown(m.unknown, insn, i),
                                init: if reads_initial(m, insn) {
                                    m.init.update(i as int, true)
                                } else {
                                    m.init
                                },
                                pairs: if is_pair(insn.class) && insn.line.mem_op is Some {
                                    m.pairs.insert(i, pair_view(m, insn, opts))
                                } else {
                                    m.pairs
                                },
                            },
                        )
                    },
                }
            },
            _ => Ok(skip_line(m)),
        }
    }
}

/// The scan before any line, for a trace of `total` lines.
pub open spec fn scan_start(total: nat) -> ScanModel {
    ScanModel {
        slots: Seq::new(crate::types::REG_COUNT as nat, |i: int| last_def::NO_DEF),
        mem: Map::empty(),
        last_cond: None,
        rows: Seq::empty(),
        edges: 0,
        parsed: 0,
        mem_ops: 0,
        resolved: Map::empty(),
        unknown: Map::empty(),
        init: Seq::new(total, |i: int| false),
        pairs: Map::empty(),
    }
}

/// The scan after the first `n` lines.
pub open spec fn scan_lines(lines: Seq<Option<Insn>>, opts: ScanOptions, n: int) -> Result<
    ScanModel,
    ScanError,
>
    decreases n,
{
    if n <= 0 {
        Ok(scan_start(lines.len()))
    } else {
        match scan_lines(lines, opts, n - 1) {
            Err(e) => Err(e),
            Ok(m) => scan_step(m, lines[n - 1], opts),
        }
    }
}

// ---------------------------------------------------------------------------
// Inputs that the scan accepts
// ---------------------------------------------------------------------------

/// Registers exist and addresses do not run past the end of memory.
pub open spec fn insn_ok(insn: Insn) -> bool {
    &&& forall|i: int| #![trigger insn.defs@[i]] 0 <= i < insn.defs@.len() ==> insn.defs@[i].valid()
    &&& forall|i: int| #![trigger insn.uses@[i]] 0 <= i < insn.uses@.len() ==> insn.uses@[i].valid()
    &&& insn.line.base_reg matches Some(base) ==> base.valid()
    &&& forall|i: int|
        #![trigger insn.line.operands@[i]]
        0 <= i < insn.line.operands@.len() ==> (insn.line.operands@[i].spec_as_reg() matches Some(r)
            ==> r.valid())
    &&& insn.line.mem_op matches Some(op) ==> {
        &&& op.abs + insn_width(insn) <= u64::MAX + 1
        &&& is_pair(insn.class) ==> op.abs + 2 * op.elem_width <= u64::MAX + 1
    }
    &&& insn.class == InsnClass::LoadPair && has_base_writeback(insn) ==> insn.defs@.len() > 0
}

pub open spec fn target_ok(target: LineTarget) -> bool {
    target matches LineTarget::Reg(reg) ==> reg.valid()
}

pub open spec fn options_ok(opts: ScanOptions) -> bool {
    forall|line: u32, i: int|
        #![trigger opts.targets[line][i]]
        opts.targets.contains_key(line) && 0 <= i < opts.targets[line].len() ==> target_ok(
            opts.targets[line][i],
        )
}

} // verus!
