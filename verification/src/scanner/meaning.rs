//! What a scan records, told by the instructions of the trace alone.

use crate::scanner::last_def::{slot_def, NO_DEF};
use crate::scanner::model;
use crate::scanner::model::{
    MemDefs, ScanModel, ScanOptions, CONTROL_DEP_BIT, LINE_MASK, PAIR_HALF2_BIT,
    PAIR_SHARED_BIT,
};
use crate::seqs;
use crate::types::{Insn, InsnClass, LineTarget, Operand, RegId, REG_COUNT};
use vstd::prelude::*;

verus! {

// ---------------------------------------------------------------------------
// What the lines say
// ---------------------------------------------------------------------------

/// The instruction of a line, if the line is one of those to be scanned.
pub open spec fn scanned(lines: Seq<Option<Insn>>, opts: ScanOptions, i: int) -> Option<Insn> {
    if opts.start_seq <= i && (opts.end_seq matches Some(end) ==> i <= end) {
        lines[i]
    } else {
        None
    }
}

/// Bytes from its address on that an access covers.
pub open spec fn reach(insn: Insn) -> int {
    let ew = insn.line.mem_op->0.elem_width;
    match insn.class {
        InsnClass::StorePair => 2 * ew,
        InsnClass::LoadPair => if 2 * ew > 255 {
            255
        } else {
            2 * ew
        },
        InsnClass::SimdLoad | InsnClass::SimdStore => model::access_width(
            insn.class,
            ew,
            insn.line,
        ),
        _ => ew as int,
    }
}

/// The instruction writes the byte.
pub open spec fn writes(insn: Insn, at: u64) -> bool {
    insn.line.mem_op matches Some(op) && op.is_write && op.abs <= at < op.abs + reach(insn)
}

/// The instruction reads the byte.
pub open spec fn reads(insn: Insn, at: u64) -> bool {
    insn.line.mem_op matches Some(op) && !op.is_write && op.abs <= at < op.abs + reach(insn)
}

/// The byte belongs to the second register of a store pair.
pub open spec fn second_half(insn: Insn, at: u64) -> bool {
    insn.class == InsnClass::StorePair && at >= insn.line.mem_op->0.abs
        + insn.line.mem_op->0.elem_width
}

/// The latest line before `n` that writes a byte, as it is referred to, and the
/// value of that write.
pub open spec fn store_at(
    lines: Seq<Option<Insn>>,
    opts: ScanOptions,
    n: int,
    at: u64,
) -> Option<(u32, u64)>
    decreases n,
{
    if n <= 0 {
        None
    } else {
        match scanned(lines, opts, n - 1) {
            Some(insn) if writes(insn, at) => {
                let line = (n - 1) as u32;
                if second_half(insn, at) {
                    Some((line | PAIR_HALF2_BIT, 0))
                } else {
                    match insn.line.mem_op->0.value {
                        Some(v) => Some((line, v)),
                        None => Some((line, 0)),
                    }
                }
            },
            _ => store_at(lines, opts, n - 1, at),
        }
    }
}

/// How a line that defines a register is referred to for it.
pub open spec fn def_ref(insn: Insn, line: u32, reg: RegId) -> u32 {
    let defs = insn.defs@;
    let base = insn.line.writeback && insn.line.base_reg is Some;
    let data = if base {
        defs.len() - 1
    } else {
        defs.len() as int
    };
    match insn.class {
        InsnClass::StorePair => line | PAIR_SHARED_BIT,
        InsnClass::LoadPair => if base && defs[data] == reg {
            line | PAIR_SHARED_BIT
        } else if exists|k: int| data / 2 <= k < data && #[trigger] defs[k] == reg {
            line | PAIR_HALF2_BIT
        } else {
            line
        },
        _ => line,
    }
}

/// The latest line before `n` that defines a register, as it is referred to.
pub open spec fn def_at(
    lines: Seq<Option<Insn>>,
    opts: ScanOptions,
    n: int,
    reg: RegId,
) -> Option<u32>
    decreases n,
{
    if n <= 0 {
        None
    } else {
        match scanned(lines, opts, n - 1) {
            Some(insn) if insn.defs@.contains(reg) => Some(def_ref(insn, (n - 1) as u32, reg)),
            _ => def_at(lines, opts, n - 1, reg),
        }
    }
}

pub open spec fn is_branch(insn: Insn) -> bool {
    insn.class == InsnClass::CondBranchNzcv || insn.class == InsnClass::CondBranchReg
}

/// The latest conditional branch before line `n`.
pub open spec fn branch_at(lines: Seq<Option<Insn>>, opts: ScanOptions, n: int) -> Option<u32>
    decreases n,
{
    if n <= 0 {
        None
    } else {
        match scanned(lines, opts, n - 1) {
            Some(insn) if is_branch(insn) => Some((n - 1) as u32),
            _ => branch_at(lines, opts, n - 1),
        }
    }
}

/// A trace whose line numbers leave the tag bits free.
pub open spec fn trace_ok(lines: Seq<Option<Insn>>) -> bool {
    &&& lines.len() <= LINE_MASK
    &&& forall|k: int|
        #![trigger lines[k]]
        0 <= k < lines.len() ==> (lines[k] matches Some(insn) ==> model::insn_ok(insn))
}

// ---------------------------------------------------------------------------
// What the scan remembers
// ---------------------------------------------------------------------------

proof fn lemma_tags(line: u32)
    requires
        line <= LINE_MASK,
    ensures
        line != NO_DEF,
        line | PAIR_HALF2_BIT != NO_DEF,
        line | PAIR_SHARED_BIT != NO_DEF,
        line & LINE_MASK == line,
        (line | PAIR_HALF2_BIT) & LINE_MASK == line,
        (line | PAIR_SHARED_BIT) & LINE_MASK == line,
        (line | CONTROL_DEP_BIT) & LINE_MASK == line,
{
    assert(line <= 0x1FFF_FFFFu32 ==> line | 0x8000_0000u32 != 0xFFFF_FFFFu32 && line
        | 0x4000_0000u32 != 0xFFFF_FFFFu32 && line & 0x1FFF_FFFFu32 == line && (line
        | 0x8000_0000u32) & 0x1FFF_FFFFu32 == line && (line | 0x4000_0000u32) & 0x1FFF_FFFFu32
        == line && (line | 0x2000_0000u32) & 0x1FFF_FFFFu32 == line) by (bit_vector);
}

proof fn lemma_define(slots: Seq<u32>, regs: Seq<RegId>, value: u32, reg: RegId)
    requires
        slots.len() == REG_COUNT,
        reg.valid(),
        forall|i: int| #![trigger regs[i]] 0 <= i < regs.len() ==> regs[i].valid(),
    ensures
        model::define_regs(slots, regs, value).len() == REG_COUNT,
        model::define_regs(slots, regs, value)[reg.0 as int] == (if regs.contains(reg) {
            value
        } else {
            slots[reg.0 as int]
        }),
    decreases regs.len(),
{
    if regs.len() > 0 {
        let rest = regs.drop_last();
        assert forall|i: int| #![trigger rest[i]] 0 <= i < rest.len() implies rest[i].valid() by {
            assert(regs[i].valid());
        }
        lemma_define(slots, rest, value, reg);
        assert(regs[regs.len() - 1].valid());
        if rest.contains(reg) {
            let k = choose|k: int| 0 <= k < rest.len() && rest[k] == reg;
            assert(regs[k] == reg);
        }
        if regs.contains(reg) && regs.last() != reg {
            let k = choose|k: int| 0 <= k < regs.len() && regs[k] == reg;
            assert(rest[k] == reg);
        }
    }
}

proof fn lemma_slots_after(slots: Seq<u32>, insn: Insn, line: u32, reg: RegId)
    requires
        slots.len() == REG_COUNT,
        reg.valid(),
        model::insn_ok(insn),
    ensures
        model::slots_after(slots, insn, line).len() == REG_COUNT,
        model::slots_after(slots, insn, line)[reg.0 as int] == (if insn.defs@.contains(reg) {
            def_ref(insn, line, reg)
        } else {
            slots[reg.0 as int]
        }),
{
    let defs = insn.defs@;
    if insn.class == InsnClass::LoadPair {
        let data = model::data_defs(insn);
        let n = data.len() as int;
        let mid = n / 2;
        let head = data.take(mid);
        let tail = data.skip(mid);
        assert forall|k: int| #![trigger data[k]] 0 <= k < n implies data[k].valid() by {
            assert(defs[k].valid());
        }
        lemma_define(slots, head, line, reg);
        let first = model::define_regs(slots, head, line);
        lemma_define(first, tail, line | PAIR_HALF2_BIT, reg);
        if tail.contains(reg) {
            let k = choose|k: int| 0 <= k < tail.len() && tail[k] == reg;
            assert(defs[mid + k] == reg);
        }
        if head.contains(reg) {
            let k = choose|k: int| 0 <= k < head.len() && head[k] == reg;
            assert(defs[k] == reg);
        }
        if model::has_base_writeback(insn) {
            assert(defs[defs.len() - 1].valid());
            if defs.last() == reg {
                assert(defs[defs.len() - 1] == reg);
            }
        }
        if defs.contains(reg) {
            let k = choose|k: int| 0 <= k < defs.len() && defs[k] == reg;
            if k < mid {
                assert(head[k] == reg);
            } else if k < n {
                assert(tail[k - mid] == reg);
            }
        }
        if exists|k: int| mid <= k < n && #[trigger] defs[k] == reg {
            let k = choose|k: int| mid <= k < n && #[trigger] defs[k] == reg;
            assert(tail[k - mid] == reg);
        }
    } else if insn.class == InsnClass::StorePair {
        lemma_define(slots, defs, line | PAIR_SHARED_BIT, reg);
    } else {
        lemma_define(slots, defs, line, reg);
    }
}

proof fn lemma_mem_after(mem: MemDefs, insn: Insn, line: u32, at: u64)
    requires
        model::insn_ok(insn),
    ensures
        ({
            let after = model::mem_after(mem, insn, line);
            if writes(insn, at) {
                after.contains_key(at) && after[at] == (if second_half(insn, at) {
                    (line | PAIR_HALF2_BIT, 0u64)
                } else {
                    match insn.line.mem_op->0.value {
                        Some(v) => (line, v),
                        None => (line, 0u64),
                    }
                })
            } else {
                after.contains_key(at) == mem.contains_key(at) && (mem.contains_key(at)
                    ==> after[at] == mem[at])
            }
        }),
{
}

proof fn lemma_remembers(
    lines: Seq<Option<Insn>>,
    opts: ScanOptions,
    n: int,
    at: u64,
    reg: RegId,
)
    requires
        trace_ok(lines),
        0 <= n <= lines.len(),
        model::scan_lines(lines, opts, n) is Ok,
        reg.valid(),
    ensures
        ({
            let m = model::scan_lines(lines, opts, n)->Ok_0;
            &&& m.rows.len() == n
            &&& m.slots.len() == REG_COUNT
            &&& slot_def(m.slots, reg) == def_at(lines, opts, n, reg)
            &&& store_at(lines, opts, n, at) == (if m.mem.contains_key(at) {
                Some(m.mem[at])
            } else {
                None
            })
            &&& m.last_cond == branch_at(lines, opts, n)
        }),
    decreases n,
{
    if n > 0 {
        lemma_remembers(lines, opts, n - 1, at, reg);
        let m = model::scan_lines(lines, opts, n - 1)->Ok_0;
        let line = (n - 1) as u32;
        lemma_tags(line);
        assert(lines[n - 1] matches Some(insn) ==> model::insn_ok(insn));
        if let Some(insn) = scanned(lines, opts, n - 1) {
            lemma_slots_after(m.slots, insn, line, reg);
            lemma_mem_after(m.mem, insn, line, at);
        }
    }
}

/// After each line the scan knows the latest write of every byte, the latest
/// definition of every register, and the latest conditional branch.
pub proof fn law_scan_remembers_the_latest(
    lines: Seq<Option<Insn>>,
    opts: ScanOptions,
    n: int,
    at: u64,
    reg: RegId,
)
    requires
        trace_ok(lines),
        0 <= n <= lines.len(),
        model::scan_lines(lines, opts, n) is Ok,
        reg.valid(),
    ensures
        ({
            let m = model::scan_lines(lines, opts, n)->Ok_0;
            &&& slot_def(m.slots, reg) == def_at(lines, opts, n, reg)
            &&& m.mem.contains_key(at) <==> store_at(lines, opts, n, at) is Some
            &&& m.mem.contains_key(at) ==> Some(m.mem[at]) == store_at(lines, opts, n, at)
            &&& m.last_cond == branch_at(lines, opts, n)
        }),
{
    lemma_remembers(lines, opts, n, at, reg);
}

/// No line from `i` to before `n` writes the byte.
pub open spec fn unwritten(
    lines: Seq<Option<Insn>>,
    opts: ScanOptions,
    i: int,
    n: int,
    at: u64,
) -> bool {
    forall|j: int|
        i <= j < n ==> !(#[trigger] scanned(lines, opts, j) matches Some(insn) && writes(insn, at))
}

proof fn lemma_unwritten(lines: Seq<Option<Insn>>, opts: ScanOptions, i: int, n: int, at: u64)
    requires
        0 <= i <= n,
        unwritten(lines, opts, i, n, at),
    ensures
        store_at(lines, opts, n, at) == store_at(lines, opts, i, at),
    decreases n,
{
    if i < n {
        assert(!(scanned(lines, opts, n - 1) matches Some(insn) && writes(insn, at)));
        lemma_unwritten(lines, opts, i, n - 1, at);
    }
}

/// Every byte of a store has that line as its latest store until another line
/// writes it, and a byte that no line wrote has none.
pub proof fn law_a_store_covers_its_bytes(
    lines: Seq<Option<Insn>>,
    opts: ScanOptions,
    i: int,
    n: int,
    at: u64,
)
    requires
        trace_ok(lines),
        0 <= i < n <= lines.len(),
        unwritten(lines, opts, i + 1, n, at),
        model::scan_lines(lines, opts, n) is Ok,
    ensures
        ({
            let mem = model::scan_lines(lines, opts, n)->Ok_0.mem;
            &&& (scanned(lines, opts, i) matches Some(insn) && writes(insn, at))
                ==> mem.contains_key(at) && mem[at].0 & LINE_MASK == i
            &&& unwritten(lines, opts, 0, n, at) ==> !mem.contains_key(at)
        }),
{
    lemma_remembers(lines, opts, n, at, RegId(0));
    lemma_unwritten(lines, opts, i + 1, n, at);
    lemma_tags(i as u32);
    if unwritten(lines, opts, 0, n, at) {
        lemma_unwritten(lines, opts, 0, n, at);
    }
}

// ---------------------------------------------------------------------------
// Rows
// ---------------------------------------------------------------------------

/// A load that hands on the value of one store, byte for byte: its address does
/// not matter.
pub open spec fn hands_on(
    lines: Seq<Option<Insn>>,
    opts: ScanOptions,
    i: int,
    insn: Insn,
) -> bool {
    &&& !opts.no_prune
    &&& insn.line.mem_op matches Some(op) && !op.is_write && reach(insn) > 0 && {
        &&& store_at(lines, opts, i, op.abs) matches Some(e) && op.value == Some(e.1)
        &&& forall|at: u64| #[trigger]
            reads(insn, at) ==> (store_at(lines, opts, i, at) matches Some(e) && e.0 == (store_at(
                lines,
                opts,
                i,
                op.abs,
            )->0).0)
    }
}

/// Why a line depends on another.
pub open spec fn reason(
    lines: Seq<Option<Insn>>,
    opts: ScanOptions,
    i: int,
    insn: Insn,
    dep: u32,
) -> bool {
    ||| exists|at: u64| #[trigger]
        reads(insn, at) && (store_at(lines, opts, i, at) matches Some(e) && e.0 == dep)
    ||| !hands_on(lines, opts, i, insn) && exists|k: int|
        0 <= k < insn.uses@.len() && def_at(lines, opts, i, #[trigger] insn.uses@[k]) == Some(dep)
    ||| !opts.data_only && (branch_at(lines, opts, i) matches Some(b) && dep == b | CONTROL_DEP_BIT)
}

pub proof fn lemma_byte_defs(mem: MemDefs, abs: u64, from: int, to: int, dep: u32)
    requires
        0 <= from,
        abs + to <= u64::MAX + 1,
    ensures
        model::byte_defs(mem, abs, from, to).contains(dep) <==> exists|at: u64|
            abs + from <= at < abs + to && #[trigger] mem.contains_key(at) && mem[at].0 == dep,
    decreases to - from,
{
    if from < to {
        lemma_byte_defs(mem, abs, from, to - 1, dep);
        let before = model::byte_defs(mem, abs, from, to - 1);
        let all = model::byte_defs(mem, abs, from, to);
        let last = (abs + to - 1) as u64;
        if before.contains(dep) {
            let w = choose|w: int| 0 <= w < before.len() && before[w] == dep;
            assert(all[w] == dep);
        }
        if mem.contains_key(last) && mem[last].0 == dep {
            assert(all[all.len() - 1] == dep);
        }
        if all.contains(dep) && !before.contains(dep) {
            let w = choose|w: int| 0 <= w < all.len() && all[w] == dep;
            if w < before.len() {
                assert(before[w] == dep);
            }
            assert(mem.contains_key(last) && mem[last].0 == dep);
        }
        if exists|at: u64|
            abs + from <= at < abs + to && #[trigger] mem.contains_key(at) && mem[at].0 == dep {
            let at = choose|at: u64|
                abs + from <= at < abs + to && #[trigger] mem.contains_key(at) && mem[at].0 == dep;
            if at != last {
                assert(at < abs + to - 1);
            }
        }
    }
}

pub proof fn lemma_reg_defs(slots: Seq<u32>, regs: Seq<RegId>, dep: u32)
    ensures
        model::reg_defs(slots, regs).contains(dep) <==> exists|k: int|
            0 <= k < regs.len() && slot_def(slots, #[trigger] regs[k]) == Some(dep),
    decreases regs.len(),
{
    if regs.len() > 0 {
        let rest = regs.drop_last();
        lemma_reg_defs(slots, rest, dep);
        let before = model::reg_defs(slots, rest);
        let all = model::reg_defs(slots, regs);
        let n = regs.len() - 1;
        if before.contains(dep) {
            let w = choose|w: int| 0 <= w < before.len() && before[w] == dep;
            assert(all[w] == dep);
            let k = choose|k: int|
                0 <= k < rest.len() && slot_def(slots, #[trigger] rest[k]) == Some(dep);
            assert(slot_def(slots, regs[k]) == Some(dep));
        }
        if slot_def(slots, regs[n]) == Some(dep) {
            assert(all[all.len() - 1] == dep);
        }
        if all.contains(dep) && !before.contains(dep) {
            let w = choose|w: int| 0 <= w < all.len() && all[w] == dep;
            if w < before.len() {
                assert(before[w] == dep);
            }
            assert(slot_def(slots, regs[n]) == Some(dep));
        }
        if exists|k: int| 0 <= k < regs.len() && slot_def(slots, #[trigger] regs[k]) == Some(dep) {
            let k = choose|k: int|
                0 <= k < regs.len() && slot_def(slots, #[trigger] regs[k]) == Some(dep);
            if k < n {
                assert(rest[k] == regs[k]);
            }
        }
    }
}

pub proof fn lemma_concat_contains(a: Seq<u32>, b: Seq<u32>, dep: u32)
    ensures
        (a + b).contains(dep) == (a.contains(dep) || b.contains(dep)),
{
    let all = a + b;
    if a.contains(dep) {
        let w = choose|w: int| 0 <= w < a.len() && a[w] == dep;
        assert(all[w] == dep);
    }
    if b.contains(dep) {
        let w = choose|w: int| 0 <= w < b.len() && b[w] == dep;
        assert(all[a.len() + w] == dep);
    }
    if all.contains(dep) && !a.contains(dep) {
        let w = choose|w: int| 0 <= w < all.len() && all[w] == dep;
        if w < a.len() {
            assert(a[w] == dep);
        }
        assert(b[w - a.len()] == dep);
    }
}

proof fn lemma_mem_known(lines: Seq<Option<Insn>>, opts: ScanOptions, n: int)
    requires
        trace_ok(lines),
        0 <= n <= lines.len(),
        model::scan_lines(lines, opts, n) is Ok,
    ensures
        ({
            let m = model::scan_lines(lines, opts, n)->Ok_0;
            forall|at: u64| #[trigger]
                store_at(lines, opts, n, at) == (if m.mem.contains_key(at) {
                    Some(m.mem[at])
                } else {
                    None
                })
        }),
{
    let m = model::scan_lines(lines, opts, n)->Ok_0;
    assert forall|at: u64| #[trigger]
        store_at(lines, opts, n, at) == (if m.mem.contains_key(at) {
            Some(m.mem[at])
        } else {
            None
        }) by {
        lemma_remembers(lines, opts, n, at, RegId(0));
    }
}

proof fn lemma_hands_on(lines: Seq<Option<Insn>>, opts: ScanOptions, i: int, insn: Insn)
    requires
        trace_ok(lines),
        0 <= i < lines.len(),
        model::scan_lines(lines, opts, i) is Ok,
        model::insn_ok(insn),
        !model::is_pair(insn.class),
    ensures
        hands_on(lines, opts, i, insn) == model::insn_pass_through(
            model::scan_lines(lines, opts, i)->Ok_0,
            insn,
            opts,
        ),
{
    let m = model::scan_lines(lines, opts, i)->Ok_0;
    lemma_mem_known(lines, opts, i);
    if model::loads(insn) {
        let abs = insn.line.mem_op->0.abs;
        let width = model::insn_width(insn);
        assert(reach(insn) == width);
        assert(store_at(lines, opts, i, abs) == (if m.mem.contains_key(abs) {
            Some(m.mem[abs])
        } else {
            None
        }));
        if model::insn_pass_through(m, insn, opts) {
            assert(model::byte_at(abs, 0) == abs);
            assert forall|at: u64| #[trigger] reads(insn, at) implies (store_at(
                lines,
                opts,
                i,
                at,
            ) matches Some(e) && e.0 == (store_at(lines, opts, i, abs)->0).0) by {
                assert(model::byte_at(abs, at - abs) == at);
            }
        }
        if hands_on(lines, opts, i, insn) {
            assert forall|o: int| 0 <= o < width implies m.mem.contains_key(
                #[trigger] model::byte_at(abs, o),
            ) && m.mem[model::byte_at(abs, o)].0 == m.mem[abs].0 by {
                assert(reads(insn, model::byte_at(abs, o)));
            }
        }
    }
}

proof fn lemma_line_row(lines: Seq<Option<Insn>>, opts: ScanOptions, i: int, insn: Insn, dep: u32)
    requires
        trace_ok(lines),
        0 <= i < lines.len(),
        model::scan_lines(lines, opts, i) is Ok,
        model::insn_ok(insn),
        !model::is_pair(insn.class),
    ensures
        model::line_row(model::scan_lines(lines, opts, i)->Ok_0, insn, opts).contains(dep)
            <==> reason(lines, opts, i, insn, dep),
{
    let m = model::scan_lines(lines, opts, i)->Ok_0;
    lemma_mem_known(lines, opts, i);
    lemma_hands_on(lines, opts, i, insn);
    lemma_remembers(lines, opts, i, 0, RegId(0));
    let loads = model::load_sources(m, insn);
    let regs = if model::insn_pass_through(m, insn, opts) {
        Seq::empty()
    } else {
        model::reg_defs(m.slots, insn.uses@)
    };
    let control = model::control_def(m.last_cond, opts.data_only);
    seqs::lemma_dedup_contains(model::line_sources(m, insn, opts), dep);
    lemma_concat_contains(loads, regs, dep);
    lemma_concat_contains(loads + regs, control, dep);
    lemma_concat_contains(regs, loads, dep);
    lemma_concat_contains(regs + loads, control, dep);
    if let Some(b) = branch_at(lines, opts, i) {
        if !opts.data_only {
            assert(control[0] == b | CONTROL_DEP_BIT);
        }
    }
    // stores
    let from_stores = exists|at: u64| #[trigger]
        reads(insn, at) && (store_at(lines, opts, i, at) matches Some(e) && e.0 == dep);
    if model::loads(insn) {
        let abs = insn.line.mem_op->0.abs;
        lemma_byte_defs(m.mem, abs, 0, model::insn_width(insn), dep);
        if loads.contains(dep) {
            let at = choose|at: u64|
                abs + 0 <= at < abs + model::insn_width(insn) && #[trigger] m.mem.contains_key(at)
                    && m.mem[at].0 == dep;
            assert(reads(insn, at));
            assert(store_at(lines, opts, i, at) == Some(m.mem[at]));
        }
        if from_stores {
            let at = choose|at: u64| #[trigger]
                reads(insn, at) && (store_at(lines, opts, i, at) matches Some(e) && e.0 == dep);
            assert(m.mem.contains_key(at));
        }
    }
    assert(loads.contains(dep) == from_stores);
    // registers
    lemma_reg_defs(m.slots, insn.uses@, dep);
    assert forall|k: int| 0 <= k < insn.uses@.len() implies slot_def(
        m.slots,
        #[trigger] insn.uses@[k],
    ) == def_at(lines, opts, i, insn.uses@[k]) by {
        lemma_remembers(lines, opts, i, 0, insn.uses@[k]);
    }
}

proof fn lemma_row_at(lines: Seq<Option<Insn>>, opts: ScanOptions, i: int, n: int)
    requires
        0 <= i < n <= lines.len() <= u32::MAX,
        model::scan_lines(lines, opts, n) is Ok,
    ensures
        model::scan_lines(lines, opts, i) is Ok,
        model::scan_lines(lines, opts, n)->Ok_0.rows.len() == n,
        model::scan_lines(lines, opts, n)->Ok_0.rows[i] == (match scanned(lines, opts, i) {
            Some(insn) => model::line_row(model::scan_lines(lines, opts, i)->Ok_0, insn, opts),
            None => Seq::empty(),
        }),
    decreases n,
{
    if i < n - 1 {
        lemma_row_at(lines, opts, i, n - 1);
    } else if n > 1 {
        lemma_row_at(lines, opts, 0, n - 1);
    }
}

/// A row lists exactly what its line depends on: the latest write of each byte
/// that it reads, the latest definition of each register that it uses, unless
/// it hands on the value of one store, and the latest conditional branch.
pub proof fn law_a_row_lists_the_sources(
    lines: Seq<Option<Insn>>,
    opts: ScanOptions,
    i: int,
    dep: u32,
)
    requires
        trace_ok(lines),
        0 <= i < lines.len(),
        model::scan_lines(lines, opts, lines.len() as int) is Ok,
    ensures
        ({
            let row = model::scan_lines(lines, opts, lines.len() as int)->Ok_0.rows[i];
            match scanned(lines, opts, i) {
                Some(insn) if insn.class != InsnClass::LoadPair && insn.class
                    != InsnClass::StorePair => row.contains(dep) <==> reason(
                    lines,
                    opts,
                    i,
                    insn,
                    dep,
                ),
                _ => row.len() == 0,
            }
        }),
{
    lemma_row_at(lines, opts, i, lines.len() as int);
    assert(lines[i] matches Some(insn) ==> model::insn_ok(insn));
    if let Some(insn) = scanned(lines, opts, i) {
        if model::is_pair(insn.class) {
        } else {
            lemma_line_row(lines, opts, i, insn, dep);
        }
    }
}

/// A load lists the store that it reads from: the line that wrote a byte of it,
/// where no line in between wrote that byte.
pub proof fn law_a_load_lists_the_store(
    lines: Seq<Option<Insn>>,
    opts: ScanOptions,
    i: int,
    j: int,
    at: u64,
)
    requires
        trace_ok(lines),
        0 <= i < j < lines.len(),
        scanned(lines, opts, i) matches Some(insn) && writes(insn, at),
        unwritten(lines, opts, i + 1, j, at),
        scanned(lines, opts, j) matches Some(insn) && reads(insn, at) && insn.class
            != InsnClass::LoadPair && insn.class != InsnClass::StorePair,
        model::scan_lines(lines, opts, lines.len() as int) is Ok,
    ensures
        exists|k: int|
            #![trigger model::scan_lines(lines, opts, lines.len() as int)->Ok_0.rows[j][k]]
            0 <= k < model::scan_lines(lines, opts, lines.len() as int)->Ok_0.rows[j].len()
                && model::scan_lines(lines, opts, lines.len() as int)->Ok_0.rows[j][k] & LINE_MASK
                == i,
{
    let row = model::scan_lines(lines, opts, lines.len() as int)->Ok_0.rows[j];
    let insn = scanned(lines, opts, j)->0;
    lemma_unwritten(lines, opts, i + 1, j, at);
    let dep = (store_at(lines, opts, j, at)->0).0;
    lemma_tags(i as u32);
    assert(reads(insn, at));
    assert(reason(lines, opts, j, insn, dep));
    law_a_row_lists_the_sources(lines, opts, j, dep);
    let k = choose|k: int| 0 <= k < row.len() && row[k] == dep;
    assert(row[k] & LINE_MASK == i);
}

// ---------------------------------------------------------------------------
// Pairs and initial memory
// ---------------------------------------------------------------------------

/// A byte of the range was last written by the line referred to.
pub open spec fn written_by(
    lines: Seq<Option<Insn>>,
    opts: ScanOptions,
    i: int,
    from: int,
    to: int,
    dep: u32,
) -> bool {
    exists|at: u64|
        from <= at < to && (#[trigger] store_at(lines, opts, i, at) matches Some(e) && e.0 == dep)
}

/// The register, if there is one, was last defined by the line referred to.
pub open spec fn defined_by(
    lines: Seq<Option<Insn>>,
    opts: ScanOptions,
    i: int,
    reg: Option<RegId>,
    dep: u32,
) -> bool {
    reg matches Some(r) && def_at(lines, opts, i, r) == Some(dep)
}

/// The register that an operand names, if it does.
pub open spec fn operand(insn: Insn, k: int) -> Option<RegId> {
    if k < insn.line.operands@.len() {
        insn.line.operands@[k].spec_as_reg()
    } else {
        None
    }
}

proof fn lemma_written_by(
    lines: Seq<Option<Insn>>,
    opts: ScanOptions,
    i: int,
    abs: u64,
    from: int,
    to: int,
    dep: u32,
)
    requires
        trace_ok(lines),
        0 <= i < lines.len(),
        model::scan_lines(lines, opts, i) is Ok,
        0 <= from,
        abs + to <= u64::MAX + 1,
    ensures
        seqs::dedup(
            model::byte_defs(model::scan_lines(lines, opts, i)->Ok_0.mem, abs, from, to),
        ).contains(dep) == written_by(lines, opts, i, abs + from, abs + to, dep),
{
    let m = model::scan_lines(lines, opts, i)->Ok_0;
    lemma_mem_known(lines, opts, i);
    let list = model::byte_defs(m.mem, abs, from, to);
    seqs::lemma_dedup_contains(list, dep);
    lemma_byte_defs(m.mem, abs, from, to, dep);
    if list.contains(dep) {
        let at = choose|at: u64|
            abs + from <= at < abs + to && #[trigger] m.mem.contains_key(at) && m.mem[at].0 == dep;
        assert(store_at(lines, opts, i, at) == Some(m.mem[at]));
    }
    if written_by(lines, opts, i, abs + from, abs + to, dep) {
        let at = choose|at: u64|
            abs + from <= at < abs + to && (#[trigger] store_at(lines, opts, i, at) matches Some(e)
                && e.0 == dep);
        assert(m.mem.contains_key(at));
    }
}

proof fn lemma_defined_by(
    lines: Seq<Option<Insn>>,
    opts: ScanOptions,
    i: int,
    reg: Option<RegId>,
    dep: u32,
)
    requires
        trace_ok(lines),
        0 <= i < lines.len(),
        model::scan_lines(lines, opts, i) is Ok,
        reg matches Some(r) ==> r.valid(),
    ensures
        model::opt_reg_def(model::scan_lines(lines, opts, i)->Ok_0.slots, reg).contains(dep)
            == defined_by(lines, opts, i, reg, dep),
{
    let m = model::scan_lines(lines, opts, i)->Ok_0;
    if let Some(r) = reg {
        lemma_remembers(lines, opts, i, 0, r);
        let list = model::opt_reg_def(m.slots, reg);
        if def_at(lines, opts, i, r) == Some(dep) {
            assert(list[0] == dep);
        }
    }
}

/// What the scan has noted of line `i` by line `n`.
spec fn noted(lines: Seq<Option<Insn>>, opts: ScanOptions, i: int, n: int) -> bool {
    let before = model::scan_lines(lines, opts, i)->Ok_0;
    let m = model::scan_lines(lines, opts, n)->Ok_0;
    &&& m.init.len() == lines.len()
    &&& match scanned(lines, opts, i) {
        Some(insn) => {
            &&& m.init[i] == model::reads_initial(before, insn)
            &&& m.pairs.contains_key(i as u32) == (model::is_pair(insn.class)
                && insn.line.mem_op is Some)
            &&& m.pairs.contains_key(i as u32) ==> m.pairs[i as u32] == model::pair_view(
                before,
                insn,
                opts,
            )
        },
        None => !m.init[i] && !m.pairs.contains_key(i as u32),
    }
}

proof fn lemma_untouched(lines: Seq<Option<Insn>>, opts: ScanOptions, i: int, n: int)
    requires
        0 <= n <= i < lines.len() <= u32::MAX,
        model::scan_lines(lines, opts, n) is Ok,
    ensures
        ({
            let m = model::scan_lines(lines, opts, n)->Ok_0;
            m.rows.len() == n && m.init.len() == lines.len() && !m.init[i]
                && !m.pairs.contains_key(i as u32)
        }),
    decreases n,
{
    if n > 0 {
        lemma_untouched(lines, opts, i, n - 1);
    }
}

proof fn lemma_noted(lines: Seq<Option<Insn>>, opts: ScanOptions, i: int, n: int)
    requires
        0 <= i < n <= lines.len() <= u32::MAX,
        model::scan_lines(lines, opts, n) is Ok,
    ensures
        model::scan_lines(lines, opts, i) is Ok,
        model::scan_lines(lines, opts, n)->Ok_0.rows.len() == n,
        noted(lines, opts, i, n),
    decreases n,
{
    if i < n - 1 {
        lemma_noted(lines, opts, i, n - 1);
    } else {
        lemma_untouched(lines, opts, i, i);
    }
}

/// The dependencies of a pair are told apart by half: of a load pair by the
/// bytes of each half, of a store pair by its two registers; what both halves
/// share are the base and the latest conditional branch.
pub proof fn law_a_pair_lists_the_sources_by_half(
    lines: Seq<Option<Insn>>,
    opts: ScanOptions,
    i: int,
    dep: u32,
)
    requires
        trace_ok(lines),
        0 <= i < lines.len(),
        model::scan_lines(lines, opts, lines.len() as int) is Ok,
    ensures
        ({
            let pairs = model::scan_lines(lines, opts, lines.len() as int)->Ok_0.pairs;
            match scanned(lines, opts, i) {
                Some(insn) if (insn.class == InsnClass::LoadPair || insn.class
                    == InsnClass::StorePair) && insn.line.mem_op is Some => {
                    let op = insn.line.mem_op->0;
                    let mid = op.abs + op.elem_width;
                    let p = pairs[i as u32];
                    &&& pairs.contains_key(i as u32)
                    &&& p.shared.contains(dep) <==> defined_by(
                        lines,
                        opts,
                        i,
                        insn.line.base_reg,
                        dep,
                    ) || !opts.data_only && (branch_at(lines, opts, i) matches Some(b) && dep == b
                        | CONTROL_DEP_BIT)
                    &&& insn.class == InsnClass::LoadPair ==> {
                        &&& p.half1.contains(dep) <==> written_by(
                            lines,
                            opts,
                            i,
                            op.abs as int,
                            mid,
                            dep,
                        )
                        &&& p.half2.contains(dep) <==> written_by(
                            lines,
                            opts,
                            i,
                            mid,
                            mid + op.elem_width,
                            dep,
                        )
                    }
                    &&& insn.class == InsnClass::StorePair ==> {
                        &&& p.half1.contains(dep) <==> defined_by(
                            lines,
                            opts,
                            i,
                            operand(insn, 0),
                            dep,
                        )
                        &&& p.half2.contains(dep) <==> defined_by(
                            lines,
                            opts,
                            i,
                            operand(insn, 1),
                            dep,
                        )
                    }
                },
                _ => !pairs.contains_key(i as u32),
            }
        }),
{
    lemma_noted(lines, opts, i, lines.len() as int);
    assert(lines[i] matches Some(insn) ==> model::insn_ok(insn));
    if let Some(insn) = scanned(lines, opts, i) {
        if model::is_pair(insn.class) && insn.line.mem_op is Some {
            let op = insn.line.mem_op->0;
            let ew = op.elem_width as int;
            let m = model::scan_lines(lines, opts, i)->Ok_0;
            lemma_remembers(lines, opts, i, 0, RegId(0));
            let base = model::opt_reg_def(m.slots, insn.line.base_reg);
            let control = model::control_def(m.last_cond, opts.data_only);
            lemma_defined_by(lines, opts, i, insn.line.base_reg, dep);
            seqs::lemma_dedup_contains(base + control, dep);
            lemma_concat_contains(base, control, dep);
            if let Some(b) = branch_at(lines, opts, i) {
                if !opts.data_only {
                    assert(control[0] == b | CONTROL_DEP_BIT);
                }
            }
            lemma_written_by(lines, opts, i, op.abs, 0, ew, dep);
            lemma_written_by(lines, opts, i, op.abs, ew, 2 * ew, dep);
            lemma_defined_by(lines, opts, i, operand(insn, 0), dep);
            lemma_defined_by(lines, opts, i, operand(insn, 1), dep);
        }
    }
}

/// A line is marked exactly if it reads a byte that no line before it wrote.
pub proof fn law_marked_lines_read_initial_memory(
    lines: Seq<Option<Insn>>,
    opts: ScanOptions,
    i: int,
)
    requires
        trace_ok(lines),
        0 <= i < lines.len(),
        !(lines[i] matches Some(insn) && insn.class == InsnClass::StorePair
            && insn.line.mem_op->0.elem_width > 127),
        model::scan_lines(lines, opts, lines.len() as int) is Ok,
    ensures
        model::scan_lines(lines, opts, lines.len() as int)->Ok_0.init[i] <==> (scanned(
            lines,
            opts,
            i,
        ) matches Some(insn) && exists|at: u64| #[trigger]
            reads(insn, at) && unwritten(lines, opts, 0, i, at)),
{
    lemma_noted(lines, opts, i, lines.len() as int);
    if let Some(insn) = scanned(lines, opts, i) {
        let m = model::scan_lines(lines, opts, i)->Ok_0;
        lemma_mem_known(lines, opts, i);
        assert(model::insn_ok(insn));
        if model::reads_initial(m, insn) {
            let abs = insn.line.mem_op->0.abs;
            let o = choose|o: int|
                0 <= o < model::insn_width(insn) && !m.mem.contains_key(
                    #[trigger] model::byte_at(abs, o),
                );
            let at = model::byte_at(abs, o);
            assert(reads(insn, at));
            assert(store_at(lines, opts, i, at) is None);
            lemma_no_store(lines, opts, i, at);
        }
        if exists|at: u64| #[trigger] reads(insn, at) && unwritten(lines, opts, 0, i, at) {
            let at = choose|at: u64| #[trigger]
                reads(insn, at) && unwritten(lines, opts, 0, i, at);
            lemma_unwritten(lines, opts, 0, i, at);
            assert(store_at(lines, opts, i, at) is None);
            assert(model::byte_at(insn.line.mem_op->0.abs, at - insn.line.mem_op->0.abs) == at);
        }
    }
}

proof fn lemma_no_store(lines: Seq<Option<Insn>>, opts: ScanOptions, n: int, at: u64)
    requires
        store_at(lines, opts, n, at) is None,
    ensures
        unwritten(lines, opts, 0, n, at),
    decreases n,
{
    if n > 0 {
        lemma_no_store(lines, opts, n - 1, at);
        assert forall|j: int| 0 <= j < n implies !(#[trigger] scanned(lines, opts, j) matches Some(
            insn,
        ) && writes(insn, at)) by {
            if j < n - 1 {
                assert(!(scanned(lines, opts, j) matches Some(insn) && writes(insn, at)));
            }
        }
    }
}

// ---------------------------------------------------------------------------
// Targets, counts and names
// ---------------------------------------------------------------------------

proof fn lemma_resolve(m: ScanModel, insn: Insn, line: u32, targets: Seq<LineTarget>, k: int)
    requires
        0 <= k < targets.len(),
        model::resolve_targets(m, insn, line, targets) is Ok,
    ensures
        ({
            let r = model::resolve_targets(m, insn, line, targets)->Ok_0;
            r.contains_key((line, targets[k])) && Some(r[(line, targets[k])]) == model::target_line(
                m,
                insn,
                line,
                targets[k],
            )
        }),
    decreases targets.len(),
{
    if k < targets.len() - 1 {
        assert(targets.drop_last()[k] == targets[k]);
        lemma_resolve(m, insn, line, targets.drop_last(), k);
    }
}

proof fn lemma_resolve_keeps(
    m: ScanModel,
    insn: Insn,
    line: u32,
    targets: Seq<LineTarget>,
    other: (u32, LineTarget),
)
    requires
        other.0 != line,
        model::resolve_targets(m, insn, line, targets) is Ok,
    ensures
        ({
            let r = model::resolve_targets(m, insn, line, targets)->Ok_0;
            r.contains_key(other) == m.resolved.contains_key(other) && (r.contains_key(other)
                ==> r[other] == m.resolved[other])
        }),
    decreases targets.len(),
{
    if targets.len() > 0 {
        lemma_resolve_keeps(m, insn, line, targets.drop_last(), other);
    }
}

proof fn lemma_resolved_at(
    lines: Seq<Option<Insn>>,
    opts: ScanOptions,
    i: int,
    n: int,
    target: LineTarget,
)
    requires
        0 <= i < n <= lines.len() <= u32::MAX,
        model::scan_lines(lines, opts, n) is Ok,
        scanned(lines, opts, i) is Some,
        opts.targets.contains_key(i as u32),
        opts.targets[i as u32].contains(target),
    ensures
        ({
            let r = model::scan_lines(lines, opts, n)->Ok_0.resolved;
            &&& model::scan_lines(lines, opts, i) is Ok
            &&& r.contains_key((i as u32, target))
            &&& Some(r[(i as u32, target)]) == model::target_line(
                model::scan_lines(lines, opts, i)->Ok_0,
                scanned(lines, opts, i)->0,
                i as u32,
                target,
            )
        }),
    decreases n,
{
    lemma_row_at(lines, opts, n - 1, n);
    let m = model::scan_lines(lines, opts, n - 1)->Ok_0;
    if n > 1 {
        lemma_row_at(lines, opts, 0, n - 1);
    }
    let line = (n - 1) as u32;
    if i < n - 1 {
        lemma_resolved_at(lines, opts, i, n - 1, target);
        if let Some(insn) = scanned(lines, opts, n - 1) {
            lemma_resolve_keeps(
                m,
                insn,
                line,
                model::line_targets(opts, line),
                (i as u32, target),
            );
        }
    } else {
        let ts = opts.targets[line];
        let k = choose|k: int| 0 <= k < ts.len() && ts[k] == target;
        lemma_resolve(m, scanned(lines, opts, i)->0, line, ts, k);
    }
}

/// A requested place is the line itself if the line defines it, else the latest
/// line before that did; where there is none, the scan does not succeed.
pub proof fn law_targets_are_the_latest_definitions(
    lines: Seq<Option<Insn>>,
    opts: ScanOptions,
    i: int,
    target: LineTarget,
)
    requires
        trace_ok(lines),
        model::options_ok(opts),
        0 <= i < lines.len(),
        model::scan_lines(lines, opts, lines.len() as int) is Ok,
        scanned(lines, opts, i) is Some,
        opts.targets.contains_key(i as u32),
        opts.targets[i as u32].contains(target),
        !(lines[i] matches Some(insn) && insn.class == InsnClass::StorePair
            && insn.line.mem_op->0.elem_width > 127),
    ensures
        ({
            let r = model::scan_lines(lines, opts, lines.len() as int)->Ok_0.resolved;
            let insn = scanned(lines, opts, i)->0;
            &&& r.contains_key((i as u32, target))
            &&& match target {
                LineTarget::Reg(reg) => if insn.defs@.contains(reg) {
                    r[(i as u32, target)] == i
                } else {
                    def_at(lines, opts, i, reg) == Some(r[(i as u32, target)])
                },
                LineTarget::Mem(addr) => if writes(insn, addr) {
                    r[(i as u32, target)] == i
                } else {
                    store_at(lines, opts, i, addr) matches Some(e) && e.0 == r[(i as u32, target)]
                },
            }
        }),
{
    lemma_resolved_at(lines, opts, i, lines.len() as int, target);
    let ts = opts.targets[i as u32];
    let k = choose|k: int| 0 <= k < ts.len() && ts[k] == target;
    assert(model::target_ok(opts.targets[i as u32][k]));
    match target {
        LineTarget::Reg(reg) => {
            lemma_remembers(lines, opts, i, 0, reg);
        },
        LineTarget::Mem(addr) => {
            lemma_remembers(lines, opts, i, addr, RegId(0));
        },
    }
}

/// How many of the first `n` lines are scanned instructions, and how many of
/// those name memory.
pub open spec fn instructions(lines: Seq<Option<Insn>>, opts: ScanOptions, n: int) -> (int, int)
    decreases n,
{
    if n <= 0 {
        (0, 0)
    } else {
        let before = instructions(lines, opts, n - 1);
        match scanned(lines, opts, n - 1) {
            Some(insn) => (
                before.0 + 1,
                if insn.line.mem_op is Some {
                    before.1 + 1
                } else {
                    before.1
                },
            ),
            None => before,
        }
    }
}

/// The counts of a scan are those of the instructions that it scanned.
pub proof fn law_scan_counts_instructions(lines: Seq<Option<Insn>>, opts: ScanOptions, n: int)
    requires
        0 <= n <= lines.len() <= u32::MAX,
        model::scan_lines(lines, opts, n) is Ok,
    ensures
        model::scan_lines(lines, opts, n)->Ok_0.rows.len() == n,
        model::scan_lines(lines, opts, n)->Ok_0.parsed == instructions(lines, opts, n).0,
        model::scan_lines(lines, opts, n)->Ok_0.mem_ops == instructions(lines, opts, n).1,
    decreases n,
{
    if n > 0 {
        law_scan_counts_instructions(lines, opts, n - 1);
    }
}

/// The line holds an instruction of that name which is not understood.
pub open spec fn not_understood(
    lines: Seq<Option<Insn>>,
    opts: ScanOptions,
    i: int,
    name: Seq<char>,
) -> bool {
    scanned(lines, opts, i) matches Some(insn) && insn.class == InsnClass::Nop && !insn.known_nop
        && insn.line.mnemonic@ == name
}

/// First line and number of the lines before `n` whose instruction has that
/// name and is not understood.
pub open spec fn occurrences(
    lines: Seq<Option<Insn>>,
    opts: ScanOptions,
    n: int,
    name: Seq<char>,
) -> Option<(int, int)>
    decreases n,
{
    if n <= 0 {
        None
    } else {
        let before = occurrences(lines, opts, n - 1, name);
        if not_understood(lines, opts, n - 1, name) {
            match before {
                Some((first, count)) => Some((first, count + 1)),
                None => Some((n - 1, 1)),
            }
        } else {
            before
        }
    }
}

/// Names that are not understood are kept with their first line and their
/// number, and no others.
pub proof fn law_unknown_names_are_counted(
    lines: Seq<Option<Insn>>,
    opts: ScanOptions,
    n: int,
    name: Seq<char>,
)
    requires
        0 <= n <= lines.len() <= u32::MAX,
        model::scan_lines(lines, opts, n) is Ok,
    ensures
        ({
            let unknown = model::scan_lines(lines, opts, n)->Ok_0.unknown;
            match occurrences(lines, opts, n, name) {
                Some((first, count)) => unknown.contains_key(name) && unknown[name].0 == first
                    && unknown[name].1 == count && 0 <= first < n && count <= n,
                None => !unknown.contains_key(name),
            }
        }),
        model::scan_lines(lines, opts, n)->Ok_0.rows.len() == n,
    decreases n,
{
    if n > 0 {
        law_unknown_names_are_counted(lines, opts, n - 1, name);
    }
}

// ---------------------------------------------------------------------------
// Widths
// ---------------------------------------------------------------------------

proof fn lemma_reg_operands(operands: Seq<Operand>, n: int)
    requires
        0 <= n <= operands.len(),
        forall|k: int|
            #![trigger operands[k]]
            0 <= k < n ==> operands[k].spec_as_reg() is Some,
    ensures
        model::reg_operands(operands, n) == n,
    decreases n,
{
    if n > 0 {
        lemma_reg_operands(operands, n - 1);
    }
}

proof fn lemma_base_position(operands: Seq<Operand>, base: RegId, regs: int, n: int)
    requires
        0 <= n <= operands.len(),
        0 <= regs < operands.len(),
        forall|k: int|
            #![trigger operands[k]]
            0 <= k < regs ==> operands[k].spec_as_reg() != Some(base),
        operands[regs].spec_as_reg() == Some(base),
    ensures
        model::base_position(operands, base, n) == (if n <= regs {
            n
        } else {
            regs
        }),
    decreases n,
{
    if n > 0 {
        lemma_base_position(operands, base, regs, n - 1);
    }
}

/// A vector access covers one element for each register before its base.
pub proof fn law_a_vector_access_covers_its_registers(insn: Insn, regs: int)
    requires
        insn.class == InsnClass::SimdLoad || insn.class == InsnClass::SimdStore,
        insn.line.base_reg is Some,
        0 < regs < insn.line.operands@.len(),
        regs < 256,
        regs * insn.line.mem_op->0.elem_width <= 255,
        insn.line.operands@[regs].spec_as_reg() == insn.line.base_reg,
        forall|k: int|
            #![trigger insn.line.operands@[k]]
            0 <= k < regs ==> insn.line.operands@[k].spec_as_reg() is Some
                && insn.line.operands@[k].spec_as_reg() != insn.line.base_reg,
    ensures
        reach(insn) == regs * insn.line.mem_op->0.elem_width,
{
    let base = insn.line.base_reg->0;
    let operands = insn.line.operands@;
    lemma_base_position(operands, base, regs, operands.len() as int);
    lemma_reg_operands(operands, regs);
    let ew = insn.line.mem_op->0.elem_width as int;
    assert(ew * regs == regs * ew) by (nonlinear_arith);
}

} // verus!
