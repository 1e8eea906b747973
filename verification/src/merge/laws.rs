//! What the merge of chunks has in common with a scan of the whole trace.

use crate::merge::loads::{addr_defs, load_corrections, load_deps, pair_split_of};
use crate::parallel_types::{UnresolvedLoad, UnresolvedPairLoad};
use crate::scanner::last_def::{overlay_slots, slot_def};
use crate::scanner::model::{
    byte_defs, control_def, insn_width, is_pair, line_sources, loads, pair_view, reads_initial,
    MemDefs, ScanModel, ScanOptions,
};
use crate::types::{Insn, InsnClass, RegId};
use vstd::prelude::*;

verus! {

/// The open load is that of the instruction.
pub open spec fn is_load_of(load: UnresolvedLoad, insn: Insn) -> bool {
    &&& loads(insn)
    &&& !is_pair(insn.class)
    &&& load.addr == insn.line.mem_op->0.abs
    &&& load.width == insn_width(insn)
    &&& load.load_value == insn.line.mem_op->0.value
    &&& load.uses@ == insn.uses@
}

/// A load that a chunk leaves open gets the dependencies that the scan of the
/// whole trace finds in the same state, and is unmarked exactly if it does not
/// read initial memory.
pub proof fn law_open_load_matches_scan(
    load: UnresolvedLoad,
    insn: Insn,
    m: ScanModel,
    opts: ScanOptions,
)
    requires
        is_load_of(load, insn),
        !opts.no_prune,
    ensures
        line_sources(m, insn, opts) == load_deps(load, m.mem, m.slots) + control_def(
            m.last_cond,
            opts.data_only,
        ),
        load_corrections(load, m.mem).len() == 1 <==> !reads_initial(m, insn),
{
    assert(line_sources(m, insn, opts) =~= load_deps(load, m.mem, m.slots) + control_def(
        m.last_cond,
        opts.data_only,
    ));
}

/// The open pair load is that of the instruction.
pub open spec fn is_pair_load_of(pair: UnresolvedPairLoad, insn: Insn) -> bool {
    &&& insn.class == InsnClass::LoadPair
    &&& insn.line.mem_op is Some
    &&& pair.addr == insn.line.mem_op->0.abs
    &&& pair.elem_width == insn.line.mem_op->0.elem_width
    &&& pair.base_reg == insn.line.base_reg
}

/// A pair load that a chunk leaves open gets the dependencies by half that the
/// scan of the whole trace finds in the same state.
pub proof fn law_open_pair_matches_scan(
    pair: UnresolvedPairLoad,
    insn: Insn,
    m: ScanModel,
    opts: ScanOptions,
)
    requires
        is_pair_load_of(pair, insn),
    ensures
        pair_split_of(pair, m.mem, m.slots, m.last_cond, opts.data_only) == pair_view(
            m,
            insn,
            opts,
        ),
{
}

/// A register that a chunk defines keeps the definition of the chunk, any other
/// that of the chunks before it.
pub proof fn law_registers_across_chunks(before: Seq<u32>, chunk: Seq<u32>, reg: RegId)
    requires
        reg.0 < before.len(),
        reg.0 < chunk.len(),
    ensures
        slot_def(overlay_slots(before, chunk), reg) == (match slot_def(chunk, reg) {
            Some(line) => Some(line),
            None => slot_def(before, reg),
        }),
{
}

/// Memory after a chunk: what the chunk stored, and what was there before.
pub open spec fn memory_after(before: MemDefs, chunk: MemDefs) -> MemDefs {
    before.union_prefer_right(chunk)
}

proof fn lemma_byte_defs(mem: MemDefs, abs: u64, n: int, dep: u32)
    requires
        abs + n <= u64::MAX + 1,
    ensures
        byte_defs(mem, abs, 0, n).contains(dep) <==> exists|k: int|
            0 <= k < n && #[trigger] stored_at(mem, abs + k, dep),
    decreases n,
{
    if n > 0 {
        lemma_byte_defs(mem, abs, n - 1, dep);
        let before = byte_defs(mem, abs, 0, n - 1);
        let all = byte_defs(mem, abs, 0, n);
        if before.contains(dep) {
            let w = choose|w: int| 0 <= w < before.len() && before[w] == dep;
            assert(all[w] == dep);
        }
        if stored_at(mem, abs + (n - 1), dep) {
            assert(all.last() == dep);
            assert(all[all.len() - 1] == dep);
        }
        if all.contains(dep) && !before.contains(dep) {
            let w = choose|w: int| 0 <= w < all.len() && all[w] == dep;
            if w < before.len() {
                assert(before[w] == dep);
            }
            assert(stored_at(mem, abs + (n - 1), dep));
        }
    }
}

/// The byte was last stored by that line.
pub open spec fn stored_at(mem: MemDefs, addr: int, dep: u32) -> bool {
    mem.contains_key(addr as u64) && mem[addr as u64].0 == dep
}

proof fn lemma_addr_defs(mem: MemDefs, addrs: Seq<u64>, n: int, dep: u32)
    requires
        0 <= n <= addrs.len(),
    ensures
        addr_defs(mem, addrs, n).contains(dep) <==> exists|k: int|
            0 <= k < n && stored_at(mem, #[trigger] addrs[k] as int, dep),
    decreases n,
{
    if n > 0 {
        lemma_addr_defs(mem, addrs, n - 1, dep);
        let before = addr_defs(mem, addrs, n - 1);
        let all = addr_defs(mem, addrs, n);
        if before.contains(dep) {
            let w = choose|w: int| 0 <= w < before.len() && before[w] == dep;
            assert(all[w] == dep);
        }
        if stored_at(mem, addrs[n - 1] as int, dep) {
            assert(all[all.len() - 1] == dep);
        }
        if all.contains(dep) && !before.contains(dep) {
            let w = choose|w: int| 0 <= w < all.len() && all[w] == dep;
            if w < before.len() {
                assert(before[w] == dep);
            }
            assert(stored_at(mem, addrs[n - 1] as int, dep));
        }
    }
}

/// A load that a chunk leaves partly open gets, from the chunk and from what
/// was missing, the lines that the scan of the whole trace finds.
pub proof fn law_partial_load_matches_scan(
    before: MemDefs,
    chunk: MemDefs,
    abs: u64,
    width: int,
    missing: Seq<u64>,
    dep: u32,
)
    requires
        0 <= width,
        abs + width <= u64::MAX + 1,
        forall|k: int|
            #![trigger chunk.contains_key((abs + k) as u64)]
            0 <= k < width ==> chunk.contains_key((abs + k) as u64) == !missing.contains(
                (abs + k) as u64,
            ),
        forall|i: int|
            #![trigger missing[i]]
            0 <= i < missing.len() ==> abs <= missing[i] < abs + width,
    ensures
        byte_defs(memory_after(before, chunk), abs, 0, width).contains(dep) <==> byte_defs(
            chunk,
            abs,
            0,
            width,
        ).contains(dep) || addr_defs(before, missing, missing.len() as int).contains(dep),
{
    let after = memory_after(before, chunk);
    lemma_byte_defs(after, abs, width, dep);
    lemma_byte_defs(chunk, abs, width, dep);
    lemma_addr_defs(before, missing, missing.len() as int, dep);
    if byte_defs(after, abs, 0, width).contains(dep) {
        let k = choose|k: int| 0 <= k < width && #[trigger] stored_at(after, abs + k, dep);
        let a = (abs + k) as u64;
        if chunk.contains_key(a) {
            assert(stored_at(chunk, abs + k, dep));
        } else {
            assert(missing.contains(a));
            let i = choose|i: int| 0 <= i < missing.len() && missing[i] == a;
            assert(stored_at(before, missing[i] as int, dep));
        }
    }
    if byte_defs(chunk, abs, 0, width).contains(dep) {
        let k = choose|k: int| 0 <= k < width && #[trigger] stored_at(chunk, abs + k, dep);
        assert(stored_at(after, abs + k, dep));
    }
    if addr_defs(before, missing, missing.len() as int).contains(dep) {
        let i = choose|i: int|
            0 <= i < missing.len() && stored_at(before, #[trigger] missing[i] as int, dep);
        let k = missing[i] - abs;
        assert(0 <= k < width);
        assert((abs + k) as u64 == missing[i]);
        assert(missing.contains(missing[i]));
        assert(!chunk.contains_key((abs + k) as u64));
        assert(stored_at(after, abs + k, dep));
    }
}

} // verus!
