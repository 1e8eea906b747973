//! What is known of registers, memory and branches does not depend on how a
//! trace was divided.

use crate::merge::forward;
use crate::merge::forward::{ChunkResult, ForwardModel};
use crate::merge::laws::{
    is_load_of, is_pair_load_of, law_open_load_matches_scan, law_open_pair_matches_scan,
    law_registers_across_chunks,
};
use crate::merge::loads::{load_corrections, load_deps, pair_split_of};
use crate::parallel_types::{PartialUnresolvedPairLoad, UnresolvedLoad, UnresolvedPairLoad};
use crate::scanner::last_def::{overlay_slots, slot_def, NO_DEF};
use crate::scanner::model;
use crate::scanner::model::{MemDefs, ScanOptions, LINE_MASK};
use crate::types::{Insn, InsnClass, RegId, REG_COUNT};
use vstd::prelude::*;

verus! {

/// What is known at a line.
#[verifier::ext_equal]
pub struct Knowledge {
    pub slots: Seq<u32>,
    pub mem: MemDefs,
    pub cond: Option<u32>,
}

pub open spec fn nothing_known() -> Knowledge {
    Knowledge {
        slots: Seq::new(REG_COUNT as nat, |i: int| NO_DEF),
        mem: Map::empty(),
        cond: None,
    }
}

/// What is known after one more line.
pub open spec fn learned(k: Knowledge, line: Option<Insn>, opts: ScanOptions, i: u32) -> Knowledge {
    match line {
        Some(insn) if model::in_range(opts, i) => Knowledge {
            slots: model::slots_after(k.slots, insn, i),
            mem: model::mem_after(k.mem, insn, i),
            cond: if insn.class == InsnClass::CondBranchNzcv || insn.class
                == InsnClass::CondBranchReg {
                Some(i)
            } else {
                k.cond
            },
        },
        _ => k,
    }
}

/// What the lines `a..n` alone tell.
pub open spec fn known(lines: Seq<Option<Insn>>, opts: ScanOptions, a: int, n: int) -> Knowledge
    decreases n - a,
{
    if n <= a {
        nothing_known()
    } else {
        learned(known(lines, opts, a, n - 1), lines[n - 1], opts, (n - 1) as u32)
    }
}

/// What two stretches tell together; the later wins.
pub open spec fn combined(before: Knowledge, later: Knowledge) -> Knowledge {
    Knowledge {
        slots: overlay_slots(before.slots, later.slots),
        mem: before.mem.union_prefer_right(later.mem),
        cond: if later.cond is Some {
            later.cond
        } else {
            before.cond
        },
    }
}

/// A trace whose line numbers leave the tag bits free.
pub open spec fn trace_ok(lines: Seq<Option<Insn>>) -> bool {
    &&& lines.len() <= LINE_MASK
    &&& forall|k: int|
        #![trigger lines[k]]
        0 <= k < lines.len() ==> (lines[k] matches Some(insn) ==> model::insn_ok(insn))
}

proof fn lemma_tags(i: u32)
    requires
        i <= LINE_MASK,
    ensures
        i != NO_DEF,
        i | model::PAIR_HALF2_BIT != NO_DEF,
        i | model::PAIR_SHARED_BIT != NO_DEF,
{
    assert(i <= 0x1FFF_FFFFu32 ==> i | 0x8000_0000u32 != 0xFFFF_FFFFu32) by (bit_vector);
    assert(i <= 0x1FFF_FFFFu32 ==> i | 0x4000_0000u32 != 0xFFFF_FFFFu32) by (bit_vector);
}

proof fn lemma_overlay_define(base: Seq<u32>, slots: Seq<u32>, regs: Seq<RegId>, line: u32)
    requires
        base.len() == REG_COUNT,
        slots.len() == REG_COUNT,
        line != NO_DEF,
        forall|i: int| #![trigger regs[i]] 0 <= i < regs.len() ==> regs[i].valid(),
    ensures
        overlay_slots(base, model::define_regs(slots, regs, line)) == model::define_regs(
            overlay_slots(base, slots),
            regs,
            line,
        ),
        model::define_regs(slots, regs, line).len() == REG_COUNT,
    decreases regs.len(),
{
    if regs.len() > 0 {
        lemma_overlay_define(base, slots, regs.drop_last(), line);
        assert(regs[regs.len() - 1].valid());
        let inner = model::define_regs(slots, regs.drop_last(), line);
        let at = regs.last().0 as int;
        assert(overlay_slots(base, inner.update(at, line)) =~= overlay_slots(base, inner).update(
            at,
            line,
        ));
    }
}

proof fn lemma_overlay_slots_after(base: Seq<u32>, slots: Seq<u32>, insn: Insn, i: u32)
    requires
        base.len() == REG_COUNT,
        slots.len() == REG_COUNT,
        i <= LINE_MASK,
        model::insn_ok(insn),
    ensures
        overlay_slots(base, model::slots_after(slots, insn, i)) == model::slots_after(
            overlay_slots(base, slots),
            insn,
            i,
        ),
        model::slots_after(slots, insn, i).len() == REG_COUNT,
{
    lemma_tags(i);
    if insn.class == InsnClass::LoadPair {
        let data = model::data_defs(insn);
        let mid = (data.len() / 2) as int;
        let half2 = i | model::PAIR_HALF2_BIT;
        let shared = i | model::PAIR_SHARED_BIT;
        assert forall|k: int| #![trigger data[k]] 0 <= k < data.len() implies data[k].valid() by {
            assert(insn.defs@[k].valid());
        }
        let first = model::define_regs(slots, data.take(mid), i);
        lemma_overlay_define(base, slots, data.take(mid), i);
        lemma_overlay_define(base, first, data.skip(mid), half2);
        let both = model::define_regs(first, data.skip(mid), half2);
        if model::has_base_writeback(insn) {
            let at = insn.defs@.last().0 as int;
            assert(insn.defs@[insn.defs@.len() - 1].valid());
            assert(overlay_slots(base, both.update(at, shared)) =~= overlay_slots(
                base,
                both,
            ).update(at, shared));
        }
    } else if insn.class == InsnClass::StorePair {
        lemma_overlay_define(base, slots, insn.defs@, i | model::PAIR_SHARED_BIT);
    } else {
        lemma_overlay_define(base, slots, insn.defs@, i);
    }
}

proof fn lemma_union_store(
    base: MemDefs,
    mem: MemDefs,
    abs: u64,
    from: int,
    to: int,
    entry: (u32, u64),
)
    ensures
        base.union_prefer_right(model::store_bytes(mem, abs, from, to, entry))
            == model::store_bytes(base.union_prefer_right(mem), abs, from, to, entry),
{
    assert(base.union_prefer_right(model::store_bytes(mem, abs, from, to, entry))
        =~= model::store_bytes(base.union_prefer_right(mem), abs, from, to, entry));
}

proof fn lemma_union_mem_after(base: MemDefs, mem: MemDefs, insn: Insn, i: u32)
    ensures
        base.union_prefer_right(model::mem_after(mem, insn, i)) == model::mem_after(
            base.union_prefer_right(mem),
            insn,
            i,
        ),
{
    if model::stores(insn) {
        let op = insn.line.mem_op->0;
        let ew = op.elem_width as int;
        let entry = (i, model::stored_value(op));
        if insn.class == InsnClass::StorePair {
            let first = model::store_bytes(mem, op.abs, 0, ew, entry);
            lemma_union_store(base, mem, op.abs, 0, ew, entry);
            lemma_union_store(
                base,
                first,
                op.abs,
                ew,
                2 * ew,
                (i | model::PAIR_HALF2_BIT, 0),
            );
        } else {
            lemma_union_store(base, mem, op.abs, 0, model::insn_width(insn), entry);
        }
    }
}

proof fn lemma_known_slots(lines: Seq<Option<Insn>>, opts: ScanOptions, a: int, n: int)
    requires
        trace_ok(lines),
        0 <= a,
        n <= lines.len(),
    ensures
        known(lines, opts, a, n).slots.len() == REG_COUNT,
    decreases n - a,
{
    if a < n {
        lemma_known_slots(lines, opts, a, n - 1);
        if let Some(insn) = lines[n - 1] {
            let slots = known(lines, opts, a, n - 1).slots;
            lemma_overlay_slots_after(slots, slots, insn, (n - 1) as u32);
        }
    }
}

/// What is known at a line is what was known where its chunk starts, and what
/// the chunk has told since.
pub proof fn law_knowledge_across_chunks(
    lines: Seq<Option<Insn>>,
    opts: ScanOptions,
    a: int,
    n: int,
)
    requires
        trace_ok(lines),
        0 <= a <= n <= lines.len(),
    ensures
        known(lines, opts, 0, n) == combined(known(lines, opts, 0, a), known(lines, opts, a, n)),
    decreases n - a,
{
    let before = known(lines, opts, 0, a);
    lemma_known_slots(lines, opts, 0, a);
    if a < n {
        law_knowledge_across_chunks(lines, opts, a, n - 1);
        lemma_known_slots(lines, opts, a, n - 1);
        let local = known(lines, opts, a, n - 1);
        if let Some(insn) = lines[n - 1] {
            lemma_overlay_slots_after(before.slots, local.slots, insn, (n - 1) as u32);
            lemma_union_mem_after(before.mem, local.mem, insn, (n - 1) as u32);
        }
        assert(known(lines, opts, 0, n) == learned(
            known(lines, opts, 0, n - 1),
            lines[n - 1],
            opts,
            (n - 1) as u32,
        ));
        assert(known(lines, opts, 0, n) =~= combined(before, known(lines, opts, a, n)));
    } else {
        assert(combined(before, nothing_known()) =~= before);
    }
}

/// A scan knows what its lines tell.
pub proof fn law_scan_knows_its_lines(lines: Seq<Option<Insn>>, opts: ScanOptions, n: int)
    requires
        0 <= n <= lines.len() <= u32::MAX,
        model::scan_lines(lines, opts, n) is Ok,
    ensures
        ({
            let m = model::scan_lines(lines, opts, n)->Ok_0;
            known(lines, opts, 0, n) == (Knowledge {
                slots: m.slots,
                mem: m.mem,
                cond: m.last_cond,
            }) && m.rows.len() == n
        }),
    decreases n,
{
    if n > 0 {
        law_scan_knows_its_lines(lines, opts, n - 1);
    }
}

// ---------------------------------------------------------------------------
// The merge
// ---------------------------------------------------------------------------

/// The chunks follow each other from the first line on, and each ends with what
/// its own lines tell.
pub open spec fn chunks_of(
    chunks: Seq<ChunkResult>,
    lines: Seq<Option<Insn>>,
    opts: ScanOptions,
) -> bool {
    &&& forall|k: int|
        #![trigger chunks[k]]
        0 <= k < chunks.len() ==> {
            &&& chunks[k].start_line <= chunks[k].end_line <= lines.len()
            &&& chunks[k].start_line == end_of(chunks, k)
            &&& boundary_of(chunks[k]) == known(
                lines,
                opts,
                chunks[k].start_line as int,
                chunks[k].end_line as int,
            )
        }
}

/// Where chunk `k` has to start.
pub open spec fn end_of(chunks: Seq<ChunkResult>, k: int) -> int {
    if k <= 0 {
        0
    } else {
        chunks[k - 1].end_line as int
    }
}

pub open spec fn boundary_of(c: ChunkResult) -> Knowledge {
    Knowledge {
        slots: c.boundary.final_reg_last_def.slots(),
        mem: c.boundary.final_mem_last_def@,
        cond: c.boundary.final_last_cond_branch,
    }
}

pub open spec fn forward_knowledge(m: ForwardModel) -> Knowledge {
    Knowledge { slots: m.slots, mem: m.mem, cond: m.cond }
}

proof fn lemma_loads_keep(m: ForwardModel, list: Seq<UnresolvedLoad>, n: int)
    ensures
        forward_knowledge(forward::with_loads(m, list, n)) == forward_knowledge(m),
    decreases n,
{
    if n > 0 {
        lemma_loads_keep(m, list, n - 1);
    }
}

proof fn lemma_pairs_keep(
    m: ForwardModel,
    list: Seq<UnresolvedPairLoad>,
    data_only: bool,
    n: int,
)
    ensures
        forward_knowledge(forward::with_pairs(m, list, data_only, n)) == forward_knowledge(m),
    decreases n,
{
    if n > 0 {
        lemma_pairs_keep(m, list, data_only, n - 1);
    }
}

proof fn lemma_partial_pairs_keep(
    m: ForwardModel,
    list: Seq<PartialUnresolvedPairLoad>,
    chunk: int,
    n: int,
)
    ensures
        forward_knowledge(forward::with_partial_pairs(m, list, chunk, n)) == forward_knowledge(m),
    decreases n,
{
    if n > 0 {
        lemma_partial_pairs_keep(m, list, chunk, n - 1);
    }
}

proof fn lemma_resolving_keeps(m: ForwardModel, c: ChunkResult, chunk: int, data_only: bool)
    ensures
        forward_knowledge(forward::resolved(m, c, chunk, data_only)) == forward_knowledge(m),
{
    let m1 = forward::with_loads(m, c.unresolved_loads@, c.unresolved_loads@.len() as int);
    lemma_loads_keep(m, c.unresolved_loads@, c.unresolved_loads@.len() as int);
    let m2 = forward::with_partials(m1, c.partial_unresolved_loads@);
    let m3 = forward::with_pairs(
        m2,
        c.unresolved_pair_loads@,
        data_only,
        c.unresolved_pair_loads@.len() as int,
    );
    lemma_pairs_keep(
        m2,
        c.unresolved_pair_loads@,
        data_only,
        c.unresolved_pair_loads@.len() as int,
    );
    lemma_partial_pairs_keep(
        m3,
        c.partial_unresolved_pair_loads@,
        chunk,
        c.partial_unresolved_pair_loads@.len() as int,
    );
}

/// The merge knows what a scan of the whole trace knows: before each chunk, and
/// at the end.
pub proof fn law_merge_knows_what_the_scan_knows(
    chunks: Seq<ChunkResult>,
    lines: Seq<Option<Insn>>,
    opts: ScanOptions,
    data_only: bool,
    n: int,
)
    requires
        trace_ok(lines),
        chunks_of(chunks, lines, opts),
        0 <= n <= chunks.len(),
    ensures
        forward_knowledge(forward::forward(chunks, data_only, n)) == known(
            lines,
            opts,
            0,
            end_of(chunks, n),
        ),
    decreases n,
{
    if n > 0 {
        law_merge_knows_what_the_scan_knows(chunks, lines, opts, data_only, n - 1);
        let c = chunks[n - 1];
        let before = forward::forward(chunks, data_only, n - 1);
        lemma_resolving_keeps(before, c, n - 1, data_only);
        law_knowledge_across_chunks(lines, opts, c.start_line as int, c.end_line as int);
        assert(forward_knowledge(forward::forward(chunks, data_only, n)) =~= combined(
            forward_knowledge(before),
            boundary_of(c),
        ));
    }
}

// ---------------------------------------------------------------------------
// Open loads
// ---------------------------------------------------------------------------

/// No byte of the access has a store.
pub open spec fn untouched(mem: MemDefs, abs: u64, width: int) -> bool {
    forall|o: int| 0 <= o < width ==> !mem.contains_key(#[trigger] model::byte_at(abs, o))
}

proof fn lemma_untouched_defs(
    before: MemDefs,
    chunk: MemDefs,
    abs: u64,
    from: int,
    to: int,
    width: int,
)
    requires
        untouched(chunk, abs, width),
        0 <= from,
        to <= width,
    ensures
        model::byte_defs(before.union_prefer_right(chunk), abs, from, to) == model::byte_defs(
            before,
            abs,
            from,
            to,
        ),
    decreases to - from,
{
    if from < to {
        lemma_untouched_defs(before, chunk, abs, from, to - 1, width);
        assert(!chunk.contains_key(model::byte_at(abs, to - 1)));
    }
}

proof fn lemma_untouched_facts(
    before: MemDefs,
    chunk: MemDefs,
    abs: u64,
    width: int,
    value: Option<u64>,
)
    requires
        untouched(chunk, abs, width),
    ensures
        model::all_stored(before.union_prefer_right(chunk), abs, width) == model::all_stored(
            before,
            abs,
            width,
        ),
        model::pass_through(before.union_prefer_right(chunk), abs, width, value)
            == model::pass_through(before, abs, width, value),
{
    let after = before.union_prefer_right(chunk);
    assert forall|o: int| 0 <= o < width implies after.contains_key(
        #[trigger] model::byte_at(abs, o),
    ) == before.contains_key(model::byte_at(abs, o)) && (before.contains_key(
        model::byte_at(abs, o),
    ) ==> after[model::byte_at(abs, o)] == before[model::byte_at(abs, o)]) by {
        assert(!chunk.contains_key(model::byte_at(abs, o)));
    }
    if width > 0 {
        assert(model::byte_at(abs, 0) == abs);
        assert(!chunk.contains_key(model::byte_at(abs, 0)));
    }
}

proof fn lemma_unset_reg_defs(before: Seq<u32>, chunk: Seq<u32>, uses: Seq<RegId>)
    requires
        before.len() == REG_COUNT,
        chunk.len() == REG_COUNT,
        forall|i: int|
            #![trigger uses[i]]
            0 <= i < uses.len() ==> uses[i].valid() && slot_def(chunk, uses[i]) is None,
    ensures
        model::reg_defs(overlay_slots(before, chunk), uses) == model::reg_defs(before, uses),
    decreases uses.len(),
{
    if uses.len() > 0 {
        assert(uses[uses.len() - 1].valid());
        assert forall|i: int| #![trigger uses.drop_last()[i]] 0 <= i < uses.len() - 1 implies {
            uses.drop_last()[i].valid() && slot_def(chunk, uses.drop_last()[i]) is None
        } by {
            assert(uses[i].valid());
        }
        lemma_unset_reg_defs(before, chunk, uses.drop_last());
    }
}

/// A load of bytes and registers that its chunk has not defined, resolved with
/// what is known where the chunk starts, gets the dependencies that the scan of
/// the whole trace gives it, and is unmarked exactly if it does not read initial
/// memory there.
pub proof fn law_open_load_across_chunks(
    lines: Seq<Option<Insn>>,
    opts: ScanOptions,
    a: int,
    i: int,
    load: UnresolvedLoad,
)
    requires
        trace_ok(lines),
        0 <= a <= i < lines.len(),
        model::scan_lines(lines, opts, i) is Ok,
        !opts.no_prune,
        lines[i] matches Some(insn) && is_load_of(load, insn),
        untouched(known(lines, opts, a, i).mem, load.addr, load.width as int),
        forall|k: int|
            #![trigger load.uses@[k]]
            0 <= k < load.uses@.len() ==> slot_def(
                known(lines, opts, a, i).slots,
                load.uses@[k],
            ) is None,
    ensures
        ({
            let m = model::scan_lines(lines, opts, i)->Ok_0;
            let before = known(lines, opts, 0, a);
            let insn = lines[i]->0;
            &&& model::line_sources(m, insn, opts) == load_deps(load, before.mem, before.slots)
                + model::control_def(m.last_cond, opts.data_only)
            &&& load_corrections(load, before.mem).len() == 1 <==> !model::reads_initial(m, insn)
        }),
{
    let m = model::scan_lines(lines, opts, i)->Ok_0;
    let before = known(lines, opts, 0, a);
    let local = known(lines, opts, a, i);
    let insn = lines[i]->0;
    let width = load.width as int;
    law_scan_knows_its_lines(lines, opts, i);
    law_knowledge_across_chunks(lines, opts, a, i);
    lemma_known_slots(lines, opts, 0, a);
    lemma_known_slots(lines, opts, a, i);
    law_open_load_matches_scan(load, insn, m, opts);
    lemma_untouched_defs(before.mem, local.mem, load.addr, 0, width, width);
    lemma_untouched_facts(before.mem, local.mem, load.addr, width, load.load_value);
    assert forall|k: int| #![trigger load.uses@[k]] 0 <= k < load.uses@.len() implies {
        load.uses@[k].valid()
    } by {
        assert(insn.uses@[k].valid());
    }
    lemma_unset_reg_defs(before.slots, local.slots, load.uses@);
}

/// A pair load of bytes and a base that its chunk has not defined, with no
/// branch before it there, resolved with what is known where the chunk starts,
/// gets the halves that the scan of the whole trace gives it.
pub proof fn law_open_pair_across_chunks(
    lines: Seq<Option<Insn>>,
    opts: ScanOptions,
    a: int,
    i: int,
    pair: UnresolvedPairLoad,
)
    requires
        trace_ok(lines),
        0 <= a <= i < lines.len(),
        model::scan_lines(lines, opts, i) is Ok,
        lines[i] matches Some(insn) && is_pair_load_of(pair, insn),
        untouched(known(lines, opts, a, i).mem, pair.addr, 2 * pair.elem_width as int),
        pair.base_reg matches Some(reg) ==> reg.valid() && slot_def(
            known(lines, opts, a, i).slots,
            reg,
        ) is None,
        known(lines, opts, a, i).cond is None,
    ensures
        ({
            let before = known(lines, opts, 0, a);
            pair_split_of(pair, before.mem, before.slots, before.cond, opts.data_only)
                == model::pair_view(
                model::scan_lines(lines, opts, i)->Ok_0,
                lines[i]->0,
                opts,
            )
        }),
{
    let m = model::scan_lines(lines, opts, i)->Ok_0;
    let before = known(lines, opts, 0, a);
    let local = known(lines, opts, a, i);
    let ew = pair.elem_width as int;
    law_scan_knows_its_lines(lines, opts, i);
    law_knowledge_across_chunks(lines, opts, a, i);
    lemma_known_slots(lines, opts, 0, a);
    lemma_known_slots(lines, opts, a, i);
    law_open_pair_matches_scan(pair, lines[i]->0, m, opts);
    lemma_untouched_defs(before.mem, local.mem, pair.addr, 0, ew, 2 * ew);
    lemma_untouched_defs(before.mem, local.mem, pair.addr, ew, 2 * ew, 2 * ew);
    if let Some(reg) = pair.base_reg {
        law_registers_across_chunks(before.slots, local.slots, reg);
    }
}

} // verus!
