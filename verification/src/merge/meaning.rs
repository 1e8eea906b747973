//! What a merge adds to the chunks, told by the chunks alone.

use crate::foreign::LineFlags;
use crate::merge::deps::{
    chunk_control_edges, control_edges, joined_chunk, joined_row, joined_rows, targets_of,
};
use crate::merge::events::filled;
use crate::merge::forward;
use crate::merge::forward::{forward, ChunkResult, DeferredView, ForwardModel};
use crate::merge::indices::{corrected, joined_flags, joined_indices};
use crate::merge::loads;
use crate::merge::loads::{Edge, edges_from};
use crate::merge::orchestrator::{
    all_snapshots, chunk_snapshots, joined_tables, merged_pairs, splits_of, table_views, view_at,
    with_deferred, with_fixups,
};
use crate::parallel_types::{
    PartialUnresolvedLoad, PartialUnresolvedPairLoad, UnresolvedLoad, UnresolvedPairLoad,
    UnresolvedRegUse,
};
use crate::query::mem_access::{accesses_at, MemAccessIndex, MemAccessRecord};
use crate::query::registers::UNKNOWN_VALUE;
use crate::scanner::deps::CompactDeps;
use crate::scanner::last_def::{overlay_slots, slot_def};
use crate::scanner::meaning::{lemma_byte_defs, lemma_concat_contains, lemma_reg_defs};
use crate::scanner::model;
use crate::scanner::model::{PairView, CONTROL_DEP_BIT};
use crate::seqs;
use crate::types::{RegId, REG_COUNT};
use vstd::prelude::*;

verus! {

// ---------------------------------------------------------------------------
// What the chunks say
// ---------------------------------------------------------------------------

/// The latest store to a byte in the chunks before chunk `c`.
pub open spec fn stored_before(chunks: Seq<ChunkResult>, c: int, at: u64) -> Option<(u32, u64)>
    decreases c,
{
    if c <= 0 {
        None
    } else if chunks[c - 1].boundary.final_mem_last_def@.contains_key(at) {
        Some(chunks[c - 1].boundary.final_mem_last_def@[at])
    } else {
        stored_before(chunks, c - 1, at)
    }
}

/// The latest definition of a register in the chunks before chunk `c`.
pub open spec fn defined_before(chunks: Seq<ChunkResult>, c: int, reg: RegId) -> Option<u32>
    decreases c,
{
    if c <= 0 {
        None
    } else {
        match slot_def(chunks[c - 1].boundary.final_reg_last_def.slots(), reg) {
            Some(line) => Some(line),
            None => defined_before(chunks, c - 1, reg),
        }
    }
}

/// The latest conditional branch in the chunks before chunk `c`.
pub open spec fn branch_before(chunks: Seq<ChunkResult>, c: int) -> Option<u32>
    decreases c,
{
    if c <= 0 {
        None
    } else {
        match chunks[c - 1].boundary.final_last_cond_branch {
            Some(line) => Some(line),
            None => branch_before(chunks, c - 1),
        }
    }
}

/// A byte of the range was last stored, before chunk `c`, by the line referred
/// to.
pub open spec fn range_stored(
    chunks: Seq<ChunkResult>,
    c: int,
    from: int,
    to: int,
    dep: u32,
) -> bool {
    exists|at: u64|
        from <= at < to && (#[trigger] stored_before(chunks, c, at) matches Some(e) && e.0 == dep)
}

pub open spec fn base_defined(
    chunks: Seq<ChunkResult>,
    c: int,
    reg: Option<RegId>,
    dep: u32,
) -> bool {
    reg matches Some(r) && defined_before(chunks, c, r) == Some(dep)
}

pub open spec fn by_branch(
    chunks: Seq<ChunkResult>,
    c: int,
    data_only: bool,
    dep: u32,
) -> bool {
    !data_only && (branch_before(chunks, c) matches Some(b) && dep == b | CONTROL_DEP_BIT)
}

/// The load hands on the value of one store, byte for byte.
pub open spec fn load_hands_on(chunks: Seq<ChunkResult>, c: int, load: UnresolvedLoad) -> bool {
    &&& load.width > 0
    &&& stored_before(chunks, c, load.addr) matches Some(e) && load.load_value == Some(e.1)
    &&& forall|at: u64|
        load.addr <= at < load.addr + load.width ==> (#[trigger] stored_before(
            chunks,
            c,
            at,
        ) matches Some(e) && e.0 == (stored_before(chunks, c, load.addr)->0).0)
}

/// What an open load of chunk `c` depends on.
pub open spec fn load_reason(
    chunks: Seq<ChunkResult>,
    c: int,
    load: UnresolvedLoad,
    dep: u32,
) -> bool {
    ||| range_stored(chunks, c, load.addr as int, load.addr + load.width, dep)
    ||| !load_hands_on(chunks, c, load) && exists|k: int|
        0 <= k < load.uses@.len() && defined_before(chunks, c, #[trigger] load.uses@[k]) == Some(
            dep,
        )
}

pub open spec fn partial_reason(
    chunks: Seq<ChunkResult>,
    c: int,
    load: PartialUnresolvedLoad,
    dep: u32,
) -> bool {
    exists|k: int|
        0 <= k < load.missing_addrs@.len() && (stored_before(
            chunks,
            c,
            #[trigger] load.missing_addrs@[k],
        ) matches Some(e) && e.0 == dep)
}

pub open spec fn pair_reason(
    chunks: Seq<ChunkResult>,
    c: int,
    pair: UnresolvedPairLoad,
    data_only: bool,
    dep: u32,
) -> bool {
    ||| range_stored(chunks, c, pair.addr as int, pair.addr + 2 * pair.elem_width, dep)
    ||| base_defined(chunks, c, pair.base_reg, dep)
    ||| by_branch(chunks, c, data_only, dep)
}

pub open spec fn partial_pair_reason(
    chunks: Seq<ChunkResult>,
    c: int,
    pair: PartialUnresolvedPairLoad,
    dep: u32,
) -> bool {
    let mid = pair.addr + pair.elem_width;
    ||| pair.half1_unresolved && range_stored(chunks, c, pair.addr as int, mid, dep)
    ||| pair.half2_unresolved && range_stored(chunks, c, mid, mid + pair.elem_width, dep)
    ||| pair.base_reg_unresolved && base_defined(chunks, c, pair.base_reg, dep)
}

/// The line of a chunk comes before the first branch of the chunk and wants a
/// control dependency.
pub open spec fn wants_branch(c: ChunkResult, line: u32) -> bool {
    &&& c.start_line <= line < (match c.first_local_cond_branch {
        Some(first) => first,
        None => c.end_line,
    })
    &&& line - c.start_line < c.needs_control_dep@.len()
    &&& c.needs_control_dep@[line - c.start_line]
}

/// Why chunk `c` gains an edge.
pub open spec fn gains(
    chunks: Seq<ChunkResult>,
    c: int,
    data_only: bool,
    line: u32,
    dep: u32,
) -> bool {
    let chunk = chunks[c];
    ||| exists|k: int|
        #![trigger chunk.unresolved_loads@[k]]
        0 <= k < chunk.unresolved_loads@.len() && chunk.unresolved_loads@[k].line == line
            && load_reason(chunks, c, chunk.unresolved_loads@[k], dep)
    ||| exists|k: int|
        #![trigger chunk.partial_unresolved_loads@[k]]
        0 <= k < chunk.partial_unresolved_loads@.len() && chunk.partial_unresolved_loads@[k].line
            == line && partial_reason(chunks, c, chunk.partial_unresolved_loads@[k], dep)
    ||| exists|k: int|
        #![trigger chunk.unresolved_pair_loads@[k]]
        0 <= k < chunk.unresolved_pair_loads@.len() && chunk.unresolved_pair_loads@[k].line == line
            && pair_reason(chunks, c, chunk.unresolved_pair_loads@[k], data_only, dep)
    ||| exists|k: int|
        #![trigger chunk.partial_unresolved_pair_loads@[k]]
        0 <= k < chunk.partial_unresolved_pair_loads@.len()
            && chunk.partial_unresolved_pair_loads@[k].line == line && partial_pair_reason(
            chunks,
            c,
            chunk.partial_unresolved_pair_loads@[k],
            dep,
        )
    ||| exists|k: int|
        #![trigger chunk.unresolved_reg_uses@[k]]
        0 <= k < chunk.unresolved_reg_uses@.len() && chunk.unresolved_reg_uses@[k].line == line
            && defined_before(chunks, c, chunk.unresolved_reg_uses@[k].reg) == Some(dep)
    ||| wants_branch(chunk, line) && by_branch(chunks, c, data_only, dep)
}

// ---------------------------------------------------------------------------
// What the pass knows
// ---------------------------------------------------------------------------

spec fn same_state(a: ForwardModel, b: ForwardModel) -> bool {
    a.mem == b.mem && a.slots == b.slots && a.cond == b.cond
}

proof fn lemma_loads_keep(m: ForwardModel, list: Seq<UnresolvedLoad>, n: int)
    ensures
        same_state(forward::with_loads(m, list, n), m),
    decreases n,
{
    if n > 0 {
        lemma_loads_keep(m, list, n - 1);
    }
}

proof fn lemma_pairs_keep(m: ForwardModel, list: Seq<UnresolvedPairLoad>, data_only: bool, n: int)
    ensures
        same_state(forward::with_pairs(m, list, data_only, n), m),
        forward::with_pairs(m, list, data_only, n).corrections == m.corrections,
    decreases n,
{
    if n > 0 {
        lemma_pairs_keep(m, list, data_only, n - 1);
    }
}

proof fn lemma_partial_pairs_keep(
    m: ForwardModel,
    list: Seq<PartialUnresolvedPairLoad>,
    chunk: int,
    n: int,
)
    ensures
        same_state(forward::with_partial_pairs(m, list, chunk, n), m),
        forward::with_partial_pairs(m, list, chunk, n).corrections == m.corrections,
    decreases n,
{
    if n > 0 {
        lemma_partial_pairs_keep(m, list, chunk, n - 1);
    }
}

proof fn lemma_resolved_keeps(m: ForwardModel, c: ChunkResult, chunk: int, data_only: bool)
    ensures
        same_state(forward::resolved(m, c, chunk, data_only), m),
{
    let m1 = forward::with_loads(m, c.unresolved_loads@, c.unresolved_loads@.len() as int);
    lemma_loads_keep(m, c.unresolved_loads@, c.unresolved_loads@.len() as int);
    let m2 = forward::with_partials(m1, c.partial_unresolved_loads@);
    let np = c.unresolved_pair_loads@.len() as int;
    lemma_pairs_keep(m2, c.unresolved_pair_loads@, data_only, np);
    let m3 = forward::with_pairs(m2, c.unresolved_pair_loads@, data_only, np);
    lemma_partial_pairs_keep(
        m3,
        c.partial_unresolved_pair_loads@,
        chunk,
        c.partial_unresolved_pair_loads@.len() as int,
    );
}

/// The state of the pass before a chunk is what the chunks before it say.
spec fn knows(m: ForwardModel, chunks: Seq<ChunkResult>, c: int) -> bool {
    &&& m.slots.len() == REG_COUNT
    &&& m.cond == branch_before(chunks, c)
    &&& forall|at: u64| #[trigger]
        stored_before(chunks, c, at) == (if m.mem.contains_key(at) {
            Some(m.mem[at])
        } else {
            None
        })
    &&& forall|reg: RegId| reg.valid() ==> #[trigger] defined_before(chunks, c, reg) == slot_def(
        m.slots,
        reg,
    )
}

proof fn lemma_knows(chunks: Seq<ChunkResult>, data_only: bool, c: int)
    requires
        0 <= c <= chunks.len(),
    ensures
        knows(forward(chunks, data_only, c), chunks, c),
    decreases c,
{
    let m = forward(chunks, data_only, c);
    if c > 0 {
        lemma_knows(chunks, data_only, c - 1);
        let before = forward(chunks, data_only, c - 1);
        lemma_resolved_keeps(before, chunks[c - 1], c - 1, data_only);
        let b = chunks[c - 1].boundary;
        assert(m.mem == before.mem.union_prefer_right(b.final_mem_last_def@));
        assert(m.slots == overlay_slots(before.slots, b.final_reg_last_def.slots()));
        assert forall|at: u64| #[trigger]
            stored_before(chunks, c, at) == (if m.mem.contains_key(at) {
                Some(m.mem[at])
            } else {
                None
            }) by {
            assert(stored_before(chunks, c - 1, at) == (if before.mem.contains_key(at) {
                Some(before.mem[at])
            } else {
                None
            }));
        }
        assert forall|reg: RegId| reg.valid() implies #[trigger] defined_before(chunks, c, reg)
            == slot_def(m.slots, reg) by {
            assert(defined_before(chunks, c - 1, reg) == slot_def(before.slots, reg));
        }
    }
}

// ---------------------------------------------------------------------------
// Edges
// ---------------------------------------------------------------------------

proof fn lemma_edges_from(line: u32, deps: Seq<u32>, e: Edge)
    ensures
        edges_from(line, deps).contains(e) <==> e.0 == line && deps.contains(e.1),
{
    let edges = edges_from(line, deps);
    if edges.contains(e) {
        let k = choose|k: int| 0 <= k < edges.len() && edges[k] == e;
        assert(deps[k] == e.1);
    }
    if e.0 == line && deps.contains(e.1) {
        let k = choose|k: int| 0 <= k < deps.len() && deps[k] == e.1;
        assert(edges[k] == e);
    }
}

proof fn lemma_concat_edges(a: Seq<Edge>, b: Seq<Edge>, e: Edge)
    ensures
        (a + b).contains(e) == (a.contains(e) || b.contains(e)),
{
    let all = a + b;
    if a.contains(e) {
        let w = choose|w: int| 0 <= w < a.len() && a[w] == e;
        assert(all[w] == e);
    }
    if b.contains(e) {
        let w = choose|w: int| 0 <= w < b.len() && b[w] == e;
        assert(all[a.len() + w] == e);
    }
    if all.contains(e) && !a.contains(e) {
        let w = choose|w: int| 0 <= w < all.len() && all[w] == e;
        if w < a.len() {
            assert(a[w] == e);
        }
        assert(b[w - a.len()] == e);
    }
}

proof fn lemma_range(
    m: ForwardModel,
    chunks: Seq<ChunkResult>,
    c: int,
    abs: u64,
    from: int,
    to: int,
    dep: u32,
)
    requires
        knows(m, chunks, c),
        0 <= from,
        abs + to <= u64::MAX + 1,
    ensures
        model::byte_defs(m.mem, abs, from, to).contains(dep) == range_stored(
            chunks,
            c,
            abs + from,
            abs + to,
            dep,
        ),
{
    lemma_byte_defs(m.mem, abs, from, to, dep);
    if model::byte_defs(m.mem, abs, from, to).contains(dep) {
        let at = choose|at: u64|
            abs + from <= at < abs + to && #[trigger] m.mem.contains_key(at) && m.mem[at].0 == dep;
        assert(stored_before(chunks, c, at) == Some(m.mem[at]));
    }
    if range_stored(chunks, c, abs + from, abs + to, dep) {
        let at = choose|at: u64|
            abs + from <= at < abs + to && (#[trigger] stored_before(chunks, c, at) matches Some(e)
                && e.0 == dep);
        assert(m.mem.contains_key(at));
    }
}

proof fn lemma_base(m: ForwardModel, chunks: Seq<ChunkResult>, c: int, reg: Option<RegId>, dep: u32)
    requires
        knows(m, chunks, c),
        reg matches Some(r) ==> r.valid(),
    ensures
        model::opt_reg_def(m.slots, reg).contains(dep) == base_defined(chunks, c, reg, dep),
{
    if let Some(r) = reg {
        let list = model::opt_reg_def(m.slots, reg);
        assert(defined_before(chunks, c, r) == slot_def(m.slots, r));
        if slot_def(m.slots, r) == Some(dep) {
            assert(list[0] == dep);
        }
    }
}

proof fn lemma_branch(m: ForwardModel, chunks: Seq<ChunkResult>, c: int, data_only: bool, dep: u32)
    requires
        knows(m, chunks, c),
    ensures
        model::control_def(m.cond, data_only).contains(dep) == by_branch(
            chunks,
            c,
            data_only,
            dep,
        ),
{
    let list = model::control_def(m.cond, data_only);
    if by_branch(chunks, c, data_only, dep) {
        assert(list[0] == dep);
    }
}

proof fn lemma_load_hands_on(m: ForwardModel, chunks: Seq<ChunkResult>, c: int, load: UnresolvedLoad)
    requires
        knows(m, chunks, c),
        loads::load_ok(load),
    ensures
        load_hands_on(chunks, c, load) == model::pass_through(
            m.mem,
            load.addr,
            load.width as int,
            load.load_value,
        ),
{
    let w = load.width as int;
    assert(stored_before(chunks, c, load.addr) == (if m.mem.contains_key(load.addr) {
        Some(m.mem[load.addr])
    } else {
        None
    }));
    if model::pass_through(m.mem, load.addr, w, load.load_value) {
        assert(model::byte_at(load.addr, 0) == load.addr);
        assert forall|at: u64| load.addr <= at < load.addr + load.width implies (
        #[trigger] stored_before(chunks, c, at) matches Some(e) && e.0 == (stored_before(
            chunks,
            c,
            load.addr,
        )->0).0) by {
            assert(model::byte_at(load.addr, at - load.addr) == at);
        }
    }
    if load_hands_on(chunks, c, load) {
        assert forall|o: int| 0 <= o < w implies m.mem.contains_key(
            #[trigger] model::byte_at(load.addr, o),
        ) && m.mem[model::byte_at(load.addr, o)].0 == m.mem[load.addr].0 by {
            assert(stored_before(chunks, c, model::byte_at(load.addr, o)) is Some);
        }
    }
}

proof fn lemma_load(m: ForwardModel, chunks: Seq<ChunkResult>, c: int, load: UnresolvedLoad, dep: u32)
    requires
        knows(m, chunks, c),
        loads::load_ok(load),
    ensures
        loads::load_deps(load, m.mem, m.slots).contains(dep) == load_reason(chunks, c, load, dep),
{
    let w = load.width as int;
    let bytes = model::byte_defs(m.mem, load.addr, 0, w);
    let regs = if model::pass_through(m.mem, load.addr, w, load.load_value) {
        Seq::empty()
    } else {
        model::reg_defs(m.slots, load.uses@)
    };
    lemma_concat_contains(bytes, regs, dep);
    lemma_range(m, chunks, c, load.addr, 0, w, dep);
    lemma_load_hands_on(m, chunks, c, load);
    lemma_reg_defs(m.slots, load.uses@, dep);
    assert forall|k: int| 0 <= k < load.uses@.len() implies defined_before(
        chunks,
        c,
        #[trigger] load.uses@[k],
    ) == slot_def(m.slots, load.uses@[k]) by {
        assert(load.uses@[k].valid());
    }
    if !load_hands_on(chunks, c, load) {
        if model::reg_defs(m.slots, load.uses@).contains(dep) {
            let k = choose|k: int|
                0 <= k < load.uses@.len() && slot_def(m.slots, #[trigger] load.uses@[k]) == Some(
                    dep,
                );
            assert(defined_before(chunks, c, load.uses@[k]) == Some(dep));
        }
    }
}

proof fn lemma_load_edges(
    m: ForwardModel,
    chunks: Seq<ChunkResult>,
    c: int,
    list: Seq<UnresolvedLoad>,
    n: int,
    e: Edge,
)
    requires
        knows(m, chunks, c),
        0 <= n <= list.len(),
        forall|i: int| #![trigger list[i]] 0 <= i < list.len() ==> loads::load_ok(list[i]),
    ensures
        forward::with_loads(m, list, n).edges.contains(e) <==> m.edges.contains(e) || exists|k: int|
            #![trigger list[k]]
            0 <= k < n && list[k].line == e.0 && load_reason(chunks, c, list[k], e.1),
    decreases n,
{
    if n > 0 {
        lemma_load_edges(m, chunks, c, list, n - 1, e);
        let before = forward::with_loads(m, list, n - 1);
        let load = list[n - 1];
        assert(loads::load_ok(load));
        let deps = loads::load_deps(load, m.mem, m.slots);
        lemma_concat_edges(before.edges, edges_from(load.line, deps), e);
        lemma_edges_from(load.line, deps, e);
        lemma_load(m, chunks, c, load, e.1);
    }
}

proof fn lemma_addr_defs(
    m: ForwardModel,
    chunks: Seq<ChunkResult>,
    c: int,
    addrs: Seq<u64>,
    n: int,
    dep: u32,
)
    requires
        knows(m, chunks, c),
        0 <= n <= addrs.len(),
    ensures
        loads::addr_defs(m.mem, addrs, n).contains(dep) <==> exists|k: int|
            0 <= k < n && (stored_before(chunks, c, #[trigger] addrs[k]) matches Some(e) && e.0
                == dep),
    decreases n,
{
    if n > 0 {
        lemma_addr_defs(m, chunks, c, addrs, n - 1, dep);
        let before = loads::addr_defs(m.mem, addrs, n - 1);
        let all = loads::addr_defs(m.mem, addrs, n);
        let here = stored_before(chunks, c, addrs[n - 1]);
        if before.contains(dep) {
            let w = choose|w: int| 0 <= w < before.len() && before[w] == dep;
            assert(all[w] == dep);
        }
        if here matches Some(e) && e.0 == dep {
            assert(all[all.len() - 1] == dep);
        }
        if all.contains(dep) && !before.contains(dep) {
            let w = choose|w: int| 0 <= w < all.len() && all[w] == dep;
            if w < before.len() {
                assert(before[w] == dep);
            }
            assert(here matches Some(e) && e.0 == dep);
        }
    }
}

proof fn lemma_partial_edges(
    m: ForwardModel,
    chunks: Seq<ChunkResult>,
    c: int,
    list: Seq<PartialUnresolvedLoad>,
    n: int,
    e: Edge,
)
    requires
        knows(m, chunks, c),
        0 <= n <= list.len(),
    ensures
        loads::partial_edges(list, m.mem, n).contains(e) <==> exists|k: int|
            #![trigger list[k]]
            0 <= k < n && list[k].line == e.0 && partial_reason(chunks, c, list[k], e.1),
    decreases n,
{
    if n > 0 {
        lemma_partial_edges(m, chunks, c, list, n - 1, e);
        let p = list[n - 1];
        let count = p.missing_addrs@.len() as int;
        let deps = loads::addr_defs(m.mem, p.missing_addrs@, count);
        lemma_concat_edges(
            loads::partial_edges(list, m.mem, n - 1),
            edges_from(p.line, deps),
            e,
        );
        lemma_edges_from(p.line, deps, e);
        lemma_addr_defs(m, chunks, c, p.missing_addrs@, count, e.1);
    }
}

proof fn lemma_split_range(
    m: ForwardModel,
    chunks: Seq<ChunkResult>,
    c: int,
    abs: u64,
    ew: int,
    dep: u32,
)
    requires
        0 <= ew,
    ensures
        range_stored(chunks, c, abs as int, abs + 2 * ew, dep) == (range_stored(
            chunks,
            c,
            abs as int,
            abs + ew,
            dep,
        ) || range_stored(chunks, c, abs + ew, abs + 2 * ew, dep)),
{
    if range_stored(chunks, c, abs as int, abs + 2 * ew, dep) {
        let at = choose|at: u64|
            abs <= at < abs + 2 * ew && (#[trigger] stored_before(chunks, c, at) matches Some(e)
                && e.0 == dep);
        assert(at < abs + ew || at >= abs + ew);
    }
}

proof fn lemma_pair_edges(
    m: ForwardModel,
    chunks: Seq<ChunkResult>,
    c: int,
    list: Seq<UnresolvedPairLoad>,
    data_only: bool,
    n: int,
    e: Edge,
)
    requires
        knows(m, chunks, c),
        0 <= n <= list.len(),
        forall|i: int| #![trigger list[i]] 0 <= i < list.len() ==> loads::pair_ok(list[i]),
    ensures
        forward::with_pairs(m, list, data_only, n).edges.contains(e) <==> m.edges.contains(e)
            || exists|k: int|
            #![trigger list[k]]
            0 <= k < n && list[k].line == e.0 && pair_reason(chunks, c, list[k], data_only, e.1),
    decreases n,
{
    if n > 0 {
        lemma_pair_edges(m, chunks, c, list, data_only, n - 1, e);
        let before = forward::with_pairs(m, list, data_only, n - 1);
        let pair = list[n - 1];
        assert(loads::pair_ok(pair));
        let ew = pair.elem_width as int;
        let a = model::byte_defs(m.mem, pair.addr, 0, ew);
        let b = model::byte_defs(m.mem, pair.addr, ew, 2 * ew);
        let base = model::opt_reg_def(m.slots, pair.base_reg);
        let control = model::control_def(m.cond, data_only);
        let deps = loads::pair_deps(pair, m.mem, m.slots, m.cond, data_only);
        lemma_concat_edges(before.edges, edges_from(pair.line, deps), e);
        lemma_edges_from(pair.line, deps, e);
        lemma_concat_contains(a, b, e.1);
        lemma_concat_contains(a + b, base, e.1);
        lemma_concat_contains(a + b + base, control, e.1);
        lemma_range(m, chunks, c, pair.addr, 0, ew, e.1);
        lemma_range(m, chunks, c, pair.addr, ew, 2 * ew, e.1);
        lemma_split_range(m, chunks, c, pair.addr, ew, e.1);
        lemma_base(m, chunks, c, pair.base_reg, e.1);
        lemma_branch(m, chunks, c, data_only, e.1);
    }
}

proof fn lemma_partial_pair_edges(
    m: ForwardModel,
    chunks: Seq<ChunkResult>,
    c: int,
    list: Seq<PartialUnresolvedPairLoad>,
    chunk: int,
    n: int,
    e: Edge,
)
    requires
        knows(m, chunks, c),
        0 <= n <= list.len(),
        forall|i: int| #![trigger list[i]] 0 <= i < list.len() ==> loads::partial_pair_ok(list[i]),
    ensures
        forward::with_partial_pairs(m, list, chunk, n).edges.contains(e) <==> m.edges.contains(e)
            || exists|k: int|
            #![trigger list[k]]
            0 <= k < n && list[k].line == e.0 && partial_pair_reason(chunks, c, list[k], e.1),
    decreases n,
{
    if n > 0 {
        lemma_partial_pair_edges(m, chunks, c, list, chunk, n - 1, e);
        let before = forward::with_partial_pairs(m, list, chunk, n - 1);
        let pair = list[n - 1];
        assert(loads::partial_pair_ok(pair));
        let ew = pair.elem_width as int;
        let v = loads::partial_pair_view(pair, m.mem, m.slots);
        lemma_concat_edges(
            before.edges,
            loads::partial_pair_edges(pair, m.mem, m.slots),
            e,
        );
        lemma_edges_from(pair.line, v.half1 + v.half2 + v.shared, e);
        lemma_concat_contains(v.half1, v.half2, e.1);
        lemma_concat_contains(v.half1 + v.half2, v.shared, e.1);
        lemma_range(m, chunks, c, pair.addr, 0, ew, e.1);
        lemma_range(m, chunks, c, pair.addr, ew, 2 * ew, e.1);
        lemma_base(m, chunks, c, pair.base_reg, e.1);
    }
}

proof fn lemma_use_edges(
    m: ForwardModel,
    chunks: Seq<ChunkResult>,
    c: int,
    list: Seq<UnresolvedRegUse>,
    n: int,
    e: Edge,
)
    requires
        knows(m, chunks, c),
        0 <= n <= list.len(),
        loads::uses_ok(list),
    ensures
        loads::use_edges(list, m.slots, n).contains(e) <==> exists|k: int|
            #![trigger list[k]]
            0 <= k < n && list[k].line == e.0 && defined_before(chunks, c, list[k].reg) == Some(
                e.1,
            ),
    decreases n,
{
    if n > 0 {
        lemma_use_edges(m, chunks, c, list, n - 1, e);
        let before = loads::use_edges(list, m.slots, n - 1);
        let all = loads::use_edges(list, m.slots, n);
        let u = list[n - 1];
        assert(u.reg.valid());
        assert(defined_before(chunks, c, u.reg) == slot_def(m.slots, u.reg));
        if before.contains(e) {
            let w = choose|w: int| 0 <= w < before.len() && before[w] == e;
            assert(all[w] == e);
        }
        if u.line == e.0 && slot_def(m.slots, u.reg) == Some(e.1) {
            assert(all[all.len() - 1] == e);
        }
        if all.contains(e) && !before.contains(e) {
            let w = choose|w: int| 0 <= w < all.len() && all[w] == e;
            if w < before.len() {
                assert(before[w] == e);
            }
            assert(u.line == e.0 && slot_def(m.slots, u.reg) == Some(e.1));
        }
    }
}

proof fn lemma_control_edges(start: u32, end: int, branch: u32, needs: Seq<bool>, e: Edge)
    requires
        end <= u32::MAX + 1,
    ensures
        control_edges(start, end, branch, needs).contains(e) <==> start <= e.0 < end && e.0 - start
            < needs.len() && needs[e.0 - start] && e.1 == branch | CONTROL_DEP_BIT,
    decreases end - start,
{
    if start < end {
        lemma_control_edges(start, end - 1, branch, needs, e);
        let before = control_edges(start, end - 1, branch, needs);
        let all = control_edges(start, end, branch, needs);
        let local = end - 1 - start;
        if before.contains(e) {
            let w = choose|w: int| 0 <= w < before.len() && before[w] == e;
            assert(all[w] == e);
        }
        if all.len() > before.len() {
            assert(all[all.len() - 1] == ((end - 1) as u32, branch | CONTROL_DEP_BIT));
        }
        if all.contains(e) && !before.contains(e) {
            let w = choose|w: int| 0 <= w < all.len() && all[w] == e;
            if w < before.len() {
                assert(before[w] == e);
            }
        }
    }
}

/// The lines of a chunk before its first branch that want a control dependency
/// get one on the last branch before the chunk, and no other line does.
pub proof fn law_lines_before_the_first_branch_depend_on_the_last(
    chunk_start: u32,
    first_local_cond: Option<u32>,
    prev_last_cond: Option<u32>,
    chunk_end: u32,
    needs: Seq<bool>,
    data_only: bool,
    line: u32,
    dep: u32,
)
    ensures
        chunk_control_edges(
            chunk_start,
            first_local_cond,
            prev_last_cond,
            chunk_end,
            needs,
            data_only,
        ).contains((line, dep)) <==> {
            &&& !data_only
            &&& prev_last_cond matches Some(branch) && dep == branch | CONTROL_DEP_BIT
            &&& chunk_start <= line < (match first_local_cond {
                Some(first) => first,
                None => chunk_end,
            })
            &&& line - chunk_start < needs.len()
            &&& needs[line - chunk_start]
        },
{
    if let Some(branch) = prev_last_cond {
        let end = match first_local_cond {
            Some(first) => first,
            None => chunk_end,
        };
        lemma_control_edges(chunk_start, end as int, branch, needs, (line, dep));
    }
}

proof fn lemma_resolved_edges(
    m: ForwardModel,
    chunks: Seq<ChunkResult>,
    c: int,
    data_only: bool,
    e: Edge,
)
    requires
        knows(m, chunks, c),
        0 <= c < chunks.len(),
        forward::chunk_ok(chunks[c]),
    ensures
        forward::resolved(m, chunks[c], c, data_only).edges.contains(e) <==> m.edges.contains(e)
            || gains(chunks, c, data_only, e.0, e.1),
{
    let k = chunks[c];
    let nl = k.unresolved_loads@.len() as int;
    let m1 = forward::with_loads(m, k.unresolved_loads@, nl);
    lemma_loads_keep(m, k.unresolved_loads@, nl);
    lemma_load_edges(m, chunks, c, k.unresolved_loads@, nl, e);
    let m2 = forward::with_partials(m1, k.partial_unresolved_loads@);
    let nq = k.partial_unresolved_loads@.len() as int;
    lemma_partial_edges(m1, chunks, c, k.partial_unresolved_loads@, nq, e);
    lemma_concat_edges(m1.edges, loads::partial_edges(k.partial_unresolved_loads@, m1.mem, nq), e);
    let np = k.unresolved_pair_loads@.len() as int;
    let m3 = forward::with_pairs(m2, k.unresolved_pair_loads@, data_only, np);
    lemma_pairs_keep(m2, k.unresolved_pair_loads@, data_only, np);
    lemma_pair_edges(m2, chunks, c, k.unresolved_pair_loads@, data_only, np, e);
    let nr = k.partial_unresolved_pair_loads@.len() as int;
    let m4 = forward::with_partial_pairs(m3, k.partial_unresolved_pair_loads@, c, nr);
    lemma_partial_pairs_keep(m3, k.partial_unresolved_pair_loads@, c, nr);
    lemma_partial_pair_edges(m3, chunks, c, k.partial_unresolved_pair_loads@, c, nr, e);
    let nu = k.unresolved_reg_uses@.len() as int;
    let uses = loads::use_edges(k.unresolved_reg_uses@, m4.slots, nu);
    lemma_use_edges(m4, chunks, c, k.unresolved_reg_uses@, nu, e);
    let control = chunk_control_edges(
        k.start_line,
        k.first_local_cond_branch,
        m4.cond,
        k.end_line,
        k.needs_control_dep@,
        data_only,
    );
    law_lines_before_the_first_branch_depend_on_the_last(
        k.start_line,
        k.first_local_cond_branch,
        m4.cond,
        k.end_line,
        k.needs_control_dep@,
        data_only,
        e.0,
        e.1,
    );
    lemma_concat_edges(m4.edges, uses, e);
    lemma_concat_edges(m4.edges + uses, control, e);
    assert(e == (e.0, e.1));
}

/// The merge adds exactly the edges that the chunks left open: what each open
/// load, pair and register of a chunk after the first finds in the chunks
/// before it, and the control dependencies on the last branch before the chunk.
pub proof fn law_merge_adds_what_was_left_open(
    chunks: Seq<ChunkResult>,
    data_only: bool,
    n: int,
    line: u32,
    dep: u32,
)
    requires
        0 <= n <= chunks.len(),
        forall|i: int|
            #![trigger chunks[i]]
            0 <= i < chunks.len() ==> forward::chunk_ok(chunks[i]),
    ensures
        forward(chunks, data_only, n).edges.contains((line, dep)) <==> exists|c: int|
            1 <= c < n && #[trigger] gains(chunks, c, data_only, line, dep),
    decreases n,
{
    if n > 0 {
        law_merge_adds_what_was_left_open(chunks, data_only, n - 1, line, dep);
        let before = forward(chunks, data_only, n - 1);
        if n > 1 {
            assert(forward::chunk_ok(chunks[n - 1]));
            lemma_knows(chunks, data_only, n - 1);
            lemma_resolved_edges(before, chunks, n - 1, data_only, (line, dep));
        }
    }
}

// ---------------------------------------------------------------------------
// Rows, marks, snapshots and accesses
// ---------------------------------------------------------------------------

/// The targets of a line are those of its edges.
pub proof fn law_targets_are_those_of_the_edges(edges: Seq<Edge>, line: u32, dep: u32)
    ensures
        targets_of(edges, line).contains(dep) <==> edges.contains((line, dep)),
    decreases edges.len(),
{
    if edges.len() > 0 {
        let rest = edges.drop_last();
        law_targets_are_those_of_the_edges(rest, line, dep);
        let before = targets_of(rest, line);
        let all = targets_of(edges, line);
        let last = edges.last();
        assert(edges =~= rest + seq![last]);
        lemma_concat_edges(rest, seq![last], (line, dep));
        assert(seq![last].contains((line, dep)) == (last == (line, dep))) by {
            assert(seq![last][0] == last);
        }
        if last.0 == line {
            assert(all =~= before + seq![last.1]);
            lemma_concat_contains(before, seq![last.1], dep);
            assert(seq![last.1][0] == last.1);
        }
    }
}

/// Rows before chunk `c`.
pub open spec fn rows_before(chunks: Seq<CompactDeps>, c: int) -> int
    decreases c,
{
    if c <= 0 {
        0
    } else {
        rows_before(chunks, c - 1) + chunks[c - 1]@.len()
    }
}

proof fn lemma_joined_len(chunks: Seq<CompactDeps>, starts: Seq<u32>, edges: Seq<Edge>, n: int)
    ensures
        joined_rows(chunks, starts, edges, n).len() == rows_before(chunks, n),
    decreases n,
{
    if n > 0 {
        lemma_joined_len(chunks, starts, edges, n - 1);
    }
}

/// A joined row stands where its chunk puts it, and lists what its chunk found
/// and what the merge added, each once.
pub proof fn law_joined_rows_hold_both(
    chunks: Seq<CompactDeps>,
    starts: Seq<u32>,
    edges: Seq<Edge>,
    n: int,
    c: int,
    r: int,
    dep: u32,
)
    requires
        0 <= c < n <= chunks.len(),
        chunks.len() == starts.len(),
        0 <= r < chunks[c]@.len(),
        starts[c] + chunks[c]@.len() <= u32::MAX,
    ensures
        ({
            let rows = joined_rows(chunks, starts, edges, n);
            let at = rows_before(chunks, c) + r;
            &&& rows.len() == rows_before(chunks, n)
            &&& 0 <= at < rows.len()
            &&& rows[at].contains(dep) <==> chunks[c]@[r].contains(dep) || edges.contains(
                ((starts[c] + r) as u32, dep),
            )
            &&& rows[at].no_duplicates()
        }),
    decreases n,
{
    lemma_joined_len(chunks, starts, edges, n);
    lemma_joined_len(chunks, starts, edges, n - 1);
    lemma_rows_grow(chunks, c);
    if c < n - 1 {
        law_joined_rows_hold_both(chunks, starts, edges, n - 1, c, r, dep);
    } else {
        let line = (starts[c] + r) as u32;
        let row = chunks[c]@[r];
        let more = targets_of(edges, line);
        assert(joined_chunk(chunks[c], starts[c], edges, chunks[c]@.len() as int)[r] == joined_row(
            row,
            edges,
            line,
        ));
        seqs::lemma_dedup_contains(row + more, dep);
        seqs::lemma_dedup_no_duplicates(row + more);
        lemma_concat_contains(row, more, dep);
        law_targets_are_those_of_the_edges(edges, line, dep);
    }
}

proof fn lemma_rows_grow(chunks: Seq<CompactDeps>, c: int)
    ensures
        rows_before(chunks, c) >= 0,
    decreases c,
{
    if c > 0 {
        lemma_rows_grow(chunks, c - 1);
    }
}

/// A correction of a line holds if it is the last one of the line; other lines
/// keep their marks.
pub proof fn law_the_last_correction_counts(
    flags: Seq<bool>,
    corrections: Seq<(u32, bool)>,
    n: int,
    line: u32,
    k: int,
)
    requires
        0 <= n <= corrections.len(),
        line < flags.len(),
        -1 <= k < n,
        k >= 0 ==> corrections[k].0 == line,
        forall|j: int| #![trigger corrections[j]] k < j < n ==> corrections[j].0 != line,
    ensures
        corrected(flags, corrections, n).len() == flags.len(),
        corrected(flags, corrections, n)[line as int] == (if k >= 0 {
            corrections[k].1
        } else {
            flags[line as int]
        }),
    decreases n,
{
    if n > 0 {
        if k == n - 1 {
            lemma_corrected_len(flags, corrections, n - 1);
        } else {
            assert(corrections[n - 1].0 != line);
            law_the_last_correction_counts(flags, corrections, n - 1, line, k);
        }
    }
}

proof fn lemma_corrected_len(flags: Seq<bool>, corrections: Seq<(u32, bool)>, n: int)
    ensures
        corrected(flags, corrections, n).len() == flags.len(),
    decreases n,
{
    if n > 0 {
        lemma_corrected_len(flags, corrections, n - 1);
    }
}

/// Marks before chunk `c`.
pub open spec fn marks_before(chunks: Seq<LineFlags>, c: int) -> int
    decreases c,
{
    if c <= 0 {
        0
    } else {
        marks_before(chunks, c - 1) + chunks[c - 1]@.len()
    }
}

/// The marks of a chunk stand after those of the chunks before it.
pub proof fn law_marks_follow_each_other(chunks: Seq<LineFlags>, n: int, c: int, r: int)
    requires
        0 <= c < n,
        0 <= r < chunks[c]@.len(),
    ensures
        joined_flags(chunks, n).len() == marks_before(chunks, n),
        0 <= marks_before(chunks, c),
        marks_before(chunks, c) + r < joined_flags(chunks, n).len(),
        joined_flags(chunks, n)[marks_before(chunks, c) + r] == chunks[c]@[r],
    decreases n,
{
    lemma_marks_len(chunks, n - 1);
    lemma_marks_len(chunks, c);
    if c < n - 1 {
        law_marks_follow_each_other(chunks, n - 1, c, r);
    }
}

proof fn lemma_marks_len(chunks: Seq<LineFlags>, n: int)
    ensures
        joined_flags(chunks, n).len() == marks_before(chunks, n),
        0 <= marks_before(chunks, n),
    decreases n,
{
    if n > 0 {
        lemma_marks_len(chunks, n - 1);
    }
}

/// Snapshots before chunk `c`.
pub open spec fn snapshots_before(chunks: Seq<ChunkResult>, c: int) -> int
    decreases c,
{
    if c <= 0 {
        0
    } else {
        snapshots_before(chunks, c - 1) + chunks[c - 1].reg_checkpoints@.len()
    }
}

/// A register of a snapshot keeps the value that its chunk knew; one that the
/// chunk did not know has the value at the end of the chunk before.
pub proof fn law_snapshots_are_filled_from_the_chunk_before(
    chunks: Seq<ChunkResult>,
    n: int,
    c: int,
    k: int,
    r: int,
)
    requires
        0 <= c < n <= chunks.len(),
        0 <= k < chunks[c].reg_checkpoints@.len(),
        0 <= r < chunks[c].reg_checkpoints@[k].len(),
    ensures
        ({
            let all = all_snapshots(chunks, n);
            let at = snapshots_before(chunks, c) + k;
            let own = chunks[c].reg_checkpoints@[k][r];
            &&& 0 <= at < all.len()
            &&& all[at][r] == (if own != UNKNOWN_VALUE || c == 0 {
                own
            } else {
                chunks[c - 1].boundary.final_reg_values@[r]
            })
        }),
    decreases n,
{
    lemma_snapshots_len(chunks, n - 1);
    lemma_snapshots_len(chunks, c);
    let own = chunks[c].reg_checkpoints@;
    if c < n - 1 {
        law_snapshots_are_filled_from_the_chunk_before(chunks, n - 1, c, k, r);
    } else if c > 0 {
        assert(chunk_snapshots(chunks, c)[k] == filled(
            own[k],
            chunks[c - 1].boundary.final_reg_values@,
        ));
    }
}

proof fn lemma_snapshots_len(chunks: Seq<ChunkResult>, n: int)
    ensures
        all_snapshots(chunks, n).len() == snapshots_before(chunks, n),
        0 <= snapshots_before(chunks, n),
    decreases n,
{
    if n > 0 {
        lemma_snapshots_len(chunks, n - 1);
    }
}

/// Every access of a chunk is found at its address, no other is, and accesses of
/// a later chunk come after those of an earlier one.
pub proof fn law_joined_accesses_follow_the_chunks(
    indices: Seq<MemAccessIndex>,
    n: int,
    addr: u64,
    x: MemAccessRecord,
)
    requires
        0 <= n <= indices.len(),
    ensures
        accesses_at(joined_indices(indices, n), addr).contains(x) <==> exists|c: int|
            0 <= c < n && accesses_at(#[trigger] indices[c]@, addr).contains(x),
        n > 0 ==> accesses_at(joined_indices(indices, n), addr) == accesses_at(
            joined_indices(indices, n - 1),
            addr,
        ) + accesses_at(indices[n - 1]@, addr),
    decreases n,
{
    if n > 0 {
        law_joined_accesses_follow_the_chunks(indices, n - 1, addr, x);
        let a = accesses_at(joined_indices(indices, n - 1), addr);
        let b = accesses_at(indices[n - 1]@, addr);
        let all = accesses_at(joined_indices(indices, n), addr);
        assert(all =~= a + b);
        if a.contains(x) {
            let w = choose|w: int| 0 <= w < a.len() && a[w] == x;
            assert(all[w] == x);
        }
        if b.contains(x) {
            let w = choose|w: int| 0 <= w < b.len() && b[w] == x;
            assert(all[a.len() + w] == x);
        }
        if all.contains(x) && !a.contains(x) {
            let w = choose|w: int| 0 <= w < all.len() && all[w] == x;
            if w < a.len() {
                assert(a[w] == x);
            }
            assert(b[w - a.len()] == x);
        }
    }
}

// ---------------------------------------------------------------------------
// Loads that do not read initial memory after all
// ---------------------------------------------------------------------------

/// Every byte of the range was stored before chunk `c`.
pub open spec fn range_all_stored(chunks: Seq<ChunkResult>, c: int, from: int, to: int) -> bool {
    forall|at: u64| from <= at < to ==> #[trigger] stored_before(chunks, c, at) is Some
}

/// A load at the line, open in chunk `c`, finds all its bytes in the chunks
/// before.
pub open spec fn is_settled(chunks: Seq<ChunkResult>, c: int, line: u32) -> bool {
    let chunk = chunks[c];
    ||| exists|k: int|
        #![trigger chunk.unresolved_loads@[k]]
        0 <= k < chunk.unresolved_loads@.len() && chunk.unresolved_loads@[k].line == line
            && range_all_stored(
            chunks,
            c,
            chunk.unresolved_loads@[k].addr as int,
            chunk.unresolved_loads@[k].addr + chunk.unresolved_loads@[k].width,
        )
    ||| exists|k: int|
        #![trigger chunk.partial_unresolved_loads@[k]]
        0 <= k < chunk.partial_unresolved_loads@.len() && chunk.partial_unresolved_loads@[k].line
            == line && all_found(chunks, c, chunk.partial_unresolved_loads@[k].missing_addrs@)
}

/// Every one of the bytes was stored before chunk `c`.
pub open spec fn all_found(chunks: Seq<ChunkResult>, c: int, addrs: Seq<u64>) -> bool {
    forall|j: int|
        #![trigger addrs[j]]
        0 <= j < addrs.len() ==> stored_before(chunks, c, addrs[j]) is Some
}

proof fn lemma_all_stored(m: ForwardModel, chunks: Seq<ChunkResult>, c: int, load: UnresolvedLoad)
    requires
        knows(m, chunks, c),
        loads::load_ok(load),
    ensures
        model::all_stored(m.mem, load.addr, load.width as int) == range_all_stored(
            chunks,
            c,
            load.addr as int,
            load.addr + load.width,
        ),
{
    let w = load.width as int;
    if model::all_stored(m.mem, load.addr, w) {
        assert forall|at: u64| load.addr <= at < load.addr + w implies #[trigger] stored_before(
            chunks,
            c,
            at,
        ) is Some by {
            assert(model::byte_at(load.addr, at - load.addr) == at);
        }
    }
    if range_all_stored(chunks, c, load.addr as int, load.addr + load.width) {
        assert forall|o: int| 0 <= o < w implies m.mem.contains_key(
            #[trigger] model::byte_at(load.addr, o),
        ) by {
            assert(stored_before(chunks, c, model::byte_at(load.addr, o)) is Some);
        }
    }
}

proof fn lemma_concat_marks(a: Seq<(u32, bool)>, b: Seq<(u32, bool)>, x: (u32, bool))
    ensures
        (a + b).contains(x) == (a.contains(x) || b.contains(x)),
{
    let all = a + b;
    if a.contains(x) {
        let w = choose|w: int| 0 <= w < a.len() && a[w] == x;
        assert(all[w] == x);
    }
    if b.contains(x) {
        let w = choose|w: int| 0 <= w < b.len() && b[w] == x;
        assert(all[a.len() + w] == x);
    }
    if all.contains(x) && !a.contains(x) {
        let w = choose|w: int| 0 <= w < all.len() && all[w] == x;
        if w < a.len() {
            assert(a[w] == x);
        }
        assert(b[w - a.len()] == x);
    }
}

proof fn lemma_load_marks(
    m: ForwardModel,
    chunks: Seq<ChunkResult>,
    c: int,
    list: Seq<UnresolvedLoad>,
    n: int,
    x: (u32, bool),
)
    requires
        knows(m, chunks, c),
        0 <= n <= list.len(),
        forall|i: int| #![trigger list[i]] 0 <= i < list.len() ==> loads::load_ok(list[i]),
    ensures
        forward::with_loads(m, list, n).corrections.contains(x) <==> m.corrections.contains(x)
            || !x.1 && exists|k: int|
            #![trigger list[k]]
            0 <= k < n && list[k].line == x.0 && range_all_stored(
                chunks,
                c,
                list[k].addr as int,
                list[k].addr + list[k].width,
            ),
    decreases n,
{
    if n > 0 {
        lemma_load_marks(m, chunks, c, list, n - 1, x);
        let before = forward::with_loads(m, list, n - 1);
        let load = list[n - 1];
        assert(loads::load_ok(load));
        let more = loads::load_corrections(load, m.mem);
        lemma_concat_marks(before.corrections, more, x);
        lemma_all_stored(m, chunks, c, load);
        if more.len() > 0 {
            assert(more[0] == (load.line, false));
        }
        assert(more.contains(x) <==> x == (load.line, false) && more.len() > 0);
    }
}

proof fn lemma_partial_marks(
    m: ForwardModel,
    chunks: Seq<ChunkResult>,
    c: int,
    list: Seq<PartialUnresolvedLoad>,
    n: int,
    x: (u32, bool),
)
    requires
        knows(m, chunks, c),
        0 <= n <= list.len(),
    ensures
        loads::partial_corrections(list, m.mem, n).contains(x) <==> !x.1 && exists|k: int|
            #![trigger list[k]]
            0 <= k < n && list[k].line == x.0 && all_found(chunks, c, list[k].missing_addrs@),
    decreases n,
{
    if n > 0 {
        lemma_partial_marks(m, chunks, c, list, n - 1, x);
        let before = loads::partial_corrections(list, m.mem, n - 1);
        let all = loads::partial_corrections(list, m.mem, n);
        let p = list[n - 1];
        let addrs = p.missing_addrs@;
        assert(loads::all_present(m.mem, addrs) == all_found(chunks, c, addrs)) by {
            if loads::all_present(m.mem, addrs) {
                assert forall|j: int| #![trigger addrs[j]] 0 <= j < addrs.len() implies stored_before(
                    chunks,
                    c,
                    addrs[j],
                ) is Some by {}
            }
            if all_found(chunks, c, addrs) {
                assert forall|j: int| #![trigger addrs[j]] 0 <= j < addrs.len() implies m.mem.contains_key(
                    addrs[j],
                ) by {
                    assert(stored_before(chunks, c, addrs[j]) is Some);
                }
            }
        }
        if loads::all_present(m.mem, addrs) {
            assert(all == before + seq![(p.line, false)]);
            lemma_concat_marks(before, seq![(p.line, false)], x);
            assert(seq![(p.line, false)][0] == (p.line, false));
        }
    }
}

/// The merge unmarks exactly the loads whose bytes were all stored in the chunks
/// before theirs; it marks none.
pub proof fn law_settled_loads_are_unmarked(
    chunks: Seq<ChunkResult>,
    data_only: bool,
    n: int,
    line: u32,
    mark: bool,
)
    requires
        0 <= n <= chunks.len(),
        forall|i: int|
            #![trigger chunks[i]]
            0 <= i < chunks.len() ==> forward::chunk_ok(chunks[i]),
    ensures
        forward(chunks, data_only, n).corrections.contains((line, mark)) <==> !mark && exists|c: int|
            1 <= c < n && #[trigger] is_settled(chunks, c, line),
    decreases n,
{
    if n > 0 {
        law_settled_loads_are_unmarked(chunks, data_only, n - 1, line, mark);
        let m = forward(chunks, data_only, n - 1);
        if n > 1 {
            let c = n - 1;
            let k = chunks[c];
            assert(forward::chunk_ok(k));
            lemma_knows(chunks, data_only, c);
            let nl = k.unresolved_loads@.len() as int;
            let m1 = forward::with_loads(m, k.unresolved_loads@, nl);
            lemma_loads_keep(m, k.unresolved_loads@, nl);
            lemma_load_marks(m, chunks, c, k.unresolved_loads@, nl, (line, mark));
            let m2 = forward::with_partials(m1, k.partial_unresolved_loads@);
            let nq = k.partial_unresolved_loads@.len() as int;
            lemma_partial_marks(m1, chunks, c, k.partial_unresolved_loads@, nq, (line, mark));
            lemma_concat_marks(
                m1.corrections,
                loads::partial_corrections(k.partial_unresolved_loads@, m1.mem, nq),
                (line, mark),
            );
            let np = k.unresolved_pair_loads@.len() as int;
            let m3 = forward::with_pairs(m2, k.unresolved_pair_loads@, data_only, np);
            lemma_pairs_keep(m2, k.unresolved_pair_loads@, data_only, np);
            lemma_partial_pairs_keep(
                m3,
                k.partial_unresolved_pair_loads@,
                c,
                k.partial_unresolved_pair_loads@.len() as int,
            );
            assert(forward(chunks, data_only, n).corrections == m2.corrections);
            assert(m2.corrections.contains((line, mark)) <==> m.corrections.contains((line, mark))
                || !mark && is_settled(chunks, c, line));
        }
    }
}

// ---------------------------------------------------------------------------
// Pair loads by half
// ---------------------------------------------------------------------------

/// The split lists what each half of an open pair load of chunk `c` depends on.
pub open spec fn splits_rightly(
    v: PairView,
    chunks: Seq<ChunkResult>,
    c: int,
    pair: UnresolvedPairLoad,
    data_only: bool,
) -> bool {
    let mid = pair.addr + pair.elem_width;
    &&& forall|dep: u32| #[trigger]
        v.half1.contains(dep) <==> range_stored(chunks, c, pair.addr as int, mid, dep)
    &&& forall|dep: u32| #[trigger]
        v.half2.contains(dep) <==> range_stored(chunks, c, mid, mid + pair.elem_width, dep)
    &&& forall|dep: u32| #[trigger]
        v.shared.contains(dep) <==> base_defined(chunks, c, pair.base_reg, dep) || by_branch(
            chunks,
            c,
            data_only,
            dep,
        )
}

/// An open pair load of the chunk stands at the line, and the split is its own.
pub open spec fn split_of_line(
    v: PairView,
    chunks: Seq<ChunkResult>,
    c: int,
    k: int,
    line: u32,
    data_only: bool,
) -> bool {
    let list = chunks[c].unresolved_pair_loads@;
    &&& 0 <= k < list.len()
    &&& list[k].line == line
    &&& splits_rightly(v, chunks, c, list[k], data_only)
}

proof fn lemma_split_of(
    m: ForwardModel,
    chunks: Seq<ChunkResult>,
    c: int,
    pair: UnresolvedPairLoad,
    data_only: bool,
)
    requires
        knows(m, chunks, c),
        loads::pair_ok(pair),
    ensures
        splits_rightly(
            loads::pair_split_of(pair, m.mem, m.slots, m.cond, data_only),
            chunks,
            c,
            pair,
            data_only,
        ),
{
    let v = loads::pair_split_of(pair, m.mem, m.slots, m.cond, data_only);
    let ew = pair.elem_width as int;
    let mid = pair.addr + ew;
    let base = model::opt_reg_def(m.slots, pair.base_reg);
    let control = model::control_def(m.cond, data_only);
    assert forall|dep: u32| #[trigger] v.half1.contains(dep) <==> range_stored(
        chunks,
        c,
        pair.addr as int,
        mid,
        dep,
    ) by {
        seqs::lemma_dedup_contains(model::byte_defs(m.mem, pair.addr, 0, ew), dep);
        lemma_range(m, chunks, c, pair.addr, 0, ew, dep);
    }
    assert forall|dep: u32| #[trigger] v.half2.contains(dep) <==> range_stored(
        chunks,
        c,
        mid,
        mid + ew,
        dep,
    ) by {
        seqs::lemma_dedup_contains(model::byte_defs(m.mem, pair.addr, ew, 2 * ew), dep);
        lemma_range(m, chunks, c, pair.addr, ew, 2 * ew, dep);
    }
    assert forall|dep: u32| #[trigger] v.shared.contains(dep) <==> base_defined(
        chunks,
        c,
        pair.base_reg,
        dep,
    ) || by_branch(chunks, c, data_only, dep) by {
        seqs::lemma_dedup_contains(base + control, dep);
        lemma_concat_contains(base, control, dep);
        lemma_base(m, chunks, c, pair.base_reg, dep);
        lemma_branch(m, chunks, c, data_only, dep);
    }
}

/// Some open pair load of chunks `1..n` is what the addition stands for.
spec fn has_source(
    f: (u32, PairView),
    chunks: Seq<ChunkResult>,
    data_only: bool,
    n: int,
) -> bool {
    exists|c: int, k: int|
        1 <= c < n && #[trigger] split_of_line(f.1, chunks, c, k, f.0, data_only)
}

spec fn has_fixup(m: ForwardModel, line: u32) -> bool {
    exists|j: int| #![trigger m.fixups[j]] 0 <= j < m.fixups.len() && m.fixups[j].0 == line
}

proof fn lemma_pairs_fixups(
    m: ForwardModel,
    chunks: Seq<ChunkResult>,
    c: int,
    data_only: bool,
    n: int,
)
    requires
        knows(m, chunks, c),
        1 <= c < chunks.len(),
        forward::chunk_ok(chunks[c]),
        0 <= n <= chunks[c].unresolved_pair_loads@.len(),
    ensures
        ({
            let list = chunks[c].unresolved_pair_loads@;
            let after = forward::with_pairs(m, list, data_only, n).fixups;
            &&& after.len() == m.fixups.len() + n
            &&& forall|j: int| #![trigger after[j]] 0 <= j < m.fixups.len() ==> after[j] == m.fixups[j]
            &&& forall|j: int|
                #![trigger after[j]]
                m.fixups.len() <= j < after.len() ==> split_of_line(
                    after[j].1,
                    chunks,
                    c,
                    j - m.fixups.len(),
                    after[j].0,
                    data_only,
                )
        }),
    decreases n,
{
    if n > 0 {
        lemma_pairs_fixups(m, chunks, c, data_only, n - 1);
        let pair = chunks[c].unresolved_pair_loads@[n - 1];
        assert(loads::pair_ok(pair));
        lemma_split_of(m, chunks, c, pair, data_only);
    }
}

proof fn lemma_loads_fixups(m: ForwardModel, list: Seq<UnresolvedLoad>, n: int)
    ensures
        forward::with_loads(m, list, n).fixups == m.fixups,
        forward::with_loads(m, list, n).deferred == m.deferred,
    decreases n,
{
    if n > 0 {
        lemma_loads_fixups(m, list, n - 1);
    }
}

proof fn lemma_pairs_deferred(
    m: ForwardModel,
    list: Seq<UnresolvedPairLoad>,
    data_only: bool,
    n: int,
)
    ensures
        forward::with_pairs(m, list, data_only, n).deferred == m.deferred,
    decreases n,
{
    if n > 0 {
        lemma_pairs_deferred(m, list, data_only, n - 1);
    }
}

proof fn lemma_partial_pairs_fixups(
    m: ForwardModel,
    list: Seq<PartialUnresolvedPairLoad>,
    chunk: int,
    n: int,
)
    ensures
        forward::with_partial_pairs(m, list, chunk, n).fixups == m.fixups,
    decreases n,
{
    if n > 0 {
        lemma_partial_pairs_fixups(m, list, chunk, n - 1);
    }
}

proof fn lemma_fixups(chunks: Seq<ChunkResult>, data_only: bool, n: int)
    requires
        0 <= n <= chunks.len(),
        forall|i: int|
            #![trigger chunks[i]]
            0 <= i < chunks.len() ==> forward::chunk_ok(chunks[i]),
    ensures
        ({
            let m = forward(chunks, data_only, n);
            &&& forall|j: int|
                #![trigger m.fixups[j]]
                0 <= j < m.fixups.len() ==> has_source(m.fixups[j], chunks, data_only, n)
            &&& forall|c: int, k: int|
                #![trigger chunks[c].unresolved_pair_loads@[k]]
                1 <= c < n && 0 <= k < chunks[c].unresolved_pair_loads@.len() ==> has_fixup(
                    m,
                    chunks[c].unresolved_pair_loads@[k].line,
                )
        }),
    decreases n,
{
    if n > 0 {
        lemma_fixups(chunks, data_only, n - 1);
        let before = forward(chunks, data_only, n - 1);
        let m = forward(chunks, data_only, n);
        if n > 1 {
            let c = n - 1;
            let x = chunks[c];
            assert(forward::chunk_ok(x));
            lemma_knows(chunks, data_only, c);
            let nl = x.unresolved_loads@.len() as int;
            let m1 = forward::with_loads(before, x.unresolved_loads@, nl);
            lemma_loads_keep(before, x.unresolved_loads@, nl);
            lemma_loads_fixups(before, x.unresolved_loads@, nl);
            let m2 = forward::with_partials(m1, x.partial_unresolved_loads@);
            let np = x.unresolved_pair_loads@.len() as int;
            let m3 = forward::with_pairs(m2, x.unresolved_pair_loads@, data_only, np);
            lemma_pairs_fixups(m2, chunks, c, data_only, np);
            lemma_partial_pairs_fixups(
                m3,
                x.partial_unresolved_pair_loads@,
                c,
                x.partial_unresolved_pair_loads@.len() as int,
            );
            assert(m.fixups == m3.fixups);
            assert(m2.fixups == before.fixups);
            let old_len = before.fixups.len() as int;
            assert forall|j: int| #![trigger m.fixups[j]] 0 <= j < m.fixups.len() implies has_source(
                m.fixups[j],
                chunks,
                data_only,
                n,
            ) by {
                if j < old_len {
                    assert(m.fixups[j] == before.fixups[j]);
                    assert(has_source(before.fixups[j], chunks, data_only, n - 1));
                    let (c2, k2) = choose|c2: int, k2: int|
                        1 <= c2 < n - 1 && #[trigger] split_of_line(
                            m.fixups[j].1,
                            chunks,
                            c2,
                            k2,
                            m.fixups[j].0,
                            data_only,
                        );
                    assert(split_of_line(m.fixups[j].1, chunks, c2, k2, m.fixups[j].0, data_only));
                } else {
                    assert(split_of_line(
                        m.fixups[j].1,
                        chunks,
                        c,
                        j - old_len,
                        m.fixups[j].0,
                        data_only,
                    ));
                }
            }
            assert forall|c2: int, k2: int|
                #![trigger chunks[c2].unresolved_pair_loads@[k2]]
                1 <= c2 < n && 0 <= k2 < chunks[c2].unresolved_pair_loads@.len() implies has_fixup(
                m,
                chunks[c2].unresolved_pair_loads@[k2].line,
            ) by {
                let line = chunks[c2].unresolved_pair_loads@[k2].line;
                if c2 < c {
                    assert(has_fixup(before, line));
                    let j = choose|j: int|
                        #![trigger before.fixups[j]]
                        0 <= j < before.fixups.len() && before.fixups[j].0 == line;
                    assert(m.fixups[j] == before.fixups[j]);
                } else {
                    let j = old_len + k2;
                    assert(split_of_line(m.fixups[j].1, chunks, c, k2, m.fixups[j].0, data_only));
                    assert(m.fixups[j].0 == line);
                }
            }
        }
    }
}

proof fn lemma_last_fixup(t: Map<u32, PairView>, fixups: Seq<(u32, PairView)>, n: int, line: u32)
    requires
        0 <= n <= fixups.len(),
    ensures
        (exists|j: int| #![trigger fixups[j]] 0 <= j < n && fixups[j].0 == line) ==> {
            &&& with_fixups(t, fixups, n).contains_key(line)
            &&& exists|j: int|
                #![trigger fixups[j]]
                0 <= j < n && fixups[j].0 == line && fixups[j].1 == with_fixups(t, fixups, n)[line]
        },
        !(exists|j: int| #![trigger fixups[j]] 0 <= j < n && fixups[j].0 == line) ==> {
            &&& with_fixups(t, fixups, n).contains_key(line) == t.contains_key(line)
            &&& with_fixups(t, fixups, n)[line] == t[line]
        },
    decreases n,
{
    if n > 0 {
        lemma_last_fixup(t, fixups, n - 1, line);
        let last = fixups[n - 1];
    }
}

/// The merged table splits an open pair load, the only one of its line, into
/// the sources of its first half, those of its second half, and what both share.
pub proof fn law_open_pairs_are_split(
    chunks: Seq<ChunkResult>,
    data_only: bool,
    c: int,
    k: int,
)
    requires
        forall|i: int|
            #![trigger chunks[i]]
            0 <= i < chunks.len() ==> forward::chunk_ok(chunks[i]),
        1 <= c < chunks.len(),
        0 <= k < chunks[c].unresolved_pair_loads@.len(),
        forall|c2: int, k2: int|
            #![trigger chunks[c2].unresolved_pair_loads@[k2]]
            1 <= c2 < chunks.len() && 0 <= k2 < chunks[c2].unresolved_pair_loads@.len()
                && chunks[c2].unresolved_pair_loads@[k2].line
                == chunks[c].unresolved_pair_loads@[k].line ==> c2 == c && k2 == k,
    ensures
        ({
            let pair = chunks[c].unresolved_pair_loads@[k];
            let table = merged_pairs(chunks, forward(chunks, data_only, chunks.len() as int));
            table.contains_key(pair.line) && splits_rightly(
                table[pair.line],
                chunks,
                c,
                pair,
                data_only,
            )
        }),
{
    let n = chunks.len() as int;
    let m = forward(chunks, data_only, n);
    let line = chunks[c].unresolved_pair_loads@[k].line;
    lemma_fixups(chunks, data_only, n);
    let tables = with_deferred(
        table_views(splits_of(chunks)),
        m.deferred,
        m.deferred.len() as int,
    );
    let t = joined_tables(tables, n);
    lemma_last_fixup(t, m.fixups, m.fixups.len() as int, line);
    assert(has_fixup(m, line));
    let table = with_fixups(t, m.fixups, m.fixups.len() as int);
    let j = choose|j: int|
        #![trigger m.fixups[j]]
        0 <= j < m.fixups.len() && m.fixups[j].0 == line && m.fixups[j].1 == table[line];
    assert(has_source(m.fixups[j], chunks, data_only, n));
    let (c2, k2) = choose|c2: int, k2: int|
        1 <= c2 < n && #[trigger] split_of_line(
            m.fixups[j].1,
            chunks,
            c2,
            k2,
            m.fixups[j].0,
            data_only,
        );
    assert(chunks[c2].unresolved_pair_loads@[k2].line == line);
}

proof fn lemma_extend_contains(s: Seq<u32>, more: Seq<u32>, dep: u32)
    ensures
        seqs::extend_unique(s, more).contains(dep) == (s.contains(dep) || more.contains(dep)),
    decreases more.len(),
{
    if more.len() > 0 {
        let rest = more.drop_last();
        lemma_extend_contains(s, rest, dep);
        seqs::lemma_add_unique_contains(seqs::extend_unique(s, rest), more.last(), dep);
        assert(more =~= rest + seq![more.last()]);
        lemma_concat_contains(rest, seq![more.last()], dep);
        assert(seq![more.last()][0] == more.last());
    }
}

/// What is kept for a partly open pair load joins what its chunk found, half by
/// half; other lines and chunks keep what they have.
pub proof fn law_kept_sources_join_their_half(
    tables: Seq<Map<u32, PairView>>,
    kept: Seq<DeferredView>,
    n: int,
    c: int,
    line: u32,
    dep: u32,
)
    requires
        0 <= n <= kept.len(),
        0 <= c < tables.len(),
        forall|j: int|
            #![trigger kept[j]]
            0 <= j < kept.len() ==> 0 <= kept[j].chunk < tables.len(),
    ensures
        ({
            let old = view_at(tables[c], line);
            let new = view_at(with_deferred(tables, kept, n)[c], line);
            &&& with_deferred(tables, kept, n).len() == tables.len()
            &&& new.half1.contains(dep) <==> old.half1.contains(dep) || exists|j: int|
                #![trigger kept[j]]
                0 <= j < n && kept[j].chunk == c && kept[j].line == line
                    && kept[j].extra.half1.contains(dep)
            &&& new.half2.contains(dep) <==> old.half2.contains(dep) || exists|j: int|
                #![trigger kept[j]]
                0 <= j < n && kept[j].chunk == c && kept[j].line == line
                    && kept[j].extra.half2.contains(dep)
            &&& new.shared.contains(dep) <==> old.shared.contains(dep) || exists|j: int|
                #![trigger kept[j]]
                0 <= j < n && kept[j].chunk == c && kept[j].line == line
                    && kept[j].extra.shared.contains(dep)
        }),
    decreases n,
{
    if n > 0 {
        law_kept_sources_join_their_half(tables, kept, n - 1, c, line, dep);
        let before = with_deferred(tables, kept, n - 1);
        let d = kept[n - 1];
        let v = view_at(before[c], line);
        assert(0 <= d.chunk < tables.len());
        assert(with_deferred(tables, kept, n)[c] == (if d.chunk == c {
            before[c].insert(d.line, loads::extend_split(view_at(before[c], d.line), d.extra))
        } else {
            before[c]
        }));
        if d.chunk == c && d.line == line {
            lemma_extend_contains(v.half1, d.extra.half1, dep);
            lemma_extend_contains(v.half2, d.extra.half2, dep);
            lemma_extend_contains(v.shared, d.extra.shared, dep);
        }
    }
}

/// A part of a split: the first half, the second half, or what both share.
pub open spec fn part(v: PairView, h: int) -> Seq<u32> {
    if h == 0 {
        v.half1
    } else if h == 1 {
        v.half2
    } else {
        v.shared
    }
}

/// What an open part of a pair load finds in the chunks before chunk `c`.
pub open spec fn part_reason(
    chunks: Seq<ChunkResult>,
    c: int,
    pair: PartialUnresolvedPairLoad,
    h: int,
    dep: u32,
) -> bool {
    let mid = pair.addr + pair.elem_width;
    if h == 0 {
        pair.half1_unresolved && range_stored(chunks, c, pair.addr as int, mid, dep)
    } else if h == 1 {
        pair.half2_unresolved && range_stored(chunks, c, mid, mid + pair.elem_width, dep)
    } else {
        pair.base_reg_unresolved && base_defined(chunks, c, pair.base_reg, dep)
    }
}

/// A partly open pair load of the chunk, among the first `n`, stands at the line
/// and gains the source.
pub open spec fn part_gains(
    chunks: Seq<ChunkResult>,
    c: int,
    n: int,
    line: u32,
    h: int,
    dep: u32,
) -> bool {
    exists|k: int|
        #![trigger chunks[c].partial_unresolved_pair_loads@[k]]
        0 <= k < n && chunks[c].partial_unresolved_pair_loads@[k].line == line && part_reason(
            chunks,
            c,
            chunks[c].partial_unresolved_pair_loads@[k],
            h,
            dep,
        )
}

spec fn is_kept(kept: Seq<DeferredView>, c: int, line: u32, h: int, dep: u32) -> bool {
    exists|j: int|
        #![trigger kept[j]]
        0 <= j < kept.len() && kept[j].chunk == c && kept[j].line == line && part(
            kept[j].extra,
            h,
        ).contains(dep)
}

proof fn lemma_kept_push(kept: Seq<DeferredView>, d: DeferredView, c: int, line: u32, h: int, dep: u32)
    ensures
        is_kept(kept.push(d), c, line, h, dep) <==> is_kept(kept, c, line, h, dep) || d.chunk == c
            && d.line == line && part(d.extra, h).contains(dep),
{
    let all = kept.push(d);
    if is_kept(kept, c, line, h, dep) {
        let j = choose|j: int|
            #![trigger kept[j]]
            0 <= j < kept.len() && kept[j].chunk == c && kept[j].line == line && part(
                kept[j].extra,
                h,
            ).contains(dep);
        assert(all[j] == kept[j]);
    }
    if d.chunk == c && d.line == line && part(d.extra, h).contains(dep) {
        assert(all[kept.len() as int] == d);
    }
    if is_kept(all, c, line, h, dep) {
        let j = choose|j: int|
            #![trigger all[j]]
            0 <= j < all.len() && all[j].chunk == c && all[j].line == line && part(
                all[j].extra,
                h,
            ).contains(dep);
        if j < kept.len() {
            assert(kept[j] == all[j]);
        }
    }
}

proof fn lemma_kept_list(
    m: ForwardModel,
    chunks: Seq<ChunkResult>,
    cc: int,
    n: int,
    c: int,
    line: u32,
    h: int,
    dep: u32,
)
    requires
        knows(m, chunks, cc),
        0 <= cc < chunks.len(),
        forward::chunk_ok(chunks[cc]),
        0 <= n <= chunks[cc].partial_unresolved_pair_loads@.len(),
    ensures
        is_kept(
            forward::with_partial_pairs(
                m,
                chunks[cc].partial_unresolved_pair_loads@,
                cc,
                n,
            ).deferred,
            c,
            line,
            h,
            dep,
        ) <==> is_kept(m.deferred, c, line, h, dep) || c == cc && part_gains(
            chunks,
            cc,
            n,
            line,
            h,
            dep,
        ),
    decreases n,
{
    if n > 0 {
        lemma_kept_list(m, chunks, cc, n - 1, c, line, h, dep);
        let list = chunks[cc].partial_unresolved_pair_loads@;
        let before = forward::with_partial_pairs(m, list, cc, n - 1);
        let pair = list[n - 1];
        assert(loads::partial_pair_ok(pair));
        let v = loads::partial_pair_view(pair, m.mem, m.slots);
        let extra = forward::dedup_view(v);
        let d = DeferredView { line: pair.line, chunk: cc, extra };
        let ew = pair.elem_width as int;
        seqs::lemma_dedup_contains(v.half1, dep);
        seqs::lemma_dedup_contains(v.half2, dep);
        seqs::lemma_dedup_contains(v.shared, dep);
        lemma_range(m, chunks, cc, pair.addr, 0, ew, dep);
        lemma_range(m, chunks, cc, pair.addr, ew, 2 * ew, dep);
        lemma_base(m, chunks, cc, pair.base_reg, dep);
        assert(part(extra, h).contains(dep) <==> part_reason(chunks, cc, pair, h, dep));
        lemma_kept_push(before.deferred, d, c, line, h, dep);
        if forward::no_deps(extra) {
            assert(!part(extra, h).contains(dep));
        }
        if part_gains(chunks, cc, n - 1, line, h, dep) {
            let k = choose|k: int|
                #![trigger chunks[cc].partial_unresolved_pair_loads@[k]]
                0 <= k < n - 1 && chunks[cc].partial_unresolved_pair_loads@[k].line == line
                    && part_reason(
                    chunks,
                    cc,
                    chunks[cc].partial_unresolved_pair_loads@[k],
                    h,
                    dep,
                );
            assert(part_gains(chunks, cc, n, line, h, dep));
        }
        if pair.line == line && part_reason(chunks, cc, pair, h, dep) {
            assert(chunks[cc].partial_unresolved_pair_loads@[n - 1] == pair);
            assert(part_gains(chunks, cc, n, line, h, dep));
        }
    }
}

proof fn lemma_kept(
    chunks: Seq<ChunkResult>,
    data_only: bool,
    n: int,
    c: int,
    line: u32,
    h: int,
    dep: u32,
)
    requires
        0 <= n <= chunks.len(),
        forall|i: int|
            #![trigger chunks[i]]
            0 <= i < chunks.len() ==> forward::chunk_ok(chunks[i]),
    ensures
        is_kept(forward(chunks, data_only, n).deferred, c, line, h, dep) <==> 1 <= c < n
            && part_gains(
            chunks,
            c,
            chunks[c].partial_unresolved_pair_loads@.len() as int,
            line,
            h,
            dep,
        ),
    decreases n,
{
    if n > 0 {
        lemma_kept(chunks, data_only, n - 1, c, line, h, dep);
        let m = forward(chunks, data_only, n - 1);
        if n > 1 {
            let cc = n - 1;
            let x = chunks[cc];
            assert(forward::chunk_ok(x));
            lemma_knows(chunks, data_only, cc);
            let nl = x.unresolved_loads@.len() as int;
            let m1 = forward::with_loads(m, x.unresolved_loads@, nl);
            lemma_loads_keep(m, x.unresolved_loads@, nl);
            lemma_loads_fixups(m, x.unresolved_loads@, nl);
            let m2 = forward::with_partials(m1, x.partial_unresolved_loads@);
            let np = x.unresolved_pair_loads@.len() as int;
            let m3 = forward::with_pairs(m2, x.unresolved_pair_loads@, data_only, np);
            lemma_pairs_keep(m2, x.unresolved_pair_loads@, data_only, np);
            lemma_pairs_deferred(m2, x.unresolved_pair_loads@, data_only, np);
            assert(m3.deferred == m.deferred);
            let nr = x.partial_unresolved_pair_loads@.len() as int;
            lemma_kept_list(m3, chunks, cc, nr, c, line, h, dep);
            assert(forward(chunks, data_only, n).deferred == forward::with_partial_pairs(
                m3,
                x.partial_unresolved_pair_loads@,
                cc,
                nr,
            ).deferred);
        }
    }
}

proof fn lemma_kept_chunks_list(
    m: ForwardModel,
    list: Seq<PartialUnresolvedPairLoad>,
    cc: int,
    n: int,
    top: int,
)
    requires
        0 <= cc < top,
        forall|j: int| #![trigger m.deferred[j]] 0 <= j < m.deferred.len() ==> 0 <= m.deferred[j].chunk < top,
    ensures
        ({
            let kept = forward::with_partial_pairs(m, list, cc, n).deferred;
            forall|j: int| #![trigger kept[j]] 0 <= j < kept.len() ==> 0 <= kept[j].chunk < top
        }),
    decreases n,
{
    if n > 0 {
        lemma_kept_chunks_list(m, list, cc, n - 1, top);
    }
}

proof fn lemma_kept_chunks(chunks: Seq<ChunkResult>, data_only: bool, n: int)
    requires
        0 <= n <= chunks.len(),
    ensures
        ({
            let kept = forward(chunks, data_only, n).deferred;
            forall|j: int|
                #![trigger kept[j]]
                0 <= j < kept.len() ==> 0 <= kept[j].chunk < chunks.len()
        }),
    decreases n,
{
    if n > 0 {
        lemma_kept_chunks(chunks, data_only, n - 1);
        let m = forward(chunks, data_only, n - 1);
        if n > 1 {
            let x = chunks[n - 1];
            let nl = x.unresolved_loads@.len() as int;
            let m1 = forward::with_loads(m, x.unresolved_loads@, nl);
            lemma_loads_fixups(m, x.unresolved_loads@, nl);
            let m2 = forward::with_partials(m1, x.partial_unresolved_loads@);
            let np = x.unresolved_pair_loads@.len() as int;
            let m3 = forward::with_pairs(m2, x.unresolved_pair_loads@, data_only, np);
            lemma_pairs_deferred(m2, x.unresolved_pair_loads@, data_only, np);
            let nr = x.partial_unresolved_pair_loads@.len() as int;
            assert(m3.deferred == m.deferred);
            lemma_kept_chunks_list(
                m3,
                x.partial_unresolved_pair_loads@,
                n - 1,
                nr,
                chunks.len() as int,
            );
        }
    }
}

/// In the table of its chunk, each part of a split lists what the chunk found
/// and what the open parts of the pair load find in the chunks before.
pub proof fn law_partly_open_pairs_gain_by_half(
    chunks: Seq<ChunkResult>,
    data_only: bool,
    c: int,
    line: u32,
    h: int,
    dep: u32,
)
    requires
        forall|i: int|
            #![trigger chunks[i]]
            0 <= i < chunks.len() ==> forward::chunk_ok(chunks[i]),
        0 <= c < chunks.len(),
    ensures
        ({
            let kept = forward(chunks, data_only, chunks.len() as int).deferred;
            let own = table_views(splits_of(chunks));
            let tables = with_deferred(own, kept, kept.len() as int);
            part(view_at(tables[c], line), h).contains(dep) <==> part(
                view_at(own[c], line),
                h,
            ).contains(dep) || 1 <= c && part_gains(
                chunks,
                c,
                chunks[c].partial_unresolved_pair_loads@.len() as int,
                line,
                h,
                dep,
            )
        }),
{
    let n = chunks.len() as int;
    let kept = forward(chunks, data_only, n).deferred;
    let own = table_views(splits_of(chunks));
    lemma_kept_chunks(chunks, data_only, n);
    law_kept_sources_join_their_half(own, kept, kept.len() as int, c, line, dep);
    lemma_kept(chunks, data_only, n, c, line, h, dep);
}

/// A line of one chunk has in the joined table what it has in the table of its
/// chunk.
pub proof fn law_a_line_keeps_its_split(
    tables: Seq<Map<u32, PairView>>,
    n: int,
    c: int,
    line: u32,
)
    requires
        0 <= c < n <= tables.len(),
        forall|i: int| #![trigger tables[i]] 0 <= i < n && i != c ==> !tables[i].contains_key(line),
    ensures
        joined_tables(tables, n).contains_key(line) == tables[c].contains_key(line),
        tables[c].contains_key(line) ==> joined_tables(tables, n)[line] == tables[c][line],
    decreases n,
{
    if c < n - 1 {
        law_a_line_keeps_its_split(tables, n - 1, c, line);
        assert(!tables[n - 1].contains_key(line));
    } else {
        lemma_no_table_has(tables, n - 1, line);
    }
}

proof fn lemma_no_table_has(tables: Seq<Map<u32, PairView>>, n: int, line: u32)
    requires
        0 <= n <= tables.len(),
        forall|i: int| #![trigger tables[i]] 0 <= i < n ==> !tables[i].contains_key(line),
    ensures
        !joined_tables(tables, n).contains_key(line),
    decreases n,
{
    if n > 0 {
        lemma_no_table_has(tables, n - 1, line);
        assert(!tables[n - 1].contains_key(line));
    }
}

} // verus!
