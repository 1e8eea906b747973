//! Resolving what a chunk left open against the chunks before it.

use crate::foreign;
use crate::parallel_types::{
    PartialUnresolvedLoad, PartialUnresolvedPairLoad, UnresolvedLoad, UnresolvedPairLoad,
    UnresolvedRegUse,
};
use crate::scanner::last_def::{slot_def, RegLastDef};
use crate::scanner::model;
use crate::scanner::model::{MemDefs, PairView, CONTROL_DEP_BIT};
use crate::scanner::pass1;
use crate::scanner::pass1::PairSplitDeps;
use crate::seqs;
use crate::types::RegId;
use rustc_hash::FxHashMap;
use vstd::prelude::*;

verus! {

/// An edge from a line to a line it depends on.
pub type Edge = (u32, u32);

/// Edges from one line to each of `deps`.
pub open spec fn edges_from(line: u32, deps: Seq<u32>) -> Seq<Edge> {
    deps.map_values(|dep: u32| (line, dep))
}

pub proof fn lemma_edges_concat(line: u32, a: Seq<u32>, b: Seq<u32>)
    ensures
        edges_from(line, a + b) == edges_from(line, a) + edges_from(line, b),
{
    assert(edges_from(line, a + b) =~= edges_from(line, a) + edges_from(line, b));
}

// ---------------------------------------------------------------------------
// Plain loads
// ---------------------------------------------------------------------------

/// Registers exist and the access ends within memory.
pub open spec fn load_ok(load: UnresolvedLoad) -> bool {
    &&& load.addr + load.width <= u64::MAX + 1
    &&& forall|i: int| #![trigger load.uses@[i]] 0 <= i < load.uses@.len() ==> load.uses@[i].valid()
}

/// The sources of an open load: the stores it reads from, and its registers
/// unless it hands on the value of a single store.
pub open spec fn load_deps(load: UnresolvedLoad, mem: MemDefs, slots: Seq<u32>) -> Seq<u32> {
    model::byte_defs(mem, load.addr, 0, load.width as int) + if model::pass_through(
        mem,
        load.addr,
        load.width as int,
        load.load_value,
    ) {
        Seq::empty()
    } else {
        model::reg_defs(slots, load.uses@)
    }
}

/// A load that does not read initial memory after all is unmarked.
pub open spec fn load_corrections(load: UnresolvedLoad, mem: MemDefs) -> Seq<(u32, bool)> {
    if model::all_stored(mem, load.addr, load.width as int) {
        seq![(load.line, false)]
    } else {
        Seq::empty()
    }
}

/// Appends an edge for the last store to each byte `abs + from .. abs + to`.
pub(crate) fn push_byte_edges(
    edges: &mut Vec<Edge>,
    line: u32,
    mem: &FxHashMap<u64, (u32, u64)>,
    abs: u64,
    from: u64,
    to: u64,
)
    requires
        from <= to <= 510,
        abs + to <= u64::MAX + 1,
    ensures
        final(edges)@ == old(edges)@ + edges_from(
            line,
            model::byte_defs(mem@, abs, from as int, to as int),
        ),
{
    let ghost start = edges@;
    let mut offset: u64 = from;
    while offset < to
        invariant
            from <= offset <= to <= 510,
            abs + to <= u64::MAX + 1,
            edges@ =~= start + edges_from(
                line,
                model::byte_defs(mem@, abs, from as int, offset as int),
            ),
        decreases to - offset,
    {
        if let Some(found) = foreign::fx_get(mem, &(abs + offset)) {
            edges.push((line, found.0));
        }
        offset += 1;
    }
}

/// Appends an edge for the last definition of each register.
pub(crate) fn push_reg_edges(edges: &mut Vec<Edge>, line: u32, regs: &RegLastDef, uses: &Vec<RegId>)
    requires
        forall|i: int| #![trigger uses@[i]] 0 <= i < uses@.len() ==> uses@[i].valid(),
    ensures
        final(edges)@ == old(edges)@ + edges_from(line, model::reg_defs(regs.slots(), uses@)),
{
    let ghost start = edges@;
    let mut i: usize = 0;
    assert(uses@.take(0) =~= Seq::empty());
    while i < uses.len()
        invariant
            i <= uses@.len(),
            forall|i: int| #![trigger uses@[i]] 0 <= i < uses@.len() ==> uses@[i].valid(),
            edges@ =~= start + edges_from(
                line,
                model::reg_defs(regs.slots(), uses@.take(i as int)),
            ),
        decreases uses@.len() - i,
    {
        assert(uses@.take(i + 1).drop_last() =~= uses@.take(i as int));
        let reg: RegId = uses[i];
        if let Some(def_line) = regs.get(&reg) {
            edges.push((line, *def_line));
        }
        i += 1;
    }
    assert(uses@.take(uses@.len() as int) =~= uses@);
}

/// Appends an edge for the last definition of a register that may be absent.
pub(crate) fn push_opt_reg_edge(edges: &mut Vec<Edge>, line: u32, regs: &RegLastDef, reg: Option<RegId>)
    requires
        reg matches Some(r) ==> r.valid(),
    ensures
        final(edges)@ == old(edges)@ + edges_from(line, model::opt_reg_def(regs.slots(), reg)),
{
    let ghost start = edges@;
    if let Some(r) = reg {
        if let Some(raw) = regs.get(&r) {
            edges.push((line, *raw));
        }
    }
    assert(edges@ =~= start + edges_from(line, model::opt_reg_def(regs.slots(), reg)));
}

/// Appends the control edge.
pub(crate) fn push_control_edge(edges: &mut Vec<Edge>, line: u32, last_cond: Option<u32>, data_only: bool)
    ensures
        final(edges)@ == old(edges)@ + edges_from(line, model::control_def(last_cond, data_only)),
{
    let ghost start = edges@;
    if !data_only {
        if let Some(cb) = last_cond {
            edges.push((line, cb | CONTROL_DEP_BIT));
        }
    }
    assert(edges@ =~= start + edges_from(line, model::control_def(last_cond, data_only)));
}

/// Resolves a load that found no store in its own chunk, as the scan of the
/// whole trace would have.
pub fn resolve_unresolved_load(
    load: &UnresolvedLoad,
    global_mem_last_def: &FxHashMap<u64, (u32, u64)>,
    global_reg_last_def: &RegLastDef,
    patch_edges: &mut Vec<Edge>,
    init_corrections: &mut Vec<(u32, bool)>,
)
    requires
        load_ok(*load),
    ensures
        final(patch_edges)@ == old(patch_edges)@ + edges_from(
            load.line,
            load_deps(*load, global_mem_last_def@, global_reg_last_def.slots()),
        ),
        final(init_corrections)@ == old(init_corrections)@ + load_corrections(
            *load,
            global_mem_last_def@,
        ),
{
    let ghost start = patch_edges@;
    let ghost corrections = init_corrections@;
    let width: u64 = load.width as u64;
    push_byte_edges(patch_edges, load.line, global_mem_last_def, load.addr, 0, width);
    let facts = pass1::load_facts(global_mem_last_def, load.addr, width, load.load_value);
    if !facts.1 {
        push_reg_edges(patch_edges, load.line, global_reg_last_def, &load.uses);
    }
    if facts.0 {
        init_corrections.push((load.line, false));
    }
    proof {
        let bytes = model::byte_defs(global_mem_last_def@, load.addr, 0, width as int);
        let regs = if facts.1 {
            Seq::empty()
        } else {
            model::reg_defs(global_reg_last_def.slots(), load.uses@)
        };
        lemma_edges_concat(load.line, bytes, regs);
        assert(patch_edges@ =~= start + edges_from(
            load.line,
            load_deps(*load, global_mem_last_def@, global_reg_last_def.slots()),
        ));
        assert(init_corrections@ =~= corrections + load_corrections(*load, global_mem_last_def@));
    }
}

/// Lines of the last stores to the first `n` of some addresses.
pub open spec fn addr_defs(mem: MemDefs, addrs: Seq<u64>, n: int) -> Seq<u32>
    decreases n,
{
    if n <= 0 {
        Seq::empty()
    } else {
        let before = addr_defs(mem, addrs, n - 1);
        if mem.contains_key(addrs[n - 1]) {
            before.push(mem[addrs[n - 1]].0)
        } else {
            before
        }
    }
}

pub open spec fn all_present(mem: MemDefs, addrs: Seq<u64>) -> bool {
    forall|i: int| #![trigger addrs[i]] 0 <= i < addrs.len() ==> mem.contains_key(addrs[i])
}

/// Edges that the first `n` partly open loads gain.
pub open spec fn partial_edges(partials: Seq<PartialUnresolvedLoad>, mem: MemDefs, n: int) -> Seq<
    Edge,
>
    decreases n,
{
    if n <= 0 {
        Seq::empty()
    } else {
        let p = partials[n - 1];
        partial_edges(partials, mem, n - 1) + edges_from(
            p.line,
            addr_defs(mem, p.missing_addrs@, p.missing_addrs@.len() as int),
        )
    }
}

/// Those of the first `n` partly open loads that do not read initial memory.
pub open spec fn partial_corrections(
    partials: Seq<PartialUnresolvedLoad>,
    mem: MemDefs,
    n: int,
) -> Seq<(u32, bool)>
    decreases n,
{
    if n <= 0 {
        Seq::empty()
    } else {
        let p = partials[n - 1];
        let before = partial_corrections(partials, mem, n - 1);
        if all_present(mem, p.missing_addrs@) {
            before.push((p.line, false))
        } else {
            before
        }
    }
}

/// Supplies the missing stores of partly open loads.
pub fn resolve_partial_unresolved_loads(
    partials: &Vec<PartialUnresolvedLoad>,
    global_mem_last_def: &FxHashMap<u64, (u32, u64)>,
    patch_edges: &mut Vec<Edge>,
    init_corrections: &mut Vec<(u32, bool)>,
)
    ensures
        final(patch_edges)@ == old(patch_edges)@ + partial_edges(
            partials@,
            global_mem_last_def@,
            partials@.len() as int,
        ),
        final(init_corrections)@ == old(init_corrections)@ + partial_corrections(
            partials@,
            global_mem_last_def@,
            partials@.len() as int,
        ),
{
    let ghost start = patch_edges@;
    let ghost corrections = init_corrections@;
    let ghost mem = global_mem_last_def@;
    let mut i: usize = 0;
    while i < partials.len()
        invariant
            i <= partials@.len(),
            mem == global_mem_last_def@,
            patch_edges@ =~= start + partial_edges(partials@, mem, i as int),
            init_corrections@ =~= corrections + partial_corrections(partials@, mem, i as int),
        decreases partials@.len() - i,
    {
        let partial = &partials[i];
        let ghost addrs = partial.missing_addrs@;
        let ghost before = patch_edges@;
        let mut all_found: bool = true;
        let mut k: usize = 0;
        while k < partial.missing_addrs.len()
            invariant
                k <= addrs.len(),
                addrs == partial.missing_addrs@,
                mem == global_mem_last_def@,
                patch_edges@ =~= before + edges_from(partial.line, addr_defs(mem, addrs, k as int)),
                all_found == (forall|j: int|
                    #![trigger addrs[j]]
                    0 <= j < k ==> mem.contains_key(addrs[j])),
            decreases addrs.len() - k,
        {
            let addr: u64 = partial.missing_addrs[k];
            match foreign::fx_get(global_mem_last_def, &addr) {
                Some(found) => {
                    patch_edges.push((partial.line, found.0));
                },
                None => {
                    assert(!mem.contains_key(addrs[k as int]));
                    all_found = false;
                },
            }
            k += 1;
        }
        if all_found {
            init_corrections.push((partial.line, false));
        }
        assert(all_found == all_present(mem, addrs));
        i += 1;
    }
}

// ---------------------------------------------------------------------------
// Pair loads
// ---------------------------------------------------------------------------

pub open spec fn pair_ok(pair: UnresolvedPairLoad) -> bool {
    &&& pair.addr + 2 * pair.elem_width <= u64::MAX + 1
    &&& pair.base_reg matches Some(base) ==> base.valid()
}

/// The dependencies of an open pair load, by half.
pub open spec fn pair_split_of(
    pair: UnresolvedPairLoad,
    mem: MemDefs,
    slots: Seq<u32>,
    last_cond: Option<u32>,
    data_only: bool,
) -> PairView {
    let ew = pair.elem_width as int;
    PairView {
        shared: seqs::dedup(
            model::opt_reg_def(slots, pair.base_reg) + model::control_def(last_cond, data_only),
        ),
        half1: seqs::dedup(model::byte_defs(mem, pair.addr, 0, ew)),
        half2: seqs::dedup(model::byte_defs(mem, pair.addr, ew, 2 * ew)),
    }
}

/// The sources of an open pair load in the order in which they are found.
pub open spec fn pair_deps(
    pair: UnresolvedPairLoad,
    mem: MemDefs,
    slots: Seq<u32>,
    last_cond: Option<u32>,
    data_only: bool,
) -> Seq<u32> {
    let ew = pair.elem_width as int;
    model::byte_defs(mem, pair.addr, 0, ew) + model::byte_defs(mem, pair.addr, ew, 2 * ew)
        + model::opt_reg_def(slots, pair.base_reg) + model::control_def(last_cond, data_only)
}

/// Resolves a pair load that found no store in its own chunk.
pub fn resolve_unresolved_pair_load(
    pair: &UnresolvedPairLoad,
    global_mem_last_def: &FxHashMap<u64, (u32, u64)>,
    global_reg_last_def: &RegLastDef,
    global_last_cond_branch: Option<u32>,
    data_only: bool,
) -> (r: (PairSplitDeps, Vec<Edge>))
    requires
        pair_ok(*pair),
    ensures
        r.0@ == pair_split_of(
            *pair,
            global_mem_last_def@,
            global_reg_last_def.slots(),
            global_last_cond_branch,
            data_only,
        ),
        r.1@ == edges_from(
            pair.line,
            pair_deps(
                *pair,
                global_mem_last_def@,
                global_reg_last_def.slots(),
                global_last_cond_branch,
                data_only,
            ),
        ),
{
    let mut split = PairSplitDeps::default();
    let mut edges: Vec<Edge> = Vec::new();
    let ew: u64 = pair.elem_width as u64;
    pass1::add_byte_defs(&mut split.half1_deps, global_mem_last_def, pair.addr, 0, ew);
    push_byte_edges(&mut edges, pair.line, global_mem_last_def, pair.addr, 0, ew);
    pass1::add_byte_defs(&mut split.half2_deps, global_mem_last_def, pair.addr, ew, 2 * ew);
    push_byte_edges(&mut edges, pair.line, global_mem_last_def, pair.addr, ew, 2 * ew);
    pass1::add_reg_def(&mut split.shared, global_reg_last_def, pair.base_reg);
    push_opt_reg_edge(&mut edges, pair.line, global_reg_last_def, pair.base_reg);
    pass1::add_control_def(&mut split.shared, global_last_cond_branch, data_only);
    push_control_edge(&mut edges, pair.line, global_last_cond_branch, data_only);
    proof {
        let mem = global_mem_last_def@;
        let a = model::byte_defs(mem, pair.addr, 0, ew as int);
        let b = model::byte_defs(mem, pair.addr, ew as int, 2 * ew as int);
        let c = model::opt_reg_def(global_reg_last_def.slots(), pair.base_reg);
        let d = model::control_def(global_last_cond_branch, data_only);
        seqs::lemma_extend_empty(a);
        seqs::lemma_extend_empty(b);
        seqs::lemma_extend_empty(c);
        seqs::lemma_dedup_concat(c, d);
        lemma_edges_concat(pair.line, a, b);
        lemma_edges_concat(pair.line, a + b, c);
        lemma_edges_concat(pair.line, a + b + c, d);
        assert(edges@ =~= edges_from(pair.line, a + b + c + d));
    }
    (split, edges)
}

pub open spec fn partial_pair_ok(partial: PartialUnresolvedPairLoad) -> bool {
    &&& partial.addr + 2 * partial.elem_width <= u64::MAX + 1
    &&& partial.base_reg matches Some(base) ==> base.valid()
}

/// What the open parts of a pair load depend on, by half, repetitions kept.
pub open spec fn partial_pair_view(
    partial: PartialUnresolvedPairLoad,
    mem: MemDefs,
    slots: Seq<u32>,
) -> PairView {
    let ew = partial.elem_width as int;
    PairView {
        shared: if partial.base_reg_unresolved {
            model::opt_reg_def(slots, partial.base_reg)
        } else {
            Seq::empty()
        },
        half1: if partial.half1_unresolved {
            model::byte_defs(mem, partial.addr, 0, ew)
        } else {
            Seq::empty()
        },
        half2: if partial.half2_unresolved {
            model::byte_defs(mem, partial.addr, ew, 2 * ew)
        } else {
            Seq::empty()
        },
    }
}

/// Edges of the open parts of a pair load.
pub open spec fn partial_pair_edges(
    partial: PartialUnresolvedPairLoad,
    mem: MemDefs,
    slots: Seq<u32>,
) -> Seq<Edge> {
    let v = partial_pair_view(partial, mem, slots);
    edges_from(partial.line, v.half1 + v.half2 + v.shared)
}

/// A split extended by more dependencies per half.
pub open spec fn extend_split(split: PairView, more: PairView) -> PairView {
    PairView {
        shared: seqs::extend_unique(split.shared, more.shared),
        half1: seqs::extend_unique(split.half1, more.half1),
        half2: seqs::extend_unique(split.half2, more.half2),
    }
}

pub open spec fn empty_split() -> PairView {
    PairView { shared: Seq::empty(), half1: Seq::empty(), half2: Seq::empty() }
}

/// The split stored for a line, empty if there is none.
pub open spec fn split_at(splits: Map<u32, PairSplitDeps>, line: u32) -> PairView {
    if splits.contains_key(line) {
        splits[line]@
    } else {
        empty_split()
    }
}

/// Adds the dependencies of the open parts of a pair load to a split, and
/// their edges to `patch_edges`.
pub(crate) fn extend_partial_pair(
    partial: &PartialUnresolvedPairLoad,
    global_mem_last_def: &FxHashMap<u64, (u32, u64)>,
    global_reg_last_def: &RegLastDef,
    split: &mut PairSplitDeps,
    patch_edges: &mut Vec<Edge>,
)
    requires
        partial_pair_ok(*partial),
    ensures
        final(split)@ == extend_split(
            old(split)@,
            partial_pair_view(*partial, global_mem_last_def@, global_reg_last_def.slots()),
        ),
        final(patch_edges)@ == old(patch_edges)@ + partial_pair_edges(
            *partial,
            global_mem_last_def@,
            global_reg_last_def.slots(),
        ),
{
    let ghost start = patch_edges@;
    let ghost v = partial_pair_view(*partial, global_mem_last_def@, global_reg_last_def.slots());
    let ew: u64 = partial.elem_width as u64;
    if partial.half1_unresolved {
        pass1::add_byte_defs(&mut split.half1_deps, global_mem_last_def, partial.addr, 0, ew);
        push_byte_edges(patch_edges, partial.line, global_mem_last_def, partial.addr, 0, ew);
    }
    assert(patch_edges@ =~= start + edges_from(partial.line, v.half1));
    if partial.half2_unresolved {
        pass1::add_byte_defs(&mut split.half2_deps, global_mem_last_def, partial.addr, ew, 2 * ew);
        push_byte_edges(patch_edges, partial.line, global_mem_last_def, partial.addr, ew, 2 * ew);
    }
    proof {
        lemma_edges_concat(partial.line, v.half1, v.half2);
        lemma_edges_concat(partial.line, v.half1 + v.half2, v.shared);
    }
    assert(patch_edges@ =~= start + edges_from(partial.line, v.half1 + v.half2));
    if partial.base_reg_unresolved {
        pass1::add_reg_def(&mut split.shared, global_reg_last_def, partial.base_reg);
        push_opt_reg_edge(patch_edges, partial.line, global_reg_last_def, partial.base_reg);
    }
    assert(patch_edges@ =~= start + edges_from(partial.line, v.half1 + v.half2 + v.shared));
}

/// Supplies the open parts of a pair load in the table of splits.
pub fn resolve_partial_pair_load(
    partial: &PartialUnresolvedPairLoad,
    global_mem_last_def: &FxHashMap<u64, (u32, u64)>,
    global_reg_last_def: &RegLastDef,
    pair_split: &mut FxHashMap<u32, PairSplitDeps>,
    patch_edges: &mut Vec<Edge>,
)
    requires
        partial_pair_ok(*partial),
    ensures
        final(pair_split)@.dom() == old(pair_split)@.dom().insert(partial.line),
        forall|line: u32| #[trigger]
            final(pair_split)@.contains_key(line) && line != partial.line ==>
                final(pair_split)@[line] == old(pair_split)@[line],
        final(pair_split)@[partial.line]@ == extend_split(
            split_at(old(pair_split)@, partial.line),
            partial_pair_view(*partial, global_mem_last_def@, global_reg_last_def.slots()),
        ),
        final(patch_edges)@ == old(patch_edges)@ + partial_pair_edges(
            *partial,
            global_mem_last_def@,
            global_reg_last_def.slots(),
        ),
{
    let mut split = match foreign::fx_remove(pair_split, &partial.line) {
        Some(split) => split,
        None => PairSplitDeps::default(),
    };
    extend_partial_pair(
        partial,
        global_mem_last_def,
        global_reg_last_def,
        &mut split,
        patch_edges,
    );
    foreign::fx_insert(pair_split, partial.line, split);
}

// ---------------------------------------------------------------------------
// Register uses
// ---------------------------------------------------------------------------

/// Edges of the first `n` open register reads.
pub open spec fn use_edges(uses: Seq<UnresolvedRegUse>, slots: Seq<u32>, n: int) -> Seq<Edge>
    decreases n,
{
    if n <= 0 {
        Seq::empty()
    } else {
        let before = use_edges(uses, slots, n - 1);
        match slot_def(slots, uses[n - 1].reg) {
            Some(line) => before.push((uses[n - 1].line, line)),
            None => before,
        }
    }
}

pub open spec fn uses_ok(uses: Seq<UnresolvedRegUse>) -> bool {
    forall|i: int| #![trigger uses[i]] 0 <= i < uses.len() ==> uses[i].reg.valid()
}

/// Resolves register reads without a definition in their own chunk.
pub fn resolve_unresolved_reg_uses(
    uses: &Vec<UnresolvedRegUse>,
    global_reg_last_def: &RegLastDef,
) -> (patch_edges: Vec<Edge>)
    requires
        uses_ok(uses@),
    ensures
        patch_edges@ == use_edges(uses@, global_reg_last_def.slots(), uses@.len() as int),
{
    let mut patch_edges: Vec<Edge> = Vec::new();
    let mut i: usize = 0;
    while i < uses.len()
        invariant
            i <= uses@.len(),
            uses_ok(uses@),
            patch_edges@ == use_edges(uses@, global_reg_last_def.slots(), i as int),
        decreases uses@.len() - i,
    {
        let u = uses[i];
        assert(uses@[i as int].reg.valid());
        if let Some(def_line) = global_reg_last_def.get(&u.reg) {
            patch_edges.push((u.line, *def_line));
        }
        i += 1;
    }
    patch_edges
}

} // verus!
