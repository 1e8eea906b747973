//! The pass over the chunks that resolves what each left open.

use crate::foreign;
use crate::foreign::LineFlags;
use crate::line_index::LineIndex;
use crate::merge::deps::{chunk_control_edges, resolve_control_deps};
use crate::merge::loads;
use crate::merge::loads::Edge;
use crate::parallel_types::{
    CallTreeEvent, GumtraceAnnotEvent, PartialUnresolvedLoad, PartialUnresolvedPairLoad,
    UnresolvedLoad, UnresolvedPairLoad, UnresolvedRegUse,
};
use crate::query::mem_access::MemAccessIndex;
use crate::query::registers::RegCheckpoints;
use crate::query::strings::StringAccess;
use crate::scanner::deps::CompactDeps;
use crate::scanner::last_def::{overlay_slots, RegLastDef};
use crate::scanner::model::{MemDefs, PairView};
use crate::scanner::pass1::PairSplitDeps;
use crate::seqs;
use crate::types::REG_COUNT;
use rustc_hash::FxHashMap;
use vstd::prelude::*;

verus! {

/// What is known at the end of a chunk.
pub struct ChunkBoundary {
    pub final_mem_last_def: FxHashMap<u64, (u32, u64)>,
    pub final_reg_last_def: RegLastDef,
    pub final_last_cond_branch: Option<u32>,
    pub final_parsed_count: u32,
    pub final_mem_op_count: u32,
    pub final_reg_values: [u64; REG_COUNT],
}

/// The scan of one chunk.
pub struct ChunkResult {
    pub start_line: u32,
    pub end_line: u32,
    pub deps: CompactDeps,
    pub init_mem_loads: LineFlags,
    pub pair_split: FxHashMap<u32, PairSplitDeps>,
    pub boundary: ChunkBoundary,
    pub unresolved_loads: Vec<UnresolvedLoad>,
    pub partial_unresolved_loads: Vec<PartialUnresolvedLoad>,
    pub unresolved_pair_loads: Vec<UnresolvedPairLoad>,
    pub partial_unresolved_pair_loads: Vec<PartialUnresolvedPairLoad>,
    pub unresolved_reg_uses: Vec<UnresolvedRegUse>,
    pub first_local_cond_branch: Option<u32>,
    /// Lines that want a control dependency.
    pub needs_control_dep: LineFlags,
    pub call_tree_events: Vec<CallTreeEvent>,
    pub gumtrace_annot_events: Vec<GumtraceAnnotEvent>,
    pub reg_checkpoints: RegCheckpoints,
    pub line_index: LineIndex,
    pub mem_access_index: MemAccessIndex,
    pub string_accesses: Vec<StringAccess>,
    pub consumed_seqs: Vec<u32>,
}

/// Dependencies that a pair load of an earlier-scanned chunk still gains.
pub struct DeferredPairDep {
    pub line: u32,
    pub chunk_idx: usize,
    pub extra: PairSplitDeps,
}

/// [`DeferredPairDep`] as a mathematical value.
pub struct DeferredView {
    pub line: u32,
    pub chunk: int,
    pub extra: PairView,
}

impl View for DeferredPairDep {
    type V = DeferredView;

    open spec fn view(&self) -> DeferredView {
        DeferredView { line: self.line, chunk: self.chunk_idx as int, extra: self.extra@ }
    }
}

/// What the pass has found after some chunks.
#[verifier::ext_equal]
pub struct ForwardModel {
    pub edges: Seq<Edge>,
    pub fixups: Seq<(u32, PairView)>,
    pub corrections: Seq<(u32, bool)>,
    pub deferred: Seq<DeferredView>,
    pub mem: MemDefs,
    pub slots: Seq<u32>,
    pub cond: Option<u32>,
}

/// [`ForwardModel`] in the making.
pub struct Forward {
    pub edges: Vec<Edge>,
    pub fixups: Vec<(u32, PairSplitDeps)>,
    pub corrections: Vec<(u32, bool)>,
    pub deferred: Vec<DeferredPairDep>,
    pub mem: FxHashMap<u64, (u32, u64)>,
    pub regs: RegLastDef,
    pub cond: Option<u32>,
}

pub open spec fn fixup_views(fixups: Seq<(u32, PairSplitDeps)>) -> Seq<(u32, PairView)> {
    fixups.map_values(|f: (u32, PairSplitDeps)| (f.0, f.1@))
}

pub open spec fn deferred_views(deferred: Seq<DeferredPairDep>) -> Seq<DeferredView> {
    deferred.map_values(|d: DeferredPairDep| d@)
}

impl View for Forward {
    type V = ForwardModel;

    open spec fn view(&self) -> ForwardModel {
        ForwardModel {
            edges: self.edges@,
            fixups: fixup_views(self.fixups@),
            corrections: self.corrections@,
            deferred: deferred_views(self.deferred@),
            mem: self.mem@,
            slots: self.regs.slots(),
            cond: self.cond,
        }
    }
}

// ---------------------------------------------------------------------------
// What the lists of a chunk contribute
// ---------------------------------------------------------------------------

/// The first `n` open loads resolved.
pub open spec fn with_loads(m: ForwardModel, list: Seq<UnresolvedLoad>, n: int) -> ForwardModel
    decreases n,
{
    if n <= 0 {
        m
    } else {
        let before = with_loads(m, list, n - 1);
        let load = list[n - 1];
        ForwardModel {
            edges: before.edges + loads::edges_from(
                load.line,
                loads::load_deps(load, m.mem, m.slots),
            ),
            corrections: before.corrections + loads::load_corrections(load, m.mem),
            ..before
        }
    }
}

pub open spec fn with_partials(m: ForwardModel, list: Seq<PartialUnresolvedLoad>) -> ForwardModel {
    ForwardModel {
        edges: m.edges + loads::partial_edges(list, m.mem, list.len() as int),
        corrections: m.corrections + loads::partial_corrections(list, m.mem, list.len() as int),
        ..m
    }
}

/// The first `n` open pair loads resolved.
pub open spec fn with_pairs(
    m: ForwardModel,
    list: Seq<UnresolvedPairLoad>,
    data_only: bool,
    n: int,
) -> ForwardModel
    decreases n,
{
    if n <= 0 {
        m
    } else {
        let before = with_pairs(m, list, data_only, n - 1);
        let pair = list[n - 1];
        ForwardModel {
            edges: before.edges + loads::edges_from(
                pair.line,
                loads::pair_deps(pair, m.mem, m.slots, m.cond, data_only),
            ),
            fixups: before.fixups.push(
                (pair.line, loads::pair_split_of(pair, m.mem, m.slots, m.cond, data_only)),
            ),
            ..before
        }
    }
}

/// The list is repetition-free.
pub open spec fn dedup_view(v: PairView) -> PairView {
    PairView {
        shared: seqs::dedup(v.shared),
        half1: seqs::dedup(v.half1),
        half2: seqs::dedup(v.half2),
    }
}

pub open spec fn no_deps(v: PairView) -> bool {
    v.shared.len() == 0 && v.half1.len() == 0 && v.half2.len() == 0
}

/// The first `n` partly open pair loads resolved; what they gain is kept for
/// later.
pub open spec fn with_partial_pairs(
    m: ForwardModel,
    list: Seq<PartialUnresolvedPairLoad>,
    chunk: int,
    n: int,
) -> ForwardModel
    decreases n,
{
    if n <= 0 {
        m
    } else {
        let before = with_partial_pairs(m, list, chunk, n - 1);
        let partial = list[n - 1];
        let extra = dedup_view(loads::partial_pair_view(partial, m.mem, m.slots));
        ForwardModel {
            edges: before.edges + loads::partial_pair_edges(partial, m.mem, m.slots),
            deferred: if no_deps(extra) {
                before.deferred
            } else {
                before.deferred.push(DeferredView { line: partial.line, chunk, extra })
            },
            ..before
        }
    }
}

/// Everything that a chunk left open, resolved against the chunks before it.
pub open spec fn resolved(m: ForwardModel, c: ChunkResult, chunk: int, data_only: bool) -> ForwardModel {
    let m1 = with_loads(m, c.unresolved_loads@, c.unresolved_loads@.len() as int);
    let m2 = with_partials(m1, c.partial_unresolved_loads@);
    let m3 = with_pairs(
        m2,
        c.unresolved_pair_loads@,
        data_only,
        c.unresolved_pair_loads@.len() as int,
    );
    let m4 = with_partial_pairs(
        m3,
        c.partial_unresolved_pair_loads@,
        chunk,
        c.partial_unresolved_pair_loads@.len() as int,
    );
    ForwardModel {
        edges: m4.edges + loads::use_edges(
            c.unresolved_reg_uses@,
            m4.slots,
            c.unresolved_reg_uses@.len() as int,
        ) + chunk_control_edges(
            c.start_line,
            c.first_local_cond_branch,
            m4.cond,
            c.end_line,
            c.needs_control_dep@,
            data_only,
        ),
        ..m4
    }
}

/// What is known once a chunk is over: its own definitions win.
pub open spec fn passed(m: ForwardModel, b: ChunkBoundary) -> ForwardModel {
    ForwardModel {
        mem: m.mem.union_prefer_right(b.final_mem_last_def@),
        slots: overlay_slots(m.slots, b.final_reg_last_def.slots()),
        cond: if b.final_last_cond_branch is Some {
            b.final_last_cond_branch
        } else {
            m.cond
        },
        ..m
    }
}

pub open spec fn forward_start() -> ForwardModel {
    ForwardModel {
        edges: Seq::empty(),
        fixups: Seq::empty(),
        corrections: Seq::empty(),
        deferred: Seq::empty(),
        mem: Map::empty(),
        slots: Seq::new(REG_COUNT as nat, |i: int| crate::scanner::last_def::NO_DEF),
        cond: None,
    }
}

/// The pass after the first `n` chunks. Nothing precedes the first chunk.
pub open spec fn forward(chunks: Seq<ChunkResult>, data_only: bool, n: int) -> ForwardModel
    decreases n,
{
    if n <= 0 {
        forward_start()
    } else {
        let before = forward(chunks, data_only, n - 1);
        let c = chunks[n - 1];
        passed(
            if n == 1 {
                before
            } else {
                resolved(before, c, n - 1, data_only)
            },
            c.boundary,
        )
    }
}

/// Registers exist and accesses end within memory.
pub open spec fn chunk_ok(c: ChunkResult) -> bool {
    &&& c.deps.wf()
    &&& forall|i: int|
        #![trigger c.unresolved_loads@[i]]
        0 <= i < c.unresolved_loads@.len() ==> loads::load_ok(c.unresolved_loads@[i])
    &&& forall|i: int|
        #![trigger c.unresolved_pair_loads@[i]]
        0 <= i < c.unresolved_pair_loads@.len() ==> loads::pair_ok(c.unresolved_pair_loads@[i])
    &&& forall|i: int|
        #![trigger c.partial_unresolved_pair_loads@[i]]
        0 <= i < c.partial_unresolved_pair_loads@.len() ==> loads::partial_pair_ok(
            c.partial_unresolved_pair_loads@[i],
        )
    &&& loads::uses_ok(c.unresolved_reg_uses@)
}

// ---------------------------------------------------------------------------
// The pass
// ---------------------------------------------------------------------------

/// Copies the entries of `later` over those of `mem`.
fn overlay_mem(mem: &mut FxHashMap<u64, (u32, u64)>, later: &FxHashMap<u64, (u32, u64)>)
    ensures
        final(mem)@ == old(mem)@.union_prefer_right(later@),
{
    let ghost start = mem@;
    let keys = foreign::fx_keys(later);
    let mut i: usize = 0;
    while i < keys.len()
        invariant
            i <= keys@.len(),
            foreign::lists_keys(keys@, later@),
            forall|k: u64| #[trigger]
                mem@.contains_key(k) <==> start.contains_key(k) || seen(keys@, i as int, k),
            forall|k: u64| #[trigger]
                mem@.contains_key(k) ==> mem@[k] == if seen(keys@, i as int, k) {
                    later@[k]
                } else {
                    start[k]
                },
        decreases keys@.len() - i,
    {
        let key: u64 = keys[i];
        assert(later@.contains_key(keys@[i as int]));
        if let Some(entry) = foreign::fx_get(later, &key) {
            foreign::fx_insert(mem, key, *entry);
        }
        assert forall|k: u64| seen(keys@, i + 1, k) == (seen(keys@, i as int, k) || k == key) by {
            if seen(keys@, i + 1, k) && k != key {
                let j = choose|j: int| #![trigger keys@[j]] 0 <= j < i + 1 && keys@[j] == k;
                assert(j < i);
            }
            if k == key {
                assert(keys@[i as int] == k);
            }
        }
        i += 1;
    }
    proof {
        let want = start.union_prefer_right(later@);
        assert forall|k: u64| seen(keys@, keys@.len() as int, k) == later@.contains_key(k) by {
            if seen(keys@, keys@.len() as int, k) {
                let j = choose|j: int| #![trigger keys@[j]] 0 <= j < keys@.len() && keys@[j] == k;
                assert(later@.contains_key(keys@[j]));
            }
        }
        assert forall|k: u64| #[trigger] want.contains_key(k) == mem@.contains_key(k) by {
            assert(seen(keys@, keys@.len() as int, k) == later@.contains_key(k));
        }
        assert forall|k: u64| #[trigger] want.contains_key(k) implies mem@[k] == want[k] by {
            assert(seen(keys@, keys@.len() as int, k) == later@.contains_key(k));
            assert(mem@.contains_key(k));
        }
        assert(mem@ =~= want);
    }
}

/// The key is among the first `n`.
spec fn seen(keys: Seq<u64>, n: int, key: u64) -> bool {
    exists|j: int| #![trigger keys[j]] 0 <= j < n && keys[j] == key
}

impl Forward {
    pub fn new() -> (f: Self)
        ensures
            f@ == forward_start(),
    {
        let f = Forward {
            edges: Vec::new(),
            fixups: Vec::new(),
            corrections: Vec::new(),
            deferred: Vec::new(),
            mem: FxHashMap::default(),
            regs: RegLastDef::new(),
            cond: None,
        };
        assert(f@ =~= forward_start());
        f
    }

    fn resolve_loads(&mut self, list: &Vec<UnresolvedLoad>)
        requires
            forall|i: int| #![trigger list@[i]] 0 <= i < list@.len() ==> loads::load_ok(list@[i]),
        ensures
            final(self)@ == with_loads(old(self)@, list@, list@.len() as int),
    {
        let ghost m = self@;
        let mut i: usize = 0;
        while i < list.len()
            invariant
                i <= list@.len(),
                forall|i: int|
                    #![trigger list@[i]]
                    0 <= i < list@.len() ==> loads::load_ok(list@[i]),
                self@ == with_loads(m, list@, i as int),
                self@.mem == m.mem,
                self@.slots == m.slots,
            decreases list@.len() - i,
        {
            assert(loads::load_ok(list@[i as int]));
            loads::resolve_unresolved_load(
                &list[i],
                &self.mem,
                &self.regs,
                &mut self.edges,
                &mut self.corrections,
            );
            assert(self@ =~= with_loads(m, list@, i + 1));
            i += 1;
        }
    }

    fn resolve_pairs(&mut self, list: &Vec<UnresolvedPairLoad>, data_only: bool)
        requires
            forall|i: int| #![trigger list@[i]] 0 <= i < list@.len() ==> loads::pair_ok(list@[i]),
        ensures
            final(self)@ == with_pairs(old(self)@, list@, data_only, list@.len() as int),
    {
        let ghost m = self@;
        let mut i: usize = 0;
        while i < list.len()
            invariant
                i <= list@.len(),
                forall|i: int|
                    #![trigger list@[i]]
                    0 <= i < list@.len() ==> loads::pair_ok(list@[i]),
                self@ == with_pairs(m, list@, data_only, i as int),
                self@.mem == m.mem,
                self@.slots == m.slots,
                self@.cond == m.cond,
            decreases list@.len() - i,
        {
            assert(loads::pair_ok(list@[i as int]));
            let pair = &list[i];
            let ghost before = self.fixups@;
            let (split, mut edges) = loads::resolve_unresolved_pair_load(
                pair,
                &self.mem,
                &self.regs,
                self.cond,
                data_only,
            );
            self.fixups.push((pair.line, split));
            self.edges.append(&mut edges);
            assert(fixup_views(self.fixups@) =~= fixup_views(before).push((pair.line, split@)));
            assert(self@ =~= with_pairs(m, list@, data_only, i + 1));
            i += 1;
        }
    }

    fn resolve_partial_pairs(&mut self, list: &Vec<PartialUnresolvedPairLoad>, chunk_idx: usize)
        requires
            forall|i: int|
                #![trigger list@[i]]
                0 <= i < list@.len() ==> loads::partial_pair_ok(list@[i]),
        ensures
            final(self)@ == with_partial_pairs(
                old(self)@,
                list@,
                chunk_idx as int,
                list@.len() as int,
            ),
    {
        let ghost m = self@;
        let mut i: usize = 0;
        while i < list.len()
            invariant
                i <= list@.len(),
                forall|i: int|
                    #![trigger list@[i]]
                    0 <= i < list@.len() ==> loads::partial_pair_ok(list@[i]),
                self@ == with_partial_pairs(m, list@, chunk_idx as int, i as int),
                self@.mem == m.mem,
                self@.slots == m.slots,
            decreases list@.len() - i,
        {
            assert(loads::partial_pair_ok(list@[i as int]));
            let partial = &list[i];
            let ghost before = self.deferred@;
            let mut extra = PairSplitDeps::default();
            loads::extend_partial_pair(
                partial,
                &self.mem,
                &self.regs,
                &mut extra,
                &mut self.edges,
            );
            proof {
                let v = loads::partial_pair_view(*partial, m.mem, m.slots);
                seqs::lemma_extend_empty(v.shared);
                seqs::lemma_extend_empty(v.half1);
                seqs::lemma_extend_empty(v.half2);
                assert(extra@ == dedup_view(v));
            }
            if !extra.half1_deps.is_empty() || !extra.half2_deps.is_empty()
                || !extra.shared.is_empty() {
                let dep = DeferredPairDep { line: partial.line, chunk_idx, extra };
                self.deferred.push(dep);
                assert(deferred_views(self.deferred@) =~= deferred_views(before).push(dep@));
            }
            assert(self@ =~= with_partial_pairs(m, list@, chunk_idx as int, i + 1));
            i += 1;
        }
    }

    /// Resolves what a chunk left open.
    fn resolve(&mut self, chunk: &ChunkResult, chunk_idx: usize, data_only: bool)
        requires
            chunk_ok(*chunk),
        ensures
            final(self)@ == resolved(old(self)@, *chunk, chunk_idx as int, data_only),
    {
        let ghost m = self@;
        self.resolve_loads(&chunk.unresolved_loads);
        loads::resolve_partial_unresolved_loads(
            &chunk.partial_unresolved_loads,
            &self.mem,
            &mut self.edges,
            &mut self.corrections,
        );
        let ghost m1 = with_loads(
            m,
            chunk.unresolved_loads@,
            chunk.unresolved_loads@.len() as int,
        );
        assert(self@ =~= with_partials(m1, chunk.partial_unresolved_loads@));
        self.resolve_pairs(&chunk.unresolved_pair_loads, data_only);
        self.resolve_partial_pairs(&chunk.partial_unresolved_pair_loads, chunk_idx);
        let mut used = loads::resolve_unresolved_reg_uses(&chunk.unresolved_reg_uses, &self.regs);
        let mut control = resolve_control_deps(
            chunk.start_line,
            chunk.first_local_cond_branch,
            self.cond,
            chunk.end_line,
            &chunk.needs_control_dep,
            data_only,
        );
        self.edges.append(&mut used);
        self.edges.append(&mut control);
        assert(self@ =~= resolved(m, *chunk, chunk_idx as int, data_only));
    }

    /// Takes over what is known at the end of a chunk.
    fn pass(&mut self, boundary: &ChunkBoundary)
        ensures
            final(self)@ == passed(old(self)@, *boundary),
    {
        overlay_mem(&mut self.mem, &boundary.final_mem_last_def);
        self.regs.overlay(&boundary.final_reg_last_def);
        if boundary.final_last_cond_branch.is_some() {
            self.cond = boundary.final_last_cond_branch;
        }
    }
}

/// Runs the pass over all chunks.
pub fn run_forward(chunks: &Vec<ChunkResult>, data_only: bool) -> (f: Forward)
    requires
        forall|i: int| #![trigger chunks@[i]] 0 <= i < chunks@.len() ==> chunk_ok(chunks@[i]),
    ensures
        f@ == forward(chunks@, data_only, chunks@.len() as int),
{
    let mut f = Forward::new();
    let mut i: usize = 0;
    while i < chunks.len()
        invariant
            i <= chunks@.len(),
            forall|i: int| #![trigger chunks@[i]] 0 <= i < chunks@.len() ==> chunk_ok(chunks@[i]),
            f@ == forward(chunks@, data_only, i as int),
        decreases chunks@.len() - i,
    {
        assert(chunk_ok(chunks@[i as int]));
        if i > 0 {
            f.resolve(&chunks[i], i, data_only);
        }
        f.pass(&chunks[i].boundary);
        i += 1;
    }
    f
}

} // verus!
