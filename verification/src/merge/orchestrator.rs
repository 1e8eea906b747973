//! Merging the scans of all chunks.

use crate::foreign;
use crate::foreign::LineFlags;
use crate::line_index::{joined_offsets, joined_total, LineIndex};
use crate::merge::events;
use crate::merge::events::{
    annot_replay, annot_views, events_ok, filled, fix_reg_checkpoints, flushed,
    replay, replay_call_tree_events, replay_gumtrace_annotations, CallAnnotation,
};
use crate::merge::forward;
use crate::merge::forward::{
    chunk_ok, deferred_views, fixup_views, run_forward, ChunkResult, DeferredPairDep, DeferredView,
    ForwardModel,
};
use crate::merge::indices;
use crate::merge::indices::{
    corrected, joined_flags, joined_indices, merge_init_mem_loads, merge_line_indices,
    merge_mem_access_indices, merge_pair_splits,
};
use crate::merge::loads::{empty_split, extend_split};
use crate::merge::patches::{is_patch_groups, patch_groups};
use crate::parallel_types::{CallTreeEvent, GumtraceAnnotEvent};
use crate::query::call_tree;
use crate::query::call_tree::CallTree;
use crate::query::mem_access::MemAccessIndex;
use crate::query::registers::{snapshot_views, RegCheckpoints, RegSnapshot};
use crate::query::strings::StringAccess;
use crate::scanner::deps::{chunks_contiguous, CompactDeps, DepsStorage};
use crate::scanner::last_def;
use crate::scanner::last_def::MemLastDef;
use crate::scanner::model::PairView;
use crate::scanner::pass1;
use crate::scanner::pass1::PairSplitDeps;
use crate::scanner::scan::{pair_views, ScanState};
use crate::seqs;
use crate::seqs::cat;
use crate::types::{TraceFormat, REG_COUNT};
use rustc_hash::FxHashMap;
use std::collections::HashMap;
use vstd::prelude::*;

verus! {

/// Structures for queries.
pub struct Phase2State {
    pub call_tree: CallTree,
    pub mem_accesses: MemAccessIndex,
    pub reg_checkpoints: RegCheckpoints,
}

/// The scan of a whole trace.
pub struct ScanResult {
    pub scan_state: ScanState,
    pub phase2: Phase2State,
    pub line_index: LineIndex,
    pub format: TraceFormat,
    /// Annotations by the line of the call.
    pub call_annotations: HashMap<u32, CallAnnotation>,
    /// Lines that hold no instruction of their own, ascending.
    pub consumed_seqs: Vec<u32>,
    /// Memory accesses for the string search, in line order.
    pub string_accesses: Vec<StringAccess>,
}

// ---------------------------------------------------------------------------
// The parts of all chunks
// ---------------------------------------------------------------------------

pub open spec fn deps_of(chunks: Seq<ChunkResult>) -> Seq<CompactDeps> {
    chunks.map_values(|c: ChunkResult| c.deps)
}

pub open spec fn starts_of(chunks: Seq<ChunkResult>) -> Seq<u32> {
    chunks.map_values(|c: ChunkResult| c.start_line)
}

pub open spec fn inits_of(chunks: Seq<ChunkResult>) -> Seq<LineFlags> {
    chunks.map_values(|c: ChunkResult| c.init_mem_loads)
}

pub open spec fn splits_of(chunks: Seq<ChunkResult>) -> Seq<FxHashMap<u32, PairSplitDeps>> {
    chunks.map_values(|c: ChunkResult| c.pair_split)
}

pub open spec fn line_indices_of(chunks: Seq<ChunkResult>) -> Seq<LineIndex> {
    chunks.map_values(|c: ChunkResult| c.line_index)
}

pub open spec fn mem_indices_of(chunks: Seq<ChunkResult>) -> Seq<MemAccessIndex> {
    chunks.map_values(|c: ChunkResult| c.mem_access_index)
}

pub open spec fn call_events_of(chunks: Seq<ChunkResult>) -> Seq<Seq<CallTreeEvent>> {
    chunks.map_values(|c: ChunkResult| c.call_tree_events@)
}

pub open spec fn annot_events_of(chunks: Seq<ChunkResult>) -> Seq<Seq<GumtraceAnnotEvent>> {
    chunks.map_values(|c: ChunkResult| c.gumtrace_annot_events@)
}

pub open spec fn accesses_of(chunks: Seq<ChunkResult>) -> Seq<Seq<StringAccess>> {
    chunks.map_values(|c: ChunkResult| c.string_accesses@)
}

pub open spec fn consumed_of(chunks: Seq<ChunkResult>) -> Seq<Seq<u32>> {
    chunks.map_values(|c: ChunkResult| c.consumed_seqs@)
}

/// Instruction lines of the first `n` chunks.
pub open spec fn parsed_total(chunks: Seq<ChunkResult>, n: int) -> int
    decreases n,
{
    if n <= 0 {
        0
    } else {
        parsed_total(chunks, n - 1) + chunks[n - 1].boundary.final_parsed_count
    }
}

/// Memory accesses of the first `n` chunks.
pub open spec fn mem_op_total(chunks: Seq<ChunkResult>, n: int) -> int
    decreases n,
{
    if n <= 0 {
        0
    } else {
        mem_op_total(chunks, n - 1) + chunks[n - 1].boundary.final_mem_op_count
    }
}

proof fn lemma_totals(chunks: Seq<ChunkResult>, i: int, j: int)
    requires
        0 <= i <= j,
    ensures
        0 <= parsed_total(chunks, i) <= parsed_total(chunks, j),
        0 <= mem_op_total(chunks, i) <= mem_op_total(chunks, j),
    decreases j,
{
    if i < j {
        lemma_totals(chunks, i, j - 1);
    } else if i > 0 {
        lemma_totals(chunks, i - 1, j - 1);
    }
}

/// The snapshots of a chunk, with unknown values taken from the chunk before.
pub open spec fn chunk_snapshots(chunks: Seq<ChunkResult>, k: int) -> Seq<Seq<u64>> {
    if k <= 0 {
        chunks[k].reg_checkpoints@
    } else {
        chunks[k].reg_checkpoints@.map_values(
            |s: Seq<u64>| filled(s, chunks[k - 1].boundary.final_reg_values@),
        )
    }
}

/// The snapshots of the first `n` chunks.
pub open spec fn all_snapshots(chunks: Seq<ChunkResult>, n: int) -> Seq<Seq<u64>>
    decreases n,
{
    if n <= 0 {
        Seq::empty()
    } else {
        all_snapshots(chunks, n - 1) + chunk_snapshots(chunks, n - 1)
    }
}

/// Number of lines.
pub open spec fn total_lines(chunks: Seq<ChunkResult>) -> int {
    if chunks.len() == 0 {
        0
    } else {
        chunks.last().start_line + chunks.last().deps@.len()
    }
}

/// Chunks that can be merged: each is in order, and what is counted in a
/// machine number fits.
pub open spec fn merge_ok(chunks: Seq<ChunkResult>) -> bool {
    let n = chunks.len() as int;
    &&& forall|i: int| #![trigger chunks[i]] 0 <= i < n ==> chunk_ok(chunks[i])
    &&& total_lines(chunks) <= u32::MAX
    &&& parsed_total(chunks, n) <= u32::MAX
    &&& mem_op_total(chunks, n) <= u32::MAX
    &&& joined_total(line_indices_of(chunks), n) <= u32::MAX
    &&& joined_flags(inits_of(chunks), n).len() <= usize::MAX / 8
    &&& events_ok(cat(call_events_of(chunks), n))
}

/// The parts of all chunks, taken out.
struct Parts {
    deps: Vec<CompactDeps>,
    starts: Vec<u32>,
    inits: Vec<LineFlags>,
    splits: Vec<FxHashMap<u32, PairSplitDeps>>,
    line_indices: Vec<LineIndex>,
    mem_indices: Vec<MemAccessIndex>,
    call_events: Vec<CallTreeEvent>,
    annot_events: Vec<GumtraceAnnotEvent>,
    accesses: Vec<StringAccess>,
    consumed: Vec<u32>,
    snapshots: Vec<RegSnapshot>,
    parsed: u32,
    mem_ops: u32,
}

/// `p` holds the parts of the first `n` chunks.
spec fn holds_parts(p: Parts, chunks: Seq<ChunkResult>, n: int) -> bool {
    &&& p.deps@ == deps_of(chunks).take(n)
    &&& p.starts@ == starts_of(chunks).take(n)
    &&& p.inits@ == inits_of(chunks).take(n)
    &&& p.splits@ == splits_of(chunks).take(n)
    &&& p.line_indices@ == line_indices_of(chunks).take(n)
    &&& p.mem_indices@ == mem_indices_of(chunks).take(n)
    &&& p.call_events@ == cat(call_events_of(chunks), n)
    &&& p.annot_events@ == cat(annot_events_of(chunks), n)
    &&& p.accesses@ == cat(accesses_of(chunks), n)
    &&& p.consumed@ == cat(consumed_of(chunks), n)
    &&& snapshot_views(p.snapshots@) == all_snapshots(chunks, n)
    &&& p.parsed == parsed_total(chunks, n)
    &&& p.mem_ops == mem_op_total(chunks, n)
}

fn decompose(chunks: Vec<ChunkResult>) -> (p: Parts)
    requires
        merge_ok(chunks@),
    ensures
        holds_parts(p, chunks@, chunks@.len() as int),
{
    let ghost all = chunks@;
    let mut p = Parts {
        deps: Vec::new(),
        starts: Vec::new(),
        inits: Vec::new(),
        splits: Vec::new(),
        line_indices: Vec::new(),
        mem_indices: Vec::new(),
        call_events: Vec::new(),
        annot_events: Vec::new(),
        accesses: Vec::new(),
        consumed: Vec::new(),
        snapshots: Vec::new(),
        parsed: 0,
        mem_ops: 0,
    };
    let mut prev: Option<[u64; REG_COUNT]> = None;
    proof {
        assert(deps_of(all).take(0) =~= p.deps@);
        assert(starts_of(all).take(0) =~= p.starts@);
        assert(inits_of(all).take(0) =~= p.inits@);
        assert(splits_of(all).take(0) =~= p.splits@);
        assert(line_indices_of(all).take(0) =~= p.line_indices@);
        assert(mem_indices_of(all).take(0) =~= p.mem_indices@);
        assert(snapshot_views(p.snapshots@) =~= Seq::empty());
    }
    let mut rest = seqs::reversed(chunks);
    while rest.len() > 0
        invariant
            merge_ok(all),
            rest@ =~= all.skip(all.len() - rest@.len()).reverse(),
            rest@.len() <= all.len(),
            holds_parts(p, all, all.len() - rest@.len()),
            all.len() - rest@.len() == 0 ==> prev is None,
            all.len() - rest@.len() > 0 ==> (prev matches Some(values) && values@ == all[all.len()
                - rest@.len() - 1].boundary.final_reg_values@),
        decreases rest@.len(),
    {
        let ghost k = all.len() - rest@.len();
        if let Some(chunk) = rest.pop() {
            assert(chunk == all[k]);
            let ghost before = p;
            proof {
                lemma_totals(all, k + 1, all.len() as int);
            }
            let mut chunk = chunk;
            p.starts.push(chunk.start_line);
            p.deps.push(chunk.deps);
            p.inits.push(chunk.init_mem_loads);
            p.splits.push(chunk.pair_split);
            p.line_indices.push(chunk.line_index);
            p.mem_indices.push(chunk.mem_access_index);
            p.accesses.append(&mut chunk.string_accesses);
            p.consumed.append(&mut chunk.consumed_seqs);
            p.call_events.append(&mut chunk.call_tree_events);
            p.annot_events.append(&mut chunk.gumtrace_annot_events);
            p.parsed += chunk.boundary.final_parsed_count;
            p.mem_ops += chunk.boundary.final_mem_op_count;
            let mut ckpts = chunk.reg_checkpoints;
            if let Some(values) = &prev {
                fix_reg_checkpoints(&mut ckpts, values);
            }
            let ghost added = ckpts.snapshots@;
            p.snapshots.append(&mut ckpts.snapshots);
            prev = Some(chunk.boundary.final_reg_values);
            proof {
                assert(deps_of(all).take(k + 1) =~= p.deps@);
                assert(starts_of(all).take(k + 1) =~= p.starts@);
                assert(inits_of(all).take(k + 1) =~= p.inits@);
                assert(splits_of(all).take(k + 1) =~= p.splits@);
                assert(line_indices_of(all).take(k + 1) =~= p.line_indices@);
                assert(mem_indices_of(all).take(k + 1) =~= p.mem_indices@);
                assert(snapshot_views(p.snapshots@) =~= snapshot_views(before.snapshots@)
                    + snapshot_views(added));
                assert(snapshot_views(added) =~= chunk_snapshots(all, k));
            }
        }
    }
    p
}

// ---------------------------------------------------------------------------
// Pair splits
// ---------------------------------------------------------------------------

/// The split of a line, empty if there is none.
pub open spec fn view_at(table: Map<u32, PairView>, line: u32) -> PairView {
    if table.contains_key(line) {
        table[line]
    } else {
        empty_split()
    }
}

/// The first `n` deferred dependencies entered in the tables of their chunks.
pub open spec fn with_deferred(
    tables: Seq<Map<u32, PairView>>,
    deferred: Seq<DeferredView>,
    n: int,
) -> Seq<Map<u32, PairView>>
    decreases n,
{
    if n <= 0 {
        tables
    } else {
        let before = with_deferred(tables, deferred, n - 1);
        let d = deferred[n - 1];
        before.update(
            d.chunk,
            before[d.chunk].insert(d.line, extend_split(view_at(before[d.chunk], d.line), d.extra)),
        )
    }
}

/// The tables of the first `n` chunks joined; later chunks win.
pub open spec fn joined_tables(tables: Seq<Map<u32, PairView>>, n: int) -> Map<u32, PairView>
    decreases n,
{
    if n <= 0 {
        Map::empty()
    } else {
        joined_tables(tables, n - 1).union_prefer_right(tables[n - 1])
    }
}

/// The first `n` additions entered.
pub open spec fn with_fixups(m: Map<u32, PairView>, fixups: Seq<(u32, PairView)>, n: int) -> Map<
    u32,
    PairView,
>
    decreases n,
{
    if n <= 0 {
        m
    } else {
        with_fixups(m, fixups, n - 1).insert(fixups[n - 1].0, fixups[n - 1].1)
    }
}

/// The tables of chunks as mathematical values.
pub open spec fn table_views(splits: Seq<FxHashMap<u32, PairSplitDeps>>) -> Seq<Map<u32, PairView>> {
    splits.map_values(|m: FxHashMap<u32, PairSplitDeps>| pair_views(m@))
}

proof fn lemma_joined_tables(splits: Seq<FxHashMap<u32, PairSplitDeps>>, n: int)
    requires
        0 <= n <= splits.len(),
    ensures
        pair_views(indices::joined_splits(indices::split_maps(splits), n)) == joined_tables(
            table_views(splits),
            n,
        ),
    decreases n,
{
    let maps = indices::split_maps(splits);
    if n > 0 {
        lemma_joined_tables(splits, n - 1);
        let a = indices::joined_splits(maps, n - 1);
        let b = maps[n - 1];
        assert(pair_views(a.union_prefer_right(b)) =~= pair_views(a).union_prefer_right(
            pair_views(b),
        ));
        assert(table_views(splits)[n - 1] == pair_views(b));
    } else {
        assert(pair_views(indices::joined_splits(maps, n)) =~= Map::empty());
    }
}

proof fn lemma_fixups(m: Map<u32, PairSplitDeps>, fixups: Seq<(u32, PairSplitDeps)>, n: int)
    requires
        0 <= n <= fixups.len(),
    ensures
        pair_views(indices::with_fixups(m, fixups, n)) == with_fixups(
            pair_views(m),
            fixup_views(fixups),
            n,
        ),
    decreases n,
{
    if n > 0 {
        lemma_fixups(m, fixups, n - 1);
        let before = indices::with_fixups(m, fixups, n - 1);
        assert(pair_views(before.insert(fixups[n - 1].0, fixups[n - 1].1)) =~= pair_views(
            before,
        ).insert(fixups[n - 1].0, fixups[n - 1].1@));
    }
}

/// Adds each value of `more` unless it is there.
fn extend_list(list: &mut foreign::DepList, more: &foreign::DepList)
    ensures
        final(list)@ == seqs::extend_unique(old(list)@, more@),
{
    let ghost start = list@;
    let values = more.as_slice();
    let mut i: usize = 0;
    assert(values@.take(0) =~= Seq::empty());
    while i < values.len()
        invariant
            i <= values@.len(),
            list@ == seqs::extend_unique(start, values@.take(i as int)),
        decreases values@.len() - i,
    {
        assert(values@.take(i + 1).drop_last() =~= values@.take(i as int));
        pass1::push_unique(list, values[i]);
        i += 1;
    }
    assert(values@.take(values@.len() as int) =~= values@);
}

/// Enters the deferred dependencies in the tables of their chunks.
fn apply_deferred(
    splits: &mut Vec<FxHashMap<u32, PairSplitDeps>>,
    deferred: &Vec<DeferredPairDep>,
)
    requires
        forall|i: int|
            #![trigger deferred@[i]]
            0 <= i < deferred@.len() ==> deferred@[i].chunk_idx < old(splits)@.len(),
    ensures
        final(splits)@.len() == old(splits)@.len(),
        table_views(final(splits)@) == with_deferred(
            table_views(old(splits)@),
            deferred_views(deferred@),
            deferred@.len() as int,
        ),
{
    let ghost start = table_views(splits@);
    let ghost views = deferred_views(deferred@);
    let mut i: usize = 0;
    while i < deferred.len()
        invariant
            i <= deferred@.len(),
            splits@.len() == old(splits)@.len(),
            forall|i: int|
                #![trigger deferred@[i]]
                0 <= i < deferred@.len() ==> deferred@[i].chunk_idx < splits@.len(),
            views == deferred_views(deferred@),
            table_views(splits@) == with_deferred(start, views, i as int),
        decreases deferred@.len() - i,
    {
        let dep = &deferred[i];
        assert(deferred@[i as int].chunk_idx < splits@.len());
        let ghost before = splits@;
        let k: usize = dep.chunk_idx;
        let mut split = match foreign::fx_remove(&mut splits[k], &dep.line) {
            Some(split) => split,
            None => PairSplitDeps::default(),
        };
        assert(split@ == view_at(table_views(before)[k as int], dep.line));
        extend_list(&mut split.half1_deps, &dep.extra.half1_deps);
        extend_list(&mut split.half2_deps, &dep.extra.half2_deps);
        extend_list(&mut split.shared, &dep.extra.shared);
        foreign::fx_insert(&mut splits[k], dep.line, split);
        proof {
            let table = before[k as int]@;
            assert(splits@[k as int]@ =~= table.remove(dep.line).insert(dep.line, split));
            assert(pair_views(splits@[k as int]@) =~= pair_views(table).insert(dep.line, split@));
            assert(table_views(splits@) =~= table_views(before).update(
                k as int,
                pair_views(table).insert(dep.line, split@),
            ));
        }
        i += 1;
    }
}

/// Deferred dependencies belong to one of the first `n` chunks.
proof fn lemma_deferred_in_range(chunks: Seq<ChunkResult>, data_only: bool, n: int)
    requires
        0 <= n <= chunks.len(),
    ensures
        forall|i: int|
            #![trigger forward::forward(chunks, data_only, n).deferred[i]]
            0 <= i < forward::forward(chunks, data_only, n).deferred.len() ==> 0
                <= forward::forward(chunks, data_only, n).deferred[i].chunk < n,
    decreases n,
{
    if n > 1 {
        lemma_deferred_in_range(chunks, data_only, n - 1);
        let m = forward::forward(chunks, data_only, n - 1);
        let c = chunks[n - 1];
        lemma_loads_keep_deferred(m, c.unresolved_loads@, c.unresolved_loads@.len() as int);
        let m2 = forward::with_partials(
            forward::with_loads(m, c.unresolved_loads@, c.unresolved_loads@.len() as int),
            c.partial_unresolved_loads@,
        );
        lemma_pairs_keep_deferred(
            m2,
            c.unresolved_pair_loads@,
            data_only,
            c.unresolved_pair_loads@.len() as int,
        );
        let m3 = forward::with_pairs(
            m2,
            c.unresolved_pair_loads@,
            data_only,
            c.unresolved_pair_loads@.len() as int,
        );
        lemma_partial_pairs_defer(
            m3,
            c.partial_unresolved_pair_loads@,
            n - 1,
            c.partial_unresolved_pair_loads@.len() as int,
        );
    }
}

proof fn lemma_loads_keep_deferred(
    m: ForwardModel,
    list: Seq<crate::parallel_types::UnresolvedLoad>,
    n: int,
)
    ensures
        forward::with_loads(m, list, n).deferred == m.deferred,
    decreases n,
{
    if n > 0 {
        lemma_loads_keep_deferred(m, list, n - 1);
    }
}

proof fn lemma_pairs_keep_deferred(
    m: ForwardModel,
    list: Seq<crate::parallel_types::UnresolvedPairLoad>,
    data_only: bool,
    n: int,
)
    ensures
        forward::with_pairs(m, list, data_only, n).deferred == m.deferred,
    decreases n,
{
    if n > 0 {
        lemma_pairs_keep_deferred(m, list, data_only, n - 1);
    }
}

proof fn lemma_partial_pairs_defer(
    m: ForwardModel,
    list: Seq<crate::parallel_types::PartialUnresolvedPairLoad>,
    chunk: int,
    n: int,
)
    requires
        forall|i: int|
            #![trigger m.deferred[i]]
            0 <= i < m.deferred.len() ==> 0 <= m.deferred[i].chunk <= chunk,
        0 <= chunk,
    ensures
        forall|i: int|
            #![trigger forward::with_partial_pairs(m, list, chunk, n).deferred[i]]
            0 <= i < forward::with_partial_pairs(m, list, chunk, n).deferred.len() ==> 0
                <= forward::with_partial_pairs(m, list, chunk, n).deferred[i].chunk <= chunk,
    decreases n,
{
    if n > 0 {
        lemma_partial_pairs_defer(m, list, chunk, n - 1);
        let before = forward::with_partial_pairs(m, list, chunk, n - 1);
        let after = forward::with_partial_pairs(m, list, chunk, n);
        assert forall|i: int| #![trigger after.deferred[i]] 0 <= i < after.deferred.len() implies 0
            <= after.deferred[i].chunk <= chunk by {
            if i < before.deferred.len() {
                assert(after.deferred[i] == before.deferred[i]);
            }
        }
    }
}

// ---------------------------------------------------------------------------
// The merge
// ---------------------------------------------------------------------------

/// The split table of the whole trace.
pub open spec fn merged_pairs(chunks: Seq<ChunkResult>, m: ForwardModel) -> Map<u32, PairView> {
    let tables = with_deferred(
        table_views(splits_of(chunks)),
        m.deferred,
        m.deferred.len() as int,
    );
    with_fixups(joined_tables(tables, chunks.len() as int), m.fixups, m.fixups.len() as int)
}

/// The annotations of the whole trace, and the extra lines they claim; only
/// one of the formats has any.
pub open spec fn merged_annotations(chunks: Seq<ChunkResult>, format: TraceFormat) -> (
    Map<u32, events::AnnotView>,
    Seq<u32>,
) {
    let list = cat(annot_events_of(chunks), chunks.len() as int);
    let m = annot_replay(list, list.len() as int);
    match format {
        TraceFormat::Gumtrace => (flushed(m), m.extra),
        TraceFormat::Unidbg => (Map::empty(), Seq::empty()),
    }
}

/// The state of the scan, merged.
pub open spec fn merged_state(chunks: Seq<ChunkResult>, data_only: bool, s: ScanState) -> bool {
    let n = chunks.len() as int;
    let m = forward::forward(chunks, data_only, n);
    &&& s.reg_last_def.slots() == m.slots
    &&& s.mem_last_def is Sorted
    &&& s.mem_last_def.wf()
    &&& s.mem_last_def@ == m.mem
    &&& s.last_cond_branch == m.cond
    &&& s.deps matches DepsStorage::Chunked { chunks: deps, chunk_start_lines, patch_groups }
        && deps@ == deps_of(chunks) && chunk_start_lines@ == starts_of(chunks) && is_patch_groups(
        m.edges,
        patch_groups@,
    )
    &&& chunks_contiguous(deps_of(chunks), starts_of(chunks)) ==> s.deps.wf()
    &&& s.line_count == total_lines(chunks)
    &&& s.parsed_count == parsed_total(chunks, n)
    &&& s.mem_op_count == mem_op_total(chunks, n)
    &&& s.resolved_targets@.len() == 0
    &&& s.unknown_mnemonics@.len() == 0
    &&& s.init_mem_loads@ == corrected(
        joined_flags(inits_of(chunks), n),
        m.corrections,
        m.corrections.len() as int,
    )
    &&& pair_views(s.pair_split@) == merged_pairs(chunks, m)
}

/// Merges the scans of consecutive chunks into the scan of the whole trace.
///
/// A pass over the chunks resolves what each left open against what the chunks
/// before it define; then the parts are joined. The memory accesses for the
/// string search are handed on in line order.
#[verifier::rlimit(60)]
pub fn merge_all_chunks(
    chunk_results: Vec<ChunkResult>,
    format: TraceFormat,
    data_only: bool,
    skip_strings: bool,
) -> (r: ScanResult)
    requires
        merge_ok(chunk_results@),
    ensures
        merged_state(chunk_results@, data_only, r.scan_state),
        ({
            let list = cat(call_events_of(chunk_results@), chunk_results@.len() as int);
            r.phase2.call_tree@ == call_tree::close_all(
                replay(list, list.len() as int).tree,
                total_lines(chunk_results@) as u32,
            )
        }),
        r.phase2.mem_accesses@ == joined_indices(
            mem_indices_of(chunk_results@),
            chunk_results@.len() as int,
        ),
        r.phase2.reg_checkpoints.interval == 1000,
        r.phase2.reg_checkpoints@ == all_snapshots(
            chunk_results@,
            chunk_results@.len() as int,
        ),
        r.line_index.sampled_offsets@ == joined_offsets(
            line_indices_of(chunk_results@),
            chunk_results@.len() as int,
        ),
        r.line_index.total == joined_total(
            line_indices_of(chunk_results@),
            chunk_results@.len() as int,
        ),
        r.format == format,
        annot_views(r.call_annotations@) == merged_annotations(chunk_results@, format).0,
        foreign::ascending(r.consumed_seqs@),
        r.consumed_seqs@.to_multiset() == (cat(
            consumed_of(chunk_results@),
            chunk_results@.len() as int,
        ) + merged_annotations(chunk_results@, format).1).to_multiset(),
        r.string_accesses@ == (if skip_strings {
            Seq::empty()
        } else {
            cat(accesses_of(chunk_results@), chunk_results@.len() as int)
        }),
{
    let ghost all = chunk_results@;
    let ghost n = all.len() as int;
    let f = run_forward(&chunk_results, data_only);
    let ghost m = forward::forward(all, data_only, n);
    let p = decompose(chunk_results);
    proof {
        assert(deps_of(all).take(n) =~= deps_of(all));
        assert(starts_of(all).take(n) =~= starts_of(all));
        assert(inits_of(all).take(n) =~= inits_of(all));
        assert(splits_of(all).take(n) =~= splits_of(all));
        assert(line_indices_of(all).take(n) =~= line_indices_of(all));
        assert(mem_indices_of(all).take(n) =~= mem_indices_of(all));
    }
    let Parts {
        deps,
        starts,
        inits,
        splits,
        line_indices,
        mem_indices,
        call_events,
        annot_events,
        accesses,
        consumed,
        snapshots,
        parsed,
        mem_ops,
    } = p;
    let forward::Forward { edges, fixups, corrections, deferred, mem, regs, cond } = f;
    let mut splits = splits;
    proof {
        lemma_deferred_in_range(all, data_only, n);
        assert forall|i: int|
            #![trigger deferred@[i]]
            0 <= i < deferred@.len() implies deferred@[i].chunk_idx < splits@.len() by {
            assert(m.deferred[i] == deferred@[i]@);
        }
    }
    apply_deferred(&mut splits, &deferred);
    let total: u32 = if starts.len() == 0 {
        0
    } else {
        let last: usize = starts.len() - 1;
        assert(starts@[last as int] == all[last as int].start_line);
        assert(deps@[last as int] == all[last as int].deps);
        starts[last] + deps[last].num_rows() as u32
    };
    assert(total == total_lines(all));
    let groups = patch_groups(&edges);
    let tree = replay_call_tree_events(&call_events, total);
    let (call_annotations, mut extra) = match format {
        TraceFormat::Gumtrace => replay_gumtrace_annotations(&annot_events),
        TraceFormat::Unidbg => {
            let none: HashMap<u32, CallAnnotation> = HashMap::new();
            assert(annot_views(none@) =~= Map::empty());
            (none, Vec::new())
        },
    };
    let mut consumed_seqs = consumed;
    consumed_seqs.append(&mut extra);
    foreign::sort_numbers(&mut consumed_seqs);
    let mem_accesses = merge_mem_access_indices(mem_indices);
    let line_index = merge_line_indices(line_indices);
    let init_mem_loads = merge_init_mem_loads(inits, &corrections);
    proof {
        lemma_joined_tables(splits@, n);
        lemma_fixups(
            indices::joined_splits(indices::split_maps(splits@), n),
            fixups@,
            fixups@.len() as int,
        );
    }
    let pair_split = merge_pair_splits(splits, fixups);
    let mut mem = mem;
    let sorted = last_def::sorted_from_map(&mut mem);
    let string_accesses: Vec<StringAccess> = if skip_strings {
        Vec::new()
    } else {
        accesses
    };
    let scan_state = ScanState {
        reg_last_def: regs,
        mem_last_def: MemLastDef::Sorted(sorted),
        last_cond_branch: cond,
        deps: DepsStorage::Chunked {
            chunks: deps,
            chunk_start_lines: starts,
            patch_groups: groups,
        },
        line_count: total,
        parsed_count: parsed,
        mem_op_count: mem_ops,
        resolved_targets: Vec::new(),
        unknown_mnemonics: Vec::new(),
        init_mem_loads,
        pair_split,
    };
    assert(merged_state(all, data_only, scan_state));
    ScanResult {
        scan_state,
        phase2: Phase2State {
            call_tree: tree,
            mem_accesses,
            reg_checkpoints: RegCheckpoints { interval: 1000, snapshots },
        },
        line_index,
        format,
        call_annotations,
        consumed_seqs,
        string_accesses,
    }
}

} // verus!
