//! Control dependencies across chunks, and joining the dependency stores.

use crate::foreign;
use crate::foreign::LineFlags;
use crate::merge::loads::Edge;
use crate::scanner::deps::CompactDeps;
use crate::scanner::model::CONTROL_DEP_BIT;
use crate::seqs;
use rustc_hash::FxHashMap;
use vstd::prelude::*;

verus! {

/// Control edges of the lines `start..end` that want one.
pub open spec fn control_edges(start: u32, end: int, branch: u32, needs: Seq<bool>) -> Seq<Edge>
    decreases end - start,
{
    if end <= start {
        Seq::empty()
    } else {
        let before = control_edges(start, end - 1, branch, needs);
        let local = end - 1 - start;
        if local < needs.len() && needs[local] {
            before.push(((end - 1) as u32, branch | CONTROL_DEP_BIT))
        } else {
            before
        }
    }
}

/// Control edges that a chunk gets from the last branch before it.
pub open spec fn chunk_control_edges(
    chunk_start: u32,
    first_local_cond: Option<u32>,
    prev_last_cond: Option<u32>,
    chunk_end: u32,
    needs: Seq<bool>,
    data_only: bool,
) -> Seq<Edge> {
    match prev_last_cond {
        Some(branch) if !data_only => {
            let end = match first_local_cond {
                Some(line) => line,
                None => chunk_end,
            };
            control_edges(chunk_start, end as int, branch, needs)
        },
        _ => Seq::empty(),
    }
}

/// Gives the lines before the first branch of a chunk their control
/// dependency on the last branch of the chunks before it.
pub fn resolve_control_deps(
    chunk_start: u32,
    first_local_cond: Option<u32>,
    prev_last_cond: Option<u32>,
    chunk_end: u32,
    needs_control_dep: &LineFlags,
    data_only: bool,
) -> (patches: Vec<Edge>)
    ensures
        patches@ == chunk_control_edges(
            chunk_start,
            first_local_cond,
            prev_last_cond,
            chunk_end,
            needs_control_dep@,
            data_only,
        ),
{
    let mut patches: Vec<Edge> = Vec::new();
    if data_only {
        return patches;
    }
    let branch: u32 = match prev_last_cond {
        Some(branch) => branch,
        None => {
            return patches;
        },
    };
    let end: u32 = match first_local_cond {
        Some(line) => line,
        None => chunk_end,
    };
    let mut line: u32 = chunk_start;
    while line < end
        invariant
            chunk_start <= line,
            line <= end || end <= chunk_start,
            line == chunk_start || line <= end,
            patches@ == control_edges(chunk_start, line as int, branch, needs_control_dep@),
        decreases end - line,
    {
        let local: usize = (line - chunk_start) as usize;
        if let Some(true) = needs_control_dep.get(local) {
            patches.push((line, branch | CONTROL_DEP_BIT));
        }
        line += 1;
    }
    patches
}

// ---------------------------------------------------------------------------
// Grouping edges by line
// ---------------------------------------------------------------------------

/// The targets of the edges from `line`, in order.
pub open spec fn targets_of(edges: Seq<Edge>, line: u32) -> Seq<u32>
    decreases edges.len(),
{
    if edges.len() == 0 {
        Seq::empty()
    } else {
        let before = targets_of(edges.drop_last(), line);
        if edges.last().0 == line {
            before.push(edges.last().1)
        } else {
            before
        }
    }
}

/// The map holds the targets of every line with an edge, and no other line.
pub open spec fn groups_edges(m: Map<u32, Vec<u32>>, edges: Seq<Edge>) -> bool {
    &&& forall|line: u32| #[trigger]
        m.contains_key(line) ==> m[line]@ == targets_of(edges, line) && m[line]@.len() > 0
    &&& forall|line: u32|
        !#[trigger] m.contains_key(line) ==> targets_of(edges, line).len() == 0
}

/// Groups edges by the line they start from.
pub(crate) fn group_edges(edges: &Vec<Edge>) -> (m: FxHashMap<u32, Vec<u32>>)
    ensures
        groups_edges(m@, edges@),
{
    let mut m: FxHashMap<u32, Vec<u32>> = FxHashMap::default();
    let mut i: usize = 0;
    assert(edges@.take(0) =~= Seq::empty());
    while i < edges.len()
        invariant
            i <= edges@.len(),
            groups_edges(m@, edges@.take(i as int)),
        decreases edges@.len() - i,
    {
        let (from, to) = edges[i];
        let ghost before = m@;
        let ghost done = edges@.take(i as int);
        assert(edges@.take(i + 1).drop_last() =~= done);
        let mut list: Vec<u32> = match foreign::fx_remove(&mut m, &from) {
            Some(list) => list,
            None => Vec::new(),
        };
        assert(list@ =~= targets_of(done, from)) by {
            if !before.contains_key(from) {
                assert(targets_of(done, from).len() == 0);
            }
        }
        list.push(to);
        foreign::fx_insert(&mut m, from, list);
        assert(groups_edges(m@, edges@.take(i + 1))) by {
            assert forall|line: u32| #[trigger] m@.contains_key(line) implies m@[line]@
                == targets_of(edges@.take(i + 1), line) && m@[line]@.len() > 0 by {
                if line != from {
                    assert(before.contains_key(line));
                }
            }
            assert forall|line: u32| !#[trigger] m@.contains_key(line) implies targets_of(
                edges@.take(i + 1),
                line,
            ).len() == 0 by {
                assert(!before.contains_key(line));
            }
        }
        i += 1;
    }
    assert(edges@.take(edges@.len() as int) =~= edges@);
    m
}

// ---------------------------------------------------------------------------
// One store for the whole trace
// ---------------------------------------------------------------------------

/// The joined row of a line: what its chunk found, then what the merge added.
pub open spec fn joined_row(row: Seq<u32>, edges: Seq<Edge>, line: u32) -> Seq<u32> {
    seqs::dedup(row + targets_of(edges, line))
}

/// The joined rows of the first `n` lines of a chunk.
pub open spec fn joined_chunk(chunk: CompactDeps, start: u32, edges: Seq<Edge>, n: int) -> Seq<
    Seq<u32>,
> {
    Seq::new(n as nat, |r: int| joined_row(chunk@[r], edges, (start + r) as u32))
}

/// The joined rows of the first `n` chunks.
pub open spec fn joined_rows(
    chunks: Seq<CompactDeps>,
    starts: Seq<u32>,
    edges: Seq<Edge>,
    n: int,
) -> Seq<Seq<u32>>
    decreases n,
{
    if n <= 0 {
        Seq::empty()
    } else {
        joined_rows(chunks, starts, edges, n - 1) + joined_chunk(
            chunks[n - 1],
            starts[n - 1],
            edges,
            chunks[n - 1]@.len() as int,
        )
    }
}

/// Number of entries over all rows.
pub open spec fn total_len(rows: Seq<Seq<u32>>) -> int
    decreases rows.len(),
{
    if rows.len() == 0 {
        0
    } else {
        total_len(rows.drop_last()) + rows.last().len()
    }
}

proof fn lemma_total_len_push(rows: Seq<Seq<u32>>, row: Seq<u32>)
    ensures
        total_len(rows.push(row)) == total_len(rows) + row.len(),
{
    assert(rows.push(row).drop_last() =~= rows);
}

proof fn lemma_total_len_prefix(rows: Seq<Seq<u32>>, n: int)
    requires
        0 <= n <= rows.len(),
    ensures
        0 <= total_len(rows.take(n)) <= total_len(rows),
    decreases rows.len(),
{
    if n == rows.len() {
        assert(rows.take(n) =~= rows);
        if n > 0 {
            lemma_total_len_prefix(rows.drop_last(), n - 1);
            assert(rows.drop_last().take(n - 1) =~= rows.drop_last());
        }
    } else {
        lemma_total_len_prefix(rows.drop_last(), n);
        assert(rows.drop_last().take(n) =~= rows.take(n));
    }
}

proof fn lemma_joined_prefix(
    chunks: Seq<CompactDeps>,
    starts: Seq<u32>,
    edges: Seq<Edge>,
    n: int,
    total: int,
)
    requires
        0 <= n <= total,
    ensures
        joined_rows(chunks, starts, edges, n).len() <= joined_rows(
            chunks,
            starts,
            edges,
            total,
        ).len(),
        joined_rows(chunks, starts, edges, n) == joined_rows(chunks, starts, edges, total).take(
            joined_rows(chunks, starts, edges, n).len() as int,
        ),
    decreases total - n,
{
    let a = joined_rows(chunks, starts, edges, n);
    if n == total {
        assert(a.take(a.len() as int) =~= a);
    } else {
        lemma_joined_prefix(chunks, starts, edges, n, total - 1);
        let b = joined_rows(chunks, starts, edges, total - 1);
        let c = joined_rows(chunks, starts, edges, total);
        assert(c.take(a.len() as int) =~= b.take(a.len() as int));
    }
}

/// Inputs of [`rebuild_compact_deps`]: well-formed chunks whose lines are
/// counted in 32 bits, and a result whose edges are.
pub open spec fn rebuild_ok(chunks: Seq<CompactDeps>, starts: Seq<u32>, edges: Seq<Edge>) -> bool {
    &&& chunks.len() == starts.len()
    &&& forall|c: int|
        #![trigger chunks[c]]
        0 <= c < chunks.len() ==> chunks[c].wf() && starts[c] + chunks[c]@.len() <= u32::MAX
    &&& total_len(joined_rows(chunks, starts, edges, chunks.len() as int)) <= u32::MAX
}

/// Adds values to the open row.
fn add_all(merged: &mut CompactDeps, values: &[u32], Ghost(rows): Ghost<Seq<Seq<u32>>>, Ghost(row): Ghost<Seq<u32>>)
    requires
        old(merged).wf(),
        old(merged)@ == rows.push(row),
    ensures
        final(merged).wf(),
        final(merged)@ == rows.push(seqs::extend_unique(row, values@)),
        final(merged).data@.len() - old(merged).data@.len() == seqs::extend_unique(
            row,
            values@,
        ).len() - row.len(),
{
    let ghost size = merged.data@.len() as int;
    let mut i: usize = 0;
    assert(values@.take(0) =~= Seq::empty());
    while i < values.len()
        invariant
            i <= values@.len(),
            merged.wf(),
            merged@ == rows.push(seqs::extend_unique(row, values@.take(i as int))),
            merged.data@.len() - size == seqs::extend_unique(row, values@.take(i as int)).len()
                - row.len(),
        decreases values@.len() - i,
    {
        let ghost so_far = seqs::extend_unique(row, values@.take(i as int));
        assert(rows.push(so_far).last() == so_far);
        assert(values@.take(i + 1).drop_last() =~= values@.take(i as int));
        merged.push_unique(values[i]);
        assert(merged@ =~= rows.push(seqs::extend_unique(row, values@.take(i + 1))));
        i += 1;
    }
    assert(values@.take(values@.len() as int) =~= values@);
}

/// Joins the stores of consecutive chunks and the edges that the merge found
/// into one store without repetitions.
pub fn rebuild_compact_deps(
    chunk_deps: &Vec<CompactDeps>,
    chunk_start_lines: &Vec<u32>,
    patch_edges: &Vec<Edge>,
) -> (merged: CompactDeps)
    requires
        rebuild_ok(chunk_deps@, chunk_start_lines@, patch_edges@),
    ensures
        merged.wf(),
        merged@ == joined_rows(
            chunk_deps@,
            chunk_start_lines@,
            patch_edges@,
            chunk_deps@.len() as int,
        ),
{
    let patches = group_edges(patch_edges);
    let mut merged = CompactDeps::new();
    let ghost chunks = chunk_deps@;
    let ghost starts = chunk_start_lines@;
    let ghost edges = patch_edges@;
    let ghost all = joined_rows(chunks, starts, edges, chunks.len() as int);
    let mut c: usize = 0;
    assert(merged.data@.len() == total_len(merged@));
    while c < chunk_deps.len()
        invariant
            c <= chunks.len(),
            chunks == chunk_deps@,
            starts == chunk_start_lines@,
            edges == patch_edges@,
            all == joined_rows(chunks, starts, edges, chunks.len() as int),
            rebuild_ok(chunks, starts, edges),
            groups_edges(patches@, edges),
            merged.wf(),
            merged@ == joined_rows(chunks, starts, edges, c as int),
            merged.data@.len() == total_len(merged@),
        decreases chunks.len() - c,
    {
        let chunk = &chunk_deps[c];
        let start: u32 = chunk_start_lines[c];
        let ghost base = merged@;
        let n: usize = chunk.num_rows();
        assert(chunks[c as int].wf());
        proof {
            lemma_joined_prefix(chunks, starts, edges, c + 1, chunks.len() as int);
        }
        let mut r: usize = 0;
        assert(base + joined_chunk(*chunk, start, edges, 0) =~= base);
        while r < n
            invariant
                r <= n,
                n == chunk@.len(),
                chunk.wf(),
                start + n <= u32::MAX,
                groups_edges(patches@, edges),
                merged.wf(),
                merged@ == base + joined_chunk(*chunk, start, edges, r as int),
                merged.data@.len() == total_len(merged@),
                total_len(all) <= u32::MAX,
                base + joined_chunk(*chunk, start, edges, n as int) == all.take(
                    (base.len() + n) as int,
                ),
                base.len() + n <= all.len(),
            decreases n - r,
        {
            let line: u32 = start + r as u32;
            let ghost rows = merged@;
            proof {
                assert(rows =~= all.take((base.len() + r) as int)) by {
                    assert(rows =~= all.take((base.len() + n) as int).take(
                        (base.len() + r) as int,
                    ));
                }
                lemma_total_len_prefix(all, (base.len() + r) as int);
                lemma_total_len_push(rows, Seq::empty());
            }
            merged.start_row();
            let own = chunk.row(r);
            add_all(&mut merged, own, Ghost(rows), Ghost(Seq::empty()));
            let ghost first = seqs::extend_unique(Seq::empty(), own@);
            proof {
                seqs::lemma_extend_empty(own@);
                seqs::lemma_dedup_concat(own@, targets_of(edges, line));
            }
            match foreign::fx_get(&patches, &line) {
                Some(extras) => {
                    add_all(&mut merged, extras.as_slice(), Ghost(rows), Ghost(first));
                },
                None => {
                    assert(targets_of(edges, line) =~= Seq::empty());
                },
            }
            proof {
                let row = joined_row(chunk@[r as int], edges, line);
                lemma_total_len_push(rows, row);
                assert(merged@ == rows.push(row));
                assert(merged@ =~= base + joined_chunk(*chunk, start, edges, r + 1));
            }
            r += 1;
        }
        c += 1;
    }
    merged
}

} // verus!
