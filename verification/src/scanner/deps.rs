//! Compact storage of the per-line dependency lists.

use crate::foreign;
use crate::seqs;
use vstd::prelude::*;

verus! {

/// Dependency lists of consecutive lines in compressed-row form.
///
/// - `offsets[i]` is where the list of row `i` starts in `data`
/// - the list of row `i` is `data[offsets[i]..offsets[i + 1]]`; the last row
///   reaches to the end of `data`
pub struct CompactDeps {
    pub offsets: Vec<u32>,
    pub data: Vec<u32>,
}

/// Where row `i` ends.
pub open spec fn row_end(offsets: Seq<u32>, data: Seq<u32>, i: int) -> int {
    if i + 1 < offsets.len() {
        offsets[i + 1] as int
    } else {
        data.len() as int
    }
}

/// The bounds of row `i` are in order and within `data`.
pub open spec fn row_ok(offsets: Seq<u32>, data: Seq<u32>, i: int) -> bool {
    &&& 0 <= i < offsets.len()
    &&& offsets[i] <= row_end(offsets, data, i) <= data.len()
}

/// The list of row `i`.
pub open spec fn row_of(offsets: Seq<u32>, data: Seq<u32>, i: int) -> Seq<u32> {
    data.subrange(offsets[i] as int, row_end(offsets, data, i))
}

/// All rows in order.
pub open spec fn rows_of(offsets: Seq<u32>, data: Seq<u32>) -> Seq<Seq<u32>> {
    Seq::new(offsets.len(), |i: int| row_of(offsets, data, i))
}

/// Offsets never descend and stay within `data`.
pub open spec fn offsets_ok(offsets: Seq<u32>, data: Seq<u32>) -> bool {
    &&& forall|i: int, j: int|
        #![trigger offsets[i], offsets[j]]
        0 <= i <= j < offsets.len() ==> offsets[i] <= offsets[j]
    &&& forall|i: int| #![trigger offsets[i]] 0 <= i < offsets.len() ==> offsets[i] <= data.len()
}

pub proof fn lemma_start_row(offsets: Seq<u32>, data: Seq<u32>)
    requires
        offsets_ok(offsets, data),
        data.len() <= u32::MAX,
    ensures
        offsets_ok(offsets.push(data.len() as u32), data),
        rows_of(offsets.push(data.len() as u32), data) == rows_of(offsets, data).push(
            Seq::empty(),
        ),
{
    let next = offsets.push(data.len() as u32);
    assert forall|i: int| 0 <= i < next.len() implies #[trigger] row_of(next, data, i) == rows_of(
        offsets,
        data,
    ).push(Seq::empty())[i] by {
        if i < offsets.len() {
            assert(row_end(next, data, i) == row_end(offsets, data, i));
        } else {
            assert(row_of(next, data, i) =~= Seq::empty());
        }
    }
    assert(rows_of(next, data) =~= rows_of(offsets, data).push(Seq::empty()));
}

pub proof fn lemma_push_dep(offsets: Seq<u32>, data: Seq<u32>, value: u32)
    requires
        offsets_ok(offsets, data),
        offsets.len() > 0,
    ensures
        offsets_ok(offsets, data.push(value)),
        rows_of(offsets, data.push(value)) == rows_of(offsets, data).update(
            offsets.len() - 1,
            rows_of(offsets, data).last().push(value),
        ),
{
    let next = data.push(value);
    let rows = rows_of(offsets, data);
    let last = offsets.len() - 1;
    assert forall|i: int| 0 <= i < offsets.len() implies #[trigger] row_of(offsets, next, i)
        == rows.update(last, rows.last().push(value))[i] by {
        if i < last {
            assert(offsets[i] <= offsets[i + 1]);
            assert(offsets[i + 1] <= data.len());
            assert(row_of(offsets, next, i) =~= row_of(offsets, data, i));
        } else {
            assert(row_of(offsets, next, i) =~= rows.last().push(value));
        }
    }
    assert(rows_of(offsets, next) =~= rows.update(last, rows.last().push(value)));
}

impl View for CompactDeps {
    type V = Seq<Seq<u32>>;

    open spec fn view(&self) -> Seq<Seq<u32>> {
        rows_of(self.offsets@, self.data@)
    }
}

impl CompactDeps {
    /// Offsets never descend and stay within `data`.
    pub open spec fn wf(self) -> bool {
        offsets_ok(self.offsets@, self.data@)
    }

    pub open spec fn spec_row_ok(self, i: int) -> bool {
        row_ok(self.offsets@, self.data@, i)
    }

    pub open spec fn spec_row(self, i: int) -> Seq<u32> {
        row_of(self.offsets@, self.data@, i)
    }

    pub fn new() -> (r: Self)
        ensures
            r.wf(),
            r@ == Seq::<Seq<u32>>::empty(),
            r.data@.len() == 0,
    {
        let r = CompactDeps { offsets: Vec::new(), data: Vec::new() };
        assert(r@ =~= Seq::<Seq<u32>>::empty());
        r
    }

    /// An empty store with room for the given numbers of rows and edges.
    pub fn with_capacity(estimated_lines: usize, estimated_deps: usize) -> (r: Self)
        requires
            estimated_lines < usize::MAX,
        ensures
            r.wf(),
            r@ == Seq::<Seq<u32>>::empty(),
            r.data@.len() == 0,
    {
        let r = CompactDeps {
            offsets: Vec::with_capacity(estimated_lines + 1),
            data: Vec::with_capacity(estimated_deps),
        };
        assert(r@ =~= Seq::<Seq<u32>>::empty());
        r
    }

    /// Gives back room that is not used.
    pub fn shrink_to_fit(&mut self)
        ensures
            final(self)@ == old(self)@,
            final(self).data@ == old(self).data@,
            final(self).offsets@ == old(self).offsets@,
    {
        foreign::shrink_numbers(&mut self.data);
        foreign::shrink_numbers(&mut self.offsets);
    }

    /// Opens the next row. Edges are counted in 32 bits.
    pub fn start_row(&mut self)
        requires
            old(self).wf(),
            old(self).data@.len() <= u32::MAX,
        ensures
            final(self).wf(),
            final(self)@ == old(self)@.push(Seq::empty()),
            final(self).data@ == old(self).data@,
    {
        proof {
            lemma_start_row(self.offsets@, self.data@);
        }
        self.offsets.push(self.data.len() as u32);
    }

    /// Adds a dependency to the open row unless the row has it already.
    pub fn push_unique(&mut self, val: u32)
        requires
            old(self).wf(),
            old(self)@.len() > 0,
        ensures
            final(self).wf(),
            final(self)@ == old(self)@.update(
                old(self)@.len() - 1,
                seqs::add_unique(old(self)@.last(), val),
            ),
            final(self).data@.len() <= old(self).data@.len() + 1,
            final(self).data@.len() - old(self).data@.len() == final(self)@.last().len() - old(
                self,
            )@.last().len(),
    {
        let ghost rows = self@;
        let start: usize = self.offsets[self.offsets.len() - 1] as usize;
        let mut i: usize = start;
        while i < self.data.len()
            invariant
                self.wf(),
                self@ == rows,
                self@.len() > 0,
                start == self.offsets@.last(),
                start <= i <= self.data@.len(),
                forall|j: int| start <= j < i ==> self.data@[j] != val,
                *self == *old(self),
            decreases self.data@.len() - i,
        {
            if self.data[i] == val {
                assert(rows.last()[i - start] == val);
                assert(rows =~= rows.update(rows.len() - 1, rows.last()));
                return ;
            }
            i += 1;
        }
        assert(!rows.last().contains(val)) by {
            if rows.last().contains(val) {
                let j = choose|j: int| 0 <= j < rows.last().len() && rows.last()[j] == val;
                assert(self.data@[start + j] == val);
            }
        }
        proof {
            lemma_push_dep(self.offsets@, self.data@, val);
        }
        self.data.push(val);
    }

    /// The dependencies of row `i`.
    pub fn row(&self, i: usize) -> (r: &[u32])
        requires
            self.spec_row_ok(i as int),
        ensures
            r@ == self.spec_row(i as int),
    {
        let start: usize = self.offsets[i] as usize;
        let end: usize = if i < self.offsets.len() - 1 {
            self.offsets[i + 1] as usize
        } else {
            self.data.len()
        };
        vstd::slice::slice_subrange(self.data.as_slice(), start, end)
    }

    /// Number of edges over all rows.
    pub fn total_deps(&self) -> (n: usize)
        ensures
            n == self.data@.len(),
    {
        self.data.len()
    }

    pub fn num_rows(&self) -> (n: usize)
        ensures
            n == self@.len(),
    {
        self.offsets.len()
    }

    pub fn is_empty(&self) -> (b: bool)
        ensures
            b == (self@.len() == 0),
    {
        self.offsets.len() == 0
    }

    pub fn row_is_empty(&self, i: usize) -> (b: bool)
        requires
            self.spec_row_ok(i as int),
        ensures
            b == (self.spec_row(i as int).len() == 0),
    {
        self.row(i).len() == 0
    }

    pub fn row_contains(&self, i: usize, val: &u32) -> (b: bool)
        requires
            self.spec_row_ok(i as int),
        ensures
            b == self.spec_row(i as int).contains(*val),
    {
        seqs::slice_contains(self.row(i), *val)
    }

    /// Takes over ready-made arrays.
    pub fn from_raw(offsets: Vec<u32>, data: Vec<u32>) -> (r: Self)
        ensures
            r.offsets == offsets,
            r.data == data,
    {
        CompactDeps { offsets, data }
    }

    pub fn offsets_slice(&self) -> (r: &[u32])
        ensures
            r@ == self.offsets@,
    {
        self.offsets.as_slice()
    }

    pub fn data_slice(&self) -> (r: &[u32])
        ensures
            r@ == self.data@,
    {
        self.data.as_slice()
    }

    /// Number of dependencies of row `i`.
    pub fn row_len(&self, i: usize) -> (n: usize)
        requires
            self.spec_row_ok(i as int),
        ensures
            n == self.spec_row(i as int).len(),
    {
        let start: usize = self.offsets[i] as usize;
        let end: usize = if i < self.offsets.len() - 1 {
            self.offsets[i + 1] as usize
        } else {
            self.data.len()
        };
        end - start
    }
}

impl Default for CompactDeps {
    fn default() -> (r: Self)
        ensures
            r.wf(),
            r@ == Seq::<Seq<u32>>::empty(),
            r.data@.len() == 0,
    {
        CompactDeps::new()
    }
}

/// The dependency lists of a whole trace: one store, or the stores of
/// consecutive chunks with the edges that cross a chunk boundary kept apart.
pub enum DepsStorage {
    Single(CompactDeps),
    Chunked {
        chunks: Vec<CompactDeps>,
        /// First line of each chunk.
        chunk_start_lines: Vec<u32>,
        /// Extra dependencies per line, by ascending line.
        patch_groups: Vec<(u32, Vec<u32>)>,
    },
}

/// The lines of the chunks follow each other without gap, every chunk but the
/// last holds a line.
pub open spec fn chunks_contiguous(chunks: Seq<CompactDeps>, starts: Seq<u32>) -> bool {
    &&& chunks.len() == starts.len()
    &&& chunks.len() > 0
    &&& starts[0] == 0
    &&& forall|i: int| #![trigger chunks[i]] 0 <= i < chunks.len() ==> chunks[i].wf()
    &&& forall|i: int, j: int|
        #![trigger starts[i], starts[j]]
        0 <= i < j < starts.len() ==> starts[i] < starts[j]
    &&& forall|i: int|
        #![trigger chunks[i]]
        0 <= i < starts.len() - 1 ==> starts[i] + chunks[i]@.len() == starts[i + 1]
}

/// The chunk that holds a line.
pub open spec fn chunk_of(starts: Seq<u32>, line: int, c: int) -> bool {
    &&& 0 <= c < starts.len()
    &&& starts[c] <= line
    &&& c + 1 < starts.len() ==> line < starts[c + 1]
}

/// Lines of the patch groups strictly ascend.
pub open spec fn groups_sorted(groups: Seq<(u32, Vec<u32>)>) -> bool {
    forall|i: int, j: int|
        #![trigger groups[i], groups[j]]
        0 <= i < j < groups.len() ==> groups[i].0 < groups[j].0
}

/// The extra dependencies of a line.
pub open spec fn group_deps(groups: Seq<(u32, Vec<u32>)>, line: int) -> Seq<u32> {
    if exists|g: int| #![trigger groups[g]] 0 <= g < groups.len() && groups[g].0 == line {
        let g = choose|g: int| #![trigger groups[g]] 0 <= g < groups.len() && groups[g].0 == line;
        groups[g].1@
    } else {
        Seq::empty()
    }
}

pub proof fn lemma_group_at(groups: Seq<(u32, Vec<u32>)>, g: int)
    requires
        groups_sorted(groups),
        0 <= g < groups.len(),
    ensures
        group_deps(groups, groups[g].0 as int) == groups[g].1@,
{
    let line = groups[g].0 as int;
    let c = choose|c: int| #![trigger groups[c]] 0 <= c < groups.len() && groups[c].0 == line;
    assert(0 <= c < groups.len() && groups[c].0 == line) by {
        assert(groups[g].0 == line);
    }
    if c < g {
        assert(groups[c].0 < groups[g].0);
    } else if g < c {
        assert(groups[g].0 < groups[c].0);
    }
}

/// Number of edges of the first `n` chunks.
pub open spec fn chunk_edges(chunks: Seq<CompactDeps>, n: int) -> int
    decreases n,
{
    if n <= 0 {
        0
    } else {
        chunk_edges(chunks, n - 1) + chunks[n - 1].data@.len()
    }
}

/// Number of lines of the first `n` chunks.
pub open spec fn chunk_rows(chunks: Seq<CompactDeps>, n: int) -> int
    decreases n,
{
    if n <= 0 {
        0
    } else {
        chunk_rows(chunks, n - 1) + chunks[n - 1]@.len()
    }
}

/// Number of edges of the first `n` patch groups.
pub open spec fn group_edges(groups: Seq<(u32, Vec<u32>)>, n: int) -> int
    decreases n,
{
    if n <= 0 {
        0
    } else {
        group_edges(groups, n - 1) + groups[n - 1].1@.len()
    }
}

impl DepsStorage {
    pub open spec fn wf(self) -> bool {
        match self {
            DepsStorage::Single(cd) => cd.wf(),
            DepsStorage::Chunked { chunks, chunk_start_lines, patch_groups } => {
                &&& chunks_contiguous(chunks@, chunk_start_lines@)
                &&& groups_sorted(patch_groups@)
            },
        }
    }

    /// The store of the single form.
    pub open spec fn store(self) -> CompactDeps {
        self->Single_0
    }

    /// The line exists.
    pub open spec fn has_line(self, line: int) -> bool {
        match self {
            DepsStorage::Single(cd) => 0 <= line < cd@.len(),
            DepsStorage::Chunked { chunks, chunk_start_lines, .. } => {
                0 <= line < chunk_start_lines@.last() + chunks@.last()@.len()
            },
        }
    }

    /// `list` holds the dependencies of a line within its own chunk.
    pub open spec fn is_row(self, line: int, list: Seq<u32>) -> bool {
        match self {
            DepsStorage::Single(cd) => list == cd@[line],
            DepsStorage::Chunked { chunks, chunk_start_lines, .. } => exists|c: int| #[trigger]
                chunk_of(chunk_start_lines@, line, c) && list == chunks@[c]@[line
                    - chunk_start_lines@[c]],
        }
    }

    /// The dependencies of a line beyond its own chunk.
    pub open spec fn patch_of(self, line: int) -> Seq<u32> {
        match self {
            DepsStorage::Single(_) => Seq::empty(),
            DepsStorage::Chunked { patch_groups, .. } => group_deps(patch_groups@, line),
        }
    }

    /// Index of the chunk that holds `line`.
    fn find_chunk(starts: &Vec<u32>, line: u32) -> (c: usize)
        requires
            starts@.len() > 0,
            starts@[0] == 0,
            forall|i: int, j: int|
                #![trigger starts@[i], starts@[j]]
                0 <= i < j < starts@.len() ==> starts@[i] < starts@[j],
        ensures
            chunk_of(starts@, line as int, c as int),
    {
        let mut lo: usize = 0;
        let mut hi: usize = starts.len();
        while hi - lo > 1
            invariant
                lo < hi <= starts@.len(),
                starts@[lo as int] <= line,
                hi < starts@.len() ==> line < starts@[hi as int],
            decreases hi - lo,
        {
            let mid: usize = lo + (hi - lo) / 2;
            if starts[mid] <= line {
                lo = mid;
            } else {
                hi = mid;
            }
        }
        lo
    }

    /// The dependencies of a line within its own chunk.
    pub fn row(&self, global_line: usize) -> (r: &[u32])
        requires
            self.wf(),
            self.has_line(global_line as int),
            global_line <= u32::MAX,
        ensures
            self.is_row(global_line as int, r@),
    {
        match self {
            DepsStorage::Single(cd) => {
                cd.row(global_line)
            },
            DepsStorage::Chunked { chunks, chunk_start_lines, .. } => {
                let line: u32 = global_line as u32;
                let c: usize = Self::find_chunk(chunk_start_lines, line);
                let local: usize = global_line - chunk_start_lines[c] as usize;
                let chunk = &chunks[c];
                let ghost cc = c as int;
                assert(chunks@[cc].wf());
                assert(local < chunks@[cc]@.len()) by {
                    if cc + 1 < chunk_start_lines@.len() {
                        assert(chunk_start_lines@[cc] + chunks@[cc]@.len()
                            == chunk_start_lines@[cc + 1]);
                    }
                }
                assert(chunk_of(chunk_start_lines@, global_line as int, cc));
                chunk.row(local)
            },
        }
    }

    /// The dependencies of a line beyond its own chunk.
    pub fn patch_row(&self, global_line: usize) -> (r: &[u32])
        requires
            self.wf(),
            global_line <= u32::MAX,
        ensures
            r@ == self.patch_of(global_line as int),
    {
        match self {
            DepsStorage::Single(_) => {
                let none: &[u32] = &[];
                assert(none@ =~= Seq::<u32>::empty());
                none
            },
            DepsStorage::Chunked { patch_groups, .. } => {
                let line: u32 = global_line as u32;
                let mut lo: usize = 0;
                let mut hi: usize = patch_groups.len();
                while lo < hi
                    invariant
                        groups_sorted(patch_groups@),
                        lo <= hi <= patch_groups@.len(),
                        forall|i: int|
                            #![trigger patch_groups@[i]]
                            0 <= i < lo ==> patch_groups@[i].0 < line,
                        forall|i: int|
                            #![trigger patch_groups@[i]]
                            hi <= i < patch_groups@.len() ==> line < patch_groups@[i].0,
                        line == global_line,
                        self.patch_of(global_line as int) == group_deps(
                            patch_groups@,
                            global_line as int,
                        ),
                    decreases hi - lo,
                {
                    let mid: usize = lo + (hi - lo) / 2;
                    let group = &patch_groups[mid];
                    if group.0 == line {
                        proof {
                            lemma_group_at(patch_groups@, mid as int);
                        }
                        return group.1.as_slice();
                    }
                    if group.0 < line {
                        lo = mid + 1;
                    } else {
                        hi = mid;
                    }
                }
                let none: &[u32] = &[];
                assert(none@ =~= Seq::<u32>::empty());
                none
            },
        }
    }

    /// Number of edges, crossing ones included.
    pub fn total_deps(&self) -> (n: usize)
        requires
            match self {
                DepsStorage::Single(_) => true,
                DepsStorage::Chunked { chunks, patch_groups, .. } => chunk_edges(
                    chunks@,
                    chunks@.len() as int,
                ) + group_edges(patch_groups@, patch_groups@.len() as int) <= usize::MAX,
            },
        ensures
            n == match self {
                DepsStorage::Single(cd) => cd.data@.len() as int,
                DepsStorage::Chunked { chunks, patch_groups, .. } => chunk_edges(
                    chunks@,
                    chunks@.len() as int,
                ) + group_edges(patch_groups@, patch_groups@.len() as int),
            },
    {
        match self {
            DepsStorage::Single(cd) => cd.total_deps(),
            DepsStorage::Chunked { chunks, patch_groups, .. } => {
                let mut total: usize = 0;
                let mut i: usize = 0;
                proof {
                    lemma_edges_monotonic(chunks@, 0, chunks@.len() as int);
                    lemma_groups_monotonic(patch_groups@, 0, patch_groups@.len() as int);
                }
                while i < chunks.len()
                    invariant
                        i <= chunks@.len(),
                        total == chunk_edges(chunks@, i as int),
                        chunk_edges(chunks@, chunks@.len() as int) <= usize::MAX,
                    decreases chunks@.len() - i,
                {
                    proof {
                        lemma_edges_monotonic(chunks@, i + 1, chunks@.len() as int);
                    }
                    total += chunks[i].total_deps();
                    i += 1;
                }
                let mut j: usize = 0;
                while j < patch_groups.len()
                    invariant
                        j <= patch_groups@.len(),
                        total == chunk_edges(chunks@, chunks@.len() as int) + group_edges(
                            patch_groups@,
                            j as int,
                        ),
                        chunk_edges(chunks@, chunks@.len() as int) + group_edges(
                            patch_groups@,
                            patch_groups@.len() as int,
                        ) <= usize::MAX,
                    decreases patch_groups@.len() - j,
                {
                    proof {
                        lemma_groups_monotonic(patch_groups@, j + 1, patch_groups@.len() as int);
                    }
                    total += patch_groups[j].1.len();
                    j += 1;
                }
                total
            },
        }
    }

    /// Number of lines.
    pub fn num_rows(&self) -> (n: usize)
        requires
            match self {
                DepsStorage::Single(_) => true,
                DepsStorage::Chunked { chunks, .. } => chunk_rows(chunks@, chunks@.len() as int)
                    <= usize::MAX,
            },
        ensures
            n == match self {
                DepsStorage::Single(cd) => cd@.len() as int,
                DepsStorage::Chunked { chunks, .. } => chunk_rows(chunks@, chunks@.len() as int),
            },
    {
        match self {
            DepsStorage::Single(cd) => cd.num_rows(),
            DepsStorage::Chunked { chunks, .. } => {
                let mut total: usize = 0;
                let mut i: usize = 0;
                while i < chunks.len()
                    invariant
                        i <= chunks@.len(),
                        total == chunk_rows(chunks@, i as int),
                        chunk_rows(chunks@, chunks@.len() as int) <= usize::MAX,
                    decreases chunks@.len() - i,
                {
                    proof {
                        lemma_rows_monotonic(chunks@, i + 1, chunks@.len() as int);
                    }
                    total += chunks[i].num_rows();
                    i += 1;
                }
                total
            },
        }
    }

    /// There is no line at all.
    #[verifier::loop_isolation(false)]
    pub fn is_empty(&self) -> (b: bool)
        ensures
            b == match self {
                DepsStorage::Single(cd) => cd@.len() == 0,
                DepsStorage::Chunked { chunks, .. } => forall|i: int|
                    #![trigger chunks@[i]]
                    0 <= i < chunks@.len() ==> chunks@[i]@.len() == 0,
            },
    {
        match self {
            DepsStorage::Single(cd) => cd.is_empty(),
            DepsStorage::Chunked { chunks, .. } => {
                let mut i: usize = 0;
                while i < chunks.len()
                    invariant
                        i <= chunks@.len(),
                        forall|k: int|
                            #![trigger chunks@[k]]
                            0 <= k < i ==> chunks@[k]@.len() == 0,
                    decreases chunks@.len() - i,
                {
                    if !chunks[i].is_empty() {
                        assert(chunks@[i as int]@.len() != 0);
                        return false;
                    }
                    i += 1;
                }
                true
            },
        }
    }

    /// Opens the next row of a single store.
    pub fn start_row(&mut self)
        requires
            old(self).wf(),
            *old(self) is Single,
            old(self).store().data@.len() <= u32::MAX,
        ensures
            final(self).wf(),
            *final(self) is Single,
            final(self).store()@ == old(self).store()@.push(Seq::empty()),
            final(self).store().data@ == old(self).store().data@,
    {
        if let DepsStorage::Single(cd) = self {
            cd.start_row();
        }
    }

    /// Adds a dependency to the open row of a single store unless it is there.
    pub fn push_unique(&mut self, val: u32)
        requires
            old(self).wf(),
            *old(self) is Single,
            old(self).store()@.len() > 0,
        ensures
            final(self).wf(),
            *final(self) is Single,
            final(self).store()@ == old(self).store()@.update(
                old(self).store()@.len() - 1,
                seqs::add_unique(old(self).store()@.last(), val),
            ),
            final(self).store().data@.len() <= old(self).store().data@.len() + 1,
    {
        if let DepsStorage::Single(cd) = self {
            cd.push_unique(val);
        }
    }

    /// Whether a line depends on `val`, within its chunk or beyond.
    pub fn row_contains(&self, i: usize, val: &u32) -> (b: bool)
        requires
            self.wf(),
            self.has_line(i as int),
            i <= u32::MAX,
        ensures
            exists|list: Seq<u32>| #[trigger]
                self.is_row(i as int, list) && b == (list.contains(*val) || self.patch_of(
                    i as int,
                ).contains(*val)),
    {
        let base = self.row(i);
        assert(self.is_row(i as int, base@));
        seqs::slice_contains(base, *val) || seqs::slice_contains(self.patch_row(i), *val)
    }

    /// Whether a line has no dependency, within its chunk or beyond.
    pub fn row_is_empty(&self, i: usize) -> (b: bool)
        requires
            self.wf(),
            self.has_line(i as int),
            i <= u32::MAX,
        ensures
            exists|list: Seq<u32>| #[trigger]
                self.is_row(i as int, list) && b == (list.len() == 0 && self.patch_of(
                    i as int,
                ).len() == 0),
    {
        let base = self.row(i);
        assert(self.is_row(i as int, base@));
        base.len() == 0 && self.patch_row(i).len() == 0
    }

    pub fn single(cd: CompactDeps) -> (r: Self)
        ensures
            r == DepsStorage::Single(cd),
    {
        DepsStorage::Single(cd)
    }
}

pub proof fn lemma_edges_monotonic(chunks: Seq<CompactDeps>, i: int, j: int)
    requires
        0 <= i <= j,
    ensures
        0 <= chunk_edges(chunks, i) <= chunk_edges(chunks, j),
    decreases j,
{
    if i < j {
        lemma_edges_monotonic(chunks, i, j - 1);
    } else if i > 0 {
        lemma_edges_monotonic(chunks, i - 1, j - 1);
    }
}

pub proof fn lemma_rows_monotonic(chunks: Seq<CompactDeps>, i: int, j: int)
    requires
        0 <= i <= j,
    ensures
        0 <= chunk_rows(chunks, i) <= chunk_rows(chunks, j),
    decreases j,
{
    if i < j {
        lemma_rows_monotonic(chunks, i, j - 1);
    } else if i > 0 {
        lemma_rows_monotonic(chunks, i - 1, j - 1);
    }
}

pub proof fn lemma_groups_monotonic(groups: Seq<(u32, Vec<u32>)>, i: int, j: int)
    requires
        0 <= i <= j,
    ensures
        0 <= group_edges(groups, i) <= group_edges(groups, j),
    decreases j,
{
    if i < j {
        lemma_groups_monotonic(groups, i, j - 1);
    } else if i > 0 {
        lemma_groups_monotonic(groups, i - 1, j - 1);
    }
}

/// A line lies in exactly one chunk, so its list is determined.
pub proof fn law_row_is_unique(deps: DepsStorage, line: int, a: Seq<u32>, b: Seq<u32>)
    requires
        deps.wf(),
        deps.is_row(line, a),
        deps.is_row(line, b),
    ensures
        a == b,
{
    if let DepsStorage::Chunked { chunks, chunk_start_lines, .. } = deps {
        let starts = chunk_start_lines@;
        let c = choose|c: int| #[trigger]
            chunk_of(starts, line, c) && a == chunks@[c]@[line - starts[c]];
        let d = choose|d: int| #[trigger]
            chunk_of(starts, line, d) && b == chunks@[d]@[line - starts[d]];
        if c < d {
            assert(starts[c + 1] <= starts[d]) by {
                if c + 1 < d {
                    assert(starts[c + 1] < starts[d]);
                }
            }
        } else if d < c {
            assert(starts[d + 1] <= starts[c]) by {
                if d + 1 < c {
                    assert(starts[d + 1] < starts[c]);
                }
            }
        }
    }
}

} // verus!
