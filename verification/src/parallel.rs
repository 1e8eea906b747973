//! Dividing a trace into chunks that can be scanned side by side.

use crate::foreign::byte_count;
use crate::scanner::lines;
use crate::scanner::lines::{
    after_break, lemma_line_break_bounds, lemma_line_break_is, line_break, line_total, NEWLINE,
};
use crate::scanner::model::LINE_MASK;
use crate::text::{decimal_text, push_decimal, push_text};
use vstd::prelude::*;

verus! {

/// Traces below this size are scanned in one go.
pub const SMALL_TRACE: usize = 10485760;

/// A chunk of whole lines.
#[derive(Debug, Clone, Copy, PartialEq, Eq, Structural)]
pub struct ChunkMeta {
    pub start_byte: usize,
    pub end_byte: usize,
    pub start_line: u32,
    pub line_count: u32,
}

/// Start of the first line after the byte at `raw`'s line.
pub open spec fn next_start(data: Seq<u8>, raw: int) -> int {
    after_break(data, line_break(data, raw))
}

/// Chunk starts chosen for the first `i` of `n` equal shares: the next line
/// start after each share's first byte, each once.
pub open spec fn chunk_starts(data: Seq<u8>, n: int, i: int) -> Seq<int>
    decreases i,
{
    if i <= 1 {
        seq![0]
    } else {
        let before = chunk_starts(data, n, i - 1);
        let start = next_start(data, (i - 1) * (data.len() as int / n));
        if start < data.len() && start != before.last() {
            before.push(start)
        } else {
            before
        }
    }
}

/// Where chunk `k` ends.
pub open spec fn chunk_end(data: Seq<u8>, starts: Seq<int>, k: int) -> int {
    if k + 1 < starts.len() {
        starts[k + 1]
    } else {
        data.len() as int
    }
}

/// The chunk from `start` to `end`.
pub open spec fn is_chunk(c: ChunkMeta, data: Seq<u8>, start: int, end: int) -> bool {
    &&& c.start_byte == start
    &&& c.end_byte == end
    &&& c.start_line == byte_count(data.take(start), NEWLINE)
    &&& c.line_count == line_total(data.subrange(start, end))
}

proof fn lemma_break_monotonic(data: Seq<u8>, a: int, b: int)
    requires
        0 <= a <= b <= data.len(),
    ensures
        line_break(data, a) <= line_break(data, b),
        next_start(data, a) <= next_start(data, b),
{
    lemma_line_break_bounds(data, a);
    lemma_line_break_bounds(data, b);
    if line_break(data, b) < line_break(data, a) {
        assert(data[line_break(data, b)] != NEWLINE);
    }
}

proof fn lemma_share(len: int, n: int, i: int)
    requires
        0 <= len,
        0 < n,
        0 <= i < n,
    ensures
        0 <= i * (len / n) <= len,
        i * (len / n) <= (i + 1) * (len / n),
{
    assert(0 <= len / n && n * (len / n) <= len) by (nonlinear_arith)
        requires
            0 <= len,
            0 < n,
    ;
    let q = len / n;
    assert(0 <= i * q && i * q <= n * q && i * q <= (i + 1) * q) by (nonlinear_arith)
        requires
            0 <= q,
            0 <= i < n,
    ;
}

/// The chosen starts strictly ascend, lie within the trace, and all but the
/// first follow a line feed.
pub open spec fn starts_ok(data: Seq<u8>, starts: Seq<int>) -> bool {
    &&& starts.len() > 0
    &&& starts[0] == 0
    &&& forall|i: int, j: int|
        #![trigger starts[i], starts[j]]
        0 <= i < j < starts.len() ==> starts[i] < starts[j]
    &&& forall|i: int|
        #![trigger starts[i]]
        0 < i < starts.len() ==> 0 < starts[i] < data.len() && data[starts[i] - 1] == NEWLINE
}

proof fn lemma_starts_ok(data: Seq<u8>, n: int, i: int)
    requires
        data.len() > 0,
        0 < n,
        1 <= i <= n,
    ensures
        starts_ok(data, chunk_starts(data, n, i)),
        chunk_starts(data, n, i).last() <= next_start(data, (i - 1) * (data.len() as int / n)),
    decreases i,
{
    let q = data.len() as int / n;
    lemma_share(data.len() as int, n, i - 1);
    lemma_line_break_bounds(data, (i - 1) * q);
    if i > 1 {
        lemma_starts_ok(data, n, i - 1);
        lemma_share(data.len() as int, n, i - 2);
        lemma_break_monotonic(data, (i - 2) * q, (i - 1) * q);
        let before = chunk_starts(data, n, i - 1);
        let after = chunk_starts(data, n, i);
        let start = next_start(data, (i - 1) * q);
        if start < data.len() && start != before.last() {
            assert forall|a: int, b: int| #![trigger after[a], after[b]] 0 <= a < b < after.len() implies
                after[a] < after[b] by {
                if b == before.len() {
                    assert(before[a] <= before.last()) by {
                        if a < before.len() - 1 {
                            assert(before[a] < before[before.len() - 1]);
                        }
                    }
                }
            }
        }
    }
}

/// Counting over a concatenation.
proof fn lemma_count_concat(a: Seq<u8>, b: Seq<u8>)
    ensures
        byte_count(a + b, NEWLINE) == byte_count(a, NEWLINE) + byte_count(b, NEWLINE),
    decreases b.len(),
{
    if b.len() == 0 {
        assert(a + b =~= a);
    } else {
        lemma_count_concat(a, b.drop_last());
        assert((a + b).drop_last() =~= a + b.drop_last());
        assert((a + b).last() == b.last());
    }
}

proof fn lemma_count_split(data: Seq<u8>, s: int, e: int)
    requires
        0 <= s <= e <= data.len(),
    ensures
        byte_count(data.take(e), NEWLINE) == byte_count(data.take(s), NEWLINE) + byte_count(
            data.subrange(s, e),
            NEWLINE,
        ),
{
    lemma_count_concat(data.take(s), data.subrange(s, e));
    assert(data.take(s) + data.subrange(s, e) =~= data.take(e));
}

/// Picks the chunk starts.
fn pick_starts(data: &[u8], n: usize) -> (starts: Vec<usize>)
    requires
        data@.len() > 0,
        n >= 1,
    ensures
        starts@.map_values(|s: usize| s as int) == chunk_starts(data@, n as int, n as int),
{
    let len: usize = data.len();
    let size: usize = len / n;
    let mut starts: Vec<usize> = Vec::new();
    let ghost as_int = |s: usize| s as int;
    starts.push(0);
    assert(starts@.map_values(as_int) =~= seq![0int]);
    let mut i: usize = 1;
    while i < n
        invariant
            1 <= i <= n,
            len == data@.len(),
            len > 0,
            size == len / n,
            as_int == (|s: usize| s as int),
            starts@.len() > 0,
            starts@.map_values(as_int) == chunk_starts(data@, n as int, i as int),
        decreases n - i,
    {
        proof {
            lemma_share(len as int, n as int, i as int);
        }
        let raw: usize = i * size;
        let rest = vstd::slice::slice_subrange(data, raw, len);
        let start: usize = match memchr::memchr(NEWLINE, rest) {
            Some(p) => raw + p + 1,
            None => len,
        };
        proof {
            if memchr_found(rest@) {
                let p = start - 1 - raw;
                assert(rest@[p] == data@[raw + p]);
                assert forall|k: int| raw <= k < raw + p implies data@[k] != NEWLINE by {
                    assert(rest@[k - raw] == data@[k]);
                }
                lemma_line_break_is(data@, raw as int, raw + p);
            } else {
                assert forall|k: int| raw <= k < len implies data@[k] != NEWLINE by {
                    assert(rest@[k - raw] == data@[k]);
                }
                lemma_line_break_is(data@, raw as int, len as int);
            }
            assert(start == next_start(data@, raw as int));
        }
        let ghost before = starts@;
        if start < len && start != starts[starts.len() - 1] {
            starts.push(start);
            assert(starts@.map_values(as_int) =~= before.map_values(as_int).push(start as int));
        }
        assert(before.map_values(as_int).last() == before.last() as int);
        i += 1;
    }
    starts
}

spec fn memchr_found(rest: Seq<u8>) -> bool {
    exists|i: int| 0 <= i < rest.len() && rest[i] == NEWLINE
}

/// Divides a trace into at most `n` chunks of whole lines.
///
/// The chunks follow each other without gap, each starts at the start of a
/// line, and lines are numbered through.
pub fn split_into_chunks(data: &[u8], n: usize) -> (chunks: Vec<ChunkMeta>)
    requires
        line_total(data@) <= u32::MAX,
    ensures
        data@.len() == 0 ==> chunks@ == seq![
            ChunkMeta { start_byte: 0, end_byte: 0, start_line: 0, line_count: 0 },
        ],
        data@.len() > 0 ==> {
            let shares = if n == 0 {
                1
            } else {
                n as int
            };
            let starts = chunk_starts(data@, shares, shares);
            &&& starts_ok(data@, starts)
            &&& chunks@.len() == starts.len()
            &&& forall|k: int|
                #![trigger chunks@[k]]
                0 <= k < chunks@.len() ==> is_chunk(
                    chunks@[k],
                    data@,
                    starts[k],
                    chunk_end(data@, starts, k),
                )
        },
        chunks@.len() > 0,
        chunks@.last().start_line + chunks@.last().line_count == line_total(data@),
{
    let len: usize = data.len();
    let mut chunks: Vec<ChunkMeta> = Vec::new();
    if len == 0 {
        chunks.push(ChunkMeta { start_byte: 0, end_byte: 0, start_line: 0, line_count: 0 });
        assert(byte_count(data@, NEWLINE) == 0);
        return chunks;
    }
    let shares: usize = if n == 0 {
        1
    } else {
        n
    };
    let starts = pick_starts(data, shares);
    let ghost bounds = chunk_starts(data@, shares as int, shares as int);
    proof {
        lemma_starts_ok(data@, shares as int, shares as int);
        assert forall|k: int| #![trigger bounds[k]] 0 <= k < bounds.len() implies starts@[k]
            == bounds[k] by {
            assert(starts@.map_values(|s: usize| s as int)[k] == bounds[k]);
        }
        assert(starts@.len() == bounds.len()) by {
            assert(starts@.map_values(|s: usize| s as int).len() == starts@.len());
        }
    }
    let mut lines_before: u32 = 0;
    let mut k: usize = 0;
    assert(data@.take(0) =~= Seq::empty());
    while k < starts.len()
        invariant
            k <= starts@.len(),
            starts@.len() == bounds.len(),
            len == data@.len(),
            len > 0,
            starts_ok(data@, bounds),
            forall|k: int| #![trigger bounds[k]] 0 <= k < bounds.len() ==> starts@[k] == bounds[k],
            line_total(data@) <= u32::MAX,
            chunks@.len() == k,
            k < bounds.len() ==> lines_before == byte_count(data@.take(bounds[k as int]), NEWLINE),
            k == bounds.len() ==> lines_before == line_total(data@),
            forall|j: int|
                #![trigger chunks@[j]]
                0 <= j < k ==> is_chunk(
                    chunks@[j],
                    data@,
                    bounds[j],
                    chunk_end(data@, bounds, j),
                ),
            k > 0 ==> chunks@.last().start_line + chunks@.last().line_count == lines_before,
        decreases starts@.len() - k,
    {
        let start: usize = starts[k];
        let last: bool = k + 1 == starts.len();
        let end: usize = if last {
            len
        } else {
            starts[k + 1]
        };
        let ghost kk = k as int;
        assert(start == bounds[kk] && end == chunk_end(data@, bounds, kk)) by {
            if !last {
                assert(bounds[kk + 1] == starts@[kk + 1]);
            }
        }
        assert(start < end <= len) by {
            if !last {
                assert(bounds[kk] < bounds[kk + 1]);
            } else if kk > 0 {
                assert(bounds[kk] < data@.len());
            }
        }
        let part = vstd::slice::slice_subrange(data, start, end);
        let ghost piece = data@.subrange(start as int, end as int);
        let count: usize = lines::count_lines(part);
        proof {
            lemma_count_split(data@, start as int, end as int);
            assert(piece.last() == data@[end - 1]);
            if last {
                assert(data@.take(end as int) =~= data@);
            } else {
                assert(data@[bounds[kk + 1] - 1] == NEWLINE);
                lemma_count_split(data@, end as int, len as int);
                assert(data@.take(len as int) =~= data@);
            }
            assert(lines_before + count <= line_total(data@));
        }
        chunks.push(
            ChunkMeta {
                start_byte: start,
                end_byte: end,
                start_line: lines_before,
                line_count: count as u32,
            },
        );
        lines_before += count as u32;
        k += 1;
    }
    chunks
}

/// How a trace is to be scanned.
pub enum ScanPlan {
    /// In one go.
    Single,
    /// Chunk by chunk, to be merged afterwards.
    Chunked(Vec<ChunkMeta>),
    /// Not at all: line numbers would run into the tag bits.
    TooManyLines(u32),
}

/// Decides how a trace is scanned: small ones and single chunks in one go,
/// others chunk by chunk unless they have too many lines.
pub fn plan_scan(data: &[u8], num_chunks: usize) -> (plan: ScanPlan)
    requires
        line_total(data@) <= u32::MAX,
    ensures
        match plan {
            ScanPlan::Single => data@.len() < SMALL_TRACE || num_chunks <= 1,
            ScanPlan::TooManyLines(total) => data@.len() >= SMALL_TRACE && num_chunks > 1 && total
                == line_total(data@) && total > LINE_MASK,
            ScanPlan::Chunked(chunks) => {
                let starts = chunk_starts(data@, num_chunks as int, num_chunks as int);
                &&& data@.len() >= SMALL_TRACE && num_chunks > 1
                &&& line_total(data@) <= LINE_MASK
                &&& starts_ok(data@, starts)
                &&& chunks@.len() == starts.len()
                &&& forall|k: int|
                    #![trigger chunks@[k]]
                    0 <= k < chunks@.len() ==> is_chunk(
                        chunks@[k],
                        data@,
                        starts[k],
                        chunk_end(data@, starts, k),
                    )
            },
        },
{
    if data.len() < SMALL_TRACE || num_chunks <= 1 {
        return ScanPlan::Single;
    }
    let chunks = split_into_chunks(data, num_chunks);
    let last: ChunkMeta = chunks[chunks.len() - 1];
    let total: u32 = last.start_line + last.line_count;
    if total > LINE_MASK {
        ScanPlan::TooManyLines(total)
    } else {
        ScanPlan::Chunked(chunks)
    }
}

/// Why a trace with so many lines is not scanned.
pub open spec fn too_many_lines_text(total: u32) -> Seq<char> {
    "文件行数 "@ + decimal_text(total as u64) + " 超过当前支持的最大值 "@ + decimal_text(
        LINE_MASK as u64,
    ) + "（约 5.36 亿行）。"@
}

/// Why a trace with so many lines is not scanned.
pub fn too_many_lines(total: u32) -> (s: String)
    ensures
        s@ == too_many_lines_text(total),
{
    let mut s = "文件行数 ".to_owned();
    push_decimal(&mut s, total as u64);
    push_text(&mut s, " 超过当前支持的最大值 ");
    push_decimal(&mut s, LINE_MASK as u64);
    push_text(&mut s, "（约 5.36 亿行）。");
    s
}

/// The chunks cover the trace: each ends where the next one starts, and lines
/// are numbered through.
pub proof fn law_chunks_cover_the_trace(data: Seq<u8>, starts: Seq<int>, chunks: Seq<ChunkMeta>, k: int)
    requires
        starts_ok(data, starts),
        chunks.len() == starts.len(),
        forall|i: int|
            #![trigger chunks[i]]
            0 <= i < chunks.len() ==> is_chunk(
                chunks[i],
                data,
                starts[i],
                chunk_end(data, starts, i),
            ),
        0 <= k < chunks.len() - 1,
    ensures
        chunks[0].start_byte == 0,
        chunks.last().end_byte == data.len(),
        chunks[k].end_byte == chunks[k + 1].start_byte,
        chunks[k].start_byte < chunks[k].end_byte,
        chunks[k].start_line + chunks[k].line_count == chunks[k + 1].start_line,
{
    assert(is_chunk(chunks[0], data, starts[0], chunk_end(data, starts, 0)));
    assert(is_chunk(chunks[k], data, starts[k], chunk_end(data, starts, k)));
    assert(is_chunk(chunks[k + 1], data, starts[k + 1], chunk_end(data, starts, k + 1)));
    assert(starts[k] < starts[k + 1]);
    assert(data[starts[k + 1] - 1] == NEWLINE);
    lemma_count_split(data, starts[k], starts[k + 1]);
    let piece = data.subrange(starts[k], starts[k + 1]);
    assert(piece.last() == data[starts[k + 1] - 1]);
}

} // verus!
