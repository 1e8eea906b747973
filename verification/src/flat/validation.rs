//! Whether what was read from a cache makes sense as a whole.

use crate::flat::archives::{FlatDeps, Phase2Archive, ScanArchive};
use crate::types::REG_COUNT;
use vstd::prelude::*;

verus! {

/// Offsets into a list of the given length: from 0 to its end, never back.
pub open spec fn are_offsets(s: Seq<u32>, data_len: int) -> bool {
    &&& s.len() > 0
    &&& s[0] == 0
    &&& s.last() == data_len
    &&& forall|i: int, j: int| #![trigger s[i], s[j]] 0 <= i <= j < s.len() ==> s[i] <= s[j]
}

/// Strictly ascending numbers.
pub open spec fn climbs32(s: Seq<u32>) -> bool {
    forall|i: int, j: int| #![trigger s[i], s[j]] 0 <= i < j < s.len() ==> s[i] < s[j]
}

/// Strictly ascending numbers.
pub open spec fn climbs64(s: Seq<u64>) -> bool {
    forall|i: int, j: int| #![trigger s[i], s[j]] 0 <= i < j < s.len() ==> s[i] < s[j]
}

/// Whether `offsets[start..end]` are offsets into a list of the given length.
pub fn valid_csr_offsets(offsets: &Vec<u32>, start: usize, end: usize, data_len: usize) -> (b: bool)
    requires
        start <= end <= offsets@.len(),
    ensures
        b == are_offsets(offsets@.subrange(start as int, end as int), data_len as int),
{
    let ghost s = offsets@.subrange(start as int, end as int);
    if start == end || offsets[start] != 0 || offsets[end - 1] as usize != data_len {
        assert(s.len() > 0 ==> s[0] == offsets@[start as int] && s.last() == offsets@[end - 1]);
        return false;
    }
    let mut i: usize = start + 1;
    while i < end
        invariant
            start < i <= end <= offsets@.len(),
            s == offsets@.subrange(start as int, end as int),
            forall|a: int, b: int|
                #![trigger s[a], s[b]]
                0 <= a <= b < i - start ==> s[a] <= s[b],
        decreases end - i,
    {
        let ghost k = i - start;
        assert(s[k - 1] == offsets@[i - 1] && s[k] == offsets@[i as int]);
        if offsets[i - 1] > offsets[i] {
            assert(s[k - 1] > s[k]);
            return false;
        }
        assert forall|a: int, b: int| #![trigger s[a], s[b]] 0 <= a <= b < k + 1 implies s[a]
            <= s[b] by {
            if b == k && a < k {
                assert(s[a] <= s[k - 1]);
            }
        }
        i += 1;
    }
    assert(s[0] == 0 && s.last() == data_len);
    true
}

fn ascends32(s: &Vec<u32>) -> (b: bool)
    ensures
        b == climbs32(s@),
{
    let mut i: usize = 1;
    while i < s.len()
        invariant
            1 <= i,
            i <= s@.len() || i == 1,
            forall|a: int, b: int|
                #![trigger s@[a], s@[b]]
                0 <= a < b < i && b < s@.len() ==> s@[a] < s@[b],
        decreases s@.len() - i,
    {
        if s[i - 1] >= s[i] {
            assert(s@[i - 1] >= s@[i as int]);
            return false;
        }
        assert forall|a: int, b: int| #![trigger s@[a], s@[b]] 0 <= a < b < i + 1 implies s@[a]
            < s@[b] by {
            if b == i && a < i - 1 {
                assert(s@[a] < s@[i - 1]);
            }
        }
        i += 1;
    }
    true
}

fn ascends64(s: &Vec<u64>) -> (b: bool)
    ensures
        b == climbs64(s@),
{
    let mut i: usize = 1;
    while i < s.len()
        invariant
            1 <= i,
            i <= s@.len() || i == 1,
            forall|a: int, b: int|
                #![trigger s@[a], s@[b]]
                0 <= a < b < i && b < s@.len() ==> s@[a] < s@[b],
        decreases s@.len() - i,
    {
        if s[i - 1] >= s[i] {
            assert(s@[i - 1] >= s@[i as int]);
            return false;
        }
        assert forall|a: int, b: int| #![trigger s@[a], s@[b]] 0 <= a < b < i + 1 implies s@[a]
            < s@[b] by {
            if b == i && a < i - 1 {
                assert(s@[a] < s@[i - 1]);
            }
        }
        i += 1;
    }
    true
}

// ---------------------------------------------------------------------------
// Accesses and snapshots
// ---------------------------------------------------------------------------

/// Accesses are listed by ascending address, and there are as many snapshots as
/// announced.
pub open spec fn phase2_sound(a: Phase2Archive) -> bool {
    let m = a.mem_accesses;
    let c = a.reg_checkpoints;
    &&& m.offsets@.len() == m.addrs@.len() + 1
    &&& are_offsets(m.offsets@, m.records@.len() as int)
    &&& climbs64(m.addrs@)
    &&& c.count > 0 ==> c.interval > 0
    &&& c.count * REG_COUNT == c.data@.len()
}

/// The archive, if it is sound.
pub fn phase2_raw(a: Phase2Archive) -> (r: Option<Phase2Archive>)
    ensures
        r == (if phase2_sound(a) {
            Some(a)
        } else {
            None
        }),
{
    let m = &a.mem_accesses;
    let c = &a.reg_checkpoints;
    assert(m.offsets@.subrange(0, m.offsets@.len() as int) =~= m.offsets@);
    if m.offsets.len() == 0 || m.offsets.len() - 1 != m.addrs.len() {
        return None;
    }
    if !valid_csr_offsets(&m.offsets, 0, m.offsets.len(), m.records.len()) || !ascends64(&m.addrs) {
        return None;
    }
    if c.count > 0 && c.interval == 0 {
        return None;
    }
    if c.count as u64 * 98 != c.data.len() as u64 {
        return None;
    }
    Some(a)
}

// ---------------------------------------------------------------------------
// Scans
// ---------------------------------------------------------------------------

/// Where chunk `k` ends: where the next one starts, or at the end.
pub open spec fn chunk_end(starts: Seq<u32>, k: int, total: int) -> int {
    if k + 1 < starts.len() {
        starts[k + 1] as int
    } else {
        total
    }
}

/// The rows of chunk `k`: one more offset than lines, into the data of the
/// chunk.
pub open spec fn chunk_sound(d: FlatDeps, k: int, line_count: u32) -> bool {
    let lines = chunk_end(d.chunk_start_lines@, k, line_count as int) - d.chunk_start_lines@[k];
    let first = d.chunk_offsets_start@[k] as int;
    let end = chunk_end(d.chunk_offsets_start@, k, d.all_offsets@.len() as int);
    let data = d.chunk_data_start@[k] as int;
    let data_end = chunk_end(d.chunk_data_start@, k, d.all_data@.len() as int);
    &&& lines >= 0
    &&& end - first == lines + 1
    &&& end <= d.all_offsets@.len()
    &&& data <= data_end <= d.all_data@.len()
    &&& are_offsets(d.all_offsets@.subrange(first, end), data_end - data)
}

/// Chunks follow each other from line 0 on, and so do patches within the trace.
pub open spec fn deps_sound(d: FlatDeps, line_count: u32) -> bool {
    let starts = d.chunk_start_lines@;
    &&& starts.len() == d.chunk_offsets_start@.len()
    &&& starts.len() == d.chunk_data_start@.len()
    &&& starts.len() > 0
    &&& starts[0] == 0
    &&& climbs32(starts)
    &&& starts.last() <= line_count
    &&& climbs32(d.patch_lines@)
    &&& d.patch_lines@.len() > 0 ==> d.patch_lines@.last() < line_count
    &&& if d.patch_lines@.len() == 0 {
        d.patch_offsets@.len() == 0 && d.patch_data@.len() == 0
    } else {
        d.patch_offsets@.len() == d.patch_lines@.len() + 1 && are_offsets(
            d.patch_offsets@,
            d.patch_data@.len() as int,
        )
    }
    &&& forall|k: int| 0 <= k < starts.len() ==> #[trigger] chunk_sound(d, k, line_count)
}

fn chunk_bound(starts: &Vec<u32>, k: usize, total: usize) -> (end: usize)
    requires
        k < starts@.len(),
    ensures
        end == chunk_end(starts@, k as int, total as int),
{
    if k < starts.len() - 1 {
        starts[k + 1] as usize
    } else {
        total
    }
}

/// Whether the dependencies make sense.
pub fn valid_deps(d: &FlatDeps, line_count: u32) -> (b: bool)
    ensures
        b == deps_sound(*d, line_count),
{
    let n: usize = d.chunk_start_lines.len();
    if n != d.chunk_offsets_start.len() || n != d.chunk_data_start.len() || n == 0
        || d.chunk_start_lines[0] != 0 || !ascends32(&d.chunk_start_lines)
        || d.chunk_start_lines[n - 1] > line_count || !ascends32(&d.patch_lines) {
        return false;
    }
    let patches: usize = d.patch_lines.len();
    if patches > 0 && d.patch_lines[patches - 1] >= line_count {
        return false;
    }
    assert(d.patch_offsets@.subrange(0, d.patch_offsets@.len() as int) =~= d.patch_offsets@);
    if patches == 0 {
        if d.patch_offsets.len() > 0 || d.patch_data.len() > 0 {
            return false;
        }
    } else if d.patch_offsets.len() == 0 || d.patch_offsets.len() - 1 != patches
        || !valid_csr_offsets(&d.patch_offsets, 0, d.patch_offsets.len(), d.patch_data.len()) {
        return false;
    }
    let mut k: usize = 0;
    while k < n
        invariant
            k <= n,
            n == d.chunk_start_lines@.len(),
            n == d.chunk_offsets_start@.len(),
            n == d.chunk_data_start@.len(),
            forall|j: int| 0 <= j < k ==> #[trigger] chunk_sound(*d, j, line_count),
        decreases n - k,
    {
        let line_start: usize = d.chunk_start_lines[k] as usize;
        let line_end: usize = chunk_bound(&d.chunk_start_lines, k, line_count as usize);
        let first: usize = d.chunk_offsets_start[k] as usize;
        let end: usize = chunk_bound(&d.chunk_offsets_start, k, d.all_offsets.len());
        let data: usize = d.chunk_data_start[k] as usize;
        let data_end: usize = chunk_bound(&d.chunk_data_start, k, d.all_data.len());
        if line_end < line_start || end < first || end - first == 0 || end - first - 1 != line_end
            - line_start || end > d.all_offsets.len() || data_end < data || data_end
            > d.all_data.len() {
            assert(!chunk_sound(*d, k as int, line_count));
            return false;
        }
        if !valid_csr_offsets(&d.all_offsets, first, end, data_end - data) {
            assert(!chunk_sound(*d, k as int, line_count));
            return false;
        }
        k += 1;
    }
    true
}

/// The parts of a scan agree with each other.
pub open spec fn scan_sound(a: ScanArchive) -> bool {
    &&& deps_sound(a.deps, a.line_count)
    &&& a.mem_last_def.addrs@.len() == a.mem_last_def.lines@.len()
    &&& a.mem_last_def.addrs@.len() == a.mem_last_def.values@.len()
    &&& climbs64(a.mem_last_def.addrs@)
    &&& a.pair_split.seg_offsets@.len() == 3 * a.pair_split.keys@.len() + 1
    &&& climbs32(a.pair_split.keys@)
    &&& are_offsets(a.pair_split.seg_offsets@, a.pair_split.data@.len() as int)
    &&& a.init_mem_loads.data@.len() == (a.init_mem_loads.len + 7) / 8
    &&& a.reg_last_def_inner@.len() == REG_COUNT
    &&& a.parsed_count <= a.line_count
    &&& a.mem_op_count <= a.parsed_count
}

/// The scan, if its parts agree with each other.
pub fn scan_raw(a: ScanArchive) -> (r: Option<ScanArchive>)
    ensures
        r == (if scan_sound(a) {
            Some(a)
        } else {
            None
        }),
{
    if !valid_deps(&a.deps, a.line_count) {
        return None;
    }
    let m = &a.mem_last_def;
    if m.addrs.len() != m.lines.len() || m.addrs.len() != m.values.len() || !ascends64(&m.addrs) {
        return None;
    }
    let p = &a.pair_split;
    assert(p.seg_offsets@.subrange(0, p.seg_offsets@.len() as int) =~= p.seg_offsets@);
    if p.seg_offsets.len() == 0 || (p.seg_offsets.len() - 1) % 3 != 0 || (p.seg_offsets.len() - 1)
        / 3 != p.keys.len() || !ascends32(&p.keys) || !valid_csr_offsets(
        &p.seg_offsets,
        0,
        p.seg_offsets.len(),
        p.data.len(),
    ) {
        return None;
    }
    if (a.init_mem_loads.len as u64 + 7) / 8 != a.init_mem_loads.data.len() as u64 {
        return None;
    }
    if a.reg_last_def_inner.len() != REG_COUNT || a.parsed_count > a.line_count || a.mem_op_count
        > a.parsed_count {
        return None;
    }
    Some(a)
}

} // verus!
