//! Queries on the memory of a trace.

use crate::engine::call_tree::{place_text, resolve_offset};
use crate::engine::session::{LineFact, TraceEngine, TraceSession};
use crate::engine::strings::{disasm_at, disasm_of, mem_rw_str, mem_rw_text};
use crate::error::{cache_error, is_cache_error, is_unknown_session, TraceError};
use crate::query::mem_access::{accesses_at, MemAccessIndex, MemAccessRecord};
use crate::text::{address, address_text};
use vstd::prelude::*;

verus! {

/// A stretch of memory; bytes that no access shows are unknown.
#[derive(Debug, Clone, PartialEq, Eq)]
pub struct MemorySnapshot {
    pub base_addr: String,
    pub bytes: Vec<u8>,
    pub known: Vec<bool>,
    pub length: u32,
}

/// Accesses stand in the order of their lines.
pub open spec fn in_line_order(records: Seq<MemAccessRecord>) -> bool {
    forall|i: int, j: int|
        #![trigger records[i], records[j]]
        0 <= i <= j < records.len() ==> records[i].seq <= records[j].seq
}

pub open spec fn index_in_order(m: Map<u64, Seq<MemAccessRecord>>) -> bool {
    forall|addr: u64| #[trigger] m.contains_key(addr) ==> in_line_order(m[addr])
}

/// Number of accesses before a line.
pub open spec fn count_before(records: Seq<MemAccessRecord>, limit: int) -> int
    decreases records.len(),
{
    if records.len() == 0 {
        0
    } else if records.last().seq < limit {
        records.len() as int
    } else {
        count_before(records.drop_last(), limit)
    }
}

proof fn lemma_count_before(records: Seq<MemAccessRecord>, limit: int, n: int)
    requires
        0 <= n <= records.len(),
        forall|i: int| #![trigger records[i]] n <= i < records.len() ==> records[i].seq >= limit,
        n > 0 ==> records[n - 1].seq < limit,
    ensures
        count_before(records, limit) == n,
    decreases records.len(),
{
    if records.len() > n {
        let rest = records.drop_last();
        assert forall|i: int| #![trigger rest[i]] n <= i < rest.len() implies rest[i].seq >= limit by {
            assert(rest[i] == records[i]);
        }
        lemma_count_before(rest, limit, n);
    }
}

/// Number of accesses before a line, by bisection.
fn partition(records: &Vec<MemAccessRecord>, limit: u64) -> (n: usize)
    requires
        in_line_order(records@),
    ensures
        n == count_before(records@, limit as int),
        n <= records@.len(),
{
    let mut low: usize = 0;
    let mut high: usize = records.len();
    while low < high
        invariant
            low <= high <= records@.len(),
            in_line_order(records@),
            forall|i: int| #![trigger records@[i]] 0 <= i < low ==> records@[i].seq < limit,
            forall|i: int|
                #![trigger records@[i]]
                high <= i < records@.len() ==> records@[i].seq >= limit,
        decreases high - low,
    {
        let mid: usize = low + (high - low) / 2;
        if (records[mid].seq as u64) < limit {
            assert forall|i: int| #![trigger records@[i]] 0 <= i < mid + 1 implies records@[i].seq
                < limit by {
                assert(records@[i].seq <= records@[mid as int].seq);
            }
            low = mid + 1;
        } else {
            assert forall|i: int| #![trigger records@[i]] mid <= i < records@.len() implies records@[i].seq
                >= limit by {
                assert(records@[mid as int].seq <= records@[i].seq);
            }
            high = mid;
        }
    }
    proof {
        lemma_count_before(records@, limit as int, low as int);
    }
    low
}

// ---------------------------------------------------------------------------
// Snapshots
// ---------------------------------------------------------------------------

/// The last access at or before a line.
pub open spec fn latest(records: Seq<MemAccessRecord>, seq: u32) -> Option<MemAccessRecord> {
    let n = count_before(records, seq + 1);
    if n > 0 {
        Some(records[n - 1])
    } else {
        None
    }
}

/// Byte `k` of a value, the lowest first.
pub open spec fn value_byte(data: u64, k: u64) -> u8 {
    ((data >> (k * 8) as u64) & 0xFF) as u8
}

/// What the last access that starts `k` bytes below shows of a byte, and when.
pub open spec fn shown_from(
    m: Map<u64, Seq<MemAccessRecord>>,
    byte_addr: u64,
    k: u64,
    seq: u32,
) -> Option<(u32, u8)> {
    if byte_addr < k {
        None
    } else {
        match latest(accesses_at(m, (byte_addr - k) as u64), seq) {
            Some(r) => if k < r.size {
                Some((r.seq, value_byte(r.data, k)))
            } else {
                None
            },
            None => None,
        }
    }
}

/// What the accesses that start fewer than `n` bytes below show of a byte: the
/// latest counts, and of two at one line the one that starts closer.
pub open spec fn shown_byte(
    m: Map<u64, Seq<MemAccessRecord>>,
    byte_addr: u64,
    seq: u32,
    n: int,
) -> Option<(u32, u8)>
    decreases n,
{
    if n <= 0 {
        None
    } else {
        let closer = shown_byte(m, byte_addr, seq, n - 1);
        match shown_from(m, byte_addr, (n - 1) as u64, seq) {
            Some((at, byte)) => match closer {
                Some((best, _)) => if at > best {
                    Some((at, byte))
                } else {
                    closer
                },
                None => Some((at, byte)),
            },
            None => closer,
        }
    }
}

/// The start of the 16 bytes around an address.
pub open spec fn row_start(addr: u64) -> u64 {
    (addr - addr % 16) as u64
}

/// At least one row is shown.
pub open spec fn shown_len(length: u32) -> int {
    if length < 16 {
        16
    } else {
        length as int
    }
}

/// The snapshot shows the memory at a line.
pub open spec fn is_snapshot(
    s: MemorySnapshot,
    m: Map<u64, Seq<MemAccessRecord>>,
    addr: u64,
    seq: u32,
    length: u32,
) -> bool {
    &&& s.base_addr@ == address_text(row_start(addr))
    &&& s.length == shown_len(length)
    &&& s.bytes@.len() == shown_len(length)
    &&& s.known@.len() == shown_len(length)
    &&& forall|i: int|
        #![trigger s.bytes@[i]]
        #![trigger s.known@[i]]
        0 <= i < shown_len(length) ==> match shown_byte(m, (row_start(addr) + i) as u64, seq, 8) {
            Some((_, byte)) => s.known@[i] && s.bytes@[i] == byte,
            None => !s.known@[i] && s.bytes@[i] == 0,
        }
}

fn byte_at(m: &MemAccessIndex, byte_addr: u64, seq: u32) -> (r: Option<u8>)
    requires
        index_in_order(m@),
    ensures
        match shown_byte(m@, byte_addr, seq, 8) {
            Some((_, byte)) => r == Some(byte),
            None => r is None,
        },
{
    let mut best: Option<(u32, u8)> = None;
    let mut k: u64 = 0;
    while k < 8
        invariant
            k <= 8,
            index_in_order(m@),
            best == shown_byte(m@, byte_addr, seq, k as int),
        decreases 8 - k,
    {
        if byte_addr >= k {
            if let Some(records) = m.get(byte_addr - k) {
                let n: usize = partition(records, seq as u64 + 1);
                if n > 0 {
                    let r: MemAccessRecord = records[n - 1];
                    if k < r.size as u64 {
                        let later: bool = match best {
                            Some((at, _)) => r.seq > at,
                            None => true,
                        };
                        if later {
                            best = Some((r.seq, ((r.data >> (k * 8)) & 0xFF) as u8));
                        }
                    }
                }
            }
        }
        k += 1;
    }
    match best {
        Some((_, byte)) => Some(byte),
        None => None,
    }
}

/// The memory around an address at a line.
pub fn memory_at(m: &MemAccessIndex, addr: u64, seq: u32, length: u32) -> (s: MemorySnapshot)
    requires
        index_in_order(m@),
        row_start(addr) + shown_len(length) <= u64::MAX + 1,
    ensures
        is_snapshot(s, m@, addr, seq, length),
{
    let base: u64 = addr & !0xFu64;
    assert(addr & !0xFu64 == addr - addr % 16) by (bit_vector);
    let len: u32 = if length < 16 {
        16
    } else {
        length
    };
    let mut bytes: Vec<u8> = Vec::new();
    let mut known: Vec<bool> = Vec::new();
    let mut i: u32 = 0;
    while i < len
        invariant
            i <= len,
            len == shown_len(length),
            base == row_start(addr),
            base + len <= u64::MAX + 1,
            index_in_order(m@),
            bytes@.len() == i,
            known@.len() == i,
            forall|k: int|
                #![trigger bytes@[k]]
                #![trigger known@[k]]
                0 <= k < i ==> match shown_byte(m@, (base + k) as u64, seq, 8) {
                    Some((_, byte)) => known@[k] && bytes@[k] == byte,
                    None => !known@[k] && bytes@[k] == 0,
                },
        decreases len - i,
    {
        match byte_at(m, base + i as u64, seq) {
            Some(byte) => {
                bytes.push(byte);
                known.push(true);
            },
            None => {
                bytes.push(0);
                known.push(false);
            },
        }
        i += 1;
    }
    MemorySnapshot { base_addr: address(base), bytes, known, length: len }
}

// ---------------------------------------------------------------------------
// Histories
// ---------------------------------------------------------------------------

/// Accesses that stand for a long history.
pub const SAMPLE_COUNT: usize = 300;

/// An access as it is shown.
#[derive(Debug, Clone, PartialEq, Eq)]
pub struct MemHistoryRecord {
    pub seq: u32,
    pub rw: String,
    pub data: String,
    pub size: u8,
    pub insn_addr: String,
    pub disasm: String,
}

/// The extent of a history, where a line stands in it, and samples of it if it
/// is long.
#[derive(Debug, Clone, PartialEq, Eq)]
pub struct MemHistoryMeta {
    pub total: usize,
    pub center_index: usize,
    pub samples: Vec<MemHistoryRecord>,
}

/// The record shows the access.
pub open spec fn shows_access(
    d: MemHistoryRecord,
    r: MemAccessRecord,
    lines: Option<Vec<LineFact>>,
) -> bool {
    &&& d.seq == r.seq
    &&& d.rw@ == mem_rw_text(r.rw)
    &&& d.data@ == address_text(r.data)
    &&& d.size == r.size
    &&& d.insn_addr@ == place_text(lines, r.seq, r.insn_addr)
    &&& d.disasm@ == disasm_at(lines, r.seq)
}

fn access_to_dto(r: &MemAccessRecord, lines: &Option<Vec<LineFact>>) -> (d: MemHistoryRecord)
    ensures
        shows_access(d, *r, *lines),
{
    MemHistoryRecord {
        seq: r.seq,
        rw: mem_rw_str(r.rw).to_owned(),
        data: address(r.data),
        size: r.size,
        insn_addr: resolve_offset(lines, r.seq, r.insn_addr),
        disasm: disasm_of(lines, r.seq),
    }
}

/// Position of a line in a history; beyond the end it is that of the last
/// access.
pub open spec fn center_of(records: Seq<MemAccessRecord>, seq: u32) -> int {
    let n = count_before(records, seq as int);
    if records.len() == 0 {
        0
    } else if n < records.len() {
        n
    } else {
        records.len() - 1
    }
}

/// The meta data of a history.
pub open spec fn is_meta(
    d: MemHistoryMeta,
    records: Seq<MemAccessRecord>,
    seq: u32,
    lines: Option<Vec<LineFact>>,
) -> bool {
    &&& d.total == records.len()
    &&& d.center_index == center_of(records, seq)
    &&& if records.len() <= SAMPLE_COUNT {
        d.samples@.len() == 0
    } else {
        &&& d.samples@.len() == SAMPLE_COUNT
        &&& forall|i: int|
            #![trigger d.samples@[i]]
            0 <= i < SAMPLE_COUNT ==> shows_access(
                d.samples@[i],
                records[i * records.len() / (SAMPLE_COUNT as int)],
                lines,
            )
    }
}

fn history_meta(records: &Vec<MemAccessRecord>, seq: u32, lines: &Option<Vec<LineFact>>) -> (d:
    MemHistoryMeta)
    requires
        in_line_order(records@),
    ensures
        is_meta(d, records@, seq, *lines),
{
    let n: usize = partition(records, seq as u64);
    let len: usize = records.len();
    let center_index: usize = if len == 0 {
        0
    } else if n < len {
        n
    } else {
        len - 1
    };
    let mut samples: Vec<MemHistoryRecord> = Vec::new();
    if len > SAMPLE_COUNT {
        let mut i: usize = 0;
        while i < SAMPLE_COUNT
            invariant
                i <= SAMPLE_COUNT,
                SAMPLE_COUNT < len,
                len == records@.len(),
                samples@.len() == i,
                forall|k: int|
                    #![trigger samples@[k]]
                    0 <= k < i ==> shows_access(
                        samples@[k],
                        records@[k * records@.len() / (SAMPLE_COUNT as int)],
                        *lines,
                    ),
            decreases SAMPLE_COUNT - i,
        {
            proof {
                assert(0 <= i * len <= 300 * len) by (nonlinear_arith)
                    requires
                        0 <= i < 300,
                        0 <= len,
                ;
                assert(i * len < 300 * len) by (nonlinear_arith)
                    requires
                        0 <= i < 300,
                        0 < len,
                ;
            }
            let idx: usize = ((i as u128) * (len as u128) / 300) as usize;
            samples.push(access_to_dto(&records[idx], lines));
            i += 1;
        }
    }
    MemHistoryMeta { total: len, center_index, samples }
}

/// A stretch of a history.
pub open spec fn history_page(
    records: Seq<MemAccessRecord>,
    start: usize,
    limit: usize,
) -> Seq<MemAccessRecord> {
    let first = if start < records.len() {
        start as int
    } else {
        records.len() as int
    };
    let end = if first + limit < records.len() {
        first + limit
    } else {
        records.len() as int
    };
    records.subrange(first, end)
}

/// The records show these accesses, in order.
pub open spec fn shows_accesses(
    d: Seq<MemHistoryRecord>,
    records: Seq<MemAccessRecord>,
    lines: Option<Vec<LineFact>>,
) -> bool {
    &&& d.len() == records.len()
    &&& forall|i: int|
        #![trigger d[i]]
        0 <= i < d.len() ==> shows_access(d[i], records[i], lines)
}

fn history_range(
    records: &Vec<MemAccessRecord>,
    start_index: usize,
    limit: usize,
    lines: &Option<Vec<LineFact>>,
) -> (d: Vec<MemHistoryRecord>)
    ensures
        shows_accesses(d@, history_page(records@, start_index, limit), *lines),
{
    let len: usize = records.len();
    let start: usize = if start_index < len {
        start_index
    } else {
        len
    };
    let end: usize = if limit < len - start {
        start + limit
    } else {
        len
    };
    let ghost page = history_page(records@, start_index, limit);
    let mut d: Vec<MemHistoryRecord> = Vec::new();
    let mut i: usize = start;
    while i < end
        invariant
            start <= i <= end <= records@.len(),
            page == records@.subrange(start as int, end as int),
            d@.len() == i - start,
            forall|k: int|
                #![trigger d@[k]]
                0 <= k < d@.len() ==> shows_access(d@[k], page[k], *lines),
        decreases end - i,
    {
        d.push(access_to_dto(&records[i], lines));
        i += 1;
    }
    d
}

/// The accesses of a session, if any, are in order.
pub open spec fn session_in_order(s: TraceSession) -> bool {
    s.mem_accesses matches Some(m) ==> index_in_order(m@)
}

impl TraceEngine {
    /// The memory around an address at a line.
    pub fn get_memory_at(&self, session_id: &str, addr: u64, seq: u32, length: u32) -> (r: Result<
        MemorySnapshot,
        TraceError,
    >)
        requires
            self.session(session_id@) matches Some(s) ==> session_in_order(s),
            row_start(addr) + shown_len(length) <= u64::MAX + 1,
        ensures
            match self.session(session_id@) {
                None => r matches Err(e) && is_unknown_session(e, session_id@),
                Some(s) => match s.mem_accesses {
                    None => r matches Err(TraceError::IndexNotReady),
                    Some(m) => r matches Ok(d) && is_snapshot(d, m@, addr, seq, length),
                },
            },
    {
        let state = match self.get_handle(session_id) {
            Ok(state) => state,
            Err(e) => {
                return Err(e);
            },
        };
        match &state.mem_accesses {
            Some(m) => Ok(memory_at(m, addr, seq, length)),
            None => Err(TraceError::IndexNotReady),
        }
    }

    /// The extent of the history of an address, and where a line stands in it.
    pub fn get_mem_history_meta(&self, session_id: &str, addr: u64, center_seq: u32) -> (r: Result<
        MemHistoryMeta,
        TraceError,
    >)
        requires
            self.session(session_id@) matches Some(s) ==> session_in_order(s),
        ensures
            match self.session(session_id@) {
                None => r matches Err(e) && is_unknown_session(e, session_id@),
                Some(s) => match s.mem_accesses {
                    None => r matches Err(TraceError::IndexNotReady),
                    Some(m) => r matches Ok(d) && is_meta(
                        d,
                        accesses_at(m@, addr),
                        center_seq,
                        s.lines,
                    ),
                },
            },
    {
        let state = match self.get_handle(session_id) {
            Ok(state) => state,
            Err(e) => {
                return Err(e);
            },
        };
        match &state.mem_accesses {
            Some(m) => match m.get(addr) {
                Some(records) => Ok(history_meta(records, center_seq, &state.lines)),
                None => Ok(MemHistoryMeta { total: 0, center_index: 0, samples: Vec::new() }),
            },
            None => Err(TraceError::IndexNotReady),
        }
    }

    /// A stretch of the history of an address.
    pub fn get_mem_history_range(
        &self,
        session_id: &str,
        addr: u64,
        start_index: usize,
        limit: usize,
    ) -> (r: Result<Vec<MemHistoryRecord>, TraceError>)
        ensures
            match self.session(session_id@) {
                None => r matches Err(e) && is_unknown_session(e, session_id@),
                Some(s) => match s.mem_accesses {
                    None => r matches Err(TraceError::IndexNotReady),
                    Some(m) => if m@.contains_key(addr) && s.lines is None {
                        r matches Err(TraceError::IndexNotReady)
                    } else {
                        r matches Ok(d) && shows_accesses(
                            d@,
                            history_page(accesses_at(m@, addr), start_index, limit),
                            s.lines,
                        )
                    },
                },
            },
    {
        let state = match self.get_handle(session_id) {
            Ok(state) => state,
            Err(e) => {
                return Err(e);
            },
        };
        let m: &MemAccessIndex = match &state.mem_accesses {
            Some(m) => m,
            None => {
                return Err(TraceError::IndexNotReady);
            },
        };
        let records: &Vec<MemAccessRecord> = match m.get(addr) {
            Some(records) => records,
            None => {
                return Ok(Vec::new());
            },
        };
        if state.lines.is_none() {
            return Err(TraceError::IndexNotReady);
        }
        Ok(history_range(records, start_index, limit, &state.lines))
    }
}

// ---------------------------------------------------------------------------
// Searches in a session
// ---------------------------------------------------------------------------

/// The identity of the file of an open trace.
#[derive(Debug, Clone, Copy, PartialEq, Eq, Structural)]
pub struct TraceMetadataSignature {
    pub len: u64,
    /// Nanoseconds since the epoch, if the file system tells.
    pub modified: Option<i128>,
    pub dev: u64,
    pub ino: u64,
    pub ctime: i64,
    pub ctime_nsec: i64,
}

pub open spec fn changed_after_text() -> Seq<char> {
    "trace changed after the session opened; reopen the trace"@
}

pub open spec fn changed_while_text() -> Seq<char> {
    "trace changed while memory search was running; retry after reopening"@
}

/// Before a search: the file is the one that was opened.
pub fn check_before_search(
    expected: &TraceMetadataSignature,
    observed: &TraceMetadataSignature,
) -> (r: Result<(), TraceError>)
    ensures
        if *observed == *expected {
            r is Ok
        } else {
            r matches Err(e) && is_cache_error(e, changed_after_text())
        },
{
    if *observed != *expected {
        return Err(cache_error("trace changed after the session opened; reopen the trace"));
    }
    Ok(())
}

/// After a search: what it found, or failed with, counts only if the file is
/// still the same.
pub fn settle_search<T>(
    expected: &TraceMetadataSignature,
    observed: &TraceMetadataSignature,
    result: Result<T, TraceError>,
) -> (r: Result<T, TraceError>)
    ensures
        if *observed == *expected {
            r == result
        } else {
            r matches Err(e) && is_cache_error(e, changed_while_text())
        },
{
    if *observed != *expected {
        return Err(
            cache_error("trace changed while memory search was running; retry after reopening"),
        );
    }
    result
}

} // verus!
