//! What the caches keep, as sections.

use crate::bytes::{
    from_le32, from_le64, law_le32_read_back, law_le64_read_back, le32, le64, push_le32, push_le64,
    read_le32, read_le64,
};
use crate::flat::cache_format::{
    bytes32, bytes64, has_elements, has_single, law_bytes32_read_back, law_bytes64_read_back,
    law_sections_read_back, lemma_bytes32_len, lemma_bytes64_len, packed, packed_len, readable,
    section_bytes, section_count, section_length, section_start, SectionReader, SectionWriter,
};
use crate::scanner::last_def::{RegLastDef, NO_DEF};
use crate::types::{RegId, REG_COUNT};
use vstd::prelude::*;

verus! {

/// Length of the header before the sections.
pub const HEADER_LEN: usize = 64;

// ---------------------------------------------------------------------------
// Parts
// ---------------------------------------------------------------------------

/// A memory access.
#[derive(Debug, Clone, Copy, PartialEq, Eq, Structural)]
pub struct FlatMemAccessRecord {
    pub insn_addr: u64,
    pub data: u64,
    pub seq: u32,
    pub size: u8,
    /// 0 for a read, 1 for a write.
    pub rw: u8,
}

/// Length of a record.
pub const RECORD_LEN: usize = 24;

/// Alignment of a record.
pub const RECORD_ALIGN: usize = 8;

/// The accesses of all addresses: those of address `i` are the records from
/// `offsets[i]` up to `offsets[i + 1]`.
#[derive(Debug, Clone, PartialEq, Eq)]
pub struct FlatMemAccess {
    pub addrs: Vec<u64>,
    pub offsets: Vec<u32>,
    pub records: Vec<FlatMemAccessRecord>,
}

/// Register snapshots, one after another.
#[derive(Debug, Clone, PartialEq, Eq)]
pub struct FlatRegCheckpoints {
    pub interval: u32,
    pub count: u32,
    pub data: Vec<u64>,
}

/// Dependencies by chunk, and patches of single lines.
#[derive(Debug, Clone, PartialEq, Eq)]
pub struct FlatDeps {
    pub chunk_start_lines: Vec<u32>,
    pub chunk_offsets_start: Vec<u32>,
    pub chunk_data_start: Vec<u32>,
    pub all_offsets: Vec<u32>,
    pub all_data: Vec<u32>,
    pub patch_lines: Vec<u32>,
    pub patch_offsets: Vec<u32>,
    pub patch_data: Vec<u32>,
}

/// The last write of each address.
#[derive(Debug, Clone, PartialEq, Eq)]
pub struct FlatMemLastDef {
    pub addrs: Vec<u64>,
    pub lines: Vec<u32>,
    pub values: Vec<u64>,
}

/// Dependencies of the halves of pair accesses, three segments per line.
#[derive(Debug, Clone, PartialEq, Eq)]
pub struct FlatPairSplit {
    pub keys: Vec<u32>,
    pub seg_offsets: Vec<u32>,
    pub data: Vec<u32>,
}

/// Bits, eight per byte.
#[derive(Debug, Clone, PartialEq, Eq)]
pub struct FlatBitVec {
    pub data: Vec<u8>,
    pub len: u32,
}

/// A record as bytes.
pub open spec fn record_bytes(r: FlatMemAccessRecord) -> Seq<u8> {
    le64(r.insn_addr) + le64(r.data) + le32(r.seq) + seq![r.size, r.rw, 0u8, 0u8]
}

/// Records as bytes.
pub open spec fn records_bytes(s: Seq<FlatMemAccessRecord>) -> Seq<u8>
    decreases s.len(),
{
    if s.len() == 0 {
        Seq::empty()
    } else {
        records_bytes(s.drop_last()) + record_bytes(s.last())
    }
}

/// The record that 24 bytes hold; the last two are not looked at.
pub open spec fn record_of(b: Seq<u8>) -> FlatMemAccessRecord {
    FlatMemAccessRecord {
        insn_addr: from_le64(b.subrange(0, 8)),
        data: from_le64(b.subrange(8, 16)),
        seq: from_le32(b.subrange(16, 20)),
        size: b[20],
        rw: b[21],
    }
}

/// The records that bytes hold.
pub open spec fn are_records(s: Seq<FlatMemAccessRecord>, b: Seq<u8>) -> bool {
    &&& b.len() == 24 * s.len()
    &&& forall|i: int|
        #![trigger s[i]]
        0 <= i < s.len() ==> s[i] == record_of(b.subrange(24 * i, 24 * i + 24))
}

proof fn lemma_record(r: FlatMemAccessRecord)
    ensures
        record_bytes(r).len() == 24,
        record_of(record_bytes(r)) == r,
{
    law_le64_read_back(r.insn_addr);
    law_le64_read_back(r.data);
    law_le32_read_back(r.seq);
    let b = record_bytes(r);
    assert(b.subrange(0, 8) =~= le64(r.insn_addr));
    assert(b.subrange(8, 16) =~= le64(r.data));
    assert(b.subrange(16, 20) =~= le32(r.seq));
}

/// Records are read back.
proof fn lemma_records(s: Seq<FlatMemAccessRecord>)
    ensures
        records_bytes(s).len() == 24 * s.len(),
        are_records(s, records_bytes(s)),
    decreases s.len(),
{
    if s.len() > 0 {
        let rest = s.drop_last();
        lemma_records(rest);
        lemma_record(s.last());
        let b = records_bytes(s);
        assert forall|i: int| #![trigger s[i]] 0 <= i < s.len() implies s[i] == record_of(
            b.subrange(24 * i, 24 * i + 24),
        ) by {
            if i < rest.len() {
                assert(b.subrange(24 * i, 24 * i + 24) =~= records_bytes(rest).subrange(
                    24 * i,
                    24 * i + 24,
                ));
                assert(rest[i] == s[i]);
            } else {
                assert(b.subrange(24 * i, 24 * i + 24) =~= record_bytes(s.last()));
            }
        }
    }
}

fn encode_records(records: &Vec<FlatMemAccessRecord>) -> (out: Vec<u8>)
    ensures
        out@ == records_bytes(records@),
{
    let mut out: Vec<u8> = Vec::new();
    let mut i: usize = 0;
    assert(records@.take(0) =~= Seq::empty());
    while i < records.len()
        invariant
            i <= records@.len(),
            out@ == records_bytes(records@.take(i as int)),
        decreases records@.len() - i,
    {
        let r: FlatMemAccessRecord = records[i];
        let ghost before = out@;
        push_le64(&mut out, r.insn_addr);
        push_le64(&mut out, r.data);
        push_le32(&mut out, r.seq);
        out.push(r.size);
        out.push(r.rw);
        out.push(0);
        out.push(0);
        assert(records@.take(i + 1).drop_last() =~= records@.take(i as int));
        assert(out@ =~= before + record_bytes(r));
        i += 1;
    }
    assert(records@.take(records@.len() as int) =~= records@);
    out
}

fn decode_records(b: &[u8]) -> (s: Vec<FlatMemAccessRecord>)
    requires
        b@.len() % 24 == 0,
    ensures
        are_records(s@, b@),
{
    let n: usize = b.len() / 24;
    let mut s: Vec<FlatMemAccessRecord> = Vec::new();
    let mut i: usize = 0;
    while i < n
        invariant
            i <= n,
            b@.len() == 24 * n,
            b@.len() <= usize::MAX,
            s@.len() == i,
            forall|k: int|
                #![trigger s@[k]]
                0 <= k < i ==> s@[k] == record_of(b@.subrange(24 * k, 24 * k + 24)),
        decreases n - i,
    {
        let at: usize = 24 * i;
        let ghost part = b@.subrange(24 * i, 24 * i + 24);
        let r = FlatMemAccessRecord {
            insn_addr: read_le64(b, at),
            data: read_le64(b, at + 8),
            seq: read_le32(b, at + 16),
            size: b[at + 20],
            rw: b[at + 21],
        };
        proof {
            assert(part.subrange(0, 8) =~= b@.subrange(at as int, at + 8));
            assert(part.subrange(8, 16) =~= b@.subrange(at + 8, at + 16));
            assert(part.subrange(16, 20) =~= b@.subrange(at + 16, at + 20));
        }
        s.push(r);
        i += 1;
    }
    s
}

fn copy_bytes(b: &[u8]) -> (v: Vec<u8>)
    ensures
        v@ == b@,
{
    let mut v: Vec<u8> = Vec::new();
    crate::bytes::push_all(&mut v, b);
    assert(v@ =~= b@);
    v
}

/// The length of a section is that of its bytes.
proof fn lemma_section_len(data: Seq<u8>, i: int)
    requires
        readable(data),
        0 <= i < section_count(data),
    ensures
        section_length(data, i) == section_bytes(data, i).len(),
{
    assert(crate::flat::cache_format::section_fits(data, i));
}

proof fn lemma_form32(data: Seq<u8>, i: int, s: Seq<u32>)
    requires
        readable(data),
        0 <= i < section_count(data),
        section_bytes(data, i) == bytes32(s),
        section_start(data, i) % 8 == 0,
    ensures
        has_elements(data, i, 4, 4),
{
    lemma_section_len(data, i);
    lemma_bytes32_len(s);
}

proof fn lemma_form64(data: Seq<u8>, i: int, s: Seq<u64>)
    requires
        readable(data),
        0 <= i < section_count(data),
        section_bytes(data, i) == bytes64(s),
        section_start(data, i) % 8 == 0,
    ensures
        has_elements(data, i, 8, 8),
{
    lemma_section_len(data, i);
    lemma_bytes64_len(s);
}

proof fn lemma_form8(data: Seq<u8>, i: int)
    requires
        readable(data),
        0 <= i < section_count(data),
    ensures
        has_elements(data, i, 1, 1),
{
}

proof fn lemma_form_single(data: Seq<u8>, i: int, v: u32)
    requires
        readable(data),
        0 <= i < section_count(data),
        section_bytes(data, i) == le32(v),
        section_start(data, i) % 8 == 0,
    ensures
        has_single(data, i, 4),
{
    lemma_section_len(data, i);
    law_le32_read_back(v);
}

proof fn lemma_form_records(data: Seq<u8>, i: int, s: Seq<FlatMemAccessRecord>)
    requires
        readable(data),
        0 <= i < section_count(data),
        section_bytes(data, i) == records_bytes(s),
        section_start(data, i) % 8 == 0,
    ensures
        has_elements(data, i, 24, 8),
{
    lemma_section_len(data, i);
    lemma_records(s);
}

proof fn lemma_same_records(
    a: Seq<FlatMemAccessRecord>,
    b: Seq<FlatMemAccessRecord>,
    bytes: Seq<u8>,
)
    requires
        are_records(a, bytes),
        are_records(b, bytes),
    ensures
        a == b,
{
    assert(a =~= b);
}

// ---------------------------------------------------------------------------
// Accesses, snapshots and trees
// ---------------------------------------------------------------------------

/// Accesses, register snapshots and the two call trees, which are kept in a form
/// of their own.
#[derive(Debug, Clone, PartialEq, Eq)]
pub struct Phase2Archive {
    pub mem_accesses: FlatMemAccess,
    pub reg_checkpoints: FlatRegCheckpoints,
    pub call_tree_bytes: Vec<u8>,
    pub activation_tree_bytes: Vec<u8>,
}

/// The sections of the archive.
pub open spec fn phase2_contents(a: Phase2Archive) -> Seq<Seq<u8>> {
    Seq::empty()
        .push(bytes64(a.mem_accesses.addrs@))
        .push(bytes32(a.mem_accesses.offsets@))
        .push(records_bytes(a.mem_accesses.records@))
        .push(le32(a.reg_checkpoints.interval))
        .push(le32(a.reg_checkpoints.count))
        .push(bytes64(a.reg_checkpoints.data@))
        .push(a.call_tree_bytes@)
        .push(a.activation_tree_bytes@)
}

/// The file has the sections of the archive, and each has its form.
pub open spec fn phase2_ok(data: Seq<u8>) -> bool {
    &&& readable(data)
    &&& section_count(data) == 8
    &&& has_elements(data, 0, 8, 8)
    &&& has_elements(data, 1, 4, 4)
    &&& has_elements(data, 2, 24, 8)
    &&& has_single(data, 3, 4)
    &&& has_single(data, 4, 4)
    &&& has_elements(data, 5, 8, 8)
}

/// The archive holds what the sections of the file hold.
pub open spec fn is_phase2_of(v: Phase2Archive, data: Seq<u8>) -> bool {
    &&& bytes64(v.mem_accesses.addrs@) == section_bytes(data, 0)
    &&& bytes32(v.mem_accesses.offsets@) == section_bytes(data, 1)
    &&& are_records(v.mem_accesses.records@, section_bytes(data, 2))
    &&& v.reg_checkpoints.interval == from_le32(section_bytes(data, 3))
    &&& v.reg_checkpoints.count == from_le32(section_bytes(data, 4))
    &&& bytes64(v.reg_checkpoints.data@) == section_bytes(data, 5)
    &&& v.call_tree_bytes@ == section_bytes(data, 6)
    &&& v.activation_tree_bytes@ == section_bytes(data, 7)
}

/// The two archives hold the same.
pub open spec fn same_phase2(v: Phase2Archive, a: Phase2Archive) -> bool {
    &&& v.mem_accesses.addrs@ == a.mem_accesses.addrs@
    &&& v.mem_accesses.offsets@ == a.mem_accesses.offsets@
    &&& v.mem_accesses.records@ == a.mem_accesses.records@
    &&& v.reg_checkpoints.interval == a.reg_checkpoints.interval
    &&& v.reg_checkpoints.count == a.reg_checkpoints.count
    &&& v.reg_checkpoints.data@ == a.reg_checkpoints.data@
    &&& v.call_tree_bytes@ == a.call_tree_bytes@
    &&& v.activation_tree_bytes@ == a.activation_tree_bytes@
}

impl Phase2Archive {
    /// The archive as sections.
    pub fn to_sections(&self) -> (file: Vec<u8>)
        requires
            packed_len(phase2_contents(*self)) <= usize::MAX,
        ensures
            file@ == packed(phase2_contents(*self)),
    {
        let mut w = SectionWriter::new();
        w.write_slice(self.mem_accesses.addrs.as_slice());
        w.write_slice(self.mem_accesses.offsets.as_slice());
        w.write_bytes(encode_records(&self.mem_accesses.records).as_slice());
        w.write_u32(self.reg_checkpoints.interval);
        w.write_u32(self.reg_checkpoints.count);
        w.write_slice(self.reg_checkpoints.data.as_slice());
        w.write_bytes(self.call_tree_bytes.as_slice());
        w.write_bytes(self.activation_tree_bytes.as_slice());
        w.finish()
    }

    /// The archive that a file holds after its header. A file in any other form
    /// holds none.
    pub fn views_from_sections(data: &[u8]) -> (r: Option<Phase2Archive>)
        ensures
            match r {
                Some(v) => phase2_ok(data@) && is_phase2_of(v, data@),
                None => !phase2_ok(data@),
            },
    {
        let r = match SectionReader::new(data) {
            Some(r) => r,
            None => {
                return None;
            },
        };
        if r.num_sections() != 8 {
            return None;
        }
        if !r.is_valid_typed(0, 8)
            || !r.is_valid_typed(1, 4)
            || !r.is_valid_typed_align(2, RECORD_LEN, RECORD_ALIGN)
            || !r.is_valid_single(3, 4)
            || !r.is_valid_single(4, 4)
            || !r.is_valid_typed(5, 8) {
            return None;
        }
        Some(
            Phase2Archive {
                mem_accesses: FlatMemAccess {
                    addrs: r.slice(0),
                    offsets: r.slice(1),
                    records: decode_records(r.bytes(2)),
                },
                reg_checkpoints: FlatRegCheckpoints {
                    interval: r.u32_val(3),
                    count: r.u32_val(4),
                    data: r.slice(5),
                },
                call_tree_bytes: copy_bytes(r.bytes(6)),
                activation_tree_bytes: copy_bytes(r.bytes(7)),
            },
        )
    }
}

/// The sections of a file that holds the archive.
spec fn holds_phase2(data: Seq<u8>, a: Phase2Archive) -> bool {
    &&& section_bytes(data, 0) == bytes64(a.mem_accesses.addrs@)
    &&& section_bytes(data, 1) == bytes32(a.mem_accesses.offsets@)
    &&& section_bytes(data, 2) == records_bytes(a.mem_accesses.records@)
    &&& section_bytes(data, 3) == le32(a.reg_checkpoints.interval)
    &&& section_bytes(data, 4) == le32(a.reg_checkpoints.count)
    &&& section_bytes(data, 5) == bytes64(a.reg_checkpoints.data@)
    &&& section_bytes(data, 6) == a.call_tree_bytes@
    &&& section_bytes(data, 7) == a.activation_tree_bytes@
}

proof fn lemma_phase2_form(data: Seq<u8>, a: Phase2Archive)
    requires
        readable(data),
        section_count(data) == 8,
        holds_phase2(data, a),
        forall|i: int| 0 <= i < 8 ==> #[trigger] section_start(data, i) % 8 == 0,
    ensures
        phase2_ok(data),
{
    assert(section_start(data, 0) % 8 == 0);
    lemma_form64(data, 0, a.mem_accesses.addrs@);
    assert(section_start(data, 1) % 8 == 0);
    lemma_form32(data, 1, a.mem_accesses.offsets@);
    assert(section_start(data, 2) % 8 == 0);
    lemma_form_records(data, 2, a.mem_accesses.records@);
    assert(section_start(data, 3) % 8 == 0);
    lemma_form_single(data, 3, a.reg_checkpoints.interval);
    assert(section_start(data, 4) % 8 == 0);
    lemma_form_single(data, 4, a.reg_checkpoints.count);
    assert(section_start(data, 5) % 8 == 0);
    lemma_form64(data, 5, a.reg_checkpoints.data@);
    assert(section_start(data, 6) % 8 == 0);
    assert(section_start(data, 7) % 8 == 0);
}

proof fn lemma_phase2_same(data: Seq<u8>, a: Phase2Archive, v: Phase2Archive)
    requires
        holds_phase2(data, a),
    ensures
        is_phase2_of(v, data) <==> same_phase2(v, a),
{
    lemma_records(a.mem_accesses.records@);
    law_le32_read_back(a.reg_checkpoints.interval);
    law_le32_read_back(a.reg_checkpoints.count);
    if is_phase2_of(v, data) {
        law_bytes64_read_back(v.mem_accesses.addrs@, a.mem_accesses.addrs@);
        law_bytes32_read_back(v.mem_accesses.offsets@, a.mem_accesses.offsets@);
        lemma_same_records(v.mem_accesses.records@, a.mem_accesses.records@, section_bytes(data, 2));
        law_bytes64_read_back(v.reg_checkpoints.data@, a.reg_checkpoints.data@);
    }
}

/// What was kept is read back.
#[verifier::rlimit(80)]
pub proof fn law_phase2_reads_back(a: Phase2Archive, v: Phase2Archive)
    requires
        packed_len(phase2_contents(a)) <= u64::MAX,
    ensures
        phase2_ok(packed(phase2_contents(a))),
        is_phase2_of(v, packed(phase2_contents(a))) <==> same_phase2(v, a),
{
    let contents = phase2_contents(a);
    let data = packed(contents);
    law_sections_read_back(contents);
    assert(holds_phase2(data, a)) by {
        assert(section_bytes(data, 0) == contents[0]);
        assert(section_bytes(data, 1) == contents[1]);
        assert(section_bytes(data, 2) == contents[2]);
        assert(section_bytes(data, 3) == contents[3]);
        assert(section_bytes(data, 4) == contents[4]);
        assert(section_bytes(data, 5) == contents[5]);
        assert(section_bytes(data, 6) == contents[6]);
        assert(section_bytes(data, 7) == contents[7]);
    }
    assert forall|i: int| 0 <= i < 8 implies #[trigger] section_start(data, i) % 8 == 0 by {
        assert(section_bytes(data, i) == contents[i]);
    }
    lemma_phase2_form(data, a);
    lemma_phase2_same(data, a, v);
}

// ---------------------------------------------------------------------------
// Scans
// ---------------------------------------------------------------------------

/// The result of a scan.
#[derive(Debug, Clone, PartialEq, Eq)]
pub struct ScanArchive {
    pub deps: FlatDeps,
    pub mem_last_def: FlatMemLastDef,
    pub pair_split: FlatPairSplit,
    pub init_mem_loads: FlatBitVec,
    pub reg_last_def_inner: Vec<u32>,
    pub line_count: u32,
    pub parsed_count: u32,
    pub mem_op_count: u32,
}

/// The sections of the archive.
pub open spec fn scan_contents(a: ScanArchive) -> Seq<Seq<u8>> {
    Seq::empty()
        .push(bytes32(a.deps.chunk_start_lines@))
        .push(bytes32(a.deps.chunk_offsets_start@))
        .push(bytes32(a.deps.chunk_data_start@))
        .push(bytes32(a.deps.all_offsets@))
        .push(bytes32(a.deps.all_data@))
        .push(bytes32(a.deps.patch_lines@))
        .push(bytes32(a.deps.patch_offsets@))
        .push(bytes32(a.deps.patch_data@))
        .push(bytes64(a.mem_last_def.addrs@))
        .push(bytes32(a.mem_last_def.lines@))
        .push(bytes64(a.mem_last_def.values@))
        .push(bytes32(a.pair_split.keys@))
        .push(bytes32(a.pair_split.seg_offsets@))
        .push(bytes32(a.pair_split.data@))
        .push(a.init_mem_loads.data@)
        .push(le32(a.init_mem_loads.len))
        .push(bytes32(a.reg_last_def_inner@))
        .push(le32(a.line_count))
        .push(le32(a.parsed_count))
        .push(le32(a.mem_op_count))
}

/// The file has the sections of the archive, and each has its form.
pub open spec fn scan_ok(data: Seq<u8>) -> bool {
    &&& readable(data)
    &&& section_count(data) >= 20
    &&& has_elements(data, 0, 4, 4)
    &&& has_elements(data, 1, 4, 4)
    &&& has_elements(data, 2, 4, 4)
    &&& has_elements(data, 3, 4, 4)
    &&& has_elements(data, 4, 4, 4)
    &&& has_elements(data, 5, 4, 4)
    &&& has_elements(data, 6, 4, 4)
    &&& has_elements(data, 7, 4, 4)
    &&& has_elements(data, 8, 8, 8)
    &&& has_elements(data, 9, 4, 4)
    &&& has_elements(data, 10, 8, 8)
    &&& has_elements(data, 11, 4, 4)
    &&& has_elements(data, 12, 4, 4)
    &&& has_elements(data, 13, 4, 4)
    &&& has_elements(data, 14, 1, 1)
    &&& has_single(data, 15, 4)
    &&& has_elements(data, 16, 4, 4)
    &&& has_single(data, 17, 4)
    &&& has_single(data, 18, 4)
    &&& has_single(data, 19, 4)
}

/// The archive holds what the sections of the file hold.
pub open spec fn is_scan_of(v: ScanArchive, data: Seq<u8>) -> bool {
    &&& bytes32(v.deps.chunk_start_lines@) == section_bytes(data, 0)
    &&& bytes32(v.deps.chunk_offsets_start@) == section_bytes(data, 1)
    &&& bytes32(v.deps.chunk_data_start@) == section_bytes(data, 2)
    &&& bytes32(v.deps.all_offsets@) == section_bytes(data, 3)
    &&& bytes32(v.deps.all_data@) == section_bytes(data, 4)
    &&& bytes32(v.deps.patch_lines@) == section_bytes(data, 5)
    &&& bytes32(v.deps.patch_offsets@) == section_bytes(data, 6)
    &&& bytes32(v.deps.patch_data@) == section_bytes(data, 7)
    &&& bytes64(v.mem_last_def.addrs@) == section_bytes(data, 8)
    &&& bytes32(v.mem_last_def.lines@) == section_bytes(data, 9)
    &&& bytes64(v.mem_last_def.values@) == section_bytes(data, 10)
    &&& bytes32(v.pair_split.keys@) == section_bytes(data, 11)
    &&& bytes32(v.pair_split.seg_offsets@) == section_bytes(data, 12)
    &&& bytes32(v.pair_split.data@) == section_bytes(data, 13)
    &&& v.init_mem_loads.data@ == section_bytes(data, 14)
    &&& v.init_mem_loads.len == from_le32(section_bytes(data, 15))
    &&& bytes32(v.reg_last_def_inner@) == section_bytes(data, 16)
    &&& v.line_count == from_le32(section_bytes(data, 17))
    &&& v.parsed_count == from_le32(section_bytes(data, 18))
    &&& v.mem_op_count == from_le32(section_bytes(data, 19))
}

/// The two archives hold the same.
pub open spec fn same_scan(v: ScanArchive, a: ScanArchive) -> bool {
    &&& v.deps.chunk_start_lines@ == a.deps.chunk_start_lines@
    &&& v.deps.chunk_offsets_start@ == a.deps.chunk_offsets_start@
    &&& v.deps.chunk_data_start@ == a.deps.chunk_data_start@
    &&& v.deps.all_offsets@ == a.deps.all_offsets@
    &&& v.deps.all_data@ == a.deps.all_data@
    &&& v.deps.patch_lines@ == a.deps.patch_lines@
    &&& v.deps.patch_offsets@ == a.deps.patch_offsets@
    &&& v.deps.patch_data@ == a.deps.patch_data@
    &&& v.mem_last_def.addrs@ == a.mem_last_def.addrs@
    &&& v.mem_last_def.lines@ == a.mem_last_def.lines@
    &&& v.mem_last_def.values@ == a.mem_last_def.values@
    &&& v.pair_split.keys@ == a.pair_split.keys@
    &&& v.pair_split.seg_offsets@ == a.pair_split.seg_offsets@
    &&& v.pair_split.data@ == a.pair_split.data@
    &&& v.init_mem_loads.data@ == a.init_mem_loads.data@
    &&& v.init_mem_loads.len == a.init_mem_loads.len
    &&& v.reg_last_def_inner@ == a.reg_last_def_inner@
    &&& v.line_count == a.line_count
    &&& v.parsed_count == a.parsed_count
    &&& v.mem_op_count == a.mem_op_count
}

impl ScanArchive {
    /// The archive as sections.
    pub fn to_sections(&self) -> (file: Vec<u8>)
        requires
            packed_len(scan_contents(*self)) <= usize::MAX,
        ensures
            file@ == packed(scan_contents(*self)),
    {
        let mut w = SectionWriter::new();
        w.write_slice(self.deps.chunk_start_lines.as_slice());
        w.write_slice(self.deps.chunk_offsets_start.as_slice());
        w.write_slice(self.deps.chunk_data_start.as_slice());
        w.write_slice(self.deps.all_offsets.as_slice());
        w.write_slice(self.deps.all_data.as_slice());
        w.write_slice(self.deps.patch_lines.as_slice());
        w.write_slice(self.deps.patch_offsets.as_slice());
        w.write_slice(self.deps.patch_data.as_slice());
        w.write_slice(self.mem_last_def.addrs.as_slice());
        w.write_slice(self.mem_last_def.lines.as_slice());
        w.write_slice(self.mem_last_def.values.as_slice());
        w.write_slice(self.pair_split.keys.as_slice());
        w.write_slice(self.pair_split.seg_offsets.as_slice());
        w.write_slice(self.pair_split.data.as_slice());
        w.write_bytes(self.init_mem_loads.data.as_slice());
        w.write_u32(self.init_mem_loads.len);
        w.write_slice(self.reg_last_def_inner.as_slice());
        w.write_u32(self.line_count);
        w.write_u32(self.parsed_count);
        w.write_u32(self.mem_op_count);
        w.finish()
    }

    /// The archive that a file holds after its header. A file in any other form
    /// holds none.
    pub fn views_from_sections(data: &[u8]) -> (r: Option<ScanArchive>)
        ensures
            match r {
                Some(v) => scan_ok(data@) && is_scan_of(v, data@),
                None => !scan_ok(data@),
            },
    {
        let r = match SectionReader::new(data) {
            Some(r) => r,
            None => {
                return None;
            },
        };
        if r.num_sections() < 20 {
            return None;
        }
        if !r.is_valid_typed(0, 4)
            || !r.is_valid_typed(1, 4)
            || !r.is_valid_typed(2, 4)
            || !r.is_valid_typed(3, 4)
            || !r.is_valid_typed(4, 4)
            || !r.is_valid_typed(5, 4)
            || !r.is_valid_typed(6, 4)
            || !r.is_valid_typed(7, 4)
            || !r.is_valid_typed(8, 8)
            || !r.is_valid_typed(9, 4)
            || !r.is_valid_typed(10, 8)
            || !r.is_valid_typed(11, 4)
            || !r.is_valid_typed(12, 4)
            || !r.is_valid_typed(13, 4)
            || !r.is_valid_typed(14, 1)
            || !r.is_valid_single(15, 4)
            || !r.is_valid_typed(16, 4)
            || !r.is_valid_single(17, 4)
            || !r.is_valid_single(18, 4)
            || !r.is_valid_single(19, 4) {
            return None;
        }
        Some(
            ScanArchive {
                deps: FlatDeps {
                    chunk_start_lines: r.slice(0),
                    chunk_offsets_start: r.slice(1),
                    chunk_data_start: r.slice(2),
                    all_offsets: r.slice(3),
                    all_data: r.slice(4),
                    patch_lines: r.slice(5),
                    patch_offsets: r.slice(6),
                    patch_data: r.slice(7),
                },
                mem_last_def: FlatMemLastDef {
                    addrs: r.slice(8),
                    lines: r.slice(9),
                    values: r.slice(10),
                },
                pair_split: FlatPairSplit {
                    keys: r.slice(11),
                    seg_offsets: r.slice(12),
                    data: r.slice(13),
                },
                init_mem_loads: FlatBitVec {
                    data: copy_bytes(r.bytes(14)),
                    len: r.u32_val(15),
                },
                reg_last_def_inner: r.slice(16),
                line_count: r.u32_val(17),
                parsed_count: r.u32_val(18),
                mem_op_count: r.u32_val(19),
            },
        )
    }
}

/// The sections of a file that holds the archive.
spec fn holds_scan(data: Seq<u8>, a: ScanArchive) -> bool {
    &&& section_bytes(data, 0) == bytes32(a.deps.chunk_start_lines@)
    &&& section_bytes(data, 1) == bytes32(a.deps.chunk_offsets_start@)
    &&& section_bytes(data, 2) == bytes32(a.deps.chunk_data_start@)
    &&& section_bytes(data, 3) == bytes32(a.deps.all_offsets@)
    &&& section_bytes(data, 4) == bytes32(a.deps.all_data@)
    &&& section_bytes(data, 5) == bytes32(a.deps.patch_lines@)
    &&& section_bytes(data, 6) == bytes32(a.deps.patch_offsets@)
    &&& section_bytes(data, 7) == bytes32(a.deps.patch_data@)
    &&& section_bytes(data, 8) == bytes64(a.mem_last_def.addrs@)
    &&& section_bytes(data, 9) == bytes32(a.mem_last_def.lines@)
    &&& section_bytes(data, 10) == bytes64(a.mem_last_def.values@)
    &&& section_bytes(data, 11) == bytes32(a.pair_split.keys@)
    &&& section_bytes(data, 12) == bytes32(a.pair_split.seg_offsets@)
    &&& section_bytes(data, 13) == bytes32(a.pair_split.data@)
    &&& section_bytes(data, 14) == a.init_mem_loads.data@
    &&& section_bytes(data, 15) == le32(a.init_mem_loads.len)
    &&& section_bytes(data, 16) == bytes32(a.reg_last_def_inner@)
    &&& section_bytes(data, 17) == le32(a.line_count)
    &&& section_bytes(data, 18) == le32(a.parsed_count)
    &&& section_bytes(data, 19) == le32(a.mem_op_count)
}

proof fn lemma_scan_form(data: Seq<u8>, a: ScanArchive)
    requires
        readable(data),
        section_count(data) == 20,
        holds_scan(data, a),
        forall|i: int| 0 <= i < 20 ==> #[trigger] section_start(data, i) % 8 == 0,
    ensures
        scan_ok(data),
{
    assert(section_start(data, 0) % 8 == 0);
    lemma_form32(data, 0, a.deps.chunk_start_lines@);
    assert(section_start(data, 1) % 8 == 0);
    lemma_form32(data, 1, a.deps.chunk_offsets_start@);
    assert(section_start(data, 2) % 8 == 0);
    lemma_form32(data, 2, a.deps.chunk_data_start@);
    assert(section_start(data, 3) % 8 == 0);
    lemma_form32(data, 3, a.deps.all_offsets@);
    assert(section_start(data, 4) % 8 == 0);
    lemma_form32(data, 4, a.deps.all_data@);
    assert(section_start(data, 5) % 8 == 0);
    lemma_form32(data, 5, a.deps.patch_lines@);
    assert(section_start(data, 6) % 8 == 0);
    lemma_form32(data, 6, a.deps.patch_offsets@);
    assert(section_start(data, 7) % 8 == 0);
    lemma_form32(data, 7, a.deps.patch_data@);
    assert(section_start(data, 8) % 8 == 0);
    lemma_form64(data, 8, a.mem_last_def.addrs@);
    assert(section_start(data, 9) % 8 == 0);
    lemma_form32(data, 9, a.mem_last_def.lines@);
    assert(section_start(data, 10) % 8 == 0);
    lemma_form64(data, 10, a.mem_last_def.values@);
    assert(section_start(data, 11) % 8 == 0);
    lemma_form32(data, 11, a.pair_split.keys@);
    assert(section_start(data, 12) % 8 == 0);
    lemma_form32(data, 12, a.pair_split.seg_offsets@);
    assert(section_start(data, 13) % 8 == 0);
    lemma_form32(data, 13, a.pair_split.data@);
    assert(section_start(data, 14) % 8 == 0);
    lemma_form8(data, 14);
    assert(section_start(data, 15) % 8 == 0);
    lemma_form_single(data, 15, a.init_mem_loads.len);
    assert(section_start(data, 16) % 8 == 0);
    lemma_form32(data, 16, a.reg_last_def_inner@);
    assert(section_start(data, 17) % 8 == 0);
    lemma_form_single(data, 17, a.line_count);
    assert(section_start(data, 18) % 8 == 0);
    lemma_form_single(data, 18, a.parsed_count);
    assert(section_start(data, 19) % 8 == 0);
    lemma_form_single(data, 19, a.mem_op_count);
}

proof fn lemma_scan_same(data: Seq<u8>, a: ScanArchive, v: ScanArchive)
    requires
        holds_scan(data, a),
    ensures
        is_scan_of(v, data) <==> same_scan(v, a),
{
    law_le32_read_back(a.init_mem_loads.len);
    law_le32_read_back(a.line_count);
    law_le32_read_back(a.parsed_count);
    law_le32_read_back(a.mem_op_count);
    if is_scan_of(v, data) {
        law_bytes32_read_back(v.deps.chunk_start_lines@, a.deps.chunk_start_lines@);
        law_bytes32_read_back(v.deps.chunk_offsets_start@, a.deps.chunk_offsets_start@);
        law_bytes32_read_back(v.deps.chunk_data_start@, a.deps.chunk_data_start@);
        law_bytes32_read_back(v.deps.all_offsets@, a.deps.all_offsets@);
        law_bytes32_read_back(v.deps.all_data@, a.deps.all_data@);
        law_bytes32_read_back(v.deps.patch_lines@, a.deps.patch_lines@);
        law_bytes32_read_back(v.deps.patch_offsets@, a.deps.patch_offsets@);
        law_bytes32_read_back(v.deps.patch_data@, a.deps.patch_data@);
        law_bytes64_read_back(v.mem_last_def.addrs@, a.mem_last_def.addrs@);
        law_bytes32_read_back(v.mem_last_def.lines@, a.mem_last_def.lines@);
        law_bytes64_read_back(v.mem_last_def.values@, a.mem_last_def.values@);
        law_bytes32_read_back(v.pair_split.keys@, a.pair_split.keys@);
        law_bytes32_read_back(v.pair_split.seg_offsets@, a.pair_split.seg_offsets@);
        law_bytes32_read_back(v.pair_split.data@, a.pair_split.data@);
        law_bytes32_read_back(v.reg_last_def_inner@, a.reg_last_def_inner@);
    }
}

/// What was kept is read back.
#[verifier::rlimit(80)]
pub proof fn law_scan_reads_back(a: ScanArchive, v: ScanArchive)
    requires
        packed_len(scan_contents(a)) <= u64::MAX,
    ensures
        scan_ok(packed(scan_contents(a))),
        is_scan_of(v, packed(scan_contents(a))) <==> same_scan(v, a),
{
    let contents = scan_contents(a);
    let data = packed(contents);
    law_sections_read_back(contents);
    assert(holds_scan(data, a)) by {
        assert(section_bytes(data, 0) == contents[0]);
        assert(section_bytes(data, 1) == contents[1]);
        assert(section_bytes(data, 2) == contents[2]);
        assert(section_bytes(data, 3) == contents[3]);
        assert(section_bytes(data, 4) == contents[4]);
        assert(section_bytes(data, 5) == contents[5]);
        assert(section_bytes(data, 6) == contents[6]);
        assert(section_bytes(data, 7) == contents[7]);
        assert(section_bytes(data, 8) == contents[8]);
        assert(section_bytes(data, 9) == contents[9]);
        assert(section_bytes(data, 10) == contents[10]);
        assert(section_bytes(data, 11) == contents[11]);
        assert(section_bytes(data, 12) == contents[12]);
        assert(section_bytes(data, 13) == contents[13]);
        assert(section_bytes(data, 14) == contents[14]);
        assert(section_bytes(data, 15) == contents[15]);
        assert(section_bytes(data, 16) == contents[16]);
        assert(section_bytes(data, 17) == contents[17]);
        assert(section_bytes(data, 18) == contents[18]);
        assert(section_bytes(data, 19) == contents[19]);
    }
    assert forall|i: int| 0 <= i < 20 implies #[trigger] section_start(data, i) % 8 == 0 by {
        assert(section_bytes(data, i) == contents[i]);
    }
    lemma_scan_form(data, a);
    lemma_scan_same(data, a, v);
}

// ---------------------------------------------------------------------------
// Line indices
// ---------------------------------------------------------------------------

/// Where every so many lines start, and how many there are.
#[derive(Debug, Clone, PartialEq, Eq)]
pub struct LineIndexArchive {
    pub sampled_offsets: Vec<u64>,
    pub total: u32,
}

/// The sections of the archive.
pub open spec fn line_index_contents(a: LineIndexArchive) -> Seq<Seq<u8>> {
    Seq::empty()
        .push(bytes64(a.sampled_offsets@))
        .push(le32(a.total))
}

/// The file has the sections of the archive, and each has its form.
pub open spec fn line_index_ok(data: Seq<u8>) -> bool {
    &&& readable(data)
    &&& section_count(data) >= 2
    &&& has_elements(data, 0, 8, 8)
    &&& has_single(data, 1, 4)
}

/// The archive holds what the sections of the file hold.
pub open spec fn is_line_index_of(v: LineIndexArchive, data: Seq<u8>) -> bool {
    &&& bytes64(v.sampled_offsets@) == section_bytes(data, 0)
    &&& v.total == from_le32(section_bytes(data, 1))
}

/// The two archives hold the same.
pub open spec fn same_line_index(v: LineIndexArchive, a: LineIndexArchive) -> bool {
    &&& v.sampled_offsets@ == a.sampled_offsets@
    &&& v.total == a.total
}

impl LineIndexArchive {
    /// The archive as sections.
    pub fn to_sections(&self) -> (file: Vec<u8>)
        requires
            packed_len(line_index_contents(*self)) <= usize::MAX,
        ensures
            file@ == packed(line_index_contents(*self)),
    {
        let mut w = SectionWriter::new();
        w.write_slice(self.sampled_offsets.as_slice());
        w.write_u32(self.total);
        w.finish()
    }

    /// The archive that a file holds after its header. A file in any other form
    /// holds none.
    pub fn views_from_sections(data: &[u8]) -> (r: Option<LineIndexArchive>)
        ensures
            match r {
                Some(v) => line_index_ok(data@) && is_line_index_of(v, data@),
                None => !line_index_ok(data@),
            },
    {
        let r = match SectionReader::new(data) {
            Some(r) => r,
            None => {
                return None;
            },
        };
        if r.num_sections() < 2 {
            return None;
        }
        if !r.is_valid_typed(0, 8)
            || !r.is_valid_single(1, 4) {
            return None;
        }
        Some(
            LineIndexArchive {
                sampled_offsets: r.slice(0),
                total: r.u32_val(1),
            },
        )
    }
}

/// The sections of a file that holds the archive.
spec fn holds_line_index(data: Seq<u8>, a: LineIndexArchive) -> bool {
    &&& section_bytes(data, 0) == bytes64(a.sampled_offsets@)
    &&& section_bytes(data, 1) == le32(a.total)
}

proof fn lemma_line_index_form(data: Seq<u8>, a: LineIndexArchive)
    requires
        readable(data),
        section_count(data) == 2,
        holds_line_index(data, a),
        forall|i: int| 0 <= i < 2 ==> #[trigger] section_start(data, i) % 8 == 0,
    ensures
        line_index_ok(data),
{
    assert(section_start(data, 0) % 8 == 0);
    lemma_form64(data, 0, a.sampled_offsets@);
    assert(section_start(data, 1) % 8 == 0);
    lemma_form_single(data, 1, a.total);
}

proof fn lemma_line_index_same(data: Seq<u8>, a: LineIndexArchive, v: LineIndexArchive)
    requires
        holds_line_index(data, a),
    ensures
        is_line_index_of(v, data) <==> same_line_index(v, a),
{
    law_le32_read_back(a.total);
    if is_line_index_of(v, data) {
        law_bytes64_read_back(v.sampled_offsets@, a.sampled_offsets@);
    }
}

/// What was kept is read back.
#[verifier::rlimit(80)]
pub proof fn law_line_index_reads_back(a: LineIndexArchive, v: LineIndexArchive)
    requires
        packed_len(line_index_contents(a)) <= u64::MAX,
    ensures
        line_index_ok(packed(line_index_contents(a))),
        is_line_index_of(v, packed(line_index_contents(a))) <==> same_line_index(v, a),
{
    let contents = line_index_contents(a);
    let data = packed(contents);
    law_sections_read_back(contents);
    assert(holds_line_index(data, a)) by {
        assert(section_bytes(data, 0) == contents[0]);
        assert(section_bytes(data, 1) == contents[1]);
    }
    assert forall|i: int| 0 <= i < 2 implies #[trigger] section_start(data, i) % 8 == 0 by {
        assert(section_bytes(data, i) == contents[i]);
    }
    lemma_line_index_form(data, a);
    lemma_line_index_same(data, a, v);
}

/// Accesses, snapshots and trees as they are read.
pub type Phase2Views = Phase2Archive;

/// A scan as it is read.
pub type ScanViews = ScanArchive;

// ---------------------------------------------------------------------------
// Register definitions
// ---------------------------------------------------------------------------

/// The slot of a register: the one that was kept, if there is one.
pub open spec fn kept_slot(inner: Seq<u32>, i: int) -> u32 {
    if i < inner.len() {
        inner[i]
    } else {
        NO_DEF
    }
}

impl ScanArchive {
    /// The last definitions of the registers.
    pub fn deserialize_reg_last_def(&self) -> (r: RegLastDef)
        ensures
            r.slots() == Seq::new(
                REG_COUNT as nat,
                |i: int| kept_slot(self.reg_last_def_inner@, i),
            ),
    {
        broadcast use RegLastDef::lemma_slots_len;

        let ghost inner = self.reg_last_def_inner@;
        let mut r = RegLastDef::new();
        let mut i: usize = 0;
        while i < REG_COUNT && i < self.reg_last_def_inner.len()
            invariant
                i <= REG_COUNT,
                i <= inner.len(),
                inner == self.reg_last_def_inner@,
                r.slots().len() == REG_COUNT,
                forall|k: int|
                    #![trigger r.slots()[k]]
                    0 <= k < REG_COUNT ==> r.slots()[k] == (if k < i {
                        inner[k]
                    } else {
                        NO_DEF
                    }),
            decreases REG_COUNT - i,
        {
            let v: u32 = self.reg_last_def_inner[i];
            if v != NO_DEF {
                r.insert(RegId(i as u8), v);
            }
            i += 1;
        }
        assert(r.slots() =~= Seq::new(REG_COUNT as nat, |i: int| kept_slot(inner, i)));
        r
    }
}

} // verus!
