use trace_core::error::TraceError;
use trace_core::memory_search::cache::{cache_header_digest, load_cache_page, stream_cache};
use trace_core::memory_search::cached::{
    complete_cached_page, search_memory_cached, search_memory_cached_occurrences,
    search_memory_cached_with_trace_hash, CacheLookup,
};
use trace_core::memory_search::expand::{expand_mem_op, ByteValue};
use trace_core::memory_search::fingerprint::{
    begin_fd_search, confirm_trace_hash, decode_fingerprint, encode_fingerprint,
    establish_trace_hash, fingerprint_name, finish_fd_search, FdSignature, FingerprintSource,
};
use trace_core::memory_search::identity::{
    compute_trace_content_hash, ensure_trace_unchanged, memory_cache_name,
    memory_search_content_identity, sha256,
};
use trace_core::memory_search::request::{
    hex_nibble, parse_pattern_hex, MemorySearchOptions, MemorySearchResult, MemorySearchRw,
};
use trace_core::memory_search::scan::{search_memory, trace_segments, DecodedLine};
use trace_core::memory_search::state::SearchState;
use trace_core::types::{MemLayout, MemOp, TraceFormat};

const HEADER: usize = 152;
const RECORD: usize = 16;
const TAG: usize = 8;

fn access(is_write: bool, abs: u64, value: Option<u64>) -> MemOp {
    MemOp {
        is_write,
        abs,
        elem_width: 4,
        value,
        value_lo: None,
        value_hi: None,
        value2: None,
        value2_lo: None,
        value2_hi: None,
        value_count: 1,
        layout: MemLayout::Scalar,
        exclusive_status: None,
        simd_values: [None; 4],
        simd_reg_bytes: 0,
        simd_elem_bytes: 0,
        simd_lane: 0,
    }
}

/// A line of a trace and what it decodes to.
type Line = (String, DecodedLine);

fn number(text: &str) -> u64 {
    u64::from_str_radix(&text[2..], 16).unwrap()
}

fn read_line(seq: u32, value: Option<&str>) -> Line {
    let suffix = value.map(|v| format!(" => w0={v}")).unwrap_or_default();
    (
        format!(
            "[00:00:00 {seq:03}][lib.so 0x100] [00000000] 0x40000100: \"ldr w0, [x1]\" ; mem[READ] abs=0x2000 x1=0x3000{suffix}"
        ),
        DecodedLine::Access(access(false, 0x2000, value.map(number))),
    )
}

fn write_line(seq: u32, value: &str) -> Line {
    (
        format!(
            "[00:00:00 {seq:03}][lib.so 0x100] [00000000] 0x40000100: \"str w0, [x1]\" ; mem[WRITE] abs=0x2000 w0={value} x1=0x3000 => w0={value}"
        ),
        DecodedLine::Access(access(true, 0x2000, Some(number(value)))),
    )
}

fn unknown_write_line(seq: u32) -> Line {
    (
        format!(
            "[00:00:00 {seq:03}][lib.so 0x100] [00000000] 0x40000100: \"str w0, [x1]\" ; mem[WRITE] abs=0x2000 x1=0x3000"
        ),
        DecodedLine::Access(access(true, 0x2000, None)),
    )
}

fn options(pattern: &[u8]) -> MemorySearchOptions {
    MemorySearchOptions {
        pattern: pattern.to_vec(),
        seq_range: None,
        memory_range: None,
        offset: 0,
        limit: 50,
    }
}

/// A trace with each line ended, and what its lines decode to.
fn trace_of(lines: &[Line]) -> (String, Vec<DecodedLine>) {
    let mut text = String::new();
    let mut decoded = Vec::new();
    for (line, d) in lines {
        text.push_str(line);
        text.push('\n');
        decoded.push(*d);
    }
    decoded.push(DecodedLine::Other);
    (text, decoded)
}

/// A trace of one line that is not ended.
fn single(line: Line) -> (String, Vec<DecodedLine>) {
    (line.0, vec![line.1])
}

fn search(lines: &[Line], o: &MemorySearchOptions) -> MemorySearchResult {
    let (text, decoded) = trace_of(lines);
    search_memory(text.as_bytes(), &decoded, TraceFormat::Unidbg, o).expect("memory search")
}

#[test]
fn memory_search_pattern_parser_accepts_compact_and_spaced_hex() {
    assert_eq!(parse_pattern_hex("aabbcc").unwrap(), vec![0xaa, 0xbb, 0xcc]);
    assert_eq!(
        parse_pattern_hex("AA bb cc").unwrap(),
        vec![0xaa, 0xbb, 0xcc]
    );
}

#[test]
fn memory_search_pattern_parser_rejects_odd_or_non_hex_input() {
    assert!(parse_pattern_hex("abc").is_err());
    assert!(parse_pattern_hex("aa:bb").is_err());
}

#[test]
fn tests_pattern_parser_accepts_compact_and_spaced_hex() {
    assert_eq!(parse_pattern_hex("aabbcc").unwrap(), vec![0xaa, 0xbb, 0xcc]);
    assert_eq!(
        parse_pattern_hex("AA bb cc").unwrap(),
        vec![0xaa, 0xbb, 0xcc]
    );
}

#[test]
fn tests_pattern_parser_rejects_odd_or_non_hex_input() {
    assert!(parse_pattern_hex("abc").is_err());
    assert!(parse_pattern_hex("aa:bb").is_err());
}

fn anchors_are_exact() {
    let pattern = vec![0x11; 8];
    let mut state = SearchState::new(&pattern);
    for address in 0x1000..0x1800 {
        state.memory.set(
            address,
            ByteValue {
                value: 0x22,
                known: true,
            },
        );
        state.update_anchor_positions_around(address);
    }
    assert!(state.anchor_positions.is_empty());

    for address in 0x2000..0x2008 {
        state.memory.set(
            address,
            ByteValue {
                value: 0x11,
                known: true,
            },
        );
        state.update_anchor_positions_around(address);
    }
    assert_eq!(state.anchor_positions.len(), 1);
    assert!(state.anchor_positions.contains(&0x2000));
}

#[test]
fn memory_search_anchor_index_keeps_only_positions_matching_the_requested_anchor() {
    anchors_are_exact();
}

#[test]
fn tests_anchor_index_keeps_only_positions_matching_the_requested_anchor() {
    anchors_are_exact();
}

#[test]
fn cached_occurrence_pages_do_not_materialize_pattern_bytes() {
    let (trace, decoded) = single(write_line(0, "0x04030201"));
    let request = MemorySearchOptions {
        pattern: vec![0; 64 * 1024 * 1024],
        seq_range: None,
        memory_range: None,
        offset: 0,
        limit: 1,
    };
    let result = search_memory_cached_occurrences(
        trace.as_bytes(),
        &decoded,
        TraceFormat::Unidbg,
        &request,
        CacheLookup::Missing,
    );
    assert!(
        result.is_ok(),
        "occurrence-only page should not clone pattern bytes"
    );
}

#[test]
fn public_search_rejects_a_response_that_would_exceed_the_serialization_budget() {
    let (trace, decoded) = single(write_line(0, "0x04030201"));
    let request = MemorySearchOptions {
        pattern: vec![0; 5 * 1024 * 1024],
        seq_range: None,
        memory_range: None,
        offset: 0,
        limit: 2,
    };
    let result = search_memory(trace.as_bytes(), &decoded, TraceFormat::Unidbg, &request);
    assert!(
        result.is_err(),
        "public search must not construct an unbounded response"
    );
}

#[test]
fn occurrence_content_identity_is_content_based_not_path_based() {
    let (trace, decoded) = single(write_line(0, "0x04030201"));
    let request = options(&[1, 2, 3, 4]);
    let identity = |data: &[u8]| {
        search_memory_cached_occurrences(
            data,
            &decoded,
            TraceFormat::Unidbg,
            &request,
            CacheLookup::Missing,
        )
        .expect("occurrence page")
        .result
        .content_identity
    };
    let first = identity(trace.as_bytes());
    let second = identity(trace.as_bytes());
    assert_eq!(first, second);

    let changed = identity(&trace.replace("0x04030201", "0x08070605").into_bytes());
    assert_ne!(first, changed);
}

#[test]
fn unknown_bytes_become_a_match_when_a_read_first_reveals_them() {
    let lines = [read_line(0, None), read_line(1, Some("0x04030201"))];
    let result = search(&lines, &options(&[1, 2, 3, 4]));

    assert_eq!(result.total, 1);
    assert_eq!(result.matches[0].seq, 1);
    assert_eq!(result.matches[0].address, 0x2000);
    assert_eq!(result.matches[0].rw, MemorySearchRw::Read);
    assert_eq!(result.matches[0].bytes, vec![1, 2, 3, 4]);
}

#[test]
fn write_forms_a_match_and_repeated_access_does_not_repeat_it() {
    let lines = [write_line(0, "0x04030201"), write_line(1, "0x04030201")];
    let result = search(&lines, &options(&[1, 2, 3, 4]));

    assert_eq!(result.total, 1);
    assert_eq!(result.matches[0].seq, 0);
    assert_eq!(result.matches[0].rw, MemorySearchRw::Write);
}

#[test]
fn covering_the_bytes_breaks_and_reforms_the_same_match() {
    let lines = [
        write_line(0, "0x04030201"),
        write_line(1, "0x08070605"),
        write_line(2, "0x04030201"),
    ];
    let result = search(&lines, &options(&[1, 2, 3, 4]));

    assert_eq!(result.total, 2);
    assert_eq!(result.matches[0].seq, 0);
    assert_eq!(result.matches[1].seq, 2);
}

#[test]
fn sequence_memory_filters_and_pagination_are_stable() {
    let lines = [
        write_line(0, "0x04030201"),
        write_line(1, "0x08070605"),
        write_line(2, "0x04030201"),
    ];
    let mut request = options(&[1, 2, 3, 4]);
    request.seq_range = Some((2, 2));
    request.memory_range = Some((0x2000, 0x2004));
    request.offset = 0;
    request.limit = 1;
    let first = search(&lines, &request);
    assert_eq!(first.total, 1);
    assert_eq!(first.matches.len(), 1);
    assert!(!first.has_more);

    request.memory_range = Some((0x2004, 0x2008));
    let outside = search(&lines, &request);
    assert_eq!(outside.total, 0);
    assert!(outside.matches.is_empty());
}

fn pair(abs: u64, second: Option<u64>) -> MemOp {
    MemOp {
        value2: second,
        value_count: 2,
        layout: MemLayout::Pair,
        ..access(true, abs, Some(0x04030201))
    }
}

#[test]
fn pair_values_are_replayed_as_adjacent_little_endian_bytes() {
    let trace = "[00:00:00 000][lib.so 0x100] [00000000] 0x40000100: \"stp w0, w1, [x2]\" ; mem[WRITE] abs=0x3000 w0=0x04030201 w1=0x08070605 x2=0x3000 => w0=0x04030201 w1=0x08070605";
    let line = (trace.to_string(), DecodedLine::Access(pair(0x3000, Some(0x08070605))));
    let result = search(&[line], &options(&[1, 2, 3, 4, 5, 6, 7, 8]));
    assert_eq!(result.total, 1);
    assert_eq!(result.matches[0].address, 0x3000);
    assert_eq!(result.matches[0].size, 8);
}

#[test]
fn exclusive_pair_store_skips_status_register_and_starts_at_first_memory_value() {
    let trace = "[00:00:00 000][lib.so 0x100] [00000000] 0x40000100: \"stxp w0, w1, w2, [x3]\" ; mem[WRITE] abs=0x5000 w0=0x00000000 w1=0x04030201 w2=0x08070605 x3=0x5000 => w0=0x00000000";
    let op = MemOp {
        layout: MemLayout::ExclusivePair,
        exclusive_status: Some(0),
        ..pair(0x5000, Some(0x08070605))
    };
    let line = (trace.to_string(), DecodedLine::Access(op));
    let result = search(&[line], &options(&[1, 2, 3, 4, 5, 6, 7, 8]));
    assert_eq!(result.total, 1);
    assert_eq!(result.matches[0].address, 0x5000);
    assert_eq!(result.matches[0].size, 8);
}

#[test]
fn an_unobserved_pair_half_is_unknown_and_cannot_form_a_match() {
    let trace = "[00:00:00 000][lib.so 0x100] [00000000] 0x40000100: \"stp w0, w1, [x2]\" ; mem[WRITE] abs=0x3000 w0=0x04030201 x2=0x3000 => w0=0x04030201";
    let line = (trace.to_string(), DecodedLine::Access(pair(0x3000, None)));
    let result = search(&[line], &options(&[1, 2, 3, 4, 5, 6, 7, 8]));
    assert_eq!(result.total, 0);
}

#[test]
fn unknown_read_does_not_erase_an_already_known_match() {
    let lines = [
        write_line(0, "0x04030201"),
        read_line(1, None),
        read_line(2, Some("0x04030201")),
    ];
    let result = search(&lines, &options(&[1, 2, 3, 4]));
    assert_eq!(result.total, 1);
    assert_eq!(result.matches[0].seq, 0);
}

#[test]
fn unknown_write_breaks_a_match_and_a_later_known_write_reforms_it() {
    let lines = [
        write_line(0, "0x04030201"),
        unknown_write_line(1),
        write_line(2, "0x04030201"),
    ];
    let result = search(&lines, &options(&[1, 2, 3, 4]));
    assert_eq!(result.total, 2);
    assert_eq!(result.matches[1].seq, 2);
}

#[test]
fn invalid_ranges_and_page_sizes_are_rejected() {
    let (trace, decoded) = single(write_line(0, "0x04030201"));
    let refused = |request: &MemorySearchOptions| {
        search_memory(trace.as_bytes(), &decoded, TraceFormat::Unidbg, request).is_err()
    };
    let mut request = options(&[1, 2, 3, 4]);
    request.limit = 0;
    assert!(refused(&request));

    let mut request = options(&[1, 2, 3, 4]);
    request.seq_range = Some((2, 1));
    assert!(refused(&request));

    let mut request = options(&[1, 2, 3, 4]);
    request.memory_range = Some((0x2000, 0x2000));
    assert!(refused(&request));
}

#[test]
fn a_three_register_simd_write_invalidates_the_unobserved_tail() {
    let at = |line: Line, abs: u64| {
        let text = line.0.replace("abs=0x2000", "abs=0x4020").replace("x1=0x3000", "x1=0x4020");
        match line.1 {
            DecodedLine::Access(op) => (text, DecodedLine::Access(MemOp { abs, ..op })),
            other => (text, other),
        }
    };
    let initial = at(write_line(0, "0x04030201"), 0x4020);
    let wide = MemOp {
        elem_width: 16,
        value_count: 3,
        layout: MemLayout::SimdContiguous,
        simd_reg_bytes: 16,
        simd_elem_bytes: 1,
        ..access(true, 0x4000, None)
    };
    let wide_unknown = (
        "[00:00:00 001][lib.so 0x100] [00000000] 0x40000100: \"st1 {v0.16b, v1.16b, v2.16b}, [x0]\" ; mem[WRITE] abs=0x4000 x0=0x4000".to_string(),
        DecodedLine::Access(wide),
    );
    let restored = at(write_line(2, "0x04030201"), 0x4020);
    let result = search(&[initial, wide_unknown, restored], &options(&[1, 2, 3, 4]));
    assert_eq!(result.total, 2);
    assert_eq!(result.matches[0].seq, 0);
    assert_eq!(result.matches[1].seq, 2);
}

// ---------------------------------------------------------------------------
// The cache
// ---------------------------------------------------------------------------

/// The file under the name of a search, and how often the trace was scanned.
struct Disk {
    file: Option<Vec<u8>>,
    scans: u32,
}

impl Disk {
    fn new() -> Disk {
        Disk { file: None, scans: 0 }
    }

    fn search(&mut self, lines: &[Line], o: &MemorySearchOptions) -> MemorySearchResult {
        let (text, decoded) = trace_of(lines);
        let found = {
            let lookup = match &self.file {
                Some(bytes) => CacheLookup::Found(bytes),
                None => CacheLookup::Missing,
            };
            search_memory_cached(text.as_bytes(), &decoded, TraceFormat::Unidbg, o, lookup)
                .expect("cached search")
        };
        if found.publish.is_some() {
            self.scans += 1;
            self.file = found.publish;
        }
        found.result
    }

    fn bytes(&mut self) -> &mut Vec<u8> {
        self.file.as_mut().expect("cache file")
    }
}

fn alternating(count: u32) -> Vec<Line> {
    (0..count)
        .map(|seq| write_line(seq, if seq % 2 == 0 { "0x04030201" } else { "0x08070605" }))
        .collect()
}

fn three_occurrence_trace() -> Vec<Line> {
    alternating(5)
}

fn default_options() -> MemorySearchOptions {
    MemorySearchOptions { limit: 10, ..options(&[1, 2, 3, 4]) }
}

fn one(offset: u32) -> MemorySearchOptions {
    MemorySearchOptions { offset, limit: 1, ..default_options() }
}

fn cache_contains_all_occurrences_and_default_ranges_hit_without_rescanning() {
    let trace = alternating(401);
    let mut disk = Disk::new();
    let first = disk.search(&trace, &one(0));
    assert_eq!(first.total, 201);
    assert_eq!(disk.scans, 1);

    let second = disk.search(&trace, &one(200));
    assert_eq!(second.total, 201);
    assert_eq!(second.matches.len(), 1);
    assert_eq!(second.matches[0].seq, 400);
    assert_eq!(disk.scans, 1);
}

#[test]
fn memory_search_cache_contains_all_occurrences_and_default_ranges_hit_without_rescanning() {
    cache_contains_all_occurrences_and_default_ranges_hit_without_rescanning();
}

#[test]
fn cache_tests_cache_contains_all_occurrences_and_default_ranges_hit_without_rescanning() {
    cache_contains_all_occurrences_and_default_ranges_hit_without_rescanning();
}

fn cache_identity_uses_trace_content_not_pathname() {
    let data = b"trace";
    let trace_hash = sha256(data);
    let pattern_hash = sha256(&[1, 2, 3]);
    let o = MemorySearchOptions {
        pattern: vec![1, 2, 3],
        seq_range: None,
        memory_range: None,
        offset: 0,
        limit: 1,
    };
    assert_eq!(
        memory_cache_name(&trace_hash, &pattern_hash, TraceFormat::Unidbg, &o),
        memory_cache_name(&trace_hash, &pattern_hash, TraceFormat::Unidbg, &o),
    );
}

#[test]
fn memory_search_cache_identity_uses_trace_content_not_pathname() {
    cache_identity_uses_trace_content_not_pathname();
}

#[test]
fn cache_tests_cache_identity_uses_trace_content_not_pathname() {
    cache_identity_uses_trace_content_not_pathname();
}

fn cache_with_nonzero_reserved_record_bytes_is_rejected_and_rebuilt() {
    let trace = [write_line(0, "0x04030201")];
    let mut disk = Disk::new();
    disk.search(&trace, &one(0));
    disk.bytes()[HEADER + 5] = 1;
    disk.scans = 0;
    disk.search(&trace, &one(0));
    assert_eq!(disk.scans, 1);
}

#[test]
fn memory_search_cache_with_nonzero_reserved_record_bytes_is_rejected_and_rebuilt() {
    cache_with_nonzero_reserved_record_bytes_is_rejected_and_rebuilt();
}

#[test]
fn cache_tests_cache_with_nonzero_reserved_record_bytes_is_rejected_and_rebuilt() {
    cache_with_nonzero_reserved_record_bytes_is_rejected_and_rebuilt();
}

fn cache_with_duplicate_occurrence_key_is_rejected_and_rebuilt() {
    let trace = alternating(3);
    let mut disk = Disk::new();
    let first = disk.search(&trace, &default_options());
    assert_eq!(first.total, 2);
    let first_record = disk.bytes()[HEADER..HEADER + RECORD].to_vec();
    let second_record = HEADER + RECORD;
    disk.bytes()[second_record..second_record + RECORD].copy_from_slice(&first_record);
    disk.scans = 0;
    let rebuilt = disk.search(&trace, &default_options());
    assert_eq!(rebuilt.total, 2);
    assert_eq!(rebuilt.matches.len(), 2);
    assert_eq!(disk.scans, 1);
}

#[test]
fn memory_search_cache_with_duplicate_occurrence_key_is_rejected_and_rebuilt() {
    cache_with_duplicate_occurrence_key_is_rejected_and_rebuilt();
}

#[test]
fn cache_tests_cache_with_duplicate_occurrence_key_is_rejected_and_rebuilt() {
    cache_with_duplicate_occurrence_key_is_rejected_and_rebuilt();
}

fn malformed_memory_event_fails_scan_and_does_not_publish_cache() {
    let malformed = (
        write_line(1, "0x04030201").0.replace("abs=0x2000", "abs=not-an-address"),
        DecodedLine::Plain,
    );
    let (text, decoded) = trace_of(&[write_line(0, "0x04030201"), malformed]);
    let result = search_memory_cached(
        text.as_bytes(),
        &decoded,
        TraceFormat::Unidbg,
        &one(0),
        CacheLookup::Missing,
    );
    assert!(matches!(
        result.err(),
        Some(TraceError::ParseError { line: Some(1), detail }) if detail == "malformed memory event"
    ));
}

#[test]
fn memory_search_malformed_memory_event_fails_scan_and_does_not_publish_cache() {
    malformed_memory_event_fails_scan_and_does_not_publish_cache();
}

#[test]
fn cache_tests_malformed_memory_event_fails_scan_and_does_not_publish_cache() {
    malformed_memory_event_fails_scan_and_does_not_publish_cache();
}

fn cache_scan_failure_does_not_publish_partial_cache() {
    let trace = b"\xff\n";
    let result = search_memory_cached(
        trace,
        &vec![DecodedLine::Other; 2],
        TraceFormat::Unidbg,
        &one(0),
        CacheLookup::Missing,
    );
    assert!(matches!(
        result.err(),
        Some(TraceError::ParseError { line: Some(0), detail }) if detail == "trace line is not valid UTF-8"
    ));
}

#[test]
fn memory_search_cache_scan_failure_does_not_publish_partial_cache() {
    cache_scan_failure_does_not_publish_partial_cache();
}

#[test]
fn cache_tests_cache_scan_failure_does_not_publish_partial_cache() {
    cache_scan_failure_does_not_publish_partial_cache();
}

fn cache_valid_looking_record_tamper_is_detected_and_rebuilt() {
    let trace = three_occurrence_trace();
    let mut disk = Disk::new();
    let fresh = disk.search(&trace, &default_options());
    assert_eq!(fresh.total, 3);
    // The line of the first record becomes 1: well formed and in order, but
    // not what was found.
    disk.bytes()[HEADER..HEADER + 4].copy_from_slice(&1u32.to_le_bytes());
    disk.scans = 0;
    let served = disk.search(&trace, &default_options());
    assert_eq!(served, fresh, "a changed record must never be served");
    assert_eq!(disk.scans, 1, "a changed record must trigger a rebuild");
}

#[test]
fn memory_search_cache_valid_looking_record_tamper_is_detected_and_rebuilt() {
    cache_valid_looking_record_tamper_is_detected_and_rebuilt();
}

#[test]
fn cache_tests_cache_valid_looking_record_tamper_is_detected_and_rebuilt() {
    cache_valid_looking_record_tamper_is_detected_and_rebuilt();
}

fn cache_cross_page_duplicate_is_detected_via_boundary_record() {
    let trace = three_occurrence_trace();
    let mut disk = Disk::new();
    disk.search(&trace, &default_options());
    let first_record = disk.bytes()[HEADER..HEADER + RECORD].to_vec();
    disk.bytes()[HEADER + RECORD..HEADER + 2 * RECORD].copy_from_slice(&first_record);
    disk.scans = 0;
    let second_page = disk.search(&trace, &one(1));
    assert_eq!(second_page.matches.len(), 1);
    assert_eq!(second_page.matches[0].seq, 2);
    assert_eq!(disk.scans, 1, "a duplicate across pages must trigger a rebuild");
}

#[test]
fn memory_search_cache_cross_page_duplicate_is_detected_via_boundary_record() {
    cache_cross_page_duplicate_is_detected_via_boundary_record();
}

#[test]
fn cache_tests_cache_cross_page_duplicate_is_detected_via_boundary_record() {
    cache_cross_page_duplicate_is_detected_via_boundary_record();
}

fn cache_tamper_on_a_later_page_is_detected_when_that_page_is_served() {
    let trace = three_occurrence_trace();
    let mut disk = Disk::new();
    disk.search(&trace, &default_options());
    let rec2 = HEADER + 2 * RECORD;
    disk.bytes()[rec2 + 8..rec2 + 16].copy_from_slice(&0x9999u64.to_le_bytes());
    let page0 = disk.search(&trace, &one(0));
    assert_eq!(page0.matches[0].seq, 0);
    disk.scans = 0;
    let page2 = disk.search(&trace, &one(2));
    assert_eq!(page2.matches[0].seq, 4, "the page must be rebuilt, not served");
    assert_eq!(page2.matches[0].address, 0x2000);
    assert_eq!(disk.scans, 1);
}

#[test]
fn memory_search_cache_tamper_on_a_later_page_is_detected_when_that_page_is_served() {
    cache_tamper_on_a_later_page_is_detected_when_that_page_is_served();
}

#[test]
fn cache_tests_cache_tamper_on_a_later_page_is_detected_when_that_page_is_served() {
    cache_tamper_on_a_later_page_is_detected_when_that_page_is_served();
}

fn cache_page_beyond_the_result_end_returns_empty() {
    let trace = three_occurrence_trace();
    let mut disk = Disk::new();
    disk.search(&trace, &default_options());
    let paged = disk.search(&trace, &one(2));
    assert_eq!(paged.matches.len(), 1);
    let past = disk.search(&trace, &one(5));
    assert!(past.matches.is_empty());
    assert_eq!(disk.scans, 1);
}

#[test]
fn memory_search_cache_page_beyond_the_result_end_returns_empty() {
    cache_page_beyond_the_result_end_returns_empty();
}

#[test]
fn cache_tests_cache_page_beyond_the_result_end_returns_empty() {
    cache_page_beyond_the_result_end_returns_empty();
}

fn corrupt_huge_record_count_is_rejected_and_rebuilt() {
    let trace = three_occurrence_trace();
    let mut disk = Disk::new();
    disk.search(&trace, &default_options());
    disk.bytes()[112..120].copy_from_slice(&u64::MAX.to_le_bytes());
    let result = disk.search(&trace, &default_options());
    assert_eq!(result.total, 3);
    assert_eq!(disk.scans, 2);
}

#[test]
fn memory_search_corrupt_huge_record_count_is_rejected_and_rebuilt() {
    corrupt_huge_record_count_is_rejected_and_rebuilt();
}

#[test]
fn cache_tests_corrupt_huge_record_count_is_rejected_and_rebuilt() {
    corrupt_huge_record_count_is_rejected_and_rebuilt();
}

#[test]
fn consistent_count_truncation_without_digest_is_rejected_and_rebuilt() {
    let trace = three_occurrence_trace();
    let mut disk = Disk::new();
    disk.search(&trace, &default_options());
    let bytes = disk.bytes().clone();
    assert_eq!(bytes.len(), HEADER + 3 * RECORD + 3 * TAG);
    // Two results: the last record and its tag are dropped.
    let mut crafted = bytes[..HEADER].to_vec();
    crafted[112..120].copy_from_slice(&2u64.to_le_bytes());
    crafted.extend_from_slice(&bytes[HEADER..HEADER + 2 * RECORD]);
    crafted.extend_from_slice(&bytes[HEADER + 3 * RECORD..HEADER + 3 * RECORD + 2 * TAG]);
    disk.file = Some(crafted);
    disk.scans = 0;
    let served = disk.search(&trace, &default_options());
    assert_eq!(served.total, 3, "consistent truncation must be detected");
    assert_eq!(disk.scans, 1, "digest mismatch must trigger a rebuild");
}

#[test]
fn truncated_header_is_rejected_and_rebuilt() {
    let trace = three_occurrence_trace();
    let mut disk = Disk::new();
    disk.search(&trace, &default_options());
    disk.bytes().truncate(120);
    disk.scans = 0;
    let served = disk.search(&trace, &default_options());
    assert_eq!(served.total, 3);
    assert_eq!(disk.scans, 1);
}

fn session_fingerprint_reuses_trace_hash_across_pages() {
    // The pages of a session are cut with the hash that it has: here a hash
    // that is not the one of the bytes, which no page recomputes.
    let (text, decoded) = trace_of(&[write_line(0, "0x04030201")]);
    let mut disk = Disk::new();
    disk.search(&[write_line(0, "0x04030201")], &one(0));
    let trace_hash = compute_trace_content_hash(text.as_bytes());
    for offset in 0..2 {
        let found = search_memory_cached_with_trace_hash(
            text.as_bytes(),
            &decoded,
            TraceFormat::Unidbg,
            &one(offset),
            &trace_hash,
            CacheLookup::Found(disk.file.as_ref().expect("cache file")),
        )
        .expect("page");
        assert!(found.publish.is_none());
        assert_eq!(found.result.total, 1);
    }
}

#[test]
fn memory_search_session_fingerprint_reuses_trace_hash_across_pages() {
    session_fingerprint_reuses_trace_hash_across_pages();
}

#[test]
fn cache_tests_session_fingerprint_reuses_trace_hash_across_pages() {
    session_fingerprint_reuses_trace_hash_across_pages();
}

fn signature(len: u64) -> FdSignature {
    FdSignature { dev: 1, ino: 2, len, mtime: -3, mtime_nsec: 4, ctime: 5, ctime_nsec: 6 }
}

fn cache_message<T>(r: Result<T, TraceError>) -> String {
    match r {
        Err(TraceError::CacheError(text)) => text,
        _ => panic!("not refused"),
    }
}

#[test]
fn stale_baseline_signature_is_rejected_immediately() {
    let message = cache_message(begin_fd_search(&default_options(), &signature(10), &signature(23)));
    assert!(message.contains("changed between mmap"));
    assert!(begin_fd_search(&default_options(), &signature(10), &signature(10)).is_ok());
    let wrong = MemorySearchOptions { limit: 0, ..default_options() };
    assert!(matches!(
        begin_fd_search(&wrong, &signature(10), &signature(10)),
        Err(TraceError::InvalidArgument(_))
    ));
}

#[test]
fn a_kept_fingerprint_is_reused_and_anything_else_is_not() {
    let data = b"trace";
    let first = establish_trace_hash(data, None);
    assert_eq!(first.source, FingerprintSource::Computed);
    let kept = confirm_trace_hash(&signature(1), &signature(1), &first).unwrap().unwrap();
    assert_eq!(&kept[..8], b"TMSFPR01");
    assert_eq!(decode_fingerprint(&kept), Some(first.hash));
    assert_eq!(encode_fingerprint(&first.hash), kept);
    let again = establish_trace_hash(data, Some(&kept));
    assert_eq!(again.source, FingerprintSource::Reused);
    assert_eq!(again.hash, first.hash);
    assert!(confirm_trace_hash(&signature(1), &signature(1), &again).unwrap().is_none());
    let large = vec![0u8; 1 << 20];
    assert_eq!(establish_trace_hash(data, Some(&large)).source, FingerprintSource::Computed);
    assert_eq!(
        establish_trace_hash(data, Some(b"not-a-fingerprint")).source,
        FingerprintSource::Computed
    );
    assert_eq!(
        cache_message(confirm_trace_hash(&signature(1), &signature(2), &first)),
        "trace fd changed while computing its content hash"
    );
    assert_eq!(
        cache_message(confirm_trace_hash(&signature(1), &signature(2), &again)),
        "trace fd changed while loading its fingerprint"
    );
}

#[test]
fn results_of_a_changed_file_do_not_count() {
    let (text, decoded) = trace_of(&three_occurrence_trace());
    let found = || {
        search_memory_cached_occurrences(
            text.as_bytes(),
            &decoded,
            TraceFormat::Unidbg,
            &default_options(),
            CacheLookup::Disabled,
        )
    };
    let kept = finish_fd_search(&signature(1), &signature(1), found()).unwrap();
    assert_eq!(kept.result.total, 3);
    assert_eq!(kept.result.matches[2].size, 4);
    assert!(kept.publish.is_none());
    assert_eq!(
        cache_message(finish_fd_search(&signature(1), &signature(2), found())),
        "trace fd changed while the memory search was running"
    );
}

#[test]
fn fingerprint_names_tell_files_apart() {
    assert_eq!(
        fingerprint_name(&signature(1)),
        "ecf9a5861e4317a71bf98ec4067769919021f14942ed02c6d723146d8f2ecc52"
    );
    assert_ne!(fingerprint_name(&signature(1)), fingerprint_name(&signature(2)));
}

#[test]
fn hashes_are_sha256() {
    let d = sha256(b"abc");
    assert_eq!(&d[..4], &[0xba, 0x78, 0x16, 0xbf]);
    assert_eq!(compute_trace_content_hash(b"abc"), d);
    assert!(ensure_trace_unchanged(b"abc", &d).is_ok());
    assert!(matches!(ensure_trace_unchanged(b"abd", &d), Err(TraceError::CacheError(_))));
}

#[test]
fn identities_depend_on_everything_but_the_page() {
    let h = sha256(b"t");
    let p = sha256(&[1]);
    let id = |f: TraceFormat, o: &MemorySearchOptions| memory_search_content_identity(&h, &p, f, o);
    let plain = options(&[1]);
    let base = id(TraceFormat::Unidbg, &plain);
    assert_eq!(base.len(), 64);
    assert_eq!(base, id(TraceFormat::Unidbg, &MemorySearchOptions { offset: 9, limit: 3, ..plain.clone() }));
    assert_ne!(base, id(TraceFormat::Gumtrace, &plain));
    assert_ne!(
        base,
        id(TraceFormat::Unidbg, &MemorySearchOptions { seq_range: Some((0, 1)), ..plain.clone() })
    );
    assert_ne!(
        base,
        id(TraceFormat::Unidbg, &MemorySearchOptions { memory_range: Some((0, 1)), ..plain.clone() })
    );
    let other = memory_search_content_identity(&sha256(b"u"), &p, TraceFormat::Unidbg, &plain);
    assert_ne!(base, other);
}

#[test]
fn a_cache_is_only_read_for_its_own_search() {
    let (text, decoded) = trace_of(&three_occurrence_trace());
    let o = default_options();
    let t = sha256(text.as_bytes());
    let p = sha256(&o.pattern);
    let id = memory_search_content_identity(&t, &p, TraceFormat::Unidbg, &o);
    let file =
        stream_cache(text.as_bytes(), &decoded, &t, &p, TraceFormat::Unidbg, &o, &id).unwrap();
    assert_eq!(&file[120..152], &cache_header_digest(&file[..120]));
    let len = text.len() as u64;
    let page = load_cache_page(&file, len, &t, &p, TraceFormat::Unidbg, &one(1), &id).unwrap();
    assert_eq!((page.total, page.matches.len(), page.has_more), (3, 1, true));
    assert_eq!(page.matches[0].seq, 2);
    // Every page is read from it, whatever its offset and limit.
    let asked = |offset: u32, limit: u32| {
        let o = MemorySearchOptions { offset, limit, ..default_options() };
        load_cache_page(&file, len, &t, &p, TraceFormat::Unidbg, &o, &id).unwrap()
    };
    let whole = asked(0, u32::MAX);
    assert_eq!((whole.total, whole.matches.len(), whole.has_more), (3, 3, false));
    assert_eq!(asked(0, 0).matches.len(), 0);
    assert_eq!(asked(1, 1).matches[0].seq, whole.matches[1].seq);
    assert_eq!(asked(u32::MAX, u32::MAX).matches.len(), 0);
    assert!(load_cache_page(&file, len + 1, &t, &p, TraceFormat::Unidbg, &o, &id).is_none());
    assert!(load_cache_page(&file, len, &p, &p, TraceFormat::Unidbg, &o, &id).is_none());
    assert!(load_cache_page(&file, len, &t, &t, TraceFormat::Unidbg, &o, &id).is_none());
    assert!(load_cache_page(&file, len, &t, &p, TraceFormat::Gumtrace, &o, &id).is_none());
    assert!(load_cache_page(&file, len, &t, &p, TraceFormat::Unidbg, &o, "other").is_none());
    // A trace that is not the one of the hash is not kept.
    assert!(matches!(
        stream_cache(text.as_bytes(), &decoded, &p, &p, TraceFormat::Unidbg, &o, &id),
        Err(TraceError::CacheError(_))
    ));
}

#[test]
fn an_inverted_range_is_not_kept() {
    let (text, decoded) = trace_of(&three_occurrence_trace());
    let o = MemorySearchOptions { seq_range: Some((2, 1)), ..default_options() };
    let t = sha256(text.as_bytes());
    let p = sha256(&o.pattern);
    let page = |cache| {
        complete_cached_page(text.as_bytes(), &decoded, TraceFormat::Unidbg, &o, &t, &p, cache)
    };
    let found = page(CacheLookup::Disabled).unwrap();
    assert!(found.publish.is_none());
    assert_eq!(found.page.total, 0);
    match page(CacheLookup::Missing) {
        Err(TraceError::CacheError(text)) => {
            assert_eq!(text, "newly written memory cache failed validation")
        }
        _ => panic!("kept"),
    }
}

#[test]
fn pages_join_to_the_whole_result() {
    let trace = alternating(9);
    let whole = search(&trace, &default_options());
    let mut joined = Vec::new();
    let mut offset = 0;
    loop {
        let page = search(&trace, &MemorySearchOptions { offset, limit: 2, ..default_options() });
        joined.extend(page.matches);
        offset += 2;
        if !page.has_more {
            break;
        }
    }
    assert_eq!(joined, whole.matches);
}

#[test]
fn filters_select_among_the_matches() {
    let trace = alternating(9);
    let all = search(&trace, &default_options()).matches;
    let some = search(
        &trace,
        &MemorySearchOptions { seq_range: Some((2, 5)), ..default_options() },
    );
    assert_eq!(some.matches, all[1..3].to_vec());
}

#[test]
fn traces_without_instructions_and_marked_lines_without_access_are_refused() {
    let r = search_memory(b"", &vec![DecodedLine::Other], TraceFormat::Unidbg, &default_options());
    assert!(matches!(r, Err(TraceError::ParseError { .. })));
    let r = search_memory(
        b"x mem_w=0x1",
        &vec![DecodedLine::Other],
        TraceFormat::Gumtrace,
        &default_options(),
    );
    assert!(matches!(r, Err(TraceError::ParseError { line: Some(0), .. })));
    // The marks of one format mean nothing in the other.
    let r = search_memory(
        b"x mem_w=0x1",
        &vec![DecodedLine::Plain],
        TraceFormat::Unidbg,
        &default_options(),
    );
    assert_eq!(r.unwrap().total, 0);
}

#[test]
fn segments_keep_the_empty_last_line_and_drop_returns() {
    assert_eq!(trace_segments(b""), vec![(0, 0)]);
    assert_eq!(trace_segments(b"ab\r\nc\n"), vec![(0, 2), (4, 5), (6, 6)]);
}

#[test]
fn accesses_expand_to_their_bytes() {
    let show = |op: MemOp| -> Vec<Option<u8>> {
        expand_mem_op(&op).iter().map(|b| if b.known { Some(b.value) } else { None }).collect()
    };
    let base = access(true, 0, Some(0x04030201));
    assert_eq!(show(base), vec![Some(1), Some(2), Some(3), Some(4)]);
    assert_eq!(show(MemOp { layout: MemLayout::Atomic, ..base }), vec![None; 4]);
    let exclusive = MemOp { layout: MemLayout::ExclusiveScalar, ..base };
    assert_eq!(show(MemOp { exclusive_status: Some(1), ..exclusive }), vec![]);
    assert_eq!(show(exclusive), vec![None; 4]);
    let vector = MemOp {
        elem_width: 16,
        value_count: 2,
        simd_values: [Some(0x0d0c0b0a), Some(0x1d1c1b1a), None, None],
        simd_reg_bytes: 4,
        simd_elem_bytes: 2,
        simd_lane: 1,
        ..base
    };
    let some = |bytes: &[u8]| -> Vec<Option<u8>> { bytes.iter().map(|&b| Some(b)).collect() };
    assert_eq!(
        show(MemOp { layout: MemLayout::SimdContiguous, ..vector }),
        some(&[0x0a, 0x0b, 0x0c, 0x0d, 0x1a, 0x1b, 0x1c, 0x1d])
    );
    assert_eq!(
        show(MemOp { layout: MemLayout::SimdInterleaved, ..vector }),
        some(&[0x0a, 0x0b, 0x1a, 0x1b, 0x0c, 0x0d, 0x1c, 0x1d])
    );
    assert_eq!(
        show(MemOp { layout: MemLayout::SimdLane, ..vector }),
        some(&[0x0c, 0x0d, 0x1c, 0x1d])
    );
    // A layout that is not told leaves every register open, however many.
    let open = MemOp { simd_elem_bytes: 0, value_count: 9, ..vector };
    assert_eq!(show(MemOp { layout: MemLayout::SimdInterleaved, ..open }), vec![None; 144]);
    let unshown = MemOp { simd_values: [None; 4], simd_reg_bytes: 20, ..vector };
    assert_eq!(show(MemOp { layout: MemLayout::SimdContiguous, ..unshown }), vec![None; 40]);
    let wide = MemOp { elem_width: 16, value_lo: Some(1), value_hi: None, ..base };
    let bytes = show(wide);
    assert_eq!(bytes.len(), 16);
    assert_eq!((bytes[0], bytes[7], bytes[8]), (Some(1), Some(0), None));
}

#[test]
fn hex_digits() {
    assert_eq!(hex_nibble(b'7'), Some(7));
    assert_eq!(hex_nibble(b'f'), Some(15));
    assert_eq!(hex_nibble(b'A'), Some(10));
    assert_eq!(hex_nibble(b'g'), None);
    assert!(parse_pattern_hex("").is_err());
    assert_eq!(parse_pattern_hex("0\tF").unwrap(), vec![0x0f]);
}
