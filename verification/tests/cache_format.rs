use trace_core::flat::archives::{
    FlatBitVec, FlatDeps, FlatMemAccess, FlatMemAccessRecord, FlatMemLastDef, FlatPairSplit,
    FlatRegCheckpoints, LineIndexArchive, Phase2Archive, ScanArchive,
};
use trace_core::flat::cache_format::{SectionReader, SectionWriter};
use trace_core::flat::validation::{phase2_raw, scan_raw, valid_deps};
use trace_core::types::RegId;

#[test]
fn test_roundtrip_u32_slice() {
    let data: Vec<u32> = vec![1, 2, 3, 42, 100];
    let mut w = SectionWriter::new();
    let idx = w.write_slice(&data);
    assert_eq!(idx, 0);
    let bytes = w.finish();

    let r = SectionReader::new(&bytes).unwrap();
    assert_eq!(r.num_sections(), 1);
    let out: Vec<u32> = r.slice(0);
    assert_eq!(out, &[1, 2, 3, 42, 100]);
}

#[test]
fn test_roundtrip_u64_slice() {
    let data: Vec<u64> = vec![0xDEAD_BEEF, 0xCAFE_BABE];
    let mut w = SectionWriter::new();
    w.write_slice(&data);
    let bytes = w.finish();

    let r = SectionReader::new(&bytes).unwrap();
    let out: Vec<u64> = r.slice(0);
    assert_eq!(out, &[0xDEAD_BEEF, 0xCAFE_BABE]);
}

#[test]
fn test_roundtrip_single_values() {
    let mut w = SectionWriter::new();
    w.write_u32(42);
    w.write_u64(9999);
    let bytes = w.finish();

    let r = SectionReader::new(&bytes).unwrap();
    assert_eq!(r.num_sections(), 2);
    assert_eq!(r.u32_val(0), 42);
    assert_eq!(r.u64_val(1), 9999);
}

#[test]
fn test_roundtrip_bytes() {
    let data = b"hello world";
    let mut w = SectionWriter::new();
    w.write_bytes(data);
    let bytes = w.finish();

    let r = SectionReader::new(&bytes).unwrap();
    assert_eq!(r.bytes(0), b"hello world");
}

#[test]
fn test_multiple_sections() {
    let mut w = SectionWriter::new();
    w.write_slice(&[1u32, 2, 3]);
    w.write_slice(&[10u64, 20]);
    w.write_u32(99);
    w.write_bytes(b"test");
    let bytes = w.finish();

    let r = SectionReader::new(&bytes).unwrap();
    assert_eq!(r.num_sections(), 4);
    assert_eq!(r.slice::<u32>(0), &[1, 2, 3]);
    assert_eq!(r.slice::<u64>(1), &[10, 20]);
    assert_eq!(r.u32_val(2), 99);
    assert_eq!(r.bytes(3), b"test");
}

#[test]
fn test_empty_section() {
    let empty: Vec<u32> = vec![];
    let mut w = SectionWriter::new();
    w.write_slice(&empty);
    let bytes = w.finish();

    let r = SectionReader::new(&bytes).unwrap();
    assert!(r.bytes(0).is_empty());
    assert!(r.slice::<u32>(0).is_empty());
    assert!(r.is_valid_typed(0, 4));
    assert!(!r.is_valid_single(0, 4));
}

#[test]
fn test_single_rejects_padded_length() {
    let mut w = SectionWriter::new();
    w.write_slice(&[1u32, 2]);
    let bytes = w.finish();
    let r = SectionReader::new(&bytes).unwrap();
    assert!(r.is_valid_typed(0, 4));
    assert_eq!(r.section_len(0), 8);
    assert!(!r.is_valid_single(0, 4));
}

#[test]
fn test_invalid_data() {
    assert!(SectionReader::new(&[]).is_none());
    assert!(SectionReader::new(&[0, 0, 0]).is_none());
    assert!(SectionReader::new(&[1, 0, 0, 0]).is_none());
}
#[test]
fn layout_of_a_small_file() {
    let mut w = SectionWriter::default();
    w.write_bytes(b"ab");
    w.write_u32(7);
    let bytes = w.finish();
    let expected: Vec<u8> = vec![
        2, 0, 0, 0, // number of sections
        40, 0, 0, 0, 0, 0, 0, 0, 2, 0, 0, 0, 0, 0, 0, 0, // first
        48, 0, 0, 0, 0, 0, 0, 0, 4, 0, 0, 0, 0, 0, 0, 0, // second
        0, 0, 0, 0, // padding of the table
        97, 98, 0, 0, 0, 0, 0, 0, // first, padded
        7, 0, 0, 0, // second
    ];
    assert_eq!(bytes, expected);
}

#[test]
fn a_table_that_points_outside_is_refused() {
    let mut w = SectionWriter::new();
    w.write_u64(1);
    let mut bytes = w.finish();
    assert!(SectionReader::new(&bytes).is_some());
    bytes[4] = 255;
    assert!(SectionReader::new(&bytes).is_none());
    bytes[4] = 24;
    bytes[12..20].copy_from_slice(&u64::MAX.to_le_bytes());
    assert!(SectionReader::new(&bytes).is_none());
}

#[test]
fn misaligned_and_odd_sections_are_not_typed() {
    let mut w = SectionWriter::new();
    w.write_bytes(b"abc");
    let bytes = w.finish();
    let r = SectionReader::new(&bytes).unwrap();
    assert!(r.is_valid_typed(0, 1));
    assert!(!r.is_valid_typed(0, 4));
    assert!(!r.is_valid_typed(1, 4));
    assert_eq!(r.section_len(1), 0);
    assert!(r.is_valid_typed_align(0, 3, 8));
    assert!(r.is_valid_single(0, 3) == (24 % 3 == 0));
}

fn phase2() -> Phase2Archive {
    Phase2Archive {
        mem_accesses: FlatMemAccess {
            addrs: vec![0x1000, 0x2000],
            offsets: vec![0, 1, 3],
            records: vec![
                FlatMemAccessRecord { insn_addr: 1, data: 2, seq: 3, size: 8, rw: 0 },
                FlatMemAccessRecord { insn_addr: 4, data: 5, seq: 6, size: 4, rw: 1 },
                FlatMemAccessRecord { insn_addr: 7, data: u64::MAX, seq: u32::MAX, size: 1, rw: 1 },
            ],
        },
        reg_checkpoints: FlatRegCheckpoints { interval: 1000, count: 1, data: vec![9; 98] },
        call_tree_bytes: vec![1, 2, 3],
        activation_tree_bytes: vec![],
    }
}

#[test]
fn phase2_archive_is_read_back() {
    let archive = phase2();
    let file = archive.to_sections();
    assert_eq!(Phase2Archive::views_from_sections(&file), Some(archive.clone()));
    assert_eq!(phase2_raw(archive.clone()), Some(archive));
}

#[test]
fn phase2_needs_exactly_its_sections() {
    let mut w = SectionWriter::new();
    for _ in 0..7 {
        w.write_u32(0);
    }
    assert_eq!(Phase2Archive::views_from_sections(&w.finish()), None);
    assert_eq!(Phase2Archive::views_from_sections(&[]), None);
}

#[test]
fn phase2_that_contradicts_itself_is_refused() {
    let mut a = phase2();
    a.mem_accesses.addrs = vec![0x2000, 0x1000];
    assert_eq!(phase2_raw(a), None);
    let mut a = phase2();
    a.mem_accesses.offsets = vec![0, 2, 1];
    assert_eq!(phase2_raw(a), None);
    let mut a = phase2();
    a.mem_accesses.offsets.pop();
    assert_eq!(phase2_raw(a), None);
    let mut a = phase2();
    a.reg_checkpoints.interval = 0;
    assert_eq!(phase2_raw(a), None);
    let mut a = phase2();
    a.reg_checkpoints.data.pop();
    assert_eq!(phase2_raw(a), None);
}

fn scan() -> ScanArchive {
    ScanArchive {
        deps: FlatDeps {
            chunk_start_lines: vec![0, 2],
            chunk_offsets_start: vec![0, 3],
            chunk_data_start: vec![0, 1],
            all_offsets: vec![0, 0, 1, 0, 2],
            all_data: vec![0, 1, 0],
            patch_lines: vec![2],
            patch_offsets: vec![0, 1],
            patch_data: vec![0],
        },
        mem_last_def: FlatMemLastDef { addrs: vec![8, 16], lines: vec![0, 1], values: vec![5, 6] },
        pair_split: FlatPairSplit {
            keys: vec![1],
            seg_offsets: vec![0, 0, 1, 1],
            data: vec![0],
        },
        init_mem_loads: FlatBitVec { data: vec![0b101], len: 3 },
        reg_last_def_inner: {
            let mut v = vec![u32::MAX; 98];
            v[0] = 2;
            v
        },
        line_count: 3,
        parsed_count: 3,
        mem_op_count: 1,
    }
}

#[test]
fn scan_archive_is_read_back() {
    let archive = scan();
    let file = archive.to_sections();
    assert_eq!(ScanArchive::views_from_sections(&file), Some(archive.clone()));
    assert_eq!(scan_raw(archive.clone()), Some(archive));
    assert_eq!(ScanArchive::views_from_sections(&file[..40]), None);
}

#[test]
fn scan_that_contradicts_itself_is_refused() {
    assert!(valid_deps(&scan().deps, 3));
    let mut a = scan();
    a.deps.chunk_start_lines = vec![1, 2];
    assert_eq!(scan_raw(a), None);
    let mut a = scan();
    a.deps.chunk_offsets_start = vec![0, 2];
    assert_eq!(scan_raw(a), None);
    let mut a = scan();
    a.deps.chunk_data_start = vec![0, 4];
    assert_eq!(scan_raw(a), None);
    let mut a = scan();
    a.deps.patch_lines = vec![3];
    assert_eq!(scan_raw(a), None);
    let mut a = scan();
    a.deps.patch_lines = vec![];
    assert_eq!(scan_raw(a), None);
    let mut a = scan();
    a.pair_split.seg_offsets = vec![0, 1];
    assert_eq!(scan_raw(a), None);
    let mut a = scan();
    a.init_mem_loads.len = 9;
    assert_eq!(scan_raw(a), None);
    let mut a = scan();
    a.parsed_count = 4;
    assert_eq!(scan_raw(a), None);
    let mut a = scan();
    a.mem_last_def.lines.pop();
    assert_eq!(scan_raw(a), None);
}

#[test]
fn register_definitions_are_read_back() {
    let r = scan().deserialize_reg_last_def();
    assert_eq!(r.get(&RegId(0)), Some(&2));
    assert_eq!(r.get(&RegId(1)), None);
    let mut a = scan();
    a.reg_last_def_inner = vec![7];
    let r = a.deserialize_reg_last_def();
    assert_eq!(r.get(&RegId(0)), Some(&7));
    assert_eq!(r.get(&RegId(97)), None);
}

#[test]
fn line_index_is_read_back() {
    let a = LineIndexArchive { sampled_offsets: vec![0, 4096], total: 300 };
    let file = a.to_sections();
    assert_eq!(LineIndexArchive::views_from_sections(&file), Some(a));
    let empty = LineIndexArchive { sampled_offsets: vec![], total: 0 };
    let file = empty.to_sections();
    assert_eq!(LineIndexArchive::views_from_sections(&file), Some(empty));
}
