use rustc_hash::FxHashMap;
use trace_core::foreign::{DepList, LineFlags};
use trace_core::line_index::LineIndex;
use trace_core::merge::deps::{rebuild_compact_deps, resolve_control_deps};
use trace_core::merge::events::{
    fix_reg_checkpoints, replay_call_tree_events, replay_gumtrace_annotations,
};
use trace_core::merge::forward::{run_forward, ChunkBoundary, ChunkResult};
use trace_core::merge::indices::{
    merge_init_mem_loads, merge_line_indices, merge_mem_access_indices, merge_pair_splits,
    merge_string_indices,
};
use trace_core::merge::loads::{
    resolve_partial_pair_load, resolve_partial_unresolved_loads, resolve_unresolved_load,
    resolve_unresolved_pair_load, resolve_unresolved_reg_uses,
};
use trace_core::merge::orchestrator::merge_all_chunks;
use trace_core::parallel_types::{
    CallTreeEvent, GumtraceAnnotEvent, PartialUnresolvedLoad, PartialUnresolvedPairLoad,
    SpecialLineData, UnresolvedLoad, UnresolvedPairLoad, UnresolvedRegUse,
};
use trace_core::query::mem_access::{MemAccessIndex, MemAccessRecord, MemRw};
use trace_core::query::registers::RegCheckpoints;
use trace_core::query::strings::{StringEncoding, StringIndex, StringRecord, StringRw};
use trace_core::scanner::deps::CompactDeps;
use trace_core::scanner::last_def::RegLastDef;
use trace_core::scanner::model::CONTROL_DEP_BIT;
use trace_core::scanner::pass1::PairSplitDeps;
use trace_core::scanner::scan::scan_from_string;
use trace_core::types::{
    Insn, InsnClass, MemLayout, MemOp, ParsedLine, RegId, TraceFormat, REG_COUNT,
};

#[test]
fn test_resolve_load_passthrough() {
    let mut global_mem = FxHashMap::default();
    for i in 0..8u64 {
        global_mem.insert(0x8000 + i, (10u32, 0x42u64));
    }
    let load = UnresolvedLoad {
        line: 20,
        addr: 0x8000,
        width: 8,
        load_value: Some(0x42),
        uses: vec![RegId(1), RegId(2)],
    };
    let mut global_reg = RegLastDef::new();
    global_reg.insert(RegId(1), 5);
    global_reg.insert(RegId(2), 8);

    let mut patch_edges = Vec::new();
    let mut init_corrections = Vec::new();
    resolve_unresolved_load(
        &load,
        &global_mem,
        &global_reg,
        &mut patch_edges,
        &mut init_corrections,
    );

    // Pass-through: only memory dep (one unique store line), no register deps
    assert!(patch_edges.iter().all(|&(from, _)| from == 20));
    assert!(patch_edges.iter().any(|&(_, to)| to == 10)); // mem dep
    assert!(!patch_edges.iter().any(|&(_, to)| to == 5)); // no reg dep x1
    assert!(!patch_edges.iter().any(|&(_, to)| to == 8)); // no reg dep x2
    assert_eq!(init_corrections, vec![(20, false)]);
}

#[test]
fn test_resolve_load_not_passthrough_different_value() {
    let mut global_mem = FxHashMap::default();
    for i in 0..8u64 {
        global_mem.insert(0x8000 + i, (10u32, 0x99u64));
    }
    let load = UnresolvedLoad {
        line: 20,
        addr: 0x8000,
        width: 8,
        load_value: Some(0x42), // != 0x99
        uses: vec![RegId(1)],
    };
    let mut global_reg = RegLastDef::new();
    global_reg.insert(RegId(1), 5);

    let mut patch_edges = Vec::new();
    let mut init_corrections = Vec::new();
    resolve_unresolved_load(
        &load,
        &global_mem,
        &global_reg,
        &mut patch_edges,
        &mut init_corrections,
    );

    assert!(patch_edges.iter().any(|&(_, to)| to == 10)); // mem dep
    assert!(patch_edges.iter().any(|&(_, to)| to == 5)); // reg dep
}

#[test]
fn test_resolve_load_init_mem() {
    // No global store exists -> truly initial memory
    let global_mem = FxHashMap::default();
    let load = UnresolvedLoad {
        line: 20,
        addr: 0x8000,
        width: 4,
        load_value: None,
        uses: vec![RegId(1)],
    };
    let mut global_reg = RegLastDef::new();
    global_reg.insert(RegId(1), 5);

    let mut patch_edges = Vec::new();
    let mut init_corrections = Vec::new();
    resolve_unresolved_load(
        &load,
        &global_mem,
        &global_reg,
        &mut patch_edges,
        &mut init_corrections,
    );

    // No mem deps (no store found), but reg deps added (not pass-through)
    assert!(patch_edges.iter().any(|&(_, to)| to == 5));
    // init_mem_loads should NOT be corrected (it IS truly initial)
    assert!(init_corrections.is_empty());
}

#[test]
fn test_resolve_partial_loads() {
    let mut global_mem = FxHashMap::default();
    global_mem.insert(0x8002u64, (15u32, 0u64));
    global_mem.insert(0x8003u64, (15u32, 0u64));

    let partials = vec![PartialUnresolvedLoad {
        line: 25,
        missing_addrs: vec![0x8002, 0x8003],
    }];

    let mut patch_edges = Vec::new();
    let mut init_corrections = Vec::new();
    resolve_partial_unresolved_loads(
        &partials,
        &global_mem,
        &mut patch_edges,
        &mut init_corrections,
    );

    assert!(patch_edges.iter().any(|&(from, to)| from == 25 && to == 15));
    assert_eq!(init_corrections, vec![(25, false)]);
}

#[test]
fn test_resolve_pair_load() {
    let mut global_mem = FxHashMap::default();
    for i in 0..4u64 {
        global_mem.insert(0x8000 + i, (10, 0));
    }
    for i in 4..8u64 {
        global_mem.insert(0x8000 + i, (15, 0));
    }
    let mut global_reg = RegLastDef::new();
    global_reg.insert(RegId(3), 7);

    let pair = UnresolvedPairLoad {
        line: 25,
        addr: 0x8000,
        elem_width: 4,
        base_reg: Some(RegId(3)),
        defs: vec![RegId(0), RegId(1), RegId(3)],
    };
    let (split, _patches) =
        resolve_unresolved_pair_load(&pair, &global_mem, &global_reg, None, false);
    assert!(split.half1_deps.contains(&10));
    assert!(split.half2_deps.contains(&15));
    assert!(split.shared.contains(&7));
}

#[test]
fn test_resolve_reg_uses() {
    let mut global_reg = RegLastDef::new();
    global_reg.insert(RegId(5), 42);
    let uses = vec![
        UnresolvedRegUse {
            line: 100,
            reg: RegId(5),
        },
        UnresolvedRegUse {
            line: 101,
            reg: RegId(6),
        }, // not defined
    ];
    let patches = resolve_unresolved_reg_uses(&uses, &global_reg);
    assert_eq!(patches.len(), 1);
    assert_eq!(patches[0], (100, 42));
}

#[test]
fn test_resolve_control_deps() {
    let mut needs = LineFlags::new();
    // 10 lines: chunk starts at 100
    for i in 0..10 {
        needs.push(i != 3 && i != 7); // lines 103 and 107 don't need control dep
    }
    let patches = resolve_control_deps(100, Some(105), Some(95), 110, &needs, false);
    // Lines 100-104 (before first_local_cond=105), except 103
    assert!(patches.contains(&(100, 95 | CONTROL_DEP_BIT)));
    assert!(patches.contains(&(101, 95 | CONTROL_DEP_BIT)));
    assert!(patches.contains(&(102, 95 | CONTROL_DEP_BIT)));
    assert!(!patches.iter().any(|&(line, _)| line == 103)); // pair/unparsed
    assert!(patches.contains(&(104, 95 | CONTROL_DEP_BIT)));
    assert!(!patches.iter().any(|&(line, _)| line >= 105)); // after first local cond
}

#[test]
fn test_rebuild_compact_deps() {
    // Chunk 0: 3 lines (lines 0,1,2)
    let mut c0 = CompactDeps::with_capacity(3, 6);
    c0.start_row(); // line 0: no deps
    c0.start_row();
    c0.push_unique(0); // line 1 -> line 0
    c0.start_row();
    c0.push_unique(1); // line 2 -> line 1

    // Chunk 1: 2 lines (lines 3,4)
    let mut c1 = CompactDeps::with_capacity(2, 4);
    c1.start_row(); // line 3: no local deps
    c1.start_row();
    c1.push_unique(3); // line 4 -> line 3

    let patch_edges = vec![
        (3u32, 2u32), // line 3 depends on line 2 (cross-chunk)
    ];

    let merged = rebuild_compact_deps(&vec![c0, c1], &vec![0, 3], &patch_edges);

    // Verify
    assert_eq!(merged.row(0).len(), 0); // line 0: no deps
    assert_eq!(merged.row(1), &[0]); // line 1 -> 0
    assert_eq!(merged.row(2), &[1]); // line 2 -> 1

    let mut line3: Vec<u32> = merged.row(3).to_vec();
    line3.sort();
    assert_eq!(line3, vec![2]); // line 3 -> 2 (from patch)

    assert_eq!(merged.row(4), &[3]); // line 4 -> 3
}

#[test]
fn test_rebuild_compact_deps_dedup() {
    let mut c0 = CompactDeps::with_capacity(2, 4);
    c0.start_row(); // line 0
    c0.start_row();
    c0.push_unique(0); // line 1 -> 0

    // Patch also adds line 1 -> 0 (duplicate)
    let patch_edges = vec![(1u32, 0u32)];

    let merged = rebuild_compact_deps(&vec![c0], &vec![0], &patch_edges);
    assert_eq!(merged.row(1).len(), 1); // deduped to single entry
    assert_eq!(merged.row(1), &[0]);
}

#[test]
fn test_replay_call_tree_basic() {
    let events = vec![
        CallTreeEvent::Call {
            seq: 5,
            target: 0x2000,
        },
        CallTreeEvent::Ret { seq: 10 },
        CallTreeEvent::Call {
            seq: 15,
            target: 0x3000,
        },
        CallTreeEvent::Call {
            seq: 20,
            target: 0x4000,
        },
        CallTreeEvent::Ret { seq: 25 },
        CallTreeEvent::Ret { seq: 30 },
    ];
    let tree = replay_call_tree_events(&events, 35);
    // Root + 3 calls
    assert_eq!(tree.nodes.len(), 4);
    assert_eq!(tree.nodes[0].children_ids, vec![1, 2]);
    assert_eq!(tree.nodes[1].entry_seq, 5);
    assert_eq!(tree.nodes[1].exit_seq, 10);
    assert_eq!(tree.nodes[2].entry_seq, 15);
    assert_eq!(tree.nodes[2].children_ids, vec![3]);
    assert_eq!(tree.nodes[3].entry_seq, 20);
    assert_eq!(tree.nodes[3].exit_seq, 25);
}

#[test]
fn test_replay_call_tree_blr_intercept() {
    // BLR at seq 10 with PC 0x2010, next line addr = 0x2014 = PC+4 -> intercepted
    let events = vec![
        CallTreeEvent::Call {
            seq: 10,
            target: 0x3000,
        },
        CallTreeEvent::BlrPending {
            seq: 10,
            pc: 0x2010,
        },
        CallTreeEvent::LineAddr {
            seq: 11,
            addr: 0x2014,
        }, // PC+4 -> intercepted
    ];
    let tree = replay_call_tree_events(&events, 20);
    // Root + 1 call that was immediately returned
    assert_eq!(tree.nodes.len(), 2);
    assert_eq!(tree.nodes[1].entry_seq, 10);
    assert_eq!(tree.nodes[1].exit_seq, 10); // ret at seq 10 (11-1)
}

#[test]
fn test_replay_call_tree_func_name() {
    let events = vec![
        CallTreeEvent::Call {
            seq: 5,
            target: 0x2000,
        },
        CallTreeEvent::SetFuncName {
            entry_seq: 5,
            name: "malloc".to_string(),
        },
        CallTreeEvent::Ret { seq: 10 },
    ];
    let tree = replay_call_tree_events(&events, 15);
    assert_eq!(tree.nodes[1].func_name, Some("malloc".to_string()));
}

#[test]
fn test_replay_gumtrace_annotations() {
    let events = vec![
        GumtraceAnnotEvent::BranchInstr { seq: 10 },
        GumtraceAnnotEvent::SpecialLine {
            seq: 11,
            special: SpecialLineData::CallFunc {
                name: "strcmp".to_string(),
                is_jni: false,
                raw: "call func: strcmp".to_string(),
            },
        },
        GumtraceAnnotEvent::SpecialLine {
            seq: 12,
            special: SpecialLineData::Arg {
                index: "0".to_string(),
                value: "0x1234".to_string(),
                raw: "args0: 0x1234".to_string(),
            },
        },
        GumtraceAnnotEvent::SpecialLine {
            seq: 13,
            special: SpecialLineData::Ret {
                value: "0".to_string(),
                raw: "ret: 0".to_string(),
            },
        },
    ];

    let (annotations, extra) = replay_gumtrace_annotations(&events);
    assert_eq!(annotations.len(), 1);
    assert!(annotations.contains_key(&10));
    let ann = &annotations[&10];
    assert_eq!(ann.func_name, "strcmp");
    assert_eq!(ann.args.len(), 1);
    assert_eq!(ann.ret_value, Some("0".to_string()));
    assert!(extra.is_empty());
}

#[test]
fn test_replay_gumtrace_orphan_lines() {
    let events = vec![
        GumtraceAnnotEvent::BranchInstr { seq: 5 },
        GumtraceAnnotEvent::SpecialLine {
            seq: 6,
            special: SpecialLineData::CallFunc {
                name: "test".to_string(),
                is_jni: false,
                raw: "call func: test".to_string(),
            },
        },
        GumtraceAnnotEvent::OrphanLine { seq: 7 }, // unrecognized line while annotation active
        GumtraceAnnotEvent::SpecialLine {
            seq: 8,
            special: SpecialLineData::Ret {
                value: "1".to_string(),
                raw: "ret: 1".to_string(),
            },
        },
    ];

    let (annotations, extra) = replay_gumtrace_annotations(&events);
    assert_eq!(annotations.len(), 1);
    assert_eq!(extra, vec![7]); // orphan line added to consumed
}

#[test]
fn test_fix_reg_checkpoints() {
    let mut ckpts = RegCheckpoints::new(1000);
    let mut vals = [u64::MAX; REG_COUNT];
    ckpts.save_checkpoint(&vals); // first checkpoint: all unknown
    vals[0] = 0x55;
    ckpts.save_checkpoint(&vals); // second: x0 = 0x55, rest unknown

    let mut prev_final = [u64::MAX; REG_COUNT];
    prev_final[0] = 0x42;
    prev_final[1] = 0x99;

    fix_reg_checkpoints(&mut ckpts, &prev_final);

    assert_eq!(ckpts.snapshots[0].0[0], 0x42); // was MAX, now prev value
    assert_eq!(ckpts.snapshots[0].0[1], 0x99); // was MAX, now prev value
    assert_eq!(ckpts.snapshots[1].0[0], 0x55); // was set in chunk, kept
    assert_eq!(ckpts.snapshots[1].0[1], 0x99); // was MAX, now prev value
}

#[test]
fn test_merge_init_mem_loads() {
    let mut b1 = LineFlags::new();
    b1.push(true);
    b1.push(false);
    b1.push(true);
    let mut b2 = LineFlags::new();
    b2.push(false);
    b2.push(true);

    let corrections = vec![(0u32, false), (4, false)]; // clear bits 0 and 4

    let merged = merge_init_mem_loads(vec![b1, b2], &corrections);
    assert_eq!(merged.len(), 5);
    assert_eq!(merged.get(0), Some(false)); // corrected from true
    assert_eq!(merged.get(1), Some(false)); // original
    assert_eq!(merged.get(2), Some(true)); // original
    assert_eq!(merged.get(3), Some(false)); // original
    assert_eq!(merged.get(4), Some(false)); // corrected from true
}

#[test]
fn test_merge_mem_access_indices() {
    let mut idx1 = MemAccessIndex::new();
    idx1.add(
        0x1000,
        MemAccessRecord {
            seq: 1,
            insn_addr: 0x100,
            rw: MemRw::Read,
            data: 0,
            size: 4,
        },
    );
    let mut idx2 = MemAccessIndex::new();
    idx2.add(
        0x1000,
        MemAccessRecord {
            seq: 5,
            insn_addr: 0x200,
            rw: MemRw::Write,
            data: 42,
            size: 4,
        },
    );
    idx2.add(
        0x2000,
        MemAccessRecord {
            seq: 6,
            insn_addr: 0x204,
            rw: MemRw::Read,
            data: 0,
            size: 1,
        },
    );

    let merged = merge_mem_access_indices(vec![idx1, idx2]);
    assert_eq!(merged.total_addresses(), 2);
    assert_eq!(merged.total_records(), 3);
    let records_at_1000 = merged.get(0x1000).unwrap();
    assert_eq!(records_at_1000.len(), 2);
}

#[test]
fn test_merge_string_indices() {
    let idx1 = StringIndex {
        strings: vec![
            StringRecord {
                addr: 0x1000,
                content: "hello".to_string(),
                encoding: StringEncoding::Ascii,
                byte_len: 5,
                seq: 10,
                xref_count: 0,
                rw: StringRw::Write,
            },
            StringRecord {
                addr: 0x2000,
                content: "world".to_string(),
                encoding: StringEncoding::Ascii,
                byte_len: 5,
                seq: 30,
                xref_count: 0,
                rw: StringRw::Write,
            },
        ],
    };
    let idx2 = StringIndex {
        strings: vec![StringRecord {
            addr: 0x3000,
            content: "foo".to_string(),
            encoding: StringEncoding::Ascii,
            byte_len: 3,
            seq: 20,
            xref_count: 0,
            rw: StringRw::Write,
        }],
    };

    let merged = merge_string_indices(vec![idx1, idx2]);
    assert_eq!(merged.strings.len(), 3);
    // sorted by seq
    assert_eq!(merged.strings[0].seq, 10);
    assert_eq!(merged.strings[1].seq, 20);
    assert_eq!(merged.strings[2].seq, 30);
}

#[test]
fn test_merge_pair_splits() {
    let mut c1: FxHashMap<u32, PairSplitDeps> = FxHashMap::default();
    c1.insert(10, PairSplitDeps::default());
    let mut c2: FxHashMap<u32, PairSplitDeps> = FxHashMap::default();
    c2.insert(20, PairSplitDeps::default());

    let fixups = vec![(30u32, PairSplitDeps::default())];

    let merged = merge_pair_splits(vec![c1, c2], fixups);
    assert_eq!(merged.len(), 3);
    assert!(merged.contains_key(&10));
    assert!(merged.contains_key(&20));
    assert!(merged.contains_key(&30));
}

fn chunk(start_line: u32, rows: Vec<Vec<u32>>) -> ChunkResult {
    let mut deps = CompactDeps::with_capacity(rows.len(), 4);
    let mut init_mem_loads = LineFlags::new();
    let mut needs_control_dep = LineFlags::new();
    for row in &rows {
        deps.start_row();
        for &to in row {
            deps.push_unique(to);
        }
        init_mem_loads.push(false);
        needs_control_dep.push(true);
    }
    ChunkResult {
        start_line,
        end_line: start_line + rows.len() as u32,
        deps,
        init_mem_loads,
        pair_split: FxHashMap::default(),
        boundary: ChunkBoundary {
            final_mem_last_def: FxHashMap::default(),
            final_reg_last_def: RegLastDef::new(),
            final_last_cond_branch: None,
            final_parsed_count: rows.len() as u32,
            final_mem_op_count: 0,
            final_reg_values: [u64::MAX; REG_COUNT],
        },
        unresolved_loads: vec![],
        partial_unresolved_loads: vec![],
        unresolved_pair_loads: vec![],
        partial_unresolved_pair_loads: vec![],
        unresolved_reg_uses: vec![],
        first_local_cond_branch: None,
        needs_control_dep,
        call_tree_events: vec![],
        gumtrace_annot_events: vec![],
        reg_checkpoints: RegCheckpoints::new(1000),
        line_index: LineIndex { sampled_offsets: vec![start_line as u64 * 10], total: rows.len() as u32 },
        mem_access_index: MemAccessIndex::new(),
        string_accesses: vec![],
        consumed_seqs: vec![],
    }
}

#[test]
fn test_external_return_x0_definition_propagates_across_chunks() {
    // mov x0, #1; blr x1; call func: external(); ret: 0x2
    let mut chunk0 = chunk(0, vec![vec![], vec![], vec![], vec![]]);
    chunk0.unresolved_reg_uses = vec![UnresolvedRegUse { line: 1, reg: RegId(1) }];
    chunk0.boundary.final_reg_last_def.insert(RegId(30), 1);
    chunk0.boundary.final_reg_last_def.insert(RegId(0), 3);
    // str x0, [sp]
    let mut chunk1 = chunk(4, vec![vec![]]);
    chunk1.unresolved_reg_uses = vec![
        UnresolvedRegUse { line: 4, reg: RegId(0) },
        UnresolvedRegUse { line: 4, reg: RegId(31) },
    ];
    let merged = merge_all_chunks(vec![chunk0, chunk1], TraceFormat::Gumtrace, true, true);
    let deps = &merged.scan_state.deps;

    assert!(deps.patch_row(4).contains(&3));
    assert!(!deps.row(4).contains(&0));
}

#[test]
fn control_dependencies_stop_at_the_chunk_end_and_need_a_branch() {
    let mut needs = LineFlags::new();
    needs.push(true);
    needs.push(true);
    assert_eq!(
        resolve_control_deps(10, None, Some(3), 12, &needs, false),
        vec![(10, 3 | CONTROL_DEP_BIT), (11, 3 | CONTROL_DEP_BIT)]
    );
    assert!(resolve_control_deps(10, None, None, 12, &needs, false).is_empty());
    assert!(resolve_control_deps(10, None, Some(3), 12, &needs, true).is_empty());
    // Lines without a flag want no dependency.
    assert_eq!(resolve_control_deps(10, None, Some(3), 20, &needs, false).len(), 2);
}

#[test]
fn a_partly_stored_load_still_reads_initial_memory() {
    let mut mem = FxHashMap::default();
    mem.insert(0x8000u64, (1u32, 7u64));
    let load = UnresolvedLoad { line: 9, addr: 0x8000, width: 2, load_value: Some(7), uses: vec![RegId(2)] };
    let mut regs = RegLastDef::new();
    regs.insert(RegId(2), 4);
    let mut edges = Vec::new();
    let mut corrections = Vec::new();
    resolve_unresolved_load(&load, &mem, &regs, &mut edges, &mut corrections);
    assert_eq!(edges, vec![(9, 1), (9, 4)]);
    assert!(corrections.is_empty());
}

#[test]
fn open_halves_of_a_pair_gain_what_was_stored() {
    let mut mem = FxHashMap::default();
    mem.insert(0x100u64, (1u32, 0u64));
    mem.insert(0x104u64, (2u32, 0u64));
    let mut regs = RegLastDef::new();
    regs.insert(RegId(5), 3);
    let partial = PartialUnresolvedPairLoad {
        line: 8,
        addr: 0x100,
        elem_width: 4,
        half1_unresolved: true,
        half2_unresolved: false,
        base_reg_unresolved: true,
        base_reg: Some(RegId(5)),
    };
    let mut table: FxHashMap<u32, PairSplitDeps> = FxHashMap::default();
    let mut split = PairSplitDeps::default();
    split.half2_deps = {
        let mut l = DepList::new();
        l.push(6);
        l
    };
    table.insert(8, split);
    let mut edges = Vec::new();
    resolve_partial_pair_load(&partial, &mem, &regs, &mut table, &mut edges);
    let got = &table[&8];
    assert_eq!(got.half1_deps.as_slice(), &[1]);
    assert_eq!(got.half2_deps.as_slice(), &[6]);
    assert_eq!(got.shared.as_slice(), &[3]);
}

#[test]
fn pair_load_of_untouched_memory_has_no_memory_dependency() {
    let mem = FxHashMap::default();
    let regs = RegLastDef::new();
    let pair = UnresolvedPairLoad { line: 4, addr: 0x10, elem_width: 8, base_reg: None, defs: vec![RegId(0), RegId(1)] };
    let (split, _) = resolve_unresolved_pair_load(&pair, &mem, &regs, Some(2), false);
    assert!(split.half1_deps.is_empty());
    assert!(split.half2_deps.is_empty());
    assert_eq!(split.shared.as_slice(), &[2 | CONTROL_DEP_BIT]);
    let (split, _) = resolve_unresolved_pair_load(&pair, &mem, &regs, Some(2), true);
    assert!(split.shared.is_empty());
}

#[test]
fn chunks_see_what_earlier_chunks_define() {
    let mut a = chunk(0, vec![vec![], vec![0]]);
    a.boundary.final_mem_last_def.insert(0x40, (1, 9));
    a.boundary.final_last_cond_branch = Some(1);
    a.boundary.final_reg_values[0] = 5;
    a.reg_checkpoints.save_checkpoint(&[u64::MAX; REG_COUNT]);
    let mut b = chunk(2, vec![vec![], vec![2]]);
    b.init_mem_loads = LineFlags::repeat(true, 2);
    b.unresolved_loads =
        vec![UnresolvedLoad { line: 2, addr: 0x40, width: 1, load_value: Some(9), uses: vec![RegId(0)] }];
    b.reg_checkpoints.save_checkpoint(&[u64::MAX; REG_COUNT]);
    b.boundary.final_parsed_count = 2;
    b.boundary.final_mem_op_count = 1;
    let r = merge_all_chunks(vec![a, b], TraceFormat::Unidbg, false, true);
    let s = r.scan_state;
    assert_eq!(s.line_count, 4);
    assert_eq!(s.parsed_count, 4);
    assert_eq!(s.mem_op_count, 1);
    assert_eq!(s.last_cond_branch, Some(1));
    assert_eq!(s.mem_last_def.get(&0x40), Some((1, 9)));
    assert_eq!(s.init_mem_loads.get(2), Some(false));
    assert_eq!(s.init_mem_loads.get(3), Some(true));
    assert_eq!(s.deps.patch_row(2), &[1, 1 | CONTROL_DEP_BIT]);
    assert_eq!(s.deps.patch_row(3), &[1 | CONTROL_DEP_BIT]);
    assert!(s.deps.patch_row(1).is_empty());
    assert_eq!(s.deps.row(3), &[2]);
    assert_eq!(s.deps.num_rows(), 4);
    assert_eq!(s.deps.total_deps(), 5);
    assert_eq!(r.line_index.total, 4);
    assert_eq!(r.line_index.sampled_offsets, vec![0, 20]);
    assert_eq!(r.phase2.reg_checkpoints.snapshots.len(), 2);
    assert_eq!(r.phase2.reg_checkpoints.snapshots[1].0[0], 5);
    assert_eq!(r.phase2.call_tree.nodes.len(), 1);
}

#[test]
fn the_forward_pass_lets_later_definitions_win() {
    let mut a = chunk(0, vec![vec![]]);
    a.boundary.final_mem_last_def.insert(1, (0, 1));
    a.boundary.final_reg_last_def.insert(RegId(0), 0);
    let mut b = chunk(1, vec![vec![]]);
    b.boundary.final_mem_last_def.insert(1, (1, 2));
    b.partial_unresolved_loads = vec![PartialUnresolvedLoad { line: 1, missing_addrs: vec![1] }];
    let f = run_forward(&vec![a, b], true);
    assert_eq!(f.mem[&1], (1, 2));
    assert_eq!(f.regs.get(&RegId(0)), Some(&0));
    assert_eq!(f.edges, vec![(1, 0)]);
    assert_eq!(f.corrections, vec![(1, false)]);
}

#[test]
fn merging_nothing_gives_an_empty_trace() {
    let r = merge_all_chunks(vec![], TraceFormat::Gumtrace, false, false);
    assert_eq!(r.scan_state.line_count, 0);
    assert!(r.scan_state.deps.is_empty());
    assert!(r.call_annotations.is_empty());
    let l = merge_line_indices(vec![]);
    assert_eq!(l.total, 0);
}

fn insn(class: InsnClass, defs: &[u8], uses: &[u8]) -> Insn {
    Insn {
        line: ParsedLine {
            mnemonic: "x".to_string(),
            operands: vec![],
            base_reg: None,
            writeback: false,
            mem_op: None,
        },
        class,
        known_nop: false,
        defs: defs.iter().map(|&r| RegId(r)).collect(),
        uses: uses.iter().map(|&r| RegId(r)).collect(),
    }
}

fn access(is_write: bool, abs: u64, value: u64) -> MemOp {
    MemOp {
        is_write,
        abs,
        elem_width: 2,
        value: Some(value),
        value_lo: None,
        value_hi: None,
        value2: None,
        value2_lo: None,
        value2_hi: None,
        value_count: 1,
        layout: MemLayout::Scalar,
        exclusive_status: None,
        simd_values: [None; 4],
        simd_reg_bytes: 0,
        simd_elem_bytes: 0,
        simd_lane: 0,
    }
}

#[test]
fn two_chunks_tell_what_the_whole_trace_tells() {
    // x1 = ..; store x1; branch on x1 | x2 = ..; load x3
    let mut store = insn(InsnClass::StoreReg, &[], &[1, 9]);
    store.line.mem_op = Some(access(true, 0x40, 7));
    let mut load = insn(InsnClass::LoadReg, &[3], &[9]);
    load.line.mem_op = Some(access(false, 0x40, 7));
    let decoded = vec![
        Some(insn(InsnClass::Other, &[1, 9], &[])),
        Some(store),
        Some(insn(InsnClass::CondBranchReg, &[], &[1])),
        Some(insn(InsnClass::Other, &[2], &[])),
        Some(load),
    ];
    let whole = match scan_from_string("a\nb\nc\nd\ne\n", &decoded, false) {
        Ok(state) => state,
        Err(e) => panic!("{e:?}"),
    };

    let mut first = chunk(0, vec![vec![], vec![0], vec![0]]);
    first.boundary.final_reg_last_def.insert(RegId(1), 0);
    first.boundary.final_reg_last_def.insert(RegId(9), 0);
    first.boundary.final_mem_last_def.insert(0x40, (1, 7));
    first.boundary.final_mem_last_def.insert(0x41, (1, 7));
    first.boundary.final_last_cond_branch = Some(2);
    let mut second = chunk(3, vec![vec![], vec![]]);
    second.boundary.final_reg_last_def.insert(RegId(2), 3);
    second.boundary.final_reg_last_def.insert(RegId(3), 4);
    second.init_mem_loads = LineFlags::repeat(true, 2);
    second.unresolved_loads = vec![UnresolvedLoad {
        line: 4,
        addr: 0x40,
        width: 2,
        load_value: Some(7),
        uses: vec![RegId(9)],
    }];
    let joined = merge_all_chunks(vec![first, second], TraceFormat::Unidbg, false, true).scan_state;

    for r in 0..REG_COUNT as u8 {
        assert_eq!(joined.reg_last_def.get(&RegId(r)), whole.reg_last_def.get(&RegId(r)));
    }
    for a in 0x3f..0x43u64 {
        assert_eq!(joined.mem_last_def.get(&a), whole.mem_last_def.get(&a));
    }
    assert_eq!(joined.last_cond_branch, whole.last_cond_branch);
    assert_eq!(joined.deps.patch_row(4), whole.deps.row(4));
    assert_eq!(whole.deps.row(4), &[1, 2 | CONTROL_DEP_BIT]);
    assert_eq!(joined.init_mem_loads.get(4), whole.init_mem_loads.get(4));
}
