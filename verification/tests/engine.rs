use std::collections::HashMap;
use trace_core::engine::activation::reason_str;
use trace_core::engine::dep_tree::DepTreeOptions;
use trace_core::engine::functions::group_calls;
use trace_core::engine::memory::{
    check_before_search, memory_at, settle_search, TraceMetadataSignature,
};
use trace_core::engine::registers::{changed_registers, join_names, pc_display, reg_id_to_name};
use trace_core::engine::session::{LineFact, RegEffects, SliceOrigin, TraceEngine, TraceSession};
use trace_core::engine::strings::{string_fits, string_input, StringQueryOptions};
use trace_core::error::TraceError;
use trace_core::merge::events::CallAnnotation;
use trace_core::parallel::{plan_scan, split_into_chunks, too_many_lines, ChunkMeta, ScanPlan};
use trace_core::query::activation::{ActivationBuilder, InsnFact, UnresolvedReason};
use trace_core::query::call_tree::CallTreeBuilder;
use trace_core::query::mem_access::{MemAccessIndex, MemAccessRecord, MemRw};
use trace_core::query::registers::RegCheckpoints;
use trace_core::query::strings::{StringEncoding, StringIndex, StringRecord, StringRw};
use trace_core::scanner::scan::scan_from_string;
use trace_core::text::{
    address, chars_of, contains_text, find_last_text, find_text, push_decimal, text_of, wide_address,
};
use trace_core::types::{Insn, InsnClass, ParsedLine, RegId, TraceFormat, REG_COUNT};

fn insn(defs: &[u8], uses: &[u8]) -> Insn {
    Insn {
        line: ParsedLine {
            mnemonic: "add".to_string(),
            operands: vec![],
            base_reg: None,
            writeback: false,
            mem_op: None,
        },
        class: InsnClass::Other,
        known_nop: false,
        defs: defs.iter().map(|&r| RegId(r)).collect(),
        uses: uses.iter().map(|&r| RegId(r)).collect(),
    }
}

fn fact(text: &str, defs: &[u8], uses: &[u8]) -> LineFact {
    LineFact {
        text: text.as_bytes().to_vec(),
        insn_offset: 0,
        insn: Some(insn(defs, uses)),
        effects: Some(RegEffects {
            defs: defs.iter().map(|&r| RegId(r)).collect(),
            uses: uses.iter().map(|&r| RegId(r)).collect(),
        }),
        disasm: String::new(),
        address: None,
        read_regs: vec![],
        reports_return: false,
        reg_values: vec![],
    }
}

fn special(text: &str, reports_return: bool) -> LineFact {
    LineFact { insn: None, effects: None, reports_return, ..fact(text, &[], &[]) }
}

fn session(id: &str) -> TraceSession {
    TraceSession {
        id: id.to_string(),
        format: TraceFormat::Gumtrace,
        total_lines: 0,
        lines: None,
        call_tree: None,
        activation_tree: None,
        string_index: None,
        mem_accesses: None,
        reg_checkpoints: None,
        scan_state: None,
        call_annotations: HashMap::new(),
        slice_origin: None,
        scanning_strings: false,
        scan_strings_cancel: false,
    }
}

fn engine(s: TraceSession) -> TraceEngine {
    TraceEngine { sessions: vec![session("other"), s] }
}

fn invalid_text<T>(r: Result<T, TraceError>) -> String {
    match r {
        Err(TraceError::InvalidArgument(text)) => text,
        _ => panic!("not refused"),
    }
}

fn is_not_ready<T>(r: Result<T, TraceError>) -> bool {
    matches!(r, Err(TraceError::IndexNotReady))
}

fn is_unknown<T>(r: Result<T, TraceError>) -> bool {
    matches!(r, Err(TraceError::SessionNotFound(id)) if id == "x")
}

#[test]
fn unknown_sessions_and_missing_indices_are_told_apart() {
    let mut e = engine(session("s"));
    let options = StringQueryOptions { min_len: 0, search: None, offset: 0, limit: 10 };
    let tree = || DepTreeOptions { data_only: false, max_nodes: None };
    assert!(is_unknown(e.get_call_tree("x")));
    assert!(is_unknown(e.get_call_tree_children("x", 0, true)));
    assert!(is_unknown(e.get_call_tree_node_count("x")));
    assert!(is_unknown(e.get_activation_tree("x", 0, 1)));
    assert!(is_unknown(e.get_activation_for_seq("x", 0)));
    assert!(is_unknown(e.get_instruction_owner("x", 0)));
    assert!(is_unknown(e.get_function_calls("x")));
    assert!(is_unknown(e.build_dep_tree("x", 0, "x0", tree())));
    assert!(is_unknown(e.build_dep_tree_from_slice("x", tree())));
    assert!(is_unknown(e.get_line_def_registers("x", 0)));
    assert!(is_unknown(e.get_def_use_chain("x", 0, "x0", Some(RegId(0)))));
    assert!(is_unknown(e.get_strings("x", &options)));
    assert!(is_unknown(e.get_string_xrefs("x", 0, 1)));
    assert!(is_unknown(e.scan_strings("x")));
    assert!(is_unknown(e.finish_scan_strings("x", None)));
    assert!(is_unknown(e.get_memory_at("x", 0, 0, 16)));
    assert!(is_unknown(e.get_mem_history_meta("x", 0, 0)));
    assert!(is_unknown(e.get_mem_history_range("x", 0, 0, 1)));
    assert!(is_unknown(e.get_registers_at("x", 0)));
    assert!(is_not_ready(e.get_call_tree("s")));
    assert!(is_not_ready(e.get_call_tree_children("s", 0, true)));
    assert!(is_not_ready(e.get_call_tree_node_count("s")));
    assert!(is_not_ready(e.get_activation_tree("s", 0, 1)));
    assert!(is_not_ready(e.get_activation_for_seq("s", 0)));
    assert!(is_not_ready(e.get_instruction_owner("s", 0)));
    assert!(is_not_ready(e.build_dep_tree("s", 0, "x0", tree())));
    assert!(is_not_ready(e.get_line_def_registers("s", 0)));
    assert!(is_not_ready(e.get_def_use_chain("s", 0, "x0", Some(RegId(0)))));
    assert!(is_not_ready(e.get_strings("s", &options)));
    assert!(is_not_ready(e.get_string_xrefs("s", 0, 1)));
    assert!(is_not_ready(e.scan_strings("s")));
    assert!(is_not_ready(e.get_memory_at("s", 0, 0, 16)));
    assert!(is_not_ready(e.get_mem_history_meta("s", 0, 0)));
    assert!(is_not_ready(e.get_mem_history_range("s", 0, 0, 1)));
    assert!(is_not_ready(e.get_registers_at("s", 0)));
    assert_eq!(e.get_function_calls("s").unwrap().total_calls, 0);
    e.cancel_scan_strings("x");
    assert!(!e.sessions[0].scan_strings_cancel && !e.sessions[1].scan_strings_cancel);
}

#[test]
fn call_trees_are_shown_with_offsets() {
    let mut b = CallTreeBuilder::new();
    b.set_root_addr(0x1000);
    b.on_call(2, 0x2000);
    b.on_call(4, 0x3000);
    b.on_ret(6);
    b.on_ret(8);
    b.set_func_name_by_entry_seq(4, "inner");
    let mut s = session("s");
    s.call_tree = Some(b.finish(10));
    let mut lines: Vec<LineFact> = (0..10).map(|_| special("", false)).collect();
    lines[2].insn_offset = 0xabc;
    s.lines = Some(lines);
    let e = engine(s);
    let nodes = e.get_call_tree("s").unwrap();
    assert_eq!(nodes.len(), 3);
    assert_eq!(nodes[0].func_addr, "0x1000");
    assert_eq!(nodes[1].func_addr, "0xabc");
    assert_eq!(nodes[1].children_ids, vec![2]);
    assert_eq!(nodes[2].func_addr, "0x3000");
    assert_eq!(nodes[2].func_name, Some("inner".to_string()));
    assert_eq!(nodes[2].parent_id, Some(1));
    assert_eq!(nodes[2].line_count, 3);
    let family = e.get_call_tree_children("s", 1, true).unwrap();
    assert_eq!(family.iter().map(|n| n.id).collect::<Vec<u32>>(), vec![1, 2]);
    assert_eq!(e.get_call_tree_children("s", 1, false).unwrap(), family[1..].to_vec());
    assert_eq!(e.get_call_tree_node_count("s").unwrap(), 3);
    assert_eq!(invalid_text(e.get_call_tree_children("s", 3, true)), "节点 3 不存在");
}

/// A call at line 1, its body at 2 and 3, the resume at 4, a call without a
/// recorded body at 5, and a call that the trace ends in at 7.
fn activations() -> TraceSession {
    let mut b = ActivationBuilder::new();
    b.on_insn(InsnFact::new(0, 0x100));
    b.on_insn(InsnFact::new(1, 0x104));
    b.on_call(1, 0x104);
    b.on_insn(InsnFact::new(2, 0x900));
    b.on_insn(InsnFact::new(3, 0x904));
    b.on_insn(InsnFact::new(4, 0x108));
    b.on_insn(InsnFact::new(5, 0x10c));
    b.on_call(5, 0x10c);
    b.on_insn(InsnFact::new(6, 0x110));
    b.on_insn(InsnFact::new(7, 0x114));
    b.on_call(7, 0x114);
    b.on_insn(InsnFact::new(8, 0x800));
    let mut s = session("s");
    s.total_lines = 10;
    s.activation_tree = Some(b.finish(10));
    let mut lines: Vec<LineFact> =
        (0..9).map(|i| fact(&format!("[m] 0x1!0x{i} nop"), &[], &[])).collect();
    lines.push(special("call func: f()", false));
    s.lines = Some(lines);
    s
}

#[test]
fn activation_trees_are_shown_page_by_page() {
    let e = engine(activations());
    let page = e.get_activation_tree("s", 1, 1).unwrap();
    assert_eq!(page.total_activations, 3);
    assert_eq!(page.total_bypassed, 1);
    assert_eq!((page.confirmed_count, page.unresolved_count, page.offset), (1, 1, 1));
    assert_eq!(page.activations.len(), 1);
    assert!(page.bypassed_calls.is_empty());
    let a = &page.activations[0];
    assert_eq!(a.activation, "s:call@1");
    assert_eq!((a.call_seq, a.entry_seq, a.exit_seq, a.resume_seq), (1, 2, 3, 4));
    assert_eq!(a.func_addr, "m+0x2");
    assert_eq!(a.call_pc, "m+0x1");
    assert_eq!(a.exit_pc, "m+0x3");
    assert_eq!(a.expected_resume, "m+0x4");
    assert_eq!(a.unresolved_reason, None);
    let first = e.get_activation_tree("s", 0, 9).unwrap();
    assert_eq!(first.activations.len(), 3);
    assert_eq!(first.bypassed_calls[0].call_seq, 5);
    assert_eq!(first.bypassed_calls[0].expected_resume, "0x110");
    assert_eq!(
        first.activations[2].unresolved_reason,
        Some("trace_end_still_active".to_string())
    );
    assert!(e.get_activation_tree("s", 9, 9).unwrap().activations.is_empty());
    let mut joined = e.get_activation_tree("s", 0, 1).unwrap().activations;
    joined.extend(e.get_activation_tree("s", 1, 2).unwrap().activations);
    let names: Vec<&String> = joined.iter().map(|a| &a.activation).collect();
    let all: Vec<&String> = first.activations.iter().map(|a| &a.activation).collect();
    assert_eq!(names, all);
}

#[test]
fn every_instruction_has_a_place() {
    let e = engine(activations());
    let place = |seq: u32| e.get_instruction_owner("s", seq).unwrap();
    assert_eq!(place(0).position, "root");
    assert_eq!((place(1).position, place(1).callee_id), ("call".to_string(), Some(1)));
    assert_eq!(place(2).position, "entry");
    assert_eq!(place(2).activation.unwrap().id, 1);
    assert_eq!(place(3).position, "exit");
    assert_eq!((place(4).position, place(4).callee_id), ("resume".to_string(), Some(1)));
    assert_eq!((place(5).position, place(5).callee_id), ("call".to_string(), None));
    assert!(place(5).detail.contains("bypassed"));
    // A call that the trace ends in owns nothing.
    assert_eq!(place(8).position, "root");
    assert_eq!(place(9).position, "not_an_instruction");
    assert_eq!(invalid_text(e.get_instruction_owner("s", 10)), "seq 10 超出 trace 总行数 10");
    assert_eq!(e.get_activation_for_seq("s", 3).unwrap().unwrap().id, 1);
    assert!(e.get_activation_for_seq("s", 0).unwrap().is_none());
    assert_eq!(invalid_text(e.get_activation_for_seq("s", 11)), "seq 11 超出 trace 总行数 10");
}

#[test]
fn reasons_have_names() {
    assert_eq!(reason_str(&UnresolvedReason::TraceEndStillActive), "trace_end_still_active");
    assert_eq!(reason_str(&UnresolvedReason::DisplacedByAnotherCall), "displaced_by_another_call");
    assert_eq!(reason_str(&UnresolvedReason::NoNextInsn), "no_next_insn");
}

fn note(name: &str, is_jni: bool) -> CallAnnotation {
    CallAnnotation {
        func_name: name.to_string(),
        is_jni,
        args: vec![],
        ret_value: None,
        raw_lines: vec![],
    }
}

#[test]
fn calls_are_grouped_by_function_and_ordered_by_first_use() {
    let mut notes = HashMap::new();
    notes.insert(30, note("a", false));
    notes.insert(10, note("b", true));
    notes.insert(20, note("a", false));
    let r = group_calls(&notes);
    assert_eq!(r.total_calls, 3);
    assert_eq!(r.functions.len(), 2);
    assert_eq!(r.functions[0].func_name, "b");
    assert!(r.functions[0].is_jni);
    assert_eq!(r.functions[1].occurrences, vec![20, 30]);
    let mut s = session("s");
    s.call_annotations = notes;
    assert_eq!(engine(s).get_function_calls("s").unwrap().functions[1].func_name, "a");
}

fn chain_session() -> TraceSession {
    let mut s = session("s");
    s.total_lines = 7;
    s.lines = Some(vec![
        fact("", &[0], &[]),
        fact("", &[1], &[0]),
        fact("", &[0], &[0]),
        special("ret: 0x1", true),
        fact("", &[], &[0, 1]),
        fact("", &[1], &[]),
        fact("", &[], &[1]),
    ]);
    s
}

#[test]
fn definitions_are_chained_to_their_uses() {
    let e = engine(chain_session());
    let c = e.get_def_use_chain("s", 0, "x0", Some(RegId(0))).unwrap();
    assert_eq!((c.def_seq, c.use_seqs, c.redefined_seq), (None, vec![1, 2], Some(2)));
    let c = e.get_def_use_chain("s", 2, "x0", Some(RegId(0))).unwrap();
    assert_eq!((c.def_seq, c.use_seqs, c.redefined_seq), (Some(0), vec![], Some(3)));
    // The reported result of a call defines the first register.
    let c = e.get_def_use_chain("s", 4, "x0", Some(RegId(0))).unwrap();
    assert_eq!(c.def_seq, Some(3));
    let c = e.get_def_use_chain("s", 1, "x1", Some(RegId(1))).unwrap();
    assert_eq!((c.use_seqs, c.redefined_seq), (vec![4], Some(5)));
    assert_eq!(invalid_text(e.get_def_use_chain("s", 0, "q?", None)), "未知寄存器: q?");
    assert_eq!(e.get_line_def_registers("s", 1).unwrap(), vec![RegId(1)]);
    assert!(e.get_line_def_registers("s", 3).unwrap().is_empty());
    assert!(e.get_line_def_registers("s", 99).unwrap().is_empty());
    // Elsewhere such a line means nothing.
    let mut s = chain_session();
    s.format = TraceFormat::Unidbg;
    let c = engine(s).get_def_use_chain("s", 4, "x0", Some(RegId(0))).unwrap();
    assert_eq!(c.def_seq, Some(2));
}

#[test]
fn dependency_trees_start_where_they_are_asked_to() {
    let mut s = chain_session();
    s.scan_state = scan_from_string("", &vec![], true).ok();
    s.slice_origin =
        Some(SliceOrigin { from_specs: vec!["reg:x1@2".to_string()], data_only: true });
    let e = engine(s);
    let ask = |target: &str| {
        e.build_dep_tree("s", 4, target, DepTreeOptions { data_only: false, max_nodes: Some(5) })
            .unwrap()
    };
    assert_eq!(ask("x0").spec, "reg:x0@5");
    assert_eq!(ask("reg:x0").spec, "reg:x0@5");
    assert_eq!(ask("mem:0x10").spec, "mem:0x10@5");
    assert_eq!(ask("x0").max_nodes, 5);
    let r = e
        .build_dep_tree_from_slice("s", DepTreeOptions { data_only: false, max_nodes: None })
        .unwrap();
    assert_eq!((r.spec.as_str(), r.data_only, r.max_nodes), ("reg:x1@2", true, 10000));
    let options = || DepTreeOptions { data_only: false, max_nodes: None };
    assert_eq!(
        invalid_text(engine(session("s")).build_dep_tree_from_slice("s", options())),
        "No active taint analysis result, please run taint tracking first"
    );
    let mut s = session("s");
    s.slice_origin = Some(SliceOrigin { from_specs: vec![], data_only: false });
    assert_eq!(
        invalid_text(engine(s).build_dep_tree_from_slice("s", options())),
        "No from_specs in SliceOrigin"
    );
}

fn string(addr: u64, content: &str, seq: u32) -> StringRecord {
    StringRecord {
        addr,
        content: content.to_string(),
        encoding: if content.is_ascii() { StringEncoding::Ascii } else { StringEncoding::Utf8 },
        byte_len: content.len() as u32,
        seq,
        xref_count: 1,
        rw: StringRw::Write,
    }
}

#[test]
fn strings_are_filtered_and_paged() {
    let mut s = session("s");
    s.string_index = Some(StringIndex {
        strings: vec![
            string(0x10, "Hello", 1),
            string(0x20, "hi", 2),
            string(0x30, "shell \u{c4}PFEL", 3),
            string(0x40, "SHELLS", 4),
        ],
    });
    let e = engine(s);
    let ask = |min_len: u32, search: Option<&str>, offset: u32, limit: u32| {
        let options =
            StringQueryOptions { min_len, search: search.map(|t| t.to_string()), offset, limit };
        e.get_strings("s", &options).unwrap()
    };
    assert_eq!(ask(0, None, 0, 10).total, 4);
    assert_eq!(ask(3, None, 0, 10).total, 3);
    let r = ask(0, Some("HELL"), 1, 1);
    assert_eq!(r.total, 3);
    assert_eq!(r.strings.len(), 1);
    assert_eq!(r.strings[0].idx, 2);
    assert_eq!(r.strings[0].addr, "0x30");
    assert_eq!(r.strings[0].encoding, "UTF-8");
    assert_eq!(r.strings[0].rw, "W");
    assert_eq!(ask(0, Some("\u{e4}pfel"), 0, 9).total, 1);
    assert!(ask(0, Some("none"), 0, 9).strings.is_empty());
    assert!(string_fits(5, "Hello", 5, Some("ell")));
    assert!(!string_fits(5, "Hello", 6, None));
}

fn access(seq: u32, rw: MemRw, data: u64, size: u8) -> MemAccessRecord {
    MemAccessRecord { seq, insn_addr: 0x400 + seq as u64, rw, data, size }
}

fn accesses() -> MemAccessIndex {
    let mut m = MemAccessIndex::new();
    m.add(0x1000, access(1, MemRw::Write, 0x0807060504030201, 8));
    m.add(0x1004, access(3, MemRw::Write, 0xaabb, 2));
    m.add(0x1000, access(5, MemRw::Read, 0x01, 1));
    m.add(0x1010, access(2, MemRw::Read, 0x55, 16));
    m
}

#[test]
fn strings_are_searched_one_scan_at_a_time() {
    let mut s = session("s");
    s.mem_accesses = Some(accesses());
    let mut e = engine(s);
    let list = e.scan_strings("s").unwrap();
    assert_eq!(
        list,
        vec![
            (0x1000, 0x0807060504030201, 8, 1, StringRw::Write),
            (0x1004, 0xaabb, 2, 3, StringRw::Write),
            (0x1000, 1, 1, 5, StringRw::Read),
        ]
    );
    assert_eq!(string_input(&accesses()), list);
    assert!(matches!(
        e.scan_strings("s"),
        Err(TraceError::OperationInProgress(text)) if text == "scan_strings already running"
    ));
    assert!(!e.scan_strings_stops("s", 0));
    e.cancel_scan_strings("s");
    assert!(e.scan_strings_stops("s", 10000));
    assert!(!e.scan_strings_stops("s", 10001));
    assert!(matches!(e.finish_scan_strings("s", None), Err(TraceError::Cancelled)));
    assert!(e.sessions[1].string_index.is_none());
    assert!(e.scan_strings("s").is_ok());
    assert!(!e.scan_strings_stops("s", 0));
    let found = StringIndex { strings: vec![string(1, "a", 1)] };
    assert!(e.finish_scan_strings("s", Some(found)).is_ok());
    assert_eq!(e.sessions[1].string_index.as_ref().unwrap().strings.len(), 1);
    assert!(!e.sessions[1].scanning_strings);
}

#[test]
fn references_to_a_string_are_listed_once_and_in_order() {
    let mut s = session("s");
    s.mem_accesses = Some(accesses());
    let mut lines: Vec<LineFact> = (0..6).map(|_| special("", false)).collect();
    lines[3].insn_offset = 0x77;
    lines[3].disasm = "strh w0, [x1]".to_string();
    s.lines = Some(lines);
    let e = engine(s);
    let refs = e.get_string_xrefs("s", 0x1000, 6).unwrap();
    assert_eq!(refs.iter().map(|r| r.seq).collect::<Vec<u32>>(), vec![1, 3, 5]);
    assert_eq!(refs[1].insn_addr, "0x77");
    assert_eq!(refs[1].disasm, "strh w0, [x1]");
    assert_eq!((refs[1].rw.as_str(), refs[2].rw.as_str()), ("W", "R"));
    assert_eq!(refs[2].insn_addr, "0x405");
    assert_eq!(e.get_string_xrefs("s", 0x1000, 1).unwrap().len(), 2);
    assert!(e.get_string_xrefs("s", 0x2000, 4).unwrap().is_empty());
}

#[test]
fn memory_is_shown_as_of_a_line() {
    let m = accesses();
    let s = memory_at(&m, 0x1003, 4, 3);
    assert_eq!(s.base_addr, "0x1000");
    assert_eq!(s.length, 16);
    assert_eq!(&s.bytes[..8], &[1, 2, 3, 4, 0xbb, 0xaa, 7, 8]);
    assert!(s.known[7] && !s.known[8]);
    let before = memory_at(&m, 0x1000, 2, 16);
    assert_eq!(before.bytes[4], 5);
    assert!(memory_at(&m, 0x1000, 0, 16).known.iter().all(|k| !k));
    let mut t = session("s");
    t.mem_accesses = Some(m);
    assert_eq!(engine(t).get_memory_at("s", 0x1003, 4, 3).unwrap(), s);
}

#[test]
fn histories_are_sampled_when_long() {
    let mut m = MemAccessIndex::new();
    for seq in 0..600 {
        m.add(8, access(seq * 2, MemRw::Write, seq as u64, 4));
    }
    m.add(16, access(7, MemRw::Read, 0x1f, 4));
    let mut s = session("s");
    s.mem_accesses = Some(m);
    s.lines = Some(vec![]);
    let e = engine(s);
    let meta = e.get_mem_history_meta("s", 8, 11).unwrap();
    assert_eq!((meta.total, meta.center_index, meta.samples.len()), (600, 6, 300));
    assert_eq!(meta.samples[299].seq, 598 * 2);
    assert_eq!(e.get_mem_history_meta("s", 8, 5000).unwrap().center_index, 599);
    let short = e.get_mem_history_meta("s", 16, 0).unwrap();
    assert_eq!((short.total, short.center_index, short.samples.len()), (1, 0, 0));
    assert_eq!(e.get_mem_history_meta("s", 1, 0).unwrap().total, 0);
    let range = e.get_mem_history_range("s", 8, 598, 10).unwrap();
    assert_eq!(range.iter().map(|r| r.seq).collect::<Vec<u32>>(), vec![1196, 1198]);
    assert!(e.get_mem_history_range("s", 8, 900, 1).unwrap().is_empty());
    let one = &e.get_mem_history_range("s", 16, 0, 1).unwrap()[0];
    assert_eq!((one.rw.as_str(), one.data.as_str(), one.insn_addr.as_str()), ("R", "0x1f", "0x407"));
}

#[test]
fn registers_are_replayed_from_the_nearest_snapshot() {
    let mut ckpts = RegCheckpoints::new(10);
    ckpts.save_checkpoint(&[u64::MAX; REG_COUNT]);
    let mut s = session("s");
    s.reg_checkpoints = Some(ckpts);
    let mut line = fact("a\" x1=0x1 => x0=0x5 sp=0x9 stra\u{df}e=1", &[0], &[1]);
    line.reg_values = vec![(RegId(0), 5), (RegId(31), 9)];
    line.address = Some("0x40".to_string());
    line.read_regs = vec![RegId(1), RegId(90)];
    s.lines = Some(vec![line, special("", false)]);
    let e = engine(s);
    let r = e.get_registers_at("s", 0).unwrap();
    let value = |name: &str| r.registers.iter().find(|p| p.0 == name).unwrap().1.clone();
    assert_eq!(r.registers.len(), 33);
    assert_eq!(value("X0"), "0x0000000000000005");
    assert_eq!(value("SP"), "0x0000000000000009");
    assert_eq!(value("X1"), "?");
    assert_eq!(value("NZCV"), "?");
    assert_eq!(r.pc, Some("0x0000000000000040".to_string()));
    assert_eq!(r.changed, Some("X0,SP,STRASSE".to_string()));
    assert_eq!(r.read, Some("X1".to_string()));
    let later = e.get_registers_at("s", 1).unwrap();
    assert_eq!(later.registers[0].1, "0x0000000000000005");
    assert_eq!((later.pc, later.changed, later.read), (None, None, None));
    let mut empty = session("s");
    empty.reg_checkpoints = Some(RegCheckpoints::new(10));
    empty.lines = Some(vec![]);
    assert!(matches!(
        engine(empty).get_registers_at("s", 0),
        Err(TraceError::Internal(text)) if text == "无可用检查点"
    ));
}

#[test]
fn names_and_addresses_of_registers() {
    assert_eq!(reg_id_to_name(RegId(30)), Some("X30"));
    assert_eq!(reg_id_to_name(RegId(31)), Some("SP"));
    assert_eq!(reg_id_to_name(RegId(65)), Some("NZCV"));
    assert_eq!(reg_id_to_name(RegId(40)), None);
    assert_eq!(pc_display("0x1F"), "0x000000000000001f");
    assert_eq!(pc_display("0X1f"), "0x000000000000001f");
    assert_eq!(pc_display("1f"), "1f");
    assert_eq!(pc_display("0xzz"), "0xzz");
    assert_eq!(pc_display("0x"), "0x");
    assert_eq!(pc_display("0x10000000000000000"), "0x10000000000000000");
    assert_eq!(changed_registers("a -> x0=1 y w1=2"), vec!["x0", "w1"]);
    assert_eq!(changed_registers("a -> x0=1 => x1=2"), vec!["x1"]);
    assert!(changed_registers("a x0=1").is_empty());
    assert_eq!(join_names(&vec![]), None);
    assert_eq!(join_names(&vec!["A".to_string(), "B".to_string()]), Some("A,B".to_string()));
}

fn metadata(len: u64) -> TraceMetadataSignature {
    TraceMetadataSignature { len, modified: Some(1), dev: 2, ino: 3, ctime: 4, ctime_nsec: 5 }
}

#[test]
fn a_rewritten_trace_is_not_searched() {
    assert!(check_before_search(&metadata(1), &metadata(1)).is_ok());
    assert!(matches!(
        check_before_search(&metadata(1), &metadata(2)),
        Err(TraceError::CacheError(_))
    ));
    assert_eq!(settle_search(&metadata(1), &metadata(1), Ok(7)).unwrap(), 7);
    assert!(matches!(
        settle_search(&metadata(1), &metadata(2), Ok(7)),
        Err(TraceError::CacheError(_))
    ));
    assert!(matches!(
        settle_search::<u32>(&metadata(1), &metadata(1), Err(TraceError::Cancelled)),
        Err(TraceError::Cancelled)
    ));
}

#[test]
fn chunks_hold_whole_lines() {
    let data = b"aa\nbb\ncc\ndd";
    let chunks = split_into_chunks(data, 2);
    assert_eq!(
        chunks,
        vec![
            ChunkMeta { start_byte: 0, end_byte: 6, start_line: 0, line_count: 2 },
            ChunkMeta { start_byte: 6, end_byte: 11, start_line: 2, line_count: 2 },
        ]
    );
    assert_eq!(split_into_chunks(b"", 4).len(), 1);
    assert_eq!(split_into_chunks(b"no line feed at all", 4).len(), 1);
    assert_eq!(split_into_chunks(data, 0).len(), 1);
    assert!(matches!(plan_scan(data, 8), ScanPlan::Single));
    let large: Vec<u8> = b"0123456\n".iter().cycle().take(20 << 20).copied().collect();
    assert!(matches!(plan_scan(&large, 1), ScanPlan::Single));
    match plan_scan(&large, 3) {
        ScanPlan::Chunked(chunks) => {
            assert_eq!(chunks.len(), 3);
            assert_eq!(chunks[2].end_byte, large.len());
            for pair in chunks.windows(2) {
                assert_eq!(pair[0].end_byte, pair[1].start_byte);
                assert_eq!(pair[0].start_line + pair[0].line_count, pair[1].start_line);
            }
        }
        _ => panic!("not divided"),
    }
}

#[test]
fn too_many_lines_are_counted_in_the_message() {
    assert_eq!(
        too_many_lines(536870912),
        "文件行数 536870912 超过当前支持的最大值 536870911（约 5.36 亿行）。"
    );
}

#[test]
fn texts_are_searched_by_character() {
    let v = chars_of("a\u{e9}b\u{e9}b");
    assert_eq!(v.len(), 5);
    assert_eq!(text_of(&v, 1, 3), "\u{e9}b");
    assert_eq!(find_text(&v, "\u{e9}b", 0), Some(1));
    assert_eq!(find_text(&v, "\u{e9}b", 2), Some(3));
    assert_eq!(find_last_text(&v, "\u{e9}b", 5), Some(3));
    assert_eq!(find_last_text(&v, "\u{e9}b", 4), Some(1));
    assert_eq!(find_text(&v, "x", 0), None);
    assert!(contains_text("abc", ""));
    assert!(!contains_text("ab", "abc"));
    assert_eq!(address(0), "0x0");
    assert_eq!(address(u64::MAX), "0xffffffffffffffff");
    assert_eq!(wide_address(0xab), "0x00000000000000ab");
    let mut s = "n=".to_string();
    push_decimal(&mut s, u64::MAX);
    assert_eq!(s, "n=18446744073709551615");
}
