use std::collections::HashMap;
use trace_core::foreign::DepList;
use trace_core::scanner::deps::{CompactDeps, DepsStorage};
use trace_core::scanner::last_def::{MemLastDef, RegLastDef};
use trace_core::scanner::lines::{count_lines, line_spans};
use trace_core::scanner::model::{ScanError, CONTROL_DEP_BIT};
use trace_core::scanner::pass1::{mem_access_width, push_unique, resolved_target};
use trace_core::scanner::scan::{
    scan_from_string, scan_from_string_with_range, scan_from_string_with_targets, scan_pass1_bytes,
};
use trace_core::types::{
    Insn, InsnClass, LineTarget, MemLayout, MemOp, Operand, ParsedLine, RegId,
};

const X0: RegId = RegId(0);
const X8: RegId = RegId(8);
const X9: RegId = RegId(9);
const X15: RegId = RegId(15);
const SP: RegId = RegId(31);
const V0: RegId = RegId(33);
const V1: RegId = RegId(34);
const V2: RegId = RegId(35);
const V3: RegId = RegId(36);
const NZCV: RegId = RegId(65);

/// A line of a trace: its text, and the instruction in it.
type Line = (String, Option<Insn>);

fn reg(name: &str) -> RegId {
    match name {
        "sp" => SP,
        "nzcv" => NZCV,
        _ => RegId(name[1..].parse().unwrap()),
    }
}

fn op(is_write: bool, abs: u64, elem_width: u8, value: Option<u64>) -> MemOp {
    MemOp {
        is_write,
        abs,
        elem_width,
        value,
        value_lo: None,
        value_hi: None,
        value2: None,
        value2_lo: None,
        value2_hi: None,
        value_count: 1,
        layout: MemLayout::Scalar,
        exclusive_status: None,
        simd_values: [None; 4],
        simd_reg_bytes: 0,
        simd_elem_bytes: 0,
        simd_lane: 0,
    }
}

fn insn(mnemonic: &str, class: InsnClass, defs: &[RegId], uses: &[RegId]) -> Insn {
    Insn {
        line: ParsedLine {
            mnemonic: mnemonic.to_string(),
            operands: defs.iter().chain(uses).map(|&r| Operand::Reg(r)).collect(),
            base_reg: None,
            writeback: false,
            mem_op: None,
        },
        class,
        known_nop: false,
        defs: defs.to_vec(),
        uses: uses.to_vec(),
    }
}

fn mov_line(rd: &str, val: u64) -> Line {
    (
        format!(
            r#"[00:00:00 001][lib.so 0x100] [d2800000] 0x40000100: "mov {rd}, #{val}" => {rd}=0x{val:x}"#,
        ),
        Some(insn("mov", InsnClass::Other, &[reg(rd)], &[])),
    )
}

fn add_line(rd: &str, rn: &str, rm: &str) -> Line {
    (
        format!(
            r#"[00:00:00 001][lib.so 0x108] [8b000000] 0x40000108: "add {rd}, {rn}, {rm}" {rn}=0x1 {rm}=0x2 => {rd}=0x3"#,
        ),
        Some(insn("add", InsnClass::Other, &[reg(rd)], &[reg(rn), reg(rm)])),
    )
}

fn store(rt: &str, base: &str, abs: u64, value: u64) -> Insn {
    let mut i = insn("str", InsnClass::StoreReg, &[], &[reg(rt), reg(base)]);
    i.line.base_reg = Some(reg(base));
    i.line.mem_op = Some(op(true, abs, 8, Some(value)));
    i
}

fn load(rt: &str, base: &str, abs: u64, value: u64) -> Insn {
    let mut i = insn("ldr", InsnClass::LoadReg, &[reg(rt)], &[reg(base)]);
    i.line.base_reg = Some(reg(base));
    i.line.mem_op = Some(op(false, abs, 8, Some(value)));
    i
}

fn str_line(rt: &str, base: &str, abs: u64) -> Line {
    (
        format!(
            r#"[00:00:00 001][lib.so 0x10c] [f9000000] 0x4000010c: "str {rt}, [{base}, #0x10]" ; mem[WRITE] abs=0x{abs:x} {rt}=0x3 {base}=0x{:x} => {rt}=0x3"#,
            abs - 0x10,
        ),
        Some(store(rt, base, abs, 3)),
    )
}

fn ldr_line(rt: &str, base: &str, abs: u64) -> Line {
    (
        format!(
            r#"[00:00:00 001][lib.so 0x110] [f9400000] 0x40000110: "ldr {rt}, [{base}, #0x10]" ; mem[READ] abs=0x{abs:x} {base}=0x{:x} => {rt}=0x3"#,
            abs - 0x10,
        ),
        Some(load(rt, base, abs, 3)),
    )
}

fn cmp_line() -> Line {
    (
        r#"[00:00:00 001][lib.so 0x300] [6b09011f] 0x40000300: "cmp x8, x9" x8=0x5 x9=0xa => nzcv=0x80000000"#.to_string(),
        Some(insn("cmp", InsnClass::Other, &[NZCV], &[X8, X9])),
    )
}

fn beq_line() -> Line {
    (
        r#"[00:00:00 001][lib.so 0x304] [54000040] 0x40000304: "b.eq #0x4000030c" nzcv=0x40000000"#.to_string(),
        Some(insn("b.eq", InsnClass::CondBranchNzcv, &[], &[NZCV])),
    )
}

fn other_line(text: &str) -> Line {
    (text.to_string(), None)
}

/// The text of the lines, and what they decode to.
fn trace_of(lines: &[Line]) -> (String, Vec<Option<Insn>>) {
    let text: Vec<&str> = lines.iter().map(|l| l.0.as_str()).collect();
    (text.join("\n"), lines.iter().map(|l| l.1.clone()).collect())
}

// =========================================================================
// Test: simple register chain
// =========================================================================

#[test]
fn test_simple_register_chain() {
    let lines = [
        mov_line("x8", 5),
        mov_line("x9", 10),
        add_line("x0", "x8", "x9"),
    ];
    let (trace, decoded) = trace_of(&lines);
    let state = scan_from_string(&trace, &decoded, false).unwrap();

    assert_eq!(state.line_count, 3);
    // add x0 should have last def at line 2
    assert_eq!(state.reg_last_def.get(&X0), Some(&2));
    // add x0, x8, x9 depends on mov x8 (line 0) and mov x9 (line 1)
    assert!(
        state.deps.row(2).contains(&0),
        "add should depend on mov x8"
    );
    assert!(
        state.deps.row(2).contains(&1),
        "add should depend on mov x9"
    );
}

// =========================================================================
// Test: memory dependency (store -> load)
// =========================================================================

#[test]
fn test_memory_dependency() {
    let lines = [
        mov_line("x8", 42),
        str_line("x8", "sp", 0xbffff010),
        ldr_line("x0", "sp", 0xbffff010),
    ];
    let (trace, decoded) = trace_of(&lines);
    let state = scan_from_string(&trace, &decoded, false).unwrap();

    // ldr (line 2) depends on str (line 1) via memory
    assert!(
        state.deps.row(2).contains(&1),
        "ldr should depend on str via memory"
    );
    // str (line 1) depends on mov x8 (line 0) via register
    assert!(
        state.deps.row(1).contains(&0),
        "str should depend on mov x8 via register"
    );
}

// =========================================================================
// Test: control dependency (cmp -> b.eq -> next instruction)
// =========================================================================

#[test]
fn test_control_dependency() {
    let lines = [
        cmp_line(),
        beq_line(),
        mov_line("x0", 1),
    ];
    let (trace, decoded) = trace_of(&lines);
    let state = scan_from_string(&trace, &decoded, false).unwrap();

    // b.eq (line 1) is a conditional branch -> sets lastCondBranch
    // mov x0 (line 2) should have control dep on b.eq (line 1), tagged with CONTROL_DEP_BIT
    assert!(
        state.deps.row(2).contains(&(1 | CONTROL_DEP_BIT)),
        "mov after b.eq should have control dep (tagged with CONTROL_DEP_BIT)"
    );
}

// =========================================================================
// Test: data_only mode disables control deps
// =========================================================================

#[test]
fn test_data_only_no_control_dep() {
    let lines = [
        cmp_line(),
        beq_line(),
        mov_line("x0", 1),
    ];
    let (trace, decoded) = trace_of(&lines);
    let state = scan_from_string(&trace, &decoded, true).unwrap();

    // In data_only mode, no control dependency edge from b.eq to mov
    assert!(
        !state.deps.row(2).contains(&1),
        "data_only should suppress control deps"
    );
}

// =========================================================================
// Test: b.eq itself depends on cmp via nzcv register
// =========================================================================

#[test]
fn test_cond_branch_depends_on_flag_setter() {
    let lines = [
        cmp_line(),
        beq_line(),
    ];
    let (trace, decoded) = trace_of(&lines);
    let state = scan_from_string(&trace, &decoded, false).unwrap();

    // b.eq (line 1) USEs nzcv, which was DEF'd by cmp (line 0)
    assert!(
        state.deps.row(1).contains(&0),
        "b.eq should depend on cmp via nzcv"
    );
}

// =========================================================================
// Test: regLastDef is updated correctly
// =========================================================================

#[test]
fn test_reg_last_def_updated() {
    let lines = [
        mov_line("x8", 1),
        mov_line("x8", 2), // overwrites x8
        mov_line("x0", 3),
    ];
    let (trace, decoded) = trace_of(&lines);
    let state = scan_from_string(&trace, &decoded, false).unwrap();

    // x8 last def should be line 1 (second mov)
    assert_eq!(state.reg_last_def.get(&X8), Some(&1));
    // x0 last def should be line 2
    assert_eq!(state.reg_last_def.get(&X0), Some(&2));
}

// =========================================================================
// Test: unparseable lines are skipped
// =========================================================================

#[test]
fn test_unparseable_lines_skipped() {
    let lines = [
        other_line("random log line that doesn't match"),
        mov_line("x0", 42),
    ];
    let (trace, decoded) = trace_of(&lines);
    let state = scan_from_string(&trace, &decoded, false).unwrap();

    assert_eq!(state.line_count, 2);
    // The unparseable line has empty deps
    assert!(state.deps.row(0).is_empty());
    // mov x0 at line 1 has no deps (no prior defs)
    assert!(state.deps.row(1).is_empty());
    assert_eq!(state.reg_last_def.get(&X0), Some(&1));
}

// =========================================================================
// Test: push_unique deduplication
// =========================================================================

#[test]
fn test_push_unique_dedup() {
    let mut sv = DepList::new();
    push_unique(&mut sv, 5);
    push_unique(&mut sv, 5);
    push_unique(&mut sv, 3);
    push_unique(&mut sv, 5);
    assert_eq!(sv.as_slice(), &[5, 3]);
}

// =========================================================================
// Test: SimdLaneLoad refinement (ld1 lane -> read-modify-write)
// =========================================================================

#[test]
fn test_simd_lane_load_refinement() {
    let lines = [
        (
            r#"[00:00:00 001][lib.so 0x100] [4f000400] 0x40000100: "movi v0.4s, #0" => q0=0x0"#.to_string(),
            Some(insn("movi", InsnClass::Other, &[V0], &[])),
        ),
        (
            r#"[00:00:00 001][lib.so 0x104] [0d401de0] 0x40000104: "ld1 {v0.s}[1], [x15]" ; mem[READ] abs=0x40500000 q0=0x0 x15=0x40500000 => q0=0x100"#.to_string(),
            Some({
                let mut i = insn("ld1", InsnClass::SimdLoad, &[V0], &[V0, X15]);
                i.line.base_reg = Some(X15);
                i.line.mem_op = Some(op(false, 0x40500000, 4, None));
                i
            }),
        ),
    ];
    let (trace, decoded) = trace_of(&lines);
    let state = scan_from_string(&trace, &decoded, true).unwrap();

    // ld1 lane (line 1) should depend on movi (line 0) via v0 old value (read-modify-write)
    assert!(
        state.deps.row(1).contains(&0),
        "ld1 lane should depend on prior v0 def (read-modify-write)"
    );
}

// =========================================================================
// Test: SysRegNzcvRead refinement (mrs x0, nzcv -> USE=nzcv)
// =========================================================================

#[test]
fn test_sysreg_nzcv_read_refinement() {
    let lines = [
        cmp_line(),
        (
            r#"[00:00:00 001][lib.so 0x304] [d53b4200] 0x40000304: "mrs x0, nzcv" nzcv=0x80000000 => x0=0x80000000"#.to_string(),
            Some(insn("mrs", InsnClass::Other, &[X0], &[NZCV])),
        ),
    ];
    let (trace, decoded) = trace_of(&lines);
    let state = scan_from_string(&trace, &decoded, true).unwrap();

    // mrs nzcv (line 1) should depend on cmp (line 0) via nzcv
    assert!(
        state.deps.row(1).contains(&0),
        "mrs x0, nzcv should depend on cmp via nzcv register"
    );
}

// =========================================================================
// Test: scan_with_range - start_seq only
// =========================================================================

#[test]
fn test_scan_with_start_seq() {
    let lines = [
        mov_line("x8", 5),
        mov_line("x9", 10),
        add_line("x0", "x8", "x9"),
    ];
    let (trace, decoded) = trace_of(&lines);
    let state = scan_from_string_with_range(&trace, &decoded, false, 2, None).unwrap();

    assert_eq!(state.line_count, 3);
    assert!(state.deps.row(0).is_empty());
    assert!(state.deps.row(1).is_empty());
    assert!(state.deps.row(2).is_empty()); // no prior defs in range
    assert_eq!(state.reg_last_def.get(&X0), Some(&2));
    assert_eq!(state.reg_last_def.get(&X8), None);
}

// =========================================================================
// Test: scan_with_range - end_seq only
// =========================================================================

#[test]
fn test_scan_with_end_seq() {
    let lines = [
        mov_line("x8", 5),
        mov_line("x9", 10),
        add_line("x0", "x8", "x9"),
    ];
    let (trace, decoded) = trace_of(&lines);
    let state = scan_from_string_with_range(&trace, &decoded, false, 0, Some(1)).unwrap();

    assert_eq!(state.line_count, 3);
    assert_eq!(state.reg_last_def.get(&X8), Some(&0));
    assert_eq!(state.reg_last_def.get(&X9), Some(&1));
    assert_eq!(state.reg_last_def.get(&X0), None);
    assert!(state.deps.row(2).is_empty());
}

// =========================================================================
// Test: @LINE target validation - register DEF valid
// =========================================================================

#[test]
fn test_scan_reg_at_line_valid() {
    let lines = [mov_line("x8", 5)];
    let (trace, decoded) = trace_of(&lines);
    let mut targets = HashMap::new();
    targets.insert(0u32, vec![LineTarget::Reg(X8)]);

    let state = scan_from_string_with_targets(&trace, &decoded, false, 0, None, &targets).unwrap();
    assert_eq!(
        resolved_target(&state.resolved_targets, 0, LineTarget::Reg(X8)),
        Some(0),
        "should resolve to same line when DEF is present"
    );
}

// =========================================================================
// Test: @LINE target validation - register DEF invalid
// =========================================================================

#[test]
fn test_scan_reg_at_line_invalid() {
    let lines = [mov_line("x8", 5)];
    let (trace, decoded) = trace_of(&lines);
    let mut targets = HashMap::new();
    targets.insert(0u32, vec![LineTarget::Reg(X0)]);

    let result = scan_from_string_with_targets(&trace, &decoded, false, 0, None, &targets);
    assert!(result.is_err(), "should fail: line 0 does not DEF x0");
}

// =========================================================================
// Test: @LINE target validation - memory STORE valid
// =========================================================================

#[test]
fn test_scan_mem_at_line_valid() {
    let lines = [str_line("x8", "sp", 0xbffff010)];
    let (trace, decoded) = trace_of(&lines);
    let mut targets = HashMap::new();
    targets.insert(0u32, vec![LineTarget::Mem(0xbffff010)]);

    let state = scan_from_string_with_targets(&trace, &decoded, false, 0, None, &targets).unwrap();
    assert_eq!(
        resolved_target(&state.resolved_targets, 0, LineTarget::Mem(0xbffff010)),
        Some(0),
        "should resolve to same line when STORE is present"
    );
}

// =========================================================================
// Test: @LINE target validation - memory STORE invalid
// =========================================================================

#[test]
fn test_scan_mem_at_line_invalid() {
    let lines = [str_line("x8", "sp", 0xbffff010)];
    let (trace, decoded) = trace_of(&lines);
    let mut targets = HashMap::new();
    targets.insert(0u32, vec![LineTarget::Mem(0xdeadbeef)]);

    let result = scan_from_string_with_targets(&trace, &decoded, false, 0, None, &targets);
    assert!(
        result.is_err(),
        "should fail: line 0 does not STORE to 0xdeadbeef"
    );
}

// =========================================================================
// Test: @LINE target validation - line out of range
// =========================================================================

#[test]
fn test_scan_line_target_out_of_range() {
    let lines = [mov_line("x8", 5)];
    let (trace, decoded) = trace_of(&lines);
    let mut targets = HashMap::new();
    targets.insert(999u32, vec![LineTarget::Reg(X8)]);

    let result = scan_from_string_with_targets(&trace, &decoded, false, 0, None, &targets);
    assert!(result.is_err(), "should fail: line 999 out of range");
}

// =========================================================================
// Test: @LINE fallback - register DEF not at target line, resolves to prior
// =========================================================================

#[test]
fn test_scan_reg_at_line_fallback() {
    // line 0: mov x8 (DEFs x8), line 1: str x8 (USEs x8)
    let lines = [mov_line("x8", 5), str_line("x8", "sp", 0x100)];
    let (trace, decoded) = trace_of(&lines);
    let mut targets = HashMap::new();
    targets.insert(1u32, vec![LineTarget::Reg(X8)]);

    let state = scan_from_string_with_targets(&trace, &decoded, true, 0, None, &targets).unwrap();
    let resolved = resolved_target(&state.resolved_targets, 1, LineTarget::Reg(X8));
    assert_eq!(resolved, Some(0));
}

// =========================================================================
// Test: @LINE fallback - memory STORE not at target line, resolves to prior
// =========================================================================

#[test]
fn test_scan_mem_at_line_fallback() {
    // line 0: str x8 to 0x100, line 1: mov x9 (no mem op)
    let lines = [str_line("x8", "sp", 0x100), mov_line("x9", 10)];
    let (trace, decoded) = trace_of(&lines);
    let mut targets = HashMap::new();
    targets.insert(1u32, vec![LineTarget::Mem(0x100)]);

    let state = scan_from_string_with_targets(&trace, &decoded, true, 0, None, &targets).unwrap();
    let resolved = resolved_target(&state.resolved_targets, 1, LineTarget::Mem(0x100));
    assert_eq!(resolved, Some(0));
}

// =========================================================================
// Test: @LINE fallback - no prior DEF exists, should error
// =========================================================================

#[test]
fn test_scan_reg_at_line_no_prior_def() {
    let lines = [mov_line("x9", 5)];
    let (trace, decoded) = trace_of(&lines);
    let mut targets = HashMap::new();
    targets.insert(0u32, vec![LineTarget::Reg(X8)]);

    let result = scan_from_string_with_targets(&trace, &decoded, true, 0, None, &targets);
    assert!(result.is_err());
}

// =========================================================================
// Test: scan_with_range - start_seq and end_seq
// =========================================================================

#[test]
fn test_scan_with_start_and_end_seq() {
    let lines = [
        mov_line("x8", 5),
        mov_line("x9", 10),
        add_line("x0", "x8", "x9"),
    ];
    let (trace, decoded) = trace_of(&lines);
    let state = scan_from_string_with_range(&trace, &decoded, false, 1, Some(1)).unwrap();

    assert_eq!(state.line_count, 3);
    assert_eq!(state.reg_last_def.get(&X9), Some(&1));
    assert_eq!(state.reg_last_def.get(&X8), None);
    assert_eq!(state.reg_last_def.get(&X0), None);
}

#[test]
fn test_scan_empty_trace() {
    let state = scan_from_string("", &vec![], false).unwrap();
    assert_eq!(state.line_count, 0);
    assert!(state.deps.is_empty());
}

#[test]
fn test_scan_blank_lines_only() {
    let trace = "\n\n\n";
    let state = scan_from_string(trace, &vec![None; 3], false).unwrap();
    assert_eq!(state.line_count, 3);
}

#[test]
fn test_scan_unparseable_lines() {
    let trace = "this is not a valid trace line\nanother bad line";
    let state = scan_from_string(trace, &vec![None; 2], false).unwrap();
    assert_eq!(state.line_count, 2);
    assert!(state.deps.row(0).is_empty());
    assert!(state.deps.row(1).is_empty());
}

#[test]
fn test_mem_access_width_simd_multi_reg() {
    fn make_line(mnemonic: &str, regs: &[RegId], base: RegId) -> ParsedLine {
        ParsedLine {
            mnemonic: mnemonic.to_string(),
            operands: regs.iter().map(|&r| Operand::Reg(r)).collect(),
            base_reg: Some(base),
            writeback: false,
            mem_op: None,
        }
    }

    // ld1 {v0, v1}, [x0]
    let line = make_line("ld1", &[V0, V1, X0], X0);
    assert_eq!(mem_access_width(InsnClass::SimdLoad, 16, &line), 32);

    // ld1 {v0, v1, v2, v3}, [x0]
    let line = make_line(
        "ld1",
        &[V0, V1, V2, V3, X0],
        X0,
    );
    assert_eq!(mem_access_width(InsnClass::SimdLoad, 16, &line), 64);

    // ldr q0, [x0]
    let line = make_line("ldr", &[V0, X0], X0);
    assert_eq!(mem_access_width(InsnClass::SimdLoad, 16, &line), 16);

    // ldp x0, x1, [x2]
    let line = make_line("ldp", &[X0, RegId(1), RegId(2)], RegId(2));
    assert_eq!(mem_access_width(InsnClass::LoadPair, 8, &line), 16);

    // ldr x0, [x1]
    let line = make_line("ldr", &[X0, RegId(1)], RegId(1));
    assert_eq!(mem_access_width(InsnClass::LoadReg, 8, &line), 8);
}

#[test]
fn test_unknown_mnemonic_collected() {
    let trace =
        r#"[00:00:00 001][lib.so 0x100] [d2800000] 0x40000100: "xyzzy v0, v1, v2" => v0=0x0"#;
    let decoded = vec![Some(insn("xyzzy", InsnClass::Nop, &[], &[]))];
    let state = scan_from_string(trace, &decoded, true).unwrap();
    assert_eq!(state.unknown_mnemonics.len(), 1);
    let unknown = &state.unknown_mnemonics[0];
    assert_eq!(unknown.name, "xyzzy");
    assert_eq!(unknown.first_line, 0);
    assert_eq!(unknown.count, 1);
}

#[test]
fn test_known_nop_not_collected() {
    let trace = r#"[00:00:00 001][lib.so 0x100] [d5033f9f] 0x40000100: "dmb ish""#;
    let mut nop = insn("dmb", InsnClass::Nop, &[], &[]);
    nop.known_nop = true;
    let state = scan_from_string(trace, &vec![Some(nop)], true).unwrap();
    assert!(state.unknown_mnemonics.is_empty());
}

// =========================================================================
// Test: init_mem_loads - load from never-stored address is marked
// =========================================================================

#[test]
fn test_init_mem_load_marked() {
    let trace = r#"[00:00:00 001][lib.so 0x100] [f9400be0] 0x40000100: "ldr x0, [sp, #0x10]" ; mem[READ] abs=0xbffff010 sp=0xbffff000 => x0=0x2a"#;
    let decoded = vec![Some(load("x0", "sp", 0xbffff010, 0x2a))];
    let state = scan_from_string(trace, &decoded, true).unwrap();
    assert!(
        state.init_mem_loads.get(0).unwrap(),
        "load from never-stored address should be marked"
    );
}

// =========================================================================
// Test: init_mem_loads - load from previously-stored address is NOT marked
// =========================================================================

#[test]
fn test_stored_mem_load_not_marked() {
    let trace = [
        r#"[00:00:00 001][lib.so 0x100] [d2800548] 0x40000100: "mov x8, #42" => x8=0x2a"#,
        r#"[00:00:00 001][lib.so 0x104] [f9000be8] 0x40000104: "str x8, [sp, #0x10]" ; mem[WRITE] abs=0xbffff010 x8=0x2a sp=0xbffff000 => x8=0x2a"#,
        r#"[00:00:00 001][lib.so 0x108] [f9400be0] 0x40000108: "ldr x0, [sp, #0x10]" ; mem[READ] abs=0xbffff010 sp=0xbffff000 => x0=0x2a"#,
    ].join("\n");
    let decoded = vec![
        Some(insn("mov", InsnClass::Other, &[X8], &[])),
        Some(store("x8", "sp", 0xbffff010, 0x2a)),
        Some(load("x0", "sp", 0xbffff010, 0x2a)),
    ];
    let state = scan_from_string(&trace, &decoded, true).unwrap();
    assert!(
        !state.init_mem_loads.get(2).unwrap(),
        "load from previously-stored address should NOT be marked"
    );
}

fn scan(lines: &[Line], data_only: bool) -> trace_core::scanner::scan::ScanState {
    let (trace, decoded) = trace_of(lines);
    match scan_from_string(&trace, &decoded, data_only) {
        Ok(state) => state,
        Err(e) => panic!("{e:?}"),
    }
}

#[test]
fn a_load_of_the_stored_value_does_not_depend_on_its_address() {
    let lines = [mov_line("x9", 1), str_line("x8", "sp", 0x100), ldr_line("x0", "x9", 0x100)];
    let state = scan(&lines, true);
    assert_eq!(state.deps.row(2), &[1]);
    // Without pruning the address registers stay.
    let (trace, decoded) = trace_of(&lines);
    let kept = scan_pass1_bytes(trace.as_bytes(), &decoded, true, 0, None, &HashMap::new(), true);
    let kept = match kept {
        Ok(state) => state,
        Err(e) => panic!("{e:?}"),
    };
    assert!(kept.deps.row(2).contains(&0));
    assert!(kept.deps.row(2).contains(&1));
}

#[test]
fn a_load_of_another_value_depends_on_its_address() {
    let lines = [
        mov_line("x9", 1),
        str_line("x8", "sp", 0x100),
        ("ldr".to_string(), Some(load("x0", "x9", 0x100, 4))),
    ];
    let state = scan(&lines, true);
    assert!(state.deps.row(2).contains(&0));
    assert!(state.deps.row(2).contains(&1));
}

#[test]
fn pairs_are_split_by_half() {
    let mut ldp = insn("ldp", InsnClass::LoadPair, &[RegId(1), RegId(2)], &[SP]);
    ldp.line.base_reg = Some(SP);
    ldp.line.mem_op = Some(op(false, 0x100, 8, None));
    let lines = [
        str_line("x8", "sp", 0x100),
        str_line("x9", "sp", 0x108),
        mov_line("sp", 1),
        ("ldp".to_string(), Some(ldp)),
    ];
    let state = scan(&lines, true);
    let split = &state.pair_split[&3];
    assert_eq!(split.half1_deps.as_slice(), &[0]);
    assert_eq!(split.half2_deps.as_slice(), &[1]);
    assert_eq!(split.shared.as_slice(), &[2]);
    assert_eq!(state.reg_last_def.get(&RegId(1)).map(|l| l & 0x1fff_ffff), Some(3));
}

#[test]
fn counts_and_last_store() {
    let lines = [mov_line("x8", 1), str_line("x8", "sp", 0x100), other_line("x"), beq_line()];
    let state = scan(&lines, false);
    assert_eq!(state.line_count, 4);
    assert_eq!(state.parsed_count, 3);
    assert_eq!(state.mem_op_count, 1);
    assert_eq!(state.last_cond_branch, Some(3));
    assert_eq!(state.mem_last_def.get(&0x107), Some((1, 3)));
    assert_eq!(state.mem_last_def.get(&0x108), None);
}

#[test]
fn each_scan_error_says_where() {
    let lines = [mov_line("x8", 5)];
    let (trace, decoded) = trace_of(&lines);
    let error = |line: u32, target: LineTarget| {
        let mut targets = HashMap::new();
        targets.insert(line, vec![target]);
        scan_from_string_with_targets(&trace, &decoded, false, 0, None, &targets).err()
    };
    assert_eq!(error(0, LineTarget::Reg(X0)), Some(ScanError::NoRegDef { line: 0, reg: X0 }));
    assert_eq!(error(0, LineTarget::Mem(7)), Some(ScanError::NoStore { line: 0, addr: 7 }));
    assert_eq!(
        error(1, LineTarget::Mem(7)),
        Some(ScanError::TargetOutOfRange { line: 1, line_count: 1, target: LineTarget::Mem(7) })
    );
}

#[test]
fn lines_end_at_newlines_and_at_the_end() {
    assert_eq!(count_lines(b""), 0);
    assert_eq!(count_lines(b"a"), 1);
    assert_eq!(count_lines(b"a\n"), 1);
    assert_eq!(count_lines(b"a\n\nb"), 3);
    assert_eq!(line_spans(b"a\n\nbc"), vec![(0, 1), (2, 2), (3, 5)]);
    assert_eq!(line_spans(b"a\r\n").len(), 1);
}

#[test]
fn rows_are_kept_apart() {
    let mut d = CompactDeps::new();
    assert!(d.is_empty());
    d.start_row();
    d.push_unique(4);
    d.push_unique(4);
    d.start_row();
    d.push_unique(1);
    assert_eq!(d.row(0), &[4]);
    assert_eq!(d.row(1), &[1]);
    assert_eq!(d.row_len(0), 1);
    assert_eq!(d.total_deps(), 2);
    assert_eq!(d.num_rows(), 2);
    assert!(d.row_contains(1, &1));
    assert!(!d.row_is_empty(0));
    d.shrink_to_fit();
    assert_eq!(d.data_slice(), &[4, 1]);
    assert_eq!(d.offsets_slice(), &[0, 1]);
    let again = CompactDeps::from_raw(d.offsets_slice().to_vec(), d.data_slice().to_vec());
    assert_eq!(again.row(1), &[1]);
    let mut s = DepsStorage::single(again);
    s.start_row();
    s.push_unique(9);
    assert_eq!(s.row(2), &[9]);
    assert!(s.patch_row(2).is_empty());
    assert!(s.row_contains(2, &9));
    assert!(!s.row_is_empty(2));
}

#[test]
fn last_definitions_are_found_in_both_forms() {
    let mut m = MemLastDef::new();
    assert!(m.is_empty());
    m.insert(30, (1, 10));
    m.insert(10, (2, 20));
    m.insert(30, (3, 30));
    assert_eq!(m.len(), 2);
    assert_eq!(m.hashed().len(), 2);
    m.compact();
    assert_eq!(m.len(), 2);
    assert_eq!(m.get(&30), Some((3, 30)));
    assert_eq!(m.get(&10), Some((2, 20)));
    assert_eq!(m.get(&20), None);
    let mut r = RegLastDef::new();
    r.insert(X0, 4);
    let mut later = RegLastDef::default();
    later.insert(X8, 5);
    r.overlay(&later);
    assert_eq!((r.get(&X0), r.get(&X8), r.get(&X9)), (Some(&4), Some(&5), None));
    assert_eq!(r.inner()[8], 5);
    r.inner_mut()[9] = 6;
    assert_eq!(r.get(&X9), Some(&6));
}

#[test]
fn a_compacted_scan_says_the_same() {
    let lines = [str_line("x8", "sp", 0x100), ldr_line("x0", "sp", 0x100)];
    let mut state = scan(&lines, true);
    state.compact();
    assert_eq!(state.mem_last_def.get(&0x100), Some((0, 3)));
    assert_eq!(state.deps.row(1), &[0]);
}
