//! The scan over all lines of a trace.

use crate::foreign;
use crate::foreign::LineFlags;
use crate::scanner::deps::{CompactDeps, DepsStorage};
use crate::scanner::last_def::{MemLastDef, RegLastDef};
use crate::scanner::lines;
use crate::scanner::model;
use crate::scanner::model::{ScanError, ScanModel, ScanOptions};
use crate::scanner::pass1;
use crate::scanner::pass1::{PairSplitDeps, ResolvedTarget, UnknownMnemonic};
use crate::seqs;
use crate::types::{Insn, InsnClass, LineTarget};
use rustc_hash::FxHashMap;
use std::collections::HashMap;
use vstd::prelude::*;
use vstd::string::*;

verus! {

/// What a scan has found out.
pub struct ScanState {
    pub reg_last_def: RegLastDef,
    pub mem_last_def: MemLastDef,
    /// Latest conditional branch.
    pub last_cond_branch: Option<u32>,
    pub deps: DepsStorage,
    pub line_count: u32,
    /// Lines that hold an instruction.
    pub parsed_count: u32,
    /// Lines with a memory access.
    pub mem_op_count: u32,
    /// Requested targets with the lines that define them.
    pub resolved_targets: Vec<ResolvedTarget>,
    pub unknown_mnemonics: Vec<UnknownMnemonic>,
    /// Lines that read memory from before the trace.
    pub init_mem_loads: LineFlags,
    /// Dependencies of pair instructions, by line.
    pub pair_split: FxHashMap<u32, PairSplitDeps>,
}

/// Options of a scan.
pub struct Pass1Options<'a> {
    /// Leave out control dependencies.
    pub data_only: bool,
    /// First line that is looked at.
    pub start_seq: u32,
    /// Last line that is looked at.
    pub end_seq: Option<u32>,
    /// Targets to resolve, by line.
    pub line_targets: &'a HashMap<u32, Vec<LineTarget>>,
    /// Keep the address dependencies of loads that hand on a stored value.
    pub no_prune: bool,
}

impl<'a> View for Pass1Options<'a> {
    type V = ScanOptions;

    open spec fn view(&self) -> ScanOptions {
        ScanOptions {
            data_only: self.data_only,
            no_prune: self.no_prune,
            start_seq: self.start_seq,
            end_seq: self.end_seq,
            targets: self.line_targets@.map_values(|v: Vec<LineTarget>| v@),
        }
    }
}

pub open spec fn pair_views(m: Map<u32, PairSplitDeps>) -> Map<u32, model::PairView> {
    m.map_values(|p: PairSplitDeps| p@)
}

impl View for ScanState {
    type V = ScanModel;

    open spec fn view(&self) -> ScanModel {
        ScanModel {
            slots: self.reg_last_def.slots(),
            mem: self.mem_last_def@,
            last_cond: self.last_cond_branch,
            rows: self.deps.store()@,
            edges: self.deps.store().data@.len() as int,
            parsed: self.parsed_count as int,
            mem_ops: self.mem_op_count as int,
            resolved: pass1::resolved_map(self.resolved_targets@),
            unknown: pass1::unknown_map(self.unknown_mnemonics@),
            init: self.init_mem_loads@,
            pairs: pair_views(self.pair_split@),
        }
    }
}

impl ScanState {
    /// The state of a scan in progress.
    pub open spec fn scanning(self) -> bool {
        &&& self.deps is Single
        &&& self.deps.wf()
        &&& self.mem_last_def is Hashed
        &&& self.line_count == self.deps.store()@.len()
        &&& self.parsed_count <= self.line_count
        &&& self.mem_op_count <= self.line_count
        &&& pass1::names_unique(self.unknown_mnemonics@)
        &&& pass1::counts_at_most(self.unknown_mnemonics@, self.line_count as int)
        &&& self.line_count <= self.init_mem_loads@.len()
    }

    /// The state before the first of `total` lines.
    fn start(total: usize) -> (state: ScanState)
        requires
            total <= usize::MAX / 8,
        ensures
            state.scanning(),
            state@ == model::scan_start(total as nat),
            state.line_count == 0,
    {
        let state = ScanState {
            reg_last_def: RegLastDef::new(),
            mem_last_def: MemLastDef::new(),
            last_cond_branch: None,
            deps: DepsStorage::single(CompactDeps::with_capacity(total, total * 2)),
            line_count: 0,
            parsed_count: 0,
            mem_op_count: 0,
            resolved_targets: Vec::new(),
            unknown_mnemonics: Vec::new(),
            init_mem_loads: LineFlags::repeat(false, total),
            pair_split: FxHashMap::default(),
        };
        proof {
            let want = model::scan_start(total as nat);
            assert(state@.pairs =~= want.pairs);
            assert(state@.init =~= want.init);
            assert(state@.rows =~= want.rows);
        }
        state
    }

    /// Drops what only the scan needs and packs the memory table.
    pub fn compact(&mut self)
        requires
            old(self).mem_last_def.wf(),
        ensures
            final(self).mem_last_def is Sorted,
            final(self).mem_last_def.wf(),
            final(self).mem_last_def@ == old(self).mem_last_def@,
            final(self).last_cond_branch is None,
            final(self).resolved_targets@.len() == 0,
            final(self).unknown_mnemonics@.len() == 0,
            final(self).reg_last_def == old(self).reg_last_def,
            final(self).deps == old(self).deps,
            final(self).line_count == old(self).line_count,
            final(self).parsed_count == old(self).parsed_count,
            final(self).mem_op_count == old(self).mem_op_count,
            final(self).init_mem_loads == old(self).init_mem_loads,
            final(self).pair_split == old(self).pair_split,
    {
        self.mem_last_def.compact();
        self.last_cond_branch = None;
        self.resolved_targets = Vec::new();
        self.unknown_mnemonics = Vec::new();
    }
}

proof fn lemma_target_error_stays(
    m: ScanModel,
    insn: Insn,
    line: u32,
    targets: Seq<LineTarget>,
    n: int,
)
    requires
        0 <= n <= targets.len(),
        model::resolve_targets(m, insn, line, targets.take(n)) is Err,
    ensures
        model::resolve_targets(m, insn, line, targets) == model::resolve_targets(
            m,
            insn,
            line,
            targets.take(n),
        ),
    decreases targets.len() - n,
{
    if n == targets.len() {
        assert(targets.take(n) =~= targets);
    } else {
        assert(targets.take(n + 1).drop_last() =~= targets.take(n));
        lemma_target_error_stays(m, insn, line, targets, n + 1);
    }
}

fn contains_reg(regs: &Vec<crate::types::RegId>, reg: crate::types::RegId) -> (b: bool)
    ensures
        b == regs@.contains(reg),
{
    let mut i: usize = 0;
    while i < regs.len()
        invariant
            i <= regs@.len(),
            forall|k: int| 0 <= k < i ==> regs@[k] != reg,
        decreases regs@.len() - i,
    {
        if regs[i] == reg {
            assert(regs@[i as int] == reg);
            return true;
        }
        i += 1;
    }
    false
}

/// The line that a target of this line stands for.
fn resolve_target(state: &ScanState, insn: &Insn, line: u32, target: LineTarget) -> (r: Option<u32>)
    requires
        state.mem_last_def.wf(),
        model::insn_ok(*insn),
        model::target_ok(target),
    ensures
        r == model::target_line(state@, *insn, line, target),
{
    match target {
        LineTarget::Reg(reg) => {
            if contains_reg(&insn.defs, reg) {
                Some(line)
            } else {
                match state.reg_last_def.get(&reg) {
                    Some(prev) => Some(*prev),
                    None => None,
                }
            }
        },
        LineTarget::Mem(addr) => {
            let hit: bool = match &insn.line.mem_op {
                Some(op) => {
                    let width: u8 = pass1::mem_access_width(insn.class, op.elem_width, &insn.line);
                    op.is_write && op.abs <= addr && addr - op.abs < width as u64
                },
                None => false,
            };
            if hit {
                Some(line)
            } else {
                match state.mem_last_def.get(&addr) {
                    Some(entry) => Some(entry.0),
                    None => None,
                }
            }
        },
    }
}

/// Enters the targets of a line.
fn resolve_line_targets(state: &mut ScanState, insn: &Insn, line: u32, targets: &Vec<LineTarget>) -> (r:
    Result<(), ScanError>)
    requires
        old(state).scanning(),
        model::insn_ok(*insn),
        forall|i: int| #![trigger targets@[i]] 0 <= i < targets@.len() ==> model::target_ok(targets@[i]),
    ensures
        match model::resolve_targets(old(state)@, *insn, line, targets@) {
            Ok(resolved) => r is Ok && final(state)@ == (ScanModel { resolved, ..old(state)@ }),
            Err(e) => r == Err::<(), ScanError>(e),
        },
        r is Ok ==> final(state).scanning() && final(state).line_count == old(state).line_count,
{
    let ghost m = state@;
    let mut i: usize = 0;
    assert(targets@.take(0) =~= Seq::empty());
    while i < targets.len()
        invariant
            i <= targets@.len(),
            model::insn_ok(*insn),
            forall|i: int|
                #![trigger targets@[i]]
                0 <= i < targets@.len() ==> model::target_ok(targets@[i]),
            state.scanning(),
            m == old(state)@,
            state.line_count == old(state).line_count,
            model::resolve_targets(m, *insn, line, targets@.take(i as int)) == Ok::<
                Map<(u32, LineTarget), u32>,
                ScanError,
            >(state@.resolved),
            state@ == (ScanModel { resolved: state@.resolved, ..m }),
        decreases targets@.len() - i,
    {
        let target: LineTarget = targets[i];
        assert(targets@.take(i + 1).drop_last() =~= targets@.take(i as int));
        let found = resolve_target(state, insn, line, target);
        assert(found == model::target_line(m, *insn, line, target));
        match found {
            Some(at) => {
                let ghost before = state.resolved_targets@;
                state.resolved_targets.push((line, target, at));
                assert(state.resolved_targets@.drop_last() =~= before);
            },
            None => {
                proof {
                    lemma_target_error_stays(m, *insn, line, targets@, i + 1);
                }
                return Err(
                    match target {
                        LineTarget::Reg(reg) => ScanError::NoRegDef { line, reg },
                        LineTarget::Mem(addr) => ScanError::NoStore { line, addr },
                    },
                );
            },
        }
        i += 1;
    }
    assert(targets@.take(targets@.len() as int) =~= targets@);
    Ok(())
}

/// Fills the row of an instruction.
fn build_row(state: &mut ScanState, insn: &Insn, options: &Pass1Options<'_>)
    requires
        old(state).scanning(),
        old(state).deps.store().data@.len() <= u32::MAX,
        model::insn_ok(*insn),
    ensures
        final(state).deps is Single,
        final(state).deps.wf(),
        final(state).deps.store()@ == old(state).deps.store()@.push(
            model::line_row(old(state)@, *insn, options@),
        ),
        final(state).deps.store().data@.len() == old(state).deps.store().data@.len()
            + model::line_row(old(state)@, *insn, options@).len(),
        *final(state) == (ScanState { deps: final(state).deps, ..*old(state) }),
{
    let ghost m = state@;
    let ghost rows = state.deps.store()@;
    state.deps.start_row();
    let pair: bool = match insn.class {
        InsnClass::LoadPair | InsnClass::StorePair => true,
        _ => false,
    };
    if pair {
        assert(model::line_row(m, *insn, options@) =~= Seq::empty());
        return ;
    }
    let load: Option<(u64, u64, Option<u64>)> = match &insn.line.mem_op {
        Some(op) => {
            if op.is_write {
                None
            } else {
                let width: u8 = pass1::mem_access_width(insn.class, op.elem_width, &insn.line);
                Some((op.abs, width as u64, op.value))
            }
        },
        None => None,
    };
    let hands_on: bool = match load {
        Some((abs, width, value)) => {
            if options.no_prune {
                false
            } else {
                pass1::load_facts(state.mem_last_def.hashed(), abs, width, value).1
            }
        },
        None => false,
    };
    assert(hands_on == model::insn_pass_through(m, *insn, options@));
    let ghost a = model::load_sources(m, *insn);
    let ghost b = if hands_on {
        Seq::empty()
    } else {
        model::reg_defs(m.slots, insn.uses@)
    };
    let ghost c = model::control_def(m.last_cond, options.data_only);
    let ghost none = Seq::<u32>::empty();
    if options.no_prune {
        pass1::row_add_regs(
            &mut state.deps,
            &state.reg_last_def,
            &insn.uses,
            Ghost(rows),
            Ghost(none),
        );
        let ghost row = seqs::extend_unique(none, b);
        if let Some((abs, width, _)) = load {
            pass1::row_add_bytes(
                &mut state.deps,
                &state.mem_last_def,
                abs,
                width,
                Ghost(rows),
                Ghost(row),
            );
        }
        pass1::row_add_control(
            &mut state.deps,
            state.last_cond_branch,
            options.data_only,
            Ghost(rows),
            Ghost(seqs::extend_unique(row, a)),
        );
        proof {
            seqs::lemma_extend_thrice(b, a, c);
        }
    } else {
        if let Some((abs, width, _)) = load {
            pass1::row_add_bytes(
                &mut state.deps,
                &state.mem_last_def,
                abs,
                width,
                Ghost(rows),
                Ghost(none),
            );
        }
        let ghost row = seqs::extend_unique(none, a);
        if !hands_on {
            pass1::row_add_regs(
                &mut state.deps,
                &state.reg_last_def,
                &insn.uses,
                Ghost(rows),
                Ghost(row),
            );
        }
        pass1::row_add_control(
            &mut state.deps,
            state.last_cond_branch,
            options.data_only,
            Ghost(rows),
            Ghost(seqs::extend_unique(row, b)),
        );
        proof {
            seqs::lemma_extend_thrice(a, b, c);
        }
    }
}

/// Marks a line that reads memory from before the trace.
fn mark_initial(state: &mut ScanState, insn: &Insn, line: u32)
    requires
        old(state).mem_last_def is Hashed,
        model::insn_ok(*insn),
        line < old(state).init_mem_loads@.len(),
    ensures
        *final(state) == (ScanState { init_mem_loads: final(state).init_mem_loads, ..*old(state) }),
        final(state).init_mem_loads@ == (if model::reads_initial(old(state)@, *insn) {
            old(state).init_mem_loads@.update(line as int, true)
        } else {
            old(state).init_mem_loads@
        }),
{
    if let Some(op) = &insn.line.mem_op {
        if !op.is_write {
            let width: u8 = pass1::mem_access_width(insn.class, op.elem_width, &insn.line);
            let facts = pass1::load_facts(state.mem_last_def.hashed(), op.abs, width as u64, op.value);
            if !facts.0 {
                state.init_mem_loads.set(line as usize, true);
            }
        }
    }
}

/// One instruction line.
#[verifier::rlimit(40)]
fn scan_insn(state: &mut ScanState, insn: &Insn, options: &Pass1Options<'_>) -> (r: Result<
    (),
    ScanError,
>)
    requires
        old(state).scanning(),
        old(state).deps.store().data@.len() <= u32::MAX,
        old(state).line_count < u32::MAX,
        old(state).line_count < old(state).init_mem_loads@.len(),
        model::in_range(options@, old(state).line_count),
        model::insn_ok(*insn),
        model::options_ok(options@),
    ensures
        match model::scan_step(old(state)@, Some(*insn), options@) {
            Ok(next) => r is Ok && final(state)@ == next,
            Err(e) => r == Err::<(), ScanError>(e),
        },
        r is Ok ==> final(state).scanning() && final(state).line_count == old(state).line_count + 1
            && final(state).init_mem_loads@.len() == old(state).init_mem_loads@.len(),
{
    let line: u32 = state.line_count;
    match options.line_targets.get(&line) {
        Some(targets) => {
            assert(options@.targets[line] == targets@);
            assert forall|i: int| #![trigger targets@[i]] 0 <= i < targets@.len() implies model::target_ok(
                targets@[i],
            ) by {
                assert(model::target_ok(options@.targets[line][i]));
            }
            resolve_line_targets(state, insn, line, targets)?;
        },
        None => {
            assert(model::line_targets(options@, line) =~= Seq::empty());
        },
    }
    let ghost m1 = state@;
    build_row(state, insn, options);
    mark_initial(state, insn, line);
    let ghost pairs_before = state.pair_split@;
    let pair: bool = match insn.class {
        InsnClass::LoadPair | InsnClass::StorePair => true,
        _ => false,
    };
    if pair {
        if let Some(op) = &insn.line.mem_op {
            let split = pass1::split_pair(
                insn,
                op,
                &state.reg_last_def,
                state.mem_last_def.hashed(),
                state.last_cond_branch,
                options.data_only,
                Ghost(m1),
                Ghost(options@),
            );
            foreign::fx_insert(&mut state.pair_split, line, split);
            assert(pair_views(state.pair_split@) =~= pair_views(pairs_before).insert(line, split@));
        }
    }
    pass1::note_unknown(&mut state.unknown_mnemonics, insn, line);
    pass1::update_regs(&mut state.reg_last_def, insn, line);
    pass1::update_mem(&mut state.mem_last_def, insn, line);
    match insn.class {
        InsnClass::CondBranchNzcv | InsnClass::CondBranchReg => {
            state.last_cond_branch = Some(line);
        },
        _ => {},
    }
    if insn.line.mem_op.is_some() {
        state.mem_op_count += 1;
    }
    state.parsed_count += 1;
    state.line_count += 1;
    Ok(())
}

/// One line: an instruction, or a line that holds none.
fn scan_line(state: &mut ScanState, line: &Option<Insn>, options: &Pass1Options<'_>) -> (r: Result<
    (),
    ScanError,
>)
    requires
        old(state).scanning(),
        old(state).line_count < u32::MAX,
        old(state).line_count < old(state).init_mem_loads@.len(),
        *line matches Some(insn) ==> model::insn_ok(insn),
        model::options_ok(options@),
    ensures
        match model::scan_step(old(state)@, *line, options@) {
            Ok(next) => r is Ok && final(state)@ == next,
            Err(e) => r == Err::<(), ScanError>(e),
        },
        r is Ok ==> final(state).scanning() && final(state).line_count == old(state).line_count + 1
            && final(state).init_mem_loads@.len() == old(state).init_mem_loads@.len(),
{
    let i: u32 = state.line_count;
    if state.deps.total_deps() > 0xFFFF_FFFF {
        return Err(ScanError::TooManyEdges { line: i });
    }
    let past_end: bool = match options.end_seq {
        Some(end) => i > end,
        None => false,
    };
    if i >= options.start_seq && !past_end {
        if let Some(insn) = line {
            return scan_insn(state, insn, options);
        }
    }
    state.deps.start_row();
    state.line_count += 1;
    Ok(())
}

/// A target was asked for at a line that the trace does not have.
pub open spec fn beyond_end(opts: ScanOptions, line: u32, line_count: int) -> bool {
    opts.targets.contains_key(line) && opts.targets[line].len() > 0 && line >= line_count
}

/// Reports a target beyond the end of the trace, if there is one; which one of
/// several depends on the order of the hash map.
fn check_targets(options: &Pass1Options<'_>, line_count: u32) -> (r: Result<(), ScanError>)
    ensures
        match r {
            Ok(_) => forall|line: u32| !#[trigger] beyond_end(options@, line, line_count as int),
            Err(e) => exists|line: u32| #[trigger]
                beyond_end(options@, line, line_count as int) && e == (
                ScanError::TargetOutOfRange {
                    line,
                    line_count,
                    target: options@.targets[line][0],
                }),
        },
{
    let targets = options.line_targets;
    for entry in iter: targets.iter()
        invariant
            targets == options.line_targets,
            forall|i: int|
                #![trigger iter.seq()[i]]
                0 <= i < iter.index() ==> !beyond_end(
                    options@,
                    *iter.seq()[i].0,
                    line_count as int,
                ),
    {
        let line: u32 = *entry.0;
        let list = entry.1;
        assert(targets@.contains_key(*iter.seq()[iter.index() as int].0));
        assert(targets@[line] == *list);
        assert(options@.targets[line] == list@);
        if line >= line_count && list.len() > 0 {
            let target: LineTarget = list[0];
            assert(beyond_end(options@, line, line_count as int));
            return Err(ScanError::TargetOutOfRange { line, line_count, target });
        }
    }
    Ok(())
}

/// Lines that a scan accepts: instructions name existing registers, accesses
/// end within memory, and lines are counted in 32 bits.
pub open spec fn lines_ok(decoded: Seq<Option<Insn>>) -> bool {
    &&& decoded.len() <= u32::MAX
    &&& decoded.len() <= usize::MAX / 8
    &&& forall|i: int|
        #![trigger decoded[i]]
        0 <= i < decoded.len() ==> (decoded[i] matches Some(insn) ==> model::insn_ok(insn))
}

/// What a scan of decoded lines returns.
pub open spec fn scan_outcome(
    decoded: Seq<Option<Insn>>,
    opts: ScanOptions,
    r: Result<ScanState, ScanError>,
) -> bool {
    let count = decoded.len() as u32;
    match model::scan_lines(decoded, opts, decoded.len() as int) {
        Err(e) => r == Err::<ScanState, ScanError>(e),
        Ok(m) => match r {
            Ok(state) => {
                &&& state.scanning()
                &&& state@ == m
                &&& state.line_count == decoded.len()
                &&& forall|line: u32| !#[trigger] beyond_end(opts, line, decoded.len() as int)
            },
            Err(e) => exists|line: u32| #[trigger]
                beyond_end(opts, line, decoded.len() as int) && e == (ScanError::TargetOutOfRange {
                    line,
                    line_count: count,
                    target: opts.targets[line][0],
                }),
        },
    }
}

proof fn lemma_scan_error_stays(decoded: Seq<Option<Insn>>, opts: ScanOptions, n: int, total: int)
    requires
        0 <= n <= total,
        model::scan_lines(decoded, opts, n) is Err,
    ensures
        model::scan_lines(decoded, opts, total) == model::scan_lines(decoded, opts, n),
    decreases total - n,
{
    if n < total {
        lemma_scan_error_stays(decoded, opts, n, total - 1);
    }
}

/// Scans a trace.
///
/// `decoded` holds what each line of `data` says: an instruction, or nothing
/// where the line holds none. For each line the scan records which earlier
/// lines it depends on, then updates what it knows of registers, memory and
/// branches. Lines outside `start_seq..=end_seq` get an empty row.
pub fn scan_pass1_bytes_with_progress(
    data: &[u8],
    decoded: &Vec<Option<Insn>>,
    options: Pass1Options<'_>,
) -> (r: Result<ScanState, ScanError>)
    requires
        decoded@.len() == lines::line_total(data@),
        lines_ok(decoded@),
        model::options_ok(options@),
    ensures
        scan_outcome(decoded@, options@, r),
{
    let total: usize = lines::count_lines(data);
    let mut state = ScanState::start(total);
    let mut i: usize = 0;
    while i < total
        invariant
            i <= total,
            total == decoded@.len(),
            lines_ok(decoded@),
            model::options_ok(options@),
            state.scanning(),
            state.line_count == i,
            state.init_mem_loads@.len() == total,
            model::scan_lines(decoded@, options@, i as int) == Ok::<ScanModel, ScanError>(state@),
        decreases total - i,
    {
        assert(decoded@[i as int] matches Some(insn) ==> model::insn_ok(insn));
        match scan_line(&mut state, &decoded[i], &options) {
            Ok(_) => {},
            Err(e) => {
                proof {
                    lemma_scan_error_stays(decoded@, options@, i + 1, total as int);
                }
                return Err(e);
            },
        }
        i += 1;
    }
    match check_targets(&options, state.line_count) {
        Ok(_) => Ok(state),
        Err(e) => Err(e),
    }
}

/// [`scan_pass1_bytes_with_progress`] with its options one by one.
pub fn scan_pass1_bytes(
    data: &[u8],
    decoded: &Vec<Option<Insn>>,
    data_only: bool,
    start_seq: u32,
    end_seq: Option<u32>,
    line_targets: &HashMap<u32, Vec<LineTarget>>,
    no_prune: bool,
) -> (r: Result<ScanState, ScanError>)
    requires
        decoded@.len() == lines::line_total(data@),
        lines_ok(decoded@),
        model::options_ok(
            (Pass1Options { data_only, start_seq, end_seq, line_targets, no_prune })@,
        ),
    ensures
        scan_outcome(
            decoded@,
            (Pass1Options { data_only, start_seq, end_seq, line_targets, no_prune })@,
            r,
        ),
{
    scan_pass1_bytes_with_progress(
        data,
        decoded,
        Pass1Options { data_only, start_seq, end_seq, line_targets, no_prune },
    )
}

/// Options of a scan without targets.
pub open spec fn plain_options(data_only: bool, start_seq: u32, end_seq: Option<u32>) -> ScanOptions {
    ScanOptions { data_only, no_prune: false, start_seq, end_seq, targets: Map::empty() }
}

/// Scans a trace given as a string.
pub fn scan_from_string(trace: &str, decoded: &Vec<Option<Insn>>, data_only: bool) -> (r: Result<
    ScanState,
    ScanError,
>)
    requires
        decoded@.len() == lines::line_total(trace.spec_bytes()),
        lines_ok(decoded@),
    ensures
        scan_outcome(decoded@, plain_options(data_only, 0, None), r),
{
    scan_from_string_with_range(trace, decoded, data_only, 0, None)
}

/// Scans the lines `start_seq..=end_seq` of a trace given as a string.
pub fn scan_from_string_with_range(
    trace: &str,
    decoded: &Vec<Option<Insn>>,
    data_only: bool,
    start_seq: u32,
    end_seq: Option<u32>,
) -> (r: Result<ScanState, ScanError>)
    requires
        decoded@.len() == lines::line_total(trace.spec_bytes()),
        lines_ok(decoded@),
    ensures
        scan_outcome(decoded@, plain_options(data_only, start_seq, end_seq), r),
{
    let none: HashMap<u32, Vec<LineTarget>> = HashMap::new();
    let ghost opts = (Pass1Options {
        data_only,
        start_seq,
        end_seq,
        line_targets: &none,
        no_prune: false,
    })@;
    assert(opts.targets =~= Map::empty());
    scan_from_string_with_targets(trace, decoded, data_only, start_seq, end_seq, &none)
}

/// Scans a trace given as a string and resolves targets.
pub fn scan_from_string_with_targets(
    trace: &str,
    decoded: &Vec<Option<Insn>>,
    data_only: bool,
    start_seq: u32,
    end_seq: Option<u32>,
    line_targets: &HashMap<u32, Vec<LineTarget>>,
) -> (r: Result<ScanState, ScanError>)
    requires
        decoded@.len() == lines::line_total(trace.spec_bytes()),
        lines_ok(decoded@),
        model::options_ok(
            (Pass1Options { data_only, start_seq, end_seq, line_targets, no_prune: false })@,
        ),
    ensures
        scan_outcome(
            decoded@,
            (Pass1Options { data_only, start_seq, end_seq, line_targets, no_prune: false })@,
            r,
        ),
{
    scan_pass1_bytes(
        trace.as_bytes(),
        decoded,
        data_only,
        start_seq,
        end_seq,
        line_targets,
        false,
    )
}

} // verus!
