//! Dependency requests and the chains of definitions and uses of a register.

use crate::engine::session::{get_line, line_at, LineFact, TraceEngine, TraceSession};
use crate::error::{invalid, is_invalid, is_unknown_session, TraceError};
use crate::text::{decimal_text, push_decimal, push_text};
use crate::types::{RegId, TraceFormat};
use vstd::prelude::*;
use vstd::string::*;

verus! {

/// How far a chain is followed in either direction.
pub const MAX_SCAN_RANGE: u32 = 50000;

/// Most nodes of a dependency graph unless the request says otherwise.
pub const DEFAULT_MAX_NODES: u32 = 10000;

#[derive(Debug, Clone, Copy, PartialEq, Eq, Structural)]
pub struct DepTreeOptions {
    /// Leave control dependencies out.
    pub data_only: bool,
    pub max_nodes: Option<u32>,
}

/// The graph to build: from where, of what, and how large at most.
#[derive(Debug, Clone, PartialEq, Eq)]
pub struct DepTreeRequest {
    pub spec: String,
    pub data_only: bool,
    pub max_nodes: u32,
}

pub open spec fn node_limit(options: DepTreeOptions) -> u32 {
    match options.max_nodes {
        Some(n) => n,
        None => DEFAULT_MAX_NODES,
    }
}

pub open spec fn begins_with(s: Seq<char>, head: Seq<char>) -> bool {
    head.len() <= s.len() && s.take(head.len() as int) == head
}

/// The target at a line, counted from 1: memory as it is named, anything else a
/// register.
pub open spec fn start_text(target: Seq<char>, seq: u32) -> Seq<char> {
    let line = "@"@ + decimal_text((seq + 1) as u64);
    if begins_with(target, "mem:"@) {
        target + line
    } else if begins_with(target, "reg:"@) {
        "reg:"@ + target.skip(4) + line
    } else {
        "reg:"@ + target + line
    }
}

fn starts_with(s: &str, head: &str) -> (b: bool)
    ensures
        b == begins_with(s@, head@),
{
    let n: usize = head.unicode_len();
    if s.unicode_len() < n {
        return false;
    }
    let front = s.substring_char(0, n).to_owned();
    let wanted = head.to_owned();
    assert(s@.subrange(0, n as int) =~= s@.take(n as int));
    front == wanted
}

fn start_spec(target: &str, seq: u32) -> (s: String)
    requires
        seq < u32::MAX,
    ensures
        s@ == start_text(target@, seq),
{
    proof {
        reveal_strlit("reg:");
    }
    let mut s = if starts_with(target, "mem:") {
        target.to_owned()
    } else {
        let mut s = "reg:".to_owned();
        if starts_with(target, "reg:") {
            let name = target.substring_char(4, target.unicode_len());
            assert(name@ =~= target@.skip(4));
            push_text(&mut s, name);
        } else {
            push_text(&mut s, target);
        }
        s
    };
    let ghost head = s@;
    push_text(&mut s, "@");
    push_decimal(&mut s, seq as u64 + 1);
    assert(s@ =~= head + ("@"@ + decimal_text((seq + 1) as u64)));
    assert(begins_with(target@, "reg:"@) && !begins_with(target@, "mem:"@) ==> s@
        =~= start_text(target@, seq));
    s
}

pub open spec fn no_slice_text() -> Seq<char> {
    "No active taint analysis result, please run taint tracking first"@
}

pub open spec fn no_specs_text() -> Seq<char> {
    "No from_specs in SliceOrigin"@
}

/// What a graph is built from has been built itself.
pub open spec fn graph_ready(s: TraceSession) -> bool {
    s.lines is Some && s.scan_state is Some
}

impl TraceEngine {
    /// The dependency graph of a register or memory location at a line.
    pub fn build_dep_tree(
        &self,
        session_id: &str,
        seq: u32,
        target: &str,
        options: DepTreeOptions,
    ) -> (r: Result<DepTreeRequest, TraceError>)
        requires
            seq < u32::MAX,
        ensures
            match self.session(session_id@) {
                None => r matches Err(e) && is_unknown_session(e, session_id@),
                Some(s) => if graph_ready(s) {
                    r matches Ok(d) && d.spec@ == start_text(target@, seq) && d.data_only
                        == options.data_only && d.max_nodes == node_limit(options)
                } else {
                    r matches Err(TraceError::IndexNotReady)
                },
            },
    {
        let state = match self.get_handle(session_id) {
            Ok(state) => state,
            Err(e) => {
                return Err(e);
            },
        };
        if state.lines.is_none() || state.scan_state.is_none() {
            return Err(TraceError::IndexNotReady);
        }
        let max_nodes: u32 = match options.max_nodes {
            Some(n) => n,
            None => DEFAULT_MAX_NODES,
        };
        Ok(
            DepTreeRequest {
                spec: start_spec(target, seq),
                data_only: options.data_only,
                max_nodes,
            },
        )
    }

    /// The dependency graph of what the last taint analysis started from.
    pub fn build_dep_tree_from_slice(&self, session_id: &str, options: DepTreeOptions) -> (r: Result<
        DepTreeRequest,
        TraceError,
    >)
        ensures
            match self.session(session_id@) {
                None => r matches Err(e) && is_unknown_session(e, session_id@),
                Some(s) => match s.slice_origin {
                    None => r matches Err(e) && is_invalid(e, no_slice_text()),
                    Some(origin) => if origin.from_specs@.len() == 0 {
                        r matches Err(e) && is_invalid(e, no_specs_text())
                    } else if graph_ready(s) {
                        r matches Ok(d) && d.spec@ == origin.from_specs@[0]@ && d.data_only == (
                        options.data_only || origin.data_only) && d.max_nodes == node_limit(
                            options,
                        )
                    } else {
                        r matches Err(TraceError::IndexNotReady)
                    },
                },
            },
    {
        let state = match self.get_handle(session_id) {
            Ok(state) => state,
            Err(e) => {
                return Err(e);
            },
        };
        let origin = match &state.slice_origin {
            Some(origin) => origin,
            None => {
                return Err(
                    invalid("No active taint analysis result, please run taint tracking first"),
                );
            },
        };
        if origin.from_specs.len() == 0 {
            return Err(invalid("No from_specs in SliceOrigin"));
        }
        if state.lines.is_none() || state.scan_state.is_none() {
            return Err(TraceError::IndexNotReady);
        }
        let max_nodes: u32 = match options.max_nodes {
            Some(n) => n,
            None => DEFAULT_MAX_NODES,
        };
        Ok(
            DepTreeRequest {
                spec: origin.from_specs[0].clone(),
                data_only: options.data_only || origin.data_only,
                max_nodes,
            },
        )
    }
}

// ---------------------------------------------------------------------------
// Chains
// ---------------------------------------------------------------------------

/// The definition that reaches a line, the uses that a definition at it
/// reaches, and the next definition.
#[derive(Debug, Clone, PartialEq, Eq)]
pub struct DefUseChain {
    pub def_seq: Option<u32>,
    pub use_seqs: Vec<u32>,
    pub redefined_seq: Option<u32>,
}

/// The line writes the register. A line that reports the result of a call
/// writes the first one.
pub open spec fn defines(
    lines: Option<Vec<LineFact>>,
    format: TraceFormat,
    reg: RegId,
    seq: int,
) -> bool {
    line_at(lines, seq as u32) matches Some(fact) && match fact.effects {
        Some(e) => e.defs@.contains(reg),
        None => format is Gumtrace && reg == RegId(0) && fact.reports_return,
    }
}

/// The instruction at the line reads the register.
pub open spec fn reads(lines: Option<Vec<LineFact>>, reg: RegId, seq: int) -> bool {
    line_at(lines, seq as u32) matches Some(fact) && fact.effects matches Some(e)
        && e.uses@.contains(reg)
}

/// The instruction at the line writes the register.
pub open spec fn writes(lines: Option<Vec<LineFact>>, reg: RegId, seq: int) -> bool {
    line_at(lines, seq as u32) matches Some(fact) && fact.effects matches Some(e)
        && e.defs@.contains(reg)
}

/// The last definition in `low..high`.
pub open spec fn last_definition(
    lines: Option<Vec<LineFact>>,
    format: TraceFormat,
    reg: RegId,
    low: int,
    high: int,
) -> Option<u32>
    decreases high - low,
{
    if high <= low {
        None
    } else if defines(lines, format, reg, high - 1) {
        Some((high - 1) as u32)
    } else {
        last_definition(lines, format, reg, low, high - 1)
    }
}

/// The first definition in `low..high`.
pub open spec fn next_definition(
    lines: Option<Vec<LineFact>>,
    format: TraceFormat,
    reg: RegId,
    low: int,
    high: int,
) -> Option<u32>
    decreases high - low,
{
    if high <= low {
        None
    } else if defines(lines, format, reg, low) {
        Some(low as u32)
    } else {
        next_definition(lines, format, reg, low + 1, high)
    }
}

/// The lines in `low..high` that read the register.
pub open spec fn reads_in(lines: Option<Vec<LineFact>>, reg: RegId, low: int, high: int) -> Seq<u32>
    decreases high - low,
{
    if high <= low {
        Seq::empty()
    } else {
        let earlier = reads_in(lines, reg, low, high - 1);
        if reads(lines, reg, high - 1) {
            earlier.push((high - 1) as u32)
        } else {
            earlier
        }
    }
}

pub open spec fn scan_low(seq: u32) -> int {
    if seq >= MAX_SCAN_RANGE {
        seq - MAX_SCAN_RANGE
    } else {
        0
    }
}

pub open spec fn scan_high(seq: u32, total: u32) -> int {
    if seq + MAX_SCAN_RANGE < total {
        seq + MAX_SCAN_RANGE
    } else {
        total as int
    }
}

/// The chain of a register at a line.
pub open spec fn is_chain(c: DefUseChain, s: TraceSession, seq: u32, reg: RegId) -> bool {
    let next = next_definition(s.lines, s.format, reg, seq + 1, scan_high(seq, s.total_lines));
    &&& c.def_seq == (if reads(s.lines, reg, seq as int) {
        last_definition(s.lines, s.format, reg, scan_low(seq), seq as int)
    } else {
        None
    })
    &&& c.redefined_seq == (if writes(s.lines, reg, seq as int) {
        next
    } else {
        None
    })
    &&& c.use_seqs@ == (if writes(s.lines, reg, seq as int) {
        reads_in(
            s.lines,
            reg,
            seq + 1,
            match next {
                Some(d) => d + 1,
                None => scan_high(seq, s.total_lines),
            },
        )
    } else {
        Seq::empty()
    })
}

fn holds_reg(regs: &Vec<RegId>, reg: RegId) -> (b: bool)
    ensures
        b == regs@.contains(reg),
{
    let mut i: usize = 0;
    while i < regs.len()
        invariant
            i <= regs@.len(),
            forall|j: int| #![trigger regs@[j]] 0 <= j < i ==> regs@[j] != reg,
        decreases regs@.len() - i,
    {
        if regs[i] == reg {
            assert(regs@[i as int] == reg);
            return true;
        }
        i += 1;
    }
    false
}

fn is_def(lines: &Option<Vec<LineFact>>, format: TraceFormat, reg: RegId, seq: u32) -> (b: bool)
    ensures
        b == defines(*lines, format, reg, seq as int),
{
    match get_line(lines, seq) {
        Some(fact) => match &fact.effects {
            Some(e) => holds_reg(&e.defs, reg),
            None => match format {
                TraceFormat::Gumtrace => reg == RegId(0) && fact.reports_return,
                TraceFormat::Unidbg => false,
            },
        },
        None => false,
    }
}

/// Whether the instruction at a line writes and reads the register.
fn effects_at(lines: &Option<Vec<LineFact>>, reg: RegId, seq: u32) -> (r: (bool, bool))
    ensures
        r.0 == writes(*lines, reg, seq as int),
        r.1 == reads(*lines, reg, seq as int),
{
    match get_line(lines, seq) {
        Some(fact) => match &fact.effects {
            Some(e) => (
                holds_reg(&e.defs, reg),
                holds_reg(&e.uses, reg),
            ),
            None => (false, false),
        },
        None => (false, false),
    }
}

/// The chain of a register at a line.
fn follow(s: &TraceSession, seq: u32, reg: RegId) -> (c: DefUseChain)
    ensures
        is_chain(c, *s, seq, reg),
{
    let (anchor_def, anchor_use) = effects_at(&s.lines, reg, seq);
    let low: u32 = if seq >= MAX_SCAN_RANGE {
        seq - MAX_SCAN_RANGE
    } else {
        0
    };
    let mut def_seq: Option<u32> = None;
    if anchor_use {
        let mut at: u32 = seq;
        let mut done: bool = false;
        while at > low && !done
            invariant
                low <= at <= seq,
                !done ==> def_seq is None && last_definition(
                    s.lines,
                    s.format,
                    reg,
                    low as int,
                    seq as int,
                ) == last_definition(s.lines, s.format, reg, low as int, at as int),
                done ==> def_seq == last_definition(
                    s.lines,
                    s.format,
                    reg,
                    low as int,
                    seq as int,
                ),
            decreases at - low + (if done {
                0int
            } else {
                1
            }),
        {
            if is_def(&s.lines, s.format, reg, at - 1) {
                def_seq = Some(at - 1);
                done = true;
            } else {
                at -= 1;
            }
        }
    }
    let mut use_seqs: Vec<u32> = Vec::new();
    let mut redefined_seq: Option<u32> = None;
    if anchor_def {
        let end: u32 = if (seq as u64) + (MAX_SCAN_RANGE as u64) < s.total_lines as u64 {
            seq + MAX_SCAN_RANGE
        } else {
            s.total_lines
        };
        let first: u64 = seq as u64 + 1;
        let mut at: u64 = first;
        let ghost next = next_definition(s.lines, s.format, reg, seq + 1, end as int);
        while at < end as u64
            invariant
                first == seq + 1,
                first <= at,
                at <= end || at == first,
                end == scan_high(seq, s.total_lines),
                redefined_seq is None,
                next == next_definition(s.lines, s.format, reg, seq + 1, end as int),
                next == next_definition(s.lines, s.format, reg, at as int, end as int),
                use_seqs@ == reads_in(s.lines, reg, first as int, at as int),
                anchor_def == writes(s.lines, reg, seq as int),
                anchor_def,
                def_seq == (if reads(s.lines, reg, seq as int) {
                    last_definition(s.lines, s.format, reg, scan_low(seq), seq as int)
                } else {
                    None
                }),
            decreases end - at,
        {
            let line: u32 = at as u32;
            let (_, used) = effects_at(&s.lines, reg, line);
            if used {
                use_seqs.push(line);
            }
            if is_def(&s.lines, s.format, reg, line) {
                return DefUseChain { def_seq, use_seqs, redefined_seq: Some(line) };
            }
            at += 1;
        }
    }
    DefUseChain { def_seq, use_seqs, redefined_seq }
}

/// `未知寄存器: …`
pub open spec fn unknown_reg_text(name: Seq<char>) -> Seq<char> {
    "未知寄存器: "@ + name
}

fn copy_regs(regs: &Vec<RegId>) -> (r: Vec<RegId>)
    ensures
        r@ == regs@,
{
    let mut r: Vec<RegId> = Vec::new();
    let mut i: usize = 0;
    while i < regs.len()
        invariant
            i <= regs@.len(),
            r@ =~= regs@.take(i as int),
        decreases regs@.len() - i,
    {
        r.push(regs[i]);
        i += 1;
    }
    assert(r@ =~= regs@);
    r
}

impl TraceEngine {
    /// The registers that the instruction at a line writes.
    pub fn get_line_def_registers(&self, session_id: &str, seq: u32) -> (r: Result<
        Vec<RegId>,
        TraceError,
    >)
        ensures
            match self.session(session_id@) {
                None => r matches Err(e) && is_unknown_session(e, session_id@),
                Some(s) => if s.lines is None {
                    r matches Err(TraceError::IndexNotReady)
                } else {
                    r matches Ok(regs) && regs@ == (match line_at(s.lines, seq) {
                        Some(fact) => match fact.insn {
                            Some(insn) => insn.defs@,
                            None => Seq::empty(),
                        },
                        None => Seq::empty(),
                    })
                },
            },
    {
        let state = match self.get_handle(session_id) {
            Ok(state) => state,
            Err(e) => {
                return Err(e);
            },
        };
        if state.lines.is_none() {
            return Err(TraceError::IndexNotReady);
        }
        if let Some(fact) = get_line(&state.lines, seq) {
            if let Some(insn) = &fact.insn {
                return Ok(copy_regs(&insn.defs));
            }
        }
        Ok(Vec::new())
    }

    /// The chain of a register at a line. The name is what the register was
    /// asked for as; it names none if there is no `reg`.
    pub fn get_def_use_chain(&self, session_id: &str, seq: u32, name: &str, reg: Option<RegId>) -> (r:
        Result<DefUseChain, TraceError>)
        ensures
            match self.session(session_id@) {
                None => r matches Err(e) && is_unknown_session(e, session_id@),
                Some(s) => match reg {
                    None => r matches Err(e) && is_invalid(e, unknown_reg_text(name@)),
                    Some(reg) => if s.lines is None {
                        r matches Err(TraceError::IndexNotReady)
                    } else {
                        r matches Ok(c) && is_chain(c, s, seq, reg)
                    },
                },
            },
    {
        let state = match self.get_handle(session_id) {
            Ok(state) => state,
            Err(e) => {
                return Err(e);
            },
        };
        let target: RegId = match reg {
            Some(reg) => reg,
            None => {
                let mut text = "未知寄存器: ".to_owned();
                push_text(&mut text, name);
                return Err(TraceError::InvalidArgument(text));
            },
        };
        if state.lines.is_none() {
            return Err(TraceError::IndexNotReady);
        }
        Ok(follow(state, seq, target))
    }
}

// ---------------------------------------------------------------------------
// Law
// ---------------------------------------------------------------------------

proof fn lemma_last_definition(
    lines: Option<Vec<LineFact>>,
    format: TraceFormat,
    reg: RegId,
    low: int,
    high: int,
    d: u32,
)
    requires
        0 <= low,
        high <= u32::MAX,
    ensures
        last_definition(lines, format, reg, low, high) == Some(d) <==> {
            &&& low <= d < high
            &&& defines(lines, format, reg, d as int)
            &&& forall|k: int| d < k < high ==> !#[trigger] defines(lines, format, reg, k)
        },
    decreases high - low,
{
    if low < high {
        lemma_last_definition(lines, format, reg, low, high - 1, d);
        if defines(lines, format, reg, high - 1) {
            assert(d < high - 1 ==> !(forall|k: int|
                d < k < high ==> !#[trigger] defines(lines, format, reg, k)));
        }
    }
}

proof fn lemma_next_definition(
    lines: Option<Vec<LineFact>>,
    format: TraceFormat,
    reg: RegId,
    low: int,
    high: int,
)
    requires
        0 <= low,
        high <= u32::MAX,
    ensures
        match next_definition(lines, format, reg, low, high) {
            Some(n) => low <= n < high && defines(lines, format, reg, n as int) && forall|k: int|
                low <= k < n ==> !#[trigger] defines(lines, format, reg, k),
            None => forall|k: int| low <= k < high ==> !#[trigger] defines(lines, format, reg, k),
        },
    decreases high - low,
{
    if low < high && !defines(lines, format, reg, low) {
        lemma_next_definition(lines, format, reg, low + 1, high);
    }
}

proof fn lemma_reads_in(lines: Option<Vec<LineFact>>, reg: RegId, low: int, high: int, u: u32)
    requires
        0 <= low,
        high <= u32::MAX + 1,
    ensures
        reads_in(lines, reg, low, high).contains(u) <==> low <= u < high && reads(
            lines,
            reg,
            u as int,
        ),
    decreases high - low,
{
    if low < high {
        lemma_reads_in(lines, reg, low, high - 1, u);
        let earlier = reads_in(lines, reg, low, high - 1);
        let all = reads_in(lines, reg, low, high);
        if reads(lines, reg, high - 1) {
            assert(all[earlier.len() as int] == (high - 1) as u32);
            assert(forall|i: int| 0 <= i < earlier.len() ==> all[i] == earlier[i]);
            if earlier.contains(u) {
                let i = choose|i: int| 0 <= i < earlier.len() && earlier[i] == u;
                assert(all[i] == u);
            }
        }
    }
}

/// Chains agree from both ends: as far as the search goes, a line is among the
/// uses of a definition exactly if that definition is the one that reaches it.
pub proof fn law_chains_agree(
    s: TraceSession,
    reg: RegId,
    d: u32,
    u: u32,
    at_definition: DefUseChain,
    at_use: DefUseChain,
)
    requires
        is_chain(at_definition, s, d, reg),
        is_chain(at_use, s, u, reg),
        writes(s.lines, reg, d as int),
        u < s.total_lines,
        u < d + MAX_SCAN_RANGE,
    ensures
        at_definition.use_seqs@.contains(u) <==> at_use.def_seq == Some(d),
{
    let high = scan_high(d, s.total_lines);
    let next = next_definition(s.lines, s.format, reg, d + 1, high);
    lemma_next_definition(s.lines, s.format, reg, d + 1, high);
    lemma_last_definition(s.lines, s.format, reg, scan_low(u), u as int, d);
    assert(defines(s.lines, s.format, reg, d as int));
    match next {
        Some(n) => {
            lemma_reads_in(s.lines, reg, d + 1, n + 1, u);
        },
        None => {
            lemma_reads_in(s.lines, reg, d + 1, high, u);
        },
    }
}

} // verus!
