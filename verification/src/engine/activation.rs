//! Queries on confirmed activations.

use crate::engine::call_tree::copy_name;
use crate::engine::session::{get_line, line_at, LineFact, TraceEngine, TraceSession};
use crate::engine::site::{shown_site, site_or_runtime};
use crate::error::{is_invalid, is_unknown_session, TraceError};
use crate::query::activation::{
    by_value, called_at, children_of, first_child, owner_of, resumed_at, ActivationTree,
    ActivationView, BypassedCall, ConfirmedActivation, UnresolvedReason,
};
use crate::query::call_tree::name_view;
use crate::text::{address, address_text, decimal_text, push_decimal, push_text};
use vstd::prelude::*;

verus! {

/// An activation as it is shown.
#[derive(Debug, Clone, PartialEq, Eq)]
pub struct ConfirmedActivationDto {
    pub id: u32,
    /// Session and line of the call.
    pub activation: String,
    pub func_addr: String,
    pub func_name: Option<String>,
    pub call_seq: u32,
    pub call_pc: String,
    pub entry_seq: u32,
    pub entry_pc: String,
    pub exit_seq: u32,
    pub exit_pc: String,
    pub expected_resume: String,
    pub resume_seq: u32,
    pub parent_id: Option<u32>,
    pub children_ids: Vec<u32>,
    pub unresolved_reason: Option<String>,
}

/// A bypassed call as it is shown.
#[derive(Debug, Clone, PartialEq, Eq)]
pub struct BypassedCallDto {
    pub call_seq: u32,
    pub call_pc: String,
    pub expected_resume: String,
    pub resume_seq: u32,
    pub parent_id: Option<u32>,
}

/// A page of the activations and of the bypassed calls.
#[derive(Debug, Clone, PartialEq, Eq)]
pub struct ActivationTreeDto {
    pub activations: Vec<ConfirmedActivationDto>,
    pub bypassed_calls: Vec<BypassedCallDto>,
    pub total_activations: u32,
    pub total_bypassed: u32,
    /// The root is not counted.
    pub confirmed_count: u32,
    pub unresolved_count: u32,
    pub offset: u32,
}

/// To whom an instruction belongs.
#[derive(Debug, Clone, PartialEq, Eq)]
pub struct InstructionOwnerDto {
    pub seq: u32,
    pub activation: Option<ConfirmedActivationDto>,
    pub position: String,
    pub callee_id: Option<u32>,
    pub detail: String,
}

pub open spec fn reason_text(r: UnresolvedReason) -> Seq<char> {
    match r {
        UnresolvedReason::TraceEndStillActive => "trace_end_still_active"@,
        UnresolvedReason::DisplacedByAnotherCall => "displaced_by_another_call"@,
        UnresolvedReason::NoNextInsn => "no_next_insn"@,
    }
}

pub fn reason_str(r: &UnresolvedReason) -> (s: &'static str)
    ensures
        s@ == reason_text(*r),
{
    match r {
        UnresolvedReason::TraceEndStillActive => "trace_end_still_active",
        UnresolvedReason::DisplacedByAnotherCall => "displaced_by_another_call",
        UnresolvedReason::NoNextInsn => "no_next_insn",
    }
}

/// The text of a line, if there is such a line.
pub open spec fn text_at(lines: Option<Vec<LineFact>>, seq: u32) -> Option<Seq<u8>> {
    match line_at(lines, seq) {
        Some(fact) => Some(fact.text@),
        None => None,
    }
}

/// The place of a line, or the address it ran at.
pub open spec fn site_at(lines: Option<Vec<LineFact>>, seq: u32, pc: u64) -> Seq<char> {
    shown_site(text_at(lines, seq), pc)
}

fn site(lines: &Option<Vec<LineFact>>, seq: u32, pc: u64) -> (s: String)
    ensures
        s@ == site_at(*lines, seq, pc),
{
    match get_line(lines, seq) {
        Some(fact) => site_or_runtime(Some(fact.text.as_slice()), pc),
        None => site_or_runtime(None, pc),
    }
}

pub open spec fn reason_view(r: Option<UnresolvedReason>) -> Option<Seq<char>> {
    match r {
        Some(r) => Some(reason_text(r)),
        None => None,
    }
}

/// The DTO shows the activation.
pub open spec fn shows_activation(
    d: ConfirmedActivationDto,
    a: ActivationView,
    session_id: Seq<char>,
    lines: Option<Vec<LineFact>>,
) -> bool {
    &&& d.id == a.id
    &&& d.activation@ == session_id + ":call@"@ + decimal_text(a.call_seq as u64)
    &&& d.func_addr@ == site_at(lines, a.entry_seq, a.func_addr)
    &&& name_view(d.func_name) == a.func_name
    &&& d.call_seq == a.call_seq
    &&& d.call_pc@ == site_at(lines, a.call_seq, a.call_pc)
    &&& d.entry_seq == a.entry_seq
    &&& d.entry_pc@ == site_at(lines, a.entry_seq, a.entry_pc)
    &&& d.exit_seq == a.exit_seq
    &&& d.exit_pc@ == site_at(lines, a.exit_seq, a.exit_pc)
    &&& d.expected_resume@ == site_at(lines, a.resume_seq, a.expected_resume)
    &&& d.resume_seq == a.resume_seq
    &&& d.parent_id == a.parent_id
    &&& d.children_ids@ == a.children
    &&& name_view(d.unresolved_reason) == reason_view(a.unresolved_reason)
}

fn activation_to_dto(
    a: &ConfirmedActivation,
    session_id: &str,
    lines: &Option<Vec<LineFact>>,
) -> (d: ConfirmedActivationDto)
    ensures
        shows_activation(d, a@, session_id@, *lines),
{
    let mut activation = session_id.to_owned();
    push_text(&mut activation, ":call@");
    push_decimal(&mut activation, a.call_seq as u64);
    let children_ids: Vec<u32> = a.children_ids.clone();
    assert(children_ids@ =~= a.children_ids@);
    let unresolved_reason: Option<String> = match &a.unresolved_reason {
        Some(r) => Some(reason_str(r).to_owned()),
        None => None,
    };
    ConfirmedActivationDto {
        id: a.id,
        activation,
        func_addr: site(lines, a.entry_seq, a.func_addr),
        func_name: copy_name(&a.func_name),
        call_seq: a.call_seq,
        call_pc: site(lines, a.call_seq, a.call_pc),
        entry_seq: a.entry_seq,
        entry_pc: site(lines, a.entry_seq, a.entry_pc),
        exit_seq: a.exit_seq,
        exit_pc: site(lines, a.exit_seq, a.exit_pc),
        expected_resume: site(lines, a.resume_seq, a.expected_resume),
        resume_seq: a.resume_seq,
        parent_id: a.parent_id,
        children_ids,
        unresolved_reason,
    }
}

/// The DTO shows the bypassed call.
pub open spec fn shows_bypassed(
    d: BypassedCallDto,
    c: BypassedCall,
    lines: Option<Vec<LineFact>>,
) -> bool {
    &&& d.call_seq == c.call_seq
    &&& d.call_pc@ == site_at(lines, c.call_seq, c.call_pc)
    &&& d.expected_resume@ == address_text(c.expected_resume)
    &&& d.resume_seq == c.resume_seq
    &&& d.parent_id == c.parent_id
}

// ---------------------------------------------------------------------------
// The tree
// ---------------------------------------------------------------------------

/// A page of a list.
pub open spec fn window<T>(s: Seq<T>, offset: u32, limit: u32) -> Seq<T> {
    let start = if offset < s.len() {
        offset as int
    } else {
        s.len() as int
    };
    let end = if start + limit < s.len() {
        start + limit
    } else {
        s.len() as int
    };
    s.subrange(start, end)
}

/// Pages join: a page and the one after it are the page of both sizes.
pub proof fn law_pages_join<T>(s: Seq<T>, offset: u32, first: u32, second: u32)
    requires
        offset + first + second <= u32::MAX,
    ensures
        window(s, offset, first) + window(s, (offset + first) as u32, second) == window(
            s,
            offset,
            (first + second) as u32,
        ),
{
    assert(window(s, offset, first) + window(s, (offset + first) as u32, second) =~= window(
        s,
        offset,
        (first + second) as u32,
    ));
}

/// The first position of a page and the one after its last.
fn window_bounds(len: usize, offset: u32, limit: u32) -> (r: (usize, usize))
    ensures
        r.0 <= r.1 <= len,
        r.0 == (if offset < len {
            offset as int
        } else {
            len as int
        }),
        r.1 == (if r.0 + limit < len {
            r.0 + limit
        } else {
            len as int
        }),
{
    let start: usize = if (offset as usize) < len {
        offset as usize
    } else {
        len
    };
    let left: usize = len - start;
    let take: usize = if (limit as usize) < left {
        limit as usize
    } else {
        left
    };
    (start, start + take)
}

/// Number of confirmed activations among the first `n`, the root apart.
pub open spec fn confirmed_in(s: Seq<ActivationView>, n: int) -> nat
    decreases n,
{
    if n <= 1 {
        0
    } else {
        confirmed_in(s, n - 1) + (if s[n - 1].unresolved_reason is None {
            1nat
        } else {
            0
        })
    }
}

/// The DTO shows a page of the tree and the counts of the whole.
pub open spec fn shows_tree(
    d: ActivationTreeDto,
    tree: ActivationTree,
    session_id: Seq<char>,
    lines: Option<Vec<LineFact>>,
    offset: u32,
    limit: u32,
) -> bool {
    let all = tree.activation_seq();
    let page = window(all, offset, limit);
    let bypassed = window(tree.bypassed_calls@, offset, limit);
    &&& d.activations@.len() == page.len()
    &&& forall|i: int|
        #![trigger d.activations@[i]]
        0 <= i < page.len() ==> shows_activation(d.activations@[i], page[i], session_id, lines)
    &&& d.bypassed_calls@.len() == bypassed.len()
    &&& forall|i: int|
        #![trigger d.bypassed_calls@[i]]
        0 <= i < bypassed.len() ==> shows_bypassed(d.bypassed_calls@[i], bypassed[i], lines)
    &&& d.total_activations == all.len()
    &&& d.total_bypassed == tree.bypassed_calls@.len()
    &&& d.confirmed_count == confirmed_in(all, all.len() as int)
    &&& d.unresolved_count == all.len() - 1 - confirmed_in(all, all.len() as int)
    &&& d.offset == offset
}

/// There is a root, and everything can be numbered.
pub open spec fn tree_numbered(tree: ActivationTree) -> bool {
    0 < tree.activations@.len() <= u32::MAX && tree.bypassed_calls@.len() <= u32::MAX
}

/// The activations of a session, if any, can be shown.
pub open spec fn session_numbered(s: TraceSession) -> bool {
    s.activation_tree matches Some(tree) ==> tree_numbered(tree)
}

fn count_confirmed(tree: &ActivationTree) -> (n: u32)
    requires
        tree_numbered(*tree),
    ensures
        n == confirmed_in(tree.activation_seq(), tree.activations@.len() as int),
        n < tree.activations@.len(),
{
    let ghost all = tree.activation_seq();
    let mut n: u32 = 0;
    let mut i: usize = 1;
    while i < tree.activations.len()
        invariant
            1 <= i <= tree.activations@.len() <= u32::MAX,
            all == tree.activation_seq(),
            n == confirmed_in(all, i as int),
            n < i,
        decreases tree.activations@.len() - i,
    {
        assert(all[i as int] == tree.activations@[i as int]@);
        if tree.activations[i].unresolved_reason.is_none() {
            n += 1;
        }
        i += 1;
    }
    n
}

/// A page of the activations and of the bypassed calls of a trace.
fn tree_page(
    tree: &ActivationTree,
    session_id: &str,
    lines: &Option<Vec<LineFact>>,
    offset: u32,
    limit: u32,
) -> (d: ActivationTreeDto)
    requires
        tree_numbered(*tree),
    ensures
        shows_tree(d, *tree, session_id@, *lines, offset, limit),
{
    let ghost all = tree.activation_seq();
    let ghost page = window(all, offset, limit);
    let ghost bypassed = window(tree.bypassed_calls@, offset, limit);
    let (start, end) = window_bounds(tree.activations.len(), offset, limit);
    let mut activations: Vec<ConfirmedActivationDto> = Vec::new();
    let mut i: usize = start;
    while i < end
        invariant
            start <= i <= end <= tree.activations@.len(),
            all == tree.activation_seq(),
            page == all.subrange(start as int, end as int),
            activations@.len() == i - start,
            forall|k: int|
                #![trigger activations@[k]]
                0 <= k < activations@.len() ==> shows_activation(
                    activations@[k],
                    page[k],
                    session_id@,
                    *lines,
                ),
        decreases end - i,
    {
        assert(page[i - start] == tree.activations@[i as int]@);
        activations.push(activation_to_dto(&tree.activations[i], session_id, lines));
        i += 1;
    }
    let (b_start, b_end) = window_bounds(tree.bypassed_calls.len(), offset, limit);
    let mut bypassed_calls: Vec<BypassedCallDto> = Vec::new();
    let mut j: usize = b_start;
    while j < b_end
        invariant
            b_start <= j <= b_end <= tree.bypassed_calls@.len(),
            bypassed == tree.bypassed_calls@.subrange(b_start as int, b_end as int),
            bypassed_calls@.len() == j - b_start,
            forall|k: int|
                #![trigger bypassed_calls@[k]]
                0 <= k < bypassed_calls@.len() ==> shows_bypassed(
                    bypassed_calls@[k],
                    bypassed[k],
                    *lines,
                ),
        decreases b_end - j,
    {
        let c: BypassedCall = tree.bypassed_calls[j];
        assert(bypassed[j - b_start] == c);
        bypassed_calls.push(
            BypassedCallDto {
                call_seq: c.call_seq,
                call_pc: site(lines, c.call_seq, c.call_pc),
                expected_resume: address(c.expected_resume),
                resume_seq: c.resume_seq,
                parent_id: c.parent_id,
            },
        );
        j += 1;
    }
    let confirmed: u32 = count_confirmed(tree);
    let total: u32 = tree.activations.len() as u32;
    ActivationTreeDto {
        activations,
        bypassed_calls,
        total_activations: total,
        total_bypassed: tree.bypassed_calls.len() as u32,
        confirmed_count: confirmed,
        unresolved_count: total - 1 - confirmed,
        offset,
    }
}

// ---------------------------------------------------------------------------
// Owners
// ---------------------------------------------------------------------------

/// `seq … 超出 trace 总行数 …`
pub open spec fn beyond_text(seq: u32, total: u32) -> Seq<char> {
    "seq "@ + decimal_text(seq as u64) + " 超出 trace 总行数 "@ + decimal_text(total as u64)
}

fn beyond(seq: u32, total: u32) -> (e: TraceError)
    ensures
        is_invalid(e, beyond_text(seq, total)),
{
    let mut text = "seq ".to_owned();
    push_decimal(&mut text, seq as u64);
    push_text(&mut text, " 超出 trace 总行数 ");
    push_decimal(&mut text, total as u64);
    TraceError::InvalidArgument(text)
}

/// The DTO shows the activation that owns a line, if there is one.
pub open spec fn shows_owner(
    d: Option<ConfirmedActivationDto>,
    tree: ActivationTree,
    seq: u32,
    session_id: Seq<char>,
    lines: Option<Vec<LineFact>>,
) -> bool {
    match owner_of(tree.activation_seq(), seq) {
        Some(i) => d matches Some(dto) && shows_activation(
            dto,
            tree.activation_seq()[i],
            session_id,
            lines,
        ),
        None => d is None,
    }
}

/// The activation that owns a line.
pub open spec fn owner_record(tree: ActivationTree, seq: u32) -> Option<ConfirmedActivation> {
    match owner_of(tree.activation_seq(), seq) {
        Some(i) => Some(tree.activations@[i]),
        None => None,
    }
}

/// The child that is called at a line.
pub open spec fn callee_at(tree: ActivationTree, seq: u32) -> Option<u32> {
    let s = tree.activation_seq();
    first_child(s, children_of(s, owner_record(tree, seq)), called_at(seq), 0)
}

/// A call without a recorded body stands at a line.
pub open spec fn bypasses_at(tree: ActivationTree, seq: u32) -> bool {
    exists|i: int|
        0 <= i < tree.bypassed_calls@.len() && #[trigger] tree.bypassed_calls@[i].call_seq == seq
}

/// The child that returns at a line.
pub open spec fn returned_at(tree: ActivationTree, seq: u32) -> Option<u32> {
    let s = tree.activation_seq();
    first_child(s, children_of(s, owner_record(tree, seq)), resumed_at(seq), 0)
}

/// The role of a line: a call, the resume after one, or its place within the
/// activation that owns it.
pub open spec fn role(tree: ActivationTree, seq: u32) -> (Seq<char>, Option<u32>, Seq<char>) {
    if callee_at(tree, seq) is Some {
        ("call"@, callee_at(tree, seq), ""@)
    } else if bypasses_at(tree, seq) {
        ("call"@, None, "调用指令：callee 无记录函数体（bypassed）"@)
    } else if returned_at(tree, seq) is Some {
        (
            "resume"@,
            returned_at(tree, seq),
            "expected resume 指令：caller 上下文执行，闭合 callee"@,
        )
    } else {
        (
            match owner_record(tree, seq) {
                None => "root"@,
                Some(a) => if seq == a.entry_seq {
                    "entry"@
                } else if seq == a.exit_seq {
                    "exit"@
                } else {
                    "body"@
                },
            },
            None,
            ""@,
        )
    }
}

/// The DTO tells to whom a line belongs and what it does there. Only a line
/// with an instruction belongs to anyone.
pub open spec fn shows_role(
    d: InstructionOwnerDto,
    tree: ActivationTree,
    seq: u32,
    session_id: Seq<char>,
    lines: Option<Vec<LineFact>>,
) -> bool {
    &&& d.seq == seq
    &&& if line_at(lines, seq) matches Some(fact) && fact.insn is Some {
        &&& shows_owner(d.activation, tree, seq, session_id, lines)
        &&& (d.position@, d.callee_id, d.detail@) == role(tree, seq)
    } else {
        &&& d.activation is None
        &&& d.position@ == "not_an_instruction"@
        &&& d.callee_id is None
        &&& d.detail@ == "special line 或无法解析行：不参与指令归属"@
    }
}

fn owner_dto(
    owner: Option<&ConfirmedActivation>,
    session_id: &str,
    lines: &Option<Vec<LineFact>>,
) -> (r: Option<ConfirmedActivationDto>)
    ensures
        match owner {
            Some(a) => r matches Some(d) && shows_activation(d, a@, session_id@, *lines),
            None => r is None,
        },
{
    match owner {
        Some(a) => Some(activation_to_dto(a, session_id, lines)),
        None => None,
    }
}

/// To whom a line belongs and what it does there.
fn instruction_owner(
    tree: &ActivationTree,
    session_id: &str,
    lines: &Option<Vec<LineFact>>,
    seq: u32,
) -> (d: InstructionOwnerDto)
    requires
        tree_numbered(*tree),
    ensures
        shows_role(d, *tree, seq, session_id@, *lines),
{
    let is_instruction: bool = match get_line(lines, seq) {
        Some(fact) => fact.insn.is_some(),
        None => false,
    };
    if !is_instruction {
        return InstructionOwnerDto {
            seq,
            activation: None,
            position: "not_an_instruction".to_owned(),
            callee_id: None,
            detail: "special line 或无法解析行：不参与指令归属".to_owned(),
        };
    }
    let owner = tree.activation_for_seq(seq);
    proof {
        if let Some(i) = owner_of(tree.activation_seq(), seq) {
            lemma_owner_bound(tree.activation_seq(), seq, tree.activations@.len() as int);
            assert(tree.activation_seq()[i] == tree.activations@[i]@);
        }
        assert(by_value(owner) == owner_record(*tree, seq));
    }
    let callee_id = tree.find_child_call(owner, seq);
    if callee_id.is_some() {
        return InstructionOwnerDto {
            seq,
            activation: owner_dto(owner, session_id, lines),
            position: "call".to_owned(),
            callee_id,
            detail: "".to_owned(),
        };
    }
    let bypassed = tree.find_bypassed_by_call_seq(seq);
    if let Some(i) = bypassed {
        assert(tree.bypassed_calls@[i as int].call_seq == seq);
        return InstructionOwnerDto {
            seq,
            activation: owner_dto(owner, session_id, lines),
            position: "call".to_owned(),
            callee_id: None,
            detail: "调用指令：callee 无记录函数体（bypassed）".to_owned(),
        };
    }
    if let Some(child) = tree.find_child_resume(owner, seq) {
        return InstructionOwnerDto {
            seq,
            activation: owner_dto(owner, session_id, lines),
            position: "resume".to_owned(),
            callee_id: Some(child),
            detail: "expected resume 指令：caller 上下文执行，闭合 callee".to_owned(),
        };
    }
    let position: &str = match owner {
        Some(a) => if seq == a.entry_seq {
            "entry"
        } else if seq == a.exit_seq {
            "exit"
        } else {
            "body"
        },
        None => "root",
    };
    InstructionOwnerDto {
        seq,
        activation: owner_dto(owner, session_id, lines),
        position: position.to_owned(),
        callee_id: None,
        detail: "".to_owned(),
    }
}

impl TraceEngine {
    /// A page of the activations and of the bypassed calls, with the counts of
    /// the whole.
    pub fn get_activation_tree(&self, session_id: &str, offset: u32, limit: u32) -> (r: Result<
        ActivationTreeDto,
        TraceError,
    >)
        requires
            self.session(session_id@) matches Some(s) ==> session_numbered(s),
        ensures
            match self.session(session_id@) {
                None => r matches Err(e) && is_unknown_session(e, session_id@),
                Some(s) => match s.activation_tree {
                    None => r matches Err(TraceError::IndexNotReady),
                    Some(tree) => r matches Ok(d) && shows_tree(
                        d,
                        tree,
                        session_id@,
                        s.lines,
                        offset,
                        limit,
                    ),
                },
            },
    {
        let state = match self.get_handle(session_id) {
            Ok(state) => state,
            Err(e) => {
                return Err(e);
            },
        };
        match &state.activation_tree {
            Some(tree) => Ok(tree_page(tree, session_id, &state.lines, offset, limit)),
            None => Err(TraceError::IndexNotReady),
        }
    }

    /// The innermost activation around a line.
    pub fn get_activation_for_seq(&self, session_id: &str, seq: u32) -> (r: Result<
        Option<ConfirmedActivationDto>,
        TraceError,
    >)
        ensures
            match self.session(session_id@) {
                None => r matches Err(e) && is_unknown_session(e, session_id@),
                Some(s) => match s.activation_tree {
                    None => r matches Err(TraceError::IndexNotReady),
                    Some(tree) => if seq >= s.total_lines {
                        r matches Err(e) && is_invalid(e, beyond_text(seq, s.total_lines))
                    } else {
                        r matches Ok(d) && shows_owner(d, tree, seq, session_id@, s.lines)
                    },
                },
            },
    {
        let state = match self.get_handle(session_id) {
            Ok(state) => state,
            Err(e) => {
                return Err(e);
            },
        };
        let tree: &ActivationTree = match &state.activation_tree {
            Some(tree) => tree,
            None => {
                return Err(TraceError::IndexNotReady);
            },
        };
        if seq >= state.total_lines {
            return Err(beyond(seq, state.total_lines));
        }
        let owner = tree.activation_for_seq(seq);
        proof {
            if let Some(i) = owner_of(tree.activation_seq(), seq) {
                lemma_owner_bound(tree.activation_seq(), seq, tree.activations@.len() as int);
                assert(tree.activation_seq()[i] == tree.activations@[i]@);
            }
        }
        Ok(owner_dto(owner, session_id, &state.lines))
    }

    /// To whom an instruction belongs and what it does there.
    pub fn get_instruction_owner(&self, session_id: &str, seq: u32) -> (r: Result<
        InstructionOwnerDto,
        TraceError,
    >)
        requires
            self.session(session_id@) matches Some(s) ==> session_numbered(s),
        ensures
            match self.session(session_id@) {
                None => r matches Err(e) && is_unknown_session(e, session_id@),
                Some(s) => match s.activation_tree {
                    None => r matches Err(TraceError::IndexNotReady),
                    Some(tree) => if seq >= s.total_lines {
                        r matches Err(e) && is_invalid(e, beyond_text(seq, s.total_lines))
                    } else {
                        r matches Ok(d) && shows_role(d, tree, seq, session_id@, s.lines)
                    },
                },
            },
    {
        let state = match self.get_handle(session_id) {
            Ok(state) => state,
            Err(e) => {
                return Err(e);
            },
        };
        let tree: &ActivationTree = match &state.activation_tree {
            Some(tree) => tree,
            None => {
                return Err(TraceError::IndexNotReady);
            },
        };
        if seq >= state.total_lines {
            return Err(beyond(seq, state.total_lines));
        }
        Ok(instruction_owner(tree, session_id, &state.lines, seq))
    }
}

proof fn lemma_owner_bound(s: Seq<ActivationView>, seq: u32, n: int)
    ensures
        crate::query::activation::owner_below(s, seq, n) matches Some(i) ==> 0 < i < n,
    decreases n,
{
    if n > 1 {
        lemma_owner_bound(s, seq, n - 1);
    }
}

} // verus!
