//! Confirmed activations: calls whose entry, exit and resume were observed.
//!
//! A call expects to resume at the instruction after it. The next instruction
//! decides whether a body was recorded: if it is the resume, the call is
//! bypassed, otherwise an activation opens. It closes when the expected resume
//! is reached; branches and returns by themselves close nothing.

use crate::query::call_tree::name_view;
use vstd::prelude::*;

verus! {

/// An executed instruction.
#[derive(Debug, Clone, Copy, PartialEq, Eq, Structural)]
pub struct InsnFact {
    pub seq: u32,
    pub pc: u64,
}

impl InsnFact {
    pub fn new(seq: u32, pc: u64) -> (fact: InsnFact)
        ensures
            fact == (InsnFact { seq, pc }),
    {
        InsnFact { seq, pc }
    }
}

/// Why an activation is not confirmed.
#[derive(Debug, Clone, Copy, PartialEq, Eq, Structural)]
pub enum UnresolvedReason {
    /// The trace ended before the resume.
    TraceEndStillActive,
    /// Another call came before any instruction.
    DisplacedByAnotherCall,
    /// The trace ended right after the call.
    NoNextInsn,
}

/// A call with its boundaries.
#[derive(Debug, Clone, PartialEq, Eq)]
pub struct ConfirmedActivation {
    pub id: u32,
    /// Address of the first instruction, 0 if none was seen.
    pub func_addr: u64,
    pub func_name: Option<String>,
    pub call_seq: u32,
    pub call_pc: u64,
    /// First instruction of the callee.
    pub entry_seq: u32,
    pub entry_pc: u64,
    /// Last instruction before the resume.
    pub exit_seq: u32,
    pub exit_pc: u64,
    /// Address of the instruction after the call.
    pub expected_resume: u64,
    pub resume_seq: u32,
    /// The caller; `None` for the root.
    pub parent_id: Option<u32>,
    pub children_ids: Vec<u32>,
    pub unresolved_reason: Option<UnresolvedReason>,
}

/// An activation as a mathematical value.
#[verifier::ext_equal]
pub struct ActivationView {
    pub id: u32,
    pub func_addr: u64,
    pub func_name: Option<Seq<char>>,
    pub call_seq: u32,
    pub call_pc: u64,
    pub entry_seq: u32,
    pub entry_pc: u64,
    pub exit_seq: u32,
    pub exit_pc: u64,
    pub expected_resume: u64,
    pub resume_seq: u32,
    pub parent_id: Option<u32>,
    pub children: Seq<u32>,
    pub unresolved_reason: Option<UnresolvedReason>,
}

impl View for ConfirmedActivation {
    type V = ActivationView;

    open spec fn view(&self) -> ActivationView {
        ActivationView {
            id: self.id,
            func_addr: self.func_addr,
            func_name: name_view(self.func_name),
            call_seq: self.call_seq,
            call_pc: self.call_pc,
            entry_seq: self.entry_seq,
            entry_pc: self.entry_pc,
            exit_seq: self.exit_seq,
            exit_pc: self.exit_pc,
            expected_resume: self.expected_resume,
            resume_seq: self.resume_seq,
            parent_id: self.parent_id,
            children: self.children_ids@,
            unresolved_reason: self.unresolved_reason,
        }
    }
}

pub open spec fn activation_views(s: Seq<ConfirmedActivation>) -> Seq<ActivationView> {
    s.map_values(|a: ConfirmedActivation| a@)
}

/// A call whose body was not recorded.
#[derive(Debug, Clone, Copy, PartialEq, Eq, Structural)]
pub struct BypassedCall {
    pub call_seq: u32,
    pub call_pc: u64,
    pub expected_resume: u64,
    pub resume_seq: u32,
    /// The caller; `None` for the root.
    pub parent_id: Option<u32>,
}

/// All calls of a trace. Activation 0 is the root: the trace itself.
#[derive(Debug, Clone, PartialEq, Eq)]
pub struct ActivationTree {
    pub activations: Vec<ConfirmedActivation>,
    pub bypassed_calls: Vec<BypassedCall>,
}

/// A call that waits for the next instruction.
#[derive(Debug, Clone, Copy, PartialEq, Eq, Structural)]
pub struct PendingCall {
    pub call_seq: u32,
    pub call_pc: u64,
    pub expected_resume: u64,
    pub parent_id: Option<u32>,
}

// ---------------------------------------------------------------------------
// Model
// ---------------------------------------------------------------------------

/// Activations under construction.
#[verifier::ext_equal]
pub struct Forest {
    pub activations: Seq<ActivationView>,
    pub bypassed: Seq<BypassedCall>,
    /// The open activations, the innermost last.
    pub stack: Seq<u32>,
    pub pending: Option<PendingCall>,
    /// The last instruction.
    pub last: Option<InsnFact>,
}

pub open spec fn root_activation() -> ActivationView {
    ActivationView {
        id: 0,
        func_addr: 0,
        func_name: None,
        call_seq: 0,
        call_pc: 0,
        entry_seq: 0,
        entry_pc: 0,
        exit_seq: 0xFFFF_FFFF,
        exit_pc: 0,
        expected_resume: 0,
        resume_seq: 0xFFFF_FFFF,
        parent_id: None,
        children: Seq::empty(),
        unresolved_reason: None,
    }
}

pub open spec fn empty_forest() -> Forest {
    Forest {
        activations: seq![root_activation()],
        bypassed: Seq::empty(),
        stack: Seq::empty(),
        pending: None,
        last: None,
    }
}

/// The innermost open activation.
pub open spec fn top(f: Forest) -> Option<u32> {
    if f.stack.len() == 0 {
        None
    } else {
        Some(f.stack.last())
    }
}

/// The position of an activation; the root is at 0.
pub open spec fn position(id: Option<u32>) -> int {
    match id {
        Some(id) => id as int,
        None => 0,
    }
}

/// A new activation below its caller.
pub open spec fn grown(s: Seq<ActivationView>, a: ActivationView) -> Seq<ActivationView> {
    let p = position(a.parent_id);
    s.update(p, ActivationView { children: s[p].children.push(a.id), ..s[p] }).push(a)
}

/// The activation that a call opens at its first instruction.
pub open spec fn entered(id: u32, c: PendingCall, fact: InsnFact) -> ActivationView {
    ActivationView {
        id,
        func_addr: fact.pc,
        func_name: None,
        call_seq: c.call_seq,
        call_pc: c.call_pc,
        entry_seq: fact.seq,
        entry_pc: fact.pc,
        exit_seq: fact.seq,
        exit_pc: fact.pc,
        expected_resume: c.expected_resume,
        resume_seq: 0xFFFF_FFFF,
        parent_id: c.parent_id,
        children: Seq::empty(),
        unresolved_reason: None,
    }
}

/// The record of a call after which no instruction was seen up to `seq`.
pub open spec fn lost(id: u32, c: PendingCall, seq: u32, reason: UnresolvedReason) -> ActivationView {
    ActivationView {
        id,
        func_addr: 0,
        func_name: None,
        call_seq: c.call_seq,
        call_pc: c.call_pc,
        entry_seq: seq,
        entry_pc: 0,
        exit_seq: 0xFFFF_FFFF,
        exit_pc: 0,
        expected_resume: c.expected_resume,
        resume_seq: 0xFFFF_FFFF,
        parent_id: c.parent_id,
        children: Seq::empty(),
        unresolved_reason: Some(reason),
    }
}

/// A pending call is given up.
pub open spec fn given_up(f: Forest, seq: u32, reason: UnresolvedReason) -> Forest {
    match f.pending {
        None => f,
        Some(c) => Forest {
            activations: grown(
                f.activations,
                lost(f.activations.len() as u32, c, seq, reason),
            ),
            pending: None,
            ..f
        },
    }
}

/// A call.
pub open spec fn after_call(f: Forest, call_seq: u32, call_pc: u64) -> Forest {
    Forest {
        pending: Some(
            PendingCall {
                call_seq,
                call_pc,
                expected_resume: (call_pc + 4) as u64,
                parent_id: top(f),
            },
        ),
        ..given_up(f, call_seq, UnresolvedReason::DisplacedByAnotherCall)
    }
}

/// An activation that ends before `fact`.
pub open spec fn closed(a: ActivationView, last: InsnFact, fact: InsnFact) -> ActivationView {
    ActivationView { exit_seq: last.seq, exit_pc: last.pc, resume_seq: fact.seq, ..a }
}

/// The innermost open activation expects to resume at this instruction.
pub open spec fn resumes(f: Forest, fact: InsnFact) -> bool {
    f.stack.len() > 0 && f.activations[f.stack.last() as int].expected_resume == fact.pc
}

/// An instruction. A pending call has the first claim on it.
pub open spec fn after_insn(f: Forest, fact: InsnFact) -> Forest {
    match f.pending {
        Some(c) => if fact.pc == c.expected_resume {
            Forest {
                bypassed: f.bypassed.push(
                    BypassedCall {
                        call_seq: c.call_seq,
                        call_pc: c.call_pc,
                        expected_resume: c.expected_resume,
                        resume_seq: fact.seq,
                        parent_id: c.parent_id,
                    },
                ),
                pending: None,
                last: Some(fact),
                ..f
            }
        } else {
            let id = f.activations.len() as u32;
            Forest {
                activations: grown(f.activations, entered(id, c, fact)),
                stack: f.stack.push(id),
                pending: None,
                last: Some(fact),
                ..f
            }
        },
        None => if resumes(f, fact) {
            let i = f.stack.last() as int;
            let last = match f.last {
                Some(last) => last,
                None => fact,
            };
            Forest {
                activations: f.activations.update(i, closed(f.activations[i], last, fact)),
                stack: f.stack.drop_last(),
                last: Some(fact),
                ..f
            }
        } else {
            Forest { last: Some(fact), ..f }
        },
    }
}

/// `total - 1`, or 0.
pub open spec fn last_line(total: u32) -> u32 {
    if total == 0 {
        0
    } else {
        (total - 1) as u32
    }
}

/// An activation that the end of the trace cuts off.
pub open spec fn cut_off(a: ActivationView, seq: u32, pc: u64) -> ActivationView {
    ActivationView {
        exit_seq: seq,
        exit_pc: pc,
        unresolved_reason: Some(UnresolvedReason::TraceEndStillActive),
        ..a
    }
}

pub open spec fn last_pc(f: Forest) -> u64 {
    match f.last {
        Some(fact) => fact.pc,
        None => 0,
    }
}

/// The end of the trace: a pending call is given up, open activations are cut
/// off, and the root ends at the last line.
pub open spec fn finished(f: Forest, total: u32) -> Seq<ActivationView> {
    let g = given_up(f, last_line(total), UnresolvedReason::NoNextInsn);
    Seq::new(
        g.activations.len(),
        |i: int|
            if i == 0 {
                ActivationView { exit_seq: last_line(total), ..g.activations[0] }
            } else if f.stack.contains(i as u32) {
                cut_off(g.activations[i], last_line(total), last_pc(f))
            } else {
                g.activations[i]
            },
    )
}

/// Positions are ids, and the open activations exist.
pub open spec fn forest_ok(f: Forest) -> bool {
    &&& 0 < f.activations.len() <= u32::MAX
    &&& forall|i: int| #![trigger f.activations[i]] 0 <= i < f.activations.len()
        ==> f.activations[i].id == i
    &&& forall|k: int| #![trigger f.stack[k]] 0 <= k < f.stack.len() ==> 0 < f.stack[k]
        < f.activations.len()
    &&& f.pending matches Some(c) ==> position(c.parent_id) < f.activations.len()
}

// ---------------------------------------------------------------------------
// Builder
// ---------------------------------------------------------------------------

/// Builds the activations of a trace from its calls and instructions.
pub struct ActivationBuilder {
    pub activations: Vec<ConfirmedActivation>,
    pub bypassed: Vec<BypassedCall>,
    pub stack: Vec<u32>,
    pub pending: Option<PendingCall>,
    pub last: Option<InsnFact>,
}

impl View for ActivationBuilder {
    type V = Forest;

    open spec fn view(&self) -> Forest {
        Forest {
            activations: activation_views(self.activations@),
            bypassed: self.bypassed@,
            stack: self.stack@,
            pending: self.pending,
            last: self.last,
        }
    }
}

impl ActivationBuilder {
    pub open spec fn wf(&self) -> bool {
        forest_ok(self@)
    }

    /// One more activation can be numbered.
    pub open spec fn has_room(&self) -> bool {
        self@.activations.len() < u32::MAX
    }

    pub fn new() -> (b: Self)
        ensures
            b.wf(),
            b@ == empty_forest(),
    {
        let mut activations: Vec<ConfirmedActivation> = Vec::new();
        activations.push(
            ConfirmedActivation {
                id: 0,
                func_addr: 0,
                func_name: None,
                call_seq: 0,
                call_pc: 0,
                entry_seq: 0,
                entry_pc: 0,
                exit_seq: 0xFFFF_FFFF,
                exit_pc: 0,
                expected_resume: 0,
                resume_seq: 0xFFFF_FFFF,
                parent_id: None,
                children_ids: Vec::new(),
                unresolved_reason: None,
            },
        );
        let b = ActivationBuilder {
            activations,
            bypassed: Vec::new(),
            stack: Vec::new(),
            pending: None,
            last: None,
        };
        assert(b@ =~~= empty_forest());
        b
    }

    /// The innermost open activation; 0 is the root.
    pub fn current_id(&self) -> (id: u32)
        requires
            self.wf(),
        ensures
            id == position(top(self@)),
    {
        if self.stack.len() == 0 {
            0
        } else {
            let id: u32 = self.stack[self.stack.len() - 1];
            id
        }
    }

    fn caller(&self) -> (id: Option<u32>)
        ensures
            id == top(self@),
    {
        if self.stack.len() == 0 {
            None
        } else {
            Some(self.stack[self.stack.len() - 1])
        }
    }

    /// Adds an activation below its caller.
    fn grow(&mut self, a: ConfirmedActivation)
        requires
            old(self).wf(),
            old(self).has_room(),
            a.id == old(self)@.activations.len(),
            position(a.parent_id) < old(self)@.activations.len(),
        ensures
            final(self)@ == (Forest {
                activations: grown(old(self)@.activations, a@),
                ..old(self)@
            }),
            final(self).wf(),
    {
        let ghost before = self@;
        let p: usize = match a.parent_id {
            Some(id) => id as usize,
            None => 0,
        };
        let ghost av = a@;
        let id: u32 = a.id;
        self.activations[p].children_ids.push(id);
        self.activations.push(a);
        assert(self@.activations =~~= grown(before.activations, av));
        assert(self@ =~~= (Forest { activations: grown(before.activations, av), ..before }));
    }

    fn give_up(&mut self, seq: u32, reason: UnresolvedReason)
        requires
            old(self).wf(),
            old(self)@.pending is Some ==> old(self).has_room(),
        ensures
            final(self)@ == given_up(old(self)@, seq, reason),
            final(self).wf(),
    {
        if let Some(c) = self.pending {
            self.pending = None;
            let id: u32 = self.activations.len() as u32;
            let a = ConfirmedActivation {
                id,
                func_addr: 0,
                func_name: None,
                call_seq: c.call_seq,
                call_pc: c.call_pc,
                entry_seq: seq,
                entry_pc: 0,
                exit_seq: 0xFFFF_FFFF,
                exit_pc: 0,
                expected_resume: c.expected_resume,
                resume_seq: 0xFFFF_FFFF,
                parent_id: c.parent_id,
                children_ids: Vec::new(),
                unresolved_reason: Some(reason),
            };
            assert(a@ =~~= lost(id, c, seq, reason));
            self.grow(a);
        }
    }

    /// A call: it waits for the next instruction. A call that still waits is
    /// given up.
    pub fn on_call(&mut self, call_seq: u32, call_pc: u64)
        requires
            old(self).wf(),
            old(self)@.pending is Some ==> old(self).has_room(),
            call_pc + 4 <= u64::MAX,
        ensures
            final(self)@ == after_call(old(self)@, call_seq, call_pc),
            final(self).wf(),
    {
        self.give_up(call_seq, UnresolvedReason::DisplacedByAnotherCall);
        let parent_id = self.caller();
        self.pending = Some(
            PendingCall { call_seq, call_pc, expected_resume: call_pc + 4, parent_id },
        );
    }

    /// An instruction; returns the activation it belongs to. The resume belongs
    /// to the caller.
    pub fn on_insn(&mut self, fact: InsnFact) -> (owner: u32)
        requires
            old(self).wf(),
            old(self)@.pending is Some ==> old(self).has_room(),
        ensures
            final(self)@ == after_insn(old(self)@, fact),
            final(self).wf(),
            owner == position(top(final(self)@)),
    {
        let ghost before = self@;
        if let Some(c) = self.pending {
            self.pending = None;
            if fact.pc == c.expected_resume {
                self.bypassed.push(
                    BypassedCall {
                        call_seq: c.call_seq,
                        call_pc: c.call_pc,
                        expected_resume: c.expected_resume,
                        resume_seq: fact.seq,
                        parent_id: c.parent_id,
                    },
                );
            } else {
                let id: u32 = self.activations.len() as u32;
                let a = ConfirmedActivation {
                    id,
                    func_addr: fact.pc,
                    func_name: None,
                    call_seq: c.call_seq,
                    call_pc: c.call_pc,
                    entry_seq: fact.seq,
                    entry_pc: fact.pc,
                    exit_seq: fact.seq,
                    exit_pc: fact.pc,
                    expected_resume: c.expected_resume,
                    resume_seq: 0xFFFF_FFFF,
                    parent_id: c.parent_id,
                    children_ids: Vec::new(),
                    unresolved_reason: None,
                };
                assert(a@ =~~= entered(id, c, fact));
                self.grow(a);
                self.stack.push(id);
            }
        } else if self.stack.len() > 0 {
            let i: usize = self.stack[self.stack.len() - 1] as usize;
            assert(before.activations[i as int] == self.activations@[i as int]@);
            if self.activations[i].expected_resume == fact.pc {
                let last: InsnFact = match self.last {
                    Some(last) => last,
                    None => fact,
                };
                self.activations[i].exit_seq = last.seq;
                self.activations[i].exit_pc = last.pc;
                self.activations[i].resume_seq = fact.seq;
                self.stack.pop();
                assert(self@.activations =~~= before.activations.update(
                    i as int,
                    closed(before.activations[i as int], last, fact),
                ));
            }
        }
        self.last = Some(fact);
        assert(self@ =~~= after_insn(before, fact));
        self.current_id()
    }

    /// Ends the trace.
    pub fn finish(self, total_lines: u32) -> (tree: ActivationTree)
        requires
            self.wf(),
            self@.pending is Some ==> self.has_room(),
        ensures
            activation_views(tree.activations@) == finished(self@, total_lines),
            tree.bypassed_calls@ == self@.bypassed,
    {
        let ghost start = self@;
        let mut b = self;
        let end: u32 = if total_lines == 0 {
            0
        } else {
            total_lines - 1
        };
        let pc: u64 = match b.last {
            Some(fact) => fact.pc,
            None => 0,
        };
        b.give_up(end, UnresolvedReason::NoNextInsn);
        let ghost g = b@;
        assert(g.stack == start.stack);
        let mut k: usize = 0;
        while k < b.stack.len()
            invariant
                k <= b.stack@.len(),
                b.stack@ == g.stack,
                b.bypassed@ == g.bypassed,
                forest_ok(g),
                end == last_line(total_lines),
                b.activations@.len() == g.activations.len(),
                forall|i: int|
                    #![trigger b.activations@[i]]
                    0 <= i < g.activations.len() ==> b.activations@[i]@ == (if g.stack.take(
                        k as int,
                    ).contains(i as u32) {
                        cut_off(g.activations[i], end, pc)
                    } else {
                        g.activations[i]
                    }),
            decreases b.stack@.len() - k,
        {
            let i: usize = b.stack[k] as usize;
            let ghost taken = g.stack.take(k as int);
            let ghost more = g.stack.take(k + 1);
            assert(more =~= taken.push(g.stack[k as int]));
            let ghost acts = b.activations@;
            b.activations[i].exit_seq = end;
            b.activations[i].exit_pc = pc;
            b.activations[i].unresolved_reason = Some(UnresolvedReason::TraceEndStillActive);
            proof {
                assert forall|j: int| #![trigger b.activations@[j]] 0 <= j < g.activations.len() implies b.activations@[j]@
                    == (if more.contains(j as u32) {
                    cut_off(g.activations[j], end, pc)
                } else {
                    g.activations[j]
                }) by {
                    assert(acts[j]@ == (if taken.contains(j as u32) {
                        cut_off(g.activations[j], end, pc)
                    } else {
                        g.activations[j]
                    }));
                    assert(more.contains(j as u32) == (taken.contains(j as u32) || j as u32
                        == g.stack[k as int])) by {
                        if taken.contains(j as u32) {
                            let w = choose|w: int|
                                0 <= w < taken.len() && taken[w] == j as u32;
                            assert(more[w] == j as u32);
                        }
                        assert(more[k as int] == g.stack[k as int]);
                    }
                    if j == i {
                        assert(b.activations@[j]@ =~~= cut_off(g.activations[j], end, pc));
                    } else {
                        assert(b.activations@[j] == acts[j]);
                    }
                }
            }
            k += 1;
        }
        assert(g.stack.take(g.stack.len() as int) =~= g.stack);
        let ghost acts = b.activations@;
        b.activations[0].exit_seq = end;
        proof {
            assert forall|i: int| 0 <= i < g.activations.len() implies activation_views(
                b.activations@,
            )[i] == #[trigger] finished(start, total_lines)[i] by {
                assert(acts[i]@ == (if g.stack.contains(i as u32) {
                    cut_off(g.activations[i], end, pc)
                } else {
                    g.activations[i]
                }));
                if i == 0 {
                    assert(!g.stack.contains(0));
                    assert(b.activations@[0]@ =~~= (ActivationView {
                        exit_seq: end,
                        ..g.activations[0]
                    }));
                } else {
                    assert(b.activations@[i] == acts[i]);
                }
            }
            assert(activation_views(b.activations@) =~= finished(start, total_lines));
        }
        ActivationTree { activations: b.activations, bypassed_calls: b.bypassed }
    }
}

// ---------------------------------------------------------------------------
// Queries
// ---------------------------------------------------------------------------

/// A confirmed activation that covers a line.
pub open spec fn covers(a: ActivationView, seq: u32) -> bool {
    a.unresolved_reason is None && a.entry_seq <= seq <= a.exit_seq
}

/// The last activation among the first `n` that covers a line, the root apart.
pub open spec fn owner_below(s: Seq<ActivationView>, seq: u32, n: int) -> Option<int>
    decreases n,
{
    if n <= 1 {
        None
    } else if covers(s[n - 1], seq) {
        Some(n - 1)
    } else {
        owner_below(s, seq, n - 1)
    }
}

/// The activation that a line belongs to.
pub open spec fn owner_of(s: Seq<ActivationView>, seq: u32) -> Option<int> {
    owner_below(s, seq, s.len() as int)
}

/// The first of the children from `k` on that satisfies a condition.
pub open spec fn first_child(
    s: Seq<ActivationView>,
    children: Seq<u32>,
    hit: spec_fn(ActivationView) -> bool,
    k: int,
) -> Option<u32>
    decreases children.len() - k,
{
    if k < 0 || k >= children.len() {
        None
    } else if children[k] < s.len() && hit(s[children[k] as int]) {
        Some(children[k])
    } else {
        first_child(s, children, hit, k + 1)
    }
}

/// Called at this line.
pub open spec fn called_at(seq: u32) -> spec_fn(ActivationView) -> bool {
    |a: ActivationView| a.call_seq == seq
}

/// Confirmed, and resumed at this line.
pub open spec fn resumed_at(seq: u32) -> spec_fn(ActivationView) -> bool {
    |a: ActivationView| a.unresolved_reason is None && a.resume_seq == seq
}

/// What is borrowed, by value.
pub open spec fn by_value(owner: Option<&ConfirmedActivation>) -> Option<ConfirmedActivation> {
    match owner {
        Some(a) => Some(*a),
        None => None,
    }
}

/// The children of a caller; without one, those of the root.
pub open spec fn children_of(
    s: Seq<ActivationView>,
    owner: Option<ConfirmedActivation>,
) -> Seq<u32> {
    match owner {
        Some(a) => a.children_ids@,
        None => s[0].children,
    }
}

impl ActivationTree {
    pub open spec fn activation_seq(&self) -> Seq<ActivationView> {
        activation_views(self.activations@)
    }

    /// The innermost confirmed activation that covers a line; `None` if it
    /// belongs to the root. Activations are numbered in the order in which they
    /// were entered, so the innermost is the last.
    pub fn activation_for_seq(&self, seq: u32) -> (r: Option<&ConfirmedActivation>)
        ensures
            match owner_of(self.activation_seq(), seq) {
                Some(i) => r matches Some(a) && *a == self.activations@[i],
                None => r is None,
            },
    {
        let mut n: usize = self.activations.len();
        while n > 1
            invariant
                n <= self.activations@.len(),
                owner_of(self.activation_seq(), seq) == owner_below(
                    self.activation_seq(),
                    seq,
                    n as int,
                ),
            decreases n,
        {
            let a = &self.activations[n - 1];
            assert(self.activation_seq()[n - 1] == self.activations@[n - 1]@);
            if a.unresolved_reason.is_none() && a.entry_seq <= seq && seq <= a.exit_seq {
                return Some(a);
            }
            n -= 1;
        }
        None
    }

    /// The child that was called at a line.
    pub fn find_child_call(&self, owner: Option<&ConfirmedActivation>, seq: u32) -> (r: Option<u32>)
        requires
            self.activations@.len() > 0,
        ensures
            r == first_child(
                self.activation_seq(),
                children_of(self.activation_seq(), by_value(owner)),
                called_at(seq),
                0,
            ),
    {
        let children: &Vec<u32> = match owner {
            Some(a) => &a.children_ids,
            None => &self.activations[0].children_ids,
        };
        let ghost s = self.activation_seq();
        assert(children@ =~= children_of(s, by_value(owner)));
        let mut k: usize = 0;
        while k < children.len()
            invariant
                k <= children@.len(),
                s == self.activation_seq(),
                children@ == children_of(s, by_value(owner)),
                first_child(s, children@, called_at(seq), 0) == first_child(
                    s,
                    children@,
                    called_at(seq),
                    k as int,
                ),
            decreases children@.len() - k,
        {
            let id: u32 = children[k];
            if (id as usize) < self.activations.len() {
                assert(s[id as int] == self.activations@[id as int]@);
                if self.activations[id as usize].call_seq == seq {
                    return Some(id);
                }
            }
            k += 1;
        }
        None
    }

    /// The child that returned to its caller at a line.
    pub fn find_child_resume(&self, owner: Option<&ConfirmedActivation>, seq: u32) -> (r: Option<
        u32,
    >)
        requires
            self.activations@.len() > 0,
        ensures
            r == first_child(
                self.activation_seq(),
                children_of(self.activation_seq(), by_value(owner)),
                resumed_at(seq),
                0,
            ),
    {
        let children: &Vec<u32> = match owner {
            Some(a) => &a.children_ids,
            None => &self.activations[0].children_ids,
        };
        let ghost s = self.activation_seq();
        assert(children@ =~= children_of(s, by_value(owner)));
        let mut k: usize = 0;
        while k < children.len()
            invariant
                k <= children@.len(),
                s == self.activation_seq(),
                children@ == children_of(s, by_value(owner)),
                first_child(s, children@, resumed_at(seq), 0) == first_child(
                    s,
                    children@,
                    resumed_at(seq),
                    k as int,
                ),
            decreases children@.len() - k,
        {
            let id: u32 = children[k];
            if (id as usize) < self.activations.len() {
                assert(s[id as int] == self.activations@[id as int]@);
                let a = &self.activations[id as usize];
                if a.unresolved_reason.is_none() && a.resume_seq == seq {
                    return Some(id);
                }
            }
            k += 1;
        }
        None
    }

    /// Position of the bypassed call at a line.
    pub fn find_bypassed_by_call_seq(&self, seq: u32) -> (r: Option<usize>)
        ensures
            match r {
                Some(i) => i < self.bypassed_calls@.len() && self.bypassed_calls@[i as int].call_seq
                    == seq && forall|j: int|
                    #![trigger self.bypassed_calls@[j]]
                    0 <= j < i ==> self.bypassed_calls@[j].call_seq != seq,
                None => forall|j: int|
                    #![trigger self.bypassed_calls@[j]]
                    0 <= j < self.bypassed_calls@.len() ==> self.bypassed_calls@[j].call_seq != seq,
            },
    {
        let mut i: usize = 0;
        while i < self.bypassed_calls.len()
            invariant
                i <= self.bypassed_calls@.len(),
                forall|j: int|
                    #![trigger self.bypassed_calls@[j]]
                    0 <= j < i ==> self.bypassed_calls@[j].call_seq != seq,
            decreases self.bypassed_calls@.len() - i,
        {
            if self.bypassed_calls[i].call_seq == seq {
                return Some(i);
            }
            i += 1;
        }
        None
    }
}

} // verus!
