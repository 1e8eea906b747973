//! Activations whose targets the calls announce.
//!
//! A call names its target. The next instruction decides whether it was
//! entered; a call that is not entered keeps a record of one line.

use crate::query::call_tree::name_view;
use vstd::prelude::*;

verus! {

/// A call with its boundaries.
#[derive(Debug, Clone)]
pub struct ConfirmedActivation {
    pub id: u32,
    pub func_addr: u64,
    pub func_name: Option<String>,
    /// Line of the call.
    pub call_seq: u32,
    /// First instruction of the callee.
    pub entry_seq: u32,
    /// Last instruction of the callee.
    pub exit_seq: u32,
    /// Address of the instruction after the call.
    pub expected_resume: u64,
    /// Line at which it was reached.
    pub resume_seq: u32,
    pub parent_id: Option<u32>,
    pub children_ids: Vec<u32>,
    /// The trace does not show how the call ends.
    pub unresolved: bool,
}

/// A record as a mathematical value.
#[verifier::ext_equal]
pub struct RecordView {
    pub id: u32,
    pub func_addr: u64,
    pub func_name: Option<Seq<char>>,
    pub call_seq: u32,
    pub entry_seq: u32,
    pub exit_seq: u32,
    pub expected_resume: u64,
    pub resume_seq: u32,
    pub parent_id: Option<u32>,
    pub children: Seq<u32>,
    pub unresolved: bool,
}

impl View for ConfirmedActivation {
    type V = RecordView;

    open spec fn view(&self) -> RecordView {
        RecordView {
            id: self.id,
            func_addr: self.func_addr,
            func_name: name_view(self.func_name),
            call_seq: self.call_seq,
            entry_seq: self.entry_seq,
            exit_seq: self.exit_seq,
            expected_resume: self.expected_resume,
            resume_seq: self.resume_seq,
            parent_id: self.parent_id,
            children: self.children_ids@,
            unresolved: self.unresolved,
        }
    }
}

pub open spec fn record_views(s: Seq<ConfirmedActivation>) -> Seq<RecordView> {
    s.map_values(|a: ConfirmedActivation| a@)
}

/// A call that waits for the next instruction.
#[derive(Debug, Clone, Copy, PartialEq, Eq, Structural)]
pub struct ActivationCandidate {
    pub call_seq: u32,
    pub expected_resume: u64,
    pub func_addr: u64,
    pub parent_id: u32,
}

/// All records of a trace. Record 0 is the root: the trace itself.
#[derive(Debug, Clone)]
pub struct ActivationTree {
    pub activations: Vec<ConfirmedActivation>,
}

// ---------------------------------------------------------------------------
// Model
// ---------------------------------------------------------------------------

/// Records under construction.
#[verifier::ext_equal]
pub struct Records {
    pub records: Seq<RecordView>,
    /// The entered calls, the innermost last.
    pub stack: Seq<u32>,
    pub pending: Option<ActivationCandidate>,
    /// The innermost entered call; 0 is the root.
    pub current: u32,
    /// Line of the latest instruction that was seen.
    pub last: u32,
}

pub open spec fn root_record() -> RecordView {
    RecordView {
        id: 0,
        func_addr: 0,
        func_name: None,
        call_seq: 0,
        entry_seq: 0,
        exit_seq: 0xFFFF_FFFF,
        expected_resume: 0,
        resume_seq: 0xFFFF_FFFF,
        parent_id: None,
        children: Seq::empty(),
        unresolved: false,
    }
}

pub open spec fn no_records() -> Records {
    Records {
        records: seq![root_record()],
        stack: Seq::empty(),
        pending: None,
        current: 0,
        last: 0,
    }
}

/// The record of a call that was decided at line `seq`.
pub open spec fn decided(id: u32, c: ActivationCandidate, seq: u32, unresolved: bool) -> RecordView {
    let end = if unresolved {
        0xFFFF_FFFFu32
    } else {
        seq
    };
    RecordView {
        id,
        func_addr: c.func_addr,
        func_name: None,
        call_seq: c.call_seq,
        entry_seq: seq,
        exit_seq: end,
        expected_resume: c.expected_resume,
        resume_seq: end,
        parent_id: Some(c.parent_id),
        children: Seq::empty(),
        unresolved,
    }
}

/// The waiting call gets its record; if it was entered it is open from now on.
pub open spec fn resolved(r: Records, seq: u32, entered: bool, unresolved: bool) -> Records {
    match r.pending {
        None => r,
        Some(c) => {
            let id = r.records.len() as u32;
            let p = c.parent_id as int;
            Records {
                records: r.records.push(decided(id, c, seq, unresolved)).update(
                    p,
                    RecordView { children: r.records[p].children.push(id), ..r.records[p] },
                ),
                stack: if entered {
                    r.stack.push(id)
                } else {
                    r.stack
                },
                pending: None,
                current: if entered {
                    id
                } else {
                    r.current
                },
                last: r.last,
            }
        },
    }
}

/// A call; one that still waits is recorded as unresolved.
pub open spec fn after_call(r: Records, call_seq: u32, callsite: u64, target: u64) -> Records {
    let s = resolved(r, call_seq, false, true);
    Records {
        pending: Some(
            ActivationCandidate {
                call_seq,
                expected_resume: (callsite + 4) as u64,
                func_addr: target,
                parent_id: s.current,
            },
        ),
        last: call_seq,
        ..s
    }
}

/// The innermost entered call expects to resume at this address.
pub open spec fn resumes(r: Records, pc: u64) -> bool {
    r.stack.len() > 0 && r.records[r.stack.last() as int].expected_resume == pc
}

pub open spec fn line_before(seq: u32) -> u32 {
    if seq == 0 {
        0
    } else {
        (seq - 1) as u32
    }
}

/// An instruction. A waiting call has the first claim on it; otherwise it may
/// be the resume of the innermost entered call, whose exit is then the
/// instruction seen before.
pub open spec fn after_pc(r: Records, pc: u64, seq: u32) -> Records {
    match r.pending {
        Some(c) => Records { last: seq, ..resolved(r, seq, pc != c.expected_resume, false) },
        None => if resumes(r, pc) {
            let i = r.stack.last() as int;
            Records {
                records: r.records.update(
                    i,
                    RecordView { exit_seq: r.last, resume_seq: seq, ..r.records[i] },
                ),
                stack: r.stack.drop_last(),
                pending: None,
                current: match r.records[i].parent_id {
                    Some(p) => p,
                    None => 0,
                },
                last: seq,
            }
        } else {
            Records { last: seq, ..r }
        },
    }
}

/// Whether an instruction is a resume.
pub open spec fn is_resume(r: Records, pc: u64) -> bool {
    match r.pending {
        Some(c) => pc == c.expected_resume,
        None => resumes(r, pc),
    }
}

/// A return is a possible exit of the innermost entered call.
pub open spec fn after_ret(r: Records, seq: u32) -> Records {
    if r.stack.len() == 0 {
        Records { last: seq, ..r }
    } else {
        let i = r.stack.last() as int;
        Records {
            records: r.records.update(i, RecordView { exit_seq: seq, ..r.records[i] }),
            last: seq,
            ..r
        }
    }
}

/// The root gets an address.
pub open spec fn with_root_addr(r: Records, addr: u64) -> Records {
    Records {
        records: r.records.update(0, RecordView { func_addr: addr, ..r.records[0] }),
        ..r
    }
}

/// The innermost entered call gets another target.
pub open spec fn with_current_addr(r: Records, addr: u64) -> Records {
    let i = r.current as int;
    if i == 0 {
        r
    } else {
        Records {
            records: r.records.update(i, RecordView { func_addr: addr, ..r.records[i] }),
            ..r
        }
    }
}

/// The last record that begins at a line is named.
pub open spec fn named(s: Seq<RecordView>, entry_seq: u32, name: Seq<char>) -> Seq<RecordView>
    decreases s.len(),
{
    if s.len() == 0 {
        s
    } else if s.last().entry_seq == entry_seq {
        s.drop_last().push(RecordView { func_name: Some(name), ..s.last() })
    } else {
        named(s.drop_last(), entry_seq, name).push(s.last())
    }
}

pub open spec fn with_name(r: Records, entry_seq: u32, name: Seq<char>) -> Records {
    Records { records: named(r.records, entry_seq, name), ..r }
}

/// The end of the trace: a waiting call is recorded as unresolved, entered
/// calls end unresolved at the last line, and so does the root.
pub open spec fn finished(r: Records, total: u32) -> Seq<RecordView> {
    let g = resolved(r, line_before(total), false, true);
    Seq::new(
        g.records.len(),
        |i: int|
            if i == 0 {
                RecordView { exit_seq: line_before(total), ..g.records[0] }
            } else if r.stack.contains(i as u32) {
                RecordView { unresolved: true, exit_seq: line_before(total), ..g.records[i] }
            } else {
                g.records[i]
            },
    )
}

/// Positions are ids, parents come first, and the entered calls exist.
pub open spec fn records_ok(r: Records) -> bool {
    &&& 0 < r.records.len() <= u32::MAX
    &&& forall|i: int| #![trigger r.records[i]] 0 <= i < r.records.len() ==> r.records[i].id == i
    &&& forall|i: int|
        #![trigger r.records[i]]
        0 < i < r.records.len() ==> (r.records[i].parent_id matches Some(p) && p < i)
    &&& forall|k: int|
        #![trigger r.stack[k]]
        0 <= k < r.stack.len() ==> 0 < r.stack[k] < r.records.len()
    &&& r.current < r.records.len()
    &&& r.pending matches Some(c) ==> c.parent_id < r.records.len()
}

// ---------------------------------------------------------------------------
// Builder
// ---------------------------------------------------------------------------

/// Builds the records of a trace.
pub struct ActivationBuilder {
    pub activations: Vec<ConfirmedActivation>,
    pub active_stack: Vec<u32>,
    pub pending: Option<ActivationCandidate>,
    pub current_id: u32,
    /// Line of the latest instruction that was seen.
    pub last_seq: u32,
}

impl View for ActivationBuilder {
    type V = Records;

    open spec fn view(&self) -> Records {
        Records {
            records: record_views(self.activations@),
            stack: self.active_stack@,
            pending: self.pending,
            current: self.current_id,
            last: self.last_seq,
        }
    }
}

impl Default for ActivationBuilder {
    fn default() -> (b: Self)
        ensures
            b.wf(),
            b@ == no_records(),
    {
        Self::new()
    }
}

impl ActivationBuilder {
    pub open spec fn wf(&self) -> bool {
        records_ok(self@)
    }

    /// A waiting call can still be numbered.
    pub open spec fn has_room(&self) -> bool {
        self@.pending is Some ==> self@.records.len() < u32::MAX
    }

    pub fn new() -> (b: Self)
        ensures
            b.wf(),
            b@ == no_records(),
    {
        let mut activations: Vec<ConfirmedActivation> = Vec::new();
        activations.push(
            ConfirmedActivation {
                id: 0,
                func_addr: 0,
                func_name: None,
                call_seq: 0,
                entry_seq: 0,
                exit_seq: 0xFFFF_FFFF,
                expected_resume: 0,
                resume_seq: 0xFFFF_FFFF,
                parent_id: None,
                children_ids: Vec::new(),
                unresolved: false,
            },
        );
        let b = ActivationBuilder {
            activations,
            active_stack: Vec::new(),
            pending: None,
            current_id: 0,
            last_seq: 0,
        };
        assert(b@ =~~= no_records());
        b
    }

    /// Gives the root the address of the first line.
    pub fn set_root_addr(&mut self, addr: u64)
        requires
            old(self).wf(),
        ensures
            final(self)@ == with_root_addr(old(self)@, addr),
            final(self).wf(),
    {
        let ghost before = self@;
        self.activations[0].func_addr = addr;
        assert(self@ =~~= with_root_addr(before, addr));
    }

    /// Gives the waiting call its record.
    fn resolve_candidate(&mut self, seq: u32, entered: bool, unresolved: bool)
        requires
            old(self).wf(),
            old(self).has_room(),
        ensures
            final(self)@ == resolved(old(self)@, seq, entered, unresolved),
            final(self).wf(),
    {
        let ghost before = self@;
        if let Some(c) = self.pending {
            self.pending = None;
            let id: u32 = self.activations.len() as u32;
            let end: u32 = if unresolved {
                0xFFFF_FFFF
            } else {
                seq
            };
            let a = ConfirmedActivation {
                id,
                func_addr: c.func_addr,
                func_name: None,
                call_seq: c.call_seq,
                entry_seq: seq,
                exit_seq: end,
                expected_resume: c.expected_resume,
                resume_seq: end,
                parent_id: Some(c.parent_id),
                children_ids: Vec::new(),
                unresolved,
            };
            assert(a@ =~~= decided(id, c, seq, unresolved));
            self.activations.push(a);
            self.activations[c.parent_id as usize].children_ids.push(id);
            if entered {
                self.active_stack.push(id);
                self.current_id = id;
            }
            assert(self@.records =~~= resolved(before, seq, entered, unresolved).records);
            assert(self@ =~~= resolved(before, seq, entered, unresolved));
            assert(forall|k: int|
                #![trigger self@.stack[k]]
                0 <= k < before.stack.len() ==> self@.stack[k] == before.stack[k]);
        }
    }

    /// A call at `callsite_addr` to `target_addr`: it waits for the next
    /// instruction. A call that still waits is recorded as unresolved.
    pub fn on_call(&mut self, call_seq: u32, callsite_addr: u64, target_addr: u64)
        requires
            old(self).wf(),
            old(self).has_room(),
            callsite_addr + 4 <= u64::MAX,
        ensures
            final(self)@ == after_call(old(self)@, call_seq, callsite_addr, target_addr),
            final(self).wf(),
    {
        self.resolve_candidate(call_seq, false, true);
        self.pending = Some(
            ActivationCandidate {
                call_seq,
                expected_resume: callsite_addr + 4,
                func_addr: target_addr,
                parent_id: self.current_id,
            },
        );
        self.last_seq = call_seq;
    }

    /// An instruction; returns its line if it is a resume.
    pub fn check_resume(&mut self, current_pc: u64, current_seq: u32) -> (r: Option<u32>)
        requires
            old(self).wf(),
            old(self).has_room(),
        ensures
            final(self)@ == after_pc(old(self)@, current_pc, current_seq),
            r == (if is_resume(old(self)@, current_pc) {
                Some(current_seq)
            } else {
                None
            }),
            final(self).wf(),
    {
        let ghost before = self@;
        if let Some(c) = self.pending {
            let direct: bool = current_pc == c.expected_resume;
            self.resolve_candidate(current_seq, !direct, false);
            self.last_seq = current_seq;
            return if direct {
                Some(current_seq)
            } else {
                None
            };
        }
        let exit: u32 = self.last_seq;
        self.last_seq = current_seq;
        if self.active_stack.len() > 0 {
            let i: usize = self.active_stack[self.active_stack.len() - 1] as usize;
            assert(before.records[i as int] == self.activations@[i as int]@);
            if self.activations[i].expected_resume == current_pc {
                let parent: u32 = match self.activations[i].parent_id {
                    Some(p) => p,
                    None => 0,
                };
                self.activations[i].exit_seq = exit;
                self.activations[i].resume_seq = current_seq;
                self.active_stack.pop();
                self.current_id = parent;
                assert(self@ =~~= after_pc(before, current_pc, current_seq));
                assert(forall|k: int|
                    #![trigger self@.stack[k]]
                    0 <= k < self@.stack.len() ==> self@.stack[k] == before.stack[k]);
                return Some(current_seq);
            }
        }
        None
    }

    /// A return. It closes nothing, but may turn out to be the exit.
    pub fn on_ret(&mut self, seq: u32)
        requires
            old(self).wf(),
        ensures
            final(self)@ == after_ret(old(self)@, seq),
            final(self).wf(),
    {
        let ghost before = self@;
        self.last_seq = seq;
        if self.active_stack.len() > 0 {
            let i: usize = self.active_stack[self.active_stack.len() - 1] as usize;
            assert(before.records[i as int] == self.activations@[i as int]@);
            self.activations[i].exit_seq = seq;
            assert(self@ =~~= after_ret(before, seq));
        }
    }

    /// Names the last record that begins at a line.
    pub fn set_func_name_by_entry_seq(&mut self, entry_seq: u32, name: &str)
        requires
            old(self).wf(),
        ensures
            final(self)@ == with_name(old(self)@, entry_seq, name@),
            final(self).wf(),
    {
        let ghost before = self@;
        let ghost s = before.records;
        let mut n: usize = self.activations.len();
        assert(s.take(n as int) + s.skip(n as int) =~= s);
        assert(named(s.take(n as int), entry_seq, name@) + s.skip(n as int) =~= named(
            s,
            entry_seq,
            name@,
        )) by {
            assert(s.take(n as int) =~= s);
            assert(s.skip(n as int) =~= Seq::empty());
        }
        while n > 0
            invariant
                n <= self.activations@.len(),
                self@ == before,
                before == old(self)@,
                s == before.records,
                records_ok(before),
                named(s, entry_seq, name@) == named(s.take(n as int), entry_seq, name@) + s.skip(
                    n as int,
                ),
            decreases n,
        {
            n -= 1;
            let ghost head = s.take(n + 1);
            assert(head.drop_last() =~= s.take(n as int));
            assert(head.last() == s[n as int]);
            assert(s[n as int] == self.activations@[n as int]@);
            assert(seq![s[n as int]] + s.skip(n + 1) =~= s.skip(n as int));
            if self.activations[n].entry_seq == entry_seq {
                self.activations[n].func_name = Some(name.to_owned());
                proof {
                    let changed = RecordView { func_name: Some(name@), ..s[n as int] };
                    assert(self@.records =~~= s.update(n as int, changed));
                    assert(s.update(n as int, changed) =~= s.take(n as int).push(changed) + s.skip(
                        n + 1,
                    ));
                    assert(self@ =~~= (Records { records: named(s, entry_seq, name@), ..before }));
                }
                return;
            }
            assert(named(s.take(n as int), entry_seq, name@).push(s[n as int]) + s.skip(n + 1)
                =~= named(s.take(n as int), entry_seq, name@) + s.skip(n as int));
        }
        assert(s.take(0) =~= Seq::empty());
        assert(s.skip(0) =~= s);
        assert(named(s, entry_seq, name@) =~= s);
    }

    /// Corrects the target of the innermost entered call.
    pub fn update_current_func_addr(&mut self, addr: u64)
        requires
            old(self).wf(),
        ensures
            final(self)@ == with_current_addr(old(self)@, addr),
            final(self).wf(),
    {
        let ghost before = self@;
        if self.current_id != 0 {
            let i: usize = self.current_id as usize;
            self.activations[i].func_addr = addr;
            assert(self@ =~~= with_current_addr(before, addr));
        }
    }

    /// Ends the trace.
    pub fn finish(self, total_lines: u32) -> (tree: ActivationTree)
        requires
            self.wf(),
            self.has_room(),
        ensures
            record_views(tree.activations@) == finished(self@, total_lines),
    {
        let ghost start = self@;
        let mut b = self;
        let end: u32 = if total_lines == 0 {
            0
        } else {
            total_lines - 1
        };
        b.resolve_candidate(end, false, true);
        let ghost g = b@;
        assert(g.stack == start.stack);
        let mut k: usize = 0;
        while k < b.active_stack.len()
            invariant
                k <= b.active_stack@.len(),
                b.active_stack@ == g.stack,
                records_ok(g),
                end == line_before(total_lines),
                b.activations@.len() == g.records.len(),
                forall|i: int|
                    #![trigger b.activations@[i]]
                    0 <= i < g.records.len() ==> b.activations@[i]@ == (if g.stack.take(
                        k as int,
                    ).contains(i as u32) {
                        RecordView { unresolved: true, exit_seq: end, ..g.records[i] }
                    } else {
                        g.records[i]
                    }),
            decreases b.active_stack@.len() - k,
        {
            let i: usize = b.active_stack[k] as usize;
            let ghost taken = g.stack.take(k as int);
            let ghost more = g.stack.take(k + 1);
            assert(more =~= taken.push(g.stack[k as int]));
            let ghost acts = b.activations@;
            b.activations[i].unresolved = true;
            b.activations[i].exit_seq = end;
            proof {
                assert forall|j: int| #![trigger b.activations@[j]] 0 <= j < g.records.len() implies b.activations@[j]@
                    == (if more.contains(j as u32) {
                    RecordView { unresolved: true, exit_seq: end, ..g.records[j] }
                } else {
                    g.records[j]
                }) by {
                    assert(acts[j]@ == (if taken.contains(j as u32) {
                        RecordView { unresolved: true, exit_seq: end, ..g.records[j] }
                    } else {
                        g.records[j]
                    }));
                    assert(more.contains(j as u32) == (taken.contains(j as u32) || j as u32
                        == g.stack[k as int])) by {
                        if taken.contains(j as u32) {
                            let w = choose|w: int|
                                0 <= w < taken.len() && taken[w] == j as u32;
                            assert(more[w] == j as u32);
                        }
                        assert(more[k as int] == g.stack[k as int]);
                    }
                    if j == i {
                        assert(b.activations@[j]@ =~~= (RecordView {
                            unresolved: true,
                            exit_seq: end,
                            ..g.records[j]
                        }));
                    } else {
                        assert(b.activations@[j] == acts[j]);
                    }
                }
            }
            k += 1;
        }
        assert(g.stack.take(g.stack.len() as int) =~= g.stack);
        let ghost acts = b.activations@;
        b.activations[0].exit_seq = end;
        proof {
            assert forall|i: int| 0 <= i < g.records.len() implies record_views(b.activations@)[i]
                == #[trigger] finished(start, total_lines)[i] by {
                assert(acts[i]@ == (if g.stack.contains(i as u32) {
                    RecordView { unresolved: true, exit_seq: end, ..g.records[i] }
                } else {
                    g.records[i]
                }));
                if i == 0 {
                    assert(!g.stack.contains(0));
                    assert(b.activations@[0]@ =~~= (RecordView {
                        exit_seq: end,
                        ..g.records[0]
                    }));
                } else {
                    assert(b.activations@[i] == acts[i]);
                }
            }
            assert(record_views(b.activations@) =~= finished(start, total_lines));
        }
        ActivationTree { activations: b.activations }
    }
}

// ---------------------------------------------------------------------------
// Laws
// ---------------------------------------------------------------------------

/// Calls that are recorded or still wait.
pub open spec fn calls_seen(r: Records) -> int {
    r.records.len() - 1 + (if r.pending is Some {
        1int
    } else {
        0
    })
}

/// No call is lost and none is counted twice: a call adds one, nothing else
/// adds or takes away, and in the end each has a record.
pub proof fn law_every_call_has_one_record(
    r: Records,
    seq: u32,
    callsite: u64,
    target: u64,
    pc: u64,
    total: u32,
)
    requires
        records_ok(r),
        r.records.len() < u32::MAX,
    ensures
        calls_seen(after_call(r, seq, callsite, target)) == calls_seen(r) + 1,
        calls_seen(after_pc(r, pc, seq)) == calls_seen(r),
        calls_seen(after_ret(r, seq)) == calls_seen(r),
        finished(r, total).len() - 1 == calls_seen(r),
{
    if r.stack.len() > 0 {
        assert(r.stack[r.stack.len() - 1] < r.records.len());
    }
}

} // verus!
