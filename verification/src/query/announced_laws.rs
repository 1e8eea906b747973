//! What holds of the records of announced calls, whatever the trace.

use crate::query::announced::{
    after_call, after_pc, after_ret, calls_seen, decided, finished, is_resume, line_before, named, no_records,
    records_ok, resolved, resumes, with_current_addr, with_name, with_root_addr,
    ActivationCandidate, RecordView, Records,
};
use vstd::prelude::*;

verus! {

// ---------------------------------------------------------------------------
// Traces
// ---------------------------------------------------------------------------

/// What a builder is told.
pub enum Event {
    RootAddr(u64),
    Call { seq: u32, callsite: u64, target: u64 },
    Insn { pc: u64, seq: u32 },
    Ret { seq: u32 },
    Name { entry_seq: u32, name: Seq<char> },
    CurrentAddr(u64),
}

/// The records after one event.
pub open spec fn after(r: Records, e: Event) -> Records {
    match e {
        Event::RootAddr(addr) => with_root_addr(r, addr),
        Event::Call { seq, callsite, target } => after_call(r, seq, callsite, target),
        Event::Insn { pc, seq } => after_pc(r, pc, seq),
        Event::Ret { seq } => after_ret(r, seq),
        Event::Name { entry_seq, name } => with_name(r, entry_seq, name),
        Event::CurrentAddr(addr) => with_current_addr(r, addr),
    }
}

/// The records after some events.
pub open spec fn run(r: Records, events: Seq<Event>) -> Records
    decreases events.len(),
{
    if events.len() == 0 {
        r
    } else {
        after(run(r, events.drop_last()), events.last())
    }
}

/// The records of a new builder after some events.
pub open spec fn built(events: Seq<Event>) -> Records {
    run(no_records(), events)
}

/// How many of the events are calls.
pub open spec fn calls_in(events: Seq<Event>) -> int
    decreases events.len(),
{
    if events.len() == 0 {
        0
    } else {
        calls_in(events.drop_last()) + (if events.last() is Call {
            1int
        } else {
            0
        })
    }
}

/// Line of the latest instruction among the events.
pub open spec fn latest_line(events: Seq<Event>) -> u32
    decreases events.len(),
{
    if events.len() == 0 {
        0
    } else {
        match events.last() {
            Event::Call { seq, .. } => seq,
            Event::Insn { seq, .. } => seq,
            Event::Ret { seq } => seq,
            _ => latest_line(events.drop_last()),
        }
    }
}

/// What the builder answers to each instruction.
pub open spec fn answers(r: Records, events: Seq<Event>) -> Seq<Option<u32>>
    decreases events.len(),
{
    if events.len() == 0 {
        Seq::empty()
    } else {
        let before = answers(r, events.drop_last());
        match events.last() {
            Event::Insn { pc, seq } => before.push(
                if is_resume(run(r, events.drop_last()), pc) {
                    Some(seq)
                } else {
                    None
                },
            ),
            _ => before,
        }
    }
}

/// How many of the answers are resumes.
pub open spec fn resumes_in(s: Seq<Option<u32>>) -> int
    decreases s.len(),
{
    if s.len() == 0 {
        0
    } else {
        resumes_in(s.drop_last()) + (if s.last() is Some {
            1int
        } else {
            0
        })
    }
}

/// The innermost entered call that has not resumed; 0 if there is none.
pub open spec fn innermost(r: Records) -> u32 {
    if r.stack.len() == 0 {
        0
    } else {
        r.stack.last()
    }
}

/// The record whose resume an event is.
pub open spec fn resumed_by(r: Records, e: Event) -> Option<int> {
    match e {
        Event::Insn { pc, seq } if is_resume(r, pc) => Some(
            if r.pending is Some {
                r.records.len() as int
            } else {
                r.stack.last() as int
            },
        ),
        _ => None,
    }
}

/// The record whose entry an event is.
pub open spec fn entered_by(r: Records, e: Event) -> Option<int> {
    match e {
        Event::Insn { pc, seq } if r.pending is Some && !is_resume(r, pc) => Some(
            r.records.len() as int,
        ),
        _ => None,
    }
}

/// Record `i` reached its resume.
pub open spec fn resumed(events: Seq<Event>, i: int) -> bool
    decreases events.len(),
{
    events.len() > 0 && (resumed(events.drop_last(), i) || resumed_by(
        built(events.drop_last()),
        events.last(),
    ) == Some(i))
}

/// The body of record `i` was entered.
pub open spec fn entered(events: Seq<Event>, i: int) -> bool
    decreases events.len(),
{
    events.len() > 0 && (entered(events.drop_last(), i) || entered_by(
        built(events.drop_last()),
        events.last(),
    ) == Some(i))
}

/// Resolved ones among the first `n` records, the root left out.
pub open spec fn resolved_in(s: Seq<RecordView>, n: int) -> int
    decreases n,
{
    if n <= 1 {
        0
    } else {
        resolved_in(s, n - 1) + (if s[n - 1].unresolved {
            0int
        } else {
            1
        })
    }
}

// ---------------------------------------------------------------------------
// Steps
// ---------------------------------------------------------------------------

/// Every record is in the list of its parent, and the lists ascend.
pub closed spec fn lists_ok(s: Seq<RecordView>) -> bool {
    &&& forall|q: int, a: int, b: int|
        #![trigger s[q].children[a], s[q].children[b]]
        0 <= q < s.len() && 0 <= a < b < s[q].children.len() ==> s[q].children[a]
            < s[q].children[b]
    &&& forall|q: int, k: int|
        #![trigger s[q].children[k]]
        0 <= q < s.len() && 0 <= k < s[q].children.len() ==> {
            &&& 0 < s[q].children[k] < s.len()
            &&& s[s[q].children[k] as int].parent_id == Some(q as u32)
        }
    &&& forall|i: int|
        #![trigger s[i]]
        0 < i < s.len() ==> (s[i].parent_id matches Some(p) && s[p as int].children.contains(
            i as u32,
        ))
}

/// The entered calls are each other's callers, from the root on.
pub closed spec fn stack_ok(r: Records) -> bool {
    &&& forall|a: int, b: int|
        #![trigger r.stack[a], r.stack[b]]
        0 <= a < b < r.stack.len() ==> r.stack[a] < r.stack[b]
    &&& forall|k: int|
        #![trigger r.stack[k]]
        0 <= k < r.stack.len() ==> {
            &&& !r.records[r.stack[k] as int].unresolved
            &&& r.records[r.stack[k] as int].parent_id == Some(
                if k == 0 {
                    0u32
                } else {
                    r.stack[k - 1]
                },
            )
        }
    &&& r.current == innermost(r)
    &&& r.pending matches Some(c) ==> c.parent_id == r.current
    &&& r.records[0].parent_id is None
    &&& !r.records[0].unresolved
    &&& forall|i: int|
        #![trigger r.records[i]]
        0 < i < r.records.len() && r.records[i].unresolved ==> r.records[i].exit_seq == u32::MAX
            && r.records[i].resume_seq == u32::MAX
}

pub closed spec fn state_ok(r: Records) -> bool {
    records_ok(r) && lists_ok(r.records) && stack_ok(r)
}

/// What no later event changes of a record.
pub open spec fn lasting(a: RecordView, b: RecordView) -> bool {
    &&& a.id == b.id
    &&& a.call_seq == b.call_seq
    &&& a.entry_seq == b.entry_seq
    &&& a.expected_resume == b.expected_resume
    &&& a.parent_id == b.parent_id
    &&& a.unresolved == b.unresolved
}

/// The position of the last record that begins at a line; -1 if there is none.
spec fn last_at(s: Seq<RecordView>, entry_seq: u32) -> int
    decreases s.len(),
{
    if s.len() == 0 {
        -1
    } else if s.last().entry_seq == entry_seq {
        s.len() - 1
    } else {
        last_at(s.drop_last(), entry_seq)
    }
}

proof fn lemma_named(s: Seq<RecordView>, entry_seq: u32, name: Seq<char>)
    ensures
        named(s, entry_seq, name).len() == s.len(),
        last_at(s, entry_seq) < s.len(),
        forall|i: int|
            #![trigger named(s, entry_seq, name)[i]]
            0 <= i < s.len() ==> named(s, entry_seq, name)[i] == (if i == last_at(s, entry_seq) {
                RecordView { func_name: Some(name), ..s[i] }
            } else {
                s[i]
            }),
    decreases s.len(),
{
    if s.len() > 0 && s.last().entry_seq != entry_seq {
        lemma_named(s.drop_last(), entry_seq, name);
        assert forall|i: int| #![trigger named(s, entry_seq, name)[i]] 0 <= i < s.len() implies {
            named(s, entry_seq, name)[i] == (if i == last_at(s, entry_seq) {
                RecordView { func_name: Some(name), ..s[i] }
            } else {
                s[i]
            })
        } by {
            if i < s.len() - 1 {
                assert(named(s, entry_seq, name)[i] == named(s.drop_last(), entry_seq, name)[i]);
            }
        }
    }
}

/// The event decides the waiting call.
pub open spec fn decides(r: Records, e: Event) -> bool {
    r.pending is Some && (e is Call || e is Insn)
}

/// An event that decides nothing leaves the records as they were but for names,
/// targets, and the ends of entered calls.
pub proof fn lemma_quiet(r: Records, e: Event)
    requires
        records_ok(r),
        !decides(r, e),
    ensures
        quiet(r, after(r, e)),
{
    if r.stack.len() > 0 {
        assert(0 < r.stack[r.stack.len() - 1] < r.records.len());
        assert(r.stack.contains(r.stack.last()));
    }
    if let Event::Name { entry_seq, name } = e {
        lemma_named(r.records, entry_seq, name);
    }
}

/// Deciding the waiting call adds its record to the list of its parent.
pub proof fn lemma_decided(r: Records, seq: u32, enters: bool, unresolved: bool)
    requires
        records_ok(r),
        r.pending is Some,
        r.records.len() < u32::MAX,
    ensures
        ({
            let g = resolved(r, seq, enters, unresolved);
            let c = r.pending->0;
            let id = r.records.len() as u32;
            &&& g.records.len() == r.records.len() + 1
            &&& g.records[id as int] == decided(id, c, seq, unresolved)
            &&& forall|i: int|
                #![trigger g.records[i]]
                0 <= i < r.records.len() ==> g.records[i] == (RecordView {
                    children: if i == c.parent_id {
                        r.records[i].children.push(id)
                    } else {
                        r.records[i].children
                    },
                    ..r.records[i]
                })
        }),
{
}

proof fn lemma_decided_lists(r: Records, seq: u32, enters: bool, unresolved: bool)
    requires
        records_ok(r),
        lists_ok(r.records),
        r.pending is Some,
        r.records.len() < u32::MAX,
    ensures
        lists_ok(resolved(r, seq, enters, unresolved).records),
{
    lemma_decided(r, seq, enters, unresolved);
    let s = r.records;
    let t = resolved(r, seq, enters, unresolved).records;
    let p = r.pending->0.parent_id as int;
    let id = s.len() as u32;
    assert forall|q: int, a: int, b: int|
        #![trigger t[q].children[a], t[q].children[b]]
        0 <= q < t.len() && 0 <= a < b < t[q].children.len() implies t[q].children[a]
        < t[q].children[b] by {
        assert(q < s.len());
        assert(s[q].children[a] == t[q].children[a]);
        if b < s[q].children.len() {
            assert(s[q].children[b] == t[q].children[b]);
        }
    }
    assert forall|q: int, k: int|
        #![trigger t[q].children[k]]
        0 <= q < t.len() && 0 <= k < t[q].children.len() implies {
        &&& 0 < t[q].children[k] < t.len()
        &&& t[t[q].children[k] as int].parent_id == Some(q as u32)
    } by {
        assert(q < s.len());
        if k < s[q].children.len() {
            assert(s[q].children[k] == t[q].children[k]);
            assert(t[s[q].children[k] as int].parent_id == s[s[q].children[k] as int].parent_id);
        }
    }
    assert forall|i: int| #![trigger t[i]] 0 < i < t.len() implies {
        t[i].parent_id matches Some(q) && t[q as int].children.contains(i as u32)
    } by {
        if i < s.len() {
            let q = s[i].parent_id->0 as int;
            assert(q < i);
            let k = choose|k: int| 0 <= k < s[q].children.len() && s[q].children[k] == i as u32;
            assert(t[q].children[k] == i as u32);
        } else {
            assert(t[p].children[s[p].children.len() as int] == id);
        }
    }
}

proof fn lemma_decided_state(r: Records, seq: u32, enters: bool, unresolved: bool)
    requires
        state_ok(r),
        r.pending is Some ==> r.records.len() < u32::MAX,
        !(enters && unresolved),
    ensures
        state_ok(resolved(r, seq, enters, unresolved)),
        resolved(r, seq, enters, unresolved).records.len() == r.records.len() + (
        if r.pending is Some {
            1int
        } else {
            0
        }),
        resolved(r, seq, enters, unresolved).pending is None,
{
    if r.pending is Some {
        lemma_decided(r, seq, enters, unresolved);
        lemma_decided_lists(r, seq, enters, unresolved);
        let g = resolved(r, seq, enters, unresolved);
        assert forall|k: int| #![trigger g.stack[k]] 0 <= k < g.stack.len() implies {
            &&& 0 < g.stack[k] < g.records.len()
            &&& !g.records[g.stack[k] as int].unresolved
            &&& g.records[g.stack[k] as int].parent_id == Some(
                if k == 0 {
                    0u32
                } else {
                    g.stack[k - 1]
                },
            )
        } by {
            if k < r.stack.len() {
                assert(g.stack[k] == r.stack[k]);
                if k > 0 {
                    assert(g.stack[k - 1] == r.stack[k - 1]);
                }
            } else if k > 0 {
                assert(g.stack[k - 1] == r.stack.last());
            }
        }
        assert forall|a: int, b: int|
            #![trigger g.stack[a], g.stack[b]]
            0 <= a < b < g.stack.len() implies g.stack[a] < g.stack[b] by {
            assert(r.stack[a] < r.records.len());
            if b < r.stack.len() {
                assert(r.stack[a] < r.stack[b]);
            }
        }
        assert(records_ok(g));
        assert(stack_ok(g));
    }
}

proof fn lemma_quiet_lists(s: Seq<RecordView>, t: Seq<RecordView>)
    requires
        lists_ok(s),
        s.len() == t.len(),
        forall|i: int|
            #![trigger t[i]]
            0 <= i < s.len() ==> s[i].parent_id == t[i].parent_id && s[i].children
                == t[i].children,
        forall|i: int|
            #![trigger s[i]]
            0 < i < s.len() ==> (s[i].parent_id matches Some(p) && p < i),
    ensures
        lists_ok(t),
{
    assert forall|q: int, k: int|
        #![trigger t[q].children[k]]
        0 <= q < t.len() && 0 <= k < t[q].children.len() implies {
        &&& 0 < t[q].children[k] < t.len()
        &&& t[t[q].children[k] as int].parent_id == Some(q as u32)
    } by {
        let c = s[q].children[k];
        assert(t[q].children[k] == c);
        assert(t[c as int].parent_id == s[c as int].parent_id);
    }
    assert forall|q: int, a: int, b: int|
        #![trigger t[q].children[a], t[q].children[b]]
        0 <= q < t.len() && 0 <= a < b < t[q].children.len() implies t[q].children[a]
        < t[q].children[b] by {
        assert(s[q].children[a] < s[q].children[b]);
    }
    assert forall|i: int| #![trigger t[i]] 0 < i < t.len() implies {
        t[i].parent_id matches Some(q) && t[q as int].children.contains(i as u32)
    } by {
        assert(t[i].parent_id == s[i].parent_id);
        let q = s[i].parent_id->0 as int;
        assert(s[q].children.contains(i as u32));
        assert(t[q].children == s[q].children);
    }
}

/// The records are the same but for names, targets, and the ends of entered
/// calls.
pub open spec fn quiet(r: Records, g: Records) -> bool {
    &&& g.records.len() == r.records.len()
    &&& forall|i: int|
        #![trigger g.records[i]]
        0 <= i < r.records.len() ==> {
            &&& lasting(r.records[i], g.records[i])
            &&& r.records[i].children == g.records[i].children
            &&& !r.stack.contains(i as u32) ==> {
                &&& r.records[i].exit_seq == g.records[i].exit_seq
                &&& r.records[i].resume_seq == g.records[i].resume_seq
            }
        }
}

proof fn lemma_quiet_records(r: Records, g: Records)
    requires
        state_ok(r),
        quiet(r, g),
    ensures
        lists_ok(g.records),
        forall|i: int|
            #![trigger g.records[i]]
            0 < i < g.records.len() ==> {
                &&& (g.records[i].parent_id matches Some(p) && p < i)
                &&& (g.records[i].unresolved ==> g.records[i].exit_seq == u32::MAX
                    && g.records[i].resume_seq == u32::MAX)
            },
{
    lemma_quiet_lists(r.records, g.records);
    assert forall|i: int| #![trigger g.records[i]] 0 < i < g.records.len() implies {
        &&& (g.records[i].parent_id matches Some(p) && p < i)
        &&& (g.records[i].unresolved ==> g.records[i].exit_seq == u32::MAX
            && g.records[i].resume_seq == u32::MAX)
    } by {
        assert(lasting(r.records[i], g.records[i]));
        if r.records[i].unresolved && r.stack.contains(i as u32) {
            let k = choose|k: int| 0 <= k < r.stack.len() && r.stack[k] == i as u32;
            assert(!r.records[r.stack[k] as int].unresolved);
        }
    }
}

proof fn lemma_quiet_stack(r: Records, g: Records)
    requires
        state_ok(r),
        quiet(r, g),
        (g.stack == r.stack && g.current == r.current) || (r.stack.len() > 0 && g.stack
            == r.stack.drop_last() && Some(g.current)
            == r.records[r.stack.last() as int].parent_id),
        g.pending matches Some(c) ==> c.parent_id == g.current,
    ensures
        state_ok(g),
{
    lemma_quiet_records(r, g);
    if r.stack.len() > 0 {
        let n = r.stack.len() - 1;
        assert(r.records[r.stack[n] as int].parent_id == Some(
            if n == 0 {
                0u32
            } else {
                r.stack[n - 1]
            },
        ));
    }
    assert forall|k: int| #![trigger g.stack[k]] 0 <= k < g.stack.len() implies {
        &&& 0 < g.stack[k] < g.records.len()
        &&& !g.records[g.stack[k] as int].unresolved
        &&& g.records[g.stack[k] as int].parent_id == Some(
            if k == 0 {
                0u32
            } else {
                g.stack[k - 1]
            },
        )
    } by {
        assert(g.stack[k] == r.stack[k]);
        assert(lasting(r.records[r.stack[k] as int], g.records[r.stack[k] as int]));
        if k > 0 {
            assert(g.stack[k - 1] == r.stack[k - 1]);
        }
    }
    assert(lasting(r.records[0], g.records[0]));
    assert(g.current == innermost(g));
    assert(g.current < g.records.len()) by {
        if g.stack.len() > 0 {
            assert(g.stack[g.stack.len() - 1] < g.records.len());
        }
    }
    assert forall|i: int| #![trigger g.records[i]] 0 <= i < g.records.len() implies g.records[i].id
        == i by {
        assert(lasting(r.records[i], g.records[i]));
    }
    assert(records_ok(g));
    assert(stack_ok(g));
}

proof fn lemma_quiet_state(r: Records, e: Event)
    requires
        state_ok(r),
        !decides(r, e),
    ensures
        state_ok(after(r, e)),
{
    lemma_quiet(r, e);
    if r.stack.len() > 0 {
        assert(r.records[r.stack[r.stack.len() - 1] as int].parent_id is Some);
    }
    lemma_quiet_stack(r, after(r, e));
}

proof fn lemma_step(r: Records, e: Event)
    requires
        state_ok(r),
        decides(r, e) ==> r.records.len() < u32::MAX,
    ensures
        state_ok(after(r, e)),
        after(r, e).records.len() == r.records.len() + (if decides(r, e) {
            1int
        } else {
            0
        }),
        after(r, e).pending is Some <==> e is Call || r.pending is Some && !(e is Insn),
{
    if decides(r, e) {
        match e {
            Event::Call { seq, callsite, target } => {
                lemma_decided_state(r, seq, false, true);
                let s = resolved(r, seq, false, true);
                let g = after(r, e);
                assert(g.records == s.records && g.stack == s.stack && g.current == s.current);
                assert(records_ok(g));
                assert(stack_ok(g));
            },
            Event::Insn { pc, seq } => {
                let enters = pc != r.pending->0.expected_resume;
                lemma_decided_state(r, seq, enters, false);
                let s = resolved(r, seq, enters, false);
                let g = after(r, e);
                assert(g.records == s.records && g.stack == s.stack && g.current == s.current);
                assert(records_ok(g));
                assert(stack_ok(g));
            },
            _ => {},
        }
    } else {
        lemma_quiet_state(r, e);
        lemma_quiet(r, e);
    }
}

proof fn lemma_run(r: Records, events: Seq<Event>)
    requires
        state_ok(r),
        calls_seen(r) + calls_in(events) < u32::MAX,
    ensures
        state_ok(run(r, events)),
        calls_seen(run(r, events)) == calls_seen(r) + calls_in(events),
        0 <= calls_in(events),
    decreases events.len(),
{
    if events.len() > 0 {
        lemma_run(r, events.drop_last());
        lemma_step(run(r, events.drop_last()), events.last());
    }
}

pub proof fn lemma_built(events: Seq<Event>)
    requires
        calls_in(events) < u32::MAX,
    ensures
        state_ok(built(events)),
        calls_seen(built(events)) == calls_in(events),
        0 <= calls_in(events),
{
    assert(state_ok(no_records()));
    lemma_run(no_records(), events);
}

/// Any number of calls that 32 bits can count can be recorded.
pub proof fn law_calls_have_room(events: Seq<Event>)
    requires
        calls_in(events) < u32::MAX,
    ensures
        records_ok(built(events)),
        built(events).pending is Some ==> built(events).records.len() < u32::MAX,
{
    lemma_built(events);
}

pub proof fn lemma_calls_grow(events: Seq<Event>, n: int)
    requires
        0 <= n <= events.len(),
    ensures
        0 <= calls_in(events.take(n)) <= calls_in(events),
    decreases events.len(),
{
    if n == events.len() {
        assert(events.take(n) =~= events);
        if n > 0 {
            lemma_calls_grow(events.drop_last(), 0);
        }
    } else {
        assert(events.drop_last().take(n) =~= events.take(n));
        lemma_calls_grow(events.drop_last(), n);
    }
}

// ---------------------------------------------------------------------------
// The end of the trace
// ---------------------------------------------------------------------------

pub proof fn lemma_finished(r: Records, total: u32)
    requires
        state_ok(r),
        calls_seen(r) < u32::MAX,
    ensures
        ({
            let g = resolved(r, line_before(total), false, true);
            let t = finished(r, total);
            &&& state_ok(g)
            &&& g.stack == r.stack
            &&& t.len() == g.records.len() == calls_seen(r) + 1
            &&& lists_ok(t)
            &&& forall|i: int|
                #![trigger t[i]]
                0 < i < t.len() ==> t[i] == (if r.stack.contains(i as u32) {
                    RecordView { unresolved: true, exit_seq: line_before(total), ..g.records[i] }
                } else {
                    g.records[i]
                })
            &&& t[0] == (RecordView { exit_seq: line_before(total), ..g.records[0] })
        }),
{
    lemma_decided_state(r, line_before(total), false, true);
    let g = resolved(r, line_before(total), false, true);
    let t = finished(r, total);
    lemma_quiet_lists(g.records, t);
}

/// The records form a tree: each call has one record, whose number is its
/// position; each record but the root stands once in the list of a record
/// before it and in no other list; the lists ascend; and the root lasts to the
/// last line.
pub proof fn law_records_form_a_tree(events: Seq<Event>, total: u32)
    requires
        calls_in(events) < u32::MAX,
    ensures
        ({
            let t = finished(built(events), total);
            &&& t.len() == calls_in(events) + 1
            &&& forall|i: int| #![trigger t[i]] 0 <= i < t.len() ==> t[i].id == i
            &&& t[0].parent_id is None
            &&& t[0].exit_seq == line_before(total)
            &&& forall|i: int|
                #![trigger t[i]]
                0 < i < t.len() ==> (t[i].parent_id matches Some(p) && p < i)
            &&& forall|i: int, q: int|
                #![trigger t[i], t[q]]
                0 < i < t.len() && 0 <= q < t.len() ==> (t[q].children.contains(i as u32)
                    <==> t[i].parent_id == Some(q as u32))
            &&& forall|q: int, a: int, b: int|
                #![trigger t[q].children[a], t[q].children[b]]
                0 <= q < t.len() && 0 <= a < b < t[q].children.len() ==> t[q].children[a]
                    < t[q].children[b]
            &&& forall|q: int, k: int|
                #![trigger t[q].children[k]]
                0 <= q < t.len() && 0 <= k < t[q].children.len() ==> 0 < t[q].children[k]
                    < t.len()
        }),
{
    lemma_built(events);
    let r = built(events);
    lemma_finished(r, total);
    let g = resolved(r, line_before(total), false, true);
    let t = finished(r, total);
    assert forall|i: int| #![trigger t[i]] 0 <= i < t.len() implies t[i].id == i by {
        assert(g.records[i].id == i);
    }
    assert forall|i: int| #![trigger t[i]] 0 < i < t.len() implies {
        t[i].parent_id matches Some(p) && p < i
    } by {
        assert(g.records[i].parent_id matches Some(p) && p < i);
    }
    assert forall|i: int, q: int|
        #![trigger t[i], t[q]]
        0 < i < t.len() && 0 <= q < t.len() implies (t[q].children.contains(i as u32)
        <==> t[i].parent_id == Some(q as u32)) by {
        if t[q].children.contains(i as u32) {
            let k = choose|k: int| 0 <= k < t[q].children.len() && t[q].children[k] == i as u32;
            assert(t[t[q].children[k] as int].parent_id == Some(q as u32));
        }
    }
}

// ---------------------------------------------------------------------------
// Resolved records
// ---------------------------------------------------------------------------

/// How many numbers from 1 to before `n` have a property.
spec fn count_of(p: spec_fn(int) -> bool, n: int) -> int
    decreases n,
{
    if n <= 1 {
        0
    } else {
        count_of(p, n - 1) + (if p(n - 1) {
            1int
        } else {
            0
        })
    }
}

proof fn lemma_count_same(p: spec_fn(int) -> bool, q: spec_fn(int) -> bool, n: int)
    requires
        forall|i: int| #![trigger p(i)] 0 < i < n ==> p(i) == q(i),
    ensures
        count_of(p, n) == count_of(q, n),
    decreases n,
{
    if n > 1 {
        lemma_count_same(p, q, n - 1);
        assert(p(n - 1) == q(n - 1));
    }
}

proof fn lemma_count_one(p: spec_fn(int) -> bool, q: spec_fn(int) -> bool, j: int, n: int)
    requires
        0 < j < n,
        !p(j),
        q(j),
        forall|i: int| #![trigger p(i)] 0 < i < n && i != j ==> p(i) == q(i),
    ensures
        count_of(q, n) == count_of(p, n) + 1,
    decreases n,
{
    if j == n - 1 {
        lemma_count_same(p, q, n - 1);
    } else {
        lemma_count_one(p, q, j, n - 1);
        assert(p(n - 1) == q(n - 1));
    }
}

proof fn lemma_count_resolved(t: Seq<RecordView>, p: spec_fn(int) -> bool, n: int)
    requires
        n <= t.len(),
        forall|i: int| #![trigger t[i]] 0 < i < n ==> p(i) == !t[i].unresolved,
    ensures
        resolved_in(t, n) == count_of(p, n),
    decreases n,
{
    if n > 1 {
        lemma_count_resolved(t, p, n - 1);
        assert(p(n - 1) == !t[n - 1].unresolved);
    }
}

spec fn reached(events: Seq<Event>) -> spec_fn(int) -> bool {
    |i: int| resumed(events, i)
}

/// What one event does to the marks of the records.
spec fn marks_step(r: Records, e: Event, g: Records) -> bool {
    let n = r.records.len() as int;
    &&& n <= g.records.len() <= n + 1
    &&& forall|i: int|
        #![trigger g.records[i]]
        0 < i < g.records.len() ==> {
            &&& g.stack.contains(i as u32) <==> (r.stack.contains(i as u32) || entered_by(r, e)
                == Some(i)) && resumed_by(r, e) != Some(i)
            &&& g.records[i].unresolved <==> (if i < n {
                r.records[i].unresolved
            } else {
                entered_by(r, e) != Some(i) && resumed_by(r, e) != Some(i)
            })
        }
    &&& (entered_by(r, e) matches Some(j) ==> j == n && n < g.records.len())
    &&& (resumed_by(r, e) matches Some(j) ==> 0 < j < g.records.len() && (j == n
        || r.stack.contains(j as u32)))
}

pub proof fn lemma_beyond_stack(r: Records, i: int)
    requires
        records_ok(r),
        r.records.len() <= i <= u32::MAX,
    ensures
        !r.stack.contains(i as u32),
{
    if r.stack.contains(i as u32) {
        let k = choose|k: int| 0 <= k < r.stack.len() && r.stack[k] == i as u32;
        assert(r.stack[k] < r.records.len());
    }
}

proof fn lemma_marks_decided(r: Records, e: Event)
    requires
        state_ok(r),
        decides(r, e),
        r.records.len() < u32::MAX,
    ensures
        marks_step(r, e, after(r, e)),
{
    let g = after(r, e);
    let n = r.records.len() as int;
    let (seq, enters, unresolved): (u32, bool, bool) = match e {
        Event::Insn { pc, seq } => (seq, pc != r.pending->0.expected_resume, false),
        Event::Call { seq, .. } => (seq, false, true),
        _ => (0, false, false),
    };
    let s = resolved(r, seq, enters, unresolved);
    lemma_decided(r, seq, enters, unresolved);
    lemma_beyond_stack(r, n);
    assert(g.records == s.records && g.stack == s.stack);
    assert forall|i: int| #![trigger g.records[i]] 0 < i < g.records.len() implies {
        &&& g.stack.contains(i as u32) <==> (r.stack.contains(i as u32) || entered_by(r, e)
            == Some(i)) && resumed_by(r, e) != Some(i)
        &&& g.records[i].unresolved <==> (if i < n {
            r.records[i].unresolved
        } else {
            entered_by(r, e) != Some(i) && resumed_by(r, e) != Some(i)
        })
    } by {
        assert(s.records[i] == g.records[i]);
        if r.stack.contains(i as u32) {
            let k = choose|k: int| 0 <= k < r.stack.len() && r.stack[k] == i as u32;
            assert(g.stack[k] == i as u32);
        }
        if g.stack.contains(i as u32) && !r.stack.contains(i as u32) {
            let k = choose|k: int| 0 <= k < g.stack.len() && g.stack[k] == i as u32;
            if k < r.stack.len() {
                assert(r.stack[k] == i as u32);
            }
            assert(enters && i == n);
        }
        if enters && i == n {
            assert(g.stack[g.stack.len() - 1] == i as u32);
        }
    }
}

proof fn lemma_marks_quiet(r: Records, e: Event)
    requires
        state_ok(r),
        !decides(r, e),
    ensures
        marks_step(r, e, after(r, e)),
{
    let g = after(r, e);
    lemma_quiet(r, e);
    assert(entered_by(r, e) is None);
    if resumed_by(r, e) is Some {
        let top = r.stack.len() - 1;
        let j = r.stack[top] as int;
        assert(0 < j < r.records.len());
        assert(r.stack.contains(j as u32));
        assert(g.stack == r.stack.drop_last());
        assert forall|i: int| 0 < i < g.records.len() implies (#[trigger] g.stack.contains(i as u32)
            <==> r.stack.contains(i as u32) && i != j) by {
            if r.stack.contains(i as u32) && i != j {
                let k = choose|k: int| 0 <= k < r.stack.len() && r.stack[k] == i as u32;
                assert(g.stack[k] == i as u32);
            }
            if g.stack.contains(i as u32) {
                let k = choose|k: int| 0 <= k < g.stack.len() && g.stack[k] == i as u32;
                assert(r.stack[k] == i as u32);
                assert(r.stack[k] < r.stack[top]);
            }
        }
    } else {
        assert(g.stack == r.stack);
    }
    assert forall|i: int| #![trigger g.records[i]] 0 < i < g.records.len() implies {
        &&& g.stack.contains(i as u32) <==> (r.stack.contains(i as u32) || entered_by(r, e)
            == Some(i)) && resumed_by(r, e) != Some(i)
        &&& g.records[i].unresolved == r.records[i].unresolved
    } by {
        assert(lasting(r.records[i], g.records[i]));
    }
}

/// A record is open if it was entered and has not resumed; it is unresolved if
/// neither happened.
spec fn flags_ok(events: Seq<Event>) -> bool {
    let r = built(events);
    &&& forall|i: int|
        #![trigger r.records[i]]
        0 < i < r.records.len() ==> {
            &&& r.stack.contains(i as u32) <==> entered(events, i) && !resumed(events, i)
            &&& r.records[i].unresolved <==> !entered(events, i) && !resumed(events, i)
        }
    &&& forall|i: int|
        #![trigger resumed(events, i)]
        i >= r.records.len() ==> !resumed(events, i)
    &&& forall|i: int|
        #![trigger entered(events, i)]
        i >= r.records.len() ==> !entered(events, i)
}

/// The answers tell how many records have resumed.
spec fn count_ok(events: Seq<Event>) -> bool {
    count_of(reached(events), built(events).records.len() as int) == resumes_in(
        answers(no_records(), events),
    )
}

proof fn lemma_flags(events: Seq<Event>)
    requires
        events.len() > 0,
        flags_ok(events.drop_last()),
        records_ok(built(events.drop_last())),
        built(events).records.len() <= u32::MAX,
        marks_step(built(events.drop_last()), events.last(), built(events)),
    ensures
        flags_ok(events),
{
    let before = events.drop_last();
    let e = events.last();
    let r = built(before);
    let g = built(events);
    let n = r.records.len() as int;
    assert forall|i: int| #![trigger g.records[i]] 0 < i < g.records.len() implies {
        &&& g.stack.contains(i as u32) <==> entered(events, i) && !resumed(events, i)
        &&& g.records[i].unresolved <==> !entered(events, i) && !resumed(events, i)
    } by {
        if i < n {
            assert(r.records[i].id == i);
        } else {
            lemma_beyond_stack(r, i);
            assert(!resumed(before, i) && !entered(before, i));
        }
    }
    assert forall|i: int| #![trigger resumed(events, i)] i >= g.records.len() implies !resumed(
        events,
        i,
    ) by {
        assert(!resumed(before, i));
    }
    assert forall|i: int| #![trigger entered(events, i)] i >= g.records.len() implies !entered(
        events,
        i,
    ) by {
        assert(!entered(before, i));
    }
}

proof fn lemma_count(events: Seq<Event>)
    requires
        events.len() > 0,
        flags_ok(events.drop_last()),
        count_ok(events.drop_last()),
        records_ok(built(events.drop_last())),
        marks_step(built(events.drop_last()), events.last(), built(events)),
    ensures
        count_ok(events),
{
    let before = events.drop_last();
    let e = events.last();
    let r = built(before);
    let g = built(events);
    let n = r.records.len() as int;
    let p = reached(before);
    let q = reached(events);
    let all = answers(no_records(), events);
    if e is Insn {
        assert(all.drop_last() =~= answers(no_records(), before));
    }
    if g.records.len() > n {
        assert(!resumed(before, n));
        assert(count_of(p, n + 1) == count_of(p, n));
    }
    assert forall|i: int| resumed_by(r, e) != Some(i) implies #[trigger] p(i) == q(i) by {}
    match resumed_by(r, e) {
        None => {
            lemma_count_same(p, q, g.records.len() as int);
        },
        Some(j) => {
            if j < n {
                assert(r.records[j].id == j);
            }
            assert(!resumed(before, j));
            lemma_count_one(p, q, j, g.records.len() as int);
        },
    }
}

proof fn lemma_status(events: Seq<Event>)
    requires
        calls_in(events) < u32::MAX,
    ensures
        flags_ok(events),
        count_ok(events),
    decreases events.len(),
{
    if events.len() > 0 {
        let before = events.drop_last();
        lemma_calls_grow(events, events.len() - 1);
        assert(events.take(events.len() - 1) =~= before);
        lemma_status(before);
        lemma_built(before);
        lemma_built(events);
        let r = built(before);
        lemma_step(r, events.last());
        if decides(r, events.last()) {
            lemma_marks_decided(r, events.last());
        } else {
            lemma_marks_quiet(r, events.last());
        }
        lemma_flags(events);
        lemma_count(events);
    }
}

/// A record is resolved exactly if its call reached its resume, and there are as
/// many as resumes were answered. A call that was entered and did not resume
/// ends at the last line; one that the trace does not follow has no end. The
/// root is resolved.
pub proof fn law_resolved_calls_have_resumed(events: Seq<Event>, total: u32)
    requires
        calls_in(events) < u32::MAX,
    ensures
        ({
            let t = finished(built(events), total);
            &&& resolved_in(t, t.len() as int) == resumes_in(answers(no_records(), events))
            &&& !t[0].unresolved
            &&& forall|i: int|
                #![trigger t[i]]
                0 < i < t.len() ==> {
                    &&& t[i].unresolved <==> !resumed(events, i)
                    &&& entered(events, i) && !resumed(events, i) ==> t[i].exit_seq
                        == line_before(total)
                    &&& !entered(events, i) && !resumed(events, i) ==> t[i].exit_seq == u32::MAX
                        && t[i].resume_seq == u32::MAX
                }
        }),
{
    lemma_built(events);
    lemma_status(events);
    let r = built(events);
    lemma_finished(r, total);
    let n = r.records.len() as int;
    let g = resolved(r, line_before(total), false, true);
    let t = finished(r, total);
    if r.pending is Some {
        lemma_decided(r, line_before(total), false, true);
    }
    assert forall|i: int| #![trigger t[i]] 0 < i < t.len() implies {
        &&& t[i].unresolved <==> !resumed(events, i)
        &&& entered(events, i) && !resumed(events, i) ==> t[i].exit_seq == line_before(total)
        &&& !entered(events, i) && !resumed(events, i) ==> t[i].exit_seq == u32::MAX
            && t[i].resume_seq == u32::MAX
    } by {
        if i < n {
            assert(g.records[i].unresolved == r.records[i].unresolved);
        } else {
            assert(!resumed(events, i) && !entered(events, i));
            assert(!r.stack.contains(i as u32)) by {
                if r.stack.contains(i as u32) {
                    let k = choose|k: int| 0 <= k < r.stack.len() && r.stack[k] == i as u32;
                    assert(r.stack[k] < r.records.len());
                }
            }
        }
    }
    let p = reached(events);
    lemma_count_resolved(t, p, t.len() as int);
    if t.len() > n {
        assert(!resumed(events, n));
        assert(count_of(p, n + 1) == count_of(p, n));
    }
}

// ---------------------------------------------------------------------------
// The record of a call
// ---------------------------------------------------------------------------

/// The number that the record of a call at position `at` gets.
pub open spec fn record_of(events: Seq<Event>, at: int) -> int {
    calls_in(events.take(at)) + 1
}

/// The call waits, or stands as record `id`.
spec fn stands(r: Records, id: int, c: ActivationCandidate) -> bool {
    if id < r.records.len() {
        &&& r.records[id].call_seq == c.call_seq
        &&& r.records[id].expected_resume == c.expected_resume
        &&& r.records[id].parent_id == Some(c.parent_id)
    } else {
        id == r.records.len() && r.pending == Some(c)
    }
}

proof fn lemma_stands_step(r: Records, e: Event, id: int, c: ActivationCandidate)
    requires
        state_ok(r),
        decides(r, e) ==> r.records.len() < u32::MAX,
        0 < id,
        stands(r, id, c),
    ensures
        stands(after(r, e), id, c),
{
    let g = after(r, e);
    if decides(r, e) {
        match e {
            Event::Insn { pc, seq } => {
                lemma_decided(r, seq, pc != r.pending->0.expected_resume, false);
            },
            Event::Call { seq, .. } => {
                lemma_decided(r, seq, false, true);
            },
            _ => {},
        }
    } else {
        lemma_quiet(r, e);
        if id < r.records.len() {
            assert(lasting(r.records[id], g.records[id]));
        }
    }
}

proof fn lemma_stands(events: Seq<Event>, at: int)
    requires
        calls_in(events) < u32::MAX,
        0 <= at < events.len(),
        events[at] is Call,
    ensures
        stands(
            built(events),
            record_of(events, at),
            (ActivationCandidate {
                call_seq: events[at]->Call_seq,
                expected_resume: (events[at]->Call_callsite + 4) as u64,
                func_addr: events[at]->target,
                parent_id: innermost(built(events.take(at))),
            }),
        ),
        0 < record_of(events, at) <= calls_in(events),
    decreases events.len(),
{
    let before = events.drop_last();
    let n = events.len() - 1;
    lemma_calls_grow(events, n);
    assert(events.take(n) =~= before);
    lemma_built(before);
    lemma_built(events);
    let r = built(before);
    lemma_step(r, events.last());
    if at == n {
        if let Event::Call { seq, .. } = events.last() {
            if r.pending is Some {
                lemma_decided(r, seq, false, true);
            }
        }
    } else {
        lemma_stands(before, at);
        assert(before.take(at) =~= events.take(at));
        lemma_stands_step(
            r,
            events.last(),
            record_of(events, at),
            ActivationCandidate {
                call_seq: events[at]->Call_seq,
                expected_resume: (events[at]->Call_callsite + 4) as u64,
                func_addr: events[at]->target,
                parent_id: innermost(built(events.take(at))),
            },
        );
    }
}

/// Record `i` exists and is not open.
pub open spec fn closed_at(r: Records, i: int) -> bool {
    0 < i < r.records.len() && !r.stack.contains(i as u32)
}

/// What lasts of a record that is not open.
pub open spec fn ended(a: RecordView, b: RecordView) -> bool {
    lasting(a, b) && a.exit_seq == b.exit_seq && a.resume_seq == b.resume_seq
}

proof fn lemma_closed_step(r: Records, e: Event, i: int)
    requires
        state_ok(r),
        decides(r, e) ==> r.records.len() < u32::MAX,
        closed_at(r, i),
    ensures
        closed_at(after(r, e), i),
        ended(r.records[i], after(r, e).records[i]),
{
    let g = after(r, e);
    if decides(r, e) {
        lemma_marks_decided(r, e);
        match e {
            Event::Insn { pc, seq } => {
                lemma_decided(r, seq, pc != r.pending->0.expected_resume, false);
            },
            Event::Call { seq, .. } => {
                lemma_decided(r, seq, false, true);
            },
            _ => {},
        }
    } else {
        lemma_marks_quiet(r, e);
        lemma_quiet(r, e);
    }
    assert(g.records[i].id == i);
}

pub proof fn lemma_closed(events: Seq<Event>, at: int, i: int)
    requires
        calls_in(events) < u32::MAX,
        0 <= at <= events.len(),
        closed_at(built(events.take(at)), i),
    ensures
        closed_at(built(events), i),
        ended(built(events.take(at)).records[i], built(events).records[i]),
    decreases events.len(),
{
    if at == events.len() {
        assert(events.take(at) =~= events);
    } else {
        let before = events.drop_last();
        let n = events.len() - 1;
        lemma_calls_grow(events, n);
        assert(events.take(n) =~= before);
        assert(before.take(at) =~= events.take(at));
        lemma_closed(before, at, i);
        lemma_built(before);
        lemma_built(events);
        lemma_step(built(before), events.last());
        lemma_closed_step(built(before), events.last(), i);
    }
}

pub proof fn lemma_closed_at_the_end(r: Records, total: u32, i: int)
    requires
        state_ok(r),
        calls_seen(r) < u32::MAX,
        closed_at(r, i),
    ensures
        ended(r.records[i], finished(r, total)[i]),
{
    lemma_finished(r, total);
    if r.pending is Some {
        lemma_decided(r, line_before(total), false, true);
    }
    let t = finished(r, total);
    assert(t[i] == resolved(r, line_before(total), false, true).records[i]);
}

/// The record of a call keeps the line of the call, where it is to resume, and
/// its caller: the innermost entered call at that moment. A call that was still
/// waiting then ends unresolved and without an end.
pub proof fn law_a_call_keeps_its_record(events: Seq<Event>, at: int, total: u32)
    requires
        calls_in(events) < u32::MAX,
        0 <= at < events.len(),
        events[at] is Call,
        events[at]->Call_callsite + 4 <= u64::MAX,
    ensures
        ({
            let t = finished(built(events), total);
            let id = record_of(events, at);
            let r = built(events.take(at));
            &&& 0 < id < t.len()
            &&& t[id].call_seq == events[at]->Call_seq
            &&& t[id].expected_resume == events[at]->Call_callsite + 4
            &&& t[id].parent_id == Some(innermost(r))
            &&& (r.pending matches Some(c) ==> {
                &&& 1 < id
                &&& t[id - 1].call_seq == c.call_seq
                &&& t[id - 1].unresolved
                &&& t[id - 1].exit_seq == u32::MAX
                &&& t[id - 1].resume_seq == u32::MAX
            })
        }),
{
    let id = record_of(events, at);
    let r = built(events.take(at));
    let f = built(events);
    let t = finished(f, total);
    lemma_stands(events, at);
    lemma_built(events);
    lemma_finished(f, total);
    if f.pending is Some {
        lemma_decided(f, line_before(total), false, true);
    }
    assert(t[id].id == t[id].id);
    if r.pending is Some {
        lemma_calls_grow(events, at);
        lemma_built(events.take(at));
        lemma_calls_grow(events, at + 1);
        assert(events.take(at + 1).drop_last() =~= events.take(at));
        assert(events.take(at + 1).last() == events[at]);
        let g = built(events.take(at + 1));
        assert(g == after(r, events[at]));
        lemma_decided(r, events[at]->Call_seq, false, true);
        lemma_beyond_stack(r, id - 1);
        assert(closed_at(g, id - 1));
        lemma_closed(events, at + 1, id - 1);
        lemma_closed_at_the_end(f, total, id - 1);
    }
}

/// Different calls have different records, in the order of the calls.
pub proof fn law_records_follow_the_calls(events: Seq<Event>, a: int, b: int)
    requires
        0 <= a < b < events.len(),
        events[a] is Call,
    ensures
        record_of(events, a) < record_of(events, b),
{
    let upto = events.take(a + 1);
    assert(upto.drop_last() =~= events.take(a));
    assert(upto.last() == events[a]);
    assert(events.take(b).take(a + 1) =~= upto);
    lemma_calls_grow(events.take(b), a + 1);
}

proof fn lemma_latest(events: Seq<Event>)
    ensures
        built(events).last == latest_line(events),
    decreases events.len(),
{
    if events.len() > 0 {
        lemma_latest(events.drop_last());
    }
}

/// The exit of an entered call is the latest instruction before its resume.
pub proof fn law_exit_is_the_instruction_before_the_resume(
    events: Seq<Event>,
    at: int,
    total: u32,
)
    requires
        calls_in(events) < u32::MAX,
        0 <= at < events.len(),
        events[at] is Insn,
        built(events.take(at)).pending is None,
        resumes(built(events.take(at)), events[at]->pc),
    ensures
        ({
            let t = finished(built(events), total);
            let i = innermost(built(events.take(at))) as int;
            &&& 0 < i < t.len()
            &&& !t[i].unresolved
            &&& t[i].exit_seq == latest_line(events.take(at))
            &&& t[i].resume_seq == events[at]->Insn_seq
        }),
{
    let r = built(events.take(at));
    let i = innermost(r) as int;
    let f = built(events);
    lemma_latest(events.take(at));
    lemma_calls_grow(events, at);
    lemma_built(events.take(at));
    lemma_calls_grow(events, at + 1);
    lemma_built(events.take(at + 1));
    assert(events.take(at + 1).drop_last() =~= events.take(at));
    assert(events.take(at + 1).last() == events[at]);
    let g = built(events.take(at + 1));
    assert(g == after(r, events[at]));
    let top = r.stack.len() - 1;
    assert(0 < r.stack[top] < r.records.len());
    assert(!r.records[r.stack[top] as int].unresolved);
    lemma_marks_quiet(r, events[at]);
    assert(g.records[i].exit_seq == r.last);
    assert(closed_at(g, i));
    lemma_closed(events, at + 1, i);
    lemma_built(events);
    lemma_finished(f, total);
    lemma_closed_at_the_end(f, total, i);
}

// ---------------------------------------------------------------------------
// Returns
// ---------------------------------------------------------------------------

/// The same but for the exit.
pub open spec fn same_but_exit(a: RecordView, b: RecordView) -> bool {
    a == (RecordView { exit_seq: a.exit_seq, ..b })
}

/// The same but for the exits of open records and of record `x`, and for the
/// latest line while `x` is the innermost.
spec fn alike(a: Records, b: Records, x: int) -> bool {
    &&& a.stack == b.stack
    &&& a.pending == b.pending
    &&& a.current == b.current
    &&& a.records.len() == b.records.len()
    &&& forall|i: int|
        #![trigger a.records[i]]
        #![trigger b.records[i]]
        0 <= i < a.records.len() ==> {
            &&& same_but_exit(a.records[i], b.records[i])
            &&& i == x || a.stack.contains(i as u32) || a.records[i] == b.records[i]
        }
    &&& a.last == b.last || a.stack.len() == 0 || a.stack.last() == x
}

proof fn lemma_alike_resolved(
    a: Records,
    b: Records,
    x: int,
    seq: u32,
    enters: bool,
    unresolved: bool,
)
    requires
        alike(a, b, x),
        records_ok(a),
        a.pending is Some ==> a.records.len() < u32::MAX,
    ensures
        ({
            let g = resolved(a, seq, enters, unresolved);
            let h = resolved(b, seq, enters, unresolved);
            &&& g.stack == h.stack
            &&& g.pending == h.pending
            &&& g.current == h.current
            &&& g.records.len() == h.records.len()
            &&& forall|i: int|
                #![trigger g.records[i]]
                #![trigger h.records[i]]
                0 <= i < g.records.len() ==> {
                    &&& same_but_exit(g.records[i], h.records[i])
                    &&& i == x || g.stack.contains(i as u32) || g.records[i] == h.records[i]
                }
        }),
{
    if a.pending is Some {
        let g = resolved(a, seq, enters, unresolved);
        let h = resolved(b, seq, enters, unresolved);
        let n = a.records.len() as int;
        let p = a.pending->0.parent_id as int;
        assert(a.records[p].children == b.records[p].children);
        assert forall|i: int|
            #![trigger g.records[i]]
            #![trigger h.records[i]]
            0 <= i < g.records.len() implies {
            &&& same_but_exit(g.records[i], h.records[i])
            &&& i == x || g.stack.contains(i as u32) || g.records[i] == h.records[i]
        } by {
            if i < n {
                assert(same_but_exit(a.records[i], b.records[i]));
                if a.stack.contains(i as u32) {
                    let k = choose|k: int| 0 <= k < a.stack.len() && a.stack[k] == i as u32;
                    assert(g.stack[k] == i as u32);
                }
            }
        }
    }
}

proof fn lemma_last_at_same(s: Seq<RecordView>, t: Seq<RecordView>, entry_seq: u32)
    requires
        s.len() == t.len(),
        forall|i: int|
            #![trigger s[i]]
            #![trigger t[i]]
            0 <= i < s.len() ==> s[i].entry_seq == t[i].entry_seq,
    ensures
        last_at(s, entry_seq) == last_at(t, entry_seq),
    decreases s.len(),
{
    if s.len() > 0 {
        assert(s[s.len() - 1].entry_seq == t[t.len() - 1].entry_seq);
        assert forall|i: int|
            #![trigger s.drop_last()[i]]
            #![trigger t.drop_last()[i]]
            0 <= i < s.len() - 1 implies s.drop_last()[i].entry_seq
            == t.drop_last()[i].entry_seq by {
            assert(s[i].entry_seq == t[i].entry_seq);
        }
        lemma_last_at_same(s.drop_last(), t.drop_last(), entry_seq);
    }
}

proof fn lemma_alike_name(a: Records, b: Records, x: int, entry_seq: u32, name: Seq<char>)
    requires
        alike(a, b, x),
    ensures
        alike(with_name(a, entry_seq, name), with_name(b, entry_seq, name), x),
{
    lemma_last_at_same(a.records, b.records, entry_seq);
    lemma_named(a.records, entry_seq, name);
    lemma_named(b.records, entry_seq, name);
    let g = with_name(a, entry_seq, name);
    let h = with_name(b, entry_seq, name);
    assert forall|i: int|
        #![trigger g.records[i]]
        #![trigger h.records[i]]
        0 <= i < g.records.len() implies {
        &&& same_but_exit(g.records[i], h.records[i])
        &&& i == x || g.stack.contains(i as u32) || g.records[i] == h.records[i]
    } by {
        assert(same_but_exit(a.records[i], b.records[i]));
        assert(g.records[i] == named(a.records, entry_seq, name)[i]);
        assert(h.records[i] == named(b.records, entry_seq, name)[i]);
    }
}

proof fn lemma_alike_pc(a: Records, b: Records, x: int, pc: u64, seq: u32)
    requires
        alike(a, b, x),
        records_ok(a),
        a.pending is None,
    ensures
        alike(after_pc(a, pc, seq), after_pc(b, pc, seq), x),
        is_resume(a, pc) == is_resume(b, pc),
{
    let g = after_pc(a, pc, seq);
    let h = after_pc(b, pc, seq);
    if a.stack.len() > 0 {
        let j = a.stack[a.stack.len() - 1] as int;
        assert(0 < j < a.records.len());
        assert(same_but_exit(a.records[j], b.records[j]));
        if resumes(a, pc) {
            assert forall|i: int|
                #![trigger g.records[i]]
                #![trigger h.records[i]]
                0 <= i < g.records.len() implies {
                &&& same_but_exit(g.records[i], h.records[i])
                &&& i == x || g.stack.contains(i as u32) || g.records[i] == h.records[i]
            } by {
                assert(same_but_exit(a.records[i], b.records[i]));
                if i != j && a.stack.contains(i as u32) {
                    let k = choose|k: int| 0 <= k < a.stack.len() && a.stack[k] == i as u32;
                    assert(g.stack[k] == i as u32);
                }
            }
        }
    }
}

proof fn lemma_alike_ret(a: Records, b: Records, x: int, seq: u32)
    requires
        alike(a, b, x),
        records_ok(a),
    ensures
        alike(after_ret(a, seq), after_ret(b, seq), x),
{
    let g = after_ret(a, seq);
    let h = after_ret(b, seq);
    if a.stack.len() > 0 {
        let j = a.stack[a.stack.len() - 1] as int;
        assert(0 < j < a.records.len());
        assert forall|i: int|
            #![trigger g.records[i]]
            #![trigger h.records[i]]
            0 <= i < g.records.len() implies {
            &&& same_but_exit(g.records[i], h.records[i])
            &&& i == x || g.stack.contains(i as u32) || g.records[i] == h.records[i]
        } by {
            assert(same_but_exit(a.records[i], b.records[i]));
        }
    }
}

proof fn lemma_alike_addr(a: Records, b: Records, x: int, at: int, addr: u64)
    requires
        alike(a, b, x),
        0 <= at < a.records.len(),
    ensures
        alike(
            (Records {
                records: a.records.update(at, RecordView { func_addr: addr, ..a.records[at] }),
                ..a
            }),
            (Records {
                records: b.records.update(at, RecordView { func_addr: addr, ..b.records[at] }),
                ..b
            }),
            x,
        ),
{
    let s = a.records.update(at, RecordView { func_addr: addr, ..a.records[at] });
    let t = b.records.update(at, RecordView { func_addr: addr, ..b.records[at] });
    assert forall|i: int|
        #![trigger s[i]]
        #![trigger t[i]]
        0 <= i < s.len() implies {
        &&& same_but_exit(s[i], t[i])
        &&& i == x || a.stack.contains(i as u32) || s[i] == t[i]
    } by {
        assert(same_but_exit(a.records[i], b.records[i]));
    }
}

proof fn lemma_alike_step(a: Records, b: Records, x: int, e: Event)
    requires
        alike(a, b, x),
        records_ok(a),
        decides(a, e) ==> a.records.len() < u32::MAX,
    ensures
        alike(after(a, e), after(b, e), x),
        e matches Event::Insn { pc, .. } ==> is_resume(a, pc) == is_resume(b, pc),
{
    match e {
        Event::RootAddr(addr) => {
            lemma_alike_addr(a, b, x, 0, addr);
        },
        Event::CurrentAddr(addr) => {
            lemma_alike_addr(a, b, x, a.current as int, addr);
        },
        Event::Name { entry_seq, name } => {
            lemma_alike_name(a, b, x, entry_seq, name);
        },
        Event::Ret { seq } => {
            lemma_alike_ret(a, b, x, seq);
        },
        Event::Call { seq, .. } => {
            lemma_alike_resolved(a, b, x, seq, false, true);
        },
        Event::Insn { pc, seq } => {
            if a.pending is Some {
                lemma_alike_resolved(a, b, x, seq, pc != a.pending->0.expected_resume, false);
            } else {
                lemma_alike_pc(a, b, x, pc, seq);
            }
        },
    }
}

proof fn lemma_alike_run(a: Records, b: Records, x: int, events: Seq<Event>)
    requires
        alike(a, b, x),
        state_ok(a),
        calls_seen(a) + calls_in(events) < u32::MAX,
    ensures
        alike(run(a, events), run(b, events), x),
        answers(a, events) == answers(b, events),
    decreases events.len(),
{
    if events.len() > 0 {
        let before = events.drop_last();
        lemma_alike_run(a, b, x, before);
        lemma_run(a, before);
        lemma_alike_step(run(a, before), run(b, before), x, events.last());
    }
}

proof fn lemma_alike_finished(a: Records, b: Records, x: int, total: u32)
    requires
        alike(a, b, x),
        state_ok(a),
        calls_seen(a) < u32::MAX,
    ensures
        ({
            let s = finished(a, total);
            let t = finished(b, total);
            &&& s.len() == t.len()
            &&& forall|i: int|
                #![trigger s[i]]
                #![trigger t[i]]
                0 <= i < s.len() ==> same_but_exit(s[i], t[i]) && (i == x || s[i] == t[i])
        }),
{
    let end = line_before(total);
    lemma_alike_resolved(a, b, x, end, false, true);
    let g = resolved(a, end, false, true);
    let h = resolved(b, end, false, true);
    let s = finished(a, total);
    let t = finished(b, total);
    assert forall|i: int|
        #![trigger s[i]]
        #![trigger t[i]]
        0 <= i < s.len() implies same_but_exit(s[i], t[i]) && (i == x || s[i] == t[i]) by {
        assert(same_but_exit(g.records[i], h.records[i]));
        assert(g.stack == a.stack);
    }
}

proof fn lemma_alike_after_ret(r: Records, seq: u32, x: int)
    requires
        records_ok(r),
        seq == r.last || r.stack.len() == 0 || r.stack.last() == x,
    ensures
        alike(after_ret(r, seq), r, x),
{
    let g = after_ret(r, seq);
    if r.stack.len() > 0 {
        let j = r.stack[r.stack.len() - 1] as int;
        assert(0 < j < r.records.len());
        assert(r.stack.contains(r.stack.last()));
        assert forall|i: int|
            #![trigger g.records[i]]
            #![trigger r.records[i]]
            0 <= i < g.records.len() implies {
            &&& same_but_exit(g.records[i], r.records[i])
            &&& i == x || g.stack.contains(i as u32) || g.records[i] == r.records[i]
        } by {
            assert(r.records[j].id == j);
        }
    }
}

proof fn lemma_return_closes_nothing(
    r: Records,
    seq: u32,
    events: Seq<Event>,
    total: u32,
)
    requires
        state_ok(r),
        calls_seen(r) + calls_in(events) < u32::MAX,
    ensures
        answers(after_ret(r, seq), events) == answers(r, events),
        ({
            let s = finished(run(after_ret(r, seq), events), total);
            let t = finished(run(r, events), total);
            &&& s.len() == t.len()
            &&& forall|i: int|
                #![trigger s[i]]
                #![trigger t[i]]
                0 <= i < s.len() ==> same_but_exit(s[i], t[i]) && (i == innermost(r) || s[i]
                    == t[i])
            &&& seq == r.last || r.stack.len() == 0 ==> s == t
        }),
{
    let a = after_ret(r, seq);
    let x = innermost(r) as int;
    let e = Event::Ret { seq };
    lemma_step(r, e);
    assert(a == after(r, e));
    lemma_run(a, events);
    lemma_alike_after_ret(r, seq, x);
    lemma_alike_run(a, r, x, events);
    lemma_alike_finished(run(a, events), run(r, events), x, total);
    let s = finished(run(a, events), total);
    let t = finished(run(r, events), total);
    if seq == r.last || r.stack.len() == 0 {
        lemma_alike_after_ret(r, seq, -1);
        lemma_alike_run(a, r, -1, events);
        lemma_alike_finished(run(a, events), run(r, events), -1, total);
        assert(s =~= t);
    }
}

/// A return resumes nothing and closes nothing: whatever follows, every
/// instruction is answered as without it, and the records are the same but for
/// the exit of the call that was innermost. Where the returning instruction was
/// itself seen as an instruction before, the records are the same altogether.
pub proof fn law_a_return_closes_nothing(
    events: Seq<Event>,
    seq: u32,
    later: Seq<Event>,
    total: u32,
)
    requires
        calls_in(events) + calls_in(later) < u32::MAX,
    ensures
        ({
            let r = built(events);
            let s = finished(run(after_ret(r, seq), later), total);
            let t = finished(run(r, later), total);
            &&& answers(after_ret(r, seq), later) == answers(r, later)
            &&& s.len() == t.len()
            &&& forall|i: int|
                #![trigger s[i]]
                #![trigger t[i]]
                0 <= i < s.len() ==> same_but_exit(s[i], t[i]) && (i == innermost(r) || s[i]
                    == t[i])
            &&& seq == latest_line(events) || r.stack.len() == 0 ==> s == t
        }),
{
    lemma_calls_grow(later, 0);
    lemma_built(events);
    lemma_latest(events);
    lemma_return_closes_nothing(built(events), seq, later, total);
}

} // verus!
