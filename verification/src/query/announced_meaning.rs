//! Announced calls, from the call to the resume.

use crate::query::announced::{
    calls_seen, finished, line_before, named, records_ok, resumes, RecordView, Records,
};
use crate::query::announced_laws::{
    after, built, calls_in, closed_at, decides, innermost, lasting, latest_line,
    law_a_call_keeps_its_record, law_calls_have_room,
    law_exit_is_the_instruction_before_the_resume, lemma_beyond_stack, lemma_built,
    lemma_calls_grow, lemma_closed, lemma_closed_at_the_end, lemma_decided, lemma_finished,
    lemma_quiet, record_of, Event,
};
use vstd::prelude::*;

verus! {

/// Nothing in `low..high` resumes at `resume` or is entered: calls there go on
/// right behind the call, and no other instruction stands at the address.
pub open spec fn undisturbed(events: Seq<Event>, low: int, high: int, resume: u64) -> bool {
    forall|j: int|
        #![trigger events[j]]
        low <= j < high ==> match events[j] {
            Event::Call { seq, callsite, target } => callsite + 4 <= u64::MAX && j + 1 < high
                && events[j + 1] is Insn && events[j + 1]->pc == callsite + 4,
            Event::Insn { pc, seq } => (j > low && events[j - 1] is Call) || pc != resume,
            _ => true,
        }
}

/// The call at `k` is entered by the instruction that follows it.
pub open spec fn enters(events: Seq<Event>, k: int) -> bool {
    &&& 0 <= k
    &&& k + 1 < events.len()
    &&& events[k] is Call
    &&& events[k]->Call_callsite + 4 <= u64::MAX
    &&& events[k + 1] is Insn
    &&& events[k + 1]->pc != events[k]->Call_callsite + 4
}

proof fn lemma_next(events: Seq<Event>, m: int)
    requires
        calls_in(events) < u32::MAX,
        0 <= m < events.len(),
    ensures
        built(events.take(m + 1)) == after(built(events.take(m)), events[m]),
        records_ok(built(events.take(m))),
        records_ok(built(events.take(m + 1))),
        decides(built(events.take(m)), events[m]) ==> built(events.take(m)).records.len()
            < u32::MAX,
        calls_seen(built(events.take(m))) == calls_in(events.take(m)),
        calls_in(events.take(m + 1)) == calls_in(events.take(m)) + (if events[m] is Call {
            1int
        } else {
            0
        }),
{
    lemma_calls_grow(events, m);
    lemma_calls_grow(events, m + 1);
    lemma_built(events.take(m));
    lemma_built(events.take(m + 1));
    law_calls_have_room(events.take(m));
    law_calls_have_room(events.take(m + 1));
    assert(events.take(m + 1).drop_last() =~= events.take(m));
    assert(events.take(m + 1).last() == events[m]);
}

/// The call stands as record `i`, entered and innermost.
spec fn is_inside(r: Records, i: int, stack: Seq<u32>, resume: int, entry: u32) -> bool {
    &&& 0 < i < r.records.len()
    &&& r.stack == stack.push(i as u32)
    &&& r.records[i].expected_resume == resume
    &&& r.records[i].entry_seq == entry
}

proof fn lemma_inside_step(
    r: Records,
    e: Event,
    i: int,
    stack: Seq<u32>,
    resume: int,
    entry: u32,
)
    requires
        records_ok(r),
        is_inside(r, i, stack, resume, entry),
        decides(r, e) ==> r.records.len() < u32::MAX,
        match r.pending {
            Some(c) => e is Insn && e->pc == c.expected_resume,
            None => e is Insn ==> e->pc != resume,
        },
    ensures
        is_inside(after(r, e), i, stack, resume, entry),
        match e {
            Event::Call { seq, callsite, target } => after(r, e).pending matches Some(c)
                && c.expected_resume == (callsite + 4) as u64,
            _ => after(r, e).pending is None,
        },
{
    let g = after(r, e);
    assert(r.stack.last() == i);
    if decides(r, e) {
        lemma_decided(r, e->Insn_seq, false, false);
        assert(g.records[i].entry_seq == r.records[i].entry_seq);
    } else {
        lemma_quiet(r, e);
        assert(lasting(r.records[i], g.records[i]));
    }
}

proof fn lemma_inside(events: Seq<Event>, k: int, m: int, high: int)
    requires
        calls_in(events) < u32::MAX,
        enters(events, k),
        k + 2 <= m <= high <= events.len(),
        undisturbed(events, k + 2, high, (events[k]->Call_callsite + 4) as u64),
    ensures
        ({
            let r = built(events.take(m));
            &&& is_inside(
                r,
                record_of(events, k),
                built(events.take(k)).stack,
                events[k]->Call_callsite + 4,
                events[k + 1]->Insn_seq,
            )
            &&& (r.pending is Some) == (events[m - 1] is Call)
            &&& r.pending matches Some(c) ==> c.expected_resume == events[m - 1]->Call_callsite + 4
        }),
    decreases m,
{
    let i = record_of(events, k);
    if m == k + 2 {
        lemma_next(events, k);
        lemma_next(events, k + 1);
        let r = built(events.take(k + 1));
        lemma_decided(r, events[k + 1]->Insn_seq, true, false);
        assert(r.stack == built(events.take(k)).stack);
        assert(r.records.len() == i);
    } else {
        lemma_inside(events, k, m - 1, high);
        lemma_next(events, m - 1);
        let r = built(events.take(m - 1));
        let e = events[m - 1];
        let last = events[m - 2];
        lemma_inside_step(
            r,
            e,
            i,
            built(events.take(k)).stack,
            events[k]->Call_callsite + 4,
            events[k + 1]->Insn_seq,
        );
    }
}

/// The instruction right behind the call ends it.
proof fn lemma_resume(events: Seq<Event>, k: int, at: int)
    requires
        calls_in(events) < u32::MAX,
        enters(events, k),
        k + 2 <= at < events.len(),
        undisturbed(events, k + 2, at, (events[k]->Call_callsite + 4) as u64),
        !(events[at - 1] is Call),
        events[at] is Insn,
        events[at]->pc == events[k]->Call_callsite + 4,
    ensures
        ({
            let r = built(events.take(at));
            let g = built(events.take(at + 1));
            let i = record_of(events, k);
            &&& r.pending is None
            &&& resumes(r, events[at]->pc)
            &&& r.stack.len() > 0
            &&& r.stack.last() == i
            &&& g.stack == built(events.take(k)).stack
            &&& closed_at(g, i)
            &&& g.records[i].entry_seq == events[k + 1]->Insn_seq
        }),
{
    let i = record_of(events, k);
    lemma_inside(events, k, at, at);
    lemma_next(events, at);
    lemma_next(events, k);
    let r = built(events.take(at));
    let g = built(events.take(at + 1));
    assert(r.stack.last() == i);
    assert(g.stack =~= built(events.take(k)).stack);
    lemma_quiet(r, events[at]);
    assert(lasting(r.records[i], g.records[i]));
    lemma_beyond_stack(built(events.take(k)), i);
}

proof fn lemma_resumed(events: Seq<Event>, k: int, at: int, total: u32)
    requires
        calls_in(events) < u32::MAX,
        0 <= at < events.len(),
        closed_at(built(events.take(at + 1)), record_of(events, k)),
    ensures
        finished(built(events), total)[record_of(events, k)].entry_seq == built(
            events.take(at + 1),
        ).records[record_of(events, k)].entry_seq,
{
    lemma_closed(events, at + 1, record_of(events, k));
    lemma_built(events);
    lemma_closed_at_the_end(built(events), total, record_of(events, k));
}

/// A call whose body is recorded is entered by the instruction that follows it
/// and resumes at the first instruction that stands right behind the call, calls
/// without a body left aside; it ends with the latest line before that, and its
/// caller is innermost again.
pub proof fn law_a_call_lasts_until_its_resume(events: Seq<Event>, k: int, at: int, total: u32)
    requires
        calls_in(events) < u32::MAX,
        enters(events, k),
        k + 2 <= at < events.len(),
        undisturbed(events, k + 2, at, (events[k]->Call_callsite + 4) as u64),
        !(events[at - 1] is Call),
        events[at] is Insn,
        events[at]->pc == events[k]->Call_callsite + 4,
    ensures
        ({
            let t = finished(built(events), total);
            let i = record_of(events, k);
            &&& 0 < i < t.len()
            &&& t[i].call_seq == events[k]->Call_seq
            &&& t[i].parent_id == Some(innermost(built(events.take(k))))
            &&& t[i].entry_seq == events[k + 1]->Insn_seq
            &&& t[i].exit_seq == latest_line(events.take(at))
            &&& t[i].resume_seq == events[at]->Insn_seq
            &&& !t[i].unresolved
            &&& forall|m: int|
                k + 2 <= m <= at ==> #[trigger] innermost(built(events.take(m))) == i
            &&& built(events.take(at + 1)).stack == built(events.take(k)).stack
        }),
{
    let i = record_of(events, k);
    lemma_resume(events, k, at);
    lemma_resumed(events, k, at, total);
    assert(built(events.take(at)).stack.last() == i);
    law_exit_is_the_instruction_before_the_resume(events, at, total);
    law_a_call_keeps_its_record(events, k, total);
    assert forall|m: int| k + 2 <= m <= at implies #[trigger] innermost(built(events.take(m)))
        == i by {
        lemma_inside(events, k, m, at);
    }
}

/// A call whose body is recorded and that never resumes is unresolved, and open
/// to the end of the trace.
pub proof fn law_a_call_without_resume_stays_open(events: Seq<Event>, k: int, total: u32)
    requires
        calls_in(events) < u32::MAX,
        enters(events, k),
        undisturbed(
            events,
            k + 2,
            events.len() as int,
            (events[k]->Call_callsite + 4) as u64,
        ),
    ensures
        ({
            let t = finished(built(events), total);
            let i = record_of(events, k);
            &&& 0 < i < t.len()
            &&& t[i].entry_seq == events[k + 1]->Insn_seq
            &&& t[i].unresolved
            &&& t[i].exit_seq == line_before(total)
        }),
{
    let n = events.len() as int;
    let i = record_of(events, k);
    lemma_inside(events, k, n, n);
    assert(events.take(n) =~= events);
    let r = built(events);
    lemma_built(events);
    lemma_finished(r, total);
    assert(r.stack[r.stack.len() - 1] == i as u32);
    assert(r.stack.contains(i as u32));
    if r.pending is Some {
        lemma_decided(r, line_before(total), false, true);
    }
}

/// A call that goes on right behind itself is entered, left and resumed at that
/// instruction, and the call around it stays innermost.
pub proof fn law_a_call_without_body_ends_at_once(events: Seq<Event>, k: int, total: u32)
    requires
        calls_in(events) < u32::MAX,
        0 <= k,
        k + 1 < events.len(),
        events[k] is Call,
        events[k]->Call_callsite + 4 <= u64::MAX,
        events[k + 1] is Insn,
        events[k + 1]->pc == events[k]->Call_callsite + 4,
    ensures
        ({
            let t = finished(built(events), total);
            let i = record_of(events, k);
            let line = events[k + 1]->Insn_seq;
            &&& 0 < i < t.len()
            &&& t[i].entry_seq == line
            &&& t[i].exit_seq == line
            &&& t[i].resume_seq == line
            &&& !t[i].unresolved
            &&& built(events.take(k + 2)).stack == built(events.take(k)).stack
        }),
{
    let i = record_of(events, k);
    lemma_next(events, k);
    lemma_next(events, k + 1);
    let r = built(events.take(k + 1));
    let g = built(events.take(k + 2));
    lemma_decided(r, events[k + 1]->Insn_seq, false, false);
    assert(r.records.len() == i);
    lemma_beyond_stack(built(events.take(k)), i);
    assert(closed_at(g, i));
    lemma_closed(events, k + 2, i);
    lemma_built(events);
    lemma_finished(built(events), total);
    lemma_closed_at_the_end(built(events), total, i);
}

/// The record is the last one that begins at the line.
pub open spec fn is_last_at(s: Seq<RecordView>, i: int, line: u32) -> bool {
    &&& s[i].entry_seq == line
    &&& forall|j: int| #![trigger s[j]] i < j < s.len() ==> s[j].entry_seq != line
}

/// A name goes to the last record that begins at its line, and to no other.
pub proof fn law_a_name_goes_to_the_last_record_at_its_line(
    s: Seq<RecordView>,
    line: u32,
    name: Seq<char>,
    i: int,
)
    requires
        0 <= i < s.len(),
    ensures
        named(s, line, name).len() == s.len(),
        named(s, line, name)[i] == (if is_last_at(s, i, line) {
            RecordView { func_name: Some(name), ..s[i] }
        } else {
            s[i]
        }),
    decreases s.len(),
{
    let rest = s.drop_last();
    let n = s.len() - 1;
    if rest.len() > 0 {
        law_a_name_goes_to_the_last_record_at_its_line(
            rest,
            line,
            name,
            if i < n {
                i
            } else {
                0
            },
        );
    } else {
        assert(named(rest, line, name) =~= rest);
    }
    if i < n {
        if s[n].entry_seq == line {
            assert(!is_last_at(s, i, line));
        } else {
            assert(is_last_at(s, i, line) == is_last_at(rest, i, line)) by {
                if is_last_at(rest, i, line) {
                    assert forall|j: int| #![trigger s[j]] i < j < s.len() implies s[j].entry_seq
                        != line by {
                        if j < n {
                            assert(rest[j] == s[j]);
                        }
                    }
                }
                if is_last_at(s, i, line) {
                    assert forall|j: int| #![trigger rest[j]] i < j < rest.len() implies rest[j].entry_seq
                        != line by {
                        assert(rest[j] == s[j]);
                    }
                }
            }
        }
    }
}

} // verus!
