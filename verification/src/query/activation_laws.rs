//! What holds of the activations of every trace.

use crate::query::activation::{
    after_call, after_insn, closed, covers, empty_forest, entered, finished, forest_ok, given_up,
    grown, last_line, lost, owner_below, owner_of, position, resumes, top, ActivationView,
    BypassedCall, Forest, InsnFact, PendingCall, UnresolvedReason,
};
use vstd::prelude::*;

verus! {

/// What a builder is fed.
pub enum TraceEvent {
    Insn(InsnFact),
    Call { seq: u32, pc: u64 },
}

pub open spec fn event_seq(e: TraceEvent) -> u32 {
    match e {
        TraceEvent::Insn(fact) => fact.seq,
        TraceEvent::Call { seq, .. } => seq,
    }
}

pub open spec fn after_event(f: Forest, e: TraceEvent) -> Forest {
    match e {
        TraceEvent::Insn(fact) => after_insn(f, fact),
        TraceEvent::Call { seq, pc } => after_call(f, seq, pc),
    }
}

/// The state after the first `n` events.
pub open spec fn fed(events: Seq<TraceEvent>, n: int) -> Forest
    decreases n,
{
    if n <= 0 {
        empty_forest()
    } else {
        after_event(fed(events, n - 1), events[n - 1])
    }
}

/// Number of calls among the first `n` events.
pub open spec fn calls_in(events: Seq<TraceEvent>, n: int) -> nat
    decreases n,
{
    if n <= 0 {
        0
    } else {
        calls_in(events, n - 1) + (if events[n - 1] is Call {
            1nat
        } else {
            0
        })
    }
}

/// Lines ascend, they can be numbered, and no call stands at the very end of
/// the address space.
pub open spec fn trace_like(events: Seq<TraceEvent>) -> bool {
    &&& events.len() + 1 < u32::MAX
    &&& forall|i: int, j: int|
        #![trigger events[i], events[j]]
        0 <= i < j < events.len() ==> event_seq(events[i]) < event_seq(events[j])
    &&& forall|i: int|
        #![trigger events[i]]
        0 <= i < events.len() ==> (events[i] matches TraceEvent::Call { pc, .. } ==> pc + 4
            <= u64::MAX)
}

proof fn lemma_accounts(events: Seq<TraceEvent>, n: int)
    requires
        0 <= n <= events.len(),
        events.len() + 1 < u32::MAX,
    ensures
        forest_ok(fed(events, n)),
        fed(events, n).activations.len() <= n + 1,
        fed(events, n).activations.len() + fed(events, n).bypassed.len() + (if fed(
            events,
            n,
        ).pending is Some {
            1nat
        } else {
            0
        }) == calls_in(events, n) + 1,
    decreases n,
{
    if n > 0 {
        lemma_accounts(events, n - 1);
        let f = fed(events, n - 1);
        let g = fed(events, n);
        match events[n - 1] {
            TraceEvent::Call { seq, .. } => {
                let h = given_up(f, seq, UnresolvedReason::DisplacedByAnotherCall);
                assert(forest_ok(h));
                assert(g.activations == h.activations && g.stack == f.stack);
                assert(g.pending is Some ==> position(g.pending->0.parent_id)
                    < g.activations.len()) by {
                    if f.stack.len() > 0 {
                        assert(f.stack[f.stack.len() - 1] < f.activations.len());
                    }
                }
            },
            TraceEvent::Insn(fact) => {
                if f.pending is Some && fact.pc != f.pending->0.expected_resume {
                    assert forall|k: int|
                        #![trigger g.stack[k]]
                        0 <= k < g.stack.len() implies 0 < g.stack[k] < g.activations.len() by {
                        if k < f.stack.len() {
                            assert(g.stack[k] == f.stack[k]);
                        }
                    }
                } else if f.pending is None && resumes(f, fact) {
                    assert(f.stack[f.stack.len() - 1] < f.activations.len());
                    assert forall|k: int|
                        #![trigger g.stack[k]]
                        0 <= k < g.stack.len() implies 0 < g.stack[k] < g.activations.len() by {
                        assert(g.stack[k] == f.stack[k]);
                    }
                }
            },
        }
    }
}

/// Every call is accounted for: it is one activation, confirmed or not, or one
/// bypassed call.
pub proof fn law_every_call_is_accounted_for(events: Seq<TraceEvent>, total: u32)
    requires
        events.len() + 1 < u32::MAX,
    ensures
        ({
            let f = fed(events, events.len() as int);
            (finished(f, total).len() - 1) + f.bypassed.len() == calls_in(
                events,
                events.len() as int,
            )
        }),
{
    lemma_accounts(events, events.len() as int);
}

// ---------------------------------------------------------------------------
// Structure
// ---------------------------------------------------------------------------

/// Activation `j` was called, directly or not, from activation `i`.
pub open spec fn below(s: Seq<ActivationView>, i: int, j: int) -> bool
    decreases j,
{
    s[j].parent_id matches Some(p) && p < j && (p == i || below(s, i, p as int))
}

proof fn lemma_below_same(a: Seq<ActivationView>, b: Seq<ActivationView>, i: int, j: int)
    requires
        0 <= j < a.len(),
        j < b.len(),
        forall|x: int| #![trigger a[x]] 0 <= x <= j ==> a[x].parent_id == b[x].parent_id,
    ensures
        below(a, i, j) == below(b, i, j),
    decreases j,
{
    assert(a[j].parent_id == b[j].parent_id);
    if let Some(p) = a[j].parent_id {
        if p < j {
            lemma_below_same(a, b, i, p as int);
        }
    }
}

/// Entered and left.
pub open spec fn is_closed(f: Forest, i: int) -> bool {
    0 < i < f.activations.len() && f.activations[i].unresolved_reason is None
        && !f.stack.contains(i as u32)
}

/// The boundaries of an activation that was entered.
pub open spec fn entry_ok(a: ActivationView) -> bool {
    &&& a.func_addr == a.entry_pc
    &&& a.call_seq < a.entry_seq
    &&& a.expected_resume == a.call_pc + 4
    &&& a.unresolved_reason is None
}

/// The boundaries of an activation that was left.
pub open spec fn bounds_ok(a: ActivationView) -> bool {
    &&& entry_ok(a)
    &&& a.entry_seq <= a.exit_seq < a.resume_seq
}

/// Two activations follow each other, or the later lies within the earlier.
pub open spec fn apart_or_within(s: Seq<ActivationView>, i: int, j: int) -> bool {
    ||| s[i].exit_seq < s[j].entry_seq
    ||| below(s, i, j) && s[i].entry_seq <= s[j].entry_seq && s[j].exit_seq < s[i].exit_seq
}

pub open spec fn bypass_ok(c: BypassedCall) -> bool {
    c.expected_resume == c.call_pc + 4 && c.call_seq < c.resume_seq
}

/// What the state looks like up to line `now`.
spec fn sound(f: Forest, now: int) -> bool {
    &&& forest_ok(f)
    // the open activations form a chain
    &&& forall|k: int, l: int|
        #![trigger f.stack[k], f.stack[l]]
        0 <= k < l < f.stack.len() ==> f.stack[k] < f.stack[l]
    &&& forall|k: int|
        #![trigger f.stack[k]]
        0 <= k < f.stack.len() ==> entry_ok(f.activations[f.stack[k] as int])
            && f.activations[f.stack[k] as int].entry_seq <= f.last->0.seq
    &&& f.stack.len() > 0 ==> f.last is Some
    &&& f.last matches Some(last) ==> last.seq <= now
    &&& f.pending matches Some(c) ==> c.parent_id == top(f) && c.call_seq <= now && c.expected_resume
        == c.call_pc + 4
    // numbers follow entries
    &&& forall|i: int|
        #![trigger f.activations[i]]
        0 < i < f.activations.len() ==> f.activations[i].entry_seq <= now
    &&& forall|i: int, j: int|
        #![trigger f.activations[i], f.activations[j]]
        0 < i < j < f.activations.len() ==> f.activations[i].entry_seq <= f.activations[j].entry_seq
    // everything after an open activation lies below it
    &&& forall|k: int, j: int|
        #![trigger f.stack[k], f.activations[j]]
        0 <= k < f.stack.len() && f.stack[k] < j < f.activations.len() ==> below(
            f.activations,
            f.stack[k] as int,
            j,
        )
    // closed activations
    &&& forall|i: int| #[trigger]
        is_closed(f, i) ==> f.last is Some && bounds_ok(f.activations[i])
            && f.activations[i].resume_seq <= f.last->0.seq
    &&& forall|i: int, k: int|
        #![trigger is_closed(f, i), f.stack[k]]
        is_closed(f, i) && 0 <= k < f.stack.len() && i < f.stack[k] ==> f.activations[i].exit_seq
            < f.activations[f.stack[k] as int].entry_seq
    &&& forall|i: int, j: int|
        #![trigger is_closed(f, i), is_closed(f, j)]
        is_closed(f, i) && is_closed(f, j) && i < j ==> apart_or_within(f.activations, i, j)
    // bypassed calls
    &&& forall|c: int| #![trigger f.bypassed[c]] 0 <= c < f.bypassed.len() ==> bypass_ok(f.bypassed[c])
}

/// A new activation below the innermost open one, which is not opened itself.
proof fn lemma_given_up(f: Forest, now: int, seq: u32, reason: UnresolvedReason)
    requires
        sound(f, now),
        now < seq,
        f.activations.len() < u32::MAX,
    ensures
        sound(given_up(f, seq, reason), seq as int),
        top(given_up(f, seq, reason)) == top(f),
{
    let g = given_up(f, seq, reason);
    if let Some(c) = f.pending {
        let n = f.activations.len() as int;
        let a = lost(n as u32, c, seq, reason);
        lemma_grown(f, a, seq);
        assert(g.activations == grown(f.activations, a));
        assert forall|i: int| #[trigger] is_closed(g, i) implies is_closed(f, i) && g.activations[i].exit_seq
            == f.activations[i].exit_seq && g.activations[i].entry_seq
            == f.activations[i].entry_seq by {
            assert(i != n);
        }
        lemma_closed_kept(f, g);
        assert forall|k: int|
            #![trigger g.stack[k]]
            0 <= k < g.stack.len() implies entry_ok(g.activations[g.stack[k] as int])
            && g.activations[g.stack[k] as int].entry_seq <= g.last->0.seq by {
            assert(f.stack[k] == g.stack[k]);
            assert(f.stack[k] < n);
        }
    } else {
        assert(g == f);
        lemma_later(f, now, seq as int);
    }
}

/// Time may pass.
proof fn lemma_later(f: Forest, now: int, later: int)
    requires
        sound(f, now),
        now <= later,
    ensures
        sound(f, later),
{
}

/// What growing keeps: everything but the list of children of the caller.
proof fn lemma_grown(f: Forest, a: ActivationView, seq: u32)
    requires
        forest_ok(f),
        a.id == f.activations.len(),
        a.parent_id == top(f),
        forall|k: int, j: int|
            #![trigger f.stack[k], f.activations[j]]
            0 <= k < f.stack.len() && f.stack[k] < j < f.activations.len() ==> below(
                f.activations,
                f.stack[k] as int,
                j,
            ),
        forall|k: int, l: int|
            #![trigger f.stack[k], f.stack[l]]
            0 <= k < l < f.stack.len() ==> f.stack[k] < f.stack[l],
    ensures
        ({
            let s = f.activations;
            let t = grown(s, a);
            &&& t.len() == s.len() + 1
            &&& t[s.len() as int] == a
            &&& forall|i: int|
                #![trigger t[i]]
                0 <= i < s.len() ==> t[i] == (ActivationView { children: t[i].children, ..s[i] })
            &&& forall|k: int, j: int|
                #![trigger f.stack[k], t[j]]
                0 <= k < f.stack.len() && f.stack[k] < j < t.len() ==> below(
                    t,
                    f.stack[k] as int,
                    j,
                )
            &&& forall|i: int, j: int|
                #![trigger below(t, i, j)]
                0 <= j < s.len() ==> below(t, i, j) == below(s, i, j)
        }),
{
    let s = f.activations;
    let t = grown(s, a);
    let n = s.len() as int;
    assert forall|i: int, j: int| #![trigger below(t, i, j)] 0 <= j < n implies below(t, i, j)
        == below(s, i, j) by {
        lemma_below_same(s, t, i, j);
    }
    assert forall|k: int, j: int|
        #![trigger f.stack[k], t[j]]
        0 <= k < f.stack.len() && f.stack[k] < j < t.len() implies below(t, f.stack[k] as int, j) by {
        let i = f.stack[k] as int;
        if j < n {
            assert(below(s, i, j)) by {
                assert(s[j] == s[j]);
            }
            assert(below(t, i, j) == below(s, i, j));
        } else {
            let last = f.stack.len() - 1;
            let p = f.stack[last];
            assert(a.parent_id == Some(p));
            if k < last {
                assert(f.stack[k] < f.stack[last]);
                assert(s[p as int] == s[p as int]);
                assert(below(s, i, p as int));
                assert(below(t, i, p as int) == below(s, i, p as int));
            }
        }
    }
}

/// Closed activations are not touched by growing.
proof fn lemma_closed_kept(f: Forest, g: Forest)
    requires
        forest_ok(f),
        g.activations.len() >= f.activations.len(),
        forall|i: int|
            #![trigger g.activations[i]]
            0 <= i < f.activations.len() ==> g.activations[i] == (ActivationView {
                children: g.activations[i].children,
                ..f.activations[i]
            }),
        forall|i: int| #[trigger] is_closed(g, i) ==> is_closed(f, i),
        forall|i: int, j: int|
            #![trigger is_closed(f, i), is_closed(f, j)]
            is_closed(f, i) && is_closed(f, j) && i < j ==> apart_or_within(f.activations, i, j),
    ensures
        forall|i: int, j: int|
            #![trigger is_closed(g, i), is_closed(g, j)]
            is_closed(g, i) && is_closed(g, j) && i < j ==> apart_or_within(g.activations, i, j),
{
    assert forall|i: int, j: int|
        #![trigger is_closed(g, i), is_closed(g, j)]
        is_closed(g, i) && is_closed(g, j) && i < j implies apart_or_within(g.activations, i, j) by {
        assert(is_closed(f, i) && is_closed(f, j));
        assert(apart_or_within(f.activations, i, j));
        assert(g.activations[i] == (ActivationView {
            children: g.activations[i].children,
            ..f.activations[i]
        }));
        assert(g.activations[j] == (ActivationView {
            children: g.activations[j].children,
            ..f.activations[j]
        }));
        assert forall|x: int| #![trigger f.activations[x]] 0 <= x <= j implies f.activations[x].parent_id
            == g.activations[x].parent_id by {
            assert(g.activations[x] == (ActivationView {
                children: g.activations[x].children,
                ..f.activations[x]
            }));
        }
        lemma_below_same(f.activations, g.activations, i, j);
    }
}

proof fn lemma_call(f: Forest, now: int, seq: u32, pc: u64)
    requires
        sound(f, now),
        now < seq,
        pc + 4 <= u64::MAX,
        f.activations.len() < u32::MAX,
    ensures
        sound(after_call(f, seq, pc), seq as int),
{
    lemma_given_up(f, now, seq, UnresolvedReason::DisplacedByAnotherCall);
    let g = given_up(f, seq, UnresolvedReason::DisplacedByAnotherCall);
    let h = after_call(f, seq, pc);
    assert(h.activations == g.activations && h.stack == g.stack && h.bypassed == g.bypassed
        && h.last == g.last);
    assert forall|i: int| #[trigger] is_closed(h, i) == is_closed(g, i) by {}
    lemma_closed_kept(g, h);
}

/// A call is entered.
proof fn lemma_enter(f: Forest, now: int, c: PendingCall, fact: InsnFact)
    requires
        sound(f, now),
        now < fact.seq,
        f.pending == Some(c),
        fact.pc != c.expected_resume,
        f.activations.len() < u32::MAX,
    ensures
        sound(after_insn(f, fact), fact.seq as int),
{
    let g = after_insn(f, fact);
    let n = f.activations.len() as int;
    let a = entered(n as u32, c, fact);
    lemma_grown(f, a, fact.seq);
    assert(g.activations == grown(f.activations, a));
    assert(g.stack == f.stack.push(n as u32));
    assert(entry_ok(a));
    assert forall|i: int| #[trigger] is_closed(g, i) implies is_closed(f, i) by {
        assert(g.stack[f.stack.len() as int] == n as u32);
        assert(i != n);
        if f.stack.contains(i as u32) {
            let w = choose|w: int| 0 <= w < f.stack.len() && f.stack[w] == i as u32;
            assert(g.stack[w] == i as u32);
        }
    }
    lemma_closed_kept(f, g);
    assert forall|k: int, l: int|
        #![trigger g.stack[k], g.stack[l]]
        0 <= k < l < g.stack.len() implies g.stack[k] < g.stack[l] by {
        assert(g.stack[k] == f.stack[k]);
        if l < f.stack.len() {
            assert(g.stack[l] == f.stack[l]);
        }
    }
    assert forall|k: int|
        #![trigger g.stack[k]]
        0 <= k < g.stack.len() implies entry_ok(g.activations[g.stack[k] as int])
        && g.activations[g.stack[k] as int].entry_seq <= g.last->0.seq && 0 < g.stack[k]
        < g.activations.len() by {
        if k < f.stack.len() {
            assert(g.stack[k] == f.stack[k]);
        }
    }
    assert forall|k: int, j: int|
        #![trigger g.stack[k], g.activations[j]]
        0 <= k < g.stack.len() && g.stack[k] < j < g.activations.len() implies below(
        g.activations,
        g.stack[k] as int,
        j,
    ) by {
        assert(k < f.stack.len());
        assert(g.stack[k] == f.stack[k]);
    }
    assert forall|i: int, k: int|
        #![trigger is_closed(g, i), g.stack[k]]
        is_closed(g, i) && 0 <= k < g.stack.len() && i < g.stack[k] implies g.activations[i].exit_seq
        < g.activations[g.stack[k] as int].entry_seq by {
        assert(is_closed(f, i));
        if k < f.stack.len() {
            assert(g.stack[k] == f.stack[k]);
        }
    }
}

/// The innermost open activation is left.
proof fn lemma_leave(f: Forest, now: int, fact: InsnFact)
    requires
        sound(f, now),
        now < fact.seq,
        f.pending is None,
        resumes(f, fact),
    ensures
        sound(after_insn(f, fact), fact.seq as int),
{
    let g = after_insn(f, fact);
    let top_at = f.stack.len() - 1;
    let t = f.stack.last() as int;
    let last = f.last->0;
    assert(f.stack[top_at] == t);
    assert(g.activations == f.activations.update(t, closed(f.activations[t], last, fact)));
    assert forall|k: int| #![trigger g.stack[k]] 0 <= k < g.stack.len() implies g.stack[k] == f.stack[k] && g.stack[k]
        < t by {
        assert(f.stack[k] < f.stack[top_at]);
    }
    assert forall|i: int, j: int|
        #![trigger below(g.activations, i, j)]
        0 <= j < f.activations.len() implies below(g.activations, i, j) == below(
        f.activations,
        i,
        j,
    ) by {
        lemma_below_same(f.activations, g.activations, i, j);
    }
    assert forall|i: int| #[trigger] is_closed(g, i) implies is_closed(f, i) || i == t by {
        if f.stack.contains(i as u32) && i != t {
            let w = choose|w: int| 0 <= w < f.stack.len() && f.stack[w] == i as u32;
            assert(w != top_at);
            assert(g.stack[w] == i as u32);
        }
    }
    assert(bounds_ok(g.activations[t]));
    assert forall|i: int| #[trigger] is_closed(g, i) implies bounds_ok(g.activations[i])
        && g.activations[i].resume_seq <= fact.seq by {
        if i != t {
            assert(is_closed(f, i));
        }
    }
    assert forall|i: int, j: int|
        #![trigger is_closed(g, i), is_closed(g, j)]
        is_closed(g, i) && is_closed(g, j) && i < j implies apart_or_within(g.activations, i, j) by {
        assert(below(g.activations, i, j) == below(f.activations, i, j));
        if i == t {
            assert(is_closed(f, j));
            assert(f.activations[j] == f.activations[j]);
            assert(below(f.activations, f.stack[top_at] as int, j));
            assert(f.activations[i].entry_seq <= f.activations[j].entry_seq);
        } else if j == t {
            assert(is_closed(f, i));
            assert(i < f.stack[top_at]);
        } else {
            assert(is_closed(f, i) && is_closed(f, j));
        }
    }
    assert forall|i: int, k: int|
        #![trigger is_closed(g, i), g.stack[k]]
        is_closed(g, i) && 0 <= k < g.stack.len() && i < g.stack[k] implies g.activations[i].exit_seq
        < g.activations[g.stack[k] as int].entry_seq by {
        assert(g.stack[k] == f.stack[k]);
        assert(i != t);
        assert(is_closed(f, i));
    }
    assert forall|k: int, j: int|
        #![trigger g.stack[k], g.activations[j]]
        0 <= k < g.stack.len() && g.stack[k] < j < g.activations.len() implies below(
        g.activations,
        g.stack[k] as int,
        j,
    ) by {
        assert(g.stack[k] == f.stack[k]);
        assert(f.activations[j] == f.activations[j]);
        assert(below(f.activations, f.stack[k] as int, j));
        assert(below(g.activations, g.stack[k] as int, j) == below(
            f.activations,
            g.stack[k] as int,
            j,
        ));
    }
    assert forall|k: int|
        #![trigger g.stack[k]]
        0 <= k < g.stack.len() implies entry_ok(g.activations[g.stack[k] as int])
        && g.activations[g.stack[k] as int].entry_seq <= g.last->0.seq by {
        assert(g.stack[k] == f.stack[k]);
    }
    assert forall|k: int, l: int|
        #![trigger g.stack[k], g.stack[l]]
        0 <= k < l < g.stack.len() implies g.stack[k] < g.stack[l] by {
        assert(g.stack[k] == f.stack[k] && g.stack[l] == f.stack[l]);
    }
}

proof fn lemma_insn(f: Forest, now: int, fact: InsnFact)
    requires
        sound(f, now),
        now < fact.seq,
        f.activations.len() < u32::MAX,
    ensures
        sound(after_insn(f, fact), fact.seq as int),
{
    match f.pending {
        Some(c) => {
            if fact.pc == c.expected_resume {
                let g = after_insn(f, fact);
                assert(g.activations == f.activations && g.stack == f.stack);
                assert forall|i: int| #[trigger] is_closed(g, i) == is_closed(f, i) by {}
                lemma_closed_kept(f, g);
                assert forall|x: int| #![trigger g.bypassed[x]] 0 <= x < g.bypassed.len() implies bypass_ok(
                    g.bypassed[x],
                ) by {
                    if x < f.bypassed.len() {
                        assert(g.bypassed[x] == f.bypassed[x]);
                    }
                }
            } else {
                lemma_enter(f, now, c, fact);
            }
        },
        None => {
            if resumes(f, fact) {
                lemma_leave(f, now, fact);
            } else {
                let g = after_insn(f, fact);
                assert(g.activations == f.activations && g.stack == f.stack);
                assert forall|i: int| #[trigger] is_closed(g, i) == is_closed(f, i) by {}
                lemma_closed_kept(f, g);
            }
        },
    }
}

spec fn seq_of_last(events: Seq<TraceEvent>, n: int) -> int {
    if n <= 0 {
        -1
    } else {
        event_seq(events[n - 1]) as int
    }
}

proof fn lemma_sound(events: Seq<TraceEvent>, n: int)
    requires
        trace_like(events),
        0 <= n <= events.len(),
    ensures
        sound(fed(events, n), seq_of_last(events, n)),
        fed(events, n).activations.len() <= n + 1,
    decreases n,
{
    if n > 0 {
        lemma_sound(events, n - 1);
        let f = fed(events, n - 1);
        match events[n - 1] {
            TraceEvent::Insn(fact) => {
                lemma_insn(f, seq_of_last(events, n - 1), fact);
            },
            TraceEvent::Call { seq, pc } => {
                lemma_call(f, seq_of_last(events, n - 1), seq, pc);
            },
        }
    }
}

// ---------------------------------------------------------------------------
// Laws
// ---------------------------------------------------------------------------

/// A confirmed activation, the root apart.
pub open spec fn is_confirmed(s: Seq<ActivationView>, i: int) -> bool {
    0 < i < s.len() && s[i].unresolved_reason is None
}

/// In the finished tree exactly the closed activations are confirmed, and they
/// are as they were when they closed.
proof fn lemma_confirmed(f: Forest, now: int, total: u32)
    requires
        sound(f, now),
        f.activations.len() < u32::MAX,
    ensures
        forall|i: int| #[trigger]
            is_confirmed(finished(f, total), i) ==> is_closed(f, i) && finished(f, total)[i] == (
            ActivationView { children: finished(f, total)[i].children, ..f.activations[i] }),
        finished(f, total).len() >= f.activations.len(),
        forall|i: int|
            #![trigger finished(f, total)[i]]
            0 <= i < f.activations.len() ==> finished(f, total)[i].parent_id
                == f.activations[i].parent_id,
{
    let t = finished(f, total);
    let g = given_up(f, last_line(total), UnresolvedReason::NoNextInsn);
    if let Some(c) = f.pending {
        lemma_grown(
            f,
            lost(
                f.activations.len() as u32,
                c,
                last_line(total),
                UnresolvedReason::NoNextInsn,
            ),
            0,
        );
    }
    assert forall|i: int| 0 <= i < f.activations.len() implies #[trigger] g.activations[i] == (
    ActivationView { children: g.activations[i].children, ..f.activations[i] }) by {}
    assert forall|i: int| #[trigger] is_confirmed(t, i) implies is_closed(f, i) && t[i] == (
    ActivationView { children: t[i].children, ..f.activations[i] }) by {
        if i < f.activations.len() {
            assert(g.activations[i] == (ActivationView {
                children: g.activations[i].children,
                ..f.activations[i]
            }));
        }
    }
    assert forall|i: int| #![trigger t[i]] 0 <= i < f.activations.len() implies t[i].parent_id
        == f.activations[i].parent_id by {
        assert(g.activations[i] == (ActivationView {
            children: g.activations[i].children,
            ..f.activations[i]
        }));
    }
}

/// Boundaries are in order: a confirmed activation is called, entered, left and
/// resumed in this order, it is identified by the address of its first
/// instruction, and both confirmed and bypassed calls resume right after the
/// call.
pub proof fn law_boundaries_are_in_order(events: Seq<TraceEvent>, total: u32)
    requires
        trace_like(events),
    ensures
        ({
            let f = fed(events, events.len() as int);
            &&& forall|i: int| #[trigger]
                is_confirmed(finished(f, total), i) ==> bounds_ok(finished(f, total)[i])
            &&& forall|c: int|
                #![trigger f.bypassed[c]]
                0 <= c < f.bypassed.len() ==> bypass_ok(f.bypassed[c])
        }),
{
    let n = events.len() as int;
    lemma_sound(events, n);
    let f = fed(events, n);
    lemma_confirmed(f, seq_of_last(events, n), total);
    assert forall|i: int| #[trigger] is_confirmed(finished(f, total), i) implies bounds_ok(
        finished(f, total)[i],
    ) by {
        assert(is_closed(f, i));
    }
}

/// Activations nest: of two confirmed ones the later lies after the earlier or,
/// being called from it, strictly within it.
pub proof fn law_activations_nest(events: Seq<TraceEvent>, total: u32, i: int, j: int)
    requires
        trace_like(events),
        i < j,
        is_confirmed(finished(fed(events, events.len() as int), total), i),
        is_confirmed(finished(fed(events, events.len() as int), total), j),
    ensures
        apart_or_within(finished(fed(events, events.len() as int), total), i, j),
{
    let n = events.len() as int;
    lemma_sound(events, n);
    let f = fed(events, n);
    let t = finished(f, total);
    lemma_confirmed(f, seq_of_last(events, n), total);
    assert(is_closed(f, i) && is_closed(f, j));
    assert(apart_or_within(f.activations, i, j));
    assert forall|x: int| #![trigger f.activations[x]] 0 <= x <= j implies f.activations[x].parent_id
        == t[x].parent_id by {
        assert(t[x].parent_id == f.activations[x].parent_id);
    }
    lemma_below_same(f.activations, t, i, j);
}

proof fn lemma_owner_below(s: Seq<ActivationView>, seq: u32, n: int)
    requires
        0 <= n <= s.len(),
    ensures
        match owner_below(s, seq, n) {
            Some(i) => 0 < i < n && covers(s[i], seq) && forall|j: int|
                #![trigger s[j]]
                i < j < n ==> !covers(s[j], seq),
            None => forall|j: int| #![trigger s[j]] 0 < j < n ==> !covers(s[j], seq),
        },
    decreases n,
{
    if n > 1 {
        lemma_owner_below(s, seq, n - 1);
    }
}

/// A line belongs to the innermost confirmed activation around it: it has an
/// owner exactly if some activation covers it, and every activation that covers
/// it covers the whole owner.
pub proof fn law_owner_is_innermost(events: Seq<TraceEvent>, total: u32, seq: u32)
    requires
        trace_like(events),
    ensures
        ({
            let t = finished(fed(events, events.len() as int), total);
            match owner_of(t, seq) {
                Some(i) => is_confirmed(t, i) && covers(t[i], seq) && forall|j: int|
                    #![trigger t[j]]
                    0 < j < t.len() && covers(t[j], seq) ==> t[j].entry_seq <= t[i].entry_seq
                        && t[i].exit_seq <= t[j].exit_seq,
                None => forall|j: int| #![trigger t[j]] 0 < j < t.len() ==> !covers(t[j], seq),
            }
        }),
{
    let t = finished(fed(events, events.len() as int), total);
    lemma_owner_below(t, seq, t.len() as int);
    if let Some(i) = owner_of(t, seq) {
        assert(is_confirmed(t, i));
        assert forall|j: int| #![trigger t[j]] 0 < j < t.len() && covers(t[j], seq) implies t[j].entry_seq
            <= t[i].entry_seq && t[i].exit_seq <= t[j].exit_seq by {
            if j < i {
                assert(is_confirmed(t, j));
                law_activations_nest(events, total, j, i);
            } else if j > i {
                assert(!covers(t[j], seq));
            }
        }
    }
}

/// The instruction at which an activation resumes belongs to the caller: no
/// confirmed activation covers its own resume.
pub proof fn law_resume_belongs_to_the_caller(events: Seq<TraceEvent>, total: u32, i: int)
    requires
        trace_like(events),
        is_confirmed(finished(fed(events, events.len() as int), total), i),
    ensures
        ({
            let t = finished(fed(events, events.len() as int), total);
            !covers(t[i], t[i].resume_seq)
        }),
{
    law_boundaries_are_in_order(events, total);
}

// ---------------------------------------------------------------------------
// From the call to the resume
// ---------------------------------------------------------------------------

/// The instruction of an event.
pub open spec fn fact_of(e: TraceEvent) -> InsnFact {
    e->Insn_0
}

/// Nothing in `low..high` resumes at `resume` or is entered: calls there go on
/// right behind the call, and no other instruction stands at the address.
pub open spec fn quiet(events: Seq<TraceEvent>, low: int, high: int, resume: u64) -> bool {
    forall|j: int|
        #![trigger events[j]]
        low <= j < high ==> match events[j] {
            TraceEvent::Call { seq, pc } => pc + 4 <= u64::MAX && j + 1 < high
                && events[j + 1] is Insn && fact_of(events[j + 1]).pc == pc + 4,
            TraceEvent::Insn(fact) => (j > low && events[j - 1] is Call) || fact.pc != resume,
        }
}

/// The call at `k` is entered by the instruction that follows it.
pub open spec fn enters(events: Seq<TraceEvent>, k: int) -> bool {
    &&& 0 <= k
    &&& k + 1 < events.len()
    &&& events[k] matches TraceEvent::Call { seq, pc } && pc + 4 <= u64::MAX
        && events[k + 1] is Insn && fact_of(events[k + 1]).pc != pc + 4
}

/// Number of the activation that the call at `k` becomes.
pub open spec fn number_of(events: Seq<TraceEvent>, k: int) -> int {
    fed(events, k + 1).activations.len() as int
}

/// The call at `k` as the activation says it.
pub open spec fn is_call_of(a: ActivationView, events: Seq<TraceEvent>, k: int) -> bool {
    &&& a.call_seq == events[k]->Call_seq
    &&& a.call_pc == events[k]->pc
    &&& a.expected_resume == events[k]->pc + 4
    &&& a.parent_id == top(fed(events, k))
}

proof fn lemma_within(events: Seq<TraceEvent>, k: int, m: int, high: int)
    requires
        events.len() + 1 < u32::MAX,
        enters(events, k),
        k + 2 <= m <= high <= events.len(),
        quiet(events, k + 2, high, (events[k]->pc + 4) as u64),
    ensures
        ({
            let f = fed(events, m);
            let i = number_of(events, k);
            &&& 0 < i < u32::MAX
            &&& f.stack == fed(events, k).stack.push(i as u32)
            &&& f.activations == fed(events, k + 2).activations
            &&& i < f.activations.len()
            &&& is_call_of(f.activations[i], events, k)
            &&& f.activations[i].entry_seq == fact_of(events[k + 1]).seq
            &&& f.activations[i].entry_pc == fact_of(events[k + 1]).pc
            &&& f.activations[i].func_addr == fact_of(events[k + 1]).pc
            &&& f.activations[i].unresolved_reason is None
            &&& (f.pending is Some) == (events[m - 1] is Call)
            &&& f.pending matches Some(c) ==> c.expected_resume == events[m - 1]->pc + 4
            &&& events[m - 1] is Insn ==> f.last == Some(fact_of(events[m - 1]))
        }),
    decreases m,
{
    lemma_accounts(events, k + 1);
    lemma_accounts(events, k);
    if m == k + 2 {
        let f = fed(events, k + 1);
        let p = position(top(fed(events, k)));
        if fed(events, k).stack.len() > 0 {
            assert(fed(events, k).stack[fed(events, k).stack.len() - 1] < fed(
                events,
                k,
            ).activations.len());
        }
        assert(p < f.activations.len());
    } else {
        lemma_within(events, k, m - 1, high);
        assert(events[m - 1] is Call || events[m - 1] is Insn);
        if m - 2 >= k + 2 {
            assert(events[m - 2] is Call || events[m - 2] is Insn);
        }
        let f = fed(events, m - 1);
        assert(f.stack.last() == number_of(events, k));
    }
}

/// Activation `i` is over and says the same later.
proof fn lemma_stays(events: Seq<TraceEvent>, i: int, a: ActivationView, m: int, n: int)
    requires
        events.len() + 1 < u32::MAX,
        0 <= m <= n <= events.len(),
        0 < i < fed(events, m).activations.len(),
        !fed(events, m).stack.contains(i as u32),
        fed(events, m).activations[i] == (ActivationView {
            children: fed(events, m).activations[i].children,
            ..a
        }),
    ensures
        i < fed(events, n).activations.len(),
        !fed(events, n).stack.contains(i as u32),
        fed(events, n).activations[i] == (ActivationView {
            children: fed(events, n).activations[i].children,
            ..a
        }),
    decreases n,
{
    if m < n {
        lemma_stays(events, i, a, m, n - 1);
        lemma_accounts(events, n - 1);
        lemma_accounts(events, n);
        let f = fed(events, n - 1);
        let g = fed(events, n);
        if f.stack.len() > 0 {
            assert(f.stack.last() != i) by {
                if f.stack.last() == i {
                    assert(f.stack.contains(i as u32));
                }
            }
        }
        assert(!g.stack.contains(i as u32)) by {
            if g.stack.contains(i as u32) {
                let k = choose|k: int| 0 <= k < g.stack.len() && g.stack[k] == i as u32;
                if k < f.stack.len() {
                    assert(f.stack[k] == g.stack[k]);
                }
            }
        }
    }
}

proof fn lemma_at_the_end(events: Seq<TraceEvent>, i: int, total: u32)
    requires
        events.len() + 1 < u32::MAX,
        0 < i < fed(events, events.len() as int).activations.len(),
    ensures
        ({
            let f = fed(events, events.len() as int);
            let t = finished(f, total);
            &&& i < t.len()
            &&& !f.stack.contains(i as u32) ==> t[i] == (ActivationView {
                children: t[i].children,
                ..f.activations[i]
            })
            &&& f.stack.contains(i as u32) ==> t[i] == (ActivationView {
                children: t[i].children,
                exit_seq: last_line(total),
                exit_pc: t[i].exit_pc,
                unresolved_reason: Some(UnresolvedReason::TraceEndStillActive),
                ..f.activations[i]
            })
        }),
{
    lemma_accounts(events, events.len() as int);
}

/// An activation begins with the instruction behind the call, unless that is
/// where the call goes on; it ends with the instruction before the first one at
/// that address, calls within it that have no body left aside; its caller is
/// the activation that was innermost at the call, and is innermost again from
/// the resume on.
pub proof fn law_an_activation_lasts_until_its_resume(
    events: Seq<TraceEvent>,
    k: int,
    r: int,
    total: u32,
)
    requires
        events.len() + 1 < u32::MAX,
        enters(events, k),
        k + 2 <= r < events.len(),
        quiet(events, k + 2, r, (events[k]->pc + 4) as u64),
        events[r - 1] is Insn,
        events[r] is Insn,
        fact_of(events[r]).pc == events[k]->pc + 4,
    ensures
        ({
            let t = finished(fed(events, events.len() as int), total);
            let i = number_of(events, k);
            &&& 0 < i < t.len()
            &&& is_call_of(t[i], events, k)
            &&& t[i].entry_seq == fact_of(events[k + 1]).seq
            &&& t[i].entry_pc == fact_of(events[k + 1]).pc
            &&& t[i].func_addr == fact_of(events[k + 1]).pc
            &&& t[i].exit_seq == fact_of(events[r - 1]).seq
            &&& t[i].exit_pc == fact_of(events[r - 1]).pc
            &&& t[i].resume_seq == fact_of(events[r]).seq
            &&& t[i].unresolved_reason is None
            &&& forall|m: int| k + 2 <= m <= r ==> top(#[trigger] fed(events, m)) == Some(i as u32)
            &&& fed(events, r + 1).stack == fed(events, k).stack
        }),
{
    let i = number_of(events, k);
    assert forall|m: int| k + 2 <= m <= r implies top(#[trigger] fed(events, m)) == Some(
        i as u32,
    ) by {
        lemma_within(events, k, m, r);
    }
    lemma_within(events, k, r, r);
    let f = fed(events, r);
    let g = fed(events, r + 1);
    assert(f.stack.last() == i);
    assert(g.stack =~= fed(events, k).stack);
    lemma_accounts(events, k);
    assert(!g.stack.contains(i as u32)) by {
        if g.stack.contains(i as u32) {
            let w = choose|w: int| 0 <= w < g.stack.len() && g.stack[w] == i as u32;
            assert(fed(events, k).stack[w] < fed(events, k).activations.len());
            assert(fed(events, k).activations.len() <= i);
        }
    }
    lemma_stays(events, i, g.activations[i], r + 1, events.len() as int);
    lemma_at_the_end(events, i, total);
}

/// An activation whose resume never comes is cut off at the end of the trace.
pub proof fn law_an_activation_without_resume_is_cut_off(
    events: Seq<TraceEvent>,
    k: int,
    total: u32,
)
    requires
        events.len() + 1 < u32::MAX,
        enters(events, k),
        quiet(events, k + 2, events.len() as int, (events[k]->pc + 4) as u64),
    ensures
        ({
            let t = finished(fed(events, events.len() as int), total);
            let i = number_of(events, k);
            &&& 0 < i < t.len()
            &&& is_call_of(t[i], events, k)
            &&& t[i].entry_seq == fact_of(events[k + 1]).seq
            &&& t[i].unresolved_reason == Some(UnresolvedReason::TraceEndStillActive)
            &&& t[i].exit_seq == last_line(total)
        }),
{
    let n = events.len() as int;
    let i = number_of(events, k);
    lemma_within(events, k, n, n);
    let f = fed(events, n);
    assert(f.stack[f.stack.len() - 1] == i as u32);
    lemma_at_the_end(events, i, total);
}

/// A call that goes on right behind itself has no activation: it is listed as
/// bypassed, and the activation around it stays innermost.
pub proof fn law_a_call_without_body_is_bypassed(events: Seq<TraceEvent>, k: int)
    requires
        events.len() + 1 < u32::MAX,
        0 <= k,
        k + 1 < events.len(),
        events[k] is Call,
        events[k]->pc + 4 <= u64::MAX,
        events[k + 1] is Insn,
        fact_of(events[k + 1]).pc == events[k]->pc + 4,
    ensures
        fed(events, events.len() as int).bypassed.contains(
            BypassedCall {
                call_seq: events[k]->Call_seq,
                call_pc: events[k]->pc,
                expected_resume: (events[k]->pc + 4) as u64,
                resume_seq: fact_of(events[k + 1]).seq,
                parent_id: top(fed(events, k)),
            },
        ),
        fed(events, k + 2).stack == fed(events, k).stack,
        fed(events, k + 2).activations == fed(events, k + 1).activations,
{
    let f = fed(events, k + 2);
    assert(f == after_event(fed(events, k + 1), events[k + 1]));
    assert(fed(events, k + 1) == after_event(fed(events, k), events[k]));
    lemma_bypassed_stays(events, k + 2, events.len() as int, f.bypassed.len() - 1);
}

proof fn lemma_bypassed_stays(events: Seq<TraceEvent>, m: int, n: int, w: int)
    requires
        0 <= m <= n,
        0 <= w < fed(events, m).bypassed.len(),
    ensures
        w < fed(events, n).bypassed.len(),
        fed(events, n).bypassed[w] == fed(events, m).bypassed[w],
    decreases n,
{
    if m < n {
        lemma_bypassed_stays(events, m, n - 1, w);
    }
}

/// A call followed by another call is given up for it; one that nothing follows
/// is given up at the end of the trace.
pub proof fn law_a_call_without_instruction_is_given_up(
    events: Seq<TraceEvent>,
    k: int,
    total: u32,
)
    requires
        events.len() + 1 < u32::MAX,
        0 <= k < events.len(),
        events[k] is Call,
        events[k]->pc + 4 <= u64::MAX,
        k + 1 == events.len() || events[k + 1] is Call,
    ensures
        ({
            let t = finished(fed(events, events.len() as int), total);
            let i = number_of(events, k);
            &&& 0 < i < t.len()
            &&& is_call_of(t[i], events, k)
            &&& t[i].resume_seq == u32::MAX
            &&& t[i].exit_seq == u32::MAX
            &&& if k + 1 == events.len() {
                t[i].unresolved_reason == Some(UnresolvedReason::NoNextInsn) && t[i].entry_seq
                    == last_line(total)
            } else {
                t[i].unresolved_reason == Some(UnresolvedReason::DisplacedByAnotherCall)
                    && t[i].entry_seq == events[k + 1]->Call_seq
            }
        }),
{
    let n = events.len() as int;
    let i = number_of(events, k);
    lemma_accounts(events, k);
    lemma_accounts(events, k + 1);
    let f = fed(events, k + 1);
    assert(f == after_event(fed(events, k), events[k]));
    assert(f.stack == fed(events, k).stack);
    assert(!f.stack.contains(i as u32)) by {
        if f.stack.contains(i as u32) {
            let w = choose|w: int| 0 <= w < f.stack.len() && f.stack[w] == i as u32;
            assert(f.stack[w] < f.activations.len());
        }
    }
    if fed(events, k).stack.len() > 0 {
        assert(fed(events, k).stack[fed(events, k).stack.len() - 1] < fed(
            events,
            k,
        ).activations.len());
    }
    if k + 1 < n {
        let g = fed(events, k + 2);
        assert(g == after_event(f, events[k + 1]));
        lemma_stays(events, i, g.activations[i], k + 2, n);
        lemma_at_the_end(events, i, total);
    }
}

} // verus!
