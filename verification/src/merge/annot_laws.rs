//! Which calls are annotated, and with what.

use crate::merge::events::{annot_replay, flushed, AnnotView};
use crate::parallel_types::{GumtraceAnnotEvent, SpecialLineData};
use vstd::prelude::*;

verus! {

/// The line announces a called function.
pub open spec fn announces(e: GumtraceAnnotEvent) -> bool {
    e matches GumtraceAnnotEvent::SpecialLine { seq, special } && special is CallFunc
}

/// The line reports what a call returned.
pub open spec fn is_return(e: GumtraceAnnotEvent) -> bool {
    e matches GumtraceAnnotEvent::SpecialLine { seq, special } && special is Ret
}

/// The branch at `p` is the last one before `i`, and nothing was announced
/// since.
pub open spec fn waits(events: Seq<GumtraceAnnotEvent>, p: int, i: int) -> bool {
    &&& 0 <= p < i
    &&& events[p] is BranchInstr
    &&& forall|j: int|
        #![trigger events[j]]
        p < j < i ==> !(events[j] is BranchInstr) && !announces(events[j])
}

/// Nothing in `low..high` ends an annotation.
pub open spec fn goes_on(events: Seq<GumtraceAnnotEvent>, low: int, high: int) -> bool {
    forall|j: int|
        #![trigger events[j]]
        low <= j < high ==> !announces(events[j]) && !is_return(events[j])
}

/// The line of a branch.
pub open spec fn line_of(e: GumtraceAnnotEvent) -> u32 {
    match e {
        GumtraceAnnotEvent::BranchInstr { seq } => seq,
        GumtraceAnnotEvent::SpecialLine { seq, special } => seq,
        GumtraceAnnotEvent::OrphanLine { seq } => seq,
    }
}

/// The arguments reported in `low..high`.
pub open spec fn args_in(events: Seq<GumtraceAnnotEvent>, low: int, high: int) -> Seq<
    (Seq<char>, Seq<char>),
>
    decreases high - low,
{
    if high <= low {
        Seq::empty()
    } else {
        args_in(events, low, high - 1) + match events[high - 1] {
            GumtraceAnnotEvent::SpecialLine {
                seq,
                special: SpecialLineData::Arg { index, value, raw },
            } => seq![(index@, value@)],
            _ => Seq::empty(),
        }
    }
}

/// The special lines of `low..high` as they stand in the trace.
pub open spec fn raws_in(events: Seq<GumtraceAnnotEvent>, low: int, high: int) -> Seq<Seq<char>>
    decreases high - low,
{
    if high <= low {
        Seq::empty()
    } else {
        raws_in(events, low, high - 1) + match events[high - 1] {
            GumtraceAnnotEvent::SpecialLine { seq, special } => seq![raw_text(special)],
            _ => Seq::empty(),
        }
    }
}

pub open spec fn raw_text(special: SpecialLineData) -> Seq<char> {
    match special {
        SpecialLineData::CallFunc { name, is_jni, raw } => raw@,
        SpecialLineData::Arg { index, value, raw } => raw@,
        SpecialLineData::Ret { value, raw } => raw@,
        SpecialLineData::HexDump { raw } => raw@,
    }
}

/// The annotation says what was announced at `i` and reported until `e`.
pub open spec fn tells(v: AnnotView, events: Seq<GumtraceAnnotEvent>, i: int, e: int) -> bool {
    let returned = e < events.len() && is_return(events[e]);
    &&& events[i] matches GumtraceAnnotEvent::SpecialLine { seq, special } && (
    special matches SpecialLineData::CallFunc { name, is_jni, raw } && v.func_name == name@
        && v.is_jni == is_jni)
    &&& v.args == args_in(events, i + 1, e)
    &&& v.raw_lines == raws_in(
        events,
        i,
        if returned {
            e + 1
        } else {
            e
        },
    )
    &&& if returned {
        events[e] matches GumtraceAnnotEvent::SpecialLine { seq, special } && (
        special matches SpecialLineData::Ret { value, raw } && v.ret_value == Some(value@))
    } else {
        v.ret_value is None
    }
}

/// The annotation as told so far.
spec fn so_far(v: AnnotView, events: Seq<GumtraceAnnotEvent>, i: int, j: int) -> bool {
    &&& events[i] matches GumtraceAnnotEvent::SpecialLine { seq, special } && (
    special matches SpecialLineData::CallFunc { name, is_jni, raw } && v.func_name == name@
        && v.is_jni == is_jni)
    &&& v.args == args_in(events, i + 1, j)
    &&& v.raw_lines == raws_in(events, i, j)
    &&& v.ret_value is None
}

proof fn lemma_waiting(events: Seq<GumtraceAnnotEvent>, p: int, n: int)
    requires
        waits(events, p, n),
    ensures
        annot_replay(events, n).pending == Some(line_of(events[p])),
    decreases n,
{
    if p < n - 1 {
        lemma_waiting(events, p, n - 1);
        assert(!(events[n - 1] is BranchInstr) && !announces(events[n - 1]));
    }
}

proof fn lemma_waits_for(events: Seq<GumtraceAnnotEvent>, n: int) -> (p: int)
    requires
        0 <= n,
        annot_replay(events, n).pending is Some,
    ensures
        waits(events, p, n),
        annot_replay(events, n).pending == Some(line_of(events[p])),
    decreases n,
{
    if n == 0 {
        0
    } else if events[n - 1] is BranchInstr {
        n - 1
    } else {
        assert(!announces(events[n - 1]));
        lemma_waits_for(events, n - 1)
    }
}

proof fn lemma_open(events: Seq<GumtraceAnnotEvent>, p: int, i: int, j: int)
    requires
        waits(events, p, i),
        announces(events[i]),
        i < j,
        goes_on(events, i + 1, j),
    ensures
        annot_replay(events, j).current matches Some((seq, v)) && seq == line_of(events[p])
            && so_far(v, events, i, j),
    decreases j,
{
    if j == i + 1 {
        lemma_waiting(events, p, i);
        reveal_with_fuel(raws_in, 2);
        let v = (annot_replay(events, j).current->0).1;
        assert(v.raw_lines =~= raws_in(events, i, j));
        assert(v.args =~= args_in(events, i + 1, j));
    } else {
        lemma_open(events, p, i, j - 1);
        assert(!announces(events[j - 1]) && !is_return(events[j - 1]));
        let v = (annot_replay(events, j).current->0).1;
        let b = (annot_replay(events, j - 1).current->0).1;
        assert(v.raw_lines =~= raws_in(events, i, j));
        assert(v.args =~= args_in(events, i + 1, j));
    }
}

/// No other branch stands at the line of the branch at `p`.
pub open spec fn only_branch(events: Seq<GumtraceAnnotEvent>, p: int) -> bool {
    forall|q: int|
        #![trigger events[q]]
        0 <= q < events.len() && q != p && events[q] is BranchInstr ==> line_of(events[q])
            != line_of(events[p])
}

proof fn lemma_other_waits(events: Seq<GumtraceAnnotEvent>, p: int, i: int, n: int)
    requires
        waits(events, p, i),
        announces(events[i]),
        i < n <= events.len(),
        only_branch(events, p),
    ensures
        annot_replay(events, n).pending != Some(line_of(events[p])),
{
    if annot_replay(events, n).pending is Some {
        let q = lemma_waits_for(events, n);
        if q < i {
            assert(announces(events[i]));
        }
        assert(events[q] is BranchInstr);
    }
}

proof fn lemma_done(events: Seq<GumtraceAnnotEvent>, p: int, i: int, e: int, n: int)
    requires
        waits(events, p, i),
        announces(events[i]),
        i < e < n <= events.len(),
        goes_on(events, i + 1, e),
        announces(events[e]) || is_return(events[e]),
        only_branch(events, p),
    ensures
        ({
            let m = annot_replay(events, n);
            let s = line_of(events[p]);
            &&& m.done.contains_key(s)
            &&& tells(m.done[s], events, i, e)
            &&& m.current matches Some((q, v)) ==> q != s
        }),
    decreases n,
{
    let s = line_of(events[p]);
    let m = annot_replay(events, n - 1);
    if n == e + 1 {
        lemma_open(events, p, i, e);
        lemma_other_waits(events, p, i, e);
        let v = annot_replay(events, n).done[s];
        if is_return(events[e]) {
            assert(v.raw_lines =~= raws_in(events, i, e + 1));
        }
    } else {
        lemma_done(events, p, i, e, n - 1);
        lemma_other_waits(events, p, i, n - 1);
    }
}

/// The annotation of a called function goes to the last branch before it, and
/// says the name, the arguments and the returned value reported until the next
/// function is announced or the call returns; its lines are kept as they stand.
pub proof fn law_a_call_is_annotated_at_its_branch(
    events: Seq<GumtraceAnnotEvent>,
    p: int,
    i: int,
    e: int,
)
    requires
        waits(events, p, i),
        i < e <= events.len(),
        announces(events[i]),
        goes_on(events, i + 1, e),
        e == events.len() || announces(events[e]) || is_return(events[e]),
        only_branch(events, p),
    ensures
        ({
            let notes = flushed(annot_replay(events, events.len() as int));
            notes.contains_key(line_of(events[p])) && tells(
                notes[line_of(events[p])],
                events,
                i,
                e,
            )
        }),
{
    if e == events.len() {
        lemma_open(events, p, i, e);
    } else {
        lemma_done(events, p, i, e, events.len() as int);
    }
}

/// A function is announced right after the branch at the line.
pub open spec fn is_called_at(events: Seq<GumtraceAnnotEvent>, n: int, line: u32) -> bool {
    exists|p: int, i: int|
        #![trigger waits(events, p, i)]
        i < n && waits(events, p, i) && announces(events[i]) && line_of(events[p]) == line
}

proof fn lemma_keys(events: Seq<GumtraceAnnotEvent>, n: int, line: u32)
    requires
        0 <= n,
    ensures
        annot_replay(events, n).done.contains_key(line) ==> is_called_at(events, n, line),
        annot_replay(events, n).current matches Some((s, v)) ==> is_called_at(events, n, s),
    decreases n,
{
    if n > 0 {
        let m = annot_replay(events, n - 1);
        lemma_keys(events, n - 1, line);
        if let Some((s, v)) = m.current {
            lemma_called_later(events, n - 1, s);
        }
        if is_called_at(events, n - 1, line) {
            lemma_called_later(events, n - 1, line);
        }
        if announces(events[n - 1]) && m.pending is Some {
            let p = lemma_waits_for(events, n - 1);
            assert(waits(events, p, n - 1));
        }
    }
}

proof fn lemma_called_later(events: Seq<GumtraceAnnotEvent>, n: int, line: u32)
    requires
        is_called_at(events, n, line),
    ensures
        is_called_at(events, n + 1, line),
{
    let (p, i) = choose|p: int, i: int|
        #![trigger waits(events, p, i)]
        i < n && waits(events, p, i) && announces(events[i]) && line_of(events[p]) == line;
    assert(waits(events, p, i));
}

/// Only the branch before an announced function is annotated.
pub proof fn law_only_announced_calls_are_annotated(events: Seq<GumtraceAnnotEvent>, line: u32)
    ensures
        flushed(annot_replay(events, events.len() as int)).contains_key(line) ==> is_called_at(
            events,
            events.len() as int,
            line,
        ),
{
    lemma_keys(events, events.len() as int, line);
}

/// An annotation is open before event `n`: a function was announced after a
/// branch and nothing has ended its annotation since.
pub open spec fn is_open(events: Seq<GumtraceAnnotEvent>, n: int) -> bool {
    exists|p: int, i: int|
        #![trigger waits(events, p, i)]
        i < n && waits(events, p, i) && announces(events[i]) && goes_on(events, i + 1, n)
}

proof fn lemma_is_open(events: Seq<GumtraceAnnotEvent>, n: int)
    requires
        0 <= n,
    ensures
        (annot_replay(events, n).current is Some) == is_open(events, n),
    decreases n,
{
    if is_open(events, n) {
        let (p, i) = choose|p: int, i: int|
            #![trigger waits(events, p, i)]
            i < n && waits(events, p, i) && announces(events[i]) && goes_on(events, i + 1, n);
        lemma_open(events, p, i, n);
    }
    if n > 0 {
        let m = annot_replay(events, n - 1);
        lemma_is_open(events, n - 1);
        if annot_replay(events, n).current is Some {
            if announces(events[n - 1]) {
                let p = lemma_waits_for(events, n - 1);
                assert(waits(events, p, n - 1));
                assert(goes_on(events, n, n));
            } else {
                assert(!is_return(events[n - 1]));
                let (p, i) = choose|p: int, i: int|
                    #![trigger waits(events, p, i)]
                    i < n - 1 && waits(events, p, i) && announces(events[i]) && goes_on(
                        events,
                        i + 1,
                        n - 1,
                    );
                assert(waits(events, p, i));
                assert(goes_on(events, i + 1, n));
            }
        }
    }
}

/// A line that belongs to nothing else is claimed exactly where an annotation is
/// open.
pub proof fn law_orphans_belong_to_the_open_annotation(
    events: Seq<GumtraceAnnotEvent>,
    n: int,
    line: u32,
)
    requires
        0 <= n <= events.len(),
    ensures
        annot_replay(events, n).extra.contains(line) <==> exists|j: int|
            #![trigger events[j]]
            0 <= j < n && events[j] == (GumtraceAnnotEvent::OrphanLine { seq: line }) && is_open(
                events,
                j,
            ),
    decreases n,
{
    if n > 0 {
        law_orphans_belong_to_the_open_annotation(events, n - 1, line);
        lemma_is_open(events, n - 1);
        let before = annot_replay(events, n - 1).extra;
        let all = annot_replay(events, n).extra;
        if before.contains(line) {
            let w = choose|w: int| 0 <= w < before.len() && before[w] == line;
            assert(all[w] == line);
        }
        if all.len() > before.len() {
            assert(all[all.len() - 1] == line_of(events[n - 1]));
        }
        if all.contains(line) && !before.contains(line) {
            let w = choose|w: int| 0 <= w < all.len() && all[w] == line;
            if w < before.len() {
                assert(before[w] == line);
            }
            assert(events[n - 1] == (GumtraceAnnotEvent::OrphanLine { seq: line }));
        }
    }
}

} // verus!
