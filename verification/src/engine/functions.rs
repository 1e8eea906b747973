//! Annotated calls by function.

use crate::engine::session::TraceEngine;
use crate::error::{is_unknown_session, TraceError};
use crate::foreign;
use crate::merge::events::CallAnnotation;
use std::collections::HashMap;
use vstd::prelude::*;

verus! {

/// The calls of a function.
pub struct FunctionCallEntry {
    pub func_name: String,
    pub is_jni: bool,
    /// Lines of the calls, ascending.
    pub occurrences: Vec<u32>,
}

/// The functions in the order of their first calls.
pub struct FunctionCallsResult {
    pub functions: Vec<FunctionCallEntry>,
    pub total_calls: usize,
}

/// The lines with an annotation, ascending.
pub open spec fn annotated_lines(lines: Seq<u32>, notes: Map<u32, CallAnnotation>) -> bool {
    &&& forall|i: int, j: int|
        #![trigger lines[i], lines[j]]
        0 <= i < j < lines.len() ==> lines[i] < lines[j]
    &&& forall|line: u32| lines.contains(line) == #[trigger] notes.contains_key(line)
}

/// The lines at which a function is called.
pub open spec fn calls_of(
    lines: Seq<u32>,
    notes: Map<u32, CallAnnotation>,
    name: Seq<char>,
) -> Seq<u32> {
    lines.filter(|line: u32| notes[line].func_name@ == name)
}

/// One entry per function, in the order of the first calls; an entry has all
/// calls of its function.
pub open spec fn grouped(
    entries: Seq<FunctionCallEntry>,
    lines: Seq<u32>,
    notes: Map<u32, CallAnnotation>,
) -> bool {
    &&& forall|g: int|
        #![trigger entries[g]]
        0 <= g < entries.len() ==> {
            &&& entries[g].occurrences@ == calls_of(lines, notes, entries[g].func_name@)
            &&& entries[g].occurrences@.len() > 0
            &&& entries[g].is_jni == notes[entries[g].occurrences@[0]].is_jni
        }
    &&& forall|g: int, h: int|
        #![trigger entries[g], entries[h]]
        0 <= g < h < entries.len() ==> entries[g].func_name@ != entries[h].func_name@
            && entries[g].occurrences@[0] < entries[h].occurrences@[0]
    &&& forall|i: int|
        #![trigger lines[i]]
        0 <= i < lines.len() ==> has_entry(entries, notes[lines[i]].func_name@)
}

pub open spec fn has_entry(entries: Seq<FunctionCallEntry>, name: Seq<char>) -> bool {
    exists|g: int| 0 <= g < entries.len() && #[trigger] entries[g].func_name@ == name
}

/// The same numbers in another order, each once.
proof fn lemma_rearranged(a: Seq<u32>, b: Seq<u32>)
    requires
        a.no_duplicates(),
        a.to_multiset() == b.to_multiset(),
        foreign::ascending(b),
    ensures
        forall|x: u32| #![trigger b.contains(x)] a.contains(x) == b.contains(x),
        forall|i: int, j: int|
            #![trigger b[i], b[j]]
            0 <= i < j < b.len() ==> b[i] < b[j],
{
    broadcast use vstd::seq_lib::group_to_multiset_ensures;

    assert forall|x: u32| #![trigger b.contains(x)] a.contains(x) == b.contains(x) by {
        assert(a.contains(x) == (a.to_multiset().count(x) > 0));
        assert(b.contains(x) == (b.to_multiset().count(x) > 0));
    }
    a.lemma_multiset_has_no_duplicates();
    assert forall|x: u32| b.to_multiset().contains(x) implies #[trigger] b.to_multiset().count(x)
        == 1 by {
        assert(a.to_multiset().contains(x));
    }
    b.lemma_multiset_has_no_duplicates_conv();
    assert forall|i: int, j: int| #![trigger b[i], b[j]] 0 <= i < j < b.len() implies b[i] < b[j] by {
        assert(b[i] <= b[j]);
        assert(b[i] != b[j]);
    }
}

fn sorted_lines(notes: &HashMap<u32, CallAnnotation>) -> (lines: Vec<u32>)
    ensures
        annotated_lines(lines@, notes@),
{
    broadcast use vstd::std_specs::hash::group_hash_axioms;

    let mut lines: Vec<u32> = Vec::new();
    for key in iter: notes.keys()
        invariant
            lines@ =~= iter.seq().unref().take(iter.index()),
            iter.index() == iter.seq().len() ==> lines@ =~= iter.seq().unref(),
            iter.seq().unref().to_set() == notes@.dom(),
            iter.seq().no_duplicates(),
    {
        assert(lines@.push(*key) =~= iter.seq().unref().take(iter.index() + 1));
        lines.push(*key);
    }
    let ghost before = lines@;
    assert(before.to_set() =~= notes@.dom());
    assert(before.no_duplicates());
    foreign::sort_numbers(&mut lines);
    proof {
        lemma_rearranged(before, lines@);
        assert forall|line: u32| lines@.contains(line) == #[trigger] notes@.contains_key(line) by {
            assert(before.to_set().contains(line) == before.contains(line));
            assert(before.contains(line) == lines@.contains(line));
        }
    }
    lines
}

proof fn lemma_calls_push(
    lines: Seq<u32>,
    line: u32,
    notes: Map<u32, CallAnnotation>,
    name: Seq<char>,
)
    ensures
        calls_of(lines.push(line), notes, name) == (if notes[line].func_name@ == name {
            calls_of(lines, notes, name).push(line)
        } else {
            calls_of(lines, notes, name)
        }),
{
    reveal(Seq::filter);
    assert(lines.push(line).drop_last() =~= lines);
}

proof fn lemma_no_calls(lines: Seq<u32>, notes: Map<u32, CallAnnotation>, name: Seq<char>)
    requires
        forall|i: int|
            #![trigger lines[i]]
            0 <= i < lines.len() ==> notes[lines[i]].func_name@ != name,
    ensures
        calls_of(lines, notes, name) == Seq::<u32>::empty(),
    decreases lines.len(),
{
    reveal(Seq::filter);
    if lines.len() > 0 {
        let rest = lines.drop_last();
        assert forall|i: int| #![trigger rest[i]] 0 <= i < rest.len() implies notes[rest[i]].func_name@
            != name by {
            assert(rest[i] == lines[i]);
        }
        lemma_no_calls(rest, notes, name);
        assert(lines =~= rest.push(lines.last()));
        lemma_calls_push(rest, lines.last(), notes, name);
    }
}

proof fn lemma_first_call(lines: Seq<u32>, notes: Map<u32, CallAnnotation>, name: Seq<char>)
    ensures
        calls_of(lines, notes, name).len() > 0 ==> lines.contains(
            calls_of(lines, notes, name)[0],
        ),
    decreases lines.len(),
{
    reveal(Seq::filter);
    if lines.len() > 0 {
        let rest = lines.drop_last();
        lemma_first_call(rest, notes, name);
        assert(lines =~= rest.push(lines.last()));
        lemma_calls_push(rest, lines.last(), notes, name);
        if calls_of(rest, notes, name).len() > 0 {
            let w = choose|w: int|
                0 <= w < rest.len() && rest[w] == calls_of(rest, notes, name)[0];
            assert(lines[w] == rest[w]);
        }
        assert(lines[lines.len() - 1] == lines.last());
    }
}

/// Position of the entry of a function.
fn find_entry(entries: &Vec<FunctionCallEntry>, name: &String) -> (r: Option<usize>)
    ensures
        match r {
            Some(g) => g < entries@.len() && entries@[g as int].func_name@ == name@,
            None => !has_entry(entries@, name@),
        },
{
    let mut g: usize = 0;
    while g < entries.len()
        invariant
            g <= entries@.len(),
            forall|h: int|
                #![trigger entries@[h]]
                0 <= h < g ==> entries@[h].func_name@ != name@,
        decreases entries@.len() - g,
    {
        if entries[g].func_name == *name {
            return Some(g);
        }
        g += 1;
    }
    None
}

/// Adds the next call to the entries.
#[verifier::rlimit(40)]
fn add_call(
    entries: &mut Vec<FunctionCallEntry>,
    line: u32,
    note: &CallAnnotation,
    Ghost(lines): Ghost<Seq<u32>>,
    Ghost(notes): Ghost<Map<u32, CallAnnotation>>,
)
    requires
        grouped(old(entries)@, lines, notes),
        notes[line] == *note,
        forall|i: int| #![trigger lines[i]] 0 <= i < lines.len() ==> lines[i] < line,
    ensures
        grouped(final(entries)@, lines.push(line), notes),
{
    let ghost before = entries@;
    let ghost more = lines.push(line);
    let ghost name = note.func_name@;
    proof {
        assert forall|g: int| #![trigger before[g]] 0 <= g < before.len() implies before[g].occurrences@[0]
            < line by {
            lemma_first_call(lines, notes, before[g].func_name@);
        }
    }
    match find_entry(entries, &note.func_name) {
        Some(at) => {
            entries[at].occurrences.push(line);
            proof {
                let after = entries@;
                assert forall|g: int| #![trigger after[g]] 0 <= g < after.len() implies {
                    &&& after[g].occurrences@ == calls_of(more, notes, after[g].func_name@)
                    &&& after[g].occurrences@.len() > 0
                    &&& after[g].is_jni == notes[after[g].occurrences@[0]].is_jni
                    &&& after[g].func_name == before[g].func_name
                    &&& after[g].occurrences@[0] == before[g].occurrences@[0]
                } by {
                    lemma_calls_push(lines, line, notes, before[g].func_name@);
                    if g != at {
                        assert(after[g] == before[g]);
                        if g < at {
                            assert(before[g].func_name@ != before[at as int].func_name@);
                        } else {
                            assert(before[at as int].func_name@ != before[g].func_name@);
                        }
                    }
                }
                assert forall|g: int, h: int| #![trigger after[g], after[h]] 0 <= g < h
                    < after.len() implies after[g].func_name@ != after[h].func_name@
                    && after[g].occurrences@[0] < after[h].occurrences@[0] by {
                    assert(before[g].func_name@ != before[h].func_name@);
                }
                assert forall|i: int| #![trigger more[i]] 0 <= i < more.len() implies has_entry(
                    after,
                    notes[more[i]].func_name@,
                ) by {
                    if i < lines.len() {
                        assert(more[i] == lines[i]);
                        let g = choose|g: int|
                            0 <= g < before.len() && #[trigger] before[g].func_name@
                                == notes[lines[i]].func_name@;
                        assert(after[g].func_name@ == before[g].func_name@);
                    } else {
                        assert(after[at as int].func_name@ == name);
                    }
                }
            }
        },
        None => {
            let mut occurrences: Vec<u32> = Vec::new();
            occurrences.push(line);
            entries.push(
                FunctionCallEntry {
                    func_name: note.func_name.clone(),
                    is_jni: note.is_jni,
                    occurrences,
                },
            );
            proof {
                let after = entries@;
                let n = before.len() as int;
                assert forall|i: int| #![trigger lines[i]] 0 <= i < lines.len() implies notes[lines[i]].func_name@
                    != name by {
                    assert(has_entry(before, notes[lines[i]].func_name@));
                }
                lemma_no_calls(lines, notes, name);
                lemma_calls_push(lines, line, notes, name);
                assert(after[n].occurrences@ =~= calls_of(more, notes, name));
                assert forall|g: int| #![trigger after[g]] 0 <= g < after.len() implies {
                    &&& after[g].occurrences@ == calls_of(more, notes, after[g].func_name@)
                    &&& after[g].occurrences@.len() > 0
                    &&& after[g].is_jni == notes[after[g].occurrences@[0]].is_jni
                } by {
                    if g < n {
                        assert(after[g] == before[g]);
                        lemma_calls_push(lines, line, notes, before[g].func_name@);
                        assert(before[g].func_name@ != name);
                    }
                }
                assert forall|g: int, h: int| #![trigger after[g], after[h]] 0 <= g < h
                    < after.len() implies after[g].func_name@ != after[h].func_name@
                    && after[g].occurrences@[0] < after[h].occurrences@[0] by {
                    assert(after[g] == before[g]);
                    assert(before[g].func_name@ != name);
                    if h < n {
                        assert(after[h] == before[h]);
                    }
                }
                assert forall|i: int| #![trigger more[i]] 0 <= i < more.len() implies has_entry(
                    after,
                    notes[more[i]].func_name@,
                ) by {
                    if i < lines.len() {
                        assert(more[i] == lines[i]);
                        let g = choose|g: int|
                            0 <= g < before.len() && #[trigger] before[g].func_name@
                                == notes[lines[i]].func_name@;
                        assert(after[g].func_name@ == before[g].func_name@);
                    } else {
                        assert(after[n].func_name@ == name);
                    }
                }
            }
        },
    }
}

/// The annotated calls of a trace by function.
pub fn group_calls(notes: &HashMap<u32, CallAnnotation>) -> (r: FunctionCallsResult)
    ensures
        exists|lines: Seq<u32>|
            #![trigger annotated_lines(lines, notes@)]
            annotated_lines(lines, notes@) && grouped(r.functions@, lines, notes@) && r.total_calls
                == lines.len(),
{
    broadcast use vstd::std_specs::hash::group_hash_axioms;

    let lines = sorted_lines(notes);
    let ghost all = lines@;
    let mut functions: Vec<FunctionCallEntry> = Vec::new();
    let mut i: usize = 0;
    while i < lines.len()
        invariant
            i <= lines@.len(),
            all == lines@,
            annotated_lines(all, notes@),
            grouped(functions@, all.take(i as int), notes@),
        decreases lines@.len() - i,
    {
        let line: u32 = lines[i];
        assert(all.contains(line));
        assert(notes@.contains_key(line));
        if let Some(note) = notes.get(&line) {
            add_call(&mut functions, line, note, Ghost(all.take(i as int)), Ghost(notes@));
            assert(all.take(i + 1) =~= all.take(i as int).push(line));
        }
        i += 1;
    }
    assert(all.take(all.len() as int) =~= all);
    FunctionCallsResult { functions, total_calls: lines.len() }
}

/// The result shows the annotated calls.
pub open spec fn shows_calls(r: FunctionCallsResult, notes: Map<u32, CallAnnotation>) -> bool {
    exists|lines: Seq<u32>|
        #![trigger annotated_lines(lines, notes)]
        annotated_lines(lines, notes) && grouped(r.functions@, lines, notes) && r.total_calls
            == lines.len()
}

impl TraceEngine {
    /// The annotated calls of a trace by function, in the order of the first
    /// calls.
    pub fn get_function_calls(&self, session_id: &str) -> (r: Result<
        FunctionCallsResult,
        TraceError,
    >)
        ensures
            match self.session(session_id@) {
                None => r matches Err(e) && is_unknown_session(e, session_id@),
                Some(s) => r matches Ok(calls) && shows_calls(calls, s.call_annotations@),
            },
    {
        match self.get_handle(session_id) {
            Ok(state) => Ok(group_calls(&state.call_annotations)),
            Err(e) => Err(e),
        }
    }
}

} // verus!
