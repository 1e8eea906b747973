//! Replaying the events of all chunks in order, and register snapshots across
//! chunk boundaries.

use crate::parallel_types::{CallTreeEvent, GumtraceAnnotEvent, SpecialLineData};
use crate::query::call_tree;
use crate::query::call_tree::{CallTree, CallTreeBuilder, NodeView, TreeModel};
use crate::query::registers::{RegCheckpoints, RegSnapshot, UNKNOWN_VALUE};
use crate::types::REG_COUNT;
use std::collections::HashMap;
use vstd::prelude::*;

verus! {

// ---------------------------------------------------------------------------
// Call tree
// ---------------------------------------------------------------------------

/// A replay in progress.
pub struct ReplayModel {
    pub tree: TreeModel,
    /// Address of an indirect call whose target is not known yet.
    pub pending: Option<u64>,
    pub root_set: bool,
}

pub open spec fn replay_start() -> ReplayModel {
    ReplayModel { tree: call_tree::empty_tree(), pending: None, root_set: false }
}

/// `seq - 1`, or 0.
pub open spec fn line_before(seq: u32) -> u32 {
    if seq == 0 {
        0
    } else {
        (seq - 1) as u32
    }
}

/// One event. The first line with an address after an indirect call tells
/// where the call went; if it is the line after the call, the callee was not
/// recorded and is closed at once.
pub open spec fn replay_step(m: ReplayModel, event: CallTreeEvent) -> ReplayModel {
    match event {
        CallTreeEvent::SetRootAddr { addr } => {
            if m.root_set {
                m
            } else {
                ReplayModel {
                    tree: call_tree::with_root_addr(m.tree, addr),
                    root_set: true,
                    ..m
                }
            }
        },
        CallTreeEvent::LineAddr { seq, addr } => match m.pending {
            Some(pc) if addr != 0 => {
                let moved = call_tree::with_current_addr(m.tree, addr);
                ReplayModel {
                    tree: if addr == pc + 4 {
                        call_tree::after_ret(moved, line_before(seq))
                    } else {
                        moved
                    },
                    pending: None,
                    ..m
                }
            },
            _ => m,
        },
        CallTreeEvent::Call { seq, target } => {
            ReplayModel { tree: call_tree::after_call(m.tree, seq, target), ..m }
        },
        CallTreeEvent::Ret { seq } => {
            ReplayModel { tree: call_tree::after_ret(m.tree, seq), ..m }
        },
        CallTreeEvent::BlrPending { seq, pc } => ReplayModel { pending: Some(pc), ..m },
        CallTreeEvent::SetFuncName { entry_seq, name } => {
            ReplayModel { tree: call_tree::with_name(m.tree, entry_seq, name@), ..m }
        },
    }
}

/// The replay after the first `n` events.
pub open spec fn replay(events: Seq<CallTreeEvent>, n: int) -> ReplayModel
    decreases n,
{
    if n <= 0 {
        replay_start()
    } else {
        replay_step(replay(events, n - 1), events[n - 1])
    }
}

/// How many of the first `n` events are calls.
pub open spec fn calls_among(events: Seq<CallTreeEvent>, n: int) -> int
    decreases n,
{
    if n <= 0 {
        0
    } else {
        calls_among(events, n - 1) + (if events[n - 1] is Call {
            1int
        } else {
            0
        })
    }
}

proof fn lemma_calls_among(events: Seq<CallTreeEvent>, n: int, m: int)
    requires
        n <= m,
    ensures
        calls_among(events, n) <= calls_among(events, m),
    decreases m,
{
    if n < m && 0 < m {
        lemma_calls_among(events, n, m - 1);
    }
}

/// Calls are numbered in 32 bits, and no indirect call sits at the very end of
/// the address space.
pub open spec fn events_ok(events: Seq<CallTreeEvent>) -> bool {
    &&& calls_among(events, events.len() as int) <= u32::MAX
    &&& forall|i: int|
        #![trigger events[i]]
        0 <= i < events.len() ==> (events[i] matches CallTreeEvent::BlrPending { seq, pc } ==> pc + 4
            <= u64::MAX)
}

/// Builds the call tree of the whole trace from the events of all chunks.
pub fn replay_call_tree_events(events: &Vec<CallTreeEvent>, total_lines: u32) -> (tree: CallTree)
    requires
        events_ok(events@),
    ensures
        call_tree::tree_ok(tree@),
        tree@ == call_tree::close_all(replay(events@, events@.len() as int).tree, total_lines),
{
    let mut builder = CallTreeBuilder::new();
    let mut pending: Option<u64> = None;
    let mut root_set: bool = false;
    let mut i: usize = 0;
    while i < events.len()
        invariant
            i <= events@.len(),
            events_ok(events@),
            builder.wf(),
            builder@.nodes.len() == calls_among(events@, i as int) + 1,
            builder@ == replay(events@, i as int).tree,
            pending == replay(events@, i as int).pending,
            root_set == replay(events@, i as int).root_set,
            pending matches Some(pc) ==> pc + 4 <= u64::MAX,
        decreases events@.len() - i,
    {
        let ghost m = replay(events@, i as int);
        assert(replay(events@, i + 1) == replay_step(m, events@[i as int]));
        match &events[i] {
            CallTreeEvent::SetRootAddr { addr } => {
                if !root_set {
                    builder.set_root_addr(*addr);
                    root_set = true;
                }
            },
            CallTreeEvent::LineAddr { seq, addr } => {
                if let Some(pc) = pending {
                    if *addr != 0 {
                        pending = None;
                        builder.update_current_func_addr(*addr);
                        if *addr == pc + 4 {
                            let line: u32 = if *seq == 0 {
                                0
                            } else {
                                *seq - 1
                            };
                            builder.on_ret(line);
                        }
                    }
                }
            },
            CallTreeEvent::Call { seq, target } => {
                proof {
                    lemma_calls_among(events@, i + 1, events@.len() as int);
                }
                builder.on_call(*seq, *target);
            },
            CallTreeEvent::Ret { seq } => {
                builder.on_ret(*seq);
            },
            CallTreeEvent::BlrPending { seq: _, pc } => {
                pending = Some(*pc);
            },
            CallTreeEvent::SetFuncName { entry_seq, name } => {
                proof {
                    lemma_named_len(
                        builder@.nodes,
                        *entry_seq,
                        name@,
                        builder@.nodes.len() as int,
                    );
                }
                builder.set_func_name_by_entry_seq(*entry_seq, name.as_str());
            },
        }
        i += 1;
    }
    builder.finish(total_lines)
}

/// Naming a node keeps the number of nodes.
proof fn lemma_named_len(nodes: Seq<NodeView>, entry_seq: u32, name: Seq<char>, n: int)
    requires
        n <= nodes.len(),
    ensures
        call_tree::named(nodes, entry_seq, name, n).len() == nodes.len(),
    decreases n,
{
    if n > 0 {
        lemma_named_len(nodes, entry_seq, name, n - 1);
    }
}

// ---------------------------------------------------------------------------
// Call annotations
// ---------------------------------------------------------------------------

/// What the trace says about a call to a known function.
pub struct CallAnnotation {
    pub func_name: String,
    pub is_jni: bool,
    /// Argument index and value, in order.
    pub args: Vec<(String, String)>,
    pub ret_value: Option<String>,
    /// The lines as they stand in the trace.
    pub raw_lines: Vec<String>,
}

/// An annotation as a mathematical value.
#[verifier::ext_equal]
pub struct AnnotView {
    pub func_name: Seq<char>,
    pub is_jni: bool,
    pub args: Seq<(Seq<char>, Seq<char>)>,
    pub ret_value: Option<Seq<char>>,
    pub raw_lines: Seq<Seq<char>>,
}

pub open spec fn text_views(lines: Seq<String>) -> Seq<Seq<char>> {
    lines.map_values(|s: String| s@)
}

pub open spec fn arg_views(args: Seq<(String, String)>) -> Seq<(Seq<char>, Seq<char>)> {
    args.map_values(|a: (String, String)| (a.0@, a.1@))
}

impl View for CallAnnotation {
    type V = AnnotView;

    open spec fn view(&self) -> AnnotView {
        AnnotView {
            func_name: self.func_name@,
            is_jni: self.is_jni,
            args: arg_views(self.args@),
            ret_value: call_tree::name_view(self.ret_value),
            raw_lines: text_views(self.raw_lines@),
        }
    }
}

pub open spec fn annot_views(m: Map<u32, CallAnnotation>) -> Map<u32, AnnotView> {
    m.map_values(|a: CallAnnotation| a@)
}

/// A replay of annotation lines in progress.
#[verifier::ext_equal]
pub struct AnnotModel {
    /// Finished annotations by the line of the call.
    pub done: Map<u32, AnnotView>,
    /// Lines within an annotation that nothing else claims.
    pub extra: Seq<u32>,
    /// Latest branch without an annotation.
    pub pending: Option<u32>,
    /// The annotation being read.
    pub current: Option<(u32, AnnotView)>,
}

pub open spec fn annot_start() -> AnnotModel {
    AnnotModel { done: Map::empty(), extra: Seq::empty(), pending: None, current: None }
}

/// The finished annotations once the current one is closed.
pub open spec fn flushed(m: AnnotModel) -> Map<u32, AnnotView> {
    match m.current {
        Some((seq, ann)) => m.done.insert(seq, ann),
        None => m.done,
    }
}

pub open spec fn annot_line(m: AnnotModel, special: SpecialLineData) -> AnnotModel {
    match special {
        SpecialLineData::CallFunc { name, is_jni, raw } => {
            AnnotModel {
                done: flushed(m),
                current: match m.pending {
                    Some(seq) => Some(
                        (
                            seq,
                            AnnotView {
                                func_name: name@,
                                is_jni,
                                args: Seq::empty(),
                                ret_value: None,
                                raw_lines: seq![raw@],
                            },
                        ),
                    ),
                    None => None,
                },
                pending: None,
                ..m
            }
        },
        SpecialLineData::Arg { index, value, raw } => match m.current {
            Some((seq, ann)) => AnnotModel {
                current: Some(
                    (
                        seq,
                        AnnotView {
                            args: ann.args.push((index@, value@)),
                            raw_lines: ann.raw_lines.push(raw@),
                            ..ann
                        },
                    ),
                ),
                ..m
            },
            None => m,
        },
        SpecialLineData::Ret { value, raw } => match m.current {
            Some((seq, ann)) => AnnotModel {
                done: m.done.insert(
                    seq,
                    AnnotView {
                        ret_value: Some(value@),
                        raw_lines: ann.raw_lines.push(raw@),
                        ..ann
                    },
                ),
                current: None,
                ..m
            },
            None => m,
        },
        SpecialLineData::HexDump { raw } => match m.current {
            Some((seq, ann)) => AnnotModel {
                current: Some((seq, AnnotView { raw_lines: ann.raw_lines.push(raw@), ..ann })),
                ..m
            },
            None => m,
        },
    }
}

pub open spec fn annot_step(m: AnnotModel, event: GumtraceAnnotEvent) -> AnnotModel {
    match event {
        GumtraceAnnotEvent::BranchInstr { seq } => AnnotModel { pending: Some(seq), ..m },
        GumtraceAnnotEvent::SpecialLine { seq, special } => annot_line(m, special),
        GumtraceAnnotEvent::OrphanLine { seq } => {
            if m.current is Some {
                AnnotModel { extra: m.extra.push(seq), ..m }
            } else {
                m
            }
        },
    }
}

/// The replay after the first `n` events.
pub open spec fn annot_replay(events: Seq<GumtraceAnnotEvent>, n: int) -> AnnotModel
    decreases n,
{
    if n <= 0 {
        annot_start()
    } else {
        annot_step(annot_replay(events, n - 1), events[n - 1])
    }
}

pub open spec fn current_view(current: Option<(u32, CallAnnotation)>) -> Option<(u32, AnnotView)> {
    match current {
        Some((seq, ann)) => Some((seq, ann@)),
        None => None,
    }
}

/// Appends a raw line to an annotation.
fn push_raw(ann: CallAnnotation, raw: &String) -> (r: CallAnnotation)
    ensures
        r@ == (AnnotView { raw_lines: ann@.raw_lines.push(raw@), ..ann@ }),
{
    let mut ann = ann;
    let ghost before = ann@;
    ann.raw_lines.push(raw.clone());
    assert(ann@.raw_lines =~= before.raw_lines.push(raw@));
    ann
}

/// Enters a finished annotation.
fn enter(done: &mut HashMap<u32, CallAnnotation>, seq: u32, ann: CallAnnotation)
    ensures
        annot_views(final(done)@) == annot_views(old(done)@).insert(seq, ann@),
{
    let ghost before = done@;
    done.insert(seq, ann);
    assert(annot_views(done@) =~= annot_views(before).insert(seq, ann@));
}

/// Collects the call annotations of the whole trace, and the lines within an
/// annotation that nothing else claims.
#[verifier::rlimit(40)]
pub fn replay_gumtrace_annotations(events: &Vec<GumtraceAnnotEvent>) -> (r: (
    HashMap<u32, CallAnnotation>,
    Vec<u32>,
))
    ensures
        annot_views(r.0@) == flushed(annot_replay(events@, events@.len() as int)),
        r.1@ == annot_replay(events@, events@.len() as int).extra,
{
    let mut done: HashMap<u32, CallAnnotation> = HashMap::new();
    let mut extra: Vec<u32> = Vec::new();
    let mut pending: Option<u32> = None;
    let mut current: Option<(u32, CallAnnotation)> = None;
    assert(annot_views(done@) =~= Map::empty());
    let mut i: usize = 0;
    while i < events.len()
        invariant
            i <= events@.len(),
            annot_views(done@) == annot_replay(events@, i as int).done,
            extra@ == annot_replay(events@, i as int).extra,
            pending == annot_replay(events@, i as int).pending,
            current_view(current) == annot_replay(events@, i as int).current,
        decreases events@.len() - i,
    {
        let ghost m = annot_replay(events@, i as int);
        assert(annot_replay(events@, i + 1) == annot_step(m, events@[i as int]));
        match &events[i] {
            GumtraceAnnotEvent::BranchInstr { seq } => {
                pending = Some(*seq);
            },
            GumtraceAnnotEvent::SpecialLine { seq: _, special } => {
                match special {
                    SpecialLineData::CallFunc { name, is_jni, raw } => {
                        if let Some((seq, ann)) = current {
                            enter(&mut done, seq, ann);
                        }
                        current = None;
                        if let Some(seq) = pending {
                            let mut raw_lines: Vec<String> = Vec::new();
                            raw_lines.push(raw.clone());
                            let ann = CallAnnotation {
                                func_name: name.clone(),
                                is_jni: *is_jni,
                                args: Vec::new(),
                                ret_value: None,
                                raw_lines,
                            };
                            assert(ann@.raw_lines =~= seq![raw@]);
                            assert(ann@.args =~= Seq::empty());
                            current = Some((seq, ann));
                        }
                        pending = None;
                    },
                    SpecialLineData::Arg { index, value, raw } => {
                        if let Some((seq, ann)) = current {
                            let ghost before = ann@;
                            let mut ann = push_raw(ann, raw);
                            ann.args.push((index.clone(), value.clone()));
                            assert(ann@.args =~= before.args.push((index@, value@)));
                            current = Some((seq, ann));
                        } else {
                            current = None;
                        }
                    },
                    SpecialLineData::Ret { value, raw } => {
                        if let Some((seq, ann)) = current {
                            let mut ann = push_raw(ann, raw);
                            ann.ret_value = Some(value.clone());
                            enter(&mut done, seq, ann);
                        }
                        current = None;
                    },
                    SpecialLineData::HexDump { raw } => {
                        if let Some((seq, ann)) = current {
                            let ann = push_raw(ann, raw);
                            current = Some((seq, ann));
                        } else {
                            current = None;
                        }
                    },
                }
            },
            GumtraceAnnotEvent::OrphanLine { seq } => {
                if current.is_some() {
                    extra.push(*seq);
                }
            },
        }
        i += 1;
    }
    if let Some((seq, ann)) = current {
        enter(&mut done, seq, ann);
    }
    (done, extra)
}

// ---------------------------------------------------------------------------
// Register snapshots
// ---------------------------------------------------------------------------

/// A snapshot with its unknown values taken from before the chunk.
pub open spec fn filled(snapshot: Seq<u64>, prev: Seq<u64>) -> Seq<u64> {
    Seq::new(
        snapshot.len(),
        |r: int|
            if snapshot[r] == UNKNOWN_VALUE {
                prev[r]
            } else {
                snapshot[r]
            },
    )
}

fn fill_snapshot(snapshot: &RegSnapshot, prev: &[u64; REG_COUNT]) -> (r: RegSnapshot)
    ensures
        r.0@ == filled(snapshot.0@, prev@),
{
    let mut values: [u64; REG_COUNT] = snapshot.0;
    let mut i: usize = 0;
    while i < REG_COUNT
        invariant
            i <= REG_COUNT,
            values@ =~= filled(snapshot.0@, prev@).take(i as int) + snapshot.0@.skip(i as int),
        decreases REG_COUNT - i,
    {
        if values[i] == UNKNOWN_VALUE && prev[i] != UNKNOWN_VALUE {
            values[i] = prev[i];
        }
        i += 1;
    }
    RegSnapshot(values)
}

/// Fills the unknown values of a chunk's snapshots with the values at the end
/// of the chunk before it.
pub fn fix_reg_checkpoints(ckpts: &mut RegCheckpoints, prev_final_reg_values: &[u64; REG_COUNT])
    ensures
        final(ckpts).interval == old(ckpts).interval,
        final(ckpts)@ == old(ckpts)@.map_values(
            |s: Seq<u64>| filled(s, prev_final_reg_values@),
        ),
{
    let ghost start = ckpts@;
    let ghost fill = |s: Seq<u64>| filled(s, prev_final_reg_values@);
    let mut i: usize = 0;
    while i < ckpts.snapshots.len()
        invariant
            i <= ckpts.snapshots@.len(),
            ckpts.snapshots@.len() == start.len(),
            ckpts.interval == old(ckpts).interval,
            fill == (|s: Seq<u64>| filled(s, prev_final_reg_values@)),
            ckpts@ =~= start.map_values(fill).take(i as int) + start.skip(i as int),
        decreases ckpts.snapshots@.len() - i,
    {
        let ghost before = ckpts@;
        let filled_one = fill_snapshot(&ckpts.snapshots[i], prev_final_reg_values);
        ckpts.snapshots[i] = filled_one;
        assert(ckpts@ =~= before.update(i as int, filled_one.0@));
        assert(before[i as int] == start[i as int]);
        i += 1;
    }
}

} // verus!
