//! What a replayed call tree says, told by the events alone.

use crate::merge::events::{calls_among, events_ok, replay};
use crate::parallel_types::CallTreeEvent;
use crate::query::call_tree;
use crate::query::call_tree::{close_all, model_ok, named, tree_ok, NodeView, TreeModel};
use vstd::prelude::*;

verus! {

// ---------------------------------------------------------------------------
// What the events say
// ---------------------------------------------------------------------------

/// Where the indirect call sits that still waits for a line with an address.
pub open spec fn waiting(events: Seq<CallTreeEvent>, n: int) -> Option<u64>
    decreases n,
{
    if n <= 0 {
        None
    } else {
        match events[n - 1] {
            CallTreeEvent::BlrPending { seq, pc } => Some(pc),
            CallTreeEvent::LineAddr { seq, addr } => if addr != 0 {
                None
            } else {
                waiting(events, n - 1)
            },
            _ => waiting(events, n - 1),
        }
    }
}

/// The line at which event `i` ends a call: a return, or the line after an
/// indirect call if that is the line of the instruction after it.
pub open spec fn ends_at(events: Seq<CallTreeEvent>, i: int) -> Option<u32> {
    match events[i] {
        CallTreeEvent::Ret { seq } => Some(seq),
        CallTreeEvent::LineAddr { seq, addr } => match waiting(events, i) {
            Some(pc) if addr != 0 && addr == pc + 4 => Some(
                if seq == 0 {
                    0
                } else {
                    (seq - 1) as u32
                },
            ),
            _ => None,
        },
        _ => None,
    }
}

/// The calls that are open before event `n`, the innermost last.
pub open spec fn open_calls(events: Seq<CallTreeEvent>, n: int) -> Seq<int>
    decreases n,
{
    if n <= 0 {
        Seq::empty()
    } else {
        let before = open_calls(events, n - 1);
        if events[n - 1] is Call {
            before.push(n - 1)
        } else if ends_at(events, n - 1) is Some && before.len() > 0 {
            before.drop_last()
        } else {
            before
        }
    }
}

/// The node of the call at event `i`: calls are numbered from 1 on.
pub open spec fn node_of(events: Seq<CallTreeEvent>, i: int) -> int {
    calls_among(events, i) + 1
}

/// The node of the innermost open call; 0 is the root.
pub open spec fn innermost(events: Seq<CallTreeEvent>, n: int) -> int {
    let open = open_calls(events, n);
    if open.len() == 0 {
        0
    } else {
        node_of(events, open.last())
    }
}

/// The line at which the call at event `i` has ended before event `n`.
pub open spec fn ended(events: Seq<CallTreeEvent>, n: int, i: int) -> Option<u32>
    decreases n - i,
{
    if n <= i + 1 {
        None
    } else {
        let open = open_calls(events, n - 1);
        if open.len() > 0 && open.last() == i && ends_at(events, n - 1) is Some {
            ends_at(events, n - 1)
        } else {
            ended(events, n - 1, i)
        }
    }
}

/// The code that the call at event `i` entered, as far as it is known before
/// event `n`: that of the line after an indirect call, else the one that the
/// call names.
pub open spec fn entered(events: Seq<CallTreeEvent>, n: int, i: int) -> u64
    decreases n - i,
{
    if n <= i + 1 {
        events[i]->target
    } else {
        let open = open_calls(events, n - 1);
        match events[n - 1] {
            CallTreeEvent::LineAddr { seq, addr } if addr != 0 && waiting(events, n - 1) is Some
                && open.len() > 0 && open.last() == i => addr,
            _ => entered(events, n - 1, i),
        }
    }
}

// ---------------------------------------------------------------------------
// The replay
// ---------------------------------------------------------------------------

proof fn lemma_calls_grow(events: Seq<CallTreeEvent>, i: int, n: int)
    requires
        0 <= i < n,
    ensures
        0 <= calls_among(events, i) <= calls_among(events, n),
        events[i] is Call ==> calls_among(events, i) < calls_among(events, n),
    decreases n,
{
    if i < n - 1 {
        lemma_calls_grow(events, i, n - 1);
    } else if i > 0 {
        lemma_calls_grow(events, 0, i);
    }
}

/// The open calls are calls before `n`, in order, and each was made when those
/// before it were open.
spec fn open_ok(events: Seq<CallTreeEvent>, n: int) -> bool {
    let open = open_calls(events, n);
    forall|k: int|
        #![trigger open[k]]
        0 <= k < open.len() ==> {
            &&& 0 <= open[k] < n
            &&& events[open[k]] is Call
            &&& open_calls(events, open[k]) == open.take(k)
        }
}

proof fn lemma_open(events: Seq<CallTreeEvent>, n: int)
    requires
        0 <= n <= events.len(),
    ensures
        open_ok(events, n),
    decreases n,
{
    if n > 0 {
        lemma_open(events, n - 1);
        let before = open_calls(events, n - 1);
        let open = open_calls(events, n);
        assert forall|k: int| #![trigger open[k]] 0 <= k < open.len() implies {
            &&& 0 <= open[k] < n
            &&& events[open[k]] is Call
            &&& open_calls(events, open[k]) == open.take(k)
        } by {
            if k < before.len() {
                assert(open[k] == before[k]);
                assert(before.take(k) =~= open.take(k));
            } else {
                assert(open.take(k) =~= before);
            }
        }
    }
}

proof fn lemma_named(nodes: Seq<NodeView>, entry_seq: u32, name: Seq<char>, n: int)
    requires
        n <= nodes.len(),
    ensures
        named(nodes, entry_seq, name, n).len() == nodes.len(),
        forall|i: int|
            #![trigger named(nodes, entry_seq, name, n)[i]]
            0 <= i < nodes.len() ==> named(nodes, entry_seq, name, n)[i] == (NodeView {
                func_name: named(nodes, entry_seq, name, n)[i].func_name,
                ..nodes[i]
            }),
    decreases n,
{
    if n > 0 && nodes[n - 1].entry_seq != entry_seq {
        lemma_named(nodes, entry_seq, name, n - 1);
    }
}

/// The node says what the events say of the call.
spec fn node_right(node: NodeView, events: Seq<CallTreeEvent>, n: int, i: int) -> bool {
    &&& node.id == node_of(events, i)
    &&& node.entry_seq == events[i]->Call_seq
    &&& node.func_addr == entered(events, n, i)
    &&& node.parent_id == Some(innermost(events, i) as u32)
    &&& node.exit_seq == (match ended(events, n, i) {
        Some(line) => line,
        None => 0xFFFF_FFFF,
    })
}

/// Every node but the root is in the list of its parent, and the lists ascend.
#[verifier::opaque]
spec fn lists_ok(s: Seq<NodeView>) -> bool {
    &&& forall|q: int, a: int, b: int|
        #![trigger s[q].children[a], s[q].children[b]]
        0 <= q < s.len() && 0 <= a < b < s[q].children.len() ==> s[q].children[a]
            < s[q].children[b]
    &&& forall|q: int, k: int|
        #![trigger s[q].children[k]]
        0 <= q < s.len() && 0 <= k < s[q].children.len() ==> {
            &&& 0 < s[q].children[k] < s.len()
            &&& s[s[q].children[k] as int].parent_id == Some(q as u32)
        }
    &&& forall|i: int|
        #![trigger s[i]]
        0 < i < s.len() ==> (s[i].parent_id matches Some(p) && s[p as int].children.contains(
            i as u32,
        ))
}

spec fn tree_right(events: Seq<CallTreeEvent>, n: int) -> bool {
    let m = replay(events, n);
    let t = m.tree;
    &&& m.pending == waiting(events, n)
    &&& model_ok(t)
    &&& lists_ok(t.nodes)
    &&& t.nodes.len() == calls_among(events, n) + 1
    &&& t.current == innermost(events, n)
    &&& forall|i: int|
        #![trigger events[i]]
        0 <= i < n && events[i] is Call ==> node_right(t.nodes[node_of(events, i)], events, n, i)
}

proof fn lemma_lists_same(s: Seq<NodeView>, t: Seq<NodeView>)
    requires
        lists_ok(s),
        tree_ok(s),
        s.len() == t.len(),
        forall|i: int|
            #![trigger t[i]]
            0 <= i < s.len() ==> s[i].parent_id == t[i].parent_id && s[i].children
                == t[i].children,
    ensures
        lists_ok(t),
{
    reveal(lists_ok);
    assert forall|q: int, k: int|
        #![trigger t[q].children[k]]
        0 <= q < t.len() && 0 <= k < t[q].children.len() implies {
        &&& 0 < t[q].children[k] < t.len()
        &&& t[t[q].children[k] as int].parent_id == Some(q as u32)
    } by {
        let c = s[q].children[k];
        assert(t[q].children[k] == c);
        assert(t[c as int].parent_id == s[c as int].parent_id);
    }
    assert forall|q: int, a: int, b: int|
        #![trigger t[q].children[a], t[q].children[b]]
        0 <= q < t.len() && 0 <= a < b < t[q].children.len() implies t[q].children[a]
        < t[q].children[b] by {
        assert(s[q].children[a] < s[q].children[b]);
    }
    assert forall|i: int| #![trigger t[i]] 0 < i < t.len() implies {
        t[i].parent_id matches Some(q) && t[q as int].children.contains(i as u32)
    } by {
        assert(t[i].parent_id == s[i].parent_id);
        let q = s[i].parent_id->0 as int;
        assert(s[q].children.contains(i as u32));
        assert(t[q].children == s[q].children);
    }
}

proof fn lemma_lists_call(t: TreeModel, seq: u32, target: u64)
    requires
        model_ok(t),
        lists_ok(t.nodes),
        t.nodes.len() <= u32::MAX,
    ensures
        lists_ok(call_tree::after_call(t, seq, target).nodes),
        model_ok(call_tree::after_call(t, seq, target)),
{
    reveal(lists_ok);
    let s = t.nodes;
    let g = call_tree::after_call(t, seq, target).nodes;
    let id = s.len() as u32;
    let p = t.current;
    assert forall|i: int| #![trigger g[i]] 0 <= i < s.len() implies g[i] == (NodeView {
        children: if i == p {
            s[i].children.push(id)
        } else {
            s[i].children
        },
        ..s[i]
    }) by {}
    assert forall|q: int, a: int, b: int|
        #![trigger g[q].children[a], g[q].children[b]]
        0 <= q < g.len() && 0 <= a < b < g[q].children.len() implies g[q].children[a]
        < g[q].children[b] by {
        assert(q < s.len());
        assert(s[q].children[a] == g[q].children[a]);
        if b < s[q].children.len() {
            assert(s[q].children[b] == g[q].children[b]);
        }
    }
    assert forall|q: int, k: int|
        #![trigger g[q].children[k]]
        0 <= q < g.len() && 0 <= k < g[q].children.len() implies {
        &&& 0 < g[q].children[k] < g.len()
        &&& g[g[q].children[k] as int].parent_id == Some(q as u32)
    } by {
        assert(q < s.len());
        if k < s[q].children.len() {
            assert(s[q].children[k] == g[q].children[k]);
            assert(g[s[q].children[k] as int].parent_id == s[s[q].children[k] as int].parent_id);
        }
    }
    assert forall|i: int| #![trigger g[i]] 0 < i < g.len() implies {
        g[i].parent_id matches Some(q) && g[q as int].children.contains(i as u32)
    } by {
        if i < s.len() {
            let q = s[i].parent_id->0 as int;
            assert(q < i);
            let k = choose|k: int| 0 <= k < s[q].children.len() && s[q].children[k] == i as u32;
            assert(g[q].children[k] == i as u32);
        } else {
            assert(g[p].children[s[p].children.len() as int] == id);
        }
    }
    assert forall|i: int| #![trigger g[i]] 0 < i < g.len() implies (g[i].parent_id matches Some(q)
        && q < i) by {
        if i < s.len() {
            assert(s[i].parent_id matches Some(q) && q < i);
        }
    }
    assert forall|i: int| #![trigger g[i]] 0 <= i < g.len() implies g[i].id == i by {
        if i < s.len() {
            assert(s[i].id == i);
        }
    }
}

proof fn lemma_step_call(events: Seq<CallTreeEvent>, n: int)
    requires
        events_ok(events),
        0 < n <= events.len(),
        tree_right(events, n - 1),
        events[n - 1] is Call,
    ensures
        tree_right(events, n),
{
    let t = replay(events, n - 1).tree;
    let g = replay(events, n).tree;
    lemma_calls_grow(events, n - 1, n);
    if n < events.len() {
        lemma_calls_grow(events, n, events.len() as int);
    }
    lemma_lists_call(t, events[n - 1]->Call_seq, events[n - 1]->target);
    assert(open_calls(events, n).last() == n - 1);
    assert forall|i: int| #![trigger events[i]] 0 <= i < n && events[i] is Call implies node_right(
        g.nodes[node_of(events, i)],
        events,
        n,
        i,
    ) by {
        if i < n - 1 {
            lemma_calls_grow(events, i, n - 1);
            assert(node_right(t.nodes[node_of(events, i)], events, n - 1, i));
        }
    }
}

/// The node that a call ends, or whose code is found out, is the innermost.
proof fn lemma_innermost(events: Seq<CallTreeEvent>, n: int, i: int)
    requires
        0 <= i < n <= events.len(),
        events[i] is Call,
    ensures
        ({
            let open = open_calls(events, n);
            innermost(events, n) == node_of(events, i) <==> open.len() > 0 && open.last() == i
        }),
        innermost(events, n) >= 0,
{
    lemma_open(events, n);
    let open = open_calls(events, n);
    lemma_calls_grow(events, i, n);
    if open.len() > 0 {
        let j = open[open.len() - 1];
        assert(events[j] is Call);
        lemma_calls_grow(events, j, n);
        if i < j {
            lemma_calls_grow(events, i, j);
        } else if j < i {
            lemma_calls_grow(events, j, i);
        }
    }
}

proof fn lemma_outer(events: Seq<CallTreeEvent>, n: int)
    requires
        0 < n <= events.len(),
        tree_right(events, n - 1),
        ends_at(events, n - 1) is Some,
        open_calls(events, n - 1).len() > 0,
    ensures
        ({
            let t = replay(events, n - 1).tree;
            &&& 0 < t.current < t.nodes.len()
            &&& t.nodes[t.current].parent_id == Some(innermost(events, n) as u32)
            &&& 0 <= innermost(events, n) <= u32::MAX
        }),
{
    let open = open_calls(events, n - 1);
    let t = replay(events, n - 1).tree;
    lemma_open(events, n - 1);
    let k = open.len() - 1;
    let j = open[k];
    assert(events[j] is Call);
    lemma_calls_grow(events, j, n - 1);
    assert(node_right(t.nodes[node_of(events, j)], events, n - 1, j));
    assert(open_calls(events, j) == open.take(k));
    assert(open_calls(events, n) == open.drop_last());
    assert(open.take(k) =~= open.drop_last());
    assert(innermost(events, n) == innermost(events, j));
    assert(t.nodes[node_of(events, j)].parent_id matches Some(p) && p < node_of(events, j));
    if open.drop_last().len() > 0 {
        let i = open[k - 1];
        assert(open.drop_last().last() == i);
        assert(events[i] is Call);
        lemma_calls_grow(events, i, n - 1);
        assert(t.nodes[node_of(events, i)].id == node_of(events, i));
    }
}

/// An event that is no call leaves ids, parents, lists and entries alone.
proof fn lemma_other_shape(events: Seq<CallTreeEvent>, n: int)
    requires
        0 < n <= events.len(),
        model_ok(replay(events, n - 1).tree),
        !(events[n - 1] is Call),
    ensures
        ({
            let t = replay(events, n - 1).tree;
            let g = replay(events, n).tree;
            &&& g.nodes.len() == t.nodes.len()
            &&& forall|i: int|
                #![trigger g.nodes[i]]
                0 <= i < t.nodes.len() ==> {
                    &&& g.nodes[i].id == t.nodes[i].id
                    &&& g.nodes[i].parent_id == t.nodes[i].parent_id
                    &&& g.nodes[i].children == t.nodes[i].children
                    &&& g.nodes[i].entry_seq == t.nodes[i].entry_seq
                }
            &&& tree_ok(g.nodes)
        }),
{
    let t = replay(events, n - 1).tree;
    let g = replay(events, n).tree;
    if let CallTreeEvent::SetFuncName { entry_seq, name } = events[n - 1] {
        lemma_named(t.nodes, entry_seq, name@, t.nodes.len() as int);
    }
    assert forall|i: int| #![trigger g.nodes[i]] 0 < i < g.nodes.len() implies (
    g.nodes[i].parent_id matches Some(p) && p < i) by {
        assert(t.nodes[i].parent_id matches Some(p) && p < i);
    }
    assert forall|i: int| #![trigger g.nodes[i]] 0 <= i < g.nodes.len() implies g.nodes[i].id
        == i by {
        assert(t.nodes[i].id == i);
    }
}

/// What an event that is no call does to the end and the code of a node: it can
/// touch only the innermost one.
proof fn lemma_other_node(events: Seq<CallTreeEvent>, n: int, at: int)
    requires
        0 < n <= events.len(),
        model_ok(replay(events, n - 1).tree),
        replay(events, n - 1).pending == waiting(events, n - 1),
        !(events[n - 1] is Call),
        0 < at < replay(events, n - 1).tree.nodes.len(),
    ensures
        ({
            let t = replay(events, n - 1).tree;
            let g = replay(events, n).tree;
            &&& g.nodes[at].exit_seq == (match ends_at(events, n - 1) {
                Some(line) if t.current == at => line,
                _ => t.nodes[at].exit_seq,
            })
            &&& g.nodes[at].func_addr == (match events[n - 1] {
                CallTreeEvent::LineAddr { seq, addr } if addr != 0 && waiting(events, n - 1) is Some
                    && t.current == at => addr,
                _ => t.nodes[at].func_addr,
            })
        }),
{
    let t = replay(events, n - 1).tree;
    if let CallTreeEvent::SetFuncName { entry_seq, name } = events[n - 1] {
        lemma_named(t.nodes, entry_seq, name@, t.nodes.len() as int);
    }
}

proof fn lemma_other_current(events: Seq<CallTreeEvent>, n: int)
    requires
        events_ok(events),
        0 < n <= events.len(),
        tree_right(events, n - 1),
        !(events[n - 1] is Call),
    ensures
        replay(events, n).pending == waiting(events, n),
        replay(events, n).tree.current == innermost(events, n),
        0 <= innermost(events, n) < replay(events, n - 1).tree.nodes.len(),
{
    let t = replay(events, n - 1).tree;
    let open = open_calls(events, n - 1);
    lemma_open(events, n - 1);
    if open.len() > 0 {
        let j = open[open.len() - 1];
        assert(events[j] is Call);
        lemma_calls_grow(events, j, n - 1);
        assert(t.current > 0);
        if ends_at(events, n - 1) is Some {
            lemma_outer(events, n);
            assert(t.nodes[t.current].parent_id matches Some(p) && p < t.current);
        }
    }
}

proof fn lemma_step_other(events: Seq<CallTreeEvent>, n: int)
    requires
        events_ok(events),
        0 < n <= events.len(),
        tree_right(events, n - 1),
        !(events[n - 1] is Call),
    ensures
        tree_right(events, n),
{
    let t = replay(events, n - 1).tree;
    let g = replay(events, n).tree;
    lemma_calls_grow(events, n - 1, n);
    lemma_other_shape(events, n);
    lemma_other_current(events, n);
    lemma_lists_same(t.nodes, g.nodes);
    assert forall|i: int| #![trigger events[i]] 0 <= i < n && events[i] is Call implies node_right(
        g.nodes[node_of(events, i)],
        events,
        n,
        i,
    ) by {
        assert(i < n - 1);
        lemma_calls_grow(events, i, n - 1);
        assert(node_right(t.nodes[node_of(events, i)], events, n - 1, i));
        lemma_innermost(events, n - 1, i);
        lemma_other_node(events, n, node_of(events, i));
    }
}

proof fn lemma_tree(events: Seq<CallTreeEvent>, n: int)
    requires
        events_ok(events),
        0 <= n <= events.len(),
    ensures
        tree_right(events, n),
    decreases n,
{
    if n <= 0 {
        reveal(lists_ok);
    } else {
        lemma_tree(events, n - 1);
        if events[n - 1] is Call {
            lemma_step_call(events, n);
        } else {
            lemma_step_other(events, n);
        }
    }
}

// ---------------------------------------------------------------------------
// The end of the trace
// ---------------------------------------------------------------------------

/// The nodes of the open calls.
spec fn chain(events: Seq<CallTreeEvent>, open: Seq<int>) -> Seq<int> {
    open.map_values(|i: int| node_of(events, i))
}

/// The numbers are those of the open nodes from the root on.
#[verifier::opaque]
spec fn is_chain(t: TreeModel, ids: Seq<int>) -> bool {
    &&& t.current == (if ids.len() == 0 {
        0
    } else {
        ids.last()
    })
    &&& forall|k: int|
        #![trigger ids[k]]
        0 <= k < ids.len() ==> 0 < ids[k] < t.nodes.len() && t.nodes[ids[k]].parent_id == Some(
            (if k == 0 {
                0
            } else {
                ids[k - 1]
            }) as u32,
        )
}

spec fn closed_once(t: TreeModel, total: u32) -> Seq<NodeView> {
    t.nodes.update(
        t.current,
        NodeView { exit_seq: call_tree::last_line(total), ..t.nodes[t.current] },
    )
}

/// One node is closed; the chain is one shorter.
proof fn lemma_close_one(t: TreeModel, ids: Seq<int>, total: u32)
    requires
        model_ok(t),
        is_chain(t, ids),
        ids.len() > 0,
        t.nodes.len() <= u32::MAX + 1,
    ensures
        ({
            let rest = ids.drop_last();
            let p = if rest.len() == 0 {
                0
            } else {
                rest.last()
            };
            let up = TreeModel { nodes: closed_once(t, total), current: p };
            &&& model_ok(up)
            &&& is_chain(up, rest)
            &&& close_all(t, total) == close_all(up, total)
        }),
{
    reveal(is_chain);
    let closed = closed_once(t, total);
    let k = ids.len() - 1;
    let rest = ids.drop_last();
    let p = if rest.len() == 0 {
        0
    } else {
        rest.last()
    };
    assert(t.nodes[ids[k]].parent_id == Some(p as u32));
    if k > 0 {
        assert(0 < ids[k - 1] < t.nodes.len());
    }
    let up = TreeModel { nodes: closed, current: p };
    assert forall|i: int| #![trigger closed[i]] 0 < i < closed.len() implies (
    closed[i].parent_id matches Some(q) && q < i) by {
        assert(t.nodes[i].parent_id matches Some(q) && q < i);
    }
    assert forall|i: int| #![trigger closed[i]] 0 <= i < closed.len() implies closed[i].id == i by {
        assert(t.nodes[i].id == i);
    }
    assert forall|j: int| #![trigger rest[j]] 0 <= j < rest.len() implies 0 < rest[j]
        < closed.len() && closed[rest[j]].parent_id == Some(
        (if j == 0 {
            0
        } else {
            rest[j - 1]
        }) as u32,
    ) by {
        assert(ids[j] == rest[j]);
        if j > 0 {
            assert(ids[j - 1] == rest[j - 1]);
        }
    }
    assert(t.nodes[t.current].parent_id matches Some(q) && q < t.current);
}

proof fn lemma_chain_end(t: TreeModel, ids: Seq<int>)
    requires
        is_chain(t, ids),
    ensures
        t.current == (if ids.len() == 0 {
            0
        } else {
            ids.last()
        }),
{
    reveal(is_chain);
}

proof fn lemma_close_at(t: TreeModel, ids: Seq<int>, total: u32, i: int)
    requires
        model_ok(t),
        is_chain(t, ids),
        t.nodes.len() <= u32::MAX + 1,
        0 <= i < t.nodes.len(),
    ensures
        close_all(t, total).len() == t.nodes.len(),
        close_all(t, total)[i] == (if i == 0 || ids.contains(i) {
            NodeView { exit_seq: call_tree::last_line(total), ..t.nodes[i] }
        } else {
            t.nodes[i]
        }),
    decreases ids.len(),
{
    lemma_chain_end(t, ids);
    if ids.len() > 0 {
        lemma_close_one(t, ids, total);
        let rest = ids.drop_last();
        let p = if rest.len() == 0 {
            0
        } else {
            rest.last()
        };
        let up = TreeModel { nodes: closed_once(t, total), current: p };
        lemma_close_at(up, rest, total, i);
        assert(ids[ids.len() - 1] == t.current);
        assert(ids.contains(i) == (rest.contains(i) || i == t.current)) by {
            if rest.contains(i) {
                let j = choose|j: int| 0 <= j < rest.len() && rest[j] == i;
                assert(ids[j] == i);
            }
            if ids.contains(i) && i != t.current {
                let j = choose|j: int| 0 <= j < ids.len() && ids[j] == i;
                assert(rest[j] == i);
            }
        }
    }
}

proof fn lemma_close(t: TreeModel, ids: Seq<int>, total: u32)
    requires
        model_ok(t),
        is_chain(t, ids),
        t.nodes.len() <= u32::MAX + 1,
    ensures
        close_all(t, total).len() == t.nodes.len(),
        forall|i: int|
            #![trigger close_all(t, total)[i]]
            0 <= i < t.nodes.len() ==> close_all(t, total)[i] == (if i == 0 || ids.contains(i) {
                NodeView { exit_seq: call_tree::last_line(total), ..t.nodes[i] }
            } else {
                t.nodes[i]
            }),
{
    lemma_close_at(t, ids, total, 0);
    assert forall|i: int| #![trigger close_all(t, total)[i]] 0 <= i < t.nodes.len() implies
        close_all(t, total)[i] == (if i == 0 || ids.contains(i) {
        NodeView { exit_seq: call_tree::last_line(total), ..t.nodes[i] }
    } else {
        t.nodes[i]
    }) by {
        lemma_close_at(t, ids, total, i);
    }
}

proof fn lemma_is_chain(events: Seq<CallTreeEvent>, n: int)
    requires
        events_ok(events),
        0 <= n <= events.len(),
    ensures
        is_chain(replay(events, n).tree, chain(events, open_calls(events, n))),
{
    reveal(is_chain);
    lemma_tree(events, n);
    lemma_open(events, n);
    let open = open_calls(events, n);
    let ids = chain(events, open);
    let t = replay(events, n).tree;
    assert forall|k: int| #![trigger ids[k]] 0 <= k < ids.len() implies 0 < ids[k] < t.nodes.len()
        && t.nodes[ids[k]].parent_id == Some(
        (if k == 0 {
            0
        } else {
            ids[k - 1]
        }) as u32,
    ) by {
        let i = open[k];
        assert(events[i] is Call);
        lemma_calls_grow(events, i, n);
        assert(node_right(t.nodes[node_of(events, i)], events, n, i));
        assert(open_calls(events, i) == open.take(k));
        if k > 0 {
            assert(open.take(k).last() == open[k - 1]);
        }
    }
}

/// The tree at the end of the trace.
pub open spec fn final_tree(events: Seq<CallTreeEvent>, total: u32) -> Seq<NodeView> {
    close_all(replay(events, events.len() as int).tree, total)
}

proof fn lemma_final(events: Seq<CallTreeEvent>, total: u32, i: int)
    requires
        events_ok(events),
        0 <= i < events.len(),
        events[i] is Call,
    ensures
        ({
            let n = events.len() as int;
            let t = final_tree(events, total);
            let node = t[node_of(events, i)];
            &&& t.len() == calls_among(events, n) + 1
            &&& 0 < node_of(events, i) < t.len()
            &&& node.id == node_of(events, i)
            &&& node.entry_seq == events[i]->Call_seq
            &&& node.func_addr == entered(events, n, i)
            &&& node.parent_id == Some(innermost(events, i) as u32)
            &&& node.exit_seq == (if open_calls(events, n).contains(i) {
                call_tree::last_line(total)
            } else {
                match ended(events, n, i) {
                    Some(line) => line,
                    None => 0xFFFF_FFFF,
                }
            })
        }),
{
    let n = events.len() as int;
    lemma_tree(events, n);
    lemma_is_chain(events, n);
    let t = replay(events, n).tree;
    let open = open_calls(events, n);
    let ids = chain(events, open);
    lemma_close(t, ids, total);
    lemma_calls_grow(events, i, n);
    assert(node_right(t.nodes[node_of(events, i)], events, n, i));
    lemma_open(events, n);
    if open.contains(i) {
        let k = choose|k: int| 0 <= k < open.len() && open[k] == i;
        assert(ids[k] == node_of(events, i));
    }
    if ids.contains(node_of(events, i)) {
        let k = choose|k: int| 0 <= k < ids.len() && ids[k] == node_of(events, i);
        let j = open[k];
        assert(events[j] is Call);
        if i < j {
            lemma_calls_grow(events, i, j);
        } else if j < i {
            lemma_calls_grow(events, j, i);
        }
    }
}

/// A call that was open and no longer is was ended by the event in between.
proof fn lemma_ended(events: Seq<CallTreeEvent>, i: int, k: int, n: int)
    requires
        0 <= i < k < n <= events.len(),
        events[i] is Call,
        open_calls(events, k).contains(i),
        !open_calls(events, k + 1).contains(i),
    ensures
        ends_at(events, k) is Some,
        ended(events, n, i) == ends_at(events, k),
        !open_calls(events, n).contains(i),
    decreases n,
{
    let open = open_calls(events, k);
    let next = open_calls(events, k + 1);
    lemma_open(events, k);
    let w = choose|w: int| 0 <= w < open.len() && open[w] == i;
    if n == k + 1 {
        if w < next.len() && (next.len() >= open.len() || w < open.len() - 1) {
            assert(next[w] == i);
        }
    } else {
        lemma_ended(events, i, k, n - 1);
        let before = open_calls(events, n - 1);
        if before.len() > 0 && before.last() == i {
            assert(before[before.len() - 1] == i);
        }
        let after = open_calls(events, n);
        if after.contains(i) {
            let v = choose|v: int| 0 <= v < after.len() && after[v] == i;
            if v < before.len() {
                assert(before[v] == i);
            }
        }
    }
}

/// The tree has one node for each call, numbered in order, below the call that
/// was innermost then; it starts at the line of the call.
pub proof fn law_a_call_is_a_node_below_the_open_one(
    events: Seq<CallTreeEvent>,
    total: u32,
    i: int,
)
    requires
        events_ok(events),
        0 <= i < events.len(),
        events[i] is Call,
    ensures
        ({
            let t = final_tree(events, total);
            let node = t[node_of(events, i)];
            &&& t.len() == calls_among(events, events.len() as int) + 1
            &&& 0 < node_of(events, i) < t.len()
            &&& node.id == node_of(events, i)
            &&& node.entry_seq == events[i]->Call_seq
            &&& node.func_addr == entered(events, events.len() as int, i)
            &&& node.parent_id == Some(innermost(events, i) as u32)
        }),
{
    lemma_final(events, total, i);
}

/// A call ends with the event that takes it off the open ones, and at the last
/// line if none does.
pub proof fn law_a_call_ends_with_its_return(
    events: Seq<CallTreeEvent>,
    total: u32,
    i: int,
    k: int,
)
    requires
        events_ok(events),
        0 <= i < k <= events.len(),
        events[i] is Call,
        open_calls(events, k).contains(i),
        k < events.len() ==> !open_calls(events, k + 1).contains(i),
    ensures
        ({
            let node = final_tree(events, total)[node_of(events, i)];
            if k < events.len() {
                ends_at(events, k) == Some(node.exit_seq)
            } else {
                node.exit_seq == (if total == 0 {
                    0
                } else {
                    total - 1
                })
            }
        }),
{
    lemma_final(events, total, i);
    if k < events.len() {
        lemma_ended(events, i, k, events.len() as int);
    }
}

/// Calls made while a call is open are its descendants: each is below the call
/// that was innermost, which is that call or one made after it.
pub proof fn law_calls_within_a_call_are_below_it(
    events: Seq<CallTreeEvent>,
    total: u32,
    i: int,
    j: int,
)
    requires
        events_ok(events),
        0 <= i < j < events.len(),
        events[i] is Call,
        events[j] is Call,
        open_calls(events, j).contains(i),
    ensures
        ({
            let t = final_tree(events, total);
            t[node_of(events, j)].parent_id matches Some(p) && node_of(events, i) <= p
                < node_of(events, j)
        }),
{
    lemma_final(events, total, j);
    lemma_within(events, i, j);
    lemma_calls_grow(events, j, events.len() as int);
}

proof fn lemma_within(events: Seq<CallTreeEvent>, i: int, j: int)
    requires
        0 <= i < j < events.len(),
        events[i] is Call,
        open_calls(events, j).contains(i),
    ensures
        node_of(events, i) <= innermost(events, j) < node_of(events, j),
        0 < node_of(events, i),
{
    lemma_open(events, j);
    let open = open_calls(events, j);
    let w = choose|w: int| 0 <= w < open.len() && open[w] == i;
    let last = open[open.len() - 1];
    assert(events[last] is Call);
    lemma_calls_grow(events, last, j);
    lemma_calls_grow(events, i, j);
    if w < open.len() - 1 {
        let before = open_calls(events, last);
        assert(before == open.take(open.len() - 1));
        assert(before[w] == i);
        lemma_open(events, last);
        lemma_calls_grow(events, i, last);
    }
}

/// An indirect call is ended by the next line with an address only if that is
/// the line of the instruction after it; any other line leaves it open.
pub proof fn law_an_indirect_call_with_a_body_stays_open(
    events: Seq<CallTreeEvent>,
    j: int,
    k: int,
)
    requires
        events_ok(events),
        0 <= j < k < events.len(),
        events[j] is BlrPending,
        forall|m: int|
            #![trigger events[m]]
            j < m < k ==> !(events[m] is BlrPending) && (events[m] matches CallTreeEvent::LineAddr {
                seq,
                addr,
            } ==> addr == 0),
        events[k] matches CallTreeEvent::LineAddr { seq, addr } && addr != 0,
    ensures
        ({
            let before = replay(events, k).tree;
            let after = replay(events, k + 1).tree;
            let addr = events[k]->LineAddr_addr;
            &&& addr != events[j]->pc + 4 ==> after.current == before.current && (forall|i: int|
                #![trigger after.nodes[i]]
                0 <= i < before.nodes.len() ==> after.nodes[i].exit_seq
                    == before.nodes[i].exit_seq)
            &&& addr == events[j]->pc + 4 && before.current != 0 ==> Some(after.current as u32)
                == before.nodes[before.current].parent_id
        }),
{
    lemma_waiting(events, j, k);
    lemma_tree(events, k);
    lemma_tree(events, k + 1);
    lemma_open(events, k);
    let open = open_calls(events, k);
    if open.len() > 0 {
        let i = open[open.len() - 1];
        assert(events[i] is Call);
        lemma_calls_grow(events, i, k);
        if ends_at(events, k) is Some {
            lemma_outer(events, k + 1);
        }
    }
}

proof fn lemma_waiting(events: Seq<CallTreeEvent>, j: int, k: int)
    requires
        0 <= j < k <= events.len(),
        events[j] is BlrPending,
        forall|m: int|
            #![trigger events[m]]
            j < m < k ==> !(events[m] is BlrPending) && (events[m] matches CallTreeEvent::LineAddr {
                seq,
                addr,
            } ==> addr == 0),
    ensures
        waiting(events, k) == Some(events[j]->pc),
    decreases k,
{
    if j < k - 1 {
        assert(!(events[k - 1] is BlrPending));
        lemma_waiting(events, j, k - 1);
    }
}

/// Each node but the root stands once in the list of its parent and in no other
/// list, and the lists ascend.
pub proof fn law_nodes_are_listed_by_their_parents(
    events: Seq<CallTreeEvent>,
    total: u32,
    i: int,
    q: int,
)
    requires
        events_ok(events),
        0 < i < final_tree(events, total).len(),
        0 <= q < final_tree(events, total).len(),
    ensures
        ({
            let t = final_tree(events, total);
            &&& t[q].children.contains(i as u32) <==> t[i].parent_id == Some(q as u32)
            &&& forall|a: int, b: int|
                #![trigger t[q].children[a], t[q].children[b]]
                0 <= a < b < t[q].children.len() ==> t[q].children[a] < t[q].children[b]
            &&& t[0].parent_id is None
            &&& t[0].exit_seq == call_tree::last_line(total)
        }),
{
    let n = events.len() as int;
    lemma_tree(events, n);
    lemma_is_chain(events, n);
    let t0 = replay(events, n).tree;
    lemma_close(t0, chain(events, open_calls(events, n)), total);
    let t = final_tree(events, total);
    lemma_lists_same(t0.nodes, t);
    reveal(lists_ok);
    if t[q].children.contains(i as u32) {
        let k = choose|k: int| 0 <= k < t[q].children.len() && t[q].children[k] == i as u32;
        assert(t[t[q].children[k] as int].parent_id == Some(q as u32));
    }
    assert(t[i].parent_id matches Some(p) && t[p as int].children.contains(i as u32));
}

// ---------------------------------------------------------------------------
// Names
// ---------------------------------------------------------------------------

/// No call from event `a` to before event `b` was made at the line.
pub open spec fn no_call_at(events: Seq<CallTreeEvent>, a: int, b: int, seq: u32) -> bool {
    forall|j: int|
        #![trigger events[j]]
        a <= j < b ==> !(events[j] matches CallTreeEvent::Call { seq: s, target } && s == seq)
}

/// The name that the call at event `i` has before event `n`: the last one given
/// to its line while it was the latest call at that line.
pub open spec fn name_of(events: Seq<CallTreeEvent>, n: int, i: int) -> Option<Seq<char>>
    decreases n - i,
{
    if n <= i + 1 {
        None
    } else {
        match events[n - 1] {
            CallTreeEvent::SetFuncName { entry_seq, name } if entry_seq == events[i]->Call_seq
                && no_call_at(events, i + 1, n - 1, entry_seq) => Some(name@),
            _ => name_of(events, n - 1, i),
        }
    }
}

proof fn lemma_named_at(nodes: Seq<NodeView>, entry_seq: u32, name: Seq<char>, n: int, i: int)
    requires
        n <= nodes.len(),
        0 <= i < nodes.len(),
    ensures
        named(nodes, entry_seq, name, n)[i].func_name == (if i < n && nodes[i].entry_seq == entry_seq
            && (forall|j: int| #![trigger nodes[j]] i < j < n ==> nodes[j].entry_seq != entry_seq) {
            Some(name)
        } else {
            nodes[i].func_name
        }),
    decreases n,
{
    if n > 0 {
        if nodes[n - 1].entry_seq == entry_seq {
            assert(i < n - 1 ==> !(forall|j: int|
                #![trigger nodes[j]]
                i < j < n ==> nodes[j].entry_seq != entry_seq));
        } else {
            lemma_named_at(nodes, entry_seq, name, n - 1, i);
            assert((forall|j: int|
                #![trigger nodes[j]]
                i < j < n ==> nodes[j].entry_seq != entry_seq) == (forall|j: int|
                #![trigger nodes[j]]
                i < j < n - 1 ==> nodes[j].entry_seq != entry_seq)) by {
                if forall|j: int|
                    #![trigger nodes[j]]
                    i < j < n - 1 ==> nodes[j].entry_seq != entry_seq {
                    assert forall|j: int| #![trigger nodes[j]] i < j < n implies nodes[j].entry_seq
                        != entry_seq by {}
                }
            }
        }
    }
}

/// Every node but the root is that of a call.
proof fn lemma_call_of(events: Seq<CallTreeEvent>, n: int, at: int) -> (i: int)
    requires
        0 <= n <= events.len(),
        0 < at <= calls_among(events, n),
    ensures
        0 <= i < n,
        events[i] is Call,
        node_of(events, i) == at,
    decreases n,
{
    if events[n - 1] is Call && calls_among(events, n - 1) + 1 == at {
        n - 1
    } else {
        lemma_call_of(events, n - 1, at)
    }
}

proof fn lemma_latest_at_line(events: Seq<CallTreeEvent>, n: int, i: int, seq: u32)
    requires
        events_ok(events),
        0 <= i < n <= events.len(),
        events[i] is Call,
        tree_right(events, n),
    ensures
        ({
            let nodes = replay(events, n).tree.nodes;
            (forall|j: int|
                #![trigger nodes[j]]
                node_of(events, i) < j < nodes.len() ==> nodes[j].entry_seq != seq) == no_call_at(
                events,
                i + 1,
                n,
                seq,
            )
        }),
{
    let nodes = replay(events, n).tree.nodes;
    if no_call_at(events, i + 1, n, seq) {
        assert forall|j: int| #![trigger nodes[j]] node_of(events, i) < j < nodes.len() implies
            nodes[j].entry_seq != seq by {
            let k = lemma_call_of(events, n, j);
            assert(node_right(nodes[node_of(events, k)], events, n, k));
            if k < i {
                lemma_calls_grow(events, k, i);
            }
            assert(events[k] is Call);
        }
    }
    if forall|j: int|
        #![trigger nodes[j]]
        node_of(events, i) < j < nodes.len() ==> nodes[j].entry_seq != seq {
        assert forall|j: int| #![trigger events[j]] i + 1 <= j < n implies !(
        events[j] matches CallTreeEvent::Call { seq: s, target } && s == seq) by {
            if events[j] is Call {
                assert(node_right(nodes[node_of(events, j)], events, n, j));
                lemma_calls_grow(events, i, j);
                lemma_calls_grow(events, j, n);
                assert(nodes[node_of(events, j)].entry_seq != seq);
            }
        }
    }
}

proof fn lemma_names(events: Seq<CallTreeEvent>, n: int, i: int)
    requires
        events_ok(events),
        0 <= i < n <= events.len(),
        events[i] is Call,
    ensures
        replay(events, n).tree.nodes[node_of(events, i)].func_name == name_of(events, n, i),
    decreases n,
{
    lemma_tree(events, n - 1);
    lemma_tree(events, n);
    let t = replay(events, n - 1).tree;
    if i < n - 1 {
        lemma_names(events, n - 1, i);
        lemma_calls_grow(events, i, n - 1);
        let at = node_of(events, i);
        assert(node_right(t.nodes[at], events, n - 1, i));
        if let CallTreeEvent::SetFuncName { entry_seq, name } = events[n - 1] {
            lemma_named_at(t.nodes, entry_seq, name@, t.nodes.len() as int, at);
            lemma_latest_at_line(events, n - 1, i, entry_seq);
        }
    }
}

/// A name goes to the latest call that was made at its line.
pub proof fn law_names_go_to_the_latest_call_at_their_line(
    events: Seq<CallTreeEvent>,
    total: u32,
    i: int,
)
    requires
        events_ok(events),
        0 <= i < events.len(),
        events[i] is Call,
    ensures
        final_tree(events, total)[node_of(events, i)].func_name == name_of(
            events,
            events.len() as int,
            i,
        ),
{
    let n = events.len() as int;
    lemma_tree(events, n);
    lemma_is_chain(events, n);
    lemma_close(replay(events, n).tree, chain(events, open_calls(events, n)), total);
    lemma_calls_grow(events, i, n);
    lemma_names(events, n, i);
}

/// The address of the first event that sets it.
pub open spec fn first_root(events: Seq<CallTreeEvent>, n: int, i: int) -> bool {
    &&& 0 <= i < n
    &&& events[i] is SetRootAddr
    &&& forall|j: int| #![trigger events[j]] 0 <= j < i ==> !(events[j] is SetRootAddr)
}

proof fn lemma_root(events: Seq<CallTreeEvent>, n: int)
    requires
        0 <= n <= events.len(),
        events_ok(events),
    ensures
        ({
            let m = replay(events, n);
            &&& forall|i: int| #[trigger] first_root(events, n, i) ==> m.root_set
                && m.tree.nodes[0].func_addr == events[i]->SetRootAddr_addr
            &&& (forall|j: int| #![trigger events[j]] 0 <= j < n ==> !(events[j] is SetRootAddr))
                ==> !m.root_set && m.tree.nodes[0].func_addr == 0
            &&& m.root_set ==> exists|i: int| #[trigger] first_root(events, n, i)
        }),
    decreases n,
{
    if n > 0 {
        lemma_root(events, n - 1);
        lemma_tree(events, n - 1);
        let m = replay(events, n - 1);
        let after = replay(events, n);
        if !(events[n - 1] is SetRootAddr) || m.root_set {
            assert(after.tree.nodes[0].func_addr == m.tree.nodes[0].func_addr) by {
                if let CallTreeEvent::SetFuncName { entry_seq, name } = events[n - 1] {
                    lemma_named(m.tree.nodes, entry_seq, name@, m.tree.nodes.len() as int);
                }
            }
        }
        assert forall|i: int| #[trigger] first_root(events, n, i) implies after.root_set
            && after.tree.nodes[0].func_addr == events[i]->SetRootAddr_addr by {
            if i < n - 1 {
                assert(first_root(events, n - 1, i));
            } else if m.root_set {
                let k = choose|k: int| #[trigger] first_root(events, n - 1, k);
                assert(events[k] is SetRootAddr);
            }
        }
        if m.root_set {
            let k = choose|k: int| #[trigger] first_root(events, n - 1, k);
            assert(first_root(events, n, k));
        } else if events[n - 1] is SetRootAddr {
            if exists|j: int| #![trigger events[j]] 0 <= j < n - 1 && events[j] is SetRootAddr {
                let j = lemma_first_root(events, n - 1);
                assert(first_root(events, n - 1, j));
            }
            assert(first_root(events, n, n - 1));
        }
    }
}

proof fn lemma_first_root(events: Seq<CallTreeEvent>, n: int) -> (i: int)
    requires
        0 <= n,
        exists|j: int| #![trigger events[j]] 0 <= j < n && events[j] is SetRootAddr,
    ensures
        first_root(events, n, i),
    decreases n,
{
    if exists|j: int| #![trigger events[j]] 0 <= j < n - 1 && events[j] is SetRootAddr {
        lemma_first_root(events, n - 1)
    } else {
        n - 1
    }
}

/// The root is the code that the trace starts in: its address is the first one
/// told, and 0 if none is.
pub proof fn law_the_root_has_the_first_address(events: Seq<CallTreeEvent>, total: u32)
    requires
        events_ok(events),
    ensures
        ({
            let n = events.len() as int;
            let root = final_tree(events, total)[0];
            &&& forall|i: int| #[trigger]
                first_root(events, n, i) ==> root.func_addr == events[i]->SetRootAddr_addr
            &&& (forall|j: int| #![trigger events[j]] 0 <= j < n ==> !(events[j] is SetRootAddr))
                ==> root.func_addr == 0
            &&& root.exit_seq == call_tree::last_line(total)
            &&& root.parent_id is None
        }),
{
    let n = events.len() as int;
    lemma_root(events, n);
    lemma_tree(events, n);
    lemma_is_chain(events, n);
    let t = replay(events, n).tree;
    let ids = chain(events, open_calls(events, n));
    lemma_close(t, ids, total);
}

} // verus!
