//! The tree of calls: a call opens a node, a return closes the open node.

use vstd::prelude::*;

verus! {

/// A call.
pub struct CallTreeNode {
    pub id: u32,
    pub func_addr: u64,
    pub func_name: Option<String>,
    /// Line of the call.
    pub entry_seq: u32,
    /// Line of the return, or the last line of the trace.
    pub exit_seq: u32,
    pub parent_id: Option<u32>,
    pub children_ids: Vec<u32>,
}

/// A call as a mathematical value.
#[verifier::ext_equal]
pub struct NodeView {
    pub id: u32,
    pub func_addr: u64,
    pub func_name: Option<Seq<char>>,
    pub entry_seq: u32,
    pub exit_seq: u32,
    pub parent_id: Option<u32>,
    pub children: Seq<u32>,
}

pub open spec fn name_view(name: Option<String>) -> Option<Seq<char>> {
    match name {
        Some(s) => Some(s@),
        None => None,
    }
}

impl View for CallTreeNode {
    type V = NodeView;

    open spec fn view(&self) -> NodeView {
        NodeView {
            id: self.id,
            func_addr: self.func_addr,
            func_name: name_view(self.func_name),
            entry_seq: self.entry_seq,
            exit_seq: self.exit_seq,
            parent_id: self.parent_id,
            children: self.children_ids@,
        }
    }
}

pub open spec fn node_views(nodes: Seq<CallTreeNode>) -> Seq<NodeView> {
    nodes.map_values(|n: CallTreeNode| n@)
}

/// The finished tree; the root is node 0.
pub struct CallTree {
    pub nodes: Vec<CallTreeNode>,
}

impl View for CallTree {
    type V = Seq<NodeView>;

    open spec fn view(&self) -> Seq<NodeView> {
        node_views(self.nodes@)
    }
}

/// A tree under construction: its nodes and the open one.
#[verifier::ext_equal]
pub struct TreeModel {
    pub nodes: Seq<NodeView>,
    pub current: int,
}

/// Node 0 is the root, every other node hangs below an earlier one, and ids
/// are positions.
pub open spec fn tree_ok(nodes: Seq<NodeView>) -> bool {
    &&& nodes.len() > 0
    &&& nodes[0].parent_id is None
    &&& forall|i: int| #![trigger nodes[i]] 0 <= i < nodes.len() ==> nodes[i].id == i
    &&& forall|i: int|
        #![trigger nodes[i]]
        0 < i < nodes.len() ==> (nodes[i].parent_id matches Some(p) && p < i)
}

pub open spec fn model_ok(t: TreeModel) -> bool {
    tree_ok(t.nodes) && 0 <= t.current < t.nodes.len()
}

pub open spec fn root_node() -> NodeView {
    NodeView {
        id: 0,
        func_addr: 0,
        func_name: None,
        entry_seq: 0,
        exit_seq: 0xFFFF_FFFF,
        parent_id: None,
        children: Seq::empty(),
    }
}

pub open spec fn empty_tree() -> TreeModel {
    TreeModel { nodes: seq![root_node()], current: 0 }
}

pub open spec fn with_root_addr(t: TreeModel, addr: u64) -> TreeModel {
    TreeModel { nodes: t.nodes.update(0, NodeView { func_addr: addr, ..t.nodes[0] }), ..t }
}

/// A call: a new node below the open one, open from now on.
pub open spec fn after_call(t: TreeModel, seq: u32, target: u64) -> TreeModel {
    let id = t.nodes.len() as u32;
    let parent = t.nodes[t.current];
    TreeModel {
        nodes: t.nodes.update(
            t.current,
            NodeView { children: parent.children.push(id), ..parent },
        ).push(
            NodeView {
                id,
                func_addr: target,
                func_name: None,
                entry_seq: seq,
                exit_seq: 0xFFFF_FFFF,
                parent_id: Some(t.current as u32),
                children: Seq::empty(),
            },
        ),
        current: id as int,
    }
}

/// A return: closes the open node, unless it is the root.
pub open spec fn after_ret(t: TreeModel, seq: u32) -> TreeModel {
    if t.current == 0 {
        t
    } else {
        let node = t.nodes[t.current];
        TreeModel {
            nodes: t.nodes.update(t.current, NodeView { exit_seq: seq, ..node }),
            current: node.parent_id->0 as int,
        }
    }
}

pub open spec fn with_current_addr(t: TreeModel, addr: u64) -> TreeModel {
    if t.current == 0 {
        t
    } else {
        TreeModel {
            nodes: t.nodes.update(
                t.current,
                NodeView { func_addr: addr, ..t.nodes[t.current] },
            ),
            ..t
        }
    }
}

/// Names the latest of the first `n` nodes that starts at a line.
pub open spec fn named(nodes: Seq<NodeView>, entry_seq: u32, name: Seq<char>, n: int) -> Seq<
    NodeView,
>
    decreases n,
{
    if n <= 0 {
        nodes
    } else if nodes[n - 1].entry_seq == entry_seq {
        nodes.update(n - 1, NodeView { func_name: Some(name), ..nodes[n - 1] })
    } else {
        named(nodes, entry_seq, name, n - 1)
    }
}

pub open spec fn with_name(t: TreeModel, entry_seq: u32, name: Seq<char>) -> TreeModel {
    TreeModel { nodes: named(t.nodes, entry_seq, name, t.nodes.len() as int), ..t }
}

/// Last line of a trace of `total` lines.
pub open spec fn last_line(total: u32) -> u32 {
    if total == 0 {
        0
    } else {
        (total - 1) as u32
    }
}

/// Closes the open node and all nodes above it at the end of the trace.
pub open spec fn close_all(t: TreeModel, total: u32) -> Seq<NodeView>
    decreases t.current,
{
    let closed = t.nodes.update(
        t.current,
        NodeView { exit_seq: last_line(total), ..t.nodes[t.current] },
    );
    if t.current <= 0 {
        closed
    } else {
        match t.nodes[t.current].parent_id {
            Some(p) if p < t.current => close_all(
                TreeModel { nodes: closed, current: p as int },
                total,
            ),
            _ => closed,
        }
    }
}

/// Builds a [`CallTree`] from calls and returns in line order.
pub struct CallTreeBuilder {
    nodes: Vec<CallTreeNode>,
    current: u32,
}

impl View for CallTreeBuilder {
    type V = TreeModel;

    closed spec fn view(&self) -> TreeModel {
        TreeModel { nodes: node_views(self.nodes@), current: self.current as int }
    }
}

proof fn lemma_views_update(nodes: Seq<CallTreeNode>, i: int, node: CallTreeNode)
    requires
        0 <= i < nodes.len(),
    ensures
        node_views(nodes.update(i, node)) == node_views(nodes).update(i, node@),
{
    assert(node_views(nodes.update(i, node)) =~= node_views(nodes).update(i, node@));
}

/// Changing anything but id and parent of a node leaves the tree in order.
proof fn lemma_tree_update(nodes: Seq<NodeView>, i: int, node: NodeView)
    requires
        tree_ok(nodes),
        0 <= i < nodes.len(),
        node.id == nodes[i].id,
        node.parent_id == nodes[i].parent_id,
    ensures
        tree_ok(nodes.update(i, node)),
{
    let next = nodes.update(i, node);
    assert forall|k: int| #![trigger next[k]] 0 < k < next.len() implies (next[k].parent_id matches Some(
        p,
    ) && p < k) by {
        assert(nodes[k].parent_id matches Some(p) && p < k);
    }
    assert forall|k: int| #![trigger next[k]] 0 <= k < next.len() implies next[k].id == k by {
        assert(nodes[k].id == k);
    }
}

impl CallTreeBuilder {
    /// Nodes form a tree and the open node is one of them.
    pub open spec fn wf(self) -> bool {
        model_ok(self@)
    }

    pub fn new() -> (b: Self)
        ensures
            b.wf(),
            b@ == empty_tree(),
    {
        let mut nodes: Vec<CallTreeNode> = Vec::new();
        nodes.push(
            CallTreeNode {
                id: 0,
                func_addr: 0,
                func_name: None,
                entry_seq: 0,
                exit_seq: 0xFFFF_FFFF,
                parent_id: None,
                children_ids: Vec::new(),
            },
        );
        let b = CallTreeBuilder { nodes, current: 0 };
        assert(b@.nodes =~= empty_tree().nodes);
        b
    }

    /// Address of the code that the trace starts in.
    pub fn set_root_addr(&mut self, addr: u64)
        requires
            old(self).wf(),
        ensures
            final(self).wf(),
            final(self)@ == with_root_addr(old(self)@, addr),
    {
        let ghost before = self.nodes@;
        self.nodes[0].func_addr = addr;
        proof {
            lemma_views_update(before, 0, self.nodes@[0]);
            assert(self.nodes@ =~= before.update(0, self.nodes@[0]));
        }
    }

    pub fn on_call(&mut self, seq: u32, target: u64)
        requires
            old(self).wf(),
            old(self)@.nodes.len() <= u32::MAX,
        ensures
            final(self).wf(),
            final(self)@ == after_call(old(self)@, seq, target),
    {
        let ghost before = self.nodes@;
        let id: u32 = self.nodes.len() as u32;
        let parent: u32 = self.current;
        let at: usize = parent as usize;
        self.nodes[at].children_ids.push(id);
        proof {
            assert(self.nodes@ =~= before.update(at as int, self.nodes@[at as int]));
            lemma_views_update(before, at as int, self.nodes@[at as int]);
        }
        let ghost mid = self.nodes@;
        let node = CallTreeNode {
            id,
            func_addr: target,
            func_name: None,
            entry_seq: seq,
            exit_seq: 0xFFFF_FFFF,
            parent_id: Some(parent),
            children_ids: Vec::new(),
        };
        self.nodes.push(node);
        self.current = id;
        proof {
            assert(node_views(self.nodes@) =~= node_views(mid).push(node@));
            assert(node@ =~= after_call(old(self)@, seq, target).nodes.last());
        }
    }

    pub fn on_ret(&mut self, seq: u32)
        requires
            old(self).wf(),
        ensures
            final(self).wf(),
            final(self)@ == after_ret(old(self)@, seq),
    {
        if self.current != 0 {
            let ghost before = self.nodes@;
            let at: usize = self.current as usize;
            assert(self@.nodes[at as int].parent_id is Some);
            self.nodes[at].exit_seq = seq;
            proof {
                assert(self.nodes@ =~= before.update(at as int, self.nodes@[at as int]));
                lemma_views_update(before, at as int, self.nodes@[at as int]);
            }
            if let Some(parent) = self.nodes[at].parent_id {
                self.current = parent;
            }
        }
    }

    /// Corrects the address of the open node.
    pub fn update_current_func_addr(&mut self, addr: u64)
        requires
            old(self).wf(),
        ensures
            final(self).wf(),
            final(self)@ == with_current_addr(old(self)@, addr),
    {
        if self.current != 0 {
            let ghost before = self.nodes@;
            let at: usize = self.current as usize;
            self.nodes[at].func_addr = addr;
            proof {
                assert(self.nodes@ =~= before.update(at as int, self.nodes@[at as int]));
                lemma_views_update(before, at as int, self.nodes@[at as int]);
                lemma_tree_update(node_views(before), at as int, self.nodes@[at as int]@);
            }
        }
    }

    /// Names the latest node that starts at `entry_seq`.
    pub fn set_func_name_by_entry_seq(&mut self, entry_seq: u32, name: &str)
        requires
            old(self).wf(),
        ensures
            final(self).wf(),
            final(self)@ == with_name(old(self)@, entry_seq, name@),
    {
        let mut i: usize = self.nodes.len();
        while i > 0
            invariant
                i <= self.nodes@.len(),
                *self == *old(self),
                self.wf(),
                with_name(self@, entry_seq, name@).nodes == named(
                    self@.nodes,
                    entry_seq,
                    name@,
                    i as int,
                ),
            decreases i,
        {
            i -= 1;
            if self.nodes[i].entry_seq == entry_seq {
                let ghost before = self.nodes@;
                self.nodes[i].func_name = Some(name.to_owned());
                proof {
                    assert(self.nodes@ =~= before.update(i as int, self.nodes@[i as int]));
                    lemma_views_update(before, i as int, self.nodes@[i as int]);
                }
                return ;
            }
        }
    }

    /// Closes what is still open at the end of a trace of `total_lines` lines.
    pub fn finish(self, total_lines: u32) -> (tree: CallTree)
        requires
            self.wf(),
        ensures
            tree_ok(tree@),
            tree@ == close_all(self@, total_lines),
    {
        let mut b = self;
        let last: u32 = if total_lines == 0 {
            0
        } else {
            total_lines - 1
        };
        let ghost want = close_all(self@, total_lines);
        while b.current != 0
            invariant
                b.wf(),
                want == close_all(b@, total_lines),
                last == last_line(total_lines),
            decreases b.current,
        {
            let ghost before = b.nodes@;
            let at: usize = b.current as usize;
            assert(b@.nodes[at as int].parent_id is Some);
            b.nodes[at].exit_seq = last;
            proof {
                assert(b.nodes@ =~= before.update(at as int, b.nodes@[at as int]));
                lemma_views_update(before, at as int, b.nodes@[at as int]);
            }
            if let Some(parent) = b.nodes[at].parent_id {
                b.current = parent;
            }
        }
        let ghost before = b.nodes@;
        b.nodes[0].exit_seq = last;
        proof {
            assert(b.nodes@ =~= before.update(0, b.nodes@[0]));
            lemma_views_update(before, 0, b.nodes@[0]);
        }
        CallTree { nodes: b.nodes }
    }
}

impl Default for CallTreeBuilder {
    fn default() -> (b: Self)
        ensures
            b.wf(),
            b@ == empty_tree(),
    {
        Self::new()
    }
}

} // verus!
