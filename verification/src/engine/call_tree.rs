//! Queries on the call tree.

use crate::engine::session::{get_line, line_at, LineFact, TraceEngine, TraceSession};
use crate::error::{is_invalid, is_unknown_session, TraceError};
use crate::query::call_tree::{name_view, CallTree, CallTreeNode, NodeView};
use crate::text::{address, address_text, decimal_text, push_decimal, push_text};
use vstd::prelude::*;

verus! {

/// A call as it is shown.
#[derive(Debug, Clone, PartialEq, Eq)]
pub struct CallTreeNodeDto {
    pub id: u32,
    /// Offset in the module where the trace shows it, else the address.
    pub func_addr: String,
    pub func_name: Option<String>,
    pub entry_seq: u32,
    pub exit_seq: u32,
    pub parent_id: Option<u32>,
    pub children_ids: Vec<u32>,
    pub line_count: u32,
}

/// Where an instruction is shown to stand: its offset in the module if the line
/// shows one, else its address.
pub open spec fn place_text(lines: Option<Vec<LineFact>>, seq: u32, addr: u64) -> Seq<char> {
    match line_at(lines, seq) {
        Some(fact) => if fact.insn_offset != 0 {
            address_text(fact.insn_offset)
        } else {
            address_text(addr)
        },
        None => address_text(addr),
    }
}

/// Where an instruction is shown to stand.
pub fn resolve_offset(lines: &Option<Vec<LineFact>>, seq: u32, addr: u64) -> (s: String)
    ensures
        s@ == place_text(*lines, seq, addr),
{
    if let Some(fact) = get_line(lines, seq) {
        if fact.insn_offset != 0 {
            return address(fact.insn_offset);
        }
    }
    address(addr)
}

pub fn copy_name(name: &Option<String>) -> (r: Option<String>)
    ensures
        name_view(r) == name_view(*name),
{
    match name {
        Some(s) => Some(s.clone()),
        None => None,
    }
}

/// The lines of a call can be counted.
pub open spec fn countable(n: NodeView) -> bool {
    n.exit_seq - n.entry_seq < u32::MAX
}

/// Number of lines from entry to exit; a call that ends before it begins counts
/// as one line.
pub open spec fn line_count(n: NodeView) -> int {
    if n.exit_seq < n.entry_seq {
        1
    } else {
        n.exit_seq - n.entry_seq + 1
    }
}

/// The DTO shows the call.
pub open spec fn shows_node(
    d: CallTreeNodeDto,
    n: NodeView,
    lines: Option<Vec<LineFact>>,
) -> bool {
    &&& d.id == n.id
    &&& d.func_addr@ == place_text(lines, n.entry_seq, n.func_addr)
    &&& name_view(d.func_name) == n.func_name
    &&& d.entry_seq == n.entry_seq
    &&& d.exit_seq == n.exit_seq
    &&& d.parent_id == n.parent_id
    &&& d.children_ids@ == n.children
    &&& d.line_count == line_count(n)
}

fn node_to_dto(n: &CallTreeNode, lines: &Option<Vec<LineFact>>) -> (d: CallTreeNodeDto)
    requires
        countable(n@),
    ensures
        shows_node(d, n@, *lines),
{
    let line_count: u32 = if n.exit_seq < n.entry_seq {
        1
    } else {
        n.exit_seq - n.entry_seq + 1
    };
    let children_ids: Vec<u32> = n.children_ids.clone();
    assert(children_ids@ =~= n.children_ids@);
    CallTreeNodeDto {
        id: n.id,
        func_addr: resolve_offset(lines, n.entry_seq, n.func_addr),
        func_name: copy_name(&n.func_name),
        entry_seq: n.entry_seq,
        exit_seq: n.exit_seq,
        parent_id: n.parent_id,
        children_ids,
        line_count,
    }
}

/// The DTOs show these calls, in order.
pub open spec fn shows_nodes(
    d: Seq<CallTreeNodeDto>,
    nodes: Seq<NodeView>,
    lines: Option<Vec<LineFact>>,
) -> bool {
    &&& d.len() == nodes.len()
    &&& forall|i: int| #![trigger d[i]] 0 <= i < d.len() ==> shows_node(d[i], nodes[i], lines)
}

/// The nodes that exist among the given ones.
pub open spec fn existing(nodes: Seq<NodeView>, ids: Seq<u32>) -> Seq<NodeView>
    decreases ids.len(),
{
    if ids.len() == 0 {
        Seq::empty()
    } else {
        let rest = existing(nodes, ids.drop_last());
        if ids.last() < nodes.len() {
            rest.push(nodes[ids.last() as int])
        } else {
            rest
        }
    }
}

/// A node and its children, or its children alone.
pub open spec fn family(nodes: Seq<NodeView>, id: u32, include_self: bool) -> Seq<NodeView> {
    let children = existing(nodes, nodes[id as int].children);
    if include_self {
        seq![nodes[id as int]] + children
    } else {
        children
    }
}

/// The lines of every call can be counted.
pub open spec fn tree_countable(tree: CallTree) -> bool {
    forall|i: int| #![trigger tree.nodes@[i]] 0 <= i < tree.nodes@.len() ==> countable(
        tree.nodes@[i]@,
    )
}

/// The session has a call tree, and it can be shown.
pub open spec fn session_countable(s: TraceSession) -> bool {
    s.call_tree matches Some(tree) ==> tree_countable(tree)
}

/// `节点 … 不存在`
pub open spec fn no_node_text(id: u32) -> Seq<char> {
    "节点 "@ + decimal_text(id as u64) + " 不存在"@
}

impl TraceEngine {
    /// All calls of a trace.
    pub fn get_call_tree(&self, session_id: &str) -> (r: Result<Vec<CallTreeNodeDto>, TraceError>)
        requires
            self.session(session_id@) matches Some(s) ==> session_countable(s),
        ensures
            match self.session(session_id@) {
                None => r matches Err(e) && is_unknown_session(e, session_id@),
                Some(s) => match s.call_tree {
                    None => r matches Err(TraceError::IndexNotReady),
                    Some(tree) => r matches Ok(d) && shows_nodes(d@, tree@, s.lines),
                },
            },
    {
        let state = match self.get_handle(session_id) {
            Ok(state) => state,
            Err(e) => {
                return Err(e);
            },
        };
        let tree: &CallTree = match &state.call_tree {
            Some(tree) => tree,
            None => {
                return Err(TraceError::IndexNotReady);
            },
        };
        let mut nodes: Vec<CallTreeNodeDto> = Vec::new();
        let mut i: usize = 0;
        while i < tree.nodes.len()
            invariant
                i <= tree.nodes@.len(),
                nodes@.len() == i,
                tree_countable(*tree),
                forall|k: int|
                    #![trigger nodes@[k]]
                    0 <= k < i ==> shows_node(nodes@[k], tree@[k], state.lines),
            decreases tree.nodes@.len() - i,
        {
            assert(tree@[i as int] == tree.nodes@[i as int]@);
            nodes.push(node_to_dto(&tree.nodes[i], &state.lines));
            i += 1;
        }
        Ok(nodes)
    }

    /// The calls that a call makes, itself first if asked for.
    pub fn get_call_tree_children(&self, session_id: &str, node_id: u32, include_self: bool) -> (r:
        Result<Vec<CallTreeNodeDto>, TraceError>)
        requires
            self.session(session_id@) matches Some(s) ==> session_countable(s),
        ensures
            match self.session(session_id@) {
                None => r matches Err(e) && is_unknown_session(e, session_id@),
                Some(s) => match s.call_tree {
                    None => r matches Err(TraceError::IndexNotReady),
                    Some(tree) => if node_id < tree@.len() {
                        r matches Ok(d) && shows_nodes(
                            d@,
                            family(tree@, node_id, include_self),
                            s.lines,
                        )
                    } else {
                        r matches Err(e) && is_invalid(e, no_node_text(node_id))
                    },
                },
            },
    {
        let state = match self.get_handle(session_id) {
            Ok(state) => state,
            Err(e) => {
                return Err(e);
            },
        };
        let tree: &CallTree = match &state.call_tree {
            Some(tree) => tree,
            None => {
                return Err(TraceError::IndexNotReady);
            },
        };
        if node_id as usize >= tree.nodes.len() {
            let mut text = "节点 ".to_owned();
            push_decimal(&mut text, node_id as u64);
            push_text(&mut text, " 不存在");
            return Err(TraceError::InvalidArgument(text));
        }
        let node: &CallTreeNode = &tree.nodes[node_id as usize];
        assert(tree@[node_id as int] == node@);
        let mut result: Vec<CallTreeNodeDto> = Vec::new();
        if include_self {
            result.push(node_to_dto(node, &state.lines));
        }
        let ghost own = if include_self {
            seq![node@]
        } else {
            Seq::empty()
        };
        let ghost ids = node.children_ids@;
        let mut k: usize = 0;
        assert(ids.take(0) =~= Seq::empty());
        assert(shows_nodes(result@, own + existing(tree@, ids.take(0)), state.lines));
        while k < node.children_ids.len()
            invariant
                k <= node.children_ids@.len(),
                ids == node.children_ids@,
                tree_countable(*tree),
                shows_nodes(result@, own + existing(tree@, ids.take(k as int)), state.lines),
            decreases node.children_ids@.len() - k,
        {
            let child: u32 = node.children_ids[k];
            let ghost before = own + existing(tree@, ids.take(k as int));
            assert(ids.take(k + 1).drop_last() =~= ids.take(k as int));
            if (child as usize) < tree.nodes.len() {
                assert(tree@[child as int] == tree.nodes@[child as int]@);
                let dto = node_to_dto(&tree.nodes[child as usize], &state.lines);
                let ghost shown = result@;
                result.push(dto);
                proof {
                    let after = own + existing(tree@, ids.take(k + 1));
                    assert(after =~= before.push(tree@[child as int]));
                    assert forall|i: int| #![trigger result@[i]] 0 <= i < result@.len() implies shows_node(
                        result@[i],
                        after[i],
                        state.lines,
                    ) by {
                        if i < shown.len() {
                            assert(result@[i] == shown[i]);
                        }
                    }
                }
            }
            k += 1;
        }
        assert(ids.take(ids.len() as int) =~= ids);
        assert(own + existing(tree@, ids) =~= family(tree@, node_id, include_self));
        Ok(result)
    }

    /// Number of calls, the root included.
    pub fn get_call_tree_node_count(&self, session_id: &str) -> (r: Result<u32, TraceError>)
        requires
            self.session(session_id@) matches Some(s) ==> (s.call_tree matches Some(tree)
                ==> tree@.len() <= u32::MAX),
        ensures
            match self.session(session_id@) {
                None => r matches Err(e) && is_unknown_session(e, session_id@),
                Some(s) => match s.call_tree {
                    None => r matches Err(TraceError::IndexNotReady),
                    Some(tree) => r matches Ok(n) && n == tree@.len(),
                },
            },
    {
        let state = match self.get_handle(session_id) {
            Ok(state) => state,
            Err(e) => {
                return Err(e);
            },
        };
        match &state.call_tree {
            Some(tree) => Ok(tree.nodes.len() as u32),
            None => Err(TraceError::IndexNotReady),
        }
    }
}

} // verus!
