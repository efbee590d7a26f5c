//! Which nodes are found by their SIDs.
use vstd::prelude::*;

use crate::yang::meaning::{
    indexed, indexed_all, leads_back, one_tree, roots_indexed, sids_known, tree_of_data,
};
use crate::yang::schema::{node_ok, nodes_ok, NodeView, SchemaView};
use crate::yang::tree_laws::found_by_sid;

verus! {

/// Indexing a node takes nothing from the index.
proof fn lemma_index_keeps(nodes: Seq<NodeView>, types: int, node: usize, index: Map<i64, usize>)
    requires
        nodes_ok(nodes, types),
    ensures
        index.dom().subset_of(indexed(nodes, node, index).dom()),
    decreases nodes.len() - node, 1int, 0int,
{
    if node < nodes.len() {
        let own = match nodes[node as int].sid {
            Some(sid) => index.insert(sid, node),
            None => index,
        };
        lemma_index_keeps_all(nodes, types, node, 0, own);
    }
}

/// Indexing children takes nothing from the index.
proof fn lemma_index_keeps_all(
    nodes: Seq<NodeView>,
    types: int,
    node: usize,
    i: int,
    index: Map<i64, usize>,
)
    requires
        nodes_ok(nodes, types),
    ensures
        index.dom().subset_of(indexed_all(nodes, node, i, index).dom()),
    decreases nodes.len() - node, 0int, nodes[node as int].children.len() - i,
{
    if node < nodes.len() && 0 <= i < nodes[node as int].children.len() {
        assert(node_ok(nodes.len() as int, types, node as int, nodes[node as int]));
        let c = nodes[node as int].children[i];
        lemma_index_keeps(nodes, types, c, index);
        lemma_index_keeps_all(nodes, types, node, i + 1, indexed(nodes, c, index));
    }
}

/// Each child of a node is indexed with it, on top of some index.
proof fn lemma_child_indexed(
    nodes: Seq<NodeView>,
    types: int,
    node: usize,
    i: int,
    k: int,
    index: Map<i64, usize>,
) -> (m: Map<i64, usize>)
    requires
        nodes_ok(nodes, types),
        node < nodes.len(),
        0 <= i <= k < nodes[node as int].children.len(),
    ensures
        indexed(nodes, nodes[node as int].children[k], m).dom().subset_of(
            indexed_all(nodes, node, i, index).dom(),
        ),
    decreases k - i,
{
    assert(node_ok(nodes.len() as int, types, node as int, nodes[node as int]));
    let c = nodes[node as int].children[i];
    let next = indexed(nodes, c, index);
    if i == k {
        lemma_index_keeps_all(nodes, types, node, i + 1, next);
        index
    } else {
        lemma_child_indexed(nodes, types, node, i + 1, k, next)
    }
}

/// Each node of a tree is indexed with the top, on top of some index.
proof fn lemma_tree_indexed(
    nodes: Seq<NodeView>,
    types: int,
    root: usize,
    j: usize,
    index: Map<i64, usize>,
) -> (m: Map<i64, usize>)
    requires
        nodes_ok(nodes, types),
        nodes.len() <= usize::MAX,
        one_tree(nodes, root as int),
        root <= j < nodes.len(),
    ensures
        indexed(nodes, j, m).dom().subset_of(indexed(nodes, root, index).dom()),
    decreases j,
{
    if j == root {
        index
    } else {
        let p = nodes[j as int].parent->0;
        assert(nodes[p as int].children.contains(j));
        let k = choose|k: int|
            0 <= k < nodes[p as int].children.len() && nodes[p as int].children[k] == j;
        let above = lemma_tree_indexed(nodes, types, root, p, index);
        let own = match nodes[p as int].sid {
            Some(sid) => above.insert(sid, p),
            None => above,
        };
        lemma_child_indexed(nodes, types, p, 0, k, own)
    }
}

/// Indexing more tops takes nothing from the index.
proof fn lemma_roots_keep(
    nodes: Seq<NodeView>,
    types: int,
    roots: Seq<(Seq<char>, usize)>,
    index: Map<i64, usize>,
    n: int,
)
    requires
        nodes_ok(nodes, types),
    ensures
        index.dom().subset_of(roots_indexed(nodes, roots, index, n).dom()),
    decreases n,
{
    if n > 0 {
        lemma_roots_keep(nodes, types, roots, index, n - 1);
        lemma_index_keeps(
            nodes,
            types,
            roots[n - 1].1,
            roots_indexed(nodes, roots, index, n - 1),
        );
    }
}

/// The index of a tree and of other tops has the SIDs of all nodes of the tree.
pub(crate) proof fn lemma_all_indexed(
    s: SchemaView,
    roots: Seq<(Seq<char>, usize)>,
    index: Map<i64, usize>,
    n: int,
)
    requires
        nodes_ok(s.nodes, s.types.len() as int),
        s.nodes.len() <= usize::MAX,
        tree_of_data(s),
        s.sid_index == roots_indexed(s.nodes, roots, indexed(s.nodes, s.root, index), n),
    ensures
        sids_known(s),
{
    let types = s.types.len() as int;
    assert forall|i: int| s.root <= i < s.nodes.len() implies (
    #[trigger] s.nodes[i].sid matches Some(sid) ==> s.sid_index.contains_key(sid)) by {
        if s.nodes[i].sid is Some {
            let sid = s.nodes[i].sid->0;
            let m = lemma_tree_indexed(s.nodes, types, s.root, i as usize, index);
            let own = m.insert(sid, i as usize);
            lemma_index_keeps_all(s.nodes, types, i as usize, 0, own);
            assert(own.dom().contains(sid));
            assert(indexed(s.nodes, i as usize, m).dom().contains(sid));
            lemma_roots_keep(s.nodes, types, roots, indexed(s.nodes, s.root, index), n);
        }
    }
}

/// Whether a node belongs to the data, or is what a SID leads to.
pub open spec fn is_shown(s: SchemaView, i: int) -> bool {
    s.root <= i < s.nodes.len() || exists|sid: i64| #[trigger]
        s.sid_index.contains_key(sid) && s.sid_index[sid] == i
}

/// Whether no two nodes have the same SID.
pub open spec fn sids_distinct(s: SchemaView) -> bool {
    forall|i: int, j: int|
        is_shown(s, i) && is_shown(s, j) && s.nodes[i].sid is Some && #[trigger] s.nodes[i].sid
            == #[trigger] s.nodes[j].sid ==> i == j
}

/// Where SIDs are distinct, each node of the data is found by its SID.
pub proof fn law_distinct_sids_are_found(s: SchemaView, node: usize)
    requires
        tree_of_data(s),
        leads_back(s.nodes, s.sid_index),
        sids_known(s),
        sids_distinct(s),
        s.root <= node < s.nodes.len(),
    ensures
        found_by_sid(s, node),
{
    if s.nodes[node as int].sid is Some {
        let sid = s.nodes[node as int].sid->0;
        assert(s.sid_index.contains_key(sid));
        let other = s.sid_index[sid];
        assert(is_shown(s, other as int));
        assert(is_shown(s, node as int));
        assert(s.nodes[other as int].sid == s.nodes[node as int].sid);
    }
}

} // verus!
