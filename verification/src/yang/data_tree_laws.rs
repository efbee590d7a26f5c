//! How the tree of data comes from the nodes of modules.
use vstd::prelude::*;

use crate::yang::meaning::{flattened, flattened_all, tree_of_data};
use crate::yang::schema::{NodeView, SchemaView};

verus! {

/// No choice and no case stands in the tree of data, and no module but its top.
pub proof fn law_data_has_no_choices(s: SchemaView, i: int)
    requires
        tree_of_data(s),
        s.root < i < s.nodes.len(),
    ensures
        s.nodes[i].kw != "choice"@,
        s.nodes[i].kw != "case"@,
        s.nodes[i].kw != "module"@,
        s.nodes[i].parent is Some,
        s.nodes[s.root as int].kw == "module"@,
        s.nodes[s.root as int].sid == Some(0i64),
{
}

/// Whether one node is another in its own place: all but its place and its
/// children is the same.
pub open spec fn copied(a: NodeView, b: NodeView) -> bool {
    &&& b.kw == a.kw && b.name == a.name && b.config == a.config && b.mandatory == a.mandatory
    &&& b.type_id == a.type_id && b.keys == a.keys && b.sid == a.sid
    &&& b.owner_module == a.owner_module && b.description == a.description
}

/// Whether nodes are others with copies of `from` behind them, all of them the
/// last children of `parent`.
pub open spec fn copies_below(
    a: Seq<NodeView>,
    b: Seq<NodeView>,
    from: Seq<usize>,
    parent: usize,
) -> bool {
    let n = a.len() as int;
    let p = parent as int;
    let had = a[p].children.len() as int;
    &&& b.len() == n + from.len()
    &&& forall|i: int| 0 <= i < n && i != p ==> #[trigger] b[i] == a[i]
    &&& copied(a[p], b[p]) && b[p].parent == a[p].parent
    &&& b[p].children.len() == had + from.len()
    &&& forall|k: int| 0 <= k < had ==> #[trigger] b[p].children[k] == a[p].children[k]
    &&& forall|k: int| 0 <= k < from.len() ==> #[trigger] b[p].children[had + k] == n + k
    &&& forall|k: int|
        0 <= k < from.len() ==> copied(a[from[k] as int], #[trigger] b[n + k]) && b[n + k].parent
            == Some(parent) && b[n + k].children.len() == 0
}

/// Whether nodes hold data and nothing below them.
pub open spec fn leaves(nodes: Seq<NodeView>, from: Seq<usize>, limit: int) -> bool {
    forall|k: int|
        0 <= k < from.len() ==> #[trigger] from[k] < limit && nodes[from[k] as int].kw != "choice"@
            && nodes[from[k] as int].kw != "case"@ && nodes[from[k] as int].children.len() == 0
}

/// One node without children is copied.
proof fn lemma_one_copy(nodes: Seq<NodeView>, node: usize, parent: usize, limit: int)
    requires
        leaves(nodes, seq![node], limit),
        limit <= parent < nodes.len() < usize::MAX,
    ensures
        copies_below(nodes, flattened(nodes, node, parent, limit), seq![node], parent),
{
    assert(seq![node][0] == node);
    let n = nodes[node as int];
    let id = nodes.len() as usize;
    let more = nodes.push(NodeView { parent: Some(parent), children: Seq::empty(), ..n });
    let linked = more.update(
        parent as int,
        NodeView { children: more[parent as int].children.push(id), ..more[parent as int] },
    );
    assert(flattened_all(linked, node, n.children, 0, id, limit) == linked);
    assert(flattened(nodes, node, parent, limit) == linked);
}

/// Nodes without children are copied one after the other.
pub(crate) proof fn lemma_copies(
    nodes: Seq<NodeView>,
    node: usize,
    children: Seq<usize>,
    i: int,
    parent: usize,
    limit: int,
)
    requires
        leaves(nodes, children, limit),
        limit <= parent < nodes.len(),
        nodes.len() + children.len() - i < usize::MAX,
        node < limit,
        0 <= i <= children.len(),
        forall|k: int| 0 <= k < children.len() ==> node < #[trigger] children[k],
    ensures
        copies_below(
            nodes,
            flattened_all(nodes, node, children, i, parent, limit),
            children.subrange(i, children.len() as int),
            parent,
        ),
    decreases children.len() - i,
{
    let rest = children.subrange(i, children.len() as int);
    if i < children.len() {
        let c = children[i];
        assert(leaves(nodes, seq![c], limit)) by {
            assert(seq![c][0] == c);
        }
        lemma_one_copy(nodes, c, parent, limit);
        let one = flattened(nodes, c, parent, limit);
        assert(one[nodes.len() + 0int] == one[nodes.len() as int]);
        assert(one[parent as int].children[nodes[parent as int].children.len() + 0int]
            == nodes.len());
        assert(leaves(one, children, limit)) by {
            assert forall|k: int| 0 <= k < children.len() implies #[trigger] children[k] < limit
                && one[children[k] as int].kw != "choice"@ && one[children[k] as int].kw != "case"@
                && one[children[k] as int].children.len() == 0 by {
                assert(one[children[k] as int] == nodes[children[k] as int]);
            }
        }
        lemma_copies(one, node, children, i + 1, parent, limit);
        let end = flattened_all(one, node, children, i + 1, parent, limit);
        assert(flattened_all(nodes, node, children, i, parent, limit) == end);
        let after = children.subrange(i + 1, children.len() as int);
        let n = nodes.len() as int;
        let p = parent as int;
        let had = nodes[p].children.len() as int;
        assert forall|j: int| 0 <= j < n && j != p implies #[trigger] end[j] == nodes[j] by {
            assert(one[j] == nodes[j]);
        }
        assert forall|k: int| 0 <= k < had implies #[trigger] end[p].children[k]
            == nodes[p].children[k] by {
            assert(one[p].children[k] == nodes[p].children[k]);
        }
        assert forall|k: int| 0 <= k < rest.len() implies #[trigger] end[p].children[had + k] == n
            + k by {
            if k == 0 {
                assert(end[p].children[had] == one[p].children[had]);
            } else {
                assert(end[p].children[one[p].children.len() + (k - 1)] == one.len() + (k - 1));
            }
        }
        assert forall|k: int| 0 <= k < rest.len() implies copied(
            nodes[rest[k] as int],
            #[trigger] end[n + k],
        ) && end[n + k].parent == Some(parent) && end[n + k].children.len() == 0 by {
            if k == 0 {
                assert(end[n] == one[n]);
                assert(seq![c][0] == c);
                assert(copied(nodes[seq![c][0] as int], one[n + 0]));
            } else {
                assert(after[k - 1] == rest[k]);
                assert(end[one.len() + (k - 1)] == end[n + k]);
                assert(one[rest[k] as int] == nodes[rest[k] as int]);
            }
        }
    }
}

/// In the place of a choice or a case stand what it holds, in its order: copies
/// below the node that the choice stands in.
pub proof fn law_choices_give_way_to_what_they_hold(
    nodes: Seq<NodeView>,
    node: usize,
    parent: usize,
    limit: int,
)
    requires
        node < limit <= parent < nodes.len(),
        nodes[node as int].kw == "choice"@ || nodes[node as int].kw == "case"@,
        leaves(nodes, nodes[node as int].children, limit),
        forall|k: int|
            0 <= k < nodes[node as int].children.len() ==> node
                < #[trigger] nodes[node as int].children[k],
        nodes.len() + nodes[node as int].children.len() < usize::MAX,
    ensures
        copies_below(
            nodes,
            flattened(nodes, node, parent, limit),
            nodes[node as int].children,
            parent,
        ),
{
    let children = nodes[node as int].children;
    lemma_copies(nodes, node, children, 0, parent, limit);
    assert(children.subrange(0, children.len() as int) =~= children);
}

/// Any other node is copied itself, and what it holds is copied below its copy,
/// in its order.
pub proof fn law_other_nodes_are_copied(
    nodes: Seq<NodeView>,
    node: usize,
    parent: usize,
    limit: int,
)
    requires
        node < limit <= parent < nodes.len(),
        nodes[node as int].kw != "choice"@,
        nodes[node as int].kw != "case"@,
        leaves(nodes, nodes[node as int].children, limit),
        forall|k: int|
            0 <= k < nodes[node as int].children.len() ==> node
                < #[trigger] nodes[node as int].children[k],
        nodes.len() + nodes[node as int].children.len() + 1 < usize::MAX,
    ensures
        ({
            let r = flattened(nodes, node, parent, limit);
            let id = nodes.len() as int;
            let children = nodes[node as int].children;
            &&& r.len() == id + 1 + children.len()
            &&& copied(nodes[node as int], r[id]) && r[id].parent == Some(parent)
            &&& r[parent as int].children == nodes[parent as int].children.push(id as usize)
            &&& r[id].children.len() == children.len()
            &&& forall|k: int| 0 <= k < children.len() ==> #[trigger] r[id].children[k] == id + 1 + k
            &&& forall|k: int|
                0 <= k < children.len() ==> copied(
                    nodes[children[k] as int],
                    #[trigger] r[id + 1 + k],
                ) && r[id + 1 + k].parent == Some(id as usize)
        }),
{
    let n = nodes[node as int];
    let id = nodes.len() as usize;
    let children = n.children;
    let more = nodes.push(NodeView { parent: Some(parent), children: Seq::empty(), ..n });
    let linked = more.update(
        parent as int,
        NodeView { children: more[parent as int].children.push(id), ..more[parent as int] },
    );
    assert(leaves(linked, children, limit)) by {
        assert forall|k: int| 0 <= k < children.len() implies #[trigger] children[k] < limit
            && linked[children[k] as int].kw != "choice"@ && linked[children[k] as int].kw
            != "case"@ && linked[children[k] as int].children.len() == 0 by {
            assert(linked[children[k] as int] == nodes[children[k] as int]);
        }
    }
    lemma_copies(linked, node, children, 0, id, limit);
    assert(children.subrange(0, children.len() as int) =~= children);
    let r = flattened(nodes, node, parent, limit);
    assert(r == flattened_all(linked, node, children, 0, id, limit));
    assert(r[parent as int] == linked[parent as int]);
    assert(linked[id as int].children.len() == 0);
    assert forall|k: int| 0 <= k < children.len() implies #[trigger] r[id as int].children[k] == id
        + 1 + k by {
        assert(r[id as int].children[0 + k] == linked.len() + k);
    }
    assert forall|k: int| 0 <= k < children.len() implies copied(
        nodes[children[k] as int],
        #[trigger] r[id + 1 + k],
    ) && r[id + 1 + k].parent == Some(id) by {
        assert(r[linked.len() + k] == r[id + 1 + k]);
        assert(linked[children[k] as int] == nodes[children[k] as int]);
    }
}

} // verus!
