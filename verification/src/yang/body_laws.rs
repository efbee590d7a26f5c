//! How data are put together from their parts: containers, lists, operations
//! and requests.
use vstd::prelude::*;

use crate::cbor::encode::encoding;
use crate::cbor::value::Item;
use crate::json::{with_member, Tree};
use crate::yang::bodies::{
    body_decoded, body_encoded, delta_base, entries_decoded, entries_encoded, fields_decoded,
    fields_encoded, leaves_decoded, leaves_encoded, node_decoded, node_encoded, ContentFormat,
};
use crate::yang::codec::{
    entries_bytes, entry_decoded, entry_encoded, tree_decoded, tree_encoded,
};
use crate::yang::describe_laws::{lemma_put_in, looked_up};
use crate::yang::readings::{
    key_shown, path_decoded, path_to, value_decoded,
};
use crate::yang::scalars::{item_number, signed_low, DecimalView};
use crate::yang::schema::{child_named, child_of, NodeView, SchemaView};
use crate::yang::values::{path_encoded, value_encoded};

verus! {

/// The SID that fields below a node are counted from: of an input or output,
/// that of its operation; else the node's own.
pub open spec fn counted_from(s: SchemaView, node: usize) -> int {
    let n = s.nodes[node as int];
    let side = n.kw == "input"@ || n.kw == "output"@;
    if side && n.parent is Some && (s.nodes[n.parent->0 as int].kw == "rpc"@
        || s.nodes[n.parent->0 as int].kw == "action"@) && s.nodes[n.parent->0 as int].sid is Some {
        s.nodes[n.parent->0 as int].sid->0 as int
    } else if n.sid is Some {
        n.sid->0 as int
    } else {
        0
    }
}

/// Whether a node is a child of another, found by its name.
pub open spec fn is_child(s: SchemaView, parent: usize, name: Seq<char>, c: usize) -> bool {
    s.nodes[parent as int].children.contains(c) && s.nodes[c as int].name == name
}

/// A child is found by its name exactly if there is one.
pub proof fn law_children_by_name(s: SchemaView, parent: usize, name: Seq<char>)
    ensures
        child_of(s, parent, name) matches Some(c) ==> is_child(s, parent, name, c),
        child_of(s, parent, name) is None ==> forall|c: usize| !#[trigger]
            is_child(s, parent, name, c),
{
    lemma_child(s.nodes, s.nodes[parent as int].children, name, 0);
    let children = s.nodes[parent as int].children;
    if child_of(s, parent, name) is None {
        assert forall|c: usize| !#[trigger] is_child(s, parent, name, c) by {
            if children.contains(c) {
                let k = choose|k: int| 0 <= k < children.len() && children[k] == c;
                assert(s.nodes[children[k] as int].name != name);
            }
        }
    }
}

proof fn lemma_child(nodes: Seq<NodeView>, children: Seq<usize>, name: Seq<char>, from: int)
    requires
        0 <= from,
    ensures
        match child_named(nodes, children, name, from) {
            Some(c) => children.contains(c) && nodes[c as int].name == name,
            None => forall|k: int|
                from <= k < children.len() ==> nodes[#[trigger] children[k] as int].name != name,
        },
    decreases children.len() - from,
{
    if from < children.len() && nodes[children[from] as int].name != name {
        lemma_child(nodes, children, name, from + 1);
    }
}

/// Whether a field is what a member of an object is sent as: the child with
/// its name, by the distance of the child's SID, and the data of the child.
pub open spec fn field_stands_for(
    s: SchemaView,
    scope: usize,
    member: (Seq<char>, Tree),
    cf: ContentFormat,
    field: (Item, Item),
) -> bool {
    exists|c: usize|
        {
            &&& #[trigger] is_child(s, scope, member.0, c)
            &&& s.nodes[c as int].sid is Some
            &&& ({
                let far = s.nodes[c as int].sid->0 - counted_from(s, scope);
                i64::MIN <= far <= i64::MAX ==> field.0 == Item::Integer(far)
            })
            &&& node_encoded(s, c, member.1, cf, false) == Ok::<Item, Seq<char>>(field.1)
        }
}

/// An object is sent as a table of its members, in their order: each by the
/// distance of its SID from that of the node, with the data of the child that it
/// names. One with a member that names no child, or one without a SID, is
/// refused.
pub proof fn law_objects_are_sent_by_distance(
    s: SchemaView,
    scope: usize,
    m: Seq<(Seq<char>, Tree)>,
    cf: ContentFormat,
    item: Item,
)
    requires
        body_encoded(s, scope, m, cf, false) == Ok::<Item, Seq<char>>(item),
    ensures
        item matches Item::Entries(e) && e.len() == m.len() && forall|i: int|
            0 <= i < m.len() ==> field_stands_for(s, scope, m[i], cf, #[trigger] e[i]),
{
    lemma_fields(s, scope, m, 0, cf, Seq::empty());
}

proof fn lemma_fields(
    s: SchemaView,
    scope: usize,
    m: Seq<(Seq<char>, Tree)>,
    i: int,
    cf: ContentFormat,
    seen: Seq<(Item, Item)>,
)
    requires
        0 <= i <= m.len(),
        seen.len() == i,
        forall|k: int| 0 <= k < i ==> field_stands_for(s, scope, m[k], cf, #[trigger] seen[k]),
        fields_encoded(s, scope, m, i, cf, false, seen) is Ok,
    ensures
        ({
            let e = fields_encoded(s, scope, m, i, cf, false, seen)->Ok_0;
            e.len() == m.len() && forall|k: int|
                0 <= k < m.len() ==> field_stands_for(s, scope, m[k], cf, #[trigger] e[k])
        }),
    decreases m.len() - i,
{
    if i < m.len() {
        law_children_by_name(s, scope, m[i].0);
        let c = child_of(s, scope, m[i].0)->0;
        let sid = s.nodes[c as int].sid->0;
        let far = sid - counted_from(s, scope);
        assert(delta_base(s, scope) == counted_from(s, scope));
        let one = (
            Item::Integer(signed_low(sid - delta_base(s, scope))),
            node_encoded(s, c, m[i].1, cf, false)->Ok_0,
        );
        if i64::MIN <= far <= i64::MAX {
            assert(signed_low(far) == far);
        }
        assert(is_child(s, scope, m[i].0, c));
        assert(field_stands_for(s, scope, m[i], cf, one));
        let next = seen.push(one);
        assert forall|k: int| 0 <= k < i + 1 implies field_stands_for(
            s,
            scope,
            m[k],
            cf,
            #[trigger] next[k],
        ) by {
            if k < i {
                assert(next[k] == seen[k]);
            }
        }
        lemma_fields(s, scope, m, i + 1, cf, next);
    }
}

/// The node that a field means whose key is a distance.
pub open spec fn meant_by(s: SchemaView, scope: usize, key: Item) -> Option<usize> {
    match key {
        Item::Integer(k) => {
            let sid = k + counted_from(s, scope);
            if i64::MIN <= k <= i64::MAX && i64::MIN <= sid <= i64::MAX
                && s.sid_index.contains_key(sid as i64) {
                Some(s.sid_index[sid as i64])
            } else {
                None
            }
        },
        _ => None,
    }
}

/// A table that a device sends is shown as an object: each field that is not
/// followed by another of the same name under the name of the node whose SID is
/// that far away, with the data of that node.
pub proof fn law_tables_are_shown_by_name(
    s: SchemaView,
    scope: usize,
    e: Seq<(Item, Item)>,
    i: int,
    node: usize,
    cf: ContentFormat,
    d: Seq<DecimalView>,
    shown: Tree,
)
    requires
        body_decoded(s, scope, Item::Entries(e), cf, d) == Ok::<Tree, Seq<char>>(shown),
        0 <= i < e.len(),
        meant_by(s, scope, e[i].0) == Some(node),
        forall|j: int|
            i < j < e.len() ==> (meant_by(s, scope, (#[trigger] e[j]).0) matches Some(other)
                && s.nodes[other as int].name != s.nodes[node as int].name),
    ensures
        node_decoded(s, node, e[i].1, cf, d) is Ok,
        looked_up(shown, s.nodes[node as int].name) == Some(
            node_decoded(s, node, e[i].1, cf, d)->Ok_0,
        ),
{
    lemma_shown(s, scope, e, 0, i, node, cf, d, Seq::empty());
}

proof fn lemma_shown(
    s: SchemaView,
    scope: usize,
    e: Seq<(Item, Item)>,
    at: int,
    i: int,
    node: usize,
    cf: ContentFormat,
    d: Seq<DecimalView>,
    seen: Seq<(Seq<char>, Tree)>,
)
    requires
        0 <= at <= e.len(),
        0 <= i < e.len(),
        meant_by(s, scope, e[i].0) == Some(node),
        forall|j: int|
            i < j < e.len() ==> (meant_by(s, scope, (#[trigger] e[j]).0) matches Some(other)
                && s.nodes[other as int].name != s.nodes[node as int].name),
        fields_decoded(s, scope, Item::Entries(e), at, cf, d, seen) is Ok,
        at > i ==> node_decoded(s, node, e[i].1, cf, d) is Ok && looked_up(
            Tree::Object(seen),
            s.nodes[node as int].name,
        ) == Some(node_decoded(s, node, e[i].1, cf, d)->Ok_0),
    ensures
        node_decoded(s, node, e[i].1, cf, d) is Ok,
        looked_up(
            Tree::Object(fields_decoded(s, scope, Item::Entries(e), at, cf, d, seen)->Ok_0),
            s.nodes[node as int].name,
        ) == Some(node_decoded(s, node, e[i].1, cf, d)->Ok_0),
    decreases e.len() - at,
{
    if at < e.len() {
        let k = item_number(e[at].0)->0;
        assert(delta_base(s, scope) == counted_from(s, scope));
        let sid = signed_low(signed_low(k) + delta_base(s, scope));
        let c = s.sid_index[sid as i64];
        let tree = node_decoded(s, c, e[at].1, cf, d)->Ok_0;
        if at >= i {
            if at > i {
                assert(meant_by(s, scope, e[at].0) is Some);
            }
            assert(signed_low(k) == k);
            assert(signed_low(k + counted_from(s, scope)) == k + counted_from(s, scope));
            assert(meant_by(s, scope, e[at].0) == Some(c));
        }
        lemma_put_in(seen, s.nodes[c as int].name, tree, s.nodes[node as int].name);
        lemma_shown(
            s,
            scope,
            e,
            at + 1,
            i,
            node,
            cf,
            d,
            with_member(seen, s.nodes[c as int].name, tree),
        );
    }
}

/// The keywords of nodes are different.
proof fn lemma_keywords()
    ensures
        "leaf"@ != "leaf-list"@,
        "leaf"@ != "list"@,
        "leaf"@ != "container"@,
        "leaf"@ != "rpc"@,
        "leaf"@ != "action"@,
        "leaf-list"@ != "list"@,
        "leaf-list"@ != "container"@,
        "leaf-list"@ != "rpc"@,
        "leaf-list"@ != "action"@,
        "leaf-list"@ != "input"@,
        "leaf-list"@ != "output"@,
        "list"@ != "container"@,
        "list"@ != "rpc"@,
        "list"@ != "action"@,
        "list"@ != "input"@,
        "list"@ != "output"@,
        "rpc"@ != "container"@,
        "rpc"@ != "input"@,
        "rpc"@ != "output"@,
        "action"@ != "container"@,
        "action"@ != "input"@,
        "action"@ != "output"@,
        "input"@ != "output"@,
{
    reveal_strlit("leaf");
    reveal_strlit("leaf-list");
    reveal_strlit("list");
    reveal_strlit("container");
    reveal_strlit("rpc");
    reveal_strlit("action");
    reveal_strlit("input");
    reveal_strlit("output");
    assert("leaf"@.len() == 4 && "leaf-list"@.len() == 9 && "list"@.len() == 4);
    assert("container"@.len() == 9 && "rpc"@.len() == 3 && "action"@.len() == 6);
    assert("input"@.len() == 5 && "output"@.len() == 6);
    assert("leaf"@[1] == 'e' && "list"@[1] == 'i' && "leaf-list"@[0] == 'l');
    assert("container"@[0] == 'c' && "action"@[0] == 'a' && "output"@[0] == 'o');
}

/// The data of a leaf are a value of its type, sent and shown as such.
pub proof fn law_leaves_have_their_type(
    s: SchemaView,
    node: usize,
    t: usize,
    v: Tree,
    item: Item,
    cf: ContentFormat,
    d: Seq<DecimalView>,
)
    requires
        s.nodes[node as int].kw == "leaf"@,
        s.nodes[node as int].type_id == Some(t),
    ensures
        node_encoded(s, node, v, cf, false) == value_encoded(s, t, v, false),
        node_decoded(s, node, item, cf, d) == value_decoded(s, t, item, false, d),
{
    lemma_keywords();
}

/// The data of a leaf-list are a list of values of its type, sent and shown one
/// by one in their order.
pub proof fn law_leaf_lists_keep_their_order(
    s: SchemaView,
    node: usize,
    t: usize,
    a: Seq<Tree>,
    items: Seq<Item>,
    cf: ContentFormat,
    d: Seq<DecimalView>,
)
    requires
        s.nodes[node as int].kw == "leaf-list"@,
        s.nodes[node as int].type_id == Some(t),
    ensures
        node_encoded(s, node, Tree::Array(a), cf, false) matches Ok(r) ==> (r matches Item::Array(x)
            && x.len() == a.len() && forall|i: int|
            0 <= i < a.len() ==> value_encoded(s, t, a[i], false) == Ok::<Item, Seq<char>>(
                #[trigger] x[i],
            )),
        node_decoded(s, node, Item::Array(items), cf, d) matches Ok(r) ==> (r matches Tree::Array(x)
            && x.len() == items.len() && forall|i: int|
            0 <= i < items.len() ==> value_decoded(s, t, items[i], false, d) == Ok::<
                Tree,
                Seq<char>,
            >(#[trigger] x[i])),
{
    lemma_keywords();
    let n = s.nodes[node as int];
    if node_encoded(s, node, Tree::Array(a), cf, false) is Ok {
        lemma_leaves_out(s, n, t, a, a.len() as int);
    }
    if node_decoded(s, node, Item::Array(items), cf, d) is Ok {
        lemma_leaves_in(s, n, t, items, d, items.len() as int);
    }
}

proof fn lemma_leaves_out(s: SchemaView, n: NodeView, t: usize, a: Seq<Tree>, k: int)
    requires
        n.type_id == Some(t),
        0 <= k <= a.len(),
        leaves_encoded(s, n, a, false, k) is Ok,
    ensures
        ({
            let x = leaves_encoded(s, n, a, false, k)->Ok_0;
            x.len() == k && forall|i: int|
                0 <= i < k ==> value_encoded(s, t, a[i], false) == Ok::<Item, Seq<char>>(
                    #[trigger] x[i],
                )
        }),
    decreases k,
{
    if k > 0 {
        lemma_leaves_out(s, n, t, a, k - 1);
    }
}

proof fn lemma_leaves_in(
    s: SchemaView,
    n: NodeView,
    t: usize,
    a: Seq<Item>,
    d: Seq<DecimalView>,
    k: int,
)
    requires
        n.type_id == Some(t),
        0 <= k <= a.len(),
        leaves_decoded(s, n, a, d, k) is Ok,
    ensures
        ({
            let x = leaves_decoded(s, n, a, d, k)->Ok_0;
            x.len() == k && forall|i: int|
                0 <= i < k ==> value_decoded(s, t, a[i], false, d) == Ok::<Tree, Seq<char>>(
                    #[trigger] x[i],
                )
        }),
    decreases k,
{
    if k > 0 {
        lemma_leaves_in(s, n, t, a, d, k - 1);
    }
}

/// The data of a container are an object, sent and shown as its body.
pub proof fn law_containers_are_objects(
    s: SchemaView,
    node: usize,
    m: Seq<(Seq<char>, Tree)>,
    item: Item,
    cf: ContentFormat,
    d: Seq<DecimalView>,
)
    requires
        s.nodes[node as int].kw == "container"@,
    ensures
        node_encoded(s, node, Tree::Object(m), cf, false) == body_encoded(s, node, m, cf, false),
        node_decoded(s, node, item, cf, d) == body_decoded(s, node, item, cf, d),
        !(item is Entries) ==> node_decoded(s, node, item, cf, d) is Err,
{
    lemma_keywords();
}

/// Whether a data item is what an entry of a list is sent as: the body of an
/// object.
#[verifier::opaque]
pub open spec fn entry_stands_for(
    s: SchemaView,
    node: usize,
    v: Tree,
    cf: ContentFormat,
    item: Item,
) -> bool {
    v matches Tree::Object(m) && body_encoded(s, node, m, cf, false) == Ok::<Item, Seq<char>>(item)
}

/// The data of a list are a list of objects, sent one by one in their order as
/// bodies of the list.
pub proof fn law_lists_keep_their_order(
    s: SchemaView,
    node: usize,
    a: Seq<Tree>,
    cf: ContentFormat,
    item: Item,
)
    requires
        s.nodes[node as int].kw == "list"@,
        node_encoded(s, node, Tree::Array(a), cf, false) == Ok::<Item, Seq<char>>(item),
    ensures
        item matches Item::Array(x) && x.len() == a.len() && forall|i: int|
            0 <= i < a.len() ==> entry_stands_for(s, node, a[i], cf, #[trigger] x[i]),
{
    lemma_keywords();
    assert(entries_encoded(s, node, a, 0, cf, false, Seq::empty()) is Ok);
    lemma_entries_out(s, node, a, 0, cf, Seq::empty());
}

/// The entries of a list that a device sends are shown one by one in their order
/// as bodies of the list.
pub proof fn law_lists_are_shown_in_order(
    s: SchemaView,
    node: usize,
    items: Seq<Item>,
    cf: ContentFormat,
    d: Seq<DecimalView>,
    shown: Tree,
)
    requires
        s.nodes[node as int].kw == "list"@,
        node_decoded(s, node, Item::Array(items), cf, d) == Ok::<Tree, Seq<char>>(shown),
    ensures
        shown matches Tree::Array(x) && x.len() == items.len() && forall|i: int|
            0 <= i < items.len() ==> body_decoded(s, node, items[i], cf, d) == Ok::<
                Tree,
                Seq<char>,
            >(#[trigger] x[i]),
{
    lemma_keywords();
    lemma_entries_in(s, node, items, 0, cf, d, Seq::empty());
}

/// One entry, then the others.
proof fn lemma_entries_one(
    s: SchemaView,
    node: usize,
    a: Seq<Tree>,
    i: int,
    cf: ContentFormat,
    seen: Seq<Item>,
) -> (one: Item)
    requires
        0 <= i < a.len(),
        entries_encoded(s, node, a, i, cf, false, seen) is Ok,
    ensures
        entry_stands_for(s, node, a[i], cf, one),
        entries_encoded(s, node, a, i, cf, false, seen) == entries_encoded(
            s,
            node,
            a,
            i + 1,
            cf,
            false,
            seen.push(one),
        ),
{
    reveal(entry_stands_for);
    body_encoded(s, node, a[i]->Object_0, cf, false)->Ok_0
}

proof fn lemma_entries_out(
    s: SchemaView,
    node: usize,
    a: Seq<Tree>,
    i: int,
    cf: ContentFormat,
    seen: Seq<Item>,
)
    requires
        0 <= i <= a.len(),
        seen.len() == i,
        forall|k: int| 0 <= k < i ==> entry_stands_for(s, node, a[k], cf, #[trigger] seen[k]),
        entries_encoded(s, node, a, i, cf, false, seen) is Ok,
    ensures
        ({
            let x = entries_encoded(s, node, a, i, cf, false, seen)->Ok_0;
            x.len() == a.len() && forall|k: int|
                0 <= k < a.len() ==> entry_stands_for(s, node, a[k], cf, #[trigger] x[k])
        }),
    decreases a.len() - i,
{
    if i < a.len() {
        let one = lemma_entries_one(s, node, a, i, cf, seen);
        let next = seen.push(one);
        assert forall|k: int| 0 <= k < i + 1 implies entry_stands_for(
            s,
            node,
            a[k],
            cf,
            #[trigger] next[k],
        ) by {
            if k < i {
                assert(next[k] == seen[k]);
            }
        }
        lemma_entries_out(s, node, a, i + 1, cf, next);
    }
}

proof fn lemma_entries_in(
    s: SchemaView,
    node: usize,
    a: Seq<Item>,
    i: int,
    cf: ContentFormat,
    d: Seq<DecimalView>,
    seen: Seq<Tree>,
)
    requires
        0 <= i <= a.len(),
        seen.len() == i,
        forall|k: int|
            0 <= k < i ==> body_decoded(s, node, a[k], cf, d) == Ok::<Tree, Seq<char>>(
                #[trigger] seen[k],
            ),
        entries_decoded(s, node, Item::Array(a), i, cf, d, seen) is Ok,
    ensures
        ({
            let x = entries_decoded(s, node, Item::Array(a), i, cf, d, seen)->Ok_0;
            x.len() == a.len() && forall|k: int|
                0 <= k < a.len() ==> body_decoded(s, node, a[k], cf, d) == Ok::<Tree, Seq<char>>(
                    #[trigger] x[k],
                )
        }),
    decreases a.len() - i,
{
    if i < a.len() {
        let one = body_decoded(s, node, a[i], cf, d)->Ok_0;
        let next = seen.push(one);
        assert forall|k: int| 0 <= k < i + 1 implies body_decoded(s, node, a[k], cf, d) == Ok::<
            Tree,
            Seq<char>,
        >(#[trigger] next[k]) by {
            if k < i {
                assert(next[k] == seen[k]);
            }
        }
        lemma_entries_in(s, node, a, i + 1, cf, d, next);
    }
}

/// A single entry may stand for a list where entries are sent by themselves,
/// and nowhere else.
pub proof fn law_single_entries(
    s: SchemaView,
    node: usize,
    m: Seq<(Seq<char>, Tree)>,
    e: Seq<(Item, Item)>,
    cf: ContentFormat,
    d: Seq<DecimalView>,
)
    requires
        s.nodes[node as int].kw == "list"@,
    ensures
        ({
            let single = cf == ContentFormat::Fetch || cf == ContentFormat::Ipatch || cf
                == ContentFormat::Post;
            &&& single ==> node_encoded(s, node, Tree::Object(m), cf, false) == body_encoded(
                s,
                node,
                m,
                cf,
                false,
            )
            &&& single ==> node_decoded(s, node, Item::Entries(e), cf, d) == body_decoded(
                s,
                node,
                Item::Entries(e),
                cf,
                d,
            )
            &&& !single ==> node_encoded(s, node, Tree::Object(m), cf, false) is Err
                && node_decoded(s, node, Item::Entries(e), cf, d) is Err
        }),
{
    lemma_keywords();
}

/// The data of an operation are those of one of its sides: of the one that an
/// object with a single member `input` or `output` names, else of the input.
pub proof fn law_operations_have_sides(
    s: SchemaView,
    node: usize,
    input: usize,
    output: usize,
    m: Seq<(Seq<char>, Tree)>,
    cf: ContentFormat,
)
    requires
        s.nodes[node as int].kw == "rpc"@ || s.nodes[node as int].kw == "action"@,
        child_of(s, node, "input"@) == Some(input),
        child_of(s, node, "output"@) == Some(output),
    ensures
        node_encoded(s, node, Tree::Object(seq![("input"@, Tree::Object(m))]), cf, false)
            == body_encoded(s, input, m, cf, false),
        node_encoded(s, node, Tree::Object(seq![("output"@, Tree::Object(m))]), cf, false)
            == body_encoded(s, output, m, cf, false),
        (forall|i: int| 0 <= i < m.len() ==> (#[trigger] m[i]).0 != "input"@ && m[i].0 != "output"@)
            ==> node_encoded(s, node, Tree::Object(m), cf, false) == body_encoded(
            s,
            input,
            m,
            cf,
            false,
        ),
{
    lemma_keywords();
    let a = seq![("input"@, Tree::Object(m))];
    let b = seq![("output"@, Tree::Object(m))];
    assert(a[0] == ("input"@, Tree::Object(m)));
    assert(b[0] == ("output"@, Tree::Object(m)));
    if m.len() == 1 && (m[0].0 == "input"@ || m[0].0 == "output"@) {
        assert(!(forall|i: int|
            0 <= i < m.len() ==> (#[trigger] m[i]).0 != "input"@ && m[i].0 != "output"@));
    }
}

/// A whole tree is sent and shown as the body of the top of all data; no bytes
/// at all are shown as an empty object.
pub proof fn law_trees_are_the_top(
    s: SchemaView,
    m: Seq<(Seq<char>, Tree)>,
    cf: ContentFormat,
    d: Seq<DecimalView>,
)
    ensures
        tree_encoded(s, Tree::Object(m), cf, false) == body_encoded(s, s.root, m, cf, false),
        tree_decoded(s, Seq::empty(), cf, d) == Ok::<Tree, Seq<char>>(Tree::Object(Seq::empty())),
        forall|v: Tree| !(v is Object) ==> (#[trigger] tree_encoded(s, v, cf, false)) is Err,
{
}

/// An entry of a request with a value is a table from the path to the data of
/// the node that the path leads to; a null is sent as null. Where paths are
/// fetched, a path by itself is sent as the path.
pub proof fn law_entries_are_sent_by_path(
    s: SchemaView,
    path: Seq<char>,
    node: usize,
    iid: Item,
    v: Tree,
    cf: ContentFormat,
)
    requires
        path_encoded(s, path) == Ok::<(usize, Item), Seq<char>>((node, iid)),
        cf == ContentFormat::Fetch || cf == ContentFormat::Ipatch || cf == ContentFormat::Post,
    ensures
        entry_encoded(s, Tree::Object(seq![(path, Tree::Null)]), cf, false) == Ok::<
            Item,
            Seq<char>,
        >(Item::Entries(seq![(iid, Item::Null)])),
        !(v is Null) ==> (match node_encoded(s, node, v, cf, false) {
            Ok(item) => entry_encoded(s, Tree::Object(seq![(path, v)]), cf, false) == Ok::<
                Item,
                Seq<char>,
            >(Item::Entries(seq![(iid, item)])),
            Err(_) => entry_encoded(s, Tree::Object(seq![(path, v)]), cf, false) is Err,
        }),
        cf == ContentFormat::Fetch ==> entry_encoded(s, Tree::Text(path), cf, false) == Ok::<
            Item,
            Seq<char>,
        >(iid),
        cf != ContentFormat::Fetch ==> entry_encoded(s, Tree::Text(path), cf, false) is Err,
{
    let a = seq![(path, Tree::Null)];
    let b = seq![(path, v)];
    assert(a[0] == (path, Tree::Null));
    assert(b[0] == (path, v));
}

/// An entry of a response is shown under the path that its key means, with the
/// data of that node; a null is shown as null. A path by itself is shown as the
/// path where paths are fetched.
pub proof fn law_entries_are_shown_by_path(
    s: SchemaView,
    path: Seq<char>,
    node: usize,
    iid: Item,
    v: Item,
    cf: ContentFormat,
    d: Seq<DecimalView>,
)
    requires
        path_decoded(s, iid, d) == Ok::<(usize, Seq<char>), Seq<char>>((node, path)),
    ensures
        entry_decoded(s, Item::Entries(seq![(iid, Item::Null)]), cf, d) == Ok::<Tree, Seq<char>>(
            Tree::Object(seq![(path, Tree::Null)]),
        ),
        !(v is Null) ==> (match node_decoded(s, node, v, cf, d) {
            Ok(t) => entry_decoded(s, Item::Entries(seq![(iid, v)]), cf, d) == Ok::<Tree, Seq<char>>(
                Tree::Object(seq![(path, t)]),
            ),
            Err(_) => entry_decoded(s, Item::Entries(seq![(iid, v)]), cf, d) is Err,
        }),
        iid is Integer || iid is Array ==> (cf == ContentFormat::Fetch ==> entry_decoded(
            s,
            iid,
            cf,
            d,
        ) == Ok::<Tree, Seq<char>>(Tree::Text(path))),
{
    let a = seq![(iid, Item::Null)];
    let b = seq![(iid, v)];
    assert(a[0] == (iid, Item::Null));
    assert(b[0] == (iid, v));
}

/// The bytes of some entries are the encodings of the entries, one behind the
/// other.
pub proof fn law_sequences_are_one_by_one(
    s: SchemaView,
    a: Seq<Tree>,
    last: Tree,
    cf: ContentFormat,
    before: Seq<u8>,
    item: Item,
)
    requires
        entries_bytes(s, a, cf, false, a.len() as int) == Ok::<Seq<u8>, Seq<char>>(before),
        entry_encoded(s, last, cf, false) == Ok::<Item, Seq<char>>(item),
    ensures
        entries_bytes(s, Seq::empty(), cf, false, 0) == Ok::<Seq<u8>, Seq<char>>(Seq::empty()),
        entries_bytes(s, a.push(last), cf, false, a.len() + 1int) == Ok::<Seq<u8>, Seq<char>>(
            before + encoding(item),
        ),
{
    lemma_same_start(s, a, last, cf, a.len() as int);
}

proof fn lemma_same_start(s: SchemaView, a: Seq<Tree>, last: Tree, cf: ContentFormat, n: int)
    requires
        0 <= n <= a.len(),
    ensures
        entries_bytes(s, a.push(last), cf, false, n) == entries_bytes(s, a, cf, false, n),
    decreases n,
{
    if n > 0 {
        lemma_same_start(s, a, last, cf, n - 1);
        assert(a.push(last)[n - 1] == a[n - 1]);
    }
}

/// The path to a node is that to its parent, a slash, and its name.
pub proof fn law_paths_grow_by_names(
    s: SchemaView,
    node: usize,
    p: usize,
    sid: int,
    d: Seq<DecimalView>,
    above: Seq<char>,
    k: int,
)
    requires
        s.nodes[node as int].parent == Some(p),
        p < node,
        s.nodes[node as int].kw != "module"@,
        s.nodes[node as int].keys.len() == 0,
        path_to(s, Item::Integer(sid), p, 1, d) == Ok::<(Seq<char>, int), Seq<char>>((above, k)),
    ensures
        path_to(s, Item::Integer(sid), node, 1, d) == Ok::<(Seq<char>, int), Seq<char>>(
            (above + seq!['/'] + s.nodes[node as int].name, k),
        ),
{
    reveal_strlit("/");
    assert("/"@ =~= seq!['/']);
    let v = Item::Integer(sid);
    let text = above + "/"@ + s.nodes[node as int].name;
    assert(crate::yang::readings::keys_shown(s, v, node, 0, k, d, text) == Ok::<
        (Seq<char>, int),
        Seq<char>,
    >((text, k)));
}

/// The key values of a list are shown in brackets behind its name, each behind
/// the name of its key, in quotes.
pub proof fn law_keys_are_shown_in_brackets(
    s: SchemaView,
    list: usize,
    key: usize,
    t: usize,
    sid: Item,
    value: Item,
    tree: Tree,
    text: Seq<char>,
    d: Seq<DecimalView>,
)
    requires
        s.nodes[list as int].keys.len() == 1,
        child_of(s, list, s.nodes[list as int].keys[0]) == Some(key),
        s.nodes[key as int].type_id == Some(t),
        value_decoded(s, t, value, false, d) == Ok::<Tree, Seq<char>>(tree),
        tree is Text,
    ensures
        crate::yang::readings::keys_shown(
            s,
            Item::Array(seq![sid, value]),
            list,
            0,
            1,
            d,
            text,
        ) == Ok::<(Seq<char>, int), Seq<char>>(
            (
                text + (seq!['['] + s.nodes[list as int].keys[0] + seq!['=', '\''] + tree->Text_0
                    + seq!['\'', ']']),
                2,
            ),
        ),
{
    reveal_strlit("[");
    reveal_strlit("='");
    reveal_strlit("']");
    assert("["@ =~= seq!['[']);
    assert("='"@ =~= seq!['=', '\'']);
    assert("']"@ =~= seq!['\'', ']']);
    let v = Item::Array(seq![sid, value]);
    assert(v->Array_0[1] == value);
    let next = text + ("["@ + s.nodes[list as int].keys[0] + "='"@ + key_shown(tree) + "']"@);
    assert(crate::yang::readings::keys_shown(s, v, list, 1, 2, d, next) == Ok::<
        (Seq<char>, int),
        Seq<char>,
    >((next, 2)));
}

} // verus!
