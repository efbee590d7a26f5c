//! What is encoded under a schema is decoded to the same data.
use vstd::prelude::*;

use crate::cbor::decode::{item_at, lemma_item_advances};
use crate::cbor::encode::{encoding, encodings};
use crate::cbor::laws::{encodable, law_decode_of_encode, law_decoded_is_encodable};
use crate::cbor::value::Item;
use crate::json::{distinct_names, find_key, is_plain, with_member, Tree};
use crate::text::{find_text, index_from, local_of};
use crate::yang::bodies::{
    body_decoded, body_encoded, delta_base, entries_decoded, entries_encoded, fields_decoded,
    fields_encoded, leaf_encoded, leaves_decoded, leaves_encoded, missing_field, node_decoded,
    node_encoded, side_of, ContentFormat,
};
use crate::yang::codec::{
    entries_bytes, entries_trees, entry_decoded, entry_encoded, sequence_decoded, sequence_from,
    sequence_in, tree_decoded, tree_encoded,
};
use crate::yang::choices::{governing, member_for_cbor};
use crate::yang::readings::{path_decoded, plain_decoded, value_decoded};
use crate::yang::scalars::{item_number, signed_low, DecimalView};
use crate::yang::schema::{child_named, child_of, Builtin, NodeView, SchemaView};
use crate::yang::values::{
    path_encoded, path_parts, path_walked, segment_encoded, segment_name, selectors_from,
    value_encoded,
};

verus! {

/// Whether a value of a type is the one that its own encoding is decoded to.
pub open spec fn value_settled(s: SchemaView, id: usize, v: Tree, d: Seq<DecimalView>) -> bool {
    value_encoded(s, id, v, false) matches Ok(item) ==> value_decoded(s, id, item, false, d) == Ok::<
        Tree,
        Seq<char>,
    >(v)
}

/// Whether the SID of a node leads back to the node.
pub open spec fn found_by_sid(s: SchemaView, node: usize) -> bool {
    s.nodes[node as int].sid matches Some(sid) ==> s.sid_index.contains_key(sid)
        && s.sid_index[sid] == node
}

/// Whether one side of an operation is what its first field says: the field
/// is counted from the SID of the operation, and belongs to this side.
pub open spec fn side_told(
    s: SchemaView,
    node: usize,
    side: Seq<char>,
    m: Seq<(Seq<char>, Tree)>,
) -> bool {
    match child_of(s, node, side) {
        None => true,
        Some(c) => {
            let own = match s.nodes[node as int].sid {
                Some(sid) => sid as int,
                None => 0,
            };
            &&& delta_base(s, c) == own
            &&& m.len() > 0
            &&& child_of(s, c, m[0].0) matches Some(f) ==> s.nodes[f as int].sid matches Some(
                sid,
            ) ==> side_of(s, node, sid as int) == Some(side)
        },
    }
}

/// Whether data below a node are as decoding gives them: no name occurs
/// twice in an object, every leaf is the value that its encoding is decoded
/// to, the fields can be found by their SIDs, and an operation says which of
/// its sides is meant.
pub open spec fn settled(s: SchemaView, node: usize, v: Tree, d: Seq<DecimalView>) -> bool
    decreases v, 2int,
{
    let n = s.nodes[node as int];
    if n.kw == "leaf"@ {
        n.type_id matches Some(t) ==> value_settled(s, t, v, d)
    } else if n.kw == "leaf-list"@ {
        v matches Tree::Array(a) ==> n.type_id matches Some(t) ==> forall|i: int|
            0 <= i < a.len() ==> value_settled(s, t, #[trigger] a[i], d)
    } else if n.kw == "container"@ || n.kw == "input"@ || n.kw == "output"@ {
        v matches Tree::Object(m) ==> body_settled(s, node, m, d)
    } else if n.kw == "list"@ {
        match v {
            Tree::Object(m) => body_settled(s, node, m, d),
            Tree::Array(a) => forall|i: int|
                0 <= i < a.len() ==> (#[trigger] a[i] matches Tree::Object(m) ==> body_settled(
                    s,
                    node,
                    m,
                    d,
                )),
            _ => true,
        }
    } else if n.kw == "rpc"@ || n.kw == "action"@ {
        v matches Tree::Object(m) ==> m.len() == 0 || (m.len() == 1 && (m[0].0 == "input"@ || m[0].0
            == "output"@) && (m[0].1 matches Tree::Object(inner) ==> side_told(
            s,
            node,
            m[0].0,
            inner,
        ) && (child_of(s, node, m[0].0) matches Some(side) ==> body_settled(s, side, inner, d))))
    } else {
        true
    }
}

/// Whether the fields below a node are as decoding gives them.
pub open spec fn body_settled(
    s: SchemaView,
    scope: usize,
    m: Seq<(Seq<char>, Tree)>,
    d: Seq<DecimalView>,
) -> bool
    decreases m, 1int,
{
    &&& distinct_names(m)
    &&& forall|i: int|
        0 <= i < m.len() ==> (child_of(s, scope, (#[trigger] m[i]).0) matches Some(c) ==> found_by_sid(
            s,
            c,
        ) && settled(s, c, m[i].1, d))
}

/// The child with a name has that name.
pub(crate) proof fn lemma_child_name(nodes: Seq<NodeView>, children: Seq<usize>, name: Seq<char>, from: int)
    ensures
        child_named(nodes, children, name, from) matches Some(c) ==> nodes[c as int].name == name,
    decreases children.len() - from,
{
    if from < children.len() {
        lemma_child_name(nodes, children, name, from + 1);
    }
}

/// The distance of two SIDs leads from the one to the other.
pub(crate) proof fn lemma_distance(sid: int, base: int)
    requires
        i64::MIN <= sid <= i64::MAX,
    ensures
        signed_low(signed_low(signed_low(sid - base)) + base) == sid,
        signed_low(signed_low(sid - base)) == signed_low(sid - base),
{
}

/// A name that is not there is not found.
pub(crate) proof fn lemma_not_found(m: Seq<(Seq<char>, Tree)>, key: Seq<char>, from: int)
    requires
        0 <= from,
        forall|i: int| from <= i < m.len() ==> (#[trigger] m[i]).0 != key,
    ensures
        find_key(m, key, from) is None,
    decreases m.len() - from,
{
    if from < m.len() {
        lemma_not_found(m, key, from + 1);
    }
}

/// What the `k`-th member of an object becomes.
pub open spec fn field_made(
    s: SchemaView,
    scope: usize,
    member: (Seq<char>, Tree),
    cf: ContentFormat,
    made: (Item, Item),
) -> bool {
    &&& child_of(s, scope, member.0) is Some
    &&& s.nodes[child_of(s, scope, member.0)->0 as int].sid is Some
    &&& made.0 == Item::Integer(
        signed_low(
            s.nodes[child_of(s, scope, member.0)->0 as int].sid->0 as int - delta_base(s, scope),
        ),
    )
    &&& node_encoded(s, child_of(s, scope, member.0)->0, member.1, cf, false) == Ok::<
        Item,
        Seq<char>,
    >(made.1)
}

/// Each member of an object becomes one field.
pub(crate) proof fn lemma_fields(
    s: SchemaView,
    scope: usize,
    m: Seq<(Seq<char>, Tree)>,
    i: int,
    cf: ContentFormat,
    seen: Seq<(Item, Item)>,
    all: Seq<(Item, Item)>,
)
    requires
        0 <= i <= m.len(),
        seen.len() == i,
        fields_encoded(s, scope, m, i, cf, false, seen) == Ok::<Seq<(Item, Item)>, Seq<char>>(all),
        forall|k: int| 0 <= k < i ==> field_made(s, scope, m[k], cf, #[trigger] seen[k]),
    ensures
        all.len() == m.len(),
        forall|k: int| 0 <= k < m.len() ==> field_made(s, scope, m[k], cf, #[trigger] all[k]),
    decreases m.len() - i,
{
    if i < m.len() {
        let child = child_of(s, scope, m[i].0)->0;
        let sid = s.nodes[child as int].sid->0;
        let item = node_encoded(s, child, m[i].1, cf, false)->Ok_0;
        let next = seen.push((Item::Integer(signed_low(sid - delta_base(s, scope))), item));
        assert forall|k: int| 0 <= k < i + 1 implies field_made(
            s,
            scope,
            m[k],
            cf,
            #[trigger] next[k],
        ) by {
            if k < i {
                assert(next[k] == seen[k]);
            }
        }
        lemma_fields(s, scope, m, i + 1, cf, next, all);
    }
}

/// The fields that an object became are decoded to its members.
proof fn lemma_fields_back(
    s: SchemaView,
    scope: usize,
    m: Seq<(Seq<char>, Tree)>,
    i: int,
    cf: ContentFormat,
    d: Seq<DecimalView>,
    all: Seq<(Item, Item)>,
)
    requires
        0 <= i <= m.len(),
        all.len() == m.len(),
        body_settled(s, scope, m, d),
        forall|k: int| 0 <= k < m.len() ==> field_made(s, scope, m[k], cf, #[trigger] all[k]),
    ensures
        fields_decoded(s, scope, Item::Entries(all), i, cf, d, m.subrange(0, i)) == Ok::<
            Seq<(Seq<char>, Tree)>,
            Seq<char>,
        >(m),
    decreases m, 0int, m.len() - i,
{
    if i < m.len() {
        assert(field_made(s, scope, m[i], cf, all[i]));
        let child = child_of(s, scope, m[i].0)->0;
        let sid = s.nodes[child as int].sid->0;
        lemma_distance(sid as int, delta_base(s, scope));
        lemma_child_name(s.nodes, s.nodes[scope as int].children, m[i].0, 0);
        assert(found_by_sid(s, child) && settled(s, child, m[i].1, d));
        law_node_reads_back(s, child, m[i].1, cf, d, all[i].1);
        let before = m.subrange(0, i);
        assert forall|k: int| 0 <= k < before.len() implies (#[trigger] before[k]).0 != m[i].0 by {
            assert(before[k] == m[k]);
        }
        lemma_not_found(before, m[i].0, 0);
        assert(with_member(before, m[i].0, m[i].1) =~= m.subrange(0, i + 1));
        lemma_fields_back(s, scope, m, i + 1, cf, d, all);
    } else {
        assert(m.subrange(0, i) =~= m);
    }
}

/// An object that was encoded as the body of a node is decoded to the same
/// object.
pub proof fn law_body_reads_back(
    s: SchemaView,
    scope: usize,
    m: Seq<(Seq<char>, Tree)>,
    cf: ContentFormat,
    d: Seq<DecimalView>,
    item: Item,
)
    requires
        body_settled(s, scope, m, d),
        body_encoded(s, scope, m, cf, false) == Ok::<Item, Seq<char>>(item),
    ensures
        item is Entries,
        item->Entries_0.len() == m.len(),
        body_decoded(s, scope, item, cf, d) == Ok::<Tree, Seq<char>>(Tree::Object(m)),
    decreases m, 1int, 0int,
{
    let all = item->Entries_0;
    lemma_fields(s, scope, m, 0, cf, Seq::empty(), all);
    lemma_fields_back(s, scope, m, 0, cf, d, all);
    assert(m.subrange(0, 0) =~= Seq::empty());
}

/// The values of a leaf-list are decoded to themselves.
proof fn lemma_leaves_back(
    s: SchemaView,
    node: NodeView,
    a: Seq<Tree>,
    d: Seq<DecimalView>,
    items: Seq<Item>,
    n: int,
)
    requires
        0 <= n <= a.len(),
        leaves_encoded(s, node, a, false, n) == Ok::<Seq<Item>, Seq<char>>(items),
        node.type_id matches Some(t) ==> forall|i: int|
            0 <= i < a.len() ==> value_settled(s, t, #[trigger] a[i], d),
    ensures
        items.len() == n,
        forall|all: Seq<Item>|
            all.len() >= n && all.subrange(0, n) == items ==> #[trigger] leaves_decoded(
                s,
                node,
                all,
                d,
                n,
            ) == Ok::<Seq<Tree>, Seq<char>>(a.subrange(0, n)),
    decreases n,
{
    if n > 0 {
        let before = leaves_encoded(s, node, a, false, n - 1)->Ok_0;
        let item = leaf_encoded(s, node, a[n - 1], false)->Ok_0;
        lemma_leaves_back(s, node, a, d, before, n - 1);
        assert(items == before.push(item));
        assert(value_settled(s, node.type_id->0, a[n - 1], d));
        assert forall|all: Seq<Item>|
            all.len() >= n && all.subrange(0, n) == items implies #[trigger] leaves_decoded(
            s,
            node,
            all,
            d,
            n,
        ) == Ok::<Seq<Tree>, Seq<char>>(a.subrange(0, n)) by {
            assert(all.subrange(0, n - 1) =~= before) by {
                assert forall|k: int| 0 <= k < n - 1 implies all[k] == before[k] by {
                    assert(all.subrange(0, n)[k] == items[k]);
                }
            }
            assert(all[n - 1] == all.subrange(0, n)[n - 1]);
            assert(leaves_decoded(s, node, all, d, n - 1) == Ok::<Seq<Tree>, Seq<char>>(
                a.subrange(0, n - 1),
            ));
            assert(a.subrange(0, n - 1).push(a[n - 1]) =~= a.subrange(0, n));
        }
    } else {
        assert(a.subrange(0, 0) =~= Seq::empty());
    }
}

/// What the `i`-th entry of a list becomes.
pub open spec fn entry_made(s: SchemaView, node: usize, v: Tree, cf: ContentFormat, made: Item) -> bool {
    v is Object && body_encoded(s, node, v->Object_0, cf, false) == Ok::<Item, Seq<char>>(made)
}

/// Each entry of a list becomes one item.
pub(crate) proof fn lemma_entries(
    s: SchemaView,
    node: usize,
    a: Seq<Tree>,
    i: int,
    cf: ContentFormat,
    seen: Seq<Item>,
    all: Seq<Item>,
)
    requires
        0 <= i <= a.len(),
        seen.len() == i,
        entries_encoded(s, node, a, i, cf, false, seen) == Ok::<Seq<Item>, Seq<char>>(all),
        forall|k: int| 0 <= k < i ==> entry_made(s, node, a[k], cf, #[trigger] seen[k]),
    ensures
        all.len() == a.len(),
        forall|k: int| 0 <= k < a.len() ==> entry_made(s, node, a[k], cf, #[trigger] all[k]),
    decreases a.len() - i,
{
    if i < a.len() {
        let item = body_encoded(s, node, a[i]->Object_0, cf, false)->Ok_0;
        let next = seen.push(item);
        assert forall|k: int| 0 <= k < i + 1 implies entry_made(
            s,
            node,
            a[k],
            cf,
            #[trigger] next[k],
        ) by {
            if k < i {
                assert(next[k] == seen[k]);
            }
        }
        lemma_entries(s, node, a, i + 1, cf, next, all);
    }
}

/// The items that a list became are decoded to its entries.
proof fn lemma_entries_back(
    s: SchemaView,
    node: usize,
    a: Seq<Tree>,
    i: int,
    cf: ContentFormat,
    d: Seq<DecimalView>,
    all: Seq<Item>,
)
    requires
        0 <= i <= a.len(),
        all.len() == a.len(),
        forall|k: int|
            0 <= k < a.len() ==> (#[trigger] a[k] matches Tree::Object(m) ==> body_settled(
                s,
                node,
                m,
                d,
            )),
        forall|k: int| 0 <= k < a.len() ==> entry_made(s, node, a[k], cf, #[trigger] all[k]),
    ensures
        entries_decoded(s, node, Item::Array(all), i, cf, d, a.subrange(0, i)) == Ok::<
            Seq<Tree>,
            Seq<char>,
        >(a),
    decreases a, 0int, a.len() - i,
{
    if i < a.len() {
        assert(entry_made(s, node, a[i], cf, all[i]));
        let m = a[i]->Object_0;
        assert(a[i] == Tree::Object(m));
        law_body_reads_back(s, node, m, cf, d, all[i]);
        assert(a.subrange(0, i).push(a[i]) =~= a.subrange(0, i + 1));
        lemma_entries_back(s, node, a, i + 1, cf, d, all);
    } else {
        assert(a.subrange(0, i) =~= a);
    }
}

/// Data that were encoded below a node are decoded to the same data, if they
/// are as decoding gives them.
pub proof fn law_node_reads_back(
    s: SchemaView,
    node: usize,
    v: Tree,
    cf: ContentFormat,
    d: Seq<DecimalView>,
    item: Item,
)
    requires
        settled(s, node, v, d),
        node_encoded(s, node, v, cf, false) == Ok::<Item, Seq<char>>(item),
    ensures
        node_decoded(s, node, item, cf, d) == Ok::<Tree, Seq<char>>(v),
    decreases v, 2int, 0int,
{
    let n = s.nodes[node as int];
    if n.kw == "leaf"@ {
    } else if n.kw == "leaf-list"@ {
        let a = v->Array_0;
        let items = item->Array_0;
        lemma_leaves_back(s, n, a, d, items, a.len() as int);
        assert(items.subrange(0, a.len() as int) =~= items);
        assert(a.subrange(0, a.len() as int) =~= a);
    } else if n.kw == "container"@ || n.kw == "input"@ || n.kw == "output"@ {
        law_body_reads_back(s, node, v->Object_0, cf, d, item);
    } else if n.kw == "list"@ {
        match v {
            Tree::Array(a) => {
                let all = item->Array_0;
                lemma_entries(s, node, a, 0, cf, Seq::empty(), all);
                lemma_entries_back(s, node, a, 0, cf, d, all);
                assert(a.subrange(0, 0) =~= Seq::empty());
            },
            Tree::Object(m) => {
                law_body_reads_back(s, node, m, cf, d, item);
            },
            _ => {},
        }
    } else if n.kw == "rpc"@ || n.kw == "action"@ {
        let m = v->Object_0;
        if m.len() == 1 {
            let side = child_of(s, node, m[0].0)->0;
            let inner = m[0].1->Object_0;
            law_body_reads_back(s, side, inner, cf, d, item);
            let all = item->Entries_0;
            lemma_fields(s, side, inner, 0, cf, Seq::empty(), all);
            assert(field_made(s, side, inner[0], cf, all[0]));
            let first = child_of(s, side, inner[0].0)->0;
            lemma_distance(s.nodes[first as int].sid->0 as int, delta_base(s, side));
            assert(seq![(m[0].0, Tree::Object(inner))] =~= m);
        } else {
            let scope = match child_of(s, node, "input"@) {
                Some(side) => side,
                None => node,
            };
            lemma_fields(s, scope, m, 0, cf, Seq::empty(), item->Entries_0);
            assert(m =~= Seq::empty());
        }
    }
}

/// The encodings of some items, split at one of them.
proof fn lemma_encodings_split(items: Seq<Item>, i: int)
    requires
        0 <= i < items.len(),
    ensures
        encodings(items) == encodings(items.subrange(0, i)) + encoding(items[i]) + encodings(
            items.subrange(i + 1, items.len() as int),
        ),
    decreases items.len(),
{
    let n = items.len() as int;
    let rest = items.subrange(i + 1, n);
    if i == n - 1 {
        assert(encodings(rest) =~= Seq::empty());
        assert(encodings(items) =~= encodings(items.subrange(0, i)) + encoding(items[i])
            + encodings(rest));
    } else {
        let short = items.subrange(0, n - 1);
        lemma_encodings_split(short, i);
        assert(short.subrange(0, i) =~= items.subrange(0, i));
        assert(short.subrange(i + 1, n - 1) =~= rest.subrange(0, rest.len() - 1));
        assert(encodings(items) =~= encodings(items.subrange(0, i)) + encoding(items[i])
            + encodings(rest));
    }
}

/// The items from `pos` on of a sequence of encodings are read one by one.
proof fn lemma_sequence_from(bytes: Seq<u8>, items: Seq<Item>, i: int, pos: int)
    requires
        0 <= i <= items.len(),
        bytes == encodings(items),
        pos == encodings(items.subrange(0, i)).len(),
        forall|k: int| 0 <= k < items.len() ==> encodable(#[trigger] items[k]),
    ensures
        sequence_from(bytes, pos, items.subrange(0, i)) == Ok::<Seq<Item>, Seq<char>>(items),
    decreases items.len() - i,
{
    if i < items.len() {
        lemma_encodings_split(items, i);
        let before = encodings(items.subrange(0, i));
        let after = encodings(items.subrange(i + 1, items.len() as int));
        assert(bytes =~= before + encoding(items[i]) + after);
        law_decode_of_encode(before, items[i], after);
        lemma_item_advances(bytes, pos);
        lemma_encodings_split(items.subrange(0, i + 1), i);
        assert(items.subrange(0, i + 1).subrange(0, i) =~= items.subrange(0, i));
        assert(items.subrange(0, i + 1).subrange(i + 1, i + 1) =~= Seq::empty());
        assert(encodings(Seq::<Item>::empty()) =~= Seq::empty());
        assert(items.subrange(0, i).push(items[i]) =~= items.subrange(0, i + 1));
        lemma_sequence_from(bytes, items, i + 1, pos + encoding(items[i]).len());
    } else {
        assert(items.subrange(0, i) =~= items);
    }
}

/// A sequence of encodings is read as the items that were encoded.
pub proof fn law_sequence_reads_back(items: Seq<Item>)
    requires
        forall|k: int| 0 <= k < items.len() ==> encodable(#[trigger] items[k]),
    ensures
        sequence_in(encodings(items)) == Ok::<Seq<Item>, Seq<char>>(items),
{
    assert(items.subrange(0, 0) =~= Seq::empty());
    assert(encodings(Seq::<Item>::empty()) =~= Seq::empty());
    lemma_sequence_from(encodings(items), items, 0, 0);
}

/// The items of a sequence that was read can be encoded.
proof fn lemma_read_is_encodable(bytes: Seq<u8>, pos: int, seen: Seq<Item>)
    requires
        0 <= pos,
        bytes.len() <= usize::MAX,
        forall|k: int| 0 <= k < seen.len() ==> encodable(#[trigger] seen[k]),
    ensures
        sequence_from(bytes, pos, seen) matches Ok(items) ==> forall|k: int|
            0 <= k < items.len() ==> encodable(#[trigger] items[k]),
    decreases bytes.len() - pos,
{
    if pos < bytes.len() {
        law_decoded_is_encodable(bytes, pos);
        lemma_item_advances(bytes, pos);
        match item_at(bytes, pos) {
            (Ok(v), p) => {
                lemma_read_is_encodable(bytes, p, seen.push(v));
            },
            _ => {},
        }
    }
}

/// Writing a sequence in its normal form keeps its items, so that doing so
/// again changes nothing.
pub proof fn law_normal_form_keeps_items(bytes: Seq<u8>)
    requires
        bytes.len() <= usize::MAX,
    ensures
        sequence_in(bytes) matches Ok(items) ==> sequence_in(encodings(items)) == Ok::<
            Seq<Item>,
            Seq<char>,
        >(items),
{
    lemma_read_is_encodable(bytes, 0, Seq::empty());
    match sequence_in(bytes) {
        Ok(items) => {
            law_sequence_reads_back(items);
        },
        Err(_) => {},
    }
}

/// A whole tree of data that was encoded is decoded to the same tree, if it
/// is as decoding gives it.
pub proof fn law_tree_reads_back(
    s: SchemaView,
    m: Seq<(Seq<char>, Tree)>,
    cf: ContentFormat,
    d: Seq<DecimalView>,
    item: Item,
)
    requires
        body_settled(s, s.root, m, d),
        tree_encoded(s, Tree::Object(m), cf, false) == Ok::<Item, Seq<char>>(item),
        encodable(item),
    ensures
        tree_decoded(s, encoding(item), cf, d) == Ok::<Tree, Seq<char>>(Tree::Object(m)),
{
    law_body_reads_back(s, s.root, m, cf, d, item);
    lemma_encoded_alone(item);
}

/// The encoding of one item is a sequence of this item.
pub(crate) proof fn lemma_encoded_alone(item: Item)
    requires
        encodable(item),
    ensures
        sequence_in(encoding(item)) == Ok::<Seq<Item>, Seq<char>>(seq![item]),
        encoding(item).len() > 0,
{
    law_sequence_reads_back(seq![item]);
    lemma_encodings_split(seq![item], 0);
    assert(seq![item].subrange(0, 0) =~= Seq::empty());
    assert(seq![item].subrange(1, 1) =~= Seq::empty());
    assert(encodings(Seq::<Item>::empty()) =~= Seq::empty());
    assert(encodings(seq![item]) =~= encoding(item));
    law_decode_of_encode(Seq::empty(), item, Seq::empty());
    assert(Seq::<u8>::empty() + encoding(item) + Seq::empty() =~= encoding(item));
    lemma_item_advances(encoding(item), 0);
}

/// Whether an entry of a request is as decoding gives it: its path is the one
/// that the encoded path is decoded to, and its value is settled.
pub open spec fn entry_settled(s: SchemaView, v: Tree, d: Seq<DecimalView>) -> bool {
    match v {
        Tree::Object(m) => m.len() == 1 ==> path_settled(s, m[0].0, d) && (path_encoded(
            s,
            m[0].0,
        ) matches Ok((node, _)) ==> m[0].1 is Null || (settled(s, node, m[0].1, d)
            && !encodes_null(s, node, m[0].1))),
        Tree::Text(path) => path_settled(s, path, d),
        _ => true,
    }
}

/// Whether a path is the one that its own encoding is decoded to.
pub open spec fn path_settled(s: SchemaView, path: Seq<char>, d: Seq<DecimalView>) -> bool {
    path_encoded(s, path) matches Ok((node, iid)) ==> path_decoded(s, iid, d) == Ok::<
        (usize, Seq<char>),
        Seq<char>,
    >((node, path))
}

/// Whether a value that is not null is encoded as null: that of an empty leaf.
pub open spec fn encodes_null(s: SchemaView, node: usize, v: Tree) -> bool {
    let n = s.nodes[node as int];
    n.kw == "leaf"@ && n.type_id is Some && value_encoded(s, n.type_id->0, v, false) == Ok::<
        Item,
        Seq<char>,
    >(Item::Null)
}

/// An encoded path is a number or a list.
pub(crate) proof fn lemma_walk_shape(
    s: SchemaView,
    path: Seq<char>,
    parts: Seq<Seq<char>>,
    i: int,
    cur: usize,
    sid: int,
    seen: Seq<Item>,
)
    ensures
        path_walked(s, path, parts, i, cur, sid, seen) matches Ok((_, item)) ==> !(item is Entries),
    decreases parts.len() - i,
{
    if 0 <= i < parts.len() {
        let name = segment_name(parts[i]);
        match selectors_from(parts[i], index_from(parts[i], '[', 0)) {
            Err(_) => {},
            Ok(keys) => match child_of(s, cur, name) {
                None => {},
                Some(child) => match s.nodes[child as int].sid {
                    None => {},
                    Some(n) => match segment_encoded(s, path, name, child, keys) {
                        Err(_) => {},
                        Ok(more) => {
                            lemma_walk_shape(s, path, parts, i + 1, child, n as int, seen + more);
                        },
                    },
                },
            },
        }
    }
}

/// An entry of a request is decoded to itself.
proof fn lemma_entry_back(
    s: SchemaView,
    v: Tree,
    cf: ContentFormat,
    d: Seq<DecimalView>,
    item: Item,
)
    requires
        entry_settled(s, v, d),
        entry_encoded(s, v, cf, false) == Ok::<Item, Seq<char>>(item),
    ensures
        entry_decoded(s, item, cf, d) == Ok::<Tree, Seq<char>>(v),
{
    match v {
        Tree::Object(m) => {
            let (node, iid) = path_encoded(s, m[0].0)->Ok_0;
            let (key, value) = item->Entries_0[0];
            if !(m[0].1 is Null) {
                law_node_reads_back(s, node, m[0].1, cf, d, value);
                assert(!(value is Null));
            }
            assert(seq![(m[0].0, m[0].1)] =~= m);
        },
        Tree::Text(path) => {
            lemma_walk_shape(s, path, path_parts(path), 0, s.root, 0, Seq::empty());
        },
        _ => {},
    }
}

/// The items that the first `n` entries of a request become.
pub open spec fn entry_items_made(s: SchemaView, a: Seq<Tree>, cf: ContentFormat, n: int) -> Seq<
    Item,
> {
    Seq::new(n as nat, |i: int| entry_encoded(s, a[i], cf, false)->Ok_0)
}

/// The bytes of a request are the encodings of its entries.
pub(crate) proof fn lemma_entries_are_encodings(s: SchemaView, a: Seq<Tree>, cf: ContentFormat, n: int)
    requires
        0 <= n <= a.len(),
        entries_bytes(s, a, cf, false, n) is Ok,
    ensures
        entries_bytes(s, a, cf, false, n)->Ok_0 == encodings(entry_items_made(s, a, cf, n)),
        forall|i: int| 0 <= i < n ==> entry_encoded(s, #[trigger] a[i], cf, false) is Ok,
    decreases n,
{
    let items = entry_items_made(s, a, cf, n);
    if n > 0 {
        lemma_entries_are_encodings(s, a, cf, n - 1);
        assert(items.subrange(0, n - 1) =~= entry_items_made(s, a, cf, n - 1));
    } else {
        assert(encodings(items) =~= Seq::empty());
    }
}

/// The entries of a request are decoded to themselves.
proof fn lemma_trees_back(
    s: SchemaView,
    a: Seq<Tree>,
    cf: ContentFormat,
    d: Seq<DecimalView>,
    items: Seq<Item>,
    n: int,
)
    requires
        0 <= n <= a.len(),
        items == entry_items_made(s, a, cf, a.len() as int),
        forall|i: int| 0 <= i < a.len() ==> entry_settled(s, #[trigger] a[i], d),
        forall|i: int| 0 <= i < a.len() ==> entry_encoded(s, #[trigger] a[i], cf, false) is Ok,
    ensures
        entries_trees(s, items, cf, d, n) == Ok::<Seq<Tree>, Seq<char>>(a.subrange(0, n)),
    decreases n,
{
    if n > 0 {
        lemma_trees_back(s, a, cf, d, items, n - 1);
        lemma_entry_back(s, a[n - 1], cf, d, items[n - 1]);
        assert(a.subrange(0, n - 1).push(a[n - 1]) =~= a.subrange(0, n));
    } else {
        assert(a.subrange(0, 0) =~= Seq::empty());
    }
}

/// The entries of a request that were encoded are decoded to the same
/// entries, if they are as decoding gives them.
pub proof fn law_entries_read_back(
    s: SchemaView,
    a: Seq<Tree>,
    cf: ContentFormat,
    d: Seq<DecimalView>,
    bytes: Seq<u8>,
)
    requires
        forall|i: int| 0 <= i < a.len() ==> entry_settled(s, #[trigger] a[i], d),
        entries_bytes(s, a, cf, false, a.len() as int) == Ok::<Seq<u8>, Seq<char>>(bytes),
        forall|i: int|
            0 <= i < a.len() ==> encodable(entry_encoded(s, #[trigger] a[i], cf, false)->Ok_0),
    ensures
        sequence_decoded(s, bytes, cf, d) == Ok::<Seq<Tree>, Seq<char>>(a),
{
    let n = a.len() as int;
    let items = entry_items_made(s, a, cf, n);
    lemma_entries_are_encodings(s, a, cf, n);
    assert forall|k: int| 0 <= k < items.len() implies encodable(#[trigger] items[k]) by {
        assert(entry_settled(s, a[k], d));
    }
    law_sequence_reads_back(items);
    lemma_trees_back(s, a, cf, d, items, n);
    assert(a.subrange(0, n) =~= a);
}

/// The fields that an object has without passing over errors are those that
/// it has with it.
proof fn lemma_fields_leniently(
    s: SchemaView,
    scope: usize,
    m: Seq<(Seq<char>, Tree)>,
    i: int,
    cf: ContentFormat,
    seen: Seq<(Item, Item)>,
)
    requires
        0 <= i,
    ensures
        fields_encoded(s, scope, m, i, cf, false, seen) is Ok ==> fields_encoded(
            s,
            scope,
            m,
            i,
            cf,
            true,
            seen,
        ) == fields_encoded(s, scope, m, i, cf, false, seen),
    decreases m, 0int, m.len() - i,
{
    if i < m.len() {
        match child_of(s, scope, m[i].0) {
            None => {},
            Some(child) => match s.nodes[child as int].sid {
                None => {},
                Some(sid) => {
                    law_passing_over_keeps_what_is_valid(s, child, m[i].1, cf);
                    match node_encoded(s, child, m[i].1, cf, false) {
                        Err(_) => {},
                        Ok(item) => {
                            lemma_fields_leniently(
                                s,
                                scope,
                                m,
                                i + 1,
                                cf,
                                seen.push(
                                    (
                                        Item::Integer(signed_low(sid - delta_base(s, scope))),
                                        item,
                                    ),
                                ),
                            );
                        },
                    }
                },
            },
        }
    }
}

/// A body that is valid is encoded as it is, whether or not errors are passed
/// over.
pub(crate) proof fn lemma_body_leniently(
    s: SchemaView,
    scope: usize,
    m: Seq<(Seq<char>, Tree)>,
    cf: ContentFormat,
)
    ensures
        body_encoded(s, scope, m, cf, false) is Ok ==> body_encoded(s, scope, m, cf, true)
            == body_encoded(s, scope, m, cf, false),
    decreases m, 1int, 0int,
{
    lemma_fields_leniently(s, scope, m, 0, cf, Seq::empty());
}

/// The entries of a list that is valid are encoded as they are.
pub(crate) proof fn lemma_entries_leniently(
    s: SchemaView,
    node: usize,
    a: Seq<Tree>,
    i: int,
    cf: ContentFormat,
    seen: Seq<Item>,
)
    requires
        0 <= i,
    ensures
        entries_encoded(s, node, a, i, cf, false, seen) is Ok ==> entries_encoded(
            s,
            node,
            a,
            i,
            cf,
            true,
            seen,
        ) == entries_encoded(s, node, a, i, cf, false, seen),
    decreases a, 0int, a.len() - i,
{
    if i < a.len() {
        match a[i] {
            Tree::Object(m) => {
                lemma_body_leniently(s, node, m, cf);
                match body_encoded(s, node, m, cf, false) {
                    Err(_) => {},
                    Ok(item) => {
                        lemma_entries_leniently(s, node, a, i + 1, cf, seen.push(item));
                    },
                }
            },
            _ => {},
        }
    }
}

/// The values of a leaf-list that is valid are encoded as they are.
proof fn lemma_leaves_leniently(s: SchemaView, node: NodeView, a: Seq<Tree>, n: int)
    ensures
        leaves_encoded(s, node, a, false, n) is Ok ==> leaves_encoded(s, node, a, true, n)
            == leaves_encoded(s, node, a, false, n),
    decreases n,
{
    if n > 0 {
        lemma_leaves_leniently(s, node, a, n - 1);
    }
}

/// Passing over errors changes nothing where there are none: data that are
/// encoded without it are encoded in the same way with it.
pub proof fn law_passing_over_keeps_what_is_valid(
    s: SchemaView,
    node: usize,
    v: Tree,
    cf: ContentFormat,
)
    ensures
        node_encoded(s, node, v, cf, false) is Ok ==> node_encoded(s, node, v, cf, true)
            == node_encoded(s, node, v, cf, false),
    decreases v, 2int, 0int,
{
    let n = s.nodes[node as int];
    match v {
        Tree::Object(m) => {
            lemma_body_leniently(s, node, m, cf);
            if n.kw == "rpc"@ || n.kw == "action"@ {
                if m.len() == 1 && (m[0].0 == "input"@ || m[0].0 == "output"@) {
                    match (child_of(s, node, m[0].0), m[0].1) {
                        (Some(side), Tree::Object(inner)) => {
                            lemma_body_leniently(s, side, inner, cf);
                        },
                        _ => {},
                    }
                } else {
                    match child_of(s, node, "input"@) {
                        Some(side) => {
                            lemma_body_leniently(s, side, m, cf);
                        },
                        None => {},
                    }
                }
            }
        },
        Tree::Array(a) => {
            lemma_leaves_leniently(s, n, a, a.len() as int);
            lemma_entries_leniently(s, node, a, 0, cf, Seq::empty());
        },
        _ => {},
    }
}

/// A whole tree that is valid is encoded in the same way if errors are passed
/// over; and then some item comes out of any tree.
pub proof fn law_passing_over_keeps_valid_trees(s: SchemaView, v: Tree, cf: ContentFormat)
    ensures
        tree_encoded(s, v, cf, false) is Ok ==> tree_encoded(s, v, cf, true) == tree_encoded(
            s,
            v,
            cf,
            false,
        ),
        tree_encoded(s, v, cf, true) is Ok,
{
    match v {
        Tree::Object(m) => {
            lemma_body_leniently(s, s.root, m, cf);
        },
        _ => {},
    }
}

/// Whether a field must be there: a mandatory one, or a key of a list. What is
/// no configuration is never needed to change a device.
pub open spec fn is_needed(s: SchemaView, scope: usize, k: int, cf: ContentFormat) -> bool {
    let n = s.nodes[scope as int];
    let c = s.nodes[n.children[k] as int];
    &&& c.mandatory || find_text(n.keys, local_of(c.name), 0) is Some
    &&& c.config || !(cf == ContentFormat::Ipatch || cf == ContentFormat::Put)
}

/// No field is missing exactly if all fields that are needed are there.
pub proof fn law_missing_fields(
    s: SchemaView,
    scope: usize,
    m: Seq<(Seq<char>, Tree)>,
    cf: ContentFormat,
    j: int,
)
    requires
        0 <= j,
    ensures
        missing_field(s, scope, m, cf, j) is None <==> forall|k: int|
            j <= k < s.nodes[scope as int].children.len() && #[trigger] is_needed(s, scope, k, cf)
                ==> find_key(m, s.nodes[s.nodes[scope as int].children[k] as int].name, 0) is Some,
    decreases s.nodes[scope as int].children.len() - j,
{
    let n = s.nodes[scope as int];
    if j < n.children.len() {
        law_missing_fields(s, scope, m, cf, j + 1);
        let c = s.nodes[n.children[j] as int];
        if is_needed(s, scope, j, cf) && find_key(m, c.name, 0) is None {
            assert(missing_field(s, scope, m, cf, j) is Some);
        }
    }
}

/// What a value of a type is decoded to is plain.
proof fn lemma_value_is_plain(
    s: SchemaView,
    id: usize,
    v: Item,
    in_union: bool,
    d: Seq<DecimalView>,
)
    ensures
        value_decoded(s, id, v, in_union, d) matches Ok(t) ==> is_plain(t),
{
    lemma_plain_is_plain(s, governing(s, id), v, in_union, d);
    let ty = s.types[governing(s, id) as int];
    if ty.builtin == Builtin::Union {
        match member_for_cbor(s, ty.union_members, v) {
            Some(m) => {
                lemma_plain_is_plain(s, governing(s, m), v, true, d);
            },
            None => {},
        }
    }
}

/// What a value of a type that is no union is decoded to is plain.
proof fn lemma_plain_is_plain(
    s: SchemaView,
    id: usize,
    v: Item,
    in_union: bool,
    d: Seq<DecimalView>,
)
    ensures
        plain_decoded(s, id, v, in_union, d) matches Ok(t) ==> is_plain(t),
{
    let ty = s.types[id as int];
    match ty.builtin {
        Builtin::Empty => {
            assert(is_plain(Tree::Null));
            assert(seq![Tree::Null][0] == Tree::Null);
        },
        _ => {},
    }
}

/// One more member keeps names distinct.
proof fn lemma_member_keeps(m: Seq<(Seq<char>, Tree)>, key: Seq<char>, v: Tree)
    requires
        is_plain(Tree::Object(m)),
        is_plain(v),
    ensures
        is_plain(Tree::Object(with_member(m, key, v))),
{
    lemma_key_place(m, key, 0);
    let r = with_member(m, key, v);
    assert forall|i: int, j: int| 0 <= i < j < r.len() implies (#[trigger] r[i]).0 != (
    #[trigger] r[j]).0 by {
        if j < m.len() {
            assert(m[i].0 != m[j].0);
            assert(r[i].0 == m[i].0 && r[j].0 == m[j].0);
        } else {
            assert(r[i] == m[i]);
        }
    }
    assert forall|i: int| 0 <= i < r.len() implies is_plain((#[trigger] r[i]).1) by {
        if i < m.len() {
            assert(is_plain(m[i].1));
        }
    }
}

/// A name is found where it is.
proof fn lemma_key_place(m: Seq<(Seq<char>, Tree)>, key: Seq<char>, from: int)
    requires
        0 <= from,
    ensures
        find_key(m, key, from) matches Some(i) ==> from <= i < m.len() && m[i].0 == key,
        find_key(m, key, from) is None ==> forall|i: int|
            from <= i < m.len() ==> (#[trigger] m[i]).0 != key,
    decreases m.len() - from,
{
    if from < m.len() {
        lemma_key_place(m, key, from + 1);
    }
}

/// One more value keeps a list plain.
proof fn lemma_push_is_plain(a: Seq<Tree>, v: Tree)
    requires
        is_plain(Tree::Array(a)),
        is_plain(v),
    ensures
        is_plain(Tree::Array(a.push(v))),
{
    let r = a.push(v);
    assert forall|i: int| 0 <= i < r.len() implies is_plain(#[trigger] r[i]) by {
        if i < a.len() {
            assert(is_plain(a[i]));
        }
    }
}

/// An object with one plain member is plain.
proof fn lemma_one_is_plain(key: Seq<char>, v: Tree)
    requires
        is_plain(v),
    ensures
        is_plain(Tree::Object(seq![(key, v)])),
{
    let m = seq![(key, v)];
    assert forall|i: int| 0 <= i < m.len() implies is_plain((#[trigger] m[i]).1) by {}
}

proof fn lemma_fields_are_plain(
    s: SchemaView,
    scope: usize,
    v: Item,
    i: int,
    cf: ContentFormat,
    d: Seq<DecimalView>,
    seen: Seq<(Seq<char>, Tree)>,
)
    requires
        is_plain(Tree::Object(seen)),
    ensures
        fields_decoded(s, scope, v, i, cf, d, seen) matches Ok(m) ==> is_plain(Tree::Object(m)),
    decreases v, 0int, v->Entries_0.len() - i,
{
    match v {
        Item::Entries(e) => {
            if 0 <= i < e.len() {
                match item_number(e[i].0) {
                    None => {},
                    Some(k) => {
                        let sid = signed_low(signed_low(k) + delta_base(s, scope));
                        if s.sid_index.contains_key(sid as i64) {
                            let child = s.sid_index[sid as i64];
                            law_decoded_is_plain(s, child, e[i].1, cf, d);
                            match node_decoded(s, child, e[i].1, cf, d) {
                                Err(_) => {},
                                Ok(tree) => {
                                    let name = s.nodes[child as int].name;
                                    lemma_member_keeps(seen, name, tree);
                                    lemma_fields_are_plain(
                                        s,
                                        scope,
                                        v,
                                        i + 1,
                                        cf,
                                        d,
                                        with_member(seen, name, tree),
                                    );
                                },
                            }
                        }
                    },
                }
            }
        },
        _ => {},
    }
}

proof fn lemma_body_is_plain(
    s: SchemaView,
    scope: usize,
    v: Item,
    cf: ContentFormat,
    d: Seq<DecimalView>,
)
    ensures
        body_decoded(s, scope, v, cf, d) matches Ok(t) ==> is_plain(t),
    decreases v, 1int, 0int,
{
    lemma_fields_are_plain(s, scope, v, 0, cf, d, Seq::empty());
}

proof fn lemma_list_is_plain(
    s: SchemaView,
    node: usize,
    v: Item,
    i: int,
    cf: ContentFormat,
    d: Seq<DecimalView>,
    seen: Seq<Tree>,
)
    requires
        is_plain(Tree::Array(seen)),
    ensures
        entries_decoded(s, node, v, i, cf, d, seen) matches Ok(a) ==> is_plain(Tree::Array(a)),
    decreases v, 0int, v->Array_0.len() - i,
{
    match v {
        Item::Array(a) => {
            if 0 <= i < a.len() {
                lemma_body_is_plain(s, node, a[i], cf, d);
                match body_decoded(s, node, a[i], cf, d) {
                    Err(_) => {},
                    Ok(tree) => {
                        lemma_push_is_plain(seen, tree);
                        lemma_list_is_plain(s, node, v, i + 1, cf, d, seen.push(tree));
                    },
                }
            }
        },
        _ => {},
    }
}

proof fn lemma_leaves_are_plain(
    s: SchemaView,
    node: NodeView,
    a: Seq<Item>,
    d: Seq<DecimalView>,
    n: int,
)
    ensures
        leaves_decoded(s, node, a, d, n) matches Ok(t) ==> is_plain(Tree::Array(t)),
    decreases n,
{
    if n > 0 {
        lemma_leaves_are_plain(s, node, a, d, n - 1);
        match node.type_id {
            Some(t) => {
                lemma_value_is_plain(s, t, a[n - 1], false, d);
                match (leaves_decoded(s, node, a, d, n - 1), value_decoded(s, t, a[n - 1], false, d)) {
                    (Ok(before), Ok(v)) => {
                        lemma_push_is_plain(before, v);
                    },
                    _ => {},
                }
            },
            None => {},
        }
    }
}

/// One side of an operation is plain.
proof fn lemma_side_is_plain(
    s: SchemaView,
    side: usize,
    v: Item,
    cf: ContentFormat,
    d: Seq<DecimalView>,
    name: Seq<char>,
)
    ensures
        body_decoded(s, side, v, cf, d) matches Ok(t) ==> is_plain(Tree::Object(seq![(name, t)])),
    decreases v, 1int, 1int,
{
    lemma_body_is_plain(s, side, v, cf, d);
    match body_decoded(s, side, v, cf, d) {
        Ok(t) => {
            lemma_one_is_plain(name, t);
        },
        Err(_) => {},
    }
}

/// Whatever is decoded is plain: it holds no fractions, only whole numbers
/// within 64 bits, and no object with a name twice.
pub proof fn law_decoded_is_plain(
    s: SchemaView,
    node: usize,
    v: Item,
    cf: ContentFormat,
    d: Seq<DecimalView>,
)
    ensures
        node_decoded(s, node, v, cf, d) matches Ok(t) ==> is_plain(t),
    decreases v, 2int, 0int,
{
    let n = s.nodes[node as int];
    lemma_body_is_plain(s, node, v, cf, d);
    if n.kw == "leaf"@ {
        match n.type_id {
            Some(t) => {
                lemma_value_is_plain(s, t, v, false, d);
            },
            None => {},
        }
    } else if n.kw == "leaf-list"@ {
        match v {
            Item::Array(a) => {
                lemma_leaves_are_plain(s, n, a, d, a.len() as int);
            },
            _ => {},
        }
    } else if n.kw == "list"@ {
        lemma_list_is_plain(s, node, v, 0, cf, d, Seq::empty());
    } else if n.kw == "rpc"@ || n.kw == "action"@ {
        match (child_of(s, node, "input"@), child_of(s, node, "output"@)) {
            (a, b) => {
                if a is Some {
                    lemma_side_is_plain(s, a->0, v, cf, d, "input"@);
                }
                if b is Some {
                    lemma_side_is_plain(s, b->0, v, cf, d, "output"@);
                }
            },
        }
    }
}

/// A whole tree that is decoded is plain.
pub proof fn law_decoded_tree_is_plain(
    s: SchemaView,
    bytes: Seq<u8>,
    cf: ContentFormat,
    d: Seq<DecimalView>,
)
    ensures
        tree_decoded(s, bytes, cf, d) matches Ok(t) ==> is_plain(t),
{
    match sequence_in(bytes) {
        Ok(items) => {
            if items.len() > 0 {
                lemma_body_is_plain(s, s.root, items[0], cf, d);
            }
        },
        Err(_) => {},
    }
}

/// The first entries of a response are plain.
proof fn lemma_trees_are_plain(
    s: SchemaView,
    items: Seq<Item>,
    cf: ContentFormat,
    d: Seq<DecimalView>,
    n: int,
)
    ensures
        entries_trees(s, items, cf, d, n) matches Ok(a) ==> is_plain(Tree::Array(a)),
    decreases n,
{
    if n > 0 {
        lemma_trees_are_plain(s, items, cf, d, n - 1);
        lemma_entry_is_plain(s, items[n - 1], cf, d);
        match (entries_trees(s, items, cf, d, n - 1), entry_decoded(s, items[n - 1], cf, d)) {
            (Ok(before), Ok(v)) => {
                lemma_push_is_plain(before, v);
            },
            _ => {},
        }
    }
}

/// One entry of a response is plain.
proof fn lemma_entry_is_plain(s: SchemaView, v: Item, cf: ContentFormat, d: Seq<DecimalView>)
    ensures
        entry_decoded(s, v, cf, d) matches Ok(t) ==> is_plain(t),
{
    if v is Entries && v->Entries_0.len() == 1 {
        let (iid, value) = v->Entries_0[0];
        match path_decoded(s, iid, d) {
            Ok((node, path)) => {
                lemma_one_is_plain(path, Tree::Null);
                law_decoded_is_plain(s, node, value, cf, d);
                match node_decoded(s, node, value, cf, d) {
                    Ok(t) => {
                        lemma_one_is_plain(path, t);
                    },
                    Err(_) => {},
                }
            },
            Err(_) => {},
        }
    }
}

/// The entries of a response are plain.
pub proof fn law_decoded_entries_are_plain(
    s: SchemaView,
    bytes: Seq<u8>,
    cf: ContentFormat,
    d: Seq<DecimalView>,
)
    ensures
        sequence_decoded(s, bytes, cf, d) matches Ok(a) ==> is_plain(Tree::Array(a)),
{
    match sequence_in(bytes) {
        Ok(items) => {
            lemma_trees_are_plain(s, items, cf, d, items.len() as int);
        },
        Err(_) => {},
    }
}

} // verus!
