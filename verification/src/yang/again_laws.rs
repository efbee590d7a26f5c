//! What was encoded and decoded is encoded as before, however it was written
//! at first.
use vstd::prelude::*;

use crate::cbor::encode::{encoding, encodings};
use crate::cbor::laws::encodable;
use crate::cbor::value::Item;
use crate::json::{distinct_names, find_key, with_member, Tree};
use crate::yang::bodies::{
    body_decoded, body_encoded, delta_base, entries_decoded, entries_encoded, fields_decoded,
    fields_encoded, leaf_decoded, leaf_encoded, leaves_decoded, leaves_encoded, missing_field,
    node_decoded, node_encoded, ContentFormat,
};
use crate::yang::choices::{governing, governing_builtin, member_for_cbor, member_for_json};
use crate::yang::codec::{
    entries_bytes, entries_trees, entry_decoded, entry_encoded, sequence_decoded, tree_decoded,
    tree_encoded,
};
use crate::yang::readings::{path_decoded, plain_decoded, value_decoded};
use crate::yang::scalars::{signed_low, DecimalView};
use crate::yang::schema::{child_of, Builtin, NodeView, SchemaView};
use crate::yang::tree_laws::{
    encodes_null, entry_items_made, entry_made, field_made, found_by_sid, law_sequence_reads_back,
    lemma_child_name, lemma_distance, lemma_encoded_alone, lemma_entries,
    lemma_entries_are_encodings, lemma_fields, lemma_not_found, lemma_walk_shape, side_told,
};
use crate::yang::value_laws::{law_union_member_is_found, means_the_same, stands_out};
use crate::yang::values::{path_encoded, path_parts, plain_encoded, value_encoded};

verus! {

/// Whether the encoding of a value of a type, if it has one, is decoded to a
/// value with the same encoding.
pub open spec fn value_sound(s: SchemaView, id: usize, v: Tree, d: Seq<DecimalView>) -> bool {
    value_encoded(s, id, v, false) matches Ok(item) ==> value_decoded(
        s,
        id,
        item,
        false,
        d,
    ) matches Ok(w) && value_encoded(s, id, w, false) == Ok::<Item, Seq<char>>(item)
}

/// Whether data below a node keep their meaning: no name occurs twice in an
/// object, every leaf keeps its meaning, the fields can be found by their
/// SIDs, and the first field of an operation says which side is meant.
pub open spec fn sound(s: SchemaView, node: usize, v: Tree, d: Seq<DecimalView>) -> bool
    decreases v, 2int,
{
    let n = s.nodes[node as int];
    if n.kw == "leaf"@ {
        n.type_id matches Some(t) ==> value_sound(s, t, v, d)
    } else if n.kw == "leaf-list"@ {
        v matches Tree::Array(a) ==> n.type_id matches Some(t) ==> forall|i: int|
            0 <= i < a.len() ==> value_sound(s, t, #[trigger] a[i], d)
    } else if n.kw == "container"@ || n.kw == "input"@ || n.kw == "output"@ {
        v matches Tree::Object(m) ==> body_sound(s, node, m, d)
    } else if n.kw == "list"@ {
        match v {
            Tree::Object(m) => body_sound(s, node, m, d),
            Tree::Array(a) => forall|i: int|
                0 <= i < a.len() ==> (#[trigger] a[i] matches Tree::Object(m) ==> body_sound(
                    s,
                    node,
                    m,
                    d,
                )),
            _ => true,
        }
    } else if n.kw == "rpc"@ || n.kw == "action"@ {
        match v {
            Tree::Object(m) => if m.len() == 1 && (m[0].0 == "input"@ || m[0].0 == "output"@) {
                m[0].1 matches Tree::Object(inner) ==> side_told(s, node, m[0].0, inner) && (
                child_of(s, node, m[0].0) matches Some(side) ==> body_sound(s, side, inner, d))
            } else {
                m.len() == 0 || (child_of(s, node, "input"@) is Some && side_told(
                    s,
                    node,
                    "input"@,
                    m,
                ) && body_sound(s, child_of(s, node, "input"@)->0, m, d))
            },
            _ => true,
        }
    } else {
        true
    }
}

/// Whether the fields below a node keep their meaning.
pub open spec fn body_sound(
    s: SchemaView,
    scope: usize,
    m: Seq<(Seq<char>, Tree)>,
    d: Seq<DecimalView>,
) -> bool
    decreases m, 1int,
{
    &&& distinct_names(m)
    &&& forall|i: int|
        0 <= i < m.len() ==> (child_of(s, scope, (#[trigger] m[i]).0) matches Some(c)
            ==> found_by_sid(s, c) && sound(s, c, m[i].1, d))
}

/// What fields are decoded to, one by one.
spec fn members_again(
    s: SchemaView,
    scope: usize,
    m: Seq<(Seq<char>, Tree)>,
    all: Seq<(Item, Item)>,
    cf: ContentFormat,
    d: Seq<DecimalView>,
) -> Seq<(Seq<char>, Tree)> {
    Seq::new(
        m.len(),
        |k: int| (m[k].0, node_decoded(s, child_of(s, scope, m[k].0)->0, all[k].1, cf, d)->Ok_0),
    )
}

/// Whether a field is decoded to a value with the same encoding.
spec fn field_again(
    s: SchemaView,
    scope: usize,
    name: Seq<char>,
    made: Item,
    cf: ContentFormat,
    d: Seq<DecimalView>,
) -> bool {
    node_decoded(s, child_of(s, scope, name)->0, made, cf, d) matches Ok(w) && node_encoded(
        s,
        child_of(s, scope, name)->0,
        w,
        cf,
        false,
    ) == Ok::<Item, Seq<char>>(made)
}

/// One field is decoded, then the others.
proof fn lemma_one_field(
    s: SchemaView,
    scope: usize,
    all: Seq<(Item, Item)>,
    i: int,
    cf: ContentFormat,
    d: Seq<DecimalView>,
    seen: Seq<(Seq<char>, Tree)>,
    child: usize,
    tree: Tree,
)
    requires
        0 <= i < all.len(),
        found_by_sid(s, child),
        s.nodes[child as int].sid is Some,
        all[i].0 == Item::Integer(
            signed_low(s.nodes[child as int].sid->0 as int - delta_base(s, scope)),
        ),
        node_decoded(s, child, all[i].1, cf, d) == Ok::<Tree, Seq<char>>(tree),
    ensures
        fields_decoded(s, scope, Item::Entries(all), i, cf, d, seen) == fields_decoded(
            s,
            scope,
            Item::Entries(all),
            i + 1,
            cf,
            d,
            with_member(seen, s.nodes[child as int].name, tree),
        ),
{
    lemma_distance(s.nodes[child as int].sid->0 as int, delta_base(s, scope));
}

/// Fields are decoded to members with the same names.
proof fn lemma_fields_decoded(
    s: SchemaView,
    scope: usize,
    m: Seq<(Seq<char>, Tree)>,
    all: Seq<(Item, Item)>,
    i: int,
    cf: ContentFormat,
    d: Seq<DecimalView>,
)
    requires
        0 <= i <= m.len(),
        all.len() == m.len(),
        distinct_names(m),
        forall|k: int| 0 <= k < m.len() ==> field_made(s, scope, m[k], cf, #[trigger] all[k]),
        forall|k: int|
            0 <= k < m.len() ==> field_again(s, scope, (#[trigger] m[k]).0, all[k].1, cf, d),
        forall|k: int|
            0 <= k < m.len() ==> found_by_sid(s, child_of(s, scope, (#[trigger] m[k]).0)->0),
    ensures
        fields_decoded(
            s,
            scope,
            Item::Entries(all),
            i,
            cf,
            d,
            members_again(s, scope, m, all, cf, d).subrange(0, i),
        ) == Ok::<Seq<(Seq<char>, Tree)>, Seq<char>>(members_again(s, scope, m, all, cf, d)),
    decreases m.len() - i,
{
    let w = members_again(s, scope, m, all, cf, d);
    if i < m.len() {
        assert(field_made(s, scope, m[i], cf, all[i]));
        assert(field_again(s, scope, m[i].0, all[i].1, cf, d));
        assert(found_by_sid(s, child_of(s, scope, m[i].0)->0));
        let child = child_of(s, scope, m[i].0)->0;
        lemma_child_name(s.nodes, s.nodes[scope as int].children, m[i].0, 0);
        let before = w.subrange(0, i);
        lemma_one_field(s, scope, all, i, cf, d, before, child, w[i].1);
        assert forall|k: int| 0 <= k < before.len() implies (#[trigger] before[k]).0 != m[i].0 by {
            assert(before[k].0 == m[k].0);
            assert(m[k].0 != m[i].0);
        }
        lemma_not_found(before, m[i].0, 0);
        assert(with_member(before, m[i].0, w[i].1) =~= w.subrange(0, i + 1));
        lemma_fields_decoded(s, scope, m, all, i + 1, cf, d);
    } else {
        assert(w.subrange(0, i) =~= w);
    }
}

/// Members with the same names and the same encodings are encoded to the same
/// fields.
proof fn lemma_fields_encoded(
    s: SchemaView,
    scope: usize,
    m: Seq<(Seq<char>, Tree)>,
    all: Seq<(Item, Item)>,
    i: int,
    cf: ContentFormat,
    d: Seq<DecimalView>,
)
    requires
        0 <= i <= m.len(),
        all.len() == m.len(),
        forall|k: int| 0 <= k < m.len() ==> field_made(s, scope, m[k], cf, #[trigger] all[k]),
        forall|k: int|
            0 <= k < m.len() ==> field_again(s, scope, (#[trigger] m[k]).0, all[k].1, cf, d),
    ensures
        fields_encoded(
            s,
            scope,
            members_again(s, scope, m, all, cf, d),
            i,
            cf,
            false,
            all.subrange(0, i),
        ) == Ok::<Seq<(Item, Item)>, Seq<char>>(all),
    decreases m.len() - i,
{
    let w = members_again(s, scope, m, all, cf, d);
    if i < m.len() {
        assert(field_made(s, scope, m[i], cf, all[i]));
        assert(field_again(s, scope, m[i].0, all[i].1, cf, d));
        assert(w[i].0 == m[i].0);
        let child = child_of(s, scope, m[i].0)->0;
        let sid = s.nodes[child as int].sid->0;
        let one = (Item::Integer(signed_low(sid - delta_base(s, scope))), all[i].1);
        assert(one == all[i]);
        assert(all.subrange(0, i).push(one) =~= all.subrange(0, i + 1));
        lemma_fields_encoded(s, scope, m, all, i + 1, cf, d);
    } else {
        assert(all.subrange(0, i) =~= all);
    }
}

/// Whether a name is found depends on the names alone.
proof fn lemma_same_names(
    m: Seq<(Seq<char>, Tree)>,
    w: Seq<(Seq<char>, Tree)>,
    key: Seq<char>,
    from: int,
)
    requires
        0 <= from,
        m.len() == w.len(),
        forall|k: int| 0 <= k < m.len() ==> (#[trigger] m[k]).0 == w[k].0,
    ensures
        find_key(m, key, from) == find_key(w, key, from),
    decreases m.len() - from,
{
    if from < m.len() {
        assert(m[from].0 == w[from].0);
        lemma_same_names(m, w, key, from + 1);
    }
}

/// Whether a field is missing depends on the names alone.
proof fn lemma_same_missing(
    s: SchemaView,
    scope: usize,
    m: Seq<(Seq<char>, Tree)>,
    w: Seq<(Seq<char>, Tree)>,
    cf: ContentFormat,
    j: int,
)
    requires
        0 <= j,
        m.len() == w.len(),
        forall|k: int| 0 <= k < m.len() ==> (#[trigger] m[k]).0 == w[k].0,
    ensures
        missing_field(s, scope, m, cf, j) == missing_field(s, scope, w, cf, j),
    decreases s.nodes[scope as int].children.len() - j,
{
    let n = s.nodes[scope as int];
    if j < n.children.len() {
        lemma_same_names(m, w, s.nodes[n.children[j] as int].name, 0);
        lemma_same_missing(s, scope, m, w, cf, j + 1);
    }
}

/// A body that was encoded and decoded is encoded as before.
pub proof fn law_body_again(
    s: SchemaView,
    scope: usize,
    m: Seq<(Seq<char>, Tree)>,
    cf: ContentFormat,
    d: Seq<DecimalView>,
    item: Item,
)
    requires
        body_sound(s, scope, m, d),
        body_encoded(s, scope, m, cf, false) == Ok::<Item, Seq<char>>(item),
    ensures
        item is Entries,
        item->Entries_0.len() == m.len(),
        body_decoded(s, scope, item, cf, d) matches Ok(Tree::Object(w)) && w.len() == m.len()
            && body_encoded(s, scope, w, cf, false) == Ok::<Item, Seq<char>>(item),
    decreases m, 1int, 0int,
{
    let all = item->Entries_0;
    lemma_fields(s, scope, m, 0, cf, Seq::empty(), all);
    assert forall|k: int| 0 <= k < m.len() implies field_again(
        s,
        scope,
        (#[trigger] m[k]).0,
        all[k].1,
        cf,
        d,
    ) && found_by_sid(s, child_of(s, scope, m[k].0)->0) by {
        assert(field_made(s, scope, m[k], cf, all[k]));
        law_node_again(s, child_of(s, scope, m[k].0)->0, m[k].1, cf, d, all[k].1);
    }
    let w = members_again(s, scope, m, all, cf, d);
    lemma_fields_decoded(s, scope, m, all, 0, cf, d);
    lemma_fields_encoded(s, scope, m, all, 0, cf, d);
    assert(w.subrange(0, 0) =~= Seq::empty());
    assert(all.subrange(0, 0) =~= Seq::empty());
    lemma_same_missing(s, scope, m, w, cf, 0);
}

/// What the values of a leaf-list are decoded to.
spec fn leaves_again(s: SchemaView, n: NodeView, items: Seq<Item>, d: Seq<DecimalView>) -> Seq<
    Tree,
> {
    Seq::new(items.len(), |k: int| leaf_decoded(s, n, items[k], d)->Ok_0)
}

/// Whether a value of a leaf-list is decoded to a value with the same
/// encoding.
spec fn leaf_again(s: SchemaView, n: NodeView, item: Item, d: Seq<DecimalView>) -> bool {
    leaf_decoded(s, n, item, d) matches Ok(w) && leaf_encoded(s, n, w, false) == Ok::<
        Item,
        Seq<char>,
    >(item)
}

/// Each value of a leaf-list is decoded to a value with the same encoding.
proof fn lemma_leaves_made(
    s: SchemaView,
    n: NodeView,
    a: Seq<Tree>,
    d: Seq<DecimalView>,
    items: Seq<Item>,
    k: int,
)
    requires
        0 <= k <= a.len(),
        leaves_encoded(s, n, a, false, k) == Ok::<Seq<Item>, Seq<char>>(items),
        n.type_id matches Some(t) ==> forall|i: int|
            0 <= i < a.len() ==> value_sound(s, t, #[trigger] a[i], d),
    ensures
        items.len() == k,
        forall|i: int| 0 <= i < k ==> leaf_again(s, n, #[trigger] items[i], d),
    decreases k,
{
    if k > 0 {
        let before = leaves_encoded(s, n, a, false, k - 1)->Ok_0;
        let item = leaf_encoded(s, n, a[k - 1], false)->Ok_0;
        lemma_leaves_made(s, n, a, d, before, k - 1);
        assert(items == before.push(item));
        assert(value_sound(s, n.type_id->0, a[k - 1], d));
        assert forall|i: int| 0 <= i < k implies leaf_again(s, n, #[trigger] items[i], d) by {
            if i < k - 1 {
                assert(items[i] == before[i]);
            }
        }
    }
}

/// The values of a leaf-list are decoded, and encoded as before.
proof fn lemma_leaves_again(
    s: SchemaView,
    n: NodeView,
    items: Seq<Item>,
    d: Seq<DecimalView>,
    k: int,
)
    requires
        0 <= k <= items.len(),
        forall|i: int| 0 <= i < items.len() ==> leaf_again(s, n, #[trigger] items[i], d),
    ensures
        leaves_decoded(s, n, items, d, k) == Ok::<Seq<Tree>, Seq<char>>(
            leaves_again(s, n, items, d).subrange(0, k),
        ),
        leaves_encoded(s, n, leaves_again(s, n, items, d), false, k) == Ok::<Seq<Item>, Seq<char>>(
            items.subrange(0, k),
        ),
    decreases k,
{
    let w = leaves_again(s, n, items, d);
    if k > 0 {
        lemma_leaves_again(s, n, items, d, k - 1);
        assert(leaf_again(s, n, items[k - 1], d));
        assert(w.subrange(0, k - 1).push(w[k - 1]) =~= w.subrange(0, k));
        assert(items.subrange(0, k - 1).push(items[k - 1]) =~= items.subrange(0, k));
    } else {
        assert(w.subrange(0, 0) =~= Seq::empty());
        assert(items.subrange(0, 0) =~= Seq::empty());
    }
}

/// What the entries of a list are decoded to.
spec fn entries_again(
    s: SchemaView,
    node: usize,
    items: Seq<Item>,
    cf: ContentFormat,
    d: Seq<DecimalView>,
) -> Seq<Tree> {
    Seq::new(items.len(), |k: int| body_decoded(s, node, items[k], cf, d)->Ok_0)
}

/// Whether an entry of a list is decoded to an entry with the same encoding.
spec fn entry_again(
    s: SchemaView,
    node: usize,
    item: Item,
    cf: ContentFormat,
    d: Seq<DecimalView>,
) -> bool {
    body_decoded(s, node, item, cf, d) matches Ok(Tree::Object(w)) && body_encoded(
        s,
        node,
        w,
        cf,
        false,
    ) == Ok::<Item, Seq<char>>(item)
}

/// The entries of a list are decoded one by one.
proof fn lemma_entries_decoded(
    s: SchemaView,
    node: usize,
    items: Seq<Item>,
    i: int,
    cf: ContentFormat,
    d: Seq<DecimalView>,
)
    requires
        0 <= i <= items.len(),
        forall|k: int| 0 <= k < items.len() ==> entry_again(s, node, #[trigger] items[k], cf, d),
    ensures
        entries_decoded(
            s,
            node,
            Item::Array(items),
            i,
            cf,
            d,
            entries_again(s, node, items, cf, d).subrange(0, i),
        ) == Ok::<Seq<Tree>, Seq<char>>(entries_again(s, node, items, cf, d)),
    decreases items.len() - i,
{
    let w = entries_again(s, node, items, cf, d);
    if i < items.len() {
        assert(entry_again(s, node, items[i], cf, d));
        assert(w.subrange(0, i).push(w[i]) =~= w.subrange(0, i + 1));
        lemma_entries_decoded(s, node, items, i + 1, cf, d);
    } else {
        assert(w.subrange(0, i) =~= w);
    }
}

/// The entries of a list are encoded as before.
proof fn lemma_entries_encoded(
    s: SchemaView,
    node: usize,
    items: Seq<Item>,
    i: int,
    cf: ContentFormat,
    d: Seq<DecimalView>,
)
    requires
        0 <= i <= items.len(),
        forall|k: int| 0 <= k < items.len() ==> entry_again(s, node, #[trigger] items[k], cf, d),
    ensures
        entries_encoded(
            s,
            node,
            entries_again(s, node, items, cf, d),
            i,
            cf,
            false,
            items.subrange(0, i),
        ) == Ok::<Seq<Item>, Seq<char>>(items),
    decreases items.len() - i,
{
    let w = entries_again(s, node, items, cf, d);
    if i < items.len() {
        assert(entry_again(s, node, items[i], cf, d));
        assert(items.subrange(0, i).push(items[i]) =~= items.subrange(0, i + 1));
        lemma_entries_encoded(s, node, items, i + 1, cf, d);
    } else {
        assert(items.subrange(0, i) =~= items);
    }
}

/// A list that was encoded and decoded is encoded as before.
proof fn lemma_list_again(
    s: SchemaView,
    node: usize,
    a: Seq<Tree>,
    cf: ContentFormat,
    d: Seq<DecimalView>,
    items: Seq<Item>,
)
    requires
        forall|k: int|
            0 <= k < a.len() ==> (#[trigger] a[k] matches Tree::Object(m) ==> body_sound(
                s,
                node,
                m,
                d,
            )),
        entries_encoded(s, node, a, 0, cf, false, Seq::empty()) == Ok::<Seq<Item>, Seq<char>>(
            items,
        ),
    ensures
        entries_decoded(s, node, Item::Array(items), 0, cf, d, Seq::empty()) == Ok::<
            Seq<Tree>,
            Seq<char>,
        >(entries_again(s, node, items, cf, d)),
        entries_encoded(
            s,
            node,
            entries_again(s, node, items, cf, d),
            0,
            cf,
            false,
            Seq::empty(),
        ) == Ok::<Seq<Item>, Seq<char>>(items),
    decreases a, 0int, 0int,
{
    lemma_entries(s, node, a, 0, cf, Seq::empty(), items);
    assert forall|k: int| 0 <= k < items.len() implies entry_again(
        s,
        node,
        #[trigger] items[k],
        cf,
        d,
    ) by {
        assert(entry_made(s, node, a[k], cf, items[k]));
        let m = a[k]->Object_0;
        assert(a[k] == Tree::Object(m));
        law_body_again(s, node, m, cf, d, items[k]);
    }
    lemma_entries_decoded(s, node, items, 0, cf, d);
    lemma_entries_encoded(s, node, items, 0, cf, d);
    assert(entries_again(s, node, items, cf, d).subrange(0, 0) =~= Seq::empty());
    assert(items.subrange(0, 0) =~= Seq::empty());
}

/// One side of an operation that was encoded and decoded is encoded as before.
proof fn lemma_side_again(
    s: SchemaView,
    node: usize,
    side: Seq<char>,
    m: Seq<(Seq<char>, Tree)>,
    cf: ContentFormat,
    d: Seq<DecimalView>,
    item: Item,
)
    requires
        s.nodes[node as int].kw == "rpc"@ || s.nodes[node as int].kw == "action"@,
        side == "input"@ || side == "output"@,
        child_of(s, node, side) is Some,
        side_told(s, node, side, m),
        body_sound(s, child_of(s, node, side)->0, m, d),
        body_encoded(s, child_of(s, node, side)->0, m, cf, false) == Ok::<Item, Seq<char>>(item),
    ensures
        node_decoded(s, node, item, cf, d) matches Ok(w) && node_encoded(s, node, w, cf, false)
            == Ok::<Item, Seq<char>>(item),
    decreases m, 2int, 0int,
{
    lemma_keywords();
    let c = child_of(s, node, side)->0;
    law_body_again(s, c, m, cf, d, item);
    let all = item->Entries_0;
    lemma_fields(s, c, m, 0, cf, Seq::empty(), all);
    assert(field_made(s, c, m[0], cf, all[0]));
    let first = child_of(s, c, m[0].0)->0;
    lemma_distance(s.nodes[first as int].sid->0 as int, delta_base(s, c));
    let inner = body_decoded(s, c, item, cf, d)->Ok_0;
    let w = Tree::Object(seq![(side, inner)]);
    assert(node_decoded(s, node, item, cf, d) == Ok::<Tree, Seq<char>>(w));
    assert(seq![(side, inner)][0] == (side, inner));
}

/// The keywords of nodes differ.
proof fn lemma_keywords()
    ensures
        "rpc"@ != "leaf"@ && "rpc"@ != "leaf-list"@ && "rpc"@ != "container"@ && "rpc"@ != "input"@
            && "rpc"@ != "output"@ && "rpc"@ != "list"@,
        "action"@ != "leaf"@ && "action"@ != "leaf-list"@ && "action"@ != "container"@ && "action"@
            != "input"@ && "action"@ != "output"@ && "action"@ != "list"@,
{
    reveal_strlit("rpc");
    reveal_strlit("action");
    reveal_strlit("leaf");
    reveal_strlit("leaf-list");
    reveal_strlit("container");
    reveal_strlit("input");
    reveal_strlit("output");
    reveal_strlit("list");
    assert("rpc"@.len() == 3);
    assert("action"@.len() == 6);
    assert("action"@[0] != "output"@[0]);
}

/// Data that were encoded and decoded are encoded as before, if they keep
/// their meaning.
pub proof fn law_node_again(
    s: SchemaView,
    node: usize,
    v: Tree,
    cf: ContentFormat,
    d: Seq<DecimalView>,
    item: Item,
)
    requires
        sound(s, node, v, d),
        node_encoded(s, node, v, cf, false) == Ok::<Item, Seq<char>>(item),
    ensures
        node_decoded(s, node, item, cf, d) matches Ok(w) && node_encoded(s, node, w, cf, false)
            == Ok::<Item, Seq<char>>(item),
    decreases v, 2int, 0int,
{
    let n = s.nodes[node as int];
    if n.kw == "leaf"@ {
    } else if n.kw == "leaf-list"@ {
        let a = v->Array_0;
        let items = item->Array_0;
        lemma_leaves_made(s, n, a, d, items, a.len() as int);
        lemma_leaves_again(s, n, items, d, items.len() as int);
        let w = leaves_again(s, n, items, d);
        assert(w.subrange(0, items.len() as int) =~= w);
        assert(items.subrange(0, items.len() as int) =~= items);
    } else if n.kw == "container"@ || n.kw == "input"@ || n.kw == "output"@ {
        law_body_again(s, node, v->Object_0, cf, d, item);
    } else if n.kw == "list"@ {
        match v {
            Tree::Array(a) => {
                lemma_list_again(s, node, a, cf, d, item->Array_0);
            },
            Tree::Object(m) => {
                law_body_again(s, node, m, cf, d, item);
            },
            _ => {},
        }
    } else if n.kw == "rpc"@ || n.kw == "action"@ {
        lemma_operation_again(s, node, v, cf, d, item);
    }
}

/// An operation that was encoded and decoded is encoded as before.
proof fn lemma_operation_again(
    s: SchemaView,
    node: usize,
    v: Tree,
    cf: ContentFormat,
    d: Seq<DecimalView>,
    item: Item,
)
    requires
        s.nodes[node as int].kw == "rpc"@ || s.nodes[node as int].kw == "action"@,
        sound(s, node, v, d),
        node_encoded(s, node, v, cf, false) == Ok::<Item, Seq<char>>(item),
    ensures
        node_decoded(s, node, item, cf, d) matches Ok(w) && node_encoded(s, node, w, cf, false)
            == Ok::<Item, Seq<char>>(item),
    decreases v, 1int, 0int,
{
    lemma_keywords();
    let m = v->Object_0;
    assert(v == Tree::Object(m));
    if m.len() == 1 && (m[0].0 == "input"@ || m[0].0 == "output"@) {
        let inner = m[0].1->Object_0;
        assert(m[0].1 == Tree::Object(inner));
        lemma_side_again(s, node, m[0].0, inner, cf, d, item);
    } else if m.len() == 0 {
        let scope = match child_of(s, node, "input"@) {
            Some(side) => side,
            None => node,
        };
        lemma_fields(s, scope, m, 0, cf, Seq::empty(), item->Entries_0);
        assert(m =~= Seq::empty());
        assert(item->Entries_0 =~= Seq::empty());
    } else {
        lemma_side_again(s, node, "input"@, m, cf, d, item);
    }
}

/// A whole tree that was encoded and decoded is encoded to the same bytes, if
/// it keeps its meaning.
pub proof fn law_tree_again(
    s: SchemaView,
    m: Seq<(Seq<char>, Tree)>,
    cf: ContentFormat,
    d: Seq<DecimalView>,
    item: Item,
)
    requires
        body_sound(s, s.root, m, d),
        tree_encoded(s, Tree::Object(m), cf, false) == Ok::<Item, Seq<char>>(item),
        encodable(item),
    ensures
        tree_decoded(s, encoding(item), cf, d) matches Ok(w) && tree_encoded(s, w, cf, false)
            == Ok::<Item, Seq<char>>(item),
{
    law_body_again(s, s.root, m, cf, d, item);
    lemma_encoded_alone(item);
}

/// A value of a type that is no union keeps its meaning in a leaf if it does
/// as a value of its governing type.
pub proof fn law_value_again(s: SchemaView, id: usize, v: Tree, d: Seq<DecimalView>)
    requires
        governing_builtin(s, id) != Builtin::Union,
        means_the_same(s, governing(s, id), v, false, d),
    ensures
        value_sound(s, id, v, d),
{
}

/// A value of a union keeps its meaning if it does as a value of the member
/// that it belongs to, that member stands out, and what it is decoded to
/// belongs to that member too.
pub proof fn law_union_again(s: SchemaView, id: usize, v: Tree, d: Seq<DecimalView>)
    requires
        governing_builtin(s, id) == Builtin::Union,
        ({
            let members = s.types[governing(s, id) as int].union_members;
            member_for_json(s, members, v) matches Some(m) ==> {
                &&& stands_out(s, members, m)
                &&& governing_builtin(s, m) != Builtin::InstanceIdentifier
                &&& governing_builtin(s, m) != Builtin::Leafref
                &&& means_the_same(s, governing(s, m), v, true, d)
                &&& plain_encoded(s, governing(s, m), v, true) matches Ok(item) ==> plain_decoded(
                    s,
                    governing(s, m),
                    item,
                    true,
                    d,
                ) matches Ok(w) ==> member_for_json(s, members, w) == Some(m)
            }
        }),
    ensures
        value_sound(s, id, v, d),
{
    let members = s.types[governing(s, id) as int].union_members;
    match value_encoded(s, id, v, false) {
        Ok(item) => {
            law_union_member_is_found(s, members, v, item);
        },
        Err(_) => {},
    }
}

/// Whether a path keeps its meaning: its encoding is decoded to a path with
/// the same encoding.
pub open spec fn path_sound(s: SchemaView, path: Seq<char>, d: Seq<DecimalView>) -> bool {
    path_encoded(s, path) matches Ok((node, iid)) ==> path_decoded(s, iid, d) matches Ok((n, p))
        && n == node && path_encoded(s, p) == Ok::<(usize, Item), Seq<char>>((node, iid))
}

/// Whether an entry of a request keeps its meaning. The value of an empty leaf
/// is encoded as null, which stands for itself in an entry.
pub open spec fn entry_sound(s: SchemaView, v: Tree, d: Seq<DecimalView>) -> bool {
    match v {
        Tree::Object(m) => m.len() == 1 ==> path_sound(s, m[0].0, d) && (path_encoded(
            s,
            m[0].0,
        ) matches Ok((node, _)) ==> m[0].1 is Null || (sound(s, node, m[0].1, d) && !encodes_null(
            s,
            node,
            m[0].1,
        ))),
        Tree::Text(path) => path_sound(s, path, d),
        _ => true,
    }
}

/// Only null is decoded to null.
proof fn lemma_null(s: SchemaView, node: usize, v: Item, cf: ContentFormat, d: Seq<DecimalView>)
    requires
        node_decoded(s, node, v, cf, d) == Ok::<Tree, Seq<char>>(Tree::Null),
    ensures
        v is Null,
{
    let n = s.nodes[node as int];
    if n.kw == "leaf"@ {
        let t = n.type_id->0;
        lemma_plain_null(s, governing(s, t), v, false, d);
        let ty = s.types[governing(s, t) as int];
        if ty.builtin == Builtin::Union {
            match member_for_cbor(s, ty.union_members, v) {
                Some(m) => {
                    lemma_plain_null(s, governing(s, m), v, true, d);
                },
                None => {},
            }
        }
    }
}

/// Only null is decoded to null.
proof fn lemma_plain_null(
    s: SchemaView,
    id: usize,
    v: Item,
    in_union: bool,
    d: Seq<DecimalView>,
)
    ensures
        plain_decoded(s, id, v, in_union, d) == Ok::<Tree, Seq<char>>(Tree::Null) ==> v is Null,
{
}

/// An entry of a request is decoded to an entry with the same encoding.
proof fn lemma_entry_is_sound(
    s: SchemaView,
    v: Tree,
    cf: ContentFormat,
    d: Seq<DecimalView>,
    item: Item,
)
    requires
        entry_sound(s, v, d),
        entry_encoded(s, v, cf, false) == Ok::<Item, Seq<char>>(item),
    ensures
        entry_decoded(s, item, cf, d) matches Ok(w) && entry_encoded(s, w, cf, false) == Ok::<
            Item,
            Seq<char>,
        >(item),
{
    match v {
        Tree::Object(m) => {
            let (node, iid) = path_encoded(s, m[0].0)->Ok_0;
            let (key, value) = item->Entries_0[0];
            let path = path_decoded(s, iid, d)->Ok_0.1;
            if m[0].1 is Null {
                let w = seq![(path, Tree::Null)];
                assert(w[0] == (path, Tree::Null));
                assert(entry_decoded(s, item, cf, d) == Ok::<Tree, Seq<char>>(Tree::Object(w)));
            } else {
                law_node_again(s, node, m[0].1, cf, d, value);
                let tree = node_decoded(s, node, value, cf, d)->Ok_0;
                assert(!(value is Null));
                if tree is Null {
                    lemma_null(s, node, value, cf, d);
                }
                let w = seq![(path, tree)];
                assert(w[0] == (path, tree));
                assert(entry_decoded(s, item, cf, d) == Ok::<Tree, Seq<char>>(Tree::Object(w)));
            }
        },
        Tree::Text(path) => {
            lemma_walk_shape(s, path, path_parts(path), 0, s.root, 0, Seq::empty());
        },
        _ => {},
    }
}

/// What the items of a request are decoded to.
spec fn trees_again(
    s: SchemaView,
    items: Seq<Item>,
    cf: ContentFormat,
    d: Seq<DecimalView>,
) -> Seq<Tree> {
    Seq::new(items.len(), |k: int| entry_decoded(s, items[k], cf, d)->Ok_0)
}

/// Whether an item of a request is decoded to an entry with the same encoding.
spec fn item_again(s: SchemaView, item: Item, cf: ContentFormat, d: Seq<DecimalView>) -> bool {
    entry_decoded(s, item, cf, d) matches Ok(w) && entry_encoded(s, w, cf, false) == Ok::<
        Item,
        Seq<char>,
    >(item)
}

/// The entries of a request are decoded, and encoded as before.
proof fn lemma_request_again(
    s: SchemaView,
    items: Seq<Item>,
    cf: ContentFormat,
    d: Seq<DecimalView>,
    n: int,
)
    requires
        0 <= n <= items.len(),
        forall|i: int| 0 <= i < items.len() ==> item_again(s, #[trigger] items[i], cf, d),
    ensures
        entries_trees(s, items, cf, d, n) == Ok::<Seq<Tree>, Seq<char>>(
            trees_again(s, items, cf, d).subrange(0, n),
        ),
        entries_bytes(s, trees_again(s, items, cf, d), cf, false, n) == Ok::<Seq<u8>, Seq<char>>(
            encodings(items.subrange(0, n)),
        ),
    decreases n,
{
    let w = trees_again(s, items, cf, d);
    if n > 0 {
        lemma_request_again(s, items, cf, d, n - 1);
        assert(item_again(s, items[n - 1], cf, d));
        assert(w.subrange(0, n - 1).push(w[n - 1]) =~= w.subrange(0, n));
        let part = items.subrange(0, n);
        assert(part.subrange(0, part.len() - 1) =~= items.subrange(0, n - 1));
    } else {
        assert(w.subrange(0, 0) =~= Seq::empty());
        assert(encodings(items.subrange(0, 0)) =~= Seq::empty());
    }
}

/// The entries of a request that were encoded and decoded are encoded to the
/// same bytes, if they keep their meaning.
pub proof fn law_entries_again(
    s: SchemaView,
    a: Seq<Tree>,
    cf: ContentFormat,
    d: Seq<DecimalView>,
    bytes: Seq<u8>,
)
    requires
        forall|i: int| 0 <= i < a.len() ==> entry_sound(s, #[trigger] a[i], d),
        entries_bytes(s, a, cf, false, a.len() as int) == Ok::<Seq<u8>, Seq<char>>(bytes),
        forall|i: int|
            0 <= i < a.len() ==> encodable(entry_encoded(s, #[trigger] a[i], cf, false)->Ok_0),
    ensures
        sequence_decoded(s, bytes, cf, d) matches Ok(b) && entries_bytes(
            s,
            b,
            cf,
            false,
            b.len() as int,
        ) == Ok::<Seq<u8>, Seq<char>>(bytes),
{
    let n = a.len() as int;
    let items = entry_items_made(s, a, cf, n);
    lemma_entries_are_encodings(s, a, cf, n);
    assert forall|k: int| 0 <= k < items.len() implies encodable(#[trigger] items[k]) by {
        assert(entry_sound(s, a[k], d));
    }
    assert forall|k: int| 0 <= k < items.len() implies item_again(
        s,
        #[trigger] items[k],
        cf,
        d,
    ) by {
        assert(entry_sound(s, a[k], d));
        assert(entry_encoded(s, a[k], cf, false) is Ok);
        lemma_entry_is_sound(s, a[k], cf, d, items[k]);
    }
    law_sequence_reads_back(items);
    lemma_request_again(s, items, cf, d, n);
    let w = trees_again(s, items, cf, d);
    assert(w.subrange(0, n) =~= w);
    assert(items.subrange(0, n) =~= items);
}

} // verus!
