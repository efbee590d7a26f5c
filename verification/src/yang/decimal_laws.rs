//! Only the decimals that are listed for a response matter when it is
//! decoded.
use vstd::prelude::*;

use crate::cbor::value::Item;
use crate::json::{with_member, Tree};
use crate::yang::bodies::{
    body_decoded, delta_base, entries_decoded, fields_decoded, leaves_decoded, node_decoded,
    ContentFormat,
};
use crate::yang::choices::{governing, member_for_cbor};
use crate::yang::codec::{
    decimals_among, decimals_in, entries_trees, entry_decoded, sequence_decoded, sequence_in,
    tree_decoded,
};
use crate::yang::readings::{
    key_shown, keys_shown, path_decoded, path_sid, path_to, plain_decoded, value_decoded,
};
use crate::yang::scalars::{
    decimal_decoded, decimal_parts, decimal_shown, item_number, signed_low, DecimalView,
};
use crate::yang::schema::{child_of, Builtin, NodeView, SchemaView};

verus! {

/// Whether two tables have the same texts for all decimals in an item.
pub open spec fn agree(a: Seq<DecimalView>, b: Seq<DecimalView>, v: Item) -> bool {
    forall|p: (int, int)| #[trigger]
        decimals_in(v).contains(p) ==> decimal_shown(a, p.0, p.1, 0) == decimal_shown(
            b,
            p.0,
            p.1,
            0,
        )
}

/// The decimals in an element of a list are among those in the list.
proof fn lemma_among_array(v: Item, n: int, k: int, p: (int, int))
    requires
        v is Array,
        0 <= k < n <= v->Array_0.len(),
        decimals_in(v->Array_0[k]).contains(p),
    ensures
        decimals_among(v, n).contains(p),
    decreases n,
{
    let before = decimals_among(v, n - 1);
    let more = decimals_in(v->Array_0[n - 1]);
    let all = decimals_among(v, n);
    assert(all == before + more);
    if k < n - 1 {
        lemma_among_array(v, n - 1, k, p);
        let i = choose|i: int| 0 <= i < before.len() && before[i] == p;
        assert(all[i] == p);
    } else {
        let i = choose|i: int| 0 <= i < more.len() && more[i] == p;
        assert(all[before.len() + i] == p);
    }
}

/// The decimals in a value of a table are among those in the table.
proof fn lemma_among_entries(v: Item, n: int, k: int, p: (int, int))
    requires
        v is Entries,
        0 <= k < n <= v->Entries_0.len(),
        decimals_in(v->Entries_0[k].0).contains(p) || decimals_in(v->Entries_0[k].1).contains(p),
    ensures
        decimals_among(v, n).contains(p),
    decreases n,
{
    let before = decimals_among(v, n - 1);
    let keys = decimals_in(v->Entries_0[n - 1].0);
    let values = decimals_in(v->Entries_0[n - 1].1);
    let all = decimals_among(v, n);
    assert(all == before + keys + values);
    if k < n - 1 {
        lemma_among_entries(v, n - 1, k, p);
        let i = choose|i: int| 0 <= i < before.len() && before[i] == p;
        assert(all[i] == p);
    } else if keys.contains(p) {
        let i = choose|i: int| 0 <= i < keys.len() && keys[i] == p;
        assert(all[before.len() + i] == p);
    } else {
        let i = choose|i: int| 0 <= i < values.len() && values[i] == p;
        assert(all[before.len() + keys.len() + i] == p);
    }
}

/// Tables that agree on a list agree on its elements.
proof fn lemma_agree_element(a: Seq<DecimalView>, b: Seq<DecimalView>, v: Item, k: int)
    requires
        agree(a, b, v),
        v is Array,
        0 <= k < v->Array_0.len(),
    ensures
        agree(a, b, v->Array_0[k]),
{
    assert forall|p: (int, int)| #[trigger]
        decimals_in(v->Array_0[k]).contains(p) implies decimal_shown(a, p.0, p.1, 0)
        == decimal_shown(b, p.0, p.1, 0) by {
        lemma_among_array(v, v->Array_0.len() as int, k, p);
        assert(decimals_in(v).contains(p));
    }
}

/// Tables that agree on a table of data agree on its keys and values.
proof fn lemma_agree_entry(a: Seq<DecimalView>, b: Seq<DecimalView>, v: Item, k: int)
    requires
        agree(a, b, v),
        v is Entries,
        0 <= k < v->Entries_0.len(),
    ensures
        agree(a, b, v->Entries_0[k].0),
        agree(a, b, v->Entries_0[k].1),
{
    assert forall|p: (int, int)|
        decimals_in(v->Entries_0[k].0).contains(p) || decimals_in(v->Entries_0[k].1).contains(
            p,
        ) implies #[trigger] decimal_shown(a, p.0, p.1, 0) == decimal_shown(b, p.0, p.1, 0) by {
        lemma_among_entries(v, v->Entries_0.len() as int, k, p);
        assert(decimals_in(v).contains(p));
    }
}

/// A decimal is shown in the same way.
proof fn lemma_decimal(a: Seq<DecimalView>, b: Seq<DecimalView>, v: Item)
    requires
        agree(a, b, v),
    ensures
        decimal_decoded(v, a) == decimal_decoded(v, b),
{
    match decimal_parts(v) {
        Ok(p) => {
            assert(decimals_in(v) == seq![p]);
            assert(seq![p][0] == p);
            assert(decimals_in(v).contains(p));
        },
        Err(_) => {},
    }
}

/// A value of a type is decoded in the same way.
proof fn lemma_value(
    s: SchemaView,
    id: usize,
    v: Item,
    in_union: bool,
    a: Seq<DecimalView>,
    b: Seq<DecimalView>,
)
    requires
        agree(a, b, v),
    ensures
        value_decoded(s, id, v, in_union, a) == value_decoded(s, id, v, in_union, b),
    decreases v, 4int, 0int,
{
    let ty = s.types[governing(s, id) as int];
    if ty.builtin == Builtin::Union {
        match member_for_cbor(s, ty.union_members, v) {
            Some(m) => {
                lemma_plain(s, governing(s, m), v, true, a, b);
            },
            None => {},
        }
    } else {
        lemma_plain(s, governing(s, id), v, in_union, a, b);
    }
}

/// A value of a type that is no union is decoded in the same way.
proof fn lemma_plain(
    s: SchemaView,
    id: usize,
    v: Item,
    in_union: bool,
    a: Seq<DecimalView>,
    b: Seq<DecimalView>,
)
    requires
        agree(a, b, v),
    ensures
        plain_decoded(s, id, v, in_union, a) == plain_decoded(s, id, v, in_union, b),
    decreases v, 3int, 0int,
{
    match s.types[id as int].builtin {
        Builtin::Decimal64 => {
            lemma_decimal(a, b, v);
        },
        Builtin::InstanceIdentifier => {
            lemma_path(s, v, a, b);
        },
        _ => {},
    }
}

/// A path is decoded in the same way.
proof fn lemma_path(s: SchemaView, v: Item, a: Seq<DecimalView>, b: Seq<DecimalView>)
    requires
        agree(a, b, v),
    ensures
        path_decoded(s, v, a) == path_decoded(s, v, b),
    decreases v, 2int, 0int,
{
    match path_sid(v) {
        Ok(sid) => {
            if s.sid_index.contains_key(sid as i64) {
                lemma_path_to(s, v, s.sid_index[sid as i64], 1, a, b);
            }
        },
        Err(_) => {},
    }
}

proof fn lemma_path_to(
    s: SchemaView,
    v: Item,
    node: usize,
    k: int,
    a: Seq<DecimalView>,
    b: Seq<DecimalView>,
)
    requires
        agree(a, b, v),
    ensures
        path_to(s, v, node, k, a) == path_to(s, v, node, k, b),
    decreases v, 1int, node as int,
{
    let n = s.nodes[node as int];
    let above = match n.parent {
        None => Ok((Seq::empty(), k)),
        Some(p) => if p < node {
            path_to(s, v, p, k, a)
        } else {
            arbitrary()
        },
    };
    match n.parent {
        Some(p) => {
            if p < node {
                lemma_path_to(s, v, p, k, a, b);
            }
        },
        None => {},
    }
    match above {
        Ok((text, k1)) => {
            lemma_keys_shown(s, v, node, 0, k1, a, b, text + "/"@ + n.name);
        },
        Err(_) => {},
    }
}

proof fn lemma_keys_shown(
    s: SchemaView,
    v: Item,
    node: usize,
    j: int,
    k: int,
    a: Seq<DecimalView>,
    b: Seq<DecimalView>,
    text: Seq<char>,
)
    requires
        agree(a, b, v),
    ensures
        keys_shown(s, v, node, j, k, a, text) == keys_shown(s, v, node, j, k, b, text),
    decreases v, 0int, s.nodes[node as int].keys.len() - j,
{
    let n = s.nodes[node as int];
    if 0 <= j < n.keys.len() {
        match (child_of(s, node, n.keys[j]), v) {
            (Some(c), Item::Array(items)) => match s.nodes[c as int].type_id {
                Some(t) => {
                    if 0 <= k < items.len() {
                        lemma_agree_element(a, b, v, k);
                        lemma_value(s, t, items[k], false, a, b);
                        match value_decoded(s, t, items[k], false, a) {
                            Ok(tree) => {
                                lemma_keys_shown(
                                    s,
                                    v,
                                    node,
                                    j + 1,
                                    k + 1,
                                    a,
                                    b,
                                    text + ("["@ + n.keys[j] + "='"@ + key_shown(tree) + "']"@),
                                );
                            },
                            Err(_) => {},
                        }
                    }
                },
                None => {},
            },
            _ => {},
        }
    }
}

proof fn lemma_leaves(
    s: SchemaView,
    node: NodeView,
    v: Item,
    n: int,
    a: Seq<DecimalView>,
    b: Seq<DecimalView>,
)
    requires
        agree(a, b, v),
        v is Array,
        n <= v->Array_0.len(),
    ensures
        leaves_decoded(s, node, v->Array_0, a, n) == leaves_decoded(s, node, v->Array_0, b, n),
    decreases n,
{
    if n > 0 {
        lemma_leaves(s, node, v, n - 1, a, b);
        lemma_agree_element(a, b, v, n - 1);
        match node.type_id {
            Some(t) => {
                lemma_value(s, t, v->Array_0[n - 1], false, a, b);
            },
            None => {},
        }
    }
}

proof fn lemma_fields(
    s: SchemaView,
    scope: usize,
    v: Item,
    i: int,
    cf: ContentFormat,
    a: Seq<DecimalView>,
    b: Seq<DecimalView>,
    seen: Seq<(Seq<char>, Tree)>,
)
    requires
        agree(a, b, v),
    ensures
        fields_decoded(s, scope, v, i, cf, a, seen) == fields_decoded(s, scope, v, i, cf, b, seen),
    decreases v, 0int, v->Entries_0.len() - i,
{
    match v {
        Item::Entries(e) => {
            if 0 <= i < e.len() {
                match item_number(e[i].0) {
                    None => {},
                    Some(k) => {
                        let sid = signed_low(signed_low(k) + delta_base(s, scope));
                        if s.sid_index.contains_key(sid as i64) {
                            let child = s.sid_index[sid as i64];
                            lemma_agree_entry(a, b, v, i);
                            law_only_listed_decimals_matter(s, child, e[i].1, cf, a, b);
                            match node_decoded(s, child, e[i].1, cf, a) {
                                Err(_) => {},
                                Ok(tree) => {
                                    lemma_fields(
                                        s,
                                        scope,
                                        v,
                                        i + 1,
                                        cf,
                                        a,
                                        b,
                                        with_member(seen, s.nodes[child as int].name, tree),
                                    );
                                },
                            }
                        }
                    },
                }
            }
        },
        _ => {},
    }
}

proof fn lemma_body(
    s: SchemaView,
    scope: usize,
    v: Item,
    cf: ContentFormat,
    a: Seq<DecimalView>,
    b: Seq<DecimalView>,
)
    requires
        agree(a, b, v),
    ensures
        body_decoded(s, scope, v, cf, a) == body_decoded(s, scope, v, cf, b),
    decreases v, 1int, 0int,
{
    lemma_fields(s, scope, v, 0, cf, a, b, Seq::empty());
}

proof fn lemma_entries(
    s: SchemaView,
    node: usize,
    v: Item,
    i: int,
    cf: ContentFormat,
    a: Seq<DecimalView>,
    b: Seq<DecimalView>,
    seen: Seq<Tree>,
)
    requires
        agree(a, b, v),
    ensures
        entries_decoded(s, node, v, i, cf, a, seen) == entries_decoded(s, node, v, i, cf, b, seen),
    decreases v, 0int, v->Array_0.len() - i,
{
    match v {
        Item::Array(items) => {
            if 0 <= i < items.len() {
                lemma_agree_element(a, b, v, i);
                lemma_body(s, node, items[i], cf, a, b);
                match body_decoded(s, node, items[i], cf, a) {
                    Err(_) => {},
                    Ok(tree) => {
                        lemma_entries(s, node, v, i + 1, cf, a, b, seen.push(tree));
                    },
                }
            }
        },
        _ => {},
    }
}

/// Data are decoded in the same way with all tables that have the same texts
/// for the decimals in them.
pub proof fn law_only_listed_decimals_matter(
    s: SchemaView,
    node: usize,
    v: Item,
    cf: ContentFormat,
    a: Seq<DecimalView>,
    b: Seq<DecimalView>,
)
    requires
        agree(a, b, v),
    ensures
        node_decoded(s, node, v, cf, a) == node_decoded(s, node, v, cf, b),
    decreases v, 2int, 0int,
{
    let n = s.nodes[node as int];
    if n.kw == "leaf"@ {
        match n.type_id {
            Some(t) => {
                lemma_value(s, t, v, false, a, b);
            },
            None => {},
        }
    } else if n.kw == "leaf-list"@ {
        match v {
            Item::Array(items) => {
                lemma_leaves(s, n, v, items.len() as int, a, b);
            },
            _ => {},
        }
    } else if n.kw == "container"@ || n.kw == "input"@ || n.kw == "output"@ {
        lemma_body(s, node, v, cf, a, b);
    } else if n.kw == "list"@ {
        lemma_body(s, node, v, cf, a, b);
        lemma_entries(s, node, v, 0, cf, a, b, Seq::empty());
    } else if n.kw == "rpc"@ || n.kw == "action"@ {
        match child_of(s, node, "input"@) {
            Some(side) => {
                lemma_body(s, side, v, cf, a, b);
            },
            None => {},
        }
        match child_of(s, node, "output"@) {
            Some(side) => {
                lemma_body(s, side, v, cf, a, b);
            },
            None => {},
        }
    }
}

/// A whole tree is decoded in the same way with all tables that have the same
/// texts for the decimals in the bytes.
pub proof fn law_tables_for_a_tree(
    s: SchemaView,
    bytes: Seq<u8>,
    cf: ContentFormat,
    a: Seq<DecimalView>,
    b: Seq<DecimalView>,
)
    requires
        sequence_in(bytes) matches Ok(items) ==> forall|i: int|
            0 <= i < items.len() ==> agree(a, b, #[trigger] items[i]),
    ensures
        tree_decoded(s, bytes, cf, a) == tree_decoded(s, bytes, cf, b),
{
    match sequence_in(bytes) {
        Ok(items) => {
            if items.len() > 0 {
                lemma_body(s, s.root, items[0], cf, a, b);
            }
        },
        Err(_) => {},
    }
}

proof fn lemma_trees(
    s: SchemaView,
    items: Seq<Item>,
    cf: ContentFormat,
    a: Seq<DecimalView>,
    b: Seq<DecimalView>,
    n: int,
)
    requires
        n <= items.len(),
        forall|i: int| 0 <= i < items.len() ==> agree(a, b, #[trigger] items[i]),
    ensures
        entries_trees(s, items, cf, a, n) == entries_trees(s, items, cf, b, n),
    decreases n,
{
    if n > 0 {
        lemma_trees(s, items, cf, a, b, n - 1);
        lemma_entry(s, items[n - 1], cf, a, b);
    }
}

proof fn lemma_entry(
    s: SchemaView,
    v: Item,
    cf: ContentFormat,
    a: Seq<DecimalView>,
    b: Seq<DecimalView>,
)
    requires
        agree(a, b, v),
    ensures
        entry_decoded(s, v, cf, a) == entry_decoded(s, v, cf, b),
{
    lemma_path(s, v, a, b);
    if v is Entries && v->Entries_0.len() == 1 {
        let (iid, value) = v->Entries_0[0];
        lemma_agree_entry(a, b, v, 0);
        lemma_path(s, iid, a, b);
        match path_decoded(s, iid, a) {
            Ok((node, _)) => {
                law_only_listed_decimals_matter(s, node, value, cf, a, b);
            },
            Err(_) => {},
        }
    }
}

/// The entries of a response are decoded in the same way with all tables that
/// have the same texts for the decimals in the bytes.
pub proof fn law_tables_for_entries(
    s: SchemaView,
    bytes: Seq<u8>,
    cf: ContentFormat,
    a: Seq<DecimalView>,
    b: Seq<DecimalView>,
)
    requires
        sequence_in(bytes) matches Ok(items) ==> forall|i: int|
            0 <= i < items.len() ==> agree(a, b, #[trigger] items[i]),
    ensures
        sequence_decoded(s, bytes, cf, a) == sequence_decoded(s, bytes, cf, b),
{
    match sequence_in(bytes) {
        Ok(items) => {
            lemma_trees(s, items, cf, a, b, items.len() as int);
        },
        Err(_) => {},
    }
}

} // verus!
