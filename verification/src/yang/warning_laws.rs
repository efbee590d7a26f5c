//! When something is told of errors that are passed over.
use vstd::prelude::*;

use crate::cbor::value::Item;
use crate::json::Tree;
use crate::yang::bodies::{
    body_encoded, delta_base, entries_encoded, fields_encoded, leaves_encoded, missing_at,
    missing_field, node_encoded, ContentFormat,
};
use crate::yang::codec::tree_encoded;
use crate::yang::scalars::signed_low;
use crate::yang::schema::{child_of, NodeView, SchemaView};
use crate::yang::tree_laws::{
    law_passing_over_keeps_valid_trees, law_passing_over_keeps_what_is_valid, lemma_body_leniently,
    lemma_entries_leniently,
};
use crate::yang::warnings::{
    all_missing, body_warned, caught, entries_warned, field_passes, field_warned, fields_warned,
    lemma_entries_step, lemma_fields_step, leaf_warned, leaves_warned, list_entry_passes,
    list_entry_warned, node_warned, tree_warned,
};

verus! {

/// Nothing is told of missing fields exactly if none is missing.
proof fn lemma_missing_told(
    s: SchemaView,
    scope: usize,
    m: Seq<(Seq<char>, Tree)>,
    cf: ContentFormat,
    j: int,
    k: int,
)
    requires
        0 <= j <= k == s.nodes[scope as int].children.len(),
    ensures
        all_missing(s, scope, m, cf, k).len() == 0 <==> all_missing(s, scope, m, cf, j).len() == 0
            && missing_field(s, scope, m, cf, j) is None,
    decreases k - j,
{
    if j < k {
        lemma_missing_told(s, scope, m, cf, j + 1, k);
        assert(all_missing(s, scope, m, cf, j + 1) == match missing_at(s, scope, m, cf, j) {
            Some(e) => all_missing(s, scope, m, cf, j).push(e),
            None => all_missing(s, scope, m, cf, j),
        });
    }
}

/// Nothing is told of the members of an object exactly if all are valid, where
/// all errors can be passed over.
proof fn lemma_fields_told(
    s: SchemaView,
    scope: usize,
    m: Seq<(Seq<char>, Tree)>,
    i: int,
    cf: ContentFormat,
    seen: Seq<(Item, Item)>,
)
    requires
        0 <= i <= m.len(),
    ensures
        fields_encoded(s, scope, m, i, cf, false, seen) is Ok ==> fields_warned(
            s,
            scope,
            m,
            i,
            cf,
        ).len() == 0,
        fields_encoded(s, scope, m, i, cf, true, seen) is Ok && fields_warned(
            s,
            scope,
            m,
            i,
            cf,
        ).len() == 0 ==> fields_encoded(s, scope, m, i, cf, false, seen) is Ok,
    decreases m, 0int, m.len() - i,
{
    if i < m.len() {
        lemma_fields_step(s, scope, m, i, cf);
        reveal(field_warned);
        reveal(field_passes);
        match child_of(s, scope, m[i].0) {
            None => {},
            Some(child) => match s.nodes[child as int].sid {
                None => {},
                Some(sid) => {
                    let v = m[i].1;
                    law_passing_over_keeps_what_is_valid(s, child, v, cf);
                    law_silence_means_valid(s, child, v, cf);
                    match node_encoded(s, child, v, cf, true) {
                        Err(_) => {},
                        Ok(item) => {
                            let key = Item::Integer(signed_low(sid - delta_base(s, scope)));
                            lemma_fields_told(s, scope, m, i + 1, cf, seen.push((key, item)));
                        },
                    }
                },
            },
        }
    }
}

/// Nothing is told of a body exactly if it is valid, where all errors can be
/// passed over.
proof fn lemma_body_told(
    s: SchemaView,
    scope: usize,
    m: Seq<(Seq<char>, Tree)>,
    cf: ContentFormat,
)
    ensures
        body_encoded(s, scope, m, cf, false) is Ok ==> body_warned(s, scope, m, cf).len() == 0,
        body_encoded(s, scope, m, cf, true) is Ok && body_warned(s, scope, m, cf).len() == 0
            ==> body_encoded(s, scope, m, cf, false) is Ok,
    decreases m, 1int, 0int,
{
    lemma_fields_told(s, scope, m, 0, cf, Seq::empty());
    lemma_body_leniently(s, scope, m, cf);
    let k = s.nodes[scope as int].children.len() as int;
    lemma_missing_told(s, scope, m, cf, 0, k);
}

/// Nothing is told of the entries of a list exactly if all are valid, where
/// all errors can be passed over.
proof fn lemma_entries_told(
    s: SchemaView,
    node: usize,
    a: Seq<Tree>,
    i: int,
    cf: ContentFormat,
    seen: Seq<Item>,
)
    requires
        0 <= i <= a.len(),
    ensures
        entries_encoded(s, node, a, i, cf, false, seen) is Ok ==> entries_warned(
            s,
            node,
            a,
            i,
            cf,
        ).len() == 0,
        entries_encoded(s, node, a, i, cf, true, seen) is Ok && entries_warned(
            s,
            node,
            a,
            i,
            cf,
        ).len() == 0 ==> entries_encoded(s, node, a, i, cf, false, seen) is Ok,
    decreases a, 0int, a.len() - i,
{
    if i < a.len() {
        lemma_entries_step(s, node, a, i, cf);
        reveal(list_entry_warned);
        reveal(list_entry_passes);
        match a[i] {
            Tree::Object(m) => {
                lemma_body_leniently(s, node, m, cf);
                lemma_body_told(s, node, m, cf);
                match body_encoded(s, node, m, cf, true) {
                    Err(_) => {},
                    Ok(item) => {
                        lemma_entries_told(s, node, a, i + 1, cf, seen.push(item));
                    },
                }
            },
            _ => {},
        }
    }
}

/// Nothing is told of the values of a leaf-list exactly if all are valid.
proof fn lemma_leaves_told(s: SchemaView, n: NodeView, a: Seq<Tree>, k: int)
    requires
        n.type_id is Some,
    ensures
        leaves_encoded(s, n, a, false, k) is Ok <==> leaves_warned(s, n, a, k).len() == 0,
    decreases k,
{
    if k > 0 {
        lemma_leaves_told(s, n, a, k - 1);
        assert(leaf_warned(s, n, a[k - 1]).len() <= 1);
    }
}

/// A leaf-list without a type has no values.
proof fn lemma_leaves_untyped(s: SchemaView, n: NodeView, a: Seq<Tree>, cont: bool, k: int)
    requires
        n.type_id is None,
        k >= 0,
    ensures
        leaves_encoded(s, n, a, cont, k) is Ok <==> k == 0,
        leaves_warned(s, n, a, k).len() == 0,
    decreases k,
{
    if k > 0 {
        lemma_leaves_untyped(s, n, a, cont, k - 1);
    }
}

/// Whether something is told of a body exactly if it is not valid.
spec fn body_told(s: SchemaView, scope: usize, m: Seq<(Seq<char>, Tree)>, cf: ContentFormat) -> bool {
    &&& body_encoded(s, scope, m, cf, false) is Ok ==> body_warned(s, scope, m, cf).len() == 0
        && body_encoded(s, scope, m, cf, true) is Ok
    &&& body_encoded(s, scope, m, cf, true) is Ok && body_warned(s, scope, m, cf).len() == 0
        ==> body_encoded(s, scope, m, cf, false) is Ok
}

/// Whether something is told of data exactly if they are not valid.
spec fn node_told(s: SchemaView, node: usize, v: Tree, cf: ContentFormat) -> bool {
    &&& node_encoded(s, node, v, cf, false) is Ok ==> node_warned(s, node, v, cf).len() == 0
    &&& node_encoded(s, node, v, cf, true) is Ok && node_warned(s, node, v, cf).len() == 0
        ==> node_encoded(s, node, v, cf, false) is Ok
}

/// The law for what has a body of its own.
proof fn lemma_own_body_told(
    s: SchemaView,
    node: usize,
    m: Seq<(Seq<char>, Tree)>,
    cf: ContentFormat,
)
    requires
        !(s.nodes[node as int].kw == "rpc"@ || s.nodes[node as int].kw == "action"@),
        body_told(s, node, m, cf),
    ensures
        node_told(s, node, Tree::Object(m), cf),
{
    let w = body_warned(s, node, m, cf);
    let c = caught(body_encoded(s, node, m, cf, true));
    assert((w + c).len() == w.len() + c.len());
}

/// The law for operations.
proof fn lemma_operation_told(
    s: SchemaView,
    node: usize,
    m: Seq<(Seq<char>, Tree)>,
    cf: ContentFormat,
    side: usize,
    inner: Seq<(Seq<char>, Tree)>,
)
    requires
        s.nodes[node as int].kw == "rpc"@ || s.nodes[node as int].kw == "action"@,
        body_told(s, side, inner, cf),
        if m.len() == 1 && (m[0].0 == "input"@ || m[0].0 == "output"@) {
            child_of(s, node, m[0].0) is Some && m[0].1 is Object ==> child_of(s, node, m[0].0)
                == Some(side) && m[0].1 == Tree::Object(inner)
        } else {
            inner == m && side == match child_of(s, node, "input"@) {
                Some(c) => c,
                None => node,
            }
        },
    ensures
        node_told(s, node, Tree::Object(m), cf),
{
    reveal_strlit("leaf");
    reveal_strlit("leaf-list");
    reveal_strlit("container");
    reveal_strlit("input");
    reveal_strlit("output");
    reveal_strlit("list");
    reveal_strlit("rpc");
    reveal_strlit("action");
    let kw = s.nodes[node as int].kw;
    assert(kw.len() == 3 || kw.len() == 6);
    assert(kw[0] == 'r' || kw[0] == 'a');
    assert(kw != "leaf"@ && kw != "leaf-list"@ && kw != "container"@ && kw != "list"@);
    assert("input"@[0] == 'i' && "output"@[0] == 'o');
    assert(kw != "input"@ && kw != "output"@);
}

/// The law for lists and leaf-lists.
proof fn lemma_array_told(s: SchemaView, node: usize, a: Seq<Tree>, cf: ContentFormat)
    requires
        ({
            let strict = entries_encoded(s, node, a, 0, cf, false, Seq::empty());
            let loose = entries_encoded(s, node, a, 0, cf, true, Seq::empty());
            let told = entries_warned(s, node, a, 0, cf).len();
            &&& strict is Ok ==> told == 0 && loose is Ok
            &&& loose is Ok && told == 0 ==> strict is Ok
        }),
        ({
            let n = s.nodes[node as int];
            let k = a.len() as int;
            let told = leaves_warned(s, n, a, k).len();
            &&& leaves_encoded(s, n, a, false, k) is Ok ==> told == 0
            &&& leaves_encoded(s, n, a, true, k) is Ok && told == 0 ==> leaves_encoded(
                s,
                n,
                a,
                false,
                k,
            ) is Ok
        }),
    ensures
        node_told(s, node, Tree::Array(a), cf),
{
    let w = entries_warned(s, node, a, 0, cf);
    let c = caught(entries_encoded(s, node, a, 0, cf, true, Seq::empty()));
    assert((w + c).len() == w.len() + c.len());
}

/// The law for other data.
proof fn lemma_scalar_told(s: SchemaView, node: usize, v: Tree, cf: ContentFormat)
    requires
        !(v is Object || v is Array),
    ensures
        node_told(s, node, v, cf),
{
}

/// Where every error can be passed over, nothing is told of data exactly if
/// they are valid: nothing is told of data that are encoded without passing
/// over errors, and data of which nothing is told are encoded without it.
pub proof fn law_silence_means_valid(s: SchemaView, node: usize, v: Tree, cf: ContentFormat)
    ensures
        node_encoded(s, node, v, cf, false) is Ok ==> node_warned(s, node, v, cf).len() == 0,
        node_encoded(s, node, v, cf, true) is Ok && node_warned(s, node, v, cf).len() == 0
            ==> node_encoded(s, node, v, cf, false) is Ok,
    decreases v, 2int, 0int,
{
    let n = s.nodes[node as int];
    match v {
        Tree::Object(m) => {
            if n.kw == "rpc"@ || n.kw == "action"@ {
                let direct = m.len() == 1 && (m[0].0 == "input"@ || m[0].0 == "output"@);
                if direct && child_of(s, node, m[0].0) is Some && m[0].1 is Object {
                    let side = child_of(s, node, m[0].0)->0;
                    let inner = m[0].1->Object_0;
                    lemma_body_leniently(s, side, inner, cf);
                    lemma_body_told(s, side, inner, cf);
                    lemma_operation_told(s, node, m, cf, side, inner);
                } else {
                    let side = match child_of(s, node, "input"@) {
                        Some(c) => c,
                        None => node,
                    };
                    lemma_body_leniently(s, side, m, cf);
                    lemma_body_told(s, side, m, cf);
                    lemma_operation_told(s, node, m, cf, side, m);
                }
            } else {
                lemma_body_leniently(s, node, m, cf);
                lemma_body_told(s, node, m, cf);
                lemma_own_body_told(s, node, m, cf);
            }
        },
        Tree::Array(a) => {
            if n.type_id is Some {
                lemma_leaves_told(s, n, a, a.len() as int);
            } else {
                lemma_leaves_untyped(s, n, a, false, a.len() as int);
                lemma_leaves_untyped(s, n, a, true, a.len() as int);
            }
            lemma_entries_told(s, node, a, 0, cf, Seq::empty());
            lemma_entries_leniently(s, node, a, 0, cf, Seq::empty());
            lemma_array_told(s, node, a, cf);
        },
        _ => {
            lemma_scalar_told(s, node, v, cf);
        },
    }
}

/// Nothing is told of a whole tree exactly if it is valid.
pub proof fn law_silence_means_a_valid_tree(s: SchemaView, v: Tree, cf: ContentFormat)
    ensures
        tree_warned(s, v, cf).len() == 0 <==> tree_encoded(s, v, cf, false) is Ok,
{
    law_passing_over_keeps_valid_trees(s, v, cf);
    match v {
        Tree::Object(m) => {
            lemma_body_leniently(s, s.root, m, cf);
            lemma_body_told(s, s.root, m, cf);
        },
        _ => {
            assert(caught(tree_encoded(s, v, cf, false)).len() <= 1);
        },
    }
}

} // verus!
