//! What a device sent that the schema has no name for: values of enumerations
//! that are shown as numbers, in the order in which they are read.
use vstd::prelude::*;

use crate::cbor::value::{
    entry_items, lemma_element_below, lemma_entry_below, lemma_view, value_items, Item,
    Value as Cbor,
};
use crate::json::lemma_json_view;
use crate::text::{cat, cat3, decimal, decimal_text, same, texts};
use crate::yang::bodies::{
    body_decoded, decode_body, decode_leaf_value, decode_node_value, delta_base,
    effective_delta_base, is_sequence, leaf_decoded, node_decoded, side_holds, side_of,
    ContentFormat,
};
use crate::yang::choices::{
    governing, member_for_cbor, pick_union_member_for_cbor, resolved_builtin,
};
use crate::yang::codec::{cbor_seq_from_bytes, decode_entry, entry_decoded, sequence_in};
use crate::yang::readings::{
    decode_iid, node_path_string, path_decoded, path_len, path_sid, path_to, split_iid_cbor,
    type_to_json, value_decoded,
};
use crate::yang::scalars::{
    cbor_as_i128, decimal_views, enum_valued, item_number, low_i64, signed_low, DecimalText,
    DecimalView,
};
use crate::yang::schema::{
    child_of, node_ok, type_ok, Builtin, Node, NodeId, NodeView, Schema, SchemaView, TypeDef,
    TypeId, TypeView,
};
use crate::yang::warnings::{lemma_joined, note};

verus! {

broadcast use {lemma_view, lemma_json_view};

/// The message on a value of an enumeration that has no name.
pub open spec fn unnamed_value(n: int) -> Seq<char> {
    "the device reported enum value "@ + decimal_text(n)
        + ", which isn't defined in the loaded YANG catalog (the device's firmware may be newer than the catalog) -- showing the raw number instead of a name"@
}

/// What has no name in a value of an enumeration.
pub open spec fn enum_noted(ty: TypeView, v: Item, in_union: bool) -> Seq<Seq<char>> {
    if in_union && v is Tag && v->Tag_0 == 44 {
        Seq::empty()
    } else {
        match item_number(v) {
            None => Seq::empty(),
            Some(n) => if enum_valued(ty.enums, n, 0) is None {
                seq![unnamed_value(n)]
            } else {
                Seq::empty()
            },
        }
    }
}

/// What has no name in a value of a type, by the type that governs it.
pub open spec fn value_noted(
    s: SchemaView,
    id: usize,
    v: Item,
    in_union: bool,
    d: Seq<DecimalView>,
) -> Seq<Seq<char>>
    decreases v, 4int, 0int,
{
    let g = governing(s, id);
    let ty = s.types[g as int];
    if ty.builtin == Builtin::Union {
        match member_for_cbor(s, ty.union_members, v) {
            None => Seq::empty(),
            Some(m) => plain_noted(s, governing(s, m), v, true, d),
        }
    } else {
        plain_noted(s, g, v, in_union, d)
    }
}

/// What has no name in a value of a type that is no union.
pub open spec fn plain_noted(
    s: SchemaView,
    id: usize,
    v: Item,
    in_union: bool,
    d: Seq<DecimalView>,
) -> Seq<Seq<char>>
    decreases v, 3int, 0int,
{
    let ty = s.types[id as int];
    match ty.builtin {
        Builtin::Enumeration => enum_noted(ty, v, in_union),
        Builtin::InstanceIdentifier => path_noted(s, v, d),
        _ => Seq::empty(),
    }
}

/// What has no name among the keys of a path.
pub open spec fn path_noted(s: SchemaView, v: Item, d: Seq<DecimalView>) -> Seq<Seq<char>>
    decreases v, 2int, 0int,
{
    match path_sid(v) {
        Err(_) => Seq::empty(),
        Ok(sid) => if s.sid_index.contains_key(sid as i64) {
            steps_noted(s, v, s.sid_index[sid as i64], 1, d)
        } else {
            Seq::empty()
        },
    }
}

/// What has no name among the keys on the way to a node, with the key values
/// from the `k`-th item of `v` on.
pub open spec fn steps_noted(
    s: SchemaView,
    v: Item,
    node: usize,
    k: int,
    d: Seq<DecimalView>,
) -> Seq<Seq<char>>
    decreases v, 1int, node as int,
{
    let n = s.nodes[node as int];
    match n.parent {
        None => if n.kw == "module"@ {
            Seq::empty()
        } else {
            keys_noted(s, v, node, 0, k, d)
        },
        Some(p) => if p < node {
            steps_noted(s, v, p, k, d) + match path_to(s, v, p, k, d) {
                Err(_) => Seq::empty(),
                Ok((_, next)) => if n.kw == "module"@ {
                    Seq::empty()
                } else {
                    keys_noted(s, v, node, 0, next, d)
                },
            }
        } else {
            Seq::empty()
        },
    }
}

/// The type of the `j`-th key of a list.
pub open spec fn key_type(s: SchemaView, node: usize, j: int) -> Option<usize> {
    match child_of(s, node, s.nodes[node as int].keys[j]) {
        None => None,
        Some(c) => s.nodes[c as int].type_id,
    }
}

/// What has no name among the keys of a list from the `j`-th on, with the key
/// values from the `k`-th item of `v` on.
pub open spec fn keys_noted(
    s: SchemaView,
    v: Item,
    node: usize,
    j: int,
    k: int,
    d: Seq<DecimalView>,
) -> Seq<Seq<char>>
    decreases v, 0int, s.nodes[node as int].keys.len() - j,
{
    if j < 0 || j >= s.nodes[node as int].keys.len() {
        Seq::empty()
    } else {
        match (key_type(s, node, j), v) {
            (Some(t), Item::Array(a)) => if 0 <= k < a.len() {
                value_noted(s, t, a[k], false, d) + if value_decoded(s, t, a[k], false, d) is Ok {
                    keys_noted(s, v, node, j + 1, k + 1, d)
                } else {
                    Seq::empty()
                }
            } else {
                Seq::empty()
            },
            _ => Seq::empty(),
        }
    }
}

/// Appends what has no name in a value of an enumeration.
fn note_enum(ty: &TypeDef, v: &Cbor, in_union: bool, out: &mut Vec<String>)
    ensures
        texts(final(out)@) == texts(old(out)@) + enum_noted(ty@, v@, in_union),
{
    let ghost start = texts(out@);
    proof {
        lemma_joined(start, Seq::empty(), Seq::empty());
    }
    if in_union {
        if let Cbor::Tag(t, _) = v {
            if *t == 44 {
                return ;
            }
        }
    }
    let n = match cbor_as_i128(v) {
        Some(n) => n,
        None => {
            return ;
        },
    };
    let mut i: usize = 0;
    while i < ty.enums.len()
        invariant
            i <= ty.enums@.len(),
            item_number(v@) == Some(n as int),
            !(in_union && v@ is Tag && v@->Tag_0 == 44),
            start == texts(old(out)@),
            texts(out@) == start,
            start + Seq::<Seq<char>>::empty() == start,
            enum_valued(ty@.enums, n as int, 0) == enum_valued(ty@.enums, n as int, i as int),
        decreases ty.enums@.len() - i,
    {
        assert(ty@.enums[i as int] == ty.enums@[i as int]@);
        if ty.enums[i].value as i128 == n {
            return ;
        }
        i += 1;
    }
    let shown = decimal(n);
    note(
        out,
        cat3(
            "the device reported enum value ",
            shown.as_str(),
            ", which isn't defined in the loaded YANG catalog (the device's firmware may be newer than the catalog) -- showing the raw number instead of a name",
        ),
    );
    assert(texts(out@) =~= start + seq![unnamed_value(n as int)]);
}

/// Appends what has no name in a value of a type.
fn note_value(
    schema: &Schema,
    type_id: TypeId,
    v: &Cbor,
    in_union: bool,
    decimals: &[DecimalText],
    out: &mut Vec<String>,
)
    requires
        schema.wf(),
        type_id < schema.types@.len(),
    ensures
        texts(final(out)@) == texts(old(out)@) + value_noted(
            schema@,
            type_id,
            v@,
            in_union,
            decimal_views(decimals@),
        ),
    decreases v, 4int, 0int,
{
    let ghost s = schema@;
    let (b, g) = resolved_builtin(schema, type_id);
    if b == Builtin::Union {
        let ty = &schema.types[g];
        assert(s.types[g as int] == ty@);
        assert(type_ok(s.nodes.len() as int, s.identities.len() as int, g as int, ty@));
        assert(forall|k: int|
            0 <= k < ty.union_members@.len() ==> #[trigger] ty.union_members@[k] == ty@.union_members[k]);
        match pick_union_member_for_cbor(schema, ty, v) {
            None => {
                proof {
                    lemma_joined(texts(out@), Seq::empty(), Seq::empty());
                }
            },
            Some(m) => {
                let (_, n) = resolved_builtin(schema, m);
                note_plain(schema, n, v, true, decimals, out);
            },
        }
    } else {
        note_plain(schema, g, v, in_union, decimals, out);
    }
}

/// Appends what has no name in a value of a type that is no union.
fn note_plain(
    schema: &Schema,
    id: TypeId,
    v: &Cbor,
    in_union: bool,
    decimals: &[DecimalText],
    out: &mut Vec<String>,
)
    requires
        schema.wf(),
        id < schema.types@.len(),
    ensures
        texts(final(out)@) == texts(old(out)@) + plain_noted(
            schema@,
            id,
            v@,
            in_union,
            decimal_views(decimals@),
        ),
    decreases v, 3int, 0int,
{
    let ty = &schema.types[id];
    proof {
        assert(schema@.types[id as int] == ty@);
        lemma_joined(texts(out@), Seq::empty(), Seq::empty());
    }
    match ty.builtin {
        Builtin::Enumeration => {
            note_enum(ty, v, in_union, out);
        },
        Builtin::InstanceIdentifier => {
            note_path(schema, v, decimals, out);
        },
        _ => {},
    }
}

/// Appends what has no name among the keys of a path.
fn note_path(schema: &Schema, v: &Cbor, decimals: &[DecimalText], out: &mut Vec<String>)
    requires
        schema.wf(),
    ensures
        texts(final(out)@) == texts(old(out)@) + path_noted(
            schema@,
            v@,
            decimal_views(decimals@),
        ),
    decreases v, 2int, 0int,
{
    broadcast use vstd::std_specs::hash::group_hash_axioms;

    proof {
        lemma_joined(texts(out@), Seq::empty(), Seq::empty());
    }
    if let Ok(sid) = split_iid_cbor(v) {
        if let Some(n) = schema.sid_index.get(&sid) {
            let node: usize = *n;
            assert(schema@.sid_index.contains_key(sid));
            note_steps(schema, v, node, 1, decimals, out);
        }
    }
}

/// Appends what has no name among the keys on the way to a node.
fn note_steps(
    schema: &Schema,
    v: &Cbor,
    node: NodeId,
    k: usize,
    decimals: &[DecimalText],
    out: &mut Vec<String>,
)
    requires
        schema.wf(),
        node < schema.nodes@.len(),
        k <= path_len(v@) || k == 1,
    ensures
        texts(final(out)@) == texts(old(out)@) + steps_noted(
            schema@,
            v@,
            node,
            k as int,
            decimal_views(decimals@),
        ),
    decreases v, 1int, node as int,
{
    let ghost s = schema@;
    let ghost d = decimal_views(decimals@);
    let ghost start = texts(out@);
    let n = &schema.nodes[node];
    proof {
        assert(s.nodes[node as int] == n@);
        assert(node_ok(s.nodes.len() as int, s.types.len() as int, node as int, n@));
        lemma_joined(start, Seq::empty(), Seq::empty());
    }
    let module: bool = same(n.kw.as_str(), "module");
    match n.parent {
        None => {
            if !module {
                note_keys(schema, v, node, k, decimals, out);
            }
        },
        Some(p) => {
            note_steps(schema, v, p, k, decimals, out);
            let ghost above = steps_noted(s, v@, p, k as int, d);
            let mut next: usize = k;
            let path = node_path_string(schema, v, p, &mut next, decimals);
            proof {
                lemma_joined(start, above, keys_noted(s, v@, node, 0, next as int, d));
                lemma_joined(above, Seq::empty(), Seq::empty());
            }
            if path.is_ok() && !module {
                note_keys(schema, v, node, next, decimals, out);
            }
        },
    }
}

/// Appends what has no name among the keys of a list.
fn note_keys(
    schema: &Schema,
    v: &Cbor,
    node: NodeId,
    from: usize,
    decimals: &[DecimalText],
    out: &mut Vec<String>,
)
    requires
        schema.wf(),
        node < schema.nodes@.len(),
        from <= path_len(v@) || from == 1,
    ensures
        texts(final(out)@) == texts(old(out)@) + keys_noted(
            schema@,
            v@,
            node,
            0,
            from as int,
            decimal_views(decimals@),
        ),
    decreases v, 0int, 0int,
{
    let ghost s = schema@;
    let ghost d = decimal_views(decimals@);
    let ghost all = texts(out@) + keys_noted(s, v@, node, 0, from as int, d);
    let n = &schema.nodes[node];
    assert(s.nodes[node as int] == n@);
    let mut k: usize = from;
    let mut j: usize = 0;
    while j < n.keys.len()
        invariant
            j <= n.keys@.len(),
            schema.wf(),
            s == schema@,
            d == decimal_views(decimals@),
            node < schema.nodes@.len(),
            n@ == s.nodes[node as int],
            k <= path_len(v@) || k == 1,
            all == texts(old(out)@) + keys_noted(s, v@, node, 0, from as int, d),
            texts(out@) + keys_noted(s, v@, node, j as int, k as int, d) == all,
        decreases n.keys@.len() - j,
    {
        let ghost had = texts(out@);
        proof {
            assert(n@.keys[j as int] == n.keys@[j as int]@);
            lemma_joined(had, Seq::empty(), Seq::empty());
        }
        let c = match schema.find_child(node, n.keys[j].as_str()) {
            Some(c) => c,
            None => {
                return ;
            },
        };
        assert(s.nodes[c as int] == schema.nodes@[c as int]@);
        assert(node_ok(s.nodes.len() as int, s.types.len() as int, c as int, s.nodes[c as int]));
        let t = match schema.nodes[c].type_id {
            Some(t) => t,
            None => {
                return ;
            },
        };
        match v {
            Cbor::Array(a) => {
                if k >= a.len() {
                    return ;
                }
                proof {
                    assert(value_items(a@)[k as int] == a@[k as int]@);
                    lemma_element_below(*v, k as int);
                    let one = value_noted(s, t, value_items(a@)[k as int], false, d);
                    lemma_joined(had, one, keys_noted(s, v@, node, j + 1, k + 1, d));
                    lemma_joined(one, Seq::empty(), Seq::empty());
                }
                note_value(schema, t, &a[k], false, decimals, out);
                let read = type_to_json(schema, t, &a[k], false, decimals);
                if read.is_err() {
                    return ;
                }
                k = k + 1;
            },
            _ => {
                return ;
            },
        }
        j += 1;
    }
    proof {
        lemma_joined(texts(out@), Seq::empty(), Seq::empty());
    }
}

/// What has no name in the value of a leaf.
pub open spec fn leaf_noted(s: SchemaView, n: NodeView, v: Item, d: Seq<DecimalView>) -> Seq<
    Seq<char>,
> {
    match n.type_id {
        None => Seq::empty(),
        Some(t) => value_noted(s, t, v, false, d),
    }
}

/// Whether the value of a leaf can be read.
#[verifier::opaque]
pub open spec fn leaf_reads(s: SchemaView, n: NodeView, v: Item, d: Seq<DecimalView>) -> bool {
    leaf_decoded(s, n, v, d) is Ok
}

/// What has no name in the values of a leaf-list from the `i`-th on, as far as
/// they can be read.
pub open spec fn leaves_noted(
    s: SchemaView,
    n: NodeView,
    a: Seq<Item>,
    i: int,
    d: Seq<DecimalView>,
) -> Seq<Seq<char>>
    decreases a.len() - i,
{
    if i < 0 || i >= a.len() {
        Seq::empty()
    } else if leaf_reads(s, n, a[i], d) {
        leaf_noted(s, n, a[i], d) + leaves_noted(s, n, a, i + 1, d)
    } else {
        leaf_noted(s, n, a[i], d)
    }
}

/// The node that the `i`-th field of a table means.
pub open spec fn field_node(s: SchemaView, scope: usize, v: Item, i: int) -> Option<usize> {
    match item_number(v->Entries_0[i].0) {
        None => None,
        Some(k) => {
            let sid = signed_low(signed_low(k) + delta_base(s, scope));
            if s.sid_index.contains_key(sid as i64) {
                Some(s.sid_index[sid as i64])
            } else {
                None
            }
        },
    }
}

/// What has no name in the `i`-th field of a table.
#[verifier::opaque]
pub open spec fn field_noted(
    s: SchemaView,
    scope: usize,
    v: Item,
    i: int,
    cf: ContentFormat,
    d: Seq<DecimalView>,
) -> Seq<Seq<char>>
    decreases v, 0int, 0int,
{
    match v {
        Item::Entries(e) => if 0 <= i < e.len() {
            match field_node(s, scope, v, i) {
                None => Seq::empty(),
                Some(child) => node_noted(s, child, e[i].1, cf, d),
            }
        } else {
            Seq::empty()
        },
        _ => Seq::empty(),
    }
}

/// Whether the `i`-th field of a table can be read.
#[verifier::opaque]
pub open spec fn field_reads(
    s: SchemaView,
    scope: usize,
    v: Item,
    i: int,
    cf: ContentFormat,
    d: Seq<DecimalView>,
) -> bool {
    match field_node(s, scope, v, i) {
        None => false,
        Some(child) => node_decoded(s, child, v->Entries_0[i].1, cf, d) is Ok,
    }
}

/// What has no name in the fields of a table from the `i`-th on, as far as
/// they can be read.
pub open spec fn fields_noted(
    s: SchemaView,
    scope: usize,
    v: Item,
    i: int,
    cf: ContentFormat,
    d: Seq<DecimalView>,
) -> Seq<Seq<char>>
    decreases v, 1int, v->Entries_0.len() - i,
{
    if i < 0 || i >= v->Entries_0.len() {
        Seq::empty()
    } else if field_reads(s, scope, v, i, cf, d) {
        field_noted(s, scope, v, i, cf, d) + fields_noted(s, scope, v, i + 1, cf, d)
    } else {
        field_noted(s, scope, v, i, cf, d)
    }
}

/// What has no name in the body of a node.
pub open spec fn body_noted(
    s: SchemaView,
    scope: usize,
    v: Item,
    cf: ContentFormat,
    d: Seq<DecimalView>,
) -> Seq<Seq<char>>
    decreases v, 2int, 0int,
{
    match v {
        Item::Entries(_) => fields_noted(s, scope, v, 0, cf, d),
        _ => Seq::empty(),
    }
}

/// Whether the body of a node can be read.
#[verifier::opaque]
pub open spec fn body_reads(
    s: SchemaView,
    scope: usize,
    v: Item,
    cf: ContentFormat,
    d: Seq<DecimalView>,
) -> bool {
    body_decoded(s, scope, v, cf, d) is Ok
}

/// What has no name in the `i`-th entry of a list.
#[verifier::opaque]
pub open spec fn list_entry_noted(
    s: SchemaView,
    node: usize,
    v: Item,
    i: int,
    cf: ContentFormat,
    d: Seq<DecimalView>,
) -> Seq<Seq<char>>
    decreases v, 0int, 0int,
{
    match v {
        Item::Array(a) => if 0 <= i < a.len() {
            body_noted(s, node, a[i], cf, d)
        } else {
            Seq::empty()
        },
        _ => Seq::empty(),
    }
}

/// What has no name in the entries of a list from the `i`-th on, as far as
/// they can be read.
pub open spec fn entries_noted(
    s: SchemaView,
    node: usize,
    v: Item,
    i: int,
    cf: ContentFormat,
    d: Seq<DecimalView>,
) -> Seq<Seq<char>>
    decreases v, 1int, v->Array_0.len() - i,
{
    if i < 0 || i >= v->Array_0.len() {
        Seq::empty()
    } else if body_reads(s, node, v->Array_0[i], cf, d) {
        list_entry_noted(s, node, v, i, cf, d) + entries_noted(s, node, v, i + 1, cf, d)
    } else {
        list_entry_noted(s, node, v, i, cf, d)
    }
}

/// What has no name in the data of a node, whatever kind of node it is.
pub open spec fn node_noted(
    s: SchemaView,
    node: usize,
    v: Item,
    cf: ContentFormat,
    d: Seq<DecimalView>,
) -> Seq<Seq<char>>
    decreases v, 3int, 0int,
{
    let n = s.nodes[node as int];
    if n.kw == "leaf"@ {
        leaf_noted(s, n, v, d)
    } else if n.kw == "leaf-list"@ {
        match v {
            Item::Array(a) => leaves_noted(s, n, a, 0, d),
            _ => Seq::empty(),
        }
    } else if n.kw == "container"@ || n.kw == "input"@ || n.kw == "output"@ {
        body_noted(s, node, v, cf, d)
    } else if n.kw == "list"@ {
        match v {
            Item::Array(_) => entries_noted(s, node, v, 0, cf, d),
            _ => if is_sequence(cf) {
                body_noted(s, node, v, cf, d)
            } else {
                Seq::empty()
            },
        }
    } else if n.kw == "rpc"@ || n.kw == "action"@ {
        match v {
            Item::Entries(e) => if e.len() > 0 && item_number(e[0].0) is Some {
                let base = match n.sid {
                    Some(sid) => sid as int,
                    None => 0,
                };
                let sid = signed_low(signed_low(item_number(e[0].0)->0) + base);
                match side_of(s, node, sid) {
                    None => Seq::empty(),
                    Some(side) => body_noted(s, child_of(s, node, side)->0, v, cf, d),
                }
            } else {
                Seq::empty()
            },
            _ => Seq::empty(),
        }
    } else {
        Seq::empty()
    }
}

/// One step over the fields of a table.
proof fn lemma_fields_step(
    s: SchemaView,
    scope: usize,
    v: Item,
    i: int,
    cf: ContentFormat,
    d: Seq<DecimalView>,
)
    requires
        0 <= i < v->Entries_0.len(),
    ensures
        fields_noted(s, scope, v, i, cf, d) == if field_reads(s, scope, v, i, cf, d) {
            field_noted(s, scope, v, i, cf, d) + fields_noted(s, scope, v, i + 1, cf, d)
        } else {
            field_noted(s, scope, v, i, cf, d)
        },
{
    reveal(field_noted);
}

/// One step over the entries of a list.
proof fn lemma_entries_step(
    s: SchemaView,
    node: usize,
    v: Item,
    i: int,
    cf: ContentFormat,
    d: Seq<DecimalView>,
)
    requires
        0 <= i < v->Array_0.len(),
    ensures
        entries_noted(s, node, v, i, cf, d) == if body_reads(s, node, v->Array_0[i], cf, d) {
            list_entry_noted(s, node, v, i, cf, d) + entries_noted(s, node, v, i + 1, cf, d)
        } else {
            list_entry_noted(s, node, v, i, cf, d)
        },
{
    reveal(list_entry_noted);
}

/// Appends what has no name in the value of a leaf, and says whether it can be
/// read.
fn note_leaf(
    schema: &Schema,
    n: &Node,
    v: &Cbor,
    decimals: &[DecimalText],
    out: &mut Vec<String>,
) -> (r: bool)
    requires
        schema.wf(),
        n@.type_id matches Some(t) ==> t < schema.types@.len(),
    ensures
        texts(final(out)@) == texts(old(out)@) + leaf_noted(
            schema@,
            n@,
            v@,
            decimal_views(decimals@),
        ),
        r == leaf_reads(schema@, n@, v@, decimal_views(decimals@)),
{
    let read = decode_leaf_value(schema, n, v, decimals);
    proof {
        reveal(leaf_reads);
        lemma_joined(texts(out@), Seq::empty(), Seq::empty());
    }
    if let Some(t) = n.type_id {
        note_value(schema, t, v, false, decimals, out);
    }
    read.is_ok()
}

/// Appends what has no name in the values of a leaf-list.
fn note_leaves(
    schema: &Schema,
    n: &Node,
    a: &Vec<Cbor>,
    decimals: &[DecimalText],
    out: &mut Vec<String>,
)
    requires
        schema.wf(),
        n@.type_id matches Some(t) ==> t < schema.types@.len(),
    ensures
        texts(final(out)@) == texts(old(out)@) + leaves_noted(
            schema@,
            n@,
            value_items(a@),
            0,
            decimal_views(decimals@),
        ),
{
    let ghost s = schema@;
    let ghost d = decimal_views(decimals@);
    let ghost items = value_items(a@);
    let ghost all = texts(out@) + leaves_noted(s, n@, items, 0, d);
    let mut i: usize = 0;
    while i < a.len()
        invariant
            i <= a@.len(),
            schema.wf(),
            n@.type_id matches Some(t) ==> t < schema.types@.len(),
            s == schema@,
            d == decimal_views(decimals@),
            items == value_items(a@),
            items.len() == a@.len(),
            all == texts(old(out)@) + leaves_noted(s, n@, items, 0, d),
            texts(out@) + leaves_noted(s, n@, items, i as int, d) == all,
        decreases a@.len() - i,
    {
        assert(items[i as int] == a@[i as int]@);
        proof {
            lemma_joined(
                texts(out@),
                leaf_noted(s, n@, items[i as int], d),
                leaves_noted(s, n@, items, i + 1, d),
            );
        }
        if !note_leaf(schema, n, &a[i], decimals, out) {
            return ;
        }
        i += 1;
    }
    proof {
        lemma_joined(texts(out@), Seq::empty(), Seq::empty());
    }
}

/// Appends what has no name in the `i`-th field of a table, and says whether
/// it can be read.
fn note_field(
    schema: &Schema,
    scope: NodeId,
    v: &Cbor,
    entries: &Vec<(Cbor, Cbor)>,
    i: usize,
    cf: ContentFormat,
    decimals: &[DecimalText],
    out: &mut Vec<String>,
) -> (r: bool)
    requires
        schema.wf(),
        scope < schema.nodes@.len(),
        *v == Cbor::Entries(*entries),
        i < entries@.len(),
    ensures
        texts(final(out)@) == texts(old(out)@) + field_noted(
            schema@,
            scope,
            v@,
            i as int,
            cf,
            decimal_views(decimals@),
        ),
        r == field_reads(schema@, scope, v@, i as int, cf, decimal_views(decimals@)),
    decreases v, 0int,
{
    broadcast use vstd::std_specs::hash::group_hash_axioms;

    let ghost s = schema@;
    proof {
        assert(entry_items(entries@)[i as int] == (entries@[i as int].0@, entries@[i as int].1@));
        lemma_entry_below(*v, i as int);
        reveal(field_noted);
        reveal(field_reads);
        lemma_joined(texts(out@), Seq::empty(), Seq::empty());
    }
    let base = effective_delta_base(schema, scope);
    let k = match cbor_as_i128(&entries[i].0) {
        Some(k) => k,
        None => {
            return false;
        },
    };
    let sid: i64 = low_i64(low_i64(k) as i128 + base as i128);
    match schema.sid_index.get(&sid) {
        Some(c) => {
            let child: usize = *c;
            assert(s.sid_index.contains_key(sid));
            note_node(schema, child, &entries[i].1, cf, decimals, out);
            let read = decode_node_value(schema, child, &entries[i].1, cf, decimals);
            read.is_ok()
        },
        None => false,
    }
}

/// Appends what has no name in the body of a node.
fn note_body(
    schema: &Schema,
    scope: NodeId,
    v: &Cbor,
    cf: ContentFormat,
    decimals: &[DecimalText],
    out: &mut Vec<String>,
)
    requires
        schema.wf(),
        scope < schema.nodes@.len(),
    ensures
        texts(final(out)@) == texts(old(out)@) + body_noted(
            schema@,
            scope,
            v@,
            cf,
            decimal_views(decimals@),
        ),
    decreases v, 2int,
{
    let ghost s = schema@;
    let ghost d = decimal_views(decimals@);
    let entries = match v {
        Cbor::Entries(entries) => entries,
        _ => {
            proof {
                lemma_joined(texts(out@), Seq::empty(), Seq::empty());
            }
            return ;
        },
    };
    let ghost all = texts(out@) + fields_noted(s, scope, v@, 0, cf, d);
    let mut i: usize = 0;
    while i < entries.len()
        invariant
            i <= entries@.len(),
            schema.wf(),
            scope < schema.nodes@.len(),
            *v == Cbor::Entries(*entries),
            v@ is Entries,
            v@->Entries_0.len() == entries@.len(),
            s == schema@,
            d == decimal_views(decimals@),
            body_noted(s, scope, v@, cf, d) == fields_noted(s, scope, v@, 0, cf, d),
            all == texts(old(out)@) + fields_noted(s, scope, v@, 0, cf, d),
            texts(out@) + fields_noted(s, scope, v@, i as int, cf, d) == all,
        decreases entries@.len() - i,
    {
        proof {
            lemma_fields_step(s, scope, v@, i as int, cf, d);
            lemma_joined(
                texts(out@),
                field_noted(s, scope, v@, i as int, cf, d),
                fields_noted(s, scope, v@, i + 1, cf, d),
            );
        }
        if !note_field(schema, scope, v, entries, i, cf, decimals, out) {
            return ;
        }
        i += 1;
    }
    proof {
        lemma_joined(texts(out@), Seq::empty(), Seq::empty());
    }
}

/// Appends what has no name in the entries of a list.
fn note_entries(
    schema: &Schema,
    node: NodeId,
    v: &Cbor,
    a: &Vec<Cbor>,
    cf: ContentFormat,
    decimals: &[DecimalText],
    out: &mut Vec<String>,
)
    requires
        schema.wf(),
        node < schema.nodes@.len(),
        *v == Cbor::Array(*a),
    ensures
        texts(final(out)@) == texts(old(out)@) + entries_noted(
            schema@,
            node,
            v@,
            0,
            cf,
            decimal_views(decimals@),
        ),
    decreases v, 2int,
{
    let ghost s = schema@;
    let ghost d = decimal_views(decimals@);
    let ghost all = texts(out@) + entries_noted(s, node, v@, 0, cf, d);
    let mut i: usize = 0;
    while i < a.len()
        invariant
            i <= a@.len(),
            schema.wf(),
            node < schema.nodes@.len(),
            *v == Cbor::Array(*a),
            v@ == Item::Array(value_items(a@)),
            s == schema@,
            d == decimal_views(decimals@),
            all == texts(old(out)@) + entries_noted(s, node, v@, 0, cf, d),
            texts(out@) + entries_noted(s, node, v@, i as int, cf, d) == all,
        decreases a@.len() - i,
    {
        proof {
            assert(v@->Array_0[i as int] == a@[i as int]@);
            lemma_element_below(*v, i as int);
            lemma_entries_step(s, node, v@, i as int, cf, d);
            lemma_joined(
                texts(out@),
                list_entry_noted(s, node, v@, i as int, cf, d),
                entries_noted(s, node, v@, i + 1, cf, d),
            );
            reveal(list_entry_noted);
            reveal(body_reads);
        }
        note_body(schema, node, &a[i], cf, decimals, out);
        let read = decode_body(schema, node, &a[i], cf, decimals);
        if read.is_err() {
            return ;
        }
        i += 1;
    }
    proof {
        lemma_joined(texts(out@), Seq::empty(), Seq::empty());
    }
}

/// Appends what has no name in the data of a node.
fn note_node(
    schema: &Schema,
    node: NodeId,
    v: &Cbor,
    cf: ContentFormat,
    decimals: &[DecimalText],
    out: &mut Vec<String>,
)
    requires
        schema.wf(),
        node < schema.nodes@.len(),
    ensures
        texts(final(out)@) == texts(old(out)@) + node_noted(
            schema@,
            node,
            v@,
            cf,
            decimal_views(decimals@),
        ),
    decreases v, 3int,
{
    let ghost s = schema@;
    let n = &schema.nodes[node];
    proof {
        assert(s.nodes[node as int] == n@);
        assert(node_ok(s.nodes.len() as int, s.types.len() as int, node as int, n@));
        lemma_joined(texts(out@), Seq::empty(), Seq::empty());
    }
    let kw = n.kw.as_str();
    if same(kw, "leaf") {
        note_leaf(schema, n, v, decimals, out);
        return ;
    }
    if same(kw, "leaf-list") {
        if let Cbor::Array(a) = v {
            note_leaves(schema, n, a, decimals, out);
        }
        return ;
    }
    if same(kw, "container") || same(kw, "input") || same(kw, "output") {
        note_body(schema, node, v, cf, decimals, out);
        return ;
    }
    if same(kw, "list") {
        if let Cbor::Array(a) = v {
            note_entries(schema, node, v, a, cf, decimals, out);
        } else if cf.is_sequence() {
            note_body(schema, node, v, cf, decimals, out);
        }
        return ;
    }
    if same(kw, "rpc") || same(kw, "action") {
        if let Cbor::Entries(entries) = v {
            if entries.len() == 0 {
                return ;
            }
            assert(entry_items(entries@)[0].0 == entries@[0].0@);
            let base: i64 = match n.sid {
                Some(sid) => sid,
                None => 0,
            };
            if let Some(k) = cbor_as_i128(&entries[0].0) {
                let sid: i64 = low_i64(low_i64(k) as i128 + base as i128);
                if let Some(side) = side_holds(schema, node, "input", sid) {
                    note_body(schema, side, v, cf, decimals, out);
                } else if let Some(side) = side_holds(schema, node, "output", sid) {
                    note_body(schema, side, v, cf, decimals, out);
                }
            }
        }
    }
}

/// What has no name in one entry of a response.
#[verifier::opaque]
pub open spec fn entry_noted(
    s: SchemaView,
    v: Item,
    cf: ContentFormat,
    d: Seq<DecimalView>,
) -> Seq<Seq<char>> {
    if v is Entries && v->Entries_0.len() == 1 {
        let (iid, value) = v->Entries_0[0];
        path_noted(s, iid, d) + match path_decoded(s, iid, d) {
            Ok((node, _)) => if value is Null {
                Seq::empty()
            } else {
                node_noted(s, node, value, cf, d)
            },
            Err(_) => Seq::empty(),
        }
    } else if cf == ContentFormat::Fetch {
        path_noted(s, v, d)
    } else {
        Seq::empty()
    }
}

/// Whether one entry of a response can be read.
#[verifier::opaque]
pub open spec fn entry_reads(
    s: SchemaView,
    v: Item,
    cf: ContentFormat,
    d: Seq<DecimalView>,
) -> bool {
    entry_decoded(s, v, cf, d) is Ok
}

/// What has no name in the entries of a response from the `i`-th on, as far as
/// they can be read.
pub open spec fn response_noted(
    s: SchemaView,
    items: Seq<Item>,
    i: int,
    cf: ContentFormat,
    d: Seq<DecimalView>,
) -> Seq<Seq<char>>
    decreases items.len() - i,
{
    if i < 0 || i >= items.len() {
        Seq::empty()
    } else if entry_reads(s, items[i], cf, d) {
        entry_noted(s, items[i], cf, d) + response_noted(s, items, i + 1, cf, d)
    } else {
        entry_noted(s, items[i], cf, d)
    }
}

/// What has no name in a response: a sequence of entries or a whole tree.
pub open spec fn data_noted(
    s: SchemaView,
    bytes: Seq<u8>,
    cf: ContentFormat,
    d: Seq<DecimalView>,
) -> Seq<Seq<char>> {
    match sequence_in(bytes) {
        Err(_) => Seq::empty(),
        Ok(items) => if is_sequence(cf) {
            response_noted(s, items, 0, cf, d)
        } else if items.len() > 0 {
            body_noted(s, s.root, items[0], cf, d)
        } else {
            Seq::empty()
        },
    }
}

/// Appends what has no name in one entry of a response, and says whether it
/// can be read.
fn note_entry(
    schema: &Schema,
    v: &Cbor,
    cf: ContentFormat,
    decimals: &[DecimalText],
    out: &mut Vec<String>,
) -> (r: bool)
    requires
        schema.wf(),
    ensures
        texts(final(out)@) == texts(old(out)@) + entry_noted(
            schema@,
            v@,
            cf,
            decimal_views(decimals@),
        ),
        r == entry_reads(schema@, v@, cf, decimal_views(decimals@)),
{
    let ghost s = schema@;
    let ghost d = decimal_views(decimals@);
    let ghost start = texts(out@);
    let read = decode_entry(schema, v, cf, decimals);
    proof {
        reveal(entry_noted);
        reveal(entry_reads);
        lemma_joined(start, Seq::empty(), Seq::empty());
    }
    if let Cbor::Entries(entries) = v {
        if entries.len() == 1 {
            assert(entry_items(entries@)[0] == (entries@[0].0@, entries@[0].1@));
            let ghost above = path_noted(s, entries@[0].0@, d);
            proof {
                lemma_joined(above, Seq::empty(), Seq::empty());
            }
            note_path(schema, &entries[0].0, decimals, out);
            if let Ok((node, _)) = decode_iid(schema, &entries[0].0, decimals) {
                proof {
                    lemma_joined(start, above, node_noted(s, node, entries@[0].1@, cf, d));
                }
                match &entries[0].1 {
                    Cbor::Null => {},
                    value => {
                        note_node(schema, node, value, cf, decimals, out);
                    },
                }
            }
            return read.is_ok();
        }
    }
    if cf == ContentFormat::Fetch {
        note_path(schema, v, decimals, out);
    }
    read.is_ok()
}

/// What has no name in a response.
pub fn notices(
    schema: &Schema,
    bytes: &[u8],
    cf: ContentFormat,
    decimals: &[DecimalText],
) -> (r: Vec<String>)
    requires
        schema.wf(),
    ensures
        texts(r@) == data_noted(schema@, bytes@, cf, decimal_views(decimals@)),
{
    let ghost s = schema@;
    let ghost d = decimal_views(decimals@);
    let mut out: Vec<String> = Vec::new();
    let ghost start = texts(out@);
    assert(start =~= Seq::empty());
    let items = match cbor_seq_from_bytes(bytes) {
        Ok(items) => items,
        Err(_) => {
            return out;
        },
    };
    let ghost all = value_items(items@);
    if !cf.is_sequence() {
        if items.len() > 0 {
            assert(all[0] == items@[0]@);
            note_body(schema, schema.root, &items[0], cf, decimals, &mut out);
            assert(texts(out@) =~= body_noted(s, s.root, all[0], cf, d));
        }
        return out;
    }
    let mut i: usize = 0;
    assert(start + response_noted(s, all, 0, cf, d) =~= response_noted(s, all, 0, cf, d));
    while i < items.len()
        invariant
            i <= items@.len(),
            schema.wf(),
            s == schema@,
            d == decimal_views(decimals@),
            all == value_items(items@),
            all.len() == items@.len(),
            data_noted(s, bytes@, cf, d) == response_noted(s, all, 0, cf, d),
            texts(out@) + response_noted(s, all, i as int, cf, d) == response_noted(
                s,
                all,
                0,
                cf,
                d,
            ),
        decreases items@.len() - i,
    {
        proof {
            assert(all[i as int] == items@[i as int]@);
            lemma_joined(
                texts(out@),
                entry_noted(s, all[i as int], cf, d),
                response_noted(s, all, i + 1, cf, d),
            );
        }
        if !note_entry(schema, &items[i], cf, decimals, &mut out) {
            return out;
        }
        i += 1;
    }
    proof {
        lemma_joined(texts(out@), Seq::empty(), Seq::empty());
    }
    out
}

/// The line that is shown for a notice.
pub fn notice_line(message: &str) -> (r: String)
    ensures
        r@ == "WARNING: "@ + message@,
{
    cat("WARNING: ", message)
}

} // verus!
