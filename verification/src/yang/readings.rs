//! Values of leaves, and paths to nodes, in what a device sent: data items to
//! JSON.
use vstd::prelude::*;

use crate::cbor::value::{lemma_element_below, lemma_view, value_items, Item, Value as Cbor};
use crate::json::{json_text, lemma_json_view, to_text, trees, Json, Tree};
use crate::text::{cat, cat3, cat5, decimal, decimal_text, owned};
use crate::yang::base64::{base64_encode, base64_text};
use crate::yang::bits::{bits_decoded, decode_bits};
use crate::yang::choices::{
    decode_identityref, governing, identity_decoded, member_for_cbor, member_names,
    pick_union_member_for_cbor, resolved_builtin, union_member_kinds,
};
use crate::yang::scalars::{
    cbor_as_i128, decimal_decoded, decimal_views, decode_decimal64, decode_enum, describe_cbor,
    enum_decoded, item_described, item_number, low_i64, low_u64, signed_low, tree_of,
    unexpected_message, unexpected_value, CodecError, DecimalText, DecimalView,
};
use crate::yang::schema::{child_of, node_ok, type_ok, Builtin, NodeId, Schema, SchemaView, TypeId};

verus! {

broadcast use {lemma_view, lemma_json_view};

/// A plain data item as a JSON value, whatever its type.
pub open spec fn passed_on(v: Item) -> Result<Tree, Seq<char>> {
    match v {
        Item::Text(t) => Ok(Tree::Text(t)),
        Item::Bool(b) => Ok(Tree::Bool(b)),
        Item::Integer(i) => Ok(Tree::Integer(signed_low(i))),
        Item::Null => Ok(Tree::Null),
        _ => Err(
            "the device sent "@ + item_described(v)
                + ", which there is no defined way to decode here"@,
        ),
    }
}

/// A plain data item as a JSON value, whatever its type.
fn cbor_scalar_passthrough_to_json(v: &Cbor) -> (r: Result<Json, CodecError>)
    ensures
        tree_of(r) == passed_on(v@),
{
    match v {
        Cbor::Text(t) => Ok(Json::String(t.clone())),
        Cbor::Bool(b) => Ok(Json::Bool(*b)),
        Cbor::Integer(i) => Ok(Json::Integer(low_i64(*i) as i128)),
        Cbor::Null => Ok(Json::Null),
        _ => {
            let d = describe_cbor(v);
            Err(
                CodecError(
                    cat3(
                        "the device sent ",
                        d.as_str(),
                        ", which there is no defined way to decode here",
                    ),
                ),
            )
        },
    }
}

/// A data item as a JSON value of a type, by the type that governs it. How
/// decimals are shown is given by `d`.
pub open spec fn value_decoded(
    s: SchemaView,
    id: usize,
    v: Item,
    in_union: bool,
    d: Seq<DecimalView>,
) -> Result<Tree, Seq<char>>
    decreases v, 4int, 0int,
{
    let g = governing(s, id);
    let ty = s.types[g as int];
    if ty.builtin == Builtin::Union {
        match member_for_cbor(s, ty.union_members, v) {
            None => Err(
                "the device sent "@ + item_described(v)
                    + ", which doesn't match any of this field's allowed types ("@ + member_names(
                    s,
                    ty.union_members,
                ) + ") -- the loaded YANG catalog may not match this device's firmware"@,
            ),
            Some(m) => plain_decoded(s, governing(s, m), v, true, d),
        }
    } else {
        plain_decoded(s, g, v, in_union, d)
    }
}

/// A data item as a JSON value of a type that is no union.
pub open spec fn plain_decoded(
    s: SchemaView,
    id: usize,
    v: Item,
    in_union: bool,
    d: Seq<DecimalView>,
) -> Result<Tree, Seq<char>>
    decreases v, 3int, 0int,
{
    let ty = s.types[id as int];
    match ty.builtin {
        Builtin::Int8 | Builtin::Int16 | Builtin::Int32 | Builtin::Uint8 | Builtin::Uint16
        | Builtin::Uint32 => match item_number(v) {
            Some(i) => Ok(Tree::Integer(signed_low(i))),
            None => Err(unexpected_message("a whole number"@, v)),
        },
        Builtin::Int64 => match item_number(v) {
            Some(i) => Ok(Tree::Text(decimal_text(signed_low(i)))),
            None => Err(unexpected_message("a whole number"@, v)),
        },
        Builtin::Uint64 => match item_number(v) {
            Some(i) => Ok(Tree::Text(decimal_text(i % 0x1_0000_0000_0000_0000))),
            None => Err(unexpected_message("a whole number"@, v)),
        },
        Builtin::Boolean => match v {
            Item::Bool(b) => Ok(Tree::Bool(b)),
            _ => Err(unexpected_message("true or false"@, v)),
        },
        Builtin::String => match v {
            Item::Text(t) => Ok(Tree::Text(t)),
            _ => Err(unexpected_message("text"@, v)),
        },
        Builtin::Binary => match v {
            Item::Bytes(b) => Ok(Tree::Text(base64_text(b))),
            _ => Err(unexpected_message("binary data"@, v)),
        },
        Builtin::Empty => Ok(Tree::Array(seq![Tree::Null])),
        Builtin::Decimal64 => decimal_decoded(v, d),
        Builtin::Enumeration => enum_decoded(ty, v, in_union),
        Builtin::Bits => bits_decoded(ty, v, in_union),
        Builtin::Identityref => identity_decoded(s, v, in_union),
        Builtin::InstanceIdentifier => match path_decoded(s, v, d) {
            Ok((_, path)) => Ok(Tree::Text(path)),
            Err(e) => Err(e),
        },
        Builtin::Leafref => passed_on(v),
        Builtin::Union => Err(
            "the device sent "@ + item_described(v)
                + ", which doesn't match any of this field's allowed types ("@ + member_names(
                s,
                ty.union_members,
            ) + ") -- the loaded YANG catalog may not match this device's firmware"@,
        ),
    }
}

/// The SID in the data item of a path.
pub open spec fn path_sid(v: Item) -> Result<int, Seq<char>> {
    match v {
        Item::Integer(i) => Ok(signed_low(i)),
        Item::Array(a) => if a.len() > 0 && item_number(a[0]) is Some {
            Ok(signed_low(item_number(a[0])->0))
        } else {
            Err(
                "the device sent a path identifier (a "@ + decimal_text(a.len() as int)
                    + "-item list) with no valid number in the first position"@,
            )
        },
        _ => Err(
            "the device sent a path identifier that's neither a plain number nor a list starting with one -- got "@
                + item_described(v),
        ),
    }
}

/// The number of data items in the data item of a path.
pub open spec fn path_len(v: Item) -> int {
    match v {
        Item::Array(a) => a.len() as int,
        _ => 1,
    }
}

/// The node that the data item of a path means, and the path as text. Key
/// values are in single quotes.
pub open spec fn path_decoded(s: SchemaView, v: Item, d: Seq<DecimalView>) -> Result<
    (usize, Seq<char>),
    Seq<char>,
>
    decreases v, 2int, 0int,
{
    match path_sid(v) {
        Err(e) => Err(e),
        Ok(sid) => if s.sid_index.contains_key(sid as i64) {
            let node = s.sid_index[sid as i64];
            match path_to(s, v, node, 1, d) {
                Err(e) => Err(e),
                Ok((path, _)) => Ok((node, path)),
            }
        } else {
            Err(
                "the device referenced path identifier #"@ + decimal_text(sid)
                    + ", which isn't in the loaded YANG catalog -- the catalog may not match this device's firmware"@,
            )
        },
    }
}

/// The path to a node, with the key values from the `k`-th item of `v` on for
/// the lists on the way, outermost first; and the place behind the last one
/// that was used.
pub open spec fn path_to(s: SchemaView, v: Item, node: usize, k: int, d: Seq<DecimalView>) -> Result<
    (Seq<char>, int),
    Seq<char>,
>
    decreases v, 1int, node as int,
{
    let n = s.nodes[node as int];
    let above = match n.parent {
        None => Ok((Seq::empty(), k)),
        Some(p) => if p < node {
            path_to(s, v, p, k, d)
        } else {
            arbitrary()
        },
    };
    match above {
        Err(e) => Err(e),
        Ok((text, k1)) => if n.kw == "module"@ {
            Ok((text, k1))
        } else {
            keys_shown(s, v, node, 0, k1, d, text + "/"@ + n.name)
        },
    }
}

/// The JSON value of a key as it stands in a path.
pub open spec fn key_shown(v: Tree) -> Seq<char> {
    match v {
        Tree::Text(t) => t,
        _ => json_text(v),
    }
}

/// A path `text` to a list with the selectors for the keys of the list from
/// the `j`-th on, as far as there are values from the `k`-th item of `v` on.
pub open spec fn keys_shown(
    s: SchemaView,
    v: Item,
    node: usize,
    j: int,
    k: int,
    d: Seq<DecimalView>,
    text: Seq<char>,
) -> Result<(Seq<char>, int), Seq<char>>
    decreases v, 0int, s.nodes[node as int].keys.len() - j,
{
    let n = s.nodes[node as int];
    if j < 0 || j >= n.keys.len() {
        Ok((text, k))
    } else {
        match child_of(s, node, n.keys[j]) {
            None => Err(
                "the list \""@ + n.name + "\" is missing its own key field \""@ + n.keys[j]
                    + "\" in the schema -- this looks like a catalog problem"@,
            ),
            Some(c) => match s.nodes[c as int].type_id {
                None => Err(
                    "the key \""@ + n.keys[j]
                        + "\" has no type in the schema -- this looks like a catalog problem"@,
                ),
                Some(t) => match v {
                    Item::Array(a) => if 0 <= k < a.len() {
                        match value_decoded(s, t, a[k], false, d) {
                            Err(e) => Err(e),
                            Ok(tree) => keys_shown(
                                s,
                                v,
                                node,
                                j + 1,
                                k + 1,
                                d,
                                text + ("["@ + n.keys[j] + "='"@ + key_shown(tree) + "']"@),
                            ),
                        }
                    } else {
                        Ok((text, k))
                    },
                    _ => Ok((text, k)),
                },
            },
        }
    }
}

/// A data item as a JSON value of a type.
pub fn type_to_json(
    schema: &Schema,
    type_id: TypeId,
    value: &Cbor,
    in_union: bool,
    decimals: &[DecimalText],
) -> (r: Result<Json, CodecError>)
    requires
        schema.wf(),
        type_id < schema.types@.len(),
    ensures
        tree_of(r) == value_decoded(schema@, type_id, value@, in_union, decimal_views(decimals@)),
    decreases value, 4int, 0int,
{
    let ghost s = schema@;
    let (b, g) = resolved_builtin(schema, type_id);
    if b == Builtin::Union {
        let ty = &schema.types[g];
        assert(s.types[g as int] == ty@);
        assert(type_ok(s.nodes.len() as int, s.identities.len() as int, g as int, ty@));
        match pick_union_member_for_cbor(schema, ty, value) {
            None => {
                let what = describe_cbor(value);
                let names = union_member_kinds(schema, ty);
                Err(
                    CodecError(
                        cat5(
                            "the device sent ",
                            what.as_str(),
                            ", which doesn't match any of this field's allowed types (",
                            names.as_str(),
                            ") -- the loaded YANG catalog may not match this device's firmware",
                        ),
                    ),
                )
            },
            Some(m) => {
                let (_, n) = resolved_builtin(schema, m);
                plain_to_json(schema, n, value, true, decimals)
            },
        }
    } else {
        plain_to_json(schema, g, value, in_union, decimals)
    }
}

/// A whole number of at most 32 bits as a JSON value.
fn decode_whole(v: &Cbor) -> (r: Result<Json, CodecError>)
    ensures
        tree_of(r) == (match item_number(v@) {
            Some(i) => Ok::<Tree, Seq<char>>(Tree::Integer(signed_low(i))),
            None => Err::<Tree, Seq<char>>(unexpected_message("a whole number"@, v@)),
        }),
{
    match cbor_as_i128(v) {
        Some(i) => Ok(Json::Integer(low_i64(i) as i128)),
        None => Err(unexpected_value("a whole number", v)),
    }
}

/// A data item as a JSON value of a type that is no union.
fn plain_to_json(
    schema: &Schema,
    id: TypeId,
    v: &Cbor,
    in_union: bool,
    decimals: &[DecimalText],
) -> (r: Result<Json, CodecError>)
    requires
        schema.wf(),
        id < schema.types@.len(),
    ensures
        tree_of(r) == plain_decoded(schema@, id, v@, in_union, decimal_views(decimals@)),
    decreases v, 3int, 0int,
{
    let ghost s = schema@;
    let ty = &schema.types[id];
    assert(s.types[id as int] == ty@);
    assert(type_ok(s.nodes.len() as int, s.identities.len() as int, id as int, ty@));
    match ty.builtin {
        Builtin::Int8 => decode_whole(v),
        Builtin::Int16 => decode_whole(v),
        Builtin::Int32 => decode_whole(v),
        Builtin::Uint8 => decode_whole(v),
        Builtin::Uint16 => decode_whole(v),
        Builtin::Uint32 => decode_whole(v),
        Builtin::Int64 => match cbor_as_i128(v) {
            Some(i) => Ok(Json::String(decimal(low_i64(i) as i128))),
            None => Err(unexpected_value("a whole number", v)),
        },
        Builtin::Uint64 => match cbor_as_i128(v) {
            Some(i) => Ok(Json::String(decimal(low_u64(i) as i128))),
            None => Err(unexpected_value("a whole number", v)),
        },
        Builtin::Boolean => match v.as_bool() {
            Some(b) => Ok(Json::Bool(b)),
            None => Err(unexpected_value("true or false", v)),
        },
        Builtin::String => match v.as_text() {
            Some(t) => Ok(Json::String(owned(t))),
            None => Err(unexpected_value("text", v)),
        },
        Builtin::Binary => match v.as_bytes() {
            Some(b) => Ok(Json::String(base64_encode(b))),
            None => Err(unexpected_value("binary data", v)),
        },
        Builtin::Empty => {
            let mut one: Vec<Json> = Vec::new();
            one.push(Json::Null);
            assert(trees(one@) =~= seq![Tree::Null]);
            Ok(Json::Array(one))
        },
        Builtin::Decimal64 => decode_decimal64(v, decimals),
        Builtin::Enumeration => decode_enum(ty, v, in_union),
        Builtin::Bits => decode_bits(ty, v, in_union),
        Builtin::Identityref => decode_identityref(schema, v, in_union),
        Builtin::InstanceIdentifier => match decode_iid(schema, v, decimals) {
            Ok((_, path)) => Ok(Json::String(path)),
            Err(e) => Err(e),
        },
        Builtin::Leafref => cbor_scalar_passthrough_to_json(v),
        Builtin::Union => {
            let what = describe_cbor(v);
            let names = union_member_kinds(schema, ty);
            Err(
                CodecError(
                    cat5(
                        "the device sent ",
                        what.as_str(),
                        ", which doesn't match any of this field's allowed types (",
                        names.as_str(),
                        ") -- the loaded YANG catalog may not match this device's firmware",
                    ),
                ),
            )
        },
    }
}

/// The SID in the data item of a path.
pub(crate) fn split_iid_cbor(v: &Cbor) -> (r: Result<i64, CodecError>)
    ensures
        match r {
            Ok(sid) => path_sid(v@) == Ok::<int, Seq<char>>(sid as int),
            Err(e) => path_sid(v@) == Err::<int, Seq<char>>(e.0@),
        },
{
    match v {
        Cbor::Integer(i) => Ok(low_i64(*i)),
        Cbor::Array(a) => {
            if a.len() > 0 {
                assert(value_items(a@)[0] == a@[0]@);
                if let Some(i) = cbor_as_i128(&a[0]) {
                    return Ok(low_i64(i));
                }
            }
            let n = decimal(a.len() as i128);
            Err(
                CodecError(
                    cat3(
                        "the device sent a path identifier (a ",
                        n.as_str(),
                        "-item list) with no valid number in the first position",
                    ),
                ),
            )
        },
        _ => {
            let d = describe_cbor(v);
            Err(
                CodecError(
                    cat(
                        "the device sent a path identifier that's neither a plain number nor a list starting with one -- got ",
                        d.as_str(),
                    ),
                ),
            )
        },
    }
}

/// The node that the data item of a path means, and the path as text.
pub fn decode_iid(schema: &Schema, value: &Cbor, decimals: &[DecimalText]) -> (r: Result<
    (NodeId, String),
    CodecError,
>)
    requires
        schema.wf(),
    ensures
        match r {
            Ok((n, path)) => path_decoded(schema@, value@, decimal_views(decimals@)) == Ok::<
                (usize, Seq<char>),
                Seq<char>,
            >((n, path@)) && n < schema.nodes@.len(),
            Err(e) => path_decoded(schema@, value@, decimal_views(decimals@)) == Err::<
                (usize, Seq<char>),
                Seq<char>,
            >(e.0@),
        },
    decreases value, 2int, 0int,
{
    broadcast use vstd::std_specs::hash::group_hash_axioms;

    let sid = split_iid_cbor(value)?;
    let node: usize = match schema.sid_index.get(&sid) {
        Some(n) => *n,
        None => {
            let n = decimal(sid as i128);
            return Err(
                CodecError(
                    cat3(
                        "the device referenced path identifier #",
                        n.as_str(),
                        ", which isn't in the loaded YANG catalog -- the catalog may not match this device's firmware",
                    ),
                ),
            );
        },
    };
    assert(schema@.sid_index.contains_key(sid));
    let mut k: usize = 1;
    let path = node_path_string(schema, value, node, &mut k, decimals)?;
    Ok((node, path))
}

/// The path to a node, with key values for the lists on the way.
pub(crate) fn node_path_string(
    schema: &Schema,
    v: &Cbor,
    node: NodeId,
    k: &mut usize,
    decimals: &[DecimalText],
) -> (r: Result<String, CodecError>)
    requires
        schema.wf(),
        node < schema.nodes@.len(),
        *old(k) <= path_len(v@) || *old(k) == 1,
    ensures
        match r {
            Ok(path) => {
                &&& path_to(schema@, v@, node, *old(k) as int, decimal_views(decimals@)) == Ok::<
                    (Seq<char>, int),
                    Seq<char>,
                >((path@, *final(k) as int))
                &&& *final(k) <= path_len(v@) || *final(k) == 1
            },
            Err(e) => path_to(schema@, v@, node, *old(k) as int, decimal_views(decimals@)) == Err::<
                (Seq<char>, int),
                Seq<char>,
            >(e.0@),
        },
    decreases v, 1int, node as int,
{
    let ghost s = schema@;
    let n = &schema.nodes[node];
    assert(s.nodes[node as int] == n@);
    assert(node_ok(s.nodes.len() as int, s.types.len() as int, node as int, n@));
    let above = match n.parent {
        None => String::new(),
        Some(p) => node_path_string(schema, v, p, k, decimals)?,
    };
    if crate::text::same(n.kw.as_str(), "module") {
        return Ok(above);
    }
    let start = cat3(above.as_str(), "/", n.name.as_str());
    show_keys(schema, v, node, k, decimals, start)
}

/// A path to a list with the selectors for its keys, as far as there are
/// values.
fn show_keys(
    schema: &Schema,
    v: &Cbor,
    node: NodeId,
    k: &mut usize,
    decimals: &[DecimalText],
    start: String,
) -> (r: Result<String, CodecError>)
    requires
        schema.wf(),
        node < schema.nodes@.len(),
        *old(k) <= path_len(v@) || *old(k) == 1,
    ensures
        match r {
            Ok(path) => {
                &&& keys_shown(
                    schema@,
                    v@,
                    node,
                    0,
                    *old(k) as int,
                    decimal_views(decimals@),
                    start@,
                ) == Ok::<(Seq<char>, int), Seq<char>>((path@, *final(k) as int))
                &&& *final(k) <= path_len(v@) || *final(k) == 1
            },
            Err(e) => keys_shown(
                schema@,
                v@,
                node,
                0,
                *old(k) as int,
                decimal_views(decimals@),
                start@,
            ) == Err::<(Seq<char>, int), Seq<char>>(e.0@),
        },
    decreases v, 0int, 0int,
{
    let ghost s = schema@;
    let ghost d = decimal_views(decimals@);
    let n = &schema.nodes[node];
    assert(s.nodes[node as int] == n@);
    let ghost whole = keys_shown(s, v@, node, 0, *k as int, d, start@);
    let mut text = start;
    let mut j: usize = 0;
    while j < n.keys.len()
        invariant
            j <= n.keys@.len(),
            schema.wf(),
            s == schema@,
            d == decimal_views(decimals@),
            node < schema.nodes@.len(),
            n@ == s.nodes[node as int],
            *k <= path_len(v@) || *k == 1,
            whole == keys_shown(s, v@, node, 0, *old(k) as int, d, start@),
            whole == keys_shown(s, v@, node, j as int, *k as int, d, text@),
        decreases n.keys@.len() - j,
    {
        let key = n.keys[j].as_str();
        assert(n@.keys[j as int] == n.keys@[j as int]@);
        let c = match schema.find_child(node, key) {
            Some(c) => c,
            None => {
                return Err(
                    CodecError(
                        cat5(
                            "the list \"",
                            n.name.as_str(),
                            "\" is missing its own key field \"",
                            key,
                            "\" in the schema -- this looks like a catalog problem",
                        ),
                    ),
                );
            },
        };
        assert(s.nodes[c as int] == schema.nodes@[c as int]@);
        assert(node_ok(s.nodes.len() as int, s.types.len() as int, c as int, s.nodes[c as int]));
        let t = match schema.nodes[c].type_id {
            Some(t) => t,
            None => {
                return Err(
                    CodecError(
                        cat3(
                            "the key \"",
                            key,
                            "\" has no type in the schema -- this looks like a catalog problem",
                        ),
                    ),
                );
            },
        };
        match v {
            Cbor::Array(a) => {
                if *k >= a.len() {
                    return Ok(text);
                }
                assert(value_items(a@)[*k as int] == a@[*k as int]@);
                proof {
                    lemma_element_below(*v, *k as int);
                }
                let tree = type_to_json(schema, t, &a[*k], false, decimals)?;
                let shown = match tree.as_str() {
                    Some(t) => owned(t),
                    None => to_text(&tree),
                };
                let one = cat5("[", key, "='", shown.as_str(), "']");
                text.append(one.as_str());
                *k = *k + 1;
            },
            _ => {
                return Ok(text);
            },
        }
        j += 1;
    }
    Ok(text)
}

} // verus!
