//! Values of leaves, and paths to nodes: JSON to data items and back.
use vstd::prelude::*;

use crate::cbor::value::{
    entry_items, lemma_element_below, lemma_view, value_items, Item, Value as Cbor,
};
use crate::json::{json_text, lemma_json_view, lemma_member_below, to_text, trees, Json, Tree};
use crate::text::{
    cat, cat3, cat4, cat5, cat7, chars_of, decimal, decimal_text, find_text, index_from, index_of,
    lemma_index_from, number_in, owned, parse_number, position_of, quoted, quoted_text, same,
    space_end, space_start, text_between, texts, trim, trimmed,
};
use crate::yang::base64::{base64_bytes, base64_decode};
use crate::yang::bits::{bits_encoded, encode_bits};
use crate::yang::choices::{
    encode_identityref, governing, governing_builtin, identity_encoded, is_empty_value,
    is_null_list, member_for_json, member_names, pick_union_member_for_json, resolved_builtin,
    union_member_kinds,
};
use crate::yang::scalars::{
    allowed, decimal_encoded, encode_decimal64, encode_enum, encode_text, enum_encoded, in_ranges,
    item_of, json_number_to_i128, lies_within, low_i64, range_description, ranges_described,
    signed_low, wide_described, wide_description, within,
    text_checked, tree_of, verdicts, whole_number, CodecError,
};
use crate::yang::schema::{
    child_of, node_ok, type_ok, Builtin, NodeId, Schema, SchemaView, TypeDef, TypeId, TypeView,
};

verus! {

broadcast use {lemma_view, lemma_json_view};

/// A JSON value as a data item, whatever its type: as it is. A number that is
/// no whole number goes by its text.
pub open spec fn generic_item(v: Tree) -> Item
    decreases v,
{
    match v {
        Tree::Null => Item::Null,
        Tree::Bool(b) => Item::Bool(b),
        Tree::Integer(i) => if i64::MIN <= i <= u64::MAX {
            Item::Integer(i)
        } else {
            Item::Text(decimal_text(i))
        },
        Tree::Float(t) => Item::Text(t),
        Tree::Text(t) => Item::Text(t),
        Tree::Array(a) => Item::Array(
            Seq::new(
                a.len(),
                |i: int|
                    if 0 <= i < a.len() {
                        generic_item(a[i])
                    } else {
                        Item::Null
                    },
            ),
        ),
        Tree::Object(m) => Item::Entries(
            Seq::new(
                m.len(),
                |i: int|
                    if 0 <= i < m.len() {
                        (Item::Text(m[i].0), generic_item(m[i].1))
                    } else {
                        (Item::Null, Item::Null)
                    },
            ),
        ),
    }
}

/// A JSON value as a data item, whatever its type.
pub fn json_to_cbor_generic(v: &Json) -> (r: Cbor)
    ensures
        r@ == generic_item(v@),
    decreases v,
{
    match v {
        Json::Null => Cbor::Null,
        Json::Bool(b) => Cbor::Bool(*b),
        Json::Integer(i) => if i64::MIN as i128 <= *i && *i <= u64::MAX as i128 {
            Cbor::Integer(*i)
        } else {
            Cbor::Text(decimal(*i))
        },
        Json::Float(t) => Cbor::Text(t.clone()),
        Json::String(t) => Cbor::Text(t.clone()),
        Json::Array(a) => {
            let mut out: Vec<Cbor> = Vec::new();
            let mut i: usize = 0;
            while i < a.len()
                invariant
                    i <= a@.len(),
                    *v == Json::Array(*a),
                    out@.len() == i,
                    forall|k: int| 0 <= k < i ==> (#[trigger] out@[k])@ == generic_item(a@[k]@),
                decreases a@.len() - i,
            {
                proof {
                    crate::json::lemma_element_below(*v, i as int);
                }
                out.push(json_to_cbor_generic(&a[i]));
                i += 1;
            }
            assert(value_items(out@) =~= generic_item(v@)->Array_0);
            Cbor::Array(out)
        },
        Json::Object(m) => {
            let mut out: Vec<(Cbor, Cbor)> = Vec::new();
            let mut i: usize = 0;
            while i < m.len()
                invariant
                    i <= m@.len(),
                    *v == Json::Object(*m),
                    out@.len() == i,
                    forall|k: int|
                        0 <= k < i ==> (#[trigger] out@[k]).0@ == Item::Text(m@[k].0@)
                            && out@[k].1@ == generic_item(m@[k].1@),
                decreases m@.len() - i,
            {
                proof {
                    lemma_member_below(*v, i as int);
                }
                let value = json_to_cbor_generic(&m[i].1);
                out.push((Cbor::Text(m[i].0.clone()), value));
                i += 1;
            }
            assert(entry_items(out@) =~= generic_item(v@)->Entries_0);
            Cbor::Entries(out)
        },
    }
}

/// The parts of a path between slashes that stand in no brackets, from `i`
/// on, in a part that began at `start`. Empty parts are left out.
pub open spec fn parts_from(path: Seq<char>, i: int, depth: int, start: int) -> Seq<Seq<char>>
    decreases path.len() - i,
{
    if i >= path.len() {
        if start < path.len() {
            seq![path.subrange(start, path.len() as int)]
        } else {
            Seq::empty()
        }
    } else if path[i] == '[' {
        parts_from(path, i + 1, depth + 1, start)
    } else if path[i] == ']' {
        parts_from(path, i + 1, depth - 1, start)
    } else if path[i] == '/' && depth == 0 {
        (if start < i {
            seq![path.subrange(start, i)]
        } else {
            Seq::empty()
        }) + parts_from(path, i + 1, depth, i + 1)
    } else {
        parts_from(path, i + 1, depth, start)
    }
}

/// The segments of a path.
pub open spec fn path_parts(path: Seq<char>) -> Seq<Seq<char>> {
    parts_from(path, 0, 0, 0)
}

/// The segments of a path.
fn split_outside_brackets(path: &str) -> (r: Vec<String>)
    ensures
        texts(r@) == path_parts(path@),
{
    let chars = chars_of(path);
    let n: usize = chars.len();
    let mut out: Vec<String> = Vec::new();
    let mut depth: i128 = 0;
    let mut start: usize = 0;
    let mut i: usize = 0;
    assert(texts(out@) + parts_from(path@, 0, 0, 0) =~= path_parts(path@));
    while i < n
        invariant
            start <= i <= n,
            n == chars@.len(),
            chars@ == path@,
            -(i as int) <= depth <= i,
            texts(out@) + parts_from(path@, i as int, depth as int, start as int) == path_parts(
                path@,
            ),
        decreases n - i,
    {
        let c = chars[i];
        let ghost had = texts(out@);
        let ghost rest = parts_from(path@, i as int, depth as int, start as int);
        if c == '[' {
            depth += 1;
        } else if c == ']' {
            depth -= 1;
        } else if c == '/' && depth == 0 {
            if start < i {
                let part = text_between(chars.as_slice(), start, i);
                out.push(part);
                assert(texts(out@) =~= had.push(part@));
            }
            assert(texts(out@) + parts_from(path@, i + 1, 0, i + 1) =~= had + rest);
            start = i + 1;
        }
        i += 1;
    }
    let ghost had = texts(out@);
    if start < n {
        let part = text_between(chars.as_slice(), start, n);
        out.push(part);
        assert(texts(out@) =~= had.push(part@));
    }
    assert(texts(out@) =~= had + parts_from(path@, n as int, depth as int, start as int));
    out
}

/// A text without the quotes around it.
pub open spec fn unquoted(v: Seq<char>) -> Seq<char> {
    if v.len() >= 2 && ((v[0] == '\'' && v.last() == '\'') || (v[0] == '"' && v.last() == '"')) {
        v.subrange(1, v.len() - 1)
    } else {
        v
    }
}

/// The selectors in a segment from `from` on: each a key and its value.
pub open spec fn selectors_from(seg: Seq<char>, from: int) -> Result<
    Seq<(Seq<char>, Seq<char>)>,
    Seq<char>,
>
    decreases seg.len() - from,
{
    let start = index_from(seg, '[', from);
    if start < from || start >= seg.len() {
        Ok(Seq::empty())
    } else {
        let end = index_from(seg, ']', start);
        if end < start || end >= seg.len() {
            Err(
                "the path segment "@ + quoted_text(seg)
                    + " has an opening '[' with no matching ']'"@,
            )
        } else {
            let inner = seg.subrange(start + 1, end);
            let eq = index_from(inner, '=', 0);
            if eq >= inner.len() {
                Err(
                    quoted_text(inner) + " in "@ + quoted_text(seg)
                        + " isn't a key selector -- it should look like key='value'"@,
                )
            } else {
                let key = inner.subrange(0, eq);
                let value = unquoted(trimmed(inner.subrange(eq + 1, inner.len() as int)));
                match selectors_from(seg, end + 1) {
                    Err(e) => Err(e),
                    Ok(rest) => Ok(seq![(key, value)] + rest),
                }
            }
        }
    }
}

/// The name in a segment: what stands before the first bracket.
pub open spec fn segment_name(seg: Seq<char>) -> Seq<char> {
    seg.subrange(0, index_from(seg, '[', 0))
}

/// One segment of a path, taken apart.
struct IidSegment {
    name: String,
    keys: Vec<(String, String)>,
}

/// The keys with their values.
spec fn key_views(keys: Seq<(String, String)>) -> Seq<(Seq<char>, Seq<char>)> {
    keys.map_values(|k: (String, String)| (k.0@, k.1@))
}

/// Takes a segment apart.
fn parse_iid_segment(seg: &str) -> (r: Result<IidSegment, CodecError>)
    ensures
        match r {
            Ok(p) => p.name@ == segment_name(seg@) && selectors_from(
                seg@,
                index_from(seg@, '[', 0),
            ) == Ok::<Seq<(Seq<char>, Seq<char>)>, Seq<char>>(key_views(p.keys@)),
            Err(e) => selectors_from(seg@, index_from(seg@, '[', 0)) == Err::<
                Seq<(Seq<char>, Seq<char>)>,
                Seq<char>,
            >(e.0@),
        },
{
    let chars = chars_of(seg);
    let n: usize = chars.len();
    let first = index_of(chars.as_slice(), '[', 0);
    let name = text_between(chars.as_slice(), 0, first);
    let mut keys: Vec<(String, String)> = Vec::new();
    let mut from: usize = first;
    let ghost mut failed = false;
    let ghost whole = selectors_from(seg@, first as int);
    loop
        invariant
            first <= from <= n,
            n == chars@.len(),
            chars@ == seg@,
            name@ == segment_name(seg@),
            first == index_from(seg@, '[', 0),
            whole == selectors_from(seg@, first as int),
            whole == behind(key_views(keys@), selectors_from(seg@, from as int)),
        decreases n - from,
    {
        let start = index_of(chars.as_slice(), '[', from);
        if start >= n {
            assert(key_views(keys@) + Seq::<(Seq<char>, Seq<char>)>::empty() =~= key_views(keys@));
            return Ok(IidSegment { name, keys });
        }
        let end = index_of(chars.as_slice(), ']', start);
        if end >= n {
            let q = quoted(seg);
            return Err(
                CodecError(
                    cat3(
                        "the path segment ",
                        q.as_str(),
                        " has an opening '[' with no matching ']'",
                    ),
                ),
            );
        }
        let inner_text = text_between(chars.as_slice(), start + 1, end);
        let inner = chars_of(inner_text.as_str());
        let m: usize = inner.len();
        let eq = index_of(inner.as_slice(), '=', 0);
        if eq >= m {
            let i = quoted(inner_text.as_str());
            let q = quoted(seg);
            return Err(
                CodecError(
                    cat4(
                        i.as_str(),
                        " in ",
                        q.as_str(),
                        " isn't a key selector -- it should look like key='value'",
                    ),
                ),
            );
        }
        let key = text_between(inner.as_slice(), 0, eq);
        let raw = text_between(inner.as_slice(), eq + 1, m);
        let clean = trim(raw.as_str());
        let value = strip_quotes(clean.as_str());
        let ghost had = key_views(keys@);
        let ghost rest = selectors_from(seg@, end + 1);
        keys.push((key, value));
        proof {
            assert(key_views(keys@) =~= had.push((key@, value@)));
            match rest {
                Ok(more) => {
                    assert(had + (seq![(key@, value@)] + more) =~= had.push((key@, value@)) + more);
                },
                Err(_) => {},
            }
        }
        from = end + 1;
    }
}

/// Some selectors with more behind them, if those are selectors.
spec fn behind(
    a: Seq<(Seq<char>, Seq<char>)>,
    b: Result<Seq<(Seq<char>, Seq<char>)>, Seq<char>>,
) -> Result<Seq<(Seq<char>, Seq<char>)>, Seq<char>> {
    match b {
        Ok(more) => Ok(a + more),
        Err(e) => Err(e),
    }
}

/// A text without the quotes around it.
fn strip_quotes(v: &str) -> (r: String)
    ensures
        r@ == unquoted(v@),
{
    let chars = chars_of(v);
    let n: usize = chars.len();
    if n >= 2 && ((chars[0] == '\'' && chars[n - 1] == '\'') || (chars[0] == '"' && chars[n - 1]
        == '"')) {
        text_between(chars.as_slice(), 1, n - 1)
    } else {
        owned(v)
    }
}

/// The JSON value that the text of a key stands for.
pub open spec fn key_tree(s: SchemaView, type_id: usize, raw: Seq<char>) -> Result<Tree, Seq<char>> {
    let b = governing_builtin(s, type_id);
    if b == Builtin::Int8 || b == Builtin::Int16 || b == Builtin::Int32 {
        match number_in(raw, i64::MIN as int, i64::MAX as int) {
            Some(n) => Ok(Tree::Integer(n)),
            None => Err(
                quoted_text(raw) + " is not a whole number, but this list key needs one"@,
            ),
        }
    } else if b == Builtin::Uint8 || b == Builtin::Uint16 || b == Builtin::Uint32 {
        match number_in(raw, 0, u64::MAX as int) {
            Some(n) => Ok(Tree::Integer(n)),
            None => Err(
                quoted_text(raw) + " is not a whole number, but this list key needs one"@,
            ),
        }
    } else if b == Builtin::Boolean {
        if raw == "true"@ {
            Ok(Tree::Bool(true))
        } else if raw == "false"@ {
            Ok(Tree::Bool(false))
        } else {
            Err(
                quoted_text(raw)
                    + " is not \"true\" or \"false\", but this list key needs one of those"@,
            )
        }
    } else if b == Builtin::Empty && raw == "[null]"@ {
        Ok(Tree::Array(seq![Tree::Null]))
    } else {
        Ok(Tree::Text(raw))
    }
}

/// The JSON value that the text of a key stands for.
fn convert_iid_key_value(schema: &Schema, type_id: TypeId, raw: &str) -> (r: Result<
    Json,
    CodecError,
>)
    requires
        schema.wf(),
        type_id < schema.types@.len(),
    ensures
        tree_of(r) == key_tree(schema@, type_id, raw@),
{
    let (b, _) = resolved_builtin(schema, type_id);
    if b == Builtin::Int8 || b == Builtin::Int16 || b == Builtin::Int32 {
        match parse_number(raw, i64::MIN as i128, i64::MAX as i128) {
            Some(n) => Ok(Json::Integer(n)),
            None => {
                let q = quoted(raw);
                Err(
                    CodecError(
                        cat(q.as_str(), " is not a whole number, but this list key needs one"),
                    ),
                )
            },
        }
    } else if b == Builtin::Uint8 || b == Builtin::Uint16 || b == Builtin::Uint32 {
        match parse_number(raw, 0, u64::MAX as i128) {
            Some(n) => Ok(Json::Integer(n)),
            None => {
                let q = quoted(raw);
                Err(
                    CodecError(
                        cat(q.as_str(), " is not a whole number, but this list key needs one"),
                    ),
                )
            },
        }
    } else if b == Builtin::Boolean {
        if same(raw, "true") {
            Ok(Json::Bool(true))
        } else if same(raw, "false") {
            Ok(Json::Bool(false))
        } else {
            let q = quoted(raw);
            Err(
                CodecError(
                    cat(
                        q.as_str(),
                        " is not \"true\" or \"false\", but this list key needs one of those",
                    ),
                ),
            )
        }
    } else if b == Builtin::Empty && same(raw, "[null]") {
        let mut one: Vec<Json> = Vec::new();
        one.push(Json::Null);
        assert(trees(one@) =~= seq![Tree::Null]);
        Ok(Json::Array(one))
    } else {
        Ok(Json::String(owned(raw)))
    }
}

/// The length of a text; of another value nothing.
pub open spec fn text_size(v: Tree) -> nat {
    match v {
        Tree::Text(t) => t.len(),
        _ => 0,
    }
}

/// A value of a whole-number type of at most 32 bits as a data item.
pub open spec fn whole_encoded(ty: TypeView, v: Tree) -> Result<Item, Seq<char>> {
    match whole_number(v) {
        None => Err("expected a whole number here, got "@ + json_text(v)),
        Some(n) => if allowed(n, ty.ranges) {
            Ok(Item::Integer(n))
        } else {
            Err(
                decimal_text(n) + " is not allowed here -- the value must be "@ + ranges_described(
                    ty.ranges,
                ),
            )
        },
    }
}

/// The number of a 64-bit integer type that a text stands for.
pub open spec fn wide_number(t: Seq<char>, signed: bool) -> Result<int, Seq<char>> {
    if signed {
        match number_in(t, i64::MIN as int, i64::MAX as int) {
            Some(n) => Ok(n),
            None => Err(quoted_text(t) + " is not a valid whole number"@),
        }
    } else {
        match number_in(t, 0, u64::MAX as int) {
            Some(n) => Ok(n),
            None => Err(quoted_text(t) + " is not a valid non-negative whole number"@),
        }
    }
}

/// A value of a 64-bit integer type as a data item: JSON has it as text, so
/// that no digit is lost.
pub open spec fn wide_encoded(ty: TypeView, v: Tree, signed: bool) -> Result<Item, Seq<char>> {
    match v {
        Tree::Text(t) => match wide_number(t, signed) {
            Err(e) => Err(e),
            Ok(n) => if within(n, ty.ranges) {
                Ok(Item::Integer(n))
            } else {
                Err(
                    decimal_text(n) + " is not allowed here -- the value must be "@
                        + wide_described(ty.ranges),
                )
            },
        },
        _ => Err(
            "expected a large whole number written as quoted text (e.g. \"12345678901\"), got "@
                + json_text(v),
        ),
    }
}

/// A value of a binary type as a data item.
pub open spec fn binary_encoded(ty: TypeView, v: Tree) -> Result<Item, Seq<char>> {
    match v {
        Tree::Text(t) => match base64_bytes(t) {
            None => Err(quoted_text(t) + " is not valid base64-encoded text"@),
            Some(bytes) => {
                let len = signed_low(bytes.len() as int);
                if allowed(len, ty.ranges) {
                    Ok(Item::Bytes(bytes))
                } else {
                    Err(
                        "this value is "@ + decimal_text(len)
                            + " byte(s) long once decoded, but must be "@ + ranges_described(
                            ty.ranges,
                        ),
                    )
                }
            },
        },
        _ => Err("expected base64-encoded text (for binary data), got "@ + json_text(v)),
    }
}

/// A value of a type as a data item, by the type that governs it. In a union,
/// enumerations, bits and identities are tagged, so that they can be told
/// apart.
pub open spec fn value_encoded(s: SchemaView, id: usize, v: Tree, in_union: bool) -> Result<
    Item,
    Seq<char>,
>
    decreases text_size(v), 4int, 0int,
{
    let g = governing(s, id);
    let ty = s.types[g as int];
    if ty.builtin == Builtin::Union {
        match member_for_json(s, ty.union_members, v) {
            None => Err(
                json_text(v) + " does not match any of the allowed types here: "@ + member_names(
                    s,
                    ty.union_members,
                ),
            ),
            Some(m) => plain_encoded(s, governing(s, m), v, true),
        }
    } else {
        plain_encoded(s, g, v, in_union)
    }
}

/// A value of a type that is no union as a data item.
pub open spec fn plain_encoded(s: SchemaView, id: usize, v: Tree, in_union: bool) -> Result<
    Item,
    Seq<char>,
>
    decreases text_size(v), 3int, 0int,
{
    let ty = s.types[id as int];
    match ty.builtin {
        Builtin::Int8 | Builtin::Int16 | Builtin::Int32 | Builtin::Uint8 | Builtin::Uint16
        | Builtin::Uint32 => whole_encoded(ty, v),
        Builtin::Int64 => wide_encoded(ty, v, true),
        Builtin::Uint64 => wide_encoded(ty, v, false),
        Builtin::Boolean => match v {
            Tree::Bool(b) => Ok(Item::Bool(b)),
            _ => Err("expected true or false, got "@ + json_text(v)),
        },
        Builtin::String => match v {
            Tree::Text(t) => text_checked(ty, t, verdicts(ty.patterns, t)),
            _ => Err("expected text here, got "@ + json_text(v)),
        },
        Builtin::Binary => binary_encoded(ty, v),
        Builtin::Empty => if is_null_list(v) {
            Ok(Item::Null)
        } else {
            Err(
                "this field has no value of its own -- it's just present or absent, so it must be written as [null] (a one-item list containing null), got "@
                    + json_text(v),
            )
        },
        Builtin::Decimal64 => decimal_encoded(ty, v),
        Builtin::Enumeration => enum_encoded(ty, v, in_union),
        Builtin::Bits => bits_encoded(ty, v, in_union),
        Builtin::Identityref => identity_encoded(s, ty, v, in_union),
        Builtin::InstanceIdentifier => match v {
            Tree::Text(t) => match path_encoded(s, t) {
                Ok((_, item)) => Ok(item),
                Err(e) => Err(e),
            },
            _ => Err(
                "expected a path (as text) pointing to another node, got "@ + json_text(v),
            ),
        },
        Builtin::Leafref => Ok(generic_item(v)),
        Builtin::Union => Err(
            json_text(v) + " does not match any of the allowed types here: "@ + member_names(
                s,
                ty.union_members,
            ),
        ),
    }
}

/// The value of a key among the selectors, from `from` on.
pub open spec fn selected(
    keys: Seq<(Seq<char>, Seq<char>)>,
    name: Seq<char>,
    from: int,
) -> Option<Seq<char>>
    decreases keys.len() - from,
{
    if from >= keys.len() {
        None
    } else if keys[from].0 == name {
        Some(keys[from].1)
    } else {
        selected(keys, name, from + 1)
    }
}

/// The data items for the keys of a list, from the `j`-th key on, behind
/// `seen`: those that are selected, in the order of the schema.
pub open spec fn keys_encoded(
    s: SchemaView,
    path: Seq<char>,
    name: Seq<char>,
    list: usize,
    keys: Seq<(Seq<char>, Seq<char>)>,
    j: int,
    seen: Seq<Item>,
) -> Result<Seq<Item>, Seq<char>>
    decreases path.len(), 0int, s.nodes[list as int].keys.len() - j,
{
    let wanted = s.nodes[list as int].keys;
    if j < 0 || j >= wanted.len() {
        Ok(seen)
    } else {
        match selected(keys, wanted[j], 0) {
            None => keys_encoded(s, path, name, list, keys, j + 1, seen),
            Some(raw) => match child_of(s, list, wanted[j]) {
                None => Err(
                    "the key \""@ + wanted[j] + "\" of \""@ + name
                        + "\" doesn't exist in this device's YANG model ("@ + quoted_text(path)
                        + ")"@,
                ),
                Some(c) => match s.nodes[c as int].type_id {
                    None => Err(
                        "the key \""@ + wanted[j]
                            + "\" has no type in the schema -- this looks like a catalog problem"@,
                    ),
                    Some(t) => match key_tree(s, t, raw) {
                        Err(e) => Err(e),
                        Ok(v) => if text_size(v) < path.len() {
                            match value_encoded(s, t, v, false) {
                                Err(e) => Err(e),
                                Ok(item) => keys_encoded(
                                    s,
                                    path,
                                    name,
                                    list,
                                    keys,
                                    j + 1,
                                    seen.push(item),
                                ),
                            }
                        } else {
                            arbitrary()
                        },
                    },
                },
            },
        }
    }
}

/// The first selector, from `from` on, that is for no key of a list.
pub open spec fn stray_selector(
    keys: Seq<(Seq<char>, Seq<char>)>,
    wanted: Seq<Seq<char>>,
    from: int,
) -> Option<Seq<char>>
    decreases keys.len() - from,
{
    if from >= keys.len() {
        None
    } else if find_text(wanted, keys[from].0, 0) is None {
        Some(keys[from].0)
    } else {
        stray_selector(keys, wanted, from + 1)
    }
}

/// The keys that one segment of a path selects in `child`.
pub open spec fn segment_encoded(
    s: SchemaView,
    path: Seq<char>,
    name: Seq<char>,
    child: usize,
    keys: Seq<(Seq<char>, Seq<char>)>,
) -> Result<Seq<Item>, Seq<char>>
    decreases path.len(), 1int, 0int,
{
    let wanted = s.nodes[child as int].keys;
    if wanted.len() > 0 {
        match keys_encoded(s, path, name, child, keys, 0, Seq::empty()) {
            Err(e) => Err(e),
            Ok(items) => match stray_selector(keys, wanted, 0) {
                Some(k) => Err(
                    "\""@ + k + "\" is not a key of the list at "@ + quoted_text(path)
                        + " -- check the key name"@,
                ),
                None => Ok(items),
            },
        }
    } else if keys.len() > 0 {
        Err(
            "\""@ + name + "\" is not a list, so it can't take key='value' selectors like in "@
                + quoted_text(path),
        )
    } else {
        Ok(Seq::empty())
    }
}

/// A path as a data item: the SID of its node, behind it the keys of all
/// lists on the way.
pub open spec fn path_item(sid: int, keys: Seq<Item>) -> Item {
    if keys.len() == 0 {
        Item::Integer(sid)
    } else {
        Item::Array(seq![Item::Integer(sid)] + keys)
    }
}

/// Where the segments of a path from the `i`-th on lead from `cur`, with the
/// SID of `cur` and the keys so far.
pub open spec fn path_walked(
    s: SchemaView,
    path: Seq<char>,
    parts: Seq<Seq<char>>,
    i: int,
    cur: usize,
    sid: int,
    seen: Seq<Item>,
) -> Result<(usize, Item), Seq<char>>
    decreases path.len(), 2int, parts.len() - i,
{
    if i < 0 || i >= parts.len() {
        Ok((cur, path_item(sid, seen)))
    } else {
        let name = segment_name(parts[i]);
        match selectors_from(parts[i], index_from(parts[i], '[', 0)) {
            Err(e) => Err(e),
            Ok(keys) => match child_of(s, cur, name) {
                None => Err(
                    "\""@ + name + "\" in the path "@ + quoted_text(path)
                        + " doesn't exist in this device's YANG model -- check for a typo"@,
                ),
                Some(child) => match s.nodes[child as int].sid {
                    None => Err(
                        "\""@ + name
                            + "\" exists in the schema but has no SID assigned -- this looks like a catalog problem, not a mistake in your path"@,
                    ),
                    Some(n) => match segment_encoded(s, path, name, child, keys) {
                        Err(e) => Err(e),
                        Ok(more) => path_walked(
                            s,
                            path,
                            parts,
                            i + 1,
                            child,
                            n as int,
                            seen + more,
                        ),
                    },
                },
            },
        }
    }
}

/// The node that a path leads to, and the path as a data item.
pub open spec fn path_encoded(s: SchemaView, path: Seq<char>) -> Result<(usize, Item), Seq<char>>
    decreases path.len(), 2int, path_parts(path).len() + 1,
{
    path_walked(s, path, path_parts(path), 0, s.root, 0, Seq::empty())
}

/// No segment is longer than the path.
proof fn lemma_parts_short(path: Seq<char>, i: int, depth: int, start: int)
    requires
        0 <= start <= i <= path.len(),
    ensures
        forall|k: int|
            0 <= k < parts_from(path, i, depth, start).len() ==> (#[trigger] parts_from(
                path,
                i,
                depth,
                start,
            )[k]).len() <= path.len(),
    decreases path.len() - i,
{
    if i < path.len() {
        let all = parts_from(path, i, depth, start);
        if path[i] == '[' {
            lemma_parts_short(path, i + 1, depth + 1, start);
            assert(all == parts_from(path, i + 1, depth + 1, start));
        } else if path[i] == ']' {
            lemma_parts_short(path, i + 1, depth - 1, start);
            assert(all == parts_from(path, i + 1, depth - 1, start));
        } else if path[i] == '/' && depth == 0 {
            lemma_parts_short(path, i + 1, depth, i + 1);
            let rest = parts_from(path, i + 1, depth, i + 1);
            assert forall|k: int| 0 <= k < all.len() implies (#[trigger] all[k]).len()
                <= path.len() by {
                if start < i {
                    if k > 0 {
                        assert(all[k] == rest[k - 1]);
                    }
                } else {
                    assert(all[k] == rest[k]);
                }
            }
        } else {
            lemma_parts_short(path, i + 1, depth, start);
            assert(all == parts_from(path, i + 1, depth, start));
        }
    }
}

proof fn lemma_space_bounds(s: Seq<char>, from: int)
    requires
        0 <= from <= s.len(),
    ensures
        from <= space_end(s, from) <= s.len(),
    decreases s.len() - from,
{
    if from < s.len() && crate::text::is_space(s[from]) {
        lemma_space_bounds(s, from + 1);
    }
}

proof fn lemma_space_start_bounds(s: Seq<char>, from: int, to: int)
    requires
        0 <= from <= to <= s.len(),
    ensures
        from <= space_start(s, from, to) <= to,
    decreases to - from,
{
    if to > from && crate::text::is_space(s[to - 1]) {
        lemma_space_start_bounds(s, from, to - 1);
    }
}

/// The value of a selector is shorter than its segment.
proof fn lemma_selectors_short(seg: Seq<char>, from: int)
    requires
        0 <= from <= seg.len(),
    ensures
        selectors_from(seg, from) matches Ok(keys) ==> forall|k: int|
            0 <= k < keys.len() ==> (#[trigger] keys[k]).1.len() < seg.len(),
    decreases seg.len() - from,
{
    lemma_index_from(seg, '[', from);
    let start = index_from(seg, '[', from);
    if start < seg.len() {
        lemma_index_from(seg, ']', start);
        let end = index_from(seg, ']', start);
        if end < seg.len() {
            let inner = seg.subrange(start + 1, end);
            lemma_index_from(inner, '=', 0);
            let eq = index_from(inner, '=', 0);
            if eq < inner.len() {
                let raw = inner.subrange(eq + 1, inner.len() as int);
                lemma_space_bounds(raw, 0);
                lemma_space_start_bounds(raw, space_end(raw, 0), raw.len() as int);
                let value = unquoted(trimmed(raw));
                assert(value.len() <= raw.len());
                lemma_selectors_short(seg, end + 1);
                match selectors_from(seg, end + 1) {
                    Ok(rest) => {
                        let keys = selectors_from(seg, from)->Ok_0;
                        assert forall|k: int| 0 <= k < keys.len() implies (#[trigger] keys[k]).1.len()
                            < seg.len() by {
                            if k > 0 {
                                assert(keys[k] == rest[k - 1]);
                            }
                        }
                    },
                    Err(_) => {},
                }
            }
        }
    }
}

/// The values of the selectors in a path are shorter than the path.
pub(crate) proof fn lemma_selector_values_short(path: Seq<char>, i: int)
    requires
        0 <= i < path_parts(path).len(),
    ensures
        selectors_from(
            path_parts(path)[i],
            index_from(path_parts(path)[i], '[', 0),
        ) matches Ok(keys) ==> forall|k: int|
            0 <= k < keys.len() ==> (#[trigger] keys[k]).1.len() < path.len(),
{
    lemma_parts_short(path, 0, 0, 0);
    let seg = path_parts(path)[i];
    assert(seg.len() <= path.len());
    lemma_index_from(seg, '[', 0);
    lemma_selectors_short(seg, index_from(seg, '[', 0));
}

proof fn lemma_selected_short(keys: Seq<(Seq<char>, Seq<char>)>, name: Seq<char>, from: int, n: int)
    requires
        0 <= from,
        forall|k: int| 0 <= k < keys.len() ==> (#[trigger] keys[k]).1.len() < n,
    ensures
        selected(keys, name, from) matches Some(v) ==> v.len() < n,
    decreases keys.len() - from,
{
    if from < keys.len() && keys[from].0 != name {
        lemma_selected_short(keys, name, from + 1, n);
    }
}

/// A value of a type as a data item, with the checks of the type.
fn type_to_cbor_checked(schema: &Schema, type_id: TypeId, v: &Json, in_union: bool) -> (r: Result<
    Cbor,
    CodecError,
>)
    requires
        schema.wf(),
        type_id < schema.types@.len(),
    ensures
        item_of(r) == value_encoded(schema@, type_id, v@, in_union),
    decreases text_size(v@), 4int, 0int,
{
    let ghost s = schema@;
    let (b, g) = resolved_builtin(schema, type_id);
    if b == Builtin::Union {
        let ty = &schema.types[g];
        assert(s.types[g as int] == ty@);
        assert(type_ok(s.nodes.len() as int, s.identities.len() as int, g as int, ty@));
        match pick_union_member_for_json(schema, ty, v) {
            None => {
                let t = to_text(v);
                let names = union_member_kinds(schema, ty);
                Err(
                    CodecError(
                        cat3(
                            t.as_str(),
                            " does not match any of the allowed types here: ",
                            names.as_str(),
                        ),
                    ),
                )
            },
            Some(m) => {
                let (_, n) = resolved_builtin(schema, m);
                plain_to_cbor(schema, n, v, true)
            },
        }
    } else {
        plain_to_cbor(schema, g, v, in_union)
    }
}

/// The error on a value of the wrong kind.
fn wrong_kind(expected: &str, v: &Json) -> (r: CodecError)
    ensures
        r.0@ == expected@ + json_text(v@),
{
    let t = to_text(v);
    CodecError(cat(expected, t.as_str()))
}

/// A whole number as a data item.
fn encode_whole(ty: &TypeDef, v: &Json) -> (r: Result<Cbor, CodecError>)
    ensures
        item_of(r) == whole_encoded(ty@, v@),
{
    match json_number_to_i128(v) {
        None => Err(wrong_kind("expected a whole number here, got ", v)),
        Some(n) => {
            if in_ranges(n, ty.ranges.as_slice()) {
                Ok(Cbor::Integer(n))
            } else {
                let d = decimal(n);
                let range = range_description(ty.ranges.as_slice());
                Err(
                    CodecError(
                        cat3(
                            d.as_str(),
                            " is not allowed here -- the value must be ",
                            range.as_str(),
                        ),
                    ),
                )
            }
        },
    }
}

/// The number of a 64-bit integer type that a text stands for.
fn read_wide(t: &str, signed: bool) -> (r: Result<i128, CodecError>)
    ensures
        match r {
            Ok(n) => wide_number(t@, signed) == Ok::<int, Seq<char>>(n as int),
            Err(e) => wide_number(t@, signed) == Err::<int, Seq<char>>(e.0@),
        },
{
    if signed {
        match parse_number(t, i64::MIN as i128, i64::MAX as i128) {
            Some(n) => Ok(n),
            None => {
                let q = quoted(t);
                Err(CodecError(cat(q.as_str(), " is not a valid whole number")))
            },
        }
    } else {
        match parse_number(t, 0, u64::MAX as i128) {
            Some(n) => Ok(n),
            None => {
                let q = quoted(t);
                Err(CodecError(cat(q.as_str(), " is not a valid non-negative whole number")))
            },
        }
    }
}

/// A 64-bit integer as a data item.
fn encode_wide(ty: &TypeDef, v: &Json, signed: bool) -> (r: Result<Cbor, CodecError>)
    ensures
        item_of(r) == wide_encoded(ty@, v@, signed),
{
    match v.as_str() {
        None => Err(
            wrong_kind(
                "expected a large whole number written as quoted text (e.g. \"12345678901\"), got ",
                v,
            ),
        ),
        Some(t) => {
            let n = read_wide(t, signed)?;
            if lies_within(n, ty.ranges.as_slice()) {
                Ok(Cbor::Integer(n))
            } else {
                let d = decimal(n);
                let range = wide_description(ty.ranges.as_slice());
                Err(
                    CodecError(
                        cat3(
                            d.as_str(),
                            " is not allowed here -- the value must be ",
                            range.as_str(),
                        ),
                    ),
                )
            }
        },
    }
}

/// Binary data as a data item.
fn encode_binary(ty: &TypeDef, v: &Json) -> (r: Result<Cbor, CodecError>)
    ensures
        item_of(r) == binary_encoded(ty@, v@),
{
    match v.as_str() {
        None => Err(wrong_kind("expected base64-encoded text (for binary data), got ", v)),
        Some(t) => match base64_decode(t) {
            None => {
                let q = quoted(t);
                Err(CodecError(cat(q.as_str(), " is not valid base64-encoded text")))
            },
            Some(bytes) => {
                let len = low_i64(bytes.len() as i128);
                if in_ranges(len as i128, ty.ranges.as_slice()) {
                    Ok(Cbor::Bytes(bytes))
                } else {
                    let n = decimal(len as i128);
                    let range = range_description(ty.ranges.as_slice());
                    Err(
                        CodecError(
                            cat4(
                                "this value is ",
                                n.as_str(),
                                " byte(s) long once decoded, but must be ",
                                range.as_str(),
                            ),
                        ),
                    )
                }
            },
        },
    }
}

/// A value of a type that is no union as a data item.
fn plain_to_cbor(schema: &Schema, id: TypeId, v: &Json, in_union: bool) -> (r: Result<
    Cbor,
    CodecError,
>)
    requires
        schema.wf(),
        id < schema.types@.len(),
    ensures
        item_of(r) == plain_encoded(schema@, id, v@, in_union),
    decreases text_size(v@), 3int, 0int,
{
    let ghost s = schema@;
    let ty = &schema.types[id];
    assert(s.types[id as int] == ty@);
    assert(type_ok(s.nodes.len() as int, s.identities.len() as int, id as int, ty@));
    match ty.builtin {
        Builtin::Int8 => encode_whole(ty, v),
        Builtin::Int16 => encode_whole(ty, v),
        Builtin::Int32 => encode_whole(ty, v),
        Builtin::Uint8 => encode_whole(ty, v),
        Builtin::Uint16 => encode_whole(ty, v),
        Builtin::Uint32 => encode_whole(ty, v),
        Builtin::Int64 => encode_wide(ty, v, true),
        Builtin::Uint64 => encode_wide(ty, v, false),
        Builtin::Boolean => match v.as_bool() {
            Some(b) => Ok(Cbor::Bool(b)),
            None => Err(wrong_kind("expected true or false, got ", v)),
        },
        Builtin::String => match v.as_str() {
            Some(t) => encode_text(ty, t),
            None => Err(wrong_kind("expected text here, got ", v)),
        },
        Builtin::Binary => encode_binary(ty, v),
        Builtin::Empty => if is_empty_value(v) {
            Ok(Cbor::Null)
        } else {
            Err(
                wrong_kind(
                    "this field has no value of its own -- it's just present or absent, so it must be written as [null] (a one-item list containing null), got ",
                    v,
                ),
            )
        },
        Builtin::Decimal64 => encode_decimal64(ty, v, in_union),
        Builtin::Enumeration => encode_enum(ty, v, in_union),
        Builtin::Bits => encode_bits(ty, v, in_union),
        Builtin::Identityref => encode_identityref(schema, ty, v, in_union),
        Builtin::InstanceIdentifier => match v.as_str() {
            Some(t) => match resolve_iid(schema, t) {
                Ok((_, item)) => Ok(item),
                Err(e) => Err(e),
            },
            None => Err(
                wrong_kind("expected a path (as text) pointing to another node, got ", v),
            ),
        },
        Builtin::Leafref => Ok(json_to_cbor_generic(v)),
        Builtin::Union => {
            let t = to_text(v);
            let names = union_member_kinds(schema, ty);
            Err(
                CodecError(
                    cat3(
                        t.as_str(),
                        " does not match any of the allowed types here: ",
                        names.as_str(),
                    ),
                ),
            )
        },
    }
}

/// The value of a key among the selectors.
fn find_selected(keys: &Vec<(String, String)>, name: &str) -> (r: Option<usize>)
    ensures
        match r {
            Some(i) => i < keys@.len() && selected(key_views(keys@), name@, 0) == Some(
                keys@[i as int].1@,
            ),
            None => selected(key_views(keys@), name@, 0) is None,
        },
{
    let mut i: usize = 0;
    while i < keys.len()
        invariant
            i <= keys@.len(),
            selected(key_views(keys@), name@, 0) == selected(key_views(keys@), name@, i as int),
        decreases keys@.len() - i,
    {
        if same(keys[i].0.as_str(), name) {
            return Some(i);
        }
        i += 1;
    }
    None
}

/// The data items for the keys of a list.
fn encode_keys(
    schema: &Schema,
    path: &str,
    name: &str,
    list: NodeId,
    keys: &Vec<(String, String)>,
) -> (r: Result<Vec<Cbor>, CodecError>)
    requires
        schema.wf(),
        list < schema.nodes@.len(),
        forall|k: int| 0 <= k < keys@.len() ==> (#[trigger] keys@[k]).1@.len() < path@.len(),
    ensures
        match r {
            Ok(v) => keys_encoded(
                schema@,
                path@,
                name@,
                list,
                key_views(keys@),
                0,
                Seq::empty(),
            ) == Ok::<Seq<Item>, Seq<char>>(value_items(v@)),
            Err(e) => keys_encoded(
                schema@,
                path@,
                name@,
                list,
                key_views(keys@),
                0,
                Seq::empty(),
            ) == Err::<Seq<Item>, Seq<char>>(e.0@),
        },
    decreases path@.len(), 0int, 0int,
{
    let ghost s = schema@;
    let ghost views = key_views(keys@);
    let n = &schema.nodes[list];
    assert(s.nodes[list as int] == n@);
    let mut out: Vec<Cbor> = Vec::new();
    let mut j: usize = 0;
    assert(value_items(out@) =~= Seq::empty());
    while j < n.keys.len()
        invariant
            j <= n.keys@.len(),
            schema.wf(),
            s == schema@,
            list < schema.nodes@.len(),
            n@ == s.nodes[list as int],
            views == key_views(keys@),
            forall|k: int| 0 <= k < keys@.len() ==> (#[trigger] keys@[k]).1@.len() < path@.len(),
            keys_encoded(s, path@, name@, list, views, 0, Seq::empty()) == keys_encoded(
                s,
                path@,
                name@,
                list,
                views,
                j as int,
                value_items(out@),
            ),
        decreases n.keys@.len() - j,
    {
        let key = n.keys[j].as_str();
        assert(n@.keys[j as int] == n.keys@[j as int]@);
        if let Some(i) = find_selected(keys, key) {
            let raw = keys[i].1.as_str();
            let c = match schema.find_child(list, key) {
                Some(c) => c,
                None => {
                    let q = quoted(path);
                    return Err(
                        CodecError(
                            cat7(
                                "the key \"",
                                key,
                                "\" of \"",
                                name,
                                "\" doesn't exist in this device's YANG model (",
                                q.as_str(),
                                ")",
                            ),
                        ),
                    );
                },
            };
            assert(s.nodes[c as int] == schema.nodes@[c as int]@);
            assert(node_ok(
                s.nodes.len() as int,
                s.types.len() as int,
                c as int,
                s.nodes[c as int],
            ));
            let t = match schema.nodes[c].type_id {
                Some(t) => t,
                None => {
                    return Err(
                        CodecError(
                            cat3(
                                "the key \"",
                                key,
                                "\" has no type in the schema -- this looks like a catalog problem",
                            ),
                        ),
                    );
                },
            };
            let v = convert_iid_key_value(schema, t, raw)?;
            let ghost had = value_items(out@);
            let item = type_to_cbor_checked(schema, t, &v, false)?;
            out.push(item);
            assert(value_items(out@) =~= had.push(item@));
        }
        j += 1;
    }
    Ok(out)
}

/// The keys that one segment of a path selects in a node.
fn encode_segment(
    schema: &Schema,
    path: &str,
    name: &str,
    child: NodeId,
    keys: &Vec<(String, String)>,
) -> (r: Result<Vec<Cbor>, CodecError>)
    requires
        schema.wf(),
        child < schema.nodes@.len(),
        forall|k: int| 0 <= k < keys@.len() ==> (#[trigger] keys@[k]).1@.len() < path@.len(),
    ensures
        match r {
            Ok(v) => segment_encoded(schema@, path@, name@, child, key_views(keys@)) == Ok::<
                Seq<Item>,
                Seq<char>,
            >(value_items(v@)),
            Err(e) => segment_encoded(schema@, path@, name@, child, key_views(keys@)) == Err::<
                Seq<Item>,
                Seq<char>,
            >(e.0@),
        },
    decreases path@.len(), 1int, 0int,
{
    let ghost views = key_views(keys@);
    let n = &schema.nodes[child];
    assert(schema@.nodes[child as int] == n@);
    if n.keys.len() > 0 {
        let items = encode_keys(schema, path, name, child, keys)?;
        let mut i: usize = 0;
        while i < keys.len()
            invariant
                i <= keys@.len(),
                views == key_views(keys@),
                n@ == schema@.nodes[child as int],
                n.keys@.len() > 0,
                keys_encoded(schema@, path@, name@, child, views, 0, Seq::empty()) == Ok::<
                    Seq<Item>,
                    Seq<char>,
                >(value_items(items@)),
                stray_selector(views, n@.keys, 0) == stray_selector(views, n@.keys, i as int),
            decreases keys@.len() - i,
        {
            let k = keys[i].0.as_str();
            assert(views[i as int].0 == k@);
            if position_of(n.keys.as_slice(), k).is_none() {
                let q = quoted(path);
                return Err(
                    CodecError(
                        cat5(
                            "\"",
                            k,
                            "\" is not a key of the list at ",
                            q.as_str(),
                            " -- check the key name",
                        ),
                    ),
                );
            }
            i += 1;
        }
        Ok(items)
    } else if keys.len() > 0 {
        let q = quoted(path);
        Err(
            CodecError(
                cat4(
                    "\"",
                    name,
                    "\" is not a list, so it can't take key='value' selectors like in ",
                    q.as_str(),
                ),
            ),
        )
    } else {
        let none: Vec<Cbor> = Vec::new();
        assert(value_items(none@) =~= Seq::empty());
        Ok(none)
    }
}

/// The node that a path leads to, and the path as a data item: a SID, or a
/// SID and the keys of all lists on the way.
pub fn resolve_iid(schema: &Schema, path: &str) -> (r: Result<(NodeId, Cbor), CodecError>)
    requires
        schema.wf(),
    ensures
        match r {
            Ok((n, item)) => path_encoded(schema@, path@) == Ok::<(usize, Item), Seq<char>>(
                (n, item@),
            ) && n < schema.nodes@.len(),
            Err(e) => path_encoded(schema@, path@) == Err::<(usize, Item), Seq<char>>(e.0@),
        },
    decreases path@.len(), 2int, 0int,
{
    let ghost s = schema@;
    let parts = split_outside_brackets(path);
    let ghost all = texts(parts@);
    proof {
        lemma_parts_short(path@, 0, 0, 0);
    }
    let mut cur: usize = schema.root;
    let mut sid: i64 = 0;
    let mut seen: Vec<Cbor> = Vec::new();
    let mut i: usize = 0;
    assert(value_items(seen@) =~= Seq::empty());
    while i < parts.len()
        invariant
            i <= parts@.len(),
            schema.wf(),
            s == schema@,
            all == texts(parts@),
            forall|k: int| 0 <= k < all.len() ==> (#[trigger] all[k]).len() <= path@.len(),
            cur < schema.nodes@.len(),
            path_encoded(s, path@) == path_walked(
                s,
                path@,
                all,
                i as int,
                cur,
                sid as int,
                value_items(seen@),
            ),
        decreases parts@.len() - i,
    {
        assert(all[i as int] == parts@[i as int]@);
        let seg = parse_iid_segment(parts[i].as_str())?;
        let ghost keys = key_views(seg.keys@);
        proof {
            lemma_index_from(all[i as int], '[', 0);
            lemma_selectors_short(all[i as int], index_from(all[i as int], '[', 0));
            assert forall|k: int| 0 <= k < seg.keys@.len() implies (#[trigger] seg.keys@[k]).1@.len()
                < path@.len() by {
                assert(keys[k].1 == seg.keys@[k].1@);
            }
        }
        let child = match schema.find_child(cur, seg.name.as_str()) {
            Some(child) => child,
            None => {
                let q = quoted(path);
                return Err(
                    CodecError(
                        cat5(
                            "\"",
                            seg.name.as_str(),
                            "\" in the path ",
                            q.as_str(),
                            " doesn't exist in this device's YANG model -- check for a typo",
                        ),
                    ),
                );
            },
        };
        assert(s.nodes[child as int] == schema.nodes@[child as int]@);
        let n: i64 = match schema.nodes[child].sid {
            Some(n) => n,
            None => {
                return Err(
                    CodecError(
                        cat3(
                            "\"",
                            seg.name.as_str(),
                            "\" exists in the schema but has no SID assigned -- this looks like a catalog problem, not a mistake in your path",
                        ),
                    ),
                );
            },
        };
        let ghost had = value_items(seen@);
        let mut more = encode_segment(schema, path, seg.name.as_str(), child, &seg.keys)?;
        let ghost added = value_items(more@);
        seen.append(&mut more);
        assert(value_items(seen@) =~= had + added);
        cur = child;
        sid = n;
        i += 1;
    }
    let ghost keys = value_items(seen@);
    if seen.len() == 0 {
        Ok((cur, Cbor::Integer(sid as i128)))
    } else {
        let mut out: Vec<Cbor> = Vec::new();
        out.push(Cbor::Integer(sid as i128));
        out.append(&mut seen);
        assert(value_items(out@) =~= seq![Item::Integer(sid as int)] + keys);
        Ok((cur, Cbor::Array(out)))
    }
}

/// A value of a type as a data item. If errors are to be passed over, a value
/// that its type refuses is taken as it is.
pub open spec fn value_encoded_leniently(
    s: SchemaView,
    id: usize,
    v: Tree,
    in_union: bool,
    continue_on_error: bool,
) -> Result<Item, Seq<char>> {
    match value_encoded(s, id, v, in_union) {
        Ok(item) => Ok(item),
        Err(e) => if continue_on_error {
            Ok(generic_item(v))
        } else {
            Err(e)
        },
    }
}

/// A value of a type as a data item.
pub fn type_to_cbor(
    schema: &Schema,
    type_id: TypeId,
    value: &Json,
    in_union: bool,
    continue_on_error: bool,
) -> (r: Result<Cbor, CodecError>)
    requires
        schema.wf(),
        type_id < schema.types@.len(),
    ensures
        item_of(r) == value_encoded_leniently(
            schema@,
            type_id,
            value@,
            in_union,
            continue_on_error,
        ),
{
    match type_to_cbor_checked(schema, type_id, value, in_union) {
        Ok(v) => Ok(v),
        Err(e) => if continue_on_error {
            Ok(json_to_cbor_generic(value))
        } else {
            Err(e)
        },
    }
}

} // verus!
