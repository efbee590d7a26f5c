//! A JSON Schema (draft-07) that describes the data of a schema.
use vstd::prelude::*;

use crate::json::{
    insert, lemma_json_view, members, trees, with_member, Json, Tree,
};
use crate::text::{
    cat3, cat5, chars_of, decimal, decimal_text, find_text, join, joined, owned, position_of, same,
    texts,
};
use crate::yang::choices::{all_identity_bases, candidates};
use crate::yang::schema::{
    contains_id, node_ok, type_ok, BitView, Builtin, EnumView, IdentityView, NodeId, NodeView,
    Schema, SchemaView, TypeDef, TypeId, TypeView,
};

verus! {

broadcast use lemma_json_view;

/// Whether a node holds data of its own.
pub open spec fn is_data_node(kw: Seq<char>) -> bool {
    kw == "container"@ || kw == "leaf"@ || kw == "leaf-list"@ || kw == "list"@ || kw == "anydata"@
        || kw == "anyxml"@
}

/// Whether a node is a side of an operation.
pub open spec fn is_side(kw: Seq<char>) -> bool {
    kw == "input"@ || kw == "output"@
}

/// Whether a node is an operation.
pub open spec fn is_operation(kw: Seq<char>) -> bool {
    kw == "action"@ || kw == "rpc"@
}

/// Some texts as a list.
pub open spec fn text_list(s: Seq<Seq<char>>) -> Tree {
    Tree::Array(s.map_values(|t: Seq<char>| Tree::Text(t)))
}

/// A bound as a JSON number: one that fits no 64 bits is kept within them.
pub open spec fn bound_tree(v: int) -> Tree {
    if i64::MIN <= v <= u64::MAX {
        Tree::Integer(v)
    } else if v > 0 {
        Tree::Integer(i64::MAX as int)
    } else {
        Tree::Integer(i64::MIN as int)
    }
}

/// A third of a number, without its fraction.
pub open spec fn third(v: int) -> int {
    if v >= 0 {
        v / 3
    } else {
        -((-v) / 3)
    }
}

/// How many characters `n` bytes take in base64.
pub open spec fn base64_len(n: int) -> int {
    4 * third(n + 2)
}

/// One range of numbers.
pub open spec fn value_range(r: (i128, i128)) -> Tree {
    Tree::Object(
        seq![("minimum"@, bound_tree(r.0 as int)), ("maximum"@, bound_tree(r.1 as int))],
    )
}

/// One range of lengths.
pub open spec fn length_range(r: (i128, i128)) -> Tree {
    Tree::Object(
        seq![("minLength"@, bound_tree(r.0 as int)), ("maxLength"@, bound_tree(r.1 as int))],
    )
}

/// One range of lengths in bytes, as lengths of base64 text.
pub open spec fn base64_range(r: (i128, i128)) -> Tree {
    Tree::Object(
        seq![
            ("minLength"@, bound_tree(base64_len(r.0 as int))),
            ("maxLength"@, bound_tree(base64_len(r.1 as int))),
        ],
    )
}

/// A schema that is only a type.
pub open spec fn only_type(t: Seq<char>) -> Tree {
    Tree::Object(seq![("type"@, Tree::Text(t))])
}

/// Whether `a` is `b` or comes before it, character by character from `i` on.
pub open spec fn ordered_from(a: Seq<char>, b: Seq<char>, i: int) -> bool
    decreases a.len() - i,
{
    if i >= a.len() {
        true
    } else if i >= b.len() {
        false
    } else if a[i] != b[i] {
        a[i] < b[i]
    } else {
        ordered_from(a, b, i + 1)
    }
}

/// Some ordered texts with one more, behind those that do not come after it.
pub open spec fn with_text(s: Seq<Seq<char>>, t: Seq<char>) -> Seq<Seq<char>>
    decreases s.len(),
{
    if s.len() == 0 || ordered_from(s.last(), t, 0) {
        s.push(t)
    } else {
        with_text(s.drop_last(), t).push(s.last())
    }
}

/// Some texts in order.
pub open spec fn in_order(s: Seq<Seq<char>>) -> Seq<Seq<char>>
    decreases s.len(),
{
    if s.len() == 0 {
        s
    } else {
        with_text(in_order(s.drop_last()), s.last())
    }
}

/// The names for the first `n` of some identities, without the bases: each
/// with its module, and by itself too in the module that declared the type.
pub open spec fn identity_names(
    ids: Seq<IdentityView>,
    ty: TypeView,
    found: Seq<usize>,
    n: int,
) -> Seq<Seq<char>>
    decreases n,
{
    if n <= 0 {
        Seq::empty()
    } else {
        let before = identity_names(ids, ty, found, n - 1);
        let d = ids[found[n - 1] as int];
        if ty.identity_bases.contains(found[n - 1]) {
            before
        } else if ty.source_module == Some(d.module) {
            before.push(d.module + ":"@ + d.name).push(d.name)
        } else {
            before.push(d.module + ":"@ + d.name)
        }
    }
}

/// The identities that a type allows.
pub open spec fn allowed_identities(s: SchemaView, ty: TypeView) -> Seq<usize> {
    if ty.identity_bases.len() == 0 {
        Seq::empty()
    } else {
        candidates(s.identities, ty.identity_bases, s.identities.len() as int)
    }
}

/// The names of some bits.
pub open spec fn bit_texts(bits: Seq<BitView>) -> Seq<Seq<char>> {
    bits.map_values(|b: BitView| b.name)
}

/// Whether the values of a type can be described: its leafrefs lead
/// somewhere, and no chain of leafrefs and unions is longer than `fuel`.
pub open spec fn type_describable(s: SchemaView, id: usize, fuel: nat) -> bool
    decreases fuel,
{
    let t = s.types[id as int];
    if fuel == 0 {
        false
    } else if t.builtin == Builtin::Leafref {
        match t.leafref_target {
            Some(n) => match s.nodes[n as int].type_id {
                Some(next) => type_describable(s, next, (fuel - 1) as nat),
                None => false,
            },
            None => false,
        }
    } else if t.builtin == Builtin::Union {
        forall|k: int|
            0 <= k < t.union_members.len() ==> type_describable(
                s,
                #[trigger] t.union_members[k],
                (fuel - 1) as nat,
            )
    } else {
        true
    }
}

/// The schema for the values of a type.
pub open spec fn type_schema(s: SchemaView, id: usize, fuel: nat) -> Tree
    decreases fuel,
{
    let t = s.types[id as int];
    if fuel == 0 {
        arbitrary()
    } else {
        match t.builtin {
            Builtin::Int8 | Builtin::Int16 | Builtin::Int32 | Builtin::Uint8 | Builtin::Uint16
            | Builtin::Uint32 => Tree::Object(
                seq![
                    ("type"@, Tree::Text("integer"@)),
                    (
                        "anyOf"@,
                        Tree::Array(t.ranges.map_values(|r: (i128, i128)| value_range(r))),
                    ),
                ],
            ),
            Builtin::Int64 | Builtin::Uint64 | Builtin::InstanceIdentifier => only_type("string"@),
            Builtin::Decimal64 => Tree::Object(
                seq![
                    ("type"@, Tree::Text("string"@)),
                    (
                        "pattern"@,
                        Tree::Text(
                            "^(\\+|-)?\\d*(\\.\\d{0,"@ + decimal_text(
                                match t.fraction_digits {
                                    Some(d) => d as int,
                                    None => 0,
                                },
                            ) + "})?$"@,
                        ),
                    ),
                ],
            ),
            Builtin::Boolean => only_type("boolean"@),
            Builtin::Union => Tree::Object(
                seq![
                    (
                        "anyOf"@,
                        Tree::Array(
                            Seq::new(
                                t.union_members.len(),
                                |k: int| type_schema(s, t.union_members[k], (fuel - 1) as nat),
                            ),
                        ),
                    ),
                ],
            ),
            Builtin::Enumeration => Tree::Object(
                seq![("enum"@, text_list(t.enums.map_values(|e: EnumView| e.name)))],
            ),
            Builtin::Empty => Tree::Object(
                seq![
                    ("type"@, Tree::Text("array"@)),
                    ("items"@, only_type("null"@)),
                    ("minItems"@, Tree::Integer(1)),
                    ("maxItems"@, Tree::Integer(1)),
                ],
            ),
            Builtin::Binary => Tree::Object(
                seq![
                    ("type"@, Tree::Text("string"@)),
                    ("contentEncoding"@, Tree::Text("base64"@)),
                    (
                        "anyOf"@,
                        Tree::Array(t.ranges.map_values(|r: (i128, i128)| base64_range(r))),
                    ),
                ],
            ),
            Builtin::Bits => {
                let names = "("@ + joined(bit_texts(t.bits), "|"@) + ")"@;
                Tree::Object(
                    seq![
                        ("type"@, Tree::Text("string"@)),
                        ("pattern"@, Tree::Text("^"@ + names + "?(\\s"@ + names + ")*$"@)),
                    ],
                )
            },
            Builtin::Leafref => match t.leafref_target {
                Some(n) => match s.nodes[n as int].type_id {
                    Some(next) => type_schema(s, next, (fuel - 1) as nat),
                    None => arbitrary(),
                },
                None => arbitrary(),
            },
            Builtin::Identityref => {
                let found = allowed_identities(s, t);
                Tree::Object(
                    seq![
                        (
                            "enum"@,
                            text_list(
                                in_order(
                                    identity_names(s.identities, t, found, found.len() as int),
                                ),
                            ),
                        ),
                    ],
                )
            },
            Builtin::String => {
                let lengths = seq![
                    ("type"@, Tree::Text("string"@)),
                    (
                        "anyOf"@,
                        Tree::Array(t.ranges.map_values(|r: (i128, i128)| length_range(r))),
                    ),
                ];
                if t.patterns.len() == 0 {
                    Tree::Object(lengths)
                } else {
                    Tree::Object(
                        lengths.push(
                            (
                                "allOf"@,
                                Tree::Array(
                                    t.patterns.map_values(
                                        |p: Seq<char>|
                                            Tree::Object(seq![("pattern"@, Tree::Text(p))]),
                                    ),
                                ),
                            ),
                        ),
                    )
                }
            },
        }
    }
}

/// Adds a member behind the others.
fn put(m: &mut Vec<(String, Json)>, key: &str, v: Json)
    ensures
        members(final(m)@) == members(old(m)@).push((key@, v@)),
{
    let ghost before = members(m@);
    m.push((owned(key), v));
    assert(members(m@) =~= before.push((key@, v@)));
}

/// A text as a JSON value.
fn text(s: &str) -> (r: Json)
    ensures
        r@ == Tree::Text(s@),
{
    Json::String(owned(s))
}

/// A schema that is only a type.
fn just_type(t: &str) -> (r: Json)
    ensures
        r@ == only_type(t@),
{
    let mut m: Vec<(String, Json)> = Vec::new();
    put(&mut m, "type", text(t));
    assert(members(m@) =~= seq![("type"@, Tree::Text(t@))]);
    Json::Object(m)
}

/// Some texts as a list.
fn json_strings(v: &Vec<String>) -> (r: Json)
    ensures
        r@ == text_list(texts(v@)),
{
    let mut out: Vec<Json> = Vec::new();
    let mut i: usize = 0;
    while i < v.len()
        invariant
            i <= v@.len(),
            out@.len() == i,
            forall|k: int| 0 <= k < i ==> (#[trigger] out@[k])@ == Tree::Text(v@[k]@),
        decreases v@.len() - i,
    {
        out.push(Json::String(v[i].clone()));
        i += 1;
    }
    assert(trees(out@) =~= texts(v@).map_values(|t: Seq<char>| Tree::Text(t)));
    Json::Array(out)
}

/// A bound as a JSON number.
fn num(v: i128) -> (r: Json)
    ensures
        r@ == bound_tree(v as int),
{
    if i64::MIN as i128 <= v && v <= u64::MAX as i128 {
        Json::Integer(v)
    } else if v > 0 {
        Json::Integer(i64::MAX as i128)
    } else {
        Json::Integer(i64::MIN as i128)
    }
}

/// The length in base64 of a number of bytes, as a JSON number.
fn base64_num(v: i128) -> (r: Json)
    ensures
        r@ == bound_tree(base64_len(v as int)),
{
    // Beyond these any length is out of the range of a JSON number.
    if v > 0x1_0000_0000_0000_0000_0000 {
        return num(i128::MAX);
    }
    if v < -0x1_0000_0000_0000_0000_0000 {
        return num(i128::MIN);
    }
    let w: i128 = v + 2;
    let q: i128 = if w >= 0 {
        w / 3
    } else {
        -((-w) / 3)
    };
    num(4 * q)
}

/// An object of two bounds.
fn two_bounds(low: &str, a: Json, high: &str, b: Json) -> (r: Json)
    ensures
        r@ == Tree::Object(seq![(low@, a@), (high@, b@)]),
{
    let mut m: Vec<(String, Json)> = Vec::new();
    put(&mut m, low, a);
    put(&mut m, high, b);
    assert(members(m@) =~= seq![(low@, a@), (high@, b@)]);
    Json::Object(m)
}

/// What the bounds of a range count.
#[derive(Debug, Clone, Copy, PartialEq, Eq, Structural)]
pub enum Measure {
    Value,
    Length,
    Base64,
}

/// One range, by what its bounds count.
pub open spec fn range_tree(m: Measure, r: (i128, i128)) -> Tree {
    match m {
        Measure::Value => value_range(r),
        Measure::Length => length_range(r),
        Measure::Base64 => base64_range(r),
    }
}

/// Some ranges as a list.
fn range_list(ranges: &Vec<(i128, i128)>, measure: Measure) -> (r: Json)
    ensures
        r@ == Tree::Array(ranges@.map_values(|r: (i128, i128)| range_tree(measure, r))),
{
    let mut out: Vec<Json> = Vec::new();
    let mut i: usize = 0;
    while i < ranges.len()
        invariant
            i <= ranges@.len(),
            out@.len() == i,
            forall|k: int| 0 <= k < i ==> (#[trigger] out@[k])@ == range_tree(measure, ranges@[k]),
        decreases ranges@.len() - i,
    {
        let low: i128 = ranges[i].0;
        let high: i128 = ranges[i].1;
        let one = match measure {
            Measure::Value => two_bounds("minimum", num(low), "maximum", num(high)),
            Measure::Length => two_bounds("minLength", num(low), "maxLength", num(high)),
            Measure::Base64 => two_bounds(
                "minLength",
                base64_num(low),
                "maxLength",
                base64_num(high),
            ),
        };
        out.push(one);
        i += 1;
    }
    assert(trees(out@) =~= ranges@.map_values(|r: (i128, i128)| range_tree(measure, r)));
    Json::Array(out)
}

/// Whether `a` is `b` or comes before it.
fn is_ordered(a: &str, b: &str) -> (r: bool)
    ensures
        r == ordered_from(a@, b@, 0),
{
    let x = chars_of(a);
    let y = chars_of(b);
    let mut i: usize = 0;
    while i < x.len()
        invariant
            i <= x@.len(),
            x@ == a@,
            y@ == b@,
            ordered_from(a@, b@, 0) == ordered_from(a@, b@, i as int),
        decreases x@.len() - i,
    {
        if i >= y.len() {
            return false;
        }
        if x[i] != y[i] {
            return x[i] < y[i];
        }
        i += 1;
    }
    true
}

/// Where a text goes among ordered ones.
proof fn lemma_with_text(s: Seq<Seq<char>>, t: Seq<char>, i: int)
    requires
        0 <= i <= s.len(),
        forall|k: int| i <= k < s.len() ==> !ordered_from(#[trigger] s[k], t, 0),
        i > 0 ==> ordered_from(s[i - 1], t, 0),
    ensures
        with_text(s, t) == s.insert(i, t),
    decreases s.len(),
{
    if i == s.len() {
        assert(s.insert(i, t) =~= s.push(t));
    } else {
        lemma_with_text(s.drop_last(), t, i);
        assert(s.insert(i, t) =~= s.drop_last().insert(i, t).push(s.last()));
    }
}

/// Adds a text to ordered ones.
fn insert_text(v: &mut Vec<String>, t: String)
    ensures
        texts(final(v)@) == with_text(texts(old(v)@), t@),
{
    let ghost before = texts(v@);
    let mut i: usize = v.len();
    while i > 0 && !is_ordered(v[i - 1].as_str(), t.as_str())
        invariant
            i <= v@.len(),
            before == texts(v@),
            v@ == old(v)@,
            forall|k: int| i <= k < v@.len() ==> !ordered_from(#[trigger] before[k], t@, 0),
        decreases i,
    {
        assert(before[i - 1] == v@[i - 1]@);
        i -= 1;
    }
    proof {
        if i > 0 {
            assert(before[i - 1] == v@[i - 1]@);
        }
        lemma_with_text(before, t@, i as int);
    }
    v.insert(i, t);
    assert(texts(v@) =~= before.insert(i as int, t@));
}

/// The names of the identities that a type allows, in order.
fn sorted_identity_names(schema: &Schema, ty: &TypeDef) -> (r: Vec<String>)
    requires
        schema.wf(),
        forall|k: int|
            0 <= k < ty.identity_bases@.len() ==> #[trigger] ty.identity_bases@[k]
                < schema.identities@.len(),
    ensures
        texts(r@) == in_order(
            identity_names(
                schema@.identities,
                ty@,
                allowed_identities(schema@, ty@),
                allowed_identities(schema@, ty@).len() as int,
            ),
        ),
{
    let ghost s = schema@;
    let found: Vec<usize> = match all_identity_bases(schema, ty) {
        Some(v) => v,
        None => Vec::new(),
    };
    let ghost all = allowed_identities(s, ty@);
    assert(found@ =~= all);
    proof {
        assert(s.identities.len() == schema.identities.len());
        if ty@.identity_bases.len() > 0 {
            crate::yang::choices::lemma_candidates_below(
                s.identities,
                ty@.identity_bases,
                s.identities.len() as int,
            );
        }
    }
    let mut out: Vec<String> = Vec::new();
    let mut i: usize = 0;
    assert(texts(out@) =~= Seq::empty());
    while i < found.len()
        invariant
            i <= found@.len(),
            s == schema@,
            found@ == all,
            forall|k: int| 0 <= k < all.len() ==> #[trigger] all[k] < s.identities.len(),
            texts(out@) == in_order(identity_names(s.identities, ty@, all, i as int)),
        decreases found@.len() - i,
    {
        let id: usize = found[i];
        assert(all[i as int] == id);
        let d = &schema.identities[id];
        assert(s.identities[id as int] == d@);
        let ghost before = identity_names(s.identities, ty@, all, i as int);
        if !contains_id(ty.identity_bases.as_slice(), id) {
            let full = cat3(d.module.as_str(), ":", d.name.as_str());
            let ghost with_full = before.push(full@);
            insert_text(&mut out, full);
            assert(with_full.drop_last() =~= before);
            assert(texts(out@) == in_order(with_full));
            let own: bool = match &ty.source_module {
                Some(m) => same(m.as_str(), d.module.as_str()),
                None => false,
            };
            if own {
                let name = d.name.clone();
                insert_text(&mut out, name);
                assert(with_full.push(d@.name).drop_last() =~= with_full);
                assert(texts(out@) == in_order(with_full.push(d@.name)));
                assert(ty@.source_module == Some(d@.module));
            }
        }
        i += 1;
    }
    out
}

/// The schema for the values of a type.
fn type2schema(schema: &Schema, id: TypeId, fuel: usize) -> (r: Json)
    requires
        schema.wf(),
        id < schema.types@.len(),
        type_describable(schema@, id, fuel as nat),
    ensures
        r@ == type_schema(schema@, id, fuel as nat),
    decreases fuel,
{
    let ghost s = schema@;
    let t = &schema.types[id];
    assert(s.types[id as int] == t@);
    assert(type_ok(s.nodes.len() as int, s.identities.len() as int, id as int, t@));
    let mut m: Vec<(String, Json)> = Vec::new();
    match t.builtin {
        Builtin::Int8 => whole_schema(t),
        Builtin::Int16 => whole_schema(t),
        Builtin::Int32 => whole_schema(t),
        Builtin::Uint8 => whole_schema(t),
        Builtin::Uint16 => whole_schema(t),
        Builtin::Uint32 => whole_schema(t),
        Builtin::Int64 => just_type("string"),
        Builtin::Uint64 => just_type("string"),
        Builtin::InstanceIdentifier => just_type("string"),
        Builtin::Decimal64 => {
            let digits: i128 = match t.fraction_digits {
                Some(d) => d as i128,
                None => 0,
            };
            let n = decimal(digits);
            put(&mut m, "type", text("string"));
            let p = cat3("^(\\+|-)?\\d*(\\.\\d{0,", n.as_str(), "})?$");
            put(&mut m, "pattern", Json::String(p));
            assert(members(m@) =~= type_schema(s, id, fuel as nat)->Object_0);
            Json::Object(m)
        },
        Builtin::Boolean => just_type("boolean"),
        Builtin::Union => {
            let mut out: Vec<Json> = Vec::new();
            let mut i: usize = 0;
            while i < t.union_members.len()
                invariant
                    i <= t.union_members@.len(),
                    schema.wf(),
                    s == schema@,
                    t@ == s.types[id as int],
                    fuel > 0,
                    type_ok(s.nodes.len() as int, s.identities.len() as int, id as int, t@),
                    id < schema.types@.len(),
                    forall|k: int|
                        0 <= k < t@.union_members.len() ==> type_describable(
                            s,
                            #[trigger] t@.union_members[k],
                            (fuel - 1) as nat,
                        ),
                    out@.len() == i,
                    forall|k: int|
                        0 <= k < i ==> (#[trigger] out@[k])@ == type_schema(
                            s,
                            t@.union_members[k],
                            (fuel - 1) as nat,
                        ),
                decreases t.union_members@.len() - i,
            {
                assert(t@.union_members[i as int] == t.union_members@[i as int]);
                out.push(type2schema(schema, t.union_members[i], fuel - 1));
                i += 1;
            }
            assert(trees(out@) =~= Seq::new(
                t@.union_members.len(),
                |k: int| type_schema(s, t@.union_members[k], (fuel - 1) as nat),
            ));
            put(&mut m, "anyOf", Json::Array(out));
            assert(trees(out@) =~= type_schema(s, id, fuel as nat)->Object_0[0].1->Array_0);
            assert(members(m@) =~= type_schema(s, id, fuel as nat)->Object_0);
            Json::Object(m)
        },
        Builtin::Enumeration => {
            let mut names: Vec<String> = Vec::new();
            let mut i: usize = 0;
            while i < t.enums.len()
                invariant
                    i <= t.enums@.len(),
                    names@.len() == i,
                    forall|k: int| 0 <= k < i ==> (#[trigger] names@[k])@ == t.enums@[k]@.name,
                decreases t.enums@.len() - i,
            {
                names.push(t.enums[i].name.clone());
                i += 1;
            }
            assert(texts(names@) =~= t@.enums.map_values(|e: EnumView| e.name));
            put(&mut m, "enum", json_strings(&names));
            assert(members(m@) =~= type_schema(s, id, fuel as nat)->Object_0);
            Json::Object(m)
        },
        Builtin::Empty => {
            put(&mut m, "type", text("array"));
            put(&mut m, "items", just_type("null"));
            put(&mut m, "minItems", Json::Integer(1));
            put(&mut m, "maxItems", Json::Integer(1));
            assert(members(m@) =~= type_schema(s, id, fuel as nat)->Object_0);
            Json::Object(m)
        },
        Builtin::Binary => {
            put(&mut m, "type", text("string"));
            put(&mut m, "contentEncoding", text("base64"));
            put(&mut m, "anyOf", range_list(&t.ranges, Measure::Base64));
            assert(t.ranges@.map_values(|r: (i128, i128)| range_tree(Measure::Base64, r))
                =~= t@.ranges.map_values(|r: (i128, i128)| base64_range(r)));
            assert(members(m@) =~= type_schema(s, id, fuel as nat)->Object_0);
            Json::Object(m)
        },
        Builtin::Bits => {
            let mut names: Vec<String> = Vec::new();
            let mut i: usize = 0;
            while i < t.bits.len()
                invariant
                    i <= t.bits@.len(),
                    names@.len() == i,
                    forall|k: int| 0 <= k < i ==> (#[trigger] names@[k])@ == t.bits@[k]@.name,
                decreases t.bits@.len() - i,
            {
                names.push(t.bits[i].name.clone());
                i += 1;
            }
            assert(texts(names@) =~= bit_texts(t@.bits));
            let all = join(names.as_slice(), "|");
            let group = cat3("(", all.as_str(), ")");
            let p = cat5("^", group.as_str(), "?(\\s", group.as_str(), ")*$");
            put(&mut m, "type", text("string"));
            put(&mut m, "pattern", Json::String(p));
            assert(members(m@) =~= type_schema(s, id, fuel as nat)->Object_0);
            Json::Object(m)
        },
        Builtin::Leafref => match t.leafref_target {
            Some(n) => {
                assert(s.nodes[n as int] == schema.nodes@[n as int]@);
                assert(node_ok(
                    s.nodes.len() as int,
                    s.types.len() as int,
                    n as int,
                    s.nodes[n as int],
                ));
                match schema.nodes[n].type_id {
                    Some(next) => type2schema(schema, next, fuel - 1),
                    None => Json::Null,
                }
            },
            None => Json::Null,
        },
        Builtin::Identityref => {
            let names = sorted_identity_names(schema, t);
            put(&mut m, "enum", json_strings(&names));
            assert(members(m@) =~= type_schema(s, id, fuel as nat)->Object_0);
            Json::Object(m)
        },
        Builtin::String => {
            put(&mut m, "type", text("string"));
            put(&mut m, "anyOf", range_list(&t.ranges, Measure::Length));
            assert(t.ranges@.map_values(|r: (i128, i128)| range_tree(Measure::Length, r))
                =~= t@.ranges.map_values(|r: (i128, i128)| length_range(r)));
            if t.patterns.len() > 0 {
                put(&mut m, "allOf", pattern_list(&t.patterns));
            }
            assert(members(m@) =~= type_schema(s, id, fuel as nat)->Object_0);
            Json::Object(m)
        },
    }
}

/// The schema for whole numbers of at most 32 bits.
fn whole_schema(t: &TypeDef) -> (r: Json)
    ensures
        r@ == Tree::Object(
            seq![
                ("type"@, Tree::Text("integer"@)),
                (
                    "anyOf"@,
                    Tree::Array(t@.ranges.map_values(|r: (i128, i128)| value_range(r))),
                ),
            ],
        ),
{
    let mut m: Vec<(String, Json)> = Vec::new();
    put(&mut m, "type", text("integer"));
    put(&mut m, "anyOf", range_list(&t.ranges, Measure::Value));
    proof {
        assert(t.ranges@.map_values(|r: (i128, i128)| range_tree(Measure::Value, r))
            =~= t@.ranges.map_values(|r: (i128, i128)| value_range(r)));
        let ranges = Tree::Array(t@.ranges.map_values(|r: (i128, i128)| value_range(r)));
        assert(members(m@) =~= seq![("type"@, Tree::Text("integer"@)), ("anyOf"@, ranges)]);
    }
    Json::Object(m)
}

/// Some patterns, each as a schema of its own.
fn pattern_list(patterns: &Vec<String>) -> (r: Json)
    ensures
        r@ == Tree::Array(
            texts(patterns@).map_values(
                |p: Seq<char>| Tree::Object(seq![("pattern"@, Tree::Text(p))]),
            ),
        ),
{
    let mut out: Vec<Json> = Vec::new();
    let mut i: usize = 0;
    while i < patterns.len()
        invariant
            i <= patterns@.len(),
            out@.len() == i,
            forall|k: int|
                0 <= k < i ==> (#[trigger] out@[k])@ == Tree::Object(
                    seq![("pattern"@, Tree::Text(patterns@[k]@))],
                ),
        decreases patterns@.len() - i,
    {
        let mut m: Vec<(String, Json)> = Vec::new();
        put(&mut m, "pattern", text(patterns[i].as_str()));
        assert(members(m@) =~= seq![("pattern"@, Tree::Text(patterns@[i as int]@))]);
        out.push(Json::Object(m));
        i += 1;
    }
    assert(trees(out@) =~= texts(patterns@).map_values(
        |p: Seq<char>| Tree::Object(seq![("pattern"@, Tree::Text(p))]),
    ));
    Json::Array(out)
}

/// Whether a child counts under a content format: to change a device, only
/// configuration does.
pub open spec fn counted(c: NodeView, cf: Seq<char>) -> bool {
    !((cf == "ipatch"@ || cf == "put"@) && !c.config)
}

/// Whether a child has a property of its own.
pub open spec fn has_property(c: NodeView, cf: Seq<char>) -> bool {
    counted(c, cf) && (is_data_node(c.kw) || is_side(c.kw))
}

/// Whether one of some children, from `from` on, has a keyword.
pub open spec fn child_with_kw(
    nodes: Seq<NodeView>,
    children: Seq<usize>,
    kw: Seq<char>,
    from: int,
) -> Option<usize>
    decreases children.len() - from,
{
    if from >= children.len() {
        None
    } else if nodes[children[from] as int].kw == kw {
        Some(children[from])
    } else {
        child_with_kw(nodes, children, kw, from + 1)
    }
}

/// Whether a node by itself can be described: leaves have types that can, and
/// operations have both sides.
pub open spec fn node_describable(s: SchemaView, node: usize) -> bool {
    let n = s.nodes[node as int];
    if n.kw == "leaf"@ || n.kw == "leaf-list"@ {
        n.type_id matches Some(t) && type_describable(s, t, s.types.len())
    } else if is_operation(n.kw) {
        child_with_kw(s.nodes, n.children, "input"@, 0) is Some && child_with_kw(
            s.nodes,
            n.children,
            "output"@,
            0,
        ) is Some
    } else {
        n.kw == "module"@ || n.kw == "container"@ || n.kw == "list"@ || n.kw == "anydata"@ || n.kw
            == "anyxml"@ || is_side(n.kw)
    }
}

/// Whether a node and all below it can be described.
pub open spec fn describable(s: SchemaView, node: usize, cf: Seq<char>) -> bool
    decreases s.nodes.len() - node, 1int, 0int,
{
    node_describable(s, node) && children_describable(s, node, cf, 0)
}

/// Whether the children of a node, from the `j`-th on, and all below them can
/// be described.
pub open spec fn children_describable(s: SchemaView, node: usize, cf: Seq<char>, j: int) -> bool
    decreases s.nodes.len() - node, 0int, s.nodes[node as int].children.len() - j,
{
    let children = s.nodes[node as int].children;
    if j < 0 || j >= children.len() {
        true
    } else {
        let c = children[j];
        (has_property(s.nodes[c as int], cf) ==> (node < c < s.nodes.len() && describable(s, c, cf)))
            && children_describable(s, node, cf, j + 1)
    }
}

/// The properties for the first `j` children of a node.
pub open spec fn properties(s: SchemaView, node: usize, cf: Seq<char>, j: int) -> Seq<
    (Seq<char>, Tree),
>
    decreases s.nodes.len() - node, 0int, j,
{
    let children = s.nodes[node as int].children;
    if j <= 0 || j > children.len() {
        Seq::empty()
    } else {
        let before = properties(s, node, cf, j - 1);
        let id = children[j - 1];
        let c = s.nodes[id as int];
        if !has_property(c, cf) {
            before
        } else if node < id < s.nodes.len() {
            with_member(
                before,
                if is_side(c.kw) {
                    c.kw
                } else {
                    c.name
                },
                schema_for(s, id, cf),
            )
        } else {
            arbitrary()
        }
    }
}

/// The names of the mandatory ones of the first `j` children of a node.
pub open spec fn required(s: SchemaView, node: usize, cf: Seq<char>, j: int) -> Seq<Seq<char>>
    decreases j,
{
    let children = s.nodes[node as int].children;
    if j <= 0 || j > children.len() {
        Seq::empty()
    } else {
        let before = required(s, node, cf, j - 1);
        let c = s.nodes[children[j - 1] as int];
        if counted(c, cf) && c.mandatory {
            before.push(c.name)
        } else {
            before
        }
    }
}

/// The first `n` of some texts, each only once.
pub open spec fn distinct(s: Seq<Seq<char>>, n: int) -> Seq<Seq<char>>
    decreases n,
{
    if n <= 0 {
        Seq::empty()
    } else {
        let before = distinct(s, n - 1);
        if find_text(before, s[n - 1], 0) is Some {
            before
        } else {
            before.push(s[n - 1])
        }
    }
}

/// The members of a schema for an object.
pub open spec fn object_members(props: Seq<(Seq<char>, Tree)>) -> Seq<(Seq<char>, Tree)> {
    seq![
        ("type"@, Tree::Text("object"@)),
        ("additionalProperties"@, Tree::Bool(false)),
        ("properties"@, Tree::Object(props)),
    ]
}

/// Some members with the names of what is required, if anything is.
pub open spec fn with_required(m: Seq<(Seq<char>, Tree)>, names: Seq<Seq<char>>) -> Seq<
    (Seq<char>, Tree),
> {
    if names.len() == 0 {
        m
    } else {
        m.push(("required"@, text_list(names)))
    }
}

/// The schema for an entry of a list.
pub open spec fn entry_schema(names: Seq<Seq<char>>, props: Seq<(Seq<char>, Tree)>) -> Tree {
    Tree::Object(
        seq![
            ("type"@, Tree::Text("object"@)),
            ("additionalProperties"@, Tree::Bool(false)),
            ("required"@, text_list(names)),
            ("properties"@, Tree::Object(props)),
        ],
    )
}

/// The members of the schema for a node, without its description. Under
/// `fetch` and `ipatch` a single entry may stand for a list.
pub open spec fn shape(s: SchemaView, node: usize, cf: Seq<char>) -> Seq<(Seq<char>, Tree)>
    decreases s.nodes.len() - node, 1int, 0int,
{
    let n = s.nodes[node as int];
    let count = n.children.len() as int;
    let props = properties(s, node, cf, count);
    let needed = required(s, node, cf, count);
    if n.kw == "module"@ {
        with_required(
            seq![
                ("title"@, Tree::Text(n.name)),
                ("$schema"@, Tree::Text("http://json-schema.org/draft-07/schema#"@)),
            ] + object_members(props),
            needed,
        )
    } else if n.kw == "container"@ {
        with_required(object_members(props), needed)
    } else if n.kw == "leaf"@ {
        type_schema(s, n.type_id->0, s.types.len())->Object_0
    } else if n.kw == "leaf-list"@ {
        let list = seq![
            ("type"@, Tree::Text("array"@)),
            ("items"@, type_schema(s, n.type_id->0, s.types.len())),
        ];
        if n.config {
            list.push(("uniqueItems"@, Tree::Bool(true)))
        } else {
            list
        }
    } else if n.kw == "list"@ {
        let all = n.keys + needed;
        let names = distinct(all, all.len() as int);
        let list = seq![
            ("type"@, Tree::Text("array"@)),
            ("items"@, entry_schema(names, props)),
        ];
        if cf == "fetch"@ || cf == "ipatch"@ {
            seq![("oneOf"@, Tree::Array(seq![Tree::Object(list), entry_schema(names, props)]))]
        } else {
            list
        }
    } else if is_side(n.kw) {
        if n.children.len() == 0 {
            seq![("type"@, Tree::Text("null"@))]
        } else {
            // Here what is required does not depend on the content format.
            with_required(object_members(props), required(s, node, Seq::empty(), count))
        }
    } else if is_operation(n.kw) {
        let input = child_with_kw(s.nodes, n.children, "input"@, 0)->0;
        let output = child_with_kw(s.nodes, n.children, "output"@, 0)->0;
        if s.nodes[input as int].children.len() == 0 && s.nodes[output as int].children.len()
            == 0 {
            seq![("type"@, Tree::Text("null"@))]
        } else {
            seq![
                (
                    "oneOf"@,
                    Tree::Array(seq![only_type("null"@), Tree::Object(object_members(props))]),
                ),
            ]
        }
    } else {
        Seq::empty()
    }
}

/// The schema for a node and all below it.
pub open spec fn schema_for(s: SchemaView, node: usize, cf: Seq<char>) -> Tree
    decreases s.nodes.len() - node, 2int, 0int,
{
    let m = shape(s, node, cf);
    Tree::Object(
        match s.nodes[node as int].description {
            Some(d) => with_member(m, "description"@, Tree::Text(d)),
            None => m,
        },
    )
}

/// The schema for the values of a type is an object.
proof fn lemma_type_schema_is_object(s: SchemaView, id: usize, fuel: nat)
    requires
        type_describable(s, id, fuel),
    ensures
        type_schema(s, id, fuel) is Object,
    decreases fuel,
{
    let t = s.types[id as int];
    if t.builtin == Builtin::Leafref {
        lemma_type_schema_is_object(
            s,
            s.nodes[t.leafref_target->0 as int].type_id->0,
            (fuel - 1) as nat,
        );
    }
}

/// Whether the values of a type can be described.
fn can_describe_type(schema: &Schema, id: TypeId, fuel: usize) -> (r: bool)
    requires
        schema.wf(),
        id < schema.types@.len(),
    ensures
        r == type_describable(schema@, id, fuel as nat),
    decreases fuel,
{
    let ghost s = schema@;
    let t = &schema.types[id];
    assert(s.types[id as int] == t@);
    assert(type_ok(s.nodes.len() as int, s.identities.len() as int, id as int, t@));
    if fuel == 0 {
        return false;
    }
    if t.builtin == Builtin::Leafref {
        return match t.leafref_target {
            Some(n) => {
                assert(s.nodes[n as int] == schema.nodes@[n as int]@);
                assert(node_ok(
                    s.nodes.len() as int,
                    s.types.len() as int,
                    n as int,
                    s.nodes[n as int],
                ));
                match schema.nodes[n].type_id {
                    Some(next) => can_describe_type(schema, next, fuel - 1),
                    None => false,
                }
            },
            None => false,
        };
    }
    if t.builtin == Builtin::Union {
        let mut i: usize = 0;
        while i < t.union_members.len()
            invariant
                i <= t.union_members@.len(),
                schema.wf(),
                s == schema@,
                fuel > 0,
                id < schema.types@.len(),
                t@ == s.types[id as int],
                t.builtin == Builtin::Union,
                type_ok(s.nodes.len() as int, s.identities.len() as int, id as int, t@),
                forall|k: int|
                    0 <= k < i ==> type_describable(
                        s,
                        #[trigger] t@.union_members[k],
                        (fuel - 1) as nat,
                    ),
            decreases t.union_members@.len() - i,
        {
            assert(t@.union_members[i as int] == t.union_members@[i as int]);
            if !can_describe_type(schema, t.union_members[i], fuel - 1) {
                return false;
            }
            i += 1;
        }
    }
    true
}

/// The first child with a keyword.
fn find_child_with_kw(schema: &Schema, node: NodeId, kw: &str) -> (r: Option<NodeId>)
    requires
        schema.wf(),
        node < schema.nodes@.len(),
    ensures
        r == child_with_kw(schema@.nodes, schema@.nodes[node as int].children, kw@, 0),
        r matches Some(c) ==> c < schema.nodes@.len(),
{
    let ghost s = schema@;
    let n = &schema.nodes[node];
    assert(s.nodes[node as int] == n@);
    assert(node_ok(s.nodes.len() as int, s.types.len() as int, node as int, n@));
    let mut i: usize = 0;
    while i < n.children.len()
        invariant
            i <= n.children@.len(),
            s == schema@,
            n@ == s.nodes[node as int],
            node_ok(s.nodes.len() as int, s.types.len() as int, node as int, n@),
            child_with_kw(s.nodes, n@.children, kw@, 0) == child_with_kw(
                s.nodes,
                n@.children,
                kw@,
                i as int,
            ),
        decreases n.children@.len() - i,
    {
        let c: usize = n.children[i];
        assert(n@.children[i as int] == c);
        assert(s.nodes[c as int] == schema.nodes@[c as int]@);
        if same(schema.nodes[c].kw.as_str(), kw) {
            return Some(c);
        }
        i += 1;
    }
    None
}

/// Whether a node is a side of an operation.
fn is_side_kw(kw: &str) -> (r: bool)
    ensures
        r == is_side(kw@),
{
    same(kw, "input") || same(kw, "output")
}

/// Whether a child has a property of its own.
fn gets_property(kw: &str, config: bool, cf: &str) -> (r: bool)
    ensures
        forall|c: NodeView|
            c.kw == kw@ && c.config == config ==> r == #[trigger] has_property(c, cf@),
{
    let skip: bool = (same(cf, "ipatch") || same(cf, "put")) && !config;
    !skip && (same(kw, "container") || same(kw, "leaf") || same(kw, "leaf-list") || same(kw, "list")
        || same(kw, "anydata") || same(kw, "anyxml") || is_side_kw(kw))
}

/// Whether a node and all below it can be described.
pub fn can_describe(schema: &Schema, node: NodeId, content_format: &str) -> (r: bool)
    requires
        schema.wf(),
        node < schema.nodes@.len(),
    ensures
        r == describable(schema@, node, content_format@),
    decreases schema.nodes@.len() - node,
{
    let ghost s = schema@;
    let n = &schema.nodes[node];
    assert(s.nodes[node as int] == n@);
    assert(node_ok(s.nodes.len() as int, s.types.len() as int, node as int, n@));
    let kw = n.kw.as_str();
    let own: bool = if same(kw, "leaf") || same(kw, "leaf-list") {
        match n.type_id {
            Some(t) => can_describe_type(schema, t, schema.types.len()),
            None => false,
        }
    } else if same(kw, "action") || same(kw, "rpc") {
        find_child_with_kw(schema, node, "input").is_some() && find_child_with_kw(
            schema,
            node,
            "output",
        ).is_some()
    } else {
        same(kw, "module") || same(kw, "container") || same(kw, "list") || same(kw, "anydata")
            || same(kw, "anyxml") || is_side_kw(kw)
    };
    assert(own == node_describable(s, node));
    if !own {
        return false;
    }
    let mut j: usize = 0;
    while j < n.children.len()
        invariant
            j <= n.children@.len(),
            schema.wf(),
            s == schema@,
            node < schema.nodes@.len(),
            n@ == s.nodes[node as int],
            node_ok(s.nodes.len() as int, s.types.len() as int, node as int, n@),
            node_describable(s, node),
            children_describable(s, node, content_format@, 0) == children_describable(
                s,
                node,
                content_format@,
                j as int,
            ),
        decreases n.children@.len() - j,
    {
        let id: usize = n.children[j];
        assert(n@.children[j as int] == id);
        let c = &schema.nodes[id];
        assert(s.nodes[id as int] == c@);
        let wanted = gets_property(c.kw.as_str(), c.config, content_format);
        assert(wanted == has_property(c@, content_format@));
        if wanted {
            if !can_describe(schema, id, content_format) {
                return false;
            }
        }
        j += 1;
    }
    true
}

/// The properties for the children of a node.
fn list_properties(schema: &Schema, node: NodeId, cf: &str) -> (r: Vec<(String, Json)>)
    requires
        schema.wf(),
        node < schema.nodes@.len(),
        describable(schema@, node, cf@),
    ensures
        members(r@) == properties(
            schema@,
            node,
            cf@,
            schema@.nodes[node as int].children.len() as int,
        ),
    decreases schema.nodes@.len() - node, 0int,
{
    let ghost s = schema@;
    let n = &schema.nodes[node];
    assert(s.nodes[node as int] == n@);
    assert(node_ok(s.nodes.len() as int, s.types.len() as int, node as int, n@));
    let mut out: Vec<(String, Json)> = Vec::new();
    let mut j: usize = 0;
    assert(members(out@) =~= Seq::empty());
    while j < n.children.len()
        invariant
            j <= n.children@.len(),
            schema.wf(),
            s == schema@,
            node < schema.nodes@.len(),
            n@ == s.nodes[node as int],
            node_ok(s.nodes.len() as int, s.types.len() as int, node as int, n@),
            children_describable(s, node, cf@, j as int),
            members(out@) == properties(s, node, cf@, j as int),
        decreases n.children@.len() - j,
    {
        let id: usize = n.children[j];
        assert(n@.children[j as int] == id);
        let c = &schema.nodes[id];
        assert(s.nodes[id as int] == c@);
        let wanted = gets_property(c.kw.as_str(), c.config, cf);
        assert(wanted == has_property(c@, cf@));
        if wanted {
            let value = to_json_schema(schema, id, cf);
            let key = if is_side_kw(c.kw.as_str()) {
                c.kw.clone()
            } else {
                c.name.clone()
            };
            insert(&mut out, key, value);
        }
        j += 1;
    }
    out
}

/// The names of the mandatory children of a node.
fn list_required(schema: &Schema, node: NodeId, cf: &str) -> (r: Vec<String>)
    requires
        schema.wf(),
        node < schema.nodes@.len(),
    ensures
        texts(r@) == required(
            schema@,
            node,
            cf@,
            schema@.nodes[node as int].children.len() as int,
        ),
{
    let ghost s = schema@;
    let n = &schema.nodes[node];
    assert(s.nodes[node as int] == n@);
    assert(node_ok(s.nodes.len() as int, s.types.len() as int, node as int, n@));
    let skip: bool = same(cf, "ipatch") || same(cf, "put");
    let mut out: Vec<String> = Vec::new();
    let mut j: usize = 0;
    assert(texts(out@) =~= Seq::empty());
    while j < n.children.len()
        invariant
            j <= n.children@.len(),
            s == schema@,
            n@ == s.nodes[node as int],
            node_ok(s.nodes.len() as int, s.types.len() as int, node as int, n@),
            skip == (cf@ == "ipatch"@ || cf@ == "put"@),
            texts(out@) == required(s, node, cf@, j as int),
        decreases n.children@.len() - j,
    {
        let id: usize = n.children[j];
        assert(n@.children[j as int] == id);
        let c = &schema.nodes[id];
        assert(s.nodes[id as int] == c@);
        let ghost had = texts(out@);
        if !(skip && !c.config) && c.mandatory {
            let name = c.name.clone();
            out.push(name);
            assert(texts(out@) =~= had.push(name@));
        }
        j += 1;
    }
    out
}

/// Some texts, each only once.
pub fn dedup_preserve_order(items: &Vec<String>) -> (r: Vec<String>)
    ensures
        texts(r@) == distinct(texts(items@), items@.len() as int),
{
    let ghost all = texts(items@);
    let mut out: Vec<String> = Vec::new();
    let mut i: usize = 0;
    assert(texts(out@) =~= Seq::empty());
    while i < items.len()
        invariant
            i <= items@.len(),
            all == texts(items@),
            texts(out@) == distinct(all, i as int),
        decreases items@.len() - i,
    {
        assert(all[i as int] == items@[i as int]@);
        let ghost had = texts(out@);
        if position_of(out.as_slice(), items[i].as_str()).is_none() {
            let one = items[i].clone();
            out.push(one);
            assert(texts(out@) =~= had.push(one@));
        }
        i += 1;
    }
    out
}

/// Adds the members of a schema for an object.
fn put_object(m: &mut Vec<(String, Json)>, props: Vec<(String, Json)>)
    ensures
        members(final(m)@) == members(old(m)@) + object_members(members(props@)),
{
    let ghost before = members(m@);
    put(m, "type", text("object"));
    put(m, "additionalProperties", Json::Bool(false));
    put(m, "properties", Json::Object(props));
    assert(members(m@) =~= before + object_members(members(props@)));
}

/// Adds the names of what is required, if anything is.
fn put_required(m: &mut Vec<(String, Json)>, names: &Vec<String>)
    ensures
        members(final(m)@) == with_required(members(old(m)@), texts(names@)),
{
    if names.len() > 0 {
        put(m, "required", json_strings(names));
    }
}

/// The schema for an entry of a list.
fn make_entry_schema(names: &Vec<String>, props: Vec<(String, Json)>) -> (r: Json)
    ensures
        r@ == entry_schema(texts(names@), members(props@)),
{
    let ghost p = members(props@);
    let mut m: Vec<(String, Json)> = Vec::new();
    put(&mut m, "type", text("object"));
    put(&mut m, "additionalProperties", Json::Bool(false));
    put(&mut m, "required", json_strings(names));
    put(&mut m, "properties", Json::Object(props));
    assert(members(m@) =~= entry_schema(texts(names@), p)->Object_0);
    Json::Object(m)
}

/// A choice between two schemas.
fn one_of(a: Json, b: Json) -> (r: Vec<(String, Json)>)
    ensures
        members(r@) == seq![("oneOf"@, Tree::Array(seq![a@, b@]))],
{
    let mut both: Vec<Json> = Vec::new();
    let ghost x = a@;
    let ghost y = b@;
    both.push(a);
    both.push(b);
    assert(trees(both@) =~= seq![x, y]);
    let mut m: Vec<(String, Json)> = Vec::new();
    put(&mut m, "oneOf", Json::Array(both));
    assert(members(m@) =~= seq![("oneOf"@, Tree::Array(seq![x, y]))]);
    m
}

/// The members of a schema that is only a type.
fn type_members(t: &str) -> (r: Vec<(String, Json)>)
    ensures
        members(r@) == seq![("type"@, Tree::Text(t@))],
{
    let mut m: Vec<(String, Json)> = Vec::new();
    put(&mut m, "type", text(t));
    assert(members(m@) =~= seq![("type"@, Tree::Text(t@))]);
    m
}

/// The members of the schema for a list.
fn list_shape(keys: &Vec<String>, needed: &Vec<String>, props: Vec<(String, Json)>, both: bool) -> (r:
    Vec<(String, Json)>)
    ensures
        ({
            let all = texts(keys@) + texts(needed@);
            let names = distinct(all, all.len() as int);
            let entry = entry_schema(names, members(props@));
            let list = seq![("type"@, Tree::Text("array"@)), ("items"@, entry)];
            members(r@) == if both {
                seq![("oneOf"@, Tree::Array(seq![Tree::Object(list), entry]))]
            } else {
                list
            }
        }),
{
    let mut all: Vec<String> = Vec::new();
    let mut i: usize = 0;
    while i < keys.len()
        invariant
            i <= keys@.len(),
            all@.len() == i,
            forall|k: int| 0 <= k < i ==> (#[trigger] all@[k])@ == keys@[k]@,
        decreases keys@.len() - i,
    {
        all.push(keys[i].clone());
        i += 1;
    }
    let mut j: usize = 0;
    while j < needed.len()
        invariant
            j <= needed@.len(),
            all@.len() == keys@.len() + j,
            forall|k: int| 0 <= k < keys@.len() ==> (#[trigger] all@[k])@ == keys@[k]@,
            forall|k: int|
                keys@.len() <= k < keys@.len() + j ==> (#[trigger] all@[k])@ == needed@[k
                    - keys@.len()]@,
        decreases needed@.len() - j,
    {
        all.push(needed[j].clone());
        j += 1;
    }
    assert(texts(all@) =~= texts(keys@) + texts(needed@));
    let names = dedup_preserve_order(&all);
    let ghost p = members(props@);
    let entry = make_entry_schema(&names, props);
    let ghost e = entry@;
    let second = entry.clone();
    let mut list: Vec<(String, Json)> = Vec::new();
    put(&mut list, "type", text("array"));
    put(&mut list, "items", entry);
    assert(members(list@) =~= seq![("type"@, Tree::Text("array"@)), ("items"@, e)]);
    if both {
        one_of(Json::Object(list), second)
    } else {
        list
    }
}

/// The members of the schema for a node, without its description.
fn make_shape(schema: &Schema, node: NodeId, cf: &str) -> (r: Vec<(String, Json)>)
    requires
        schema.wf(),
        node < schema.nodes@.len(),
        describable(schema@, node, cf@),
    ensures
        members(r@) == shape(schema@, node, cf@),
    decreases schema.nodes@.len() - node, 1int,
{
    let ghost s = schema@;
    let n = &schema.nodes[node];
    assert(s.nodes[node as int] == n@);
    assert(node_ok(s.nodes.len() as int, s.types.len() as int, node as int, n@));
    let kw = n.kw.as_str();
    let props = list_properties(schema, node, cf);
    let needed = list_required(schema, node, cf);
    let ghost p = members(props@);
    let mut m: Vec<(String, Json)> = Vec::new();
    assert(members(m@) =~= Seq::empty());
    if same(kw, "module") {
        put(&mut m, "title", text(n.name.as_str()));
        put(&mut m, "$schema", text("http://json-schema.org/draft-07/schema#"));
        assert(members(m@) =~= seq![
            ("title"@, Tree::Text(n@.name)),
            ("$schema"@, Tree::Text("http://json-schema.org/draft-07/schema#"@)),
        ]);
        put_object(&mut m, props);
        put_required(&mut m, &needed);
        return m;
    }
    if same(kw, "container") {
        put_object(&mut m, props);
        assert(members(m@) =~= object_members(p));
        put_required(&mut m, &needed);
        return m;
    }
    if same(kw, "leaf") {
        let t: usize = match n.type_id {
            Some(t) => t,
            None => 0,
        };
        proof {
            lemma_type_schema_is_object(s, t, s.types.len());
        }
        return match type2schema(schema, t, schema.types.len()) {
            Json::Object(m) => m,
            _ => m,
        };
    }
    if same(kw, "leaf-list") {
        let t: usize = match n.type_id {
            Some(t) => t,
            None => 0,
        };
        let items = type2schema(schema, t, schema.types.len());
        let ghost i = items@;
        put(&mut m, "type", text("array"));
        put(&mut m, "items", items);
        assert(members(m@) =~= seq![("type"@, Tree::Text("array"@)), ("items"@, i)]);
        if n.config {
            put(&mut m, "uniqueItems", Json::Bool(true));
        }
        return m;
    }
    if same(kw, "list") {
        let both: bool = same(cf, "fetch") || same(cf, "ipatch");
        return list_shape(&n.keys, &needed, props, both);
    }
    if is_side_kw(kw) {
        if n.children.len() == 0 {
            return type_members("null");
        }
        put_object(&mut m, props);
        assert(members(m@) =~= object_members(p));
        let none = String::new();
        let always = list_required(schema, node, none.as_str());
        assert(none@ =~= Seq::empty());
        put_required(&mut m, &always);
        return m;
    }
    if same(kw, "action") || same(kw, "rpc") {
        let input: usize = match find_child_with_kw(schema, node, "input") {
            Some(c) => c,
            None => 0,
        };
        let output: usize = match find_child_with_kw(schema, node, "output") {
            Some(c) => c,
            None => 0,
        };
        assert(s.nodes[input as int] == schema.nodes@[input as int]@);
        assert(s.nodes[output as int] == schema.nodes@[output as int]@);
        if schema.nodes[input].children.len() == 0 && schema.nodes[output].children.len() == 0 {
            return type_members("null");
        }
        put_object(&mut m, props);
        assert(members(m@) =~= object_members(p));
        return one_of(just_type("null"), Json::Object(m));
    }
    m
}

/// The JSON Schema for a node and all below it, under one of the content
/// formats `yang`, `fetch`, `ipatch`, `get`, `put` and `post`.
pub fn to_json_schema(schema: &Schema, node: NodeId, content_format: &str) -> (r: Json)
    requires
        schema.wf(),
        node < schema.nodes@.len(),
        describable(schema@, node, content_format@),
    ensures
        r@ == schema_for(schema@, node, content_format@),
    decreases schema.nodes@.len() - node, 2int,
{
    let mut m = make_shape(schema, node, content_format);
    assert(schema@.nodes[node as int] == schema.nodes@[node as int]@);
    if let Some(d) = &schema.nodes[node].description {
        let key = owned("description");
        let value = text(d.as_str());
        insert(&mut m, key, value);
    }
    Json::Object(m)
}

} // verus!
