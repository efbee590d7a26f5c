//! Values that take a look around in the schema: references to leaves,
//! identities, and the members of unions.
use vstd::prelude::*;

use crate::cbor::value::{lemma_view, Item, Value as Cbor};
use crate::json::{json_text, lemma_json_view, to_text, trees, Json, Tree};
use crate::text::{
    cat, cat3, chars_of, decimal, decimal_text, index_from, index_of, is_digit, join, joined,
    number_in, owned, parse_number, quoted, quoted_text, same, text_between, texts,
};
use crate::yang::bits::{bit_named, bit_names, find_bit, read_bit_names};
use crate::yang::scalars::{
    cbor_as_i128, enum_named, find_enum, item_number, item_of, low_i64, signed_low, tree_of,
    unexpected_message, unexpected_value, CodecError,
};
use crate::yang::schema::{
    builtin_name, contains_id, derives, is_narrow, is_wide, node_ok, type_ok, BitView, Builtin,
    IdentityView, Schema, SchemaView, TypeDef, TypeId, TypeView,
};

verus! {

broadcast use {lemma_view, lemma_json_view};

/// The type that a leafref refers to, if it refers to one.
pub open spec fn referred(s: SchemaView, id: usize) -> Option<usize> {
    let t = s.types[id as int];
    if t.builtin == Builtin::Leafref && t.leafref_target is Some {
        s.nodes[t.leafref_target->0 as int].type_id
    } else {
        None
    }
}

/// The type at the end of a chain of at most `fuel` leafrefs.
pub open spec fn followed(s: SchemaView, id: usize, fuel: nat) -> usize
    decreases fuel,
{
    match referred(s, id) {
        Some(t) => if fuel > 0 {
            followed(s, t, (fuel - 1) as nat)
        } else {
            id
        },
        None => id,
    }
}

/// The type that governs the values of a type: the end of its chain of
/// leafrefs. A chain longer than there are types goes round in a circle, and
/// ends at some leafref.
pub open spec fn governing(s: SchemaView, id: usize) -> usize {
    followed(s, id, s.types.len())
}

/// The built-in type that governs the values of a type.
pub open spec fn governing_builtin(s: SchemaView, id: usize) -> Builtin {
    s.types[governing(s, id) as int].builtin
}

/// The type that governs the values of a type.
pub fn resolved_builtin(schema: &Schema, type_id: TypeId) -> (r: (Builtin, TypeId))
    requires
        schema.wf(),
        type_id < schema.types@.len(),
    ensures
        r.1 == governing(schema@, type_id),
        r.0 == governing_builtin(schema@, type_id),
        r.1 < schema.types@.len(),
{
    let ghost s = schema@;
    let mut id: usize = type_id;
    let mut fuel: usize = schema.types.len();
    loop
        invariant
            s == schema@,
            schema.wf(),
            id < schema.types@.len(),
            governing(s, type_id) == followed(s, id, fuel as nat),
        decreases fuel,
    {
        let t = &schema.types[id];
        assert(s.types[id as int] == t@);
        assert(type_ok(s.nodes.len() as int, s.identities.len() as int, id as int, t@));
        if t.builtin != Builtin::Leafref || fuel == 0 {
            return (t.builtin, id);
        }
        let target = match t.leafref_target {
            Some(n) => n,
            None => {
                return (t.builtin, id);
            },
        };
        let n = &schema.nodes[target];
        assert(s.nodes[target as int] == n@);
        assert(node_ok(s.nodes.len() as int, s.types.len() as int, target as int, n@));
        match n.type_id {
            Some(next) => {
                id = next;
            },
            None => {
                return (t.builtin, id);
            },
        }
        fuel -= 1;
    }
}

/// Whether an identity is derived from all bases of a type, or is one.
pub open spec fn is_candidate(ids: Seq<IdentityView>, bases: Seq<usize>, id: int) -> bool {
    forall|k: int| 0 <= k < bases.len() ==> derives(ids, #[trigger] bases[k] as int, id)
}

/// Whether a text names an identity: by module and name, or by its name in
/// the module that declared the type.
pub open spec fn names_identity(text: Seq<char>, d: IdentityView, source: Seq<char>) -> bool {
    let i = index_from(text, ':', 0);
    if i < text.len() {
        d.module == text.subrange(0, i) && d.name == text.subrange(i + 1, text.len() as int)
    } else {
        d.module == source && d.name == text
    }
}

/// The module that declared a type.
pub open spec fn source_of(ty: TypeView) -> Seq<char> {
    match ty.source_module {
        Some(m) => m,
        None => Seq::empty(),
    }
}

/// The first identity, from `from` on, that a type allows and a text names.
pub open spec fn identity_meant(
    ids: Seq<IdentityView>,
    ty: TypeView,
    text: Seq<char>,
    from: int,
) -> Option<int>
    decreases ids.len() - from,
{
    if from >= ids.len() {
        None
    } else if is_candidate(ids, ty.identity_bases, from) && names_identity(
        text,
        ids[from],
        source_of(ty),
    ) {
        Some(from)
    } else {
        identity_meant(ids, ty, text, from + 1)
    }
}

/// The identities that a type allows, in the order of the schema; nothing if
/// the type has no base at all.
pub fn all_identity_bases(schema: &Schema, ty: &TypeDef) -> (r: Option<Vec<usize>>)
    requires
        schema.wf(),
        forall|k: int|
            0 <= k < ty.identity_bases@.len() ==> #[trigger] ty.identity_bases@[k]
                < schema.identities@.len(),
    ensures
        match r {
            Some(v) => ty@.identity_bases.len() > 0 && v@ == candidates(
                schema@.identities,
                ty@.identity_bases,
                schema@.identities.len() as int,
            ),
            None => ty@.identity_bases.len() == 0,
        },
{
    if ty.identity_bases.len() == 0 {
        return None;
    }
    let ghost ids = schema@.identities;
    let ghost bases = ty.identity_bases@;
    let n: usize = schema.identities.len();
    let mut sets: Vec<Vec<usize>> = Vec::new();
    let mut k: usize = 0;
    while k < ty.identity_bases.len()
        invariant
            k <= ty.identity_bases@.len(),
            schema.wf(),
            ids == schema@.identities,
            bases == ty.identity_bases@,
            n == ids.len(),
            forall|k: int| 0 <= k < bases.len() ==> #[trigger] bases[k] < n,
            sets@.len() == k,
            forall|j: int, id: usize|
                0 <= j < k ==> (#[trigger] sets@[j]@.contains(id) <==> id < n && derives(
                    ids,
                    bases[j] as int,
                    id as int,
                )),
        decreases ty.identity_bases@.len() - k,
    {
        assert(bases[k as int] < n);
        let set = schema.derived_from(ty.identity_bases[k]);
        sets.push(set);
        k += 1;
    }
    let mut out: Vec<usize> = Vec::new();
    let mut id: usize = 0;
    while id < n
        invariant
            id <= n,
            n == ids.len(),
            sets@.len() == bases.len(),
            forall|j: int, id: usize|
                0 <= j < bases.len() ==> (#[trigger] sets@[j]@.contains(id) <==> id < n && derives(
                    ids,
                    bases[j] as int,
                    id as int,
                )),
            out@ == candidates(ids, bases, id as int),
        decreases n - id,
    {
        let mut all: bool = true;
        let mut j: usize = 0;
        while j < sets.len()
            invariant
                j <= sets@.len(),
                id < n,
                sets@.len() == bases.len(),
                forall|j: int, id: usize|
                    0 <= j < bases.len() ==> (#[trigger] sets@[j]@.contains(id) <==> id < n
                        && derives(ids, bases[j] as int, id as int)),
                all ==> forall|i: int|
                    0 <= i < j ==> derives(ids, #[trigger] bases[i] as int, id as int),
                !all ==> exists|i: int|
                    0 <= i < bases.len() && !derives(ids, #[trigger] bases[i] as int, id as int),
            decreases sets@.len() - j,
        {
            if !contains_id(sets[j].as_slice(), id) {
                assert(!sets@[j as int]@.contains(id));
                assert(!derives(ids, bases[j as int] as int, id as int));
                all = false;
            } else {
                assert(sets@[j as int]@.contains(id));
            }
            j += 1;
        }
        assert(all == is_candidate(ids, bases, id as int));
        if all {
            out.push(id);
        }
        id += 1;
    }
    Some(out)
}

/// The identities among the first `n` that some bases allow.
pub open spec fn candidates(ids: Seq<IdentityView>, bases: Seq<usize>, n: int) -> Seq<usize>
    decreases n,
{
    if n <= 0 {
        Seq::empty()
    } else if is_candidate(ids, bases, n - 1) {
        candidates(ids, bases, n - 1).push((n - 1) as usize)
    } else {
        candidates(ids, bases, n - 1)
    }
}

/// Whether a text names an identity.
fn is_named(text: &str, module: &str, name: &str, source: &str) -> (r: bool)
    ensures
        forall|d: IdentityView|
            d.module == module@ && d.name == name@ ==> r == #[trigger] names_identity(
                text@,
                d,
                source@,
            ),
{
    let chars = chars_of(text);
    let n: usize = chars.len();
    let i = index_of(chars.as_slice(), ':', 0);
    if i < n {
        let m = text_between(chars.as_slice(), 0, i);
        let local = text_between(chars.as_slice(), i + 1, n);
        same(module, m.as_str()) && same(name, local.as_str())
    } else {
        same(module, source) && same(name, text)
    }
}

/// Searching among the candidates finds what searching among all finds.
proof fn lemma_meant_among_candidates(
    ids: Seq<IdentityView>,
    ty: TypeView,
    text: Seq<char>,
    n: int,
    at: int,
)
    requires
        0 <= n <= ids.len() <= usize::MAX,
        0 <= at <= candidates(ids, ty.identity_bases, n).len(),
    ensures
        ({
            let c = candidates(ids, ty.identity_bases, n);
            (forall|k: int|
                0 <= k < at ==> !names_identity(text, ids[#[trigger] c[k] as int], source_of(ty)))
                && (at < c.len() && names_identity(text, ids[c[at] as int], source_of(ty)))
                ==> c[at] < n && identity_meant_before(ids, ty, text, n) == Some(c[at] as int)
        }),
        ({
            let c = candidates(ids, ty.identity_bases, n);
            (forall|k: int|
                0 <= k < c.len() ==> !names_identity(
                    text,
                    ids[#[trigger] c[k] as int],
                    source_of(ty),
                )) ==> identity_meant_before(ids, ty, text, n) is None
        }),
    decreases n,
{
    let c = candidates(ids, ty.identity_bases, n);
    if n > 0 {
        let before = candidates(ids, ty.identity_bases, n - 1);
        if at <= before.len() {
            lemma_meant_among_candidates(ids, ty, text, n - 1, at);
        }
        lemma_meant_among_candidates(ids, ty, text, n - 1, before.len() as int);
        assert(forall|k: int| 0 <= k < before.len() ==> c[k] == #[trigger] before[k]);
        if is_candidate(ids, ty.identity_bases, n - 1) {
            assert(c[before.len() as int] == n - 1);
        }
        if at < before.len() {
            assert(c[at] == before[at]);
        }
    }
}

/// The first identity among the first `n` that a type allows and a text
/// names.
spec fn identity_meant_before(ids: Seq<IdentityView>, ty: TypeView, text: Seq<char>, n: int) -> Option<
    int,
>
    decreases n,
{
    if n <= 0 {
        None
    } else {
        match identity_meant_before(ids, ty, text, n - 1) {
            Some(i) => Some(i),
            None => if is_candidate(ids, ty.identity_bases, n - 1) && names_identity(
                text,
                ids[n - 1],
                source_of(ty),
            ) {
                Some(n - 1)
            } else {
                None
            },
        }
    }
}

proof fn lemma_meant_before(ids: Seq<IdentityView>, ty: TypeView, text: Seq<char>, from: int)
    requires
        0 <= from <= ids.len(),
    ensures
        identity_meant_before(ids, ty, text, ids.len() as int) == match identity_meant_before(
            ids,
            ty,
            text,
            from,
        ) {
            Some(i) => Some(i),
            None => identity_meant(ids, ty, text, from),
        },
    decreases ids.len() - from,
{
    if from < ids.len() {
        lemma_meant_before(ids, ty, text, from + 1);
    }
}

/// The identity that a type allows and a text names.
fn find_identity(schema: &Schema, ty: &TypeDef, text: &str) -> (r: Option<usize>)
    requires
        schema.wf(),
        ty@.identity_bases.len() > 0,
        forall|k: int|
            0 <= k < ty.identity_bases@.len() ==> #[trigger] ty.identity_bases@[k]
                < schema.identities@.len(),
    ensures
        match r {
            Some(i) => i < schema.identities@.len() && identity_meant(
                schema@.identities,
                ty@,
                text@,
                0,
            ) == Some(i as int),
            None => identity_meant(schema@.identities, ty@, text@, 0) is None,
        },
{
    let ghost ids = schema@.identities;
    assert(ids.len() == schema.identities.len());
    let found = match all_identity_bases(schema, ty) {
        Some(v) => v,
        None => Vec::new(),
    };
    let empty = String::new();
    let source: &str = match &ty.source_module {
        Some(m) => m.as_str(),
        None => empty.as_str(),
    };
    assert(source@ =~= source_of(ty@));
    let ghost c = candidates(ids, ty@.identity_bases, ids.len() as int);
    proof {
        lemma_candidates_below(ids, ty@.identity_bases, ids.len() as int);
        lemma_meant_before(ids, ty@, text@, 0);
    }
    let mut i: usize = 0;
    while i < found.len()
        invariant
            i <= found@.len(),
            found@ == c,
            ids == schema@.identities,
            ids.len() <= usize::MAX,
            c == candidates(ids, ty@.identity_bases, ids.len() as int),
            source@ == source_of(ty@),
            forall|k: int| 0 <= k < c.len() ==> #[trigger] c[k] < ids.len(),
            forall|k: int|
                0 <= k < i ==> !names_identity(text@, ids[#[trigger] c[k] as int], source_of(ty@)),
            identity_meant_before(ids, ty@, text@, ids.len() as int) == identity_meant(
                ids,
                ty@,
                text@,
                0,
            ),
        decreases found@.len() - i,
    {
        let id: usize = found[i];
        assert(c[i as int] == id);
        let d = &schema.identities[id];
        assert(ids[id as int] == d@);
        let hit = is_named(text, d.module.as_str(), d.name.as_str(), source);
        assert(hit == names_identity(text@, ids[id as int], source_of(ty@)));
        if hit {
            proof {
                lemma_meant_among_candidates(ids, ty@, text@, ids.len() as int, i as int);
            }
            return Some(id);
        }
        i += 1;
    }
    proof {
        lemma_meant_among_candidates(ids, ty@, text@, ids.len() as int, c.len() as int);
    }
    None
}

pub proof fn lemma_candidates_below(ids: Seq<IdentityView>, bases: Seq<usize>, n: int)
    requires
        0 <= n <= usize::MAX,
    ensures
        forall|k: int|
            0 <= k < candidates(ids, bases, n).len() ==> #[trigger] candidates(ids, bases, n)[k]
                < n,
    decreases n,
{
    if n > 0 {
        lemma_candidates_below(ids, bases, n - 1);
        let before = candidates(ids, bases, n - 1);
        let now = candidates(ids, bases, n);
        assert forall|k: int| 0 <= k < now.len() implies #[trigger] now[k] < n by {
            if k < before.len() {
                assert(now[k] == before[k]);
            }
        }
    }
}

/// A reference to an identity as a data item: its SID, tagged in a union.
pub open spec fn identity_encoded(s: SchemaView, ty: TypeView, v: Tree, in_union: bool) -> Result<
    Item,
    Seq<char>,
> {
    match v {
        Tree::Text(text) => if ty.identity_bases.len() == 0 {
            Err(
                "this field's schema doesn't declare any allowed values at all -- this looks like a catalog problem"@,
            )
        } else {
            match identity_meant(s.identities, ty, text, 0) {
                None => Err(
                    quoted_text(text) + " is not one of the allowed values for this field"@,
                ),
                Some(i) => match s.identities[i].sid {
                    None => Err(
                        quoted_text(text)
                            + " exists in the schema but has no SID assigned -- this looks like a catalog problem"@,
                    ),
                    Some(sid) => if in_union {
                        Ok(Item::Tag(45, Box::new(Item::Integer(sid as int))))
                    } else {
                        Ok(Item::Integer(sid as int))
                    },
                },
            }
        },
        _ => Err(
            "expected the name of one of this field's allowed values (as text), got "@ + json_text(
                v,
            ),
        ),
    }
}

/// A reference to an identity as a data item.
pub fn encode_identityref(schema: &Schema, ty: &TypeDef, v: &Json, in_union: bool) -> (r: Result<
    Cbor,
    CodecError,
>)
    requires
        schema.wf(),
        forall|k: int|
            0 <= k < ty.identity_bases@.len() ==> #[trigger] ty.identity_bases@[k]
                < schema.identities@.len(),
    ensures
        item_of(r) == identity_encoded(schema@, ty@, v@, in_union),
{
    let text = match v.as_str() {
        Some(text) => text,
        None => {
            let t = to_text(v);
            return Err(
                CodecError(
                    cat(
                        "expected the name of one of this field's allowed values (as text), got ",
                        t.as_str(),
                    ),
                ),
            );
        },
    };
    if ty.identity_bases.len() == 0 {
        return Err(
            CodecError(
                owned(
                    "this field's schema doesn't declare any allowed values at all -- this looks like a catalog problem",
                ),
            ),
        );
    }
    match find_identity(schema, ty, text) {
        None => {
            let q = quoted(text);
            Err(CodecError(cat(q.as_str(), " is not one of the allowed values for this field")))
        },
        Some(i) => {
            assert(schema@.identities[i as int] == schema.identities@[i as int]@);
            match schema.identities[i].sid {
                None => {
                    let q = quoted(text);
                    Err(
                        CodecError(
                            cat(
                                q.as_str(),
                                " exists in the schema but has no SID assigned -- this looks like a catalog problem",
                            ),
                        ),
                    )
                },
                Some(sid) => if in_union {
                    Ok(Cbor::tagged(45, Cbor::Integer(sid as i128)))
                } else {
                    Ok(Cbor::Integer(sid as i128))
                },
            }
        },
    }
}

/// The first identity with a SID, from `from` on.
pub open spec fn identity_with_sid(ids: Seq<IdentityView>, sid: int, from: int) -> Option<int>
    decreases ids.len() - from,
{
    if from >= ids.len() {
        None
    } else if ids[from].sid is Some && ids[from].sid->0 == sid {
        Some(from)
    } else {
        identity_with_sid(ids, sid, from + 1)
    }
}

/// The SID in a reference to an identity in a response.
pub open spec fn identity_sid(v: Item, in_union: bool) -> Result<int, Seq<char>> {
    if in_union {
        match v {
            Item::Tag(t, inner) => if t == 45 {
                match item_number(*inner) {
                    Some(n) => Ok(n),
                    None => Err(
                        unexpected_message("a whole number (an identity reference)"@, *inner),
                    ),
                }
            } else {
                Err(unexpected_message("an identity reference (tag 45)"@, v))
            },
            _ => Err(unexpected_message("an identity reference (tag 45)"@, v)),
        }
    } else {
        match item_number(v) {
            Some(n) => Ok(n),
            None => Err(unexpected_message("a whole number (an identity reference)"@, v)),
        }
    }
}

/// A reference to an identity in a response as a JSON value: always with the
/// module that defines the identity.
pub open spec fn identity_decoded(s: SchemaView, v: Item, in_union: bool) -> Result<
    Tree,
    Seq<char>,
> {
    match identity_sid(v, in_union) {
        Err(e) => Err(e),
        Ok(sid) => match identity_with_sid(s.identities, signed_low(sid), 0) {
            None => Err(
                "the device referenced identity #"@ + decimal_text(sid)
                    + ", which isn't in the loaded YANG catalog -- the catalog may not match this device's firmware"@,
            ),
            Some(i) => Ok(Tree::Text(s.identities[i].module + ":"@ + s.identities[i].name)),
        },
    }
}

/// A reference to an identity in a response as a JSON value.
pub fn decode_identityref(schema: &Schema, v: &Cbor, in_union: bool) -> (r: Result<
    Json,
    CodecError,
>)
    ensures
        tree_of(r) == identity_decoded(schema@, v@, in_union),
{
    let sid: i128 = if in_union {
        match v {
            Cbor::Tag(t, inner) => {
                if *t != 45 {
                    return Err(unexpected_value("an identity reference (tag 45)", v));
                }
                match cbor_as_i128(&**inner) {
                    Some(n) => n,
                    None => {
                        return Err(
                            unexpected_value("a whole number (an identity reference)", &**inner),
                        );
                    },
                }
            },
            _ => {
                return Err(unexpected_value("an identity reference (tag 45)", v));
            },
        }
    } else {
        match cbor_as_i128(v) {
            Some(n) => n,
            None => {
                return Err(unexpected_value("a whole number (an identity reference)", v));
            },
        }
    };
    let low: i64 = low_i64(sid);
    let ghost ids = schema@.identities;
    let mut i: usize = 0;
    while i < schema.identities.len()
        invariant
            i <= schema.identities@.len(),
            ids == schema@.identities,
            low == signed_low(sid as int),
            identity_sid(v@, in_union) == Ok::<int, Seq<char>>(sid as int),
            identity_with_sid(ids, low as int, 0) == identity_with_sid(ids, low as int, i as int),
        decreases schema.identities@.len() - i,
    {
        let d = &schema.identities[i];
        assert(ids[i as int] == d@);
        if d.sid == Some(low) {
            return Ok(Json::String(cat3(d.module.as_str(), ":", d.name.as_str())));
        }
        i += 1;
    }
    let n = decimal(sid);
    Err(
        CodecError(
            cat3(
                "the device referenced identity #",
                n.as_str(),
                ", which isn't in the loaded YANG catalog -- the catalog may not match this device's firmware",
            ),
        ),
    )
}

/// Whether a value is what an empty leaf has: a list of one null.
pub open spec fn is_null_list(v: Tree) -> bool {
    v matches Tree::Array(a) && a.len() == 1 && a[0] is Null
}

/// Whether a value is what an empty leaf has.
pub fn is_empty_value(v: &Json) -> (r: bool)
    ensures
        r == is_null_list(v@),
{
    match v {
        Json::Array(a) => {
            assert(a@.len() > 0 ==> trees(a@)[0] == a@[0]@);
            a.len() == 1 && a[0].is_null()
        },
        _ => false,
    }
}

/// The first place that is no dash, from `from` on.
pub open spec fn dashes_end(s: Seq<char>, from: int) -> int
    decreases s.len() - from,
{
    if from >= s.len() || s[from] != '-' {
        from
    } else {
        dashes_end(s, from + 1)
    }
}

/// Whether a text looks like a decimal: digits and a dot behind dashes.
pub open spec fn looks_decimal(s: Seq<char>) -> bool {
    &&& forall|i: int|
        dashes_end(s, 0) <= i < s.len() ==> is_digit(#[trigger] s[i]) || s[i] == '.'
    &&& exists|i: int| 0 <= i < s.len() && #[trigger] s[i] == '.'
}

/// Whether a text looks like a decimal.
fn is_decimal_text(text: &str) -> (r: bool)
    ensures
        r == looks_decimal(text@),
{
    let chars = chars_of(text);
    let n: usize = chars.len();
    let mut i: usize = 0;
    while i < n && chars[i] == '-'
        invariant
            i <= n,
            n == chars@.len(),
            chars@ == text@,
            dashes_end(text@, 0) == dashes_end(text@, i as int),
            forall|k: int| 0 <= k < i ==> #[trigger] text@[k] == '-',
        decreases n - i,
    {
        i += 1;
    }
    let start: usize = i;
    let mut dot: bool = false;
    while i < n
        invariant
            start <= i <= n,
            n == chars@.len(),
            chars@ == text@,
            start == dashes_end(text@, 0),
            forall|k: int| 0 <= k < start ==> #[trigger] text@[k] == '-',
            forall|k: int| start <= k < i ==> is_digit(#[trigger] text@[k]) || text@[k] == '.',
            dot == exists|k: int| 0 <= k < i && #[trigger] text@[k] == '.',
        decreases n - i,
    {
        let c = chars[i];
        if c == '.' {
            dot = true;
            assert(text@[i as int] == '.');
        } else if !('0' <= c && c <= '9') {
            assert(!is_digit(text@[i as int]) && text@[i as int] != '.');
            return false;
        }
        i += 1;
    }
    dot
}

/// Whether all of some names are names of bits.
pub open spec fn all_bits(bits: Seq<BitView>, names: Seq<Seq<char>>) -> bool {
    forall|i: int| 0 <= i < names.len() ==> bit_named(bits, #[trigger] names[i], 0) is Some
}

/// How a member of a union is looked for, from the most special way on.
#[derive(Debug, Clone, Copy, PartialEq, Eq, Structural)]
pub enum Way {
    Identity,
    Enumeration,
    Bits,
    Decimal,
    Wide,
    Plain,
    Text,
    Other,
}

/// Whether a value fits a member of a union in some way.
pub open spec fn fits(s: SchemaView, m: usize, v: Tree, way: Way) -> bool {
    let b = governing_builtin(s, m);
    let ty = s.types[governing(s, m) as int];
    match way {
        Way::Identity => b == Builtin::Identityref && v is Text && ty.identity_bases.len() > 0
            && identity_meant(s.identities, ty, v->Text_0, 0) is Some,
        Way::Enumeration => b == Builtin::Enumeration && v is Text && enum_named(
            ty.enums,
            v->Text_0,
            0,
        ) is Some,
        Way::Bits => b == Builtin::Bits && bit_names(v) is Some && bit_names(v)->0.len() > 0
            && all_bits(ty.bits, bit_names(v)->0),
        Way::Decimal => b == Builtin::Decimal64 && v is Text && looks_decimal(v->Text_0),
        Way::Wide => v is Text && ((b == Builtin::Int64 && number_in(
            v->Text_0,
            i64::MIN as int,
            i64::MAX as int,
        ) is Some) || (b == Builtin::Uint64 && number_in(v->Text_0, 0, u64::MAX as int) is Some)),
        Way::Plain => (b == Builtin::Boolean && v is Bool) || (is_narrow(b) && (v is Integer || v
            is Float)) || (b == Builtin::Empty && is_null_list(v)),
        Way::Text => b == Builtin::String && v is Text,
        Way::Other => (b == Builtin::Binary || b == Builtin::InstanceIdentifier) && v is Text,
    }
}

/// The first member, from `from` on, that a value fits in some way.
pub open spec fn first_fit(
    s: SchemaView,
    members: Seq<usize>,
    v: Tree,
    way: Way,
    from: int,
) -> Option<usize>
    decreases members.len() - from,
{
    if from >= members.len() {
        None
    } else if fits(s, members[from], v, way) {
        Some(members[from])
    } else {
        first_fit(s, members, v, way, from + 1)
    }
}

/// The member of a union that a JSON value belongs to: the most special way
/// in which it fits any decides.
pub open spec fn member_for_json(s: SchemaView, members: Seq<usize>, v: Tree) -> Option<usize> {
    if first_fit(s, members, v, Way::Identity, 0) is Some {
        first_fit(s, members, v, Way::Identity, 0)
    } else if first_fit(s, members, v, Way::Enumeration, 0) is Some {
        first_fit(s, members, v, Way::Enumeration, 0)
    } else if first_fit(s, members, v, Way::Bits, 0) is Some {
        first_fit(s, members, v, Way::Bits, 0)
    } else if first_fit(s, members, v, Way::Decimal, 0) is Some {
        first_fit(s, members, v, Way::Decimal, 0)
    } else if first_fit(s, members, v, Way::Wide, 0) is Some {
        first_fit(s, members, v, Way::Wide, 0)
    } else if first_fit(s, members, v, Way::Plain, 0) is Some {
        first_fit(s, members, v, Way::Plain, 0)
    } else if first_fit(s, members, v, Way::Text, 0) is Some {
        first_fit(s, members, v, Way::Text, 0)
    } else {
        first_fit(s, members, v, Way::Other, 0)
    }
}

/// Whether a value fits a member of a union in some way.
fn does_fit(schema: &Schema, m: TypeId, v: &Json, way: Way) -> (r: bool)
    requires
        schema.wf(),
        m < schema.types@.len(),
    ensures
        r == fits(schema@, m, v@, way),
{
    let (b, id) = resolved_builtin(schema, m);
    let ty = &schema.types[id];
    let ghost s = schema@;
    assert(s.types[id as int] == ty@);
    assert(type_ok(s.nodes.len() as int, s.identities.len() as int, id as int, ty@));
    match way {
        Way::Identity => match v.as_str() {
            Some(text) => b == Builtin::Identityref && ty.identity_bases.len() > 0 && find_identity(
                schema,
                ty,
                text,
            ).is_some(),
            None => false,
        },
        Way::Enumeration => match v.as_str() {
            Some(text) => b == Builtin::Enumeration && find_enum(&ty.enums, text).is_some(),
            None => false,
        },
        Way::Bits => {
            if b != Builtin::Bits {
                return false;
            }
            let names = match read_bit_names(v) {
                Some(names) => names,
                None => {
                    return false;
                },
            };
            let ghost all = texts(names@);
            let mut i: usize = 0;
            while i < names.len()
                invariant
                    i <= names@.len(),
                    all == texts(names@),
                    bit_names(v@) == Some(all),
                    s == schema@,
                    ty@ == s.types[governing(s, m) as int],
                    b == governing_builtin(s, m),
                    b == Builtin::Bits,
                    way == Way::Bits,
                    forall|k: int|
                        0 <= k < i ==> bit_named(ty@.bits, #[trigger] all[k], 0) is Some,
                decreases names@.len() - i,
            {
                assert(all[i as int] == names@[i as int]@);
                if find_bit(&ty.bits, names[i].as_str()).is_none() {
                    assert(bit_named(ty@.bits, all[i as int], 0) is None);
                    return false;
                }
                i += 1;
            }
            names.len() > 0
        },
        Way::Decimal => match v.as_str() {
            Some(text) => b == Builtin::Decimal64 && is_decimal_text(text),
            None => false,
        },
        Way::Wide => match v.as_str() {
            Some(text) => (b == Builtin::Int64 && parse_number(
                text,
                i64::MIN as i128,
                i64::MAX as i128,
            ).is_some()) || (b == Builtin::Uint64 && parse_number(
                text,
                0,
                u64::MAX as i128,
            ).is_some()),
            None => false,
        },
        Way::Plain => match v {
            Json::Bool(_) => b == Builtin::Boolean,
            Json::Integer(_) => b.is_narrow_int(),
            Json::Float(_) => b.is_narrow_int(),
            Json::Array(_) => b == Builtin::Empty && is_empty_value(v),
            _ => false,
        },
        Way::Text => b == Builtin::String && v.as_str().is_some(),
        Way::Other => (b == Builtin::Binary || b == Builtin::InstanceIdentifier)
            && v.as_str().is_some(),
    }
}

/// The first member that a value fits in some way.
fn find_fit(schema: &Schema, members: &Vec<TypeId>, v: &Json, way: Way) -> (r: Option<TypeId>)
    requires
        schema.wf(),
        forall|k: int| 0 <= k < members@.len() ==> #[trigger] members@[k] < schema.types@.len(),
    ensures
        r == first_fit(schema@, members@, v@, way, 0),
        r matches Some(m) ==> m < schema.types@.len(),
{
    let mut i: usize = 0;
    while i < members.len()
        invariant
            i <= members@.len(),
            schema.wf(),
            forall|k: int| 0 <= k < members@.len() ==> #[trigger] members@[k] < schema.types@.len(),
            first_fit(schema@, members@, v@, way, 0) == first_fit(
                schema@,
                members@,
                v@,
                way,
                i as int,
            ),
        decreases members@.len() - i,
    {
        let m: usize = members[i];
        assert(members@[i as int] == m);
        if does_fit(schema, m, v, way) {
            return Some(m);
        }
        i += 1;
    }
    None
}

/// The member of a union that a JSON value belongs to.
pub fn pick_union_member_for_json(schema: &Schema, ty: &TypeDef, v: &Json) -> (r: Option<TypeId>)
    requires
        schema.wf(),
        forall|k: int|
            0 <= k < ty.union_members@.len() ==> #[trigger] ty.union_members@[k]
                < schema.types@.len(),
    ensures
        r == member_for_json(schema@, ty@.union_members, v@),
        r matches Some(m) ==> m < schema.types@.len(),
{
    let members = &ty.union_members;
    let found = find_fit(schema, members, v, Way::Identity);
    if found.is_some() {
        return found;
    }
    let found = find_fit(schema, members, v, Way::Enumeration);
    if found.is_some() {
        return found;
    }
    let found = find_fit(schema, members, v, Way::Bits);
    if found.is_some() {
        return found;
    }
    let found = find_fit(schema, members, v, Way::Decimal);
    if found.is_some() {
        return found;
    }
    let found = find_fit(schema, members, v, Way::Wide);
    if found.is_some() {
        return found;
    }
    let found = find_fit(schema, members, v, Way::Plain);
    if found.is_some() {
        return found;
    }
    let found = find_fit(schema, members, v, Way::Text);
    if found.is_some() {
        return found;
    }
    find_fit(schema, members, v, Way::Other)
}

/// The kinds of members that a data item can belong to.
#[derive(Debug, Clone, Copy, PartialEq, Eq, Structural)]
pub enum Kind {
    /// Exactly this built-in type.
    Only(Builtin),
    /// An integer of 64 bits.
    Wide,
    /// Any integer.
    Whole,
    /// A string or an instance identifier.
    Textual,
}

/// Whether a built-in type is of a kind.
pub open spec fn is_of(b: Builtin, kind: Kind) -> bool {
    match kind {
        Kind::Only(c) => b == c,
        Kind::Wide => is_wide(b),
        Kind::Whole => is_narrow(b) || is_wide(b),
        Kind::Textual => b == Builtin::String || b == Builtin::InstanceIdentifier,
    }
}

/// The first member of a kind, from `from` on.
pub open spec fn first_of(s: SchemaView, members: Seq<usize>, kind: Kind, from: int) -> Option<usize>
    decreases members.len() - from,
{
    if from >= members.len() {
        None
    } else if is_of(governing_builtin(s, members[from]), kind) {
        Some(members[from])
    } else {
        first_of(s, members, kind, from + 1)
    }
}

/// The built-in type that a tag announces.
pub open spec fn tag_builtin(v: Item) -> Option<Builtin> {
    match v {
        Item::Tag(t, _) => if t == 4 {
            Some(Builtin::Decimal64)
        } else if t == 43 {
            Some(Builtin::Bits)
        } else if t == 44 {
            Some(Builtin::Enumeration)
        } else if t == 45 {
            Some(Builtin::Identityref)
        } else {
            None
        },
        _ => None,
    }
}

/// The member of a union that a data item belongs to: the one that its tag
/// announces, else the first of its kind. A number beyond 32 bits looks for a
/// 64-bit integer first.
pub open spec fn member_for_cbor(s: SchemaView, members: Seq<usize>, v: Item) -> Option<usize> {
    match v {
        Item::Tag(_, _) => match tag_builtin(v) {
            Some(b) => first_of(s, members, Kind::Only(b), 0),
            None => None,
        },
        Item::Integer(n) => if !(i32::MIN <= n <= u32::MAX) && first_of(
            s,
            members,
            Kind::Wide,
            0,
        ) is Some {
            first_of(s, members, Kind::Wide, 0)
        } else {
            first_of(s, members, Kind::Whole, 0)
        },
        Item::Text(_) => first_of(s, members, Kind::Textual, 0),
        Item::Bytes(_) => first_of(s, members, Kind::Only(Builtin::Binary), 0),
        Item::Bool(_) => first_of(s, members, Kind::Only(Builtin::Boolean), 0),
        Item::Null => first_of(s, members, Kind::Only(Builtin::Empty), 0),
        _ => None,
    }
}

/// The first member of a kind.
fn find_kind(schema: &Schema, members: &Vec<TypeId>, kind: Kind) -> (r: Option<TypeId>)
    requires
        schema.wf(),
        forall|k: int| 0 <= k < members@.len() ==> #[trigger] members@[k] < schema.types@.len(),
    ensures
        r == first_of(schema@, members@, kind, 0),
        r matches Some(m) ==> m < schema.types@.len(),
{
    let mut i: usize = 0;
    while i < members.len()
        invariant
            i <= members@.len(),
            schema.wf(),
            forall|k: int| 0 <= k < members@.len() ==> #[trigger] members@[k] < schema.types@.len(),
            first_of(schema@, members@, kind, 0) == first_of(schema@, members@, kind, i as int),
        decreases members@.len() - i,
    {
        let m: usize = members[i];
        assert(members@[i as int] == m);
        let (b, _) = resolved_builtin(schema, m);
        let hit: bool = match kind {
            Kind::Only(c) => b == c,
            Kind::Wide => b.is_64bit_int(),
            Kind::Whole => b.is_narrow_int() || b.is_64bit_int(),
            Kind::Textual => b == Builtin::String || b == Builtin::InstanceIdentifier,
        };
        if hit {
            return Some(m);
        }
        i += 1;
    }
    None
}

/// The member of a union that a data item belongs to.
pub fn pick_union_member_for_cbor(schema: &Schema, ty: &TypeDef, v: &Cbor) -> (r: Option<TypeId>)
    requires
        schema.wf(),
        forall|k: int|
            0 <= k < ty.union_members@.len() ==> #[trigger] ty.union_members@[k]
                < schema.types@.len(),
    ensures
        r == member_for_cbor(schema@, ty@.union_members, v@),
        r matches Some(m) ==> m < schema.types@.len(),
{
    let members = &ty.union_members;
    match v {
        Cbor::Tag(t, _) => {
            if *t == 4 {
                find_kind(schema, members, Kind::Only(Builtin::Decimal64))
            } else if *t == 43 {
                find_kind(schema, members, Kind::Only(Builtin::Bits))
            } else if *t == 44 {
                find_kind(schema, members, Kind::Only(Builtin::Enumeration))
            } else if *t == 45 {
                find_kind(schema, members, Kind::Only(Builtin::Identityref))
            } else {
                None
            }
        },
        Cbor::Integer(n) => {
            if !(i32::MIN as i128 <= *n && *n <= u32::MAX as i128) {
                let found = find_kind(schema, members, Kind::Wide);
                if found.is_some() {
                    return found;
                }
            }
            find_kind(schema, members, Kind::Whole)
        },
        Cbor::Text(_) => find_kind(schema, members, Kind::Textual),
        Cbor::Bytes(_) => find_kind(schema, members, Kind::Only(Builtin::Binary)),
        Cbor::Bool(_) => find_kind(schema, members, Kind::Only(Builtin::Boolean)),
        Cbor::Null => find_kind(schema, members, Kind::Only(Builtin::Empty)),
        _ => None,
    }
}

/// The names of the types that govern the members of a union.
pub open spec fn member_names(s: SchemaView, members: Seq<usize>) -> Seq<char> {
    joined(members.map_values(|m: usize| builtin_name(governing_builtin(s, m))), ", "@)
}

/// The names of the types that govern the members of a union.
pub fn union_member_kinds(schema: &Schema, ty: &TypeDef) -> (r: String)
    requires
        schema.wf(),
        forall|k: int|
            0 <= k < ty.union_members@.len() ==> #[trigger] ty.union_members@[k]
                < schema.types@.len(),
    ensures
        r@ == member_names(schema@, ty@.union_members),
{
    let mut names: Vec<String> = Vec::new();
    let mut i: usize = 0;
    while i < ty.union_members.len()
        invariant
            i <= ty.union_members@.len(),
            schema.wf(),
            forall|k: int|
                0 <= k < ty.union_members@.len() ==> #[trigger] ty.union_members@[k]
                    < schema.types@.len(),
            names@.len() == i,
            forall|k: int|
                0 <= k < i ==> (#[trigger] names@[k])@ == builtin_name(
                    governing_builtin(schema@, ty.union_members@[k]),
                ),
        decreases ty.union_members@.len() - i,
    {
        assert(ty.union_members@[i as int] < schema.types@.len());
        let (b, _) = resolved_builtin(schema, ty.union_members[i]);
        names.push(owned(b.name()));
        i += 1;
    }
    assert(texts(names@) =~= ty@.union_members.map_values(
        |m: usize| builtin_name(governing_builtin(schema@, m)),
    ));
    join(names.as_slice(), ", ")
}

} // verus!
