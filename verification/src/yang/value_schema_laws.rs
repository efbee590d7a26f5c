//! What the schemas for the values of types say.
use vstd::prelude::*;

use crate::json::Tree;
use crate::text::{decimal_text, joined};
use crate::yang::base64::{base64_text, group_text, text_from};
use crate::yang::choices::{candidates, is_candidate};
use crate::yang::describe_laws::{lemma_looked_up, looked_up};
use crate::yang::json_schema::{
    base64_range, identity_names, in_order, length_range, type_schema,
};
use crate::yang::list_laws::law_in_order;
use crate::yang::schema::{BitView, Builtin, EnumView, IdentityView, SchemaView, TypeView};

verus! {

/// The names of members are not the same.
proof fn lemma_words()
    ensures
        "type"@ != "anyOf"@,
        "type"@ != "pattern"@,
        "type"@ != "items"@,
        "type"@ != "minItems"@,
        "type"@ != "maxItems"@,
        "type"@ != "contentEncoding"@,
        "type"@ != "allOf"@,
        "anyOf"@ != "allOf"@,
        "anyOf"@ != "contentEncoding"@,
        "items"@ != "minItems"@,
        "items"@ != "maxItems"@,
        "minItems"@ != "maxItems"@,
        "minLength"@ != "maxLength"@,
{
    reveal_strlit("type");
    reveal_strlit("anyOf");
    reveal_strlit("pattern");
    reveal_strlit("items");
    reveal_strlit("minItems");
    reveal_strlit("maxItems");
    reveal_strlit("contentEncoding");
    reveal_strlit("allOf");
    reveal_strlit("minLength");
    reveal_strlit("maxLength");
    assert("type"@.len() == 4 && "anyOf"@.len() == 5 && "pattern"@.len() == 7 && "items"@.len() == 5
        && "minItems"@.len() == 8 && "maxItems"@.len() == 8 && "contentEncoding"@.len() == 15
        && "allOf"@.len() == 5);
    assert("anyOf"@[1] == 'n' && "allOf"@[1] == 'l');
    assert("minItems"@[1] == 'i' && "maxItems"@[1] == 'a');
    assert("minLength"@[1] == 'i' && "maxLength"@[1] == 'a');
}

/// Truth values are booleans; numbers of 64 bits, decimals, paths, bits, binary
/// data and texts are strings; and an empty leaf is an array of exactly one null.
pub proof fn law_kinds_of_values(s: SchemaView, id: usize, fuel: nat)
    requires
        fuel > 0,
    ensures
        ({
            let b = s.types[id as int].builtin;
            let schema = type_schema(s, id, fuel);
            &&& b == Builtin::Boolean ==> looked_up(schema, "type"@) == Some(
                Tree::Text("boolean"@),
            )
            &&& b == Builtin::Int64 || b == Builtin::Uint64 || b == Builtin::InstanceIdentifier || b
                == Builtin::Decimal64 || b == Builtin::Bits || b == Builtin::Binary || b
                == Builtin::String ==> looked_up(schema, "type"@) == Some(Tree::Text("string"@))
            &&& b == Builtin::Empty ==> {
                &&& looked_up(schema, "type"@) == Some(Tree::Text("array"@))
                &&& looked_up(schema, "minItems"@) == Some(Tree::Integer(1))
                &&& looked_up(schema, "maxItems"@) == Some(Tree::Integer(1))
                &&& looked_up(schema, "items"@) matches Some(each) && looked_up(each, "type"@)
                    == Some(Tree::Text("null"@))
            }
            &&& b == Builtin::Binary ==> looked_up(schema, "contentEncoding"@) == Some(
                Tree::Text("base64"@),
            )
        }),
{
    lemma_words();
    let t = s.types[id as int];
    let b = t.builtin;
    let schema = type_schema(s, id, fuel);
    if b == Builtin::Boolean || b == Builtin::Int64 || b == Builtin::Uint64 || b
        == Builtin::InstanceIdentifier || b == Builtin::Decimal64 || b == Builtin::Bits || b
        == Builtin::Binary || b == Builtin::String || b == Builtin::Empty {
        let m = schema->Object_0;
        assert(m[0].0 == "type"@);
        lemma_looked_up(m, 0);
        if b == Builtin::Empty {
            assert(m[1].0 == "items"@ && m[2].0 == "minItems"@ && m[3].0 == "maxItems"@);
            lemma_looked_up(m, 1);
            lemma_looked_up(m, 2);
            lemma_looked_up(m, 3);
            let each = m[1].1->Object_0;
            assert(each[0] == ("type"@, Tree::Text("null"@)));
            lemma_looked_up(each, 0);
        }
        if b == Builtin::Binary {
            assert(m[1] == ("contentEncoding"@, Tree::Text("base64"@)));
            lemma_looked_up(m, 1);
        }
    }
}

/// The values of an enumeration are its names, in their order.
pub proof fn law_enumerations_list_their_names(s: SchemaView, id: usize, fuel: nat)
    requires
        fuel > 0,
        s.types[id as int].builtin == Builtin::Enumeration,
    ensures
        ({
            let enums = s.types[id as int].enums;
            looked_up(type_schema(s, id, fuel), "enum"@) matches Some(Tree::Array(a)) && a.len()
                == enums.len() && forall|i: int|
                0 <= i < enums.len() ==> #[trigger] a[i] == Tree::Text(enums[i].name)
        }),
{
    let m = type_schema(s, id, fuel)->Object_0;
    assert(m[0].0 == "enum"@);
    lemma_looked_up(m, 0);
    let enums = s.types[id as int].enums;
    let names = enums.map_values(|e: EnumView| e.name);
    let a = names.map_values(|t: Seq<char>| Tree::Text(t));
    assert(m[0].1 == Tree::Array(a));
}

/// Whether a schema of lengths holds for a length.
pub open spec fn length_holds(v: Tree, n: int) -> bool {
    &&& looked_up(v, "minLength"@) matches Some(Tree::Integer(low)) && low <= n
    &&& looked_up(v, "maxLength"@) matches Some(Tree::Integer(high)) && n <= high
}

/// The lengths of texts are those that the type allows, and each pattern of the
/// type is to match.
pub proof fn law_texts_have_their_lengths(s: SchemaView, id: usize, fuel: nat, i: int, n: int)
    requires
        fuel > 0,
        s.types[id as int].builtin == Builtin::String,
        0 <= i < s.types[id as int].ranges.len(),
        i64::MIN <= s.types[id as int].ranges[i].0 <= u64::MAX,
        i64::MIN <= s.types[id as int].ranges[i].1 <= u64::MAX,
    ensures
        ({
            let t = s.types[id as int];
            let schema = type_schema(s, id, fuel);
            &&& looked_up(schema, "anyOf"@) matches Some(Tree::Array(a)) && a.len()
                == t.ranges.len() && length_holds(a[i], n) == (t.ranges[i].0 <= n <= t.ranges[i].1)
            &&& t.patterns.len() > 0 ==> (looked_up(schema, "allOf"@) matches Some(Tree::Array(p))
                && p.len() == t.patterns.len() && forall|k: int|
                0 <= k < p.len() ==> looked_up(#[trigger] p[k], "pattern"@) == Some(
                    Tree::Text(t.patterns[k]),
                ))
        }),
{
    lemma_words();
    let t = s.types[id as int];
    let m = type_schema(s, id, fuel)->Object_0;
    let a = t.ranges.map_values(|r: (i128, i128)| length_range(r));
    assert(m[0].0 == "type"@);
    assert(m[1] == ("anyOf"@, Tree::Array(a)));
    lemma_looked_up(m, 1);
    let r = a[i]->Object_0;
    assert(a[i] == length_range(t.ranges[i]));
    assert(r[0] == ("minLength"@, Tree::Integer(t.ranges[i].0 as int)));
    assert(r[1] == ("maxLength"@, Tree::Integer(t.ranges[i].1 as int)));
    lemma_looked_up(r, 0);
    lemma_looked_up(r, 1);
    if t.patterns.len() > 0 {
        let p = t.patterns.map_values(
            |p: Seq<char>| Tree::Object(seq![("pattern"@, Tree::Text(p))]),
        );
        assert(m[2] == ("allOf"@, Tree::Array(p)));
        lemma_looked_up(m, 2);
        assert forall|k: int| 0 <= k < p.len() implies looked_up(#[trigger] p[k], "pattern"@)
            == Some(Tree::Text(t.patterns[k])) by {
            let one = p[k]->Object_0;
            assert(one[0] == ("pattern"@, Tree::Text(t.patterns[k])));
            lemma_looked_up(one, 0);
        }
    }
}

/// The length of base64 text: four characters for each three bytes that are
/// begun.
proof fn lemma_base64_length(data: Seq<u8>, i: int)
    requires
        0 <= i,
    ensures
        text_from(data, i).len() == (if i < data.len() {
            4 * ((data.len() - i + 2) / 3)
        } else {
            0
        }),
    decreases data.len() + 3 - i,
{
    if i < data.len() {
        lemma_base64_length(data, i + 3);
        assert(group_text(data, i).len() == 4);
        if i + 3 < data.len() {
            assert((data.len() - i + 2) / 3 == (data.len() - i - 3 + 2) / 3 + 1);
        } else {
            assert((data.len() - i + 2) / 3 == 1);
        }
    }
}

/// The lengths of base64 text are those of the data at both ends of a range of
/// the type, so that the text of all data that the type allows is allowed.
pub proof fn law_binary_data_has_its_length_in_base64(
    s: SchemaView,
    id: usize,
    fuel: nat,
    i: int,
    low: Seq<u8>,
    data: Seq<u8>,
    high: Seq<u8>,
)
    requires
        fuel > 0,
        s.types[id as int].builtin == Builtin::Binary,
        0 <= i < s.types[id as int].ranges.len(),
        s.types[id as int].ranges[i].0 == low.len(),
        s.types[id as int].ranges[i].1 == high.len(),
        low.len() <= data.len() <= high.len() <= i64::MAX,
    ensures
        looked_up(type_schema(s, id, fuel), "anyOf"@) matches Some(Tree::Array(a)) && {
            &&& a.len() == s.types[id as int].ranges.len()
            &&& looked_up(a[i], "minLength"@) == Some(Tree::Integer(base64_text(low).len() as int))
            &&& looked_up(a[i], "maxLength"@) == Some(Tree::Integer(base64_text(high).len() as int))
            &&& length_holds(a[i], base64_text(data).len() as int)
        },
{
    lemma_words();
    let t = s.types[id as int];
    let m = type_schema(s, id, fuel)->Object_0;
    let a = t.ranges.map_values(|r: (i128, i128)| base64_range(r));
    assert(m[0].0 == "type"@ && m[1].0 == "contentEncoding"@);
    assert(m[2] == ("anyOf"@, Tree::Array(a)));
    lemma_looked_up(m, 2);
    let r = a[i]->Object_0;
    assert(a[i] == base64_range(t.ranges[i]));
    lemma_base64_length(low, 0);
    lemma_base64_length(data, 0);
    lemma_base64_length(high, 0);
    assert(r[0] == ("minLength"@, Tree::Integer(base64_text(low).len() as int)));
    assert(r[1] == ("maxLength"@, Tree::Integer(base64_text(high).len() as int)));
    lemma_looked_up(r, 0);
    lemma_looked_up(r, 1);
}

/// A decimal is perhaps a sign, digits, and perhaps a dot with at most as many
/// digits behind it as the type has; bits are their names with white space
/// between them.
pub proof fn law_patterns_of_values(s: SchemaView, id: usize, fuel: nat, digits: u8)
    requires
        fuel > 0,
    ensures
        ({
            let t = s.types[id as int];
            let schema = type_schema(s, id, fuel);
            &&& t.builtin == Builtin::Decimal64 && t.fraction_digits == Some(digits) ==> looked_up(
                schema,
                "pattern"@,
            ) == Some(
                Tree::Text("^(\\+|-)?\\d*(\\.\\d{0,"@ + decimal_text(digits as int) + "})?$"@),
            )
            &&& t.builtin == Builtin::Bits ==> {
                let names = "("@ + joined(t.bits.map_values(|b: BitView| b.name), "|"@) + ")"@;
                looked_up(schema, "pattern"@) == Some(
                    Tree::Text("^"@ + names + "?(\\s"@ + names + ")*$"@),
                )
            }
        }),
{
    lemma_words();
    let t = s.types[id as int];
    if t.builtin == Builtin::Decimal64 || t.builtin == Builtin::Bits {
        let m = type_schema(s, id, fuel)->Object_0;
        assert(m[0].0 == "type"@ && m[1].0 == "pattern"@);
        lemma_looked_up(m, 1);
        assert(crate::yang::json_schema::bit_texts(t.bits) =~= t.bits.map_values(
            |b: BitView| b.name,
        ));
    }
}

/// A value of a union is one of any of its members, in their order, and a
/// reference has the schema of what it refers to.
pub proof fn law_schemas_of_other_types(s: SchemaView, id: usize, fuel: nat, n: usize, next: usize)
    requires
        fuel > 0,
    ensures
        ({
            let t = s.types[id as int];
            let schema = type_schema(s, id, fuel);
            &&& t.builtin == Builtin::Union ==> (looked_up(schema, "anyOf"@) matches Some(
                Tree::Array(a),
            ) && a.len() == t.union_members.len() && forall|k: int|
                0 <= k < a.len() ==> #[trigger] a[k] == type_schema(
                    s,
                    t.union_members[k],
                    (fuel - 1) as nat,
                ))
            &&& t.builtin == Builtin::Leafref && t.leafref_target == Some(n)
                && s.nodes[n as int].type_id == Some(next) ==> schema == type_schema(
                s,
                next,
                (fuel - 1) as nat,
            )
        }),
{
    let t = s.types[id as int];
    if t.builtin == Builtin::Union {
        let m = type_schema(s, id, fuel)->Object_0;
        assert(m[0].0 == "anyOf"@);
        lemma_looked_up(m, 0);
    }
}

/// Candidates are all that are allowed.
proof fn lemma_candidate(ids: Seq<IdentityView>, bases: Seq<usize>, n: int, i: usize)
    requires
        0 <= n <= ids.len() <= usize::MAX,
    ensures
        candidates(ids, bases, n).contains(i) <==> (i < n && is_candidate(ids, bases, i as int)),
    decreases n,
{
    if n > 0 {
        lemma_candidate(ids, bases, n - 1, i);
        let before = candidates(ids, bases, n - 1);
        let now = candidates(ids, bases, n);
        if is_candidate(ids, bases, n - 1) {
            let last = (n - 1) as usize;
            assert(now == before.push(last));
            assert(now[before.len() as int] == last);
            if before.contains(i) {
                let k = choose|k: int| 0 <= k < before.len() && before[k] == i;
                assert(now[k] == i);
            }
            if now.contains(i) {
                let k = choose|k: int| 0 <= k < now.len() && now[k] == i;
                if k < before.len() {
                    assert(before[k] == i);
                }
            }
        } else {
            assert(now == before);
        }
    }
}

/// Candidates are all that are allowed.
proof fn lemma_candidates(ids: Seq<IdentityView>, bases: Seq<usize>, n: int)
    requires
        0 <= n <= ids.len() <= usize::MAX,
    ensures
        forall|i: usize|
            (#[trigger] candidates(ids, bases, n).contains(i)) == (i < n && is_candidate(
                ids,
                bases,
                i as int,
            )),
{
    assert forall|i: usize|
        (#[trigger] candidates(ids, bases, n).contains(i)) == (i < n && is_candidate(
            ids,
            bases,
            i as int,
        )) by {
        lemma_candidate(ids, bases, n, i);
    }
}

/// Whether a name is one of an identity that a type lists.
pub open spec fn names_of(d: IdentityView, ty: TypeView, name: Seq<char>) -> bool {
    name == d.module + ":"@ + d.name || ty.source_module == Some(d.module) && name == d.name
}

/// The names of some identities.
proof fn lemma_names(ids: Seq<IdentityView>, ty: TypeView, found: Seq<usize>, n: int, name: Seq<char>)
    requires
        0 <= n <= found.len(),
    ensures
        identity_names(ids, ty, found, n).contains(name) <==> exists|k: int|
            0 <= k < n && !ty.identity_bases.contains(#[trigger] found[k]) && names_of(
                ids[found[k] as int],
                ty,
                name,
            ),
    decreases n,
{
    if n > 0 {
        lemma_names(ids, ty, found, n - 1, name);
        let before = identity_names(ids, ty, found, n - 1);
        let d = ids[found[n - 1] as int];
        let full = d.module + ":"@ + d.name;
        if !ty.identity_bases.contains(found[n - 1]) {
            lemma_pushed(before, full, name);
            lemma_pushed(before.push(full), d.name, name);
        }
        if identity_names(ids, ty, found, n).contains(name) {
            if before.contains(name) {
                let k = choose|k: int|
                    0 <= k < n - 1 && !ty.identity_bases.contains(#[trigger] found[k]) && names_of(
                        ids[found[k] as int],
                        ty,
                        name,
                    );
                assert(0 <= k < n);
            } else {
                assert(names_of(ids[found[n - 1] as int], ty, name));
            }
        }
    }
}

/// What a list with one more holds.
proof fn lemma_pushed(s: Seq<Seq<char>>, x: Seq<char>, y: Seq<char>)
    ensures
        s.push(x).contains(y) <==> s.contains(y) || x == y,
{
    let t = s.push(x);
    assert(t[s.len() as int] == x);
    if s.contains(y) {
        let k = choose|k: int| 0 <= k < s.len() && s[k] == y;
        assert(t[k] == y);
    }
    if t.contains(y) {
        let k = choose|k: int| 0 <= k < t.len() && t[k] == y;
        if k < s.len() {
            assert(s[k] == y);
        }
    }
}

/// The values of a reference to an identity are the names of all identities that
/// are derived from each of its bases, but not of the bases: each with its
/// module, and in the module of the type also without.
pub proof fn law_identities_are_listed(s: SchemaView, id: usize, fuel: nat, name: Seq<char>)
    requires
        fuel > 0,
        s.types[id as int].builtin == Builtin::Identityref,
        s.types[id as int].identity_bases.len() > 0,
        s.identities.len() <= usize::MAX,
    ensures
        ({
            let ty = s.types[id as int];
            looked_up(type_schema(s, id, fuel), "enum"@) matches Some(Tree::Array(a)) && (a.contains(
                Tree::Text(name),
            ) <==> exists|i: usize|
                i < s.identities.len() && #[trigger] is_candidate(
                    s.identities,
                    ty.identity_bases,
                    i as int,
                ) && !ty.identity_bases.contains(i) && names_of(s.identities[i as int], ty, name))
        }),
{
    broadcast use vstd::seq_lib::group_to_multiset_ensures;

    let ty = s.types[id as int];
    let m = type_schema(s, id, fuel)->Object_0;
    assert(m[0].0 == "enum"@);
    lemma_looked_up(m, 0);
    let n = s.identities.len() as int;
    let found = candidates(s.identities, ty.identity_bases, n);
    let names = identity_names(s.identities, ty, found, found.len() as int);
    let listed = in_order(names);
    let a = listed.map_values(|t: Seq<char>| Tree::Text(t));
    assert(m[0].1 == Tree::Array(a));
    law_in_order(names);
    lemma_candidates(s.identities, ty.identity_bases, n);
    lemma_names(s.identities, ty, found, found.len() as int, name);
    assert(names.contains(name) <==> names.to_multiset().count(name) > 0);
    assert(listed.contains(name) <==> listed.to_multiset().count(name) > 0);
    if listed.contains(name) {
        let k = choose|k: int| 0 <= k < listed.len() && listed[k] == name;
        assert(a[k] == Tree::Text(name));
    }
    if a.contains(Tree::Text(name)) {
        let k = choose|k: int| 0 <= k < a.len() && a[k] == Tree::Text(name);
        assert(listed[k] == name);
    }
    if names.contains(name) {
        let k = choose|k: int|
            0 <= k < found.len() && !ty.identity_bases.contains(#[trigger] found[k]) && names_of(
                s.identities[found[k] as int],
                ty,
                name,
            );
        assert(found.contains(found[k]));
        assert(is_candidate(s.identities, ty.identity_bases, found[k] as int));
    }
    if exists|i: usize|
        i < s.identities.len() && #[trigger] is_candidate(
            s.identities,
            ty.identity_bases,
            i as int,
        ) && !ty.identity_bases.contains(i) && names_of(s.identities[i as int], ty, name) {
        let i = choose|i: usize|
            i < s.identities.len() && #[trigger] is_candidate(
                s.identities,
                ty.identity_bases,
                i as int,
            ) && !ty.identity_bases.contains(i) && names_of(s.identities[i as int], ty, name);
        lemma_candidate(s.identities, ty.identity_bases, n, i);
        assert(found.contains(i));
        let k = choose|k: int| 0 <= k < found.len() && found[k] == i;
        assert(!ty.identity_bases.contains(found[k]));
    }
}

} // verus!
