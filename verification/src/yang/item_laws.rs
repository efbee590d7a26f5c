//! Which data item stands for which value, type by type.
use vstd::prelude::*;

use crate::cbor::value::Item;
use crate::json::Tree;
use crate::text::decimal_text;
use crate::yang::base64::{base64_bytes, base64_text};
use crate::yang::choices::{
    followed, governing, governing_builtin, identity_meant, is_candidate, referred,
};
use crate::yang::readings::{plain_decoded, value_decoded};
use crate::yang::scalars::{
    decimal_mantissa, enum_named, enum_valued, pattern_verdict, signed_low, DecimalView,
};
use crate::yang::schema::{derives, Builtin, EnumView, IdentityView, SchemaView, TypeView};
use crate::yang::value_laws::{distinct_numbers, law_decimal_text_is_read};
use crate::yang::values::{generic_item, plain_encoded, value_encoded};

verus! {

/// Whether a number lies in one of some ranges, both ends included.
pub open spec fn in_some(n: int, ranges: Seq<(i128, i128)>) -> bool {
    exists|i: int| 0 <= i < ranges.len() && (#[trigger] ranges[i]).0 <= n <= ranges[i].1
}

/// True is sent as true and false as false, and what a device sends is shown
/// as it is. Nothing else is a truth value.
pub proof fn law_truth_values(s: SchemaView, id: usize, b: bool, u: bool, d: Seq<DecimalView>)
    requires
        s.types[id as int].builtin == Builtin::Boolean,
    ensures
        plain_encoded(s, id, Tree::Bool(b), u) == Ok::<Item, Seq<char>>(Item::Bool(b)),
        plain_decoded(s, id, Item::Bool(b), u, d) == Ok::<Tree, Seq<char>>(Tree::Bool(b)),
        forall|v: Tree| !(v is Bool) ==> (#[trigger] plain_encoded(s, id, v, u)) is Err,
        forall|v: Item| !(v is Bool) ==> (#[trigger] plain_decoded(s, id, v, u, d)) is Err,
{
}

/// A whole number of at most 32 bits is sent as that number exactly if it lies
/// in one of the ranges of its type, and a number that a device sends is shown
/// as that number. Nothing else is a whole number.
pub proof fn law_whole_numbers(s: SchemaView, id: usize, n: int, u: bool, d: Seq<DecimalView>)
    requires
        ({
            let b = s.types[id as int].builtin;
            b == Builtin::Int8 || b == Builtin::Int16 || b == Builtin::Int32 || b == Builtin::Uint8
                || b == Builtin::Uint16 || b == Builtin::Uint32
        }),
        i64::MIN <= n <= i64::MAX,
    ensures
        ({
            let ranges = s.types[id as int].ranges;
            let made = plain_encoded(s, id, Tree::Integer(n), u);
            &&& ranges.len() == 0 || in_some(n, ranges) ==> made == Ok::<Item, Seq<char>>(
                Item::Integer(n),
            )
            &&& ranges.len() > 0 && i64::MIN < n < i64::MAX && !in_some(n, ranges) ==> made is Err
        }),
        plain_decoded(s, id, Item::Integer(n), u, d) == Ok::<Tree, Seq<char>>(Tree::Integer(n)),
        forall|v: Tree| !(v is Integer) ==> (#[trigger] plain_encoded(s, id, v, u)) is Err,
        forall|v: Item| !(v is Integer) ==> (#[trigger] plain_decoded(s, id, v, u, d)) is Err,
{
    let ranges = s.types[id as int].ranges;
    assert(signed_low(n) == n);
    if in_some(n, ranges) {
        let i = choose|i: int| 0 <= i < ranges.len() && (#[trigger] ranges[i]).0 <= n <= ranges[i].1;
        assert(ranges[i].0 <= n <= ranges[i].1);
    }
}

/// A number of a 64-bit type is written as the text of its digits, sent as the
/// number exactly if it lies in one of the ranges of its type, and shown as its
/// digits again. A number that stands for itself is none of these.
pub proof fn law_wide_numbers(s: SchemaView, id: usize, n: int, u: bool, d: Seq<DecimalView>)
    requires
        ({
            let b = s.types[id as int].builtin;
            ||| b == Builtin::Int64 && i64::MIN <= n <= i64::MAX
            ||| b == Builtin::Uint64 && 0 <= n <= u64::MAX
        }),
    ensures
        ({
            let ranges = s.types[id as int].ranges;
            let made = plain_encoded(s, id, Tree::Text(decimal_text(n)), u);
            &&& ranges.len() == 0 || in_some(n, ranges) ==> made == Ok::<Item, Seq<char>>(
                Item::Integer(n),
            )
            &&& ranges.len() > 0 && !in_some(n, ranges) ==> made is Err
        }),
        plain_decoded(s, id, Item::Integer(n), u, d) == Ok::<Tree, Seq<char>>(
            Tree::Text(decimal_text(n)),
        ),
        plain_encoded(s, id, Tree::Integer(n), u) is Err,
{
    let ranges = s.types[id as int].ranges;
    if s.types[id as int].builtin == Builtin::Int64 {
        law_decimal_text_is_read(n, i64::MIN as int, i64::MAX as int);
        assert(signed_low(n) == n);
    } else {
        law_decimal_text_is_read(n, 0, u64::MAX as int);
    }
    if in_some(n, ranges) {
        let i = choose|i: int| 0 <= i < ranges.len() && (#[trigger] ranges[i]).0 <= n <= ranges[i].1;
        assert(ranges[i].0 <= n <= ranges[i].1);
    }
}

/// A text is sent as it is, exactly if its number of characters lies in one of
/// the lengths of its type and all patterns match, and it is shown as it is.
pub proof fn law_texts(s: SchemaView, id: usize, t: Seq<char>, u: bool, d: Seq<DecimalView>)
    requires
        s.types[id as int].builtin == Builtin::String,
        t.len() < i64::MAX,
    ensures
        ({
            let ty = s.types[id as int];
            let long_enough = ty.ranges.len() == 0 || in_some(t.len() as int, ty.ranges);
            let made = plain_encoded(s, id, Tree::Text(t), u);
            &&& long_enough && (forall|k: int|
                0 <= k < ty.patterns.len() ==> pattern_verdict(#[trigger] ty.patterns[k], t) == Ok::<
                    bool,
                    Seq<char>,
                >(true)) ==> made == Ok::<Item, Seq<char>>(Item::Text(t))
            &&& !long_enough ==> made is Err
            &&& (exists|k: int|
                0 <= k < ty.patterns.len() && pattern_verdict(#[trigger] ty.patterns[k], t) != Ok::<
                    bool,
                    Seq<char>,
                >(true)) ==> made is Err
        }),
        plain_decoded(s, id, Item::Text(t), u, d) == Ok::<Tree, Seq<char>>(Tree::Text(t)),
{
    let ty = s.types[id as int];
    let n = t.len() as int;
    assert(signed_low(n) == n);
    if in_some(n, ty.ranges) {
        let i = choose|i: int|
            0 <= i < ty.ranges.len() && (#[trigger] ty.ranges[i]).0 <= n <= ty.ranges[i].1;
        assert(ty.ranges[i].0 <= n <= ty.ranges[i].1);
    }
    lemma_all_match(ty, t, 0);
}

/// All patterns match exactly if each does.
proof fn lemma_all_match(ty: TypeView, t: Seq<char>, from: int)
    requires
        0 <= from <= ty.patterns.len(),
    ensures
        crate::yang::scalars::all_match(
            ty.patterns,
            crate::yang::scalars::verdicts(ty.patterns, t),
            from,
        ) == Ok::<bool, Seq<char>>(true) <==> forall|k: int|
            from <= k < ty.patterns.len() ==> pattern_verdict(#[trigger] ty.patterns[k], t) == Ok::<
                bool,
                Seq<char>,
            >(true),
    decreases ty.patterns.len() - from,
{
    if from < ty.patterns.len() {
        lemma_all_match(ty, t, from + 1);
        assert(crate::yang::scalars::verdicts(ty.patterns, t)[from] == pattern_verdict(
            ty.patterns[from],
            t,
        ));
    }
}

/// Binary data are sent as the bytes that their text stands for, exactly if
/// their number lies in one of the lengths of the type, and bytes are shown as
/// their base64 text.
pub proof fn law_binary_data(
    s: SchemaView,
    id: usize,
    t: Seq<char>,
    bytes: Seq<u8>,
    u: bool,
    d: Seq<DecimalView>,
)
    requires
        s.types[id as int].builtin == Builtin::Binary,
        base64_bytes(t) == Some(bytes),
        bytes.len() < i64::MAX,
    ensures
        ({
            let ranges = s.types[id as int].ranges;
            let made = plain_encoded(s, id, Tree::Text(t), u);
            &&& ranges.len() == 0 || in_some(bytes.len() as int, ranges) ==> made == Ok::<
                Item,
                Seq<char>,
            >(Item::Bytes(bytes))
            &&& ranges.len() > 0 && !in_some(bytes.len() as int, ranges) ==> made is Err
        }),
        plain_decoded(s, id, Item::Bytes(bytes), u, d) == Ok::<Tree, Seq<char>>(
            Tree::Text(base64_text(bytes)),
        ),
{
    let ranges = s.types[id as int].ranges;
    let n = bytes.len() as int;
    assert(signed_low(n) == n);
    if in_some(n, ranges) {
        let i = choose|i: int| 0 <= i < ranges.len() && (#[trigger] ranges[i]).0 <= n <= ranges[i].1;
        assert(ranges[i].0 <= n <= ranges[i].1);
    }
}

/// An empty leaf is written as a list of one null, sent as null, and shown as
/// a list of one null.
pub proof fn law_empty_leaves(s: SchemaView, id: usize, v: Tree, u: bool, d: Seq<DecimalView>)
    requires
        s.types[id as int].builtin == Builtin::Empty,
    ensures
        plain_encoded(s, id, Tree::Array(seq![Tree::Null]), u) == Ok::<Item, Seq<char>>(Item::Null),
        plain_encoded(s, id, v, u) is Ok ==> v == Tree::Array(seq![Tree::Null]),
        plain_decoded(s, id, Item::Null, u, d) == Ok::<Tree, Seq<char>>(
            Tree::Array(seq![Tree::Null]),
        ),
{
    if let Tree::Array(a) = v {
        if a.len() == 1 && a[0] is Null {
            assert(a =~= seq![Tree::Null]);
        }
    }
}

/// Where names are distinct, each name of an enumeration is sent as its own
/// number, and under tag 44 with its name in a union; where numbers are, each
/// number is shown as its name. A number without a name is shown as it is, and
/// a name that is none is refused.
pub proof fn law_names_and_numbers(
    s: SchemaView,
    id: usize,
    i: int,
    n: int,
    name: Seq<char>,
    d: Seq<DecimalView>,
)
    requires
        s.types[id as int].builtin == Builtin::Enumeration,
        0 <= i < s.types[id as int].enums.len(),
        forall|j: int|
            0 <= j < i ==> (#[trigger] s.types[id as int].enums[j]).name
                != s.types[id as int].enums[i].name,
        i64::MIN <= n <= i64::MAX,
        forall|j: int|
            0 <= j < s.types[id as int].enums.len() ==> (#[trigger] s.types[id as int].enums[j]).value
                != n && s.types[id as int].enums[j].name != name,
    ensures
        ({
            let e = s.types[id as int].enums[i];
            &&& plain_encoded(s, id, Tree::Text(e.name), false) == Ok::<Item, Seq<char>>(
                Item::Integer(e.value as int),
            )
            &&& plain_encoded(s, id, Tree::Text(e.name), true) == Ok::<Item, Seq<char>>(
                Item::Tag(44, Box::new(Item::Text(e.name))),
            )
            &&& plain_decoded(s, id, Item::Tag(44, Box::new(Item::Text(e.name))), true, d) == Ok::<
                Tree,
                Seq<char>,
            >(Tree::Text(e.name))
            &&& distinct_numbers(s.types[id as int].enums) ==> plain_decoded(
                s,
                id,
                Item::Integer(e.value as int),
                false,
                d,
            ) == Ok::<Tree, Seq<char>>(Tree::Text(e.name))
        }),
        plain_decoded(s, id, Item::Integer(n), false, d) == Ok::<Tree, Seq<char>>(Tree::Integer(n)),
        plain_encoded(s, id, Tree::Text(name), false) is Err,
{
    let enums = s.types[id as int].enums;
    lemma_named(enums, i, 0);
    if distinct_numbers(enums) {
        lemma_numbered(enums, i, 0);
    }
    lemma_no_name(enums, n, name, 0);
    assert(signed_low(n) == n);
}

proof fn lemma_named(enums: Seq<EnumView>, i: int, from: int)
    requires
        0 <= from <= i < enums.len(),
        forall|j: int| 0 <= j < i ==> (#[trigger] enums[j]).name != enums[i].name,
    ensures
        enum_named(enums, enums[i].name, from) == Some(i),
    decreases i - from,
{
    if from < i {
        assert(enums[from].name != enums[i].name);
        lemma_named(enums, i, from + 1);
    }
}

proof fn lemma_numbered(enums: Seq<EnumView>, i: int, from: int)
    requires
        0 <= from <= i < enums.len(),
        distinct_numbers(enums),
    ensures
        enum_valued(enums, enums[i].value as int, from) == Some(i),
    decreases i - from,
{
    if from < i {
        assert(enums[from].value != enums[i].value);
        lemma_numbered(enums, i, from + 1);
    }
}

proof fn lemma_no_name(enums: Seq<EnumView>, n: int, name: Seq<char>, from: int)
    requires
        0 <= from,
        forall|j: int|
            0 <= j < enums.len() ==> (#[trigger] enums[j]).value != n && enums[j].name != name,
    ensures
        enum_valued(enums, n, from) is None,
        enum_named(enums, name, from) is None,
    decreases enums.len() - from,
{
    if from < enums.len() {
        assert(enums[from].value != n);
        lemma_no_name(enums, n, name, from + 1);
    }
}

/// A reference to an identity is sent as the SID of an identity that is
/// derived from all bases of the type and that the text names: with the module
/// of the identity, or without one in the module of the type. In a union it
/// stands under tag 45.
pub proof fn law_identities_by_sid(s: SchemaView, id: usize, t: Seq<char>, u: bool, item: Item)
    requires
        s.types[id as int].builtin == Builtin::Identityref,
        plain_encoded(s, id, Tree::Text(t), u) == Ok::<Item, Seq<char>>(item),
    ensures
        ({
            let ty = s.types[id as int];
            exists|i: int|
                {
                    &&& 0 <= i < s.identities.len()
                    &&& (#[trigger] s.identities[i]).sid is Some
                    &&& item == if u {
                        Item::Tag(45, Box::new(Item::Integer(s.identities[i].sid->0 as int)))
                    } else {
                        Item::Integer(s.identities[i].sid->0 as int)
                    }
                    &&& t == s.identities[i].module + seq![':'] + s.identities[i].name || (t
                        == s.identities[i].name && (ty.source_module == Some(
                        s.identities[i].module,
                    ) || ty.source_module is None && s.identities[i].module.len() == 0))
                    &&& forall|k: int|
                        0 <= k < ty.identity_bases.len() ==> derives(
                            s.identities,
                            #[trigger] ty.identity_bases[k] as int,
                            i,
                        )
                }
        }),
{
    let ty = s.types[id as int];
    lemma_meant(s.identities, ty, t, 0);
    let i = identity_meant(s.identities, ty, t, 0)->0;
    let k = crate::text::index_from(t, ':', 0);
    crate::text::lemma_index_from(t, ':', 0);
    if k < t.len() {
        assert(t =~= t.subrange(0, k) + seq![':'] + t.subrange(k + 1, t.len() as int));
    }
    if ty.source_module is None && k >= t.len() {
        assert(s.identities[i].module == Seq::<char>::empty());
    }
    assert(s.identities[i].sid is Some);
}

proof fn lemma_meant(ids: Seq<IdentityView>, ty: TypeView, t: Seq<char>, from: int)
    requires
        0 <= from,
    ensures
        identity_meant(ids, ty, t, from) matches Some(i) ==> from <= i < ids.len() && is_candidate(
            ids,
            ty.identity_bases,
            i,
        ) && crate::yang::choices::names_identity(t, ids[i], crate::yang::choices::source_of(ty)),
    decreases ids.len() - from,
{
    if from < ids.len() {
        lemma_meant(ids, ty, t, from + 1);
    }
}

/// A SID that a device sends is shown as the module and the name of an identity
/// with this SID.
pub proof fn law_identities_are_shown(s: SchemaView, id: usize, sid: i64, d: Seq<DecimalView>)
    requires
        s.types[id as int].builtin == Builtin::Identityref,
    ensures
        plain_decoded(s, id, Item::Integer(sid as int), false, d) matches Ok(w) ==> exists|i: int|
            0 <= i < s.identities.len() && (#[trigger] s.identities[i]).sid == Some(sid) && w
                == Tree::Text(s.identities[i].module + seq![':'] + s.identities[i].name),
        plain_decoded(s, id, Item::Tag(45, Box::new(Item::Integer(sid as int))), true, d)
            == plain_decoded(s, id, Item::Integer(sid as int), false, d),
        (exists|i: int| 0 <= i < s.identities.len() && (#[trigger] s.identities[i]).sid == Some(sid))
            ==> plain_decoded(s, id, Item::Integer(sid as int), false, d) is Ok,
{
    reveal_strlit(":");
    assert(":"@ =~= seq![':']);
    assert(signed_low(sid as int) == sid);
    lemma_with_sid(s.identities, sid, 0);
}

proof fn lemma_with_sid(ids: Seq<IdentityView>, sid: i64, from: int)
    requires
        0 <= from,
    ensures
        match crate::yang::choices::identity_with_sid(ids, sid as int, from) {
            Some(i) => from <= i < ids.len() && ids[i].sid == Some(sid),
            None => forall|i: int| from <= i < ids.len() ==> (#[trigger] ids[i]).sid != Some(sid),
        },
    decreases ids.len() - from,
{
    if from < ids.len() {
        lemma_with_sid(ids, sid, from + 1);
    }
}

/// A decimal is sent under tag 4 as the list of its exponent, which is the
/// number of its fraction digits below zero, and the number that it is in units
/// of its last fraction digit. What a device sends in this form is shown as the
/// text that is given for it.
pub proof fn law_decimals_on_the_wire(
    s: SchemaView,
    id: usize,
    t: Seq<char>,
    digits: u8,
    m: int,
    u: bool,
    shown: DecimalView,
)
    requires
        s.types[id as int].builtin == Builtin::Decimal64,
        s.types[id as int].fraction_digits == Some(digits),
        shown.exponent == -digits,
        shown.mantissa == m,
    ensures
        ({
            let parts = seq![Item::Integer(-digits), Item::Integer(m)];
            let item = Item::Tag(4, Box::new(Item::Array(parts)));
            &&& plain_encoded(s, id, Tree::Text(t), u) == Ok::<Item, Seq<char>>(item)
                <==> decimal_mantissa(t, digits as int) == Ok::<int, Seq<char>>(m)
            &&& plain_decoded(s, id, item, u, seq![shown]) == Ok::<Tree, Seq<char>>(
                Tree::Text(shown.text),
            )
        }),
{
    let parts = seq![Item::Integer(-digits), Item::Integer(m)];
    let item = Item::Tag(4, Box::new(Item::Array(parts)));
    assert(signed_low(-digits) == -digits);
    assert(plain_encoded(s, id, Tree::Text(t), u) == crate::yang::scalars::decimal_encoded(
        s.types[id as int],
        Tree::Text(t),
    ));
    if decimal_mantissa(t, digits as int) is Ok {
        let k = decimal_mantissa(t, digits as int)->Ok_0;
        let other = seq![Item::Integer(-digits), Item::Integer(k)];
        assert(parts[1] == Item::Integer(m) && other[1] == Item::Integer(k));
        if k == m {
            assert(other =~= parts);
        } else {
            assert(other[1] != parts[1]);
        }
    }
    assert(crate::yang::scalars::decimal_parts(item) == Ok::<(int, int), Seq<char>>(
        (-digits as int, m),
    ));
    assert(crate::yang::scalars::decimal_shown(seq![shown], -digits as int, m, 0) == Some(
        shown.text,
    ));
}

/// A value of a leaf that refers to another leaf is a value of that leaf.
pub proof fn law_references_follow(
    s: SchemaView,
    id: usize,
    target: usize,
    t: usize,
    v: Tree,
    item: Item,
    u: bool,
    d: Seq<DecimalView>,
)
    requires
        s.types[id as int].builtin == Builtin::Leafref,
        s.types[id as int].leafref_target == Some(target),
        s.nodes[target as int].type_id == Some(t),
        s.types.len() > 0,
        governing_builtin(s, id) != Builtin::Leafref,
    ensures
        value_encoded(s, id, v, u) == value_encoded(s, t, v, u),
        value_decoded(s, id, item, u, d) == value_decoded(s, t, item, u, d),
{
    let n = s.types.len();
    assert(referred(s, id) == Some(t));
    assert(governing(s, id) == followed(s, t, (n - 1) as nat));
    lemma_followed_end(s, t, (n - 1) as nat);
}

/// One step further than the end of a chain is the end.
proof fn lemma_followed_end(s: SchemaView, id: usize, fuel: nat)
    requires
        referred(s, followed(s, id, fuel)) is None,
    ensures
        followed(s, id, fuel + 1) == followed(s, id, fuel),
    decreases fuel,
{
    match referred(s, id) {
        Some(t) => {
            if fuel > 0 {
                lemma_followed_end(s, t, (fuel - 1) as nat);
            }
        },
        None => {},
    }
}

/// Values whose type is not looked at are sent as they are.
pub proof fn law_plain_items(b: bool, n: int, t: Seq<char>)
    requires
        i64::MIN <= n <= u64::MAX,
    ensures
        generic_item(Tree::Null) == Item::Null,
        generic_item(Tree::Bool(b)) == Item::Bool(b),
        generic_item(Tree::Integer(n)) == Item::Integer(n),
        generic_item(Tree::Text(t)) == Item::Text(t),
{
}

} // verus!
