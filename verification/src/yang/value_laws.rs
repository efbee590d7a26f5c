//! What is encoded as a value of a type is decoded to the same value, or to
//! another way to write it.
use vstd::prelude::*;

use crate::cbor::value::Item;
use crate::json::Tree;
use crate::text::{
    decimal_text, digits_value, index_from, is_digit, lemma_index_from, natural_text, number_in,
};
use crate::yang::base64::{base64_text, law_base64_round_trip};
use crate::yang::choices::{
    first_fit, first_of, fits, governing, governing_builtin, identity_decoded, identity_encoded,
    identity_meant, identity_sid, identity_with_sid,
    is_candidate, is_null_list, is_of, member_for_cbor, member_for_json, names_identity, source_of,
    Kind, Way,
};
use crate::yang::readings::plain_decoded;
use crate::yang::scalars::{
    decimal_decoded, decimal_encoded, decimal_item, decimal_mantissa, decimal_parts, decimal_shown,
    enum_named, enum_valued, signed_low, DecimalView,
};
use crate::yang::schema::{
    is_narrow, is_wide, Builtin, EnumView, IdentityView, SchemaView, TypeView,
};
use crate::yang::tree_laws::value_settled;
use crate::yang::values::{plain_encoded, value_encoded};

verus! {

/// Whether the encoding of a value, if it has one, is decoded to the value.
pub open spec fn reads_back(
    s: SchemaView,
    id: usize,
    v: Tree,
    in_union: bool,
    d: Seq<DecimalView>,
) -> bool {
    plain_encoded(s, id, v, in_union) matches Ok(item) ==> plain_decoded(s, id, item, in_union, d)
        == Ok::<Tree, Seq<char>>(v)
}

/// Whether the encoding of a value, if it has one, is decoded to a value
/// with the same encoding.
pub open spec fn means_the_same(
    s: SchemaView,
    id: usize,
    v: Tree,
    in_union: bool,
    d: Seq<DecimalView>,
) -> bool {
    plain_encoded(s, id, v, in_union) matches Ok(item) ==> plain_decoded(
        s,
        id,
        item,
        in_union,
        d,
    ) matches Ok(w) && plain_encoded(s, id, w, in_union) == Ok::<Item, Seq<char>>(item)
}

/// The digits of a number stand for it.
proof fn lemma_natural_text(n: nat)
    ensures
        digits_value(natural_text(n)) == Some(n as int),
        natural_text(n).len() > 0,
        is_digit(natural_text(n)[0]),
    decreases n,
{
    let s = natural_text(n);
    if n < 10 {
        assert(s.drop_last() =~= Seq::empty());
        assert(digits_value(Seq::<char>::empty()) == Some(0int));
    } else {
        lemma_natural_text(n / 10);
        assert(s.drop_last() =~= natural_text(n / 10));
    }
}

/// The decimal form of a number is read as the number.
pub proof fn law_decimal_text_is_read(n: int, min: int, max: int)
    requires
        min <= n <= max,
    ensures
        number_in(decimal_text(n), min, max) == Some(n),
{
    if n < 0 {
        lemma_natural_text((-n) as nat);
        let s = decimal_text(n);
        assert(s.subrange(1, s.len() as int) =~= natural_text((-n) as nat));
    } else {
        lemma_natural_text(n as nat);
    }
}

/// A whole number of at most 32 bits is decoded to itself. Left out are only
/// numbers that do not fit a signed number of 64 bits, in a type without any
/// ranges, which allows them.
pub proof fn law_whole_number_reads_back(
    s: SchemaView,
    id: usize,
    n: int,
    in_union: bool,
    d: Seq<DecimalView>,
)
    requires
        is_narrow(s.types[id as int].builtin),
        s.types[id as int].ranges.len() > 0 || n <= i64::MAX,
    ensures
        reads_back(s, id, Tree::Integer(n), in_union, d),
{
}

/// A number of 64 bits is decoded to its decimal form, which means the same.
pub proof fn law_wide_number_means_the_same(
    s: SchemaView,
    id: usize,
    v: Tree,
    in_union: bool,
    d: Seq<DecimalView>,
)
    requires
        is_wide(s.types[id as int].builtin),
    ensures
        means_the_same(s, id, v, in_union, d),
        forall|n: int|
            v == Tree::Text(#[trigger] decimal_text(n)) && i64::MIN <= n <= u64::MAX ==> reads_back(
                s,
                id,
                v,
                in_union,
                d,
            ),
{
    match plain_encoded(s, id, v, in_union) {
        Ok(item) => {
            let n = item->Integer_0;
            if s.types[id as int].builtin == Builtin::Int64 {
                law_decimal_text_is_read(n, i64::MIN as int, i64::MAX as int);
                assert(signed_low(n) == n);
            } else {
                law_decimal_text_is_read(n, 0, u64::MAX as int);
            }
            assert forall|k: int|
                v == Tree::Text(#[trigger] decimal_text(k)) && i64::MIN <= k
                    <= u64::MAX implies reads_back(s, id, v, in_union, d) by {
                law_decimal_text_is_read(k, i64::MIN as int, u64::MAX as int);
                if k >= 0 {
                    law_decimal_text_is_read(k, 0, u64::MAX as int);
                } else {
                    assert(decimal_text(k)[0] == '-');
                    lemma_no_digits(decimal_text(k), 0);
                }
            }
        },
        Err(_) => {},
    }
}

/// A text with another character than a digit is no number.
pub(crate) proof fn lemma_no_digits(s: Seq<char>, i: int)
    requires
        0 <= i < s.len(),
        !is_digit(s[i]),
    ensures
        digits_value(s) is None,
    decreases s.len(),
{
    if i < s.len() - 1 {
        lemma_no_digits(s.drop_last(), i);
    }
}

/// Truth values, texts and the mark of an empty leaf are decoded to
/// themselves.
pub proof fn law_plain_value_reads_back(
    s: SchemaView,
    id: usize,
    v: Tree,
    in_union: bool,
    d: Seq<DecimalView>,
)
    requires
        ({
            let b = s.types[id as int].builtin;
            b == Builtin::Boolean || b == Builtin::String || b == Builtin::Empty
        }),
    ensures
        reads_back(s, id, v, in_union, d),
{
    if is_null_list(v) {
        assert(v->Array_0 =~= seq![Tree::Null]);
    }
}

/// Binary data are decoded to their normal form in base64, which means the
/// same.
pub proof fn law_binary_means_the_same(
    s: SchemaView,
    id: usize,
    v: Tree,
    in_union: bool,
    d: Seq<DecimalView>,
)
    requires
        s.types[id as int].builtin == Builtin::Binary,
    ensures
        means_the_same(s, id, v, in_union, d),
        forall|bytes: Seq<u8>|
            v == Tree::Text(#[trigger] base64_text(bytes)) ==> reads_back(s, id, v, in_union, d),
{
    match plain_encoded(s, id, v, in_union) {
        Ok(item) => {
            law_base64_round_trip(item->Bytes_0);
            assert forall|bytes: Seq<u8>|
                v == Tree::Text(#[trigger] base64_text(bytes)) implies reads_back(
                s,
                id,
                v,
                in_union,
                d,
            ) by {
                law_base64_round_trip(bytes);
            }
        },
        Err(_) => {},
    }
}

/// Whether no two values of an enumeration have the same number.
pub open spec fn distinct_numbers(enums: Seq<EnumView>) -> bool {
    forall|i: int, j: int|
        0 <= i < j < enums.len() ==> (#[trigger] enums[i]).value != (#[trigger] enums[j]).value
}

/// The value with a name is there, and it has that name.
proof fn lemma_enum_named(enums: Seq<EnumView>, name: Seq<char>, from: int)
    requires
        0 <= from,
    ensures
        enum_named(enums, name, from) matches Some(i) ==> from <= i < enums.len() && enums[i].name
            == name,
    decreases enums.len() - from,
{
    if from < enums.len() {
        lemma_enum_named(enums, name, from + 1);
    }
}

/// The value with a number is found by the number.
proof fn lemma_enum_valued(enums: Seq<EnumView>, i: int, from: int)
    requires
        distinct_numbers(enums),
        0 <= from <= i < enums.len(),
    ensures
        enum_valued(enums, enums[i].value as int, from) == Some(i),
    decreases i - from,
{
    if from < i {
        assert(enums[from].value != enums[i].value);
        lemma_enum_valued(enums, i, from + 1);
    }
}

/// A value of an enumeration is decoded to itself.
pub proof fn law_enumeration_reads_back(
    s: SchemaView,
    id: usize,
    v: Tree,
    in_union: bool,
    d: Seq<DecimalView>,
)
    requires
        s.types[id as int].builtin == Builtin::Enumeration,
        in_union || distinct_numbers(s.types[id as int].enums),
    ensures
        reads_back(s, id, v, in_union, d),
{
    let enums = s.types[id as int].enums;
    match plain_encoded(s, id, v, in_union) {
        Ok(item) => {
            let name = v->Text_0;
            lemma_enum_named(enums, name, 0);
            let i = enum_named(enums, name, 0)->0;
            if !in_union {
                lemma_enum_valued(enums, i, 0);
            }
        },
        Err(_) => {},
    }
}

/// Whether the identities of a schema can be told apart: by their SIDs, and by
/// their modules, which have no colon, and names.
pub open spec fn distinct_identities(ids: Seq<IdentityView>) -> bool {
    &&& forall|i: int, j: int|
        0 <= i < j < ids.len() ==> (#[trigger] ids[i]).sid is None || ids[i].sid != (
        #[trigger] ids[j]).sid
    &&& forall|i: int, j: int|
        0 <= i < j < ids.len() ==> (#[trigger] ids[i]).module != (#[trigger] ids[j]).module
            || ids[i].name != ids[j].name
    &&& forall|i: int|
        0 <= i < ids.len() ==> !(#[trigger] ids[i]).module.contains(':')
}

/// The identity that is meant is allowed, and the text names it.
proof fn lemma_identity_meant(ids: Seq<IdentityView>, ty: TypeView, text: Seq<char>, from: int)
    requires
        0 <= from,
    ensures
        identity_meant(ids, ty, text, from) matches Some(i) ==> from <= i < ids.len()
            && is_candidate(ids, ty.identity_bases, i) && names_identity(
            text,
            ids[i],
            source_of(ty),
        ),
    decreases ids.len() - from,
{
    if from < ids.len() {
        lemma_identity_meant(ids, ty, text, from + 1);
    }
}

/// The identity with a SID is found by the SID.
proof fn lemma_identity_found(ids: Seq<IdentityView>, i: int, from: int)
    requires
        distinct_identities(ids),
        0 <= from <= i < ids.len(),
        ids[i].sid is Some,
    ensures
        identity_with_sid(ids, ids[i].sid->0 as int, from) == Some(i),
    decreases i - from,
{
    if from < i {
        assert(ids[from].sid is None || ids[from].sid != ids[i].sid);
        lemma_identity_found(ids, i, from + 1);
    }
}

/// No character before `n` is the one that is looked for.
proof fn lemma_first_at(text: Seq<char>, c: char, from: int, n: int)
    requires
        0 <= from <= n < text.len(),
        text[n] == c,
        forall|k: int| from <= k < n ==> text[k] != c,
    ensures
        index_from(text, c, from) == n,
    decreases n - from,
{
    if from < n {
        lemma_first_at(text, c, from + 1, n);
    }
}

/// Module and name name exactly one identity.
proof fn lemma_full_name(
    ids: Seq<IdentityView>,
    ty: TypeView,
    i: int,
    from: int,
)
    requires
        distinct_identities(ids),
        0 <= from <= i < ids.len(),
        is_candidate(ids, ty.identity_bases, i),
    ensures
        identity_meant(ids, ty, ids[i].module + ":"@ + ids[i].name, from) == Some(i),
    decreases i - from,
{
    reveal_strlit(":");
    let text = ids[i].module + ":"@ + ids[i].name;
    let n = ids[i].module.len() as int;
    assert(text[n] == ':');
    assert forall|k: int| 0 <= k < n implies text[k] != ':' by {
        assert(text[k] == ids[i].module[k]);
        assert(!ids[i].module.contains(':'));
    }
    lemma_first_at(text, ':', 0, n);
    assert(text.subrange(0, n) =~= ids[i].module);
    assert(text.subrange(n + 1, text.len() as int) =~= ids[i].name);
    if from < i {
        assert(ids[from].module != ids[i].module || ids[from].name != ids[i].name);
        lemma_full_name(ids, ty, i, from + 1);
    }
}

/// The text of an identity that was encoded is read again.
proof fn lemma_identity_back(s: SchemaView, ty: TypeView, v: Tree, in_union: bool, item: Item)
    requires
        distinct_identities(s.identities),
        identity_encoded(s, ty, v, in_union) == Ok::<Item, Seq<char>>(item),
    ensures
        identity_decoded(s, item, in_union) matches Ok(w) && identity_encoded(s, ty, w, in_union)
            == Ok::<Item, Seq<char>>(item) && (v->Text_0.contains(':') ==> w == v),
{
    let ids = s.identities;
    let text = v->Text_0;
    lemma_identity_meant(ids, ty, text, 0);
    let i = identity_meant(ids, ty, text, 0)->0;
    let sid = ids[i].sid->0;
    assert(signed_low(sid as int) == sid);
    lemma_identity_found(ids, i, 0);
    lemma_full_name(ids, ty, i, 0);
    let full = ids[i].module + ":"@ + ids[i].name;
    assert(identity_sid(item, in_union) == Ok::<int, Seq<char>>(sid as int));
    assert(identity_decoded(s, item, in_union) == Ok::<Tree, Seq<char>>(Tree::Text(full)));
    if text.contains(':') {
        reveal_strlit(":");
        lemma_index_from(text, ':', 0);
        let n = index_from(text, ':', 0);
        assert(n < text.len()) by {
            let k = choose|k: int| 0 <= k < text.len() && text[k] == ':';
            assert(text[k] == ':');
        }
        assert(full =~= text);
    }
}

/// A reference to an identity is decoded to its full name, with the module,
/// which means the same.
pub proof fn law_identity_means_the_same(
    s: SchemaView,
    id: usize,
    v: Tree,
    in_union: bool,
    d: Seq<DecimalView>,
)
    requires
        s.types[id as int].builtin == Builtin::Identityref,
        distinct_identities(s.identities),
    ensures
        means_the_same(s, id, v, in_union, d),
        v is Text && v->Text_0.contains(':') ==> reads_back(s, id, v, in_union, d),
{
    let ty = s.types[id as int];
    assert forall|w: Tree| #[trigger] plain_encoded(s, id, w, in_union) == identity_encoded(
        s,
        ty,
        w,
        in_union,
    ) by {}
    assert forall|i: Item| #[trigger] plain_decoded(s, id, i, in_union, d) == identity_decoded(
        s,
        i,
        in_union,
    ) by {}
    match identity_encoded(s, ty, v, in_union) {
        Ok(item) => {
            lemma_identity_back(s, ty, v, in_union, item);
        },
        Err(_) => {},
    }
}

/// Whether decimals are shown so that nothing is lost: the text that is given
/// for a number with `digits` fraction digits is read as that number.
pub open spec fn shows_decimals(d: Seq<DecimalView>, digits: int) -> bool {
    forall|m: int|
        i64::MIN <= m <= i64::MAX ==> (#[trigger] decimal_shown(d, -digits, m, 0) matches Some(t)
            ==> decimal_mantissa(t, digits) == Ok::<int, Seq<char>>(m))
}

/// The text that is given for a decimal is read as the decimal.
proof fn lemma_decimal_back(ty: TypeView, v: Tree, d: Seq<DecimalView>, item: Item)
    requires
        decimal_encoded(ty, v) == Ok::<Item, Seq<char>>(item),
        shows_decimals(d, ty.fraction_digits->0 as int),
        decimal_decoded(item, d) is Ok,
    ensures
        decimal_decoded(item, d) matches Ok(w) && decimal_encoded(ty, w) == Ok::<Item, Seq<char>>(
            item,
        ),
{
    let digits = ty.fraction_digits->0 as int;
    let read = decimal_mantissa(v->Text_0, digits)->Ok_0;
    let m = signed_low(read);
    let parts = seq![Item::Integer(-digits), Item::Integer(m)];
    assert(item == Item::Tag(4, Box::new(Item::Array(parts))));
    assert(signed_low(-digits) == -digits);
    assert(decimal_parts(item) == Ok::<(int, int), Seq<char>>((-digits, m)));
    let t = decimal_shown(d, -digits, m, 0)->0;
    assert(decimal_mantissa(t, digits) == Ok::<int, Seq<char>>(m));
    assert(signed_low(m) == m);
    assert(decimal_encoded(ty, Tree::Text(t)) == Ok::<Item, Seq<char>>(decimal_item(digits, m)));
}

/// A decimal is decoded to the text that is given for it, which means the
/// same if nothing is lost in that text.
pub proof fn law_decimal_means_the_same(
    s: SchemaView,
    id: usize,
    v: Tree,
    in_union: bool,
    d: Seq<DecimalView>,
)
    requires
        s.types[id as int].builtin == Builtin::Decimal64,
        s.types[id as int].fraction_digits matches Some(digits) ==> shows_decimals(
            d,
            digits as int,
        ),
        decimal_encoded(s.types[id as int], v) matches Ok(item) ==> decimal_decoded(item, d) is Ok,
    ensures
        means_the_same(s, id, v, in_union, d),
{
    let ty = s.types[id as int];
    assert forall|w: Tree| #[trigger] plain_encoded(s, id, w, in_union) == decimal_encoded(
        ty,
        w,
    ) by {}
    assert forall|i: Item| #[trigger] plain_decoded(s, id, i, in_union, d) == decimal_decoded(
        i,
        d,
    ) by {}
    match decimal_encoded(ty, v) {
        Ok(item) => {
            lemma_decimal_back(ty, v, d, item);
        },
        Err(_) => {},
    }
}

/// A plain value behind a reference that leads nowhere is decoded to itself.
/// Lists and objects are left out, and numbers that do not fit a signed
/// number of 64 bits.
pub proof fn law_unresolved_value_reads_back(
    s: SchemaView,
    id: usize,
    v: Tree,
    in_union: bool,
    d: Seq<DecimalView>,
)
    requires
        s.types[id as int].builtin == Builtin::Leafref,
        v is Null || v is Bool || v is Text || (v is Integer && i64::MIN <= v->Integer_0
            <= i64::MAX),
    ensures
        reads_back(s, id, v, in_union, d),
{
}

/// Whether two built-in types share their data items: the integers do, as do
/// texts and paths.
pub open spec fn alike(a: Builtin, b: Builtin) -> bool {
    ||| a == b
    ||| is_of(a, Kind::Whole) && is_of(b, Kind::Whole)
    ||| is_of(a, Kind::Textual) && is_of(b, Kind::Textual)
}

/// Whether a member is the only one in a union with its data items.
pub open spec fn stands_out(s: SchemaView, members: Seq<usize>, m: usize) -> bool {
    forall|k: int|
        0 <= k < members.len() && alike(
            governing_builtin(s, #[trigger] members[k]),
            governing_builtin(s, m),
        ) ==> members[k] == m
}

/// The only member of a kind is found.
proof fn lemma_only_of(s: SchemaView, members: Seq<usize>, m: usize, kind: Kind, from: int)
    requires
        0 <= from,
        exists|k: int| from <= k < members.len() && #[trigger] members[k] == m,
        is_of(governing_builtin(s, m), kind),
        forall|k: int|
            0 <= k < members.len() && is_of(governing_builtin(s, #[trigger] members[k]), kind)
                ==> members[k] == m,
    ensures
        first_of(s, members, kind, from) == Some(m),
    decreases members.len() - from,
{
    if members[from] != m {
        assert(exists|k: int| from + 1 <= k < members.len() && #[trigger] members[k] == m) by {
            let k = choose|k: int| from <= k < members.len() && #[trigger] members[k] == m;
            assert(members[k] == m);
        }
        lemma_only_of(s, members, m, kind, from + 1);
    }
}

/// A member that a value fits is one of the members.
proof fn lemma_fit(s: SchemaView, members: Seq<usize>, v: Tree, way: Way, from: int)
    requires
        0 <= from,
    ensures
        first_fit(s, members, v, way, from) matches Some(m) ==> fits(s, m, v, way) && exists|k: int|
            from <= k < members.len() && #[trigger] members[k] == m,
    decreases members.len() - from,
{
    if from < members.len() {
        if fits(s, members[from], v, way) {
            assert(members[from] == members[from]);
        } else {
            lemma_fit(s, members, v, way, from + 1);
        }
    }
}

/// The member of a union that a value belongs to is one of its members.
proof fn lemma_member(s: SchemaView, members: Seq<usize>, v: Tree)
    ensures
        member_for_json(s, members, v) matches Some(m) ==> exists|k: int|
            0 <= k < members.len() && #[trigger] members[k] == m,
{
    lemma_fit(s, members, v, Way::Identity, 0);
    lemma_fit(s, members, v, Way::Enumeration, 0);
    lemma_fit(s, members, v, Way::Bits, 0);
    lemma_fit(s, members, v, Way::Decimal, 0);
    lemma_fit(s, members, v, Way::Wide, 0);
    lemma_fit(s, members, v, Way::Plain, 0);
    lemma_fit(s, members, v, Way::Text, 0);
    lemma_fit(s, members, v, Way::Other, 0);
}

/// A value of a union is decoded by the member that it was encoded by, if that
/// is the only one with its data items. Paths are left out, and types that
/// have no data items of their own.
pub proof fn law_union_member_is_found(s: SchemaView, members: Seq<usize>, v: Tree, item: Item)
    requires
        member_for_json(s, members, v) matches Some(m) && stands_out(s, members, m)
            && governing_builtin(s, m) != Builtin::InstanceIdentifier && governing_builtin(s, m)
            != Builtin::Leafref && plain_encoded(s, governing(s, m), v, true) == Ok::<
            Item,
            Seq<char>,
        >(item),
    ensures
        member_for_cbor(s, members, item) == member_for_json(s, members, v),
{
    let m = member_for_json(s, members, v)->0;
    let b = governing_builtin(s, m);
    lemma_member(s, members, v);
    if is_narrow(b) || is_wide(b) {
        lemma_only_of(s, members, m, Kind::Whole, 0);
        if is_wide(b) {
            lemma_only_of(s, members, m, Kind::Wide, 0);
        } else {
            assert(first_of(s, members, Kind::Wide, 0) is None) by {
                lemma_none_wide(s, members, m, 0);
            }
        }
    } else if b == Builtin::String {
        lemma_only_of(s, members, m, Kind::Textual, 0);
    } else {
        lemma_only_of(s, members, m, Kind::Only(b), 0);
    }
}

/// A union with a small integer that stands out has no large one.
proof fn lemma_none_wide(s: SchemaView, members: Seq<usize>, m: usize, from: int)
    requires
        0 <= from,
        stands_out(s, members, m),
        is_narrow(governing_builtin(s, m)),
    ensures
        first_of(s, members, Kind::Wide, from) is None,
    decreases members.len() - from,
{
    if from < members.len() {
        lemma_none_wide(s, members, m, from + 1);
    }
}

/// A value of a union is decoded to itself if it is as a value of the member
/// that it belongs to, and that member stands out.
pub proof fn law_union_reads_back(s: SchemaView, id: usize, v: Tree, d: Seq<DecimalView>)
    requires
        governing_builtin(s, id) == Builtin::Union,
        member_for_json(s, s.types[governing(s, id) as int].union_members, v) matches Some(m) ==> {
            &&& stands_out(s, s.types[governing(s, id) as int].union_members, m)
            &&& governing_builtin(s, m) != Builtin::InstanceIdentifier
            &&& governing_builtin(s, m) != Builtin::Leafref
            &&& reads_back(s, governing(s, m), v, true, d)
        },
    ensures
        value_settled(s, id, v, d),
{
    let members = s.types[governing(s, id) as int].union_members;
    match value_encoded(s, id, v, false) {
        Ok(item) => {
            law_union_member_is_found(s, members, v, item);
        },
        Err(_) => {},
    }
}

/// A value of a type that is no union is settled if it reads back.
pub proof fn law_value_reads_back(s: SchemaView, id: usize, v: Tree, d: Seq<DecimalView>)
    requires
        governing_builtin(s, id) != Builtin::Union,
        reads_back(s, governing(s, id), v, false, d),
    ensures
        value_settled(s, id, v, d),
{
}

} // verus!
