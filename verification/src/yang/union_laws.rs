//! Which member of a union a value belongs to.
use vstd::prelude::*;

use crate::cbor::value::Item;
use crate::json::Tree;
use crate::text::number_in;
use crate::yang::bits::{bit_named, bit_names};
use crate::yang::choices::{
    dashes_end, first_fit, first_of, fits, governing, governing_builtin, identity_meant,
    is_candidate, is_of, looks_decimal, member_for_cbor, member_for_json, names_identity,
    source_of, Kind, Way,
};
use crate::yang::scalars::enum_named;
use crate::yang::schema::{BitView, Builtin, EnumView, IdentityView, SchemaView, TypeView};

verus! {

/// Whether a text is made like a decimal: perhaps dashes, then digits and at
/// least one dot.
pub open spec fn made_like_a_decimal(t: Seq<char>, d: int) -> bool {
    &&& 0 <= d <= t.len()
    &&& forall|i: int| 0 <= i < d ==> #[trigger] t[i] == '-'
    &&& forall|i: int| d <= i < t.len() ==> '0' <= #[trigger] t[i] <= '9' || t[i] == '.'
    &&& t.contains('.')
}

/// Whether a value suits a type: by the name of an identity first, then that of
/// an enumeration's value, those of bits, a decimal, a number of 64 bits in
/// digits, a plain value, text, and what else is written as text.
pub open spec fn suits(ids: Seq<IdentityView>, ty: TypeView, v: Tree, rank: int) -> bool {
    if rank == 0 {
        ty.builtin == Builtin::Identityref && v is Text && ty.identity_bases.len() > 0 && exists|
            i: int,
        |
            0 <= i < ids.len() && is_candidate(ids, ty.identity_bases, i) && #[trigger] names_identity(
                v->Text_0,
                ids[i],
                source_of(ty),
            )
    } else if rank == 1 {
        ty.builtin == Builtin::Enumeration && v is Text && exists|i: int|
            0 <= i < ty.enums.len() && (#[trigger] ty.enums[i]).name == v->Text_0
    } else if rank == 2 {
        ty.builtin == Builtin::Bits && (bit_names(v) matches Some(names) && names.len() > 0 && forall|
            j: int,
        |
            0 <= j < names.len() ==> exists|i: int|
                0 <= i < ty.bits.len() && (#[trigger] ty.bits[i]).name == #[trigger] names[j])
    } else if rank == 3 {
        ty.builtin == Builtin::Decimal64 && v is Text && exists|d: int| #[trigger]
            made_like_a_decimal(v->Text_0, d)
    } else if rank == 4 {
        v is Text && (ty.builtin == Builtin::Int64 && number_in(
            v->Text_0,
            -0x8000_0000_0000_0000,
            0x7FFF_FFFF_FFFF_FFFF,
        ) is Some || ty.builtin == Builtin::Uint64 && number_in(
            v->Text_0,
            0,
            0xFFFF_FFFF_FFFF_FFFF,
        ) is Some)
    } else if rank == 5 {
        let small = ty.builtin == Builtin::Int8 || ty.builtin == Builtin::Int16 || ty.builtin
            == Builtin::Int32 || ty.builtin == Builtin::Uint8 || ty.builtin == Builtin::Uint16
            || ty.builtin == Builtin::Uint32;
        ty.builtin == Builtin::Boolean && v is Bool || small && (v is Integer || v is Float)
            || ty.builtin == Builtin::Empty && v == Tree::Array(seq![Tree::Null])
    } else if rank == 6 {
        ty.builtin == Builtin::String && v is Text
    } else {
        rank == 7 && (ty.builtin == Builtin::Binary || ty.builtin == Builtin::InstanceIdentifier)
            && v is Text
    }
}

/// The ranks of the ways in which a member is looked for.
spec fn way_of(rank: int) -> Way {
    if rank == 0 {
        Way::Identity
    } else if rank == 1 {
        Way::Enumeration
    } else if rank == 2 {
        Way::Bits
    } else if rank == 3 {
        Way::Decimal
    } else if rank == 4 {
        Way::Wide
    } else if rank == 5 {
        Way::Plain
    } else if rank == 6 {
        Way::Text
    } else {
        Way::Other
    }
}

/// An identity is found exactly where there is one.
proof fn lemma_identity(ids: Seq<IdentityView>, ty: TypeView, t: Seq<char>, from: int)
    requires
        0 <= from <= ids.len(),
    ensures
        identity_meant(ids, ty, t, from) is Some <==> exists|i: int|
            from <= i < ids.len() && is_candidate(ids, ty.identity_bases, i)
                && #[trigger] names_identity(t, ids[i], source_of(ty)),
    decreases ids.len() - from,
{
    if from < ids.len() {
        lemma_identity(ids, ty, t, from + 1);
        if is_candidate(ids, ty.identity_bases, from) && names_identity(t, ids[from], source_of(ty)) {
        } else if exists|i: int|
            from <= i < ids.len() && is_candidate(ids, ty.identity_bases, i)
                && #[trigger] names_identity(t, ids[i], source_of(ty)) {
            let i = choose|i: int|
                from <= i < ids.len() && is_candidate(ids, ty.identity_bases, i)
                    && #[trigger] names_identity(t, ids[i], source_of(ty));
            assert(from + 1 <= i);
        }
    }
}

/// A value of an enumeration is found exactly where there is one.
proof fn lemma_enum(enums: Seq<EnumView>, name: Seq<char>, from: int)
    requires
        0 <= from <= enums.len(),
    ensures
        enum_named(enums, name, from) is Some <==> exists|i: int|
            from <= i < enums.len() && (#[trigger] enums[i]).name == name,
    decreases enums.len() - from,
{
    if from < enums.len() {
        lemma_enum(enums, name, from + 1);
        if enums[from].name != name && exists|i: int|
            from <= i < enums.len() && (#[trigger] enums[i]).name == name {
            let i = choose|i: int| from <= i < enums.len() && (#[trigger] enums[i]).name == name;
            assert(from + 1 <= i);
        }
    }
}

/// A bit is found exactly where there is one.
proof fn lemma_bit(bits: Seq<BitView>, name: Seq<char>, from: int)
    requires
        0 <= from <= bits.len(),
    ensures
        bit_named(bits, name, from) is Some <==> exists|i: int|
            from <= i < bits.len() && (#[trigger] bits[i]).name == name,
    decreases bits.len() - from,
{
    if from < bits.len() {
        lemma_bit(bits, name, from + 1);
        if bits[from].name != name && exists|i: int|
            from <= i < bits.len() && (#[trigger] bits[i]).name == name {
            let i = choose|i: int| from <= i < bits.len() && (#[trigger] bits[i]).name == name;
            assert(from + 1 <= i);
        }
    }
}

/// Where dashes end.
proof fn lemma_dashes(t: Seq<char>, from: int)
    requires
        0 <= from <= t.len(),
    ensures
        from <= dashes_end(t, from) <= t.len(),
        forall|i: int| from <= i < dashes_end(t, from) ==> #[trigger] t[i] == '-',
        dashes_end(t, from) < t.len() ==> t[dashes_end(t, from)] != '-',
    decreases t.len() - from,
{
    if from < t.len() && t[from] == '-' {
        lemma_dashes(t, from + 1);
    }
}

/// A text looks like a decimal exactly where it is made like one.
proof fn lemma_looks_decimal(t: Seq<char>)
    ensures
        looks_decimal(t) <==> exists|d: int| #[trigger] made_like_a_decimal(t, d),
{
    lemma_dashes(t, 0);
    let e = dashes_end(t, 0);
    if looks_decimal(t) {
        assert(made_like_a_decimal(t, e));
    }
    if exists|d: int| #[trigger] made_like_a_decimal(t, d) {
        let d = choose|d: int| #[trigger] made_like_a_decimal(t, d);
        if e < d {
            assert(t[e] == '-');
        }
        if d < e {
            assert(t[d] == '-');
        }
        assert(d == e);
        let i = choose|i: int| 0 <= i < t.len() && t[i] == '.';
        assert(t[i] == '.');
    }
}

/// A member fits in a way exactly where the value suits its type.
proof fn lemma_fits(s: SchemaView, m: usize, v: Tree, rank: int)
    requires
        0 <= rank <= 7,
    ensures
        fits(s, m, v, way_of(rank)) <==> suits(
            s.identities,
            s.types[governing(s, m) as int],
            v,
            rank,
        ),
{
    let ty = s.types[governing(s, m) as int];
    if rank == 0 && v is Text {
        lemma_identity(s.identities, ty, v->Text_0, 0);
    } else if rank == 1 && v is Text {
        lemma_enum(ty.enums, v->Text_0, 0);
    } else if rank == 2 {
        if let Some(names) = bit_names(v) {
            assert forall|j: int| 0 <= j < names.len() implies (bit_named(
                ty.bits,
                #[trigger] names[j],
                0,
            ) is Some <==> exists|i: int|
                0 <= i < ty.bits.len() && (#[trigger] ty.bits[i]).name == names[j]) by {
                lemma_bit(ty.bits, names[j], 0);
            }
        }
    } else if rank == 3 && v is Text {
        lemma_looks_decimal(v->Text_0);
    } else if rank == 5 {
        if let Tree::Array(a) = v {
            if a.len() == 1 && a[0] is Null {
                assert(a =~= seq![Tree::Null]);
            }
        }
    }
}

/// Whether a value suits a member of a union.
pub open spec fn member_suits(s: SchemaView, m: usize, v: Tree, rank: int) -> bool {
    suits(s.identities, s.types[governing(s, m) as int], v, rank)
}

/// The first member that fits in a way.
proof fn lemma_first_fit(s: SchemaView, members: Seq<usize>, v: Tree, rank: int, from: int)
    requires
        0 <= rank <= 7,
        0 <= from <= members.len(),
    ensures
        first_fit(s, members, v, way_of(rank), from) matches Some(m) ==> exists|k: int|
            from <= k < members.len() && #[trigger] members[k] == m && member_suits(s, m, v, rank)
                && forall|j: int|
                from <= j < k ==> !member_suits(s, #[trigger] members[j], v, rank),
        first_fit(s, members, v, way_of(rank), from) is None ==> forall|j: int|
            from <= j < members.len() ==> !member_suits(s, #[trigger] members[j], v, rank),
    decreases members.len() - from,
{
    if from < members.len() {
        lemma_fits(s, members[from], v, rank);
        if fits(s, members[from], v, way_of(rank)) {
            assert(members[from] == first_fit(s, members, v, way_of(rank), from)->0);
        } else {
            lemma_first_fit(s, members, v, rank, from + 1);
            if let Some(m) = first_fit(s, members, v, way_of(rank), from) {
                let k = choose|k: int|
                    from + 1 <= k < members.len() && #[trigger] members[k] == m && member_suits(
                        s,
                        m,
                        v,
                        rank,
                    ) && forall|j: int|
                        from + 1 <= j < k ==> !member_suits(s, #[trigger] members[j], v, rank);
                assert(from <= k < members.len() && members[k] == m);
            }
        }
    }
}

/// A value belongs to the member of a union that it suits best, the first of
/// those that it suits alike; and to none only where it suits none.
pub proof fn law_values_belong_where_they_suit_best(
    s: SchemaView,
    members: Seq<usize>,
    v: Tree,
    rank: int,
    j: int,
)
    requires
        0 <= rank <= 7,
        0 <= j < members.len(),
        member_suits(s, members[j], v, rank),
        forall|r: int, i: int|
            0 <= r < rank && 0 <= i < members.len() ==> !#[trigger] member_suits(
                s,
                members[i],
                v,
                r,
            ),
        forall|i: int| 0 <= i < j ==> !#[trigger] member_suits(s, members[i], v, rank),
    ensures
        member_for_json(s, members, v) == Some(members[j]),
{
    lemma_first_fit(s, members, v, 0, 0);
    lemma_first_fit(s, members, v, 1, 0);
    lemma_first_fit(s, members, v, 2, 0);
    lemma_first_fit(s, members, v, 3, 0);
    lemma_first_fit(s, members, v, 4, 0);
    lemma_first_fit(s, members, v, 5, 0);
    lemma_first_fit(s, members, v, 6, 0);
    lemma_first_fit(s, members, v, 7, 0);
    assert forall|r: int| 0 <= r < rank implies #[trigger] first_fit(
        s,
        members,
        v,
        way_of(r),
        0,
    ) is None by {
        lemma_first_fit(s, members, v, r, 0);
    }
    let found = first_fit(s, members, v, way_of(rank), 0);
    lemma_first_fit(s, members, v, rank, 0);
    let m = found->0;
    let k = choose|k: int|
        0 <= k < members.len() && #[trigger] members[k] == m && member_suits(s, m, v, rank)
            && forall|i: int| 0 <= i < k ==> !member_suits(s, #[trigger] members[i], v, rank);
    assert(k == j) by {
        if k < j {
            assert(!member_suits(s, members[k], v, rank));
        } else if j < k {
            assert(!member_suits(s, members[j], v, rank));
        }
    }
    lemma_ranked(s, members, v, rank);
}

/// The ways are tried in the order of their ranks.
proof fn lemma_ranked(s: SchemaView, members: Seq<usize>, v: Tree, rank: int)
    requires
        0 <= rank <= 7,
        forall|r: int|
            0 <= r < rank ==> #[trigger] first_fit(s, members, v, way_of(r), 0) is None,
        first_fit(s, members, v, way_of(rank), 0) is Some,
    ensures
        member_for_json(s, members, v) == first_fit(s, members, v, way_of(rank), 0),
{
    if rank > 0 {
        assert(first_fit(s, members, v, way_of(0), 0) is None);
    }
    if rank > 1 {
        assert(first_fit(s, members, v, way_of(1), 0) is None);
    }
    if rank > 2 {
        assert(first_fit(s, members, v, way_of(2), 0) is None);
    }
    if rank > 3 {
        assert(first_fit(s, members, v, way_of(3), 0) is None);
    }
    if rank > 4 {
        assert(first_fit(s, members, v, way_of(4), 0) is None);
    }
    if rank > 5 {
        assert(first_fit(s, members, v, way_of(5), 0) is None);
    }
    if rank > 6 {
        assert(first_fit(s, members, v, way_of(6), 0) is None);
    }
}

/// A value that suits no member belongs to none.
pub proof fn law_what_suits_nothing_belongs_nowhere(s: SchemaView, members: Seq<usize>, v: Tree)
    requires
        forall|r: int, i: int|
            0 <= r <= 7 && 0 <= i < members.len() ==> !#[trigger] member_suits(
                s,
                members[i],
                v,
                r,
            ),
    ensures
        member_for_json(s, members, v) is None,
{
    lemma_first_fit(s, members, v, 0, 0);
    lemma_first_fit(s, members, v, 1, 0);
    lemma_first_fit(s, members, v, 2, 0);
    lemma_first_fit(s, members, v, 3, 0);
    lemma_first_fit(s, members, v, 4, 0);
    lemma_first_fit(s, members, v, 5, 0);
    lemma_first_fit(s, members, v, 6, 0);
    lemma_first_fit(s, members, v, 7, 0);
}

/// Whether a built-in type is one of whole numbers.
pub open spec fn is_whole(b: Builtin) -> bool {
    b == Builtin::Int8 || b == Builtin::Int16 || b == Builtin::Int32 || b == Builtin::Int64 || b
        == Builtin::Uint8 || b == Builtin::Uint16 || b == Builtin::Uint32 || b == Builtin::Uint64
}

/// Whether a data item is one that values of a built-in type are sent as in a
/// union.
pub open spec fn sent_as(v: Item, b: Builtin) -> bool {
    match v {
        Item::Tag(t, _) => t == 4 && b == Builtin::Decimal64 || t == 43 && b == Builtin::Bits || t
            == 44 && b == Builtin::Enumeration || t == 45 && b == Builtin::Identityref,
        Item::Integer(_) => is_whole(b),
        Item::Text(_) => b == Builtin::String || b == Builtin::InstanceIdentifier,
        Item::Bytes(_) => b == Builtin::Binary,
        Item::Bool(_) => b == Builtin::Boolean,
        Item::Null => b == Builtin::Empty,
        _ => false,
    }
}

/// The first member of a kind.
proof fn lemma_first_of(s: SchemaView, members: Seq<usize>, kind: Kind, from: int)
    requires
        0 <= from <= members.len(),
    ensures
        first_of(s, members, kind, from) matches Some(m) ==> exists|k: int|
            from <= k < members.len() && #[trigger] members[k] == m && is_of(
                governing_builtin(s, m),
                kind,
            ) && forall|j: int|
                from <= j < k ==> !is_of(governing_builtin(s, #[trigger] members[j]), kind),
        first_of(s, members, kind, from) is None ==> forall|j: int|
            from <= j < members.len() ==> !is_of(
                governing_builtin(s, #[trigger] members[j]),
                kind,
            ),
    decreases members.len() - from,
{
    if from < members.len() {
        if is_of(governing_builtin(s, members[from]), kind) {
            assert(members[from] == first_of(s, members, kind, from)->0);
        } else {
            lemma_first_of(s, members, kind, from + 1);
            if let Some(m) = first_of(s, members, kind, from) {
                let k = choose|k: int|
                    from + 1 <= k < members.len() && #[trigger] members[k] == m && is_of(
                        governing_builtin(s, m),
                        kind,
                    ) && forall|j: int|
                        from + 1 <= j < k ==> !is_of(
                            governing_builtin(s, #[trigger] members[j]),
                            kind,
                        );
                assert(from <= k < members.len() && members[k] == m);
            }
        }
    }
}

/// A data item belongs to the first member of a union whose values are sent like
/// it. Where a number does not fit 32 bits, signed or not, the first member of 64
/// bits goes before all others. Where no member's values are sent like it, it
/// belongs to none.
pub proof fn law_items_belong_to_the_first_of_their_kind(
    s: SchemaView,
    members: Seq<usize>,
    v: Item,
    j: int,
)
    requires
        0 <= j < members.len(),
    ensures
        ({
            let b = governing_builtin(s, members[j]);
            let far = v matches Item::Integer(n) && (n < -0x8000_0000 || n > 0xFFFF_FFFF);
            let wide = b == Builtin::Int64 || b == Builtin::Uint64;
            let first = sent_as(v, b) && forall|i: int|
                0 <= i < j ==> !sent_as(v, governing_builtin(s, #[trigger] members[i]));
            let first_wide = wide && forall|i: int|
                0 <= i < j ==> governing_builtin(s, #[trigger] members[i]) != Builtin::Int64
                    && governing_builtin(s, members[i]) != Builtin::Uint64;
            let none_wide = forall|i: int|
                0 <= i < members.len() ==> governing_builtin(s, #[trigger] members[i])
                    != Builtin::Int64 && governing_builtin(s, members[i]) != Builtin::Uint64;
            &&& !far && first ==> member_for_cbor(s, members, v) == Some(members[j])
            &&& far && first_wide ==> member_for_cbor(s, members, v) == Some(members[j])
            &&& far && first && none_wide ==> member_for_cbor(s, members, v) == Some(members[j])
            &&& (forall|i: int|
                0 <= i < members.len() ==> !sent_as(v, governing_builtin(s, #[trigger] members[i])))
                ==> member_for_cbor(s, members, v) is None
        }),
{
    match v {
        Item::Tag(t, _) => {
            lemma_place(s, members, Kind::Only(Builtin::Decimal64), j);
            lemma_place(s, members, Kind::Only(Builtin::Bits), j);
            lemma_place(s, members, Kind::Only(Builtin::Enumeration), j);
            lemma_place(s, members, Kind::Only(Builtin::Identityref), j);
        },
        Item::Integer(n) => {
            lemma_place(s, members, Kind::Wide, j);
            lemma_place(s, members, Kind::Whole, j);
        },
        Item::Text(_) => {
            lemma_place(s, members, Kind::Textual, j);
        },
        Item::Bytes(_) => {
            lemma_place(s, members, Kind::Only(Builtin::Binary), j);
        },
        Item::Bool(_) => {
            lemma_place(s, members, Kind::Only(Builtin::Boolean), j);
        },
        Item::Null => {
            lemma_place(s, members, Kind::Only(Builtin::Empty), j);
        },
        _ => {},
    }
}

/// The member at a place is found where it is the first of its kind.
proof fn lemma_place(s: SchemaView, members: Seq<usize>, kind: Kind, j: int)
    requires
        0 <= j < members.len(),
    ensures
        is_of(governing_builtin(s, members[j]), kind) && (forall|i: int|
            0 <= i < j ==> !is_of(governing_builtin(s, #[trigger] members[i]), kind)) ==> first_of(
            s,
            members,
            kind,
            0,
        ) == Some(members[j]),
        (forall|i: int|
            0 <= i < members.len() ==> !is_of(governing_builtin(s, #[trigger] members[i]), kind))
            ==> first_of(s, members, kind, 0) is None,
{
    lemma_first_of(s, members, kind, 0);
    if let Some(m) = first_of(s, members, kind, 0) {
        let k = choose|k: int|
            0 <= k < members.len() && #[trigger] members[k] == m && is_of(
                governing_builtin(s, m),
                kind,
            ) && forall|i: int|
                0 <= i < k ==> !is_of(governing_builtin(s, #[trigger] members[i]), kind);
        if is_of(governing_builtin(s, members[j]), kind) && forall|i: int|
            0 <= i < j ==> !is_of(governing_builtin(s, #[trigger] members[i]), kind) {
            if k < j {
                assert(!is_of(governing_builtin(s, members[k]), kind));
            } else if j < k {
                assert(!is_of(governing_builtin(s, members[j]), kind));
            }
        }
    }
}

} // verus!
