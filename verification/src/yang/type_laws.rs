//! What the statements of a type say of its values.
use vstd::prelude::*;

use crate::text::number_in;
use crate::yang::meaning::{
    bits_in, builtin_made, default_ranges, enums_in, patterns_in, restricted, type_made, Build,
};
use crate::yang::parser::{arg_of, sub_of, StmtView};
use crate::yang::schema::{
    builtin_named, law_builtin_names, BitView, Builtin, EnumView, TypeView,
};

verus! {

/// The statements of a kind among some.
pub open spec fn of_kind(subs: Seq<StmtView>, kw: Seq<char>) -> Seq<StmtView> {
    subs.filter(|s: StmtView| s.prefix is None && s.keyword == kw)
}

/// The number that a substatement of a statement gives.
pub open spec fn given_number(s: StmtView, kw: Seq<char>, min: int, max: int) -> Option<int> {
    match sub_of(s, kw) {
        Some(v) => number_in(arg_of(v), min, max),
        None => None,
    }
}

/// Whether a number is the one that is given, else one more than the number
/// before it, which may be the greatest; the first one is nought.
pub open spec fn counts_up(given: Option<int>, now: int, before: Option<int>, max: int) -> bool {
    match (given, before) {
        (Some(n), _) => now == n,
        (None, None) => now == 0,
        (None, Some(b)) => now == b + 1 || b == max,
    }
}

/// Whether a value of an enumeration is what its statement says: its argument
/// for a name, and its number.
pub open spec fn numbered_at(enums: Seq<EnumView>, stmts: Seq<StmtView>, k: int) -> bool {
    &&& enums[k].name == arg_of(stmts[k])
    &&& counts_up(
        given_number(stmts[k], "value"@, i64::MIN as int, i64::MAX as int),
        enums[k].value as int,
        if k == 0 {
            None
        } else {
            Some(enums[k - 1].value as int)
        },
        i64::MAX as int,
    )
}

/// Whether an enumeration is what some statements say, one value for each.
pub open spec fn numbered(enums: Seq<EnumView>, stmts: Seq<StmtView>) -> bool {
    &&& enums.len() == stmts.len()
    &&& forall|k: int| 0 <= k < enums.len() ==> #[trigger] numbered_at(enums, stmts, k)
}

/// Whether a bit is what its statement says: its argument for a name, and its
/// position.
pub open spec fn positioned_at(bits: Seq<BitView>, stmts: Seq<StmtView>, k: int) -> bool {
    &&& bits[k].name == arg_of(stmts[k])
    &&& counts_up(
        given_number(stmts[k], "position"@, 0, u32::MAX as int),
        bits[k].position as int,
        if k == 0 {
            None
        } else {
            Some(bits[k - 1].position as int)
        },
        u32::MAX as int,
    )
}

/// Whether bits are what some statements say, one bit for each.
pub open spec fn positioned(bits: Seq<BitView>, stmts: Seq<StmtView>) -> bool {
    &&& bits.len() == stmts.len()
    &&& forall|k: int| 0 <= k < bits.len() ==> #[trigger] positioned_at(bits, stmts, k)
}

proof fn lemma_filter_step(subs: Seq<StmtView>, kw: Seq<char>, n: int)
    requires
        0 < n <= subs.len(),
    ensures
        of_kind(subs.subrange(0, n), kw) == if subs[n - 1].prefix is None && subs[n - 1].keyword
            == kw {
            of_kind(subs.subrange(0, n - 1), kw).push(subs[n - 1])
        } else {
            of_kind(subs.subrange(0, n - 1), kw)
        },
{
    reveal(Seq::filter);
    assert(subs.subrange(0, n).drop_last() =~= subs.subrange(0, n - 1));
}

proof fn lemma_numbered(subs: Seq<StmtView>, n: int)
    requires
        0 <= n <= subs.len(),
    ensures
        numbered(enums_in(subs, n).0, of_kind(subs.subrange(0, n), "enum"@)),
        ({
            let (all, next) = enums_in(subs, n);
            if all.len() == 0 {
                next == 0
            } else {
                next == all.last().value + 1 || all.last().value == i64::MAX
            }
        }),
    decreases n,
{
    if n == 0 {
        reveal(Seq::filter);
        assert(subs.subrange(0, 0) =~= Seq::empty());
    } else {
        lemma_numbered(subs, n - 1);
        lemma_filter_step(subs, "enum"@, n);
        let before = enums_in(subs, n - 1).0;
        let now = enums_in(subs, n).0;
        let stmts = of_kind(subs.subrange(0, n), "enum"@);
        let had = of_kind(subs.subrange(0, n - 1), "enum"@);
        assert forall|k: int| 0 <= k < now.len() implies #[trigger] numbered_at(now, stmts, k) by {
            if k < before.len() {
                assert(numbered_at(before, had, k));
                assert(now[k] == before[k]);
                assert(stmts[k] == had[k]);
                if k > 0 {
                    assert(now[k - 1] == before[k - 1]);
                }
            } else if k > 0 {
                assert(now[k - 1] == before.last());
            }
        }
    }
}

proof fn lemma_positioned(subs: Seq<StmtView>, n: int)
    requires
        0 <= n <= subs.len(),
    ensures
        positioned(bits_in(subs, n).0, of_kind(subs.subrange(0, n), "bit"@)),
        ({
            let (all, next) = bits_in(subs, n);
            if all.len() == 0 {
                next == 0
            } else {
                next == all.last().position + 1 || all.last().position == u32::MAX
            }
        }),
    decreases n,
{
    if n == 0 {
        reveal(Seq::filter);
        assert(subs.subrange(0, 0) =~= Seq::empty());
    } else {
        lemma_positioned(subs, n - 1);
        lemma_filter_step(subs, "bit"@, n);
        let before = bits_in(subs, n - 1).0;
        let now = bits_in(subs, n).0;
        let stmts = of_kind(subs.subrange(0, n), "bit"@);
        let had = of_kind(subs.subrange(0, n - 1), "bit"@);
        assert forall|k: int| 0 <= k < now.len() implies #[trigger] positioned_at(now, stmts, k) by {
            if k < before.len() {
                assert(positioned_at(before, had, k));
                assert(now[k] == before[k]);
                assert(stmts[k] == had[k]);
                if k > 0 {
                    assert(now[k - 1] == before[k - 1]);
                }
            } else if k > 0 {
                assert(now[k - 1] == before.last());
            }
        }
    }
}

/// The values of an enumeration are numbered as its statements say, in their
/// order: a value without a number of its own is one more than the one before.
pub proof fn law_enumerations_are_numbered(
    mods: Seq<StmtView>,
    b: Build,
    module: Seq<char>,
    scope: Seq<StmtView>,
    t: StmtView,
    fuel: nat,
)
    requires
        arg_of(t) == "enumeration"@,
        b.types.len() <= usize::MAX,
    ensures
        type_made(mods, b, module, scope, t, fuel) matches Ok((c, id)) && id == b.types.len()
            && c.types[id as int].builtin == Builtin::Enumeration && numbered(
            c.types[id as int].enums,
            of_kind(t.subs, "enum"@),
        ),
{
    law_builtin_names(Builtin::Enumeration);
    assert(builtin_named(arg_of(t)) == Some(Builtin::Enumeration));
    assert(type_made(mods, b, module, scope, t, fuel) == builtin_made(
        mods,
        b,
        module,
        scope,
        Builtin::Enumeration,
        t,
        fuel,
    ));
    lemma_numbered(t.subs, t.subs.len() as int);
    assert(t.subs.subrange(0, t.subs.len() as int) =~= t.subs);
}

/// In an enumeration that gives no numbers, the `k`-th value has the number
/// `k`.
pub proof fn law_unnumbered_values_count_up(enums: Seq<EnumView>, stmts: Seq<StmtView>, k: int)
    requires
        numbered(enums, stmts),
        forall|j: int| 0 <= j < stmts.len() ==> sub_of(#[trigger] stmts[j], "value"@) is None,
        0 <= k < enums.len() <= i64::MAX,
    ensures
        enums[k].value == k,
    decreases k,
{
    assert(sub_of(stmts[k], "value"@) is None);
    assert(numbered_at(enums, stmts, k));
    if k > 0 {
        law_unnumbered_values_count_up(enums, stmts, k - 1);
    }
}

/// The bits of a type are at the positions that its statements say, in their
/// order: a bit without a position of its own is behind the one before.
pub proof fn law_bits_are_positioned(
    mods: Seq<StmtView>,
    b: Build,
    module: Seq<char>,
    scope: Seq<StmtView>,
    t: StmtView,
    fuel: nat,
)
    requires
        arg_of(t) == "bits"@,
        b.types.len() <= usize::MAX,
    ensures
        type_made(mods, b, module, scope, t, fuel) matches Ok((c, id)) && id == b.types.len()
            && c.types[id as int].builtin == Builtin::Bits && positioned(
            c.types[id as int].bits,
            of_kind(t.subs, "bit"@),
        ),
{
    law_builtin_names(Builtin::Bits);
    assert(builtin_named(arg_of(t)) == Some(Builtin::Bits));
    assert(type_made(mods, b, module, scope, t, fuel) == builtin_made(
        mods,
        b,
        module,
        scope,
        Builtin::Bits,
        t,
        fuel,
    ));
    lemma_positioned(t.subs, t.subs.len() as int);
    assert(t.subs.subrange(0, t.subs.len() as int) =~= t.subs);
}

/// In a type whose bits give no positions, the `k`-th bit is at position `k`.
pub proof fn law_unplaced_bits_count_up(bits: Seq<BitView>, stmts: Seq<StmtView>, k: int)
    requires
        positioned(bits, stmts),
        forall|j: int| 0 <= j < stmts.len() ==> sub_of(#[trigger] stmts[j], "position"@) is None,
        0 <= k < bits.len() <= u32::MAX,
    ensures
        bits[k].position == k,
    decreases k,
{
    assert(sub_of(stmts[k], "position"@) is None);
    assert(positioned_at(bits, stmts, k));
    if k > 0 {
        law_unplaced_bits_count_up(bits, stmts, k - 1);
    }
}

/// A decimal type has as many fraction digits as it says.
pub proof fn law_decimals_have_their_digits(
    mods: Seq<StmtView>,
    b: Build,
    module: Seq<char>,
    scope: Seq<StmtView>,
    t: StmtView,
    f: StmtView,
    digits: u8,
    fuel: nat,
)
    requires
        arg_of(t) == "decimal64"@,
        sub_of(t, "fraction-digits"@) == Some(f),
        number_in(arg_of(f), 0, 255) == Some(digits as int),
        b.types.len() <= usize::MAX,
    ensures
        type_made(mods, b, module, scope, t, fuel) matches Ok((c, id)) && id == b.types.len()
            && c.types[id as int].builtin == Builtin::Decimal64
            && c.types[id as int].fraction_digits == Some(digits),
{
    law_builtin_names(Builtin::Decimal64);
    assert(builtin_named(arg_of(t)) == Some(Builtin::Decimal64));
    assert(type_made(mods, b, module, scope, t, fuel) == builtin_made(
        mods,
        b,
        module,
        scope,
        Builtin::Decimal64,
        t,
        fuel,
    ));
}

/// The name of a type and the type that it names.
pub proof fn law_types_by_name()
    ensures
        builtin_named("int8"@) == Some(Builtin::Int8),
        builtin_named("int16"@) == Some(Builtin::Int16),
        builtin_named("int32"@) == Some(Builtin::Int32),
        builtin_named("int64"@) == Some(Builtin::Int64),
        builtin_named("uint8"@) == Some(Builtin::Uint8),
        builtin_named("uint16"@) == Some(Builtin::Uint16),
        builtin_named("uint32"@) == Some(Builtin::Uint32),
        builtin_named("uint64"@) == Some(Builtin::Uint64),
        builtin_named("boolean"@) == Some(Builtin::Boolean),
        builtin_named("string"@) == Some(Builtin::String),
        builtin_named("binary"@) == Some(Builtin::Binary),
        builtin_named("bits"@) == Some(Builtin::Bits),
        builtin_named("enumeration"@) == Some(Builtin::Enumeration),
        builtin_named("decimal64"@) == Some(Builtin::Decimal64),
        builtin_named("empty"@) == Some(Builtin::Empty),
        builtin_named("identityref"@) == Some(Builtin::Identityref),
        builtin_named("instance-identifier"@) == Some(Builtin::InstanceIdentifier),
        builtin_named("leafref"@) == Some(Builtin::Leafref),
        builtin_named("union"@) == Some(Builtin::Union),
{
    law_builtin_names(Builtin::Int8);
    law_builtin_names(Builtin::Int16);
    law_builtin_names(Builtin::Int32);
    law_builtin_names(Builtin::Int64);
    law_builtin_names(Builtin::Uint8);
    law_builtin_names(Builtin::Uint16);
    law_builtin_names(Builtin::Uint32);
    law_builtin_names(Builtin::Uint64);
    law_builtin_names(Builtin::Boolean);
    law_builtin_names(Builtin::String);
    law_builtin_names(Builtin::Binary);
    law_builtin_names(Builtin::Bits);
    law_builtin_names(Builtin::Enumeration);
    law_builtin_names(Builtin::Decimal64);
    law_builtin_names(Builtin::Empty);
    law_builtin_names(Builtin::Identityref);
    law_builtin_names(Builtin::InstanceIdentifier);
    law_builtin_names(Builtin::Leafref);
    law_builtin_names(Builtin::Union);
}

/// The number of bits of an integer type, and whether it has negative numbers.
pub open spec fn width(b: Builtin) -> Option<(nat, bool)> {
    match b {
        Builtin::Int8 => Some((8, true)),
        Builtin::Int16 => Some((16, true)),
        Builtin::Int32 => Some((32, true)),
        Builtin::Int64 => Some((64, true)),
        Builtin::Uint8 => Some((8, false)),
        Builtin::Uint16 => Some((16, false)),
        Builtin::Uint32 => Some((32, false)),
        Builtin::Uint64 => Some((64, false)),
        _ => None,
    }
}

/// An integer type without restrictions allows exactly the numbers of its
/// width, and a string or binary one every length that 64 bits hold. The other
/// types have no ranges.
pub proof fn law_integers_have_their_width(b: Builtin)
    ensures
        match width(b) {
            Some((bits, signed)) => default_ranges(b).len() == 1 && default_ranges(b)[0] == (if signed {
                (
                    -(vstd::arithmetic::power2::pow2((bits - 1) as nat) as int) as i128,
                    (vstd::arithmetic::power2::pow2((bits - 1) as nat) - 1) as i128,
                )
            } else {
                (0i128, (vstd::arithmetic::power2::pow2(bits) - 1) as i128)
            }),
            None => if b == Builtin::String || b == Builtin::Binary {
                default_ranges(b) == seq![(0i128, u64::MAX as i128)]
            } else {
                default_ranges(b).len() == 0
            },
        },
{
    vstd::arithmetic::power2::lemma2_to64();
    vstd::arithmetic::power2::lemma2_to64_rest();
}

/// Patterns that a type statement gives are added to those of its base, each to
/// match the whole of a text.
pub proof fn law_patterns_are_added(ty: TypeView, t: StmtView, p: Seq<char>)
    requires
        ty.builtin == Builtin::String,
        of_kind(t.subs, "pattern"@).len() == 1,
        arg_of(of_kind(t.subs, "pattern"@)[0]) == p,
    ensures
        restricted(ty, t) matches Ok(r) ==> r.patterns == ty.patterns.push(
            seq!['^', '(', '?', ':'] + p + seq![')', '$'],
        ),
{
    reveal_strlit("^(?:");
    reveal_strlit(")$");
    assert("^(?:"@ =~= seq!['^', '(', '?', ':']);
    assert(")$"@ =~= seq![')', '$']);
    let n = t.subs.len() as int;
    lemma_patterns(ty.patterns, t.subs, n);
    assert(t.subs.subrange(0, n) =~= t.subs);
    let f = of_kind(t.subs, "pattern"@);
    let all = patterns_in(ty.patterns, t.subs, n);
    assert(all[ty.patterns.len() + 0int] == "^(?:"@ + p + ")$"@);
    assert(patterns_in(ty.patterns, t.subs, n) =~= ty.patterns.push(
        seq!['^', '(', '?', ':'] + p + seq![')', '$'],
    ));
}

proof fn lemma_patterns(before: Seq<Seq<char>>, subs: Seq<StmtView>, n: int)
    requires
        0 <= n <= subs.len(),
    ensures
        ({
            let f = of_kind(subs.subrange(0, n), "pattern"@);
            let all = patterns_in(before, subs, n);
            &&& all.len() == before.len() + f.len()
            &&& forall|k: int| 0 <= k < before.len() ==> #[trigger] all[k] == before[k]
            &&& forall|k: int|
                0 <= k < f.len() ==> #[trigger] all[before.len() + k] == "^(?:"@ + arg_of(f[k])
                    + ")$"@
        }),
    decreases n,
{
    if n == 0 {
        reveal(Seq::filter);
        assert(subs.subrange(0, 0) =~= Seq::empty());
    } else {
        lemma_patterns(before, subs, n - 1);
        lemma_filter_step(subs, "pattern"@, n);
        let f = of_kind(subs.subrange(0, n), "pattern"@);
        let g = of_kind(subs.subrange(0, n - 1), "pattern"@);
        let all = patterns_in(before, subs, n);
        let had = patterns_in(before, subs, n - 1);
        assert forall|k: int| 0 <= k < f.len() implies #[trigger] all[before.len() + k] == "^(?:"@
            + arg_of(f[k]) + ")$"@ by {
            if k < g.len() {
                assert(all[before.len() + k] == had[before.len() + k]);
                assert(f[k] == g[k]);
            }
        }
    }
}

} // verus!
