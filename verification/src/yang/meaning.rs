//! What modules mean: the nodes, types and identities that their statements
//! make, stated over mathematical sequences.
use vstd::prelude::*;

use crate::text::{
    find_text, index_from, local_of, number_in, quoted_text, segments, split_text, trimmed, words,
};
use crate::yang::parser::{arg_of, find_kind, is_kind, sub_of, StmtView};
use crate::yang::schema::{
    bare_type, builtin_named, is_narrow, is_wide, BitView, Builtin, EnumView, IdentityView, NodeView,
    SchemaView, TypeView,
};
use crate::yang::sid::{Namespace, SidFileView, SidItemView};

verus! {

/// What has been built so far.
#[verifier::ext_equal]
pub struct Build {
    pub nodes: Seq<NodeView>,
    pub types: Seq<TypeView>,
    pub identities: Seq<IdentityView>,
    /// The top of each module's tree.
    pub module_root: Seq<(Seq<char>, usize)>,
    /// The tops of structures that are no part of a datastore.
    pub data_roots: Seq<(Seq<char>, usize)>,
    /// The modules that were begun.
    pub begun: Seq<Seq<char>>,
}

/// Nothing built.
pub open spec fn nothing() -> Build {
    Build {
        nodes: Seq::empty(),
        types: Seq::empty(),
        identities: Seq::empty(),
        module_root: Seq::empty(),
        data_roots: Seq::empty(),
        begun: Seq::empty(),
    }
}

/// The last of the first `n` modules with a name.
pub open spec fn module_before(mods: Seq<StmtView>, name: Seq<char>, n: int) -> Option<StmtView>
    decreases n,
{
    if n <= 0 {
        None
    } else if arg_of(mods[n - 1]) == name {
        Some(mods[n - 1])
    } else {
        module_before(mods, name, n - 1)
    }
}

/// The module with a name.
pub open spec fn module_named(mods: Seq<StmtView>, name: Seq<char>) -> Option<StmtView> {
    module_before(mods, name, mods.len() as int)
}

/// The module that the last of the first `n` imports of a module gives a
/// prefix.
pub open spec fn import_before(subs: Seq<StmtView>, prefix: Seq<char>, n: int) -> Option<Seq<char>>
    decreases n,
{
    if n <= 0 {
        None
    } else {
        let s = subs[n - 1];
        if is_kind(s, "import"@) && sub_of(s, "prefix"@) is Some && arg_of(
            sub_of(s, "prefix"@)->0,
        ) == prefix {
            Some(arg_of(s))
        } else {
            import_before(subs, prefix, n - 1)
        }
    }
}

/// The module that a prefix means in a module: its own prefix goes first.
pub open spec fn prefix_in(m: StmtView, prefix: Seq<char>) -> Option<Seq<char>> {
    if sub_of(m, "prefix"@) is Some && arg_of(sub_of(m, "prefix"@)->0) == prefix {
        Some(arg_of(m))
    } else {
        import_before(m.subs, prefix, m.subs.len() as int)
    }
}

/// The last of the first `n` statements of a kind with an argument.
pub open spec fn statement_before(
    subs: Seq<StmtView>,
    kind: Seq<char>,
    name: Seq<char>,
    n: int,
) -> Option<StmtView>
    decreases n,
{
    if n <= 0 {
        None
    } else if is_kind(subs[n - 1], kind) && arg_of(subs[n - 1]) == name {
        Some(subs[n - 1])
    } else {
        statement_before(subs, kind, name, n - 1)
    }
}

/// The typedef or grouping with a name in the first `n` modules: the last one
/// in modules with the name `module`.
pub open spec fn definition_before(
    mods: Seq<StmtView>,
    kind: Seq<char>,
    module: Seq<char>,
    name: Seq<char>,
    n: int,
) -> Option<StmtView>
    decreases n,
{
    if n <= 0 {
        None
    } else {
        let m = mods[n - 1];
        let found = if arg_of(m) == module {
            statement_before(m.subs, kind, name, m.subs.len() as int)
        } else {
            None
        };
        if found is Some {
            found
        } else {
            definition_before(mods, kind, module, name, n - 1)
        }
    }
}

/// The typedef or grouping with a name in the first `n` of the statements that
/// a reference stands in, the innermost first, and the statements that it
/// stands in itself.
pub open spec fn definition_around(
    scope: Seq<StmtView>,
    kind: Seq<char>,
    name: Seq<char>,
    n: int,
) -> Option<(StmtView, Seq<StmtView>)>
    decreases n,
{
    if n <= 0 {
        None
    } else {
        let subs = scope[n - 1].subs;
        match statement_before(subs, kind, name, subs.len() as int) {
            Some(d) => Some((d, scope.subrange(0, n))),
            None => definition_around(scope, kind, name, n - 1),
        }
    }
}

/// The typedef or grouping with a name in a module, and the statements that it
/// stands in. `scope` are the statements that the reference stands in,
/// outermost first, without the module `current` itself.
///
/// A definition at the top of a module is seen from everywhere and is not
/// hidden by others. One further in is seen from the statements around it.
pub open spec fn definition(
    mods: Seq<StmtView>,
    current: Seq<char>,
    scope: Seq<StmtView>,
    kind: Seq<char>,
    module: Seq<char>,
    name: Seq<char>,
) -> Option<(StmtView, Seq<StmtView>)> {
    match definition_before(mods, kind, module, name, mods.len() as int) {
        Some(d) => Some((d, Seq::empty())),
        None => if module == current {
            definition_around(scope, kind, name, scope.len() as int)
        } else {
            None
        },
    }
}

/// How many statements of a kind stand at any depth of the first `n`
/// substatements of a statement.
pub open spec fn nested_count(s: StmtView, kind: Seq<char>, n: int) -> nat
    decreases s, n,
{
    if n <= 0 || n > s.subs.len() {
        0
    } else {
        let sub = s.subs[n - 1];
        nested_count(s, kind, n - 1) + nested_count(sub, kind, sub.subs.len() as int) + if is_kind(
            sub,
            kind,
        ) {
            1nat
        } else {
            0nat
        }
    }
}

/// A count, but no more than 64 bits hold.
pub open spec fn limited(n: nat) -> nat {
    if n > u64::MAX {
        u64::MAX as nat
    } else {
        n
    }
}

/// How many typedefs or groupings the first `n` modules have: no chain of
/// them without a repetition is longer.
pub open spec fn definitions_before(mods: Seq<StmtView>, kind: Seq<char>, n: int) -> nat
    decreases n,
{
    if n <= 0 {
        0
    } else {
        definitions_before(mods, kind, n - 1) + nested_count(
            mods[n - 1],
            kind,
            mods[n - 1].subs.len() as int,
        )
    }
}

/// How many typedefs or groupings there are.
pub open spec fn definitions(mods: Seq<StmtView>, kind: Seq<char>) -> nat {
    limited(definitions_before(mods, kind, mods.len() as int))
}

/// The message on a module that there is not.
pub open spec fn unknown_module(name: Seq<char>) -> Seq<char> {
    "unknown module "@ + quoted_text(name)
}

/// A reference `prefix:name`, or a name in the current module, as the name of
/// the module and the name in it.
pub open spec fn qualified(mods: Seq<StmtView>, current: Seq<char>, value: Seq<char>) -> Result<
    (Seq<char>, Seq<char>),
    Seq<char>,
> {
    let i = index_from(value, ':', 0);
    if i < value.len() {
        let prefix = value.subrange(0, i);
        let local = value.subrange(i + 1, value.len() as int);
        match module_named(mods, current) {
            None => Err(unknown_module(current)),
            Some(m) => match prefix_in(m, prefix) {
                None => Err(
                    "unknown prefix "@ + quoted_text(prefix) + " in module "@ + quoted_text(current),
                ),
                Some(module) => Ok((module, local)),
            },
        }
    } else {
        Ok((current, value))
    }
}

/// The place of the identity with a name in a module, from `from` on.
pub open spec fn find_identity(
    ids: Seq<IdentityView>,
    module: Seq<char>,
    name: Seq<char>,
    from: int,
) -> Option<int>
    decreases ids.len() - from,
{
    if from >= ids.len() {
        None
    } else if ids[from].module == module && ids[from].name == name {
        Some(from)
    } else {
        find_identity(ids, module, name, from + 1)
    }
}

/// The identity with a name in a module, added if there is none yet.
pub open spec fn with_identity(ids: Seq<IdentityView>, module: Seq<char>, name: Seq<char>) -> (
    Seq<IdentityView>,
    usize,
) {
    match find_identity(ids, module, name, 0) {
        Some(i) => (ids, i as usize),
        None => (
            ids.push(
                IdentityView { name, module, base: Seq::empty(), derived: Seq::empty(), sid: None },
            ),
            ids.len() as usize,
        ),
    }
}

/// The identity that a reference means.
pub open spec fn referenced_identity(
    mods: Seq<StmtView>,
    ids: Seq<IdentityView>,
    current: Seq<char>,
    value: Seq<char>,
) -> Result<(Seq<IdentityView>, usize), Seq<char>> {
    match qualified(mods, current, value) {
        Err(e) => Err(e),
        Ok((module, local)) => Ok(with_identity(ids, module, local)),
    }
}

/// The identities once one is known to be derived from another.
pub open spec fn with_derivation(ids: Seq<IdentityView>, id: usize, base: usize) -> Seq<
    IdentityView,
> {
    let one = ids.update(
        id as int,
        IdentityView { base: ids[id as int].base.push(base), ..ids[id as int] },
    );
    one.update(
        base as int,
        IdentityView { derived: one[base as int].derived.push(id), ..one[base as int] },
    )
}

/// The identities once the first `n` substatements of an identity statement
/// have been taken in.
pub open spec fn with_bases(
    mods: Seq<StmtView>,
    ids: Seq<IdentityView>,
    module: Seq<char>,
    id: usize,
    subs: Seq<StmtView>,
    n: int,
) -> Result<Seq<IdentityView>, Seq<char>>
    decreases n,
{
    if n <= 0 {
        Ok(ids)
    } else {
        match with_bases(mods, ids, module, id, subs, n - 1) {
            Err(e) => Err(e),
            Ok(before) => if is_kind(subs[n - 1], "base"@) {
                match referenced_identity(mods, before, module, arg_of(subs[n - 1])) {
                    Err(e) => Err(e),
                    Ok((after, base)) => Ok(with_derivation(after, id, base)),
                }
            } else {
                Ok(before)
            },
        }
    }
}

/// The identities once the first `n` statements of a module have been looked
/// through for identities.
pub open spec fn with_identities(
    mods: Seq<StmtView>,
    ids: Seq<IdentityView>,
    module: Seq<char>,
    subs: Seq<StmtView>,
    n: int,
) -> Result<Seq<IdentityView>, Seq<char>>
    decreases n,
{
    if n <= 0 {
        Ok(ids)
    } else {
        match with_identities(mods, ids, module, subs, n - 1) {
            Err(e) => Err(e),
            Ok(before) => {
                let s = subs[n - 1];
                if is_kind(s, "identity"@) {
                    let (after, id) = with_identity(before, module, arg_of(s));
                    with_bases(mods, after, module, id, s.subs, s.subs.len() as int)
                } else {
                    Ok(before)
                }
            },
        }
    }
}

/// The allowed values or lengths of a type without restrictions.
pub open spec fn default_ranges(b: Builtin) -> Seq<(i128, i128)> {
    match b {
        Builtin::Int8 => seq![(-0x80i128, 0x7Fi128)],
        Builtin::Int16 => seq![(-0x8000i128, 0x7FFFi128)],
        Builtin::Int32 => seq![(-0x8000_0000i128, 0x7FFF_FFFFi128)],
        Builtin::Int64 => seq![(-0x8000_0000_0000_0000i128, 0x7FFF_FFFF_FFFF_FFFFi128)],
        Builtin::Uint8 => seq![(0i128, 0xFFi128)],
        Builtin::Uint16 => seq![(0i128, 0xFFFFi128)],
        Builtin::Uint32 => seq![(0i128, 0xFFFF_FFFFi128)],
        Builtin::Uint64 => seq![(0i128, 0xFFFF_FFFF_FFFF_FFFFi128)],
        Builtin::String => seq![(0i128, 0xFFFF_FFFF_FFFF_FFFFi128)],
        Builtin::Binary => seq![(0i128, 0xFFFF_FFFF_FFFF_FFFFi128)],
        _ => Seq::empty(),
    }
}

/// A bound of a range: `min` and `max` are those of the type that is
/// restricted.
pub open spec fn bound_in(s: Seq<char>, base: Seq<(i128, i128)>) -> Option<i128> {
    if s == "min"@ {
        if base.len() > 0 {
            Some(base[0].0)
        } else {
            None
        }
    } else if s == "max"@ {
        if base.len() > 0 {
            Some(base.last().1)
        } else {
            None
        }
    } else {
        match number_in(s, i128::MIN as int, i128::MAX as int) {
            Some(v) => Some(v as i128),
            None => None,
        }
    }
}

/// The first place from `from` on where two dots stand, or the length.
pub open spec fn dots_from(s: Seq<char>, from: int) -> int
    decreases s.len() - from,
{
    if from + 1 >= s.len() {
        s.len() as int
    } else if s[from] == '.' && s[from + 1] == '.' {
        from
    } else {
        dots_from(s, from + 1)
    }
}

/// One part of a range: two bounds with two dots between them, or one value.
pub open spec fn range_part(s: Seq<char>, base: Seq<(i128, i128)>) -> Option<(i128, i128)> {
    let i = dots_from(s, 0);
    let low = if i < s.len() {
        bound_in(trimmed(s.subrange(0, i)), base)
    } else {
        bound_in(trimmed(s), base)
    };
    let high = if i < s.len() {
        bound_in(trimmed(s.subrange(i + 2, s.len() as int)), base)
    } else {
        bound_in(trimmed(s), base)
    };
    match (low, high) {
        (Some(a), Some(b)) => Some((a, b)),
        _ => None,
    }
}

/// The first `n` parts of a range.
pub open spec fn range_parts(parts: Seq<Seq<char>>, base: Seq<(i128, i128)>, n: int) -> Option<
    Seq<(i128, i128)>,
>
    decreases n,
{
    if n <= 0 {
        Some(Seq::empty())
    } else {
        match (range_parts(parts, base, n - 1), range_part(parts[n - 1], base)) {
            (Some(before), Some(p)) => Some(before.push(p)),
            _ => None,
        }
    }
}

/// The ranges that a restriction gives in place of those of its base.
pub open spec fn ranges_in(arg: Seq<char>, base: Seq<(i128, i128)>) -> Result<
    Seq<(i128, i128)>,
    Seq<char>,
> {
    let parts = split_text(arg, '|');
    match range_parts(parts, base, parts.len() as int) {
        Some(r) => Ok(r),
        None => Err("invalid range or length "@ + quoted_text(arg)),
    }
}

/// The statement that restricts the values or lengths of a type.
pub open spec fn range_keyword(b: Builtin) -> Option<Seq<char>> {
    if is_narrow(b) || is_wide(b) {
        Some("range"@)
    } else if b == Builtin::String || b == Builtin::Binary {
        Some("length"@)
    } else {
        None
    }
}

/// A pattern that covers all of a text: a pattern of YANG always does.
pub open spec fn anchored(p: Seq<char>) -> Seq<char> {
    "^(?:"@ + p + ")$"@
}

/// The patterns among the first `n` substatements, behind `before`.
pub open spec fn patterns_in(before: Seq<Seq<char>>, subs: Seq<StmtView>, n: int) -> Seq<Seq<char>>
    decreases n,
{
    if n <= 0 {
        before
    } else if is_kind(subs[n - 1], "pattern"@) {
        patterns_in(before, subs, n - 1).push(anchored(arg_of(subs[n - 1])))
    } else {
        patterns_in(before, subs, n - 1)
    }
}

/// A type with the restrictions of a type statement on top of its own.
pub open spec fn restricted(ty: TypeView, t: StmtView) -> Result<TypeView, Seq<char>> {
    let patterns = if ty.builtin == Builtin::String {
        patterns_in(ty.patterns, t.subs, t.subs.len() as int)
    } else {
        ty.patterns
    };
    match range_keyword(ty.builtin) {
        None => Ok(TypeView { patterns, ..ty }),
        Some(kw) => match sub_of(t, kw) {
            None => Ok(TypeView { patterns, ..ty }),
            Some(r) => match ranges_in(arg_of(r), ty.ranges) {
                Err(e) => Err(e),
                Ok(ranges) => Ok(TypeView { ranges, patterns, ..ty }),
            },
        },
    }
}

/// The bits among the first `n` substatements, and the position behind the
/// last. A bit without a position goes behind the one before.
pub open spec fn bits_in(subs: Seq<StmtView>, n: int) -> (Seq<BitView>, u32)
    decreases n,
{
    if n <= 0 {
        (Seq::empty(), 0)
    } else {
        let (before, next) = bits_in(subs, n - 1);
        let s = subs[n - 1];
        if is_kind(s, "bit"@) {
            let position = match sub_of(s, "position"@) {
                Some(p) => match number_in(arg_of(p), 0, u32::MAX as int) {
                    Some(v) => v as u32,
                    None => next,
                },
                None => next,
            };
            (
                before.push(BitView { name: arg_of(s), position }),
                ((position + 1) % 0x1_0000_0000) as u32,
            )
        } else {
            (before, next)
        }
    }
}

/// The value behind another: one more, the least behind the greatest.
pub open spec fn next_value(v: i64) -> i64 {
    if v == i64::MAX {
        i64::MIN
    } else {
        (v + 1) as i64
    }
}

/// The enumeration values among the first `n` substatements, and the value
/// behind the last. One without a value goes behind the one before.
pub open spec fn enums_in(subs: Seq<StmtView>, n: int) -> (Seq<EnumView>, i64)
    decreases n,
{
    if n <= 0 {
        (Seq::empty(), 0)
    } else {
        let (before, next) = enums_in(subs, n - 1);
        let s = subs[n - 1];
        if is_kind(s, "enum"@) {
            let value = match sub_of(s, "value"@) {
                Some(p) => match number_in(arg_of(p), i64::MIN as int, i64::MAX as int) {
                    Some(v) => v as i64,
                    None => next,
                },
                None => next,
            };
            (before.push(EnumView { name: arg_of(s), value }), next_value(value))
        } else {
            (before, next)
        }
    }
}

/// The identities that the bases among the first `n` substatements mean.
pub open spec fn bases_in(
    mods: Seq<StmtView>,
    ids: Seq<IdentityView>,
    module: Seq<char>,
    subs: Seq<StmtView>,
    n: int,
) -> Result<(Seq<IdentityView>, Seq<usize>), Seq<char>>
    decreases n,
{
    if n <= 0 {
        Ok((ids, Seq::empty()))
    } else {
        match bases_in(mods, ids, module, subs, n - 1) {
            Err(e) => Err(e),
            Ok((before, bases)) => if is_kind(subs[n - 1], "base"@) {
                match referenced_identity(mods, before, module, arg_of(subs[n - 1])) {
                    Err(e) => Err(e),
                    Ok((after, id)) => Ok((after, bases.push(id))),
                }
            } else {
                Ok((before, bases))
            },
        }
    }
}

/// The build with one more type.
pub open spec fn with_type(b: Build, ty: TypeView) -> Build {
    Build { types: b.types.push(ty), ..b }
}

/// The type that a type statement makes that stands in the statements `scope`.
/// A chain of at most `fuel` typedefs is followed: a longer one repeats itself.
pub open spec fn type_made(
    mods: Seq<StmtView>,
    b: Build,
    module: Seq<char>,
    scope: Seq<StmtView>,
    t: StmtView,
    fuel: nat,
) -> Result<(Build, usize), Seq<char>>
    decreases fuel, t, 2int, 0int,
{
    let name = arg_of(t);
    match builtin_named(name) {
        Some(builtin) => builtin_made(mods, b, module, scope, builtin, t, fuel),
        None => match qualified(mods, module, name) {
            Err(e) => Err(e),
            Ok((def_module, local)) => match definition(
                mods,
                module,
                scope,
                "typedef"@,
                def_module,
                local,
            ) {
                None => Err(
                    "typedef "@ + quoted_text(name) + " not found (used from "@ + module + ")"@,
                ),
                Some((raw, around)) => match sub_of(raw, "type"@) {
                    None => Err("typedef "@ + quoted_text(name) + " has no type"@),
                    Some(base) => if fuel == 0 {
                        Err("typedef "@ + quoted_text(name) + " is defined by itself"@)
                    } else {
                        match type_made(mods, b, def_module, around, base, (fuel - 1) as nat) {
                            Err(e) => Err(e),
                            Ok((c, id)) => match restricted(c.types[id as int], t) {
                                Err(e) => Err(e),
                                Ok(ty) => Ok(
                                    (Build { types: c.types.update(id as int, ty), ..c }, id),
                                ),
                            },
                        }
                    },
                },
            },
        },
    }
}

/// The type that a type statement makes of a built-in type.
pub open spec fn builtin_made(
    mods: Seq<StmtView>,
    b: Build,
    module: Seq<char>,
    scope: Seq<StmtView>,
    builtin: Builtin,
    t: StmtView,
    fuel: nat,
) -> Result<(Build, usize), Seq<char>>
    decreases fuel, t, 1int, 0int,
{
    let plain = TypeView { ranges: default_ranges(builtin), ..bare_type(builtin) };
    let n = t.subs.len() as int;
    if builtin == Builtin::Decimal64 {
        let ty = TypeView { fraction_digits: fraction_digits_in(t), ..plain };
        Ok((with_type(b, ty), b.types.len() as usize))
    } else if builtin == Builtin::Bits {
        let ty = TypeView { bits: bits_in(t.subs, n).0, ..plain };
        Ok((with_type(b, ty), b.types.len() as usize))
    } else if builtin == Builtin::Enumeration {
        let ty = TypeView { enums: enums_in(t.subs, n).0, ..plain };
        Ok((with_type(b, ty), b.types.len() as usize))
    } else if builtin == Builtin::Identityref {
        match bases_in(mods, b.identities, module, t.subs, n) {
            Err(e) => Err(e),
            Ok((identities, identity_bases)) => {
                let ty = TypeView { source_module: Some(module), identity_bases, ..plain };
                Ok((with_type(Build { identities, ..b }, ty), b.types.len() as usize))
            },
        }
    } else if builtin == Builtin::Leafref {
        let ty = match sub_of(t, "path"@) {
            Some(p) => TypeView {
                leafref_path: Some(arg_of(p)),
                source_module: Some(module),
                ..plain
            },
            None => plain,
        };
        Ok((with_type(b, ty), b.types.len() as usize))
    } else if builtin == Builtin::Union {
        match members_made(mods, b, module, scope, t, 0, fuel, Seq::empty()) {
            Err(e) => Err(e),
            Ok((c, union_members)) => Ok(
                (with_type(c, TypeView { union_members, ..plain }), c.types.len() as usize),
            ),
        }
    } else {
        match restricted(plain, t) {
            Err(e) => Err(e),
            Ok(ty) => Ok((with_type(b, ty), b.types.len() as usize)),
        }
    }
}

/// The number of fraction digits that a type statement gives.
pub open spec fn fraction_digits_in(t: StmtView) -> Option<u8> {
    match sub_of(t, "fraction-digits"@) {
        Some(f) => match number_in(arg_of(f), 0, 255) {
            Some(v) => Some(v as u8),
            None => None,
        },
        None => None,
    }
}

/// The members of a union from its `i`-th substatement on, behind `seen`.
pub open spec fn members_made(
    mods: Seq<StmtView>,
    b: Build,
    module: Seq<char>,
    scope: Seq<StmtView>,
    t: StmtView,
    i: int,
    fuel: nat,
    seen: Seq<usize>,
) -> Result<(Build, Seq<usize>), Seq<char>>
    decreases fuel, t, 0int, t.subs.len() - i,
{
    if i < 0 || i >= t.subs.len() {
        Ok((b, seen))
    } else if is_kind(t.subs[i], "type"@) {
        match type_made(mods, b, module, scope, t.subs[i], fuel) {
            Err(e) => Err(e),
            Ok((c, id)) => members_made(mods, c, module, scope, t, i + 1, fuel, seen.push(id)),
        }
    } else {
        members_made(mods, b, module, scope, t, i + 1, fuel, seen)
    }
}

/// The first of some children, from `from` on, with a local name.
pub open spec fn local_child(
    nodes: Seq<NodeView>,
    children: Seq<usize>,
    local: Seq<char>,
    from: int,
) -> Option<usize>
    decreases children.len() - from,
{
    if from >= children.len() {
        None
    } else if local_of(nodes[children[from] as int].name) == local {
        Some(children[from])
    } else {
        local_child(nodes, children, local, from + 1)
    }
}

/// The child of a node with a local name.
pub open spec fn by_local(nodes: Seq<NodeView>, parent: usize, local: Seq<char>) -> Option<usize> {
    local_child(nodes, nodes[parent as int].children, local, 0)
}

/// The node that the segments from the `i`-th on lead to from `cur`, or the
/// place of the segment that leads nowhere. Prefixes do not count.
pub open spec fn descended(nodes: Seq<NodeView>, cur: usize, segs: Seq<Seq<char>>, i: int) -> Result<
    usize,
    int,
>
    decreases segs.len() - i,
{
    if i >= segs.len() {
        Ok(cur)
    } else {
        match by_local(nodes, cur, local_of(segs[i])) {
            None => Err(i),
            Some(c) => descended(nodes, c, segs, i + 1),
        }
    }
}

/// The node with a name among some tops.
pub open spec fn root_from(roots: Seq<(Seq<char>, usize)>, name: Seq<char>, from: int) -> Option<
    int,
>
    decreases roots.len() - from,
{
    if from >= roots.len() {
        None
    } else if roots[from].0 == name {
        Some(from)
    } else {
        root_from(roots, name, from + 1)
    }
}

/// The top with a name.
pub open spec fn root_named(roots: Seq<(Seq<char>, usize)>, name: Seq<char>) -> Option<usize> {
    match root_from(roots, name, 0) {
        Some(i) => Some(roots[i].1),
        None => None,
    }
}

/// The tops with one more, which takes the place of one with its name.
pub open spec fn with_root(roots: Seq<(Seq<char>, usize)>, name: Seq<char>, id: usize) -> Seq<
    (Seq<char>, usize),
> {
    match root_from(roots, name, 0) {
        Some(i) => roots.update(i, (name, id)),
        None => roots.push((name, id)),
    }
}

/// The node that a path leads to from a node.
pub open spec fn relative_target(nodes: Seq<NodeView>, root: usize, path: Seq<char>) -> Result<
    usize,
    Seq<char>,
> {
    let segs = segments(path, '/');
    match descended(nodes, root, segs, 0) {
        Ok(n) => Ok(n),
        Err(i) => Err(
            "augment target segment "@ + quoted_text(segs[i]) + " not found (relative path "@
                + quoted_text(path) + ")"@,
        ),
    }
}

/// The message on a segment of a path that leads nowhere.
pub open spec fn segment_message(seg: Seq<char>, path: Seq<char>) -> Seq<char> {
    "target segment "@ + quoted_text(seg) + " not found ("@ + quoted_text(path) + ")"@
}

/// The message on a first segment that leads nowhere.
pub open spec fn first_segment_message(local: Seq<char>, module: Seq<char>, path: Seq<char>) -> Seq<
    char,
> {
    "target segment "@ + quoted_text(local) + " not found in module "@ + quoted_text(module)
        + " ("@ + quoted_text(path) + ")"@
}

/// The node that an absolute path leads to. The first segment names the
/// module by a prefix of the current module.
pub open spec fn absolute_target(
    mods: Seq<StmtView>,
    b: Build,
    current: Seq<char>,
    path: Seq<char>,
) -> Result<usize, Seq<char>> {
    let segs = segments(path, '/');
    if segs.len() == 0 {
        Err("empty schema-node-id "@ + quoted_text(path))
    } else {
        match qualified(mods, current, segs[0]) {
            Err(e) => Err(e),
            Ok((module, local)) => match root_named(b.module_root, module) {
                None => Err(
                    "unknown target module "@ + quoted_text(module) + " in "@ + quoted_text(path),
                ),
                Some(root) => match by_local(b.nodes, root, local) {
                    None => Err(first_segment_message(local, module, path)),
                    Some(first) => match descended(b.nodes, first, segs, 1) {
                        Ok(n) => Ok(n),
                        Err(i) => Err(segment_message(segs[i], path)),
                    },
                },
            },
        }
    }
}

/// The build with one more node, without anything but its name and place.
pub open spec fn with_node(
    b: Build,
    kw: Seq<char>,
    name: Seq<char>,
    owner: Seq<char>,
    parent: Option<usize>,
) -> Build {
    let id = b.nodes.len() as usize;
    let more = b.nodes.push(
        NodeView {
            kw,
            name,
            parent,
            children: Seq::empty(),
            config: true,
            mandatory: false,
            type_id: None,
            keys: Seq::empty(),
            sid: None,
            owner_module: owner,
            description: None,
        },
    );
    Build {
        nodes: match parent {
            Some(p) => more.update(
                p as int,
                NodeView { children: more[p as int].children.push(id), ..more[p as int] },
            ),
            None => more,
        },
        ..b
    }
}

/// Whether a keyword makes a node.
pub open spec fn makes_node(kw: Seq<char>) -> bool {
    kw == "container"@ || kw == "leaf"@ || kw == "leaf-list"@ || kw == "list"@ || kw == "choice"@
        || kw == "case"@ || kw == "rpc"@ || kw == "action"@ || kw == "input"@ || kw == "output"@ || kw
        == "notification"@ || kw == "anydata"@ || kw == "anyxml"@
}

/// Whether a keyword directly in a choice stands for a case of its own.
pub open spec fn is_short_case(kw: Seq<char>) -> bool {
    kw == "container"@ || kw == "leaf"@ || kw == "leaf-list"@ || kw == "list"@ || kw == "choice"@
        || kw == "anydata"@ || kw == "anyxml"@
}

/// A name qualified by a module.
pub open spec fn in_module(module: Seq<char>, local: Seq<char>) -> Seq<char> {
    module + ":"@ + local
}

/// The node at the top of `b.nodes`, with what its statement says of itself.
pub open spec fn described(b: Build, s: StmtView, parent: usize) -> Build {
    let id = b.nodes.len() - 1;
    let n = b.nodes[id];
    Build {
        nodes: b.nodes.update(
            id,
            NodeView {
                config: match sub_of(s, "config"@) {
                    Some(c) => arg_of(c) == "true"@,
                    None => b.nodes[parent as int].config,
                },
                mandatory: match sub_of(s, "mandatory"@) {
                    Some(m) => arg_of(m) == "true"@,
                    None => false,
                },
                description: match sub_of(s, "description"@) {
                    Some(d) => Some(arg_of(d)),
                    None => None,
                },
                keys: if s.keyword == "list"@ && sub_of(s, "key"@) is Some {
                    words(arg_of(sub_of(s, "key"@)->0))
                } else {
                    Seq::empty()
                },
                ..n
            },
        ),
        ..b
    }
}

/// The build with the type that a leaf's statement gives, if it gives one.
pub open spec fn typed(
    mods: Seq<StmtView>,
    b: Build,
    resolve: Seq<char>,
    scope: Seq<StmtView>,
    s: StmtView,
    node: usize,
) -> Result<Build, Seq<char>> {
    if (s.keyword == "leaf"@ || s.keyword == "leaf-list"@) && sub_of(s, "type"@) is Some {
        match type_made(
            mods,
            b,
            resolve,
            scope,
            sub_of(s, "type"@)->0,
            definitions(mods, "typedef"@),
        ) {
            Err(e) => Err(e),
            Ok((c, id)) => Ok(with_node_type(c, node, id)),
        }
    } else {
        Ok(b)
    }
}

/// The build with another type for a node.
pub open spec fn with_node_type(b: Build, node: usize, id: usize) -> Build {
    Build {
        nodes: b.nodes.update(
            node as int,
            NodeView { type_id: Some(id), ..b.nodes[node as int] },
        ),
        ..b
    }
}

/// The build with the input and output that an operation has without saying
/// so.
pub open spec fn with_sides(b: Build, naming: Seq<char>, s: StmtView, node: usize) -> Build {
    if s.keyword == "rpc"@ || s.keyword == "action"@ {
        let c = if sub_of(s, "input"@) is None {
            with_node(b, "input"@, "input"@, naming, Some(node))
        } else {
            b
        };
        if sub_of(s, "output"@) is None {
            with_node(c, "output"@, "output"@, naming, Some(node))
        } else {
            c
        }
    } else {
        b
    }
}

/// The name that the node of a statement gets below `parent`.
pub open spec fn node_name(b: Build, naming: Seq<char>, s: StmtView, parent: usize) -> Seq<char> {
    let local = if s.keyword == "input"@ || s.keyword == "output"@ {
        s.keyword
    } else {
        arg_of(s)
    };
    if b.nodes[parent as int].kw == "module"@ {
        in_module(naming, local)
    } else {
        local
    }
}

/// The build once the substatements of `s` from the `i`-th on have been taken
/// in below `parent`.
///
/// Two modules go along. `resolve` is the one whose text is being read: its
/// prefixes apply, and it changes with the text of a grouping. `naming` is
/// the one that new nodes belong to: a grouping's nodes belong to the module
/// that uses it. `scope` are the statements that the substatements stand in,
/// outermost first. At most `fuel` groupings are nested: more repeat
/// themselves.
pub open spec fn children_made(
    mods: Seq<StmtView>,
    b: Build,
    resolve: Seq<char>,
    naming: Seq<char>,
    scope: Seq<StmtView>,
    s: StmtView,
    i: int,
    parent: usize,
    fuel: nat,
) -> Result<Build, Seq<char>>
    decreases fuel, s, 0int, s.subs.len() - i,
{
    if i < 0 || i >= s.subs.len() {
        Ok(b)
    } else {
        match made(mods, b, resolve, naming, scope, s.subs[i], parent, fuel) {
            Err(e) => Err(e),
            Ok(c) => children_made(mods, c, resolve, naming, scope, s, i + 1, parent, fuel),
        }
    }
}

/// The build once a statement has been taken in below `parent`. Statements
/// that make no node of their own are passed over.
pub open spec fn made(
    mods: Seq<StmtView>,
    b: Build,
    resolve: Seq<char>,
    naming: Seq<char>,
    scope: Seq<StmtView>,
    s: StmtView,
    parent: usize,
    fuel: nat,
) -> Result<Build, Seq<char>>
    decreases fuel, s, 3int, 0int,
{
    if s.prefix is Some {
        extension_made(mods, b, naming, s, fuel)
    } else if makes_node(s.keyword) {
        node_made(mods, b, resolve, naming, scope, s, parent, fuel)
    } else if s.keyword == "uses"@ {
        uses_made(mods, b, resolve, naming, scope, s, parent, fuel)
    } else if s.keyword == "augment"@ {
        match absolute_target(mods, b, resolve, arg_of(s)) {
            Err(e) => Err(e),
            Ok(target) => augment_made(
                mods,
                b,
                resolve,
                naming,
                scope.push(s),
                s,
                0,
                target,
                b.nodes[target as int].owner_module,
                fuel,
            ),
        }
    } else {
        Ok(b)
    }
}

/// The build once an extension statement has been taken in: only `yang-data`
/// means something. Its container becomes a top of its own, named by the
/// module and the container; it is read as at the top of the module.
pub open spec fn extension_made(
    mods: Seq<StmtView>,
    b: Build,
    naming: Seq<char>,
    s: StmtView,
    fuel: nat,
) -> Result<Build, Seq<char>>
    decreases fuel, s, 2int, 0int,
{
    match find_kind(s.subs, "container"@, 0) {
        Some(i) => if s.keyword == "yang-data"@ && 0 <= i < s.subs.len() {
            let container = s.subs[i];
            let name = in_module(naming, arg_of(container));
            let root = b.nodes.len() as usize;
            let c = with_node(b, "container"@, name, naming, None);
            match children_made(
                mods,
                c,
                naming,
                naming,
                seq![s, container],
                container,
                0,
                root,
                fuel,
            ) {
                Err(e) => Err(e),
                Ok(d) => Ok(Build { data_roots: with_root(d.data_roots, name, root), ..d }),
            }
        } else {
            Ok(b)
        },
        None => Ok(b),
    }
}

/// The build once a statement that makes a node has been taken in.
pub open spec fn node_made(
    mods: Seq<StmtView>,
    b: Build,
    resolve: Seq<char>,
    naming: Seq<char>,
    scope: Seq<StmtView>,
    s: StmtView,
    parent: usize,
    fuel: nat,
) -> Result<Build, Seq<char>>
    decreases fuel, s, 2int, 0int,
{
    let node = b.nodes.len() as usize;
    let c = with_node(b, s.keyword, node_name(b, naming, s, parent), naming, Some(parent));
    match typed(mods, described(c, s, parent), resolve, scope, s, node) {
        Err(e) => Err(e),
        Ok(d) => {
            let e = with_sides(d, naming, s, node);
            if s.keyword == "choice"@ {
                cases_made(mods, e, resolve, naming, scope.push(s), s, 0, node, fuel)
            } else {
                children_made(mods, e, resolve, naming, scope.push(s), s, 0, node, fuel)
            }
        },
    }
}

/// The build once the substatements of a choice from the `i`-th on have been
/// taken in. A node directly in a choice gets a case of its own name.
pub open spec fn cases_made(
    mods: Seq<StmtView>,
    b: Build,
    resolve: Seq<char>,
    naming: Seq<char>,
    scope: Seq<StmtView>,
    s: StmtView,
    i: int,
    choice: usize,
    fuel: nat,
) -> Result<Build, Seq<char>>
    decreases fuel, s, 0int, s.subs.len() - i,
{
    if i < 0 || i >= s.subs.len() {
        Ok(b)
    } else {
        let sub = s.subs[i];
        let short = sub.prefix is None && is_short_case(sub.keyword);
        let c = if short {
            with_node(b, "case"@, arg_of(sub), naming, Some(choice))
        } else {
            b
        };
        let parent = if short {
            b.nodes.len() as usize
        } else {
            choice
        };
        match made(mods, c, resolve, naming, scope, sub, parent, fuel) {
            Err(e) => Err(e),
            Ok(d) => cases_made(mods, d, resolve, naming, scope, s, i + 1, choice, fuel),
        }
    }
}

/// The message on a grouping that is not there.
pub open spec fn grouping_message(name: Seq<char>, resolve: Seq<char>) -> Seq<char> {
    "grouping "@ + quoted_text(name) + " not found (used from "@ + resolve + ")"@
}

/// The build once the use of a grouping has been taken in: the grouping's
/// statements, read in the grouping's module, and then what augments them.
pub open spec fn uses_made(
    mods: Seq<StmtView>,
    b: Build,
    resolve: Seq<char>,
    naming: Seq<char>,
    scope: Seq<StmtView>,
    s: StmtView,
    parent: usize,
    fuel: nat,
) -> Result<Build, Seq<char>>
    decreases fuel, s, 2int, 0int,
{
    match qualified(mods, resolve, arg_of(s)) {
        Err(e) => Err(e),
        Ok((def_module, local)) => match definition(
            mods,
            resolve,
            scope,
            "grouping"@,
            def_module,
            local,
        ) {
            None => Err(grouping_message(arg_of(s), resolve)),
            Some((raw, around)) => if fuel == 0 {
                Err("grouping "@ + quoted_text(arg_of(s)) + " is used by itself"@)
            } else {
                match children_made(
                    mods,
                    b,
                    def_module,
                    naming,
                    around.push(raw),
                    raw,
                    0,
                    parent,
                    (fuel - 1) as nat,
                ) {
                    Err(e) => Err(e),
                    Ok(c) => uses_augmented(mods, c, resolve, naming, scope, s, 0, parent, fuel),
                }
            },
        },
    }
}

/// The build once the augments in a use of a grouping, from the `i`-th
/// substatement on, have been taken in.
pub open spec fn uses_augmented(
    mods: Seq<StmtView>,
    b: Build,
    resolve: Seq<char>,
    naming: Seq<char>,
    scope: Seq<StmtView>,
    s: StmtView,
    i: int,
    parent: usize,
    fuel: nat,
) -> Result<Build, Seq<char>>
    decreases fuel, s, 1int, s.subs.len() - i,
{
    if i < 0 || i >= s.subs.len() {
        Ok(b)
    } else if is_kind(s.subs[i], "augment"@) {
        match relative_target(b.nodes, parent, arg_of(s.subs[i])) {
            Err(e) => Err(e),
            Ok(target) => match augment_made(
                mods,
                b,
                resolve,
                naming,
                scope.push(s).push(s.subs[i]),
                s.subs[i],
                0,
                target,
                b.nodes[target as int].owner_module,
                fuel,
            ) {
                Err(e) => Err(e),
                Ok(c) => uses_augmented(mods, c, resolve, naming, scope, s, i + 1, parent, fuel),
            },
        }
    } else {
        uses_augmented(mods, b, resolve, naming, scope, s, i + 1, parent, fuel)
    }
}

/// The nodes with the children from the `from`-th on renamed into a module.
pub open spec fn renamed(
    nodes: Seq<NodeView>,
    children: Seq<usize>,
    from: int,
    naming: Seq<char>,
) -> Seq<NodeView>
    decreases children.len() - from,
{
    if from < 0 || from >= children.len() {
        nodes
    } else {
        let c = children[from] as int;
        renamed(
            nodes.update(
                c,
                NodeView { name: in_module(naming, local_of(nodes[c].name)), ..nodes[c] },
            ),
            children,
            from + 1,
            naming,
        )
    }
}

/// Whether a statement in an augment is taken in.
pub open spec fn augments(s: StmtView) -> bool {
    s.prefix is Some || makes_node(s.keyword) || s.keyword == "uses"@
}

/// The build once the substatements of an augment from the `i`-th on have
/// been taken in below its target. What another module puts there is named in
/// that module.
pub open spec fn augment_made(
    mods: Seq<StmtView>,
    b: Build,
    resolve: Seq<char>,
    naming: Seq<char>,
    scope: Seq<StmtView>,
    s: StmtView,
    i: int,
    target: usize,
    owner: Seq<char>,
    fuel: nat,
) -> Result<Build, Seq<char>>
    decreases fuel, s, 0int, s.subs.len() - i,
{
    if i < 0 || i >= s.subs.len() {
        Ok(b)
    } else if augments(s.subs[i]) {
        let before = b.nodes[target as int].children.len();
        match made(mods, b, resolve, naming, scope, s.subs[i], target, fuel) {
            Err(e) => Err(e),
            Ok(c) => {
                let d = if naming != owner {
                    Build {
                        nodes: renamed(
                            c.nodes,
                            c.nodes[target as int].children,
                            before as int,
                            naming,
                        ),
                        ..c
                    }
                } else {
                    c
                };
                augment_made(mods, d, resolve, naming, scope, s, i + 1, target, owner, fuel)
            },
        }
    } else {
        augment_made(mods, b, resolve, naming, scope, s, i + 1, target, owner, fuel)
    }
}

/// The build once a module has been taken in, the ones that it imports before
/// it. A module that was begun is not begun again. No more modules than there
/// are can be nested: that is what `fuel` allows.
pub open spec fn module_made(mods: Seq<StmtView>, b: Build, name: Seq<char>, fuel: nat) -> Result<
    Build,
    Seq<char>,
>
    decreases fuel, 1int, 0int,
{
    if find_text(b.begun, name, 0) is Some {
        Ok(b)
    } else {
        match module_named(mods, name) {
            None => Err(unknown_module(name)),
            Some(raw) => if fuel == 0 {
                Err(unknown_module(name))
            } else {
                let c = Build { begun: b.begun.push(name), ..b };
                match imports_made(mods, c, raw, 0, (fuel - 1) as nat) {
                    Err(e) => Err(e),
                    Ok(d) => match with_identities(
                        mods,
                        d.identities,
                        name,
                        raw.subs,
                        raw.subs.len() as int,
                    ) {
                        Err(e) => Err(e),
                        Ok(identities) => {
                            let root = d.nodes.len() as usize;
                            let e = with_node(
                                Build { identities, ..d },
                                "module"@,
                                name,
                                name,
                                None,
                            );
                            children_made(
                                mods,
                                Build { module_root: with_root(e.module_root, name, root), ..e },
                                name,
                                name,
                                Seq::empty(),
                                raw,
                                0,
                                root,
                                definitions(mods, "grouping"@),
                            )
                        },
                    },
                }
            },
        }
    }
}

/// The build once the modules that a module imports, from its `i`-th
/// statement on, have been taken in.
pub open spec fn imports_made(mods: Seq<StmtView>, b: Build, m: StmtView, i: int, fuel: nat) -> Result<
    Build,
    Seq<char>,
>
    decreases fuel, 2int, m.subs.len() - i,
{
    if i < 0 || i >= m.subs.len() {
        Ok(b)
    } else if is_kind(m.subs[i], "import"@) {
        match module_made(mods, b, arg_of(m.subs[i]), fuel) {
            Err(e) => Err(e),
            Ok(c) => imports_made(mods, c, m, i + 1, fuel),
        }
    } else {
        imports_made(mods, b, m, i + 1, fuel)
    }
}

/// The build once the first `n` modules have been taken in.
pub open spec fn modules_made(mods: Seq<StmtView>, n: int) -> Result<Build, Seq<char>>
    decreases n,
{
    if n <= 0 {
        Ok(nothing())
    } else {
        match modules_made(mods, n - 1) {
            Err(e) => Err(e),
            Ok(b) => module_made(mods, b, arg_of(mods[n - 1]), mods.len()),
        }
    }
}

/// The nodes once everything below a node is no configuration, through its
/// children from the `i`-th on. Children stand behind their parents.
pub open spec fn config_off(nodes: Seq<NodeView>, node: usize, i: int) -> Seq<NodeView>
    decreases nodes.len() - node, nodes[node as int].children.len() - i,
{
    if i < 0 || node >= nodes.len() || i >= nodes[node as int].children.len() {
        nodes
    } else {
        let c = nodes[node as int].children[i];
        if node < c < nodes.len() {
            let off = nodes.update(c as int, NodeView { config: false, ..nodes[c as int] });
            let below = config_off(off, c, 0);
            if below.len() == nodes.len() && below[node as int].children
                == nodes[node as int].children {
                config_off(below, node, i + 1)
            } else {
                arbitrary()
            }
        } else {
            arbitrary()
        }
    }
}

/// The build without a node among the children of its parent.
pub open spec fn without_node(b: Build, target: usize) -> Build {
    match b.nodes[target as int].parent {
        None => b,
        Some(p) => Build {
            nodes: b.nodes.update(
                p as int,
                NodeView {
                    children: without(b.nodes[p as int].children, target, b.nodes[p as int].children.len() as int),
                    ..b.nodes[p as int]
                },
            ),
            ..b
        },
    }
}

/// The first `n` of some numbers without all that are `x`.
pub open spec fn without(s: Seq<usize>, x: usize, n: int) -> Seq<usize>
    decreases n,
{
    if n <= 0 {
        Seq::empty()
    } else if s[n - 1] == x {
        without(s, x, n - 1)
    } else {
        without(s, x, n - 1).push(s[n - 1])
    }
}

/// The build once a deviation of a node has been taken in: it can take the
/// node away, or replace its configuration or its type, which is read as at
/// the top of the module.
pub open spec fn deviated(
    mods: Seq<StmtView>,
    b: Build,
    module: Seq<char>,
    target: usize,
    d: StmtView,
) -> Result<Build, Seq<char>> {
    if arg_of(d) == "not-supported"@ {
        Ok(without_node(b, target))
    } else if arg_of(d) == "replace"@ {
        let c = match sub_of(d, "config"@) {
            Some(cfg) => {
                let on = arg_of(cfg) == "true"@;
                let nodes = b.nodes.update(
                    target as int,
                    NodeView { config: on, ..b.nodes[target as int] },
                );
                Build {
                    nodes: if on {
                        nodes
                    } else {
                        config_off(nodes, target, 0)
                    },
                    ..b
                }
            },
            None => b,
        };
        match sub_of(d, "type"@) {
            Some(t) => match type_made(
                mods,
                c,
                module,
                Seq::empty(),
                t,
                definitions(mods, "typedef"@),
            ) {
                Err(e) => Err(e),
                Ok((e, id)) => Ok(with_node_type(e, target, id)),
            },
            None => Ok(c),
        }
    } else {
        Ok(b)
    }
}

/// The build once the first `n` substatements of a deviation have been taken
/// in.
pub open spec fn deviates_made(
    mods: Seq<StmtView>,
    b: Build,
    module: Seq<char>,
    target: usize,
    subs: Seq<StmtView>,
    n: int,
) -> Result<Build, Seq<char>>
    decreases n,
{
    if n <= 0 {
        Ok(b)
    } else {
        match deviates_made(mods, b, module, target, subs, n - 1) {
            Err(e) => Err(e),
            Ok(c) => if is_kind(subs[n - 1], "deviate"@) {
                deviated(mods, c, module, target, subs[n - 1])
            } else {
                Ok(c)
            },
        }
    }
}

/// The build once the first `n` statements of a module have been looked
/// through for deviations.
pub open spec fn deviations_made(
    mods: Seq<StmtView>,
    b: Build,
    module: Seq<char>,
    subs: Seq<StmtView>,
    n: int,
) -> Result<Build, Seq<char>>
    decreases n,
{
    if n <= 0 {
        Ok(b)
    } else {
        match deviations_made(mods, b, module, subs, n - 1) {
            Err(e) => Err(e),
            Ok(c) => {
                let s = subs[n - 1];
                if is_kind(s, "deviation"@) {
                    match absolute_target(mods, c, module, arg_of(s)) {
                        Err(e) => Err(e),
                        Ok(target) => deviates_made(
                            mods,
                            c,
                            module,
                            target,
                            s.subs,
                            s.subs.len() as int,
                        ),
                    }
                } else {
                    Ok(c)
                }
            },
        }
    }
}

/// The build once the deviations of the first `n` modules have been taken in.
pub open spec fn all_deviations_made(mods: Seq<StmtView>, b: Build, n: int) -> Result<
    Build,
    Seq<char>,
>
    decreases n,
{
    if n <= 0 {
        Ok(b)
    } else {
        match all_deviations_made(mods, b, n - 1) {
            Err(e) => Err(e),
            Ok(c) => deviations_made(
                mods,
                c,
                arg_of(mods[n - 1]),
                mods[n - 1].subs,
                mods[n - 1].subs.len() as int,
            ),
        }
    }
}

/// The last of the first `n` nodes with a type.
pub open spec fn owner_before(nodes: Seq<NodeView>, ty: usize, n: int) -> Option<usize>
    decreases n,
{
    if n <= 0 {
        None
    } else if nodes[n - 1].type_id == Some(ty) {
        Some((n - 1) as usize)
    } else {
        owner_before(nodes, ty, n - 1)
    }
}

/// The node that the segments of a relative leafref path, from the `i`-th on,
/// lead to: two dots lead to the parent, a name to the child.
pub open spec fn leafref_steps(nodes: Seq<NodeView>, cur: usize, segs: Seq<Seq<char>>, i: int) -> Option<
    usize,
>
    decreases segs.len() - i,
{
    if i >= segs.len() {
        Some(cur)
    } else if segs[i] == ".."@ {
        match nodes[cur as int].parent {
            Some(p) => leafref_steps(nodes, p, segs, i + 1),
            None => None,
        }
    } else {
        match by_local(nodes, cur, local_of(segs[i])) {
            Some(c) => leafref_steps(nodes, c, segs, i + 1),
            None => None,
        }
    }
}

/// The node that a leafref type refers to.
pub open spec fn leafref_found(mods: Seq<StmtView>, b: Build, ty: usize) -> Option<usize> {
    let t = b.types[ty as int];
    match (t.leafref_path, t.source_module) {
        (Some(path), Some(module)) => {
            let clean = trimmed(path);
            if clean.len() > 0 && clean[0] == '/' {
                match absolute_target(mods, b, module, clean) {
                    Ok(n) => Some(n),
                    Err(_) => None,
                }
            } else {
                match owner_before(b.nodes, ty, b.nodes.len() as int) {
                    Some(node) => leafref_steps(b.nodes, node, segments(clean, '/'), 0),
                    None => None,
                }
            }
        },
        _ => None,
    }
}

/// A type with the node that it refers to, if it is a leafref and there is
/// one.
pub open spec fn with_target(mods: Seq<StmtView>, b: Build, ty: usize) -> TypeView {
    let t = b.types[ty as int];
    if t.builtin == Builtin::Leafref && leafref_found(mods, b, ty) is Some {
        TypeView { leafref_target: leafref_found(mods, b, ty), ..t }
    } else {
        t
    }
}

/// The build with the nodes that leafrefs refer to.
pub open spec fn leafrefs_found(mods: Seq<StmtView>, b: Build) -> Build {
    Build {
        types: Seq::new(b.types.len(), |i: int| with_target(mods, b, i as usize)),
        ..b
    }
}

/// The node that the identifier of a SID means. Its first segment is the name
/// of a top that is no part of a datastore, or names a module.
pub open spec fn sid_target(b: Build, path: Seq<char>) -> Option<usize> {
    let segs = segments(path, '/');
    if segs.len() == 0 {
        None
    } else {
        let i = index_from(segs[0], ':', 0);
        let first = match root_named(b.data_roots, segs[0]) {
            Some(root) => Some(root),
            None => if i < segs[0].len() {
                match root_named(b.module_root, segs[0].subrange(0, i)) {
                    Some(root) => by_local(
                        b.nodes,
                        root,
                        segs[0].subrange(i + 1, segs[0].len() as int),
                    ),
                    None => None,
                }
            } else {
                None
            },
        };
        match first {
            None => None,
            Some(f) => match descended(b.nodes, f, segs, 1) {
                Ok(n) => Some(n),
                Err(_) => None,
            },
        }
    }
}

/// The build with the SID of a node.
pub open spec fn with_node_sid(b: Build, node: usize, sid: i64) -> Build {
    Build {
        nodes: b.nodes.update(node as int, NodeView { sid: Some(sid), ..b.nodes[node as int] }),
        ..b
    }
}

/// The build once one SID has been attached. One that means nothing here is
/// passed over: a device may not support what its modules define.
pub open spec fn with_sid(b: Build, module: Seq<char>, item: SidItemView) -> Build {
    match item.namespace {
        Namespace::Module => match root_named(b.module_root, item.identifier) {
            Some(root) => with_node_sid(b, root, item.sid),
            None => b,
        },
        Namespace::Identity => match find_identity(b.identities, module, item.identifier, 0) {
            Some(i) => Build {
                identities: b.identities.update(
                    i,
                    IdentityView { sid: Some(item.sid), ..b.identities[i] },
                ),
                ..b
            },
            None => b,
        },
        Namespace::Data => match sid_target(b, item.identifier) {
            Some(n) => with_node_sid(b, n, item.sid),
            None => b,
        },
        Namespace::Feature => b,
    }
}

/// The build once the first `n` SIDs of a file have been attached.
pub open spec fn with_sids(b: Build, f: SidFileView, n: int) -> Build
    decreases n,
{
    if n <= 0 {
        b
    } else {
        with_sid(with_sids(b, f, n - 1), f.module_name, f.items[n - 1])
    }
}

/// Whether a node is left out of the tree of data.
pub open spec fn is_spliced(kw: Seq<char>) -> bool {
    kw == "choice"@ || kw == "case"@
}

/// Whether the nodes from `root` on are one tree below it, in which no choice,
/// no case and no module stands: each node but the top is among the children of its
/// parent, and each child has its parent. The SID of the top is nought.
pub open spec fn one_tree(nodes: Seq<NodeView>, root: int) -> bool {
    &&& 0 <= root < nodes.len()
    &&& nodes[root].kw == "module"@ && nodes[root].parent is None && nodes[root].sid == Some(0i64)
    &&& forall|i: int|
        root < i < nodes.len() ==> !is_spliced((#[trigger] nodes[i]).kw) && nodes[i].kw
            != "module"@ && nodes[i].parent is Some
            && root <= nodes[i].parent->0 < i && nodes[nodes[i].parent->0 as int].children.contains(
            i as usize,
        )
    &&& forall|i: int, k: int|
        root <= i < nodes.len() && 0 <= k < nodes[i].children.len() ==> root
            < #[trigger] nodes[i].children[k] < nodes.len()
            && nodes[nodes[i].children[k] as int].parent == Some(i as usize)
}

/// Whether the data of a schema are one tree without choices and cases.
pub open spec fn tree_of_data(s: SchemaView) -> bool {
    one_tree(s.nodes, s.root as int)
}

/// Whether the SIDs of all nodes in the data of a schema lead somewhere.
pub open spec fn sids_known(s: SchemaView) -> bool {
    forall|i: int|
        s.root <= i < s.nodes.len() ==> (#[trigger] s.nodes[i].sid matches Some(sid)
            ==> s.sid_index.contains_key(sid))
}

/// Whether each SID in an index leads to a node with this SID.
pub open spec fn leads_back(nodes: Seq<NodeView>, index: Map<i64, usize>) -> bool {
    forall|sid: i64| #[trigger]
        index.contains_key(sid) ==> index[sid] < nodes.len() && nodes[index[sid] as int].sid
            == Some(sid)
}

/// The nodes with a copy of a node, and of all below it, below `parent`. In
/// the place of a choice or case stand its children. Only the first `limit`
/// nodes are copied; children stand behind their parents.
pub open spec fn flattened(nodes: Seq<NodeView>, node: usize, parent: usize, limit: int) -> Seq<
    NodeView,
>
    decreases limit - node, 1int, 0int,
{
    if node >= limit {
        nodes
    } else if is_spliced(nodes[node as int].kw) {
        flattened_all(nodes, node, nodes[node as int].children, 0, parent, limit)
    } else {
        let id = nodes.len() as usize;
        let n = nodes[node as int];
        let more = nodes.push(NodeView { parent: Some(parent), children: Seq::empty(), ..n });
        let linked = more.update(
            parent as int,
            NodeView { children: more[parent as int].children.push(id), ..more[parent as int] },
        );
        flattened_all(linked, node, n.children, 0, id, limit)
    }
}

/// The nodes with copies of the children of a node, from the `i`-th on, below
/// `parent`.
pub open spec fn flattened_all(
    nodes: Seq<NodeView>,
    node: usize,
    children: Seq<usize>,
    i: int,
    parent: usize,
    limit: int,
) -> Seq<NodeView>
    decreases limit - node, 0int, children.len() - i,
{
    if i < 0 || i >= children.len() || node >= limit {
        nodes
    } else if node < children[i] < limit {
        flattened_all(
            flattened(nodes, children[i], parent, limit),
            node,
            children,
            i + 1,
            parent,
            limit,
        )
    } else {
        arbitrary()
    }
}

/// The nodes with copies of the trees of the first `n` modules below `root`.
pub open spec fn modules_flattened(
    nodes: Seq<NodeView>,
    roots: Seq<(Seq<char>, usize)>,
    root: usize,
    limit: int,
    n: int,
) -> Seq<NodeView>
    decreases n,
{
    if n <= 0 {
        nodes
    } else {
        let before = modules_flattened(nodes, roots, root, limit, n - 1);
        let m = roots[n - 1].1;
        flattened_all(before, m, before[m as int].children, 0, root, limit)
    }
}

/// The index with the SIDs of a node and of all below it. Of several nodes
/// with a SID the last counts.
pub open spec fn indexed(nodes: Seq<NodeView>, node: usize, index: Map<i64, usize>) -> Map<
    i64,
    usize,
>
    decreases nodes.len() - node, 1int, 0int,
{
    if node >= nodes.len() {
        index
    } else {
        let own = match nodes[node as int].sid {
            Some(sid) => index.insert(sid, node),
            None => index,
        };
        indexed_all(nodes, node, 0, own)
    }
}

/// The index with the SIDs of the children of a node, from the `i`-th on, and
/// of all below them.
pub open spec fn indexed_all(nodes: Seq<NodeView>, node: usize, i: int, index: Map<i64, usize>) -> Map<
    i64,
    usize,
>
    decreases nodes.len() - node, 0int, nodes[node as int].children.len() - i,
{
    if node >= nodes.len() || i < 0 || i >= nodes[node as int].children.len() {
        index
    } else {
        let c = nodes[node as int].children[i];
        if node < c < nodes.len() {
            indexed_all(nodes, node, i + 1, indexed(nodes, c, index))
        } else {
            arbitrary()
        }
    }
}

/// The index with the SIDs of the first `n` tops and of all below them.
pub open spec fn roots_indexed(
    nodes: Seq<NodeView>,
    roots: Seq<(Seq<char>, usize)>,
    index: Map<i64, usize>,
    n: int,
) -> Map<i64, usize>
    decreases n,
{
    if n <= 0 {
        index
    } else {
        indexed(nodes, roots[n - 1].1, roots_indexed(nodes, roots, index, n - 1))
    }
}

/// The schema that a build is: below a new top, the trees of all modules
/// without choices and cases.
pub open spec fn finished(b: Build) -> SchemaView {
    let root = b.nodes.len() as usize;
    let c = with_node(b, "module"@, "data-tree-schema"@, Seq::empty(), None);
    let d = with_node_sid(c, root, 0);
    let nodes = modules_flattened(
        d.nodes,
        b.module_root,
        root,
        root as int,
        b.module_root.len() as int,
    );
    SchemaView {
        nodes,
        types: b.types,
        identities: b.identities,
        module_root: b.module_root,
        root,
        sid_index: roots_indexed(
            nodes,
            b.data_roots,
            indexed(nodes, root, Map::empty()),
            b.data_roots.len() as int,
        ),
    }
}

} // verus!
