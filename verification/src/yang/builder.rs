//! Building a schema from the statements of modules.
use std::collections::HashMap;

use vstd::prelude::*;

use crate::text::{
    cat, cat3, cat4, cat5, chars_of, decimal_text, find_text, index_of, local_part, owned,
    parse_number, position_of, quoted, same, segments, split, split_segments, split_text,
    split_words, text_between, texts, trim, trimmed,
};
use crate::yang::index_laws::lemma_all_indexed;
use crate::yang::meaning::{
    absolute_target, all_deviations_made, augment_made, bases_in, bits_in, bound_in, builtin_made,
    by_local, cases_made, children_made, config_off, default_ranges, definition,
    definition_around, definition_before, definitions, definitions_before, limited, nested_count,
    described, deviated, deviates_made,
    deviations_made, dots_from, enums_in, extension_made, find_identity, finished, flattened,
    flattened_all, fraction_digits_in, import_before, imports_made, in_module, indexed,
    indexed_all, is_short_case, is_spliced, leads_back, leafref_found, leafref_steps,
    leafrefs_found, local_child, made, makes_node, members_made, module_before, module_made,
    module_named, modules_flattened, modules_made, node_made, node_name, nothing, one_tree,
    owner_before, patterns_in, prefix_in, qualified, range_part, range_parts, ranges_in,
    referenced_identity, relative_target, renamed, restricted, root_from, root_named,
    roots_indexed, sid_target, sids_known, statement_before, tree_of_data, type_made, typed, uses_augmented,
    uses_made, with_bases, with_derivation, with_identities, with_identity, with_node,
    with_node_sid, with_node_type, with_root, with_sid, with_sides, with_sids, with_target,
    with_type, without, without_node, descended, Build,
};
use crate::yang::parser::{
    arg_of, column_at, find_kind, is_kind, lemma_stmt_view, lemma_sub_below, line_at, module_in,
    normalized, opt_text, parse_module, stmt_views, Fault, Stmt, StmtView,
};
use crate::yang::schema::{
    bare_type, bit_views, enum_views, identities_ok, identity_ok, identity_views, node_ok,
    node_views, nodes_ok, root_views, type_ok, type_views, types_ok, Bit, Builtin, EnumVal,
    Identity, IdentityId, IdentityView, Node, NodeId, NodeView, Schema, SchemaView, TypeDef,
    TypeId, TypeView,
};
use crate::yang::sid::{parse as parse_sids, sid_file_in, Namespace, SidFile, SidItem};

verus! {

/// Why modules make no schema.
#[derive(Debug)]
pub struct SchemaError(pub String);

impl SchemaError {
    /// The message.
    pub fn to_string(&self) -> (r: String)
        ensures
            r@ == self.0@,
    {
        self.0.clone()
    }
}

/// Builds a schema, module by module.
pub struct Builder<'a> {
    modules: &'a [Stmt],
    nodes: Vec<Node>,
    types: Vec<TypeDef>,
    identities: Vec<Identity>,
    module_root: Vec<(String, NodeId)>,
    data_roots: Vec<(String, NodeId)>,
    begun: Vec<String>,
}

impl<'a> View for Builder<'a> {
    type V = Build;

    closed spec fn view(&self) -> Build {
        Build {
            nodes: node_views(self.nodes@),
            types: type_views(self.types@),
            identities: identity_views(self.identities@),
            module_root: root_views(self.module_root@),
            data_roots: root_views(self.data_roots@),
            begun: texts(self.begun@),
        }
    }
}

/// Whether tops are nodes that there are.
pub open spec fn roots_ok(roots: Seq<(Seq<char>, usize)>, nodes: int) -> bool {
    forall|i: int| 0 <= i < roots.len() ==> (#[trigger] roots[i]).1 < nodes
}

/// Whether no node has a module for a child.
pub open spec fn modules_on_top(nodes: Seq<NodeView>) -> bool {
    forall|i: int, k: int|
        0 <= i < nodes.len() && 0 <= k < nodes[i].children.len()
            ==> nodes[(#[trigger] nodes[i].children[k]) as int].kw != "module"@
}

/// Whether all that a build refers to is there, and modules stand at the top.
pub open spec fn build_ok(b: Build) -> bool {
    &&& modules_on_top(b.nodes)
    &&& b.nodes.len() <= usize::MAX
    &&& b.types.len() <= usize::MAX
    &&& b.identities.len() <= usize::MAX
    &&& nodes_ok(b.nodes, b.types.len() as int)
    &&& types_ok(b.types, b.nodes.len() as int, b.identities.len() as int)
    &&& identities_ok(b.identities)
    &&& roots_ok(b.module_root, b.nodes.len() as int)
    &&& roots_ok(b.data_roots, b.nodes.len() as int)
}

/// Whether a build has everything that another has room for.
pub open spec fn grown(b: Build, c: Build) -> bool {
    &&& b.nodes.len() <= c.nodes.len()
    &&& b.types.len() <= c.types.len()
    &&& b.identities.len() <= c.identities.len()
}

/// The module with a name.
fn find_module<'a>(mods: &'a [Stmt], name: &str) -> (r: Option<&'a Stmt>)
    ensures
        match r {
            Some(m) => module_named(stmt_views(mods@), name@) == Some(m@),
            None => module_named(stmt_views(mods@), name@) is None,
        },
{
    let mut n: usize = mods.len();
    while n > 0
        invariant
            n <= mods@.len(),
            module_named(stmt_views(mods@), name@) == module_before(
                stmt_views(mods@),
                name@,
                n as int,
            ),
        decreases n,
    {
        if same(mods[n - 1].arg_str(), name) {
            return Some(&mods[n - 1]);
        }
        n -= 1;
    }
    None
}

/// The module that a prefix means in a module.
fn find_prefix(m: &Stmt, prefix: &str) -> (r: Option<String>)
    ensures
        opt_text(r) == prefix_in(m@, prefix@),
{
    proof {
        lemma_stmt_view(*m);
    }
    if let Some(p) = m.sub("prefix") {
        if same(p.arg_str(), prefix) {
            return Some(owned(m.arg_str()));
        }
    }
    let mut n: usize = m.subs.len();
    while n > 0
        invariant
            n <= m.subs@.len(),
            m@.subs == stmt_views(m.subs@),
            prefix_in(m@, prefix@) == import_before(m@.subs, prefix@, n as int),
        decreases n,
    {
        let s = &m.subs[n - 1];
        assert(m@.subs[n - 1] == s@);
        if s.is("import") {
            if let Some(p) = s.sub("prefix") {
                if same(p.arg_str(), prefix) {
                    return Some(owned(s.arg_str()));
                }
            }
        }
        n -= 1;
    }
    None
}

/// The last statement of a kind with an argument.
fn find_statement<'a>(m: &'a Stmt, kind: &str, name: &str) -> (r: Option<&'a Stmt>)
    ensures
        match r {
            Some(s) => statement_before(m@.subs, kind@, name@, m@.subs.len() as int) == Some(s@),
            None => statement_before(m@.subs, kind@, name@, m@.subs.len() as int) is None,
        },
{
    proof {
        lemma_stmt_view(*m);
    }
    let mut n: usize = m.subs.len();
    while n > 0
        invariant
            n <= m.subs@.len(),
            m@.subs == stmt_views(m.subs@),
            statement_before(m@.subs, kind@, name@, m@.subs.len() as int) == statement_before(
                m@.subs,
                kind@,
                name@,
                n as int,
            ),
        decreases n,
    {
        let s = &m.subs[n - 1];
        assert(m@.subs[n - 1] == s@);
        if s.is(kind) && same(s.arg_str(), name) {
            return Some(s);
        }
        n -= 1;
    }
    None
}

/// The views of statements.
pub open spec fn scope_views(scope: Seq<&Stmt>) -> Seq<StmtView> {
    scope.map_values(|s: &Stmt| s@)
}

/// The statements that the substatements of a statement stand in.
fn within<'b>(scope: &[&'b Stmt], s: &'b Stmt) -> (r: Vec<&'b Stmt>)
    ensures
        scope_views(r@) == scope_views(scope@).push(s@),
{
    let mut r = first_of(scope, scope.len());
    let ghost before = r@;
    r.push(s);
    assert(scope_views(r@) =~= scope_views(before).push(s@));
    assert(scope_views(scope@) =~= scope_views(scope@).subrange(0, scope@.len() as int));
    r
}

/// The first statements of some.
fn first_of<'b>(scope: &[&'b Stmt], n: usize) -> (r: Vec<&'b Stmt>)
    requires
        n <= scope@.len(),
    ensures
        scope_views(r@) == scope_views(scope@).subrange(0, n as int),
{
    let mut r: Vec<&'b Stmt> = Vec::new();
    let mut i: usize = 0;
    while i < n
        invariant
            i <= n <= scope@.len(),
            r@.len() == i,
            forall|k: int| 0 <= k < i ==> (#[trigger] r@[k])@ == scope@[k]@,
        decreases n - i,
    {
        r.push(scope[i]);
        i += 1;
    }
    assert(scope_views(r@) =~= scope_views(scope@).subrange(0, n as int));
    r
}

/// The typedef or grouping with a name in a module, and the statements that it
/// stands in.
fn find_definition<'b>(
    mods: &'b [Stmt],
    current: &str,
    scope: &[&'b Stmt],
    kind: &str,
    module: &str,
    name: &str,
) -> (r: Option<(&'b Stmt, Vec<&'b Stmt>)>)
    ensures
        ({
            let found = definition(
                stmt_views(mods@),
                current@,
                scope_views(scope@),
                kind@,
                module@,
                name@,
            );
            match r {
                Some((s, around)) => found == Some((s@, scope_views(around@))),
                None => found is None,
            }
        }),
{
    let ghost all = stmt_views(mods@);
    let ghost count = mods@.len() as int;
    let mut n: usize = mods.len();
    while n > 0
        invariant
            n <= mods@.len(),
            all == stmt_views(mods@),
            count == mods@.len(),
            definition_before(all, kind@, module@, name@, count) == definition_before(
                all,
                kind@,
                module@,
                name@,
                n as int,
            ),
        decreases n,
    {
        let m = &mods[n - 1];
        assert(all[n - 1] == m@);
        if same(m.arg_str(), module) {
            if let Some(s) = find_statement(m, kind, name) {
                let top: Vec<&'b Stmt> = Vec::new();
                assert(scope_views(top@) =~= Seq::empty());
                return Some((s, top));
            }
        }
        n -= 1;
    }
    if !same(module, current) {
        return None;
    }
    let ghost around = scope_views(scope@);
    let mut k: usize = scope.len();
    while k > 0
        invariant
            k <= scope@.len(),
            around == scope_views(scope@),
            definition_around(around, kind@, name@, scope@.len() as int) == definition_around(
                around,
                kind@,
                name@,
                k as int,
            ),
            definition_before(all, kind@, module@, name@, count) is None,
            all == stmt_views(mods@),
            count == all.len(),
            module@ == current@,
        decreases k,
    {
        assert(around[k - 1] == scope@[k - 1]@);
        if let Some(s) = find_statement(scope[k - 1], kind, name) {
            return Some((s, first_of(scope, k)));
        }
        k -= 1;
    }
    None
}

/// How many statements of a kind stand at any depth of a statement, but no
/// more than 64 bits hold.
fn count_nested(m: &Stmt, kind: &str) -> (r: u64)
    ensures
        r == limited(nested_count(m@, kind@, m@.subs.len() as int)),
    decreases m,
{
    proof {
        lemma_stmt_view(*m);
    }
    let mut n: usize = 0;
    let mut count: u64 = 0;
    while n < m.subs.len()
        invariant
            n <= m.subs@.len(),
            m@.subs == stmt_views(m.subs@),
            count == limited(nested_count(m@, kind@, n as int)),
        decreases m.subs@.len() - n,
    {
        let s = &m.subs[n];
        assert(m@.subs[n as int] == s@);
        proof {
            lemma_sub_below(*m, n as int);
        }
        let inner = count_nested(s, kind);
        let own: u64 = if s.is(kind) {
            1
        } else {
            0
        };
        count = count.saturating_add(inner).saturating_add(own);
        n += 1;
        assert(nested_count(m@, kind@, n as int) == nested_count(m@, kind@, n - 1) + nested_count(
            s@,
            kind@,
            s@.subs.len() as int,
        ) + own as nat);
    }
    count
}

/// How many typedefs or groupings there are.
fn count_definitions(mods: &[Stmt], kind: &str) -> (r: u128)
    ensures
        r == definitions(stmt_views(mods@), kind@),
{
    let len: usize = mods.len();
    let mut n: usize = 0;
    let mut count: u64 = 0;
    while n < len
        invariant
            n <= len,
            len == mods@.len(),
            count == limited(definitions_before(stmt_views(mods@), kind@, n as int)),
        decreases len - n,
    {
        let more = count_nested(&mods[n], kind);
        assert(stmt_views(mods@)[n as int] == mods@[n as int]@);
        count = count.saturating_add(more);
        n += 1;
    }
    count as u128
}

/// A reference as the name of the module and the name in it.
fn split_qualified(mods: &[Stmt], current: &str, value: &str) -> (r: Result<
    (String, String),
    SchemaError,
>)
    ensures
        match r {
            Ok((module, local)) => qualified(stmt_views(mods@), current@, value@) == Ok::<
                (Seq<char>, Seq<char>),
                Seq<char>,
            >((module@, local@)),
            Err(e) => qualified(stmt_views(mods@), current@, value@) == Err::<
                (Seq<char>, Seq<char>),
                Seq<char>,
            >(e.0@),
        },
{
    let chars = chars_of(value);
    let n: usize = chars.len();
    let i = index_of(chars.as_slice(), ':', 0);
    if i >= n {
        return Ok((owned(current), owned(value)));
    }
    let prefix = text_between(chars.as_slice(), 0, i);
    let local = text_between(chars.as_slice(), i + 1, n);
    match find_module(mods, current) {
        None => {
            let shown = quoted(current);
            Err(SchemaError(cat("unknown module ", shown.as_str())))
        },
        Some(m) => match find_prefix(m, prefix.as_str()) {
            None => {
                let p = quoted(prefix.as_str());
                let c = quoted(current);
                Err(SchemaError(cat4("unknown prefix ", p.as_str(), " in module ", c.as_str())))
            },
            Some(module) => Ok((module, local)),
        },
    }
}

/// The bound of a range.
fn parse_bound(s: &str, base: &[(i128, i128)]) -> (r: Option<i128>)
    ensures
        r == bound_in(s@, base@),
{
    if same(s, "min") {
        if base.len() > 0 {
            Some(base[0].0)
        } else {
            None
        }
    } else if same(s, "max") {
        if base.len() > 0 {
            Some(base[base.len() - 1].1)
        } else {
            None
        }
    } else {
        parse_number(s, i128::MIN, i128::MAX)
    }
}

/// One part of a range.
fn parse_range_part(s: &str, base: &[(i128, i128)]) -> (r: Option<(i128, i128)>)
    ensures
        r == range_part(s@, base@),
{
    let chars = chars_of(s);
    let n: usize = chars.len();
    let mut i: usize = 0;
    while i < n && i + 1 < n && !(chars[i] == '.' && chars[i + 1] == '.')
        invariant
            i <= n,
            n == chars@.len(),
            chars@ == s@,
            dots_from(s@, 0) == dots_from(s@, i as int),
        decreases n - i,
    {
        i += 1;
    }
    if i < n && i + 1 < n {
        let left = text_between(chars.as_slice(), 0, i);
        let right = text_between(chars.as_slice(), i + 2, n);
        let left = trim(left.as_str());
        let right = trim(right.as_str());
        match (parse_bound(left.as_str(), base), parse_bound(right.as_str(), base)) {
            (Some(a), Some(b)) => Some((a, b)),
            _ => None,
        }
    } else {
        let one = trim(s);
        match parse_bound(one.as_str(), base) {
            Some(a) => Some((a, a)),
            None => None,
        }
    }
}

/// The ranges that a restriction gives.
fn parse_ranges(arg: &str, base: &[(i128, i128)]) -> (r: Result<Vec<(i128, i128)>, SchemaError>)
    ensures
        match r {
            Ok(v) => ranges_in(arg@, base@) == Ok::<Seq<(i128, i128)>, Seq<char>>(v@),
            Err(e) => ranges_in(arg@, base@) == Err::<Seq<(i128, i128)>, Seq<char>>(e.0@),
        },
{
    let parts = split(arg, '|');
    let ghost all = split_text(arg@, '|');
    let mut out: Vec<(i128, i128)> = Vec::new();
    let mut i: usize = 0;
    while i < parts.len()
        invariant
            i <= parts@.len(),
            all == texts(parts@),
            all == split_text(arg@, '|'),
            range_parts(all, base@, i as int) == Some(out@),
        decreases parts@.len() - i,
    {
        assert(all[i as int] == parts@[i as int]@);
        match parse_range_part(parts[i].as_str(), base) {
            Some(p) => {
                out.push(p);
            },
            None => {
                proof {
                    lemma_range_fails(all, base@, i + 1, all.len() as int);
                }
                let shown = quoted(arg);
                return Err(SchemaError(cat("invalid range or length ", shown.as_str())));
            },
        }
        i += 1;
    }
    Ok(out)
}

proof fn lemma_range_fails(parts: Seq<Seq<char>>, base: Seq<(i128, i128)>, n: int, m: int)
    requires
        0 <= n <= m,
        range_parts(parts, base, n) is None,
    ensures
        range_parts(parts, base, m) is None,
    decreases m - n,
{
    if n < m {
        lemma_range_fails(parts, base, n, m - 1);
    }
}

/// The allowed values or lengths of a type without restrictions.
fn initial_ranges(b: Builtin) -> (r: Vec<(i128, i128)>)
    ensures
        r@ == default_ranges(b),
{
    let mut out: Vec<(i128, i128)> = Vec::new();
    match b {
        Builtin::Int8 => out.push((-0x80, 0x7F)),
        Builtin::Int16 => out.push((-0x8000, 0x7FFF)),
        Builtin::Int32 => out.push((-0x8000_0000, 0x7FFF_FFFF)),
        Builtin::Int64 => out.push((-0x8000_0000_0000_0000, 0x7FFF_FFFF_FFFF_FFFF)),
        Builtin::Uint8 => out.push((0, 0xFF)),
        Builtin::Uint16 => out.push((0, 0xFFFF)),
        Builtin::Uint32 => out.push((0, 0xFFFF_FFFF)),
        Builtin::Uint64 => out.push((0, 0xFFFF_FFFF_FFFF_FFFF)),
        Builtin::String => out.push((0, 0xFFFF_FFFF_FFFF_FFFF)),
        Builtin::Binary => out.push((0, 0xFFFF_FFFF_FFFF_FFFF)),
        _ => {},
    }
    assert(out@ =~= default_ranges(b));
    out
}

/// Adds the restrictions of a type statement to a type.
fn restrict(ty: &mut TypeDef, t: &Stmt) -> (r: Result<(), SchemaError>)
    ensures
        match r {
            Ok(_) => restricted(old(ty)@, t@) == Ok::<TypeView, Seq<char>>(final(ty)@),
            Err(e) => restricted(old(ty)@, t@) == Err::<TypeView, Seq<char>>(e.0@),
        },
{
    let ghost before = ty@;
    proof {
        lemma_stmt_view(*t);
    }
    if ty.builtin == Builtin::String {
        let mut i: usize = 0;
        while i < t.subs.len()
            invariant
                i <= t.subs@.len(),
                t@.subs == stmt_views(t.subs@),
                ty@ == (TypeView {
                    patterns: patterns_in(before.patterns, t@.subs, i as int),
                    ..before
                }),
            decreases t.subs@.len() - i,
        {
            assert(t@.subs[i as int] == t.subs@[i as int]@);
            if t.subs[i].is("pattern") {
                let ghost had = texts(ty.patterns@);
                let p = cat3("^(?:", t.subs[i].arg_str(), ")$");
                ty.patterns.push(p);
                assert(texts(ty.patterns@) =~= had.push(p@));
            }
            assert(ty@ =~= TypeView {
                patterns: patterns_in(before.patterns, t@.subs, i + 1),
                ..before
            });
            i += 1;
        }
    }
    let kw: &str = if ty.builtin.is_narrow_int() || ty.builtin.is_64bit_int() {
        "range"
    } else if ty.builtin == Builtin::String || ty.builtin == Builtin::Binary {
        "length"
    } else {
        return Ok(());
    };
    if let Some(r) = t.sub(kw) {
        let ranges = parse_ranges(r.arg_str(), ty.ranges.as_slice())?;
        ty.ranges = ranges;
    }
    Ok(())
}

/// The bits among the substatements of a type statement.
fn read_bits(t: &Stmt) -> (r: Vec<Bit>)
    ensures
        bit_views(r@) == bits_in(t@.subs, t@.subs.len() as int).0,
{
    proof {
        lemma_stmt_view(*t);
    }
    let mut out: Vec<Bit> = Vec::new();
    let mut next: u32 = 0;
    let mut i: usize = 0;
    assert(bit_views(out@) =~= Seq::empty());
    while i < t.subs.len()
        invariant
            i <= t.subs@.len(),
            t@.subs == stmt_views(t.subs@),
            bits_in(t@.subs, i as int) == (bit_views(out@), next),
        decreases t.subs@.len() - i,
    {
        let s = &t.subs[i];
        assert(t@.subs[i as int] == s@);
        if s.is("bit") {
            let position: u32 = match s.sub("position") {
                Some(p) => match parse_number(p.arg_str(), 0, u32::MAX as i128) {
                    Some(v) => v as u32,
                    None => next,
                },
                None => next,
            };
            let ghost had = bit_views(out@);
            let bit = Bit { name: owned(s.arg_str()), position };
            out.push(bit);
            assert(bit_views(out@) =~= had.push(bit@));
            next = position.wrapping_add(1);
        }
        i += 1;
    }
    out
}

/// The enumeration values among the substatements of a type statement.
fn read_enums(t: &Stmt) -> (r: Vec<EnumVal>)
    ensures
        enum_views(r@) == enums_in(t@.subs, t@.subs.len() as int).0,
{
    proof {
        lemma_stmt_view(*t);
    }
    let mut out: Vec<EnumVal> = Vec::new();
    let mut next: i64 = 0;
    let mut i: usize = 0;
    assert(enum_views(out@) =~= Seq::empty());
    while i < t.subs.len()
        invariant
            i <= t.subs@.len(),
            t@.subs == stmt_views(t.subs@),
            enums_in(t@.subs, i as int) == (enum_views(out@), next),
        decreases t.subs@.len() - i,
    {
        let s = &t.subs[i];
        assert(t@.subs[i as int] == s@);
        if s.is("enum") {
            let value: i64 = match s.sub("value") {
                Some(p) => match parse_number(p.arg_str(), i64::MIN as i128, i64::MAX as i128) {
                    Some(v) => v as i64,
                    None => next,
                },
                None => next,
            };
            let ghost had = enum_views(out@);
            let e = EnumVal { name: owned(s.arg_str()), value };
            out.push(e);
            assert(enum_views(out@) =~= had.push(e@));
            next = if value == i64::MAX {
                i64::MIN
            } else {
                value + 1
            };
        }
        i += 1;
    }
    out
}

/// The number of fraction digits that a type statement gives.
fn read_fraction_digits(t: &Stmt) -> (r: Option<u8>)
    ensures
        r == fraction_digits_in(t@),
{
    match t.sub("fraction-digits") {
        Some(f) => match parse_number(f.arg_str(), 0, 255) {
            Some(v) => Some(v as u8),
            None => None,
        },
        None => None,
    }
}

/// The place of the identity with a name in a module.
fn position_of_identity(ids: &Vec<Identity>, module: &str, name: &str) -> (r: Option<usize>)
    ensures
        match r {
            Some(i) => i < ids@.len() && find_identity(identity_views(ids@), module@, name@, 0)
                == Some(i as int),
            None => find_identity(identity_views(ids@), module@, name@, 0) is None,
        },
{
    let mut i: usize = 0;
    while i < ids.len()
        invariant
            i <= ids@.len(),
            find_identity(identity_views(ids@), module@, name@, 0) == find_identity(
                identity_views(ids@),
                module@,
                name@,
                i as int,
            ),
        decreases ids@.len() - i,
    {
        if same(ids[i].module.as_str(), module) && same(ids[i].name.as_str(), name) {
            return Some(i);
        }
        i += 1;
    }
    None
}

impl Schema {
    /// The identity with a name in a module.
    pub fn identity_by_module_name(&self, module: &str, name: &str) -> (r: Option<IdentityId>)
        ensures
            match r {
                Some(id) => id < self.identities@.len() && find_identity(
                    self@.identities,
                    module@,
                    name@,
                    0,
                ) == Some(id as int),
                None => find_identity(self@.identities, module@, name@, 0) is None,
            },
    {
        position_of_identity(&self.identities, module, name)
    }
}

/// The identity with a name in a module, added if there is none yet.
fn get_identity(ids: &mut Vec<Identity>, module: &str, name: &str) -> (r: IdentityId)
    requires
        identities_ok(identity_views(old(ids)@)),
    ensures
        (identity_views(final(ids)@), r) == with_identity(
            identity_views(old(ids)@),
            module@,
            name@,
        ),
        r < final(ids)@.len(),
        old(ids)@.len() <= final(ids)@.len(),
        identities_ok(identity_views(final(ids)@)),
{
    match position_of_identity(ids, module, name) {
        Some(i) => i,
        None => {
            let id: usize = ids.len();
            let ghost had = identity_views(ids@);
            let one = Identity {
                name: owned(name),
                module: owned(module),
                base: Vec::new(),
                derived: Vec::new(),
                sid: None,
            };
            assert(one@ =~= IdentityView {
                name: name@,
                module: module@,
                base: Seq::empty(),
                derived: Seq::empty(),
                sid: None,
            });
            ids.push(one);
            proof {
                let now = identity_views(ids@);
                assert(now =~= had.push(one@));
                assert forall|i: int| 0 <= i < now.len() implies identity_ok(
                    now.len() as int,
                    #[trigger] now[i],
                ) by {
                    if i < had.len() {
                        assert(identity_ok(had.len() as int, had[i]));
                    }
                }
            }
            id
        },
    }
}

/// The identity that a reference means.
fn resolve_identity_ref(
    mods: &[Stmt],
    ids: &mut Vec<Identity>,
    current: &str,
    value: &str,
) -> (r: Result<IdentityId, SchemaError>)
    requires
        identities_ok(identity_views(old(ids)@)),
    ensures
        match r {
            Ok(id) => {
                &&& referenced_identity(
                    stmt_views(mods@),
                    identity_views(old(ids)@),
                    current@,
                    value@,
                ) == Ok::<(Seq<IdentityView>, usize), Seq<char>>((identity_views(final(ids)@), id))
                &&& id < final(ids)@.len()
                &&& old(ids)@.len() <= final(ids)@.len()
                &&& identities_ok(identity_views(final(ids)@))
            },
            Err(e) => referenced_identity(
                stmt_views(mods@),
                identity_views(old(ids)@),
                current@,
                value@,
            ) == Err::<(Seq<IdentityView>, usize), Seq<char>>(e.0@),
        },
{
    let (module, local) = split_qualified(mods, current, value)?;
    Ok(get_identity(ids, module.as_str(), local.as_str()))
}

/// Adds to an identity the bases that its statement names.
fn register_bases(
    mods: &[Stmt],
    ids: &mut Vec<Identity>,
    module: &str,
    id: IdentityId,
    s: &Stmt,
) -> (r: Result<(), SchemaError>)
    requires
        identities_ok(identity_views(old(ids)@)),
        id < old(ids)@.len(),
    ensures
        ({
            let all = with_bases(
                stmt_views(mods@),
                identity_views(old(ids)@),
                module@,
                id,
                s@.subs,
                s@.subs.len() as int,
            );
            match r {
                Ok(_) => {
                    &&& all == Ok::<Seq<IdentityView>, Seq<char>>(identity_views(final(ids)@))
                    &&& old(ids)@.len() <= final(ids)@.len()
                    &&& identities_ok(identity_views(final(ids)@))
                },
                Err(e) => all == Err::<Seq<IdentityView>, Seq<char>>(e.0@),
            }
        }),
{
    proof {
        lemma_stmt_view(*s);
    }
    let ghost start = identity_views(ids@);
    let ghost views = stmt_views(mods@);
    let mut i: usize = 0;
    while i < s.subs.len()
        invariant
            i <= s.subs@.len(),
            s@.subs == stmt_views(s.subs@),
            views == stmt_views(mods@),
            start == identity_views(old(ids)@),
            with_bases(views, start, module@, id, s@.subs, i as int) == Ok::<
                Seq<IdentityView>,
                Seq<char>,
            >(identity_views(ids@)),
            id < old(ids)@.len() <= ids@.len(),
            identities_ok(identity_views(ids@)),
        decreases s.subs@.len() - i,
    {
        assert(s@.subs[i as int] == s.subs@[i as int]@);
        if s.subs[i].is("base") {
            match resolve_identity_ref(mods, ids, module, s.subs[i].arg_str()) {
                Err(e) => {
                    proof {
                        lemma_bases_fail(views, start, module@, id, s@.subs, i + 1, s@.subs.len() as int);
                    }
                    return Err(e);
                },
                Ok(base) => {
                    add_derivation(ids, id, base);
                },
            }
        }
        i += 1;
    }
    Ok(())
}

proof fn lemma_bases_fail(
    mods: Seq<StmtView>,
    ids: Seq<IdentityView>,
    module: Seq<char>,
    id: usize,
    subs: Seq<StmtView>,
    n: int,
    m: int,
)
    requires
        0 <= n <= m,
        with_bases(mods, ids, module, id, subs, n) is Err,
    ensures
        with_bases(mods, ids, module, id, subs, m) == with_bases(mods, ids, module, id, subs, n),
    decreases m - n,
{
    if n < m {
        lemma_bases_fail(mods, ids, module, id, subs, n, m - 1);
    }
}

/// Notes that an identity is derived from another.
fn add_derivation(ids: &mut Vec<Identity>, id: IdentityId, base: IdentityId)
    requires
        identities_ok(identity_views(old(ids)@)),
        id < old(ids)@.len(),
        base < old(ids)@.len(),
    ensures
        identity_views(final(ids)@) == with_derivation(identity_views(old(ids)@), id, base),
        final(ids)@.len() == old(ids)@.len(),
        identities_ok(identity_views(final(ids)@)),
{
    let ghost had = identity_views(ids@);
    ids[id].base.push(base);
    let ghost mid = identity_views(ids@);
    assert(mid =~= had.update(
        id as int,
        IdentityView { base: had[id as int].base.push(base), ..had[id as int] },
    ));
    ids[base].derived.push(id);
    proof {
        let now = identity_views(ids@);
        assert(now =~= with_derivation(had, id, base));
        assert forall|i: int| 0 <= i < now.len() implies identity_ok(
            now.len() as int,
            #[trigger] now[i],
        ) by {
            assert(identity_ok(had.len() as int, had[i]));
        }
    }
}

/// Registers the identities of a module, with their bases.
fn register_identities(mods: &[Stmt], ids: &mut Vec<Identity>, module: &str, raw: &Stmt) -> (r:
    Result<(), SchemaError>)
    requires
        identities_ok(identity_views(old(ids)@)),
    ensures
        ({
            let all = with_identities(
                stmt_views(mods@),
                identity_views(old(ids)@),
                module@,
                raw@.subs,
                raw@.subs.len() as int,
            );
            match r {
                Ok(_) => {
                    &&& all == Ok::<Seq<IdentityView>, Seq<char>>(identity_views(final(ids)@))
                    &&& old(ids)@.len() <= final(ids)@.len()
                    &&& identities_ok(identity_views(final(ids)@))
                },
                Err(e) => all == Err::<Seq<IdentityView>, Seq<char>>(e.0@),
            }
        }),
{
    proof {
        lemma_stmt_view(*raw);
    }
    let ghost start = identity_views(ids@);
    let ghost views = stmt_views(mods@);
    let mut i: usize = 0;
    while i < raw.subs.len()
        invariant
            i <= raw.subs@.len(),
            raw@.subs == stmt_views(raw.subs@),
            views == stmt_views(mods@),
            start == identity_views(old(ids)@),
            with_identities(views, start, module@, raw@.subs, i as int) == Ok::<
                Seq<IdentityView>,
                Seq<char>,
            >(identity_views(ids@)),
            old(ids)@.len() <= ids@.len(),
            identities_ok(identity_views(ids@)),
        decreases raw.subs@.len() - i,
    {
        let s = &raw.subs[i];
        assert(raw@.subs[i as int] == s@);
        if s.is("identity") {
            let id = get_identity(ids, module, s.arg_str());
            match register_bases(mods, ids, module, id, s) {
                Err(e) => {
                    proof {
                        lemma_identities_fail(
                            views,
                            start,
                            module@,
                            raw@.subs,
                            i + 1,
                            raw@.subs.len() as int,
                        );
                    }
                    return Err(e);
                },
                Ok(_) => {},
            }
        }
        i += 1;
    }
    Ok(())
}

proof fn lemma_identities_fail(
    mods: Seq<StmtView>,
    ids: Seq<IdentityView>,
    module: Seq<char>,
    subs: Seq<StmtView>,
    n: int,
    m: int,
)
    requires
        0 <= n <= m,
        with_identities(mods, ids, module, subs, n) is Err,
    ensures
        with_identities(mods, ids, module, subs, m) == with_identities(mods, ids, module, subs, n),
    decreases m - n,
{
    if n < m {
        lemma_identities_fail(mods, ids, module, subs, n, m - 1);
    }
}

/// The identities that the bases of a type statement mean.
fn read_bases(mods: &[Stmt], ids: &mut Vec<Identity>, module: &str, t: &Stmt) -> (r: Result<
    Vec<IdentityId>,
    SchemaError,
>)
    requires
        identities_ok(identity_views(old(ids)@)),
    ensures
        ({
            let all = bases_in(
                stmt_views(mods@),
                identity_views(old(ids)@),
                module@,
                t@.subs,
                t@.subs.len() as int,
            );
            match r {
                Ok(v) => {
                    &&& all == Ok::<(Seq<IdentityView>, Seq<usize>), Seq<char>>(
                        (identity_views(final(ids)@), v@),
                    )
                    &&& old(ids)@.len() <= final(ids)@.len()
                    &&& identities_ok(identity_views(final(ids)@))
                    &&& forall|i: int| 0 <= i < v@.len() ==> #[trigger] v@[i] < final(ids)@.len()
                },
                Err(e) => all == Err::<(Seq<IdentityView>, Seq<usize>), Seq<char>>(e.0@),
            }
        }),
{
    proof {
        lemma_stmt_view(*t);
    }
    let ghost start = identity_views(ids@);
    let ghost views = stmt_views(mods@);
    let mut out: Vec<IdentityId> = Vec::new();
    let mut i: usize = 0;
    while i < t.subs.len()
        invariant
            i <= t.subs@.len(),
            t@.subs == stmt_views(t.subs@),
            views == stmt_views(mods@),
            start == identity_views(old(ids)@),
            bases_in(views, start, module@, t@.subs, i as int) == Ok::<
                (Seq<IdentityView>, Seq<usize>),
                Seq<char>,
            >((identity_views(ids@), out@)),
            old(ids)@.len() <= ids@.len(),
            identities_ok(identity_views(ids@)),
            forall|k: int| 0 <= k < out@.len() ==> #[trigger] out@[k] < ids@.len(),
        decreases t.subs@.len() - i,
    {
        let s = &t.subs[i];
        assert(t@.subs[i as int] == s@);
        if s.is("base") {
            match resolve_identity_ref(mods, ids, module, s.arg_str()) {
                Err(e) => {
                    proof {
                        lemma_type_bases_fail(
                            views,
                            start,
                            module@,
                            t@.subs,
                            i + 1,
                            t@.subs.len() as int,
                        );
                    }
                    return Err(e);
                },
                Ok(id) => {
                    out.push(id);
                },
            }
        }
        i += 1;
    }
    Ok(out)
}

proof fn lemma_type_bases_fail(
    mods: Seq<StmtView>,
    ids: Seq<IdentityView>,
    module: Seq<char>,
    subs: Seq<StmtView>,
    n: int,
    m: int,
)
    requires
        0 <= n <= m,
        bases_in(mods, ids, module, subs, n) is Err,
    ensures
        bases_in(mods, ids, module, subs, m) == bases_in(mods, ids, module, subs, n),
    decreases m - n,
{
    if n < m {
        lemma_type_bases_fail(mods, ids, module, subs, n, m - 1);
    }
}

/// What the reading of a type keeps: only types and identities are added.
spec fn only_types(b: Build, c: Build) -> bool {
    &&& c.nodes == b.nodes
    &&& c.module_root == b.module_root
    &&& c.data_roots == b.data_roots
    &&& c.begun == b.begun
    &&& b.types.len() <= c.types.len()
    &&& b.identities.len() <= c.identities.len()
}

/// A build with more types and identities is as it must be if the new ones
/// are.
proof fn lemma_more_types(b: Build, c: Build)
    requires
        build_ok(b),
        only_types(b, c),
        c.types.len() <= usize::MAX,
        c.identities.len() <= usize::MAX,
        identities_ok(c.identities),
        forall|i: int|
            0 <= i < b.types.len() ==> type_ok(
                b.nodes.len() as int,
                b.identities.len() as int,
                i,
                #[trigger] c.types[i],
            ),
        forall|i: int|
            b.types.len() <= i < c.types.len() ==> type_ok(
                b.nodes.len() as int,
                c.identities.len() as int,
                i,
                #[trigger] c.types[i],
            ),
    ensures
        build_ok(c),
{
    assert forall|i: int| 0 <= i < c.nodes.len() implies node_ok(
        c.nodes.len() as int,
        c.types.len() as int,
        i,
        #[trigger] c.nodes[i],
    ) by {
        assert(node_ok(b.nodes.len() as int, b.types.len() as int, i, b.nodes[i]));
    }
    assert forall|i: int| 0 <= i < c.types.len() implies type_ok(
        c.nodes.len() as int,
        c.identities.len() as int,
        i,
        #[trigger] c.types[i],
    ) by {
        if i < b.types.len() {
            assert(type_ok(b.nodes.len() as int, b.identities.len() as int, i, c.types[i]));
        }
    }
}

/// A restriction changes nothing that refers to something.
proof fn lemma_restricted_ok(ty: TypeView, t: StmtView, nodes: int, identities: int, i: int)
    requires
        type_ok(nodes, identities, i, ty),
    ensures
        restricted(ty, t) matches Ok(r) ==> type_ok(nodes, identities, i, r),
{
}

impl<'a> Builder<'a> {
    /// The modules that are built from.
    pub closed spec fn mods(&self) -> Seq<StmtView> {
        stmt_views(self.modules@)
    }

    /// What holds between calls.
    pub closed spec fn wf(&self) -> bool {
        build_ok(self@)
    }

    /// Adds a type.
    fn new_type(&mut self, ty: TypeDef) -> (r: TypeId)
        requires
            old(self).wf(),
            type_ok(
                old(self)@.nodes.len() as int,
                old(self)@.identities.len() as int,
                old(self)@.types.len() as int,
                ty@,
            ),
        ensures
            final(self).wf(),
            final(self).modules == old(self).modules,
            final(self)@ == with_type(old(self)@, ty@),
            only_types(old(self)@, final(self)@),
            r == old(self)@.types.len(),
            r < final(self)@.types.len(),
    {
        let id: usize = self.types.len();
        let ghost before = self@;
        self.types.push(ty);
        proof {
            assert(self@ =~= with_type(before, ty@));
            assert(self@.types.len() == self.types.len());
            lemma_more_types(before, self@);
        }
        id
    }

    /// The type that a type statement makes.
    fn interpret_type(
        &mut self,
        module: &str,
        scope: &[&Stmt],
        t: &Stmt,
        fuel: u128,
    ) -> (r: Result<TypeId, SchemaError>)
        requires
            old(self).wf(),
        ensures
            final(self).modules == old(self).modules,
            ({
                let all = type_made(
                    old(self).mods(),
                    old(self)@,
                    module@,
                    scope_views(scope@),
                    t@,
                    fuel as nat,
                );
                match r {
                    Ok(id) => {
                        &&& all == Ok::<(Build, usize), Seq<char>>((final(self)@, id))
                        &&& final(self).wf()
                        &&& only_types(old(self)@, final(self)@)
                        &&& old(self)@.types.len() <= id < final(self)@.types.len()
                    },
                    Err(e) => all == Err::<(Build, usize), Seq<char>>(e.0@),
                }
            }),
        decreases fuel, t, 2int, 0int,
    {
        let name = t.arg_str();
        if let Some(builtin) = Builtin::from_name(name) {
            return self.interpret_builtin_type(module, scope, builtin, t, fuel);
        }
        let (def_module, local) = split_qualified(self.modules, module, name)?;
        let (raw, around) = match find_definition(
            self.modules,
            module,
            scope,
            "typedef",
            def_module.as_str(),
            local.as_str(),
        ) {
            Some(found) => found,
            None => {
                let shown = quoted(name);
                return Err(
                    SchemaError(
                        cat5("typedef ", shown.as_str(), " not found (used from ", module, ")"),
                    ),
                );
            },
        };
        let base = match raw.sub("type") {
            Some(base) => base,
            None => {
                let shown = quoted(name);
                return Err(SchemaError(cat3("typedef ", shown.as_str(), " has no type")));
            },
        };
        if fuel == 0 {
            let shown = quoted(name);
            return Err(SchemaError(cat3("typedef ", shown.as_str(), " is defined by itself")));
        }
        let id = self.interpret_type(def_module.as_str(), around.as_slice(), base, fuel - 1)?;
        let ghost mid = self@;
        proof {
            assert(type_ok(
                mid.nodes.len() as int,
                mid.identities.len() as int,
                id as int,
                mid.types[id as int],
            ));
            lemma_restricted_ok(
                mid.types[id as int],
                t@,
                mid.nodes.len() as int,
                mid.identities.len() as int,
                id as int,
            );
        }
        match restrict(&mut self.types[id], t) {
            Err(e) => {
                return Err(e);
            },
            Ok(_) => {},
        }
        proof {
            let ty = restricted(mid.types[id as int], t@)->Ok_0;
            assert(self@ =~= Build { types: mid.types.update(id as int, ty), ..mid });
            lemma_more_types(mid, self@);
        }
        Ok(id)
    }

    /// The type that a type statement makes of a built-in type.
    fn interpret_builtin_type(
        &mut self,
        module: &str,
        scope: &[&Stmt],
        builtin: Builtin,
        t: &Stmt,
        fuel: u128,
    ) -> (r: Result<TypeId, SchemaError>)
        requires
            old(self).wf(),
        ensures
            final(self).modules == old(self).modules,
            ({
                let all = builtin_made(
                    old(self).mods(),
                    old(self)@,
                    module@,
                    scope_views(scope@),
                    builtin,
                    t@,
                    fuel as nat,
                );
                match r {
                    Ok(id) => {
                        &&& all == Ok::<(Build, usize), Seq<char>>((final(self)@, id))
                        &&& final(self).wf()
                        &&& only_types(old(self)@, final(self)@)
                        &&& old(self)@.types.len() <= id < final(self)@.types.len()
                    },
                    Err(e) => all == Err::<(Build, usize), Seq<char>>(e.0@),
                }
            }),
        decreases fuel, t, 1int, 0int,
    {
        let mut ty = TypeDef::new(builtin);
        ty.ranges = initial_ranges(builtin);
        let ghost plain = TypeView { ranges: default_ranges(builtin), ..bare_type(builtin) };
        assert(ty@ =~= plain);
        if builtin == Builtin::Decimal64 {
            ty.fraction_digits = read_fraction_digits(t);
            Ok(self.new_type(ty))
        } else if builtin == Builtin::Bits {
            ty.bits = read_bits(t);
            Ok(self.new_type(ty))
        } else if builtin == Builtin::Enumeration {
            ty.enums = read_enums(t);
            Ok(self.new_type(ty))
        } else if builtin == Builtin::Identityref {
            let ghost before = self@;
            let bases = read_bases(self.modules, &mut self.identities, module, t)?;
            ty.source_module = Some(owned(module));
            ty.identity_bases = bases;
            proof {
                assert(self@ =~= Build { identities: self@.identities, ..before });
                assert(self@.identities.len() == self.identities.len());
                lemma_more_types(before, self@);
            }
            Ok(self.new_type(ty))
        } else if builtin == Builtin::Leafref {
            if let Some(p) = t.sub("path") {
                ty.leafref_path = Some(owned(p.arg_str()));
                ty.source_module = Some(owned(module));
            }
            Ok(self.new_type(ty))
        } else if builtin == Builtin::Union {
            let members = self.interpret_members(module, scope, t, fuel)?;
            ty.union_members = members;
            Ok(self.new_type(ty))
        } else {
            proof {
                lemma_restricted_ok(
                    plain,
                    t@,
                    self@.nodes.len() as int,
                    self@.identities.len() as int,
                    self@.types.len() as int,
                );
            }
            restrict(&mut ty, t)?;
            Ok(self.new_type(ty))
        }
    }

    /// The members of a union.
    fn interpret_members(
        &mut self,
        module: &str,
        scope: &[&Stmt],
        t: &Stmt,
        fuel: u128,
    ) -> (r: Result<Vec<TypeId>, SchemaError>)
        requires
            old(self).wf(),
        ensures
            final(self).modules == old(self).modules,
            ({
                let all = members_made(
                    old(self).mods(),
                    old(self)@,
                    module@,
                    scope_views(scope@),
                    t@,
                    0,
                    fuel as nat,
                    Seq::empty(),
                );
                match r {
                    Ok(v) => {
                        &&& all == Ok::<(Build, Seq<usize>), Seq<char>>((final(self)@, v@))
                        &&& final(self).wf()
                        &&& only_types(old(self)@, final(self)@)
                        &&& forall|i: int|
                            0 <= i < v@.len() ==> #[trigger] v@[i] < final(self)@.types.len()
                    },
                    Err(e) => all == Err::<(Build, Seq<usize>), Seq<char>>(e.0@),
                }
            }),
        decreases fuel, t, 0int, 0int,
    {
        proof {
            lemma_stmt_view(*t);
        }
        let ghost start = self@;
        let ghost mods = self.mods();
        let ghost around = scope_views(scope@);
        let mut out: Vec<TypeId> = Vec::new();
        let mut i: usize = 0;
        assert(out@ =~= Seq::empty());
        while i < t.subs.len()
            invariant
                i <= t.subs@.len(),
                t@.subs == stmt_views(t.subs@),
                self.wf(),
                self.modules == old(self).modules,
                mods == old(self).mods(),
                mods == self.mods(),
                around == scope_views(scope@),
                start == old(self)@,
                only_types(start, self@),
                members_made(mods, start, module@, around, t@, 0, fuel as nat, Seq::empty())
                    == members_made(mods, self@, module@, around, t@, i as int, fuel as nat, out@),
                forall|k: int| 0 <= k < out@.len() ==> #[trigger] out@[k] < self@.types.len(),
            decreases t.subs@.len() - i,
        {
            let s = &t.subs[i];
            assert(t@.subs[i as int] == s@);
            proof {
                lemma_sub_below(*t, i as int);
            }
            if s.is("type") {
                match self.interpret_type(module, scope, s, fuel) {
                    Ok(id) => {
                        out.push(id);
                    },
                    Err(e) => {
                        return Err(e);
                    },
                }
            }
            i += 1;
        }
        Ok(out)
    }
}

/// A build with one more node is as it must be.
proof fn lemma_with_node(
    b: Build,
    kw: Seq<char>,
    name: Seq<char>,
    owner: Seq<char>,
    parent: Option<usize>,
)
    requires
        build_ok(b),
        b.nodes.len() < usize::MAX,
        parent matches Some(p) ==> p < b.nodes.len() && kw != "module"@,
    ensures
        build_ok(with_node(b, kw, name, owner, parent)),
        with_node(b, kw, name, owner, parent).nodes.len() == b.nodes.len() + 1,
{
    let c = with_node(b, kw, name, owner, parent);
    assert forall|i: int| 0 <= i < c.nodes.len() implies node_ok(
        c.nodes.len() as int,
        c.types.len() as int,
        i,
        #[trigger] c.nodes[i],
    ) by {
        if i < b.nodes.len() {
            assert(node_ok(b.nodes.len() as int, b.types.len() as int, i, b.nodes[i]));
        }
    }
    assert forall|i: int| 0 <= i < c.types.len() implies type_ok(
        c.nodes.len() as int,
        c.identities.len() as int,
        i,
        #[trigger] c.types[i],
    ) by {
        assert(type_ok(b.nodes.len() as int, b.identities.len() as int, i, b.types[i]));
    }
    assert forall|i: int, k: int|
        0 <= i < c.nodes.len() && 0 <= k < c.nodes[i].children.len() implies c.nodes[(
    #[trigger] c.nodes[i].children[k]) as int].kw != "module"@ by {
        if i < b.nodes.len() && k < b.nodes[i].children.len() {
            assert(node_ok(b.nodes.len() as int, b.types.len() as int, i, b.nodes[i]));
            assert(c.nodes[i].children[k] == b.nodes[i].children[k]);
        }
    }
}

/// A build in which one node has changed is as it must be if that node is, and
/// has got no new children.
proof fn lemma_node_changed(b: Build, c: Build, id: int)
    requires
        build_ok(b),
        0 <= id < b.nodes.len(),
        c == (Build { nodes: b.nodes.update(id, c.nodes[id]), ..b }),
        node_ok(b.nodes.len() as int, b.types.len() as int, id, c.nodes[id]),
        c.nodes[id].kw == b.nodes[id].kw,
        c.nodes[id].children == b.nodes[id].children || forall|k: int|
            0 <= k < c.nodes[id].children.len() ==> b.nodes[id].children.contains(
                #[trigger] c.nodes[id].children[k],
            ),
    ensures
        build_ok(c),
{
    assert forall|i: int, k: int|
        0 <= i < c.nodes.len() && 0 <= k < c.nodes[i].children.len() implies c.nodes[(
    #[trigger] c.nodes[i].children[k]) as int].kw != "module"@ by {
        let x = c.nodes[i].children[k];
        let j = if c.nodes[i].children == b.nodes[i].children {
            k
        } else {
            choose|j: int| 0 <= j < b.nodes[i].children.len() && b.nodes[i].children[j] == x
        };
        assert(b.nodes[i].children[j] == x);
        assert(node_ok(b.nodes.len() as int, b.types.len() as int, i, b.nodes[i]));
    }
    assert forall|i: int| 0 <= i < c.nodes.len() implies node_ok(
        c.nodes.len() as int,
        c.types.len() as int,
        i,
        #[trigger] c.nodes[i],
    ) by {
        assert(node_ok(b.nodes.len() as int, b.types.len() as int, i, b.nodes[i]));
    }
}

/// The child of a node with a local name.
fn find_by_local(nodes: &Vec<Node>, types: usize, parent: NodeId, local: &str) -> (r: Option<NodeId>)
    requires
        nodes_ok(node_views(nodes@), types as int),
        parent < nodes@.len(),
    ensures
        r == by_local(node_views(nodes@), parent, local@),
        r matches Some(c) ==> c < nodes@.len(),
{
    let ghost views = node_views(nodes@);
    let children = &nodes[parent].children;
    assert(node_ok(nodes@.len() as int, types as int, parent as int, views[parent as int]));
    let mut i: usize = 0;
    while i < children.len()
        invariant
            i <= children@.len(),
            views == node_views(nodes@),
            parent < nodes@.len(),
            node_ok(nodes@.len() as int, types as int, parent as int, views[parent as int]),
            children@ == views[parent as int].children,
            by_local(views, parent, local@) == local_child(views, children@, local@, i as int),
        decreases children@.len() - i,
    {
        let c = children[i];
        assert(views[parent as int].children[i as int] == c);
        let name = nodes[c].local_name();
        if same(name.as_str(), local) {
            return Some(c);
        }
        i += 1;
    }
    None
}

/// The node that some segments lead to, or the place of the segment that
/// leads nowhere.
fn descend(nodes: &Vec<Node>, types: usize, start: NodeId, segs: &Vec<String>, from: usize) -> (r:
    Result<NodeId, usize>)
    requires
        nodes_ok(node_views(nodes@), types as int),
        start < nodes@.len(),
        from <= segs@.len(),
    ensures
        match r {
            Ok(n) => descended(node_views(nodes@), start, texts(segs@), from as int) == Ok::<
                usize,
                int,
            >(n) && n < nodes@.len(),
            Err(i) => descended(node_views(nodes@), start, texts(segs@), from as int) == Err::<
                usize,
                int,
            >(i as int) && i < segs@.len(),
        },
{
    let ghost views = node_views(nodes@);
    let ghost all = texts(segs@);
    let mut cur: usize = start;
    let mut i: usize = from;
    while i < segs.len()
        invariant
            from <= i <= segs@.len(),
            views == node_views(nodes@),
            all == texts(segs@),
            nodes_ok(views, types as int),
            cur < nodes@.len(),
            descended(views, start, all, from as int) == descended(views, cur, all, i as int),
        decreases segs@.len() - i,
    {
        assert(all[i as int] == segs@[i as int]@);
        let local = local_part(segs[i].as_str());
        match find_by_local(nodes, types, cur, local.as_str()) {
            Some(c) => {
                cur = c;
            },
            None => {
                return Err(i);
            },
        }
        i += 1;
    }
    Ok(cur)
}

/// The top with a name.
fn find_root(roots: &Vec<(String, NodeId)>, name: &str) -> (r: Option<NodeId>)
    ensures
        r == root_named(root_views(roots@), name@),
        r matches Some(id) ==> exists|i: int| 0 <= i < roots@.len() && #[trigger] roots@[i].1 == id,
{
    let ghost views = root_views(roots@);
    let mut i: usize = 0;
    while i < roots.len()
        invariant
            i <= roots@.len(),
            views == root_views(roots@),
            root_from(views, name@, 0) == root_from(views, name@, i as int),
        decreases roots@.len() - i,
    {
        if same(roots[i].0.as_str(), name) {
            assert(views[i as int].1 == roots@[i as int].1);
            return Some(roots[i].1);
        }
        i += 1;
    }
    None
}

/// Sets the top with a name.
fn set_root(roots: &mut Vec<(String, NodeId)>, name: &str, id: NodeId)
    ensures
        root_views(final(roots)@) == with_root(root_views(old(roots)@), name@, id),
        forall|n: int|
            roots_ok(root_views(old(roots)@), n) && id < n ==> roots_ok(
                #[trigger] root_views(final(roots)@),
                n,
            ),
{
    let ghost before = root_views(roots@);
    let mut i: usize = 0;
    while i < roots.len()
        invariant
            i <= roots@.len(),
            before == root_views(roots@),
            before == root_views(old(roots)@),
            root_from(before, name@, 0) == root_from(before, name@, i as int),
        decreases roots@.len() - i,
    {
        if same(roots[i].0.as_str(), name) {
            roots[i] = (owned(name), id);
            assert(root_views(roots@) =~= before.update(i as int, (name@, id)));
            return;
        }
        i += 1;
    }
    roots.push((owned(name), id));
    assert(root_views(roots@) =~= before.push((name@, id)));
}

/// Whether a keyword makes a node.
fn is_schema_node(kw: &str) -> (r: bool)
    ensures
        r == makes_node(kw@),
{
    same(kw, "container") || same(kw, "leaf") || same(kw, "leaf-list") || same(kw, "list") || same(
        kw,
        "choice",
    ) || same(kw, "case") || same(kw, "rpc") || same(kw, "action") || same(kw, "input") || same(
        kw,
        "output",
    ) || same(kw, "notification") || same(kw, "anydata") || same(kw, "anyxml")
}

/// Whether a keyword directly in a choice stands for a case of its own.
fn is_implicit_case(kw: &str) -> (r: bool)
    ensures
        r == is_short_case(kw@),
{
    same(kw, "container") || same(kw, "leaf") || same(kw, "leaf-list") || same(kw, "list") || same(
        kw,
        "choice",
    ) || same(kw, "anydata") || same(kw, "anyxml")
}

/// A name qualified by a module.
fn qualify_top_level(module: &str, local: &str) -> (r: String)
    ensures
        r@ == in_module(module@, local@),
{
    cat3(module, ":", local)
}

/// No node below a module is one.
proof fn lemma_no_module(kw: Seq<char>)
    ensures
        makes_node(kw) ==> kw != "module"@,
        "input"@ != "module"@,
        "output"@ != "module"@,
        "case"@ != "module"@,
{
    reveal_strlit("module");
    reveal_strlit("input");
    reveal_strlit("output");
    reveal_strlit("case");
    reveal_strlit("container");
    reveal_strlit("leaf");
    reveal_strlit("leaf-list");
    reveal_strlit("list");
    reveal_strlit("choice");
    reveal_strlit("rpc");
    reveal_strlit("action");
    reveal_strlit("notification");
    reveal_strlit("anydata");
    reveal_strlit("anyxml");
    assert("module"@.len() == 6 && "module"@[0] == 'm');
    assert("output"@[0] == 'o');
}

impl<'a> Builder<'a> {
    /// Adds a node.
    fn new_node(&mut self, kw: &str, name: String, owner: &str, parent: Option<NodeId>) -> (r:
        NodeId)
        requires
            old(self).wf(),
            parent matches Some(p) ==> p < old(self)@.nodes.len() && kw@ != "module"@,
        ensures
            final(self).wf(),
            final(self).modules == old(self).modules,
            final(self)@ == with_node(old(self)@, kw@, name@, owner@, parent),
            r == old(self)@.nodes.len(),
            final(self)@.nodes.len() == old(self)@.nodes.len() + 1,
    {
        let id: usize = self.nodes.len();
        let ghost before = self@;
        let node = Node {
            kw: owned(kw),
            name,
            parent,
            children: Vec::new(),
            config: true,
            mandatory: false,
            type_id: None,
            keys: Vec::new(),
            sid: None,
            owner_module: owned(owner),
            description: None,
        };
        self.nodes.push(node);
        let ghost mid = self@.nodes;
        proof {
            assert(node@ =~= NodeView {
                kw: kw@,
                name: name@,
                parent,
                children: Seq::empty(),
                config: true,
                mandatory: false,
                type_id: None,
                keys: Seq::empty(),
                sid: None,
                owner_module: owner@,
                description: None,
            });
            assert(mid =~= before.nodes.push(node@));
            assert(self@.nodes.len() == self.nodes.len());
        }
        if let Some(p) = parent {
            self.nodes[p].children.push(id);
            assert(self@.nodes =~= mid.update(
                p as int,
                NodeView { children: mid[p as int].children.push(id), ..mid[p as int] },
            ));
        }
        proof {
            assert(self@ =~= with_node(before, kw@, name@, owner@, parent));
            lemma_with_node(before, kw@, name@, owner@, parent);
        }
        id
    }

    /// The node that a path leads to from a node.
    fn resolve_relative_path(&self, root: NodeId, path: &str) -> (r: Result<NodeId, SchemaError>)
        requires
            self.wf(),
            root < self@.nodes.len(),
        ensures
            match r {
                Ok(n) => relative_target(self@.nodes, root, path@) == Ok::<usize, Seq<char>>(n) && n
                    < self@.nodes.len(),
                Err(e) => relative_target(self@.nodes, root, path@) == Err::<usize, Seq<char>>(
                    e.0@,
                ),
            },
    {
        let segs = split_segments(path, '/');
        match descend(&self.nodes, self.types.len(), root, &segs, 0) {
            Ok(n) => Ok(n),
            Err(i) => {
                assert(texts(segs@)[i as int] == segs@[i as int]@);
                let seg = quoted(segs[i].as_str());
                let whole = quoted(path);
                Err(
                    SchemaError(
                        cat5(
                            "augment target segment ",
                            seg.as_str(),
                            " not found (relative path ",
                            whole.as_str(),
                            ")",
                        ),
                    ),
                )
            },
        }
    }

    /// The node that an absolute path leads to.
    fn resolve_absolute_schema_node_id(&self, current: &str, path: &str) -> (r: Result<
        NodeId,
        SchemaError,
    >)
        requires
            self.wf(),
        ensures
            match r {
                Ok(n) => absolute_target(self.mods(), self@, current@, path@) == Ok::<
                    usize,
                    Seq<char>,
                >(n) && n < self@.nodes.len(),
                Err(e) => absolute_target(self.mods(), self@, current@, path@) == Err::<
                    usize,
                    Seq<char>,
                >(e.0@),
            },
    {
        let segs = split_segments(path, '/');
        let ghost all = texts(segs@);
        if segs.len() == 0 {
            let whole = quoted(path);
            return Err(SchemaError(cat("empty schema-node-id ", whole.as_str())));
        }
        assert(all[0] == segs@[0]@);
        let (module, local) = split_qualified(self.modules, current, segs[0].as_str())?;
        let root = match find_root(&self.module_root, module.as_str()) {
            Some(root) => root,
            None => {
                let m = quoted(module.as_str());
                let whole = quoted(path);
                return Err(
                    SchemaError(
                        cat4("unknown target module ", m.as_str(), " in ", whole.as_str()),
                    ),
                );
            },
        };
        proof {
            let i = choose|i: int|
                0 <= i < self.module_root@.len() && #[trigger] self.module_root@[i].1 == root;
            assert(self@.module_root[i].1 == root);
        }
        let first = match find_by_local(&self.nodes, self.types.len(), root, local.as_str()) {
            Some(first) => first,
            None => {
                let l = quoted(local.as_str());
                let m = quoted(module.as_str());
                let whole = quoted(path);
                return Err(
                    SchemaError(
                        cat(
                            cat5(
                                "target segment ",
                                l.as_str(),
                                " not found in module ",
                                m.as_str(),
                                " (",
                            ).as_str(),
                            whole.as_str(),
                        ).concat(")"),
                    ),
                );
            },
        };
        match descend(&self.nodes, self.types.len(), first, &segs, 1) {
            Ok(n) => Ok(n),
            Err(i) => {
                assert(all[i as int] == segs@[i as int]@);
                let seg = quoted(segs[i].as_str());
                let whole = quoted(path);
                Err(
                    SchemaError(
                        cat5("target segment ", seg.as_str(), " not found (", whole.as_str(), ")"),
                    ),
                )
            },
        }
    }

    /// Takes in all substatements below a node.
    fn interpret_children(
        &mut self,
        resolve: &str,
        naming: &str,
        scope: &[&Stmt],
        s: &Stmt,
        parent: NodeId,
        fuel: u128,
    ) -> (r: Result<(), SchemaError>)
        requires
            old(self).wf(),
            parent < old(self)@.nodes.len(),
        ensures
            final(self).modules == old(self).modules,
            ({
                let all = children_made(
                    old(self).mods(),
                    old(self)@,
                    resolve@,
                    naming@,
                    scope_views(scope@),
                    s@,
                    0,
                    parent,
                    fuel as nat,
                );
                match r {
                    Ok(_) => {
                        &&& all == Ok::<Build, Seq<char>>(final(self)@)
                        &&& final(self).wf()
                        &&& grown(old(self)@, final(self)@)
                    },
                    Err(e) => all == Err::<Build, Seq<char>>(e.0@),
                }
            }),
        decreases fuel, s, 0int, 0int,
    {
        proof {
            lemma_stmt_view(*s);
        }
        let ghost start = self@;
        let ghost mods = self.mods();
        let mut i: usize = 0;
        while i < s.subs.len()
            invariant
                i <= s.subs@.len(),
                s@.subs == stmt_views(s.subs@),
                self.wf(),
                self.modules == old(self).modules,
                mods == old(self).mods(),
                mods == self.mods(),
                start == old(self)@,
                grown(start, self@),
                parent < start.nodes.len(),
                children_made(mods, start, resolve@, naming@, scope_views(scope@), s@, 0, parent, fuel as nat)
                    == children_made(
                    mods,
                    self@,
                    resolve@,
                    naming@,
                    scope_views(scope@),
                    s@,
                    i as int,
                    parent,
                    fuel as nat,
                ),
            decreases s.subs@.len() - i,
        {
            assert(s@.subs[i as int] == s.subs@[i as int]@);
            proof {
                lemma_sub_below(*s, i as int);
            }
            self.interpret_one(resolve, naming, scope, &s.subs[i], parent, fuel)?;
            i += 1;
        }
        Ok(())
    }

    /// Takes in a statement below a node.
    fn interpret_one(
        &mut self,
        resolve: &str,
        naming: &str,
        scope: &[&Stmt],
        s: &Stmt,
        parent: NodeId,
        fuel: u128,
    ) -> (r: Result<(), SchemaError>)
        requires
            old(self).wf(),
            parent < old(self)@.nodes.len(),
        ensures
            final(self).modules == old(self).modules,
            ({
                let all = made(
                    old(self).mods(),
                    old(self)@,
                    resolve@,
                    naming@,
                    scope_views(scope@),
                    s@,
                    parent,
                    fuel as nat,
                );
                match r {
                    Ok(_) => {
                        &&& all == Ok::<Build, Seq<char>>(final(self)@)
                        &&& final(self).wf()
                        &&& grown(old(self)@, final(self)@)
                    },
                    Err(e) => all == Err::<Build, Seq<char>>(e.0@),
                }
            }),
        decreases fuel, s, 3int, 0int,
    {
        if s.prefix.is_some() {
            return self.interpret_extension(naming, s, fuel);
        }
        if is_schema_node(s.keyword.as_str()) {
            return self.interpret_schema_node(resolve, naming, scope, s, parent, fuel);
        }
        if same(s.keyword.as_str(), "uses") {
            return self.interpret_uses(resolve, naming, scope, s, parent, fuel);
        }
        if same(s.keyword.as_str(), "augment") {
            let target = self.resolve_absolute_schema_node_id(resolve, s.arg_str())?;
            let inner = within(scope, s);
            return self.interpret_augment(resolve, naming, inner.as_slice(), s, target, fuel);
        }
        Ok(())
    }

    /// Takes in an extension statement.
    fn interpret_extension(&mut self, naming: &str, s: &Stmt, fuel: u128) -> (r: Result<
        (),
        SchemaError,
    >)
        requires
            old(self).wf(),
        ensures
            final(self).modules == old(self).modules,
            ({
                let all = extension_made(
                    old(self).mods(),
                    old(self)@,
                    naming@,
                    s@,
                    fuel as nat,
                );
                match r {
                    Ok(_) => {
                        &&& all == Ok::<Build, Seq<char>>(final(self)@)
                        &&& final(self).wf()
                        &&& grown(old(self)@, final(self)@)
                    },
                    Err(e) => all == Err::<Build, Seq<char>>(e.0@),
                }
            }),
        decreases fuel, s, 2int, 0int,
    {
        proof {
            lemma_stmt_view(*s);
            lemma_find_kind(s@.subs, "container"@, 0);
        }
        if !same(s.keyword.as_str(), "yang-data") {
            return Ok(());
        }
        if let Some(container) = s.sub("container") {
            let name = qualify_top_level(naming, container.arg_str());
            let root = self.new_node("container", name.clone(), naming, None);
            let top: Vec<&Stmt> = Vec::new();
            let outer = within(top.as_slice(), s);
            let inner = within(outer.as_slice(), container);
            assert(scope_views(inner@) =~= seq![s@, container@]);
            self.interpret_children(naming, naming, inner.as_slice(), container, root, fuel)?;
            let ghost mid = self@;
            set_root(&mut self.data_roots, name.as_str(), root);
            proof {
                assert(self@ =~= Build {
                    data_roots: with_root(mid.data_roots, name@, root),
                    ..mid
                });
                assert(roots_ok(self@.data_roots, self@.nodes.len() as int));
            }
        }
        Ok(())
    }

    /// Takes in a statement that makes a node.
    fn interpret_schema_node(
        &mut self,
        resolve: &str,
        naming: &str,
        scope: &[&Stmt],
        s: &Stmt,
        parent: NodeId,
        fuel: u128,
    ) -> (r: Result<(), SchemaError>)
        requires
            old(self).wf(),
            parent < old(self)@.nodes.len(),
            makes_node(s@.keyword),
        ensures
            final(self).modules == old(self).modules,
            ({
                let all = node_made(
                    old(self).mods(),
                    old(self)@,
                    resolve@,
                    naming@,
                    scope_views(scope@),
                    s@,
                    parent,
                    fuel as nat,
                );
                match r {
                    Ok(_) => {
                        &&& all == Ok::<Build, Seq<char>>(final(self)@)
                        &&& final(self).wf()
                        &&& grown(old(self)@, final(self)@)
                    },
                    Err(e) => all == Err::<Build, Seq<char>>(e.0@),
                }
            }),
        decreases fuel, s, 2int, 0int,
    {
        let ghost b0 = self@;
        let kw = s.keyword.as_str();
        let local = if same(kw, "input") || same(kw, "output") {
            kw
        } else {
            s.arg_str()
        };
        let name = if same(self.nodes[parent].kw.as_str(), "module") {
            qualify_top_level(naming, local)
        } else {
            owned(local)
        };
        assert(name@ == node_name(b0, naming@, s@, parent));
        proof {
            lemma_no_module(kw@);
        }
        let node = self.new_node(kw, name, naming, Some(parent));
        self.describe(s, node, parent);
        if same(kw, "leaf") || same(kw, "leaf-list") {
            if let Some(t) = s.sub("type") {
                let limit = count_definitions(self.modules, "typedef");
                let id = self.interpret_type(resolve, scope, t, limit)?;
                self.set_type(node, id);
            }
        }
        let ghost b3 = self@;
        assert(typed(
            self.mods(),
            described(
                with_node(b0, s@.keyword, node_name(b0, naming@, s@, parent), naming@, Some(parent)),
                s@,
                parent,
            ),
            resolve@,
            scope_views(scope@),
            s@,
            node,
        ) == Ok::<Build, Seq<char>>(b3));
        if same(kw, "rpc") || same(kw, "action") {
            if s.sub("input").is_none() {
                self.new_node("input", owned("input"), naming, Some(node));
            }
            if s.sub("output").is_none() {
                self.new_node("output", owned("output"), naming, Some(node));
            }
        }
        assert(self@ == with_sides(b3, naming@, s@, node));
        let inner = within(scope, s);
        if same(kw, "choice") {
            self.interpret_choice_body(resolve, naming, inner.as_slice(), s, node, fuel)
        } else {
            self.interpret_children(resolve, naming, inner.as_slice(), s, node, fuel)
        }
    }

    /// Sets what the statement of the last node says of it.
    fn describe(&mut self, s: &Stmt, node: NodeId, parent: NodeId)
        requires
            old(self).wf(),
            parent < old(self)@.nodes.len(),
            node == old(self)@.nodes.len() - 1,
            old(self)@.nodes[node as int].mandatory == false,
            old(self)@.nodes[node as int].description is None,
            old(self)@.nodes[node as int].keys == Seq::<Seq<char>>::empty(),
        ensures
            final(self).wf(),
            final(self).modules == old(self).modules,
            final(self)@ == described(old(self)@, s@, parent),
            final(self)@.nodes.len() == old(self)@.nodes.len(),
    {
        let ghost before = self@;
        let config: bool = match s.sub("config") {
            Some(c) => same(c.arg_str(), "true"),
            None => self.nodes[parent].config,
        };
        self.nodes[node].config = config;
        if let Some(m) = s.sub("mandatory") {
            let mandatory: bool = same(m.arg_str(), "true");
            self.nodes[node].mandatory = mandatory;
        }
        if let Some(d) = s.sub("description") {
            self.nodes[node].description = Some(owned(d.arg_str()));
        }
        if same(s.keyword.as_str(), "list") {
            if let Some(k) = s.sub("key") {
                self.nodes[node].keys = split_words(k.arg_str());
            }
        }
        proof {
            assert(self@.nodes =~= described(before, s@, parent).nodes);
            assert(self@ =~= described(before, s@, parent));
            assert(node_ok(
                before.nodes.len() as int,
                before.types.len() as int,
                node as int,
                before.nodes[node as int],
            ));
            lemma_node_changed(before, self@, node as int);
        }
    }

    /// Sets the type of a node.
    fn set_type(&mut self, node: NodeId, id: TypeId)
        requires
            old(self).wf(),
            node < old(self)@.nodes.len(),
            id < old(self)@.types.len(),
        ensures
            final(self).wf(),
            final(self).modules == old(self).modules,
            final(self)@ == with_node_type(old(self)@, node, id),
    {
        let ghost before = self@;
        self.nodes[node].type_id = Some(id);
        proof {
            assert(self@.nodes =~= with_node_type(before, node, id).nodes);
            assert(self@ =~= with_node_type(before, node, id));
            assert(node_ok(
                before.nodes.len() as int,
                before.types.len() as int,
                node as int,
                before.nodes[node as int],
            ));
            lemma_node_changed(before, self@, node as int);
        }
    }

    /// Takes in the substatements of a choice.
    fn interpret_choice_body(
        &mut self,
        resolve: &str,
        naming: &str,
        scope: &[&Stmt],
        s: &Stmt,
        choice: NodeId,
        fuel: u128,
    ) -> (r: Result<(), SchemaError>)
        requires
            old(self).wf(),
            choice < old(self)@.nodes.len(),
        ensures
            final(self).modules == old(self).modules,
            ({
                let all = cases_made(
                    old(self).mods(),
                    old(self)@,
                    resolve@,
                    naming@,
                    scope_views(scope@),
                    s@,
                    0,
                    choice,
                    fuel as nat,
                );
                match r {
                    Ok(_) => {
                        &&& all == Ok::<Build, Seq<char>>(final(self)@)
                        &&& final(self).wf()
                        &&& grown(old(self)@, final(self)@)
                    },
                    Err(e) => all == Err::<Build, Seq<char>>(e.0@),
                }
            }),
        decreases fuel, s, 0int, 0int,
    {
        proof {
            lemma_stmt_view(*s);
        }
        let ghost start = self@;
        let ghost mods = self.mods();
        let mut i: usize = 0;
        while i < s.subs.len()
            invariant
                i <= s.subs@.len(),
                s@.subs == stmt_views(s.subs@),
                self.wf(),
                self.modules == old(self).modules,
                mods == old(self).mods(),
                mods == self.mods(),
                start == old(self)@,
                grown(start, self@),
                choice < start.nodes.len(),
                cases_made(mods, start, resolve@, naming@, scope_views(scope@), s@, 0, choice, fuel as nat)
                    == cases_made(
                    mods,
                    self@,
                    resolve@,
                    naming@,
                    scope_views(scope@),
                    s@,
                    i as int,
                    choice,
                    fuel as nat,
                ),
            decreases s.subs@.len() - i,
        {
            let sub = &s.subs[i];
            assert(s@.subs[i as int] == sub@);
            proof {
                lemma_sub_below(*s, i as int);
            }
            if sub.prefix.is_none() && is_implicit_case(sub.keyword.as_str()) {
                proof {
                    lemma_no_module(sub@.keyword);
                }
                let case = self.new_node("case", owned(sub.arg_str()), naming, Some(choice));
                self.interpret_one(resolve, naming, scope, sub, case, fuel)?;
            } else {
                self.interpret_one(resolve, naming, scope, sub, choice, fuel)?;
            }
            i += 1;
        }
        Ok(())
    }

    /// Takes in the use of a grouping.
    fn interpret_uses(
        &mut self,
        resolve: &str,
        naming: &str,
        scope: &[&Stmt],
        s: &Stmt,
        parent: NodeId,
        fuel: u128,
    ) -> (r: Result<(), SchemaError>)
        requires
            old(self).wf(),
            parent < old(self)@.nodes.len(),
        ensures
            final(self).modules == old(self).modules,
            ({
                let all = uses_made(
                    old(self).mods(),
                    old(self)@,
                    resolve@,
                    naming@,
                    scope_views(scope@),
                    s@,
                    parent,
                    fuel as nat,
                );
                match r {
                    Ok(_) => {
                        &&& all == Ok::<Build, Seq<char>>(final(self)@)
                        &&& final(self).wf()
                        &&& grown(old(self)@, final(self)@)
                    },
                    Err(e) => all == Err::<Build, Seq<char>>(e.0@),
                }
            }),
        decreases fuel, s, 2int, 0int,
    {
        proof {
            lemma_stmt_view(*s);
        }
        let (def_module, local) = split_qualified(self.modules, resolve, s.arg_str())?;
        let (raw, around) = match find_definition(
            self.modules,
            resolve,
            scope,
            "grouping",
            def_module.as_str(),
            local.as_str(),
        ) {
            Some(found) => found,
            None => {
                let shown = quoted(s.arg_str());
                return Err(
                    SchemaError(
                        cat5("grouping ", shown.as_str(), " not found (used from ", resolve, ")"),
                    ),
                );
            },
        };
        if fuel == 0 {
            let shown = quoted(s.arg_str());
            return Err(SchemaError(cat3("grouping ", shown.as_str(), " is used by itself")));
        }
        let body = within(around.as_slice(), raw);
        self.interpret_children(
            def_module.as_str(),
            naming,
            body.as_slice(),
            raw,
            parent,
            fuel - 1,
        )?;
        let inner = within(scope, s);
        let ghost start = self@;
        let ghost mods = self.mods();
        let ghost whole = uses_made(
            old(self).mods(),
            old(self)@,
            resolve@,
            naming@,
            scope_views(scope@),
            s@,
            parent,
            fuel as nat,
        );
        let mut i: usize = 0;
        while i < s.subs.len()
            invariant
                i <= s.subs@.len(),
                s@.subs == stmt_views(s.subs@),
                self.wf(),
                self.modules == old(self).modules,
                mods == old(self).mods(),
                mods == self.mods(),
                scope_views(inner@) == scope_views(scope@).push(s@),
                grown(old(self)@, self@),
                parent < old(self)@.nodes.len(),
                whole == uses_made(
                    old(self).mods(),
                    old(self)@,
                    resolve@,
                    naming@,
                    scope_views(scope@),
                    s@,
                    parent,
                    fuel as nat,
                ),
                whole == uses_augmented(
                    mods,
                    self@,
                    resolve@,
                    naming@,
                    scope_views(scope@),
                    s@,
                    i as int,
                    parent,
                    fuel as nat,
                ),
            decreases s.subs@.len() - i,
        {
            let sub = &s.subs[i];
            assert(s@.subs[i as int] == sub@);
            proof {
                lemma_sub_below(*s, i as int);
            }
            if sub.is("augment") {
                let target = self.resolve_relative_path(parent, sub.arg_str())?;
                let augment = within(inner.as_slice(), sub);
                self.interpret_augment(resolve, naming, augment.as_slice(), sub, target, fuel)?;
            }
            i += 1;
        }
        Ok(())
    }

    /// Takes in the substatements of an augment below its target.
    fn interpret_augment(
        &mut self,
        resolve: &str,
        naming: &str,
        scope: &[&Stmt],
        s: &Stmt,
        target: NodeId,
        fuel: u128,
    ) -> (r: Result<(), SchemaError>)
        requires
            old(self).wf(),
            target < old(self)@.nodes.len(),
        ensures
            final(self).modules == old(self).modules,
            ({
                let all = augment_made(
                    old(self).mods(),
                    old(self)@,
                    resolve@,
                    naming@,
                    scope_views(scope@),
                    s@,
                    0,
                    target,
                    old(self)@.nodes[target as int].owner_module,
                    fuel as nat,
                );
                match r {
                    Ok(_) => {
                        &&& all == Ok::<Build, Seq<char>>(final(self)@)
                        &&& final(self).wf()
                        &&& grown(old(self)@, final(self)@)
                    },
                    Err(e) => all == Err::<Build, Seq<char>>(e.0@),
                }
            }),
        decreases fuel, s, 0int, 0int,
    {
        proof {
            lemma_stmt_view(*s);
        }
        let owner = self.nodes[target].owner_module.clone();
        let foreign: bool = !same(naming, owner.as_str());
        let ghost start = self@;
        let ghost mods = self.mods();
        let mut i: usize = 0;
        while i < s.subs.len()
            invariant
                i <= s.subs@.len(),
                s@.subs == stmt_views(s.subs@),
                self.wf(),
                self.modules == old(self).modules,
                mods == old(self).mods(),
                mods == self.mods(),
                start == old(self)@,
                grown(start, self@),
                target < start.nodes.len(),
                owner@ == start.nodes[target as int].owner_module,
                foreign == (naming@ != owner@),
                augment_made(
                    mods,
                    start,
                    resolve@,
                    naming@,
                    scope_views(scope@),
                    s@,
                    0,
                    target,
                    owner@,
                    fuel as nat,
                ) == augment_made(
                    mods,
                    self@,
                    resolve@,
                    naming@,
                    scope_views(scope@),
                    s@,
                    i as int,
                    target,
                    owner@,
                    fuel as nat,
                ),
            decreases s.subs@.len() - i,
        {
            let sub = &s.subs[i];
            assert(s@.subs[i as int] == sub@);
            proof {
                lemma_sub_below(*s, i as int);
            }
            if sub.prefix.is_some() || is_schema_node(sub.keyword.as_str()) || same(
                sub.keyword.as_str(),
                "uses",
            ) {
                let before: usize = self.nodes[target].children.len();
                self.interpret_one(resolve, naming, scope, sub, target, fuel)?;
                if foreign {
                    self.rename_children(target, before, naming);
                }
            }
            i += 1;
        }
        Ok(())
    }

    /// Names the children of a node, from the `from`-th on, in a module.
    fn rename_children(&mut self, target: NodeId, from: usize, naming: &str)
        requires
            old(self).wf(),
            target < old(self)@.nodes.len(),
        ensures
            final(self).wf(),
            final(self).modules == old(self).modules,
            final(self)@ == (Build {
                nodes: renamed(
                    old(self)@.nodes,
                    old(self)@.nodes[target as int].children,
                    from as int,
                    naming@,
                ),
                ..old(self)@
            }),
            final(self)@.nodes.len() == old(self)@.nodes.len(),
    {
        let ghost start = self@;
        let ghost children = start.nodes[target as int].children;
        let mut k: usize = from;
        while k < self.nodes[target].children.len()
            invariant
                from <= k,
                self.wf(),
                self.modules == old(self).modules,
                start == old(self)@,
                target < start.nodes.len(),
                self@.nodes.len() == start.nodes.len(),
                children == start.nodes[target as int].children,
                self@.nodes[target as int].children == children,
                self@ == (Build { nodes: self@.nodes, ..start }),
                renamed(start.nodes, children, from as int, naming@) == renamed(
                    self@.nodes,
                    children,
                    k as int,
                    naming@,
                ),
            decreases children.len() - k,
        {
            let ghost before = self@;
            let c = self.nodes[target].children[k];
            proof {
                assert(node_ok(
                    before.nodes.len() as int,
                    before.types.len() as int,
                    target as int,
                    before.nodes[target as int],
                ));
                assert(before.nodes[target as int].children[k as int] == c);
                assert(node_ok(
                    before.nodes.len() as int,
                    before.types.len() as int,
                    c as int,
                    before.nodes[c as int],
                ));
            }
            let local = self.nodes[c].local_name();
            let name = qualify_top_level(naming, local.as_str());
            self.nodes[c].name = name;
            proof {
                assert(self@.nodes =~= before.nodes.update(
                    c as int,
                    NodeView { name: name@, ..before.nodes[c as int] },
                ));
                assert(self@ =~= Build {
                    nodes: before.nodes.update(c as int, self@.nodes[c as int]),
                    ..before
                });
                lemma_node_changed(before, self@, c as int);
            }
            k += 1;
        }
    }

    /// Takes in a module, the ones that it imports before it, unless it was
    /// begun before.
    fn ensure_module(&mut self, name: &str, fuel: usize) -> (r: Result<(), SchemaError>)
        requires
            old(self).wf(),
        ensures
            final(self).modules == old(self).modules,
            ({
                let all = module_made(old(self).mods(), old(self)@, name@, fuel as nat);
                match r {
                    Ok(_) => {
                        &&& all == Ok::<Build, Seq<char>>(final(self)@)
                        &&& final(self).wf()
                    },
                    Err(e) => all == Err::<Build, Seq<char>>(e.0@),
                }
            }),
        decreases fuel, 1int, 0int,
    {
        if position_of(self.begun.as_slice(), name).is_some() {
            return Ok(());
        }
        let raw = match find_module(self.modules, name) {
            Some(raw) => raw,
            None => {
                let shown = quoted(name);
                return Err(SchemaError(cat("unknown module ", shown.as_str())));
            },
        };
        if fuel == 0 {
            let shown = quoted(name);
            return Err(SchemaError(cat("unknown module ", shown.as_str())));
        }
        proof {
            lemma_stmt_view(*raw);
        }
        let ghost b0 = self@;
        self.begun.push(owned(name));
        let ghost b1 = self@;
        let ghost mods = self.mods();
        assert(b1.begun =~= b0.begun.push(name@));
        assert(b1 =~= Build { begun: b0.begun.push(name@), ..b0 });
        let mut i: usize = 0;
        while i < raw.subs.len()
            invariant
                i <= raw.subs@.len(),
                raw@.subs == stmt_views(raw.subs@),
                self.wf(),
                self.modules == old(self).modules,
                mods == old(self).mods(),
                mods == self.mods(),
                fuel > 0,
                b0 == old(self)@,
                b1 == (Build { begun: b0.begun.push(name@), ..b0 }),
                find_text(b0.begun, name@, 0) is None,
                module_named(mods, name@) == Some(raw@),
                imports_made(mods, b1, raw@, 0, (fuel - 1) as nat) == imports_made(
                    mods,
                    self@,
                    raw@,
                    i as int,
                    (fuel - 1) as nat,
                ),
            decreases raw.subs@.len() - i,
        {
            let sub = &raw.subs[i];
            assert(raw@.subs[i as int] == sub@);
            if sub.is("import") {
                self.ensure_module(sub.arg_str(), fuel - 1)?;
            }
            i += 1;
        }
        let ghost b2 = self@;
        register_identities(self.modules, &mut self.identities, name, raw)?;
        proof {
            assert(self@ =~= Build { identities: self@.identities, ..b2 });
            assert(self@.identities.len() == self.identities.len());
            lemma_more_types(b2, self@);
        }
        let root = self.new_node("module", owned(name), name, None);
        let ghost b3 = self@;
        set_root(&mut self.module_root, name, root);
        proof {
            assert(self@ =~= Build { module_root: with_root(b3.module_root, name@, root), ..b3 });
            assert(roots_ok(self@.module_root, self@.nodes.len() as int));
        }
        let limit = count_definitions(self.modules, "grouping");
        let top: Vec<&Stmt> = Vec::new();
        assert(scope_views(top@) =~= Seq::empty());
        self.interpret_children(name, name, top.as_slice(), raw, root, limit)
    }
}

/// The place that is found is one of the places.
proof fn lemma_find_kind(subs: Seq<StmtView>, keyword: Seq<char>, from: int)
    requires
        0 <= from,
    ensures
        find_kind(subs, keyword, from) matches Some(i) ==> from <= i < subs.len(),
    decreases subs.len() - from,
{
    if from < subs.len() && !is_kind(subs[from], keyword) {
        lemma_find_kind(subs, keyword, from + 1);
    }
}

/// Two sequences of nodes that differ in nothing but the configuration.
spec fn same_but_config(a: Seq<NodeView>, b: Seq<NodeView>) -> bool {
    &&& a.len() == b.len()
    &&& forall|i: int|
        0 <= i < a.len() ==> #[trigger] b[i] == (NodeView { config: b[i].config, ..a[i] })
}

proof fn lemma_same_but_config(b: Build, c: Build)
    requires
        build_ok(b),
        same_but_config(b.nodes, c.nodes),
        c == (Build { nodes: c.nodes, ..b }),
    ensures
        build_ok(c),
{
    assert forall|i: int| 0 <= i < c.nodes.len() implies node_ok(
        c.nodes.len() as int,
        c.types.len() as int,
        i,
        #[trigger] c.nodes[i],
    ) by {
        assert(node_ok(b.nodes.len() as int, b.types.len() as int, i, b.nodes[i]));
        assert(c.nodes[i] == (NodeView { config: c.nodes[i].config, ..b.nodes[i] }));
    }
    assert forall|i: int, k: int|
        0 <= i < c.nodes.len() && 0 <= k < c.nodes[i].children.len() implies c.nodes[(
    #[trigger] c.nodes[i].children[k]) as int].kw != "module"@ by {
        assert(node_ok(b.nodes.len() as int, b.types.len() as int, i, b.nodes[i]));
        assert(c.nodes[i] == (NodeView { config: c.nodes[i].config, ..b.nodes[i] }));
        let x = b.nodes[i].children[k];
        assert(c.nodes[x as int] == (NodeView {
            config: c.nodes[x as int].config,
            ..b.nodes[x as int]
        }));
    }
}

proof fn lemma_without(s: Seq<usize>, x: usize, n: int)
    requires
        0 <= n <= s.len(),
    ensures
        forall|k: int|
            0 <= k < without(s, x, n).len() ==> exists|j: int|
                0 <= j < n && s[j] == #[trigger] without(s, x, n)[k],
    decreases n,
{
    if n > 0 {
        lemma_without(s, x, n - 1);
        assert forall|k: int| 0 <= k < without(s, x, n).len() implies exists|j: int|
            0 <= j < n && s[j] == #[trigger] without(s, x, n)[k] by {
            if k < without(s, x, n - 1).len() {
                let j = choose|j: int| 0 <= j < n - 1 && s[j] == without(s, x, n - 1)[k];
                assert(s[j] == without(s, x, n)[k]);
            } else {
                assert(s[n - 1] == without(s, x, n)[k]);
            }
        }
    }
}

/// Turns the configuration off for everything below a node.
fn propagate_config_false(nodes: &mut Vec<Node>, types: usize, node: NodeId)
    requires
        nodes_ok(node_views(old(nodes)@), types as int),
        node < old(nodes)@.len(),
    ensures
        node_views(final(nodes)@) == config_off(node_views(old(nodes)@), node, 0),
        same_but_config(node_views(old(nodes)@), node_views(final(nodes)@)),
    decreases old(nodes)@.len() - node,
{
    let ghost start = node_views(nodes@);
    let mut i: usize = 0;
    while i < nodes[node].children.len()
        invariant
            start == node_views(old(nodes)@),
            nodes_ok(start, types as int),
            node < start.len(),
            same_but_config(start, node_views(nodes@)),
            i <= start[node as int].children.len(),
            config_off(start, node, 0) == config_off(node_views(nodes@), node, i as int),
        decreases start[node as int].children.len() - i,
    {
        let ghost before = node_views(nodes@);
        let c = nodes[node].children[i];
        proof {
            assert(before[node as int].children == start[node as int].children);
            assert(node_ok(start.len() as int, types as int, node as int, start[node as int]));
            assert(start[node as int].children[i as int] == c);
        }
        nodes[c].config = false;
        let ghost off = node_views(nodes@);
        proof {
            assert(off =~= before.update(
                c as int,
                NodeView { config: false, ..before[c as int] },
            ));
            assert forall|k: int| 0 <= k < off.len() implies node_ok(
                off.len() as int,
                types as int,
                k,
                #[trigger] off[k],
            ) by {
                assert(node_ok(start.len() as int, types as int, k, start[k]));
                assert(before[k] == (NodeView { config: before[k].config, ..start[k] }));
            }
        }
        propagate_config_false(nodes, types, c);
        proof {
            let after = node_views(nodes@);
            assert forall|k: int| 0 <= k < start.len() implies #[trigger] after[k] == (NodeView {
                config: after[k].config,
                ..start[k]
            }) by {
                assert(before[k] == (NodeView { config: before[k].config, ..start[k] }));
                assert(off[k] == (NodeView { config: off[k].config, ..before[k] }));
                assert(after[k] == (NodeView { config: after[k].config, ..off[k] }));
            }
            assert(after[node as int].children == before[node as int].children);
        }
        i += 1;
    }
}

impl<'a> Builder<'a> {
    /// Takes a node out of the children of its parent.
    fn remove_node(&mut self, target: NodeId)
        requires
            old(self).wf(),
            target < old(self)@.nodes.len(),
        ensures
            final(self).wf(),
            final(self).modules == old(self).modules,
            final(self)@ == without_node(old(self)@, target),
            final(self)@.nodes.len() == old(self)@.nodes.len(),
    {
        let ghost before = self@;
        assert(node_ok(
            before.nodes.len() as int,
            before.types.len() as int,
            target as int,
            before.nodes[target as int],
        ));
        if let Some(p) = self.nodes[target].parent {
            let ghost had = before.nodes[p as int].children;
            let mut kept: Vec<NodeId> = Vec::new();
            let mut i: usize = 0;
            while i < self.nodes[p].children.len()
                invariant
                    p < self@.nodes.len(),
                    self@ == before,
                    self.modules == old(self).modules,
                    had == before.nodes[p as int].children,
                    i <= had.len(),
                    kept@ == without(had, target, i as int),
                decreases had.len() - i,
            {
                let c = self.nodes[p].children[i];
                if c != target {
                    kept.push(c);
                }
                i += 1;
            }
            self.nodes[p].children = kept;
            proof {
                assert(self@.nodes =~= without_node(before, target).nodes);
                assert(self@ =~= without_node(before, target));
                assert(node_ok(
                    before.nodes.len() as int,
                    before.types.len() as int,
                    p as int,
                    before.nodes[p as int],
                ));
                lemma_without(had, target, had.len() as int);
                assert forall|k: int| 0 <= k < kept@.len() implies p < #[trigger] kept@[k]
                    < before.nodes.len() by {
                    let j = choose|j: int| 0 <= j < had.len() && had[j] == kept@[k];
                    assert(p < had[j] < before.nodes.len());
                }
                lemma_node_changed(before, self@, p as int);
            }
        }
    }

    /// Takes in one deviation of a node.
    fn deviate(&mut self, module: &str, target: NodeId, d: &Stmt) -> (r: Result<(), SchemaError>)
        requires
            old(self).wf(),
            target < old(self)@.nodes.len(),
        ensures
            final(self).modules == old(self).modules,
            match r {
                Ok(_) => {
                    &&& deviated(old(self).mods(), old(self)@, module@, target, d@) == Ok::<
                        Build,
                        Seq<char>,
                    >(final(self)@)
                    &&& final(self).wf()
                    &&& final(self)@.nodes.len() == old(self)@.nodes.len()
                },
                Err(e) => deviated(old(self).mods(), old(self)@, module@, target, d@) == Err::<
                    Build,
                    Seq<char>,
                >(e.0@),
            },
    {
        if same(d.arg_str(), "not-supported") {
            self.remove_node(target);
            return Ok(());
        }
        if !same(d.arg_str(), "replace") {
            return Ok(());
        }
        if let Some(cfg) = d.sub("config") {
            let on: bool = same(cfg.arg_str(), "true");
            let ghost before = self@;
            assert(node_ok(
                before.nodes.len() as int,
                before.types.len() as int,
                target as int,
                before.nodes[target as int],
            ));
            self.nodes[target].config = on;
            let ghost mid = self@;
            proof {
                assert(mid.nodes =~= before.nodes.update(
                    target as int,
                    NodeView { config: on, ..before.nodes[target as int] },
                ));
                lemma_node_changed(before, mid, target as int);
            }
            if !on {
                let types: usize = self.types.len();
                propagate_config_false(&mut self.nodes, types, target);
                proof {
                    assert(self@ =~= Build { nodes: self@.nodes, ..mid });
                    lemma_same_but_config(mid, self@);
                }
            }
        }
        if let Some(t) = d.sub("type") {
            let limit = count_definitions(self.modules, "typedef");
            let top: Vec<&Stmt> = Vec::new();
            assert(scope_views(top@) =~= Seq::empty());
            let id = self.interpret_type(module, top.as_slice(), t, limit)?;
            self.set_type(target, id);
        }
        Ok(())
    }

    /// Takes in the deviations of a module.
    fn deviate_module(&mut self, m: &Stmt) -> (r: Result<(), SchemaError>)
        requires
            old(self).wf(),
        ensures
            final(self).modules == old(self).modules,
            ({
                let all = deviations_made(
                    old(self).mods(),
                    old(self)@,
                    arg_of(m@),
                    m@.subs,
                    m@.subs.len() as int,
                );
                match r {
                    Ok(_) => all == Ok::<Build, Seq<char>>(final(self)@) && final(self).wf(),
                    Err(e) => all == Err::<Build, Seq<char>>(e.0@),
                }
            }),
    {
        proof {
            lemma_stmt_view(*m);
        }
        let module = m.arg_str();
        let ghost start = self@;
        let ghost mods = self.mods();
        let mut i: usize = 0;
        while i < m.subs.len()
            invariant
                i <= m.subs@.len(),
                m@.subs == stmt_views(m.subs@),
                self.wf(),
                self.modules == old(self).modules,
                mods == old(self).mods(),
                mods == self.mods(),
                start == old(self)@,
                module@ == arg_of(m@),
                deviations_made(mods, start, module@, m@.subs, i as int) == Ok::<Build, Seq<char>>(
                    self@,
                ),
            decreases m.subs@.len() - i,
        {
            let dev = &m.subs[i];
            assert(m@.subs[i as int] == dev@);
            if dev.is("deviation") {
                match self.deviate_target(module, dev) {
                    Ok(_) => {},
                    Err(e) => {
                        proof {
                            lemma_deviations_fail(
                                mods,
                                start,
                                module@,
                                m@.subs,
                                i + 1,
                                m@.subs.len() as int,
                            );
                        }
                        return Err(e);
                    },
                }
            }
            i += 1;
        }
        Ok(())
    }

    /// Takes in one deviation statement.
    fn deviate_target(&mut self, module: &str, dev: &Stmt) -> (r: Result<(), SchemaError>)
        requires
            old(self).wf(),
        ensures
            final(self).modules == old(self).modules,
            ({
                let all = match absolute_target(
                    old(self).mods(),
                    old(self)@,
                    module@,
                    arg_of(dev@),
                ) {
                    Err(e) => Err(e),
                    Ok(target) => deviates_made(
                        old(self).mods(),
                        old(self)@,
                        module@,
                        target,
                        dev@.subs,
                        dev@.subs.len() as int,
                    ),
                };
                match r {
                    Ok(_) => all == Ok::<Build, Seq<char>>(final(self)@) && final(self).wf(),
                    Err(e) => all == Err::<Build, Seq<char>>(e.0@),
                }
            }),
    {
        proof {
            lemma_stmt_view(*dev);
        }
        let target = self.resolve_absolute_schema_node_id(module, dev.arg_str())?;
        let ghost start = self@;
        let ghost mods = self.mods();
        let mut i: usize = 0;
        while i < dev.subs.len()
            invariant
                i <= dev.subs@.len(),
                dev@.subs == stmt_views(dev.subs@),
                self.wf(),
                self.modules == old(self).modules,
                mods == old(self).mods(),
                mods == self.mods(),
                start == old(self)@,
                absolute_target(mods, start, module@, arg_of(dev@)) == Ok::<usize, Seq<char>>(
                    target,
                ),
                target < start.nodes.len(),
                self@.nodes.len() == start.nodes.len(),
                deviates_made(mods, start, module@, target, dev@.subs, i as int) == Ok::<
                    Build,
                    Seq<char>,
                >(self@),
            decreases dev.subs@.len() - i,
        {
            let d = &dev.subs[i];
            assert(dev@.subs[i as int] == d@);
            if d.is("deviate") {
                match self.deviate(module, target, d) {
                    Ok(_) => {},
                    Err(e) => {
                        proof {
                            lemma_deviates_fail(
                                mods,
                                start,
                                module@,
                                target,
                                dev@.subs,
                                i + 1,
                                dev@.subs.len() as int,
                            );
                        }
                        return Err(e);
                    },
                }
            }
            i += 1;
        }
        Ok(())
    }

    /// Takes in the deviations of all modules.
    fn apply_deviations(&mut self) -> (r: Result<(), SchemaError>)
        requires
            old(self).wf(),
        ensures
            final(self).modules == old(self).modules,
            ({
                let all = all_deviations_made(
                    old(self).mods(),
                    old(self)@,
                    old(self).mods().len() as int,
                );
                match r {
                    Ok(_) => all == Ok::<Build, Seq<char>>(final(self)@) && final(self).wf(),
                    Err(e) => all == Err::<Build, Seq<char>>(e.0@),
                }
            }),
    {
        let modules = self.modules;
        let ghost start = self@;
        let ghost mods = self.mods();
        let mut i: usize = 0;
        while i < modules.len()
            invariant
                i <= modules@.len(),
                modules == self.modules,
                self.wf(),
                self.modules == old(self).modules,
                mods == old(self).mods(),
                mods == self.mods(),
                mods == stmt_views(modules@),
                start == old(self)@,
                all_deviations_made(mods, start, i as int) == Ok::<Build, Seq<char>>(self@),
            decreases modules@.len() - i,
        {
            assert(mods[i as int] == modules@[i as int]@);
            match self.deviate_module(&modules[i]) {
                Ok(_) => {},
                Err(e) => {
                    proof {
                        lemma_all_deviations_fail(mods, start, i + 1, mods.len() as int);
                    }
                    return Err(e);
                },
            }
            i += 1;
        }
        Ok(())
    }

    /// The last node with a type.
    fn owner_of(&self, ty: TypeId) -> (r: Option<NodeId>)
        requires
            self.wf(),
        ensures
            r == owner_before(self@.nodes, ty, self@.nodes.len() as int),
            r matches Some(n) ==> n < self@.nodes.len(),
    {
        let mut n: usize = self.nodes.len();
        while n > 0
            invariant
                n <= self@.nodes.len(),
                self@.nodes.len() == self.nodes@.len(),
                owner_before(self@.nodes, ty, self@.nodes.len() as int) == owner_before(
                    self@.nodes,
                    ty,
                    n as int,
                ),
            decreases n,
        {
            assert(self@.nodes[n - 1] == self.nodes@[n - 1]@);
            if self.nodes[n - 1].type_id == Some(ty) {
                return Some(n - 1);
            }
            n -= 1;
        }
        None
    }

    /// The node that a relative leafref path leads to.
    fn resolve_relative_leafref(&self, node: NodeId, path: &str) -> (r: Option<NodeId>)
        requires
            self.wf(),
            node < self@.nodes.len(),
        ensures
            r == leafref_steps(self@.nodes, node, segments(path@, '/'), 0),
            r matches Some(n) ==> n < self@.nodes.len(),
    {
        let segs = split_segments(path, '/');
        let ghost all = texts(segs@);
        let types: usize = self.types.len();
        let mut cur: usize = node;
        let mut i: usize = 0;
        while i < segs.len()
            invariant
                i <= segs@.len(),
                all == texts(segs@),
                all == segments(path@, '/'),
                self.wf(),
                types == self@.types.len(),
                cur < self@.nodes.len(),
                leafref_steps(self@.nodes, node, all, 0) == leafref_steps(
                    self@.nodes,
                    cur,
                    all,
                    i as int,
                ),
            decreases segs@.len() - i,
        {
            assert(all[i as int] == segs@[i as int]@);
            assert(node_ok(
                self@.nodes.len() as int,
                self@.types.len() as int,
                cur as int,
                self@.nodes[cur as int],
            ));
            if same(segs[i].as_str(), "..") {
                match self.nodes[cur].parent {
                    Some(p) => {
                        cur = p;
                    },
                    None => {
                        return None;
                    },
                }
            } else {
                let local = local_part(segs[i].as_str());
                match find_by_local(&self.nodes, types, cur, local.as_str()) {
                    Some(c) => {
                        cur = c;
                    },
                    None => {
                        return None;
                    },
                }
            }
            i += 1;
        }
        Some(cur)
    }

    /// The node that a leafref type refers to.
    fn find_leafref(&self, ty: TypeId) -> (r: Option<NodeId>)
        requires
            self.wf(),
            ty < self@.types.len(),
        ensures
            r == leafref_found(self.mods(), self@, ty),
            r matches Some(n) ==> n < self@.nodes.len(),
    {
        let t = &self.types[ty];
        assert(self@.types[ty as int] == t@);
        let path = match &t.leafref_path {
            Some(path) => path,
            None => {
                return None;
            },
        };
        let module = match &t.source_module {
            Some(module) => module,
            None => {
                return None;
            },
        };
        let clean = trim(path.as_str());
        let chars = chars_of(clean.as_str());
        if chars.len() > 0 && chars[0] == '/' {
            match self.resolve_absolute_schema_node_id(module.as_str(), clean.as_str()) {
                Ok(n) => Some(n),
                Err(_) => None,
            }
        } else {
            match self.owner_of(ty) {
                Some(node) => self.resolve_relative_leafref(node, clean.as_str()),
                None => None,
            }
        }
    }

    /// Finds the nodes that leafrefs refer to.
    fn resolve_leafrefs(&mut self)
        requires
            old(self).wf(),
        ensures
            final(self).wf(),
            final(self).modules == old(self).modules,
            final(self)@ == leafrefs_found(old(self).mods(), old(self)@),
    {
        let ghost start = self@;
        let ghost mods = self.mods();
        let mut i: usize = 0;
        while i < self.types.len()
            invariant
                i <= self@.types.len(),
                self@.types.len() == self.types@.len(),
                self.wf(),
                self.modules == old(self).modules,
                mods == old(self).mods(),
                mods == self.mods(),
                start == old(self)@,
                self@ == (Build { types: self@.types, ..start }),
                self@.types.len() == start.types.len(),
                forall|k: int|
                    0 <= k < i ==> #[trigger] self@.types[k] == with_target(mods, start, k as usize),
                forall|k: int| i <= k < start.types.len() ==> #[trigger] self@.types[k] == start.types[k],
            decreases self@.types.len() - i,
        {
            let ghost before = self@;
            assert(before.types[i as int] == self.types@[i as int]@);
            if self.types[i].builtin == Builtin::Leafref {
                let target = self.find_leafref(i);
                proof {
                    lemma_leafref_same(mods, start, before, i);
                }
                if target.is_some() {
                    self.types[i].leafref_target = target;
                    proof {
                        let ty = TypeView { leafref_target: target, ..before.types[i as int] };
                        assert(self@.types =~= before.types.update(i as int, ty));
                        assert(self@ =~= Build { types: self@.types, ..before });
                        assert(type_ok(
                            before.nodes.len() as int,
                            before.identities.len() as int,
                            i as int,
                            before.types[i as int],
                        ));
                        lemma_more_types(before, self@);
                    }
                }
            }
            i += 1;
        }
        assert(self@.types =~= leafrefs_found(mods, start).types);
    }

    /// The node that the identifier of a SID means.
    fn resolve_sid_data_identifier(&self, path: &str) -> (r: Option<NodeId>)
        requires
            self.wf(),
        ensures
            r == sid_target(self@, path@),
            r matches Some(n) ==> n < self@.nodes.len(),
    {
        let segs = split_segments(path, '/');
        let ghost all = texts(segs@);
        if segs.len() == 0 {
            return None;
        }
        assert(all[0] == segs@[0]@);
        let types: usize = self.types.len();
        let first: usize = match find_root(&self.data_roots, segs[0].as_str()) {
            Some(root) => {
                proof {
                    let i = choose|i: int|
                        0 <= i < self.data_roots@.len() && #[trigger] self.data_roots@[i].1 == root;
                    assert(self@.data_roots[i].1 == root);
                }
                root
            },
            None => {
                let chars = chars_of(segs[0].as_str());
                let n: usize = chars.len();
                let i = index_of(chars.as_slice(), ':', 0);
                if i >= n {
                    return None;
                }
                let module = text_between(chars.as_slice(), 0, i);
                let local = text_between(chars.as_slice(), i + 1, n);
                match find_root(&self.module_root, module.as_str()) {
                    Some(root) => {
                        proof {
                            let i = choose|i: int|
                                0 <= i < self.module_root@.len() && #[trigger] self.module_root@[i].1
                                    == root;
                            assert(self@.module_root[i].1 == root);
                        }
                        match find_by_local(&self.nodes, types, root, local.as_str()) {
                            Some(first) => first,
                            None => {
                                return None;
                            },
                        }
                    },
                    None => {
                        return None;
                    },
                }
            },
        };
        match descend(&self.nodes, types, first, &segs, 1) {
            Ok(n) => Some(n),
            Err(_) => None,
        }
    }

    /// Sets the SID of a node.
    fn set_sid(&mut self, node: NodeId, sid: i64)
        requires
            old(self).wf(),
            node < old(self)@.nodes.len(),
        ensures
            final(self).wf(),
            final(self).modules == old(self).modules,
            final(self)@ == with_node_sid(old(self)@, node, sid),
            final(self)@.nodes.len() == old(self)@.nodes.len(),
    {
        let ghost before = self@;
        self.nodes[node].sid = Some(sid);
        proof {
            assert(self@.nodes =~= with_node_sid(before, node, sid).nodes);
            assert(self@ =~= with_node_sid(before, node, sid));
            assert(node_ok(
                before.nodes.len() as int,
                before.types.len() as int,
                node as int,
                before.nodes[node as int],
            ));
            lemma_node_changed(before, self@, node as int);
        }
    }

    /// Attaches one SID.
    fn attach_sid(&mut self, module: &str, item: &SidItem)
        requires
            old(self).wf(),
        ensures
            final(self).wf(),
            final(self).modules == old(self).modules,
            final(self)@ == with_sid(old(self)@, module@, item@),
    {
        match item.namespace {
            Namespace::Module => {
                if let Some(root) = find_root(&self.module_root, item.identifier.as_str()) {
                    proof {
                        let i = choose|i: int|
                            0 <= i < self.module_root@.len() && #[trigger] self.module_root@[i].1
                                == root;
                        assert(self@.module_root[i].1 == root);
                    }
                    self.set_sid(root, item.sid);
                }
            },
            Namespace::Identity => {
                let found = position_of_identity(
                    &self.identities,
                    module,
                    item.identifier.as_str(),
                );
                if let Some(i) = found {
                    let ghost before = self@;
                    self.identities[i].sid = Some(item.sid);
                    proof {
                        assert(self@.identities =~= with_sid(before, module@, item@).identities);
                        assert(self@ =~= with_sid(before, module@, item@));
                        assert forall|k: int| 0 <= k < self@.identities.len() implies identity_ok(
                            self@.identities.len() as int,
                            #[trigger] self@.identities[k],
                        ) by {
                            assert(identity_ok(
                                before.identities.len() as int,
                                before.identities[k],
                            ));
                        }
                    }
                }
            },
            Namespace::Data => {
                if let Some(n) = self.resolve_sid_data_identifier(item.identifier.as_str()) {
                    self.set_sid(n, item.sid);
                }
            },
            Namespace::Feature => {},
        }
    }

    /// Attaches the SIDs of a file.
    fn attach_sids(&mut self, f: &SidFile)
        requires
            old(self).wf(),
        ensures
            final(self).wf(),
            final(self).modules == old(self).modules,
            final(self)@ == with_sids(old(self)@, f@, f@.items.len() as int),
    {
        let ghost start = self@;
        let mut i: usize = 0;
        while i < f.items.len()
            invariant
                i <= f.items@.len(),
                f.items@.len() == f@.items.len(),
                self.wf(),
                self.modules == old(self).modules,
                start == old(self)@,
                self@ == with_sids(start, f@, i as int),
            decreases f.items@.len() - i,
        {
            assert(f@.items[i as int] == f.items@[i as int]@);
            self.attach_sid(f.module_name.as_str(), &f.items[i]);
            i += 1;
        }
    }
}

proof fn lemma_deviations_fail(
    mods: Seq<StmtView>,
    b: Build,
    module: Seq<char>,
    subs: Seq<StmtView>,
    n: int,
    m: int,
)
    requires
        0 <= n <= m,
        deviations_made(mods, b, module, subs, n) is Err,
    ensures
        deviations_made(mods, b, module, subs, m) == deviations_made(mods, b, module, subs, n),
    decreases m - n,
{
    if n < m {
        lemma_deviations_fail(mods, b, module, subs, n, m - 1);
    }
}

proof fn lemma_deviates_fail(
    mods: Seq<StmtView>,
    b: Build,
    module: Seq<char>,
    target: usize,
    subs: Seq<StmtView>,
    n: int,
    m: int,
)
    requires
        0 <= n <= m,
        deviates_made(mods, b, module, target, subs, n) is Err,
    ensures
        deviates_made(mods, b, module, target, subs, m) == deviates_made(
            mods,
            b,
            module,
            target,
            subs,
            n,
        ),
    decreases m - n,
{
    if n < m {
        lemma_deviates_fail(mods, b, module, target, subs, n, m - 1);
    }
}

proof fn lemma_all_deviations_fail(mods: Seq<StmtView>, b: Build, n: int, m: int)
    requires
        0 <= n <= m,
        all_deviations_made(mods, b, n) is Err,
    ensures
        all_deviations_made(mods, b, m) == all_deviations_made(mods, b, n),
    decreases m - n,
{
    if n < m {
        lemma_all_deviations_fail(mods, b, n, m - 1);
    }
}

/// What a leafref refers to depends on no type but its own.
proof fn lemma_leafref_same(mods: Seq<StmtView>, a: Build, b: Build, ty: usize)
    requires
        a.nodes == b.nodes,
        a.module_root == b.module_root,
        a.types[ty as int] == b.types[ty as int],
    ensures
        leafref_found(mods, a, ty) == leafref_found(mods, b, ty),
{
    let t = a.types[ty as int];
    if t.leafref_path is Some && t.source_module is Some {
        let clean = trimmed(t.leafref_path->0);
        assert(absolute_target(mods, a, t.source_module->0, clean) == absolute_target(
            mods,
            b,
            t.source_module->0,
            clean,
        ));
    }
}

/// Texts of their own with the same characters.
fn copy_texts(v: &Vec<String>) -> (r: Vec<String>)
    ensures
        texts(r@) == texts(v@),
{
    let mut out: Vec<String> = Vec::new();
    let mut i: usize = 0;
    while i < v.len()
        invariant
            i <= v@.len(),
            out@.len() == i,
            forall|k: int| 0 <= k < i ==> (#[trigger] out@[k])@ == v@[k]@,
        decreases v@.len() - i,
    {
        out.push(v[i].clone());
        i += 1;
    }
    assert(texts(out@) =~= texts(v@));
    out
}

/// Whether the first `limit` nodes have no children but among themselves, and
/// no modules.
spec fn closed_below(nodes: Seq<NodeView>, limit: int) -> bool {
    forall|i: int, k: int|
        0 <= i < limit && 0 <= k < nodes[i].children.len() ==> #[trigger] nodes[i].children[k]
            < limit && nodes[nodes[i].children[k] as int].kw != "module"@
}

/// Whether the first `limit` nodes are the same.
spec fn same_below(a: Seq<NodeView>, b: Seq<NodeView>, limit: int) -> bool {
    forall|i: int| 0 <= i < limit ==> #[trigger] b[i] == a[i]
}

/// A tree with one more node is a tree.
proof fn lemma_linked(
    before: Seq<NodeView>,
    linked: Seq<NodeView>,
    root: int,
    parent: usize,
    id: usize,
)
    requires
        one_tree(before, root),
        root <= parent < before.len(),
        id == before.len(),
        linked.len() == before.len() + 1,
        linked[id as int].parent == Some(parent),
        linked[id as int].children.len() == 0,
        !is_spliced(linked[id as int].kw),
        linked[id as int].kw != "module"@,
        forall|i: int| 0 <= i < before.len() && i != parent ==> #[trigger] linked[i] == before[i],
        linked[parent as int] == (NodeView {
            children: before[parent as int].children.push(id),
            ..before[parent as int]
        }),
    ensures
        one_tree(linked, root),
{
    assert forall|i: int| root < i < linked.len() implies !is_spliced((#[trigger] linked[i]).kw)
        && linked[i].kw != "module"@ && linked[i].parent is Some && root <= linked[i].parent->0 < i
        && linked[linked[i].parent->0 as int].children.contains(i as usize) by {
        if i < before.len() {
            assert(!is_spliced(before[i].kw));
            let p = before[i].parent->0;
            assert(before[p as int].children.contains(i as usize));
            let k = choose|k: int|
                0 <= k < before[p as int].children.len() && before[p as int].children[k]
                    == i as usize;
            assert(linked[p as int].children[k] == i as usize);
        } else {
            let k = before[parent as int].children.len() as int;
            assert(linked[parent as int].children[k] == id);
        }
    }
    assert forall|i: int, k: int|
        root <= i < linked.len() && 0 <= k < linked[i].children.len() implies root
        < #[trigger] linked[i].children[k] < linked.len()
        && linked[linked[i].children[k] as int].parent == Some(i as usize) by {
        if i < before.len() {
            if k < before[i].children.len() {
                assert(linked[i].children[k] == before[i].children[k]);
            }
        }
    }
}

/// Copies a node, and all below it, below `parent`, without choices and
/// cases.
fn flatten_clone(
    nodes: &mut Vec<Node>,
    node: NodeId,
    parent: NodeId,
    limit: usize,
    types: usize,
)
    requires
        nodes_ok(node_views(old(nodes)@), types as int),
        closed_below(node_views(old(nodes)@), limit as int),
        node < limit <= parent < old(nodes)@.len(),
        node_views(old(nodes)@)[node as int].kw != "module"@,
        one_tree(node_views(old(nodes)@), limit as int),
    ensures
        node_views(final(nodes)@) == flattened(
            node_views(old(nodes)@),
            node,
            parent,
            limit as int,
        ),
        nodes_ok(node_views(final(nodes)@), types as int),
        same_below(node_views(old(nodes)@), node_views(final(nodes)@), limit as int),
        old(nodes)@.len() <= final(nodes)@.len(),
        one_tree(node_views(final(nodes)@), limit as int),
    decreases limit - node, 1int,
{
    let ghost before = node_views(nodes@);
    if same(nodes[node].kw.as_str(), "choice") || same(nodes[node].kw.as_str(), "case") {
        flatten_children(nodes, node, parent, limit, types);
        return;
    }
    let id: usize = nodes.len();
    let copy = Node {
        kw: nodes[node].kw.clone(),
        name: nodes[node].name.clone(),
        parent: Some(parent),
        children: Vec::new(),
        config: nodes[node].config,
        mandatory: nodes[node].mandatory,
        type_id: nodes[node].type_id,
        keys: copy_texts(&nodes[node].keys),
        sid: nodes[node].sid,
        owner_module: nodes[node].owner_module.clone(),
        description: match &nodes[node].description {
            Some(d) => Some(d.clone()),
            None => None,
        },
    };
    proof {
        assert(before[node as int] == nodes@[node as int]@);
        assert(copy@ =~= NodeView {
            parent: Some(parent),
            children: Seq::empty(),
            ..before[node as int]
        });
        assert(node_ok(before.len() as int, types as int, node as int, before[node as int]));
    }
    nodes.push(copy);
    let ghost more = node_views(nodes@);
    assert(more =~= before.push(copy@));
    nodes[parent].children.push(id);
    let ghost linked = node_views(nodes@);
    proof {
        assert(linked =~= more.update(
            parent as int,
            NodeView { children: more[parent as int].children.push(id), ..more[parent as int] },
        ));
        assert forall|i: int| 0 <= i < linked.len() implies node_ok(
            linked.len() as int,
            types as int,
            i,
            #[trigger] linked[i],
        ) by {
            if i < before.len() {
                assert(node_ok(before.len() as int, types as int, i, before[i]));
            }
        }
        assert forall|i: int| 0 <= i < limit implies #[trigger] linked[i] == before[i] by {}
        assert forall|i: int, k: int|
            0 <= i < limit && 0 <= k < linked[i].children.len() implies #[trigger] linked[i].children[k]
            < limit && linked[linked[i].children[k] as int].kw != "module"@ by {
            assert(linked[i] == before[i]);
            assert(before[i].children[k] < limit);
        }
    }
    proof {
        lemma_linked(before, linked, limit as int, parent, id);
    }
    flatten_children(nodes, node, id, limit, types);
    proof {
        let after = node_views(nodes@);
        assert forall|i: int| 0 <= i < limit implies #[trigger] after[i] == before[i] by {
            assert(linked[i] == before[i]);
        }
    }
}

/// Copies the children of a node, and all below them, below `parent`.
fn flatten_children(
    nodes: &mut Vec<Node>,
    node: NodeId,
    parent: NodeId,
    limit: usize,
    types: usize,
)
    requires
        nodes_ok(node_views(old(nodes)@), types as int),
        closed_below(node_views(old(nodes)@), limit as int),
        node < limit <= parent < old(nodes)@.len(),
        one_tree(node_views(old(nodes)@), limit as int),
    ensures
        node_views(final(nodes)@) == flattened_all(
            node_views(old(nodes)@),
            node,
            node_views(old(nodes)@)[node as int].children,
            0,
            parent,
            limit as int,
        ),
        nodes_ok(node_views(final(nodes)@), types as int),
        same_below(node_views(old(nodes)@), node_views(final(nodes)@), limit as int),
        old(nodes)@.len() <= final(nodes)@.len(),
        one_tree(node_views(final(nodes)@), limit as int),
    decreases limit - node, 0int,
{
    let ghost start = node_views(nodes@);
    let ghost children = start[node as int].children;
    let mut i: usize = 0;
    while i < nodes[node].children.len()
        invariant
            start == node_views(old(nodes)@),
            children == start[node as int].children,
            nodes_ok(start, types as int),
            closed_below(start, limit as int),
            node < limit <= parent < start.len(),
            one_tree(node_views(nodes@), limit as int),
            nodes_ok(node_views(nodes@), types as int),
            same_below(start, node_views(nodes@), limit as int),
            start.len() <= nodes@.len(),
            i <= children.len(),
            flattened_all(start, node, children, 0, parent, limit as int) == flattened_all(
                node_views(nodes@),
                node,
                children,
                i as int,
                parent,
                limit as int,
            ),
        decreases children.len() - i,
    {
        let ghost before = node_views(nodes@);
        let c = nodes[node].children[i];
        proof {
            assert(before[node as int] == start[node as int]);
            assert(node_ok(start.len() as int, types as int, node as int, start[node as int]));
            assert(children[i as int] == c);
            assert(start[node as int].children[i as int] < limit);
            assert forall|j: int, k: int|
                0 <= j < limit && 0 <= k < before[j].children.len() implies #[trigger] before[j].children[k]
                < limit && before[before[j].children[k] as int].kw != "module"@ by {
                assert(before[j] == start[j]);
                assert(start[j].children[k] < limit);
                assert(before[start[j].children[k] as int] == start[start[j].children[k] as int]);
            }
            assert(before[c as int] == start[c as int]);
        }
        flatten_clone(nodes, c, parent, limit, types);
        proof {
            let after = node_views(nodes@);
            assert forall|j: int| 0 <= j < limit implies #[trigger] after[j] == start[j] by {
                assert(before[j] == start[j]);
            }
            assert(after[node as int] == start[node as int]);
        }
        i += 1;
    }
    assert(node_views(nodes@)[node as int] == start[node as int]);
}

/// Adds the SIDs of a node, and of all below it, to an index.
fn index_sids(nodes: &Vec<Node>, types: usize, node: NodeId, out: &mut HashMap<i64, NodeId>)
    requires
        nodes_ok(node_views(nodes@), types as int),
        node < nodes@.len(),
        leads_back(node_views(nodes@), old(out)@),
    ensures
        final(out)@ == indexed(node_views(nodes@), node, old(out)@),
        leads_back(node_views(nodes@), final(out)@),
    decreases nodes@.len() - node,
{
    broadcast use vstd::std_specs::hash::group_hash_axioms;

    let ghost views = node_views(nodes@);
    let ghost start = out@;
    if let Some(sid) = nodes[node].sid {
        out.insert(sid, node);
    }
    let ghost own = out@;
    assert(indexed(views, node, start) == indexed_all(views, node, 0, own));
    let mut i: usize = 0;
    while i < nodes[node].children.len()
        invariant
            views == node_views(nodes@),
            nodes_ok(views, types as int),
            node < views.len(),
            i <= views[node as int].children.len(),
            leads_back(views, out@),
            indexed_all(views, node, 0, own) == indexed_all(views, node, i as int, out@),
        decreases views[node as int].children.len() - i,
    {
        let c = nodes[node].children[i];
        proof {
            assert(node_ok(views.len() as int, types as int, node as int, views[node as int]));
            assert(views[node as int].children[i as int] == c);
        }
        index_sids(nodes, types, c, out);
        i += 1;
    }
}

impl<'a> Builder<'a> {
    /// The schema that has been built.
    fn finish(self) -> (r: Schema)
        requires
            self.wf(),
        ensures
            r.wf(),
            r@ == finished(self@),
            tree_of_data(r@),
            leads_back(r@.nodes, r@.sid_index),
            sids_known(r@),
    {
        broadcast use vstd::std_specs::hash::group_hash_axioms;

        let mut b = self;
        let ghost b0 = b@;
        let limit: usize = b.nodes.len();
        let empty = String::new();
        let root = b.new_node("module", owned("data-tree-schema"), empty.as_str(), None);
        b.set_sid(root, 0);
        let ghost d = b@;
        let types: usize = b.types.len();
        proof {
            assert forall|i: int, k: int|
                0 <= i < limit && 0 <= k < d.nodes[i].children.len() implies #[trigger] d.nodes[i].children[k]
                < limit && d.nodes[d.nodes[i].children[k] as int].kw != "module"@ by {
                assert(d.nodes[i] == b0.nodes[i]);
                assert(d.nodes[b0.nodes[i].children[k] as int]
                    == b0.nodes[b0.nodes[i].children[k] as int]) by {
                    assert(node_ok(limit as int, types as int, i, b0.nodes[i]));
                }
                assert(node_ok(limit as int, types as int, i, b0.nodes[i]));
                assert(b0.nodes[i].children[k] < limit);
            }
        }
        let mut nodes: Vec<Node> = Vec::new();
        nodes.append(&mut b.nodes);
        assert(node_views(nodes@) =~= d.nodes);
        let mut i: usize = 0;
        while i < b.module_root.len()
            invariant
                i <= b.module_root@.len(),
                root_views(b.module_root@) == b0.module_root,
                roots_ok(b0.module_root, limit as int),
                root == limit,
                limit < d.nodes.len() <= nodes@.len(),
                nodes_ok(node_views(nodes@), types as int),
                closed_below(d.nodes, limit as int),
                one_tree(node_views(nodes@), limit as int),
                same_below(d.nodes, node_views(nodes@), limit as int),
                node_views(nodes@) == modules_flattened(
                    d.nodes,
                    b0.module_root,
                    root,
                    limit as int,
                    i as int,
                ),
            decreases b.module_root@.len() - i,
        {
            let m = b.module_root[i].1;
            let ghost before = node_views(nodes@);
            proof {
                assert(b0.module_root[i as int].1 == m);
                assert forall|j: int, k: int|
                    0 <= j < limit && 0 <= k < before[j].children.len() implies #[trigger] before[j].children[k]
                    < limit && before[before[j].children[k] as int].kw != "module"@ by {
                    assert(before[j] == d.nodes[j]);
                    assert(d.nodes[j].children[k] < limit);
                    assert(before[d.nodes[j].children[k] as int]
                        == d.nodes[d.nodes[j].children[k] as int]);
                }
            }
            flatten_children(&mut nodes, m, root, limit, types);
            proof {
                let after = node_views(nodes@);
                assert forall|j: int| 0 <= j < limit implies #[trigger] after[j] == d.nodes[j] by {
                    assert(before[j] == d.nodes[j]);
                }
            }
            i += 1;
        }
        let mut sid_index: HashMap<i64, NodeId> = HashMap::new();
        assert(sid_index@ =~= Map::empty());
        index_sids(&nodes, types, root, &mut sid_index);
        let ghost own = sid_index@;
        let mut k: usize = 0;
        while k < b.data_roots.len()
            invariant
                k <= b.data_roots@.len(),
                root_views(b.data_roots@) == b0.data_roots,
                roots_ok(b0.data_roots, limit as int),
                limit < nodes@.len(),
                nodes_ok(node_views(nodes@), types as int),
                leads_back(node_views(nodes@), sid_index@),
                sid_index@ == roots_indexed(node_views(nodes@), b0.data_roots, own, k as int),
            decreases b.data_roots@.len() - k,
        {
            assert(b0.data_roots[k as int].1 == b.data_roots@[k as int].1);
            index_sids(&nodes, types, b.data_roots[k].1, &mut sid_index);
            k += 1;
        }
        let s = Schema {
            nodes,
            types: b.types,
            identities: b.identities,
            module_root: b.module_root,
            root,
            sid_index,
        };
        proof {
            assert(s@.nodes.len() == s.nodes.len());
            assert(s@.types =~= b0.types);
            assert(s@.identities =~= b0.identities);
            assert(s@ =~= finished(b0));
            lemma_all_indexed(s@, b0.data_roots, Map::empty(), b0.data_roots.len() as int);
            assert forall|t: int| 0 <= t < s@.types.len() implies type_ok(
                s@.nodes.len() as int,
                s@.identities.len() as int,
                t,
                #[trigger] s@.types[t],
            ) by {
                assert(type_ok(
                    b0.nodes.len() as int,
                    b0.identities.len() as int,
                    t,
                    b0.types[t],
                ));
            }
        }
        s
    }
}

/// The message on the text of a module with a fault.
pub open spec fn fault_text(chars: Seq<char>, f: Fault) -> Seq<char> {
    decimal_text(line_at(chars, f.at)) + ":"@ + decimal_text(column_at(chars, f.at)) + ": "@
        + f.message
}

/// The first `n` texts as modules.
pub open spec fn modules_in(sources: Seq<Seq<char>>, n: int) -> Result<Seq<StmtView>, Seq<char>>
    decreases n,
{
    if n <= 0 {
        Ok(Seq::empty())
    } else {
        match modules_in(sources, n - 1) {
            Err(e) => Err(e),
            Ok(before) => {
                let chars = normalized(sources[n - 1]);
                match module_in(chars) {
                    Err(f) => Err(fault_text(chars, f)),
                    Ok(m) => Ok(before.push(m)),
                }
            },
        }
    }
}

/// The build once the SIDs of the first `n` texts have been attached.
pub open spec fn sids_attached(b: Build, sources: Seq<Seq<char>>, n: int) -> Result<Build, Seq<char>>
    decreases n,
{
    if n <= 0 {
        Ok(b)
    } else {
        match sids_attached(b, sources, n - 1) {
            Err(e) => Err(e),
            Ok(c) => match sid_file_in(sources[n - 1]) {
                Err(e) => Err(e),
                Ok(f) => Ok(with_sids(c, f, f.items.len() as int)),
            },
        }
    }
}

/// The build that modules make: all modules, then their deviations, then what
/// leafrefs refer to.
pub open spec fn modules_built(mods: Seq<StmtView>) -> Result<Build, Seq<char>> {
    match modules_made(mods, mods.len() as int) {
        Err(e) => Err(e),
        Ok(b) => match all_deviations_made(mods, b, mods.len() as int) {
            Err(e) => Err(e),
            Ok(c) => Ok(leafrefs_found(mods, c)),
        },
    }
}

/// The schema that the texts of modules and of SID files make.
pub open spec fn schema_in(yang: Seq<Seq<char>>, sids: Seq<Seq<char>>) -> Result<
    SchemaView,
    Seq<char>,
> {
    match modules_in(yang, yang.len() as int) {
        Err(e) => Err(e),
        Ok(mods) => match modules_built(mods) {
            Err(e) => Err(e),
            Ok(b) => match sids_attached(b, sids, sids.len() as int) {
                Err(e) => Err(e),
                Ok(c) => Ok(finished(c)),
            },
        },
    }
}

/// Reads the texts of modules.
fn parse_modules(sources: &[String]) -> (r: Result<Vec<Stmt>, SchemaError>)
    ensures
        match r {
            Ok(v) => modules_in(texts(sources@), sources@.len() as int) == Ok::<
                Seq<StmtView>,
                Seq<char>,
            >(stmt_views(v@)),
            Err(e) => modules_in(texts(sources@), sources@.len() as int) == Err::<
                Seq<StmtView>,
                Seq<char>,
            >(e.0@),
        },
{
    let ghost all = texts(sources@);
    let mut out: Vec<Stmt> = Vec::new();
    let mut i: usize = 0;
    assert(stmt_views(out@) =~= Seq::empty());
    while i < sources.len()
        invariant
            i <= sources@.len(),
            all == texts(sources@),
            modules_in(all, i as int) == Ok::<Seq<StmtView>, Seq<char>>(stmt_views(out@)),
        decreases sources@.len() - i,
    {
        assert(all[i as int] == sources@[i as int]@);
        let ghost had = stmt_views(out@);
        match parse_module(sources[i].as_str()) {
            Ok(m) => {
                out.push(m);
                assert(stmt_views(out@) =~= had.push(m@));
            },
            Err(e) => {
                proof {
                    lemma_modules_fail(all, i + 1, all.len() as int);
                }
                return Err(SchemaError(e.to_string()));
            },
        }
        i += 1;
    }
    Ok(out)
}

proof fn lemma_modules_fail(sources: Seq<Seq<char>>, n: int, m: int)
    requires
        0 <= n <= m,
        modules_in(sources, n) is Err,
    ensures
        modules_in(sources, m) == modules_in(sources, n),
    decreases m - n,
{
    if n < m {
        lemma_modules_fail(sources, n, m - 1);
    }
}

proof fn lemma_made_fail(mods: Seq<StmtView>, n: int, m: int)
    requires
        0 <= n <= m,
        modules_made(mods, n) is Err,
    ensures
        modules_made(mods, m) == modules_made(mods, n),
    decreases m - n,
{
    if n < m {
        lemma_made_fail(mods, n, m - 1);
    }
}

proof fn lemma_sids_fail(b: Build, sources: Seq<Seq<char>>, n: int, m: int)
    requires
        0 <= n <= m,
        sids_attached(b, sources, n) is Err,
    ensures
        sids_attached(b, sources, m) == sids_attached(b, sources, n),
    decreases m - n,
{
    if n < m {
        lemma_sids_fail(b, sources, n, m - 1);
    }
}

/// Builds a schema from statements of modules, without SIDs.
fn build_modules<'a>(parsed: &'a [Stmt]) -> (r: Result<Builder<'a>, SchemaError>)
    ensures
        match r {
            Ok(b) => modules_built(stmt_views(parsed@)) == Ok::<Build, Seq<char>>(b@) && b.wf(),
            Err(e) => modules_built(stmt_views(parsed@)) == Err::<Build, Seq<char>>(e.0@),
        },
{
    let mut b = Builder {
        modules: parsed,
        nodes: Vec::new(),
        types: Vec::new(),
        identities: Vec::new(),
        module_root: Vec::new(),
        data_roots: Vec::new(),
        begun: Vec::new(),
    };
    let ghost mods = stmt_views(parsed@);
    assert(b@ =~= nothing());
    let mut i: usize = 0;
    while i < parsed.len()
        invariant
            i <= parsed@.len(),
            mods == stmt_views(parsed@),
            b.modules == parsed,
            b.wf(),
            modules_made(mods, i as int) == Ok::<Build, Seq<char>>(b@),
        decreases parsed@.len() - i,
    {
        assert(mods[i as int] == parsed@[i as int]@);
        match b.ensure_module(parsed[i].arg_str(), parsed.len()) {
            Ok(_) => {},
            Err(e) => {
                proof {
                    lemma_made_fail(mods, i + 1, mods.len() as int);
                }
                return Err(e);
            },
        }
        i += 1;
    }
    b.apply_deviations()?;
    b.resolve_leafrefs();
    Ok(b)
}

/// Builds the schema that the texts of modules and of SID files make. Its
/// data are one tree without choices and cases, and each SID leads to a node
/// with this SID.
pub fn build(yang_sources: &[String], sid_sources: &[String]) -> (r: Result<Schema, SchemaError>)
    ensures
        match r {
            Ok(s) => schema_in(texts(yang_sources@), texts(sid_sources@)) == Ok::<
                SchemaView,
                Seq<char>,
            >(s@) && s.wf() && tree_of_data(s@) && leads_back(s@.nodes, s@.sid_index) && sids_known(s@),
            Err(e) => schema_in(texts(yang_sources@), texts(sid_sources@)) == Err::<
                SchemaView,
                Seq<char>,
            >(e.0@),
        },
{
    let parsed = parse_modules(yang_sources)?;
    let mut b = build_modules(parsed.as_slice())?;
    let ghost start = b@;
    let ghost all = texts(sid_sources@);
    let ghost mods = stmt_views(parsed@);
    let mut i: usize = 0;
    while i < sid_sources.len()
        invariant
            i <= sid_sources@.len(),
            all == texts(sid_sources@),
            mods == stmt_views(parsed@),
            modules_in(texts(yang_sources@), yang_sources@.len() as int) == Ok::<
                Seq<StmtView>,
                Seq<char>,
            >(mods),
            modules_built(mods) == Ok::<Build, Seq<char>>(start),
            b.wf(),
            sids_attached(start, all, i as int) == Ok::<Build, Seq<char>>(b@),
        decreases sid_sources@.len() - i,
    {
        assert(all[i as int] == sid_sources@[i as int]@);
        match parse_sids(sid_sources[i].as_str()) {
            Ok(f) => {
                b.attach_sids(&f);
            },
            Err(e) => {
                proof {
                    lemma_sids_fail(start, all, i + 1, all.len() as int);
                }
                return Err(SchemaError(e));
            },
        }
        i += 1;
    }
    Ok(b.finish())
}

} // verus!
