//! What modules, typedefs and types that refer to others make.
use vstd::prelude::*;

use crate::text::find_text;
use crate::text_laws::{free_of, law_the_first_is_found};
use crate::yang::meaning::{
    builtin_made, children_made, default_ranges, definition, definitions, definitions_before,
    deviated, extension_made, imports_made, made, members_made, module_made, module_named,
    nested_count, qualified, restricted, root_from, root_named, type_made, with_identities,
    with_node, with_root, Build,
};
use crate::yang::model_laws::{only_tells, tells};
use crate::yang::parser::{arg_of, find_kind, is_kind, sub_of, StmtView};
use crate::yang::schema::{bare_type, builtin_named, Builtin, IdentityView, NodeView, TypeView};

verus! {

/// The top that is found by a name is the first that has it.
pub proof fn law_tops_by_name(roots: Seq<(Seq<char>, usize)>, name: Seq<char>, from: int)
    requires
        0 <= from <= roots.len(),
    ensures
        match root_from(roots, name, from) {
            Some(i) => from <= i < roots.len() && roots[i].0 == name && forall|j: int|
                from <= j < i ==> (#[trigger] roots[j]).0 != name,
            None => forall|j: int| from <= j < roots.len() ==> (#[trigger] roots[j]).0 != name,
        },
    decreases roots.len() - from,
{
    if from < roots.len() && roots[from].0 != name {
        law_tops_by_name(roots, name, from + 1);
    }
}

/// A top that is put in is found by its name, and the others are found as
/// before.
pub proof fn law_tops_are_put_in(
    roots: Seq<(Seq<char>, usize)>,
    name: Seq<char>,
    id: usize,
    other: Seq<char>,
)
    ensures
        root_named(with_root(roots, name, id), name) == Some(id),
        other != name ==> root_named(with_root(roots, name, id), other) == root_named(roots, other),
{
    let now = with_root(roots, name, id);
    law_tops_by_name(roots, name, 0);
    law_tops_by_name(now, name, 0);
    law_tops_by_name(roots, other, 0);
    law_tops_by_name(now, other, 0);
    let at = match root_from(roots, name, 0) {
        Some(i) => i,
        None => roots.len() as int,
    };
    assert(now[at] == (name, id));
    let k = root_from(now, name, 0)->0;
    assert(k == at) by {
        if k < at {
            assert(now[k] == roots[k]);
        }
    }
    if other != name {
        match (root_from(roots, other, 0), root_from(now, other, 0)) {
            (Some(i), Some(j)) => {
                assert(now[i].0 == roots[i].0);
                assert(roots[j].0 == now[j].0);
                assert(i == j);
            },
            (Some(i), None) => {
                assert(now[i].0 == roots[i].0);
            },
            (None, Some(j)) => {
                if j < roots.len() {
                    assert(roots[j].0 == now[j].0);
                }
            },
            _ => {},
        }
    }
}

/// Whether all statements of a module only say something of it: it imports
/// nothing and defines no identity, and makes no data.
pub open spec fn bare(m: StmtView) -> bool {
    &&& only_tells(m)
    &&& forall|i: int|
        0 <= i < m.subs.len() ==> (#[trigger] m.subs[i]).keyword != "import"@ && m.subs[i].keyword
            != "identity"@
}

/// A module without imports needs no other.
proof fn lemma_no_imports(mods: Seq<StmtView>, b: Build, m: StmtView, i: int, fuel: nat)
    requires
        bare(m),
        0 <= i <= m.subs.len(),
    ensures
        imports_made(mods, b, m, i, fuel) == Ok::<Build, Seq<char>>(b),
    decreases m.subs.len() - i,
{
    if i < m.subs.len() {
        assert(m.subs[i].keyword != "import"@);
        lemma_no_imports(mods, b, m, i + 1, fuel);
    }
}

/// A module without identities adds none.
proof fn lemma_no_identities(
    mods: Seq<StmtView>,
    ids: Seq<IdentityView>,
    name: Seq<char>,
    m: StmtView,
    n: int,
)
    requires
        bare(m),
        0 <= n <= m.subs.len(),
    ensures
        with_identities(mods, ids, name, m.subs, n) == Ok::<Seq<IdentityView>, Seq<char>>(ids),
    decreases n,
{
    if n > 0 {
        assert(m.subs[n - 1].keyword != "identity"@);
        lemma_no_identities(mods, ids, name, m, n - 1);
    }
}

/// Statements that only say something make nothing.
proof fn lemma_nothing_made(
    mods: Seq<StmtView>,
    b: Build,
    name: Seq<char>,
    m: StmtView,
    i: int,
    root: usize,
    fuel: nat,
)
    requires
        only_tells(m),
        0 <= i <= m.subs.len(),
    ensures
        children_made(mods, b, name, name, Seq::empty(), m, i, root, fuel) == Ok::<
            Build,
            Seq<char>,
        >(b),
    decreases m.subs.len() - i,
{
    if i < m.subs.len() {
        assert(tells(m.subs[i]));
        assert(made(mods, b, name, name, Seq::empty(), m.subs[i], root, fuel) == Ok::<
            Build,
            Seq<char>,
        >(b));
        lemma_nothing_made(mods, b, name, m, i + 1, root, fuel);
    }
}

/// A module makes a top of its name that is configuration and has no parent; one
/// that was begun is not begun again; and one that there is not is an error.
pub proof fn law_modules_make_tops(mods: Seq<StmtView>, b: Build, name: Seq<char>, fuel: nat)
    requires
        fuel > 0,
        b.nodes.len() < usize::MAX,
    ensures
        b.begun.contains(name) ==> module_made(mods, b, name, fuel) == Ok::<Build, Seq<char>>(b),
        !b.begun.contains(name) && module_named(mods, name) is None ==> module_made(
            mods,
            b,
            name,
            fuel,
        ) is Err,
        !b.begun.contains(name) && (module_named(mods, name) matches Some(m) && bare(m)) ==> (
        module_made(mods, b, name, fuel) matches Ok(c) && {
            let n = b.nodes.len() as int;
            &&& c.nodes.len() == n + 1
            &&& c.nodes[n].kw == "module"@ && c.nodes[n].name == name && c.nodes[n].config
            &&& c.nodes[n].parent is None && c.nodes[n].children.len() == 0
            &&& root_named(c.module_root, name) == Some(n as usize)
            &&& c.begun == b.begun.push(name)
            &&& c.types == b.types && c.identities == b.identities && c.data_roots == b.data_roots
            &&& forall|i: int| 0 <= i < n ==> #[trigger] c.nodes[i] == b.nodes[i]
        }),
{
    law_the_first_is_found(b.begun, name, 0);
    if find_text(b.begun, name, 0) is Some {
        assert(b.begun.contains(name));
    } else {
        assert(!b.begun.contains(name));
    }
    if !b.begun.contains(name) {
        if let Some(raw) = module_named(mods, name) {
            if bare(raw) {
                let c = Build { begun: b.begun.push(name), ..b };
                lemma_no_imports(mods, c, raw, 0, (fuel - 1) as nat);
                lemma_no_identities(mods, c.identities, name, raw, raw.subs.len() as int);
                let root = c.nodes.len() as usize;
                let e = with_node(c, "module"@, name, name, None);
                let f = Build { module_root: with_root(e.module_root, name, root), ..e };
                lemma_nothing_made(
                    mods,
                    f,
                    name,
                    raw,
                    0,
                    root,
                    definitions(mods, "grouping"@),
                );
                law_tops_are_put_in(e.module_root, name, root, name);
                assert((Build { identities: c.identities, ..c }) == c);
            }
        }
    }
}

/// A structure of an extension is a top of its own: the name of its container,
/// qualified by the module, leads to it, and it is below no other node.
pub proof fn law_structures_are_tops(
    mods: Seq<StmtView>,
    b: Build,
    naming: Seq<char>,
    s: StmtView,
    container: StmtView,
    fuel: nat,
)
    requires
        s.keyword == "yang-data"@,
        s.subs == seq![container],
        is_kind(container, "container"@),
        container.subs.len() == 0,
        b.nodes.len() < usize::MAX,
    ensures
        extension_made(mods, b, naming, s, fuel) matches Ok(c) && {
            let n = b.nodes.len() as int;
            let name = naming + ":"@ + arg_of(container);
            &&& c.nodes.len() == n + 1
            &&& c.nodes[n].kw == "container"@ && c.nodes[n].name == name
            &&& c.nodes[n].parent is None && c.nodes[n].owner_module == naming
            &&& root_named(c.data_roots, name) == Some(n as usize)
            &&& c.module_root == b.module_root
            &&& forall|i: int| 0 <= i < n ==> #[trigger] c.nodes[i] == b.nodes[i]
        },
{
    assert(s.subs[0] == container);
    assert(find_kind(s.subs, "container"@, 0) == Some(0int));
    let name = naming + ":"@ + arg_of(container);
    let root = b.nodes.len() as usize;
    let c = with_node(b, "container"@, name, naming, None);
    assert(children_made(
        mods,
        c,
        naming,
        naming,
        seq![s, container],
        container,
        0,
        root,
        fuel,
    ) == Ok::<Build, Seq<char>>(c));
    law_tops_are_put_in(c.data_roots, name, root, name);
}

/// Any other extension means nothing.
pub proof fn law_other_extensions_mean_nothing(
    mods: Seq<StmtView>,
    b: Build,
    resolve: Seq<char>,
    naming: Seq<char>,
    scope: Seq<StmtView>,
    s: StmtView,
    parent: usize,
    fuel: nat,
)
    requires
        s.prefix is Some,
        s.keyword != "yang-data"@,
    ensures
        made(mods, b, resolve, naming, scope, s, parent, fuel) == Ok::<Build, Seq<char>>(b),
{
    assert(made(mods, b, resolve, naming, scope, s, parent, fuel) == extension_made(
        mods,
        b,
        naming,
        s,
        fuel,
    ));
}

/// A type by the name of a typedef is the type that the typedef is defined by,
/// read where it is defined, with the restrictions of its use on top.
pub proof fn law_typedefs_stand_for_their_types(
    mods: Seq<StmtView>,
    b: Build,
    module: Seq<char>,
    scope: Seq<StmtView>,
    t: StmtView,
    fuel: nat,
    d: StmtView,
    base: StmtView,
    builtin: Builtin,
)
    requires
        fuel > 0,
        builtin_named(arg_of(t)) is None,
        free_of(arg_of(t), ':'),
        definition(mods, module, scope, "typedef"@, module, arg_of(t)) == Some(
            (d, Seq::<StmtView>::empty()),
        ),
        sub_of(d, "type"@) == Some(base),
        base.subs.len() == 0,
        builtin_named(arg_of(base)) == Some(builtin),
        builtin == Builtin::Boolean || builtin == Builtin::String || builtin == Builtin::Uint8
            || builtin == Builtin::Int32,
        b.types.len() < usize::MAX,
    ensures
        ({
            let plain = TypeView { ranges: default_ranges(builtin), ..bare_type(builtin) };
            match restricted(plain, t) {
                Ok(ty) => type_made(mods, b, module, scope, t, fuel) matches Ok((c, id)) && id
                    == b.types.len() && c.types == b.types.push(ty) && c.nodes == b.nodes
                    && c.identities == b.identities,
                Err(_) => type_made(mods, b, module, scope, t, fuel) is Err,
            }
        }),
{
    lemma_no_prefix(arg_of(t), 0);
    assert(qualified(mods, module, arg_of(t)) == Ok::<(Seq<char>, Seq<char>), Seq<char>>(
        (module, arg_of(t)),
    ));
    let plain = TypeView { ranges: default_ranges(builtin), ..bare_type(builtin) };
    let less = (fuel - 1) as nat;
    let none = Seq::<StmtView>::empty();
    assert(sub_of(base, "range"@) is None && sub_of(base, "length"@) is None);
    assert(restricted(plain, base) == Ok::<TypeView, Seq<char>>(plain));
    assert(type_made(mods, b, module, none, base, less) == builtin_made(
        mods,
        b,
        module,
        none,
        builtin,
        base,
        less,
    ));
    let c = Build { types: b.types.push(plain), ..b };
    assert(type_made(mods, b, module, none, base, less) == Ok::<(Build, usize), Seq<char>>(
        (c, b.types.len() as usize),
    ));
    if let Ok(ty) = restricted(plain, t) {
        assert(c.types.update(b.types.len() as int, ty) =~= b.types.push(ty));
    }
}

/// No prefix stands before a name without a colon.
proof fn lemma_no_prefix(s: Seq<char>, from: int)
    requires
        free_of(s, ':'),
        0 <= from <= s.len(),
    ensures
        crate::text::index_from(s, ':', from) == s.len(),
    decreases s.len() - from,
{
    if from < s.len() {
        lemma_no_prefix(s, from + 1);
    }
}

/// Where a module has a typedef or a grouping at its top, there is one to
/// follow.
pub proof fn law_definitions_are_counted(
    mods: Seq<StmtView>,
    kind: Seq<char>,
    i: int,
    k: int,
)
    requires
        0 <= i < mods.len(),
        0 <= k < mods[i].subs.len(),
        is_kind(mods[i].subs[k], kind),
    ensures
        definitions(mods, kind) > 0,
{
    lemma_counted(mods[i], kind, k, mods[i].subs.len() as int);
    lemma_counted_in_all(mods, kind, i, mods.len() as int);
}

/// A statement counts.
proof fn lemma_counted(s: StmtView, kind: Seq<char>, k: int, n: int)
    requires
        0 <= k < n <= s.subs.len(),
        is_kind(s.subs[k], kind),
    ensures
        nested_count(s, kind, n) > 0,
    decreases n,
{
    if k < n - 1 {
        lemma_counted(s, kind, k, n - 1);
    }
}

/// A module counts.
proof fn lemma_counted_in_all(mods: Seq<StmtView>, kind: Seq<char>, i: int, n: int)
    requires
        0 <= i < n <= mods.len(),
        nested_count(mods[i], kind, mods[i].subs.len() as int) > 0,
    ensures
        definitions_before(mods, kind, n) > 0,
    decreases n,
{
    if i < n - 1 {
        lemma_counted_in_all(mods, kind, i, n - 1);
    }
}

/// The members of a union are made one after the other, in their order, before
/// the union itself.
pub proof fn law_members_of_unions_keep_their_order(
    mods: Seq<StmtView>,
    b: Build,
    module: Seq<char>,
    scope: Seq<StmtView>,
    t: StmtView,
    x: StmtView,
    y: StmtView,
    fuel: nat,
    p: Builtin,
    q: Builtin,
)
    requires
        builtin_named(arg_of(t)) == Some(Builtin::Union),
        t.subs == seq![x, y],
        is_kind(x, "type"@),
        is_kind(y, "type"@),
        x.subs.len() == 0,
        y.subs.len() == 0,
        builtin_named(arg_of(x)) == Some(p),
        builtin_named(arg_of(y)) == Some(q),
        p == Builtin::Boolean || p == Builtin::String || p == Builtin::Uint8,
        q == Builtin::Boolean || q == Builtin::String || q == Builtin::Uint8,
        b.types.len() + 2 <= usize::MAX,
    ensures
        type_made(mods, b, module, scope, t, fuel) matches Ok((c, id)) && {
            let n = b.types.len() as int;
            &&& id == n + 2 && c.types.len() == n + 3
            &&& c.types[n].builtin == p && c.types[n + 1].builtin == q
            &&& c.types[n + 2].builtin == Builtin::Union
            &&& c.types[n + 2].union_members == seq![n as usize, (n + 1) as usize]
        },
{
    let n = b.types.len() as int;
    let none = Seq::<usize>::empty();
    assert(t.subs[0] == x && t.subs[1] == y);
    lemma_plain_type(mods, b, module, scope, x, fuel, p);
    let c = type_made(mods, b, module, scope, x, fuel)->Ok_0.0;
    lemma_plain_type(mods, c, module, scope, y, fuel, q);
    let d = type_made(mods, c, module, scope, y, fuel)->Ok_0.0;
    let one = none.push(n as usize);
    let two = one.push((n + 1) as usize);
    assert(two =~= seq![n as usize, (n + 1) as usize]);
    assert(members_made(mods, d, module, scope, t, 2, fuel, two) == Ok::<
        (Build, Seq<usize>),
        Seq<char>,
    >((d, two)));
    assert(members_made(mods, c, module, scope, t, 1, fuel, one) == Ok::<
        (Build, Seq<usize>),
        Seq<char>,
    >((d, two)));
    assert(members_made(mods, b, module, scope, t, 0, fuel, none) == Ok::<
        (Build, Seq<usize>),
        Seq<char>,
    >((d, two)));
    assert(type_made(mods, b, module, scope, t, fuel) == builtin_made(
        mods,
        b,
        module,
        scope,
        Builtin::Union,
        t,
        fuel,
    ));
}

/// A plain type is one more.
proof fn lemma_plain_type(
    mods: Seq<StmtView>,
    b: Build,
    module: Seq<char>,
    scope: Seq<StmtView>,
    t: StmtView,
    fuel: nat,
    p: Builtin,
)
    requires
        t.subs.len() == 0,
        builtin_named(arg_of(t)) == Some(p),
        p == Builtin::Boolean || p == Builtin::String || p == Builtin::Uint8,
        b.types.len() < usize::MAX,
    ensures
        type_made(mods, b, module, scope, t, fuel) matches Ok((c, id)) && id == b.types.len()
            && c.types.len() == b.types.len() + 1 && c.types.last().builtin == p && c.nodes
            == b.nodes && forall|i: int| 0 <= i < b.types.len() ==> #[trigger] c.types[i]
            == b.types[i],
{
    assert(sub_of(t, "range"@) is None && sub_of(t, "length"@) is None);
    assert(type_made(mods, b, module, scope, t, fuel) == builtin_made(
        mods,
        b,
        module,
        scope,
        p,
        t,
        fuel,
    ));
}

/// A reference to a leaf keeps its path and the module that it is written in.
pub proof fn law_references_keep_their_path(
    mods: Seq<StmtView>,
    b: Build,
    module: Seq<char>,
    scope: Seq<StmtView>,
    t: StmtView,
    fuel: nat,
    p: StmtView,
)
    requires
        builtin_named(arg_of(t)) == Some(Builtin::Leafref),
        sub_of(t, "path"@) == Some(p),
        b.types.len() < usize::MAX,
    ensures
        type_made(mods, b, module, scope, t, fuel) matches Ok((c, id)) && {
            &&& id == b.types.len() && c.types.len() == b.types.len() + 1
            &&& c.types.last().builtin == Builtin::Leafref
            &&& c.types.last().leafref_path == Some(arg_of(p))
            &&& c.types.last().source_module == Some(module)
            &&& c.types.last().leafref_target is None
        },
{
    assert(type_made(mods, b, module, scope, t, fuel) == builtin_made(
        mods,
        b,
        module,
        scope,
        Builtin::Leafref,
        t,
        fuel,
    ));
}

/// A node whose type is replaced has the new type, and nothing else changes.
pub proof fn law_types_are_replaced(
    mods: Seq<StmtView>,
    b: Build,
    module: Seq<char>,
    target: usize,
    d: StmtView,
    t: StmtView,
    p: Builtin,
)
    requires
        arg_of(d) == "replace"@,
        sub_of(d, "config"@) is None,
        sub_of(d, "type"@) == Some(t),
        t.subs.len() == 0,
        builtin_named(arg_of(t)) == Some(p),
        p == Builtin::Boolean || p == Builtin::String || p == Builtin::Uint8,
        target < b.nodes.len(),
        b.types.len() < usize::MAX,
    ensures
        deviated(mods, b, module, target, d) matches Ok(c) && {
            &&& c.nodes.len() == b.nodes.len()
            &&& c.nodes[target as int] == NodeView {
                type_id: Some(b.types.len() as usize),
                ..b.nodes[target as int]
            }
            &&& c.types.len() == b.types.len() + 1 && c.types.last().builtin == p
            &&& forall|i: int|
                0 <= i < b.nodes.len() && i != target ==> #[trigger] c.nodes[i] == b.nodes[i]
        },
{
    reveal_strlit("replace");
    reveal_strlit("not-supported");
    assert("replace"@.len() == 7 && "not-supported"@.len() == 13);
    lemma_plain_type(mods, b, module, Seq::empty(), t, definitions(mods, "typedef"@), p);
}

/// A module comes behind the modules that it imports: their tops stand before its
/// own.
pub proof fn law_imports_come_first(
    mods: Seq<StmtView>,
    b: Build,
    name: Seq<char>,
    other: Seq<char>,
    m: StmtView,
    x: StmtView,
    import: StmtView,
    fuel: nat,
)
    requires
        fuel > 1,
        b.nodes.len() + 1 < usize::MAX,
        name != other,
        !b.begun.contains(name),
        !b.begun.contains(other),
        module_named(mods, name) == Some(m),
        module_named(mods, other) == Some(x),
        bare(x),
        m.subs == seq![import],
        is_kind(import, "import"@),
        arg_of(import) == other,
    ensures
        module_made(mods, b, name, fuel) matches Ok(c) && {
            let n = b.nodes.len() as int;
            &&& c.nodes.len() == n + 2
            &&& c.nodes[n].kw == "module"@ && c.nodes[n].name == other
            &&& c.nodes[n + 1].kw == "module"@ && c.nodes[n + 1].name == name
            &&& root_named(c.module_root, other) == Some(n as usize)
            &&& root_named(c.module_root, name) == Some((n + 1) as usize)
            &&& c.begun == b.begun.push(name).push(other)
        },
{
    lemma_import_word();
    assert(m.subs[0] == import);
    law_the_first_is_found(b.begun, name, 0);
    if find_text(b.begun, name, 0) is Some {
        assert(b.begun.contains(name));
    }
    let c = Build { begun: b.begun.push(name), ..b };
    assert(!c.begun.contains(other)) by {
        if c.begun.contains(other) {
            let i = choose|i: int| 0 <= i < c.begun.len() && c.begun[i] == other;
            if i < b.begun.len() {
                assert(b.begun[i] == other);
            }
        }
    }
    let less = (fuel - 1) as nat;
    law_modules_make_tops(mods, c, other, less);
    let d = module_made(mods, c, other, less)->Ok_0;
    assert(imports_made(mods, d, m, 1, less) == Ok::<Build, Seq<char>>(d));
    assert(imports_made(mods, c, m, 0, less) == Ok::<Build, Seq<char>>(d));
    assert(with_identities(mods, d.identities, name, m.subs, 0) == Ok::<
        Seq<IdentityView>,
        Seq<char>,
    >(d.identities));
    assert(with_identities(mods, d.identities, name, m.subs, 1) == Ok::<
        Seq<IdentityView>,
        Seq<char>,
    >(d.identities));
    let root = d.nodes.len() as usize;
    let e = with_node(d, "module"@, name, name, None);
    let f = Build { module_root: with_root(e.module_root, name, root), ..e };
    let g = definitions(mods, "grouping"@);
    assert(made(mods, f, name, name, Seq::empty(), import, root, g) == Ok::<Build, Seq<char>>(f));
    assert(children_made(mods, f, name, name, Seq::empty(), m, 1, root, g) == Ok::<
        Build,
        Seq<char>,
    >(f));
    assert(children_made(mods, f, name, name, Seq::empty(), m, 0, root, g) == Ok::<
        Build,
        Seq<char>,
    >(f));
    law_tops_are_put_in(e.module_root, name, root, other);
    assert((Build { identities: d.identities, ..d }) == d);
}

/// An import makes nothing.
proof fn lemma_import_word()
    ensures
        "import"@ != "identity"@ && "import"@ != "uses"@ && "import"@ != "augment"@,
        !crate::yang::meaning::makes_node("import"@),
{
    reveal_strlit("import");
    reveal_strlit("identity");
    reveal_strlit("uses");
    reveal_strlit("augment");
    reveal_strlit("container");
    reveal_strlit("leaf");
    reveal_strlit("leaf-list");
    reveal_strlit("list");
    reveal_strlit("anydata");
    reveal_strlit("anyxml");
    reveal_strlit("notification");
    reveal_strlit("rpc");
    reveal_strlit("action");
    reveal_strlit("choice");
    reveal_strlit("case");
    reveal_strlit("input");
    reveal_strlit("output");
    assert("import"@[0] == 'i' && "import"@[1] == 'm');
    assert("identity"@[1] == 'd' && "input"@[1] == 'n');
    assert("uses"@[0] == 'u' && "augment"@[0] == 'a' && "container"@[0] == 'c' && "leaf"@[0] == 'l'
        && "leaf-list"@[0] == 'l' && "list"@[0] == 'l' && "anydata"@[0] == 'a' && "anyxml"@[0]
        == 'a' && "notification"@[0] == 'n' && "rpc"@[0] == 'r' && "action"@[0] == 'a'
        && "choice"@[0] == 'c' && "case"@[0] == 'c' && "output"@[0] == 'o');
}

} // verus!
