//! What names, prefixes and paths in modules lead to.
use vstd::prelude::*;

use crate::text::{index_from, local_of, segments, trimmed};
use crate::text_laws::{
    free_of, law_ends_are_trimmed, law_segments_follow, law_segments_hold_something,
    law_white_space,
};
use crate::yang::meaning::{
    absolute_target, by_local, config_off, definition, definition_around, definition_before,
    descended, deviated, find_identity, import_before, leafref_found, leafref_steps, local_child,
    module_before, module_named, owner_before, qualified, root_named, sid_target, statement_before,
    with_bases, with_derivation, with_identities, with_identity, with_sid, without, Build,
};
use crate::yang::parser::{arg_of, is_kind, sub_of, StmtView};
use crate::yang::schema::{IdentityView, NodeView};
use crate::yang::sid::{Namespace, SidItemView};

verus! {

/// The module that is found by a name has it, and none behind it does; where
/// none is found, none has it.
pub proof fn law_modules_by_name(mods: Seq<StmtView>, name: Seq<char>, n: int)
    requires
        0 <= n <= mods.len(),
    ensures
        module_before(mods, name, n) matches Some(m) ==> exists|i: int|
            0 <= i < n && #[trigger] mods[i] == m && arg_of(mods[i]) == name && forall|j: int|
                i < j < n ==> arg_of(#[trigger] mods[j]) != name,
        module_before(mods, name, n) is None ==> forall|j: int|
            0 <= j < n ==> arg_of(#[trigger] mods[j]) != name,
    decreases n,
{
    if n > 0 {
        if arg_of(mods[n - 1]) == name {
            assert(mods[n - 1] == module_before(mods, name, n)->0);
        } else {
            law_modules_by_name(mods, name, n - 1);
            if let Some(m) = module_before(mods, name, n) {
                let i = choose|i: int|
                    0 <= i < n - 1 && #[trigger] mods[i] == m && arg_of(mods[i]) == name && forall|
                        j: int,
                    |
                        i < j < n - 1 ==> arg_of(#[trigger] mods[j]) != name;
                assert(0 <= i < n && mods[i] == m);
            }
        }
    }
}

/// Whether a statement is an import that gives a prefix.
pub open spec fn gives_prefix(s: StmtView, prefix: Seq<char>) -> bool {
    is_kind(s, "import"@) && (sub_of(s, "prefix"@) matches Some(p) && arg_of(p) == prefix)
}

/// The import that gives a prefix, where only one does.
proof fn lemma_import(subs: Seq<StmtView>, prefix: Seq<char>, i: int, n: int)
    requires
        0 <= i < subs.len(),
        0 <= n <= subs.len(),
        gives_prefix(subs[i], prefix),
        forall|j: int| 0 <= j < subs.len() && j != i ==> !gives_prefix(#[trigger] subs[j], prefix),
    ensures
        n > i ==> import_before(subs, prefix, n) == Some(arg_of(subs[i])),
        n <= i ==> import_before(subs, prefix, n) is None,
    decreases n,
{
    if n > 0 {
        lemma_import(subs, prefix, i, n - 1);
        if n - 1 != i {
            assert(!gives_prefix(subs[n - 1], prefix));
        }
    }
}

/// No import gives a prefix.
proof fn lemma_no_import(subs: Seq<StmtView>, prefix: Seq<char>, n: int)
    requires
        0 <= n <= subs.len(),
        forall|j: int| 0 <= j < subs.len() ==> !gives_prefix(#[trigger] subs[j], prefix),
    ensures
        import_before(subs, prefix, n) is None,
    decreases n,
{
    if n > 0 {
        lemma_no_import(subs, prefix, n - 1);
        assert(!gives_prefix(subs[n - 1], prefix));
    }
}

/// The first colon stands behind a prefix without one.
proof fn lemma_colon(prefix: Seq<char>, name: Seq<char>, from: int)
    requires
        free_of(prefix, ':'),
        0 <= from <= prefix.len(),
    ensures
        index_from(prefix + ":"@ + name, ':', from) == prefix.len(),
    decreases prefix.len() - from,
{
    reveal_strlit(":");
    let s = prefix + ":"@ + name;
    if from < prefix.len() {
        assert(s[from] == prefix[from]);
        lemma_colon(prefix, name, from + 1);
    } else {
        assert(s[from] == ':');
    }
}

/// No colon is found where there is none.
proof fn lemma_no_colon(s: Seq<char>, from: int)
    requires
        free_of(s, ':'),
        0 <= from <= s.len(),
    ensures
        index_from(s, ':', from) == s.len(),
    decreases s.len() - from,
{
    if from < s.len() {
        lemma_no_colon(s, from + 1);
    }
}

/// The parts of a reference with a prefix.
proof fn lemma_reference(prefix: Seq<char>, name: Seq<char>)
    requires
        free_of(prefix, ':'),
    ensures
        ({
            let s = prefix + ":"@ + name;
            let i = index_from(s, ':', 0);
            i < s.len() && s.subrange(0, i) == prefix && s.subrange(i + 1, s.len() as int) == name
        }),
{
    reveal_strlit(":");
    let s = prefix + ":"@ + name;
    lemma_colon(prefix, name, 0);
    assert(s.subrange(0, prefix.len() as int) =~= prefix);
    assert(s.subrange(prefix.len() + 1int, s.len() as int) =~= name);
}

/// A name without a prefix is of the current module. A prefix means the module
/// itself where it is its own, and else the module that is imported under it; one
/// under which nothing is imported is an error.
pub proof fn law_prefixes_mean_modules(
    mods: Seq<StmtView>,
    current: Seq<char>,
    m: StmtView,
    prefix: Seq<char>,
    name: Seq<char>,
    i: int,
)
    requires
        module_named(mods, current) == Some(m),
        free_of(prefix, ':'),
    ensures
        free_of(name, ':') ==> qualified(mods, current, name) == Ok::<
            (Seq<char>, Seq<char>),
            Seq<char>,
        >((current, name)),
        (sub_of(m, "prefix"@) matches Some(p) && arg_of(p) == prefix) ==> qualified(
            mods,
            current,
            prefix + ":"@ + name,
        ) == Ok::<(Seq<char>, Seq<char>), Seq<char>>((arg_of(m), name)),
        !(sub_of(m, "prefix"@) matches Some(p) && arg_of(p) == prefix) ==> {
            &&& 0 <= i < m.subs.len() && gives_prefix(m.subs[i], prefix) && (forall|j: int|
                0 <= j < m.subs.len() && j != i ==> !gives_prefix(#[trigger] m.subs[j], prefix))
                ==> qualified(mods, current, prefix + ":"@ + name) == Ok::<
                (Seq<char>, Seq<char>),
                Seq<char>,
            >((arg_of(m.subs[i]), name))
            &&& (forall|j: int|
                0 <= j < m.subs.len() ==> !gives_prefix(#[trigger] m.subs[j], prefix))
                ==> qualified(mods, current, prefix + ":"@ + name) is Err
        },
{
    lemma_reference(prefix, name);
    if free_of(name, ':') {
        lemma_no_colon(name, 0);
    }
    let n = m.subs.len() as int;
    if 0 <= i < n && gives_prefix(m.subs[i], prefix) && forall|j: int|
        0 <= j < m.subs.len() && j != i ==> !gives_prefix(#[trigger] m.subs[j], prefix) {
        lemma_import(m.subs, prefix, i, n);
    }
    if forall|j: int| 0 <= j < m.subs.len() ==> !gives_prefix(#[trigger] m.subs[j], prefix) {
        lemma_no_import(m.subs, prefix, n);
    }
}

/// Whether a statement is among others, of a kind and with a name.
pub open spec fn is_defined(subs: Seq<StmtView>, kind: Seq<char>, name: Seq<char>) -> bool {
    exists|i: int|
        0 <= i < subs.len() && is_kind(#[trigger] subs[i], kind) && arg_of(subs[i]) == name
}

/// A statement that is found is there.
proof fn lemma_statement(subs: Seq<StmtView>, kind: Seq<char>, name: Seq<char>, n: int)
    requires
        0 <= n <= subs.len(),
    ensures
        statement_before(subs, kind, name, n) matches Some(d) ==> subs.contains(d) && is_kind(
            d,
            kind,
        ) && arg_of(d) == name,
        statement_before(subs, kind, name, n) is None ==> forall|i: int|
            0 <= i < n ==> !(is_kind(#[trigger] subs[i], kind) && arg_of(subs[i]) == name),
    decreases n,
{
    if n > 0 {
        lemma_statement(subs, kind, name, n - 1);
        assert(subs.contains(subs[n - 1]));
    }
}

/// A definition at the top of a module is there.
proof fn lemma_top(mods: Seq<StmtView>, kind: Seq<char>, module: Seq<char>, name: Seq<char>, n: int)
    requires
        0 <= n <= mods.len(),
    ensures
        definition_before(mods, kind, module, name, n) matches Some(d) ==> is_kind(d, kind)
            && arg_of(d) == name && exists|i: int|
            0 <= i < n && arg_of(#[trigger] mods[i]) == module && mods[i].subs.contains(d),
        definition_before(mods, kind, module, name, n) is None ==> forall|i: int|
            0 <= i < n && arg_of(#[trigger] mods[i]) == module ==> !is_defined(
                mods[i].subs,
                kind,
                name,
            ),
    decreases n,
{
    if n > 0 {
        let m = mods[n - 1];
        lemma_statement(m.subs, kind, name, m.subs.len() as int);
        lemma_top(mods, kind, module, name, n - 1);
    }
}

/// A definition further in is the innermost.
proof fn lemma_around(scope: Seq<StmtView>, kind: Seq<char>, name: Seq<char>, n: int)
    requires
        0 <= n <= scope.len(),
    ensures
        definition_around(scope, kind, name, n) matches Some((d, around)) ==> {
            let k = around.len() as int;
            &&& 0 < k <= n
            &&& around == scope.subrange(0, k)
            &&& scope[k - 1].subs.contains(d) && is_kind(d, kind) && arg_of(d) == name
            &&& forall|i: int| k <= i < n ==> !is_defined((#[trigger] scope[i]).subs, kind, name)
        },
        definition_around(scope, kind, name, n) is None ==> forall|i: int|
            0 <= i < n ==> !is_defined((#[trigger] scope[i]).subs, kind, name),
    decreases n,
{
    if n > 0 {
        let subs = scope[n - 1].subs;
        lemma_statement(subs, kind, name, subs.len() as int);
        lemma_around(scope, kind, name, n - 1);
        if statement_before(subs, kind, name, subs.len() as int) is Some {
            assert(scope.subrange(0, n).len() == n);
        }
    }
}

/// A definition that is found is of the kind and has the name. It stands at the
/// top of the module that is asked for, or, in the current module, in the
/// innermost statement around that has one. None is found only where there is
/// none.
pub proof fn law_definitions_are_found(
    mods: Seq<StmtView>,
    current: Seq<char>,
    scope: Seq<StmtView>,
    kind: Seq<char>,
    module: Seq<char>,
    name: Seq<char>,
)
    ensures
        definition(mods, current, scope, kind, module, name) matches Some((d, around)) ==> {
            let k = around.len() as int;
            &&& is_kind(d, kind) && arg_of(d) == name
            &&& k == 0 ==> exists|i: int|
                0 <= i < mods.len() && arg_of(#[trigger] mods[i]) == module
                    && mods[i].subs.contains(d)
            &&& k > 0 ==> {
                &&& module == current
                &&& k <= scope.len() && around == scope.subrange(0, k)
                &&& scope[k - 1].subs.contains(d)
                &&& forall|i: int|
                    k <= i < scope.len() ==> !is_defined((#[trigger] scope[i]).subs, kind, name)
                &&& forall|i: int|
                    0 <= i < mods.len() && arg_of(#[trigger] mods[i]) == module ==> !is_defined(
                        mods[i].subs,
                        kind,
                        name,
                    )
            }
        },
        definition(mods, current, scope, kind, module, name) is None ==> {
            &&& forall|i: int|
                0 <= i < mods.len() && arg_of(#[trigger] mods[i]) == module ==> !is_defined(
                    mods[i].subs,
                    kind,
                    name,
                )
            &&& module == current ==> forall|i: int|
                0 <= i < scope.len() ==> !is_defined((#[trigger] scope[i]).subs, kind, name)
        },
{
    lemma_top(mods, kind, module, name, mods.len() as int);
    lemma_around(scope, kind, name, scope.len() as int);
}

/// The child that is found by a local name is the first that has it.
pub proof fn law_children_by_local_name(
    nodes: Seq<NodeView>,
    children: Seq<usize>,
    local: Seq<char>,
    from: int,
)
    requires
        0 <= from <= children.len(),
    ensures
        local_child(nodes, children, local, from) matches Some(c) ==> exists|k: int|
            from <= k < children.len() && #[trigger] children[k] == c && local_of(
                nodes[c as int].name,
            ) == local && forall|j: int|
                from <= j < k ==> local_of(nodes[#[trigger] children[j] as int].name) != local,
        local_child(nodes, children, local, from) is None ==> forall|j: int|
            from <= j < children.len() ==> local_of(nodes[#[trigger] children[j] as int].name)
                != local,
    decreases children.len() - from,
{
    if from < children.len() {
        if local_of(nodes[children[from] as int].name) == local {
            assert(children[from] == local_child(nodes, children, local, from)->0);
        } else {
            law_children_by_local_name(nodes, children, local, from + 1);
            if let Some(c) = local_child(nodes, children, local, from) {
                let k = choose|k: int|
                    from + 1 <= k < children.len() && #[trigger] children[k] == c && local_of(
                        nodes[c as int].name,
                    ) == local && forall|j: int|
                        from + 1 <= j < k ==> local_of(nodes[#[trigger] children[j] as int].name)
                            != local;
                assert(from <= k < children.len() && children[k] == c);
            }
        }
    }
}

/// One more segment leads one level further down.
proof fn lemma_one_down(nodes: Seq<NodeView>, cur: usize, segs: Seq<Seq<char>>, x: Seq<char>, i: int)
    requires
        0 <= i <= segs.len(),
    ensures
        descended(nodes, cur, segs, i) matches Ok(n) ==> match by_local(nodes, n, local_of(x)) {
            Some(c) => descended(nodes, cur, segs.push(x), i) == Ok::<usize, int>(c),
            None => descended(nodes, cur, segs.push(x), i) is Err,
        },
        descended(nodes, cur, segs, i) is Err ==> descended(nodes, cur, segs.push(x), i) is Err,
    decreases segs.len() - i,
{
    let more = segs.push(x);
    if i < segs.len() {
        assert(more[i] == segs[i]);
        match by_local(nodes, cur, local_of(segs[i])) {
            Some(c) => {
                lemma_one_down(nodes, c, segs, x, i + 1);
            },
            None => {},
        }
    } else {
        assert(more[i] == x);
        match by_local(nodes, cur, local_of(x)) {
            Some(c) => {
                assert(descended(nodes, c, more, i + 1) == Ok::<usize, int>(c));
            },
            None => {},
        }
    }
}

/// The segments of a path with one more.
proof fn lemma_longer(path: Seq<char>, x: Seq<char>)
    requires
        x.len() > 0,
        free_of(x, '/'),
    ensures
        segments(path + "/"@ + x, '/') == segments(path, '/').push(x),
{
    reveal_strlit("/");
    assert("/"@ =~= seq!['/']);
    law_segments_follow(path, '/', x);
    law_segments_hold_something(x, '/', Seq::empty());
    assert(segments(path, '/') + seq![x] =~= segments(path, '/').push(x));
}

/// The path of a SID leads, with one more segment, to the child of that name
/// below what it led to; and a path of one segment `module:name` leads to the
/// child of that name at the top of that module, unless it is itself the name of
/// a structure.
pub proof fn law_paths_of_sids_lead_down(
    b: Build,
    path: Seq<char>,
    x: Seq<char>,
    module: Seq<char>,
    name: Seq<char>,
)
    requires
        x.len() > 0,
        free_of(x, '/'),
        segments(path, '/').len() > 0,
        free_of(module, ':'),
        free_of(module + ":"@ + name, '/'),
    ensures
        sid_target(b, path + "/"@ + x) == match sid_target(b, path) {
            Some(n) => by_local(b.nodes, n, local_of(x)),
            None => None,
        },
        root_named(b.data_roots, module + ":"@ + name) is None ==> sid_target(
            b,
            "/"@ + module + ":"@ + name,
        ) == match root_named(b.module_root, module) {
            Some(root) => by_local(b.nodes, root, name),
            None => None,
        },
        root_named(b.data_roots, module + ":"@ + name) matches Some(root) ==> sid_target(
            b,
            "/"@ + module + ":"@ + name,
        ) == Some(root),
{
    lemma_longer(path, x);
    let segs = segments(path, '/');
    assert(segs.push(x)[0] == segs[0]);
    let i = index_from(segs[0], ':', 0);
    let first = match root_named(b.data_roots, segs[0]) {
        Some(root) => Some(root),
        None => if i < segs[0].len() {
            match root_named(b.module_root, segs[0].subrange(0, i)) {
                Some(root) => by_local(
                    b.nodes,
                    root,
                    segs[0].subrange(i + 1, segs[0].len() as int),
                ),
                None => None,
            }
        } else {
            None
        },
    };
    if let Some(f) = first {
        lemma_one_down(b.nodes, f, segs, x, 1);
    }
    let full = module + ":"@ + name;
    reveal_strlit(":");
    lemma_reference(module, name);
    lemma_longer(Seq::empty(), full);
    assert(Seq::<char>::empty() + "/"@ + full =~= "/"@ + module + ":"@ + name);
    law_segments_hold_something(Seq::empty(), '/', Seq::empty());
    assert(segments(Seq::empty(), '/').push(full) =~= seq![full]);
    assert(segments("/"@ + module + ":"@ + name, '/')[0] == full);
}

/// The path of a target leads, with one more segment, to the child of that name
/// below what it led to.
pub proof fn law_paths_of_targets_lead_down(
    mods: Seq<StmtView>,
    b: Build,
    current: Seq<char>,
    path: Seq<char>,
    x: Seq<char>,
)
    requires
        x.len() > 0,
        free_of(x, '/'),
        segments(path, '/').len() > 0,
    ensures
        absolute_target(mods, b, current, path) matches Ok(n) ==> match by_local(
            b.nodes,
            n,
            local_of(x),
        ) {
            Some(c) => absolute_target(mods, b, current, path + "/"@ + x) == Ok::<
                usize,
                Seq<char>,
            >(c),
            None => absolute_target(mods, b, current, path + "/"@ + x) is Err,
        },
        absolute_target(mods, b, current, path) is Err ==> absolute_target(
            mods,
            b,
            current,
            path + "/"@ + x,
        ) is Err,
{
    lemma_longer(path, x);
    let segs = segments(path, '/');
    assert(segs.push(x)[0] == segs[0]);
    match qualified(mods, current, segs[0]) {
        Ok((module, local)) => match root_named(b.module_root, module) {
            Some(root) => match by_local(b.nodes, root, local) {
                Some(first) => {
                    lemma_one_down(b.nodes, first, segs, x, 1);
                },
                None => {},
            },
            None => {},
        },
        Err(_) => {},
    }
}

/// A target of one segment is the child of that name at the top of the module
/// that the reference means.
pub proof fn law_targets_begin_at_a_module(
    mods: Seq<StmtView>,
    b: Build,
    current: Seq<char>,
    x: Seq<char>,
    module: Seq<char>,
    name: Seq<char>,
    root: usize,
)
    requires
        x.len() > 0,
        free_of(x, '/'),
        qualified(mods, current, x) == Ok::<(Seq<char>, Seq<char>), Seq<char>>((module, name)),
        root_named(b.module_root, module) == Some(root),
    ensures
        match by_local(b.nodes, root, name) {
            Some(c) => absolute_target(mods, b, current, "/"@ + x) == Ok::<usize, Seq<char>>(c),
            None => absolute_target(mods, b, current, "/"@ + x) is Err,
        },
{
    lemma_longer(Seq::empty(), x);
    assert(Seq::<char>::empty() + "/"@ + x =~= "/"@ + x);
    law_segments_hold_something(Seq::empty(), '/', Seq::empty());
    assert(segments(Seq::empty(), '/').push(x) =~= seq![x]);
    let segs = segments("/"@ + x, '/');
    assert(segs[0] == x);
    match by_local(b.nodes, root, name) {
        Some(c) => {
            assert(descended(b.nodes, c, segs, 1) == Ok::<usize, int>(c));
        },
        None => {},
    }
}

/// A relative reference of a leaf goes up from it for two dots and down for a
/// name: `../x` is the node `x` beside it.
pub proof fn law_references_go_up_and_down(
    mods: Seq<StmtView>,
    b: Build,
    ty: usize,
    node: usize,
    parent: usize,
    module: Seq<char>,
    x: Seq<char>,
)
    requires
        x.len() > 0,
        free_of(x, '/'),
        x != ".."@,
        !crate::text::is_space(x.last()),
        b.types[ty as int].leafref_path == Some(".."@ + "/"@ + x),
        b.types[ty as int].source_module == Some(module),
        owner_before(b.nodes, ty, b.nodes.len() as int) == Some(node),
        b.nodes[node as int].parent == Some(parent),
    ensures
        leafref_found(mods, b, ty) == by_local(b.nodes, parent, local_of(x)),
{
    reveal_strlit("..");
    reveal_strlit("/");
    let path = ".."@ + "/"@ + x;
    law_white_space('.');
    assert(path[0] == '.');
    assert(path.last() == x.last());
    let none = Seq::<char>::empty();
    law_ends_are_trimmed(none, path, none);
    assert(none + path + none =~= path);
    assert(trimmed(path) == path);
    lemma_longer(".."@, x);
    law_segments_hold_something(".."@, '/', Seq::empty());
    let segs = segments(path, '/');
    assert(segs =~= seq![".."@, x]);
    match by_local(b.nodes, parent, local_of(x)) {
        Some(c) => {
            assert(leafref_steps(b.nodes, c, segs, 2) == Some(c));
            assert(leafref_steps(b.nodes, parent, segs, 1) == Some(c));
        },
        None => {
            assert(leafref_steps(b.nodes, parent, segs, 1) is None);
        },
    }
}

/// An absolute reference of a leaf is read like any path, in the module that the
/// type stands in.
pub proof fn law_references_from_the_top(
    mods: Seq<StmtView>,
    b: Build,
    ty: usize,
    module: Seq<char>,
    x: Seq<char>,
)
    requires
        x.len() > 0,
        !crate::text::is_space(x.last()),
        b.types[ty as int].leafref_path == Some("/"@ + x),
        b.types[ty as int].source_module == Some(module),
    ensures
        match absolute_target(mods, b, module, "/"@ + x) {
            Ok(n) => leafref_found(mods, b, ty) == Some(n),
            Err(_) => leafref_found(mods, b, ty) is None,
        },
{
    reveal_strlit("/");
    let path = "/"@ + x;
    law_white_space('/');
    assert(path[0] == '/');
    assert(path.last() == x.last());
    let none = Seq::<char>::empty();
    law_ends_are_trimmed(none, path, none);
    assert(none + path + none =~= path);
}

/// A SID goes to what its name means and changes nothing else: the node of a
/// path, the top of a module or an identity of the file's module. A feature has
/// no place, and what there is not is passed over.
pub proof fn law_sids_go_where_they_belong(b: Build, module: Seq<char>, item: SidItemView)
    ensures
        item.namespace == Namespace::Data ==> match sid_target(b, item.identifier) {
            Some(n) => n < b.nodes.len() ==> with_sid(b, module, item) == (Build {
                nodes: with_sid(b, module, item).nodes,
                ..b
            }) && sid_given(b.nodes, with_sid(b, module, item).nodes, n as int, item.sid),
            None => with_sid(b, module, item) == b,
        },
        item.namespace == Namespace::Module ==> match root_named(b.module_root, item.identifier) {
            Some(n) => n < b.nodes.len() ==> with_sid(b, module, item) == (Build {
                nodes: with_sid(b, module, item).nodes,
                ..b
            }) && sid_given(b.nodes, with_sid(b, module, item).nodes, n as int, item.sid),
            None => with_sid(b, module, item) == b,
        },
        item.namespace == Namespace::Identity ==> match find_identity(
            b.identities,
            module,
            item.identifier,
            0,
        ) {
            Some(i) => 0 <= i < b.identities.len() ==> {
                let c = with_sid(b, module, item);
                &&& c.nodes == b.nodes && c.types == b.types
                &&& c.identities.len() == b.identities.len()
                &&& c.identities[i].sid == Some(item.sid)
                &&& c.identities[i].name == b.identities[i].name
                &&& c.identities[i].module == b.identities[i].module
                &&& c.identities[i].base == b.identities[i].base
                &&& c.identities[i].derived == b.identities[i].derived
                &&& forall|j: int|
                    0 <= j < b.identities.len() && j != i ==> #[trigger] c.identities[j]
                        == b.identities[j]
            },
            None => with_sid(b, module, item) == b,
        },
        item.namespace == Namespace::Feature ==> with_sid(b, module, item) == b,
{
}

/// Whether nodes are others with a SID for one of them.
pub open spec fn sid_given(a: Seq<NodeView>, b: Seq<NodeView>, n: int, sid: i64) -> bool {
    &&& b.len() == a.len()
    &&& b[n].sid == Some(sid)
    &&& b[n].kw == a[n].kw && b[n].name == a[n].name && b[n].parent == a[n].parent
        && b[n].children == a[n].children && b[n].config == a[n].config && b[n].type_id
        == a[n].type_id && b[n].keys == a[n].keys && b[n].mandatory == a[n].mandatory
    &&& forall|j: int| 0 <= j < a.len() && j != n ==> #[trigger] b[j] == a[j]
}

/// The identity that is found by a name in a module has both and is the first
/// that has.
pub proof fn law_identities_by_name(
    ids: Seq<IdentityView>,
    module: Seq<char>,
    name: Seq<char>,
    from: int,
)
    requires
        0 <= from <= ids.len(),
    ensures
        find_identity(ids, module, name, from) matches Some(i) ==> from <= i < ids.len()
            && ids[i].module == module && ids[i].name == name,
        find_identity(ids, module, name, from) is None ==> forall|j: int|
            from <= j < ids.len() ==> !((#[trigger] ids[j]).module == module && ids[j].name == name),
    decreases ids.len() - from,
{
    if from < ids.len() && !(ids[from].module == module && ids[from].name == name) {
        law_identities_by_name(ids, module, name, from + 1);
    }
}

/// An identity that is named is there afterwards, and those that were there are
/// unchanged.
pub proof fn law_named_identities_are_there(
    ids: Seq<IdentityView>,
    module: Seq<char>,
    name: Seq<char>,
)
    requires
        ids.len() < usize::MAX,
    ensures
        ({
            let (after, i) = with_identity(ids, module, name);
            &&& i < after.len()
            &&& after[i as int].module == module && after[i as int].name == name
            &&& after.len() >= ids.len()
            &&& forall|j: int| 0 <= j < ids.len() ==> #[trigger] after[j] == ids[j]
            &&& after.len() > ids.len() ==> after.len() == ids.len() + 1 && i == ids.len()
                && after[i as int].sid is None && after[i as int].base.len() == 0
                && after[i as int].derived.len() == 0
        }),
{
    law_identities_by_name(ids, module, name, 0);
}

/// Whether one identity is derived from another, and both know of it.
pub open spec fn derived_from(ids: Seq<IdentityView>, i: usize, j: usize) -> bool {
    i < ids.len() && j < ids.len() && ids[i as int].base.contains(j) && ids[j as int].derived.contains(
        i,
    )
}

/// An identity statement with a base makes the one derived from the other: the
/// base is among its bases, and it is among what is derived from the base.
pub proof fn law_bases_are_taken_in(
    mods: Seq<StmtView>,
    ids: Seq<IdentityView>,
    module: Seq<char>,
    s: StmtView,
    base: StmtView,
)
    requires
        is_kind(s, "identity"@),
        s.subs == seq![base],
        is_kind(base, "base"@),
        free_of(arg_of(base), ':'),
        arg_of(base) != arg_of(s),
        ids.len() + 2 <= usize::MAX,
    ensures
        with_identities(mods, ids, module, seq![s], 1) matches Ok(after) && exists|
            i: usize,
            j: usize,
        | #[trigger]
            derived_from(after, i, j) && after[i as int].name == arg_of(s) && after[i as int].module
                == module && after[j as int].name == arg_of(base) && after[j as int].module
                == module,
{
    lemma_no_colon(arg_of(base), 0);
    let one = seq![s];
    assert(with_identities(mods, ids, module, one, 0) == Ok::<Seq<IdentityView>, Seq<char>>(ids));
    law_named_identities_are_there(ids, module, arg_of(s));
    let (a, i) = with_identity(ids, module, arg_of(s));
    law_named_identities_are_there(a, module, arg_of(base));
    let (c, j) = with_identity(a, module, arg_of(base));
    assert(s.subs[0] == base);
    assert(with_bases(mods, a, module, i, s.subs, 0) == Ok::<Seq<IdentityView>, Seq<char>>(a));
    assert(with_bases(mods, a, module, i, s.subs, 1) == Ok::<Seq<IdentityView>, Seq<char>>(
        with_derivation(c, i, j),
    ));
    let d = with_derivation(c, i, j);
    assert(one[0] == s);
    assert(i != j);
    assert(d[i as int].base == c[i as int].base.push(j));
    assert(d[j as int].derived == c[j as int].derived.push(i));
    assert(d[i as int].base[c[i as int].base.len() as int] == j);
    assert(d[j as int].derived[c[j as int].derived.len() as int] == i);
    assert(d[i as int].base.contains(j));
    assert(d[j as int].derived.contains(i));
    assert(with_identities(mods, ids, module, one, 1) == Ok::<Seq<IdentityView>, Seq<char>>(d));
    assert(d[i as int].name == arg_of(s));
    assert(d[i as int].module == module);
    assert(d[j as int].name == arg_of(base));
    assert(d[j as int].module == module);
    let after = with_identities(mods, ids, module, seq![s], 1)->Ok_0;
    assert(after == d);
    assert(derived_from(after, i, j));
    assert(exists|i: usize, j: usize| #[trigger]
        derived_from(after, i, j) && after[i as int].name == arg_of(s) && after[i as int].module
            == module && after[j as int].name == arg_of(base) && after[j as int].module == module);
}

/// What is left without a number is all else, in order.
pub proof fn law_one_is_left_out(s: Seq<usize>, x: usize, n: int)
    requires
        0 <= n <= s.len(),
    ensures
        without(s, x, n) == s.subrange(0, n).filter(|y: usize| y != x),
        !without(s, x, n).contains(x),
    decreases n,
{
    let keep = |y: usize| y != x;
    reveal(Seq::filter);
    if n > 0 {
        law_one_is_left_out(s, x, n - 1);
        assert(s.subrange(0, n).drop_last() =~= s.subrange(0, n - 1));
        assert(s.subrange(0, n).last() == s[n - 1]);
        assert(without(s, x, n) =~= s.subrange(0, n).filter(keep));
    } else {
        assert(without(s, x, n) =~= s.subrange(0, n).filter(keep));
    }
}

/// A node that is not supported is no longer among the children of its parent;
/// nothing else changes.
pub proof fn law_unsupported_nodes_go(
    mods: Seq<StmtView>,
    b: Build,
    module: Seq<char>,
    target: usize,
    d: StmtView,
    p: usize,
)
    requires
        arg_of(d) == "not-supported"@,
        target < b.nodes.len(),
        b.nodes[target as int].parent == Some(p),
        p < b.nodes.len(),
    ensures
        deviated(mods, b, module, target, d) matches Ok(c) && {
            let had = b.nodes[p as int].children;
            &&& c.nodes.len() == b.nodes.len() && c.types == b.types
            &&& c.nodes[p as int].children == had.filter(|y: usize| y != target)
            &&& !c.nodes[p as int].children.contains(target)
            &&& c.nodes[p as int].name == b.nodes[p as int].name
            &&& forall|i: int|
                0 <= i < b.nodes.len() && i != p ==> #[trigger] c.nodes[i] == b.nodes[i]
        },
{
    let had = b.nodes[p as int].children;
    law_one_is_left_out(had, target, had.len() as int);
    assert(had.subrange(0, had.len() as int) =~= had);
}

/// Whether a node and all below it are no configuration.
pub open spec fn all_off(nodes: Seq<NodeView>, n: int) -> bool
    decreases nodes.len() - n,
{
    if n < 0 || n >= nodes.len() {
        true
    } else {
        &&& !nodes[n].config
        &&& forall|k: int|
            0 <= k < nodes[n].children.len() && n < nodes[n].children[k] < nodes.len()
                ==> all_off(
                nodes,
                #[trigger] nodes[n].children[k] as int,
            )
    }
}

/// Whether nodes are others of which some are no longer configuration.
pub open spec fn only_less_config(a: Seq<NodeView>, b: Seq<NodeView>) -> bool {
    &&& b.len() == a.len()
    &&& forall|i: int|
        0 <= i < a.len() ==> (#[trigger] b[i]).children == a[i].children && (b[i].config
            ==> a[i].config) && b[i] == (NodeView { config: b[i].config, ..a[i] })
}

/// What is no configuration stays so.
proof fn lemma_stays_off(a: Seq<NodeView>, b: Seq<NodeView>, n: int)
    requires
        only_less_config(a, b),
        all_off(a, n),
    ensures
        all_off(b, n),
    decreases a.len() - n,
{
    if 0 <= n < a.len() {
        assert(b[n].children == a[n].children);
        assert forall|k: int|
            0 <= k < b[n].children.len() && n < b[n].children[k] < b.len() implies all_off(
            b,
            #[trigger] b[n].children[k] as int,
        ) by {
            assert(all_off(a, a[n].children[k] as int));
            lemma_stays_off(a, b, a[n].children[k] as int);
        }
    }
}

/// Whether children stand behind their parents.
pub open spec fn children_behind(nodes: Seq<NodeView>) -> bool {
    forall|i: int, k: int|
        0 <= i < nodes.len() && 0 <= k < nodes[i].children.len() ==> i
            < #[trigger] nodes[i].children[k] < nodes.len()
}

/// Children stand behind their parents still.
proof fn lemma_behind(a: Seq<NodeView>, b: Seq<NodeView>)
    requires
        only_less_config(a, b),
        children_behind(a),
    ensures
        children_behind(b),
{
    assert forall|i: int, k: int|
        0 <= i < b.len() && 0 <= k < b[i].children.len() implies i < #[trigger] b[i].children[k]
        < b.len() by {
        assert(b[i].children == a[i].children);
        assert(a[i].children[k] == b[i].children[k]);
    }
}

/// All below a node is turned off, and nothing else happens.
proof fn lemma_config_off(nodes: Seq<NodeView>, node: usize, i: int)
    requires
        node < nodes.len(),
        0 <= i,
        children_behind(nodes),
    ensures
        only_less_config(nodes, config_off(nodes, node, i)),
        forall|k: int|
            i <= k < nodes[node as int].children.len() ==> all_off(
                config_off(nodes, node, i),
                #[trigger] nodes[node as int].children[k] as int,
            ),
        config_off(nodes, node, i)[node as int] == nodes[node as int],
        forall|j: int|
            0 <= j < node ==> #[trigger] config_off(nodes, node, i)[j] == nodes[j],
    decreases nodes.len() - node, nodes[node as int].children.len() - i,
{
    if i < nodes[node as int].children.len() {
        let c = nodes[node as int].children[i];
        assert(node < c < nodes.len());
        let off = nodes.update(c as int, NodeView { config: false, ..nodes[c as int] });
        assert(only_less_config(nodes, off));
        lemma_behind(nodes, off);
        lemma_config_off(off, c, 0);
        let below = config_off(off, c, 0);
        assert(below[node as int] == nodes[node as int]);
        assert(only_less_config(nodes, below)) by {
            assert forall|j: int| 0 <= j < nodes.len() implies (#[trigger] below[j]).children
                == nodes[j].children && (below[j].config ==> nodes[j].config) && below[j] == (
            NodeView { config: below[j].config, ..nodes[j] }) by {
                assert(off[j].children == nodes[j].children);
            }
        }
        lemma_behind(nodes, below);
        assert(all_off(below, c as int)) by {
            assert(below[c as int] == off[c as int]);
            assert forall|k: int|
                0 <= k < below[c as int].children.len() && c < below[c as int].children[k]
                    < below.len() implies all_off(
                below,
                #[trigger] below[c as int].children[k] as int,
            ) by {
                assert(off[c as int].children[k] == below[c as int].children[k]);
            }
        }
        lemma_config_off(below, node, i + 1);
        let end = config_off(below, node, i + 1);
        assert(config_off(nodes, node, i) == end);
        lemma_stays_off(below, end, c as int);
        assert forall|k: int| i <= k < nodes[node as int].children.len() implies all_off(
            end,
            #[trigger] nodes[node as int].children[k] as int,
        ) by {
            assert(below[node as int].children[k] == nodes[node as int].children[k]);
        }
        assert forall|j: int| 0 <= j < nodes.len() implies (#[trigger] end[j]).children
            == nodes[j].children && (end[j].config ==> nodes[j].config) && end[j] == (NodeView {
            config: end[j].config,
            ..nodes[j]
        }) by {
            assert(below[j].children == nodes[j].children);
        }
        assert forall|j: int| 0 <= j < node implies #[trigger] end[j] == nodes[j] by {
            assert(below[j] == off[j]);
        }
    }
}

/// A node whose configuration is replaced has what it is replaced with; where
/// that is none, all below it has none either.
pub proof fn law_configuration_is_replaced(
    mods: Seq<StmtView>,
    b: Build,
    module: Seq<char>,
    target: usize,
    d: StmtView,
)
    requires
        arg_of(d) == "replace"@,
        sub_of(d, "config"@) is Some,
        sub_of(d, "type"@) is None,
        target < b.nodes.len(),
        children_behind(b.nodes),
    ensures
        deviated(mods, b, module, target, d) matches Ok(c) && {
            let on = arg_of(sub_of(d, "config"@)->0) == "true"@;
            &&& c.nodes.len() == b.nodes.len() && c.types == b.types
            &&& c.nodes[target as int] == NodeView { config: on, ..b.nodes[target as int] }
            &&& !on ==> all_off(c.nodes, target as int)
            &&& on ==> forall|i: int|
                0 <= i < b.nodes.len() && i != target ==> #[trigger] c.nodes[i] == b.nodes[i]
            &&& forall|i: int| 0 <= i < target ==> #[trigger] c.nodes[i] == b.nodes[i]
        },
{
    reveal_strlit("replace");
    reveal_strlit("not-supported");
    assert("replace"@.len() == 7 && "not-supported"@.len() == 13);
    let on = arg_of(sub_of(d, "config"@)->0) == "true"@;
    let nodes = b.nodes.update(target as int, NodeView { config: on, ..b.nodes[target as int] });
    if !on {
        assert(only_less_config(b.nodes, nodes));
        lemma_behind(b.nodes, nodes);
        lemma_config_off(nodes, target, 0);
        let end = config_off(nodes, target, 0);
        assert forall|k: int|
            0 <= k < end[target as int].children.len() && target < end[target as int].children[k]
                < end.len() implies all_off(
            end,
            #[trigger] end[target as int].children[k] as int,
        ) by {
            assert(nodes[target as int].children[k] == end[target as int].children[k]);
        }
    }
}

} // verus!
