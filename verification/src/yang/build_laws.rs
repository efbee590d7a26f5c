//! How a schema comes from the texts of modules and SID files.
use vstd::prelude::*;

use crate::text::decimal_text;
use crate::text_laws::free_of;
use crate::yang::builder::{modules_in, sids_attached};
use crate::yang::data_tree_laws::{copied, leaves, lemma_copies};
use crate::yang::meaning::{
    absolute_target, bases_in, builtin_made, deviated, deviates_made, deviations_made, finished,
    flattened_all, leafref_found, leafrefs_found, modules_flattened, type_made, with_identity,
    with_node, with_node_sid, with_sid, with_sids, Build,
};
use crate::yang::parser::{arg_of, column_at, is_kind, line_at, module_in, normalized, StmtView};
use crate::yang::reference_laws::law_named_identities_are_there;
use crate::yang::schema::{builtin_named, Builtin, IdentityView};
use crate::yang::sid::{sid_file_in, SidFileView, SidItemView};

verus! {

/// Each text is one module, in the order of the texts.
pub proof fn law_each_text_is_a_module(sources: Seq<Seq<char>>, n: int, i: int)
    requires
        0 <= i < n <= sources.len(),
        modules_in(sources, n) is Ok,
    ensures
        modules_in(sources, n)->Ok_0.len() == n,
        module_in(normalized(sources[i])) matches Ok(m) && m == modules_in(sources, n)->Ok_0[i],
    decreases n,
{
    lemma_as_many(sources, n);
    lemma_as_many(sources, n - 1);
    if i < n - 1 {
        law_each_text_is_a_module(sources, n - 1, i);
        assert(modules_in(sources, n)->Ok_0[i] == modules_in(sources, n - 1)->Ok_0[i]);
    }
}

/// As many modules as texts.
proof fn lemma_as_many(sources: Seq<Seq<char>>, n: int)
    requires
        0 <= n <= sources.len(),
    ensures
        modules_in(sources, n) matches Ok(mods) ==> mods.len() == n,
    decreases n,
{
    if n > 0 {
        lemma_as_many(sources, n - 1);
    }
}

/// Texts that are all modules are taken, and a text that is none is told by the
/// line and the column of its fault.
pub proof fn law_texts_that_are_no_modules(sources: Seq<Seq<char>>, n: int)
    requires
        0 < n <= sources.len(),
        modules_in(sources, n - 1) is Ok,
    ensures
        ({
            let chars = normalized(sources[n - 1]);
            match module_in(chars) {
                Ok(_) => modules_in(sources, n) is Ok,
                Err(f) => modules_in(sources, n) == Err::<Seq<StmtView>, Seq<char>>(
                    decimal_text(line_at(chars, f.at)) + ":"@ + decimal_text(
                        column_at(chars, f.at),
                    ) + ": "@ + f.message,
                ),
            }
        }),
{
}

/// Lines are counted from one, and columns from nought behind the last line feed.
pub proof fn law_lines_and_columns(a: Seq<char>, b: Seq<char>)
    requires
        free_of(b, '\n'),
        free_of(b, '\t'),
        a.len() + b.len() < 0xFFFF,
    ensures
        line_at(b, b.len() as int) == 1,
        column_at(b, b.len() as int) == b.len(),
        line_at(a + seq!['\n'] + b, a.len() + 1 + b.len() as int) == line_at(a, a.len() as int) + 1,
        column_at(a + seq!['\n'] + b, a.len() + 1 + b.len() as int) == b.len(),
        column_at(b + seq!['\t'], b.len() + 1int) == (b.len() / 8 + 1) * 8,
{
    let s = a + seq!['\n'] + b;
    lemma_place(Seq::empty(), b, b.len() as int);
    assert(Seq::<char>::empty() + b =~= b);
    lemma_same_place(a, s, a.len() as int);
    lemma_few_lines(a, a.len() as int);
    assert(s[a.len() as int] == '\n');
    assert(line_at(s, a.len() + 1int) == line_at(a, a.len() as int) + 1);
    assert(column_at(s, a.len() + 1int) == 0);
    lemma_place(a + seq!['\n'], b, b.len() as int);
    let t = b + seq!['\t'];
    lemma_same_place(b, t, b.len() as int);
    assert(t[b.len() as int] == '\t');
}

/// There are no more lines than characters.
proof fn lemma_few_lines(a: Seq<char>, n: int)
    requires
        0 <= n <= a.len(),
        a.len() < 0xFFFF,
    ensures
        1 <= line_at(a, n) <= n + 1,
    decreases n,
{
    if n > 0 {
        lemma_few_lines(a, n - 1);
    }
}

/// A place depends on what stands before it alone.
proof fn lemma_same_place(a: Seq<char>, b: Seq<char>, n: int)
    requires
        0 <= n <= a.len() <= b.len(),
        forall|i: int| 0 <= i < a.len() ==> #[trigger] a[i] == b[i],
    ensures
        line_at(a, n) == line_at(b, n),
        column_at(a, n) == column_at(b, n),
    decreases n,
{
    if n > 0 {
        lemma_same_place(a, b, n - 1);
        assert(a[n - 1] == b[n - 1]);
    }
}

/// Plain characters are one column each.
proof fn lemma_place(a: Seq<char>, b: Seq<char>, n: int)
    requires
        free_of(b, '\n'),
        free_of(b, '\t'),
        a.len() == 0 || a.last() == '\n',
        0 <= n <= b.len() < 0xFFFF,
    ensures
        line_at(a + b, a.len() + n) == line_at(a + b, a.len() as int),
        column_at(a + b, a.len() + n) == n,
    decreases n,
{
    let s = a + b;
    if n > 0 {
        lemma_place(a, b, n - 1);
        assert(s[a.len() + n - 1] == b[n - 1]);
    } else if a.len() > 0 {
        assert(s[a.len() - 1] == '\n');
    }
}

/// The SIDs of a file are attached one after the other, under the name of its
/// module.
pub proof fn law_sids_one_by_one(b: Build, f: SidFileView, x: SidItemView)
    ensures
        with_sids(b, f, 0) == b,
        ({
            let g = SidFileView { items: f.items.push(x), ..f };
            with_sids(b, g, g.items.len() as int) == with_sid(
                with_sids(b, f, f.items.len() as int),
                f.module_name,
                x,
            )
        }),
{
    let g = SidFileView { items: f.items.push(x), ..f };
    lemma_first_sids(b, f, g, f.items.len() as int);
    assert(g.items[f.items.len() as int] == x);
}

/// Further SIDs do not change what the first do.
proof fn lemma_first_sids(b: Build, f: SidFileView, g: SidFileView, n: int)
    requires
        0 <= n <= f.items.len() <= g.items.len(),
        f.module_name == g.module_name,
        forall|i: int| 0 <= i < f.items.len() ==> #[trigger] f.items[i] == g.items[i],
    ensures
        with_sids(b, f, n) == with_sids(b, g, n),
    decreases n,
{
    if n > 0 {
        lemma_first_sids(b, f, g, n - 1);
        assert(f.items[n - 1] == g.items[n - 1]);
    }
}

/// SID files are attached one after the other, and one that cannot be read is an
/// error.
pub proof fn law_sid_files_one_by_one(b: Build, sources: Seq<Seq<char>>, n: int)
    requires
        0 < n <= sources.len(),
    ensures
        sids_attached(b, sources, 0) == Ok::<Build, Seq<char>>(b),
        match (sids_attached(b, sources, n - 1), sid_file_in(sources[n - 1])) {
            (Ok(c), Ok(f)) => sids_attached(b, sources, n) == Ok::<Build, Seq<char>>(
                with_sids(c, f, f.items.len() as int),
            ),
            _ => sids_attached(b, sources, n) is Err,
        },
{
}

/// A reference leads to what is found for it; any other type, and a reference to
/// nothing, stays as it is.
pub proof fn law_references_are_resolved(mods: Seq<StmtView>, b: Build, i: int)
    requires
        0 <= i < b.types.len() <= usize::MAX,
    ensures
        ({
            let c = leafrefs_found(mods, b);
            let found = leafref_found(mods, b, i as usize);
            &&& c.types.len() == b.types.len() && c.nodes == b.nodes && c.identities == b.identities
            &&& b.types[i].builtin == Builtin::Leafref && found is Some ==> c.types[i].leafref_target
                == found && c.types[i].builtin == Builtin::Leafref && c.types[i].leafref_path
                == b.types[i].leafref_path
            &&& b.types[i].builtin != Builtin::Leafref || found is None ==> c.types[i] == b.types[i]
        }),
{
}

/// The tree of all data has a top of its own, with the SID 0, and below it what
/// stands at the top of the modules, in its order.
pub proof fn law_the_top_of_all_data(b: Build, name: Seq<char>, m: usize)
    requires
        b.module_root == seq![(name, m)],
        m < b.nodes.len(),
        leaves(b.nodes, b.nodes[m as int].children, b.nodes.len() as int),
        forall|k: int|
            0 <= k < b.nodes[m as int].children.len() ==> m < #[trigger] b.nodes[m as int].children[k],
        b.nodes.len() + b.nodes[m as int].children.len() + 1 < usize::MAX,
    ensures
        ({
            let s = finished(b);
            let root = b.nodes.len() as int;
            let children = b.nodes[m as int].children;
            &&& s.root == root
            &&& s.nodes.len() == root + 1 + children.len()
            &&& s.nodes[root].kw == "module"@ && s.nodes[root].name == "data-tree-schema"@
            &&& s.nodes[root].sid == Some(0i64) && s.nodes[root].parent is None
            &&& s.nodes[root].children.len() == children.len()
            &&& forall|k: int|
                0 <= k < children.len() ==> #[trigger] s.nodes[root].children[k] == root + 1 + k
            &&& forall|k: int|
                0 <= k < children.len() ==> copied(
                    b.nodes[children[k] as int],
                    #[trigger] s.nodes[root + 1 + k],
                ) && s.nodes[root + 1 + k].parent == Some(root as usize)
            &&& s.types == b.types && s.identities == b.identities
        }),
{
    let root = b.nodes.len() as usize;
    let c = with_node(b, "module"@, "data-tree-schema"@, Seq::empty(), None);
    let d = with_node_sid(c, root, 0);
    let nodes = d.nodes;
    let children = b.nodes[m as int].children;
    assert(nodes[m as int] == b.nodes[m as int]);
    assert(leaves(nodes, children, root as int)) by {
        assert forall|k: int| 0 <= k < children.len() implies #[trigger] children[k] < root
            && nodes[children[k] as int].kw != "choice"@ && nodes[children[k] as int].kw != "case"@
            && nodes[children[k] as int].children.len() == 0 by {
            assert(nodes[children[k] as int] == b.nodes[children[k] as int]);
        }
    }
    lemma_copies(nodes, m, children, 0, root, root as int);
    assert(children.subrange(0, children.len() as int) =~= children);
    assert(b.module_root[0] == (name, m));
    assert(modules_flattened(nodes, b.module_root, root, root as int, 0) == nodes);
    assert(modules_flattened(nodes, b.module_root, root, root as int, 1) == flattened_all(
        nodes,
        m,
        children,
        0,
        root,
        root as int,
    ));
    let s = finished(b);
    assert(nodes[root as int].children.len() == 0);
    assert forall|k: int| 0 <= k < children.len() implies #[trigger] s.nodes[root as int].children[k]
        == root + 1 + k by {
        assert(s.nodes[root as int].children[0 + k] == nodes.len() + k);
    }
    assert forall|k: int| 0 <= k < children.len() implies copied(
        b.nodes[children[k] as int],
        #[trigger] s.nodes[root + 1 + k],
    ) && s.nodes[root + 1 + k].parent == Some(root) by {
        assert(s.nodes[nodes.len() + k] == s.nodes[root + 1 + k]);
        assert(nodes[children[k] as int] == b.nodes[children[k] as int]);
    }
}

/// A deviation changes the node that its path leads to, as its statements say; a
/// path that leads nowhere is an error.
pub proof fn law_deviations_change_their_target(
    mods: Seq<StmtView>,
    b: Build,
    module: Seq<char>,
    s: StmtView,
    d: StmtView,
)
    requires
        is_kind(s, "deviation"@),
        s.subs == seq![d],
        is_kind(d, "deviate"@),
    ensures
        match absolute_target(mods, b, module, arg_of(s)) {
            Ok(target) => deviations_made(mods, b, module, seq![s], 1) == deviated(
                mods,
                b,
                module,
                target,
                d,
            ),
            Err(_) => deviations_made(mods, b, module, seq![s], 1) is Err,
        },
{
    let one = seq![s];
    assert(one[0] == s && s.subs[0] == d);
    assert(deviations_made(mods, b, module, one, 0) == Ok::<Build, Seq<char>>(b));
    if let Ok(target) = absolute_target(mods, b, module, arg_of(s)) {
        assert(deviates_made(mods, b, module, target, s.subs, 0) == Ok::<Build, Seq<char>>(b));
        assert(deviates_made(mods, b, module, target, s.subs, 1) == deviated(
            mods,
            b,
            module,
            target,
            d,
        ));
    }
}

/// A reference to an identity has the identities that its statement names as its
/// bases, and the module that it is written in.
pub proof fn law_references_to_identities_have_bases(
    mods: Seq<StmtView>,
    b: Build,
    module: Seq<char>,
    scope: Seq<StmtView>,
    t: StmtView,
    base: StmtView,
    fuel: nat,
)
    requires
        builtin_named(arg_of(t)) == Some(Builtin::Identityref),
        t.subs == seq![base],
        is_kind(base, "base"@),
        free_of(arg_of(base), ':'),
        b.types.len() < usize::MAX,
        b.identities.len() < usize::MAX,
    ensures
        type_made(mods, b, module, scope, t, fuel) matches Ok((c, id)) && {
            &&& id == b.types.len() && c.types.len() == b.types.len() + 1
            &&& c.types.last().builtin == Builtin::Identityref
            &&& c.types.last().source_module == Some(module)
            &&& c.types.last().identity_bases.len() == 1
            &&& ({
                let j = c.types.last().identity_bases[0] as int;
                &&& 0 <= j < c.identities.len()
                &&& c.identities[j].name == arg_of(base)
                &&& c.identities[j].module == module
            })
        },
{
    lemma_no_colon(arg_of(base), 0);
    assert(t.subs[0] == base);
    law_named_identities_are_there(b.identities, module, arg_of(base));
    let (after, j) = with_identity(b.identities, module, arg_of(base));
    let none = Seq::<usize>::empty();
    assert(bases_in(mods, b.identities, module, t.subs, 0) == Ok::<
        (Seq<IdentityView>, Seq<usize>),
        Seq<char>,
    >((b.identities, none)));
    assert(bases_in(mods, b.identities, module, t.subs, 1) == Ok::<
        (Seq<IdentityView>, Seq<usize>),
        Seq<char>,
    >((after, none.push(j))));
    assert(type_made(mods, b, module, scope, t, fuel) == builtin_made(
        mods,
        b,
        module,
        scope,
        Builtin::Identityref,
        t,
        fuel,
    ));
}

/// No colon is found where there is none.
proof fn lemma_no_colon(s: Seq<char>, from: int)
    requires
        free_of(s, ':'),
        0 <= from <= s.len(),
    ensures
        crate::text::index_from(s, ':', from) == s.len(),
    decreases s.len() - from,
{
    if from < s.len() {
        lemma_no_colon(s, from + 1);
    }
}

} // verus!
