//! What the statements of a module make.
use vstd::prelude::*;

use crate::text::words;
use crate::yang::meaning::{
    augment_made, builtin_made, cases_made, children_made, definition, definitions, described,
    made, makes_node, node_made, type_made, typed, uses_augmented, uses_made, with_node,
    with_sides, Build,
};
use crate::yang::parser::{arg_of, sub_of, StmtView};
use crate::yang::schema::{builtin_named, Builtin, NodeView};

verus! {

/// Whether a statement says something of the one that it stands in, and makes
/// nothing of its own.
pub open spec fn tells(s: StmtView) -> bool {
    &&& s.prefix is None
    &&& s.keyword != "container"@ && s.keyword != "leaf"@ && s.keyword != "leaf-list"@ && s.keyword
        != "list"@ && s.keyword != "choice"@ && s.keyword != "case"@ && s.keyword != "rpc"@
        && s.keyword != "action"@ && s.keyword != "input"@ && s.keyword != "output"@ && s.keyword
        != "notification"@ && s.keyword != "anydata"@ && s.keyword != "anyxml"@ && s.keyword
        != "uses"@ && s.keyword != "augment"@
}

/// Whether all substatements of a statement only say something of it.
pub open spec fn only_tells(s: StmtView) -> bool {
    forall|i: int| 0 <= i < s.subs.len() ==> tells(#[trigger] s.subs[i])
}

/// Whether a statement is one of those that stand for data.
pub open spec fn for_data(s: StmtView) -> bool {
    &&& s.prefix is None
    &&& s.keyword == "container"@ || s.keyword == "leaf"@ || s.keyword == "leaf-list"@ || s.keyword
        == "list"@ || s.keyword == "anydata"@ || s.keyword == "anyxml"@ || s.keyword
        == "notification"@
}

/// The node of a statement below `parent`, without a type and without children.
pub open spec fn node_of(s: StmtView, name: Seq<char>, owner: Seq<char>, parent: usize, above: NodeView) -> NodeView {
    NodeView {
        kw: s.keyword,
        name,
        parent: Some(parent),
        children: Seq::empty(),
        config: match sub_of(s, "config"@) {
            Some(c) => arg_of(c) == "true"@,
            None => above.config,
        },
        mandatory: sub_of(s, "mandatory"@) is Some && arg_of(sub_of(s, "mandatory"@)->0) == "true"@,
        type_id: None,
        keys: if s.keyword == "list"@ && sub_of(s, "key"@) is Some {
            words(arg_of(sub_of(s, "key"@)->0))
        } else {
            Seq::empty()
        },
        sid: None,
        owner_module: owner,
        description: match sub_of(s, "description"@) {
            Some(d) => Some(arg_of(d)),
            None => None,
        },
    }
}

/// Whether one build is another with one more node at its end, which is the
/// last child of its parent.
pub open spec fn one_more(b: Build, c: Build, n: NodeView) -> bool {
    let p = n.parent->0;
    &&& c.nodes.len() == b.nodes.len() + 1
    &&& c.nodes.last() == n
    &&& forall|i: int| 0 <= i < b.nodes.len() && i != p ==> #[trigger] c.nodes[i] == b.nodes[i]
    &&& c.nodes[p as int] == NodeView {
        children: b.nodes[p as int].children.push(b.nodes.len() as usize),
        ..b.nodes[p as int]
    }
    &&& c.types == b.types && c.identities == b.identities && c.module_root == b.module_root
        && c.data_roots == b.data_roots && c.begun == b.begun
}

/// Statements that only say something make nothing.
proof fn lemma_only_tells(
    mods: Seq<StmtView>,
    b: Build,
    resolve: Seq<char>,
    naming: Seq<char>,
    scope: Seq<StmtView>,
    s: StmtView,
    i: int,
    parent: usize,
    fuel: nat,
)
    requires
        only_tells(s),
        0 <= i <= s.subs.len(),
    ensures
        children_made(mods, b, resolve, naming, scope, s, i, parent, fuel) == Ok::<
            Build,
            Seq<char>,
        >(b),
    decreases s.subs.len() - i,
{
    if i < s.subs.len() {
        assert(tells(s.subs[i]));
        assert(made(mods, b, resolve, naming, scope, s.subs[i], parent, fuel) == Ok::<
            Build,
            Seq<char>,
        >(b));
        lemma_only_tells(mods, b, resolve, naming, scope, s, i + 1, parent, fuel);
    }
}

/// The keywords for data are none of those for operations and choices.
proof fn lemma_for_data(s: StmtView)
    requires
        for_data(s),
    ensures
        makes_node(s.keyword),
        s.keyword != "rpc"@ && s.keyword != "action"@ && s.keyword != "choice"@ && s.keyword
            != "input"@ && s.keyword != "output"@,
{
    reveal_strlit("container");
    reveal_strlit("leaf");
    reveal_strlit("leaf-list");
    reveal_strlit("list");
    reveal_strlit("anydata");
    reveal_strlit("anyxml");
    reveal_strlit("notification");
    reveal_strlit("rpc");
    reveal_strlit("action");
    reveal_strlit("choice");
    reveal_strlit("input");
    reveal_strlit("output");
    assert("list"@[0] == 'l' && "leaf"@[0] == 'l' && "rpc"@[0] == 'r');
    assert("anydata"@[1] == 'n' && "anyxml"@[1] == 'n' && "action"@[1] == 'c');
    assert("choice"@[1] == 'h' && "container"@[1] == 'o' && "input"@[0] == 'i' && "output"@[0]
        == 'o');
    assert("anydata"@[0] == 'a' && "anyxml"@[0] == 'a' && "notification"@[0] == 'n' && "choice"@[0]
        == 'c' && "container"@[0] == 'c' && "action"@[0] == 'a' && "leaf-list"@[0] == 'l');
}

/// The node that a statement makes before its type and its children.
proof fn lemma_described(b: Build, s: StmtView, name: Seq<char>, owner: Seq<char>, parent: usize)
    requires
        parent < b.nodes.len(),
    ensures
        one_more(
            b,
            described(with_node(b, s.keyword, name, owner, Some(parent)), s, parent),
            node_of(s, name, owner, parent, b.nodes[parent as int]),
        ),
{
    let c = with_node(b, s.keyword, name, owner, Some(parent));
    let d = described(c, s, parent);
    assert(c.nodes.len() == b.nodes.len() + 1);
    assert(c.nodes[parent as int].config == b.nodes[parent as int].config);
}

/// A statement that stands for data makes one node, the last child of the node
/// that it stands in. It has the statement's keyword, and its name, which is
/// qualified by the module at the top of it; it is configuration where the
/// statement says so, and where it says nothing, if its parent is; it is
/// mandatory only where the statement says so; and the keys of a list are the
/// words of its key statement. Nothing else changes.
pub proof fn law_statements_make_nodes(
    mods: Seq<StmtView>,
    b: Build,
    resolve: Seq<char>,
    naming: Seq<char>,
    scope: Seq<StmtView>,
    s: StmtView,
    parent: usize,
    fuel: nat,
)
    requires
        for_data(s),
        only_tells(s),
        sub_of(s, "type"@) is None,
        parent < b.nodes.len(),
    ensures
        ({
            let above = b.nodes[parent as int];
            let name = if above.kw == "module"@ {
                naming + ":"@ + arg_of(s)
            } else {
                arg_of(s)
            };
            made(mods, b, resolve, naming, scope, s, parent, fuel) matches Ok(c) && one_more(
                b,
                c,
                node_of(s, name, naming, parent, above),
            )
        }),
{
    let above = b.nodes[parent as int];
    let name = if above.kw == "module"@ {
        naming + ":"@ + arg_of(s)
    } else {
        arg_of(s)
    };
    lemma_for_data(s);
    lemma_described(b, s, name, naming, parent);
    let d = described(with_node(b, s.keyword, name, naming, Some(parent)), s, parent);
    lemma_only_tells(
        mods,
        d,
        resolve,
        naming,
        scope.push(s),
        s,
        0,
        b.nodes.len() as usize,
        fuel,
    );
    assert(made(mods, b, resolve, naming, scope, s, parent, fuel) == node_made(
        mods,
        b,
        resolve,
        naming,
        scope,
        s,
        parent,
        fuel,
    ));
}

/// A leaf or leaf-list of a built-in type without restrictions has a type of
/// its own behind all others, of that kind.
pub proof fn law_leaves_have_types(
    mods: Seq<StmtView>,
    b: Build,
    resolve: Seq<char>,
    naming: Seq<char>,
    scope: Seq<StmtView>,
    s: StmtView,
    parent: usize,
    fuel: nat,
    builtin: Builtin,
)
    requires
        s.prefix is None,
        s.keyword == "leaf"@ || s.keyword == "leaf-list"@,
        only_tells(s),
        parent < b.nodes.len() < usize::MAX,
        b.types.len() <= usize::MAX,
        sub_of(s, "type"@) matches Some(t) && t.subs.len() == 0 && builtin_named(arg_of(t)) == Some(
            builtin,
        ),
        builtin == Builtin::Boolean || builtin == Builtin::Empty || builtin == Builtin::String
            || builtin == Builtin::Binary || builtin == Builtin::Uint8,
    ensures
        made(mods, b, resolve, naming, scope, s, parent, fuel) matches Ok(c) && {
            &&& c.nodes.len() == b.nodes.len() + 1
            &&& c.types.len() == b.types.len() + 1
            &&& c.nodes.last().type_id == Some(b.types.len() as usize)
            &&& c.types.last().builtin == builtin
            &&& c.types.last().patterns.len() == 0
            &&& forall|i: int| 0 <= i < b.types.len() ==> #[trigger] c.types[i] == b.types[i]
            &&& c.nodes.last().kw == s.keyword
            &&& c.nodes.last().parent == Some(parent)
        },
{
    let above = b.nodes[parent as int];
    let name = if above.kw == "module"@ {
        naming + ":"@ + arg_of(s)
    } else {
        arg_of(s)
    };
    lemma_for_data(s);
    lemma_described(b, s, name, naming, parent);
    let d = described(with_node(b, s.keyword, name, naming, Some(parent)), s, parent);
    let t = sub_of(s, "type"@)->0;
    let n = definitions(mods, "typedef"@);
    assert(type_made(mods, d, resolve, scope, t, n) == builtin_made(
        mods,
        d,
        resolve,
        scope,
        builtin,
        t,
        n,
    ));
    assert(sub_of(t, "length"@) is None && sub_of(t, "range"@) is None);
    let e = typed(mods, d, resolve, scope, s, b.nodes.len() as usize)->Ok_0;
    lemma_only_tells(
        mods,
        e,
        resolve,
        naming,
        scope.push(s),
        s,
        0,
        b.nodes.len() as usize,
        fuel,
    );
    assert(made(mods, b, resolve, naming, scope, s, parent, fuel) == node_made(
        mods,
        b,
        resolve,
        naming,
        scope,
        s,
        parent,
        fuel,
    ));
}

/// An operation that says nothing of its input and its output has both: two
/// nodes below its own, the input before the output.
pub proof fn law_operations_have_both_sides(
    mods: Seq<StmtView>,
    b: Build,
    resolve: Seq<char>,
    naming: Seq<char>,
    scope: Seq<StmtView>,
    s: StmtView,
    parent: usize,
    fuel: nat,
)
    requires
        s.prefix is None,
        s.keyword == "rpc"@ || s.keyword == "action"@,
        only_tells(s),
        sub_of(s, "input"@) is None,
        sub_of(s, "output"@) is None,
        parent < b.nodes.len(),
        b.nodes.len() + 2 <= usize::MAX,
    ensures
        made(mods, b, resolve, naming, scope, s, parent, fuel) matches Ok(c) && {
            let n = b.nodes.len() as int;
            &&& c.nodes.len() == n + 3
            &&& c.nodes[n].kw == s.keyword
            &&& c.nodes[n].parent == Some(parent)
            &&& c.nodes[n].children == seq![(n + 1) as usize, (n + 2) as usize]
            &&& c.nodes[n + 1].kw == "input"@ && c.nodes[n + 1].name == "input"@
            &&& c.nodes[n + 2].kw == "output"@ && c.nodes[n + 2].name == "output"@
            &&& c.nodes[n + 1].parent == Some(n as usize) && c.nodes[n + 2].parent == Some(n as usize)
        },
{
    let above = b.nodes[parent as int];
    let name = if above.kw == "module"@ {
        naming + ":"@ + arg_of(s)
    } else {
        arg_of(s)
    };
    lemma_operation(s);
    lemma_described(b, s, name, naming, parent);
    let d = described(with_node(b, s.keyword, name, naming, Some(parent)), s, parent);
    let node = b.nodes.len() as usize;
    let e = with_sides(d, naming, s, node);
    let f = with_node(d, "input"@, "input"@, naming, Some(node));
    assert(f.nodes[node as int].children =~= seq![(node + 1) as usize]);
    assert(e.nodes[node as int].children =~= seq![(node + 1) as usize, (node + 2) as usize]);
    lemma_only_tells(mods, e, resolve, naming, scope.push(s), s, 0, node, fuel);
    assert(made(mods, b, resolve, naming, scope, s, parent, fuel) == node_made(
        mods,
        b,
        resolve,
        naming,
        scope,
        s,
        parent,
        fuel,
    ));
}

/// The keywords of operations are none of those for leaves and choices.
proof fn lemma_operation(s: StmtView)
    requires
        s.keyword == "rpc"@ || s.keyword == "action"@,
    ensures
        makes_node(s.keyword),
        s.keyword != "leaf"@ && s.keyword != "leaf-list"@ && s.keyword != "choice"@ && s.keyword
            != "input"@ && s.keyword != "output"@,
{
    reveal_strlit("leaf");
    reveal_strlit("leaf-list");
    reveal_strlit("rpc");
    reveal_strlit("action");
    reveal_strlit("choice");
    reveal_strlit("input");
    reveal_strlit("output");
    assert("rpc"@[0] == 'r' && "action"@[0] == 'a' && "choice"@[0] == 'c' && "leaf"@[0] == 'l'
        && "leaf-list"@[0] == 'l' && "input"@[0] == 'i' && "output"@[0] == 'o');
}

/// Data right in a choice has a case of its own: a node of the data's name
/// below the choice, and the data below that.
pub proof fn law_data_in_a_choice_has_a_case(
    mods: Seq<StmtView>,
    b: Build,
    resolve: Seq<char>,
    naming: Seq<char>,
    scope: Seq<StmtView>,
    s: StmtView,
    x: StmtView,
    choice: usize,
    fuel: nat,
)
    requires
        s.subs == seq![x],
        for_data(x),
        x.keyword != "notification"@,
        only_tells(x),
        sub_of(x, "type"@) is None,
        choice < b.nodes.len(),
        b.nodes.len() + 1 <= usize::MAX,
    ensures
        cases_made(mods, b, resolve, naming, scope, s, 0, choice, fuel) matches Ok(c) && {
            let n = b.nodes.len() as int;
            &&& c.nodes.len() == n + 2
            &&& c.nodes[choice as int].children == b.nodes[choice as int].children.push(n as usize)
            &&& c.nodes[n].kw == "case"@
            &&& c.nodes[n].name == arg_of(x)
            &&& c.nodes[n].parent == Some(choice)
            &&& c.nodes[n].children == seq![(n + 1) as usize]
            &&& c.nodes[n + 1].kw == x.keyword
            &&& c.nodes[n + 1].name == arg_of(x)
            &&& c.nodes[n + 1].parent == Some(n as usize)
        },
{
    reveal_strlit("case");
    reveal_strlit("module");
    assert("case"@[0] == 'c' && "module"@[0] == 'm');
    let c = with_node(b, "case"@, arg_of(x), naming, Some(choice));
    let parent = b.nodes.len() as usize;
    lemma_for_data(x);
    law_statements_make_nodes(mods, c, resolve, naming, scope, x, parent, fuel);
    let d = made(mods, c, resolve, naming, scope, x, parent, fuel)->Ok_0;
    assert(s.subs[0] == x);
    assert(d.nodes[parent as int].children =~= seq![(parent + 1) as usize]);
    assert(cases_made(mods, d, resolve, naming, scope, s, 1, choice, fuel) == Ok::<
        Build,
        Seq<char>,
    >(d));
}

/// What a grouping holds comes where it is used: the same as if its statements,
/// read in the module of the grouping, stood in place of the use, and a grouping
/// that there is not is an error.
pub proof fn law_groupings_come_where_they_are_used(
    mods: Seq<StmtView>,
    b: Build,
    resolve: Seq<char>,
    naming: Seq<char>,
    scope: Seq<StmtView>,
    s: StmtView,
    raw: StmtView,
    x: StmtView,
    parent: usize,
    fuel: nat,
)
    requires
        s.prefix is None,
        s.keyword == "uses"@,
        s.subs.len() == 0,
        fuel > 0,
        index_of_colon(arg_of(s)) == arg_of(s).len(),
        definition(mods, resolve, scope, "grouping"@, resolve, arg_of(s)) == Some(
            (raw, Seq::<StmtView>::empty()),
        ),
        raw.subs == seq![x],
        for_data(x),
        only_tells(x),
        sub_of(x, "type"@) is None,
        parent < b.nodes.len(),
    ensures
        ({
            let above = b.nodes[parent as int];
            let name = if above.kw == "module"@ {
                naming + ":"@ + arg_of(x)
            } else {
                arg_of(x)
            };
            made(mods, b, resolve, naming, scope, s, parent, fuel) matches Ok(c) && one_more(
                b,
                c,
                node_of(x, name, naming, parent, above),
            )
        }),
{
    lemma_uses(s);
    let around = Seq::<StmtView>::empty().push(raw);
    let less = (fuel - 1) as nat;
    law_statements_make_nodes(mods, b, resolve, naming, around, x, parent, less);
    assert(raw.subs[0] == x);
    let c = made(mods, b, resolve, naming, around, x, parent, less)->Ok_0;
    assert(children_made(mods, c, resolve, naming, around, raw, 1, parent, less) == Ok::<
        Build,
        Seq<char>,
    >(c));
    assert(children_made(mods, b, resolve, naming, around, raw, 0, parent, less) == Ok::<
        Build,
        Seq<char>,
    >(c));
    assert(uses_augmented(mods, c, resolve, naming, scope, s, 0, parent, fuel) == Ok::<
        Build,
        Seq<char>,
    >(c));
    assert(uses_made(mods, b, resolve, naming, scope, s, parent, fuel) == Ok::<
        Build,
        Seq<char>,
    >(c));
    assert(made(mods, b, resolve, naming, scope, s, parent, fuel) == uses_made(
        mods,
        b,
        resolve,
        naming,
        scope,
        s,
        parent,
        fuel,
    ));
}

/// The place of the first colon of a reference, or its length.
pub open spec fn index_of_colon(s: Seq<char>) -> int {
    crate::text::index_from(s, ':', 0)
}

/// A use is no node.
proof fn lemma_uses(s: StmtView)
    requires
        s.keyword == "uses"@,
    ensures
        !makes_node(s.keyword),
{
    reveal_strlit("uses");
    reveal_strlit("container");
    reveal_strlit("leaf");
    reveal_strlit("leaf-list");
    reveal_strlit("list");
    reveal_strlit("anydata");
    reveal_strlit("anyxml");
    reveal_strlit("notification");
    reveal_strlit("rpc");
    reveal_strlit("action");
    reveal_strlit("choice");
    reveal_strlit("case");
    reveal_strlit("input");
    reveal_strlit("output");
    assert("uses"@[0] == 'u');
    assert("container"@[0] == 'c' && "leaf"@[0] == 'l' && "leaf-list"@[0] == 'l' && "list"@[0]
        == 'l' && "anydata"@[0] == 'a' && "anyxml"@[0] == 'a' && "notification"@[0] == 'n'
        && "rpc"@[0] == 'r' && "action"@[0] == 'a' && "choice"@[0] == 'c' && "case"@[0] == 'c'
        && "input"@[0] == 'i' && "output"@[0] == 'o');
}

/// What an augment adds stands below its target: it is qualified by the module
/// that adds it where the target is of another module, and has its own name
/// where it is not. It is configuration if its target is.
pub proof fn law_augments_name_their_module(
    mods: Seq<StmtView>,
    b: Build,
    resolve: Seq<char>,
    naming: Seq<char>,
    scope: Seq<StmtView>,
    s: StmtView,
    x: StmtView,
    target: usize,
    owner: Seq<char>,
    fuel: nat,
)
    requires
        s.subs == seq![x],
        for_data(x),
        only_tells(x),
        sub_of(x, "type"@) is None,
        sub_of(x, "config"@) is None,
        target < b.nodes.len() < usize::MAX,
        b.nodes[target as int].kw != "module"@,
        crate::text_laws::free_of(arg_of(x), ':'),
    ensures
        augment_made(mods, b, resolve, naming, scope, s, 0, target, owner, fuel) matches Ok(c) && {
            let n = b.nodes.len() as int;
            &&& c.nodes.len() == n + 1
            &&& c.nodes[n].name == (if naming == owner {
                arg_of(x)
            } else {
                naming + ":"@ + arg_of(x)
            })
            &&& c.nodes[n].parent == Some(target)
            &&& c.nodes[n].kw == x.keyword
            &&& c.nodes[n].owner_module == naming
            &&& c.nodes[n].config == b.nodes[target as int].config
            &&& c.nodes[target as int].children == b.nodes[target as int].children.push(n as usize)
            &&& c.nodes[target as int].name == b.nodes[target as int].name
        },
{
    lemma_for_data(x);
    law_statements_make_nodes(mods, b, resolve, naming, scope, x, target, fuel);
    assert(s.subs[0] == x);
    let c = made(mods, b, resolve, naming, scope, x, target, fuel)->Ok_0;
    let before = b.nodes[target as int].children.len() as int;
    let n = b.nodes.len() as int;
    let children = c.nodes[target as int].children;
    assert(children[before] == n as usize);
    crate::text_laws::law_prefixes_come_off(Seq::empty(), arg_of(x));
    let d = crate::yang::meaning::renamed(c.nodes, children, before, naming);
    assert(d == crate::yang::meaning::renamed(
        c.nodes.update(n, NodeView { name: naming + ":"@ + arg_of(x), ..c.nodes[n] }),
        children,
        before + 1,
        naming,
    ));
    assert(d == c.nodes.update(n, NodeView { name: naming + ":"@ + arg_of(x), ..c.nodes[n] }));
    let e = if naming != owner {
        Build { nodes: d, ..c }
    } else {
        c
    };
    assert(augment_made(mods, e, resolve, naming, scope, s, 1, target, owner, fuel) == Ok::<
        Build,
        Seq<char>,
    >(e));
}

} // verus!
