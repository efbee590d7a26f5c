//! What SID files say, and which substatement is meant.
use vstd::prelude::*;

use crate::json::{member, Tree};
use crate::yang::parser::{arg_of, find_kind, is_kind, kinds, StmtView};
use crate::yang::sid::{
    known_items, namespace_named, raw_item, raw_items, sid_file, Namespace, SidFileView,
    SidItemView,
};

verus! {

/// Whether a value is the object of a SID: its namespace by name, its identifier
/// and its number.
pub open spec fn is_item(v: Tree, x: SidItemView) -> bool {
    v matches Tree::Object(m) && {
        &&& member(m, "namespace"@) == Some(
            Tree::Text(
                match x.namespace {
                    Namespace::Module => "module"@,
                    Namespace::Identity => "identity"@,
                    Namespace::Data => "data"@,
                    Namespace::Feature => "feature"@,
                },
            ),
        )
        &&& member(m, "identifier"@) == Some(Tree::Text(x.identifier))
        &&& member(m, "sid"@) == Some(Tree::Integer(x.sid as int))
    }
}

/// The names of namespaces.
proof fn lemma_namespaces()
    ensures
        namespace_named("module"@) == Some(Namespace::Module),
        namespace_named("identity"@) == Some(Namespace::Identity),
        namespace_named("data"@) == Some(Namespace::Data),
        namespace_named("feature"@) == Some(Namespace::Feature),
{
    reveal_strlit("module");
    reveal_strlit("identity");
    reveal_strlit("data");
    reveal_strlit("feature");
    assert("module"@.len() == 6 && "identity"@.len() == 8 && "data"@.len() == 4 && "feature"@.len()
        == 7);
}

/// The first items are read.
proof fn lemma_items(a: Seq<Tree>, xs: Seq<SidItemView>, n: int)
    requires
        a.len() == xs.len(),
        0 <= n <= a.len(),
        forall|i: int| 0 <= i < a.len() ==> is_item(#[trigger] a[i], xs[i]),
    ensures
        raw_items(a, n) matches Ok(raw) && raw.len() == n && known_items(raw, n) == Ok::<
            Seq<SidItemView>,
            Seq<char>,
        >(xs.subrange(0, n)),
    decreases n,
{
    lemma_namespaces();
    if n > 0 {
        lemma_items(a, xs, n - 1);
        assert(is_item(a[n - 1], xs[n - 1]));
        let before = raw_items(a, n - 1)->Ok_0;
        let raw = raw_items(a, n)->Ok_0;
        assert(raw == before.push(raw_item(a[n - 1])->Ok_0));
        lemma_known_prefix(before, raw, n - 1);
        assert(raw[n - 1] == raw_item(a[n - 1])->Ok_0);
        assert(xs.subrange(0, n - 1).push(xs[n - 1]) =~= xs.subrange(0, n));
    } else {
        assert(xs.subrange(0, 0) =~= Seq::empty());
    }
}

/// Further items do not change the first.
proof fn lemma_known_prefix(
    a: Seq<(Seq<char>, Seq<char>, i64)>,
    b: Seq<(Seq<char>, Seq<char>, i64)>,
    n: int,
)
    requires
        0 <= n <= a.len() <= b.len(),
        forall|i: int| 0 <= i < a.len() ==> #[trigger] a[i] == b[i],
    ensures
        known_items(a, n) == known_items(b, n),
    decreases n,
{
    if n > 0 {
        lemma_known_prefix(a, b, n - 1);
        assert(a[n - 1] == b[n - 1]);
    }
}

/// A SID file names its module, and gives its SIDs in their order, each with
/// its namespace, identifier and number.
pub proof fn law_sid_files_are_read(
    m: Seq<(Seq<char>, Tree)>,
    name: Seq<char>,
    a: Seq<Tree>,
    xs: Seq<SidItemView>,
)
    requires
        member(m, "module-name"@) == Some(Tree::Text(name)),
        member(m, "items"@) == Some(Tree::Array(a)),
        a.len() == xs.len(),
        forall|i: int| 0 <= i < a.len() ==> is_item(#[trigger] a[i], xs[i]),
    ensures
        sid_file(Tree::Object(m)) == Ok::<SidFileView, Seq<char>>(
            SidFileView { module_name: name, items: xs },
        ),
{
    lemma_items(a, xs, a.len() as int);
    assert(xs.subrange(0, xs.len() as int) =~= xs);
}

/// What lacks a name or items is no SID file.
pub proof fn law_sid_files_are_whole(v: Tree)
    ensures
        !(v is Object) && !(v is Array) ==> sid_file(v) is Err,
        v matches Tree::Object(m) ==> (member(m, "module-name"@) is None || member(m, "items"@)
            is None ==> sid_file(v) is Err),
{
}

/// The substatement that is meant by a keyword is the first that has it and no
/// prefix; none is meant only where none has it.
pub proof fn law_the_first_substatement_counts(subs: Seq<StmtView>, keyword: Seq<char>, from: int)
    requires
        0 <= from <= subs.len(),
    ensures
        match find_kind(subs, keyword, from) {
            Some(i) => from <= i < subs.len() && subs[i].keyword == keyword && subs[i].prefix is None
                && forall|j: int|
                from <= j < i ==> !((#[trigger] subs[j]).keyword == keyword && subs[j].prefix
                    is None),
            None => forall|j: int|
                from <= j < subs.len() ==> !((#[trigger] subs[j]).keyword == keyword
                    && subs[j].prefix is None),
        },
    decreases subs.len() - from,
{
    if from < subs.len() && !is_kind(subs[from], keyword) {
        law_the_first_substatement_counts(subs, keyword, from + 1);
    }
}

/// All substatements with a keyword are those that have it, in their order.
pub proof fn law_all_substatements_are_found(subs: Seq<StmtView>, keyword: Seq<char>, n: int)
    requires
        0 <= n <= subs.len(),
    ensures
        kinds(subs, keyword, n) == subs.subrange(0, n).filter(
            |s: StmtView| s.prefix is None && s.keyword == keyword,
        ),
    decreases n,
{
    reveal(Seq::filter);
    let keep = |s: StmtView| s.prefix is None && s.keyword == keyword;
    if n > 0 {
        law_all_substatements_are_found(subs, keyword, n - 1);
        assert(subs.subrange(0, n).drop_last() =~= subs.subrange(0, n - 1));
        assert(subs.subrange(0, n).last() == subs[n - 1]);
    }
    assert(kinds(subs, keyword, n) =~= subs.subrange(0, n).filter(keep));
}

/// An argument that is not there is empty.
pub proof fn law_arguments_of_statements(s: StmtView)
    ensures
        s.arg matches Some(a) ==> arg_of(s) == a,
        s.arg is None ==> arg_of(s).len() == 0,
{
}

} // verus!
