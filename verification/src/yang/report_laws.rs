//! What is told of errors that are passed over, and of values without names.
use vstd::prelude::*;

use crate::cbor::value::Item;
use crate::json::Tree;
use crate::text::{decimal_text, quoted_text};
use crate::yang::bodies::{
    body_encoded, delta_base, entries_encoded, fields_encoded, leaves_encoded, missing_at,
    missing_field, node_encoded, ContentFormat,
};
use crate::yang::codec::{entries_bytes, entry_encoded, sequence_in, tree_encoded};
use crate::yang::notices::{
    body_noted, data_noted, entries_noted, entry_noted, enum_noted, field_node, field_noted,
    field_reads, fields_noted, leaf_noted, leaves_noted, list_entry_noted, node_noted, path_noted, plain_noted,
    response_noted, value_noted,
};
use crate::yang::readings::path_decoded;
use crate::yang::scalars::{enum_valued, signed_low, DecimalView};
use crate::yang::schema::{child_of, Builtin, EnumView, NodeView, SchemaView};
use crate::yang::tree_laws::{law_passing_over_keeps_what_is_valid, lemma_body_leniently};
use crate::yang::warning_laws::law_silence_means_valid;
use crate::yang::warnings::{
    all_missing, body_warned, caught, data_warned, entries_warned, entry_passes, entry_warned,
    field_passes, field_warned, fields_warned, leaf_warned, leaves_warned, lemma_entries_step, lemma_fields_step, list_entry_passes,
    list_entry_warned, node_warned, request_warned, tree_warned,
};
use crate::yang::values::path_encoded;

verus! {

/// Whether a message comes first.
pub open spec fn comes_first(told: Seq<Seq<char>>, e: Seq<char>) -> bool {
    told.len() > 0 && told[0] == e
}

/// The messages on missing fields only grow.
proof fn lemma_missing_grows(
    s: SchemaView,
    scope: usize,
    m: Seq<(Seq<char>, Tree)>,
    cf: ContentFormat,
    j: int,
    k: int,
    e: Seq<char>,
)
    requires
        0 <= j <= k,
        comes_first(all_missing(s, scope, m, cf, j), e),
    ensures
        comes_first(all_missing(s, scope, m, cf, k), e),
    decreases k - j,
{
    if j < k {
        lemma_missing_grows(s, scope, m, cf, j, k - 1, e);
    }
}

/// The first field that is missing is told first.
proof fn lemma_missing_first(
    s: SchemaView,
    scope: usize,
    m: Seq<(Seq<char>, Tree)>,
    cf: ContentFormat,
    j: int,
    k: int,
    e: Seq<char>,
)
    requires
        0 <= j <= k == s.nodes[scope as int].children.len(),
        all_missing(s, scope, m, cf, j).len() == 0,
        missing_field(s, scope, m, cf, j) == Some(e),
    ensures
        comes_first(all_missing(s, scope, m, cf, k), e),
    decreases k - j,
{
    if j < k {
        assert(all_missing(s, scope, m, cf, j + 1) == match missing_at(s, scope, m, cf, j) {
            Some(x) => all_missing(s, scope, m, cf, j).push(x),
            None => all_missing(s, scope, m, cf, j),
        });
        if missing_at(s, scope, m, cf, j) is Some {
            lemma_missing_grows(s, scope, m, cf, j + 1, k, e);
        } else {
            lemma_missing_first(s, scope, m, cf, j + 1, k, e);
        }
    }
}

/// The first error among the members of an object is told first.
proof fn lemma_fields_first(
    s: SchemaView,
    scope: usize,
    m: Seq<(Seq<char>, Tree)>,
    i: int,
    cf: ContentFormat,
    seen: Seq<(Item, Item)>,
)
    requires
        0 <= i <= m.len(),
    ensures
        fields_encoded(s, scope, m, i, cf, false, seen) matches Err(e) ==> comes_first(
            fields_warned(s, scope, m, i, cf) + caught(
                fields_encoded(s, scope, m, i, cf, true, seen),
            ),
            e,
        ),
        fields_encoded(s, scope, m, i, cf, false, seen) is Ok ==> fields_warned(
            s,
            scope,
            m,
            i,
            cf,
        ).len() == 0 && fields_encoded(s, scope, m, i, cf, true, seen) is Ok,
    decreases m, 0int, m.len() - i,
{
    if i < m.len() {
        lemma_fields_step(s, scope, m, i, cf);
        reveal(field_warned);
        reveal(field_passes);
        match child_of(s, scope, m[i].0) {
            None => {},
            Some(child) => match s.nodes[child as int].sid {
                None => {},
                Some(sid) => {
                    let v = m[i].1;
                    law_passing_over_keeps_what_is_valid(s, child, v, cf);
                    law_silence_means_valid(s, child, v, cf);
                    law_the_first_error_is_told_first(s, child, v, cf);
                    if let Ok(item) = node_encoded(s, child, v, cf, false) {
                        let key = Item::Integer(signed_low(sid - delta_base(s, scope)));
                        lemma_fields_first(s, scope, m, i + 1, cf, seen.push((key, item)));
                    }
                },
            },
        }
    }
}

/// The first error in a body is told first.
proof fn lemma_body_first(s: SchemaView, scope: usize, m: Seq<(Seq<char>, Tree)>, cf: ContentFormat)
    ensures
        body_encoded(s, scope, m, cf, false) matches Err(e) ==> comes_first(
            body_warned(s, scope, m, cf) + caught(body_encoded(s, scope, m, cf, true)),
            e,
        ),
    decreases m, 1int, 0int,
{
    lemma_fields_first(s, scope, m, 0, cf, Seq::empty());
    let k = s.nodes[scope as int].children.len() as int;
    if fields_encoded(s, scope, m, 0, cf, false, Seq::empty()) is Ok {
        if let Some(e) = missing_field(s, scope, m, cf, 0) {
            lemma_missing_first(s, scope, m, cf, 0, k, e);
        }
    }
}

/// The first error among the entries of a list is told first.
proof fn lemma_entries_first(
    s: SchemaView,
    node: usize,
    a: Seq<Tree>,
    i: int,
    cf: ContentFormat,
    seen: Seq<Item>,
)
    requires
        0 <= i <= a.len(),
    ensures
        entries_encoded(s, node, a, i, cf, false, seen) matches Err(e) ==> comes_first(
            entries_warned(s, node, a, i, cf) + caught(
                entries_encoded(s, node, a, i, cf, true, seen),
            ),
            e,
        ),
    decreases a, 0int, a.len() - i,
{
    if i < a.len() {
        lemma_entries_step(s, node, a, i, cf);
        reveal(list_entry_warned);
        reveal(list_entry_passes);
        match a[i] {
            Tree::Object(m) => {
                lemma_body_leniently(s, node, m, cf);
                lemma_body_first(s, node, m, cf);
                if let Ok(item) = body_encoded(s, node, m, cf, false) {
                    lemma_body_silent(s, node, m, cf);
                    lemma_entries_first(s, node, a, i + 1, cf, seen.push(item));
                }
            },
            _ => {},
        }
    }
}

/// Nothing is told of a valid body.
proof fn lemma_body_silent(s: SchemaView, scope: usize, m: Seq<(Seq<char>, Tree)>, cf: ContentFormat)
    requires
        body_encoded(s, scope, m, cf, false) is Ok,
    ensures
        body_warned(s, scope, m, cf).len() == 0,
    decreases m, 1int, 0int,
{
    lemma_fields_first(s, scope, m, 0, cf, Seq::empty());
    let k = s.nodes[scope as int].children.len() as int;
    lemma_none_missing(s, scope, m, cf, 0, k);
}

/// Nothing is told where nothing is missing.
proof fn lemma_none_missing(
    s: SchemaView,
    scope: usize,
    m: Seq<(Seq<char>, Tree)>,
    cf: ContentFormat,
    j: int,
    k: int,
)
    requires
        0 <= j <= k == s.nodes[scope as int].children.len(),
        all_missing(s, scope, m, cf, j).len() == 0,
        missing_field(s, scope, m, cf, j) is None,
    ensures
        all_missing(s, scope, m, cf, k).len() == 0,
    decreases k - j,
{
    if j < k {
        assert(all_missing(s, scope, m, cf, j + 1) == all_missing(s, scope, m, cf, j));
        lemma_none_missing(s, scope, m, cf, j + 1, k);
    }
}

/// The first error among the values of a leaf-list is told first.
proof fn lemma_leaves_first(s: SchemaView, n: NodeView, a: Seq<Tree>, k: int)
    requires
        0 <= k,
    ensures
        leaves_encoded(s, n, a, false, k) matches Err(e) ==> comes_first(
            leaves_warned(s, n, a, k) + caught(leaves_encoded(s, n, a, true, k)),
            e,
        ),
        n.type_id is Some ==> leaves_encoded(s, n, a, true, k) is Ok,
        leaves_encoded(s, n, a, false, k) is Ok ==> leaves_warned(s, n, a, k).len() == 0,
        n.type_id is None ==> leaves_warned(s, n, a, k).len() == 0 && leaves_encoded(
            s,
            n,
            a,
            true,
            k,
        ) == leaves_encoded(s, n, a, false, k),
    decreases k,
{
    if k > 0 {
        lemma_leaves_first(s, n, a, k - 1);
        let before = leaves_warned(s, n, a, k - 1);
        assert(leaves_warned(s, n, a, k) == before + leaf_warned(s, n, a[k - 1]));
    }
}

/// The law for operations.
proof fn lemma_operation_first(s: SchemaView, node: usize, m: Seq<(Seq<char>, Tree)>, cf: ContentFormat)
    requires
        s.nodes[node as int].kw == "rpc"@ || s.nodes[node as int].kw == "action"@,
        ({
            let direct = m.len() == 1 && (m[0].0 == "input"@ || m[0].0 == "output"@);
            let side = match child_of(s, node, "input"@) {
                Some(c) => c,
                None => node,
            };
            &&& direct ==> match (child_of(s, node, m[0].0), m[0].1) {
                (Some(own), Tree::Object(inner)) => body_encoded(s, own, inner, cf, false) matches Err(
                    e,
                ) ==> comes_first(
                    body_warned(s, own, inner, cf) + caught(body_encoded(s, own, inner, cf, true)),
                    e,
                ),
                _ => true,
            }
            &&& !direct ==> (body_encoded(s, side, m, cf, false) matches Err(e) ==> comes_first(
                body_warned(s, side, m, cf) + caught(body_encoded(s, side, m, cf, true)),
                e,
            ))
        }),
    ensures
        node_encoded(s, node, Tree::Object(m), cf, false) matches Err(e) ==> comes_first(
            node_warned(s, node, Tree::Object(m), cf) + caught(
                node_encoded(s, node, Tree::Object(m), cf, true),
            ),
            e,
        ),
{
    reveal_strlit("leaf");
    reveal_strlit("leaf-list");
    reveal_strlit("container");
    reveal_strlit("input");
    reveal_strlit("output");
    reveal_strlit("list");
    reveal_strlit("rpc");
    reveal_strlit("action");
    let kw = s.nodes[node as int].kw;
    assert(kw.len() == 3 || kw.len() == 6);
    assert(kw[0] == 'r' || kw[0] == 'a');
    assert(kw != "leaf"@ && kw != "leaf-list"@ && kw != "container"@ && kw != "list"@);
    assert("input"@[0] == 'i' && "output"@[0] == 'o');
    assert(kw != "input"@ && kw != "output"@);
}

/// Where errors are passed over, the first thing that is told of data is the
/// error that they are refused with where errors are not passed over. Where
/// nothing is told before, it is the error that cannot be passed over.
pub proof fn law_the_first_error_is_told_first(
    s: SchemaView,
    node: usize,
    v: Tree,
    cf: ContentFormat,
)
    ensures
        node_encoded(s, node, v, cf, false) matches Err(e) ==> comes_first(
            node_warned(s, node, v, cf) + caught(node_encoded(s, node, v, cf, true)),
            e,
        ),
    decreases v, 2int, 0int,
{
    let n = s.nodes[node as int];
    match v {
        Tree::Object(m) => {
            if n.kw == "rpc"@ || n.kw == "action"@ {
                if m.len() == 1 && m[0].1 is Object && child_of(s, node, m[0].0) is Some {
                    lemma_body_first(s, child_of(s, node, m[0].0)->0, m[0].1->Object_0, cf);
                }
                let side = match child_of(s, node, "input"@) {
                    Some(c) => c,
                    None => node,
                };
                lemma_body_first(s, side, m, cf);
                lemma_operation_first(s, node, m, cf);
            } else {
                lemma_body_first(s, node, m, cf);
            }
        },
        Tree::Array(a) => {
            lemma_entries_first(s, node, a, 0, cf, Seq::empty());
            lemma_leaves_first(s, n, a, a.len() as int);
        },
        _ => {},
    }
}

/// The first thing that is told of a whole tree is the error that it is refused
/// with where errors are not passed over.
pub proof fn law_the_first_error_of_a_tree(s: SchemaView, v: Tree, cf: ContentFormat)
    ensures
        tree_encoded(s, v, cf, false) matches Err(e) ==> comes_first(tree_warned(s, v, cf), e),
{
    match v {
        Tree::Object(m) => {
            lemma_body_first(s, s.root, m, cf);
        },
        _ => {},
    }
}

/// A field that there is not is refused by its name.
pub proof fn law_unknown_fields_are_refused(
    s: SchemaView,
    scope: usize,
    m: Seq<(Seq<char>, Tree)>,
    cf: ContentFormat,
)
    requires
        m.len() > 0,
        child_of(s, scope, m[0].0) is None,
    ensures
        body_encoded(s, scope, m, cf, false) == Err::<Item, Seq<char>>(
            quoted_text(m[0].0) + " is not a valid field inside "@ + (if s.nodes[scope as int].name
                == "data-tree-schema"@ {
                "the request"@
            } else {
                s.nodes[scope as int].name
            }) + " -- check for a typo or the wrong nesting"@,
        ),
{
}

/// A number is found among the values exactly where one has it.
proof fn lemma_valued(enums: Seq<EnumView>, n: int, from: int)
    requires
        0 <= from <= enums.len(),
    ensures
        enum_valued(enums, n, from) is Some <==> exists|i: int|
            from <= i < enums.len() && (#[trigger] enums[i]).value == n,
    decreases enums.len() - from,
{
    if from < enums.len() {
        lemma_valued(enums, n, from + 1);
        if enums[from].value != n && exists|i: int|
            from <= i < enums.len() && (#[trigger] enums[i]).value == n {
            let i = choose|i: int| from <= i < enums.len() && (#[trigger] enums[i]).value == n;
            assert(from + 1 <= i);
        }
    }
}

/// A number that no value of an enumeration has is told of, once, and one that a
/// value has is not.
pub proof fn law_unnamed_numbers_are_told(
    s: SchemaView,
    node: usize,
    t: usize,
    n: int,
    cf: ContentFormat,
    d: Seq<DecimalView>,
)
    requires
        s.nodes[node as int].kw == "leaf"@,
        s.nodes[node as int].type_id == Some(t),
        s.types[crate::yang::choices::governing(s, t) as int].builtin == Builtin::Enumeration,
    ensures
        ({
            let enums = s.types[crate::yang::choices::governing(s, t) as int].enums;
            let told = node_noted(s, node, Item::Integer(n), cf, d);
            &&& (exists|i: int| 0 <= i < enums.len() && (#[trigger] enums[i]).value == n)
                ==> told.len() == 0
            &&& !(exists|i: int| 0 <= i < enums.len() && (#[trigger] enums[i]).value == n)
                ==> told == seq![
                "the device reported enum value "@ + decimal_text(n)
                    + ", which isn't defined in the loaded YANG catalog (the device's firmware may be newer than the catalog) -- showing the raw number instead of a name"@,
            ]
        }),
{
    let g = crate::yang::choices::governing(s, t);
    let ty = s.types[g as int];
    lemma_valued(ty.enums, n, 0);
    assert(value_noted(s, t, Item::Integer(n), false, d) == plain_noted(
        s,
        g,
        Item::Integer(n),
        false,
        d,
    ));
    assert(plain_noted(s, g, Item::Integer(n), false, d) == enum_noted(ty, Item::Integer(n), false));
}

/// The first error in an entry of a request is told first.
proof fn lemma_entry_first(s: SchemaView, v: Tree, cf: ContentFormat)
    ensures
        entry_encoded(s, v, cf, false) matches Err(e) ==> comes_first(
            entry_warned(s, v, cf) + caught(entry_encoded(s, v, cf, true)),
            e,
        ) || !(cf == ContentFormat::Fetch || cf == ContentFormat::Ipatch || cf
            == ContentFormat::Post),
        entry_encoded(s, v, cf, false) is Ok ==> entry_warned(s, v, cf).len() == 0
            && entry_encoded(s, v, cf, true) == entry_encoded(s, v, cf, false),
{
    reveal(entry_warned);
    match v {
        Tree::Object(m) => {
            if m.len() == 1 && !(m[0].1 is Null) {
                if let Ok((node, _)) = path_encoded(s, m[0].0) {
                    law_the_first_error_is_told_first(s, node, m[0].1, cf);
                    law_silence_means_valid(s, node, m[0].1, cf);
                    law_passing_over_keeps_what_is_valid(s, node, m[0].1, cf);
                }
            }
        },
        _ => {},
    }
}

/// The first entry of a request that is refused decides.
proof fn lemma_refused_entry(
    s: SchemaView,
    a: Seq<Tree>,
    cf: ContentFormat,
    cont: bool,
    n: int,
) -> (k: int)
    requires
        0 <= n <= a.len(),
        entries_bytes(s, a, cf, cont, n) is Err,
    ensures
        0 <= k < n,
        entry_encoded(s, a[k], cf, cont) == Err::<Item, Seq<char>>(
            entries_bytes(s, a, cf, cont, n)->Err_0,
        ),
        forall|j: int| 0 <= j < k ==> (#[trigger] entry_encoded(s, a[j], cf, cont)) is Ok,
        entries_bytes(s, a, cf, cont, k) is Ok,
    decreases n,
{
    if entries_bytes(s, a, cf, cont, n - 1) is Err {
        lemma_refused_entry(s, a, cf, cont, n - 1)
    } else {
        lemma_taken_entries(s, a, cf, cont, n - 1);
        n - 1
    }
}

/// All entries of a request that is taken are.
proof fn lemma_taken_entries(s: SchemaView, a: Seq<Tree>, cf: ContentFormat, cont: bool, n: int)
    requires
        0 <= n <= a.len(),
        entries_bytes(s, a, cf, cont, n) is Ok,
    ensures
        forall|j: int| 0 <= j < n ==> (#[trigger] entry_encoded(s, a[j], cf, cont)) is Ok,
    decreases n,
{
    if n > 0 {
        lemma_taken_entries(s, a, cf, cont, n - 1);
    }
}

/// Nothing is told of the entries before one.
proof fn lemma_silent_before(s: SchemaView, a: Seq<Tree>, cf: ContentFormat, i: int, k: int)
    requires
        0 <= i <= k <= a.len(),
        forall|j: int| 0 <= j < k ==> (#[trigger] entry_encoded(s, a[j], cf, false)) is Ok,
    ensures
        request_warned(s, a, i, cf) == request_warned(s, a, k, cf),
    decreases k - i,
{
    if i < k {
        lemma_silent_before(s, a, cf, i + 1, k);
        assert(entry_encoded(s, a[i], cf, false) is Ok);
        lemma_entry_first(s, a[i], cf);
        reveal(entry_passes);
        assert(entry_warned(s, a[i], cf) =~= Seq::empty());
        assert(request_warned(s, a, i, cf) =~= request_warned(s, a, i + 1, cf));
    }
}

/// The first thing that is told of a request of entries is the error that it is
/// refused with where errors are not passed over. Where nothing is told before,
/// it is the error that cannot be passed over.
pub proof fn law_the_first_error_of_a_request(s: SchemaView, a: Seq<Tree>, cf: ContentFormat)
    requires
        cf == ContentFormat::Fetch || cf == ContentFormat::Ipatch || cf == ContentFormat::Post,
    ensures
        entries_bytes(s, a, cf, false, a.len() as int) matches Err(e) ==> comes_first(
            data_warned(s, Tree::Array(a), cf) + caught(
                entries_bytes(s, a, cf, true, a.len() as int),
            ),
            e,
        ),
        entries_bytes(s, a, cf, false, a.len() as int) is Ok ==> data_warned(
            s,
            Tree::Array(a),
            cf,
        ).len() == 0,
{
    let n = a.len() as int;
    if let Err(e) = entries_bytes(s, a, cf, false, n) {
        let k = lemma_refused_entry(s, a, cf, false, n);
        lemma_silent_before(s, a, cf, 0, k);
        lemma_entry_first(s, a[k], cf);
        reveal(entry_passes);
        if entry_encoded(s, a[k], cf, true) is Ok {
            assert(comes_first(request_warned(s, a, k, cf), e));
        } else {
            assert forall|j: int| 0 <= j < k implies (#[trigger] entry_encoded(
                s,
                a[j],
                cf,
                true,
            )) is Ok by {
                assert(entry_encoded(s, a[j], cf, false) is Ok);
                lemma_entry_first(s, a[j], cf);
            }
            lemma_fails_at(s, a, cf, k, n);
        }
    } else {
        lemma_taken_entries(s, a, cf, false, n);
        lemma_silent_before(s, a, cf, 0, n);
    }
}

/// A request fails with its first entry that does.
proof fn lemma_fails_at(s: SchemaView, a: Seq<Tree>, cf: ContentFormat, k: int, n: int)
    requires
        0 <= k < n <= a.len(),
        entry_encoded(s, a[k], cf, true) is Err,
        forall|j: int| 0 <= j < k ==> (#[trigger] entry_encoded(s, a[j], cf, true)) is Ok,
    ensures
        entries_bytes(s, a, cf, true, n) == Err::<Seq<u8>, Seq<char>>(
            entry_encoded(s, a[k], cf, true)->Err_0,
        ),
    decreases n,
{
    if k < n - 1 {
        lemma_fails_at(s, a, cf, k, n - 1);
    } else {
        lemma_goes_on(s, a, cf, k);
    }
}

/// A request goes on as long as its entries do.
proof fn lemma_goes_on(s: SchemaView, a: Seq<Tree>, cf: ContentFormat, k: int)
    requires
        0 <= k <= a.len(),
        forall|j: int| 0 <= j < k ==> (#[trigger] entry_encoded(s, a[j], cf, true)) is Ok,
    ensures
        entries_bytes(s, a, cf, true, k) is Ok,
    decreases k,
{
    if k > 0 {
        lemma_goes_on(s, a, cf, k - 1);
        assert(entry_encoded(s, a[k - 1], cf, true) is Ok);
    }
}

/// What is told of a table with one field is what is told of the data of the node
/// that the field means: the one whose SID is the number of the field behind the
/// SID of the table's node.
pub proof fn law_notices_of_fields(
    s: SchemaView,
    node: usize,
    child: usize,
    sid: i64,
    k: int,
    v: Item,
    cf: ContentFormat,
    d: Seq<DecimalView>,
)
    requires
        s.nodes[node as int].kw == "container"@,
        s.nodes[node as int].sid == Some(sid),
        i64::MIN <= k <= i64::MAX,
        i64::MIN <= sid + k <= i64::MAX,
        s.sid_index.contains_key((sid + k) as i64),
        s.sid_index[(sid + k) as i64] == child,
    ensures
        node_noted(s, node, Item::Entries(seq![(Item::Integer(k), v)]), cf, d) == node_noted(
            s,
            child,
            v,
            cf,
            d,
        ),
{
    lemma_container();
    reveal(field_noted);
    let e = seq![(Item::Integer(k), v)];
    let t = Item::Entries(e);
    assert(e[0] == (Item::Integer(k), v));
    assert(signed_low(k) == k);
    assert(signed_low(k + sid) == sid + k);
    assert(delta_base(s, node) == sid);
    assert(field_node(s, node, t, 0) == Some(child));
    assert(field_noted(s, node, t, 0, cf, d) == node_noted(s, child, v, cf, d));
    lemma_one_field(s, node, t, cf, d);
    assert(node_noted(s, node, t, cf, d) == body_noted(s, node, t, cf, d));
}

/// What is told of one field is all that is told.
proof fn lemma_one_field(s: SchemaView, node: usize, t: Item, cf: ContentFormat, d: Seq<DecimalView>)
    requires
        t is Entries,
        t->Entries_0.len() == 1,
    ensures
        body_noted(s, node, t, cf, d) == field_noted(s, node, t, 0, cf, d),
{
    let first = field_noted(s, node, t, 0, cf, d);
    let rest = fields_noted(s, node, t, 1, cf, d);
    assert(rest =~= Seq::empty());
    assert(first + rest =~= first);
    lemma_first_field(s, node, t, cf, d);
}

/// One step over the fields of a table.
proof fn lemma_first_field(
    s: SchemaView,
    node: usize,
    t: Item,
    cf: ContentFormat,
    d: Seq<DecimalView>,
)
    requires
        t is Entries,
        t->Entries_0.len() == 1,
    ensures
        fields_noted(s, node, t, 0, cf, d) == (if field_reads(s, node, t, 0, cf, d) {
            field_noted(s, node, t, 0, cf, d) + fields_noted(s, node, t, 1, cf, d)
        } else {
            field_noted(s, node, t, 0, cf, d)
        }),
{
    reveal(field_noted);
}

/// A container is no leaf.
proof fn lemma_container()
    ensures
        "container"@ != "leaf"@,
        "container"@ != "leaf-list"@,
        "container"@ != "input"@,
        "container"@ != "output"@,
        "list"@ != "leaf"@,
        "list"@ != "leaf-list"@,
        "list"@ != "container"@,
        "list"@ != "input"@,
        "list"@ != "output"@,
        "leaf-list"@ != "leaf"@,
{
    reveal_strlit("leaf");
    reveal_strlit("leaf-list");
    reveal_strlit("container");
    reveal_strlit("input");
    reveal_strlit("output");
    reveal_strlit("list");
    assert("list"@.len() == 4 && "leaf"@.len() == 4 && "leaf-list"@.len() == 9 && "container"@.len()
        == 9 && "input"@.len() == 5 && "output"@.len() == 6);
    assert("list"@[1] == 'i' && "leaf"@[1] == 'e' && "leaf-list"@[0] == 'l' && "container"@[0]
        == 'c');
}

/// What is told of a list with one entry is what is told of the entry, and of a
/// leaf-list with one value what is told of the value in a leaf of its type.
pub proof fn law_notices_of_lists(
    s: SchemaView,
    node: usize,
    leaf: usize,
    v: Item,
    cf: ContentFormat,
    d: Seq<DecimalView>,
)
    requires
        s.nodes[leaf as int].kw == "leaf"@,
    ensures
        s.nodes[node as int].kw == "list"@ ==> node_noted(s, node, Item::Array(seq![v]), cf, d)
            == body_noted(s, node, v, cf, d),
        s.nodes[node as int].kw == "leaf-list"@ && s.nodes[node as int].type_id
            == s.nodes[leaf as int].type_id ==> node_noted(s, node, Item::Array(seq![v]), cf, d)
            == node_noted(s, leaf, v, cf, d),
{
    lemma_container();
    reveal(list_entry_noted);
    let a = seq![v];
    let t = Item::Array(a);
    assert(a[0] == v);
    let n = s.nodes[node as int];
    if n.kw == "list"@ {
        let first = list_entry_noted(s, node, t, 0, cf, d);
        assert(entries_noted(s, node, t, 1, cf, d) =~= Seq::empty());
        assert(first + Seq::<Seq<char>>::empty() =~= first);
        assert(entries_noted(s, node, t, 0, cf, d) == first);
        assert(node_noted(s, node, t, cf, d) == entries_noted(s, node, t, 0, cf, d));
    }
    if n.kw == "leaf-list"@ && n.type_id == s.nodes[leaf as int].type_id {
        let first = leaf_noted(s, n, v, d);
        assert(leaves_noted(s, n, a, 1, d) =~= Seq::empty());
        assert(first + Seq::<Seq<char>>::empty() =~= first);
        assert(leaves_noted(s, n, a, 0, d) == first);
    }
}

/// What is told of a response with one entry is what is told of its path and then
/// of its value; of a path alone, what is told of the path.
pub proof fn law_notices_of_responses(
    s: SchemaView,
    bytes: Seq<u8>,
    iid: Item,
    v: Item,
    node: usize,
    path: Seq<char>,
    d: Seq<DecimalView>,
)
    requires
        path_decoded(s, iid, d) == Ok::<(usize, Seq<char>), Seq<char>>((node, path)),
        !(v is Null),
        sequence_in(bytes) == Ok::<Seq<Item>, Seq<char>>(seq![Item::Entries(seq![(iid, v)])]),
    ensures
        data_noted(s, bytes, ContentFormat::Fetch, d) == path_noted(s, iid, d) + node_noted(
            s,
            node,
            v,
            ContentFormat::Fetch,
            d,
        ),
        data_noted(s, bytes, ContentFormat::Yang, d) == body_noted(
            s,
            s.root,
            Item::Entries(seq![(iid, v)]),
            ContentFormat::Yang,
            d,
        ),
{
    reveal(entry_noted);
    let e = seq![(iid, v)];
    let items = seq![Item::Entries(e)];
    assert(e[0] == (iid, v));
    assert(items[0] == Item::Entries(e));
    let cf = ContentFormat::Fetch;
    let first = entry_noted(s, items[0], cf, d);
    assert(response_noted(s, items, 1, cf, d) =~= Seq::empty());
    assert(first + Seq::<Seq<char>>::empty() =~= first);
    assert(response_noted(s, items, 0, cf, d) == first);
}

} // verus!
