//! What is passed over when errors in the data are to be passed over: the
//! messages, in the order in which they come up.
use vstd::prelude::*;

use crate::cbor::value::lemma_view;
use crate::json::{lemma_element_below, lemma_json_view, lemma_member_below, members, trees, Json, Tree};
use crate::text::{cat, cat4, quoted, texts};
use crate::yang::bodies::{
    body_encoded, encode_body, encode_entries, encode_fields, encode_node_value, entries_encoded,
    field_without_sid, fields_encoded, is_sequence, missing_at, missing_message, node_display_name,
    node_encoded, unknown_field, ContentFormat,
};
use crate::yang::codec::{entry_encoded, encode_entry, json_to_cbor, tree_encoded};
use crate::yang::scalars::CodecError;
use crate::yang::schema::{child_of, node_ok, Node, NodeId, NodeView, Schema, SchemaView};
use crate::yang::values::{path_encoded, resolve_iid, type_to_cbor, value_encoded};

verus! {

broadcast use {lemma_view, lemma_json_view};

/// The message of an error that is passed over.
pub open spec fn caught<T>(r: Result<T, Seq<char>>) -> Seq<Seq<char>> {
    match r {
        Ok(_) => Seq::empty(),
        Err(e) => seq![e],
    }
}

/// What is passed over in the value of a leaf.
pub open spec fn leaf_warned(s: SchemaView, n: NodeView, v: Tree) -> Seq<Seq<char>> {
    match n.type_id {
        None => Seq::empty(),
        Some(t) => caught(value_encoded(s, t, v, false)),
    }
}

/// What is passed over in the first `k` values of a leaf-list.
pub open spec fn leaves_warned(s: SchemaView, n: NodeView, a: Seq<Tree>, k: int) -> Seq<Seq<char>>
    decreases k,
{
    if k <= 0 {
        Seq::empty()
    } else {
        leaves_warned(s, n, a, k - 1) + leaf_warned(s, n, a[k - 1])
    }
}

/// The messages on all fields for the first `j` children that must be there
/// and are not.
pub open spec fn all_missing(
    s: SchemaView,
    scope: usize,
    m: Seq<(Seq<char>, Tree)>,
    cf: ContentFormat,
    j: int,
) -> Seq<Seq<char>>
    decreases j,
{
    if j <= 0 {
        Seq::empty()
    } else {
        let before = all_missing(s, scope, m, cf, j - 1);
        match missing_at(s, scope, m, cf, j - 1) {
            Some(e) => before.push(e),
            None => before,
        }
    }
}

/// What is passed over in the `i`-th member of an object.
#[verifier::opaque]
pub open spec fn field_warned(
    s: SchemaView,
    scope: usize,
    m: Seq<(Seq<char>, Tree)>,
    i: int,
    cf: ContentFormat,
) -> Seq<Seq<char>>
    decreases m, 0int, 0int,
{
    if i < 0 || i >= m.len() {
        Seq::empty()
    } else {
        match child_of(s, scope, m[i].0) {
            None => seq![unknown_field(m[i].0, s.nodes[scope as int])],
            Some(child) => match s.nodes[child as int].sid {
                None => seq![field_without_sid(m[i].0)],
                Some(_) => node_warned(s, child, m[i].1, cf),
            },
        }
    }
}

/// Whether every error in the `i`-th member of an object can be passed over.
#[verifier::opaque]
pub open spec fn field_passes(
    s: SchemaView,
    scope: usize,
    m: Seq<(Seq<char>, Tree)>,
    i: int,
    cf: ContentFormat,
) -> bool {
    match child_of(s, scope, m[i].0) {
        None => true,
        Some(child) => match s.nodes[child as int].sid {
            None => true,
            Some(_) => node_encoded(s, child, m[i].1, cf, true) is Ok,
        },
    }
}

/// What is passed over in the members of an object from the `i`-th on. An
/// error that cannot be passed over ends it.
pub open spec fn fields_warned(
    s: SchemaView,
    scope: usize,
    m: Seq<(Seq<char>, Tree)>,
    i: int,
    cf: ContentFormat,
) -> Seq<Seq<char>>
    decreases m, 1int, m.len() - i,
{
    if i < 0 || i >= m.len() {
        Seq::empty()
    } else if field_passes(s, scope, m, i, cf) {
        field_warned(s, scope, m, i, cf) + fields_warned(s, scope, m, i + 1, cf)
    } else {
        field_warned(s, scope, m, i, cf)
    }
}

/// What is passed over in the body of a node.
pub open spec fn body_warned(
    s: SchemaView,
    scope: usize,
    m: Seq<(Seq<char>, Tree)>,
    cf: ContentFormat,
) -> Seq<Seq<char>>
    decreases m, 2int, 0int,
{
    fields_warned(s, scope, m, 0, cf) + match fields_encoded(
        s,
        scope,
        m,
        0,
        cf,
        true,
        Seq::empty(),
    ) {
        Ok(_) => all_missing(s, scope, m, cf, s.nodes[scope as int].children.len() as int),
        Err(_) => Seq::empty(),
    }
}

/// What is passed over in one entry of a list.
#[verifier::opaque]
pub open spec fn list_entry_warned(s: SchemaView, node: usize, v: Tree, cf: ContentFormat) -> Seq<
    Seq<char>,
>
    decreases v, 0int, 0int,
{
    match v {
        Tree::Object(m) => body_warned(s, node, m, cf),
        _ => Seq::empty(),
    }
}

/// Whether every error in one entry of a list can be passed over.
#[verifier::opaque]
pub open spec fn list_entry_passes(
    s: SchemaView,
    node: usize,
    v: Tree,
    cf: ContentFormat,
) -> bool {
    match v {
        Tree::Object(m) => body_encoded(s, node, m, cf, true) is Ok,
        _ => false,
    }
}

/// What is passed over in the entries of a list from the `i`-th on. An error
/// that cannot be passed over ends it.
pub open spec fn entries_warned(
    s: SchemaView,
    node: usize,
    a: Seq<Tree>,
    i: int,
    cf: ContentFormat,
) -> Seq<Seq<char>>
    decreases a, 0int, a.len() - i,
{
    if i < 0 || i >= a.len() {
        Seq::empty()
    } else if list_entry_passes(s, node, a[i], cf) {
        list_entry_warned(s, node, a[i], cf) + entries_warned(s, node, a, i + 1, cf)
    } else {
        list_entry_warned(s, node, a[i], cf)
    }
}

/// What is passed over in the data of a node.
pub open spec fn node_warned(s: SchemaView, node: usize, v: Tree, cf: ContentFormat) -> Seq<
    Seq<char>,
>
    decreases v, 3int, 0int,
{
    let n = s.nodes[node as int];
    if n.kw == "leaf"@ {
        leaf_warned(s, n, v)
    } else if n.kw == "leaf-list"@ {
        match v {
            Tree::Array(a) => leaves_warned(s, n, a, a.len() as int),
            _ => Seq::empty(),
        }
    } else if n.kw == "container"@ || n.kw == "input"@ || n.kw == "output"@ {
        match v {
            Tree::Object(m) => body_warned(s, node, m, cf) + caught(
                body_encoded(s, node, m, cf, true),
            ),
            _ => caught(node_encoded(s, node, v, cf, false)),
        }
    } else if n.kw == "list"@ {
        match v {
            Tree::Array(a) => entries_warned(s, node, a, 0, cf) + caught(
                entries_encoded(s, node, a, 0, cf, true, Seq::empty()),
            ),
            Tree::Object(m) => if is_sequence(cf) {
                body_warned(s, node, m, cf) + caught(body_encoded(s, node, m, cf, true))
            } else {
                caught(node_encoded(s, node, v, cf, false))
            },
            _ => caught(node_encoded(s, node, v, cf, false)),
        }
    } else if n.kw == "rpc"@ || n.kw == "action"@ {
        match v {
            Tree::Object(m) => if m.len() == 1 && (m[0].0 == "input"@ || m[0].0 == "output"@) {
                match (child_of(s, node, m[0].0), m[0].1) {
                    (Some(side), Tree::Object(inner)) => body_warned(s, side, inner, cf),
                    _ => Seq::empty(),
                }
            } else {
                body_warned(
                    s,
                    match child_of(s, node, "input"@) {
                        Some(side) => side,
                        None => node,
                    },
                    m,
                    cf,
                )
            },
            _ => Seq::empty(),
        }
    } else {
        Seq::empty()
    }
}

/// Appends a message.
pub(crate) fn note(out: &mut Vec<String>, e: String)
    ensures
        texts(final(out)@) == texts(old(out)@).push(e@),
{
    let ghost before = texts(out@);
    out.push(e);
    assert(texts(out@) =~= before.push(e@));
}

/// Appends the message of an error.
fn note_error<T>(out: &mut Vec<String>, r: Result<T, CodecError>)
    ensures
        texts(final(out)@) == texts(old(out)@) + (match r {
            Ok(_) => Seq::empty(),
            Err(e) => seq![e.0@],
        }),
{
    let ghost before = texts(out@);
    match r {
        Ok(_) => {
            assert(before + Seq::<Seq<char>>::empty() =~= before);
        },
        Err(e) => {
            note(out, e.0);
            assert(before + seq![e.0@] =~= before.push(e.0@));
        },
    }
}

/// Appends what is passed over in the value of a leaf.
fn warn_leaf(schema: &Schema, n: &Node, v: &Json, out: &mut Vec<String>)
    requires
        schema.wf(),
        n@.type_id matches Some(t) ==> t < schema.types@.len(),
    ensures
        texts(final(out)@) == texts(old(out)@) + leaf_warned(schema@, n@, v@),
{
    match n.type_id {
        None => {
            assert(texts(out@) + Seq::<Seq<char>>::empty() =~= texts(out@));
        },
        Some(t) => {
            let made = type_to_cbor(schema, t, v, false, false);
            note_error(out, made);
        },
    }
}

/// Appends the messages on all fields that must be there and are not.
fn warn_missing(
    schema: &Schema,
    scope: NodeId,
    m: &Vec<(String, Json)>,
    cf: ContentFormat,
    out: &mut Vec<String>,
)
    requires
        schema.wf(),
        scope < schema.nodes@.len(),
    ensures
        texts(final(out)@) == texts(old(out)@) + all_missing(
            schema@,
            scope,
            members(m@),
            cf,
            schema@.nodes[scope as int].children.len() as int,
        ),
{
    let ghost s = schema@;
    let ghost fields = members(m@);
    let ghost start = texts(out@);
    assert(s.nodes[scope as int] == schema.nodes@[scope as int]@);
    let mut j: usize = 0;
    assert(start + all_missing(s, scope, fields, cf, 0) =~= start);
    while j < schema.nodes[scope].children.len()
        invariant
            schema.wf(),
            scope < schema.nodes@.len(),
            s == schema@,
            s.nodes[scope as int] == schema.nodes@[scope as int]@,
            j <= s.nodes[scope as int].children.len(),
            fields == members(m@),
            texts(out@) == start + all_missing(s, scope, fields, cf, j as int),
        decreases s.nodes[scope as int].children.len() - j,
    {
        let ghost before = all_missing(s, scope, fields, cf, j as int);
        if let Some(e) = missing_message(schema, scope, m, cf, j) {
            note(out, e);
            assert((start + before).push(e@) =~= start + before.push(e@));
        }
        j += 1;
    }
}

/// Messages that are appended one after the other.
pub(crate) proof fn lemma_joined(a: Seq<Seq<char>>, b: Seq<Seq<char>>, c: Seq<Seq<char>>)
    ensures
        (a + b) + c == a + (b + c),
        a + Seq::<Seq<char>>::empty() == a,
{
    assert((a + b) + c =~= a + (b + c));
    assert(a + Seq::<Seq<char>>::empty() =~= a);
}

/// One step over the members of an object.
pub(crate) proof fn lemma_fields_step(
    s: SchemaView,
    scope: usize,
    m: Seq<(Seq<char>, Tree)>,
    i: int,
    cf: ContentFormat,
)
    requires
        0 <= i < m.len(),
    ensures
        fields_warned(s, scope, m, i, cf) == if field_passes(s, scope, m, i, cf) {
            field_warned(s, scope, m, i, cf) + fields_warned(s, scope, m, i + 1, cf)
        } else {
            field_warned(s, scope, m, i, cf)
        },
{
    reveal(field_warned);
}

/// One step over the entries of a list.
pub(crate) proof fn lemma_entries_step(s: SchemaView, node: usize, a: Seq<Tree>, i: int, cf: ContentFormat)
    requires
        0 <= i < a.len(),
    ensures
        entries_warned(s, node, a, i, cf) == if list_entry_passes(s, node, a[i], cf) {
            list_entry_warned(s, node, a[i], cf) + entries_warned(s, node, a, i + 1, cf)
        } else {
            list_entry_warned(s, node, a[i], cf)
        },
{
    reveal(list_entry_warned);
}

/// Appends what is passed over in the `i`-th member of an object, and says
/// whether every error in it can be passed over.
fn warn_field(
    schema: &Schema,
    scope: NodeId,
    whole: &Json,
    m: &Vec<(String, Json)>,
    i: usize,
    cf: ContentFormat,
    out: &mut Vec<String>,
) -> (r: bool)
    requires
        schema.wf(),
        scope < schema.nodes@.len(),
        *whole == Json::Object(*m),
        i < m@.len(),
    ensures
        texts(final(out)@) == texts(old(out)@) + field_warned(
            schema@,
            scope,
            members(m@),
            i as int,
            cf,
        ),
        r == field_passes(schema@, scope, members(m@), i as int, cf),
    decreases whole, 0int,
{
    let ghost s = schema@;
    let ghost had = texts(out@);
    let n = &schema.nodes[scope];
    let key = m[i].0.as_str();
    proof {
        assert(s.nodes[scope as int] == n@);
        assert(members(m@)[i as int] == (m@[i as int].0@, m@[i as int].1@));
        lemma_member_below(*whole, i as int);
        reveal(field_warned);
        reveal(field_passes);
    }
    match schema.find_child(scope, key) {
        None => {
            let q = quoted(key);
            note(
                out,
                cat4(
                    q.as_str(),
                    " is not a valid field inside ",
                    node_display_name(n),
                    " -- check for a typo or the wrong nesting",
                ),
            );
            assert(texts(out@) =~= had + seq![unknown_field(key@, n@)]);
            true
        },
        Some(child) => {
            assert(s.nodes[child as int] == schema.nodes@[child as int]@);
            if schema.nodes[child].sid.is_none() {
                let q = quoted(key);
                note(
                    out,
                    cat(
                        q.as_str(),
                        " exists in the schema but has no SID assigned -- this looks like a catalog/schema problem, not a mistake in your data",
                    ),
                );
                assert(texts(out@) =~= had + seq![field_without_sid(key@)]);
                true
            } else {
                warn_node(schema, child, &m[i].1, cf, out);
                let made = encode_node_value(schema, child, &m[i].1, cf, true);
                made.is_ok()
            }
        },
    }
}

/// Appends what is passed over in the members of an object.
fn warn_fields(
    schema: &Schema,
    scope: NodeId,
    whole: &Json,
    m: &Vec<(String, Json)>,
    cf: ContentFormat,
    out: &mut Vec<String>,
)
    requires
        schema.wf(),
        scope < schema.nodes@.len(),
        *whole == Json::Object(*m),
    ensures
        texts(final(out)@) == texts(old(out)@) + fields_warned(schema@, scope, members(m@), 0, cf),
    decreases whole, 1int,
{
    let ghost s = schema@;
    let ghost fields = members(m@);
    let ghost all = texts(out@) + fields_warned(s, scope, fields, 0, cf);
    let mut i: usize = 0;
    while i < m.len()
        invariant
            i <= m@.len(),
            schema.wf(),
            scope < schema.nodes@.len(),
            *whole == Json::Object(*m),
            s == schema@,
            fields == members(m@),
            fields.len() == m@.len(),
            all == texts(old(out)@) + fields_warned(s, scope, fields, 0, cf),
            texts(out@) + fields_warned(s, scope, fields, i as int, cf) == all,
        decreases m@.len() - i,
    {
        let ghost had = texts(out@);
        let passed = warn_field(schema, scope, whole, m, i, cf, out);
        proof {
            lemma_fields_step(s, scope, fields, i as int, cf);
            lemma_joined(
                had,
                field_warned(s, scope, fields, i as int, cf),
                fields_warned(s, scope, fields, i + 1, cf),
            );
        }
        if !passed {
            return ;
        }
        i += 1;
    }
    proof {
        lemma_joined(texts(out@), Seq::empty(), Seq::empty());
    }
}

/// Appends what is passed over in the body of a node. `whole` is the object.
fn warn_body(
    schema: &Schema,
    scope: NodeId,
    whole: &Json,
    m: &Vec<(String, Json)>,
    cf: ContentFormat,
    out: &mut Vec<String>,
)
    requires
        schema.wf(),
        scope < schema.nodes@.len(),
        *whole == Json::Object(*m),
    ensures
        texts(final(out)@) == texts(old(out)@) + body_warned(schema@, scope, members(m@), cf),
    decreases whole, 2int,
{
    let ghost start = texts(out@);
    warn_fields(schema, scope, whole, m, cf, out);
    let ghost mid = texts(out@);
    let made = encode_fields(schema, scope, whole, m, cf, true);
    if made.is_ok() {
        warn_missing(schema, scope, m, cf, out);
    } else {
        assert(mid + Seq::<Seq<char>>::empty() =~= mid);
    }
    assert(texts(out@) =~= start + body_warned(schema@, scope, members(m@), cf));
}

/// Appends what is passed over in the body of a node, with the error that is
/// caught there.
fn warn_caught_body(
    schema: &Schema,
    scope: NodeId,
    whole: &Json,
    m: &Vec<(String, Json)>,
    cf: ContentFormat,
    out: &mut Vec<String>,
)
    requires
        schema.wf(),
        scope < schema.nodes@.len(),
        *whole == Json::Object(*m),
    ensures
        texts(final(out)@) == texts(old(out)@) + (body_warned(schema@, scope, members(m@), cf)
            + caught(body_encoded(schema@, scope, members(m@), cf, true))),
    decreases whole, 3int,
{
    let ghost start = texts(out@);
    warn_body(schema, scope, whole, m, cf, out);
    let made = encode_body(schema, scope, whole, m, cf, true);
    note_error(out, made);
    assert(texts(out@) =~= start + (body_warned(schema@, scope, members(m@), cf) + caught(
        body_encoded(schema@, scope, members(m@), cf, true),
    )));
}

/// Appends what is passed over in one entry of a list, and says whether every
/// error in it can be passed over.
fn warn_list_entry(
    schema: &Schema,
    node: NodeId,
    v: &Json,
    cf: ContentFormat,
    out: &mut Vec<String>,
) -> (r: bool)
    requires
        schema.wf(),
        node < schema.nodes@.len(),
    ensures
        texts(final(out)@) == texts(old(out)@) + list_entry_warned(schema@, node, v@, cf),
        r == list_entry_passes(schema@, node, v@, cf),
    decreases v, 4int,
{
    proof {
        reveal(list_entry_warned);
        reveal(list_entry_passes);
        lemma_joined(texts(out@), Seq::empty(), Seq::empty());
    }
    match v {
        Json::Object(m) => {
            warn_body(schema, node, v, m, cf, out);
            let made = encode_body(schema, node, v, m, cf, true);
            made.is_ok()
        },
        _ => false,
    }
}

/// Appends what is passed over in the entries of a list. `whole` is the list.
fn warn_entries(
    schema: &Schema,
    node: NodeId,
    whole: &Json,
    a: &Vec<Json>,
    cf: ContentFormat,
    out: &mut Vec<String>,
)
    requires
        schema.wf(),
        node < schema.nodes@.len(),
        *whole == Json::Array(*a),
    ensures
        texts(final(out)@) == texts(old(out)@) + entries_warned(schema@, node, trees(a@), 0, cf),
    decreases whole, 0int,
{
    let ghost s = schema@;
    let ghost items = trees(a@);
    let ghost all = texts(out@) + entries_warned(s, node, items, 0, cf);
    let mut i: usize = 0;
    while i < a.len()
        invariant
            i <= a@.len(),
            schema.wf(),
            node < schema.nodes@.len(),
            *whole == Json::Array(*a),
            s == schema@,
            items == trees(a@),
            items.len() == a@.len(),
            all == texts(old(out)@) + entries_warned(s, node, items, 0, cf),
            texts(out@) + entries_warned(s, node, items, i as int, cf) == all,
        decreases a@.len() - i,
    {
        assert(items[i as int] == a@[i as int]@);
        let ghost had = texts(out@);
        proof {
            lemma_element_below(*whole, i as int);
        }
        let passed = warn_list_entry(schema, node, &a[i], cf, out);
        proof {
            lemma_entries_step(s, node, items, i as int, cf);
            lemma_joined(
                had,
                list_entry_warned(s, node, items[i as int], cf),
                entries_warned(s, node, items, i + 1, cf),
            );
        }
        if !passed {
            return ;
        }
        i += 1;
    }
    proof {
        lemma_joined(texts(out@), Seq::empty(), Seq::empty());
    }
}

/// Appends what is passed over in the data of a node, if errors are to be
/// passed over.
pub fn warn_node(
    schema: &Schema,
    node: NodeId,
    value: &Json,
    cf: ContentFormat,
    out: &mut Vec<String>,
)
    requires
        schema.wf(),
        node < schema.nodes@.len(),
    ensures
        texts(final(out)@) == texts(old(out)@) + node_warned(schema@, node, value@, cf),
    decreases value, 4int,
{
    let ghost s = schema@;
    let ghost start = texts(out@);
    let n = &schema.nodes[node];
    assert(s.nodes[node as int] == n@);
    assert(node_ok(s.nodes.len() as int, s.types.len() as int, node as int, n@));
    let kw = n.kw.as_str();
    if crate::text::same(kw, "leaf") {
        warn_leaf(schema, n, value, out);
        return ;
    }
    if crate::text::same(kw, "leaf-list") {
        if let Json::Array(a) = value {
            let ghost items = trees(a@);
            let mut i: usize = 0;
            assert(start + leaves_warned(s, n@, items, 0) =~= start);
            while i < a.len()
                invariant
                    i <= a@.len(),
                    schema.wf(),
                    s == schema@,
                    n@.type_id matches Some(t) ==> t < schema.types@.len(),
                    items == trees(a@),
                    texts(out@) == start + leaves_warned(s, n@, items, i as int),
                decreases a@.len() - i,
            {
                assert(items[i as int] == a@[i as int]@);
                let ghost had = leaves_warned(s, n@, items, i as int);
                warn_leaf(schema, n, &a[i], out);
                i += 1;
                assert(texts(out@) =~= start + leaves_warned(s, n@, items, i as int));
            }
            return ;
        }
        assert(start + Seq::<Seq<char>>::empty() =~= start);
        return ;
    }
    if crate::text::same(kw, "container") || crate::text::same(kw, "input") || crate::text::same(
        kw,
        "output",
    ) {
        match value {
            Json::Object(m) => {
                warn_caught_body(schema, node, value, m, cf, out);
            },
            _ => {
                let made = encode_node_value(schema, node, value, cf, false);
                note_error(out, made);
            },
        }
        return ;
    }
    if crate::text::same(kw, "list") {
        match value {
            Json::Array(a) => {
                warn_entries(schema, node, value, a, cf, out);
                let made = encode_entries(schema, node, value, a, cf, true);
                note_error(out, made);
                assert(texts(out@) =~= start + node_warned(s, node, value@, cf));
            },
            Json::Object(m) => {
                if cf.is_sequence() {
                    warn_caught_body(schema, node, value, m, cf, out);
                } else {
                    let made = encode_node_value(schema, node, value, cf, false);
                    note_error(out, made);
                }
            },
            _ => {
                let made = encode_node_value(schema, node, value, cf, false);
                note_error(out, made);
            },
        }
        return ;
    }
    if crate::text::same(kw, "rpc") || crate::text::same(kw, "action") {
        if let Json::Object(m) = value {
            if m.len() == 1 {
                let side_name = m[0].0.as_str();
                assert(members(m@)[0] == (m@[0].0@, m@[0].1@));
                proof {
                    lemma_member_below(*value, 0);
                }
                if crate::text::same(side_name, "input") || crate::text::same(side_name, "output") {
                    if let Some(side) = schema.find_child(node, side_name) {
                        if let Json::Object(inner) = &m[0].1 {
                            warn_body(schema, side, &m[0].1, inner, cf, out);
                            return ;
                        }
                    }
                    assert(start + Seq::<Seq<char>>::empty() =~= start);
                    return ;
                }
            }
            let scope = match schema.find_child(node, "input") {
                Some(side) => side,
                None => node,
            };
            warn_body(schema, scope, value, m, cf, out);
            return ;
        }
    }
    assert(start + Seq::<Seq<char>>::empty() =~= start);
}

/// What is passed over in a whole tree of data.
pub open spec fn tree_warned(s: SchemaView, v: Tree, cf: ContentFormat) -> Seq<Seq<char>> {
    match v {
        Tree::Object(m) => body_warned(s, s.root, m, cf) + caught(
            body_encoded(s, s.root, m, cf, true),
        ),
        _ => caught(tree_encoded(s, v, cf, false)),
    }
}

/// What is passed over in one entry of a request.
#[verifier::opaque]
pub open spec fn entry_warned(s: SchemaView, v: Tree, cf: ContentFormat) -> Seq<Seq<char>> {
    match v {
        Tree::Object(m) => if m.len() == 1 && !(m[0].1 is Null) {
            match path_encoded(s, m[0].0) {
                Ok((node, _)) => node_warned(s, node, m[0].1, cf),
                Err(_) => Seq::empty(),
            }
        } else {
            Seq::empty()
        },
        _ => Seq::empty(),
    }
}

/// Whether every error in one entry of a request can be passed over.
#[verifier::opaque]
pub open spec fn entry_passes(s: SchemaView, v: Tree, cf: ContentFormat) -> bool {
    entry_encoded(s, v, cf, true) is Ok
}

/// What is passed over in the entries of a request from the `i`-th on. An
/// error that cannot be passed over ends it.
pub open spec fn request_warned(s: SchemaView, a: Seq<Tree>, i: int, cf: ContentFormat) -> Seq<
    Seq<char>,
>
    decreases a.len() - i,
{
    if i < 0 || i >= a.len() {
        Seq::empty()
    } else if entry_passes(s, a[i], cf) {
        entry_warned(s, a[i], cf) + request_warned(s, a, i + 1, cf)
    } else {
        entry_warned(s, a[i], cf)
    }
}

/// What is passed over in the data of a request: a list of entries or a whole
/// tree.
pub open spec fn data_warned(s: SchemaView, v: Tree, cf: ContentFormat) -> Seq<Seq<char>> {
    if is_sequence(cf) {
        match v {
            Tree::Array(a) => request_warned(s, a, 0, cf),
            _ => Seq::empty(),
        }
    } else {
        tree_warned(s, v, cf)
    }
}

/// Appends what is passed over in one entry of a request, and says whether
/// every error in it can be passed over.
fn warn_entry(schema: &Schema, v: &Json, cf: ContentFormat, out: &mut Vec<String>) -> (r: bool)
    requires
        schema.wf(),
    ensures
        texts(final(out)@) == texts(old(out)@) + entry_warned(schema@, v@, cf),
        r == entry_passes(schema@, v@, cf),
{
    let made = encode_entry(schema, v, cf, true);
    let passed = made.is_ok();
    proof {
        reveal(entry_warned);
        reveal(entry_passes);
        lemma_joined(texts(out@), Seq::empty(), Seq::empty());
    }
    if let Json::Object(m) = v {
        if m.len() == 1 {
            assert(members(m@)[0] == (m@[0].0@, m@[0].1@));
            if !m[0].1.is_null() {
                if let Ok((node, _)) = resolve_iid(schema, m[0].0.as_str()) {
                    warn_node(schema, node, &m[0].1, cf, out);
                }
            }
        }
    }
    passed
}

/// Appends what is passed over in the entries of a request.
fn warn_request(schema: &Schema, a: &Vec<Json>, cf: ContentFormat, out: &mut Vec<String>)
    requires
        schema.wf(),
    ensures
        texts(final(out)@) == texts(old(out)@) + request_warned(schema@, trees(a@), 0, cf),
{
    let ghost s = schema@;
    let ghost items = trees(a@);
    let ghost all = texts(out@) + request_warned(s, items, 0, cf);
    let mut i: usize = 0;
    while i < a.len()
        invariant
            i <= a@.len(),
            schema.wf(),
            s == schema@,
            items == trees(a@),
            items.len() == a@.len(),
            all == texts(old(out)@) + request_warned(s, items, 0, cf),
            texts(out@) + request_warned(s, items, i as int, cf) == all,
        decreases a@.len() - i,
    {
        assert(items[i as int] == a@[i as int]@);
        let ghost had = texts(out@);
        let passed = warn_entry(schema, &a[i], cf, out);
        proof {
            lemma_joined(
                had,
                entry_warned(s, items[i as int], cf),
                request_warned(s, items, i + 1, cf),
            );
        }
        if !passed {
            return ;
        }
        i += 1;
    }
    proof {
        lemma_joined(texts(out@), Seq::empty(), Seq::empty());
    }
}

/// What is passed over in the data of a request, if errors in the data are to
/// be passed over.
pub fn warnings(schema: &Schema, v: &Json, cf: ContentFormat) -> (r: Vec<String>)
    requires
        schema.wf(),
    ensures
        texts(r@) == data_warned(schema@, v@, cf),
{
    let ghost s = schema@;
    let mut out: Vec<String> = Vec::new();
    let ghost start = texts(out@);
    assert(start =~= Seq::empty());
    if cf.is_sequence() {
        if let Json::Array(a) = v {
            warn_request(schema, a, cf, &mut out);
        }
    } else {
        match v {
            Json::Object(m) => {
                warn_caught_body(schema, schema.root, v, m, cf, &mut out);
            },
            _ => {
                let made = json_to_cbor(schema, v, cf, false);
                note_error(&mut out, made);
            },
        }
    }
    assert(start + data_warned(s, v@, cf) =~= data_warned(s, v@, cf));
    out
}

/// The line that is shown for an error that was passed over.
pub fn warning_line(message: &str) -> (r: String)
    ensures
        r@ == "WARNING: "@ + message@ + " (continuing, --continue given)"@,
{
    crate::text::cat3("WARNING: ", message, " (continuing, --continue given)")
}

} // verus!
