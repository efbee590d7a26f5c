//! Data of containers, lists and operations: JSON to data items and back.
use vstd::prelude::*;

use crate::cbor::value::{
    entry_items, lemma_element_below, lemma_entry_below, lemma_view, value_items, Item,
    Value as Cbor,
};
use crate::json::{
    find_key, insert, json_text, lemma_json_view, lemma_member_below, members, position, to_text,
    trees, with_member, Json, Tree,
};
use crate::text::{
    cat, cat3, cat4, cat5, cat6, decimal, decimal_text, find_text, local_of, owned, position_of,
    quoted, quoted_text, same,
};
use crate::yang::readings::{type_to_json, value_decoded};
use crate::yang::scalars::{
    cbor_as_i128, decimal_views, describe_cbor, item_described, item_number, item_of, low_i64,
    signed_low, tree_of, CodecError, DecimalText, DecimalView,
};
use crate::yang::schema::{
    child_of, node_ok, Node, NodeId, NodeView, Schema, SchemaView,
};
use crate::yang::values::{type_to_cbor, value_encoded_leniently};

verus! {

broadcast use {lemma_view, lemma_json_view};

/// The shapes of what is sent and received.
#[derive(Debug, Clone, Copy, PartialEq, Eq, Structural)]
pub enum ContentFormat {
    /// A whole tree of data, as one table.
    Yang,
    Get,
    Put,
    /// A sequence of paths in a request, of tables with one entry in a
    /// response.
    Fetch,
    /// A sequence of tables with one entry.
    Ipatch,
    Post,
}

/// The name of a format in messages.
pub open spec fn format_name(cf: ContentFormat) -> Seq<char> {
    match cf {
        ContentFormat::Yang => "YANG"@,
        ContentFormat::Get => "GET"@,
        ContentFormat::Put => "PUT"@,
        ContentFormat::Fetch => "FETCH"@,
        ContentFormat::Ipatch => "IPATCH"@,
        ContentFormat::Post => "POST"@,
    }
}

/// Whether a format is a sequence of entries.
pub open spec fn is_sequence(cf: ContentFormat) -> bool {
    cf == ContentFormat::Fetch || cf == ContentFormat::Ipatch || cf == ContentFormat::Post
}

impl ContentFormat {
    /// The name of the format in messages.
    pub fn upper_name(self) -> (r: &'static str)
        ensures
            r@ == format_name(self),
    {
        match self {
            ContentFormat::Yang => "YANG",
            ContentFormat::Get => "GET",
            ContentFormat::Put => "PUT",
            ContentFormat::Fetch => "FETCH",
            ContentFormat::Ipatch => "IPATCH",
            ContentFormat::Post => "POST",
        }
    }

    /// Whether the format is a sequence of entries.
    pub fn is_sequence(self) -> (r: bool)
        ensures
            r == is_sequence(self),
    {
        self == ContentFormat::Fetch || self == ContentFormat::Ipatch || self
            == ContentFormat::Post
    }
}

/// The name of a node in messages: the top of all data is the request.
pub open spec fn display_name(n: NodeView) -> Seq<char> {
    if n.name == "data-tree-schema"@ {
        "the request"@
    } else {
        n.name
    }
}

/// The name of a node in messages.
pub(crate) fn node_display_name(n: &Node) -> (r: &str)
    ensures
        r@ == display_name(n@),
{
    if same(n.name.as_str(), "data-tree-schema") {
        "the request"
    } else {
        n.name.as_str()
    }
}

/// The SID that the fields below a node are counted from: that of the
/// operation for its input and output, else that of the node.
pub open spec fn delta_base(s: SchemaView, node: usize) -> int {
    let n = s.nodes[node as int];
    let own = match n.sid {
        Some(sid) => sid as int,
        None => 0,
    };
    if n.kw == "input"@ || n.kw == "output"@ {
        match n.parent {
            Some(p) => {
                let up = s.nodes[p as int];
                if (up.kw == "rpc"@ || up.kw == "action"@) && up.sid is Some {
                    up.sid->0 as int
                } else {
                    own
                }
            },
            None => own,
        }
    } else {
        own
    }
}

/// The SID that the fields below a node are counted from.
pub(crate) fn effective_delta_base(schema: &Schema, node: NodeId) -> (r: i64)
    requires
        schema.wf(),
        node < schema.nodes@.len(),
    ensures
        r == delta_base(schema@, node),
{
    let ghost s = schema@;
    let n = &schema.nodes[node];
    assert(s.nodes[node as int] == n@);
    assert(node_ok(s.nodes.len() as int, s.types.len() as int, node as int, n@));
    if same(n.kw.as_str(), "input") || same(n.kw.as_str(), "output") {
        if let Some(p) = n.parent {
            let up = &schema.nodes[p];
            assert(s.nodes[p as int] == up@);
            if same(up.kw.as_str(), "rpc") || same(up.kw.as_str(), "action") {
                if let Some(sid) = up.sid {
                    return sid;
                }
            }
        }
    }
    match n.sid {
        Some(sid) => sid,
        None => 0,
    }
}

/// The message on a leaf without a type.
pub open spec fn untyped_message(name: Seq<char>) -> Seq<char> {
    "\""@ + name + "\" has no type defined in the schema -- this looks like a catalog problem"@
}

/// The value of a leaf as a data item.
pub open spec fn leaf_encoded(s: SchemaView, n: NodeView, v: Tree, cont: bool) -> Result<
    Item,
    Seq<char>,
> {
    match n.type_id {
        None => Err(untyped_message(n.name)),
        Some(t) => value_encoded_leniently(s, t, v, false, cont),
    }
}

/// The first `n` values of a leaf-list as data items.
pub open spec fn leaves_encoded(s: SchemaView, node: NodeView, a: Seq<Tree>, cont: bool, n: int) -> Result<
    Seq<Item>,
    Seq<char>,
>
    decreases n,
{
    if n <= 0 {
        Ok(Seq::empty())
    } else {
        match leaves_encoded(s, node, a, cont, n - 1) {
            Err(e) => Err(e),
            Ok(before) => match leaf_encoded(s, node, a[n - 1], cont) {
                Err(e) => Err(e),
                Ok(item) => Ok(before.push(item)),
            },
        }
    }
}

/// The message on a field that is not in the schema.
pub open spec fn unknown_field(key: Seq<char>, scope: NodeView) -> Seq<char> {
    quoted_text(key) + " is not a valid field inside "@ + display_name(scope)
        + " -- check for a typo or the wrong nesting"@
}

/// The message on a field without a SID.
pub open spec fn field_without_sid(key: Seq<char>) -> Seq<char> {
    quoted_text(key)
        + " exists in the schema but has no SID assigned -- this looks like a catalog/schema problem, not a mistake in your data"@
}

/// The message on the field for the `j`-th child if it must be there and is
/// not: a mandatory one, or a key of a list. What is no configuration is never
/// needed to change a device.
pub open spec fn missing_at(
    s: SchemaView,
    scope: usize,
    m: Seq<(Seq<char>, Tree)>,
    cf: ContentFormat,
    j: int,
) -> Option<Seq<char>> {
    let n = s.nodes[scope as int];
    let c = s.nodes[n.children[j] as int];
    let is_key = find_text(n.keys, local_of(c.name), 0) is Some;
    if (cf == ContentFormat::Ipatch || cf == ContentFormat::Put) && !c.config {
        None
    } else if (c.mandatory || is_key) && find_key(m, c.name, 0) is None {
        Some(
            quoted_text(c.name) + " is missing from "@ + display_name(n) + " ("@ + (if is_key {
                "it's a key of this list -- every entry needs one"@
            } else {
                "it's a required field"@
            }) + ")"@,
        )
    } else {
        None
    }
}

/// The message on the first field, from the `j`-th child on, that must be
/// there and is not.
pub open spec fn missing_field(
    s: SchemaView,
    scope: usize,
    m: Seq<(Seq<char>, Tree)>,
    cf: ContentFormat,
    j: int,
) -> Option<Seq<char>>
    decreases s.nodes[scope as int].children.len() - j,
{
    if j < 0 || j >= s.nodes[scope as int].children.len() {
        None
    } else if missing_at(s, scope, m, cf, j) is Some {
        missing_at(s, scope, m, cf, j)
    } else {
        missing_field(s, scope, m, cf, j + 1)
    }
}

/// The members of an object, from the `i`-th on, as fields below a node,
/// behind `seen`. Fields keep the order of the object.
pub open spec fn fields_encoded(
    s: SchemaView,
    scope: usize,
    m: Seq<(Seq<char>, Tree)>,
    i: int,
    cf: ContentFormat,
    cont: bool,
    seen: Seq<(Item, Item)>,
) -> Result<Seq<(Item, Item)>, Seq<char>>
    decreases m, 0int, m.len() - i,
{
    if i < 0 || i >= m.len() {
        Ok(seen)
    } else {
        let key = m[i].0;
        match child_of(s, scope, key) {
            None => if cont {
                fields_encoded(s, scope, m, i + 1, cf, cont, seen)
            } else {
                Err(unknown_field(key, s.nodes[scope as int]))
            },
            Some(child) => match s.nodes[child as int].sid {
                None => if cont {
                    fields_encoded(s, scope, m, i + 1, cf, cont, seen)
                } else {
                    Err(field_without_sid(key))
                },
                Some(sid) => match node_encoded(s, child, m[i].1, cf, cont) {
                    Err(e) => Err(e),
                    Ok(item) => fields_encoded(
                        s,
                        scope,
                        m,
                        i + 1,
                        cf,
                        cont,
                        seen.push((Item::Integer(signed_low(sid - delta_base(s, scope))), item)),
                    ),
                },
            },
        }
    }
}

/// An object as the body of a node: its fields by the distance of their SIDs
/// from the node's.
pub open spec fn body_encoded(
    s: SchemaView,
    scope: usize,
    m: Seq<(Seq<char>, Tree)>,
    cf: ContentFormat,
    cont: bool,
) -> Result<Item, Seq<char>>
    decreases m, 1int, 0int,
{
    match fields_encoded(s, scope, m, 0, cf, cont, Seq::empty()) {
        Err(e) => Err(e),
        Ok(fields) => match missing_field(s, scope, m, cf, 0) {
            Some(e) => if cont {
                Ok(Item::Entries(fields))
            } else {
                Err(e)
            },
            None => Ok(Item::Entries(fields)),
        },
    }
}

/// The entries of a list, from the `i`-th on, behind `seen`.
pub open spec fn entries_encoded(
    s: SchemaView,
    node: usize,
    a: Seq<Tree>,
    i: int,
    cf: ContentFormat,
    cont: bool,
    seen: Seq<Item>,
) -> Result<Seq<Item>, Seq<char>>
    decreases a, 0int, a.len() - i,
{
    if i < 0 || i >= a.len() {
        Ok(seen)
    } else {
        match a[i] {
            Tree::Object(m) => match body_encoded(s, node, m, cf, cont) {
                Err(e) => Err(e),
                Ok(item) => entries_encoded(s, node, a, i + 1, cf, cont, seen.push(item)),
            },
            _ => Err(
                "each entry in \""@ + display_name(s.nodes[node as int])
                    + "\" needs to be an object (key/value fields), got "@ + json_text(a[i]),
            ),
        }
    }
}

/// What becomes of an error: the value `fallback` if errors are to be passed
/// over.
pub open spec fn softened(r: Result<Item, Seq<char>>, cont: bool, fallback: Item) -> Result<
    Item,
    Seq<char>,
> {
    match r {
        Ok(v) => Ok(v),
        Err(e) => if cont {
            Ok(fallback)
        } else {
            Err(e)
        },
    }
}

/// A JSON value as the data item of a node, whatever kind of node it is.
pub open spec fn node_encoded(
    s: SchemaView,
    node: usize,
    v: Tree,
    cf: ContentFormat,
    cont: bool,
) -> Result<Item, Seq<char>>
    decreases v, 2int, 0int,
{
    let n = s.nodes[node as int];
    let name = display_name(n);
    if n.kw == "leaf"@ {
        leaf_encoded(s, n, v, cont)
    } else if n.kw == "leaf-list"@ {
        match v {
            Tree::Array(a) => match leaves_encoded(s, n, a, cont, a.len() as int) {
                Err(e) => Err(e),
                Ok(items) => Ok(Item::Array(items)),
            },
            _ => Err("\""@ + name + "\" needs a list of values, got "@ + json_text(v)),
        }
    } else if n.kw == "container"@ || n.kw == "input"@ || n.kw == "output"@ {
        softened(
            match v {
                Tree::Object(m) => body_encoded(s, node, m, cf, cont),
                _ => Err(
                    "\""@ + name + "\" needs an object (key/value fields), got "@ + json_text(v),
                ),
            },
            cont,
            Item::Entries(Seq::empty()),
        )
    } else if n.kw == "list"@ {
        match v {
            Tree::Array(a) => softened(
                match entries_encoded(s, node, a, 0, cf, cont, Seq::empty()) {
                    Err(e) => Err(e),
                    Ok(items) => Ok(Item::Array(items)),
                },
                cont,
                Item::Array(Seq::empty()),
            ),
            Tree::Object(m) => softened(
                if is_sequence(cf) {
                    body_encoded(s, node, m, cf, cont)
                } else {
                    Err("\""@ + name + "\" needs a list, got "@ + json_text(v))
                },
                cont,
                Item::Array(Seq::empty()),
            ),
            _ => softened(
                Err(
                    if is_sequence(cf) {
                        "\""@ + name
                            + "\" needs a list (or a single entry, for fetch/ipatch), got "@
                            + json_text(v)
                    } else {
                        "\""@ + name + "\" needs a list, got "@ + json_text(v)
                    },
                ),
                cont,
                Item::Array(Seq::empty()),
            ),
        }
    } else if n.kw == "rpc"@ || n.kw == "action"@ {
        match v {
            Tree::Object(m) => if m.len() == 1 && (m[0].0 == "input"@ || m[0].0 == "output"@) {
                match child_of(s, node, m[0].0) {
                    None => Err(
                        "\""@ + name + "\" doesn't have a \""@ + m[0].0
                            + "\" side in the schema -- this looks like a catalog problem"@,
                    ),
                    Some(side) => match m[0].1 {
                        Tree::Object(inner) => body_encoded(s, side, inner, cf, cont),
                        _ => Err(
                            "the \""@ + m[0].0 + "\" of \""@ + name
                                + "\" needs an object (key/value fields), got "@ + json_text(
                                m[0].1,
                            ),
                        ),
                    },
                }
            } else {
                body_encoded(
                    s,
                    match child_of(s, node, "input"@) {
                        Some(side) => side,
                        None => node,
                    },
                    m,
                    cf,
                    cont,
                )
            },
            _ => Err(
                "\""@ + name + "\" needs an object (its input/output fields), got "@ + json_text(v),
            ),
        }
    } else {
        Err(
            "\""@ + name + "\" has an unsupported schema shape ("@ + quoted_text(n.kw)
                + ") -- this looks like a catalog problem"@,
        )
    }
}

/// The value of a leaf as a data item.
fn encode_leaf_value(schema: &Schema, n: &Node, v: &Json, cont: bool) -> (r: Result<
    Cbor,
    CodecError,
>)
    requires
        schema.wf(),
        n@.type_id matches Some(t) ==> t < schema.types@.len(),
    ensures
        item_of(r) == leaf_encoded(schema@, n@, v@, cont),
{
    match n.type_id {
        None => Err(
            CodecError(
                cat3(
                    "\"",
                    n.name.as_str(),
                    "\" has no type defined in the schema -- this looks like a catalog problem",
                ),
            ),
        ),
        Some(t) => type_to_cbor(schema, t, v, false, cont),
    }
}

/// The values of a leaf-list as data items.
fn encode_leaves(schema: &Schema, n: &Node, a: &Vec<Json>, cont: bool) -> (r: Result<
    Vec<Cbor>,
    CodecError,
>)
    requires
        schema.wf(),
        n@.type_id matches Some(t) ==> t < schema.types@.len(),
    ensures
        match r {
            Ok(v) => leaves_encoded(schema@, n@, trees(a@), cont, a@.len() as int) == Ok::<
                Seq<Item>,
                Seq<char>,
            >(value_items(v@)),
            Err(e) => leaves_encoded(schema@, n@, trees(a@), cont, a@.len() as int) == Err::<
                Seq<Item>,
                Seq<char>,
            >(e.0@),
        },
{
    let ghost all = trees(a@);
    let mut out: Vec<Cbor> = Vec::new();
    let mut i: usize = 0;
    assert(value_items(out@) =~= Seq::empty());
    while i < a.len()
        invariant
            i <= a@.len(),
            schema.wf(),
            n@.type_id matches Some(t) ==> t < schema.types@.len(),
            all == trees(a@),
            leaves_encoded(schema@, n@, all, cont, i as int) == Ok::<Seq<Item>, Seq<char>>(
                value_items(out@),
            ),
        decreases a@.len() - i,
    {
        assert(all[i as int] == a@[i as int]@);
        let ghost had = value_items(out@);
        match encode_leaf_value(schema, n, &a[i], cont) {
            Ok(v) => {
                out.push(v);
                assert(value_items(out@) =~= had.push(v@));
            },
            Err(e) => {
                proof {
                    lemma_leaves_fail(schema@, n@, all, cont, i + 1, all.len() as int);
                }
                return Err(e);
            },
        }
        i += 1;
    }
    Ok(out)
}

proof fn lemma_leaves_fail(
    s: SchemaView,
    node: NodeView,
    a: Seq<Tree>,
    cont: bool,
    n: int,
    m: int,
)
    requires
        0 <= n <= m,
        leaves_encoded(s, node, a, cont, n) is Err,
    ensures
        leaves_encoded(s, node, a, cont, m) == leaves_encoded(s, node, a, cont, n),
    decreases m - n,
{
    if n < m {
        lemma_leaves_fail(s, node, a, cont, n, m - 1);
    }
}

/// The message on the field for the `j`-th child if it must be there and is
/// not.
pub(crate) fn missing_message(
    schema: &Schema,
    scope: NodeId,
    m: &Vec<(String, Json)>,
    cf: ContentFormat,
    j: usize,
) -> (r: Option<String>)
    requires
        schema.wf(),
        scope < schema.nodes@.len(),
        j < schema@.nodes[scope as int].children.len(),
    ensures
        match r {
            Some(e) => missing_at(schema@, scope, members(m@), cf, j as int) == Some(e@),
            None => missing_at(schema@, scope, members(m@), cf, j as int) is None,
        },
{
    let ghost s = schema@;
    let n = &schema.nodes[scope];
    assert(s.nodes[scope as int] == n@);
    assert(node_ok(s.nodes.len() as int, s.types.len() as int, scope as int, n@));
    let id: usize = n.children[j];
    assert(n@.children[j as int] == id);
    let c = &schema.nodes[id];
    assert(s.nodes[id as int] == c@);
    if (cf == ContentFormat::Ipatch || cf == ContentFormat::Put) && !c.config {
        return None;
    }
    let local = c.local_name();
    let is_key: bool = position_of(n.keys.as_slice(), local.as_str()).is_some();
    if (c.mandatory || is_key) && position(m.as_slice(), c.name.as_str()).is_none() {
        let q = quoted(c.name.as_str());
        let why: &str = if is_key {
            "it's a key of this list -- every entry needs one"
        } else {
            "it's a required field"
        };
        return Some(
            cat6(q.as_str(), " is missing from ", node_display_name(n), " (", why, ")"),
        );
    }
    None
}

/// The message on the first field that must be there and is not.
fn find_missing(schema: &Schema, scope: NodeId, m: &Vec<(String, Json)>, cf: ContentFormat) -> (r:
    Option<String>)
    requires
        schema.wf(),
        scope < schema.nodes@.len(),
    ensures
        match r {
            Some(e) => missing_field(schema@, scope, members(m@), cf, 0) == Some(e@),
            None => missing_field(schema@, scope, members(m@), cf, 0) is None,
        },
{
    let ghost s = schema@;
    let ghost fields = members(m@);
    assert(s.nodes[scope as int] == schema.nodes@[scope as int]@);
    let mut j: usize = 0;
    while j < schema.nodes[scope].children.len()
        invariant
            schema.wf(),
            scope < schema.nodes@.len(),
            s == schema@,
            s.nodes[scope as int] == schema.nodes@[scope as int]@,
            j <= s.nodes[scope as int].children.len(),
            fields == members(m@),
            missing_field(s, scope, fields, cf, 0) == missing_field(
                s,
                scope,
                fields,
                cf,
                j as int,
            ),
        decreases s.nodes[scope as int].children.len() - j,
    {
        let found = missing_message(schema, scope, m, cf, j);
        if found.is_some() {
            return found;
        }
        j += 1;
    }
    None
}

/// The outcome of making fields, by their views.
pub open spec fn fields_of(r: Result<Vec<(Cbor, Cbor)>, CodecError>) -> Result<Seq<(Item, Item)>, Seq<char>> {
    match r {
        Ok(v) => Ok(entry_items(v@)),
        Err(e) => Err(e.0@),
    }
}

/// The members of an object as fields below a node. `whole` is the object.
pub(crate) fn encode_fields(
    schema: &Schema,
    scope: NodeId,
    whole: &Json,
    m: &Vec<(String, Json)>,
    cf: ContentFormat,
    cont: bool,
) -> (r: Result<Vec<(Cbor, Cbor)>, CodecError>)
    requires
        schema.wf(),
        scope < schema.nodes@.len(),
        *whole == Json::Object(*m),
    ensures
        fields_of(r) == fields_encoded(schema@, scope, members(m@), 0, cf, cont, Seq::empty()),
    decreases whole, 0int,
{
    let ghost s = schema@;
    let ghost fields = members(m@);
    let base = effective_delta_base(schema, scope);
    let n = &schema.nodes[scope];
    assert(s.nodes[scope as int] == n@);
    let mut out: Vec<(Cbor, Cbor)> = Vec::new();
    let mut i: usize = 0;
    assert(entry_items(out@) =~= Seq::empty());
    while i < m.len()
        invariant
            i <= m@.len(),
            schema.wf(),
            scope < schema.nodes@.len(),
            *whole == Json::Object(*m),
            s == schema@,
            n@ == s.nodes[scope as int],
            base == delta_base(s, scope),
            fields == members(m@),
            fields_encoded(s, scope, fields, 0, cf, cont, Seq::empty()) == fields_encoded(
                s,
                scope,
                fields,
                i as int,
                cf,
                cont,
                entry_items(out@),
            ),
        decreases m@.len() - i,
    {
        let key = m[i].0.as_str();
        assert(fields[i as int] == (m@[i as int].0@, m@[i as int].1@));
        proof {
            lemma_member_below(*whole, i as int);
        }
        match schema.find_child(scope, key) {
            None => {
                if !cont {
                    let q = quoted(key);
                    return Err(
                        CodecError(
                            cat4(
                                q.as_str(),
                                " is not a valid field inside ",
                                node_display_name(n),
                                " -- check for a typo or the wrong nesting",
                            ),
                        ),
                    );
                }
            },
            Some(child) => {
                assert(s.nodes[child as int] == schema.nodes@[child as int]@);
                match schema.nodes[child].sid {
                    None => {
                        if !cont {
                            let q = quoted(key);
                            return Err(
                                CodecError(
                                    cat(
                                        q.as_str(),
                                        " exists in the schema but has no SID assigned -- this looks like a catalog/schema problem, not a mistake in your data",
                                    ),
                                ),
                            );
                        }
                    },
                    Some(sid) => {
                        let value = encode_node_value(schema, child, &m[i].1, cf, cont)?;
                        let delta: i64 = low_i64(sid as i128 - base as i128);
                        let ghost had = entry_items(out@);
                        let k = Cbor::Integer(delta as i128);
                        out.push((k, value));
                        assert(entry_items(out@) =~= had.push((k@, value@)));
                    },
                }
            },
        }
        i += 1;
    }
    Ok(out)
}

/// An object as the body of a node. `whole` is the object.
pub(crate) fn encode_body(
    schema: &Schema,
    scope: NodeId,
    whole: &Json,
    m: &Vec<(String, Json)>,
    cf: ContentFormat,
    cont: bool,
) -> (r: Result<Cbor, CodecError>)
    requires
        schema.wf(),
        scope < schema.nodes@.len(),
        *whole == Json::Object(*m),
    ensures
        item_of(r) == body_encoded(schema@, scope, members(m@), cf, cont),
    decreases whole, 1int,
{
    let fields = encode_fields(schema, scope, whole, m, cf, cont)?;
    if !cont {
        if let Some(e) = find_missing(schema, scope, m, cf) {
            return Err(CodecError(e));
        }
    }
    Ok(Cbor::Entries(fields))
}

/// The entries of a list as data items.
pub(crate) fn encode_entries(
    schema: &Schema,
    node: NodeId,
    whole: &Json,
    a: &Vec<Json>,
    cf: ContentFormat,
    cont: bool,
) -> (r: Result<Vec<Cbor>, CodecError>)
    requires
        schema.wf(),
        node < schema.nodes@.len(),
        *whole == Json::Array(*a),
    ensures
        match r {
            Ok(v) => entries_encoded(schema@, node, trees(a@), 0, cf, cont, Seq::empty()) == Ok::<
                Seq<Item>,
                Seq<char>,
            >(value_items(v@)),
            Err(e) => entries_encoded(schema@, node, trees(a@), 0, cf, cont, Seq::empty()) == Err::<
                Seq<Item>,
                Seq<char>,
            >(e.0@),
        },
    decreases whole, 0int,
{
    let ghost s = schema@;
    let ghost all = trees(a@);
    let n = &schema.nodes[node];
    assert(s.nodes[node as int] == n@);
    let mut out: Vec<Cbor> = Vec::new();
    let mut i: usize = 0;
    assert(value_items(out@) =~= Seq::empty());
    while i < a.len()
        invariant
            i <= a@.len(),
            schema.wf(),
            node < schema.nodes@.len(),
            *whole == Json::Array(*a),
            s == schema@,
            n@ == s.nodes[node as int],
            all == trees(a@),
            entries_encoded(s, node, all, 0, cf, cont, Seq::empty()) == entries_encoded(
                s,
                node,
                all,
                i as int,
                cf,
                cont,
                value_items(out@),
            ),
        decreases a@.len() - i,
    {
        assert(all[i as int] == a@[i as int]@);
        proof {
            crate::json::lemma_element_below(*whole, i as int);
        }
        match a[i].as_object() {
            Some(m) => {
                let ghost had = value_items(out@);
                let item = encode_body(schema, node, &a[i], m, cf, cont)?;
                out.push(item);
                assert(value_items(out@) =~= had.push(item@));
            },
            None => {
                let t = to_text(&a[i]);
                return Err(
                    CodecError(
                        cat4(
                            "each entry in \"",
                            node_display_name(n),
                            "\" needs to be an object (key/value fields), got ",
                            t.as_str(),
                        ),
                    ),
                );
            },
        }
        i += 1;
    }
    Ok(out)
}

/// What becomes of an error when an empty table stands for it.
pub(crate) fn lenient(r: Result<Cbor, CodecError>, cont: bool, fallback: Cbor) -> (out: Result<
    Cbor,
    CodecError,
>)
    ensures
        item_of(out) == softened(item_of(r), cont, fallback@),
{
    match r {
        Ok(v) => Ok(v),
        Err(e) => if cont {
            Ok(fallback)
        } else {
            Err(e)
        },
    }
}

/// A table without entries.
pub(crate) fn empty_table() -> (r: Cbor)
    ensures
        r@ == Item::Entries(Seq::empty()),
{
    let none: Vec<(Cbor, Cbor)> = Vec::new();
    assert(entry_items(none@) =~= Seq::empty());
    Cbor::Entries(none)
}

/// A list without elements.
fn empty_list() -> (r: Cbor)
    ensures
        r@ == Item::Array(Seq::empty()),
{
    let none: Vec<Cbor> = Vec::new();
    assert(value_items(none@) =~= Seq::empty());
    Cbor::Array(none)
}

/// The error on a value of the wrong shape for a node.
fn wrong_shape(n: &Node, wanted: &str, v: &Json) -> (r: CodecError)
    ensures
        r.0@ == "\""@ + display_name(n@) + wanted@ + json_text(v@),
{
    let t = to_text(v);
    CodecError(cat4("\"", node_display_name(n), wanted, t.as_str()))
}

/// A JSON value as the data item of a node.
pub fn encode_node_value(
    schema: &Schema,
    node: NodeId,
    value: &Json,
    cf: ContentFormat,
    continue_on_error: bool,
) -> (r: Result<Cbor, CodecError>)
    requires
        schema.wf(),
        node < schema.nodes@.len(),
    ensures
        item_of(r) == node_encoded(schema@, node, value@, cf, continue_on_error),
    decreases value, 2int,
{
    let ghost s = schema@;
    let n = &schema.nodes[node];
    assert(s.nodes[node as int] == n@);
    assert(node_ok(s.nodes.len() as int, s.types.len() as int, node as int, n@));
    let kw = n.kw.as_str();
    if same(kw, "leaf") {
        return encode_leaf_value(schema, n, value, continue_on_error);
    }
    if same(kw, "leaf-list") {
        return match value.as_array() {
            Some(a) => {
                let items = encode_leaves(schema, n, a, continue_on_error)?;
                Ok(Cbor::Array(items))
            },
            None => Err(wrong_shape(n, "\" needs a list of values, got ", value)),
        };
    }
    if same(kw, "container") || same(kw, "input") || same(kw, "output") {
        let made = match value.as_object() {
            Some(m) => encode_body(schema, node, value, m, cf, continue_on_error),
            None => Err(wrong_shape(n, "\" needs an object (key/value fields), got ", value)),
        };
        return lenient(made, continue_on_error, empty_table());
    }
    if same(kw, "list") {
        return match value {
            Json::Array(a) => {
                let made = match encode_entries(schema, node, value, a, cf, continue_on_error) {
                    Ok(items) => Ok(Cbor::Array(items)),
                    Err(e) => Err(e),
                };
                lenient(made, continue_on_error, empty_list())
            },
            Json::Object(m) => {
                let made = if cf.is_sequence() {
                    encode_body(schema, node, value, m, cf, continue_on_error)
                } else {
                    Err(wrong_shape(n, "\" needs a list, got ", value))
                };
                lenient(made, continue_on_error, empty_list())
            },
            _ => {
                let e = if cf.is_sequence() {
                    wrong_shape(
                        n,
                        "\" needs a list (or a single entry, for fetch/ipatch), got ",
                        value,
                    )
                } else {
                    wrong_shape(n, "\" needs a list, got ", value)
                };
                lenient(Err(e), continue_on_error, empty_list())
            },
        };
    }
    if same(kw, "rpc") || same(kw, "action") {
        let m = match value.as_object() {
            Some(m) => m,
            None => {
                return Err(
                    wrong_shape(n, "\" needs an object (its input/output fields), got ", value),
                );
            },
        };
        if m.len() == 1 {
            let side_name = m[0].0.as_str();
            assert(members(m@)[0] == (m@[0].0@, m@[0].1@));
            proof {
                lemma_member_below(*value, 0);
            }
            if same(side_name, "input") || same(side_name, "output") {
                let side = match schema.find_child(node, side_name) {
                    Some(side) => side,
                    None => {
                        return Err(
                            CodecError(
                                cat5(
                                    "\"",
                                    node_display_name(n),
                                    "\" doesn't have a \"",
                                    side_name,
                                    "\" side in the schema -- this looks like a catalog problem",
                                ),
                            ),
                        );
                    },
                };
                return match m[0].1.as_object() {
                    Some(inner) => encode_body(
                        schema,
                        side,
                        &m[0].1,
                        inner,
                        cf,
                        continue_on_error,
                    ),
                    None => {
                        let t = to_text(&m[0].1);
                        Err(
                            CodecError(
                                cat6(
                                    "the \"",
                                    side_name,
                                    "\" of \"",
                                    node_display_name(n),
                                    "\" needs an object (key/value fields), got ",
                                    t.as_str(),
                                ),
                            ),
                        )
                    },
                };
            }
        }
        let side: usize = match schema.find_child(node, "input") {
            Some(side) => side,
            None => node,
        };
        return encode_body(schema, side, value, m, cf, continue_on_error);
    }
    let q = quoted(kw);
    Err(
        CodecError(
            cat5(
                "\"",
                node_display_name(n),
                "\" has an unsupported schema shape (",
                q.as_str(),
                ") -- this looks like a catalog problem",
            ),
        ),
    )
}

/// The value of a leaf in a response as a JSON value.
pub open spec fn leaf_decoded(s: SchemaView, n: NodeView, v: Item, d: Seq<DecimalView>) -> Result<
    Tree,
    Seq<char>,
> {
    match n.type_id {
        None => Err(untyped_message(n.name)),
        Some(t) => value_decoded(s, t, v, false, d),
    }
}

/// The first `n` values of a leaf-list in a response as JSON values.
pub open spec fn leaves_decoded(
    s: SchemaView,
    node: NodeView,
    a: Seq<Item>,
    d: Seq<DecimalView>,
    n: int,
) -> Result<Seq<Tree>, Seq<char>>
    decreases n,
{
    if n <= 0 {
        Ok(Seq::empty())
    } else {
        match leaves_decoded(s, node, a, d, n - 1) {
            Err(e) => Err(e),
            Ok(before) => match leaf_decoded(s, node, a[n - 1], d) {
                Err(e) => Err(e),
                Ok(tree) => Ok(before.push(tree)),
            },
        }
    }
}

/// The message on a field whose key is no number.
pub open spec fn field_message() -> Seq<char> {
    "the device sent a field whose identifier isn't a valid number"@
}

/// The fields below a node in a response, from the `i`-th on, as members
/// behind `seen`.
pub open spec fn fields_decoded(
    s: SchemaView,
    scope: usize,
    v: Item,
    i: int,
    cf: ContentFormat,
    d: Seq<DecimalView>,
    seen: Seq<(Seq<char>, Tree)>,
) -> Result<Seq<(Seq<char>, Tree)>, Seq<char>>
    decreases v, 0int, v->Entries_0.len() - i,
{
    match v {
        Item::Entries(e) => if i < 0 || i >= e.len() {
            Ok(seen)
        } else {
            match item_number(e[i].0) {
                None => Err(field_message()),
                Some(k) => {
                    let sid = signed_low(signed_low(k) + delta_base(s, scope));
                    if s.sid_index.contains_key(sid as i64) {
                        let child = s.sid_index[sid as i64];
                        match node_decoded(s, child, e[i].1, cf, d) {
                            Err(e) => Err(e),
                            Ok(tree) => fields_decoded(
                                s,
                                scope,
                                v,
                                i + 1,
                                cf,
                                d,
                                with_member(seen, s.nodes[child as int].name, tree),
                            ),
                        }
                    } else {
                        Err(
                            "the device sent field #"@ + decimal_text(sid)
                                + ", which isn't in the loaded YANG catalog -- the catalog may not match this device's firmware"@,
                        )
                    }
                },
            }
        },
        _ => Ok(seen),
    }
}

/// The body of a node in a response as an object.
pub open spec fn body_decoded(
    s: SchemaView,
    scope: usize,
    v: Item,
    cf: ContentFormat,
    d: Seq<DecimalView>,
) -> Result<Tree, Seq<char>>
    decreases v, 1int, 0int,
{
    match v {
        Item::Entries(_) => match fields_decoded(s, scope, v, 0, cf, d, Seq::empty()) {
            Err(e) => Err(e),
            Ok(m) => Ok(Tree::Object(m)),
        },
        _ => Err(
            "expected a set of fields for "@ + display_name(s.nodes[scope as int])
                + ", but the device sent "@ + item_described(v),
        ),
    }
}

/// The entries of a list in a response, from the `i`-th on, behind `seen`.
pub open spec fn entries_decoded(
    s: SchemaView,
    node: usize,
    v: Item,
    i: int,
    cf: ContentFormat,
    d: Seq<DecimalView>,
    seen: Seq<Tree>,
) -> Result<Seq<Tree>, Seq<char>>
    decreases v, 0int, v->Array_0.len() - i,
{
    match v {
        Item::Array(a) => if i < 0 || i >= a.len() {
            Ok(seen)
        } else {
            match body_decoded(s, node, a[i], cf, d) {
                Err(e) => Err(e),
                Ok(tree) => entries_decoded(s, node, v, i + 1, cf, d, seen.push(tree)),
            }
        },
        _ => Ok(seen),
    }
}

/// Whether one of some children, from `from` on, has a SID.
pub open spec fn has_sid(s: SchemaView, children: Seq<usize>, sid: int, from: int) -> bool
    decreases children.len() - from,
{
    if from >= children.len() {
        false
    } else {
        (s.nodes[children[from] as int].sid is Some && s.nodes[children[from] as int].sid->0 == sid)
            || has_sid(s, children, sid, from + 1)
    }
}

/// Whether a side of an operation has a field with a SID.
pub open spec fn side_has(s: SchemaView, node: usize, side: Seq<char>, sid: int) -> bool {
    match child_of(s, node, side) {
        Some(n) => has_sid(s, s.nodes[n as int].children, sid, 0),
        None => false,
    }
}

/// The side of an operation that a field with a SID belongs to: the input is
/// asked first.
pub open spec fn side_of(s: SchemaView, node: usize, sid: int) -> Option<Seq<char>> {
    if side_has(s, node, "input"@, sid) {
        Some("input"@)
    } else if side_has(s, node, "output"@, sid) {
        Some("output"@)
    } else {
        None
    }
}

/// A data item of a node in a response as a JSON value, whatever kind of node
/// it is. The fields of an operation do not say which side they are: the
/// first one decides.
pub open spec fn node_decoded(
    s: SchemaView,
    node: usize,
    v: Item,
    cf: ContentFormat,
    d: Seq<DecimalView>,
) -> Result<Tree, Seq<char>>
    decreases v, 2int, 0int,
{
    let n = s.nodes[node as int];
    let name = display_name(n);
    if n.kw == "leaf"@ {
        leaf_decoded(s, n, v, d)
    } else if n.kw == "leaf-list"@ {
        match v {
            Item::Array(a) => match leaves_decoded(s, n, a, d, a.len() as int) {
                Err(e) => Err(e),
                Ok(items) => Ok(Tree::Array(items)),
            },
            _ => Err(
                "\""@ + name + "\" needs a list of values, but the device sent "@ + item_described(
                    v,
                ),
            ),
        }
    } else if n.kw == "container"@ || n.kw == "input"@ || n.kw == "output"@ {
        body_decoded(s, node, v, cf, d)
    } else if n.kw == "list"@ {
        match v {
            Item::Array(_) => match entries_decoded(s, node, v, 0, cf, d, Seq::empty()) {
                Err(e) => Err(e),
                Ok(items) => Ok(Tree::Array(items)),
            },
            Item::Entries(_) => if is_sequence(cf) {
                body_decoded(s, node, v, cf, d)
            } else {
                Err(
                    "\""@ + name + "\" needs a list, but the device sent "@ + item_described(v),
                )
            },
            _ => Err("\""@ + name + "\" needs a list, but the device sent "@ + item_described(v)),
        }
    } else if n.kw == "rpc"@ || n.kw == "action"@ {
        match v {
            Item::Entries(e) => if e.len() == 0 {
                Ok(Tree::Object(Seq::empty()))
            } else {
                match item_number(e[0].0) {
                    None => Err(field_message()),
                    Some(k) => {
                        let base = match n.sid {
                            Some(sid) => sid as int,
                            None => 0,
                        };
                        let sid = signed_low(signed_low(k) + base);
                        match side_of(s, node, sid) {
                            None => Err(
                                "couldn't tell whether \""@ + name
                                    + "\"'s response is its input or output parameters (field #"@
                                    + decimal_text(sid)
                                    + " matches neither) -- the loaded YANG catalog may not match this device's firmware"@,
                            ),
                            Some(side) => match body_decoded(
                                s,
                                child_of(s, node, side)->0,
                                v,
                                cf,
                                d,
                            ) {
                                Err(e) => Err(e),
                                Ok(tree) => Ok(Tree::Object(seq![(side, tree)])),
                            },
                        }
                    },
                }
            },
            _ => Err(
                "\""@ + name
                    + "\" needs an object (its input/output fields), but the device sent "@
                    + item_described(v),
            ),
        }
    } else {
        Err(
            "\""@ + name + "\" has an unsupported schema shape ("@ + quoted_text(n.kw)
                + ") -- this looks like a catalog problem"@,
        )
    }
}

/// The value of a leaf in a response as a JSON value.
pub(crate) fn decode_leaf_value(schema: &Schema, n: &Node, v: &Cbor, decimals: &[DecimalText]) -> (r: Result<
    Json,
    CodecError,
>)
    requires
        schema.wf(),
        n@.type_id matches Some(t) ==> t < schema.types@.len(),
    ensures
        tree_of(r) == leaf_decoded(schema@, n@, v@, decimal_views(decimals@)),
{
    match n.type_id {
        None => Err(
            CodecError(
                cat3(
                    "\"",
                    n.name.as_str(),
                    "\" has no type defined in the schema -- this looks like a catalog problem",
                ),
            ),
        ),
        Some(t) => type_to_json(schema, t, v, false, decimals),
    }
}

/// The values of a leaf-list in a response as JSON values.
fn decode_leaves(schema: &Schema, n: &Node, a: &Vec<Cbor>, decimals: &[DecimalText]) -> (r: Result<
    Vec<Json>,
    CodecError,
>)
    requires
        schema.wf(),
        n@.type_id matches Some(t) ==> t < schema.types@.len(),
    ensures
        match r {
            Ok(v) => leaves_decoded(
                schema@,
                n@,
                value_items(a@),
                decimal_views(decimals@),
                a@.len() as int,
            ) == Ok::<Seq<Tree>, Seq<char>>(trees(v@)),
            Err(e) => leaves_decoded(
                schema@,
                n@,
                value_items(a@),
                decimal_views(decimals@),
                a@.len() as int,
            ) == Err::<Seq<Tree>, Seq<char>>(e.0@),
        },
{
    let ghost all = value_items(a@);
    let ghost d = decimal_views(decimals@);
    let mut out: Vec<Json> = Vec::new();
    let mut i: usize = 0;
    assert(trees(out@) =~= Seq::empty());
    while i < a.len()
        invariant
            i <= a@.len(),
            schema.wf(),
            n@.type_id matches Some(t) ==> t < schema.types@.len(),
            all == value_items(a@),
            d == decimal_views(decimals@),
            leaves_decoded(schema@, n@, all, d, i as int) == Ok::<Seq<Tree>, Seq<char>>(
                trees(out@),
            ),
        decreases a@.len() - i,
    {
        assert(all[i as int] == a@[i as int]@);
        let ghost had = trees(out@);
        match decode_leaf_value(schema, n, &a[i], decimals) {
            Ok(v) => {
                out.push(v);
                assert(trees(out@) =~= had.push(v@));
            },
            Err(e) => {
                proof {
                    lemma_leaves_decoded_fail(schema@, n@, all, d, i + 1, all.len() as int);
                }
                return Err(e);
            },
        }
        i += 1;
    }
    Ok(out)
}

proof fn lemma_leaves_decoded_fail(
    s: SchemaView,
    node: NodeView,
    a: Seq<Item>,
    d: Seq<DecimalView>,
    n: int,
    m: int,
)
    requires
        0 <= n <= m,
        leaves_decoded(s, node, a, d, n) is Err,
    ensures
        leaves_decoded(s, node, a, d, m) == leaves_decoded(s, node, a, d, n),
    decreases m - n,
{
    if n < m {
        lemma_leaves_decoded_fail(s, node, a, d, n, m - 1);
    }
}

/// The body of a node in a response as an object.
pub fn decode_body(
    schema: &Schema,
    scope: NodeId,
    v: &Cbor,
    cf: ContentFormat,
    decimals: &[DecimalText],
) -> (r: Result<Json, CodecError>)
    requires
        schema.wf(),
        scope < schema.nodes@.len(),
    ensures
        tree_of(r) == body_decoded(schema@, scope, v@, cf, decimal_views(decimals@)),
    decreases v, 1int,
{
    broadcast use vstd::std_specs::hash::group_hash_axioms;

    let ghost s = schema@;
    let ghost d = decimal_views(decimals@);
    let base = effective_delta_base(schema, scope);
    let n = &schema.nodes[scope];
    assert(s.nodes[scope as int] == n@);
    let entries = match v {
        Cbor::Entries(entries) => entries,
        _ => {
            let what = describe_cbor(v);
            return Err(
                CodecError(
                    cat4(
                        "expected a set of fields for ",
                        node_display_name(n),
                        ", but the device sent ",
                        what.as_str(),
                    ),
                ),
            );
        },
    };
    let ghost items = entry_items(entries@);
    let mut out: Vec<(String, Json)> = Vec::new();
    let mut i: usize = 0;
    assert(members(out@) =~= Seq::empty());
    while i < entries.len()
        invariant
            i <= entries@.len(),
            schema.wf(),
            scope < schema.nodes@.len(),
            s == schema@,
            d == decimal_views(decimals@),
            base == delta_base(s, scope),
            *v == Cbor::Entries(*entries),
            v@ == Item::Entries(items),
            items == entry_items(entries@),
            fields_decoded(s, scope, v@, 0, cf, d, Seq::empty()) == fields_decoded(
                s,
                scope,
                v@,
                i as int,
                cf,
                d,
                members(out@),
            ),
        decreases entries@.len() - i,
    {
        assert(items[i as int] == (entries@[i as int].0@, entries@[i as int].1@));
        proof {
            lemma_entry_below(*v, i as int);
        }
        let k = match cbor_as_i128(&entries[i].0) {
            Some(k) => k,
            None => {
                return Err(
                    CodecError(
                        owned("the device sent a field whose identifier isn't a valid number"),
                    ),
                );
            },
        };
        let sid: i64 = low_i64(low_i64(k) as i128 + base as i128);
        let child: usize = match schema.sid_index.get(&sid) {
            Some(c) => *c,
            None => {
                let t = decimal(sid as i128);
                return Err(
                    CodecError(
                        cat3(
                            "the device sent field #",
                            t.as_str(),
                            ", which isn't in the loaded YANG catalog -- the catalog may not match this device's firmware",
                        ),
                    ),
                );
            },
        };
        assert(s.sid_index.contains_key(sid));
        assert(s.nodes[child as int] == schema.nodes@[child as int]@);
        let tree = decode_node_value(schema, child, &entries[i].1, cf, decimals)?;
        let name = schema.nodes[child].name.clone();
        insert(&mut out, name, tree);
        i += 1;
    }
    Ok(Json::Object(out))
}

/// The entries of a list in a response.
fn decode_entries(
    schema: &Schema,
    node: NodeId,
    v: &Cbor,
    a: &Vec<Cbor>,
    cf: ContentFormat,
    decimals: &[DecimalText],
) -> (r: Result<Vec<Json>, CodecError>)
    requires
        schema.wf(),
        node < schema.nodes@.len(),
        *v == Cbor::Array(*a),
    ensures
        match r {
            Ok(out) => entries_decoded(
                schema@,
                node,
                v@,
                0,
                cf,
                decimal_views(decimals@),
                Seq::empty(),
            ) == Ok::<Seq<Tree>, Seq<char>>(trees(out@)),
            Err(e) => entries_decoded(
                schema@,
                node,
                v@,
                0,
                cf,
                decimal_views(decimals@),
                Seq::empty(),
            ) == Err::<Seq<Tree>, Seq<char>>(e.0@),
        },
    decreases v, 0int,
{
    let ghost s = schema@;
    let ghost d = decimal_views(decimals@);
    let ghost items = value_items(a@);
    let mut out: Vec<Json> = Vec::new();
    let mut i: usize = 0;
    assert(trees(out@) =~= Seq::empty());
    while i < a.len()
        invariant
            i <= a@.len(),
            schema.wf(),
            node < schema.nodes@.len(),
            *v == Cbor::Array(*a),
            v@ == Item::Array(items),
            s == schema@,
            d == decimal_views(decimals@),
            items == value_items(a@),
            entries_decoded(s, node, v@, 0, cf, d, Seq::empty()) == entries_decoded(
                s,
                node,
                v@,
                i as int,
                cf,
                d,
                trees(out@),
            ),
        decreases a@.len() - i,
    {
        assert(items[i as int] == a@[i as int]@);
        proof {
            lemma_element_below(*v, i as int);
        }
        let ghost had = trees(out@);
        let tree = decode_body(schema, node, &a[i], cf, decimals)?;
        out.push(tree);
        assert(trees(out@) =~= had.push(tree@));
        i += 1;
    }
    Ok(out)
}

/// Whether a side of an operation has a field with a SID.
pub(crate) fn side_holds(schema: &Schema, node: NodeId, side: &str, sid: i64) -> (r: Option<NodeId>)
    requires
        schema.wf(),
        node < schema.nodes@.len(),
    ensures
        match r {
            Some(n) => side_has(schema@, node, side@, sid as int) && child_of(
                schema@,
                node,
                side@,
            ) == Some(n) && n < schema.nodes@.len(),
            None => !side_has(schema@, node, side@, sid as int),
        },
{
    let ghost s = schema@;
    let side_node = match schema.find_child(node, side) {
        Some(n) => n,
        None => {
            return None;
        },
    };
    let n = &schema.nodes[side_node];
    assert(s.nodes[side_node as int] == n@);
    assert(node_ok(s.nodes.len() as int, s.types.len() as int, side_node as int, n@));
    let mut i: usize = 0;
    while i < n.children.len()
        invariant
            i <= n.children@.len(),
            s == schema@,
            n@ == s.nodes[side_node as int],
            node_ok(s.nodes.len() as int, s.types.len() as int, side_node as int, n@),
            child_of(s, node, side@) == Some(side_node),
            side_node < schema.nodes@.len(),
            has_sid(s, n@.children, sid as int, 0) == has_sid(s, n@.children, sid as int, i as int),
        decreases n.children@.len() - i,
    {
        let c: usize = n.children[i];
        assert(n@.children[i as int] == c);
        assert(s.nodes[c as int] == schema.nodes@[c as int]@);
        if schema.nodes[c].sid == Some(sid) {
            return Some(side_node);
        }
        i += 1;
    }
    None
}

/// The error on a data item of the wrong shape for a node.
fn wrong_reply(n: &Node, wanted: &str, v: &Cbor) -> (r: CodecError)
    ensures
        r.0@ == "\""@ + display_name(n@) + wanted@ + item_described(v@),
{
    let t = describe_cbor(v);
    CodecError(cat4("\"", node_display_name(n), wanted, t.as_str()))
}

/// A data item of a node in a response as a JSON value.
pub fn decode_node_value(
    schema: &Schema,
    node: NodeId,
    value: &Cbor,
    cf: ContentFormat,
    decimals: &[DecimalText],
) -> (r: Result<Json, CodecError>)
    requires
        schema.wf(),
        node < schema.nodes@.len(),
    ensures
        tree_of(r) == node_decoded(schema@, node, value@, cf, decimal_views(decimals@)),
    decreases value, 2int,
{
    let ghost s = schema@;
    let n = &schema.nodes[node];
    assert(s.nodes[node as int] == n@);
    assert(node_ok(s.nodes.len() as int, s.types.len() as int, node as int, n@));
    let kw = n.kw.as_str();
    if same(kw, "leaf") {
        return decode_leaf_value(schema, n, value, decimals);
    }
    if same(kw, "leaf-list") {
        return match value {
            Cbor::Array(a) => {
                let items = decode_leaves(schema, n, a, decimals)?;
                Ok(Json::Array(items))
            },
            _ => Err(wrong_reply(n, "\" needs a list of values, but the device sent ", value)),
        };
    }
    if same(kw, "container") || same(kw, "input") || same(kw, "output") {
        return decode_body(schema, node, value, cf, decimals);
    }
    if same(kw, "list") {
        return match value {
            Cbor::Array(a) => {
                let items = decode_entries(schema, node, value, a, cf, decimals)?;
                Ok(Json::Array(items))
            },
            Cbor::Entries(_) => if cf.is_sequence() {
                decode_body(schema, node, value, cf, decimals)
            } else {
                Err(wrong_reply(n, "\" needs a list, but the device sent ", value))
            },
            _ => Err(wrong_reply(n, "\" needs a list, but the device sent ", value)),
        };
    }
    if same(kw, "rpc") || same(kw, "action") {
        let entries = match value {
            Cbor::Entries(entries) => entries,
            _ => {
                return Err(
                    wrong_reply(
                        n,
                        "\" needs an object (its input/output fields), but the device sent ",
                        value,
                    ),
                );
            },
        };
        if entries.len() == 0 {
            let none: Vec<(String, Json)> = Vec::new();
            assert(members(none@) =~= Seq::empty());
            return Ok(Json::Object(none));
        }
        assert(entry_items(entries@)[0].0 == entries@[0].0@);
        let base: i64 = match n.sid {
            Some(sid) => sid,
            None => 0,
        };
        let k = match cbor_as_i128(&entries[0].0) {
            Some(k) => k,
            None => {
                return Err(
                    CodecError(
                        owned("the device sent a field whose identifier isn't a valid number"),
                    ),
                );
            },
        };
        let sid: i64 = low_i64(low_i64(k) as i128 + base as i128);
        let (side_name, side) = match side_holds(schema, node, "input", sid) {
            Some(side) => ("input", side),
            None => match side_holds(schema, node, "output", sid) {
                Some(side) => ("output", side),
                None => {
                    let t = decimal(sid as i128);
                    return Err(
                        CodecError(
                            cat5(
                                "couldn't tell whether \"",
                                node_display_name(n),
                                "\"'s response is its input or output parameters (field #",
                                t.as_str(),
                                " matches neither) -- the loaded YANG catalog may not match this device's firmware",
                            ),
                        ),
                    );
                },
            },
        };
        let tree = decode_body(schema, side, value, cf, decimals)?;
        let mut out: Vec<(String, Json)> = Vec::new();
        let side_text = owned(side_name);
        out.push((side_text, tree));
        assert(members(out@) =~= seq![(side_name@, tree@)]);
        return Ok(Json::Object(out));
    }
    let q = quoted(kw);
    Err(
        CodecError(
            cat5(
                "\"",
                node_display_name(n),
                "\" has an unsupported schema shape (",
                q.as_str(),
                ") -- this looks like a catalog problem",
            ),
        ),
    )
}

} // verus!
