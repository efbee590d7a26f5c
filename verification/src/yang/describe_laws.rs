//! What the JSON Schema of a model asks for.
use vstd::prelude::*;

use crate::json::{find_key, with_member, Tree};
use crate::yang::bodies::{body_encoded, ContentFormat};
use crate::yang::item_laws::in_some;
use crate::yang::json_schema::{
    distinct, has_property, properties, required, schema_for, shape, text_list, type_schema,
    value_range,
};
use crate::yang::schema::{Builtin, SchemaView};
use crate::yang::tree_laws::{is_needed, law_missing_fields};

verus! {

/// The value of the first member with a key.
#[verifier::opaque]
pub open spec fn looked_up(v: Tree, key: Seq<char>) -> Option<Tree> {
    match v {
        Tree::Object(m) => if exists|i: int| 0 <= i < m.len() && (#[trigger] m[i]).0 == key {
            Some(m[first_place(m, key)].1)
        } else {
            None
        },
        _ => None,
    }
}

/// The first place of a member with a key.
pub open spec fn first_place(m: Seq<(Seq<char>, Tree)>, key: Seq<char>) -> int {
    choose|i: int|
        0 <= i < m.len() && (#[trigger] m[i]).0 == key && forall|j: int|
            0 <= j < i ==> (#[trigger] m[j]).0 != key
}

/// Whether a schema asks for a member with a name.
pub open spec fn asks_for(schema: Tree, name: Seq<char>) -> bool {
    looked_up(schema, "required"@) matches Some(Tree::Array(a)) && a.contains(Tree::Text(name))
}

/// Whether a child of a node takes part under a content format: what is no
/// configuration does not where a device is changed.
pub open spec fn takes_part(s: SchemaView, node: usize, k: int, cf: Seq<char>) -> bool {
    let children = s.nodes[node as int].children;
    0 <= k < children.len() && (s.nodes[children[k] as int].config || (cf != "put"@ && cf
        != "ipatch"@))
}

/// A member that is the only one with its key is looked up.
pub(crate) proof fn lemma_looked_up(m: Seq<(Seq<char>, Tree)>, i: int)
    requires
        0 <= i < m.len(),
        forall|j: int| 0 <= j < i ==> (#[trigger] m[j]).0 != m[i].0,
    ensures
        looked_up(Tree::Object(m), m[i].0) == Some(m[i].1),
{
    reveal(looked_up);
    let key = m[i].0;
    assert(m[i].0 == key);
    let k = first_place(m, key);
    assert(0 <= k < m.len() && m[k].0 == key && forall|j: int| 0 <= j < k ==> (#[trigger] m[j]).0
        != key);
    if k < i {
        assert(m[k].0 != key);
    } else if i < k {
        assert(m[i].0 != key);
    }
}

/// A member that is not there is not looked up.
pub(crate) proof fn lemma_absent(m: Seq<(Seq<char>, Tree)>, key: Seq<char>)
    requires
        forall|i: int| 0 <= i < m.len() ==> (#[trigger] m[i]).0 != key,
    ensures
        looked_up(Tree::Object(m), key) is None,
{
    reveal(looked_up);
}

/// A member that is put in is found, and the others stay.
pub(crate) proof fn lemma_put_in(m: Seq<(Seq<char>, Tree)>, key: Seq<char>, v: Tree, other: Seq<char>)
    ensures
        looked_up(Tree::Object(with_member(m, key, v)), key) == Some(v),
        other != key ==> looked_up(Tree::Object(with_member(m, key, v)), other) == looked_up(
            Tree::Object(m),
            other,
        ),
{
    reveal(looked_up);
    lemma_find(m, key, 0);
    let n = with_member(m, key, v);
    match find_key(m, key, 0) {
        Some(i) => {
            assert forall|j: int| 0 <= j < i implies (#[trigger] n[j]).0 != n[i].0 by {
                assert(n[j] == m[j]);
            }
            lemma_looked_up(n, i);
        },
        None => {
            let i = m.len() as int;
            assert forall|j: int| 0 <= j < i implies (#[trigger] n[j]).0 != n[i].0 by {
                assert(n[j] == m[j]);
            }
            lemma_looked_up(n, i);
        },
    }
    if other != key {
        if exists|i: int| 0 <= i < m.len() && (#[trigger] m[i]).0 == other {
            lemma_first(m, other);
            let i = first_place(m, other);
            assert(n[i] == m[i]);
            assert forall|j: int| 0 <= j < i implies (#[trigger] n[j]).0 != n[i].0 by {
                assert(m[j].0 != other);
            }
            lemma_looked_up(n, i);
        } else {
            assert forall|i: int| 0 <= i < n.len() implies (#[trigger] n[i]).0 != other by {
                if i < m.len() {
                    assert(m[i].0 != other);
                }
            }
        }
    }
}

/// There is a first place.
proof fn lemma_first(m: Seq<(Seq<char>, Tree)>, key: Seq<char>)
    requires
        exists|i: int| 0 <= i < m.len() && (#[trigger] m[i]).0 == key,
    ensures
        ({
            let i = first_place(m, key);
            0 <= i < m.len() && m[i].0 == key && forall|j: int|
                0 <= j < i ==> (#[trigger] m[j]).0 != key
        }),
{
    lemma_find(m, key, 0);
    let i = find_key(m, key, 0)->0;
    assert(m[i].0 == key);
}

/// The place that is found is the first.
pub(crate) proof fn lemma_find(m: Seq<(Seq<char>, Tree)>, key: Seq<char>, from: int)
    requires
        0 <= from,
    ensures
        match find_key(m, key, from) {
            Some(i) => from <= i < m.len() && m[i].0 == key && forall|j: int|
                from <= j < i ==> (#[trigger] m[j]).0 != key,
            None => forall|j: int| from <= j < m.len() ==> (#[trigger] m[j]).0 != key,
        },
    decreases m.len() - from,
{
    if from < m.len() && m[from].0 != key {
        lemma_find(m, key, from + 1);
    }
}

/// The names that are required are those of mandatory children.
proof fn lemma_required(s: SchemaView, node: usize, cf: Seq<char>, n: int, name: Seq<char>)
    requires
        0 <= n <= s.nodes[node as int].children.len(),
    ensures
        required(s, node, cf, n).contains(name) <==> exists|k: int|
            0 <= k < n && #[trigger] takes_part(s, node, k, cf)
                && s.nodes[s.nodes[node as int].children[k] as int].mandatory
                && s.nodes[s.nodes[node as int].children[k] as int].name == name,
    decreases n,
{
    if n > 0 {
        lemma_required(s, node, cf, n - 1, name);
        let before = required(s, node, cf, n - 1);
        let now = required(s, node, cf, n);
        let c = s.nodes[s.nodes[node as int].children[n - 1] as int];
        assert(takes_part(s, node, n - 1, cf) == (c.config || (cf != "put"@ && cf != "ipatch"@)));
        if now.contains(name) {
            let i = choose|i: int| 0 <= i < now.len() && now[i] == name;
            if i < before.len() {
                assert(before[i] == name);
                assert(before.contains(name));
            } else {
                assert(takes_part(s, node, n - 1, cf));
            }
        }
        if before.contains(name) {
            let i = choose|i: int| 0 <= i < before.len() && before[i] == name;
            assert(now[i] == name);
        }
        if takes_part(s, node, n - 1, cf) && c.mandatory && c.name == name {
            assert(now[now.len() - 1] == name);
        }
    }
}

/// A list of texts contains exactly the texts.
proof fn lemma_text_list(names: Seq<Seq<char>>, name: Seq<char>)
    ensures
        text_list(names) is Array,
        text_list(names)->Array_0.contains(Tree::Text(name)) <==> names.contains(name),
{
    let a = text_list(names)->Array_0;
    if names.contains(name) {
        let i = choose|i: int| 0 <= i < names.len() && names[i] == name;
        assert(a[i] == Tree::Text(name));
    }
    if a.contains(Tree::Text(name)) {
        let i = choose|i: int| 0 <= i < a.len() && a[i] == Tree::Text(name);
        assert(names[i] == name);
    }
}

/// The words of a schema are different.
pub(crate) proof fn lemma_schema_words()
    ensures
        "type"@ != "additionalProperties"@,
        "type"@ != "properties"@,
        "type"@ != "required"@,
        "type"@ != "description"@,
        "type"@ != "title"@,
        "type"@ != "$schema"@,
        "type"@ != "items"@,
        "type"@ != "anyOf"@,
        "additionalProperties"@ != "properties"@,
        "additionalProperties"@ != "required"@,
        "additionalProperties"@ != "description"@,
        "additionalProperties"@ != "title"@,
        "additionalProperties"@ != "$schema"@,
        "properties"@ != "required"@,
        "properties"@ != "description"@,
        "properties"@ != "title"@,
        "properties"@ != "$schema"@,
        "required"@ != "description"@,
        "required"@ != "title"@,
        "required"@ != "$schema"@,
        "items"@ != "uniqueItems"@,
        "items"@ != "description"@,
        "uniqueItems"@ != "description"@,
        "uniqueItems"@ != "type"@,
        "anyOf"@ != "description"@,
        "oneOf"@ != "description"@,
        "oneOf"@ != "type"@,
{
    reveal_strlit("type");
    reveal_strlit("additionalProperties");
    reveal_strlit("properties");
    reveal_strlit("required");
    reveal_strlit("description");
    reveal_strlit("title");
    reveal_strlit("$schema");
    reveal_strlit("items");
    reveal_strlit("uniqueItems");
    reveal_strlit("anyOf");
    reveal_strlit("oneOf");
    assert("type"@.len() == 4 && "additionalProperties"@.len() == 20 && "properties"@.len() == 10);
    assert("required"@.len() == 8 && "description"@.len() == 11 && "title"@.len() == 5);
    assert("$schema"@.len() == 7 && "items"@.len() == 5 && "uniqueItems"@.len() == 11);
    assert("anyOf"@.len() == 5 && "oneOf"@.len() == 5);
    assert("uniqueItems"@[0] == 'u' && "description"@[0] == 'd');
}

/// Where members of an object schema stand.
proof fn lemma_object_schema(s: SchemaView, node: usize, cf: Seq<char>)
    requires
        s.nodes[node as int].kw == "container"@ || s.nodes[node as int].kw == "module"@,
    ensures
        ({
            let n = s.nodes[node as int];
            let count = n.children.len() as int;
            let schema = schema_for(s, node, cf);
            let names = required(s, node, cf, count);
            &&& looked_up(schema, "type"@) == Some(Tree::Text("object"@))
            &&& looked_up(schema, "additionalProperties"@) == Some(Tree::Bool(false))
            &&& looked_up(schema, "properties"@) == Some(
                Tree::Object(properties(s, node, cf, count)),
            )
            &&& looked_up(schema, "required"@) == (if names.len() == 0 {
                None
            } else {
                Some(text_list(names))
            })
        }),
{
    lemma_schema_words();
    reveal_strlit("container");
    reveal_strlit("module");
    assert("container"@.len() != "module"@.len());
    let n = s.nodes[node as int];
    let count = n.children.len() as int;
    let props = properties(s, node, cf, count);
    let names = required(s, node, cf, count);
    let m = shape(s, node, cf);
    let at: int = if n.kw == "module"@ {
        2
    } else {
        0
    };
    assert(m.len() == at + 3 + (if names.len() == 0 {
        0int
    } else {
        1int
    }));
    assert(m[at] == ("type"@, Tree::Text("object"@)));
    assert(m[at + 1] == ("additionalProperties"@, Tree::Bool(false)));
    assert(m[at + 2] == ("properties"@, Tree::Object(props)));
    if at == 2 {
        assert(m[0].0 == "title"@);
        assert(m[1].0 == "$schema"@);
    }
    lemma_looked_up(m, at);
    lemma_looked_up(m, at + 1);
    lemma_looked_up(m, at + 2);
    if names.len() > 0 {
        assert(m[at + 3] == ("required"@, text_list(names)));
        lemma_looked_up(m, at + 3);
    } else {
        assert forall|i: int| 0 <= i < m.len() implies (#[trigger] m[i]).0 != "required"@ by {}
        lemma_absent(m, "required"@);
    }
    if n.description is Some {
        let d = Tree::Text(n.description->0);
        lemma_put_in(m, "description"@, d, "type"@);
        lemma_put_in(m, "description"@, d, "additionalProperties"@);
        lemma_put_in(m, "description"@, d, "properties"@);
        lemma_put_in(m, "description"@, d, "required"@);
    }
}

/// The schema of a container, or of all data, asks for a name exactly if it is
/// that of a mandatory child that takes part.
pub proof fn law_mandatory_children_are_required(
    s: SchemaView,
    node: usize,
    cf: Seq<char>,
    name: Seq<char>,
)
    requires
        s.nodes[node as int].kw == "container"@ || s.nodes[node as int].kw == "module"@,
    ensures
        asks_for(schema_for(s, node, cf), name) <==> exists|k: int| #[trigger]
            takes_part(s, node, k, cf)
                && s.nodes[s.nodes[node as int].children[k] as int].mandatory
                && s.nodes[s.nodes[node as int].children[k] as int].name == name,
{
    lemma_object_schema(s, node, cf);
    let count = s.nodes[node as int].children.len() as int;
    let names = required(s, node, cf, count);
    lemma_required(s, node, cf, count, name);
    lemma_text_list(names, name);
    if names.len() == 0 {
        assert(!names.contains(name));
    }
}

/// The properties are those of the children that take part and hold data.
proof fn lemma_properties(s: SchemaView, node: usize, cf: Seq<char>, n: int, k: int)
    requires
        0 <= k < n <= s.nodes[node as int].children.len(),
        ({
            let c = s.nodes[s.nodes[node as int].children[k] as int];
            has_property(c, cf) && c.kw != "input"@ && c.kw != "output"@
        }),
        forall|j: int|
            0 <= j < n ==> node < #[trigger] s.nodes[node as int].children[j] < s.nodes.len(),
        forall|j: int|
            k < j < n ==> s.nodes[(#[trigger] s.nodes[node as int].children[j]) as int].name
                != s.nodes[s.nodes[node as int].children[k] as int].name
                && s.nodes[s.nodes[node as int].children[j] as int].kw != "input"@
                && s.nodes[s.nodes[node as int].children[j] as int].kw != "output"@,
    ensures
        looked_up(
            Tree::Object(properties(s, node, cf, n)),
            s.nodes[s.nodes[node as int].children[k] as int].name,
        ) == Some(schema_for(s, s.nodes[node as int].children[k], cf)),
    decreases n,
{
    let id = s.nodes[node as int].children[n - 1];
    let c = s.nodes[id as int];
    let name = s.nodes[s.nodes[node as int].children[k] as int].name;
    let before = properties(s, node, cf, n - 1);
    assert(node < s.nodes[node as int].children[n - 1] < s.nodes.len());
    if k == n - 1 {
        lemma_put_in(before, name, schema_for(s, id, cf), name);
    } else {
        lemma_properties(s, node, cf, n - 1, k);
        if has_property(c, cf) {
            lemma_put_in(before, c.name, schema_for(s, id, cf), name);
        }
    }
}

/// The schema of a container, or of all data, has a property for each child
/// that takes part and holds data, with the schema of that child, and allows no
/// others.
pub proof fn law_children_are_properties(s: SchemaView, node: usize, cf: Seq<char>, k: int)
    requires
        s.nodes[node as int].kw == "container"@ || s.nodes[node as int].kw == "module"@,
        takes_part(s, node, k, cf),
        ({
            let c = s.nodes[s.nodes[node as int].children[k] as int];
            c.kw == "container"@ || c.kw == "leaf"@ || c.kw == "leaf-list"@ || c.kw == "list"@
        }),
        forall|j: int|
            0 <= j < s.nodes[node as int].children.len() ==> node
                < #[trigger] s.nodes[node as int].children[j] < s.nodes.len(),
        forall|j: int|
            k < j < s.nodes[node as int].children.len()
                ==> s.nodes[(#[trigger] s.nodes[node as int].children[j]) as int].name
                != s.nodes[s.nodes[node as int].children[k] as int].name
                && s.nodes[s.nodes[node as int].children[j] as int].kw != "input"@
                && s.nodes[s.nodes[node as int].children[j] as int].kw != "output"@,
    ensures
        ({
            let schema = schema_for(s, node, cf);
            let c = s.nodes[node as int].children[k];
            &&& looked_up(schema, "type"@) == Some(Tree::Text("object"@))
            &&& looked_up(schema, "additionalProperties"@) == Some(Tree::Bool(false))
            &&& looked_up(schema, "properties"@) matches Some(p) && looked_up(
                p,
                s.nodes[c as int].name,
            ) == Some(schema_for(s, c, cf))
        }),
{
    lemma_object_schema(s, node, cf);
    let c = s.nodes[s.nodes[node as int].children[k] as int];
    lemma_no_side(c.kw);
    assert(has_property(c, cf));
    let n = s.nodes[node as int].children.len() as int;
    lemma_properties(s, node, cf, n, k);
}

/// What holds data is no side of an operation.
proof fn lemma_no_side(kw: Seq<char>)
    requires
        kw == "container"@ || kw == "leaf"@ || kw == "leaf-list"@ || kw == "list"@,
    ensures
        kw != "input"@,
        kw != "output"@,
{
    reveal_strlit("container");
    reveal_strlit("leaf");
    reveal_strlit("leaf-list");
    reveal_strlit("list");
    reveal_strlit("input");
    reveal_strlit("output");
    assert("container"@.len() == 9 && "leaf"@.len() == 4 && "leaf-list"@.len() == 9 && "list"@.len()
        == 4 && "input"@.len() == 5 && "output"@.len() == 6);
}

/// Whether an object has a member with a name.
pub open spec fn holds(m: Seq<(Seq<char>, Tree)>, name: Seq<char>) -> bool {
    exists|i: int| 0 <= i < m.len() && (#[trigger] m[i]).0 == name
}

/// An object that the encoder takes for a container has everything that the
/// schema of the container asks for: valid data are never refused by it for a
/// child that is not mandatory.
pub proof fn law_encodable_data_have_what_is_required(
    s: SchemaView,
    node: usize,
    m: Seq<(Seq<char>, Tree)>,
    cf: ContentFormat,
    name: Seq<char>,
)
    requires
        s.nodes[node as int].kw == "container"@ || s.nodes[node as int].kw == "module"@,
        cf == ContentFormat::Put || cf == ContentFormat::Ipatch,
        body_encoded(s, node, m, cf, false) is Ok,
        asks_for(
            schema_for(
                s,
                node,
                if cf == ContentFormat::Put {
                    "put"@
                } else {
                    "ipatch"@
                },
            ),
            name,
        ),
    ensures
        holds(m, name),
{
    let word = if cf == ContentFormat::Put {
        "put"@
    } else {
        "ipatch"@
    };
    law_mandatory_children_are_required(s, node, word, name);
    law_missing_fields(s, node, m, cf, 0);
    let k = choose|k: int| #[trigger]
        takes_part(s, node, k, word)
            && s.nodes[s.nodes[node as int].children[k] as int].mandatory
            && s.nodes[s.nodes[node as int].children[k] as int].name == name;
    assert(is_needed(s, node, k, cf));
    lemma_find(m, name, 0);
    let i = find_key(m, name, 0)->0;
    assert(m[i].0 == name);
}

/// The schema of a list, where not a single entry may stand for it, is that of
/// an array of objects, each with all keys of the list and all mandatory
/// children that take part.
pub proof fn law_lists_ask_for_their_keys(s: SchemaView, node: usize, cf: Seq<char>, name: Seq<char>)
    requires
        s.nodes[node as int].kw == "list"@,
        cf != "fetch"@,
        cf != "ipatch"@,
    ensures
        ({
            let schema = schema_for(s, node, cf);
            &&& looked_up(schema, "type"@) == Some(Tree::Text("array"@))
            &&& looked_up(schema, "items"@) matches Some(entry) && {
                &&& looked_up(entry, "type"@) == Some(Tree::Text("object"@))
                &&& looked_up(entry, "additionalProperties"@) == Some(Tree::Bool(false))
                &&& asks_for(entry, name) <==> s.nodes[node as int].keys.contains(name) || exists|
                    k: int,
                |
                    #[trigger] takes_part(s, node, k, cf)
                        && s.nodes[s.nodes[node as int].children[k] as int].mandatory
                        && s.nodes[s.nodes[node as int].children[k] as int].name == name
            }
        }),
{
    lemma_schema_words();
    lemma_list_word();
    let n = s.nodes[node as int];
    let count = n.children.len() as int;
    let props = properties(s, node, cf, count);
    let needed = required(s, node, cf, count);
    let all = n.keys + needed;
    let names = distinct(all, all.len() as int);
    let m = shape(s, node, cf);
    let entry = crate::yang::json_schema::entry_schema(names, props);
    assert(m[0] == ("type"@, Tree::Text("array"@)));
    assert(m[1] == ("items"@, entry));
    lemma_looked_up(m, 0);
    lemma_looked_up(m, 1);
    if n.description is Some {
        let d = Tree::Text(n.description->0);
        lemma_put_in(m, "description"@, d, "type"@);
        lemma_put_in(m, "description"@, d, "items"@);
    }
    let e = entry->Object_0;
    assert(e[0] == ("type"@, Tree::Text("object"@)));
    assert(e[1] == ("additionalProperties"@, Tree::Bool(false)));
    assert(e[2] == ("required"@, text_list(names)));
    lemma_looked_up(e, 0);
    lemma_looked_up(e, 1);
    lemma_looked_up(e, 2);
    lemma_text_list(names, name);
    lemma_required(s, node, cf, count, name);
    lemma_distinct(all, all.len() as int, name);
    if all.contains(name) {
        let i = choose|i: int| 0 <= i < all.len() && all[i] == name;
        if i < n.keys.len() {
            assert(n.keys[i] == name);
        } else {
            assert(needed[i - n.keys.len()] == name);
        }
    }
    if n.keys.contains(name) {
        let i = choose|i: int| 0 <= i < n.keys.len() && n.keys[i] == name;
        assert(all[i] == name);
    }
    if needed.contains(name) {
        let i = choose|i: int| 0 <= i < needed.len() && needed[i] == name;
        assert(all[n.keys.len() + i] == name);
    }
}

/// A list is none of the others.
pub(crate) proof fn lemma_list_word()
    ensures
        "list"@ != "module"@,
        "list"@ != "container"@,
        "list"@ != "leaf"@,
        "list"@ != "leaf-list"@,
        "leaf-list"@ != "module"@,
        "leaf-list"@ != "container"@,
        "leaf-list"@ != "leaf"@,
{
    reveal_strlit("list");
    reveal_strlit("module");
    reveal_strlit("container");
    reveal_strlit("leaf");
    reveal_strlit("leaf-list");
    assert("list"@.len() == 4 && "leaf"@.len() == 4 && "leaf-list"@.len() == 9);
    assert("module"@.len() == 6 && "container"@.len() == 9);
    assert("list"@[1] == 'i' && "leaf"@[1] == 'e');
    assert("leaf-list"@[0] == 'l' && "container"@[0] == 'c');
}

/// What stands among some texts stands among them once.
proof fn lemma_distinct(all: Seq<Seq<char>>, n: int, name: Seq<char>)
    requires
        0 <= n <= all.len(),
    ensures
        distinct(all, n).contains(name) <==> all.subrange(0, n).contains(name),
        n == all.len() ==> (all.subrange(0, n).contains(name) <==> all.contains(name)),
    decreases n,
{
    if n == all.len() {
        assert(all.subrange(0, n) =~= all);
    }
    if n > 0 {
        lemma_distinct(all, n - 1, name);
        let before = distinct(all, n - 1);
        let now = distinct(all, n);
        let a = all.subrange(0, n);
        let b = all.subrange(0, n - 1);
        crate::yang::describe_laws::lemma_found(before, all[n - 1], 0);
        if a.contains(name) {
            let i = choose|i: int| 0 <= i < a.len() && a[i] == name;
            if i < n - 1 {
                assert(b[i] == name);
                assert(b.contains(name));
            }
        }
        if b.contains(name) {
            let i = choose|i: int| 0 <= i < b.len() && b[i] == name;
            assert(a[i] == name);
        }
        if before.contains(name) {
            let i = choose|i: int| 0 <= i < before.len() && before[i] == name;
            assert(now[i] == name);
        }
        assert(a[n - 1] == all[n - 1]);
        if now.contains(name) && !before.contains(name) {
            let i = choose|i: int| 0 <= i < now.len() && now[i] == name;
            if i < before.len() {
                assert(before[i] == name);
            }
            assert(name == all[n - 1]);
        }
        if name == all[n - 1] && now.len() > before.len() {
            assert(now[now.len() - 1] == name);
        }
    }
}

proof fn lemma_found(all: Seq<Seq<char>>, t: Seq<char>, from: int)
    requires
        0 <= from,
    ensures
        crate::text::find_text(all, t, from) is Some ==> all.contains(t),
    decreases all.len() - from,
{
    if from < all.len() && all[from] != t {
        lemma_found(all, t, from + 1);
    }
}

/// The schema of a leaf-list is that of an array of the schema of its type; its
/// values are to be unique where it is configuration.
pub proof fn law_leaf_lists_are_arrays(s: SchemaView, node: usize, cf: Seq<char>)
    requires
        s.nodes[node as int].kw == "leaf-list"@,
    ensures
        ({
            let n = s.nodes[node as int];
            let schema = schema_for(s, node, cf);
            &&& looked_up(schema, "type"@) == Some(Tree::Text("array"@))
            &&& looked_up(schema, "items"@) == Some(type_schema(s, n.type_id->0, s.types.len()))
            &&& looked_up(schema, "uniqueItems"@) == (if n.config {
                Some(Tree::Bool(true))
            } else {
                None
            })
        }),
{
    lemma_schema_words();
    lemma_list_word();
    let n = s.nodes[node as int];
    let m = shape(s, node, cf);
    assert(m[0] == ("type"@, Tree::Text("array"@)));
    assert(m[1] == ("items"@, type_schema(s, n.type_id->0, s.types.len())));
    lemma_looked_up(m, 0);
    lemma_looked_up(m, 1);
    if n.config {
        assert(m[2] == ("uniqueItems"@, Tree::Bool(true)));
        lemma_looked_up(m, 2);
    } else {
        assert forall|i: int| 0 <= i < m.len() implies (#[trigger] m[i]).0 != "uniqueItems"@ by {}
        lemma_absent(m, "uniqueItems"@);
    }
    if n.description is Some {
        let d = Tree::Text(n.description->0);
        lemma_put_in(m, "description"@, d, "type"@);
        lemma_put_in(m, "description"@, d, "items"@);
        lemma_put_in(m, "description"@, d, "uniqueItems"@);
    }
}

/// Whether a schema of bounds holds for a number.
pub open spec fn bounds_hold(v: Tree, n: int) -> bool {
    &&& looked_up(v, "minimum"@) matches Some(Tree::Integer(low)) && low <= n
    &&& looked_up(v, "maximum"@) matches Some(Tree::Integer(high)) && n <= high
}

/// Whether one of some schemas of bounds holds for a number.
pub open spec fn any_holds(any: Seq<Tree>, n: int) -> bool {
    exists|i: int| 0 <= i < any.len() && bounds_hold(#[trigger] any[i], n)
}

/// The bounds of a range hold for the numbers in it.
proof fn lemma_bounds(r: (i128, i128), n: int)
    requires
        i64::MIN <= r.0 <= r.1 <= u64::MAX,
    ensures
        bounds_hold(value_range(r), n) == (r.0 <= n <= r.1),
{
    reveal_strlit("minimum");
    reveal_strlit("maximum");
    assert("minimum"@[1] == 'i' && "maximum"@[1] == 'a');
    let b = value_range(r)->Object_0;
    assert(b[0] == ("minimum"@, Tree::Integer(r.0 as int)));
    assert(b[1] == ("maximum"@, Tree::Integer(r.1 as int)));
    lemma_looked_up(b, 0);
    lemma_looked_up(b, 1);
}

/// The schema of an integer type of at most 32 bits holds for exactly the
/// numbers that lie in one of the ranges of the type.
pub proof fn law_integer_schemas_hold_for_the_ranges(s: SchemaView, id: usize, fuel: nat, n: int)
    requires
        fuel > 0,
        ({
            let b = s.types[id as int].builtin;
            b == Builtin::Int8 || b == Builtin::Int16 || b == Builtin::Int32 || b == Builtin::Uint8
                || b == Builtin::Uint16 || b == Builtin::Uint32
        }),
        forall|i: int|
            0 <= i < s.types[id as int].ranges.len() ==> i64::MIN <= (
            #[trigger] s.types[id as int].ranges[i]).0 <= s.types[id as int].ranges[i].1
                <= u64::MAX,
    ensures
        ({
            let schema = type_schema(s, id, fuel);
            let ranges = s.types[id as int].ranges;
            &&& looked_up(schema, "type"@) == Some(Tree::Text("integer"@))
            &&& looked_up(schema, "anyOf"@) matches Some(any) && any is Array && any_holds(
                any->Array_0,
                n,
            ) == in_some(n, ranges)
        }),
{
    lemma_schema_words();
    let ranges = s.types[id as int].ranges;
    let schema = type_schema(s, id, fuel);
    let m = schema->Object_0;
    let a = ranges.map_values(|r: (i128, i128)| value_range(r));
    assert(m[0] == ("type"@, Tree::Text("integer"@)));
    assert(m[1] == ("anyOf"@, Tree::Array(a)));
    lemma_looked_up(m, 0);
    lemma_looked_up(m, 1);
    assert forall|i: int| 0 <= i < ranges.len() implies #[trigger] a[i] == value_range(ranges[i]) by {}
    if in_some(n, ranges) {
        let i = choose|i: int| 0 <= i < ranges.len() && (#[trigger] ranges[i]).0 <= n <= ranges[i].1;
        lemma_bounds(ranges[i], n);
        assert(bounds_hold(a[i], n));
        assert(any_holds(a, n));
    }
    if any_holds(a, n) {
        let i = choose|i: int| 0 <= i < a.len() && bounds_hold(#[trigger] a[i], n);
        lemma_bounds(ranges[i], n);
        assert(ranges[i].0 <= n <= ranges[i].1);
        assert(in_some(n, ranges));
    }
    assert(schema == Tree::Object(m));
    assert(looked_up(schema, "anyOf"@) == Some(Tree::Array(a)));
}

} // verus!
