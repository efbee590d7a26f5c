//! What the schemas for lists, operations and modules say.
use vstd::prelude::*;

use crate::json::Tree;
use crate::yang::describe_laws::{
    lemma_list_word, lemma_looked_up, lemma_put_in, lemma_schema_words, looked_up,
};
use crate::yang::json_schema::{
    child_with_kw, distinct, entry_schema, object_members, properties, required, schema_for, shape,
};
use crate::yang::schema::SchemaView;

verus! {

/// What describes a node describes it in its schema.
pub proof fn law_descriptions_are_kept(s: SchemaView, node: usize, cf: Seq<char>, d: Seq<char>)
    requires
        s.nodes[node as int].description == Some(d),
    ensures
        looked_up(schema_for(s, node, cf), "description"@) == Some(Tree::Text(d)),
{
    lemma_put_in(shape(s, node, cf), "description"@, Tree::Text(d), "type"@);
}

/// A member of a shape is one of the schema, whether or not it is described.
proof fn lemma_in_schema(s: SchemaView, node: usize, cf: Seq<char>, key: Seq<char>)
    requires
        key != "description"@,
    ensures
        looked_up(schema_for(s, node, cf), key) == looked_up(
            Tree::Object(shape(s, node, cf)),
            key,
        ),
{
    let m = shape(s, node, cf);
    if let Some(d) = s.nodes[node as int].description {
        lemma_put_in(m, "description"@, Tree::Text(d), key);
    }
}

/// The words are not the same.
proof fn lemma_operation_words()
    ensures
        "action"@ != "module"@ && "action"@ != "container"@ && "action"@ != "leaf"@ && "action"@
            != "leaf-list"@ && "action"@ != "list"@ && "action"@ != "input"@ && "action"@
            != "output"@,
        "rpc"@ != "module"@ && "rpc"@ != "container"@ && "rpc"@ != "leaf"@ && "rpc"@ != "leaf-list"@
            && "rpc"@ != "list"@ && "rpc"@ != "input"@ && "rpc"@ != "output"@,
        "input"@ != "module"@ && "input"@ != "container"@ && "input"@ != "leaf"@ && "input"@
            != "leaf-list"@ && "input"@ != "list"@,
        "output"@ != "module"@ && "output"@ != "container"@ && "output"@ != "leaf"@ && "output"@
            != "leaf-list"@ && "output"@ != "list"@,
        "title"@ != "$schema"@,
        "title"@ != "description"@,
        "$schema"@ != "description"@,
{
    reveal_strlit("action");
    reveal_strlit("rpc");
    reveal_strlit("input");
    reveal_strlit("output");
    reveal_strlit("module");
    reveal_strlit("container");
    reveal_strlit("leaf");
    reveal_strlit("leaf-list");
    reveal_strlit("list");
    reveal_strlit("title");
    reveal_strlit("$schema");
    reveal_strlit("description");
    assert("action"@[0] == 'a' && "rpc"@[0] == 'r' && "input"@[0] == 'i' && "output"@[0] == 'o');
    assert("module"@[0] == 'm' && "container"@[0] == 'c' && "leaf"@[0] == 'l' && "leaf-list"@[0]
        == 'l' && "list"@[0] == 'l');
    assert("title"@[0] == 't' && "$schema"@[0] == '$' && "description"@[0] == 'd');
}

/// Where a single entry may stand for a list, its schema is that of one of two:
/// an array of entries, or such an entry, which is an object.
pub proof fn law_single_entries_may_stand_for_lists(s: SchemaView, node: usize, cf: Seq<char>)
    requires
        s.nodes[node as int].kw == "list"@,
        cf == "fetch"@ || cf == "ipatch"@,
    ensures
        looked_up(schema_for(s, node, cf), "oneOf"@) matches Some(Tree::Array(a)) && {
            &&& a.len() == 2
            &&& looked_up(a[0], "type"@) == Some(Tree::Text("array"@))
            &&& looked_up(a[0], "items"@) == Some(a[1])
            &&& looked_up(a[1], "type"@) == Some(Tree::Text("object"@))
            &&& looked_up(a[1], "additionalProperties"@) == Some(Tree::Bool(false))
        },
{
    lemma_schema_words();
    lemma_list_word();
    lemma_in_schema(s, node, cf, "oneOf"@);
    let n = s.nodes[node as int];
    let count = n.children.len() as int;
    let props = properties(s, node, cf, count);
    let all = n.keys + required(s, node, cf, count);
    let names = distinct(all, all.len() as int);
    let m = shape(s, node, cf);
    assert(m[0].0 == "oneOf"@);
    lemma_looked_up(m, 0);
    let a = m[0].1->Array_0;
    let entry = entry_schema(names, props);
    assert(a[1] == entry);
    let list = a[0]->Object_0;
    assert(list[0] == ("type"@, Tree::Text("array"@)) && list[1] == ("items"@, entry));
    lemma_looked_up(list, 0);
    lemma_looked_up(list, 1);
    let e = entry->Object_0;
    assert(e[0] == ("type"@, Tree::Text("object"@)));
    assert(e[1] == ("additionalProperties"@, Tree::Bool(false)));
    lemma_looked_up(e, 0);
    lemma_looked_up(e, 1);
}

/// A side of an operation without parameters is null, and one with parameters is
/// an object. An operation without any is null too, and else null or an object
/// of its sides.
pub proof fn law_operations_are_null_or_objects(s: SchemaView, node: usize, cf: Seq<char>)
    ensures
        ({
            let n = s.nodes[node as int];
            let schema = schema_for(s, node, cf);
            &&& (n.kw == "input"@ || n.kw == "output"@) ==> looked_up(schema, "type"@) == Some(
                Tree::Text(
                    if n.children.len() == 0 {
                        "null"@
                    } else {
                        "object"@
                    },
                ),
            )
            &&& (n.kw == "rpc"@ || n.kw == "action"@) && (child_with_kw(
                s.nodes,
                n.children,
                "input"@,
                0,
            ) matches Some(i) && child_with_kw(s.nodes, n.children, "output"@, 0) matches Some(o)
                && s.nodes[i as int].children.len() == 0 && s.nodes[o as int].children.len() == 0)
                ==> looked_up(schema, "type"@) == Some(Tree::Text("null"@))
            &&& (n.kw == "rpc"@ || n.kw == "action"@) && (child_with_kw(
                s.nodes,
                n.children,
                "input"@,
                0,
            ) matches Some(i) && child_with_kw(s.nodes, n.children, "output"@, 0) matches Some(o)
                && (s.nodes[i as int].children.len() > 0 || s.nodes[o as int].children.len() > 0))
                ==> (looked_up(schema, "oneOf"@) matches Some(Tree::Array(a)) && a.len() == 2
                && looked_up(a[0], "type"@) == Some(Tree::Text("null"@)) && looked_up(
                a[1],
                "type"@,
            ) == Some(Tree::Text("object"@)) && looked_up(a[1], "properties"@) == Some(
                Tree::Object(properties(s, node, cf, n.children.len() as int)),
            ))
        }),
{
    lemma_schema_words();
    lemma_operation_words();
    lemma_in_schema(s, node, cf, "type"@);
    lemma_in_schema(s, node, cf, "oneOf"@);
    let n = s.nodes[node as int];
    let m = shape(s, node, cf);
    if n.kw == "input"@ || n.kw == "output"@ {
        assert(m[0].0 == "type"@);
        lemma_looked_up(m, 0);
    } else if n.kw == "rpc"@ || n.kw == "action"@ {
        lemma_looked_up(m, 0);
        let i = child_with_kw(s.nodes, n.children, "input"@, 0)->0;
        let o = child_with_kw(s.nodes, n.children, "output"@, 0)->0;
        if s.nodes[i as int].children.len() > 0 || s.nodes[o as int].children.len() > 0 {
            let a = m[0].1->Array_0;
            let none = a[0]->Object_0;
            assert(none[0] == ("type"@, Tree::Text("null"@)));
            lemma_looked_up(none, 0);
            let props = properties(s, node, cf, n.children.len() as int);
            let e = object_members(props);
            assert(a[1] == Tree::Object(e));
            assert(e[0] == ("type"@, Tree::Text("object"@)));
            assert(e[1].0 == "additionalProperties"@);
            assert(e[2] == ("properties"@, Tree::Object(props)));
            lemma_looked_up(e, 0);
            lemma_looked_up(e, 2);
        }
    }
}

/// A module is titled by its name, and so is the tree of all.
pub proof fn law_modules_have_titles(s: SchemaView, node: usize, cf: Seq<char>)
    requires
        s.nodes[node as int].kw == "module"@,
    ensures
        looked_up(schema_for(s, node, cf), "title"@) == Some(
            Tree::Text(s.nodes[node as int].name),
        ),
        looked_up(schema_for(s, node, cf), "$schema"@) == Some(
            Tree::Text("http://json-schema.org/draft-07/schema#"@),
        ),
{
    lemma_operation_words();
    lemma_in_schema(s, node, cf, "title"@);
    lemma_in_schema(s, node, cf, "$schema"@);
    let m = shape(s, node, cf);
    assert(m[0] == ("title"@, Tree::Text(s.nodes[node as int].name)));
    assert(m[1].0 == "$schema"@);
    lemma_looked_up(m, 0);
    lemma_looked_up(m, 1);
}

} // verus!
