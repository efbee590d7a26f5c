//! What holds of JSON objects and of the text of values.
use vstd::prelude::*;

use crate::json::{
    elements_text, escaped, escaped_all, find_key, json_text, member, members_text, merged,
    quoted_json, with_member, Tree,
};

verus! {

/// The member that is found by its key is the first that has it; none is found
/// only where none has it.
pub proof fn law_members_by_key(m: Seq<(Seq<char>, Tree)>, key: Seq<char>, from: int)
    requires
        0 <= from <= m.len(),
    ensures
        match find_key(m, key, from) {
            Some(i) => from <= i < m.len() && m[i].0 == key && forall|j: int|
                from <= j < i ==> (#[trigger] m[j]).0 != key,
            None => forall|j: int| from <= j < m.len() ==> (#[trigger] m[j]).0 != key,
        },
    decreases m.len() - from,
{
    if from < m.len() && m[from].0 != key {
        law_members_by_key(m, key, from + 1);
    }
}

/// A member that is put in is found under its key; the others are found as
/// before, and no member changes its place.
pub proof fn law_members_are_put_in(
    m: Seq<(Seq<char>, Tree)>,
    key: Seq<char>,
    v: Tree,
    other: Seq<char>,
)
    ensures
        member(with_member(m, key, v), key) == Some(v),
        other != key ==> member(with_member(m, key, v), other) == member(m, other),
        member(m, key) is None ==> with_member(m, key, v) == m.push((key, v)),
        member(m, key) is Some ==> with_member(m, key, v).len() == m.len() && forall|i: int|
            0 <= i < m.len() ==> (#[trigger] with_member(m, key, v)[i]).0 == m[i].0,
{
    let n = with_member(m, key, v);
    law_members_by_key(m, key, 0);
    law_members_by_key(n, key, 0);
    law_members_by_key(m, other, 0);
    law_members_by_key(n, other, 0);
    match find_key(m, key, 0) {
        Some(i) => {
            assert(n[i] == (key, v));
            let k = find_key(n, key, 0)->0;
            assert(k == i) by {
                if k < i {
                    assert(n[k] == m[k]);
                }
            }
        },
        None => {
            let i = m.len() as int;
            assert(n[i] == (key, v));
            let k = find_key(n, key, 0)->0;
            assert(k == i) by {
                if k < i {
                    assert(n[k] == m[k]);
                }
            }
        },
    }
    if other != key {
        match (find_key(m, other, 0), find_key(n, other, 0)) {
            (Some(i), Some(j)) => {
                assert(n[i].0 == m[i].0);
                assert(n[j].0 == other);
                assert(j < m.len());
                assert(m[j].0 == n[j].0);
                assert(i == j);
            },
            (Some(i), None) => {
                assert(n[i].0 == m[i].0);
            },
            (None, Some(j)) => {
                assert(n[j].0 == other);
                if j < m.len() {
                    assert(m[j].0 == n[j].0);
                }
            },
            _ => {},
        }
    }
}

/// Of members with the same key, put together one after the other, the last one
/// counts.
pub proof fn law_later_members_count(m: Seq<(Seq<char>, Tree)>, n: int, i: int)
    requires
        0 <= i < n <= m.len(),
        forall|j: int| i < j < n ==> (#[trigger] m[j]).0 != m[i].0,
    ensures
        member(merged(m, n), m[i].0) == Some(m[i].1),
    decreases n,
{
    law_members_are_put_in(merged(m, n - 1), m[n - 1].0, m[n - 1].1, m[i].0);
    if i < n - 1 {
        assert(m[n - 1].0 != m[i].0);
        law_later_members_count(m, n - 1, i);
    }
}

/// The text of null, of truth values and of numbers by their text.
pub proof fn law_text_of_plain_values(v: Tree)
    ensures
        v is Null ==> json_text(v) == "null"@,
        v == Tree::Bool(true) ==> json_text(v) == "true"@,
        v == Tree::Bool(false) ==> json_text(v) == "false"@,
        v matches Tree::Float(t) ==> json_text(v) == t,
{
}

/// The text of a list is the texts of its values with commas between them, in
/// brackets; that of an object is the names in quotes, each with a colon and the
/// text of its value, with commas between them, in braces.
pub proof fn law_text_of_groups(
    a: Seq<Tree>,
    v: Tree,
    m: Seq<(Seq<char>, Tree)>,
    key: Seq<char>,
    w: Tree,
)
    ensures
        json_text(Tree::Array(a)) == "["@ + elements_text(a) + "]"@,
        elements_text(Seq::empty()) == ""@,
        elements_text(seq![v]) == json_text(v),
        a.len() > 0 ==> elements_text(a.push(v)) == elements_text(a) + ","@ + json_text(v),
        json_text(Tree::Object(m)) == "{"@ + members_text(m) + "}"@,
        members_text(Seq::empty()) == ""@,
        members_text(seq![(key, w)]) == quoted_json(key) + ":"@ + json_text(w),
        m.len() > 0 ==> members_text(m.push((key, w))) == members_text(m) + ","@ + (quoted_json(key)
            + ":"@ + json_text(w)),
{
    reveal_strlit("");
    assert(elements_text(Seq::empty()) =~= ""@);
    assert(members_text(Seq::empty()) =~= ""@);
    let b = a.push(v);
    assert(b.subrange(0, b.len() - 1) =~= a);
    let n = m.push((key, w));
    assert(n.subrange(0, n.len() - 1) =~= m);
}

/// A string is in quotes, and its characters follow each other.
pub proof fn law_text_of_strings(a: Seq<char>, c: char)
    ensures
        quoted_json(a) == "\""@ + escaped_all(a) + "\""@,
        escaped_all(Seq::empty()) == ""@,
        escaped_all(a.push(c)) == escaped_all(a) + escaped(c),
        c >= ' ' && c != '"' && c != '\\' ==> escaped(c) == seq![c],
        c == '"' || c == '\\' ==> escaped(c) == seq!['\\', c],
{
    reveal_strlit("");
    reveal_strlit("\"");
    assert("\""@ =~= seq!['"']);
    assert(escaped_all(Seq::empty()) =~= ""@);
    let b = a.push(c);
    assert(b.drop_last() =~= a);
}

} // verus!
