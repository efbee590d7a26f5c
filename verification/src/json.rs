//! JSON values: a tree of plain values, its text, and reading it from JSON or
//! YAML text.
use vstd::prelude::*;

use crate::text::{cat3, decimal, decimal_text, owned, same};

verus! {

/// A JSON value. The members of an object keep their order.
#[derive(Debug, PartialEq)]
pub enum Json {
    Null,
    Bool(bool),
    /// A whole number.
    Integer(i128),
    /// Any other number, as its text.
    Float(String),
    String(String),
    Array(Vec<Json>),
    Object(Vec<(String, Json)>),
}

/// What a [`Json`] stands for.
#[verifier::ext_equal]
pub enum Tree {
    Null,
    Bool(bool),
    Integer(int),
    Float(Seq<char>),
    Text(Seq<char>),
    Array(Seq<Tree>),
    Object(Seq<(Seq<char>, Tree)>),
}

/// The tree that a value stands for.
pub open spec fn json_tree(v: Json) -> Tree
    decreases v,
{
    match v {
        Json::Null => Tree::Null,
        Json::Bool(b) => Tree::Bool(b),
        Json::Integer(i) => Tree::Integer(i as int),
        Json::Float(t) => Tree::Float(t@),
        Json::String(t) => Tree::Text(t@),
        Json::Array(a) => Tree::Array(
            Seq::new(
                a@.len(),
                |i: int|
                    if 0 <= i < a@.len() {
                        json_tree(a@[i])
                    } else {
                        Tree::Null
                    },
            ),
        ),
        Json::Object(a) => Tree::Object(
            Seq::new(
                a@.len(),
                |i: int|
                    if 0 <= i < a@.len() {
                        (a@[i].0@, json_tree(a@[i].1))
                    } else {
                        (Seq::empty(), Tree::Null)
                    },
            ),
        ),
    }
}

impl View for Json {
    type V = Tree;

    open spec fn view(&self) -> Tree {
        json_tree(*self)
    }
}

/// The trees that some values stand for.
pub open spec fn trees(values: Seq<Json>) -> Seq<Tree> {
    values.map_values(|v: Json| v@)
}

/// The members that some entries stand for.
pub open spec fn members(entries: Seq<(String, Json)>) -> Seq<(Seq<char>, Tree)> {
    entries.map_values(|e: (String, Json)| (e.0@, e.1@))
}

/// The view of an array holds the views of its elements, that of an object
/// the views of its members.
pub broadcast proof fn lemma_json_view(v: Json)
    ensures
        #![trigger v@]
        v matches Json::Array(a) ==> v@ == Tree::Array(trees(a@)),
        v matches Json::Object(a) ==> v@ == Tree::Object(members(a@)),
{
    match v {
        Json::Array(a) => {
            assert(v@->Array_0 =~= trees(a@));
        },
        Json::Object(a) => {
            assert(v@->Object_0 =~= members(a@));
        },
        _ => {},
    }
}

/// The elements of an array are below it.
pub proof fn lemma_element_below(v: Json, i: int)
    requires
        v is Array,
        0 <= i < v->Array_0@.len(),
    ensures
        decreases_to!(v => v->Array_0@[i]),
{
}

/// The members of an object are below it.
pub proof fn lemma_member_below(v: Json, i: int)
    requires
        v is Object,
        0 <= i < v->Object_0@.len(),
    ensures
        decreases_to!(v => v->Object_0@[i].1),
{
    assert(decreases_to!(v->Object_0@ => v->Object_0@[i]));
}

/// The parts of a tree are below it.
pub proof fn lemma_tree_below(t: Tree, i: int)
    ensures
        t is Array && 0 <= i < t->Array_0.len() ==> decreases_to!(t => t->Array_0[i]),
        t is Object && 0 <= i < t->Object_0.len() ==> decreases_to!(t => t->Object_0[i].1),
{
    if t is Object && 0 <= i < t->Object_0.len() {
        assert(decreases_to!(t->Object_0 => t->Object_0[i]));
    }
}

/// A value of its own that stands for the same tree.
fn copy_of(v: &Json) -> (r: Json)
    ensures
        r@ == v@,
    decreases v,
{
    match v {
        Json::Null => Json::Null,
        Json::Bool(b) => Json::Bool(*b),
        Json::Integer(i) => Json::Integer(*i),
        Json::Float(t) => Json::Float(t.clone()),
        Json::String(t) => Json::String(t.clone()),
        Json::Array(a) => {
            let mut out: Vec<Json> = Vec::new();
            let mut i: usize = 0;
            while i < a.len()
                invariant
                    i <= a@.len(),
                    *v == Json::Array(*a),
                    out@.len() == i,
                    forall|k: int| 0 <= k < i ==> out@[k]@ == a@[k]@,
                decreases a@.len() - i,
            {
                proof {
                    lemma_element_below(*v, i as int);
                }
                out.push(copy_of(&a[i]));
                i += 1;
            }
            let r = Json::Array(out);
            assert(r@->Array_0 =~= v@->Array_0);
            r
        },
        Json::Object(a) => {
            let mut out: Vec<(String, Json)> = Vec::new();
            let mut i: usize = 0;
            while i < a.len()
                invariant
                    i <= a@.len(),
                    *v == Json::Object(*a),
                    out@.len() == i,
                    forall|k: int|
                        0 <= k < i ==> (#[trigger] out@[k]).0@ == a@[k].0@ && out@[k].1@ == a@[k].1@,
                decreases a@.len() - i,
            {
                proof {
                    lemma_member_below(*v, i as int);
                }
                let key = a[i].0.clone();
                let value = copy_of(&a[i].1);
                out.push((key, value));
                i += 1;
            }
            let r = Json::Object(out);
            assert(r@->Object_0 =~= v@->Object_0);
            r
        },
    }
}

impl Clone for Json {
    fn clone(&self) -> (r: Self)
        ensures
            r@ == self@,
    {
        copy_of(self)
    }
}

/// The place of the first member with this key, from `from` on.
pub open spec fn find_key(m: Seq<(Seq<char>, Tree)>, key: Seq<char>, from: int) -> Option<int>
    decreases m.len() - from,
{
    if from >= m.len() {
        None
    } else if m[from].0 == key {
        Some(from)
    } else {
        find_key(m, key, from + 1)
    }
}

/// The value of the member with this key.
pub open spec fn member(m: Seq<(Seq<char>, Tree)>, key: Seq<char>) -> Option<Tree> {
    match find_key(m, key, 0) {
        Some(i) => Some(m[i].1),
        None => None,
    }
}

/// The members with one more, which takes the place of one with its key.
pub open spec fn with_member(m: Seq<(Seq<char>, Tree)>, key: Seq<char>, value: Tree) -> Seq<
    (Seq<char>, Tree),
> {
    match find_key(m, key, 0) {
        Some(i) => m.update(i, (key, value)),
        None => m.push((key, value)),
    }
}

/// The place of the member with this key.
pub fn position(entries: &[(String, Json)], key: &str) -> (r: Option<usize>)
    ensures
        match r {
            Some(i) => i < entries@.len() && find_key(members(entries@), key@, 0) == Some(i as int)
                && entries@[i as int].0@ == key@,
            None => find_key(members(entries@), key@, 0) is None,
        },
{
    let mut i: usize = 0;
    while i < entries.len()
        invariant
            i <= entries@.len(),
            find_key(members(entries@), key@, 0) == find_key(members(entries@), key@, i as int),
        decreases entries@.len() - i,
    {
        if same(entries[i].0.as_str(), key) {
            return Some(i);
        }
        i += 1;
    }
    None
}

/// Sets a member: in the place of one with its key, else behind the others.
pub fn insert(entries: &mut Vec<(String, Json)>, key: String, value: Json)
    ensures
        members(final(entries)@) == with_member(members(old(entries)@), key@, value@),
{
    let ghost before = members(entries@);
    match position(entries.as_slice(), key.as_str()) {
        Some(i) => {
            entries[i] = (key, value);
            assert(members(entries@) =~= before.update(i as int, (key@, value@)));
        },
        None => {
            entries.push((key, value));
            assert(members(entries@) =~= before.push((key@, value@)));
        },
    }
}

impl Json {
    /// The text, if this is one.
    pub fn as_str(&self) -> (r: Option<&str>)
        ensures
            match r {
                Some(s) => self@ == Tree::Text(s@),
                None => !(self@ is Text),
            },
    {
        match self {
            Json::String(t) => Some(t.as_str()),
            _ => None,
        }
    }

    /// The truth value, if this is one.
    pub fn as_bool(&self) -> (r: Option<bool>)
        ensures
            match r {
                Some(b) => self@ == Tree::Bool(b),
                None => !(self@ is Bool),
            },
    {
        match self {
            Json::Bool(b) => Some(*b),
            _ => None,
        }
    }

    /// The members, if this is an object.
    pub fn as_object(&self) -> (r: Option<&Vec<(String, Json)>>)
        ensures
            match r {
                Some(m) => *self == Json::Object(*m) && self@ == Tree::Object(members(m@)),
                None => !(self@ is Object),
            },
    {
        proof {
            lemma_json_view(*self);
        }
        match self {
            Json::Object(m) => Some(m),
            _ => None,
        }
    }

    /// The elements, if this is an array.
    pub fn as_array(&self) -> (r: Option<&Vec<Json>>)
        ensures
            match r {
                Some(a) => *self == Json::Array(*a) && self@ == Tree::Array(trees(a@)),
                None => !(self@ is Array),
            },
    {
        proof {
            lemma_json_view(*self);
        }
        match self {
            Json::Array(a) => Some(a),
            _ => None,
        }
    }

    /// Whether this is null.
    pub fn is_null(&self) -> (r: bool)
        ensures
            r == (self@ is Null),
    {
        match self {
            Json::Null => true,
            _ => false,
        }
    }
}

/// A digit of a hexadecimal number.
pub open spec fn hex_digit(n: int) -> char {
    "0123456789abcdef"@[n]
}

/// A character as it stands in a JSON string: quotes, backslashes and control
/// characters are escaped.
pub open spec fn escaped(c: char) -> Seq<char> {
    if c == '"' || c == '\\' {
        seq!['\\', c]
    } else if c == '\u{8}' {
        seq!['\\', 'b']
    } else if c == '\t' {
        seq!['\\', 't']
    } else if c == '\n' {
        seq!['\\', 'n']
    } else if c == '\u{c}' {
        seq!['\\', 'f']
    } else if c == '\r' {
        seq!['\\', 'r']
    } else if (c as int) < 0x20 {
        seq!['\\', 'u', '0', '0', hex_digit(c as int / 16), hex_digit(c as int % 16)]
    } else {
        seq![c]
    }
}

/// The characters of a string as they stand in a JSON string.
pub open spec fn escaped_all(s: Seq<char>) -> Seq<char>
    decreases s.len(),
{
    if s.len() == 0 {
        Seq::empty()
    } else {
        escaped_all(s.drop_last()) + escaped(s.last())
    }
}

/// The compact JSON text of a string.
pub open spec fn quoted_json(s: Seq<char>) -> Seq<char> {
    seq!['"'] + escaped_all(s) + seq!['"']
}

/// `serde_json::Value`'s `to_string` on a string: its characters in double
/// quotes, the quote, the backslash and the control characters below U+0020
/// escaped, with the short escapes where there are any, and all others as they
/// are.
#[verifier::external_body]
fn string_to_json(s: &str) -> (r: String)
    ensures
        r@ == quoted_json(s@),
{
    serde_json::Value::String(s.to_string()).to_string()
}

/// The compact JSON text of a value.
pub open spec fn json_text(v: Tree) -> Seq<char>
    decreases v,
{
    match v {
        Tree::Null => "null"@,
        Tree::Bool(b) => if b {
            "true"@
        } else {
            "false"@
        },
        Tree::Integer(i) => decimal_text(i),
        Tree::Float(t) => t,
        Tree::Text(t) => quoted_json(t),
        Tree::Array(a) => "["@ + elements_text(a) + "]"@,
        Tree::Object(m) => "{"@ + members_text(m) + "}"@,
    }
}

/// The texts of some values, with commas between them.
pub open spec fn elements_text(a: Seq<Tree>) -> Seq<char>
    decreases a,
{
    if a.len() == 0 {
        Seq::empty()
    } else if a.len() == 1 {
        json_text(a[0])
    } else {
        elements_text(a.subrange(0, a.len() - 1)) + ","@ + json_text(a[a.len() - 1])
    }
}

/// The texts of some members, with commas between them.
pub open spec fn members_text(m: Seq<(Seq<char>, Tree)>) -> Seq<char>
    decreases m,
{
    if m.len() == 0 {
        Seq::empty()
    } else if m.len() == 1 {
        quoted_json(m[0].0) + ":"@ + json_text(m[0].1)
    } else {
        members_text(m.subrange(0, m.len() - 1)) + ","@ + (quoted_json(m[m.len() - 1].0) + ":"@
            + json_text(m[m.len() - 1].1))
    }
}

/// The compact JSON text of a value.
pub fn to_text(v: &Json) -> (r: String)
    ensures
        r@ == json_text(v@),
    decreases v,
{
    proof {
        lemma_json_view(*v);
    }
    match v {
        Json::Null => owned("null"),
        Json::Bool(b) => if *b {
            owned("true")
        } else {
            owned("false")
        },
        Json::Integer(i) => decimal(*i),
        Json::Float(t) => t.clone(),
        Json::String(t) => string_to_json(t.as_str()),
        Json::Array(a) => {
            let mut out = String::new();
            let ghost all = trees(a@);
            let mut i: usize = 0;
            assert(out@ =~= elements_text(all.subrange(0, 0)));
            while i < a.len()
                invariant
                    i <= a@.len(),
                    *v == Json::Array(*a),
                    all == trees(a@),
                    out@ == elements_text(all.subrange(0, i as int)),
                decreases a@.len() - i,
            {
                proof {
                    lemma_element_below(*v, i as int);
                }
                let one = to_text(&a[i]);
                let ghost next = all.subrange(0, i + 1);
                assert(next.subrange(0, i as int) =~= all.subrange(0, i as int));
                if i > 0 {
                    out.append(",");
                    out.append(one.as_str());
                } else {
                    out = one;
                }
                assert(out@ =~= elements_text(next));
                i += 1;
            }
            assert(all.subrange(0, a@.len() as int) =~= all);
            cat3("[", out.as_str(), "]")
        },
        Json::Object(m) => {
            let mut out = String::new();
            let ghost all = members(m@);
            let mut i: usize = 0;
            assert(out@ =~= members_text(all.subrange(0, 0)));
            while i < m.len()
                invariant
                    i <= m@.len(),
                    *v == Json::Object(*m),
                    all == members(m@),
                    out@ == members_text(all.subrange(0, i as int)),
                decreases m@.len() - i,
            {
                proof {
                    lemma_member_below(*v, i as int);
                }
                let key = string_to_json(m[i].0.as_str());
                let value = to_text(&m[i].1);
                let one = cat3(key.as_str(), ":", value.as_str());
                let ghost next = all.subrange(0, i + 1);
                assert(next.subrange(0, i as int) =~= all.subrange(0, i as int));
                if i > 0 {
                    out.append(",");
                    out.append(one.as_str());
                } else {
                    out = one;
                }
                assert(out@ =~= members_text(next));
                i += 1;
            }
            assert(all.subrange(0, m@.len() as int) =~= all);
            cat3("{", out.as_str(), "}")
        },
    }
}

/// A value as the parsers give it.
#[verifier::external_body]
pub struct Raw {
    inner: serde_json::Value,
}

/// What a parser's value holds.
pub uninterp spec fn held(v: Raw) -> Tree;

/// A parser's value taken apart by one level.
enum Opened {
    Null,
    Bool(bool),
    Integer(i128),
    Float(String),
    Text(String),
    Array(Vec<Raw>),
    Object(Vec<(String, Raw)>),
}

/// What the parts of a value hold together.
spec fn opened_tree(o: Opened) -> Tree {
    match o {
        Opened::Null => Tree::Null,
        Opened::Bool(b) => Tree::Bool(b),
        Opened::Integer(i) => Tree::Integer(i as int),
        Opened::Float(t) => Tree::Float(t@),
        Opened::Text(t) => Tree::Text(t@),
        Opened::Array(a) => Tree::Array(a@.map_values(|v: Raw| held(v))),
        Opened::Object(m) => Tree::Object(
            m@.map_values(|e: (String, Raw)| (e.0@, held(e.1))),
        ),
    }
}

/// The variants of `serde_json::Value`: what a value holds is what its parts
/// hold together. A number that is no whole number is given by its text.
#[verifier::external_body]
fn open(v: Raw) -> (r: Opened)
    ensures
        opened_tree(r) == held(v),
{
    match v.inner {
        serde_json::Value::Null => Opened::Null,
        serde_json::Value::Bool(b) => Opened::Bool(b),
        serde_json::Value::Number(n) => match n.as_i128() {
            Some(i) => Opened::Integer(i),
            None => Opened::Float(n.to_string()),
        },
        serde_json::Value::String(s) => Opened::Text(s),
        serde_json::Value::Array(a) => Opened::Array(a.into_iter().map(|inner| Raw { inner }).collect()),
        serde_json::Value::Object(m) => Opened::Object(
            m.into_iter().map(|(key, inner)| (key, Raw { inner })).collect(),
        ),
    }
}

/// The value that a JSON text stands for, or why it stands for none.
pub uninterp spec fn parsed_json(text: Seq<char>) -> Result<Tree, Seq<char>>;

/// `serde_json::from_str`: the value, or the message of the error, which
/// depends on the text alone.
#[verifier::external_body]
fn json_from_str(text: &str) -> (r: Result<Raw, String>)
    ensures
        match r {
            Ok(v) => parsed_json(text@) == Ok::<Tree, Seq<char>>(held(v)),
            Err(e) => parsed_json(text@) == Err::<Tree, Seq<char>>(e@),
        },
{
    serde_json::from_str(text).map(|inner| Raw { inner }).map_err(|e| e.to_string())
}

/// The value that a YAML text stands for, or why it stands for none.
pub uninterp spec fn parsed_yaml(text: Seq<char>) -> Result<Tree, Seq<char>>;

/// `serde_yaml_ng::from_str`: the value, or the message of the error, which
/// depends on the text alone.
#[verifier::external_body]
fn yaml_from_str(text: &str) -> (r: Result<Raw, String>)
    ensures
        match r {
            Ok(v) => parsed_yaml(text@) == Ok::<Tree, Seq<char>>(held(v)),
            Err(e) => parsed_yaml(text@) == Err::<Tree, Seq<char>>(e@),
        },
{
    serde_yaml_ng::from_str(text).map(|inner| Raw { inner }).map_err(|e| e.to_string())
}

/// The first `n` of some members put into an object one after the other: a
/// name that is there already keeps its place and gets the later value.
pub open spec fn merged(m: Seq<(Seq<char>, Tree)>, n: int) -> Seq<(Seq<char>, Tree)>
    decreases n,
{
    if n <= 0 {
        Seq::empty()
    } else {
        with_member(merged(m, n - 1), m[n - 1].0, m[n - 1].1)
    }
}

/// A whole number as a value can hold it: null if it is beyond 64 bits.
pub open spec fn number_value(i: int) -> Tree {
    if i64::MIN <= i <= u64::MAX {
        Tree::Integer(i)
    } else {
        Tree::Null
    }
}

/// A number by its text as a value can hold it: what the text is read as, null
/// if it is no JSON.
pub open spec fn float_value(t: Seq<char>) -> Tree {
    match parsed_json(t) {
        Ok(v) => v,
        Err(_) => Tree::Null,
    }
}

/// What a value holds that is put together from parts.
spec fn shut_tree(o: Opened) -> Tree {
    match o {
        Opened::Integer(i) => number_value(i as int),
        Opened::Float(t) => float_value(t@),
        Opened::Object(m) => Tree::Object(
            merged(m@.map_values(|e: (String, Raw)| (e.0@, held(e.1))), m@.len() as int),
        ),
        _ => opened_tree(o),
    }
}

/// The variants of `serde_json::Value`: a value that is made of its parts
/// holds what they hold together. A whole number beyond 64 bits
/// (`serde_json::Number::from_i128`) becomes null; the text of another number
/// is read by `serde_json::from_str`, null where that fails; of members with
/// the same name the first keeps its place and gets the value of the last
/// (`serde_json::Map::from_iter`, which inserts one after the other).
#[verifier::external_body]
fn shut(o: Opened) -> (r: Raw)
    ensures
        held(r) == shut_tree(o),
{
    let inner = match o {
        Opened::Null => serde_json::Value::Null,
        Opened::Bool(b) => serde_json::Value::Bool(b),
        Opened::Integer(i) => serde_json::Number::from_i128(i).into(),
        Opened::Float(t) => serde_json::from_str(&t).unwrap_or_default(),
        Opened::Text(t) => serde_json::Value::String(t),
        Opened::Array(a) => a.into_iter().map(|v| v.inner).collect(),
        Opened::Object(m) => m.into_iter().map(|(key, v)| (key, v.inner)).collect(),
    };
    Raw { inner }
}

/// The indented JSON text of a value, or why there is none.
pub uninterp spec fn rendered_json(v: Tree) -> Result<Seq<char>, Seq<char>>;

/// `serde_json::to_string_pretty`: the text, or the message of the error,
/// which depends on what the value holds alone.
#[verifier::external_body]
fn json_to_string(v: &Raw) -> (r: Result<String, String>)
    ensures
        match r {
            Ok(s) => rendered_json(held(*v)) == Ok::<Seq<char>, Seq<char>>(s@),
            Err(e) => rendered_json(held(*v)) == Err::<Seq<char>, Seq<char>>(e@),
        },
{
    serde_json::to_string_pretty(&v.inner).map_err(|e| e.to_string())
}

/// The YAML text of a value, or why there is none.
pub uninterp spec fn rendered_yaml(v: Tree) -> Result<Seq<char>, Seq<char>>;

/// `serde_yaml_ng::to_string`: the text, or the message of the error, which
/// depends on what the value holds alone.
#[verifier::external_body]
fn yaml_to_string(v: &Raw) -> (r: Result<String, String>)
    ensures
        match r {
            Ok(s) => rendered_yaml(held(*v)) == Ok::<Seq<char>, Seq<char>>(s@),
            Err(e) => rendered_yaml(held(*v)) == Err::<Seq<char>, Seq<char>>(e@),
        },
{
    serde_yaml_ng::to_string(&v.inner).map_err(|e| e.to_string())
}

/// Whether no two members of an object have the same name.
pub open spec fn distinct_names(m: Seq<(Seq<char>, Tree)>) -> bool {
    forall|i: int, j: int| 0 <= i < j < m.len() ==> (#[trigger] m[i]).0 != (#[trigger] m[j]).0
}

/// Whether a value holds no fractions, only whole numbers within 64 bits, and
/// no object with a name twice.
pub open spec fn is_plain(v: Tree) -> bool
    decreases v,
{
    match v {
        Tree::Integer(i) => i64::MIN <= i <= u64::MAX,
        Tree::Float(_) => false,
        Tree::Array(a) => a.len() >= 0 && forall|i: int|
            0 <= i < a.len() ==> is_plain(#[trigger] a[i]),
        Tree::Object(m) => distinct_names(m) && forall|i: int|
            0 <= i < m.len() ==> is_plain((#[trigger] m[i]).1),
        _ => true,
    }
}

/// A value as the writers take it: numbers as a value can hold them, and each
/// name once.
pub open spec fn as_value(v: Tree) -> Tree
    decreases v,
{
    match v {
        Tree::Integer(i) => number_value(i),
        Tree::Float(t) => float_value(t),
        Tree::Array(a) => Tree::Array(as_values(a)),
        Tree::Object(m) => Tree::Object(as_members(m)),
        _ => v,
    }
}

/// Some values as the writers take them.
pub open spec fn as_values(a: Seq<Tree>) -> Seq<Tree>
    decreases a,
{
    if a.len() == 0 {
        Seq::empty()
    } else {
        as_values(a.subrange(0, a.len() - 1)).push(as_value(a[a.len() - 1]))
    }
}

/// Some members as the writers take them.
pub open spec fn as_members(m: Seq<(Seq<char>, Tree)>) -> Seq<(Seq<char>, Tree)>
    decreases m,
{
    if m.len() == 0 {
        Seq::empty()
    } else {
        with_member(
            as_members(m.subrange(0, m.len() - 1)),
            m[m.len() - 1].0,
            as_value(m[m.len() - 1].1),
        )
    }
}

/// A name that is not there is not found.
proof fn lemma_no_key(m: Seq<(Seq<char>, Tree)>, key: Seq<char>, from: int)
    requires
        0 <= from,
        forall|i: int| from <= i < m.len() ==> (#[trigger] m[i]).0 != key,
    ensures
        find_key(m, key, from) is None,
    decreases m.len() - from,
{
    if from < m.len() {
        lemma_no_key(m, key, from + 1);
    }
}

/// Members are put into an object as the writers take them.
proof fn lemma_merged(
    m: Seq<(Seq<char>, Tree)>,
    made: Seq<(Seq<char>, Tree)>,
    n: int,
)
    requires
        0 <= n <= m.len(),
        made.len() == m.len(),
        forall|i: int|
            0 <= i < m.len() ==> #[trigger] made[i] == (m[i].0, as_value(m[i].1)),
    ensures
        merged(made, n) == as_members(m.subrange(0, n)),
    decreases n,
{
    let part = m.subrange(0, n);
    if n > 0 {
        lemma_merged(m, made, n - 1);
        assert(part.subrange(0, n - 1) =~= m.subrange(0, n - 1));
        assert(made[n - 1] == (m[n - 1].0, as_value(m[n - 1].1)));
    } else {
        assert(as_members(part) =~= Seq::empty());
    }
}

/// Plain values are taken as they are.
proof fn lemma_plain_values(a: Seq<Tree>)
    requires
        forall|i: int| 0 <= i < a.len() ==> is_plain(#[trigger] a[i]),
    ensures
        as_values(a) == a,
    decreases a,
{
    if a.len() > 0 {
        let most = a.subrange(0, a.len() - 1);
        assert forall|i: int| 0 <= i < most.len() implies is_plain(#[trigger] most[i]) by {
            assert(most[i] == a[i]);
        }
        lemma_plain_values(most);
        assert(is_plain(a[a.len() - 1]));
        law_plain_value_is_taken_as_it_is(a[a.len() - 1]);
        assert(as_values(a) =~= a);
    } else {
        assert(as_values(a) =~= a);
    }
}

/// Plain members with different names are taken as they are.
proof fn lemma_plain_members(m: Seq<(Seq<char>, Tree)>)
    requires
        distinct_names(m),
        forall|i: int| 0 <= i < m.len() ==> is_plain((#[trigger] m[i]).1),
    ensures
        as_members(m) == m,
    decreases m,
{
    if m.len() > 0 {
        let last = m[m.len() - 1];
        let most = m.subrange(0, m.len() - 1);
        assert forall|i: int| 0 <= i < most.len() implies is_plain((#[trigger] most[i]).1)
            && most[i].0 != last.0 by {
            assert(most[i] == m[i]);
        }
        assert(distinct_names(most)) by {
            assert forall|i: int, j: int| 0 <= i < j < most.len() implies (#[trigger] most[i]).0
                != (#[trigger] most[j]).0 by {
                assert(most[i] == m[i] && most[j] == m[j]);
            }
        }
        lemma_plain_members(most);
        law_plain_value_is_taken_as_it_is(last.1);
        lemma_no_key(most, last.0, 0);
        assert(as_members(m) =~= m);
    } else {
        assert(as_members(m) =~= m);
    }
}

/// A value without fractions, with whole numbers within 64 bits only and
/// without a name twice in an object is taken as it is.
pub proof fn law_plain_value_is_taken_as_it_is(v: Tree)
    requires
        is_plain(v),
    ensures
        as_value(v) == v,
    decreases v,
{
    match v {
        Tree::Array(a) => {
            lemma_plain_values(a);
        },
        Tree::Object(m) => {
            lemma_plain_members(m);
        },
        _ => {},
    }
}

/// A value as the writers take it.
fn raw_of(v: &Json) -> (r: Raw)
    ensures
        held(r) == as_value(v@),
    decreases v,
{
    proof {
        lemma_json_view(*v);
    }
    match v {
        Json::Null => shut(Opened::Null),
        Json::Bool(b) => shut(Opened::Bool(*b)),
        Json::Integer(i) => shut(Opened::Integer(*i)),
        Json::Float(t) => shut(Opened::Float(t.clone())),
        Json::String(t) => shut(Opened::Text(t.clone())),
        Json::Array(a) => {
            let ghost all = trees(a@);
            let mut out: Vec<Raw> = Vec::new();
            let mut i: usize = 0;
            assert(out@.map_values(|e: Raw| held(e)) =~= as_values(all.subrange(0, 0)));
            while i < a.len()
                invariant
                    i <= a@.len(),
                    *v == Json::Array(*a),
                    all == trees(a@),
                    out@.len() == i,
                    out@.map_values(|e: Raw| held(e)) == as_values(all.subrange(0, i as int)),
                decreases a@.len() - i,
            {
                proof {
                    lemma_element_below(*v, i as int);
                    assert(all[i as int] == a@[i as int]@);
                }
                let one = raw_of(&a[i]);
                let ghost had = out@.map_values(|e: Raw| held(e));
                out.push(one);
                proof {
                    let next = all.subrange(0, i + 1);
                    assert(next.subrange(0, i as int) =~= all.subrange(0, i as int));
                    assert(out@.map_values(|e: Raw| held(e)) =~= had.push(held(one)));
                }
                i += 1;
            }
            let o = Opened::Array(out);
            assert(v@ == Tree::Array(all));
            assert(all.subrange(0, all.len() as int) =~= all);
            assert(out@.map_values(|v: Raw| held(v)) =~= as_values(all));
            shut(o)
        },
        Json::Object(m) => {
            let ghost all = members(m@);
            let mut out: Vec<(String, Raw)> = Vec::new();
            let mut i: usize = 0;
            while i < m.len()
                invariant
                    i <= m@.len(),
                    *v == Json::Object(*m),
                    all == members(m@),
                    out@.len() == i,
                    forall|k: int|
                        0 <= k < i ==> (#[trigger] out@[k]).0@ == all[k].0 && held(out@[k].1)
                            == as_value(all[k].1),
                decreases m@.len() - i,
            {
                proof {
                    lemma_member_below(*v, i as int);
                    assert(all[i as int] == (m@[i as int].0@, m@[i as int].1@));
                }
                let key = m[i].0.clone();
                let one = raw_of(&m[i].1);
                out.push((key, one));
                i += 1;
            }
            let o = Opened::Object(out);
            proof {
                assert(v@ == Tree::Object(all));
                let made = out@.map_values(|e: (String, Raw)| (e.0@, held(e.1)));
                lemma_merged(all, made, all.len() as int);
                assert(all.subrange(0, all.len() as int) =~= all);
            }
            shut(o)
        },
    }
}

/// Writes indented JSON text.
pub fn write_json(v: &Json) -> (r: Result<String, String>)
    ensures
        match r {
            Ok(s) => rendered_json(as_value(v@)) == Ok::<Seq<char>, Seq<char>>(s@),
            Err(e) => rendered_json(as_value(v@)) == Err::<Seq<char>, Seq<char>>(e@),
        },
{
    json_to_string(&raw_of(v))
}

/// Writes YAML text.
pub fn write_yaml(v: &Json) -> (r: Result<String, String>)
    ensures
        match r {
            Ok(s) => rendered_yaml(as_value(v@)) == Ok::<Seq<char>, Seq<char>>(s@),
            Err(e) => rendered_yaml(as_value(v@)) == Err::<Seq<char>, Seq<char>>(e@),
        },
{
    yaml_to_string(&raw_of(v))
}

/// Reads JSON or YAML text and writes it in one of the two again, without
/// loss. The inner results are those of writing.
pub fn rewrite(text: &str, from_yaml: bool, to_yaml: bool) -> (r: Result<
    Result<String, String>,
    String,
>)
    ensures
        ({
            let read = if from_yaml {
                parsed_yaml(text@)
            } else {
                parsed_json(text@)
            };
            match r {
                Err(e) => read == Err::<Tree, Seq<char>>(e@),
                Ok(made) => read matches Ok(v) && ({
                    let text = if to_yaml {
                        rendered_yaml(v)
                    } else {
                        rendered_json(v)
                    };
                    match made {
                        Ok(s) => text == Ok::<Seq<char>, Seq<char>>(s@),
                        Err(e) => text == Err::<Seq<char>, Seq<char>>(e@),
                    }
                }),
            }
        }),
{
    let read = if from_yaml {
        yaml_from_str(text)
    } else {
        json_from_str(text)
    };
    match read {
        Err(e) => Err(e),
        Ok(v) => if to_yaml {
            Ok(yaml_to_string(&v))
        } else {
            Ok(json_to_string(&v))
        },
    }
}

/// The library's own value for a parser's value.
fn json_of(v: Raw) -> (r: Json)
    ensures
        r@ == held(v),
    decreases held(v),
{
    let ghost tree = held(v);
    let opened = open(v);
    match opened {
        Opened::Null => Json::Null,
        Opened::Bool(b) => Json::Bool(b),
        Opened::Integer(i) => Json::Integer(i),
        Opened::Float(t) => Json::Float(t),
        Opened::Text(t) => Json::String(t),
        Opened::Array(mut a) => {
            // Taken from the end.
            let ghost all = tree->Array_0;
            let mut back: Vec<Json> = Vec::new();
            while a.len() > 0
                invariant
                    tree == Tree::Array(all),
                    tree == held(v),
                    a@.len() + back@.len() == all.len(),
                    forall|k: int| 0 <= k < a@.len() ==> held(#[trigger] a@[k]) == all[k],
                    forall|k: int|
                        0 <= k < back@.len() ==> (#[trigger] back@[k])@ == all[all.len() - 1 - k],
                decreases a@.len(),
            {
                let ghost at = a@.len() - 1;
                match a.pop() {
                    Some(e) => {
                        proof {
                            lemma_tree_below(tree, at);
                        }
                        back.push(json_of(e));
                    },
                    None => {},
                }
            }
            let mut out: Vec<Json> = Vec::new();
            while back.len() > 0
                invariant
                    out@.len() + back@.len() == all.len(),
                    forall|k: int|
                        0 <= k < back@.len() ==> (#[trigger] back@[k])@ == all[all.len() - 1 - k],
                    forall|k: int| 0 <= k < out@.len() ==> (#[trigger] out@[k])@ == all[k],
                decreases back@.len(),
            {
                match back.pop() {
                    Some(e) => {
                        out.push(e);
                    },
                    None => {},
                }
            }
            let r = Json::Array(out);
            assert(r@->Array_0 =~= all);
            r
        },
        Opened::Object(mut m) => {
            let ghost all = tree->Object_0;
            let mut back: Vec<(String, Json)> = Vec::new();
            while m.len() > 0
                invariant
                    tree == Tree::Object(all),
                    tree == held(v),
                    m@.len() + back@.len() == all.len(),
                    forall|k: int|
                        0 <= k < m@.len() ==> (#[trigger] m@[k]).0@ == all[k].0 && held(m@[k].1)
                            == all[k].1,
                    forall|k: int|
                        0 <= k < back@.len() ==> (#[trigger] back@[k]).0@ == all[all.len() - 1
                            - k].0 && back@[k].1@ == all[all.len() - 1 - k].1,
                decreases m@.len(),
            {
                let ghost at = m@.len() - 1;
                match m.pop() {
                    Some(e) => {
                        proof {
                            lemma_tree_below(tree, at);
                        }
                        let key = e.0;
                        back.push((key, json_of(e.1)));
                    },
                    None => {},
                }
            }
            let mut out: Vec<(String, Json)> = Vec::new();
            while back.len() > 0
                invariant
                    out@.len() + back@.len() == all.len(),
                    forall|k: int|
                        0 <= k < back@.len() ==> (#[trigger] back@[k]).0@ == all[all.len() - 1
                            - k].0 && back@[k].1@ == all[all.len() - 1 - k].1,
                    forall|k: int|
                        0 <= k < out@.len() ==> (#[trigger] out@[k]).0@ == all[k].0 && out@[k].1@
                            == all[k].1,
                decreases back@.len(),
            {
                match back.pop() {
                    Some(e) => {
                        out.push(e);
                    },
                    None => {},
                }
            }
            let r = Json::Object(out);
            assert(r@->Object_0 =~= all);
            r
        },
    }
}

/// Reads JSON text.
pub fn parse_json(text: &str) -> (r: Result<Json, String>)
    ensures
        match r {
            Ok(v) => parsed_json(text@) == Ok::<Tree, Seq<char>>(v@),
            Err(e) => parsed_json(text@) == Err::<Tree, Seq<char>>(e@),
        },
{
    match json_from_str(text) {
        Ok(v) => Ok(json_of(v)),
        Err(e) => Err(e),
    }
}

/// Reads YAML text.
pub fn parse_yaml(text: &str) -> (r: Result<Json, String>)
    ensures
        match r {
            Ok(v) => parsed_yaml(text@) == Ok::<Tree, Seq<char>>(v@),
            Err(e) => parsed_yaml(text@) == Err::<Tree, Seq<char>>(e@),
        },
{
    match yaml_from_str(text) {
        Ok(v) => Ok(json_of(v)),
        Err(e) => Err(e),
    }
}

} // verus!
