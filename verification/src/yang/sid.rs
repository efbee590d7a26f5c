//! SID files: which number stands for which part of a module.
use vstd::prelude::*;

use crate::json::{
    lemma_json_view, member, parse_json, parsed_json, position, trees, Json, Tree,
};
use crate::text::{cat, cat3, owned, quoted, quoted_text, same};

verus! {

broadcast use lemma_json_view;

/// What a SID stands for.
#[derive(Debug, Clone, Copy, PartialEq, Eq, Structural)]
pub enum Namespace {
    Module,
    Data,
    Identity,
    /// Of no use to the encoding of data.
    Feature,
}

/// One SID.
#[derive(Debug, Clone)]
pub struct SidItem {
    pub namespace: Namespace,
    /// A name for a module or identity, a path such as `/board:capabilities`
    /// for data.
    pub identifier: String,
    pub sid: i64,
}

/// The SIDs of a module.
#[derive(Debug)]
pub struct SidFile {
    pub module_name: String,
    pub items: Vec<SidItem>,
}

/// What a [`SidItem`] stands for.
#[verifier::ext_equal]
pub struct SidItemView {
    pub namespace: Namespace,
    pub identifier: Seq<char>,
    pub sid: i64,
}

/// What a [`SidFile`] stands for.
#[verifier::ext_equal]
pub struct SidFileView {
    pub module_name: Seq<char>,
    pub items: Seq<SidItemView>,
}

impl View for SidItem {
    type V = SidItemView;

    open spec fn view(&self) -> SidItemView {
        SidItemView { namespace: self.namespace, identifier: self.identifier@, sid: self.sid }
    }
}

/// The views of some items.
pub open spec fn item_views(items: Seq<SidItem>) -> Seq<SidItemView> {
    items.map_values(|i: SidItem| i@)
}

impl View for SidFile {
    type V = SidFileView;

    open spec fn view(&self) -> SidFileView {
        SidFileView { module_name: self.module_name@, items: item_views(self.items@) }
    }
}

/// The message on a member that is missing.
pub open spec fn missing_message(key: Seq<char>) -> Seq<char> {
    "missing field `"@ + key + "`"@
}

/// The message on a member of the wrong kind.
pub open spec fn kind_message(key: Seq<char>) -> Seq<char> {
    "invalid value for field `"@ + key + "`"@
}

/// A field of a record: the member with its name, or the value at its place
/// where the record is written as an array.
pub open spec fn field_of(v: Tree, key: Seq<char>, place: int) -> Option<Tree> {
    match v {
        Tree::Object(m) => member(m, key),
        Tree::Array(a) => if 0 <= place < a.len() {
            Some(a[place])
        } else {
            None
        },
        _ => None,
    }
}

/// Whether a value can be a record of `n` fields: an object, or an array of
/// as many values.
pub open spec fn is_record(v: Tree, n: int) -> bool {
    match v {
        Tree::Object(_) => true,
        Tree::Array(a) => a.len() == n,
        _ => false,
    }
}

/// The text of a field.
pub open spec fn text_field(v: Tree, key: Seq<char>, place: int) -> Result<Seq<char>, Seq<char>> {
    match field_of(v, key, place) {
        None => Err(missing_message(key)),
        Some(Tree::Text(t)) => Ok(t),
        Some(_) => Err(kind_message(key)),
    }
}

/// The namespace with a name.
pub open spec fn namespace_named(name: Seq<char>) -> Option<Namespace> {
    if name == "module"@ {
        Some(Namespace::Module)
    } else if name == "data"@ {
        Some(Namespace::Data)
    } else if name == "identity"@ {
        Some(Namespace::Identity)
    } else if name == "feature"@ {
        Some(Namespace::Feature)
    } else {
        None
    }
}

/// An item as a file holds it: the name of its namespace, its identifier and
/// its number.
pub type RawItem = (Seq<char>, Seq<char>, i64);

/// The item that a value is.
pub open spec fn raw_item(v: Tree) -> Result<RawItem, Seq<char>> {
    if !is_record(v, 3) {
        Err(kind_message("items"@))
    } else {
        match text_field(v, "namespace"@, 0) {
            Err(e) => Err(e),
            Ok(namespace) => match text_field(v, "identifier"@, 1) {
                Err(e) => Err(e),
                Ok(identifier) => match field_of(v, "sid"@, 2) {
                    None => Err(missing_message("sid"@)),
                    Some(Tree::Integer(n)) => if i64::MIN <= n <= i64::MAX {
                        Ok((namespace, identifier, n as i64))
                    } else {
                        Err(kind_message("sid"@))
                    },
                    Some(_) => Err(kind_message("sid"@)),
                },
            },
        }
    }
}

/// The first `n` items that values are.
pub open spec fn raw_items(a: Seq<Tree>, n: int) -> Result<Seq<RawItem>, Seq<char>>
    decreases n,
{
    if n <= 0 {
        Ok(Seq::empty())
    } else {
        match raw_items(a, n - 1) {
            Err(e) => Err(e),
            Ok(items) => match raw_item(a[n - 1]) {
                Err(e) => Err(e),
                Ok(item) => Ok(items.push(item)),
            },
        }
    }
}

/// The first `n` items with their namespaces known.
pub open spec fn known_items(raw: Seq<RawItem>, n: int) -> Result<Seq<SidItemView>, Seq<char>>
    decreases n,
{
    if n <= 0 {
        Ok(Seq::empty())
    } else {
        match known_items(raw, n - 1) {
            Err(e) => Err(e),
            Ok(items) => match namespace_named(raw[n - 1].0) {
                None => Err("unknown SID namespace "@ + quoted_text(raw[n - 1].0)),
                Some(namespace) => Ok(
                    items.push(
                        SidItemView { namespace, identifier: raw[n - 1].1, sid: raw[n - 1].2 },
                    ),
                ),
            },
        }
    }
}

/// The SID file that a value is. Members that are not needed are passed over.
pub open spec fn sid_file(v: Tree) -> Result<SidFileView, Seq<char>> {
    if !is_record(v, 2) {
        Err("a SID file must be an object"@)
    } else {
        match text_field(v, "module-name"@, 0) {
            Err(e) => Err(e),
            Ok(module_name) => match field_of(v, "items"@, 1) {
                None => Err(missing_message("items"@)),
                Some(Tree::Array(a)) => match raw_items(a, a.len() as int) {
                    Err(e) => Err(e),
                    Ok(raw) => match known_items(raw, raw.len() as int) {
                        Err(e) => Err(e),
                        Ok(items) => Ok(SidFileView { module_name, items }),
                    },
                },
                Some(_) => Err(kind_message("items"@)),
            },
        }
    }
}

/// The SID file that a text is.
pub open spec fn sid_file_in(src: Seq<char>) -> Result<SidFileView, Seq<char>> {
    match parsed_json(src) {
        Err(e) => Err(e),
        Ok(v) => sid_file(v),
    }
}

/// A field of a record.
fn read_field<'a>(v: &'a Json, key: &str, place: usize) -> (r: Option<&'a Json>)
    ensures
        match r {
            Some(t) => field_of(v@, key@, place as int) == Some(t@),
            None => field_of(v@, key@, place as int) is None,
        },
{
    match v {
        Json::Object(m) => match position(m.as_slice(), key) {
            Some(i) => Some(&m[i].1),
            None => None,
        },
        Json::Array(a) => if place < a.len() {
            assert(trees(a@)[place as int] == a@[place as int]@);
            Some(&a[place])
        } else {
            None
        },
        _ => None,
    }
}

/// Whether a value can be a record of `n` fields.
fn holds_fields(v: &Json, n: usize) -> (r: bool)
    ensures
        r == is_record(v@, n as int),
{
    match v {
        Json::Object(_) => true,
        Json::Array(a) => a.len() == n,
        _ => false,
    }
}

/// The text of a field.
fn read_text(v: &Json, key: &str, place: usize) -> (r: Result<String, String>)
    ensures
        match r {
            Ok(t) => text_field(v@, key@, place as int) == Ok::<Seq<char>, Seq<char>>(t@),
            Err(e) => text_field(v@, key@, place as int) == Err::<Seq<char>, Seq<char>>(e@),
        },
{
    match read_field(v, key, place) {
        None => Err(cat3("missing field `", key, "`")),
        Some(Json::String(t)) => Ok(t.clone()),
        Some(_) => Err(cat3("invalid value for field `", key, "`")),
    }
}

/// An item as a file holds it.
struct Raw {
    namespace: String,
    identifier: String,
    sid: i64,
}

spec fn raw_view(r: Raw) -> RawItem {
    (r.namespace@, r.identifier@, r.sid)
}

/// The item that a value is.
fn read_item(v: &Json) -> (r: Result<Raw, String>)
    ensures
        match r {
            Ok(item) => raw_item(v@) == Ok::<RawItem, Seq<char>>(raw_view(item)),
            Err(e) => raw_item(v@) == Err::<RawItem, Seq<char>>(e@),
        },
{
    if !holds_fields(v, 3) {
        return Err(cat3("invalid value for field `", "items", "`"));
    }
    let namespace = read_text(v, "namespace", 0)?;
    let identifier = read_text(v, "identifier", 1)?;
    match read_field(v, "sid", 2) {
        None => Err(cat3("missing field `", "sid", "`")),
        Some(Json::Integer(n)) => if i64::MIN as i128 <= *n && *n <= i64::MAX as i128 {
            Ok(Raw { namespace, identifier, sid: *n as i64 })
        } else {
            Err(cat3("invalid value for field `", "sid", "`"))
        },
        Some(_) => Err(cat3("invalid value for field `", "sid", "`")),
    }
}

/// The SID file that a value is.
pub fn from_json(v: &Json) -> (r: Result<SidFile, String>)
    ensures
        match r {
            Ok(f) => sid_file(v@) == Ok::<SidFileView, Seq<char>>(f@),
            Err(e) => sid_file(v@) == Err::<SidFileView, Seq<char>>(e@),
        },
{
    if !holds_fields(v, 2) {
        return Err(owned("a SID file must be an object"));
    }
    let module_name = read_text(v, "module-name", 0)?;
    let list = match read_field(v, "items", 1) {
        None => {
            return Err(cat3("missing field `", "items", "`"));
        },
        Some(Json::Array(a)) => a,
        Some(_) => {
            return Err(cat3("invalid value for field `", "items", "`"));
        },
    };
    let ghost a = trees(list@);
    let mut raw: Vec<Raw> = Vec::new();
    let ghost mut seen: Seq<RawItem> = Seq::empty();
    let mut i: usize = 0;
    while i < list.len()
        invariant
            is_record(v@, 2),
            text_field(v@, "module-name"@, 0) == Ok::<Seq<char>, Seq<char>>(module_name@),
            field_of(v@, "items"@, 1) == Some(Tree::Array(a)),
            i <= list@.len(),
            a == trees(list@),
            raw_items(a, i as int) == Ok::<Seq<RawItem>, Seq<char>>(seen),
            raw@.len() == seen.len() == i,
            forall|k: int| 0 <= k < i ==> raw_view(#[trigger] raw@[k]) == seen[k],
        decreases list@.len() - i,
    {
        assert(a[i as int] == list@[i as int]@);
        match read_item(&list[i]) {
            Ok(item) => {
                raw.push(item);
                proof {
                    seen = seen.push(raw_view(item));
                }
            },
            Err(e) => {
                proof {
                    lemma_raw_fails(a, i + 1, a.len() as int);
                }
                return Err(e);
            },
        }
        i += 1;
    }
    let mut items: Vec<SidItem> = Vec::new();
    let mut k: usize = 0;
    assert(item_views(items@) =~= Seq::empty());
    while k < raw.len()
        invariant
            is_record(v@, 2),
            text_field(v@, "module-name"@, 0) == Ok::<Seq<char>, Seq<char>>(module_name@),
            field_of(v@, "items"@, 1) == Some(Tree::Array(a)),
            raw_items(a, a.len() as int) == Ok::<Seq<RawItem>, Seq<char>>(seen),
            k <= raw@.len(),
            raw@.len() == seen.len(),
            forall|j: int| 0 <= j < raw@.len() ==> raw_view(#[trigger] raw@[j]) == seen[j],
            known_items(seen, k as int) == Ok::<Seq<SidItemView>, Seq<char>>(item_views(items@)),
        decreases raw@.len() - k,
    {
        let it = &raw[k];
        assert(raw_view(raw@[k as int]) == seen[k as int]);
        let name = it.namespace.as_str();
        let namespace = if same(name, "module") {
            Namespace::Module
        } else if same(name, "data") {
            Namespace::Data
        } else if same(name, "identity") {
            Namespace::Identity
        } else if same(name, "feature") {
            Namespace::Feature
        } else {
            let shown = quoted(name);
            proof {
                lemma_known_fails(seen, k + 1, seen.len() as int);
            }
            return Err(cat("unknown SID namespace ", shown.as_str()));
        };
        let ghost had = item_views(items@);
        let item = SidItem { namespace, identifier: it.identifier.clone(), sid: it.sid };
        items.push(item);
        assert(item_views(items@) =~= had.push(item@));
        k += 1;
    }
    Ok(SidFile { module_name, items })
}

proof fn lemma_raw_fails(a: Seq<Tree>, n: int, m: int)
    requires
        0 <= n <= m,
        raw_items(a, n) is Err,
    ensures
        raw_items(a, m) == raw_items(a, n),
    decreases m - n,
{
    if n < m {
        lemma_raw_fails(a, n, m - 1);
    }
}

proof fn lemma_known_fails(raw: Seq<RawItem>, n: int, m: int)
    requires
        0 <= n <= m,
        known_items(raw, n) is Err,
    ensures
        known_items(raw, m) == known_items(raw, n),
    decreases m - n,
{
    if n < m {
        lemma_known_fails(raw, n, m - 1);
    }
}

/// Reads a SID file. Of a member that is written twice the last one counts:
/// the JSON reader has put them together by then, and what it hands out says
/// nothing of places in the text.
pub fn parse(src: &str) -> (r: Result<SidFile, String>)
    ensures
        match r {
            Ok(f) => sid_file_in(src@) == Ok::<SidFileView, Seq<char>>(f@),
            Err(e) => sid_file_in(src@) == Err::<SidFileView, Seq<char>>(e@),
        },
{
    let v = parse_json(src)?;
    from_json(&v)
}

} // verus!
