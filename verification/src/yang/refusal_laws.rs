//! What is said of values and data that are refused.
use vstd::prelude::*;

use crate::cbor::value::Item;
use crate::json::{json_text, Tree};
use crate::text::{decimal_text, joined, quoted_text};
use crate::yang::bodies::{node_encoded, ContentFormat};
use crate::yang::codec::entry_encoded;
use crate::yang::readings::plain_decoded;
use crate::yang::scalars::{item_described, ranges_described, wide_described, DecimalView};
use crate::yang::schema::{Builtin, SchemaView};
use crate::yang::values::plain_encoded;

verus! {

/// A value of the wrong kind is refused with what is expected and what was
/// given.
pub proof fn law_values_of_the_wrong_kind(s: SchemaView, id: usize, v: Tree, u: bool)
    ensures
        ({
            let b = s.types[id as int].builtin;
            let small = b == Builtin::Int8 || b == Builtin::Int16 || b == Builtin::Int32 || b
                == Builtin::Uint8 || b == Builtin::Uint16 || b == Builtin::Uint32;
            let r = plain_encoded(s, id, v, u);
            &&& b == Builtin::Boolean && !(v is Bool) ==> r == Err::<Item, Seq<char>>(
                "expected true or false, got "@ + json_text(v),
            )
            &&& b == Builtin::String && !(v is Text) ==> r == Err::<Item, Seq<char>>(
                "expected text here, got "@ + json_text(v),
            )
            &&& small && !(v is Integer) ==> r == Err::<Item, Seq<char>>(
                "expected a whole number here, got "@ + json_text(v),
            )
            &&& (b == Builtin::Int64 || b == Builtin::Uint64) && !(v is Text) ==> r == Err::<
                Item,
                Seq<char>,
            >(
                "expected a large whole number written as quoted text (e.g. \"12345678901\"), got "@
                    + json_text(v),
            )
            &&& b == Builtin::Binary && !(v is Text) ==> r == Err::<Item, Seq<char>>(
                "expected base64-encoded text (for binary data), got "@ + json_text(v),
            )
            &&& b == Builtin::Enumeration && !(v is Text) ==> r == Err::<Item, Seq<char>>(
                "expected one of this field's allowed text values, got "@ + json_text(v),
            )
            &&& b == Builtin::Identityref && !(v is Text) ==> r == Err::<Item, Seq<char>>(
                "expected the name of one of this field's allowed values (as text), got "@
                    + json_text(v),
            )
            &&& b == Builtin::InstanceIdentifier && !(v is Text) ==> r == Err::<Item, Seq<char>>(
                "expected a path (as text) pointing to another node, got "@ + json_text(v),
            )
        }),
{
}

/// What a device sends of the wrong kind is refused with what was expected and
/// what came.
pub proof fn law_items_of_the_wrong_kind(
    s: SchemaView,
    id: usize,
    v: Item,
    u: bool,
    d: Seq<DecimalView>,
)
    ensures
        ({
            let b = s.types[id as int].builtin;
            let whole = b == Builtin::Int8 || b == Builtin::Int16 || b == Builtin::Int32 || b
                == Builtin::Uint8 || b == Builtin::Uint16 || b == Builtin::Uint32 || b
                == Builtin::Int64 || b == Builtin::Uint64;
            let r = plain_decoded(s, id, v, u, d);
            let end = " in the device's response, but got "@ + item_described(v)
                + " -- the loaded YANG catalog may not match this device's firmware"@;
            &&& b == Builtin::Boolean && !(v is Bool) ==> (r matches Err(e) && e
                =~= "expected "@ + "true or false"@ + end)
            &&& b == Builtin::String && !(v is Text) ==> (r matches Err(e) && e =~= "expected "@
                + "text"@ + end)
            &&& b == Builtin::Binary && !(v is Bytes) ==> (r matches Err(e) && e =~= "expected "@
                + "binary data"@ + end)
            &&& whole && !(v is Integer) ==> (r matches Err(e) && e =~= "expected "@
                + "a whole number"@ + end)
        }),
{
}

/// How data items are described.
pub proof fn law_descriptions_of_items(v: Item, t: u64, inner: Item)
    ensures
        v matches Item::Integer(i) ==> item_described(v) == "the number "@ + decimal_text(i),
        v matches Item::Text(x) ==> item_described(v) == "the text "@ + quoted_text(x),
        v matches Item::Bytes(b) ==> item_described(v) == decimal_text(b.len() as int)
            + " byte(s) of binary data"@,
        v == Item::Bool(true) ==> item_described(v) == "the boolean true"@,
        v == Item::Bool(false) ==> item_described(v) == "the boolean false"@,
        v is Null ==> item_described(v) == "null"@,
        v matches Item::Array(a) ==> item_described(v) == "a list of "@ + decimal_text(
            a.len() as int,
        ) + " item(s)"@,
        v matches Item::Entries(m) ==> item_described(v) == "a map of "@ + decimal_text(
            m.len() as int,
        ) + " entrie(s)"@,
        item_described(Item::Tag(t, Box::new(inner))) == "a tagged value (tag "@ + decimal_text(
            t as int,
        ) + ", containing "@ + item_described(inner) + ")"@,
{
}

/// Ranges are told by their bounds, and a range of one value by that value.
pub proof fn law_ranges_in_words(low: i128, high: i128)
    requires
        i64::MIN <= low <= high <= i64::MAX,
    ensures
        low == high ==> ranges_described(seq![(low, high)]) == "exactly "@ + decimal_text(
            low as int,
        ),
        low < high ==> ranges_described(seq![(low, high)]) == "between "@ + decimal_text(low as int)
            + " and "@ + decimal_text(high as int),
        wide_described(seq![(low, high)]) == ranges_described(seq![(low, high)]),
{
    let one = seq![(low, high)];
    let a = one.map_values(|r: (i128, i128)| crate::yang::scalars::range_words(r));
    let b = one.map_values(|r: (i128, i128)| crate::yang::scalars::wide_words(r));
    assert(a.len() == 1 && a[0] == crate::yang::scalars::range_words((low, high)));
    assert(b.len() == 1 && b[0] == crate::yang::scalars::wide_words((low, high)));
    assert(joined(a, ", or "@) == a[0]);
    assert(joined(b, ", or "@) == b[0]);
}

/// Data of the wrong shape is refused by the name of its node.
pub proof fn law_data_of_the_wrong_shape(s: SchemaView, node: usize, v: Tree, cf: ContentFormat)
    requires
        s.nodes[node as int].name != "data-tree-schema"@,
        !(v is Object),
        !(v is Array),
    ensures
        ({
            let n = s.nodes[node as int];
            let r = node_encoded(s, node, v, cf, false);
            &&& n.kw == "container"@ ==> r == Err::<Item, Seq<char>>(
                "\""@ + n.name + "\" needs an object (key/value fields), got "@ + json_text(v),
            )
            &&& n.kw == "leaf-list"@ ==> r == Err::<Item, Seq<char>>(
                "\""@ + n.name + "\" needs a list of values, got "@ + json_text(v),
            )
            &&& n.kw == "list"@ && cf == ContentFormat::Put ==> r == Err::<Item, Seq<char>>(
                "\""@ + n.name + "\" needs a list, got "@ + json_text(v),
            )
        }),
{
    reveal_strlit("leaf");
    reveal_strlit("leaf-list");
    reveal_strlit("container");
    reveal_strlit("input");
    reveal_strlit("output");
    reveal_strlit("list");
    assert("list"@.len() == 4 && "leaf"@.len() == 4 && "leaf-list"@.len() == 9 && "container"@.len()
        == 9 && "input"@.len() == 5 && "output"@.len() == 6);
    assert("list"@[1] == 'i' && "leaf"@[1] == 'e' && "leaf-list"@[0] == 'l' && "container"@[0]
        == 'c');
}

/// An entry of a request that is no path with its value is refused; a path alone
/// is an entry only to fetch.
pub proof fn law_entries_of_the_wrong_shape(s: SchemaView, v: Tree, path: Seq<char>, cont: bool)
    ensures
        !(v is Object) ==> entry_encoded(s, v, ContentFormat::Ipatch, cont) is Err && entry_encoded(
            s,
            v,
            ContentFormat::Post,
            cont,
        ) is Err,
        !(v is Object) && !(v is Text) ==> entry_encoded(s, v, ContentFormat::Fetch, cont) is Err,
        v matches Tree::Object(m) ==> (m.len() != 1 ==> entry_encoded(
            s,
            v,
            ContentFormat::Fetch,
            cont,
        ) is Err && entry_encoded(s, v, ContentFormat::Ipatch, cont) is Err),
        entry_encoded(s, v, ContentFormat::Put, cont) is Err,
        entry_encoded(s, v, ContentFormat::Get, cont) is Err,
{
}

/// What is said of entries of the wrong shape: the method and the kind of what
/// was given.
pub proof fn law_words_on_entries(s: SchemaView, v: Tree, cont: bool)
    requires
        !(v is Object),
    ensures
        ({
            let kind = match v {
                Tree::Array(_) => "array"@,
                Tree::Null => "null"@,
                Tree::Bool(_) => "Boolean"@,
                Tree::Text(_) => "String"@,
                _ => "Numeric"@,
            };
            let rest = " entry must be a map of a single instance path to its value, got "@;
            &&& entry_encoded(s, v, ContentFormat::Ipatch, cont) == Err::<Item, Seq<char>>(
                "IPATCH"@ + rest + kind,
            )
            &&& entry_encoded(s, v, ContentFormat::Post, cont) == Err::<Item, Seq<char>>(
                "POST"@ + rest + kind,
            )
            &&& !(v is Text) ==> entry_encoded(s, v, ContentFormat::Fetch, cont) == Err::<
                Item,
                Seq<char>,
            >("FETCH"@ + rest + kind)
        }),
{
}

} // verus!
