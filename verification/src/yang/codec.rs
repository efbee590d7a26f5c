//! Requests and responses as bytes: whole trees of data, and sequences of
//! entries.
use vstd::prelude::*;

use crate::cbor::decode::{from_slice, item_at};
use crate::cbor::encode::{encode_value, encoding, encodings, to_vec};
use crate::cbor::value::{entry_items, lemma_view, value_items, Item, Value as Cbor};
use crate::json::{
    json_text, lemma_json_view, members, to_text, trees, Json, Tree,
};
use crate::text::{cat3, cat4, cat5, decimal, decimal_text, join, joined, owned, texts};
use crate::yang::bodies::{
    body_decoded, body_encoded, decode_body, empty_table, encode_body, format_name, lenient,
    node_decoded, node_encoded, softened,
};
use crate::yang::readings::path_decoded;
use crate::yang::scalars::{
    decimal64_tag_parts, decimal_parts, decimal_views, describe_cbor, item_described, item_of,
    tree_of, DecimalView,
};
use crate::yang::schema::{Schema, SchemaView};
use crate::yang::values::path_encoded;

pub use crate::yang::base64::{base64_decode, base64_encode};
pub use crate::yang::bits::{decode_bits, encode_bits};
pub use crate::yang::bodies::{decode_node_value, encode_node_value, ContentFormat};
pub use crate::yang::readings::{decode_iid, type_to_json};
pub use crate::yang::scalars::{
    decode_decimal64, encode_decimal64, CodecError, DecimalText,
};
pub use crate::yang::values::{resolve_iid, type_to_cbor};

verus! {

broadcast use {lemma_view, lemma_json_view};

/// The items of a sequence from `pos` on, behind `seen`.
pub open spec fn sequence_from(bytes: Seq<u8>, pos: int, seen: Seq<Item>) -> Result<
    Seq<Item>,
    Seq<char>,
>
    decreases bytes.len() - pos,
{
    if pos >= bytes.len() {
        Ok(seen)
    } else {
        match item_at(bytes, pos) {
            (Err(e), _) => Err(
                "could not decode this as CBOR ("@ + e
                    + ") -- the data may be corrupted, truncated, or not CBOR at all"@,
            ),
            (Ok(v), p) => if pos < p <= bytes.len() {
                sequence_from(bytes, p, seen.push(v))
            } else {
                arbitrary()
            },
        }
    }
}

/// The items of a sequence.
pub open spec fn sequence_in(bytes: Seq<u8>) -> Result<Seq<Item>, Seq<char>> {
    sequence_from(bytes, 0, Seq::empty())
}

/// The items of a sequence.
pub fn cbor_seq_from_bytes(bytes: &[u8]) -> (r: Result<Vec<Cbor>, CodecError>)
    ensures
        match r {
            Ok(v) => sequence_in(bytes@) == Ok::<Seq<Item>, Seq<char>>(value_items(v@)),
            Err(e) => sequence_in(bytes@) == Err::<Seq<Item>, Seq<char>>(e.0@),
        },
{
    let mut out: Vec<Cbor> = Vec::new();
    let mut pos: usize = 0;
    assert(value_items(out@) =~= Seq::empty());
    while pos < bytes.len()
        invariant
            pos <= bytes@.len(),
            sequence_in(bytes@) == sequence_from(bytes@, pos as int, value_items(out@)),
        decreases bytes@.len() - pos,
    {
        let ghost had = value_items(out@);
        match from_slice(bytes, &mut pos) {
            Ok(v) => {
                out.push(v);
                assert(value_items(out@) =~= had.push(v@));
            },
            Err(e) => {
                return Err(
                    CodecError(
                        cat3(
                            "could not decode this as CBOR (",
                            e.0.as_str(),
                            ") -- the data may be corrupted, truncated, or not CBOR at all",
                        ),
                    ),
                );
            },
        }
    }
    Ok(out)
}

/// Encodes each item of a sequence anew: definite lengths, and every number
/// in its narrowest form. No schema is needed.
pub fn normalize_cbor_seq(bytes: &[u8]) -> (r: Result<Vec<u8>, CodecError>)
    ensures
        match r {
            Ok(out) => sequence_in(bytes@) matches Ok(items) && out@ == encodings(items),
            Err(e) => sequence_in(bytes@) == Err::<Seq<Item>, Seq<char>>(e.0@),
        },
{
    let items = cbor_seq_from_bytes(bytes)?;
    let ghost all = value_items(items@);
    let mut out: Vec<u8> = Vec::new();
    let mut i: usize = 0;
    assert(out@ =~= encodings(all.subrange(0, 0)));
    while i < items.len()
        invariant
            i <= items@.len(),
            all == value_items(items@),
            out@ == encodings(all.subrange(0, i as int)),
        decreases items@.len() - i,
    {
        assert(all[i as int] == items@[i as int]@);
        encode_value(&items[i], &mut out);
        proof {
            let next = all.subrange(0, i + 1);
            assert(next.subrange(0, next.len() - 1) =~= all.subrange(0, i as int));
        }
        i += 1;
    }
    assert(all.subrange(0, all.len() as int) =~= all);
    Ok(out)
}

/// The kind of a JSON value in messages.
pub open spec fn kind_name(v: Tree) -> Seq<char> {
    match v {
        Tree::Array(_) => "array"@,
        Tree::Null => "null"@,
        Tree::Bool(_) => "Boolean"@,
        Tree::Integer(_) => "Numeric"@,
        Tree::Float(_) => "Numeric"@,
        Tree::Text(_) => "String"@,
        Tree::Object(_) => "Hash"@,
    }
}

/// The message on an entry that is no object.
pub open spec fn entry_message(cf: ContentFormat, v: Tree) -> Seq<char> {
    format_name(cf) + " entry must be a map of a single instance path to its value, got "@
        + kind_name(v)
}

/// The keys of an object.
pub open spec fn keys_of(m: Seq<(Seq<char>, Tree)>) -> Seq<Seq<char>> {
    m.map_values(|e: (Seq<char>, Tree)| e.0)
}

/// The message on an entry with more or less than one member.
pub open spec fn members_message(cf: ContentFormat, m: Seq<(Seq<char>, Tree)>) -> Seq<char> {
    format_name(cf)
        + " entry must have exactly one key/value pair (the instance path and its value), got "@
        + decimal_text(m.len() as int) + ": "@ + joined(keys_of(m), ", "@)
}

/// A path and a value as a table with one entry. Null stands for itself.
pub open spec fn instance_encoded(
    s: SchemaView,
    path: Seq<char>,
    v: Tree,
    cf: ContentFormat,
    cont: bool,
) -> Result<Item, Seq<char>> {
    match path_encoded(s, path) {
        Err(e) => Err(e),
        Ok((target, iid)) => match (if v is Null {
            Ok(Item::Null)
        } else {
            node_encoded(s, target, v, cf, cont)
        }) {
            Err(e) => Err(e),
            Ok(item) => Ok(Item::Entries(seq![(iid, item)])),
        },
    }
}

/// One entry of a request: a path with its value, or only a path to fetch.
pub open spec fn entry_encoded(s: SchemaView, v: Tree, cf: ContentFormat, cont: bool) -> Result<
    Item,
    Seq<char>,
> {
    if !(cf == ContentFormat::Fetch || cf == ContentFormat::Ipatch || cf == ContentFormat::Post) {
        Err(
            "internal error: "@ + format_name(cf)
                + " doesn't use sequence encoding and shouldn't reach this code path"@,
        )
    } else {
        match v {
            Tree::Object(m) => if m.len() == 1 {
                instance_encoded(s, m[0].0, m[0].1, cf, cont)
            } else {
                Err(members_message(cf, m))
            },
            Tree::Text(path) => if cf == ContentFormat::Fetch {
                match path_encoded(s, path) {
                    Err(e) => Err(e),
                    Ok((_, iid)) => Ok(iid),
                }
            } else {
                Err(entry_message(cf, v))
            },
            _ => Err(entry_message(cf, v)),
        }
    }
}

/// The first `n` entries of a request as bytes.
pub open spec fn entries_bytes(
    s: SchemaView,
    a: Seq<Tree>,
    cf: ContentFormat,
    cont: bool,
    n: int,
) -> Result<Seq<u8>, Seq<char>>
    decreases n,
{
    if n <= 0 {
        Ok(Seq::empty())
    } else {
        match entries_bytes(s, a, cf, cont, n - 1) {
            Err(e) => Err(e),
            Ok(before) => match entry_encoded(s, a[n - 1], cf, cont) {
                Err(e) => Err(e),
                Ok(item) => Ok(before + encoding(item)),
            },
        }
    }
}

/// The error on an entry that is no object.
fn validate_entry_err(cf: ContentFormat, v: &Json) -> (r: CodecError)
    ensures
        r.0@ == entry_message(cf, v@),
{
    let kind: &str = match v {
        Json::Array(_) => "array",
        Json::Null => "null",
        Json::Bool(_) => "Boolean",
        Json::Integer(_) => "Numeric",
        Json::Float(_) => "Numeric",
        Json::String(_) => "String",
        Json::Object(_) => "Hash",
    };
    CodecError(
        cat3(
            cf.upper_name(),
            " entry must be a map of a single instance path to its value, got ",
            kind,
        ),
    )
}

/// Checks that an object has exactly one member.
fn validate_single_key(cf: ContentFormat, m: &Vec<(String, Json)>) -> (r: Result<(), CodecError>)
    ensures
        match r {
            Ok(_) => m@.len() == 1,
            Err(e) => m@.len() != 1 && e.0@ == members_message(cf, members(m@)),
        },
{
    if m.len() == 1 {
        return Ok(());
    }
    let mut keys: Vec<String> = Vec::new();
    let mut i: usize = 0;
    while i < m.len()
        invariant
            i <= m@.len(),
            m@.len() != 1,
            keys@.len() == i,
            forall|k: int| 0 <= k < i ==> (#[trigger] keys@[k])@ == m@[k].0@,
        decreases m@.len() - i,
    {
        keys.push(m[i].0.clone());
        i += 1;
    }
    assert(texts(keys@) =~= keys_of(members(m@)));
    let n = decimal(m.len() as i128);
    let all = join(keys.as_slice(), ", ");
    Err(
        CodecError(
            cat5(
                cf.upper_name(),
                " entry must have exactly one key/value pair (the instance path and its value), got ",
                n.as_str(),
                ": ",
                all.as_str(),
            ),
        ),
    )
}

/// A path and a value as a table with one entry.
fn encode_instance(
    schema: &Schema,
    path: &str,
    v: &Json,
    cf: ContentFormat,
    cont: bool,
) -> (r: Result<Cbor, CodecError>)
    requires
        schema.wf(),
    ensures
        item_of(r) == instance_encoded(schema@, path@, v@, cf, cont),
{
    let (target, iid) = resolve_iid(schema, path)?;
    let value = if v.is_null() {
        Cbor::Null
    } else {
        encode_node_value(schema, target, v, cf, cont)?
    };
    let mut one: Vec<(Cbor, Cbor)> = Vec::new();
    one.push((iid, value));
    assert(entry_items(one@) =~= seq![(iid@, value@)]);
    Ok(Cbor::Entries(one))
}

/// One entry of a request.
pub(crate) fn encode_entry(schema: &Schema, v: &Json, cf: ContentFormat, cont: bool) -> (r: Result<
    Cbor,
    CodecError,
>)
    requires
        schema.wf(),
    ensures
        item_of(r) == entry_encoded(schema@, v@, cf, cont),
{
    if !cf.is_sequence() {
        return Err(
            CodecError(
                cat3(
                    "internal error: ",
                    cf.upper_name(),
                    " doesn't use sequence encoding and shouldn't reach this code path",
                ),
            ),
        );
    }
    match v {
        Json::Object(m) => {
            validate_single_key(cf, m)?;
            assert(members(m@)[0] == (m@[0].0@, m@[0].1@));
            encode_instance(schema, m[0].0.as_str(), &m[0].1, cf, cont)
        },
        Json::String(path) => {
            if cf == ContentFormat::Fetch {
                let (_, iid) = resolve_iid(schema, path.as_str())?;
                Ok(iid)
            } else {
                Err(validate_entry_err(cf, v))
            }
        },
        _ => Err(validate_entry_err(cf, v)),
    }
}

/// Encodes the entries of a request as a sequence.
pub fn json_seq_to_cbor(
    schema: &Schema,
    items: &[Json],
    cf: ContentFormat,
    continue_on_error: bool,
) -> (r: Result<Vec<u8>, CodecError>)
    requires
        schema.wf(),
    ensures
        match r {
            Ok(out) => entries_bytes(
                schema@,
                trees(items@),
                cf,
                continue_on_error,
                items@.len() as int,
            ) == Ok::<Seq<u8>, Seq<char>>(out@),
            Err(e) => entries_bytes(
                schema@,
                trees(items@),
                cf,
                continue_on_error,
                items@.len() as int,
            ) == Err::<Seq<u8>, Seq<char>>(e.0@),
        },
{
    let ghost all = trees(items@);
    let mut out: Vec<u8> = Vec::new();
    let mut i: usize = 0;
    assert(out@ =~= Seq::empty());
    while i < items.len()
        invariant
            i <= items@.len(),
            schema.wf(),
            all == trees(items@),
            entries_bytes(schema@, all, cf, continue_on_error, i as int) == Ok::<
                Seq<u8>,
                Seq<char>,
            >(out@),
        decreases items@.len() - i,
    {
        assert(all[i as int] == items@[i as int]@);
        match encode_entry(schema, &items[i], cf, continue_on_error) {
            Ok(v) => {
                encode_value(&v, &mut out);
            },
            Err(e) => {
                proof {
                    lemma_entries_fail(
                        schema@,
                        all,
                        cf,
                        continue_on_error,
                        i + 1,
                        all.len() as int,
                    );
                }
                return Err(e);
            },
        }
        i += 1;
    }
    Ok(out)
}

proof fn lemma_entries_fail(
    s: SchemaView,
    a: Seq<Tree>,
    cf: ContentFormat,
    cont: bool,
    n: int,
    m: int,
)
    requires
        0 <= n <= m,
        entries_bytes(s, a, cf, cont, n) is Err,
    ensures
        entries_bytes(s, a, cf, cont, m) == entries_bytes(s, a, cf, cont, n),
    decreases m - n,
{
    if n < m {
        lemma_entries_fail(s, a, cf, cont, n, m - 1);
    }
}

/// One entry of a response: a table with one entry as an object, a path for
/// itself where paths can be fetched.
pub open spec fn entry_decoded(s: SchemaView, v: Item, cf: ContentFormat, d: Seq<DecimalView>) -> Result<
    Tree,
    Seq<char>,
> {
    if v is Entries && v->Entries_0.len() == 1 {
        let (iid, value) = v->Entries_0[0];
        match path_decoded(s, iid, d) {
            Err(e) => Err(e),
            Ok((node, path)) => match (if value is Null {
                Ok(Tree::Null)
            } else {
                node_decoded(s, node, value, cf, d)
            }) {
                Err(e) => Err(e),
                Ok(tree) => Ok(Tree::Object(seq![(path, tree)])),
            },
        }
    } else if cf == ContentFormat::Fetch {
        match path_decoded(s, v, d) {
            Err(e) => Err(e),
            Ok((_, path)) => Ok(Tree::Text(path)),
        }
    } else {
        Err(
            "the device sent "@ + item_described(v) + " as a "@ + format_name(cf)
                + " response entry, which doesn't fit the expected shape"@,
        )
    }
}

/// The first `n` entries of a response.
pub open spec fn entries_trees(
    s: SchemaView,
    items: Seq<Item>,
    cf: ContentFormat,
    d: Seq<DecimalView>,
    n: int,
) -> Result<Seq<Tree>, Seq<char>>
    decreases n,
{
    if n <= 0 {
        Ok(Seq::empty())
    } else {
        match entries_trees(s, items, cf, d, n - 1) {
            Err(e) => Err(e),
            Ok(before) => match entry_decoded(s, items[n - 1], cf, d) {
                Err(e) => Err(e),
                Ok(tree) => Ok(before.push(tree)),
            },
        }
    }
}

/// A response that is a sequence.
pub open spec fn sequence_decoded(
    s: SchemaView,
    bytes: Seq<u8>,
    cf: ContentFormat,
    d: Seq<DecimalView>,
) -> Result<Seq<Tree>, Seq<char>> {
    match sequence_in(bytes) {
        Err(e) => Err(e),
        Ok(items) => entries_trees(s, items, cf, d, items.len() as int),
    }
}

/// One entry of a response.
pub(crate) fn decode_entry(schema: &Schema, v: &Cbor, cf: ContentFormat, decimals: &[DecimalText]) -> (r:
    Result<Json, CodecError>)
    requires
        schema.wf(),
    ensures
        tree_of(r) == entry_decoded(schema@, v@, cf, decimal_views(decimals@)),
{
    if let Cbor::Entries(entries) = v {
        if entries.len() == 1 {
            assert(entry_items(entries@)[0] == (entries@[0].0@, entries@[0].1@));
            let (node, path) = decode_iid(schema, &entries[0].0, decimals)?;
            let tree = match &entries[0].1 {
                Cbor::Null => Json::Null,
                value => decode_node_value(schema, node, value, cf, decimals)?,
            };
            let ghost p = path@;
            let mut one: Vec<(String, Json)> = Vec::new();
            one.push((path, tree));
            assert(members(one@) =~= seq![(p, tree@)]);
            return Ok(Json::Object(one));
        }
    }
    if cf == ContentFormat::Fetch {
        let (_, path) = decode_iid(schema, v, decimals)?;
        return Ok(Json::String(path));
    }
    let what = describe_cbor(v);
    Err(
        CodecError(
            cat5(
                "the device sent ",
                what.as_str(),
                " as a ",
                cf.upper_name(),
                " response entry, which doesn't fit the expected shape",
            ),
        ),
    )
}

/// Decodes a response that is a sequence.
pub fn cbor_seq_to_json(
    schema: &Schema,
    bytes: &[u8],
    cf: ContentFormat,
    decimals: &[DecimalText],
) -> (r: Result<Vec<Json>, CodecError>)
    requires
        schema.wf(),
    ensures
        match r {
            Ok(v) => sequence_decoded(schema@, bytes@, cf, decimal_views(decimals@)) == Ok::<
                Seq<Tree>,
                Seq<char>,
            >(trees(v@)),
            Err(e) => sequence_decoded(schema@, bytes@, cf, decimal_views(decimals@)) == Err::<
                Seq<Tree>,
                Seq<char>,
            >(e.0@),
        },
{
    let items = cbor_seq_from_bytes(bytes)?;
    let ghost all = value_items(items@);
    let ghost d = decimal_views(decimals@);
    let mut out: Vec<Json> = Vec::new();
    let mut i: usize = 0;
    assert(trees(out@) =~= Seq::empty());
    while i < items.len()
        invariant
            i <= items@.len(),
            schema.wf(),
            all == value_items(items@),
            d == decimal_views(decimals@),
            sequence_in(bytes@) == Ok::<Seq<Item>, Seq<char>>(all),
            entries_trees(schema@, all, cf, d, i as int) == Ok::<Seq<Tree>, Seq<char>>(trees(out@)),
        decreases items@.len() - i,
    {
        assert(all[i as int] == items@[i as int]@);
        let ghost had = trees(out@);
        match decode_entry(schema, &items[i], cf, decimals) {
            Ok(v) => {
                out.push(v);
                assert(trees(out@) =~= had.push(v@));
            },
            Err(e) => {
                proof {
                    lemma_trees_fail(schema@, all, cf, d, i + 1, all.len() as int);
                }
                return Err(e);
            },
        }
        i += 1;
    }
    Ok(out)
}

proof fn lemma_trees_fail(
    s: SchemaView,
    items: Seq<Item>,
    cf: ContentFormat,
    d: Seq<DecimalView>,
    n: int,
    m: int,
)
    requires
        0 <= n <= m,
        entries_trees(s, items, cf, d, n) is Err,
    ensures
        entries_trees(s, items, cf, d, m) == entries_trees(s, items, cf, d, n),
    decreases m - n,
{
    if n < m {
        lemma_trees_fail(s, items, cf, d, n, m - 1);
    }
}

/// A whole tree of data as a data item. If errors are to be passed over, one
/// that is no object becomes an empty table.
pub open spec fn tree_encoded(s: SchemaView, v: Tree, cf: ContentFormat, cont: bool) -> Result<
    Item,
    Seq<char>,
> {
    softened(
        match v {
            Tree::Object(m) => body_encoded(s, s.root, m, cf, cont),
            _ => Err(
                "a "@ + format_name(cf)
                    + " request needs an object (key/value fields) at the top level, got "@
                    + json_text(v),
            ),
        },
        cont,
        Item::Entries(Seq::empty()),
    )
}

/// Encodes a whole tree of data.
pub fn json_to_cbor(
    schema: &Schema,
    value: &Json,
    cf: ContentFormat,
    continue_on_error: bool,
) -> (r: Result<Vec<u8>, CodecError>)
    requires
        schema.wf(),
    ensures
        match r {
            Ok(out) => tree_encoded(schema@, value@, cf, continue_on_error) matches Ok(item)
                && out@ == encoding(item),
            Err(e) => tree_encoded(schema@, value@, cf, continue_on_error) == Err::<
                Item,
                Seq<char>,
            >(e.0@),
        },
{
    let made = match value.as_object() {
        Some(m) => encode_body(schema, schema.root, value, m, cf, continue_on_error),
        None => {
            let t = to_text(value);
            Err(
                CodecError(
                    cat4(
                        "a ",
                        cf.upper_name(),
                        " request needs an object (key/value fields) at the top level, got ",
                        t.as_str(),
                    ),
                ),
            )
        },
    };
    let item = lenient(made, continue_on_error, empty_table())?;
    Ok(to_vec(&item))
}

/// A response that is a whole tree of data. No bytes are no data.
pub open spec fn tree_decoded(
    s: SchemaView,
    bytes: Seq<u8>,
    cf: ContentFormat,
    d: Seq<DecimalView>,
) -> Result<Tree, Seq<char>> {
    if bytes.len() == 0 {
        Ok(Tree::Object(Seq::empty()))
    } else {
        match sequence_in(bytes) {
            Err(e) => Err(e),
            Ok(items) => if items.len() == 0 {
                Err("could not read any CBOR value from this response"@)
            } else {
                body_decoded(s, s.root, items[0], cf, d)
            },
        }
    }
}

/// Decodes a whole tree of data.
pub fn cbor_to_json(
    schema: &Schema,
    bytes: &[u8],
    cf: ContentFormat,
    decimals: &[DecimalText],
) -> (r: Result<Json, CodecError>)
    requires
        schema.wf(),
    ensures
        tree_of(r) == tree_decoded(schema@, bytes@, cf, decimal_views(decimals@)),
{
    if bytes.len() == 0 {
        let none: Vec<(String, Json)> = Vec::new();
        assert(members(none@) =~= Seq::empty());
        return Ok(Json::Object(none));
    }
    let items = cbor_seq_from_bytes(bytes)?;
    if items.len() == 0 {
        return Err(CodecError(owned("could not read any CBOR value from this response")));
    }
    assert(value_items(items@)[0] == items@[0]@);
    decode_body(schema, schema.root, &items[0], cf, decimals)
}

/// The decimals in a data item, by exponent and mantissa.
pub open spec fn decimals_in(v: Item) -> Seq<(int, int)>
    decreases v, 1int, 0int,
{
    match v {
        Item::Tag(_, inner) => match decimal_parts(v) {
            Ok(parts) => seq![parts],
            Err(_) => decimals_in(*inner),
        },
        Item::Array(a) => decimals_among(v, a.len() as int),
        Item::Entries(m) => decimals_among(v, m.len() as int),
        _ => Seq::empty(),
    }
}

/// The decimals in the first `n` parts of an array or table.
pub open spec fn decimals_among(v: Item, n: int) -> Seq<(int, int)>
    decreases v, 0int, n,
{
    if n <= 0 {
        Seq::empty()
    } else {
        match v {
            Item::Array(a) => if n <= a.len() {
                decimals_among(v, n - 1) + decimals_in(a[n - 1])
            } else {
                Seq::empty()
            },
            Item::Entries(m) => if n <= m.len() {
                decimals_among(v, n - 1) + decimals_in(m[n - 1].0) + decimals_in(m[n - 1].1)
            } else {
                Seq::empty()
            },
            _ => Seq::empty(),
        }
    }
}

/// The views of some decimals.
pub open spec fn decimal_pairs(v: Seq<(i64, i128)>) -> Seq<(int, int)> {
    v.map_values(|p: (i64, i128)| (p.0 as int, p.1 as int))
}

/// Appends the decimals in a data item, by exponent and mantissa: those whose
/// texts decoding may ask for.
pub fn list_decimals(v: &Cbor, out: &mut Vec<(i64, i128)>)
    ensures
        decimal_pairs(final(out)@) == decimal_pairs(old(out)@) + decimals_in(v@),
    decreases v,
{
    let ghost start = decimal_pairs(out@);
    match v {
        Cbor::Tag(_, inner) => {
            match decimal64_tag_parts(v) {
                Ok((e, m)) => {
                    out.push((e, m));
                    assert(decimal_pairs(out@) =~= start + seq![(e as int, m as int)]);
                },
                Err(_) => {
                    list_decimals(&**inner, out);
                },
            }
        },
        Cbor::Array(a) => {
            let mut i: usize = 0;
            assert(decimal_pairs(out@) =~= start + decimals_among(v@, 0));
            while i < a.len()
                invariant
                    i <= a@.len(),
                    *v == Cbor::Array(*a),
                    v@ == Item::Array(value_items(a@)),
                    decimal_pairs(out@) == start + decimals_among(v@, i as int),
                decreases a@.len() - i,
            {
                proof {
                    crate::cbor::value::lemma_element_below(*v, i as int);
                    assert(value_items(a@)[i as int] == a@[i as int]@);
                }
                list_decimals(&a[i], out);
                assert(decimal_pairs(out@) =~= start + decimals_among(v@, i + 1));
                i += 1;
            }
        },
        Cbor::Entries(m) => {
            let mut i: usize = 0;
            assert(decimal_pairs(out@) =~= start + decimals_among(v@, 0));
            while i < m.len()
                invariant
                    i <= m@.len(),
                    *v == Cbor::Entries(*m),
                    v@ == Item::Entries(entry_items(m@)),
                    decimal_pairs(out@) == start + decimals_among(v@, i as int),
                decreases m@.len() - i,
            {
                proof {
                    crate::cbor::value::lemma_entry_below(*v, i as int);
                    assert(entry_items(m@)[i as int] == (m@[i as int].0@, m@[i as int].1@));
                }
                list_decimals(&m[i].0, out);
                list_decimals(&m[i].1, out);
                assert(decimal_pairs(out@) =~= start + decimals_among(v@, i + 1));
                i += 1;
            }
        },
        _ => {
            assert(decimal_pairs(out@) =~= start + decimals_in(v@));
        },
    }
}

} // verus!
