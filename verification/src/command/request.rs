//! A request to a device and what comes back.
use vstd::prelude::*;

use crate::cbor::decode::{from_slice, item_at};
use crate::cbor::encode::{encoding, to_vec};
use crate::cbor::value::{entry_items, lemma_view, Item, Value as Cbor};
use crate::coap::client::{
    begun, client_begun, exchange_ok, on_the_line, Client, Exchange, Response,
};
use crate::coap::content_format::{
    YANG_DATA_CBOR, YANG_IDENTIFIERS_CBOR, YANG_INSTANCES_CBOR,
};
use crate::coap::message::Method;
use crate::json::{lemma_json_view, members, trees, Json, Tree};
use crate::mup1::frame::{Frame, FrameView, TYPE_RAW};
use crate::mup1::frame_type::{ANNOUNCE, TRACE};
use crate::text::{
    cat, cat3, cat4, cat5, cat7, decimal, decimal_text, from_utf8_lossy, hex, hex_text, join, joined,
    lossy_text, owned, pad_two, quoted, quoted_text, same, texts, trim, trimmed, two_digits,
};
use crate::yang::bodies::{is_sequence, ContentFormat};
use crate::yang::codec::{
    cbor_seq_to_json, cbor_to_json, entries_bytes, json_seq_to_cbor, json_to_cbor, sequence_decoded,
    tree_decoded, tree_encoded,
};
use crate::yang::parser::opt_text;
use crate::yang::scalars::{decimal_views, DecimalText, DecimalView};
use crate::yang::schema::{Schema, SchemaView};

verus! {

broadcast use {lemma_view, lemma_json_view};

/// The SID of the checksum of a device's library of models.
pub const SID_CHECKSUM: i64 = 29304;

/// Whether a method has a body.
pub open spec fn has_body(method: Seq<char>) -> bool {
    method == "fetch"@ || method == "ipatch"@ || method == "put"@ || method == "post"@
}

/// Whether a method has a body.
pub fn needs_input(method: &str) -> (r: bool)
    ensures
        r == has_body(method@),
{
    same(method, "fetch") || same(method, "ipatch") || same(method, "put") || same(method, "post")
}

/// The path of a request with its query parameters, which only some methods
/// take.
pub open spec fn url_for(base: Seq<char>, query: Seq<Seq<char>>, method: Seq<char>) -> Result<
    Seq<char>,
    Seq<char>,
> {
    if query.len() == 0 {
        Ok(base)
    } else if method != "fetch"@ && method != "get"@ {
        Err("-q/--query only works with fetch and get, not "@ + method)
    } else {
        Ok(base + "?"@ + joined(query, "&"@))
    }
}

/// The path of a request with its query parameters.
pub fn url_with_query_params(base: &str, query: &[String], method: &str) -> (r: Result<
    String,
    String,
>)
    ensures
        match r {
            Ok(u) => url_for(base@, texts(query@), method@) == Ok::<Seq<char>, Seq<char>>(u@),
            Err(e) => url_for(base@, texts(query@), method@) == Err::<Seq<char>, Seq<char>>(e@),
        },
{
    assert(texts(query@).len() == query@.len());
    if query.len() == 0 {
        return Ok(owned(base));
    }
    if !same(method, "fetch") && !same(method, "get") {
        return Err(cat("-q/--query only works with fetch and get, not ", method));
    }
    let all = join(query, "&");
    Ok(cat3(base, "?", all.as_str()))
}

/// An entry of a request to fetch: a path with a null is only a path.
pub open spec fn fetch_entry(v: Tree) -> Tree {
    match v {
        Tree::Object(m) => if m.len() == 1 && m[0].1 is Null {
            Tree::Text(m[0].0)
        } else {
            v
        },
        _ => v,
    }
}

/// The entries of a request to fetch: a path with a null is only a path.
pub fn normalize_fetch_request_items(items: &[Json]) -> (r: Vec<Json>)
    ensures
        trees(r@) == trees(items@).map_values(|v: Tree| fetch_entry(v)),
{
    let mut out: Vec<Json> = Vec::new();
    let mut i: usize = 0;
    while i < items.len()
        invariant
            i <= items@.len(),
            out@.len() == i,
            forall|k: int| 0 <= k < i ==> (#[trigger] out@[k])@ == fetch_entry(items@[k]@),
        decreases items@.len() - i,
    {
        let one = match &items[i] {
            Json::Object(m) => {
                assert(m@.len() > 0 ==> members(m@)[0] == (m@[0].0@, m@[0].1@));
                if m.len() == 1 && m[0].1.is_null() {
                    Json::String(m[0].0.clone())
                } else {
                    items[i].clone()
                }
            },
            other => other.clone(),
        };
        out.push(one);
        i += 1;
    }
    assert(trees(out@) =~= trees(items@).map_values(|v: Tree| fetch_entry(v)));
    out
}

/// A request that is ready to be sent.
#[derive(Debug)]
pub struct Prepared {
    pub method: Method,
    pub payload: Vec<u8>,
    /// What a successful response looks like.
    pub success_format: ContentFormat,
}

/// What a [`Prepared`] stands for.
#[verifier::ext_equal]
pub struct PreparedView {
    pub method: Method,
    pub payload: Seq<u8>,
    pub success_format: ContentFormat,
}

impl View for Prepared {
    type V = PreparedView;

    open spec fn view(&self) -> PreparedView {
        PreparedView {
            method: self.method,
            payload: self.payload@,
            success_format: self.success_format,
        }
    }
}

/// The body of a request that is a list of entries.
pub open spec fn list_payload(
    s: SchemaView,
    input: Option<Tree>,
    cf: ContentFormat,
    cont: bool,
    missing: Seq<char>,
) -> Result<Seq<u8>, Seq<char>> {
    match input {
        Some(Tree::Array(a)) => {
            let items = if cf == ContentFormat::Fetch {
                a.map_values(|v: Tree| fetch_entry(v))
            } else {
                a
            };
            entries_bytes(s, items, cf, cont, items.len() as int)
        },
        _ => Err(missing),
    }
}

/// A body as a request, or why there is none.
pub open spec fn as_request(
    method: Method,
    payload: Result<Seq<u8>, Seq<char>>,
    success_format: ContentFormat,
) -> Result<PreparedView, Seq<char>> {
    match payload {
        Err(e) => Err(e),
        Ok(payload) => Ok(PreparedView { method, payload, success_format }),
    }
}

/// The request for a method and its input.
pub open spec fn prepared(
    s: SchemaView,
    method: Seq<char>,
    input: Option<Tree>,
    cont: bool,
) -> Result<PreparedView, Seq<char>> {
    if method == "fetch"@ {
        as_request(
            Method::Fetch,
            list_payload(
                s,
                input,
                ContentFormat::Fetch,
                cont,
                "fetch needs a YAML/JSON list as input, not a single value"@,
            ),
            ContentFormat::Fetch,
        )
    } else if method == "ipatch"@ {
        as_request(
            Method::Ipatch,
            list_payload(
                s,
                input,
                ContentFormat::Ipatch,
                cont,
                "ipatch needs a YAML/JSON list as input, not a single value"@,
            ),
            ContentFormat::Ipatch,
        )
    } else if method == "get"@ {
        as_request(Method::Get, Ok(Seq::empty()), ContentFormat::Get)
    } else if method == "put"@ {
        as_request(
            Method::Put,
            match input {
                None => Err("put needs a YAML/JSON object (key/value fields) as input"@),
                Some(v) => match tree_encoded(s, v, ContentFormat::Put, cont) {
                    Err(e) => Err(e),
                    Ok(item) => Ok(encoding(item)),
                },
            },
            ContentFormat::Put,
        )
    } else if method == "post"@ {
        as_request(
            Method::Post,
            list_payload(
                s,
                input,
                ContentFormat::Post,
                cont,
                "post needs a YAML/JSON list as input, not a single value"@,
            ),
            ContentFormat::Post,
        )
    } else if method == "delete"@ {
        as_request(Method::Delete, Ok(Seq::empty()), ContentFormat::Yang)
    } else {
        Err("CoAP method "@ + method + " not implemented!"@)
    }
}

/// The tree that an optional value stands for.
pub open spec fn opt_tree(v: Option<&Json>) -> Option<Tree> {
    match v {
        Some(v) => Some(v@),
        None => None,
    }
}

/// The body of a request that is a list of entries.
fn encode_list(
    schema: &Schema,
    input: Option<&Json>,
    cf: ContentFormat,
    cont: bool,
    missing: &str,
) -> (r: Result<Vec<u8>, String>)
    requires
        schema.wf(),
    ensures
        match r {
            Ok(b) => list_payload(schema@, opt_tree(input), cf, cont, missing@) == Ok::<
                Seq<u8>,
                Seq<char>,
            >(b@),
            Err(e) => list_payload(schema@, opt_tree(input), cf, cont, missing@) == Err::<
                Seq<u8>,
                Seq<char>,
            >(e@),
        },
{
    let a = match input {
        Some(v) => match v.as_array() {
            Some(a) => a,
            None => {
                return Err(owned(missing));
            },
        },
        None => {
            return Err(owned(missing));
        },
    };
    let made = if cf == ContentFormat::Fetch {
        let items = normalize_fetch_request_items(a.as_slice());
        json_seq_to_cbor(schema, items.as_slice(), cf, cont)
    } else {
        json_seq_to_cbor(schema, a.as_slice(), cf, cont)
    };
    match made {
        Ok(b) => Ok(b),
        Err(e) => Err(e.0),
    }
}

/// The request for a method and its input.
pub fn prepare_request(
    schema: &Schema,
    method: &str,
    input: Option<&Json>,
    continue_on_error: bool,
) -> (r: Result<Prepared, String>)
    requires
        schema.wf(),
    ensures
        match r {
            Ok(p) => prepared(schema@, method@, opt_tree(input), continue_on_error) == Ok::<
                PreparedView,
                Seq<char>,
            >(p@),
            Err(e) => prepared(schema@, method@, opt_tree(input), continue_on_error) == Err::<
                PreparedView,
                Seq<char>,
            >(e@),
        },
{
    let none: Vec<u8> = Vec::new();
    assert(none@ =~= Seq::empty());
    if same(method, "fetch") {
        let payload = encode_list(
            schema,
            input,
            ContentFormat::Fetch,
            continue_on_error,
            "fetch needs a YAML/JSON list as input, not a single value",
        )?;
        Ok(Prepared { method: Method::Fetch, payload, success_format: ContentFormat::Fetch })
    } else if same(method, "ipatch") {
        let payload = encode_list(
            schema,
            input,
            ContentFormat::Ipatch,
            continue_on_error,
            "ipatch needs a YAML/JSON list as input, not a single value",
        )?;
        Ok(Prepared { method: Method::Ipatch, payload, success_format: ContentFormat::Ipatch })
    } else if same(method, "get") {
        Ok(Prepared { method: Method::Get, payload: none, success_format: ContentFormat::Get })
    } else if same(method, "put") {
        match input {
            None => Err(owned("put needs a YAML/JSON object (key/value fields) as input")),
            Some(v) => match json_to_cbor(schema, v, ContentFormat::Put, continue_on_error) {
                Ok(payload) => Ok(
                    Prepared {
                        method: Method::Put,
                        payload,
                        success_format: ContentFormat::Put,
                    },
                ),
                Err(e) => Err(e.0),
            },
        }
    } else if same(method, "post") {
        let payload = encode_list(
            schema,
            input,
            ContentFormat::Post,
            continue_on_error,
            "post needs a YAML/JSON list as input, not a single value",
        )?;
        Ok(Prepared { method: Method::Post, payload, success_format: ContentFormat::Post })
    } else if same(method, "delete") {
        Ok(Prepared { method: Method::Delete, payload: none, success_format: ContentFormat::Yang })
    } else {
        Err(cat3("CoAP method ", method, " not implemented!"))
    }
}

/// The content format of the body of a request.
pub open spec fn body_format(method: Method) -> Option<u16> {
    match method {
        Method::Get => None,
        Method::Delete => None,
        Method::Put => Some(YANG_DATA_CBOR),
        Method::Post => Some(YANG_INSTANCES_CBOR),
        Method::Fetch => Some(YANG_IDENTIFIERS_CBOR),
        Method::Ipatch => Some(YANG_INSTANCES_CBOR),
    }
}

/// The body that is sent with a method: some have none.
pub open spec fn sent_payload(p: PreparedView) -> Seq<u8> {
    if p.method == Method::Get || p.method == Method::Delete {
        Seq::empty()
    } else {
        p.payload
    }
}

/// Begins the exchange for a request: the exchange, and the bytes to write to
/// the line.
pub fn begin_request(client: &mut Client, request: &Prepared, url: &str, now_ms: u64) -> (r: (
    Exchange,
    Vec<u8>,
))
    requires
        old(client).wf(),
        request@.payload.len() <= u32::MAX,
    ensures
        final(client).wf(),
        final(client)@ == client_begun(old(client)@),
        r.0@ == begun(
            old(client)@,
            request@.method,
            url@,
            body_format(request@.method),
            None,
            sent_payload(request@),
            now_ms,
        ),
        exchange_ok(r.0@),
        r.1@ == on_the_line(old(client)@, r.0@),
{
    let payload = request.payload.as_slice();
    match request.method {
        Method::Get => client.get(url, now_ms),
        Method::Delete => client.delete(url, now_ms),
        Method::Put => client.put(url, payload, now_ms),
        Method::Post => client.post(url, payload, now_ms),
        Method::Fetch => client.fetch(url, payload, now_ms),
        Method::Ipatch => client.ipatch(url, payload, now_ms),
    }
}

/// The format of a response by its own content format; without one, that of a
/// successful response.
pub open spec fn response_format(
    content_format: Option<u16>,
    success_format: ContentFormat,
) -> ContentFormat {
    if content_format == Some(YANG_DATA_CBOR) {
        ContentFormat::Yang
    } else if content_format == Some(YANG_IDENTIFIERS_CBOR) || content_format == Some(
        YANG_INSTANCES_CBOR,
    ) {
        ContentFormat::Fetch
    } else {
        success_format
    }
}

/// Whether the body of a response has a shape at all: not that of a change
/// that succeeded, and of failures only that of a bad request.
pub open spec fn has_shape(class: u8, detail: u8, success_format: ContentFormat) -> bool {
    if class == 2 {
        !(success_format == ContentFormat::Put || success_format == ContentFormat::Ipatch)
    } else {
        class == 4 && detail == 0
    }
}

/// The values in the body of a response.
pub open spec fn response_values(
    s: SchemaView,
    payload: Seq<u8>,
    cf: ContentFormat,
    d: Seq<DecimalView>,
) -> Result<Seq<Tree>, Seq<char>> {
    if is_sequence(cf) {
        sequence_decoded(s, payload, cf, d)
    } else {
        match tree_decoded(s, payload, cf, d) {
            Err(e) => Err(e),
            Ok(v) => Ok(seq![v]),
        }
    }
}

/// What is shown of a response: its one value, or a list of its values. A
/// body without a shape and one that cannot be decoded are described.
pub open spec fn response_shown(
    s: SchemaView,
    resp: Response,
    success_format: ContentFormat,
    d: Seq<DecimalView>,
) -> Option<Tree> {
    let n = resp.payload@.len() as int;
    if n == 0 {
        None
    } else if !has_shape(resp.code_class, resp.code_detail, success_format) {
        Some(
            Tree::Text(
                "<"@ + decimal_text(n) + " bytes, response code "@ + decimal_text(
                    resp.code_class as int,
                ) + "."@ + two_digits(resp.code_detail as int) + " has no defined body shape>"@,
            ),
        )
    } else {
        match response_values(
            s,
            resp.payload@,
            response_format(resp.content_format, success_format),
            d,
        ) {
            Err(e) => Some(
                Tree::Text(
                    "<could not decode "@ + decimal_text(n) + "-byte response payload: "@ + e
                        + ">"@,
                ),
            ),
            Ok(values) => Some(
                if values.len() == 1 {
                    values[0]
                } else {
                    Tree::Array(values)
                },
            ),
        }
    }
}

/// What is shown of a response.
pub fn decode_response_payload(
    schema: &Schema,
    resp: &Response,
    success_format: ContentFormat,
    decimals: &[DecimalText],
) -> (r: Option<Json>)
    requires
        schema.wf(),
    ensures
        match r {
            Some(v) => response_shown(
                schema@,
                *resp,
                success_format,
                decimal_views(decimals@),
            ) == Some(v@),
            None => response_shown(
                schema@,
                *resp,
                success_format,
                decimal_views(decimals@),
            ) is None,
        },
{
    if resp.payload.len() == 0 {
        return None;
    }
    let n = decimal(resp.payload.len() as i128);
    let shaped: bool = if resp.code_class == 2 {
        !(success_format == ContentFormat::Put || success_format == ContentFormat::Ipatch)
    } else {
        resp.code_class == 4 && resp.code_detail == 0
    };
    if !shaped {
        let class = decimal(resp.code_class as i128);
        let detail = pad_two(resp.code_detail);
        return Some(
            Json::String(
                cat7(
                    "<",
                    n.as_str(),
                    " bytes, response code ",
                    class.as_str(),
                    ".",
                    detail.as_str(),
                    " has no defined body shape>",
                ),
            ),
        );
    }
    let cf = match resp.content_format {
        Some(f) => if f == YANG_DATA_CBOR {
            ContentFormat::Yang
        } else if f == YANG_IDENTIFIERS_CBOR || f == YANG_INSTANCES_CBOR {
            ContentFormat::Fetch
        } else {
            success_format
        },
        None => success_format,
    };
    let payload = resp.payload.as_slice();
    let error = if cf.is_sequence() {
        match cbor_seq_to_json(schema, payload, cf, decimals) {
            Ok(mut values) => {
                let ghost all = trees(values@);
                if values.len() == 1 {
                    assert(all[0] == values@[0]@);
                    return values.pop();
                }
                return Some(Json::Array(values));
            },
            Err(e) => e,
        }
    } else {
        match cbor_to_json(schema, payload, cf, decimals) {
            Ok(v) => {
                return Some(v);
            },
            Err(e) => e,
        }
    };
    Some(
        Json::String(
            cat5(
                "<could not decode ",
                n.as_str(),
                "-byte response payload: ",
                error.0.as_str(),
                ">",
            ),
        ),
    )
}

/// What is shown of a request that failed.
pub open spec fn failure_shown(resp: Response) -> Option<Seq<char>> {
    if resp.code_class == 2 {
        None
    } else {
        Some(
            "ERROR: response code "@ + decimal_text(resp.code_class as int) + "."@ + two_digits(
                resp.code_detail as int,
            ),
        )
    }
}

/// What is shown of a request that failed.
pub fn show_failure(resp: &Response) -> (r: Option<String>)
    ensures
        opt_text(r) == failure_shown(*resp),
{
    if resp.code_class == 2 {
        return None;
    }
    let class = decimal(resp.code_class as i128);
    let detail = pad_two(resp.code_detail);
    Some(cat4("ERROR: response code ", class.as_str(), ".", detail.as_str()))
}

/// The body of the request for the checksum of a device's library of models:
/// a bare SID, since no schema is known yet.
pub fn checksum_request() -> (r: Vec<u8>)
    ensures
        r@ == encoding(Item::Integer(SID_CHECKSUM as int)),
{
    to_vec(&Cbor::Integer(SID_CHECKSUM as i128))
}

/// The checksum in a response, as hex digits: the value of the first entry.
pub open spec fn checksum_shown(resp: Response) -> Result<Seq<char>, Seq<char>> {
    if resp.code_class != 2 || resp.code_detail != 5 {
        Err(
            "couldn't get the device's YANG-library checksum (got CoAP response "@ + decimal_text(
                resp.code_class as int,
            ) + "."@ + two_digits(resp.code_detail as int)
                + " instead of the expected 2.05) -- is this really a VelocityDRIVE-SP device?"@,
        )
    } else {
        match item_at(resp.payload@, 0).0 {
            Err(e) => Err(
                "the device's checksum response could not be decoded as CBOR: "@ + e,
            ),
            Ok(Item::Entries(m)) => if m.len() == 0 {
                Err("the device's checksum response was empty"@)
            } else {
                match m[0].1 {
                    Item::Bytes(b) => Ok(hex_text(b, b.len() as int)),
                    _ => Err(
                        "the device's checksum response was malformed (expected raw bytes)"@,
                    ),
                }
            },
            Ok(_) => Err("the device's checksum response was malformed (expected a CBOR map)"@),
        }
    }
}

/// The checksum in a response, as hex digits.
pub fn checksum_in_response(resp: &Response) -> (r: Result<String, String>)
    ensures
        match r {
            Ok(s) => checksum_shown(*resp) == Ok::<Seq<char>, Seq<char>>(s@),
            Err(e) => checksum_shown(*resp) == Err::<Seq<char>, Seq<char>>(e@),
        },
{
    if resp.code_class != 2 || resp.code_detail != 5 {
        let class = decimal(resp.code_class as i128);
        let detail = pad_two(resp.code_detail);
        return Err(
            cat5(
                "couldn't get the device's YANG-library checksum (got CoAP response ",
                class.as_str(),
                ".",
                detail.as_str(),
                " instead of the expected 2.05) -- is this really a VelocityDRIVE-SP device?",
            ),
        );
    }
    let mut pos: usize = 0;
    let value = match from_slice(resp.payload.as_slice(), &mut pos) {
        Ok(v) => v,
        Err(e) => {
            return Err(
                cat(
                    "the device's checksum response could not be decoded as CBOR: ",
                    e.0.as_str(),
                ),
            );
        },
    };
    match value.as_map() {
        None => Err(owned("the device's checksum response was malformed (expected a CBOR map)")),
        Some(m) => {
            if m.len() == 0 {
                return Err(owned("the device's checksum response was empty"));
            }
            assert(entry_items(m@)[0] == (m@[0].0@, m@[0].1@));
            match m[0].1.as_bytes() {
                Some(b) => Ok(hex(b)),
                None => Err(
                    owned("the device's checksum response was malformed (expected raw bytes)"),
                ),
            }
        },
    }
}

/// What is shown of a frame that carries no message: console text, traces
/// and announcements.
pub open spec fn frame_shown(f: FrameView) -> Option<Seq<char>> {
    let text = lossy_text(f.data);
    if f.type_byte == TYPE_RAW {
        if trimmed(text).len() == 0 {
            None
        } else {
            Some("CON: "@ + quoted_text(trimmed(text)))
        }
    } else if f.type_byte == TRACE {
        Some("TRACE: "@ + quoted_text(text))
    } else if f.type_byte == ANNOUNCE {
        Some("ANNOUNCE: "@ + quoted_text(text))
    } else {
        None
    }
}

/// What is shown of a frame that carries no message.
pub fn show_frame(f: &Frame) -> (r: Option<String>)
    ensures
        opt_text(r) == frame_shown(f@),
{
    let text = from_utf8_lossy(f.data.as_slice());
    if f.type_byte == TYPE_RAW {
        let clean = trim(text.as_str());
        if clean.as_str().is_empty() {
            return None;
        }
        let q = quoted(clean.as_str());
        Some(cat("CON: ", q.as_str()))
    } else if f.type_byte == TRACE {
        let q = quoted(text.as_str());
        Some(cat("TRACE: ", q.as_str()))
    } else if f.type_byte == ANNOUNCE {
        let q = quoted(text.as_str());
        Some(cat("ANNOUNCE: ", q.as_str()))
    } else {
        None
    }
}

} // verus!
