//! What is told beside a result: the lines on errors that were passed over in
//! a request, and on what a response holds that has no name.
use vstd::prelude::*;

use crate::coap::content_format::{YANG_DATA_CBOR, YANG_IDENTIFIERS_CBOR, YANG_INSTANCES_CBOR};
use crate::coap::Response;
use crate::command::request::{
    fetch_entry, has_shape, normalize_fetch_request_items, opt_tree, response_format,
};
use crate::json::{lemma_json_view, Json, Tree};
use crate::text::{same, texts};
use crate::yang::bodies::ContentFormat;
use crate::yang::notices::{data_noted, notice_line, notices};
use crate::yang::scalars::{decimal_views, DecimalText, DecimalView};
use crate::yang::schema::{Schema, SchemaView};
use crate::yang::warnings::{data_warned, warning_line, warnings};

verus! {

broadcast use lemma_json_view;

/// The line on an error that was passed over.
pub open spec fn warned_line(message: Seq<char>) -> Seq<char> {
    "WARNING: "@ + message + " (continuing, --continue given)"@
}

/// The line on what has no name.
pub open spec fn noted_line(message: Seq<char>) -> Seq<char> {
    "WARNING: "@ + message
}

/// The lines on what is passed over in the data of a request.
pub open spec fn data_warned_lines(s: SchemaView, v: Tree, cf: ContentFormat) -> Seq<Seq<char>> {
    data_warned(s, v, cf).map_values(|m: Seq<char>| warned_line(m))
}

/// The lines on what is passed over in the input of a method. Paths to fetch
/// are taken as they are sent; some methods send no data.
pub open spec fn request_lines(s: SchemaView, method: Seq<char>, input: Option<Tree>) -> Seq<
    Seq<char>,
> {
    match input {
        None => Seq::empty(),
        Some(v) => if method == "fetch"@ {
            match v {
                Tree::Array(a) => data_warned_lines(
                    s,
                    Tree::Array(a.map_values(|e: Tree| fetch_entry(e))),
                    ContentFormat::Fetch,
                ),
                _ => Seq::empty(),
            }
        } else if method == "ipatch"@ {
            data_warned_lines(s, v, ContentFormat::Ipatch)
        } else if method == "put"@ {
            data_warned_lines(s, v, ContentFormat::Put)
        } else if method == "post"@ {
            data_warned_lines(s, v, ContentFormat::Post)
        } else {
            Seq::empty()
        },
    }
}

/// The lines on what has no name in data from a device.
pub open spec fn data_noted_lines(
    s: SchemaView,
    bytes: Seq<u8>,
    cf: ContentFormat,
    d: Seq<DecimalView>,
) -> Seq<Seq<char>> {
    data_noted(s, bytes, cf, d).map_values(|m: Seq<char>| noted_line(m))
}

/// The lines on what has no name in a response. A body without a shape is not
/// read.
pub open spec fn response_lines(
    s: SchemaView,
    resp: Response,
    success_format: ContentFormat,
    d: Seq<DecimalView>,
) -> Seq<Seq<char>> {
    if resp.payload@.len() > 0 && has_shape(resp.code_class, resp.code_detail, success_format) {
        data_noted_lines(
            s,
            resp.payload@,
            response_format(resp.content_format, success_format),
            d,
        )
    } else {
        Seq::empty()
    }
}

/// The lines on what is passed over in the data of a request, if errors in the
/// data are to be passed over.
pub fn data_warnings(schema: &Schema, v: &Json, cf: ContentFormat) -> (r: Vec<String>)
    requires
        schema.wf(),
    ensures
        texts(r@) == data_warned_lines(schema@, v@, cf),
{
    let found = warnings(schema, v, cf);
    let mut out: Vec<String> = Vec::new();
    let mut i: usize = 0;
    while i < found.len()
        invariant
            i <= found@.len(),
            out@.len() == i,
            forall|k: int| 0 <= k < i ==> (#[trigger] out@[k])@ == warned_line(found@[k]@),
        decreases found@.len() - i,
    {
        out.push(warning_line(found[i].as_str()));
        i += 1;
    }
    assert(texts(out@) =~= texts(found@).map_values(|m: Seq<char>| warned_line(m)));
    out
}

/// The lines on what is passed over in the input of a method, if errors in the
/// data are to be passed over.
pub fn request_warnings(schema: &Schema, method: &str, input: Option<&Json>) -> (r: Vec<String>)
    requires
        schema.wf(),
    ensures
        texts(r@) == request_lines(schema@, method@, opt_tree(input)),
{
    let none: Vec<String> = Vec::new();
    assert(texts(none@) =~= Seq::empty());
    let v = match input {
        Some(v) => v,
        None => {
            return none;
        },
    };
    if same(method, "fetch") {
        match v {
            Json::Array(a) => {
                let items = Json::Array(normalize_fetch_request_items(a.as_slice()));
                data_warnings(schema, &items, ContentFormat::Fetch)
            },
            _ => none,
        }
    } else if same(method, "ipatch") {
        data_warnings(schema, v, ContentFormat::Ipatch)
    } else if same(method, "put") {
        data_warnings(schema, v, ContentFormat::Put)
    } else if same(method, "post") {
        data_warnings(schema, v, ContentFormat::Post)
    } else {
        none
    }
}

/// The lines on what has no name in data from a device.
pub fn data_notices(
    schema: &Schema,
    bytes: &[u8],
    cf: ContentFormat,
    decimals: &[DecimalText],
) -> (r: Vec<String>)
    requires
        schema.wf(),
    ensures
        texts(r@) == data_noted_lines(schema@, bytes@, cf, decimal_views(decimals@)),
{
    let found = notices(schema, bytes, cf, decimals);
    let mut out: Vec<String> = Vec::new();
    let mut i: usize = 0;
    while i < found.len()
        invariant
            i <= found@.len(),
            out@.len() == i,
            forall|k: int| 0 <= k < i ==> (#[trigger] out@[k])@ == noted_line(found@[k]@),
        decreases found@.len() - i,
    {
        out.push(notice_line(found[i].as_str()));
        i += 1;
    }
    assert(texts(out@) =~= texts(found@).map_values(|m: Seq<char>| noted_line(m)));
    out
}

/// The lines on what has no name in a response.
pub fn response_notices(
    schema: &Schema,
    resp: &Response,
    success_format: ContentFormat,
    decimals: &[DecimalText],
) -> (r: Vec<String>)
    requires
        schema.wf(),
    ensures
        texts(r@) == response_lines(schema@, *resp, success_format, decimal_views(decimals@)),
{
    let shaped: bool = if resp.code_class == 2 {
        !(success_format == ContentFormat::Put || success_format == ContentFormat::Ipatch)
    } else {
        resp.code_class == 4 && resp.code_detail == 0
    };
    if resp.payload.len() == 0 || !shaped {
        let none: Vec<String> = Vec::new();
        assert(texts(none@) =~= Seq::empty());
        return none;
    }
    let cf = match resp.content_format {
        Some(f) => if f == YANG_DATA_CBOR {
            ContentFormat::Yang
        } else if f == YANG_IDENTIFIERS_CBOR || f == YANG_INSTANCES_CBOR {
            ContentFormat::Fetch
        } else {
            success_format
        },
        None => success_format,
    };
    data_notices(schema, resp.payload.as_slice(), cf, decimals)
}

} // verus!
