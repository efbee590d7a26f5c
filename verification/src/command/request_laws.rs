//! What a method sends to a device, and what is shown of its response.
use vstd::prelude::*;

use crate::cbor::encode::encoding;
use crate::cbor::laws::encodable;
use crate::cbor::value::Item;
use crate::coap::client::{begun, outgoing, ClientView, Response};
use crate::coap::message::{request_bytes, Method};
use crate::coap::wire_laws::{law_how_a_request_begins, law_request_header};
use crate::command::convert::{bytes_to_value, content_named, converted, value_to_bytes, ConvInput};
use crate::command::catalog::{kind_of, of_kind, FileKind};
use crate::command::formats::{chosen, parsed_as, rendered_as, Format};
use crate::command::options::{first_repeat, planned, query_group, repeats, Opts, PlanView};
use crate::command::request::{
    body_format, checksum_shown, failure_shown, fetch_entry, frame_shown, has_body, prepared,
    response_format, response_shown, sent_payload, url_for, PreparedView,
};
use crate::command::topology::Topology;
use crate::json::Tree;
use crate::mup1::checksum::ChecksumType;
use crate::mup1::frame::FrameView;
use crate::text::{has_end, joined, lossy_text, quoted_text, texts, trimmed};
use crate::yang::bodies::{is_sequence, ContentFormat};
use crate::yang::codec::{
    entries_bytes, entry_encoded, sequence_decoded, tree_decoded, tree_encoded,
};
use crate::yang::scalars::DecimalView;
use crate::yang::schema::SchemaView;
use crate::yang::tree_laws::{
    body_settled, entry_settled, law_entries_read_back, law_tree_reads_back,
};

verus! {

/// The names of the methods are different.
pub(crate) proof fn lemma_methods()
    ensures
        "fetch"@ != "ipatch"@,
        "fetch"@ != "get"@,
        "fetch"@ != "put"@,
        "fetch"@ != "post"@,
        "fetch"@ != "delete"@,
        "ipatch"@ != "get"@,
        "ipatch"@ != "put"@,
        "ipatch"@ != "post"@,
        "ipatch"@ != "delete"@,
        "get"@ != "put"@,
        "get"@ != "post"@,
        "get"@ != "delete"@,
        "put"@ != "post"@,
        "put"@ != "delete"@,
        "post"@ != "delete"@,
{
    reveal_strlit("fetch");
    reveal_strlit("ipatch");
    reveal_strlit("get");
    reveal_strlit("put");
    reveal_strlit("post");
    reveal_strlit("delete");
    assert("fetch"@.len() == 5 && "ipatch"@.len() == 6 && "get"@.len() == 3);
    assert("put"@.len() == 3 && "post"@.len() == 4 && "delete"@.len() == 6);
    assert("ipatch"@[0] == 'i' && "delete"@[0] == 'd' && "get"@[0] == 'g' && "put"@[0] == 'p');
}

/// The request of a method is of that method, and its body, if the method has
/// one, is the encoding of its input: a whole tree for `put`, a sequence of
/// entries for the others.
pub proof fn law_methods_send_their_input(s: SchemaView, v: Tree, cont: bool)
    ensures
        prepared(s, "get"@, Some(v), cont) matches Ok(p) && p.method == Method::Get
            && p.payload.len() == 0,
        prepared(s, "delete"@, Some(v), cont) matches Ok(p) && p.method == Method::Delete
            && p.payload.len() == 0,
        prepared(s, "put"@, Some(v), cont) matches Ok(p) ==> p.method == Method::Put
            && (tree_encoded(s, v, ContentFormat::Put, cont) matches Ok(item) && p.payload
            == encoding(item)),
        prepared(s, "put"@, Some(v), cont) is Ok <==> tree_encoded(s, v, ContentFormat::Put, cont)
            is Ok,
        prepared(s, "post"@, Some(v), cont) matches Ok(p) ==> p.method == Method::Post && v
            is Array && entries_bytes(
            s,
            v->Array_0,
            ContentFormat::Post,
            cont,
            v->Array_0.len() as int,
        ) == Ok::<Seq<u8>, Seq<char>>(p.payload),
        prepared(s, "ipatch"@, Some(v), cont) matches Ok(p) ==> p.method == Method::Ipatch && v
            is Array && entries_bytes(
            s,
            v->Array_0,
            ContentFormat::Ipatch,
            cont,
            v->Array_0.len() as int,
        ) == Ok::<Seq<u8>, Seq<char>>(p.payload),
        prepared(s, "fetch"@, Some(v), cont) matches Ok(p) ==> p.method == Method::Fetch && v
            is Array && ({
            let paths = Seq::new(v->Array_0.len(), |i: int| fetch_entry(v->Array_0[i]));
            entries_bytes(s, paths, ContentFormat::Fetch, cont, paths.len() as int) == Ok::<
                Seq<u8>,
                Seq<char>,
            >(p.payload)
        }),
        !(v is Array) ==> prepared(s, "fetch"@, Some(v), cont) is Err && prepared(
            s,
            "ipatch"@,
            Some(v),
            cont,
        ) is Err && prepared(s, "post"@, Some(v), cont) is Err,
{
    lemma_methods();
    if let Tree::Array(a) = v {
        assert(a.map_values(|v: Tree| fetch_entry(v)) =~= Seq::new(
            a.len(),
            |i: int| fetch_entry(a[i]),
        ));
    }
}

/// A method without its input is refused if it has a body, and a method that
/// there is not is refused.
pub proof fn law_input_is_needed(s: SchemaView, method: Seq<char>, cont: bool)
    ensures
        prepared(s, "put"@, None, cont) is Err,
        prepared(s, "post"@, None, cont) is Err,
        prepared(s, "ipatch"@, None, cont) is Err,
        prepared(s, "fetch"@, None, cont) is Err,
        prepared(s, "get"@, None, cont) is Ok,
        prepared(s, "delete"@, None, cont) is Ok,
        method != "get"@ && method != "delete"@ && method != "put"@ && method != "post"@ && method
            != "fetch"@ && method != "ipatch"@ ==> prepared(s, method, None, cont) is Err
            && !has_body(method),
        has_body("put"@) && has_body("post"@) && has_body("ipatch"@) && has_body("fetch"@),
        !has_body("get"@) && !has_body("delete"@),
{
    lemma_methods();
}

/// The message that a request begins with has the code of its method, the path
/// that is given, and the content format of its body: 140 for a whole tree, 141
/// for paths, 142 for paths with values; GET and DELETE have no body.
pub proof fn law_requests_name_their_format(
    c: ClientView,
    p: PreparedView,
    url: Seq<char>,
    now_ms: u64,
)
    requires
        c.block_size == 16 || c.block_size == 32 || c.block_size == 64 || c.block_size == 128
            || c.block_size == 256 || c.block_size == 512 || c.block_size == 1024,
        p.payload.len() <= c.block_size,
        now_ms + 3000 <= u64::MAX,
    ensures
        ({
            let x = begun(c, p.method, url, body_format(p.method), None, sent_payload(p), now_ms);
            let m = outgoing(x);
            let code = request_bytes(m)[1];
            &&& m.uri == url
            &&& m.accept is None
            &&& p.method == Method::Get ==> code == 1 && m.content_format is None
                && m.payload.len() == 0
            &&& p.method == Method::Post ==> code == 2 && m.content_format == Some(142u16)
                && m.payload == p.payload
            &&& p.method == Method::Put ==> code == 3 && m.content_format == Some(140u16)
                && m.payload == p.payload
            &&& p.method == Method::Delete ==> code == 4 && m.content_format is None
                && m.payload.len() == 0
            &&& p.method == Method::Fetch ==> code == 5 && m.content_format == Some(141u16)
                && m.payload == p.payload
            &&& p.method == Method::Ipatch ==> code == 7 && m.content_format == Some(142u16)
                && m.payload == p.payload
        }),
{
    let x = begun(c, p.method, url, body_format(p.method), None, sent_payload(p), now_ms);
    law_how_a_request_begins(
        c,
        p.method,
        url,
        body_format(p.method),
        None,
        sent_payload(p),
        now_ms,
    );
    law_request_header(outgoing(x));
}

/// A success response of content format 141 or 142 whose payload is a sequence
/// of entries is shown as those entries: what entries encode to is shown as the
/// entries, one by itself and several as a list.
pub proof fn law_instances_are_shown(
    s: SchemaView,
    a: Seq<Tree>,
    resp: Response,
    success_format: ContentFormat,
    d: Seq<DecimalView>,
)
    requires
        resp.code_class == 2,
        resp.content_format == Some(142u16) || resp.content_format == Some(141u16),
        success_format != ContentFormat::Put,
        success_format != ContentFormat::Ipatch,
        resp.payload@.len() > 0,
        forall|i: int| 0 <= i < a.len() ==> entry_settled(s, #[trigger] a[i], d),
        entries_bytes(s, a, ContentFormat::Fetch, false, a.len() as int) == Ok::<
            Seq<u8>,
            Seq<char>,
        >(resp.payload@),
        forall|i: int|
            0 <= i < a.len() ==> encodable(
                entry_encoded(s, #[trigger] a[i], ContentFormat::Fetch, false)->Ok_0,
            ),
    ensures
        response_shown(s, resp, success_format, d) == Some(
            if a.len() == 1 {
                a[0]
            } else {
                Tree::Array(a)
            },
        ),
{
    law_entries_read_back(s, a, ContentFormat::Fetch, d, resp.payload@);
}

/// A success response of content format 140 whose payload is a whole tree is
/// shown as that tree: what a tree encodes to is shown as the tree.
pub proof fn law_trees_are_shown(
    s: SchemaView,
    m: Seq<(Seq<char>, Tree)>,
    item: Item,
    resp: Response,
    success_format: ContentFormat,
    d: Seq<DecimalView>,
)
    requires
        resp.code_class == 2,
        resp.content_format == Some(140u16),
        success_format != ContentFormat::Put,
        success_format != ContentFormat::Ipatch,
        resp.payload@.len() > 0,
        body_settled(s, s.root, m, d),
        tree_encoded(s, Tree::Object(m), ContentFormat::Yang, false) == Ok::<Item, Seq<char>>(item),
        encodable(item),
        resp.payload@ == encoding(item),
    ensures
        response_shown(s, resp, success_format, d) == Some(Tree::Object(m)),
{
    law_tree_reads_back(s, m, ContentFormat::Yang, d, item);
}

/// The content format of a response decides how it is read; without one, or
/// with an unknown one, it is read as the method expects.
pub proof fn law_content_formats_decide(f: u16, method: ContentFormat)
    ensures
        response_format(Some(140u16), method) == ContentFormat::Yang,
        response_format(Some(141u16), method) == ContentFormat::Fetch,
        response_format(Some(142u16), method) == ContentFormat::Fetch,
        response_format(None, method) == method,
        f != 140 && f != 141 && f != 142 ==> response_format(Some(f), method) == method,
        is_sequence(ContentFormat::Fetch),
        is_sequence(ContentFormat::Ipatch),
        is_sequence(ContentFormat::Post),
        !is_sequence(ContentFormat::Yang),
        !is_sequence(ContentFormat::Get),
        !is_sequence(ContentFormat::Put),
{
}

/// Nothing is shown of an empty body. A body is read if the request succeeded,
/// unless it was a change, and if the device found the request bad, which is
/// 4.00; any other body is only described.
pub proof fn law_bodies_that_are_read(
    s: SchemaView,
    resp: Response,
    success_format: ContentFormat,
    d: Seq<DecimalView>,
)
    ensures
        resp.payload@.len() == 0 <==> response_shown(s, resp, success_format, d) is None,
        ({
            let change = success_format == ContentFormat::Put || success_format
                == ContentFormat::Ipatch;
            let read = (resp.code_class == 2 && !change) || (resp.code_class == 4
                && resp.code_detail == 0);
            let cf = response_format(resp.content_format, success_format);
            &&& resp.payload@.len() > 0 && !read ==> (response_shown(
                s,
                resp,
                success_format,
                d,
            ) matches Some(v) && v is Text)
            &&& resp.payload@.len() > 0 && read && !is_sequence(cf) ==> (tree_decoded(
                s,
                resp.payload@,
                cf,
                d,
            ) matches Ok(v) ==> response_shown(s, resp, success_format, d) == Some(v))
            &&& resp.payload@.len() > 0 && read && is_sequence(cf) ==> (sequence_decoded(
                s,
                resp.payload@,
                cf,
                d,
            ) matches Ok(a) ==> response_shown(s, resp, success_format, d) == Some(
                if a.len() == 1 {
                    a[0]
                } else {
                    Tree::Array(a)
                },
            ))
        }),
{
}

/// A failure is told exactly if the class of the response is not 2.
pub proof fn law_failures_are_told(resp: Response)
    ensures
        failure_shown(resp) is None <==> resp.code_class == 2,
{
}

/// A checksum is read only from a 2.05 response that holds a table, from the
/// value of its first entry.
pub proof fn law_checksum_of_a_response(resp: Response)
    ensures
        checksum_shown(resp) matches Ok(t) ==> {
            &&& resp.code_class == 2 && resp.code_detail == 5
            &&& crate::cbor::decode::item_at(resp.payload@, 0).0 matches Ok(Item::Entries(m))
                && m.len() > 0 && m[0].1 is Bytes && t.len() == 2 * m[0].1->Bytes_0.len()
        },
{
    if checksum_shown(resp) is Ok {
        let m = crate::cbor::decode::item_at(resp.payload@, 0).0->Ok_0->Entries_0;
        lemma_hex_length(m[0].1->Bytes_0, m[0].1->Bytes_0.len() as int);
    }
}

proof fn lemma_hex_length(b: Seq<u8>, n: int)
    requires
        0 <= n <= b.len(),
    ensures
        crate::text::hex_text(b, n).len() == 2 * n,
    decreases n,
{
    if n > 0 {
        lemma_hex_length(b, n - 1);
    }
}

/// Query parameters go behind the path, a question mark in front of them and
/// ampersands between them; only `fetch` and `get` take them.
pub proof fn law_query_goes_behind_the_path(base: Seq<char>, a: Seq<char>, b: Seq<char>)
    ensures
        url_for(base, Seq::empty(), "put"@) == Ok::<Seq<char>, Seq<char>>(base),
        url_for(base, seq![a], "fetch"@) == Ok::<Seq<char>, Seq<char>>(base + seq!['?'] + a),
        url_for(base, seq![a, b], "get"@) == Ok::<Seq<char>, Seq<char>>(
            base + seq!['?'] + (a + seq!['&'] + b),
        ),
        url_for(base, seq![a], "put"@) is Err,
        url_for(base, seq![a], "post"@) is Err,
        url_for(base, seq![a], "ipatch"@) is Err,
        url_for(base, seq![a], "delete"@) is Err,
{
    lemma_methods();
    reveal_strlit("?");
    reveal_strlit("&");
    assert("?"@ =~= seq!['?']);
    assert("&"@ =~= seq!['&']);
    reveal_with_fuel(joined, 3);
    assert(seq![a, b].drop_last() =~= seq![a]);
    assert(joined(seq![a, b], "&"@) =~= a + seq!['&'] + b);
}

/// Of frames that carry no message, text outside of frames, traces and
/// announcements are shown, and nothing else is.
pub proof fn law_frames_that_are_shown(f: FrameView)
    ensures
        frame_shown(f) is Some <==> (f.type_byte == 0xFF && trimmed(lossy_text(f.data)).len() > 0)
            || f.type_byte == 0x54 || f.type_byte == 0x41,
        f.type_byte == 0x54 || f.type_byte == 0x41 ==> (frame_shown(f) matches Some(t) && t.len()
            > quoted_text(lossy_text(f.data)).len() && t.subrange(
            t.len() - quoted_text(lossy_text(f.data)).len(),
            t.len() as int,
        ) == quoted_text(lossy_text(f.data))),
{
    reveal_strlit("TRACE: ");
    reveal_strlit("ANNOUNCE: ");
    let q = quoted_text(lossy_text(f.data));
    let a = "TRACE: "@ + q;
    let b = "ANNOUNCE: "@ + q;
    assert(a.subrange(a.len() - q.len(), a.len() as int) =~= q);
    assert(b.subrange(b.len() - q.len(), b.len() as int) =~= q);
}

/// A conversion from text to bytes is the encoding of what the text stands for,
/// one from bytes to text the text of what they are decoded to, and one from
/// text to text the same value in the other format.
pub proof fn law_conversions_keep_the_value(
    s: SchemaView,
    v: Tree,
    cf: ContentFormat,
    cont: bool,
    text: ConvInput,
    bytes: ConvInput,
    d: Seq<DecimalView>,
)
    requires
        text is Text,
        bytes is Bytes,
        parsed_as(text->Text_0@, Format::Json) == Ok::<Tree, Seq<char>>(v),
    ensures
        converted(s, "json"@, "cbor"@, cf, cont, text, d) matches Ok(out) ==> out is Bytes
            && value_to_bytes(s, v, cf, cont) == Ok::<Seq<u8>, Seq<char>>(out->Bytes_0),
        converted(s, "json"@, "yaml"@, cf, cont, text, d) matches Ok(out) ==> out is Text
            && rendered_as(v, Format::Yaml) == Ok::<Seq<char>, Seq<char>>(out->Text_0),
        converted(s, "cbor"@, "json"@, cf, cont, bytes, d) matches Ok(out) ==> out is Text
            && (bytes_to_value(s, bytes->Bytes_0@, cf, d) matches Ok(w) && rendered_as(
            w,
            Format::Json,
        ) == Ok::<Seq<char>, Seq<char>>(out->Text_0)),
        converted(s, "cbor"@, "yaml"@, cf, cont, bytes, d) matches Ok(out) ==> out is Text
            && (bytes_to_value(s, bytes->Bytes_0@, cf, d) matches Ok(w) && rendered_as(
            w,
            Format::Yaml,
        ) == Ok::<Seq<char>, Seq<char>>(out->Text_0)),
{
    reveal_strlit("json");
    reveal_strlit("yaml");
    reveal_strlit("cbor");
    assert("json"@[0] == 'j' && "yaml"@[0] == 'y' && "cbor"@[0] == 'c');
}

/// The content of a conversion by its name: a sequence of entries for `fetch`,
/// `ipatch` and `post`, a whole tree for all others.
pub proof fn law_contents_by_name(name: Seq<char>)
    ensures
        content_named("fetch"@) == ContentFormat::Fetch,
        content_named("ipatch"@) == ContentFormat::Ipatch,
        content_named("post"@) == ContentFormat::Post,
        content_named("put"@) == ContentFormat::Put,
        content_named("get"@) == ContentFormat::Get,
        is_sequence(content_named(name)) <==> name == "fetch"@ || name == "ipatch"@ || name
            == "post"@,
{
    lemma_methods();
}

/// The format of a file is the one that is asked for, else the one that the end
/// of its name tells, else YAML.
pub proof fn law_formats_by_name(path: Seq<char>, stem: Seq<char>)
    ensures
        chosen(Some(path), Some("json"@)) == Format::Json,
        chosen(Some(path), Some("yaml"@)) == Format::Yaml,
        chosen(Some(stem + "json"@), None) == Format::Json,
        chosen(Some(stem + "yaml"@), None) == Format::Yaml,
        chosen(None, None) == Format::Yaml,
        chosen(None, Some("json"@)) == Format::Json,
{
    reveal_strlit("json");
    reveal_strlit("yaml");
    assert("json"@[0] == 'j' && "yaml"@[0] == 'y');
    let a = stem + "json"@;
    let b = stem + "yaml"@;
    assert(a.subrange(a.len() - 4, a.len() as int) =~= "json"@);
    assert(b.subrange(b.len() - 4, b.len() as int) =~= "yaml"@);
}

/// A file is a module or a SID file by the end of its name, and data otherwise.
pub proof fn law_files_by_name(stem: Seq<char>, name: Seq<char>)
    ensures
        kind_of(stem + ".yang"@) == FileKind::Yang,
        kind_of(stem + ".sid"@) == FileKind::Sid,
        kind_of(name) == FileKind::Other <==> !has_end(name, ".yang"@) && !has_end(name, ".sid"@),
{
    reveal_strlit(".yang");
    reveal_strlit(".sid");
    let a = stem + ".yang"@;
    let b = stem + ".sid"@;
    assert(a.subrange(a.len() - 5, a.len() as int) =~= ".yang"@);
    assert(b.subrange(b.len() - 4, b.len() as int) =~= ".sid"@);
    if b.len() >= 5 {
        assert(b.subrange(b.len() - 5, b.len() as int)[4] == 'd');
        assert(".yang"@[4] == 'g');
    }
}

/// The names of a kind are exactly those of the kind, in their order.
pub proof fn law_files_keep_their_order(files: Seq<Seq<char>>, kind: FileKind, n: int)
    requires
        0 <= n <= files.len(),
    ensures
        of_kind(files, kind, n) == files.subrange(0, n).filter(|f: Seq<char>| kind_of(f) == kind),
    decreases n,
{
    reveal(Seq::filter);
    if n > 0 {
        law_files_keep_their_order(files, kind, n - 1);
        assert(files.subrange(0, n).drop_last() =~= files.subrange(0, n - 1));
    } else {
        assert(files.subrange(0, 0) =~= Seq::empty());
    }
}

/// The plan of a run: the device that is asked for, else that of the setup; the
/// method that is asked for; the checksum by its name; and the catalog of the
/// workspace if it is asked for, or if there is a setup and it is not declined.
/// There is none for a key, or for two query parameters that begin with the same
/// two bytes.
pub proof fn law_plan_of_a_run(o: Opts, t: Option<Topology>, p: PlanView)
    requires
        planned(o, t) == Ok::<PlanView, Seq<char>>(p),
    ensures
        o.key is None,
        o.method matches Some(m) && p.method == m@,
        o.device matches Some(d) ==> p.device == d@,
        o.device is None ==> t is Some && t->0.dut.terminal is Some && p.device
            == t->0.dut.terminal->0@,
        p.checksum_type == ChecksumType::Crc32 <==> o.checksum_type@ == "crc32"@,
        p.use_workspace <==> o.workspace || (!o.no_workspace && t is Some),
        forall|i: int, j: int|
            0 <= i < j < o.query@.len() ==> query_group(#[trigger] o.query@[i]@) != query_group(
                #[trigger] o.query@[j]@,
            ),
{
    let query = texts(o.query@);
    lemma_no_repeat(query, 0);
    assert forall|i: int, j: int| 0 <= i < j < o.query@.len() implies query_group(
        #[trigger] o.query@[i]@,
    ) != query_group(#[trigger] o.query@[j]@) by {
        assert(query[i] == o.query@[i]@);
        assert(query[j] == o.query@[j]@);
        assert(!repeats(query, j));
    }
}

proof fn lemma_no_repeat(query: Seq<Seq<char>>, from: int)
    requires
        0 <= from,
        first_repeat(query, from) is None,
    ensures
        forall|j: int| from <= j < query.len() ==> !#[trigger] repeats(query, j),
    decreases query.len() - from,
{
    if from < query.len() {
        lemma_no_repeat(query, from + 1);
    }
}

} // verus!
