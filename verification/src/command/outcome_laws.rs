//! What comes out of a run: lines, files, conversions and checksums.
use vstd::prelude::*;
use vstd::utf8::{encode_utf8, is_ascii_chars, is_ascii_chars_encode_utf8};

use crate::cbor::decode::item_at;
use crate::cbor::value::Item;
use crate::coap::client::Response;
use crate::command::catalog::{kind_of, kind_of_extension, mirrors, module_file, FileKind};
use crate::command::convert::{
    bytes_to_value, conversion_planned, converted, description_planned, value_to_bytes, ConvInput,
    OutputView,
};
use crate::command::formats::{lines_end, parsed_as, rendered_as, worth_writing, Format};
use crate::command::messages::{data_noted_lines, request_lines, response_lines};
use crate::command::options::{first_repeat, planned, query_group, repeats, Opts};
use crate::command::request::{checksum_shown, failure_shown, fetch_entry, frame_shown};
use crate::command::request_laws::{law_files_keep_their_order, lemma_methods};
use crate::command::topology::Topology;
use crate::json::Tree;
use crate::mup1::frame::FrameView;
use crate::text::{
    decimal_text, has_end, index_from, lossy_text, quoted_text, texts, trimmed, two_digits,
};
use crate::text_laws::{free_of, law_bytes_in_hex};
use crate::yang::bodies::ContentFormat;
use crate::yang::notices::data_noted;
use crate::yang::scalars::DecimalView;
use crate::yang::schema::SchemaView;
use crate::yang::warnings::data_warned;

verus! {

/// The names of formats are not the same.
proof fn lemma_formats()
    ensures
        "json"@ != "yaml"@,
        "json"@ != "cbor"@,
        "yaml"@ != "cbor"@,
{
    reveal_strlit("json");
    reveal_strlit("yaml");
    reveal_strlit("cbor");
    assert("json"@[0] == 'j' && "yaml"@[0] == 'y' && "cbor"@[0] == 'c');
}

/// What can be read, encoded or rendered is converted: text to bytes, text to
/// the other kind of text, and bytes to text, each by the names of both.
pub proof fn law_conversions_succeed(
    s: SchemaView,
    v: Tree,
    cf: ContentFormat,
    cont: bool,
    text: ConvInput,
    bytes: ConvInput,
    d: Seq<DecimalView>,
)
    requires
        text is Text,
        bytes is Bytes,
    ensures
        parsed_as(text->Text_0@, Format::Json) == Ok::<Tree, Seq<char>>(v) ==> (value_to_bytes(
            s,
            v,
            cf,
            cont,
        ) matches Ok(b) ==> converted(s, "json"@, "cbor"@, cf, cont, text, d) == Ok::<
            OutputView,
            Seq<char>,
        >(OutputView::Bytes(b))),
        parsed_as(text->Text_0@, Format::Yaml) == Ok::<Tree, Seq<char>>(v) ==> (value_to_bytes(
            s,
            v,
            cf,
            cont,
        ) matches Ok(b) ==> converted(s, "yaml"@, "cbor"@, cf, cont, text, d) == Ok::<
            OutputView,
            Seq<char>,
        >(OutputView::Bytes(b))),
        bytes_to_value(s, bytes->Bytes_0@, cf, d) == Ok::<Tree, Seq<char>>(v) ==> {
            &&& rendered_as(v, Format::Json) matches Ok(t) ==> converted(
                s,
                "cbor"@,
                "json"@,
                cf,
                cont,
                bytes,
                d,
            ) == Ok::<OutputView, Seq<char>>(OutputView::Text(t))
            &&& rendered_as(v, Format::Yaml) matches Ok(t) ==> converted(
                s,
                "cbor"@,
                "yaml"@,
                cf,
                cont,
                bytes,
                d,
            ) == Ok::<OutputView, Seq<char>>(OutputView::Text(t))
        },
{
    lemma_formats();
}

/// What is passed over in the input of a method is told line by line, each with
/// a warning before it and the reason why the run goes on behind it. Paths to
/// fetch are taken as they are sent. Methods without a body tell nothing.
pub proof fn law_warnings_line_by_line(s: SchemaView, v: Tree, a: Seq<Tree>)
    ensures
        ({
            let line = |m: Seq<char>| "WARNING: "@ + m + " (continuing, --continue given)"@;
            &&& request_lines(s, "put"@, Some(v)) == data_warned(s, v, ContentFormat::Put).map_values(
                line,
            )
            &&& request_lines(s, "post"@, Some(v)) == data_warned(
                s,
                v,
                ContentFormat::Post,
            ).map_values(line)
            &&& request_lines(s, "ipatch"@, Some(v)) == data_warned(
                s,
                v,
                ContentFormat::Ipatch,
            ).map_values(line)
            &&& request_lines(s, "fetch"@, Some(Tree::Array(a))) == data_warned(
                s,
                Tree::Array(a.map_values(|e: Tree| fetch_entry(e))),
                ContentFormat::Fetch,
            ).map_values(line)
            &&& request_lines(s, "get"@, Some(v)).len() == 0
            &&& request_lines(s, "delete"@, Some(v)).len() == 0
        }),
{
    lemma_methods();
    let line = |m: Seq<char>| "WARNING: "@ + m + " (continuing, --continue given)"@;
    assert(request_lines(s, "put"@, Some(v)) =~= data_warned(s, v, ContentFormat::Put).map_values(
        line,
    ));
    assert(request_lines(s, "post"@, Some(v)) =~= data_warned(s, v, ContentFormat::Post).map_values(
        line,
    ));
    assert(request_lines(s, "ipatch"@, Some(v)) =~= data_warned(
        s,
        v,
        ContentFormat::Ipatch,
    ).map_values(line));
    assert(request_lines(s, "fetch"@, Some(Tree::Array(a))) =~= data_warned(
        s,
        Tree::Array(a.map_values(|e: Tree| fetch_entry(e))),
        ContentFormat::Fetch,
    ).map_values(line));
}

/// A path with a null is fetched like the path alone; any other entry is taken
/// as it is.
pub proof fn law_paths_are_fetched(path: Seq<char>, m: Seq<(Seq<char>, Tree)>, v: Tree)
    ensures
        fetch_entry(Tree::Object(seq![(path, Tree::Null)])) == Tree::Text(path),
        m.len() != 1 || !(m[0].1 is Null) ==> fetch_entry(Tree::Object(m)) == Tree::Object(m),
        !(v is Object) ==> fetch_entry(v) == v,
{
}

/// What has no name in a response is told line by line, each with a warning
/// before it; nothing is told of a body that is not read.
pub proof fn law_notices_line_by_line(
    s: SchemaView,
    resp: Response,
    success_format: ContentFormat,
    d: Seq<DecimalView>,
    bytes: Seq<u8>,
    cf: ContentFormat,
)
    ensures
        data_noted_lines(s, bytes, cf, d) == data_noted(s, bytes, cf, d).map_values(
            |m: Seq<char>| "WARNING: "@ + m,
        ),
        resp.payload@.len() == 0 ==> response_lines(s, resp, success_format, d).len() == 0,
        resp.code_class != 2 && !(resp.code_class == 4 && resp.code_detail == 0) ==> response_lines(
            s,
            resp,
            success_format,
            d,
        ).len() == 0,
{
    assert(data_noted_lines(s, bytes, cf, d) =~= data_noted(s, bytes, cf, d).map_values(
        |m: Seq<char>| "WARNING: "@ + m,
    ));
}

/// What a text ends with: line feeds alone behind the place that is found, and
/// none right before it.
pub proof fn law_line_feeds_at_the_end(s: Seq<char>, n: int)
    requires
        0 <= n <= s.len(),
    ensures
        0 <= lines_end(s, n) <= n,
        forall|i: int| lines_end(s, n) <= i < n ==> #[trigger] s[i] == '\n',
        lines_end(s, n) > 0 ==> s[lines_end(s, n) - 1] != '\n',
    decreases n,
{
    if n > 0 && s[n - 1] == '\n' {
        law_line_feeds_at_the_end(s, n - 1);
    }
}

/// Null, an empty list and an empty object are not worth writing; all else is.
pub proof fn law_what_is_worth_writing(v: Tree)
    ensures
        worth_writing(v) <==> !(v is Null) && v != Tree::Array(Seq::empty()) && v != Tree::Object(
            Seq::empty(),
        ),
{
    match v {
        Tree::Array(a) => {
            if a.len() == 0 {
                assert(a =~= Seq::empty());
            }
        },
        Tree::Object(m) => {
            if m.len() == 0 {
                assert(m =~= Seq::empty());
            }
        },
        _ => {},
    }
}

/// The module of a SID file is in the file of the name that stands before the
/// revision.
pub proof fn law_modules_of_sid_files(name: Seq<char>, revision: Seq<char>)
    requires
        free_of(name, '@'),
    ensures
        module_file(name + "@"@ + revision) == name + ".yang"@,
        module_file(name) == name + ".yang"@,
{
    reveal_strlit("@");
    let entry = name + "@"@ + revision;
    lemma_at(name, revision, 0);
    assert(entry.subrange(0, name.len() as int) =~= name);
    assert(name.subrange(0, name.len() as int) =~= name);
}

/// The first at sign.
proof fn lemma_at(name: Seq<char>, revision: Seq<char>, from: int)
    requires
        free_of(name, '@'),
        0 <= from <= name.len(),
    ensures
        index_from(name + "@"@ + revision, '@', from) == name.len(),
        index_from(name, '@', from) == name.len(),
    decreases name.len() - from,
{
    reveal_strlit("@");
    let entry = name + "@"@ + revision;
    if from < name.len() {
        assert(entry[from] == name[from]);
        lemma_at(name, revision, from + 1);
    } else {
        assert(entry[from] == '@');
    }
}

/// The files of a kind among others, in their order.
pub open spec fn those(files: Seq<Seq<char>>, kind: FileKind) -> Seq<Seq<char>> {
    files.filter(|f: Seq<char>| kind_of(f) == kind)
}

/// A conversion takes at most one file with data, and modules and SID files both
/// or neither; it fails exactly otherwise.
pub proof fn law_files_of_a_conversion(files: Seq<Seq<char>>)
    ensures
        ({
            let yangs = those(files, FileKind::Yang);
            let sids = those(files, FileKind::Sid);
            let rest = those(files, FileKind::Other);
            let good = rest.len() <= 1 && (yangs.len() > 0 <==> sids.len() > 0);
            &&& good <==> conversion_planned(files) is Ok
            &&& conversion_planned(files) matches Ok(p) ==> p.yangs == yangs && p.sids == sids && (
            rest.len() == 0 ==> p.data_file is None) && (rest.len() == 1 ==> p.data_file == Some(
                rest[0],
            ))
        }),
{
    let n = files.len() as int;
    law_files_keep_their_order(files, FileKind::Yang, n);
    law_files_keep_their_order(files, FileKind::Sid, n);
    law_files_keep_their_order(files, FileKind::Other, n);
    assert(files.subrange(0, n) =~= files);
}

/// A description takes modules alone.
pub proof fn law_files_of_a_description(files: Seq<Seq<char>>)
    ensures
        ({
            let good = those(files, FileKind::Sid).len() == 0 && those(
                files,
                FileKind::Other,
            ).len() == 0;
            &&& good <==> description_planned(files) is Ok
            &&& good ==> description_planned(files) == Ok::<Seq<Seq<char>>, Seq<char>>(
                those(files, FileKind::Yang),
            )
        }),
{
    let n = files.len() as int;
    law_files_keep_their_order(files, FileKind::Yang, n);
    law_files_keep_their_order(files, FileKind::Sid, n);
    law_files_keep_their_order(files, FileKind::Other, n);
    assert(files.subrange(0, n) =~= files);
}

/// A run can be planned where no two query parameters are of one group, there is
/// no key, and a device and a method are given.
pub proof fn law_runs_can_be_planned(o: Opts, t: Option<Topology>)
    requires
        forall|i: int, j: int|
            0 <= i < j < o.query@.len() ==> query_group(#[trigger] o.query@[i]@) != query_group(
                #[trigger] o.query@[j]@,
            ),
        o.key is None,
        o.method is Some,
        o.device is Some,
    ensures
        planned(o, t) is Ok,
{
    let query = texts(o.query@);
    assert forall|j: int| 0 <= j < query.len() implies !#[trigger] repeats(query, j) by {
        if repeats(query, j) {
            let i = choose|k: int|
                0 <= k < j && query_group(#[trigger] query[k]) == query_group(query[j]);
            assert(query[i] == o.query@[i]@ && query[j] == o.query@[j]@);
        }
    }
    lemma_no_repeat(query, 0);
}

/// Nothing is repeated.
proof fn lemma_no_repeat(query: Seq<Seq<char>>, from: int)
    requires
        0 <= from,
        forall|j: int| 0 <= j < query.len() ==> !#[trigger] repeats(query, j),
    ensures
        first_repeat(query, from) is None,
    decreases query.len() - from,
{
    if from < query.len() {
        assert(!repeats(query, from));
        lemma_no_repeat(query, from + 1);
    }
}

/// Query parameters are of one group exactly where they begin with the same two
/// characters, as far as these are plain.
pub proof fn law_groups_of_parameters(a: Seq<char>, b: Seq<char>)
    requires
        is_ascii_chars(a),
        is_ascii_chars(b),
        a.len() >= 2,
        b.len() >= 2,
    ensures
        query_group(a) == query_group(b) <==> a[0] == b[0] && a[1] == b[1],
{
    is_ascii_chars_encode_utf8(a);
    is_ascii_chars_encode_utf8(b);
    let x = query_group(a);
    let y = query_group(b);
    assert(a[0] as u8 == encode_utf8(a)[0] && a[1] as u8 == encode_utf8(a)[1]);
    assert(b[0] as u8 == encode_utf8(b)[0] && b[1] as u8 == encode_utf8(b)[1]);
    if encode_utf8(a).len() == 2 {
        assert(encode_utf8(a).subrange(0, 2) =~= encode_utf8(a));
    }
    if encode_utf8(b).len() == 2 {
        assert(encode_utf8(b).subrange(0, 2) =~= encode_utf8(b));
    }
    assert(x == encode_utf8(a).subrange(0, 2));
    assert(y == encode_utf8(b).subrange(0, 2));
    assert(x[0] == a[0] as u8 && x[1] == a[1] as u8 && y[0] == b[0] as u8 && y[1] == b[1] as u8);
    if a[0] == b[0] && a[1] == b[1] {
        assert(x =~= y);
    }
}

/// The checksum in a 2.05 response to the request for it is the hex text of the
/// bytes in the first entry.
pub proof fn law_checksums_are_shown(
    resp: Response,
    m: Seq<(Item, Item)>,
    b: Seq<u8>,
    p: int,
    i: int,
)
    requires
        item_at(resp.payload@, 0) == (Ok::<Item, Seq<char>>(Item::Entries(m)), p),
        m.len() > 0,
        m[0].1 == Item::Bytes(b),
        0 <= i < b.len(),
    ensures
        resp.code_class == 2 && resp.code_detail == 5 ==> (checksum_shown(resp) matches Ok(t)
            && t.len() == 2 * b.len() && t[2 * i] == "0123456789abcdef"@[b[i] as int / 16] && t[2 * i
            + 1] == "0123456789abcdef"@[b[i] as int % 16]),
        !(resp.code_class == 2 && resp.code_detail == 5) ==> checksum_shown(resp) is Err,
{
    law_bytes_in_hex(b, b.len() as int, i);
}

/// What is told of a failure is its code in two parts.
pub proof fn law_codes_of_failures(resp: Response)
    requires
        resp.code_class != 2,
    ensures
        failure_shown(resp) == Some(
            "ERROR: response code "@ + decimal_text(resp.code_class as int) + "."@ + two_digits(
                resp.code_detail as int,
            ),
        ),
{
}

/// Of text outside of frames what is shown is the text without white space round
/// it; traces and announcements are shown whole. Each is named by its kind.
pub proof fn law_frames_by_their_kind(f: FrameView)
    ensures
        f.type_byte == 0xFF && trimmed(lossy_text(f.data)).len() > 0 ==> frame_shown(f) == Some(
            "CON: "@ + quoted_text(trimmed(lossy_text(f.data))),
        ),
        f.type_byte == 0x54 ==> frame_shown(f) == Some("TRACE: "@ + quoted_text(lossy_text(f.data))),
        f.type_byte == 0x41 ==> frame_shown(f) == Some(
            "ANNOUNCE: "@ + quoted_text(lossy_text(f.data)),
        ),
{
}

/// The kind of a file by its extension is the one by its name.
pub proof fn law_extensions_tell_the_kind(stem: Seq<char>, extension: Seq<char>)
    requires
        free_of(extension, '.'),
    ensures
        kind_of_extension(extension) == kind_of(stem + "."@ + extension),
{
    reveal_strlit(".");
    reveal_strlit(".yang");
    reveal_strlit(".sid");
    reveal_strlit("yang");
    reveal_strlit("sid");
    let name = stem + "."@ + extension;
    let n = name.len() as int;
    assert("yang"@.len() == 4 && "sid"@.len() == 3 && ".yang"@.len() == 5 && ".sid"@.len() == 4);
    if extension == "yang"@ {
        assert(name.subrange(n - 5, n) =~= ".yang"@);
    }
    if extension == "sid"@ {
        assert(name.subrange(n - 4, n) =~= ".sid"@);
        if n >= 5 {
            assert(name.subrange(n - 5, n)[4] == 'd');
            assert(".yang"@[4] == 'g');
        }
    }
    if has_end(name, ".yang"@) {
        lemma_extension(stem, extension, "yang"@, ".yang"@);
    }
    if has_end(name, ".sid"@) {
        lemma_extension(stem, extension, "sid"@, ".sid"@);
    }
}

/// An end with a dot is the extension.
proof fn lemma_extension(
    stem: Seq<char>,
    extension: Seq<char>,
    word: Seq<char>,
    end: Seq<char>,
)
    requires
        free_of(extension, '.'),
        free_of(word, '.'),
        end =~= seq!['.'] + word,
        has_end(stem + "."@ + extension, end),
    ensures
        extension == word,
{
    reveal_strlit(".");
    let name = stem + "."@ + extension;
    let n = name.len() as int;
    let at = n - end.len();
    let tail = name.subrange(at, n);
    assert(tail == end);
    assert(tail[0] == '.');
    assert(name[at] == '.');
    assert(name[stem.len() as int] == '.');
    if at > stem.len() {
        assert(name[at] == extension[at - stem.len() - 1]);
    } else if at < stem.len() {
        assert(tail[stem.len() - at] == name[stem.len() as int]);
        assert(end[stem.len() - at] == word[stem.len() - at - 1]);
    }
    assert(at == stem.len());
    assert(extension =~= word) by {
        assert forall|i: int| 0 <= i < word.len() implies extension[i] == word[i] by {
            assert(tail[i + 1] == name[at + i + 1]);
            assert(end[i + 1] == word[i]);
        }
    }
}

/// Catalogs are looked for in two places, the public one first.
pub proof fn law_places_of_catalogs(i: int)
    ensures
        mirrors().len() == 2,
        i == 0 ==> mirrors()[i]
            == "http://mscc-ent-open-source.s3-website-eu-west-1.amazonaws.com/public_root/velocitydrivesp/yang-by-sha"@,
        i == 1 ==> mirrors()[i]
            == "https://artifacts.microchip.com/artifactory/UNGE-generic-local/lmstax/yang-by-sha"@,
{
}

} // verus!
