//! Converting data between formats, with a schema and without a device.
use vstd::prelude::*;

use crate::cbor::encode::{encoding, encodings};
use crate::command::catalog::{of_kind, partition_catalog_files, FileKind};
use crate::command::formats::{
    parse, parsed_as, reformat, reformatted, render, rendered_as, Format,
};
use crate::json::{law_plain_value_is_taken_as_it_is, lemma_json_view, Json, Tree};
use crate::text::{cat, cat4, decimal, decimal_text, join, joined, owned, same, texts};
use crate::yang::bodies::{is_sequence, ContentFormat};
use crate::yang::codec::{
    cbor_seq_to_json, cbor_to_json, entries_bytes, json_seq_to_cbor, json_to_cbor,
    normalize_cbor_seq, sequence_decoded, sequence_in, tree_decoded, tree_encoded,
};
use crate::yang::parser::opt_text;
use crate::yang::scalars::{decimal_views, DecimalText, DecimalView};
use crate::yang::schema::{Schema, SchemaView};
use crate::yang::tree_laws::{law_decoded_entries_are_plain, law_decoded_tree_is_plain};

verus! {

broadcast use lemma_json_view;

/// The content format with a name; anything else is a whole tree.
pub open spec fn content_named(s: Seq<char>) -> ContentFormat {
    if s == "fetch"@ {
        ContentFormat::Fetch
    } else if s == "ipatch"@ {
        ContentFormat::Ipatch
    } else if s == "post"@ {
        ContentFormat::Post
    } else if s == "put"@ {
        ContentFormat::Put
    } else if s == "get"@ {
        ContentFormat::Get
    } else {
        ContentFormat::Yang
    }
}

/// The content format with a name.
pub fn content_format_of(s: &str) -> (r: ContentFormat)
    ensures
        r == content_named(s@),
{
    if same(s, "fetch") {
        ContentFormat::Fetch
    } else if same(s, "ipatch") {
        ContentFormat::Ipatch
    } else if same(s, "post") {
        ContentFormat::Post
    } else if same(s, "put") {
        ContentFormat::Put
    } else if same(s, "get") {
        ContentFormat::Get
    } else {
        ContentFormat::Yang
    }
}

/// What is converted: text, or bytes where the input is CBOR.
pub enum ConvInput<'a> {
    Text(&'a str),
    Bytes(&'a [u8]),
}

/// What a conversion gives: text, or bytes where the output is CBOR.
#[derive(Debug, PartialEq, Eq)]
pub enum ConvOutput {
    Text(String),
    Bytes(Vec<u8>),
}

/// What a [`ConvOutput`] stands for.
#[verifier::ext_equal]
pub enum OutputView {
    Text(Seq<char>),
    Bytes(Seq<u8>),
}

impl View for ConvOutput {
    type V = OutputView;

    open spec fn view(&self) -> OutputView {
        match self {
            ConvOutput::Text(t) => OutputView::Text(t@),
            ConvOutput::Bytes(b) => OutputView::Bytes(b@),
        }
    }
}

/// Whether a name is that of a text format.
pub open spec fn is_text_format(s: Seq<char>) -> bool {
    s == "json"@ || s == "yaml"@
}

/// The text format with a name.
pub open spec fn text_format(s: Seq<char>) -> Format {
    if s == "json"@ {
        Format::Json
    } else {
        Format::Yaml
    }
}

/// Text as data in bytes.
pub open spec fn text_to_bytes(
    s: SchemaView,
    text: Seq<char>,
    from: Format,
    cf: ContentFormat,
    cont: bool,
) -> Result<Seq<u8>, Seq<char>> {
    match parsed_as(text, from) {
        Err(e) => Err(e),
        Ok(v) => value_to_bytes(s, v, cf, cont),
    }
}

/// A value as data in bytes.
pub open spec fn value_to_bytes(s: SchemaView, v: Tree, cf: ContentFormat, cont: bool) -> Result<
    Seq<u8>,
    Seq<char>,
> {
    if is_sequence(cf) {
        match v {
            Tree::Array(a) => entries_bytes(s, a, cf, cont, a.len() as int),
            _ => Err(
                "a fetch/ipatch/post payload must be a YAML/JSON list at the top level, not a single value"@,
            ),
        }
    } else {
        match tree_encoded(s, v, cf, cont) {
            Err(e) => Err(e),
            Ok(item) => Ok(encoding(item)),
        }
    }
}

/// Data in bytes as a value.
pub open spec fn bytes_to_value(
    s: SchemaView,
    bytes: Seq<u8>,
    cf: ContentFormat,
    d: Seq<DecimalView>,
) -> Result<Tree, Seq<char>> {
    if is_sequence(cf) {
        match sequence_decoded(s, bytes, cf, d) {
            Err(e) => Err(e),
            Ok(a) => Ok(Tree::Array(a)),
        }
    } else {
        tree_decoded(s, bytes, cf, d)
    }
}

/// Whether a conversion reads text.
pub open spec fn reads_text(from: Seq<char>, to: Seq<char>) -> bool {
    is_text_format(from) && (is_text_format(to) || to == "cbor"@)
}

/// Whether a conversion reads bytes.
pub open spec fn reads_bytes(from: Seq<char>, to: Seq<char>) -> bool {
    !is_text_format(from) && from == "cbor"@ && (is_text_format(to) || to == "cbor"@)
}

/// Text as the outcome of a conversion.
pub open spec fn as_text(r: Result<Seq<char>, Seq<char>>) -> Result<OutputView, Seq<char>> {
    match r {
        Ok(t) => Ok(OutputView::Text(t)),
        Err(e) => Err(e),
    }
}

/// The outcome of a conversion.
pub open spec fn converted(
    s: SchemaView,
    from: Seq<char>,
    to: Seq<char>,
    cf: ContentFormat,
    cont: bool,
    input: ConvInput,
    d: Seq<DecimalView>,
) -> Result<OutputView, Seq<char>> {
    if reads_text(from, to) {
        let text = input->Text_0@;
        if is_text_format(to) {
            as_text(reformatted(text, text_format(from), text_format(to)))
        } else {
            match text_to_bytes(s, text, text_format(from), cf, cont) {
                Err(e) => Err(e),
                Ok(b) => Ok(OutputView::Bytes(b)),
            }
        }
    } else if reads_bytes(from, to) {
        let bytes = input->Bytes_0@;
        if is_text_format(to) {
            match bytes_to_value(s, bytes, cf, d) {
                Err(e) => Err(e),
                Ok(v) => as_text(rendered_as(v, text_format(to))),
            }
        } else {
            match sequence_in(bytes) {
                Err(e) => Err(e),
                Ok(items) => Ok(OutputView::Bytes(encodings(items))),
            }
        }
    } else {
        Err("unsupported conversion "@ + from + " -> "@ + to)
    }
}

/// The text format with a name.
fn format_named(s: &str) -> (r: Format)
    ensures
        r == text_format(s@),
{
    if same(s, "json") {
        Format::Json
    } else {
        Format::Yaml
    }
}

/// A value as data in bytes.
pub fn encode_value_for(schema: &Schema, v: &Json, cf: ContentFormat, cont: bool) -> (r: Result<
    Vec<u8>,
    String,
>)
    requires
        schema.wf(),
    ensures
        match r {
            Ok(b) => value_to_bytes(schema@, v@, cf, cont) == Ok::<Seq<u8>, Seq<char>>(b@),
            Err(e) => value_to_bytes(schema@, v@, cf, cont) == Err::<Seq<u8>, Seq<char>>(e@),
        },
{
    if cf.is_sequence() {
        match v.as_array() {
            Some(a) => match json_seq_to_cbor(schema, a.as_slice(), cf, cont) {
                Ok(b) => Ok(b),
                Err(e) => Err(e.0),
            },
            None => Err(
                owned(
                    "a fetch/ipatch/post payload must be a YAML/JSON list at the top level, not a single value",
                ),
            ),
        }
    } else {
        match json_to_cbor(schema, v, cf, cont) {
            Ok(b) => Ok(b),
            Err(e) => Err(e.0),
        }
    }
}

/// Data in bytes as a value.
fn decode_value_for(schema: &Schema, bytes: &[u8], cf: ContentFormat, decimals: &[DecimalText]) -> (r:
    Result<Json, String>)
    requires
        schema.wf(),
    ensures
        match r {
            Ok(v) => bytes_to_value(schema@, bytes@, cf, decimal_views(decimals@)) == Ok::<
                Tree,
                Seq<char>,
            >(v@),
            Err(e) => bytes_to_value(schema@, bytes@, cf, decimal_views(decimals@)) == Err::<
                Tree,
                Seq<char>,
            >(e@),
        },
{
    if cf.is_sequence() {
        match cbor_seq_to_json(schema, bytes, cf, decimals) {
            Ok(a) => Ok(Json::Array(a)),
            Err(e) => Err(e.0),
        }
    } else {
        match cbor_to_json(schema, bytes, cf, decimals) {
            Ok(v) => Ok(v),
            Err(e) => Err(e.0),
        }
    }
}

/// Converts data between the formats `json`, `yaml` and `cbor`.
pub fn convert(
    schema: &Schema,
    input_format: &str,
    output_format: &str,
    cf: ContentFormat,
    continue_on_error: bool,
    input: ConvInput,
    decimals: &[DecimalText],
) -> (r: Result<ConvOutput, String>)
    requires
        schema.wf(),
        reads_text(input_format@, output_format@) ==> input is Text,
        reads_bytes(input_format@, output_format@) ==> input is Bytes,
    ensures
        match r {
            Ok(out) => converted(
                schema@,
                input_format@,
                output_format@,
                cf,
                continue_on_error,
                input,
                decimal_views(decimals@),
            ) == Ok::<OutputView, Seq<char>>(out@),
            Err(e) => converted(
                schema@,
                input_format@,
                output_format@,
                cf,
                continue_on_error,
                input,
                decimal_views(decimals@),
            ) == Err::<OutputView, Seq<char>>(e@),
        },
{
    let from_text: bool = same(input_format, "json") || same(input_format, "yaml");
    let from_bytes: bool = !from_text && same(input_format, "cbor");
    let to_text: bool = same(output_format, "json") || same(output_format, "yaml");
    let to_bytes: bool = !to_text && same(output_format, "cbor");
    if (from_text || from_bytes) && (to_text || to_bytes) {
        match input {
            ConvInput::Text(text) => {
                if to_text {
                    let t = reformat(
                        text,
                        format_named(input_format),
                        format_named(output_format),
                    )?;
                    Ok(ConvOutput::Text(t))
                } else {
                    let v = parse(text, format_named(input_format))?;
                    let b = encode_value_for(schema, &v, cf, continue_on_error)?;
                    Ok(ConvOutput::Bytes(b))
                }
            },
            ConvInput::Bytes(bytes) => {
                if to_text {
                    let v = decode_value_for(schema, bytes, cf, decimals)?;
                    proof {
                        let d = decimal_views(decimals@);
                        law_decoded_tree_is_plain(schema@, bytes@, cf, d);
                        law_decoded_entries_are_plain(schema@, bytes@, cf, d);
                        law_plain_value_is_taken_as_it_is(v@);
                    }
                    let t = render(&v, format_named(output_format))?;
                    Ok(ConvOutput::Text(t))
                } else {
                    match normalize_cbor_seq(bytes) {
                        Ok(b) => Ok(ConvOutput::Bytes(b)),
                        Err(e) => Err(e.0),
                    }
                }
            },
        }
    } else {
        Err(cat4("unsupported conversion ", input_format, " -> ", output_format))
    }
}

/// What a conversion needs: the files of a catalog, none of them for that of
/// the workspace, and the file with the data, if there is one.
#[derive(Debug)]
pub struct ConvPlan {
    pub yangs: Vec<String>,
    pub sids: Vec<String>,
    pub data_file: Option<String>,
}

/// What a [`ConvPlan`] stands for.
#[verifier::ext_equal]
pub struct ConvPlanView {
    pub yangs: Seq<Seq<char>>,
    pub sids: Seq<Seq<char>>,
    pub data_file: Option<Seq<char>>,
}

impl View for ConvPlan {
    type V = ConvPlanView;

    open spec fn view(&self) -> ConvPlanView {
        ConvPlanView {
            yangs: texts(self.yangs@),
            sids: texts(self.sids@),
            data_file: opt_text(self.data_file),
        }
    }
}

/// What a conversion needs by its file arguments: at most one file with data,
/// and modules and SID files both or neither.
pub open spec fn conversion_planned(files: Seq<Seq<char>>) -> Result<ConvPlanView, Seq<char>> {
    let n = files.len() as int;
    let yangs = of_kind(files, FileKind::Yang, n);
    let sids = of_kind(files, FileKind::Sid, n);
    let rest = of_kind(files, FileKind::Other, n);
    if rest.len() > 1 {
        Err(
            "expected at most one data file on the command line, got "@ + decimal_text(
                rest.len() as int,
            ) + ": "@ + joined(rest, ", "@),
        )
    } else if (yangs.len() == 0) != (sids.len() == 0) {
        Err(
            "pass both .yang and .sid files together to use an explicit catalog (or neither, to use the workspace catalog) -- got only one kind"@,
        )
    } else {
        Ok(
            ConvPlanView {
                yangs,
                sids,
                data_file: if rest.len() == 1 {
                    Some(rest[0])
                } else {
                    None
                },
            },
        )
    }
}

/// What a conversion needs by its file arguments.
pub fn plan_conversion(files: &[String]) -> (r: Result<ConvPlan, String>)
    ensures
        match r {
            Ok(p) => conversion_planned(texts(files@)) == Ok::<ConvPlanView, Seq<char>>(p@),
            Err(e) => conversion_planned(texts(files@)) == Err::<ConvPlanView, Seq<char>>(e@),
        },
{
    let (yangs, sids, mut rest) = partition_catalog_files(files);
    let ghost others = texts(rest@);
    assert(others.len() == rest@.len());
    assert(texts(yangs@).len() == yangs@.len());
    assert(texts(sids@).len() == sids@.len());
    if rest.len() > 1 {
        let n = decimal(rest.len() as i128);
        let all = join(rest.as_slice(), ", ");
        return Err(
            cat4(
                "expected at most one data file on the command line, got ",
                n.as_str(),
                ": ",
                all.as_str(),
            ),
        );
    }
    if (yangs.len() == 0) != (sids.len() == 0) {
        return Err(
            owned(
                "pass both .yang and .sid files together to use an explicit catalog (or neither, to use the workspace catalog) -- got only one kind",
            ),
        );
    }
    proof {
        if rest@.len() > 0 {
            assert(others[0] == rest@[0]@);
        }
    }
    let data_file = rest.pop();
    Ok(ConvPlan { yangs, sids, data_file })
}

/// The modules that a JSON Schema is made of by the file arguments, none of
/// them for the catalog of the workspace.
pub open spec fn description_planned(files: Seq<Seq<char>>) -> Result<Seq<Seq<char>>, Seq<char>> {
    let n = files.len() as int;
    let rest = of_kind(files, FileKind::Other, n);
    if rest.len() > 0 {
        Err(
            "schema doesn't take a data file -- unexpected argument(s): "@ + joined(rest, ", "@),
        )
    } else if of_kind(files, FileKind::Sid, n).len() > 0 {
        Err(".sid files aren't needed for a JSON Schema -- pass only .yang files"@)
    } else {
        Ok(of_kind(files, FileKind::Yang, n))
    }
}

/// The modules that a JSON Schema is made of by the file arguments.
pub fn plan_description(files: &[String]) -> (r: Result<Vec<String>, String>)
    ensures
        match r {
            Ok(v) => description_planned(texts(files@)) == Ok::<Seq<Seq<char>>, Seq<char>>(
                texts(v@),
            ),
            Err(e) => description_planned(texts(files@)) == Err::<Seq<Seq<char>>, Seq<char>>(e@),
        },
{
    let (yangs, sids, rest) = partition_catalog_files(files);
    assert(texts(rest@).len() == rest@.len());
    assert(texts(sids@).len() == sids@.len());
    if rest.len() > 0 {
        let all = join(rest.as_slice(), ", ");
        return Err(
            cat("schema doesn't take a data file -- unexpected argument(s): ", all.as_str()),
        );
    }
    if sids.len() > 0 {
        return Err(owned(".sid files aren't needed for a JSON Schema -- pass only .yang files"));
    }
    Ok(yangs)
}

} // verus!
