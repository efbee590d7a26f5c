//! What holds of conversions and requests as a whole.
use vstd::prelude::*;

use crate::cbor::laws::encodable;
use crate::command::convert::{
    as_text, converted, is_text_format, text_format, ConvInput, OutputView,
};
use crate::command::formats::{parsed_as, rendered_as};
use crate::command::request::{fetch_entry, has_body, prepared};
use crate::json::Tree;
use crate::yang::bodies::{is_sequence, ContentFormat};
use crate::yang::codec::{entries_bytes, entry_encoded, tree_encoded};
use crate::yang::scalars::DecimalView;
use crate::yang::schema::SchemaView;
use crate::yang::tree_laws::{
    body_settled, entry_settled, law_entries_read_back, law_normal_form_keeps_items,
    law_tree_reads_back,
};

verus! {

/// Whether data are as decoding gives them, and the format has room for them.
pub open spec fn data_settled(
    s: SchemaView,
    v: Tree,
    cf: ContentFormat,
    d: Seq<DecimalView>,
) -> bool {
    if is_sequence(cf) {
        v matches Tree::Array(a) ==> forall|i: int|
            0 <= i < a.len() ==> entry_settled(s, #[trigger] a[i], d) && (entry_encoded(
                s,
                a[i],
                cf,
                false,
            ) matches Ok(item) ==> encodable(item))
    } else {
        v matches Tree::Object(m) ==> body_settled(s, s.root, m, d) && (tree_encoded(
            s,
            v,
            cf,
            false,
        ) matches Ok(item) ==> encodable(item))
    }
}

/// Text that was converted to bytes is converted back to the same data, in
/// whatever text format they are written then.
pub proof fn law_conversion_reads_back(
    s: SchemaView,
    from: Seq<char>,
    to: Seq<char>,
    cf: ContentFormat,
    there: ConvInput,
    back: ConvInput,
    d: Seq<DecimalView>,
)
    requires
        is_text_format(from),
        is_text_format(to),
        there is Text,
        back is Bytes,
        parsed_as(there->Text_0@, text_format(from)) matches Ok(v) && data_settled(s, v, cf, d),
        converted(s, from, "cbor"@, cf, false, there, d) == Ok::<OutputView, Seq<char>>(
            OutputView::Bytes(back->Bytes_0@),
        ),
    ensures
        parsed_as(there->Text_0@, text_format(from)) matches Ok(v) && converted(
            s,
            "cbor"@,
            to,
            cf,
            false,
            back,
            d,
        ) == as_text(rendered_as(v, text_format(to))),
{
    reveal_strlit("cbor");
    reveal_strlit("json");
    reveal_strlit("yaml");
    assert("cbor"@[0] != "json"@[0] && "cbor"@[0] != "yaml"@[0]);
    let v = parsed_as(there->Text_0@, text_format(from))->Ok_0;
    let bytes = back->Bytes_0@;
    if is_sequence(cf) {
        let a = v->Array_0;
        assert(entries_bytes(s, a, cf, false, a.len() as int) == Ok::<Seq<u8>, Seq<char>>(bytes));
        lemma_each_made(s, a, cf, a.len() as int);
        law_entries_read_back(s, a, cf, d, bytes);
    } else {
        let m = v->Object_0;
        let item = tree_encoded(s, v, cf, false)->Ok_0;
        assert(v == Tree::Object(m));
        law_tree_reads_back(s, m, cf, d, item);
    }
}

/// Where all entries of a request are encoded, each is.
proof fn lemma_each_made(s: SchemaView, a: Seq<Tree>, cf: ContentFormat, n: int)
    requires
        0 <= n <= a.len(),
        entries_bytes(s, a, cf, false, n) is Ok,
    ensures
        forall|i: int| 0 <= i < n ==> entry_encoded(s, #[trigger] a[i], cf, false) is Ok,
    decreases n,
{
    if n > 0 {
        lemma_each_made(s, a, cf, n - 1);
    }
}

/// Converting bytes to bytes a second time changes nothing.
pub proof fn law_bytes_are_normal_after_one_conversion(
    s: SchemaView,
    cf: ContentFormat,
    cont: bool,
    first: ConvInput,
    second: ConvInput,
    d: Seq<DecimalView>,
)
    requires
        first is Bytes,
        second is Bytes,
        first->Bytes_0@.len() <= usize::MAX,
        converted(s, "cbor"@, "cbor"@, cf, cont, first, d) == Ok::<OutputView, Seq<char>>(
            OutputView::Bytes(second->Bytes_0@),
        ),
    ensures
        converted(s, "cbor"@, "cbor"@, cf, cont, second, d) == Ok::<OutputView, Seq<char>>(
            OutputView::Bytes(second->Bytes_0@),
        ),
{
    reveal_strlit("cbor");
    reveal_strlit("json");
    reveal_strlit("yaml");
    assert("cbor"@[0] != "json"@[0] && "cbor"@[0] != "yaml"@[0]);
    law_normal_form_keeps_items(first->Bytes_0@);
}

/// A method without a body takes no notice of the input.
pub proof fn law_input_is_for_bodies(
    s: SchemaView,
    method: Seq<char>,
    a: Option<Tree>,
    b: Option<Tree>,
    cont: bool,
)
    requires
        !has_body(method),
    ensures
        prepared(s, method, a, cont) == prepared(s, method, b, cont),
{
}

/// An entry of a request to fetch is normal after one step.
pub proof fn law_fetch_entry_is_normal(v: Tree)
    ensures
        fetch_entry(fetch_entry(v)) == fetch_entry(v),
{
}

} // verus!
