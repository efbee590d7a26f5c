//! Values of bits types: runs of bytes with gaps between them.
use vstd::arithmetic::div_mod::lemma_mod_multiples_vanish;
use vstd::prelude::*;

use crate::cbor::value::{lemma_view, value_items, Item, Value as Cbor};
use crate::json::{json_text, lemma_json_view, to_text, trees, Json, Tree};
use crate::text::{
    cat, cat3, join, joined, owned, quoted, quoted_text, same, split_words, texts, words,
};
use crate::yang::scalars::{
    describe_cbor, item_described, item_of, low_u64, tree_of, unexpected_message, unexpected_value,
    CodecError,
};
use crate::yang::schema::{bit_views, Bit, BitView, TypeDef, TypeView};

verus! {

broadcast use {lemma_view, lemma_json_view};

/// The texts among the first `n` of some values.
pub open spec fn texts_among(a: Seq<Tree>, n: int) -> Seq<Seq<char>>
    decreases n,
{
    if n <= 0 {
        Seq::empty()
    } else {
        match a[n - 1] {
            Tree::Text(t) => texts_among(a, n - 1).push(t),
            _ => texts_among(a, n - 1),
        }
    }
}

/// The names of bits that a JSON value gives: the words of a text, or the
/// texts in a list.
pub open spec fn bit_names(v: Tree) -> Option<Seq<Seq<char>>> {
    match v {
        Tree::Text(s) => Some(words(s)),
        Tree::Array(a) => Some(texts_among(a, a.len() as int)),
        _ => None,
    }
}

/// The names of bits that a JSON value gives.
pub fn read_bit_names(v: &Json) -> (r: Option<Vec<String>>)
    ensures
        match r {
            Some(names) => bit_names(v@) == Some(texts(names@)),
            None => bit_names(v@) is None,
        },
{
    match v {
        Json::String(s) => Some(split_words(s.as_str())),
        Json::Array(a) => {
            let ghost all = trees(a@);
            let mut out: Vec<String> = Vec::new();
            let mut i: usize = 0;
            assert(texts(out@) =~= Seq::empty());
            while i < a.len()
                invariant
                    i <= a@.len(),
                    all == trees(a@),
                    texts(out@) == texts_among(all, i as int),
                decreases a@.len() - i,
            {
                let ghost had = texts(out@);
                assert(all[i as int] == a@[i as int]@);
                if let Some(t) = a[i].as_str() {
                    out.push(owned(t));
                    assert(texts(out@) =~= had.push(t@));
                }
                i += 1;
            }
            Some(out)
        },
        _ => None,
    }
}

/// The place of the bit with a name, from `from` on.
pub open spec fn bit_named(bits: Seq<BitView>, name: Seq<char>, from: int) -> Option<int>
    decreases bits.len() - from,
{
    if from >= bits.len() {
        None
    } else if bits[from].name == name {
        Some(from)
    } else {
        bit_named(bits, name, from + 1)
    }
}

/// The place of the bit at a position, from `from` on.
pub open spec fn bit_placed(bits: Seq<BitView>, position: int, from: int) -> Option<int>
    decreases bits.len() - from,
{
    if from >= bits.len() {
        None
    } else if bits[from].position == position {
        Some(from)
    } else {
        bit_placed(bits, position, from + 1)
    }
}

/// The place of the bit with a name.
pub fn find_bit(bits: &Vec<Bit>, name: &str) -> (r: Option<usize>)
    ensures
        match r {
            Some(i) => i < bits@.len() && bit_named(bit_views(bits@), name@, 0) == Some(i as int),
            None => bit_named(bit_views(bits@), name@, 0) is None,
        },
{
    let mut i: usize = 0;
    while i < bits.len()
        invariant
            i <= bits@.len(),
            bit_named(bit_views(bits@), name@, 0) == bit_named(
                bit_views(bits@),
                name@,
                i as int,
            ),
        decreases bits@.len() - i,
    {
        if same(bits[i].name.as_str(), name) {
            return Some(i);
        }
        i += 1;
    }
    None
}

/// The place of the bit at a position.
fn find_position(bits: &Vec<Bit>, position: u32) -> (r: Option<usize>)
    ensures
        match r {
            Some(i) => i < bits@.len() && bit_placed(bit_views(bits@), position as int, 0) == Some(
                i as int,
            ),
            None => bit_placed(bit_views(bits@), position as int, 0) is None,
        },
{
    let mut i: usize = 0;
    while i < bits.len()
        invariant
            i <= bits@.len(),
            bit_placed(bit_views(bits@), position as int, 0) == bit_placed(
                bit_views(bits@),
                position as int,
                i as int,
            ),
        decreases bits@.len() - i,
    {
        if bits[i].position == position {
            return Some(i);
        }
        i += 1;
    }
    None
}

/// The positions of the first `n` of some names.
pub open spec fn positions_of(bits: Seq<BitView>, names: Seq<Seq<char>>, n: int) -> Result<
    Seq<u32>,
    Seq<char>,
>
    decreases n,
{
    if n <= 0 {
        Ok(Seq::empty())
    } else {
        match positions_of(bits, names, n - 1) {
            Err(e) => Err(e),
            Ok(before) => match bit_named(bits, names[n - 1], 0) {
                None => Err(
                    quoted_text(names[n - 1]) + " is not one of the allowed names for this field"@,
                ),
                Some(i) => Ok(before.push(bits[i].position)),
            },
        }
    }
}

/// The byte with only bit `k` set.
pub open spec fn mask(k: int) -> u8 {
    if k == 0 {
        1
    } else if k == 1 {
        2
    } else if k == 2 {
        4
    } else if k == 3 {
        8
    } else if k == 4 {
        16
    } else if k == 5 {
        32
    } else if k == 6 {
        64
    } else {
        128
    }
}

/// The `i`-th byte of a bit field in which the first `n` positions are set.
pub open spec fn field_byte(positions: Seq<u32>, i: int, n: int) -> u8
    decreases n,
{
    if n <= 0 {
        0
    } else if positions[n - 1] as int / 8 == i {
        field_byte(positions, i, n - 1) | mask(positions[n - 1] as int % 8)
    } else {
        field_byte(positions, i, n - 1)
    }
}

/// The greatest of the first `n` positions.
pub open spec fn greatest(positions: Seq<u32>, n: int) -> int
    decreases n,
{
    if n <= 0 {
        0
    } else if positions[n - 1] > greatest(positions, n - 1) {
        positions[n - 1] as int
    } else {
        greatest(positions, n - 1)
    }
}

/// The bit field in which some positions are set, no longer than it must be.
pub open spec fn field(positions: Seq<u32>) -> Seq<u8> {
    let n = positions.len() as int;
    Seq::new(
        (greatest(positions, n) / 8 + 1) as nat,
        |i: int| field_byte(positions, i, n),
    )
}

/// The end of the run of bytes that are not zero at `i`.
pub open spec fn nonzero_end(bytes: Seq<u8>, i: int) -> int
    decreases bytes.len() - i,
{
    if i >= bytes.len() || bytes[i] == 0 {
        i
    } else {
        nonzero_end(bytes, i + 1)
    }
}

/// The runs of bytes that are not zero, from `i` on, each behind the length
/// of the gap before it. `gap` zero bytes stood right before `i`.
pub open spec fn spans_from(bytes: Seq<u8>, i: int, gap: int) -> Seq<Item>
    decreases bytes.len() - i,
{
    if i >= bytes.len() {
        Seq::empty()
    } else if bytes[i] == 0 {
        spans_from(bytes, i + 1, gap + 1)
    } else {
        let end = nonzero_end(bytes, i + 1);
        if i < end <= bytes.len() {
            (if gap > 0 {
                seq![Item::Integer(gap)]
            } else {
                Seq::empty()
            }) + seq![Item::Bytes(bytes.subrange(i, end))] + spans_from(bytes, end, 0)
        } else {
            arbitrary()
        }
    }
}

/// A value of a bits type as a data item: the runs of its bit field, a single
/// run for itself, or its tagged names in a union.
pub open spec fn bits_encoded(ty: TypeView, v: Tree, in_union: bool) -> Result<Item, Seq<char>> {
    match bit_names(v) {
        None => Err(
            "expected a space-separated list of names (as text, or a list of names), got "@
                + json_text(v),
        ),
        Some(names) => if in_union {
            Ok(Item::Tag(43, Box::new(Item::Text(joined(names, " "@)))))
        } else {
            match positions_of(ty.bits, names, names.len() as int) {
                Err(e) => Err(e),
                Ok(positions) => if positions.len() == 0 {
                    Ok(Item::Array(Seq::empty()))
                } else {
                    let spans = spans_from(field(positions), 0, 0);
                    if spans.len() == 1 && spans[0] is Bytes {
                        Ok(spans[0])
                    } else {
                        Ok(Item::Array(spans))
                    }
                },
            }
        },
    }
}

/// The byte with only bit `k` set.
fn mask_of(k: u32) -> (r: u8)
    requires
        k < 8,
    ensures
        r == mask(k as int),
{
    if k == 0 {
        1
    } else if k == 1 {
        2
    } else if k == 2 {
        4
    } else if k == 3 {
        8
    } else if k == 4 {
        16
    } else if k == 5 {
        32
    } else if k == 6 {
        64
    } else {
        128
    }
}

proof fn lemma_greatest(positions: Seq<u32>, n: int)
    requires
        0 <= n <= positions.len(),
    ensures
        0 <= greatest(positions, n) <= u32::MAX,
        forall|i: int| 0 <= i < n ==> #[trigger] positions[i] <= greatest(positions, n),
    decreases n,
{
    if n > 0 {
        lemma_greatest(positions, n - 1);
    }
}

/// The bit field in which some positions are set.
fn pack(positions: &Vec<u32>) -> (r: Vec<u8>)
    ensures
        r@ == field(positions@),
{
    let mut top: u32 = 0;
    let mut i: usize = 0;
    while i < positions.len()
        invariant
            i <= positions@.len(),
            top == greatest(positions@, i as int),
        decreases positions@.len() - i,
    {
        if positions[i] > top {
            top = positions[i];
        }
        i += 1;
    }
    let len: u32 = top / 8 + 1;
    let mut bytes: Vec<u8> = Vec::new();
    let mut k: u32 = 0;
    while k < len
        invariant
            k <= len,
            bytes@.len() == k,
            forall|j: int| 0 <= j < k ==> #[trigger] bytes@[j] == 0,
        decreases len - k,
    {
        bytes.push(0);
        k += 1;
    }
    let mut n: usize = 0;
    while n < positions.len()
        invariant
            n <= positions@.len(),
            top == greatest(positions@, positions@.len() as int),
            len == top / 8 + 1,
            bytes@.len() == len,
            forall|j: int| 0 <= j < len ==> #[trigger] bytes@[j] == field_byte(positions@, j, n as int),
        decreases positions@.len() - n,
    {
        let p: u32 = positions[n];
        proof {
            lemma_greatest(positions@, positions@.len() as int);
            assert(positions@[n as int] <= top);
        }
        let at: usize = (p / 8) as usize;
        let old_byte: u8 = bytes[at];
        bytes[at] = old_byte | mask_of(p % 8);
        n += 1;
    }
    assert(bytes@ =~= field(positions@));
    bytes
}

proof fn lemma_nonzero_end(bytes: Seq<u8>, i: int)
    requires
        0 <= i <= bytes.len(),
    ensures
        i <= nonzero_end(bytes, i) <= bytes.len(),
    decreases bytes.len() - i,
{
    if i < bytes.len() && bytes[i] != 0 {
        lemma_nonzero_end(bytes, i + 1);
    }
}

/// The runs of bytes that are not zero, with the gaps between them.
fn bits_bytes_to_spans(bytes: &Vec<u8>) -> (r: Vec<Cbor>)
    ensures
        value_items(r@) == spans_from(bytes@, 0, 0),
{
    let n: usize = bytes.len();
    let mut out: Vec<Cbor> = Vec::new();
    let mut i: usize = 0;
    let mut gap: usize = 0;
    assert(value_items(out@) + spans_from(bytes@, 0, 0) =~= spans_from(bytes@, 0, 0));
    while i < n
        invariant
            i <= n,
            gap <= i,
            n == bytes@.len(),
            value_items(out@) + spans_from(bytes@, i as int, gap as int) == spans_from(
                bytes@,
                0,
                0,
            ),
        decreases n - i,
    {
        if bytes[i] == 0 {
            gap += 1;
            i += 1;
        } else {
            let ghost had = value_items(out@);
            let ghost rest = spans_from(bytes@, i as int, gap as int);
            let start: usize = i;
            let mut gaps: Vec<Cbor> = Vec::new();
            if gap > 0 {
                gaps.push(Cbor::Integer(gap as i128));
            }
            let ghost before = if gap > 0 {
                seq![Item::Integer(gap as int)]
            } else {
                Seq::empty()
            };
            assert(value_items(gaps@) =~= before);
            i += 1;
            while i < n && bytes[i] != 0
                invariant
                    start < i <= n,
                    n == bytes@.len(),
                    nonzero_end(bytes@, start + 1) == nonzero_end(bytes@, i as int),
                decreases n - i,
            {
                i += 1;
            }
            let mut run: Vec<u8> = Vec::new();
            run.extend_from_slice(&bytes.as_slice()[start..i]);
            assert(run@ =~= bytes@.subrange(start as int, i as int));
            out.append(&mut gaps);
            let v = Cbor::Bytes(run);
            out.push(v);
            gap = 0;
            proof {
                assert(value_items(out@) =~= had + before + seq![v@]);
                assert(rest == before + seq![v@] + spans_from(bytes@, i as int, 0));
                assert(value_items(out@) + spans_from(bytes@, i as int, 0) =~= had + rest);
            }
        }
    }
    assert(value_items(out@) + spans_from(bytes@, n as int, gap as int) =~= value_items(out@));
    out
}

/// A value of a bits type as a data item.
pub fn encode_bits(ty: &TypeDef, v: &Json, in_union: bool) -> (r: Result<Cbor, CodecError>)
    ensures
        item_of(r) == bits_encoded(ty@, v@, in_union),
{
    let names = match read_bit_names(v) {
        Some(names) => names,
        None => {
            let t = to_text(v);
            return Err(
                CodecError(
                    cat(
                        "expected a space-separated list of names (as text, or a list of names), got ",
                        t.as_str(),
                    ),
                ),
            );
        },
    };
    if in_union {
        return Ok(Cbor::tagged(43, Cbor::Text(join(names.as_slice(), " "))));
    }
    let ghost all = texts(names@);
    let mut positions: Vec<u32> = Vec::new();
    let mut i: usize = 0;
    while i < names.len()
        invariant
            i <= names@.len(),
            all == texts(names@),
            !in_union,
            bit_names(v@) == Some(all),
            positions_of(ty@.bits, all, i as int) == Ok::<Seq<u32>, Seq<char>>(positions@),
        decreases names@.len() - i,
    {
        assert(all[i as int] == names@[i as int]@);
        match find_bit(&ty.bits, names[i].as_str()) {
            Some(k) => {
                assert(ty@.bits[k as int] == ty.bits@[k as int]@);
                positions.push(ty.bits[k].position);
            },
            None => {
                proof {
                    lemma_positions_fail(ty@.bits, all, i + 1, all.len() as int);
                }
                let q = quoted(names[i].as_str());
                return Err(
                    CodecError(cat(q.as_str(), " is not one of the allowed names for this field")),
                );
            },
        }
        i += 1;
    }
    if positions.len() == 0 {
        let none: Vec<Cbor> = Vec::new();
        assert(value_items(none@) =~= Seq::empty());
        return Ok(Cbor::Array(none));
    }
    let bytes = pack(&positions);
    let mut items = bits_bytes_to_spans(&bytes);
    let ghost spans = value_items(items@);
    if items.len() == 1 {
        assert(spans[0] == items@[0]@);
        match items.pop() {
            Some(Cbor::Bytes(b)) => {
                return Ok(Cbor::Bytes(b));
            },
            Some(other) => {
                items.push(other);
                assert(value_items(items@) =~= spans);
            },
            None => {},
        }
    }
    Ok(Cbor::Array(items))
}

proof fn lemma_positions_fail(bits: Seq<BitView>, names: Seq<Seq<char>>, n: int, m: int)
    requires
        0 <= n <= m,
        positions_of(bits, names, n) is Err,
    ensures
        positions_of(bits, names, m) == positions_of(bits, names, n),
    decreases m - n,
{
    if n < m {
        lemma_positions_fail(bits, names, n, m - 1);
    }
}

/// The names of the set bits among the first `k` of a byte, whose first bit
/// is at `base`. Positions count modulo 2^32; bits without a name are passed
/// over.
pub open spec fn byte_names(bits: Seq<BitView>, byte: u8, base: int, k: int) -> Seq<Seq<char>>
    decreases k,
{
    if k <= 0 {
        Seq::empty()
    } else {
        let before = byte_names(bits, byte, base, k - 1);
        if byte & mask(k - 1) != 0 {
            match bit_placed(bits, (base + k - 1) % 0x1_0000_0000, 0) {
                Some(i) => before.push(bits[i].name),
                None => before,
            }
        } else {
            before
        }
    }
}

/// The names of the set bits in the first `n` bytes of a run that begins at
/// byte `offset`.
pub open spec fn run_names(bits: Seq<BitView>, run: Seq<u8>, offset: int, n: int) -> Seq<Seq<char>>
    decreases n,
{
    if n <= 0 {
        Seq::empty()
    } else {
        run_names(bits, run, offset, n - 1) + byte_names(
            bits,
            run[n - 1],
            (offset + n - 1) * 8,
            8,
        )
    }
}

/// The names of the set bits in the first `n` spans, and the byte that the
/// next one begins at.
pub open spec fn span_names(bits: Seq<BitView>, spans: Seq<Item>, n: int) -> Result<
    (Seq<Seq<char>>, int),
    Seq<char>,
>
    decreases n,
{
    if n <= 0 {
        Ok((Seq::empty(), 0))
    } else {
        match span_names(bits, spans, n - 1) {
            Err(e) => Err(e),
            Ok((names, offset)) => match spans[n - 1] {
                Item::Integer(gap) => Ok((names, (offset + gap) % 0x1_0000_0000)),
                Item::Bytes(run) => Ok(
                    (
                        names + run_names(bits, run, offset, run.len() as int),
                        (offset + run.len()) % 0x1_0000_0000,
                    ),
                ),
                other => Err(
                    "the device sent malformed bit-flag data (an unexpected "@ + item_described(
                        other,
                    ) + ")"@,
                ),
            },
        }
    }
}

/// A value of a bits type in a response as a JSON value: the names of its set
/// bits.
pub open spec fn bits_decoded(ty: TypeView, v: Item, in_union: bool) -> Result<Tree, Seq<char>> {
    if in_union && v is Tag && v->Tag_0 == 43 {
        match *v->Tag_1 {
            Item::Text(s) => Ok(Tree::Text(s)),
            _ => Err(unexpected_message("text (a list of names)"@, *v->Tag_1)),
        }
    } else {
        let spans = match v {
            Item::Array(a) => a,
            _ => seq![v],
        };
        if !(v is Bytes || v is Array) {
            Err(unexpected_message("bit-flag data"@, v))
        } else {
            match span_names(ty.bits, spans, spans.len() as int) {
                Err(e) => Err(e),
                Ok((names, _)) => Ok(Tree::Text(joined(names, " "@))),
            }
        }
    }
}

/// Appends the names of the set bits in a run that begins at byte `offset`.
fn push_run_names(bits: &Vec<Bit>, run: &Vec<u8>, offset: u32, out: &mut Vec<String>)
    ensures
        texts(final(out)@) == texts(old(out)@) + run_names(
            bit_views(bits@),
            run@,
            offset as int,
            run@.len() as int,
        ),
{
    let ghost views = bit_views(bits@);
    let ghost start = texts(out@);
    let mut i: usize = 0;
    assert(texts(out@) =~= start + run_names(views, run@, offset as int, 0));
    while i < run.len()
        invariant
            i <= run@.len(),
            views == bit_views(bits@),
            texts(out@) == start + run_names(views, run@, offset as int, i as int),
        decreases run@.len() - i,
    {
        let byte: u8 = run[i];
        let ghost before = texts(out@);
        let ghost base = (offset + i) * 8;
        let mut k: u32 = 0;
        assert(texts(out@) =~= before + byte_names(views, byte, base as int, 0));
        while k < 8
            invariant
                k <= 8,
                i < run@.len(),
                views == bit_views(bits@),
                base == (offset + i) * 8,
                texts(out@) == before + byte_names(views, byte, base as int, k as int),
            decreases 8 - k,
        {
            let ghost had = texts(out@);
            if byte & mask_of(k) != 0 {
                let wide: u128 = (offset as u128 + i as u128) * 8 + k as u128;
                let position: u32 = (wide % 0x1_0000_0000) as u32;
                if let Some(j) = find_position(bits, position) {
                    assert(views[j as int] == bits@[j as int]@);
                    let name = bits[j].name.clone();
                    out.push(name);
                    assert(texts(out@) =~= had.push(name@));
                }
            }
            assert(texts(out@) =~= before + byte_names(views, byte, base as int, k + 1));
            k += 1;
        }
        assert(texts(out@) =~= start + run_names(views, run@, offset as int, i + 1));
        i += 1;
    }
}

/// Only the low bits of a gap count.
proof fn lemma_low_offset(offset: int, gap: int, low: int)
    requires
        low == gap % 0x1_0000_0000_0000_0000,
    ensures
        (offset + low) % 0x1_0000_0000 == (offset + gap) % 0x1_0000_0000,
{
    let q = gap / 0x1_0000_0000_0000_0000;
    let k = q * 0x1_0000_0000;
    assert(offset + gap == 0x1_0000_0000 * k + (offset + low));
    lemma_mod_multiples_vanish(k, offset + low, 0x1_0000_0000);
}

/// The names of the set bits in some spans, as one text.
fn decode_spans(ty: &TypeDef, spans: &Vec<Cbor>) -> (r: Result<Json, CodecError>)
    ensures
        tree_of(r) == (match span_names(ty@.bits, value_items(spans@), spans@.len() as int) {
            Err(e) => Err::<Tree, Seq<char>>(e),
            Ok((names, _)) => Ok::<Tree, Seq<char>>(Tree::Text(joined(names, " "@))),
        }),
{
    let ghost items = value_items(spans@);
    let mut names: Vec<String> = Vec::new();
    let mut offset: u32 = 0;
    let mut i: usize = 0;
    assert(texts(names@) =~= Seq::empty());
    while i < spans.len()
        invariant
            i <= spans@.len(),
            items == value_items(spans@),
            span_names(ty@.bits, items, i as int) == Ok::<(Seq<Seq<char>>, int), Seq<char>>(
                (texts(names@), offset as int),
            ),
        decreases spans@.len() - i,
    {
        assert(items[i as int] == spans@[i as int]@);
        match &spans[i] {
            Cbor::Integer(gap) => {
                let low: u64 = low_u64(*gap);
                proof {
                    lemma_low_offset(offset as int, *gap as int, low as int);
                }
                offset = ((offset as u128 + low as u128) % 0x1_0000_0000) as u32;
            },
            Cbor::Bytes(run) => {
                push_run_names(&ty.bits, run, offset, &mut names);
                offset = ((offset as u128 + run.len() as u128) % 0x1_0000_0000) as u32;
            },
            other => {
                proof {
                    lemma_spans_fail(ty@.bits, items, i + 1, items.len() as int);
                }
                let d = describe_cbor(other);
                return Err(
                    CodecError(
                        cat3(
                            "the device sent malformed bit-flag data (an unexpected ",
                            d.as_str(),
                            ")",
                        ),
                    ),
                );
            },
        }
        i += 1;
    }
    Ok(Json::String(join(names.as_slice(), " ")))
}

proof fn lemma_spans_fail(bits: Seq<BitView>, spans: Seq<Item>, n: int, m: int)
    requires
        0 <= n <= m,
        span_names(bits, spans, n) is Err,
    ensures
        span_names(bits, spans, m) == span_names(bits, spans, n),
    decreases m - n,
{
    if n < m {
        lemma_spans_fail(bits, spans, n, m - 1);
    }
}

/// A value of a bits type in a response as a JSON value.
pub fn decode_bits(ty: &TypeDef, v: &Cbor, in_union: bool) -> (r: Result<Json, CodecError>)
    ensures
        tree_of(r) == bits_decoded(ty@, v@, in_union),
{
    if in_union {
        if let Cbor::Tag(t, inner) = v {
            if *t == 43 {
                return match inner.as_text() {
                    Some(s) => Ok(Json::String(owned(s))),
                    None => Err(unexpected_value("text (a list of names)", &**inner)),
                };
            }
        }
    }
    match v {
        Cbor::Array(items) => decode_spans(ty, items),
        Cbor::Bytes(_) => {
            let mut one: Vec<Cbor> = Vec::new();
            one.push(v.clone());
            assert(value_items(one@) =~= seq![v@]);
            decode_spans(ty, &one)
        },
        _ => Err(unexpected_value("bit-flag data", v)),
    }
}

} // verus!
