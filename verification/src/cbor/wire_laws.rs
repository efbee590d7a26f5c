//! What the bytes of data items are.
use vstd::arithmetic::div_mod::lemma_div_denominator;
use vstd::arithmetic::power::{lemma_pow0, lemma_pow1, lemma_pow_adds, lemma_pow_positive, pow};
use vstd::prelude::*;
use vstd::std_specs::convert::FromSpec;
use vstd::utf8::{decode_utf8, decode_utf8_encode_utf8, encode_utf8};

use crate::bytes::{big_endian, big_endian_value, lemma_stands_split, stands_at};
use crate::cbor::decode::{
    argument_at, array_at, chunks_at, definite_string_at, entries_at, item_at, items_at, map_at,
    number_at, string_at,
};
use crate::cbor::encode::{encoding, encodings, entry_encodings, head_bytes};
use crate::cbor::laws::{
    encodable, law_encoding_injective, law_item_of_encoding, lemma_encodings_front, lemma_entry_encodings_front,
};
use crate::cbor::value::{Item, Value};

verus! {

/// Each byte of a number counts powers of 256 by its distance from the end.
pub proof fn law_bytes_by_weight(v: nat, n: nat, i: int)
    requires
        0 <= i < n,
    ensures
        big_endian(v, n).len() == n,
        big_endian(v, n)[i] as int == v as int / pow(256, (n - 1 - i) as nat) % 256,
    decreases n,
{
    lemma_pow0(256);
    lemma_length(v / 256, (n - 1) as nat);
    if i < n - 1 {
        law_bytes_by_weight(v / 256, (n - 1) as nat, i);
        let e = (n - 2 - i) as nat;
        lemma_pow1(256);
        lemma_pow_adds(256, 1, e);
        lemma_pow_positive(256, e);
        lemma_div_denominator(v as int, 256, pow(256, e));
        assert(pow(256, (n - 1 - i) as nat) == 256 * pow(256, e));
    }
}

/// As many bytes as were asked for.
proof fn lemma_length(v: nat, n: nat)
    ensures
        big_endian(v, n).len() == n,
    decreases n,
{
    if n > 0 {
        lemma_length(v / 256, (n - 1) as nat);
    }
}

/// The number that bytes stand for is made of theirs: what stands before counts
/// a power of 256 more for each byte behind it.
pub proof fn law_numbers_by_weight(a: Seq<u8>, b: Seq<u8>, x: u8)
    ensures
        big_endian_value(seq![x]) == x,
        big_endian_value(a + b) == big_endian_value(a) * pow(256, b.len()) + big_endian_value(b),
    decreases b.len(),
{
    lemma_pow0(256);
    assert(seq![x].subrange(0, 0) =~= Seq::empty());
    assert(big_endian_value(seq![x].subrange(0, 0)) == 0);
    if b.len() == 0 {
        assert(a + b =~= a);
    } else {
        let c = b.subrange(0, b.len() - 1);
        law_numbers_by_weight(a, c, x);
        assert((a + b).subrange(0, (a + b).len() - 1) =~= a + c);
        lemma_pow1(256);
        lemma_pow_adds(256, c.len(), 1);
        let p = pow(256, c.len());
        let y = big_endian_value(a) as int;
        assert(y * (p * 256) == y * p * 256) by (nonlinear_arith);
        assert(big_endian_value(a + b) == big_endian_value(a + c) * 256 + b[b.len() - 1]);
        assert(big_endian_value(b) == big_endian_value(c) * 256 + b[b.len() - 1]);
    }
}

/// How many bytes a number has behind the first byte of a head.
pub open spec fn width(n: int) -> int {
    if n < 24 {
        0
    } else if n < 0x100 {
        1
    } else if n < 0x1_0000 {
        2
    } else if n < 0x1_0000_0000 {
        4
    } else {
        8
    }
}

/// Whether bytes are a head: a number below 24 is in the first byte, and a
/// greater one is in one, two, four or eight bytes behind a first byte that says
/// how many.
pub open spec fn is_head(bytes: Seq<u8>, base: int, n: int) -> bool {
    let k = width(n);
    &&& bytes.len() == 1 + k
    &&& k == 0 ==> bytes[0] == base + n
    &&& k == 1 ==> bytes[0] == base + 0x18
    &&& k == 2 ==> bytes[0] == base + 0x19
    &&& k == 4 ==> bytes[0] == base + 0x1a
    &&& k == 8 ==> bytes[0] == base + 0x1b
    &&& forall|i: int|
        0 <= i < k ==> #[trigger] bytes[1 + i] as int == n / pow(256, (k - 1 - i) as nat) % 256
}

/// A head that is written is one.
proof fn lemma_is_head(major: int, n: nat)
    requires
        0 <= major < 8,
    ensures
        is_head(head_bytes(major, n), major * 32, n as int),
{
    let h = head_bytes(major, n);
    let k = width(n as int);
    if k > 0 {
        let b = big_endian(n, k as nat);
        lemma_length(n, k as nat);
        assert(h =~= seq![h[0]] + b);
        assert forall|i: int| 0 <= i < k implies #[trigger] h[1 + i] as int == n as int / pow(
            256,
            (k - 1 - i) as nat,
        ) % 256 by {
            law_bytes_by_weight(n, k as nat, i);
            assert(h[1 + i] == b[i]);
        }
    }
}

/// Whether bytes are a head with something behind it.
pub open spec fn headed(bytes: Seq<u8>, base: int, n: int, rest: Seq<u8>) -> bool {
    &&& bytes.len() >= rest.len()
    &&& is_head(bytes.subrange(0, bytes.len() - rest.len()), base, n)
    &&& bytes.subrange(bytes.len() - rest.len(), bytes.len() as int) == rest
}

/// What stands behind a head stands there.
proof fn lemma_headed(major: int, n: nat, rest: Seq<u8>)
    requires
        0 <= major < 8,
    ensures
        headed(head_bytes(major, n) + rest, major * 32, n as int, rest),
{
    let h = head_bytes(major, n);
    let b = h + rest;
    lemma_is_head(major, n);
    assert(b.subrange(0, b.len() - rest.len()) =~= h);
    assert(b.subrange(b.len() - rest.len(), b.len() as int) =~= rest);
}

/// A number from zero on has a head of its own; one below zero has a head from
/// 0x20 on, which counts from -1 down.
pub proof fn law_numbers_on_the_wire(n: int)
    requires
        -0x1_0000_0000_0000_0000 <= n < 0x1_0000_0000_0000_0000,
    ensures
        n >= 0 ==> is_head(encoding(Item::Integer(n)), 0x00, n),
        n < 0 ==> is_head(encoding(Item::Integer(n)), 0x20, -1 - n),
{
    if n >= 0 {
        assert(n % 0x1_0000_0000_0000_0000 == n);
        lemma_is_head(0, n as nat);
    } else {
        assert((-1 - n) % 0x1_0000_0000_0000_0000 == -1 - n);
        lemma_is_head(1, (-1 - n) as nat);
    }
}

/// Bytes have a head from 0x40 on with their length, and texts one from 0x60 on
/// with the length of their UTF-8, which follows it.
pub proof fn law_strings_on_the_wire(b: Seq<u8>, t: Seq<char>)
    ensures
        headed(encoding(Item::Bytes(b)), 0x40, b.len() as int, b),
        headed(encoding(Item::Text(t)), 0x60, encode_utf8(t).len() as int, encode_utf8(t)),
{
    lemma_headed(2, b.len(), b);
    lemma_headed(3, encode_utf8(t).len(), encode_utf8(t));
}

/// Lists have a head from 0x80 on with the number of their items, tables one
/// from 0xa0 on with the number of their entries, and a tag is a head from 0xc0
/// on before the item that it is on.
pub proof fn law_groups_on_the_wire(
    items: Seq<Item>,
    entries: Seq<(Item, Item)>,
    tag: u64,
    inner: Item,
)
    ensures
        headed(encoding(Item::Array(items)), 0x80, items.len() as int, encodings(items)),
        headed(
            encoding(Item::Entries(entries)),
            0xa0,
            entries.len() as int,
            entry_encodings(entries),
        ),
        headed(encoding(Item::Tag(tag, Box::new(inner))), 0xc0, tag as int, encoding(inner)),
{
    lemma_headed(4, items.len(), encodings(items));
    lemma_headed(5, entries.len(), entry_encodings(entries));
    lemma_headed(6, tag as nat, encoding(inner));
}

/// False, true and null are one byte each, and nothing else is one of these.
pub proof fn law_simple_values_on_the_wire(v: Item)
    requires
        encodable(v),
    ensures
        v == Item::Bool(false) <==> encoding(v) == seq![0xf4u8],
        v == Item::Bool(true) <==> encoding(v) == seq![0xf5u8],
        v == Item::Null <==> encoding(v) == seq![0xf6u8],
{
    assert(seq![0xf4u8][0] == 0xf4 && seq![0xf5u8][0] == 0xf5 && seq![0xf6u8][0] == 0xf6);
    if encoding(v) == seq![0xf4u8] {
        law_encoding_injective(v, Item::Bool(false));
    } else if encoding(v) == seq![0xf5u8] {
        law_encoding_injective(v, Item::Bool(true));
    } else if encoding(v) == seq![0xf6u8] {
        law_encoding_injective(v, Item::Null);
    }
}

/// The items of lists follow each other, and so do the keys and values of
/// tables, each key before its value.
pub proof fn law_items_follow_each_other(
    v: Item,
    items: Seq<Item>,
    w: Item,
    entries: Seq<(Item, Item)>,
)
    ensures
        encodings(Seq::empty()).len() == 0,
        encodings(seq![v] + items) == encoding(v) + encodings(items),
        entry_encodings(Seq::empty()).len() == 0,
        entry_encodings(seq![(v, w)] + entries) == encoding(v) + encoding(w) + entry_encodings(
            entries,
        ),
{
    let a = seq![v] + items;
    lemma_encodings_front(a);
    assert(a.subrange(1, a.len() as int) =~= items);
    let b = seq![(v, w)] + entries;
    lemma_entry_encodings_front(b);
    assert(b.subrange(1, b.len() as int) =~= entries);
}

/// A number is read from each of its forms, also where a shorter one would do:
/// the first byte says how many bytes hold it, and those from 0x20 on count from
/// -1 down.
pub proof fn law_numbers_are_read_in_each_form(bytes: Seq<u8>, first: int, k: int)
    requires
        bytes.len() >= 1 + k,
        first == 0x00 || first == 0x20,
        k == 1 && bytes[0] == first + 0x18 || k == 2 && bytes[0] == first + 0x19 || k == 4
            && bytes[0] == first + 0x1a || k == 8 && bytes[0] == first + 0x1b,
    ensures
        ({
            let n = big_endian_value(bytes.subrange(1, 1 + k)) as int;
            item_at(bytes, 0) == (
                Ok::<Item, Seq<char>>(
                    Item::Integer(
                        if first == 0 {
                            n
                        } else {
                            -1 - n
                        },
                    ),
                ),
                1 + k,
            )
        }),
{
    let info = bytes[0] as int % 32;
    assert(info == bytes[0] - first);
    assert(argument_at(bytes, 1, info) == number_at(bytes, 1, k));
}

/// The first byte tells what cannot be read: numbers with a point, lengths of
/// no form, and a break where no list is open. The byte 0xf7 is read like null.
pub proof fn law_what_cannot_be_read(bytes: Seq<u8>)
    requires
        bytes.len() > 0,
    ensures
        0xf9 <= bytes[0] <= 0xfb ==> item_at(bytes, 0).0 is Err,
        0xe0 <= bytes[0] <= 0xf3 || 0xfc <= bytes[0] ==> item_at(bytes, 0).0 is Err,
        bytes[0] < 0xe0 && 28 <= bytes[0] % 32 <= 30 ==> item_at(bytes, 0).0 is Err,
        bytes[0] == 0x1f || bytes[0] == 0x3f || bytes[0] == 0xdf ==> item_at(bytes, 0).0 is Err,
        bytes[0] == 0xf7 || bytes[0] == 0xf6 ==> item_at(bytes, 0) == (
            Ok::<Item, Seq<char>>(Item::Null),
            1int,
        ),
{
    let info = bytes[0] as int % 32;
    if 28 <= info <= 30 {
        assert(argument_at(bytes, 1, info).0 is Err);
        assert(array_at(bytes, 1, info).0 is Err);
        assert(map_at(bytes, 1, info).0 is Err);
    }
}

/// A list whose head is 0x9f goes on to the byte 0xff, and what it holds are the
/// items between.
pub proof fn law_open_lists_are_read(items: Seq<Item>, more: Seq<u8>)
    requires
        forall|i: int| 0 <= i < items.len() ==> encodable(#[trigger] items[i]),
    ensures
        item_at(seq![0x9fu8] + encodings(items) + seq![0xffu8] + more, 0) == (
            Ok::<Item, Seq<char>>(Item::Array(items)),
            encodings(items).len() + 2int,
        ),
{
    let bytes = seq![0x9fu8] + encodings(items) + seq![0xffu8] + more;
    let n = items.len() as int;
    assert(items.subrange(0, n) =~= items);
    assert(items.subrange(0, 0) =~= Seq::empty());
    assert(bytes.subrange(1, 1int + encodings(items).len()) =~= encodings(items));
    lemma_open_items(bytes, 1, items, 0);
    assert(array_at(bytes, 1, 31) == items_at(bytes, 1, None, Seq::empty()));
}

/// The rest of a list up to its end.
proof fn lemma_open_items(bytes: Seq<u8>, pos: int, items: Seq<Item>, k: int)
    requires
        0 <= k <= items.len(),
        forall|i: int| 0 <= i < items.len() ==> encodable(#[trigger] items[i]),
        stands_at(bytes, pos, encodings(items.subrange(k, items.len() as int))),
        pos + encodings(items.subrange(k, items.len() as int)).len() < bytes.len(),
        bytes[pos + encodings(items.subrange(k, items.len() as int)).len()] == 0xff,
    ensures
        items_at(bytes, pos, None, items.subrange(0, k)) == (
            Ok::<Seq<Item>, Seq<char>>(items),
            pos + encodings(items.subrange(k, items.len() as int)).len() + 1,
        ),
    decreases items.len() - k,
{
    let rest = items.subrange(k, items.len() as int);
    if k == items.len() {
        assert(items.subrange(0, k) =~= items);
        assert(encodings(rest).len() == 0);
    } else {
        lemma_encodings_front(rest);
        let after = items.subrange(k + 1, items.len() as int);
        assert(rest.subrange(1, rest.len() as int) =~= after);
        lemma_stands_split(bytes, pos, encoding(items[k]), encodings(after));
        law_item_of_encoding(bytes, pos, items[k]);
        lemma_no_break(bytes, pos);
        lemma_open_items(bytes, pos + encoding(items[k]).len(), items, k + 1);
        assert(items.subrange(0, k).push(items[k]) =~= items.subrange(0, k + 1));
    }
}

/// An item that is read does not begin with a break.
proof fn lemma_no_break(bytes: Seq<u8>, pos: int)
    requires
        0 <= pos,
        item_at(bytes, pos).0 is Ok,
    ensures
        pos < bytes.len(),
        bytes[pos] != 0xff,
{
}

/// A table whose head is 0xbf goes on to the byte 0xff, and what it holds are
/// the entries between.
pub proof fn law_open_tables_are_read(entries: Seq<(Item, Item)>, more: Seq<u8>)
    requires
        forall|i: int| 0 <= i < entries.len() ==> encodable((#[trigger] entries[i]).0),
        forall|i: int| 0 <= i < entries.len() ==> encodable((#[trigger] entries[i]).1),
    ensures
        item_at(seq![0xbfu8] + entry_encodings(entries) + seq![0xffu8] + more, 0) == (
            Ok::<Item, Seq<char>>(Item::Entries(entries)),
            entry_encodings(entries).len() + 2int,
        ),
{
    let bytes = seq![0xbfu8] + entry_encodings(entries) + seq![0xffu8] + more;
    let n = entries.len() as int;
    assert(entries.subrange(0, n) =~= entries);
    assert(entries.subrange(0, 0) =~= Seq::empty());
    assert(bytes.subrange(1, 1int + entry_encodings(entries).len()) =~= entry_encodings(entries));
    lemma_open_entries(bytes, 1, entries, 0);
    assert(map_at(bytes, 1, 31) == entries_at(bytes, 1, None, Seq::empty()));
}

/// The rest of a table up to its end.
proof fn lemma_open_entries(bytes: Seq<u8>, pos: int, entries: Seq<(Item, Item)>, k: int)
    requires
        0 <= k <= entries.len(),
        forall|i: int| 0 <= i < entries.len() ==> encodable((#[trigger] entries[i]).0),
        forall|i: int| 0 <= i < entries.len() ==> encodable((#[trigger] entries[i]).1),
        stands_at(bytes, pos, entry_encodings(entries.subrange(k, entries.len() as int))),
        pos + entry_encodings(entries.subrange(k, entries.len() as int)).len() < bytes.len(),
        bytes[pos + entry_encodings(entries.subrange(k, entries.len() as int)).len()] == 0xff,
    ensures
        entries_at(bytes, pos, None, entries.subrange(0, k)) == (
            Ok::<Seq<(Item, Item)>, Seq<char>>(entries),
            pos + entry_encodings(entries.subrange(k, entries.len() as int)).len() + 1,
        ),
    decreases entries.len() - k,
{
    let rest = entries.subrange(k, entries.len() as int);
    if k == entries.len() {
        assert(entries.subrange(0, k) =~= entries);
        assert(entry_encodings(rest).len() == 0);
    } else {
        lemma_entry_encodings_front(rest);
        let after = entries.subrange(k + 1, entries.len() as int);
        assert(rest.subrange(1, rest.len() as int) =~= after);
        let key = entries[k].0;
        let value = entries[k].1;
        lemma_stands_split(bytes, pos, encoding(key) + encoding(value), entry_encodings(after));
        lemma_stands_split(bytes, pos, encoding(key), encoding(value));
        law_item_of_encoding(bytes, pos, key);
        law_item_of_encoding(bytes, pos + encoding(key).len(), value);
        lemma_no_break(bytes, pos);
        lemma_open_entries(
            bytes,
            pos + encoding(key).len() + encoding(value).len(),
            entries,
            k + 1,
        );
        assert(entries.subrange(0, k).push(entries[k]) =~= entries.subrange(0, k + 1));
    }
}

/// A string whose head is 0x5f, or 0x7f for text, is made of the strings of its
/// kind that follow, up to the byte 0xff: each goes behind those before it.
pub proof fn law_open_strings_are_put_together(
    bytes: Seq<u8>,
    pos: int,
    out: Seq<u8>,
    c: Seq<u8>,
    t: Seq<char>,
)
    requires
        0 <= pos < bytes.len(),
    ensures
        bytes[pos] == 0x5f ==> string_at(bytes, pos + 1, 31, 2) == chunks_at(
            bytes,
            pos + 1,
            2,
            Seq::empty(),
        ),
        bytes[pos] == 0xff ==> chunks_at(bytes, pos, 2, out) == (
            Ok::<Seq<u8>, Seq<char>>(out),
            pos + 1,
        ) && chunks_at(bytes, pos, 3, out) == (Ok::<Seq<u8>, Seq<char>>(out), pos + 1),
        c.len() <= usize::MAX && stands_at(bytes, pos, encoding(Item::Bytes(c))) ==> chunks_at(
            bytes,
            pos,
            2,
            out,
        ) == chunks_at(bytes, pos + encoding(Item::Bytes(c)).len(), 2, out + c),
        encode_utf8(t).len() <= usize::MAX && stands_at(bytes, pos, encoding(Item::Text(t)))
            ==> chunks_at(bytes, pos, 3, out) == chunks_at(
            bytes,
            pos + encoding(Item::Text(t)).len(),
            3,
            out + encode_utf8(t),
        ),
{
    if c.len() <= usize::MAX && stands_at(bytes, pos, encoding(Item::Bytes(c))) {
        let e = encoding(Item::Bytes(c));
        law_strings_on_the_wire(c, t);
        law_item_of_encoding(bytes, pos, Item::Bytes(c));
        assert(bytes.subrange(pos, pos + e.len())[0] == bytes[pos]);
        assert(e.subrange(0, e.len() - c.len())[0] == e[0]);
    }
    if encode_utf8(t).len() <= usize::MAX && stands_at(bytes, pos, encoding(Item::Text(t))) {
        let e = encoding(Item::Text(t));
        let raw = encode_utf8(t);
        law_strings_on_the_wire(c, t);
        law_item_of_encoding(bytes, pos, Item::Text(t));
        assert(bytes.subrange(pos, pos + e.len())[0] == bytes[pos]);
        assert(e.subrange(0, e.len() - raw.len())[0] == e[0]);
        let info = bytes[pos] as int % 32;
        let found = definite_string_at(bytes, pos + 1, info);
        assert(found.0 is Ok);
        let got = found.0->Ok_0;
        assert(decode_utf8(got) == t);
        decode_utf8_encode_utf8(got);
    }
}

/// A number of any width becomes the item of that number.
pub proof fn law_numbers_become_items(
    a: i8,
    b: i16,
    c: i32,
    d: i64,
    e: u8,
    f: u16,
    g: u32,
    h: u64,
    i: i128,
)
    ensures
        <Value as FromSpec<i8>>::from_spec(a)@ == Item::Integer(a as int),
        <Value as FromSpec<i16>>::from_spec(b)@ == Item::Integer(b as int),
        <Value as FromSpec<i32>>::from_spec(c)@ == Item::Integer(c as int),
        <Value as FromSpec<i64>>::from_spec(d)@ == Item::Integer(d as int),
        <Value as FromSpec<u8>>::from_spec(e)@ == Item::Integer(e as int),
        <Value as FromSpec<u16>>::from_spec(f)@ == Item::Integer(f as int),
        <Value as FromSpec<u32>>::from_spec(g)@ == Item::Integer(g as int),
        <Value as FromSpec<u64>>::from_spec(h)@ == Item::Integer(h as int),
        <Value as FromSpec<i128>>::from_spec(i)@ == Item::Integer(i as int),
{
}

} // verus!
