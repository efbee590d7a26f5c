//! What encoding and decoding do to each other.
use vstd::prelude::*;
use vstd::utf8::{
    decode_utf8_encode_utf8, encode_utf8, encode_utf8_decode_utf8, encode_utf8_valid_utf8,
    valid_utf8,
};

use crate::bytes::{
    big_endian, bound, lemma_big_endian, lemma_big_endian_value_bound, lemma_stands_split,
    stands_at,
};
use crate::cbor::decode::{
    argument_at, array_at, chunks_at, definite_string_at, entries_at, item_at, items_at,
    lemma_item_advances, map_at, one_less, string_at,
};
use crate::cbor::encode::{encoding, encodings, entry_encodings, head_bytes};
use crate::cbor::value::Item;

verus! {

/// Whether the format has room for an item: its integers are within the range
/// of major types 0 and 1, and its lengths can be addressed.
pub open spec fn encodable(v: Item) -> bool
    decreases v,
{
    match v {
        Item::Integer(i) => -0x1_0000_0000_0000_0000 <= i < 0x1_0000_0000_0000_0000,
        Item::Bytes(b) => b.len() <= usize::MAX,
        Item::Text(t) => encode_utf8(t).len() <= usize::MAX,
        Item::Tag(_, inner) => encodable(*inner),
        Item::Array(items) => items.len() <= usize::MAX && forall|i: int|
            0 <= i < items.len() ==> encodable(#[trigger] items[i]),
        Item::Entries(entries) => entries.len() <= usize::MAX && (forall|i: int|
            0 <= i < entries.len() ==> encodable((#[trigger] entries[i]).0)) && (forall|i: int|
            0 <= i < entries.len() ==> encodable((#[trigger] entries[i]).1)),
        Item::Bool(_) => true,
        Item::Null => true,
    }
}

/// A head that was written is read back.
proof fn lemma_head(bytes: Seq<u8>, pos: int, major: int, arg: nat)
    requires
        0 <= major < 8,
        arg <= u64::MAX,
        0 <= pos,
        pos + head_bytes(major, arg).len() <= bytes.len(),
        bytes.subrange(pos, pos + head_bytes(major, arg).len()) == head_bytes(major, arg),
    ensures
        head_bytes(major, arg).len() >= 1,
        bytes[pos] as int / 32 == major,
        bytes[pos] as int % 32 != 31,
        bytes[pos] as int % 32 <= 27,
        argument_at(bytes, pos + 1, bytes[pos] as int % 32) == (
            Ok::<nat, Seq<char>>(arg),
            pos + head_bytes(major, arg).len(),
        ),
{
    reveal_with_fuel(bound, 9);
    let head = head_bytes(major, arg);
    let n: nat = if arg < 24 {
        0
    } else if arg <= 0xff {
        1
    } else if arg <= 0xffff {
        2
    } else if arg <= 0xffff_ffff {
        4
    } else {
        8
    };
    if n > 0 {
        lemma_big_endian(arg, n);
    }
    assert(head.len() == 1 + n);
    assert(bytes[pos] == bytes.subrange(pos, pos + head.len())[0]);
    if n > 0 {
        assert(bytes.subrange(pos + 1, pos + 1 + n) =~= bytes.subrange(
            pos,
            pos + head.len(),
        ).subrange(1, 1 + n as int));
        assert(head.subrange(1, 1 + n as int) =~= big_endian(arg, n));
    }
}

pub(crate) proof fn lemma_encodings_front(items: Seq<Item>)
    requires
        items.len() > 0,
    ensures
        encodings(items) == encoding(items[0]) + encodings(items.subrange(1, items.len() as int)),
    decreases items.len(),
{
    let rest = items.subrange(1, items.len() as int);
    if items.len() == 1 {
        assert(items.subrange(0, 0) =~= Seq::empty());
        assert(encodings(rest) =~= Seq::empty());
        assert(encodings(items.subrange(0, 0)) =~= Seq::empty());
        assert(encodings(items) =~= encoding(items[0]) + encodings(rest));
    } else {
        let most = items.subrange(0, items.len() - 1);
        lemma_encodings_front(most);
        assert(most.subrange(1, most.len() as int) =~= rest.subrange(0, rest.len() - 1));
        assert(encodings(items) =~= encoding(items[0]) + encodings(rest));
    }
}

pub(crate) proof fn lemma_entry_encodings_front(entries: Seq<(Item, Item)>)
    requires
        entries.len() > 0,
    ensures
        entry_encodings(entries) == encoding(entries[0].0) + encoding(entries[0].1)
            + entry_encodings(entries.subrange(1, entries.len() as int)),
    decreases entries.len(),
{
    let rest = entries.subrange(1, entries.len() as int);
    let first = encoding(entries[0].0) + encoding(entries[0].1);
    if entries.len() == 1 {
        assert(entries.subrange(0, 0) =~= Seq::empty());
        assert(entry_encodings(rest) =~= Seq::empty());
        assert(entry_encodings(entries.subrange(0, 0)) =~= Seq::empty());
        assert(entry_encodings(entries) =~= first + entry_encodings(rest));
    } else {
        let most = entries.subrange(0, entries.len() - 1);
        lemma_entry_encodings_front(most);
        assert(most.subrange(1, most.len() as int) =~= rest.subrange(0, rest.len() - 1));
        assert(entry_encodings(entries) =~= first + entry_encodings(rest));
    }
}

/// The encoding of an item without parts is read back.
proof fn lemma_plain_item(bytes: Seq<u8>, pos: int, v: Item)
    requires
        encodable(v),
        stands_at(bytes, pos, encoding(v)),
        !(v is Array || v is Entries || v is Tag),
    ensures
        item_at(bytes, pos) == (Ok::<Item, Seq<char>>(v), pos + encoding(v).len()),
        encoding(v).len() > 0,
{
    match v {
        Item::Integer(i) => {
            if i >= 0 {
                assert(i % 0x1_0000_0000_0000_0000 == i);
                assert(encoding(v) == head_bytes(0, i as nat));
                lemma_head(bytes, pos, 0, i as nat);
            } else {
                assert((-1 - i) % 0x1_0000_0000_0000_0000 == -1 - i);
                assert(encoding(v) == head_bytes(1, (-1 - i) as nat));
                lemma_head(bytes, pos, 1, (-1 - i) as nat);
            }
        },
        Item::Bytes(b) => {
            let head = head_bytes(2, b.len());
            lemma_stands_split(bytes, pos, head, b);
            lemma_head(bytes, pos, 2, b.len());
        },
        Item::Text(t) => {
            let raw = encode_utf8(t);
            let head = head_bytes(3, raw.len());
            lemma_stands_split(bytes, pos, head, raw);
            lemma_head(bytes, pos, 3, raw.len());
            encode_utf8_valid_utf8(t);
            encode_utf8_decode_utf8(t);
        },
        Item::Bool(b) => {
            assert(bytes[pos] == bytes.subrange(pos, pos + 1)[0]);
        },
        _ => {
            assert(bytes[pos] == bytes.subrange(pos, pos + 1)[0]);
        },
    }
}

/// The encoding of an item, wherever it stands, is read back as that item.
pub proof fn law_item_of_encoding(bytes: Seq<u8>, pos: int, v: Item)
    requires
        encodable(v),
        stands_at(bytes, pos, encoding(v)),
    ensures
        item_at(bytes, pos) == (Ok::<Item, Seq<char>>(v), pos + encoding(v).len()),
        encoding(v).len() > 0,
    decreases v,
{
    match v {
        Item::Array(items) => {
            let head = head_bytes(4, items.len());
            lemma_stands_split(bytes, pos, head, encodings(items));
            lemma_head(bytes, pos, 4, items.len());
            assert(items.subrange(0, items.len() as int) =~= items);
            lemma_items_of_encodings(bytes, pos + head.len(), items, 0);
            assert(items.subrange(0, 0) =~= Seq::empty());
            assert(array_at(bytes, pos + 1, bytes[pos] as int % 32).0 == Ok::<
                Seq<Item>,
                Seq<char>,
            >(items));
        },
        Item::Entries(entries) => {
            let head = head_bytes(5, entries.len());
            lemma_stands_split(bytes, pos, head, entry_encodings(entries));
            lemma_head(bytes, pos, 5, entries.len());
            assert(entries.subrange(0, entries.len() as int) =~= entries);
            lemma_entries_of_encodings(bytes, pos + head.len(), entries, 0);
            assert(entries.subrange(0, 0) =~= Seq::empty());
            assert(map_at(bytes, pos + 1, bytes[pos] as int % 32).0 == Ok::<
                Seq<(Item, Item)>,
                Seq<char>,
            >(entries));
        },
        Item::Tag(tag, inner) => {
            let head = head_bytes(6, tag as nat);
            lemma_stands_split(bytes, pos, head, encoding(*inner));
            lemma_head(bytes, pos, 6, tag as nat);
            law_item_of_encoding(bytes, pos + head.len(), *inner);
        },
        _ => {
            lemma_plain_item(bytes, pos, v);
        },
    }
}

/// The rest of a counted array is read back behind its first `k` items.
proof fn lemma_items_of_encodings(bytes: Seq<u8>, pos: int, items: Seq<Item>, k: int)
    requires
        0 <= k <= items.len(),
        forall|i: int| 0 <= i < items.len() ==> encodable(#[trigger] items[i]),
        stands_at(bytes, pos, encodings(items.subrange(k, items.len() as int))),
    ensures
        items_at(bytes, pos, Some((items.len() - k) as nat), items.subrange(0, k)) == (
            Ok::<Seq<Item>, Seq<char>>(items),
            pos + encodings(items.subrange(k, items.len() as int)).len(),
        ),
    decreases items, items.len() - k,
{
    let rest = items.subrange(k, items.len() as int);
    if k == items.len() {
        assert(items.subrange(0, k) =~= items);
        assert(encodings(rest).len() == 0);
    } else {
        lemma_encodings_front(rest);
        let after = items.subrange(k + 1, items.len() as int);
        assert(rest.subrange(1, rest.len() as int) =~= after);
        lemma_stands_split(bytes, pos, encoding(items[k]), encodings(after));
        law_item_of_encoding(bytes, pos, items[k]);
        lemma_items_of_encodings(bytes, pos + encoding(items[k]).len(), items, k + 1);
        assert(items.subrange(0, k).push(items[k]) =~= items.subrange(0, k + 1));
    }
}

/// The rest of a counted table is read back behind its first `k` entries.
proof fn lemma_entries_of_encodings(bytes: Seq<u8>, pos: int, entries: Seq<(Item, Item)>, k: int)
    requires
        0 <= k <= entries.len(),
        forall|i: int| 0 <= i < entries.len() ==> encodable((#[trigger] entries[i]).0),
        forall|i: int| 0 <= i < entries.len() ==> encodable((#[trigger] entries[i]).1),
        stands_at(bytes, pos, entry_encodings(entries.subrange(k, entries.len() as int))),
    ensures
        entries_at(bytes, pos, Some((entries.len() - k) as nat), entries.subrange(0, k)) == (
            Ok::<Seq<(Item, Item)>, Seq<char>>(entries),
            pos + entry_encodings(entries.subrange(k, entries.len() as int)).len(),
        ),
    decreases entries, entries.len() - k,
{
    let rest = entries.subrange(k, entries.len() as int);
    if k == entries.len() {
        assert(entries.subrange(0, k) =~= entries);
        assert(entry_encodings(rest).len() == 0);
    } else {
        lemma_entry_encodings_front(rest);
        let after = entries.subrange(k + 1, entries.len() as int);
        assert(rest.subrange(1, rest.len() as int) =~= after);
        let key = entries[k].0;
        let value = entries[k].1;
        assert(decreases_to!(entries => entries[k]));
        lemma_stands_split(bytes, pos, encoding(key) + encoding(value), entry_encodings(after));
        lemma_stands_split(bytes, pos, encoding(key), encoding(value));
        law_item_of_encoding(bytes, pos, key);
        law_item_of_encoding(bytes, pos + encoding(key).len(), value);
        lemma_entries_of_encodings(
            bytes,
            pos + encoding(key).len() + encoding(value).len(),
            entries,
            k + 1,
        );
        assert(entries.subrange(0, k).push(entries[k]) =~= entries.subrange(0, k + 1));
    }
}

/// Decoding what was encoded gives the item back, whatever stands before and
/// after it, and stops right behind it.
pub proof fn law_decode_of_encode(before: Seq<u8>, v: Item, after: Seq<u8>)
    requires
        encodable(v),
    ensures
        item_at(before + encoding(v) + after, before.len() as int) == (
            Ok::<Item, Seq<char>>(v),
            (before + encoding(v)).len() as int,
        ),
{
    let bytes = before + encoding(v) + after;
    assert(bytes.subrange(before.len() as int, (before + encoding(v)).len() as int) =~= encoding(v));
    law_item_of_encoding(bytes, before.len() as int, v);
}

/// Different items have different encodings.
pub proof fn law_encoding_injective(a: Item, b: Item)
    requires
        encodable(a),
        encodable(b),
        encoding(a) == encoding(b),
    ensures
        a == b,
{
    law_decode_of_encode(Seq::empty(), a, Seq::empty());
    law_decode_of_encode(Seq::empty(), b, Seq::empty());
}

proof fn lemma_argument_bound(bytes: Seq<u8>, pos: int, info: int)
    requires
        0 <= pos,
        0 <= info,
    ensures
        argument_at(bytes, pos, info) matches (Ok(n), _) ==> n <= u64::MAX,
{
    reveal_with_fuel(bound, 9);
    if 24 <= info <= 27 {
        let n: int = if info == 24 {
            1
        } else if info == 25 {
            2
        } else if info == 26 {
            4
        } else {
            8
        };
        if pos + n <= bytes.len() {
            lemma_big_endian_value_bound(bytes.subrange(pos, pos + n));
        }
    }
}

proof fn lemma_chunks_length(bytes: Seq<u8>, pos: int, major: int, out: Seq<u8>)
    requires
        0 <= pos <= bytes.len(),
        out.len() <= pos,
    ensures
        chunks_at(bytes, pos, major, out) matches (Ok(s), p) ==> s.len() <= p <= bytes.len(),
    decreases bytes.len() - pos,
{
    if pos < bytes.len() && bytes[pos] != 0xff {
        match definite_string_at(bytes, pos + 1, bytes[pos] as int % 32) {
            (Err(e), p) => {},
            (Ok(chunk), p) => {
                lemma_chunks_length(bytes, p, major, out + chunk);
            },
        }
    }
}

/// Every item that is read can be encoded again.
pub proof fn law_decoded_is_encodable(bytes: Seq<u8>, pos: int)
    requires
        0 <= pos,
        bytes.len() <= usize::MAX,
    ensures
        item_at(bytes, pos) matches (Ok(v), _) ==> encodable(v),
    decreases bytes.len() - pos, 0int,
{
    if pos < bytes.len() {
        let major = bytes[pos] as int / 32;
        let info = bytes[pos] as int % 32;
        lemma_argument_bound(bytes, pos + 1, info);
        if major == 0 || major == 1 {
            assert(item_at(bytes, pos) matches (Ok(v), _) ==> encodable(v));
        } else if major == 2 || major == 3 {
            if info == 31 {
                lemma_chunks_length(bytes, pos + 1, major, Seq::empty());
            }
            match string_at(bytes, pos + 1, info, major) {
                (Err(e), p) => {},
                (Ok(raw), p) => {
                    if valid_utf8(raw) {
                        decode_utf8_encode_utf8(raw);
                    }
                },
            }
            assert(item_at(bytes, pos) matches (Ok(v), _) ==> encodable(v));
        } else if major == 4 {
            let read = array_at(bytes, pos + 1, info);
            if info == 31 {
                lemma_items_encodable(bytes, pos + 1, None, Seq::empty());
            } else {
                match argument_at(bytes, pos + 1, info) {
                    (Err(e), p) => {},
                    (Ok(count), p) => {
                        lemma_items_encodable(bytes, p, Some(count), Seq::empty());
                    },
                }
            }
            assert(read matches (Ok(s), _) ==> encodable(Item::Array(s)));
            assert(item_at(bytes, pos) matches (Ok(v), _) ==> encodable(v));
        } else if major == 5 {
            let read = map_at(bytes, pos + 1, info);
            if info == 31 {
                lemma_entries_encodable(bytes, pos + 1, None, Seq::empty());
            } else {
                match argument_at(bytes, pos + 1, info) {
                    (Err(e), p) => {},
                    (Ok(count), p) => {
                        lemma_entries_encodable(bytes, p, Some(count), Seq::empty());
                    },
                }
            }
            assert(read matches (Ok(s), _) ==> encodable(Item::Entries(s)));
            assert(item_at(bytes, pos) matches (Ok(v), _) ==> encodable(v));
        } else if major == 6 {
            match argument_at(bytes, pos + 1, info) {
                (Err(e), p) => {},
                (Ok(tag), p) => {
                    law_decoded_is_encodable(bytes, p);
                },
            }
            assert(item_at(bytes, pos) matches (Ok(v), _) ==> encodable(v));
        } else {
            assert(item_at(bytes, pos) matches (Ok(v), _) ==> encodable(v));
        }
    }
}

proof fn lemma_items_encodable(bytes: Seq<u8>, pos: int, left: Option<nat>, out: Seq<Item>)
    requires
        0 <= pos <= bytes.len() <= usize::MAX,
        out.len() <= pos,
        forall|i: int| 0 <= i < out.len() ==> encodable(#[trigger] out[i]),
    ensures
        items_at(bytes, pos, left, out) matches (Ok(s), p) ==> s.len() <= p <= bytes.len()
            && forall|i: int| 0 <= i < s.len() ==> encodable(#[trigger] s[i]),
    decreases bytes.len() - pos, 1int,
{
    if left == Some(0nat) {
    } else if left is None && pos >= bytes.len() {
    } else if left is None && bytes[pos] == 0xff {
    } else {
        lemma_item_advances(bytes, pos);
        law_decoded_is_encodable(bytes, pos);
        match item_at(bytes, pos) {
            (Err(e), p) => {},
            (Ok(item), p) => {
                lemma_items_encodable(bytes, p, one_less(left), out.push(item));
            },
        }
    }
}

proof fn lemma_entries_encodable(
    bytes: Seq<u8>,
    pos: int,
    left: Option<nat>,
    out: Seq<(Item, Item)>,
)
    requires
        0 <= pos <= bytes.len() <= usize::MAX,
        out.len() <= pos,
        forall|i: int| 0 <= i < out.len() ==> encodable((#[trigger] out[i]).0),
        forall|i: int| 0 <= i < out.len() ==> encodable((#[trigger] out[i]).1),
    ensures
        entries_at(bytes, pos, left, out) matches (Ok(s), p) ==> s.len() <= p <= bytes.len()
            && (forall|i: int| 0 <= i < s.len() ==> encodable((#[trigger] s[i]).0)) && (forall|i: int|
            0 <= i < s.len() ==> encodable((#[trigger] s[i]).1)),
    decreases bytes.len() - pos, 1int,
{
    if left == Some(0nat) {
    } else if left is None && pos >= bytes.len() {
    } else if left is None && bytes[pos] == 0xff {
    } else {
        lemma_item_advances(bytes, pos);
        law_decoded_is_encodable(bytes, pos);
        match item_at(bytes, pos) {
            (Err(e), p) => {},
            (Ok(key), p) => {
                lemma_item_advances(bytes, p);
                law_decoded_is_encodable(bytes, p);
                match item_at(bytes, p) {
                    (Err(e), q) => {},
                    (Ok(value), q) => {
                        lemma_entries_encodable(bytes, q, one_less(left), out.push((key, value)));
                    },
                }
            },
        }
    }
}

} // verus!
