//! Writing data items.
use vstd::prelude::*;
use vstd::utf8::encode_utf8;

use crate::bytes::{big_endian, push_big_endian};
use crate::cbor::value::{
    entry_items, lemma_element_below, lemma_entry_below, lemma_view, value_items, Item, Value,
};

verus! {

/// The head of an item: its major type and its argument in the narrowest of
/// the five forms that holds it.
pub open spec fn head_bytes(major: int, arg: nat) -> Seq<u8> {
    if arg < 24 {
        seq![(major * 32 + arg) as u8]
    } else if arg <= 0xff {
        seq![(major * 32 + 24) as u8] + big_endian(arg, 1)
    } else if arg <= 0xffff {
        seq![(major * 32 + 25) as u8] + big_endian(arg, 2)
    } else if arg <= 0xffff_ffff {
        seq![(major * 32 + 26) as u8] + big_endian(arg, 4)
    } else {
        seq![(major * 32 + 27) as u8] + big_endian(arg, 8)
    }
}

/// The bytes that encode an item. An integer outside the range of the format
/// keeps the low 64 bits of its argument.
pub open spec fn encoding(v: Item) -> Seq<u8>
    decreases v,
{
    match v {
        Item::Integer(i) => if i >= 0 {
            head_bytes(0, (i % 0x1_0000_0000_0000_0000) as nat)
        } else {
            head_bytes(1, ((-1 - i) % 0x1_0000_0000_0000_0000) as nat)
        },
        Item::Bytes(b) => head_bytes(2, b.len()) + b,
        Item::Text(t) => head_bytes(3, encode_utf8(t).len()) + encode_utf8(t),
        Item::Array(items) => head_bytes(4, items.len()) + encodings(items),
        Item::Entries(entries) => head_bytes(5, entries.len()) + entry_encodings(entries),
        Item::Tag(tag, inner) => head_bytes(6, tag as nat) + encoding(*inner),
        Item::Bool(b) => seq![if b { 0xf5u8 } else { 0xf4u8 }],
        Item::Null => seq![0xf6u8],
    }
}

/// The encodings of some items, one after the other.
pub open spec fn encodings(items: Seq<Item>) -> Seq<u8>
    decreases items,
{
    if items.len() == 0 {
        Seq::empty()
    } else {
        encodings(items.subrange(0, items.len() - 1)) + encoding(items[items.len() - 1])
    }
}

/// The encodings of some keys and values, one after the other.
pub open spec fn entry_encodings(entries: Seq<(Item, Item)>) -> Seq<u8>
    decreases entries,
{
    if entries.len() == 0 {
        Seq::empty()
    } else {
        entry_encodings(entries.subrange(0, entries.len() - 1)) + encoding(
            entries[entries.len() - 1].0,
        ) + encoding(entries[entries.len() - 1].1)
    }
}

/// Encodes `value`: always definite lengths, always the narrowest argument.
pub fn to_vec(value: &Value) -> (out: Vec<u8>)
    ensures
        out@ == encoding(value@),
{
    let mut out: Vec<u8> = Vec::new();
    encode_value(value, &mut out);
    assert(out@ =~= encoding(value@));
    out
}

/// Appends the encoding of `value`.
pub fn encode_value(value: &Value, out: &mut Vec<u8>)
    ensures
        final(out)@ == old(out)@ + encoding(value@),
    decreases value,
{
    let ghost start = out@;
    proof {
        lemma_view(*value);
    }
    match value {
        Value::Integer(i) => {
            if *i >= 0 {
                encode_head(0, (*i % 0x1_0000_0000_0000_0000) as u64, out);
            } else {
                encode_head(1, ((-1 - *i) % 0x1_0000_0000_0000_0000) as u64, out);
            }
        },
        Value::Bytes(b) => {
            encode_head(2, b.len() as u64, out);
            out.extend_from_slice(b.as_slice());
            assert(out@ =~= start + encoding(value@));
        },
        Value::Text(s) => {
            let raw = s.as_str().as_bytes();
            encode_head(3, raw.len() as u64, out);
            out.extend_from_slice(raw);
            assert(out@ =~= start + encoding(value@));
        },
        Value::Array(items) => {
            encode_head(4, items.len() as u64, out);
            let ghost head = head_bytes(4, items@.len());
            let ghost views = value_items(items@);
            let mut i: usize = 0;
            assert(out@ =~= start + head + encodings(views.subrange(0, 0)));
            while i < items.len()
                invariant
                    i <= items@.len(),
                    *value == Value::Array(*items),
                    views == value_items(items@),
                    out@ == start + head + encodings(views.subrange(0, i as int)),
                decreases items@.len() - i,
            {
                proof {
                    lemma_element_below(*value, i as int);
                }
                encode_value(&items[i], out);
                proof {
                    let next = views.subrange(0, i + 1);
                    assert(next.subrange(0, next.len() - 1) =~= views.subrange(0, i as int));
                    assert(out@ =~= start + head + encodings(next));
                }
                i += 1;
            }
            assert(views.subrange(0, items@.len() as int) =~= views);
            assert(out@ =~= start + encoding(value@));
        },
        Value::Entries(entries) => {
            encode_head(5, entries.len() as u64, out);
            let ghost head = head_bytes(5, entries@.len());
            let ghost views = entry_items(entries@);
            let mut i: usize = 0;
            assert(out@ =~= start + head + entry_encodings(views.subrange(0, 0)));
            while i < entries.len()
                invariant
                    i <= entries@.len(),
                    *value == Value::Entries(*entries),
                    views == entry_items(entries@),
                    out@ == start + head + entry_encodings(views.subrange(0, i as int)),
                decreases entries@.len() - i,
            {
                proof {
                    lemma_entry_below(*value, i as int);
                }
                encode_value(&entries[i].0, out);
                encode_value(&entries[i].1, out);
                proof {
                    let next = views.subrange(0, i + 1);
                    assert(next.subrange(0, next.len() - 1) =~= views.subrange(0, i as int));
                    assert(out@ =~= start + head + entry_encodings(next));
                }
                i += 1;
            }
            assert(views.subrange(0, entries@.len() as int) =~= views);
            assert(out@ =~= start + encoding(value@));
        },
        Value::Tag(tag, inner) => {
            encode_head(6, *tag, out);
            encode_value(&**inner, out);
            assert(out@ =~= start + encoding(value@));
        },
        Value::Bool(b) => {
            out.push(if *b { 0xf5 } else { 0xf4 });
            assert(out@ =~= start + encoding(value@));
        },
        Value::Null => {
            out.push(0xf6);
            assert(out@ =~= start + encoding(value@));
        },
    }
}

/// Appends a head: the major type, then the argument in the narrowest of the
/// five forms that holds it.
pub fn encode_head(major: u8, arg: u64, out: &mut Vec<u8>)
    requires
        major < 8,
    ensures
        final(out)@ == old(out)@ + head_bytes(major as int, arg as nat),
{
    let ghost start = out@;
    let top: u8 = major * 32;
    if arg < 24 {
        out.push(top + arg as u8);
    } else if arg <= 0xff {
        out.push(top + 24);
        push_big_endian(arg, 1, out);
    } else if arg <= 0xffff {
        out.push(top + 25);
        push_big_endian(arg, 2, out);
    } else if arg <= 0xffff_ffff {
        out.push(top + 26);
        push_big_endian(arg, 4, out);
    } else {
        out.push(top + 27);
        push_big_endian(arg, 8, out);
    }
    assert(out@ =~= start + head_bytes(major as int, arg as nat));
}

} // verus!
