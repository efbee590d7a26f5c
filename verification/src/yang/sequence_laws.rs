//! Sequences that are joined.
use vstd::prelude::*;

use crate::cbor::decode::{item_at, lemma_item_advances};
use crate::cbor::encode::encodings;
use crate::cbor::read_laws::{alike, law_item_is_its_bytes};
use crate::cbor::value::Item;
use crate::yang::codec::{sequence_from, sequence_in};

verus! {

/// The items of the first of two joined sequences are read first.
proof fn lemma_first_part(a: Seq<u8>, b: Seq<u8>, pos: int, seen: Seq<Item>, x: Seq<Item>)
    requires
        0 <= pos <= a.len(),
        sequence_from(a, pos, seen) == Ok::<Seq<Item>, Seq<char>>(x),
    ensures
        sequence_from(a + b, pos, seen) == sequence_from(a + b, a.len() as int, x),
    decreases a.len() - pos,
{
    if pos < a.len() {
        lemma_item_advances(a, pos);
        match item_at(a, pos) {
            (Ok(v), p) => {
                assert(alike(a, pos, a + b, pos, p - pos));
                law_item_is_its_bytes(a, pos, a + b, pos, v, p);
                lemma_first_part(a, b, p, seen.push(v), x);
            },
            _ => {},
        }
    }
}

/// The items of the second of two joined sequences are read behind those of
/// the first.
proof fn lemma_second_part(
    a: Seq<u8>,
    b: Seq<u8>,
    pos: int,
    x: Seq<Item>,
    seen: Seq<Item>,
    y: Seq<Item>,
)
    requires
        0 <= pos <= b.len(),
        sequence_from(b, pos, seen) == Ok::<Seq<Item>, Seq<char>>(y),
    ensures
        sequence_from(a + b, a.len() + pos, x + seen) == Ok::<Seq<Item>, Seq<char>>(x + y),
    decreases b.len() - pos,
{
    if pos < b.len() {
        lemma_item_advances(b, pos);
        match item_at(b, pos) {
            (Ok(v), p) => {
                assert(alike(b, pos, a + b, a.len() + pos, p - pos));
                law_item_is_its_bytes(b, pos, a + b, a.len() + pos, v, p);
                assert((x + seen).push(v) =~= x + seen.push(v));
                lemma_second_part(a, b, p, x, seen.push(v), y);
            },
            _ => {},
        }
    }
}

/// Two joined sequences are the items of the one and then those of the other.
pub proof fn law_sequences_join(a: Seq<u8>, b: Seq<u8>, x: Seq<Item>, y: Seq<Item>)
    requires
        sequence_in(a) == Ok::<Seq<Item>, Seq<char>>(x),
        sequence_in(b) == Ok::<Seq<Item>, Seq<char>>(y),
    ensures
        sequence_in(a + b) == Ok::<Seq<Item>, Seq<char>>(x + y),
{
    lemma_first_part(a, b, 0, Seq::empty(), x);
    lemma_second_part(a, b, 0, x, Seq::empty(), y);
    assert(x + Seq::<Item>::empty() =~= x);
}

/// Items one after the other are encoded one after the other.
proof fn lemma_encodings_join(x: Seq<Item>, y: Seq<Item>)
    ensures
        encodings(x + y) == encodings(x) + encodings(y),
    decreases y.len(),
{
    if y.len() == 0 {
        assert(x + y =~= x);
        assert(encodings(x) + encodings(y) =~= encodings(x));
    } else {
        let all = x + y;
        let most = y.subrange(0, y.len() - 1);
        lemma_encodings_join(x, most);
        assert(all.subrange(0, all.len() - 1) =~= x + most);
        assert(encodings(all) =~= encodings(x) + encodings(y));
    }
}

/// The normal form of two joined sequences is the normal form of the one and
/// then that of the other.
pub proof fn law_normal_forms_join(a: Seq<u8>, b: Seq<u8>, x: Seq<Item>, y: Seq<Item>)
    requires
        sequence_in(a) == Ok::<Seq<Item>, Seq<char>>(x),
        sequence_in(b) == Ok::<Seq<Item>, Seq<char>>(y),
    ensures
        sequence_in(a + b) matches Ok(items) && encodings(items) == encodings(x) + encodings(y),
{
    law_sequences_join(a, b, x, y);
    lemma_encodings_join(x, y);
}

} // verus!
