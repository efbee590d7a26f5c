//! What reading depends on, and how short an encoding can be.
use vstd::prelude::*;
use vstd::utf8::{decode_utf8_encode_utf8, valid_utf8};

use crate::bytes::{big_endian, bound, lemma_big_endian_value_bound};
use crate::cbor::decode::{
    argument_at, array_at, chunks_at, definite_string_at, entries_at, item_at, items_at,
    lemma_chunks_advance, lemma_entries_advance, lemma_item_advances, lemma_items_advance, map_at,
    one_less, string_at,
};
use crate::cbor::encode::{encoding, encodings, entry_encodings, head_bytes};
use crate::cbor::value::Item;

verus! {

/// Whether the same `n` bytes stand in two byte strings at two places.
pub open spec fn alike(a: Seq<u8>, i: int, b: Seq<u8>, j: int, n: int) -> bool {
    &&& 0 <= i && 0 <= n && i + n <= a.len()
    &&& 0 <= j && j + n <= b.len()
    &&& forall|k: int| 0 <= k < n ==> #[trigger] a[i + k] == b[j + k]
}

/// A part of what is alike is alike.
proof fn lemma_alike_part(a: Seq<u8>, i: int, b: Seq<u8>, j: int, n: int, from: int, to: int)
    requires
        alike(a, i, b, j, n),
        0 <= from <= to <= n,
    ensures
        alike(a, i + from, b, j + from, to - from),
        a.subrange(i + from, i + to) == b.subrange(j + from, j + to),
{
    assert forall|k: int| 0 <= k < to - from implies #[trigger] a[i + from + k] == b[j + from
        + k] by {
        assert(a[i + (from + k)] == b[j + (from + k)]);
    }
    let x = a.subrange(i + from, i + to);
    let y = b.subrange(j + from, j + to);
    assert forall|k: int| 0 <= k < to - from implies #[trigger] x[k] == y[k] by {
        assert(a[i + (from + k)] == b[j + (from + k)]);
    }
    assert(x =~= y);
}

/// An argument depends only on its own bytes.
proof fn lemma_argument_alike(a: Seq<u8>, i: int, b: Seq<u8>, j: int, info: int, n: nat, p: int)
    requires
        argument_at(a, i, info) == (Ok::<nat, Seq<char>>(n), p),
        alike(a, i, b, j, p - i),
    ensures
        argument_at(b, j, info) == (Ok::<nat, Seq<char>>(n), j + (p - i)),
{
    lemma_alike_part(a, i, b, j, p - i, 0, p - i);
}

/// How far an argument reaches.
proof fn lemma_argument_reach(bytes: Seq<u8>, pos: int, info: int)
    requires
        0 <= pos,
        0 <= info,
    ensures
        argument_at(bytes, pos, info) matches (Ok(_), p) ==> pos <= p && (p <= bytes.len() || p
            == pos),
{
}

/// A string of definite length depends only on its own bytes.
proof fn lemma_definite_alike(
    a: Seq<u8>,
    i: int,
    b: Seq<u8>,
    j: int,
    info: int,
    s: Seq<u8>,
    p: int,
)
    requires
        0 <= info,
        definite_string_at(a, i, info) == (Ok::<Seq<u8>, Seq<char>>(s), p),
        alike(a, i, b, j, p - i),
    ensures
        definite_string_at(b, j, info) == (Ok::<Seq<u8>, Seq<char>>(s), j + (p - i)),
{
    lemma_argument_reach(a, i, info);
    match argument_at(a, i, info) {
        (Ok(len), q) => {
            lemma_alike_part(a, i, b, j, p - i, 0, q - i);
            lemma_argument_alike(a, i, b, j, info, len, q);
            lemma_alike_part(a, i, b, j, p - i, q - i, p - i);
        },
        _ => {},
    }
}

/// Chunks depend only on their own bytes.
proof fn lemma_chunks_alike(
    a: Seq<u8>,
    i: int,
    b: Seq<u8>,
    j: int,
    major: int,
    out: Seq<u8>,
    s: Seq<u8>,
    p: int,
)
    requires
        0 <= i <= a.len(),
        chunks_at(a, i, major, out) == (Ok::<Seq<u8>, Seq<char>>(s), p),
        alike(a, i, b, j, p - i),
    ensures
        chunks_at(b, j, major, out) == (Ok::<Seq<u8>, Seq<char>>(s), j + (p - i)),
    decreases a.len() - i,
{
    lemma_chunks_advance(a, i, major, out);
    assert(a[i + 0] == b[j + 0]);
    if a[i] != 0xff {
        let info = a[i] as int % 32;
        match definite_string_at(a, i + 1, info) {
            (Ok(chunk), q) => {
                lemma_argument_reach(a, i + 1, info);
                lemma_chunks_advance(a, q, major, out + chunk);
                lemma_alike_part(a, i, b, j, p - i, 1, q - i);
                lemma_definite_alike(a, i + 1, b, j + 1, info, chunk, q);
                lemma_alike_part(a, i, b, j, p - i, q - i, p - i);
                lemma_chunks_alike(a, q, b, j + (q - i), major, out + chunk, s, p);
            },
            _ => {},
        }
    }
}

/// A data item depends only on its own bytes: where these stand elsewhere, the
/// same item is read.
pub proof fn law_item_is_its_bytes(a: Seq<u8>, i: int, b: Seq<u8>, j: int, v: Item, p: int)
    requires
        0 <= i <= a.len(),
        item_at(a, i) == (Ok::<Item, Seq<char>>(v), p),
        alike(a, i, b, j, p - i),
    ensures
        item_at(b, j) == (Ok::<Item, Seq<char>>(v), j + (p - i)),
    decreases a.len() - i, 0int,
{
    lemma_item_advances(a, i);
    assert(a[i + 0] == b[j + 0]);
    let major = a[i] as int / 32;
    let info = a[i] as int % 32;
    lemma_alike_part(a, i, b, j, p - i, 1, p - i);
    lemma_argument_reach(a, i + 1, info);
    if major == 0 || major == 1 {
        match argument_at(a, i + 1, info) {
            (Ok(n), q) => {
                lemma_argument_alike(a, i + 1, b, j + 1, info, n, q);
            },
            _ => {},
        }
    } else if major == 2 || major == 3 {
        match string_at(a, i + 1, info, major) {
            (Ok(raw), q) => {
                if info == 31 {
                    lemma_chunks_alike(a, i + 1, b, j + 1, major, Seq::empty(), raw, q);
                } else {
                    lemma_definite_alike(a, i + 1, b, j + 1, info, raw, q);
                }
            },
            _ => {},
        }
    } else if major == 4 {
        match array_at(a, i + 1, info) {
            (Ok(items), q) => {
                lemma_array_alike(a, i + 1, b, j + 1, info, items, q);
            },
            _ => {},
        }
    } else if major == 5 {
        match map_at(a, i + 1, info) {
            (Ok(entries), q) => {
                lemma_map_alike(a, i + 1, b, j + 1, info, entries, q);
            },
            _ => {},
        }
    } else if major == 6 {
        match argument_at(a, i + 1, info) {
            (Ok(tag), q) => {
                lemma_item_advances(a, q);
                lemma_alike_part(a, i, b, j, p - i, 1, q - i);
                lemma_argument_alike(a, i + 1, b, j + 1, info, tag, q);
                lemma_alike_part(a, i, b, j, p - i, q - i, p - i);
                match item_at(a, q) {
                    (Ok(inner), r) => {
                        law_item_is_its_bytes(a, q, b, j + (q - i), inner, r);
                    },
                    _ => {},
                }
            },
            _ => {},
        }
    }
}

proof fn lemma_array_alike(
    a: Seq<u8>,
    i: int,
    b: Seq<u8>,
    j: int,
    info: int,
    s: Seq<Item>,
    p: int,
)
    requires
        0 <= info,
        0 <= i <= a.len(),
        array_at(a, i, info) == (Ok::<Seq<Item>, Seq<char>>(s), p),
        alike(a, i, b, j, p - i),
    ensures
        array_at(b, j, info) == (Ok::<Seq<Item>, Seq<char>>(s), j + (p - i)),
    decreases a.len() - i, 2int,
{
    if info == 31 {
        lemma_items_alike(a, i, b, j, None, Seq::empty(), s, p);
    } else {
        lemma_argument_reach(a, i, info);
        match argument_at(a, i, info) {
            (Ok(count), q) => {
                lemma_items_advance(a, q, Some(count), Seq::empty());
                lemma_alike_part(a, i, b, j, p - i, 0, q - i);
                lemma_argument_alike(a, i, b, j, info, count, q);
                lemma_alike_part(a, i, b, j, p - i, q - i, p - i);
                lemma_items_alike(a, q, b, j + (q - i), Some(count), Seq::empty(), s, p);
            },
            _ => {},
        }
    }
}

proof fn lemma_items_alike(
    a: Seq<u8>,
    i: int,
    b: Seq<u8>,
    j: int,
    left: Option<nat>,
    out: Seq<Item>,
    s: Seq<Item>,
    p: int,
)
    requires
        0 <= i <= a.len(),
        items_at(a, i, left, out) == (Ok::<Seq<Item>, Seq<char>>(s), p),
        alike(a, i, b, j, p - i),
    ensures
        items_at(b, j, left, out) == (Ok::<Seq<Item>, Seq<char>>(s), j + (p - i)),
    decreases a.len() - i, 1int,
{
    lemma_items_advance(a, i, left, out);
    if left == Some(0nat) {
    } else if left is None && a[i] == 0xff {
        assert(a[i + 0] == b[j + 0]);
    } else {
        lemma_item_advances(a, i);
        match item_at(a, i) {
            (Ok(item), q) => {
                lemma_items_advance(a, q, one_less(left), out.push(item));
                assert(a[i + 0] == b[j + 0]);
                lemma_alike_part(a, i, b, j, p - i, 0, q - i);
                law_item_is_its_bytes(a, i, b, j, item, q);
                lemma_alike_part(a, i, b, j, p - i, q - i, p - i);
                lemma_items_alike(a, q, b, j + (q - i), one_less(left), out.push(item), s, p);
            },
            _ => {},
        }
    }
}

proof fn lemma_map_alike(
    a: Seq<u8>,
    i: int,
    b: Seq<u8>,
    j: int,
    info: int,
    s: Seq<(Item, Item)>,
    p: int,
)
    requires
        0 <= info,
        0 <= i <= a.len(),
        map_at(a, i, info) == (Ok::<Seq<(Item, Item)>, Seq<char>>(s), p),
        alike(a, i, b, j, p - i),
    ensures
        map_at(b, j, info) == (Ok::<Seq<(Item, Item)>, Seq<char>>(s), j + (p - i)),
    decreases a.len() - i, 2int,
{
    if info == 31 {
        lemma_entries_alike(a, i, b, j, None, Seq::empty(), s, p);
    } else {
        lemma_argument_reach(a, i, info);
        match argument_at(a, i, info) {
            (Ok(count), q) => {
                lemma_entries_advance(a, q, Some(count), Seq::empty());
                lemma_alike_part(a, i, b, j, p - i, 0, q - i);
                lemma_argument_alike(a, i, b, j, info, count, q);
                lemma_alike_part(a, i, b, j, p - i, q - i, p - i);
                lemma_entries_alike(a, q, b, j + (q - i), Some(count), Seq::empty(), s, p);
            },
            _ => {},
        }
    }
}

proof fn lemma_entries_alike(
    a: Seq<u8>,
    i: int,
    b: Seq<u8>,
    j: int,
    left: Option<nat>,
    out: Seq<(Item, Item)>,
    s: Seq<(Item, Item)>,
    p: int,
)
    requires
        0 <= i <= a.len(),
        entries_at(a, i, left, out) == (Ok::<Seq<(Item, Item)>, Seq<char>>(s), p),
        alike(a, i, b, j, p - i),
    ensures
        entries_at(b, j, left, out) == (Ok::<Seq<(Item, Item)>, Seq<char>>(s), j + (p - i)),
    decreases a.len() - i, 1int,
{
    lemma_entries_advance(a, i, left, out);
    if left == Some(0nat) {
    } else if left is None && a[i] == 0xff {
        assert(a[i + 0] == b[j + 0]);
    } else {
        lemma_item_advances(a, i);
        match item_at(a, i) {
            (Ok(key), q) => {
                lemma_item_advances(a, q);
                match item_at(a, q) {
                    (Ok(value), r) => {
                        let next = out.push((key, value));
                        lemma_entries_advance(a, r, one_less(left), next);
                        assert(a[i + 0] == b[j + 0]);
                        lemma_alike_part(a, i, b, j, p - i, 0, q - i);
                        law_item_is_its_bytes(a, i, b, j, key, q);
                        lemma_alike_part(a, i, b, j, p - i, q - i, r - i);
                        law_item_is_its_bytes(a, q, b, j + (q - i), value, r);
                        lemma_alike_part(a, i, b, j, p - i, r - i, p - i);
                        lemma_entries_alike(a, r, b, j + (r - i), one_less(left), next, s, p);
                    },
                    _ => {},
                }
            },
            _ => {},
        }
    }
}

/// A data item whose last bytes are missing is refused.
pub proof fn law_truncated_item_is_refused(bytes: Seq<u8>, pos: int, n: int)
    requires
        0 <= pos <= n,
        item_at(bytes, pos) matches (Ok(_), p) && n < p,
    ensures
        item_at(bytes.subrange(0, n), pos).0 is Err,
{
    if pos <= bytes.len() {
        lemma_item_advances(bytes, pos);
        let short = bytes.subrange(0, n);
        lemma_item_advances(short, pos);
        match item_at(short, pos) {
            (Ok(v), q) => {
                assert(alike(short, pos, bytes, pos, q - pos));
                law_item_is_its_bytes(short, pos, bytes, pos, v, q);
            },
            _ => {},
        }
    }
}

/// Whether the data item at a place, and all in it, are of definite length.
pub open spec fn definite_at(bytes: Seq<u8>, pos: int) -> bool
    decreases bytes.len() - pos, 0int,
{
    if pos >= bytes.len() {
        true
    } else {
        let major = bytes[pos] as int / 32;
        let info = bytes[pos] as int % 32;
        if 2 <= major <= 5 && info == 31 {
            false
        } else if major == 4 || major == 5 || major == 6 {
            match argument_at(bytes, pos + 1, info) {
                (Ok(n), p) => if p > pos {
                    definite_items(
                        bytes,
                        p,
                        if major == 4 {
                            n
                        } else if major == 5 {
                            2 * n
                        } else {
                            1
                        },
                    )
                } else {
                    true
                },
                _ => true,
            }
        } else {
            true
        }
    }
}

/// Whether the next `n` data items, and all in them, are of definite length.
pub open spec fn definite_items(bytes: Seq<u8>, pos: int, n: nat) -> bool
    decreases bytes.len() - pos, 1int,
{
    if n == 0 {
        true
    } else {
        definite_at(bytes, pos) && match item_at(bytes, pos) {
            (Ok(_), p) => pos < p <= bytes.len() ==> definite_items(bytes, p, (n - 1) as nat),
            _ => true,
        }
    }
}

proof fn lemma_big_endian_length(n: nat, k: nat)
    ensures
        big_endian(n, k).len() == k,
    decreases k,
{
    if k > 0 {
        lemma_big_endian_length(n / 256, (k - 1) as nat);
    }
}

/// No head with an argument is shorter than the one that is written.
proof fn lemma_head_is_short(bytes: Seq<u8>, pos: int, info: int, major: int)
    requires
        0 <= pos,
        0 <= info,
    ensures
        argument_at(bytes, pos, info) matches (Ok(n), p) ==> head_bytes(major, n).len() <= 1 + (p
            - pos) && n <= u64::MAX,
{
    reveal_with_fuel(bound, 9);
    let n: int = if info == 24 {
        1
    } else if info == 25 {
        2
    } else if info == 26 {
        4
    } else {
        8
    };
    if 24 <= info <= 27 && pos + n <= bytes.len() {
        let raw = bytes.subrange(pos, pos + n);
        lemma_big_endian_value_bound(raw);
        let value = argument_at(bytes, pos, info).0->Ok_0;
        lemma_big_endian_length(value, 1);
        lemma_big_endian_length(value, 2);
        lemma_big_endian_length(value, 4);
        lemma_big_endian_length(value, 8);
    }
}

/// No encoding of definite length is shorter than the one that is written.
pub proof fn law_encoding_is_shortest(bytes: Seq<u8>, pos: int, v: Item, p: int)
    requires
        0 <= pos <= bytes.len(),
        definite_at(bytes, pos),
        item_at(bytes, pos) == (Ok::<Item, Seq<char>>(v), p),
    ensures
        encoding(v).len() <= p - pos,
    decreases bytes.len() - pos, 0int,
{
    lemma_item_advances(bytes, pos);
    let major = bytes[pos] as int / 32;
    let info = bytes[pos] as int % 32;
    lemma_head_is_short(bytes, pos + 1, info, major);
    lemma_argument_reach(bytes, pos + 1, info);
    if major == 0 || major == 1 {
        match argument_at(bytes, pos + 1, info) {
            (Ok(n), q) => {
                assert(encoding(v) == head_bytes(major, n));
            },
            _ => {},
        }
    } else if major == 2 || major == 3 {
        match definite_string_at(bytes, pos + 1, info) {
            (Ok(raw), q) => {
                if valid_utf8(raw) {
                    decode_utf8_encode_utf8(raw);
                }
                assert(encoding(v) == head_bytes(major, raw.len()) + raw);
            },
            _ => {},
        }
    } else if major == 4 {
        match argument_at(bytes, pos + 1, info) {
            (Ok(count), q) => {
                lemma_items_short(bytes, q, count, Seq::empty());
                assert(encodings(Seq::<Item>::empty()).len() == 0);
                let items = v->Array_0;
                assert(array_at(bytes, pos + 1, info) == (Ok::<Seq<Item>, Seq<char>>(items), p));
                assert(items_at(bytes, q, Some(count), Seq::empty()) == (
                    Ok::<Seq<Item>, Seq<char>>(items),
                    p,
                ));
                assert(encoding(v) == head_bytes(4, items.len()) + encodings(items));
                assert(items.len() == count);
            },
            _ => {
                assert(array_at(bytes, pos + 1, info).0 is Err);
            },
        }
    } else if major == 5 {
        match argument_at(bytes, pos + 1, info) {
            (Ok(count), q) => {
                lemma_entries_short(bytes, q, count, Seq::empty());
                assert(entry_encodings(Seq::<(Item, Item)>::empty()).len() == 0);
                let entries = v->Entries_0;
                assert(map_at(bytes, pos + 1, info) == (
                    Ok::<Seq<(Item, Item)>, Seq<char>>(entries),
                    p,
                ));
                assert(entries_at(bytes, q, Some(count), Seq::empty()) == (
                    Ok::<Seq<(Item, Item)>, Seq<char>>(entries),
                    p,
                ));
                assert(encoding(v) == head_bytes(5, entries.len()) + entry_encodings(entries));
                assert(entries.len() == count);
            },
            _ => {
                assert(map_at(bytes, pos + 1, info).0 is Err);
            },
        }
    } else if major == 6 {
        match argument_at(bytes, pos + 1, info) {
            (Ok(tag), q) => {
                lemma_item_advances(bytes, q);
                assert(definite_items(bytes, q, 1));
                match item_at(bytes, q) {
                    (Ok(inner), r) => {
                        law_encoding_is_shortest(bytes, q, inner, r);
                        assert(encoding(v) == head_bytes(6, tag) + encoding(inner));
                    },
                    _ => {},
                }
            },
            _ => {},
        }
    } else {
        assert(encoding(v).len() == 1);
    }
}

proof fn lemma_items_short(bytes: Seq<u8>, pos: int, n: nat, out: Seq<Item>)
    requires
        0 <= pos <= bytes.len(),
        definite_items(bytes, pos, n),
    ensures
        items_at(bytes, pos, Some(n), out) matches (Ok(s), p) ==> s.len() == out.len() + n
            && encodings(s).len() <= encodings(out).len() + (p - pos),
    decreases bytes.len() - pos, 1int,
{
    if n > 0 {
        lemma_item_advances(bytes, pos);
        match item_at(bytes, pos) {
            (Ok(item), q) => {
                law_encoding_is_shortest(bytes, pos, item, q);
                let next = out.push(item);
                assert(next.subrange(0, next.len() - 1) =~= out);
                lemma_items_short(bytes, q, (n - 1) as nat, next);
            },
            _ => {},
        }
    }
}

proof fn lemma_entries_short(bytes: Seq<u8>, pos: int, n: nat, out: Seq<(Item, Item)>)
    requires
        0 <= pos <= bytes.len(),
        definite_items(bytes, pos, 2 * n),
    ensures
        entries_at(bytes, pos, Some(n), out) matches (Ok(s), p) ==> s.len() == out.len() + n
            && entry_encodings(s).len() <= entry_encodings(out).len() + (p - pos),
    decreases bytes.len() - pos, 1int,
{
    if n > 0 {
        lemma_item_advances(bytes, pos);
        match item_at(bytes, pos) {
            (Ok(key), q) => {
                lemma_item_advances(bytes, q);
                law_encoding_is_shortest(bytes, pos, key, q);
                assert(definite_items(bytes, q, (2 * n - 1) as nat));
                match item_at(bytes, q) {
                    (Ok(value), r) => {
                        law_encoding_is_shortest(bytes, q, value, r);
                        assert(definite_items(bytes, r, (2 * n - 2) as nat));
                        assert(2 * n - 2 == 2 * (n - 1));
                        let next = out.push((key, value));
                        assert(next.subrange(0, next.len() - 1) =~= out);
                        lemma_entries_short(bytes, r, (n - 1) as nat, next);
                    },
                    _ => {},
                }
            },
            _ => {},
        }
    }
}

} // verus!
