//! What is encoded as a value of a bits type is decoded to the same names.
use vstd::prelude::*;

use crate::cbor::value::Item;
use crate::json::Tree;
use crate::text::{is_space, joined, run_end, space_end, words, words_from};
use crate::yang::bits::{
    bit_named, bit_names, bit_placed, bits_decoded, bits_encoded, byte_names, field, field_byte,
    greatest, mask, nonzero_end, positions_of, run_names, span_names, spans_from,
};
use crate::yang::choices::all_bits;
use crate::yang::readings::plain_decoded;
use crate::yang::scalars::DecimalView;
use crate::yang::schema::{BitView, Builtin, SchemaView, TypeView};
use crate::yang::value_laws::{means_the_same, reads_back};
use crate::yang::values::plain_encoded;

verus! {

/// Whether a text is one word.
pub open spec fn one_word(s: Seq<char>) -> bool {
    s.len() > 0 && forall|i: int| 0 <= i < s.len() ==> !is_space(#[trigger] s[i])
}

/// Whether the names of some bits are words, and no two are the same.
pub open spec fn usable_names(bits: Seq<BitView>) -> bool {
    &&& forall|i: int| 0 <= i < bits.len() ==> one_word((#[trigger] bits[i]).name)
    &&& forall|i: int, j: int|
        0 <= i < j < bits.len() ==> (#[trigger] bits[i]).name != (#[trigger] bits[j]).name
}

/// Whether no two bits are at the same position.
pub open spec fn distinct_positions(bits: Seq<BitView>) -> bool {
    forall|i: int, j: int|
        0 <= i < j < bits.len() ==> (#[trigger] bits[i]).position != (#[trigger] bits[j]).position
}

proof fn lemma_space_end(s: Seq<char>, from: int)
    requires
        0 <= from <= s.len(),
    ensures
        from <= space_end(s, from) <= s.len(),
        space_end(s, from) < s.len() ==> !is_space(s[space_end(s, from)]),
        forall|k: int| from <= k < space_end(s, from) ==> is_space(#[trigger] s[k]),
    decreases s.len() - from,
{
    if from < s.len() && is_space(s[from]) {
        lemma_space_end(s, from + 1);
    }
}

proof fn lemma_run_end(s: Seq<char>, from: int)
    requires
        0 <= from <= s.len(),
    ensures
        from <= run_end(s, from) <= s.len(),
        run_end(s, from) < s.len() ==> is_space(s[run_end(s, from)]),
        forall|k: int| from <= k < run_end(s, from) ==> !is_space(#[trigger] s[k]),
    decreases s.len() - from,
{
    if from < s.len() && !is_space(s[from]) {
        lemma_run_end(s, from + 1);
    }
}

/// White space and runs end at the same place in two texts that agree so far.
proof fn lemma_ends_are_unique(s: Seq<char>, from: int, n: int, spaces: bool)
    requires
        0 <= from <= n <= s.len(),
        forall|k: int| from <= k < n ==> is_space(#[trigger] s[k]) == spaces,
        n < s.len() ==> is_space(s[n]) != spaces,
    ensures
        spaces ==> space_end(s, from) == n,
        !spaces ==> run_end(s, from) == n,
    decreases n - from,
{
    if from < n {
        lemma_ends_are_unique(s, from + 1, n, spaces);
    }
}

/// A word behind a space is one more word.
proof fn lemma_one_more_word(a: Seq<char>, w: Seq<char>, from: int)
    requires
        0 <= from <= a.len(),
        one_word(w),
    ensures
        words_from(a + seq![' '] + w, from) == words_from(a, from).push(w),
    decreases a.len() - from,
{
    let s = a + seq![' '] + w;
    let n = a.len() as int;
    assert(is_space(s[n]));
    lemma_space_end(a, from);
    let start = space_end(a, from);
    if start < n {
        assert forall|k: int| from <= k < start implies is_space(#[trigger] s[k]) by {
            assert(s[k] == a[k]);
        }
        assert(s[start] == a[start]);
        lemma_ends_are_unique(s, from, start, true);
        lemma_run_end(a, start);
        let end = run_end(a, start);
        assert forall|k: int| start <= k < end implies !is_space(#[trigger] s[k]) by {
            assert(s[k] == a[k]);
        }
        if end < n {
            assert(s[end] == a[end]);
        }
        lemma_ends_are_unique(s, start, end, false);
        assert(s.subrange(start, end) =~= a.subrange(start, end));
        assert(start < end);
        lemma_one_more_word(a, w, end);
        assert(words_from(s, from) =~= words_from(a, from).push(w));
    } else {
        assert forall|k: int| from <= k < n + 1 implies is_space(#[trigger] s[k]) by {
            if k < n {
                assert(s[k] == a[k]);
            }
        }
        assert(s[n + 1] == w[0]);
        lemma_ends_are_unique(s, from, n + 1, true);
        assert forall|k: int| n + 1 <= k < s.len() implies !is_space(#[trigger] s[k]) by {
            assert(s[k] == w[k - n - 1]);
        }
        lemma_ends_are_unique(s, n + 1, s.len() as int, false);
        assert(s.subrange(n + 1, s.len() as int) =~= w);
        assert(run_end(a, start) == n);
        assert(words_from(a, from) =~= Seq::empty());
        assert(words_from(s, s.len() as int) =~= Seq::empty());
        assert(words_from(s, from) =~= seq![w]);
    }
}

/// Words with spaces between them are these words.
proof fn lemma_words_of_joined(names: Seq<Seq<char>>)
    requires
        forall|i: int| 0 <= i < names.len() ==> one_word(#[trigger] names[i]),
    ensures
        words(joined(names, " "@)) == names,
    decreases names.len(),
{
    reveal_strlit(" ");
    assert(" "@ =~= seq![' ']);
    if names.len() == 0 {
        assert(words(Seq::<char>::empty()) =~= Seq::empty());
    } else if names.len() == 1 {
        let w = names[0];
        assert(one_word(w));
        lemma_ends_are_unique(w, 0, 0, true);
        lemma_ends_are_unique(w, 0, w.len() as int, false);
        assert(w.subrange(0, w.len() as int) =~= w);
        assert(words_from(w, w.len() as int) =~= Seq::empty());
        assert(words(w) =~= names);
    } else {
        let before = names.drop_last();
        assert forall|i: int| 0 <= i < before.len() implies one_word(#[trigger] before[i]) by {
            assert(before[i] == names[i]);
        }
        lemma_words_of_joined(before);
        assert(one_word(names[names.len() - 1]));
        lemma_one_more_word(joined(before, " "@), names.last(), 0);
        assert(before.push(names.last()) =~= names);
    }
}

pub(crate) proof fn lemma_bit_named(bits: Seq<BitView>, name: Seq<char>, from: int)
    requires
        0 <= from,
    ensures
        bit_named(bits, name, from) matches Some(i) ==> from <= i < bits.len() && bits[i].name
            == name,
    decreases bits.len() - from,
{
    if from < bits.len() {
        lemma_bit_named(bits, name, from + 1);
    }
}

proof fn lemma_bit_placed(bits: Seq<BitView>, position: int, from: int)
    requires
        0 <= from,
    ensures
        bit_placed(bits, position, from) matches Some(i) ==> from <= i < bits.len()
            && bits[i].position == position,
        forall|k: int|
            from <= k < bits.len() && (#[trigger] bits[k]).position == position ==> bit_placed(
                bits,
                position,
                from,
            ) is Some,
    decreases bits.len() - from,
{
    if from < bits.len() {
        lemma_bit_placed(bits, position, from + 1);
    }
}

/// A bit is found by its name.
proof fn lemma_found_by_name(bits: Seq<BitView>, i: int, from: int)
    requires
        usable_names(bits),
        0 <= from <= i < bits.len(),
    ensures
        bit_named(bits, bits[i].name, from) == Some(i),
    decreases i - from,
{
    if from < i {
        assert(bits[from].name != bits[i].name);
        lemma_found_by_name(bits, i, from + 1);
    }
}

/// A bit is found by its position.
proof fn lemma_found_by_position(bits: Seq<BitView>, i: int, from: int)
    requires
        distinct_positions(bits),
        0 <= from <= i < bits.len(),
    ensures
        bit_placed(bits, bits[i].position as int, from) == Some(i),
    decreases i - from,
{
    if from < i {
        assert(bits[from].position != bits[i].position);
        lemma_found_by_position(bits, i, from + 1);
    }
}

/// The bytes with one bit set have no bit in common.
proof fn lemma_masks(b: u8, j: int, k: int)
    requires
        0 <= j < 8,
        0 <= k < 8,
    ensures
        ((b | mask(j)) & mask(k) != 0) == (j == k || b & mask(k) != 0),
        0u8 & mask(k) == 0,
{
    let x = mask(j);
    let y = mask(k);
    assert(((b | x) & y != 0) == (b & y != 0 || x & y != 0)) by (bit_vector);
    assert(0u8 & y == 0) by (bit_vector);
    let p: u8 = j as u8;
    let q: u8 = k as u8;
    lemma_mask_is_shift(j);
    lemma_mask_is_shift(k);
    assert(p < 8 && q < 8 ==> (((1u8 << p) & (1u8 << q) != 0) == (p == q))) by (bit_vector);
}

pub(crate) proof fn lemma_mask_is_shift(k: int)
    requires
        0 <= k < 8,
    ensures
        mask(k) == 1u8 << (k as u8),
{
    assert(1u8 << 0u8 == 1 && 1u8 << 1u8 == 2 && 1u8 << 2u8 == 4 && 1u8 << 3u8 == 8 && 1u8 << 4u8
        == 16 && 1u8 << 5u8 == 32 && 1u8 << 6u8 == 64 && 1u8 << 7u8 == 128) by (bit_vector);
}

/// Two bytes with the same bits are the same.
proof fn lemma_same_byte(a: u8, b: u8)
    requires
        forall|k: int| 0 <= k < 8 ==> (a & #[trigger] mask(k) != 0) == (b & mask(k) != 0),
    ensures
        a == b,
{
    assert((a & mask(0) != 0) == (b & mask(0) != 0));
    assert((a & mask(1) != 0) == (b & mask(1) != 0));
    assert((a & mask(2) != 0) == (b & mask(2) != 0));
    assert((a & mask(3) != 0) == (b & mask(3) != 0));
    assert((a & mask(4) != 0) == (b & mask(4) != 0));
    assert((a & mask(5) != 0) == (b & mask(5) != 0));
    assert((a & mask(6) != 0) == (b & mask(6) != 0));
    assert((a & mask(7) != 0) == (b & mask(7) != 0));
    assert((a & 1 != 0) == (b & 1 != 0) && (a & 2 != 0) == (b & 2 != 0) && (a & 4 != 0) == (b & 4
        != 0) && (a & 8 != 0) == (b & 8 != 0) && (a & 16 != 0) == (b & 16 != 0) && (a & 32 != 0)
        == (b & 32 != 0) && (a & 64 != 0) == (b & 64 != 0) && (a & 128 != 0) == (b & 128 != 0)
        ==> a == b) by (bit_vector);
}

/// A bit of a field is set if its position is among the first `n`.
pub(crate) proof fn lemma_field_bit(positions: Seq<u32>, i: int, k: int, n: int)
    requires
        0 <= i,
        0 <= k < 8,
        0 <= n <= positions.len(),
    ensures
        (field_byte(positions, i, n) & mask(k) != 0) == (exists|j: int|
            0 <= j < n && #[trigger] positions[j] == i * 8 + k),
    decreases n,
{
    if n > 0 {
        lemma_field_bit(positions, i, k, n - 1);
        let p = positions[n - 1] as int;
        let before = field_byte(positions, i, n - 1);
        if p / 8 == i {
            lemma_masks(before, p % 8, k);
            assert(p == i * 8 + p % 8);
            if p % 8 == k {
                assert(positions[n - 1] == i * 8 + k);
            }
        }
        if exists|j: int| 0 <= j < n - 1 && #[trigger] positions[j] == i * 8 + k {
            let j = choose|j: int| 0 <= j < n - 1 && #[trigger] positions[j] == i * 8 + k;
            assert(0 <= j < n && positions[j] == i * 8 + k);
        }
    } else {
        lemma_masks(0, 0, k);
    }
}

pub(crate) proof fn lemma_greatest_is_there(positions: Seq<u32>, n: int)
    requires
        0 <= n <= positions.len(),
    ensures
        0 <= greatest(positions, n) <= u32::MAX,
        forall|i: int| 0 <= i < n ==> #[trigger] positions[i] <= greatest(positions, n),
        n > 0 ==> exists|i: int| 0 <= i < n && #[trigger] positions[i] == greatest(positions, n),
    decreases n,
{
    if n > 0 {
        lemma_greatest_is_there(positions, n - 1);
        if positions[n - 1] > greatest(positions, n - 1) {
            assert(positions[n - 1] == greatest(positions, n));
        } else if n > 1 {
            let i = choose|i: int| 0 <= i < n - 1 && #[trigger] positions[i] == greatest(positions, n - 1);
            assert(positions[i] == greatest(positions, n));
        } else {
            assert(positions[0] == 0);
        }
    }
}

/// Two lists of the same positions make the same field.
proof fn lemma_same_field(a: Seq<u32>, b: Seq<u32>)
    requires
        forall|p: u32| #[trigger] a.contains(p) == b.contains(p),
        a.len() > 0,
    ensures
        field(a) == field(b),
        b.len() > 0,
{
    let n = a.len() as int;
    let m = b.len() as int;
    assert(a.contains(a[0]));
    assert(b.contains(a[0]));
    lemma_greatest_is_there(a, n);
    lemma_greatest_is_there(b, m);
    let i = choose|i: int| 0 <= i < n && #[trigger] a[i] == greatest(a, n);
    let j = choose|j: int| 0 <= j < m && #[trigger] b[j] == greatest(b, m);
    assert(a.contains(a[i]) && b.contains(a[i]));
    assert(b.contains(b[j]) && a.contains(b[j]));
    assert(greatest(a, n) == greatest(b, m));
    assert forall|x: int| 0 <= x < field(a).len() implies field(a)[x] == field(b)[x] by {
        let fa = field_byte(a, x, n);
        let fb = field_byte(b, x, m);
        assert forall|k: int| 0 <= k < 8 implies (fa & #[trigger] mask(k) != 0) == (fb & mask(k)
            != 0) by {
            lemma_field_bit(a, x, k, n);
            lemma_field_bit(b, x, k, m);
            if fa & mask(k) != 0 {
                let u = choose|u: int| 0 <= u < n && #[trigger] a[u] == x * 8 + k;
                assert(a.contains(a[u]));
                assert(b.contains(a[u]));
                let w = choose|w: int| 0 <= w < m && b[w] == a[u];
                assert(b[w] == x * 8 + k);
            }
            if fb & mask(k) != 0 {
                let w = choose|w: int| 0 <= w < m && #[trigger] b[w] == x * 8 + k;
                assert(b.contains(b[w]));
                assert(a.contains(b[w]));
                let u = choose|u: int| 0 <= u < n && a[u] == b[w];
                assert(a[u] == x * 8 + k);
            }
        }
        lemma_same_byte(fa, fb);
    }
    assert(field(a) =~= field(b));
}

/// The positions of the set bits among the first `k` of a byte, whose first
/// bit is at `base`.
spec fn byte_places(byte: u8, base: int, k: int) -> Seq<u32>
    decreases k,
{
    if k <= 0 {
        Seq::empty()
    } else if byte & mask(k - 1) != 0 {
        byte_places(byte, base, k - 1).push((base + k - 1) as u32)
    } else {
        byte_places(byte, base, k - 1)
    }
}

/// The positions of the set bits in the first `n` bytes of a field.
spec fn run_places(bytes: Seq<u8>, n: int) -> Seq<u32>
    decreases n,
{
    if n <= 0 {
        Seq::empty()
    } else {
        run_places(bytes, n - 1) + byte_places(bytes[n - 1], (n - 1) * 8, 8)
    }
}

/// Whether some names are those of the bits at some positions.
spec fn names_for(bits: Seq<BitView>, names: Seq<Seq<char>>, places: Seq<u32>) -> bool {
    &&& names.len() == places.len()
    &&& forall|k: int|
        0 <= k < names.len() ==> bit_named(bits, #[trigger] names[k], 0) is Some && bit_named(
            bits,
            names[k],
            0,
        ) == bit_placed(bits, places[k] as int, 0)
}

/// Whether positions go up, within bounds.
spec fn go_up(places: Seq<u32>, low: int, high: int) -> bool {
    &&& forall|i: int| 0 <= i < places.len() ==> low <= #[trigger] places[i] < high
    &&& forall|i: int, j: int|
        0 <= i < j < places.len() ==> #[trigger] places[i] < #[trigger] places[j]
}

proof fn lemma_byte_places(bits: Seq<BitView>, byte: u8, base: int, k: int)
    requires
        usable_names(bits),
        0 <= base,
        base + 8 <= 0x1_0000_0000,
        0 <= k <= 8,
        forall|j: int|
            0 <= j < 8 && byte & #[trigger] mask(j) != 0 ==> bit_placed(bits, base + j, 0) is Some,
    ensures
        names_for(bits, byte_names(bits, byte, base, k), byte_places(byte, base, k)),
        go_up(byte_places(byte, base, k), base, base + k),
        forall|j: int|
            0 <= j < k && byte & #[trigger] mask(j) != 0 ==> byte_places(byte, base, k).contains(
                (base + j) as u32,
            ),
        forall|i: int|
            0 <= i < byte_places(byte, base, k).len() ==> byte & mask(
                #[trigger] byte_places(byte, base, k)[i] - base,
            ) != 0,
    decreases k,
{
    if k > 0 {
        lemma_byte_places(bits, byte, base, k - 1);
        let before = byte_places(byte, base, k - 1);
        let after = byte_places(byte, base, k);
        let names = byte_names(bits, byte, base, k - 1);
        if byte & mask(k - 1) != 0 {
            let p = base + k - 1;
            assert(p % 0x1_0000_0000 == p);
            lemma_bit_placed(bits, p, 0);
            let i = bit_placed(bits, p, 0)->0;
            lemma_found_by_name(bits, i, 0);
            assert(after == before.push(p as u32));
            assert(byte_names(bits, byte, base, k) == names.push(bits[i].name));
            assert forall|j: int| 0 <= j < k && byte & #[trigger] mask(j) != 0 implies after.contains(
                (base + j) as u32,
            ) by {
                if j < k - 1 {
                    assert(before.contains((base + j) as u32));
                    let w = choose|w: int| 0 <= w < before.len() && before[w] == (base + j) as u32;
                    assert(after[w] == before[w]);
                } else {
                    assert(after[before.len() as int] == p as u32);
                }
            }
            assert forall|x: int| 0 <= x < after.len() implies byte & mask(
                #[trigger] after[x] - base,
            ) != 0 by {
                if x < before.len() {
                    assert(after[x] == before[x]);
                }
            }
        } else {
            assert forall|j: int| 0 <= j < k && byte & #[trigger] mask(j) != 0 implies after.contains(
                (base + j) as u32,
            ) by {
                assert(j < k - 1);
            }
        }
    }
}

/// Whether all bits that are set in a field have names.
spec fn all_placed(bits: Seq<BitView>, bytes: Seq<u8>) -> bool {
    forall|i: int, j: int|
        0 <= i < bytes.len() && 0 <= j < 8 && #[trigger] bytes[i] & #[trigger] mask(j) != 0
            ==> bit_placed(bits, i * 8 + j, 0) is Some
}

proof fn lemma_run_places(bits: Seq<BitView>, bytes: Seq<u8>, n: int)
    requires
        usable_names(bits),
        0 <= n <= bytes.len(),
        bytes.len() * 8 <= 0x1_0000_0000,
        all_placed(bits, bytes),
    ensures
        names_for(bits, run_names(bits, bytes, 0, n), run_places(bytes, n)),
        go_up(run_places(bytes, n), 0, n * 8),
        forall|i: int, j: int|
            0 <= i < n && 0 <= j < 8 && #[trigger] bytes[i] & #[trigger] mask(j) != 0
                ==> run_places(bytes, n).contains((i * 8 + j) as u32),
        forall|x: int|
            0 <= x < run_places(bytes, n).len() ==> bytes[#[trigger] run_places(bytes, n)[x] as int
                / 8] & mask(run_places(bytes, n)[x] as int % 8) != 0,
    decreases n,
{
    if n > 0 {
        lemma_run_places(bits, bytes, n - 1);
        let b = bytes[n - 1];
        let base = (n - 1) * 8;
        lemma_byte_places(bits, b, base, 8);
        let before = run_places(bytes, n - 1);
        let more = byte_places(b, base, 8);
        let after = run_places(bytes, n);
        let names = run_names(bits, bytes, 0, n - 1);
        let new = byte_names(bits, b, base, 8);
        assert(run_names(bits, bytes, 0, n) == names + new);
        assert forall|k: int| 0 <= k < (names + new).len() implies bit_named(
            bits,
            #[trigger] (names + new)[k],
            0,
        ) is Some && bit_named(bits, (names + new)[k], 0) == bit_placed(bits, after[k] as int, 0) by {
            if k < names.len() {
                assert((names + new)[k] == names[k]);
                assert(after[k] == before[k]);
            } else {
                assert((names + new)[k] == new[k - names.len()]);
                assert(after[k] == more[k - names.len()]);
            }
        }
        assert forall|i: int, j: int|
            0 <= i < n && 0 <= j < 8 && #[trigger] bytes[i] & #[trigger] mask(j)
                != 0 implies after.contains((i * 8 + j) as u32) by {
            if i < n - 1 {
                assert(before.contains((i * 8 + j) as u32));
                let w = choose|w: int| 0 <= w < before.len() && before[w] == (i * 8 + j) as u32;
                assert(after[w] == before[w]);
            } else {
                assert(more.contains((base + j) as u32));
                let w = choose|w: int| 0 <= w < more.len() && more[w] == (base + j) as u32;
                assert(after[before.len() + w] == more[w]);
            }
        }
        assert forall|x: int| 0 <= x < after.len() implies bytes[#[trigger] after[x] as int / 8]
            & mask(after[x] as int % 8) != 0 by {
            if x < before.len() {
                assert(after[x] == before[x]);
            } else {
                let y = x - before.len();
                assert(after[x] == more[y]);
                assert(b & mask(more[y] - base) != 0);
                assert(after[x] as int / 8 == n - 1 && after[x] as int % 8 == more[y] - base);
            }
        }
    }
}

/// The names in a run that is a part of a field.
proof fn lemma_run_of(bits: Seq<BitView>, bytes: Seq<u8>, from: int, to: int)
    requires
        0 <= from <= to <= bytes.len(),
    ensures
        run_names(bits, bytes, 0, to) == run_names(bits, bytes, 0, from) + run_names(
            bits,
            bytes.subrange(from, to),
            from,
            to - from,
        ),
    decreases to - from,
{
    let run = bytes.subrange(from, to);
    if from < to {
        lemma_run_of(bits, bytes, from, to - 1);
        let short = bytes.subrange(from, to - 1);
        lemma_run_prefix(bits, short, run, from, to - 1 - from);
        assert(run[to - 1 - from] == bytes[to - 1]);
        assert(run_names(bits, bytes, 0, to) =~= run_names(bits, bytes, 0, from) + run_names(
            bits,
            run,
            from,
            to - from,
        ));
    } else {
        assert(run_names(bits, run, from, 0) =~= Seq::empty());
        assert(run_names(bits, bytes, 0, from) + run_names(bits, run, from, 0) =~= run_names(
            bits,
            bytes,
            0,
            from,
        ));
    }
}

proof fn lemma_run_prefix(bits: Seq<BitView>, a: Seq<u8>, b: Seq<u8>, offset: int, n: int)
    requires
        0 <= n <= a.len(),
        n <= b.len(),
        forall|i: int| 0 <= i < n ==> #[trigger] a[i] == b[i],
    ensures
        run_names(bits, a, offset, n) == run_names(bits, b, offset, n),
    decreases n,
{
    if n > 0 {
        lemma_run_prefix(bits, a, b, offset, n - 1);
        assert(a[n - 1] == b[n - 1]);
    }
}

/// A zero byte has no names.
proof fn lemma_zero_byte(bits: Seq<BitView>, base: int, k: int)
    requires
        0 <= k <= 8,
    ensures
        byte_names(bits, 0, base, k) == Seq::<Seq<char>>::empty(),
    decreases k,
{
    if k > 0 {
        lemma_zero_byte(bits, base, k - 1);
        lemma_masks(0, 0, k - 1);
    }
}

/// The bytes up to the end of a run are not zero.
pub(crate) proof fn lemma_nonzero(bytes: Seq<u8>, i: int)
    requires
        0 <= i <= bytes.len(),
    ensures
        i <= nonzero_end(bytes, i) <= bytes.len(),
    decreases bytes.len() - i,
{
    if i < bytes.len() && bytes[i] != 0 {
        lemma_nonzero(bytes, i + 1);
    }
}

/// Further spans do not change what the first ones say.
proof fn lemma_span_prefix(bits: Seq<BitView>, a: Seq<Item>, b: Seq<Item>, n: int)
    requires
        0 <= n <= a.len(),
        n <= b.len(),
        forall|i: int| 0 <= i < n ==> #[trigger] a[i] == b[i],
    ensures
        span_names(bits, a, n) == span_names(bits, b, n),
    decreases n,
{
    if n > 0 {
        lemma_span_prefix(bits, a, b, n - 1);
        assert(a[n - 1] == b[n - 1]);
    }
}

/// The spans of a field give all names in it.
proof fn lemma_spans(bits: Seq<BitView>, bytes: Seq<u8>, i: int, gap: int, before: Seq<Item>)
    requires
        0 <= gap <= i <= bytes.len(),
        bytes.len() * 8 <= 0x1_0000_0000,
        span_names(bits, before, before.len() as int) == Ok::<(Seq<Seq<char>>, int), Seq<char>>(
            (run_names(bits, bytes, 0, i), i - gap),
        ),
    ensures
        span_names(
            bits,
            before + spans_from(bytes, i, gap),
            (before + spans_from(bytes, i, gap)).len() as int,
        ) matches Ok((names, _)) && names == run_names(bits, bytes, 0, bytes.len() as int),
    decreases bytes.len() - i,
{
    if i >= bytes.len() {
        assert(before + spans_from(bytes, i, gap) =~= before);
    } else if bytes[i] == 0 {
        lemma_zero_byte(bits, i * 8, 8);
        assert(run_names(bits, bytes, 0, i + 1) =~= run_names(bits, bytes, 0, i));
        lemma_spans(bits, bytes, i + 1, gap + 1, before);
    } else {
        lemma_nonzero(bytes, i + 1);
        let end = nonzero_end(bytes, i + 1);
        let run = bytes.subrange(i, end);
        let gaps = if gap > 0 {
            seq![Item::Integer(gap)]
        } else {
            Seq::<Item>::empty()
        };
        let mid = before + gaps;
        lemma_span_prefix(bits, before, mid, before.len() as int);
        assert(span_names(bits, mid, mid.len() as int) == Ok::<(Seq<Seq<char>>, int), Seq<char>>(
            (run_names(bits, bytes, 0, i), i),
        )) by {
            if gap > 0 {
                assert(mid[mid.len() - 1] == Item::Integer(gap));
                assert(i % 0x1_0000_0000 == i);
            } else {
                assert(mid =~= before);
            }
        }
        let next = mid.push(Item::Bytes(run));
        lemma_span_prefix(bits, mid, next, mid.len() as int);
        assert(next[next.len() - 1] == Item::Bytes(run));
        lemma_run_of(bits, bytes, i, end);
        assert(end % 0x1_0000_0000 == end);
        lemma_spans(bits, bytes, end, 0, next);
        assert(before + spans_from(bytes, i, gap) =~= next + spans_from(bytes, end, 0));
    }
}

/// The positions of some names are those that the names are for.
proof fn lemma_positions(bits: Seq<BitView>, names: Seq<Seq<char>>, places: Seq<u32>, n: int)
    requires
        0 <= n <= names.len(),
        names_for(bits, names, places),
    ensures
        positions_of(bits, names, n) == Ok::<Seq<u32>, Seq<char>>(places.subrange(0, n)),
    decreases n,
{
    if n > 0 {
        lemma_positions(bits, names, places, n - 1);
        lemma_bit_placed(bits, places[n - 1] as int, 0);
        assert(bit_named(bits, names[n - 1], 0) is Some);
        assert(places.subrange(0, n - 1).push(places[n - 1]) =~= places.subrange(0, n));
    } else {
        assert(places.subrange(0, 0) =~= Seq::empty());
    }
}

/// Whether a name is that of a bit at a position.
pub open spec fn named_at(bits: Seq<BitView>, name: Seq<char>, position: u32) -> bool {
    bit_named(bits, name, 0) is Some && bits[bit_named(bits, name, 0)->0].position == position
}

/// Each position of some names is that of a bit.
pub(crate) proof fn lemma_positions_of(bits: Seq<BitView>, names: Seq<Seq<char>>, n: int) -> (p: Seq<u32>)
    requires
        0 <= n <= names.len(),
        positions_of(bits, names, n) is Ok,
    ensures
        p == positions_of(bits, names, n)->Ok_0,
        p.len() == n,
        forall|k: int| 0 <= k < n ==> named_at(bits, names[k], #[trigger] p[k]),
    decreases n,
{
    let p = positions_of(bits, names, n)->Ok_0;
    if n > 0 {
        let before = lemma_positions_of(bits, names, n - 1);
        let i = bit_named(bits, names[n - 1], 0)->0;
        assert(p == before.push(bits[i].position));
        assert forall|k: int| 0 <= k < n implies named_at(bits, names[k], #[trigger] p[k]) by {
            if k < n - 1 {
                assert(p[k] == before[k]);
            }
        }
    }
    p
}

/// Positions that go up are told by what they hold.
proof fn lemma_same_places(a: Seq<u32>, b: Seq<u32>)
    requires
        forall|p: u32| #[trigger] a.contains(p) == b.contains(p),
        forall|i: int, j: int| 0 <= i < j < a.len() ==> #[trigger] a[i] < #[trigger] a[j],
        forall|i: int, j: int| 0 <= i < j < b.len() ==> #[trigger] b[i] < #[trigger] b[j],
    ensures
        a == b,
    decreases a.len(),
{
    if a.len() == 0 {
        if b.len() > 0 {
            assert(b.contains(b[0]));
            assert(a.contains(b[0]));
        }
        assert(a =~= b);
    } else {
        assert(a.contains(a[0]));
        assert(b.contains(a[0]));
        let x = a.drop_last();
        let y = b.drop_last();
        let u = a.last();
        let w = b.last();
        assert(u == w) by {
            assert(a.contains(a[a.len() - 1]));
            assert(b.contains(u));
            assert(b.contains(b[b.len() - 1]));
            assert(a.contains(w));
            let i = choose|i: int| 0 <= i < b.len() && b[i] == u;
            let j = choose|j: int| 0 <= j < a.len() && a[j] == w;
            assert(u <= w) by {
                if i < b.len() - 1 {
                    assert(b[i] < b[b.len() - 1]);
                }
            }
            assert(w <= u) by {
                if j < a.len() - 1 {
                    assert(a[j] < a[a.len() - 1]);
                }
            }
        }
        assert forall|p: u32| #[trigger] x.contains(p) == y.contains(p) by {
            if x.contains(p) {
                let i = choose|i: int| 0 <= i < x.len() && x[i] == p;
                assert(a[i] == p && a[i] < a[a.len() - 1]);
                assert(a.contains(p));
                assert(b.contains(p));
                let j = choose|j: int| 0 <= j < b.len() && b[j] == p;
                assert(j < b.len() - 1);
                assert(y[j] == p);
            }
            if y.contains(p) {
                let i = choose|i: int| 0 <= i < y.len() && y[i] == p;
                assert(b[i] == p && b[i] < b[b.len() - 1]);
                assert(b.contains(p));
                assert(a.contains(p));
                let j = choose|j: int| 0 <= j < a.len() && a[j] == p;
                assert(j < a.len() - 1);
                assert(x[j] == p);
            }
        }
        lemma_same_places(x, y);
        assert(a =~= x.push(u));
        assert(b =~= y.push(w));
    }
}

/// The names in the field of some positions are for positions that go up and
/// make the same field.
proof fn lemma_field_names(bits: Seq<BitView>, positions: Seq<u32>) -> (places: Seq<u32>)
    requires
        usable_names(bits),
        positions.len() > 0,
        forall|k: int|
            0 <= k < positions.len() ==> bit_placed(bits, #[trigger] positions[k] as int, 0) is Some,
    ensures
        field(positions).len() * 8 <= 0x1_0000_0000,
        names_for(
            bits,
            run_names(bits, field(positions), 0, field(positions).len() as int),
            places,
        ),
        go_up(places, 0, 0x1_0000_0000),
        forall|p: u32| #[trigger] positions.contains(p) == places.contains(p),
{
    let bytes = field(positions);
    let n = positions.len() as int;
    lemma_greatest_is_there(positions, n);
    assert forall|i: int, j: int|
        0 <= i < bytes.len() && 0 <= j < 8 && #[trigger] bytes[i] & #[trigger] mask(j)
            != 0 implies bit_placed(bits, i * 8 + j, 0) is Some by {
        lemma_field_bit(positions, i, j, n);
        let k = choose|k: int| 0 <= k < n && #[trigger] positions[k] == i * 8 + j;
        assert(bit_placed(bits, positions[k] as int, 0) is Some);
    }
    let len = bytes.len() as int;
    lemma_run_places(bits, bytes, len);
    let places = run_places(bytes, len);
    assert forall|p: u32| #[trigger] positions.contains(p) == places.contains(p) by {
        let i = p as int / 8;
        let j = p as int % 8;
        if positions.contains(p) {
            let k = choose|k: int| 0 <= k < n && positions[k] == p;
            assert(positions[k] <= greatest(positions, n));
            lemma_field_bit(positions, i, j, n);
            assert(positions[k] == i * 8 + j);
            assert(bytes[i] & mask(j) != 0);
        }
        if places.contains(p) {
            let x = choose|x: int| 0 <= x < places.len() && places[x] == p;
            assert(bytes[places[x] as int / 8] & mask(places[x] as int % 8) != 0);
            lemma_field_bit(positions, i, j, n);
            let k = choose|k: int| 0 <= k < n && #[trigger] positions[k] == i * 8 + j;
            assert(positions[k] == p);
        }
    }
    places
}

/// Whether names are those of bits whose positions go up.
pub open spec fn names_in_order(bits: Seq<BitView>, names: Seq<Seq<char>>) -> bool {
    forall|i: int, j: int|
        0 <= i < j < names.len() ==> bits[bit_named(bits, #[trigger] names[i], 0)->0].position
            < bits[bit_named(bits, #[trigger] names[j], 0)->0].position
}

/// Whether a text is some names, each once, in the order of the positions of
/// their bits, with single spaces between them.
pub open spec fn by_position(bits: Seq<BitView>, names: Seq<Seq<char>>, text: Seq<char>) -> bool {
    &&& text == joined(words(text), " "@)
    &&& names_in_order(bits, words(text))
    &&& forall|name: Seq<char>| #[trigger] words(text).contains(name) <==> names.contains(name)
}

/// Names for positions that go up, where the same positions are those of some
/// names, are these names, each once.
proof fn lemma_by_position(
    bits: Seq<BitView>,
    names: Seq<Seq<char>>,
    positions: Seq<u32>,
    out: Seq<Seq<char>>,
    places: Seq<u32>,
)
    requires
        distinct_positions(bits),
        positions.len() == names.len(),
        forall|k: int| 0 <= k < names.len() ==> named_at(bits, names[k], #[trigger] positions[k]),
        names_for(bits, out, places),
        go_up(places, 0, 0x1_0000_0000),
        forall|p: u32| #[trigger] positions.contains(p) == places.contains(p),
    ensures
        names_in_order(bits, out),
        forall|name: Seq<char>| #[trigger] out.contains(name) <==> names.contains(name),
{
    assert forall|k: int| 0 <= k < out.len() implies named_at(bits, #[trigger] out[k], places[k]) by {
        lemma_bit_placed(bits, places[k] as int, 0);
    }
    assert forall|i: int, j: int| 0 <= i < j < out.len() implies bits[bit_named(
        bits,
        #[trigger] out[i],
        0,
    )->0].position < bits[bit_named(bits, #[trigger] out[j], 0)->0].position by {
        assert(named_at(bits, out[i], places[i]) && named_at(bits, out[j], places[j]));
        assert(places[i] < places[j]);
    }
    assert forall|name: Seq<char>| #[trigger] out.contains(name) implies names.contains(name) by {
        let k = choose|k: int| 0 <= k < out.len() && out[k] == name;
        assert(named_at(bits, out[k], places[k]));
        assert(places.contains(places[k]));
        assert(positions.contains(places[k]));
        let j = choose|j: int| 0 <= j < positions.len() && positions[j] == places[k];
        assert(named_at(bits, names[j], positions[j]));
        lemma_same_name(bits, names[j], name, places[k]);
        assert(names[j] == name);
    }
    assert forall|name: Seq<char>| #[trigger] names.contains(name) implies out.contains(name) by {
        let j = choose|j: int| 0 <= j < names.len() && names[j] == name;
        assert(named_at(bits, names[j], positions[j]));
        assert(positions.contains(positions[j]));
        assert(places.contains(positions[j]));
        let k = choose|k: int| 0 <= k < places.len() && places[k] == positions[j];
        assert(named_at(bits, out[k], places[k]));
        lemma_same_name(bits, out[k], name, positions[j]);
        assert(out[k] == name);
    }
}

/// Two names at the same position are the same name.
proof fn lemma_same_name(bits: Seq<BitView>, a: Seq<char>, b: Seq<char>, position: u32)
    requires
        distinct_positions(bits),
        named_at(bits, a, position),
        named_at(bits, b, position),
    ensures
        a == b,
{
    lemma_bit_named(bits, a, 0);
    lemma_bit_named(bits, b, 0);
    lemma_found_by_position(bits, bit_named(bits, a, 0)->0, 0);
    lemma_found_by_position(bits, bit_named(bits, b, 0)->0, 0);
}

/// The names that come out of a field mean the same, and come out by their
/// positions.
proof fn lemma_bits_back(ty: TypeView, v: Tree, item: Item)
    requires
        usable_names(ty.bits),
        bits_encoded(ty, v, false) == Ok::<Item, Seq<char>>(item),
    ensures
        bits_decoded(ty, item, false) matches Ok(w) && bits_encoded(ty, w, false) == Ok::<
            Item,
            Seq<char>,
        >(item) && w is Text && (distinct_positions(ty.bits) ==> by_position(
            ty.bits,
            bit_names(v)->0,
            w->Text_0,
        )) && (distinct_positions(ty.bits) && names_in_order(ty.bits, bit_names(v)->0) ==> w
            == Tree::Text(joined(bit_names(v)->0, " "@))),
{
    let bits = ty.bits;
    let names = bit_names(v)->0;
    let positions = lemma_positions_of(bits, names, names.len() as int);
    if positions.len() == 0 {
        let spans = Seq::<Item>::empty();
        assert(item == Item::Array(spans));
        assert(names =~= Seq::empty());
        assert(span_names(bits, spans, 0) == Ok::<(Seq<Seq<char>>, int), Seq<char>>(
            (Seq::empty(), 0),
        ));
        lemma_words_of_joined(Seq::empty());
        assert(bits_decoded(ty, item, false) == Ok::<Tree, Seq<char>>(
            Tree::Text(joined(Seq::empty(), " "@)),
        ));
    } else {
        assert forall|k: int| 0 <= k < positions.len() implies bit_placed(
            bits,
            #[trigger] positions[k] as int,
            0,
        ) is Some by {
            lemma_bit_named(bits, names[k], 0);
            lemma_bit_placed(bits, positions[k] as int, 0);
        }
        let places = lemma_field_names(bits, positions);
        let bytes = field(positions);
        let spans = spans_from(bytes, 0, 0);
        let none = Seq::<Item>::empty();
        lemma_spans(bits, bytes, 0, 0, none);
        assert(none + spans =~= spans);
        let out = run_names(bits, bytes, 0, bytes.len() as int);
        assert(item is Array ==> item->Array_0 == spans);
        assert(item is Bytes ==> seq![item] =~= spans);
        assert(bits_decoded(ty, item, false) == Ok::<Tree, Seq<char>>(
            Tree::Text(joined(out, " "@)),
        ));
        assert forall|i: int| 0 <= i < out.len() implies one_word(#[trigger] out[i]) by {
            lemma_bit_named(bits, out[i], 0);
            assert(bit_named(bits, out[i], 0) is Some);
        }
        lemma_words_of_joined(out);
        lemma_positions(bits, out, places, out.len() as int);
        assert(places.subrange(0, out.len() as int) =~= places);
        lemma_same_field(positions, places);
        assert(bits_encoded(ty, Tree::Text(joined(out, " "@)), false) == Ok::<Item, Seq<char>>(
            item,
        ));
        if distinct_positions(bits) {
            lemma_by_position(bits, names, positions, out, places);
        }
        if distinct_positions(bits) && names_in_order(bits, names) {
            assert forall|i: int, j: int| 0 <= i < j < positions.len() implies #[trigger]
            positions[i] < #[trigger] positions[j] by {
                assert(bits[bit_named(bits, names[i], 0)->0].position < bits[bit_named(
                    bits,
                    names[j],
                    0,
                )->0].position);
            }
            lemma_same_places(positions, places);
            assert forall|k: int| 0 <= k < names.len() implies names[k] == out[k] by {
                let i = bit_named(bits, names[k], 0)->0;
                lemma_bit_named(bits, names[k], 0);
                lemma_bit_named(bits, out[k], 0);
                assert(bits[i].position == positions[k]);
                lemma_found_by_position(bits, i, 0);
                assert(bit_named(bits, out[k], 0) == bit_placed(bits, places[k] as int, 0));
            }
            assert(names =~= out);
        }
    }
}

/// Bits are decoded to their names in the order of their positions, which
/// means the same. Names that are in that order already, with single spaces
/// between them, are decoded to themselves.
pub proof fn law_bits_mean_the_same(
    s: SchemaView,
    id: usize,
    v: Tree,
    in_union: bool,
    d: Seq<DecimalView>,
)
    requires
        s.types[id as int].builtin == Builtin::Bits,
        usable_names(s.types[id as int].bits),
        in_union ==> (bit_names(v) matches Some(names) ==> all_bits(
            s.types[id as int].bits,
            names,
        )),
    ensures
        means_the_same(s, id, v, in_union, d),
        ({
            let bits = s.types[id as int].bits;
            bit_names(v) matches Some(names) && v == Tree::Text(joined(names, " "@)) && (in_union
                || distinct_positions(bits) && names_in_order(bits, names)) ==> reads_back(
                s,
                id,
                v,
                in_union,
                d,
            )
        }),
{
    let ty = s.types[id as int];
    assert forall|w: Tree| #[trigger] plain_encoded(s, id, w, in_union) == bits_encoded(
        ty,
        w,
        in_union,
    ) by {}
    assert forall|i: Item| #[trigger] plain_decoded(s, id, i, in_union, d) == bits_decoded(
        ty,
        i,
        in_union,
    ) by {}
    match bits_encoded(ty, v, in_union) {
        Ok(item) => {
            if in_union {
                let names = bit_names(v)->0;
                assert forall|i: int| 0 <= i < names.len() implies one_word(
                    #[trigger] names[i],
                ) by {
                    lemma_bit_named(ty.bits, names[i], 0);
                }
                lemma_words_of_joined(names);
            } else {
                lemma_bits_back(ty, v, item);
            }
        },
        Err(_) => {},
    }
}

/// Bits are decoded to their names, each once, in the order of their
/// positions, however often and in what order they were given.
pub proof fn law_bits_come_back_by_position(ty: TypeView, v: Tree, item: Item)
    requires
        usable_names(ty.bits),
        distinct_positions(ty.bits),
        bits_encoded(ty, v, false) == Ok::<Item, Seq<char>>(item),
    ensures
        bit_names(v) is Some,
        bits_decoded(ty, item, false) matches Ok(w) && w is Text && by_position(
            ty.bits,
            bit_names(v)->0,
            w->Text_0,
        ),
{
    lemma_bits_back(ty, v, item);
}

/// There is only one text of some names by their positions.
pub proof fn law_one_text_by_position(
    bits: Seq<BitView>,
    names: Seq<Seq<char>>,
    a: Seq<char>,
    b: Seq<char>,
)
    requires
        by_position(bits, names, a),
        by_position(bits, names, b),
    ensures
        a == b,
{
    lemma_same_order(bits, words(a), words(b));
}

/// Names in the order of their positions are told by what they hold.
proof fn lemma_same_order(bits: Seq<BitView>, a: Seq<Seq<char>>, b: Seq<Seq<char>>)
    requires
        names_in_order(bits, a),
        names_in_order(bits, b),
        forall|name: Seq<char>| #[trigger] a.contains(name) <==> b.contains(name),
    ensures
        a == b,
    decreases a.len(),
{
    if a.len() == 0 {
        if b.len() > 0 {
            assert(b.contains(b[0]));
            assert(a.contains(b[0]));
        }
        assert(a =~= b);
    } else {
        assert(a.contains(a[0]));
        assert(b.contains(a[0]));
        let x = a.drop_last();
        let y = b.drop_last();
        let u = a[a.len() - 1];
        let w = b[b.len() - 1];
        assert(a.contains(u));
        assert(b.contains(u));
        assert(b.contains(w));
        assert(a.contains(w));
        let i = choose|i: int| 0 <= i < b.len() && b[i] == u;
        let j = choose|j: int| 0 <= j < a.len() && a[j] == w;
        assert(u == w) by {
            if i < b.len() - 1 && j < a.len() - 1 {
                assert(bits[bit_named(bits, b[i], 0)->0].position < bits[bit_named(
                    bits,
                    b[b.len() - 1],
                    0,
                )->0].position);
                assert(bits[bit_named(bits, a[j], 0)->0].position < bits[bit_named(
                    bits,
                    a[a.len() - 1],
                    0,
                )->0].position);
            }
        }
        assert forall|name: Seq<char>| #[trigger] x.contains(name) <==> y.contains(name) by {
            if x.contains(name) {
                let k = choose|k: int| 0 <= k < x.len() && x[k] == name;
                assert(a[k] == name);
                assert(a.contains(name));
                assert(b.contains(name));
                assert(bits[bit_named(bits, a[k], 0)->0].position < bits[bit_named(
                    bits,
                    a[a.len() - 1],
                    0,
                )->0].position);
                let l = choose|l: int| 0 <= l < b.len() && b[l] == name;
                assert(l < b.len() - 1);
                assert(y[l] == name);
            }
            if y.contains(name) {
                let k = choose|k: int| 0 <= k < y.len() && y[k] == name;
                assert(b[k] == name);
                assert(b.contains(name));
                assert(a.contains(name));
                assert(bits[bit_named(bits, b[k], 0)->0].position < bits[bit_named(
                    bits,
                    b[b.len() - 1],
                    0,
                )->0].position);
                let l = choose|l: int| 0 <= l < a.len() && a[l] == name;
                assert(l < a.len() - 1);
                assert(x[l] == name);
            }
        }
        assert forall|p: int, q: int| 0 <= p < q < x.len() implies bits[bit_named(
            bits,
            #[trigger] x[p],
            0,
        )->0].position < bits[bit_named(bits, #[trigger] x[q], 0)->0].position by {
            assert(x[p] == a[p] && x[q] == a[q]);
        }
        assert forall|p: int, q: int| 0 <= p < q < y.len() implies bits[bit_named(
            bits,
            #[trigger] y[p],
            0,
        )->0].position < bits[bit_named(bits, #[trigger] y[q], 0)->0].position by {
            assert(y[p] == b[p] && y[q] == b[q]);
        }
        lemma_same_order(bits, x, y);
        assert(a =~= x.push(u));
        assert(b =~= y.push(w));
    }
}

} // verus!
