//! What binary data, decimals and bits are written as.
use vstd::arithmetic::power::{lemma_pow_adds, pow};
use vstd::prelude::*;
use vstd::utf8::{encode_utf8, is_ascii_chars, is_ascii_chars_encode_utf8};

use crate::cbor::value::Item;
use crate::json::Tree;
use crate::text::{digits_value, index_from, joined, number_in, words};
use crate::text_laws::{
    free_of, law_digits_mean_tens, law_numbers_are_read, law_only_digits_make_numbers,
};
use crate::yang::base64::{
    base64_bytes, base64_text, counting, counts, group_text, sextet_char, sextet_of, text_from,
};
use crate::yang::bits::{
    bit_named, bit_names, bits_decoded, bits_encoded, field, field_byte, greatest, mask,
    nonzero_end, positions_of, spans_from, texts_among,
};
use crate::yang::bits_laws::{
    lemma_bit_named, lemma_field_bit, lemma_greatest_is_there, lemma_mask_is_shift, lemma_nonzero,
    lemma_positions_of, named_at,
};
use crate::yang::scalars::{decimal_mantissa, zeros};
use crate::yang::schema::{BitView, TypeView};

verus! {

/// The characters of base64, by the numbers that they stand for.
pub open spec fn alphabet() -> Seq<char> {
    "ABCDEFGHIJKLMNOPQRSTUVWXYZabcdefghijklmnopqrstuvwxyz0123456789+/"@
}

/// The character for a number is the one at its place in the alphabet.
proof fn lemma_alphabet(n: int)
    requires
        0 <= n < 64,
    ensures
        sextet_char(n) == alphabet()[n],
        alphabet().len() == 64,
{
    reveal_strlit("ABCDEFGHIJKLMNOPQRSTUVWXYZabcdefghijklmnopqrstuvwxyz0123456789+/");
}

/// The digits of three bytes as one number.
proof fn lemma_sextets(x: int, y: int, z: int)
    requires
        0 <= x < 256,
        0 <= y < 256,
        0 <= z < 256,
    ensures
        ({
            let n = x * 0x1_0000 + y * 0x100 + z;
            &&& n / 0x4_0000 == x / 4
            &&& n / 0x1000 % 64 == x % 4 * 16 + y / 16
            &&& n / 64 % 64 == y % 16 * 4 + z / 64
            &&& n % 64 == z % 64
        }),
{
    let n = x * 0x1_0000 + y * 0x100 + z;
    assert(n / 0x1000 == x * 16 + y / 16);
    assert(n / 64 == x * 1024 + y * 4 + z / 64);
}

/// Three bytes are the four base64 digits of the number that they make, before
/// those of the bytes behind them.
pub proof fn law_three_bytes_in_base64(x: u8, y: u8, z: u8, more: Seq<u8>)
    ensures
        base64_text(seq![x, y, z] + more) == ({
            let n = x * 0x1_0000 + y * 0x100 + z;
            seq![
                alphabet()[n / 0x4_0000],
                alphabet()[n / 0x1000 % 64],
                alphabet()[n / 64 % 64],
                alphabet()[n % 64],
            ] + base64_text(more)
        }),
{
    let data = seq![x, y, z] + more;
    let n = x * 0x1_0000 + y * 0x100 + z;
    lemma_sextets(x as int, y as int, z as int);
    lemma_alphabet(x as int / 4);
    lemma_alphabet(x as int % 4 * 16 + y as int / 16);
    lemma_alphabet(y as int % 16 * 4 + z as int / 64);
    lemma_alphabet(z as int % 64);
    lemma_text_behind(seq![x, y, z], more, 0);
    assert(data[0] == x && data[1] == y && data[2] == z);
    assert(text_from(data, 0) == group_text(data, 0) + text_from(data, 3));
}

/// Two bytes are three base64 digits and an equals sign, one byte is two digits
/// and two equals signs, and nothing is nothing: the digits are those of the
/// number that the bytes make, filled up with zeros at its end.
pub proof fn law_the_last_bytes_in_base64(x: u8, y: u8)
    ensures
        base64_text(seq![x, y]) == ({
            let n = x * 0x100 + y;
            seq![alphabet()[n / 0x400], alphabet()[n / 16 % 64], alphabet()[n % 16 * 4], '=']
        }),
        base64_text(seq![x]) == seq![
            alphabet()[x as int / 4],
            alphabet()[x as int % 4 * 16],
            '=',
            '=',
        ],
        base64_text(Seq::empty()) == ""@,
{
    reveal_strlit("");
    let two = seq![x, y];
    let m = x * 0x100 + y;
    lemma_sextets(0, x as int, y as int);
    assert(m / 0x400 == x as int / 4);
    assert(m / 16 == x * 16 + y as int / 16);
    assert(m / 16 % 64 == x as int % 4 * 16 + y as int / 16);
    assert(m % 16 == y as int % 16);
    lemma_alphabet(x as int / 4);
    lemma_alphabet(x as int % 4 * 16 + y as int / 16);
    lemma_alphabet(y as int % 16 * 4);
    lemma_alphabet(x as int % 4 * 16);
    assert(text_from(two, 3) =~= Seq::empty());
    assert(text_from(two, 0) == group_text(two, 0) + text_from(two, 3));
    assert(base64_text(two) =~= group_text(two, 0));
    let one = seq![x];
    assert(text_from(one, 3) =~= Seq::empty());
    assert(text_from(one, 0) == group_text(one, 0) + text_from(one, 3));
    assert(base64_text(one) =~= group_text(one, 0));
    assert(base64_text(Seq::empty()) =~= ""@);
}

/// The base64 text of what stands behind three bytes.
proof fn lemma_text_behind(a: Seq<u8>, more: Seq<u8>, i: int)
    requires
        a.len() == 3,
        0 <= i,
    ensures
        text_from(a + more, i + 3) == text_from(more, i),
    decreases more.len() + 3 - i,
{
    if i < more.len() {
        lemma_text_behind(a, more, i + 3);
        assert(group_text(a + more, i + 3) =~= group_text(more, i));
    }
}

/// Whether a character is passed over in base64 text.
pub open spec fn filler(c: char) -> bool {
    c == '=' || c == ' ' || c == '\t' || c == '\n' || c == '\r' || c == '\u{c}'
}

/// Padding and white space do not count in base64 text, wherever they stand.
pub proof fn law_fillers_do_not_count(a: Seq<char>, c: char, b: Seq<char>)
    requires
        filler(c),
        is_ascii_chars(a),
        is_ascii_chars(b),
    ensures
        base64_bytes(a + seq![c] + b) == base64_bytes(a + b),
{
    let s = a + seq![c] + b;
    let t = a + b;
    is_ascii_chars_encode_utf8(s);
    is_ascii_chars_encode_utf8(t);
    let x = encode_utf8(s);
    let y = encode_utf8(t);
    assert forall|i: int| 0 <= i < a.len() implies #[trigger] x[i] == y[i] by {
        assert(s[i] == a[i] && t[i] == a[i]);
    }
    assert(s[a.len() as int] == c);
    assert(x[a.len() as int] == c as u8);
    assert forall|i: int| a.len() < i < s.len() implies #[trigger] x[i] == y[i - 1] by {
        assert(s[i] == b[i - a.len() - 1] && t[i - 1] == b[i - a.len() - 1]);
    }
    lemma_counting(x, y, a.len() as int, x.len() as int);
}

/// A byte that does not count changes nothing.
proof fn lemma_counting(x: Seq<u8>, y: Seq<u8>, k: int, n: int)
    requires
        0 <= k < x.len(),
        y.len() == x.len() - 1,
        0 <= n <= x.len(),
        !counts(x[k]),
        forall|i: int| 0 <= i < k ==> #[trigger] x[i] == y[i],
        forall|i: int| k < i < x.len() ==> #[trigger] x[i] == y[i - 1],
    ensures
        n <= k ==> counting(x, n) == counting(y, n),
        n > k ==> counting(x, n) == counting(y, n - 1),
    decreases n,
{
    if n > 0 {
        lemma_counting(x, y, k, n - 1);
    }
}

/// Text is base64 exactly where each character is of the alphabet or is passed
/// over.
pub proof fn law_what_is_base64(s: Seq<char>)
    requires
        is_ascii_chars(s),
    ensures
        base64_bytes(s) is Some <==> forall|i: int|
            0 <= i < s.len() ==> filler(#[trigger] s[i]) || alphabet().contains(s[i]),
{
    is_ascii_chars_encode_utf8(s);
    let x = encode_utf8(s);
    lemma_all_count(s, x, x.len() as int);
}

/// The bytes that count among the first `n` are all of the alphabet exactly
/// where the characters are.
proof fn lemma_all_count(s: Seq<char>, x: Seq<u8>, n: int)
    requires
        is_ascii_chars(s),
        x.len() == s.len(),
        0 <= n <= s.len(),
        forall|i: int| 0 <= i < s.len() ==> #[trigger] s[i] as u8 == x[i],
    ensures
        ({
            let clean = counting(x, n);
            (forall|i: int| 0 <= i < clean.len() ==> sextet_of(#[trigger] clean[i]) is Some) <==> (
            forall|i: int|
                0 <= i < n ==> filler(#[trigger] s[i]) || alphabet().contains(s[i]))
        }),
    decreases n,
{
    if n > 0 {
        lemma_all_count(s, x, n - 1);
        let c = s[n - 1];
        assert(c as u8 == x[n - 1]);
        lemma_in_alphabet(c);
        let before = counting(x, n - 1);
        let clean = counting(x, n);
        if counts(x[n - 1]) {
            assert(clean == before.push(x[n - 1]));
            assert(clean[clean.len() - 1] == x[n - 1]);
            assert forall|i: int| 0 <= i < before.len() implies clean[i] == #[trigger] before[i] by {}
        }
    }
}

/// A character is of the alphabet exactly where its byte stands for a number.
proof fn lemma_in_alphabet(c: char)
    requires
        c <= '\u{7f}',
    ensures
        sextet_of(c as u8) is Some <==> alphabet().contains(c),
        filler(c) <==> !counts(c as u8),
{
    if let Some(v) = sextet_of(c as u8) {
        lemma_alphabet(v);
        assert(alphabet()[v] == c);
    }
    if alphabet().contains(c) {
        let v = choose|v: int| 0 <= v < alphabet().len() && alphabet()[v] == c;
        lemma_alphabet(0);
        lemma_alphabet(v);
    }
}

/// Zeros mean nothing.
proof fn lemma_zeros(n: int)
    requires
        0 <= n,
    ensures
        zeros(n).len() == n,
        digits_value(zeros(n)) == Some(0int),
    decreases n,
{
    if n > 0 {
        lemma_zeros(n - 1);
        assert(zeros(n).drop_last() =~= zeros(n - 1));
    }
}

/// Digits hold no dot and no sign.
proof fn lemma_digits_alone(w: Seq<char>)
    requires
        digits_value(w) is Some,
    ensures
        free_of(w, '.'),
        w.len() > 0 ==> w[0] != '-',
        is_ascii_chars(w),
{
    law_only_digits_make_numbers(w);
}

/// The value of the digits before and behind the dot.
proof fn lemma_both_parts(w: Seq<char>, f: Seq<char>, digits: int)
    requires
        digits_value(w) is Some,
        digits_value(f) is Some,
        f.len() <= digits,
        w.len() > 0,
    ensures
        ({
            let t = w + f + zeros(digits - f.len());
            let m = digits_value(w)->0 * pow(10, digits as nat) + digits_value(f)->0 * pow(
                10,
                (digits - f.len()) as nat,
            );
            number_in(t, i128::MIN as int, i128::MAX as int) == (if i128::MIN <= m <= i128::MAX {
                Some(m)
            } else {
                None::<int>
            })
        }),
{
    let z = digits - f.len();
    lemma_zeros(z);
    law_digits_mean_tens(w, f, 0);
    law_digits_mean_tens(w + f, zeros(z), 0);
    let a = digits_value(w)->0;
    let b = digits_value(f)->0;
    lemma_pow_adds(10, f.len(), z as nat);
    let p = pow(10, f.len());
    let q = pow(10, z as nat);
    assert((a * p + b) * q == a * (p * q) + b * q) by (nonlinear_arith);
    law_numbers_are_read(
        w + f + zeros(z),
        a * pow(10, digits as nat) + b * q,
        i128::MIN as int,
        i128::MAX as int,
    );
}

/// A decimal is the number of its digits in units of the last one that its type
/// has: `w.f` with `d` fraction digits is `w * 10^d + f * 10^(d - k)` where `f`
/// has `k` digits, and a minus sign turns it round. Without digits before the
/// dot there are no whole ones. More digits than the type has, and numbers that
/// do not fit 64 bits, are refused.
pub proof fn law_decimals_count_units(w: Seq<char>, f: Seq<char>, digits: int)
    requires
        digits_value(w) is Some,
        digits_value(f) is Some,
        0 <= digits,
    ensures
        f.len() > digits ==> decimal_mantissa(w + "."@ + f, digits) is Err && decimal_mantissa(
            "-"@ + w + "."@ + f,
            digits,
        ) is Err,
        f.len() <= digits ==> ({
            let whole = digits_value(w)->0 * pow(10, digits as nat);
            let m = whole + digits_value(f)->0 * pow(10, (digits - f.len()) as nat);
            &&& i64::MIN <= m <= i64::MAX ==> decimal_mantissa(w + "."@ + f, digits) == Ok::<
                int,
                Seq<char>,
            >(m)
            &&& !(i64::MIN <= m <= i64::MAX) ==> decimal_mantissa(w + "."@ + f, digits) is Err
            &&& i64::MIN <= -m <= i64::MAX ==> decimal_mantissa("-"@ + w + "."@ + f, digits) == Ok::<
                int,
                Seq<char>,
            >(-m)
            &&& !(i64::MIN <= -m <= i64::MAX) ==> decimal_mantissa("-"@ + w + "."@ + f, digits) is Err
        }),
{
    reveal_strlit("-");
    reveal_strlit(".");
    reveal_strlit("0");
    let s = w + "."@ + f;
    let t = "-"@ + w + "."@ + f;
    assert(t.subrange(1, t.len() as int) =~= s);
    assert("."@ =~= seq!['.']);
    lemma_digits_alone(w);
    lemma_digits_alone(f);
    lemma_first_dot(w, f, 0);
    is_ascii_chars_encode_utf8(f);
    assert(s.subrange(0, w.len() as int) =~= w);
    assert(s.subrange(w.len() + 1int, s.len() as int) =~= f);
    assert(s[0] == if w.len() > 0 {
        w[0]
    } else {
        '.'
    });
    assert(t[0] == '-');
    let whole = if w.len() == 0 {
        "0"@
    } else {
        w
    };
    if f.len() <= digits {
        if w.len() == 0 {
            assert("0"@ =~= zeros(1)) by {
                assert(zeros(0) =~= Seq::empty());
                assert(zeros(1) =~= seq!['0']);
            }
            lemma_zeros(1);
            assert(w =~= Seq::empty());
        }
        lemma_both_parts(whole, f, digits);
    }
}

/// A decimal without a dot is a whole number, and no digits at all are none.
pub proof fn law_whole_decimals(w: Seq<char>, digits: int)
    requires
        digits_value(w) is Some,
        0 <= digits,
    ensures
        ({
            let m = digits_value(w)->0 * pow(10, digits as nat);
            &&& i64::MIN <= m <= i64::MAX ==> decimal_mantissa(w, digits) == Ok::<int, Seq<char>>(m)
            &&& !(i64::MIN <= m <= i64::MAX) ==> decimal_mantissa(w, digits) is Err
            &&& i64::MIN <= -m <= i64::MAX ==> decimal_mantissa("-"@ + w, digits) == Ok::<
                int,
                Seq<char>,
            >(-m)
        }),
{
    reveal_strlit("-");
    reveal_strlit("0");
    let t = "-"@ + w;
    let none = Seq::<char>::empty();
    assert(t.subrange(1, t.len() as int) =~= w);
    assert(t[0] == '-');
    lemma_digits_alone(w);
    lemma_first_dot(w, none, 0);
    is_ascii_chars_encode_utf8(none);
    assert(w.subrange(0, w.len() as int) =~= w);
    assert(digits_value(none) == Some(0int));
    let whole = if w.len() == 0 {
        "0"@
    } else {
        w
    };
    if w.len() == 0 {
        assert("0"@ =~= zeros(1)) by {
            assert(zeros(0) =~= Seq::empty());
            assert(zeros(1) =~= seq!['0']);
        }
        lemma_zeros(1);
        assert(w =~= Seq::empty());
    }
    lemma_both_parts(whole, none, digits);
    assert(0 * pow(10, digits as nat) == 0) by (nonlinear_arith);
}

/// The first dot is the one behind digits.
proof fn lemma_first_dot(w: Seq<char>, f: Seq<char>, from: int)
    requires
        free_of(w, '.'),
        0 <= from <= w.len(),
    ensures
        index_from(w + "."@ + f, '.', from) == w.len(),
        index_from(w, '.', from) == w.len(),
    decreases w.len() - from,
{
    reveal_strlit(".");
    let s = w + "."@ + f;
    if from < w.len() {
        assert(s[from] == w[from]);
        lemma_first_dot(w, f, from + 1);
    } else {
        assert(s[from] == '.');
    }
}

/// The bytes that spans lay out: each number is that many bytes of no bits, and
/// each run is its bytes.
pub open spec fn laid_out(spans: Seq<Item>) -> Seq<u8>
    decreases spans.len(),
{
    if spans.len() == 0 {
        Seq::empty()
    } else {
        let rest = laid_out(spans.drop_first());
        match spans[0] {
            Item::Integer(n) => Seq::new(n as nat, |i: int| 0u8) + rest,
            Item::Bytes(run) => run + rest,
            _ => rest,
        }
    }
}

/// The bytes that a value of a bits type lays out.
pub open spec fn bit_field(item: Item) -> Seq<u8> {
    match item {
        Item::Bytes(run) => run,
        Item::Array(spans) => laid_out(spans),
        _ => Seq::empty(),
    }
}

/// Whether a bit is set: bit 0 is the lowest of the first byte.
pub open spec fn bit_is_set(bytes: Seq<u8>, position: int) -> bool {
    0 <= position / 8 < bytes.len() && (bytes[position / 8] >> ((position % 8) as u8)) & 1 == 1
}

/// What spans lay out is what they were made from.
proof fn lemma_laid_out(bytes: Seq<u8>, i: int, gap: int)
    requires
        0 <= i <= bytes.len(),
        0 <= gap,
        i == bytes.len() ==> gap == 0,
        bytes.len() > 0 ==> bytes.last() != 0,
    ensures
        laid_out(spans_from(bytes, i, gap)) == Seq::new(gap as nat, |k: int| 0u8) + bytes.subrange(
            i,
            bytes.len() as int,
        ),
    decreases bytes.len() - i,
{
    let n = bytes.len() as int;
    let spans = spans_from(bytes, i, gap);
    if i >= n {
        assert(laid_out(spans) =~= Seq::new(gap as nat, |k: int| 0u8) + bytes.subrange(i, n));
    } else if bytes[i] == 0 {
        lemma_laid_out(bytes, i + 1, gap + 1);
        assert(laid_out(spans) =~= Seq::new(gap as nat, |k: int| 0u8) + bytes.subrange(i, n));
    } else {
        lemma_nonzero(bytes, i + 1);
        let end = nonzero_end(bytes, i + 1);
        lemma_laid_out(bytes, end, 0);
        let rest = spans_from(bytes, end, 0);
        let run = seq![Item::Bytes(bytes.subrange(i, end))] + rest;
        assert(run.drop_first() =~= rest);
        assert(laid_out(run) =~= bytes.subrange(i, n));
        if gap > 0 {
            assert(spans =~= seq![Item::Integer(gap)] + run);
            assert(spans.drop_first() =~= run);
        } else {
            assert(spans =~= run);
        }
        assert(laid_out(spans) =~= Seq::new(gap as nat, |k: int| 0u8) + bytes.subrange(i, n));
    }
}

/// A run without an end before the end of the bytes.
proof fn lemma_one_run(bytes: Seq<u8>, i: int)
    requires
        0 <= i <= bytes.len(),
        forall|k: int| 0 <= k < bytes.len() ==> #[trigger] bytes[k] != 0,
    ensures
        nonzero_end(bytes, i) == bytes.len(),
    decreases bytes.len() - i,
{
    if i < bytes.len() {
        lemma_one_run(bytes, i + 1);
    }
}

/// A bit of a byte, by its mask and by its place.
proof fn lemma_bit_by_place(b: u8, k: int)
    requires
        0 <= k < 8,
    ensures
        (b & mask(k) != 0) == ((b >> (k as u8)) & 1 == 1),
{
    lemma_mask_is_shift(k);
    let q: u8 = k as u8;
    assert(q < 8 ==> ((b & (1u8 << q) != 0) == ((b >> q) & 1 == 1))) by (bit_vector);
}

/// The bits of a field are at the positions, and its last byte is not zero.
proof fn lemma_field(positions: Seq<u32>, p: int)
    requires
        positions.len() > 0,
        0 <= p,
    ensures
        bit_is_set(field(positions), p) <==> exists|j: int|
            0 <= j < positions.len() && #[trigger] positions[j] == p,
        field(positions).len() > 0,
        field(positions).last() != 0,
{
    let n = positions.len() as int;
    let f = field(positions);
    lemma_greatest_is_there(positions, n);
    let top = greatest(positions, n);
    let g = choose|j: int| 0 <= j < n && #[trigger] positions[j] == top;
    assert(positions[g] == top / 8 * 8 + top % 8);
    lemma_field_bit(positions, top / 8, top % 8, n);
    assert(f[top / 8] == field_byte(positions, top / 8, n));
    let last = f[top / 8];
    let m = mask(top % 8);
    assert(last & m != 0);
    assert(last == 0 ==> last & m == 0) by (bit_vector);
    assert(p == p / 8 * 8 + p % 8);
    if p / 8 < f.len() {
        lemma_field_bit(positions, p / 8, p % 8, n);
        lemma_bit_by_place(f[p / 8], p % 8);
    } else if exists|j: int| 0 <= j < n && #[trigger] positions[j] == p {
        let j = choose|j: int| 0 <= j < n && #[trigger] positions[j] == p;
        assert(positions[j] <= top);
    }
}

/// Names have positions exactly where each is the name of a bit.
proof fn lemma_all_named(bits: Seq<BitView>, names: Seq<Seq<char>>, n: int)
    requires
        0 <= n <= names.len(),
    ensures
        positions_of(bits, names, n) is Ok <==> forall|j: int|
            0 <= j < n ==> bit_named(bits, #[trigger] names[j], 0) is Some,
    decreases n,
{
    if n > 0 {
        lemma_all_named(bits, names, n - 1);
    }
}

/// A bit with a name is found by it.
proof fn lemma_named(bits: Seq<BitView>, name: Seq<char>, from: int)
    requires
        0 <= from <= bits.len(),
    ensures
        bit_named(bits, name, from) is Some <==> exists|i: int|
            from <= i < bits.len() && (#[trigger] bits[i]).name == name,
    decreases bits.len() - from,
{
    if from < bits.len() {
        lemma_named(bits, name, from + 1);
        if bits[from].name != name && exists|i: int|
            from <= i < bits.len() && (#[trigger] bits[i]).name == name {
            let i = choose|i: int| from <= i < bits.len() && (#[trigger] bits[i]).name == name;
            assert(from + 1 <= i < bits.len() && bits[i].name == name);
        }
    }
}

/// Bits are sent as a field in which the bit at a position is set exactly where
/// one of the names is that of the bit at this position. Names that are of no
/// bit are refused; no names are an empty list; and a field without a byte of no
/// bits is sent for itself.
pub proof fn law_bits_are_set_by_position(
    ty: TypeView,
    v: Tree,
    names: Seq<Seq<char>>,
    position: int,
)
    requires
        bit_names(v) == Some(names),
        0 <= position,
        forall|i: int, j: int|
            0 <= i < j < ty.bits.len() ==> (#[trigger] ty.bits[i]).name != (
            #[trigger] ty.bits[j]).name,
    ensures
        bits_encoded(ty, v, false) is Ok <==> forall|j: int|
            0 <= j < names.len() ==> exists|i: int|
                0 <= i < ty.bits.len() && (#[trigger] ty.bits[i]).name == #[trigger] names[j],
        bits_encoded(ty, v, false) matches Ok(item) ==> {
            let bytes = bit_field(item);
            &&& bit_is_set(bytes, position) <==> exists|i: int, j: int|
                0 <= i < ty.bits.len() && 0 <= j < names.len() && (#[trigger] ty.bits[i]).name
                    == #[trigger] names[j] && ty.bits[i].position == position
            &&& names.len() == 0 ==> item == Item::Array(Seq::empty())
            &&& names.len() > 0 && (forall|k: int| 0 <= k < bytes.len() ==> #[trigger] bytes[k] != 0)
                ==> item == Item::Bytes(bytes)
        },
{
    let n = names.len() as int;
    lemma_all_named(ty.bits, names, n);
    assert forall|j: int| 0 <= j < n implies (bit_named(ty.bits, #[trigger] names[j], 0) is Some
        <==> exists|i: int| 0 <= i < ty.bits.len() && (#[trigger] ty.bits[i]).name == names[j]) by {
        lemma_named(ty.bits, names[j], 0);
    }
    if let Ok(item) = bits_encoded(ty, v, false) {
        let p = lemma_positions_of(ty.bits, names, n);
        if n == 0 {
            assert(laid_out(Seq::empty()) =~= Seq::empty());
        } else {
            let f = field(p);
            lemma_field(p, position);
            lemma_laid_out(f, 0, 0);
            let spans = spans_from(f, 0, 0);
            assert(laid_out(spans) =~= f);
            if spans.len() == 1 && spans[0] is Bytes {
                assert(spans.drop_first() =~= Seq::empty());
                assert(laid_out(spans.drop_first()) =~= Seq::empty());
                assert(laid_out(spans) =~= spans[0]->Bytes_0);
            }
            assert(bit_field(item) == f);
            if forall|k: int| 0 <= k < f.len() ==> #[trigger] f[k] != 0 {
                lemma_one_run(f, 1);
                assert(f[0] != 0);
                assert(f.subrange(0, f.len() as int) =~= f);
                assert(spans_from(f, f.len() as int, 0) =~= Seq::empty());
                assert(spans =~= seq![Item::Bytes(f)]);
            }
            if exists|j: int| 0 <= j < p.len() && #[trigger] p[j] == position {
                let j = choose|j: int| 0 <= j < p.len() && #[trigger] p[j] == position;
                assert(named_at(ty.bits, names[j], p[j]));
                lemma_bit_named(ty.bits, names[j], 0);
                let i = bit_named(ty.bits, names[j], 0)->0;
                assert(ty.bits[i].name == names[j] && ty.bits[i].position == position);
            }
            if exists|i: int, j: int|
                0 <= i < ty.bits.len() && 0 <= j < names.len() && (#[trigger] ty.bits[i]).name
                    == #[trigger] names[j] && ty.bits[i].position == position {
                let (i, j) = choose|i: int, j: int|
                    0 <= i < ty.bits.len() && 0 <= j < names.len() && (#[trigger] ty.bits[i]).name
                        == #[trigger] names[j] && ty.bits[i].position == position;
                assert(named_at(ty.bits, names[j], p[j]));
                lemma_bit_named(ty.bits, names[j], 0);
                let k = bit_named(ty.bits, names[j], 0)->0;
                assert(ty.bits[k].name == ty.bits[i].name);
                assert(k == i) by {
                    if k < i {
                        assert(ty.bits[k].name != ty.bits[i].name);
                    } else if i < k {
                        assert(ty.bits[i].name != ty.bits[k].name);
                    }
                }
                assert(p[j] == position);
            }
        }
    }
}

/// The names of bits are the words of a text or the texts of a list; in a union
/// they are sent by name, with a blank between them, under tag 43, and shown as
/// they come.
pub proof fn law_bits_by_name(ty: TypeView, s: Seq<char>, a: Seq<Tree>, t: Seq<char>)
    requires
        forall|i: int| 0 <= i < a.len() ==> #[trigger] a[i] is Text,
    ensures
        bit_names(Tree::Text(s)) == Some(words(s)),
        bit_names(Tree::Array(a)) == Some(a.map_values(|v: Tree| v->Text_0)),
        bits_encoded(ty, Tree::Text(s), true) == Ok::<Item, Seq<char>>(
            Item::Tag(43, Box::new(Item::Text(joined(words(s), " "@)))),
        ),
        bits_encoded(ty, Tree::Array(a), true) == Ok::<Item, Seq<char>>(
            Item::Tag(43, Box::new(Item::Text(joined(a.map_values(|v: Tree| v->Text_0), " "@)))),
        ),
        bits_decoded(ty, Item::Tag(43, Box::new(Item::Text(t))), true) == Ok::<Tree, Seq<char>>(
            Tree::Text(t),
        ),
{
    lemma_texts_among(a, a.len() as int);
    assert(a.subrange(0, a.len() as int) =~= a);
}

/// The texts among texts are all of them.
proof fn lemma_texts_among(a: Seq<Tree>, n: int)
    requires
        0 <= n <= a.len(),
        forall|i: int| 0 <= i < a.len() ==> #[trigger] a[i] is Text,
    ensures
        texts_among(a, n) == a.subrange(0, n).map_values(|v: Tree| v->Text_0),
    decreases n,
{
    if n > 0 {
        lemma_texts_among(a, n - 1);
        assert(a[n - 1] is Text);
        assert(texts_among(a, n) =~= a.subrange(0, n).map_values(|v: Tree| v->Text_0));
    } else {
        assert(texts_among(a, n) =~= a.subrange(0, n).map_values(|v: Tree| v->Text_0));
    }
}

} // verus!
