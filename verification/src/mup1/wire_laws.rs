//! The bytes that frames are made of.
use vstd::prelude::*;

use crate::mup1::checksum::{
    base128_byte, base128_digit, base128_text, checksum_text, complement, crc_steps, folded,
    hex_digit, ignores, law_internet_sums_words, running_over, word_sum, ChecksumType, Running,
};
use crate::mup1::frame::{
    accepted, end_bytes, frame_checksum, fresh, stuffed, stuffed_byte, wire, MAX_DATA_SIZE,
    RAW_BUF_CAP, TYPE_RAW,
};
use crate::mup1::transport::{endpoint_in, host_port, EndpointView};
use crate::text::decimal_text;

verus! {

/// The data of one frame behind those of another are on the wire behind each
/// other.
pub proof fn law_data_byte_by_byte(a: Seq<u8>, b: Seq<u8>)
    ensures
        stuffed(a + b) == stuffed(a) + stuffed(b),
    decreases b.len(),
{
    if b.len() > 0 {
        law_data_byte_by_byte(a, b.drop_last());
        assert((a + b).drop_last() =~= a + b.drop_last());
        assert(stuffed(a + b) =~= stuffed(a) + stuffed(b));
    } else {
        assert(a + b =~= a);
        assert(stuffed(a) + stuffed(b) =~= stuffed(a));
    }
}

/// A byte of data stands for itself, but for `>`, `<`, the backslash, and the
/// bytes of all zeros and all ones: these go behind a backslash, the last two as
/// `0` and `F`.
pub proof fn law_one_byte_of_data(b: u8)
    ensures
        stuffed(seq![b]) == (if b == 0x3E || b == 0x3C || b == 0x5C {
            seq![0x5Cu8, b]
        } else if b == 0x00 {
            seq![0x5Cu8, 0x30u8]
        } else if b == 0xFF {
            seq![0x5Cu8, 0x46u8]
        } else {
            seq![b]
        }),
{
    assert(seq![b].drop_last() =~= Seq::empty());
    reveal_with_fuel(stuffed, 2);
    assert(Seq::<u8>::empty() + stuffed_byte(b) =~= stuffed_byte(b));
}

/// A frame on the wire is `>`, its type, its data, one `<` or two, its checksum,
/// and a carriage return and a line feed. Two `<` stand behind data of even
/// length where the checksum goes by words.
pub proof fn law_frame_layout(t: ChecksumType, type_byte: u8, data: Seq<u8>)
    ensures
        ({
            let w = wire(t, type_byte, data);
            let sum = frame_checksum(t, type_byte, data);
            let body = stuffed(data);
            let two = t == ChecksumType::Internet && data.len() % 2 == 0;
            let end: int = if two {
                2
            } else {
                1
            };
            let n = body.len() as int;
            &&& w.len() == 2 + n + end + sum.len() + 2
            &&& w[0] == 0x3E
            &&& w[1] == type_byte
            &&& w.subrange(2, 2 + n) == body
            &&& w[2 + n] == 0x3C
            &&& two ==> w[3 + n] == 0x3C
            &&& w.subrange(2 + n + end, 2 + n + end + sum.len()) == sum
            &&& w[w.len() - 2] == 0x0D
            &&& w[w.len() - 1] == 0x0A
        }),
{
    let w = wire(t, type_byte, data);
    let sum = frame_checksum(t, type_byte, data);
    let body = stuffed(data);
    let ends = end_bytes(t, data.len());
    let n = body.len() as int;
    assert(w =~= seq![0x3Eu8, type_byte] + body + ends + sum + seq![0x0Du8, 0x0Au8]);
    assert(w.subrange(2, 2 + n) =~= body);
    assert(w.subrange(2 + n + ends.len(), 2 + n + ends.len() + sum.len()) =~= sum);
}

/// The checksum of a frame is made over its start, its type, its data as they
/// are, and its end.
pub proof fn law_what_is_summed(t: ChecksumType, type_byte: u8, data: Seq<u8>)
    ensures
        ({
            let two = t == ChecksumType::Internet && data.len() % 2 == 0;
            let bytes = if two {
                seq![0x3Eu8, type_byte] + data + seq![0x3Cu8, 0x3Cu8]
            } else {
                seq![0x3Eu8, type_byte] + data + seq![0x3Cu8]
            };
            frame_checksum(t, type_byte, data) == checksum_text(running_over(t, bytes))
        }),
{
}

/// The sum of the words of some bytes, two bytes a word, the high one first; a
/// byte that is left over is the high one of a word.
pub open spec fn total(bytes: Seq<u8>) -> int
    decreases bytes.len(),
{
    if bytes.len() == 0 {
        0
    } else if bytes.len() == 1 {
        bytes[0] as int * 256
    } else {
        bytes[0] as int * 256 + bytes[1] as int + total(bytes.subrange(2, bytes.len() as int))
    }
}

/// The sum goes on behind an even number of bytes.
proof fn lemma_total_goes_on(a: Seq<u8>, b: Seq<u8>)
    requires
        a.len() % 2 == 0,
    ensures
        total(a + b) == total(a) + total(b),
    decreases a.len(),
{
    if a.len() == 0 {
        assert(a + b =~= b);
    } else {
        let rest = a.subrange(2, a.len() as int);
        lemma_total_goes_on(rest, b);
        assert((a + b).subrange(2, (a + b).len() as int) =~= rest + b);
        assert((a + b)[0] == a[0] && (a + b)[1] == a[1]);
    }
}

proof fn lemma_word_sum(bytes: Seq<u8>)
    ensures
        word_sum(bytes) == total(bytes),
        word_sum(bytes) >= 0,
        word_sum(bytes) <= bytes.len() * 0xFF00,
    decreases bytes.len(),
{
    if bytes.len() > 0 {
        let n = bytes.len() as int;
        lemma_word_sum(bytes.drop_last());
        if n % 2 == 1 {
            assert(bytes =~= bytes.drop_last() + seq![bytes.last()]);
            lemma_total_goes_on(bytes.drop_last(), seq![bytes.last()]);
        } else {
            let front = bytes.subrange(0, n - 2);
            let pair = bytes.subrange(n - 2, n);
            assert(bytes =~= front + pair);
            lemma_total_goes_on(front, pair);
            assert(pair.subrange(2, 2) =~= Seq::empty());
            assert(total(pair.subrange(2, 2)) == 0);
            assert(bytes.drop_last() =~= front + seq![bytes[n - 2]]);
            lemma_total_goes_on(front, seq![bytes[n - 2]]);
        }
    }
}

/// The number that four lowercase hex digits stand for.
pub open spec fn hex_value(t: Seq<u8>) -> int {
    digit_of(t[0]) * 0x1000 + digit_of(t[1]) * 0x100 + digit_of(t[2]) * 0x10 + digit_of(t[3])
}

/// The number that a lowercase hex digit stands for.
pub open spec fn digit_of(c: u8) -> int {
    if 0x30 <= c <= 0x39 {
        c - 0x30
    } else {
        c - 0x61 + 10
    }
}

/// The one's-complement checksum of some bytes, with the sum of their words, is
/// a multiple of 2^16 - 1, and is written as four lowercase hex digits: added to
/// the words it makes a number of all ones.
pub proof fn law_internet_checksum(bytes: Seq<u8>)
    requires
        bytes.len() <= 0xFFFF,
    ensures
        ({
            let sum = checksum_text(running_over(ChecksumType::Internet, bytes));
            &&& sum.len() == 4
            &&& forall|i: int|
                0 <= i < 4 ==> (0x30 <= #[trigger] sum[i] <= 0x39 || 0x61 <= sum[i] <= 0x66)
            &&& 0 <= hex_value(sum) <= 0xFFFF
            &&& (hex_value(sum) + total(bytes)) % 0xFFFF == 0
        }),
{
    lemma_word_sum(bytes);
    law_internet_sums_words(bytes);
    let acc = word_sum(bytes);
    assert(acc <= 0xFFFF * 0xFF00) by (nonlinear_arith)
        requires
            acc <= bytes.len() * 0xFF00,
            bytes.len() <= 0xFFFF,
    ;
    lemma_complement(acc as u32);
    lemma_hex(complement(acc as u32));
}

/// The complement of a sum makes it a multiple of 2^16 - 1.
proof fn lemma_complement(acc: u32)
    ensures
        0 <= complement(acc) <= 0xFFFF,
        (complement(acc) + acc) % 0xFFFF == 0,
{
    let a = acc as int;
    let high = a / 0x1_0000;
    let once = folded(a);
    let carry = once / 0x1_0000;
    let twice = folded(once);
    assert(once <= 0x1_FFFE);
    assert(carry <= 1);
    assert(twice <= 0xFFFF);
    assert(a == high * 0x1_0000 + a % 0x1_0000);
    assert(once == carry * 0x1_0000 + once % 0x1_0000);
    assert(twice % 0x1_0000 == twice);
    let c = 0xFFFF - twice;
    assert(c + a == (high + carry + 1) * 0xFFFF);
    assert(((high + carry + 1) * 0xFFFF) % 0xFFFF == 0) by (nonlinear_arith);
}

/// Four hex digits of a number stand for it.
proof fn lemma_hex(c: int)
    requires
        0 <= c <= 0xFFFF,
    ensures
        ({
            let sum = seq![
                hex_digit(c / 0x1000 % 16),
                hex_digit(c / 0x100 % 16),
                hex_digit(c / 0x10 % 16),
                hex_digit(c % 16),
            ];
            &&& hex_value(sum) == c
            &&& forall|i: int|
                0 <= i < 4 ==> (0x30 <= #[trigger] sum[i] <= 0x39 || 0x61 <= sum[i] <= 0x66)
        }),
{
    let x1 = c / 16;
    let x2 = x1 / 16;
    let x3 = x2 / 16;
    assert(x2 == c / 0x100);
    assert(x3 == c / 0x1000);
    assert(x3 < 16);
    lemma_hex_one(c % 16);
    lemma_hex_one(x1 % 16);
    lemma_hex_one(x2 % 16);
    lemma_hex_one(x3 % 16);
    assert(c == x1 * 16 + c % 16 && x1 == x2 * 16 + x1 % 16 && x2 == x3 * 16 + x2 % 16);
}

/// A hex digit stands for its number.
proof fn lemma_hex_one(n: int)
    requires
        0 <= n < 16,
    ensures
        digit_of(hex_digit(n)) == n,
        0x30 <= hex_digit(n) <= 0x39 || 0x61 <= hex_digit(n) <= 0x66,
{
}

/// The bytes that stand for base-128 digits are in the order of the digits, and
/// are the 128 bytes from `/` to `9`, `?` to `Z`, `a` to `z` and 0xBF to 0xFD.
pub proof fn law_digits_by_order(d: int, e: int)
    requires
        0 <= d < 128,
        0 <= e < 128,
    ensures
        d < e <==> base128_byte(d) < base128_byte(e),
        ({
            let b = base128_byte(d);
            0x2F <= b <= 0x39 || 0x3F <= b <= 0x5A || 0x61 <= b <= 0x7A || 0xBF <= b <= 0xFD
        }),
        base128_digit(base128_byte(d)) == Some(d),
{
}

/// A number of 32 bits is written as five base-128 digits, the most significant
/// one first.
pub proof fn law_five_digits(x: u32)
    ensures
        ({
            let t = base128_text(x as int);
            &&& t.len() == 5
            &&& forall|i: int| 0 <= i < 5 ==> base128_digit(#[trigger] t[i]) is Some
            &&& x == base128_digit(t[0])->0 * 0x1000_0000 + base128_digit(t[1])->0 * 0x20_0000
                + base128_digit(t[2])->0 * 0x4000 + base128_digit(t[3])->0 * 0x80 + base128_digit(
                t[4],
            )->0
        }),
{
    let x = x as int;
    let x4 = x / 128;
    let x3 = x4 / 128;
    let x2 = x3 / 128;
    let x1 = x2 / 128;
    assert(x3 == x / 0x4000);
    assert(x2 == x / 0x20_0000);
    assert(x1 == x / 0x1000_0000);
    assert(x1 < 16);
    law_digits_by_order(x1 % 128, 0);
    law_digits_by_order(x2 % 128, 0);
    law_digits_by_order(x3 % 128, 0);
    law_digits_by_order(x4 % 128, 0);
    law_digits_by_order(x % 128, 0);
    assert(x == x4 * 128 + x % 128 && x4 == x3 * 128 + x4 % 128 && x3 == x2 * 128 + x3 % 128 && x2
        == x1 * 128 + x2 % 128);
}

/// The CRC of some bytes: what remains, with all bits inverted.
pub open spec fn crc_of(bytes: Seq<u8>) -> u32 {
    match running_over(ChecksumType::Crc32, bytes) {
        Running::Crc32 { crc } => crc ^ 0xFFFF_FFFFu32,
        _ => 0,
    }
}

/// The four bytes of a number, the least significant one first.
pub open spec fn low_first(x: u32) -> Seq<u8> {
    seq![
        (x & 0xFF) as u8,
        ((x >> 8) & 0xFF) as u8,
        ((x >> 16) & 0xFF) as u8,
        ((x >> 24) & 0xFF) as u8,
    ]
}

proof fn lemma_crc(bytes: Seq<u8>)
    ensures
        running_over(ChecksumType::Crc32, bytes) is Crc32,
    decreases bytes.len(),
{
    if bytes.len() > 0 {
        lemma_crc(bytes.drop_last());
    }
}

/// An entry of the table of the CRC.
proof fn lemma_entry_ff()
    ensures
        crc_steps(0x0000_00FFu32, 8) == 0x2D02_EF8Du32,
{
    assert(0x0000_00FFu32 & 1 != 0 && (0xEDB8_8320u32 ^ (0x0000_00FFu32 >> 1u32)) == 0xEDB8_835Fu32
        && 0xEDB8_835Fu32 & 1 != 0 && (0xEDB8_8320u32 ^ (0xEDB8_835Fu32 >> 1u32)) == 0x9B64_C28Fu32
        && 0x9B64_C28Fu32 & 1 != 0 && (0xEDB8_8320u32 ^ (0x9B64_C28Fu32 >> 1u32)) == 0xA00A_E267u32
        && 0xA00A_E267u32 & 1 != 0 && (0xEDB8_8320u32 ^ (0xA00A_E267u32 >> 1u32)) == 0xBDBD_F213u32
        && 0xBDBD_F213u32 & 1 != 0 && (0xEDB8_8320u32 ^ (0xBDBD_F213u32 >> 1u32)) == 0xB366_7A29u32
        && 0xB366_7A29u32 & 1 != 0 && (0xEDB8_8320u32 ^ (0xB366_7A29u32 >> 1u32)) == 0xB40B_BE34u32
        && 0xB40B_BE34u32 & 1 == 0 && (0xB40B_BE34u32 >> 1u32) == 0x5A05_DF1Au32
        && 0x5A05_DF1Au32 & 1 == 0 && (0x5A05_DF1Au32 >> 1u32) == 0x2D02_EF8Du32) by (bit_vector);
    assert(crc_steps(0x0000_00FFu32, 0) == 0x0000_00FFu32);
    assert(crc_steps(0x0000_00FFu32, 1) == 0xEDB8_835Fu32);
    assert(crc_steps(0x0000_00FFu32, 2) == 0x9B64_C28Fu32);
    assert(crc_steps(0x0000_00FFu32, 3) == 0xA00A_E267u32);
    assert(crc_steps(0x0000_00FFu32, 4) == 0xBDBD_F213u32);
    assert(crc_steps(0x0000_00FFu32, 5) == 0xB366_7A29u32);
    assert(crc_steps(0x0000_00FFu32, 6) == 0xB40B_BE34u32);
    assert(crc_steps(0x0000_00FFu32, 7) == 0x5A05_DF1Au32);
    assert(crc_steps(0x0000_00FFu32, 8) == 0x2D02_EF8Du32);
}

proof fn lemma_entry_72()
    ensures
        crc_steps(0x0000_0072u32, 8) == 0xBE0B_1010u32,
{
    assert(0x0000_0072u32 & 1 == 0 && (0x0000_0072u32 >> 1u32) == 0x0000_0039u32
        && 0x0000_0039u32 & 1 != 0 && (0xEDB8_8320u32 ^ (0x0000_0039u32 >> 1u32)) == 0xEDB8_833Cu32
        && 0xEDB8_833Cu32 & 1 == 0 && (0xEDB8_833Cu32 >> 1u32) == 0x76DC_419Eu32
        && 0x76DC_419Eu32 & 1 == 0 && (0x76DC_419Eu32 >> 1u32) == 0x3B6E_20CFu32
        && 0x3B6E_20CFu32 & 1 != 0 && (0xEDB8_8320u32 ^ (0x3B6E_20CFu32 >> 1u32)) == 0xF00F_9347u32
        && 0xF00F_9347u32 & 1 != 0 && (0xEDB8_8320u32 ^ (0xF00F_9347u32 >> 1u32)) == 0x95BF_4A83u32
        && 0x95BF_4A83u32 & 1 != 0 && (0xEDB8_8320u32 ^ (0x95BF_4A83u32 >> 1u32)) == 0xA767_2661u32
        && 0xA767_2661u32 & 1 != 0 && (0xEDB8_8320u32 ^ (0xA767_2661u32 >> 1u32)) == 0xBE0B_1010u32) by (bit_vector);
    assert(crc_steps(0x0000_0072u32, 0) == 0x0000_0072u32);
    assert(crc_steps(0x0000_0072u32, 1) == 0x0000_0039u32);
    assert(crc_steps(0x0000_0072u32, 2) == 0xEDB8_833Cu32);
    assert(crc_steps(0x0000_0072u32, 3) == 0x76DC_419Eu32);
    assert(crc_steps(0x0000_0072u32, 4) == 0x3B6E_20CFu32);
    assert(crc_steps(0x0000_0072u32, 5) == 0xF00F_9347u32);
    assert(crc_steps(0x0000_0072u32, 6) == 0x95BF_4A83u32);
    assert(crc_steps(0x0000_0072u32, 7) == 0xA767_2661u32);
    assert(crc_steps(0x0000_0072u32, 8) == 0xBE0B_1010u32);
}

proof fn lemma_entry_00()
    ensures
        crc_steps(0x0000_0000u32, 8) == 0x0000_0000u32,
{
    assert(0x0000_0000u32 & 1 == 0 && (0x0000_0000u32 >> 1u32) == 0x0000_0000u32
        && 0x0000_0000u32 & 1 == 0 && (0x0000_0000u32 >> 1u32) == 0x0000_0000u32
        && 0x0000_0000u32 & 1 == 0 && (0x0000_0000u32 >> 1u32) == 0x0000_0000u32
        && 0x0000_0000u32 & 1 == 0 && (0x0000_0000u32 >> 1u32) == 0x0000_0000u32
        && 0x0000_0000u32 & 1 == 0 && (0x0000_0000u32 >> 1u32) == 0x0000_0000u32
        && 0x0000_0000u32 & 1 == 0 && (0x0000_0000u32 >> 1u32) == 0x0000_0000u32
        && 0x0000_0000u32 & 1 == 0 && (0x0000_0000u32 >> 1u32) == 0x0000_0000u32
        && 0x0000_0000u32 & 1 == 0 && (0x0000_0000u32 >> 1u32) == 0x0000_0000u32) by (bit_vector);
    assert(crc_steps(0x0000_0000u32, 0) == 0x0000_0000u32);
    assert(crc_steps(0x0000_0000u32, 1) == 0x0000_0000u32);
    assert(crc_steps(0x0000_0000u32, 2) == 0x0000_0000u32);
    assert(crc_steps(0x0000_0000u32, 3) == 0x0000_0000u32);
    assert(crc_steps(0x0000_0000u32, 4) == 0x0000_0000u32);
    assert(crc_steps(0x0000_0000u32, 5) == 0x0000_0000u32);
    assert(crc_steps(0x0000_0000u32, 6) == 0x0000_0000u32);
    assert(crc_steps(0x0000_0000u32, 7) == 0x0000_0000u32);
    assert(crc_steps(0x0000_0000u32, 8) == 0x0000_0000u32);
}

proof fn lemma_entry_ed()
    ensures
        crc_steps(0x0000_00EDu32, 8) == 0xDEBB_9EC5u32,
{
    assert(0x0000_00EDu32 & 1 != 0 && (0xEDB8_8320u32 ^ (0x0000_00EDu32 >> 1u32)) == 0xEDB8_8356u32
        && 0xEDB8_8356u32 & 1 == 0 && (0xEDB8_8356u32 >> 1u32) == 0x76DC_41ABu32
        && 0x76DC_41ABu32 & 1 != 0 && (0xEDB8_8320u32 ^ (0x76DC_41ABu32 >> 1u32)) == 0xD6D6_A3F5u32
        && 0xD6D6_A3F5u32 & 1 != 0 && (0xEDB8_8320u32 ^ (0xD6D6_A3F5u32 >> 1u32)) == 0x86D3_D2DAu32
        && 0x86D3_D2DAu32 & 1 == 0 && (0x86D3_D2DAu32 >> 1u32) == 0x4369_E96Du32
        && 0x4369_E96Du32 & 1 != 0 && (0xEDB8_8320u32 ^ (0x4369_E96Du32 >> 1u32)) == 0xCC0C_7796u32
        && 0xCC0C_7796u32 & 1 == 0 && (0xCC0C_7796u32 >> 1u32) == 0x6606_3BCBu32
        && 0x6606_3BCBu32 & 1 != 0 && (0xEDB8_8320u32 ^ (0x6606_3BCBu32 >> 1u32)) == 0xDEBB_9EC5u32) by (bit_vector);
    assert(crc_steps(0x0000_00EDu32, 0) == 0x0000_00EDu32);
    assert(crc_steps(0x0000_00EDu32, 1) == 0xEDB8_8356u32);
    assert(crc_steps(0x0000_00EDu32, 2) == 0x76DC_41ABu32);
    assert(crc_steps(0x0000_00EDu32, 3) == 0xD6D6_A3F5u32);
    assert(crc_steps(0x0000_00EDu32, 4) == 0x86D3_D2DAu32);
    assert(crc_steps(0x0000_00EDu32, 5) == 0x4369_E96Du32);
    assert(crc_steps(0x0000_00EDu32, 6) == 0xCC0C_7796u32);
    assert(crc_steps(0x0000_00EDu32, 7) == 0x6606_3BCBu32);
    assert(crc_steps(0x0000_00EDu32, 8) == 0xDEBB_9EC5u32);
}

/// The places in the table for four bytes of the CRC itself.
proof fn lemma_own_crc(c: u32)
    ensures
        ({
            let x = c ^ 0xFFFF_FFFFu32;
            let c1 = (c >> 8u32) ^ 0x2D02_EF8Du32;
            let c2 = (c1 >> 8u32) ^ 0xBE0B_1010u32;
            let c3 = (c2 >> 8u32) ^ 0x0000_0000u32;
            let c4 = (c3 >> 8u32) ^ 0xDEBB_9EC5u32;
            &&& (c ^ (x & 0xFF)) & 0xFF == 0xFF
            &&& (c1 ^ ((x >> 8u32) & 0xFF)) & 0xFF == 0x72
            &&& (c2 ^ ((x >> 16u32) & 0xFF)) & 0xFF == 0x00
            &&& (c3 ^ ((x >> 24u32) & 0xFF)) & 0xFF == 0xED
            &&& c4 ^ 0xFFFF_FFFFu32 == 0x2144_DF1C
        }),
{
    assert(({
        let x = c ^ 0xFFFF_FFFFu32;
        let c1 = (c >> 8u32) ^ 0x2D02_EF8Du32;
        let c2 = (c1 >> 8u32) ^ 0xBE0B_1010u32;
        let c3 = (c2 >> 8u32) ^ 0x0000_0000u32;
        let c4 = (c3 >> 8u32) ^ 0xDEBB_9EC5u32;
        &&& (c ^ (x & 0xFF)) & 0xFF == 0xFF
        &&& (c1 ^ ((x >> 8u32) & 0xFF)) & 0xFF == 0x72
        &&& (c2 ^ ((x >> 16u32) & 0xFF)) & 0xFF == 0x00
        &&& (c3 ^ ((x >> 24u32) & 0xFF)) & 0xFF == 0xED
        &&& c4 ^ 0xFFFF_FFFFu32 == 0x2144_DF1C
    })) by (bit_vector);
}

/// A byte of a number is that number's byte.
proof fn lemma_byte(x: u32)
    ensures
        ((x & 0xFF) as u8) as u32 == x & 0xFF,
{
    assert(x & 0xFF <= 0xFF) by (bit_vector);
}

/// Bytes that are followed by their CRC, the least significant byte first, leave
/// the same remainder whatever they are; the CRC of no bytes is nought. So the
/// CRC is the one with the polynomial 0x04C11DB7, taken in from the low bits on.
pub proof fn law_crc_leaves_the_same_remainder(bytes: Seq<u8>)
    ensures
        crc_of(bytes + low_first(crc_of(bytes))) == 0x2144_DF1C,
        crc_of(Seq::empty()) == 0,
{
    assert(0xFFFF_FFFFu32 ^ 0xFFFF_FFFFu32 == 0) by (bit_vector);
    lemma_crc(bytes);
    let c = running_over(ChecksumType::Crc32, bytes)->crc;
    let x = crc_of(bytes);
    let own = low_first(x);
    lemma_own_crc(c);
    lemma_entry_ff();
    lemma_entry_72();
    lemma_entry_00();
    lemma_entry_ed();
    lemma_byte(x);
    lemma_byte(x >> 8);
    lemma_byte(x >> 16);
    lemma_byte(x >> 24);
    let b0 = bytes;
    let b1 = b0.push(own[0]);
    let b2 = b1.push(own[1]);
    let b3 = b2.push(own[2]);
    let b4 = b3.push(own[3]);
    assert(bytes + own =~= b4);
    assert(b1.drop_last() =~= b0);
    assert(b2.drop_last() =~= b1);
    assert(b3.drop_last() =~= b2);
    assert(b4.drop_last() =~= b3);
    let c1 = (c >> 8) ^ 0x2D02_EF8Du32;
    let c2 = (c1 >> 8) ^ 0xBE0B_1010u32;
    let c3 = (c2 >> 8) ^ 0x0000_0000u32;
    let c4 = (c3 >> 8) ^ 0xDEBB_9EC5u32;
    assert(running_over(ChecksumType::Crc32, b1) == Running::Crc32 { crc: c1 });
    assert(running_over(ChecksumType::Crc32, b2) == Running::Crc32 { crc: c2 });
    assert(running_over(ChecksumType::Crc32, b3) == Running::Crc32 { crc: c3 });
    assert(running_over(ChecksumType::Crc32, b4) == Running::Crc32 { crc: c4 });
}

/// The checksum of a frame under CRC-32 is its CRC as five base-128 digits.
pub proof fn law_crc_is_written(bytes: Seq<u8>)
    ensures
        checksum_text(running_over(ChecksumType::Crc32, bytes)) == base128_text(
            crc_of(bytes) as int,
        ),
{
    lemma_crc(bytes);
}

/// A received checksum is right exactly if it is that of the frame, or four
/// zeros where the checksum goes by words.
pub proof fn law_checksums_that_are_right(
    t: ChecksumType,
    type_byte: u8,
    data: Seq<u8>,
    sum: Seq<u8>,
)
    requires
        sum.len() == if t == ChecksumType::Internet {
            4int
        } else {
            5int
        },
    ensures
        accepted(t, type_byte, data, sum) <==> sum == frame_checksum(t, type_byte, data) || (t
            == ChecksumType::Internet && sum == seq![0x30u8, 0x30u8, 0x30u8, 0x30u8]),
{
    if t == ChecksumType::Internet {
        if ignores(t, sum) {
            assert(sum =~= seq![0x30u8, 0x30u8, 0x30u8, 0x30u8]);
        }
        if sum == seq![0x30u8, 0x30u8, 0x30u8, 0x30u8] {
            assert forall|i: int| 0 <= i < sum.len() implies sum[i] == 0x30 by {}
        }
    }
}

/// A new decoder waits half a second for a frame to go on, and holds what the
/// largest frame takes, which has 300 bytes of data, each of them escaped.
pub proof fn law_sizes_and_times(t: ChecksumType)
    ensures
        fresh(t).timeout_ms == 500,
        fresh(t).frames.len() == 0,
        fresh(t).settled.len() == 0,
        fresh(t).open.len() == 0,
        MAX_DATA_SIZE == 300,
        RAW_BUF_CAP == 2 + 2 * 300 + 2 + 5,
        TYPE_RAW == 0xFF,
{
}

/// A device string leads to a bridge if it begins with `termhub://` or
/// `telnet://`, to the host before the last colon and the port behind it, and to
/// a serial device otherwise.
pub proof fn law_devices_by_their_strings(host: Seq<char>, port: u16, device: Seq<char>)
    ensures
        endpoint_in("termhub://"@ + (host + seq![':'] + decimal_text(port as int))) == Ok::<
            EndpointView,
            Seq<char>,
        >(EndpointView::Termhub(host, port)),
        endpoint_in("telnet://"@ + (host + seq![':'] + decimal_text(port as int))) == Ok::<
            EndpointView,
            Seq<char>,
        >(EndpointView::Telnet(host, port)),
        device.len() > 0 && device[0] != 't' ==> endpoint_in(device) == Ok::<
            EndpointView,
            Seq<char>,
        >(EndpointView::Serial(device)),
{
    lemma_host_port(host, port);
    let rest = host + seq![':'] + decimal_text(port as int);
    reveal_strlit("termhub://");
    reveal_strlit("telnet://");
    let a = "termhub://"@ + rest;
    let b = "telnet://"@ + rest;
    assert(a.subrange(0, 10) =~= "termhub://"@);
    assert(a.subrange(10, a.len() as int) =~= rest);
    assert(b.subrange(0, 9) =~= "telnet://"@);
    assert(b.subrange(9, b.len() as int) =~= rest);
    if b.len() >= 10 {
        assert(b.subrange(0, 10)[2] == 'l');
        assert("termhub://"@[2] == 'r');
    }
    if device.len() > 0 && device[0] != 't' {
        if device.len() >= 10 {
            assert(device.subrange(0, 10)[0] == device[0]);
        }
        if device.len() >= 9 {
            assert(device.subrange(0, 9)[0] == device[0]);
        }
        assert("termhub://"@[0] == 't' && "telnet://"@[0] == 't');
    }
}

proof fn lemma_host_port(host: Seq<char>, port: u16)
    ensures
        host_port(host + seq![':'] + decimal_text(port as int)) == Ok::<
            (Seq<char>, u16),
            Seq<char>,
        >((host, port)),
{
    let digits = decimal_text(port as int);
    let t = host + seq![':'] + digits;
    crate::yang::value_laws::law_decimal_text_is_read(port as int, 0, u16::MAX as int);
    lemma_no_colon(port as nat);
    lemma_last_colon(t, host.len() as int, t.len() as int);
    assert(t.subrange(0, host.len() as int) =~= host);
    assert(t.subrange(host.len() + 1int, t.len() as int) =~= digits);
}

proof fn lemma_no_colon(n: nat)
    ensures
        forall|i: int|
            0 <= i < crate::text::natural_text(n).len() ==> #[trigger] crate::text::natural_text(
                n,
            )[i] != ':',
    decreases n,
{
    if n >= 10 {
        lemma_no_colon(n / 10);
        let s = crate::text::natural_text(n);
        let before = crate::text::natural_text(n / 10);
        assert forall|i: int| 0 <= i < s.len() implies #[trigger] s[i] != ':' by {
            if i < before.len() {
                assert(s[i] == before[i]);
            }
        }
    }
}

proof fn lemma_last_colon(t: Seq<char>, at: int, n: int)
    requires
        0 <= at < n <= t.len(),
        t[at] == ':',
        forall|k: int| at < k < n ==> t[k] != ':',
    ensures
        crate::text::last_index(t, ':', n) == at,
    decreases n,
{
    if n - 1 > at {
        lemma_last_colon(t, at, n - 1);
    }
}

} // verus!
