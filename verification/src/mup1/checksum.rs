//! The two checksums that a connection can use.
use vstd::prelude::*;

verus! {

/// Which checksum a connection uses: fixed per connection, never detected.
#[derive(Debug, Clone, Copy, PartialEq, Eq, Structural)]
pub enum ChecksumType {
    /// 16-bit one's-complement sum, written as four lowercase hex digits.
    Internet,
    /// CRC-32/ISO-HDLC, written as five base-128 digits.
    Crc32,
}

/// Number of wire bytes of a checksum.
pub open spec fn checksum_len(t: ChecksumType) -> nat {
    match t {
        ChecksumType::Internet => 4,
        ChecksumType::Crc32 => 5,
    }
}

/// Number of wire bytes of a checksum.
pub fn encoded_len(t: ChecksumType) -> (r: usize)
    ensures
        r == checksum_len(t),
{
    match t {
        ChecksumType::Internet => 4,
        ChecksumType::Crc32 => 5,
    }
}

/// A checksum that is fed one logical byte at a time: the bytes before
/// escaping, in the order of the frame.
#[derive(Debug, Clone, Copy)]
pub enum Running {
    Internet { acc: u32, pos: u16 },
    Crc32 { crc: u32 },
}

/// One step of the reflected CRC-32 division.
pub open spec fn crc_step(c: u32) -> u32 {
    if c & 1 != 0 {
        0xEDB8_8320u32 ^ (c >> 1)
    } else {
        c >> 1
    }
}

/// `n` steps of the division.
pub open spec fn crc_steps(c: u32, n: nat) -> u32
    decreases n,
{
    if n == 0 {
        c
    } else {
        crc_step(crc_steps(c, (n - 1) as nat))
    }
}

/// The checksum over no bytes.
pub open spec fn initial(t: ChecksumType) -> Running {
    match t {
        ChecksumType::Internet => Running::Internet { acc: 0, pos: 0 },
        ChecksumType::Crc32 => Running::Crc32 { crc: 0xFFFF_FFFF },
    }
}

/// What a byte adds to the one's-complement sum: bytes at even positions are
/// the high halves of 16-bit words, bytes at odd positions the low halves.
pub open spec fn word_part(pos: int, byte: u8) -> int {
    if pos % 2 != 0 {
        byte as int
    } else {
        byte as int * 256
    }
}

/// The checksum after one more byte.
pub open spec fn fed(r: Running, byte: u8) -> Running {
    match r {
        Running::Internet { acc, pos } => Running::Internet {
            acc: ((acc + word_part(pos as int, byte)) % 0x1_0000_0000) as u32,
            pos: ((pos + 1) % 0x1_0000) as u16,
        },
        Running::Crc32 { crc } => Running::Crc32 {
            crc: (crc >> 8) ^ crc_steps((crc ^ (byte as u32)) & 0xFF, 8),
        },
    }
}

/// The checksum over some bytes.
pub open spec fn running_over(t: ChecksumType, bytes: Seq<u8>) -> Running
    decreases bytes.len(),
{
    if bytes.len() == 0 {
        initial(t)
    } else {
        fed(running_over(t, bytes.drop_last()), bytes.last())
    }
}

/// The sum of the 16-bit big-endian words of `bytes`.
pub open spec fn word_sum(bytes: Seq<u8>) -> int
    decreases bytes.len(),
{
    if bytes.len() == 0 {
        0
    } else {
        word_sum(bytes.drop_last()) + word_part(bytes.len() - 1, bytes.last())
    }
}

/// The running one's-complement sum is the sum of the big-endian words.
pub proof fn law_internet_sums_words(bytes: Seq<u8>)
    ensures
        running_over(ChecksumType::Internet, bytes) == (Running::Internet {
            acc: (word_sum(bytes) % 0x1_0000_0000) as u32,
            pos: (bytes.len() % 0x1_0000) as u16,
        }),
    decreases bytes.len(),
{
    if bytes.len() > 0 {
        law_internet_sums_words(bytes.drop_last());
    }
}

/// Adding the carries back in.
pub open spec fn folded(sum: int) -> int {
    sum / 0x1_0000 + sum % 0x1_0000
}

/// The 16-bit checksum of a sum: carries folded in twice, then complemented.
pub open spec fn complement(acc: u32) -> int {
    0xFFFF - folded(folded(acc as int)) % 0x1_0000
}

/// The lowercase hex digit of a number below 16.
pub open spec fn hex_digit(n: int) -> u8 {
    if n < 10 {
        (0x30 + n) as u8
    } else {
        (0x61 + n - 10) as u8
    }
}

/// The byte of a base-128 digit. The bytes used stay clear of the control
/// bytes of a frame.
pub open spec fn base128_byte(digit: int) -> u8 {
    if digit < 11 {
        (0x2F + digit) as u8
    } else if digit < 39 {
        (0x3F + digit - 11) as u8
    } else if digit < 65 {
        (0x61 + digit - 39) as u8
    } else {
        (0xBF + digit - 65) as u8
    }
}

/// The base-128 digit that a byte stands for.
pub open spec fn base128_digit(byte: u8) -> Option<int> {
    if 0x2F <= byte <= 0x39 {
        Some(byte - 0x2F)
    } else if 0x3F <= byte <= 0x5A {
        Some(byte - 0x3F + 11)
    } else if 0x61 <= byte <= 0x7A {
        Some(byte - 0x61 + 39)
    } else if 0xBF <= byte <= 0xFD {
        Some(byte - 0xBF + 65)
    } else {
        None
    }
}

/// The five base-128 digits of `x`, most significant first.
pub open spec fn base128_text(x: int) -> Seq<u8> {
    seq![
        base128_byte(x / 0x1000_0000 % 128),
        base128_byte(x / 0x20_0000 % 128),
        base128_byte(x / 0x4000 % 128),
        base128_byte(x / 128 % 128),
        base128_byte(x % 128),
    ]
}

/// The low 32 bits of the number that some base-128 digits stand for.
pub open spec fn base128_value(encoded: Seq<u8>) -> Option<int>
    decreases encoded.len(),
{
    if encoded.len() == 0 {
        Some(0)
    } else {
        match (base128_value(encoded.drop_last()), base128_digit(encoded.last())) {
            (Some(x), Some(d)) => Some((x * 128 + d) % 0x1_0000_0000),
            _ => None,
        }
    }
}

/// The wire bytes of a checksum.
pub open spec fn checksum_text(r: Running) -> Seq<u8> {
    match r {
        Running::Internet { acc, .. } => seq![
            hex_digit(complement(acc) / 0x1000 % 16),
            hex_digit(complement(acc) / 0x100 % 16),
            hex_digit(complement(acc) / 0x10 % 16),
            hex_digit(complement(acc) % 16),
        ],
        Running::Crc32 { crc } => base128_text((crc ^ 0xFFFF_FFFFu32) as int),
    }
}

impl Running {
    /// The checksum over no bytes.
    pub fn new(t: ChecksumType) -> (r: Self)
        ensures
            r == initial(t),
    {
        match t {
            ChecksumType::Internet => Running::Internet { acc: 0, pos: 0 },
            ChecksumType::Crc32 => Running::Crc32 { crc: 0xFFFF_FFFF },
        }
    }

    /// Feeds one logical byte.
    pub fn update(&mut self, byte: u8)
        ensures
            *final(self) == fed(*old(self), byte),
    {
        *self = match *self {
            Running::Internet { acc, pos } => {
                let part: u32 = if pos % 2 != 0 {
                    byte as u32
                } else {
                    byte as u32 * 256
                };
                Running::Internet { acc: acc.wrapping_add(part), pos: pos.wrapping_add(1) }
            },
            Running::Crc32 { crc } => {
                let entry = crc32_entry((crc ^ (byte as u32)) & 0xFF);
                Running::Crc32 { crc: (crc >> 8) ^ entry }
            },
        };
    }

    /// The wire bytes: four hex digits or five base-128 digits.
    pub fn finalize(self) -> (r: Vec<u8>)
        ensures
            r@ == checksum_text(self),
    {
        match self {
            Running::Internet { acc, pos: _ } => {
                let sum = inet_fold(acc);
                let mut out: Vec<u8> = Vec::new();
                out.push(hex_byte((sum / 0x1000 % 16) as u8));
                out.push(hex_byte((sum / 0x100 % 16) as u8));
                out.push(hex_byte((sum / 0x10 % 16) as u8));
                out.push(hex_byte((sum % 16) as u8));
                assert(out@ =~= checksum_text(self));
                out
            },
            Running::Crc32 { crc } => {
                let digits = base128_encode(crc ^ 0xFFFF_FFFF);
                let mut out: Vec<u8> = Vec::new();
                out.extend_from_slice(&digits);
                assert(out@ =~= checksum_text(self));
                out
            },
        }
    }
}

/// The lowercase hex digit of a number below 16.
fn hex_byte(n: u8) -> (r: u8)
    requires
        n < 16,
    ensures
        r == hex_digit(n as int),
{
    if n < 10 {
        0x30 + n
    } else {
        0x61 + (n - 10)
    }
}

/// Folds the carries in twice and complements.
pub fn inet_fold(acc: u32) -> (r: u16)
    ensures
        r == complement(acc),
{
    let once: u32 = acc / 0x1_0000 + acc % 0x1_0000;
    let twice: u32 = once / 0x1_0000 + once % 0x1_0000;
    0xFFFF - (twice % 0x1_0000) as u16
}

/// Whether a checksum as received means that it is to be ignored: all zero
/// digits of the one's-complement sum.
pub open spec fn ignores(t: ChecksumType, wire: Seq<u8>) -> bool {
    t == ChecksumType::Internet && forall|i: int| 0 <= i < wire.len() ==> wire[i] == 0x30
}

/// Whether a checksum as received means that it is to be ignored.
pub fn is_ignore_sentinel(t: ChecksumType, wire_bytes: &[u8]) -> (r: bool)
    ensures
        r == ignores(t, wire_bytes@),
{
    if t != ChecksumType::Internet {
        return false;
    }
    let mut i: usize = 0;
    while i < wire_bytes.len()
        invariant
            i <= wire_bytes@.len(),
            t == ChecksumType::Internet,
            forall|k: int| 0 <= k < i ==> wire_bytes@[k] == 0x30,
        decreases wire_bytes@.len() - i,
    {
        if wire_bytes[i] != 0x30 {
            return false;
        }
        i += 1;
    }
    true
}

/// Eight steps of the CRC-32 division.
fn crc32_entry(start: u32) -> (r: u32)
    ensures
        r == crc_steps(start, 8),
{
    let mut c: u32 = start;
    let mut j: u32 = 0;
    while j < 8
        invariant
            j <= 8,
            c == crc_steps(start, j as nat),
        decreases 8 - j,
    {
        c = if c & 1 != 0 {
            0xEDB8_8320 ^ (c >> 1)
        } else {
            c >> 1
        };
        j += 1;
    }
    c
}

/// The byte of a base-128 digit.
fn base128_encode_digit(digit: u8) -> (r: u8)
    requires
        digit < 128,
    ensures
        r == base128_byte(digit as int),
{
    if digit < 11 {
        0x2F + digit
    } else if digit < 39 {
        0x3F + (digit - 11)
    } else if digit < 65 {
        0x61 + (digit - 39)
    } else {
        0xBF + (digit - 65)
    }
}

/// The five base-128 digits of `x`.
pub fn base128_encode(x: u32) -> (r: [u8; 5])
    ensures
        r@ == base128_text(x as int),
{
    let out = [
        base128_encode_digit((x / 0x1000_0000 % 128) as u8),
        base128_encode_digit((x / 0x20_0000 % 128) as u8),
        base128_encode_digit((x / 0x4000 % 128) as u8),
        base128_encode_digit((x / 128 % 128) as u8),
        base128_encode_digit((x % 128) as u8),
    ];
    assert(out@ =~= base128_text(x as int));
    out
}

/// The base-128 digit that a byte stands for.
pub fn base128_decode_digit(byte: u8) -> (r: Option<u8>)
    ensures
        match r {
            Some(d) => base128_digit(byte) == Some(d as int) && d < 128,
            None => base128_digit(byte) is None,
        },
{
    if 0x2F <= byte && byte <= 0x39 {
        Some(byte - 0x2F)
    } else if 0x3F <= byte && byte <= 0x5A {
        Some(byte - 0x3F + 11)
    } else if 0x61 <= byte && byte <= 0x7A {
        Some(byte - 0x61 + 39)
    } else if 0xBF <= byte && byte <= 0xFD {
        Some(byte - 0xBF + 65)
    } else {
        None
    }
}

/// The CRC that a 5-byte base-128 checksum stands for.
pub fn base128_decode(encoded: &[u8]) -> (r: Option<u32>)
    ensures
        match r {
            Some(x) => encoded@.len() == 5 && base128_value(encoded@) == Some(x as int),
            None => encoded@.len() != 5 || base128_value(encoded@) is None,
        },
{
    if encoded.len() != 5 {
        return None;
    }
    let mut x: u32 = 0;
    let mut i: usize = 0;
    while i < 5
        invariant
            i <= 5,
            encoded@.len() == 5,
            base128_value(encoded@.subrange(0, i as int)) == Some(x as int),
        decreases 5 - i,
    {
        proof {
            let next = encoded@.subrange(0, i + 1);
            assert(next.drop_last() =~= encoded@.subrange(0, i as int));
        }
        match base128_decode_digit(encoded[i]) {
            Some(d) => {
                x = ((x as u64 * 128 + d as u64) % 0x1_0000_0000) as u32;
            },
            None => {
                proof {
                    lemma_prefix_without_value(encoded@, i + 1);
                }
                return None;
            },
        }
        i += 1;
    }
    assert(encoded@.subrange(0, 5) =~= encoded@);
    Some(x)
}

/// Digits that begin with something else than digits stand for nothing.
proof fn lemma_prefix_without_value(encoded: Seq<u8>, n: int)
    requires
        0 <= n <= encoded.len(),
        base128_value(encoded.subrange(0, n)) is None,
    ensures
        base128_value(encoded) is None,
    decreases encoded.len() - n,
{
    if n == encoded.len() {
        assert(encoded.subrange(0, n) =~= encoded);
    } else {
        assert(encoded.subrange(0, n + 1).drop_last() =~= encoded.subrange(0, n));
        lemma_prefix_without_value(encoded, n + 1);
    }
}

/// The byte of a base-128 digit stands for that digit.
pub proof fn lemma_base128_digit(d: int)
    requires
        0 <= d < 128,
    ensures
        base128_digit(base128_byte(d)) == Some(d),
{
}

/// One more digit of a number, most significant first.
proof fn lemma_base128_step(s: Seq<u8>, x: int, y: int)
    requires
        s.len() > 0,
        0 <= x < 0x1_0000_0000,
        y == x / 128,
        base128_value(s.drop_last()) == Some(y),
        s.last() == base128_byte(x % 128),
    ensures
        base128_value(s) == Some(x),
{
    lemma_base128_digit(x % 128);
    assert(y * 128 + x % 128 == x);
}

/// Decoding the base-128 digits of a number gives it back.
pub proof fn law_base128_round_trip(x: u32)
    ensures
        base128_value(base128_text(x as int)) == Some(x as int),
{
    let x4 = x as int / 128;
    let x3 = x4 / 128;
    let x2 = x3 / 128;
    let x1 = x2 / 128;
    assert(x3 == x as int / 0x4000);
    assert(x2 == x as int / 0x20_0000);
    assert(x1 == x as int / 0x1000_0000);
    let s = base128_text(x as int);
    let s4 = s.drop_last();
    let s3 = s4.drop_last();
    let s2 = s3.drop_last();
    let s1 = s2.drop_last();
    assert(s1.drop_last() =~= Seq::empty());
    assert(base128_value(s1.drop_last()) == Some(0int));
    lemma_base128_step(s1, x1, 0);
    lemma_base128_step(s2, x2, x1);
    lemma_base128_step(s3, x3, x2);
    lemma_base128_step(s4, x4, x3);
    lemma_base128_step(s, x as int, x4);
}

/// A checksum on the wire holds no byte that means something to the framing.
pub proof fn law_checksum_text_is_plain(r: Running, i: int)
    requires
        0 <= i < checksum_text(r).len(),
    ensures
        checksum_text(r)[i] != 0x3E,
        checksum_text(r)[i] != 0x3C,
        checksum_text(r)[i] != 0x5C,
        checksum_text(r)[i] != 0x00,
        checksum_text(r)[i] != 0xFF,
{
}

} // verus!
