//! Base64.
use vstd::prelude::*;
use vstd::utf8::{encode_utf8, is_ascii_chars, is_ascii_chars_encode_utf8};

use crate::text::push_char;

verus! {

/// The character for a number below 64.
pub open spec fn sextet_char(n: int) -> char {
    if n < 26 {
        (65 + n) as char
    } else if n < 52 {
        (97 + n - 26) as char
    } else if n < 62 {
        (48 + n - 52) as char
    } else if n == 62 {
        '+'
    } else {
        '/'
    }
}

/// The number that a byte of base64 text stands for.
pub open spec fn sextet_of(c: u8) -> Option<int> {
    if 65 <= c <= 90 {
        Some(c - 65)
    } else if 97 <= c <= 122 {
        Some(c - 97 + 26)
    } else if 48 <= c <= 57 {
        Some(c - 48 + 52)
    } else if c == 43 {
        Some(62)
    } else if c == 47 {
        Some(63)
    } else {
        None
    }
}

/// The four characters for up to three bytes at `i`.
pub open spec fn group_text(data: Seq<u8>, i: int) -> Seq<char> {
    let b0 = data[i] as int;
    let b1 = if i + 1 < data.len() {
        data[i + 1] as int
    } else {
        0
    };
    let b2 = if i + 2 < data.len() {
        data[i + 2] as int
    } else {
        0
    };
    seq![
        sextet_char(b0 / 4),
        sextet_char(b0 % 4 * 16 + b1 / 16),
        if i + 1 < data.len() {
            sextet_char(b1 % 16 * 4 + b2 / 64)
        } else {
            '='
        },
        if i + 2 < data.len() {
            sextet_char(b2 % 64)
        } else {
            '='
        },
    ]
}

/// The base64 text of the bytes from `i` on.
pub open spec fn text_from(data: Seq<u8>, i: int) -> Seq<char>
    decreases data.len() + 3 - i,
{
    if i >= data.len() {
        Seq::empty()
    } else {
        group_text(data, i) + text_from(data, i + 3)
    }
}

/// The base64 text of some bytes.
pub open spec fn base64_text(data: Seq<u8>) -> Seq<char> {
    text_from(data, 0)
}

/// Whether a byte of base64 text counts: padding and white space do not.
pub open spec fn counts(c: u8) -> bool {
    c != 61 && c != 32 && c != 9 && c != 10 && c != 12 && c != 13
}

/// The bytes that count among the first `n`.
pub open spec fn counting(bytes: Seq<u8>, n: int) -> Seq<u8>
    decreases n,
{
    if n <= 0 {
        Seq::empty()
    } else if counts(bytes[n - 1]) {
        counting(bytes, n - 1).push(bytes[n - 1])
    } else {
        counting(bytes, n - 1)
    }
}

/// The number at `i`, 0 where there is none.
pub open spec fn sextet_at(clean: Seq<u8>, i: int) -> int {
    if i < clean.len() {
        match sextet_of(clean[i]) {
            Some(v) => v,
            None => 0,
        }
    } else {
        0
    }
}

/// The bytes that up to four characters at `i` stand for.
pub open spec fn group_bytes(clean: Seq<u8>, i: int) -> Seq<u8> {
    let v0 = sextet_at(clean, i);
    let v1 = sextet_at(clean, i + 1);
    let v2 = sextet_at(clean, i + 2);
    let v3 = sextet_at(clean, i + 3);
    let first = seq![(v0 * 4 + v1 / 16) as u8];
    if i + 3 < clean.len() {
        first.push((v1 % 16 * 16 + v2 / 4) as u8).push((v2 % 4 * 64 + v3) as u8)
    } else if i + 2 < clean.len() {
        first.push((v1 % 16 * 16 + v2 / 4) as u8)
    } else {
        first
    }
}

/// The bytes that the characters from `i` on stand for.
pub open spec fn bytes_from(clean: Seq<u8>, i: int) -> Seq<u8>
    decreases clean.len() + 4 - i,
{
    if i >= clean.len() {
        Seq::empty()
    } else {
        group_bytes(clean, i) + bytes_from(clean, i + 4)
    }
}

/// The bytes that a base64 text stands for; nothing if it holds a character
/// that is none of base64.
pub open spec fn base64_bytes(s: Seq<char>) -> Option<Seq<u8>> {
    let raw = encode_utf8(s);
    let clean = counting(raw, raw.len() as int);
    if forall|i: int| 0 <= i < clean.len() ==> sextet_of(#[trigger] clean[i]) is Some {
        Some(bytes_from(clean, 0))
    } else {
        None
    }
}

/// The character for a number below 64.
fn to_char(n: u8) -> (r: char)
    requires
        n < 64,
    ensures
        r == sextet_char(n as int),
{
    if n < 26 {
        (65 + n) as char
    } else if n < 52 {
        (97 + (n - 26)) as char
    } else if n < 62 {
        (48 + (n - 52)) as char
    } else if n == 62 {
        '+'
    } else {
        '/'
    }
}

/// The number that a byte of base64 text stands for.
fn to_sextet(c: u8) -> (r: Option<u8>)
    ensures
        match r {
            Some(v) => sextet_of(c) == Some(v as int) && v < 64,
            None => sextet_of(c) is None,
        },
{
    if 65 <= c && c <= 90 {
        Some(c - 65)
    } else if 97 <= c && c <= 122 {
        Some(c - 97 + 26)
    } else if 48 <= c && c <= 57 {
        Some(c - 48 + 52)
    } else if c == 43 {
        Some(62)
    } else if c == 47 {
        Some(63)
    } else {
        None
    }
}

/// The base64 text of some bytes.
pub fn base64_encode(data: &[u8]) -> (r: String)
    ensures
        r@ == base64_text(data@),
{
    let mut out = String::new();
    let n: usize = data.len();
    let mut i: usize = 0;
    assert(out@ + text_from(data@, 0) =~= base64_text(data@));
    while i < n
        invariant
            i <= n,
            n == data@.len(),
            out@ + text_from(data@, i as int) == base64_text(data@),
        decreases n - i,
    {
        let ghost before = out@;
        let left: usize = n - i;
        let b0: u8 = data[i];
        let b1: u8 = if left > 1 {
            data[i + 1]
        } else {
            0
        };
        let b2: u8 = if left > 2 {
            data[i + 2]
        } else {
            0
        };
        push_char(&mut out, to_char(b0 / 4));
        push_char(&mut out, to_char(b0 % 4 * 16 + b1 / 16));
        push_char(
            &mut out,
            if left > 1 {
                to_char(b1 % 16 * 4 + b2 / 64)
            } else {
                '='
            },
        );
        push_char(
            &mut out,
            if left > 2 {
                to_char(b2 % 64)
            } else {
                '='
            },
        );
        assert(out@ =~= before + group_text(data@, i as int));
        if left <= 3 {
            assert(text_from(data@, i + 3) =~= Seq::empty());
            assert(out@ =~= base64_text(data@));
            return out;
        }
        assert(out@ + text_from(data@, i + 3) =~= before + text_from(data@, i as int));
        i += 3;
    }
    assert(out@ + text_from(data@, n as int) =~= out@);
    out
}

/// The bytes that a base64 text stands for.
pub fn base64_decode(s: &str) -> (r: Option<Vec<u8>>)
    ensures
        match r {
            Some(v) => base64_bytes(s@) == Some(v@),
            None => base64_bytes(s@) is None,
        },
{
    let raw = s.as_bytes();
    let mut clean: Vec<u8> = Vec::new();
    let mut k: usize = 0;
    while k < raw.len()
        invariant
            k <= raw@.len(),
            clean@ == counting(raw@, k as int),
            forall|i: int| 0 <= i < clean@.len() ==> sextet_of(#[trigger] clean@[i]) is Some,
            raw@ == encode_utf8(s@),
        decreases raw@.len() - k,
    {
        let c = raw[k];
        if c != 61 && c != 32 && c != 9 && c != 10 && c != 12 && c != 13 {
            if to_sextet(c).is_none() {
                proof {
                    lemma_counting_holds(raw@, k + 1, raw@.len() as int, clean@.len() as int);
                }
                return None;
            }
            clean.push(c);
        }
        k += 1;
    }
    let n: usize = clean.len();
    let mut out: Vec<u8> = Vec::new();
    let mut i: usize = 0;
    assert(out@ + bytes_from(clean@, 0) =~= bytes_from(clean@, 0));
    while i < n
        invariant
            i <= n,
            n == clean@.len(),
            forall|i: int| 0 <= i < clean@.len() ==> sextet_of(#[trigger] clean@[i]) is Some,
            out@ + bytes_from(clean@, i as int) == bytes_from(clean@, 0),
            raw@ == encode_utf8(s@),
            clean@ == counting(raw@, raw@.len() as int),
        decreases n - i,
    {
        let ghost before = out@;
        let left: usize = n - i;
        let v0: u8 = value_at(&clean, i, 0);
        let v1: u8 = value_at(&clean, i, 1);
        let v2: u8 = value_at(&clean, i, 2);
        let v3: u8 = value_at(&clean, i, 3);
        out.push(v0 * 4 + v1 / 16);
        if left > 2 {
            out.push(v1 % 16 * 16 + v2 / 4);
        }
        if left > 3 {
            out.push(v2 % 4 * 64 + v3);
        }
        assert(out@ =~= before + group_bytes(clean@, i as int));
        if left <= 4 {
            assert(bytes_from(clean@, i + 4) =~= Seq::empty());
            assert(out@ =~= bytes_from(clean@, 0));
            return Some(out);
        }
        assert(out@ + bytes_from(clean@, i + 4) =~= before + bytes_from(clean@, i as int));
        i += 4;
    }
    assert(out@ + bytes_from(clean@, n as int) =~= out@);
    Some(out)
}

/// The number `k` places behind `i`, 0 where there is none.
fn value_at(clean: &Vec<u8>, i: usize, k: usize) -> (r: u8)
    requires
        i <= clean@.len(),
        forall|i: int| 0 <= i < clean@.len() ==> sextet_of(#[trigger] clean@[i]) is Some,
    ensures
        r == sextet_at(clean@, i + k),
        r < 64,
{
    if k < clean.len() - i {
        match to_sextet(clean[i + k]) {
            Some(v) => v,
            None => 0,
        }
    } else {
        0
    }
}

/// What counts among the first bytes still counts among more.
proof fn lemma_counting_holds(bytes: Seq<u8>, n: int, m: int, k: int)
    requires
        0 <= n <= m <= bytes.len(),
        0 <= k < counting(bytes, n).len(),
    ensures
        k < counting(bytes, m).len(),
        counting(bytes, m)[k] == counting(bytes, n)[k],
    decreases m - n,
{
    if n < m {
        lemma_counting_holds(bytes, n, m - 1, k);
    }
}

/// The base64 text from `i` on as bytes, without its padding.
spec fn plain_from(data: Seq<u8>, i: int) -> Seq<u8>
    decreases data.len() + 3 - i,
{
    if i >= data.len() {
        Seq::empty()
    } else {
        let four = group_text(data, i).map_values(|c: char| c as u8);
        let kept = if i + 2 < data.len() {
            four
        } else if i + 1 < data.len() {
            four.subrange(0, 3)
        } else {
            four.subrange(0, 2)
        };
        kept + plain_from(data, i + 3)
    }
}

proof fn lemma_counting_split(a: Seq<u8>, b: Seq<u8>)
    ensures
        counting(a + b, (a + b).len() as int) == counting(a, a.len() as int) + counting(
            b,
            b.len() as int,
        ),
    decreases b.len(),
{
    if b.len() == 0 {
        assert(a + b =~= a);
        assert(counting(a, a.len() as int) + counting(b, 0) =~= counting(a, a.len() as int));
    } else {
        let c = b.drop_last();
        lemma_counting_split(a, c);
        assert((a + b).drop_last() =~= a + c);
        lemma_counting_prefix(a + b, a + c, (a + c).len() as int);
        lemma_counting_prefix(b, c, c.len() as int);
        assert(counting(a + b, (a + b).len() as int) =~= counting(a, a.len() as int) + counting(
            b,
            b.len() as int,
        ));
    }
}

proof fn lemma_counting_prefix(a: Seq<u8>, b: Seq<u8>, n: int)
    requires
        0 <= n <= a.len(),
        n <= b.len(),
        forall|i: int| 0 <= i < n ==> a[i] == b[i],
    ensures
        counting(a, n) == counting(b, n),
    decreases n,
{
    if n > 0 {
        lemma_counting_prefix(a, b, n - 1);
    }
}

proof fn lemma_char_of_sextet(n: int)
    requires
        0 <= n < 64,
    ensures
        (sextet_char(n) as u32) < 128,
        sextet_of(sextet_char(n) as u8) == Some(n),
        counts(sextet_char(n) as u8),
{
}

proof fn lemma_text_is_plain(data: Seq<u8>, i: int)
    requires
        0 <= i,
    ensures
        is_ascii_chars(text_from(data, i)),
        ({
            let raw = text_from(data, i).map_values(|c: char| c as u8);
            counting(raw, raw.len() as int) == plain_from(data, i)
        }),
        forall|k: int|
            0 <= k < plain_from(data, i).len() ==> sextet_of(#[trigger] plain_from(data, i)[k])
                is Some,
    decreases data.len() + 3 - i,
{
    if i < data.len() {
        lemma_text_is_plain(data, i + 3);
        let group = group_text(data, i);
        let rest = text_from(data, i + 3);
        let four = group.map_values(|c: char| c as u8);
        let raw = text_from(data, i).map_values(|c: char| c as u8);
        let b0 = data[i] as int;
        let b1 = if i + 1 < data.len() {
            data[i + 1] as int
        } else {
            0
        };
        let b2 = if i + 2 < data.len() {
            data[i + 2] as int
        } else {
            0
        };
        lemma_char_of_sextet(b0 / 4);
        lemma_char_of_sextet(b0 % 4 * 16 + b1 / 16);
        lemma_char_of_sextet(b1 % 16 * 4 + b2 / 64);
        lemma_char_of_sextet(b2 % 64);
        assert(raw =~= four + rest.map_values(|c: char| c as u8));
        lemma_counting_split(four, rest.map_values(|c: char| c as u8));
        reveal_with_fuel(counting, 5);
        let kept = if i + 2 < data.len() {
            four
        } else if i + 1 < data.len() {
            four.subrange(0, 3)
        } else {
            four.subrange(0, 2)
        };
        assert(counting(four, 4) =~= kept);
        assert forall|k: int| 0 <= k < plain_from(data, i).len() implies sextet_of(
            #[trigger] plain_from(data, i)[k],
        ) is Some by {
            if k >= kept.len() {
                assert(plain_from(data, i)[k] == plain_from(data, i + 3)[k - kept.len()]);
            }
        }
        assert forall|k: int| 0 <= k < text_from(data, i).len() implies (#[trigger] text_from(
            data,
            i,
        )[k] as u32) < 128 by {
            if k >= 4 {
                assert(text_from(data, i)[k] == rest[k - 4]);
            }
        }
    }
}

/// The numbers of text that stands behind `before` are those of the text.
proof fn lemma_bytes_shift(before: Seq<u8>, clean: Seq<u8>, i: int)
    requires
        0 <= i,
    ensures
        bytes_from(before + clean, before.len() + i) == bytes_from(clean, i),
    decreases clean.len() + 4 - i,
{
    if i < clean.len() {
        lemma_bytes_shift(before, clean, i + 4);
        let all = before + clean;
        assert(forall|k: int|
            i <= k < clean.len() ==> #[trigger] all[before.len() + k] == clean[k]);
        assert(sextet_at(all, before.len() + i) == sextet_at(clean, i));
        assert(sextet_at(all, before.len() + i + 1) == sextet_at(clean, i + 1));
        assert(sextet_at(all, before.len() + i + 2) == sextet_at(clean, i + 2));
        assert(sextet_at(all, before.len() + i + 3) == sextet_at(clean, i + 3));
        assert(group_bytes(all, before.len() + i) == group_bytes(clean, i));
    }
}

proof fn lemma_plain_stands_for(data: Seq<u8>, i: int)
    requires
        0 <= i <= data.len(),
    ensures
        bytes_from(plain_from(data, i), 0) == data.subrange(i, data.len() as int),
    decreases data.len() + 3 - i,
{
    let clean = plain_from(data, i);
    if i == data.len() {
        assert(data.subrange(i, i) =~= Seq::empty());
    } else {
        let b0 = data[i] as int;
        let b1 = if i + 1 < data.len() {
            data[i + 1] as int
        } else {
            0
        };
        let b2 = if i + 2 < data.len() {
            data[i + 2] as int
        } else {
            0
        };
        lemma_char_of_sextet(b0 / 4);
        lemma_char_of_sextet(b0 % 4 * 16 + b1 / 16);
        lemma_char_of_sextet(b1 % 16 * 4 + b2 / 64);
        lemma_char_of_sextet(b2 % 64);
        let four = group_text(data, i).map_values(|c: char| c as u8);
        if i + 3 <= data.len() {
            lemma_plain_stands_for(data, i + 3);
            let rest = plain_from(data, i + 3);
            assert(clean =~= four + rest);
            lemma_bytes_shift(four, rest, 0);
            assert(group_bytes(clean, 0) =~= seq![data[i], data[i + 1], data[i + 2]]);
            assert(bytes_from(clean, 0) == group_bytes(clean, 0) + bytes_from(clean, 4));
            assert(data.subrange(i, data.len() as int) =~= seq![
                data[i],
                data[i + 1],
                data[i + 2],
            ] + data.subrange(i + 3, data.len() as int));
        } else {
            assert(plain_from(data, i + 3) =~= Seq::empty());
            assert(bytes_from(clean, 4) =~= Seq::empty());
            assert(bytes_from(clean, 0) == group_bytes(clean, 0) + bytes_from(clean, 4));
            assert(group_bytes(clean, 0) =~= data.subrange(i, data.len() as int));
            assert(bytes_from(clean, 0) =~= data.subrange(i, data.len() as int));
        }
    }
}

/// Decoding the base64 text of bytes gives them back.
pub proof fn law_base64_round_trip(data: Seq<u8>)
    ensures
        base64_bytes(base64_text(data)) == Some(data),
{
    let s = base64_text(data);
    lemma_text_is_plain(data, 0);
    is_ascii_chars_encode_utf8(s);
    let raw = encode_utf8(s);
    assert(raw =~= s.map_values(|c: char| c as u8));
    lemma_plain_stands_for(data, 0);
    assert(data.subrange(0, data.len() as int) =~= data);
}

} // verus!
