//! Reading data items.
use vstd::prelude::*;
use vstd::utf8::{decode_utf8, valid_utf8};

use crate::bytes::{big_endian_value, bound};
use crate::cbor::value::{entry_items, lemma_view, value_items, Item, Value};
use crate::text::{cat3, decimal, decimal_text, owned, text_of_utf8};

verus! {

/// Why bytes could not be read as a data item.
#[derive(Debug)]
pub struct Error(pub String);

impl Error {
    /// The message.
    pub fn to_string(&self) -> (r: String)
        ensures
            r@ == self.0@,
    {
        self.0.clone()
    }
}

/// What a read came to: a result or a message, and where it stopped.
pub type Outcome<T> = (Result<T, Seq<char>>, int);

/// The outcome with its values and messages taken by their views.
pub open spec fn value_outcome(r: Result<Value, Error>, pos: usize) -> Outcome<Item> {
    match r {
        Ok(v) => (Ok(v@), pos as int),
        Err(e) => (Err(e.0@), pos as int),
    }
}

/// The outcome of reading bytes, with the bytes and messages by their views.
pub open spec fn bytes_outcome(r: Result<Vec<u8>, Error>, pos: usize) -> Outcome<Seq<u8>> {
    match r {
        Ok(v) => (Ok(v@), pos as int),
        Err(e) => (Err(e.0@), pos as int),
    }
}

/// The message on data that ends too early.
pub open spec fn end_message() -> Seq<char> {
    "unexpected end of CBOR data"@
}

/// The message on a chunk that does not belong to its string.
pub open spec fn chunk_message() -> Seq<char> {
    "an indefinite-length string contains a chunk that isn't a definite-length string of the same type"@
}

/// The message on a length that cannot be addressed.
pub open spec fn raw_length_message() -> Seq<char> {
    "a length in this CBOR data is larger than this machine can address"@
}

/// The message on an array length that cannot be addressed.
pub open spec fn array_length_message() -> Seq<char> {
    "an array length in this CBOR data is larger than this machine can address"@
}

/// The message on a table length that cannot be addressed.
pub open spec fn map_length_message() -> Seq<char> {
    "a map length in this CBOR data is larger than this machine can address"@
}

/// The message on a reserved additional information value.
pub open spec fn info_message(info: int) -> Seq<char> {
    "this CBOR data uses an unsupported length encoding (additional info "@ + decimal_text(info)
        + ")"@
}

/// The message on text that is not UTF-8.
pub open spec fn utf8_message() -> Seq<char> {
    "this CBOR text string isn't valid UTF-8"@
}

/// Reading `n` bytes as a big-endian number.
pub open spec fn number_at(bytes: Seq<u8>, pos: int, n: int) -> Outcome<nat> {
    if pos + n <= bytes.len() {
        (Ok(big_endian_value(bytes.subrange(pos, pos + n))), pos + n)
    } else {
        (Err(end_message()), pos)
    }
}

/// Reading the argument that follows a head with additional information
/// `info`: that value itself up to 23, else 1, 2, 4 or 8 bytes.
pub open spec fn argument_at(bytes: Seq<u8>, pos: int, info: int) -> Outcome<nat> {
    if info <= 23 {
        (Ok(info as nat), pos)
    } else if info == 24 {
        number_at(bytes, pos, 1)
    } else if info == 25 {
        number_at(bytes, pos, 2)
    } else if info == 26 {
        number_at(bytes, pos, 4)
    } else if info == 27 {
        number_at(bytes, pos, 8)
    } else {
        (Err(info_message(info)), pos)
    }
}

/// Reading `len` bytes.
pub open spec fn raw_at(bytes: Seq<u8>, pos: int, len: nat) -> Outcome<Seq<u8>> {
    if len > usize::MAX {
        (Err(raw_length_message()), pos)
    } else if pos + len <= bytes.len() {
        (Ok(bytes.subrange(pos, pos + len)), pos + len)
    } else {
        (Err(end_message()), pos)
    }
}

/// Reading a length and then that many bytes.
pub open spec fn definite_string_at(bytes: Seq<u8>, pos: int, info: int) -> Outcome<Seq<u8>> {
    match argument_at(bytes, pos, info) {
        (Err(e), p) => (Err(e), p),
        (Ok(len), p) => raw_at(bytes, p, len),
    }
}

/// Reading definite-length chunks of the major type `major` up to a break
/// byte, behind the bytes `out` of earlier chunks.
pub open spec fn chunks_at(bytes: Seq<u8>, pos: int, major: int, out: Seq<u8>) -> Outcome<Seq<u8>>
    decreases bytes.len() - pos,
{
    if pos >= bytes.len() {
        (Err(end_message()), pos)
    } else if bytes[pos] == 0xff {
        (Ok(out), pos + 1)
    } else if bytes[pos] as int / 32 != major || bytes[pos] as int % 32 == 31 {
        (Err(chunk_message()), pos + 1)
    } else {
        match definite_string_at(bytes, pos + 1, bytes[pos] as int % 32) {
            (Err(e), p) => (Err(e), p),
            (Ok(chunk), p) => chunks_at(bytes, p, major, out + chunk),
        }
    }
}

/// Reading the bytes of a byte or text string.
pub open spec fn string_at(bytes: Seq<u8>, pos: int, info: int, major: int) -> Outcome<Seq<u8>> {
    if info == 31 {
        chunks_at(bytes, pos, major, Seq::empty())
    } else {
        definite_string_at(bytes, pos, info)
    }
}

/// The value of a head of major type 7.
pub open spec fn simple_value(info: int) -> Result<Item, Seq<char>> {
    if info == 20 {
        Ok(Item::Bool(false))
    } else if info == 21 {
        Ok(Item::Bool(true))
    } else if info == 22 || info == 23 {
        Ok(Item::Null)
    } else if 25 <= info <= 27 {
        Err(
            "this CBOR data contains a floating-point value, which a VelocityDRIVE-SP device never sends -- this doesn't look like a genuine device response"@,
        )
    } else if info == 31 {
        Err("unexpected CBOR break byte outside an indefinite-length item"@)
    } else {
        Err(
            "this CBOR data uses an unsupported simple value (additional info "@ + decimal_text(
                info,
            ) + ")"@,
        )
    }
}

/// Reading the data item at `pos`.
pub open spec fn item_at(bytes: Seq<u8>, pos: int) -> Outcome<Item>
    decreases bytes.len() - pos, 0int,
{
    if pos >= bytes.len() {
        (Err(end_message()), pos)
    } else {
        let major = bytes[pos] as int / 32;
        let info = bytes[pos] as int % 32;
        if major == 0 {
            match argument_at(bytes, pos + 1, info) {
                (Err(e), p) => (Err(e), p),
                (Ok(n), p) => (Ok(Item::Integer(n as int)), p),
            }
        } else if major == 1 {
            match argument_at(bytes, pos + 1, info) {
                (Err(e), p) => (Err(e), p),
                (Ok(n), p) => (Ok(Item::Integer(-1 - n)), p),
            }
        } else if major == 2 {
            match string_at(bytes, pos + 1, info, 2) {
                (Err(e), p) => (Err(e), p),
                (Ok(raw), p) => (Ok(Item::Bytes(raw)), p),
            }
        } else if major == 3 {
            match string_at(bytes, pos + 1, info, 3) {
                (Err(e), p) => (Err(e), p),
                (Ok(raw), p) => if valid_utf8(raw) {
                    (Ok(Item::Text(decode_utf8(raw))), p)
                } else {
                    (Err(utf8_message()), p)
                },
            }
        } else if major == 4 {
            match array_at(bytes, pos + 1, info) {
                (Err(e), p) => (Err(e), p),
                (Ok(items), p) => (Ok(Item::Array(items)), p),
            }
        } else if major == 5 {
            match map_at(bytes, pos + 1, info) {
                (Err(e), p) => (Err(e), p),
                (Ok(entries), p) => (Ok(Item::Entries(entries)), p),
            }
        } else if major == 6 {
            match argument_at(bytes, pos + 1, info) {
                (Err(e), p) => (Err(e), p),
                (Ok(tag), p) => match item_at(bytes, p) {
                    (Err(e), q) => (Err(e), q),
                    (Ok(inner), q) => (Ok(Item::Tag(tag as u64, Box::new(inner))), q),
                },
            }
        } else {
            (simple_value(info), pos + 1)
        }
    }
}

/// Reading the elements of an array whose head had additional information
/// `info`.
pub open spec fn array_at(bytes: Seq<u8>, pos: int, info: int) -> Outcome<Seq<Item>>
    decreases bytes.len() - pos, 2int,
{
    if info == 31 {
        items_at(bytes, pos, None, Seq::empty())
    } else {
        match argument_at(bytes, pos, info) {
            (Err(e), p) => (Err(e), p),
            (Ok(count), p) => if count > usize::MAX {
                (Err(array_length_message()), p)
            } else {
                items_at(bytes, p, Some(count), Seq::empty())
            },
        }
    }
}

/// Reading `left` more items, or all up to a break byte if there is no count,
/// behind the items `out` that were read before.
pub open spec fn items_at(
    bytes: Seq<u8>,
    pos: int,
    left: Option<nat>,
    out: Seq<Item>,
) -> Outcome<Seq<Item>>
    decreases bytes.len() - pos, 1int,
{
    if left == Some(0nat) {
        (Ok(out), pos)
    } else if left is None && pos >= bytes.len() {
        (Err(end_message()), pos)
    } else if left is None && bytes[pos] == 0xff {
        (Ok(out), pos + 1)
    } else {
        match item_at(bytes, pos) {
            (Err(e), p) => (Err(e), p),
            (Ok(item), p) => if pos < p <= bytes.len() {
                items_at(bytes, p, one_less(left), out.push(item))
            } else {
                arbitrary()
            },
        }
    }
}

/// Reading the entries of a table whose head had additional information
/// `info`.
pub open spec fn map_at(bytes: Seq<u8>, pos: int, info: int) -> Outcome<Seq<(Item, Item)>>
    decreases bytes.len() - pos, 2int,
{
    if info == 31 {
        entries_at(bytes, pos, None, Seq::empty())
    } else {
        match argument_at(bytes, pos, info) {
            (Err(e), p) => (Err(e), p),
            (Ok(count), p) => if count > usize::MAX {
                (Err(map_length_message()), p)
            } else {
                entries_at(bytes, p, Some(count), Seq::empty())
            },
        }
    }
}

/// Reading `left` more entries, or all up to a break byte if there is no
/// count, behind the entries `out` that were read before.
pub open spec fn entries_at(
    bytes: Seq<u8>,
    pos: int,
    left: Option<nat>,
    out: Seq<(Item, Item)>,
) -> Outcome<Seq<(Item, Item)>>
    decreases bytes.len() - pos, 1int,
{
    if left == Some(0nat) {
        (Ok(out), pos)
    } else if left is None && pos >= bytes.len() {
        (Err(end_message()), pos)
    } else if left is None && bytes[pos] == 0xff {
        (Ok(out), pos + 1)
    } else {
        match item_at(bytes, pos) {
            (Err(e), p) => (Err(e), p),
            (Ok(key), p) => if pos < p <= bytes.len() {
                match item_at(bytes, p) {
                    (Err(e), q) => (Err(e), q),
                    (Ok(value), q) => if p < q <= bytes.len() {
                        entries_at(bytes, q, one_less(left), out.push((key, value)))
                    } else {
                        arbitrary()
                    },
                }
            } else {
                arbitrary()
            },
        }
    }
}

/// The count after one more item.
pub open spec fn one_less(left: Option<nat>) -> Option<nat> {
    match left {
        Some(n) => Some((n - 1) as nat),
        None => None,
    }
}

/// Reading chunks never moves back, and past the end only by failing.
pub proof fn lemma_chunks_advance(bytes: Seq<u8>, pos: int, major: int, out: Seq<u8>)
    requires
        0 <= pos <= bytes.len(),
    ensures
        ({
            let (r, p) = chunks_at(bytes, pos, major, out);
            pos <= p <= bytes.len() && (r is Ok ==> pos < p)
        }),
    decreases bytes.len() - pos,
{
    if pos < bytes.len() && bytes[pos] != 0xff {
        match definite_string_at(bytes, pos + 1, bytes[pos] as int % 32) {
            (Err(e), p) => {},
            (Ok(chunk), p) => {
                lemma_chunks_advance(bytes, p, major, out + chunk);
            },
        }
    }
}

/// Reading an item never moves back or past the end, and an item that was
/// read takes at least one byte.
pub proof fn lemma_item_advances(bytes: Seq<u8>, pos: int)
    requires
        0 <= pos <= bytes.len(),
    ensures
        ({
            let (r, p) = item_at(bytes, pos);
            pos <= p <= bytes.len() && (r is Ok ==> pos < p)
        }),
    decreases bytes.len() - pos, 0int,
{
    if pos < bytes.len() {
        let major = bytes[pos] as int / 32;
        let info = bytes[pos] as int % 32;
        if major == 2 || major == 3 {
            if info == 31 {
                lemma_chunks_advance(bytes, pos + 1, major, Seq::empty());
            }
        } else if major == 4 {
            lemma_array_advances(bytes, pos + 1, info);
        } else if major == 5 {
            lemma_map_advances(bytes, pos + 1, info);
        } else if major == 6 {
            match argument_at(bytes, pos + 1, info) {
                (Err(e), p) => {},
                (Ok(tag), p) => {
                    lemma_item_advances(bytes, p);
                },
            }
        }
    }
}

proof fn lemma_array_advances(bytes: Seq<u8>, pos: int, info: int)
    requires
        0 <= pos <= bytes.len(),
    ensures
        pos <= array_at(bytes, pos, info).1 <= bytes.len(),
    decreases bytes.len() - pos, 2int,
{
    if info == 31 {
        lemma_items_advance(bytes, pos, None, Seq::empty());
    } else {
        match argument_at(bytes, pos, info) {
            (Err(e), p) => {},
            (Ok(count), p) => {
                lemma_items_advance(bytes, p, Some(count), Seq::empty());
            },
        }
    }
}

/// Reading items never moves back or past the end.
pub proof fn lemma_items_advance(bytes: Seq<u8>, pos: int, left: Option<nat>, out: Seq<Item>)
    requires
        0 <= pos <= bytes.len(),
    ensures
        pos <= items_at(bytes, pos, left, out).1 <= bytes.len(),
    decreases bytes.len() - pos, 1int,
{
    if left == Some(0nat) {
    } else if left is None && pos >= bytes.len() {
    } else if left is None && bytes[pos] == 0xff {
    } else {
        lemma_item_advances(bytes, pos);
        match item_at(bytes, pos) {
            (Err(e), p) => {},
            (Ok(item), p) => {
                lemma_items_advance(bytes, p, one_less(left), out.push(item));
            },
        }
    }
}

proof fn lemma_map_advances(bytes: Seq<u8>, pos: int, info: int)
    requires
        0 <= pos <= bytes.len(),
    ensures
        pos <= map_at(bytes, pos, info).1 <= bytes.len(),
    decreases bytes.len() - pos, 2int,
{
    if info == 31 {
        lemma_entries_advance(bytes, pos, None, Seq::empty());
    } else {
        match argument_at(bytes, pos, info) {
            (Err(e), p) => {},
            (Ok(count), p) => {
                lemma_entries_advance(bytes, p, Some(count), Seq::empty());
            },
        }
    }
}

/// Reading entries never moves back or past the end.
pub proof fn lemma_entries_advance(
    bytes: Seq<u8>,
    pos: int,
    left: Option<nat>,
    out: Seq<(Item, Item)>,
)
    requires
        0 <= pos <= bytes.len(),
    ensures
        pos <= entries_at(bytes, pos, left, out).1 <= bytes.len(),
    decreases bytes.len() - pos, 1int,
{
    if left == Some(0nat) {
    } else if left is None && pos >= bytes.len() {
    } else if left is None && bytes[pos] == 0xff {
    } else {
        lemma_item_advances(bytes, pos);
        match item_at(bytes, pos) {
            (Err(e), p) => {},
            (Ok(key), p) => {
                lemma_item_advances(bytes, p);
                match item_at(bytes, p) {
                    (Err(e), q) => {},
                    (Ok(value), q) => {
                        lemma_entries_advance(bytes, q, one_less(left), out.push((key, value)));
                    },
                }
            },
        }
    }
}

/// Reads one data item at `bytes[*pos]` and moves `*pos` past it. Called in a
/// loop it reads a sequence of items back to back. Malformed or truncated
/// data is an error.
pub fn from_slice(bytes: &[u8], pos: &mut usize) -> (r: Result<Value, Error>)
    ensures
        value_outcome(r, *final(pos)) == item_at(bytes@, *old(pos) as int),
        *old(pos) <= bytes@.len() ==> *old(pos) <= *final(pos) <= bytes@.len(),
        r is Ok ==> *old(pos) < *final(pos),
    decreases bytes@.len() - *old(pos), 0int,
{
    let ghost start = *pos as int;
    proof {
        if start <= bytes@.len() {
            lemma_item_advances(bytes@, start);
        }
    }
    let (major, info) = read_head_byte(bytes, pos)?;
    if major == 0 {
        let n = read_arg(bytes, pos, info)?;
        Ok(Value::Integer(n as i128))
    } else if major == 1 {
        let n = read_arg(bytes, pos, info)?;
        Ok(Value::Integer(-1 - n as i128))
    } else if major == 2 {
        let raw = read_string_bytes(bytes, pos, info, 2)?;
        Ok(Value::Bytes(raw))
    } else if major == 3 {
        let raw = read_string_bytes(bytes, pos, info, 3)?;
        match text_of_utf8(raw) {
            Some(t) => Ok(Value::Text(t)),
            None => Err(Error(owned("this CBOR text string isn't valid UTF-8"))),
        }
    } else if major == 4 {
        let items = read_array(bytes, pos, info)?;
        let v = Value::Array(items);
        proof {
            lemma_view(v);
        }
        Ok(v)
    } else if major == 5 {
        let entries = read_map(bytes, pos, info)?;
        let v = Value::Entries(entries);
        proof {
            lemma_view(v);
        }
        Ok(v)
    } else if major == 6 {
        let tag = read_arg(bytes, pos, info)?;
        let inner = from_slice(bytes, pos)?;
        Ok(Value::Tag(tag, Box::new(inner)))
    } else {
        read_simple(info)
    }
}

/// The 3-bit major type and the 5-bit additional information of a head byte.
fn read_head_byte(bytes: &[u8], pos: &mut usize) -> (r: Result<(u8, u8), Error>)
    ensures
        match r {
            Ok((major, info)) => {
                &&& *old(pos) < bytes@.len()
                &&& major == bytes@[*old(pos) as int] as int / 32
                &&& info == bytes@[*old(pos) as int] as int % 32
                &&& *final(pos) == *old(pos) + 1
            },
            Err(e) => {
                &&& *old(pos) >= bytes@.len()
                &&& e.0@ == end_message()
                &&& *final(pos) == *old(pos)
            },
        },
{
    if *pos >= bytes.len() {
        return Err(Error(owned("unexpected end of CBOR data")));
    }
    let b = bytes[*pos];
    *pos += 1;
    Ok((b / 32, b % 32))
}

/// `n` bytes as a big-endian number.
fn read_number(bytes: &[u8], pos: &mut usize, n: usize) -> (r: Result<u64, Error>)
    requires
        n <= 8,
        *old(pos) <= bytes@.len(),
    ensures
        match r {
            Ok(v) => (Ok(v as nat), *final(pos) as int),
            Err(e) => (Err(e.0@), *final(pos) as int),
        } == number_at(bytes@, *old(pos) as int, n as int),
{
    if n > bytes.len() - *pos {
        return Err(Error(owned("unexpected end of CBOR data")));
    }
    let ghost start = *pos as int;
    let len: usize = bytes.len();
    let mut v: u64 = 0;
    let mut i: usize = 0;
    let mut limit: u128 = 1;
    while i < n
        invariant
            i <= n <= 8,
            *pos == start,
            len == bytes@.len(),
            start + n <= len,
            v == big_endian_value(bytes@.subrange(start, start + i)),
            v < limit,
            limit == bound(i as int),
        decreases n - i,
    {
        proof {
            let next = bytes@.subrange(start, start + i + 1);
            assert(next.subrange(0, next.len() - 1) =~= bytes@.subrange(start, start + i));
            reveal_with_fuel(bound, 9);
        }
        v = v * 256 + bytes[*pos + i] as u64;
        limit = limit * 256;
        i += 1;
    }
    *pos = *pos + n;
    Ok(v)
}

/// The argument that follows a head byte: its additional information up to
/// 23, else a 1, 2, 4 or 8 byte big-endian number.
pub fn read_arg(bytes: &[u8], pos: &mut usize, info: u8) -> (r: Result<u64, Error>)
    requires
        *old(pos) <= bytes@.len(),
    ensures
        match r {
            Ok(v) => (Ok(v as nat), *final(pos) as int),
            Err(e) => (Err(e.0@), *final(pos) as int),
        } == argument_at(bytes@, *old(pos) as int, info as int),
{
    if info <= 23 {
        Ok(info as u64)
    } else if info == 24 {
        read_number(bytes, pos, 1)
    } else if info == 25 {
        read_number(bytes, pos, 2)
    } else if info == 26 {
        read_number(bytes, pos, 4)
    } else if info == 27 {
        read_number(bytes, pos, 8)
    } else {
        let digits = decimal(info as i128);
        Err(
            Error(
                cat3(
                    "this CBOR data uses an unsupported length encoding (additional info ",
                    digits.as_str(),
                    ")",
                ),
            ),
        )
    }
}

/// `len` bytes.
fn read_raw(bytes: &[u8], pos: &mut usize, len: u64) -> (r: Result<Vec<u8>, Error>)
    requires
        *old(pos) <= bytes@.len(),
    ensures
        bytes_outcome(r, *final(pos)) == raw_at(bytes@, *old(pos) as int, len as nat),
{
    if len > usize::MAX as u64 {
        return Err(Error(owned("a length in this CBOR data is larger than this machine can address")));
    }
    let n: usize = len as usize;
    if n > bytes.len() - *pos {
        return Err(Error(owned("unexpected end of CBOR data")));
    }
    let from: usize = *pos;
    let mut out: Vec<u8> = Vec::new();
    out.extend_from_slice(&bytes[from..from + n]);
    assert(out@ =~= bytes@.subrange(from as int, from + n));
    *pos = from + n;
    Ok(out)
}

/// The bytes of a byte string (major type 2) or text string (major type 3),
/// of definite or of indefinite length.
fn read_string_bytes(bytes: &[u8], pos: &mut usize, info: u8, major: u8) -> (r: Result<
    Vec<u8>,
    Error,
>)
    requires
        *old(pos) <= bytes@.len(),
    ensures
        bytes_outcome(r, *final(pos)) == string_at(
            bytes@,
            *old(pos) as int,
            info as int,
            major as int,
        ),
{
    if info != 31 {
        let len = read_arg(bytes, pos, info)?;
        return read_raw(bytes, pos, len);
    }
    let ghost start = *pos as int;
    let total: usize = bytes.len();
    let mut out: Vec<u8> = Vec::new();
    assert(out@ =~= Seq::empty());
    loop
        invariant
            total == bytes@.len(),
            *pos <= total,
            chunks_at(bytes@, start, major as int, Seq::empty()) == chunks_at(
                bytes@,
                *pos as int,
                major as int,
                out@,
            ),
            info == 31,
            start == *old(pos),
        decreases bytes@.len() - *pos,
    {
        let is_break = peek_is_break(bytes, *pos)?;
        if is_break {
            *pos += 1;
            return Ok(out);
        }
        let (chunk_major, chunk_info) = read_head_byte(bytes, pos)?;
        if chunk_major != major || chunk_info == 31 {
            return Err(
                Error(
                    owned(
                        "an indefinite-length string contains a chunk that isn't a definite-length string of the same type",
                    ),
                ),
            );
        }
        let len = read_arg(bytes, pos, chunk_info)?;
        let chunk = read_raw(bytes, pos, len)?;
        let ghost before = out@;
        out.extend_from_slice(chunk.as_slice());
        assert(out@ =~= before + chunk@);
    }
}

/// Whether the next byte is the break byte.
fn peek_is_break(bytes: &[u8], pos: usize) -> (r: Result<bool, Error>)
    ensures
        match r {
            Ok(b) => pos < bytes@.len() && b == (bytes@[pos as int] == 0xff),
            Err(e) => pos >= bytes@.len() && e.0@ == end_message(),
        },
{
    if pos >= bytes.len() {
        return Err(Error(owned("unexpected end of CBOR data")));
    }
    Ok(bytes[pos] == 0xff)
}

/// The outcome of reading items, with them and messages by their views.
pub open spec fn items_outcome(r: Result<Vec<Value>, Error>, pos: usize) -> Outcome<Seq<Item>> {
    match r {
        Ok(v) => (Ok(value_items(v@)), pos as int),
        Err(e) => (Err(e.0@), pos as int),
    }
}

/// The outcome of reading entries, with them and messages by their views.
pub open spec fn entries_outcome(r: Result<Vec<(Value, Value)>, Error>, pos: usize) -> Outcome<
    Seq<(Item, Item)>,
> {
    match r {
        Ok(v) => (Ok(entry_items(v@)), pos as int),
        Err(e) => (Err(e.0@), pos as int),
    }
}

/// The elements of an array.
fn read_array(bytes: &[u8], pos: &mut usize, info: u8) -> (r: Result<Vec<Value>, Error>)
    requires
        *old(pos) <= bytes@.len(),
    ensures
        items_outcome(r, *final(pos)) == array_at(bytes@, *old(pos) as int, info as int),
    decreases bytes@.len() - *old(pos), 1int,
{
    let ghost start = *pos as int;
    let total: usize = bytes.len();
    let mut out: Vec<Value> = Vec::new();
    assert(value_items(out@) =~= Seq::empty());
    if info == 31 {
        let mut is_break = peek_is_break(bytes, *pos)?;
        while !is_break
            invariant
                total == bytes@.len(),
                *pos < total,
                is_break == (bytes@[*pos as int] == 0xff),
                start == *old(pos),
                start <= *pos,
                info == 31,
                items_at(bytes@, start, None, Seq::empty()) == items_at(
                    bytes@,
                    *pos as int,
                    None,
                    value_items(out@),
                ),
            decreases bytes@.len() - *pos,
        {
            let ghost before = value_items(out@);
            let v = from_slice(bytes, pos)?;
            out.push(v);
            assert(value_items(out@) =~= before.push(v@));
            assert(items_at(bytes@, start, None, Seq::empty()) == items_at(
                bytes@,
                *pos as int,
                None,
                value_items(out@),
            ));
            is_break = peek_is_break(bytes, *pos)?;
        }
        *pos += 1;
        return Ok(out);
    }
    let count = read_arg(bytes, pos, info)?;
    if count > usize::MAX as u64 {
        return Err(
            Error(owned("an array length in this CBOR data is larger than this machine can address")),
        );
    }
    let ghost first = *pos as int;
    let mut left: u64 = count;
    while left > 0
        invariant
            start == *old(pos),
            start <= first <= *pos <= bytes@.len(),
            array_at(bytes@, start, info as int) == items_at(
                bytes@,
                *pos as int,
                Some(left as nat),
                value_items(out@),
            ),
        decreases left,
    {
        let ghost before = value_items(out@);
        let v = from_slice(bytes, pos)?;
        out.push(v);
        assert(value_items(out@) =~= before.push(v@));
        left -= 1;
    }
    Ok(out)
}

/// The entries of a table.
fn read_map(bytes: &[u8], pos: &mut usize, info: u8) -> (r: Result<Vec<(Value, Value)>, Error>)
    requires
        *old(pos) <= bytes@.len(),
    ensures
        entries_outcome(r, *final(pos)) == map_at(bytes@, *old(pos) as int, info as int),
    decreases bytes@.len() - *old(pos), 1int,
{
    let ghost start = *pos as int;
    let total: usize = bytes.len();
    let mut out: Vec<(Value, Value)> = Vec::new();
    assert(entry_items(out@) =~= Seq::empty());
    if info == 31 {
        let mut is_break = peek_is_break(bytes, *pos)?;
        while !is_break
            invariant
                total == bytes@.len(),
                *pos < total,
                is_break == (bytes@[*pos as int] == 0xff),
                start == *old(pos),
                start <= *pos,
                info == 31,
                entries_at(bytes@, start, None, Seq::empty()) == entries_at(
                    bytes@,
                    *pos as int,
                    None,
                    entry_items(out@),
                ),
            decreases bytes@.len() - *pos,
        {
            let ghost before = entry_items(out@);
            let k = from_slice(bytes, pos)?;
            let v = from_slice(bytes, pos)?;
            out.push((k, v));
            assert(entry_items(out@) =~= before.push((k@, v@)));
            assert(entries_at(bytes@, start, None, Seq::empty()) == entries_at(
                bytes@,
                *pos as int,
                None,
                entry_items(out@),
            ));
            is_break = peek_is_break(bytes, *pos)?;
        }
        *pos += 1;
        return Ok(out);
    }
    let count = read_arg(bytes, pos, info)?;
    if count > usize::MAX as u64 {
        return Err(
            Error(owned("a map length in this CBOR data is larger than this machine can address")),
        );
    }
    let ghost first = *pos as int;
    let mut left: u64 = count;
    while left > 0
        invariant
            start == *old(pos),
            start <= first <= *pos <= bytes@.len(),
            map_at(bytes@, start, info as int) == entries_at(
                bytes@,
                *pos as int,
                Some(left as nat),
                entry_items(out@),
            ),
        decreases left,
    {
        let ghost before = entry_items(out@);
        let k = from_slice(bytes, pos)?;
        let v = from_slice(bytes, pos)?;
        out.push((k, v));
        assert(entry_items(out@) =~= before.push((k@, v@)));
        left -= 1;
    }
    Ok(out)
}

/// Major type 7: booleans, null and undefined, the latter taken as null. A
/// floating-point value is never part of a genuine device response.
fn read_simple(info: u8) -> (r: Result<Value, Error>)
    ensures
        match r {
            Ok(v) => Ok(v@),
            Err(e) => Err(e.0@),
        } == simple_value(info as int),
{
    if info == 20 {
        Ok(Value::Bool(false))
    } else if info == 21 {
        Ok(Value::Bool(true))
    } else if info == 22 || info == 23 {
        Ok(Value::Null)
    } else if 25 <= info && info <= 27 {
        Err(
            Error(
                owned(
                    "this CBOR data contains a floating-point value, which a VelocityDRIVE-SP device never sends -- this doesn't look like a genuine device response",
                ),
            ),
        )
    } else if info == 31 {
        Err(Error(owned("unexpected CBOR break byte outside an indefinite-length item")))
    } else {
        let digits = decimal(info as i128);
        Err(
            Error(
                cat3(
                    "this CBOR data uses an unsupported simple value (additional info ",
                    digits.as_str(),
                    ")",
                ),
            ),
        )
    }
}

} // verus!
