//! Numbers as big-endian bytes.
use vstd::prelude::*;

verus! {

/// The `n` low bytes of `v`, most significant first.
pub open spec fn big_endian(v: nat, n: nat) -> Seq<u8>
    decreases n,
{
    if n == 0 {
        Seq::empty()
    } else {
        big_endian(v / 256, (n - 1) as nat).push((v % 256) as u8)
    }
}

/// The number whose big-endian digits are `bytes`.
pub open spec fn big_endian_value(bytes: Seq<u8>) -> nat
    decreases bytes.len(),
{
    if bytes.len() == 0 {
        0
    } else {
        big_endian_value(bytes.subrange(0, bytes.len() - 1)) * 256 + bytes[bytes.len() - 1] as nat
    }
}

/// 256 to the power of `n`.
pub open spec fn bound(n: int) -> int
    decreases n,
{
    if n <= 0 {
        1
    } else {
        256 * bound(n - 1)
    }
}

/// Appends the `n` low bytes of `v`, most significant first.
pub fn push_big_endian(v: u64, n: usize, out: &mut Vec<u8>)
    ensures
        final(out)@ == old(out)@ + big_endian(v as nat, n as nat),
    decreases n,
{
    let ghost start = out@;
    if n > 0 {
        push_big_endian(v / 256, n - 1, out);
        out.push((v % 256) as u8);
    }
    assert(out@ =~= start + big_endian(v as nat, n as nat));
}

/// Bytes that were written as a number are read as that number.
pub proof fn lemma_big_endian(v: nat, n: nat)
    requires
        v < bound(n as int),
    ensures
        big_endian(v, n).len() == n,
        big_endian_value(big_endian(v, n)) == v,
    decreases n,
{
    if n > 0 {
        assert(v / 256 < bound(n - 1)) by (nonlinear_arith)
            requires
                v < 256 * bound(n - 1),
        ;
        lemma_big_endian(v / 256, (n - 1) as nat);
        let s = big_endian(v, n);
        assert(s.subrange(0, s.len() - 1) =~= big_endian(v / 256, (n - 1) as nat));
    }
}

/// A number of `n` bytes is below 256 to the power of `n`.
pub proof fn lemma_big_endian_value_bound(bytes: Seq<u8>)
    ensures
        big_endian_value(bytes) < bound(bytes.len() as int),
    decreases bytes.len(),
{
    if bytes.len() > 0 {
        lemma_big_endian_value_bound(bytes.subrange(0, bytes.len() - 1));
    }
}

/// Whether `part` stands in `bytes` at `pos`.
pub open spec fn stands_at(bytes: Seq<u8>, pos: int, part: Seq<u8>) -> bool {
    &&& 0 <= pos
    &&& pos + part.len() <= bytes.len()
    &&& bytes.subrange(pos, pos + part.len()) == part
}

/// Each half of what stands somewhere stands at its own place.
pub proof fn lemma_stands_split(bytes: Seq<u8>, pos: int, a: Seq<u8>, b: Seq<u8>)
    requires
        stands_at(bytes, pos, a + b),
    ensures
        stands_at(bytes, pos, a),
        stands_at(bytes, pos + a.len(), b),
{
    let whole = bytes.subrange(pos, pos + (a + b).len());
    assert(whole.subrange(0, a.len() as int) =~= a);
    assert(whole.subrange(a.len() as int, (a + b).len() as int) =~= b);
    assert(bytes.subrange(pos, pos + a.len()) =~= a);
    assert(bytes.subrange(pos + a.len(), pos + a.len() + b.len()) =~= b);
}

} // verus!
