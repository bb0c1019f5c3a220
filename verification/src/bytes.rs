//! Little-endian byte framing and content hashing.

use vstd::prelude::*;

verus! {

/// The `count` low bytes of `value`, least significant first.
pub open spec fn low_bytes(value: nat, count: nat) -> Seq<u8>
    decreases count,
{
    if count == 0 {
        Seq::empty()
    } else {
        seq![(value % 256) as u8] + low_bytes(value / 256, (count - 1) as nat)
    }
}

/// The value that little-endian bytes stand for.
pub open spec fn from_low_bytes(bytes: Seq<u8>) -> nat
    decreases bytes.len(),
{
    if bytes.len() == 0 {
        0
    } else {
        bytes[0] as nat + 256 * from_low_bytes(bytes.drop_first())
    }
}

/// Reading the low bytes of a value that fits them gives the value back.
pub proof fn lemma_low_bytes_round_trip(value: nat, count: nat)
    requires
        value < vstd::arithmetic::power::pow(256, count),
    ensures
        low_bytes(value, count).len() == count,
        from_low_bytes(low_bytes(value, count)) == value,
    decreases count,
{
    reveal(vstd::arithmetic::power::pow);
    if count > 0 {
        let rest = (count - 1) as nat;
        let power = vstd::arithmetic::power::pow(256, rest);
        assert(value / 256 < power) by (nonlinear_arith)
            requires
                value < 256 * power,
        ;
        lemma_low_bytes_round_trip(value / 256, rest);
        assert(low_bytes(value, count).drop_first() =~= low_bytes(value / 256, rest));
    }
}

pub proof fn lemma_low_bytes_len(value: nat, count: nat)
    ensures
        low_bytes(value, count).len() == count,
    decreases count,
{
    if count > 0 {
        lemma_low_bytes_len(value / 256, (count - 1) as nat);
    }
}

/// Appends the `count` low bytes of `value`, least significant first.
fn push_low(out: &mut Vec<u8>, value: u64, count: usize)
    requires
        count <= 8,
    ensures
        final(out)@ == old(out)@ + low_bytes(value as nat, count as nat),
{
    let mut rest: u64 = value;
    let mut i: usize = 0;
    assert(out@ =~= old(out)@ + Seq::<u8>::empty());
    while i < count
        invariant
            i <= count,
            out@ + low_bytes(rest as nat, (count - i) as nat) == old(out)@ + low_bytes(
                value as nat,
                count as nat,
            ),
        decreases count - i,
    {
        let ghost before = out@;
        let ghost tail = low_bytes(rest as nat, (count - i) as nat);
        out.push((rest % 256) as u8);
        proof {
            assert(tail == seq![(rest as nat % 256) as u8] + low_bytes(
                rest as nat / 256,
                (count - i - 1) as nat,
            ));
            assert(out@ + low_bytes(rest as nat / 256, (count - i - 1) as nat) =~= before + tail);
        }
        rest = rest / 256;
        i = i + 1;
    }
    assert(out@ + low_bytes(rest as nat, 0) =~= out@);
}

/// Appends a 32-bit value in little-endian order.
pub fn push_u32(out: &mut Vec<u8>, value: u32)
    ensures
        final(out)@ == old(out)@ + low_bytes(value as nat, 4),
{
    push_low(out, value as u64, 4);
}

/// Appends a 64-bit value in little-endian order.
pub fn push_u64(out: &mut Vec<u8>, value: u64)
    ensures
        final(out)@ == old(out)@ + low_bytes(value as nat, 8),
{
    push_low(out, value, 8);
}

/// Appends all of `bytes`.
pub fn push_all(out: &mut Vec<u8>, bytes: &[u8])
    ensures
        final(out)@ == old(out)@ + bytes@,
{
    let mut i: usize = 0;
    assert(bytes@.take(0) =~= Seq::<u8>::empty());
    assert(out@ =~= old(out)@ + bytes@.take(0));
    while i < bytes.len()
        invariant
            i <= bytes.len(),
            out@ == old(out)@ + bytes@.take(i as int),
        decreases bytes.len() - i,
    {
        out.push(bytes[i]);
        proof {
            assert(bytes@.take(i + 1) =~= bytes@.take(i as int).push(bytes@[i as int]));
            assert(out@ =~= old(out)@ + bytes@.take(i + 1));
        }
        i = i + 1;
    }
    assert(bytes@.take(i as int) =~= bytes@);
}

/// A byte string preceded by its length.
pub open spec fn framed(bytes: Seq<u8>) -> Seq<u8> {
    low_bytes(bytes.len(), 8) + bytes
}

/// Appends `bytes` preceded by their length.
pub fn push_framed(out: &mut Vec<u8>, bytes: &[u8])
    ensures
        final(out)@ == old(out)@ + framed(bytes@),
{
    push_u64(out, bytes.len() as u64);
    push_all(out, bytes);
    assert(out@ =~= old(out)@ + framed(bytes@));
}

/// The BLAKE3 hash of a byte string.
pub uninterp spec fn blake3_of(bytes: Seq<u8>) -> Seq<u8>;

/// `blake3::hash`: the 32-byte hash of the bytes.
#[verifier::external_body]
pub(crate) fn blake3_hash(bytes: &[u8]) -> (digest: [u8; 32])
    ensures
        digest@ == blake3_of(bytes@),
{
    *blake3::hash(bytes).as_bytes()
}

} // verus!
