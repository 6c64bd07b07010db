//! Little-endian encoding of fixed-width unsigned integers.

use byteorder::{ByteOrder, LittleEndian};
use vstd::prelude::*;

verus! {

/// The `width` low-order bytes of `v`, least significant first.
pub open spec fn le_bytes(v: nat, width: nat) -> Seq<u8>
    decreases width,
{
    if width == 0 {
        Seq::empty()
    } else {
        seq![(v % 256) as u8] + le_bytes(v / 256, (width - 1) as nat)
    }
}

/// The number that `bytes` spells, least significant byte first.
pub open spec fn le_value(bytes: Seq<u8>) -> nat
    decreases bytes.len(),
{
    if bytes.len() == 0 {
        0
    } else {
        bytes[0] as nat + 256 * le_value(bytes.drop_first())
    }
}

/// `256` to the power `width`.
pub open spec fn radix_pow(width: nat) -> nat
    decreases width,
{
    if width == 0 {
        1
    } else {
        256 * radix_pow((width - 1) as nat)
    }
}

/// A number is encoded in as many bytes as asked for.
pub proof fn lemma_le_bytes_len(v: nat, width: nat)
    ensures
        le_bytes(v, width).len() == width,
    decreases width,
{
    if width > 0 {
        lemma_le_bytes_len(v / 256, (width - 1) as nat);
    }
}

/// Decoding undoes encoding for every number that fits in `width` bytes.
pub proof fn lemma_le_value_of_bytes(v: nat, width: nat)
    requires
        v < radix_pow(width),
    ensures
        le_value(le_bytes(v, width)) == v,
    decreases width,
{
    if width > 0 {
        let rest = le_bytes(v / 256, (width - 1) as nat);
        let all = le_bytes(v, width);
        lemma_le_bytes_len(v / 256, (width - 1) as nat);
        assert(all.drop_first() =~= rest);
        assert(v / 256 < radix_pow((width - 1) as nat)) by (nonlinear_arith)
            requires
                v < 256 * radix_pow((width - 1) as nat),
        ;
        lemma_le_value_of_bytes(v / 256, (width - 1) as nat);
        assert(v == (v % 256) + 256 * (v / 256)) by (nonlinear_arith);
    }
}

/// A byte string spells a number below `256` to the power of its length.
pub proof fn lemma_le_value_bound(bytes: Seq<u8>)
    ensures
        le_value(bytes) < radix_pow(bytes.len()),
    decreases bytes.len(),
{
    if bytes.len() > 0 {
        lemma_le_value_bound(bytes.drop_first());
        let rest = le_value(bytes.drop_first());
        let p = radix_pow((bytes.len() - 1) as nat);
        assert(bytes[0] as nat + 256 * rest < 256 * p) by (nonlinear_arith)
            requires
                rest < p,
                (bytes[0] as nat) < 256,
        ;
    }
}

/// Encoding undoes decoding.
pub proof fn lemma_le_bytes_of_value(bytes: Seq<u8>)
    ensures
        le_bytes(le_value(bytes), bytes.len()) == bytes,
    decreases bytes.len(),
{
    if bytes.len() > 0 {
        let rest = bytes.drop_first();
        let v = le_value(bytes);
        lemma_le_bytes_of_value(rest);
        assert(v % 256 == bytes[0] as nat && v / 256 == le_value(rest)) by (nonlinear_arith)
            requires
                v == bytes[0] as nat + 256 * le_value(rest),
                (bytes[0] as nat) < 256,
        ;
        assert(le_bytes(v, bytes.len()) =~= bytes);
    } else {
        assert(le_bytes(le_value(bytes), bytes.len()) =~= bytes);
    }
}

/// Four bytes hold the numbers below 2 to the power 32, eight bytes those
/// below 2 to the power 64.
pub proof fn lemma_radix_pow_values()
    ensures
        radix_pow(4) == 0x1_0000_0000,
        radix_pow(8) == 0x1_0000_0000_0000_0000,
{
    reveal_with_fuel(radix_pow, 9);
}

/// Calls `byteorder::LittleEndian::write_u32` on a fresh buffer of four
/// bytes. The crate documents that it writes `n` in little-endian order.
#[verifier::external_body]
pub(crate) fn u32_to_le(n: u32) -> (out: Vec<u8>)
    ensures
        out@ == le_bytes(n as nat, 4),
{
    let mut out = vec![0u8; 4];
    LittleEndian::write_u32(&mut out, n);
    out
}

/// Calls `byteorder::LittleEndian::write_u64` on a fresh buffer of eight
/// bytes. The crate documents that it writes `n` in little-endian order.
#[verifier::external_body]
pub(crate) fn u64_to_le(n: u64) -> (out: Vec<u8>)
    ensures
        out@ == le_bytes(n as nat, 8),
{
    let mut out = vec![0u8; 8];
    LittleEndian::write_u64(&mut out, n);
    out
}

/// Calls `byteorder::LittleEndian::read_u32`, which reads the first four
/// bytes of `buf` as a little-endian number and panics on a shorter buffer.
#[verifier::external_body]
pub(crate) fn u32_from_le(buf: &[u8]) -> (n: u32)
    requires
        buf@.len() >= 4,
    ensures
        n as nat == le_value(buf@.subrange(0, 4)),
{
    LittleEndian::read_u32(buf)
}

/// Calls `byteorder::LittleEndian::read_u64`, which reads the first eight
/// bytes of `buf` as a little-endian number and panics on a shorter buffer.
#[verifier::external_body]
pub(crate) fn u64_from_le(buf: &[u8]) -> (n: u64)
    requires
        buf@.len() >= 8,
    ensures
        n as nat == le_value(buf@.subrange(0, 8)),
{
    LittleEndian::read_u64(buf)
}

} // verus!
