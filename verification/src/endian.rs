//! Big-endian integer fields, the way the store and the index lay them out.

use byteorder::{BigEndian, ByteOrder, ReadBytesExt, WriteBytesExt};
use vstd::prelude::*;

verus! {

/// The number of distinct values that `width` bytes can spell: 256 to the power `width`.
pub open spec fn radix(width: nat) -> nat
    decreases width,
{
    if width == 0 {
        1
    } else {
        256 * radix((width - 1) as nat)
    }
}

/// The number that the bytes `b` spell, most significant byte first.
pub open spec fn be_value(b: Seq<u8>) -> nat
    decreases b.len(),
{
    if b.len() == 0 {
        0
    } else {
        256 * be_value(b.drop_last()) + b.last() as nat
    }
}

/// The `width` bytes that spell `v`, most significant byte first. Where `v` needs
/// more than `width` bytes, these are its low `width` bytes.
pub open spec fn be_bytes(v: nat, width: nat) -> Seq<u8>
    decreases width,
{
    if width == 0 {
        Seq::empty()
    } else {
        be_bytes(v / 256, (width - 1) as nat).push((v % 256) as u8)
    }
}

/// `be_bytes(v, width)` has exactly `width` bytes.
pub proof fn lemma_be_bytes_len(v: nat, width: nat)
    ensures
        be_bytes(v, width).len() == width,
    decreases width,
{
    if width > 0 {
        lemma_be_bytes_len(v / 256, (width - 1) as nat);
    }
}

/// What bytes spell is below the radix of their count.
pub proof fn lemma_be_value_bound(b: Seq<u8>)
    ensures
        be_value(b) < radix(b.len()),
    decreases b.len(),
{
    if b.len() > 0 {
        lemma_be_value_bound(b.drop_last());
    }
}

/// Spelling a number in enough bytes and reading the bytes back gives the number.
pub proof fn lemma_be_value_of_bytes(v: nat, width: nat)
    requires
        v < radix(width),
    ensures
        be_value(be_bytes(v, width)) == v,
    decreases width,
{
    if width > 0 {
        let high = be_bytes(v / 256, (width - 1) as nat);
        lemma_be_value_of_bytes(v / 256, (width - 1) as nat);
        lemma_be_bytes_len(v / 256, (width - 1) as nat);
        assert(high.push((v % 256) as u8).drop_last() =~= high);
    }
}

/// Reading bytes and spelling the number read in as many bytes gives the
/// bytes back.
pub proof fn lemma_be_bytes_of_value(b: Seq<u8>)
    ensures
        be_bytes(be_value(b), b.len()) == b,
    decreases b.len(),
{
    if b.len() > 0 {
        lemma_be_bytes_of_value(b.drop_last());
        let v = be_value(b);
        assert(v / 256 == be_value(b.drop_last()));
        assert(v % 256 == b.last());
        assert(be_bytes(v, b.len()) =~= b);
    } else {
        assert(be_bytes(0, 0) =~= b);
    }
}

/// The radix of four bytes and of eight bytes: what a `u32` and a `u64` can hold.
pub proof fn lemma_radix_of_words()
    ensures
        radix(4) == 0x1_0000_0000,
        radix(8) == 0x1_0000_0000_0000_0000,
{
    reveal_with_fuel(radix, 9);
}

/// Calls `byteorder::ByteOrder::write_u32` of `BigEndian` on a buffer of four
/// bytes: the result holds `n`, most significant byte first.
#[verifier::external_body]
pub(crate) fn u32_be_bytes(n: u32) -> (out: Vec<u8>)
    ensures
        out@ == be_bytes(n as nat, 4),
{
    let mut out = [0u8; 4];
    BigEndian::write_u32(&mut out, n);
    out.to_vec()
}

/// Calls `byteorder::WriteBytesExt::write_u64` with `BigEndian` on a vector, which
/// grows by the eight bytes of `n`, most significant byte first. Writing to a
/// vector does not fail.
#[verifier::external_body]
pub(crate) fn push_u64_be(buf: &mut Vec<u8>, n: u64)
    ensures
        final(buf)@ == old(buf)@ + be_bytes(n as nat, 8),
{
    let _ = buf.write_u64::<BigEndian>(n);
}

/// Calls `byteorder::ReadBytesExt::read_u32` with `BigEndian` on a slice: the
/// number that its first four bytes spell, or nothing where it has fewer.
#[verifier::external_body]
pub(crate) fn read_u32_be(bytes: &[u8]) -> (r: Option<u32>)
    ensures
        bytes@.len() < 4 ==> r is None,
        bytes@.len() >= 4 ==> r is Some && r->0 as nat == be_value(bytes@.subrange(0, 4)),
{
    let mut rest = bytes;
    match rest.read_u32::<BigEndian>() {
        Ok(n) => Some(n),
        Err(_) => None,
    }
}

/// Calls `byteorder::ReadBytesExt::read_u64` with `BigEndian` on a slice: the
/// number that its first eight bytes spell, or nothing where it has fewer.
#[verifier::external_body]
pub(crate) fn read_u64_be(bytes: &[u8]) -> (r: Option<u64>)
    ensures
        bytes@.len() < 8 ==> r is None,
        bytes@.len() >= 8 ==> r is Some && r->0 as nat == be_value(bytes@.subrange(0, 8)),
{
    let mut rest = bytes;
    match rest.read_u64::<BigEndian>() {
        Ok(n) => Some(n),
        Err(_) => None,
    }
}

} // verus!
