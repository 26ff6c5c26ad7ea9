//! Variable-length integers in base 128, from which the record encoding is built.

use vstd::prelude::*;
use vstd::slice::slice_subrange;

verus! {

/// The variable-length encoding of `v`: seven bits to a byte, the least
/// significant group first, the high bit set on every byte but the last.
pub open spec fn varint_encoding(v: nat) -> Seq<u8>
    decreases v,
{
    if v < 0x80 {
        seq![v as u8]
    } else {
        seq![(v % 0x80 + 0x80) as u8] + varint_encoding(v / 0x80)
    }
}

/// How many bytes at the start of `b` have the high bit set.
pub open spec fn continued(b: Seq<u8>) -> nat
    decreases b.len(),
{
    if b.len() == 0 || b[0] < 0x80 {
        0
    } else {
        1 + continued(b.skip(1))
    }
}

/// The number that the low seven bits of the first `n` bytes of `b` spell, the
/// least significant group first.
pub open spec fn groups_value(b: Seq<u8>, n: nat) -> nat
    decreases n,
{
    if n == 0 || b.len() == 0 {
        0
    } else {
        (b[0] % 0x80) as nat + 0x80 * groups_value(b.skip(1), (n - 1) as nat)
    }
}

/// The variable-length integer at the start of `b`, with the number of bytes
/// it takes. There is none where no byte among the first ten lacks the high
/// bit, or where the tenth byte would carry the value past 64 bits.
pub open spec fn varint_decoding(b: Seq<u8>) -> Option<(u64, nat)> {
    let k = continued(b);
    if k >= b.len() || k >= 10 || (k == 9 && b[9] >= 2) {
        None
    } else {
        Some((groups_value(b, k + 1) as u64, k + 1))
    }
}

/// 128 to the power `k`.
pub open spec fn radix128(k: nat) -> nat
    decreases k,
{
    if k == 0 {
        1
    } else {
        0x80 * radix128((k - 1) as nat)
    }
}

/// In front of any bytes, an encoding is its own bytes with the high bit on
/// all but the last, and its seven-bit groups spell the number encoded.
pub proof fn lemma_encoding_shape(v: nat, rest: Seq<u8>)
    ensures
        varint_encoding(v).len() >= 1,
        continued(varint_encoding(v) + rest) == varint_encoding(v).len() - 1,
        groups_value(varint_encoding(v) + rest, varint_encoding(v).len()) == v,
    decreases v,
{
    let e = varint_encoding(v);
    let b = e + rest;
    if v < 0x80 {
        assert(b[0] == v);
        assert(groups_value(b.skip(1), 0) == 0);
    } else {
        let tail = varint_encoding(v / 0x80);
        lemma_encoding_shape(v / 0x80, rest);
        assert(b.skip(1) =~= tail + rest);
        assert(b[0] == v % 0x80 + 0x80);
        assert(e.len() == 1 + tail.len());
    }
}

/// A number below `top` times 128 to the power `k - 1` takes at most `k` bytes,
/// and where it takes `k` the last of them is below `top`.
pub proof fn lemma_encoding_fits(v: nat, k: nat, top: nat)
    requires
        k >= 1,
        1 <= top <= 0x80,
        v < top * radix128((k - 1) as nat),
    ensures
        varint_encoding(v).len() <= k,
        varint_encoding(v).len() == k ==> varint_encoding(v)[k - 1] < top,
    decreases k,
{
    if k == 1 {
        assert(radix128(0) == 1);
        assert(v < top) by (nonlinear_arith)
            requires
                v < top * 1,
        ;
    } else if v >= 0x80 {
        let m = top * radix128((k - 2) as nat);
        assert(radix128((k - 1) as nat) == 0x80 * radix128((k - 2) as nat));
        assert(v < 0x80 * m) by (nonlinear_arith)
            requires
                v < top * (0x80 * radix128((k - 2) as nat)),
                m == top * radix128((k - 2) as nat),
        ;
        lemma_encoding_fits(v / 0x80, (k - 1) as nat, top);
        let tail = varint_encoding(v / 0x80);
        if varint_encoding(v).len() == k {
            assert(varint_encoding(v)[k - 1] == tail[k - 2]);
        }
    }
}

/// Decoding finds, in front of any bytes, the 64-bit number that was encoded,
/// and takes exactly the bytes of its encoding.
pub proof fn lemma_decoding_of_encoding(v: nat, rest: Seq<u8>)
    requires
        v <= u64::MAX,
    ensures
        varint_decoding(varint_encoding(v) + rest) == Some((v as u64, varint_encoding(v).len())),
        varint_encoding(v).len() <= 10,
{
    lemma_encoding_shape(v, rest);
    assert(2 * radix128(9) == 0x1_0000_0000_0000_0000) by {
        reveal_with_fuel(radix128, 10);
    }
    lemma_encoding_fits(v, 10, 2);
}

/// The byte behind the leading bytes that have the high bit set has it clear.
proof fn lemma_continued_ends(b: Seq<u8>)
    requires
        continued(b) < b.len(),
    ensures
        b[continued(b) as int] < 0x80,
    decreases b.len(),
{
    if b.len() > 0 && b[0] >= 0x80 {
        lemma_continued_ends(b.skip(1));
        assert(b.skip(1)[continued(b.skip(1)) as int] == b[continued(b) as int]);
    }
}

/// The seven-bit groups of `n` bytes, the last of them below `top`, spell a
/// number below `top` times 128 to the power `n - 1`.
proof fn lemma_groups_value_bound(b: Seq<u8>, n: nat, top: nat)
    requires
        1 <= n <= b.len(),
        b[n - 1] % 0x80 < top,
    ensures
        groups_value(b, n) < top * radix128((n - 1) as nat),
    decreases n,
{
    if n == 1 {
        assert(groups_value(b.skip(1), 0) == 0);
        assert(top * radix128(0) == top) by (nonlinear_arith)
            requires
                radix128(0) == 1,
        ;
    } else {
        let rest = b.skip(1);
        assert(rest[n - 2] == b[n - 1]);
        lemma_groups_value_bound(rest, (n - 1) as nat, top);
        let g = groups_value(rest, (n - 1) as nat);
        let r = radix128((n - 2) as nat);
        let m = top * r;
        assert(radix128((n - 1) as nat) == 0x80 * r);
        assert(top * (0x80 * r) == 0x80 * m) by (nonlinear_arith)
            requires
                m == top * r,
        ;
    }
}

/// The number that decoding finds fits 64 bits: as a 64-bit number it is the
/// number that the seven-bit groups spell.
pub proof fn lemma_decoded_value_fits(b: Seq<u8>)
    requires
        varint_decoding(b) is Some,
    ensures
        groups_value(b, continued(b) + 1) <= u64::MAX,
{
    let k = continued(b);
    lemma_continued_ends(b);
    reveal_with_fuel(radix128, 11);
    if k == 9 {
        lemma_groups_value_bound(b, 10, 2);
    } else {
        lemma_groups_value_bound(b, k + 1, 0x80);
        assert(k == 0 || k == 1 || k == 2 || k == 3 || k == 4 || k == 5 || k == 6 || k == 7 || k
            == 8);
    }
}

/// The variable-length integer at the start of `b` where it is written in the
/// fewest bytes, as encoding writes it, with the number of bytes it takes.
pub open spec fn canonical_varint(b: Seq<u8>) -> Option<(u64, nat)> {
    match varint_decoding(b) {
        Some((v, n)) => if b.subrange(0, n as int) == varint_encoding(v as nat) {
            Some((v, n))
        } else {
            None
        },
        None => None,
    }
}

/// In front of any bytes, the encoding of a 64-bit number is canonical.
pub proof fn lemma_canonical_of_encoding(v: nat, rest: Seq<u8>)
    requires
        v <= u64::MAX,
    ensures
        canonical_varint(varint_encoding(v) + rest) == Some((v as u64, varint_encoding(v).len())),
{
    lemma_decoding_of_encoding(v, rest);
    let e = varint_encoding(v);
    assert((e + rest).subrange(0, e.len() as int) =~= e);
}

/// Whether two slices hold the same bytes.
pub fn same_bytes(a: &[u8], b: &[u8]) -> (r: bool)
    ensures
        r == (a@ == b@),
{
    if a.len() != b.len() {
        return false;
    }
    let mut i: usize = 0;
    while i < a.len()
        invariant
            a@.len() == b@.len(),
            i <= a@.len(),
            a@.subrange(0, i as int) == b@.subrange(0, i as int),
        decreases a@.len() - i,
    {
        if a[i] != b[i] {
            return false;
        }
        assert(a@.subrange(0, i + 1) =~= a@.subrange(0, i as int).push(a@[i as int]));
        assert(b@.subrange(0, i + 1) =~= b@.subrange(0, i as int).push(b@[i as int]));
        i += 1;
    }
    assert(a@ =~= a@.subrange(0, i as int));
    assert(b@ =~= b@.subrange(0, i as int));
    true
}

/// Reads the variable-length integer at the start of `bytes`, and accepts it
/// only in its canonical form: the bytes read are the ones that encoding the
/// number gives back.
pub fn take_canonical_varint(bytes: &[u8]) -> (r: Option<(u64, usize)>)
    ensures
        match r {
            Some((v, n)) => canonical_varint(bytes@) == Some((v, n as nat)),
            None => canonical_varint(bytes@) is None,
        },
{
    match take_varint(bytes) {
        None => None,
        Some((value, rest)) => {
            let n: usize = bytes.len() - rest.len();
            let mut again: Vec<u8> = Vec::new();
            put_varint(value, &mut again);
            assert(again@ =~= varint_encoding(value as nat));
            if same_bytes(slice_subrange(bytes, 0, n), again.as_slice()) {
                Some((value, n))
            } else {
                None
            }
        },
    }
}

/// Calls `prost::encoding::encode_varint` on a vector, which grows by the
/// encoding of `value`.
#[verifier::external_body]
pub(crate) fn put_varint(value: u64, buf: &mut Vec<u8>)
    ensures
        final(buf)@ == old(buf)@ + varint_encoding(value as nat),
{
    prost::encoding::encode_varint(value, buf)
}

/// Calls `prost::encoding::decode_varint` on a slice: the integer at its
/// start together with the bytes that follow it, or nothing where the slice
/// does not start with one.
#[verifier::external_body]
pub(crate) fn take_varint<'a>(bytes: &'a [u8]) -> (r: Option<(u64, &'a [u8])>)
    ensures
        match r {
            Some((value, rest)) => match varint_decoding(bytes@) {
                Some((v, n)) => value == v && rest@ == bytes@.skip(n as int),
                None => false,
            },
            None => varint_decoding(bytes@) is None,
        },
{
    let mut rest = bytes;
    match prost::encoding::decode_varint(&mut rest) {
        Ok(value) => Some((value, rest)),
        Err(_) => None,
    }
}

} // verus!
