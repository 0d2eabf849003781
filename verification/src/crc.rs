//! The checksum of log records: CRC-32 with the IEEE polynomial.
use vstd::prelude::*;

verus! {

/// Division by the IEEE polynomial, one bit further. The polynomial is `0x04C11DB7`, here
/// with its bits in reverse order, as the bits of each byte are taken lowest first.
pub open spec fn crc_bit(c: u32) -> u32 {
    if c & 1 == 1 {
        (c >> 1u32) ^ 0xEDB8_8320
    } else {
        c >> 1u32
    }
}

/// Division by the polynomial, one byte further.
pub open spec fn crc_byte(c: u32, b: u8) -> u32 {
    crc_bit(crc_bit(crc_bit(crc_bit(crc_bit(crc_bit(crc_bit(crc_bit(c ^ (b as u32)))))))))
}

/// What is left of `data` after the division, which starts from all ones.
pub open spec fn crc_rest(data: Seq<u8>) -> u32
    decreases data.len(),
{
    if data.len() == 0 {
        0xFFFF_FFFF
    } else {
        crc_byte(crc_rest(data.drop_last()), data.last())
    }
}

/// The CRC-32 checksum (IEEE) of a byte string.
pub open spec fn crc32(data: Seq<u8>) -> u32 {
    crc_rest(data) ^ 0xFFFF_FFFF
}

/// `crc32fast::hash`: the CRC-32 checksum of `data`, which its crate documents as the IEEE one:
/// the polynomial, the order of the bits, the start from all ones and the inversion at the end
/// are those of the standard.
#[verifier::external_body]
pub(crate) fn checksum(data: &[u8]) -> (c: u32)
    ensures
        c == crc32(data@),
{
    crc32fast::hash(data)
}

/// A step of the division loses nothing: its highest bit tells whether the polynomial went in.
proof fn lemma_bit_injective(x: u32, y: u32)
    ensures
        crc_bit(x) == crc_bit(y) ==> x == y,
{
    assert(crc_bit(x) == crc_bit(y) ==> x == y) by (bit_vector);
}

/// Two divisions that have come apart, or that take different bytes next, come apart.
proof fn lemma_byte_injective(x: u32, a: u8, y: u32, b: u8)
    requires
        x != y && a == b || x == y && a != b,
    ensures
        crc_byte(x, a) != crc_byte(y, b),
{
    let p = x ^ (a as u32);
    let q = y ^ (b as u32);
    assert(p != q) by (bit_vector)
        requires
            p == x ^ (a as u32),
            q == y ^ (b as u32),
            x != y && a == b || x == y && a != b,
    ;
    lemma_bit_injective(p, q);
    let (p, q) = (crc_bit(p), crc_bit(q));
    lemma_bit_injective(p, q);
    let (p, q) = (crc_bit(p), crc_bit(q));
    lemma_bit_injective(p, q);
    let (p, q) = (crc_bit(p), crc_bit(q));
    lemma_bit_injective(p, q);
    let (p, q) = (crc_bit(p), crc_bit(q));
    lemma_bit_injective(p, q);
    let (p, q) = (crc_bit(p), crc_bit(q));
    lemma_bit_injective(p, q);
    let (p, q) = (crc_bit(p), crc_bit(q));
    lemma_bit_injective(p, q);
    let (p, q) = (crc_bit(p), crc_bit(q));
    lemma_bit_injective(p, q);
}

proof fn lemma_rest_update(data: Seq<u8>, i: int, b: u8)
    requires
        0 <= i < data.len(),
        b != data[i],
    ensures
        crc_rest(data.update(i, b)) != crc_rest(data),
    decreases data.len(),
{
    let changed = data.update(i, b);
    let last = data.len() - 1;
    if i == last {
        assert(changed.drop_last() =~= data.drop_last());
        lemma_byte_injective(crc_rest(data.drop_last()), b, crc_rest(data.drop_last()), data[i]);
    } else {
        assert(changed.drop_last() =~= data.drop_last().update(i, b));
        lemma_rest_update(data.drop_last(), i, b);
        lemma_byte_injective(
            crc_rest(changed.drop_last()),
            data.last(),
            crc_rest(data.drop_last()),
            data.last(),
        );
    }
}

/// Changing one byte of a byte string changes its checksum.
pub proof fn law_crc_changed_byte(data: Seq<u8>, i: int, b: u8)
    requires
        0 <= i < data.len(),
        b != data[i],
    ensures
        crc32(data.update(i, b)) != crc32(data),
{
    lemma_rest_update(data, i, b);
    let x = crc_rest(data.update(i, b));
    let y = crc_rest(data);
    assert(x != y ==> x ^ 0xFFFF_FFFF != y ^ 0xFFFF_FFFF) by (bit_vector);
}

} // verus!
