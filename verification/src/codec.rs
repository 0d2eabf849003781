//! Byte strings and big-endian integers, the vocabulary of every on-disk format.
use bytes::{Buf, BufMut, Bytes};
use vstd::prelude::*;

verus! {

/// `bytes::Bytes`, a cheaply cloneable handle on an immutable byte string.
#[verifier::external_type_specification]
#[verifier::external_body]
pub struct ExBytes(Bytes);

/// The byte string that a `Bytes` handle stands for.
pub uninterp spec fn bytes_of(b: Bytes) -> Seq<u8>;

/// `Bytes::copy_from_slice`: a handle on a copy of `data`.
#[verifier::external_body]
pub(crate) fn copy_bytes(data: &[u8]) -> (b: Bytes)
    ensures
        bytes_of(b) == data@,
{
    Bytes::copy_from_slice(data)
}

/// `<Bytes as From<Vec<u8>>>::from`: a handle on the vector's bytes.
#[verifier::external_body]
pub(crate) fn freeze(data: Vec<u8>) -> (b: Bytes)
    ensures
        bytes_of(b) == data@,
{
    Bytes::from(data)
}

/// `Bytes::slice`: a handle on the bytes from `begin` up to, not including, `end`.
/// The outside function panics unless `begin <= end <= len`.
#[verifier::external_body]
pub(crate) fn slice_bytes(b: &Bytes, begin: usize, end: usize) -> (r: Bytes)
    requires
        begin <= end <= bytes_of(*b).len(),
    ensures
        bytes_of(r) == bytes_of(*b).subrange(begin as int, end as int),
{
    b.slice(begin..end)
}

/// `<Bytes as Clone>::clone`: a second handle on the same byte string.
pub assume_specification[ <Bytes as Clone>::clone ](b: &Bytes) -> (r: Bytes)
    ensures
        bytes_of(r) == bytes_of(*b),
;

/// `<Bytes as AsRef<[u8]>>::as_ref`: the bytes as a slice.
#[verifier::external_body]
pub(crate) fn as_slice(b: &Bytes) -> (s: &[u8])
    ensures
        s@ == bytes_of(*b),
{
    b.as_ref()
}

/// The `width` bytes of `n` in big-endian order; higher digits of `n` are dropped.
pub open spec fn be_bytes(n: nat, width: nat) -> Seq<u8>
    decreases width,
{
    if width == 0 {
        Seq::empty()
    } else {
        be_bytes(n / 256, (width - 1) as nat).push((n % 256) as u8)
    }
}

/// The number that a byte string spells in big-endian order.
pub open spec fn be_value(s: Seq<u8>) -> nat
    decreases s.len(),
{
    if s.len() == 0 {
        0
    } else {
        be_value(s.drop_last()) * 256 + s.last() as nat
    }
}

/// How many numbers `width` bytes can spell.
pub open spec fn be_range(width: nat) -> nat
    decreases width,
{
    if width == 0 {
        1
    } else {
        256 * be_range((width - 1) as nat)
    }
}

pub proof fn lemma_be_len(n: nat, width: nat)
    ensures
        be_bytes(n, width).len() == width,
    decreases width,
{
    if width > 0 {
        lemma_be_len(n / 256, (width - 1) as nat);
    }
}

/// Two, four and eight bytes spell the numbers of `u16`, `u32` and `u64`.
pub proof fn lemma_be_ranges()
    ensures
        be_range(1) == 0x100,
        be_range(2) == 0x1_0000,
        be_range(4) == 0x1_0000_0000,
        be_range(8) == 0x1_0000_0000_0000_0000,
{
    reveal_with_fuel(be_range, 9);
}

/// Reading back the bytes of a number gives the number, if they are enough to spell it.
pub proof fn lemma_be_round_trip(n: nat, width: nat)
    requires
        n < be_range(width),
    ensures
        be_value(be_bytes(n, width)) == n,
    decreases width,
{
    if width > 0 {
        let rest = be_bytes(n / 256, (width - 1) as nat);
        lemma_be_round_trip(n / 256, (width - 1) as nat);
        assert(be_bytes(n, width).drop_last() =~= rest);
    }
}

/// Different byte strings of one length are different numbers.
pub proof fn lemma_be_unique(s: Seq<u8>, t: Seq<u8>)
    requires
        s.len() == t.len(),
        be_value(s) == be_value(t),
    ensures
        s == t,
    decreases s.len(),
{
    if s.len() > 0 {
        lemma_be_unique(s.drop_last(), t.drop_last());
        assert(s =~= s.drop_last().push(s.last()));
        assert(t =~= t.drop_last().push(t.last()));
    }
}

/// A byte string spells one of the numbers that its length allows.
pub proof fn lemma_be_value_bound(s: Seq<u8>)
    ensures
        be_value(s) < be_range(s.len()),
    decreases s.len(),
{
    if s.len() > 0 {
        lemma_be_value_bound(s.drop_last());
    }
}

/// The number that two bytes from place `i` on spell, the first byte being the higher one.
pub open spec fn two_bytes(s: Seq<u8>, i: int) -> int {
    s[i] * 0x100 + s[i + 1]
}

/// The number that four bytes from place `i` on spell, the first byte being the highest one.
pub open spec fn four_bytes(s: Seq<u8>, i: int) -> int {
    s[i] * 0x100_0000 + s[i + 1] * 0x1_0000 + s[i + 2] * 0x100 + s[i + 3]
}

/// The number that eight bytes from place `i` on spell, the first byte being the highest one.
pub open spec fn eight_bytes(s: Seq<u8>, i: int) -> int {
    four_bytes(s, i) * 0x1_0000_0000 + four_bytes(s, i + 4)
}

/// Two, four and eight bytes spell the number of which they are the digits to the base of 256,
/// the first byte being the highest digit.
pub proof fn law_be_value(s: Seq<u8>, i: int)
    requires
        0 <= i,
    ensures
        i + 2 <= s.len() ==> be_value(s.subrange(i, i + 2)) == two_bytes(s, i),
        i + 4 <= s.len() ==> be_value(s.subrange(i, i + 4)) == four_bytes(s, i),
        i + 8 <= s.len() ==> be_value(s.subrange(i, i + 8)) == eight_bytes(s, i),
{
    reveal_with_fuel(be_value, 9);
}

/// A number that the bytes can spell is spelled by its digits to the base of 256, the highest
/// one first.
pub proof fn law_be_bytes(n: nat)
    ensures
        n < 0x1_0000 ==> be_bytes(n, 2).len() == 2 && two_bytes(be_bytes(n, 2), 0) == n,
        n < 0x1_0000_0000 ==> be_bytes(n, 4).len() == 4 && four_bytes(be_bytes(n, 4), 0) == n,
        n < 0x1_0000_0000_0000_0000 ==> be_bytes(n, 8).len() == 8 && eight_bytes(
            be_bytes(n, 8),
            0,
        ) == n,
{
    lemma_be_ranges();
    lemma_be_len(n, 2);
    lemma_be_len(n, 4);
    lemma_be_len(n, 8);
    law_be_value(be_bytes(n, 2), 0);
    law_be_value(be_bytes(n, 4), 0);
    law_be_value(be_bytes(n, 8), 0);
    assert(be_bytes(n, 2).subrange(0, 2) =~= be_bytes(n, 2));
    assert(be_bytes(n, 4).subrange(0, 4) =~= be_bytes(n, 4));
    assert(be_bytes(n, 8).subrange(0, 8) =~= be_bytes(n, 8));
    if n < 0x1_0000 {
        lemma_be_round_trip(n, 2);
    }
    if n < 0x1_0000_0000 {
        lemma_be_round_trip(n, 4);
    }
    if n < 0x1_0000_0000_0000_0000 {
        lemma_be_round_trip(n, 8);
    }
}

/// Digits beyond the width do not show.
pub proof fn lemma_be_truncates(n: nat, m: nat, width: nat)
    requires
        n % be_range(width) == m % be_range(width),
    ensures
        be_bytes(n, width) == be_bytes(m, width),
    decreases width,
{
    if width > 0 {
        let r = be_range((width - 1) as nat);
        lemma_be_range_positive((width - 1) as nat);
        assert(n % 256 == m % 256 && (n / 256) % r == (m / 256) % r) by (nonlinear_arith)
            requires
                n % (256 * r) == m % (256 * r),
                r > 0,
        {
            let q = n / (256 * r);
            let p = m / (256 * r);
            let d = n % (256 * r);
            assert(n == 256 * r * q + d && m == 256 * r * p + d);
            assert(n == 256 * (r * q) + d && m == 256 * (r * p) + d);
            assert(n / 256 == r * q + d / 256 && m / 256 == r * p + d / 256);
            assert((r * q + d / 256) % r == (d / 256) % r);
            assert((r * p + d / 256) % r == (d / 256) % r);
        }
        lemma_be_truncates(n / 256, m / 256, (width - 1) as nat);
    }
}

pub proof fn lemma_be_range_positive(width: nat)
    ensures
        be_range(width) > 0,
    decreases width,
{
    if width > 0 {
        lemma_be_range_positive((width - 1) as nat);
    }
}

/// The bytes of the low sixteen bits of a length are its two big-endian bytes.
pub proof fn lemma_low_u16(n: usize)
    ensures
        be_bytes((n as u16) as nat, 2) == be_bytes(n as nat, 2),
        (n as u16) as nat == n as nat % 0x1_0000,
{
    assert((n as u16) == n % 0x1_0000) by (bit_vector);
    lemma_be_ranges();
    lemma_be_truncates((n as u16) as nat, n as nat, 2);
}

/// The bytes of the low thirty-two bits of a length are its four big-endian bytes.
pub proof fn lemma_low_u32(n: usize)
    ensures
        be_bytes((n as u32) as nat, 4) == be_bytes(n as nat, 4),
        (n as u32) as nat == n as nat % 0x1_0000_0000,
{
    assert((n as u32) == n as u64 % 0x1_0000_0000) by (bit_vector);
    lemma_be_ranges();
    lemma_be_truncates((n as u32) as nat, n as nat, 4);
}

/// `BufMut::put_u16` on a vector: appends the two big-endian bytes of `n`.
#[verifier::external_body]
pub(crate) fn put_u16(buf: &mut Vec<u8>, n: u16)
    ensures
        final(buf)@ == old(buf)@ + be_bytes(n as nat, 2),
{
    buf.put_u16(n)
}

/// `BufMut::put_u32` on a vector: appends the four big-endian bytes of `n`.
#[verifier::external_body]
pub(crate) fn put_u32(buf: &mut Vec<u8>, n: u32)
    ensures
        final(buf)@ == old(buf)@ + be_bytes(n as nat, 4),
{
    buf.put_u32(n)
}

/// `BufMut::put_u64` on a vector: appends the eight big-endian bytes of `n`.
#[verifier::external_body]
pub(crate) fn put_u64(buf: &mut Vec<u8>, n: u64)
    ensures
        final(buf)@ == old(buf)@ + be_bytes(n as nat, 8),
{
    buf.put_u64(n)
}

/// `BufMut::put_u8` on a vector: appends one byte.
#[verifier::external_body]
pub(crate) fn put_u8(buf: &mut Vec<u8>, n: u8)
    ensures
        final(buf)@ == old(buf)@.push(n),
{
    buf.put_u8(n)
}

/// `BufMut::put_slice` on a vector: appends all bytes of `src`.
#[verifier::external_body]
pub(crate) fn put_slice(buf: &mut Vec<u8>, src: &[u8])
    ensures
        final(buf)@ == old(buf)@ + src@,
{
    buf.put_slice(src)
}

/// `Buf::get_u16` on the slice that starts at `pos`: the number that its first two bytes
/// spell. The outside function panics when fewer bytes are left.
#[verifier::external_body]
pub(crate) fn get_u16(data: &[u8], pos: usize) -> (n: u16)
    requires
        pos + 2 <= data@.len(),
    ensures
        n as nat == be_value(data@.subrange(pos as int, pos + 2)),
{
    (&data[pos..]).get_u16()
}

/// `Buf::get_u32` on the slice that starts at `pos`: the number that its first four bytes
/// spell. The outside function panics when fewer bytes are left.
#[verifier::external_body]
pub(crate) fn get_u32(data: &[u8], pos: usize) -> (n: u32)
    requires
        pos + 4 <= data@.len(),
    ensures
        n as nat == be_value(data@.subrange(pos as int, pos + 4)),
{
    (&data[pos..]).get_u32()
}

/// `Buf::get_u64` on the slice that starts at `pos`: the number that its first eight bytes
/// spell. The outside function panics when fewer bytes are left.
#[verifier::external_body]
pub(crate) fn get_u64(data: &[u8], pos: usize) -> (n: u64)
    requires
        pos + 8 <= data@.len(),
    ensures
        n as nat == be_value(data@.subrange(pos as int, pos + 8)),
{
    (&data[pos..]).get_u64()
}

/// `Buf::get_u8` on the slice that starts at `pos`: its first byte. The outside function
/// panics when no byte is left.
#[verifier::external_body]
pub(crate) fn get_u8(data: &[u8], pos: usize) -> (n: u8)
    requires
        pos < data@.len(),
    ensures
        n == data@[pos as int],
{
    (&data[pos..]).get_u8()
}

} // verus!
