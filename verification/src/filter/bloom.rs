//! The Bloom filter that spares a table lookups of keys it does not hold.
use crate::codec::{as_slice, bytes_of, freeze, get_u8, put_slice, put_u8, slice_bytes};
use bytes::Bytes;
use vstd::arithmetic::div_mod::{lemma_mul_mod_noop_left, lemma_mul_mod_noop_right, lemma_small_mod};
use vstd::arithmetic::mul::lemma_mul_is_associative;
use vstd::arithmetic::power2::{lemma2_to64, pow2};
use vstd::prelude::*;

verus! {

/// Bits that each key adds to a filter.
pub const BITS_PER_KEY: usize = 10;

/// Bits that each key sets: about `BITS_PER_KEY * ln(2)`.
pub const NUM_HASHES: u8 = 7;

/// Where the two hashes of a key start, and what each byte multiplies them by.
pub const SEED_1: u32 = 0x811c9dc5;

pub const SEED_2: u32 = 0x9e3779b9;

pub const PRIME_1: u32 = 0x01000193;

pub const PRIME_2: u32 = 0x85ebca6b;

/// The 32-bit FNV-1a hash of a byte string, from a given start and with a given multiplier.
pub open spec fn fnv1a(data: Seq<u8>, seed: u32, prime: u32) -> u32
    decreases data.len(),
{
    if data.len() == 0 {
        seed
    } else {
        (((fnv1a(data.drop_last(), seed, prime) ^ (data.last() as u32)) * prime)
            % 0x1_0000_0000) as u32
    }
}

/// Two independent 32-bit hashes, by FNV-1a with distinct starts and multipliers.
pub fn hash_pair(data: &[u8]) -> (h: (u32, u32))
    ensures
        h.0 == fnv1a(data@, SEED_1, PRIME_1),
        h.1 == fnv1a(data@, SEED_2, PRIME_2),
{
    let mut h1: u32 = SEED_1;
    let mut h2: u32 = SEED_2;
    let mut i: usize = 0;
    while i < data.len()
        invariant
            i <= data@.len(),
            h1 == fnv1a(data@.take(i as int), SEED_1, PRIME_1),
            h2 == fnv1a(data@.take(i as int), SEED_2, PRIME_2),
        decreases data@.len() - i,
    {
        let byte: u32 = data[i] as u32;
        assert(data@.take(i + 1).drop_last() =~= data@.take(i as int));
        h1 = (h1 ^ byte).wrapping_mul(PRIME_1);
        h2 = (h2 ^ byte).wrapping_mul(PRIME_2);
        i = i + 1;
    }
    assert(data@.take(data@.len() as int) =~= data@);
    (h1, h2)
}

/// How many bits of a bit set of the given number of bytes the hashes range over.
pub open spec fn total_bits(num_bytes: nat) -> nat {
    (num_bytes * 8) % 0x1_0000_0000
}

/// The bit that a key's `i`th probe goes to.
pub open spec fn probe(key: Seq<u8>, i: nat, bits: nat) -> nat {
    ((fnv1a(key, SEED_1, PRIME_1) + i * fnv1a(key, SEED_2, PRIME_2)) % 0x1_0000_0000) as nat % bits
}

/// Bit `b` of a bit set, counted from the lowest bit of its first byte.
pub open spec fn bit_set(bits: Seq<u8>, b: nat) -> bool {
    bits[(b / 8) as int] & (1u8 << ((b % 8) as u8)) != 0
}

/// The size in bytes of a filter for `n` keys: ten bits each, at least 64, in whole bytes.
pub open spec fn filter_bytes(n: nat) -> nat {
    if n * BITS_PER_KEY <= 64 {
        8
    } else {
        ((n * BITS_PER_KEY + 7) / 8) as nat
    }
}

/// A filter for `n` keys can be addressed: its size fits the machine, and 32-bit hashes
/// range over at least one of its bits.
pub open spec fn filter_fits(n: nat) -> bool {
    n == 0 || (n * BITS_PER_KEY + 7 <= usize::MAX && total_bits(filter_bytes(n)) != 0)
}

/// One of the keys probes bit `b`.
pub open spec fn probed(keys: Seq<Seq<u8>>, b: nat, bits: nat) -> bool {
    exists|j: int, i: nat|
        0 <= j < keys.len() && i < NUM_HASHES && #[trigger] probe(keys[j], i, bits) == b
}

/// A space-efficient Bloom Filter with Kirsch-Mitzenmacher double-hashing.
#[derive(Clone, Debug)]
pub struct BloomFilter {
    bitset: Bytes,
    k: u8,  // Number of hash functions
}

/// A filter as a bit set and a number of probes.
#[verifier::ext_equal]
pub struct BloomModel {
    pub bits: Seq<u8>,
    pub k: nat,
}

impl View for BloomFilter {
    type V = BloomModel;

    closed spec fn view(&self) -> BloomModel {
        BloomModel { bits: bytes_of(self.bitset), k: self.k as nat }
    }
}

impl BloomModel {
    /// A filter that holds no bits, or is asked for none, answers `true`. Any other answers
    /// whether all bits that the key probes are set.
    pub open spec fn may_contain(self, key: Seq<u8>) -> bool {
        self.bits.len() == 0 || self.k == 0 || forall|i: nat|
            i < self.k ==> bit_set(
                self.bits,
                #[trigger] probe(key, i, total_bits(self.bits.len())),
            )
    }

    /// The hashes range over at least one bit, where the filter is asked for any.
    pub open spec fn addressable(self) -> bool {
        self.bits.len() == 0 || self.k == 0 || total_bits(self.bits.len()) != 0
    }

    /// The filter that is built from the given keys: exactly the bits that they probe are
    /// set.
    pub open spec fn built_from(self, keys: Seq<Seq<u8>>) -> bool {
        if keys.len() == 0 {
            self.bits.len() == 0 && self.k == 0
        } else {
            &&& self.k == NUM_HASHES
            &&& self.bits.len() == filter_bytes(keys.len())
            &&& forall|b: nat|
                b < 8 * self.bits.len() ==> (#[trigger] bit_set(self.bits, b) <==> probed(
                    keys,
                    b,
                    total_bits(self.bits.len()),
                ))
        }
    }

    /// The filter's bytes in a table file: `[k: u8] [bitset: N bytes]`.
    pub open spec fn image(self) -> Seq<u8> {
        seq![self.k as u8] + self.bits
    }

    /// The filter that a table file's bytes spell.
    pub open spec fn of_image(data: Seq<u8>) -> BloomModel {
        if data.len() == 0 {
            BloomModel { bits: Seq::empty(), k: 0 }
        } else {
            BloomModel { bits: data.skip(1), k: data[0] as nat }
        }
    }
}

/// The byte strings behind a list of slices.
pub open spec fn keys_of(keys: Seq<&[u8]>) -> Seq<Seq<u8>> {
    Seq::new(keys.len(), |i: int| keys[i]@)
}

/// Setting one bit of a byte sets that bit and leaves the others.
proof fn lemma_set_bit(x: u8, j: u8)
    requires
        j < 8,
    ensures
        forall|m: u8|
            m < 8 ==> ((#[trigger] ((x | (1u8 << j)) & (1u8 << m))) != 0 <==> (m == j || x & (1u8
                << m) != 0)),
{
    assert(forall|m: u8|
        m < 8 ==> ((#[trigger] ((x | (1u8 << j)) & (1u8 << m))) != 0 <==> (m == j || x & (1u8
            << m) != 0))) by (bit_vector)
        requires
            j < 8,
    ;
}

/// Setting one bit of a bit set sets that bit and leaves the others.
proof fn lemma_bit_set_update(bits: Seq<u8>, b: nat, c: nat)
    requires
        b < 8 * bits.len(),
        c < 8 * bits.len(),
    ensures
        ({
            let i = (b / 8) as int;
            bit_set(bits.update(i, bits[i] | (1u8 << ((b % 8) as u8))), c) <==> (c == b || bit_set(
                bits,
                c,
            ))
        }),
{
    let i = (b / 8) as int;
    lemma_set_bit(bits[i], (b % 8) as u8);
    let m = (c % 8) as u8;
    assert((bits[i] | (1u8 << ((b % 8) as u8))) & (1u8 << m) != 0 <==> (m == (b % 8) as u8
        || bits[i] & (1u8 << m) != 0));
}

/// Whether a filter for `n` keys can be addressed.
pub fn check_filter_fits(n: usize) -> (b: bool)
    ensures
        b == filter_fits(n as nat),
{
    if n == 0 {
        return true;
    }
    if n > (usize::MAX - 7) / BITS_PER_KEY {
        return false;
    }
    let num_bytes: usize = filter_size(n);
    low_bits(num_bytes) != 0
}

/// The size in bytes of a filter for `n` keys.
fn filter_size(n: usize) -> (num_bytes: usize)
    requires
        n * BITS_PER_KEY + 7 <= usize::MAX,
    ensures
        num_bytes as nat == filter_bytes(n as nat),
{
    let num_bits: usize = if n * BITS_PER_KEY < 64 {
        64
    } else {
        n * BITS_PER_KEY
    };
    (num_bits + 7) / 8
}

/// The number of bits in `num_bytes` bytes, as far as 32 bits can hold it.
fn low_bits(num_bytes: usize) -> (bits: u32)
    ensures
        bits as nat == total_bits(num_bytes as nat),
{
    let low: u32 = num_bytes as u32;
    proof {
        assert(low == num_bytes as u64 % 0x1_0000_0000) by (bit_vector)
            requires
                low == num_bytes as u32,
        ;
        lemma_low_product(num_bytes as int, low as int);
    }
    low.wrapping_mul(8)
}

/// Eight times a number and eight times its low part have the same low part.
proof fn lemma_low_product(n: int, low: int)
    requires
        low == n % 0x1_0000_0000,
    ensures
        (n * 8) % 0x1_0000_0000 == (low * 8) % 0x1_0000_0000,
{
    lemma_mul_mod_noop_left(n, 8, 0x1_0000_0000);
}

/// The bit that a probe goes to.
fn probe_bit(h: (u32, u32), i: u8, bits: u32, Ghost(key): Ghost<Seq<u8>>) -> (b: usize)
    requires
        bits > 0,
        h.0 == fnv1a(key, SEED_1, PRIME_1),
        h.1 == fnv1a(key, SEED_2, PRIME_2),
    ensures
        b as nat == probe(key, i as nat, bits as nat),
        b < bits,
{
    let combined: u32 = h.0.wrapping_add((i as u32).wrapping_mul(h.1));
    (combined % bits) as usize
}

impl BloomFilter {
    /// Builds a Bloom Filter from a list of keys.
    /// Uses 10 bits per key (~1% false positive rate) and optimal k = 7 hash functions.
    pub fn build(keys: &[&[u8]]) -> (f: Self)
        requires
            filter_fits(keys@.len()),
        ensures
            f@.built_from(keys_of(keys@)),
            f@.addressable(),
    {
        if keys.len() == 0 {
            return BloomFilter { bitset: freeze(Vec::new()), k: 0 };
        }
        let num_bytes: usize = filter_size(keys.len());
        let mut bitset: Vec<u8> = vec![0u8; num_bytes];
        let bits: u32 = low_bits(num_bytes);
        let ghost ks = keys_of(keys@);
        proof {
            assert forall|b: nat| b < 8 * bitset@.len() implies !#[trigger] bit_set(bitset@, b) by {
                let m = (b % 8) as u8;
                assert(0u8 & (1u8 << m) == 0) by (bit_vector);
            }
        }
        let mut j: usize = 0;
        while j < keys.len()
            invariant
                j <= keys@.len(),
                ks == keys_of(keys@),
                bitset@.len() == num_bytes,
                bits as nat == total_bits(num_bytes as nat),
                bits > 0,
                forall|b: nat|
                    b < 8 * bitset@.len() ==> (#[trigger] bit_set(bitset@, b) <==> probed(
                        ks.take(j as int),
                        b,
                        bits as nat,
                    )),
            decreases keys@.len() - j,
        {
            let ghost key = keys@[j as int]@;
            let h: (u32, u32) = hash_pair(keys[j]);
            let ghost start = bitset@;
            let mut i: u8 = 0;
            while i < NUM_HASHES
                invariant
                    i <= NUM_HASHES,
                    j < keys@.len(),
                    key == keys@[j as int]@,
                    h.0 == fnv1a(key, SEED_1, PRIME_1),
                    h.1 == fnv1a(key, SEED_2, PRIME_2),
                    bitset@.len() == num_bytes,
                    start.len() == num_bytes,
                    bits as nat == total_bits(num_bytes as nat),
                    bits > 0,
                    forall|b: nat|
                        b < 8 * bitset@.len() ==> (#[trigger] bit_set(bitset@, b) <==> bit_set(
                            start,
                            b,
                        ) || exists|p: nat| p < i && #[trigger] probe(key, p, bits as nat) == b),
                decreases NUM_HASHES - i,
            {
                let bit: usize = probe_bit(h, i, bits, Ghost(key));
                let ghost prev = bitset@;
                let byte: u8 = bitset[bit / 8];
                bitset.set(bit / 8, byte | (1u8 << ((bit % 8) as u8)));
                proof {
                    assert forall|b: nat| b < 8 * bitset@.len() implies (#[trigger] bit_set(
                        bitset@,
                        b,
                    ) <==> bit_set(start, b) || exists|p: nat|
                        p < i + 1 && #[trigger] probe(key, p, bits as nat) == b) by {
                        lemma_bit_set_update(prev, bit as nat, b);
                        assert(bit_set(prev, b) <==> bit_set(start, b) || exists|p: nat|
                            p < i && #[trigger] probe(key, p, bits as nat) == b);
                        if b == bit {
                            assert(probe(key, i as nat, bits as nat) == b);
                        }
                    }
                }
                i = i + 1;
            }
            proof {
                let before = ks.take(j as int);
                let after = ks.take(j + 1);
                assert(after =~= before.push(key));
                assert forall|b: nat| b < 8 * bitset@.len() implies (#[trigger] bit_set(bitset@, b)
                    <==> probed(after, b, bits as nat)) by {
                    lemma_probed_push(before, key, b, bits as nat);
                    assert(bit_set(start, b) <==> probed(before, b, bits as nat));
                }
            }
            j = j + 1;
        }
        assert(ks.take(keys@.len() as int) =~= ks);
        BloomFilter { bitset: freeze(bitset), k: NUM_HASHES }
    }

    /// Tests whether a key may be present.
    /// If returns `false`, the key is GUARANTEED not to exist.
    /// If returns `true`, the key MAY exist (with ~1% false positive rate).
    pub fn may_contain(&self, key: &[u8]) -> (b: bool)
        requires
            self@.addressable(),
        ensures
            b == self@.may_contain(key@),
    {
        let bitset: &[u8] = as_slice(&self.bitset);
        if bitset.len() == 0 || self.k == 0 {
            return true;  // Empty filter conservatively returns true
        }
        let bits: u32 = low_bits(bitset.len());
        let h: (u32, u32) = hash_pair(key);
        let mut i: u8 = 0;
        while i < self.k
            invariant
                i <= self.k,
                bitset@ == bytes_of(self.bitset),
                bitset@.len() > 0,
                bits as nat == total_bits(bitset@.len()),
                bits > 0,
                h.0 == fnv1a(key@, SEED_1, PRIME_1),
                h.1 == fnv1a(key@, SEED_2, PRIME_2),
                forall|p: nat|
                    p < i ==> bit_set(bitset@, #[trigger] probe(key@, p, bits as nat)),
            decreases self.k - i,
        {
            let bit: usize = probe_bit(h, i, bits, Ghost(key@));
            if bitset[bit / 8] & (1u8 << ((bit % 8) as u8)) == 0 {
                assert(!bit_set(bitset@, probe(key@, i as nat, bits as nat)));
                return false;  // Found a 0 bit -> definitively not present!
            }
            i = i + 1;
        }
        true
    }

    /// Serializes the filter into bytes: [k: u8] [bitset: N bytes]
    pub fn encode(&self) -> (b: Bytes)
        ensures
            bytes_of(b) == self@.image(),
    {
        let mut buf: Vec<u8> = Vec::new();
        put_u8(&mut buf, self.k);
        put_slice(&mut buf, as_slice(&self.bitset));
        assert(buf@ =~= self@.image());
        freeze(buf)
    }

    /// Deserializes bytes into a BloomFilter.
    pub fn decode(data: Bytes) -> (f: Self)
        ensures
            f@ == BloomModel::of_image(bytes_of(data)),
    {
        let len: usize = as_slice(&data).len();
        if len == 0 {
            return BloomFilter { bitset: freeze(Vec::new()), k: 0 };
        }
        let k: u8 = get_u8(as_slice(&data), 0);
        let bitset: Bytes = slice_bytes(&data, 1, len);
        assert(bytes_of(data).subrange(1, len as int) =~= bytes_of(data).skip(1));
        BloomFilter { bitset, k }
    }

    /// Whether the hashes range over at least one bit of the filter.
    pub fn is_addressable(&self) -> (b: bool)
        ensures
            b == self@.addressable(),
    {
        let len: usize = as_slice(&self.bitset).len();
        len == 0 || self.k == 0 || low_bits(len) != 0
    }
}

/// A bit is probed by one of the keys, or by the one more.
proof fn lemma_probed_push(keys: Seq<Seq<u8>>, key: Seq<u8>, b: nat, bits: nat)
    ensures
        probed(keys.push(key), b, bits) <==> probed(keys, b, bits) || exists|p: nat|
            p < NUM_HASHES && #[trigger] probe(key, p, bits) == b,
{
    let all = keys.push(key);
    if probed(keys, b, bits) {
        let (j, i) = choose|j: int, i: nat|
            0 <= j < keys.len() && i < NUM_HASHES && #[trigger] probe(keys[j], i, bits) == b;
        assert(probe(all[j], i, bits) == b);
    }
    if exists|p: nat| p < NUM_HASHES && #[trigger] probe(key, p, bits) == b {
        let p = choose|p: nat| p < NUM_HASHES && #[trigger] probe(key, p, bits) == b;
        assert(all[keys.len() as int] == key);
        assert(probe(all[keys.len() as int], p, bits) == b);
    }
    if probed(all, b, bits) {
        let (j, i) = choose|j: int, i: nat|
            0 <= j < all.len() && i < NUM_HASHES && #[trigger] probe(all[j], i, bits) == b;
        if j < keys.len() {
            assert(probe(keys[j], i, bits) == b);
        }
    }
}

/// Two bytes with the same bits are the same byte.
proof fn lemma_byte_bits(x: u8, y: u8)
    requires
        forall|m: u8| m < 8 ==> ((#[trigger] (x & (1u8 << m))) != 0 <==> y & (1u8 << m) != 0),
    ensures
        x == y,
{
    assert(x & (1u8 << 0u8) != 0 <==> y & (1u8 << 0u8) != 0);
    assert(x & (1u8 << 1u8) != 0 <==> y & (1u8 << 1u8) != 0);
    assert(x & (1u8 << 2u8) != 0 <==> y & (1u8 << 2u8) != 0);
    assert(x & (1u8 << 3u8) != 0 <==> y & (1u8 << 3u8) != 0);
    assert(x & (1u8 << 4u8) != 0 <==> y & (1u8 << 4u8) != 0);
    assert(x & (1u8 << 5u8) != 0 <==> y & (1u8 << 5u8) != 0);
    assert(x & (1u8 << 6u8) != 0 <==> y & (1u8 << 6u8) != 0);
    assert(x & (1u8 << 7u8) != 0 <==> y & (1u8 << 7u8) != 0);
    assert(x == y) by (bit_vector)
        requires
            x & (1u8 << 0u8) != 0 <==> y & (1u8 << 0u8) != 0,
            x & (1u8 << 1u8) != 0 <==> y & (1u8 << 1u8) != 0,
            x & (1u8 << 2u8) != 0 <==> y & (1u8 << 2u8) != 0,
            x & (1u8 << 3u8) != 0 <==> y & (1u8 << 3u8) != 0,
            x & (1u8 << 4u8) != 0 <==> y & (1u8 << 4u8) != 0,
            x & (1u8 << 5u8) != 0 <==> y & (1u8 << 5u8) != 0,
            x & (1u8 << 6u8) != 0 <==> y & (1u8 << 6u8) != 0,
            x & (1u8 << 7u8) != 0 <==> y & (1u8 << 7u8) != 0,
    ;
}

/// There is one filter for a list of keys.
pub proof fn lemma_built_unique(f: BloomModel, g: BloomModel, keys: Seq<Seq<u8>>)
    requires
        f.built_from(keys),
        g.built_from(keys),
    ensures
        f == g,
{
    if keys.len() == 0 {
        assert(f.bits =~= g.bits);
    } else {
        assert forall|i: int| 0 <= i < f.bits.len() implies f.bits[i] == g.bits[i] by {
            let x = f.bits[i];
            let y = g.bits[i];
            assert forall|m: u8| m < 8 implies ((#[trigger] (x & (1u8 << m))) != 0 <==> y & (1u8
                << m) != 0) by {
                let b = (8 * i + m) as nat;
                assert(b / 8 == i && b % 8 == m);
                assert(bit_set(f.bits, b) <==> bit_set(g.bits, b));
            }
            lemma_byte_bits(x, y);
        }
        assert(f.bits =~= g.bits);
    }
}

/// There is a byte with any given bits.
proof fn lemma_byte_with_bits(
    b0: bool,
    b1: bool,
    b2: bool,
    b3: bool,
    b4: bool,
    b5: bool,
    b6: bool,
    b7: bool,
) -> (x: u8)
    ensures
        x & (1u8 << 0u8) != 0 <==> b0,
        x & (1u8 << 1u8) != 0 <==> b1,
        x & (1u8 << 2u8) != 0 <==> b2,
        x & (1u8 << 3u8) != 0 <==> b3,
        x & (1u8 << 4u8) != 0 <==> b4,
        x & (1u8 << 5u8) != 0 <==> b5,
        x & (1u8 << 6u8) != 0 <==> b6,
        x & (1u8 << 7u8) != 0 <==> b7,
{
    let x0 = if b0 { 1u8 } else { 0u8 };
    let x1 = if b1 { 2u8 } else { 0u8 };
    let x2 = if b2 { 4u8 } else { 0u8 };
    let x3 = if b3 { 8u8 } else { 0u8 };
    let x4 = if b4 { 16u8 } else { 0u8 };
    let x5 = if b5 { 32u8 } else { 0u8 };
    let x6 = if b6 { 64u8 } else { 0u8 };
    let x7 = if b7 { 128u8 } else { 0u8 };
    let x = x0 | x1 | x2 | x3 | x4 | x5 | x6 | x7;
    assert((x & (1u8 << 0u8) != 0 <==> x0 != 0) && (x & (1u8 << 1u8) != 0 <==> x1 != 0) && (x & (1u8
        << 2u8) != 0 <==> x2 != 0) && (x & (1u8 << 3u8) != 0 <==> x3 != 0) && (x & (1u8 << 4u8) != 0
        <==> x4 != 0) && (x & (1u8 << 5u8) != 0 <==> x5 != 0) && (x & (1u8 << 6u8) != 0 <==> x6
        != 0) && (x & (1u8 << 7u8) != 0 <==> x7 != 0)) by (bit_vector)
        requires
            x == x0 | x1 | x2 | x3 | x4 | x5 | x6 | x7,
            x0 == 0 || x0 == 1,
            x1 == 0 || x1 == 2,
            x2 == 0 || x2 == 4,
            x3 == 0 || x3 == 8,
            x4 == 0 || x4 == 16,
            x5 == 0 || x5 == 32,
            x6 == 0 || x6 == 64,
            x7 == 0 || x7 == 128,
    ;
    x
}

/// Byte `i` of the filter of the given keys.
spec fn is_filter_byte(keys: Seq<Seq<u8>>, bits: nat, i: int, x: u8) -> bool {
    forall|m: u8|
        m < 8 ==> ((#[trigger] (x & (1u8 << m))) != 0 <==> probed(keys, (8 * i + m) as nat, bits))
}

proof fn lemma_filter_byte(keys: Seq<Seq<u8>>, bits: nat, i: int)
    ensures
        exists|x: u8| is_filter_byte(keys, bits, i, x),
{
    let p = |m: int| probed(keys, (8 * i + m) as nat, bits);
    let x = lemma_byte_with_bits(p(0), p(1), p(2), p(3), p(4), p(5), p(6), p(7));
    assert forall|m: u8| m < 8 implies ((#[trigger] (x & (1u8 << m))) != 0 <==> probed(
        keys,
        (8 * i + m) as nat,
        bits,
    )) by {
        assert(p(m as int) == probed(keys, (8 * i + m) as nat, bits));
        assert(m == 0 || m == 1 || m == 2 || m == 3 || m == 4 || m == 5 || m == 6 || m == 7);
    }
    assert(is_filter_byte(keys, bits, i, x));
}

/// There is a filter for every list of keys.
pub proof fn lemma_filter_exists(keys: Seq<Seq<u8>>) -> (f: BloomModel)
    ensures
        f.built_from(keys),
        filter_fits(keys.len()) ==> f.addressable(),
{
    if keys.len() == 0 {
        BloomModel { bits: Seq::empty(), k: 0 }
    } else {
        let n = filter_bytes(keys.len());
        let bits = total_bits(n);
        let f = BloomModel {
            bits: Seq::new(n, |i: int| choose|x: u8| is_filter_byte(keys, bits, i, x)),
            k: NUM_HASHES as nat,
        };
        assert forall|b: nat| b < 8 * f.bits.len() implies (#[trigger] bit_set(f.bits, b)
            <==> probed(keys, b, bits)) by {
            let i = (b / 8) as int;
            let m = (b % 8) as u8;
            lemma_filter_byte(keys, bits, i);
            let x = f.bits[i];
            assert(is_filter_byte(keys, bits, i, x));
            assert(x & (1u8 << m) != 0 <==> probed(keys, (8 * i + m) as nat, bits));
        }
        f
    }
}

/// A filter never denies a key that it was built from.
pub proof fn law_no_false_negatives(f: BloomModel, keys: Seq<Seq<u8>>, key: Seq<u8>)
    requires
        f.built_from(keys),
        f.addressable(),
        keys.contains(key),
    ensures
        f.may_contain(key),
{
    let j = choose|j: int| 0 <= j < keys.len() && keys[j] == key;
    let bits = total_bits(f.bits.len());
    assert forall|i: nat| i < f.k implies bit_set(f.bits, #[trigger] probe(key, i, bits)) by {
        let b = probe(key, i, bits);
        assert(b < 8 * f.bits.len());
        assert(probe(keys[j], i, bits) == b);
        assert(probed(keys, b, bits));
    }
}

/// Encoding a filter and decoding the bytes gives the filter back.
pub proof fn law_bloom_round_trip(f: BloomModel)
    requires
        f.k <= u8::MAX,
    ensures
        BloomModel::of_image(f.image()) == f,
{
    assert(f.image().skip(1) =~= f.bits);
}

/// A hash of no bytes is where it starts.
pub proof fn law_hash_empty(seed: u32, prime: u32)
    ensures
        fnv1a(Seq::empty(), seed, prime) == seed,
{
}

/// Each further byte goes into a hash: the hash so far and the byte are combined bit by bit, and
/// the result is multiplied, modulo two to the thirty-second.
pub proof fn law_hash_push(data: Seq<u8>, b: u8, seed: u32, prime: u32)
    ensures
        fnv1a(data.push(b), seed, prime) as int == ((fnv1a(data, seed, prime) ^ (b as u32)) * prime)
            % 0x1_0000_0000,
{
    assert(data.push(b).drop_last() =~= data);
}

/// Multiplication by a number that has an inverse loses nothing.
proof fn lemma_multiply_injective(x: u32, y: u32, prime: u32, inverse: u32)
    requires
        (prime * inverse) % 0x1_0000_0000 == 1,
        (x * prime) % 0x1_0000_0000 == (y * prime) % 0x1_0000_0000,
    ensures
        x == y,
{
    lemma_unmultiply(x as int, prime as int, inverse as int);
    lemma_unmultiply(y as int, prime as int, inverse as int);
}

/// Multiplying by a number and then by its inverse changes nothing.
proof fn lemma_unmultiply(x: int, prime: int, inverse: int)
    requires
        0 <= x < 0x1_0000_0000,
        (prime * inverse) % 0x1_0000_0000 == 1,
    ensures
        (((x * prime) % 0x1_0000_0000) * inverse) % 0x1_0000_0000 == x,
{
    let m = 0x1_0000_0000int;
    lemma_mul_mod_noop_left(x * prime, inverse, m);
    lemma_mul_is_associative(x, prime, inverse);
    lemma_mul_mod_noop_right(x, prime * inverse, m);
    assert(x * 1 == x);
    lemma_small_mod(x as nat, m as nat);
}

/// Two hashes that have come apart, or that take different bytes next, come apart.
proof fn lemma_hash_step(x: u32, a: u8, y: u32, b: u8, prime: u32, inverse: u32)
    requires
        (prime * inverse) % 0x1_0000_0000 == 1,
        x != y && a == b || x == y && a != b,
    ensures
        ((x ^ (a as u32)) * prime) % 0x1_0000_0000 != ((y ^ (b as u32)) * prime) % 0x1_0000_0000,
{
    let p = x ^ (a as u32);
    let q = y ^ (b as u32);
    assert(p != q) by (bit_vector)
        requires
            p == x ^ (a as u32),
            q == y ^ (b as u32),
            x != y && a == b || x == y && a != b,
    ;
    if (p * prime) % 0x1_0000_0000 == (q * prime) % 0x1_0000_0000 {
        lemma_multiply_injective(p, q, prime, inverse);
    }
}

proof fn lemma_hash_changed(data: Seq<u8>, i: int, b: u8, seed: u32, prime: u32, inverse: u32)
    requires
        (prime * inverse) % 0x1_0000_0000 == 1,
        0 <= i < data.len(),
        b != data[i],
    ensures
        fnv1a(data.update(i, b), seed, prime) != fnv1a(data, seed, prime),
    decreases data.len(),
{
    let front = data.drop_last();
    let changed = data.update(i, b);
    assert(data =~= front.push(data.last()));
    law_hash_push(front, data.last(), seed, prime);
    if i == data.len() - 1 {
        assert(changed =~= front.push(b));
        law_hash_push(front, b, seed, prime);
        let h = fnv1a(front, seed, prime);
        lemma_hash_step(h, b, h, data.last(), prime, inverse);
    } else {
        assert(changed =~= front.update(i, b).push(data.last()));
        lemma_hash_changed(front, i, b, seed, prime, inverse);
        law_hash_push(front.update(i, b), data.last(), seed, prime);
        lemma_hash_step(
            fnv1a(front.update(i, b), seed, prime),
            data.last(),
            fnv1a(front, seed, prime),
            data.last(),
            prime,
            inverse,
        );
    }
}

/// Both hashes depend on every byte of a key: changing any one byte of a key of any length
/// changes each of them.
pub proof fn law_hash_every_byte(data: Seq<u8>, i: int, b: u8)
    requires
        0 <= i < data.len(),
        b != data[i],
    ensures
        fnv1a(data.update(i, b), SEED_1, PRIME_1) != fnv1a(data, SEED_1, PRIME_1),
        fnv1a(data.update(i, b), SEED_2, PRIME_2) != fnv1a(data, SEED_2, PRIME_2),
{
    lemma_hash_changed(data, i, b, SEED_1, PRIME_1, 0x359c449b);
    lemma_hash_changed(data, i, b, SEED_2, PRIME_2, 0xa5cb9243);
}

/// A filter can be made for any number of keys whose ten bits each 32-bit hashes can range over.
pub proof fn law_filter_fits(n: nat)
    requires
        10 * n + 7 < 0x1_0000_0000 - 64,
    ensures
        filter_fits(n),
{
    assert(usize::MAX >= 0xffff_ffff);
    let bytes = filter_bytes(n);
    assert(0 < bytes * 8 < 0x1_0000_0000);
}

/// A filter has ten bits for each of its keys and 64 at least, in whole bytes, and no more.
pub proof fn law_filter_size(f: BloomModel, keys: Seq<Seq<u8>>)
    requires
        f.built_from(keys),
        keys.len() > 0,
    ensures
        f.k == 7,
        8 * f.bits.len() >= 64,
        8 * f.bits.len() >= 10 * keys.len(),
        8 * f.bits.len() == 64 || 8 * f.bits.len() < 10 * keys.len() + 8,
{
}

/// Where double hashing puts the `i`th mark of a key in a filter of the given number of bits.
pub open spec fn mark(key: Seq<u8>, i: nat, bits: nat) -> int {
    let h1 = fnv1a(key, 0x811c9dc5, 0x01000193);
    let h2 = fnv1a(key, 0x9e3779b9, 0x85ebca6b);
    ((h1 + i * h2) % 0x1_0000_0000) % (bits as int)
}

/// A place is marked by one of the keys.
pub open spec fn marked(keys: Seq<Seq<u8>>, at: int, bits: nat) -> bool {
    exists|j: int, p: nat|
        0 <= j < keys.len() && p < 7 && #[trigger] mark(keys[j], p, bits) == at
}

/// A filter of keys admits a key exactly when each of the key's seven marks is a mark of one of
/// the filter's keys.
pub proof fn law_filter_answers(f: BloomModel, keys: Seq<Seq<u8>>, key: Seq<u8>, bits: nat)
    requires
        f.built_from(keys),
        0 < keys.len(),
        10 * keys.len() + 7 < 0x1_0000_0000 - 64,
        bits == 8 * f.bits.len(),
    ensures
        f.may_contain(key) <==> forall|i: nat|
            i < 7 ==> marked(keys, #[trigger] mark(key, i, bits), bits),
{
    law_filter_size(f, keys);
    assert(total_bits(f.bits.len()) == bits);
    assert forall|i: nat| i < 7 implies (bit_set(f.bits, #[trigger] probe(key, i, bits))
        <==> marked(keys, mark(key, i, bits), bits)) by {
        let b = probe(key, i, bits);
        assert(b == mark(key, i, bits));
        assert(bit_set(f.bits, b) <==> probed(keys, b, bits));
        if probed(keys, b, bits) {
            let (j, p) = choose|j: int, p: nat|
                0 <= j < keys.len() && p < NUM_HASHES && #[trigger] probe(keys[j], p, bits) == b;
            assert(mark(keys[j], p, bits) == b);
        }
        if marked(keys, b as int, bits) {
            let (j, p) = choose|j: int, p: nat|
                0 <= j < keys.len() && p < 7 && #[trigger] mark(keys[j], p, bits) == b;
            assert(probe(keys[j], p, bits) == b);
        }
    }
    if f.may_contain(key) {
        assert forall|i: nat| i < 7 implies marked(keys, #[trigger] mark(key, i, bits), bits) by {
            assert(bit_set(f.bits, probe(key, i, bits)));
        }
    } else {
        let i = choose|i: nat|
            i < f.k && !bit_set(f.bits, #[trigger] probe(key, i, total_bits(f.bits.len())));
        assert(!marked(keys, mark(key, i, bits), bits));
    }
}

/// Bit `b` of a bit set is a binary digit of byte `b / 8`, counted from the lowest one.
pub proof fn law_bit_order(bits: Seq<u8>, b: nat)
    ensures
        bit_set(bits, b) <==> (bits[(b / 8) as int] as int / pow2(b % 8) as int) % 2 == 1,
{
    let x = bits[(b / 8) as int];
    lemma2_to64();
    assert((x & (1u8 << 0u8) != 0 <==> (x / 1) % 2 == 1) && (x & (1u8 << 1u8) != 0 <==> (x / 2) % 2
        == 1) && (x & (1u8 << 2u8) != 0 <==> (x / 4) % 2 == 1) && (x & (1u8 << 3u8) != 0 <==> (x
        / 8) % 2 == 1) && (x & (1u8 << 4u8) != 0 <==> (x / 16) % 2 == 1) && (x & (1u8 << 5u8) != 0
        <==> (x / 32) % 2 == 1) && (x & (1u8 << 6u8) != 0 <==> (x / 64) % 2 == 1) && (x & (1u8
        << 7u8) != 0 <==> (x / 128) % 2 == 1)) by (bit_vector);
    let m = b % 8;
    assert(m == 0 || m == 1 || m == 2 || m == 3 || m == 4 || m == 5 || m == 6 || m == 7);
}

/// A filter's bytes are the number of its probes and then its bit set; decoding any bytes and
/// encoding the filter gives the bytes back.
pub proof fn law_bloom_layout(f: BloomModel, data: Seq<u8>)
    ensures
        f.image().len() == 1 + f.bits.len(),
        f.k <= 255 ==> f.image()[0] == f.k,
        forall|i: int| 0 <= i < f.bits.len() ==> f.image()[i + 1] == #[trigger] f.bits[i],
        data.len() > 0 ==> BloomModel::of_image(data).image() == data,
        data.len() == 0 ==> BloomModel::of_image(data).bits.len() == 0 && BloomModel::of_image(
            data,
        ).k == 0,
{
    if data.len() > 0 {
        assert(seq![data[0]] + data.skip(1) =~= data);
    }
}

/// A filter with bits and probes admits a key exactly when the bit at each of the key's marks is
/// set; one without bits or without probes admits every key.
pub proof fn law_filter_probes(f: BloomModel, key: Seq<u8>, bits: nat)
    requires
        bits == 8 * f.bits.len(),
        bits < 0x1_0000_0000,
    ensures
        f.addressable(),
        bits == 0 || f.k == 0 ==> f.may_contain(key),
        bits > 0 && f.k > 0 ==> (f.may_contain(key) <==> forall|i: nat|
            i < f.k ==> bit_set(f.bits, (#[trigger] mark(key, i, bits)) as nat)),
{
    if bits > 0 && f.k > 0 {
        assert(total_bits(f.bits.len()) == bits);
        assert forall|i: nat| #[trigger] mark(key, i, bits) == probe(key, i, bits) by {}
        assert forall|i: nat| #[trigger] probe(key, i, bits) == mark(key, i, bits) by {}
        if f.may_contain(key) {
            assert forall|i: nat| i < f.k implies bit_set(
                f.bits,
                (#[trigger] mark(key, i, bits)) as nat,
            ) by {
                assert(bit_set(f.bits, probe(key, i, bits)));
            }
        }
    }
}

/// A list of slices stands for as many keys in the same order.
pub proof fn law_keys_of(keys: Seq<&[u8]>, i: int)
    ensures
        keys_of(keys).len() == keys.len(),
        0 <= i < keys.len() ==> keys_of(keys)[i] == keys[i]@,
{
}

} // verus!
