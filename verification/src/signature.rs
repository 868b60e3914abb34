//! 256-bit binary signatures and the distance between them.

use vstd::prelude::*;
use vstd::set_lib::set_int_range;

use crate::bits::{
    byte_bit, byte_bits, count_true, differing, lemma_count_true_bound,
    lemma_count_true_covered, lemma_count_true_is_size, lemma_count_true_none,
    lemma_count_true_split, lemma_count_true_zero,
};

verus! {

/// A 256-bit binary signature (32 bytes). Core type used throughout primd.
#[derive(Clone, Copy, Debug, PartialEq, Eq)]
pub struct BinarySignature(pub [u8; 32]);

/// The bits of `bytes`, byte by byte, each byte least significant bit first.
pub open spec fn bits_of_bytes(bytes: Seq<u8>) -> Seq<bool> {
    Seq::new(8 * bytes.len(), |i: int| byte_bit(bytes[i / 8], i % 8))
}

/// The number of bit positions at which two signatures differ.
pub open spec fn hamming(a: BinarySignature, b: BinarySignature) -> nat {
    count_true(differing(a.bits(), b.bits()))
}

impl BinarySignature {
    pub const BITS: usize = 256;

    pub const BYTES: usize = 32;

    /// The 256 bits of the signature.
    pub open spec fn bits(self) -> Seq<bool> {
        bits_of_bytes(self.0@)
    }

    /// Bit `k` of the signature.
    pub fn bit(&self, k: usize) -> (b: bool)
        requires
            k < 256,
        ensures
            b == self.bits()[k as int],
    {
        let shift: u8 = (k % 8) as u8;
        ((self.0[k / 8] >> shift) & 1) == 1
    }

    /// Hamming distance to another signature.
    pub fn hamming_distance(&self, other: &Self) -> (dist: u32)
        ensures
            dist == hamming(*self, *other),
            dist <= 256,
    {
        let ghost diff = differing(self.bits(), other.bits());
        let mut dist: u32 = 0;
        let mut i: usize = 0;
        while i < 32
            invariant
                i <= 32,
                diff == differing(self.bits(), other.bits()),
                dist == count_true(diff.take(8 * i)),
                dist <= 8 * i,
            decreases 32 - i,
        {
            let x: u8 = self.0[i] ^ other.0[i];
            proof {
                let (a, b) = (self.0@[i as int], other.0@[i as int]);
                assert forall|j: int| 0 <= j < 8 implies byte_bits(x)[j] == diff.subrange(
                    8 * i,
                    8 * i + 8,
                )[j] by {
                    let k = j as u8;
                    assert(((a ^ b) >> k) & 1 == 1 <==> ((a >> k) & 1 == 1) != ((b >> k) & 1 == 1))
                        by (bit_vector)
                        requires
                            k < 8,
                    ;
                    assert((8 * i + j) / 8 == i && (8 * i + j) % 8 == j);
                }
                assert(byte_bits(x) =~= diff.subrange(8 * i, 8 * i + 8));
                lemma_count_true_split(diff, 8 * i, 8 * i + 8);
                lemma_count_true_bound(byte_bits(x));
            }
            dist = dist + x.count_ones();
            i = i + 1;
        }
        assert(diff.take(256) =~= diff);
        dist
    }
}

/// A signature is at distance zero from itself.
pub proof fn lemma_hamming_identity(a: BinarySignature)
    ensures
        hamming(a, a) == 0,
{
    lemma_count_true_none(differing(a.bits(), a.bits()));
}

/// Only equal signatures are at distance zero.
pub proof fn lemma_hamming_separates(a: BinarySignature, b: BinarySignature)
    ensures
        hamming(a, b) == 0 <==> a == b,
{
    if a == b {
        lemma_hamming_identity(a);
    } else if hamming(a, b) == 0 {
        let diff = differing(a.bits(), b.bits());
        lemma_count_true_zero(diff);
        assert forall|i: int| 0 <= i < 32 implies a.0@[i] == b.0@[i] by {
            let (x, y) = (a.0@[i], b.0@[i]);
            assert forall|j: int| 0 <= j < 8 implies byte_bit(x, j) == byte_bit(y, j) by {
                assert(!diff[8 * i + j]);
                assert((8 * i + j) / 8 == i && (8 * i + j) % 8 == j);
            }
            assert(byte_bit(x, 0) == byte_bit(y, 0));
            assert(byte_bit(x, 1) == byte_bit(y, 1));
            assert(byte_bit(x, 2) == byte_bit(y, 2));
            assert(byte_bit(x, 3) == byte_bit(y, 3));
            assert(byte_bit(x, 4) == byte_bit(y, 4));
            assert(byte_bit(x, 5) == byte_bit(y, 5));
            assert(byte_bit(x, 6) == byte_bit(y, 6));
            assert(byte_bit(x, 7) == byte_bit(y, 7));
            assert(x == y) by (bit_vector)
                requires
                    ((x >> 0u8) & 1 == 1) == ((y >> 0u8) & 1 == 1),
                    ((x >> 1u8) & 1 == 1) == ((y >> 1u8) & 1 == 1),
                    ((x >> 2u8) & 1 == 1) == ((y >> 2u8) & 1 == 1),
                    ((x >> 3u8) & 1 == 1) == ((y >> 3u8) & 1 == 1),
                    ((x >> 4u8) & 1 == 1) == ((y >> 4u8) & 1 == 1),
                    ((x >> 5u8) & 1 == 1) == ((y >> 5u8) & 1 == 1),
                    ((x >> 6u8) & 1 == 1) == ((y >> 6u8) & 1 == 1),
                    ((x >> 7u8) & 1 == 1) == ((y >> 7u8) & 1 == 1),
            ;
        }
        assert(a.0@ =~= b.0@);
        assert(a.0 =~= b.0);
    }
}

/// The distance does not depend on the order of its arguments.
pub proof fn lemma_hamming_symmetric(a: BinarySignature, b: BinarySignature)
    ensures
        hamming(a, b) == hamming(b, a),
{
    assert(differing(a.bits(), b.bits()) =~= differing(b.bits(), a.bits()));
}

/// The way from `a` to `c` is no longer than the way through `b`.
pub proof fn lemma_hamming_triangle(a: BinarySignature, b: BinarySignature, c: BinarySignature)
    ensures
        hamming(a, c) <= hamming(a, b) + hamming(b, c),
{
    lemma_count_true_covered(
        differing(a.bits(), c.bits()),
        differing(a.bits(), b.bits()),
        differing(b.bits(), c.bits()),
    );
}

/// No two signatures are further apart than their number of bits.
pub proof fn lemma_hamming_bound(a: BinarySignature, b: BinarySignature)
    ensures
        hamming(a, b) <= 256,
{
    lemma_count_true_bound(differing(a.bits(), b.bits()));
}

/// The bits determine the signature.
pub proof fn lemma_bits_injective(a: BinarySignature, b: BinarySignature)
    requires
        a.bits() == b.bits(),
    ensures
        a == b,
{
    lemma_count_true_none(differing(a.bits(), b.bits()));
    lemma_hamming_separates(a, b);
}

/// The byte with bit `j` set.
fn with_bit(b: u8, j: u8) -> (r: u8)
    requires
        j < 8,
    ensures
        forall|n: int| 0 <= n < 8 ==> #[trigger] byte_bit(r, n) == (n == j || byte_bit(b, n)),
{
    let r: u8 = b | (1u8 << j);
    proof {
        assert forall|n: int| 0 <= n < 8 implies #[trigger] byte_bit(r, n) == (n == j || byte_bit(
            b,
            n,
        )) by {
            let m = n as u8;
            assert(((b | (1u8 << j)) >> m) & 1 == 1 <==> m == j || (b >> m) & 1 == 1)
                by (bit_vector)
                requires
                    m < 8,
                    j < 8,
            ;
        }
    }
    r
}

/// The byte whose bits are the eight given ones from `from` on, least
/// significant first.
fn byte_from_bits(bits: &[bool], from: usize) -> (b: u8)
    requires
        from + 8 <= bits@.len() <= 256,
    ensures
        forall|n: int| 0 <= n < 8 ==> #[trigger] byte_bit(b, n) == bits@[from + n],
{
    let mut b: u8 = 0;
    let mut j: u8 = 0;
    proof {
        assert forall|n: int| 0 <= n < 8 implies !#[trigger] byte_bit(b, n) by {
            let m = n as u8;
            assert(!((0u8 >> m) & 1 == 1)) by (bit_vector);
        }
    }
    while j < 8
        invariant
            j <= 8,
            from + 8 <= bits@.len() <= 256,
            forall|n: int|
                0 <= n < 8 ==> #[trigger] byte_bit(b, n) == (n < j && bits@[from + n]),
        decreases 8 - j,
    {
        if bits[from + j as usize] {
            b = with_bit(b, j);
        }
        j = j + 1;
    }
    b
}

/// The signature with the given 256 bits.
pub fn signature_from_bits(bits: &[bool]) -> (sig: BinarySignature)
    requires
        bits@.len() == 256,
    ensures
        sig.bits() == bits@,
{
    let mut bytes: [u8; 32] = [0; 32];
    let mut i: usize = 0;
    while i < 32
        invariant
            i <= 32,
            bits@.len() == 256,
            forall|k: int, n: int|
                0 <= k < i && 0 <= n < 8 ==> #[trigger] byte_bit(bytes@[k], n) == bits@[8 * k + n],
        decreases 32 - i,
    {
        let b: u8 = byte_from_bits(bits, 8 * i);
        bytes[i] = b;
        i = i + 1;
    }
    let sig = BinarySignature(bytes);
    assert forall|j: int| 0 <= j < 256 implies sig.bits()[j] == bits@[j] by {
        assert(8 * (j / 8) + j % 8 == j);
        assert(byte_bit(bytes@[j / 8], j % 8) == bits@[8 * (j / 8) + j % 8]);
    }
    assert(sig.bits() =~= bits@);
    sig
}

/// Bit `k` of every signature.
pub open spec fn layer_of(sigs: Seq<BinarySignature>, k: int) -> Seq<bool> {
    sigs.map_values(|s: BinarySignature| s.bits()[k])
}

/// How many of the signatures have a bit at position `k`.
fn bit_count(sigs: &[BinarySignature], k: usize) -> (n: usize)
    requires
        k < 256,
    ensures
        n == count_true(layer_of(sigs@, k as int)),
{
    let ghost bits = layer_of(sigs@, k as int);
    let mut n: usize = 0;
    let mut i: usize = 0;
    while i < sigs.len()
        invariant
            k < 256,
            i <= sigs@.len(),
            bits == layer_of(sigs@, k as int),
            n == count_true(bits.take(i as int)),
            n <= i,
        decreases sigs@.len() - i,
    {
        assert(bits.take(i + 1).drop_last() =~= bits.take(i as int));
        if sigs[i].bit(k) {
            n = n + 1;
        }
        i = i + 1;
    }
    assert(bits.take(i as int) =~= bits);
    n
}

/// How many of the signatures have a bit, position by position.
pub fn bit_counts(sigs: &[BinarySignature]) -> (counts: Vec<usize>)
    ensures
        counts@.len() == 256,
        forall|k: int|
            0 <= k < 256 ==> #[trigger] counts@[k] == count_true(layer_of(sigs@, k)),
{
    let mut counts: Vec<usize> = Vec::new();
    let mut k: usize = 0;
    while k < 256
        invariant
            k <= 256,
            counts@.len() == k,
            forall|j: int|
                0 <= j < k ==> #[trigger] counts@[j] == count_true(layer_of(sigs@, j)),
        decreases 256 - k,
    {
        counts.push(bit_count(sigs, k));
        k = k + 1;
    }
    counts
}

/// Bit `k` of a signature is bit `k % 8` of byte `k / 8`, the least significant
/// bit of a byte being the first.
pub proof fn lemma_bits_are_those_of_the_bytes(a: BinarySignature, k: int)
    requires
        0 <= k < 256,
    ensures
        a.bits().len() == 256,
        a.bits()[k] == ((a.0@[k / 8] >> ((k % 8) as u8)) & 1u8 == 1u8),
{
}

/// The distance of two signatures is the number of places at which their bits
/// differ.
pub proof fn lemma_hamming_counts_differences(a: BinarySignature, b: BinarySignature)
    ensures
        hamming(a, b) == set_int_range(0, 256).filter(
            |k: int|
                ((a.0@[k / 8] >> ((k % 8) as u8)) & 1u8 == 1u8) != ((b.0@[k / 8] >> ((k
                    % 8) as u8)) & 1u8 == 1u8),
        ).len(),
{
    let s = differing(a.bits(), b.bits());
    lemma_count_true_is_size(s);
    assert(set_int_range(0, s.len() as int).filter(|i: int| s[i]) =~= set_int_range(0, 256).filter(
        |k: int|
            ((a.0@[k / 8] >> ((k % 8) as u8)) & 1u8 == 1u8) != ((b.0@[k / 8] >> ((k % 8) as u8))
                & 1u8 == 1u8),
    ));
}

} // verus!
