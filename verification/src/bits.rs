//! Bits of bytes and words as sequences of booleans, and how to count them.
//!
//! Every contract of the crate that speaks of a population count, a rank, a
//! selected position or a Hamming distance is stated over [`count_true`].

use vstd::bytes::{spec_u32_to_le_bytes, spec_u64_to_le_bytes};
use vstd::endian::{endianness, Endian};
use vstd::prelude::*;
use vstd::set_lib::{lemma_int_range, set_int_range};
use vstd::slice::slice_to_vec;

verus! {

/// How many elements of `s` are `true`.
pub open spec fn count_true(s: Seq<bool>) -> nat
    decreases s.len(),
{
    if s.len() == 0 {
        0
    } else {
        count_true(s.drop_last()) + if s.last() {
            1nat
        } else {
            0nat
        }
    }
}

/// Bit `j` of a byte, bit 0 being the least significant one.
pub open spec fn byte_bit(b: u8, j: int) -> bool {
    (b >> (j as u8)) & 1 == 1
}

/// Bit `j` of a word, bit 0 being the least significant one.
pub open spec fn word_bit(w: u64, j: int) -> bool {
    (w >> (j as u64)) & 1 == 1
}

/// The eight bits of a byte, least significant first.
pub open spec fn byte_bits(b: u8) -> Seq<bool> {
    Seq::new(8, |j: int| byte_bit(b, j))
}

/// The sixty-four bits of a word, least significant first.
pub open spec fn word_bits(w: u64) -> Seq<bool> {
    Seq::new(64, |j: int| word_bit(w, j))
}

/// Where two sequences of the same length differ.
pub open spec fn differing(a: Seq<bool>, b: Seq<bool>) -> Seq<bool> {
    Seq::new(a.len(), |i: int| a[i] != b[i])
}

/// Every element negated.
pub open spec fn negated(s: Seq<bool>) -> Seq<bool> {
    Seq::new(s.len(), |i: int| !s[i])
}

/// `u8::count_ones` of std: the number of ones in the binary representation
/// of the byte.
pub assume_specification[ u8::count_ones ](b: u8) -> (r: u32)
    ensures
        r == count_true(byte_bits(b)),
;

/// `u64::count_ones` of std: the number of ones in the binary representation
/// of the word.
pub assume_specification[ u64::count_ones ](w: u64) -> (r: u32)
    ensures
        r == count_true(word_bits(w)),
;

pub proof fn lemma_count_true_bound(s: Seq<bool>)
    ensures
        count_true(s) <= s.len(),
    decreases s.len(),
{
    if s.len() > 0 {
        lemma_count_true_bound(s.drop_last());
    }
}

pub proof fn lemma_count_true_concat(a: Seq<bool>, b: Seq<bool>)
    ensures
        count_true(a + b) == count_true(a) + count_true(b),
    decreases b.len(),
{
    if b.len() == 0 {
        assert(a + b =~= a);
    } else {
        lemma_count_true_concat(a, b.drop_last());
        assert((a + b).drop_last() =~= a + b.drop_last());
    }
}

/// Counting up to `j` is counting up to `i` and from there to `j`.
pub proof fn lemma_count_true_split(s: Seq<bool>, i: int, j: int)
    requires
        0 <= i <= j <= s.len(),
    ensures
        count_true(s.take(j)) == count_true(s.take(i)) + count_true(s.subrange(i, j)),
{
    assert(s.take(j) =~= s.take(i) + s.subrange(i, j));
    lemma_count_true_concat(s.take(i), s.subrange(i, j));
}

/// One more element.
pub proof fn lemma_count_true_step(s: Seq<bool>, i: int)
    requires
        0 <= i < s.len(),
    ensures
        count_true(s.take(i + 1)) == count_true(s.take(i)) + if s[i] {
            1nat
        } else {
            0nat
        },
{
    assert(s.take(i + 1).drop_last() =~= s.take(i));
}

pub proof fn lemma_count_true_negated(s: Seq<bool>)
    ensures
        count_true(s) + count_true(negated(s)) == s.len(),
    decreases s.len(),
{
    if s.len() > 0 {
        lemma_count_true_negated(s.drop_last());
        assert(negated(s).drop_last() =~= negated(s.drop_last()));
    }
}

pub proof fn lemma_count_true_none(s: Seq<bool>)
    requires
        forall|i: int| 0 <= i < s.len() ==> !s[i],
    ensures
        count_true(s) == 0,
    decreases s.len(),
{
    if s.len() > 0 {
        lemma_count_true_none(s.drop_last());
    }
}

/// A count of zero means that no element is `true`.
pub proof fn lemma_count_true_zero(s: Seq<bool>)
    requires
        count_true(s) == 0,
    ensures
        forall|i: int| 0 <= i < s.len() ==> !s[i],
    decreases s.len(),
{
    if s.len() > 0 {
        lemma_count_true_zero(s.drop_last());
        assert forall|i: int| 0 <= i < s.len() implies !s[i] by {
            if i < s.len() - 1 {
                assert(s.drop_last()[i] == s[i]);
            }
        }
    }
}

/// If an element of `a` is `true` only where one of `b` or `c` is, then `a`
/// has no more of them than `b` and `c` together.
pub proof fn lemma_count_true_covered(a: Seq<bool>, b: Seq<bool>, c: Seq<bool>)
    requires
        a.len() == b.len() == c.len(),
        forall|i: int| 0 <= i < a.len() && a[i] ==> b[i] || c[i],
    ensures
        count_true(a) <= count_true(b) + count_true(c),
    decreases a.len(),
{
    if a.len() > 0 {
        lemma_count_true_covered(a.drop_last(), b.drop_last(), c.drop_last());
    }
}

/// Whether machine words have 32 bits.
pub open spec fn narrow_words() -> bool {
    usize::MAX == 0xffff_ffff
}

/// The bytes of a number in the order of the machine, given those from the least
/// significant on.
pub open spec fn in_machine_order(bytes: Seq<u8>) -> Seq<u8> {
    match endianness() {
        Endian::Little => bytes,
        Endian::Big => bytes.reverse(),
    }
}

/// The bytes of a number of 32 bits in the order of the machine.
pub open spec fn u32_bytes(n: u32) -> Seq<u8> {
    in_machine_order(spec_u32_to_le_bytes(n))
}

/// The bytes of a number of 64 bits in the order of the machine.
pub open spec fn u64_bytes(n: u64) -> Seq<u8> {
    in_machine_order(spec_u64_to_le_bytes(n))
}

/// The bytes of a machine word in the order of the machine.
pub open spec fn usize_bytes(n: usize) -> Seq<u8> {
    if narrow_words() {
        u32_bytes(n as u32)
    } else {
        u64_bytes(n as u64)
    }
}

/// `u32::to_ne_bytes` of std: the bytes of the number in the order of the machine,
/// for which `endianness` of vstd stands.
#[verifier::external_body]
pub(crate) fn u32_to_bytes(n: u32) -> (bytes: [u8; 4])
    ensures
        bytes@ == u32_bytes(n),
{
    n.to_ne_bytes()
}

/// `u64::to_ne_bytes` of std: the bytes of the number in the order of the machine,
/// for which `endianness` of vstd stands.
#[verifier::external_body]
pub(crate) fn u64_to_bytes(n: u64) -> (bytes: [u8; 8])
    ensures
        bytes@ == u64_bytes(n),
{
    n.to_ne_bytes()
}

/// The bytes of a machine word in the order of the machine.
pub(crate) fn usize_to_bytes(n: usize) -> (bytes: Vec<u8>)
    ensures
        bytes@ == usize_bytes(n),
{
    if usize::MAX as u64 == 0xffff_ffff {
        slice_to_vec(u32_to_bytes(n as u32).as_slice())
    } else {
        slice_to_vec(u64_to_bytes(n as u64).as_slice())
    }
}

/// As much of a number as fits a machine word.
pub open spec fn low_word(n: u64) -> int {
    if narrow_words() {
        n as int % 0x1_0000_0000
    } else {
        n as int
    }
}

/// As much of a number as fits a machine word.
pub(crate) fn to_low_word(n: u64) -> (w: usize)
    ensures
        w == low_word(n),
{
    if usize::MAX as u64 == 0xffff_ffff {
        (n % 0x1_0000_0000) as usize
    } else {
        n as usize
    }
}

/// Setting an element that is not `true` adds one.
pub proof fn lemma_count_true_set(s: Seq<bool>, i: int)
    requires
        0 <= i < s.len(),
        !s[i],
    ensures
        count_true(s.update(i, true)) == count_true(s) + 1,
    decreases s.len(),
{
    let after = s.update(i, true);
    if i == s.len() - 1 {
        assert(after.drop_last() =~= s.drop_last());
    } else {
        lemma_count_true_set(s.drop_last(), i);
        assert(after.drop_last() =~= s.drop_last().update(i, true));
    }
}

/// What is counted is how many places hold `true`.
pub proof fn lemma_count_true_is_size(s: Seq<bool>)
    ensures
        count_true(s) == set_int_range(0, s.len() as int).filter(|i: int| s[i]).len(),
    decreases s.len(),
{
    let n = s.len() as int;
    let places = set_int_range(0, n).filter(|i: int| s[i]);
    lemma_int_range(0, n);
    if n == 0 {
        assert(places =~= Set::empty());
    } else {
        let init = s.drop_last();
        let before = set_int_range(0, n - 1).filter(|i: int| init[i]);
        lemma_count_true_is_size(init);
        lemma_int_range(0, n - 1);
        if s.last() {
            assert(places =~= before.insert(n - 1));
        } else {
            assert(places =~= before);
        }
    }
}

} // verus!
