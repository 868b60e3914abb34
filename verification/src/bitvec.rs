//! Bit-vector with `rank` and `select` primitives.
//!
//! Two levels of prefix sums are kept beside the packed bits: the number of
//! ones before every 512-bit block, and, for every 64-bit subblock, the
//! number of ones between the start of its block and the subblock. A rank is
//! then two table lookups and the population count of part of one word. A
//! select scans the block table and then the words from the block that it
//! found.

use vstd::prelude::*;
use vstd::set_lib::set_int_range;

use crate::bits::{
    count_true, lemma_count_true_bound, lemma_count_true_concat, lemma_count_true_is_size,
    lemma_count_true_negated, lemma_count_true_none, lemma_count_true_split,
    lemma_count_true_step, negated, word_bit, word_bits,
};

verus! {

const SUBBLOCK_BITS: usize = 64;

const BLOCK_BITS: usize = 512;

const SUBBLOCKS_PER_BLOCK: usize = 8;

/// The first `bit_len` bits of `words`, each word least significant bit
/// first.
pub open spec fn packed_bits(words: Seq<u64>, bit_len: nat) -> Seq<bool> {
    Seq::new(bit_len, |i: int| word_bit(words[i / 64], i % 64))
}

/// Position `p` holds the `j`-th `true` element of `s`, counting from one.
pub open spec fn is_select(s: Seq<bool>, j: int, p: int) -> bool {
    &&& 0 <= p < s.len()
    &&& s[p]
    &&& count_true(s.take(p)) + 1 == j
}

/// The number of `true` elements before position `i`, or of all of them when
/// `i` is past the end.
pub open spec fn rank(s: Seq<bool>, i: int) -> nat {
    count_true(s.take(if i <= s.len() {
        i
    } else {
        s.len() as int
    }))
}

/// Bit-vector with rank/select.
///
/// Build via [`BitVector::new`] from packed bits (least significant first
/// within each `u64`) and the logical bit count.
#[derive(Clone, Debug)]
pub struct BitVector {
    words: Vec<u64>,
    bit_len: usize,
    /// `block_ranks[k]` is the number of ones before bit `512 * k`; the last
    /// entry holds the total.
    block_ranks: Vec<u32>,
    /// `subblock_ranks[k]` is the number of ones from the start of the
    /// enclosing block to bit `64 * k`.
    subblock_ranks: Vec<u16>,
}

impl View for BitVector {
    type V = Seq<bool>;

    closed spec fn view(&self) -> Seq<bool> {
        packed_bits(self.words@, self.bit_len as nat)
    }
}

/// What the two tables hold for `words` and `bit_len`.
spec fn indexed(
    words: Seq<u64>,
    bit_len: nat,
    block_ranks: Seq<u32>,
    subblock_ranks: Seq<u16>,
) -> bool {
    let s = packed_bits(words, bit_len);
    &&& block_ranks.len() == (bit_len + 511) / 512 + 1
    &&& subblock_ranks.len() == (bit_len + 63) / 64
    &&& forall|k: int| 0 <= k < block_ranks.len() ==> block_ranks[k] == rank(s, 512 * k)
    &&& forall|k: int|
        0 <= k < subblock_ranks.len() ==> rank(s, 512 * (k / 8)) + subblock_ranks[k] == rank(
            s,
            64 * k,
        )
}

/// The mask that keeps the lowest `n` bits.
fn low_mask(n: u32) -> (m: u64)
    requires
        n <= 64,
    ensures
        forall|j: int| 0 <= j < 64 ==> #[trigger] word_bit(m, j) == (j < n),
{
    let m: u64 = if n == 64 {
        u64::MAX
    } else {
        assert((1u64 << n) >= 1) by (bit_vector)
            requires
                n < 64,
        ;
        (1u64 << n) - 1
    };
    proof {
        assert forall|j: int| 0 <= j < 64 implies word_bit(m, j) == (j < n) by {
            let i = j as u64;
            if n == 64 {
                assert((0xffff_ffff_ffff_ffffu64 >> i) & 1 == 1) by (bit_vector)
                    requires
                        i < 64,
                ;
            } else {
                let k = n as u64;
                assert((1u64 << n) == (1u64 << k)) by (bit_vector)
                    requires
                        n < 64,
                        k == n as u64,
                ;
                assert(((((1u64 << k) - 1) as u64) >> i) & 1 == 1 <==> i < k) by (bit_vector)
                    requires
                        i < 64,
                        k < 64,
                ;
            }
        }
    }
    m
}

proof fn lemma_and_bits(w: u64, m: u64)
    ensures
        forall|j: int|
            0 <= j < 64 ==> #[trigger] word_bit(w & m, j) == (word_bit(w, j) && word_bit(m, j)),
{
    assert forall|j: int| 0 <= j < 64 implies word_bit(w & m, j) == (word_bit(w, j) && word_bit(
        m,
        j,
    )) by {
        let i = j as u64;
        assert(((w & m) >> i) & 1 == 1 <==> (w >> i) & 1 == 1 && (m >> i) & 1 == 1) by (bit_vector);
    }
}

proof fn lemma_or_bits(w: u64, i: int)
    requires
        0 <= i < 64,
    ensures
        forall|j: int|
            0 <= j < 64 ==> #[trigger] word_bit(w | (1u64 << (i as usize)), j) == (j == i
                || word_bit(w, j)),
{
    let n = i as u64;
    let u = i as usize;
    assert(1u64 << u == 1u64 << n) by (bit_vector)
        requires
            n == u as u64,
            u < 64,
    ;
    assert forall|j: int| 0 <= j < 64 implies #[trigger] word_bit(w | (1u64 << u), j) == (j == i
        || word_bit(w, j)) by {
        let m = j as u64;
        assert(((w | (1u64 << n)) >> m) & 1 == 1 <==> m == n || (w >> m) & 1 == 1) by (bit_vector)
            requires
                m < 64,
                n < 64,
        ;
    }
}

proof fn lemma_not_bits(w: u64)
    ensures
        forall|j: int| 0 <= j < 64 ==> word_bit(!w, j) == !word_bit(w, j),
{
    assert forall|j: int| 0 <= j < 64 implies word_bit(!w, j) == !word_bit(w, j) by {
        let i = j as u64;
        assert((!w >> i) & 1 == 1 <==> !((w >> i) & 1 == 1)) by (bit_vector)
            requires
                i < 64,
        ;
    }
}

/// A word whose low `n` bits are `s[from..from + n]` and whose other bits are
/// clear has as many ones as that part of `s`.
proof fn lemma_word_of_part(w: u64, s: Seq<bool>, from: int, n: int)
    requires
        0 <= from,
        0 <= n <= 64,
        from + n <= s.len(),
        forall|j: int| 0 <= j < 64 ==> word_bit(w, j) == (j < n && s[from + j]),
    ensures
        count_true(word_bits(w)) == count_true(s.subrange(from, from + n)),
{
    let rest = Seq::new((64 - n) as nat, |j: int| false);
    assert(word_bits(w) =~= s.subrange(from, from + n) + rest);
    lemma_count_true_concat(s.subrange(from, from + n), rest);
    lemma_count_true_none(rest);
}

/// The low bits of word `k` count what lies between two positions.
proof fn lemma_masked_word(words: Seq<u64>, bit_len: nat, k: int, mask: u64, n: int)
    requires
        bit_len <= 64 * words.len(),
        0 <= k,
        0 <= n <= 64,
        64 * k + n <= bit_len,
        k < words.len(),
        forall|j: int| 0 <= j < 64 ==> #[trigger] word_bit(mask, j) == (j < n),
    ensures
        rank(packed_bits(words, bit_len), 64 * k + n) == rank(packed_bits(words, bit_len), 64 * k)
            + count_true(word_bits(words[k] & mask)),
{
    let s = packed_bits(words, bit_len);
    let w = words[k] & mask;
    lemma_and_bits(words[k], mask);
    assert forall|j: int| 0 <= j < 64 implies word_bit(w, j) == (j < n && s[64 * k + j]) by {
        if j < n {
            assert((64 * k + j) / 64 == k && (64 * k + j) % 64 == j);
        }
    }
    lemma_word_of_part(w, s, 64 * k, n);
    lemma_count_true_split(s, 64 * k, 64 * k + n);
}

/// Ranks grow with the position.
pub proof fn lemma_rank_monotone(s: Seq<bool>, i: int, j: int)
    requires
        0 <= i <= j,
    ensures
        rank(s, i) <= rank(s, j),
{
    let a = if i <= s.len() {
        i
    } else {
        s.len() as int
    };
    let b = if j <= s.len() {
        j
    } else {
        s.len() as int
    };
    lemma_count_true_split(s, a, b);
}

/// There is at most one `j`-th one.
pub proof fn lemma_select_unique(s: Seq<bool>, j: int, p: int, q: int)
    requires
        is_select(s, j, p),
        is_select(s, j, q),
    ensures
        p == q,
{
    if p < q {
        lemma_count_true_step(s, p);
        lemma_rank_monotone(s, p + 1, q);
    } else if q < p {
        lemma_count_true_step(s, q);
        lemma_rank_monotone(s, q + 1, p);
    }
}

/// Every set position is the one that selecting its rank gives.
pub proof fn lemma_rank_select_inverse(s: Seq<bool>, p: int)
    requires
        0 <= p < s.len(),
        s[p],
    ensures
        is_select(s, rank(s, p + 1) as int, p),
        rank(s, p + 1) == rank(s, p) + 1,
{
    lemma_count_true_step(s, p);
}

/// The `j`-th one has `j` ones up to and including it.
pub proof fn lemma_select_rank_inverse(s: Seq<bool>, j: int, p: int)
    requires
        is_select(s, j, p),
    ensures
        rank(s, p) == j - 1,
        rank(s, p + 1) == j,
{
    lemma_count_true_step(s, p);
}

/// Ones and zeros before a position add up to the position.
pub proof fn lemma_rank_complement(s: Seq<bool>, i: int)
    requires
        0 <= i <= s.len(),
    ensures
        rank(s, i) + rank(negated(s), i) == i,
{
    assert(negated(s).take(i) =~= negated(s.take(i)));
    lemma_count_true_negated(s.take(i));
}

/// Select the `j`-th 1-bit (1-indexed) within a `u64`.
pub fn select_bit_in_u64(word: u64, j: u32) -> (bit: usize)
    requires
        0 < j <= count_true(word_bits(word)),
    ensures
        is_select(word_bits(word), j as int, bit as int),
{
    let ghost s = word_bits(word);
    let mut remaining: u32 = j;
    let mut bit: u32 = 0;
    assert(s.take(64) =~= s);
    while bit < 64
        invariant
            bit <= 64,
            s == word_bits(word),
            0 < remaining <= j <= count_true(s),
            s.take(64) =~= s,
            count_true(s.take(bit as int)) + remaining == j,
        decreases 64 - bit,
    {
        proof {
            lemma_count_true_step(s, bit as int);
            let k = bit as u64;
            assert(word >> bit == word >> k) by (bit_vector)
                requires
                    bit < 64,
                    k == bit as u64,
            ;
        }
        if ((word >> bit) & 1) == 1 {
            remaining = remaining - 1;
            if remaining == 0 {
                return bit as usize;
            }
        }
        bit = bit + 1;
    }
    assert(false);
    0
}

/// The ones fit a 32-bit count. Few bits have few ones.
pub open spec fn few_ones(bits: Seq<bool>) -> bool {
    bits.len() <= u32::MAX || count_true(bits) <= u32::MAX
}

impl BitVector {
    /// The prefix sums agree with the bits.
    pub closed spec fn wf(&self) -> bool {
        &&& self.bit_len <= 64 * self.words@.len()
        &&& indexed(
            self.words@,
            self.bit_len as nat,
            self.block_ranks@,
            self.subblock_ranks@,
        )
    }

    /// Build from packed `u64` words and an explicit logical bit count.
    /// The bit count must not exceed what the words hold, and the ones must
    /// fit the 32-bit prefix sums.
    pub fn new(words: Vec<u64>, bit_len: usize) -> (bv: Self)
        requires
            bit_len <= 64 * words@.len(),
            few_ones(packed_bits(words@, bit_len as nat)),
        ensures
            bv.wf(),
            bv@ == packed_bits(words@, bit_len as nat),
    {
        proof {
            lemma_count_true_bound(packed_bits(words@, bit_len as nat));
        }
        let (block_ranks, subblock_ranks) = Self::build_index(&words, bit_len);
        BitVector { words, bit_len, block_ranks, subblock_ranks }
    }

    /// Build from the bits themselves.
    pub fn from_bits(bits: &[bool]) -> (bv: Self)
        requires
            few_ones(bits@),
        ensures
            bv.wf(),
            bv@ == bits@,
    {
        let mut words: Vec<u64> = Vec::new();
        let mut i: usize = 0;
        while i < bits.len()
            invariant
                i <= bits@.len(),
                words@.len() == (i + 63) / 64,
                forall|k: int, j: int|
                    0 <= k < words@.len() && 0 <= j < 64 ==> #[trigger] word_bit(words@[k], j) == (
                    64 * k + j < i && bits@[64 * k + j]),
            decreases bits@.len() - i,
        {
            if i % SUBBLOCK_BITS == 0 {
                proof {
                    assert forall|j: int| 0 <= j < 64 implies !#[trigger] word_bit(0, j) by {
                        let m = j as u64;
                        assert(!((0u64 >> m) & 1 == 1)) by (bit_vector);
                    }
                }
                words.push(0);
            }
            let last: usize = words.len() - 1;
            assert(last == i as int / 64);
            if bits[i] {
                let before: u64 = words[last];
                let after: u64 = before | (1u64 << (i % SUBBLOCK_BITS));
                proof {
                    lemma_or_bits(before, i as int % 64);
                }
                words[last] = after;
            }
            i = i + 1;
        }
        proof {
            let packed = packed_bits(words@, bits@.len());
            assert forall|p: int| 0 <= p < bits@.len() implies packed[p] == bits@[p] by {
                assert(64 * (p / 64) + p % 64 == p);
                assert(word_bit(words@[p / 64], p % 64) == bits@[64 * (p / 64) + p % 64]);
            }
            assert(packed =~= bits@);
        }
        Self::new(words, bits.len())
    }

    /// The packed bits.
    pub fn words(&self) -> (words: &[u64])
        requires
            self.wf(),
        ensures
            packed_bits(words@, self@.len()) == self@,
            self@.len() <= 64 * words@.len(),
    {
        self.words.as_slice()
    }

    /// Number of ones before every 512-bit block, and in all.
    pub fn block_ranks(&self) -> (ranks: &[u32])
        requires
            self.wf(),
        ensures
            ranks@.len() == (self@.len() + 511) / 512 + 1,
            forall|k: int| 0 <= k < ranks@.len() ==> ranks@[k] == rank(self@, 512 * k),
    {
        self.block_ranks.as_slice()
    }

    /// Number of ones from the start of the enclosing block to every 64-bit
    /// subblock.
    pub fn subblock_ranks(&self) -> (ranks: &[u16])
        requires
            self.wf(),
        ensures
            ranks@.len() == (self@.len() + 63) / 64,
            forall|k: int|
                0 <= k < ranks@.len() ==> rank(self@, 512 * (k / 8)) + ranks@[k] == rank(
                    self@,
                    64 * k,
                ),
    {
        self.subblock_ranks.as_slice()
    }

    #[verifier::rlimit(40)]
    #[verifier::spinoff_prover]
    fn build_index(words: &Vec<u64>, bit_len: usize) -> (tables: (Vec<u32>, Vec<u16>))
        requires
            bit_len <= 64 * words@.len(),
            count_true(packed_bits(words@, bit_len as nat)) <= u32::MAX,
        ensures
            indexed(words@, bit_len as nat, tables.0@, tables.1@),
    {
        let ghost s = packed_bits(words@, bit_len as nat);
        let mut block_ranks: Vec<u32> = Vec::new();
        let mut subblock_ranks: Vec<u16> = Vec::new();
        let mut block_rank: u32 = 0;
        let mut within_block: u32 = 0;
        let mut k: usize = 0;
        let mut bit_start: usize = 0;
        assert(s.take(0) =~= Seq::empty());
        assert(s.take(s.len() as int) =~= s);
        while bit_start < bit_len
            invariant
                bit_len <= 64 * words@.len(),
                s == packed_bits(words@, bit_len as nat),
                s.take(s.len() as int) =~= s,
                count_true(s) <= u32::MAX,
                k <= (bit_len + 63) / 64,
                bit_start == if 64 * k <= bit_len {
                    64 * k
                } else {
                    bit_len as int
                },
                block_rank + within_block == rank(s, 64 * k),
                k % 8 != 0 ==> block_rank == rank(s, 512 * (k as int / 8)),
                block_ranks@.len() == (k + 7) / 8,
                subblock_ranks@.len() == k,
                forall|b: int|
                    0 <= b < block_ranks@.len() ==> block_ranks@[b] == rank(s, 512 * b),
                forall|b: int|
                    0 <= b < k ==> rank(s, 512 * (b / 8)) + #[trigger] subblock_ranks@[b] == rank(
                        s,
                        64 * b,
                    ),
            decreases bit_len - bit_start,
        {
            proof {
                lemma_rank_monotone(s, 64 * k, bit_len as int);
            }
            if k % SUBBLOCKS_PER_BLOCK == 0 {
                block_rank = block_rank + within_block;
                within_block = 0;
                block_ranks.push(block_rank);
                assert(512 * (k as int / 8) == 64 * k);
            }
            proof {
                lemma_count_true_split(s, 512 * (k as int / 8), 64 * k);
                lemma_count_true_bound(s.subrange(512 * (k as int / 8), 64 * k));
            }
            subblock_ranks.push(within_block as u16);
            let left: usize = bit_len - bit_start;
            let valid_bits: u32 = if left < SUBBLOCK_BITS {
                left as u32
            } else {
                64
            };
            let mask: u64 = low_mask(valid_bits);
            let word: u64 = words[k];
            proof {
                lemma_masked_word(words@, bit_len as nat, k as int, mask, valid_bits as int);
                lemma_count_true_bound(word_bits(word & mask));
                lemma_rank_monotone(s, 64 * k + valid_bits, bit_len as int);
            }
            within_block = within_block + (word & mask).count_ones();
            bit_start = bit_start + valid_bits as usize;
            k = k + 1;
        }
        block_ranks.push(block_rank + within_block);
        assert forall|b: int| 0 <= b < block_ranks@.len() implies block_ranks@[b] == rank(
            s,
            512 * b,
        ) by {}
        (block_ranks, subblock_ranks)
    }

    /// Number of bits in the vector.
    pub fn len(&self) -> (n: usize)
        ensures
            n == self@.len(),
    {
        self.bit_len
    }

    pub fn is_empty(&self) -> (b: bool)
        ensures
            b == (self@.len() == 0),
    {
        self.bit_len == 0
    }

    /// Total number of 1-bits.
    pub fn ones(&self) -> (n: usize)
        requires
            self.wf(),
        ensures
            n == count_true(self@),
    {
        assert(self@.take(self@.len() as int) =~= self@);
        self.block_ranks[self.block_ranks.len() - 1] as usize
    }

    /// Total number of 0-bits.
    pub fn zeros(&self) -> (n: usize)
        requires
            self.wf(),
        ensures
            n == count_true(negated(self@)),
    {
        proof {
            lemma_count_true_negated(self@);
        }
        self.bit_len - self.ones()
    }

    /// Get the bit at position `i`. Returns false for positions past the end.
    pub fn get(&self, i: usize) -> (b: bool)
        requires
            self.wf(),
        ensures
            b == (i < self@.len() && self@[i as int]),
    {
        if i >= self.bit_len {
            return false;
        }
        let word: u64 = self.words[i / SUBBLOCK_BITS];
        let bit: u64 = (i % SUBBLOCK_BITS) as u64;
        ((word >> bit) & 1) == 1
    }

    /// Number of 1-bits before position `i`: the total number of ones for
    /// positions past the end.
    pub fn rank_1(&self, i: usize) -> (n: usize)
        requires
            self.wf(),
        ensures
            n == rank(self@, i as int),
            n <= i,
    {
        proof {
            lemma_count_true_bound(self@.take(if i <= self@.len() {
                i as int
            } else {
                self@.len() as int
            }));
        }
        if i >= self.bit_len {
            assert(self@.take(self@.len() as int) =~= self@);
            return self.ones();
        }
        let block: usize = i / BLOCK_BITS;
        let subblock: usize = i / SUBBLOCK_BITS;
        let within_subblock: u32 = (i % SUBBLOCK_BITS) as u32;
        assert(subblock as int / 8 == block) by {
            assert((i as int / 64) / 8 == i as int / 512) by (nonlinear_arith);
        }
        proof {
            lemma_rank_monotone(self@, 64 * subblock, self.bit_len as int);
            lemma_count_true_bound(self@.take(64 * subblock));
        }
        let base: usize = self.block_ranks[block] as usize + self.subblock_ranks[subblock] as usize;
        let word: u64 = self.words[subblock];
        let mask: u64 = low_mask(within_subblock);
        proof {
            lemma_masked_word(
                self.words@,
                self.bit_len as nat,
                subblock as int,
                mask,
                within_subblock as int,
            );
        }
        base + (word & mask).count_ones() as usize
    }

    /// Number of 0-bits before position `i`: the total number of zeros for
    /// positions past the end.
    pub fn rank_0(&self, i: usize) -> (n: usize)
        requires
            self.wf(),
        ensures
            n == rank(negated(self@), i as int),
    {
        let i: usize = if i < self.bit_len {
            i
        } else {
            self.bit_len
        };
        proof {
            lemma_rank_complement(self@, i as int);
        }
        i - self.rank_1(i)
    }

    /// The bits that a select looks for.
    spec fn sought(&self, ones: bool) -> Seq<bool> {
        if ones {
            self@
        } else {
            negated(self@)
        }
    }

    /// The sought bits before block `block`.
    fn count_before_block(&self, ones: bool, block: usize) -> (n: usize)
        requires
            self.wf(),
            block < self.block_ranks@.len(),
        ensures
            n == rank(self.sought(ones), 512 * block),
    {
        let before: usize = self.block_ranks[block] as usize;
        if ones {
            before
        } else {
            let covered: usize = if block <= self.bit_len / BLOCK_BITS {
                block * BLOCK_BITS
            } else {
                self.bit_len
            };
            proof {
                lemma_rank_complement(self@, covered as int);
            }
            covered - before
        }
    }

    /// The sought bits of word `k`, with everything past the end clear.
    fn sought_word(&self, ones: bool, k: usize) -> (w: u64)
        requires
            self.wf(),
            64 * k < self.bit_len,
        ensures
            forall|j: int|
                0 <= j < 64 ==> word_bit(w, j) == (64 * k + j < self@.len() && self.sought(
                    ones,
                )[64 * k + j]),
    {
        let left: usize = self.bit_len - k * SUBBLOCK_BITS;
        let valid_bits: u32 = if left < SUBBLOCK_BITS {
            left as u32
        } else {
            64
        };
        let mask: u64 = low_mask(valid_bits);
        let word: u64 = self.words[k];
        let w: u64 = if ones {
            word & mask
        } else {
            !word & mask
        };
        proof {
            lemma_not_bits(word);
            lemma_and_bits(word, mask);
            lemma_and_bits(!word, mask);
            assert forall|j: int| 0 <= j < 64 implies word_bit(w, j) == (64 * k + j < self@.len()
                && self.sought(ones)[64 * k + j]) by {
                assert((64 * k + j) / 64 == k && (64 * k + j) % 64 == j);
            }
        }
        w
    }

    fn select(&self, ones: bool, j: usize) -> (p: usize)
        requires
            self.wf(),
            0 < j <= count_true(self.sought(ones)),
        ensures
            is_select(self.sought(ones), j as int, p as int),
    {
        let ghost s = self.sought(ones);
        assert(s.take(s.len() as int) =~= s);
        assert(s.take(0) =~= Seq::empty());
        let mut block: usize = 0;
        while block + 1 < self.block_ranks.len() && self.count_before_block(ones, block + 1) < j
            invariant
                self.wf(),
                s == self.sought(ones),
                block < self.block_ranks@.len(),
                rank(s, 512 * block) < j,
            decreases self.block_ranks@.len() - block,
        {
            block = block + 1;
        }
        assert(512 * block < s.len());
        let mut remaining: usize = j - self.count_before_block(ones, block);
        let mut k: usize = block * SUBBLOCKS_PER_BLOCK;
        loop
            invariant
                self.wf(),
                s == self.sought(ones),
                s.take(s.len() as int) =~= s,
                j <= count_true(s),
                64 * k < s.len(),
                0 < remaining,
                rank(s, 64 * k) + remaining == j,
            decreases s.len() - 64 * k,
        {
            let word: u64 = self.sought_word(ones, k);
            let ghost valid: int = if s.len() - 64 * k < 64 {
                s.len() - 64 * k
            } else {
                64
            };
            proof {
                lemma_word_of_part(word, s, 64 * k, valid);
                lemma_count_true_split(s, 64 * k, 64 * k + valid);
                lemma_count_true_bound(word_bits(word));
            }
            let found: u32 = word.count_ones();
            if found as usize >= remaining {
                let bit: usize = select_bit_in_u64(word, remaining as u32);
                proof {
                    assert(word_bits(word)[bit as int] == word_bit(word, bit as int));
                    assert(word_bits(word).take(bit as int) =~= s.subrange(64 * k, 64 * k + bit));
                    lemma_count_true_split(s, 64 * k, 64 * k + bit);
                }
                return k * SUBBLOCK_BITS + bit;
            }
            remaining = remaining - found as usize;
            k = k + 1;
        }
    }

    /// Position of the `j`-th 1-bit (1-indexed). Returns `None` if `j` is zero
    /// or greater than the number of ones.
    pub fn select_1(&self, j: usize) -> (p: Option<usize>)
        requires
            self.wf(),
        ensures
            p is Some <==> 0 < j <= count_true(self@),
            p matches Some(p) ==> is_select(self@, j as int, p as int),
    {
        if j == 0 || j > self.ones() {
            return None;
        }
        Some(self.select(true, j))
    }

    /// Position of the `j`-th 0-bit (1-indexed). Returns `None` if `j` is zero
    /// or greater than the number of zeros.
    pub fn select_0(&self, j: usize) -> (p: Option<usize>)
        requires
            self.wf(),
        ensures
            p is Some <==> 0 < j <= count_true(negated(self@)),
            p matches Some(p) ==> is_select(negated(self@), j as int, p as int),
    {
        if j == 0 || j > self.zeros() {
            return None;
        }
        Some(self.select(false, j))
    }
}

/// A rank is how many places before `i` hold a one.
pub proof fn lemma_rank_counts(s: Seq<bool>, i: int)
    requires
        0 <= i,
    ensures
        rank(s, i) == set_int_range(0, s.len() as int).filter(|p: int| p < i && s[p]).len(),
{
    let n = if i <= s.len() {
        i
    } else {
        s.len() as int
    };
    let head = s.take(n);
    lemma_count_true_is_size(head);
    assert(set_int_range(0, head.len() as int).filter(|p: int| head[p]) =~= set_int_range(
        0,
        s.len() as int,
    ).filter(|p: int| p < i && s[p]));
}

/// A selected place holds a one, and it is the one before which `j - 1` others stand.
pub proof fn lemma_select_counts(s: Seq<bool>, j: int, p: int)
    ensures
        is_select(s, j, p) <==> 0 <= p < s.len() && s[p] && set_int_range(
            0,
            s.len() as int,
        ).filter(|q: int| q < p && s[q]).len() + 1 == j,
{
    if 0 <= p < s.len() {
        lemma_rank_counts(s, p);
    }
}

/// The bits of packed words are those of the words, sixty-four a word and the least
/// significant one first.
pub proof fn lemma_packed_words(words: Seq<u64>, bit_len: nat, i: int, j: int)
    requires
        0 <= i,
        0 <= j < 64,
        64 * i + j < bit_len <= 64 * words.len(),
    ensures
        packed_bits(words, bit_len).len() == bit_len,
        packed_bits(words, bit_len)[64 * i + j] <==> (words[i] >> (j as u64)) & 1 == 1,
{
    assert((64 * i + j) / 64 == i && (64 * i + j) % 64 == j);
}

} // verus!
