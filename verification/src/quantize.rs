//! From dense embeddings to signatures: the shape of embeddings and of
//! projection matrices, the file format of matrices, and sign bits.

use std::collections::hash_map::DefaultHasher;
use std::hash::Hasher;
use vstd::bytes::{
    spec_u32_from_le_bytes, spec_u32_to_le_bytes, u32_from_le_bytes, u32_to_le_bytes,
};
use vstd::prelude::*;
use vstd::slice::slice_subrange;
use vstd::std_specs::hash::DefaultHasherAdditionalSpecFns;

use crate::bits::{u64_bytes, u64_to_bytes, usize_bytes, usize_to_bytes};
use crate::error::PrimdError;
use crate::signature::{signature_from_bits, BinarySignature};

verus! {

/// Where the sign of component `i` goes among the bits of a signature: within
/// its byte, the first component takes the most significant bit.
pub open spec fn sign_place(i: int) -> int {
    8 * (i / 8) + 7 - i % 8
}

/// `sig` holds the signs.
pub open spec fn holds_signs(sig: BinarySignature, signs: Seq<bool>) -> bool {
    forall|i: int| 0 <= i < 256 ==> sig.bits()[sign_place(i)] == #[trigger] signs[i]
}

/// Sign-bit quantization: a bit is set for each of the 256 components that is
/// not negative.
pub fn sign_bit_quantize(signs: &[bool]) -> (sig: BinarySignature)
    requires
        signs@.len() == 256,
    ensures
        holds_signs(sig, signs@),
{
    let mut bits: Vec<bool> = Vec::new();
    let mut j: usize = 0;
    while j < 256
        invariant
            j <= 256,
            signs@.len() == 256,
            bits@.len() == j,
            forall|k: int| 0 <= k < j ==> #[trigger] bits@[k] == signs@[sign_place(k)],
        decreases 256 - j,
    {
        let place: usize = 8 * (j / 8) + 7 - j % 8;
        bits.push(signs[place]);
        j = j + 1;
    }
    let sig = signature_from_bits(bits.as_slice());
    assert forall|i: int| 0 <= i < 256 implies sig.bits()[sign_place(i)]
        == #[trigger] signs@[i] by {
        let k = sign_place(i);
        assert(sign_place(k) == i);
        assert(bits@[k] == signs@[sign_place(k)]);
    }
    sig
}

/// Two signatures that hold the same signs are equal.
pub proof fn lemma_signs_determine(a: BinarySignature, b: BinarySignature, signs: Seq<bool>)
    requires
        signs.len() == 256,
        holds_signs(a, signs),
        holds_signs(b, signs),
    ensures
        a == b,
{
    assert forall|k: int| 0 <= k < 256 implies a.bits()[k] == b.bits()[k] by {
        let i = sign_place(k);
        assert(sign_place(i) == k);
        assert(a.bits()[sign_place(i)] == signs[i]);
        assert(b.bits()[sign_place(i)] == signs[i]);
    }
    assert(a.bits() =~= b.bits());
    crate::signature::lemma_bits_injective(a, b);
}

/// The signature of an embedding that is quantized directly, given the signs
/// of its components. It must have 256 of them.
pub fn quantize_direct(signs: &[bool]) -> (r: Result<BinarySignature, PrimdError>)
    ensures
        match r {
            Ok(sig) => signs@.len() == 256 && holds_signs(sig, signs@),
            Err(e) => signs@.len() != 256 && e == (PrimdError::InvalidDimension {
                expected: 256,
                got: signs@.len() as usize,
            }),
        },
{
    check_dimension(256, signs.len())?;
    Ok(sign_bit_quantize(signs))
}

/// Whether a dimension is the one that is wanted.
pub fn check_dimension(expected: usize, got: usize) -> (r: Result<(), PrimdError>)
    ensures
        r is Ok <==> expected == got,
        r matches Err(e) ==> e == (PrimdError::InvalidDimension { expected, got }),
{
    if expected == got {
        Ok(())
    } else {
        Err(PrimdError::InvalidDimension { expected, got })
    }
}

/// How many embeddings a contiguous batch holds.
pub fn batch_count(len: usize, source_dim: usize) -> (r: Result<usize, PrimdError>)
    requires
        source_dim > 0,
    ensures
        match r {
            Ok(n) => len == n * source_dim,
            Err(e) => len % source_dim != 0 && e == (PrimdError::InvalidDimension {
                expected: source_dim,
                got: len % source_dim,
            }),
        },
{
    let n: usize = len / source_dim;
    let rest: usize = len % source_dim;
    proof {
        vstd::arithmetic::div_mod::lemma_fundamental_div_mod(len as int, source_dim as int);
        assert(source_dim * (len as int / source_dim as int) == n * source_dim) by (nonlinear_arith)
            requires
                n == len as int / source_dim as int,
        ;
    }
    if rest != 0 {
        return Err(PrimdError::InvalidDimension { expected: source_dim, got: rest });
    }
    Ok(n)
}

/// A matrix that projects dense embeddings to 256 dimensions.
///
/// Row-major, 256 rows of `source_dim` components each.
pub struct PcaProjector<T> {
    matrix: Vec<T>,
    source_dim: usize,
}

/// The 32-bit numbers that lie in `bytes`, least significant byte first.
pub open spec fn words_of_bytes(bytes: Seq<u8>) -> Seq<u32> {
    Seq::new(bytes.len() / 4, |i: int| spec_u32_from_le_bytes(bytes.subrange(4 * i, 4 * i + 4)))
}

/// The bytes of 32-bit numbers, least significant first.
pub open spec fn bytes_of_words(words: Seq<u32>) -> Seq<u8>
    decreases words.len(),
{
    if words.len() == 0 {
        Seq::empty()
    } else {
        bytes_of_words(words.drop_last()) + spec_u32_to_le_bytes(words.last())
    }
}

/// The size of the file of a matrix.
pub open spec fn matrix_file_size(source_dim: u32) -> nat {
    (4 + 1024 * source_dim) as nat
}

impl<T> PcaProjector<T> {
    pub closed spec fn components(&self) -> Seq<T> {
        self.matrix@
    }

    pub closed spec fn spec_source_dim(&self) -> nat {
        self.source_dim as nat
    }

    /// There are 256 rows.
    pub open spec fn wf(&self) -> bool {
        self.components().len() == 256 * self.spec_source_dim()
    }

    /// Create from a precomputed matrix.
    ///
    /// `matrix` is row-major: 256 rows of `source_dim` components each.
    pub fn new(matrix: Vec<T>, source_dim: usize) -> (r: Result<Self, PrimdError>)
        requires
            256 * source_dim <= usize::MAX,
        ensures
            match r {
                Ok(p) => p.wf() && p.components() == matrix@ && p.spec_source_dim() == source_dim,
                Err(e) => matrix@.len() != 256 * source_dim && e == (PrimdError::InvalidDimension {
                    expected: (256 * source_dim) as usize,
                    got: matrix@.len() as usize,
                }),
            },
    {
        let expected: usize = 256 * source_dim;
        if matrix.len() != expected {
            return Err(PrimdError::InvalidDimension { expected, got: matrix.len() });
        }
        Ok(PcaProjector { matrix, source_dim })
    }

    /// Row `i`: what component `i` of the projection is made with.
    pub fn row(&self, i: usize) -> (row: &[T])
        requires
            self.wf(),
            i < 256,
        ensures
            row@ == self.components().subrange(
                i * self.spec_source_dim(),
                (i + 1) * self.spec_source_dim(),
            ),
            row@.len() == self.spec_source_dim(),
    {
        let ghost n = self.source_dim as int;
        proof {
            assert(0 <= i * n && i * n + n == (i + 1) * n && (i + 1) * n <= 256 * n)
                by (nonlinear_arith)
                requires
                    0 <= n,
                    0 <= i < 256,
            ;
            assert(self.matrix.len() == self.matrix@.len());
        }
        let start: usize = i * self.source_dim;
        slice_subrange(self.matrix.as_slice(), start, start + self.source_dim)
    }

    pub fn source_dim(&self) -> (n: usize)
        ensures
            n == self.spec_source_dim(),
    {
        self.source_dim
    }

    /// Whether an embedding of `len` components can be projected.
    pub fn check_embedding(&self, len: usize) -> (r: Result<(), PrimdError>)
        ensures
            r is Ok <==> len == self.spec_source_dim(),
            r matches Err(e) ==> e == (PrimdError::InvalidDimension {
                expected: self.spec_source_dim() as usize,
                got: len,
            }),
    {
        check_dimension(self.source_dim, len)
    }
}

impl PcaProjector<u32> {
    /// Read a matrix, each component as the 32 bits of a float.
    ///
    /// Format: first 4 bytes = `source_dim` as little-endian u32,
    /// then `256 × source_dim` little-endian components.
    pub fn from_bytes(data: &[u8]) -> (r: Result<Self, PrimdError>)
        ensures
            ({
                let dim = spec_u32_from_le_bytes(data@.take(4));
                match r {
                    Ok(p) => {
                        &&& data@.len() >= 4 && data@.len() == matrix_file_size(dim)
                        &&& p.wf()
                        &&& p.spec_source_dim() == dim
                        &&& p.components() == words_of_bytes(data@.skip(4))
                    },
                    Err(PrimdError::PcaMatrixMissing) => data@.len() < 4,
                    Err(e) => {
                        &&& data@.len() >= 4 && data@.len() != matrix_file_size(dim)
                        &&& e == (PrimdError::InvalidDimension {
                            expected: matrix_file_size(dim) as usize,
                            got: data@.len() as usize,
                        })
                    },
                }
            }),
    {
        if data.len() < 4 {
            return Err(PrimdError::PcaMatrixMissing);
        }
        assert(data@.take(4) =~= data@.subrange(0, 4));
        let dim: u32 = u32_from_le_bytes(slice_subrange(data, 0, 4));
        let expected: u64 = 4 + 1024 * dim as u64;
        if data.len() as u64 != expected {
            return Err(
                PrimdError::InvalidDimension { expected: expected as usize, got: data.len() },
            );
        }
        let rest = slice_subrange(data, 4, data.len());
        assert(rest@ =~= data@.skip(4));
        let n: usize = rest.len() / 4;
        let mut matrix: Vec<u32> = Vec::new();
        let mut i: usize = 0;
        while i < n
            invariant
                i <= n,
                4 * n == rest@.len(),
                n <= usize::MAX / 4,
                matrix@ == words_of_bytes(rest@).take(i as int),
            decreases n - i,
        {
            matrix.push(u32_from_le_bytes(slice_subrange(rest, 4 * i, 4 * i + 4)));
            i = i + 1;
            assert(matrix@ =~= words_of_bytes(rest@).take(i as int));
        }
        assert(matrix@ =~= words_of_bytes(rest@));
        Ok(PcaProjector { matrix, source_dim: dim as usize })
    }

    /// The file of the matrix.
    pub fn to_bytes(&self) -> (bytes: Vec<u8>)
        ensures
            bytes@ == spec_u32_to_le_bytes(self.spec_source_dim() as u32) + bytes_of_words(
                self.components(),
            ),
    {
        let mut bytes = u32_to_le_bytes(self.source_dim as u32);
        let ghost head = bytes@;
        let mut i: usize = 0;
        assert(self.matrix@.take(0) =~= Seq::empty());
        assert(bytes@ =~= head + bytes_of_words(Seq::empty()));
        while i < self.matrix.len()
            invariant
                i <= self.matrix@.len(),
                bytes@ == head + bytes_of_words(self.matrix@.take(i as int)),
            decreases self.matrix@.len() - i,
        {
            let mut word = u32_to_le_bytes(self.matrix[i]);
            assert(self.matrix@.take(i + 1).drop_last() =~= self.matrix@.take(i as int));
            bytes.append(&mut word);
            i = i + 1;
            assert(bytes@ =~= head + bytes_of_words(self.matrix@.take(i as int)));
        }
        assert(self.matrix@.take(i as int) =~= self.matrix@);
        bytes
    }
}

/// Numbers that were written are read back.
pub proof fn lemma_words_round_trip(words: Seq<u32>)
    ensures
        bytes_of_words(words).len() == 4 * words.len(),
        words_of_bytes(bytes_of_words(words)) == words,
    decreases words.len(),
{
    vstd::bytes::lemma_auto_spec_u32_to_from_le_bytes();
    let bytes = bytes_of_words(words);
    if words.len() > 0 {
        let init = words.drop_last();
        let before = bytes_of_words(init);
        lemma_words_round_trip(init);
        assert forall|i: int| 0 <= i < words.len() implies words_of_bytes(bytes)[i] == words[i] by {
            let part = bytes.subrange(4 * i, 4 * i + 4);
            if i < init.len() {
                assert(part =~= before.subrange(4 * i, 4 * i + 4));
                assert(words_of_bytes(before)[i] == init[i]);
            } else {
                assert(part =~= spec_u32_to_le_bytes(words.last()));
            }
        }
    }
    assert(words_of_bytes(bytes) =~= words);
}

/// A matrix that was written is read back, provided that its source dimension
/// fits the header.
pub proof fn lemma_matrix_round_trip(source_dim: nat, components: Seq<u32>)
    requires
        source_dim <= u32::MAX,
        components.len() == 256 * source_dim,
    ensures
        ({
            let data = spec_u32_to_le_bytes(source_dim as u32) + bytes_of_words(components);
            &&& data.len() == matrix_file_size(source_dim as u32)
            &&& spec_u32_from_le_bytes(data.take(4)) == source_dim
            &&& words_of_bytes(data.skip(4)) == components
        }),
{
    vstd::bytes::lemma_auto_spec_u32_to_from_le_bytes();
    lemma_words_round_trip(components);
    let head = spec_u32_to_le_bytes(source_dim as u32);
    let data = head + bytes_of_words(components);
    assert(head.len() == 4);
    assert(data.take(4) =~= head);
    assert(data.skip(4) =~= bytes_of_words(components));
}

/// Whether the entry of a random projection at row `i` and column `j` is
/// positive.
pub open spec fn projection_positive(seed: u64, i: nat, j: nat) -> bool {
    DefaultHasher::spec_finish(
        seq![
            u64_bytes(seed),
            usize_bytes(i as usize),
            usize_bytes(j as usize),
        ],
    ) % 2 == 0
}

/// Whether the entry of a random projection at row `i` and column `j` is
/// positive.
pub fn projection_sign(seed: u64, i: usize, j: usize) -> (positive: bool)
    ensures
        positive == projection_positive(seed, i as nat, j as nat),
{
    let mut hasher = DefaultHasher::new();
    hasher.write(u64_to_bytes(seed).as_slice());
    hasher.write(usize_to_bytes(i).as_slice());
    hasher.write(usize_to_bytes(j).as_slice());
    assert(hasher@ =~= seq![
        u64_bytes(seed),
        usize_bytes(i),
        usize_bytes(j),
    ]);
    hasher.finish() % 2 == 0
}

/// The signs of a deterministic random projection from `source_dim` to 256
/// dimensions, row by row. Every entry is of the same magnitude. The seed is
/// all that needs to be saved to make the same projection again.
pub fn random_projection(seed: u64, source_dim: usize) -> (p: PcaProjector<bool>)
    requires
        256 * source_dim <= usize::MAX,
    ensures
        p.wf(),
        p.spec_source_dim() == source_dim,
        forall|i: int, j: int|
            0 <= i < 256 && 0 <= j < source_dim ==> #[trigger] p.components()[i * source_dim + j]
                == projection_positive(seed, i as nat, j as nat),
{
    let mut matrix: Vec<bool> = Vec::new();
    let mut i: usize = 0;
    while i < 256
        invariant
            i <= 256,
            matrix@.len() == i * source_dim,
            forall|a: int, b: int|
                0 <= a < i && 0 <= b < source_dim ==> #[trigger] matrix@[a * source_dim + b]
                    == projection_positive(seed, a as nat, b as nat),
        decreases 256 - i,
    {
        let mut j: usize = 0;
        while j < source_dim
            invariant
                i < 256,
                j <= source_dim,
                matrix@.len() == i * source_dim + j,
                forall|a: int, b: int|
                    0 <= a <= i && 0 <= b < source_dim && (a < i || b < j)
                        ==> #[trigger] matrix@[a * source_dim + b] == projection_positive(
                        seed,
                        a as nat,
                        b as nat,
                    ),
            decreases source_dim - j,
        {
            let ghost before = matrix@;
            matrix.push(projection_sign(seed, i, j));
            proof {
                assert forall|a: int, b: int|
                    0 <= a <= i && 0 <= b < source_dim && (a < i || b < j
                        + 1) implies #[trigger] matrix@[a * source_dim + b] == projection_positive(
                    seed,
                    a as nat,
                    b as nat,
                ) by {
                    if a < i {
                        assert(a * source_dim + b < i * source_dim) by (nonlinear_arith)
                            requires
                                0 <= a < i,
                                0 <= b < source_dim,
                        ;
                        assert(0 <= a * source_dim) by (nonlinear_arith)
                            requires
                                0 <= a,
                                0 <= source_dim,
                        ;
                        assert(matrix@[a * source_dim + b] == before[a * source_dim + b]);
                    } else if b < j {
                        assert(matrix@[a * source_dim + b] == before[a * source_dim + b]);
                    }
                }
            }
            j = j + 1;
        }
        assert(i * source_dim + source_dim == (i + 1) * source_dim) by (nonlinear_arith);
        i = i + 1;
    }
    PcaProjector { matrix, source_dim }
}

/// A signature that holds some signs has, for each of them, the bit of byte `i / 8` that
/// comes at place `i % 8` from the most significant one on.
pub proof fn lemma_signs_in_bits(sig: BinarySignature, signs: Seq<bool>)
    ensures
        holds_signs(sig, signs) <==> forall|i: int|
            0 <= i < 256 ==> #[trigger] signs[i] == ((sig.0@[i / 8] >> ((7 - i % 8) as u8)) & 1u8
                == 1u8),
{
    assert forall|i: int| 0 <= i < 256 implies sig.bits()[sign_place(i)] == ((sig.0@[i / 8] >> ((7
        - i % 8) as u8)) & 1u8 == 1u8) by {
        let k = sign_place(i);
        assert(0 <= k < 256 && k / 8 == i / 8 && k % 8 == 7 - i % 8);
        crate::signature::lemma_bits_are_those_of_the_bytes(sig, k);
    }
}

/// The sign of an entry of a random projection is the last bit of the hash of the seed,
/// the row and the column.
pub proof fn lemma_projection_sign(seed: u64, i: usize, j: usize)
    ensures
        projection_positive(seed, i as nat, j as nat) <==> DefaultHasher::spec_finish(
            seq![u64_bytes(seed), usize_bytes(i), usize_bytes(j)],
        ) % 2 == 0,
{
}

/// The bytes of a list of words are those of each word in turn, the least significant
/// byte first.
pub proof fn lemma_bytes_of_words(words: Seq<u32>)
    ensures
        bytes_of_words(words) == words.map_values(|w: u32| spec_u32_to_le_bytes(w)).flatten(),
    decreases words.len(),
{
    let le = |w: u32| spec_u32_to_le_bytes(w);
    if words.len() == 0 {
        assert(words.map_values(le) =~= Seq::empty());
    } else {
        let init = words.drop_last();
        lemma_bytes_of_words(init);
        assert(words.map_values(le) =~= init.map_values(le).push(le(words.last())));
        init.map_values(le).lemma_flatten_push(le(words.last()));
    }
}

} // verus!
