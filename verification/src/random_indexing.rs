//! Random Indexing signature construction.
//!
//! Each token gets a sparse ternary base vector. The base vectors of a token
//! stream are added up, and the signs of the sum become the signature. With
//! more than 256 dimensions the 256 of the largest magnitude are kept.
//! Construction is purely combinatorial: the base vectors come from a seeded
//! generator, so the same seed gives the same signatures.

use rand::rngs::StdRng;
use rand::seq::SliceRandom;
use rand::SeedableRng;
use vstd::hash_map::StringHashMap;
use vstd::prelude::*;
use vstd::seq_lib::lemma_fold_right_permutation;
use vstd::slice::{slice_subrange, slice_to_vec};

use crate::bits::{
    count_true, differing, lemma_count_true_bound, lemma_count_true_covered,
    lemma_count_true_none, lemma_count_true_set, lemma_count_true_split,
};
use crate::signature::{hamming, signature_from_bits, BinarySignature};

verus! {

/// Default base-vector dimensionality. Matches the 256-bit signature width so
/// the output signature is a direct sign-quantization of the aggregate.
pub const DEFAULT_D: usize = 256;

/// Default number of nonzero entries per base vector.
pub const DEFAULT_T: usize = 12;

/// Default seed for the base-vector table. Fixed so two indexers built from
/// the same vocabulary produce identical signatures.
pub const DEFAULT_SEED: u64 = 0x3141_5926_5358_9793;

/// `rand::rngs::StdRng`, a pseudo-random generator that is determined by its
/// seed.
#[verifier::external_type_specification]
#[verifier::external_body]
pub struct ExStdRng(StdRng);

/// What shuffling makes of `items`, with a generator that was seeded by `seed`
/// and has shuffled slices of the lengths in `drawn` since.
pub uninterp spec fn shuffled(seed: u64, drawn: Seq<nat>, items: Seq<u16>) -> Seq<u16>;

/// A generator together with all that its state depends on.
pub struct Shuffler {
    rng: StdRng,
    seed: Ghost<u64>,
    drawn: Ghost<Seq<nat>>,
}

impl Shuffler {
    pub closed spec fn seed(&self) -> u64 {
        self.seed@
    }

    /// The lengths of the slices that were shuffled.
    pub closed spec fn drawn(&self) -> Seq<nat> {
        self.drawn@
    }

    /// `StdRng::seed_from_u64` of rand: a fresh generator, determined by the
    /// seed.
    #[verifier::external_body]
    fn new(seed: u64) -> (s: Self)
        ensures
            s.seed() == seed,
            s.drawn() == Seq::<nat>::empty(),
    {
        Shuffler {
            rng: StdRng::seed_from_u64(seed),
            seed: Ghost(seed),
            drawn: Ghost(Seq::empty()),
        }
    }

    /// `SliceRandom::shuffle` of rand: rearranges the items. The arrangement
    /// is determined by the state of the generator, which goes by its seed and
    /// by the lengths of the slices that it has shuffled.
    #[verifier::external_body]
    fn shuffle(&mut self, items: &mut Vec<u16>)
        requires
            old(items)@.len() <= 0xffff,
        ensures
            final(items)@ == shuffled(old(self).seed(), old(self).drawn(), old(items)@),
            final(items)@.to_multiset() == old(items)@.to_multiset(),
            final(self).seed() == old(self).seed(),
            final(self).drawn() == old(self).drawn().push(old(items)@.len()),
    {
        items.shuffle(&mut self.rng)
    }
}

/// Sparse ternary base vector for a single token: the positions of its +1
/// entries and of its -1 entries.
#[derive(Clone, Debug)]
pub struct BaseVector {
    pub plus: Vec<u16>,
    pub minus: Vec<u16>,
}

/// What a base vector is.
pub ghost struct Base {
    pub plus: Seq<u16>,
    pub minus: Seq<u16>,
}

impl View for BaseVector {
    type V = Base;

    open spec fn view(&self) -> Base {
        Base { plus: self.plus@, minus: self.minus@ }
    }
}

/// The positions are below `d` and different from one another.
pub open spec fn ternary(b: Base, d: nat) -> bool {
    let all = b.plus + b.minus;
    &&& forall|i: int| 0 <= i < all.len() ==> (#[trigger] all[i]) < d
    &&& all.no_duplicates()
}

/// The base vectors as their views.
pub open spec fn bases_of(bases: Seq<BaseVector>) -> Seq<Base> {
    bases.map_values(|b: BaseVector| b@)
}

/// The entry of a base vector at a position.
pub open spec fn entry(b: Base, p: int) -> int {
    if b.plus.contains(p as u16) {
        1
    } else if b.minus.contains(p as u16) {
        -1
    } else {
        0
    }
}

/// The sum of the base vectors of a token stream at a position. Tokens without
/// a base vector are passed over.
pub open spec fn aggregate(bases: Seq<Base>, stream: Seq<u32>, p: int) -> int
    decreases stream.len(),
{
    if stream.len() == 0 {
        0
    } else {
        let before = aggregate(bases, stream.drop_last(), p);
        let token = stream.last();
        if token < bases.len() {
            before + entry(bases[token as int], p)
        } else {
            before
        }
    }
}

/// The sums at all positions, numbered.
pub open spec fn numbered_sums(bases: Seq<Base>, stream: Seq<u32>, d: nat) -> Seq<(usize, i32)> {
    Seq::new(d, |p: int| (p as usize, aggregate(bases, stream, p) as i32))
}

/// The magnitude of a sum.
pub open spec fn magnitude(v: i32) -> int {
    if v < 0 {
        -(v as int)
    } else {
        v as int
    }
}

/// `arranged` holds the sums with those of the largest magnitude up to `cut`
/// in front of the others.
pub open spec fn largest_first(
    arranged: Seq<(usize, i32)>,
    sums: Seq<(usize, i32)>,
    cut: int,
) -> bool {
    &&& arranged.to_multiset() == sums.to_multiset()
    &&& forall|i: int, j: int|
        0 <= i <= cut && cut <= j < arranged.len() ==> magnitude((#[trigger] arranged[i]).1)
            >= magnitude((#[trigger] arranged[j]).1)
}

/// The place of the last sum that is kept, of `d` sums.
pub open spec fn last_kept(d: nat) -> int {
    if d <= 256 {
        d - 1
    } else {
        255
    }
}

/// Whether `sig` is a signature of the stream. With 256 dimensions bit `p` is
/// set exactly when the sum at `p` is positive. Otherwise the bits are those
/// of the 256 sums of the largest magnitude, in some order, and clear where
/// there are no more dimensions.
pub open spec fn is_signature(
    sig: BinarySignature,
    bases: Seq<Base>,
    d: nat,
    stream: Seq<u32>,
) -> bool {
    if d == 256 {
        forall|p: int|
            0 <= p < 256 ==> #[trigger] sig.bits()[p] == (aggregate(bases, stream, p) > 0)
    } else {
        exists|arranged: Seq<(usize, i32)>|
            #[trigger] largest_first(
                arranged,
                numbered_sums(bases, stream, d),
                last_kept(d),
            ) && forall|p: int|
                0 <= p < 256 ==> #[trigger] sig.bits()[p] == (p < d && arranged[p].1 > 0)
    }
}

/// The positions of the first `n` dimensions after `i` shuffles.
pub open spec fn positions_after(seed: u64, d: nat, i: nat) -> Seq<u16>
    decreases i,
{
    if i == 0 {
        Seq::new(d, |p: int| p as u16)
    } else {
        shuffled(
            seed,
            Seq::new((i - 1) as nat, |j: int| d),
            positions_after(seed, d, (i - 1) as nat),
        )
    }
}

/// The base vector that a seed gives token `i`: the first half of `t` shuffled
/// positions is positive, the second half is negative.
pub open spec fn seeded_base(seed: u64, d: nat, t: nat, i: nat) -> Base {
    let positions = positions_after(seed, d, i + 1);
    Base {
        plus: positions.take(t as int / 2),
        minus: positions.subrange(t as int / 2, t as int),
    }
}

/// By how much a key orders sums of large magnitude before others.
fn magnitude_key(pair: &(usize, i32)) -> (key: i32)
    requires
        pair.1 > i32::MIN,
    ensures
        key == -magnitude(pair.1),
{
    if pair.1 < 0 {
        pair.1
    } else {
        -pair.1
    }
}

/// `slice::select_nth_unstable_by_key` of std: rearranges the pairs so that
/// the one at `index` is where sorting by the key would put it, with no
/// greater key in front of it and no smaller key behind it. It panics when
/// `index` is out of bounds.
#[verifier::external_body]
fn select_largest(pairs: &mut Vec<(usize, i32)>, index: usize)
    requires
        index < old(pairs)@.len(),
        forall|i: int| 0 <= i < old(pairs)@.len() ==> (#[trigger] old(pairs)@[i]).1 > i32::MIN,
    ensures
        final(pairs)@.to_multiset() == old(pairs)@.to_multiset(),
        forall|i: int, j: int|
            0 <= i <= index && index <= j < final(pairs)@.len() ==> magnitude(
                (#[trigger] final(pairs)@[i]).1,
            ) >= magnitude((#[trigger] final(pairs)@[j]).1),
{
    pairs.select_nth_unstable_by_key(index, |pair| magnitude_key(pair));
}

/// Word numbers by word.
pub struct Vocabulary {
    ids: StringHashMap<u32>,
}

impl View for Vocabulary {
    type V = Map<Seq<char>, u32>;

    closed spec fn view(&self) -> Map<Seq<char>, u32> {
        self.ids@
    }
}

impl Vocabulary {
    pub fn new() -> (v: Self)
        ensures
            v@ == Map::<Seq<char>, u32>::empty(),
    {
        Vocabulary { ids: StringHashMap::new() }
    }

    /// Give a word a number.
    pub fn insert(&mut self, word: String, id: u32)
        ensures
            final(self)@ == old(self)@.insert(word@, id),
    {
        self.ids.insert(word, id);
    }

    /// The number of a word.
    pub fn get(&self, word: &str) -> (id: Option<u32>)
        ensures
            id == if self@.contains_key(word@) {
                Some(self@[word@])
            } else {
                None
            },
    {
        match self.ids.get(word) {
            Some(id) => Some(*id),
            None => None,
        }
    }
}

/// The numbers of the words that have one.
pub open spec fn known_ids(tokens: Seq<&str>, vocab: Map<Seq<char>, u32>) -> Seq<u32>
    decreases tokens.len(),
{
    if tokens.len() == 0 {
        Seq::empty()
    } else {
        let before = known_ids(tokens.drop_last(), vocab);
        let word = tokens.last()@;
        if vocab.contains_key(word) {
            before.push(vocab[word])
        } else {
            before
        }
    }
}

proof fn lemma_aggregate_bound(bases: Seq<Base>, stream: Seq<u32>, p: int)
    ensures
        -stream.len() <= aggregate(bases, stream, p) <= stream.len(),
    decreases stream.len(),
{
    if stream.len() > 0 {
        lemma_aggregate_bound(bases, stream.drop_last(), p);
    }
}

/// Random-indexing signature generator.
#[derive(Clone, Debug)]
pub struct RandomIndexer {
    /// Per-token base vector. Indexed by `token_id`.
    bases: Vec<BaseVector>,
    /// Dimensionality of the working aggregate space.
    d: usize,
    /// Nonzero entries per base vector.
    t: usize,
}

impl RandomIndexer {
    /// The base vectors.
    pub closed spec fn table(&self) -> Seq<Base> {
        bases_of(self.bases@)
    }

    pub closed spec fn spec_dim(&self) -> nat {
        self.d as nat
    }

    pub closed spec fn spec_nonzeros(&self) -> nat {
        self.t as nat
    }

    /// Every base vector fits the dimensions.
    pub open spec fn wf(&self) -> bool {
        &&& self.spec_dim() <= 0xffff
        &&& forall|i: int|
            0 <= i < self.table().len() ==> ternary(#[trigger] self.table()[i], self.spec_dim())
    }

    /// Build with default parameters.
    pub fn new(vocab_size: usize) -> (r: Self)
        ensures
            r.wf(),
            r.spec_dim() == 256,
            r.spec_nonzeros() == 12,
            r.table() == Seq::new(
                vocab_size as nat,
                |i: int| seeded_base(DEFAULT_SEED, 256, 12, i as nat),
            ),
            forall|i: int|
                0 <= i < vocab_size ==> (#[trigger] r.table()[i]).plus.len() == 6
                    && r.table()[i].minus.len() == 6,
    {
        Self::with_params(vocab_size, DEFAULT_D, DEFAULT_T, DEFAULT_SEED)
    }

    /// Build with explicit `D`, `t`, and seed. There cannot be more nonzeros
    /// than dimensions, half of them are +1 and half -1, and positions have
    /// 16 bits.
    pub fn with_params(vocab_size: usize, d: usize, t: usize, seed: u64) -> (r: Self)
        requires
            t <= d,
            t % 2 == 0,
            d <= 0xffff,
        ensures
            r.wf(),
            r.spec_dim() == d,
            r.spec_nonzeros() == t,
            r.table() == Seq::new(
                vocab_size as nat,
                |i: int| seeded_base(seed, d as nat, t as nat, i as nat),
            ),
            forall|i: int|
                0 <= i < vocab_size ==> (#[trigger] r.table()[i]).plus.len() == t / 2
                    && r.table()[i].minus.len() == t / 2,
    {
        let half: usize = t / 2;
        let mut shuffler = Shuffler::new(seed);
        let mut positions: Vec<u16> = Vec::new();
        let mut p: usize = 0;
        while p < d
            invariant
                p <= d <= 0xffff,
                positions@ == Seq::new(p as nat, |q: int| q as u16),
            decreases d - p,
        {
            positions.push(p as u16);
            p = p + 1;
            assert(positions@ =~= Seq::new(p as nat, |q: int| q as u16));
        }
        let ghost start = positions@;
        let mut bases: Vec<BaseVector> = Vec::new();
        let mut i: usize = 0;
        assert(shuffler.drawn() =~= Seq::new(0, |j: int| d as nat));
        while i < vocab_size
            invariant
                i <= vocab_size,
                t <= d <= 0xffff,
                t % 2 == 0,
                half == t / 2,
                shuffler.seed() == seed,
                shuffler.drawn() =~= Seq::new(i as nat, |j: int| d as nat),
                positions@ == positions_after(seed, d as nat, i as nat),
                start == Seq::new(d as nat, |q: int| q as u16),
                positions@.to_multiset() == start.to_multiset(),
                bases@.len() == i,
                forall|j: int|
                    #![trigger bases@[j]]
                    0 <= j < i ==> bases@[j]@ == seeded_base(seed, d as nat, t as nat, j as nat)
                        && ternary(bases@[j]@, d as nat) && bases@[j]@.plus.len() == half
                        && bases@[j]@.minus.len() == half,
            decreases vocab_size - i,
        {
            proof {
                positions@.to_multiset_ensures();
                start.to_multiset_ensures();
            }
            shuffler.shuffle(&mut positions);
            proof {
                positions@.to_multiset_ensures();
                lemma_distinct_positions(positions@, d as nat);
            }
            let plus = slice_to_vec(slice_subrange(positions.as_slice(), 0, half));
            let minus = slice_to_vec(slice_subrange(positions.as_slice(), half, t));
            proof {
                assert(plus@ =~= positions@.take(t as int / 2));
                assert(plus@ + minus@ =~= positions@.take(t as int));
                assert(shuffler.drawn() =~= Seq::new((i + 1) as nat, |j: int| d as nat));
            }
            bases.push(BaseVector { plus, minus });
            i = i + 1;
        }
        let r = RandomIndexer { bases, d, t };
        assert forall|i: int| 0 <= i < vocab_size implies (#[trigger] r.table()[i]).plus.len() == t
            / 2 && r.table()[i].minus.len() == t / 2 by {
            assert(r.table()[i] == bases@[i]@);
        }
        assert(r.table() =~= Seq::new(
            vocab_size as nat,
            |i: int| seeded_base(seed, d as nat, t as nat, i as nat),
        ));
        r
    }

    /// Build from given base vectors.
    pub fn from_bases(bases: Vec<BaseVector>, d: usize, t: usize) -> (r: Self)
        requires
            d <= 0xffff,
            forall|i: int| 0 <= i < bases@.len() ==> ternary((#[trigger] bases@[i])@, d as nat),
        ensures
            r.wf(),
            r.spec_dim() == d,
            r.spec_nonzeros() == t,
            r.table() == bases_of(bases@),
    {
        let r = RandomIndexer { bases, d, t };
        assert forall|i: int| 0 <= i < r.table().len() implies ternary(
            #[trigger] r.table()[i],
            d as nat,
        ) by {
            assert(r.table()[i] == bases@[i]@);
        }
        r
    }

    pub fn vocab_size(&self) -> (n: usize)
        ensures
            n == self.table().len(),
    {
        self.bases.len()
    }

    pub fn dim(&self) -> (d: usize)
        ensures
            d == self.spec_dim(),
    {
        self.d
    }

    pub fn nonzeros_per_token(&self) -> (t: usize)
        ensures
            t == self.spec_nonzeros(),
    {
        self.t
    }

    /// The base vectors, by token.
    pub fn bases(&self) -> (bases: &[BaseVector])
        ensures
            bases_of(bases@) == self.table(),
    {
        self.bases.as_slice()
    }

    /// Aggregate a stream of token IDs into a 256-bit binary signature.
    ///
    /// The base vectors of the tokens are added up. With 256 dimensions the
    /// signs of the sums become the bits; otherwise the signs of the 256 sums
    /// of the largest magnitude do.
    pub fn signature(&self, stream: &[u32]) -> (sig: BinarySignature)
        requires
            self.wf(),
            self.spec_dim() > 0,
            stream@.len() <= i32::MAX,
        ensures
            is_signature(sig, self.table(), self.spec_dim(), stream@),
    {
        let sums = self.sums(stream);
        self.binarize(&sums, Ghost(stream@))
    }

    /// The sum of the base vectors.
    fn sums(&self, stream: &[u32]) -> (sums: Vec<i32>)
        requires
            self.wf(),
            stream@.len() <= i32::MAX,
        ensures
            sums@.len() == self.spec_dim(),
            forall|p: int|
                0 <= p < sums@.len() ==> #[trigger] sums@[p] == aggregate(
                    self.table(),
                    stream@,
                    p,
                ),
    {
        let mut sums: Vec<i32> = Vec::new();
        let mut p: usize = 0;
        while p < self.d
            invariant
                p <= self.d,
                sums@.len() == p,
                forall|q: int| 0 <= q < p ==> sums@[q] == 0,
            decreases self.d - p,
        {
            sums.push(0);
            p = p + 1;
        }
        let mut i: usize = 0;
        while i < stream.len()
            invariant
                i <= stream@.len() <= i32::MAX,
                self.wf(),
                sums@.len() == self.d,
                forall|q: int|
                    0 <= q < self.d ==> #[trigger] sums@[q] == aggregate(
                        self.table(),
                        stream@.take(i as int),
                        q,
                    ),
            decreases stream@.len() - i,
        {
            let idx: usize = stream[i] as usize;
            let ghost before = sums@;
            let ghost done = stream@.take(i as int);
            assert(stream@.take(i + 1).drop_last() =~= done);
            if idx < self.bases.len() {
                assert(self.table()[idx as int] == self.bases@[idx as int]@);
                assert(ternary(self.table()[idx as int], self.spec_dim()));
                proof {
                    assert forall|q: int| 0 <= q < before.len() implies -i <= #[trigger] before[q]
                        <= i by {
                        lemma_aggregate_bound(self.table(), done, q);
                    }
                }
                add_base(&mut sums, &self.bases[idx], i);
            }
            i = i + 1;
        }
        assert(stream@.take(i as int) =~= stream@);
        sums
    }

    /// Convert sums to a 256-bit binary signature.
    fn binarize(&self, sums: &Vec<i32>, stream: Ghost<Seq<u32>>) -> (sig: BinarySignature)
        requires
            self.wf(),
            self.spec_dim() > 0,
            stream@.len() <= i32::MAX,
            sums@.len() == self.spec_dim(),
            forall|p: int|
                0 <= p < sums@.len() ==> #[trigger] sums@[p] == aggregate(
                    self.table(),
                    stream@,
                    p,
                ),
        ensures
            is_signature(sig, self.table(), self.spec_dim(), stream@),
    {
        let mut pairs: Vec<(usize, i32)> = Vec::new();
        let ghost all = numbered_sums(self.table(), stream@, self.spec_dim());
        let mut p: usize = 0;
        while p < sums.len()
            invariant
                p <= sums@.len(),
                sums@.len() == self.d,
                all == numbered_sums(self.table(), stream@, self.spec_dim()),
                forall|q: int|
                    0 <= q < sums@.len() ==> #[trigger] sums@[q] == aggregate(
                        self.table(),
                        stream@,
                        q,
                    ),
                pairs@ == all.take(p as int),
            decreases sums@.len() - p,
        {
            pairs.push((p, sums[p]));
            p = p + 1;
            assert(pairs@ =~= all.take(p as int));
        }
        assert(pairs@ =~= all);
        if self.d != 256 {
            let index: usize = if self.d <= 256 {
                self.d - 1
            } else {
                255
            };
            proof {
                assert forall|q: int| 0 <= q < pairs@.len() implies (#[trigger] pairs@[q]).1
                    > i32::MIN by {
                    lemma_aggregate_bound(self.table(), stream@, q);
                }
            }
            select_largest(&mut pairs, index);
            assert(largest_first(pairs@, all, last_kept(self.spec_dim())));
            proof {
                pairs@.to_multiset_ensures();
                all.to_multiset_ensures();
            }
        }
        let mut bits: Vec<bool> = Vec::new();
        let mut j: usize = 0;
        while j < 256
            invariant
                j <= 256,
                pairs@.len() == self.d,
                bits@.len() == j,
                forall|q: int|
                    0 <= q < j ==> #[trigger] bits@[q] == (q < self.d && pairs@[q].1 > 0),
            decreases 256 - j,
        {
            bits.push(j < pairs.len() && pairs[j].1 > 0);
            j = j + 1;
        }
        let sig = signature_from_bits(bits.as_slice());
        proof {
            if self.d == 256 {
                assert forall|q: int| 0 <= q < 256 implies #[trigger] sig.bits()[q] == (aggregate(
                    self.table(),
                    stream@,
                    q,
                ) > 0) by {
                    lemma_aggregate_bound(self.table(), stream@, q);
                    assert(bits@[q] == (pairs@[q].1 > 0));
                }
            } else {
                assert forall|q: int| 0 <= q < 256 implies #[trigger] sig.bits()[q] == (q < self.d
                    && pairs@[q].1 > 0) by {
                    assert(bits@[q] == (q < self.d && pairs@[q].1 > 0));
                }
            }
        }
        sig
    }

    /// Build a signature from a list of string tokens by mapping each through
    /// a provided vocabulary. Words that are not in it are passed over.
    pub fn signature_from_tokens(&self, tokens: &[&str], vocab: &Vocabulary) -> (sig:
        BinarySignature)
        requires
            self.wf(),
            self.spec_dim() > 0,
            tokens@.len() <= i32::MAX,
        ensures
            is_signature(sig, self.table(), self.spec_dim(), known_ids(tokens@, vocab@)),
    {
        let mut ids: Vec<u32> = Vec::new();
        let mut i: usize = 0;
        while i < tokens.len()
            invariant
                i <= tokens@.len(),
                ids@.len() <= i,
                ids@ == known_ids(tokens@.take(i as int), vocab@),
            decreases tokens@.len() - i,
        {
            assert(tokens@.take(i + 1).drop_last() =~= tokens@.take(i as int));
            if let Some(id) = vocab.get(tokens[i]) {
                ids.push(id);
            }
            i = i + 1;
        }
        assert(tokens@.take(i as int) =~= tokens@);
        self.signature(ids.as_slice())
    }
}

/// Add a base vector to sums that are at most `n` in magnitude.
fn add_base(sums: &mut Vec<i32>, base: &BaseVector, n: usize)
    requires
        ternary(base@, old(sums)@.len()),
        n < i32::MAX,
        forall|p: int| 0 <= p < old(sums)@.len() ==> -n <= #[trigger] old(sums)@[p] <= n,
    ensures
        final(sums)@.len() == old(sums)@.len(),
        forall|p: int|
            0 <= p < old(sums)@.len() && p <= 0xffff ==> #[trigger] final(sums)@[p] == old(
                sums,
            )@[p] + entry(base@, p),
{
    let ghost before = sums@;
    let ghost all = base@.plus + base@.minus;
    let mut i: usize = 0;
    while i < base.plus.len()
        invariant
            i <= base.plus@.len(),
            n < i32::MAX,
            all == base.plus@ + base.minus@,
            ternary(base@, before.len()),
            sums@.len() == before.len(),
            forall|p: int| 0 <= p < before.len() ==> -n <= #[trigger] before[p] <= n,
            forall|p: int|
                0 <= p < before.len() ==> #[trigger] sums@[p] == before[p] + if p <= 0xffff
                    && base.plus@.take(i as int).contains(p as u16) {
                    1int
                } else {
                    0int
                },
        decreases base.plus@.len() - i,
    {
        let pos: u16 = base.plus[i];
        let ghost seen = sums@;
        let ghost done = base.plus@.take(i as int);
        proof {
            assert(all[i as int] == pos);
            assert(!done.contains(pos)) by {
                if done.contains(pos) {
                    let j = choose|j: int| 0 <= j < done.len() && done[j] == pos;
                    assert(all[j] == pos);
                }
            }
        }
        let k: usize = pos as usize;
        sums[k] = sums[k] + 1;
        i = i + 1;
        proof {
            assert(base.plus@.take(i as int) =~= done.push(pos));
            assert forall|p: int| 0 <= p < before.len() implies #[trigger] sums@[p] == before[p]
                + if p <= 0xffff && base.plus@.take(i as int).contains(p as u16) {
                1int
            } else {
                0int
            } by {
                lemma_push_contains_u16(done, pos, p as u16);
                assert(seen[p] == before[p] + if p <= 0xffff && done.contains(p as u16) {
                    1int
                } else {
                    0int
                });
            }
        }
    }
    assert(base.plus@.take(i as int) =~= base.plus@);
    let mut i: usize = 0;
    while i < base.minus.len()
        invariant
            i <= base.minus@.len(),
            n < i32::MAX,
            all == base.plus@ + base.minus@,
            ternary(base@, before.len()),
            sums@.len() == before.len(),
            forall|p: int| 0 <= p < before.len() ==> -n <= #[trigger] before[p] <= n,
            forall|p: int|
                0 <= p < before.len() ==> #[trigger] sums@[p] == before[p] + if p <= 0xffff
                    && base.plus@.contains(p as u16) {
                    1int
                } else if p <= 0xffff && base.minus@.take(i as int).contains(p as u16) {
                    -1int
                } else {
                    0int
                },
        decreases base.minus@.len() - i,
    {
        let pos: u16 = base.minus[i];
        let ghost seen = sums@;
        let ghost done = base.minus@.take(i as int);
        proof {
            assert(all[base.plus@.len() + i] == pos);
            assert(!done.contains(pos)) by {
                if done.contains(pos) {
                    let j = choose|j: int| 0 <= j < done.len() && done[j] == pos;
                    assert(all[base.plus@.len() + j] == pos);
                }
            }
            assert(!base.plus@.contains(pos)) by {
                if base.plus@.contains(pos) {
                    let j = choose|j: int| 0 <= j < base.plus@.len() && base.plus@[j] == pos;
                    assert(all[j] == pos);
                }
            }
        }
        let k: usize = pos as usize;
        sums[k] = sums[k] - 1;
        i = i + 1;
        proof {
            assert(base.minus@.take(i as int) =~= done.push(pos));
            assert forall|p: int| 0 <= p < before.len() implies #[trigger] sums@[p] == before[p]
                + if p <= 0xffff && base.plus@.contains(p as u16) {
                1int
            } else if p <= 0xffff && base.minus@.take(i as int).contains(p as u16) {
                -1int
            } else {
                0int
            } by {
                lemma_push_contains_u16(done, pos, p as u16);
                assert(seen[p] == before[p] + if p <= 0xffff && base.plus@.contains(p as u16) {
                    1int
                } else if p <= 0xffff && done.contains(p as u16) {
                    -1int
                } else {
                    0int
                });
            }
        }
    }
    assert(base.minus@.take(i as int) =~= base.minus@);
}

proof fn lemma_push_contains_u16(s: Seq<u16>, x: u16, y: u16)
    ensures
        s.push(x).contains(y) <==> s.contains(y) || y == x,
{
    assert(s.push(x)[s.len() as int] == x);
    if s.contains(y) {
        let i = choose|i: int| 0 <= i < s.len() && s[i] == y;
        assert(s.push(x)[i] == y);
    }
}

/// A rearrangement of the first `d` numbers has no repetitions.
proof fn lemma_distinct_positions(positions: Seq<u16>, d: nat)
    requires
        d <= 0xffff,
        positions.to_multiset() == Seq::new(d, |q: int| q as u16).to_multiset(),
    ensures
        positions.len() == d,
        positions.no_duplicates(),
        forall|i: int| 0 <= i < positions.len() ==> (#[trigger] positions[i]) < d,
{
    let start = Seq::new(d, |q: int| q as u16);
    positions.to_multiset_ensures();
    start.to_multiset_ensures();
    assert(start.no_duplicates());
    start.lemma_multiset_has_no_duplicates();
    assert forall|x: u16| positions.to_multiset().contains(x) implies positions.to_multiset().count(
        x,
    ) == 1 by {
        assert(start.to_multiset().contains(x));
    }
    positions.lemma_multiset_has_no_duplicates_conv();
    assert forall|i: int| 0 <= i < positions.len() implies (#[trigger] positions[i]) < d by {
        assert(positions.contains(positions[i]));
        assert(positions.to_multiset().count(positions[i]) > 0);
        assert(start.contains(positions[i]));
    }
}

/// No tokens, no bits.
pub proof fn lemma_empty_stream(sig: BinarySignature, bases: Seq<Base>, d: nat)
    requires
        0 < d <= 0xffff,
        is_signature(sig, bases, d, Seq::empty()),
    ensures
        forall|p: int| 0 <= p < 256 ==> !(#[trigger] sig.bits()[p]),
{
    if d != 256 {
        let sums = numbered_sums(bases, Seq::empty(), d);
        let arranged = choose|arranged: Seq<(usize, i32)>|
            #[trigger] largest_first(arranged, sums, last_kept(d)) && forall|p: int|
                0 <= p < 256 ==> #[trigger] sig.bits()[p] == (p < d && arranged[p].1 > 0);
        arranged.to_multiset_ensures();
        sums.to_multiset_ensures();
        assert forall|p: int| 0 <= p < 256 implies !(#[trigger] sig.bits()[p]) by {
            if p < d {
                assert(arranged.contains(arranged[p]));
                assert(arranged.to_multiset().count(arranged[p]) > 0);
                assert(sums.contains(arranged[p]));
            }
        }
    }
}

/// Tokens without a base vector change nothing.
pub proof fn lemma_unknown_tokens_skipped(bases: Seq<Base>, stream: Seq<u32>, p: int)
    ensures
        aggregate(bases, stream, p) == aggregate(
            bases,
            stream.filter(|token: u32| token < bases.len()),
            p,
        ),
    decreases stream.len(),
{
    reveal(Seq::filter);
    let known = |token: u32| token < bases.len();
    if stream.len() > 0 {
        lemma_unknown_tokens_skipped(bases, stream.drop_last(), p);
        let rest = stream.drop_last().filter(known);
        if known(stream.last()) {
            assert(rest.push(stream.last()).drop_last() =~= rest);
        }
    }
}

/// With 256 dimensions a stream has one signature, so indexers with the same
/// base vectors agree.
pub proof fn lemma_signature_determined(
    a: BinarySignature,
    b: BinarySignature,
    bases: Seq<Base>,
    stream: Seq<u32>,
)
    requires
        is_signature(a, bases, 256, stream),
        is_signature(b, bases, 256, stream),
    ensures
        a == b,
{
    assert forall|p: int| 0 <= p < 256 implies a.bits()[p] == b.bits()[p] by {
        assert(a.bits()[p] == (aggregate(bases, stream, p) > 0));
        assert(b.bits()[p] == (aggregate(bases, stream, p) > 0));
    }
    assert(a.bits() =~= b.bits());
    crate::signature::lemma_bits_injective(a, b);
}

/// How many entries of a token's base vector are not zero.
pub open spec fn spread(bases: Seq<Base>, token: u32) -> nat {
    if token < bases.len() {
        bases[token as int].plus.len() + bases[token as int].minus.len()
    } else {
        0
    }
}

/// What a token adds to the sum at a position.
spec fn contribution(bases: Seq<Base>, token: u32, p: int) -> int {
    if token < bases.len() {
        entry(bases[token as int], p)
    } else {
        0
    }
}

/// Replacing a token changes the sums by what the two tokens add.
proof fn lemma_token_replaced(bases: Seq<Base>, stream: Seq<u32>, i: int, token: u32, p: int)
    requires
        0 <= i < stream.len(),
    ensures
        aggregate(bases, stream.update(i, token), p) == aggregate(bases, stream, p) - contribution(
            bases,
            stream[i],
            p,
        ) + contribution(bases, token, p),
    decreases stream.len(),
{
    let after = stream.update(i, token);
    if i == stream.len() - 1 {
        assert(after.drop_last() =~= stream.drop_last());
    } else {
        assert(after.drop_last() =~= stream.drop_last().update(i, token));
        lemma_token_replaced(bases, stream.drop_last(), i, token, p);
    }
}

/// Which of the first 256 positions are listed.
spec fn listed(positions: Seq<u16>) -> Seq<bool> {
    Seq::new(256, |p: int| positions.contains(p as u16))
}

/// There are no more positions than the list is long.
proof fn lemma_listed(positions: Seq<u16>)
    ensures
        count_true(listed(positions)) <= positions.len(),
    decreases positions.len(),
{
    if positions.len() == 0 {
        lemma_count_true_none(listed(positions));
    } else {
        let init = positions.drop_last();
        let x = positions.last();
        let one = Seq::new(256, |p: int| p == x as int);
        lemma_listed(init);
        assert forall|p: int| 0 <= p < 256 && listed(positions)[p] implies listed(init)[p]
            || one[p] by {
            assert(positions =~= init.push(x));
            lemma_push_contains_u16(init, x, p as u16);
        }
        lemma_count_true_covered(listed(positions), listed(init), one);
        if (x as int) < 256 {
            lemma_count_true_split(one, x as int, 256);
            lemma_count_true_split(one, x as int, x + 1);
            assert(one.take(256) =~= one);
            lemma_count_true_none(one.take(x as int));
            lemma_count_true_split(one, x + 1, 256);
            lemma_count_true_none(one.subrange(x + 1, 256));
            lemma_count_true_bound(one.subrange(x as int, x + 1));
        } else {
            lemma_count_true_none(one);
        }
    }
}

/// Which of the first 256 entries of a token's base vector are not zero.
spec fn touched(bases: Seq<Base>, token: u32) -> Seq<bool> {
    Seq::new(256, |p: int| contribution(bases, token, p) != 0)
}

proof fn lemma_touched(bases: Seq<Base>, token: u32)
    ensures
        count_true(touched(bases, token)) <= spread(bases, token),
{
    if token < bases.len() {
        let base = bases[token as int];
        lemma_listed(base.plus);
        lemma_listed(base.minus);
        lemma_count_true_covered(touched(bases, token), listed(base.plus), listed(base.minus));
    } else {
        lemma_count_true_none(touched(bases, token));
    }
}

/// Similar streams have similar signatures: with 256 dimensions, replacing one
/// token changes no more bits than the base vectors of the two tokens have
/// entries that are not zero.
pub proof fn lemma_similar_streams(
    a: BinarySignature,
    b: BinarySignature,
    bases: Seq<Base>,
    stream: Seq<u32>,
    i: int,
    token: u32,
)
    requires
        0 <= i < stream.len(),
        is_signature(a, bases, 256, stream),
        is_signature(b, bases, 256, stream.update(i, token)),
    ensures
        hamming(a, b) <= spread(bases, stream[i]) + spread(bases, token),
{
    let diff = differing(a.bits(), b.bits());
    let (gone, come) = (touched(bases, stream[i]), touched(bases, token));
    assert forall|p: int| 0 <= p < diff.len() && diff[p] implies gone[p] || come[p] by {
        lemma_token_replaced(bases, stream, i, token, p);
        assert(a.bits()[p] == (aggregate(bases, stream, p) > 0));
        assert(b.bits()[p] == (aggregate(bases, stream.update(i, token), p) > 0));
    }
    lemma_count_true_covered(diff, gone, come);
    lemma_touched(bases, stream[i]);
    lemma_touched(bases, token);
}

/// The tokens of a stream that have a base vector.
pub open spec fn known_tokens(bases: Seq<Base>, stream: Seq<u32>) -> Seq<u32> {
    stream.filter(|token: u32| token < bases.len())
}

proof fn lemma_aggregate_fold(bases: Seq<Base>, stream: Seq<u32>, p: int, sum: int)
    ensures
        stream.fold_right(
            |token: u32, sum: int| sum + contribution(bases, token, p),
            sum,
        ) == sum + aggregate(bases, stream, p),
    decreases stream.len(),
{
    if stream.len() > 0 {
        lemma_aggregate_fold(
            bases,
            stream.drop_last(),
            p,
            sum + contribution(bases, stream.last(), p),
        );
    }
}

/// Streams of the same known tokens have the same sums, whatever their order.
pub proof fn lemma_same_tokens_same_sums(
    bases: Seq<Base>,
    a: Seq<u32>,
    b: Seq<u32>,
    p: int,
)
    requires
        known_tokens(bases, a).to_multiset() == known_tokens(bases, b).to_multiset(),
    ensures
        aggregate(bases, a, p) == aggregate(bases, b, p),
{
    let (x, y) = (known_tokens(bases, a), known_tokens(bases, b));
    lemma_unknown_tokens_skipped(bases, a, p);
    lemma_unknown_tokens_skipped(bases, b, p);
    lemma_aggregate_fold(bases, x, p, 0);
    lemma_aggregate_fold(bases, y, p, 0);
    lemma_fold_right_permutation(
        x,
        y,
        |token: u32, sum: int| sum + contribution(bases, token, p),
        0,
    );
}

/// The order of the tokens does not matter, nor do tokens without a base vector:
/// streams of the same known tokens have the same signatures.
pub proof fn lemma_same_tokens_same_signature(
    sig: BinarySignature,
    bases: Seq<Base>,
    d: nat,
    a: Seq<u32>,
    b: Seq<u32>,
)
    requires
        known_tokens(bases, a).to_multiset() == known_tokens(bases, b).to_multiset(),
    ensures
        is_signature(sig, bases, d, a) == is_signature(sig, bases, d, b),
{
    assert forall|p: int| aggregate(bases, a, p) == aggregate(bases, b, p) by {
        lemma_same_tokens_same_sums(bases, a, b, p);
    }
    assert(numbered_sums(bases, a, d) =~= numbered_sums(bases, b, d));
}

/// With 256 dimensions streams of the same known tokens have one signature.
pub proof fn lemma_same_tokens_agree(
    x: BinarySignature,
    y: BinarySignature,
    bases: Seq<Base>,
    a: Seq<u32>,
    b: Seq<u32>,
)
    requires
        known_tokens(bases, a).to_multiset() == known_tokens(bases, b).to_multiset(),
        is_signature(x, bases, 256, a),
        is_signature(y, bases, 256, b),
    ensures
        x == y,
{
    lemma_same_tokens_same_signature(y, bases, 256, a, b);
    lemma_signature_determined(x, y, bases, a);
}

/// A stream without known tokens has no bits.
pub proof fn lemma_no_known_tokens(
    sig: BinarySignature,
    bases: Seq<Base>,
    d: nat,
    stream: Seq<u32>,
)
    requires
        0 < d <= 0xffff,
        known_tokens(bases, stream).len() == 0,
        is_signature(sig, bases, d, stream),
    ensures
        forall|p: int| 0 <= p < 256 ==> !(#[trigger] sig.bits()[p]),
{
    let none = Seq::<u32>::empty();
    assert(known_tokens(bases, none) =~= none) by {
        reveal(Seq::filter);
    }
    assert(known_tokens(bases, stream) =~= none);
    lemma_same_tokens_same_signature(sig, bases, d, stream, none);
    lemma_empty_stream(sig, bases, d);
}

/// As many positions are listed as the list is long, if none repeats.
proof fn lemma_listed_distinct(positions: Seq<u16>)
    requires
        positions.no_duplicates(),
        forall|i: int| 0 <= i < positions.len() ==> (#[trigger] positions[i]) < 256,
    ensures
        count_true(listed(positions)) == positions.len(),
    decreases positions.len(),
{
    if positions.len() == 0 {
        lemma_count_true_none(listed(positions));
    } else {
        let init = positions.drop_last();
        let x = positions.last();
        assert forall|i: int| 0 <= i < init.len() implies (#[trigger] init[i]) < 256 by {
            assert(init[i] == positions[i]);
        }
        lemma_listed_distinct(init);
        assert(positions =~= init.push(x));
        assert(positions[positions.len() - 1] < 256);
        assert(!listed(init)[x as int]) by {
            if init.contains(x) {
                let j = choose|j: int| 0 <= j < init.len() && init[j] == x;
                assert(positions[j] == positions[positions.len() - 1]);
            }
        }
        assert forall|p: int| 0 <= p < 256 implies listed(positions)[p] == listed(init).update(
            x as int,
            true,
        )[p] by {
            lemma_push_contains_u16(init, x, p as u16);
        }
        assert(listed(positions) =~= listed(init).update(x as int, true));
        lemma_count_true_set(listed(init), x as int);
    }
}

/// With 256 dimensions a stream of one known token has as many bits as the
/// token's base vector has positive entries.
pub proof fn lemma_one_token(
    sig: BinarySignature,
    bases: Seq<Base>,
    stream: Seq<u32>,
    token: u32,
)
    requires
        known_tokens(bases, stream) == seq![token],
        token < bases.len(),
        ternary(bases[token as int], 256),
        is_signature(sig, bases, 256, stream),
    ensures
        count_true(sig.bits()) == bases[token as int].plus.len(),
{
    let base = bases[token as int];
    let all = base.plus + base.minus;
    assert forall|p: int| 0 <= p < 256 implies sig.bits()[p] == listed(base.plus)[p] by {
        lemma_unknown_tokens_skipped(bases, stream, p);
        let one = seq![token];
        assert(one.drop_last() =~= Seq::empty());
        assert(aggregate(bases, one.drop_last(), p) == 0);
        assert(aggregate(bases, one, p) == entry(base, p));
        assert(sig.bits()[p] == (aggregate(bases, stream, p) > 0));
    }
    assert(sig.bits() =~= listed(base.plus));
    assert forall|i: int, j: int|
        0 <= i < base.plus.len() && 0 <= j < base.plus.len() && i != j implies base.plus[i]
        != base.plus[j] by {
        assert(all[i] == base.plus[i] && all[j] == base.plus[j]);
    }
    assert forall|i: int| 0 <= i < base.plus.len() implies (#[trigger] base.plus[i]) < 256 by {
        assert(all[i] == base.plus[i]);
    }
    lemma_listed_distinct(base.plus);
}

/// The words that a vocabulary holds.
pub open spec fn known_words(tokens: Seq<&str>, vocab: Map<Seq<char>, u32>) -> Seq<&str> {
    tokens.filter(|word: &str| vocab.contains_key(word@))
}

/// Words that are not in the vocabulary contribute nothing.
pub proof fn lemma_unknown_words_skipped(tokens: Seq<&str>, vocab: Map<Seq<char>, u32>)
    ensures
        known_ids(tokens, vocab) == known_ids(known_words(tokens, vocab), vocab),
    decreases tokens.len(),
{
    reveal(Seq::filter);
    let known = |word: &str| vocab.contains_key(word@);
    if tokens.len() > 0 {
        lemma_unknown_words_skipped(tokens.drop_last(), vocab);
        let rest = tokens.drop_last().filter(known);
        if known(tokens.last()) {
            assert(rest.push(tokens.last()).drop_last() =~= rest);
        }
    }
}

/// With 256 dimensions the signature of words is the signature of the numbers of
/// those that are in the vocabulary.
pub proof fn lemma_words_are_ids(
    of_words: BinarySignature,
    of_ids: BinarySignature,
    bases: Seq<Base>,
    tokens: Seq<&str>,
    vocab: Map<Seq<char>, u32>,
    ids: Seq<u32>,
)
    requires
        ids == known_ids(tokens, vocab),
        is_signature(of_words, bases, 256, known_ids(tokens, vocab)),
        is_signature(of_ids, bases, 256, ids),
    ensures
        of_words == of_ids,
{
    lemma_signature_determined(of_words, of_ids, bases, ids);
}

/// What one more token adds to the sum at a position: one where its base vector is
/// positive, minus one where it is negative, nothing elsewhere, and nothing at all for an
/// unknown token.
pub proof fn lemma_token_added(bases: Seq<Base>, stream: Seq<u32>, token: u32, p: u16)
    ensures
        aggregate(bases, Seq::empty(), p as int) == 0,
        token >= bases.len() ==> aggregate(bases, stream.push(token), p as int) == aggregate(
            bases,
            stream,
            p as int,
        ),
        token < bases.len() && bases[token as int].plus.contains(p) ==> aggregate(
            bases,
            stream.push(token),
            p as int,
        ) == aggregate(bases, stream, p as int) + 1,
        token < bases.len() && !bases[token as int].plus.contains(p)
            && bases[token as int].minus.contains(p) ==> aggregate(
            bases,
            stream.push(token),
            p as int,
        ) == aggregate(bases, stream, p as int) - 1,
        token < bases.len() && !bases[token as int].plus.contains(p)
            && !bases[token as int].minus.contains(p) ==> aggregate(
            bases,
            stream.push(token),
            p as int,
        ) == aggregate(bases, stream, p as int),
{
    assert(stream.push(token).drop_last() =~= stream);
}

/// The bits of a signature of 256 positions are the signs of the sums there.
pub proof fn lemma_signature_signs(
    sig: BinarySignature,
    bases: Seq<Base>,
    stream: Seq<u32>,
    p: int,
)
    requires
        is_signature(sig, bases, 256, stream),
        0 <= p < 256,
    ensures
        sig.bits()[p] <==> aggregate(bases, stream, p) > 0,
{
}

/// The bits of a signature of fewer positions: one of the arrangements of all the sums
/// gives them, and the bits behind it are zero.
pub proof fn lemma_short_signature(
    sig: BinarySignature,
    bases: Seq<Base>,
    d: nat,
    stream: Seq<u32>,
) -> (arranged: Seq<(usize, i32)>)
    requires
        is_signature(sig, bases, d, stream),
        d < 256,
    ensures
        arranged.to_multiset() == Seq::new(
            d,
            |p: int| (p as usize, aggregate(bases, stream, p) as i32),
        ).to_multiset(),
        forall|p: int| 0 <= p < d ==> (#[trigger] sig.bits()[p] <==> arranged[p].1 > 0),
        forall|p: int| d <= p < 256 ==> !#[trigger] sig.bits()[p],
{
    let arranged = choose|arranged: Seq<(usize, i32)>|
        #[trigger] largest_first(arranged, numbered_sums(bases, stream, d), last_kept(d))
            && forall|p: int|
            0 <= p < 256 ==> #[trigger] sig.bits()[p] == (p < d && arranged[p].1 > 0);
    assert(numbered_sums(bases, stream, d) =~= Seq::new(
        d,
        |p: int| (p as usize, aggregate(bases, stream, p) as i32),
    ));
    arranged
}

/// The bits of a signature of more positions: the 256 sums of the greatest magnitude give
/// them, `arranged` listing those first.
pub proof fn lemma_long_signature(
    sig: BinarySignature,
    bases: Seq<Base>,
    d: nat,
    stream: Seq<u32>,
) -> (arranged: Seq<(usize, i32)>)
    requires
        is_signature(sig, bases, d, stream),
        d > 256,
    ensures
        arranged.to_multiset() == Seq::new(
            d,
            |p: int| (p as usize, aggregate(bases, stream, p) as i32),
        ).to_multiset(),
        forall|i: int, j: int|
            0 <= i < 256 <= j < d ==> {
                let near = (#[trigger] arranged[i]).1;
                let far = (#[trigger] arranged[j]).1;
                (near >= far || -near >= far) && (near >= -far || -near >= -far)
            },
        forall|p: int| 0 <= p < 256 ==> (#[trigger] sig.bits()[p] <==> arranged[p].1 > 0),
{
    let sums = numbered_sums(bases, stream, d);
    let arranged = choose|arranged: Seq<(usize, i32)>|
        #[trigger] largest_first(arranged, numbered_sums(bases, stream, d), last_kept(d))
            && forall|p: int|
            0 <= p < 256 ==> #[trigger] sig.bits()[p] == (p < d && arranged[p].1 > 0);
    arranged.to_multiset_ensures();
    sums.to_multiset_ensures();
    assert(arranged.len() == d);
    assert(sums =~= Seq::new(d, |p: int| (p as usize, aggregate(bases, stream, p) as i32)));
    assert forall|i: int, j: int| 0 <= i < 256 <= j < d implies {
        let near = (#[trigger] arranged[i]).1;
        let far = (#[trigger] arranged[j]).1;
        (near >= far || -near >= far) && (near >= -far || -near >= -far)
    } by {
        assert(magnitude(arranged[i].1) >= magnitude(arranged[j].1));
    }
    arranged
}

/// A base vector of a seed has `t` entries: the first half of the shuffled positions is
/// positive, the second half negative.
pub proof fn lemma_seeded_base(seed: u64, d: nat, t: nat, i: nat)
    requires
        t <= positions_after(seed, d, i + 1).len(),
    ensures
        seeded_base(seed, d, t, i).plus.len() == t / 2,
        seeded_base(seed, d, t, i).minus.len() == t - t / 2,
        seeded_base(seed, d, t, i).plus + seeded_base(seed, d, t, i).minus == positions_after(
            seed,
            d,
            i + 1,
        ).take(t as int),
{
}

/// The positions start in order and are shuffled once for each base vector, from where the
/// last shuffle left them.
pub proof fn lemma_positions(seed: u64, d: nat, i: nat, p: int)
    requires
        0 <= p < d <= 0x1_0000,
    ensures
        positions_after(seed, d, 0).len() == d,
        positions_after(seed, d, 0)[p] == p,
        positions_after(seed, d, i + 1) == shuffled(
            seed,
            Seq::new(i, |j: int| d),
            positions_after(seed, d, i),
        ),
{
    assert(Seq::new((i + 1 - 1) as nat, |j: int| d) =~= Seq::new(i, |j: int| d));
}

/// The tokens of a text are the numbers of its known words, in their order.
pub proof fn lemma_known_ids(tokens: Seq<&str>, word: &str, vocab: Map<Seq<char>, u32>)
    ensures
        known_ids(Seq::empty(), vocab).len() == 0,
        vocab.contains_key(word@) ==> known_ids(tokens.push(word), vocab) == known_ids(
            tokens,
            vocab,
        ).push(vocab[word@]),
        !vocab.contains_key(word@) ==> known_ids(tokens.push(word), vocab) == known_ids(
            tokens,
            vocab,
        ),
{
    assert(tokens.push(word).drop_last() =~= tokens);
}

} // verus!
