//! Layered bit-vector store for 256-bit binary signatures.
//!
//! Each signature bit is stored in its own [`BitVector`] layer. Signatures
//! that are added later wait in a tail, which a compaction folds into the
//! layers. Any stored signature can be read back, and queries look at both
//! the layers and the tail.

use vstd::prelude::*;
use vstd::slice::slice_to_vec;

use crate::bitvec::{few_ones, packed_bits, BitVector};
use crate::heap::{
    ascending, lemma_ascending_unique, lemma_offered_all, lemma_sorted_candidates,
    lemma_top_k_member, offered_all, sorted_candidates, top_k, TopKHeap,
};
use crate::signature::{
    hamming, layer_of, lemma_bits_injective, lemma_hamming_bound, signature_from_bits,
    BinarySignature,
};
use crate::signature_index::{lemma_scan_finds_the_nearest, scored};
use crate::sorting::sort_pairs;

verus! {

/// No layer has more ones than its prefix sums can count. Few signatures are
/// always countable.
pub open spec fn countable(sigs: Seq<BinarySignature>) -> bool {
    forall|k: int| 0 <= k < 256 ==> few_ones(#[trigger] layer_of(sigs, k))
}

/// The signatures within `radius` bits of `query`, with their distances and
/// places, in the order of their places.
pub open spec fn scored_within(
    query: BinarySignature,
    sigs: Seq<BinarySignature>,
    radius: u32,
) -> Seq<(u32, usize)>
    decreases sigs.len(),
{
    if sigs.len() == 0 {
        Seq::empty()
    } else {
        let before = scored_within(query, sigs.drop_last(), radius);
        let dist = hamming(query, sigs.last());
        if dist <= radius {
            before.push((dist as u32, (sigs.len() - 1) as usize))
        } else {
            before
        }
    }
}

/// The layer holds the first `n` bits of `words`.
spec fn layer_read(layer: BitVector, words: Seq<u64>, n: nat) -> bool {
    &&& n <= 64 * words.len()
    &&& layer.wf()
    &&& layer@ == packed_bits(words, n)
}

/// Places replaced by the values that are stored there.
pub open spec fn with_values(hits: Seq<(u32, usize)>, values: Seq<u64>) -> Seq<(u32, u64)> {
    hits.map_values(|h: (u32, usize)| (h.0, values[h.1 as int]))
}

/// A place is within the radius exactly when the signature there is.
pub proof fn lemma_scored_within(
    query: BinarySignature,
    sigs: Seq<BinarySignature>,
    radius: u32,
    dist: u32,
    place: usize,
)
    requires
        sigs.len() <= usize::MAX,
    ensures
        scored_within(query, sigs, radius).contains((dist, place)) <==> place < sigs.len() && dist
            == hamming(query, sigs[place as int]) && dist <= radius,
    decreases sigs.len(),
{
    let all = scored_within(query, sigs, radius);
    if sigs.len() > 0 {
        let init = sigs.drop_last();
        let before = scored_within(query, init, radius);
        let d = hamming(query, sigs.last());
        lemma_hamming_bound(query, sigs.last());
        lemma_scored_within(query, init, radius, dist, place);
        let x = (d as u32, (sigs.len() - 1) as usize);
        if all.contains((dist, place)) {
            let i = choose|i: int| 0 <= i < all.len() && all[i] == (dist, place);
            if i < before.len() {
                assert(before[i] == (dist, place));
            }
        }
        if before.contains((dist, place)) {
            let i = choose|i: int| 0 <= i < before.len() && before[i] == (dist, place);
            assert(all[i] == (dist, place));
        }
        if d <= radius {
            assert(all[before.len() as int] == x);
        }
    }
}

/// The layers hold the bits of the signatures.
spec fn hold(layers: Seq<BitVector>, sigs: Seq<BinarySignature>) -> bool {
    forall|k: int| #![trigger layers[k]] 0 <= k < 256 ==> layers[k]@ == layer_of(sigs, k)
}

/// The `n` signatures whose bits the layers hold.
spec fn held(layers: Seq<BitVector>, n: nat) -> Seq<BinarySignature> {
    choose|sigs: Seq<BinarySignature>| sigs.len() == n && #[trigger] hold(layers, sigs)
}

/// The bits determine the signatures.
proof fn lemma_held(layers: Seq<BitVector>, sigs: Seq<BinarySignature>)
    requires
        hold(layers, sigs),
    ensures
        held(layers, sigs.len()) == sigs,
{
    let found = held(layers, sigs.len());
    assert(found.len() == sigs.len() && hold(layers, found));
    assert forall|i: int| 0 <= i < sigs.len() implies #[trigger] found[i] == sigs[i] by {
        assert forall|k: int| 0 <= k < 256 implies #[trigger] found[i].bits()[k]
            == sigs[i].bits()[k] by {
            let layer = layers[k]@;
            assert(layer == layer_of(found, k) && layer == layer_of(sigs, k));
            assert(layer_of(found, k)[i] == layer_of(sigs, k)[i]);
        }
        assert(found[i].bits() =~= sigs[i].bits());
        lemma_bits_injective(found[i], sigs[i]);
    }
    assert(found =~= sigs);
}

/// Layered bit-vector store for binary signatures, each with a value of the
/// caller's.
#[derive(Clone, Debug)]
pub struct SignatureDwm {
    layers: Vec<BitVector>,
    values: Vec<u64>,
    tail: Vec<BinarySignature>,
    tail_values: Vec<u64>,
}

impl SignatureDwm {
    /// The signatures that are in the layers.
    spec fn layered(&self) -> Seq<BinarySignature> {
        held(self.layers@, self.values@.len())
    }

    /// The stored signatures.
    pub closed spec fn sigs(&self) -> Seq<BinarySignature> {
        self.layered() + self.tail@
    }

    /// The values of the stored signatures.
    pub closed spec fn vals(&self) -> Seq<u64> {
        self.values@ + self.tail_values@
    }

    /// How many signatures wait for compaction.
    pub closed spec fn pending(&self) -> nat {
        self.tail@.len()
    }

    /// The layers hold the bits of the signatures.
    pub closed spec fn wf(&self) -> bool {
        &&& self.layers@.len() == 256
        &&& self.layered().len() == self.values@.len()
        &&& self.tail@.len() == self.tail_values@.len()
        &&& self.layered().len() + self.tail@.len() <= usize::MAX
        &&& forall|k: int| 0 <= k < 256 ==> (#[trigger] self.layers@[k]).wf()
        &&& hold(self.layers@, self.layered())
    }

    /// Every signature has a value.
    pub proof fn lemma_wf(&self)
        requires
            self.wf(),
        ensures
            self.sigs().len() == self.vals().len() <= usize::MAX,
            self.pending() <= self.sigs().len(),
    {
    }

    /// Build a fresh DWM from a complete batch of signatures + values.
    pub fn build(sigs: &[BinarySignature], values: Vec<u64>) -> (dwm: Self)
        requires
            sigs@.len() == values@.len(),
            countable(sigs@),
        ensures
            dwm.wf(),
            dwm.sigs() == sigs@,
            dwm.vals() == values@,
            dwm.pending() == 0,
    {
        let mut layers: Vec<BitVector> = Vec::new();
        let mut k: usize = 0;
        while k < 256
            invariant
                k <= 256,
                countable(sigs@),
                layers@.len() == k,
                forall|j: int|
                    #![trigger layers@[j]]
                    0 <= j < k ==> layers@[j].wf() && layers@[j]@ == layer_of(sigs@, j),
            decreases 256 - k,
        {
            let mut column: Vec<bool> = Vec::new();
            let mut i: usize = 0;
            while i < sigs.len()
                invariant
                    i <= sigs@.len(),
                    k < 256,
                    column@ == layer_of(sigs@, k as int).take(i as int),
                decreases sigs@.len() - i,
            {
                column.push(sigs[i].bit(k));
                i = i + 1;
                assert(column@ =~= layer_of(sigs@, k as int).take(i as int));
            }
            assert(column@ =~= layer_of(sigs@, k as int));
            layers.push(BitVector::from_bits(column.as_slice()));
            k = k + 1;
        }
        let dwm = SignatureDwm {
            layers,
            values,
            tail: Vec::new(),
            tail_values: Vec::new(),
        };
        proof {
            lemma_held(dwm.layers@, sigs@);
            assert(dwm.sigs() =~= sigs@);
            assert(dwm.vals() =~= values@);
            assert(values.len() == values@.len());
        }
        dwm
    }

    /// A DWM from the words of its layers and from its tail. `None` unless
    /// there are 256 layers with words for all values, as many tail values as
    /// tail signatures, and few enough values to be counted.
    pub fn from_parts(
        layers: &Vec<Vec<u64>>,
        values: Vec<u64>,
        tail: Vec<BinarySignature>,
        tail_values: Vec<u64>,
    ) -> (dwm: Option<Self>)
        ensures
            dwm is Some <==> {
                &&& layers@.len() == 256
                &&& forall|k: int|
                    0 <= k < 256 ==> values@.len() <= 64 * (#[trigger] layers@[k])@.len()
                &&& tail@.len() == tail_values@.len()
                &&& values@.len() <= u32::MAX
                &&& values@.len() + tail@.len() <= usize::MAX
            },
            dwm matches Some(dwm) ==> {
                &&& dwm.wf()
                &&& dwm.pending() == tail@.len()
                &&& dwm.vals() == values@ + tail_values@
                &&& dwm.sigs().len() == dwm.vals().len()
                &&& forall|i: int|
                    0 <= i < tail@.len() ==> dwm.sigs()[values@.len() + i] == tail@[i]
                &&& forall|i: int, k: int|
                    #![trigger dwm.sigs()[i].bits()[k]]
                    0 <= i < values@.len() && 0 <= k < 256 ==> dwm.sigs()[i].bits()[k]
                        == packed_bits(layers@[k]@, values@.len())[i]
            },
    {
        let n: usize = values.len();
        if layers.len() != 256 || tail.len() != tail_values.len() || n as u64 > u32::MAX as u64
            || tail.len() > usize::MAX - n {
            return None;
        }
        let mut built: Vec<BitVector> = Vec::new();
        let mut k: usize = 0;
        while k < 256
            invariant
                k <= 256,
                layers@.len() == 256,
                n == values@.len(),
                n <= u32::MAX,
                built@.len() == k,
                forall|j: int|
                    0 <= j < k ==> layer_read(#[trigger] built@[j], layers@[j]@, n as nat),
            decreases 256 - k,
        {
            let words = slice_to_vec(layers[k].as_slice());
            let needed: usize = n / 64 + if n % 64 == 0 {
                0
            } else {
                1
            };
            if words.len() < needed {
                assert(n > 64 * layers@[k as int]@.len());
                return None;
            }
            proof {
                crate::bits::lemma_count_true_bound(packed_bits(words@, n as nat));
            }
            built.push(BitVector::new(words, n));
            k = k + 1;
        }
        assert forall|j: int| 0 <= j < 256 implies n <= 64 * (#[trigger] layers@[j])@.len() by {
            assert(layer_read(built@[j], layers@[j]@, n as nat));
        }
        let mut sigs: Vec<BinarySignature> = Vec::new();
        let mut i: usize = 0;
        while i < n
            invariant
                i <= n == values@.len(),
                built@.len() == 256,
                forall|j: int|
                    0 <= j < 256 ==> layer_read(#[trigger] built@[j], layers@[j]@, n as nat),
                sigs@.len() == i,
                forall|p: int, j: int|
                    #![trigger sigs@[p].bits()[j]]
                    0 <= p < i && 0 <= j < 256 ==> sigs@[p].bits()[j] == packed_bits(
                        layers@[j]@,
                        n as nat,
                    )[p],
            decreases n - i,
        {
            let mut bits: Vec<bool> = Vec::new();
            let mut k: usize = 0;
            while k < 256
                invariant
                    k <= 256,
                    i < n,
                    built@.len() == 256,
                    forall|j: int|
                        0 <= j < 256 ==> layer_read(#[trigger] built@[j], layers@[j]@, n as nat),
                    bits@.len() == k,
                    forall|j: int|
                        0 <= j < k ==> #[trigger] bits@[j] == packed_bits(
                            layers@[j]@,
                            n as nat,
                        )[i as int],
                decreases 256 - k,
            {
                bits.push(built[k].get(i));
                k = k + 1;
            }
            sigs.push(signature_from_bits(bits.as_slice()));
            i = i + 1;
        }
        let dwm = SignatureDwm { layers: built, values, tail, tail_values };
        proof {
            assert forall|k: int| 0 <= k < 256 implies (#[trigger] dwm.layers@[k]).wf()
                && dwm.layers@[k]@ == layer_of(sigs@, k) by {
                assert(layer_read(built@[k], layers@[k]@, n as nat));
                assert(built@[k]@ =~= layer_of(sigs@, k)) by {
                    assert forall|p: int| 0 <= p < n implies built@[k]@[p] == layer_of(
                        sigs@,
                        k,
                    )[p] by {
                        assert(sigs@[p].bits()[k] == packed_bits(layers@[k]@, n as nat)[p]);
                    }
                }
            }
            lemma_held(dwm.layers@, sigs@);
            assert forall|i: int, k: int|
                #![trigger dwm.sigs()[i].bits()[k]]
                0 <= i < values@.len() && 0 <= k < 256 implies dwm.sigs()[i].bits()[k]
                == packed_bits(layers@[k]@, values@.len())[i] by {
                assert(dwm.sigs()[i] == sigs@[i]);
                assert(sigs@[i].bits()[k] == packed_bits(layers@[k]@, n as nat)[i]);
            }
        }
        Some(dwm)
    }

    /// The layers, one for each bit of a signature.
    pub fn layers(&self) -> (layers: &[BitVector])
        requires
            self.wf(),
        ensures
            layers@.len() == 256,
            forall|k: int|
                #![trigger layers@[k]]
                0 <= k < 256 ==> layers@[k].wf() && layers@[k]@ == layer_of(
                    self.sigs().take(self.sigs().len() - self.pending()),
                    k,
                ),
    {
        assert(self.sigs().take(self.sigs().len() - self.pending()) =~= self.layered());
        self.layers.as_slice()
    }

    /// Empty DWM.
    pub fn empty() -> (dwm: Self)
        ensures
            dwm.wf(),
            dwm.sigs() == Seq::<BinarySignature>::empty(),
            dwm.vals() == Seq::<u64>::empty(),
            dwm.pending() == 0,
    {
        let none: Vec<BinarySignature> = Vec::new();
        Self::build(none.as_slice(), Vec::new())
    }

    /// Total stored signatures, including pending tail entries.
    pub fn len(&self) -> (n: usize)
        requires
            self.wf(),
        ensures
            n == self.sigs().len(),
    {
        self.values.len() + self.tail.len()
    }

    pub fn is_empty(&self) -> (b: bool)
        requires
            self.wf(),
        ensures
            b == (self.sigs().len() == 0),
    {
        self.len() == 0
    }

    /// Number of signatures pending compaction.
    pub fn pending_tail(&self) -> (n: usize)
        ensures
            n == self.pending(),
    {
        self.tail.len()
    }

    /// Append a single signature + value. The signature is buffered in the
    /// tail until [`SignatureDwm::compact`] is called.
    pub fn push(&mut self, sig: BinarySignature, value: u64)
        requires
            old(self).wf(),
            old(self).sigs().len() < usize::MAX,
        ensures
            final(self).wf(),
            final(self).sigs() == old(self).sigs().push(sig),
            final(self).vals() == old(self).vals().push(value),
            final(self).pending() == old(self).pending() + 1,
    {
        self.tail.push(sig);
        self.tail_values.push(value);
        assert(self.sigs() =~= old(self).sigs().push(sig));
        assert(self.vals() =~= old(self).vals().push(value));
    }

    /// Append a batch of signatures + values. Equivalent to multiple
    /// `push` calls.
    pub fn extend(&mut self, sigs: &[BinarySignature], values: &[u64])
        requires
            old(self).wf(),
            sigs@.len() == values@.len(),
            old(self).sigs().len() + sigs@.len() <= usize::MAX,
        ensures
            final(self).wf(),
            final(self).sigs() == old(self).sigs() + sigs@,
            final(self).vals() == old(self).vals() + values@,
            final(self).pending() == old(self).pending() + sigs@.len(),
    {
        let mut more = slice_to_vec(sigs);
        let mut more_values = slice_to_vec(values);
        self.tail.append(&mut more);
        self.tail_values.append(&mut more_values);
        assert(self.sigs() =~= old(self).sigs() + sigs@);
        assert(self.vals() =~= old(self).vals() + values@);
    }

    /// Reconstruct the signature at a compacted index. Bit k of the result
    /// comes from layer k.
    fn get_compacted(&self, i: usize) -> (sig: BinarySignature)
        requires
            self.wf(),
            i < self.layered().len(),
        ensures
            sig == self.layered()[i as int],
    {
        let ghost want = self.layered()[i as int];
        let mut bits: Vec<bool> = Vec::new();
        let mut k: usize = 0;
        while k < 256
            invariant
                k <= 256,
                self.wf(),
                i < self.layered().len(),
                want == self.layered()[i as int],
                bits@ == want.bits().take(k as int),
            decreases 256 - k,
        {
            let b = self.layers[k].get(i);
            assert(layer_of(self.layered(), k as int)[i as int] == want.bits()[k as int]);
            bits.push(b);
            k = k + 1;
            assert(bits@ =~= want.bits().take(k as int));
        }
        assert(bits@ =~= want.bits());
        let sig = signature_from_bits(bits.as_slice());
        proof {
            lemma_bits_injective(sig, want);
        }
        sig
    }

    /// All stored signatures.
    fn all_sigs(&self) -> (sigs: Vec<BinarySignature>)
        requires
            self.wf(),
        ensures
            sigs@ == self.sigs(),
    {
        let mut sigs: Vec<BinarySignature> = Vec::new();
        let mut i: usize = 0;
        while i < self.values.len()
            invariant
                self.wf(),
                i <= self.layered().len(),
                sigs@ == self.layered().take(i as int),
            decreases self.layered().len() - i,
        {
            sigs.push(self.get_compacted(i));
            i = i + 1;
            assert(sigs@ =~= self.layered().take(i as int));
        }
        let mut tail = slice_to_vec(self.tail.as_slice());
        sigs.append(&mut tail);
        assert(sigs@ =~= self.sigs());
        sigs
    }

    /// All values.
    fn all_values(&self) -> (values: Vec<u64>)
        ensures
            values@ == self.vals(),
    {
        let mut values = slice_to_vec(self.values.as_slice());
        let mut tail = slice_to_vec(self.tail_values.as_slice());
        values.append(&mut tail);
        values
    }

    /// Fold all tail entries into the layered structure. This is the
    /// expensive operation; call periodically rather than per-push.
    pub fn compact(&mut self)
        requires
            old(self).wf(),
            countable(old(self).sigs()),
        ensures
            final(self).wf(),
            final(self).sigs() == old(self).sigs(),
            final(self).vals() == old(self).vals(),
            final(self).pending() == 0,
    {
        if self.tail.len() == 0 {
            return;
        }
        let sigs = self.all_sigs();
        let values = self.all_values();
        *self = Self::build(sigs.as_slice(), values);
    }

    /// The signature at index `i`. Tail entries follow compacted entries.
    /// Returns `None` if `i` is out of range.
    pub fn get(&self, i: usize) -> (sig: Option<BinarySignature>)
        requires
            self.wf(),
        ensures
            sig == if i < self.sigs().len() {
                Some(self.sigs()[i as int])
            } else {
                None
            },
    {
        if i < self.values.len() {
            Some(self.get_compacted(i))
        } else if i - self.values.len() < self.tail.len() {
            Some(self.tail[i - self.values.len()])
        } else {
            None
        }
    }

    /// Get the auxiliary value at index `i`. Tail entries follow
    /// compacted entries in the linear addressing.
    pub fn value(&self, i: usize) -> (value: Option<u64>)
        requires
            self.wf(),
        ensures
            value == if i < self.vals().len() {
                Some(self.vals()[i as int])
            } else {
                None
            },
    {
        if i < self.values.len() {
            Some(self.values[i])
        } else if i - self.values.len() < self.tail_values.len() {
            Some(self.tail_values[i - self.values.len()])
        } else {
            None
        }
    }

    /// Hamming distance between `query` and the signature at index `i`, or
    /// the greatest number when there is none.
    pub fn hamming_distance(&self, query: &BinarySignature, i: usize) -> (dist: u32)
        requires
            self.wf(),
        ensures
            dist == if i < self.sigs().len() {
                hamming(*query, self.sigs()[i as int])
            } else {
                u32::MAX as nat
            },
    {
        match self.get(i) {
            Some(sig) => query.hamming_distance(&sig),
            None => u32::MAX,
        }
    }

    /// Replace places by values.
    fn resolve(&self, hits: &Vec<(u32, usize)>) -> (r: Vec<(u32, u64)>)
        requires
            self.wf(),
            forall|i: int|
                0 <= i < hits@.len() ==> (#[trigger] hits@[i]).1 < self.vals().len(),
        ensures
            r@ == with_values(hits@, self.vals()),
    {
        let ghost all = with_values(hits@, self.vals());
        let mut r: Vec<(u32, u64)> = Vec::new();
        let mut i: usize = 0;
        while i < hits.len()
            invariant
                i <= hits@.len(),
                self.wf(),
                forall|i: int|
                    0 <= i < hits@.len() ==> (#[trigger] hits@[i]).1 < self.vals().len(),
                all == with_values(hits@, self.vals()),
                r@ == all.take(i as int),
            decreases hits@.len() - i,
        {
            let (dist, place) = hits[i];
            if let Some(value) = self.value(place) {
                r.push((dist, value));
            }
            i = i + 1;
            assert(r@ =~= all.take(i as int));
        }
        assert(all.take(i as int) =~= all);
        r
    }

    /// Find the top-K signatures nearest to `query` by Hamming
    /// distance, including both compacted and tail entries. Returns
    /// `(distance, value)` pairs sorted by ascending distance, those that were
    /// stored first before others at the same distance.
    pub fn nearest(&self, query: &BinarySignature, top_k: usize) -> (r: Vec<(u32, u64)>)
        requires
            self.wf(),
        ensures
            r@ == with_values(
                crate::heap::top_k(scored(*query, self.sigs(), 0), top_k as nat),
                self.vals(),
            ),
    {
        let ghost all = scored(*query, self.sigs(), 0);
        let ghost none = Seq::<(u32, usize)>::empty();
        let n: usize = self.len();
        let mut heap: TopKHeap<usize> = TopKHeap::new(top_k);
        let mut i: usize = 0;
        assert(all.take(0) =~= none);
        while i < n
            invariant
                i <= n == self.sigs().len(),
                self.wf(),
                all == scored(*query, self.sigs(), 0),
                heap.wf(),
                heap.bound() == top_k,
                heap@ == offered_all(none, top_k as nat, all.take(i as int)),
            decreases n - i,
        {
            let dist: u32 = self.hamming_distance(query, i);
            proof {
                lemma_hamming_bound(*query, self.sigs()[i as int]);
            }
            heap.push(dist, i);
            i = i + 1;
            assert(all.take(i as int).drop_last() =~= all.take(i - 1));
        }
        proof {
            assert(all.take(i as int) =~= all);
            assert(none + all =~= all);
            lemma_offered_all(none, top_k as nat, all);
            lemma_top_k_places(*query, self.sigs(), top_k as nat);
        }
        self.resolve(&heap.into_sorted_vec())
    }

    /// Find every signature within Hamming radius `radius`, sorted by
    /// distance. Caller is responsible for bounding the result size if
    /// the radius is loose.
    pub fn within_radius(&self, query: &BinarySignature, radius: u32) -> (r: Vec<(u32, u64)>)
        requires
            self.wf(),
        ensures
            r@ == with_values(
                sorted_candidates(scored_within(*query, self.sigs(), radius)),
                self.vals(),
            ),
    {
        let ghost sigs = self.sigs();
        let n: usize = self.len();
        let mut hits: Vec<(u32, usize)> = Vec::new();
        let mut i: usize = 0;
        while i < n
            invariant
                i <= n == sigs.len(),
                self.wf(),
                sigs == self.sigs(),
                hits@ == scored_within(*query, sigs.take(i as int), radius),
            decreases n - i,
        {
            let dist: u32 = self.hamming_distance(query, i);
            proof {
                lemma_hamming_bound(*query, sigs[i as int]);
                assert(sigs.take(i + 1).drop_last() =~= sigs.take(i as int));
            }
            if dist <= radius {
                hits.push((dist, i));
            }
            i = i + 1;
        }
        assert(sigs.take(i as int) =~= sigs);
        let ghost found = hits@;
        sort_pairs(&mut hits);
        proof {
            lemma_sorted_candidates(found);
            assert(ascending(hits@));
            lemma_ascending_unique(hits@, sorted_candidates(found));
            assert forall|j: int| 0 <= j < hits@.len() implies (#[trigger] hits@[j]).1
                < self.vals().len() by {
                hits@.to_multiset_ensures();
                found.to_multiset_ensures();
                assert(hits@.contains(hits@[j]));
                assert(hits@.to_multiset().count(hits@[j]) > 0);
                lemma_scored_within(*query, sigs, radius, hits@[j].0, hits@[j].1);
            }
        }
        self.resolve(&hits)
    }
}

/// What is nearest has a place.
proof fn lemma_top_k_places(query: BinarySignature, sigs: Seq<BinarySignature>, k: nat)
    requires
        sigs.len() <= usize::MAX,
    ensures
        forall|i: int|
            0 <= i < top_k(scored(query, sigs, 0), k).len() ==> (#[trigger] top_k(
                scored(query, sigs, 0),
                k,
            )[i]).1 < sigs.len(),
{
    let all = scored(query, sigs, 0);
    assert forall|i: int| 0 <= i < top_k(all, k).len() implies (#[trigger] top_k(all, k)[i]).1
        < sigs.len() by {
        lemma_top_k_member(all, k, i);
    }
}

impl Default for SignatureDwm {
    fn default() -> (dwm: Self)
        ensures
            dwm.wf(),
            dwm.sigs().len() == 0,
            dwm.vals().len() == 0,
            dwm.pending() == 0,
    {
        Self::empty()
    }
}

/// What is put together from the words of the layers and from the tail is what
/// was stored: a store that was written is read back.
pub proof fn lemma_layers_round_trip(
    saved: Seq<BinarySignature>,
    loaded: Seq<BinarySignature>,
    words: Seq<Seq<u64>>,
    n: nat,
)
    requires
        n <= saved.len() == loaded.len(),
        words.len() == 256,
        forall|k: int|
            0 <= k < 256 ==> packed_bits(#[trigger] words[k], n) == layer_of(
                saved.take(n as int),
                k,
            ),
        forall|i: int, k: int|
            #![trigger loaded[i].bits()[k]]
            0 <= i < n && 0 <= k < 256 ==> loaded[i].bits()[k] == packed_bits(words[k], n)[i],
        forall|i: int| n <= i < saved.len() ==> loaded[i] == saved[i],
    ensures
        loaded == saved,
{
    assert forall|i: int| 0 <= i < saved.len() implies loaded[i] == saved[i] by {
        if i < n {
            assert forall|k: int| 0 <= k < 256 implies loaded[i].bits()[k]
                == saved[i].bits()[k] by {
                assert(packed_bits(words[k], n)[i] == layer_of(saved.take(n as int), k)[i]);
            }
            assert(loaded[i].bits() =~= saved[i].bits());
            lemma_bits_injective(loaded[i], saved[i]);
        }
    }
    assert(loaded =~= saved);
}

/// The elements of `more` pushed one after the other.
pub open spec fn pushed_all<A>(s: Seq<A>, more: Seq<A>) -> Seq<A>
    decreases more.len(),
{
    if more.len() == 0 {
        s
    } else {
        pushed_all(s, more.drop_last()).push(more.last())
    }
}

/// Extending a store is pushing one by one, in order.
pub proof fn lemma_extend_is_pushing<A>(s: Seq<A>, more: Seq<A>)
    ensures
        s + more == pushed_all(s, more),
    decreases more.len(),
{
    if more.len() == 0 {
        assert(s + more =~= s);
    } else {
        lemma_extend_is_pushing(s, more.drop_last());
        assert(s + more =~= (s + more.drop_last()).push(more.last()));
    }
}

/// What was pushed is stored behind everything else, which stays as it was.
pub proof fn lemma_pushed_is_stored(
    before: SignatureDwm,
    after: SignatureDwm,
    sig: BinarySignature,
    value: u64,
    i: int,
)
    requires
        before.wf(),
        after.sigs() == before.sigs().push(sig),
        after.vals() == before.vals().push(value),
        0 <= i < before.sigs().len(),
    ensures
        after.sigs()[before.sigs().len() as int] == sig,
        after.vals()[before.sigs().len() as int] == value,
        after.sigs()[i] == before.sigs()[i],
        after.vals()[i] == before.vals()[i],
{
    before.lemma_wf();
}

/// Stores of the same signatures and values give the same answers, however much
/// of them is compacted: compaction changes no answer.
pub proof fn lemma_compaction_keeps_answers(
    before: SignatureDwm,
    after: SignatureDwm,
    query: BinarySignature,
    k: nat,
    radius: u32,
)
    requires
        after.sigs() == before.sigs(),
        after.vals() == before.vals(),
    ensures
        with_values(top_k(scored(query, after.sigs(), 0), k), after.vals()) == with_values(
            top_k(scored(query, before.sigs(), 0), k),
            before.vals(),
        ),
        with_values(
            sorted_candidates(scored_within(query, after.sigs(), radius)),
            after.vals(),
        ) == with_values(
            sorted_candidates(scored_within(query, before.sigs(), radius)),
            before.vals(),
        ),
{
}

/// What the nearest of a store are, `places` being where they stand: as many as asked for
/// or as there are, each with its distance and its value, the nearest first and those that
/// were stored first before others at the same distance. Every signature that is left out
/// comes behind all of them.
pub proof fn lemma_nearest_stored(
    query: BinarySignature,
    sigs: Seq<BinarySignature>,
    vals: Seq<u64>,
    k: nat,
) -> (places: Seq<usize>)
    requires
        sigs.len() == vals.len() <= usize::MAX,
    ensures
        ({
            let r = with_values(top_k(scored(query, sigs, 0), k), vals);
            &&& r.len() == places.len()
            &&& places.len() == if sigs.len() <= k {
                sigs.len()
            } else {
                k
            }
            &&& forall|i: int|
                0 <= i < r.len() ==> places[i] < sigs.len() && (#[trigger] r[i]).0 == hamming(
                    query,
                    sigs[places[i] as int],
                ) && r[i].1 == vals[places[i] as int]
            &&& forall|i: int, j: int|
                0 <= i < j < r.len() ==> (#[trigger] r[i]).0 < (#[trigger] r[j]).0 || (r[i].0
                    == r[j].0 && places[i] < places[j])
            &&& forall|d: int, i: int|
                #![trigger sigs[d], r[i]]
                0 <= d < sigs.len() && !places.contains(d as usize) && 0 <= i < r.len() ==> r[i].0
                    < hamming(query, sigs[d]) || (r[i].0 == hamming(query, sigs[d]) && places[i]
                    < d)
        }),
{
    let near = top_k(scored(query, sigs, 0), k);
    let places = near.map_values(|h: (u32, usize)| h.1);
    let r = with_values(near, vals);
    lemma_scan_finds_the_nearest(query, sigs, k);
    assert forall|i: int| 0 <= i < r.len() implies places[i] < sigs.len() && (#[trigger] r[i]).0
        == hamming(query, sigs[places[i] as int]) && r[i].1 == vals[places[i] as int] by {
        assert(near[i].1 < sigs.len());
    }
    assert forall|i: int, j: int| 0 <= i < j < r.len() implies (#[trigger] r[i]).0 < (
    #[trigger] r[j]).0 || (r[i].0 == r[j].0 && places[i] < places[j]) by {
        assert(near[i].0 < near[j].0 || (near[i].0 == near[j].0 && near[i].1 < near[j].1));
    }
    assert forall|d: int, i: int|
        #![trigger sigs[d], r[i]]
        0 <= d < sigs.len() && !places.contains(d as usize) && 0 <= i < r.len() implies r[i].0
        < hamming(query, sigs[d]) || (r[i].0 == hamming(query, sigs[d]) && places[i] < d) by {
        let x = (hamming(query, sigs[d]) as u32, d as usize);
        if near.contains(x) {
            let p = choose|p: int| 0 <= p < near.len() && near[p] == x;
            assert(places[p] == d as usize);
        }
        assert(near[i].0 < hamming(query, sigs[d]) || (near[i].0 == hamming(query, sigs[d])
            && near[i].1 < d));
    }
    places
}

/// What is within a radius, `places` being where it stands: exactly the signatures whose
/// distance is no greater, each with its distance and its value, the nearest first and
/// those that were stored first before others at the same distance.
pub proof fn lemma_stored_within(
    query: BinarySignature,
    sigs: Seq<BinarySignature>,
    vals: Seq<u64>,
    radius: u32,
) -> (places: Seq<usize>)
    requires
        sigs.len() == vals.len() <= usize::MAX,
    ensures
        ({
            let r = with_values(sorted_candidates(scored_within(query, sigs, radius)), vals);
            &&& r.len() == places.len()
            &&& forall|i: int|
                0 <= i < r.len() ==> places[i] < sigs.len() && (#[trigger] r[i]).0 == hamming(
                    query,
                    sigs[places[i] as int],
                ) && r[i].1 == vals[places[i] as int]
            &&& forall|i: int, j: int|
                0 <= i < j < r.len() ==> (#[trigger] r[i]).0 < (#[trigger] r[j]).0 || (r[i].0
                    == r[j].0 && places[i] < places[j])
            &&& forall|d: int|
                0 <= d < sigs.len() ==> (places.contains(d as usize) <==> hamming(
                    query,
                    #[trigger] sigs[d],
                ) <= radius)
        }),
{
    let found = scored_within(query, sigs, radius);
    let sorted = sorted_candidates(found);
    let places = sorted.map_values(|h: (u32, usize)| h.1);
    let r = with_values(sorted, vals);
    lemma_sorted_candidates(found);
    found.to_multiset_ensures();
    sorted.to_multiset_ensures();
    lemma_within_distinct(query, sigs, radius);
    assert forall|i: int| 0 <= i < sorted.len() implies found.contains(#[trigger] sorted[i]) by {
        assert(sorted.contains(sorted[i]));
        assert(sorted.to_multiset().count(sorted[i]) > 0);
    }
    assert forall|i: int| 0 <= i < r.len() implies places[i] < sigs.len() && (#[trigger] r[i]).0
        == hamming(query, sigs[places[i] as int]) && r[i].1 == vals[places[i] as int] by {
        assert(found.contains(sorted[i]));
        lemma_scored_within(query, sigs, radius, sorted[i].0, sorted[i].1);
    }
    assert(found.no_duplicates());
    found.lemma_multiset_has_no_duplicates();
    sorted.lemma_multiset_has_no_duplicates_conv();
    assert forall|i: int, j: int| 0 <= i < j < r.len() implies (#[trigger] r[i]).0 < (
    #[trigger] r[j]).0 || (r[i].0 == r[j].0 && places[i] < places[j]) by {
        assert(!crate::heap::nearer(sorted[j], sorted[i]));
        assert(sorted[i] != sorted[j]);
    }
    assert forall|d: int| 0 <= d < sigs.len() implies (places.contains(d as usize) <==> hamming(
        query,
        #[trigger] sigs[d],
    ) <= radius) by {
        let x = (hamming(query, sigs[d]) as u32, d as usize);
        lemma_hamming_bound(query, sigs[d]);
        lemma_scored_within(query, sigs, radius, x.0, x.1);
        if places.contains(d as usize) {
            let p = choose|p: int| 0 <= p < places.len() && places[p] == d as usize;
            assert(found.contains(sorted[p]));
            lemma_scored_within(query, sigs, radius, sorted[p].0, sorted[p].1);
        }
        if hamming(query, sigs[d]) <= radius {
            assert(found.contains(x));
            assert(found.to_multiset().count(x) > 0);
            assert(sorted.contains(x));
            let p = choose|p: int| 0 <= p < sorted.len() && sorted[p] == x;
            assert(places[p] == d as usize);
        }
    }
    places
}

proof fn lemma_within_distinct(query: BinarySignature, sigs: Seq<BinarySignature>, radius: u32)
    requires
        sigs.len() <= usize::MAX,
    ensures
        ({
            let r = scored_within(query, sigs, radius);
            &&& forall|i: int, j: int|
                0 <= i < j < r.len() ==> (#[trigger] r[i]).1 < (#[trigger] r[j]).1
            &&& forall|i: int| 0 <= i < r.len() ==> (#[trigger] r[i]).1 < sigs.len()
        }),
    decreases sigs.len(),
{
    if sigs.len() > 0 {
        let init = sigs.drop_last();
        lemma_within_distinct(query, init, radius);
        let (r, before) = (scored_within(query, sigs, radius), scored_within(query, init, radius));
        assert(forall|i: int| 0 <= i < before.len() ==> #[trigger] r[i] == before[i]);
    }
}

} // verus!
