//! A cold tier on top of the layered signature store.

use vstd::prelude::*;

use crate::cold_tier::ColdTier;
use crate::heap::{lemma_sorted_candidates, nearer};
use crate::signature::{hamming, BinarySignature};
use crate::signature_dwm::{countable, lemma_nearest_stored, with_values, SignatureDwm};
use crate::signature_index::{lemma_exact_match_first, scored};
use crate::state::EventId;

verus! {

/// An event and a document index in one value: the event in the upper half,
/// the lower 32 bits of the index in the lower half.
pub open spec fn encoded(event: EventId, doc_idx: usize) -> u64 {
    (event.0 * 0x1_0000_0000 + doc_idx as int % 0x1_0000_0000) as u64
}

/// The event and the document index in a value.
pub open spec fn decoded(value: u64) -> (EventId, usize) {
    (EventId((value as int / 0x1_0000_0000) as u32), (value as int % 0x1_0000_0000) as usize)
}

/// An event and a document index of at most 32 bits come out as they went in.
pub proof fn lemma_encode_decode(event: EventId, doc_idx: usize)
    requires
        doc_idx <= u32::MAX,
    ensures
        decoded(encoded(event, doc_idx)) == (event, doc_idx),
{
}

/// Pack an event and a document index into one value.
pub fn encode(event: EventId, doc_idx: usize) -> (value: u64)
    ensures
        value == encoded(event, doc_idx),
{
    event.0 as u64 * 0x1_0000_0000 + doc_idx as u64 % 0x1_0000_0000
}

/// Unpack an event and a document index.
pub fn decode(value: u64) -> (r: (EventId, usize))
    ensures
        r == decoded(value),
{
    (EventId((value / 0x1_0000_0000) as u32), (value % 0x1_0000_0000) as usize)
}

/// Hits with their values unpacked.
pub open spec fn unpacked(hits: Seq<(u32, u64)>) -> Seq<(u32, EventId, usize)> {
    hits.map_values(|h: (u32, u64)| (h.0, decoded(h.1).0, decoded(h.1).1))
}

/// DWM-backed cold tier. Wraps a [`SignatureDwm`] with a value-encoding
/// scheme that packs `(EventId, doc_idx)` into the DWM's `u64` value slot.
#[derive(Clone, Debug)]
pub struct DwmColdTier {
    dwm: SignatureDwm,
    /// Pending tail size at which `add_evicted` triggers an automatic
    /// `compact()`.
    auto_compact_threshold: usize,
}

impl DwmColdTier {
    /// The store.
    pub closed spec fn store(&self) -> SignatureDwm {
        self.dwm
    }

    pub closed spec fn spec_threshold(&self) -> nat {
        self.auto_compact_threshold as nat
    }

    /// The store is in order, and small enough to be compacted.
    pub open spec fn wf(&self) -> bool {
        &&& self.store().wf()
        &&& countable(self.store().sigs())
    }

    pub fn empty() -> (tier: Self)
        ensures
            tier.wf(),
            tier.store().sigs() == Seq::<BinarySignature>::empty(),
            tier.store().vals() == Seq::<u64>::empty(),
            tier.store().pending() == 0,
            tier.spec_threshold() == 256,
    {
        DwmColdTier { dwm: SignatureDwm::empty(), auto_compact_threshold: 256 }
    }

    /// Build from a complete batch of evicted entries.
    pub fn from_batch(entries: &[(BinarySignature, EventId, usize)]) -> (tier: Self)
        requires
            countable(entries@.map_values(|e: (BinarySignature, EventId, usize)| e.0)),
        ensures
            tier.wf(),
            tier.store().sigs() == entries@.map_values(
                |e: (BinarySignature, EventId, usize)| e.0,
            ),
            tier.store().vals() == entries@.map_values(
                |e: (BinarySignature, EventId, usize)| encoded(e.1, e.2),
            ),
            tier.store().pending() == 0,
            tier.spec_threshold() == 256,
    {
        let ghost all_sigs = entries@.map_values(|e: (BinarySignature, EventId, usize)| e.0);
        let ghost all_values = entries@.map_values(
            |e: (BinarySignature, EventId, usize)| encoded(e.1, e.2),
        );
        let mut sigs: Vec<BinarySignature> = Vec::new();
        let mut values: Vec<u64> = Vec::new();
        let mut i: usize = 0;
        while i < entries.len()
            invariant
                i <= entries@.len(),
                all_sigs == entries@.map_values(|e: (BinarySignature, EventId, usize)| e.0),
                all_values == entries@.map_values(
                    |e: (BinarySignature, EventId, usize)| encoded(e.1, e.2),
                ),
                sigs@ == all_sigs.take(i as int),
                values@ == all_values.take(i as int),
            decreases entries@.len() - i,
        {
            let (sig, event, doc_idx) = entries[i];
            sigs.push(sig);
            values.push(encode(event, doc_idx));
            i = i + 1;
            assert(sigs@ =~= all_sigs.take(i as int));
            assert(values@ =~= all_values.take(i as int));
        }
        assert(sigs@ =~= all_sigs);
        assert(values@ =~= all_values);
        DwmColdTier {
            dwm: SignatureDwm::build(sigs.as_slice(), values),
            auto_compact_threshold: 256,
        }
    }

    /// A tier on an existing store.
    pub fn from_store(dwm: SignatureDwm, auto_compact_threshold: usize) -> (tier: Self)
        requires
            dwm.wf(),
            countable(dwm.sigs()),
        ensures
            tier.wf(),
            tier.store() == dwm,
            tier.spec_threshold() == auto_compact_threshold,
    {
        DwmColdTier { dwm, auto_compact_threshold }
    }

    pub fn with_auto_compact_threshold(self, n: usize) -> (tier: Self)
        ensures
            tier.wf() == self.wf(),
            tier.store() == self.store(),
            tier.spec_threshold() == if n == 0 {
                1
            } else {
                n as nat
            },
    {
        DwmColdTier {
            dwm: self.dwm,
            auto_compact_threshold: if n == 0 {
                1
            } else {
                n
            },
        }
    }

    pub fn auto_compact_threshold(&self) -> (n: usize)
        ensures
            n == self.spec_threshold(),
    {
        self.auto_compact_threshold
    }

    pub fn pending_tail(&self) -> (n: usize)
        ensures
            n == self.store().pending(),
    {
        self.dwm.pending_tail()
    }

    /// The store of signatures.
    pub fn dwm(&self) -> (dwm: &SignatureDwm)
        ensures
            *dwm == self.store(),
    {
        &self.dwm
    }

    /// Force a compaction. Normally fires automatically when the tail
    /// reaches the threshold.
    pub fn compact(&mut self)
        requires
            old(self).wf(),
        ensures
            final(self).wf(),
            final(self).store().sigs() == old(self).store().sigs(),
            final(self).store().vals() == old(self).store().vals(),
            final(self).store().pending() == 0,
            final(self).spec_threshold() == old(self).spec_threshold(),
    {
        self.dwm.compact();
    }
}

impl Default for DwmColdTier {
    fn default() -> (tier: Self)
        ensures
            tier.wf(),
            tier.store().sigs().len() == 0,
            tier.spec_threshold() == 256,
    {
        Self::empty()
    }
}

impl ColdTier for DwmColdTier {
    open spec fn ready(&self) -> bool {
        self.wf()
    }

    open spec fn size(&self) -> usize {
        self.store().sigs().len() as usize
    }

    open spec fn has_room(&self) -> bool {
        &&& self.store().sigs().len() < usize::MAX
        &&& forall|sig: BinarySignature| countable(#[trigger] self.store().sigs().push(sig))
    }

    /// The nearest signatures, with the events and document indices that they
    /// were stored with.
    open spec fn may_find(
        &self,
        query: BinarySignature,
        top_k: nat,
        hits: Seq<(u32, EventId, usize)>,
    ) -> bool {
        hits == unpacked(
            with_values(
                crate::heap::top_k(scored(query, self.store().sigs(), 0), top_k),
                self.store().vals(),
            ),
        )
    }

    fn len(&self) -> (n: usize) {
        self.dwm.len()
    }

    /// Stores the signature at the end, and compacts when the tail has reached
    /// the threshold.
    fn add_evicted(&mut self, sig: BinarySignature, event: EventId, doc_idx: usize)
        ensures
            final(self).store().sigs() == old(self).store().sigs().push(sig),
            final(self).store().vals() == old(self).store().vals().push(encoded(event, doc_idx)),
            final(self).spec_threshold() == old(self).spec_threshold(),
            final(self).store().pending() == if old(self).store().pending() + 1 >= old(
                self,
            ).spec_threshold() {
                0
            } else {
                old(self).store().pending() + 1
            },
    {
        self.dwm.push(sig, encode(event, doc_idx));
        if self.dwm.pending_tail() >= self.auto_compact_threshold {
            self.dwm.compact();
        }
    }

    fn search(&self, query: &BinarySignature, top_k: usize) -> (hits: Vec<(u32, EventId, usize)>) {
        let found = self.dwm.nearest(query, top_k);
        let ghost all = unpacked(found@);
        let mut hits: Vec<(u32, EventId, usize)> = Vec::new();
        let mut i: usize = 0;
        while i < found.len()
            invariant
                i <= found@.len(),
                all == unpacked(found@),
                hits@ == all.take(i as int),
            decreases found@.len() - i,
        {
            let (dist, value) = found[i];
            let (event, doc_idx) = decode(value);
            hits.push((dist, event, doc_idx));
            i = i + 1;
            assert(hits@ =~= all.take(i as int));
        }
        assert(all.take(i as int) =~= all);
        proof {
            let near = scored(*query, self.store().sigs(), 0);
            lemma_sorted_candidates(near);
            let sorted = crate::heap::top_k(near, top_k as nat);
            assert forall|i: int, j: int| 0 <= i < j < hits@.len() implies (
            #[trigger] hits@[i]).0 <= (#[trigger] hits@[j]).0 by {
                assert(hits@[i].0 == sorted[i].0 && hits@[j].0 == sorted[j].0);
                assert(!nearer(sorted[j], sorted[i]));
            }
        }
        hits
    }
}

/// An evicted signature remains queryable: a search for it finds it first, with
/// its event and document, unless the same signature was stored before.
pub proof fn lemma_evicted_is_found(
    sigs: Seq<BinarySignature>,
    vals: Seq<u64>,
    sig: BinarySignature,
    event: EventId,
    doc_idx: usize,
    k: nat,
)
    requires
        sigs.len() == vals.len() < usize::MAX,
        doc_idx <= u32::MAX,
        k > 0,
        forall|i: int| 0 <= i < sigs.len() ==> sigs[i] != sig,
    ensures
        ({
            let found = unpacked(
                with_values(
                    crate::heap::top_k(scored(sig, sigs.push(sig), 0), k),
                    vals.push(encoded(event, doc_idx)),
                ),
            );
            found.len() > 0 && found[0] == (0u32, event, doc_idx)
        }),
{
    let all = sigs.push(sig);
    assert forall|j: int| 0 <= j < sigs.len() implies all[j] != sig by {
        assert(all[j] == sigs[j]);
    }
    lemma_exact_match_first(sig, all, k, sigs.len() as int);
    lemma_encode_decode(event, doc_idx);
}

/// What is stored once the entries were evicted one after the other.
pub open spec fn evicted_all(
    sigs: Seq<BinarySignature>,
    vals: Seq<u64>,
    entries: Seq<(BinarySignature, EventId, usize)>,
) -> (Seq<BinarySignature>, Seq<u64>)
    decreases entries.len(),
{
    if entries.len() == 0 {
        (sigs, vals)
    } else {
        let before = evicted_all(sigs, vals, entries.drop_last());
        let (sig, event, doc_idx) = entries.last();
        (before.0.push(sig), before.1.push(encoded(event, doc_idx)))
    }
}

/// A tier that is built from a batch holds what an empty one holds once the
/// entries were evicted to it one by one, so that both answer alike.
pub proof fn lemma_batch_is_evictions(entries: Seq<(BinarySignature, EventId, usize)>)
    ensures
        evicted_all(Seq::empty(), Seq::empty(), entries) == (
            entries.map_values(|e: (BinarySignature, EventId, usize)| e.0),
            entries.map_values(|e: (BinarySignature, EventId, usize)| encoded(e.1, e.2)),
        ),
    decreases entries.len(),
{
    let sigs = entries.map_values(|e: (BinarySignature, EventId, usize)| e.0);
    let vals = entries.map_values(|e: (BinarySignature, EventId, usize)| encoded(e.1, e.2));
    let found = evicted_all(Seq::empty(), Seq::empty(), entries);
    if entries.len() > 0 {
        lemma_batch_is_evictions(entries.drop_last());
    }
    assert(found.0 =~= sigs);
    assert(found.1 =~= vals);
}

/// What a cold tier finds, `places` being where it stands in the store: the nearest
/// signatures with their distances, each with the event and the document that it was
/// stored with, the nearest first. Every signature that is left out comes behind them.
pub proof fn lemma_cold_hits(
    tier: DwmColdTier,
    query: BinarySignature,
    k: nat,
    hits: Seq<(u32, EventId, usize)>,
) -> (places: Seq<usize>)
    requires
        tier.wf(),
        tier.may_find(query, k, hits),
    ensures
        ({
            let sigs = tier.store().sigs();
            let vals = tier.store().vals();
            &&& hits.len() == places.len()
            &&& hits.len() == if sigs.len() <= k {
                sigs.len()
            } else {
                k
            }
            &&& forall|i: int| 0 <= i < hits.len() ==> (#[trigger] places[i]) < sigs.len()
            &&& forall|i: int|
                0 <= i < hits.len() ==> (#[trigger] hits[i]).0 == hamming(
                    query,
                    sigs[places[i] as int],
                ) && hits[i].1.0 == vals[places[i] as int] / 0x1_0000_0000 && hits[i].2
                    == vals[places[i] as int] % 0x1_0000_0000
            &&& forall|i: int, j: int|
                0 <= i < j < hits.len() ==> (#[trigger] hits[i]).0 < (#[trigger] hits[j]).0 || (
                hits[i].0 == hits[j].0 && places[i] < places[j])
            &&& forall|d: int, i: int|
                #![trigger sigs[d], hits[i]]
                0 <= d < sigs.len() && !places.contains(d as usize) && 0 <= i < hits.len()
                    ==> hits[i].0 < hamming(query, sigs[d]) || (hits[i].0 == hamming(
                    query,
                    sigs[d],
                ) && places[i] < d)
        }),
{
    let (sigs, vals) = (tier.store().sigs(), tier.store().vals());
    tier.store().lemma_wf();
    let places = lemma_nearest_stored(query, sigs, vals, k);
    let r = with_values(crate::heap::top_k(scored(query, sigs, 0), k), vals);
    assert(hits == unpacked(r));
    assert(hits.len() == places.len());
    assert forall|i: int| 0 <= i < hits.len() implies (#[trigger] hits[i]).0 == r[i].0
        && hits[i].1.0 == r[i].1 / 0x1_0000_0000 && hits[i].2 == r[i].1 % 0x1_0000_0000 by {
        assert(hits[i] == unpacked(r)[i]);
    }
    assert forall|d: int, i: int|
        #![trigger sigs[d], hits[i]]
        0 <= d < sigs.len() && !places.contains(d as usize) && 0 <= i < hits.len() implies hits[i].0
        < hamming(query, sigs[d]) || (hits[i].0 == hamming(query, sigs[d]) && places[i] < d) by {
        assert(hits[i].0 == r[i].0);
    }
    assert forall|i: int, j: int| 0 <= i < j < hits.len() implies (#[trigger] hits[i]).0 < (
    #[trigger] hits[j]).0 || (hits[i].0 == hits[j].0 && places[i] < places[j]) by {
        assert(hits[i].0 == r[i].0 && hits[j].0 == r[j].0);
    }
    assert forall|i: int| 0 <= i < hits.len() implies (#[trigger] places[i]) < sigs.len() by {
        assert(hits[i].0 == r[i].0);
    }
    assert forall|i: int| 0 <= i < hits.len() implies (#[trigger] hits[i]).0 == hamming(
        query,
        sigs[places[i] as int],
    ) && hits[i].1.0 == vals[places[i] as int] / 0x1_0000_0000 && hits[i].2
        == vals[places[i] as int] % 0x1_0000_0000 by {
        assert(hits[i].0 == r[i].0);
    }
    places
}

/// An event and a document are stored as one number: the event in its upper half and the
/// document in its lower half.
pub proof fn lemma_packed_halves(event: EventId, doc_idx: usize)
    ensures
        encoded(event, doc_idx) / 0x1_0000_0000 == event.0,
        encoded(event, doc_idx) % 0x1_0000_0000 == doc_idx as int % 0x1_0000_0000,
{
}

/// A batch of evictions stores every entry behind what there is, in the order of the
/// batch.
pub proof fn lemma_batch_is_stored(
    sigs: Seq<BinarySignature>,
    vals: Seq<u64>,
    entries: Seq<(BinarySignature, EventId, usize)>,
)
    ensures
        evicted_all(sigs, vals, entries).0 == sigs + entries.map_values(
            |e: (BinarySignature, EventId, usize)| e.0,
        ),
        evicted_all(sigs, vals, entries).1 == vals + entries.map_values(
            |e: (BinarySignature, EventId, usize)| encoded(e.1, e.2),
        ),
    decreases entries.len(),
{
    if entries.len() > 0 {
        lemma_batch_is_stored(sigs, vals, entries.drop_last());
    }
}

} // verus!
