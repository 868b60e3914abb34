//! The trait that cold tiers of the session memory implement.

use vstd::prelude::*;

use crate::signature::BinarySignature;
use crate::state::EventId;

verus! {

/// The hits are sorted by ascending distance.
pub open spec fn nearest_first(hits: Seq<(u32, EventId, usize)>) -> bool {
    forall|i: int, j: int|
        0 <= i < j < hits.len() ==> (#[trigger] hits[i]).0 <= (#[trigger] hits[j]).0
}

/// Trait surface every cold-tier impl must satisfy.
///
/// Cold tiers store signatures evicted from the hot path so they remain
/// queryable across sessions without consuming the hot-path memory budget.
/// Queries are rarer than hot-path queries, so the trait trades latency for
/// compactness.
pub trait ColdTier: Send + Sync {
    /// Whether the tier can be used.
    open spec fn ready(&self) -> bool {
        true
    }

    /// Number of signatures stored.
    spec fn size(&self) -> usize;

    /// Whether one more signature can be stored.
    open spec fn has_room(&self) -> bool {
        true
    }

    /// Whether a search may find these hits.
    open spec fn may_find(
        &self,
        query: BinarySignature,
        top_k: nat,
        hits: Seq<(u32, EventId, usize)>,
    ) -> bool {
        true
    }

    /// Number of signatures currently stored.
    fn len(&self) -> (n: usize)
        requires
            self.ready(),
        ensures
            n == self.size(),
    ;

    fn is_empty(&self) -> (b: bool)
        requires
            self.ready(),
        ensures
            b == (self.size() == 0),
    {
        self.len() == 0
    }

    /// Add a signature + its source event + doc-index to the cold tier.
    fn add_evicted(&mut self, sig: BinarySignature, event: EventId, doc_idx: usize)
        requires
            old(self).ready(),
            old(self).has_room(),
        ensures
            final(self).ready(),
    ;

    /// Search the cold tier for the top-K nearest signatures to
    /// `query`. Returns `(distance, event_id, doc_idx)` triples sorted
    /// by ascending distance.
    fn search(&self, query: &BinarySignature, top_k: usize) -> (hits: Vec<(u32, EventId, usize)>)
        requires
            self.ready(),
        ensures
            self.may_find(*query, top_k as nat, hits@),
            hits@.len() <= top_k,
            nearest_first(hits@),
    ;
}

} // verus!
