//! When to build and to use the approximate index of an event.
//!
//! An index of its own is kept for every event that is large enough, and built
//! when the event is first searched. What is decided here is what a search
//! does next; building an index and asking it is up to the caller.

use std::collections::HashMap;
use vstd::prelude::*;

use crate::signature::BinarySignature;
use crate::state::EventId;

verus! {

/// Build parameters for the per-event indexes.
#[derive(Clone, Copy, Debug)]
pub struct HnswBuildOptions {
    pub ef_construction: usize,
    pub ef_search: usize,
}

impl Default for HnswBuildOptions {
    fn default() -> (options: Self)
        ensures
            options == (HnswBuildOptions { ef_construction: 100, ef_search: 64 }),
    {
        HnswBuildOptions { ef_construction: 100, ef_search: 64 }
    }
}

/// What an index is built of: signatures, each with the index of its document.
pub struct ShardContents {
    pub points: Vec<BinarySignature>,
    pub docs: Vec<usize>,
}

/// What a search does next.
pub enum ShardStep {
    /// There is nothing to find.
    Nothing,
    /// Ask the index of the event.
    Query,
    /// Build the index of the event, then ask it.
    Build(ShardContents),
}

/// The documents of a scope that there are.
pub open spec fn present(scope: Seq<usize>, len: nat) -> Seq<usize>
    decreases scope.len(),
{
    if scope.len() == 0 {
        Seq::empty()
    } else {
        let before = present(scope.drop_last(), len);
        if scope.last() < len {
            before.push(scope.last())
        } else {
            before
        }
    }
}

/// The events that have an index, and what the others would be built of.
pub struct EventHnswCache {
    options: HnswBuildOptions,
    docs: Vec<BinarySignature>,
    scopes: HashMap<u32, Vec<usize>>,
    built: HashMap<u32, ()>,
    min_shard_size: usize,
}

impl EventHnswCache {
    /// Number of documents from which on an index is worth building.
    pub const DEFAULT_MIN_SHARD_SIZE: usize = 1024;

    pub closed spec fn sigs(&self) -> Seq<BinarySignature> {
        self.docs@
    }

    /// The documents of each event, by the number of the event.
    pub closed spec fn scope(&self) -> Map<u32, Vec<usize>> {
        self.scopes@
    }

    /// Whether an event has an index.
    pub closed spec fn is_built(&self, event: EventId) -> bool {
        self.built@.contains_key(event.0)
    }

    pub closed spec fn min_size(&self) -> nat {
        self.min_shard_size as nat
    }

    pub closed spec fn spec_options(&self) -> HnswBuildOptions {
        self.options
    }

    /// No index is built here: that happens when an event is first searched.
    pub fn new(
        docs: Vec<BinarySignature>,
        scopes: HashMap<u32, Vec<usize>>,
        options: HnswBuildOptions,
    ) -> (c: Self)
        ensures
            c.sigs() == docs@,
            c.scope() == scopes@,
            c.spec_options() == options,
            c.min_size() == 1024,
            forall|e: EventId| !c.is_built(e),
    {
        EventHnswCache {
            options,
            docs,
            scopes,
            built: HashMap::new(),
            min_shard_size: Self::DEFAULT_MIN_SHARD_SIZE,
        }
    }

    pub fn with_min_shard_size(self, n: usize) -> (c: Self)
        ensures
            c.min_size() == n,
            c.sigs() == self.sigs(),
            c.scope() == self.scope(),
            c.spec_options() == self.spec_options(),
            forall|e: EventId| c.is_built(e) == self.is_built(e),
    {
        EventHnswCache { min_shard_size: n, ..self }
    }

    pub fn min_shard_size(&self) -> (n: usize)
        ensures
            n == self.min_size(),
    {
        self.min_shard_size
    }

    pub fn options(&self) -> (options: HnswBuildOptions)
        ensures
            options == self.spec_options(),
    {
        self.options
    }

    /// Should we even try to use an index for an event of this size?
    pub fn is_worth_hnsw(&self, scope_size: usize) -> (b: bool)
        ensures
            b == (scope_size >= self.min_size()),
    {
        scope_size >= self.min_shard_size
    }

    /// What a search of an event for the `top_k` nearest documents does. An
    /// index that is there is asked. One that is not is built of the documents
    /// of the event, unless the event is unknown or too small.
    pub fn plan(&self, event: EventId, top_k: usize) -> (step: ShardStep)
        ensures
            ({
                let known = self.scope().contains_key(event.0);
                let scope = self.scope()[event.0]@;
                match step {
                    ShardStep::Nothing => top_k == 0 || (!self.is_built(event) && (!known
                        || scope.len() < self.min_size())),
                    ShardStep::Query => top_k > 0 && self.is_built(event),
                    ShardStep::Build(contents) => {
                        &&& top_k > 0 && !self.is_built(event)
                        &&& known && scope.len() >= self.min_size()
                        &&& contents.docs@ == present(scope, self.sigs().len())
                        &&& contents.points@ == contents.docs@.map_values(
                            |d: usize| self.sigs()[d as int],
                        )
                    },
                }
            }),
    {
        if top_k == 0 {
            return ShardStep::Nothing;
        }
        if self.built.contains_key(&event.0) {
            return ShardStep::Query;
        }
        match self.scopes.get(&event.0) {
            None => ShardStep::Nothing,
            Some(scope) => {
                if scope.len() < self.min_shard_size {
                    return ShardStep::Nothing;
                }
                ShardStep::Build(self.contents(scope))
            },
        }
    }

    fn contents(&self, scope: &Vec<usize>) -> (contents: ShardContents)
        ensures
            contents.docs@ == present(scope@, self.sigs().len()),
            contents.points@ == contents.docs@.map_values(|d: usize| self.sigs()[d as int]),
    {
        let mut points: Vec<BinarySignature> = Vec::new();
        let mut docs: Vec<usize> = Vec::new();
        let mut i: usize = 0;
        while i < scope.len()
            invariant
                i <= scope@.len(),
                docs@ == present(scope@.take(i as int), self.sigs().len()),
                points@ =~= docs@.map_values(|d: usize| self.sigs()[d as int]),
            decreases scope@.len() - i,
        {
            let doc: usize = scope[i];
            assert(scope@.take(i + 1).drop_last() =~= scope@.take(i as int));
            if doc < self.docs.len() {
                points.push(self.docs[doc]);
                docs.push(doc);
            }
            i = i + 1;
        }
        assert(scope@.take(i as int) =~= scope@);
        ShardContents { points, docs }
    }

    /// The index of an event was built.
    pub fn note_built(&mut self, event: EventId)
        ensures
            forall|e: EventId|
                #[trigger] final(self).is_built(e) <==> old(self).is_built(e) || e == event,
            final(self).sigs() == old(self).sigs(),
            final(self).scope() == old(self).scope(),
            final(self).min_size() == old(self).min_size(),
            final(self).spec_options() == old(self).spec_options(),
    {
        self.built.insert(event.0, ());
    }
}

/// The documents that are there, in the order of the scope.
pub proof fn lemma_present(scope: Seq<usize>, len: nat)
    ensures
        present(scope, len) == scope.filter(|d: usize| d < len),
    decreases scope.len(),
{
    reveal(Seq::filter);
    if scope.len() > 0 {
        lemma_present(scope.drop_last(), len);
    }
}

} // verus!
