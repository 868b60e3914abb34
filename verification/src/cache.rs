//! Cache of scan results for queries that are nearly the same.
//!
//! Cached entries are keyed by a hash of the predicted event set, and by
//! proximity to a previously seen query signature: queries within
//! `delta_tolerance` bits of each other reuse results. On a hit the cached
//! top-K is returned with zero scan work. On a miss the caller scans, then
//! inserts the query with its results.

use std::collections::hash_map::DefaultHasher;
use std::collections::HashMap;
use std::hash::Hasher;
use vstd::prelude::*;
use vstd::slice::slice_to_vec;
use vstd::std_specs::hash::DefaultHasherAdditionalSpecFns;

use crate::bits::{u32_bytes, u32_to_bytes, usize_bytes, usize_to_bytes};
use crate::predictor::{rate, rate_of, Fraction};
use crate::signature::{hamming, lemma_hamming_identity, BinarySignature};
use crate::sorting::{
    lemma_ascending_listing_unique, lemma_sorted_distinct, lemma_sorted_distinct_order_independent,
    sort_distinct, sorted_distinct,
};
use crate::state::EventId;

verus! {

/// Counts of what a [`DeltaCache`] did.
#[derive(Clone, Copy, Debug)]
pub struct DeltaCacheStats {
    pub lookups: u64,
    pub hits: u64,
    pub misses: u64,
    pub inserts: u64,
    pub evictions: u64,
}

impl DeltaCacheStats {
    /// Share of the lookups that were answered.
    pub fn hit_rate(&self) -> (r: Fraction)
        ensures
            r == rate_of(self.hits, self.lookups),
    {
        rate(self.hits, self.lookups)
    }
}

impl Default for DeltaCacheStats {
    fn default() -> (stats: Self)
        ensures
            stats == (DeltaCacheStats { lookups: 0, hits: 0, misses: 0, inserts: 0, evictions: 0 }),
    {
        DeltaCacheStats { lookups: 0, hits: 0, misses: 0, inserts: 0, evictions: 0 }
    }
}

struct Entry {
    query: BinarySignature,
    results: Vec<(u32, usize)>,
    k: usize,
    last_used: u64,
}

/// A cached answer.
pub ghost struct Cached {
    pub query: BinarySignature,
    pub results: Seq<(u32, usize)>,
    pub k: usize,
    pub last_used: u64,
}

impl View for Entry {
    type V = Cached;

    closed spec fn view(&self) -> Cached {
        Cached {
            query: self.query,
            results: self.results@,
            k: self.k,
            last_used: self.last_used,
        }
    }
}

spec fn contents(bucket: Seq<Entry>) -> Seq<Cached> {
    bucket.map_values(|e: Entry| e@)
}

/// Whether a cached answer serves a query.
pub open spec fn serves(c: Cached, query: BinarySignature, k: usize, tolerance: u32) -> bool {
    c.k == k && hamming(query, c.query) <= tolerance
}

/// The place of the answer that serves a query best: the one for the nearest
/// query, and of equally near ones the first.
pub open spec fn best_match(
    bucket: Seq<Cached>,
    query: BinarySignature,
    k: usize,
    tolerance: u32,
) -> Option<int>
    decreases bucket.len(),
{
    if bucket.len() == 0 {
        None
    } else {
        let before = best_match(bucket.drop_last(), query, k, tolerance);
        let c = bucket.last();
        if serves(c, query, k, tolerance) && (match before {
            Some(i) => hamming(query, c.query) < hamming(query, bucket[i].query),
            None => true,
        }) {
            Some(bucket.len() - 1)
        } else {
            before
        }
    }
}

/// The place of the least recently used answer.
pub open spec fn least_recent(bucket: Seq<Cached>) -> int
    decreases bucket.len(),
{
    if bucket.len() <= 1 {
        0
    } else {
        let before = least_recent(bucket.drop_last());
        if bucket.last().last_used < bucket[before].last_used {
            bucket.len() - 1
        } else {
            before
        }
    }
}

/// The bucket after an answer was added. A full bucket gives up its least
/// recently used answer, whose place the last one takes.
pub open spec fn with_answer(bucket: Seq<Cached>, bound: nat, c: Cached) -> Seq<Cached> {
    if bucket.len() >= bound {
        bucket.update(least_recent(bucket), bucket.last()).drop_last().push(c)
    } else {
        bucket.push(c)
    }
}

/// The bytes of the 32-bit numbers, each in the order of the machine.
pub open spec fn numbers_as_bytes(numbers: Seq<usize>) -> Seq<u8>
    decreases numbers.len(),
{
    if numbers.len() == 0 {
        Seq::empty()
    } else {
        numbers_as_bytes(numbers.drop_last()) + u32_bytes(numbers.last() as u32)
    }
}

/// The numbers of the events.
pub open spec fn event_numbers(events: Seq<EventId>) -> Seq<usize> {
    events.map_values(|e: EventId| e.0 as usize)
}

/// The hash of a set of events: the numbers of the events in ascending order,
/// preceded by how many there are, fed to the hasher.
pub open spec fn scope_hash_of(events: Seq<EventId>) -> u64 {
    let numbers = sorted_distinct(event_numbers(events));
    DefaultHasher::spec_finish(
        seq![usize_bytes(numbers.len() as usize), numbers_as_bytes(numbers)],
    )
}

/// How many answers the buckets hold together.
pub open spec fn total(buckets: Map<u64, Seq<Cached>>) -> nat
    decreases buckets.dom().len(),
    when buckets.dom().finite()
{
    if buckets.dom().len() == 0 {
        0
    } else {
        let h = buckets.dom().choose();
        buckets[h].len() + total(buckets.remove(h))
    }
}

/// The total counted from any of the buckets.
proof fn lemma_total(buckets: Map<u64, Seq<Cached>>, h: u64)
    requires
        buckets.dom().finite(),
        buckets.dom().contains(h),
    ensures
        total(buckets) == buckets[h].len() + total(buckets.remove(h)),
    decreases buckets.dom().len(),
{
    let g = buckets.dom().choose();
    if g != h {
        let rest = buckets.remove(g);
        lemma_total(rest, h);
        lemma_total(buckets.remove(h), g);
        assert(rest.remove(h) =~= buckets.remove(h).remove(g));
    }
}

/// The total after one bucket was replaced.
proof fn lemma_total_insert(buckets: Map<u64, Seq<Cached>>, h: u64, bucket: Seq<Cached>)
    requires
        buckets.dom().finite(),
    ensures
        total(buckets.insert(h, bucket)) + (if buckets.dom().contains(h) {
            buckets[h].len()
        } else {
            0
        }) == total(buckets) + bucket.len(),
{
    let after = buckets.insert(h, bucket);
    lemma_total(after, h);
    if buckets.dom().contains(h) {
        lemma_total(buckets, h);
        assert(after.remove(h) =~= buckets.remove(h));
    } else {
        assert(after.remove(h) =~= buckets);
    }
}

/// What the best match is: an answer that serves the query, for no farther
/// query than any other that does. There is none only where none serves it.
pub proof fn lemma_best_match(
    bucket: Seq<Cached>,
    query: BinarySignature,
    k: usize,
    tolerance: u32,
)
    ensures
        match best_match(bucket, query, k, tolerance) {
            Some(i) => {
                &&& 0 <= i < bucket.len()
                &&& serves(bucket[i], query, k, tolerance)
                &&& forall|j: int|
                    0 <= j < bucket.len() && serves(#[trigger] bucket[j], query, k, tolerance)
                        ==> hamming(query, bucket[i].query) < hamming(query, bucket[j].query) || (
                    hamming(query, bucket[i].query) == hamming(query, bucket[j].query) && i <= j)
            },
            None => forall|j: int|
                0 <= j < bucket.len() ==> !serves(#[trigger] bucket[j], query, k, tolerance),
        },
    decreases bucket.len(),
{
    if bucket.len() > 0 {
        let init = bucket.drop_last();
        lemma_best_match(init, query, k, tolerance);
        assert forall|j: int| 0 <= j < init.len() implies bucket[j] == #[trigger] init[j] by {}
        match best_match(bucket, query, k, tolerance) {
            Some(i) => {
                assert forall|j: int|
                    0 <= j < bucket.len() && serves(
                        #[trigger] bucket[j],
                        query,
                        k,
                        tolerance,
                    ) implies hamming(query, bucket[i].query) < hamming(query, bucket[j].query) || (
                hamming(query, bucket[i].query) == hamming(query, bucket[j].query) && i <= j) by {
                    if j < init.len() {
                        assert(init[j] == bucket[j]);
                    }
                }
            },
            None => {
                assert forall|j: int| 0 <= j < bucket.len() implies !serves(
                    #[trigger] bucket[j],
                    query,
                    k,
                    tolerance,
                ) by {
                    if j < init.len() {
                        assert(init[j] == bucket[j]);
                    }
                }
            },
        }
    }
}

/// The least recently used answer was used no later than any other.
pub proof fn lemma_least_recent(bucket: Seq<Cached>)
    requires
        bucket.len() > 0,
    ensures
        0 <= least_recent(bucket) < bucket.len(),
        forall|j: int|
            0 <= j < bucket.len() ==> bucket[least_recent(bucket)].last_used <= (
            #[trigger] bucket[j]).last_used,
    decreases bucket.len(),
{
    if bucket.len() > 1 {
        let init = bucket.drop_last();
        lemma_least_recent(init);
        assert forall|j: int| 0 <= j < bucket.len() implies bucket[least_recent(bucket)].last_used
            <= (#[trigger] bucket[j]).last_used by {
            if j < init.len() {
                assert(init[j] == bucket[j]);
            }
        }
    }
}

/// The same set of events has the same hash, whatever the order in which the
/// events come and however often.
pub proof fn lemma_scope_hash_order_independent(a: Seq<EventId>, b: Seq<EventId>)
    requires
        forall|e: EventId| a.contains(e) <==> b.contains(e),
    ensures
        scope_hash_of(a) == scope_hash_of(b),
{
    let (x, y) = (event_numbers(a), event_numbers(b));
    assert forall|n: usize| x.contains(n) <==> y.contains(n) by {
        if x.contains(n) {
            let i = choose|i: int| 0 <= i < x.len() && x[i] == n;
            assert(a.contains(a[i]));
            let j = choose|j: int| 0 <= j < b.len() && b[j] == a[i];
            assert(y[j] == n);
        }
        if y.contains(n) {
            let i = choose|i: int| 0 <= i < y.len() && y[i] == n;
            assert(b.contains(b[i]));
            let j = choose|j: int| 0 <= j < a.len() && a[j] == b[i];
            assert(x[j] == n);
        }
    }
    lemma_sorted_distinct_order_independent(x, y);
}

/// An answer that was just added is found again: a lookup of the same query
/// with the same `k` is served, and by this very answer unless the bucket
/// already had one for that query.
pub proof fn lemma_inserted_is_served(
    bucket: Seq<Cached>,
    bound: nat,
    c: Cached,
    tolerance: u32,
)
    requires
        0 < bound,
    ensures
        ({
            let after = with_answer(bucket, bound, c);
            let found = best_match(after, c.query, c.k, tolerance);
            &&& found is Some
            &&& hamming(c.query, after[found->0].query) == 0
            &&& (forall|i: int|
                0 <= i < bucket.len() ==> (#[trigger] bucket[i]).k != c.k || hamming(
                    c.query,
                    bucket[i].query,
                ) != 0) ==> after[found->0] == c
        }),
{
    let after = with_answer(bucket, bound, c);
    lemma_hamming_identity(c.query);
    lemma_best_match(after, c.query, c.k, tolerance);
    if bucket.len() > 0 {
        lemma_least_recent(bucket);
    }
    let last = after.len() - 1;
    assert(after[last] == c);
    assert(serves(after[last], c.query, c.k, tolerance));
    let i = best_match(after, c.query, c.k, tolerance)->0;
    if i != last {
        let victim = least_recent(bucket);
        if bucket.len() >= bound {
            if i == victim {
                assert(after[i] == bucket[bucket.len() - 1]);
            } else {
                assert(after[i] == bucket[i]);
            }
        } else {
            assert(after[i] == bucket[i]);
        }
    }
}

/// Cache of top-K results by predicted scope and by query.
pub struct DeltaCache {
    by_scope: HashMap<u64, Vec<Entry>>,
    delta_tolerance: u32,
    max_entries_per_scope: usize,
    use_counter: u64,
    entries: u64,
    stats: DeltaCacheStats,
}

impl DeltaCache {
    /// The buckets that are there.
    pub closed spec fn buckets(&self) -> Map<u64, Seq<Cached>> {
        self.by_scope@.map_values(|v: Vec<Entry>| contents(v@))
    }

    /// The answers that are cached for a scope.
    pub open spec fn bucket(&self, scope_hash: u64) -> Seq<Cached> {
        if self.buckets().dom().contains(scope_hash) {
            self.buckets()[scope_hash]
        } else {
            Seq::empty()
        }
    }

    pub closed spec fn tolerance(&self) -> u32 {
        self.delta_tolerance
    }

    /// How many answers a scope may have.
    pub closed spec fn bound(&self) -> nat {
        self.max_entries_per_scope as nat
    }

    /// How many lookups and inserts there were.
    pub closed spec fn uses(&self) -> u64 {
        self.use_counter
    }

    pub closed spec fn spec_stats(&self) -> DeltaCacheStats {
        self.stats
    }

    /// No scope has more answers than it may have. Every use is counted once,
    /// as a hit, a miss or an insert. No two answers of a scope were last used
    /// at the same time.
    pub closed spec fn wf(&self) -> bool {
        let stats = self.stats;
        &&& self.by_scope@.dom().finite()
        &&& self.max_entries_per_scope >= 1
        &&& self.entries == total(self.buckets())
        &&& self.entries <= stats.inserts
        &&& stats.lookups == stats.hits + stats.misses
        &&& stats.evictions <= stats.inserts
        &&& self.use_counter == stats.lookups + stats.inserts
        &&& forall|h: u64|
            #![trigger self.bucket(h)]
            self.bucket(h).len() <= self.max_entries_per_scope && dated(
                self.bucket(h),
                self.use_counter,
            )
    }

    /// What every operation keeps.
    pub proof fn lemma_wf(&self)
        requires
            self.wf(),
        ensures
            self.bound() >= 1,
            forall|h: u64|
                #![trigger self.bucket(h)]
                self.bucket(h).len() <= self.bound() && dated(self.bucket(h), self.uses()),
            self.spec_stats().lookups == self.spec_stats().hits + self.spec_stats().misses,
            self.spec_stats().evictions <= self.spec_stats().inserts,
            self.uses() == self.spec_stats().lookups + self.spec_stats().inserts,
    {
    }

    /// `delta_tolerance` is the max Hamming distance between a stored query
    /// and an incoming query for them to be considered the same. For 256-bit
    /// signatures, a value around 12-24 bits (5-10%) is reasonable.
    ///
    /// `max_entries_per_scope` caps memory growth per predicted scope; the
    /// least recently used entry is evicted on insert when full.
    pub fn new(delta_tolerance: u32, max_entries_per_scope: usize) -> (cache: Self)
        ensures
            cache.wf(),
            cache.tolerance() == delta_tolerance,
            cache.bound() == if max_entries_per_scope == 0 {
                1
            } else {
                max_entries_per_scope as nat
            },
            cache.buckets() == Map::<u64, Seq<Cached>>::empty(),
            cache.uses() == 0,
            cache.spec_stats() == (DeltaCacheStats {
                lookups: 0,
                hits: 0,
                misses: 0,
                inserts: 0,
                evictions: 0,
            }),
    {
        let cache = DeltaCache {
            by_scope: HashMap::new(),
            delta_tolerance,
            max_entries_per_scope: if max_entries_per_scope == 0 {
                1
            } else {
                max_entries_per_scope
            },
            use_counter: 0,
            entries: 0,
            stats: DeltaCacheStats::default(),
        };
        assert(cache.buckets() =~= Map::empty());
        cache
    }

    /// Compute a stable scope hash from a predicted event set. Order-independent:
    /// the same set produces the same hash regardless of insertion order.
    pub fn scope_hash(events: &[EventId]) -> (hash: u64)
        ensures
            hash == scope_hash_of(events@),
    {
        let mut numbers: Vec<usize> = Vec::new();
        let mut i: usize = 0;
        while i < events.len()
            invariant
                i <= events@.len(),
                numbers@ == event_numbers(events@.take(i as int)),
            decreases events@.len() - i,
        {
            numbers.push(events[i].0 as usize);
            i = i + 1;
            assert(numbers@ =~= event_numbers(events@.take(i as int)));
        }
        assert(events@.take(i as int) =~= events@);
        let sorted = sort_distinct(numbers);
        let mut bytes: Vec<u8> = Vec::new();
        let mut i: usize = 0;
        while i < sorted.len()
            invariant
                i <= sorted@.len(),
                bytes@ == numbers_as_bytes(sorted@.take(i as int)),
            decreases sorted@.len() - i,
        {
            let mut number = slice_to_vec(u32_to_bytes(sorted[i] as u32).as_slice());
            bytes.append(&mut number);
            i = i + 1;
            assert(sorted@.take(i as int).drop_last() =~= sorted@.take(i - 1));
        }
        assert(sorted@.take(i as int) =~= sorted@);
        let mut hasher = DefaultHasher::new();
        hasher.write(usize_to_bytes(sorted.len()).as_slice());
        hasher.write(bytes.as_slice());
        assert(hasher@ =~= seq![usize_bytes(sorted@.len() as usize), bytes@]);
        hasher.finish()
    }

    /// Look up an entry. Returns the cached top-K if a match exists; otherwise
    /// `None`. A match requires the same scope hash, the same `k`, and a
    /// query within `delta_tolerance` Hamming distance.
    pub fn lookup(&mut self, scope_hash: u64, query: &BinarySignature, k: usize) -> (r: Option<
        Vec<(u32, usize)>,
    >)
        requires
            old(self).wf(),
            old(self).uses() < u64::MAX,
        ensures
            final(self).wf(),
            final(self).tolerance() == old(self).tolerance(),
            final(self).bound() == old(self).bound(),
            final(self).uses() == old(self).uses() + 1,
            forall|h: u64|
                h != scope_hash ==> #[trigger] final(self).bucket(h) == old(self).bucket(h),
            total(final(self).buckets()) == total(old(self).buckets()),
            ({
                let before = old(self).bucket(scope_hash);
                let after = final(self).bucket(scope_hash);
                let stats = old(self).spec_stats();
                match best_match(before, *query, k, old(self).tolerance()) {
                    Some(i) => {
                        &&& r matches Some(found) && found@ == before[i].results
                        &&& after == before.update(
                            i,
                            Cached { last_used: final(self).uses(), ..before[i] },
                        )
                        &&& final(self).spec_stats() == DeltaCacheStats {
                            lookups: (stats.lookups + 1) as u64,
                            hits: (stats.hits + 1) as u64,
                            ..stats
                        }
                    },
                    None => {
                        &&& r is None
                        &&& after == before
                        &&& final(self).spec_stats() == DeltaCacheStats {
                            lookups: (stats.lookups + 1) as u64,
                            misses: (stats.misses + 1) as u64,
                            ..stats
                        }
                    },
                }
            }),
    {
        let ghost before = self.buckets();
        let ghost old_bucket = self.bucket(scope_hash);
        assert(before.dom() =~= self.by_scope@.dom());
        self.stats.lookups = self.stats.lookups + 1;
        self.use_counter = self.use_counter + 1;
        let mut bucket: Vec<Entry> = match self.by_scope.remove(&scope_hash) {
            Some(bucket) => bucket,
            None => {
                self.stats.misses = self.stats.misses + 1;
                assert(self.buckets() =~= before);
                assert forall|h: u64| #[trigger] self.bucket(h) == old(self).bucket(h) by {}
                return None;
            },
        };
        let found = Self::nearest_entry(&bucket, query, k, self.delta_tolerance);
        proof {
            assert(contents(bucket@) =~= old_bucket);
            lemma_best_match(old_bucket, *query, k, self.delta_tolerance);
        }
        let result = match found {
            Some(i) => {
                bucket[i].last_used = self.use_counter;
                self.stats.hits = self.stats.hits + 1;
                Some(slice_to_vec(bucket[i].results.as_slice()))
            },
            None => {
                self.stats.misses = self.stats.misses + 1;
                None
            },
        };
        let ghost new_bucket = contents(bucket@);
        self.by_scope.insert(scope_hash, bucket);
        proof {
            assert(self.buckets() =~= before.insert(scope_hash, new_bucket));
            lemma_total_insert(before, scope_hash, new_bucket);
            match found {
                Some(i) => {
                    assert(new_bucket =~= old_bucket.update(
                        i as int,
                        Cached { last_used: self.use_counter, ..old_bucket[i as int] },
                    ));
                },
                None => {
                    assert(new_bucket =~= old_bucket);
                },
            }
            assert(dated(old(self).bucket(scope_hash), old(self).use_counter));
            assert forall|h: u64|
                #![trigger self.bucket(h)]
                self.bucket(h).len() <= self.max_entries_per_scope && dated(
                    self.bucket(h),
                    self.use_counter,
                ) by {
                let b = old(self).bucket(h);
                assert(b.len() <= self.max_entries_per_scope && dated(b, old(self).use_counter));
                if h == scope_hash {
                    assert(self.bucket(h) == new_bucket);
                } else {
                    assert(self.bucket(h) == b);
                }
            }
        }
        result
    }

    /// The place of the entry that serves a query best.
    fn nearest_entry(
        bucket: &Vec<Entry>,
        query: &BinarySignature,
        k: usize,
        tolerance: u32,
    ) -> (place: Option<usize>)
        ensures
            match best_match(contents(bucket@), *query, k, tolerance) {
                Some(i) => place matches Some(p) && p == i,
                None => place is None,
            },
    {
        let ghost all = contents(bucket@);
        let mut best: Option<(usize, u32)> = None;
        let mut i: usize = 0;
        while i < bucket.len()
            invariant
                i <= bucket@.len(),
                all == contents(bucket@),
                match best_match(all.take(i as int), *query, k, tolerance) {
                    Some(p) => best matches Some((q, d)) && q == p && q < i && d == hamming(
                        *query,
                        all[p].query,
                    ),
                    None => best is None,
                },
            decreases bucket@.len() - i,
        {
            assert(all.take(i + 1).drop_last() =~= all.take(i as int));
            assert(all.take(i + 1).last() == bucket@[i as int]@);
            if bucket[i].k == k {
                let dist: u32 = query.hamming_distance(&bucket[i].query);
                if dist <= tolerance {
                    let nearer = match best {
                        Some((_, before)) => dist < before,
                        None => true,
                    };
                    if nearer {
                        best = Some((i, dist));
                    }
                }
            }
            i = i + 1;
        }
        assert(all.take(i as int) =~= all);
        match best {
            Some((p, _)) => Some(p),
            None => None,
        }
    }

    /// The place of the least recently used entry.
    fn victim(bucket: &Vec<Entry>) -> (place: usize)
        requires
            bucket@.len() > 0,
        ensures
            place == least_recent(contents(bucket@)),
            place < bucket@.len(),
    {
        let ghost all = contents(bucket@);
        let mut place: usize = 0;
        let mut i: usize = 1;
        while i < bucket.len()
            invariant
                1 <= i <= bucket@.len(),
                all == contents(bucket@),
                place < i,
                place == least_recent(all.take(i as int)),
            decreases bucket@.len() - i,
        {
            assert(all.take(i + 1).drop_last() =~= all.take(i as int));
            assert(all[i as int] == bucket@[i as int]@ && all[place as int]
                == bucket@[place as int]@);
            if bucket[i].last_used < bucket[place].last_used {
                place = i;
            }
            i = i + 1;
        }
        assert(all.take(i as int) =~= all);
        place
    }

    /// Insert a (query, results) pair. Evicts the LRU entry in the same scope
    /// bucket if the bucket is at capacity.
    pub fn insert(
        &mut self,
        scope_hash: u64,
        query: BinarySignature,
        k: usize,
        results: Vec<(u32, usize)>,
    )
        requires
            old(self).wf(),
            old(self).uses() < u64::MAX,
        ensures
            final(self).wf(),
            final(self).tolerance() == old(self).tolerance(),
            final(self).bound() == old(self).bound(),
            final(self).uses() == old(self).uses() + 1,
            forall|h: u64|
                h != scope_hash ==> #[trigger] final(self).bucket(h) == old(self).bucket(h),
            final(self).bucket(scope_hash) == with_answer(
                old(self).bucket(scope_hash),
                old(self).bound(),
                (Cached { query, results: results@, k, last_used: final(self).uses() }),
            ),
            ({
                let full = old(self).bucket(scope_hash).len() >= old(self).bound();
                let stats = old(self).spec_stats();
                &&& total(final(self).buckets()) == total(old(self).buckets()) + if full {
                    0int
                } else {
                    1int
                }
                &&& final(self).spec_stats() == DeltaCacheStats {
                    inserts: (stats.inserts + 1) as u64,
                    evictions: (stats.evictions + if full {
                        1int
                    } else {
                        0int
                    }) as u64,
                    ..stats
                }
            }),
    {
        let ghost before = self.buckets();
        let ghost old_bucket = self.bucket(scope_hash);
        assert(before.dom() =~= self.by_scope@.dom());
        self.stats.inserts = self.stats.inserts + 1;
        self.use_counter = self.use_counter + 1;
        let mut bucket: Vec<Entry> = match self.by_scope.remove(&scope_hash) {
            Some(bucket) => bucket,
            None => Vec::new(),
        };
        assert(contents(bucket@) =~= old_bucket);
        if bucket.len() >= self.max_entries_per_scope {
            let place: usize = Self::victim(&bucket);
            bucket.swap_remove(place);
            self.stats.evictions = self.stats.evictions + 1;
        } else {
            self.entries = self.entries + 1;
        }
        let ghost added = Cached { query, results: results@, k, last_used: self.use_counter };
        bucket.push(Entry { query, results, k, last_used: self.use_counter });
        let ghost new_bucket = contents(bucket@);
        self.by_scope.insert(scope_hash, bucket);
        proof {
            assert(new_bucket =~= with_answer(old_bucket, self.bound(), added));
            assert(self.buckets() =~= before.insert(scope_hash, new_bucket));
            lemma_total_insert(before, scope_hash, new_bucket);
            if old_bucket.len() > 0 {
                lemma_least_recent(old_bucket);
            }
            assert(dated(old_bucket, old(self).use_counter));
            assert forall|h: u64|
                #![trigger self.bucket(h)]
                self.bucket(h).len() <= self.max_entries_per_scope && dated(
                    self.bucket(h),
                    self.use_counter,
                ) by {
                let b = old(self).bucket(h);
                assert(b.len() <= self.max_entries_per_scope && dated(b, old(self).use_counter));
                if h == scope_hash {
                    assert(self.bucket(h) == new_bucket);
                } else {
                    assert(self.bucket(h) == b);
                }
            }
        }
    }

    /// Forget all cached entries.
    pub fn clear(&mut self)
        requires
            old(self).wf(),
        ensures
            final(self).wf(),
            final(self).tolerance() == old(self).tolerance(),
            final(self).bound() == old(self).bound(),
            final(self).uses() == old(self).uses(),
            final(self).spec_stats() == old(self).spec_stats(),
            final(self).buckets() == Map::<u64, Seq<Cached>>::empty(),
    {
        self.by_scope.clear();
        self.entries = 0;
        assert(self.buckets() =~= Map::empty());
    }

    pub fn stats(&self) -> (stats: DeltaCacheStats)
        ensures
            stats == self.spec_stats(),
    {
        self.stats
    }

    /// How many lookups and inserts there were.
    pub(crate) fn use_count(&self) -> (n: u64)
        ensures
            n == self.uses(),
    {
        self.use_counter
    }

    /// Total number of cached entries across all scopes.
    pub fn len(&self) -> (n: usize)
        requires
            self.wf(),
            total(self.buckets()) <= usize::MAX,
        ensures
            n == total(self.buckets()),
    {
        self.entries as usize
    }

    pub fn is_empty(&self) -> (b: bool)
        requires
            self.wf(),
        ensures
            b == (total(self.buckets()) == 0),
    {
        self.entries == 0
    }
}

/// The answers were last used at different times, none after `now`.
pub open spec fn dated(bucket: Seq<Cached>, now: u64) -> bool {
    &&& forall|i: int| 0 <= i < bucket.len() ==> (#[trigger] bucket[i]).last_used <= now
    &&& forall|i: int, j: int|
        0 <= i < j < bucket.len() ==> (#[trigger] bucket[i]).last_used != (
        #[trigger] bucket[j]).last_used
}

/// A cache without entries, such as one that was cleared, counts none and answers
/// no query.
pub proof fn lemma_cleared_answers_nothing(
    cache: DeltaCache,
    hash: u64,
    query: BinarySignature,
    k: usize,
)
    requires
        cache.buckets() == Map::<u64, Seq<Cached>>::empty(),
    ensures
        total(cache.buckets()) == 0,
        best_match(cache.bucket(hash), query, k, cache.tolerance()) is None,
{
    lemma_best_match(cache.bucket(hash), query, k, cache.tolerance());
}

/// The answer that is given for a query is one for as many results and for a query
/// within the tolerance, and there is none for a nearer query. No answer is given
/// only where there is none.
pub proof fn lemma_cached_answer(
    bucket: Seq<Cached>,
    query: BinarySignature,
    k: usize,
    tolerance: u32,
)
    ensures
        match best_match(bucket, query, k, tolerance) {
            Some(i) => {
                &&& 0 <= i < bucket.len()
                &&& bucket[i].k == k
                &&& hamming(query, bucket[i].query) <= tolerance
                &&& forall|j: int|
                    0 <= j < bucket.len() && (#[trigger] bucket[j]).k == k ==> hamming(
                        query,
                        bucket[i].query,
                    ) <= hamming(query, bucket[j].query)
            },
            None => forall|j: int|
                0 <= j < bucket.len() && (#[trigger] bucket[j]).k == k ==> hamming(
                    query,
                    bucket[j].query,
                ) > tolerance,
        },
{
    lemma_best_match(bucket, query, k, tolerance);
    match best_match(bucket, query, k, tolerance) {
        Some(i) => {
            assert forall|j: int| 0 <= j < bucket.len() && (#[trigger] bucket[j]).k == k implies
                hamming(query, bucket[i].query) <= hamming(query, bucket[j].query) by {
                if hamming(query, bucket[j].query) <= tolerance {
                    assert(serves(bucket[j], query, k, tolerance));
                }
            }
        },
        None => {
            assert forall|j: int| 0 <= j < bucket.len() && (#[trigger] bucket[j]).k == k implies
                hamming(query, bucket[j].query) > tolerance by {
                assert(!serves(bucket[j], query, k, tolerance));
            }
        },
    }
}

/// What a new answer makes of the answers of a scope. It is among them, and while there
/// is room all others stay. Where there is none, an answer stays if another one was
/// used less recently.
pub proof fn lemma_answer_added(bucket: Seq<Cached>, bound: nat, c: Cached)
    requires
        0 < bound,
        bucket.len() <= bound,
    ensures
        ({
            let after = with_answer(bucket, bound, c);
            &&& after.len() == if bucket.len() < bound {
                bucket.len() + 1
            } else {
                bound
            }
            &&& after.last() == c
            &&& bucket.len() < bound ==> forall|i: int|
                0 <= i < bucket.len() ==> #[trigger] after[i] == bucket[i]
            &&& forall|i: int, j: int|
                #![trigger bucket[i], bucket[j]]
                0 <= i < bucket.len() && 0 <= j < bucket.len() && bucket[j].last_used
                    < bucket[i].last_used ==> after.contains(bucket[i])
            &&& forall|i: int|
                0 <= i < after.len() - 1 ==> bucket.contains(#[trigger] after[i])
        }),
{
    let after = with_answer(bucket, bound, c);
    let n = bucket.len() as int;
    if bucket.len() > 0 {
        lemma_least_recent(bucket);
    }
    let p = least_recent(bucket);
    assert forall|i: int, j: int|
        #![trigger bucket[i], bucket[j]]
        0 <= i < bucket.len() && 0 <= j < bucket.len() && bucket[j].last_used
            < bucket[i].last_used implies after.contains(bucket[i]) by {
        if n < bound {
            assert(after[i] == bucket[i]);
        } else if i == n - 1 {
            assert(after[p] == bucket[i]);
        } else {
            assert(after[i] == bucket[i]);
        }
    }
    assert forall|i: int| 0 <= i < after.len() - 1 implies bucket.contains(#[trigger] after[i]) by {
        if n < bound {
            assert(after[i] == bucket[i]);
        } else if i == p {
            assert(after[i] == bucket[n - 1]);
        } else {
            assert(after[i] == bucket[i]);
        }
    }
}

/// The hash of some events is that of their numbers in ascending order, each once: of
/// how many there are, and of their bytes one after the other.
pub proof fn lemma_scope_hash(events: Seq<EventId>, numbers: Seq<u32>)
    requires
        forall|i: int, j: int| 0 <= i < j < numbers.len() ==> numbers[i] < numbers[j],
        forall|n: u32| numbers.contains(n) <==> events.contains(EventId(n)),
    ensures
        scope_hash_of(events) == DefaultHasher::spec_finish(
            seq![
                usize_bytes(numbers.len() as usize),
                numbers.map_values(|n: u32| u32_bytes(n)).flatten(),
            ],
        ),
{
    let wide = numbers.map_values(|n: u32| n as usize);
    let all = event_numbers(events);
    let sorted = sorted_distinct(all);
    lemma_sorted_distinct(all);
    assert forall|x: usize| wide.contains(x) <==> sorted.contains(x) by {
        if wide.contains(x) {
            let i = choose|i: int| 0 <= i < wide.len() && wide[i] == x;
            assert(numbers.contains(numbers[i]));
            let j = choose|j: int| 0 <= j < events.len() && events[j] == EventId(numbers[i]);
            assert(all[j] == x);
            assert(all.contains(x));
        }
        if sorted.contains(x) {
            let j = choose|j: int| 0 <= j < all.len() && all[j] == x;
            assert(events.contains(events[j]));
            assert(numbers.contains(events[j].0));
            let i = choose|i: int| 0 <= i < numbers.len() && numbers[i] == events[j].0;
            assert(wide[i] == x);
        }
    }
    lemma_ascending_listing_unique(wide, sorted);
    lemma_number_bytes(numbers);
    assert(wide =~= sorted);
}

proof fn lemma_number_bytes(numbers: Seq<u32>)
    ensures
        numbers_as_bytes(numbers.map_values(|n: u32| n as usize)) == numbers.map_values(
            |n: u32| u32_bytes(n),
        ).flatten(),
    decreases numbers.len(),
{
    let wide = numbers.map_values(|n: u32| n as usize);
    let bytes = numbers.map_values(|n: u32| u32_bytes(n));
    if numbers.len() == 0 {
        assert(bytes =~= Seq::empty());
    } else {
        let init = numbers.drop_last();
        lemma_number_bytes(init);
        assert(wide.drop_last() =~= init.map_values(|n: u32| n as usize));
        let before = init.map_values(|n: u32| u32_bytes(n));
        assert(bytes =~= before.push(u32_bytes(numbers.last())));
        before.lemma_flatten_push(u32_bytes(numbers.last()));
        assert(wide.last() as u32 == numbers.last());
    }
}

} // verus!
