//! Packed signature storage and scans for the nearest signatures.

use vstd::prelude::*;
use vstd::slice::slice_to_vec;

use crate::error::PrimdError;
use crate::heap::{
    ascending, distances, lemma_merge_distances, lemma_merge_top_k, lemma_nearest_of_distinct,
    lemma_offered_all, lemma_offered_all_ascending, lemma_offered_all_distances,
    lemma_sorted_candidates,
    lemma_top_k_member, lemma_top_k_nearest, lemma_with_candidate, nearer, offered_all, top_k,
    TopKHeap,
};
use crate::parallel::{
    balanced_chunk_size, chunk_at, chunk_count, chunk_end, map_chunks,
};
use crate::signature::{
    hamming, lemma_hamming_bound, lemma_hamming_identity, lemma_hamming_separates, BinarySignature,
};
use crate::sorting::strictly_ascending;
use crate::text::{decimal, decimal_text, joined};

verus! {

/// Every signature of `sigs` with its distance to `query`, numbered from
/// `offset`.
pub open spec fn scored(
    query: BinarySignature,
    sigs: Seq<BinarySignature>,
    offset: int,
) -> Seq<(u32, usize)> {
    Seq::new(sigs.len(), |i: int| (hamming(query, sigs[i]) as u32, (offset + i) as usize))
}

/// The signatures at the places that `scope` names, with their distances to
/// `query`, in the order of `scope`. Places past the end are passed over.
pub open spec fn scored_scope(
    query: BinarySignature,
    sigs: Seq<BinarySignature>,
    scope: Seq<usize>,
) -> Seq<(u32, usize)>
    decreases scope.len(),
{
    if scope.len() == 0 {
        Seq::empty()
    } else {
        let rest = scored_scope(query, sigs, scope.drop_last());
        let i = scope.last();
        if i < sigs.len() {
            rest.push((hamming(query, sigs[i as int]) as u32, i))
        } else {
            rest
        }
    }
}

/// `r` holds the `k` nearest of the candidates `c`: in ascending order, each
/// taken from `c`, at the `k` smallest distances.
pub open spec fn is_nearest(r: Seq<(u32, usize)>, c: Seq<(u32, usize)>, k: nat) -> bool {
    &&& ascending(r)
    &&& r.to_multiset().subset_of(c.to_multiset())
    &&& distances(r) == distances(top_k(c, k))
}

/// The bytes of the signatures, one after the other.
pub open spec fn packed_bytes(sigs: Seq<BinarySignature>) -> Seq<u8> {
    Seq::new(32 * sigs.len(), |i: int| sigs[i / 32].0@[i % 32])
}

/// The bytes determine the signatures: what is read back is what was written.
pub proof fn lemma_packed_bytes_injective(a: Seq<BinarySignature>, b: Seq<BinarySignature>)
    requires
        packed_bytes(a) == packed_bytes(b),
    ensures
        a == b,
{
    assert(packed_bytes(a).len() == 32 * a.len());
    assert(packed_bytes(b).len() == 32 * b.len());
    assert forall|i: int| 0 <= i < a.len() implies a[i] == b[i] by {
        assert forall|j: int| 0 <= j < 32 implies a[i].0@[j] == b[i].0@[j] by {
            assert((32 * i + j) / 32 == i && (32 * i + j) % 32 == j);
            let n = 32 * i + j;
            assert(packed_bytes(a)[n] == a[n / 32].0@[n % 32]);
            assert(packed_bytes(b)[n] == b[n / 32].0@[n % 32]);
        }
        assert(a[i].0@ =~= b[i].0@);
        assert(a[i].0 =~= b[i].0);
    }
    assert(a =~= b);
}

/// `bytemuck::cast_slice` from arrays of 32 bytes to bytes: the same memory
/// seen as the bytes of the arrays in order.
#[verifier::external_body]
fn blocks_as_bytes(blocks: &[[u8; 32]]) -> (bytes: &[u8])
    ensures
        bytes@.len() == 32 * blocks@.len(),
        forall|i: int| 0 <= i < bytes@.len() ==> bytes@[i] == (#[trigger] blocks@[i / 32])@[i % 32],
{
    bytemuck::cast_slice(blocks)
}

/// `bytemuck::cast_slice` from bytes to arrays of 32 bytes: the same memory
/// seen as arrays. It panics when bytes are left over.
#[verifier::external_body]
fn bytes_as_blocks(bytes: &[u8]) -> (blocks: &[[u8; 32]])
    requires
        bytes@.len() % 32 == 0,
    ensures
        bytes@.len() == 32 * blocks@.len(),
        forall|i: int|
            0 <= i < blocks@.len() ==> (#[trigger] blocks@[i])@ == bytes@.subrange(
                32 * i,
                32 * i + 32,
            ),
{
    bytemuck::cast_slice(bytes)
}

/// The signatures that lie one after the other in `bytes`.
pub(crate) fn read_signatures(bytes: &[u8]) -> (signatures: Vec<BinarySignature>)
    requires
        bytes@.len() % 32 == 0,
    ensures
        packed_bytes(signatures@) == bytes@,
{
    let blocks = bytes_as_blocks(bytes);
    let mut signatures: Vec<BinarySignature> = Vec::new();
    let mut i: usize = 0;
    while i < blocks.len()
        invariant
            i <= blocks@.len(),
            signatures@.len() == i,
            forall|j: int| 0 <= j < i ==> (#[trigger] signatures@[j]).0@ == blocks@[j]@,
        decreases blocks@.len() - i,
    {
        signatures.push(BinarySignature(blocks[i]));
        i = i + 1;
    }
    proof {
        let packed = packed_bytes(signatures@);
        assert forall|j: int| 0 <= j < bytes@.len() implies packed[j] == bytes@[j] by {
            assert(signatures@[j / 32].0@ == blocks@[j / 32]@);
            assert(blocks@[j / 32]@[j % 32] == bytes@[32 * (j / 32) + j % 32]);
        }
        assert(packed =~= bytes@);
    }
    signatures
}

/// The message for a file that cannot be an array of signatures.
pub open spec fn bad_size_text(len: nat) -> Seq<char> {
    "file size "@ + decimal_text(len) + " is not a multiple of 32 bytes"@
}

/// Scan `sigs`, numbered from `offset`, for the `k` nearest.
fn scan_from(
    query: &BinarySignature,
    sigs: &[BinarySignature],
    offset: usize,
    k: usize,
) -> (heap: TopKHeap<usize>)
    requires
        offset + sigs@.len() <= usize::MAX,
    ensures
        heap.wf(),
        heap.bound() == k,
        heap@ == top_k(scored(*query, sigs@, offset as int), k as nat),
{
    let ghost all = scored(*query, sigs@, offset as int);
    let ghost none = Seq::<(u32, usize)>::empty();
    let mut heap: TopKHeap<usize> = TopKHeap::new(k);
    let mut i: usize = 0;
    assert(all.take(0) =~= none);
    while i < sigs.len()
        invariant
            i <= sigs@.len(),
            offset + sigs@.len() <= usize::MAX,
            all == scored(*query, sigs@, offset as int),
            heap.wf(),
            heap.bound() == k,
            heap@ == offered_all(none, k as nat, all.take(i as int)),
        decreases sigs@.len() - i,
    {
        let dist: u32 = query.hamming_distance(&sigs[i]);
        heap.push(dist, offset + i);
        i = i + 1;
        assert(all.take(i as int).drop_last() =~= all.take(i - 1));
    }
    proof {
        assert(all.take(i as int) =~= all);
        assert(none + all =~= all);
        lemma_offered_all(none, k as nat, all);
    }
    heap
}

/// Scan the places that `scope` names for the `k` nearest.
fn scan_scope(
    query: &BinarySignature,
    sigs: &[BinarySignature],
    scope: &[usize],
    k: usize,
) -> (heap: TopKHeap<usize>)
    ensures
        heap.wf(),
        heap.bound() == k,
        is_nearest(heap@, scored_scope(*query, sigs@, scope@), k as nat),
        strictly_ascending(scope@) ==> heap@ == top_k(
            scored_scope(*query, sigs@, scope@),
            k as nat,
        ),
{
    let ghost none = Seq::<(u32, usize)>::empty();
    let mut heap: TopKHeap<usize> = TopKHeap::new(k);
    let mut i: usize = 0;
    while i < scope.len()
        invariant
            i <= scope@.len(),
            heap.wf(),
            heap.bound() == k,
            heap@ == offered_all(
                none,
                k as nat,
                scored_scope(*query, sigs@, scope@.take(i as int)),
            ),
        decreases scope@.len() - i,
    {
        let place: usize = scope[i];
        assert(scope@.take(i + 1).drop_last() =~= scope@.take(i as int));
        if place < sigs.len() {
            let dist: u32 = query.hamming_distance(&sigs[place]);
            let ghost before = scored_scope(*query, sigs@, scope@.take(i as int));
            assert(before.push((dist, place)).drop_last() =~= before);
            heap.push(dist, place);
        }
        i = i + 1;
    }
    proof {
        assert(scope@.take(i as int) =~= scope@);
        let all = scored_scope(*query, sigs@, scope@);
        assert(none + all =~= all);
        lemma_offered_all_distances(none, k as nat, all);
        lemma_offered_all_held(none, k as nat, all);
        if strictly_ascending(scope@) {
            lemma_scored_scope_ascending(*query, sigs@, scope@);
            lemma_offered_all(none, k as nat, all);
        }
    }
    heap
}

/// What is held was held before or offered.
proof fn lemma_offered_all_held(s: Seq<(u32, usize)>, k: nat, c: Seq<(u32, usize)>)
    requires
        ascending(s),
        s.len() <= k,
    ensures
        offered_all(s, k, c).to_multiset().subset_of((s + c).to_multiset()),
    decreases c.len(),
{
    if c.len() == 0 {
        assert(s + c =~= s);
    } else {
        let held = offered_all(s, k, c.drop_last());
        let x = c.last();
        lemma_offered_all_held(s, k, c.drop_last());
        lemma_offered_all_ascending(s, k, c.drop_last());
        assert(s + c =~= (s + c.drop_last()).push(x));
        (s + c.drop_last()).to_multiset_ensures();
        lemma_with_candidate(held, x);
        if held.len() > 0 {
            lemma_with_candidate(held.drop_last(), x);
            held.drop_last().to_multiset_ensures();
            assert(held =~= held.drop_last().push(held.last()));
        }
    }
}

/// Along an ascending scope the places ascend.
proof fn lemma_scored_scope_ascending(
    query: BinarySignature,
    sigs: Seq<BinarySignature>,
    scope: Seq<usize>,
)
    requires
        strictly_ascending(scope),
    ensures
        ({
            let all = scored_scope(query, sigs, scope);
            &&& forall|i: int, j: int| 0 <= i < j < all.len() ==> all[i].1 < all[j].1
            &&& forall|i: int| #![trigger all[i]]
                0 <= i < all.len() ==> scope.len() > 0 && all[i].1 <= scope.last()
        }),
    decreases scope.len(),
{
    if scope.len() > 0 {
        let init = scope.drop_last();
        lemma_scored_scope_ascending(query, sigs, init);
        let all = scored_scope(query, sigs, scope);
        let rest = scored_scope(query, sigs, init);
        assert forall|i: int| #![trigger all[i]] 0 <= i < all.len() implies all[i].1
            <= scope.last() by {
            if i < rest.len() {
                assert(all[i] == rest[i]);
                assert(scope[scope.len() - 2] < scope[scope.len() - 1]);
            }
        }
        assert forall|i: int, j: int| 0 <= i < j < all.len() implies all[i].1 < all[j].1 by {
            assert(all[i] == rest[i]);
            if j < rest.len() {
                assert(all[j] == rest[j]);
            } else {
                assert(scope[scope.len() - 2] < scope[scope.len() - 1]);
            }
        }
    }
}

/// A scope in two parts is scored part by part.
proof fn lemma_scored_scope_concat(
    query: BinarySignature,
    sigs: Seq<BinarySignature>,
    a: Seq<usize>,
    b: Seq<usize>,
)
    ensures
        scored_scope(query, sigs, a + b) == scored_scope(query, sigs, a) + scored_scope(
            query,
            sigs,
            b,
        ),
    decreases b.len(),
{
    if b.len() == 0 {
        assert(a + b =~= a);
        assert(scored_scope(query, sigs, a + b) =~= scored_scope(query, sigs, a) + scored_scope(
            query,
            sigs,
            b,
        ));
    } else {
        lemma_scored_scope_concat(query, sigs, a, b.drop_last());
        assert((a + b).drop_last() =~= a + b.drop_last());
        assert(scored_scope(query, sigs, a + b) =~= scored_scope(query, sigs, a) + scored_scope(
            query,
            sigs,
            b,
        ));
    }
}

/// What is taken from a scope are places that it names, with their distances.
pub proof fn lemma_scored_scope_member(
    query: BinarySignature,
    sigs: Seq<BinarySignature>,
    scope: Seq<usize>,
    i: int,
)
    requires
        0 <= i < scored_scope(query, sigs, scope).len(),
    ensures
        ({
            let (dist, place) = scored_scope(query, sigs, scope)[i];
            &&& scope.contains(place)
            &&& place < sigs.len()
            &&& dist == hamming(query, sigs[place as int])
        }),
    decreases scope.len(),
{
    let all = scored_scope(query, sigs, scope);
    let init = scope.drop_last();
    let rest = scored_scope(query, sigs, init);
    if i < rest.len() {
        lemma_scored_scope_member(query, sigs, init, i);
        assert(all[i] == rest[i]);
        let j = choose|j: int| 0 <= j < init.len() && init[j] == all[i].1;
        assert(scope[j] == all[i].1);
    } else {
        assert(scope[scope.len() - 1] == all[i].1);
        lemma_hamming_bound(query, sigs[scope.last() as int]);
    }
}

/// A scan for a stored signature finds it first: the first place that holds
/// it, at distance zero.
pub proof fn lemma_exact_match_first(
    query: BinarySignature,
    sigs: Seq<BinarySignature>,
    k: nat,
    i: int,
)
    requires
        0 <= i < sigs.len() <= usize::MAX,
        sigs[i] == query,
        forall|j: int| 0 <= j < i ==> sigs[j] != query,
        k > 0,
    ensures
        top_k(scored(query, sigs, 0), k).len() > 0,
        top_k(scored(query, sigs, 0), k)[0] == (0u32, i as usize),
{
    let all = scored(query, sigs, 0);
    let x = (0u32, i as usize);
    lemma_hamming_identity(query);
    assert(all[i] == x);
    assert(all.contains(x));
    lemma_top_k_nearest(all, k, x);
    let best = top_k(all, k)[0];
    lemma_top_k_member(all, k, 0);
    let j = choose|j: int| 0 <= j < all.len() && all[j] == best;
    lemma_hamming_separates(query, sigs[j]);
    lemma_hamming_bound(query, sigs[j]);
    if top_k(all, k).contains(x) {
        let p = choose|p: int| 0 <= p < top_k(all, k).len() && top_k(all, k)[p] == x;
        if p > 0 {
            assert(!nearer(top_k(all, k)[p], top_k(all, k)[0]));
        }
    }
    assert(!nearer(x, best));
}

/// A scan of a scope finds nothing outside of it.
pub proof fn lemma_scope_results(
    query: BinarySignature,
    sigs: Seq<BinarySignature>,
    scope: Seq<usize>,
    k: nat,
    i: int,
)
    requires
        0 <= i < top_k(scored_scope(query, sigs, scope), k).len(),
    ensures
        ({
            let (dist, place) = top_k(scored_scope(query, sigs, scope), k)[i];
            &&& scope.contains(place)
            &&& place < sigs.len()
            &&& dist == hamming(query, sigs[place as int])
        }),
{
    let all = scored_scope(query, sigs, scope);
    lemma_top_k_member(all, k, i);
    let j = choose|j: int| 0 <= j < all.len() && all[j] == top_k(all, k)[i];
    lemma_scored_scope_member(query, sigs, scope, j);
}

/// Packed index of 256-bit binary signatures with Hamming scan.
pub struct SignatureIndex {
    signatures: Vec<BinarySignature>,
}

impl View for SignatureIndex {
    type V = Seq<BinarySignature>;

    closed spec fn view(&self) -> Seq<BinarySignature> {
        self.signatures@
    }
}

impl SignatureIndex {
    /// Create from an owned vector of signatures.
    pub fn new(signatures: Vec<BinarySignature>) -> (index: Self)
        ensures
            index@ == signatures@,
    {
        SignatureIndex { signatures }
    }

    /// Read a contiguous array of `[u8; 32]`, which must not be empty.
    pub fn from_bytes(bytes: &[u8]) -> (r: Result<Self, PrimdError>)
        ensures
            r is Ok <==> bytes@.len() > 0 && bytes@.len() % 32 == 0,
            r matches Ok(index) ==> packed_bytes(index@) == bytes@,
            r matches Err(e) ==> e matches PrimdError::InvalidSignatureFile(why) && why@
                == bad_size_text(bytes@.len()),
    {
        if bytes.len() == 0 || bytes.len() % BinarySignature::BYTES != 0 {
            let mut why = joined("file size ", decimal(bytes.len() as u64).as_str());
            why.append(" is not a multiple of 32 bytes");
            return Err(PrimdError::InvalidSignatureFile(why));
        }
        let signatures = read_signatures(bytes);
        Ok(SignatureIndex { signatures })
    }

    /// All signatures as a contiguous byte array.
    pub fn to_bytes(&self) -> (bytes: Vec<u8>)
        ensures
            bytes@ == packed_bytes(self@),
    {
        let mut blocks: Vec<[u8; 32]> = Vec::new();
        let mut i: usize = 0;
        while i < self.signatures.len()
            invariant
                i <= self@.len(),
                blocks@.len() == i,
                forall|j: int| 0 <= j < i ==> (#[trigger] blocks@[j])@ == self@[j].0@,
            decreases self@.len() - i,
        {
            blocks.push(self.signatures[i].0);
            i = i + 1;
        }
        let bytes = blocks_as_bytes(blocks.as_slice());
        proof {
            assert forall|j: int| 0 <= j < bytes@.len() implies bytes@[j] == packed_bytes(
                self@,
            )[j] by {
                assert(blocks@[j / 32]@ == self@[j / 32].0@);
            }
            assert(bytes@ =~= packed_bytes(self@));
        }
        slice_to_vec(bytes)
    }

    /// Borrow signatures as a slice.
    pub fn as_slice(&self) -> (sigs: &[BinarySignature])
        ensures
            sigs@ == self@,
    {
        self.signatures.as_slice()
    }

    pub fn len(&self) -> (n: usize)
        ensures
            n == self@.len(),
    {
        self.signatures.len()
    }

    pub fn is_empty(&self) -> (b: bool)
        ensures
            b == (self@.len() == 0),
    {
        self.signatures.len() == 0
    }

    /// Scan all signatures, returning the top-K nearest by Hamming distance.
    ///
    /// Returns `(distance, doc_index)` pairs sorted by ascending distance, the
    /// smaller index first where distances are equal.
    pub fn scan_top_k(&self, query: &BinarySignature, k: usize) -> (r: Vec<(u32, usize)>)
        ensures
            r@ == top_k(scored(*query, self@, 0), k as nat),
    {
        let n: usize = self.signatures.len();
        if k == 0 || n == 0 {
            proof {
                assert(scored(*query, self@, 0).len() == n);
                lemma_sorted_candidates(scored(*query, self@, 0));
                assert(top_k(scored(*query, self@, 0), k as nat) =~= Seq::empty());
            }
            return Vec::new();
        }
        scan_from(query, self.signatures.as_slice(), 0, k).into_sorted_vec()
    }

    /// Parallel scan. Splits work across threads, merges results in the order
    /// of the chunks, and so finds what the sequential scan finds.
    pub fn scan_top_k_parallel(&self, query: &BinarySignature, k: usize) -> (r: Vec<(u32, usize)>)
        ensures
            r@ == top_k(scored(*query, self@, 0), k as nat),
    {
        let sigs = self.signatures.as_slice();
        let chunk_size: usize = balanced_chunk_size(sigs.len());
        let scan = |i: usize, chunk: &[BinarySignature]| -> (heap: TopKHeap<usize>)
            requires
                i * chunk_size + chunk@.len() <= usize::MAX,
            ensures
                heap.wf(),
                heap.bound() == k,
                heap@ == top_k(scored(*query, chunk@, i * chunk_size), k as nat),
            { scan_from(query, chunk, i * chunk_size, k) };
        let ghost n = sigs@.len();
        proof {
            assert forall|i: usize, c: &[BinarySignature]|
                i < chunk_count(n, chunk_size as nat) && c@ == chunk_at(
                    sigs@,
                    chunk_size as nat,
                    i as int,
                ) implies #[trigger] call_requires(scan, (i, c)) by {
                lemma_chunk(n, chunk_size as nat, i as int);
            }
        }
        let heaps = map_chunks(sigs, chunk_size, scan);
        let mut best: TopKHeap<usize> = TopKHeap::new(k);
        assert(heaps.len() == heaps@.len());
        let ghost mut done: int = 0;
        proof {
            lemma_chunk_count_zero(n, chunk_size as nat);
            assert(scored(*query, sigs@.take(0), 0) =~= Seq::empty());
        }
        for heap in it: heaps
            invariant
                sigs@ == self@,
                n == sigs@.len(),
                n <= usize::MAX,
                chunk_size >= 1024,
                it.seq() == heaps@,
                heaps@.len() == chunk_count(n, chunk_size as nat),
                forall|i: int|
                    #![trigger heaps@[i]]
                    0 <= i < heaps@.len() ==> heaps@[i].wf() && heaps@[i].bound() == k
                        && heaps@[i]@ == top_k(
                        scored(*query, chunk_at(sigs@, chunk_size as nat, i), i * chunk_size),
                        k as nat,
                    ),
                0 <= done <= n,
                done == if it.index() < heaps@.len() {
                    it.index() * chunk_size
                } else {
                    n as int
                },
                best.wf(),
                best.bound() == k,
                best@ == top_k(scored(*query, sigs@.take(done), 0), k as nat),
        {
            proof {
                let i = it.index();
                lemma_chunk(n, chunk_size as nat, i);
                let chunk = chunk_at(sigs@, chunk_size as nat, i);
                let end = chunk_end(n, chunk_size as nat, i);
                let a = scored(*query, sigs@.take(done), 0);
                let b = scored(*query, chunk, done);
                lemma_merge_top_k(a, b, k as nat);
                assert(a + b =~= scored(*query, sigs@.take(end), 0));
                assert(heap == heaps@[i]);
                done = end;
            }
            best.merge(heap);
        }
        assert(sigs@.take(n as int) =~= sigs@);
        best.into_sorted_vec()
    }

    /// Scan only the signatures at the places that `scope` names, returning
    /// the top-K nearest as `(distance, doc_index)` pairs sorted by ascending
    /// distance. Places past the end of the index are passed over.
    pub fn scan_top_k_subset(
        &self,
        query: &BinarySignature,
        scope: &[usize],
        k: usize,
    ) -> (r: Vec<(u32, usize)>)
        ensures
            is_nearest(r@, scored_scope(*query, self@, scope@), k as nat),
            strictly_ascending(scope@) ==> r@ == top_k(
                scored_scope(*query, self@, scope@),
                k as nat,
            ),
    {
        scan_scope(query, self.signatures.as_slice(), scope, k).into_sorted_vec()
    }

    /// Parallel scan of the places that `scope` names. Splits work across
    /// threads, merges results in the order of the chunks.
    pub fn scan_top_k_subset_parallel(
        &self,
        query: &BinarySignature,
        scope: &[usize],
        k: usize,
    ) -> (r: Vec<(u32, usize)>)
        ensures
            is_nearest(r@, scored_scope(*query, self@, scope@), k as nat),
            strictly_ascending(scope@) ==> r@ == top_k(
                scored_scope(*query, self@, scope@),
                k as nat,
            ),
    {
        let sigs = self.signatures.as_slice();
        let chunk_size: usize = balanced_chunk_size(scope.len());
        let scan = |i: usize, chunk: &[usize]| -> (heap: TopKHeap<usize>)
            ensures
                heap.wf(),
                heap.bound() == k,
                is_nearest(heap@, scored_scope(*query, sigs@, chunk@), k as nat),
                strictly_ascending(chunk@) ==> heap@ == top_k(
                    scored_scope(*query, sigs@, chunk@),
                    k as nat,
                ),
            { scan_scope(query, sigs, chunk, k) };
        let ghost n = scope@.len();
        let heaps = map_chunks(scope, chunk_size, scan);
        let mut best: TopKHeap<usize> = TopKHeap::new(k);
        let ghost mut done: int = 0;
        proof {
            lemma_chunk_count_zero(n, chunk_size as nat);
            let none = Seq::<(u32, usize)>::empty();
            assert(scope@.take(0) =~= Seq::empty());
            assert(top_k(none, k as nat) =~= none);
            assert(none.to_multiset().subset_of(none.to_multiset()));
        }
        for heap in it: heaps
            invariant
                sigs@ == self@,
                n == scope@.len(),
                chunk_size >= 1024,
                it.seq() == heaps@,
                heaps@.len() == chunk_count(n, chunk_size as nat),
                forall|i: int|
                    #![trigger heaps@[i]]
                    0 <= i < heaps@.len() ==> {
                        let chunk = chunk_at(scope@, chunk_size as nat, i);
                        &&& heaps@[i].wf()
                        &&& heaps@[i].bound() == k
                        &&& is_nearest(heaps@[i]@, scored_scope(*query, sigs@, chunk), k as nat)
                        &&& strictly_ascending(chunk) ==> heaps@[i]@ == top_k(
                            scored_scope(*query, sigs@, chunk),
                            k as nat,
                        )
                    },
                0 <= done <= n,
                done == if it.index() < heaps@.len() {
                    it.index() * chunk_size
                } else {
                    n as int
                },
                best.wf(),
                best.bound() == k,
                is_nearest(best@, scored_scope(*query, sigs@, scope@.take(done)), k as nat),
                strictly_ascending(scope@) ==> best@ == top_k(
                    scored_scope(*query, sigs@, scope@.take(done)),
                    k as nat,
                ),
        {
            let ghost before = best@;
            best.merge(heap);
            proof {
                let i = it.index();
                assert(heap == heaps@[i]);
                lemma_chunk(n, chunk_size as nat, i);
                let chunk = chunk_at(scope@, chunk_size as nat, i);
                let end = chunk_end(n, chunk_size as nat, i);
                lemma_merge_scopes(
                    *query,
                    sigs@,
                    scope@.take(done),
                    chunk,
                    k as nat,
                    before,
                    heap@,
                );
                assert(scope@.take(done) + chunk =~= scope@.take(end));
                if strictly_ascending(scope@) {
                    assert(strictly_ascending(scope@.take(end)));
                    assert(strictly_ascending(chunk));
                }
                done = end;
            }
        }
        assert(scope@.take(n as int) =~= scope@);
        best.into_sorted_vec()
    }
}

/// Merging what was found along the two parts of a scope.
proof fn lemma_merge_scopes(
    query: BinarySignature,
    sigs: Seq<BinarySignature>,
    a: Seq<usize>,
    b: Seq<usize>,
    k: nat,
    x: Seq<(u32, usize)>,
    y: Seq<(u32, usize)>,
)
    requires
        is_nearest(x, scored_scope(query, sigs, a), k),
        is_nearest(y, scored_scope(query, sigs, b), k),
        x.len() <= k,
    ensures
        is_nearest(offered_all(x, k, y), scored_scope(query, sigs, a + b), k),
        ({
            &&& strictly_ascending(a + b)
            &&& x == top_k(scored_scope(query, sigs, a), k)
            &&& y == top_k(scored_scope(query, sigs, b), k)
        }) ==> offered_all(x, k, y) == top_k(scored_scope(query, sigs, a + b), k),
{
    let (c, d) = (scored_scope(query, sigs, a), scored_scope(query, sigs, b));
    lemma_scored_scope_concat(query, sigs, a, b);
    lemma_offered_all_ascending(x, k, y);
    lemma_offered_all_held(x, k, y);
    lemma_offered_all_distances(x, k, y);
    lemma_merge_distances(x, y, c, d, k);
    vstd::seq_lib::lemma_multiset_commutative(x, y);
    vstd::seq_lib::lemma_multiset_commutative(c, d);
    let held = offered_all(x, k, y).to_multiset();
    assert forall|p: (u32, usize)| held.count(p) <= (c + d).to_multiset().count(p) by {
        assert(held.count(p) <= (x + y).to_multiset().count(p));
        assert(x.to_multiset().count(p) <= c.to_multiset().count(p));
        assert(y.to_multiset().count(p) <= d.to_multiset().count(p));
    }
    if strictly_ascending(a + b) {
        lemma_scored_scope_ascending(query, sigs, a + b);
        assert forall|i: int, j: int| 0 <= i < c.len() && 0 <= j < d.len() implies c[i].1
            < d[j].1 by {
            assert((c + d)[i] == c[i]);
            assert((c + d)[c.len() + j] == d[j]);
        }
        lemma_merge_top_k(c, d, k);
    }
}

/// Chunks lie within the whole and follow one another.
proof fn lemma_chunk(len: nat, chunk_size: nat, i: int)
    requires
        chunk_size > 0,
        0 <= i < chunk_count(len, chunk_size),
    ensures
        0 <= i * chunk_size < chunk_end(len, chunk_size, i) <= len,
        i + 1 < chunk_count(len, chunk_size) ==> chunk_end(len, chunk_size, i) == (i + 1)
            * chunk_size,
        i + 1 == chunk_count(len, chunk_size) ==> chunk_end(len, chunk_size, i) == len,
{
    let n = chunk_count(len, chunk_size) as int;
    let c = chunk_size as int;
    let l = len as int;
    assert(n * c <= l + c - 1 && l <= n * c) by (nonlinear_arith)
        requires
            n == (l + c - 1) / c,
            c > 0,
    ;
    assert(0 <= i * c && i * c < l && i * c < (i + 1) * c) by (nonlinear_arith)
        requires
            0 <= i < n,
            n * c <= l + c - 1,
            c > 0,
    ;
    if i + 1 < n {
        assert((i + 1) * c <= l) by (nonlinear_arith)
            requires
                0 <= i + 1 < n,
                n * c <= l + c - 1,
                c > 0,
        ;
    }
}

proof fn lemma_chunk_count_zero(len: nat, chunk_size: nat)
    requires
        chunk_size > 0,
    ensures
        chunk_count(len, chunk_size) == 0 <==> len == 0,
{
    let c = chunk_size as int;
    let l = len as int;
    assert((l + c - 1) / c == 0 <==> l == 0) by (nonlinear_arith)
        requires
            l >= 0,
            c > 0,
    ;
}

/// What a scan finds: as many documents as asked for or as there are, each with its
/// own distance, the nearest first and the smaller number first where they are
/// equally near. Every document that is left out comes behind all of them.
pub proof fn lemma_scan_finds_the_nearest(
    query: BinarySignature,
    sigs: Seq<BinarySignature>,
    k: nat,
)
    requires
        sigs.len() <= usize::MAX,
    ensures
        ({
            let r = top_k(scored(query, sigs, 0), k);
            &&& r.len() == if sigs.len() <= k {
                sigs.len()
            } else {
                k
            }
            &&& forall|i: int|
                0 <= i < r.len() ==> (#[trigger] r[i]).1 < sigs.len() && r[i].0 == hamming(
                    query,
                    sigs[r[i].1 as int],
                )
            &&& forall|i: int, j: int|
                0 <= i < j < r.len() ==> (#[trigger] r[i]).0 < (#[trigger] r[j]).0 || (r[i].0
                    == r[j].0 && r[i].1 < r[j].1)
            &&& forall|d: int|
                0 <= d < sigs.len() ==> r.contains(
                    (hamming(query, #[trigger] sigs[d]) as u32, d as usize),
                ) || forall|i: int|
                    0 <= i < r.len() ==> (#[trigger] r[i]).0 < hamming(query, sigs[d]) || (r[i].0
                        == hamming(query, sigs[d]) && r[i].1 < d)
        }),
{
    let c = scored(query, sigs, 0);
    let r = top_k(c, k);
    lemma_nearest_of_distinct(c, k);
    assert forall|i: int| 0 <= i < r.len() implies (#[trigger] r[i]).1 < sigs.len() && r[i].0
        == hamming(query, sigs[r[i].1 as int]) by {
        assert(c.contains(r[i]));
        let j = choose|j: int| 0 <= j < c.len() && c[j] == r[i];
        lemma_hamming_bound(query, sigs[j]);
    }
    assert forall|d: int| 0 <= d < sigs.len() implies r.contains(
        (hamming(query, #[trigger] sigs[d]) as u32, d as usize),
    ) || forall|i: int|
        0 <= i < r.len() ==> (#[trigger] r[i]).0 < hamming(query, sigs[d]) || (r[i].0 == hamming(
            query,
            sigs[d],
        ) && r[i].1 < d) by {
        let x = (hamming(query, sigs[d]) as u32, d as usize);
        lemma_hamming_bound(query, sigs[d]);
        assert(c[d] == x);
        assert(c.contains(x));
    }
}

/// A place that a scope names is scored.
proof fn lemma_scored_scope_has(
    query: BinarySignature,
    sigs: Seq<BinarySignature>,
    scope: Seq<usize>,
    d: usize,
)
    requires
        scope.contains(d),
        d < sigs.len(),
    ensures
        scored_scope(query, sigs, scope).contains((hamming(query, sigs[d as int]) as u32, d)),
    decreases scope.len(),
{
    let all = scored_scope(query, sigs, scope);
    let x = (hamming(query, sigs[d as int]) as u32, d);
    if scope.last() == d {
        assert(all[all.len() - 1] == x);
    } else {
        let init = scope.drop_last();
        let j = choose|j: int| 0 <= j < scope.len() && scope[j] == d;
        assert(init[j] == d);
        lemma_scored_scope_has(query, sigs, init, d);
        let rest = scored_scope(query, sigs, init);
        let i = choose|i: int| 0 <= i < rest.len() && rest[i] == x;
        assert(all[i] == x);
    }
}

/// What a scan of a scope finds: documents of the scope, each with its own distance,
/// the nearest first and the smaller number first where they are equally near, and
/// no more than asked for. A document of the scope is left out only where as many as
/// asked for come before it.
pub proof fn lemma_scope_scan_finds_the_nearest(
    query: BinarySignature,
    sigs: Seq<BinarySignature>,
    scope: Seq<usize>,
    k: nat,
)
    requires
        forall|i: int, j: int| 0 <= i < j < scope.len() ==> scope[i] < scope[j],
    ensures
        ({
            let r = top_k(scored_scope(query, sigs, scope), k);
            &&& r.len() <= k
            &&& forall|i: int|
                0 <= i < r.len() ==> scope.contains((#[trigger] r[i]).1) && r[i].1 < sigs.len()
                    && r[i].0 == hamming(query, sigs[r[i].1 as int])
            &&& forall|i: int, j: int|
                0 <= i < j < r.len() ==> (#[trigger] r[i]).0 < (#[trigger] r[j]).0 || (r[i].0
                    == r[j].0 && r[i].1 < r[j].1)
            &&& forall|d: usize|
                #[trigger] scope.contains(d) && d < sigs.len() ==> r.contains(
                    (hamming(query, sigs[d as int]) as u32, d),
                ) || (r.len() == k && forall|i: int|
                    0 <= i < r.len() ==> (#[trigger] r[i]).0 < hamming(query, sigs[d as int]) || (
                    r[i].0 == hamming(query, sigs[d as int]) && r[i].1 < d))
        }),
{
    let c = scored_scope(query, sigs, scope);
    let r = top_k(c, k);
    lemma_scored_scope_ascending(query, sigs, scope);
    lemma_nearest_of_distinct(c, k);
    assert forall|i: int| 0 <= i < r.len() implies scope.contains((#[trigger] r[i]).1) && r[i].1
        < sigs.len() && r[i].0 == hamming(query, sigs[r[i].1 as int]) by {
        lemma_scope_results(query, sigs, scope, k, i);
    }
    assert forall|d: usize| #[trigger] scope.contains(d) && d < sigs.len() implies r.contains(
        (hamming(query, sigs[d as int]) as u32, d),
    ) || (r.len() == k && forall|i: int|
        0 <= i < r.len() ==> (#[trigger] r[i]).0 < hamming(query, sigs[d as int]) || (r[i].0
            == hamming(query, sigs[d as int]) && r[i].1 < d)) by {
        let x = (hamming(query, sigs[d as int]) as u32, d);
        lemma_hamming_bound(query, sigs[d as int]);
        lemma_scored_scope_has(query, sigs, scope, d);
        assert(c.contains(x));
        if c.len() <= k && !r.contains(x) {
            lemma_sorted_candidates(c);
            c.to_multiset_ensures();
            r.to_multiset_ensures();
            assert(c.to_multiset().count(x) > 0);
        }
    }
}

/// A scope that names every document, or at least the nearest ones, is as good as
/// all documents.
pub proof fn lemma_scope_of_the_nearest_is_enough(
    query: BinarySignature,
    sigs: Seq<BinarySignature>,
    scope: Seq<usize>,
    k: nat,
)
    requires
        sigs.len() <= usize::MAX,
        forall|i: int, j: int| 0 <= i < j < scope.len() ==> scope[i] < scope[j],
        forall|i: int|
            0 <= i < top_k(scored(query, sigs, 0), k).len() ==> scope.contains(
                (#[trigger] top_k(scored(query, sigs, 0), k)[i]).1,
            ),
    ensures
        top_k(scored_scope(query, sigs, scope), k) == top_k(scored(query, sigs, 0), k),
{
    let all = scored(query, sigs, 0);
    let part = scored_scope(query, sigs, scope);
    lemma_scored_scope_ascending(query, sigs, scope);
    assert forall|i: int| 0 <= i < part.len() implies all.contains(#[trigger] part[i]) by {
        lemma_scored_scope_member(query, sigs, scope, i);
        assert(all[part[i].1 as int] == part[i]);
    }
    lemma_scan_finds_the_nearest(query, sigs, k);
    assert forall|i: int| 0 <= i < top_k(all, k).len() implies part.contains(
        #[trigger] top_k(all, k)[i],
    ) by {
        lemma_scored_scope_has(query, sigs, scope, top_k(all, k)[i].1);
    }
    crate::heap::lemma_nearest_of_part(all, part, k);
}

/// Those of some candidates that are at a distance.
spec fn those_at(
    m: vstd::multiset::Multiset<(u32, usize)>,
    dist: u32,
) -> vstd::multiset::Multiset<(u32, usize)> {
    m.filter(|y: (u32, usize)| y.0 == dist)
}

/// How many candidates are at a distance shows in the distances alone.
proof fn lemma_at_distance(s: Seq<(u32, usize)>, dist: u32)
    ensures
        those_at(s.to_multiset(), dist).len() == distances(s).to_multiset().count(dist),
    decreases s.len(),
{
    broadcast use vstd::seq_lib::group_to_multiset_ensures;

    if s.len() == 0 {
        assert(s =~= Seq::empty());
        assert(distances(s) =~= Seq::empty());
        assert(those_at(s.to_multiset(), dist) =~= vstd::multiset::Multiset::empty());
    } else {
        let init = s.drop_last();
        lemma_at_distance(init, dist);
        assert(s =~= init.push(s.last()));
        assert(distances(s) =~= distances(init).push(s.last().0));
        if s.last().0 == dist {
            assert(those_at(s.to_multiset(), dist) =~= those_at(init.to_multiset(), dist).insert(
                s.last(),
            ));
        } else {
            assert(those_at(s.to_multiset(), dist) =~= those_at(init.to_multiset(), dist));
        }
    }
}

/// A part of a collection that is as large as the whole is the whole.
proof fn lemma_whole(
    part: vstd::multiset::Multiset<(u32, usize)>,
    whole: vstd::multiset::Multiset<(u32, usize)>,
)
    requires
        part.subset_of(whole),
        part.len() == whole.len(),
    ensures
        part =~= whole,
{
    let rest = whole.sub(part);
    assert(part.add(rest) =~= whole);
    if rest.len() > 0 {
        assert(part.add(rest).len() == part.len() + rest.len());
    }
    assert(rest =~= vstd::multiset::Multiset::empty());
}

/// What a scan of a scope in any order finds: documents of the scope with their own
/// distances, the nearest first, and no more than asked for. A document of the scope
/// is left out only where as many as asked for are no farther.
pub proof fn lemma_unordered_scan_finds_the_nearest(
    query: BinarySignature,
    sigs: Seq<BinarySignature>,
    scope: Seq<usize>,
    k: nat,
    r: Seq<(u32, usize)>,
)
    requires
        is_nearest(r, scored_scope(query, sigs, scope), k),
    ensures
        r.len() <= k,
        forall|i: int|
            0 <= i < r.len() ==> scope.contains((#[trigger] r[i]).1) && r[i].1 < sigs.len()
                && r[i].0 == hamming(query, sigs[r[i].1 as int]),
        forall|i: int, j: int|
            0 <= i < j < r.len() ==> (#[trigger] r[i]).0 <= (#[trigger] r[j]).0,
        forall|d: usize|
            #[trigger] scope.contains(d) && d < sigs.len() ==> r.contains(
                (hamming(query, sigs[d as int]) as u32, d),
            ) || (r.len() == k && forall|i: int|
                0 <= i < r.len() ==> (#[trigger] r[i]).0 <= hamming(query, sigs[d as int])),
{
    let c = scored_scope(query, sigs, scope);
    let sorted = crate::heap::sorted_candidates(c);
    let best = top_k(c, k);
    lemma_sorted_candidates(c);
    c.to_multiset_ensures();
    r.to_multiset_ensures();
    assert(distances(r).len() == r.len() && distances(best).len() == best.len());
    assert forall|i: int| 0 <= i < r.len() implies scope.contains((#[trigger] r[i]).1) && r[i].1
        < sigs.len() && r[i].0 == hamming(query, sigs[r[i].1 as int]) by {
        assert(r.to_multiset().count(r[i]) > 0);
        assert(c.contains(r[i]));
        let j = choose|j: int| 0 <= j < c.len() && c[j] == r[i];
        lemma_scored_scope_member(query, sigs, scope, j);
    }
    assert forall|i: int, j: int| 0 <= i < j < r.len() implies (#[trigger] r[i]).0 <= (
    #[trigger] r[j]).0 by {
        assert(!nearer(r[j], r[i]));
    }
    assert forall|d: usize| #[trigger] scope.contains(d) && d < sigs.len() implies r.contains(
        (hamming(query, sigs[d as int]) as u32, d),
    ) || (r.len() == k && forall|i: int|
        0 <= i < r.len() ==> (#[trigger] r[i]).0 <= hamming(query, sigs[d as int])) by {
        let x = (hamming(query, sigs[d as int]) as u32, d);
        lemma_hamming_bound(query, sigs[d as int]);
        lemma_scored_scope_has(query, sigs, scope, d);
        assert(c.contains(x));
        assert(c.to_multiset().count(x) > 0);
        if c.len() <= k {
            lemma_whole(r.to_multiset(), c.to_multiset());
            assert(r.contains(x));
        } else if k > 0 && r[r.len() - 1].0 > x.0 {
            assert(distances(r)[k - 1] == distances(best)[k - 1]);
            let rest = sorted.skip(k as int);
            assert(sorted =~= best + rest);
            vstd::seq_lib::lemma_multiset_commutative(best, rest);
            rest.to_multiset_ensures();
            assert(those_at(rest.to_multiset(), x.0) =~= vstd::multiset::Multiset::empty()) by {
                assert forall|y: (u32, usize)| those_at(rest.to_multiset(), x.0).count(y) == 0 by {
                    if rest.contains(y) && y.0 == x.0 {
                        let j = choose|j: int| 0 <= j < rest.len() && rest[j] == y;
                        assert(sorted[k + j] == y && sorted[k - 1] == best[k - 1]);
                        assert(!nearer(sorted[k + j], sorted[k - 1]));
                    }
                }
            }
            assert(those_at(c.to_multiset(), x.0) =~= those_at(best.to_multiset(), x.0).add(
                those_at(rest.to_multiset(), x.0),
            ));
            lemma_at_distance(best, x.0);
            lemma_at_distance(r, x.0);
            lemma_whole(those_at(r.to_multiset(), x.0), those_at(c.to_multiset(), x.0));
            assert(those_at(c.to_multiset(), x.0).count(x) > 0);
            assert(r.contains(x));
        }
    }
}

/// The bytes of an index are those of its signatures, 32 for each, in order.
pub proof fn lemma_packed_bytes_in_order(sigs: Seq<BinarySignature>, i: int, j: int)
    requires
        0 <= i < sigs.len(),
        0 <= j < 32,
    ensures
        packed_bytes(sigs).len() == 32 * sigs.len(),
        packed_bytes(sigs)[32 * i + j] == sigs[i].0@[j],
{
    assert((32 * i + j) / 32 == i && (32 * i + j) % 32 == j);
}

} // verus!
