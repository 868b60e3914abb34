//! Work on the chunks of a slice, spread over the thread pool.

use rayon::iter::{IndexedParallelIterator, ParallelIterator};
use rayon::slice::ParallelSlice;
use vstd::prelude::*;

verus! {

/// Number of chunks of `chunk_size` elements, the last one possibly shorter,
/// that `len` elements fall into.
pub open spec fn chunk_count(len: nat, chunk_size: nat) -> nat
    recommends
        chunk_size > 0,
{
    ((len + chunk_size - 1) / (chunk_size as int)) as nat
}

/// The end of chunk `i`, as a position in the whole.
pub open spec fn chunk_end(len: nat, chunk_size: nat, i: int) -> int {
    if (i + 1) * chunk_size <= len {
        (i + 1) * chunk_size
    } else {
        len as int
    }
}

/// Chunk `i` of `items`.
pub open spec fn chunk_at<A>(items: Seq<A>, chunk_size: nat, i: int) -> Seq<A> {
    items.subrange(i * chunk_size, chunk_end(items.len(), chunk_size, i))
}

/// `rayon::current_num_threads`: how many threads the pool has. The number
/// depends on the machine, so nothing is said of it.
pub assume_specification[ rayon::current_num_threads ]() -> (n: usize)
;

/// `ParallelSlice::par_chunks` of rayon, numbered, mapped and collected: `f`
/// is called once on each chunk with the number of the chunk, and the results
/// come back in the order of the chunks. `par_chunks` panics on a chunk size
/// of zero.
#[verifier::external_body]
pub(crate) fn map_chunks<A: Sync, R: Send, F: Fn(usize, &[A]) -> R + Sync + Send>(
    items: &[A],
    chunk_size: usize,
    f: F,
) -> (out: Vec<R>)
    requires
        chunk_size > 0,
        forall|i: usize, c: &[A]|
            i < chunk_count(items@.len(), chunk_size as nat) && c@ == chunk_at(
                items@,
                chunk_size as nat,
                i as int,
            ) ==> #[trigger] call_requires(f, (i, c)),
    ensures
        out@.len() == chunk_count(items@.len(), chunk_size as nat),
        forall|i: int|
            0 <= i < out@.len() ==> exists|c: &[A]|
                c@ == chunk_at(items@, chunk_size as nat, i) && call_ensures(
                    f,
                    (i as usize, c),
                    #[trigger] out@[i],
                ),
{
    items.par_chunks(chunk_size).enumerate().map(|(i, c)| f(i, c)).collect()
}

/// Elements per chunk so that each of `threads` threads gets about one chunk,
/// but at least 1024.
pub open spec fn chunk_size_for(len: usize, threads: usize) -> usize {
    let share = if threads == 0 {
        len
    } else {
        len / threads
    };
    if share < 1024 {
        1024
    } else {
        share
    }
}

/// Elements per chunk so that every thread gets about one chunk, but at least
/// 1024.
pub(crate) fn balanced_chunk_size(len: usize) -> (n: usize)
    ensures
        n >= 1024,
        exists|threads: usize|
            #[trigger] call_ensures(rayon::current_num_threads, (), threads) && n
                == chunk_size_for(len, threads),
{
    let threads: usize = rayon::current_num_threads();
    assert(call_ensures(rayon::current_num_threads, (), threads));
    let n: usize = if threads == 0 {
        len
    } else {
        len / threads
    };
    if n < 1024 {
        1024
    } else {
        n
    }
}

/// The chunks hold every item once, in order: item `p` is in chunk `p / chunk_size`, at
/// `p % chunk_size`.
pub proof fn lemma_item_in_chunk<A>(items: Seq<A>, chunk_size: nat, p: int)
    requires
        chunk_size > 0,
        0 <= p < items.len(),
    ensures
        ({
            let i = p / (chunk_size as int);
            let chunk = chunk_at(items, chunk_size, i);
            &&& 0 <= i < chunk_count(items.len(), chunk_size)
            &&& p % (chunk_size as int) < chunk.len()
            &&& chunk[p % (chunk_size as int)] == items[p]
        }),
{
    let c = chunk_size as int;
    let (i, r) = (p / c, p % c);
    let len = items.len() as int;
    vstd::arithmetic::div_mod::lemma_fundamental_div_mod(p, c);
    vstd::arithmetic::div_mod::lemma_mod_bound(p, c);
    let count = (len + c - 1) / c;
    vstd::arithmetic::div_mod::lemma_fundamental_div_mod(len + c - 1, c);
    vstd::arithmetic::div_mod::lemma_mod_bound(len + c - 1, c);
    assert(i * c == c * i && (i + 1) * c == c * i + c) by (nonlinear_arith);
    assert(0 <= i) by (nonlinear_arith)
        requires
            p == c * i + r,
            0 <= p,
            0 <= r < c,
            0 < c,
    ;
    assert(i < count) by (nonlinear_arith)
        requires
            p == c * i + r,
            0 <= r,
            p < len,
            len + c - 1 == c * count + (len + c - 1) % c,
            (len + c - 1) % c < c,
            0 < c,
    ;
    assert(0 <= c * i) by (nonlinear_arith)
        requires
            0 <= i,
            0 < c,
    ;
}

/// A chunk holds no more than `chunk_size` items, and every one but the last as many.
pub proof fn lemma_chunk_sizes<A>(items: Seq<A>, chunk_size: nat, i: int)
    requires
        chunk_size > 0,
        0 <= i < chunk_count(items.len(), chunk_size),
    ensures
        0 < chunk_at(items, chunk_size, i).len() <= chunk_size,
        i + 1 < chunk_count(items.len(), chunk_size) ==> chunk_at(items, chunk_size, i).len()
            == chunk_size,
{
    let c = chunk_size as int;
    let len = items.len() as int;
    let count = (len + c - 1) / c;
    vstd::arithmetic::div_mod::lemma_fundamental_div_mod(len + c - 1, c);
    vstd::arithmetic::div_mod::lemma_mod_bound(len + c - 1, c);
    assert((i + 1) * c == i * c + c) by (nonlinear_arith);
    assert(count >= 0) by (nonlinear_arith)
        requires
            len + c - 1 == c * count + (len + c - 1) % c,
            0 <= (len + c - 1) % c < c,
            len >= 0,
            0 < c,
    ;
    assert(0 <= i * c < len) by (nonlinear_arith)
        requires
            len + c - 1 == c * count + (len + c - 1) % c,
            0 <= (len + c - 1) % c,
            0 <= i,
            i + 1 <= count,
            0 < c,
    ;
    if i + 1 < count {
        assert((i + 1) * c <= len) by (nonlinear_arith)
            requires
                len + c - 1 == c * count + (len + c - 1) % c,
                0 <= (len + c - 1) % c,
                i + 2 <= count,
                0 < c,
        ;
    }
}

/// Work is shared out evenly, in chunks of no fewer than 1024 items.
pub proof fn lemma_chunk_size_for(len: usize, threads: usize)
    requires
        threads > 0,
    ensures
        chunk_size_for(len, threads) >= 1024,
        chunk_size_for(len, threads) >= len / threads,
        chunk_size_for(len, threads) == 1024 || chunk_size_for(len, threads) == len / threads,
{
}

} // verus!
