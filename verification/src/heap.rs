//! Bounded collection of the K nearest candidates by Hamming distance.

use vstd::prelude::*;

verus! {

/// What a candidate of a [`TopKHeap`] stands for: something that is ordered by
/// an integer and determined by it.
pub trait HeapItem: Copy {
    /// The place of the item in the order of items.
    spec fn rank(self) -> int;

    /// Whether the item comes before `other`.
    fn precedes(self, other: Self) -> (b: bool)
        ensures
            b == (self.rank() < other.rank()),
    ;

    /// Items at the same place are equal.
    proof fn lemma_rank_determines(self, other: Self)
        requires
            self.rank() == other.rank(),
        ensures
            self == other,
    ;
}

impl HeapItem for usize {
    open spec fn rank(self) -> int {
        self as int
    }

    fn precedes(self, other: Self) -> (b: bool) {
        self < other
    }

    proof fn lemma_rank_determines(self, other: Self) {
    }
}

/// `a` is strictly before `b`: nearer, or equally near with a smaller item.
pub open spec fn nearer<T: HeapItem>(a: (u32, T), b: (u32, T)) -> bool {
    a.0 < b.0 || (a.0 == b.0 && a.1.rank() < b.1.rank())
}

/// The candidates are in ascending order.
pub open spec fn ascending<T: HeapItem>(s: Seq<(u32, T)>) -> bool {
    forall|i: int, j: int| 0 <= i < j < s.len() ==> !nearer(s[j], s[i])
}

/// Where `x` goes in the ascending sequence `s`: behind everything that it is
/// not nearer than.
pub open spec fn slot<T: HeapItem>(s: Seq<(u32, T)>, x: (u32, T)) -> int
    decreases s.len(),
{
    if s.len() == 0 {
        0
    } else if nearer(x, s.last()) {
        slot(s.drop_last(), x)
    } else {
        s.len() as int
    }
}

/// The ascending sequence `s` with `x` added.
pub open spec fn with_candidate<T: HeapItem>(s: Seq<(u32, T)>, x: (u32, T)) -> Seq<(u32, T)> {
    s.insert(slot(s, x), x)
}

/// The candidates of `c` in ascending order.
pub open spec fn sorted_candidates<T: HeapItem>(c: Seq<(u32, T)>) -> Seq<(u32, T)>
    decreases c.len(),
{
    if c.len() == 0 {
        Seq::empty()
    } else {
        with_candidate(sorted_candidates(c.drop_last()), c.last())
    }
}

/// The first `k` elements, or all when there are fewer.
pub open spec fn at_most<A>(s: Seq<A>, k: nat) -> Seq<A> {
    if s.len() <= k {
        s
    } else {
        s.take(k as int)
    }
}

/// The `k` nearest candidates of `c` in ascending order, the smaller item
/// first where distances are equal.
pub open spec fn top_k<T: HeapItem>(c: Seq<(u32, T)>, k: nat) -> Seq<(u32, T)> {
    at_most(sorted_candidates(c), k)
}

/// What a collection bounded by `k` that holds `s` holds after a candidate was
/// offered. While there is room the candidate is kept. A full collection
/// gives up its last element for a candidate at a strictly smaller distance.
pub open spec fn offered<T: HeapItem>(s: Seq<(u32, T)>, k: nat, x: (u32, T)) -> Seq<(u32, T)> {
    if k == 0 {
        s
    } else if s.len() < k {
        with_candidate(s, x)
    } else if x.0 < s.last().0 {
        with_candidate(s.drop_last(), x)
    } else {
        s
    }
}

/// The candidates of `c` offered one after the other.
pub open spec fn offered_all<T: HeapItem>(
    s: Seq<(u32, T)>,
    k: nat,
    c: Seq<(u32, T)>,
) -> Seq<(u32, T)>
    decreases c.len(),
{
    if c.len() == 0 {
        s
    } else {
        offered(offered_all(s, k, c.drop_last()), k, c.last())
    }
}

/// The distances of the candidates.
pub open spec fn distances<T>(s: Seq<(u32, T)>) -> Seq<u32> {
    s.map_values(|x: (u32, T)| x.0)
}

/// No candidate of `s` is at the distance of `x` with a greater item.
pub open spec fn ties_before<T: HeapItem>(s: Seq<(u32, T)>, x: (u32, T)) -> bool {
    forall|i: int| 0 <= i < s.len() ==> !(s[i].0 == x.0 && x.1.rank() < s[i].1.rank())
}

pub proof fn lemma_slot<T: HeapItem>(s: Seq<(u32, T)>, x: (u32, T))
    requires
        ascending(s),
    ensures
        0 <= slot(s, x) <= s.len(),
        forall|i: int| 0 <= i < slot(s, x) ==> !nearer(x, s[i]),
        forall|i: int| slot(s, x) <= i < s.len() ==> nearer(x, s[i]),
    decreases s.len(),
{
    if s.len() > 0 {
        if nearer(x, s.last()) {
            let init = s.drop_last();
            lemma_slot(init, x);
            assert forall|i: int| 0 <= i < slot(s, x) implies !nearer(x, s[i]) by {
                assert(!nearer(x, init[i]));
            }
            assert forall|i: int| slot(s, x) <= i < s.len() implies nearer(x, s[i]) by {
                if i < s.len() - 1 {
                    assert(nearer(x, init[i]));
                }
            }
        } else {
            assert forall|i: int| 0 <= i < s.len() implies !nearer(x, s[i]) by {
                if i < s.len() - 1 {
                    assert(!nearer(s[s.len() - 1], s[i]));
                }
            }
        }
    }
}

/// A slot is determined by what stands before and behind it.
proof fn lemma_slot_unique<T: HeapItem>(s: Seq<(u32, T)>, x: (u32, T), p: int)
    requires
        ascending(s),
        0 <= p <= s.len(),
        forall|i: int| 0 <= i < p ==> !nearer(x, s[i]),
        forall|i: int| p <= i < s.len() ==> nearer(x, s[i]),
    ensures
        slot(s, x) == p,
{
    lemma_slot(s, x);
    let q = slot(s, x);
    if q < p {
        assert(nearer(x, s[q]));
    } else if p < q {
        assert(nearer(x, s[p]));
    }
}

pub proof fn lemma_with_candidate<T: HeapItem>(s: Seq<(u32, T)>, x: (u32, T))
    requires
        ascending(s),
    ensures
        ascending(with_candidate(s, x)),
        with_candidate(s, x).len() == s.len() + 1,
        with_candidate(s, x).to_multiset() == s.to_multiset().insert(x),
{
    lemma_slot(s, x);
    let p = slot(s, x);
    let r = with_candidate(s, x);
    assert forall|i: int, j: int| 0 <= i < j < r.len() implies !nearer(r[j], r[i]) by {
        let a = if i < p {
            i
        } else {
            i - 1
        };
        let b = if j < p {
            j
        } else {
            j - 1
        };
        if i != p && j != p {
            assert(!nearer(s[b], s[a]));
        }
    }
    s.to_multiset_ensures();
    assert(s.insert(p, x).to_multiset() == s.to_multiset().insert(x)) by {
        s.insert_ensures(p, x);
        let left = s.take(p);
        let right = s.skip(p);
        assert(s =~= left + right);
        assert(s.insert(p, x) =~= left.push(x) + right);
        vstd::seq_lib::lemma_multiset_commutative(left, right);
        vstd::seq_lib::lemma_multiset_commutative(left.push(x), right);
        left.to_multiset_ensures();
        assert((left + right).to_multiset() =~= left.to_multiset().add(right.to_multiset()));
        assert(left.push(x).to_multiset() =~= left.to_multiset().insert(x));
        assert(s.insert(p, x).to_multiset() =~= s.to_multiset().insert(x));
    }
}

/// Sorting keeps the candidates and puts them in ascending order.
pub proof fn lemma_sorted_candidates<T: HeapItem>(c: Seq<(u32, T)>)
    ensures
        ascending(sorted_candidates(c)),
        sorted_candidates(c).len() == c.len(),
        sorted_candidates(c).to_multiset() == c.to_multiset(),
    decreases c.len(),
{
    if c.len() == 0 {
        assert(c =~= Seq::empty());
    } else {
        lemma_sorted_candidates(c.drop_last());
        lemma_with_candidate(sorted_candidates(c.drop_last()), c.last());
        c.drop_last().to_multiset_ensures();
        assert(c =~= c.drop_last().push(c.last()));
    }
}

/// What is nearest is one of the candidates.
pub proof fn lemma_top_k_member<T: HeapItem>(c: Seq<(u32, T)>, k: nat, i: int)
    requires
        0 <= i < top_k(c, k).len(),
    ensures
        c.contains(top_k(c, k)[i]),
{
    let sorted = sorted_candidates(c);
    lemma_sorted_candidates(c);
    c.to_multiset_ensures();
    sorted.to_multiset_ensures();
    let x = top_k(c, k)[i];
    assert(sorted[i] == x);
    assert(sorted.contains(x));
    assert(sorted.to_multiset().count(x) > 0);
}

/// Of the `k` nearest none is farther than a candidate that is left out.
pub proof fn lemma_top_k_nearest<T: HeapItem>(c: Seq<(u32, T)>, k: nat, x: (u32, T))
    requires
        c.contains(x),
    ensures
        top_k(c, k).len() == if c.len() <= k {
            c.len()
        } else {
            k
        },
        ascending(top_k(c, k)),
        top_k(c, k).contains(x) || (top_k(c, k).len() == k && forall|i: int|
            0 <= i < k ==> !nearer(x, #[trigger] top_k(c, k)[i])),
{
    let sorted = sorted_candidates(c);
    lemma_sorted_candidates(c);
    c.to_multiset_ensures();
    sorted.to_multiset_ensures();
    assert(c.to_multiset().count(x) > 0);
    assert(sorted.contains(x));
    let j = choose|j: int| 0 <= j < sorted.len() && sorted[j] == x;
    let near = top_k(c, k);
    if j < near.len() {
        assert(near[j] == x);
    } else {
        assert forall|i: int| 0 <= i < k implies !nearer(x, #[trigger] near[i]) by {
            assert(near[i] == sorted[i]);
            assert(!nearer(sorted[j], sorted[i]));
        }
    }
}

/// There is one ascending arrangement of the same candidates.
pub proof fn lemma_ascending_unique<T: HeapItem>(a: Seq<(u32, T)>, b: Seq<(u32, T)>)
    requires
        ascending(a),
        ascending(b),
        a.to_multiset() == b.to_multiset(),
    ensures
        a == b,
    decreases a.len(),
{
    a.to_multiset_ensures();
    b.to_multiset_ensures();
    assert(a.len() == b.len());
    if a.len() == 0 {
        assert(a =~= b);
    } else {
        let (x, y) = (a.last(), b.last());
        assert(a.to_multiset().count(x) > 0) by {
            assert(a.contains(x));
        }
        assert(b.to_multiset().count(y) > 0) by {
            assert(b.contains(y));
        }
        assert(b.contains(x));
        assert(a.contains(y));
        let i = choose|i: int| 0 <= i < b.len() && b[i] == x;
        let j = choose|j: int| 0 <= j < a.len() && a[j] == y;
        assert(!nearer(y, x)) by {
            if i < b.len() - 1 {
                assert(!nearer(b[b.len() - 1], b[i]));
            }
        }
        assert(!nearer(x, y)) by {
            if j < a.len() - 1 {
                assert(!nearer(a[a.len() - 1], a[j]));
            }
        }
        x.1.lemma_rank_determines(y.1);
        assert(x == y);
        a.drop_last().to_multiset_ensures();
        b.drop_last().to_multiset_ensures();
        assert(a =~= a.drop_last().push(x));
        assert(b =~= b.drop_last().push(x));
        assert(a.drop_last().to_multiset() =~= a.to_multiset().remove(x));
        assert(b.drop_last().to_multiset() =~= b.to_multiset().remove(x));
        lemma_ascending_unique(a.drop_last(), b.drop_last());
        assert(a =~= b);
    }
}

/// Sorting does not depend on the order in which the candidates come.
pub proof fn lemma_sorted_order_independent<T: HeapItem>(a: Seq<(u32, T)>, b: Seq<(u32, T)>)
    requires
        a.to_multiset() == b.to_multiset(),
    ensures
        sorted_candidates(a) == sorted_candidates(b),
{
    lemma_sorted_candidates(a);
    lemma_sorted_candidates(b);
    lemma_ascending_unique(sorted_candidates(a), sorted_candidates(b));
}

/// Offering keeps order and bound.
pub proof fn lemma_offered<T: HeapItem>(s: Seq<(u32, T)>, k: nat, x: (u32, T))
    requires
        ascending(s),
        s.len() <= k,
    ensures
        ascending(offered(s, k, x)),
        offered(s, k, x).len() <= k,
        offered(s, k, x).len() == if s.len() < k {
            s.len() + 1
        } else {
            k
        },
{
    if k > 0 && s.len() < k {
        lemma_with_candidate(s, x);
    } else if k > 0 {
        lemma_with_candidate(s.drop_last(), x);
    }
}

/// A collection that holds the `k` nearest of the ascending sequence `s`, and
/// is offered a candidate that comes behind all candidates at the same
/// distance, then holds the `k` nearest of `s` and the candidate.
proof fn lemma_offered_to_nearest<T: HeapItem>(s: Seq<(u32, T)>, k: nat, x: (u32, T))
    requires
        ascending(s),
        ties_before(s, x),
    ensures
        offered(at_most(s, k), k, x) == at_most(with_candidate(s, x), k),
{
    lemma_slot(s, x);
    let p = slot(s, x);
    let full = with_candidate(s, x);
    let held = at_most(s, k);
    if k == 0 {
        assert(offered(held, k, x) =~= at_most(full, k));
    } else if s.len() < k {
        assert(held == s);
    } else {
        assert(held =~= s.take(k as int));
        let head = held.drop_last();
        assert(head =~= s.take(k - 1));
        if p >= k {
            assert(!nearer(x, s[k - 1]));
            assert(held.last() == s[k - 1]);
            assert(offered(held, k, x) =~= at_most(full, k));
        } else {
            assert(nearer(x, s[k - 1]));
            assert(held.last() == s[k - 1]);
            lemma_slot_unique(head, x, p);
            assert(offered(held, k, x) =~= at_most(full, k));
        }
    }
}

/// Offering the candidates of `c` in turn to a collection that holds the `k`
/// nearest of `b` leaves it with the `k` nearest of both, provided that each
/// candidate comes behind all earlier ones at the same distance.
pub proof fn lemma_offered_all<T: HeapItem>(b: Seq<(u32, T)>, k: nat, c: Seq<(u32, T)>)
    requires
        forall|j: int| 0 <= j < c.len() ==> ties_before(b + c.take(j), #[trigger] c[j]),
    ensures
        offered_all(top_k(b, k), k, c) == top_k(b + c, k),
    decreases c.len(),
{
    if c.len() == 0 {
        assert(b + c =~= b);
    } else {
        let init = c.drop_last();
        let x = c.last();
        assert forall|j: int| 0 <= j < init.len() implies ties_before(
            b + init.take(j),
            #[trigger] init[j],
        ) by {
            assert(init.take(j) =~= c.take(j));
            assert(init[j] == c[j]);
        }
        lemma_offered_all(b, k, init);
        assert((b + c).drop_last() =~= b + init);
        let sorted = sorted_candidates(b + init);
        lemma_sorted_candidates(b + init);
        assert(init =~= c.take(c.len() - 1));
        assert(ties_before(b + init, c[c.len() - 1]));
        assert(ties_before(sorted, x)) by {
            assert forall|i: int| 0 <= i < sorted.len() implies !(sorted[i].0 == x.0 && x.1.rank()
                < sorted[i].1.rank()) by {
                sorted.to_multiset_ensures();
                (b + init).to_multiset_ensures();
                assert(sorted.contains(sorted[i]));
                assert(sorted.to_multiset().count(sorted[i]) > 0);
                assert((b + init).contains(sorted[i]));
            }
        }
        lemma_offered_to_nearest(sorted, k, x);
    }
}

/// Merging the `k` nearest of `c` into the `k` nearest of `b`, nearest first,
/// gives the `k` nearest of both, provided that every item of `c` comes
/// behind every item of `b`.
pub proof fn lemma_merge_top_k<T: HeapItem>(b: Seq<(u32, T)>, c: Seq<(u32, T)>, k: nat)
    requires
        forall|i: int, j: int|
            0 <= i < b.len() && 0 <= j < c.len() ==> b[i].1.rank() < c[j].1.rank(),
    ensures
        offered_all(top_k(b, k), k, top_k(c, k)) == top_k(b + c, k),
{
    let all = sorted_candidates(c);
    lemma_sorted_candidates(c);
    all.to_multiset_ensures();
    c.to_multiset_ensures();
    assert forall|j: int| 0 <= j < all.len() implies ties_before(
        b + all.take(j),
        #[trigger] all[j],
    ) by {
        assert(all.contains(all[j]));
        assert(all.to_multiset().count(all[j]) > 0);
        assert(c.contains(all[j]));
        let before = b + all.take(j);
        assert forall|i: int| 0 <= i < before.len() implies !(before[i].0 == all[j].0
            && all[j].1.rank() < before[i].1.rank()) by {
            if i >= b.len() {
                assert(before[i] == all[i - b.len()]);
                assert(!nearer(all[j], all[i - b.len()]));
            }
        }
    }
    lemma_merge_sorted(b, c, k);
}

proof fn lemma_merge_sorted<T: HeapItem>(b: Seq<(u32, T)>, c: Seq<(u32, T)>, k: nat)
    requires
        forall|j: int|
            0 <= j < c.len() ==> ties_before(
                b + sorted_candidates(c).take(j),
                #[trigger] sorted_candidates(c)[j],
            ),
    ensures
        offered_all(top_k(b, k), k, top_k(c, k)) == top_k(b + c, k),
{
    let all = sorted_candidates(c);
    lemma_sorted_candidates(c);
    let near = top_k(c, k);
    let rest = all.skip(near.len() as int);
    assert(all =~= near + rest);
    lemma_offered_all(b, k, all);
    lemma_offered_rest(b, k, near, rest);
    assert((b + all).to_multiset() =~= (b + c).to_multiset()) by {
        vstd::seq_lib::lemma_multiset_commutative(b, all);
        vstd::seq_lib::lemma_multiset_commutative(b, c);
    }
    lemma_sorted_order_independent(b + all, b + c);
}

/// After the `k` nearest of an ascending sequence were offered, the rest of
/// that sequence changes nothing.
proof fn lemma_offered_rest<T: HeapItem>(
    b: Seq<(u32, T)>,
    k: nat,
    near: Seq<(u32, T)>,
    rest: Seq<(u32, T)>,
)
    requires
        ascending(near + rest),
        near.len() <= k,
        rest.len() > 0 ==> near.len() == k,
        forall|j: int|
            0 <= j < (near + rest).len() ==> ties_before(
                b + (near + rest).take(j),
                #[trigger] (near + rest)[j],
            ),
    ensures
        offered_all(top_k(b, k), k, near + rest) == offered_all(top_k(b, k), k, near),
    decreases rest.len(),
{
    let all = near + rest;
    if rest.len() == 0 {
        assert(all =~= near);
    } else {
        let less = rest.drop_last();
        let init = near + less;
        assert(all.drop_last() =~= init);
        assert forall|j: int| 0 <= j < init.len() implies ties_before(
            b + init.take(j),
            #[trigger] init[j],
        ) by {
            assert(init.take(j) =~= all.take(j));
            assert(init[j] == all[j]);
        }
        assert(ascending(init)) by {
            assert forall|i: int, j: int| 0 <= i < j < init.len() implies !nearer(
                init[j],
                init[i],
            ) by {
                assert(init[i] == all[i] && init[j] == all[j]);
            }
        }
        lemma_offered_rest(b, k, near, less);
        assert forall|j: int| 0 <= j < near.len() implies ties_before(
            b + near.take(j),
            #[trigger] near[j],
        ) by {
            assert(near.take(j) =~= all.take(j));
            assert(near[j] == all[j]);
        }
        lemma_offered_all(b, k, near);
        let held = top_k(b + near, k);
        let x = rest.last();
        assert(all.last() == x);
        if k > 0 {
            lemma_sorted_candidates(b + near);
            let sorted = sorted_candidates(b + near);
            assert(held.len() == k);
            assert(held.last() == sorted[k - 1]);
            if x.0 < held.last().0 {
                // Then every one of the k elements of `near` is nearer than the
                // element at place k - 1 of the sorted sequence.
                assert forall|i: int| 0 <= i < near.len() implies near[i].0
                    < sorted[k - 1].0 by {
                    assert(!nearer(all[all.len() - 1], all[i]));
                    assert(all[i] == near[i]);
                }
                lemma_few_below(sorted, (k - 1) as nat, near, b);
            }
        }
    }
}

/// Of an ascending arrangement of `b + near`, at most the first `n` elements
/// can be at a smaller distance than the element at place `n`, so `near` does
/// not have more than `n` such elements.
proof fn lemma_few_below<T: HeapItem>(
    sorted: Seq<(u32, T)>,
    n: nat,
    near: Seq<(u32, T)>,
    b: Seq<(u32, T)>,
)
    requires
        ascending(sorted),
        n < sorted.len(),
        sorted.to_multiset() == (b + near).to_multiset(),
        forall|i: int| 0 <= i < near.len() ==> near[i].0 < sorted[n as int].0,
    ensures
        near.len() <= n,
{
    let bound = sorted[n as int].0;
    vstd::seq_lib::lemma_multiset_commutative(b, near);
    let all = (b + near).to_multiset();
    let head = sorted.take(n as int);
    let tail = sorted.skip(n as int);
    assert(sorted =~= head + tail);
    vstd::seq_lib::lemma_multiset_commutative(head, tail);
    head.to_multiset_ensures();
    tail.to_multiset_ensures();
    near.to_multiset_ensures();
    assert(near.to_multiset().subset_of(head.to_multiset())) by {
        assert forall|x: (u32, T)| near.to_multiset().count(x) <= head.to_multiset().count(x) by {
            if near.to_multiset().count(x) > 0 {
                assert(near.contains(x));
                assert(x.0 < bound);
                if tail.to_multiset().count(x) > 0 {
                    assert(tail.contains(x));
                    let j = choose|j: int| 0 <= j < tail.len() && tail[j] == x;
                    assert(sorted[n + j] == x);
                    if j > 0 {
                        assert(!nearer(sorted[n + j], sorted[n as int]));
                    }
                }
                assert(all.count(x) == head.to_multiset().count(x) + tail.to_multiset().count(x));
                assert(all.count(x) == b.to_multiset().count(x) + near.to_multiset().count(x));
            }
        }
    }
    assert(head.to_multiset().sub(near.to_multiset()).len() >= 0);
}

/// The candidates with their items forgotten.
spec fn bare<T>(s: Seq<(u32, T)>) -> Seq<(u32, usize)> {
    s.map_values(|x: (u32, T)| (x.0, 0usize))
}

proof fn lemma_bare_with_candidate<T: HeapItem>(s: Seq<(u32, T)>, x: (u32, T))
    requires
        ascending(s),
    ensures
        ascending(bare(s)),
        bare(with_candidate(s, x)) == with_candidate(bare(s), (x.0, 0usize)),
{
    let y = (x.0, 0usize);
    assert forall|i: int, j: int| 0 <= i < j < bare(s).len() implies !nearer(
        bare(s)[j],
        bare(s)[i],
    ) by {
        assert(!nearer(s[j], s[i]));
    }
    lemma_slot(s, x);
    lemma_slot(bare(s), y);
    let (p, q) = (slot(s, x), slot(bare(s), y));
    if q < p {
        assert(nearer(y, bare(s)[q]));
    }
    assert forall|i: int| p <= i < q implies s[i].0 == x.0 by {
        assert(nearer(x, s[i]));
        assert(!nearer(y, bare(s)[i]));
    }
    assert(bare(with_candidate(s, x)) =~= with_candidate(bare(s), y));
}

proof fn lemma_bare_offered<T: HeapItem>(s: Seq<(u32, T)>, k: nat, x: (u32, T))
    requires
        ascending(s),
        s.len() <= k,
    ensures
        bare(offered(s, k, x)) == offered(bare(s), k, (x.0, 0usize)),
{
    if k > 0 {
        lemma_bare_with_candidate(s, x);
        if s.len() == k {
            lemma_bare_with_candidate(s.drop_last(), x);
            assert(bare(s.drop_last()) =~= bare(s).drop_last());
        }
    }
}

proof fn lemma_bare_offered_all<T: HeapItem>(s: Seq<(u32, T)>, k: nat, c: Seq<(u32, T)>)
    requires
        ascending(s),
        s.len() <= k,
    ensures
        ascending(offered_all(s, k, c)),
        offered_all(s, k, c).len() <= k,
        bare(offered_all(s, k, c)) == offered_all(bare(s), k, bare(c)),
    decreases c.len(),
{
    if c.len() > 0 {
        lemma_bare_offered_all(s, k, c.drop_last());
        lemma_bare_offered(offered_all(s, k, c.drop_last()), k, c.last());
        lemma_offered(offered_all(s, k, c.drop_last()), k, c.last());
        assert(bare(c).drop_last() =~= bare(c.drop_last()));
    }
}

proof fn lemma_bare_sorted<T: HeapItem>(c: Seq<(u32, T)>)
    ensures
        bare(sorted_candidates(c)) == sorted_candidates(bare(c)),
    decreases c.len(),
{
    if c.len() > 0 {
        lemma_bare_sorted(c.drop_last());
        lemma_sorted_candidates(c.drop_last());
        lemma_bare_with_candidate(sorted_candidates(c.drop_last()), c.last());
        assert(bare(c).drop_last() =~= bare(c.drop_last()));
    } else {
        assert(bare(sorted_candidates(c)) =~= sorted_candidates(bare(c)));
    }
}

/// Offering keeps order and bound.
pub proof fn lemma_offered_all_ascending<T: HeapItem>(
    s: Seq<(u32, T)>,
    k: nat,
    c: Seq<(u32, T)>,
)
    requires
        ascending(s),
        s.len() <= k,
    ensures
        ascending(offered_all(s, k, c)),
        offered_all(s, k, c).len() <= k,
{
    lemma_bare_offered_all(s, k, c);
}

/// Whatever the order in which candidates are offered, the distances held in
/// the end are the `k` smallest of all the distances, those held before
/// included.
pub proof fn lemma_offered_all_distances<T: HeapItem>(
    s: Seq<(u32, T)>,
    k: nat,
    c: Seq<(u32, T)>,
)
    requires
        ascending(s),
        s.len() <= k,
    ensures
        distances(offered_all(s, k, c)) == distances(top_k(s + c, k)),
{
    lemma_bare_offered_all(s, k, c);
    lemma_bare_sorted(s + c);
    assert(bare(s + c) =~= bare(s) + bare(c));
    lemma_bare_sorted(s);
    lemma_sorted_candidates(s);
    lemma_ascending_unique(sorted_candidates(s), s);
    assert(top_k(bare(s), k) =~= bare(s));
    lemma_offered_all(bare(s), k, bare(c));
    lemma_bare_top_k(s + c, k);
    lemma_distances_from_bare(offered_all(s, k, c), top_k(s + c, k));
}

/// The `k` smallest distances of two groups are found among the `k` smallest
/// of each.
pub proof fn lemma_merge_distances<T: HeapItem>(
    a: Seq<(u32, T)>,
    b: Seq<(u32, T)>,
    c: Seq<(u32, T)>,
    d: Seq<(u32, T)>,
    k: nat,
)
    requires
        distances(a) == distances(top_k(c, k)),
        distances(b) == distances(top_k(d, k)),
    ensures
        distances(top_k(a + b, k)) == distances(top_k(c + d, k)),
{
    let (x, y) = (bare(c), bare(d));
    lemma_bare_top_k(c, k);
    lemma_bare_top_k(d, k);
    lemma_bare_from_distances(a, top_k(c, k));
    lemma_bare_from_distances(b, top_k(d, k));
    assert(bare(a + b) =~= top_k(x, k) + top_k(y, k));
    assert(bare(c + d) =~= x + y);
    lemma_bare_sorted(d);
    lemma_sorted_candidates(y);
    assert forall|j: int| 0 <= j < y.len() implies ties_before(
        x + sorted_candidates(y).take(j),
        #[trigger] sorted_candidates(y)[j],
    ) by {
        let before = x + sorted_candidates(y).take(j);
        assert forall|i: int| 0 <= i < before.len() implies before[i].1 == 0usize by {}
    }
    lemma_merge_sorted(x, y, k);
    lemma_sorted_candidates(x);
    let near = top_k(x, k);
    assert(ascending(near));
    lemma_sorted_candidates(near);
    lemma_ascending_unique(sorted_candidates(near), near);
    assert(top_k(near, k) =~= near);
    lemma_offered_all(near, k, top_k(y, k));
    lemma_bare_top_k(a + b, k);
    lemma_bare_top_k(c + d, k);
    lemma_distances_from_bare(top_k(a + b, k), top_k(c + d, k));
}

proof fn lemma_bare_top_k<T: HeapItem>(c: Seq<(u32, T)>, k: nat)
    ensures
        bare(top_k(c, k)) == top_k(bare(c), k),
{
    lemma_bare_sorted(c);
    assert(bare(top_k(c, k)) =~= top_k(bare(c), k));
}

proof fn lemma_bare_from_distances<T: HeapItem>(a: Seq<(u32, T)>, b: Seq<(u32, T)>)
    requires
        distances(a) == distances(b),
    ensures
        bare(a) == bare(b),
{
    assert(distances(a).len() == a.len() && distances(b).len() == b.len());
    assert forall|i: int| 0 <= i < a.len() implies bare(a)[i] == bare(b)[i] by {
        assert(distances(a)[i] == a[i].0 && distances(b)[i] == b[i].0);
    }
    assert(bare(a) =~= bare(b));
}

proof fn lemma_distances_from_bare<T: HeapItem>(a: Seq<(u32, T)>, b: Seq<(u32, T)>)
    requires
        bare(a) == bare(b),
    ensures
        distances(a) == distances(b),
{
    assert(bare(a).len() == a.len() && bare(b).len() == b.len());
    assert forall|i: int| 0 <= i < a.len() implies distances(a)[i] == distances(b)[i] by {
        assert(bare(a)[i].0 == a[i].0 && bare(b)[i].0 == b[i].0);
    }
    assert(distances(a) =~= distances(b));
}

/// A bounded collection that tracks the K smallest (distance, item) pairs.
///
/// When full, a new candidate replaces the worst element only if its distance
/// is smaller. The pairs are kept in ascending order, so the worst one is the
/// last.
#[derive(Clone, Debug)]
pub struct TopKHeap<T: HeapItem> {
    k: usize,
    items: Vec<(u32, T)>,
}

impl<T: HeapItem> View for TopKHeap<T> {
    type V = Seq<(u32, T)>;

    closed spec fn view(&self) -> Seq<(u32, T)> {
        self.items@
    }
}

impl<T: HeapItem> TopKHeap<T> {
    /// How many candidates are held at most.
    pub closed spec fn bound(&self) -> nat {
        self.k as nat
    }

    /// The candidates are in ascending order and within the bound.
    pub open spec fn wf(&self) -> bool {
        &&& ascending(self@)
        &&& self@.len() <= self.bound()
    }

    pub fn new(k: usize) -> (heap: Self)
        ensures
            heap.wf(),
            heap.bound() == k,
            heap@ == Seq::<(u32, T)>::empty(),
    {
        TopKHeap { k, items: Vec::new() }
    }

    /// Insert a candidate. Only kept if it's among the K smallest distances.
    pub fn push(&mut self, distance: u32, item: T)
        requires
            old(self).wf(),
        ensures
            final(self).wf(),
            final(self).bound() == old(self).bound(),
            final(self)@ == offered(old(self)@, old(self).bound(), (distance, item)),
    {
        proof {
            lemma_offered(self@, self.bound(), (distance, item));
        }
        if self.k == 0 {
            return;
        }
        if self.items.len() >= self.k {
            if distance >= self.items[self.items.len() - 1].0 {
                return;
            }
            self.items.pop();
        }
        let ghost before = self.items@;
        let ghost x = (distance, item);
        let mut i: usize = self.items.len();
        assert(before.take(before.len() as int) =~= before);
        while i > 0 && (distance < self.items[i - 1].0 || (distance == self.items[i - 1].0
            && item.precedes(self.items[i - 1].1)))
            invariant
                i <= before.len(),
                self.items@ == before,
                x == (distance, item),
                slot(before, x) == slot(before.take(i as int), x),
            decreases i,
        {
            assert(before.take(i as int).drop_last() =~= before.take(i - 1));
            i = i - 1;
        }
        self.items.insert(i, (distance, item));
    }

    /// Current worst distance (the threshold for admission). Returns
    /// `u32::MAX` if the heap is not yet full.
    pub fn threshold(&self) -> (t: u32)
        requires
            self.wf(),
        ensures
            t == if self@.len() < self.bound() || self.bound() == 0 {
                u32::MAX
            } else {
                self@.last().0
            },
    {
        if self.items.len() < self.k || self.k == 0 {
            u32::MAX
        } else {
            self.items[self.items.len() - 1].0
        }
    }

    /// Drain into a vector sorted by ascending distance.
    pub fn into_sorted_vec(self) -> (v: Vec<(u32, T)>)
        ensures
            v@ == self@,
    {
        self.items
    }

    pub fn len(&self) -> (n: usize)
        ensures
            n == self@.len(),
    {
        self.items.len()
    }

    pub fn is_empty(&self) -> (b: bool)
        ensures
            b == (self@.len() == 0),
    {
        self.items.len() == 0
    }

    /// Merge another heap's contents into this one, nearest first.
    pub fn merge(&mut self, other: Self)
        requires
            old(self).wf(),
            other.wf(),
        ensures
            final(self).wf(),
            final(self).bound() == old(self).bound(),
            final(self)@ == offered_all(old(self)@, old(self).bound(), other@),
            distances(final(self)@) == distances(top_k(old(self)@ + other@, old(self).bound())),
    {
        proof {
            lemma_offered_all_distances(self@, self.bound(), other@);
        }
        let mut i: usize = 0;
        while i < other.items.len()
            invariant
                self.wf(),
                self.bound() == old(self).bound(),
                i <= other@.len(),
                self@ == offered_all(old(self)@, old(self).bound(), other@.take(i as int)),
            decreases other@.len() - i,
        {
            let (distance, item) = other.items[i];
            assert(other@.take(i + 1).drop_last() =~= other@.take(i as int));
            self.push(distance, item);
            i = i + 1;
        }
        assert(other@.take(i as int) =~= other@);
    }
}

/// What the `k` nearest of some numbered candidates are: as many as asked for or as
/// there are, taken from the candidates, each no farther than the one behind it
/// and with a smaller number where they are equally near. Every candidate that is
/// left out comes behind all of them.
pub proof fn lemma_nearest_of_all(c: Seq<(u32, usize)>, k: nat)
    ensures
        ({
            let r = top_k(c, k);
            &&& r.len() == if c.len() <= k {
                c.len()
            } else {
                k
            }
            &&& r.to_multiset().subset_of(c.to_multiset())
            &&& forall|i: int, j: int|
                0 <= i < j < r.len() ==> (#[trigger] r[i]).0 < (#[trigger] r[j]).0 || (r[i].0
                    == r[j].0 && r[i].1 <= r[j].1)
            &&& forall|x: (u32, usize), i: int|
                #![trigger c.to_multiset().count(x), r[i]]
                c.to_multiset().count(x) > r.to_multiset().count(x) && 0 <= i < r.len()
                    ==> r[i].0 < x.0 || (r[i].0 == x.0 && r[i].1 <= x.1)
        }),
{
    let r = top_k(c, k);
    let sorted = sorted_candidates(c);
    lemma_sorted_candidates(c);
    assert forall|i: int, j: int| 0 <= i < j < r.len() implies (#[trigger] r[i]).0 < (
    #[trigger] r[j]).0 || (r[i].0 == r[j].0 && r[i].1 <= r[j].1) by {
        assert(!nearer(sorted[j], sorted[i]));
    }
    let rest = sorted.skip(r.len() as int);
    assert(sorted =~= r + rest);
    vstd::seq_lib::lemma_multiset_commutative(r, rest);
    rest.to_multiset_ensures();
    assert forall|x: (u32, usize), i: int|
        #![trigger c.to_multiset().count(x), r[i]]
        c.to_multiset().count(x) > r.to_multiset().count(x) && 0 <= i < r.len() implies r[i].0
        < x.0 || (r[i].0 == x.0 && r[i].1 <= x.1) by {
        assert(rest.to_multiset().count(x) > 0);
        assert(rest.contains(x));
        let j = choose|j: int| 0 <= j < rest.len() && rest[j] == x;
        assert(sorted[r.len() + j] == x);
        assert(!nearer(sorted[r.len() + j], sorted[i]));
    }
}

/// What the `k` nearest are where no two candidates have the same number.
pub proof fn lemma_nearest_of_distinct(c: Seq<(u32, usize)>, k: nat)
    requires
        forall|i: int, j: int|
            0 <= i < j < c.len() ==> (#[trigger] c[i]).1 != (#[trigger] c[j]).1,
    ensures
        ({
            let r = top_k(c, k);
            &&& r.len() == if c.len() <= k {
                c.len()
            } else {
                k
            }
            &&& forall|i: int| 0 <= i < r.len() ==> c.contains(#[trigger] r[i])
            &&& forall|i: int, j: int|
                0 <= i < j < r.len() ==> (#[trigger] r[i]).0 < (#[trigger] r[j]).0 || (r[i].0
                    == r[j].0 && r[i].1 < r[j].1)
            &&& forall|x: (u32, usize), i: int|
                #![trigger c.contains(x), r[i]]
                c.contains(x) && !r.contains(x) && 0 <= i < r.len() ==> r[i].0 < x.0 || (r[i].0
                    == x.0 && r[i].1 < x.1)
        }),
{
    let r = top_k(c, k);
    let sorted = sorted_candidates(c);
    lemma_sorted_candidates(c);
    lemma_nearest_of_all(c, k);
    c.to_multiset_ensures();
    r.to_multiset_ensures();
    sorted.to_multiset_ensures();
    assert(c.no_duplicates());
    c.lemma_multiset_has_no_duplicates();
    sorted.lemma_multiset_has_no_duplicates_conv();
    assert forall|i: int| 0 <= i < r.len() implies c.contains(#[trigger] r[i]) by {
        lemma_top_k_member(c, k, i);
    }
    assert forall|i: int, j: int| 0 <= i < j < r.len() implies (#[trigger] r[i]).0 < (
    #[trigger] r[j]).0 || (r[i].0 == r[j].0 && r[i].1 < r[j].1) by {
        assert(sorted[i] == r[i] && sorted[j] == r[j] && sorted[i] != sorted[j]);
    }
    assert forall|x: (u32, usize), i: int|
        #![trigger c.contains(x), r[i]]
        c.contains(x) && !r.contains(x) && 0 <= i < r.len() implies r[i].0 < x.0 || (r[i].0 == x.0
        && r[i].1 < x.1) by {
        assert(c.to_multiset().count(x) > 0);
        assert(r.to_multiset().count(x) == 0);
        let p = choose|p: int| 0 <= p < c.len() && c[p] == x;
        let q = choose|q: int| 0 <= q < c.len() && c[q] == r[i];
        assert(c[p].1 != c[q].1 || p == q);
    }
}

/// Leaving out candidates that are not among the `k` nearest changes nothing.
pub proof fn lemma_nearest_of_part(all: Seq<(u32, usize)>, part: Seq<(u32, usize)>, k: nat)
    requires
        forall|i: int, j: int|
            0 <= i < j < all.len() ==> (#[trigger] all[i]).1 != (#[trigger] all[j]).1,
        forall|i: int, j: int|
            0 <= i < j < part.len() ==> (#[trigger] part[i]).1 != (#[trigger] part[j]).1,
        forall|i: int| 0 <= i < part.len() ==> all.contains(#[trigger] part[i]),
        forall|i: int| 0 <= i < top_k(all, k).len() ==> part.contains(#[trigger] top_k(all, k)[i]),
    ensures
        top_k(part, k) == top_k(all, k),
{
    let (a, b) = (top_k(all, k), top_k(part, k));
    lemma_nearest_of_distinct(all, k);
    lemma_nearest_of_distinct(part, k);
    assert(a.no_duplicates() && b.no_duplicates());
    a.unique_seq_to_set();
    b.unique_seq_to_set();
    vstd::seq_lib::seq_to_set_is_finite(a);
    vstd::seq_lib::seq_to_set_is_finite(b);
    assert forall|x: (u32, usize)| a.contains(x) implies #[trigger] b.contains(x) by {
        let p = choose|p: int| 0 <= p < a.len() && a[p] == x;
        assert(part.contains(a[p]));
        if !b.contains(x) {
            assert forall|y: (u32, usize)| b.contains(y) implies #[trigger] a.remove(
                p,
            ).contains(y) by {
                let q = choose|q: int| 0 <= q < b.len() && b[q] == y;
                assert(part.contains(b[q]));
                let s = choose|s: int| 0 <= s < part.len() && part[s] == y;
                assert(all.contains(part[s]));
                assert(a.contains(y));
                let u = choose|u: int| 0 <= u < a.len() && a[u] == y;
                assert(u != p);
                if u < p {
                    assert(a.remove(p)[u] == y);
                } else {
                    assert(a.remove(p)[u - 1] == y);
                }
            }
            let rest = a.remove(p);
            assert(rest.no_duplicates());
            rest.unique_seq_to_set();
            vstd::seq_lib::seq_to_set_is_finite(rest);
            assert(b.to_set().subset_of(rest.to_set()));
            vstd::set_lib::lemma_len_subset(b.to_set(), rest.to_set());
            assert(part.len() <= k) by {
                if part.len() > k {
                    assert(b.len() == k);
                    assert(rest.len() < a.len() <= k);
                }
            }
            let s = choose|s: int| 0 <= s < part.len() && part[s] == x;
            lemma_sorted_candidates(part);
            part.to_multiset_ensures();
            b.to_multiset_ensures();
            assert(part.to_multiset().count(x) > 0);
            assert(b.to_multiset() == part.to_multiset());
        }
    }
    assert(a.to_set().subset_of(b.to_set()));
    assert forall|y: (u32, usize)| b.contains(y) implies #[trigger] a.contains(y) by {
        let q = choose|q: int| 0 <= q < b.len() && b[q] == y;
        let s = choose|s: int| 0 <= s < part.len() && part[s] == b[q];
        assert(all.contains(part[s]));
        if !a.contains(y) {
            assert(a.to_set().insert(y).subset_of(b.to_set()));
            vstd::set_lib::lemma_len_subset(a.to_set().insert(y), b.to_set());
            assert(a.len() + 1 <= b.len() <= k);
            lemma_sorted_candidates(all);
            all.to_multiset_ensures();
            a.to_multiset_ensures();
            assert(a.to_multiset() == all.to_multiset());
            assert(all.to_multiset().count(y) > 0);
        }
    }
    a.lemma_multiset_has_no_duplicates();
    b.lemma_multiset_has_no_duplicates();
    a.to_multiset_ensures();
    b.to_multiset_ensures();
    assert forall|x: (u32, usize)|
        a.to_multiset().count(x) == b.to_multiset().count(x) by {
        assert(a.contains(x) == b.contains(x));
        if a.contains(x) {
            assert(a.to_multiset().contains(x) && b.to_multiset().contains(x));
        }
    }
    assert(a.to_multiset() =~= b.to_multiset());
    lemma_sorted_candidates(all);
    lemma_sorted_candidates(part);
    assert(ascending(a)) by {
        let sorted = sorted_candidates(all);
        assert forall|i: int, j: int| 0 <= i < j < a.len() implies !nearer(a[j], a[i]) by {
            assert(!nearer(sorted[j], sorted[i]));
        }
    }
    assert(ascending(b)) by {
        let sorted = sorted_candidates(part);
        assert forall|i: int, j: int| 0 <= i < j < b.len() implies !nearer(b[j], b[i]) by {
            assert(!nearer(sorted[j], sorted[i]));
        }
    }
    lemma_ascending_unique(a, b);
}

} // verus!
