//! Sorted sequences.

use std::cmp::Ordering;
use vstd::laws_cmp::obeys_cmp;
use vstd::prelude::*;
use vstd::std_specs::cmp::OrdSpec;

verus! {

/// No element is smaller than one before it.
pub open spec fn in_order<T: Ord>(s: Seq<T>) -> bool {
    forall|i: int, j: int| 0 <= i < j < s.len() ==> s[j].cmp_spec(&s[i]) != Ordering::Less
}

/// `slice::sort_unstable` of std: rearranges the elements in ascending order.
/// It may panic where the order of the elements is not a total one.
#[verifier::external_body]
fn sort_in_place<T: Ord>(v: &mut Vec<T>)
    requires
        obeys_cmp::<T>(),
    ensures
        in_order(final(v)@),
        final(v)@.to_multiset() == old(v)@.to_multiset(),
{
    v.sort_unstable()
}

/// Put numbers in ascending order.
fn sort_numbers(v: &mut Vec<usize>)
    ensures
        forall|i: int, j: int| 0 <= i < j < final(v)@.len() ==> final(v)@[i] <= final(v)@[j],
        final(v)@.to_multiset() == old(v)@.to_multiset(),
{
    broadcast use vstd::laws_cmp::group_laws_cmp;

    sort_in_place(v);
    assert forall|i: int, j: int| 0 <= i < j < v@.len() implies v@[i] <= v@[j] by {
        assert(v@[j].cmp_spec(&v@[i]) != Ordering::Less);
    }
}

/// Put pairs in ascending order of their first parts, and of their second
/// parts where the first parts are equal.
pub(crate) fn sort_pairs(v: &mut Vec<(u32, usize)>)
    ensures
        forall|i: int, j: int|
            0 <= i < j < final(v)@.len() ==> #[trigger] final(v)@[i].0 < #[trigger] final(v)@[j].0
                || (final(v)@[i].0 == final(v)@[j].0 && final(v)@[i].1 <= final(v)@[j].1),
        final(v)@.to_multiset() == old(v)@.to_multiset(),
{
    broadcast use vstd::laws_cmp::group_laws_cmp;

    sort_in_place(v);
    assert forall|i: int, j: int| 0 <= i < j < v@.len() implies #[trigger] v@[i].0
        < #[trigger] v@[j].0 || (v@[i].0 == v@[j].0 && v@[i].1 <= v@[j].1) by {
        assert(v@[j].cmp_spec(&v@[i]) != Ordering::Less);
    }
}

/// The elements are in ascending order, each once.
pub open spec fn strictly_ascending(s: Seq<usize>) -> bool {
    forall|i: int, j: int| 0 <= i < j < s.len() ==> s[i] < s[j]
}

/// The ascending sequence `s` with `x` among its elements.
pub open spec fn with_element(s: Seq<usize>, x: usize) -> Seq<usize>
    decreases s.len(),
{
    if s.len() == 0 || s.last() < x {
        s.push(x)
    } else if s.last() == x {
        s
    } else {
        with_element(s.drop_last(), x).push(s.last())
    }
}

/// The elements of `s` in ascending order, each once.
pub open spec fn sorted_distinct(s: Seq<usize>) -> Seq<usize>
    decreases s.len(),
{
    if s.len() == 0 {
        Seq::empty()
    } else {
        with_element(sorted_distinct(s.drop_last()), s.last())
    }
}

/// Inserting keeps the order and adds nothing but the element.
pub proof fn lemma_with_element(s: Seq<usize>, x: usize)
    requires
        strictly_ascending(s),
    ensures
        strictly_ascending(with_element(s, x)),
        forall|y: usize| #[trigger] with_element(s, x).contains(y) <==> s.contains(y) || y == x,
    decreases s.len(),
{
    let r = with_element(s, x);
    if s.len() == 0 || s.last() < x {
        assert forall|y: usize| #[trigger] r.contains(y) <==> s.contains(y) || y == x by {
            assert(r[s.len() as int] == x);
            if s.contains(y) {
                let i = choose|i: int| 0 <= i < s.len() && s[i] == y;
                assert(r[i] == y);
            }
        }
        assert forall|i: int, j: int| 0 <= i < j < r.len() implies r[i] < r[j] by {
            if j == s.len() && i < s.len() - 1 {
                assert(s[i] < s[s.len() - 1]);
            }
        }
    } else if s.last() == x {
        assert(s[s.len() - 1] == x);
    } else {
        let init = s.drop_last();
        let rest = with_element(init, x);
        lemma_with_element(init, x);
        assert forall|i: int, j: int| 0 <= i < j < r.len() implies r[i] < r[j] by {
            assert(rest.contains(r[i]));
            if j == rest.len() && r[i] != x {
                let k = choose|k: int| 0 <= k < init.len() && init[k] == r[i];
                assert(s[k] < s[s.len() - 1]);
            }
        }
        assert forall|y: usize| #[trigger] r.contains(y) <==> s.contains(y) || y == x by {
            assert(r[rest.len() as int] == s.last());
            if rest.contains(y) {
                let i = choose|i: int| 0 <= i < rest.len() && rest[i] == y;
                assert(r[i] == y);
            }
            if init.contains(y) {
                let i = choose|i: int| 0 <= i < init.len() && init[i] == y;
                assert(s[i] == y);
            }
            if s.contains(y) {
                let i = choose|i: int| 0 <= i < s.len() && s[i] == y;
                if i < init.len() {
                    assert(init[i] == y);
                }
            }
            if r.contains(y) {
                let i = choose|i: int| 0 <= i < r.len() && r[i] == y;
                if i < rest.len() {
                    assert(rest[i] == y);
                } else {
                    assert(s[s.len() - 1] == y);
                }
            }
        }
    }
}

/// Sorting and removing repetitions keeps exactly the elements.
pub proof fn lemma_sorted_distinct(s: Seq<usize>)
    ensures
        strictly_ascending(sorted_distinct(s)),
        forall|y: usize| #[trigger] sorted_distinct(s).contains(y) <==> s.contains(y),
    decreases s.len(),
{
    if s.len() > 0 {
        let init = s.drop_last();
        lemma_sorted_distinct(init);
        lemma_with_element(sorted_distinct(init), s.last());
        assert forall|y: usize| #[trigger] sorted_distinct(s).contains(y) <==> s.contains(y) by {
            assert(s[s.len() - 1] == s.last());
            if init.contains(y) {
                let i = choose|i: int| 0 <= i < init.len() && init[i] == y;
                assert(s[i] == y);
            }
            if s.contains(y) {
                let i = choose|i: int| 0 <= i < s.len() && s[i] == y;
                if i < init.len() {
                    assert(init[i] == y);
                }
            }
        }
    }
}

/// A set has one strictly ascending listing.
pub proof fn lemma_ascending_listing_unique(a: Seq<usize>, b: Seq<usize>)
    requires
        strictly_ascending(a),
        strictly_ascending(b),
        forall|y: usize| a.contains(y) <==> b.contains(y),
    ensures
        a == b,
    decreases a.len(),
{
    if a.len() == 0 {
        if b.len() > 0 {
            assert(b.contains(b[0]));
        }
        assert(a =~= b);
    } else {
        let x = a.last();
        assert(a[a.len() - 1] == x);
        assert(a.contains(x));
        assert(b.contains(x));
        let i = choose|i: int| 0 <= i < b.len() && b[i] == x;
        let y = b.last();
        assert(b[b.len() - 1] == y);
        assert(b.contains(y));
        assert(a.contains(y));
        let j = choose|j: int| 0 <= j < a.len() && a[j] == y;
        assert(x == y) by {
            if i < b.len() - 1 {
                assert(b[i] < b[b.len() - 1]);
                if j < a.len() - 1 {
                    assert(a[j] < a[a.len() - 1]);
                }
            }
        }
        let (c, d) = (a.drop_last(), b.drop_last());
        assert forall|z: usize| c.contains(z) <==> d.contains(z) by {
            if c.contains(z) {
                let p = choose|p: int| 0 <= p < c.len() && c[p] == z;
                assert(a[p] == z);
                assert(a[p] < a[a.len() - 1]);
                assert(a.contains(z));
                let q = choose|q: int| 0 <= q < b.len() && b[q] == z;
                assert(d[q] == z);
            }
            if d.contains(z) {
                let p = choose|p: int| 0 <= p < d.len() && d[p] == z;
                assert(b[p] == z);
                assert(b[p] < b[b.len() - 1]);
                assert(b.contains(z));
                let q = choose|q: int| 0 <= q < a.len() && a[q] == z;
                assert(c[q] == z);
            }
        }
        lemma_ascending_listing_unique(c, d);
        assert(a =~= c.push(x));
        assert(b =~= d.push(x));
    }
}

/// The order in which elements come, and how often, does not matter.
pub proof fn lemma_sorted_distinct_order_independent(a: Seq<usize>, b: Seq<usize>)
    requires
        forall|y: usize| a.contains(y) <==> b.contains(y),
    ensures
        sorted_distinct(a) == sorted_distinct(b),
{
    lemma_sorted_distinct(a);
    lemma_sorted_distinct(b);
    lemma_ascending_listing_unique(sorted_distinct(a), sorted_distinct(b));
}

/// Sort the elements and remove repetitions.
pub fn sort_distinct(v: Vec<usize>) -> (r: Vec<usize>)
    ensures
        r@ == sorted_distinct(v@),
{
    let ghost before = v@;
    let mut v = v;
    sort_numbers(&mut v);
    let ghost sorted = v@;
    let mut r: Vec<usize> = Vec::new();
    let mut i: usize = 0;
    while i < v.len()
        invariant
            i <= v@.len(),
            v@ == sorted,
            forall|p: int, q: int| 0 <= p < q < sorted.len() ==> sorted[p] <= sorted[q],
            strictly_ascending(r@),
            i == 0 ==> r@.len() == 0,
            i > 0 ==> r@.len() > 0 && r@.last() == sorted[i - 1],
            forall|y: usize| #[trigger] r@.contains(y) <==> sorted.take(i as int).contains(y),
        decreases v@.len() - i,
    {
        let x: usize = v[i];
        let ghost (old_r, done) = (r@, sorted.take(i as int));
        assert(sorted.take(i + 1) =~= done.push(x));
        if r.len() == 0 || r[r.len() - 1] != x {
            assert(i > 0 ==> sorted[i - 1] <= sorted[i as int]);
            r.push(x);
            proof {
                lemma_push_contains(old_r, x);
                assert forall|p: int, q: int| 0 <= p < q < r@.len() implies r@[p] < r@[q] by {
                    if q == old_r.len() && p < q - 1 {
                        assert(old_r[p] < old_r[q - 1]);
                    }
                }
            }
        } else {
            assert(r@[r@.len() - 1] == x);
            assert(r@.contains(x));
        }
        proof {
            lemma_push_contains(done, x);
        }
        i = i + 1;
    }
    proof {
        assert(sorted.take(i as int) =~= sorted);
        lemma_sorted_distinct(before);
        before.to_multiset_ensures();
        sorted.to_multiset_ensures();
        assert forall|y: usize| r@.contains(y) <==> sorted_distinct(before).contains(y) by {
            assert(sorted.contains(y) <==> sorted.to_multiset().count(y) > 0);
            assert(before.contains(y) <==> before.to_multiset().count(y) > 0);
        }
        lemma_ascending_listing_unique(r@, sorted_distinct(before));
    }
    r
}

proof fn lemma_push_contains(s: Seq<usize>, x: usize)
    ensures
        forall|y: usize| #[trigger] s.push(x).contains(y) <==> s.contains(y) || y == x,
{
    assert forall|y: usize| #[trigger] s.push(x).contains(y) <==> s.contains(y) || y == x by {
        assert(s.push(x)[s.len() as int] == x);
        if s.contains(y) {
            let i = choose|i: int| 0 <= i < s.len() && s[i] == y;
            assert(s.push(x)[i] == y);
        }
    }
}

/// Add an element to an ascending list, unless it is there.
pub fn insert_distinct(v: &mut Vec<usize>, x: usize)
    requires
        strictly_ascending(old(v)@),
    ensures
        final(v)@ == with_element(old(v)@, x),
        strictly_ascending(final(v)@),
        forall|y: usize|
            #[trigger] final(v)@.contains(y) <==> old(v)@.contains(y) || y == x,
{
    let ghost before = v@;
    let mut i: usize = v.len();
    proof {
        lemma_with_element(before, x);
        assert(before.take(before.len() as int) =~= before);
        assert(before.skip(before.len() as int) =~= Seq::empty());
        assert(with_element(before, x) =~= with_element(before, x) + Seq::<usize>::empty());
    }
    while i > 0 && v[i - 1] > x
        invariant
            i <= before.len(),
            v@ == before,
            with_element(before, x) == with_element(before.take(i as int), x) + before.skip(
                i as int,
            ),
        decreases i,
    {
        proof {
            let (head, tail) = (before.take(i as int), before.skip(i as int));
            assert(head.drop_last() =~= before.take(i - 1));
            assert(seq![before[i - 1]] + tail =~= before.skip(i - 1));
            assert(with_element(head, x) == with_element(before.take(i - 1), x).push(
                before[i - 1],
            ));
            assert(with_element(before.take(i - 1), x).push(before[i - 1]) + tail
                =~= with_element(before.take(i - 1), x) + before.skip(i - 1));
        }
        i = i - 1;
    }
    if i > 0 && v[i - 1] == x {
        assert(with_element(before, x) =~= before);
    } else {
        v.insert(i, x);
        assert(v@ =~= with_element(before, x));
    }
}

/// The elements in ascending order, each once: exactly those that there are.
pub proof fn lemma_each_once_in_order(s: Seq<usize>)
    ensures
        forall|i: int, j: int|
            0 <= i < j < sorted_distinct(s).len() ==> (#[trigger] sorted_distinct(s)[i]) < (
            #[trigger] sorted_distinct(s)[j]),
        forall|y: usize| #[trigger] sorted_distinct(s).contains(y) <==> s.contains(y),
{
    lemma_sorted_distinct(s);
}

} // verus!
