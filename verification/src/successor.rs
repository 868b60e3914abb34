//! Table of a successor representation: for each event, how much each event is
//! to be expected after it.
//!
//! What a cell holds, and how it moves on an observation, is up to the caller.
//! The table decides which cells there are, which of them move, and by what
//! they move.

use std::collections::HashMap;
use vstd::prelude::*;

use crate::heap::at_most;
use crate::predictor::Fraction;
use crate::sorting::{insert_distinct, lemma_with_element, strictly_ascending, with_element};
use crate::state::EventId;

verus! {

/// Transitions after which a table is warm, unless it is told otherwise.
pub const DEFAULT_WARMUP_OBSERVATIONS: u64 = 50;

/// The descending sequence `s` with `x` behind everything of no smaller
/// strength.
pub open spec fn with_strength(s: Seq<(EventId, u32)>, x: (EventId, u32)) -> Seq<(EventId, u32)>
    decreases s.len(),
{
    if s.len() > 0 && s.last().1 < x.1 {
        with_strength(s.drop_last(), x).push(s.last())
    } else {
        s.push(x)
    }
}

/// The entries other than that of `last` from the strongest to the weakest,
/// equally strong ones in the order in which they came.
pub open spec fn strongest_first(s: Seq<(EventId, u32)>, last: EventId) -> Seq<(EventId, u32)>
    decreases s.len(),
{
    if s.len() == 0 {
        Seq::empty()
    } else {
        let before = strongest_first(s.drop_last(), last);
        if s.last().0 == last {
            before
        } else {
            with_strength(before, s.last())
        }
    }
}

/// No entry is weaker than the one behind it.
pub open spec fn weakening(s: Seq<(EventId, u32)>) -> bool {
    forall|i: int, j: int| 0 <= i < j < s.len() ==> (#[trigger] s[i]).1 >= (#[trigger] s[j]).1
}

proof fn lemma_with_strength(s: Seq<(EventId, u32)>, x: (EventId, u32))
    requires
        weakening(s),
    ensures
        weakening(with_strength(s, x)),
        forall|i: int|
            0 <= i < with_strength(s, x).len() ==> #[trigger] with_strength(s, x)[i] == x
                || s.contains(with_strength(s, x)[i]),
    decreases s.len(),
{
    let r = with_strength(s, x);
    if s.len() > 0 && s.last().1 < x.1 {
        let init = s.drop_last();
        let rest = with_strength(init, x);
        lemma_with_strength(init, x);
        assert forall|i: int| 0 <= i < r.len() implies #[trigger] r[i] == x || s.contains(r[i]) by {
            if i < rest.len() {
                assert(r[i] == rest[i]);
                if rest[i] != x {
                    let k = choose|k: int| 0 <= k < init.len() && init[k] == rest[i];
                    assert(s[k] == r[i]);
                }
            } else {
                assert(s[s.len() - 1] == r[i]);
            }
        }
        assert forall|i: int, j: int| 0 <= i < j < r.len() implies (#[trigger] r[i]).1 >= (
        #[trigger] r[j]).1 by {
            assert(r[i] == rest[i]);
            if j < rest.len() {
                assert(r[j] == rest[j]);
            } else if rest[i] != x {
                let k = choose|k: int| 0 <= k < init.len() && init[k] == rest[i];
                assert(s[k].1 >= s[s.len() - 1].1);
            }
        }
    } else {
        assert forall|i: int| 0 <= i < r.len() implies #[trigger] r[i] == x || s.contains(r[i]) by {
            if i < s.len() {
                assert(s[i] == r[i]);
            }
        }
        assert forall|i: int, j: int| 0 <= i < j < r.len() implies (#[trigger] r[i]).1 >= (
        #[trigger] r[j]).1 by {
            assert(r[i] == s[i]);
            if j < s.len() {
                assert(r[j] == s[j]);
            } else if i < s.len() - 1 {
                assert(s[i].1 >= s[s.len() - 1].1);
            }
        }
    }
}

/// The strongest entries come first, and that of `last` is not among them.
pub proof fn lemma_strongest_first(s: Seq<(EventId, u32)>, last: EventId)
    ensures
        weakening(strongest_first(s, last)),
        forall|i: int|
            0 <= i < strongest_first(s, last).len() ==> (#[trigger] strongest_first(s, last)[i]).0
                != last && s.contains(strongest_first(s, last)[i]),
    decreases s.len(),
{
    if s.len() > 0 {
        let init = s.drop_last();
        lemma_strongest_first(init, last);
        lemma_with_strength(strongest_first(init, last), s.last());
        let r = strongest_first(s, last);
        assert forall|i: int| 0 <= i < r.len() implies (#[trigger] r[i]).0 != last && s.contains(
            r[i],
        ) by {
            if r[i] == s.last() {
                assert(s[s.len() - 1] == r[i]);
            } else {
                let before = strongest_first(init, last);
                assert(before.contains(r[i]));
                let k = choose|k: int| 0 <= k < before.len() && before[k] == r[i];
                assert(init.contains(before[k]));
                let m = choose|m: int| 0 <= m < init.len() && init[m] == before[k];
                assert(s[m] == r[i]);
            }
        }
    }
}

/// The `k` strongest entries other than that of `last`.
pub fn strongest_others(entries: &Vec<(EventId, u32)>, last: EventId, k: usize) -> (r: Vec<
    (EventId, u32),
>)
    ensures
        r@ == at_most(strongest_first(entries@, last), k as nat),
{
    let mut out: Vec<(EventId, u32)> = Vec::new();
    let mut i: usize = 0;
    while i < entries.len()
        invariant
            i <= entries@.len(),
            out@ == strongest_first(entries@.take(i as int), last),
        decreases entries@.len() - i,
    {
        let x = entries[i];
        assert(entries@.take(i + 1).drop_last() =~= entries@.take(i as int));
        if x.0 != last {
            let ghost before = out@;
            let mut j: usize = out.len();
            proof {
                assert(before.take(before.len() as int) =~= before);
                assert(with_strength(before, x) =~= with_strength(before, x) + before.skip(
                    before.len() as int,
                ));
            }
            while j > 0 && out[j - 1].1 < x.1
                invariant
                    j <= before.len(),
                    out@ == before,
                    with_strength(before, x) == with_strength(before.take(j as int), x)
                        + before.skip(j as int),
                decreases j,
            {
                proof {
                    let (head, tail) = (before.take(j as int), before.skip(j as int));
                    assert(head.drop_last() =~= before.take(j - 1));
                    assert(with_strength(before.take(j - 1), x).push(before[j - 1]) + tail
                        =~= with_strength(before.take(j - 1), x) + before.skip(j - 1));
                }
                j = j - 1;
            }
            out.insert(j, x);
            assert(out@ =~= with_strength(before, x));
        }
        i = i + 1;
    }
    assert(entries@.take(i as int) =~= entries@);
    let ghost all = out@;
    out.truncate(k);
    assert(out@ =~= at_most(all, k as nat));
    out
}

/// The cells of a successor representation.
pub struct SuccessorTable<V: Copy> {
    rows: HashMap<u32, HashMap<u32, V>>,
    vocab: Vec<usize>,
    observations: u64,
    warmup: u64,
}

/// How warm a table is after `count` of `warmup` transitions.
pub open spec fn warmth_of(count: u64, warmup: u64) -> Fraction {
    Fraction {
        num: if count <= warmup {
            count
        } else {
            warmup
        },
        den: warmup,
    }
}

/// Confidence grows with the observations: a table gets no colder by one more
/// transition, and warmer until it is fully warm. It is fully warm from the
/// given number of transitions on.
pub proof fn lemma_warmth_grows(count: u64, warmup: u64)
    requires
        warmup >= 1,
        count < u64::MAX,
    ensures
        !warmth_of((count + 1) as u64, warmup).below(warmth_of(count, warmup)),
        count < warmup ==> warmth_of(count, warmup).below(warmth_of((count + 1) as u64, warmup)),
        count >= warmup ==> warmth_of(count, warmup) == (Fraction { num: warmup, den: warmup }),
{
    let (a, b) = (warmth_of(count, warmup).num, warmth_of((count + 1) as u64, warmup).num);
    assert(a * warmup <= b * warmup && (a < b ==> a * warmup < b * warmup)) by (nonlinear_arith)
        requires
            a <= b,
            warmup >= 1,
    ;
}

/// What a table holds after an event was seen for the first time.
pub open spec fn seeded<V: Copy>(
    t: SuccessorTable<V>,
    e: EventId,
    one: V,
    s: EventId,
    c: EventId,
) -> Option<V> {
    if s == e && c == e && t.cell(e, e) is None {
        Some(one)
    } else {
        t.cell(s, c)
    }
}

impl<V: Copy> SuccessorTable<V> {
    /// What is expected of `c` after `s`.
    pub closed spec fn cell(&self, s: EventId, c: EventId) -> Option<V> {
        if self.rows@.contains_key(s.0) && self.rows@[s.0]@.contains_key(c.0) {
            Some(self.rows@[s.0]@[c.0])
        } else {
            None
        }
    }

    /// The numbers of the events that were seen, in ascending order.
    pub closed spec fn seen(&self) -> Seq<usize> {
        self.vocab@
    }

    pub closed spec fn count(&self) -> u64 {
        self.observations
    }

    pub closed spec fn spec_warmup(&self) -> u64 {
        self.warmup
    }

    pub closed spec fn wf(&self) -> bool {
        &&& strictly_ascending(self.vocab@)
        &&& forall|i: int| 0 <= i < self.vocab@.len() ==> #[trigger] self.vocab@[i] <= u32::MAX
        &&& self.warmup >= 1
    }

    pub fn new() -> (t: Self)
        ensures
            t.wf(),
            t.seen() == Seq::<usize>::empty(),
            forall|s: EventId, c: EventId| #[trigger] t.cell(s, c) is None,
            t.count() == 0,
            t.spec_warmup() == 50,
    {
        SuccessorTable {
            rows: HashMap::new(),
            vocab: Vec::new(),
            observations: 0,
            warmup: DEFAULT_WARMUP_OBSERVATIONS,
        }
    }

    /// Change after how many transitions the table is warm: at least one.
    pub fn with_warmup(self, warmup: u64) -> (t: Self)
        requires
            self.wf(),
        ensures
            t.wf(),
            t.spec_warmup() == if warmup == 0 {
                1
            } else {
                warmup
            },
            t.seen() == self.seen(),
            forall|s: EventId, c: EventId| #[trigger] t.cell(s, c) == self.cell(s, c),
            t.count() == self.count(),
    {
        let warmup: u64 = if warmup == 0 {
            1
        } else {
            warmup
        };
        SuccessorTable { warmup, ..self }
    }

    /// Total transitions observed.
    pub fn observations(&self) -> (n: u64)
        ensures
            n == self.count(),
    {
        self.observations
    }

    /// After how many transitions the table is warm.
    pub fn warmup(&self) -> (n: u64)
        ensures
            n == self.spec_warmup(),
    {
        self.warmup
    }

    /// Number of distinct events seen.
    pub fn vocab_size(&self) -> (n: usize)
        ensures
            n == self.seen().len(),
    {
        self.vocab.len()
    }

    /// The numbers of the events that were seen, in ascending order.
    pub fn vocab(&self) -> (vocab: &[usize])
        ensures
            vocab@ == self.seen(),
    {
        self.vocab.as_slice()
    }

    /// How warm the table is: the share of the transitions that it takes.
    pub fn warmth(&self) -> (w: Fraction)
        ensures
            w == warmth_of(self.count(), self.spec_warmup()),
    {
        let num: u64 = if self.observations <= self.warmup {
            self.observations
        } else {
            self.warmup
        };
        Fraction { num, den: self.warmup }
    }

    /// What is expected of `c` after `s`.
    pub fn get(&self, s: EventId, c: EventId) -> (v: Option<V>)
        ensures
            v == self.cell(s, c),
    {
        match self.rows.get(&s.0) {
            Some(row) => match row.get(&c.0) {
                Some(v) => Some(*v),
                None => None,
            },
            None => None,
        }
    }

    /// Write a cell.
    pub fn set(&mut self, s: EventId, c: EventId, v: V)
        requires
            old(self).wf(),
        ensures
            final(self).wf(),
            final(self).seen() == old(self).seen(),
            final(self).count() == old(self).count(),
            final(self).spec_warmup() == old(self).spec_warmup(),
            forall|a: EventId, b: EventId| #[trigger]
                final(self).cell(a, b) == if a == s && b == c {
                    Some(v)
                } else {
                    old(self).cell(a, b)
                },
    {
        let mut row: HashMap<u32, V> = match self.rows.remove(&s.0) {
            Some(row) => row,
            None => HashMap::new(),
        };
        row.insert(c.0, v);
        self.rows.insert(s.0, row);
    }

    /// An event was seen: on first sight it is expected after itself as much
    /// as `one` says.
    pub fn note_event(&mut self, e: EventId, one: V)
        requires
            old(self).wf(),
        ensures
            final(self).wf(),
            final(self).seen() == with_element(old(self).seen(), e.0 as usize),
            final(self).count() == old(self).count(),
            final(self).spec_warmup() == old(self).spec_warmup(),
            forall|s: EventId, c: EventId| #[trigger]
                final(self).cell(s, c) == seeded(*old(self), e, one, s, c),
    {
        insert_distinct(&mut self.vocab, e.0 as usize);
        proof {
            let after = self.vocab@;
            assert forall|i: int| 0 <= i < after.len() implies #[trigger] after[i]
                <= u32::MAX by {
                assert(after.contains(after[i]));
            }
        }
        if self.get(e, e).is_none() {
            self.set(e, e, one);
        }
    }

    /// Record a transition from `prev` to `next`. Both events are noted first.
    /// Then every cell of `prev` moves to where `step` puts it, given whether
    /// it is the cell of `prev` itself, what is expected of its event after
    /// `next`, and what it holds.
    pub fn observe<F: Fn(bool, Option<V>, Option<V>) -> V>(
        &mut self,
        prev: EventId,
        next: EventId,
        one: V,
        step: F,
    )
        requires
            old(self).wf(),
            old(self).count() < u64::MAX,
            forall|own: bool, a: Option<V>, b: Option<V>| call_requires(step, (own, a, b)),
        ensures
            final(self).wf(),
            final(self).count() == old(self).count() + 1,
            final(self).spec_warmup() == old(self).spec_warmup(),
            moved(*old(self), *final(self), prev, next, one, step),
            forall|e: usize| #[trigger]
                final(self).seen().contains(e) <==> old(self).seen().contains(e) || e == prev.0
                    || e == next.0,
    {
        self.note_event(prev, one);
        let ghost first = *self;
        self.note_event(next, one);
        let ghost noted = *self;
        proof {
            lemma_with_element(old(self).seen(), prev.0 as usize);
            lemma_with_element(first.seen(), next.0 as usize);
        }
        let mut values: Vec<V> = Vec::new();
        let mut i: usize = 0;
        while i < self.vocab.len()
            invariant
                i <= self.vocab@.len(),
                *self == noted,
                noted.wf(),
                forall|own: bool, a: Option<V>, b: Option<V>| call_requires(step, (own, a, b)),
                values@.len() == i,
                forall|j: int|
                    0 <= j < i ==> {
                        let c = EventId(noted.seen()[j] as u32);
                        call_ensures(
                            step,
                            (c == prev, noted.cell(next, c), noted.cell(prev, c)),
                            #[trigger] values@[j],
                        )
                    },
            decreases self.vocab@.len() - i,
        {
            let c = EventId(self.vocab[i] as u32);
            let bootstrap = self.get(next, c);
            let current = self.get(prev, c);
            values.push(step(c == prev, bootstrap, current));
            i = i + 1;
        }
        let n: usize = values.len();
        let mut i: usize = 0;
        while i < n
            invariant
                i <= n == values@.len() == noted.seen().len(),
                noted.wf(),
                self.wf(),
                self.seen() == noted.seen(),
                self.count() == noted.count(),
                self.spec_warmup() == noted.spec_warmup(),
                forall|s: EventId, c: EventId|
                    s != prev ==> #[trigger] self.cell(s, c) == noted.cell(s, c),
                forall|j: int|
                    #![trigger noted.seen()[j]]
                    0 <= j < n ==> {
                        let c = EventId(noted.seen()[j] as u32);
                        self.cell(prev, c) == if j < i {
                            Some(values@[j])
                        } else {
                            noted.cell(prev, c)
                        }
                    },
                forall|c: EventId|
                    !noted.seen().contains(c.0 as usize) ==> #[trigger] self.cell(prev, c)
                        == noted.cell(prev, c),
            decreases n - i,
        {
            let c = EventId(self.vocab[i] as u32);
            assert(noted.seen().contains(noted.seen()[i as int]));
            self.set(prev, c, values[i]);
            i = i + 1;
        }
        let ghost written = *self;
        self.observations = self.observations + 1;
        proof {
            assert forall|s: EventId, c: EventId| #[trigger] self.cell(s, c) == written.cell(
                s,
                c,
            ) by {}
            assert forall|s: EventId, c: EventId| #[trigger] noted.cell(s, c) == noted_cell(
                *old(self),
                prev,
                next,
                one,
                s,
                c,
            ) by {
                assert(first.cell(s, c) == seeded(*old(self), prev, one, s, c));
                assert(first.cell(next, next) == seeded(*old(self), prev, one, next, next));
                assert(noted.cell(s, c) == seeded(first, next, one, s, c));
            }
            assert forall|s: EventId, c: EventId| s != prev implies #[trigger] self.cell(s, c)
                == noted_cell(*old(self), prev, next, one, s, c) by {
                assert(written.cell(s, c) == noted.cell(s, c));
                assert(noted.cell(s, c) == noted_cell(*old(self), prev, next, one, s, c));
            }
            assert forall|c: EventId| self.seen().contains(c.0 as usize) implies (
            #[trigger] self.cell(prev, c)) is Some && call_ensures(
                step,
                (
                    c == prev,
                    noted_cell(*old(self), prev, next, one, next, c),
                    noted_cell(*old(self), prev, next, one, prev, c),
                ),
                self.cell(prev, c)->0,
            ) by {
                let j = choose|j: int|
                    0 <= j < noted.seen().len() && noted.seen()[j] == c.0 as usize;
                assert(EventId(noted.seen()[j] as u32) == c);
                assert(noted.cell(next, c) == noted_cell(*old(self), prev, next, one, next, c));
                assert(noted.cell(prev, c) == noted_cell(*old(self), prev, next, one, prev, c));
                assert(self.cell(prev, c) == Some(values@[j]));
            }
        }
    }

    /// What is expected after an event, by ascending event number.
    pub fn row(&self, s: EventId) -> (row: Vec<(EventId, V)>)
        requires
            self.wf(),
        ensures
            row@ == row_listing(*self, s, self.seen()),
    {
        let mut row: Vec<(EventId, V)> = Vec::new();
        let mut i: usize = 0;
        while i < self.vocab.len()
            invariant
                i <= self.vocab@.len(),
                row@ == row_listing(*self, s, self.seen().take(i as int)),
            decreases self.vocab@.len() - i,
        {
            let c = EventId(self.vocab[i] as u32);
            assert(self.seen().take(i + 1).drop_last() =~= self.seen().take(i as int));
            if let Some(v) = self.get(s, c) {
                row.push((c, v));
            }
            i = i + 1;
        }
        assert(self.seen().take(i as int) =~= self.seen());
        row
    }

    /// Set how many transitions were observed, and note an event without a
    /// cell. For tables that are read back.
    pub fn restore(&mut self, observations: u64, vocab: &Vec<EventId>)
        requires
            old(self).wf(),
        ensures
            final(self).wf(),
            final(self).count() == observations,
            final(self).spec_warmup() == old(self).spec_warmup(),
            final(self).seen() == crate::markov::with_events(old(self).seen(), vocab@),
            forall|s: EventId, c: EventId| #[trigger]
                final(self).cell(s, c) == old(self).cell(s, c),
    {
        self.observations = observations;
        let mut i: usize = 0;
        while i < vocab.len()
            invariant
                i <= vocab@.len(),
                self.wf(),
                self.observations == observations,
                self.warmup == old(self).warmup,
                self.rows == old(self).rows,
                self.vocab@ == crate::markov::with_events(
                    old(self).seen(),
                    vocab@.take(i as int),
                ),
            decreases vocab@.len() - i,
        {
            assert(vocab@.take(i + 1).drop_last() =~= vocab@.take(i as int));
            insert_distinct(&mut self.vocab, vocab[i].0 as usize);
            proof {
                let after = self.vocab@;
                assert forall|j: int| 0 <= j < after.len() implies #[trigger] after[j]
                    <= u32::MAX by {
                    assert(after.contains(after[j]));
                }
            }
            i = i + 1;
        }
        assert(vocab@.take(i as int) =~= vocab@);
    }
}

/// What is expected after `s` of the given events.
pub open spec fn row_listing<V: Copy>(
    t: SuccessorTable<V>,
    s: EventId,
    events: Seq<usize>,
) -> Seq<(EventId, V)>
    decreases events.len(),
{
    if events.len() == 0 {
        Seq::empty()
    } else {
        let before = row_listing(t, s, events.drop_last());
        let c = EventId(events.last() as u32);
        match t.cell(s, c) {
            Some(v) => before.push((c, v)),
            None => before,
        }
    }
}

/// What a table holds after both events of a transition were noted.
pub open spec fn noted_cell<V: Copy>(
    t: SuccessorTable<V>,
    prev: EventId,
    next: EventId,
    one: V,
    s: EventId,
    c: EventId,
) -> Option<V> {
    if s == c && (s == prev || s == next) && t.cell(s, s) is None {
        Some(one)
    } else {
        t.cell(s, c)
    }
}

/// The table after a transition: both events are noted, every cell of `prev`
/// for an event that was seen moves as `step` says, and no other cell moves.
pub open spec fn moved<V: Copy, F: Fn(bool, Option<V>, Option<V>) -> V>(
    before: SuccessorTable<V>,
    after: SuccessorTable<V>,
    prev: EventId,
    next: EventId,
    one: V,
    step: F,
) -> bool {
    &&& after.seen() == with_element(
        with_element(before.seen(), prev.0 as usize),
        next.0 as usize,
    )
    &&& forall|s: EventId, c: EventId|
        s != prev ==> #[trigger] after.cell(s, c) == noted_cell(before, prev, next, one, s, c)
    &&& forall|c: EventId|
        after.seen().contains(c.0 as usize) ==> (#[trigger] after.cell(prev, c)) is Some
            && call_ensures(
            step,
            (
                c == prev,
                noted_cell(before, prev, next, one, next, c),
                noted_cell(before, prev, next, one, prev, c),
            ),
            after.cell(prev, c)->0,
        )
}

proof fn lemma_pushed_filter<A>(s: Seq<A>, x: A, f: spec_fn(A) -> bool)
    ensures
        s.push(x).filter(f) == if f(x) {
            s.filter(f).push(x)
        } else {
            s.filter(f)
        },
{
    reveal(Seq::filter);
    assert(s.push(x).drop_last() =~= s);
}

proof fn lemma_strength_kept(
    s: Seq<(EventId, u32)>,
    x: (EventId, u32),
    v: u32,
    f: spec_fn((EventId, u32)) -> bool,
)
    requires
        weakening(s),
        forall|e: (EventId, u32)| #[trigger] f(e) <==> e.1 == v,
    ensures
        with_strength(s, x).filter(f) == if f(x) {
            s.filter(f).push(x)
        } else {
            s.filter(f)
        },
    decreases s.len(),
{
    if s.len() > 0 && s.last().1 < x.1 {
        let init = s.drop_last();
        lemma_strength_kept(init, x, v, f);
        lemma_pushed_filter(with_strength(init, x), s.last(), f);
        lemma_pushed_filter(init, s.last(), f);
        assert(init.push(s.last()) =~= s);
    } else {
        lemma_pushed_filter(s, x, f);
    }
}

proof fn lemma_others_of_strength(
    s: Seq<(EventId, u32)>,
    last: EventId,
    v: u32,
    other: spec_fn((EventId, u32)) -> bool,
    f: spec_fn((EventId, u32)) -> bool,
)
    requires
        forall|e: (EventId, u32)| #[trigger] other(e) <==> e.0 != last,
        forall|e: (EventId, u32)| #[trigger] f(e) <==> e.1 == v,
    ensures
        strongest_first(s, last).filter(f) == s.filter(other).filter(f),
    decreases s.len(),
{
    reveal(Seq::filter);
    if s.len() > 0 {
        let init = s.drop_last();
        let x = s.last();
        lemma_others_of_strength(init, last, v, other, f);
        lemma_strongest_first(init, last);
        assert(other(x) <==> x.0 != last);
        if x.0 != last {
            lemma_strength_kept(strongest_first(init, last), x, v, f);
            lemma_pushed_filter(init.filter(other), x, f);
        }
    }
}

/// The entries of one strength are kept in their order, those of `last` left out: with
/// the strengths in descending order, that fixes the whole listing.
pub proof fn lemma_every_other_kept(s: Seq<(EventId, u32)>, last: EventId, v: u32)
    ensures
        strongest_first(s, last).filter(|x: (EventId, u32)| x.1 == v) == s.filter(
            |x: (EventId, u32)| x.0 != last,
        ).filter(|x: (EventId, u32)| x.1 == v),
        forall|i: int, j: int|
            0 <= i < j < strongest_first(s, last).len() ==> (#[trigger] strongest_first(
                s,
                last,
            )[i]).1 >= (#[trigger] strongest_first(s, last)[j]).1,
{
    lemma_strongest_first(s, last);
    lemma_others_of_strength(
        s,
        last,
        v,
        |x: (EventId, u32)| x.0 != last,
        |x: (EventId, u32)| x.1 == v,
    );
}

/// Each event of a row with its value, in the order of the events, and no event without
/// one.
pub proof fn lemma_row_listing<V: Copy>(t: SuccessorTable<V>, s: EventId, events: Seq<usize>)
    ensures
        row_listing(t, s, events) == events.filter_map(
            |e: usize|
                match t.cell(s, EventId(e as u32)) {
                    Some(v) => Some((EventId(e as u32), v)),
                    None => None,
                },
        ),
    decreases events.len(),
{
    if events.len() > 0 {
        lemma_row_listing(t, s, events.drop_last());
        let before = row_listing(t, s, events.drop_last());
        match t.cell(s, EventId(events.last() as u32)) {
            Some(v) => {
                let c = EventId(events.last() as u32);
                assert(before.push((c, v)) =~= before + seq![(c, v)]);
            },
            None => {},
        }
    }
}

/// How warm a table is: the transitions it has seen over those it is warm after, and never
/// more than one.
pub proof fn lemma_warmth(count: u64, warmup: u64)
    ensures
        warmth_of(count, warmup).den == warmup,
        warmth_of(count, warmup).num <= count,
        warmth_of(count, warmup).num <= warmup,
        warmth_of(count, warmup).num == count || warmth_of(count, warmup).num == warmup,
{
}

/// A transition makes its two events known and no other ones.
pub proof fn lemma_events_become_known<V: Copy, F: Fn(bool, Option<V>, Option<V>) -> V>(
    before: SuccessorTable<V>,
    after: SuccessorTable<V>,
    prev: EventId,
    next: EventId,
    one: V,
    step: F,
    e: usize,
)
    requires
        moved(before, after, prev, next, one, step),
        strictly_ascending(before.seen()),
    ensures
        after.seen().contains(e) <==> before.seen().contains(e) || e == prev.0 || e == next.0,
        forall|i: int, j: int|
            0 <= i < j < after.seen().len() ==> (#[trigger] after.seen()[i]) < (
            #[trigger] after.seen()[j]),
{
    lemma_with_element(before.seen(), prev.0 as usize);
    lemma_with_element(with_element(before.seen(), prev.0 as usize), next.0 as usize);
}

/// A transition moves the row of the event it starts from. In the other rows nothing
/// changes, but that the event it leads to counts itself once.
pub proof fn lemma_other_rows_stay<V: Copy, F: Fn(bool, Option<V>, Option<V>) -> V>(
    before: SuccessorTable<V>,
    after: SuccessorTable<V>,
    prev: EventId,
    next: EventId,
    one: V,
    step: F,
    s: EventId,
    c: EventId,
)
    requires
        moved(before, after, prev, next, one, step),
        s != prev,
    ensures
        before.cell(s, c) is Some ==> after.cell(s, c) == before.cell(s, c),
        before.cell(s, c) is None && s == next && c == next ==> after.cell(s, c) == Some(one),
        before.cell(s, c) is None && !(s == next && c == next) ==> after.cell(s, c) is None,
{
}

/// How a transition moves the row of the event it starts from: every known event gets what
/// the step makes of its value in the row that the transition leads to and of its value in
/// this row, an event that had no value for itself being there once.
pub proof fn lemma_row_moves<V: Copy, F: Fn(bool, Option<V>, Option<V>) -> V>(
    before: SuccessorTable<V>,
    after: SuccessorTable<V>,
    prev: EventId,
    next: EventId,
    one: V,
    step: F,
    c: EventId,
)
    requires
        moved(before, after, prev, next, one, step),
        after.seen().contains(c.0 as usize),
    ensures
        ({
            let ahead = if before.cell(next, c) is None && c == next {
                Some(one)
            } else {
                before.cell(next, c)
            };
            let here = if before.cell(prev, c) is None && c == prev {
                Some(one)
            } else {
                before.cell(prev, c)
            };
            &&& after.cell(prev, c) is Some
            &&& call_ensures(step, (c == prev, ahead, here), after.cell(prev, c)->0)
        }),
{
    assert(noted_cell(before, prev, next, one, next, c) == if before.cell(next, c) is None && c
        == next {
        Some(one)
    } else {
        before.cell(next, c)
    });
    assert(noted_cell(before, prev, next, one, prev, c) == if before.cell(prev, c) is None && c
        == prev {
        Some(one)
    } else {
        before.cell(prev, c)
    });
}

/// An event that is noted counts itself once, if it did not yet, and no other value
/// changes.
pub proof fn lemma_noted<V: Copy>(
    t: SuccessorTable<V>,
    e: EventId,
    one: V,
    s: EventId,
    c: EventId,
)
    ensures
        t.cell(e, e) is None ==> seeded(t, e, one, e, e) == Some(one),
        t.cell(e, e) is Some ==> seeded(t, e, one, e, e) == t.cell(e, e),
        s != e || c != e ==> seeded(t, e, one, s, c) == t.cell(s, c),
{
}

} // verus!
