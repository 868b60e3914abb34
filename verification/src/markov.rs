//! Variable-order Markov prediction of the next event.
//!
//! Transitions are counted by context, the last one to `max_order` events. A
//! prediction uses the longest context that was seen often enough. How a
//! transition is weighed is left to a [`WeightModel`].

use vstd::prelude::*;
use vstd::slice::{slice_subrange, slice_to_vec};

use crate::clock::{Clock, Instant};
use crate::heap::at_most;
use crate::predictor::{
    descending, lemma_ranked, rank_predictions, ranked, Fraction, NextTurnPredictor, Prediction,
};
use crate::single::{
    lemma_large_stays_large, lemma_small_is_exact, nearest_single, round_to_single,
};
use crate::sorting::{insert_distinct, strictly_ascending, with_element};
use crate::state::{last_of, EventId};

verus! {

/// How often a transition was seen, and how much that counts.
pub trait WeightModel: Sized + Send + Sync {
    /// What is kept for a transition, and for all transitions from a context.
    type Weight: Copy + Send + Sync;

    /// The weight of what was not seen yet.
    spec fn zero_at(&self, at: Instant) -> Self::Weight;

    /// The weight after one more observation.
    spec fn observed_at(&self, w: Self::Weight, at: Instant) -> Self::Weight;

    /// Two weights taken together.
    spec fn both(&self, a: Self::Weight, b: Self::Weight) -> Self::Weight;

    /// Whether a context of this weight is worth a prediction.
    spec fn suffices_at(&self, w: Self::Weight, at: Instant) -> bool;

    /// The probability of a transition out of a context.
    spec fn share_at(
        &self,
        count: Option<Self::Weight>,
        total: Self::Weight,
        vocab: usize,
        at: Instant,
    ) -> Fraction;

    /// The weight of what was not seen yet.
    fn zero(&self, at: Instant) -> (w: Self::Weight)
        ensures
            w == self.zero_at(at),
    ;

    /// The weight after one more observation.
    fn observed(&self, w: Self::Weight, at: Instant) -> (r: Self::Weight)
        ensures
            r == self.observed_at(w, at),
    ;

    /// Two weights taken together.
    fn combined(&self, a: Self::Weight, b: Self::Weight) -> (r: Self::Weight)
        ensures
            r == self.both(a, b),
    ;

    /// Whether a context of this weight is worth a prediction.
    fn suffices(&self, w: Self::Weight, at: Instant) -> (b: bool)
        ensures
            b == self.suffices_at(w, at),
    ;

    /// The probability of a transition out of a context, given the weights of
    /// both and the number of events that there are.
    fn share(
        &self,
        count: Option<Self::Weight>,
        total: Self::Weight,
        vocab: usize,
        at: Instant,
    ) -> (p: Fraction)
        requires
            vocab <= 0x1_0000_0000,
        ensures
            p == self.share_at(count, total, vocab, at),
    ;
}

/// Counts up to this are told apart. Larger ones are kept to 24 significant
/// binary digits.
pub const MAX_COUNT: u32 = 16_777_216;

/// How often a context must have been seen to be worth a prediction.
pub const MIN_CONTEXT_OBSERVATIONS: u32 = 2;

/// Plain counts with additive smoothing by the fraction `num / den`.
#[derive(Clone, Copy, Debug)]
pub struct CountModel {
    pub num: u16,
    pub den: u16,
}

/// The count that is kept for `n`: the nearest of 24 significant binary digits,
/// or the largest that there is room for.
pub open spec fn count_near(n: int) -> u32 {
    let r = nearest_single(n);
    if r <= u32::MAX {
        r as u32
    } else {
        u32::MAX
    }
}

/// The count that is kept for `n`.
fn to_count(n: u64) -> (r: u32)
    requires
        n <= 0x2_0000_0000,
    ensures
        r == count_near(n as int),
{
    let r: u64 = round_to_single(n);
    if r <= u32::MAX as u64 {
        r as u32
    } else {
        u32::MAX
    }
}

/// Counts up to [`MAX_COUNT`] are kept as they are, and no larger one is taken for
/// one of them.
pub proof fn lemma_count_near(n: int)
    requires
        0 <= n,
    ensures
        n <= MAX_COUNT ==> count_near(n) == n,
        n >= MAX_COUNT ==> count_near(n) >= MAX_COUNT,
{
    if n <= MAX_COUNT {
        lemma_small_is_exact(n);
    } else {
        lemma_large_stays_large(n);
    }
}

impl WeightModel for CountModel {
    type Weight = u32;

    open spec fn zero_at(&self, at: Instant) -> u32 {
        0
    }

    open spec fn observed_at(&self, w: u32, at: Instant) -> u32 {
        count_near(w + 1)
    }

    open spec fn both(&self, a: u32, b: u32) -> u32 {
        count_near(a + b)
    }

    open spec fn suffices_at(&self, w: u32, at: Instant) -> bool {
        w >= MIN_CONTEXT_OBSERVATIONS
    }

    open spec fn share_at(
        &self,
        count: Option<u32>,
        total: u32,
        vocab: usize,
        at: Instant,
    ) -> Fraction {
        let seen = (match count {
            Some(w) => w,
            None => 0,
        }) as int;
        let n = if vocab == 0 {
            1
        } else {
            vocab as int
        };
        Fraction {
            num: (seen * self.den + self.num) as u64,
            den: (total * self.den + n * self.num) as u64,
        }
    }

    fn zero(&self, at: Instant) -> (w: u32) {
        0
    }

    fn observed(&self, w: u32, at: Instant) -> (r: u32) {
        to_count(w as u64 + 1)
    }

    fn combined(&self, a: u32, b: u32) -> (r: u32) {
        to_count(a as u64 + b as u64)
    }

    fn suffices(&self, w: u32, at: Instant) -> (b: bool) {
        w >= MIN_CONTEXT_OBSERVATIONS
    }

    fn share(&self, count: Option<u32>, total: u32, vocab: usize, at: Instant) -> (p: Fraction) {
        let seen: u64 = match count {
            Some(w) => w as u64,
            None => 0,
        };
        let n: u64 = if vocab == 0 {
            1
        } else {
            vocab as u64
        };
        let (num, den): (u64, u64) = (self.num as u64, self.den as u64);
        let all: u64 = total as u64;
        assert(seen * den + num <= 0xffff_ffff * 0xffff + 0xffff && all * den + n * num
            <= 0xffff_ffff * 0xffff + 0x1_0000_0000 * 0xffff) by (nonlinear_arith)
            requires
                seen <= 0xffff_ffff,
                all <= 0xffff_ffff,
                n <= 0x1_0000_0000,
                num <= 0xffff,
                den <= 0xffff,
        ;
        assert(seen * den >= 0 && all * den >= 0 && n * num >= 0) by (nonlinear_arith)
            requires
                seen >= 0,
                all >= 0,
                n >= 0,
                num >= 0,
                den >= 0,
        ;
        Fraction { num: seen * den + num, den: all * den + n * num }
    }
}

/// The transitions out of one context.
#[derive(Clone)]
struct Row<W> {
    context: Vec<EventId>,
    nexts: Vec<(EventId, W)>,
    total: W,
}

/// What is known of the transitions out of one context.
pub ghost struct Transitions<W> {
    pub context: Seq<EventId>,
    pub nexts: Seq<(EventId, W)>,
    pub total: W,
}

impl<W> View for Row<W> {
    type V = Transitions<W>;

    closed spec fn view(&self) -> Transitions<W> {
        Transitions { context: self.context@, nexts: self.nexts@, total: self.total }
    }
}

/// All that a predictor has learned.
pub ghost struct Table<W> {
    pub rows: Seq<Transitions<W>>,
    /// The numbers of the events that were seen, in ascending order.
    pub vocab: Seq<usize>,
}

/// The place of an event among weighed events, or their number.
pub open spec fn next_place<W>(nexts: Seq<(EventId, W)>, event: EventId) -> int
    decreases nexts.len(),
{
    if nexts.len() == 0 {
        0
    } else if nexts[0].0 == event {
        0
    } else {
        1 + next_place(nexts.drop_first(), event)
    }
}

/// The weight of an event among weighed events.
pub open spec fn weight_of<W>(nexts: Seq<(EventId, W)>, event: EventId) -> Option<W> {
    let i = next_place(nexts, event);
    if i < nexts.len() {
        Some(nexts[i].1)
    } else {
        None
    }
}

/// The place of a context among the rows, or their number.
pub open spec fn row_place<W>(rows: Seq<Transitions<W>>, context: Seq<EventId>) -> int
    decreases rows.len(),
{
    if rows.len() == 0 {
        0
    } else if rows[0].context == context {
        0
    } else {
        1 + row_place(rows.drop_first(), context)
    }
}

/// The row of a context.
pub open spec fn row_of<W>(rows: Seq<Transitions<W>>, context: Seq<EventId>) -> Option<
    Transitions<W>,
> {
    let i = row_place(rows, context);
    if i < rows.len() {
        Some(rows[i])
    } else {
        None
    }
}

/// The weighed events with `event` given the weight `w`.
pub open spec fn with_weight<W>(nexts: Seq<(EventId, W)>, event: EventId, w: W) -> Seq<
    (EventId, W),
> {
    let i = next_place(nexts, event);
    if i < nexts.len() {
        nexts.update(i, (event, w))
    } else {
        nexts.push((event, w))
    }
}

/// The rows with `row` in the place of the row of the same context.
pub open spec fn with_row<W>(rows: Seq<Transitions<W>>, row: Transitions<W>) -> Seq<
    Transitions<W>,
> {
    let i = row_place(rows, row.context);
    if i < rows.len() {
        rows.update(i, row)
    } else {
        rows.push(row)
    }
}

/// The row after one more transition to `next`.
pub open spec fn row_observed<M: WeightModel>(
    m: M,
    row: Transitions<M::Weight>,
    next: EventId,
    at: Instant,
) -> Transitions<M::Weight> {
    let before = match weight_of(row.nexts, next) {
        Some(w) => w,
        None => m.zero_at(at),
    };
    Transitions {
        nexts: with_weight(row.nexts, next, m.observed_at(before, at)),
        total: m.observed_at(row.total, at),
        ..row
    }
}

/// The numbers of some events added to those that were seen.
pub open spec fn with_events(vocab: Seq<usize>, events: Seq<EventId>) -> Seq<usize>
    decreases events.len(),
{
    if events.len() == 0 {
        vocab
    } else {
        with_element(with_events(vocab, events.drop_last()), events.last().0 as usize)
    }
}

/// What is known after a transition from `context` to `next`. A context that
/// is empty or too long adds nothing but its events.
pub open spec fn table_recorded<M: WeightModel>(
    m: M,
    max_order: nat,
    t: Table<M::Weight>,
    context: Seq<EventId>,
    next: EventId,
    at: Instant,
) -> Table<M::Weight> {
    let vocab = with_element(with_events(t.vocab, context), next.0 as usize);
    if 0 < context.len() <= max_order {
        let row = match row_of(t.rows, context) {
            Some(row) => row,
            None => Transitions { context, nexts: Seq::empty(), total: m.zero_at(at) },
        };
        Table { rows: with_row(t.rows, row_observed(m, row, next, at)), vocab }
    } else {
        Table { rows: t.rows, vocab }
    }
}

/// What is known after the transitions to place `i` of a sequence of events,
/// from its contexts of length one to `order`.
pub open spec fn table_reached<M: WeightModel>(
    m: M,
    max_order: nat,
    t: Table<M::Weight>,
    events: Seq<EventId>,
    i: int,
    order: nat,
    at: Instant,
) -> Table<M::Weight>
    decreases order,
{
    if order == 0 {
        t
    } else {
        let before = table_reached(m, max_order, t, events, i, (order - 1) as nat, at);
        if i >= order {
            table_recorded(m, max_order, before, events.subrange(i - order, i), events[i], at)
        } else {
            before
        }
    }
}

/// What is known after the first `n` events of a sequence.
pub open spec fn table_sequence<M: WeightModel>(
    m: M,
    max_order: nat,
    t: Table<M::Weight>,
    events: Seq<EventId>,
    n: nat,
    at: Instant,
) -> Table<M::Weight>
    decreases n,
{
    if n <= 1 {
        t
    } else {
        table_reached(
            m,
            max_order,
            table_sequence(m, max_order, t, events, (n - 1) as nat, at),
            events,
            n - 1,
            max_order,
            at,
        )
    }
}

/// The longest end of `context`, of at most `order` events, that was seen
/// often enough.
pub open spec fn backed_off<M: WeightModel>(
    m: M,
    t: Table<M::Weight>,
    context: Seq<EventId>,
    order: nat,
    at: Instant,
) -> Option<Transitions<M::Weight>>
    decreases order,
{
    if order == 0 {
        None
    } else {
        match row_of(t.rows, last_of(context, order)) {
            Some(row) => if m.suffices_at(row.total, at) {
                Some(row)
            } else {
                backed_off(m, t, context, (order - 1) as nat, at)
            },
            None => backed_off(m, t, context, (order - 1) as nat, at),
        }
    }
}

/// Every event that was seen, with its probability after a context.
pub open spec fn shares<M: WeightModel>(
    m: M,
    t: Table<M::Weight>,
    row: Transitions<M::Weight>,
    at: Instant,
) -> Seq<Prediction> {
    t.vocab.map_values(
        |v: usize|
            Prediction {
                event: EventId(v as u32),
                probability: m.share_at(
                    weight_of(row.nexts, EventId(v as u32)),
                    row.total,
                    t.vocab.len() as usize,
                    at,
                ),
            },
    )
}

/// Every event that was seen, all equally likely.
pub open spec fn equal_shares<W>(t: Table<W>) -> Seq<Prediction> {
    t.vocab.map_values(
        |v: usize|
            Prediction {
                event: EventId(v as u32),
                probability: Fraction { num: 1, den: t.vocab.len() as u64 },
            },
    )
}

/// What is predicted after a context: the events that were seen, ranked by
/// their probability after the longest end of the context that was seen often
/// enough. Where there is none the events are equally likely, and come in
/// the order of their numbers.
pub open spec fn predicted<M: WeightModel>(
    m: M,
    max_order: nat,
    t: Table<M::Weight>,
    context: Seq<EventId>,
    k: nat,
    at: Instant,
) -> Seq<Prediction> {
    let order = if context.len() <= max_order {
        context.len()
    } else {
        max_order
    };
    match backed_off(m, t, context, order, at) {
        Some(row) => at_most(ranked(shares(m, t, row, at)), k),
        None => at_most(equal_shares(t), k),
    }
}

/// `after` is what is known after a transition at some moment that the clock shows.
pub open spec fn recorded_sometime<M: WeightModel>(
    clock: Clock,
    m: M,
    max_order: nat,
    t: Table<M::Weight>,
    context: Seq<EventId>,
    next: EventId,
    after: Table<M::Weight>,
) -> bool {
    exists|at: Instant|
        clock.shows(at) && after == #[trigger] table_recorded(m, max_order, t, context, next, at)
}

/// `after` is what is known after a sequence of events at some moment that the clock
/// shows.
pub open spec fn sequence_sometime<M: WeightModel>(
    clock: Clock,
    m: M,
    max_order: nat,
    t: Table<M::Weight>,
    events: Seq<EventId>,
    after: Table<M::Weight>,
) -> bool {
    exists|at: Instant|
        clock.shows(at) && after == #[trigger] table_after(m, max_order, t, events, at)
}

/// `out` is what is predicted after a context at some moment that the clock shows.
pub open spec fn predicted_sometime<M: WeightModel>(
    clock: Clock,
    m: M,
    max_order: nat,
    t: Table<M::Weight>,
    context: Seq<EventId>,
    k: nat,
    out: Seq<Prediction>,
) -> bool {
    exists|at: Instant|
        clock.shows(at) && out == #[trigger] predicted(m, max_order, t, context, k, at)
}

/// No event is weighed twice.
pub open spec fn distinct_nexts<W>(nexts: Seq<(EventId, W)>) -> bool {
    forall|i: int, j: int|
        0 <= i < j < nexts.len() ==> (#[trigger] nexts[i]).0 != (#[trigger] nexts[j]).0
}

/// Every context has one row, is of a length that is kept, and leads
/// somewhere.
pub open spec fn tidy<W>(rows: Seq<Transitions<W>>, max_order: nat) -> bool {
    &&& forall|i: int, j: int|
        0 <= i < j < rows.len() ==> (#[trigger] rows[i]).context != (#[trigger] rows[j]).context
    &&& forall|i: int|
        #![trigger rows[i]]
        0 <= i < rows.len() ==> {
            &&& 0 < rows[i].context.len() <= max_order
            &&& rows[i].nexts.len() > 0
            &&& distinct_nexts(rows[i].nexts)
        }
}

/// The place of an event, if it is weighed, is the first place that it has.
pub proof fn lemma_next_place<W>(nexts: Seq<(EventId, W)>, event: EventId)
    ensures
        0 <= next_place(nexts, event) <= nexts.len(),
        next_place(nexts, event) < nexts.len() ==> nexts[next_place(nexts, event)].0 == event,
        forall|i: int|
            0 <= i < next_place(nexts, event) ==> (#[trigger] nexts[i]).0 != event,
    decreases nexts.len(),
{
    if nexts.len() > 0 && nexts[0].0 != event {
        let rest = nexts.drop_first();
        lemma_next_place(rest, event);
        assert forall|i: int| 0 <= i < next_place(nexts, event) implies (#[trigger] nexts[i]).0
            != event by {
            if i > 0 {
                assert(nexts[i] == rest[i - 1]);
            }
        }
    }
}

/// The place of a context, if it has a row, is the first place that it has.
pub proof fn lemma_row_place<W>(rows: Seq<Transitions<W>>, context: Seq<EventId>)
    ensures
        0 <= row_place(rows, context) <= rows.len(),
        row_place(rows, context) < rows.len() ==> rows[row_place(rows, context)].context
            == context,
        forall|i: int|
            0 <= i < row_place(rows, context) ==> (#[trigger] rows[i]).context != context,
    decreases rows.len(),
{
    if rows.len() > 0 && rows[0].context != context {
        let rest = rows.drop_first();
        lemma_row_place(rest, context);
        assert forall|i: int| 0 <= i < row_place(rows, context) implies (
        #[trigger] rows[i]).context != context by {
            if i > 0 {
                assert(rows[i] == rest[i - 1]);
            }
        }
    }
}

/// Giving an event a weight leaves every other weight alone.
pub proof fn lemma_with_weight<W>(
    nexts: Seq<(EventId, W)>,
    event: EventId,
    w: W,
    other: EventId,
)
    requires
        distinct_nexts(nexts),
    ensures
        distinct_nexts(with_weight(nexts, event, w)),
        with_weight(nexts, event, w).len() > 0,
        weight_of(with_weight(nexts, event, w), event) == Some(w),
        other != event ==> weight_of(with_weight(nexts, event, w), other) == weight_of(
            nexts,
            other,
        ),
{
    let r = with_weight(nexts, event, w);
    lemma_next_place(nexts, event);
    lemma_next_place(nexts, other);
    lemma_next_place(r, event);
    lemma_next_place(r, other);
    let p = next_place(nexts, event);
    assert forall|i: int, j: int| 0 <= i < j < r.len() implies (#[trigger] r[i]).0 != (
    #[trigger] r[j]).0 by {
        if p == nexts.len() {
            assert(r[i] == nexts[i]);
            if j < nexts.len() {
                assert(r[j] == nexts[j]);
            }
        } else {
            assert(r[i].0 == nexts[i].0 && r[j].0 == nexts[j].0);
        }
    }
    assert(r[p].0 == event);
    if other != event {
        let (q, s) = (next_place(nexts, other), next_place(r, other));
        if q < nexts.len() {
            assert(r[q] == nexts[q]);
        }
        if s < r.len() {
            assert(s != p);
            assert(r[s] == nexts[s]);
        }
    }
}

/// Putting a row in its place keeps the rows tidy.
proof fn lemma_with_row_tidy<W>(rows: Seq<Transitions<W>>, row: Transitions<W>, max_order: nat)
    requires
        tidy(rows, max_order),
        0 < row.context.len() <= max_order,
        row.nexts.len() > 0,
        distinct_nexts(row.nexts),
    ensures
        tidy(with_row(rows, row), max_order),
{
    let r = with_row(rows, row);
    let p = row_place(rows, row.context);
    lemma_row_place(rows, row.context);
    assert forall|i: int, j: int| 0 <= i < j < r.len() implies (#[trigger] r[i]).context != (
    #[trigger] r[j]).context by {
        if p == rows.len() {
            assert(r[i] == rows[i]);
            if j < rows.len() {
                assert(r[j] == rows[j]);
            }
        } else {
            assert(r[i].context == rows[i].context && r[j].context == rows[j].context);
        }
    }
    assert forall|i: int| #![trigger r[i]] 0 <= i < r.len() implies {
        &&& 0 < r[i].context.len() <= max_order
        &&& r[i].nexts.len() > 0
        &&& distinct_nexts(r[i].nexts)
    } by {
        if i != p {
            assert(r[i] == rows[i]);
        }
    }
}

/// Event numbers in ascending order are not more than there are numbers.
pub proof fn lemma_vocab_bound(vocab: Seq<usize>)
    requires
        strictly_ascending(vocab),
        forall|i: int| 0 <= i < vocab.len() ==> #[trigger] vocab[i] <= u32::MAX,
    ensures
        vocab.len() <= 0x1_0000_0000,
{
    if vocab.len() > 0 {
        lemma_ascending_from_zero(vocab, vocab.len() - 1);
    }
}

proof fn lemma_ascending_from_zero(s: Seq<usize>, i: int)
    requires
        strictly_ascending(s),
        0 <= i < s.len(),
    ensures
        s[i] >= i,
    decreases i,
{
    if i > 0 {
        lemma_ascending_from_zero(s, i - 1);
    }
}

/// Whether two lists of events are equal.
fn same_events(a: &[EventId], b: &[EventId]) -> (r: bool)
    ensures
        r == (a@ == b@),
{
    if a.len() != b.len() {
        return false;
    }
    let mut i: usize = 0;
    while i < a.len()
        invariant
            i <= a@.len(),
            a@.len() == b@.len(),
            forall|j: int| 0 <= j < i ==> a@[j] == b@[j],
        decreases a@.len() - i,
    {
        if a[i] != b[i] {
            return false;
        }
        i = i + 1;
    }
    assert(a@ =~= b@);
    true
}

/// The place of an event among weighed events, or their number.
fn find_next<W>(nexts: &Vec<(EventId, W)>, event: EventId) -> (place: usize)
    ensures
        place == next_place(nexts@, event),
        place <= nexts@.len(),
{
    let mut i: usize = 0;
    assert(nexts@.skip(0) =~= nexts@);
    while i < nexts.len() && nexts[i].0 != event
        invariant
            i <= nexts@.len(),
            next_place(nexts@, event) == i + next_place(nexts@.skip(i as int), event),
        decreases nexts@.len() - i,
    {
        assert(nexts@.skip(i as int).drop_first() =~= nexts@.skip(i + 1));
        i = i + 1;
    }
    i
}

/// Give an event a weight.
fn set_weight<W>(nexts: &mut Vec<(EventId, W)>, event: EventId, w: W)
    ensures
        final(nexts)@ == with_weight(old(nexts)@, event, w),
{
    let place: usize = find_next(nexts, event);
    if place < nexts.len() {
        nexts[place] = (event, w);
    } else {
        nexts.push((event, w));
    }
}

/// Predicts the next event from the last few.
#[derive(Clone)]
pub struct MarkovPredictor<M: WeightModel> {
    rows: Vec<Row<M::Weight>>,
    vocab: Vec<usize>,
    max_order: usize,
    model: M,
    clock: Clock,
}

impl<M: WeightModel> MarkovPredictor<M> {
    /// What was learned.
    pub closed spec fn table(&self) -> Table<M::Weight> {
        Table {
            rows: self.rows@.map_values(|r: Row<M::Weight>| r@),
            vocab: self.vocab@,
        }
    }

    /// How transitions are weighed.
    pub closed spec fn weighing(&self) -> M {
        self.model
    }

    /// The length of the longest contexts that are kept.
    pub closed spec fn order(&self) -> nat {
        self.max_order as nat
    }

    /// The clock by which observations are dated.
    pub closed spec fn timer(&self) -> Clock {
        self.clock
    }

    pub closed spec fn wf(&self) -> bool {
        &&& self.max_order >= 1
        &&& tidy(self.table().rows, self.max_order as nat)
        &&& strictly_ascending(self.vocab@)
        &&& forall|i: int| 0 <= i < self.vocab@.len() ==> #[trigger] self.vocab@[i] <= u32::MAX
    }

    /// An empty predictor. At least contexts of one event are kept.
    pub fn with_model(max_order: usize, model: M) -> (p: Self)
        requires
            max_order >= 1,
        ensures
            p.wf(),
            p.order() == max_order,
            p.weighing() == model,
            p.table() == (Table::<M::Weight> { rows: Seq::empty(), vocab: Seq::empty() }),
            p.timer().is_new(),
    {
        let p = MarkovPredictor {
            rows: Vec::new(),
            vocab: Vec::new(),
            max_order,
            model,
            clock: Clock::start(),
        };
        assert(p.table().rows =~= Seq::empty());
        p
    }

    /// The present moment on the clock by which observations are dated.
    pub fn now(&self) -> (at: Instant)
        ensures
            self.timer().shows(at),
    {
        self.clock.now()
    }

    /// Record a transition at the present moment.
    pub fn observe(&mut self, prev: EventId, next: EventId)
        requires
            old(self).wf(),
        ensures
            final(self).wf(),
            final(self).order() == old(self).order(),
            final(self).weighing() == old(self).weighing(),
            final(self).timer() == old(self).timer(),
            recorded_sometime(
                old(self).timer(),
                old(self).weighing(),
                old(self).order(),
                old(self).table(),
                seq![prev],
                next,
                final(self).table(),
            ),
    {
        let at = self.clock.now();
        self.observe_at(prev, next, at);
    }

    /// Record a transition at a given moment.
    pub fn observe_at(&mut self, prev: EventId, next: EventId, at: Instant)
        requires
            old(self).wf(),
        ensures
            final(self).wf(),
            final(self).order() == old(self).order(),
            final(self).weighing() == old(self).weighing(),
            final(self).timer() == old(self).timer(),
            final(self).table() == table_recorded(
                old(self).weighing(),
                old(self).order(),
                old(self).table(),
                seq![prev],
                next,
                at,
            ),
    {
        let context: [EventId; 1] = [prev];
        let context = context.as_slice();
        assert(context@ =~= seq![prev]);
        self.record(context, next, at);
    }

    fn note_event(&mut self, event: EventId)
        requires
            old(self).wf(),
        ensures
            final(self).wf(),
            final(self).rows == old(self).rows,
            final(self).max_order == old(self).max_order,
            final(self).model == old(self).model,
            final(self).clock == old(self).clock,
            final(self).vocab@ == with_element(old(self).vocab@, event.0 as usize),
    {
        insert_distinct(&mut self.vocab, event.0 as usize);
        proof {
            let after = self.vocab@;
            assert forall|i: int| 0 <= i < after.len() implies #[trigger] after[i]
                <= u32::MAX by {
                assert(after.contains(after[i]));
            }
        }
    }

    fn note_events(&mut self, events: &[EventId])
        requires
            old(self).wf(),
        ensures
            final(self).wf(),
            final(self).rows == old(self).rows,
            final(self).max_order == old(self).max_order,
            final(self).model == old(self).model,
            final(self).clock == old(self).clock,
            final(self).vocab@ == with_events(old(self).vocab@, events@),
    {
        let mut i: usize = 0;
        while i < events.len()
            invariant
                i <= events@.len(),
                self.wf(),
                self.rows == old(self).rows,
                self.max_order == old(self).max_order,
                self.model == old(self).model,
                self.clock == old(self).clock,
                self.vocab@ == with_events(old(self).vocab@, events@.take(i as int)),
            decreases events@.len() - i,
        {
            assert(events@.take(i + 1).drop_last() =~= events@.take(i as int));
            self.note_event(events[i]);
            i = i + 1;
        }
        assert(events@.take(i as int) =~= events@);
    }

    /// The place of a context among the rows, or their number.
    fn find_row(&self, context: &[EventId]) -> (place: usize)
        ensures
            place == row_place(self.table().rows, context@),
            place <= self.rows@.len(),
            place < self.rows@.len() ==> self.rows@[place as int]@.context == context@,
    {
        let ghost rows = self.table().rows;
        let mut i: usize = 0;
        assert(rows.skip(0) =~= rows);
        while i < self.rows.len() && !same_events(self.rows[i].context.as_slice(), context)
            invariant
                i <= self.rows@.len(),
                rows == self.table().rows,
                row_place(rows, context@) == i + row_place(rows.skip(i as int), context@),
            decreases self.rows@.len() - i,
        {
            assert(rows.skip(i as int)[0] == self.rows@[i as int]@);
            assert(rows.skip(i as int).drop_first() =~= rows.skip(i + 1));
            i = i + 1;
        }
        assert(i < self.rows@.len() ==> rows.skip(i as int)[0] == self.rows@[i as int]@);
        i
    }

    fn record(&mut self, context: &[EventId], next: EventId, at: Instant)
        requires
            old(self).wf(),
        ensures
            final(self).wf(),
            final(self).max_order == old(self).max_order,
            final(self).model == old(self).model,
            final(self).clock == old(self).clock,
            final(self).table() == table_recorded(
                old(self).weighing(),
                old(self).order(),
                old(self).table(),
                context@,
                next,
                at,
            ),
    {
        self.note_events(context);
        self.note_event(next);
        let order: usize = context.len();
        if order == 0 || order > self.max_order {
            return;
        }
        let ghost rows = self.table().rows;
        let place: usize = self.find_row(context);
        if place == self.rows.len() {
            let row = Row {
                context: slice_to_vec(context),
                nexts: Vec::new(),
                total: self.model.zero(at),
            };
            self.rows.push(row);
        }
        let ghost row = self.rows@[place as int]@;
        let ghost fresh = Transitions {
            context: context@,
            nexts: Seq::empty(),
            total: self.model.zero_at(at),
        };
        proof {
            assert(row == match row_of(rows, context@) {
                Some(row) => row,
                None => fresh,
            });
        }
        let seen: usize = find_next(&self.rows[place].nexts, next);
        let before = if seen < self.rows[place].nexts.len() {
            self.rows[place].nexts[seen].1
        } else {
            self.model.zero(at)
        };
        let after = self.model.observed(before, at);
        let total = self.model.observed(self.rows[place].total, at);
        set_weight(&mut self.rows[place].nexts, next, after);
        self.rows[place].total = total;
        proof {
            assert(self.rows@[place as int]@ == row_observed(self.model, row, next, at));
            lemma_row_place(rows, context@);
            lemma_with_weight(row.nexts, next, after, next);
            lemma_with_row_tidy(
                rows,
                row_observed(self.model, row, next, at),
                self.max_order as nat,
            );
            assert(self.table().rows =~= with_row(rows, row_observed(self.model, row, next, at)));
        }
    }

    /// Record the transitions of a whole sequence of events, from all contexts
    /// up to the longest that are kept.
    pub fn observe_sequence(&mut self, events: &[EventId])
        requires
            old(self).wf(),
        ensures
            final(self).wf(),
            final(self).order() == old(self).order(),
            final(self).weighing() == old(self).weighing(),
            final(self).timer() == old(self).timer(),
            sequence_sometime(
                old(self).timer(),
                old(self).weighing(),
                old(self).order(),
                old(self).table(),
                events@,
                final(self).table(),
            ),
    {
        let at = self.clock.now();
        self.observe_sequence_at(events, at);
    }

    /// Record the transitions of a whole sequence of events, all at one moment.
    pub fn observe_sequence_at(&mut self, events: &[EventId], at: Instant)
        requires
            old(self).wf(),
        ensures
            final(self).wf(),
            final(self).order() == old(self).order(),
            final(self).weighing() == old(self).weighing(),
            final(self).timer() == old(self).timer(),
            final(self).table() == table_after(
                old(self).weighing(),
                old(self).order(),
                old(self).table(),
                events@,
                at,
            ),
    {
        let ghost (m, most) = (self.model, self.max_order as nat);
        self.note_events(events);
        let ghost start = self.table();
        let mut i: usize = 1;
        while i < events.len()
            invariant
                1 <= i,
                i <= events@.len() || i == 1,
                self.wf(),
                self.model == m,
                m == old(self).model,
                self.max_order == most == old(self).max_order,
                self.clock == old(self).clock,
                self.table() == table_sequence(m, most, start, events@, i as nat, at),
            decreases events@.len() - i,
        {
            let ghost before = self.table();
            let mut order: usize = 1;
            while order <= self.max_order && order <= i
                invariant
                    1 <= i < events@.len(),
                    1 <= order <= i + 1,
                    order <= most + 1,
                    self.wf(),
                    self.model == m,
                m == old(self).model,
                    self.max_order == most == old(self).max_order,
                    self.clock == old(self).clock,
                    self.table() == table_reached(
                        m,
                        most,
                        before,
                        events@,
                        i as int,
                        (order - 1) as nat,
                        at,
                    ),
                decreases i + 1 - order,
            {
                self.record(slice_subrange(events, i - order, i), events[i], at);
                order = order + 1;
            }
            proof {
                if order > i {
                    lemma_reached_all(m, most, before, events@, i as int, (order - 1) as nat, at);
                }
            }
            i = i + 1;
        }
        proof {
            lemma_sequence_short(m, most, start, events@, at);
        }
    }

    /// Predict after a single event.
    pub fn predict(&self, prev: EventId, k: usize) -> (r: Vec<Prediction>)
        requires
            self.wf(),
        ensures
            predicted_sometime(
                self.timer(),
                self.weighing(),
                self.order(),
                self.table(),
                seq![prev],
                k as nat,
                r@,
            ),
    {
        let context: [EventId; 1] = [prev];
        let context = context.as_slice();
        assert(context@ =~= seq![prev]);
        self.predict_with_context(context, k)
    }

    /// Predict after a context, weighing what was seen as of now.
    pub fn predict_with_context(&self, context: &[EventId], k: usize) -> (r: Vec<Prediction>)
        requires
            self.wf(),
        ensures
            predicted_sometime(
                self.timer(),
                self.weighing(),
                self.order(),
                self.table(),
                context@,
                k as nat,
                r@,
            ),
    {
        self.predict_with_context_at(context, k, self.clock.now())
    }

    /// Predict after a context, weighing what was seen as of a given moment.
    pub fn predict_with_context_at(
        &self,
        context: &[EventId],
        k: usize,
        at: Instant,
    ) -> (r: Vec<Prediction>)
        requires
            self.wf(),
        ensures
            r@ == predicted(
                self.weighing(),
                self.order(),
                self.table(),
                context@,
                k as nat,
                at,
            ),
    {
        let longest: usize = if context.len() <= self.max_order {
            context.len()
        } else {
            self.max_order
        };
        let mut order: usize = longest;
        while order > 0
            invariant
                self.wf(),
                order <= longest <= context@.len(),
                longest == if context@.len() <= self.max_order {
                    context@.len()
                } else {
                    self.max_order as nat
                },
                backed_off(self.model, self.table(), context@, longest as nat, at) == backed_off(
                    self.model,
                    self.table(),
                    context@,
                    order as nat,
                    at,
                ),
            decreases order,
        {
            let key = slice_subrange(context, context.len() - order, context.len());
            assert(key@ =~= last_of(context@, order as nat));
            let place: usize = self.find_row(key);
            if place < self.rows.len() && self.model.suffices(self.rows[place].total, at) {
                assert(self.table().rows[place as int] == self.rows@[place as int]@);
                return self.score(place, k, at);
            }
            assert(place < self.rows@.len() ==> self.table().rows[place as int]
                == self.rows@[place as int]@);
            order = order - 1;
        }
        self.uniform(k)
    }

    fn score(&self, place: usize, k: usize, at: Instant) -> (r: Vec<Prediction>)
        requires
            self.wf(),
            place < self.rows@.len(),
        ensures
            r@ == at_most(
                ranked(shares(self.model, self.table(), self.rows@[place as int]@, at)),
                k as nat,
            ),
    {
        let row = &self.rows[place];
        let n: usize = self.vocab.len();
        proof {
            lemma_vocab_bound(self.vocab@);
        }
        let mut scored: Vec<Prediction> = Vec::new();
        let ghost all = shares(self.model, self.table(), row@, at);
        let mut i: usize = 0;
        while i < n
            invariant
                i <= n == self.vocab@.len(),
                n <= 0x1_0000_0000,
                all == shares(self.model, self.table(), row@, at),
                scored@ == all.take(i as int),
            decreases n - i,
        {
            let event = EventId(self.vocab[i] as u32);
            let seen: usize = find_next(&row.nexts, event);
            let count = if seen < row.nexts.len() {
                Some(row.nexts[seen].1)
            } else {
                None
            };
            let probability = self.model.share(count, row.total, n, at);
            scored.push(Prediction { event, probability });
            i = i + 1;
            assert(scored@ =~= all.take(i as int));
        }
        assert(scored@ =~= all);
        rank_predictions(&scored, k)
    }

    fn uniform(&self, k: usize) -> (r: Vec<Prediction>)
        ensures
            r@ == at_most(equal_shares(self.table()), k as nat),
    {
        let n: usize = self.vocab.len();
        let taken: usize = if n <= k {
            n
        } else {
            k
        };
        let ghost all = equal_shares(self.table());
        let mut r: Vec<Prediction> = Vec::new();
        let mut i: usize = 0;
        while i < taken
            invariant
                i <= taken <= n == self.vocab@.len(),
                all == equal_shares(self.table()),
                r@ == all.take(i as int),
            decreases taken - i,
        {
            r.push(
                Prediction {
                    event: EventId(self.vocab[i] as u32),
                    probability: Fraction { num: 1, den: n as u64 },
                },
            );
            i = i + 1;
            assert(r@ =~= all.take(i as int));
        }
        assert(r@ =~= at_most(all, k as nat));
        r
    }

    /// Number of events that were seen.
    pub fn vocab_size(&self) -> (n: usize)
        ensures
            n == self.table().vocab.len(),
    {
        self.vocab.len()
    }

    /// The numbers of the events that were seen, in ascending order.
    pub fn vocab(&self) -> (vocab: &[usize])
        ensures
            vocab@ == self.table().vocab,
    {
        self.vocab.as_slice()
    }

    /// The length of the longest contexts that are kept.
    pub fn max_order(&self) -> (n: usize)
        ensures
            n == self.order(),
    {
        self.max_order
    }

    /// How transitions are weighed.
    pub fn model(&self) -> (m: &M)
        ensures
            *m == self.weighing(),
    {
        &self.model
    }

    /// The weight of all transitions out of a single event, if there are any.
    pub fn observed_transitions(&self, prev: EventId) -> (w: Option<M::Weight>)
        ensures
            w == match row_of(self.table().rows, seq![prev]) {
                Some(row) => Some(row.total),
                None => None,
            },
    {
        let context: [EventId; 1] = [prev];
        let context = context.as_slice();
        assert(context@ =~= seq![prev]);
        let place: usize = self.find_row(context);
        if place < self.rows.len() {
            assert(self.table().rows[place as int] == self.rows@[place as int]@);
            Some(self.rows[place].total)
        } else {
            None
        }
    }
}

/// One weighed transition.
pub struct TransitionRow<W> {
    pub context: Vec<EventId>,
    pub next: EventId,
    pub weight: W,
}

impl<W> View for TransitionRow<W> {
    type V = (Seq<EventId>, EventId, W);

    open spec fn view(&self) -> (Seq<EventId>, EventId, W) {
        (self.context@, self.next, self.weight)
    }
}

/// The weighed transitions, as their views.
pub open spec fn entries_of<W>(rows: Seq<TransitionRow<W>>) -> Seq<(Seq<EventId>, EventId, W)> {
    rows.map_values(|r: TransitionRow<W>| r@)
}

/// The transitions out of one context.
pub open spec fn listed_row<W>(row: Transitions<W>) -> Seq<(Seq<EventId>, EventId, W)> {
    row.nexts.map_values(|n: (EventId, W)| (row.context, n.0, n.1))
}

/// The transitions out of all contexts.
pub open spec fn listed_rows<W>(rows: Seq<Transitions<W>>) -> Seq<(Seq<EventId>, EventId, W)>
    decreases rows.len(),
{
    if rows.len() == 0 {
        Seq::empty()
    } else {
        listed_rows(rows.drop_last()) + listed_row(rows.last())
    }
}

/// The weights of the events taken together.
pub open spec fn summed<M: WeightModel>(
    m: M,
    nexts: Seq<(EventId, M::Weight)>,
    at: Instant,
) -> M::Weight
    decreases nexts.len(),
{
    if nexts.len() == 0 {
        m.zero_at(at)
    } else {
        m.both(summed(m, nexts.drop_last(), at), nexts.last().1)
    }
}

/// The rows after a weighed transition was read. The total of its context is
/// what the transitions out of it weigh together. A context that is empty or
/// too long is passed over.
pub open spec fn with_loaded<M: WeightModel>(
    m: M,
    max_order: nat,
    rows: Seq<Transitions<M::Weight>>,
    entry: (Seq<EventId>, EventId, M::Weight),
    at: Instant,
) -> Seq<Transitions<M::Weight>> {
    if 0 < entry.0.len() <= max_order {
        let before = match row_of(rows, entry.0) {
            Some(row) => row.nexts,
            None => Seq::empty(),
        };
        let nexts = with_weight(before, entry.1, entry.2);
        with_row(rows, Transitions { context: entry.0, nexts, total: summed(m, nexts, at) })
    } else {
        rows
    }
}

/// The rows after all the weighed transitions were read.
pub open spec fn loaded<M: WeightModel>(
    m: M,
    max_order: nat,
    entries: Seq<(Seq<EventId>, EventId, M::Weight)>,
    at: Instant,
) -> Seq<Transitions<M::Weight>>
    decreases entries.len(),
{
    if entries.len() == 0 {
        Seq::empty()
    } else {
        with_loaded(m, max_order, loaded(m, max_order, entries.drop_last(), at), entries.last(), at)
    }
}

/// The rows with each total made what the transitions weigh together.
pub open spec fn with_totals<M: WeightModel>(
    m: M,
    rows: Seq<Transitions<M::Weight>>,
    at: Instant,
) -> Seq<Transitions<M::Weight>> {
    rows.map_values(
        |r: Transitions<M::Weight>| Transitions { total: summed(m, r.nexts, at), ..r },
    )
}

/// Reading back the transitions of tidy rows gives the rows, with each total
/// made what the transitions weigh together.
pub proof fn lemma_reload<M: WeightModel>(
    m: M,
    max_order: nat,
    rows: Seq<Transitions<M::Weight>>,
    at: Instant,
)
    requires
        tidy(rows, max_order),
    ensures
        loaded(m, max_order, listed_rows(rows), at) == with_totals(m, rows, at),
    decreases rows.len(),
{
    if rows.len() == 0 {
        assert(with_totals(m, rows, at) =~= Seq::empty());
    } else {
        let init = rows.drop_last();
        let row = rows.last();
        assert(tidy(init, max_order)) by {
            assert forall|i: int| 0 <= i < init.len() implies #[trigger] init[i] == rows[i] by {}
        }
        lemma_reload(m, max_order, init, at);
        assert(rows =~= init.push(row));
        lemma_reload_row(m, max_order, init, row, row.nexts.len(), at);
        assert(row.nexts.take(row.nexts.len() as int) =~= row.nexts);
        assert(with_totals(m, rows, at) =~= with_totals(m, init, at).push(
            Transitions { total: summed(m, row.nexts, at), ..row },
        ));
    }
}

/// Reading the first `n` transitions out of one more context.
proof fn lemma_reload_row<M: WeightModel>(
    m: M,
    max_order: nat,
    init: Seq<Transitions<M::Weight>>,
    row: Transitions<M::Weight>,
    n: nat,
    at: Instant,
)
    requires
        tidy(init.push(row), max_order),
        loaded(m, max_order, listed_rows(init), at) == with_totals(m, init, at),
        n <= row.nexts.len(),
    ensures
        loaded(m, max_order, listed_rows(init) + listed_row(row).take(n as int), at) == if n == 0 {
            with_totals(m, init, at)
        } else {
            let nexts = row.nexts.take(n as int);
            with_totals(m, init, at).push(
                Transitions { context: row.context, nexts, total: summed(m, nexts, at) },
            )
        },
        n == row.nexts.len() ==> listed_rows(init) + listed_row(row).take(n as int) == listed_rows(
            init.push(row),
        ),
    decreases n,
{
    let base = listed_rows(init);
    let list = listed_row(row);
    let entries = base + list.take(n as int);
    let all = init.push(row);
    assert(all[init.len() as int] == row);
    assert(all.drop_last() =~= init);
    assert(list.take(list.len() as int) =~= list);
    if n == 0 {
        assert(entries =~= base);
    } else {
        let k = (n - 1) as nat;
        lemma_reload_row(m, max_order, init, row, k, at);
        assert(entries.drop_last() =~= base + list.take(k as int));
        assert(entries.last() == (row.context, row.nexts[k as int].0, row.nexts[k as int].1));
        let before = loaded(m, max_order, entries.drop_last(), at);
        let old_nexts = row.nexts.take(k as int);
        let (event, w) = row.nexts[k as int];
        let nexts = row.nexts.take(n as int);
        assert(nexts =~= old_nexts.push((event, w)));
        lemma_next_place(old_nexts, event);
        assert(next_place(old_nexts, event) == old_nexts.len()) by {
            let p = next_place(old_nexts, event);
            if p < old_nexts.len() {
                assert(row.nexts[p].0 == event);
            }
        }
        assert(with_weight(old_nexts, event, w) =~= nexts);
        lemma_row_place(before, row.context);
        let p = row_place(before, row.context);
        let totals = with_totals(m, init, at);
        assert forall|i: int| 0 <= i < init.len() implies (#[trigger] before[i]).context
            != row.context by {
            assert(before[i] == totals[i]);
            assert(all[i] == init[i]);
            assert(all[i].context != all[init.len() as int].context);
        }
        if k == 0 {
            assert(before.len() == init.len());
            assert(old_nexts =~= Seq::empty());
        } else {
            assert(before[init.len() as int].context == row.context);
            assert(before.len() == init.len() + 1);
        }
        assert(p == init.len());
        assert(loaded(m, max_order, entries, at) =~= totals.push(
            Transitions { context: row.context, nexts, total: summed(m, nexts, at) },
        ));
    }
}

impl<M: WeightModel> MarkovPredictor<M> {
    /// All weighed transitions, context by context.
    pub fn rows(&self) -> (rows: Vec<TransitionRow<M::Weight>>)
        ensures
            entries_of(rows@) == listed_rows(self.table().rows),
    {
        let ghost table = self.table().rows;
        let mut out: Vec<TransitionRow<M::Weight>> = Vec::new();
        let mut i: usize = 0;
        assert(entries_of(out@) =~= listed_rows(table.take(0)));
        while i < self.rows.len()
            invariant
                i <= self.rows@.len(),
                table == self.table().rows,
                entries_of(out@) == listed_rows(table.take(i as int)),
            decreases self.rows@.len() - i,
        {
            let row = &self.rows[i];
            let ghost done = entries_of(out@);
            let ghost list = listed_row(row@);
            let mut j: usize = 0;
            assert(done + list.take(0) =~= done);
            while j < row.nexts.len()
                invariant
                    j <= row.nexts@.len(),
                    list == listed_row(row@),
                    entries_of(out@) == done + list.take(j as int),
                decreases row.nexts@.len() - j,
            {
                let (next, weight) = row.nexts[j];
                let ghost before = out@;
                out.push(
                    TransitionRow { context: slice_to_vec(row.context.as_slice()), next, weight },
                );
                j = j + 1;
                assert(entries_of(out@) =~= entries_of(before).push(out@.last()@));
                assert(entries_of(out@) =~= done + list.take(j as int));
            }
            assert(list.take(j as int) =~= list);
            assert(table.take(i + 1).drop_last() =~= table.take(i as int));
            i = i + 1;
        }
        assert(table.take(i as int) =~= table);
        out
    }

    /// A predictor that knows the given events and weighed transitions.
    pub fn from_rows(
        max_order: usize,
        model: M,
        vocab: &[EventId],
        rows: &[TransitionRow<M::Weight>],
        at: Instant,
    ) -> (p: Self)
        requires
            max_order >= 1,
        ensures
            p.wf(),
            p.order() == max_order,
            p.weighing() == model,
            p.table().vocab == with_events(Seq::empty(), vocab@),
            p.table().rows == loaded(model, max_order as nat, entries_of(rows@), at),
    {
        let mut p = Self::with_model(max_order, model);
        // What was read ages from here on.
        let _ = p.clock.now();
        p.note_events(vocab);
        let ghost entries = entries_of(rows@);
        let mut i: usize = 0;
        assert(entries.take(0) =~= Seq::empty());
        while i < rows.len()
            invariant
                i <= rows@.len(),
                p.wf(),
                p.max_order == max_order,
                p.model == model,
                p.vocab@ == with_events(Seq::empty(), vocab@),
                entries == entries_of(rows@),
                p.table().rows == loaded(model, max_order as nat, entries.take(i as int), at),
            decreases rows@.len() - i,
        {
            assert(entries.take(i + 1).drop_last() =~= entries.take(i as int));
            assert(entries[i as int] == rows@[i as int]@);
            p.load(&rows[i], at);
            i = i + 1;
        }
        assert(entries.take(i as int) =~= entries);
        p
    }

    fn load(&mut self, entry: &TransitionRow<M::Weight>, at: Instant)
        requires
            old(self).wf(),
        ensures
            final(self).wf(),
            final(self).max_order == old(self).max_order,
            final(self).model == old(self).model,
            final(self).clock == old(self).clock,
            final(self).vocab == old(self).vocab,
            final(self).table().rows == with_loaded(
                old(self).model,
                old(self).max_order as nat,
                old(self).table().rows,
                entry@,
                at,
            ),
    {
        let order: usize = entry.context.len();
        if order == 0 || order > self.max_order {
            return;
        }
        let ghost rows = self.table().rows;
        let place: usize = self.find_row(entry.context.as_slice());
        if place == self.rows.len() {
            let row = Row {
                context: slice_to_vec(entry.context.as_slice()),
                nexts: Vec::new(),
                total: self.model.zero(at),
            };
            self.rows.push(row);
        }
        let ghost before = self.rows@[place as int]@.nexts;
        assert(before =~= match row_of(rows, entry.context@) {
            Some(row) => row.nexts,
            None => Seq::empty(),
        });
        set_weight(&mut self.rows[place].nexts, entry.next, entry.weight);
        let total = sum_weights(&self.model, &self.rows[place].nexts, at);
        self.rows[place].total = total;
        proof {
            let row = self.rows@[place as int]@;
            lemma_row_place(rows, entry.context@);
            lemma_with_weight(before, entry.next, entry.weight, entry.next);
            lemma_with_row_tidy(rows, row, self.max_order as nat);
            assert(self.table().rows =~= with_row(rows, row));
        }
    }
}

/// The weights of the events taken together.
fn sum_weights<M: WeightModel>(m: &M, nexts: &Vec<(EventId, M::Weight)>, at: Instant) -> (w:
    M::Weight)
    ensures
        w == summed(*m, nexts@, at),
{
    let mut w = m.zero(at);
    let mut i: usize = 0;
    while i < nexts.len()
        invariant
            i <= nexts@.len(),
            w == summed(*m, nexts@.take(i as int), at),
        decreases nexts@.len() - i,
    {
        assert(nexts@.take(i + 1).drop_last() =~= nexts@.take(i as int));
        w = m.combined(w, nexts[i].1);
        i = i + 1;
    }
    assert(nexts@.take(i as int) =~= nexts@);
    w
}

/// What is known after a sequence of events.
pub open spec fn table_after<M: WeightModel>(
    m: M,
    max_order: nat,
    t: Table<M::Weight>,
    events: Seq<EventId>,
    at: Instant,
) -> Table<M::Weight> {
    table_sequence(
        m,
        max_order,
        Table { vocab: with_events(t.vocab, events), ..t },
        events,
        events.len(),
        at,
    )
}

/// There are no contexts that begin before the sequence.
proof fn lemma_reached_all<M: WeightModel>(
    m: M,
    max_order: nat,
    t: Table<M::Weight>,
    events: Seq<EventId>,
    i: int,
    order: nat,
    at: Instant,
)
    requires
        i <= order <= max_order,
    ensures
        table_reached(m, max_order, t, events, i, max_order, at) == table_reached(
            m,
            max_order,
            t,
            events,
            i,
            order,
            at,
        ),
{
    lemma_reached_past(m, max_order, t, events, i, order, max_order, at);
}

proof fn lemma_reached_past<M: WeightModel>(
    m: M,
    max_order: nat,
    t: Table<M::Weight>,
    events: Seq<EventId>,
    i: int,
    low: nat,
    high: nat,
    at: Instant,
)
    requires
        i <= low <= high,
    ensures
        table_reached(m, max_order, t, events, i, high, at) == table_reached(
            m,
            max_order,
            t,
            events,
            i,
            low,
            at,
        ),
    decreases high - low,
{
    if low < high {
        lemma_reached_past(m, max_order, t, events, i, low, (high - 1) as nat, at);
    }
}

/// Without a transition nothing is recorded.
proof fn lemma_sequence_short<M: WeightModel>(
    m: M,
    max_order: nat,
    t: Table<M::Weight>,
    events: Seq<EventId>,
    at: Instant,
)
    ensures
        events.len() <= 1 ==> table_sequence(m, max_order, t, events, events.len(), at) == t,
{
}

impl MarkovPredictor<CountModel> {
    /// Contexts of one event, smoothed by one.
    pub fn new() -> (p: Self)
        ensures
            p.wf(),
            p.order() == 1,
            p.weighing() == (CountModel { num: 1, den: 1 }),
            p.table() == (Table::<u32> { rows: Seq::empty(), vocab: Seq::empty() }),
    {
        Self::with_order_and_smoothing(1, CountModel { num: 1, den: 1 })
    }

    /// Contexts of one event, smoothed by a given fraction.
    pub fn with_smoothing(alpha: CountModel) -> (p: Self)
        ensures
            p.wf(),
            p.order() == 1,
            p.weighing() == alpha,
            p.table() == (Table::<u32> { rows: Seq::empty(), vocab: Seq::empty() }),
    {
        Self::with_order_and_smoothing(1, alpha)
    }

    /// Contexts of up to `order` events, smoothed by one.
    pub fn with_max_order(order: usize) -> (p: Self)
        requires
            order >= 1,
        ensures
            p.wf(),
            p.order() == order,
            p.weighing() == (CountModel { num: 1, den: 1 }),
            p.table() == (Table::<u32> { rows: Seq::empty(), vocab: Seq::empty() }),
    {
        Self::with_order_and_smoothing(order, CountModel { num: 1, den: 1 })
    }

    /// Contexts of up to `max_order` events, smoothed by a given fraction.
    pub fn with_order_and_smoothing(max_order: usize, alpha: CountModel) -> (p: Self)
        requires
            max_order >= 1,
        ensures
            p.wf(),
            p.order() == max_order,
            p.weighing() == alpha,
            p.table() == (Table::<u32> { rows: Seq::empty(), vocab: Seq::empty() }),
    {
        Self::with_model(max_order, alpha)
    }
}

impl Default for MarkovPredictor<CountModel> {
    fn default() -> (p: Self)
        ensures
            p.wf(),
            p.order() == 1,
            p.weighing() == (CountModel { num: 1, den: 1 }),
            p.table() == (Table::<u32> { rows: Seq::empty(), vocab: Seq::empty() }),
    {
        Self::new()
    }
}

/// `after` is what is known after the transitions, each at some moment that the
/// clock shows.
pub open spec fn told_to<M: WeightModel>(
    clock: Clock,
    m: M,
    max_order: nat,
    t: Table<M::Weight>,
    told: Seq<(EventId, EventId)>,
    after: Table<M::Weight>,
) -> bool
    decreases told.len(),
{
    if told.len() == 0 {
        after == t
    } else {
        exists|next: Table<M::Weight>|
            #[trigger] recorded_sometime(clock, m, max_order, t, seq![told[0].0], told[0].1, next)
                && told_to(clock, m, max_order, next, told.drop_first(), after)
    }
}

/// Being told of a transition and then of more is being told of all of them.
proof fn lemma_told_one_more<M: WeightModel>(
    clock: Clock,
    m: M,
    max_order: nat,
    t: Table<M::Weight>,
    next: Table<M::Weight>,
    transition: (EventId, EventId),
    more: Seq<(EventId, EventId)>,
    after: Table<M::Weight>,
)
    requires
        recorded_sometime(clock, m, max_order, t, seq![transition.0], transition.1, next),
        told_to(clock, m, max_order, next, more, after),
    ensures
        told_to(clock, m, max_order, t, seq![transition] + more, after),
{
    let told = seq![transition] + more;
    assert(told[0] == transition);
    assert(told.drop_first() =~= more);
}

impl<M: WeightModel> NextTurnPredictor for MarkovPredictor<M> {
    type Weights = M;

    open spec fn ready(&self) -> bool {
        self.wf()
    }

    open spec fn may_predict_told(
        &self,
        told: Seq<(EventId, EventId)>,
        context: Seq<EventId>,
        k: nat,
        predictions: Seq<Prediction>,
    ) -> bool {
        exists|t: Table<M::Weight>|
            #[trigger] told_to(
                self.timer(),
                self.weighing(),
                self.order(),
                self.table(),
                told,
                t,
            )
                && predicted_sometime(
                self.timer(),
                self.weighing(),
                self.order(),
                t,
                context,
                k,
                predictions,
            )
    }

    fn predict(&self, context: &[EventId], k: usize) -> (r: Vec<Prediction>)
    {
        let r = self.predict_with_context(context, k);
        proof {
            let (m, order, t) = (self.weighing(), self.order(), self.table());
            assert(told_to(self.timer(), m, order, t, Seq::empty(), t));
            let at = choose|at: Instant|
                r@ == #[trigger] predicted(m, order, t, context@, k as nat, at);
            lemma_predicted(m, order, t, context@, k as nat, at);
        }
        r
    }

    fn observe(&mut self, prev: EventId, next: EventId)
        ensures
            final(self).order() == old(self).order(),
            final(self).weighing() == old(self).weighing(),
            final(self).timer() == old(self).timer(),
            recorded_sometime(
                old(self).timer(),
                old(self).weighing(),
                old(self).order(),
                old(self).table(),
                seq![prev],
                next,
                final(self).table(),
            ),
    {
        let at = self.clock.now();
        self.observe_at(prev, next, at);
        proof {
            let (clock, m, order) = (self.timer(), self.weighing(), self.order());
            let (before, after) = (old(self).table(), self.table());
            assert(recorded_sometime(clock, m, order, before, seq![prev], next, after));
            assert forall|
                more: Seq<(EventId, EventId)>,
                context: Seq<EventId>,
                k: nat,
                predictions: Seq<Prediction>,
            | #[trigger] self.may_predict_told(more, context, k, predictions) implies old(
                self,
            ).may_predict_told(seq![(prev, next)] + more, context, k, predictions) by {
                let t = choose|t: Table<M::Weight>|
                    #[trigger] told_to(clock, m, order, after, more, t) && predicted_sometime(
                        clock,
                        m,
                        order,
                        t,
                        context,
                        k,
                        predictions,
                    );
                lemma_told_one_more(clock, m, order, before, after, (prev, next), more, t);
            }
        }
    }

    fn as_markov(&self) -> (markov: Option<&MarkovPredictor<M>>)
        ensures
            markov == Some(self),
    {
        Some(self)
    }
}

/// Predictions come in descending order of probability, and there are as many
/// as asked for, or as there are events.
pub proof fn lemma_predicted<M: WeightModel>(
    m: M,
    max_order: nat,
    t: Table<M::Weight>,
    context: Seq<EventId>,
    k: nat,
    at: Instant,
)
    ensures
        descending(predicted(m, max_order, t, context, k, at)),
        predicted(m, max_order, t, context, k, at).len() == if t.vocab.len() <= k {
            t.vocab.len()
        } else {
            k
        },
{
    let out = predicted(m, max_order, t, context, k, at);
    let order = if context.len() <= max_order {
        context.len()
    } else {
        max_order
    };
    match backed_off(m, t, context, order, at) {
        Some(row) => {
            let all = ranked(shares(m, t, row, at));
            lemma_ranked(shares(m, t, row, at));
            assert forall|i: int| 0 <= i < out.len() - 1 implies !(
            #[trigger] out[i]).probability.below(out[i + 1].probability) by {
                assert(out[i] == all[i] && out[i + 1] == all[i + 1]);
            }
        },
        None => {},
    }
}

/// No event is predicted twice.
pub proof fn lemma_predictions_distinct<M: WeightModel>(
    m: M,
    max_order: nat,
    t: Table<M::Weight>,
    context: Seq<EventId>,
    k: nat,
    at: Instant,
    i: int,
    j: int,
)
    requires
        strictly_ascending(t.vocab),
        forall|i: int| 0 <= i < t.vocab.len() ==> #[trigger] t.vocab[i] <= u32::MAX,
        0 <= i < j < predicted(m, max_order, t, context, k, at).len(),
    ensures
        predicted(m, max_order, t, context, k, at)[i].event != predicted(
            m,
            max_order,
            t,
            context,
            k,
            at,
        )[j].event,
{
    let out = predicted(m, max_order, t, context, k, at);
    let order = if context.len() <= max_order {
        context.len()
    } else {
        max_order
    };
    match backed_off(m, t, context, order, at) {
        Some(row) => {
            let all = shares(m, t, row, at);
            let sorted = ranked(all);
            lemma_ranked(all);
            assert forall|a: int, b: int| 0 <= a < b < all.len() implies all[a].event
                != all[b].event by {
                assert(t.vocab[a] < t.vocab[b]);
            }
            assert(all.no_duplicates());
            all.lemma_multiset_has_no_duplicates();
            sorted.lemma_multiset_has_no_duplicates_conv();
            sorted.to_multiset_ensures();
            all.to_multiset_ensures();
            assert(out[i] == sorted[i] && out[j] == sorted[j]);
            assert(sorted.to_multiset().contains(sorted[i]));
            assert(sorted.to_multiset().contains(sorted[j]));
            let a = choose|a: int| 0 <= a < all.len() && all[a] == sorted[i];
            let b = choose|b: int| 0 <= b < all.len() && all[b] == sorted[j];
            assert(all.contains(sorted[i]) && all.contains(sorted[j]));
            assert(a != b);
        },
        None => {
            assert(t.vocab[i] < t.vocab[j]);
        },
    }
}

proof fn lemma_backed_off_timeless(
    m: CountModel,
    t: Table<u32>,
    context: Seq<EventId>,
    order: nat,
    a: Instant,
    b: Instant,
)
    ensures
        backed_off(m, t, context, order, a) == backed_off(m, t, context, order, b),
    decreases order,
{
    if order > 0 {
        lemma_backed_off_timeless(m, t, context, (order - 1) as nat, a, b);
    }
}

/// Plain counts do not age: what is learned and predicted does not depend on
/// the time.
pub proof fn lemma_counts_timeless(
    m: CountModel,
    max_order: nat,
    t: Table<u32>,
    context: Seq<EventId>,
    next: EventId,
    k: nat,
    a: Instant,
    b: Instant,
)
    ensures
        table_recorded(m, max_order, t, context, next, a) == table_recorded(
            m,
            max_order,
            t,
            context,
            next,
            b,
        ),
        predicted(m, max_order, t, context, k, a) == predicted(m, max_order, t, context, k, b),
{
    let order = if context.len() <= max_order {
        context.len()
    } else {
        max_order
    };
    lemma_backed_off_timeless(m, t, context, order, a, b);
    match backed_off(m, t, context, order, a) {
        Some(row) => {
            assert(shares(m, t, row, a) =~= shares(m, t, row, b));
        },
        None => {},
    }
}

/// A transition raises its own weight and its context's total, and leaves the
/// weights of all other events of the context alone.
pub proof fn lemma_observation_counts<M: WeightModel>(
    m: M,
    row: Transitions<M::Weight>,
    next: EventId,
    other: EventId,
    at: Instant,
)
    requires
        distinct_nexts(row.nexts),
    ensures
        weight_of(row_observed(m, row, next, at).nexts, next) == Some(
            m.observed_at(
                match weight_of(row.nexts, next) {
                    Some(w) => w,
                    None => m.zero_at(at),
                },
                at,
            ),
        ),
        other != next ==> weight_of(row_observed(m, row, next, at).nexts, other) == weight_of(
            row.nexts,
            other,
        ),
        row_observed(m, row, next, at).total == m.observed_at(row.total, at),
{
    let before = match weight_of(row.nexts, next) {
        Some(w) => w,
        None => m.zero_at(at),
    };
    lemma_with_weight(row.nexts, next, m.observed_at(before, at), other);
}

/// The row of a context is the one that is kept for it, and there is none where none
/// is kept.
pub proof fn lemma_row_of<W>(rows: Seq<Transitions<W>>, context: Seq<EventId>, p: int)
    ensures
        0 <= p < rows.len() && rows[p].context == context && (forall|q: int|
            0 <= q < p ==> (#[trigger] rows[q]).context != context) ==> row_of(rows, context)
            == Some(rows[p]),
        (forall|q: int| 0 <= q < rows.len() ==> (#[trigger] rows[q]).context != context)
            ==> row_of(rows, context) is None,
        row_of(rows, context) matches Some(row) ==> row.context == context && rows.contains(row),
{
    lemma_row_place(rows, context);
    let q = row_place(rows, context);
    if 0 <= p < rows.len() && rows[p].context == context && q < p {
        assert(rows[q].context == context);
    }
}

/// The weight of an event is the one that is kept for it, and there is none where none
/// is kept.
pub proof fn lemma_weight_of<W>(nexts: Seq<(EventId, W)>, event: EventId, p: int)
    ensures
        0 <= p < nexts.len() && nexts[p].0 == event && (forall|q: int|
            0 <= q < p ==> (#[trigger] nexts[q]).0 != event) ==> weight_of(nexts, event) == Some(
            nexts[p].1,
        ),
        (forall|q: int| 0 <= q < nexts.len() ==> (#[trigger] nexts[q]).0 != event)
            ==> weight_of(nexts, event) is None,
        weight_of(nexts, event) matches Some(w) ==> nexts.contains((event, w)),
{
    lemma_next_place(nexts, event);
    let q = next_place(nexts, event);
    if 0 <= p < nexts.len() && nexts[p].0 == event && q < p {
        assert(nexts[q].0 == event);
    }
    if q < nexts.len() {
        assert(nexts[q] == (event, nexts[q].1));
    }
}

proof fn lemma_backed_off_down<M: WeightModel>(
    m: M,
    t: Table<M::Weight>,
    context: Seq<EventId>,
    order: nat,
    n: nat,
    at: Instant,
)
    requires
        n <= order <= context.len(),
        forall|longer: int, q: int|
            #![trigger context.skip(longer), t.rows[q]]
            context.len() - order <= longer < context.len() - n && 0 <= q < t.rows.len()
                && t.rows[q].context == context.skip(longer) ==> !m.suffices_at(
                t.rows[q].total,
                at,
            ),
    ensures
        backed_off(m, t, context, order, at) == backed_off(m, t, context, n, at),
    decreases order,
{
    if n < order {
        let key = last_of(context, order);
        assert(key =~= context.skip(context.len() - order));
        lemma_row_place(t.rows, key);
        let q = row_place(t.rows, key);
        if q < t.rows.len() {
            assert(t.rows[q].context == context.skip(context.len() - order));
        }
        lemma_backed_off_down(m, t, context, (order - 1) as nat, n, at);
    }
}

/// A prediction goes by the longest end of the context that was seen often enough: if
/// that is so of the last `n` events, whose row stands at place `p`, and of no longer end
/// that is kept, the predictions are the most likely events by that very row.
pub proof fn lemma_longest_context_decides<M: WeightModel>(
    m: M,
    max_order: nat,
    t: Table<M::Weight>,
    context: Seq<EventId>,
    k: nat,
    at: Instant,
    n: nat,
    p: int,
)
    requires
        0 < n <= context.len(),
        n <= max_order,
        0 <= p < t.rows.len(),
        t.rows[p].context == context.skip(context.len() - n),
        forall|q: int| 0 <= q < p ==> (#[trigger] t.rows[q]).context != t.rows[p].context,
        m.suffices_at(t.rows[p].total, at),
        forall|longer: int, q: int|
            #![trigger context.skip(longer), t.rows[q]]
            0 <= longer < context.len() - n && context.len() - longer <= max_order && 0 <= q
                < t.rows.len() && t.rows[q].context == context.skip(longer) ==> !m.suffices_at(
                t.rows[q].total,
                at,
            ),
    ensures
        ({
            let all = ranked(shares(m, t, t.rows[p], at));
            predicted(m, max_order, t, context, k, at) == if all.len() <= k {
                all
            } else {
                all.take(k as int)
            }
        }),
{
    let order = if context.len() <= max_order {
        context.len()
    } else {
        max_order
    };
    lemma_backed_off_down(m, t, context, order, n, at);
    let key = last_of(context, n);
    assert(key =~= context.skip(context.len() - n));
    lemma_row_of(t.rows, key, p);
}

/// Where no end of the context was seen often enough, the events that were seen are
/// predicted in the order of their numbers, all equally likely.
pub proof fn lemma_no_context_decides<M: WeightModel>(
    m: M,
    max_order: nat,
    t: Table<M::Weight>,
    context: Seq<EventId>,
    k: nat,
    at: Instant,
)
    requires
        forall|start: int, q: int|
            #![trigger context.skip(start), t.rows[q]]
            0 <= start < context.len() && context.len() - start <= max_order && 0 <= q
                < t.rows.len() && t.rows[q].context == context.skip(start) ==> !m.suffices_at(
                t.rows[q].total,
                at,
            ),
    ensures
        ({
            let out = predicted(m, max_order, t, context, k, at);
            &&& out.len() == if t.vocab.len() <= k {
                t.vocab.len()
            } else {
                k
            }
            &&& forall|i: int|
                0 <= i < out.len() ==> (#[trigger] out[i]).event == EventId(t.vocab[i] as u32)
                    && out[i].probability == (Fraction { num: 1, den: t.vocab.len() as u64 })
        }),
{
    let order = if context.len() <= max_order {
        context.len()
    } else {
        max_order
    };
    lemma_backed_off_down(m, t, context, order, 0, at);
}

/// What plain counts are: an observation counts one more, up to [`MAX_COUNT`] at least,
/// a context that was seen twice is worth a prediction, and a probability is the
/// smoothed count over the smoothed total.
pub proof fn lemma_plain_counts(
    m: CountModel,
    w: u32,
    count: Option<u32>,
    total: u32,
    vocab: usize,
    at: Instant,
)
    requires
        0 < vocab <= 0x1_0000_0000,
    ensures
        m.zero_at(at) == 0,
        w < 16_777_216 ==> m.observed_at(w, at) == w + 1,
        m.suffices_at(w, at) <==> w >= 2,
        m.share_at(count, total, vocab, at).num == (match count {
            Some(seen) => seen as int,
            None => 0,
        }) * m.den + m.num,
        m.share_at(count, total, vocab, at).den == total * m.den + vocab * m.num,
{
    lemma_count_near(w + 1);
    let seen = (match count {
        Some(seen) => seen,
        None => 0,
    }) as int;
    let n = vocab as int;
    assert(0 <= seen * m.den + m.num <= u64::MAX && 0 <= total * m.den + n * m.num <= u64::MAX)
        by (nonlinear_arith)
        requires
            0 <= seen <= 0xffff_ffff,
            0 <= total <= 0xffff_ffff,
            0 < n <= 0x1_0000_0000,
            0 <= m.den <= 0xffff,
            0 <= m.num <= 0xffff,
    ;
}

/// Every event that was seen has its share, at its place.
pub proof fn lemma_shares<M: WeightModel>(
    m: M,
    t: Table<M::Weight>,
    row: Transitions<M::Weight>,
    at: Instant,
)
    ensures
        shares(m, t, row, at).len() == t.vocab.len(),
        forall|i: int|
            0 <= i < t.vocab.len() ==> (#[trigger] shares(m, t, row, at)[i]).event == EventId(
                t.vocab[i] as u32,
            ) && shares(m, t, row, at)[i].probability == m.share_at(
                weight_of(row.nexts, EventId(t.vocab[i] as u32)),
                row.total,
                t.vocab.len() as usize,
                at,
            ),
{
}

/// A count is kept as the nearest number of 24 significant binary digits, or as the largest
/// that there is room for. Two counts taken together are kept like their sum, and one more
/// observation like a count that is greater by one.
pub proof fn lemma_kept_counts(m: CountModel, a: u32, b: u32, at: Instant)
    ensures
        a + b <= 16_777_216 ==> m.both(a, b) == a + b,
        nearest_single(a + b) <= u32::MAX ==> m.both(a, b) == nearest_single(a + b),
        nearest_single(a + b) > u32::MAX ==> m.both(a, b) == u32::MAX,
        nearest_single(a + 1) <= u32::MAX ==> m.observed_at(a, at) == nearest_single(a + 1),
        nearest_single(a + 1) > u32::MAX ==> m.observed_at(a, at) == u32::MAX,
{
    if a + b <= 16_777_216 {
        crate::single::lemma_small_is_exact(a + b);
    } else {
        crate::single::lemma_large_stays_large(a + b);
    }
    if a + 1 <= 16_777_216 {
        crate::single::lemma_small_is_exact(a + 1);
    } else {
        crate::single::lemma_large_stays_large(a + 1);
    }
}

} // verus!
