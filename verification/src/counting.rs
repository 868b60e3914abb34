//! What holds of counting predictors: what they learn stays consistent, does
//! not depend on the time, and gives probabilities that add up to one.

use vstd::prelude::*;
use vstd::set_lib::{lemma_int_range, set_int_range};

use crate::clock::{Clock, Instant};
use crate::markov::{
    distinct_nexts, lemma_count_near, lemma_counts_timeless, lemma_next_place, lemma_plain_counts,
    lemma_reload, lemma_row_of, lemma_row_place, lemma_shares, lemma_vocab_bound, lemma_weight_of,
    lemma_with_weight, listed_rows, loaded, next_place, predicted, predicted_sometime,
    recorded_sometime, row_observed, row_of, row_place, shares, summed, table_after, table_reached,
    table_recorded, table_sequence, tidy, told_to, weight_of, with_events, with_row, with_totals,
    with_weight, CountModel, MarkovPredictor, Table, Transitions, WeightModel, MAX_COUNT,
};
use crate::predictor::{lemma_ranking, ranked, NextTurnPredictor, Prediction};
use crate::sorting::{lemma_with_element, strictly_ascending, with_element};
use crate::state::EventId;
use crate::trainer::trained;

verus! {

/// How many transitions are counted, without a limit.
pub open spec fn counted(nexts: Seq<(EventId, u32)>) -> nat
    decreases nexts.len(),
{
    if nexts.len() == 0 {
        0
    } else {
        counted(nexts.drop_last()) + nexts.last().1 as nat
    }
}

/// The total of a row is what its transitions count together, as long as it is
/// told apart from the next larger, and the row leads nowhere but to events that
/// were seen, to each at most once.
pub open spec fn row_consistent(vocab: Seq<usize>, row: Transitions<u32>) -> bool {
    &&& distinct_nexts(row.nexts)
    &&& row.total < MAX_COUNT ==> row.total == counted(row.nexts)
    &&& forall|j: int|
        0 <= j < row.nexts.len() ==> vocab.contains((#[trigger] row.nexts[j]).0.0 as usize)
}

/// The events that were seen are listed in order, and every row is consistent.
pub open spec fn consistent(t: Table<u32>) -> bool {
    &&& strictly_ascending(t.vocab)
    &&& forall|i: int| 0 <= i < t.vocab.len() ==> #[trigger] t.vocab[i] <= u32::MAX
    &&& forall|i: int|
        0 <= i < t.rows.len() ==> row_consistent(t.vocab, #[trigger] t.rows[i])
}

/// No transition counts more than all of them together.
proof fn lemma_part_of_count(nexts: Seq<(EventId, u32)>, p: int)
    requires
        0 <= p < nexts.len(),
    ensures
        nexts[p].1 <= counted(nexts),
    decreases nexts.len(),
{
    if p < nexts.len() - 1 {
        lemma_part_of_count(nexts.drop_last(), p);
    }
}

/// Changing what one transition counts changes what all of them count together
/// by as much.
proof fn lemma_count_changed(nexts: Seq<(EventId, u32)>, p: int, event: EventId, w: u32)
    requires
        0 <= p < nexts.len(),
    ensures
        counted(nexts.update(p, (event, w))) == counted(nexts) - nexts[p].1 + w,
    decreases nexts.len(),
{
    let changed = nexts.update(p, (event, w));
    let init = nexts.drop_last();
    if p == nexts.len() - 1 {
        assert(changed.drop_last() =~= init);
    } else {
        lemma_count_changed(init, p, event, w);
        assert(changed.drop_last() =~= init.update(p, (event, w)));
    }
}

/// Plain counts add up: the total of a context stays what the transitions out
/// of it count together, as long as it is told apart from the next larger.
pub proof fn lemma_counts_add_up(
    m: CountModel,
    row: Transitions<u32>,
    next: EventId,
    at: Instant,
)
    requires
        row.total == counted(row.nexts),
        row.total < MAX_COUNT,
    ensures
        row_observed(m, row, next, at).total == counted(row_observed(m, row, next, at).nexts),
{
    let p = next_place(row.nexts, next);
    lemma_next_place(row.nexts, next);
    lemma_count_near(row.total + 1);
    if p < row.nexts.len() {
        let before = row.nexts[p].1;
        lemma_part_of_count(row.nexts, p);
        lemma_count_near(before + 1);
        lemma_count_changed(row.nexts, p, next, (before + 1) as u32);
    } else {
        lemma_count_near(1);
        assert(row.nexts.push((next, 1u32)).drop_last() =~= row.nexts);
    }
}

/// Counts that are read back add up to what was counted, as long as that is told
/// apart from the next larger.
proof fn lemma_summed(m: CountModel, nexts: Seq<(EventId, u32)>, at: Instant)
    requires
        counted(nexts) <= MAX_COUNT,
    ensures
        summed(m, nexts, at) == counted(nexts),
    decreases nexts.len(),
{
    if nexts.len() > 0 {
        lemma_summed(m, nexts.drop_last(), at);
        lemma_count_near(counted(nexts) as int);
    }
}

/// What a counting predictor knows is the same once it was saved and read back.
pub proof fn lemma_reload_counts(
    m: CountModel,
    max_order: nat,
    t: Table<u32>,
    at: Instant,
)
    requires
        consistent(t),
        tidy(t.rows, max_order),
        forall|i: int| 0 <= i < t.rows.len() ==> (#[trigger] t.rows[i]).total < MAX_COUNT,
    ensures
        loaded(m, max_order, listed_rows(t.rows), at) == t.rows,
{
    lemma_reload(m, max_order, t.rows, at);
    let read = with_totals(m, t.rows, at);
    assert forall|i: int| 0 <= i < t.rows.len() implies #[trigger] read[i] == t.rows[i] by {
        assert(row_consistent(t.vocab, t.rows[i]));
        lemma_summed(m, t.rows[i].nexts, at);
    }
    assert(read =~= t.rows);
}

proof fn lemma_with_events(vocab: Seq<usize>, events: Seq<EventId>)
    requires
        strictly_ascending(vocab),
        forall|i: int| 0 <= i < vocab.len() ==> #[trigger] vocab[i] <= u32::MAX,
    ensures
        strictly_ascending(with_events(vocab, events)),
        forall|i: int|
            0 <= i < with_events(vocab, events).len() ==> #[trigger] with_events(vocab, events)[i]
                <= u32::MAX,
        forall|y: usize| vocab.contains(y) ==> with_events(vocab, events).contains(y),
    decreases events.len(),
{
    if events.len() > 0 {
        lemma_with_events(vocab, events.drop_last());
        let before = with_events(vocab, events.drop_last());
        lemma_noted(before, events.last());
    }
}

proof fn lemma_noted(vocab: Seq<usize>, event: EventId)
    requires
        strictly_ascending(vocab),
        forall|i: int| 0 <= i < vocab.len() ==> #[trigger] vocab[i] <= u32::MAX,
    ensures
        strictly_ascending(with_element(vocab, event.0 as usize)),
        forall|i: int|
            0 <= i < with_element(vocab, event.0 as usize).len() ==> #[trigger] with_element(
                vocab,
                event.0 as usize,
            )[i] <= u32::MAX,
        forall|y: usize| #[trigger]
            with_element(vocab, event.0 as usize).contains(y) <==> vocab.contains(y) || y
                == event.0 as usize,
{
    lemma_with_element(vocab, event.0 as usize);
    let after = with_element(vocab, event.0 as usize);
    assert forall|i: int| 0 <= i < after.len() implies #[trigger] after[i] <= u32::MAX by {
        assert(after.contains(after[i]));
        if vocab.contains(after[i]) {
            let j = choose|j: int| 0 <= j < vocab.len() && vocab[j] == after[i];
            assert(vocab[j] <= u32::MAX);
        }
    }
}

/// Recording a transition keeps what is known consistent.
pub proof fn lemma_recorded_consistent(
    m: CountModel,
    max_order: nat,
    t: Table<u32>,
    context: Seq<EventId>,
    next: EventId,
    at: Instant,
)
    requires
        consistent(t),
    ensures
        consistent(table_recorded(m, max_order, t, context, next, at)),
        table_recorded(m, max_order, t, context, next, at).vocab.contains(next.0 as usize),
{
    let after = table_recorded(m, max_order, t, context, next, at);
    lemma_with_events(t.vocab, context);
    lemma_noted(with_events(t.vocab, context), next);
    assert forall|i: int| 0 <= i < t.rows.len() implies row_consistent(
        after.vocab,
        #[trigger] t.rows[i],
    ) by {
        assert(row_consistent(t.vocab, t.rows[i]));
    }
    if 0 < context.len() <= max_order {
        let row = match row_of(t.rows, context) {
            Some(row) => row,
            None => Transitions { context, nexts: Seq::empty(), total: m.zero_at(at) },
        };
        let p = row_place(t.rows, context);
        lemma_row_place(t.rows, context);
        assert(row_consistent(after.vocab, row)) by {
            if p < t.rows.len() {
                assert(row == t.rows[p]);
            }
        }
        let seen = row_observed(m, row, next, at);
        lemma_row_raised(m, after.vocab, row, next, at);
        assert forall|i: int| 0 <= i < after.rows.len() implies row_consistent(
            after.vocab,
            #[trigger] after.rows[i],
        ) by {
            assert(after.rows == with_row(t.rows, seen));
            if i < t.rows.len() && i != p {
                assert(after.rows[i] == t.rows[i]);
            } else {
                assert(after.rows[i] == seen);
            }
        }
    }
}

proof fn lemma_row_raised(
    m: CountModel,
    vocab: Seq<usize>,
    row: Transitions<u32>,
    next: EventId,
    at: Instant,
)
    requires
        row_consistent(vocab, row),
        vocab.contains(next.0 as usize),
    ensures
        row_consistent(vocab, row_observed(m, row, next, at)),
{
    let seen = row_observed(m, row, next, at);
    let before = match weight_of(row.nexts, next) {
        Some(w) => w,
        None => m.zero_at(at),
    };
    let w = m.observed_at(before, at);
    lemma_count_near(row.total + 1);
    if row.total < MAX_COUNT {
        lemma_counts_add_up(m, row, next, at);
    }
    lemma_with_weight(row.nexts, next, w, next);
    lemma_next_place(row.nexts, next);
    assert(seen.nexts == with_weight(row.nexts, next, w));
    assert forall|j: int| 0 <= j < seen.nexts.len() implies vocab.contains(
        (#[trigger] seen.nexts[j]).0.0 as usize,
    ) by {
        if j < row.nexts.len() && seen.nexts[j].0 != next {
            assert(seen.nexts[j] == row.nexts[j]);
        }
    }
}

proof fn lemma_reached_consistent(
    m: CountModel,
    max_order: nat,
    t: Table<u32>,
    events: Seq<EventId>,
    i: int,
    order: nat,
    at: Instant,
)
    requires
        consistent(t),
    ensures
        consistent(table_reached(m, max_order, t, events, i, order, at)),
    decreases order,
{
    if order > 0 {
        lemma_reached_consistent(m, max_order, t, events, i, (order - 1) as nat, at);
        if i >= order {
            lemma_recorded_consistent(
                m,
                max_order,
                table_reached(m, max_order, t, events, i, (order - 1) as nat, at),
                events.subrange(i - order, i),
                events[i],
                at,
            );
        }
    }
}

proof fn lemma_steps_consistent(
    m: CountModel,
    max_order: nat,
    t: Table<u32>,
    events: Seq<EventId>,
    n: nat,
    at: Instant,
)
    requires
        consistent(t),
    ensures
        consistent(table_sequence(m, max_order, t, events, n, at)),
    decreases n,
{
    if n > 1 {
        lemma_steps_consistent(m, max_order, t, events, (n - 1) as nat, at);
        lemma_reached_consistent(
            m,
            max_order,
            table_sequence(m, max_order, t, events, (n - 1) as nat, at),
            events,
            n - 1,
            max_order,
            at,
        );
    }
}

/// Recording a sequence of events keeps what is known consistent.
pub proof fn lemma_sequence_consistent(
    m: CountModel,
    max_order: nat,
    t: Table<u32>,
    events: Seq<EventId>,
    at: Instant,
)
    requires
        consistent(t),
    ensures
        consistent(table_after(m, max_order, t, events, at)),
{
    lemma_with_events(t.vocab, events);
    let noted = Table { vocab: with_events(t.vocab, events), ..t };
    assert forall|i: int| 0 <= i < noted.rows.len() implies row_consistent(
        noted.vocab,
        #[trigger] noted.rows[i],
    ) by {
        assert(row_consistent(t.vocab, t.rows[i]));
    }
    lemma_steps_consistent(m, max_order, noted, events, events.len(), at);
}

/// What is known after training is consistent.
pub proof fn lemma_trained_consistent(
    m: CountModel,
    max_order: nat,
    sequences: Seq<Seq<EventId>>,
    moments: Seq<Instant>,
)
    ensures
        consistent(trained(m, max_order, sequences, moments)),
    decreases sequences.len(),
{
    if sequences.len() > 0 {
        lemma_trained_consistent(m, max_order, sequences.drop_last(), moments);
        lemma_sequence_consistent(
            m,
            max_order,
            trained(m, max_order, sequences.drop_last(), moments),
            sequences.last(),
            moments[sequences.len() - 1],
        );
    }
}

proof fn lemma_reached_timeless(
    m: CountModel,
    max_order: nat,
    t: Table<u32>,
    events: Seq<EventId>,
    i: int,
    order: nat,
    a: Instant,
    b: Instant,
)
    ensures
        table_reached(m, max_order, t, events, i, order, a) == table_reached(
            m,
            max_order,
            t,
            events,
            i,
            order,
            b,
        ),
    decreases order,
{
    if order > 0 {
        let k = (order - 1) as nat;
        lemma_reached_timeless(m, max_order, t, events, i, k, a, b);
        if i >= order {
            lemma_counts_timeless(
                m,
                max_order,
                table_reached(m, max_order, t, events, i, k, a),
                events.subrange(i - order, i),
                events[i],
                0,
                a,
                b,
            );
        }
    }
}

proof fn lemma_steps_timeless(
    m: CountModel,
    max_order: nat,
    t: Table<u32>,
    events: Seq<EventId>,
    n: nat,
    a: Instant,
    b: Instant,
)
    ensures
        table_sequence(m, max_order, t, events, n, a) == table_sequence(
            m,
            max_order,
            t,
            events,
            n,
            b,
        ),
    decreases n,
{
    if n > 1 {
        let k = (n - 1) as nat;
        lemma_steps_timeless(m, max_order, t, events, k, a, b);
        let before = table_sequence(m, max_order, t, events, k, a);
        lemma_reached_timeless(m, max_order, before, events, n - 1, max_order, a, b);
    }
}

/// What a sequence of events teaches does not depend on the time.
pub proof fn lemma_sequence_timeless(
    m: CountModel,
    max_order: nat,
    t: Table<u32>,
    events: Seq<EventId>,
    a: Instant,
    b: Instant,
)
    ensures
        table_after(m, max_order, t, events, a) == table_after(m, max_order, t, events, b),
{
    let noted = Table { vocab: with_events(t.vocab, events), ..t };
    lemma_steps_timeless(m, max_order, noted, events, events.len(), a, b);
}

/// What training teaches does not depend on the time.
pub proof fn lemma_training_timeless(
    m: CountModel,
    max_order: nat,
    sequences: Seq<Seq<EventId>>,
    a: Seq<Instant>,
    b: Seq<Instant>,
)
    ensures
        trained(m, max_order, sequences, a) == trained(m, max_order, sequences, b),
    decreases sequences.len(),
{
    if sequences.len() > 0 {
        lemma_training_timeless(m, max_order, sequences.drop_last(), a, b);
        lemma_sequence_timeless(
            m,
            max_order,
            trained(m, max_order, sequences.drop_last(), a),
            sequences.last(),
            a[sequences.len() - 1],
            b[sequences.len() - 1],
        );
    }
}

/// How often an event is counted.
spec fn seen(nexts: Seq<(EventId, u32)>, event: usize) -> nat {
    match weight_of(nexts, EventId(event as u32)) {
        Some(w) => w as nat,
        None => 0,
    }
}

/// How often the events are counted together.
spec fn all_seen(nexts: Seq<(EventId, u32)>, events: Seq<usize>) -> nat
    decreases events.len(),
{
    if events.len() == 0 {
        0
    } else {
        all_seen(nexts, events.drop_last()) + seen(nexts, events.last())
    }
}

proof fn lemma_none_seen(events: Seq<usize>)
    ensures
        all_seen(Seq::empty(), events) == 0,
    decreases events.len(),
{
    if events.len() > 0 {
        lemma_none_seen(events.drop_last());
    }
}

/// One more event that is counted.
proof fn lemma_one_more_seen(nexts: Seq<(EventId, u32)>, events: Seq<usize>)
    requires
        nexts.len() > 0,
        distinct_nexts(nexts),
        strictly_ascending(events),
        forall|i: int| 0 <= i < events.len() ==> #[trigger] events[i] <= u32::MAX,
    ensures
        all_seen(nexts, events) == all_seen(nexts.drop_last(), events) + if events.contains(
            nexts.last().0.0 as usize,
        ) {
            nexts.last().1 as nat
        } else {
            0
        },
    decreases events.len(),
{
    let (event, w) = nexts.last();
    let init = nexts.drop_last();
    if events.len() > 0 {
        let rest = events.drop_last();
        let e = events.last();
        assert forall|i: int| 0 <= i < rest.len() implies #[trigger] rest[i] <= u32::MAX by {
            assert(rest[i] == events[i]);
        }
        lemma_one_more_seen(nexts, rest);
        assert(distinct_nexts(init));
        assert(nexts =~= init.push((event, w)));
        let other = EventId(e as u32);
        lemma_with_last(init, event, w, other);
        if e == event.0 as usize {
            assert(events.contains(event.0 as usize)) by {
                assert(events[events.len() - 1] == e);
            }
            assert(!rest.contains(e)) by {
                if rest.contains(e) {
                    let j = choose|j: int| 0 <= j < rest.len() && rest[j] == e;
                    assert(events[j] < events[events.len() - 1]);
                }
            }
        } else {
            assert(events.contains(event.0 as usize) == rest.contains(event.0 as usize)) by {
                if events.contains(event.0 as usize) {
                    let j = choose|j: int| 0 <= j < events.len() && events[j] == event.0 as usize;
                    assert(rest[j] == event.0 as usize);
                }
                if rest.contains(event.0 as usize) {
                    let j = choose|j: int| 0 <= j < rest.len() && rest[j] == event.0 as usize;
                    assert(events[j] == event.0 as usize);
                }
            }
            assert(other != event);
        }
    }
}

/// The weights once another event was weighed.
proof fn lemma_with_last(nexts: Seq<(EventId, u32)>, event: EventId, w: u32, other: EventId)
    requires
        distinct_nexts(nexts.push((event, w))),
    ensures
        weight_of(nexts.push((event, w)), other) == if other == event {
            Some(w)
        } else {
            weight_of(nexts, other)
        },
        weight_of(nexts, event) is None,
{
    let all = nexts.push((event, w));
    assert(distinct_nexts(nexts)) by {
        assert forall|i: int, j: int| 0 <= i < j < nexts.len() implies (#[trigger] nexts[i]).0 != (
        #[trigger] nexts[j]).0 by {
            assert(all[i].0 != all[j].0);
        }
    }
    lemma_next_place(nexts, event);
    assert(next_place(nexts, event) == nexts.len()) by {
        let p = next_place(nexts, event);
        if p < nexts.len() {
            assert(all[p].0 != all[nexts.len() as int].0);
        }
    }
    lemma_with_weight(nexts, event, w, other);
    assert(with_weight(nexts, event, w) =~= all);
}

/// The events that were seen count together what the transitions count.
proof fn lemma_all_seen(nexts: Seq<(EventId, u32)>, events: Seq<usize>)
    requires
        distinct_nexts(nexts),
        strictly_ascending(events),
        forall|i: int| 0 <= i < events.len() ==> #[trigger] events[i] <= u32::MAX,
        forall|j: int|
            0 <= j < nexts.len() ==> events.contains((#[trigger] nexts[j]).0.0 as usize),
    ensures
        all_seen(nexts, events) == counted(nexts),
    decreases nexts.len(),
{
    if nexts.len() == 0 {
        assert(nexts =~= Seq::empty());
        lemma_none_seen(events);
    } else {
        let init = nexts.drop_last();
        assert forall|j: int| 0 <= j < init.len() implies events.contains(
            (#[trigger] init[j]).0.0 as usize,
        ) by {
            assert(init[j] == nexts[j]);
        }
        lemma_all_seen(init, events);
        lemma_one_more_seen(nexts, events);
        assert(events.contains(nexts[nexts.len() - 1].0.0 as usize));
    }
}

/// The numerators of the probabilities added up.
pub open spec fn mass(predictions: Seq<Prediction>) -> nat
    decreases predictions.len(),
{
    if predictions.len() == 0 {
        0
    } else {
        mass(predictions.drop_last()) + predictions.last().probability.num as nat
    }
}

/// The denominator of the probabilities after a context.
pub open spec fn whole(m: CountModel, t: Table<u32>, row: Transitions<u32>) -> nat {
    (row.total * m.den + t.vocab.len() * m.num) as nat
}

proof fn lemma_mass(
    m: CountModel,
    t: Table<u32>,
    row: Transitions<u32>,
    at: Instant,
    n: nat,
)
    requires
        n <= t.vocab.len(),
    ensures
        mass(shares(m, t, row, at).take(n as int)) == all_seen(row.nexts, t.vocab.take(n as int))
            * m.den + n * m.num,
    decreases n,
{
    let all = shares(m, t, row, at);
    if n > 0 {
        let k = (n - 1) as nat;
        lemma_mass(m, t, row, at, k);
        assert(all.take(n as int).drop_last() =~= all.take(k as int));
        assert(t.vocab.take(n as int).drop_last() =~= t.vocab.take(k as int));
        let w = seen(row.nexts, t.vocab[k as int]);
        let before = all_seen(row.nexts, t.vocab.take(k as int));
        assert(w * m.den + m.num <= u64::MAX) by (nonlinear_arith)
            requires
                0 <= w <= 0xffff_ffff,
                0 <= m.den <= 0xffff,
                0 <= m.num <= 0xffff,
        ;
        assert(all.take(n as int).last() == all[k as int]);
        assert(t.vocab.take(n as int).last() == t.vocab[k as int]);
        assert(all[k as int].probability.num == w * m.den + m.num);
        assert(all_seen(row.nexts, t.vocab.take(n as int)) == before + w);
        assert((before + w) * m.den + n * m.num == before * m.den + k * m.num + (w * m.den
            + m.num)) by (nonlinear_arith)
            requires
                n == k + 1,
        ;
    } else {
        assert(all.take(0) =~= Seq::empty());
        assert(t.vocab.take(0) =~= Seq::empty());
        assert(0 * m.den == 0 && 0 * m.num == 0);
    }
}

/// The probabilities after a context add up to one: they have one denominator,
/// which is the sum of their numerators. This is so as long as the count of
/// the context is told apart from the next larger.
pub proof fn lemma_probabilities_add_up(
    m: CountModel,
    t: Table<u32>,
    i: int,
    at: Instant,
)
    requires
        consistent(t),
        0 <= i < t.rows.len(),
        t.rows[i].total < MAX_COUNT,
        0 < t.vocab.len() <= usize::MAX,
    ensures
        mass(shares(m, t, t.rows[i], at)) == whole(m, t, t.rows[i]),
        forall|j: int|
            0 <= j < t.vocab.len() ==> (#[trigger] shares(m, t, t.rows[i], at)[j]).probability.den
                == whole(m, t, t.rows[i]),
{
    let row = t.rows[i];
    let n = t.vocab.len();
    assert(row_consistent(t.vocab, row));
    lemma_all_seen(row.nexts, t.vocab);
    lemma_mass(m, t, row, at, n);
    assert(shares(m, t, row, at).take(n as int) =~= shares(m, t, row, at));
    assert(t.vocab.take(n as int) =~= t.vocab);
    lemma_vocab_bound(t.vocab);
    assert(0 <= row.total * m.den + n * m.num <= u64::MAX) by (nonlinear_arith)
        requires
            0 <= row.total <= 0xffff_ffff,
            0 <= m.den <= 0xffff,
            0 <= m.num <= 0xffff,
            0 <= n <= 0x1_0000_0000,
    ;
}

/// An event that was seen more often after a context is likelier there, and
/// with smoothing no event is impossible.
pub proof fn lemma_more_seen_is_likelier(
    m: CountModel,
    few: u32,
    many: u32,
    total: u32,
    vocab: usize,
    at: Instant,
)
    requires
        few < many,
        m.den > 0,
        total > 0,
        vocab <= 0x1_0000_0000,
    ensures
        m.share_at(Some(few), total, vocab, at).below(m.share_at(Some(many), total, vocab, at)),
        m.share_at(None, total, vocab, at) == m.share_at(Some(0u32), total, vocab, at),
        m.num > 0 ==> m.share_at(None, total, vocab, at).num > 0,
{
    let n = if vocab == 0 {
        1int
    } else {
        vocab as int
    };
    let a = few * m.den + m.num;
    let b = many * m.den + m.num;
    let d = total * m.den + n * m.num;
    assert(0 <= a < b <= u64::MAX && 0 < d <= u64::MAX) by (nonlinear_arith)
        requires
            a == few * m.den + m.num,
            b == many * m.den + m.num,
            d == total * m.den + n * m.num,
            0 <= few < many <= 0xffff_ffff,
            0 < total <= 0xffff_ffff,
            0 < m.den <= 0xffff,
            0 <= m.num <= 0xffff,
            0 < n <= 0x1_0000_0000,
    ;
    assert(a * d < b * d) by (nonlinear_arith)
        requires
            a < b,
            d > 0,
    ;
}

/// What is known after the transitions, one after the other.
pub open spec fn table_told(
    m: CountModel,
    max_order: nat,
    t: Table<u32>,
    told: Seq<(EventId, EventId)>,
) -> Table<u32>
    decreases told.len(),
{
    if told.len() == 0 {
        t
    } else {
        table_told(
            m,
            max_order,
            table_recorded(
                m,
                max_order,
                t,
                seq![told[0].0],
                told[0].1,
                Instant { nanos: 0 },
            ),
            told.drop_first(),
        )
    }
}

/// What counts are after some transitions does not depend on when they were
/// made.
proof fn lemma_table_told(
    clock: Clock,
    m: CountModel,
    max_order: nat,
    t: Table<u32>,
    told: Seq<(EventId, EventId)>,
    after: Table<u32>,
)
    requires
        told_to(clock, m, max_order, t, told, after),
    ensures
        after == table_told(m, max_order, t, told),
    decreases told.len(),
{
    if told.len() > 0 {
        let (context, next) = (seq![told[0].0], told[0].1);
        let now = choose|now: Table<u32>|
            #[trigger] recorded_sometime(clock, m, max_order, t, context, next, now) && told_to(
                clock,
                m,
                max_order,
                now,
                told.drop_first(),
                after,
            );
        let at = choose|at: Instant|
            clock.shows(at) && now == #[trigger] table_recorded(
                m,
                max_order,
                t,
                context,
                next,
                at,
            );
        lemma_counts_timeless(m, max_order, t, context, next, 0, at, Instant { nanos: 0 });
        lemma_table_told(clock, m, max_order, now, told.drop_first(), after);
    }
}

/// What a counting predictor predicts once told of some transitions is
/// determined: it is what its counts together with the transitions give.
pub proof fn lemma_told_determines(
    p: MarkovPredictor<CountModel>,
    told: Seq<(EventId, EventId)>,
    context: Seq<EventId>,
    k: nat,
    predictions: Seq<Prediction>,
)
    requires
        p.may_predict_told(told, context, k, predictions),
    ensures
        predictions == predicted(
            p.weighing(),
            p.order(),
            table_told(p.weighing(), p.order(), p.table(), told),
            context,
            k,
            Instant { nanos: 0 },
        ),
{
    let (clock, m, order) = (p.timer(), p.weighing(), p.order());
    let t = choose|t: Table<u32>|
        #[trigger] told_to(clock, m, order, p.table(), told, t) && predicted_sometime(
            clock,
            m,
            order,
            t,
            context,
            k,
            predictions,
        );
    lemma_table_told(clock, m, order, p.table(), told, t);
    let at = choose|at: Instant|
        clock.shows(at) && predictions == #[trigger] predicted(m, order, t, context, k, at);
    lemma_counts_timeless(m, order, t, context, EventId(0), k, at, Instant { nanos: 0 });
}

/// What a counting predictor predicts, once a row decides: as many events as asked for
/// or as were seen, each with its smoothed count in that row over the smoothed total,
/// the likelier one first and the smaller event first where two are equally likely. An
/// event that was seen is left out only where all that are predicted come before it.
pub proof fn lemma_counts_predict(
    m: CountModel,
    t: Table<u32>,
    row: Transitions<u32>,
    k: nat,
    at: Instant,
    out: Seq<Prediction>,
)
    requires
        out == if ranked(shares(m, t, row, at)).len() <= k {
            ranked(shares(m, t, row, at))
        } else {
            ranked(shares(m, t, row, at)).take(k as int)
        },
        0 < t.vocab.len() <= usize::MAX,
        forall|i: int, j: int| 0 <= i < j < t.vocab.len() ==> t.vocab[i] < t.vocab[j],
        forall|i: int| 0 <= i < t.vocab.len() ==> #[trigger] t.vocab[i] <= u32::MAX,
        m.num > 0 || (m.den > 0 && row.total > 0),
    ensures
        out.len() == if t.vocab.len() <= k {
            t.vocab.len()
        } else {
            k
        },
        forall|i: int|
            0 <= i < out.len() ==> {
                &&& t.vocab.contains((#[trigger] out[i]).event.0 as usize)
                &&& out[i].probability.num == (match weight_of(row.nexts, out[i].event) {
                    Some(w) => w as int,
                    None => 0,
                }) * m.den + m.num
                &&& out[i].probability.den == row.total * m.den + t.vocab.len() * m.num
            },
        forall|i: int, j: int|
            0 <= i < j < out.len() ==> (#[trigger] out[i]).probability.num > (
            #[trigger] out[j]).probability.num || (out[i].probability.num == out[j].probability.num
                && out[i].event.0 < out[j].event.0),
        forall|v: int, i: int|
            #![trigger t.vocab[v], out[i]]
            0 <= v < t.vocab.len() && (forall|j: int|
                0 <= j < out.len() ==> (#[trigger] out[j]).event.0 != t.vocab[v]) && 0 <= i
                < out.len() ==> ({
                let num = (match weight_of(row.nexts, EventId(t.vocab[v] as u32)) {
                    Some(w) => w as int,
                    None => 0,
                }) * m.den + m.num;
                out[i].probability.num > num || (out[i].probability.num == num && out[i].event.0
                    < t.vocab[v])
            }),
{
    let s = shares(m, t, row, at);
    let all = ranked(s);
    let n = t.vocab.len();
    let den = s[0].probability.den;
    lemma_vocab_bound(t.vocab);
    lemma_shares(m, t, row, at);
    assert forall|i: int| 0 <= i < n implies (#[trigger] s[i]).probability.num == (match weight_of(
        row.nexts,
        EventId(t.vocab[i] as u32),
    ) {
        Some(w) => w as int,
        None => 0,
    }) * m.den + m.num && s[i].probability.den == row.total * m.den + n * m.num by {
        lemma_plain_counts(
            m,
            0,
            weight_of(row.nexts, EventId(t.vocab[i] as u32)),
            row.total,
            n as usize,
            at,
        );
    }
    assert(den > 0) by {
        assert(row.total * m.den + n * m.num > 0) by (nonlinear_arith)
            requires
                n > 0,
                row.total >= 0,
                m.den >= 0,
                m.num >= 0,
                m.num > 0 || (m.den > 0 && row.total > 0),
        ;
    }
    assert forall|i: int, j: int| 0 <= i < j < s.len() implies (#[trigger] s[i]).event.0 < (
    #[trigger] s[j]).event.0 by {
        assert(t.vocab[i] < t.vocab[j]);
    }
    lemma_ranking(s, den);
    s.to_multiset_ensures();
    all.to_multiset_ensures();
    assert forall|i: int| 0 <= i < all.len() implies exists|v: int|
        0 <= v < n && s[v] == #[trigger] all[i] by {
        assert(all.contains(all[i]));
        assert(all.to_multiset().count(all[i]) > 0);
        assert(s.contains(all[i]));
    }
    assert forall|i: int| 0 <= i < out.len() implies {
        &&& t.vocab.contains((#[trigger] out[i]).event.0 as usize)
        &&& out[i].probability.num == (match weight_of(row.nexts, out[i].event) {
            Some(w) => w as int,
            None => 0,
        }) * m.den + m.num
        &&& out[i].probability.den == row.total * m.den + n * m.num
    } by {
        assert(out[i] == all[i]);
        let v = choose|v: int| 0 <= v < n && s[v] == all[i];
        assert(s[v] == out[i]);
        assert(t.vocab[v] == out[i].event.0 as usize);
    }
    assert forall|i: int, j: int| 0 <= i < j < out.len() implies (
    #[trigger] out[i]).probability.num > (#[trigger] out[j]).probability.num || (
    out[i].probability.num == out[j].probability.num && out[i].event.0 < out[j].event.0) by {
        assert(out[i] == all[i] && out[j] == all[j]);
    }
    assert forall|v: int, i: int|
        #![trigger t.vocab[v], out[i]]
        0 <= v < n && (forall|j: int|
            0 <= j < out.len() ==> (#[trigger] out[j]).event.0 != t.vocab[v]) && 0 <= i
            < out.len() implies ({
        let num = (match weight_of(row.nexts, EventId(t.vocab[v] as u32)) {
            Some(w) => w as int,
            None => 0,
        }) * m.den + m.num;
        out[i].probability.num > num || (out[i].probability.num == num && out[i].event.0
            < t.vocab[v])
    }) by {
        assert(s.contains(s[v]));
        assert(s.to_multiset().count(s[v]) > 0);
        assert(all.contains(s[v]));
        let u = choose|u: int| 0 <= u < all.len() && all[u] == s[v];
        if u < out.len() {
            assert(out[u].event.0 == t.vocab[v]);
        }
        assert(out[i] == all[i] && all[u] == s[v]);
    }
}

/// How often `next` was counted after `context`.
pub open spec fn count_of(t: Table<u32>, context: Seq<EventId>, next: EventId) -> nat {
    match row_of(t.rows, context) {
        Some(row) => match weight_of(row.nexts, next) {
            Some(w) => w as nat,
            None => 0,
        },
        None => 0,
    }
}

/// How often `context` was counted.
pub open spec fn total_of(t: Table<u32>, context: Seq<EventId>) -> nat {
    match row_of(t.rows, context) {
        Some(row) => row.total as nat,
        None => 0,
    }
}

/// Counts are those of the row that is kept for a context, and zero where none is kept.
pub proof fn lemma_count_of(t: Table<u32>, p: int, q: int, context: Seq<EventId>, next: EventId)
    requires
        forall|i: int, j: int|
            0 <= i < j < t.rows.len() ==> (#[trigger] t.rows[i]).context != (
            #[trigger] t.rows[j]).context,
        forall|i: int| 0 <= i < t.rows.len() ==> distinct_nexts((#[trigger] t.rows[i]).nexts),
    ensures
        0 <= p < t.rows.len() && 0 <= q < t.rows[p].nexts.len() ==> count_of(
            t,
            t.rows[p].context,
            t.rows[p].nexts[q].0,
        ) == t.rows[p].nexts[q].1,
        0 <= p < t.rows.len() ==> total_of(t, t.rows[p].context) == t.rows[p].total,
        0 <= p < t.rows.len() && (forall|j: int|
            0 <= j < t.rows[p].nexts.len() ==> (#[trigger] t.rows[p].nexts[j]).0 != next)
            ==> count_of(t, t.rows[p].context, next) == 0,
        (forall|i: int| 0 <= i < t.rows.len() ==> (#[trigger] t.rows[i]).context != context)
            ==> count_of(t, context, next) == 0 && total_of(t, context) == 0,
{
    lemma_row_of(t.rows, context, 0);
    if 0 <= p < t.rows.len() {
        assert forall|j: int| 0 <= j < p implies (#[trigger] t.rows[j]).context
            != t.rows[p].context by {}
        lemma_row_of(t.rows, t.rows[p].context, p);
        lemma_weight_of(t.rows[p].nexts, next, 0);
        if 0 <= q < t.rows[p].nexts.len() {
            assert(distinct_nexts(t.rows[p].nexts));
            lemma_weight_of(t.rows[p].nexts, t.rows[p].nexts[q].0, q);
        }
    }
}

/// No row weighs an event twice.
pub open spec fn distinct_rows(t: Table<u32>) -> bool {
    forall|i: int| 0 <= i < t.rows.len() ==> distinct_nexts((#[trigger] t.rows[i]).nexts)
}

/// A transition is counted once, for its context and its event, if the context is of a
/// length that is kept. Every other count stays, and its events are noted.
pub proof fn lemma_transition_counted_once(
    m: CountModel,
    max_order: nat,
    t: Table<u32>,
    context: Seq<EventId>,
    next: EventId,
    at: Instant,
    other: Seq<EventId>,
    event: EventId,
)
    requires
        distinct_rows(t),
    ensures
        ({
            let after = table_recorded(m, max_order, t, context, next, at);
            let kept = 0 < context.len() <= max_order;
            &&& distinct_rows(after)
            &&& if kept && other == context && event == next {
                count_of(t, other, event) < 16_777_216 ==> count_of(after, other, event)
                    == count_of(t, other, event) + 1
            } else {
                count_of(after, other, event) == count_of(t, other, event)
            }
            &&& if kept && other == context {
                total_of(t, other) < 16_777_216 ==> total_of(after, other) == total_of(t, other) + 1
            } else {
                total_of(after, other) == total_of(t, other)
            }
        }),
{
    let after = table_recorded(m, max_order, t, context, next, at);
    if 0 < context.len() <= max_order {
        let row = match row_of(t.rows, context) {
            Some(row) => row,
            None => Transitions { context, nexts: Seq::empty(), total: m.zero_at(at) },
        };
        let p = row_place(t.rows, context);
        lemma_row_place(t.rows, context);
        lemma_row_place(t.rows, other);
        lemma_row_place(after.rows, context);
        lemma_row_place(after.rows, other);
        let before = match weight_of(row.nexts, next) {
            Some(w) => w,
            None => 0,
        };
        let seen = row_observed(m, row, next, at);
        assert(distinct_nexts(row.nexts));
        lemma_with_weight(row.nexts, next, m.observed_at(before, at), event);
        lemma_count_near(before + 1);
        lemma_count_near(row.total + 1);
        assert(after.rows == with_row(t.rows, seen));
        assert forall|i: int| 0 <= i < after.rows.len() implies distinct_nexts(
            (#[trigger] after.rows[i]).nexts,
        ) by {
            if i < t.rows.len() && i != p {
                assert(after.rows[i] == t.rows[i]);
            } else {
                assert(after.rows[i] == seen);
            }
        }
        assert(after.rows[p] == seen);
        lemma_row_of(after.rows, context, p);
        assert(forall|q: int| 0 <= q < p ==> #[trigger] after.rows[q] == t.rows[q]);
        if other != context {
            let q = row_place(t.rows, other);
            if q < t.rows.len() {
                assert(after.rows[q] == t.rows[q]);
                assert forall|j: int| 0 <= j < q implies (#[trigger] after.rows[j]).context
                    != other by {
                    if j != p {
                        assert(after.rows[j] == t.rows[j]);
                    }
                }
                lemma_row_of(after.rows, other, q);
            } else {
                assert forall|j: int| 0 <= j < after.rows.len() implies (
                #[trigger] after.rows[j]).context != other by {
                    if j != p {
                        assert(after.rows[j] == t.rows[j]);
                    }
                }
                lemma_row_of(after.rows, other, 0);
            }
        }
    }
}

proof fn lemma_reached_counts(
    m: CountModel,
    max_order: nat,
    t: Table<u32>,
    events: Seq<EventId>,
    i: int,
    order: nat,
    at: Instant,
    context: Seq<EventId>,
    next: EventId,
)
    requires
        distinct_rows(t),
        0 <= i < events.len(),
        order <= max_order,
        context.len() > 0,
        context.len() <= i && events.subrange(i - context.len(), i) == context ==> total_of(
            t,
            context,
        ) < 16_777_216 && (events[i] == next ==> count_of(t, context, next) < 16_777_216),
    ensures
        ({
            let after = table_reached(m, max_order, t, events, i, order, at);
            let here = context.len() <= order && context.len() <= i && events.subrange(
                i - context.len(),
                i,
            ) == context;
            &&& distinct_rows(after)
            &&& count_of(after, context, next) == count_of(t, context, next) + if here && events[i]
                == next {
                1int
            } else {
                0int
            }
            &&& total_of(after, context) == total_of(t, context) + if here {
                1int
            } else {
                0int
            }
        }),
    decreases order,
{
    if order > 0 {
        let k = (order - 1) as nat;
        lemma_reached_counts(m, max_order, t, events, i, k, at, context, next);
        let before = table_reached(m, max_order, t, events, i, k, at);
        if i >= order {
            let key = events.subrange(i - order, i);
            assert(key.len() == order);
            lemma_transition_counted_once(
                m,
                max_order,
                before,
                key,
                events[i],
                at,
                context,
                next,
            );
        }
    }
}

/// The places of a sequence of events, among the first `n`, that `context` leads to.
pub open spec fn places_after(events: Seq<EventId>, context: Seq<EventId>, n: int) -> Set<int> {
    set_int_range(0, n).filter(
        |i: int|
            i >= context.len() && forall|j: int|
                0 <= j < context.len() ==> events[i - context.len() + j] == #[trigger] context[j],
    )
}

proof fn lemma_steps_count(
    m: CountModel,
    max_order: nat,
    t: Table<u32>,
    events: Seq<EventId>,
    n: nat,
    at: Instant,
    context: Seq<EventId>,
    next: EventId,
)
    requires
        distinct_rows(t),
        n <= events.len(),
        0 < context.len() <= max_order,
        count_of(t, context, next) + places_after(events, context, n as int).filter(
            |i: int| events[i] == next,
        ).len() <= 16_777_216,
        total_of(t, context) + places_after(events, context, n as int).len() <= 16_777_216,
    ensures
        ({
            let after = table_sequence(m, max_order, t, events, n, at);
            let places = places_after(events, context, n as int);
            &&& distinct_rows(after)
            &&& count_of(after, context, next) == count_of(t, context, next) + places.filter(
                |i: int| events[i] == next,
            ).len()
            &&& total_of(after, context) == total_of(t, context) + places.len()
        }),
    decreases n,
{
    let hits = |i: int| events[i] == next;
    let places = places_after(events, context, n as int);
    lemma_int_range(0, n as int);
    if n <= 1 {
        assert(places =~= Set::empty());
        assert(places.filter(hits) =~= Set::empty());
    } else {
        let k = (n - 1) as nat;
        let i = n - 1;
        let before = places_after(events, context, k as int);
        lemma_int_range(0, k as int);
        let here = context.len() <= i && events.subrange(i - context.len(), i) == context;
        assert(here == places.contains(i)) by {
            if here {
                let part = events.subrange(i - context.len(), i);
                assert(forall|j: int|
                    0 <= j < context.len() ==> events[i - context.len() + j] == part[j]);
            }
            if places.contains(i) {
                assert(events.subrange(i - context.len(), i) =~= context);
            }
        }
        if here {
            assert(places =~= before.insert(i));
            if events[i] == next {
                assert(places.filter(hits) =~= before.filter(hits).insert(i));
            } else {
                assert(places.filter(hits) =~= before.filter(hits));
            }
        } else {
            assert(places =~= before);
        }
        lemma_steps_count(m, max_order, t, events, k, at, context, next);
        lemma_reached_counts(
            m,
            max_order,
            table_sequence(m, max_order, t, events, k, at),
            events,
            i,
            max_order,
            at,
            context,
            next,
        );
    }
}

/// What a sequence of events teaches: each context is counted once for every place that
/// it leads to, and each transition once for every such place that its event stands at.
pub proof fn lemma_sequence_counted(
    m: CountModel,
    max_order: nat,
    t: Table<u32>,
    events: Seq<EventId>,
    at: Instant,
    context: Seq<EventId>,
    next: EventId,
)
    requires
        distinct_rows(t),
        0 < context.len() <= max_order,
        count_of(t, context, next) + events.len() <= 16_777_216,
        total_of(t, context) + events.len() <= 16_777_216,
    ensures
        ({
            let after = table_after(m, max_order, t, events, at);
            let places = set_int_range(0, events.len() as int).filter(
                |i: int|
                    i >= context.len() && forall|j: int|
                        0 <= j < context.len() ==> events[i - context.len() + j]
                            == #[trigger] context[j],
            );
            &&& distinct_rows(after)
            &&& total_of(after, context) == total_of(t, context) + places.len()
            &&& count_of(after, context, next) == count_of(t, context, next) + places.filter(
                |i: int| events[i] == next,
            ).len()
        }),
{
    let noted = Table { vocab: with_events(t.vocab, events), ..t };
    let n = events.len() as int;
    let places = places_after(events, context, n);
    lemma_int_range(0, n);
    vstd::set_lib::lemma_len_subset(places, set_int_range(0, n));
    vstd::set_lib::lemma_len_subset(places.filter(|i: int| events[i] == next), places);
    lemma_steps_count(m, max_order, noted, events, events.len(), at, context, next);
    assert(places =~= set_int_range(0, events.len() as int).filter(
        |i: int|
            i >= context.len() && forall|j: int|
                0 <= j < context.len() ==> events[i - context.len() + j] == #[trigger] context[j],
    ));
}

/// Noting events adds exactly these.
proof fn lemma_events_noted(vocab: Seq<usize>, events: Seq<EventId>, v: usize)
    requires
        strictly_ascending(vocab),
        forall|i: int| 0 <= i < vocab.len() ==> #[trigger] vocab[i] <= u32::MAX,
    ensures
        with_events(vocab, events).contains(v) <==> vocab.contains(v) || exists|i: int|
            0 <= i < events.len() && (#[trigger] events[i]).0 as usize == v,
    decreases events.len(),
{
    if events.len() > 0 {
        let init = events.drop_last();
        lemma_events_noted(vocab, init, v);
        lemma_with_events(vocab, init);
        lemma_noted(with_events(vocab, init), events.last());
        if exists|i: int| 0 <= i < init.len() && (#[trigger] init[i]).0 as usize == v {
            let i = choose|i: int| 0 <= i < init.len() && (#[trigger] init[i]).0 as usize == v;
            assert(events[i] == init[i]);
        }
        if exists|i: int| 0 <= i < events.len() && (#[trigger] events[i]).0 as usize == v {
            let i = choose|i: int| 0 <= i < events.len() && (#[trigger] events[i]).0 as usize == v;
            if i < init.len() {
                assert(init[i] == events[i]);
            }
        }
        assert(events[events.len() - 1] == events.last());
    }
}

/// A transition makes its events known, and no others.
pub proof fn lemma_transition_makes_known(
    m: CountModel,
    max_order: nat,
    t: Table<u32>,
    context: Seq<EventId>,
    next: EventId,
    at: Instant,
    v: usize,
)
    requires
        consistent(t),
    ensures
        table_recorded(m, max_order, t, context, next, at).vocab.contains(v) <==> t.vocab.contains(
            v,
        ) || next.0 as usize == v || exists|i: int|
            0 <= i < context.len() && (#[trigger] context[i]).0 as usize == v,
{
    lemma_events_noted(t.vocab, context, v);
    lemma_with_events(t.vocab, context);
    lemma_noted(with_events(t.vocab, context), next);
}

proof fn lemma_reached_knows(
    m: CountModel,
    max_order: nat,
    t: Table<u32>,
    events: Seq<EventId>,
    i: int,
    order: nat,
    at: Instant,
    v: usize,
)
    requires
        consistent(t),
        0 <= i < events.len(),
        forall|j: int|
            0 <= j < events.len() ==> t.vocab.contains((#[trigger] events[j]).0 as usize),
    ensures
        table_reached(m, max_order, t, events, i, order, at).vocab.contains(v)
            <==> t.vocab.contains(v),
    decreases order,
{
    if order > 0 {
        let k = (order - 1) as nat;
        lemma_reached_knows(m, max_order, t, events, i, k, at, v);
        lemma_reached_consistent(m, max_order, t, events, i, k, at);
        if i >= order {
            let key = events.subrange(i - order, i);
            let before = table_reached(m, max_order, t, events, i, k, at);
            lemma_transition_makes_known(m, max_order, before, key, events[i], at, v);
            if exists|j: int| 0 <= j < key.len() && (#[trigger] key[j]).0 as usize == v {
                let j = choose|j: int| 0 <= j < key.len() && (#[trigger] key[j]).0 as usize == v;
                assert(events[i - order + j].0 as usize == v);
            }
        }
    }
}

proof fn lemma_steps_know(
    m: CountModel,
    max_order: nat,
    t: Table<u32>,
    events: Seq<EventId>,
    n: nat,
    at: Instant,
    v: usize,
)
    requires
        consistent(t),
        n <= events.len(),
        forall|j: int|
            0 <= j < events.len() ==> t.vocab.contains((#[trigger] events[j]).0 as usize),
    ensures
        table_sequence(m, max_order, t, events, n, at).vocab.contains(v) <==> t.vocab.contains(v),
    decreases n,
{
    if n > 1 {
        let k = (n - 1) as nat;
        let before = table_sequence(m, max_order, t, events, k, at);
        lemma_steps_know(m, max_order, t, events, k, at, v);
        lemma_steps_consistent(m, max_order, t, events, k, at);
        assert forall|j: int| 0 <= j < events.len() implies before.vocab.contains(
            (#[trigger] events[j]).0 as usize,
        ) by {
            lemma_steps_know(m, max_order, t, events, k, at, events[j].0 as usize);
        }
        lemma_reached_knows(m, max_order, before, events, n - 1, max_order, at, v);
    }
}

/// A sequence of events makes its events known, and no others.
pub proof fn lemma_sequence_makes_known(
    m: CountModel,
    max_order: nat,
    t: Table<u32>,
    events: Seq<EventId>,
    at: Instant,
    v: usize,
)
    requires
        consistent(t),
    ensures
        table_after(m, max_order, t, events, at).vocab.contains(v) <==> t.vocab.contains(v)
            || exists|i: int| 0 <= i < events.len() && (#[trigger] events[i]).0 as usize == v,
{
    let noted = Table { vocab: with_events(t.vocab, events), ..t };
    lemma_with_events(t.vocab, events);
    lemma_events_noted(t.vocab, events, v);
    assert forall|i: int| 0 <= i < noted.rows.len() implies row_consistent(
        noted.vocab,
        #[trigger] noted.rows[i],
    ) by {
        assert(row_consistent(t.vocab, t.rows[i]));
    }
    assert forall|j: int| 0 <= j < events.len() implies noted.vocab.contains(
        (#[trigger] events[j]).0 as usize,
    ) by {
        lemma_events_noted(t.vocab, events, events[j].0 as usize);
    }
    lemma_steps_know(m, max_order, noted, events, events.len(), at, v);
}

/// What training teaches: one more sequence adds, to what the others taught, one count of
/// a context for every place of the sequence that it leads to, and one count of a
/// transition for every such place that its event stands at.
pub proof fn lemma_training_counted(
    m: CountModel,
    max_order: nat,
    sequences: Seq<Seq<EventId>>,
    last: Seq<EventId>,
    moments: Seq<Instant>,
    context: Seq<EventId>,
    next: EventId,
)
    requires
        0 < context.len() <= max_order,
        count_of(trained(m, max_order, sequences, moments), context, next) + last.len()
            <= 16_777_216,
        total_of(trained(m, max_order, sequences, moments), context) + last.len() <= 16_777_216,
    ensures
        ({
            let before = trained(m, max_order, sequences, moments);
            let after = trained(m, max_order, sequences.push(last), moments);
            let places = set_int_range(0, last.len() as int).filter(
                |i: int|
                    i >= context.len() && forall|j: int|
                        0 <= j < context.len() ==> last[i - context.len() + j]
                            == #[trigger] context[j],
            );
            &&& sequences.len() == 0 ==> count_of(before, context, next) == 0 && total_of(
                before,
                context,
            ) == 0
            &&& total_of(after, context) == total_of(before, context) + places.len()
            &&& count_of(after, context, next) == count_of(before, context, next) + places.filter(
                |i: int| last[i] == next,
            ).len()
        }),
{
    let before = trained(m, max_order, sequences, moments);
    let all = sequences.push(last);
    assert(all.drop_last() =~= sequences);
    lemma_trained_distinct(m, max_order, sequences, moments);
    if last.len() >= 2 {
        lemma_sequence_counted(
            m,
            max_order,
            before,
            last,
            moments[all.len() - 1],
            context,
            next,
        );
    } else {
        let places = set_int_range(0, last.len() as int).filter(
            |i: int|
                i >= context.len() && forall|j: int|
                    0 <= j < context.len() ==> last[i - context.len() + j] == #[trigger] context[j],
        );
        assert(places =~= Set::empty());
        assert(places.filter(|i: int| last[i] == next) =~= Set::empty());
    }
}

proof fn lemma_trained_distinct(
    m: CountModel,
    max_order: nat,
    sequences: Seq<Seq<EventId>>,
    moments: Seq<Instant>,
)
    ensures
        distinct_rows(trained(m, max_order, sequences, moments)),
{
    lemma_trained_consistent(m, max_order, sequences, moments);
    let t = trained(m, max_order, sequences, moments);
    assert forall|i: int| 0 <= i < t.rows.len() implies distinct_nexts(
        (#[trigger] t.rows[i]).nexts,
    ) by {
        assert(row_consistent(t.vocab, t.rows[i]));
    }
}

/// What being told of some transitions teaches: each is counted as often as it was told.
pub proof fn lemma_told_counted(
    m: CountModel,
    max_order: nat,
    t: Table<u32>,
    told: Seq<(EventId, EventId)>,
    prev: EventId,
    next: EventId,
)
    requires
        distinct_rows(t),
        max_order >= 1,
        count_of(t, seq![prev], next) + told.len() <= 16_777_216,
    ensures
        count_of(table_told(m, max_order, t, told), seq![prev], next) == count_of(
            t,
            seq![prev],
            next,
        ) + told.to_multiset().count((prev, next)),
    decreases told.len(),
{
    told.to_multiset_ensures();
    if told.len() > 0 {
        let rest = told.drop_first();
        let at = Instant { nanos: 0 };
        let after = table_recorded(m, max_order, t, seq![told[0].0], told[0].1, at);
        lemma_transition_counted_once(
            m,
            max_order,
            t,
            seq![told[0].0],
            told[0].1,
            at,
            seq![prev],
            next,
        );
        assert(seq![told[0].0] == seq![prev] <==> told[0].0 == prev) by {
            assert(seq![told[0].0][0] == told[0].0 && seq![prev][0] == prev);
        }
        lemma_told_counted(m, max_order, after, rest, prev, next);
        let first = seq![told[0]];
        assert(told =~= first + rest);
        vstd::seq_lib::lemma_multiset_commutative(first, rest);
        Seq::<(EventId, EventId)>::empty().to_multiset_ensures();
        assert(first =~= Seq::empty().push(told[0]));
        assert(first.to_multiset().count((prev, next)) == if told[0] == (prev, next) {
            1nat
        } else {
            0nat
        });
    }
}

} // verus!
