//! Training a predictor on recorded conversations.

use vstd::prelude::*;

use crate::clock::{Clock, Instant};
use crate::counting::lemma_training_timeless;
use crate::markov::{table_after, CountModel, MarkovPredictor, Table, WeightModel};
use crate::state::EventId;

verus! {

/// The sequences as their views.
pub open spec fn sequences_of(sequences: Seq<Vec<EventId>>) -> Seq<Seq<EventId>> {
    sequences.map_values(|s: Vec<EventId>| s@)
}

/// What is known after the sequences, each recorded at its moment. A sequence
/// without a transition adds nothing.
pub open spec fn trained<M: WeightModel>(
    m: M,
    max_order: nat,
    sequences: Seq<Seq<EventId>>,
    moments: Seq<Instant>,
) -> Table<M::Weight>
    decreases sequences.len(),
{
    if sequences.len() == 0 {
        Table { rows: Seq::empty(), vocab: Seq::empty() }
    } else {
        let before = trained(m, max_order, sequences.drop_last(), moments);
        if sequences.last().len() >= 2 {
            table_after(m, max_order, before, sequences.last(), moments[sequences.len() - 1])
        } else {
            before
        }
    }
}

/// The clock shows all the moments.
pub open spec fn all_shown(clock: Clock, moments: Seq<Instant>) -> bool {
    forall|i: int| 0 <= i < moments.len() ==> clock.shows(#[trigger] moments[i])
}

/// Train a predictor with a given model on sequences of events.
pub fn train_with_model<M: WeightModel>(
    sequences: &Vec<Vec<EventId>>,
    max_order: usize,
    model: M,
) -> (p: MarkovPredictor<M>)
    requires
        max_order >= 1,
    ensures
        p.wf(),
        p.order() == max_order,
        p.weighing() == model,
        exists|moments: Seq<Instant>|
            all_shown(p.timer(), moments) && p.table() == #[trigger] trained(
                model,
                max_order as nat,
                sequences_of(sequences@),
                moments,
            ),
{
    let mut p = MarkovPredictor::with_model(max_order, model);
    let ghost all = sequences_of(sequences@);
    let ghost mut moments: Seq<Instant> = Seq::empty();
    let mut i: usize = 0;
    assert(all.take(0) =~= Seq::empty());
    while i < sequences.len()
        invariant
            i <= sequences@.len(),
            all == sequences_of(sequences@),
            p.wf(),
            p.order() == max_order,
            p.weighing() == model,
            moments.len() == i,
            all_shown(p.timer(), moments),
            p.table() == trained(model, max_order as nat, all.take(i as int), moments),
        decreases sequences@.len() - i,
    {
        let at = p.now();
        let ghost before = moments;
        proof {
            moments = moments.push(at);
            assert(all.take(i + 1).drop_last() =~= all.take(i as int));
            assert(all.take(i + 1).last() == sequences@[i as int]@);
            lemma_trained_prefix(model, max_order as nat, all.take(i as int), before, at);
        }
        if sequences[i].len() >= 2 {
            p.observe_sequence_at(sequences[i].as_slice(), at);
        }
        i = i + 1;
    }
    assert(all.take(i as int) =~= all);
    p
}

/// What is known does not depend on the moments of sequences to come.
proof fn lemma_trained_prefix<M: WeightModel>(
    m: M,
    max_order: nat,
    sequences: Seq<Seq<EventId>>,
    moments: Seq<Instant>,
    at: Instant,
)
    requires
        sequences.len() <= moments.len(),
    ensures
        trained(m, max_order, sequences, moments.push(at)) == trained(
            m,
            max_order,
            sequences,
            moments,
        ),
    decreases sequences.len(),
{
    if sequences.len() > 0 {
        lemma_trained_prefix(m, max_order, sequences.drop_last(), moments, at);
    }
}

/// Train a counting predictor on sequences of events. What it learns does not
/// depend on the time.
pub fn train_sequences(
    sequences: &Vec<Vec<EventId>>,
    max_order: usize,
    smoothing: CountModel,
) -> (p: MarkovPredictor<CountModel>)
    requires
        max_order >= 1,
    ensures
        p.wf(),
        p.order() == max_order,
        p.weighing() == smoothing,
        forall|moments: Seq<Instant>|
            p.table() == #[trigger] trained(
                smoothing,
                max_order as nat,
                sequences_of(sequences@),
                moments,
            ),
{
    let p = train_with_model(sequences, max_order, smoothing);
    proof {
        let all = sequences_of(sequences@);
        let then = choose|moments: Seq<Instant>|
            p.table() == #[trigger] trained(smoothing, max_order as nat, all, moments);
        assert forall|moments: Seq<Instant>|
            p.table() == #[trigger] trained(smoothing, max_order as nat, all, moments) by {
            lemma_training_timeless(smoothing, max_order as nat, all, then, moments);
        }
    }
    p
}

} // verus!
