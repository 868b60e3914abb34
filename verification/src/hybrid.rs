//! A strong predictor with a Markov chain to fall back to.

use vstd::prelude::*;

use crate::markov::{recorded_sometime, CountModel, MarkovPredictor, WeightModel};
use crate::predictor::{taught, Fraction, NextTurnPredictor, Prediction};
use crate::state::EventId;

verus! {

/// The greater of two fractions, the first where they are equal.
pub open spec fn greater(a: Fraction, b: Fraction) -> Fraction {
    if a.below(b) {
        b
    } else {
        a
    }
}

/// The predictions, if their predictor is trusted enough and they say anything.
pub fn trusted(trust: Fraction, threshold: Fraction, predictions: Vec<Prediction>) -> (r: Option<
    Vec<Prediction>,
>)
    ensures
        match r {
            Some(p) => p == predictions && !trust.below(threshold) && predictions@.len() > 0,
            None => trust.below(threshold) || predictions@.len() == 0,
        },
{
    if trust.is_below(threshold) || predictions.len() == 0 {
        None
    } else {
        Some(predictions)
    }
}

/// Hybrid predictor. Routes predictions to the strong predictor once that one
/// is warm, trains both on every observation, and reports the greater
/// confidence so that callers see a useful value during the cold start.
pub struct HybridPredictor<S: NextTurnPredictor, M: WeightModel> {
    sr: S,
    markov: MarkovPredictor<M>,
    threshold: Fraction,
}

/// Whether a predictor that has been told of some more transitions may be this
/// confident. A confidence of one is always possible.
pub open spec fn may_be_trusted<S: NextTurnPredictor>(
    p: S,
    told: Seq<(EventId, EventId)>,
    trust: Fraction,
) -> bool {
    p.may_trust_told(told, trust) || trust == (Fraction { num: 1, den: 1 })
}

/// Whether `predictions` are what the two predictors make of a context, once
/// they have been told of some more transitions, where the strong one is trusted
/// this much.
pub open spec fn routed<S: NextTurnPredictor, M: WeightModel>(
    h: HybridPredictor<S, M>,
    told: Seq<(EventId, EventId)>,
    trust: Fraction,
    context: Seq<EventId>,
    k: nat,
    predictions: Seq<Prediction>,
) -> bool {
    if trust.below(h.spec_threshold()) {
        h.spec_markov().may_predict_told(told, context, k, predictions)
    } else if predictions.len() > 0 && h.spec_sr().may_predict_told(
        told,
        context,
        k,
        predictions,
    ) {
        true
    } else {
        &&& h.spec_sr().may_predict_told(told, context, k, Seq::empty())
        &&& h.spec_markov().may_predict_told(told, context, k, predictions)
    }
}

impl<S: NextTurnPredictor, M: WeightModel> HybridPredictor<S, M> {
    pub closed spec fn spec_sr(&self) -> S {
        self.sr
    }

    pub closed spec fn spec_markov(&self) -> MarkovPredictor<M> {
        self.markov
    }

    pub closed spec fn spec_threshold(&self) -> Fraction {
        self.threshold
    }

    /// Wrap an existing pair. Threshold defaults to one half.
    pub fn new(sr: S, markov: MarkovPredictor<M>) -> (h: Self)
        ensures
            h.spec_sr() == sr,
            h.spec_markov() == markov,
            h.spec_threshold() == (Fraction { num: 1, den: 2 }),
    {
        HybridPredictor { sr, markov, threshold: Fraction { num: 1, den: 2 } }
    }

    /// The threshold is at most one.
    pub fn with_threshold(self, threshold: Fraction) -> (h: Self)
        ensures
            h.spec_sr() == self.spec_sr(),
            h.spec_markov() == self.spec_markov(),
            h.spec_threshold() == if threshold.num <= threshold.den {
                threshold
            } else {
                Fraction { num: 1, den: 1 }
            },
    {
        let kept = if threshold.num <= threshold.den {
            threshold
        } else {
            Fraction { num: 1, den: 1 }
        };
        HybridPredictor { sr: self.sr, markov: self.markov, threshold: kept }
    }

    pub fn sr(&self) -> (sr: &S)
        ensures
            *sr == self.spec_sr(),
    {
        &self.sr
    }

    pub fn markov(&self) -> (markov: &MarkovPredictor<M>)
        ensures
            *markov == self.spec_markov(),
    {
        &self.markov
    }

    pub fn threshold(&self) -> (threshold: Fraction)
        ensures
            threshold == self.spec_threshold(),
    {
        self.threshold
    }
}

impl<S: NextTurnPredictor, M: WeightModel> NextTurnPredictor for HybridPredictor<S, M> {
    type Weights = M;

    open spec fn ready(&self) -> bool {
        self.spec_sr().ready() && self.spec_markov().ready()
    }

    open spec fn may_predict_told(
        &self,
        told: Seq<(EventId, EventId)>,
        context: Seq<EventId>,
        k: nat,
        predictions: Seq<Prediction>,
    ) -> bool {
        exists|trust: Fraction|
            #[trigger] may_be_trusted(self.spec_sr(), told, trust) && routed(
                *self,
                told,
                trust,
                context,
                k,
                predictions,
            )
    }

    open spec fn may_trust_told(&self, told: Seq<(EventId, EventId)>, c: Fraction) -> bool {
        exists|trust: Fraction|
            #[trigger] may_be_trusted(self.spec_sr(), told, trust) && c == greater(
                trust,
                Fraction { num: 1, den: 1 },
            )
    }

    fn predict(&self, context: &[EventId], k: usize) -> (predictions: Vec<Prediction>)
        ensures
            exists|trust: Fraction|
                #[trigger] call_ensures(S::confidence, (&self.spec_sr(),), trust) && routed(
                    *self,
                    Seq::empty(),
                    trust,
                    context@,
                    k as nat,
                    predictions@,
                ),
    {
        let trust = self.sr.confidence();
        assert(may_be_trusted(self.spec_sr(), Seq::empty(), trust));
        if !trust.is_below(self.threshold) {
            let strong = self.sr.predict(context, k);
            let ghost found = strong@;
            if let Some(predictions) = trusted(trust, self.threshold, strong) {
                assert(routed(*self, Seq::empty(), trust, context@, k as nat, predictions@));
                return predictions;
            }
            assert(found =~= Seq::empty());
        }
        let predictions = NextTurnPredictor::predict(&self.markov, context, k);
        assert(routed(*self, Seq::empty(), trust, context@, k as nat, predictions@));
        predictions
    }

    /// Both predictors are told of the transition.
    fn observe(&mut self, prev: EventId, next: EventId)
        ensures
            final(self).spec_threshold() == old(self).spec_threshold(),
            taught(&old(self).spec_sr(), &final(self).spec_sr(), seq![(prev, next)]),
            final(self).spec_markov().order() == old(self).spec_markov().order(),
            final(self).spec_markov().weighing() == old(self).spec_markov().weighing(),
            final(self).spec_markov().timer() == old(self).spec_markov().timer(),
            recorded_sometime(
                old(self).spec_markov().timer(),
                old(self).spec_markov().weighing(),
                old(self).spec_markov().order(),
                old(self).spec_markov().table(),
                seq![prev],
                next,
                final(self).spec_markov().table(),
            ),
    {
        self.sr.observe(prev, next);
        NextTurnPredictor::observe(&mut self.markov, prev, next);
        proof {
            let told = seq![(prev, next)];
            assert forall|
                more: Seq<(EventId, EventId)>,
                context: Seq<EventId>,
                k: nat,
                predictions: Seq<Prediction>,
            | #[trigger] self.may_predict_told(more, context, k, predictions) implies old(
                self,
            ).may_predict_told(told + more, context, k, predictions) by {
                let trust = choose|trust: Fraction|
                    #[trigger] may_be_trusted(self.spec_sr(), more, trust) && routed(
                        *self,
                        more,
                        trust,
                        context,
                        k,
                        predictions,
                    );
                assert(may_be_trusted(old(self).spec_sr(), told + more, trust));
                assert(routed(*old(self), told + more, trust, context, k, predictions));
            }
            assert forall|more: Seq<(EventId, EventId)>, c: Fraction| #[trigger]
                self.may_trust_told(more, c) implies old(self).may_trust_told(told + more, c) by {
                let trust = choose|trust: Fraction|
                    #[trigger] may_be_trusted(self.spec_sr(), more, trust) && c == greater(
                        trust,
                        Fraction { num: 1, den: 1 },
                    );
                assert(may_be_trusted(old(self).spec_sr(), told + more, trust));
            }
        }
    }

    fn confidence(&self) -> (c: Fraction)
        ensures
            exists|trust: Fraction|
                #[trigger] call_ensures(S::confidence, (&self.spec_sr(),), trust) && c == greater(
                    trust,
                    Fraction { num: 1, den: 1 },
                ),
    {
        let trust = self.sr.confidence();
        let general = self.markov.confidence();
        assert(may_be_trusted(self.spec_sr(), Seq::empty(), trust));
        if trust.is_below(general) {
            general
        } else {
            trust
        }
    }

    /// The fallback.
    fn as_markov(&self) -> (markov: Option<&MarkovPredictor<M>>)
        ensures
            markov == Some(&self.spec_markov()),
    {
        Some(&self.markov)
    }
}

/// Below the threshold the Markov predictor answers. From the threshold on the strong one
/// does, and the Markov predictor only where that one has nothing to say.
pub proof fn lemma_routed<S: NextTurnPredictor, M: WeightModel>(
    h: HybridPredictor<S, M>,
    told: Seq<(EventId, EventId)>,
    trust: Fraction,
    context: Seq<EventId>,
    k: nat,
    predictions: Seq<Prediction>,
)
    ensures
        trust.num * h.spec_threshold().den < h.spec_threshold().num * trust.den ==> (routed(
            h,
            told,
            trust,
            context,
            k,
            predictions,
        ) <==> h.spec_markov().may_predict_told(told, context, k, predictions)),
        trust.num * h.spec_threshold().den >= h.spec_threshold().num * trust.den ==> (routed(
            h,
            told,
            trust,
            context,
            k,
            predictions,
        ) <==> (predictions.len() > 0 && h.spec_sr().may_predict_told(
            told,
            context,
            k,
            predictions,
        )) || (h.spec_sr().may_predict_told(told, context, k, Seq::empty())
            && h.spec_markov().may_predict_told(told, context, k, predictions))),
{
}

/// Of two fractions the greater one is taken.
pub proof fn lemma_greater(a: Fraction, b: Fraction)
    ensures
        greater(a, b) == a || greater(a, b) == b,
        greater(a, b).num * a.den >= a.num * greater(a, b).den,
        greater(a, b).num * b.den >= b.num * greater(a, b).den,
{
}

} // verus!
