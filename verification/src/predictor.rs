//! What a predictor of conversation turns has to offer.

use vstd::prelude::*;

use crate::markov::{MarkovPredictor, WeightModel};
use crate::state::EventId;

verus! {

/// A non-negative fraction.
#[derive(Clone, Copy, Debug, PartialEq, Eq)]
pub struct Fraction {
    pub num: u64,
    pub den: u64,
}

impl Fraction {
    /// Whether the fraction is smaller than `other`.
    pub open spec fn below(self, other: Self) -> bool {
        self.num * other.den < other.num * self.den
    }

    /// Whether the fraction is smaller than `other`.
    pub fn is_below(self, other: Self) -> (b: bool)
        ensures
            b == self.below(other),
    {
        assert(self.num * other.den <= u64::MAX * u64::MAX && other.num * self.den <= u64::MAX
            * u64::MAX) by (nonlinear_arith)
            requires
                self.num <= u64::MAX,
                self.den <= u64::MAX,
                other.num <= u64::MAX,
                other.den <= u64::MAX,
        ;
        (self.num as u128) * (other.den as u128) < (other.num as u128) * (self.den as u128)
    }
}

/// How large a part of the whole is: zero where there is nothing.
pub open spec fn rate_of(part: u64, whole: u64) -> Fraction {
    if whole == 0 {
        Fraction { num: 0, den: 1 }
    } else {
        Fraction { num: part, den: whole }
    }
}

/// How large a part of the whole is: zero where there is nothing.
pub(crate) fn rate(part: u64, whole: u64) -> (r: Fraction)
    ensures
        r == rate_of(part, whole),
{
    if whole == 0 {
        Fraction { num: 0, den: 1 }
    } else {
        Fraction { num: part, den: whole }
    }
}

/// A single (event, probability) prediction returned by a predictor.
#[derive(Clone, Copy, Debug, PartialEq, Eq)]
pub struct Prediction {
    pub event: EventId,
    pub probability: Fraction,
}

/// No prediction is less likely than the one behind it.
pub open spec fn descending(s: Seq<Prediction>) -> bool {
    forall|i: int|
        0 <= i < s.len() - 1 ==> !(#[trigger] s[i]).probability.below(s[i + 1].probability)
}

/// The descending sequence `s` with `p` behind everything that is not less
/// likely.
pub open spec fn with_prediction(s: Seq<Prediction>, p: Prediction) -> Seq<Prediction>
    decreases s.len(),
{
    if s.len() > 0 && s.last().probability.below(p.probability) {
        with_prediction(s.drop_last(), p).push(s.last())
    } else {
        s.push(p)
    }
}

/// The predictions from the most likely to the least likely, equally likely
/// ones in the order in which they came.
pub open spec fn ranked(s: Seq<Prediction>) -> Seq<Prediction>
    decreases s.len(),
{
    if s.len() == 0 {
        Seq::empty()
    } else {
        with_prediction(ranked(s.drop_last()), s.last())
    }
}

proof fn lemma_with_prediction(s: Seq<Prediction>, p: Prediction)
    requires
        descending(s),
    ensures
        descending(with_prediction(s, p)),
        with_prediction(s, p).len() == s.len() + 1,
        with_prediction(s, p).to_multiset() == s.to_multiset().insert(p),
        with_prediction(s, p).last() == p || (s.len() > 0 && with_prediction(s, p).last()
            == s.last() && s.last().probability.below(p.probability)),
    decreases s.len(),
{
    let r = with_prediction(s, p);
    if s.len() > 0 && s.last().probability.below(p.probability) {
        let init = s.drop_last();
        let rest = with_prediction(init, p);
        assert(descending(init)) by {
            assert forall|i: int| 0 <= i < init.len() - 1 implies !(
            #[trigger] init[i]).probability.below(init[i + 1].probability) by {
                assert(init[i] == s[i]);
            }
        }
        lemma_with_prediction(init, p);
        assert forall|i: int| 0 <= i < r.len() - 1 implies !(#[trigger] r[i]).probability.below(
            r[i + 1].probability,
        ) by {
            if i < rest.len() - 1 {
                assert(r[i] == rest[i] && r[i + 1] == rest[i + 1]);
            } else {
                assert(r[i] == rest.last() && r[i + 1] == s.last());
                if rest.last() != p {
                    assert(s[s.len() - 2] == init.last());
                }
            }
        }
        rest.to_multiset_ensures();
        init.to_multiset_ensures();
        assert(s =~= init.push(s.last()));
        assert(r.to_multiset() =~= s.to_multiset().insert(p));
    } else {
        s.to_multiset_ensures();
        assert forall|i: int| 0 <= i < r.len() - 1 implies !(#[trigger] r[i]).probability.below(
            r[i + 1].probability,
        ) by {
            if i < s.len() - 1 {
                assert(s[i] == r[i] && s[i + 1] == r[i + 1]);
            }
        }
    }
}

/// Ranking keeps the predictions and puts them in descending order.
pub proof fn lemma_ranked(s: Seq<Prediction>)
    ensures
        descending(ranked(s)),
        ranked(s).len() == s.len(),
        ranked(s).to_multiset() == s.to_multiset(),
    decreases s.len(),
{
    if s.len() == 0 {
        assert(s =~= Seq::empty());
    } else {
        lemma_ranked(s.drop_last());
        lemma_with_prediction(ranked(s.drop_last()), s.last());
        s.drop_last().to_multiset_ensures();
        assert(s =~= s.drop_last().push(s.last()));
    }
}

/// Rank predictions and keep the first `k`.
pub fn rank_predictions(predictions: &Vec<Prediction>, k: usize) -> (r: Vec<Prediction>)
    ensures
        r@ == crate::heap::at_most(ranked(predictions@), k as nat),
        descending(r@),
{
    let mut out: Vec<Prediction> = Vec::new();
    let mut i: usize = 0;
    while i < predictions.len()
        invariant
            i <= predictions@.len(),
            out@ == ranked(predictions@.take(i as int)),
        decreases predictions@.len() - i,
    {
        let p = predictions[i];
        let ghost before = out@;
        let mut j: usize = out.len();
        proof {
            assert(predictions@.take(i + 1).drop_last() =~= predictions@.take(i as int));
            assert(before.take(before.len() as int) =~= before);
            assert(with_prediction(before, p) =~= with_prediction(before, p) + before.skip(
                before.len() as int,
            ));
        }
        while j > 0 && out[j - 1].probability.is_below(p.probability)
            invariant
                j <= before.len(),
                out@ == before,
                with_prediction(before, p) == with_prediction(before.take(j as int), p)
                    + before.skip(j as int),
            decreases j,
        {
            proof {
                let (head, tail) = (before.take(j as int), before.skip(j as int));
                assert(head.drop_last() =~= before.take(j - 1));
                assert(with_prediction(before.take(j - 1), p).push(before[j - 1]) + tail
                    =~= with_prediction(before.take(j - 1), p) + before.skip(j - 1));
            }
            j = j - 1;
        }
        out.insert(j, p);
        assert(out@ =~= with_prediction(before, p));
        i = i + 1;
    }
    proof {
        assert(predictions@.take(i as int) =~= predictions@);
        lemma_ranked(predictions@);
        let all = out@;
        assert(all == ranked(predictions@));
        if k < all.len() {
            let cut = all.take(k as int);
            assert forall|a: int| 0 <= a < cut.len() - 1 implies !(
            #[trigger] cut[a]).probability.below(cut[a + 1].probability) by {
                assert(cut[a] == all[a] && cut[a + 1] == all[a + 1]);
            }
        }
        assert(k < all.len() ==> all.subrange(0, k as int) =~= all.take(k as int));
    }
    out.truncate(k);
    out
}

/// Predict and learn the conversation's next-turn event distribution.
///
/// The trait hides the predictor's internal state. Callers see only the
/// behavioral surface: predict and observe.
pub trait NextTurnPredictor: Send + Sync {
    /// How transitions are weighed by the [`MarkovPredictor`] that this predictor is
    /// or wraps. Any model will do where there is none.
    type Weights: WeightModel;

    /// Whether the predictor can be used.
    open spec fn ready(&self) -> bool {
        true
    }

    /// Whether `predictions` may be predicted after a context, once the predictor
    /// has been told of some more transitions, oldest first.
    open spec fn may_predict_told(
        &self,
        told: Seq<(EventId, EventId)>,
        context: Seq<EventId>,
        k: nat,
        predictions: Seq<Prediction>,
    ) -> bool {
        true
    }

    /// Whether the predictor may be this confident, once it has been told of some
    /// more transitions, oldest first.
    open spec fn may_trust_told(&self, told: Seq<(EventId, EventId)>, c: Fraction) -> bool {
        c == (Fraction { num: 1, den: 1 })
    }

    /// Predict the top-K most likely next events given the recent context.
    ///
    /// `context` is in chronological order (oldest first); the most recent
    /// event is the last. Predictions come in descending order of probability.
    fn predict(&self, context: &[EventId], k: usize) -> (predictions: Vec<Prediction>)
        requires
            self.ready(),
        ensures
            self.may_predict_told(Seq::empty(), context@, k as nat, predictions@),
            descending(predictions@),
            predictions@.len() <= k,
    ;

    /// Record an observed transition from `prev` to `next`. Whatever is
    /// predicted later reflects it: the predictor does from here on what it
    /// would have done once told of the transition.
    fn observe(&mut self, prev: EventId, next: EventId)
        requires
            old(self).ready(),
        ensures
            final(self).ready(),
            forall|
                more: Seq<(EventId, EventId)>,
                context: Seq<EventId>,
                k: nat,
                predictions: Seq<Prediction>,
            | #[trigger]
                final(self).may_predict_told(more, context, k, predictions) ==> old(
                    self,
                ).may_predict_told(seq![(prev, next)] + more, context, k, predictions),
            forall|more: Seq<(EventId, EventId)>, c: Fraction| #[trigger]
                final(self).may_trust_told(more, c) ==> old(self).may_trust_told(
                    seq![(prev, next)] + more,
                    c,
                ),
    ;

    /// Confidence in this predictor's current output, from zero to one.
    ///
    /// Used by wrappers to choose between predictors: below a threshold they fall
    /// back to a more general predictor. Predictors without a calibrated signal
    /// keep the default of one.
    fn confidence(&self) -> (c: Fraction)
        requires
            self.ready(),
        ensures
            c.num <= c.den,
            c.den > 0,
            self.may_trust_told(Seq::empty(), c) || c == (Fraction { num: 1, den: 1 }),
        default_ensures
            c == (Fraction { num: 1, den: 1 }),
    {
        Fraction { num: 1, den: 1 }
    }

    /// Access the underlying [`MarkovPredictor`] if this predictor is or wraps one,
    /// for example to save it. Default `None`.
    fn as_markov(&self) -> (markov: Option<&MarkovPredictor<Self::Weights>>)
        default_ensures
            markov is None,
    {
        None
    }
}

/// `after` does what `before` would have done once told of the transitions.
pub open spec fn taught<P: NextTurnPredictor + ?Sized>(
    before: &P,
    after: &P,
    told: Seq<(EventId, EventId)>,
) -> bool {
    &&& forall|
        more: Seq<(EventId, EventId)>,
        context: Seq<EventId>,
        k: nat,
        predictions: Seq<Prediction>,
    | #[trigger]
        after.may_predict_told(more, context, k, predictions) ==> before.may_predict_told(
            told + more,
            context,
            k,
            predictions,
        )
    &&& forall|more: Seq<(EventId, EventId)>, c: Fraction| #[trigger]
        after.may_trust_told(more, c) ==> before.may_trust_told(told + more, c)
}

/// A predictor that has not changed was told of nothing.
pub proof fn lemma_taught_nothing<P: NextTurnPredictor + ?Sized>(p: &P)
    ensures
        taught(p, p, Seq::empty()),
{
    assert forall|
        more: Seq<(EventId, EventId)>,
        context: Seq<EventId>,
        k: nat,
        predictions: Seq<Prediction>,
    | #[trigger] p.may_predict_told(more, context, k, predictions) implies p.may_predict_told(
        Seq::empty() + more,
        context,
        k,
        predictions,
    ) by {
        assert(Seq::empty() + more =~= more);
    }
    assert forall|more: Seq<(EventId, EventId)>, c: Fraction| #[trigger]
        p.may_trust_told(more, c) implies p.may_trust_told(Seq::empty() + more, c) by {
        assert(Seq::empty() + more =~= more);
    }
}

/// Being told of some transitions and then of others is being told of all.
pub proof fn lemma_taught_on<P: NextTurnPredictor + ?Sized>(
    a: &P,
    b: &P,
    c: &P,
    first: Seq<(EventId, EventId)>,
    later: Seq<(EventId, EventId)>,
)
    requires
        taught(a, b, first),
        taught(b, c, later),
    ensures
        taught(a, c, first + later),
{
    assert forall|
        more: Seq<(EventId, EventId)>,
        context: Seq<EventId>,
        k: nat,
        predictions: Seq<Prediction>,
    | #[trigger] c.may_predict_told(more, context, k, predictions) implies a.may_predict_told(
        first + later + more,
        context,
        k,
        predictions,
    ) by {
        assert(b.may_predict_told(later + more, context, k, predictions));
        assert(first + (later + more) =~= first + later + more);
    }
    assert forall|more: Seq<(EventId, EventId)>, t: Fraction| #[trigger]
        c.may_trust_told(more, t) implies a.may_trust_told(first + later + more, t) by {
        assert(b.may_trust_told(later + more, t));
        assert(first + (later + more) =~= first + later + more);
    }
}

/// A fraction is smaller than another one of the same denominator exactly when its
/// numerator is.
pub proof fn lemma_below(a: u64, b: u64, den: u64)
    requires
        den > 0,
    ensures
        (Fraction { num: a, den }).below(Fraction { num: b, den }) <==> a < b,
{
    assert((a * den < b * den) == (a < b)) by (nonlinear_arith)
        requires
            den > 0,
    ;
}

/// Where `p` goes: before exactly those that are less likely.
proof fn lemma_with_prediction_place(s: Seq<Prediction>, p: Prediction, den: u64)
    requires
        den > 0,
        p.probability.den == den,
        forall|i: int| 0 <= i < s.len() ==> (#[trigger] s[i]).probability.den == den,
        forall|i: int, j: int|
            0 <= i < j < s.len() ==> (#[trigger] s[i]).probability.num >= (
            #[trigger] s[j]).probability.num,
    ensures
        exists|q: int|
            {
                &&& 0 <= q <= s.len()
                &&& with_prediction(s, p) == #[trigger] s.insert(q, p)
                &&& forall|i: int| 0 <= i < q ==> (#[trigger] s[i]).probability.num
                    >= p.probability.num
                &&& forall|i: int| q <= i < s.len() ==> (#[trigger] s[i]).probability.num
                    < p.probability.num
            },
    decreases s.len(),
{
    if s.len() > 0 {
        lemma_below(s.last().probability.num, p.probability.num, den);
    }
    if s.len() > 0 && s.last().probability.below(p.probability) {
        let init = s.drop_last();
        lemma_with_prediction_place(init, p, den);
        let q = choose|q: int|
            {
                &&& 0 <= q <= init.len()
                &&& with_prediction(init, p) == #[trigger] init.insert(q, p)
                &&& forall|i: int| 0 <= i < q ==> (#[trigger] init[i]).probability.num
                    >= p.probability.num
                &&& forall|i: int| q <= i < init.len() ==> (#[trigger] init[i]).probability.num
                    < p.probability.num
            };
        assert(s.insert(q, p) =~= init.insert(q, p).push(s.last()));
        assert forall|i: int| 0 <= i < q implies (#[trigger] s[i]).probability.num
            >= p.probability.num by {
            assert(init[i] == s[i]);
        }
        assert forall|i: int| q <= i < s.len() implies (#[trigger] s[i]).probability.num
            < p.probability.num by {
            if i < init.len() {
                assert(init[i] == s[i]);
            }
        }
    } else {
        assert(s.insert(s.len() as int, p) =~= s.push(p));
    }
}

/// Ranking predictions of one denominator, with events in ascending order, puts the
/// likelier one first, and the smaller event first where two are equally likely.
pub proof fn lemma_ranking(s: Seq<Prediction>, den: u64)
    requires
        den > 0,
        forall|i: int| 0 <= i < s.len() ==> (#[trigger] s[i]).probability.den == den,
        forall|i: int, j: int|
            0 <= i < j < s.len() ==> (#[trigger] s[i]).event.0 < (#[trigger] s[j]).event.0,
    ensures
        ranked(s).to_multiset() == s.to_multiset(),
        ranked(s).len() == s.len(),
        forall|i: int, j: int|
            0 <= i < j < ranked(s).len() ==> (#[trigger] ranked(s)[i]).probability.num > (
            #[trigger] ranked(s)[j]).probability.num || (ranked(s)[i].probability.num == ranked(
                s,
            )[j].probability.num && ranked(s)[i].event.0 < ranked(s)[j].event.0),
    decreases s.len(),
{
    lemma_ranked(s);
    let r = ranked(s);
    if s.len() > 0 {
        let init = s.drop_last();
        let p = s.last();
        let before = ranked(init);
        lemma_ranking(init, den);
        init.to_multiset_ensures();
        before.to_multiset_ensures();
        assert forall|i: int| 0 <= i < before.len() implies (#[trigger] before[i]).probability.den
            == den && before[i].event.0 < p.event.0 by {
            assert(before.contains(before[i]));
            assert(before.to_multiset().count(before[i]) > 0);
            assert(init.contains(before[i]));
            let j = choose|j: int| 0 <= j < init.len() && init[j] == before[i];
            assert(s[j] == before[i] && s[s.len() - 1] == p);
        }
        lemma_with_prediction_place(before, p, den);
        let q = choose|q: int|
            {
                &&& 0 <= q <= before.len()
                &&& with_prediction(before, p) == #[trigger] before.insert(q, p)
                &&& forall|i: int| 0 <= i < q ==> (#[trigger] before[i]).probability.num
                    >= p.probability.num
                &&& forall|i: int| q <= i < before.len() ==> (#[trigger] before[i]).probability.num
                    < p.probability.num
            };
        assert forall|i: int, j: int| 0 <= i < j < r.len() implies (
        #[trigger] r[i]).probability.num > (#[trigger] r[j]).probability.num || (
        r[i].probability.num == r[j].probability.num && r[i].event.0 < r[j].event.0) by {
            let a = if i < q {
                i
            } else {
                i - 1
            };
            let b = if j < q {
                j
            } else {
                j - 1
            };
            if i != q {
                assert(r[i] == before[a]);
            }
            if j != q {
                assert(r[j] == before[b]);
            }
        }
    }
}

/// A fraction is smaller than another one if its numerator is, once both are brought to
/// the same denominator.
pub proof fn lemma_fractions_compare(a: Fraction, b: Fraction)
    ensures
        a.below(b) <==> a.num * b.den < b.num * a.den,
{
}

/// A rate is the part over the whole, and zero where there is nothing.
pub proof fn lemma_rate(part: u64, whole: u64)
    ensures
        whole > 0 ==> rate_of(part, whole) == (Fraction { num: part, den: whole }),
        whole == 0 ==> rate_of(part, whole) == (Fraction { num: 0, den: 1 }),
{
}

} // verus!
