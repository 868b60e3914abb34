//! The recent course of a conversation.

use std::collections::VecDeque;
use vstd::prelude::*;
use vstd::std_specs::iter::IteratorSpec;

use crate::clock::{Clock, Duration, Instant};

verus! {

/// Identifies an event of the catalog.
#[derive(Clone, Copy, Debug, PartialEq, Eq, Hash, PartialOrd, Ord, Structural)]
pub struct EventId(pub u32);

#[derive(Clone, Copy, Debug)]
pub struct Observation {
    pub event: EventId,
    pub at: Instant,
}

/// The observations that are left once those at the front that are older than
/// `max_age` have been dropped, up to the first that is not.
pub open spec fn fresh(
    window: Seq<Observation>,
    now: Instant,
    max_age: Duration,
) -> Seq<Observation>
    decreases window.len(),
{
    if window.len() > 0 && now.since(window[0].at) > max_age.nanos {
        fresh(window.drop_first(), now, max_age)
    } else {
        window
    }
}

/// The window after one more observation: what is stale goes, then the oldest
/// observation if the window is exactly full.
pub open spec fn observed(
    window: Seq<Observation>,
    capacity: nat,
    max_age: Duration,
    o: Observation,
) -> Seq<Observation> {
    let kept = fresh(window, o.at, max_age);
    if kept.len() == capacity && capacity > 0 {
        kept.drop_first().push(o)
    } else {
        kept.push(o)
    }
}

/// `after` is the window after an event was observed at some moment that the clock
/// shows.
pub open spec fn observed_sometime(
    clock: Clock,
    window: Seq<Observation>,
    capacity: nat,
    max_age: Duration,
    event: EventId,
    after: Seq<Observation>,
) -> bool {
    exists|at: Instant|
        clock.shows(at) && after == #[trigger] observed(
            window,
            capacity,
            max_age,
            Observation { event, at },
        )
}

/// The last `n` elements, or all when there are fewer.
pub open spec fn last_of<A>(s: Seq<A>, n: nat) -> Seq<A> {
    if s.len() <= n {
        s
    } else {
        s.skip(s.len() - n)
    }
}

/// The events of the observations.
pub open spec fn events_of(window: Seq<Observation>) -> Seq<EventId> {
    window.map_values(|o: Observation| o.event)
}

/// What is left of a window is its end.
pub proof fn lemma_fresh_suffix(window: Seq<Observation>, now: Instant, max_age: Duration)
    ensures
        fresh(window, now, max_age).len() <= window.len(),
        fresh(window, now, max_age) == window.skip(
            window.len() - fresh(window, now, max_age).len(),
        ),
    decreases window.len(),
{
    if window.len() > 0 && now.since(window[0].at) > max_age.nanos {
        lemma_fresh_suffix(window.drop_first(), now, max_age);
        let left = fresh(window, now, max_age);
        assert(left =~= window.skip(window.len() - left.len()));
    } else {
        assert(window.skip(0) =~= window);
    }
}

/// The window never grows past a capacity of at least one.
pub proof fn lemma_observed_bound(
    window: Seq<Observation>,
    capacity: nat,
    max_age: Duration,
    o: Observation,
)
    requires
        0 < capacity,
        window.len() <= capacity,
    ensures
        0 < observed(window, capacity, max_age, o).len() <= capacity,
        observed(window, capacity, max_age, o).last() == o,
{
    lemma_fresh_suffix(window, o.at, max_age);
}

/// A bounded, aging window of the events that a conversation went through.
pub struct ConversationState {
    window: VecDeque<Observation>,
    capacity: usize,
    max_age: Duration,
    clock: Clock,
}

impl View for ConversationState {
    type V = Seq<Observation>;

    closed spec fn view(&self) -> Seq<Observation> {
        self.window@
    }
}

impl ConversationState {
    /// How many observations the window is meant to hold.
    pub closed spec fn capacity(&self) -> nat {
        self.capacity as nat
    }

    /// The age past which an observation is stale.
    pub closed spec fn max_age(&self) -> Duration {
        self.max_age
    }

    /// The clock by which observations are dated.
    pub closed spec fn timer(&self) -> Clock {
        self.clock
    }

    /// A window of at least one place is not overfull.
    pub open spec fn wf(&self) -> bool {
        self.capacity() > 0 ==> self@.len() <= self.capacity()
    }

    pub fn new(capacity: usize, max_age: Duration) -> (state: Self)
        ensures
            state.wf(),
            state@ == Seq::<Observation>::empty(),
            state.capacity() == capacity,
            state.max_age() == max_age,
            state.timer().is_new(),
    {
        ConversationState { window: VecDeque::new(), capacity, max_age, clock: Clock::start() }
    }

    /// The present moment on the clock by which [`ConversationState::observe`]
    /// dates its observations.
    pub fn now(&self) -> (at: Instant)
        ensures
            self.timer().shows(at),
    {
        self.clock.now()
    }

    /// Record an event at the present moment.
    pub fn observe(&mut self, event: EventId)
        requires
            old(self).wf(),
        ensures
            final(self).wf(),
            final(self).capacity() == old(self).capacity(),
            final(self).max_age() == old(self).max_age(),
            final(self).timer() == old(self).timer(),
            observed_sometime(
                old(self).timer(),
                old(self)@,
                old(self).capacity(),
                old(self).max_age(),
                event,
                final(self)@,
            ),
            final(self)@.len() > 0,
            final(self)@.last().event == event,
            old(self).timer().shows(final(self)@.last().at),
    {
        let at = self.clock.now();
        self.observe_at(event, at);
    }

    /// Record an event at a given moment.
    pub fn observe_at(&mut self, event: EventId, at: Instant)
        requires
            old(self).wf(),
        ensures
            final(self).wf(),
            final(self).capacity() == old(self).capacity(),
            final(self).max_age() == old(self).max_age(),
            final(self).timer() == old(self).timer(),
            final(self)@ == observed(
                old(self)@,
                old(self).capacity(),
                old(self).max_age(),
                (Observation { event, at }),
            ),
    {
        proof {
            lemma_fresh_suffix(self@, at, self.max_age);
        }
        self.evict_stale(at);
        if self.window.len() == self.capacity {
            self.window.pop_front();
        }
        self.window.push_back(Observation { event, at });
        assert(self@ =~= observed(
            old(self)@,
            old(self).capacity(),
            old(self).max_age(),
            Observation { event, at },
        ));
    }

    /// Drop what is older than the maximal age at `now`, from the front up to
    /// the first observation that is not.
    pub fn evict_stale(&mut self, now: Instant)
        requires
            old(self).wf(),
        ensures
            final(self).wf(),
            final(self).capacity() == old(self).capacity(),
            final(self).max_age() == old(self).max_age(),
            final(self).timer() == old(self).timer(),
            final(self)@ == fresh(old(self)@, now, old(self).max_age()),
    {
        while self.window.len() > 0 && now.duration_since(self.window[0].at).nanos
            > self.max_age.nanos
            invariant
                self.wf(),
                self.capacity == old(self).capacity,
                self.max_age == old(self).max_age,
                self.clock == old(self).clock,
                fresh(self@, now, self.max_age) == fresh(old(self)@, now, old(self).max_age),
            decreases self@.len(),
        {
            self.window.pop_front();
        }
    }

    /// The most recent event.
    pub fn last(&self) -> (event: Option<EventId>)
        ensures
            event == if self@.len() == 0 {
                None
            } else {
                Some(self@.last().event)
            },
    {
        let n: usize = self.window.len();
        if n == 0 {
            None
        } else {
            Some(self.window[n - 1].event)
        }
    }

    /// The `n` most recent events in chronological order.
    pub fn last_n(&self, n: usize) -> (events: Vec<EventId>)
        ensures
            events@ == last_of(events_of(self@), n as nat),
    {
        let len: usize = self.window.len();
        let start: usize = if len <= n {
            0
        } else {
            len - n
        };
        let mut events: Vec<EventId> = Vec::new();
        let mut i: usize = start;
        while i < len
            invariant
                start <= i <= len,
                len == self@.len(),
                events@ == events_of(self@).subrange(start as int, i as int),
            decreases len - i,
        {
            events.push(self.window[i].event);
            i = i + 1;
            assert(events@ =~= events_of(self@).subrange(start as int, i as int));
        }
        assert(events@ =~= last_of(events_of(self@), n as nat));
        events
    }

    pub fn len(&self) -> (n: usize)
        ensures
            n == self@.len(),
    {
        self.window.len()
    }

    pub fn is_empty(&self) -> (b: bool)
        ensures
            b == (self@.len() == 0),
    {
        self.window.len() == 0
    }

    /// The observations, oldest first.
    pub fn iter(&self) -> (it: std::collections::vec_deque::Iter<'_, Observation>)
        ensures
            IteratorSpec::remaining(&it) == self@.as_ref(),
    {
        self.window.iter()
    }
}

/// What is left of a window is its end, from the first observation on that is not
/// too old. All before it are.
pub proof fn lemma_only_stale_leave(window: Seq<Observation>, now: Instant, max_age: Duration)
    ensures
        ({
            let left = fresh(window, now, max_age);
            let gone = window.len() - left.len();
            &&& 0 <= gone
            &&& left == window.skip(gone)
            &&& forall|i: int|
                0 <= i < gone ==> now.nanos > (#[trigger] window[i]).at.nanos + max_age.nanos
            &&& left.len() > 0 ==> now.nanos <= left[0].at.nanos + max_age.nanos
        }),
    decreases window.len(),
{
    lemma_fresh_suffix(window, now, max_age);
    if window.len() > 0 && now.since(window[0].at) > max_age.nanos {
        let rest = window.drop_first();
        lemma_only_stale_leave(rest, now, max_age);
        assert forall|i: int| 0 <= i < window.len() - fresh(window, now, max_age).len() implies
            now.nanos > (#[trigger] window[i]).at.nanos + max_age.nanos by {
            if i > 0 {
                assert(rest[i - 1] == window[i]);
            }
        }
    }
}

/// What a new observation makes of a window: it comes last, behind an end of the
/// window. What left are the observations that were too old, and one more where the
/// window would not have held the new one otherwise.
pub proof fn lemma_observed_last(
    window: Seq<Observation>,
    capacity: nat,
    max_age: Duration,
    o: Observation,
)
    ensures
        ({
            let after = observed(window, capacity, max_age, o);
            let gone = window.len() + 1 - after.len();
            &&& 0 <= gone <= window.len()
            &&& after == window.skip(gone).push(o)
            &&& forall|i: int|
                0 <= i < gone ==> o.at.nanos > (#[trigger] window[i]).at.nanos + max_age.nanos || (
                i == gone - 1 && window.len() - i == capacity)
            &&& gone < window.len() ==> o.at.nanos <= window[gone].at.nanos + max_age.nanos || (
            gone > 0 && o.at.nanos <= window[gone - 1].at.nanos + max_age.nanos)
            &&& 0 < capacity && window.len() <= capacity ==> after.len() <= capacity
        }),
{
    let left = fresh(window, o.at, max_age);
    let after = observed(window, capacity, max_age, o);
    let gone = window.len() + 1 - after.len();
    lemma_only_stale_leave(window, o.at, max_age);
    assert(after =~= window.skip(gone).push(o));
}

/// The last `n` of some elements, in order, or all of them.
pub proof fn lemma_last_of<A>(s: Seq<A>, n: nat)
    ensures
        last_of(s, n).len() == if s.len() <= n {
            s.len()
        } else {
            n
        },
        forall|i: int|
            0 <= i < last_of(s, n).len() ==> #[trigger] last_of(s, n)[i] == s[s.len() - last_of(
                s,
                n,
            ).len() + i],
{
}

/// The events of a window, each at the place of its observation.
pub proof fn lemma_events_of(window: Seq<Observation>)
    ensures
        events_of(window).len() == window.len(),
        forall|i: int|
            0 <= i < window.len() ==> #[trigger] events_of(window)[i] == window[i].event,
{
}

} // verus!
