//! Streaming-partials filter.
//!
//! Speech recognition emits partial transcripts many times a second, and each
//! partial yields a candidate query signature. `StreamingQuery` lets a
//! signature through only when it has drifted far enough from the last one
//! that it let through. The drift is a Hamming distance.

use vstd::prelude::*;

use crate::predictor::{rate, rate_of, Fraction};
use crate::signature::{hamming, BinarySignature};

verus! {

#[derive(Clone, Copy, Debug)]
pub struct StreamingStats {
    pub updates_received: u64,
    pub updates_emitted: u64,
    pub updates_suppressed: u64,
}

impl StreamingStats {
    /// Share of the partials that were let through.
    pub fn emit_rate(&self) -> (r: Fraction)
        ensures
            r == rate_of(self.updates_emitted, self.updates_received),
    {
        rate(self.updates_emitted, self.updates_received)
    }
}

impl Default for StreamingStats {
    fn default() -> (stats: Self)
        ensures
            stats == (StreamingStats {
                updates_received: 0,
                updates_emitted: 0,
                updates_suppressed: 0,
            }),
    {
        StreamingStats { updates_received: 0, updates_emitted: 0, updates_suppressed: 0 }
    }
}

#[derive(Debug, Clone, Copy, PartialEq, Eq)]
pub enum EmitDecision {
    Suppressed,
    Emitted(BinarySignature),
}

/// Tracks the latest partial signature for an in-flight utterance and gates
/// downstream prefetch triggers based on how much the signature has drifted.
pub struct StreamingQuery {
    last_emitted: Option<BinarySignature>,
    current: Option<BinarySignature>,
    drift_threshold: u32,
    stats: StreamingStats,
}

/// Whether a partial is let through: always when nothing was since the start
/// of the utterance, and otherwise when it is `threshold` or more bits away
/// from what was let through last.
pub open spec fn emits(
    last_emitted: Option<BinarySignature>,
    threshold: u32,
    partial: BinarySignature,
) -> bool {
    match last_emitted {
        None => true,
        Some(prev) => hamming(prev, partial) >= threshold,
    }
}

impl StreamingQuery {
    pub closed spec fn spec_current(&self) -> Option<BinarySignature> {
        self.current
    }

    pub closed spec fn spec_last_emitted(&self) -> Option<BinarySignature> {
        self.last_emitted
    }

    pub closed spec fn drift_threshold(&self) -> u32 {
        self.drift_threshold
    }

    pub closed spec fn spec_stats(&self) -> StreamingStats {
        self.stats
    }

    /// Every update was either let through or not.
    pub open spec fn wf(&self) -> bool {
        let stats = self.spec_stats();
        stats.updates_received == stats.updates_emitted + stats.updates_suppressed
    }

    /// `drift_threshold` is the minimum Hamming distance from the previous
    /// emitted signature for a new partial to trigger a fresh emit. For 256-bit
    /// signatures, sensible values are 12-32 bits (~5-12% of the signature).
    pub fn new(drift_threshold: u32) -> (q: Self)
        ensures
            q.wf(),
            q.drift_threshold() == drift_threshold,
            q.spec_current() == None::<BinarySignature>,
            q.spec_last_emitted() == None::<BinarySignature>,
            q.spec_stats() == (StreamingStats {
                updates_received: 0,
                updates_emitted: 0,
                updates_suppressed: 0,
            }),
    {
        StreamingQuery {
            last_emitted: None,
            current: None,
            drift_threshold,
            stats: StreamingStats::default(),
        }
    }

    /// Feed a new partial signature. Returns whether a fresh prefetch should
    /// fire and, if so, the signature to scan with.
    pub fn update(&mut self, partial: BinarySignature) -> (decision: EmitDecision)
        requires
            old(self).wf(),
            old(self).spec_stats().updates_received < u64::MAX,
        ensures
            final(self).wf(),
            final(self).drift_threshold() == old(self).drift_threshold(),
            final(self).spec_current() == Some(partial),
            ({
                let before = old(self).spec_stats();
                let after = final(self).spec_stats();
                &&& after.updates_received == before.updates_received + 1
                &&& if emits(old(self).spec_last_emitted(), old(self).drift_threshold(), partial) {
                    &&& decision == EmitDecision::Emitted(partial)
                    &&& final(self).spec_last_emitted() == Some(partial)
                    &&& after.updates_emitted == before.updates_emitted + 1
                    &&& after.updates_suppressed == before.updates_suppressed
                } else {
                    &&& decision == EmitDecision::Suppressed
                    &&& final(self).spec_last_emitted() == old(self).spec_last_emitted()
                    &&& after.updates_emitted == before.updates_emitted
                    &&& after.updates_suppressed == before.updates_suppressed + 1
                }
            }),
    {
        self.stats.updates_received = self.stats.updates_received + 1;
        self.current = Some(partial);
        let should_emit = match self.last_emitted {
            None => true,
            Some(prev) => prev.hamming_distance(&partial) >= self.drift_threshold,
        };
        if should_emit {
            self.last_emitted = Some(partial);
            self.stats.updates_emitted = self.stats.updates_emitted + 1;
            EmitDecision::Emitted(partial)
        } else {
            self.stats.updates_suppressed = self.stats.updates_suppressed + 1;
            EmitDecision::Suppressed
        }
    }

    /// Reset state at end of utterance. Call when the transcript is final: the
    /// next utterance starts with a fresh emit.
    pub fn reset(&mut self)
        ensures
            final(self).wf() == old(self).wf(),
            final(self).drift_threshold() == old(self).drift_threshold(),
            final(self).spec_current() == None::<BinarySignature>,
            final(self).spec_last_emitted() == None::<BinarySignature>,
            final(self).spec_stats() == old(self).spec_stats(),
    {
        self.last_emitted = None;
        self.current = None;
    }

    pub fn current(&self) -> (sig: Option<BinarySignature>)
        ensures
            sig == self.spec_current(),
    {
        self.current
    }

    pub fn last_emitted(&self) -> (sig: Option<BinarySignature>)
        ensures
            sig == self.spec_last_emitted(),
    {
        self.last_emitted
    }

    pub fn stats(&self) -> (stats: StreamingStats)
        ensures
            stats == self.spec_stats(),
    {
        self.stats
    }
}

/// The first partial of an utterance is let through, whatever it is and
/// whatever the threshold.
pub proof fn lemma_first_partial_emits(threshold: u32, partial: BinarySignature)
    ensures
        emits(None, threshold, partial),
{
}

/// A later partial is let through exactly when it differs from the last one that was
/// in at least as many bits as the threshold says.
pub proof fn lemma_drifted_partial_emits(
    last: BinarySignature,
    threshold: u32,
    partial: BinarySignature,
)
    ensures
        emits(Some(last), threshold, partial) <==> hamming(last, partial) >= threshold,
{
}

} // verus!
