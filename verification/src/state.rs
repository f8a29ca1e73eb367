//! Binary state doctrine.
//!
//! Every engine, structural zone and readout resolves to exactly one of two
//! states, `Active` or `Inactive`; there is no third variant.  What a finer
//! label would have carried is kept as a continuous score beside the state.
//! A state is resolved from a score through a `HysteresisBand`, so a score
//! that oscillates at the boundary cannot flap the state.

use crate::num::Num;
use vstd::prelude::*;

verus! {

/// The only two states any engine, zone or readout may occupy.
#[derive(Debug, Clone, Copy, PartialEq, Eq, Hash, Structural)]
pub enum BinaryState {
    /// The condition the readout measures is in force.
    Active,
    /// The condition the readout measures is not in force.
    Inactive,
}

impl Default for BinaryState {
    fn default() -> (r: BinaryState)
        ensures
            r == BinaryState::Inactive,
    {
        BinaryState::Inactive
    }
}

impl BinaryState {
    /// `true` iff the state is `Active`.
    pub fn is_active(self) -> (r: bool)
        ensures
            r == (self is Active),
    {
        match self {
            BinaryState::Active => true,
            BinaryState::Inactive => false,
        }
    }
}

/// Two-threshold band resolving a continuous score into a `BinaryState`.
///
/// A readout activates when its score reaches `activate_at` and deactivates
/// only when it falls to `deactivate_at`.  Between the two thresholds the
/// previous state holds.
#[derive(Debug, Clone, Copy, PartialEq)]
pub struct HysteresisBand {
    /// Score at or above which the state resolves to `Active`.
    pub activate_at: Num,
    /// Score at or below which the state resolves to `Inactive`.
    pub deactivate_at: Num,
}

impl HysteresisBand {
    /// Finite thresholds, not inverted.
    pub open spec fn wf(self) -> bool {
        &&& self.activate_at.finite()
        &&& self.deactivate_at.finite()
        &&& self.deactivate_at.fle(self.activate_at)
    }

    /// The state that a score resolves to.
    pub open spec fn resolved(self, score: Num, previous: BinaryState) -> BinaryState {
        if !score.finite() {
            BinaryState::Inactive
        } else if self.activate_at.fle(score) {
            BinaryState::Active
        } else if score.fle(self.deactivate_at) {
            BinaryState::Inactive
        } else {
            previous
        }
    }

    /// Builds a band; inverted or non-finite thresholds are a programming error.
    pub fn new(activate_at: Num, deactivate_at: Num) -> (r: HysteresisBand)
        requires
            activate_at.finite(),
            deactivate_at.finite(),
            deactivate_at.fle(activate_at),
        ensures
            r.wf(),
            r == (HysteresisBand { activate_at, deactivate_at }),
    {
        HysteresisBand { activate_at, deactivate_at }
    }

    /// Degenerate band with a single threshold (no hysteresis).
    pub fn strict(threshold: Num) -> (r: HysteresisBand)
        requires
            threshold.finite(),
        ensures
            r.wf(),
            r == (HysteresisBand { activate_at: threshold, deactivate_at: threshold }),
    {
        HysteresisBand::new(threshold, threshold)
    }

    /// Resolves `score` against the band given the `previous` state.
    ///
    /// A non-finite score resolves to `Inactive`: a readout whose score cannot
    /// be computed is not in force.
    pub fn resolve(&self, score: Num, previous: BinaryState) -> (r: BinaryState)
        ensures
            r == self.resolved(score, previous),
    {
        if !score.is_finite() {
            return BinaryState::Inactive;
        }
        if score >= self.activate_at {
            BinaryState::Active
        } else if score <= self.deactivate_at {
            BinaryState::Inactive
        } else {
            previous
        }
    }
}

/// A stateful readout: the binary state and the score it was resolved from.
#[derive(Debug, Clone, Copy, PartialEq)]
pub struct Readout {
    /// Resolved binary state.
    pub state: BinaryState,
    /// The continuous quantity the state was resolved from.
    pub score: Num,
}

impl Readout {
    /// The readout of a score.
    pub open spec fn resolved_from(
        band: HysteresisBand,
        score: Num,
        previous: BinaryState,
    ) -> Readout {
        Readout { state: band.resolved(score, previous), score }
    }

    /// Resolves a score through a band with no prior state (cold start).
    pub fn resolve(band: &HysteresisBand, score: Num) -> (r: Readout)
        ensures
            r == Readout::resolved_from(*band, score, BinaryState::Inactive),
    {
        Readout { state: band.resolve(score, BinaryState::Inactive), score }
    }

    /// Resolves a score through a band carrying the previous state forward.
    pub fn resolve_from(band: &HysteresisBand, score: Num, previous: BinaryState) -> (r: Readout)
        ensures
            r == Readout::resolved_from(*band, score, previous),
    {
        Readout { state: band.resolve(score, previous), score }
    }
}

/// The states of a score history resolved one score after another.
pub open spec fn resolve_history(
    band: HysteresisBand,
    scores: Seq<Num>,
    start: BinaryState,
) -> BinaryState
    decreases scores.len(),
{
    if scores.len() == 0 {
        start
    } else {
        band.resolved(scores.last(), resolve_history(band, scores.drop_last(), start))
    }
}

/// Scores strictly between the thresholds cannot flap the state: whatever
/// their number and order, the state they start from holds.
pub proof fn law_no_flap_inside_band(band: HysteresisBand, scores: Seq<Num>, start: BinaryState)
    requires
        band.wf(),
        forall|i: int|
            0 <= i < scores.len() ==> band.deactivate_at.flt(#[trigger] scores[i])
                && scores[i].flt(band.activate_at),
    ensures
        resolve_history(band, scores, start) == start,
    decreases scores.len(),
{
    if scores.len() > 0 {
        assert(scores.last() == scores[scores.len() - 1]);
        law_no_flap_inside_band(band, scores.drop_last(), start);
    }
}

/// Resolving the same score again changes nothing.
pub proof fn law_resolve_idempotent(band: HysteresisBand, score: Num, previous: BinaryState)
    ensures
        band.resolved(score, band.resolved(score, previous)) == band.resolved(score, previous),
{
}

/// A greater finite score never turns an active readout inactive.
pub proof fn law_resolve_monotone(
    band: HysteresisBand,
    low: Num,
    high: Num,
    previous: BinaryState,
)
    requires
        band.wf(),
        low.finite(),
        high.finite(),
        low.fle(high),
    ensures
        band.resolved(low, previous) is Active ==> band.resolved(high, previous) is Active,
{
}

/// Without a band in between, the state depends on the score alone.
pub proof fn law_strict_band_forgets(threshold: Num, score: Num, p: BinaryState, q: BinaryState)
    requires
        threshold.finite(),
    ensures
        ({
            let band = HysteresisBand { activate_at: threshold, deactivate_at: threshold };
            band.resolved(score, p) == band.resolved(score, q)
        }),
{
}

} // verus!
