//! The pathologies that a simulated network has.
use vstd::prelude::*;

use crate::reading::{Reading, ONE, SIGN, ZERO};

verus! {

/// 30.0 ms
pub const BASE_LATENCY_MS: u64 = 0x403e_0000_0000_0000;

/// When the connection as a whole fails.
#[derive(Clone, Copy, Debug, PartialEq)]
pub enum FailureMode {
    /// It does not.
    Steady,
    /// At every so-manieth packet, the connection is reset.
    ResetEveryPackets(u64),
    /// It goes down with the given probability, for a random while.
    Intermittent { down_ratio: Reading, mean_down_ms: u64 },
}

#[derive(Clone, Copy, Debug, PartialEq)]
pub struct ChaosProfile {
    /// Latency added to every packet, in milliseconds.
    pub latency_ms: Reading,
    /// How far the latency varies, in milliseconds.
    pub jitter_ms: Reading,
    /// The probability that a packet is dropped.
    pub loss_ratio: Reading,
    /// The probability that a packet is held back.
    pub reorder_ratio: Reading,
    /// Bits per second, or zero for no limit.
    pub bandwidth_bps: u64,
    pub failure: FailureMode,
}

/// The largest number that can be drawn around zero.
pub const LONGEST_SPAN: u64 = 0x7fdf_ffff_ffff_fffd;

/// A probability that can be drawn: positive and at most one.
pub open spec fn is_chance(p: Reading) -> bool {
    (Reading { bits: ZERO }).below(p) && (Reading { bits: ONE }).at_least(p)
}

/// Zero or less, or a probability.
pub open spec fn is_ratio(p: Reading) -> bool {
    (Reading { bits: ZERO }).below(p) ==> is_chance(p)
}

/// A positive number whose double can still be divided by a little less than
/// one.
pub open spec fn is_span(ms: Reading) -> bool {
    (Reading { bits: ZERO }).below(ms) && ms.bits <= LONGEST_SPAN
}

impl ChaosProfile {
    /// Whether all draws that the profile asks for can be made.
    pub open spec fn valid(self) -> bool {
        &&& is_ratio(self.loss_ratio)
        &&& is_ratio(self.reorder_ratio)
        &&& (Reading { bits: ZERO }).below(self.jitter_ms) ==> is_span(self.jitter_ms)
        &&& match self.failure {
            FailureMode::Intermittent { down_ratio, .. } => is_ratio(down_ratio),
            _ => true,
        }
    }

    pub open spec fn benign() -> ChaosProfile {
        ChaosProfile {
            latency_ms: Reading { bits: ZERO },
            jitter_ms: Reading { bits: ZERO },
            loss_ratio: Reading { bits: ZERO },
            reorder_ratio: Reading { bits: ZERO },
            bandwidth_bps: 0,
            failure: FailureMode::Steady,
        }
    }

    /// No impairment but the base latency.
    pub open spec fn based() -> ChaosProfile {
        ChaosProfile { latency_ms: Reading { bits: BASE_LATENCY_MS }, ..Self::benign() }
    }
}

impl Default for ChaosProfile {
    fn default() -> (r: Self)
        ensures
            r == ChaosProfile::benign(),
    {
        ChaosProfile {
            latency_ms: Reading { bits: ZERO },
            jitter_ms: Reading { bits: ZERO },
            loss_ratio: Reading { bits: ZERO },
            reorder_ratio: Reading { bits: ZERO },
            bandwidth_bps: 0,
            failure: FailureMode::Steady,
        }
    }
}

impl ChaosProfile {
    /// A perfect network at 30 ms.
    pub fn pristine() -> (r: Self)
        ensures
            r == Self::based(),
    {
        ChaosProfile { latency_ms: Reading { bits: BASE_LATENCY_MS }, ..Self::default() }
    }

    pub fn with_latency(ms: Reading) -> (r: Self)
        ensures
            r == (ChaosProfile { latency_ms: ms, ..Self::benign() }),
    {
        ChaosProfile { latency_ms: ms, ..Self::default() }
    }

    pub fn with_jitter(ms: Reading) -> (r: Self)
        ensures
            r == (ChaosProfile { jitter_ms: ms, ..Self::based() }),
    {
        ChaosProfile { jitter_ms: ms, ..Self::pristine() }
    }

    pub fn with_loss(ratio: Reading) -> (r: Self)
        ensures
            r == (ChaosProfile { loss_ratio: ratio, ..Self::based() }),
    {
        ChaosProfile { loss_ratio: ratio, ..Self::pristine() }
    }

    pub fn with_reordering(ratio: Reading) -> (r: Self)
        ensures
            r == (ChaosProfile { reorder_ratio: ratio, ..Self::based() }),
    {
        ChaosProfile { reorder_ratio: ratio, ..Self::pristine() }
    }

    pub fn with_bandwidth(bps: u64) -> (r: Self)
        ensures
            r == (ChaosProfile { bandwidth_bps: bps, ..Self::based() }),
    {
        ChaosProfile { bandwidth_bps: bps, ..Self::pristine() }
    }

    pub fn with_failure(mode: FailureMode) -> (r: Self)
        ensures
            r == (ChaosProfile { failure: mode, ..Self::based() }),
    {
        ChaosProfile { failure: mode, ..Self::pristine() }
    }
}

/// The presets can all be drawn from, as far as their own parameter can.
pub proof fn law_presets_are_valid(ratio: Reading, ms: Reading, bps: u64, n: u64)
    requires
        is_ratio(ratio),
        ms.bits <= LONGEST_SPAN,
    ensures
        ChaosProfile::benign().valid(),
        ChaosProfile::based().valid(),
        (ChaosProfile { jitter_ms: ms, ..ChaosProfile::based() }).valid(),
        (ChaosProfile { loss_ratio: ratio, ..ChaosProfile::based() }).valid(),
        (ChaosProfile { reorder_ratio: ratio, ..ChaosProfile::based() }).valid(),
        (ChaosProfile { bandwidth_bps: bps, ..ChaosProfile::based() }).valid(),
        (ChaosProfile {
            failure: FailureMode::ResetEveryPackets(n),
            ..ChaosProfile::based()
        }).valid(),
{
    assert(ms.bits < SIGN);
}

} // verus!
