//! Retries with exponential backoff and full jitter.
//!
//! Each class of operations has its own policy; traffic in real time is never
//! retried.
use rand::rngs::StdRng;
use vstd::arithmetic::power2::{lemma2_to64, pow2};
use vstd::prelude::*;

use crate::dice::{draw_below, drawn_below};

verus! {

/// How many times the delay doubles at most.
pub const MOST_DOUBLINGS: u32 = 20;

#[derive(Clone, Copy, Debug, PartialEq, Eq, Structural)]
pub enum RetryClass {
    /// Diagnostics: dropped readily.
    Telemetry,
    /// Configuration of the control plane.
    Config,
    /// Authentication and the start of sessions.
    Auth,
    /// Forwarding in real time: no retries.
    Dataplane,
}

impl RetryClass {
    pub open spec fn attempts(self) -> u32 {
        match self {
            RetryClass::Telemetry => 2,
            RetryClass::Config => 6,
            RetryClass::Auth => 4,
            RetryClass::Dataplane => 1,
        }
    }

    pub open spec fn base(self) -> u64 {
        match self {
            RetryClass::Telemetry => 250,
            RetryClass::Config => 500,
            RetryClass::Auth => 1_000,
            RetryClass::Dataplane => 0,
        }
    }

    pub open spec fn cap(self) -> u64 {
        match self {
            RetryClass::Telemetry => 2_000,
            RetryClass::Config => 15_000,
            RetryClass::Auth => 8_000,
            RetryClass::Dataplane => 0,
        }
    }

    /// After how many attempts to stop.
    pub fn max_attempts(self) -> (r: u32)
        ensures
            r == self.attempts(),
    {
        match self {
            RetryClass::Telemetry => 2,
            RetryClass::Config => 6,
            RetryClass::Auth => 4,
            RetryClass::Dataplane => 1,
        }
    }

    pub fn base_delay_ms(self) -> (r: u64)
        ensures
            r == self.base(),
    {
        match self {
            RetryClass::Telemetry => 250,
            RetryClass::Config => 500,
            RetryClass::Auth => 1_000,
            RetryClass::Dataplane => 0,
        }
    }

    pub fn cap_ms(self) -> (r: u64)
        ensures
            r == self.cap(),
    {
        match self {
            RetryClass::Telemetry => 2_000,
            RetryClass::Config => 15_000,
            RetryClass::Auth => 8_000,
            RetryClass::Dataplane => 0,
        }
    }
}

/// `base * 2^attempt`, with twenty doublings at most, and the cap at most.
pub open spec fn ceiling(base_ms: u64, cap_ms: u64, attempt: u32) -> u64 {
    let doublings = if attempt < MOST_DOUBLINGS {
        attempt as nat
    } else {
        MOST_DOUBLINGS as nat
    };
    let grown = base_ms * pow2(doublings);
    if grown < cap_ms {
        grown as u64
    } else {
        cap_ms
    }
}

fn grown_delay(base_ms: u64, cap_ms: u64, attempt: u32) -> (r: u64)
    ensures
        r == ceiling(base_ms, cap_ms, attempt),
{
    let doublings: u32 = if attempt < MOST_DOUBLINGS {
        attempt
    } else {
        MOST_DOUBLINGS
    };
    let mut factor: u64 = 1;
    let mut i: u32 = 0;
    proof {
        lemma2_to64();
    }
    while i < doublings
        invariant
            i <= doublings <= 20,
            factor == pow2(i as nat),
            factor <= 0x10_0000,
        decreases doublings - i,
    {
        proof {
            vstd::arithmetic::power2::lemma_pow2_unfold((i + 1) as nat);
            lemma2_to64();
            if i + 1 < 20 {
                vstd::arithmetic::power2::lemma_pow2_strictly_increases((i + 1) as nat, 20);
            }
        }
        factor = factor * 2;
        i = i + 1;
    }
    match base_ms.checked_mul(factor) {
        Some(grown) => if grown < cap_ms {
            grown
        } else {
            cap_ms
        },
        None => cap_ms,
    }
}

/// Below what a delay is drawn, where one is drawn.
pub open spec fn range_of(base_ms: u64, cap_ms: u64, attempt: u32) -> Option<u64> {
    if attempt == 0 || base_ms == 0 || ceiling(base_ms, cap_ms, attempt) <= 1 {
        None
    } else {
        Some(ceiling(base_ms, cap_ms, attempt))
    }
}

/// The end of the range from zero that the delay is drawn from: `None` before
/// the first retry, and where there is nothing to draw from.
pub fn draw_range(base_ms: u64, cap_ms: u64, attempt: u32) -> (r: Option<u64>)
    ensures
        r == range_of(base_ms, cap_ms, attempt),
{
    if attempt == 0 || base_ms == 0 {
        return None;
    }
    let ceiling_ms: u64 = grown_delay(base_ms, cap_ms, attempt);
    if ceiling_ms <= 1 {
        return None;
    }
    Some(ceiling_ms)
}

/// Whether the delay is one that a draw may give.
pub open spec fn may_be_drawn(range: Option<u64>, delay: u64) -> bool {
    match range {
        Some(end) => delay < end,
        None => delay == 0,
    }
}

/// Whether the delay is drawn from the range, and nothing where there is none.
pub open spec fn is_drawn_from(range: Option<u64>, delay: u64) -> bool {
    match range {
        Some(end) => drawn_below(end, delay),
        None => delay == 0,
    }
}

/// A random delay below `min(cap, base * 2^attempt)`, in milliseconds; none
/// before the first retry. Which one is left to the generator.
pub fn full_jitter_backoff(rng: &mut StdRng, base_ms: u64, cap_ms: u64, attempt: u32) -> (r: u64)
    ensures
        may_be_drawn(range_of(base_ms, cap_ms, attempt), r),
        is_drawn_from(range_of(base_ms, cap_ms, attempt), r),
{
    match draw_range(base_ms, cap_ms, attempt) {
        Some(end) => draw_below(rng, end),
        None => 0,
    }
}

pub open spec fn bound_of(base_ms: u64, cap_ms: u64, attempt: u32) -> u64 {
    if attempt == 0 {
        0
    } else {
        ceiling(base_ms, cap_ms, attempt)
    }
}

/// The bound on the delay of an attempt.
pub fn backoff_upper_bound_ms(base_ms: u64, cap_ms: u64, attempt: u32) -> (r: u64)
    ensures
        r == bound_of(base_ms, cap_ms, attempt),
{
    if attempt == 0 {
        return 0;
    }
    grown_delay(base_ms, cap_ms, attempt)
}

/// Whether the class allows the attempt.
pub open spec fn retries(class: RetryClass, attempt: u32) -> bool {
    attempt < class.attempts() && class != RetryClass::Dataplane
}

/// The delay before the attempt, counted from zero, or `None` where the class
/// allows no more of them.
pub fn next_retry_delay(rng: &mut StdRng, class: RetryClass, attempt: u32) -> (r: Option<u64>)
    ensures
        (match r {
            Some(delay) => {
                &&& retries(class, attempt)
                &&& may_be_drawn(range_of(class.base(), class.cap(), attempt), delay)
                &&& is_drawn_from(range_of(class.base(), class.cap(), attempt), delay)
            },
            None => !retries(class, attempt),
        }),
{
    if attempt >= class.max_attempts() {
        return None;
    }
    if class == RetryClass::Dataplane {
        return None;
    }
    Some(full_jitter_backoff(rng, class.base_delay_ms(), class.cap_ms(), attempt))
}

/// Whatever is drawn, a delay never exceeds the cap, nor the base doubled at
/// each attempt.
pub proof fn law_delay_is_capped(base_ms: u64, cap_ms: u64, attempt: u32, delay: u64)
    requires
        may_be_drawn(range_of(base_ms, cap_ms, attempt), delay),
    ensures
        delay <= cap_ms,
        delay <= base_ms * pow2(attempt as nat),
{
    let most = pow2(MOST_DOUBLINGS as nat);
    if attempt > MOST_DOUBLINGS {
        vstd::arithmetic::power2::lemma_pow2_strictly_increases(
            MOST_DOUBLINGS as nat,
            attempt as nat,
        );
    }
    assert(base_ms * most <= base_ms * pow2(attempt as nat) || attempt < MOST_DOUBLINGS)
        by (nonlinear_arith)
        requires
            most <= pow2(attempt as nat) || attempt < MOST_DOUBLINGS,
            base_ms >= 0,
    ;
}

/// Traffic in real time is never retried, and no class retries forever.
pub proof fn law_retries_end(class: RetryClass, attempt: u32)
    ensures
        !retries(RetryClass::Dataplane, attempt),
        attempt >= 6 ==> !retries(class, attempt),
{
}

/// The bound on the delay never falls as attempts go on, and every delay that
/// may be drawn keeps to it.
pub proof fn law_bound_never_falls(
    base_ms: u64,
    cap_ms: u64,
    attempt: u32,
    later: u32,
    delay: u64,
)
    requires
        attempt <= later,
        may_be_drawn(range_of(base_ms, cap_ms, attempt), delay),
    ensures
        bound_of(base_ms, cap_ms, attempt) <= bound_of(base_ms, cap_ms, later) <= cap_ms,
        delay <= bound_of(base_ms, cap_ms, later),
{
    let few = if attempt < MOST_DOUBLINGS {
        attempt as nat
    } else {
        MOST_DOUBLINGS as nat
    };
    let more = if later < MOST_DOUBLINGS {
        later as nat
    } else {
        MOST_DOUBLINGS as nat
    };
    if few < more {
        vstd::arithmetic::power2::lemma_pow2_strictly_increases(few, more);
    }
    assert(0 <= base_ms * pow2(few) <= base_ms * pow2(more)) by (nonlinear_arith)
        requires
            0 <= pow2(few) <= pow2(more),
            base_ms >= 0,
    ;
}

/// The bound starts at twice the base and doubles with each attempt, up to the
/// cap; before the first retry there is none. After twenty doublings it stays.
pub proof fn law_bound_doubles(base_ms: u64, cap_ms: u64, attempt: u32)
    requires
        1 <= attempt < u32::MAX,
    ensures
        bound_of(base_ms, cap_ms, 0) == 0,
        bound_of(base_ms, cap_ms, 1) == (if 2 * base_ms < cap_ms {
            2 * base_ms
        } else {
            cap_ms as int
        }),
        attempt < 20 ==> bound_of(base_ms, cap_ms, (attempt + 1) as u32) == (if 2 * bound_of(
            base_ms,
            cap_ms,
            attempt,
        ) < cap_ms {
            2 * bound_of(base_ms, cap_ms, attempt)
        } else {
            cap_ms as int
        }),
        attempt >= 20 ==> bound_of(base_ms, cap_ms, (attempt + 1) as u32) == bound_of(
            base_ms,
            cap_ms,
            20,
        ),
{
    lemma2_to64();
    assert(pow2(1) == 2 && base_ms * pow2(1) == 2 * base_ms);
    if attempt < 20 {
        vstd::arithmetic::power2::lemma_pow2_unfold((attempt + 1) as nat);
        let p = pow2(attempt as nat);
        assert(base_ms * (2 * p) == 2 * (base_ms * p)) by (nonlinear_arith);
    }
}

/// A delay is drawn from the whole range below the bound, wherever that leaves
/// a choice.
pub proof fn law_draws_use_the_whole_bound(base_ms: u64, cap_ms: u64, attempt: u32, delay: u64)
    requires
        base_ms > 0,
        bound_of(base_ms, cap_ms, attempt) > 1,
    ensures
        may_be_drawn(range_of(base_ms, cap_ms, attempt), delay) <==> delay < bound_of(
            base_ms,
            cap_ms,
            attempt,
        ),
{
}

/// Telemetry is tried twice, the start of a session four times and
/// configuration six times, each with its own first delay and cap.
pub proof fn law_classes_have_their_own_patience(attempt: u32)
    ensures
        retries(RetryClass::Telemetry, attempt) <==> attempt < 2,
        retries(RetryClass::Auth, attempt) <==> attempt < 4,
        retries(RetryClass::Config, attempt) <==> attempt < 6,
        bound_of(RetryClass::Telemetry.base(), RetryClass::Telemetry.cap(), attempt) <= 2_000,
        bound_of(RetryClass::Auth.base(), RetryClass::Auth.cap(), attempt) <= 8_000,
        bound_of(RetryClass::Config.base(), RetryClass::Config.cap(), attempt) <= 15_000,
        attempt == 1 ==> bound_of(RetryClass::Telemetry.base(), RetryClass::Telemetry.cap(), attempt)
            == 500,
        attempt == 1 ==> bound_of(RetryClass::Config.base(), RetryClass::Config.cap(), attempt)
            == 1_000,
        attempt == 1 ==> bound_of(RetryClass::Auth.base(), RetryClass::Auth.cap(), attempt)
            == 2_000,
        attempt >= 5 ==> bound_of(RetryClass::Telemetry.base(), RetryClass::Telemetry.cap(), attempt)
            == 2_000 && bound_of(RetryClass::Auth.base(), RetryClass::Auth.cap(), attempt) == 8_000
            && bound_of(RetryClass::Config.base(), RetryClass::Config.cap(), attempt) == 15_000,
{
    lemma2_to64();
    let doublings = if attempt < MOST_DOUBLINGS {
        attempt as nat
    } else {
        MOST_DOUBLINGS as nat
    };
    if doublings > 5 {
        vstd::arithmetic::power2::lemma_pow2_strictly_increases(5, doublings);
    }
}

} // verus!
