//! Circuit breaker, one per edge and transport.
//!
//! CLOSED goes OPEN after repeated failures; once the cooldown has passed, one
//! trial at a time is let through (HALF_OPEN): enough successes close the
//! breaker, and any failure opens it again. Dead routes are not flooded.
use vstd::prelude::*;

use crate::TimestampMs;

verus! {

#[derive(Clone, Copy, Debug, PartialEq, Eq, Structural)]
pub enum CircuitState {
    Closed,
    /// Nothing passes before `until` (epoch milliseconds).
    Open { until: TimestampMs },
    /// A single trial is let through.
    HalfOpen,
}

impl CircuitState {
    pub open spec fn label(self) -> Seq<char> {
        match self {
            CircuitState::Closed => "CLOSED"@,
            CircuitState::Open { .. } => "OPEN"@,
            CircuitState::HalfOpen => "HALF_OPEN"@,
        }
    }

    pub fn as_str(self) -> (r: &'static str)
        ensures
            r@ == self.label(),
    {
        match self {
            CircuitState::Closed => "CLOSED",
            CircuitState::Open { .. } => "OPEN",
            CircuitState::HalfOpen => "HALF_OPEN",
        }
    }
}

#[derive(Clone, Copy, Debug, PartialEq, Eq, Structural)]
pub struct CircuitConfig {
    /// Failures in a row that open a closed breaker.
    pub failure_threshold: u32,
    /// How long the breaker stays open before a trial.
    pub open_cooldown_ms: u64,
    /// Successful trials that close the breaker again.
    pub half_open_required_successes: u32,
}

impl Default for CircuitConfig {
    fn default() -> (r: Self)
        ensures
            r.failure_threshold == 3,
            r.open_cooldown_ms == 5_000,
            r.half_open_required_successes == 2,
    {
        CircuitConfig {
            failure_threshold: 3,
            open_cooldown_ms: 5_000,
            half_open_required_successes: 2,
        }
    }
}

#[derive(Debug)]
pub struct CircuitBreaker {
    pub key: String,
    pub cfg: CircuitConfig,
    pub state: CircuitState,
    pub consecutive_failures: u32,
    pub half_open_successes: u32,
    /// Whether the trial of a half-open breaker is still without an outcome.
    pub trial_pending: bool,
    /// How often the breaker has opened.
    pub trip_count: u64,
}

#[verifier::ext_equal]
pub struct CircuitBreakerView {
    pub key: Seq<char>,
    pub cfg: CircuitConfig,
    pub state: CircuitState,
    pub consecutive_failures: u32,
    pub half_open_successes: u32,
    pub trial_pending: bool,
    pub trip_count: u64,
}

impl View for CircuitBreaker {
    type V = CircuitBreakerView;

    open spec fn view(&self) -> CircuitBreakerView {
        CircuitBreakerView {
            key: self.key@,
            cfg: self.cfg,
            state: self.state,
            consecutive_failures: self.consecutive_failures,
            half_open_successes: self.half_open_successes,
            trial_pending: self.trial_pending,
            trip_count: self.trip_count,
        }
    }
}

impl CircuitBreakerView {
    /// A closed breaker without history.
    pub open spec fn fresh(key: Seq<char>, cfg: CircuitConfig) -> CircuitBreakerView {
        CircuitBreakerView {
            key,
            cfg,
            state: CircuitState::Closed,
            consecutive_failures: 0,
            half_open_successes: 0,
            trial_pending: false,
            trip_count: 0,
        }
    }

    /// Whether a request may pass at `now`.
    pub open spec fn allows(self, now: TimestampMs) -> bool {
        match self.state {
            CircuitState::Closed => true,
            CircuitState::Open { until } => now >= until,
            CircuitState::HalfOpen => !self.trial_pending,
        }
    }

    /// The breaker after it was asked at `now`.
    pub open spec fn after_asking(self, now: TimestampMs) -> CircuitBreakerView {
        match self.state {
            CircuitState::Closed => self,
            CircuitState::Open { until } => if now >= until {
                CircuitBreakerView {
                    state: CircuitState::HalfOpen,
                    half_open_successes: 0,
                    trial_pending: true,
                    ..self
                }
            } else {
                self
            },
            CircuitState::HalfOpen => CircuitBreakerView { trial_pending: true, ..self },
        }
    }

    /// The breaker after a success: only a half-open one can close by it, and
    /// an open one stays open.
    pub open spec fn after_success(self) -> CircuitBreakerView {
        let reset = CircuitBreakerView { consecutive_failures: 0, trial_pending: false, ..self };
        if self.state != CircuitState::HalfOpen {
            CircuitBreakerView { half_open_successes: 0, ..reset }
        } else if self.half_open_successes + 1 < self.cfg.half_open_required_successes {
            CircuitBreakerView {
                half_open_successes: (self.half_open_successes + 1) as u32,
                ..reset
            }
        } else {
            CircuitBreakerView { state: CircuitState::Closed, half_open_successes: 0, ..reset }
        }
    }

    /// Whether a failure opens the breaker.
    pub open spec fn trips(self) -> bool {
        match self.state {
            CircuitState::HalfOpen => true,
            CircuitState::Closed => self.consecutive_failures + 1 >= self.cfg.failure_threshold,
            CircuitState::Open { .. } => false,
        }
    }

    pub open spec fn after_failure(self, now: TimestampMs) -> CircuitBreakerView {
        let counted = CircuitBreakerView {
            consecutive_failures: (self.consecutive_failures + 1) as u32,
            half_open_successes: 0,
            trial_pending: false,
            ..self
        };
        if self.trips() {
            CircuitBreakerView {
                trip_count: (self.trip_count + 1) as u64,
                state: CircuitState::Open { until: (now + self.cfg.open_cooldown_ms) as u64 },
                ..counted
            }
        } else {
            counted
        }
    }

    /// The breaker after failures at the given times, in order.
    pub open spec fn after_failures(self, times: Seq<TimestampMs>) -> CircuitBreakerView
        decreases times.len(),
    {
        if times.len() == 0 {
            self
        } else {
            self.after_failures(times.drop_last()).after_failure(times.last())
        }
    }

    /// Whether a success can be counted.
    pub open spec fn counts_success(self) -> bool {
        self.state == CircuitState::HalfOpen ==> self.half_open_successes < u32::MAX
    }

    /// Whether a failure at `now` can be counted, and its cooldown has an end.
    pub open spec fn counts_failure(self, now: TimestampMs) -> bool {
        &&& self.consecutive_failures < u32::MAX
        &&& self.trips() ==> self.trip_count < u64::MAX && now + self.cfg.open_cooldown_ms
            <= u64::MAX
    }
}

impl CircuitBreaker {
    pub fn new(key: &str, cfg: CircuitConfig) -> (r: Self)
        ensures
            r@ == CircuitBreakerView::fresh(key@, cfg),
    {
        CircuitBreaker {
            key: key.to_owned(),
            cfg,
            state: CircuitState::Closed,
            consecutive_failures: 0,
            half_open_successes: 0,
            trial_pending: false,
            trip_count: 0,
        }
    }

    /// Whether a request may pass at `now`. An open breaker lets nothing pass
    /// before its cooldown is over; then it turns half-open, and exactly one
    /// trial passes until its outcome is recorded.
    pub fn allow(&mut self, now: TimestampMs) -> (r: bool)
        ensures
            r == old(self)@.allows(now),
            final(self)@ == old(self)@.after_asking(now),
    {
        match self.state {
            CircuitState::Closed => true,
            CircuitState::HalfOpen => {
                let free = !self.trial_pending;
                self.trial_pending = true;
                free
            },
            CircuitState::Open { until } => {
                if now >= until {
                    self.state = CircuitState::HalfOpen;
                    self.half_open_successes = 0;
                    self.trial_pending = true;
                    true
                } else {
                    false
                }
            },
        }
    }

    /// Records a success. A half-open breaker closes after the configured
    /// number of them; otherwise the count of failures starts again, and an
    /// open breaker stays open.
    pub fn record_success(&mut self)
        requires
            old(self)@.counts_success(),
        ensures
            final(self)@ == old(self)@.after_success(),
            old(self)@.state is Open ==> final(self)@.state == old(self)@.state,
    {
        self.consecutive_failures = 0;
        self.trial_pending = false;
        match self.state {
            CircuitState::HalfOpen => {
                self.half_open_successes = self.half_open_successes + 1;
                if self.half_open_successes >= self.cfg.half_open_required_successes {
                    self.state = CircuitState::Closed;
                    self.half_open_successes = 0;
                }
            },
            _ => {
                self.half_open_successes = 0;
            },
        }
    }

    /// Records a failure. A half-open breaker opens at any failure.
    pub fn record_failure(&mut self, now: TimestampMs)
        requires
            old(self)@.counts_failure(now),
        ensures
            final(self)@ == old(self)@.after_failure(now),
    {
        self.consecutive_failures = self.consecutive_failures + 1;
        self.half_open_successes = 0;
        self.trial_pending = false;
        match self.state {
            CircuitState::HalfOpen => {
                self.trip_count = self.trip_count + 1;
                self.state = CircuitState::Open { until: now + self.cfg.open_cooldown_ms };
            },
            CircuitState::Closed => {
                if self.consecutive_failures >= self.cfg.failure_threshold {
                    self.trip_count = self.trip_count + 1;
                    self.state = CircuitState::Open { until: now + self.cfg.open_cooldown_ms };
                }
            },
            CircuitState::Open { .. } => {},
        }
    }
}

/// An open breaker lets nothing pass, and does not change, before its cooldown
/// is over.
pub proof fn law_open_blocks(b: CircuitBreakerView, until: TimestampMs, now: TimestampMs)
    requires
        b.state == (CircuitState::Open { until }),
        now < until,
    ensures
        !b.allows(now),
        b.after_asking(now) == b,
{
}

/// Once its cooldown is over, an open breaker lets exactly one trial pass:
/// every later request is refused until the outcome is recorded.
pub proof fn law_one_trial(
    b: CircuitBreakerView,
    until: TimestampMs,
    now: TimestampMs,
    later: TimestampMs,
)
    requires
        b.state == (CircuitState::Open { until }),
        now >= until,
    ensures
        b.allows(now),
        b.after_asking(now).state == CircuitState::HalfOpen,
        !b.after_asking(now).allows(later),
        b.after_asking(now).after_asking(later) == b.after_asking(now),
        b.after_asking(now).after_failure(now).state is Open,
{
}

/// An open breaker is left by its cooldown alone: neither a success nor a
/// failure closes it.
pub proof fn law_open_is_left_by_cooldown(
    b: CircuitBreakerView,
    until: TimestampMs,
    now: TimestampMs,
)
    requires
        b.state == (CircuitState::Open { until }),
    ensures
        b.after_success().state == b.state,
        b.after_failure(now).state == b.state,
        now < until ==> b.after_asking(now).state == b.state,
        now >= until ==> b.after_asking(now).state == CircuitState::HalfOpen,
{
}

/// A fresh breaker opens at the configured number of failures in a row and at
/// no earlier one, and opens once only.
pub proof fn law_trips_at_threshold(
    key: Seq<char>,
    cfg: CircuitConfig,
    times: Seq<TimestampMs>,
)
    requires
        cfg.failure_threshold > 0,
        times.len() < u32::MAX,
    ensures
        ({
            let b = CircuitBreakerView::fresh(key, cfg).after_failures(times);
            &&& b.consecutive_failures == times.len()
            &&& times.len() < cfg.failure_threshold ==> b.state == CircuitState::Closed
                && b.trip_count == 0
            &&& times.len() >= cfg.failure_threshold ==> b.state is Open && b.trip_count == 1
            &&& b.cfg == cfg
        }),
    decreases times.len(),
{
    if times.len() > 0 {
        law_trips_at_threshold(key, cfg, times.drop_last());
    }
}

/// A success takes the count of failures back to nothing, so a closed breaker
/// needs the whole number of failures again.
pub proof fn law_success_resets(b: CircuitBreakerView, now: TimestampMs)
    requires
        b.state == CircuitState::Closed,
        b.cfg.failure_threshold > 1,
    ensures
        b.after_success().consecutive_failures == 0,
        b.after_success().state == CircuitState::Closed,
        b.after_success().after_failure(now).state == CircuitState::Closed,
{
}

/// A breaker that opens stays open for its cooldown, counted from the failure,
/// and lets a trial pass from then on and not before: a closed one opens at the
/// last failure it tolerates, a half-open one at any.
pub proof fn law_trip_lasts_its_cooldown(
    b: CircuitBreakerView,
    now: TimestampMs,
    later: TimestampMs,
)
    requires
        b.state == CircuitState::HalfOpen || (b.state == CircuitState::Closed
            && b.consecutive_failures + 1 >= b.cfg.failure_threshold),
        b.consecutive_failures < u32::MAX,
        b.trip_count < u64::MAX,
        now + b.cfg.open_cooldown_ms <= u64::MAX,
    ensures
        b.after_failure(now).state == (CircuitState::Open {
            until: (now + b.cfg.open_cooldown_ms) as u64,
        }),
        b.after_failure(now).trip_count == b.trip_count + 1,
        b.after_failure(now).allows(later) <==> later >= now + b.cfg.open_cooldown_ms,
        b.after_failure(now).key == b.key,
        b.after_failure(now).cfg == b.cfg,
{
}

/// Below the threshold a closed breaker only counts, and lets everything pass.
pub proof fn law_closed_breaker_counts(
    b: CircuitBreakerView,
    now: TimestampMs,
    later: TimestampMs,
)
    requires
        b.state == CircuitState::Closed,
        b.consecutive_failures < u32::MAX,
    ensures
        b.allows(later),
        b.after_asking(later) == b,
        b.consecutive_failures + 1 < b.cfg.failure_threshold ==> {
            &&& b.after_failure(now).state == CircuitState::Closed
            &&& b.after_failure(now).consecutive_failures == b.consecutive_failures + 1
            &&& b.after_failure(now).trip_count == b.trip_count
            &&& b.after_failure(now).allows(later)
        },
{
}

/// The breaker after so many trials that succeed.
pub open spec fn after_trials(b: CircuitBreakerView, n: nat, now: TimestampMs) -> CircuitBreakerView
    decreases n,
{
    if n == 0 {
        b
    } else {
        after_trials(b, (n - 1) as nat, now).after_asking(now).after_success()
    }
}

/// An open breaker whose cooldown is over closes after the configured number
/// of trials that succeed, and after no fewer; each of them may pass. Once it
/// is closed it starts without failures.
pub proof fn law_trials_close_the_breaker(
    b: CircuitBreakerView,
    until: TimestampMs,
    n: nat,
    now: TimestampMs,
)
    requires
        b.state == (CircuitState::Open { until }),
        now >= until,
        1 <= n <= b.cfg.half_open_required_successes,
    ensures
        after_trials(b, (n - 1) as nat, now).allows(now),
        n < b.cfg.half_open_required_successes ==> {
            &&& after_trials(b, n, now).state == CircuitState::HalfOpen
            &&& after_trials(b, n, now).half_open_successes == n
            &&& !after_trials(b, n, now).trial_pending
        },
        n == b.cfg.half_open_required_successes ==> {
            &&& after_trials(b, n, now).state == CircuitState::Closed
            &&& after_trials(b, n, now).consecutive_failures == 0
            &&& after_trials(b, n, now).half_open_successes == 0
        },
        after_trials(b, n, now).trip_count == b.trip_count,
        after_trials(b, n, now).cfg == b.cfg,
    decreases n,
{
    if n > 1 {
        law_trials_close_the_breaker(b, until, (n - 1) as nat, now);
    } else {
        assert(after_trials(b, 0, now) == b);
    }
}

} // verus!
