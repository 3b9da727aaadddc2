//! Health of one transport.
//!
//! HEALTHY, DEGRADED, FAILING, FAILED, and RECOVERING as the way back. Only
//! failures in a row lead downwards, never a single lost packet.
use vstd::prelude::*;

use crate::model::TransportKind;

verus! {

#[derive(Clone, Copy, Debug, PartialEq, Eq, Structural)]
pub enum TransportHealth {
    Healthy,
    Degraded,
    Failing,
    Failed,
    Recovering,
}

impl TransportHealth {
    pub open spec fn label(self) -> Seq<char> {
        match self {
            TransportHealth::Healthy => "HEALTHY"@,
            TransportHealth::Degraded => "DEGRADED"@,
            TransportHealth::Failing => "FAILING"@,
            TransportHealth::Failed => "FAILED"@,
            TransportHealth::Recovering => "RECOVERING"@,
        }
    }

    pub fn as_str(self) -> (r: &'static str)
        ensures
            r@ == self.label(),
    {
        match self {
            TransportHealth::Healthy => "HEALTHY",
            TransportHealth::Degraded => "DEGRADED",
            TransportHealth::Failing => "FAILING",
            TransportHealth::Failed => "FAILED",
            TransportHealth::Recovering => "RECOVERING",
        }
    }
}

#[derive(Clone, Copy, Debug, PartialEq, Eq, Structural)]
pub struct StateConfig {
    /// Failures in a row at which a healthy transport is degraded.
    pub degraded_after_failures: u32,
    /// Failures in a row at which a degraded transport is failing.
    pub failing_after_failures: u32,
    /// Failures in a row at which a failing transport has failed.
    pub failed_after_failures: u32,
    /// Successes that take a recovering transport back to healthy.
    pub recover_after_successes: u32,
    /// Timeouts in a row that count as failures.
    pub timeout_failure_count: u32,
}

impl Default for StateConfig {
    fn default() -> (r: Self)
        ensures
            r == default_state_config(),
    {
        StateConfig {
            degraded_after_failures: 2,
            failing_after_failures: 3,
            failed_after_failures: 5,
            recover_after_successes: 2,
            timeout_failure_count: 3,
        }
    }
}

pub open spec fn default_state_config() -> StateConfig {
    StateConfig {
        degraded_after_failures: 2,
        failing_after_failures: 3,
        failed_after_failures: 5,
        recover_after_successes: 2,
        timeout_failure_count: 3,
    }
}

#[derive(Clone, Copy, Debug, PartialEq, Eq, Structural)]
pub struct TransportStateMachine {
    pub transport: TransportKind,
    pub cfg: StateConfig,
    pub state: TransportHealth,
    pub consecutive_failures: u32,
    pub consecutive_successes: u32,
    pub stale_packets_dropped: u64,
}

impl TransportStateMachine {
    pub open spec fn fresh(transport: TransportKind, cfg: StateConfig) -> TransportStateMachine {
        TransportStateMachine {
            transport,
            cfg,
            state: TransportHealth::Healthy,
            consecutive_failures: 0,
            consecutive_successes: 0,
            stale_packets_dropped: 0,
        }
    }

    /// Where `failures` in a row lead from the present health: one step at
    /// most, and only past the threshold of that step.
    pub open spec fn health_after(self, failures: int) -> TransportHealth {
        if self.state == TransportHealth::Healthy && failures >= self.cfg.degraded_after_failures {
            TransportHealth::Degraded
        } else if self.state == TransportHealth::Degraded && failures
            >= self.cfg.failing_after_failures {
            TransportHealth::Failing
        } else if self.state == TransportHealth::Failing && failures
            >= self.cfg.failed_after_failures {
            TransportHealth::Failed
        } else {
            self.state
        }
    }

    pub open spec fn after_failure(self) -> TransportStateMachine {
        TransportStateMachine {
            consecutive_successes: 0,
            consecutive_failures: (self.consecutive_failures + 1) as u32,
            state: self.health_after(self.consecutive_failures + 1),
            ..self
        }
    }

    /// The machine after `n` failures in a row.
    pub open spec fn after_failures(self, n: nat) -> TransportStateMachine
        decreases n,
    {
        if n == 0 {
            self
        } else {
            self.after_failures((n - 1) as nat).after_failure()
        }
    }

    /// Whether the way up takes several successes from here.
    pub open spec fn climbing(self) -> bool {
        self.state == TransportHealth::Recovering || self.state == TransportHealth::Failed
    }

    /// Whether a success can be counted.
    pub open spec fn counts_success(self) -> bool {
        self.climbing() ==> self.consecutive_successes < u32::MAX
    }

    pub open spec fn after_success(self) -> TransportStateMachine {
        if self.climbing() && self.consecutive_successes + 1 < self.cfg.recover_after_successes {
            TransportStateMachine {
                consecutive_failures: 0,
                consecutive_successes: (self.consecutive_successes + 1) as u32,
                state: TransportHealth::Recovering,
                ..self
            }
        } else {
            TransportStateMachine {
                consecutive_failures: 0,
                consecutive_successes: 0,
                state: TransportHealth::Healthy,
                ..self
            }
        }
    }

    pub open spec fn recovering(self) -> TransportStateMachine {
        TransportStateMachine {
            state: TransportHealth::Recovering,
            consecutive_failures: 0,
            consecutive_successes: 0,
            ..self
        }
    }

    pub open spec fn usable(self) -> bool {
        self.state != TransportHealth::Failed
    }

    pub fn new(transport: TransportKind, cfg: StateConfig) -> (r: Self)
        ensures
            r == Self::fresh(transport, cfg),
    {
        TransportStateMachine {
            transport,
            cfg,
            state: TransportHealth::Healthy,
            consecutive_failures: 0,
            consecutive_successes: 0,
            stale_packets_dropped: 0,
        }
    }

    /// Records one failure: a timeout, a handshake error, a loss spike.
    pub fn record_failure(&mut self)
        requires
            old(self).consecutive_failures < u32::MAX,
        ensures
            *final(self) == old(self).after_failure(),
    {
        self.consecutive_successes = 0;
        self.consecutive_failures = self.consecutive_failures + 1;
        self.apply_failure_window();
    }

    fn apply_failure_window(&mut self)
        ensures
            *final(self) == (TransportStateMachine {
                state: old(self).health_after(old(self).consecutive_failures as int),
                ..*old(self)
            }),
    {
        let f: u32 = self.consecutive_failures;
        match self.state {
            TransportHealth::Healthy => {
                if f >= self.cfg.degraded_after_failures {
                    self.state = TransportHealth::Degraded;
                }
            },
            TransportHealth::Degraded => {
                if f >= self.cfg.failing_after_failures {
                    self.state = TransportHealth::Failing;
                }
            },
            TransportHealth::Failing => {
                if f >= self.cfg.failed_after_failures {
                    self.state = TransportHealth::Failed;
                }
            },
            _ => {},
        }
    }

    pub fn record_success(&mut self)
        requires
            old(self).counts_success(),
        ensures
            *final(self) == old(self).after_success(),
    {
        self.consecutive_failures = 0;
        match self.state {
            TransportHealth::Recovering | TransportHealth::Failed => {
                self.consecutive_successes = self.consecutive_successes + 1;
                if self.consecutive_successes >= self.cfg.recover_after_successes {
                    self.state = TransportHealth::Healthy;
                    self.consecutive_successes = 0;
                } else {
                    self.state = TransportHealth::Recovering;
                }
            },
            _ => {
                self.consecutive_successes = 0;
                self.state = TransportHealth::Healthy;
            },
        }
    }

    /// Starts the way back after a reconnection or migration succeeded.
    pub fn begin_recovery(&mut self)
        ensures
            *final(self) == old(self).recovering(),
    {
        self.state = TransportHealth::Recovering;
        self.consecutive_failures = 0;
        self.consecutive_successes = 0;
    }

    pub fn is_usable(&self) -> (r: bool)
        ensures
            r == self.usable(),
    {
        !matches!(self.state, TransportHealth::Failed)
    }
}

/// A single failure never makes a transport unusable that was healthy or
/// degraded, and never touches a healthy one that tolerates a failure.
pub proof fn law_single_failure_never_fails(m: TransportStateMachine)
    requires
        m.state == TransportHealth::Healthy || m.state == TransportHealth::Degraded,
    ensures
        m.after_failure().usable(),
        m.state == TransportHealth::Healthy && m.consecutive_failures + 1
            < m.cfg.degraded_after_failures ==> m.after_failure().state == m.state,
{
}

/// With thresholds in ascending order, failures in a row lead a fresh
/// transport through every health in turn, each at its threshold.
pub proof fn law_failures_descend(transport: TransportKind, cfg: StateConfig, n: nat)
    requires
        0 < cfg.degraded_after_failures < cfg.failing_after_failures < cfg.failed_after_failures,
        n < u32::MAX,
    ensures
        ({
            let m = TransportStateMachine::fresh(transport, cfg).after_failures(n);
            &&& m.consecutive_failures == n
            &&& m.cfg == cfg
            &&& m.state == (if n < cfg.degraded_after_failures {
                TransportHealth::Healthy
            } else if n < cfg.failing_after_failures {
                TransportHealth::Degraded
            } else if n < cfg.failed_after_failures {
                TransportHealth::Failing
            } else {
                TransportHealth::Failed
            })
        }),
    decreases n,
{
    if n > 0 {
        law_failures_descend(transport, cfg, (n - 1) as nat);
    }
}

/// A failed transport is not healthy again before the configured number of
/// successes.
pub proof fn law_recovery_takes_successes(m: TransportStateMachine)
    requires
        m.cfg.recover_after_successes >= 2,
    ensures
        m.recovering().after_success().state == (TransportHealth::Recovering),
        m.cfg.recover_after_successes == 2 ==> m.recovering().after_success().after_success().state
            == TransportHealth::Healthy,
{
}

/// The machine after `n` successes in a row.
pub open spec fn after_successes(m: TransportStateMachine, n: nat) -> TransportStateMachine
    decreases n,
{
    if n == 0 {
        m
    } else {
        after_successes(m, (n - 1) as nat).after_success()
    }
}

/// A transport that has failed, or recovers from the start, is healthy again
/// after the configured number of successes in a row, and after no fewer.
pub proof fn law_way_up_takes_its_successes(m: TransportStateMachine, n: nat)
    requires
        m.state == TransportHealth::Failed || m.state == TransportHealth::Recovering,
        m.consecutive_successes == 0,
        0 < n <= m.cfg.recover_after_successes,
    ensures
        n < m.cfg.recover_after_successes ==> after_successes(m, n).state
            == TransportHealth::Recovering && after_successes(m, n).consecutive_successes == n,
        n == m.cfg.recover_after_successes ==> after_successes(m, n).state
            == TransportHealth::Healthy && after_successes(m, n).consecutive_successes == 0,
        after_successes(m, n).consecutive_failures == 0,
        after_successes(m, n).transport == m.transport,
        after_successes(m, n).cfg == m.cfg,
    decreases n,
{
    if n > 1 {
        law_way_up_takes_its_successes(m, (n - 1) as nat);
    } else {
        assert(after_successes(m, 0) == m);
    }
}

/// Short of failure, one success makes a transport healthy, and its failures
/// count from the start again.
pub proof fn law_success_heals_what_has_not_failed(m: TransportStateMachine)
    requires
        m.state == TransportHealth::Healthy || m.state == TransportHealth::Degraded || m.state
            == TransportHealth::Failing,
    ensures
        m.after_success().state == TransportHealth::Healthy,
        m.after_success().consecutive_failures == 0,
        m.after_success().transport == m.transport,
        m.after_success().cfg == m.cfg,
        m.after_success().stale_packets_dropped == m.stale_packets_dropped,
{
}

/// A failure ends a run of successes, counts one more failure, and leads down
/// one step at most: a transport that has failed stays so, and one that
/// recovers goes on recovering.
pub proof fn law_failure_counts(m: TransportStateMachine)
    requires
        m.consecutive_failures < u32::MAX,
    ensures
        m.after_failure().consecutive_failures == m.consecutive_failures + 1,
        m.after_failure().consecutive_successes == 0,
        m.state == TransportHealth::Failed ==> m.after_failure().state == TransportHealth::Failed,
        m.state == TransportHealth::Recovering ==> m.after_failure().state
            == TransportHealth::Recovering,
        m.state == TransportHealth::Healthy && m.consecutive_failures + 1
            >= m.cfg.degraded_after_failures ==> m.after_failure().state
            == TransportHealth::Degraded,
        m.state == TransportHealth::Degraded ==> m.after_failure().state == (
        if m.consecutive_failures + 1 >= m.cfg.failing_after_failures {
            TransportHealth::Failing
        } else {
            TransportHealth::Degraded
        }),
        m.state == TransportHealth::Failing ==> m.after_failure().state == (
        if m.consecutive_failures + 1 >= m.cfg.failed_after_failures {
            TransportHealth::Failed
        } else {
            TransportHealth::Failing
        }),
        m.after_failure().transport == m.transport,
        m.after_failure().cfg == m.cfg,
{
}

/// Only a transport that has failed cannot be used, and recovery makes it
/// usable at once.
pub proof fn law_only_failed_is_unusable(m: TransportStateMachine)
    ensures
        !m.usable() <==> m.state == TransportHealth::Failed,
        m.recovering().usable(),
        m.recovering().state == TransportHealth::Recovering,
        m.recovering().consecutive_failures == 0,
        m.recovering().consecutive_successes == 0,
{
}

} // verus!
