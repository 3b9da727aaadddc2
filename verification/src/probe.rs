//! Active probing under a rate limit.
//!
//! Probes are sparse and scheduled, and their intervals follow the health of
//! the network: shorter at once when it degrades, longer step by step when it
//! is stable again.
use vstd::arithmetic::power2::{
    lemma2_to64, lemma2_to64_rest, lemma_pow2_adds, lemma_pow2_unfold, pow2,
};
use vstd::prelude::*;

use crate::double::{product, times, truncate, truncated, units, STEP, UNIT_DOUBLINGS};
use crate::health::MonitorLevel;
use crate::ratio::{count, counted, law_products_are_bounded};
use crate::reading::{Reading, HALF};
use crate::root::lemma_units_are;
use crate::search::{first_index, lemma_first_index_is};
use crate::TimestampMs;

verus! {

/// 1.15: how much an interval grows when the network is excellent.
pub const GROW_FAST: u64 = 0x3ff2_6666_6666_6666;

/// 1.05: how much an interval grows when the network is good.
pub const GROW_SLOW: u64 = 0x3ff0_cccc_cccc_cccd;

/// 0.25: what is left of an interval on a critical network.
pub const QUARTER: u64 = 0x3fd0_0000_0000_0000;

#[derive(Clone, Copy, Debug, PartialEq, Eq, Structural)]
pub enum ProbeKind {
    DnsResolution,
    TcpConnect,
    UdpProbe,
    QuicHandshake,
    TunnelHealth,
    EdgeToClientRtt,
    ApplicationEndpointRtt,
}

impl ProbeKind {
    /// The shortest gap between two probes of the kind by default.
    pub open spec fn gap(self) -> u64 {
        match self {
            ProbeKind::DnsResolution => 30_000,
            ProbeKind::TcpConnect => 30_000,
            ProbeKind::UdpProbe => 20_000,
            ProbeKind::QuicHandshake => 60_000,
            ProbeKind::TunnelHealth => 10_000,
            ProbeKind::EdgeToClientRtt => 5_000,
            ProbeKind::ApplicationEndpointRtt => 60_000,
        }
    }

    pub fn is_lightweight(self) -> (r: bool)
        ensures
            r == (self == ProbeKind::DnsResolution || self == ProbeKind::TcpConnect || self
                == ProbeKind::UdpProbe || self == ProbeKind::QuicHandshake),
    {
        matches!(
            self,
            ProbeKind::DnsResolution | ProbeKind::TcpConnect | ProbeKind::UdpProbe | ProbeKind::QuicHandshake
        )
    }

    pub fn default_min_interval_ms(self) -> (r: u64)
        ensures
            r == self.gap(),
    {
        match self {
            ProbeKind::DnsResolution => 30_000,
            ProbeKind::TcpConnect => 30_000,
            ProbeKind::UdpProbe => 20_000,
            ProbeKind::QuicHandshake => 60_000,
            ProbeKind::TunnelHealth => 10_000,
            ProbeKind::EdgeToClientRtt => 5_000,
            ProbeKind::ApplicationEndpointRtt => 60_000,
        }
    }
}

/// The rate limiter of one kind of probe.
#[derive(Clone, Copy, Debug, PartialEq, Eq)]
pub struct ProbeBudget {
    pub kind: ProbeKind,
    pub min_interval_ms: u64,
    pub last_sent_at: Option<TimestampMs>,
    pub sent: u64,
}

pub open spec fn larger(a: nat, b: nat) -> nat {
    if a > b {
        a
    } else {
        b
    }
}

pub open spec fn smaller(a: nat, b: nat) -> nat {
    if a < b {
        a
    } else {
        b
    }
}

impl ProbeBudget {
    pub open spec fn fresh(kind: ProbeKind) -> ProbeBudget {
        ProbeBudget { kind, min_interval_ms: kind.gap(), last_sent_at: None, sent: 0 }
    }

    /// Whether the interval since the last probe has passed.
    pub open spec fn allows(self, now: TimestampMs) -> bool {
        match self.last_sent_at {
            None => true,
            Some(last) => if now >= last {
                now - last >= self.min_interval_ms
            } else {
                self.min_interval_ms == 0
            },
        }
    }

    pub open spec fn after_send(self, now: TimestampMs) -> ProbeBudget {
        ProbeBudget { last_sent_at: Some(now), sent: (self.sent + 1) as u64, ..self }
    }

    pub open spec fn tightened(self, factor: Reading, floor_ms: u64) -> ProbeBudget {
        ProbeBudget {
            min_interval_ms: larger(
                truncated(product(counted(self.kind.gap()), factor)) as nat,
                floor_ms as nat,
            ) as u64,
            ..self
        }
    }

    pub open spec fn loosened(self, factor: Reading) -> ProbeBudget {
        ProbeBudget {
            min_interval_ms: smaller(
                truncated(product(counted(self.min_interval_ms), factor)) as nat,
                self.kind.gap() as nat,
            ) as u64,
            ..self
        }
    }

    /// The budget once the policy for the level is applied.
    pub open spec fn adapted(self, level: MonitorLevel) -> ProbeBudget {
        match level {
            MonitorLevel::Low => self.loosened(Reading { bits: GROW_FAST }),
            MonitorLevel::Normal => self.loosened(Reading { bits: GROW_SLOW }),
            MonitorLevel::High => self.tightened(Reading { bits: HALF }, 3_000),
            MonitorLevel::Aggressive => self.tightened(Reading { bits: QUARTER }, 1_000),
        }
    }

    pub fn new(kind: ProbeKind) -> (r: Self)
        ensures
            r == Self::fresh(kind),
    {
        ProbeBudget {
            kind,
            min_interval_ms: kind.default_min_interval_ms(),
            last_sent_at: None,
            sent: 0,
        }
    }

    /// Whether a probe may be sent at `now`.
    pub fn allow(&self, now: TimestampMs) -> (r: bool)
        ensures
            r == self.allows(now),
    {
        match self.last_sent_at {
            None => true,
            Some(last) => now.saturating_sub(last) >= self.min_interval_ms,
        }
    }

    pub fn record_send(&mut self, now: TimestampMs)
        requires
            old(self).sent < u64::MAX,
        ensures
            *final(self) == old(self).after_send(now),
    {
        self.last_sent_at = Some(now);
        self.sent = self.sent + 1;
    }

    /// Shortens the interval to a part of its default, down to the floor.
    pub fn tighten(&mut self, factor: Reading, floor_ms: u64)
        ensures
            *final(self) == old(self).tightened(factor, floor_ms),
    {
        let scaled: u64 = truncate(
            times(count(self.kind.default_min_interval_ms()), factor),
        );
        self.min_interval_ms = if scaled > floor_ms {
            scaled
        } else {
            floor_ms
        };
    }

    /// Lengthens the interval by one step, up to its default.
    pub fn loosen(&mut self, factor: Reading)
        ensures
            *final(self) == old(self).loosened(factor),
    {
        let base: u64 = self.kind.default_min_interval_ms();
        let scaled: u64 = truncate(times(count(self.min_interval_ms), factor));
        self.min_interval_ms = if scaled < base {
            scaled
        } else {
            base
        };
    }
}

/// The schedule over all kinds of probes.
#[derive(Debug)]
pub struct ProbeScheduler {
    pub budgets: Vec<ProbeBudget>,
    /// Whether probing is on at all.
    pub enabled: bool,
}

#[verifier::ext_equal]
pub struct ProbeSchedulerView {
    pub budgets: Seq<ProbeBudget>,
    pub enabled: bool,
}

impl View for ProbeScheduler {
    type V = ProbeSchedulerView;

    open spec fn view(&self) -> ProbeSchedulerView {
        ProbeSchedulerView { budgets: self.budgets@, enabled: self.enabled }
    }
}

/// The place of the first budget of the kind, or the number of budgets.
pub open spec fn budget_of(budgets: Seq<ProbeBudget>, kind: ProbeKind) -> int {
    first_index(budgets, |b: ProbeBudget| b.kind == kind)
}

impl ProbeSchedulerView {
    pub open spec fn fresh() -> ProbeSchedulerView {
        ProbeSchedulerView {
            budgets: seq![
                ProbeBudget::fresh(ProbeKind::DnsResolution),
                ProbeBudget::fresh(ProbeKind::TcpConnect),
                ProbeBudget::fresh(ProbeKind::UdpProbe),
                ProbeBudget::fresh(ProbeKind::QuicHandshake),
                ProbeBudget::fresh(ProbeKind::TunnelHealth),
                ProbeBudget::fresh(ProbeKind::EdgeToClientRtt),
                ProbeBudget::fresh(ProbeKind::ApplicationEndpointRtt),
                ProbeBudget::fresh(ProbeKind::ApplicationEndpointRtt),
            ],
            enabled: true,
        }
    }

    pub open spec fn allows(self, kind: ProbeKind, now: TimestampMs) -> bool {
        let at = budget_of(self.budgets, kind);
        self.enabled && at < self.budgets.len() && self.budgets[at].allows(now)
    }

    pub open spec fn recorded(self, kind: ProbeKind, now: TimestampMs) -> ProbeSchedulerView {
        let at = budget_of(self.budgets, kind);
        if at < self.budgets.len() {
            ProbeSchedulerView {
                budgets: self.budgets.update(at, self.budgets[at].after_send(now)),
                ..self
            }
        } else {
            self
        }
    }

    pub open spec fn adapted(self, level: MonitorLevel) -> ProbeSchedulerView {
        ProbeSchedulerView {
            budgets: Seq::new(self.budgets.len(), |i: int| self.budgets[i].adapted(level)),
            ..self
        }
    }
}

impl Default for ProbeScheduler {
    fn default() -> (r: Self)
        ensures
            r@ == ProbeSchedulerView::fresh(),
    {
        let budgets = vec![
            ProbeBudget::new(ProbeKind::DnsResolution),
            ProbeBudget::new(ProbeKind::TcpConnect),
            ProbeBudget::new(ProbeKind::UdpProbe),
            ProbeBudget::new(ProbeKind::QuicHandshake),
            ProbeBudget::new(ProbeKind::TunnelHealth),
            ProbeBudget::new(ProbeKind::EdgeToClientRtt),
            ProbeBudget::new(ProbeKind::ApplicationEndpointRtt),
            ProbeBudget::new(ProbeKind::ApplicationEndpointRtt),
        ];
        assert(budgets@ =~= ProbeSchedulerView::fresh().budgets);
        ProbeScheduler { budgets, enabled: true }
    }
}

impl ProbeScheduler {
    fn find(&self, kind: ProbeKind) -> (r: usize)
        ensures
            r == budget_of(self@.budgets, kind),
            r <= self@.budgets.len(),
    {
        let mut i: usize = 0;
        while i < self.budgets.len() && self.budgets[i].kind != kind
            invariant
                i <= self.budgets.len(),
                forall|j: int| 0 <= j < i ==> (#[trigger] self.budgets@[j]).kind != kind,
            decreases self.budgets.len() - i,
        {
            i = i + 1;
        }
        proof {
            lemma_first_index_is(self.budgets@, |b: ProbeBudget| b.kind == kind, i as int);
        }
        i
    }

    pub fn may_send(&self, kind: ProbeKind, now: TimestampMs) -> (r: bool)
        ensures
            r == self@.allows(kind, now),
    {
        if !self.enabled {
            return false;
        }
        let at: usize = self.find(kind);
        at < self.budgets.len() && self.budgets[at].allow(now)
    }

    pub fn record(&mut self, kind: ProbeKind, now: TimestampMs)
        requires
            ({
                let at = budget_of(old(self)@.budgets, kind);
                at < old(self)@.budgets.len() ==> old(self)@.budgets[at].sent < u64::MAX
            }),
        ensures
            final(self)@ == old(self)@.recorded(kind, now),
    {
        let at: usize = self.find(kind);
        if at < self.budgets.len() {
            let mut budget = self.budgets[at];
            budget.record_send(now);
            self.budgets.set(at, budget);
        }
    }

    /// Applies the policy for the level: shorter intervals at once on a
    /// degraded network, longer ones step by step on a stable one.
    pub fn apply_health(&mut self, level: MonitorLevel)
        ensures
            final(self)@ == old(self)@.adapted(level),
    {
        let mut i: usize = 0;
        while i < self.budgets.len()
            invariant
                i <= self.budgets.len(),
                self.enabled == old(self).enabled,
                self.budgets@.len() == old(self).budgets@.len(),
                forall|j: int|
                    0 <= j < i ==> self.budgets@[j] == old(self).budgets@[j].adapted(level),
                forall|j: int|
                    i <= j < self.budgets@.len() ==> self.budgets@[j] == old(self).budgets@[j],
            decreases self.budgets.len() - i,
        {
            let mut budget = self.budgets[i];
            match level {
                MonitorLevel::Low => budget.loosen(Reading { bits: GROW_FAST }),
                MonitorLevel::Normal => budget.loosen(Reading { bits: GROW_SLOW }),
                MonitorLevel::High => budget.tighten(Reading { bits: HALF }, 3_000),
                MonitorLevel::Aggressive => budget.tighten(Reading { bits: QUARTER }, 1_000),
            }
            self.budgets.set(i, budget);
            i = i + 1;
        }
        assert(self@.budgets =~= old(self)@.adapted(level).budgets);
    }
}

/// Two probes of a kind are never allowed closer together than its interval.
pub proof fn law_minimum_gap(b: ProbeBudget, sent_at: TimestampMs, now: TimestampMs)
    requires
        sent_at <= now,
    ensures
        b.after_send(sent_at).allows(now) <==> now - sent_at >= b.min_interval_ms,
{
}

/// A scheduler that is off sends nothing.
pub proof fn law_disabled_is_silent(s: ProbeSchedulerView, kind: ProbeKind, now: TimestampMs)
    requires
        !s.enabled,
    ensures
        !s.allows(kind, now),
{
}

/// Whatever the level, an interval lies between a second and the default of
/// its kind once a policy was applied to an interval that does.
pub proof fn law_intervals_stay_bounded(b: ProbeBudget, level: MonitorLevel)
    requires
        1_000 <= b.min_interval_ms <= b.kind.gap(),
    ensures
        1_000 <= b.adapted(level).min_interval_ms <= b.kind.gap(),
        b.adapted(level).kind == b.kind,
{
    crate::ratio::law_shares_shrink(b.kind.gap(), Reading { bits: HALF });
    crate::ratio::law_shares_shrink(b.kind.gap(), Reading { bits: QUARTER });
    crate::ratio::law_multiples_grow(b.min_interval_ms, Reading { bits: GROW_FAST });
    crate::ratio::law_multiples_grow(b.min_interval_ms, Reading { bits: GROW_SLOW });
}

/// On a degraded network an interval is half of its default and on a critical
/// one a quarter, each down to its floor.
pub proof fn law_tightened_shares(b: ProbeBudget)
    ensures
        b.adapted(MonitorLevel::High).min_interval_ms == larger(
            (b.kind.gap() / 2) as nat,
            3_000,
        ),
        b.adapted(MonitorLevel::Aggressive).min_interval_ms == larger(
            (b.kind.gap() / 4) as nat,
            1_000,
        ),
{
    let gap = b.kind.gap();
    let one = pow2(UNIT_DOUBLINGS as nat);
    lemma2_to64();
    lemma2_to64_rest();
    lemma_units_are(1021, STEP as nat);
    lemma_pow2_adds(52, 1021);
    lemma_units_are(1020, STEP as nat);
    lemma_pow2_adds(52, 1020);
    lemma_pow2_unfold(1074);
    lemma_pow2_unfold(1073);
    let half = units(HALF as nat);
    let quarter = units(QUARTER as nat);
    assert(one == 2 * half && half == 2 * quarter);
    assert(gap * half == (gap / 2) * one) by (nonlinear_arith)
        requires
            one == 2 * half,
            gap == 2 * (gap / 2),
    ;
    assert(gap * quarter == (gap / 4) * one) by (nonlinear_arith)
        requires
            one == 4 * quarter,
            gap == 4 * (gap / 4),
    ;
    law_products_are_bounded(gap, Reading { bits: HALF }, gap / 2, gap / 2);
    law_products_are_bounded(gap, Reading { bits: QUARTER }, gap / 4, gap / 4);
}

/// On a network that is stable again an interval grows at every step, by a
/// twenty-first at least, until it is back at its default.
pub proof fn law_intervals_return(b: ProbeBudget, level: MonitorLevel)
    requires
        level == MonitorLevel::Low || level == MonitorLevel::Normal,
        1_000 <= b.min_interval_ms <= b.kind.gap(),
    ensures
        b.adapted(level).min_interval_ms >= smaller(
            (b.min_interval_ms + b.min_interval_ms / 21) as nat,
            b.kind.gap() as nat,
        ),
{
    let n = b.min_interval_ms;
    let factor = if level == MonitorLevel::Low {
        Reading { bits: GROW_FAST }
    } else {
        Reading { bits: GROW_SLOW }
    };
    let one = pow2(UNIT_DOUBLINGS as nat);
    let step = pow2(1022);
    lemma2_to64();
    lemma2_to64_rest();
    lemma_pow2_adds(52, 1022);
    let digits: nat = if level == MonitorLevel::Low {
        0x12_6666_6666_6666
    } else {
        0x10_cccc_cccc_cccd
    };
    lemma_units_are(1022, digits);
    let u = units(factor.bits as nat);
    assert(u == digits * step);
    assert(one == STEP * step);
    let low: u64 = (n + n / 21) as u64;
    let high: u64 = (2 * n) as u64;
    assert(low * STEP <= n * digits <= high * STEP);
    assert(low * one <= n * u <= high * one) by (nonlinear_arith)
        requires
            low * STEP <= n * digits <= high * STEP,
            one == STEP * step,
            u == digits * step,
            step >= 0,
    ;
    law_products_are_bounded(n, factor, low, high);
}

impl ProbeSchedulerView {
    /// The schedule after the probes have been sent, one after the other.
    pub open spec fn sent(self, sends: Seq<(ProbeKind, TimestampMs)>) -> ProbeSchedulerView
        decreases sends.len(),
    {
        if sends.len() == 0 {
            self
        } else {
            self.sent(sends.drop_last()).recorded(sends.last().0, sends.last().1)
        }
    }
}

/// When a probe of the kind was sent last, if ever.
pub open spec fn last_sent(sends: Seq<(ProbeKind, TimestampMs)>, kind: ProbeKind) -> Option<
    TimestampMs,
>
    decreases sends.len(),
{
    if sends.len() == 0 {
        None
    } else if sends.last().0 == kind {
        Some(sends.last().1)
    } else {
        last_sent(sends.drop_last(), kind)
    }
}

/// Whatever has been sent, a kind of probe is allowed again exactly once its
/// interval has passed since the last probe of that kind, the others without
/// effect.
pub proof fn law_allowance_follows_history(
    s: ProbeSchedulerView,
    sends: Seq<(ProbeKind, TimestampMs)>,
    kind: ProbeKind,
    now: TimestampMs,
)
    ensures
        ({
            let at = budget_of(s.budgets, kind);
            let after = s.sent(sends);
            &&& after.enabled == s.enabled
            &&& after.budgets.len() == s.budgets.len()
            &&& budget_of(after.budgets, kind) == at
            &&& at < s.budgets.len() ==> after.budgets[at].min_interval_ms
                == s.budgets[at].min_interval_ms
            &&& after.allows(kind, now) <==> match last_sent(sends, kind) {
                None => s.allows(kind, now),
                Some(last) => s.enabled && at < s.budgets.len() && s.budgets[at].after_send(
                    last,
                ).allows(now),
            }
        }),
    decreases sends.len(),
{
    let at = budget_of(s.budgets, kind);
    if sends.len() > 0 {
        let (sent, when) = sends.last();
        let before = s.sent(sends.drop_last());
        law_allowance_follows_history(s, sends.drop_last(), kind, now);
        let fits = |b: ProbeBudget| b.kind == kind;
        let sent_fits = |b: ProbeBudget| b.kind == sent;
        let after = before.recorded(sent, when);
        crate::search::lemma_first_index(before.budgets, fits);
        crate::search::lemma_first_index(before.budgets, sent_fits);
        assert forall|j: int| 0 <= j < before.budgets.len() implies (
        #[trigger] after.budgets[j]).kind == before.budgets[j].kind by {}
        assert(at < before.budgets.len() ==> fits(before.budgets[at]));
        assert forall|j: int| 0 <= j < at implies !fits(#[trigger] after.budgets[j]) by {
            assert(!fits(before.budgets[j]));
        }
        lemma_first_index_is(after.budgets, fits, at);
    }
}

/// Whether every probe was allowed when it was sent.
#[verifier::opaque]
pub open spec fn all_allowed(s: ProbeSchedulerView, sends: Seq<(ProbeKind, TimestampMs)>) -> bool {
    forall|i: int|
        0 <= i < sends.len() ==> s.sent(sends.take(i)).allows(
            (#[trigger] sends[i]).0,
            sends[i].1,
        )
}

/// Where probes are only sent when allowed, two of a kind are never closer
/// together than its interval.
pub proof fn law_history_keeps_the_gap(
    s: ProbeSchedulerView,
    sends: Seq<(ProbeKind, TimestampMs)>,
    i: int,
    j: int,
)
    requires
        all_allowed(s, sends),
        0 <= i < j < sends.len(),
        sends[i].0 == sends[j].0,
        budget_of(s.budgets, sends[i].0) < s.budgets.len(),
        s.budgets[budget_of(s.budgets, sends[i].0)].min_interval_ms > 0,
    ensures
        sends[j].1 - sends[i].1 >= s.budgets[budget_of(
            s.budgets,
            sends[i].0,
        )].min_interval_ms,
    decreases j,
{
    let kind = sends[i].0;
    let front = sends.take(j);
    law_allowance_follows_history(s, front, kind, sends[j].1);
    lemma_last_sent(front, kind, i);
    assert(s.sent(front).allows(kind, sends[j].1)) by {
        reveal(all_allowed);
        assert(sends[j].0 == kind);
    }
    let k = choose|k: int|
        i <= k < front.len() && (#[trigger] front[k]).0 == kind && last_sent(front, kind) == Some(
            front[k].1,
        );
    if k > i {
        law_history_keeps_the_gap(s, sends, i, k);
    }
}

proof fn lemma_last_sent(sends: Seq<(ProbeKind, TimestampMs)>, kind: ProbeKind, i: int)
    requires
        0 <= i < sends.len(),
        sends[i].0 == kind,
    ensures
        exists|k: int|
            i <= k < sends.len() && (#[trigger] sends[k]).0 == kind && last_sent(sends, kind)
                == Some(sends[k].1),
    decreases sends.len(),
{
    let n = sends.len() - 1;
    if sends[n].0 != kind {
        let front = sends.drop_last();
        lemma_last_sent(front, kind, i);
        let k = choose|k: int|
            i <= k < front.len() && (#[trigger] front[k]).0 == kind && last_sent(front, kind)
                == Some(front[k].1);
        assert(sends[k] == front[k]);
    }
}

/// On a network that is stable again an interval grows step by step, by no
/// more than 15 percent on an excellent network and no more than 5 percent on a
/// good one; nothing else of the budget changes, whatever the level.
pub proof fn law_intervals_return_slowly(b: ProbeBudget, level: MonitorLevel)
    requires
        1_000 <= b.min_interval_ms <= b.kind.gap(),
    ensures
        b.adapted(MonitorLevel::Low).min_interval_ms <= b.min_interval_ms + (15 * b.min_interval_ms)
            / 100 + 1,
        b.adapted(MonitorLevel::Normal).min_interval_ms <= b.min_interval_ms + (5
            * b.min_interval_ms) / 100 + 1,
        b.adapted(level).kind == b.kind,
        b.adapted(level).last_sent_at == b.last_sent_at,
        b.adapted(level).sent == b.sent,
{
    lemma_growth_is_bounded(b.min_interval_ms, Reading { bits: GROW_FAST }, 0x12_6666_6666_6666, 15);
    lemma_growth_is_bounded(b.min_interval_ms, Reading { bits: GROW_SLOW }, 0x10_cccc_cccc_cccd, 5);
}

proof fn lemma_growth_is_bounded(n: u64, factor: Reading, digits: nat, percent: u64)
    requires
        1_000 <= n <= 60_000,
        STEP <= digits <= 2 * STEP,
        factor.bits as nat == 1022 * (STEP as nat) + digits,
        percent <= 20,
        100 * digits <= (100 + percent) * STEP + 100,
    ensures
        truncated(product(counted(n), factor)) <= n + (percent * n) / 100 + 1,
{
    let one = pow2(UNIT_DOUBLINGS as nat);
    let step = pow2(1022);
    lemma2_to64();
    lemma2_to64_rest();
    lemma_pow2_adds(52, 1022);
    lemma_units_are(1022, digits);
    let u = units(factor.bits as nat);
    let high: u64 = (n + (percent * n) / 100 + 1) as u64;
    assert(percent * n <= 20 * 60_000) by (nonlinear_arith)
        requires
            percent <= 20,
            n <= 60_000,
    ;
    assert(100 * (n * digits) <= n * ((100 + percent) * STEP + 100)) by (nonlinear_arith)
        requires
            100 * digits <= (100 + percent) * STEP + 100,
            n >= 0,
    ;
    assert(n * ((100 + percent) * STEP + 100) == (100 * n + percent * n) * STEP + 100 * n)
        by (nonlinear_arith);
    assert(100 * high >= 100 * n + percent * n + 1);
    assert(n * digits <= high * STEP) by (nonlinear_arith)
        requires
            100 * (n * digits) <= (100 * n + percent * n) * STEP + 100 * n,
            100 * high >= 100 * n + percent * n + 1,
            n <= 60_000,
            STEP == 0x10_0000_0000_0000,
    ;
    assert(n * digits >= 0) by (nonlinear_arith);
    assert(0 * one <= n * u <= high * one) by (nonlinear_arith)
        requires
            0 <= n * digits <= high * STEP,
            one == STEP * step,
            u == digits * step,
            step >= 0,
    ;
    law_products_are_bounded(n, factor, 0, high);
}

/// A new schedule is on, and lets a probe of every kind out at once; sending
/// one holds back only its own kind.
pub proof fn law_new_schedule_lets_every_kind_out(
    kind: ProbeKind,
    other: ProbeKind,
    now: TimestampMs,
    later: TimestampMs,
)
    requires
        kind != other,
    ensures
        ProbeSchedulerView::fresh().allows(kind, now),
        ProbeSchedulerView::fresh().recorded(other, now).allows(kind, later),
        now <= later < now + 5_000 ==> !ProbeSchedulerView::fresh().recorded(kind, now).allows(
            kind,
            later,
        ),
        later >= now + 60_000 ==> ProbeSchedulerView::fresh().recorded(kind, now).allows(
            kind,
            later,
        ),
{
    let s = ProbeSchedulerView::fresh();
    let b = s.budgets;
    assert(b[0].kind == ProbeKind::DnsResolution && b[1].kind == ProbeKind::TcpConnect && b[2].kind
        == ProbeKind::UdpProbe && b[3].kind == ProbeKind::QuicHandshake && b[4].kind
        == ProbeKind::TunnelHealth && b[5].kind == ProbeKind::EdgeToClientRtt && b[6].kind
        == ProbeKind::ApplicationEndpointRtt);
    let place = match kind {
        ProbeKind::DnsResolution => 0,
        ProbeKind::TcpConnect => 1,
        ProbeKind::UdpProbe => 2,
        ProbeKind::QuicHandshake => 3,
        ProbeKind::TunnelHealth => 4,
        ProbeKind::EdgeToClientRtt => 5,
        ProbeKind::ApplicationEndpointRtt => 6int,
    };
    lemma_first_index_is(b, |x: ProbeBudget| x.kind == kind, place);
    law_allowance_follows_history(s, seq![(other, now)], kind, later);
    law_allowance_follows_history(s, seq![(kind, now)], kind, later);
    assert(seq![(other, now)].drop_last() =~= seq![]);
    assert(seq![(kind, now)].drop_last() =~= seq![]);
    reveal_with_fuel(last_sent, 2);
    reveal_with_fuel(ProbeSchedulerView::sent, 2);
    assert(s.sent(seq![(other, now)]) == s.recorded(other, now));
    assert(s.sent(seq![(kind, now)]) == s.recorded(kind, now));
}

} // verus!
