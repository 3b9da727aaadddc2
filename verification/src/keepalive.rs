//! Adaptive keepalive with jitter.
//!
//! The interval follows the network, the battery, the NAT and the recent
//! reconnects; each heartbeat is then moved at random, so that connections do
//! not beat together. Without a tunnel and without use there are none.
use vstd::arithmetic::power2::{
    lemma2_to64, lemma2_to64_rest, lemma_pow2_adds, lemma_pow2_pos, pow2,
};
use vstd::prelude::*;

use crate::double::{
    difference, lemma_units_rise, plus, product, sum, times, truncate, truncated, units, STEP,
    UNIT_DOUBLINGS,
};
use crate::model::{BatteryState, NetworkType, VpnState};
use crate::order::{
    law_one_leaves_as_is, law_positions_follow_values, law_products_keep_order,
    law_rest_is_a_share, law_rounding_keeps_order, law_sums_grow, law_sums_keep_order,
    law_zero_leaves_as_is,
};
use crate::ratio::{
    count, counted, law_counts_are_exact, law_multiples_grow, law_products_are_bounded,
    law_rounds_no_lower, law_shares_shrink, law_sums_are_bounded, lemma_one,
    lemma_units_in_order,
};
use crate::reading::{Reading, INFINITE, ONE, SIGN, TWO, ZERO};
use crate::root::lemma_units_are;

verus! {

/// The shortest interval that may be set by hand.
pub const EXPLICIT_MIN_MS: u64 = 1_000;

/// The longest interval that may be set by hand: four hours.
pub const EXPLICIT_MAX_MS: u64 = 14_400_000;

/// The shortest interval otherwise.
pub const SHORTEST_MS: u64 = 2_000;

/// The longest interval otherwise.
pub const LONGEST_MS: u64 = 120_000;

/// The shortest idle timeout of a NAT that is believed.
pub const NAT_HINT_MIN_MS: u64 = 1_000;

/// 1.2
pub const CHARGING_FACTOR: u64 = 0x3ff3_3333_3333_3333;

/// 1.0
pub const FULL_FACTOR: u64 = 0x3ff0_0000_0000_0000;

/// 0.9
pub const MEDIUM_FACTOR: u64 = 0x3fec_cccc_cccc_cccd;

/// 0.7
pub const LOW_FACTOR: u64 = 0x3fe6_6666_6666_6666;

/// 0.5
pub const CRITICAL_FACTOR: u64 = 0x3fe0_0000_0000_0000;

/// 0.6
pub const UNSTABLE_FACTOR: u64 = 0x3fe3_3333_3333_3333;

/// 0.8
pub const SHAKY_FACTOR: u64 = 0x3fe9_9999_9999_999a;

/// 4.0: the reconnect rate from which a connection is unstable.
pub const UNSTABLE_RATE: u64 = 0x4010_0000_0000_0000;

/// 0.25
pub const JITTER_FRACTION: u64 = 0x3fd0_0000_0000_0000;

/// 0.75
pub const THREE_QUARTERS: u64 = 0x3fe8_0000_0000_0000;

/// 1.25
pub const FIVE_QUARTERS: u64 = 0x3ff4_0000_0000_0000;

#[derive(Clone, Copy, Debug)]
pub struct KeepaliveInput {
    /// How long the NAT was seen to keep an idle mapping.
    pub observed_nat_idle_timeout_ms: Option<u64>,
    /// An interval set by hand, which beats everything else.
    pub explicit_interval_ms: Option<u64>,
    pub network: NetworkType,
    pub battery: BatteryState,
    pub vpn: VpnState,
    /// Recent reconnects per hour.
    pub reconnect_rate: Option<Reading>,
    pub app_idle: bool,
}

impl Default for KeepaliveInput {
    fn default() -> (r: Self)
        ensures
            r == (KeepaliveInput {
                observed_nat_idle_timeout_ms: None,
                explicit_interval_ms: None,
                network: NetworkType::Unknown,
                battery: BatteryState::High,
                vpn: VpnState::Disconnected,
                reconnect_rate: None,
                app_idle: false,
            }),
    {
        KeepaliveInput {
            observed_nat_idle_timeout_ms: None,
            explicit_interval_ms: None,
            network: NetworkType::Unknown,
            battery: BatteryState::High,
            vpn: VpnState::Disconnected,
            reconnect_rate: None,
            app_idle: false,
        }
    }
}

#[derive(Clone, Copy, Debug, PartialEq)]
pub struct KeepaliveDecision {
    /// The interval before jitter.
    pub base_interval_ms: u64,
    /// When to send this heartbeat.
    pub send_after_ms: u64,
    /// The jitter, as a fraction of the interval.
    pub jitter_fraction: Reading,
    /// Whether heartbeats are sent at all.
    pub keep_alive_enabled: bool,
}

/// How far a heartbeat may move.
#[derive(Clone, Copy, Debug)]
pub struct JitterPolicy {
    pub max_fraction: Reading,
}

impl Default for JitterPolicy {
    fn default() -> (r: Self)
        ensures
            r.max_fraction == (Reading { bits: JITTER_FRACTION }),
    {
        JitterPolicy { max_fraction: Reading { bits: JITTER_FRACTION } }
    }
}

/// `n`, but no less than `low` and no more than `high`.
pub open spec fn within(n: int, low: int, high: int) -> int {
    if n < low {
        low
    } else if n > high {
        high
    } else {
        n
    }
}

fn clamp(n: u64, low: u64, high: u64) -> (r: u64)
    requires
        low <= high,
    ensures
        r == within(n as int, low as int, high as int),
{
    if n < low {
        low
    } else if n > high {
        high
    } else {
        n
    }
}

pub open spec fn battery_factor(battery: BatteryState) -> Reading {
    Reading {
        bits: match battery {
            BatteryState::Charging => CHARGING_FACTOR,
            BatteryState::High => FULL_FACTOR,
            BatteryState::Medium => MEDIUM_FACTOR,
            BatteryState::Low => LOW_FACTOR,
            BatteryState::Critical => CRITICAL_FACTOR,
        },
    }
}

pub open spec fn stability_factor(rate: Option<Reading>) -> Reading {
    Reading {
        bits: match rate {
            Some(r) => if r.at_least(Reading { bits: UNSTABLE_RATE }) {
                UNSTABLE_FACTOR
            } else if r.at_least(Reading { bits: ONE }) {
                SHAKY_FACTOR
            } else {
                FULL_FACTOR
            },
            None => FULL_FACTOR,
        },
    }
}

/// The interval before battery and stability come in.
pub open spec fn unscaled(input: KeepaliveInput) -> u64 {
    let base = match input.observed_nat_idle_timeout_ms {
        Some(ms) => if ms >= NAT_HINT_MIN_MS {
            ms
        } else {
            input.network.keepalive_base()
        },
        None => input.network.keepalive_base(),
    };
    if base < LONGEST_MS {
        base
    } else {
        LONGEST_MS
    }
}

/// The interval for the input, zero where there are no heartbeats.
pub open spec fn interval_of(input: KeepaliveInput) -> int {
    match input.explicit_interval_ms {
        Some(ms) => within(ms as int, EXPLICIT_MIN_MS as int, EXPLICIT_MAX_MS as int),
        None => if input.app_idle && input.vpn == VpnState::Disconnected {
            0
        } else {
            within(
                truncated(
                    product(
                        product(counted(unscaled(input)), battery_factor(input.battery)),
                        stability_factor(input.reconnect_rate),
                    ),
                ) as int,
                SHORTEST_MS as int,
                LONGEST_MS as int,
            )
        },
    }
}

/// The interval for the input, before jitter.
pub fn base_interval(input: &KeepaliveInput) -> (r: u64)
    ensures
        r == interval_of(*input),
{
    if let Some(ms) = input.explicit_interval_ms {
        return clamp(ms, EXPLICIT_MIN_MS, EXPLICIT_MAX_MS);
    }
    if input.app_idle && input.vpn == VpnState::Disconnected {
        return 0;
    }
    let network_base: u64 = input.network.default_keepalive_base_ms();
    let hinted: u64 = match input.observed_nat_idle_timeout_ms {
        Some(ms) => if ms >= NAT_HINT_MIN_MS {
            ms
        } else {
            network_base
        },
        None => network_base,
    };
    let base: u64 = if hinted < LONGEST_MS {
        hinted
    } else {
        LONGEST_MS
    };
    let battery = Reading {
        bits: match input.battery {
            BatteryState::Charging => CHARGING_FACTOR,
            BatteryState::High => FULL_FACTOR,
            BatteryState::Medium => MEDIUM_FACTOR,
            BatteryState::Low => LOW_FACTOR,
            BatteryState::Critical => CRITICAL_FACTOR,
        },
    };
    let stability = Reading {
        bits: match input.reconnect_rate {
            Some(rate) => if rate >= (Reading { bits: UNSTABLE_RATE }) {
                UNSTABLE_FACTOR
            } else if rate >= (Reading { bits: ONE }) {
                SHAKY_FACTOR
            } else {
                FULL_FACTOR
            },
            None => FULL_FACTOR,
        },
    };
    clamp(
        truncate(times(times(count(base), battery), stability)),
        SHORTEST_MS,
        LONGEST_MS,
    )
}

/// When a heartbeat is sent whose interval is moved by a fraction of itself.
pub open spec fn moved(base_ms: u64, fraction: Reading) -> u64 {
    let out = truncated(product(counted(base_ms), sum(Reading { bits: ONE }, fraction)));
    if out == 0 {
        1
    } else {
        out
    }
}

/// When to send the next heartbeat, for a drawn `fraction` of jitter.
pub fn next_interval(base_ms: u64, fraction: Reading) -> (r: (u64, Reading))
    ensures
        r == (if base_ms == 0 {
            (0u64, Reading { bits: ZERO })
        } else {
            (moved(base_ms, fraction), fraction)
        }),
{
    if base_ms == 0 {
        return (0, Reading { bits: ZERO });
    }
    let out: u64 = truncate(times(count(base_ms), plus(Reading { bits: ONE }, fraction)));
    let out: u64 = if out == 0 {
        1
    } else {
        out
    };
    (out, fraction)
}

/// The decision for one heartbeat, for a drawn `fraction` of jitter.
pub fn decide(input: &KeepaliveInput, fraction: Reading) -> (r: KeepaliveDecision)
    ensures
        r == (if interval_of(*input) == 0 {
            KeepaliveDecision {
                base_interval_ms: 0,
                send_after_ms: 0,
                jitter_fraction: Reading { bits: ZERO },
                keep_alive_enabled: false,
            }
        } else {
            KeepaliveDecision {
                base_interval_ms: interval_of(*input) as u64,
                send_after_ms: moved(interval_of(*input) as u64, fraction),
                jitter_fraction: fraction,
                keep_alive_enabled: true,
            }
        }),
{
    let base: u64 = base_interval(input);
    if base == 0 {
        return KeepaliveDecision {
            base_interval_ms: 0,
            send_after_ms: 0,
            jitter_fraction: Reading { bits: ZERO },
            keep_alive_enabled: false,
        };
    }
    let (send_after_ms, jitter_fraction) = next_interval(base, fraction);
    KeepaliveDecision {
        base_interval_ms: base,
        send_after_ms,
        jitter_fraction,
        keep_alive_enabled: true,
    }
}

/// There are heartbeats unless the app is idle without a tunnel and no
/// interval was set by hand, and their interval is within its bounds.
pub proof fn law_interval_is_bounded(input: KeepaliveInput)
    ensures
        interval_of(input) == 0 <==> input.explicit_interval_ms is None && input.app_idle
            && input.vpn == VpnState::Disconnected,
        input.explicit_interval_ms is Some ==> EXPLICIT_MIN_MS <= interval_of(input)
            <= EXPLICIT_MAX_MS,
        input.explicit_interval_ms is None && interval_of(input) != 0 ==> SHORTEST_MS
            <= interval_of(input) <= LONGEST_MS,
{
}

/// With a jitter of a quarter at most, a heartbeat comes no earlier than after
/// three quarters of its interval, and no later than after five.
pub proof fn law_jitter_is_bounded(base_ms: u64, fraction: Reading)
    requires
        0 < base_ms <= EXPLICIT_MAX_MS,
        fraction.is_finite(),
        fraction.magnitude() <= JITTER_FRACTION,
    ensures
        3 * base_ms / 4 <= moved(base_ms, fraction) <= (5 * base_ms + 3) / 4,
{
    let one = Reading { bits: ONE };
    let u = pow2(UNIT_DOUBLINGS as nat);
    let q = pow2(1072);
    lemma2_to64();
    lemma2_to64_rest();
    lemma_pow2_adds(2, 1072);
    lemma_one();
    // a quarter, three quarters and five quarters
    lemma_units_are(1020, 0x10_0000_0000_0000);
    lemma_pow2_adds(52, 1020);
    lemma_units_are(1021, 0x18_0000_0000_0000);
    lemma_units_are(1022, 0x14_0000_0000_0000);
    lemma_pow2_adds(51, 1021);
    lemma_pow2_adds(50, 1022);
    assert(units(JITTER_FRACTION as nat) == q);
    assert(units(THREE_QUARTERS as nat) == 3 * q) by (nonlinear_arith)
        requires
            units(THREE_QUARTERS as nat) == 0x18_0000_0000_0000 * pow2(1021),
            q == 0x8_0000_0000_0000 * pow2(1021),
    ;
    assert(units(FIVE_QUARTERS as nat) == 5 * q) by (nonlinear_arith)
        requires
            units(FIVE_QUARTERS as nat) == 0x14_0000_0000_0000 * pow2(1022),
            q == 0x4_0000_0000_0000 * pow2(1022),
    ;
    let f = fraction.magnitude() as nat;
    if f < JITTER_FRACTION {
        lemma_units_rise(JITTER_FRACTION as nat, f);
    }
    law_sums_are_bounded(one, fraction, THREE_QUARTERS, FIVE_QUARTERS);
    let x = sum(one, fraction);
    if x.bits > THREE_QUARTERS {
        lemma_units_rise(x.bits as nat, THREE_QUARTERS as nat);
    }
    if x.bits < FIVE_QUARTERS {
        lemma_units_rise(FIVE_QUARTERS as nat, x.bits as nat);
    }
    let low = (3 * base_ms / 4) as u64;
    let high = ((5 * base_ms + 3) / 4) as u64;
    let s = units(x.bits as nat);
    assert(low * u <= base_ms * s <= high * u) by (nonlinear_arith)
        requires
            u == 4 * q,
            3 * q <= s <= 5 * q,
            4 * low <= 3 * base_ms,
            5 * base_ms <= 4 * high,
            base_ms >= 0,
            q >= 0,
    ;
    law_products_are_bounded(base_ms, x, low, high);
}

/// An interval that is set by hand is taken, within its bounds, whatever else
/// is known.
pub proof fn law_explicit_interval_wins(input: KeepaliveInput, ms: u64)
    requires
        input.explicit_interval_ms == Some(ms),
    ensures
        1_000 <= ms <= 14_400_000 ==> interval_of(input) == ms,
        ms < 1_000 ==> interval_of(input) == 1_000,
        ms > 14_400_000 ==> interval_of(input) == 14_400_000,
{
}

/// With enough battery and a steady connection, the interval is what the NAT
/// was seen to keep, or else what the network asks for, between two seconds
/// and two minutes; with a critical battery it is half of that.
pub proof fn law_interval_follows_the_nat(input: KeepaliveInput)
    requires
        input.explicit_interval_ms is None,
        !input.app_idle || input.vpn != VpnState::Disconnected,
        input.reconnect_rate is None,
    ensures
        ({
            let base = match input.observed_nat_idle_timeout_ms {
                Some(ms) => if ms >= 1_000 {
                    ms
                } else {
                    input.network.keepalive_base()
                },
                None => input.network.keepalive_base(),
            };
            &&& input.battery == BatteryState::High && 2_000 <= base <= 120_000 ==> interval_of(
                input,
            ) == base
            &&& input.battery == BatteryState::High && base < 2_000 ==> interval_of(input) == 2_000
            &&& input.battery == BatteryState::High && base > 120_000 ==> interval_of(input)
                == 120_000
            &&& input.battery == BatteryState::Critical && 4_000 <= base <= 120_000 && base % 2 == 0
                ==> interval_of(input) == base / 2
        }),
{
    let n = unscaled(input);
    let one = Reading { bits: ONE };
    law_counts_are_exact(n);
    law_one_leaves_as_is(counted(n));
    let by = product(counted(n), battery_factor(input.battery));
    if input.battery == BatteryState::Critical && n % 2 == 0 {
        let half = (n / 2) as u64;
        lemma_halved(n, half);
        law_counts_are_exact(half);
        law_one_leaves_as_is(counted(half));
    }
}

proof fn lemma_halved(n: u64, half: u64)
    requires
        n == 2 * half,
        n < 2 * STEP,
    ensures
        product(counted(n), Reading { bits: CRITICAL_FACTOR }) == counted(half),
{
    let u = pow2(UNIT_DOUBLINGS as nat);
    lemma_pow2_pos(UNIT_DOUBLINGS as nat);
    law_counts_are_exact(n);
    lemma2_to64();
    lemma2_to64_rest();
    lemma_units_are(1021, 0x10_0000_0000_0000);
    lemma_pow2_adds(52, 1021);
    lemma_pow2_adds(1, 1073);
    let h = units(CRITICAL_FACTOR as nat);
    assert(2 * h == u);
    let top: nat = (n * u) as nat * h;
    let whole: nat = half as nat * u;
    assert(top * 1 == whole * u) by (nonlinear_arith)
        requires
            top == (n * u) * h,
            whole == half * u,
            n == 2 * half,
            2 * h == u,
    ;
    law_rounding_keeps_order(top, u, whole, 1);
    law_rounding_keeps_order(whole, 1, top, u);
}

/// How much battery there is, from little to plenty.
pub open spec fn charge(battery: BatteryState) -> int {
    match battery {
        BatteryState::Critical => 0,
        BatteryState::Low => 1,
        BatteryState::Medium => 2,
        BatteryState::High => 3,
        BatteryState::Charging => 4,
    }
}

/// Less battery never makes the interval longer, and neither do more
/// reconnects.
pub proof fn law_strain_never_lengthens_the_interval(
    input: KeepaliveInput,
    battery: BatteryState,
    rate: Reading,
    higher: Reading,
)
    requires
        charge(battery) <= charge(input.battery),
        higher.at_least(rate),
    ensures
        interval_of(KeepaliveInput { battery, ..input }) <= interval_of(input),
        interval_of(KeepaliveInput { reconnect_rate: Some(higher), ..input }) <= interval_of(
            KeepaliveInput { reconnect_rate: Some(rate), ..input },
        ),
        interval_of(KeepaliveInput { reconnect_rate: Some(rate), ..input }) <= interval_of(
            KeepaliveInput { reconnect_rate: None, ..input },
        ),
{
    let n = unscaled(input);
    law_counts_are_exact(n);
    lemma_scaled_in_order(
        n,
        battery_factor(battery),
        stability_factor(input.reconnect_rate),
        battery_factor(input.battery),
        stability_factor(input.reconnect_rate),
    );
    lemma_scaled_in_order(
        n,
        battery_factor(input.battery),
        stability_factor(Some(higher)),
        battery_factor(input.battery),
        stability_factor(Some(rate)),
    );
    lemma_scaled_in_order(
        n,
        battery_factor(input.battery),
        stability_factor(Some(rate)),
        battery_factor(input.battery),
        stability_factor(None),
    );
}

proof fn lemma_scaled_in_order(n: u64, a: Reading, b: Reading, c: Reading, d: Reading)
    requires
        n <= LONGEST_MS,
        a.bits <= c.bits <= CHARGING_FACTOR,
        b.bits <= d.bits <= FULL_FACTOR,
    ensures
        truncated(product(product(counted(n), a), b)) <= truncated(
            product(product(counted(n), c), d),
        ),
{
    law_counts_are_exact(n);
    law_products_keep_order(counted(n), a, counted(n), c);
    let (x, y) = (product(counted(n), a), product(counted(n), c));
    let u = pow2(UNIT_DOUBLINGS as nat);
    lemma_pow2_pos(UNIT_DOUBLINGS as nat);
    lemma_below_twice(n, c);
    assert(y.is_finite());
    law_products_keep_order(x, b, y, d);
    let (p, q) = (product(x, b), product(y, d));
    if q.is_finite() {
        lemma_units_in_order(p.magnitude() as nat, q.magnitude() as nat);
        vstd::arithmetic::div_mod::lemma_div_is_ordered(
            units(p.magnitude() as nat) as int,
            units(q.magnitude() as nat) as int,
            u as int,
        );
    }
}

/// A count times less than two is finite.
proof fn lemma_below_twice(n: u64, c: Reading)
    requires
        n <= LONGEST_MS,
        c.bits <= CHARGING_FACTOR,
    ensures
        product(counted(n), c).bits < INFINITE,
{
    let u = pow2(UNIT_DOUBLINGS as nat);
    let two = Reading { bits: TWO };
    lemma_pow2_pos(UNIT_DOUBLINGS as nat);
    law_counts_are_exact(n);
    law_counts_are_exact((2 * n) as u64);
    law_products_keep_order(counted(n), c, counted(n), two);
    lemma2_to64();
    lemma2_to64_rest();
    lemma_units_are(1023, 0x10_0000_0000_0000);
    lemma_pow2_adds(52, 1023);
    lemma_pow2_adds(1, 1074);
    assert(units(TWO as nat) == 2 * u);
    let top: nat = (n * u) as nat * (2 * u);
    let whole: nat = (2 * n) as nat * u;
    assert(top * 1 == whole * u) by (nonlinear_arith)
        requires
            top == (n * u) * (2 * u),
            whole == (2 * n) * u,
    ;
    law_rounding_keeps_order(top, u, whole, 1);
}

/// Without jitter a heartbeat comes at its interval; it comes no later with
/// less and no earlier with more.
pub proof fn law_jitter_moves_both_ways(base_ms: u64, fraction: Reading)
    requires
        0 < base_ms <= EXPLICIT_MAX_MS,
        fraction.is_finite(),
        fraction.magnitude() <= ONE,
    ensures
        fraction.bits == ZERO ==> moved(base_ms, fraction) == base_ms,
        fraction.position() >= 0 ==> moved(base_ms, fraction) >= base_ms,
        fraction.position() <= 0 ==> moved(base_ms, fraction) <= base_ms,
{
    let one = Reading { bits: ONE };
    law_counts_are_exact(base_ms);
    law_zero_leaves_as_is(one);
    law_one_leaves_as_is(counted(base_ms));
    if fraction.bits < SIGN {
        law_sums_grow(one, fraction);
        law_sums_keep_order(one, fraction, one, one);
        lemma_one_and_one();
        law_multiples_grow(base_ms, sum(one, fraction));
    } else {
        let size = Reading { bits: (fraction.bits - SIGN) as u64 };
        assert(size.negation() == fraction);
        law_rest_is_a_share(size);
        let rest = difference(one, size);
        law_positions_follow_values(size, one);
        assert(rest.bits <= ONE);
        law_shares_shrink(base_ms, rest);
        if fraction.magnitude() == 0 {
            lemma_one();
            law_positions_follow_values(size, size);
            law_rounds_no_lower(one.value() as nat, 1, ONE);
            assert(rest == one);
        }
    }
}

proof fn lemma_one_and_one()
    ensures
        sum(Reading { bits: ONE }, Reading { bits: ONE }).bits < INFINITE,
{
    let u = pow2(UNIT_DOUBLINGS as nat);
    lemma_pow2_pos(UNIT_DOUBLINGS as nat);
    lemma_one();
    law_counts_are_exact(2);
    assert(2 * u == u + u);
}

} // verus!
