//! Counts as readings, their ratios, and how rounding keeps their order.
use vstd::arithmetic::power2::{lemma_pow2_adds, lemma_pow2_pos, lemma_pow2_unfold, pow2};
use vstd::prelude::*;

use crate::double::{
    divide, division, doublings, far, lemma_apart, lemma_units_rise, magnitude_of, nearest, pack,
    pattern, product, signed, significand, stands_for, sum, truncated, units, with_sign, STEP,
    UNIT_DOUBLINGS,
};
use crate::reading::{Reading, INFINITE, ONE};
use crate::root::lemma_units_are;

verus! {

/// The reading nearest to the count.
pub open spec fn counted(n: u64) -> Reading {
    signed(false, magnitude_of(n as nat * pow2(UNIT_DOUBLINGS as nat), 1))
}

/// The reading nearest to the count.
pub fn count(n: u64) -> (r: Reading)
    ensures
        r == counted(n),
{
    if n == 0 {
        assert(0 * pow2(UNIT_DOUBLINGS as nat) == 0) by (nonlinear_arith);
        return Reading { bits: 0 };
    }
    proof {
        vstd::arithmetic::power2::lemma2_to64();
        vstd::arithmetic::power2::lemma_pow2_strictly_increases(64, 120);
        lemma_pow2_adds(far(), UNIT_DOUBLINGS as nat);
        let exact = n as nat * pow2(UNIT_DOUBLINGS as nat);
        let c = pow2(far());
        let u = pow2(UNIT_DOUBLINGS as nat);
        assert((n as nat * u) * c == n as nat * ((c * u) * 1)) by (nonlinear_arith);
        assert(stands_for(exact, 1, n as nat, UNIT_DOUBLINGS as int, false));
    }
    let m: u64 = pack(n as u128, UNIT_DOUBLINGS as i64, false);
    with_sign(false, m)
}

/// One count over another.
pub open spec fn quotient(part: u64, whole: u64) -> Reading {
    division(counted(part), counted(whole))
}

/// One count over another.
pub fn ratio(part: u64, whole: u64) -> (r: Reading)
    ensures
        r == quotient(part, whole),
{
    divide(count(part), count(whole))
}

pub(crate) proof fn lemma_nearest_no_less(n: nat, d: nat, k: nat)
    requires
        d > 0,
        n >= k * d,
    ensures
        nearest(n, d) >= k,
{
    assert(n / d >= k) by (nonlinear_arith)
        requires
            d > 0,
            n >= k * d,
    ;
}

pub(crate) proof fn lemma_nearest_no_more(n: nat, d: nat, k: nat)
    requires
        d > 0,
        n <= k * d,
    ensures
        nearest(n, d) <= k,
{
    vstd::arithmetic::div_mod::lemma_fundamental_div_mod(n as int, d as int);
    let q = n / d;
    let rest = n % d;
    if q >= k {
        assert(q == k && rest == 0) by (nonlinear_arith)
            requires
                n == d * q + rest,
                n <= k * d,
                q >= k,
                0 <= rest < d,
                d > 0,
        ;
    }
}

/// What is no less than a magnitude does not round below it.
proof fn lemma_rounds_no_lower(n: nat, d: nat, i: nat, m: nat)
    requires
        d > 0,
        m < INFINITE,
        i <= doublings(m) ==> n >= significand(m) * pow2((doublings(m) - i) as nat) * d,
        i > doublings(m) ==> n >= STEP * d,
    ensures
        pattern(n, d, i) >= m,
    decreases n - d,
{
    lemma_apart(m);
    let e = doublings(m);
    let sig = significand(m);
    vstd::arithmetic::power2::lemma2_to64();
    if n >= 2 * STEP * d {
        assert(2 * STEP * d >= 2 * d) by (nonlinear_arith)
            requires
                d > 0,
        ;
        if i < e {
            let g = pow2((e - i - 1) as nat);
            lemma_pow2_unfold((e - i) as nat);
            assert(sig * (2 * g) * d == sig * g * (2 * d)) by (nonlinear_arith);
        }
        assert(STEP * (2 * d) == 2 * STEP * d) by (nonlinear_arith);
        lemma_rounds_no_lower(n, 2 * d, i + 1, m);
    } else if i < e {
        let g = pow2((e - i - 1) as nat);
        lemma_pow2_unfold((e - i) as nat);
        lemma_pow2_pos((e - i - 1) as nat);
        assert(sig * (2 * g) * d >= 2 * STEP * d) by (nonlinear_arith)
            requires
                sig >= STEP,
                g >= 1,
                d > 0,
        ;
    } else if i == e {
        assert(sig * 1 * d == sig * d) by (nonlinear_arith);
        lemma_nearest_no_less(n, d, sig);
    } else {
        lemma_nearest_no_less(n, d, STEP as nat);
        assert(i * (STEP as nat) >= (e + 1) * (STEP as nat)) by (nonlinear_arith)
            requires
                i >= e + 1,
        ;
        assert((e + 1) * (STEP as nat) == e * (STEP as nat) + STEP) by (nonlinear_arith);
    }
}

/// 2^64: no count is larger.
pub const ALL_COUNTS: u64 = 0x43f0_0000_0000_0000;

/// A count is no number below one, unless it is zero, and is finite.
pub proof fn law_counts_are_positive(n: u64)
    requires
        n > 0,
    ensures
        ONE <= counted(n).bits <= ALL_COUNTS,
{
    lemma_one();
    let u = pow2(UNIT_DOUBLINGS as nat);
    assert(n * u >= u) by (nonlinear_arith)
        requires
            n > 0,
            u >= 0,
    ;
    law_rounds_no_lower(n as nat * u, 1, ONE);
    lemma_units_are(1086, STEP as nat);
    lemma_pow2_adds(52, 1086);
    lemma_pow2_adds(64, 1074);
    vstd::arithmetic::power2::lemma2_to64();
    vstd::arithmetic::power2::lemma2_to64_rest();
    assert(n * u <= pow2(64) * u) by (nonlinear_arith)
        requires
            n <= pow2(64),
            u >= 0,
    ;
    law_rounds_no_higher(n as nat * u, 1, ALL_COUNTS);
}

/// What is no more than a magnitude does not round above it.
proof fn lemma_rounds_no_higher(n: nat, d: nat, i: nat, m: nat)
    requires
        d > 0,
        m < INFINITE,
        i <= doublings(m),
        n <= significand(m) * pow2((doublings(m) - i) as nat) * d,
    ensures
        pattern(n, d, i) <= m,
    decreases n - d,
{
    lemma_apart(m);
    let e = doublings(m);
    let sig = significand(m);
    vstd::arithmetic::power2::lemma2_to64();
    if i == e {
        assert(sig * 1 * d == sig * d) by (nonlinear_arith);
        assert(sig * d < 2 * STEP * d) by (nonlinear_arith)
            requires
                sig < 2 * STEP,
                d > 0,
        ;
        lemma_nearest_no_more(n, d, sig);
    } else if n >= 2 * STEP * d {
        assert(2 * STEP * d >= 2 * d) by (nonlinear_arith)
            requires
                d > 0,
        ;
        let g = pow2((e - i - 1) as nat);
        lemma_pow2_unfold((e - i) as nat);
        assert(sig * (2 * g) * d == sig * g * (2 * d)) by (nonlinear_arith);
        lemma_rounds_no_higher(n, 2 * d, i + 1, m);
    } else {
        lemma_nearest_no_more(n, d, (2 * STEP) as nat);
        assert((i + 1) * (STEP as nat) <= e * (STEP as nat)) by (nonlinear_arith)
            requires
                i + 1 <= e,
        ;
        assert((i + 1) * (STEP as nat) == i * (STEP as nat) + STEP) by (nonlinear_arith);
    }
}

/// The magnitude of a count that can be held exactly.
proof fn lemma_held_exactly(n: nat) -> (m: nat)
    requires
        0 < n < 2 * STEP,
    ensures
        m < INFINITE,
        units(m) == n * pow2(UNIT_DOUBLINGS as nat),
{
    vstd::arithmetic::power2::lemma2_to64();
    vstd::arithmetic::power2::lemma2_to64_rest();
    let i = lemma_stretched(n, 0);
    let h = (UNIT_DOUBLINGS - i) as nat;
    lemma_units_are(h, n * pow2(i));
    lemma_pow2_adds(i, h);
    assert((n * pow2(i)) * pow2(h) == n * (pow2(i) * pow2(h))) by (nonlinear_arith);
    h * (STEP as nat) + n * pow2(i)
}

/// How often a number is doubled until it is as long as a significand.
proof fn lemma_stretched(n: nat, i: nat) -> (r: nat)
    requires
        0 < n,
        i <= 52,
        n * pow2(i) < 2 * STEP,
        pow2(52) == STEP,
    ensures
        r <= 52,
        STEP <= n * pow2(r) < 2 * STEP,
    decreases 52 - i,
{
    if n * pow2(i) >= STEP {
        i
    } else {
        if i == 52 {
            assert(n * STEP >= STEP) by (nonlinear_arith)
                requires
                    n >= 1,
            ;
        }
        lemma_pow2_unfold(i + 1);
        assert(n * (2 * pow2(i)) == 2 * (n * pow2(i))) by (nonlinear_arith);
        lemma_stretched(n, i + 1)
    }
}

/// A count below 2^53 is held exactly.
pub proof fn law_counts_are_exact(n: u64)
    requires
        n < 2 * STEP,
    ensures
        counted(n).is_finite(),
        !counted(n).is_negative(),
        units(counted(n).magnitude() as nat) == n * pow2(UNIT_DOUBLINGS as nat),
        truncated(counted(n)) == n,
{
    let u = pow2(UNIT_DOUBLINGS as nat);
    lemma_pow2_pos(UNIT_DOUBLINGS as nat);
    let exact = n as nat * u;
    if n == 0 {
        assert(0 * u == 0) by (nonlinear_arith);
        assert(nearest(0, 1) == 0);
        lemma_apart(0);
        assert(units(0) == 0) by {
            assert(0 * pow2(0) == 0) by (nonlinear_arith);
        }
        assert(0nat / u == 0) by (nonlinear_arith)
            requires
                u > 0,
        ;
    } else {
        let m = lemma_held_exactly(n as nat);
        lemma_apart(m);
        assert(exact == significand(m) * pow2(doublings(m)) * 1);
        lemma_rounds_no_lower(exact, 1, 0, m);
        lemma_rounds_no_higher(exact, 1, 0, m);
        assert(exact / u == n) by (nonlinear_arith)
            requires
                exact == n * u,
                u > 0,
        ;
    }
}

/// One stands for so many units.
pub(crate) proof fn lemma_one()
    ensures
        units(ONE as nat) == pow2(UNIT_DOUBLINGS as nat),
{
    vstd::arithmetic::power2::lemma2_to64();
    vstd::arithmetic::power2::lemma2_to64_rest();
    lemma_units_are(1022, STEP as nat);
    lemma_pow2_adds(52, 1022);
}

pub(crate) proof fn lemma_units_in_order(x: nat, y: nat)
    requires
        x <= y < INFINITE,
    ensures
        units(x) <= units(y),
{
    if x < y {
        lemma_units_rise(y, x);
    }
}

/// A product of a count lies between the counts that the exact one lies
/// between, and so does its whole part.
pub proof fn law_products_are_bounded(n: u64, x: Reading, low: u64, high: u64)
    requires
        n < 2 * STEP,
        low < 2 * STEP,
        high < 2 * STEP,
        x.bits < INFINITE,
        low * pow2(UNIT_DOUBLINGS as nat) <= n * units(x.bits as nat) <= high * pow2(
            UNIT_DOUBLINGS as nat,
        ),
    ensures
        low <= truncated(product(counted(n), x)) <= high,
{
    law_counts_are_exact(n);
    law_counts_are_exact(low);
    law_counts_are_exact(high);
    let u = pow2(UNIT_DOUBLINGS as nat);
    lemma_pow2_pos(UNIT_DOUBLINGS as nat);
    let s = units(x.bits as nat);
    let exact = units(counted(n).magnitude() as nat) * s;
    let ml = counted(low).magnitude() as nat;
    let mh = counted(high).magnitude() as nat;
    lemma_apart(ml);
    lemma_apart(mh);
    assert(exact == (n * s) * u) by (nonlinear_arith)
        requires
            exact == (n * u) * s,
    ;
    assert(units(ml) * u <= exact <= units(mh) * u) by (nonlinear_arith)
        requires
            exact == (n * s) * u,
            units(ml) == low * u,
            units(mh) == high * u,
            low * u <= n * s <= high * u,
            u > 0,
    ;
    lemma_rounds_no_lower(exact, u, 0, ml);
    lemma_rounds_no_higher(exact, u, 0, mh);
    let p = product(counted(n), x).magnitude() as nat;
    lemma_units_in_order(ml, p);
    lemma_units_in_order(p, mh);
    assert(low <= units(p) / u <= high) by (nonlinear_arith)
        requires
            low * u <= units(p) <= high * u,
            u > 0,
    ;
}

/// What is no more than a magnitude does not round above it.
pub proof fn law_rounds_no_higher(n: nat, d: nat, m: u64)
    requires
        d > 0,
        m < INFINITE,
        n <= units(m as nat) * d,
    ensures
        magnitude_of(n, d) <= m,
{
    lemma_apart(m as nat);
    lemma_rounds_no_higher(n, d, 0, m as nat);
}

/// What is no less than a magnitude does not round below it.
pub proof fn law_rounds_no_lower(n: nat, d: nat, m: u64)
    requires
        d > 0,
        m < INFINITE,
        n >= units(m as nat) * d,
    ensures
        magnitude_of(n, d) >= m,
{
    lemma_apart(m as nat);
    lemma_rounds_no_lower(n, d, 0, m as nat);
}

/// A count times a share of it is no more than the count.
pub proof fn law_shares_shrink(n: u64, share: Reading)
    requires
        n < 2 * STEP,
        share.bits <= ONE,
    ensures
        truncated(product(counted(n), share)) <= n,
{
    lemma_one();
    lemma_units_in_order(share.bits as nat, ONE as nat);
    let u = pow2(UNIT_DOUBLINGS as nat);
    let s = units(share.bits as nat);
    assert(0 * u <= n * s <= n * u) by (nonlinear_arith)
        requires
            0 <= s <= u,
            n >= 0,
    ;
    law_products_are_bounded(n, share, 0, n);
}

/// A count times one or more is no less than the count.
pub proof fn law_multiples_grow(n: u64, factor: Reading)
    requires
        n < 2 * STEP,
        ONE <= factor.bits < INFINITE,
    ensures
        truncated(product(counted(n), factor)) >= n,
{
    law_counts_are_exact(n);
    lemma_one();
    lemma_units_in_order(ONE as nat, factor.bits as nat);
    let u = pow2(UNIT_DOUBLINGS as nat);
    lemma_pow2_pos(UNIT_DOUBLINGS as nat);
    let m = counted(n).magnitude() as nat;
    let s = units(factor.bits as nat);
    let exact = units(m) * s;
    lemma_apart(m);
    assert(exact >= units(m) * u) by (nonlinear_arith)
        requires
            exact == units(m) * s,
            s >= u,
            units(m) >= 0,
    ;
    lemma_rounds_no_lower(exact, u, 0, m);
    let p = product(counted(n), factor).magnitude() as nat;
    if p < INFINITE {
        lemma_units_in_order(m, p);
        assert(units(p) / u >= n) by (nonlinear_arith)
            requires
                units(p) >= n * u,
                u > 0,
        ;
    }
}

/// A positive sum lies between the readings that the exact one lies between.
pub proof fn law_sums_are_bounded(a: Reading, b: Reading, low: u64, high: u64)
    requires
        a.is_finite(),
        b.is_finite(),
        0 < low,
        low <= high < INFINITE,
        units(low as nat) <= a.value() + b.value() <= units(high as nat),
    ensures
        low <= sum(a, b).bits <= high,
{
    let exact = (a.value() + b.value()) as nat;
    lemma_apart(low as nat);
    lemma_apart(high as nat);
    lemma_units_rise(low as nat, 0);
    assert(units(low as nat) == units(low as nat) * 1);
    assert(units(high as nat) == units(high as nat) * 1);
    lemma_rounds_no_lower(exact, 1, 0, low as nat);
    lemma_rounds_no_higher(exact, 1, 0, high as nat);
}

} // verus!
