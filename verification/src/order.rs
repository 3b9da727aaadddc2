//! Arithmetic keeps the order of what it works on: rounding never turns two
//! results round.
use vstd::arithmetic::power2::{lemma_pow2_pos, pow2};
use vstd::prelude::*;

use crate::double::{
    clamped, difference, division, greater, lemma_units_rise, lesser, magnitude_of, nearest, pattern,
    product, sum, truncated, units, STEP, UNIT_DOUBLINGS,
};
use crate::ratio::{
    law_rounds_no_higher, law_rounds_no_lower, lemma_nearest_no_less, lemma_nearest_no_more,
    lemma_one, lemma_units_in_order,
};
use crate::reading::{Reading, INFINITE, ONE, ZERO};

verus! {

/// A number that is not negative.
pub open spec fn is_quantity(a: Reading) -> bool {
    !a.is_nan() && a.position() >= 0
}

proof fn lemma_nearest_in_order(n: nat, d: nat, m: nat, e: nat)
    requires
        d > 0,
        e > 0,
        n * e <= m * d,
    ensures
        nearest(n, d) <= nearest(m, e),
{
    let q = n / d;
    let r = n % d;
    let p = m / e;
    let s = m % e;
    vstd::arithmetic::div_mod::lemma_fundamental_div_mod(n as int, d as int);
    vstd::arithmetic::div_mod::lemma_fundamental_div_mod(m as int, e as int);
    assert(n * e == q * (d * e) + r * e) by (nonlinear_arith)
        requires
            n == d * q + r,
    ;
    assert(m * d == p * (d * e) + s * d) by (nonlinear_arith)
        requires
            m == e * p + s,
    ;
    assert(r * e < d * e && s * d < d * e && r * e >= 0 && s * d >= 0) by (nonlinear_arith)
        requires
            0 <= r < d,
            0 <= s < e,
    ;
    assert(q <= p) by (nonlinear_arith)
        requires
            q * (d * e) + r * e <= p * (d * e) + s * d,
            s * d < d * e,
            r * e >= 0,
            d * e > 0,
    ;
    if q == p {
        // the rests are in order too
        assert(r * e <= s * d);
        if 2 * r > d {
            assert(2 * s > e) by (nonlinear_arith)
                requires
                    r * e <= s * d,
                    2 * r > d,
                    d > 0,
                    e > 0,
            ;
        } else if 2 * r == d {
            assert(2 * s >= e) by (nonlinear_arith)
                requires
                    r * e <= s * d,
                    2 * r == d,
                    d > 0,
                    e > 0,
            ;
        }
    }
}

/// A larger quotient never has a smaller pattern.
proof fn lemma_patterns_in_order(n: nat, d: nat, m: nat, e: nat, i: nat)
    requires
        d > 0,
        e > 0,
        n * e <= m * d,
    ensures
        pattern(n, d, i) <= pattern(m, e, i),
    decreases m - e,
{
    assert(2 * STEP * d >= 2 * d && 2 * STEP * e >= 2 * e) by (nonlinear_arith)
        requires
            d > 0,
            e > 0,
    ;
    if n >= 2 * STEP * d {
        assert(m >= 2 * STEP * e) by (nonlinear_arith)
            requires
                n * e <= m * d,
                n >= 2 * STEP * d,
                d > 0,
                e > 0,
        ;
        assert(n * (2 * e) <= m * (2 * d)) by (nonlinear_arith)
            requires
                n * e <= m * d,
        ;
        lemma_patterns_in_order(n, 2 * d, m, 2 * e, i + 1);
    } else if m >= 2 * STEP * e {
        lemma_nearest_no_more(n, d, (2 * STEP) as nat);
        assert(STEP * (2 * e) == 2 * STEP * e) by (nonlinear_arith);
        lemma_pattern_no_less(m, 2 * e, i + 1);
        assert((i + 1) * (STEP as nat) == i * (STEP as nat) + STEP) by (nonlinear_arith);
    } else {
        lemma_nearest_in_order(n, d, m, e);
    }
}

proof fn lemma_pattern_no_less(n: nat, d: nat, i: nat)
    requires
        d > 0,
        n >= STEP * d,
    ensures
        pattern(n, d, i) >= i * (STEP as nat) + STEP,
    decreases n - d,
{
    if n >= 2 * STEP * d {
        assert(2 * STEP * d >= 2 * d) by (nonlinear_arith)
            requires
                d > 0,
        ;
        assert(STEP * (2 * d) == 2 * STEP * d) by (nonlinear_arith);
        lemma_pattern_no_less(n, 2 * d, i + 1);
        assert((i + 1) * (STEP as nat) == i * (STEP as nat) + STEP) by (nonlinear_arith);
    } else {
        lemma_nearest_no_less(n, d, STEP as nat);
    }
}

/// A larger quotient never rounds to less.
pub proof fn law_rounding_keeps_order(n: nat, d: nat, m: nat, e: nat)
    requires
        d > 0,
        e > 0,
        n * e <= m * d,
    ensures
        magnitude_of(n, d) <= magnitude_of(m, e),
{
    lemma_patterns_in_order(n, d, m, e, 0);
}

proof fn lemma_nothing(d: nat)
    requires
        d > 0,
    ensures
        units(0) == 0,
        magnitude_of(0, d) == 0,
{
    assert(0 * pow2(0) == 0) by (nonlinear_arith);
    vstd::arithmetic::div_mod::lemma_fundamental_div_mod(0, d as int);
    vstd::arithmetic::div_mod::lemma_small_mod(0, d);
    vstd::arithmetic::div_mod::lemma_div_basics(d as int);
    assert(2 * STEP * d > 0) by (nonlinear_arith)
        requires
            d > 0,
    ;
    assert(nearest(0, d) == 0);
}

/// A quantity stands for no fewer units than one before it.
proof fn lemma_values_in_order(a: Reading, b: Reading)
    requires
        is_quantity(a),
        b.is_finite(),
        a.position() <= b.position(),
    ensures
        a.is_finite(),
        a.value() == units(a.position() as nat),
        b.value() == units(b.position() as nat),
        0 <= a.value() <= b.value(),
        a.value() == 0 <==> a.position() == 0,
{
    lemma_nothing(1);
    lemma_units_in_order(a.position() as nat, b.position() as nat);
    if a.position() > 0 {
        lemma_units_rise(a.position() as nat, 0);
    }
}

/// A larger summand never makes a smaller sum.
pub proof fn law_sums_keep_order(a: Reading, b: Reading, c: Reading, d: Reading)
    requires
        is_quantity(a),
        is_quantity(b),
        is_quantity(c),
        is_quantity(d),
        a.position() <= c.position(),
        b.position() <= d.position(),
    ensures
        is_quantity(sum(a, b)),
        is_quantity(sum(c, d)),
        sum(a, b).position() <= sum(c, d).position(),
{
    if a.is_finite() && b.is_finite() {
        lemma_values_in_order(a, a);
        lemma_values_in_order(b, b);
    }
    if c.is_finite() && d.is_finite() {
        lemma_values_in_order(c, c);
        lemma_values_in_order(d, d);
        lemma_values_in_order(a, c);
        lemma_values_in_order(b, d);
        lemma_nothing(1);
        law_rounding_keeps_order(
            (a.value() + b.value()) as nat,
            1,
            (c.value() + d.value()) as nat,
            1,
        );
    }
}

/// A sum of quantities is no less than either of them.
pub proof fn law_sums_grow(a: Reading, b: Reading)
    requires
        is_quantity(a),
        is_quantity(b),
    ensures
        is_quantity(sum(a, b)),
        a.position() <= sum(a, b).position(),
        b.position() <= sum(a, b).position(),
{
    if a.is_finite() && b.is_finite() {
        lemma_values_in_order(a, a);
        lemma_values_in_order(b, b);
        law_rounds_no_lower((a.value() + b.value()) as nat, 1, a.position() as u64);
        law_rounds_no_lower((a.value() + b.value()) as nat, 1, b.position() as u64);
    }
}

/// Taking the same from more never leaves less.
pub proof fn law_differences_keep_order(a: Reading, b: Reading, taken: Reading)
    requires
        is_quantity(taken),
        taken.is_finite(),
        !a.is_nan(),
        !b.is_nan(),
        taken.position() <= a.position() <= b.position(),
    ensures
        is_quantity(difference(a, taken)),
        is_quantity(difference(b, taken)),
        difference(a, taken).position() <= difference(b, taken).position(),
{
    lemma_values_in_order(taken, taken);
    if a.is_finite() {
        lemma_values_in_order(taken, a);
        lemma_values_in_order(a, a);
    }
    if b.is_finite() {
        lemma_values_in_order(taken, b);
        lemma_values_in_order(a, b);
        lemma_nothing(1);
        law_rounding_keeps_order(
            (a.value() - taken.value()) as nat,
            1,
            (b.value() - taken.value()) as nat,
            1,
        );
    }
}

/// A larger factor never makes a smaller product.
pub proof fn law_products_keep_order(a: Reading, b: Reading, c: Reading, d: Reading)
    requires
        is_quantity(a),
        is_quantity(b),
        c.is_finite(),
        d.is_finite(),
        a.position() <= c.position(),
        b.position() <= d.position(),
    ensures
        is_quantity(product(a, b)),
        is_quantity(product(c, d)),
        product(a, b).position() <= product(c, d).position(),
{
    lemma_values_in_order(a, c);
    lemma_values_in_order(b, d);
    lemma_values_in_order(c, c);
    lemma_values_in_order(d, d);
    let u = pow2(UNIT_DOUBLINGS as nat);
    lemma_pow2_pos(UNIT_DOUBLINGS as nat);
    lemma_nothing(u);
    let (ua, ub) = (units(a.magnitude() as nat), units(b.magnitude() as nat));
    let (uc, ud) = (units(c.magnitude() as nat), units(d.magnitude() as nat));
    assert(ua * ub <= uc * ud && (ua * ub) * u <= (uc * ud) * u) by (nonlinear_arith)
        requires
            0 <= ua <= uc,
            0 <= ub <= ud,
            u > 0,
    ;
    assert((ua == 0 || ub == 0) ==> ua * ub == 0) by (nonlinear_arith);
    assert((uc == 0 || ud == 0) ==> uc * ud == 0) by (nonlinear_arith);
    law_rounding_keeps_order(ua * ub, u, uc * ud, u);
}

/// The same factor, that is not zero, keeps the order of quantities.
pub proof fn law_scaling_keeps_order(a: Reading, b: Reading, factor: Reading)
    requires
        is_quantity(a),
        is_quantity(b),
        a.position() <= b.position(),
        factor.is_finite(),
        factor.position() > 0,
    ensures
        is_quantity(product(a, factor)),
        is_quantity(product(b, factor)),
        product(a, factor).position() <= product(b, factor).position(),
{
    if b.is_finite() {
        law_products_keep_order(a, factor, b, factor);
    } else if a.is_finite() {
        law_products_keep_order(a, factor, a, factor);
    }
}

/// Adding a weighed part that is no less to a sum that is no less never gives
/// less.
pub proof fn law_weighed_sums_keep_order(
    low: Reading,
    high: Reading,
    weight: Reading,
    a: Reading,
    b: Reading,
)
    requires
        is_quantity(low),
        is_quantity(high),
        low.position() <= high.position(),
        is_quantity(weight),
        weight.is_finite(),
        is_quantity(a),
        b.is_finite(),
        a.position() <= b.position(),
    ensures
        is_quantity(sum(low, product(weight, a))),
        is_quantity(sum(high, product(weight, b))),
        sum(low, product(weight, a)).position() <= sum(high, product(weight, b)).position(),
{
    law_products_keep_order(weight, a, weight, b);
    law_sums_keep_order(low, product(weight, a), high, product(weight, b));
}

/// More over less is never less than less over more.
pub proof fn law_quotients_keep_order(a: Reading, b: Reading, c: Reading, d: Reading)
    requires
        is_quantity(a),
        !b.is_nan(),
        is_quantity(c),
        c.is_finite() || b.is_finite(),
        a.position() <= c.position(),
        0 < d.position() <= b.position(),
    ensures
        is_quantity(division(a, b)),
        is_quantity(division(c, d)),
        division(a, b).position() <= division(c, d).position(),
{
    let u = pow2(UNIT_DOUBLINGS as nat);
    lemma_pow2_pos(UNIT_DOUBLINGS as nat);
    if d.is_finite() && c.is_finite() {
        lemma_values_in_order(c, c);
        lemma_values_in_order(d, d);
        lemma_nothing(d.value() as nat);
        assert(0 * u == 0);
    }
    if b.is_finite() && a.is_finite() {
        lemma_values_in_order(a, a);
        lemma_values_in_order(b, b);
        lemma_nothing(b.value() as nat);
        assert(0 * u == 0);
    }
    if b.is_finite() && c.is_finite() {
        lemma_values_in_order(a, c);
        lemma_values_in_order(d, b);
        let (ua, ub) = (units(a.magnitude() as nat), units(b.magnitude() as nat));
        let (uc, ud) = (units(c.magnitude() as nat), units(d.magnitude() as nat));
        assert((ua * u) * ud <= (uc * u) * ub) by (nonlinear_arith)
            requires
                0 <= ua <= uc,
                0 <= ud <= ub,
                u > 0,
        ;
        law_rounding_keeps_order(ua * u, ub, uc * u, ud);
    }
}

/// A part of a whole is no more than one.
pub proof fn law_shares_are_at_most_one(part: Reading, whole: Reading)
    requires
        is_quantity(part),
        part.is_finite(),
        !whole.is_nan(),
        0 < whole.position(),
        part.position() <= whole.position(),
    ensures
        is_quantity(division(part, whole)),
        division(part, whole).position() <= ONE,
{
    law_quotients_keep_order(part, whole, part, whole);
    if whole.is_finite() {
        lemma_one();
        lemma_values_in_order(whole, whole);
        lemma_values_in_order(part, whole);
        let u = pow2(UNIT_DOUBLINGS as nat);
        let (up, uw) = (units(part.magnitude() as nat), units(whole.magnitude() as nat));
        assert(up * u <= u * uw) by (nonlinear_arith)
            requires
                0 <= up <= uw,
                u >= 0,
        ;
        law_rounds_no_higher(up * u, uw, ONE);
    }
}

/// Bringing two readings between the same bounds keeps their order.
pub proof fn law_bounds_keep_order(a: Reading, b: Reading, low: Reading, high: Reading)
    requires
        !a.is_nan(),
        !b.is_nan(),
        !low.is_nan(),
        !high.is_nan(),
        low.position() <= high.position(),
        a.position() <= b.position(),
    ensures
        low.position() <= clamped(a, low, high).position(),
        clamped(a, low, high).position() <= clamped(b, low, high).position(),
        clamped(b, low, high).position() <= high.position(),
{
}

/// What a share leaves of one is a share too.
pub proof fn law_rest_is_a_share(share: Reading)
    requires
        is_quantity(share),
        share.position() <= ONE,
    ensures
        is_quantity(difference(Reading { bits: ONE }, share)),
        difference(Reading { bits: ONE }, share).position() <= ONE,
{
    let one = Reading { bits: ONE };
    lemma_values_in_order(share, share);
    lemma_values_in_order(share, one);
    lemma_values_in_order(one, one);
    lemma_nothing(1);
    law_rounds_no_higher((one.value() - share.value()) as nat, 1, ONE);
}

/// A share of a share is a share.
pub proof fn law_shares_multiply(a: Reading, b: Reading)
    requires
        is_quantity(a),
        is_quantity(b),
        a.position() <= ONE,
        b.position() <= ONE,
    ensures
        is_quantity(product(a, b)),
        product(a, b).position() <= ONE,
{
    let one = Reading { bits: ONE };
    let u = pow2(UNIT_DOUBLINGS as nat);
    lemma_pow2_pos(UNIT_DOUBLINGS as nat);
    lemma_one();
    law_products_keep_order(a, b, one, one);
    law_rounds_no_higher(u * u, u, ONE);
}

/// One times a number is that number, on either side.
pub proof fn law_one_leaves_as_is(x: Reading)
    requires
        !x.is_nan(),
    ensures
        product(Reading { bits: ONE }, x) == x,
        product(x, Reading { bits: ONE }) == x,
{
    if x.is_finite() {
        let u = pow2(UNIT_DOUBLINGS as nat);
        lemma_pow2_pos(UNIT_DOUBLINGS as nat);
        lemma_one();
        let v = units(x.magnitude() as nat);
        assert(v * u == u * v) by (nonlinear_arith);
        law_rounds_no_higher(v * u, u, x.magnitude() as u64);
        law_rounds_no_lower(v * u, u, x.magnitude() as u64);
    }
}

/// Zero adds nothing to a number that is not negative, and zero times it is
/// zero.
pub proof fn law_zero_leaves_as_is(x: Reading)
    requires
        x.bits < INFINITE,
    ensures
        sum(x, Reading { bits: ZERO }) == x,
        sum(Reading { bits: ZERO }, x) == x,
        product(x, Reading { bits: ZERO }) == (Reading { bits: ZERO }),
        product(Reading { bits: ZERO }, x) == (Reading { bits: ZERO }),
        x.bits > 0 ==> division(Reading { bits: ZERO }, x) == (Reading { bits: ZERO }),
{
    let v = units(x.bits as nat);
    let u = pow2(UNIT_DOUBLINGS as nat);
    lemma_pow2_pos(UNIT_DOUBLINGS as nat);
    lemma_nothing(1);
    lemma_nothing(u);
    lemma_values_in_order(x, x);
    assert(v * 0 == 0 && 0 * v == 0 && 0 * u == 0) by (nonlinear_arith);
    if x.bits > 0 {
        lemma_nothing(v);
    }
    law_rounds_no_higher(v, 1, x.bits);
    law_rounds_no_lower(v, 1, x.bits);
}

/// A number over itself is one.
pub proof fn law_whole_is_one(x: Reading)
    requires
        0 < x.bits < INFINITE,
    ensures
        division(x, x) == (Reading { bits: ONE }),
{
    let u = units(x.bits as nat);
    let one = pow2(UNIT_DOUBLINGS as nat);
    lemma_one();
    lemma_units_rise(x.bits as nat, 0);
    assert(u * one == one * u) by (nonlinear_arith);
    law_rounds_no_higher(u * one, u, ONE);
    law_rounds_no_lower(u * one, u, ONE);
}

/// Numbers stand in the order of their exact values.
pub proof fn law_positions_follow_values(a: Reading, b: Reading)
    requires
        a.is_finite(),
        b.is_finite(),
    ensures
        a.position() <= b.position() <==> a.value() <= b.value(),
        a.position() < b.position() <==> a.value() < b.value(),
        a.value() > 0 <==> a.position() > 0,
        a.value() == 0 <==> a.position() == 0,
{
    let (x, y) = (a.magnitude() as nat, b.magnitude() as nat);
    lemma_nothing(1);
    if x > 0 {
        lemma_units_rise(x, 0);
    }
    if y > 0 {
        lemma_units_rise(y, 0);
    }
    if x < y {
        lemma_units_rise(y, x);
    }
    if y < x {
        lemma_units_rise(x, y);
    }
}

/// What a difference leaves above zero was taken from more.
pub proof fn law_positive_difference_is_a_gain(a: Reading, b: Reading)
    requires
        !difference(a, b).is_nan(),
        difference(a, b).position() > 0,
    ensures
        !a.is_nan(),
        !b.is_nan(),
        b.position() < a.position(),
{
    if a.is_finite() && b.is_finite() {
        law_positions_follow_values(b, a);
        lemma_nothing(1);
    }
}

/// A difference that is exactly so much or more is never rounded below that.
pub proof fn law_difference_reaches(a: Reading, b: Reading, least: Reading)
    requires
        a.is_finite(),
        b.is_finite(),
        least.is_finite(),
        a.value() - b.value() >= least.value(),
    ensures
        difference(a, b).at_least(least),
{
    let exact = a.value() - b.value();
    lemma_nothing(1);
    law_positions_follow_values(least, least);
    assert(b.negation().value() == -b.value());
    if exact > 0 {
        if least.value() > 0 {
            law_rounds_no_lower(exact as nat, 1, least.magnitude() as u64);
        }
    } else if exact < 0 {
        law_rounds_no_higher((-exact) as nat, 1, least.magnitude() as u64);
    }
}

/// Rounding is to the nearest: no other whole number is nearer, and of two
/// that are as near it is the even one.
pub proof fn law_rounding_is_to_the_nearest(n: nat, d: nat, k: nat)
    requires
        d > 0,
        k != nearest(n, d),
    ensures
        k < nearest(n, d) ==> nearest(n, d) * d - n <= n - k * d,
        k > nearest(n, d) ==> n - nearest(n, d) * d <= k * d - n,
        nearest(n, d) * d - n == n - k * d ==> nearest(n, d) % 2 == 0,
        n - nearest(n, d) * d == k * d - n ==> nearest(n, d) % 2 == 0,
{
    vstd::arithmetic::div_mod::lemma_fundamental_div_mod(n as int, d as int);
    let q = n / d;
    let rest = n % d;
    let r = nearest(n, d);
    assert(q * d == d * q) by (nonlinear_arith);
    assert((q + 1) * d == q * d + d) by (nonlinear_arith);
    if k < r {
        assert(k * d <= r * d - d) by (nonlinear_arith)
            requires
                k + 1 <= r,
        ;
        if k + 1 < r {
            assert(k * d <= r * d - 2 * d) by (nonlinear_arith)
                requires
                    k + 2 <= r,
            ;
        }
    } else {
        assert(k * d >= r * d + d) by (nonlinear_arith)
            requires
                k >= r + 1,
        ;
        if k > r + 1 {
            assert(k * d >= r * d + 2 * d) by (nonlinear_arith)
                requires
                    k >= r + 2,
            ;
        }
    }
}

/// The whole part of a reading is no more than the reading, and less than one
/// away; what is negative has none.
pub proof fn law_whole_part_drops_the_fraction(x: Reading)
    requires
        x.is_finite(),
        x.value() < 0x1_0000_0000_0000_0000 * pow2(UNIT_DOUBLINGS as nat),
    ensures
        x.value() < 0 ==> truncated(x) == 0,
        x.value() >= 0 ==> truncated(x) * pow2(UNIT_DOUBLINGS as nat) <= x.value() < (truncated(x)
            + 1) * pow2(UNIT_DOUBLINGS as nat),
{
    let u = pow2(UNIT_DOUBLINGS as nat);
    lemma_pow2_pos(UNIT_DOUBLINGS as nat);
    let v = units(x.magnitude() as nat);
    vstd::arithmetic::div_mod::lemma_fundamental_div_mod(v as int, u as int);
    let whole = v / u;
    assert(u * whole == whole * u && (whole + 1) * u == whole * u + u) by (nonlinear_arith);
    if x.is_negative() {
        if v == 0 {
            assert(0 * u == 0 && 1 * u == u) by (nonlinear_arith);
        }
    } else {
        assert(whole <= u64::MAX) by (nonlinear_arith)
            requires
                whole * u <= v,
                v < 0x1_0000_0000_0000_0000 * u,
                u > 0,
        ;
    }
}

/// The lesser and the greater of two numbers are the two, in order, and what
/// is brought between bounds lies there, unmoved where it did already.
pub proof fn law_bounds_bound(a: Reading, b: Reading, x: Reading)
    requires
        !a.is_nan(),
        !b.is_nan(),
        !x.is_nan(),
    ensures
        lesser(a, b).position() <= a.position() && lesser(a, b).position() <= b.position(),
        greater(a, b).position() >= a.position() && greater(a, b).position() >= b.position(),
        lesser(a, b) == a || lesser(a, b) == b,
        greater(a, b) == a || greater(a, b) == b,
        a.position() <= b.position() ==> a.position() <= clamped(x, a, b).position()
            <= b.position(),
        a.position() <= x.position() <= b.position() ==> clamped(x, a, b) == x,
{
}

} // verus!
