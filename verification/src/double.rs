//! Arithmetic on readings.
//!
//! A reading stands for a number of units, the smallest positive double. A
//! result is the reading nearest to the exact one, the even one of two that
//! are as near, as IEEE 754 has it.
use vstd::arithmetic::power2::{lemma_pow2_adds, lemma_pow2_pos, lemma_pow2_unfold, pow2};
use vstd::prelude::*;

use crate::reading::{Reading, ABSENT, INFINITE, SIGN};

verus! {

/// 2^52: one step of the exponent in the bit pattern of a double.
pub const STEP: u128 = 0x10_0000_0000_0000;

/// The integer nearest to `n / d`, the even one of two that are as near.
pub open spec fn nearest(n: nat, d: nat) -> nat {
    let below = n / d;
    let rest = n % d;
    if 2 * rest > d || (2 * rest == d && below % 2 == 1) {
        below + 1
    } else {
        below
    }
}

/// One is so many doublings of a unit.
pub const UNIT_DOUBLINGS: u32 = 1074;

/// How often the significand of a magnitude is doubled.
pub open spec fn doublings(magnitude: nat) -> nat {
    if magnitude < 2 * STEP {
        0
    } else {
        (magnitude / (STEP as nat) - 1) as nat
    }
}

pub open spec fn significand(magnitude: nat) -> nat {
    (magnitude - doublings(magnitude) * STEP) as nat
}

/// How many units a finite magnitude stands for.
pub open spec fn units(magnitude: nat) -> nat {
    significand(magnitude) * pow2(doublings(magnitude))
}

/// The magnitude nearest to `n / d` units, once the units were doubled so
/// often.
pub open spec fn pattern(n: nat, d: nat, doubled: nat) -> nat
    decreases n - d,
{
    if d > 0 && n >= 2 * STEP * d {
        proof {
            assert(2 * STEP * d >= 2 * d) by (nonlinear_arith)
                requires
                    d > 0,
            ;
        }
        pattern(n, 2 * d, doubled + 1)
    } else {
        doubled * (STEP as nat) + nearest(n, d)
    }
}

/// The magnitude nearest to `n / d` units; what is too large is infinite.
pub open spec fn magnitude_of(n: nat, d: nat) -> u64 {
    if pattern(n, d, 0) < INFINITE {
        pattern(n, d, 0) as u64
    } else {
        INFINITE
    }
}

pub open spec fn signed(negative: bool, magnitude: u64) -> Reading {
    Reading {
        bits: if negative {
            (SIGN + magnitude) as u64
        } else {
            magnitude
        },
    }
}

impl Reading {
    pub open spec fn is_negative(self) -> bool {
        self.bits >= SIGN
    }

    pub open spec fn is_infinite(self) -> bool {
        self.magnitude() == INFINITE
    }

    pub open spec fn is_zero(self) -> bool {
        self.magnitude() == 0
    }

    pub open spec fn is_finite(self) -> bool {
        self.magnitude() < INFINITE
    }

    /// How many units a finite reading stands for.
    pub open spec fn value(self) -> int {
        if self.is_negative() {
            -(units(self.magnitude() as nat) as int)
        } else {
            units(self.magnitude() as nat) as int
        }
    }

    pub open spec fn negation(self) -> Reading {
        signed(!self.is_negative(), self.magnitude() as u64)
    }
}

pub open spec fn not_a_number() -> Reading {
    Reading { bits: ABSENT }
}

pub open spec fn sum(a: Reading, b: Reading) -> Reading {
    if a.is_nan() || b.is_nan() {
        not_a_number()
    } else if a.is_infinite() && b.is_infinite() {
        if a.is_negative() == b.is_negative() {
            a
        } else {
            not_a_number()
        }
    } else if a.is_infinite() {
        a
    } else if b.is_infinite() {
        b
    } else {
        let exact = a.value() + b.value();
        if exact == 0 {
            signed(a.is_negative() && b.is_negative(), 0)
        } else if exact < 0 {
            signed(true, magnitude_of((-exact) as nat, 1))
        } else {
            signed(false, magnitude_of(exact as nat, 1))
        }
    }
}

pub open spec fn difference(a: Reading, b: Reading) -> Reading {
    sum(a, b.negation())
}

pub open spec fn product(a: Reading, b: Reading) -> Reading {
    let negative = a.is_negative() != b.is_negative();
    if a.is_nan() || b.is_nan() {
        not_a_number()
    } else if a.is_infinite() || b.is_infinite() {
        if a.is_zero() || b.is_zero() {
            not_a_number()
        } else {
            signed(negative, INFINITE)
        }
    } else {
        signed(
            negative,
            magnitude_of(
                units(a.magnitude() as nat) * units(b.magnitude() as nat),
                pow2(UNIT_DOUBLINGS as nat),
            ),
        )
    }
}

pub open spec fn division(a: Reading, b: Reading) -> Reading {
    let negative = a.is_negative() != b.is_negative();
    if a.is_nan() || b.is_nan() || (a.is_infinite() && b.is_infinite()) || (a.is_zero()
        && b.is_zero()) {
        not_a_number()
    } else if a.is_infinite() || b.is_zero() {
        signed(negative, INFINITE)
    } else if b.is_infinite() {
        signed(negative, 0)
    } else {
        signed(
            negative,
            magnitude_of(
                units(a.magnitude() as nat) * pow2(UNIT_DOUBLINGS as nat),
                units(b.magnitude() as nat),
            ),
        )
    }
}

/// Enough doublings to make every exponent below a count.
pub open spec fn far() -> nat {
    5000
}

/// Whether `n / d` is `p * 2^k`, or lies between that and the next multiple
/// where the rest is not known.
pub open spec fn stands_for(n: nat, d: nat, p: nat, k: int, inexact: bool) -> bool {
    let x = pow2((far() + k) as nat) * d;
    let c = pow2(far());
    &&& d > 0
    &&& far() + k >= 0
    &&& if inexact {
        p * x < n * c < (p + 1) * x
    } else {
        n * c == p * x
    }
}

pub(crate) proof fn lemma_pattern_from(n: nat, d: nat, i: nat, e: nat)
    requires
        d > 0,
        i <= e,
        i < e ==> n >= 2 * STEP * d * pow2((e - 1 - i) as nat),
        n < 2 * STEP * d * pow2((e - i) as nat),
    ensures
        pattern(n, d, i) == e * (STEP as nat) + nearest(n, d * pow2((e - i) as nat)),
    decreases e - i,
{
    vstd::arithmetic::power2::lemma2_to64();
    if i == e {
        assert(2 * STEP * d * 1 == 2 * STEP * d);
        assert(d * 1 == d) by (nonlinear_arith);
    } else {
        let a = pow2((e - 1 - i) as nat);
        lemma_pow2_pos((e - 1 - i) as nat);
        lemma_pow2_unfold((e - i) as nat);
        assert(pow2((e - i) as nat) == 2 * a);
        assert(2 * STEP * d * a >= 2 * STEP * d) by (nonlinear_arith)
            requires
                a >= 1,
                d > 0,
        ;
        assert(2 * STEP * (2 * d) * a == 2 * STEP * d * (2 * a)) by (nonlinear_arith);
        if i + 1 < e {
            let b = pow2((e - 2 - i) as nat);
            lemma_pow2_unfold((e - 1 - i) as nat);
            assert(a == 2 * b);
            assert(2 * STEP * (2 * d) * b == 2 * STEP * d * (2 * b)) by (nonlinear_arith);
        }
        lemma_pattern_from(n, 2 * d, i + 1, e);
        assert((2 * d) * a == d * (2 * a)) by (nonlinear_arith);
    }
}

/// How a rest of halves is rounded.
pub open spec fn rounds_up(q: nat, rem: nat, s: nat, inexact: bool) -> bool {
    if inexact {
        2 * rem >= s
    } else {
        2 * rem > s || (2 * rem == s && q % 2 == 1)
    }
}

proof fn lemma_nearest_scaled(n: nat, m: nat, p: nat, x: nat, s: nat, c: nat, inexact: bool)
    requires
        c > 0,
        x > 0,
        s > 0,
        m * c == s * x,
        inexact ==> s % 2 == 0 && p * x < n * c < (p + 1) * x,
        !inexact ==> n * c == p * x,
    ensures
        m > 0,
        nearest(n, m) == p / s + (if rounds_up(p / s, p % s, s, inexact) {
            1nat
        } else {
            0
        }),
{
    let q = p / s;
    let rem = p % s;
    vstd::arithmetic::div_mod::lemma_fundamental_div_mod(p as int, s as int);
    assert(p == s * q + rem);
    assert(m > 0) by (nonlinear_arith)
        requires
            m * c == s * x,
            s > 0,
            x > 0,
            m >= 0,
    ;
    let rest = n - q * m;
    assert(rest * c == n * c - q * (s * x)) by (nonlinear_arith)
        requires
            rest == n - q * m,
            m * c == s * x,
    ;
    assert(p * x == q * (s * x) + rem * x) by (nonlinear_arith)
        requires
            p == s * q + rem,
    ;
    assert((p + 1) * x == p * x + x) by (nonlinear_arith);
    assert(rem * x <= rest * c < rem * x + x);
    assert((rem + 1) * x <= s * x) by (nonlinear_arith)
        requires
            rem + 1 <= s,
            x > 0,
    ;
    assert((rem + 1) * x == rem * x + x) by (nonlinear_arith);
    assert(rem * x >= 0) by (nonlinear_arith)
        requires
            rem >= 0,
            x > 0,
    ;
    assert(rest >= 0) by (nonlinear_arith)
        requires
            rest * c >= 0,
            c > 0,
    ;
    assert(rest < m) by (nonlinear_arith)
        requires
            rest * c < m * c,
            c > 0,
    ;
    assert(n == q * m + rest);
    vstd::arithmetic::div_mod::lemma_fundamental_div_mod_converse(
        n as int,
        m as int,
        q as int,
        rest,
    );
    assert(n / m == q);
    assert(n % m == rest);
    assert((2 * rest) * c == 2 * (rest * c)) by (nonlinear_arith);
    // comparing twice the rest with the divisor is comparing their multiples
    if 2 * rem > s {
        assert((2 * rem) * x > s * x) by (nonlinear_arith)
            requires
                2 * rem > s,
                x > 0,
        ;
        assert((2 * rem) * x == 2 * (rem * x)) by (nonlinear_arith);
        assert(2 * rest > m) by (nonlinear_arith)
            requires
                (2 * rest) * c > m * c,
                c > 0,
        ;
    } else if 2 * rem == s {
        assert((2 * rem) * x == 2 * (rem * x)) by (nonlinear_arith);
        if inexact {
            assert(2 * rest > m) by (nonlinear_arith)
                requires
                    (2 * rest) * c > m * c,
                    c > 0,
            ;
        } else {
            assert(2 * rest == m) by (nonlinear_arith)
                requires
                    (2 * rest) * c == m * c,
                    c > 0,
            ;
        }
    } else {
        if inexact {
            assert(2 * rem + 2 <= s);
            assert((2 * rem + 2) * x <= s * x) by (nonlinear_arith)
                requires
                    2 * rem + 2 <= s,
                    x > 0,
            ;
            assert((2 * rem + 2) * x == 2 * (rem * x + x)) by (nonlinear_arith);
        } else {
            assert((2 * rem) * x < s * x) by (nonlinear_arith)
                requires
                    2 * rem < s,
                    x > 0,
            ;
            assert((2 * rem) * x == 2 * (rem * x)) by (nonlinear_arith);
        }
        assert(2 * rest < m) by (nonlinear_arith)
            requires
                (2 * rest) * c < m * c,
                c > 0,
        ;
    }
}

/// Two to the power of `n`.
fn power_of_two(n: u32) -> (r: u128)
    requires
        n < 128,
    ensures
        r == pow2(n as nat),
{
    let mut r: u128 = 1;
    let mut i: u32 = 0;
    proof {
        vstd::arithmetic::power2::lemma2_to64();
    }
    while i < n
        invariant
            i <= n < 128,
            r == pow2(i as nat),
        decreases n - i,
    {
        proof {
            lemma_pow2_unfold((i + 1) as nat);
            lemma_pow2_below((i + 1) as nat, 127);
            lemma_pow2_127();
        }
        r = r * 2;
        i += 1;
    }
    r
}

proof fn lemma_pow2_127()
    ensures
        pow2(127) == 0x8000_0000_0000_0000_0000_0000_0000_0000,
        pow2(53) == 2 * STEP,
        pow2(64) == 0x1_0000_0000_0000_0000,
{
    vstd::arithmetic::power2::lemma2_to64();
    vstd::arithmetic::power2::lemma2_to64_rest();
    lemma_pow2_adds(64, 63);
    assert(0x1_0000_0000_0000_0000 * 0x8000_0000_0000_0000
        == 0x8000_0000_0000_0000_0000_0000_0000_0000) by (nonlinear_arith);
}

proof fn lemma_pow2_below(a: nat, b: nat)
    requires
        a <= b,
    ensures
        pow2(a) <= pow2(b),
{
    if a < b {
        vstd::arithmetic::power2::lemma_pow2_strictly_increases(a, b);
    }
}

/// How many binary digits the number has.
fn digits(p: u128) -> (t: u32)
    requires
        0 < p,
        p < pow2(120),
    ensures
        0 < t <= 120,
        pow2((t - 1) as nat) <= p < pow2(t as nat),
{
    let mut t: u32 = 1;
    let mut limit: u128 = 2;
    proof {
        vstd::arithmetic::power2::lemma2_to64();
        lemma_pow2_127();
        lemma_pow2_below(120, 126);
        lemma_pow2_unfold(127);
    }
    while p >= limit
        invariant
            0 < t <= 120,
            limit == pow2(t as nat),
            pow2((t - 1) as nat) <= p < pow2(120),
            pow2(120) <= 0x4000_0000_0000_0000_0000_0000_0000_0000,
        decreases 120 - t,
    {
        proof {
            if t >= 120 {
                assert(false);
            }
            lemma_pow2_unfold((t + 1) as nat);
            lemma_pow2_below((t + 1) as nat, 120);
        }
        limit = limit * 2;
        t += 1;
    }
    t
}

/// The magnitude nearest to `p * 2^k` units, where `inexact` says that there
/// is a rest below that.
pub(crate) fn pack(p: u128, k: i64, inexact: bool) -> (r: u64)
    requires
        0 < p,
        p < pow2(120),
        -4000 <= k <= 4000,
        inexact ==> p >= pow2(60),
    ensures
        forall|n: nat, d: nat|
            #[trigger] stands_for(n, d, p as nat, k as int, inexact) ==> r == magnitude_of(n, d),
        r <= INFINITE,
{
    let t: u32 = digits(p);
    let top: i64 = t as i64 + k - 53;
    let e: i64 = if top > 0 {
        top
    } else {
        0
    };
    proof {
        if inexact && t < 60 {
            lemma_pow2_below(t as nat, 60);
        }
    }
    let mant: u128;
    if e >= k {
        let s: i64 = e - k;
        if s >= 128 {
            mant = 0;
            proof {
                assert forall|n: nat, d: nat|
                    #[trigger] stands_for(n, d, p as nat, k as int, inexact) implies nearest(
                    n,
                    d * pow2(e as nat),
                ) == mant by {
                    lemma_vanishes(n, d, p as nat, k as int, inexact, e as nat);
                }
            }
        } else {
            let unit: u128 = power_of_two(s as u32);
            proof {
                lemma_pow2_pos(s as nat);
                lemma_pow2_below(s as nat, 127);
                lemma_pow2_127();
            }
            let q: u128 = p / unit;
            let rem: u128 = p % unit;
            let up = if inexact {
                rem >= unit - rem
            } else {
                rem > unit - rem || (rem == unit - rem && q % 2 == 1)
            };
            proof {
                assert(q <= p) by (nonlinear_arith)
                    requires
                        q == p / unit,
                        unit >= 1,
                        p > 0,
                ;
                lemma_pow2_below(120, 127);
            }
            mant = if up {
                q + 1
            } else {
                q
            };
            proof {
                if inexact {
                    lemma_pow2_unfold(s as nat);
                }
                assert forall|n: nat, d: nat|
                    #[trigger] stands_for(n, d, p as nat, k as int, inexact) implies nearest(
                    n,
                    d * pow2(e as nat),
                ) == mant by {
                    lemma_scales(n, d, k as int, e as nat, s as nat);
                    let x = pow2((far() + k) as nat) * d;
                    lemma_pow2_pos((far() + k) as nat);
                    lemma_pow2_pos(far());
                    assert(x > 0) by (nonlinear_arith)
                        requires
                            x == pow2((far() + k) as nat) * d,
                            pow2((far() + k) as nat) > 0,
                            d > 0,
                    ;
                    lemma_nearest_scaled(
                        n,
                        d * pow2(e as nat),
                        p as nat,
                        x,
                        unit as nat,
                        pow2(far()),
                        inexact,
                    );
                }
            }
        }
    } else {
        let s: i64 = k - e;
        proof {
            assert(s <= 53 - t);
        }
        let unit: u128 = power_of_two(s as u32);
        proof {
            lemma_pow2_127();
            lemma_pow2_below(s as nat, 53);
            lemma_pow2_below(t as nat, 53);
            assert(p * unit <= 0x20_0000_0000_0000 * 0x20_0000_0000_0000) by (nonlinear_arith)
                requires
                    p <= 0x20_0000_0000_0000,
                    unit <= 0x20_0000_0000_0000,
            ;
        }
        mant = p * unit;
        proof {
            assert forall|n: nat, d: nat|
                #[trigger] stands_for(n, d, p as nat, k as int, inexact) implies nearest(
                n,
                d * pow2(e as nat),
            ) == mant by {
                lemma_stretches(n, d, p as nat, k as int, e as nat, s as nat);
            }
        }
    }
    proof {
        assert forall|n: nat, d: nat|
            #[trigger] stands_for(n, d, p as nat, k as int, inexact) implies pattern(n, d, 0)
            == e * (STEP as nat) + mant by {
            lemma_reaches(n, d, p as nat, k as int, inexact, t as nat, e as nat);
            lemma_pattern_from(n, d, 0, e as nat);
        }
    }
    let bits: u128 = e as u128 * STEP;
    if mant >= INFINITE as u128 || bits >= INFINITE as u128 || bits + mant >= INFINITE as u128 {
        INFINITE
    } else {
        (bits + mant) as u64
    }
}

/// The divisor at the place of the result, against the given scale.
proof fn lemma_scales(n: nat, d: nat, k: int, e: nat, s: nat)
    requires
        far() + k >= 0,
        s == e - k,
    ensures
        (d * pow2(e)) * pow2(far()) == pow2(s) * (pow2((far() + k) as nat) * d),
{
    lemma_pow2_adds(e, far());
    lemma_pow2_adds(s, (far() + k) as nat);
    assert(e + far() == s + (far() + k) as nat);
    let a = pow2(e);
    let c = pow2(far());
    let b = pow2(s);
    let g = pow2((far() + k) as nat);
    assert((d * a) * c == b * (g * d)) by (nonlinear_arith)
        requires
            a * c == b * g,
    ;
}

proof fn lemma_vanishes(n: nat, d: nat, p: nat, k: int, inexact: bool, e: nat)
    requires
        stands_for(n, d, p, k, inexact),
        p < pow2(120),
        e - k >= 128,
    ensures
        nearest(n, d * pow2(e)) == 0,
{
    let s = (e - k) as nat;
    lemma_scales(n, d, k, e, s);
    let x = pow2((far() + k) as nat) * d;
    let c = pow2(far());
    let m = d * pow2(e);
    lemma_pow2_pos((far() + k) as nat);
    lemma_pow2_pos(far());
    lemma_pow2_below(121, s);
    lemma_pow2_unfold(121);
    assert(x > 0) by (nonlinear_arith)
        requires
            x == pow2((far() + k) as nat) * d,
            pow2((far() + k) as nat) > 0,
            d > 0,
    ;
    assert(n * c <= (p + 1) * x) by {
        assert((p + 1) * x == p * x + x) by (nonlinear_arith);
    }
    assert((p + 1) * x <= pow2(120) * x) by (nonlinear_arith)
        requires
            p + 1 <= pow2(120),
            x > 0,
    ;
    assert(pow2(s) * x >= (2 * pow2(120)) * x) by (nonlinear_arith)
        requires
            pow2(s) >= 2 * pow2(120),
            x > 0,
    ;
    assert((2 * pow2(120)) * x == 2 * (pow2(120) * x)) by (nonlinear_arith);
    assert((2 * n) * c == 2 * (n * c)) by (nonlinear_arith);
    assert(m * c >= (2 * n) * c);
    assert(m >= 2 * n) by (nonlinear_arith)
        requires
            m * c >= (2 * n) * c,
            c > 0,
    ;
    assert(m > 0) by (nonlinear_arith)
        requires
            m * c == pow2(s) * x,
            pow2(s) > 0,
            x > 0,
            m >= 0,
    ;
    if n == 0 {
        vstd::arithmetic::div_mod::lemma_fundamental_div_mod_converse(0, m as int, 0, 0);
    } else {
        assert(n < m);
        vstd::arithmetic::div_mod::lemma_fundamental_div_mod_converse(
            n as int,
            m as int,
            0,
            n as int,
        );
    }
}

proof fn lemma_stretches(n: nat, d: nat, p: nat, k: int, e: nat, s: nat)
    requires
        stands_for(n, d, p, k, false),
        s == k - e,
    ensures
        nearest(n, d * pow2(e)) == p * pow2(s),
{
    let c = pow2(far());
    let m = d * pow2(e);
    let q = p * pow2(s);
    lemma_pow2_pos(far());
    lemma_pow2_pos(e);
    lemma_pow2_adds(s, e + far());
    lemma_pow2_adds(e, far());
    assert(s + (e + far()) == (far() + k) as nat);
    let a = pow2(e);
    let b = pow2(s);
    let g = pow2((far() + k) as nat);
    assert(n * c == (q * m) * c) by (nonlinear_arith)
        requires
            n * c == p * (g * d),
            g == b * (a * c),
            q == p * b,
            m == d * a,
    ;
    assert(n == q * m) by (nonlinear_arith)
        requires
            n * c == (q * m) * c,
            c > 0,
    ;
    assert(m > 0) by (nonlinear_arith)
        requires
            m == d * a,
            d > 0,
            a > 0,
    ;
    vstd::arithmetic::div_mod::lemma_fundamental_div_mod_converse(n as int, m as int, q as int, 0);
}

proof fn lemma_reaches(n: nat, d: nat, p: nat, k: int, inexact: bool, t: nat, e: nat)
    requires
        stands_for(n, d, p, k, inexact),
        0 < t,
        pow2((t - 1) as nat) <= p < pow2(t),
        e == (if t + k - 53 > 0 {
            t + k - 53
        } else {
            0
        }),
    ensures
        0 < e ==> n >= 2 * STEP * d * pow2((e - 1) as nat),
        n < 2 * STEP * d * pow2(e),
{
    lemma_pow2_127();
    let c = pow2(far());
    let g = pow2((far() + k) as nat);
    let x = g * d;
    lemma_pow2_pos(far());
    lemma_pow2_pos((far() + k) as nat);
    assert(x > 0) by (nonlinear_arith)
        requires
            x == g * d,
            g > 0,
            d > 0,
    ;
    assert((p + 1) * x == p * x + x) by (nonlinear_arith);
    // from above
    let hi = pow2(t);
    assert((p + 1) * x <= hi * x) by (nonlinear_arith)
        requires
            p + 1 <= hi,
            x > 0,
    ;
    lemma_pow2_adds(t, (far() + k) as nat);
    lemma_pow2_adds(53, e + far());
    lemma_pow2_adds(e, far());
    lemma_pow2_below((t + (far() + k) as nat) as nat, (53 + (e + far())) as nat);
    let a = pow2(e);
    assert(hi * g <= 2 * STEP * (a * c));
    assert(hi * x <= (2 * STEP * d * a) * c) by (nonlinear_arith)
        requires
            x == g * d,
            hi * g <= 2 * STEP * (a * c),
            d > 0,
    ;
    assert(n * c < (2 * STEP * d * a) * c);
    assert(n < 2 * STEP * d * a) by (nonlinear_arith)
        requires
            n * c < (2 * STEP * d * a) * c,
            c > 0,
    ;
    // from below
    if e > 0 {
        let lo = pow2((t - 1) as nat);
        let b = pow2((e - 1) as nat);
        assert(p * x >= lo * x) by (nonlinear_arith)
            requires
                p >= lo,
                x > 0,
        ;
        lemma_pow2_adds((t - 1) as nat, (far() + k) as nat);
        lemma_pow2_adds(53, ((e - 1) as nat) + far());
        lemma_pow2_adds((e - 1) as nat, far());
        assert((t - 1) as nat + (far() + k) as nat == 53 + ((e - 1) as nat + far()));
        assert(lo * g == 2 * STEP * (b * c));
        assert(lo * x == (2 * STEP * d * b) * c) by (nonlinear_arith)
            requires
                x == g * d,
                lo * g == 2 * STEP * (b * c),
        ;
        assert(n * c >= (2 * STEP * d * b) * c);
        assert(n >= 2 * STEP * d * b) by (nonlinear_arith)
            requires
                n * c >= (2 * STEP * d * b) * c,
                c > 0,
        ;
    }
}

pub(crate) proof fn lemma_apart(magnitude: nat)
    requires
        magnitude < INFINITE,
    ensures
        magnitude == doublings(magnitude) * STEP + significand(magnitude),
        significand(magnitude) < 2 * STEP,
        doublings(magnitude) > 0 ==> significand(magnitude) >= STEP,
        doublings(magnitude) <= 2045,
        significand(magnitude) == 0 <==> magnitude == 0,
{
}

/// A larger magnitude stands for more units.
pub(crate) proof fn lemma_units_rise(x: nat, y: nat)
    requires
        y < x < INFINITE,
    ensures
        units(y) < units(x),
{
    lemma_apart(x);
    lemma_apart(y);
    let mx = significand(x);
    let my = significand(y);
    let ex = doublings(x);
    let ey = doublings(y);
    lemma_pow2_pos(ex);
    lemma_pow2_pos(ey);
    if ex == ey {
        assert(my * pow2(ey) < mx * pow2(ex)) by (nonlinear_arith)
            requires
                my < mx,
                ex == ey,
                pow2(ex) > 0,
        ;
    } else {
        assert(ey < ex);
        let g = (ex - ey) as nat;
        lemma_pow2_adds(ey, g);
        lemma_pow2_below(1, g);
        vstd::arithmetic::power2::lemma2_to64();
        assert(my * pow2(ey) < mx * pow2(ex)) by (nonlinear_arith)
            requires
                my < 2 * STEP,
                mx >= STEP,
                pow2(ex) == pow2(ey) * pow2(g),
                pow2(g) >= 2,
                pow2(ey) > 0,
        ;
    }
}

pub(crate) fn take_apart(magnitude: u64) -> (r: (u128, u32))
    requires
        magnitude < INFINITE,
    ensures
        r.0 == significand(magnitude as nat),
        r.1 == doublings(magnitude as nat),
        r.0 < 2 * STEP,
        r.1 <= 2045,
{
    proof {
        lemma_apart(magnitude as nat);
    }
    let step: u64 = 0x10_0000_0000_0000;
    if magnitude < 2 * step {
        (magnitude as u128, 0)
    } else {
        let e: u64 = magnitude / step - 1;
        ((magnitude - e * step) as u128, e as u32)
    }
}

/// The magnitude of the sum of two magnitudes, the first being the larger.
fn add_magnitudes(x: u64, y: u64) -> (r: u64)
    requires
        y <= x < INFINITE,
        0 < x,
    ensures
        r == magnitude_of(units(x as nat) + units(y as nat), 1),
        r <= INFINITE,
{
    let (mx, ex) = take_apart(x);
    let (my, ey) = take_apart(y);
    proof {
        lemma_apart(x as nat);
        lemma_apart(y as nat);
        lemma_pow2_127();
        lemma_pow2_below(117, 120);
        lemma_pow2_adds(53, 64);
        lemma_pow2_unfold(118);
        lemma_pow2_below(118, 120);
    }
    let ghost n = units(x as nat) + units(y as nat);
    let d: u32 = ex - ey;
    if d <= 64 {
        let unit: u128 = power_of_two(d);
        proof {
            lemma_pow2_below(d as nat, 64);
            lemma_pow2_pos(d as nat);
            lemma_shifted(mx as nat, unit as nat);
        }
        let p: u128 = mx * unit + my;
        proof {
            assert(mx * unit > 0) by (nonlinear_arith)
                requires
                    mx > 0,
                    unit > 0,
            ;
            lemma_exact_sum(mx as nat, my as nat, ex as nat, ey as nat, n);
        }
        pack(p, ey as i64, false)
    } else if my == 0 {
        proof {
            assert(units(y as nat) == 0) by (nonlinear_arith)
                requires
                    units(y as nat) == 0 * pow2(ey as nat),
            ;
            lemma_plain(mx as nat, ex as nat);
        }
        pack(mx, ex as i64, false)
    } else {
        let p: u128 = mx * 2048;
        proof {
            lemma_small_rest(mx as nat, my as nat, ex as nat, ey as nat);
            assert(stands_for(n, 1, p as nat, ex - 11, true));
            vstd::arithmetic::power2::lemma2_to64_rest();
            lemma_pow2_below(64, 120);
        }
        pack(p, ex as i64 - 11, true)
    }
}

/// The magnitude of the difference of two magnitudes, the first being the
/// larger.
fn subtract_magnitudes(x: u64, y: u64) -> (r: u64)
    requires
        y < x < INFINITE,
    ensures
        r == magnitude_of((units(x as nat) - units(y as nat)) as nat, 1),
        r <= INFINITE,
{
    let (mx, ex) = take_apart(x);
    let (my, ey) = take_apart(y);
    proof {
        lemma_apart(x as nat);
        lemma_apart(y as nat);
        lemma_units_rise(x as nat, y as nat);
        lemma_pow2_127();
        lemma_pow2_adds(53, 64);
        lemma_pow2_below(117, 120);
    }
    let ghost n = (units(x as nat) - units(y as nat)) as nat;
    let d: u32 = ex - ey;
    if d <= 64 {
        let unit: u128 = power_of_two(d);
        proof {
            lemma_pow2_below(d as nat, 64);
            lemma_pow2_pos(d as nat);
            lemma_shifted(mx as nat, unit as nat);
            lemma_aligned(mx as nat, my as nat, ex as nat, ey as nat);
        }
        let p: u128 = mx * unit - my;
        proof {
            lemma_exact_difference(mx as nat, my as nat, ex as nat, ey as nat, n);
        }
        pack(p, ey as i64, false)
    } else if my == 0 {
        proof {
            assert(units(y as nat) == 0) by (nonlinear_arith)
                requires
                    units(y as nat) == 0 * pow2(ey as nat),
            ;
            lemma_plain(mx as nat, ex as nat);
        }
        pack(mx, ex as i64, false)
    } else {
        let p: u128 = mx * 2048 - 1;
        proof {
            lemma_small_rest(mx as nat, my as nat, ex as nat, ey as nat);
            assert(stands_for(n, 1, p as nat, ex - 11, true));
            vstd::arithmetic::power2::lemma2_to64_rest();
            lemma_pow2_below(64, 120);
        }
        pack(p, ex as i64 - 11, true)
    }
}

proof fn lemma_shifted(m: nat, unit: nat)
    requires
        m < 2 * STEP,
        unit <= 0x1_0000_0000_0000_0000,
    ensures
        m * unit + 2 * STEP <= 0x20_0000_0000_0000 * 0x1_0000_0000_0000_0000,
{
    assert(m * unit <= 0x1f_ffff_ffff_ffff * 0x1_0000_0000_0000_0000) by (nonlinear_arith)
        requires
            m <= 0x1f_ffff_ffff_ffff,
            unit <= 0x1_0000_0000_0000_0000,
    ;
}

proof fn lemma_plain(m: nat, e: nat)
    ensures
        stands_for(m * pow2(e), 1, m, e as int, false),
{
    lemma_pow2_adds(far(), e);
    let c = pow2(far());
    let a = pow2(e);
    assert((m * a) * c == m * ((c * a) * 1)) by (nonlinear_arith);
}

/// Two numbers of units on the scale of the smaller one.
proof fn lemma_aligned(mx: nat, my: nat, ex: nat, ey: nat)
    requires
        ey <= ex,
        my * pow2(ey) < mx * pow2(ex),
    ensures
        my < mx * pow2((ex - ey) as nat),
{
    lemma_pow2_adds((ex - ey) as nat, ey);
    lemma_pow2_pos(ey);
    let b = pow2(ey);
    let g = pow2((ex - ey) as nat);
    assert(my < mx * g) by (nonlinear_arith)
        requires
            my * b < mx * (g * b),
            b > 0,
    ;
}

proof fn lemma_exact_sum(mx: nat, my: nat, ex: nat, ey: nat, n: nat)
    requires
        ey <= ex,
        n == mx * pow2(ex) + my * pow2(ey),
    ensures
        stands_for(n, 1, mx * pow2((ex - ey) as nat) + my, ey as int, false),
{
    let g = pow2((ex - ey) as nat);
    let b = pow2(ey);
    let p = mx * g + my;
    lemma_pow2_adds((ex - ey) as nat, ey);
    assert(n == p * b) by (nonlinear_arith)
        requires
            n == mx * (g * b) + my * b,
            p == mx * g + my,
    ;
    lemma_plain(p, ey);
}

proof fn lemma_exact_difference(mx: nat, my: nat, ex: nat, ey: nat, n: nat)
    requires
        ey <= ex,
        n == mx * pow2(ex) - my * pow2(ey),
        my <= mx * pow2((ex - ey) as nat),
    ensures
        stands_for(n, 1, (mx * pow2((ex - ey) as nat) - my) as nat, ey as int, false),
{
    let g = pow2((ex - ey) as nat);
    let b = pow2(ey);
    let p = (mx * g - my) as nat;
    lemma_pow2_adds((ex - ey) as nat, ey);
    assert(n == p * b) by (nonlinear_arith)
        requires
            n == mx * (g * b) - my * b,
            p == mx * g - my,
    ;
    lemma_plain(p, ey);
}

/// A number of units that is far below another is less than one step on a
/// scale that is a little finer than that of the other.
proof fn lemma_small_rest(mx: nat, my: nat, ex: nat, ey: nat)
    requires
        ex >= ey + 65,
        0 < my < 2 * STEP,
        mx >= 1,
    ensures
        ({
            let x = pow2((far() + (ex - 11)) as nat) * 1;
            let c = pow2(far());
            let big = (mx * pow2(ex)) * c;
            let small = (my * pow2(ey)) * c;
            &&& big == (mx * 2048) * x
            &&& 0 < small < x
            &&& (mx * pow2(ex) + my * pow2(ey)) * c == big + small
            &&& (mx * pow2(ex) - my * pow2(ey)) * c == big - small
            &&& ((mx * 2048) + 1) * x == (mx * 2048) * x + x
            &&& ((mx * 2048) - 1) * x == (mx * 2048) * x - x
        }),
{
    let c = pow2(far());
    let g = pow2((far() + (ex - 11)) as nat);
    let a = pow2(ex);
    let b = pow2(ey);
    let x = g * 1;
    vstd::arithmetic::power2::lemma2_to64();
    lemma_pow2_127();
    lemma_pow2_pos(far());
    lemma_pow2_pos(ey);
    lemma_pow2_adds(ex, far());
    lemma_pow2_adds(11, (far() + (ex - 11)) as nat);
    assert(pow2(11) == 2048);
    assert(a * c == 2048 * g);
    assert((mx * a) * c == (mx * 2048) * x) by (nonlinear_arith)
        requires
            a * c == 2048 * g,
            x == g * 1,
    ;
    lemma_pow2_adds(53, ey + far());
    lemma_pow2_adds(ey, far());
    lemma_pow2_below((53 + (ey + far())) as nat, (far() + (ex - 11)) as nat);
    assert((2 * STEP) * (b * c) <= g);
    assert(0 < (my * b) * c) by (nonlinear_arith)
        requires
            my > 0,
            b > 0,
            c > 0,
    ;
    assert((my * b) * c < (2 * STEP) * (b * c)) by (nonlinear_arith)
        requires
            my < 2 * STEP,
            b > 0,
            c > 0,
    ;
    assert((mx * a + my * b) * c == (mx * a) * c + (my * b) * c) by (nonlinear_arith);
    assert((mx * a - my * b) * c == (mx * a) * c - (my * b) * c) by (nonlinear_arith);
    assert(((mx * 2048) + 1) * x == (mx * 2048) * x + x) by (nonlinear_arith);
    assert(((mx * 2048) - 1) * x == (mx * 2048) * x - x) by (nonlinear_arith);
}

pub(crate) fn magnitude_bits(r: Reading) -> (m: u64)
    ensures
        m == r.magnitude(),
        m < SIGN,
{
    if r.bits >= SIGN {
        r.bits - SIGN
    } else {
        r.bits
    }
}

pub(crate) fn with_sign(negative: bool, magnitude: u64) -> (r: Reading)
    requires
        magnitude <= INFINITE,
    ensures
        r == signed(negative, magnitude),
{
    Reading {
        bits: if negative {
            SIGN + magnitude
        } else {
            magnitude
        },
    }
}

pub fn plus(a: Reading, b: Reading) -> (r: Reading)
    ensures
        r == sum(a, b),
{
    let x: u64 = magnitude_bits(a);
    let y: u64 = magnitude_bits(b);
    let a_negative = a.bits >= SIGN;
    let b_negative = b.bits >= SIGN;
    if x > INFINITE || y > INFINITE {
        return Reading { bits: ABSENT };
    }
    if x == INFINITE && y == INFINITE {
        if a_negative == b_negative {
            return a;
        }
        return Reading { bits: ABSENT };
    }
    if x == INFINITE {
        return a;
    }
    if y == INFINITE {
        return b;
    }
    proof {
        if x > y {
            lemma_units_rise(x as nat, y as nat);
        }
        if y > x {
            lemma_units_rise(y as nat, x as nat);
        }
        if x > 0 {
            lemma_units_rise(x as nat, 0);
        }
        if y > 0 {
            lemma_units_rise(y as nat, 0);
        }
        assert(units(0) == 0) by {
            assert(0 * pow2(0) == 0) by (nonlinear_arith);
        }
    }
    if a_negative == b_negative {
        if x == 0 && y == 0 {
            return with_sign(a_negative, 0);
        }
        let m: u64 = if x >= y {
            add_magnitudes(x, y)
        } else {
            add_magnitudes(y, x)
        };
        with_sign(a_negative, m)
    } else if x == y {
        with_sign(false, 0)
    } else if x > y {
        with_sign(a_negative, subtract_magnitudes(x, y))
    } else {
        with_sign(b_negative, subtract_magnitudes(y, x))
    }
}

pub fn negate(a: Reading) -> (r: Reading)
    ensures
        r == a.negation(),
{
    Reading {
        bits: if a.bits >= SIGN {
            a.bits - SIGN
        } else {
            a.bits + SIGN
        },
    }
}

pub fn minus(a: Reading, b: Reading) -> (r: Reading)
    ensures
        r == difference(a, b),
{
    plus(a, negate(b))
}

pub fn times(a: Reading, b: Reading) -> (r: Reading)
    ensures
        r == product(a, b),
{
    let x: u64 = magnitude_bits(a);
    let y: u64 = magnitude_bits(b);
    let negative = (a.bits >= SIGN) != (b.bits >= SIGN);
    if x > INFINITE || y > INFINITE {
        return Reading { bits: ABSENT };
    }
    if x == INFINITE || y == INFINITE {
        if x == 0 || y == 0 {
            return Reading { bits: ABSENT };
        }
        return with_sign(negative, INFINITE);
    }
    let (mx, ex) = take_apart(x);
    let (my, ey) = take_apart(y);
    proof {
        lemma_apart(x as nat);
        lemma_apart(y as nat);
    }
    if x == 0 || y == 0 {
        proof {
            lemma_pow2_pos(UNIT_DOUBLINGS as nat);
            assert(units(0) == 0) by {
                assert(0 * pow2(0) == 0) by (nonlinear_arith);
            }
            lemma_zero_product(units(x as nat), units(y as nat), pow2(UNIT_DOUBLINGS as nat));
        }
        return with_sign(negative, 0);
    }
    proof {
        lemma_pow2_127();
        lemma_pow2_adds(53, 53);
        lemma_pow2_below(106, 120);
        assert(mx * my < (2 * STEP) * (2 * STEP)) by (nonlinear_arith)
            requires
                mx < 2 * STEP,
                my < 2 * STEP,
        ;
        assert(mx * my > 0) by (nonlinear_arith)
            requires
                mx > 0,
                my > 0,
        ;
    }
    let p: u128 = mx * my;
    let k: i64 = ex as i64 + ey as i64 - UNIT_DOUBLINGS as i64;
    proof {
        lemma_product(mx as nat, my as nat, ex as nat, ey as nat);
    }
    with_sign(negative, pack(p, k, false))
}

proof fn lemma_zero_product(x: nat, y: nat, d: nat)
    requires
        x == 0 || y == 0,
        d > 0,
    ensures
        magnitude_of(x * y, d) == 0,
{
    assert(x * y == 0) by (nonlinear_arith)
        requires
            x == 0 || y == 0,
    ;
    assert(2 * STEP * d > 0) by (nonlinear_arith)
        requires
            d > 0,
    ;
    vstd::arithmetic::div_mod::lemma_fundamental_div_mod_converse(0, d as int, 0, 0);
}

proof fn lemma_product(mx: nat, my: nat, ex: nat, ey: nat)
    requires
        ex <= 2045,
        ey <= 2045,
    ensures
        stands_for(
            (mx * pow2(ex)) * (my * pow2(ey)),
            pow2(UNIT_DOUBLINGS as nat),
            mx * my,
            ex + ey - UNIT_DOUBLINGS,
            false,
        ),
{
    let k = ex + ey - UNIT_DOUBLINGS;
    let a = pow2(ex);
    let b = pow2(ey);
    let c = pow2(far());
    let d = pow2(UNIT_DOUBLINGS as nat);
    let g = pow2((far() + k) as nat);
    lemma_pow2_pos(UNIT_DOUBLINGS as nat);
    lemma_pow2_adds(ex, ey);
    lemma_pow2_adds(ex + ey, far());
    lemma_pow2_adds((far() + k) as nat, UNIT_DOUBLINGS as nat);
    assert((far() + k) as nat + UNIT_DOUBLINGS as nat == ex + ey + far());
    assert(g * d == (a * b) * c);
    assert(((mx * a) * (my * b)) * c == (mx * my) * (g * d)) by (nonlinear_arith)
        requires
            g * d == (a * b) * c,
    ;
}

/// The significand, doubled until it is as long as it can be.
pub(crate) fn stretch(m: u128) -> (r: (u128, u32))
    requires
        0 < m < 2 * STEP,
    ensures
        r.0 == m * pow2(r.1 as nat),
        STEP <= r.0 < 2 * STEP,
        r.1 <= 52,
{
    let mut s: u128 = m;
    let mut i: u32 = 0;
    proof {
        vstd::arithmetic::power2::lemma2_to64();
        vstd::arithmetic::power2::lemma2_to64_rest();
        assert(m * 1 == m);
    }
    while s < STEP
        invariant
            0 < s < 2 * STEP,
            0 < m,
            s == m * pow2(i as nat),
            i <= 52,
            pow2(52) == STEP,
        decreases 52 - i,
    {
        proof {
            lemma_pow2_unfold((i + 1) as nat);
            let a = pow2(i as nat);
            assert(m * (2 * a) == 2 * (m * a)) by (nonlinear_arith);
            if i >= 52 {
                assert(m * STEP >= STEP) by (nonlinear_arith)
                    requires
                        m >= 1,
                ;
            }
        }
        s = s * 2;
        i += 1;
    }
    (s, i)
}

pub fn divide(a: Reading, b: Reading) -> (r: Reading)
    ensures
        r == division(a, b),
{
    let x: u64 = magnitude_bits(a);
    let y: u64 = magnitude_bits(b);
    let negative = (a.bits >= SIGN) != (b.bits >= SIGN);
    if x > INFINITE || y > INFINITE || (x == INFINITE && y == INFINITE) || (x == 0 && y == 0) {
        return Reading { bits: ABSENT };
    }
    if x == INFINITE || y == 0 {
        return with_sign(negative, INFINITE);
    }
    if y == INFINITE {
        return with_sign(negative, 0);
    }
    let (mx, ex) = take_apart(x);
    let (my, ey) = take_apart(y);
    proof {
        lemma_apart(x as nat);
        lemma_apart(y as nat);
    }
    if x == 0 {
        proof {
            lemma_units_rise(y as nat, 0);
            assert(units(0) == 0) by {
                assert(0 * pow2(0) == 0) by (nonlinear_arith);
            }
            lemma_zero_product(0, pow2(UNIT_DOUBLINGS as nat), units(y as nat));
        }
        return with_sign(negative, 0);
    }
    let (sx, i) = stretch(mx);
    let (sy, j) = stretch(my);
    proof {
        lemma_pow2_127();
        assert(sx * 0x1_0000_0000_0000_0000 < 0x20_0000_0000_0000 * 0x1_0000_0000_0000_0000)
            by (nonlinear_arith)
            requires
                sx < 0x20_0000_0000_0000,
        ;
    }
    let top: u128 = sx * 0x1_0000_0000_0000_0000;
    let q: u128 = top / sy;
    let rest: u128 = top % sy;
    proof {
        vstd::arithmetic::div_mod::lemma_fundamental_div_mod(top as int, sy as int);
        lemma_quotient_size(sx as nat, sy as nat, q as nat, rest as nat);
        lemma_quotient(
            mx as nat,
            my as nat,
            ex as nat,
            ey as nat,
            i as nat,
            j as nat,
            q as nat,
            rest as nat,
        );
    }
    let k: i64 = ex as i64 - i as i64 - ey as i64 + j as i64 + UNIT_DOUBLINGS as i64 - 64;
    with_sign(negative, pack(q, k, rest > 0))
}

proof fn lemma_quotient_size(sx: nat, sy: nat, q: nat, rest: nat)
    requires
        STEP <= sx < 2 * STEP,
        STEP <= sy < 2 * STEP,
        sx * 0x1_0000_0000_0000_0000 == sy * q + rest,
        rest < sy,
    ensures
        pow2(60) <= q < pow2(120),
        q > 0,
{
    vstd::arithmetic::power2::lemma2_to64();
    vstd::arithmetic::power2::lemma2_to64_rest();
    lemma_pow2_127();
    lemma_pow2_adds(64, 56);
    lemma_pow2_below(66, 120);
    lemma_pow2_adds(64, 2);
    assert(q < 4 * 0x1_0000_0000_0000_0000) by (nonlinear_arith)
        requires
            sx * 0x1_0000_0000_0000_0000 == sy * q + rest,
            sx < 2 * STEP,
            sy >= STEP,
            rest >= 0,
    ;
    assert(q >= 0x1000_0000_0000_0000) by (nonlinear_arith)
        requires
            sx * 0x1_0000_0000_0000_0000 == sy * q + rest,
            sx >= STEP,
            sy < 2 * STEP,
            rest < sy,
    ;
}

proof fn lemma_quotient(
    mx: nat,
    my: nat,
    ex: nat,
    ey: nat,
    i: nat,
    j: nat,
    q: nat,
    rest: nat,
)
    requires
        my > 0,
        ex <= 2045,
        ey <= 2045,
        i <= 52,
        j <= 52,
        (mx * pow2(i)) * 0x1_0000_0000_0000_0000 == (my * pow2(j)) * q + rest,
        rest < my * pow2(j),
    ensures
        stands_for(
            (mx * pow2(ex)) * pow2(UNIT_DOUBLINGS as nat),
            my * pow2(ey),
            q,
            ex - i - ey + j + UNIT_DOUBLINGS - 64,
            rest > 0,
        ),
{
    let k = ex - i - ey + j + UNIT_DOUBLINGS - 64;
    let n = (mx * pow2(ex)) * pow2(UNIT_DOUBLINGS as nat);
    let d = my * pow2(ey);
    let c = pow2(far());
    let g = pow2((far() + k) as nat);
    let x = g * d;
    let w = (ey + far() + k - j) as nat;
    let z = pow2(w);
    let a = pow2(i);
    let b = pow2(j);
    lemma_pow2_127();
    lemma_pow2_pos(ey);
    lemma_pow2_pos(w);
    lemma_pow2_pos(j);
    assert(d > 0) by (nonlinear_arith)
        requires
            d == my * pow2(ey),
            my > 0,
            pow2(ey) > 0,
    ;
    // the divisor on the scale
    lemma_pow2_adds((far() + k) as nat, ey);
    lemma_pow2_adds(j, w);
    assert((far() + k) as nat + ey == j + w);
    assert(g * pow2(ey) == b * z);
    assert(x == (my * b) * z) by (nonlinear_arith)
        requires
            x == g * d,
            d == my * pow2(ey),
            g * pow2(ey) == b * z,
    ;
    // the dividend on the scale
    lemma_pow2_adds(i, 64);
    lemma_pow2_adds(i + 64, w);
    lemma_pow2_adds(ex, UNIT_DOUBLINGS as nat);
    lemma_pow2_adds(ex + UNIT_DOUBLINGS as nat, far());
    assert(i + 64 + w == ex + UNIT_DOUBLINGS as nat + far());
    let h = pow2(64);
    let u = pow2(ex);
    let v = pow2(UNIT_DOUBLINGS as nat);
    assert((a * h) * z == (u * v) * c);
    assert(n * c == ((mx * a) * h) * z) by (nonlinear_arith)
        requires
            n == (mx * u) * v,
            (a * h) * z == (u * v) * c,
    ;
    assert(((mx * a) * h) * z == q * x + rest * z) by (nonlinear_arith)
        requires
            (mx * a) * h == (my * b) * q + rest,
            x == (my * b) * z,
    ;
    assert(rest * z < x) by (nonlinear_arith)
        requires
            rest < my * b,
            x == (my * b) * z,
            z > 0,
    ;
    assert((q + 1) * x == q * x + x) by (nonlinear_arith);
    if rest > 0 {
        assert(rest * z > 0) by (nonlinear_arith)
            requires
                rest > 0,
                z > 0,
        ;
    } else {
        assert(rest * z == 0) by (nonlinear_arith)
            requires
                rest == 0,
        ;
    }
}

/// The lesser of two readings; one that is not a number does not count.
pub open spec fn lesser(a: Reading, b: Reading) -> Reading {
    if a.is_nan() || b.below(a) {
        b
    } else {
        a
    }
}

/// The greater of two readings; one that is not a number does not count.
pub open spec fn greater(a: Reading, b: Reading) -> Reading {
    if a.is_nan() || a.below(b) {
        b
    } else {
        a
    }
}

/// The reading, brought between the bounds.
pub open spec fn clamped(x: Reading, low: Reading, high: Reading) -> Reading {
    if x.below(low) {
        low
    } else if high.below(x) {
        high
    } else {
        x
    }
}

pub fn lesser_of(a: Reading, b: Reading) -> (r: Reading)
    ensures
        r == lesser(a, b),
{
    if magnitude_bits(a) > INFINITE || b < a {
        b
    } else {
        a
    }
}

pub fn greater_of(a: Reading, b: Reading) -> (r: Reading)
    ensures
        r == greater(a, b),
{
    if magnitude_bits(a) > INFINITE || a < b {
        b
    } else {
        a
    }
}

pub fn clamp(x: Reading, low: Reading, high: Reading) -> (r: Reading)
    ensures
        r == clamped(x, low, high),
{
    if x < low {
        low
    } else if high < x {
        high
    } else {
        x
    }
}

/// The reading as a whole number, towards zero; what is negative or no number
/// is zero, and what is too large is the largest.
pub open spec fn truncated(x: Reading) -> u64 {
    if x.is_nan() || x.is_negative() {
        0
    } else if x.is_infinite() {
        u64::MAX
    } else {
        let whole = units(x.magnitude() as nat) / pow2(UNIT_DOUBLINGS as nat);
        if whole <= u64::MAX {
            whole as u64
        } else {
            u64::MAX
        }
    }
}

pub fn truncate(x: Reading) -> (r: u64)
    ensures
        r == truncated(x),
{
    let m: u64 = magnitude_bits(x);
    if m > INFINITE || x.bits >= SIGN {
        return 0;
    }
    if m == INFINITE {
        return u64::MAX;
    }
    let (sig, e) = take_apart(m);
    proof {
        lemma_apart(m as nat);
        lemma_pow2_127();
    }
    if e >= UNIT_DOUBLINGS {
        let up: u32 = e - UNIT_DOUBLINGS;
        proof {
            lemma_whole_up(sig as nat, e as nat);
        }
        if up >= 64 {
            proof {
                lemma_pow2_below(64, up as nat);
                assert(sig * pow2(up as nat) >= pow2(64)) by (nonlinear_arith)
                    requires
                        sig >= 1,
                        pow2(up as nat) >= pow2(64),
                ;
            }
            return u64::MAX;
        }
        let unit: u128 = power_of_two(up);
        proof {
            lemma_pow2_below(up as nat, 64);
            lemma_shifted(sig as nat, unit as nat);
        }
        let whole: u128 = sig * unit;
        if whole <= u64::MAX as u128 {
            whole as u64
        } else {
            u64::MAX
        }
    } else {
        let down: u32 = UNIT_DOUBLINGS - e;
        proof {
            lemma_whole_down(sig as nat, e as nat);
        }
        if down >= 64 {
            proof {
                lemma_pow2_below(64, down as nat);
                vstd::arithmetic::div_mod::lemma_fundamental_div_mod_converse(
                    sig as int,
                    pow2(down as nat) as int,
                    0,
                    sig as int,
                );
            }
            return 0;
        }
        let unit: u128 = power_of_two(down);
        proof {
            lemma_pow2_pos(down as nat);
            assert(sig / unit <= sig) by (nonlinear_arith)
                requires
                    unit >= 1,
                    sig >= 0,
            ;
        }
        (sig / unit) as u64
    }
}

proof fn lemma_whole_up(sig: nat, e: nat)
    requires
        e >= UNIT_DOUBLINGS,
    ensures
        (sig * pow2(e)) / pow2(UNIT_DOUBLINGS as nat) == sig * pow2((e - UNIT_DOUBLINGS) as nat),
{
    let d = pow2(UNIT_DOUBLINGS as nat);
    let g = pow2((e - UNIT_DOUBLINGS) as nat);
    lemma_pow2_pos(UNIT_DOUBLINGS as nat);
    lemma_pow2_adds((e - UNIT_DOUBLINGS) as nat, UNIT_DOUBLINGS as nat);
    assert(sig * (g * d) == (sig * g) * d) by (nonlinear_arith);
    vstd::arithmetic::div_mod::lemma_fundamental_div_mod_converse(
        (sig * pow2(e)) as int,
        d as int,
        (sig * g) as int,
        0,
    );
}

proof fn lemma_whole_down(sig: nat, e: nat)
    requires
        e < UNIT_DOUBLINGS,
    ensures
        (sig * pow2(e)) / pow2(UNIT_DOUBLINGS as nat) == sig / pow2(
            (UNIT_DOUBLINGS - e) as nat,
        ),
{
    let a = pow2(e);
    let g = pow2((UNIT_DOUBLINGS - e) as nat);
    let q = sig / g;
    let rest = sig % g;
    lemma_pow2_pos(e);
    lemma_pow2_pos((UNIT_DOUBLINGS - e) as nat);
    lemma_pow2_adds((UNIT_DOUBLINGS - e) as nat, e);
    vstd::arithmetic::div_mod::lemma_fundamental_div_mod(sig as int, g as int);
    assert(sig * a == q * (g * a) + rest * a) by (nonlinear_arith)
        requires
            sig == g * q + rest,
    ;
    assert(rest * a < g * a) by (nonlinear_arith)
        requires
            rest < g,
            a > 0,
    ;
    assert(rest * a >= 0) by (nonlinear_arith)
        requires
            rest >= 0,
            a > 0,
    ;
    vstd::arithmetic::div_mod::lemma_fundamental_div_mod_converse(
        (sig * a) as int,
        (g * a) as int,
        q as int,
        (rest * a) as int,
    );
}

} // verus!
