//! The square root of a reading.
use vstd::arithmetic::power2::{lemma_pow2_adds, lemma_pow2_pos, lemma_pow2_unfold, pow2};
use vstd::prelude::*;

use crate::double::{
    lemma_apart, lemma_units_rise, magnitude_bits, not_a_number, signed, stretch, take_apart, units,
    with_sign, STEP, UNIT_DOUBLINGS,
};
use crate::reading::{Reading, ABSENT, INFINITE, SIGN};

verus! {

/// Whether `m` is the magnitude nearest to the root of the magnitude `a`: twice
/// the root lies between the sums of `m` with its neighbours.
pub open spec fn nearest_root(a: nat, m: nat) -> bool {
    let low = units((m - 1) as nat) + units(m);
    let high = units(m) + units(m + 1);
    &&& 0 < m
    &&& m + 1 < INFINITE
    &&& low * low < 4 * (units(a) * pow2(UNIT_DOUBLINGS as nat)) < high * high
}

pub open spec fn root_of(a: nat) -> nat {
    choose|m: nat| nearest_root(a, m)
}

/// The reading nearest to the square root; a negative one has none.
pub open spec fn square_root(a: Reading) -> Reading {
    if a.is_nan() || (a.is_negative() && !a.is_zero()) {
        not_a_number()
    } else if a.is_zero() || a.is_infinite() {
        a
    } else {
        signed(false, root_of(a.magnitude() as nat) as u64)
    }
}

pub(crate) proof fn lemma_one_root(a: nat, x: nat, y: nat)
    requires
        nearest_root(a, x),
        nearest_root(a, y),
    ensures
        x == y,
{
    if x < y {
        lemma_no_smaller_root(a, x, y);
    } else if y < x {
        lemma_no_smaller_root(a, y, x);
    }
}

proof fn lemma_no_smaller_root(a: nat, x: nat, y: nat)
    requires
        nearest_root(a, y),
        x < y,
    ensures
        !nearest_root(a, x),
{
    if x < y - 1 {
        lemma_units_rise((y - 1) as nat, x);
        lemma_units_rise(y, x + 1);
    }
    let high = units(x) + units(x + 1);
    let low = units((y - 1) as nat) + units(y);
    assert(high * high <= low * low) by (nonlinear_arith)
        requires
            0 <= high <= low,
    ;
}

/// What a magnitude of so many doublings stands for.
pub(crate) proof fn lemma_units_are(h: nat, c: nat)
    requires
        STEP <= c <= 2 * STEP,
        h <= 2040,
    ensures
        units(h * (STEP as nat) + c) == c * pow2(h),
{
    let m = h * (STEP as nat) + c;
    assert(m < INFINITE);
    lemma_apart(m);
    if c < 2 * STEP {
        assert(crate::double::doublings(m) == h);
    } else {
        assert(crate::double::doublings(m) == h + 1);
        lemma_pow2_unfold(h + 1);
        assert((STEP as nat) * (2 * pow2(h)) == (2 * STEP as nat) * pow2(h)) by (nonlinear_arith);
    }
}

/// Where `r` is the whole part of the root of `n`, rounding it gives the
/// nearest magnitude.
proof fn lemma_rounded(a: nat, n: nat, h: nat, r: nat, c: nat)
    requires
        1 <= h <= 2000,
        units(a) * pow2(UNIT_DOUBLINGS as nat) == n * (pow2(h) * pow2(h)),
        STEP <= r < 2 * STEP,
        r * r <= n < (r + 1) * (r + 1),
        c == if n - r * r > r {
            r + 1
        } else {
            r
        },
    ensures
        nearest_root(a, h * (STEP as nat) + c),
{
    let m = h * (STEP as nat) + c;
    let p = pow2(h);
    let q = pow2((h - 1) as nat);
    lemma_pow2_pos(h);
    lemma_pow2_pos((h - 1) as nat);
    lemma_pow2_unfold(h);
    assert(p == 2 * q);
    lemma_units_are(h, c);
    assert((r + 1) * (r + 1) == r * r + 2 * r + 1) by (nonlinear_arith);
    // the neighbour below, in halves of a step
    let below = units((m - 1) as nat);
    if c > STEP {
        lemma_units_are(h, (c - 1) as nat);
        assert((m - 1) as nat == h * (STEP as nat) + (c - 1) as nat);
        assert((c - 1) * (2 * q) == (2 * c - 2) * q) by (nonlinear_arith);
    } else {
        lemma_units_are((h - 1) as nat, (2 * STEP - 1) as nat);
        assert((m - 1) as nat == (h - 1) as nat * (STEP as nat) + (2 * STEP - 1) as nat);
    }
    let s = if c > STEP {
        2 * c - 2
    } else {
        2 * c - 1
    };
    assert(below == s * q);
    assert(units(m) == (2 * c) * q) by (nonlinear_arith)
        requires
            units(m) == c * (2 * q),
    ;
    // the neighbour above
    let above = units(m + 1);
    if c < 2 * STEP {
        lemma_units_are(h, c + 1);
        assert((c + 1) * (2 * q) == (2 * c + 2) * q) by (nonlinear_arith);
    } else {
        assert(m + 1 == (h + 1) * (STEP as nat) + (STEP as nat + 1)) by (nonlinear_arith)
            requires
                m == h * (STEP as nat) + c,
                c == 2 * STEP,
        ;
        lemma_units_are(h + 1, STEP as nat + 1);
        lemma_pow2_unfold(h + 1);
        assert((STEP as nat + 1) * (2 * (2 * q)) == (2 * c + 4) * q) by (nonlinear_arith)
            requires
                c == 2 * STEP,
        ;
    }
    let t = if c < 2 * STEP {
        2 * c + 2
    } else {
        2 * c + 4
    };
    assert(above == t * q);
    let low = below + units(m);
    let high = units(m) + above;
    assert(low == (s + 2 * c) * q) by (nonlinear_arith)
        requires
            low == s * q + (2 * c) * q,
    ;
    assert(high == (2 * c + t) * q) by (nonlinear_arith)
        requires
            high == (2 * c) * q + t * q,
    ;
    let target = 4 * (n * (p * p));
    assert(target == (16 * n) * (q * q)) by (nonlinear_arith)
        requires
            target == 4 * (n * (p * p)),
            p == 2 * q,
    ;
    assert(low * low == ((s + 2 * c) * (s + 2 * c)) * (q * q)) by (nonlinear_arith)
        requires
            low == (s + 2 * c) * q,
    ;
    assert(high * high == ((2 * c + t) * (2 * c + t)) * (q * q)) by (nonlinear_arith)
        requires
            high == (2 * c + t) * q,
    ;
    assert((s + 2 * c) * (s + 2 * c) < 16 * n) by {
        if c > STEP {
            assert((4 * c - 2) * (4 * c - 2) == 16 * (c * c) - 16 * c + 4) by (nonlinear_arith);
            assert(c == r + 1 ==> c * c == r * r + 2 * r + 1) by (nonlinear_arith);
        } else {
            assert((4 * c - 1) * (4 * c - 1) == 16 * (c * c) - 8 * c + 1) by (nonlinear_arith);
        }
    }
    assert(16 * n < (2 * c + t) * (2 * c + t)) by {
        assert((4 * c + 2) * (4 * c + 2) == 16 * (c * c) + 16 * c + 4) by (nonlinear_arith);
        assert((4 * c + 4) * (4 * c + 4) >= (4 * c + 2) * (4 * c + 2)) by (nonlinear_arith)
            requires
                c >= 0,
        ;
        assert(c == r + 1 ==> c * c == r * r + 2 * r + 1) by (nonlinear_arith);
    }
    assert(q * q > 0) by (nonlinear_arith)
        requires
            q > 0,
    ;
    lemma_scaled_below(((s + 2 * c) * (s + 2 * c)) as nat, 16 * n, q * q);
    lemma_scaled_below(16 * n, ((2 * c + t) * (2 * c + t)) as nat, q * q);
}

proof fn lemma_scaled_below(x: nat, y: nat, z: nat)
    by (nonlinear_arith)
    requires
        x < y,
        z > 0,
    ensures
        x * z < y * z,
{
}

/// The whole part of the root.
fn whole_root(n: u128) -> (r: u128)
    requires
        n < 0x400_0000_0000_0000_0000_0000_0000,
    ensures
        r * r <= n < (r + 1) * (r + 1),
        r < 0x20_0000_0000_0000,
{
    let mut r: u128 = 0;
    let mut w: u128 = 0x20_0000_0000_0000;
    let mut i: u32 = 53;
    proof {
        vstd::arithmetic::power2::lemma2_to64();
        vstd::arithmetic::power2::lemma2_to64_rest();
    }
    while i > 0
        invariant
            i <= 53,
            w == pow2(i as nat),
            pow2(0) == 1,
            r * r <= n < (r + w) * (r + w),
            r + w <= 0x20_0000_0000_0000,
        decreases i,
    {
        proof {
            lemma_pow2_unfold(i as nat);
            lemma_pow2_pos((i - 1) as nat);
        }
        let half: u128 = w / 2;
        let next: u128 = r + half;
        assert(next * next <= 0x20_0000_0000_0000 * 0x20_0000_0000_0000) by (nonlinear_arith)
            requires
                0 <= next <= 0x20_0000_0000_0000,
        ;
        if next * next <= n {
            r = next;
        }
        w = half;
        i = i - 1;
    }
    r
}

pub fn root(a: Reading) -> (r: Reading)
    ensures
        r == square_root(a),
{
    let m: u64 = magnitude_bits(a);
    if m > INFINITE || (a.bits >= SIGN && m != 0) {
        return Reading { bits: ABSENT };
    }
    if m == 0 || m == INFINITE {
        return a;
    }
    let (sig, e) = take_apart(m);
    proof {
        lemma_apart(m as nat);
    }
    let (s, i) = stretch(sig);
    // the doublings that are left make an even number
    let odd: bool = (e + i) % 2 == 1;
    let (n, z): (u128, u32) = if odd {
        (s * 0x20_0000_0000_0000, i + 53)
    } else {
        (s * 0x10_0000_0000_0000, i + 52)
    };
    let h: u32 = (e + UNIT_DOUBLINGS - z) / 2;
    let whole: u128 = whole_root(n);
    proof {
        lemma_whole_is_long(n as nat, whole as nat);
        assert(whole * whole <= n);
    }
    let c: u128 = if n - whole * whole > whole {
        whole + 1
    } else {
        whole
    };
    let magnitude: u64 = h as u64 * 0x10_0000_0000_0000 + c as u64;
    proof {
        vstd::arithmetic::power2::lemma2_to64_rest();
        vstd::arithmetic::power2::lemma2_to64();
        lemma_spread(sig as nat, e as nat, s as nat, i as nat, n as nat, z as nat, h as nat);
        lemma_rounded(m as nat, n as nat, h as nat, whole as nat, c as nat);
        assert(nearest_root(m as nat, magnitude as nat));
        lemma_one_root(m as nat, root_of(m as nat), magnitude as nat);
    }
    with_sign(false, magnitude)
}

proof fn lemma_whole_is_long(n: nat, r: nat)
    requires
        STEP * STEP <= n < (r + 1) * (r + 1),
    ensures
        STEP <= r,
{
    if r < STEP {
        assert((r + 1) * (r + 1) <= STEP * STEP) by (nonlinear_arith)
            requires
                0 <= r + 1 <= STEP,
        ;
    }
}

/// Moving doublings from the number to the scale of its root.
proof fn lemma_spread(sig: nat, e: nat, s: nat, i: nat, n: nat, z: nat, h: nat)
    requires
        s == sig * pow2(i),
        i <= 52,
        z == i + 52 || z == i + 53,
        n == s * pow2((z - i) as nat),
        2 * h == e + UNIT_DOUBLINGS - z,
    ensures
        (sig * pow2(e)) * pow2(UNIT_DOUBLINGS as nat) == n * (pow2(h) * pow2(h)),
{
    let u = UNIT_DOUBLINGS as nat;
    let k = (z - i) as nat;
    lemma_pow2_adds(e, u);
    lemma_pow2_adds(i, k);
    lemma_pow2_adds(h, h);
    lemma_pow2_adds(z, h + h);
    assert(z + (h + h) == e + u);
    assert((sig * pow2(e)) * pow2(u) == sig * (pow2(e) * pow2(u))) by (nonlinear_arith);
    assert(sig * (pow2(z) * pow2(h + h)) == (sig * pow2(z)) * pow2(h + h)) by (nonlinear_arith);
    assert((sig * pow2(i)) * pow2(k) == sig * (pow2(i) * pow2(k))) by (nonlinear_arith);
}

} // verus!
