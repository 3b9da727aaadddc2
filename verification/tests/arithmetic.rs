//! Readings compute as doubles do.
use radin::double::{
    clamp, divide, greater_of, lesser_of, minus, negate, plus, times, truncate,
};
use radin::ranking::rank;
use radin::ratio::{count, ratio};
use radin::reading::Reading;
use radin::root::root;
use radin::text::{decimal, parse_number};
use rand::rngs::StdRng;
use rand::{Rng, SeedableRng};

fn r(x: f64) -> Reading {
    Reading { bits: x.to_bits() }
}

fn f(x: Reading) -> f64 {
    f64::from_bits(x.bits)
}

/// The same double, any pattern of "not a number" standing for the others.
fn same(a: Reading, b: f64) -> bool {
    a.bits == b.to_bits() || (f(a).is_nan() && b.is_nan())
}

fn corners() -> Vec<f64> {
    let mut v = vec![
        0.0,
        1.0,
        1.5,
        2.0,
        3.0,
        0.1,
        0.3,
        150.0,
        1e10,
        1e308,
        1e-308,
        f64::MIN_POSITIVE,
        f64::from_bits(1),
        f64::from_bits(2),
        f64::from_bits(0x000f_ffff_ffff_ffff),
        f64::from_bits(0x0010_0000_0000_0001),
        f64::from_bits(0x3fef_ffff_ffff_ffff),
        f64::from_bits(0x3ff0_0000_0000_0001),
        9_007_199_254_740_993.0,
        f64::MAX,
        f64::MAX / 2.0,
        f64::EPSILON,
        f64::EPSILON / 2.0,
        f64::INFINITY,
        f64::NAN,
    ];
    let negatives: Vec<f64> = v.iter().map(|x| -x).collect();
    v.extend(negatives);
    v
}

fn check(a: f64, b: f64) {
    let (x, y) = (r(a), r(b));
    assert!(same(plus(x, y), a + b), "{a} + {b}");
    assert!(same(minus(x, y), a - b), "{a} - {b}");
    assert!(same(times(x, y), a * b), "{a} * {b}");
    assert!(same(divide(x, y), a / b), "{a} / {b}");
    if !a.is_nan() && !b.is_nan() && a != b {
        assert!(same(greater_of(x, y), a.max(b)), "max {a} {b}");
        assert!(same(lesser_of(x, y), a.min(b)), "min {a} {b}");
    }
    assert_eq!(x < y, a < b, "{a} < {b}");
    assert_eq!(x >= y, a >= b, "{a} >= {b}");
    assert_eq!(x == y, a == b, "{a} == {b}");
}

fn check_one(a: f64) {
    let x = r(a);
    assert!(same(root(x), a.sqrt()), "root of {a}");
    assert_eq!(truncate(x), a as u64, "{a} as a whole number");
    if !a.is_nan() {
        assert!(same(negate(x), -a), "-{a}");
        assert!(same(clamp(x, r(0.0), r(1.0)), a.clamp(0.0, 1.0)), "{a} between 0 and 1");
    }
}

#[test]
fn corner_cases_compute_as_doubles() {
    let all = corners();
    for a in &all {
        check_one(*a);
        for b in &all {
            check(*a, *b);
        }
    }
}

#[test]
fn any_patterns_compute_as_doubles() {
    let mut rng = StdRng::seed_from_u64(2024);
    for _ in 0..40_000 {
        let (a, b): (u64, u64) = (rng.gen(), rng.gen());
        check(f64::from_bits(a), f64::from_bits(b));
        check_one(f64::from_bits(a));
    }
}

#[test]
fn near_magnitudes_compute_as_doubles() {
    let mut rng = StdRng::seed_from_u64(7);
    for _ in 0..40_000 {
        let a: f64 = rng.gen_range(-1000.0..1000.0);
        let b: f64 = a * rng.gen_range(0.5..2.0);
        check(a, b);
        check(a, b * 1e-13);
        check_one(a);
    }
}

#[test]
fn products_at_the_edge_of_the_smallest_round_as_doubles() {
    let mut rng = StdRng::seed_from_u64(99);
    for _ in 0..20_000 {
        let a = f64::from_bits(rng.gen_range(1u64..0x0040_0000_0000_0000));
        let b: f64 = rng.gen_range(0.1..3.0);
        check(a, b);
        check(b, a);
        check_one(a);
    }
}

#[test]
fn an_absent_number_is_ignored_by_comparisons() {
    assert_eq!(f(greater_of(r(f64::NAN), r(2.0))), 2.0);
    assert_eq!(f(greater_of(r(2.0), r(f64::NAN))), 2.0);
    assert_eq!(f(lesser_of(r(f64::NAN), r(2.0))), 2.0);
    assert!(f(clamp(r(f64::NAN), r(0.0), r(1.0))).is_nan());
    assert!(!(r(f64::NAN) == r(f64::NAN)));
    assert!(r(0.0) == r(-0.0));
}

#[test]
fn counts_become_doubles() {
    let mut rng = StdRng::seed_from_u64(5);
    let mut all = vec![0, 1, 2, (1 << 53) - 1, 1 << 53, (1 << 53) + 1, (1 << 53) + 3, u64::MAX];
    for _ in 0..10_000 {
        all.push(rng.gen::<u64>() >> rng.gen_range(0..64));
    }
    for n in &all {
        assert_eq!(f(count(*n)), *n as f64);
        if *n < 1 << 53 {
            assert_eq!(truncate(count(*n)), *n);
        }
    }
    for pair in all.windows(2) {
        if pair[1] > 0 {
            assert_eq!(f(ratio(pair[0], pair[1])), pair[0] as f64 / pair[1] as f64);
        }
    }
}

#[test]
fn ranking_is_stable_and_highest_first() {
    let order = rank(&[('a', r(1.0)), ('b', r(3.0)), ('c', r(1.0)), ('d', r(3.0)), ('e', r(2.0))]);
    let names: Vec<char> = order.iter().map(|x| x.0).collect();
    assert_eq!(names, vec!['b', 'd', 'e', 'a', 'c']);
}

#[test]
fn numbers_are_written_and_read() {
    for n in [0, 7, 10, 99, 100, 65_535, u64::MAX] {
        assert_eq!(decimal(n), n.to_string());
        assert_eq!(parse_number(&n.to_string(), u64::MAX), Some(n));
    }
    for (text, want) in [("", None), ("+5", Some(5)), ("-1", None), ("1 ", None), ("007", Some(7))] {
        assert_eq!(parse_number(text, u64::MAX), want, "{text:?}");
    }
    assert_eq!(parse_number("18446744073709551616", u64::MAX), None);
    assert_eq!(parse_number("65536", 65_535), None);
}

#[test]
fn rounding_keeps_the_order_of_quantities() {
    let mut all: Vec<Reading> = corners()
        .into_iter()
        .filter(|x| *x >= 0.0 && x.is_sign_positive())
        .map(r)
        .collect();
    all.sort_by_key(|x| x.bits);
    for pair in all.windows(2) {
        for c in &all {
            assert!(plus(pair[1], *c) >= plus(pair[0], *c));
            if c.bits < f64::INFINITY.to_bits() && pair[1].bits < f64::INFINITY.to_bits() {
                assert!(times(pair[1], *c) >= times(pair[0], *c));
            }
            if c.bits > 0 && c.bits < f64::INFINITY.to_bits() {
                assert!(divide(pair[1], *c) >= divide(pair[0], *c));
            }
        }
    }
}
