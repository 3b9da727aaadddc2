//! Aggregation of measurements, and the boundary that synthetic ones do not
//! cross.
use vstd::arithmetic::power2::{lemma_pow2_pos, pow2};
use vstd::prelude::*;

use crate::double::{
    clamp, clamped, difference, divide, division, lemma_units_rise, minus, plus, product, sum,
    times, units, STEP, UNIT_DOUBLINGS,
};
use crate::model::MeasuredSource;
use crate::order::{
    is_quantity, law_one_leaves_as_is, law_positions_follow_values, law_quotients_keep_order,
    law_rest_is_a_share, law_rounding_keeps_order, law_shares_are_at_most_one,
    law_shares_multiply, law_whole_is_one, law_zero_leaves_as_is,
};
use crate::ratio::{
    count, counted, law_counts_are_exact, law_counts_are_positive, law_rounds_no_higher,
    law_rounds_no_lower, lemma_one, quotient, ratio,
};
use crate::reading::{Reading, HALF, INFINITE, ONE, ZERO};
use crate::root::{lemma_one_root, nearest_root, root, root_of, square_root};
use crate::scoring::{
    fall_off, falling_off, law_falling_off, lemma_falls_off_by_counts, lemma_multiple_over_count,
    lemma_one_halves,
};
use crate::{Error, ErrorView};

verus! {

/// Latency samples in a sliding window, with a count of what was lost.
#[derive(Debug)]
pub struct WindowStats {
    /// How many samples are kept.
    pub capacity: usize,
    pub samples: Vec<Reading>,
    pub sent: u64,
    pub lost: u64,
    /// When the last packet was observed.
    pub last_sample_at: Option<u64>,
}

#[verifier::ext_equal]
pub struct WindowStatsView {
    pub capacity: nat,
    pub samples: Seq<Reading>,
    pub sent: u64,
    pub lost: u64,
    pub last_sample_at: Option<u64>,
}

impl View for WindowStats {
    type V = WindowStatsView;

    open spec fn view(&self) -> WindowStatsView {
        WindowStatsView {
            capacity: self.capacity as nat,
            samples: self.samples@,
            sent: self.sent,
            lost: self.lost,
            last_sample_at: self.last_sample_at,
        }
    }
}

/// `s` with `x` at its end, and without its first element where `s` was full.
pub open spec fn rolled<T>(s: Seq<T>, capacity: nat, x: T) -> Seq<T> {
    if s.len() >= capacity && s.len() > 0 {
        s.drop_first().push(x)
    } else {
        s.push(x)
    }
}

/// 25.0 ms: the jitter that halves the stability.
pub const UNSTEADY_JITTER_MS: u64 = 0x4039_0000_0000_0000;

/// The readings summed from the front.
pub open spec fn total(readings: Seq<Reading>) -> Reading
    decreases readings.len(),
{
    if readings.len() <= 1 {
        readings[0]
    } else {
        sum(total(readings.drop_last()), readings.last())
    }
}

pub open spec fn mean(readings: Seq<Reading>) -> Reading {
    division(total(readings), counted(readings.len() as u64))
}

/// How far each reading is from the average, squared.
pub open spec fn deviations(readings: Seq<Reading>, average: Reading) -> Seq<Reading> {
    Seq::new(
        readings.len(),
        |i: int| product(difference(readings[i], average), difference(readings[i], average)),
    )
}

/// The standard deviation; zero for a single reading.
pub open spec fn spread(readings: Seq<Reading>) -> Reading {
    if readings.len() < 2 {
        Reading { bits: ZERO }
    } else {
        square_root(mean(deviations(readings, mean(readings))))
    }
}

/// The average of at least one reading.
fn average(readings: &[Reading]) -> (r: Reading)
    requires
        0 < readings@.len(),
    ensures
        r == mean(readings@),
{
    let mut acc = readings[0];
    let mut i: usize = 1;
    assert(readings@.take(1)[0] == readings@[0]);
    while i < readings.len()
        invariant
            1 <= i <= readings@.len(),
            acc == total(readings@.take(i as int)),
        decreases readings@.len() - i,
    {
        acc = plus(acc, readings[i]);
        assert(readings@.take(i + 1).drop_last() =~= readings@.take(i as int));
        i = i + 1;
    }
    assert(readings@.take(i as int) =~= readings@);
    divide(acc, count(readings.len() as u64))
}

/// The ratio of lost packets, one at most.
pub open spec fn loss_share(sent: u64, lost: u64) -> Reading {
    if sent == 0 {
        Reading { bits: ZERO }
    } else if quotient(lost, sent).below(Reading { bits: ONE }) {
        quotient(lost, sent)
    } else {
        Reading { bits: ONE }
    }
}

/// How stable a window is.
pub open spec fn steadiness(samples: Seq<Reading>, sent: u64, lost: u64) -> Reading {
    let jitter = if samples.len() == 0 {
        Reading { bits: ZERO }
    } else {
        spread(samples)
    };
    let zero = Reading { bits: ZERO };
    let one = Reading { bits: ONE };
    product(
        falling_off(division(jitter, Reading { bits: UNSTEADY_JITTER_MS })),
        difference(one, clamped(loss_share(sent, lost), zero, one)),
    )
}

impl WindowStats {
    pub open spec fn wf(self) -> bool {
        1 <= self.capacity && self.samples@.len() <= self.capacity
    }

    pub fn new(capacity: usize) -> (r: Self)
        ensures
            r.wf(),
            r@ == (WindowStatsView {
                capacity: if capacity == 0 {
                    1
                } else {
                    capacity as nat
                },
                samples: seq![],
                sent: 0,
                lost: 0,
                last_sample_at: None,
            }),
    {
        let capacity: usize = if capacity == 0 {
            1
        } else {
            capacity
        };
        WindowStats {
            capacity,
            samples: Vec::with_capacity(capacity),
            sent: 0,
            lost: 0,
            last_sample_at: None,
        }
    }

    pub fn record_latency(&mut self, latency_ms: Reading, at: u64)
        requires
            old(self).wf(),
            old(self).sent < u64::MAX,
        ensures
            final(self).wf(),
            final(self)@ == (WindowStatsView {
                samples: rolled(old(self)@.samples, old(self)@.capacity, latency_ms),
                sent: (old(self).sent + 1) as u64,
                last_sample_at: Some(at),
                ..old(self)@
            }),
    {
        if self.samples.len() >= self.capacity {
            let _ = self.samples.remove(0);
            assert(self.samples@ =~= old(self).samples@.drop_first());
        }
        self.samples.push(latency_ms);
        self.sent = self.sent + 1;
        self.last_sample_at = Some(at);
    }

    pub fn record_expected(&mut self, _at: u64)
        requires
            old(self).sent < u64::MAX,
        ensures
            final(self)@ == (WindowStatsView { sent: (old(self).sent + 1) as u64, ..old(self)@ }),
            final(self).wf() == old(self).wf(),
    {
        self.sent = self.sent + 1;
    }

    pub fn record_loss(&mut self)
        requires
            old(self).sent < u64::MAX,
            old(self).lost < u64::MAX,
        ensures
            final(self)@ == (WindowStatsView {
                sent: (old(self).sent + 1) as u64,
                lost: (old(self).lost + 1) as u64,
                ..old(self)@
            }),
            final(self).wf() == old(self).wf(),
    {
        self.lost = self.lost + 1;
        self.sent = self.sent + 1;
    }

    /// The average of the samples, where there are any.
    pub fn avg_latency_ms(&self) -> (r: Option<Reading>)
        ensures
            r == (if self.samples@.len() == 0 {
                None
            } else {
                Some(mean(self.samples@))
            }),
    {
        if self.samples.len() == 0 {
            return None;
        }
        Some(average(&self.samples))
    }

    /// The standard deviation of the samples, where there are any.
    pub fn jitter_ms(&self) -> (r: Option<Reading>)
        ensures
            r == (if self.samples@.len() == 0 {
                None
            } else {
                Some(spread(self.samples@))
            }),
    {
        if self.samples.len() == 0 {
            return None;
        }
        if self.samples.len() < 2 {
            return Some(Reading { bits: ZERO });
        }
        let average_ms = average(&self.samples);
        let mut squares: Vec<Reading> = Vec::new();
        let mut i: usize = 0;
        while i < self.samples.len()
            invariant
                i <= self.samples@.len(),
                average_ms == mean(self.samples@),
                squares@ == deviations(self.samples@, average_ms).take(i as int),
            decreases self.samples@.len() - i,
        {
            let d = minus(self.samples[i], average_ms);
            squares.push(times(d, d));
            assert(squares@ =~= deviations(self.samples@, average_ms).take(i + 1));
            i = i + 1;
        }
        assert(squares@ =~= deviations(self.samples@, average_ms));
        Some(root(average(&squares)))
    }

    /// How stable the window is: one without loss and jitter, less with them.
    pub fn stability(&self) -> (r: Reading)
        ensures
            r == steadiness(self.samples@, self.sent, self.lost),
    {
        let jitter = match self.jitter_ms() {
            Some(j) => j,
            None => Reading { bits: ZERO },
        };
        let held = minus(
            Reading { bits: ONE },
            clamp(self.loss_ratio(), Reading { bits: ZERO }, Reading { bits: ONE }),
        );
        times(fall_off(divide(jitter, Reading { bits: UNSTEADY_JITTER_MS })), held)
    }

    /// The ratio of lost packets; never above one, whatever was recorded.
    pub fn loss_ratio(&self) -> (r: Reading)
        ensures
            r == loss_share(self.sent, self.lost),
    {
        if self.sent == 0 {
            return Reading { bits: ZERO };
        }
        let share = ratio(self.lost, self.sent);
        if share < (Reading { bits: ONE }) {
            share
        } else {
            Reading { bits: ONE }
        }
    }
}

/// The error for a synthetic measurement.
pub open spec fn synthetic_refused() -> ErrorView {
    ErrorView::InvalidInput(
        "refusing to export synthetic measurement into production telemetry"@,
    )
}

/// Lets real measurements pass, and nothing else. Whatever exports a
/// measurement goes through here.
pub fn ensure_real(source: MeasuredSource) -> (r: crate::Result<()>)
    ensures
        (match r {
            Ok(_) => source == MeasuredSource::Real,
            Err(e) => source == MeasuredSource::Synthetic && e@ == synthetic_refused(),
        }),
{
    match source {
        MeasuredSource::Real => Ok(()),
        MeasuredSource::Synthetic => Err(
            Error::InvalidInput(
                "refusing to export synthetic measurement into production telemetry".to_owned(),
            ),
        ),
    }
}

/// The ratio of lost packets lies between zero and one, whatever was recorded.
pub proof fn law_loss_is_a_share(sent: u64, lost: u64)
    ensures
        is_quantity(loss_share(sent, lost)),
        loss_share(sent, lost).position() <= ONE,
{
    if sent > 0 {
        law_counts_are_positive(sent);
        let (part, whole) = (counted(lost), counted(sent));
        law_quotients_keep_order(part, whole, part, whole);
    }
}

/// The stability of a window lies between zero and one, where the spread of
/// its samples is a number.
pub proof fn law_stability_is_a_share(samples: Seq<Reading>, sent: u64, lost: u64)
    requires
        samples.len() > 0 ==> is_quantity(spread(samples)),
    ensures
        is_quantity(steadiness(samples, sent, lost)),
        steadiness(samples, sent, lost).position() <= ONE,
{
    let jitter = if samples.len() == 0 {
        Reading { bits: ZERO }
    } else {
        spread(samples)
    };
    let unsteady = Reading { bits: UNSTEADY_JITTER_MS };
    let loss = loss_share(sent, lost);
    law_loss_is_a_share(sent, lost);
    law_quotients_keep_order(jitter, unsteady, jitter, unsteady);
    law_falling_off(division(jitter, unsteady), division(jitter, unsteady));
    law_rest_is_a_share(loss);
    law_shares_multiply(
        falling_off(division(jitter, unsteady)),
        difference(Reading { bits: ONE }, loss),
    );
}

/// The exact sum of whole numbers.
pub open spec fn whole_sum(ms: Seq<u64>) -> nat
    decreases ms.len(),
{
    if ms.len() == 0 {
        0
    } else {
        whole_sum(ms.drop_last()) + ms.last() as nat
    }
}

/// The whole numbers as readings.
pub open spec fn as_readings(ms: Seq<u64>) -> Seq<Reading> {
    Seq::new(ms.len(), |i: int| counted(ms[i]))
}

proof fn lemma_total_is_exact(ms: Seq<u64>)
    requires
        ms.len() > 0,
        whole_sum(ms) < 2 * STEP,
    ensures
        total(as_readings(ms)) == counted(whole_sum(ms) as u64),
    decreases ms.len(),
{
    let front = ms.drop_last();
    if ms.len() == 1 {
        assert(whole_sum(front) == 0);
        assert(as_readings(ms)[0] == counted(ms[0]));
    } else {
        lemma_total_is_exact(front);
        assert(as_readings(ms).drop_last() =~= as_readings(front));
        let (a, b) = (whole_sum(front) as u64, ms.last());
        let u = pow2(UNIT_DOUBLINGS as nat);
        lemma_pow2_pos(UNIT_DOUBLINGS as nat);
        law_counts_are_exact(a);
        law_counts_are_exact(b);
        let exact = counted(a).value() + counted(b).value();
        assert(exact == (a + b) * u) by (nonlinear_arith)
            requires
                exact == a * u + b * u,
        ;
        assert((a + b) * u >= 0 && ((a + b) * u == 0 ==> a + b == 0)) by (nonlinear_arith)
            requires
                a >= 0,
                b >= 0,
                u > 0,
        ;
        if a + b == 0 {
            assert(0 * u == 0) by (nonlinear_arith);
            law_rounds_no_higher(0 * u, 1, ZERO);
        }
        assert(sum(counted(a), counted(b)) == counted((a + b) as u64));
    }
}

/// The average of whole milliseconds is their sum over their number.
pub proof fn law_mean_is_sum_over_number(ms: Seq<u64>)
    requires
        0 < ms.len() <= u64::MAX,
        whole_sum(ms) < 2 * STEP,
    ensures
        mean(as_readings(ms)) == quotient(whole_sum(ms) as u64, ms.len() as u64),
{
    lemma_total_is_exact(ms);
}

/// The spread of two samples is half of what lies between them, in either
/// order.
pub proof fn law_spread_of_two_is_half_their_distance(low: u64, half: u64)
    requires
        half > 0,
        2 * (low + half) < 2 * STEP,
        2 * (half * half) < 2 * STEP,
    ensures
        spread(seq![counted(low), counted((low + 2 * half) as u64)]) == counted(half),
        spread(seq![counted((low + 2 * half) as u64), counted(low)]) == counted(half),
{
    let high = (low + 2 * half) as u64;
    lemma_spread_of_two(low, high, half);
    lemma_spread_of_two(high, low, half);
}

proof fn lemma_spread_of_two(a: u64, b: u64, half: u64)
    requires
        half > 0,
        a == b + 2 * half || b == a + 2 * half,
        a + b < 2 * STEP,
        2 * (half * half) < 2 * STEP,
    ensures
        spread(seq![counted(a), counted(b)]) == counted(half),
{
    let readings = seq![counted(a), counted(b)];
    let ms = seq![a, b];
    let middle = ((a + b) / 2) as u64;
    assert(ms.drop_last() =~= seq![a]);
    assert(seq![a].drop_last() =~= seq![]);
    assert(whole_sum(seq![]) == 0);
    assert(whole_sum(seq![a]) == a);
    assert(whole_sum(ms) == a + b);
    assert(as_readings(ms) =~= readings);
    lemma_total_is_exact(ms);
    assert(middle > 0 && a + b == 2 * middle);
    law_counts_are_exact(2);
    law_counts_are_positive(2);
    lemma_multiple_over_count(counted(2), 2, middle);
    assert(mean(readings) == counted(middle));
    let squares = deviations(readings, counted(middle));
    lemma_square_of_difference(a, middle, half);
    lemma_square_of_difference(b, middle, half);
    let square = (half * half) as u64;
    assert(half * half >= 1) by (nonlinear_arith)
        requires
            half >= 1,
    ;
    let twice = seq![square, square];
    assert(twice.drop_last() =~= seq![square]);
    assert(seq![square].drop_last() =~= seq![]);
    assert(whole_sum(seq![square]) == square);
    assert(whole_sum(twice) == 2 * square);
    assert(as_readings(twice) =~= squares);
    lemma_total_is_exact(twice);
    lemma_multiple_over_count(counted(2), 2, square);
    assert(mean(squares) == counted(square));
    lemma_root_of_square(half);
}

proof fn lemma_square_of_difference(x: u64, middle: u64, half: u64)
    requires
        half > 0,
        x == middle + half || middle == x + half,
        x < 2 * STEP,
        middle < 2 * STEP,
        half * half < 2 * STEP,
    ensures
        product(
            difference(counted(x), counted(middle)),
            difference(counted(x), counted(middle)),
        ) == counted((half * half) as u64),
{
    let u = pow2(UNIT_DOUBLINGS as nat);
    lemma_pow2_pos(UNIT_DOUBLINGS as nat);
    law_counts_are_exact(x);
    law_counts_are_exact(middle);
    law_counts_are_exact(half);
    law_counts_are_positive(half);
    let d = difference(counted(x), counted(middle));
    assert(counted(middle).negation().value() == -counted(middle).value());
    let exact = counted(x).value() - counted(middle).value();
    assert(exact == half * u || exact == -(half * u)) by (nonlinear_arith)
        requires
            exact == x * u - middle * u,
            x == middle + half || middle == x + half,
    ;
    assert(half * u > 0) by (nonlinear_arith)
        requires
            half > 0,
            u > 0,
    ;
    assert(d.magnitude() == counted(half).magnitude());
    let v = units(counted(half).magnitude() as nat);
    let n = v * v;
    let square: nat = half as nat * half as nat;
    assert(n * 1 == (square * u) * u) by (nonlinear_arith)
        requires
            n == v * v,
            v == half * u,
            square == half * half,
    ;
    law_rounding_keeps_order(n, u, square * u, 1);
    law_rounding_keeps_order(square * u, 1, n, u);
}

/// The root of a square.
proof fn lemma_root_of_square(n: u64)
    requires
        n > 0,
        n * n < 2 * STEP,
    ensures
        square_root(counted((n * n) as u64)) == counted(n),
{
    let u = pow2(UNIT_DOUBLINGS as nat);
    lemma_pow2_pos(UNIT_DOUBLINGS as nat);
    assert(n * n >= n) by (nonlinear_arith)
        requires
            n >= 1,
    ;
    let square = (n * n) as u64;
    law_counts_are_exact(n);
    law_counts_are_exact(square);
    law_counts_are_positive(n);
    law_counts_are_positive(square);
    let a = counted(square).magnitude() as nat;
    let m = counted(n).magnitude() as nat;
    lemma_units_rise(m, (m - 1) as nat);
    lemma_units_rise(m + 1, m);
    let low = units((m - 1) as nat) + units(m);
    let high = units(m) + units(m + 1);
    let v: nat = (n * u) as nat;
    assert(low < 2 * v && 2 * v < high);
    assert(4 * (units(a) * u) == (2 * v) * (2 * v)) by (nonlinear_arith)
        requires
            units(a) == (n * n) * u,
            v == n * u,
    ;
    assert(low * low < (2 * v) * (2 * v) && (2 * v) * (2 * v) < high * high) by (nonlinear_arith)
        requires
            low < 2 * v,
            2 * v < high,
            low >= 0,
    ;
    assert(nearest_root(a, m));
    lemma_one_root(a, root_of(a), m);
}

/// A single sample spreads nothing.
pub proof fn law_one_sample_does_not_spread(x: Reading)
    ensures
        spread(seq![x]).bits == ZERO,
{
}

/// The loss is what was lost of what was sent, and everything where more was
/// lost than sent; where nothing was sent, nothing is lost.
pub proof fn law_loss_is_lost_over_sent(sent: u64, lost: u64)
    ensures
        sent == 0 ==> loss_share(sent, lost).bits == ZERO,
        0 < sent && lost <= sent ==> loss_share(sent, lost) == quotient(lost, sent),
        0 < sent && lost >= sent ==> loss_share(sent, lost).bits == ONE,
{
    if sent > 0 {
        let u = pow2(UNIT_DOUBLINGS as nat);
        lemma_pow2_pos(UNIT_DOUBLINGS as nat);
        law_counts_are_positive(sent);
        let (part, whole) = (counted(lost), counted(sent));
        if lost <= sent {
            assert((lost as nat * u) * 1 <= (sent as nat * u) * 1) by (nonlinear_arith)
                requires
                    lost <= sent,
                    u > 0,
            ;
            law_rounding_keeps_order(lost as nat * u, 1, sent as nat * u, 1);
            law_shares_are_at_most_one(part, whole);
        } else {
            law_counts_are_positive(lost);
            assert((sent as nat * u) * 1 <= (lost as nat * u) * 1) by (nonlinear_arith)
                requires
                    sent <= lost,
                    u > 0,
            ;
            law_rounding_keeps_order(sent as nat * u, 1, lost as nat * u, 1);
            law_quotients_keep_order(whole, whole, part, whole);
            law_whole_is_one(whole);
        }
        if lost == sent {
            law_whole_is_one(whole);
        }
    }
}

/// A window without jitter is as stable as its loss leaves it, and one without
/// loss as its jitter does: at 25 ms it is half as stable.
pub proof fn law_stability_falls_with_jitter_and_loss(samples: Seq<Reading>, sent: u64, lost: u64)
    ensures
        samples.len() < 2 ==> steadiness(samples, sent, lost) == difference(
            Reading { bits: ONE },
            loss_share(sent, lost),
        ),
        samples.len() >= 2 && spread(samples).bits < INFINITE && lost == 0 ==> steadiness(
            samples,
            sent,
            lost,
        ) == falling_off(division(spread(samples), Reading { bits: UNSTEADY_JITTER_MS })),
        samples.len() >= 2 && spread(samples).bits == UNSTEADY_JITTER_MS && lost == 0
            ==> steadiness(samples, sent, lost).bits == HALF,
{
    let one = Reading { bits: ONE };
    let zero = Reading { bits: ZERO };
    let loss = loss_share(sent, lost);
    let unsteady = Reading { bits: UNSTEADY_JITTER_MS };
    law_loss_is_a_share(sent, lost);
    law_loss_is_lost_over_sent(sent, lost);
    law_rest_is_a_share(loss);
    law_zero_leaves_as_is(unsteady);
    law_zero_leaves_as_is(one);
    law_whole_is_one(one);
    law_whole_is_one(unsteady);
    lemma_falls_off_by_counts(0);
    lemma_one_halves();
    assert(falling_off(zero) == one);
    law_one_leaves_as_is(difference(one, loss));
    if lost == 0 {
        if sent > 0 {
            law_counts_are_positive(sent);
            law_zero_leaves_as_is(counted(sent));
        }
        assert(loss.bits == ZERO);
        lemma_one();
        law_rounds_no_higher(one.value() as nat, 1, ONE);
        law_rounds_no_lower(one.value() as nat, 1, ONE);
        law_positions_follow_values(zero, zero);
        assert(zero.negation().value() == 0);
        assert(difference(one, loss) == one);
        if samples.len() >= 2 && spread(samples).bits < INFINITE {
            let x = spread(samples);
            law_quotients_keep_order(x, unsteady, x, unsteady);
            law_falling_off(division(x, unsteady), division(x, unsteady));
            law_one_leaves_as_is(falling_off(division(x, unsteady)));
        }
    }
}

} // verus!
