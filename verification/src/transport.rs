//! What each transport can do, and which one to use.
//!
//! The choice goes by measured benchmarks; no transport is assumed to win.
use vstd::prelude::*;

use crate::double::{divide, division, greater, greater_of};
use crate::model::{MeasuredSource, MetricsSnapshot, TransportKind};
use crate::order::is_quantity;
use crate::reading::{Reading, ONE, ZERO};
use crate::scoring::{
    are_numbers, default_score_weights, law_numbers_score_a_number, law_usual_weights_are_usable,
    none_of, raised_loss, score_of, score_snapshot, ScoreWeights,
};

verus! {

/// What a kind of transport can do.
#[derive(Clone, Copy, Debug, PartialEq, Eq, Structural)]
pub struct TransportCapabilities {
    pub kind: TransportKind,
    /// The usual cost of setting up, in milliseconds: a weak prior only.
    pub setup_latency_ms: u64,
    /// Whether a connection can move to another network.
    pub supports_connection_migration: bool,
    /// Whether a lost packet holds up its own stream only.
    pub stream_multiplexing: bool,
    pub reliable: bool,
    pub encrypted: bool,
    /// About how many bytes each packet costs.
    pub overhead_bytes: usize,
}

pub open spec fn capabilities_of(kind: TransportKind) -> TransportCapabilities {
    let (setup_latency_ms, overhead_bytes): (u64, usize) = match kind {
        TransportKind::Quic => (60, 40),
        TransportKind::Udp => (0, 8),
        TransportKind::TcpTls => (80, 20),
        TransportKind::Http2 => (90, 32),
        TransportKind::WebSocketTls => (100, 28),
        TransportKind::Direct => (0, 0),
    };
    let secure = kind != TransportKind::Udp && kind != TransportKind::Direct;
    TransportCapabilities {
        kind,
        setup_latency_ms,
        supports_connection_migration: kind == TransportKind::Quic,
        stream_multiplexing: kind == TransportKind::Quic || kind == TransportKind::Http2,
        reliable: secure,
        encrypted: secure,
        overhead_bytes,
    }
}

pub fn capabilities(kind: TransportKind) -> (r: TransportCapabilities)
    ensures
        r == capabilities_of(kind),
{
    match kind {
        TransportKind::Quic => TransportCapabilities {
            kind,
            setup_latency_ms: 60,
            supports_connection_migration: true,
            stream_multiplexing: true,
            reliable: true,
            encrypted: true,
            overhead_bytes: 40,
        },
        TransportKind::Udp => TransportCapabilities {
            kind,
            setup_latency_ms: 0,
            supports_connection_migration: false,
            stream_multiplexing: false,
            reliable: false,
            encrypted: false,
            overhead_bytes: 8,
        },
        TransportKind::TcpTls => TransportCapabilities {
            kind,
            setup_latency_ms: 80,
            supports_connection_migration: false,
            stream_multiplexing: false,
            reliable: true,
            encrypted: true,
            overhead_bytes: 20,
        },
        TransportKind::Http2 => TransportCapabilities {
            kind,
            setup_latency_ms: 90,
            supports_connection_migration: false,
            stream_multiplexing: true,
            reliable: true,
            encrypted: true,
            overhead_bytes: 32,
        },
        TransportKind::WebSocketTls => TransportCapabilities {
            kind,
            setup_latency_ms: 100,
            supports_connection_migration: false,
            stream_multiplexing: false,
            reliable: true,
            encrypted: true,
            overhead_bytes: 28,
        },
        TransportKind::Direct => TransportCapabilities {
            kind,
            setup_latency_ms: 0,
            supports_connection_migration: false,
            stream_multiplexing: false,
            reliable: false,
            encrypted: false,
            overhead_bytes: 0,
        },
    }
}

/// What a benchmark of a transport measured.
#[derive(Clone, Copy, Debug, PartialEq)]
pub struct BenchmarkResult {
    pub transport: TransportKind,
    pub handshake_latency_ms: Reading,
    pub sustained_rtt_ms: Reading,
    pub jitter_ms: Reading,
    pub packet_loss_ratio: Reading,
    pub reconnect_time_ms: Reading,
    /// Bits per second; zero where not measured.
    pub throughput_bps: Reading,
    pub stability: Reading,
    pub source: MeasuredSource,
}

/// 60000.0: the milliseconds of a minute.
pub const MINUTE_MS: u64 = 0x40ed_4c00_0000_0000;

/// How often a minute a transport could reconnect that takes so long for it.
pub open spec fn reconnects_per_minute(reconnect_time_ms: Reading) -> Reading {
    if none_of(reconnect_time_ms) {
        Reading { bits: ZERO }
    } else {
        division(Reading { bits: MINUTE_MS }, greater(reconnect_time_ms, Reading { bits: ONE }))
    }
}

impl BenchmarkResult {
    /// What the score of the transport is made of.
    pub open spec fn measured(self) -> MetricsSnapshot {
        MetricsSnapshot {
            latency_ms: self.sustained_rtt_ms,
            jitter_ms: self.jitter_ms,
            packet_loss_ratio: self.packet_loss_ratio,
            stability: self.stability,
            handshake_latency_ms: self.handshake_latency_ms,
            reconnect_rate: reconnects_per_minute(self.reconnect_time_ms),
        }
    }

    /// The metrics that the score of the transport is made of.
    pub fn metrics(&self) -> (r: MetricsSnapshot)
        ensures
            r == self.measured(),
    {
        let reconnect_rate = if (Reading { bits: ZERO }) >= self.reconnect_time_ms {
            Reading { bits: ZERO }
        } else {
            divide(
                Reading { bits: MINUTE_MS },
                greater_of(self.reconnect_time_ms, Reading { bits: ONE }),
            )
        };
        MetricsSnapshot {
            latency_ms: self.sustained_rtt_ms,
            jitter_ms: self.jitter_ms,
            packet_loss_ratio: self.packet_loss_ratio,
            stability: self.stability,
            handshake_latency_ms: self.handshake_latency_ms,
            reconnect_rate,
        }
    }
}

/// The phases of a benchmark.
#[derive(Clone, Copy, Debug, PartialEq, Eq, Structural)]
pub enum BenchmarkPhase {
    NotStarted,
    Handshake,
    Warmup,
    RttSampling,
    Throughput,
    Stability,
    Done,
}

impl BenchmarkPhase {
    pub open spec fn place(self) -> int {
        match self {
            BenchmarkPhase::NotStarted => 0,
            BenchmarkPhase::Handshake => 1,
            BenchmarkPhase::Warmup => 2,
            BenchmarkPhase::RttSampling => 3,
            BenchmarkPhase::Throughput => 4,
            BenchmarkPhase::Stability => 5,
            BenchmarkPhase::Done => 6,
        }
    }

    /// The phase after this one; the last one stays.
    pub fn next(self) -> (r: BenchmarkPhase)
        ensures
            self != BenchmarkPhase::Done ==> r.place() == self.place() + 1,
            self == BenchmarkPhase::Done ==> r == BenchmarkPhase::Done,
    {
        match self {
            BenchmarkPhase::NotStarted => BenchmarkPhase::Handshake,
            BenchmarkPhase::Handshake => BenchmarkPhase::Warmup,
            BenchmarkPhase::Warmup => BenchmarkPhase::RttSampling,
            BenchmarkPhase::RttSampling => BenchmarkPhase::Throughput,
            BenchmarkPhase::Throughput => BenchmarkPhase::Stability,
            BenchmarkPhase::Stability => BenchmarkPhase::Done,
            BenchmarkPhase::Done => BenchmarkPhase::Done,
        }
    }
}

/// The scores of the results, with the usual weights.
pub open spec fn scores_of(results: Seq<BenchmarkResult>, loss_powers: Seq<Reading>) -> Seq<Reading> {
    Seq::new(
        results.len(),
        |i: int| score_of(default_score_weights(), results[i].measured(), loss_powers[i]),
    )
}

/// The best of the first `n` real results: the first one, until a later one
/// has a higher score.
pub open spec fn best_of(results: Seq<BenchmarkResult>, scores: Seq<Reading>, n: int) -> Option<int>
    decreases n,
{
    if n <= 0 {
        None
    } else {
        let best = best_of(results, scores, n - 1);
        if results[n - 1].source != MeasuredSource::Real {
            best
        } else {
            match best {
                None => Some(n - 1),
                Some(k) => if scores[k].below(scores[n - 1]) {
                    Some(n - 1)
                } else {
                    best
                },
            }
        }
    }
}

/// The transport with the highest score among the real results.
pub open spec fn selection(results: Seq<BenchmarkResult>, loss_powers: Seq<Reading>) -> Option<
    TransportKind,
> {
    match best_of(results, scores_of(results, loss_powers), results.len() as int) {
        Some(k) => Some(results[k].transport),
        None => None,
    }
}

/// The transport with the highest score among the real results.
/// `loss_powers` holds `scoring::loss_scale` of each loss to the power of 1.6.
pub fn select_transport(results: &[BenchmarkResult], loss_powers: &[Reading]) -> (r: Option<
    TransportKind,
>)
    requires
        results@.len() == loss_powers@.len(),
    ensures
        r == selection(results@, loss_powers@),
{
    let ghost scores = scores_of(results@, loss_powers@);
    let weights = ScoreWeights::default();
    let mut best: Option<(Reading, usize)> = None;
    let mut i: usize = 0;
    while i < results.len()
        invariant
            i <= results@.len(),
            results@.len() == loss_powers@.len(),
            weights == default_score_weights(),
            scores == scores_of(results@, loss_powers@),
            (match best {
                Some((score, k)) => k < i && score == scores[k as int] && best_of(
                    results@,
                    scores,
                    i as int,
                ) == Some(k as int),
                None => best_of(results@, scores, i as int) is None,
            }),
        decreases results@.len() - i,
    {
        if results[i].source == MeasuredSource::Real {
            let (score, _) = score_snapshot(&weights, &results[i].metrics(), loss_powers[i]);
            assert(score == scores[i as int]);
            best = match best {
                None => Some((score, i)),
                Some((previous, k)) => if score > previous {
                    Some((score, i))
                } else {
                    Some((previous, k))
                },
            };
        }
        i = i + 1;
    }
    match best {
        Some((_, k)) => Some(results[k].transport),
        None => None,
    }
}

/// Synthetic results are never selected; a real one is, where there is one,
/// and where what was measured is numbers none has a higher score.
pub proof fn law_selection_is_real_and_best(
    results: Seq<BenchmarkResult>,
    loss_powers: Seq<Reading>,
)
    requires
        loss_powers.len() == results.len(),
        forall|i: int|
            0 <= i < results.len() ==> are_numbers((#[trigger] results[i]).measured()) && is_quantity(
                raised_loss(results[i].measured().packet_loss_ratio, loss_powers[i]),
            ),
    ensures
        (match selection(results, loss_powers) {
            Some(t) => exists|k: int|
                0 <= k < results.len() && (#[trigger] results[k]).transport == t
                    && results[k].source == MeasuredSource::Real && forall|i: int|
                    0 <= i < results.len() && (#[trigger] results[i]).source
                        == MeasuredSource::Real ==> scores_of(results, loss_powers)[k].at_least(
                        scores_of(results, loss_powers)[i],
                    ),
            None => forall|i: int|
                0 <= i < results.len() ==> (#[trigger] results[i]).source
                    == MeasuredSource::Synthetic,
        }),
{
    assert forall|i: int| 0 <= i < results.len() implies !(#[trigger] scores_of(
        results,
        loss_powers,
    )[i]).is_nan() by {
        assert(are_numbers(results[i].measured()));
        law_usual_weights_are_usable();
        law_numbers_score_a_number(
            default_score_weights(),
            results[i].measured(),
            loss_powers[i],
        );
    }
    let scores = scores_of(results, loss_powers);
    lemma_best_of(results, scores, results.len() as int);
    if let Some(k) = best_of(results, scores, results.len() as int) {
        assert(results[k].source == MeasuredSource::Real);
    }
}

proof fn lemma_best_of(results: Seq<BenchmarkResult>, scores: Seq<Reading>, n: int)
    requires
        0 <= n <= results.len(),
        scores.len() == results.len(),
        forall|i: int| 0 <= i < scores.len() ==> !(#[trigger] scores[i]).is_nan(),
    ensures
        (match best_of(results, scores, n) {
            Some(k) => {
                &&& 0 <= k < n
                &&& results[k].source == MeasuredSource::Real
                &&& forall|i: int|
                    0 <= i < n && (#[trigger] results[i]).source == MeasuredSource::Real
                        ==> scores[k].at_least(scores[i])
            },
            None => forall|i: int|
                0 <= i < n ==> (#[trigger] results[i]).source == MeasuredSource::Synthetic,
        }),
    decreases n,
{
    if n > 0 {
        lemma_best_of(results, scores, n - 1);
        assert(!scores[n - 1].is_nan());
    }
}

/// A transport is scored by what its benchmark measured, each figure in its
/// own place: the sustained round trip as latency, and jitter, loss, stability
/// and handshake as they are.
pub proof fn law_transport_is_scored_by_its_benchmark(
    results: Seq<BenchmarkResult>,
    loss_powers: Seq<Reading>,
    i: int,
)
    requires
        0 <= i < results.len(),
        loss_powers.len() == results.len(),
    ensures
        scores_of(results, loss_powers).len() == results.len(),
        scores_of(results, loss_powers)[i] == score_of(
            default_score_weights(),
            MetricsSnapshot {
                latency_ms: results[i].sustained_rtt_ms,
                jitter_ms: results[i].jitter_ms,
                packet_loss_ratio: results[i].packet_loss_ratio,
                stability: results[i].stability,
                handshake_latency_ms: results[i].handshake_latency_ms,
                reconnect_rate: results[i].measured().reconnect_rate,
            },
            loss_powers[i],
        ),
        results[i].reconnect_time_ms.equals(Reading { bits: ZERO })
            ==> results[i].measured().reconnect_rate.bits == ZERO,
{
}

/// Of results that score the same the first is selected: the selected one
/// scores higher than every real one before it.
pub proof fn law_first_of_equals_is_selected(
    results: Seq<BenchmarkResult>,
    scores: Seq<Reading>,
    n: int,
    i: int,
)
    requires
        0 <= n <= results.len(),
        scores.len() == results.len(),
        forall|j: int| 0 <= j < scores.len() ==> !(#[trigger] scores[j]).is_nan(),
        best_of(results, scores, n) is Some,
        0 <= i < best_of(results, scores, n)->Some_0,
        results[i].source == MeasuredSource::Real,
    ensures
        scores[i].position() < scores[best_of(results, scores, n)->Some_0].position(),
    decreases n,
{
    if n > 0 {
        lemma_best_of(results, scores, n - 1);
        assert(!scores[n - 1].is_nan());
        let before = best_of(results, scores, n - 1);
        if best_of(results, scores, n) == before {
            law_first_of_equals_is_selected(results, scores, n - 1, i);
        } else {
            assert(results[i].source == MeasuredSource::Real);
        }
    }
}

/// A transport whose connections can move keeps its streams apart, and one
/// that does so is reliable. What is reliable is encrypted too, takes a set-up
/// and costs more per packet than what is not. Only one can move.
pub proof fn law_capabilities_go_together(kind: TransportKind, other: TransportKind)
    ensures
        capabilities_of(kind).kind == kind,
        capabilities_of(kind).supports_connection_migration ==> capabilities_of(
            kind,
        ).stream_multiplexing,
        capabilities_of(kind).stream_multiplexing ==> capabilities_of(kind).reliable,
        capabilities_of(kind).reliable == capabilities_of(kind).encrypted,
        capabilities_of(kind).reliable <==> capabilities_of(kind).setup_latency_ms > 0,
        capabilities_of(kind).reliable && !capabilities_of(other).reliable ==> capabilities_of(
            other,
        ).overhead_bytes < capabilities_of(kind).overhead_bytes,
        capabilities_of(kind).supports_connection_migration && capabilities_of(
            other,
        ).supports_connection_migration ==> kind == other,
{
}

} // verus!
