//! Edges: what is known of them, and the routes that they offer.
//!
//! All edges are probed lightly; only the chosen one carries traffic.
use vstd::arithmetic::power2::{lemma_pow2_pos, pow2};
use vstd::prelude::*;

use crate::double::{
    clamp, difference, divide, division, greater, greater_of, lesser, lesser_of, minus, plus,
    product, sum, times, units, UNIT_DOUBLINGS,
};
use crate::model::{
    EdgeHealth, EdgeHealthView, EdgeInfo, EdgeInfoView, MeasuredSource, MetricsSnapshot,
    RouteCandidate, RouteCandidateView, TransportKind,
};
use crate::order::{
    is_quantity, law_bounds_keep_order, law_one_leaves_as_is, law_positions_follow_values,
    law_products_keep_order, law_rest_is_a_share, law_shares_are_at_most_one, law_shares_multiply,
    law_sums_grow, law_sums_keep_order, law_weighed_sums_keep_order, law_zero_leaves_as_is,
};
use crate::ratio::{
    count, counted, law_counts_are_exact, law_counts_are_positive, law_rounds_no_higher,
    law_rounds_no_lower, lemma_one, quotient, ratio,
};
use crate::reading::{Reading, ABSENT, HALF, INFINITE, ONE, UNMEASURED, ZERO};
use crate::scoring::{
    handshake_score, jitter_score, latency_score, law_handshake_scores_fall,
    law_jitter_scores_fall, law_latency_scores_fall, law_out_of_hundred_keeps_order,
    lemma_is_count, lemma_lone_part, lemma_lone_weight, lemma_over_one, negligible, none_of,
    out_of_hundred, per_hundred, powers_in_order, score_of_handshake, score_of_jitter,
    score_of_latency, share_of, stability_score, EPSILON, HUNDRED, USELESS_LOSS,
};
use crate::search::{first_index, lemma_first_index, lemma_first_index_is};
use crate::text::same;
use crate::views::{group_views, views};
use crate::TimestampMs;

verus! {

broadcast use group_views;

/// How much each metric counts in the health score of an edge.
#[derive(Clone, Copy, Debug, PartialEq)]
pub struct EdgeProbeWeights {
    pub latency_weight: Reading,
    pub jitter_weight: Reading,
    pub loss_weight: Reading,
    pub availability_weight: Reading,
    pub handshake_weight: Reading,
    pub stability_weight: Reading,
}

/// 0.20
pub const EDGE_LATENCY_WEIGHT: u64 = 0x3fc9_9999_9999_999a;

/// 0.15
pub const EDGE_JITTER_WEIGHT: u64 = 0x3fc3_3333_3333_3333;

/// 0.25
pub const EDGE_LOSS_WEIGHT: u64 = 0x3fd0_0000_0000_0000;

/// 0.15
pub const EDGE_AVAILABILITY_WEIGHT: u64 = 0x3fc3_3333_3333_3333;

/// 0.10
pub const EDGE_HANDSHAKE_WEIGHT: u64 = 0x3fb9_9999_9999_999a;

/// 0.15
pub const EDGE_STABILITY_WEIGHT: u64 = 0x3fc3_3333_3333_3333;

pub open spec fn default_edge_weights() -> EdgeProbeWeights {
    EdgeProbeWeights {
        latency_weight: Reading { bits: EDGE_LATENCY_WEIGHT },
        jitter_weight: Reading { bits: EDGE_JITTER_WEIGHT },
        loss_weight: Reading { bits: EDGE_LOSS_WEIGHT },
        availability_weight: Reading { bits: EDGE_AVAILABILITY_WEIGHT },
        handshake_weight: Reading { bits: EDGE_HANDSHAKE_WEIGHT },
        stability_weight: Reading { bits: EDGE_STABILITY_WEIGHT },
    }
}

impl Default for EdgeProbeWeights {
    fn default() -> (r: Self)
        ensures
            r == default_edge_weights(),
    {
        EdgeProbeWeights {
            latency_weight: Reading { bits: EDGE_LATENCY_WEIGHT },
            jitter_weight: Reading { bits: EDGE_JITTER_WEIGHT },
            loss_weight: Reading { bits: EDGE_LOSS_WEIGHT },
            availability_weight: Reading { bits: EDGE_AVAILABILITY_WEIGHT },
            handshake_weight: Reading { bits: EDGE_HANDSHAKE_WEIGHT },
            stability_weight: Reading { bits: EDGE_STABILITY_WEIGHT },
        }
    }
}

/// 0.25: how much a new sample counts.
pub const NEW_SHARE: u64 = 0x3fd0_0000_0000_0000;

/// 0.75: how much what is known counts.
pub const KNOWN_SHARE: u64 = 0x3fe8_0000_0000_0000;

/// 60.0
pub const PROBES_PER_RATE: u64 = 0x404e_0000_0000_0000;

/// 1000.0 ms: more latency makes the score of an edge no worse.
pub const WORST_LATENCY_MS: u64 = 0x408f_4000_0000_0000;

/// 500.0 ms: more jitter makes the score of an edge no worse.
pub const WORST_JITTER_MS: u64 = 0x407f_4000_0000_0000;

pub open spec fn edge_weight_sum(w: EdgeProbeWeights) -> Reading {
    sum(
        sum(
            sum(
                sum(sum(w.latency_weight, w.jitter_weight), w.loss_weight),
                w.availability_weight,
            ),
            w.handshake_weight,
        ),
        w.stability_weight,
    )
}

/// The part of the score of an edge that its loss has; `power` is its base to
/// the power of 1.3.
pub open spec fn edge_score_of_loss(loss_ratio: Reading, power: Reading) -> Reading {
    if none_of(loss_ratio) {
        Reading { bits: ONE }
    } else if loss_ratio.at_least(Reading { bits: USELESS_LOSS }) {
        Reading { bits: ZERO }
    } else {
        division(Reading { bits: ONE }, power)
    }
}

fn edge_loss_score(loss_ratio: Reading, power: Reading) -> (r: Reading)
    ensures
        r == edge_score_of_loss(loss_ratio, power),
{
    if (Reading { bits: ZERO }) >= loss_ratio {
        return Reading { bits: ONE };
    }
    if loss_ratio >= (Reading { bits: USELESS_LOSS }) {
        return Reading { bits: ZERO };
    }
    divide(Reading { bits: ONE }, power)
}

/// The weights as shares of their sum; the usual ones where there are none.
pub open spec fn normalized_edge(w: EdgeProbeWeights) -> EdgeProbeWeights {
    let total = edge_weight_sum(w);
    if negligible(total) {
        default_edge_weights()
    } else {
        EdgeProbeWeights {
            latency_weight: division(w.latency_weight, total),
            jitter_weight: division(w.jitter_weight, total),
            loss_weight: division(w.loss_weight, total),
            availability_weight: division(w.availability_weight, total),
            handshake_weight: division(w.handshake_weight, total),
            stability_weight: division(w.stability_weight, total),
        }
    }
}

impl EdgeProbeWeights {
    pub fn normalize(&self) -> (r: EdgeProbeWeights)
        ensures
            r == normalized_edge(*self),
    {
        let total = plus(
            plus(
                plus(
                    plus(plus(self.latency_weight, self.jitter_weight), self.loss_weight),
                    self.availability_weight,
                ),
                self.handshake_weight,
            ),
            self.stability_weight,
        );
        if (Reading { bits: EPSILON }) >= total {
            return EdgeProbeWeights::default();
        }
        EdgeProbeWeights {
            latency_weight: divide(self.latency_weight, total),
            jitter_weight: divide(self.jitter_weight, total),
            loss_weight: divide(self.loss_weight, total),
            availability_weight: divide(self.availability_weight, total),
            handshake_weight: divide(self.handshake_weight, total),
            stability_weight: divide(self.stability_weight, total),
        }
    }
}

/// A quarter of the sample, and three quarters of what is known.
pub open spec fn smoothed(known: Reading, sample: Reading) -> Reading {
    sum(
        product(Reading { bits: NEW_SHARE }, sample),
        product(Reading { bits: KNOWN_SHARE }, known),
    )
}

fn smooth(known: Reading, sample: Reading) -> (r: Reading)
    ensures
        r == smoothed(known, sample),
{
    plus(
        times(Reading { bits: NEW_SHARE }, sample),
        times(Reading { bits: KNOWN_SHARE }, known),
    )
}

/// What is known of an edge: smoothed measurements and counts.
#[derive(Debug)]
pub struct EdgeStats {
    pub edge_id: String,
    pub latency_ms: Reading,
    pub jitter_ms: Reading,
    /// The failed share of all probes.
    pub packet_loss_ratio: Reading,
    /// The successful share of all probes.
    pub availability: Reading,
    pub handshake_latency_ms: Reading,
    pub samples: u64,
    pub reconnects: u64,
    pub successes: u64,
    pub failures: u64,
    pub last_probed_at: Option<TimestampMs>,
    pub expires_at: TimestampMs,
}

#[verifier::ext_equal]
pub struct EdgeStatsView {
    pub edge_id: Seq<char>,
    pub latency_ms: Reading,
    pub jitter_ms: Reading,
    pub packet_loss_ratio: Reading,
    pub availability: Reading,
    pub handshake_latency_ms: Reading,
    pub samples: u64,
    pub reconnects: u64,
    pub successes: u64,
    pub failures: u64,
    pub last_probed_at: Option<TimestampMs>,
    pub expires_at: TimestampMs,
}

impl View for EdgeStats {
    type V = EdgeStatsView;

    open spec fn view(&self) -> EdgeStatsView {
        EdgeStatsView {
            edge_id: self.edge_id@,
            latency_ms: self.latency_ms,
            jitter_ms: self.jitter_ms,
            packet_loss_ratio: self.packet_loss_ratio,
            availability: self.availability,
            handshake_latency_ms: self.handshake_latency_ms,
            samples: self.samples,
            reconnects: self.reconnects,
            successes: self.successes,
            failures: self.failures,
            last_probed_at: self.last_probed_at,
            expires_at: self.expires_at,
        }
    }
}

/// `then` where nothing was measured, else `reading`.
pub open spec fn measured_or(reading: Reading, then: Reading) -> Reading {
    if reading.equals(Reading { bits: UNMEASURED }) {
        then
    } else {
        reading
    }
}

fn shown_or(reading: Reading, then: Reading) -> (r: Reading)
    ensures
        r == measured_or(reading, then),
{
    if reading == (Reading { bits: UNMEASURED }) {
        then
    } else {
        reading
    }
}

impl EdgeStatsView {
    pub open spec fn fresh(edge: EdgeInfoView) -> EdgeStatsView {
        EdgeStatsView {
            edge_id: edge.id,
            latency_ms: Reading { bits: UNMEASURED },
            jitter_ms: Reading { bits: UNMEASURED },
            packet_loss_ratio: Reading { bits: ONE },
            availability: Reading { bits: ZERO },
            handshake_latency_ms: Reading { bits: UNMEASURED },
            samples: 0,
            reconnects: 0,
            successes: 0,
            failures: 0,
            last_probed_at: None,
            expires_at: edge.expires_at,
        }
    }

    /// Whether one more probe can be counted.
    pub open spec fn counts_probe(self) -> bool {
        self.samples < u64::MAX && self.successes + self.failures < u64::MAX
    }

    /// The value after a probe: the first one is taken as it is.
    pub open spec fn updated(self, known: Reading, sample: Reading) -> Reading {
        if self.samples == 0 || known.equals(Reading { bits: UNMEASURED }) {
            sample
        } else {
            smoothed(known, sample)
        }
    }

    /// Between zero and one, where one is best; from loss and availability.
    pub open spec fn stability(self) -> Reading {
        share_of(
            product(
                difference(Reading { bits: ONE }, share_of(self.packet_loss_ratio)),
                self.availability,
            ),
        )
    }

    /// Reconnects per sixty probes, of which there are taken to be as many at
    /// least.
    pub open spec fn reconnect_rate(self) -> Reading {
        if self.samples == 0 {
            Reading { bits: ZERO }
        } else {
            division(
                counted(self.reconnects),
                greater(
                    division(counted(self.samples), Reading { bits: PROBES_PER_RATE }),
                    Reading { bits: ONE },
                ),
            )
        }
    }

    /// The score of the edge, between zero and a hundred. `loss_power` is the
    /// base of its loss to the power of 1.3.
    pub open spec fn score(self, weights: EdgeProbeWeights, loss_power: Reading) -> Reading {
        let w = normalized_edge(weights);
        let latency = score_of_latency(lesser(self.latency_ms, Reading { bits: WORST_LATENCY_MS }));
        let jitter = score_of_jitter(lesser(self.jitter_ms, Reading { bits: WORST_JITTER_MS }));
        let loss = edge_score_of_loss(self.packet_loss_ratio, loss_power);
        let handshake = if self.handshake_latency_ms.equals(Reading { bits: UNMEASURED }) {
            Reading { bits: ZERO }
        } else {
            score_of_handshake(self.handshake_latency_ms)
        };
        let raw = sum(
            sum(
                sum(
                    sum(
                        sum(product(w.latency_weight, latency), product(w.jitter_weight, jitter)),
                        product(w.loss_weight, loss),
                    ),
                    product(w.stability_weight, self.stability()),
                ),
                product(w.handshake_weight, handshake),
            ),
            product(w.availability_weight, share_of(self.availability)),
        );
        out_of_hundred(raw)
    }

    pub open spec fn observed(
        self,
        latency_ms: Reading,
        jitter_ms: Reading,
        lost: bool,
    ) -> EdgeStatsView {
        let failures = if lost {
            self.failures + 1
        } else {
            self.failures as int
        };
        let successes = if lost {
            self.successes as int
        } else {
            self.successes + 1
        };
        EdgeStatsView {
            samples: (self.samples + 1) as u64,
            last_probed_at: match self.last_probed_at {
                Some(at) => Some(at),
                None => Some(0),
            },
            failures: failures as u64,
            successes: successes as u64,
            latency_ms: self.updated(self.latency_ms, latency_ms),
            jitter_ms: self.updated(self.jitter_ms, jitter_ms),
            packet_loss_ratio: quotient(failures as u64, (successes + failures) as u64),
            availability: quotient(successes as u64, (successes + failures) as u64),
            ..self
        }
    }

    pub open spec fn with_handshake(self, ms: Reading) -> EdgeStatsView {
        EdgeStatsView {
            handshake_latency_ms: if self.handshake_latency_ms.equals(
                Reading { bits: UNMEASURED },
            ) {
                ms
            } else {
                smoothed(self.handshake_latency_ms, ms)
            },
            ..self
        }
    }

    /// The metrics of a route over the edge; what was not measured is zero.
    pub open spec fn metrics(self) -> MetricsSnapshot {
        MetricsSnapshot {
            latency_ms: measured_or(self.latency_ms, Reading { bits: ZERO }),
            jitter_ms: measured_or(self.jitter_ms, Reading { bits: ZERO }),
            packet_loss_ratio: self.packet_loss_ratio,
            stability: self.stability(),
            handshake_latency_ms: measured_or(self.handshake_latency_ms, Reading { bits: ZERO }),
            reconnect_rate: self.reconnect_rate(),
        }
    }

    /// What is reported of the edge; what was not measured is not a number.
    pub open spec fn health(
        self,
        weights: EdgeProbeWeights,
        loss_power: Reading,
        source: MeasuredSource,
    ) -> EdgeHealthView {
        EdgeHealthView {
            edge_id: self.edge_id,
            latency_ms: measured_or(self.latency_ms, Reading { bits: ABSENT }),
            jitter_ms: measured_or(self.jitter_ms, Reading { bits: ABSENT }),
            packet_loss_ratio: self.packet_loss_ratio,
            availability: self.availability,
            handshake_latency_ms: measured_or(self.handshake_latency_ms, Reading { bits: ABSENT }),
            reconnect_rate: self.reconnect_rate(),
            historical_stability: self.stability(),
            score: self.score(weights, loss_power),
            updated_at: match self.last_probed_at {
                Some(at) => at,
                None => 0,
            },
            source,
        }
    }

    /// The route over the edge by the transport.
    pub open spec fn route(
        self,
        info: EdgeInfoView,
        transport: TransportKind,
        source: MeasuredSource,
    ) -> RouteCandidateView {
        RouteCandidateView {
            id: self.edge_id + "-"@ + transport.name(),
            endpoint: info.address,
            transport,
            region: info.region,
            latency_ms: self.metrics().latency_ms,
            jitter_ms: self.metrics().jitter_ms,
            packet_loss_ratio: self.packet_loss_ratio,
            stability: self.stability(),
            handshake_latency_ms: self.metrics().handshake_latency_ms,
            reconnect_rate: self.reconnect_rate(),
            score: None,
            source,
        }
    }
}

impl Clone for EdgeStats {
    fn clone(&self) -> (r: Self)
        ensures
            r == *self,
    {
        EdgeStats {
            edge_id: self.edge_id.clone(),
            latency_ms: self.latency_ms,
            jitter_ms: self.jitter_ms,
            packet_loss_ratio: self.packet_loss_ratio,
            availability: self.availability,
            handshake_latency_ms: self.handshake_latency_ms,
            samples: self.samples,
            reconnects: self.reconnects,
            successes: self.successes,
            failures: self.failures,
            last_probed_at: self.last_probed_at,
            expires_at: self.expires_at,
        }
    }
}

impl EdgeStats {
    pub fn new(edge: &EdgeInfo) -> (r: Self)
        ensures
            r@ == EdgeStatsView::fresh(edge@),
    {
        EdgeStats {
            edge_id: edge.id.clone(),
            latency_ms: Reading { bits: UNMEASURED },
            jitter_ms: Reading { bits: UNMEASURED },
            packet_loss_ratio: Reading { bits: ONE },
            availability: Reading { bits: ZERO },
            handshake_latency_ms: Reading { bits: UNMEASURED },
            samples: 0,
            reconnects: 0,
            successes: 0,
            failures: 0,
            last_probed_at: None,
            expires_at: edge.expires_at,
        }
    }

    /// Takes in the outcome of a probe. Latency and jitter are smoothed; loss
    /// and availability are the shares of failed and successful probes among
    /// all of them.
    pub fn observes(&mut self, latency_ms: Reading, jitter_ms: Reading, lost: bool)
        requires
            old(self)@.counts_probe(),
        ensures
            final(self)@ == old(self)@.observed(latency_ms, jitter_ms, lost),
    {
        self.samples = self.samples + 1;
        self.last_probed_at = match self.last_probed_at {
            Some(at) => Some(at),
            None => Some(0),
        };
        if lost {
            self.failures = self.failures + 1;
        } else {
            self.successes = self.successes + 1;
        }
        self.latency_ms = if self.samples == 1 || self.latency_ms == (Reading { bits: UNMEASURED })
        {
            latency_ms
        } else {
            smooth(self.latency_ms, latency_ms)
        };
        self.jitter_ms = if self.samples == 1 || self.jitter_ms == (Reading { bits: UNMEASURED }) {
            jitter_ms
        } else {
            smooth(self.jitter_ms, jitter_ms)
        };
        let total: u64 = self.successes + self.failures;
        self.packet_loss_ratio = ratio(self.failures, total);
        self.availability = ratio(self.successes, total);
    }

    /// Takes in how long a handshake took.
    pub fn record_handshake(&mut self, ms: Reading)
        ensures
            final(self)@ == old(self)@.with_handshake(ms),
    {
        self.handshake_latency_ms = if self.handshake_latency_ms == (Reading { bits: UNMEASURED }) {
            ms
        } else {
            smooth(self.handshake_latency_ms, ms)
        };
    }

    pub fn record_reconnect(&mut self)
        requires
            old(self).reconnects < u64::MAX,
        ensures
            final(self)@ == (EdgeStatsView {
                reconnects: (old(self).reconnects + 1) as u64,
                ..old(self)@
            }),
    {
        self.reconnects = self.reconnects + 1;
    }

    pub fn stability(&self) -> (r: Reading)
        ensures
            r == self@.stability(),
    {
        let kept = minus(
            Reading { bits: ONE },
            clamp(self.packet_loss_ratio, Reading { bits: ZERO }, Reading { bits: ONE }),
        );
        clamp(times(kept, self.availability), Reading { bits: ZERO }, Reading { bits: ONE })
    }

    pub fn reconnect_rate(&self) -> (r: Reading)
        ensures
            r == self@.reconnect_rate(),
    {
        if self.samples == 0 {
            return Reading { bits: ZERO };
        }
        divide(
            count(self.reconnects),
            greater_of(
                divide(count(self.samples), Reading { bits: PROBES_PER_RATE }),
                Reading { bits: ONE },
            ),
        )
    }

    /// The score of the edge. `loss_power` is `scoring::loss_base` of its loss
    /// to the power of 1.3.
    pub fn health_score(&self, weights: &EdgeProbeWeights, loss_power: Reading) -> (r: Reading)
        ensures
            r == self@.score(*weights, loss_power),
    {
        let w = weights.normalize();
        let latency = latency_score(
            lesser_of(self.latency_ms, Reading { bits: WORST_LATENCY_MS }),
        );
        let jitter = jitter_score(lesser_of(self.jitter_ms, Reading { bits: WORST_JITTER_MS }));
        let loss = edge_loss_score(self.packet_loss_ratio, loss_power);
        let handshake = if self.handshake_latency_ms == (Reading { bits: UNMEASURED }) {
            Reading { bits: ZERO }
        } else {
            handshake_score(self.handshake_latency_ms)
        };
        let raw = plus(
            plus(
                plus(
                    plus(
                        plus(times(w.latency_weight, latency), times(w.jitter_weight, jitter)),
                        times(w.loss_weight, loss),
                    ),
                    times(w.stability_weight, self.stability()),
                ),
                times(w.handshake_weight, handshake),
            ),
            times(w.availability_weight, stability_score(self.availability)),
        );
        per_hundred(raw)
    }

    /// The metrics of a route over this edge.
    pub fn metrics(&self) -> (r: MetricsSnapshot)
        ensures
            r == self@.metrics(),
    {
        MetricsSnapshot {
            latency_ms: shown_or(self.latency_ms, Reading { bits: ZERO }),
            jitter_ms: shown_or(self.jitter_ms, Reading { bits: ZERO }),
            packet_loss_ratio: self.packet_loss_ratio,
            stability: self.stability(),
            handshake_latency_ms: shown_or(self.handshake_latency_ms, Reading { bits: ZERO }),
            reconnect_rate: self.reconnect_rate(),
        }
    }
}

/// The edges that the client knows, and what it has measured of them.
#[derive(Debug)]
pub struct EdgeRegistry {
    pub edges: Vec<EdgeInfo>,
    pub stats: Vec<EdgeStats>,
}

#[verifier::ext_equal]
pub struct EdgeRegistryView {
    pub edges: Seq<EdgeInfoView>,
    pub stats: Seq<EdgeStatsView>,
}

impl View for EdgeRegistry {
    type V = EdgeRegistryView;

    open spec fn view(&self) -> EdgeRegistryView {
        EdgeRegistryView { edges: views(self.edges@), stats: views(self.stats@) }
    }
}

/// Whether an announced edge may be used: not expired, with id and address.
pub open spec fn admissible(info: EdgeInfoView, now: TimestampMs) -> bool {
    info.expires_at > now && info.address.len() > 0 && info.id.len() > 0
}

/// The ids of the admissible edges.
pub open spec fn admissible_ids(infos: Seq<EdgeInfoView>, now: TimestampMs) -> Seq<Seq<char>>
    decreases infos.len(),
{
    if infos.len() == 0 {
        seq![]
    } else if admissible(infos.last(), now) {
        admissible_ids(infos.drop_last(), now).push(infos.last().id)
    } else {
        admissible_ids(infos.drop_last(), now)
    }
}

/// The place of the first edge of the id, or the number of edges.
pub open spec fn edge_at(edges: Seq<EdgeInfoView>, id: Seq<char>) -> int {
    first_index(edges, |e: EdgeInfoView| e.id == id)
}

/// The place of the first statistics of the id, or their number.
pub open spec fn stats_at(stats: Seq<EdgeStatsView>, id: Seq<char>) -> int {
    first_index(stats, |s: EdgeStatsView| s.edge_id == id)
}

/// The statistics of edges that are known.
pub open spec fn live(stats: Seq<EdgeStatsView>, edges: Seq<EdgeInfoView>) -> Seq<EdgeStatsView>
    decreases stats.len(),
{
    if stats.len() == 0 {
        seq![]
    } else if edge_at(edges, stats.last().edge_id) < edges.len() {
        live(stats.drop_last(), edges).push(stats.last())
    } else {
        live(stats.drop_last(), edges)
    }
}

/// The edges that are not expired.
pub open spec fn unexpired(edges: Seq<EdgeInfoView>, now: TimestampMs) -> Seq<EdgeInfoView>
    decreases edges.len(),
{
    if edges.len() == 0 {
        seq![]
    } else if edges.last().expires_at > now {
        unexpired(edges.drop_last(), now).push(edges.last())
    } else {
        unexpired(edges.drop_last(), now)
    }
}

/// The routes over one edge, by the transports that it supports.
pub open spec fn routes_over(
    stats: EdgeStatsView,
    info: EdgeInfoView,
    desired: Seq<TransportKind>,
    source: MeasuredSource,
) -> Seq<RouteCandidateView>
    decreases desired.len(),
{
    if desired.len() == 0 {
        seq![]
    } else if info.supported_transports.contains(desired.last()) {
        routes_over(stats, info, desired.drop_last(), source).push(
            stats.route(info, desired.last(), source),
        )
    } else {
        routes_over(stats, info, desired.drop_last(), source)
    }
}

impl EdgeRegistryView {
    /// The registry with the edge: a known one is replaced and keeps its
    /// statistics, a new one starts without any.
    pub open spec fn with_edge(self, info: EdgeInfoView) -> EdgeRegistryView {
        let at = edge_at(self.edges, info.id);
        if at < self.edges.len() {
            EdgeRegistryView { edges: self.edges.update(at, info), ..self }
        } else {
            EdgeRegistryView {
                edges: self.edges.push(info),
                stats: self.stats.push(EdgeStatsView::fresh(info)),
            }
        }
    }

    /// The registry with the admissible edges among `infos`.
    pub open spec fn with_edges(
        self,
        infos: Seq<EdgeInfoView>,
        now: TimestampMs,
    ) -> EdgeRegistryView
        decreases infos.len(),
    {
        if infos.len() == 0 {
            self
        } else if admissible(infos.last(), now) {
            self.with_edges(infos.drop_last(), now).with_edge(infos.last())
        } else {
            self.with_edges(infos.drop_last(), now)
        }
    }

    /// The registry once it has taken in the edges: what is expired by then
    /// goes, whenever it came, and its statistics go with it.
    pub open spec fn ingested(self, infos: Seq<EdgeInfoView>, now: TimestampMs) -> EdgeRegistryView {
        let all = self.with_edges(infos, now);
        let edges = unexpired(all.edges, now);
        EdgeRegistryView { edges, stats: live(all.stats, edges) }
    }

    /// The routes over the first `n` edges.
    pub open spec fn routes(
        self,
        n: int,
        desired: Seq<TransportKind>,
        source: MeasuredSource,
    ) -> Seq<RouteCandidateView>
        decreases n,
    {
        if n <= 0 {
            seq![]
        } else {
            let stats = self.stats[n - 1];
            let at = edge_at(self.edges, stats.edge_id);
            if at < self.edges.len() {
                self.routes(n - 1, desired, source) + routes_over(
                    stats,
                    self.edges[at],
                    desired,
                    source,
                )
            } else {
                self.routes(n - 1, desired, source)
            }
        }
    }

    /// All routes, edge by edge and transport by transport.
    pub open spec fn all_routes(
        self,
        desired: Seq<TransportKind>,
        source: MeasuredSource,
    ) -> Seq<RouteCandidateView> {
        self.routes(self.stats.len() as int, desired, source)
    }

    /// Every edge has an id of its own.
    pub open spec fn distinct_edges(self) -> bool {
        forall|i: int, j: int|
            0 <= i < j < self.edges.len() ==> (#[trigger] self.edges[i]).id
                != (#[trigger] self.edges[j]).id
    }
}

impl Default for EdgeRegistry {
    fn default() -> (r: Self)
        ensures
            r@ == (EdgeRegistryView { edges: seq![], stats: seq![] }),
    {
        EdgeRegistry { edges: Vec::new(), stats: Vec::new() }
    }
}

impl EdgeRegistry {
    fn find_edge(&self, id: &str) -> (r: usize)
        ensures
            r == edge_at(self@.edges, id@),
            r <= self.edges@.len(),
    {
        let mut i: usize = 0;
        while i < self.edges.len() && !same(&self.edges[i].id, id)
            invariant
                i <= self.edges.len(),
                forall|j: int| 0 <= j < i ==> (#[trigger] self@.edges[j]).id != id@,
            decreases self.edges.len() - i,
        {
            assert(self@.edges[i as int].id == self.edges@[i as int].id@);
            i = i + 1;
        }
        proof {
            if i < self.edges.len() {
                assert(self@.edges[i as int].id == self.edges@[i as int].id@);
            }
            lemma_first_index_is(self@.edges, |e: EdgeInfoView| e.id == id@, i as int);
        }
        i
    }

    pub(crate) fn find_stats(&self, id: &str) -> (r: usize)
        ensures
            r == stats_at(self@.stats, id@),
            r <= self.stats@.len(),
    {
        let mut i: usize = 0;
        while i < self.stats.len() && !same(&self.stats[i].edge_id, id)
            invariant
                i <= self.stats.len(),
                forall|j: int| 0 <= j < i ==> (#[trigger] self@.stats[j]).edge_id != id@,
            decreases self.stats.len() - i,
        {
            assert(self@.stats[i as int].edge_id == self.stats@[i as int].edge_id@);
            i = i + 1;
        }
        proof {
            if i < self.stats.len() {
                assert(self@.stats[i as int].edge_id == self.stats@[i as int].edge_id@);
            }
            lemma_first_index_is(self@.stats, |s: EdgeStatsView| s.edge_id == id@, i as int);
        }
        i
    }

    /// Takes in a list of edges from the server: those that are expired, or
    /// lack an id or an address, are passed over. Edges that have expired since
    /// they were taken in are dropped. Returns the accepted ids.
    pub fn ingest(&mut self, infos: Vec<EdgeInfo>, now: TimestampMs) -> (r: crate::Result<
        Vec<String>,
    >)
        ensures
            final(self)@ == old(self)@.ingested(views(infos@), now),
            forall|i: int|
                0 <= i < final(self)@.edges.len() ==> (#[trigger] final(self)@.edges[i]).expires_at
                    > now,
            r is Ok,
            views(r->Ok_0@) == admissible_ids(views(infos@), now),
    {
        let mut accepted: Vec<String> = Vec::new();
        let mut i: usize = 0;
        let ghost all = views(infos@);
        assert(all.take(0) =~= seq![]);
        while i < infos.len()
            invariant
                i <= infos.len(),
                all == views(infos@),
                self@ == old(self)@.with_edges(all.take(i as int), now),
                views(accepted@) == admissible_ids(all.take(i as int), now),
            decreases infos.len() - i,
        {
            let info = &infos[i];
            assert(all.take(i + 1).drop_last() =~= all.take(i as int));
            assert(all[i as int] == info@);
            if info.expires_at > now && !info.address.as_str().is_empty()
                && !info.id.as_str().is_empty() {
                let at: usize = self.find_edge(&info.id);
                if at < self.edges.len() {
                    self.edges.set(at, info.clone());
                } else {
                    self.stats.push(EdgeStats::new(info));
                    self.edges.push(info.clone());
                }
                accepted.push(info.id.clone());
            }
            i = i + 1;
        }
        assert(all.take(i as int) =~= all);
        self.drop_expired(now);
        self.keep_live();
        proof {
            lemma_unexpired(old(self)@.with_edges(all, now).edges, now);
        }
        Ok(accepted)
    }

    /// Drops the edges that are expired.
    fn drop_expired(&mut self, now: TimestampMs)
        ensures
            final(self)@ == (EdgeRegistryView {
                edges: unexpired(old(self)@.edges, now),
                ..old(self)@
            }),
    {
        let mut kept: Vec<EdgeInfo> = Vec::new();
        let mut i: usize = 0;
        let ghost all = self@.edges;
        assert(all.take(0) =~= seq![]);
        while i < self.edges.len()
            invariant
                i <= self.edges.len(),
                *self == *old(self),
                all == self@.edges,
                views(kept@) == unexpired(all.take(i as int), now),
            decreases self.edges.len() - i,
        {
            assert(all.take(i + 1).drop_last() =~= all.take(i as int));
            assert(all[i as int] == self.edges@[i as int]@);
            if self.edges[i].expires_at > now {
                kept.push(self.edges[i].clone());
            }
            i = i + 1;
        }
        assert(all.take(i as int) =~= all);
        self.edges = kept;
    }

    /// Drops the statistics of edges that are not known.
    fn keep_live(&mut self)
        ensures
            final(self)@ == (EdgeRegistryView {
                stats: live(old(self)@.stats, old(self)@.edges),
                ..old(self)@
            }),
    {
        let mut kept: Vec<EdgeStats> = Vec::new();
        let mut i: usize = 0;
        let ghost all = self@.stats;
        assert(all.take(0) =~= seq![]);
        while i < self.stats.len()
            invariant
                i <= self.stats.len(),
                *self == *old(self),
                all == self@.stats,
                views(kept@) == live(all.take(i as int), self@.edges),
            decreases self.stats.len() - i,
        {
            assert(all.take(i + 1).drop_last() =~= all.take(i as int));
            assert(all[i as int] == self.stats@[i as int]@);
            if self.find_edge(&self.stats[i].edge_id) < self.edges.len() {
                kept.push(self.stats[i].clone());
            }
            i = i + 1;
        }
        assert(all.take(i as int) =~= all);
        self.stats = kept;
    }

    pub fn stats_mut(&mut self, edge_id: &str) -> (r: Option<&mut EdgeStats>)
        ensures
            ({
                let at = stats_at(old(self)@.stats, edge_id@);
                match r {
                    Some(s) => {
                        &&& at < old(self).stats@.len()
                        &&& *s == old(self).stats@[at]
                        &&& final(self).stats@ == old(self).stats@.update(at, *final(s))
                        &&& final(self).edges@ == old(self).edges@
                    },
                    None => at == old(self).stats@.len() && *final(self) == *old(self),
                }
            }),
    {
        let at: usize = self.find_stats(edge_id);
        if at < self.stats.len() {
            Some(&mut self.stats[at])
        } else {
            None
        }
    }

    pub fn stats(&self, edge_id: &str) -> (r: Option<&EdgeStats>)
        ensures
            ({
                let at = stats_at(self@.stats, edge_id@);
                match r {
                    Some(s) => at < self.stats@.len() && *s == self.stats@[at],
                    None => at == self.stats@.len(),
                }
            }),
    {
        let at: usize = self.find_stats(edge_id);
        if at < self.stats.len() {
            Some(&self.stats[at])
        } else {
            None
        }
    }

    /// The health of every edge. `loss_powers` has for each of them what
    /// `EdgeStats::health_score` needs.
    pub fn health_report(
        &self,
        weights: &EdgeProbeWeights,
        loss_powers: &[Reading],
        source: MeasuredSource,
    ) -> (r: Vec<EdgeHealth>)
        requires
            loss_powers@.len() == self.stats@.len(),
        ensures
            views(r@) == Seq::new(
                self@.stats.len(),
                |i: int| self@.stats[i].health(*weights, loss_powers@[i], source),
            ),
    {
        let mut out: Vec<EdgeHealth> = Vec::new();
        let mut i: usize = 0;
        while i < self.stats.len()
            invariant
                i <= self.stats.len(),
                loss_powers@.len() == self.stats@.len(),
                views(out@).len() == i,
                forall|j: int|
                    0 <= j < i ==> views(out@)[j] == self@.stats[j].health(*weights, loss_powers@[j], source),
            decreases self.stats.len() - i,
        {
            let s = &self.stats[i];
            assert(self@.stats[i as int] == s@);
            let health = EdgeHealth {
                edge_id: s.edge_id.clone(),
                latency_ms: shown_or(s.latency_ms, Reading { bits: ABSENT }),
                jitter_ms: shown_or(s.jitter_ms, Reading { bits: ABSENT }),
                packet_loss_ratio: s.packet_loss_ratio,
                availability: s.availability,
                handshake_latency_ms: shown_or(s.handshake_latency_ms, Reading { bits: ABSENT }),
                reconnect_rate: s.reconnect_rate(),
                historical_stability: s.stability(),
                score: s.health_score(weights, loss_powers[i]),
                updated_at: match s.last_probed_at {
                    Some(at) => at,
                    None => 0,
                },
                source,
            };
            assert(health@ == s@.health(*weights, loss_powers@[i as int], source));
            out.push(health);
            i = i + 1;
        }
        assert(views(out@) =~= Seq::new(
            self@.stats.len(),
            |i: int| self@.stats[i].health(*weights, loss_powers@[i], source),
        ));
        out
    }

    /// The routes over every edge, by those of the desired transports that it
    /// supports. All of them may be probed; only the best carries traffic.
    pub fn route_candidates(
        &self,
        desired_transports: &[TransportKind],
        source: MeasuredSource,
    ) -> (r: Vec<RouteCandidate>)
        ensures
            views(r@) == self@.all_routes(desired_transports@, source),
    {
        let mut out: Vec<RouteCandidate> = Vec::new();
        let mut i: usize = 0;
        while i < self.stats.len()
            invariant
                i <= self.stats.len(),
                views(out@) == self@.routes(i as int, desired_transports@, source),
            decreases self.stats.len() - i,
        {
            let s = &self.stats[i];
            assert(self@.stats[i as int] == s@);
            let at: usize = self.find_edge(&s.edge_id);
            if at < self.edges.len() {
                let info = &self.edges[at];
                assert(self@.edges[at as int] == info@);
                self.push_routes(s, info, desired_transports, source, &mut out);
            }
            i = i + 1;
        }
        out
    }

    fn push_routes(
        &self,
        s: &EdgeStats,
        info: &EdgeInfo,
        desired_transports: &[TransportKind],
        source: MeasuredSource,
        out: &mut Vec<RouteCandidate>,
    )
        ensures
            views(final(out)@) == views(old(out)@) + routes_over(
                s@,
                info@,
                desired_transports@,
                source,
            ),
    {
        let mut k: usize = 0;
        let metrics = s.metrics();
        assert(desired_transports@.take(0) =~= seq![]);
        assert(views(out@) =~= views(old(out)@) + seq![]);
        while k < desired_transports.len()
            invariant
                k <= desired_transports.len(),
                metrics == s@.metrics(),
                views(out@) == views(old(out)@) + routes_over(
                    s@,
                    info@,
                    desired_transports@.take(k as int),
                    source,
                ),
            decreases desired_transports.len() - k,
        {
            let t = desired_transports[k];
            assert(desired_transports@.take(k + 1).drop_last() =~= desired_transports@.take(
                k as int,
            ));
            if supports(&info.supported_transports, t) {
                let mut id = s.edge_id.clone();
                id.append("-");
                id.append(t.as_str());
                let route = RouteCandidate {
                    id,
                    endpoint: info.address.clone(),
                    transport: t,
                    region: info.region.clone(),
                    latency_ms: metrics.latency_ms,
                    jitter_ms: metrics.jitter_ms,
                    packet_loss_ratio: metrics.packet_loss_ratio,
                    stability: metrics.stability,
                    handshake_latency_ms: metrics.handshake_latency_ms,
                    reconnect_rate: metrics.reconnect_rate,
                    score: None,
                    source,
                };
                assert(route@ == s@.route(info@, t, source));
                let ghost before = views(out@);
                out.push(route);
                assert(views(out@) =~= views(old(out)@) + routes_over(
                    s@,
                    info@,
                    desired_transports@.take(k + 1),
                    source,
                ));
            }
            k = k + 1;
        }
        assert(desired_transports@.take(k as int) =~= desired_transports@);
    }
}

/// Whether the transport is among the kinds.
pub fn supports(kinds: &[TransportKind], t: TransportKind) -> (r: bool)
    ensures
        r == kinds@.contains(t),
{
    let mut i: usize = 0;
    while i < kinds.len()
        invariant
            i <= kinds.len(),
            forall|j: int| 0 <= j < i ==> kinds@[j] != t,
        decreases kinds.len() - i,
    {
        if kinds[i] == t {
            return true;
        }
        i = i + 1;
    }
    false
}

/// After ingestion no edge is expired, and every edge is one that was just
/// taken in whole or one that was there before.
pub proof fn law_ingest_admits_only_valid(
    r: EdgeRegistryView,
    infos: Seq<EdgeInfoView>,
    now: TimestampMs,
)
    ensures
        forall|i: int|
            0 <= i < r.ingested(infos, now).edges.len() ==> {
                let e = #[trigger] r.ingested(infos, now).edges[i];
                e.expires_at > now && (admissible(e, now) || r.edges.contains(e))
            },
{
    lemma_with_edges_valid(r, infos, now);
    let all = r.with_edges(infos, now).edges;
    let kept = r.ingested(infos, now).edges;
    lemma_unexpired(all, now);
    assert forall|i: int| 0 <= i < kept.len() implies {
        let e = #[trigger] kept[i];
        e.expires_at > now && (admissible(e, now) || r.edges.contains(e))
    } by {
        let k = choose|k: int| 0 <= k < all.len() && all[k] == kept[i];
        if !admissible(all[k], now) {
            assert(r.edges[k] == kept[i]);
        }
    }
}

/// Ingestion loses no edge that is not expired: it stays, or is replaced by
/// what came under its id.
pub proof fn law_ingest_keeps_unexpired(
    r: EdgeRegistryView,
    infos: Seq<EdgeInfoView>,
    now: TimestampMs,
    i: int,
)
    requires
        0 <= i < r.edges.len(),
        r.edges[i].expires_at > now,
    ensures
        exists|k: int|
            0 <= k < r.ingested(infos, now).edges.len() && (#[trigger] r.ingested(
                infos,
                now,
            ).edges[k]).id == r.edges[i].id,
{
    lemma_with_edges_keeps(r, infos, now, i);
    let all = r.with_edges(infos, now).edges;
    lemma_unexpired(all, now);
    let k = choose|k: int|
        0 <= k < unexpired(all, now).len() && unexpired(all, now)[k] == all[i];
    assert(r.ingested(infos, now).edges[k].id == r.edges[i].id);
}

proof fn lemma_with_edges_keeps(
    r: EdgeRegistryView,
    infos: Seq<EdgeInfoView>,
    now: TimestampMs,
    i: int,
)
    requires
        0 <= i < r.edges.len(),
        r.edges[i].expires_at > now,
    ensures
        i < r.with_edges(infos, now).edges.len(),
        r.with_edges(infos, now).edges[i].id == r.edges[i].id,
        r.with_edges(infos, now).edges[i].expires_at > now,
    decreases infos.len(),
{
    if infos.len() > 0 {
        lemma_with_edges_keeps(r, infos.drop_last(), now, i);
        let before = r.with_edges(infos.drop_last(), now);
        lemma_first_index(before.edges, |e: EdgeInfoView| e.id == infos.last().id);
    }
}

/// What is not expired is kept, and nothing else.
proof fn lemma_unexpired(edges: Seq<EdgeInfoView>, now: TimestampMs)
    ensures
        forall|i: int|
            0 <= i < unexpired(edges, now).len() ==> (#[trigger] unexpired(
                edges,
                now,
            )[i]).expires_at > now && exists|k: int|
                0 <= k < edges.len() && edges[k] == unexpired(edges, now)[i],
        forall|k: int|
            0 <= k < edges.len() && (#[trigger] edges[k]).expires_at > now ==> exists|i: int|
                0 <= i < unexpired(edges, now).len() && unexpired(edges, now)[i] == edges[k],
    decreases edges.len(),
{
    if edges.len() > 0 {
        let front = edges.drop_last();
        lemma_unexpired(front, now);
        let kept = unexpired(edges, now);
        assert forall|i: int| 0 <= i < kept.len() implies (#[trigger] kept[i]).expires_at > now
            && exists|k: int| 0 <= k < edges.len() && edges[k] == kept[i] by {
            if i < unexpired(front, now).len() {
                assert(kept[i] == unexpired(front, now)[i]);
                let k = choose|k: int| 0 <= k < front.len() && front[k] == kept[i];
                assert(edges[k] == kept[i]);
            } else {
                assert(edges[edges.len() - 1] == kept[i]);
            }
        }
        assert forall|k: int|
            0 <= k < edges.len() && (#[trigger] edges[k]).expires_at > now implies exists|i: int|
            0 <= i < kept.len() && kept[i] == edges[k] by {
            if k < front.len() {
                assert(front[k] == edges[k]);
                let i = choose|i: int|
                    0 <= i < unexpired(front, now).len() && unexpired(front, now)[i] == front[k];
                assert(kept[i] == edges[k]);
            } else {
                assert(kept[kept.len() - 1] == edges[k]);
            }
        }
    }
}

proof fn lemma_unexpired_distinct(edges: Seq<EdgeInfoView>, now: TimestampMs)
    requires
        forall|i: int, j: int|
            0 <= i < j < edges.len() ==> (#[trigger] edges[i]).id != (#[trigger] edges[j]).id,
    ensures
        forall|i: int, j: int|
            0 <= i < j < unexpired(edges, now).len() ==> (#[trigger] unexpired(edges, now)[i]).id
                != (#[trigger] unexpired(edges, now)[j]).id,
    decreases edges.len(),
{
    if edges.len() > 0 {
        let front = edges.drop_last();
        assert forall|i: int, j: int| 0 <= i < j < front.len() implies (#[trigger] front[i]).id != (
        #[trigger] front[j]).id by {
            assert(edges[i].id != edges[j].id);
        }
        lemma_unexpired_distinct(front, now);
        lemma_unexpired(front, now);
        let kept = unexpired(edges, now);
        let rest = unexpired(front, now);
        assert forall|i: int, j: int| 0 <= i < j < kept.len() implies (#[trigger] kept[i]).id != (
        #[trigger] kept[j]).id by {
            assert(kept[i] == rest[i]);
            if j < rest.len() {
                assert(kept[j] == rest[j]);
            } else {
                let k = choose|k: int| 0 <= k < front.len() && front[k] == rest[i];
                assert(edges[k].id != edges[edges.len() - 1].id);
            }
        }
    }
}

proof fn lemma_with_edges_valid(
    r: EdgeRegistryView,
    infos: Seq<EdgeInfoView>,
    now: TimestampMs,
)
    ensures
        r.with_edges(infos, now).edges.len() >= r.edges.len(),
        forall|i: int|
            0 <= i < r.with_edges(infos, now).edges.len() ==> {
                let e = #[trigger] r.with_edges(infos, now).edges[i];
                admissible(e, now) || (i < r.edges.len() && e == r.edges[i])
            },
    decreases infos.len(),
{
    if infos.len() > 0 {
        lemma_with_edges_valid(r, infos.drop_last(), now);
        let before = r.with_edges(infos.drop_last(), now);
        let after = r.with_edges(infos, now);
        if admissible(infos.last(), now) {
            lemma_first_index(before.edges, |e: EdgeInfoView| e.id == infos.last().id);
            assert forall|i: int| 0 <= i < after.edges.len() implies {
                let e = #[trigger] after.edges[i];
                admissible(e, now) || (i < r.edges.len() && e == r.edges[i])
            } by {
                if i < before.edges.len() {
                    let e = before.edges[i];
                }
            }
        }
    }
}

/// Ingestion keeps the ids of edges distinct.
pub proof fn law_ingest_keeps_ids_distinct(
    r: EdgeRegistryView,
    infos: Seq<EdgeInfoView>,
    now: TimestampMs,
)
    requires
        r.distinct_edges(),
    ensures
        r.ingested(infos, now).distinct_edges(),
{
    lemma_with_edges_distinct(r, infos, now);
    lemma_unexpired_distinct(r.with_edges(infos, now).edges, now);
}

proof fn lemma_with_edges_distinct(
    r: EdgeRegistryView,
    infos: Seq<EdgeInfoView>,
    now: TimestampMs,
)
    requires
        r.distinct_edges(),
    ensures
        r.with_edges(infos, now).distinct_edges(),
    decreases infos.len(),
{
    if infos.len() > 0 {
        lemma_with_edges_distinct(r, infos.drop_last(), now);
        let before = r.with_edges(infos.drop_last(), now);
        let info = infos.last();
        if admissible(info, now) {
            lemma_first_index(before.edges, |e: EdgeInfoView| e.id == info.id);
            let at = edge_at(before.edges, info.id);
            let after = before.with_edge(info);
            assert forall|i: int, j: int| 0 <= i < j < after.edges.len() implies (
            #[trigger] after.edges[i]).id != (#[trigger] after.edges[j]).id by {
                if at < before.edges.len() {
                    assert(before.edges[i].id != before.edges[j].id);
                    assert(before.edges[at].id == info.id);
                } else if j < before.edges.len() {
                    assert(before.edges[i].id != before.edges[j].id);
                } else {
                    assert(before.edges[i].id != info.id);
                }
            }
        }
    }
}

/// The score of an edge lies between zero and a hundred, and its stability
/// between zero and one, where they are numbers.
pub proof fn law_edge_score_is_bounded(s: EdgeStatsView, w: EdgeProbeWeights, loss_power: Reading)
    ensures
        s.score(w, loss_power).is_nan() || 0 <= s.score(w, loss_power).position() <= HUNDRED,
        s.stability().is_nan() || 0 <= s.stability().position() <= ONE,
{
}

/// Whether the weights are numbers, not infinite and not negative.
pub open spec fn are_edge_weights(w: EdgeProbeWeights) -> bool {
    &&& is_quantity(w.latency_weight) && w.latency_weight.is_finite()
    &&& is_quantity(w.jitter_weight) && w.jitter_weight.is_finite()
    &&& is_quantity(w.loss_weight) && w.loss_weight.is_finite()
    &&& is_quantity(w.availability_weight) && w.availability_weight.is_finite()
    &&& is_quantity(w.handshake_weight) && w.handshake_weight.is_finite()
    &&& is_quantity(w.stability_weight) && w.stability_weight.is_finite()
}

/// Usable weights are usable shares of their sum.
pub proof fn law_edge_shares_are_weights(w: EdgeProbeWeights)
    requires
        are_edge_weights(w),
    ensures
        are_edge_weights(normalized_edge(w)),
{
    let total = edge_weight_sum(w);
    let two = sum(w.latency_weight, w.jitter_weight);
    let three = sum(two, w.loss_weight);
    let four = sum(three, w.availability_weight);
    let five = sum(four, w.handshake_weight);
    law_sums_grow(w.latency_weight, w.jitter_weight);
    law_sums_grow(two, w.loss_weight);
    law_sums_grow(three, w.availability_weight);
    law_sums_grow(four, w.handshake_weight);
    law_sums_grow(five, w.stability_weight);
    if !negligible(total) {
        law_shares_are_at_most_one(w.latency_weight, total);
        law_shares_are_at_most_one(w.jitter_weight, total);
        law_shares_are_at_most_one(w.loss_weight, total);
        law_shares_are_at_most_one(w.availability_weight, total);
        law_shares_are_at_most_one(w.handshake_weight, total);
        law_shares_are_at_most_one(w.stability_weight, total);
    }
}

/// An edge whose statistics are numbers, with an availability between zero and
/// one, has a score between zero and a hundred and a stability between zero
/// and one, as long as the weights are usable and the base of the loss, raised,
/// is one or more.
pub proof fn law_measured_edge_has_a_score(
    s: EdgeStatsView,
    w: EdgeProbeWeights,
    loss_power: Reading,
)
    requires
        are_edge_weights(w),
        !s.latency_ms.is_nan(),
        !s.jitter_ms.is_nan(),
        !s.packet_loss_ratio.is_nan(),
        !s.handshake_latency_ms.is_nan(),
        is_quantity(s.availability),
        s.availability.position() <= ONE,
        powers_in_order(loss_power, loss_power),
    ensures
        is_quantity(s.stability()) && s.stability().position() <= ONE,
        !s.score(w, loss_power).is_nan(),
        0 <= s.score(w, loss_power).position() <= HUNDRED,
{
    law_edge_shares_are_weights(w);
    let n = normalized_edge(w);
    let one = Reading { bits: ONE };
    let zero = Reading { bits: ZERO };
    let lesser_latency = lesser(s.latency_ms, Reading { bits: WORST_LATENCY_MS });
    let lesser_jitter = lesser(s.jitter_ms, Reading { bits: WORST_JITTER_MS });
    let latency = score_of_latency(lesser_latency);
    let jitter = score_of_jitter(lesser_jitter);
    let loss = edge_score_of_loss(s.packet_loss_ratio, loss_power);
    let handshake = if s.handshake_latency_ms.equals(Reading { bits: UNMEASURED }) {
        zero
    } else {
        score_of_handshake(s.handshake_latency_ms)
    };
    law_latency_scores_fall(lesser_latency, lesser_latency);
    law_jitter_scores_fall(lesser_jitter, lesser_jitter);
    law_handshake_scores_fall(s.handshake_latency_ms, s.handshake_latency_ms);
    law_shares_are_at_most_one(one, loss_power);
    law_bounds_keep_order(s.packet_loss_ratio, s.packet_loss_ratio, zero, one);
    let kept = difference(one, share_of(s.packet_loss_ratio));
    law_rest_is_a_share(share_of(s.packet_loss_ratio));
    law_shares_multiply(kept, s.availability);
    law_bounds_keep_order(product(kept, s.availability), product(kept, s.availability), zero, one);
    law_products_keep_order(n.latency_weight, latency, n.latency_weight, latency);
    let raw = product(n.latency_weight, latency);
    law_weighed_sums_keep_order(raw, raw, n.jitter_weight, jitter, jitter);
    let raw = sum(raw, product(n.jitter_weight, jitter));
    law_weighed_sums_keep_order(raw, raw, n.loss_weight, loss, loss);
    let raw = sum(raw, product(n.loss_weight, loss));
    law_weighed_sums_keep_order(raw, raw, n.stability_weight, s.stability(), s.stability());
    let raw = sum(raw, product(n.stability_weight, s.stability()));
    law_weighed_sums_keep_order(raw, raw, n.handshake_weight, handshake, handshake);
    let raw = sum(raw, product(n.handshake_weight, handshake));
    let availability = share_of(s.availability);
    law_weighed_sums_keep_order(raw, raw, n.availability_weight, availability, availability);
    let raw = sum(raw, product(n.availability_weight, availability));
    law_out_of_hundred_keeps_order(raw, raw);
    law_edge_score_is_bounded(s, w, loss_power);
}

/// Every route is by a transport that was asked for and that its edge
/// supports, and has no score yet.
pub proof fn law_routes_are_supported(
    r: EdgeRegistryView,
    n: int,
    desired: Seq<TransportKind>,
    source: MeasuredSource,
    i: int,
)
    requires
        0 <= n <= r.stats.len(),
        0 <= i < r.routes(n, desired, source).len(),
    ensures
        ({
            let c = r.routes(n, desired, source)[i];
            &&& desired.contains(c.transport)
            &&& c.source == source
            &&& c.score is None
            &&& exists|k: int, e: int|
                0 <= k < n && 0 <= e < r.edges.len() && (#[trigger] r.edges[e]).id
                    == (#[trigger] r.stats[k]).edge_id
                    && r.edges[e].supported_transports.contains(c.transport) && c
                    == r.stats[k].route(r.edges[e], c.transport, source)
        }),
    decreases n,
{
    let stats = r.stats[n - 1];
    let at = edge_at(r.edges, stats.edge_id);
    let front = r.routes(n - 1, desired, source);
    if i < front.len() {
        law_routes_are_supported(r, n - 1, desired, source, i);
    } else {
        lemma_first_index(r.edges, |e: EdgeInfoView| e.id == stats.edge_id);
        lemma_routes_over(stats, r.edges[at], desired, source, i - front.len());
        assert(r.edges[at].id == r.stats[n - 1].edge_id);
    }
}

proof fn lemma_routes_over(
    stats: EdgeStatsView,
    info: EdgeInfoView,
    desired: Seq<TransportKind>,
    source: MeasuredSource,
    i: int,
)
    requires
        0 <= i < routes_over(stats, info, desired, source).len(),
    ensures
        ({
            let c = routes_over(stats, info, desired, source)[i];
            &&& desired.contains(c.transport)
            &&& info.supported_transports.contains(c.transport)
            &&& c == stats.route(info, c.transport, source)
        }),
    decreases desired.len(),
{
    let front = routes_over(stats, info, desired.drop_last(), source);
    if i < front.len() {
        lemma_routes_over(stats, info, desired.drop_last(), source, i);
        let c = front[i];
        let k = choose|k: int|
            0 <= k < desired.drop_last().len() && desired.drop_last()[k] == c.transport;
        assert(desired[k] == c.transport);
    } else {
        assert(desired[desired.len() - 1] == desired.last());
    }
}

/// The first routes stay the first when there are more.
proof fn lemma_routes_grow(
    r: EdgeRegistryView,
    m: int,
    n: int,
    desired: Seq<TransportKind>,
    source: MeasuredSource,
    i: int,
)
    requires
        0 <= m <= n,
        0 <= i < r.routes(m, desired, source).len(),
    ensures
        i < r.routes(n, desired, source).len(),
        r.routes(n, desired, source)[i] == r.routes(m, desired, source)[i],
    decreases n,
{
    if m < n {
        lemma_routes_grow(r, m, n - 1, desired, source, i);
    }
}

proof fn lemma_routes_over_all(
    stats: EdgeStatsView,
    info: EdgeInfoView,
    desired: Seq<TransportKind>,
    source: MeasuredSource,
    t: TransportKind,
) -> (i: int)
    requires
        desired.contains(t),
        info.supported_transports.contains(t),
    ensures
        0 <= i < routes_over(stats, info, desired, source).len(),
        routes_over(stats, info, desired, source)[i] == stats.route(info, t, source),
    decreases desired.len(),
{
    let front = desired.drop_last();
    if desired.last() == t {
        routes_over(stats, info, front, source).len() as int
    } else {
        let k = choose|k: int| 0 <= k < desired.len() && desired[k] == t;
        assert(front[k] == t);
        lemma_routes_over_all(stats, info, front, source, t)
    }
}

/// Every desired transport that a known edge supports is offered as a route
/// over that edge, with what was measured of the edge.
pub proof fn law_supported_transports_become_routes(
    r: EdgeRegistryView,
    desired: Seq<TransportKind>,
    source: MeasuredSource,
    k: int,
    e: int,
    t: TransportKind,
)
    requires
        0 <= k < r.stats.len(),
        0 <= e < r.edges.len(),
        r.edges[e].id == r.stats[k].edge_id,
        forall|j: int| 0 <= j < e ==> (#[trigger] r.edges[j]).id != r.edges[e].id,
        desired.contains(t),
        r.edges[e].supported_transports.contains(t),
    ensures
        exists|i: int|
            0 <= i < r.all_routes(desired, source).len() && {
                let c = #[trigger] r.all_routes(desired, source)[i];
                let s = r.stats[k];
                &&& c.id == r.edges[e].id + "-"@ + t.name()
                &&& c.endpoint == r.edges[e].address
                &&& c.transport == t
                &&& c.region == r.edges[e].region
                &&& c.packet_loss_ratio == s.packet_loss_ratio
                &&& c.stability == s.stability()
                &&& c.reconnect_rate == s.reconnect_rate()
                &&& c.score is None
                &&& c.source == source
                &&& s.latency_ms.bits != UNMEASURED ==> c.latency_ms == s.latency_ms
                &&& s.latency_ms.bits == UNMEASURED ==> c.latency_ms.bits == ZERO
                &&& s.jitter_ms.bits != UNMEASURED ==> c.jitter_ms == s.jitter_ms
                &&& s.jitter_ms.bits == UNMEASURED ==> c.jitter_ms.bits == ZERO
                &&& s.handshake_latency_ms.bits != UNMEASURED ==> c.handshake_latency_ms
                    == s.handshake_latency_ms
                &&& s.handshake_latency_ms.bits == UNMEASURED ==> c.handshake_latency_ms.bits
                    == ZERO
            },
{
    let s = r.stats[k];
    let info = r.edges[e];
    lemma_first_index_is(r.edges, |x: EdgeInfoView| x.id == s.edge_id, e);
    let front = r.routes(k, desired, source);
    let j = lemma_routes_over_all(s, info, desired, source, t);
    let i = front.len() + j;
    assert(r.routes(k + 1, desired, source) == front + routes_over(s, info, desired, source));
    assert(r.routes(k + 1, desired, source)[i] == s.route(info, t, source));
    lemma_routes_grow(r, k + 1, r.stats.len() as int, desired, source, i);
    assert(r.all_routes(desired, source)[i] == s.route(info, t, source));
}

/// What differs still differs with the same ends.
proof fn lemma_ends_alike(x: Seq<char>, y: Seq<char>, dash: Seq<char>, name: Seq<char>)
    requires
        x != y,
    ensures
        x + dash + name != y + dash + name,
{
    if x + dash + name == y + dash + name {
        assert((x + dash + name).len() == x.len() + dash.len() + name.len());
        assert((y + dash + name).len() == y.len() + dash.len() + name.len());
        assert(x =~= (x + dash + name).take(x.len() as int));
        assert(y =~= (y + dash + name).take(y.len() as int));
    }
}

/// No route is offered twice: two of them differ in their transport or in
/// their id, as long as no transport is asked for twice and every edge has its
/// statistics once.
pub proof fn law_routes_are_distinct(
    r: EdgeRegistryView,
    n: int,
    desired: Seq<TransportKind>,
    source: MeasuredSource,
    i: int,
    j: int,
)
    requires
        0 <= n <= r.stats.len(),
        desired.no_duplicates(),
        forall|a: int, b: int|
            0 <= a < b < r.stats.len() ==> (#[trigger] r.stats[a]).edge_id != (
            #[trigger] r.stats[b]).edge_id,
        0 <= i < j < r.routes(n, desired, source).len(),
    ensures
        ({
            let routes = r.routes(n, desired, source);
            routes[i].transport != routes[j].transport || routes[i].id != routes[j].id
        }),
    decreases n,
{
    let stats = r.stats[n - 1];
    let at = edge_at(r.edges, stats.edge_id);
    let front = r.routes(n - 1, desired, source);
    let routes = r.routes(n, desired, source);
    if j < front.len() {
        law_routes_are_distinct(r, n - 1, desired, source, i, j);
    } else {
        let over = routes_over(stats, r.edges[at], desired, source);
        assert(routes == front + over);
        lemma_routes_over(stats, r.edges[at], desired, source, j - front.len());
        if i < front.len() {
            law_routes_are_supported(r, n - 1, desired, source, i);
            let c = front[i];
            let (k, e) = choose|k: int, e: int|
                0 <= k < n - 1 && 0 <= e < r.edges.len() && (#[trigger] r.edges[e]).id
                    == (#[trigger] r.stats[k]).edge_id
                    && r.edges[e].supported_transports.contains(c.transport) && c
                    == r.stats[k].route(r.edges[e], c.transport, source);
            assert(r.stats[k].edge_id != r.stats[n - 1].edge_id);
            lemma_ends_alike(r.stats[k].edge_id, stats.edge_id, "-"@, c.transport.name());
        } else {
            lemma_routes_over_distinct(
                stats,
                r.edges[at],
                desired,
                source,
                i - front.len(),
                j - front.len(),
            );
        }
    }
}

proof fn lemma_routes_over_distinct(
    stats: EdgeStatsView,
    info: EdgeInfoView,
    desired: Seq<TransportKind>,
    source: MeasuredSource,
    i: int,
    j: int,
)
    requires
        desired.no_duplicates(),
        0 <= i < j < routes_over(stats, info, desired, source).len(),
    ensures
        routes_over(stats, info, desired, source)[i].transport != routes_over(
            stats,
            info,
            desired,
            source,
        )[j].transport,
    decreases desired.len(),
{
    let rest = desired.drop_last();
    let front = routes_over(stats, info, rest, source);
    if j < front.len() {
        lemma_routes_over_distinct(stats, info, rest, source, i, j);
    } else {
        lemma_routes_over(stats, info, rest, source, i);
        let k = choose|k: int| 0 <= k < rest.len() && rest[k] == front[i].transport;
        assert(desired[k] == front[i].transport);
    }
}

/// A list of edges is taken in whole but for what is expired or lacks an id or
/// an address: each of the others is known afterwards, as it was announced
/// last.
pub proof fn law_announced_edges_are_known(
    r: EdgeRegistryView,
    infos: Seq<EdgeInfoView>,
    now: TimestampMs,
    i: int,
)
    requires
        0 <= i < infos.len(),
        infos[i].expires_at > now,
        infos[i].address.len() > 0,
        infos[i].id.len() > 0,
        forall|j: int| i < j < infos.len() ==> (#[trigger] infos[j]).id != infos[i].id,
    ensures
        r.ingested(infos, now).edges.contains(infos[i]),
{
    let all = r.with_edges(infos, now).edges;
    lemma_announced(r, infos, now, i);
    lemma_unexpired(all, now);
    let k = choose|k: int| 0 <= k < all.len() && all[k] == infos[i];
    assert(all[k].expires_at > now);
}

proof fn lemma_announced(
    r: EdgeRegistryView,
    infos: Seq<EdgeInfoView>,
    now: TimestampMs,
    i: int,
)
    requires
        0 <= i < infos.len(),
        infos[i].expires_at > now,
        infos[i].address.len() > 0,
        infos[i].id.len() > 0,
        forall|j: int| i < j < infos.len() ==> (#[trigger] infos[j]).id != infos[i].id,
    ensures
        r.with_edges(infos, now).edges.contains(infos[i]),
    decreases infos.len(),
{
    let front = infos.drop_last();
    let before = r.with_edges(front, now);
    let after = r.with_edges(infos, now);
    let last = infos.last();
    lemma_first_index(before.edges, |e: EdgeInfoView| e.id == last.id);
    let at = edge_at(before.edges, last.id);
    if i == infos.len() - 1 {
        if at < before.edges.len() {
            assert(after.edges[at] == last);
        } else {
            assert(after.edges[before.edges.len() as int] == last);
        }
    } else {
        assert(front[i] == infos[i]);
        assert forall|j: int| i < j < front.len() implies (#[trigger] front[j]).id
            != front[i].id by {
            assert(infos[j].id != infos[i].id);
        }
        lemma_announced(r, front, now, i);
        let k = choose|k: int| 0 <= k < before.edges.len() && before.edges[k] == infos[i];
        assert(infos[infos.len() - 1].id != infos[i].id);
        assert(after.edges[k] == infos[i]);
    }
}

/// Nothing else becomes known: an edge that was not known before was announced
/// just so, with an id and an address, and is not expired.
pub proof fn law_known_edges_were_announced(
    r: EdgeRegistryView,
    infos: Seq<EdgeInfoView>,
    now: TimestampMs,
    edge: EdgeInfoView,
)
    requires
        r.ingested(infos, now).edges.contains(edge),
    ensures
        edge.expires_at > now,
        r.edges.contains(edge) || (infos.contains(edge) && edge.address.len() > 0 && edge.id.len()
            > 0),
{
    let all = r.with_edges(infos, now).edges;
    lemma_unexpired(all, now);
    let kept = r.ingested(infos, now).edges;
    let i = choose|i: int| 0 <= i < kept.len() && kept[i] == edge;
    assert(kept[i].expires_at > now);
    let k = choose|k: int| 0 <= k < all.len() && all[k] == kept[i];
    lemma_known(r, infos, now, k);
}

proof fn lemma_known(r: EdgeRegistryView, infos: Seq<EdgeInfoView>, now: TimestampMs, k: int)
    requires
        0 <= k < r.with_edges(infos, now).edges.len(),
    ensures
        ({
            let edge = r.with_edges(infos, now).edges[k];
            r.edges.contains(edge) || (infos.contains(edge) && edge.address.len() > 0
                && edge.id.len() > 0)
        }),
    decreases infos.len(),
{
    let after = r.with_edges(infos, now).edges;
    if infos.len() == 0 {
        assert(r.edges[k] == after[k]);
    } else {
        let front = infos.drop_last();
        let before = r.with_edges(front, now).edges;
        lemma_first_index(before, |e: EdgeInfoView| e.id == infos.last().id);
        if k < before.len() && after[k] == before[k] {
            lemma_known(r, front, now, k);
            if front.contains(before[k]) {
                let j = choose|j: int| 0 <= j < front.len() && front[j] == before[k];
                assert(infos[j] == before[k]);
            }
        } else {
            assert(infos[infos.len() - 1] == after[k]);
        }
    }
}

/// The ids that are reported as accepted are those of the edges that may be
/// used, in the order in which they came.
pub proof fn law_accepted_ids_are_the_usable_ones(infos: Seq<EdgeInfoView>, now: TimestampMs)
    ensures
        admissible_ids(infos, now) == infos.filter(
            |e: EdgeInfoView| e.expires_at > now && e.address.len() > 0 && e.id.len() > 0,
        ).map_values(|e: EdgeInfoView| e.id),
    decreases infos.len(),
{
    reveal(Seq::filter);
    let usable = |e: EdgeInfoView| e.expires_at > now && e.address.len() > 0 && e.id.len() > 0;
    let id = |e: EdgeInfoView| e.id;
    if infos.len() > 0 {
        law_accepted_ids_are_the_usable_ones(infos.drop_last(), now);
        let front = infos.drop_last().filter(usable);
        assert(front.push(infos.last()).map_values(id) =~= front.map_values(id).push(
            infos.last().id,
        ));
    } else {
        assert(infos.filter(usable).map_values(id) =~= seq![]);
    }
}

/// Whether there are statistics of the id.
pub open spec fn has_statistics(stats: Seq<EdgeStatsView>, id: Seq<char>) -> bool {
    exists|k: int| 0 <= k < stats.len() && (#[trigger] stats[k]).edge_id == id
}

/// Whether there is an edge of the id.
pub open spec fn has_edge(edges: Seq<EdgeInfoView>, id: Seq<char>) -> bool {
    exists|e: int| 0 <= e < edges.len() && (#[trigger] edges[e]).id == id
}

/// Whether every edge has statistics, nothing else has, and no id has them
/// twice.
pub open spec fn is_paired(r: EdgeRegistryView) -> bool {
    &&& forall|e: int| 0 <= e < r.edges.len() ==> has_statistics(r.stats, (#[trigger] r.edges[e]).id)
    &&& forall|k: int| 0 <= k < r.stats.len() ==> has_edge(r.edges, (#[trigger] r.stats[k]).edge_id)
    &&& forall|a: int, b: int|
        0 <= a < b < r.stats.len() ==> (#[trigger] r.stats[a]).edge_id != (
        #[trigger] r.stats[b]).edge_id
}

/// Every edge that is known has its statistics, once, and nothing else has:
/// an empty registry is so, and taking in a list keeps it so.
pub proof fn law_every_edge_has_statistics(
    r: EdgeRegistryView,
    infos: Seq<EdgeInfoView>,
    now: TimestampMs,
)
    requires
        is_paired(r) || (r.edges.len() == 0 && r.stats.len() == 0),
    ensures
        is_paired(r.ingested(infos, now)),
{
    lemma_with_edges_paired(r, infos, now);
    let all = r.with_edges(infos, now);
    let after = r.ingested(infos, now);
    lemma_unexpired(all.edges, now);
    lemma_live(all.stats, after.edges);
    assert forall|e: int| 0 <= e < after.edges.len() implies has_statistics(
        after.stats,
        (#[trigger] after.edges[e]).id,
    ) by {
        let f = choose|f: int| 0 <= f < all.edges.len() && all.edges[f] == after.edges[e];
        assert(has_statistics(all.stats, all.edges[f].id));
        let k = choose|k: int|
            0 <= k < all.stats.len() && (#[trigger] all.stats[k]).edge_id == all.edges[f].id;
        assert(after.edges[e].id == all.stats[k].edge_id);
        let i = choose|i: int| 0 <= i < after.stats.len() && after.stats[i] == all.stats[k];
        assert(after.stats[i].edge_id == after.edges[e].id);
    }
    assert forall|k: int| 0 <= k < after.stats.len() implies has_edge(
        after.edges,
        (#[trigger] after.stats[k]).edge_id,
    ) by {
        let e = choose|e: int|
            0 <= e < after.edges.len() && live(all.stats, after.edges)[k].edge_id == (
            #[trigger] after.edges[e]).id;
        assert(after.edges[e].id == after.stats[k].edge_id);
    }
    lemma_live_distinct(all.stats, after.edges);
}

proof fn lemma_with_edges_paired(
    r: EdgeRegistryView,
    infos: Seq<EdgeInfoView>,
    now: TimestampMs,
)
    requires
        is_paired(r) || (r.edges.len() == 0 && r.stats.len() == 0),
    ensures
        is_paired(r.with_edges(infos, now)),
    decreases infos.len(),
{
    if infos.len() > 0 {
        lemma_with_edges_paired(r, infos.drop_last(), now);
        if admissible(infos.last(), now) {
            lemma_with_edge_paired(r.with_edges(infos.drop_last(), now), infos.last());
        }
    }
}

proof fn lemma_with_edge_paired(before: EdgeRegistryView, info: EdgeInfoView)
    requires
        is_paired(before),
    ensures
        is_paired(before.with_edge(info)),
{
    let after = before.with_edge(info);
    lemma_first_index(before.edges, |e: EdgeInfoView| e.id == info.id);
    let at = edge_at(before.edges, info.id);
    assert forall|e: int| 0 <= e < after.edges.len() implies has_statistics(
        after.stats,
        (#[trigger] after.edges[e]).id,
    ) by {
        if e < before.edges.len() {
            assert(has_statistics(before.stats, before.edges[e].id));
            let k = choose|k: int|
                0 <= k < before.stats.len() && (#[trigger] before.stats[k]).edge_id
                    == before.edges[e].id;
            assert(after.stats[k].edge_id == after.edges[e].id);
        } else {
            assert(after.stats[before.stats.len() as int].edge_id == after.edges[e].id);
        }
    }
    assert forall|k: int| 0 <= k < after.stats.len() implies has_edge(
        after.edges,
        (#[trigger] after.stats[k]).edge_id,
    ) by {
        if k < before.stats.len() {
            assert(has_edge(before.edges, before.stats[k].edge_id));
            let e = choose|e: int|
                0 <= e < before.edges.len() && (#[trigger] before.edges[e]).id
                    == before.stats[k].edge_id;
            assert(after.edges[e].id == after.stats[k].edge_id);
        } else {
            assert(after.edges[before.edges.len() as int].id == after.stats[k].edge_id);
        }
    }
    assert forall|a: int, b: int| 0 <= a < b < after.stats.len() implies (
    #[trigger] after.stats[a]).edge_id != (#[trigger] after.stats[b]).edge_id by {
        assert(after.stats[a] == before.stats[a]);
        if b < before.stats.len() {
            assert(after.stats[b] == before.stats[b]);
        } else {
            assert(has_edge(before.edges, before.stats[a].edge_id));
            let e = choose|e: int|
                0 <= e < before.edges.len() && (#[trigger] before.edges[e]).id
                    == before.stats[a].edge_id;
            assert(before.edges[e].id != info.id);
        }
    }
}

/// The statistics of known edges are kept, and no others.
proof fn lemma_live(stats: Seq<EdgeStatsView>, edges: Seq<EdgeInfoView>)
    ensures
        forall|i: int|
            0 <= i < live(stats, edges).len() ==> stats.contains(#[trigger] live(stats, edges)[i])
                && exists|e: int|
                0 <= e < edges.len() && live(stats, edges)[i].edge_id == (#[trigger] edges[e]).id,
        forall|k: int, e: int|
            0 <= k < stats.len() && 0 <= e < edges.len() && (#[trigger] edges[e]).id == (
            #[trigger] stats[k]).edge_id ==> live(stats, edges).contains(stats[k]),
    decreases stats.len(),
{
    if stats.len() > 0 {
        let front = stats.drop_last();
        let last = stats.last();
        lemma_live(front, edges);
        lemma_first_index(edges, |e: EdgeInfoView| e.id == last.edge_id);
        let rest = live(front, edges);
        let kept = live(stats, edges);
        assert forall|i: int| 0 <= i < kept.len() implies stats.contains(#[trigger] kept[i])
            && exists|e: int|
            0 <= e < edges.len() && kept[i].edge_id == (#[trigger] edges[e]).id by {
            if i < rest.len() {
                assert(kept[i] == rest[i]);
                let k = choose|k: int| 0 <= k < front.len() && front[k] == rest[i];
                assert(stats[k] == kept[i]);
            } else {
                assert(stats[stats.len() - 1] == kept[i]);
                assert(edges[edge_at(edges, last.edge_id)].id == kept[i].edge_id);
            }
        }
        assert forall|k: int, e: int|
            0 <= k < stats.len() && 0 <= e < edges.len() && (#[trigger] edges[e]).id == (
            #[trigger] stats[k]).edge_id implies kept.contains(stats[k]) by {
            if k < front.len() {
                assert(front[k] == stats[k]);
                assert(edges[e].id == front[k].edge_id);
                let i = choose|i: int| 0 <= i < rest.len() && rest[i] == front[k];
                assert(kept[i] == stats[k]);
            } else {
                assert(kept[kept.len() - 1] == stats[k]);
            }
        }
    }
}

proof fn lemma_live_distinct(stats: Seq<EdgeStatsView>, edges: Seq<EdgeInfoView>)
    requires
        forall|a: int, b: int|
            0 <= a < b < stats.len() ==> (#[trigger] stats[a]).edge_id != (
            #[trigger] stats[b]).edge_id,
    ensures
        forall|a: int, b: int|
            0 <= a < b < live(stats, edges).len() ==> (#[trigger] live(stats, edges)[a]).edge_id
                != (#[trigger] live(stats, edges)[b]).edge_id,
    decreases stats.len(),
{
    if stats.len() > 0 {
        let front = stats.drop_last();
        assert forall|a: int, b: int| 0 <= a < b < front.len() implies (
        #[trigger] front[a]).edge_id != (#[trigger] front[b]).edge_id by {
            assert(stats[a].edge_id != stats[b].edge_id);
        }
        lemma_live_distinct(front, edges);
        lemma_live(front, edges);
        let rest = live(front, edges);
        let kept = live(stats, edges);
        assert forall|a: int, b: int| 0 <= a < b < kept.len() implies (
        #[trigger] kept[a]).edge_id != (#[trigger] kept[b]).edge_id by {
            assert(kept[a] == rest[a]);
            if b < rest.len() {
                assert(kept[b] == rest[b]);
            } else {
                let k = choose|k: int| 0 <= k < front.len() && front[k] == rest[a];
                assert(stats[k].edge_id != stats[stats.len() - 1].edge_id);
            }
        }
    }
}

/// Taking in a list leaves what was measured of an edge that stays as it is.
pub proof fn law_measurements_survive_ingestion(
    r: EdgeRegistryView,
    infos: Seq<EdgeInfoView>,
    now: TimestampMs,
    e: int,
    k: int,
)
    requires
        0 <= e < r.edges.len(),
        0 <= k < r.stats.len(),
        r.stats[k].edge_id == r.edges[e].id,
        r.edges[e].expires_at > now,
    ensures
        r.ingested(infos, now).stats.contains(r.stats[k]),
{
    lemma_with_edges_keeps(r, infos, now, e);
    lemma_with_edges_keep_stats(r, infos, now, k);
    let all = r.with_edges(infos, now);
    lemma_unexpired(all.edges, now);
    let edges = unexpired(all.edges, now);
    let i = choose|i: int| 0 <= i < edges.len() && edges[i] == all.edges[e];
    lemma_live(all.stats, edges);
    assert(edges[i].id == all.stats[k].edge_id);
}

proof fn lemma_with_edges_keep_stats(
    r: EdgeRegistryView,
    infos: Seq<EdgeInfoView>,
    now: TimestampMs,
    k: int,
)
    requires
        0 <= k < r.stats.len(),
    ensures
        k < r.with_edges(infos, now).stats.len(),
        r.with_edges(infos, now).stats[k] == r.stats[k],
    decreases infos.len(),
{
    if infos.len() > 0 {
        lemma_with_edges_keep_stats(r, infos.drop_last(), now, k);
    }
}

/// A probe counts once, as lost or as answered; the loss is the lost share of
/// all probes and the availability the answered one. The first probe is taken
/// as it is, and nothing else of the edge changes.
pub proof fn law_probe_is_counted(
    s: EdgeStatsView,
    latency_ms: Reading,
    jitter_ms: Reading,
    lost: bool,
)
    requires
        s.samples < u64::MAX,
        s.successes + s.failures < u64::MAX,
    ensures
        ({
            let after = s.observed(latency_ms, jitter_ms, lost);
            &&& after.samples == s.samples + 1
            &&& lost ==> after.failures == s.failures + 1 && after.successes == s.successes
            &&& !lost ==> after.successes == s.successes + 1 && after.failures == s.failures
            &&& after.packet_loss_ratio == quotient(
                after.failures,
                (after.successes + after.failures) as u64,
            )
            &&& after.availability == quotient(
                after.successes,
                (after.successes + after.failures) as u64,
            )
            &&& s.samples == 0 ==> after.latency_ms == latency_ms && after.jitter_ms == jitter_ms
            &&& s.latency_ms.bits == UNMEASURED ==> after.latency_ms == latency_ms
            &&& s.jitter_ms.bits == UNMEASURED ==> after.jitter_ms == jitter_ms
            &&& after.last_probed_at is Some
            &&& s.last_probed_at is Some ==> after.last_probed_at == s.last_probed_at
            &&& after.edge_id == s.edge_id
            &&& after.reconnects == s.reconnects
            &&& after.handshake_latency_ms == s.handshake_latency_ms
            &&& after.expires_at == s.expires_at
        }),
{
}

/// After the first probe, latency and jitter follow what is probed, each its
/// own: a quarter of the sample where nothing was known of it, three quarters
/// of what was known where the sample is zero, and never less for more.
pub proof fn law_measurements_are_smoothed(
    s: EdgeStatsView,
    latency_ms: Reading,
    jitter_ms: Reading,
    more_ms: Reading,
    lost: bool,
)
    requires
        s.samples > 0,
        s.latency_ms.bits < UNMEASURED,
        s.jitter_ms.bits < UNMEASURED,
        latency_ms.bits < INFINITE,
        jitter_ms.bits < INFINITE,
        latency_ms.bits <= more_ms.bits < INFINITE,
    ensures
        ({
            let after = s.observed(latency_ms, jitter_ms, lost);
            let quarter = Reading { bits: 0x3fd0_0000_0000_0000 };
            let three = Reading { bits: 0x3fe8_0000_0000_0000 };
            &&& s.latency_ms.bits == ZERO ==> after.latency_ms == product(quarter, latency_ms)
            &&& latency_ms.bits == ZERO ==> after.latency_ms == product(three, s.latency_ms)
            &&& s.jitter_ms.bits == ZERO ==> after.jitter_ms == product(quarter, jitter_ms)
            &&& jitter_ms.bits == ZERO ==> after.jitter_ms == product(three, s.jitter_ms)
            &&& after.latency_ms.position() <= s.observed(
                more_ms,
                jitter_ms,
                lost,
            ).latency_ms.position()
        }),
{
    let quarter = Reading { bits: NEW_SHARE };
    let three = Reading { bits: KNOWN_SHARE };
    law_products_keep_order(quarter, latency_ms, quarter, latency_ms);
    law_products_keep_order(quarter, jitter_ms, quarter, jitter_ms);
    law_products_keep_order(quarter, latency_ms, quarter, more_ms);
    law_products_keep_order(three, s.latency_ms, three, s.latency_ms);
    law_products_keep_order(three, s.jitter_ms, three, s.jitter_ms);
    law_sums_keep_order(
        product(quarter, latency_ms),
        product(three, s.latency_ms),
        product(quarter, more_ms),
        product(three, s.latency_ms),
    );
    law_zero_leaves_as_is(latency_ms);
    law_zero_leaves_as_is(jitter_ms);
    law_zero_leaves_as_is(s.latency_ms);
    law_zero_leaves_as_is(s.jitter_ms);
    law_zero_leaves_as_is(quarter);
    law_zero_leaves_as_is(three);
    lemma_zero_adds(product(quarter, latency_ms));
    lemma_zero_adds(product(quarter, jitter_ms));
    lemma_zero_adds(product(three, s.latency_ms));
    lemma_zero_adds(product(three, s.jitter_ms));
}

/// Zero adds nothing, to what is infinite neither.
proof fn lemma_zero_adds(x: Reading)
    requires
        x.bits <= INFINITE,
    ensures
        sum(x, Reading { bits: ZERO }) == x,
        sum(Reading { bits: ZERO }, x) == x,
{
    if x.bits < INFINITE {
        law_zero_leaves_as_is(x);
    }
}

/// A handshake is taken as it is where none was measured, and is else smoothed
/// in the same way; nothing else changes.
pub proof fn law_handshakes_are_smoothed(s: EdgeStatsView, ms: Reading)
    requires
        s.handshake_latency_ms.bits <= UNMEASURED,
        ms.bits < INFINITE,
    ensures
        s.handshake_latency_ms.bits == UNMEASURED ==> s.with_handshake(ms).handshake_latency_ms
            == ms,
        s.handshake_latency_ms.bits == ZERO ==> s.with_handshake(ms).handshake_latency_ms
            == product(Reading { bits: 0x3fd0_0000_0000_0000 }, ms),
        s.handshake_latency_ms.bits < UNMEASURED && ms.bits == ZERO ==> s.with_handshake(
            ms,
        ).handshake_latency_ms == product(
            Reading { bits: 0x3fe8_0000_0000_0000 },
            s.handshake_latency_ms,
        ),
        s.with_handshake(ms) == (EdgeStatsView {
            handshake_latency_ms: s.with_handshake(ms).handshake_latency_ms,
            ..s
        }),
{
    let quarter = Reading { bits: NEW_SHARE };
    let three = Reading { bits: KNOWN_SHARE };
    law_products_keep_order(quarter, ms, quarter, ms);
    law_products_keep_order(three, s.handshake_latency_ms, three, s.handshake_latency_ms);
    law_zero_leaves_as_is(quarter);
    law_zero_leaves_as_is(three);
    lemma_zero_adds(product(quarter, ms));
    lemma_zero_adds(product(three, s.handshake_latency_ms));
}

/// An edge that loses nothing is as stable as it is available, one that is
/// always there as stable as its loss leaves it, and one that loses everything
/// or is never there not at all.
pub proof fn law_stability_is_loss_and_availability(s: EdgeStatsView)
    requires
        s.packet_loss_ratio.bits <= ONE,
        s.availability.bits <= ONE,
    ensures
        s.packet_loss_ratio.bits == ZERO ==> s.stability() == s.availability,
        s.availability.bits == ONE ==> s.stability() == difference(
            Reading { bits: ONE },
            s.packet_loss_ratio,
        ),
        s.packet_loss_ratio.bits == ONE ==> s.stability().bits == ZERO,
        s.availability.bits == ZERO ==> s.stability().bits == ZERO,
{
    let one = Reading { bits: ONE };
    let kept = difference(one, s.packet_loss_ratio);
    law_rest_is_a_share(s.packet_loss_ratio);
    law_positions_follow_values(s.packet_loss_ratio, one);
    law_positions_follow_values(one, s.packet_loss_ratio);
    law_positions_follow_values(Reading { bits: ZERO }, one);
    assert(s.packet_loss_ratio.negation().value() == -s.packet_loss_ratio.value());
    assert(kept.bits <= ONE);
    law_one_leaves_as_is(s.availability);
    law_one_leaves_as_is(kept);
    law_zero_leaves_as_is(s.availability);
    law_zero_leaves_as_is(kept);
    law_zero_leaves_as_is(one);
    assert(s.packet_loss_ratio.bits == ZERO ==> kept == one) by {
        if s.packet_loss_ratio.bits == ZERO {
            law_rounds_no_higher(one.value() as nat, 1, ONE);
            law_rounds_no_lower(one.value() as nat, 1, ONE);
        }
    }
}

/// Reconnects are counted by sixty probes: an edge without probes has none,
/// and up to sixty of them count as sixty.
pub proof fn law_reconnects_count_by_sixty(s: EdgeStatsView)
    ensures
        s.samples == 0 ==> s.reconnect_rate().bits == ZERO,
        0 < s.samples <= 60 ==> s.reconnect_rate() == counted(s.reconnects),
{
    if 0 < s.samples <= 60 {
        let sixty = Reading { bits: PROBES_PER_RATE };
        let u = pow2(UNIT_DOUBLINGS as nat);
        lemma_pow2_pos(UNIT_DOUBLINGS as nat);
        law_counts_are_exact(s.samples);
        law_counts_are_positive(s.samples);
        lemma_sixty();
        lemma_one();
        let n = (s.samples * u) as nat * u;
        let d = (60 * u) as nat;
        assert(n <= u * d && d > 0) by (nonlinear_arith)
            requires
                n == (s.samples * u) * u,
                d == 60 * u,
                0 < s.samples <= 60,
                u > 0,
        ;
        law_rounds_no_higher(n, d, ONE);
        let share = division(counted(s.samples), sixty);
        assert(share.bits <= ONE);
        assert(greater(share, Reading { bits: ONE }).bits == ONE);
        if s.reconnects > 0 {
            law_counts_are_positive(s.reconnects);
        } else {
            law_counts_are_exact(0);
            lemma_zero_units();
            law_zero_leaves_as_is(Reading { bits: ONE });
        }
        lemma_over_one(counted(s.reconnects));
    }
}

proof fn lemma_zero_units()
    ensures
        counted(0).bits == ZERO,
{
    let u = pow2(UNIT_DOUBLINGS as nat);
    assert(0 * u == 0) by (nonlinear_arith);
    law_rounds_no_higher(0 * u, 1, ZERO);
}

proof fn lemma_sixty()
    ensures
        units(PROBES_PER_RATE as nat) == 60 * pow2(UNIT_DOUBLINGS as nat),
{
    vstd::arithmetic::power2::lemma2_to64();
    vstd::arithmetic::power2::lemma2_to64_rest();
    lemma_is_count(1027, 0x1e_0000_0000_0000, 49, 2, 15, 60);
}

/// With a single weight that counts, the score of an edge is a hundred times
/// that one part of it: latency and jitter up to their worst, loss,
/// availability, handshake and stability, each by its own weight.
pub proof fn law_each_part_of_an_edge_counts_by_its_weight(
    s: EdgeStatsView,
    w: EdgeProbeWeights,
    loss_power: Reading,
)
    requires
        s.latency_ms.bits <= UNMEASURED,
        s.jitter_ms.bits <= UNMEASURED,
        s.handshake_latency_ms.bits <= UNMEASURED,
        s.packet_loss_ratio.bits <= ONE,
        s.availability.bits <= ONE,
        ONE <= loss_power.bits < INFINITE,
    ensures
        EPSILON < w.latency_weight.bits < INFINITE && w.jitter_weight.bits == ZERO
            && w.loss_weight.bits == ZERO && w.availability_weight.bits == ZERO
            && w.handshake_weight.bits == ZERO && w.stability_weight.bits == ZERO ==> s.score(
            w,
            loss_power,
        ) == product(
            score_of_latency(lesser(s.latency_ms, Reading { bits: WORST_LATENCY_MS })),
            Reading { bits: HUNDRED },
        ),
        EPSILON < w.jitter_weight.bits < INFINITE && w.latency_weight.bits == ZERO
            && w.loss_weight.bits == ZERO && w.availability_weight.bits == ZERO
            && w.handshake_weight.bits == ZERO && w.stability_weight.bits == ZERO ==> s.score(
            w,
            loss_power,
        ) == product(
            score_of_jitter(lesser(s.jitter_ms, Reading { bits: WORST_JITTER_MS })),
            Reading { bits: HUNDRED },
        ),
        EPSILON < w.loss_weight.bits < INFINITE && w.latency_weight.bits == ZERO
            && w.jitter_weight.bits == ZERO && w.availability_weight.bits == ZERO
            && w.handshake_weight.bits == ZERO && w.stability_weight.bits == ZERO ==> s.score(
            w,
            loss_power,
        ) == product(
            if s.packet_loss_ratio.bits == ZERO {
                Reading { bits: ONE }
            } else if s.packet_loss_ratio.bits >= HALF {
                Reading { bits: ZERO }
            } else {
                division(Reading { bits: ONE }, loss_power)
            },
            Reading { bits: HUNDRED },
        ),
        EPSILON < w.availability_weight.bits < INFINITE && w.latency_weight.bits == ZERO
            && w.jitter_weight.bits == ZERO && w.loss_weight.bits == ZERO
            && w.handshake_weight.bits == ZERO && w.stability_weight.bits == ZERO ==> s.score(
            w,
            loss_power,
        ) == product(s.availability, Reading { bits: HUNDRED }),
        EPSILON < w.handshake_weight.bits < INFINITE && w.latency_weight.bits == ZERO
            && w.jitter_weight.bits == ZERO && w.loss_weight.bits == ZERO
            && w.availability_weight.bits == ZERO && w.stability_weight.bits == ZERO ==> s.score(
            w,
            loss_power,
        ) == product(
            if s.handshake_latency_ms.bits == UNMEASURED {
                Reading { bits: ZERO }
            } else {
                score_of_handshake(s.handshake_latency_ms)
            },
            Reading { bits: HUNDRED },
        ),
        EPSILON < w.stability_weight.bits < INFINITE && w.latency_weight.bits == ZERO
            && w.jitter_weight.bits == ZERO && w.loss_weight.bits == ZERO
            && w.availability_weight.bits == ZERO && w.handshake_weight.bits == ZERO ==> s.score(
            w,
            loss_power,
        ) == product(s.stability(), Reading { bits: HUNDRED }),
{
    let zero = Reading { bits: ZERO };
    let one = Reading { bits: ONE };
    let worst_latency = lesser(s.latency_ms, Reading { bits: WORST_LATENCY_MS });
    let worst_jitter = lesser(s.jitter_ms, Reading { bits: WORST_JITTER_MS });
    let latency = score_of_latency(worst_latency);
    let jitter = score_of_jitter(worst_jitter);
    let loss = edge_score_of_loss(s.packet_loss_ratio, loss_power);
    let handshake = if s.handshake_latency_ms.equals(Reading { bits: UNMEASURED }) {
        zero
    } else {
        score_of_handshake(s.handshake_latency_ms)
    };
    law_latency_scores_fall(worst_latency, worst_latency);
    law_jitter_scores_fall(worst_jitter, worst_jitter);
    law_handshake_scores_fall(s.handshake_latency_ms, s.handshake_latency_ms);
    law_shares_are_at_most_one(one, loss_power);
    assert(division(one, loss_power).bits <= ONE);
    law_rest_is_a_share(s.packet_loss_ratio);
    let kept = difference(one, share_of(s.packet_loss_ratio));
    law_positions_follow_values(s.packet_loss_ratio, one);
    assert(s.packet_loss_ratio.negation().value() == -s.packet_loss_ratio.value());
    assert(kept.bits <= ONE);
    law_shares_multiply(kept, s.availability);
    assert(s.stability().bits <= ONE);
    lemma_lone_weight(w.latency_weight);
    lemma_lone_weight(w.jitter_weight);
    lemma_lone_weight(w.loss_weight);
    lemma_lone_weight(w.availability_weight);
    lemma_lone_weight(w.handshake_weight);
    lemma_lone_weight(w.stability_weight);
    lemma_lone_part(latency);
    lemma_lone_part(jitter);
    lemma_lone_part(loss);
    lemma_lone_part(handshake);
    lemma_lone_part(s.stability());
    lemma_lone_part(s.availability);
    law_zero_leaves_as_is(zero);
}

/// The health of an edge is reported from its own statistics, each figure
/// under its own name; what was not measured is not a number.
pub proof fn law_health_reports_its_edge(
    s: EdgeStatsView,
    w: EdgeProbeWeights,
    loss_power: Reading,
    source: MeasuredSource,
)
    ensures
        ({
            let h = s.health(w, loss_power, source);
            &&& h.edge_id == s.edge_id
            &&& s.latency_ms.bits != UNMEASURED ==> h.latency_ms == s.latency_ms
            &&& s.latency_ms.bits == UNMEASURED ==> h.latency_ms.is_nan()
            &&& s.jitter_ms.bits != UNMEASURED ==> h.jitter_ms == s.jitter_ms
            &&& s.jitter_ms.bits == UNMEASURED ==> h.jitter_ms.is_nan()
            &&& s.handshake_latency_ms.bits != UNMEASURED ==> h.handshake_latency_ms
                == s.handshake_latency_ms
            &&& s.handshake_latency_ms.bits == UNMEASURED ==> h.handshake_latency_ms.is_nan()
            &&& h.packet_loss_ratio == s.packet_loss_ratio
            &&& h.availability == s.availability
            &&& h.reconnect_rate == s.reconnect_rate()
            &&& h.historical_stability == s.stability()
            &&& h.score == s.score(w, loss_power)
            &&& s.last_probed_at matches Some(at) ==> h.updated_at == at
            &&& h.source == source
        }),
{
}

/// An edge starts with nothing measured: its probes are yet to come, all of
/// them are taken as lost, and it is not there.
pub proof fn law_new_edge_is_unmeasured(edge: EdgeInfoView)
    ensures
        ({
            let s = EdgeStatsView::fresh(edge);
            &&& s.edge_id == edge.id
            &&& s.expires_at == edge.expires_at
            &&& s.samples == 0 && s.reconnects == 0 && s.successes == 0 && s.failures == 0
            &&& s.last_probed_at is None
            &&& s.latency_ms.bits == UNMEASURED
            &&& s.jitter_ms.bits == UNMEASURED
            &&& s.handshake_latency_ms.bits == UNMEASURED
            &&& s.packet_loss_ratio.bits == ONE
            &&& s.availability.bits == ZERO
        }),
{
}

/// Weights that are all zero say nothing, and stand for the usual ones.
pub proof fn law_no_edge_weights_are_the_usual_ones(w: EdgeProbeWeights)
    requires
        w.latency_weight.bits == ZERO,
        w.jitter_weight.bits == ZERO,
        w.loss_weight.bits == ZERO,
        w.availability_weight.bits == ZERO,
        w.handshake_weight.bits == ZERO,
        w.stability_weight.bits == ZERO,
    ensures
        normalized_edge(w) == default_edge_weights(),
{
    law_zero_leaves_as_is(Reading { bits: ZERO });
    assert(edge_weight_sum(w) == (Reading { bits: ZERO }));
}

} // verus!
