//! Applies a profile to a flow of packets.
//!
//! The fate of a packet is a function of the packet, the state and the draws;
//! with a seeded generator a run can be repeated.
use rand::rngs::StdRng;
use vstd::arithmetic::power2::{lemma_pow2_pos, pow2};
use vstd::prelude::*;

use crate::chaos::profile::{is_chance, is_span, ChaosProfile, FailureMode};
use crate::dice::{draw_up_to, drawn_up_to, generator, grown_from};
use crate::double::{
    greater, greater_of, plus, sum, truncate, truncated, STEP, UNIT_DOUBLINGS,
};
use crate::order::law_positions_follow_values;
use crate::ratio::{
    counted, law_counts_are_exact, law_counts_are_positive, law_rounds_no_higher, quotient, ratio,
};
use crate::reading::{Reading, ZERO};

verus! {

/// How many bytes the packets of a run carry.
pub const RUN_PAYLOAD: usize = 64;

/// A packet as it enters the pipeline.
#[derive(Debug, PartialEq, Eq)]
pub struct PacketRecord {
    pub seq: u64,
    pub payload: Vec<u8>,
    pub at_tick: u64,
}

#[verifier::ext_equal]
pub struct PacketView {
    pub seq: u64,
    pub payload: Seq<u8>,
    pub at_tick: u64,
}

impl View for PacketRecord {
    type V = PacketView;

    open spec fn view(&self) -> PacketView {
        PacketView { seq: self.seq, payload: self.payload@, at_tick: self.at_tick }
    }
}

/// What became of a packet.
#[derive(Clone, Copy, Debug, PartialEq, Eq, Structural)]
pub enum PacketResult {
    /// Delivered after `delay_ms`; `reordered` where it arrives together with one
    /// that had been held back, out of their order.
    Delivered { seq: u64, delay_ms: u64, reordered: bool },
    /// Dropped, by loss or by the bandwidth limit.
    Dropped { seq: u64 },
    /// The connection is down, by a reset or an outage.
    ConnectionDown { seq: u64 },
}

/// What chance decides about one packet. A draw that the packet does not come
/// to is without effect.
#[derive(Clone, Copy, Debug)]
pub struct Draws {
    /// Whether an outage begins.
    pub outage: bool,
    /// How long it lasts.
    pub outage_ms: u64,
    /// Whether the packet is lost.
    pub lost: bool,
    /// How much longer than usual the packet takes, or less where negative.
    pub jitter_ms: Reading,
    /// Whether the packet is held back.
    pub held: bool,
}

/// The state of the flow.
#[derive(Debug)]
pub struct PipelineState {
    pub profile: ChaosProfile,
    /// A packet held back, and since when.
    pub reorder_pending: Option<(PacketRecord, u64)>,
    pub packets_processed: u64,
    pub packets_dropped: u64,
    pub resets: u64,
    pub bytes_in_flight: u64,
    /// Until when the connection is down.
    pub down_until_tick: Option<u64>,
    /// What the draws are made with.
    pub rng: StdRng,
}

#[verifier::ext_equal]
pub struct PipelineView {
    pub profile: ChaosProfile,
    pub reorder_pending: Option<(PacketView, u64)>,
    pub packets_processed: u64,
    pub packets_dropped: u64,
    pub resets: u64,
    pub bytes_in_flight: u64,
    pub down_until_tick: Option<u64>,
}

impl View for PipelineState {
    type V = PipelineView;

    open spec fn view(&self) -> PipelineView {
        PipelineView {
            profile: self.profile,
            reorder_pending: match self.reorder_pending {
                Some(held) => Some((held.0@, held.1)),
                None => None,
            },
            packets_processed: self.packets_processed,
            packets_dropped: self.packets_dropped,
            resets: self.resets,
            bytes_in_flight: self.bytes_in_flight,
            down_until_tick: self.down_until_tick,
        }
    }
}

/// How long a packet takes, for a latency and a jitter.
pub open spec fn delay_of(latency_ms: Reading, jitter_ms: Reading) -> u64 {
    let zero = Reading { bits: ZERO };
    truncated(greater(sum(greater(latency_ms, zero), jitter_ms), zero))
}

pub open spec fn positive(r: Reading) -> bool {
    (Reading { bits: ZERO }).below(r)
}

impl PipelineView {
    pub open spec fn fresh(profile: ChaosProfile) -> PipelineView {
        PipelineView {
            profile,
            reorder_pending: None,
            packets_processed: 0,
            packets_dropped: 0,
            resets: 0,
            bytes_in_flight: 0,
            down_until_tick: None,
        }
    }

    /// Whether the next packet meets a reset.
    pub open spec fn resets_now(self) -> bool {
        match self.profile.failure {
            FailureMode::ResetEveryPackets(n) => n > 0 && (self.packets_processed + 1) % (n as int)
                == 0,
            _ => false,
        }
    }

    /// Whether the connection is in an outage.
    pub open spec fn in_outage(self, tick: u64) -> bool {
        match self.profile.failure {
            FailureMode::Intermittent { .. } => match self.down_until_tick {
                Some(until) => tick < until,
                None => false,
            },
            _ => false,
        }
    }

    /// Whether an outage can begin with the next packet.
    pub open spec fn outage_possible(self, tick: u64) -> bool {
        match self.profile.failure {
            FailureMode::Intermittent { down_ratio, .. } => !self.in_outage(tick) && positive(
                down_ratio,
            ),
            _ => false,
        }
    }

    pub open spec fn outage_begins(self, tick: u64, d: Draws) -> bool {
        self.outage_possible(tick) && d.outage
    }

    /// The longest outage.
    pub open spec fn longest_outage(self) -> u64 {
        match self.profile.failure {
            FailureMode::Intermittent { mean_down_ms, .. } => if mean_down_ms > 1 {
                mean_down_ms
            } else {
                1
            },
            _ => 1,
        }
    }

    /// Whether the packet finds the connection down.
    pub open spec fn down(self, tick: u64, d: Draws) -> bool {
        self.resets_now() || self.in_outage(tick) || self.outage_begins(tick, d)
    }

    pub open spec fn loses(self, d: Draws) -> bool {
        positive(self.profile.loss_ratio) && d.lost
    }

    /// Whether the packet is larger than what the bandwidth lets pass in a
    /// millisecond.
    pub open spec fn over_budget(self, pkt: PacketView) -> bool {
        let budget = self.profile.bandwidth_bps / 1000;
        budget > 0 && pkt.payload.len() * 8 > budget
    }

    /// The jitter of the packet.
    pub open spec fn jitter(self, d: Draws) -> Reading {
        if positive(self.profile.jitter_ms) {
            d.jitter_ms
        } else {
            Reading { bits: ZERO }
        }
    }

    pub open spec fn holds_back(self, d: Draws) -> bool {
        positive(self.profile.reorder_ratio) && d.held
    }

    /// Whether a packet that was held back comes out now.
    pub open spec fn releases(self, tick: u64) -> bool {
        match self.reorder_pending {
            Some(held) => held.1 <= tick,
            None => false,
        }
    }

    /// The fate of the packet.
    pub open spec fn fate(self, pkt: PacketView, tick: u64, d: Draws) -> PacketResult {
        if self.down(tick, d) {
            PacketResult::ConnectionDown { seq: pkt.seq }
        } else if self.loses(d) || self.over_budget(pkt) {
            PacketResult::Dropped { seq: pkt.seq }
        } else {
            PacketResult::Delivered {
                seq: pkt.seq,
                delay_ms: delay_of(self.profile.latency_ms, self.jitter(d)),
                reordered: self.releases(tick),
            }
        }
    }

    /// The state after the packet.
    pub open spec fn after(self, pkt: PacketView, tick: u64, d: Draws) -> PipelineView {
        let counted = PipelineView {
            packets_processed: (self.packets_processed + 1) as u64,
            ..self
        };
        if self.resets_now() {
            PipelineView {
                resets: (self.resets + 1) as u64,
                reorder_pending: None,
                bytes_in_flight: 0,
                ..counted
            }
        } else if self.in_outage(tick) {
            counted
        } else {
            let up = if self.profile.failure is Intermittent {
                PipelineView { down_until_tick: None, ..counted }
            } else {
                counted
            };
            if self.outage_begins(tick, d) {
                PipelineView {
                    resets: (self.resets + 1) as u64,
                    down_until_tick: Some((tick + d.outage_ms) as u64),
                    reorder_pending: None,
                    bytes_in_flight: 0,
                    ..up
                }
            } else if self.loses(d) || self.over_budget(pkt) {
                PipelineView { packets_dropped: (self.packets_dropped + 1) as u64, ..up }
            } else if self.releases(tick) {
                let size = self.reorder_pending->Some_0.0.payload.len();
                PipelineView {
                    reorder_pending: None,
                    bytes_in_flight: if self.bytes_in_flight >= size {
                        (self.bytes_in_flight - size) as u64
                    } else {
                        0
                    },
                    ..up
                }
            } else if self.holds_back(d) {
                PipelineView {
                    reorder_pending: Some((pkt, tick)),
                    bytes_in_flight: (self.bytes_in_flight + pkt.payload.len()) as u64,
                    ..up
                }
            } else {
                up
            }
        }
    }

    /// Whether `n` packets of `size` bytes can be counted at `tick`.
    pub open spec fn has_room(self, n: nat, size: nat, tick: u64) -> bool {
        &&& self.packets_processed + n <= u64::MAX
        &&& self.packets_dropped + n <= u64::MAX
        &&& self.resets + n <= u64::MAX
        &&& self.bytes_in_flight + n * size <= u64::MAX
        &&& size * 8 <= u64::MAX
        &&& tick + self.longest_outage() <= u64::MAX
    }

    /// The fates of the packets, one after the other.
    pub open spec fn fates(self, pkts: Seq<PacketView>, tick: u64, draws: Seq<Draws>) -> Seq<
        PacketResult,
    >
        decreases pkts.len(),
    {
        if pkts.len() == 0 {
            seq![]
        } else {
            self.fates(pkts.drop_last(), tick, draws.drop_last()).push(
                self.after_all(pkts.drop_last(), tick, draws.drop_last()).fate(
                    pkts.last(),
                    tick,
                    draws.last(),
                ),
            )
        }
    }

    /// The state after the packets.
    pub open spec fn after_all(
        self,
        pkts: Seq<PacketView>,
        tick: u64,
        draws: Seq<Draws>,
    ) -> PipelineView
        decreases pkts.len(),
    {
        if pkts.len() == 0 {
            self
        } else {
            self.after_all(pkts.drop_last(), tick, draws.drop_last()).after(
                pkts.last(),
                tick,
                draws.last(),
            )
        }
    }
}

/// Whether `chance` may draw the outcome for the probability.
pub open spec fn may_draw<C: Fn(&mut StdRng, Reading) -> bool>(
    chance: &C,
    p: Reading,
    outcome: bool,
) -> bool {
    exists|g: &mut StdRng| #[trigger] call_ensures(chance, (g, p), outcome)
}

/// Whether `around` may draw the number for the span.
pub open spec fn may_stray<A: Fn(&mut StdRng, Reading) -> Reading>(
    around: &A,
    most: Reading,
    by: Reading,
) -> bool {
    exists|g: &mut StdRng| #[trigger] call_ensures(around, (g, most), by)
}

/// Whether the draws are what `chance` and `around` may give, for the
/// profile's own parameters, wherever the packet comes to a draw.
pub open spec fn drawn_by<
    C: Fn(&mut StdRng, Reading) -> bool,
    A: Fn(&mut StdRng, Reading) -> Reading,
>(s: PipelineView, pkt: PacketView, tick: u64, d: Draws, chance: &C, around: &A) -> bool {
    let passes = !s.down(tick, d) && !s.loses(d) && !s.over_budget(pkt);
    &&& 1 <= d.outage_ms <= s.longest_outage()
    &&& s.outage_begins(tick, d) && !s.resets_now() ==> drawn_up_to(
        s.longest_outage(),
        d.outage_ms,
    )
    &&& s.outage_possible(tick) ==> may_draw(
        chance,
        s.profile.failure->Intermittent_down_ratio,
        d.outage,
    )
    &&& !s.down(tick, d) && positive(s.profile.loss_ratio) ==> may_draw(
        chance,
        s.profile.loss_ratio,
        d.lost,
    )
    &&& passes && positive(s.profile.jitter_ms) ==> may_stray(
        around,
        s.profile.jitter_ms,
        d.jitter_ms,
    )
    &&& passes && positive(s.profile.reorder_ratio) ==> may_draw(
        chance,
        s.profile.reorder_ratio,
        d.held,
    )
}

/// The same of the draws for all packets, one after the other.
pub open spec fn all_drawn_by<
    C: Fn(&mut StdRng, Reading) -> bool,
    A: Fn(&mut StdRng, Reading) -> Reading,
>(
    s: PipelineView,
    pkts: Seq<PacketView>,
    tick: u64,
    draws: Seq<Draws>,
    chance: &C,
    around: &A,
) -> bool
    decreases pkts.len(),
{
    pkts.len() > 0 ==> all_drawn_by(
        s,
        pkts.drop_last(),
        tick,
        draws.drop_last(),
        chance,
        around,
    ) && drawn_by(
        s.after_all(pkts.drop_last(), tick, draws.drop_last()),
        pkts.last(),
        tick,
        draws.last(),
        chance,
        around,
    )
}

/// The packets of a run.
pub open spec fn run_packets(n: nat, tick: u64) -> Seq<PacketView> {
    Seq::new(
        n,
        |i: int|
            PacketView {
                seq: i as u64,
                payload: Seq::new(RUN_PAYLOAD as nat, |k: int| 0u8),
                at_tick: tick,
            },
    )
}

/// How many of the fates are failures of the connection.
pub open spec fn count_down(s: Seq<PacketResult>) -> nat
    decreases s.len(),
{
    if s.len() == 0 {
        0
    } else {
        count_down(s.drop_last()) + (if s.last() is ConnectionDown {
            1nat
        } else {
            0
        })
    }
}

/// How many of the packets did not arrive.
pub open spec fn count_lost(s: Seq<PacketResult>) -> nat
    decreases s.len(),
{
    if s.len() == 0 {
        0
    } else {
        count_lost(s.drop_last()) + (if s.last() is Delivered {
            0nat
        } else {
            1
        })
    }
}

impl PipelineState {
    /// A fresh flow; the seed fixes all draws.
    pub fn from_profile(profile: ChaosProfile, seed: u64) -> (r: Self)
        ensures
            r@ == PipelineView::fresh(profile),
            grown_from(seed, r.rng),
    {
        PipelineState {
            profile,
            reorder_pending: None,
            packets_processed: 0,
            packets_dropped: 0,
            resets: 0,
            bytes_in_flight: 0,
            down_until_tick: None,
            rng: generator(seed),
        }
    }

    pub fn seed_from(profile: ChaosProfile, seed: u64) -> (r: Self)
        ensures
            r@ == PipelineView::fresh(profile),
            grown_from(seed, r.rng),
    {
        Self::from_profile(profile, seed)
    }

    /// Sends one packet at `tick`, with the draws made as the packet comes to
    /// them: `chance` draws true with the given probability, and `around` draws
    /// a number that is no further from zero than the given one. Returns the
    /// packet's fate.
    pub fn push<C: Fn(&mut StdRng, Reading) -> bool, A: Fn(&mut StdRng, Reading) -> Reading>(
        &mut self,
        pkt: PacketRecord,
        tick: u64,
        chance: &C,
        around: &A,
    ) -> (r: PacketResult)
        requires
            old(self)@.profile.valid(),
            old(self)@.has_room(1, pkt@.payload.len(), tick),
            forall|g: &mut StdRng, p: Reading| is_chance(p) ==> #[trigger] chance.requires((g, p)),
            forall|g: &mut StdRng, most: Reading|
                is_span(most) ==> #[trigger] around.requires((g, most)),
        ensures
            number_of(r) == pkt@.seq,
            exists|d: Draws|
                drawn_by(old(self)@, pkt@, tick, d, chance, around) && r == #[trigger] old(
                    self,
                )@.fate(pkt@, tick, d) && final(self)@ == old(self)@.after(pkt@, tick, d),
    {
        let draws = self.draw(&pkt, tick, chance, around);
        let r = self.settle(pkt, tick, &draws);
        assert(r == old(self)@.fate(pkt@, tick, draws));
        r
    }

    /// Makes the draws that the next packet comes to, in the order in which it
    /// does.
    fn draw<C: Fn(&mut StdRng, Reading) -> bool, A: Fn(&mut StdRng, Reading) -> Reading>(
        &mut self,
        pkt: &PacketRecord,
        tick: u64,
        chance: &C,
        around: &A,
    ) -> (r: Draws)
        requires
            old(self)@.profile.valid(),
            old(self)@.packets_processed < u64::MAX,
            pkt@.payload.len() * 8 <= u64::MAX,
            forall|g: &mut StdRng, p: Reading| is_chance(p) ==> #[trigger] chance.requires((g, p)),
            forall|g: &mut StdRng, most: Reading|
                is_span(most) ==> #[trigger] around.requires((g, most)),
        ensures
            final(self)@ == old(self)@,
            drawn_by(old(self)@, pkt@, tick, r, chance, around),
    {
        let zero = Reading { bits: ZERO };
        let mut draws = Draws {
            outage: false,
            outage_ms: 1,
            lost: false,
            jitter_ms: zero,
            held: false,
        };
        match self.profile.failure {
            FailureMode::Steady => {},
            FailureMode::ResetEveryPackets(n) => {
                if n > 0 && (self.packets_processed + 1) % n == 0 {
                    return draws;
                }
            },
            FailureMode::Intermittent { down_ratio, mean_down_ms } => {
                if let Some(until) = self.down_until_tick {
                    if tick < until {
                        return draws;
                    }
                }
                if down_ratio > zero {
                    draws.outage = chance(&mut self.rng, down_ratio);
                    assert(may_draw(chance, down_ratio, draws.outage));
                }
                if draws.outage {
                    let most: u64 = if mean_down_ms > 1 {
                        mean_down_ms
                    } else {
                        1
                    };
                    draws.outage_ms = draw_up_to(&mut self.rng, most);
                    return draws;
                }
            },
        }
        if self.profile.loss_ratio > zero {
            draws.lost = chance(&mut self.rng, self.profile.loss_ratio);
            assert(may_draw(chance, self.profile.loss_ratio, draws.lost));
        }
        if draws.lost {
            return draws;
        }
        let budget: u64 = self.profile.bandwidth_bps / 1000;
        if budget > 0 && (pkt.payload.len() as u64) * 8 > budget {
            return draws;
        }
        if self.profile.jitter_ms > zero {
            draws.jitter_ms = around(&mut self.rng, self.profile.jitter_ms);
            assert(may_stray(around, self.profile.jitter_ms, draws.jitter_ms));
        }
        if self.profile.reorder_ratio > zero {
            draws.held = chance(&mut self.rng, self.profile.reorder_ratio);
            assert(may_draw(chance, self.profile.reorder_ratio, draws.held));
        }
        draws
    }

    /// Settles the fate of a packet for which the draws have been made.
    pub fn settle(&mut self, pkt: PacketRecord, tick: u64, draws: &Draws) -> (r: PacketResult)
        requires
            old(self)@.has_room(1, pkt@.payload.len(), tick),
            draws.outage_ms <= old(self)@.longest_outage(),
        ensures
            r == old(self)@.fate(pkt@, tick, *draws),
            final(self)@ == old(self)@.after(pkt@, tick, *draws),
    {
        let zero = Reading { bits: ZERO };
        self.packets_processed = self.packets_processed + 1;
        match self.profile.failure {
            FailureMode::Steady => {},
            FailureMode::ResetEveryPackets(n) => {
                if n > 0 && self.packets_processed % n == 0 {
                    self.resets = self.resets + 1;
                    self.reorder_pending = None;
                    self.bytes_in_flight = 0;
                    return PacketResult::ConnectionDown { seq: pkt.seq };
                }
            },
            FailureMode::Intermittent { down_ratio, .. } => {
                if let Some(until) = self.down_until_tick {
                    if tick < until {
                        return PacketResult::ConnectionDown { seq: pkt.seq };
                    }
                    self.down_until_tick = None;
                }
                if down_ratio > zero && draws.outage {
                    self.resets = self.resets + 1;
                    self.down_until_tick = Some(tick + draws.outage_ms);
                    self.reorder_pending = None;
                    self.bytes_in_flight = 0;
                    return PacketResult::ConnectionDown { seq: pkt.seq };
                }
            },
        }
        if self.profile.loss_ratio > zero && draws.lost {
            self.packets_dropped = self.packets_dropped + 1;
            return PacketResult::Dropped { seq: pkt.seq };
        }
        let budget: u64 = self.profile.bandwidth_bps / 1000;
        if budget > 0 && (pkt.payload.len() as u64) * 8 > budget {
            self.packets_dropped = self.packets_dropped + 1;
            return PacketResult::Dropped { seq: pkt.seq };
        }
        let seq: u64 = pkt.seq;
        let mut reordered = false;
        if let Some((held, held_tick)) = self.reorder_pending.take() {
            if held_tick <= tick {
                self.bytes_in_flight = self.bytes_in_flight.saturating_sub(
                    held.payload.len() as u64,
                );
                reordered = true;
            } else {
                self.reorder_pending = Some((held, held_tick));
            }
        }
        if !reordered && self.profile.reorder_ratio > zero && draws.held {
            self.bytes_in_flight = self.bytes_in_flight + pkt.payload.len() as u64;
            self.reorder_pending = Some((pkt, tick));
        }
        let jitter = if self.profile.jitter_ms > zero {
            draws.jitter_ms
        } else {
            zero
        };
        let base = greater_of(self.profile.latency_ms, zero);
        let delay_ms: u64 = truncate(greater_of(plus(base, jitter), zero));
        PacketResult::Delivered { seq, delay_ms, reordered }
    }

    /// Sends `n` packets at `tick`; returns their fates, one per packet.
    pub fn run<C: Fn(&mut StdRng, Reading) -> bool, A: Fn(&mut StdRng, Reading) -> Reading>(
        &mut self,
        n: u64,
        tick: u64,
        chance: &C,
        around: &A,
    ) -> (r: Vec<PacketResult>)
        requires
            old(self)@.profile.valid(),
            old(self)@.has_room(n as nat, RUN_PAYLOAD as nat, tick),
            n <= usize::MAX,
            forall|g: &mut StdRng, p: Reading| is_chance(p) ==> #[trigger] chance.requires((g, p)),
            forall|g: &mut StdRng, most: Reading|
                is_span(most) ==> #[trigger] around.requires((g, most)),
        ensures
            r@.len() == n,
            forall|i: int| 0 <= i < n ==> number_of(#[trigger] r@[i]) == i,
            exists|draws: Seq<Draws>|
                draws.len() == n && all_drawn_by(
                    old(self)@,
                    run_packets(n as nat, tick),
                    tick,
                    draws,
                    chance,
                    around,
                ) && r@ == #[trigger] old(self)@.fates(
                    run_packets(n as nat, tick),
                    tick,
                    draws,
                ) && final(self)@ == old(self)@.after_all(
                    run_packets(n as nat, tick),
                    tick,
                    draws,
                ),
    {
        let mut out: Vec<PacketResult> = Vec::new();
        let ghost start = self@;
        let ghost mut draws: Seq<Draws> = seq![];
        let mut seq: u64 = 0;
        assert(run_packets(0, tick) =~= seq![]);
        while seq < n
            invariant
                seq <= n,
                n <= usize::MAX,
                start == old(self)@,
                start.profile.valid(),
                start.has_room(n as nat, RUN_PAYLOAD as nat, tick),
                self@.profile == start.profile,
                self@.packets_processed == start.packets_processed + seq,
                self@.packets_dropped <= start.packets_dropped + seq,
                self@.resets <= start.resets + seq,
                self@.bytes_in_flight <= start.bytes_in_flight + seq * RUN_PAYLOAD,
                out@.len() == seq,
                draws.len() == seq,
                all_drawn_by(
                    start,
                    run_packets(seq as nat, tick),
                    tick,
                    draws,
                    chance,
                    around,
                ),
                out@ == start.fates(run_packets(seq as nat, tick), tick, draws),
                self@ == start.after_all(run_packets(seq as nat, tick), tick, draws),
                forall|g: &mut StdRng, p: Reading| is_chance(p) ==> #[trigger] chance.requires(
                    (g, p),
                ),
                forall|g: &mut StdRng, most: Reading|
                    is_span(most) ==> #[trigger] around.requires((g, most)),
            decreases n - seq,
        {
            let ghost before = self@;
            let pkt = PacketRecord { seq, payload: zeros(), at_tick: tick };
            let ghost packet = pkt@;
            proof {
                assert(packet =~= run_packets((seq + 1) as nat, tick)[seq as int]);
            }
            let fate = self.push(pkt, tick, chance, around);
            proof {
                let d = choose|d: Draws|
                    drawn_by(before, packet, tick, d, chance, around) && fate
                        == #[trigger] before.fate(packet, tick, d) && self@ == before.after(
                        packet,
                        tick,
                        d,
                    );
                let more = run_packets((seq + 1) as nat, tick);
                assert(more.drop_last() =~= run_packets(seq as nat, tick));
                assert(more.last() == packet);
                let prior = draws;
                draws = prior.push(d);
                assert(draws.drop_last() =~= prior);
            }
            out.push(fate);
            seq = seq + 1;
        }
        proof {
            law_one_fate_per_packet(start, run_packets(n as nat, tick), tick, draws);
            assert forall|i: int| 0 <= i < n implies number_of(#[trigger] out@[i]) == i by {
                assert(run_packets(n as nat, tick)[i].seq == i as u64);
            }
        }
        out
    }

    /// The fates, the share of packets that did not arrive, how many that are,
    /// and how many of them met a failure of the connection.
    pub fn measure(results: &[PacketResult]) -> (r: (Vec<PacketResult>, Reading, u64, u64))
        ensures
            r.0@ == results@,
            r.1 == quotient(
                count_lost(results@) as u64,
                if results@.len() == 0 {
                    1
                } else {
                    results@.len() as u64
                },
            ),
            r.2 == count_lost(results@),
            r.3 == count_down(results@),
    {
        let mut copy: Vec<PacketResult> = Vec::new();
        let mut lost: u64 = 0;
        let mut down: u64 = 0;
        let mut i: usize = 0;
        assert(results@.take(0) =~= seq![]);
        while i < results.len()
            invariant
                i <= results@.len(),
                copy@ == results@.take(i as int),
                lost == count_lost(results@.take(i as int)),
                down == count_down(results@.take(i as int)),
                lost <= i,
                down <= i,
            decreases results@.len() - i,
        {
            assert(results@.take(i + 1).drop_last() =~= results@.take(i as int));
            copy.push(results[i]);
            assert(copy@ =~= results@.take(i + 1));
            match results[i] {
                PacketResult::Delivered { .. } => {},
                PacketResult::Dropped { .. } => {
                    lost = lost + 1;
                },
                PacketResult::ConnectionDown { .. } => {
                    lost = lost + 1;
                    down = down + 1;
                },
            }
            i = i + 1;
        }
        assert(results@.take(i as int) =~= results@);
        let total: u64 = if results.len() == 0 {
            1
        } else {
            results.len() as u64
        };
        (copy, ratio(lost, total), lost, down)
    }
}

/// The payload of the packets of a run.
fn zeros() -> (r: Vec<u8>)
    ensures
        r@ == Seq::new(RUN_PAYLOAD as nat, |k: int| 0u8),
{
    let mut r: Vec<u8> = Vec::new();
    while r.len() < RUN_PAYLOAD
        invariant
            r@.len() <= RUN_PAYLOAD,
            forall|k: int| 0 <= k < r@.len() ==> r@[k] == 0,
        decreases RUN_PAYLOAD - r.len(),
    {
        r.push(0);
    }
    assert(r@ =~= Seq::new(RUN_PAYLOAD as nat, |k: int| 0u8));
    r
}

/// A network without impairments delivers every packet, in order.
pub proof fn law_pristine_delivers(
    s: PipelineView,
    pkt: PacketView,
    tick: u64,
    d: Draws,
)
    requires
        s.profile == (ChaosProfile { latency_ms: s.profile.latency_ms, ..ChaosProfile::benign() }),
        s.reorder_pending is None,
    ensures
        s.fate(pkt, tick, d) == (PacketResult::Delivered {
            seq: pkt.seq,
            delay_ms: delay_of(s.profile.latency_ms, Reading { bits: ZERO }),
            reordered: false,
        }),
        s.after(pkt, tick, d).reorder_pending is None,
        s.after(pkt, tick, d).profile == s.profile,
{
}

/// With a reset at every `n`-th packet, the connection is down for exactly the
/// packets whose number is a multiple of `n`, whatever is drawn.
pub proof fn law_resets_are_periodic(
    s: PipelineView,
    pkt: PacketView,
    tick: u64,
    d: Draws,
    n: u64,
)
    requires
        s.profile.failure == FailureMode::ResetEveryPackets(n),
        n > 0,
    ensures
        s.fate(pkt, tick, d) is ConnectionDown <==> (s.packets_processed + 1) % (n as int) == 0,
        s.fate(pkt, tick, d) is ConnectionDown ==> s.after(pkt, tick, d).resets == (s.resets + 1)
            as u64,
        !(s.fate(pkt, tick, d) is ConnectionDown) ==> s.after(pkt, tick, d).resets == s.resets,
{
}

/// While an outage lasts, every packet finds the connection down; the outage
/// ends at its tick.
pub proof fn law_outage_lasts(
    s: PipelineView,
    pkt: PacketView,
    next: PacketView,
    tick: u64,
    later: u64,
    d: Draws,
    e: Draws,
)
    requires
        s.outage_begins(tick, d),
        1 <= d.outage_ms,
        tick + d.outage_ms <= u64::MAX,
        tick <= later < tick + d.outage_ms,
    ensures
        s.fate(pkt, tick, d) is ConnectionDown,
        s.after(pkt, tick, d).fate(next, later, e) is ConnectionDown,
{
}

/// A packet that was held back comes out at the next packet that is neither
/// lost nor cut off, which is marked as reordered; no other packet is.
pub proof fn law_held_packet_comes_out(s: PipelineView, pkt: PacketView, tick: u64, d: Draws)
    requires
        !s.down(tick, d),
        !s.loses(d),
        !s.over_budget(pkt),
    ensures
        s.fate(pkt, tick, d) is Delivered,
        s.fate(pkt, tick, d)->reordered <==> s.reorder_pending is Some
            && s.reorder_pending->Some_0.1 <= tick,
        s.fate(pkt, tick, d)->reordered ==> s.after(pkt, tick, d).reorder_pending is None,
{
}

/// The number of the packet that the fate is of.
pub open spec fn number_of(r: PacketResult) -> u64 {
    match r {
        PacketResult::Delivered { seq, .. } => seq,
        PacketResult::Dropped { seq } => seq,
        PacketResult::ConnectionDown { seq } => seq,
    }
}

/// The fate that a packet meets is its own.
pub proof fn law_fate_is_its_own(s: PipelineView, pkt: PacketView, tick: u64, d: Draws)
    ensures
        number_of(s.fate(pkt, tick, d)) == pkt.seq,
{
}

/// A run has one fate per packet, in the order in which they were sent.
pub proof fn law_one_fate_per_packet(
    s: PipelineView,
    pkts: Seq<PacketView>,
    tick: u64,
    draws: Seq<Draws>,
)
    ensures
        s.fates(pkts, tick, draws).len() == pkts.len(),
        forall|i: int|
            0 <= i < pkts.len() ==> number_of(#[trigger] s.fates(pkts, tick, draws)[i])
                == pkts[i].seq,
    decreases pkts.len(),
{
    if pkts.len() > 0 {
        let front = s.fates(pkts.drop_last(), tick, draws.drop_last());
        law_one_fate_per_packet(s, pkts.drop_last(), tick, draws.drop_last());
        assert forall|i: int| 0 <= i < pkts.len() implies number_of(
            #[trigger] s.fates(pkts, tick, draws)[i],
        ) == pkts[i].seq by {
            if i < pkts.len() - 1 {
                assert(s.fates(pkts, tick, draws)[i] == front[i]);
            }
        }
    }
}

/// Over whole milliseconds, a packet takes the latency and the jitter
/// together, and no time where the jitter is negative and takes it all.
pub proof fn law_delay_is_latency_and_jitter(latency: u64, jitter: u64)
    requires
        latency + jitter < 2 * STEP,
    ensures
        delay_of(counted(latency), counted(jitter)) == latency + jitter,
        delay_of(counted(latency), counted(jitter).negation()) == (if latency > jitter {
            latency - jitter
        } else {
            0
        }),
{
    let u = pow2(UNIT_DOUBLINGS as nat);
    lemma_pow2_pos(UNIT_DOUBLINGS as nat);
    let zero = Reading { bits: ZERO };
    law_counts_are_exact(latency);
    law_counts_are_exact(jitter);
    law_counts_are_exact((latency + jitter) as u64);
    law_positions_follow_values(zero, zero);
    law_positions_follow_values(zero, counted(latency));
    assert(greater(counted(latency), zero) == counted(latency));
    let exact = counted(latency).value() + counted(jitter).value();
    assert(exact == (latency + jitter) * u && latency * u >= 0 && jitter * u >= 0)
        by (nonlinear_arith)
        requires
            exact == latency * u + jitter * u,
            latency >= 0,
            jitter >= 0,
            u > 0,
    ;
    let all = (latency + jitter) as u64;
    assert((all * u == 0 ==> all == 0) && all * u >= 0) by (nonlinear_arith)
        requires
            all >= 0,
            u > 0,
    ;
    lemma_count_of_nothing();
    assert(sum(counted(latency), counted(jitter)) == counted(all));
    assert(counted(jitter).negation().value() == -counted(jitter).value());
    let rest = counted(latency).value() - counted(jitter).value();
    assert(rest == (latency - jitter) * u) by (nonlinear_arith)
        requires
            rest == latency * u - jitter * u,
    ;
    if latency > jitter {
        let left = (latency - jitter) as u64;
        law_counts_are_exact(left);
        law_counts_are_positive(left);
        assert(left * u > 0) by (nonlinear_arith)
            requires
                left > 0,
                u > 0,
        ;
        assert(sum(counted(latency), counted(jitter).negation()) == counted(left));
    } else {
        assert(rest <= 0) by (nonlinear_arith)
            requires
                rest == (latency - jitter) * u,
                latency <= jitter,
                u > 0,
        ;
        let s = sum(counted(latency), counted(jitter).negation());
        assert(s.position() <= 0);
        assert(greater(s, zero).position() == 0);
        law_counts_are_exact(0);
    }
}

proof fn lemma_count_of_nothing()
    ensures
        counted(0).bits == ZERO,
        truncated(Reading { bits: ZERO }) == 0,
{
    let u = pow2(UNIT_DOUBLINGS as nat);
    assert(0 * u == 0) by (nonlinear_arith);
    law_rounds_no_higher(0 * u, 1, ZERO);
    law_counts_are_exact(0);
}

/// A packet that the connection takes is dropped where chance loses it, as
/// long as there is loss at all, and where it has more bits than the bandwidth
/// lets pass in a millisecond, as long as that is limited; every other one is
/// delivered.
pub proof fn law_drops_have_their_reasons(s: PipelineView, pkt: PacketView, tick: u64, d: Draws)
    requires
        s.profile.failure == FailureMode::Steady,
        s.packets_processed < u64::MAX,
        s.packets_dropped < u64::MAX,
    ensures
        ({
            let lossy = !s.profile.loss_ratio.is_nan() && s.profile.loss_ratio.position() > 0;
            let narrow = s.profile.bandwidth_bps >= 1000 && pkt.payload.len() * 8
                > s.profile.bandwidth_bps / 1000;
            &&& s.fate(pkt, tick, d) == (PacketResult::Dropped { seq: pkt.seq }) <==> (lossy
                && d.lost) || narrow
            &&& s.fate(pkt, tick, d) is Dropped || s.fate(pkt, tick, d) is Delivered
            &&& s.fate(pkt, tick, d) is Dropped ==> s.after(pkt, tick, d).packets_dropped
                == s.packets_dropped + 1
            &&& s.fate(pkt, tick, d) is Delivered ==> s.after(pkt, tick, d).packets_dropped
                == s.packets_dropped
        }),
{
}

/// Every packet is counted once, whatever becomes of it, and no packet changes
/// the profile.
pub proof fn law_every_packet_is_counted(s: PipelineView, pkt: PacketView, tick: u64, d: Draws)
    requires
        s.packets_processed < u64::MAX,
    ensures
        s.after(pkt, tick, d).packets_processed == s.packets_processed + 1,
        s.after(pkt, tick, d).profile == s.profile,
{
}

/// A delivered packet takes the latency of the profile and the jitter that was
/// drawn for it, where there is jitter at all.
pub proof fn law_delivery_takes_its_delay(s: PipelineView, pkt: PacketView, tick: u64, d: Draws)
    requires
        s.fate(pkt, tick, d) is Delivered,
    ensures
        !s.profile.jitter_ms.is_nan() && s.profile.jitter_ms.position() > 0 ==> s.fate(
            pkt,
            tick,
            d,
        )->delay_ms == delay_of(s.profile.latency_ms, d.jitter_ms),
        s.profile.jitter_ms.is_nan() || s.profile.jitter_ms.position() <= 0 ==> s.fate(
            pkt,
            tick,
            d,
        )->delay_ms == delay_of(s.profile.latency_ms, Reading { bits: ZERO }),
{
}

/// A delivered packet is held back where chance says so, as long as there is
/// reordering at all and no other packet comes out with it; it is then in
/// flight until it comes out.
pub proof fn law_held_packet_is_in_flight(s: PipelineView, pkt: PacketView, tick: u64, d: Draws)
    requires
        s.profile.failure == FailureMode::Steady,
        s.fate(pkt, tick, d) is Delivered,
        s.reorder_pending is None,
        s.bytes_in_flight + pkt.payload.len() <= u64::MAX,
    ensures
        ({
            let after = s.after(pkt, tick, d);
            let reorders = !s.profile.reorder_ratio.is_nan() && s.profile.reorder_ratio.position()
                > 0;
            &&& reorders && d.held ==> after.reorder_pending == Some((pkt, tick))
                && after.bytes_in_flight == s.bytes_in_flight + pkt.payload.len()
            &&& !(reorders && d.held) ==> after.reorder_pending is None && after.bytes_in_flight
                == s.bytes_in_flight
        }),
{
}

/// An outage is over at its tick: from then on a packet finds the connection
/// up, unless another outage begins with it.
pub proof fn law_outage_ends(s: PipelineView, pkt: PacketView, tick: u64, d: Draws, until: u64)
    requires
        s.profile.failure is Intermittent,
        s.down_until_tick == Some(until),
    ensures
        tick < until ==> s.fate(pkt, tick, d) is ConnectionDown && s.after(
            pkt,
            tick,
            d,
        ).down_until_tick == Some(until),
        tick >= until && !d.outage ==> !(s.fate(pkt, tick, d) is ConnectionDown) && s.after(
            pkt,
            tick,
            d,
        ).down_until_tick is None,
{
}

/// A reset and an outage cut off what is in flight and held back.
pub proof fn law_cut_loses_what_is_in_flight(s: PipelineView, pkt: PacketView, tick: u64, d: Draws)
    requires
        s.fate(pkt, tick, d) is ConnectionDown,
        s.down_until_tick is None,
        s.resets < u64::MAX,
    ensures
        s.after(pkt, tick, d).bytes_in_flight == 0,
        s.after(pkt, tick, d).reorder_pending is None,
        s.after(pkt, tick, d).resets == s.resets + 1,
        s.after(pkt, tick, d).packets_dropped == s.packets_dropped,
{
}

/// What is measured as lost is every packet that was not delivered, and what
/// is measured as down every one that found the connection so.
pub proof fn law_measured_losses_are_the_undelivered(results: Seq<PacketResult>)
    ensures
        count_lost(results) == results.filter(|r: PacketResult| !(r is Delivered)).len(),
        count_down(results) == results.filter(|r: PacketResult| r is ConnectionDown).len(),
        count_down(results) <= count_lost(results) <= results.len(),
    decreases results.len(),
{
    reveal(Seq::filter);
    if results.len() > 0 {
        law_measured_losses_are_the_undelivered(results.drop_last());
    }
}

/// An outage lasts for some time, and for no longer than it is set to.
pub proof fn law_outage_is_as_long_as_set(s: PipelineView, down_ratio: Reading, mean_down_ms: u64)
    requires
        s.profile.failure == (FailureMode::Intermittent { down_ratio, mean_down_ms }),
    ensures
        s.longest_outage() >= 1,
        mean_down_ms >= 1 ==> s.longest_outage() == mean_down_ms,
{
}

} // verus!
