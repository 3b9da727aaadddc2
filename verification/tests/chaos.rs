//! Simulated networks: presets, fates of packets, and runs over them.
use radin::chaos::pipeline::{Draws, PacketRecord, PacketResult, PipelineState};
use radin::chaos::profile::{ChaosProfile, FailureMode};
use radin::reading::Reading;
use rand::rngs::StdRng;
use rand::Rng;

fn r(x: f64) -> Reading {
    Reading { bits: x.to_bits() }
}

fn f(x: Reading) -> f64 {
    f64::from_bits(x.bits)
}

fn chance(rng: &mut StdRng, p: Reading) -> bool {
    rng.gen_bool(f(p))
}

fn around(rng: &mut StdRng, most: Reading) -> Reading {
    r(rng.gen_range(-f(most)..=f(most)))
}

fn run(p: &mut PipelineState, n: u64, tick: u64) -> Vec<PacketResult> {
    p.run(n, tick, &chance, &around)
}

fn packet(seq: u64, tick: u64, size: usize) -> PacketRecord {
    PacketRecord { seq, payload: vec![0u8; size], at_tick: tick }
}

fn quiet() -> Draws {
    Draws { outage: false, outage_ms: 1, lost: false, jitter_ms: r(0.0), held: false }
}

#[test]
fn pristine_profile_has_zero_loss_and_no_resets() {
    let mut p = PipelineState::from_profile(ChaosProfile::with_latency(r(30.0)), 1);
    let (_, ratio, dropped, resets) = PipelineState::measure(&run(&mut p, 1000, 0));
    assert_eq!(dropped, 0);
    assert_eq!(resets, 0);
    assert_eq!(f(ratio), 0.0);
}

#[test]
fn loss_ratio_is_approximated_statistically() {
    for loss in [0.0, 0.005, 0.01, 0.03, 0.05, 0.10] {
        let mut p = PipelineState::from_profile(ChaosProfile::with_loss(r(loss)), 42);
        let (_, ratio, _, _) = PipelineState::measure(&run(&mut p, 20_000, 0));
        let tolerance = 0.02;
        assert!(
            (f(ratio) - loss).abs() < tolerance,
            "loss {loss}: measured {:.4} outside +-{tolerance}",
            f(ratio)
        );
    }
}

#[test]
fn latency_profile_delivers_with_delay() {
    let mut p = PipelineState::from_profile(ChaosProfile::with_latency(r(120.0)), 7);
    let results = run(&mut p, 100, 0);
    let delivered: Vec<&PacketResult> =
        results.iter().filter(|r| matches!(r, PacketResult::Delivered { .. })).collect();
    let first_delay = match delivered[0] {
        PacketResult::Delivered { delay_ms, .. } => *delay_ms,
        _ => 0,
    };
    assert!(first_delay >= 120);
}

#[test]
fn resets_trigger_on_connection_failure_mode() {
    let mut p = PipelineState::from_profile(
        ChaosProfile::with_failure(FailureMode::ResetEveryPackets(25)),
        3,
    );
    let results = run(&mut p, 200, 0);
    let resets =
        results.iter().filter(|r| matches!(r, PacketResult::ConnectionDown { .. })).count();
    assert!(resets > 0, "expected at least one connection reset");
    assert_eq!(p.resets, resets as u64);
}

#[test]
fn deterministic_seed_reproduces_fates() {
    let mut a = PipelineState::from_profile(ChaosProfile::with_loss(r(0.05)), 99);
    let mut b = PipelineState::from_profile(ChaosProfile::with_loss(r(0.05)), 99);
    let ra = run(&mut a, 2000, 0);
    let rb = run(&mut b, 2000, 0);
    assert_eq!(ra, rb, "seeded chaos must be reproducible");
}

#[test]
fn reordering_can_emit_out_of_order() {
    let mut p = PipelineState::from_profile(ChaosProfile::with_reordering(r(1.0)), 5);
    let results = run(&mut p, 50, 0);
    let reordered = results
        .iter()
        .filter(|r| matches!(r, PacketResult::Delivered { reordered: true, .. }))
        .count();
    assert!(reordered > 0);
}

#[test]
fn bandwidth_cap_drops_oversize_bursts() {
    let mut p = PipelineState::from_profile(
        ChaosProfile { bandwidth_bps: 8_000, latency_ms: r(30.0), ..ChaosProfile::default() },
        11,
    );
    let (_, _, dropped, _) = PipelineState::measure(&run(&mut p, 1000, 0));
    assert!(dropped > 0, "packets should exceed the byte budget");
}

#[test]
fn matrix_presets_map_to_the_38_table() {
    assert_eq!(f(ChaosProfile::with_latency(r(300.0)).latency_ms), 300.0);
    assert_eq!(f(ChaosProfile::with_jitter(r(50.0)).jitter_ms), 50.0);
    assert_eq!(f(ChaosProfile::with_loss(r(0.10)).loss_ratio), 0.10);
    assert_eq!(ChaosProfile::with_bandwidth(1_000_000).bandwidth_bps, 1_000_000);
}

#[test]
fn defaults_are_benign() {
    let p = ChaosProfile::default();
    assert_eq!(f(p.latency_ms), 0.0);
    assert_eq!(f(p.loss_ratio), 0.0);
    assert!(p.bandwidth_bps == 0);
}

#[test]
fn matrix_loss_axis_is_reproducible_and_approximate() {
    for loss in [0.0, 0.005, 0.01, 0.03, 0.05, 0.10] {
        let mut p = PipelineState::from_profile(ChaosProfile::with_loss(r(loss)), 4242);
        let results = run(&mut p, 50_000, 0);
        let dropped = results
            .iter()
            .filter(|r| {
                matches!(r, PacketResult::Dropped { .. } | PacketResult::ConnectionDown { .. })
            })
            .count();
        let measured = dropped as f64 / results.len() as f64;
        let tolerance = 0.02;
        assert!(
            (measured - loss).abs() < tolerance,
            "loss target {loss}: measured {measured:.4}"
        );
    }
}

#[test]
fn matrix_jitter_axis_produces_variance_around_base() {
    for jitter_ms in [1.0, 5.0, 20.0, 50.0] {
        let mut p = PipelineState::from_profile(ChaosProfile::with_jitter(r(jitter_ms)), 7);
        let results = run(&mut p, 30_000, 0);
        let delays: Vec<u64> = results
            .iter()
            .filter_map(|r| match r {
                PacketResult::Delivered { delay_ms, .. } => Some(*delay_ms),
                _ => None,
            })
            .collect();
        assert!(!delays.is_empty());
        let min = *delays.iter().min().unwrap() as f64;
        let max = *delays.iter().max().unwrap() as f64;
        assert!(
            (max - min) >= 1.0,
            "jitter {jitter_ms} ms must vary delivery: min {min} max {max}"
        );
        let mean = delays.iter().map(|d| *d as f64).sum::<f64>() / delays.len() as f64;
        assert!(
            (mean - 30.0).abs() <= jitter_ms + 2.0,
            "mean {mean:.2} too far from base for jitter {jitter_ms}"
        );
    }
}

#[test]
fn matrix_latency_axis_delivers_at_least_target() {
    for latency in [30.0, 70.0, 120.0, 200.0, 300.0] {
        let mut p = PipelineState::from_profile(ChaosProfile::with_latency(r(latency)), 31);
        let results = run(&mut p, 10_000, 0);
        let first = results
            .iter()
            .find_map(|r| match r {
                PacketResult::Delivered { delay_ms, .. } => Some(*delay_ms as f64),
                _ => None,
            })
            .unwrap();
        assert!(first >= latency, "expected >= {latency} ms, got {first}");
    }
}

#[test]
fn matrix_reset_axis_triggers_connection_downs() {
    let mut p = PipelineState::from_profile(
        ChaosProfile::with_failure(FailureMode::ResetEveryPackets(50)),
        13,
    );
    let n = 1_000;
    let results = run(&mut p, n, 0);
    let downs = results.iter().filter(|r| matches!(r, PacketResult::ConnectionDown { .. })).count();
    let expected = n / 50;
    assert!(
        (downs as i64 - expected as i64).abs() <= 1,
        "reset every 50: expected ~{expected}, got {downs}"
    );
    assert_eq!(p.resets, downs as u64);
}

#[test]
fn matrix_intermittent_mode_blocks_packets_in_down_window() {
    let mut p = PipelineState::from_profile(
        ChaosProfile::with_failure(FailureMode::Intermittent {
            down_ratio: r(0.5),
            mean_down_ms: 200,
        }),
        5,
    );
    let results = run(&mut p, 5_000, 0);
    let downs = results.iter().filter(|r| matches!(r, PacketResult::ConnectionDown { .. })).count();
    assert!(downs > 100, "intermittent 0.5 down-ratio must drop many packets, got {downs}");
}

#[test]
fn synthetic_marker_is_never_false() {
    let mut p = PipelineState::from_profile(ChaosProfile::pristine(), 1);
    assert!(run(&mut p, 10, 0).len() == 10);
}

#[test]
fn resets_come_at_every_multiple() {
    let mut p = PipelineState::from_profile(
        ChaosProfile::with_failure(FailureMode::ResetEveryPackets(3)),
        1,
    );
    let results = run(&mut p, 7, 0);
    for (i, fate) in results.iter().enumerate() {
        let down = matches!(fate, PacketResult::ConnectionDown { .. });
        assert_eq!(down, (i + 1) % 3 == 0);
    }
}

#[test]
fn a_held_packet_comes_out_with_the_next_one() {
    let mut p = PipelineState::from_profile(ChaosProfile::with_reordering(r(1.0)), 1);
    let held = Draws { held: true, ..quiet() };
    let first = p.settle(packet(0, 10, 64), 10, &held);
    assert_eq!(first, PacketResult::Delivered { seq: 0, delay_ms: 30, reordered: false });
    assert_eq!(p.bytes_in_flight, 64);
    let second = p.settle(packet(1, 15, 64), 15, &quiet());
    assert_eq!(second, PacketResult::Delivered { seq: 1, delay_ms: 30, reordered: true });
    assert_eq!(p.bytes_in_flight, 0);
    assert!(p.reorder_pending.is_none());
    let third = p.settle(packet(2, 20, 64), 20, &quiet());
    assert_eq!(third, PacketResult::Delivered { seq: 2, delay_ms: 30, reordered: false });
}

#[test]
fn a_run_reports_every_number_once() {
    let mut p = PipelineState::from_profile(ChaosProfile::with_reordering(r(1.0)), 1);
    let numbers: Vec<u64> = run(&mut p, 4, 0)
        .iter()
        .map(|fate| match fate {
            PacketResult::Delivered { seq, .. } => *seq,
            PacketResult::Dropped { seq } => *seq,
            PacketResult::ConnectionDown { seq } => *seq,
        })
        .collect();
    assert_eq!(numbers, vec![0, 1, 2, 3]);
}

#[test]
fn an_outage_lasts_its_draw() {
    let mode = FailureMode::Intermittent { down_ratio: r(0.5), mean_down_ms: 200 };
    let mut p = PipelineState::from_profile(ChaosProfile::with_failure(mode), 1);
    let begins = Draws { outage: true, outage_ms: 40, ..quiet() };
    assert_eq!(
        p.settle(packet(0, 100, 8), 100, &begins),
        PacketResult::ConnectionDown { seq: 0 }
    );
    assert_eq!(p.down_until_tick, Some(140));
    assert_eq!(
        p.settle(packet(1, 139, 8), 139, &quiet()),
        PacketResult::ConnectionDown { seq: 1 }
    );
    assert_eq!(
        p.settle(packet(2, 140, 8), 140, &quiet()),
        PacketResult::Delivered { seq: 2, delay_ms: 30, reordered: false }
    );
    assert_eq!(p.resets, 1);
}

#[test]
fn a_delay_is_latency_and_jitter_cut_to_whole_milliseconds() {
    let mut p = PipelineState::from_profile(ChaosProfile::with_jitter(r(50.0)), 1);
    for (jitter, delay) in [(12.9, 42), (-0.5, 29), (-45.0, 0), (0.0, 30)] {
        let d = Draws { jitter_ms: r(jitter), ..quiet() };
        assert_eq!(
            p.settle(packet(9, 0, 1), 0, &d),
            PacketResult::Delivered { seq: 9, delay_ms: delay, reordered: false }
        );
    }
}

#[test]
fn draws_without_a_chance_are_without_effect() {
    let mut p = PipelineState::from_profile(ChaosProfile::pristine(), 1);
    let all = Draws { outage: true, outage_ms: 1, lost: true, jitter_ms: r(7.0), held: true };
    assert_eq!(
        p.settle(packet(3, 0, 64), 0, &all),
        PacketResult::Delivered { seq: 3, delay_ms: 30, reordered: false }
    );
}

#[test]
fn nothing_measured_is_no_loss() {
    let (fates, ratio, lost, down) = PipelineState::measure(&[]);
    assert!(fates.is_empty());
    assert_eq!((f(ratio), lost, down), (0.0, 0, 0));
    let mixed = [
        PacketResult::Delivered { seq: 0, delay_ms: 1, reordered: false },
        PacketResult::Dropped { seq: 1 },
        PacketResult::ConnectionDown { seq: 2 },
        PacketResult::Delivered { seq: 3, delay_ms: 1, reordered: false },
    ];
    let (_, ratio, lost, down) = PipelineState::measure(&mixed);
    assert_eq!((f(ratio), lost, down), (0.5, 2, 1));
}

#[test]
fn the_seed_decides_the_run() {
    let mode = FailureMode::Intermittent { down_ratio: r(0.3), mean_down_ms: 50 };
    let mut a = PipelineState::seed_from(ChaosProfile::with_failure(mode), 1);
    let mut b = PipelineState::seed_from(ChaosProfile::with_failure(mode), 2);
    let (mut ra, mut rb) = (Vec::new(), Vec::new());
    for tick in 0..400 {
        ra.extend(run(&mut a, 1, tick));
        rb.extend(run(&mut b, 1, tick));
    }
    assert_ne!(ra, rb);
    let longest = ra
        .split(|x| matches!(x, PacketResult::Delivered { .. }))
        .map(|down| down.len())
        .max()
        .unwrap();
    assert!(longest > 1, "an outage is drawn to last");
}
