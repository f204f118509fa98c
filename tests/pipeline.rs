use arb_engine::graph::{Edge, PendingTx, Swap};
use arb_engine::pool::{edge_weight, log2_fixed, swap_output, Pool};
use arb_engine::registry::PoolRegistry;
use arb_engine::search::DEFAULT_MAX_HOPS;
use arb_engine::simulate::{SimError, SimSettings};
use arb_engine::strike::{
    analyze_pending, decide, saturation_outcome, AnalysisSettings, ChannelResult,
    Disqualification, GateReading, StrikeDecision, StrikeOutcome, StrikeSettings,
};

const A: u64 = 1;
const B: u64 = 2;
const C: u64 = 3;
const UNIT: u64 = 1_000_000_000;
const DEPTH: u64 = 1_000_000 * UNIT;

fn pool(id: u64, a: u64, b: u64, ra: u64, rb: u64) -> Pool {
    Pool { id, asset_a: a, asset_b: b, reserve_a: ra, reserve_b: rb, fee_bps: 30, updated_at: 100 }
}

/// A–B at 2.0, B–C at 0.5 and C–A at `ca_milli / 1000`, each with a 0.3% fee.
fn triangle(ca_milli: u64) -> PoolRegistry {
    let mut reg = PoolRegistry::new();
    reg.upsert(pool(10, A, B, DEPTH, 2 * DEPTH));
    reg.upsert(pool(20, B, C, 2 * DEPTH, DEPTH));
    reg.upsert(pool(30, C, A, DEPTH, DEPTH / 1000 * ca_milli));
    reg
}

fn sim_settings(gas_cost: u64) -> SimSettings {
    SimSettings { freshness_bound: 60, gas_cost }
}

fn route(cycle: &[Edge]) -> Vec<(u64, u64, u64)> {
    cycle.iter().map(|e| (e.pool_id, e.from, e.to)).collect()
}

fn forward() -> Vec<(u64, u64, u64)> {
    vec![(10, A, B), (20, B, C), (30, C, A)]
}

#[test]
fn profitable_triangle_is_found() {
    let reg = triangle(1020);
    let g = reg.build();
    let found = g.find_cycles(A, DEFAULT_MAX_HOPS);
    assert_eq!(found.len(), 1);
    assert_eq!(route(&found[0]), vec![(10, A, B), (20, B, C), (30, C, A)]);
    let total: i64 = found[0].iter().map(|e| e.weight).sum();
    assert!(total < 0);
}

#[test]
fn profitable_triangle_simulates_to_about_one_percent() {
    let reg = triangle(1020);
    let found = reg.build().find_cycles(A, DEFAULT_MAX_HOPS);
    let sim = reg.simulate(&found[0], UNIT, 110, sim_settings(1_000_000)).unwrap();
    assert!(sim.gross_output > 1_009_500_000 && sim.gross_output < 1_011_500_000);
    assert_eq!(sim.cost, 1_000_000);
    assert_eq!(sim.net_profit, sim.gross_output as i128 - UNIT as i128 - 1_000_000);
    assert!(sim.profitable);

    let costly = reg.simulate(&found[0], UNIT, 110, sim_settings(20_000_000)).unwrap();
    assert_eq!(costly.gross_output, sim.gross_output);
    assert!(costly.net_profit < 0);
    assert!(!costly.profitable);
}

#[test]
fn unprofitable_triangle_yields_no_cycle() {
    let reg = triangle(980);
    let g = reg.build();
    let forward_weight = g.edges[0].weight + g.edges[2].weight + g.edges[4].weight;
    assert!(forward_weight >= 0);
    let found = g.find_cycles(A, DEFAULT_MAX_HOPS);
    assert!(found.iter().all(|c| route(c) != forward()));
    // The opposite direction, A to C to B to A, pays 1.0112 before costs.
    assert_eq!(found.len(), 1);
    assert_eq!(route(&found[0]), vec![(30, A, C), (20, C, B), (10, B, A)]);
}

#[test]
fn overlay_reveals_cycle_absent_from_base() {
    let reg = triangle(980);
    let base = reg.build().find_cycles(A, DEFAULT_MAX_HOPS);
    assert!(base.iter().all(|c| route(c) != forward()));
    let tx = PendingTx { swaps: vec![Swap { pool_id: 20, a_to_b: false, amount_in: DEPTH / 10 }] };
    let found = reg.build_with_overlay(&tx).find_cycles(A, DEFAULT_MAX_HOPS);
    assert!(found.iter().any(|c| route(c) == forward()));
}

#[test]
fn overlay_leaves_registry_unchanged() {
    let reg = triangle(980);
    let before = reg.get_all();
    let tx = PendingTx { swaps: vec![Swap { pool_id: 20, a_to_b: false, amount_in: DEPTH / 10 }] };
    let base = reg.build();
    let over = reg.build_with_overlay(&tx);
    assert_eq!(reg.get_all(), before);
    assert_eq!(over.edges.len(), base.edges.len());
    assert_eq!(over.edges[0], base.edges[0]);
    assert_eq!(over.edges[1], base.edges[1]);
    assert_ne!(over.edges[2], base.edges[2]);
    assert_ne!(over.edges[3], base.edges[3]);
    assert_eq!(over.edges[4], base.edges[4]);
    assert_eq!(over.edges[5], base.edges[5]);
}

#[test]
fn overlay_on_unknown_pool_changes_nothing() {
    let reg = triangle(1020);
    let tx = PendingTx { swaps: vec![Swap { pool_id: 99, a_to_b: true, amount_in: DEPTH }] };
    assert_eq!(reg.build_with_overlay(&tx).edges, reg.build().edges);
}

#[test]
fn build_twice_gives_identical_weights() {
    let reg = triangle(1020);
    let first = reg.build();
    let second = reg.build();
    assert_eq!(first.edges, second.edges);
    assert_eq!(first.edges.len(), 6);
}

#[test]
fn search_twice_gives_identical_sequence() {
    let mut reg = triangle(1020);
    reg.upsert(pool(40, A, B, DEPTH, 2 * DEPTH));
    reg.upsert(pool(50, C, A, DEPTH, DEPTH / 1000 * 1030));
    let g = reg.build();
    let first = g.find_cycles(A, DEFAULT_MAX_HOPS);
    let second = g.find_cycles(A, DEFAULT_MAX_HOPS);
    assert_eq!(first, second);
    assert_eq!(first.len(), 5);
    assert_eq!(route(&first[2]), vec![(30, A, C), (50, C, A)]);
    assert_eq!(route(&first[0]), vec![(10, A, B), (20, B, C), (30, C, A)]);
    assert_eq!(route(&first[1]), vec![(10, A, B), (20, B, C), (50, C, A)]);
}

#[test]
fn hop_bound_excludes_longer_cycles() {
    let reg = triangle(1020);
    let g = reg.build();
    assert!(g.find_cycles(A, 2).is_empty());
    assert_eq!(g.find_cycles(A, 3).len(), 1);
}

#[test]
fn found_cycles_are_closed_chains() {
    let mut reg = triangle(1020);
    reg.upsert(pool(40, A, B, DEPTH, 2 * DEPTH));
    let found = reg.build().find_cycles(A, DEFAULT_MAX_HOPS);
    assert!(!found.is_empty());
    for c in &found {
        assert!(c.len() >= 2 && c.len() <= DEFAULT_MAX_HOPS);
        assert_eq!(c[0].from, A);
        assert_eq!(c[c.len() - 1].to, A);
        for w in c.windows(2) {
            assert_eq!(w[0].to, w[1].from);
            assert_ne!(w[0].from, w[1].to);
            assert_ne!(w[0].pool_id, w[1].pool_id);
        }
        assert!(c.iter().map(|e| e.weight).sum::<i64>() < 0);
    }
}

#[test]
fn missing_pool_is_a_fatal_simulation_error() {
    let reg = triangle(1020);
    let found = reg.build().find_cycles(A, DEFAULT_MAX_HOPS);
    let mut later = PoolRegistry::new();
    later.upsert(pool(10, A, B, DEPTH, 2 * DEPTH));
    later.upsert(pool(30, C, A, DEPTH, DEPTH / 1000 * 1020));
    let r = later.simulate(&found[0], UNIT, 110, sim_settings(0));
    assert!(matches!(r, Err(SimError::MissingPool(20))));
}

#[test]
fn stale_pool_makes_candidate_unprofitable() {
    let reg = triangle(1020);
    let found = reg.build().find_cycles(A, DEFAULT_MAX_HOPS);
    let sim = reg.simulate(&found[0], UNIT, 161, sim_settings(0)).unwrap();
    assert_eq!(sim.gross_output, 0);
    assert!(!sim.profitable);
    let fresh = reg.simulate(&found[0], UNIT, 160, sim_settings(0)).unwrap();
    assert!(fresh.profitable);
}

#[test]
fn worker_simulates_each_candidate() {
    let reg = triangle(1020);
    let settings = AnalysisSettings { base: A, max_hops: DEFAULT_MAX_HOPS, input: UNIT, sim: sim_settings(0) };
    let results = analyze_pending(&reg, &PendingTx { swaps: vec![] }, 110, settings);
    assert_eq!(results.len(), 1);
    let sim = results[0].as_ref().unwrap();
    assert!(sim.profitable);
    assert_eq!(route(&sim.path), vec![(10, A, B), (20, B, C), (30, C, A)]);
}

fn profitable_sim() -> arb_engine::simulate::SimulationResult {
    let reg = triangle(1020);
    let found = reg.build().find_cycles(A, DEFAULT_MAX_HOPS);
    reg.simulate(&found[0], UNIT, 110, sim_settings(1_000_000)).unwrap()
}

#[test]
fn gate_timeout_disqualifies() {
    let sim = profitable_sim();
    let settings = StrikeSettings { min_score: -100_000, priority_bps: 5000 };
    let d = decide(&sim, GateReading::TimedOut, settings);
    assert!(matches!(d, StrikeDecision::Disqualified(Disqualification::GateTimedOut)));
}

#[test]
fn gate_failure_and_low_score_disqualify() {
    let sim = profitable_sim();
    let settings = StrikeSettings { min_score: -100_000, priority_bps: 5000 };
    assert!(matches!(
        decide(&sim, GateReading::Failed, settings),
        StrikeDecision::Disqualified(Disqualification::GateFailed)
    ));
    assert!(matches!(
        decide(&sim, GateReading::Score(2_000_000), settings),
        StrikeDecision::Disqualified(Disqualification::GateFailed)
    ));
    assert!(matches!(
        decide(&sim, GateReading::Score(-100_000), settings),
        StrikeDecision::Disqualified(Disqualification::BelowThreshold)
    ));
}

#[test]
fn unprofitable_candidate_is_not_submitted() {
    let reg = triangle(1020);
    let found = reg.build().find_cycles(A, DEFAULT_MAX_HOPS);
    let sim = reg.simulate(&found[0], UNIT, 110, sim_settings(20_000_000)).unwrap();
    let settings = StrikeSettings { min_score: -100_000, priority_bps: 5000 };
    assert!(matches!(
        decide(&sim, GateReading::Score(500_000), settings),
        StrikeDecision::Disqualified(Disqualification::NotProfitable)
    ));
}

#[test]
fn passing_gate_builds_bundle() {
    let sim = profitable_sim();
    let settings = StrikeSettings { min_score: -100_000, priority_bps: 5000 };
    match decide(&sim, GateReading::Score(0), settings) {
        StrikeDecision::Submit(b) => {
            assert_eq!(b.steps, sim.path);
            assert_eq!(b.amount_in, UNIT);
            assert_eq!(b.priority_payment as i128, sim.net_profit * 5000 / 10000);
            assert!(b.priority_payment > 0);
        }
        StrikeDecision::Disqualified(_) => panic!("expected a submission"),
    }
}

#[test]
fn saturation_lands_on_any_acceptance() {
    assert_eq!(
        saturation_outcome(&vec![ChannelResult::Rejected, ChannelResult::Accepted, ChannelResult::Unknown]),
        StrikeOutcome::Landed
    );
    assert_eq!(
        saturation_outcome(&vec![ChannelResult::Rejected, ChannelResult::Unknown]),
        StrikeOutcome::Missed
    );
    assert_eq!(saturation_outcome(&vec![]), StrikeOutcome::Missed);
}

#[test]
fn registry_upsert_replaces_whole_state() {
    let mut reg = PoolRegistry::new();
    assert_eq!(reg.get(7), None);
    reg.upsert(pool(7, A, B, 10, 20));
    reg.upsert(pool(8, B, C, 30, 40));
    reg.upsert(pool(7, A, B, 11, 21));
    assert_eq!(reg.len(), 2);
    assert_eq!(reg.get(7), Some(pool(7, A, B, 11, 21)));
    assert_eq!(reg.get(8), Some(pool(8, B, C, 30, 40)));
    assert_eq!(reg.get_all(), vec![pool(7, A, B, 11, 21), pool(8, B, C, 30, 40)]);
}

#[test]
fn pool_validity() {
    assert!(pool(1, A, B, 1, 1).is_valid());
    assert!(!pool(1, A, A, 1, 1).is_valid());
    assert!(pool(1, A, B, 0, 1).is_valid());
    let mut p = pool(1, A, B, 1, 1);
    p.fee_bps = 10_000;
    assert!(!p.is_valid());
}

#[test]
fn edge_weight_values() {
    assert_eq!(edge_weight(1000, 2000, 0), -4_294_967_296);
    assert_eq!(edge_weight(2000, 1000, 0), 4_294_967_296);
    assert_eq!(edge_weight(1000, 1000, 0), 0);
    assert_eq!(edge_weight(1000, 1000, 30), 18_616_923);
}

#[test]
fn fixed_point_log_values() {
    assert_eq!(log2_fixed(1), 0);
    assert_eq!(log2_fixed(2), 1 << 32);
    assert_eq!(log2_fixed(1 << 70), 70 << 32);
    assert_eq!(log2_fixed(3), 6_807_362_105);
}

#[test]
fn weights_follow_profit_far_from_parity() {
    let mut reg = PoolRegistry::new();
    let mut p = pool(1, A, B, 1_000_000, 7_389_056);
    p.fee_bps = 0;
    reg.upsert(p);
    p = pool(2, B, C, 2_718_282, 1_000_000);
    p.fee_bps = 0;
    reg.upsert(p);
    p = pool(3, C, A, 2_459_603, 1_000_000);
    p.fee_bps = 0;
    reg.upsert(p);
    // A to B to C to A multiplies the rates to 1.105; the reverse loses 9.5%.
    let found = reg.build().find_cycles(A, DEFAULT_MAX_HOPS);
    assert_eq!(found.len(), 1);
    assert_eq!(route(&found[0]), vec![(1, A, B), (2, B, C), (3, C, A)]);
}

#[test]
fn swap_output_values() {
    assert_eq!(swap_output(1000, 1000, 1000, 0), 500);
    assert_eq!(swap_output(1000, 1000, 1000, 30), 498);
    assert_eq!(swap_output(0, 1000, 1000, 30), 0);
    assert_eq!(swap_output(u64::MAX, 1, u64::MAX, 0), u64::MAX - 1);
}

#[test]
fn drained_pool_is_stored_but_quotes_no_edges() {
    let mut reg = triangle(1020);
    reg.upsert(pool(20, B, C, 0, DEPTH));
    assert_eq!(reg.get(20), Some(pool(20, B, C, 0, DEPTH)));
    let g = reg.build();
    assert_eq!(g.edges.len(), 4);
    assert!(g.edges.iter().all(|e| e.pool_id != 20));
    assert!(g.find_cycles(A, DEFAULT_MAX_HOPS).is_empty());
    let path = vec![
        Edge { pool_id: 10, from: A, to: B, weight: 0 },
        Edge { pool_id: 20, from: B, to: C, weight: 0 },
        Edge { pool_id: 30, from: C, to: A, weight: 0 },
    ];
    let sim = reg.simulate(&path, UNIT, 110, sim_settings(0)).unwrap();
    assert_eq!(sim.gross_output, 0);
    assert!(!sim.profitable);
}
