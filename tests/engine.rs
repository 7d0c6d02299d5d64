use rankflow::compaction::EdgeKey;
use rankflow::engine::{net_change, BatchError, Engine, INITIAL_RANK};
use rankflow::stash::Stash;
use rankflow::summary::{summarize, BatchSummary};

fn scenario_b_engine() -> Engine {
    let mut e = Engine::new();
    e.apply_edge_delta(0, 1, 1);
    e.apply_edge_delta(0, 2, 1);
    e
}

#[test]
fn new_engine_nodes_start_with_initial_rank() {
    let e = Engine::new();
    assert_eq!(INITIAL_RANK, 1000);
    assert_eq!(e.rank(0), 1000);
    assert_eq!(e.rank(12345), 1000);
    assert!(e.out_edges(3).is_empty());
}

#[test]
fn scenario_a_first_edge_sends_833() {
    let mut e = Engine::new();
    let out = e.apply_edge_delta(0, 1, 1);
    assert_eq!(out, vec![(1, 833)]);
    assert_eq!(e.out_edges(0), vec![(1, 1)]);
    assert_eq!(e.rank(0), 1000);
}

#[test]
fn scenario_b_second_edge_splits_mass() {
    let mut e = Engine::new();
    e.apply_edge_delta(0, 1, 1);
    let out = e.apply_edge_delta(0, 2, 1);
    // share 416, 416 % 2 = 0: both edges get 416.
    assert_eq!(out, vec![(1, -417), (2, 416)]);
    assert_eq!(e.out_edges(0), vec![(1, 1), (2, 1)]);
}

#[test]
fn scenario_c_rank_delta_redistributes() {
    let mut e = scenario_b_engine();
    let out = e.apply_rank_delta(0, 1000);
    assert_eq!(e.rank(0), 2000);
    // old: 416 and 416; new: share 833, one extra unit to the first edge.
    assert_eq!(out, vec![(1, 418), (2, 417)]);
}

#[test]
fn zero_rank_delta_emits_nothing() {
    let mut e = scenario_b_engine();
    assert!(e.apply_rank_delta(0, 0).is_empty());
    assert_eq!(e.rank(0), 1000);
}

#[test]
fn zero_edge_delta_emits_nothing() {
    let mut e = scenario_b_engine();
    assert!(e.apply_edge_delta(0, 1, 0).is_empty());
    assert!(e.apply_edge_delta(0, 7, 0).is_empty());
    assert_eq!(e.out_edges(0), vec![(1, 1), (2, 1)]);
}

#[test]
fn removing_the_only_edge_retracts_everything() {
    let mut e = Engine::new();
    e.apply_edge_delta(4, 9, 2);
    let out = e.apply_edge_delta(4, 9, -2);
    assert_eq!(out, vec![(9, -832)]);
    assert!(e.out_edges(4).is_empty());
}

#[test]
fn rank_delta_on_node_without_edges_emits_nothing() {
    let mut e = Engine::new();
    assert!(e.apply_rank_delta(3, -400).is_empty());
    assert_eq!(e.rank(3), 600);
}

#[test]
fn net_change_is_new_minus_old_per_destination() {
    let old_edges = [(1usize, 1i64), (3, 2)];
    let new_edges = [(1usize, 1i64), (2, 1), (3, 2)];
    let out = net_change(1200, &old_edges, 900, &new_edges);
    // old: 1000 / 3 = 333, 333 % 2 = 1 -> (1, 334), (3, 666)
    // new: 750 / 4 = 187, 187 % 3 = 1 -> (1, 188), (2, 187), (3, 374)
    assert_eq!(out, vec![(1, -146), (2, 187), (3, -292)]);
}

#[test]
fn net_change_of_identical_allocations_is_empty() {
    let edges = [(1usize, 3i64), (4, 1)];
    assert!(net_change(777, &edges, 777, &edges).is_empty());
}

#[test]
fn try_apply_edge_delta_refuses_negative_weight() {
    let mut e = Engine::new();
    assert_eq!(e.try_apply_edge_delta(0, 1, -1), None);
    assert!(e.out_edges(0).is_empty());
    assert_eq!(e.try_apply_edge_delta(0, 1, 1), Some(vec![(1, 833)]));
}

#[test]
fn try_apply_edge_delta_refuses_weight_overflow() {
    let mut e = Engine::new();
    e.apply_edge_delta(0, 1, 1);
    assert_eq!(e.try_apply_edge_delta(0, 1, i64::MAX), None);
    assert_eq!(e.out_edges(0), vec![(1, 1)]);
}

#[test]
fn try_apply_rank_delta_refuses_negative_rank_with_edges() {
    let mut e = scenario_b_engine();
    assert_eq!(e.try_apply_rank_delta(0, -1001), None);
    assert_eq!(e.rank(0), 1000);
    let mut lone = Engine::new();
    assert_eq!(lone.try_apply_rank_delta(5, -1001), Some(vec![]));
    assert_eq!(lone.rank(5), -1);
}

#[test]
fn stash_drains_ready_timestamps_in_order() {
    let mut s: Stash<usize> = Stash::new();
    assert!(s.is_empty());
    s.push(5, 1, 10);
    s.push(2, 3, 1);
    s.push(5, 1, -4);
    s.push(9, 0, 7);
    s.push(2, 1, 2);
    let ready = s.drain_ready(6);
    assert_eq!(ready, vec![(2, vec![(3, 1), (1, 2)]), (5, vec![(1, 10), (1, -4)])]);
    assert!(!s.is_empty());
    assert!(s.drain_ready(9).is_empty());
    assert_eq!(s.drain_ready(10), vec![(9, vec![(0, 7)])]);
    assert!(s.is_empty());
}

#[test]
fn process_edge_batch_compacts_then_applies_in_order() {
    let mut e = Engine::new();
    let mut batch = vec![
        (EdgeKey { src: 0, dst: 2 }, 1),
        (EdgeKey { src: 0, dst: 1 }, 1),
        (EdgeKey { src: 1, dst: 0 }, 1),
        (EdgeKey { src: 0, dst: 3 }, 1),
        (EdgeKey { src: 0, dst: 3 }, -1),
    ];
    let out = e.process_edge_batch(&mut batch).unwrap();
    assert_eq!(
        batch,
        vec![(EdgeKey { src: 0, dst: 1 }, 1), (EdgeKey { src: 0, dst: 2 }, 1), (EdgeKey { src: 1, dst: 0 }, 1)]
    );
    assert_eq!(out, vec![(1, 833), (1, -417), (2, 416), (0, 833)]);
}

#[test]
fn process_edge_batch_reports_inadmissible_record() {
    let mut e = Engine::new();
    let mut batch = vec![(EdgeKey { src: 0, dst: 1 }, 1), (EdgeKey { src: 0, dst: 2 }, -3)];
    assert_eq!(e.process_edge_batch(&mut batch), Err(BatchError::Inadmissible(1)));
    assert_eq!(e.out_edges(0), vec![(1, 1)]);
}

#[test]
fn process_edge_batch_reports_overflow() {
    let mut e = Engine::new();
    let mut batch = vec![(EdgeKey { src: 0, dst: 1 }, i64::MAX), (EdgeKey { src: 0, dst: 1 }, 1)];
    assert_eq!(e.process_edge_batch(&mut batch), Err(BatchError::Overflow));
}

#[test]
fn process_rank_batch_applies_and_summarizes() {
    let mut e = scenario_b_engine();
    let mut batch = vec![(0usize, 600), (7, -5), (0, 400), (7, 5), (2, -30)];
    let (out, summary) = e.process_rank_batch(&mut batch).unwrap();
    assert_eq!(batch, vec![(0, 1000), (2, -30)]);
    assert_eq!(out, vec![(1, 418), (2, 417)]);
    assert_eq!(summary, BatchSummary { count: 2, abs_sum: 1030, max_abs: 1000 });
    assert_eq!(e.rank(2), 970);
}

#[test]
fn process_empty_batches_do_nothing() {
    let mut e = Engine::new();
    let mut edges: Vec<(EdgeKey, i64)> = Vec::new();
    let mut ranks: Vec<(usize, i64)> = Vec::new();
    assert_eq!(e.process_edge_batch(&mut edges), Ok(vec![]));
    let (out, summary) = e.process_rank_batch(&mut ranks).unwrap();
    assert!(out.is_empty());
    assert_eq!(summary, BatchSummary { count: 0, abs_sum: 0, max_abs: 0 });
}

#[test]
fn summarize_counts_sums_and_maximum() {
    let records: Vec<(usize, i64)> = vec![(1, -5), (2, 3), (4, 0)];
    assert_eq!(summarize(&records), BatchSummary { count: 3, abs_sum: 8, max_abs: 5 });
    let extreme: Vec<(usize, i64)> = vec![(0, i64::MIN), (1, i64::MAX)];
    let s = summarize(&extreme);
    assert_eq!(s.max_abs, 1u64 << 63);
    assert_eq!(s.abs_sum, (1u128 << 64) - 1);
}
