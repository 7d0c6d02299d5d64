use rankflow::allocation::{allocate, allocation_ok};

#[test]
fn allocate_single_edge_sends_five_sixths() {
    let mut send: Vec<(usize, i64)> = Vec::new();
    allocate(1000, &[(1, 1)], &mut send);
    assert_eq!(send, vec![(1, 833)]);
}

#[test]
fn allocate_gives_extra_unit_by_share_mod_len() {
    let mut send: Vec<(usize, i64)> = Vec::new();
    allocate(2000, &[(1, 1), (2, 1)], &mut send);
    assert_eq!(send, vec![(1, 834), (2, 833)]);
}

#[test]
fn allocate_no_extra_when_share_is_a_multiple_of_len() {
    let mut send: Vec<(usize, i64)> = Vec::new();
    allocate(1000, &[(1, 1), (2, 1)], &mut send);
    assert_eq!(send, vec![(1, 416), (2, 416)]);
}

#[test]
fn allocate_scales_by_weight() {
    let mut send: Vec<(usize, i64)> = Vec::new();
    allocate(1000, &[(1, 2), (4, 3)], &mut send);
    assert_eq!(send, vec![(1, 332), (4, 498)]);
}

#[test]
fn allocate_appends_after_existing_entries() {
    let mut send: Vec<(usize, i64)> = vec![(9, -5)];
    allocate(60, &[(3, 1), (4, 1), (5, 1)], &mut send);
    // 60 * 5 / 6 = 50, share 16, 16 % 3 = 1 extra edge.
    assert_eq!(send, vec![(9, -5), (3, 17), (4, 16), (5, 16)]);
}

#[test]
fn allocate_without_edges_sends_nothing() {
    let mut send: Vec<(usize, i64)> = vec![(2, 7)];
    allocate(1000, &[], &mut send);
    assert_eq!(send, vec![(2, 7)]);
    allocate(-5, &[], &mut send);
    assert_eq!(send, vec![(2, 7)]);
}

#[test]
fn allocate_total_lies_between_bounds() {
    for rank in [0i64, 1, 5, 6, 7, 100, 999, 1000, 12345] {
        for edges in [vec![(0usize, 1i64)], vec![(0, 1), (1, 1)], vec![(0, 1), (1, 1), (2, 1), (3, 1)]] {
            let mut send: Vec<(usize, i64)> = Vec::new();
            allocate(rank, &edges, &mut send);
            let sent: i64 = send.iter().map(|e| e.1).sum();
            let degree: i64 = edges.iter().map(|e| e.1).sum();
            let share = (rank * 5 / 6) / degree;
            assert!(sent >= degree * share);
            assert!(sent <= rank);
        }
    }
}

#[test]
fn allocate_may_exceed_rank_with_uneven_weights() {
    let mut send: Vec<(usize, i64)> = Vec::new();
    allocate(8, &[(0, 5), (1, 1)], &mut send);
    assert_eq!(send, vec![(0, 10), (1, 1)]);
}

#[test]
fn allocate_is_deterministic() {
    let edges = [(2usize, 3i64), (5, 1), (8, 2)];
    let mut first: Vec<(usize, i64)> = Vec::new();
    let mut second: Vec<(usize, i64)> = Vec::new();
    allocate(4321, &edges, &mut first);
    allocate(4321, &edges, &mut second);
    assert_eq!(first, second);
}

#[test]
fn allocation_ok_checks_requirements() {
    assert!(allocation_ok(1000, &[(1, 1)]));
    assert!(allocation_ok(-1, &[]));
    assert!(!allocation_ok(-1, &[(1, 1)]));
    assert!(!allocation_ok(1000, &[(1, 0)]));
    assert!(!allocation_ok(1000, &[(1, 2), (2, -1)]));
    assert!(!allocation_ok(i64::MAX / 5 + 1, &[(1, 1)]));
    assert!(!allocation_ok(1000, &[(1, i64::MAX), (2, 1)]));
}
