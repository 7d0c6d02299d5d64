use rankflow::compaction::{compact, try_compact, EdgeKey};

fn total(list: &[(usize, i64)], key: usize) -> i64 {
    list.iter().filter(|e| e.0 == key).map(|e| e.1).sum()
}

#[test]
fn compact_empty_stays_empty() {
    let mut list: Vec<(usize, i64)> = Vec::new();
    compact(&mut list);
    assert!(list.is_empty());
}

#[test]
fn compact_sorts_merges_and_drops_zeros() {
    let mut list: Vec<(usize, i64)> = vec![(3, 1), (1, 2), (3, -1), (2, 5), (1, 1)];
    compact(&mut list);
    assert_eq!(list, vec![(1, 3), (2, 5)]);
}

#[test]
fn compact_single_zero_entry_is_dropped() {
    let mut list: Vec<(usize, i64)> = vec![(7, 0)];
    compact(&mut list);
    assert!(list.is_empty());
}

#[test]
fn compact_is_idempotent() {
    let mut once: Vec<(usize, i64)> = vec![(9, 4), (2, -3), (9, -4), (5, 1), (2, 1), (0, 6)];
    compact(&mut once);
    let mut twice = once.clone();
    compact(&mut twice);
    assert_eq!(once, twice);
    assert_eq!(once, vec![(0, 6), (2, -2), (5, 1)]);
}

#[test]
fn compact_conserves_each_key_total() {
    let before: Vec<(usize, i64)> =
        vec![(4, 10), (1, -7), (4, -3), (8, 2), (1, 7), (8, 5), (3, -1), (4, 1)];
    let mut after = before.clone();
    compact(&mut after);
    for key in 0..10usize {
        let survivors: Vec<&(usize, i64)> = after.iter().filter(|e| e.0 == key).collect();
        let sum = total(&before, key);
        if sum == 0 {
            assert!(survivors.is_empty());
        } else {
            assert_eq!(survivors.len(), 1);
            assert_eq!(survivors[0].1, sum);
        }
    }
}

#[test]
fn compact_orders_edge_keys_by_source_then_destination() {
    let mut list: Vec<(EdgeKey, i64)> = vec![
        (EdgeKey { src: 2, dst: 0 }, 1),
        (EdgeKey { src: 0, dst: 5 }, 1),
        (EdgeKey { src: 0, dst: 1 }, 2),
        (EdgeKey { src: 2, dst: 0 }, 3),
    ];
    compact(&mut list);
    assert_eq!(
        list,
        vec![
            (EdgeKey { src: 0, dst: 1 }, 2),
            (EdgeKey { src: 0, dst: 5 }, 1),
            (EdgeKey { src: 2, dst: 0 }, 4),
        ]
    );
}

#[test]
fn try_compact_refuses_a_total_beyond_i64() {
    let mut list: Vec<(usize, i64)> = vec![(1, i64::MAX), (1, 1)];
    assert!(!try_compact(&mut list));
    assert_eq!(list, vec![(1, i64::MAX), (1, 1)]);
}

#[test]
fn try_compact_accepts_a_fitting_total_past_a_large_partial_sum() {
    let mut list: Vec<(usize, i64)> = vec![(1, i64::MAX), (1, 1), (1, -1), (0, -2)];
    assert!(try_compact(&mut list));
    assert_eq!(list, vec![(0, -2), (1, i64::MAX)]);
}
