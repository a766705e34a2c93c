use o8::stats::{Metric, Stats, StatsSummary};

#[test]
fn percentiles_of_one_to_hundred() {
    let values: Vec<u64> = (1..=100).rev().collect();
    let m = Metric::from_slice(&values);
    assert_eq!((m.p50, m.p75, m.p90, m.p95, m.p99), (50, 75, 90, 95, 99));
}

#[test]
fn percentiles_sort_their_input() {
    let m = Metric::from_slice(&[5, 1, 4, 2, 3]);
    assert_eq!((m.p50, m.p75, m.p90, m.p95, m.p99), (3, 4, 5, 5, 5));
}

#[test]
fn percentiles_of_nothing_are_zero() {
    let m = Metric::from_slice(&[]);
    assert_eq!((m.p50, m.p75, m.p90, m.p95, m.p99), (0, 0, 0, 0, 0));
    let one = Metric::from_slice(&[7]);
    assert_eq!((one.p50, one.p99), (7, 7));
}

#[test]
fn summary_of_runs() {
    let runs: Vec<Stats> = (0..10usize)
        .map(|i| Stats {
            nodes_explored: i,
            solution_moves: 2 * i,
            max_frontier: 10 - i,
            generated_nodes: 3,
            enqueued_nodes: 2,
            duplicates_pruned: 1,
            max_depth_reached: i,
            duration_ms: u128::MAX,
        })
        .collect();
    let s = StatsSummary::from_runs(&runs);
    assert_eq!(s.runs, 10);
    assert_eq!(s.nodes_explored.p50, 4);
    assert_eq!(s.nodes_explored.p99, 9);
    assert_eq!(s.solution_moves.p75, 14);
    assert_eq!(s.max_frontier.p90, 9);
    assert_eq!(s.generated_nodes.p50, 3);
    assert_eq!(s.duration_ms.p50, u64::MAX);
    let empty = StatsSummary::from_runs(&[]);
    assert_eq!(empty.runs, 0);
    assert_eq!(empty.nodes_explored.p50, 0);
}
