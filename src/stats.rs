//! Statistics of search runs.
use vstd::prelude::*;

verus! {

/// What one search run did.
#[derive(Clone, Copy, Debug, Default)]
pub struct Stats {
    /// Number of distinct boards explored.
    pub nodes_explored: usize,
    /// Number of moves of the solution found.
    pub solution_moves: usize,
    /// Largest frontier size recorded.
    pub max_frontier: usize,
    /// Number of successor boards generated.
    pub generated_nodes: usize,
    /// Number of boards put on the frontier.
    pub enqueued_nodes: usize,
    /// Number of successors dropped because they were already explored.
    pub duplicates_pruned: usize,
    /// Largest depth given to a board.
    pub max_depth_reached: usize,
    /// Time the run took, in milliseconds.
    pub duration_ms: u128,
}

/// Percentiles of one metric over many runs.
#[derive(Clone, Copy, Debug, Default)]
pub struct Metric {
    pub p50: u64,
    pub p75: u64,
    pub p90: u64,
    pub p95: u64,
    pub p99: u64,
}

/// Per-metric percentiles over many runs.
#[derive(Clone, Debug, Default)]
pub struct StatsSummary {
    /// Number of runs summarised.
    pub runs: usize,
    /// Boards explored per run.
    pub nodes_explored: Metric,
    /// Solution length per run.
    pub solution_moves: Metric,
    /// Largest frontier per run.
    pub max_frontier: Metric,
    /// Successors generated per run.
    pub generated_nodes: Metric,
    /// Boards enqueued per run.
    pub enqueued_nodes: Metric,
    /// Successors pruned per run.
    pub duplicates_pruned: Metric,
    /// Largest depth per run.
    pub max_depth_reached: Metric,
    /// Milliseconds per run.
    pub duration_ms: Metric,
}

/// Whether `s` is in ascending order.
pub open spec fn sorted(s: Seq<u64>) -> bool {
    forall|i: int, j: int| 0 <= i < j < s.len() ==> s[i] <= s[j]
}

/// The 0-based index of the nearest-rank `p`-th percentile among `n` sorted
/// values: rank `ceil(p * n / 100)`, kept within `1..=n`.
pub open spec fn rank_index(p: int, n: int) -> int {
    let rank = (p * n + 99) / 100;
    if rank < 1 {
        0
    } else if rank > n {
        n - 1
    } else {
        rank - 1
    }
}

/// Whether `m` holds the nearest-rank percentiles of `values`, all zero when
/// there are none.
pub open spec fn percentiles_of(m: Metric, values: Seq<u64>) -> bool {
    if values.len() == 0 {
        m.p50 == 0 && m.p75 == 0 && m.p90 == 0 && m.p95 == 0 && m.p99 == 0
    } else {
        exists|s: Seq<u64>|
            #[trigger] sorted(s) && s.to_multiset() == values.to_multiset() && s.len() == values.len()
                && m.p50 == s[rank_index(50, s.len() as int)] && m.p75 == s[rank_index(
                75,
                s.len() as int,
            )] && m.p90 == s[rank_index(90, s.len() as int)] && m.p95 == s[rank_index(
                95,
                s.len() as int,
            )] && m.p99 == s[rank_index(99, s.len() as int)]
    }
}

/// Relies on `slice::sort_unstable`: the same values, in ascending order.
#[verifier::external_body]
fn sort_values(v: &mut Vec<u64>)
    ensures
        sorted(final(v)@),
        final(v)@.to_multiset() == old(v)@.to_multiset(),
        final(v)@.len() == old(v)@.len(),
{
    v.sort_unstable();
}

/// The index of the nearest-rank `p`-th percentile among `n` sorted values.
fn rank_of(p: usize, n: usize) -> (r: usize)
    requires
        p <= 100,
        0 < n,
        n <= usize::MAX / 100,
    ensures
        r == rank_index(p as int, n as int),
        r < n,
{
    assert(p * n <= 100 * n) by (nonlinear_arith)
        requires
            p <= 100,
    ;
    assert(100 * n <= usize::MAX) by (nonlinear_arith)
        requires
            n <= usize::MAX / 100,
    ;
    let scaled = p * n;
    let rank = scaled / 100 + if scaled % 100 == 0 {
        0
    } else {
        1
    };
    assert(rank == (scaled + 99) / 100);
    if rank < 1 {
        0
    } else if rank > n {
        n - 1
    } else {
        rank - 1
    }
}

impl Metric {
    fn new(p50: u64, p75: u64, p90: u64, p95: u64, p99: u64) -> (r: Self)
        ensures
            r.p50 == p50 && r.p75 == p75 && r.p90 == p90 && r.p95 == p95 && r.p99 == p99,
    {
        Self { p50, p75, p90, p95, p99 }
    }

    /// The nearest-rank percentiles of `values`; all zero when there are none.
    pub fn from_slice(values: &[u64]) -> (r: Self)
        requires
            values@.len() <= usize::MAX / 100,
        ensures
            percentiles_of(r, values@),
    {
        let n = values.len();
        if n == 0 {
            return Metric::new(0, 0, 0, 0, 0);
        }
        let mut vals: Vec<u64> = Vec::new();
        let mut i: usize = 0;
        while i < n
            invariant
                n == values@.len(),
                i <= n,
                vals@ == values@.take(i as int),
            decreases n - i,
        {
            vals.push(values[i]);
            proof {
                assert(values@.take(i as int + 1) =~= values@.take(i as int).push(values@[i as int]));
            }
            i = i + 1;
        }
        proof {
            assert(values@.take(n as int) =~= values@);
        }
        sort_values(&mut vals);
        let r = Metric::new(
            vals[rank_of(50, n)],
            vals[rank_of(75, n)],
            vals[rank_of(90, n)],
            vals[rank_of(95, n)],
            vals[rank_of(99, n)],
        );
        proof {
            assert(sorted(vals@));
        }
        r
    }
}

/// The value of metric `k` of a run, as `u64` (durations above `u64::MAX`
/// saturate): explored, moves, frontier, generated, enqueued, pruned, depth,
/// duration for `k` from 0 to 7.
pub open spec fn stat_value(s: Stats, k: int) -> u64 {
    if k == 0 {
        s.nodes_explored as u64
    } else if k == 1 {
        s.solution_moves as u64
    } else if k == 2 {
        s.max_frontier as u64
    } else if k == 3 {
        s.generated_nodes as u64
    } else if k == 4 {
        s.enqueued_nodes as u64
    } else if k == 5 {
        s.duplicates_pruned as u64
    } else if k == 6 {
        s.max_depth_reached as u64
    } else if s.duration_ms > u64::MAX as u128 {
        u64::MAX
    } else {
        s.duration_ms as u64
    }
}

/// Metric `k` of each run.
pub open spec fn column_of(runs: Seq<Stats>, k: int) -> Seq<u64> {
    runs.map_values(|s: Stats| stat_value(s, k))
}

fn stat_value_of(s: &Stats, k: u8) -> (r: u64)
    ensures
        r == stat_value(*s, k as int),
{
    if k == 0 {
        s.nodes_explored as u64
    } else if k == 1 {
        s.solution_moves as u64
    } else if k == 2 {
        s.max_frontier as u64
    } else if k == 3 {
        s.generated_nodes as u64
    } else if k == 4 {
        s.enqueued_nodes as u64
    } else if k == 5 {
        s.duplicates_pruned as u64
    } else if k == 6 {
        s.max_depth_reached as u64
    } else if s.duration_ms > u64::MAX as u128 {
        u64::MAX
    } else {
        s.duration_ms as u64
    }
}

fn column(runs: &[Stats], k: u8) -> (r: Vec<u64>)
    ensures
        r@ == column_of(runs@, k as int),
{
    let mut r: Vec<u64> = Vec::new();
    let mut i: usize = 0;
    while i < runs.len()
        invariant
            i <= runs@.len(),
            r@ == column_of(runs@.take(i as int), k as int),
        decreases runs@.len() - i,
    {
        let v = stat_value_of(&runs[i], k);
        r.push(v);
        proof {
            assert(column_of(runs@.take(i as int + 1), k as int) =~= column_of(runs@.take(i as int), k as int).push(v));
        }
        i = i + 1;
    }
    proof {
        assert(runs@.take(i as int) =~= runs@);
    }
    r
}

impl StatsSummary {
    /// The percentiles of each metric over `runs`.
    pub fn from_runs(runs: &[Stats]) -> (r: Self)
        requires
            runs@.len() <= usize::MAX / 100,
        ensures
            r.runs == runs@.len(),
            percentiles_of(r.nodes_explored, column_of(runs@, 0)),
            percentiles_of(r.solution_moves, column_of(runs@, 1)),
            percentiles_of(r.max_frontier, column_of(runs@, 2)),
            percentiles_of(r.generated_nodes, column_of(runs@, 3)),
            percentiles_of(r.enqueued_nodes, column_of(runs@, 4)),
            percentiles_of(r.duplicates_pruned, column_of(runs@, 5)),
            percentiles_of(r.max_depth_reached, column_of(runs@, 6)),
            percentiles_of(r.duration_ms, column_of(runs@, 7)),
    {
        StatsSummary {
            runs: runs.len(),
            nodes_explored: Metric::from_slice(column(runs, 0).as_slice()),
            solution_moves: Metric::from_slice(column(runs, 1).as_slice()),
            max_frontier: Metric::from_slice(column(runs, 2).as_slice()),
            generated_nodes: Metric::from_slice(column(runs, 3).as_slice()),
            enqueued_nodes: Metric::from_slice(column(runs, 4).as_slice()),
            duplicates_pruned: Metric::from_slice(column(runs, 5).as_slice()),
            max_depth_reached: Metric::from_slice(column(runs, 6).as_slice()),
            duration_ms: Metric::from_slice(column(runs, 7).as_slice()),
        }
    }
}

} // verus!
