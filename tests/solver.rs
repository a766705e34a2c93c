use o8::board::{Board, BoardWithSteps, Direction};
use o8::search_strategies::{HeuristicSearchStrategy, SearchStrategy, SimpleSearchStrategy};
use o8::solver::{ExplorerStrategy, Solver};

fn dfs() -> Solver<SimpleSearchStrategy<BoardWithSteps>> {
    Solver::new(SimpleSearchStrategy::new(ExplorerStrategy::Dfs))
}

fn bfs() -> Solver<SimpleSearchStrategy<BoardWithSteps>> {
    Solver::new(SimpleSearchStrategy::new(ExplorerStrategy::Bfs))
}

fn best_first() -> Solver<HeuristicSearchStrategy> {
    Solver::new(HeuristicSearchStrategy::new())
}

fn three_moves_away() -> Board {
    Board::scrambled_by(&[Direction::Up, Direction::Left, Direction::Up])
}

fn check_path(path: &[Board], start: Board) {
    assert_eq!(path[0], start);
    assert!(path[path.len() - 1].is_solved());
    for pair in path.windows(2) {
        let next = pair[0]
            .legal_moves()
            .into_iter()
            .filter_map(|d| pair[0].move_space(d).ok())
            .any(|b| b == pair[1]);
        assert!(next, "consecutive boards are not one move apart");
    }
}

#[test]
fn solved_start_gives_empty_solution() {
    let start = Board::random_with_solution(0);
    let mut solver = bfs();
    assert_eq!(solver.solve(start), Some(Board::default()));
    let path = solver.step_by_step_solution();
    assert_eq!(path, vec![Board::default()]);
    let stats = solver.get_solution_stats();
    assert_eq!(stats.solution_moves, 0);
    assert_eq!(stats.nodes_explored, 1);
    assert_eq!(stats.generated_nodes, 0);
    assert_eq!(stats.enqueued_nodes, 0);
    assert_eq!(stats.duplicates_pruned, 0);
    assert_eq!(stats.max_depth_reached, 0);
    assert_eq!(stats.max_frontier, 0);
    assert_eq!(solver.frontier_size_history(), &vec![0]);
}

#[test]
fn best_first_finds_three_move_solution() {
    let start = three_moves_away();
    assert_eq!(start.into_arr(), [1, 0, 3, 4, 2, 5, 7, 8, 6]);
    let mut solver = best_first();
    assert!(solver.solve(start).unwrap().is_solved());
    let stats = solver.get_solution_stats();
    assert_eq!(stats.solution_moves, 3);
    let path = solver.step_by_step_solution();
    assert_eq!(path.len(), 4);
    check_path(&path, start);
}

#[test]
fn breadth_first_finds_three_move_solution() {
    let start = three_moves_away();
    let mut solver = bfs();
    assert!(solver.solve(start).unwrap().is_solved());
    assert_eq!(solver.get_solution_stats().solution_moves, 3);
    check_path(&solver.step_by_step_solution(), start);
}

#[test]
fn depth_first_reaches_goal_with_valid_path() {
    let start = three_moves_away();
    let mut solver = dfs();
    assert!(solver.solve(start).unwrap().is_solved());
    let path = solver.step_by_step_solution();
    check_path(&path, start);
    let stats = solver.get_solution_stats();
    assert_eq!(stats.solution_moves, path.len() - 1);
    assert!(stats.solution_moves >= 3);
    assert_eq!(stats.generated_nodes, stats.enqueued_nodes + stats.duplicates_pruned);
}

#[test]
fn strategies_agree_on_random_boards() {
    for _ in 0..2 {
        let start = Board::random_with_solution(25);
        let mut a = dfs();
        let mut b = bfs();
        let mut c = best_first();
        let ra = a.solve(start).unwrap();
        let rb = b.solve(start).unwrap();
        let rc = c.solve(start).unwrap();
        assert_eq!(ra, Board::default());
        assert_eq!(rb, Board::default());
        assert_eq!(rc, Board::default());
        let (sa, sb, sc) = (a.get_solution_stats(), b.get_solution_stats(), c.get_solution_stats());
        assert_eq!(sc.solution_moves, sb.solution_moves);
        assert!(sa.solution_moves >= sb.solution_moves);
        assert!(sb.solution_moves >= start.heuristic_distance_to_solution() as usize);
        assert!(sb.solution_moves <= 25);
        check_path(&a.step_by_step_solution(), start);
        check_path(&b.step_by_step_solution(), start);
        check_path(&c.step_by_step_solution(), start);
    }
}

#[test]
fn scrambled_boards_are_always_solved() {
    for steps in [1usize, 5, 60, 200] {
        let start = Board::random_with_solution(steps);
        let mut solver = best_first();
        assert!(solver.solve(start).is_some());
        check_path(&solver.step_by_step_solution(), start);
    }
}

#[test]
fn unreachable_goal_reports_no_solution() {
    // Swapping two tiles of the solved board gives a board of the other parity.
    let start = Board::from_arr(&[2, 1, 3, 4, 5, 6, 7, 8, 0]);
    let mut solver = bfs();
    assert_eq!(solver.solve(start), None);
    let stats = solver.get_solution_stats();
    assert_eq!(stats.nodes_explored, 181440);
}

#[test]
fn solver_can_run_twice() {
    let mut solver = bfs();
    let first = three_moves_away();
    assert!(solver.solve(first).is_some());
    let second = Board::default().move_space(Direction::Left).unwrap();
    assert!(solver.solve(second).is_some());
    assert_eq!(solver.get_solution_stats().solution_moves, 1);
    check_path(&solver.step_by_step_solution(), second);
}

#[test]
fn depth_first_frontier_is_a_stack() {
    let mut f = SimpleSearchStrategy::new(ExplorerStrategy::Dfs);
    assert_eq!(f.get_next(), None);
    f.enqueue(1u32);
    f.enqueue(2);
    f.enqueue(3);
    assert_eq!(f.len(), 3);
    assert_eq!(f.get_next(), Some(3));
    assert_eq!(f.get_next(), Some(2));
    f.enqueue(4);
    assert_eq!(f.get_next(), Some(4));
    assert_eq!(f.get_next(), Some(1));
    assert_eq!(f.get_next(), None);
    assert_eq!(f.len(), 0);
}

#[test]
fn breadth_first_frontier_is_a_queue() {
    let mut f = SimpleSearchStrategy::new(ExplorerStrategy::Bfs);
    f.enqueue(1u32);
    f.enqueue(2);
    f.enqueue(3);
    assert_eq!(f.get_next(), Some(1));
    f.enqueue(4);
    assert_eq!(f.get_next(), Some(2));
    assert_eq!(f.get_next(), Some(3));
    assert_eq!(f.get_next(), Some(4));
    assert_eq!(f.get_next(), None);
}

#[test]
fn best_first_frontier_takes_least_total_cost() {
    let goal = Board::default();
    let one = goal.move_space(Direction::Up).unwrap();
    let mut f = HeuristicSearchStrategy::new();
    assert_eq!(f.get_next(), None);
    f.enqueue(BoardWithSteps(one, 5)); // cost 6
    f.enqueue(BoardWithSteps(goal, 4)); // cost 4
    f.enqueue(BoardWithSteps(one, 3)); // cost 4, inserted later
    f.enqueue(BoardWithSteps(goal, 9)); // cost 9
    assert_eq!(f.len(), 4);
    assert_eq!(f.get_next(), Some(BoardWithSteps(goal, 4)));
    assert_eq!(f.get_next(), Some(BoardWithSteps(one, 3)));
    assert_eq!(f.get_next(), Some(BoardWithSteps(one, 5)));
    assert_eq!(f.get_next(), Some(BoardWithSteps(goal, 9)));
    assert_eq!(f.get_next(), None);
}

#[test]
fn breadth_first_and_best_first_agree_on_length() {
    let (u, d, l, r) = (Direction::Up, Direction::Down, Direction::Left, Direction::Right);
    let start = Board::scrambled_by(&[u, l, u, l, d, r, d, l, u, u, r, d]);
    let mut b = bfs();
    let mut c = best_first();
    assert!(b.solve(start).is_some());
    assert!(c.solve(start).is_some());
    let (sb, sc) = (b.get_solution_stats(), c.get_solution_stats());
    assert_eq!(sb.solution_moves, sc.solution_moves);
    assert!(sb.solution_moves <= 12);
    assert!(sc.nodes_explored <= sb.nodes_explored);
}

#[test]
fn fresh_solver_has_no_statistics() {
    let s = best_first();
    let stats = s.get_solution_stats();
    assert_eq!(stats.nodes_explored, 0);
    assert_eq!(stats.generated_nodes, 0);
    assert_eq!(stats.enqueued_nodes, 0);
    assert_eq!(stats.duplicates_pruned, 0);
    assert_eq!(stats.max_depth_reached, 0);
    assert_eq!(stats.max_frontier, 0);
    assert!(s.frontier_size_history().is_empty());
}

#[test]
fn counters_agree_after_runs() {
    let start = Board::scrambled_by(&[Direction::Up, Direction::Left, Direction::Up, Direction::Right]);
    for kind in 0..3 {
        let (found, stats, history, path) = match kind {
            0 => {
                let mut s = dfs();
                let f = s.solve(start);
                (f, s.get_solution_stats(), s.frontier_size_history().clone(), s.step_by_step_solution())
            }
            1 => {
                let mut s = bfs();
                let f = s.solve(start);
                (f, s.get_solution_stats(), s.frontier_size_history().clone(), s.step_by_step_solution())
            }
            _ => {
                let mut s = best_first();
                let f = s.solve(start);
                (f, s.get_solution_stats(), s.frontier_size_history().clone(), s.step_by_step_solution())
            }
        };
        assert!(found.is_some());
        assert_eq!(stats.generated_nodes, stats.enqueued_nodes + stats.duplicates_pruned);
        assert!(stats.nodes_explored <= stats.enqueued_nodes + 1);
        assert!(stats.nodes_explored <= history.len());
        assert!(stats.max_frontier <= stats.enqueued_nodes);
        assert_eq!(history.iter().copied().max().unwrap_or(0), stats.max_frontier);
        assert!(stats.solution_moves <= stats.max_depth_reached);
        assert!(stats.solution_moves + 1 <= stats.nodes_explored);
        assert_eq!(stats.solution_moves + 1, path.len());
        for i in 0..path.len() {
            for j in i + 1..path.len() {
                assert_ne!(path[i], path[j]);
            }
        }
    }
}

#[test]
fn rerun_matches_fresh_run() {
    let start = Board::scrambled_by(&[Direction::Left, Direction::Up, Direction::Up, Direction::Right]);
    let mut reused = bfs();
    assert!(reused.solve(Board::scrambled_by(&[Direction::Up])).is_some());
    assert!(reused.solve(start).is_some());
    let mut fresh = bfs();
    assert!(fresh.solve(start).is_some());
    let (a, b) = (reused.get_solution_stats(), fresh.get_solution_stats());
    assert_eq!(a.nodes_explored, b.nodes_explored);
    assert_eq!(a.solution_moves, b.solution_moves);
    assert_eq!(a.generated_nodes, b.generated_nodes);
    assert_eq!(a.enqueued_nodes, b.enqueued_nodes);
    assert_eq!(a.duplicates_pruned, b.duplicates_pruned);
    assert_eq!(a.max_depth_reached, b.max_depth_reached);
    assert_eq!(a.max_frontier, b.max_frontier);
}

#[test]
fn breadth_first_and_best_first_lengths_match_on_random_boards() {
    for _ in 0..100 {
        let start = Board::random_with_solution(40);
        let mut b = bfs();
        let mut c = best_first();
        b.solve(start).unwrap();
        c.solve(start).unwrap();
        let (sb, sc) = (b.get_solution_stats(), c.get_solution_stats());
        assert_eq!(sb.solution_moves, sc.solution_moves, "start {:?}", start.into_arr());
    }
}
