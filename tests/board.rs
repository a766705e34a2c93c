use o8::board::{all_directions, Board, BoardWithSteps, Direction};

fn goal() -> Board {
    Board::default()
}

#[test]
fn solved_board_shows_tiles_in_order() {
    let g = goal();
    assert!(g.is_solved());
    assert_eq!(g.into_arr(), [1, 2, 3, 4, 5, 6, 7, 8, 0]);
    assert_eq!(g.heuristic_distance_to_solution(), 0);
}

#[test]
fn from_arr_round_trips() {
    let cells = [8, 6, 7, 2, 5, 4, 3, 0, 1];
    let b = Board::from_arr(&cells);
    assert_eq!(b.into_arr(), cells);
    assert!(!b.is_solved());
    assert_eq!(Board::from_arr(&[1, 2, 3, 4, 5, 6, 7, 8, 0]), goal());
}

#[test]
fn up_then_down_returns_to_goal() {
    let g = goal();
    let up = g.move_space(Direction::Up).unwrap();
    assert_eq!(up.into_arr(), [1, 2, 3, 4, 5, 0, 7, 8, 6]);
    let moves = up.legal_moves();
    assert_eq!(moves, vec![Direction::Up, Direction::Down, Direction::Left]);
    assert_eq!(up.move_space(Direction::Down).unwrap(), g);
    assert!(up.move_space(Direction::Down).unwrap().is_solved());
}

#[test]
fn illegal_moves_fail() {
    let g = goal();
    assert!(g.move_space(Direction::Down).is_err());
    assert!(g.move_space(Direction::Right).is_err());
    assert!(g.move_space(Direction::Up).is_ok());
    assert!(g.move_space(Direction::Left).is_ok());
    let top_left = Board::from_arr(&[0, 1, 2, 3, 4, 5, 6, 7, 8]);
    assert!(top_left.move_space(Direction::Up).is_err());
    assert!(top_left.move_space(Direction::Left).is_err());
}

#[test]
fn legal_move_counts_by_position() {
    let corner = goal();
    assert_eq!(corner.legal_moves(), vec![Direction::Up, Direction::Left]);
    let edge = Board::from_arr(&[1, 0, 2, 3, 4, 5, 6, 7, 8]);
    assert_eq!(edge.legal_moves(), vec![Direction::Down, Direction::Left, Direction::Right]);
    let center = Board::from_arr(&[1, 2, 3, 4, 0, 5, 6, 7, 8]);
    assert_eq!(center.legal_moves().len(), 4);
    for cell in 0..9u8 {
        let mut cells = [0u8; 9];
        let mut label = 1u8;
        for (i, c) in cells.iter_mut().enumerate() {
            if i as u8 != cell {
                *c = label;
                label += 1;
            }
        }
        let b = Board::from_arr(&cells);
        let expected = match cell {
            4 => 4,
            0 | 2 | 6 | 8 => 2,
            _ => 3,
        };
        assert_eq!(b.legal_moves().len(), expected, "empty cell at {cell}");
    }
}

#[test]
fn every_legal_move_is_reversible() {
    let boards = [
        goal(),
        Board::from_arr(&[1, 2, 3, 4, 0, 5, 6, 7, 8]),
        Board::from_arr(&[8, 6, 7, 2, 5, 4, 3, 0, 1]),
    ];
    for b in boards {
        for d in b.legal_moves() {
            let back = match d {
                Direction::Up => Direction::Down,
                Direction::Down => Direction::Up,
                Direction::Left => Direction::Right,
                Direction::Right => Direction::Left,
            };
            let moved = b.move_space(d).unwrap();
            assert_ne!(moved, b);
            assert_eq!(moved.move_space(back).unwrap(), b);
        }
    }
}

#[test]
fn heuristic_sums_manhattan_distances() {
    let one = goal().move_space(Direction::Left).unwrap();
    assert_eq!(one.heuristic_distance_to_solution(), 1);
    let two = Board::from_arr(&[1, 2, 3, 4, 5, 6, 0, 7, 8]);
    assert_eq!(two.heuristic_distance_to_solution(), 2);
    // 8 6 7 / 2 5 4 / 3 _ 1
    let far = Board::from_arr(&[8, 6, 7, 2, 5, 4, 3, 0, 1]);
    assert_eq!(far.heuristic_distance_to_solution(), 21);
    assert_eq!(far.total_cost(4), 25);
    assert_eq!(goal().total_cost(0), 0);
}

#[test]
fn heuristic_never_exceeds_scramble_length() {
    for steps in 0..40usize {
        let b = Board::random_with_solution(steps);
        assert!(b.heuristic_distance_to_solution() as usize <= steps);
    }
}

#[test]
fn scramble_of_zero_steps_is_goal() {
    let b = Board::random_with_solution(0);
    assert_eq!(b, goal());
    assert!(b.is_solved());
    assert_eq!(Board::scrambled_by(&[]), goal());
}

#[test]
fn scramble_skips_illegal_directions() {
    let b = Board::scrambled_by(&[Direction::Down, Direction::Right, Direction::Up]);
    assert_eq!(b, goal().move_space(Direction::Up).unwrap());
    let c = Board::scrambled_by(&[Direction::Up, Direction::Left, Direction::Left]);
    assert_eq!(c.into_arr(), [1, 2, 3, 0, 4, 5, 7, 8, 6]);
}

#[test]
fn random_scramble_moves_away_from_goal() {
    let mut moved = false;
    for _ in 0..20 {
        if !Board::random_with_solution(30).is_solved() {
            moved = true;
        }
    }
    assert!(moved);
}

#[test]
fn directions_in_search_order() {
    assert_eq!(
        all_directions(),
        [Direction::Up, Direction::Down, Direction::Left, Direction::Right]
    );
    let item = BoardWithSteps(goal(), 3);
    assert_eq!(item.1, 3);
    assert!(item.0.is_solved());
}
