//! The 8-puzzle grid.
//!
//! A board is stored as one `u32`: for each tile `1..=8`, four bits hold the
//! cell (`0..9`, read left to right, top to bottom) where that tile sits. The
//! empty cell is the one cell that no tile occupies; it is never stored.
//!
//! The mathematical model of a board (its view) is the sequence of the eight
//! tile cells: `b@[v]` is the cell of tile `v + 1`.
use vstd::prelude::*;
use rand::rngs::ThreadRng;
use rand::seq::IndexedRandom;
use vstd::set_lib::{lemma_int_range, lemma_len_subset, set_int_range};

verus! {

/// Number of cells on a side of the grid.
const BOARD_SIDE: u8 = 3;

/// Number of cells of the grid.
const BOARD_AREA: u8 = 9;

/// Number of bits that hold the cell of one tile.
const TILE_BIT_SIZE: u32 = 4;

/// The four bits that hold one tile's cell.
const TILE_MASK: u32 = 15;

/// The solved board: tile `v + 1` at cell `v`, the empty cell last.
const SOLVED_CODE: u32 = 0x7654_3210;

/// The way the empty cell travels in a move.
#[derive(Clone, Copy, Debug, PartialEq, Eq, Structural)]
pub enum Direction {
    /// The empty cell moves one row up.
    Up,
    /// The empty cell moves one row down.
    Down,
    /// The empty cell moves one column left.
    Left,
    /// The empty cell moves one column right.
    Right,
}

/// The four directions, in the order in which a search tries them.
pub fn all_directions() -> (r: [Direction; 4])
    ensures
        r@ == seq![Direction::Up, Direction::Down, Direction::Left, Direction::Right],
{
    [Direction::Up, Direction::Down, Direction::Left, Direction::Right]
}

// ---------------------------------------------------------------------------
// The model
// ---------------------------------------------------------------------------

/// The cell stored for tile `v + 1` in an encoded board.
pub open spec fn nibble(code: u32, v: int) -> int {
    ((code >> ((4 * v) as u32)) & 15u32) as int
}

/// The tile cells that an encoded board holds.
pub open spec fn positions_of_code(code: u32) -> Seq<int> {
    Seq::new(8, |v: int| nibble(code, v))
}

/// The encoding of a sequence of eight tile cells.
pub open spec fn code_of(ps: Seq<int>) -> u32 {
    (ps[0] as u32) | ((ps[1] as u32) << 4u32) | ((ps[2] as u32) << 8u32) | ((ps[3] as u32)
        << 12u32) | ((ps[4] as u32) << 16u32) | ((ps[5] as u32) << 20u32) | ((ps[6] as u32)
        << 24u32) | ((ps[7] as u32) << 28u32)
}

/// Eight tiles on eight distinct cells of the grid.
pub open spec fn valid_positions(ps: Seq<int>) -> bool {
    &&& ps.len() == 8
    &&& forall|v: int| 0 <= v < 8 ==> 0 <= #[trigger] ps[v] < 9
    &&& forall|v: int, w: int| 0 <= v < 8 && 0 <= w < 8 && v != w ==> #[trigger] ps[v] != #[trigger] ps[w]
}

/// The cell that no tile occupies.
pub open spec fn blank_of(ps: Seq<int>) -> int {
    choose|i: int| 0 <= i < 9 && !ps.contains(i)
}

/// Whether the empty cell, at `cell`, can travel in direction `d`.
pub open spec fn can_move(cell: int, d: Direction) -> bool {
    match d {
        Direction::Up => cell / 3 != 0,
        Direction::Down => cell / 3 != 2,
        Direction::Left => cell % 3 != 0,
        Direction::Right => cell % 3 != 2,
    }
}

/// The cell next to `cell` in direction `d`.
pub open spec fn neighbor_cell(cell: int, d: Direction) -> int {
    match d {
        Direction::Up => cell - 3,
        Direction::Down => cell + 3,
        Direction::Left => cell - 1,
        Direction::Right => cell + 1,
    }
}

/// The direction that undoes a move in direction `d`.
pub open spec fn opposite(d: Direction) -> Direction {
    match d {
        Direction::Up => Direction::Down,
        Direction::Down => Direction::Up,
        Direction::Left => Direction::Right,
        Direction::Right => Direction::Left,
    }
}

/// The tiles after the tile next to the empty cell, in direction `d`, slides into it.
pub open spec fn slide(ps: Seq<int>, d: Direction) -> Seq<int> {
    let b = blank_of(ps);
    let t = neighbor_cell(b, d);
    Seq::new(8, |v: int| if ps[v] == t { b } else { ps[v] })
}

/// One move in direction `d` where it is legal; no change where it is not.
pub open spec fn step(ps: Seq<int>, d: Direction) -> Seq<int> {
    if can_move(blank_of(ps), d) {
        slide(ps, d)
    } else {
        ps
    }
}

/// The tiles after trying each direction of `ds` in turn, skipping the illegal ones.
pub open spec fn play(ps: Seq<int>, ds: Seq<Direction>) -> Seq<int>
    decreases ds.len(),
{
    if ds.len() == 0 {
        ps
    } else {
        step(play(ps, ds.drop_last()), ds.last())
    }
}

/// Whether one legal move leads from `a` to `b`.
pub open spec fn one_move_apart(a: Seq<int>, b: Seq<int>) -> bool {
    exists|d: Direction| can_move(blank_of(a), d) && #[trigger] slide(a, d) == b
}

/// The solved arrangement: tile `v + 1` at cell `v`.
pub open spec fn goal_positions() -> Seq<int> {
    Seq::new(8, |v: int| v)
}

/// The distance between two cells, in rows plus columns.
pub open spec fn manhattan(a: int, b: int) -> int {
    let dr = a / 3 - b / 3;
    let dc = a % 3 - b % 3;
    (if dr < 0 { -dr } else { dr }) + (if dc < 0 { -dc } else { dc })
}

/// The distances of the first `n` tiles to their solved cells, summed.
pub open spec fn distance_sum(ps: Seq<int>, n: int) -> int
    decreases n,
{
    if n <= 0 {
        0
    } else {
        distance_sum(ps, n - 1) + manhattan(ps[n - 1], n - 1)
    }
}

/// The sum over all tiles of the distance to the tile's solved cell.
pub open spec fn heuristic(ps: Seq<int>) -> int {
    distance_sum(ps, 8)
}

/// The number of legal moves when the empty cell is at `cell`: two in a
/// corner, four in the centre, three elsewhere.
pub open spec fn legal_move_count(cell: int) -> int {
    if cell == 4 {
        4
    } else if cell == 0 || cell == 2 || cell == 6 || cell == 8 {
        2
    } else {
        3
    }
}

/// The grid a board shows: `cells[i]` is the tile at cell `i`, `0` where it is empty.
pub open spec fn shows(ps: Seq<int>, cells: Seq<u8>) -> bool {
    &&& cells.len() == 9
    &&& forall|v: int| 0 <= v < 8 ==> cells[#[trigger] ps[v]] == v + 1
    &&& cells[blank_of(ps)] == 0
}

/// Nine cells holding each of `0..9` once (`0` for the empty cell).
pub open spec fn valid_grid(cells: Seq<u8>) -> bool {
    &&& cells.len() == 9
    &&& forall|i: int| 0 <= i < 9 ==> #[trigger] cells[i] < 9
    &&& forall|i: int, j: int| 0 <= i < 9 && 0 <= j < 9 && i != j ==> #[trigger] cells[i] != #[trigger] cells[j]
}

// ---------------------------------------------------------------------------
// Facts about the model
// ---------------------------------------------------------------------------

/// Eight tiles on nine cells leave exactly one cell free.
pub proof fn lemma_one_free_cell(ps: Seq<int>)
    requires
        valid_positions(ps),
    ensures
        0 <= blank_of(ps) < 9,
        !ps.contains(blank_of(ps)),
        forall|i: int| 0 <= i < 9 && !ps.contains(i) ==> i == blank_of(ps),
{
    let s = ps.to_set();
    assert(ps.no_duplicates());
    ps.unique_seq_to_set();
    let r = set_int_range(0, 9);
    lemma_int_range(0, 9);
    assert(s.subset_of(r)) by {
        assert forall|x: int| s.contains(x) implies r.contains(x) by {
            let v = choose|v: int| 0 <= v < 8 && ps[v] == x;
        }
    }
    if forall|i: int| 0 <= i < 9 ==> ps.contains(i) {
        assert(r.subset_of(s));
        lemma_len_subset(r, s);
    }
    let b = blank_of(ps);
    assert(0 <= b < 9 && !ps.contains(b));
    assert forall|i: int| 0 <= i < 9 && !ps.contains(i) implies i == b by {
        if i != b {
            let r2 = r.remove(i).remove(b);
            assert(s.subset_of(r2));
            lemma_len_subset(s, r2);
        }
    }
}

/// Decoding an encoding gives back the cells, when each is below 16.
pub proof fn lemma_code_round_trip(ps: Seq<int>)
    requires
        ps.len() == 8,
        forall|v: int| 0 <= v < 8 ==> 0 <= #[trigger] ps[v] < 16,
    ensures
        positions_of_code(code_of(ps)) == ps,
{
    let a0 = ps[0] as u32;
    let a1 = ps[1] as u32;
    let a2 = ps[2] as u32;
    let a3 = ps[3] as u32;
    let a4 = ps[4] as u32;
    let a5 = ps[5] as u32;
    let a6 = ps[6] as u32;
    let a7 = ps[7] as u32;
    let c = code_of(ps);
    assert(c == a0 | (a1 << 4u32) | (a2 << 8u32) | (a3 << 12u32) | (a4 << 16u32) | (a5 << 20u32)
        | (a6 << 24u32) | (a7 << 28u32));
    assert({
        &&& (c >> 0u32) & 15u32 == a0
        &&& (c >> 4u32) & 15u32 == a1
        &&& (c >> 8u32) & 15u32 == a2
        &&& (c >> 12u32) & 15u32 == a3
        &&& (c >> 16u32) & 15u32 == a4
        &&& (c >> 20u32) & 15u32 == a5
        &&& (c >> 24u32) & 15u32 == a6
        &&& (c >> 28u32) & 15u32 == a7
    }) by (bit_vector)
        requires
            a0 < 16 && a1 < 16 && a2 < 16 && a3 < 16 && a4 < 16 && a5 < 16 && a6 < 16 && a7 < 16,
            c == a0 | (a1 << 4u32) | (a2 << 8u32) | (a3 << 12u32) | (a4 << 16u32) | (a5 << 20u32)
                | (a6 << 24u32) | (a7 << 28u32),
    ;
    assert(positions_of_code(c) =~= ps);
}

/// An encoding is determined by the cells it holds.
pub proof fn lemma_code_of_positions(c: u32)
    ensures
        code_of(positions_of_code(c)) == c,
{
    let ps = positions_of_code(c);
    assert(ps[0] == nibble(c, 0) && ps[1] == nibble(c, 1) && ps[2] == nibble(c, 2) && ps[3]
        == nibble(c, 3) && ps[4] == nibble(c, 4) && ps[5] == nibble(c, 5) && ps[6] == nibble(c, 6)
        && ps[7] == nibble(c, 7));
    assert(c == ((c >> 0u32) & 15u32) | (((c >> 4u32) & 15u32) << 4u32) | (((c >> 8u32) & 15u32)
        << 8u32) | (((c >> 12u32) & 15u32) << 12u32) | (((c >> 16u32) & 15u32) << 16u32) | (((c
        >> 20u32) & 15u32) << 20u32) | (((c >> 24u32) & 15u32) << 24u32) | (((c >> 28u32) & 15u32)
        << 28u32)) by (bit_vector);
}


/// The solved board's encoding holds the solved cells.
proof fn lemma_goal_code()
    ensures
        positions_of_code(SOLVED_CODE) == goal_positions(),
        code_of(goal_positions()) == SOLVED_CODE,
{
    let c = SOLVED_CODE;
    assert({
        &&& (c >> 0u32) & 15u32 == 0
        &&& (c >> 4u32) & 15u32 == 1
        &&& (c >> 8u32) & 15u32 == 2
        &&& (c >> 12u32) & 15u32 == 3
        &&& (c >> 16u32) & 15u32 == 4
        &&& (c >> 20u32) & 15u32 == 5
        &&& (c >> 24u32) & 15u32 == 6
        &&& (c >> 28u32) & 15u32 == 7
    }) by (bit_vector)
        requires
            c == 0x7654_3210u32,
    ;
    assert(positions_of_code(c) =~= goal_positions());
    lemma_code_of_positions(c);
}

/// `d` alone where `keep` holds, else nothing.
pub open spec fn only_if(keep: bool, d: Direction) -> Seq<Direction> {
    if keep {
        seq![d]
    } else {
        seq![]
    }
}

/// The legal directions from `cell`, in the order up, down, left, right.
pub open spec fn legal_seq(cell: int) -> Seq<Direction> {
    only_if(can_move(cell, Direction::Up), Direction::Up) + only_if(
        can_move(cell, Direction::Down),
        Direction::Down,
    ) + only_if(can_move(cell, Direction::Left), Direction::Left) + only_if(
        can_move(cell, Direction::Right),
        Direction::Right,
    )
}

/// The legal directions from a cell are two in a corner, three on an edge
/// and four in the centre.
pub proof fn lemma_legal_seq(cell: int)
    requires
        0 <= cell < 9,
    ensures
        forall|d: Direction| legal_seq(cell).contains(d) <==> can_move(cell, d),
        legal_seq(cell).no_duplicates(),
        legal_seq(cell).len() == legal_move_count(cell),
{
    let up = Direction::Up;
    let down = Direction::Down;
    let left = Direction::Left;
    let right = Direction::Right;
    let s = legal_seq(cell);
    if cell == 0 {
        assert(s =~= seq![down, right]);
    } else if cell == 1 {
        assert(s =~= seq![down, left, right]);
    } else if cell == 2 {
        assert(s =~= seq![down, left]);
    } else if cell == 3 {
        assert(s =~= seq![up, down, right]);
    } else if cell == 4 {
        assert(s =~= seq![up, down, left, right]);
    } else if cell == 5 {
        assert(s =~= seq![up, down, left]);
    } else if cell == 6 {
        assert(s =~= seq![up, right]);
    } else if cell == 7 {
        assert(s =~= seq![up, left, right]);
    } else {
        assert(s =~= seq![up, left]);
    }
    assert forall|d: Direction| s.contains(d) <==> can_move(cell, d) by {
        if can_move(cell, d) {
            assert(s.contains(d));
        }
    }
}

/// Whether some cell of `cells` holds `x`.
pub open spec fn has_label(cells: Seq<u8>, x: int) -> bool {
    exists|i: int| 0 <= i < 9 && cells[i] == x
}

/// Nine distinct cells below 9 hold every label of `0..9`.
pub proof fn lemma_grid_has_every_label(cells: Seq<u8>)
    requires
        valid_grid(cells),
    ensures
        forall|x: int| 0 <= x < 9 ==> #[trigger] has_label(cells, x),
{
    let ints = cells.map_values(|c: u8| c as int);
    assert(ints.no_duplicates());
    ints.unique_seq_to_set();
    let r = set_int_range(0, 9);
    lemma_int_range(0, 9);
    assert(ints.to_set().subset_of(r));
    vstd::set_lib::lemma_subset_equality(ints.to_set(), r);
    assert forall|x: int| 0 <= x < 9 implies #[trigger] has_label(cells, x) by {
        assert(r.contains(x));
        assert(ints.to_set().contains(x));
        let i = choose|i: int| 0 <= i < ints.len() && ints[i] == x;
        assert(cells[i] == x);
    }
}

/// Sliding a tile keeps eight tiles on eight distinct cells, and the empty
/// cell moves to where the tile was.
pub proof fn lemma_slide_valid(ps: Seq<int>, d: Direction)
    requires
        valid_positions(ps),
        can_move(blank_of(ps), d),
    ensures
        valid_positions(slide(ps, d)),
        blank_of(slide(ps, d)) == neighbor_cell(blank_of(ps), d),
        ps.contains(neighbor_cell(blank_of(ps), d)),
{
    lemma_one_free_cell(ps);
    let b = blank_of(ps);
    let t = neighbor_cell(b, d);
    let qs = slide(ps, d);
    assert(0 <= t < 9);
    if !ps.contains(t) {
        assert(t == b);
    }
    assert(valid_positions(qs));
    assert(!qs.contains(t)) by {
        if qs.contains(t) {
            let v = choose|v: int| 0 <= v < 8 && qs[v] == t;
        }
    }
    lemma_one_free_cell(qs);
}

/// Trying directions keeps eight tiles on eight distinct cells.
pub proof fn lemma_play_valid(ps: Seq<int>, ds: Seq<Direction>)
    requires
        valid_positions(ps),
    ensures
        valid_positions(play(ps, ds)),
    decreases ds.len(),
{
    if ds.len() > 0 {
        lemma_play_valid(ps, ds.drop_last());
        let x = play(ps, ds.drop_last());
        if can_move(blank_of(x), ds.last()) {
            lemma_slide_valid(x, ds.last());
        }
    }
}

/// Trying `a` and then `b` is trying `a + b`.
pub proof fn lemma_play_append(ps: Seq<int>, a: Seq<Direction>, b: Seq<Direction>)
    ensures
        play(ps, a + b) == play(play(ps, a), b),
    decreases b.len(),
{
    if b.len() == 0 {
        assert(a + b =~= a);
    } else {
        assert((a + b).drop_last() =~= a + b.drop_last());
        assert((a + b).last() == b.last());
        lemma_play_append(ps, a, b.drop_last());
    }
}

/// Moving the empty cell one way and then back restores the board: for a
/// legal direction `d`, the opposite direction is legal afterwards, and
/// moving in it gives back the tiles of `s`.
pub proof fn lemma_move_reversible(s: Board, d: Direction)
    requires
        s.wf(),
        can_move(s.blank(), d),
    ensures
        can_move(blank_of(slide(s@, d)), opposite(d)),
        slide(slide(s@, d), opposite(d)) == s@,
{
    let ps = s@;
    lemma_slide_valid(ps, d);
    let qs = slide(ps, d);
    lemma_one_free_cell(ps);
    assert(neighbor_cell(neighbor_cell(blank_of(ps), d), opposite(d)) == blank_of(ps));
    assert forall|v: int| 0 <= v < 8 implies #[trigger] slide(qs, opposite(d))[v] == ps[v] by {
        if ps[v] != neighbor_cell(blank_of(ps), d) {
            assert(ps[v] != blank_of(ps)) by {
                assert(ps.contains(ps[v]));
            }
        }
    }
    assert(slide(qs, opposite(d)) =~= ps);
}

/// The moves that undo trying `ds` from `ps`, last move first.
pub open spec fn undo(ps: Seq<int>, ds: Seq<Direction>) -> Seq<Direction>
    decreases ds.len(),
{
    if ds.len() == 0 {
        seq![]
    } else {
        let before = play(ps, ds.drop_last());
        let d = ds.last();
        (if can_move(blank_of(before), d) {
            seq![opposite(d)]
        } else {
            seq![]
        }) + undo(ps, ds.drop_last())
    }
}

/// Trying `undo(ps, ds)` after `ds` comes back to `ps`, with no more moves
/// than `ds` holds.
pub proof fn lemma_undo(ps: Seq<int>, ds: Seq<Direction>)
    requires
        valid_positions(ps),
    ensures
        play(play(ps, ds), undo(ps, ds)) == ps,
        undo(ps, ds).len() <= ds.len(),
    decreases ds.len(),
{
    if ds.len() > 0 {
        let p = ds.drop_last();
        let x = play(ps, p);
        let d = ds.last();
        lemma_undo(ps, p);
        lemma_play_valid(ps, p);
        if can_move(blank_of(x), d) {
            let y = slide(x, d);
            lemma_play_append(y, seq![opposite(d)], undo(ps, p));
            lemma_slide_valid(x, d);
            let sx = Board(code_of(x));
            lemma_code_round_trip(x);
            lemma_move_reversible(sx, d);
            let one = seq![opposite(d)];
            assert(one.drop_last() =~= Seq::<Direction>::empty());
            assert(one.last() == opposite(d));
            assert(play(y, one.drop_last()) == y);
            assert(play(y, one) == step(y, opposite(d)));
        } else {
            assert(Seq::<Direction>::empty() + undo(ps, p) =~= undo(ps, p));
        }
    }
}

/// A board scrambled from the solved one has a solution: some sequence of at
/// most as many moves as the scramble tried leads back to the solved board.
pub proof fn lemma_scrambled_solvable(ds: Seq<Direction>)
    ensures
        exists|rs: Seq<Direction>|
            rs.len() <= ds.len() && #[trigger] play(play(goal_positions(), ds), rs)
                == goal_positions(),
{
    lemma_goal_valid();
    lemma_undo(goal_positions(), ds);
    let rs = undo(goal_positions(), ds);
    assert(play(play(goal_positions(), ds), rs) == goal_positions());
}

/// The solved board holds eight tiles on eight distinct cells.
pub proof fn lemma_goal_valid()
    ensures
        valid_positions(goal_positions()),
{
}

/// A move changes the summed distance of the first `n` tiles by at most one.
proof fn lemma_distance_sum_step(ps: Seq<int>, d: Direction, n: int)
    requires
        valid_positions(ps),
        can_move(blank_of(ps), d),
        0 <= n <= 8,
    ensures
        distance_sum(slide(ps, d), n) <= distance_sum(ps, n) + 1,
        forall|v: int| 0 <= v < n && #[trigger] ps[v] == neighbor_cell(blank_of(ps), d) ==> distance_sum(slide(ps, d), n) <= distance_sum(ps, n) + 1,
        (forall|v: int| 0 <= v < n ==> #[trigger] ps[v] != neighbor_cell(blank_of(ps), d)) ==> distance_sum(slide(ps, d), n) == distance_sum(ps, n),
    decreases n,
{
    lemma_one_free_cell(ps);
    if n > 0 {
        lemma_distance_sum_step(ps, d, n - 1);
        let b = blank_of(ps);
        let t = neighbor_cell(b, d);
        let qs = slide(ps, d);
        if ps[n - 1] == t {
            assert(manhattan(b, n - 1) <= manhattan(t, n - 1) + 1);
            assert forall|v: int| 0 <= v < n - 1 implies #[trigger] ps[v] != t by {
                assert(ps[v] != ps[n - 1]);
            }
        } else {
            assert(qs[n - 1] == ps[n - 1]);
        }
    }
}

/// Within `ds.len()` moves of the solved board the heuristic is at most
/// `ds.len()`, and it is `0` on the solved board.
pub proof fn lemma_heuristic_admissible(ds: Seq<Direction>)
    ensures
        heuristic(play(goal_positions(), ds)) <= ds.len(),
        heuristic(goal_positions()) == 0,
    decreases ds.len(),
{
    let g = goal_positions();
    assert(distance_sum(g, 8) == 0) by {
        reveal_with_fuel(distance_sum, 9);
    }
    if ds.len() > 0 {
        lemma_heuristic_admissible(ds.drop_last());
        lemma_play_valid(g, ds.drop_last());
        let x = play(g, ds.drop_last());
        if can_move(blank_of(x), ds.last()) {
            lemma_distance_sum_step(x, ds.last(), 8);
        }
    }
}

/// One move lowers the heuristic by at most one.
pub proof fn lemma_heuristic_one_move(a: Seq<int>, b: Seq<int>)
    requires
        valid_positions(a),
        one_move_apart(a, b),
    ensures
        valid_positions(b),
        heuristic(a) <= heuristic(b) + 1,
{
    let d = choose|d: Direction| can_move(blank_of(a), d) && #[trigger] slide(a, d) == b;
    lemma_slide_valid(a, d);
    lemma_code_round_trip(a);
    lemma_move_reversible(Board(code_of(a)), d);
    lemma_distance_sum_step(b, opposite(d), 8);
}

/// A path of legal moves that ends on the solved board has at least as many
/// moves as the heuristic of its first board.
pub proof fn lemma_heuristic_bounds_path(path: Seq<Seq<int>>)
    requires
        path.len() >= 1,
        valid_positions(path[0]),
        path.last() == goal_positions(),
        forall|i: int| 0 <= i < path.len() - 1 ==> one_move_apart(#[trigger] path[i], path[i + 1]),
    ensures
        heuristic(path[0]) <= path.len() - 1,
    decreases path.len(),
{
    if path.len() == 1 {
        lemma_heuristic_admissible(seq![]);
    } else {
        let rest = path.drop_first();
        assert forall|i: int| 0 <= i < rest.len() - 1 implies one_move_apart(#[trigger] rest[i], rest[i + 1]) by {
            assert(one_move_apart(path[i + 1], path[i + 2]));
        }
        assert(one_move_apart(path[0], path[1]));
        lemma_heuristic_one_move(path[0], path[1]);
        lemma_heuristic_bounds_path(rest);
    }
}

// ---------------------------------------------------------------------------
// The board
// ---------------------------------------------------------------------------

/// One arrangement of the puzzle, encoded in 32 bits.
#[derive(Clone, Copy, Debug, PartialEq, Eq, Hash, Structural)]
pub struct Board(u32);

impl View for Board {
    type V = Seq<int>;

    /// The cells of the eight tiles: `self@[v]` is where tile `v + 1` sits.
    open spec fn view(&self) -> Seq<int> {
        positions_of_code(self.code())
    }
}

impl Board {
    /// The encoding, which identifies the board.
    pub closed spec fn code(self) -> u32 {
        self.0
    }

    /// Whether the board holds eight tiles on eight distinct cells.
    pub open spec fn wf(self) -> bool {
        valid_positions(self@)
    }

    /// The empty cell.
    pub open spec fn blank(self) -> int {
        blank_of(self@)
    }

    /// Two boards with one encoding are one board.
    pub proof fn lemma_code_injective(a: Board, b: Board)
        ensures
            a.code() == b.code() <==> a == b,
    {
    }

    /// A board's encoding is the encoding of its tile cells.
    pub proof fn lemma_code_is_code_of_view(self)
        ensures
            self.code() == code_of(self@),
    {
        lemma_code_of_positions(self.0);
    }

    /// Two boards with the same tile cells are one board.
    pub proof fn lemma_view_injective(a: Board, b: Board)
        ensures
            a@ == b@ <==> a == b,
    {
        if a@ == b@ {
            lemma_code_of_positions(a.0);
            lemma_code_of_positions(b.0);
        }
    }

    /// The encoding, for use as a key of maps and sets.
    pub fn key(&self) -> (r: u32)
        ensures
            r == self.code(),
    {
        self.0
    }

    /// The cell of tile `value + 1`.
    fn get_pos(self, value: u8) -> (r: u8)
        requires
            value < 8,
        ensures
            r as int == self@[value as int],
            r < 16,
    {
        let offset: u32 = TILE_BIT_SIZE * (value as u32);
        let x = self.0;
        let r = (x >> offset) & TILE_MASK;
        assert(r < 16) by (bit_vector)
            requires
                r == (x >> offset) & 15u32,
        ;
        r as u8
    }

    /// Places tile `val + 1` on cell `p`, leaving the other tiles where they are.
    fn set_value(&mut self, p: u8, val: u8)
        requires
            p < 16,
            val < 8,
        ensures
            final(self)@ == old(self)@.update(val as int, p as int),
    {
        let ones: u32 = TILE_MASK;
        let shift: u32 = TILE_BIT_SIZE * (val as u32);
        let mask: u32 = ones << shift;
        let x = self.0;
        let pp = p as u32;
        let y = (x & !mask) | (pp << shift);
        self.0 = y;
        assert forall|w: int| 0 <= w < 8 implies #[trigger] positions_of_code(y)[w] == old(
            self,
        )@.update(val as int, p as int)[w] by {
            let t = (4 * w) as u32;
            assert(t == 4 * (w as u32));
            if w == val as int {
                assert(((y >> shift) & 15u32) == pp) by (bit_vector)
                    requires
                        y == (x & !(15u32 << shift)) | (pp << shift),
                        pp < 16,
                        shift <= 28,
                ;
            } else {
                assert(((y >> t) & 15u32) == ((x >> t) & 15u32)) by (bit_vector)
                    requires
                        y == (x & !(15u32 << shift)) | (pp << shift),
                        pp < 16,
                        shift <= 28,
                        t <= 28,
                        shift % 4 == 0,
                        t % 4 == 0,
                        t != shift,
                ;
            }
        }
        assert(positions_of_code(y) =~= old(self)@.update(val as int, p as int));
    }

    /// Whether some tile sits on `cell`.
    fn is_occupied(self, cell: u8) -> (r: bool)
        ensures
            r == self@.contains(cell as int),
    {
        let mut val: u8 = 0;
        while val < BOARD_AREA - 1
            invariant
                val <= 8,
                forall|v: int| 0 <= v < val ==> self@[v] != cell as int,
            decreases 8 - val,
        {
            if self.get_pos(val) == cell {
                return true;
            }
            val = val + 1;
        }
        false
    }

    /// The empty cell, found as the one cell that no tile occupies.
    fn find_space_position(self) -> (r: u8)
        requires
            self.wf(),
        ensures
            r as int == self.blank(),
            r < 9,
    {
        proof {
            lemma_one_free_cell(self@);
        }
        let mut cell: u8 = 0;
        while cell < BOARD_AREA
            invariant
                self.wf(),
                cell <= 9,
                forall|i: int| 0 <= i < cell ==> self@.contains(i),
            decreases 9 - cell,
        {
            if !self.is_occupied(cell) {
                proof {
                    lemma_one_free_cell(self@);
                }
                return cell;
            }
            cell = cell + 1;
        }
        proof {
            assert(self@.contains(self.blank()));
        }
        cell
    }

    /// Whether the empty cell, at `position`, can travel in `direction`.
    fn is_valid_movement(position: u8, direction: Direction) -> (r: bool)
        ensures
            r == can_move(position as int, direction),
    {
        match direction {
            Direction::Up => (position / BOARD_SIDE) != 0,
            Direction::Down => (position / BOARD_SIDE) != BOARD_SIDE - 1,
            Direction::Left => (position % BOARD_SIDE) != 0,
            Direction::Right => (position % BOARD_SIDE) != BOARD_SIDE - 1,
        }
    }

    /// The cell that the empty cell, at `from`, reaches in `direction`, or an
    /// error where that leaves the grid.
    fn calculate_new_position(from: u8, direction: Direction) -> (r: Result<u8, &'static str>)
        requires
            from < 9,
        ensures
            r is Ok <==> can_move(from as int, direction),
            r matches Ok(t) ==> t as int == neighbor_cell(from as int, direction) && t < 9,
    {
        if !Board::is_valid_movement(from, direction) {
            return Err("Invalid move: cannot move space in that direction");
        }
        Ok(
            match direction {
                Direction::Up => from - BOARD_SIDE,
                Direction::Down => from + BOARD_SIDE,
                Direction::Left => from - 1,
                Direction::Right => from + 1,
            },
        )
    }

    /// The tile (as `0..8`, for tiles `1..=8`) that sits on cell `p`.
    fn get_value(self, p: u8) -> (r: u8)
        requires
            self@.contains(p as int),
        ensures
            r < 8,
            self@[r as int] == p as int,
    {
        let mut val: u8 = 0;
        while val < BOARD_AREA - 1
            invariant
                val <= 8,
                self@.contains(p as int),
                forall|v: int| 0 <= v < val ==> self@[v] != p as int,
            decreases 8 - val,
        {
            if self.get_pos(val) == p {
                return val;
            }
            val = val + 1;
        }
        proof {
            let v = choose|v: int| 0 <= v < self@.len() && self@[v] == p as int;
            assert(self@[v] != p as int);
        }
        val
    }

    /// The board after the tile next to the empty cell, in `direction`,
    /// slides into the empty cell; an error where no tile lies that way.
    pub fn move_space(self, direction: Direction) -> (r: Result<Board, &'static str>)
        requires
            self.wf(),
        ensures
            r is Ok <==> can_move(self.blank(), direction),
            r matches Ok(b) ==> b@ == slide(self@, direction) && b.wf(),
    {
        let space_position = self.find_space_position();
        let space_new_position = match Self::calculate_new_position(space_position, direction) {
            Ok(t) => t,
            Err(e) => return Err(e),
        };
        proof {
            lemma_slide_valid(self@, direction);
        }
        let digit_to_move = self.get_value(space_new_position);
        let mut moved = self;
        moved.set_value(space_position, digit_to_move);
        proof {
            let ps = self@;
            assert forall|v: int| 0 <= v < 8 implies #[trigger] moved@[v] == slide(ps, direction)[v] by {
                if v != digit_to_move as int {
                    assert(ps[v] != ps[digit_to_move as int]);
                }
            }
            assert(moved@ =~= slide(ps, direction));
        }
        Ok(moved)
    }

    /// Whether the board is the solved one.
    pub fn is_solved(self) -> (r: bool)
        ensures
            r == (self@ == goal_positions()),
    {
        proof {
            lemma_goal_code();
            self.lemma_code_is_code_of_view();
        }
        self.0 == SOLVED_CODE
    }

    /// The distance between two cells, in rows plus columns.
    fn manhattan_distance(pos1: u8, pos2: u8) -> (r: u8)
        requires
            pos1 < 16,
            pos2 < 16,
        ensures
            r as int == manhattan(pos1 as int, pos2 as int),
            r <= 7,
    {
        let r1 = pos1 / BOARD_SIDE;
        let r2 = pos2 / BOARD_SIDE;
        let c1 = pos1 % BOARD_SIDE;
        let c2 = pos2 % BOARD_SIDE;
        let hdis = if c2 > c1 { c2 - c1 } else { c1 - c2 };
        let vdis = if r2 > r1 { r2 - r1 } else { r1 - r2 };
        hdis + vdis
    }

    /// The sum over the tiles of each one's distance to its solved cell: a
    /// lower bound on the moves left, never above the true number.
    pub fn heuristic_distance_to_solution(self) -> (r: u8)
        ensures
            r as int == heuristic(self@),
    {
        let solution = Self::default();
        let mut distance: u8 = 0;
        let mut val: u8 = 0;
        while val < BOARD_AREA - 1
            invariant
                val <= 8,
                solution@ == goal_positions(),
                distance as int == distance_sum(self@, val as int),
                distance <= 7 * val,
            decreases 8 - val,
        {
            let d = Self::manhattan_distance(solution.get_pos(val), self.get_pos(val));
            proof {
                assert(manhattan(val as int, self@[val as int]) == manhattan(self@[val as int], val as int));
            }
            distance = distance + d;
            val = val + 1;
        }
        distance
    }

    /// The grid the board shows: the tile on each cell, `0` on the empty one.
    pub fn into_arr(self) -> (r: [u8; 9])
        requires
            self.wf(),
        ensures
            shows(self@, r@),
    {
        let mut arr = [0u8; 9];
        let mut val: u8 = 0;
        while val < BOARD_AREA - 1
            invariant
                self.wf(),
                val <= 8,
                arr@.len() == 9,
                forall|v: int| 0 <= v < val ==> arr@[#[trigger] self@[v]] == v + 1,
                forall|i: int| 0 <= i < 9 && !(exists|v: int| 0 <= v < val && #[trigger] self@[v] == i) ==> arr@[i] == 0,
            decreases 8 - val,
        {
            let pos = self.get_pos(val);
            arr[pos as usize] = val + 1;
            proof {
                assert forall|v: int| 0 <= v < val implies arr@[#[trigger] self@[v]] == v + 1 by {
                    assert(self@[v] != self@[val as int]);
                }
            }
            val = val + 1;
        }
        proof {
            lemma_one_free_cell(self@);
            let b = self.blank();
            if exists|v: int| 0 <= v < 8 && #[trigger] self@[v] == b {
                let v = choose|v: int| 0 <= v < 8 && #[trigger] self@[v] == b;
                assert(self@.contains(b));
            }
        }
        arr
    }

    /// The board that shows the grid `arr` (the tile on each cell, `0` on the
    /// empty one).
    pub fn from_arr(arr: &[u8; 9]) -> (r: Board)
        requires
            valid_grid(arr@),
        ensures
            r.wf(),
            forall|i: int| 0 <= i < 9 && arr@[i] != 0 ==> r@[arr@[i] - 1] == i,
            shows(r@, arr@),
    {
        let mut board = Board(0);
        let mut pos: usize = 0;
        while pos < 9
            invariant
                valid_grid(arr@),
                pos <= 9,
                forall|i: int| 0 <= i < pos && arr@[i] != 0 ==> board@[arr@[i] - 1] == i,
            decreases 9 - pos,
        {
            let val = arr[pos];
            if val != 0 {
                board.set_value(pos as u8, val - 1);
                proof {
                    assert forall|i: int| 0 <= i < pos && arr@[i] != 0 implies board@[arr@[i] - 1] == i by {
                        assert(arr@[i] != arr@[pos as int]);
                    }
                }
            }
            pos = pos + 1;
        }
        proof {
            lemma_grid_has_every_label(arr@);
            let ps = board@;
            assert forall|v: int| 0 <= v < 8 implies 0 <= #[trigger] ps[v] < 9 && arr@[ps[v]] == v + 1 by {
                assert(has_label(arr@, v + 1));
                let i = choose|i: int| 0 <= i < 9 && arr@[i] == v + 1;
            }
            assert forall|v: int, w: int| 0 <= v < 8 && 0 <= w < 8 && v != w implies #[trigger] ps[v] != #[trigger] ps[w] by {
                assert(arr@[ps[v]] == v + 1 && arr@[ps[w]] == w + 1);
            }
            lemma_one_free_cell(ps);
            assert(has_label(arr@, 0));
            let z = choose|i: int| 0 <= i < 9 && arr@[i] == 0;
            assert(!ps.contains(z)) by {
                if ps.contains(z) {
                    let v = choose|v: int| 0 <= v < ps.len() && ps[v] == z;
                    assert(arr@[ps[v]] == v + 1);
                }
            }
        }
        board
    }

    /// The directions in which the empty cell can travel.
    pub fn legal_moves(self) -> (r: Vec<Direction>)
        requires
            self.wf(),
        ensures
            r@ == legal_seq(self.blank()),
            forall|d: Direction| r@.contains(d) <==> can_move(self.blank(), d),
            r@.no_duplicates(),
            r@.len() == legal_move_count(self.blank()),
    {
        let space = self.find_space_position();
        let mut r: Vec<Direction> = Vec::new();
        if Self::is_valid_movement(space, Direction::Up) {
            r.push(Direction::Up);
        }
        if Self::is_valid_movement(space, Direction::Down) {
            r.push(Direction::Down);
        }
        if Self::is_valid_movement(space, Direction::Left) {
            r.push(Direction::Left);
        }
        if Self::is_valid_movement(space, Direction::Right) {
            r.push(Direction::Right);
        }
        assert(r@ =~= legal_seq(space as int));
        proof {
            lemma_legal_seq(space as int);
        }
        r
    }

    /// The estimated length of a whole solution through this board, reached
    /// after `steps_so_far` moves: those moves plus the heuristic.
    pub fn total_cost(self, steps_so_far: usize) -> (r: u128)
        ensures
            r == heuristic(self@) + steps_so_far,
    {
        self.heuristic_distance_to_solution() as u128 + steps_so_far as u128
    }

    /// The solved board after trying each of `moves` in turn, skipping those
    /// that would push the empty cell off the grid.
    pub fn scrambled_by(moves: &[Direction]) -> (r: Board)
        ensures
            r.wf(),
            r@ == play(goal_positions(), moves@),
    {
        let mut board = Board::default();
        let mut i: usize = 0;
        while i < moves.len()
            invariant
                i <= moves@.len(),
                board.wf(),
                board@ == play(goal_positions(), moves@.take(i as int)),
            decreases moves@.len() - i,
        {
            proof {
                assert(moves@.take(i as int + 1).drop_last() =~= moves@.take(i as int));
            }
            if let Ok(b) = board.move_space(moves[i]) {
                board = b;
            }
            i = i + 1;
        }
        proof {
            assert(moves@.take(moves@.len() as int) =~= moves@);
        }
        board
    }

    /// A board reached from the solved one by `steps` directions drawn at
    /// random, each skipped where it is not legal; so it can always be solved.
    pub fn random_with_solution(steps: usize) -> (r: Board)
        ensures
            r.wf(),
            exists|ds: Seq<Direction>| ds.len() == steps && #[trigger] play(goal_positions(), ds) == r@,
    {
        let directions = all_directions();
        let mut rng = rand::rng();
        let mut moves: Vec<Direction> = Vec::new();
        let mut i: usize = 0;
        while i < steps
            invariant
                i <= steps,
                moves@.len() == i,
                directions@.len() == 4,
            decreases steps - i,
        {
            if let Some(d) = choose_direction(&directions, &mut rng) {
                moves.push(d);
            }
            i = i + 1;
        }
        let r = Board::scrambled_by(moves.as_slice());
        assert(play(goal_positions(), moves@) == r@);
        r
    }
}

/// A board with the number of moves taken to reach it.
#[derive(Clone, Copy, Debug, PartialEq, Eq, Structural)]
pub struct BoardWithSteps(pub Board, pub usize);

#[verifier::external_type_specification]
#[verifier::external_body]
pub struct ExThreadRng(ThreadRng);

/// Relies on `rand::rng`: a handle on the thread's random generator.
pub assume_specification[ rand::rng ]() -> ThreadRng;

/// Relies on rand's `IndexedRandom::choose`: `None` for an empty slice,
/// else one of its elements.
#[verifier::external_body]
fn choose_direction(directions: &[Direction], rng: &mut ThreadRng) -> (r: Option<Direction>)
    ensures
        r is None <==> directions@.len() == 0,
        r matches Some(d) ==> directions@.contains(d),
{
    directions.choose(rng).copied()
}

/// The solved board.
impl Default for Board {
    fn default() -> (r: Board)
        ensures
            r@ == goal_positions(),
            r.wf(),
    {
        proof {
            lemma_goal_code();
        }
        Board(SOLVED_CODE)
    }
}

} // verus!
