//! The search engine.
//!
//! A search pops a board from the frontier, marks it explored, stops if it is
//! the solved board, and otherwise puts on the frontier each neighbour that is
//! not explored yet, remembering the popped board as its parent. Boards are
//! keyed by their encoding in the engine's maps and sets.
use std::collections::{HashMap, HashSet};
use std::time::Instant;
use vstd::prelude::*;
use vstd::set_lib::lemma_len_subset;

use crate::board::{
    all_directions, blank_of, can_move, code_of, goal_positions, heuristic,
    lemma_code_round_trip, lemma_heuristic_bounds_path,
    lemma_play_valid, one_move_apart, play, positions_of_code, slide, valid_positions, Board,
    BoardWithSteps, Direction,
};
use crate::search_strategies::SearchStrategy;
use crate::stats::Stats;

verus! {

broadcast use vstd::std_specs::hash::group_hash_axioms;

/// The order in which a simple frontier hands out its items.
#[derive(Clone, Copy, Debug, Default, PartialEq, Eq, Structural)]
pub enum ExplorerStrategy {
    /// Depth-first: the newest item first.
    Dfs,
    /// Breadth-first: the oldest item first.
    #[default]
    Bfs,
}

#[verifier::external_type_specification]
#[verifier::external_body]
pub struct ExInstant(Instant);

/// Relies on `Instant::now`: the current time.
pub assume_specification[ Instant::now ]() -> Instant;

/// Relies on `Instant::elapsed`: the time since the instant.
pub assume_specification[ Instant::elapsed ](i: &Instant) -> core::time::Duration;

/// Relies on `Duration::as_millis`: the whole milliseconds of the duration.
pub assume_specification[ core::time::Duration::as_millis ](d: &core::time::Duration) -> u128;

/// The encoding of the board reached from encoding `c` by a move in `d`.
pub open spec fn neighbor_code(c: u32, d: Direction) -> u32 {
    code_of(slide(positions_of_code(c), d))
}

/// Whether a board with encoding `k` waits in `f`.
pub open spec fn in_frontier(f: Seq<BoardWithSteps>, k: u32) -> bool {
    exists|i: int| 0 <= i < f.len() && #[trigger] f[i].0.code() == k
}

/// Whether encoding `k` was explored or waits on the frontier.
pub open spec fn reached(e: Set<u32>, f: Seq<BoardWithSteps>, k: u32) -> bool {
    e.contains(k) || in_frontier(f, k)
}

/// Whether every legal neighbour of each explored board (but `skip`) was
/// explored or waits on the frontier.
pub open spec fn closed_under_moves(e: Set<u32>, f: Seq<BoardWithSteps>, skip: Option<u32>) -> bool {
    forall|c: u32, d: Direction|
        e.contains(c) && skip != Some(c) && can_move(blank_of(positions_of_code(c)), d) ==> reached(
            e,
            f,
            #[trigger] neighbor_code(c, d),
        )
}

/// The number of items of `f` whose board was explored.
pub open spec fn seen_count(f: Seq<BoardWithSteps>, e: Set<u32>) -> nat {
    f.filter(|x: BoardWithSteps| e.contains(x.0.code())).len()
}

/// Whether the parent link `c -> b` is sound: `b` was explored, lies one
/// move before `c`, and is one level shallower.
pub open spec fn parent_link_ok(e: Set<u32>, dm: Map<u32, usize>, c: u32, b: Board) -> bool {
    &&& b.wf()
    &&& e.contains(b.code())
    &&& dm.contains_key(c)
    &&& dm.contains_key(b.code())
    &&& dm[c] == dm[b.code()] + 1
    &&& one_move_apart(b@, positions_of_code(c))
}

/// `x + 1`, or `x` where that would pass `usize::MAX`.
pub open spec fn sat_inc(x: usize) -> usize {
    if x == usize::MAX {
        x
    } else {
        (x + 1) as usize
    }
}

/// `x + n`, or `usize::MAX` where that would pass it.
pub open spec fn sat_add(x: usize, n: int) -> usize {
    if x + n >= usize::MAX {
        usize::MAX
    } else {
        (x + n) as usize
    }
}

/// The number of the first `i` directions, in search order, that are legal
/// with the empty cell at `cell`.
pub open spec fn legal_among(cell: int, i: int) -> int
    decreases i,
{
    if i <= 0 {
        0
    } else {
        legal_among(cell, i - 1) + if can_move(
            cell,
            seq![Direction::Up, Direction::Down, Direction::Left, Direction::Right][i - 1],
        ) {
            1int
        } else {
            0int
        }
    }
}

/// A count is never negative.
proof fn lemma_legal_among_nonneg(cell: int, i: int)
    ensures
        legal_among(cell, i) >= 0,
    decreases i,
{
    if i > 0 {
        lemma_legal_among_nonneg(cell, i - 1);
    }
}

/// All four directions tried: as many as the legal moves.
proof fn lemma_legal_among_all(cell: int)
    requires
        0 <= cell < 9,
    ensures
        legal_among(cell, 4) == crate::board::legal_move_count(cell),
{
    reveal_with_fuel(legal_among, 5);
}

/// Whether `g` is `f` with at most `n` items added at the end, none of them
/// explored.
pub open spec fn grows_by(f: Seq<BoardWithSteps>, g: Seq<BoardWithSteps>, e: Set<u32>, n: int) -> bool {
    &&& f.len() <= g.len() <= f.len() + n
    &&& g.subrange(0, f.len() as int) == f
    &&& forall|i: int| f.len() <= i < g.len() ==> !e.contains((#[trigger] g[i]).0.code())
}

/// Explored boards have at most `u32::MAX` encodings, none of them `u32::MAX`.
proof fn lemma_explored_bound(e: Set<u32>)
    requires
        e.finite(),
        forall|c: u32| #[trigger] e.contains(c) ==> valid_positions(positions_of_code(c)),
    ensures
        e.len() <= u32::MAX,
{
    let all = Set::<u32>::range(0, u32::MAX);
    <u32 as vstd::set_lib::FiniteRange>::range_properties(0, u32::MAX);
    let top = u32::MAX;
    assert((top >> 0u32) & 15u32 == 15u32) by (bit_vector)
        requires
            top == 0xffff_ffffu32,
    ;
    assert(positions_of_code(top)[0] == 15);
    assert(e.subset_of(all));
    lemma_len_subset(e, all);
}

/// Popping item `i` and marking it explored keeps every reached encoding reached.
proof fn lemma_reached_after_pop(e: Set<u32>, f: Seq<BoardWithSteps>, i: int, k: u32)
    requires
        0 <= i < f.len(),
        reached(e, f, k),
    ensures
        reached(e.insert(f[i].0.code()), f.remove(i), k),
{
    if !e.contains(k) {
        let j = choose|j: int| 0 <= j < f.len() && #[trigger] f[j].0.code() == k;
        if j < i {
            assert(f.remove(i)[j] == f[j]);
        } else if j > i {
            assert(f.remove(i)[j - 1] == f[j]);
        }
    }
}

/// Adding items at the end of the frontier keeps every reached encoding reached.
proof fn lemma_reached_after_growth(e: Set<u32>, f: Seq<BoardWithSteps>, g: Seq<BoardWithSteps>, k: u32)
    requires
        f.len() <= g.len(),
        g.subrange(0, f.len() as int) == f,
        reached(e, f, k),
    ensures
        reached(e, g, k),
{
    if !e.contains(k) {
        let j = choose|j: int| 0 <= j < f.len() && #[trigger] f[j].0.code() == k;
        assert(g.subrange(0, f.len() as int)[j] == g[j]);
    }
}

/// Removing an explored item lowers the count of explored items by one.
proof fn lemma_seen_after_pop(f: Seq<BoardWithSteps>, e: Set<u32>, i: int)
    requires
        0 <= i < f.len(),
        e.contains(f[i].0.code()),
    ensures
        seen_count(f.remove(i), e) + 1 == seen_count(f, e),
{
    let pred = |x: BoardWithSteps| e.contains(x.0.code());
    let a = f.subrange(0, i);
    let b = f.subrange(i + 1, f.len() as int);
    assert(f.remove(i) =~= a + b);
    assert(f =~= a + (seq![f[i]] + b));
    Seq::filter_distributes_over_add(a, b, pred);
    Seq::filter_distributes_over_add(a, seq![f[i]] + b, pred);
    Seq::filter_distributes_over_add(seq![f[i]], b, pred);
    assert(seq![f[i]].filter(pred) =~= seq![f[i]]) by {
        reveal(Seq::filter);
        assert(seq![f[i]].drop_last() =~= Seq::<BoardWithSteps>::empty());
    }
}

/// Adding unexplored items leaves the count of explored items as it was.
proof fn lemma_seen_after_growth(f: Seq<BoardWithSteps>, g: Seq<BoardWithSteps>, e: Set<u32>)
    requires
        f.len() <= g.len(),
        g.subrange(0, f.len() as int) == f,
        forall|i: int| f.len() <= i < g.len() ==> !e.contains((#[trigger] g[i]).0.code()),
    ensures
        seen_count(g, e) == seen_count(f, e),
    decreases g.len() - f.len(),
{
    let pred = |x: BoardWithSteps| e.contains(x.0.code());
    if g.len() > f.len() {
        let h = g.drop_last();
        assert(h.subrange(0, f.len() as int) =~= g.subrange(0, f.len() as int));
        lemma_seen_after_growth(f, h, e);
        assert(g =~= h.push(g.last()));
        h.lemma_filter_push(g.last(), pred);
    } else {
        assert(g =~= f);
    }
}

/// Where the explored set is closed under moves, every board reached by
/// trying directions from an explored board was explored.
proof fn lemma_closed_reaches(e: Set<u32>, ps: Seq<int>, ds: Seq<Direction>)
    requires
        closed_under_moves(e, Seq::empty(), None),
        forall|c: u32| #[trigger] e.contains(c) ==> valid_positions(positions_of_code(c)),
        valid_positions(ps),
        e.contains(code_of(ps)),
    ensures
        e.contains(code_of(play(ps, ds))),
    decreases ds.len(),
{
    if ds.len() > 0 {
        lemma_closed_reaches(e, ps, ds.drop_last());
        let x = play(ps, ds.drop_last());
        lemma_play_valid(ps, ds.drop_last());
        let d = ds.last();
        if can_move(blank_of(x), d) {
            let c = code_of(x);
            lemma_code_round_trip(x);
            assert(reached(e, Seq::empty(), neighbor_code(c, d)));
        }
    }
}

/// The largest element of `s`, `0` for an empty `s`.
pub open spec fn seq_max(s: Seq<usize>) -> usize
    decreases s.len(),
{
    if s.len() == 0 {
        0
    } else if s.last() > seq_max(s.drop_last()) {
        s.last()
    } else {
        seq_max(s.drop_last())
    }
}

/// Distinct boards whose encodings all lie in `e` are no more than `e` holds.
proof fn lemma_distinct_boards_fit(r: Seq<Board>, e: Set<u32>)
    requires
        e.finite(),
        r.no_duplicates(),
        forall|j: int| 0 <= j < r.len() ==> e.contains((#[trigger] r[j]).code()),
    ensures
        r.len() <= e.len(),
{
    let cs = r.map_values(|b: Board| b.code());
    assert forall|j: int, k: int| 0 <= j < cs.len() && 0 <= k < cs.len() && j != k implies cs[j]
        != cs[k] by {
        Board::lemma_code_injective(r[j], r[k]);
    }
    assert(cs.no_duplicates());
    cs.unique_seq_to_set();
    assert forall|x: u32| cs.to_set().contains(x) implies e.contains(x) by {
        let j = choose|j: int| 0 <= j < cs.len() && cs[j] == x;
    }
    lemma_len_subset(cs.to_set(), e);
}

/// A search engine over the frontier `T`. Its counters are statistics only:
/// they saturate at `usize::MAX` rather than wrap.
pub struct Solver<T> {
    /// The board from which each enqueued board was reached.
    parents: HashMap<u32, Board>,
    /// The explored boards.
    boards_checked: HashSet<u32>,
    /// The frontier.
    boards_to_check: T,
    /// The frontier size after each removal.
    to_check_size: Vec<usize>,
    /// The depth given to each enqueued board.
    depth_by_board: HashMap<u32, usize>,
    /// Successor boards generated.
    generated_nodes: usize,
    /// Boards put on the frontier.
    enqueued_nodes: usize,
    /// Successors dropped as already explored.
    duplicates_pruned: usize,
    /// Largest depth given to a board.
    max_depth_reached: usize,
    /// Time of the last run, in milliseconds.
    solve_duration_ms: u128,
    /// The board the last run started from.
    start: Board,
}

impl<T: SearchStrategy<BoardWithSteps>> Solver<T> {
    /// The board that the last run started from.
    pub closed spec fn start(&self) -> Board {
        self.start
    }

    /// The encodings of the explored boards.
    pub closed spec fn explored(&self) -> Set<u32> {
        self.boards_checked@
    }

    /// Whether the last run reached the solved board.
    pub closed spec fn has_solution(&self) -> bool {
        self.boards_checked@.contains(code_of(goal_positions()))
    }

    /// The depth recorded for the solved board: the length of the solution.
    pub closed spec fn goal_depth(&self) -> nat {
        self.depth_by_board@[code_of(goal_positions())] as nat
    }

    /// The frontier sizes recorded after each removal of the last run.
    pub closed spec fn frontier_sizes(&self) -> Seq<usize> {
        self.to_check_size@
    }

    /// Successor boards generated in the last run.
    pub closed spec fn generated(&self) -> usize {
        self.generated_nodes
    }

    /// Boards put on the frontier in the last run.
    pub closed spec fn enqueued(&self) -> usize {
        self.enqueued_nodes
    }

    /// Successors dropped as already explored in the last run.
    pub closed spec fn pruned(&self) -> usize {
        self.duplicates_pruned
    }

    /// The largest depth given to a board in the last run.
    pub closed spec fn max_depth(&self) -> usize {
        self.max_depth_reached
    }

    /// The time the last run took, in milliseconds.
    pub closed spec fn duration(&self) -> u128 {
        self.solve_duration_ms
    }

    /// The frontier.
    pub closed spec fn frontier(&self) -> T {
        self.boards_to_check
    }

    /// The parent recorded for each enqueued board, by encoding.
    pub closed spec fn parents(&self) -> Map<u32, Board> {
        self.parents@
    }

    /// Whether the counters agree: every generated successor was either
    /// enqueued or pruned, where the count has not saturated.
    pub open spec fn counts_agree(&self) -> bool {
        &&& self.enqueued() <= self.generated()
        &&& self.pruned() <= self.generated()
        &&& self.generated() < usize::MAX ==> self.generated() == self.enqueued() + self.pruned()
    }

    /// Whether `a` and `b` hold the same statistics.
    closed spec fn same_counters(a: &Self, b: &Self) -> bool {
        &&& a.generated_nodes == b.generated_nodes
        &&& a.enqueued_nodes == b.enqueued_nodes
        &&& a.duplicates_pruned == b.duplicates_pruned
        &&& a.max_depth_reached == b.max_depth_reached
        &&& a.to_check_size@ == b.to_check_size@
    }

    /// The engine's invariant: the bookkeeping is consistent.
    pub closed spec fn well_formed(&self) -> bool {
        let e = self.boards_checked@;
        let p = self.parents@;
        let dm = self.depth_by_board@;
        let f = self.boards_to_check.pending();
        let s = self.start;
        &&& self.boards_to_check.well_formed()
        &&& s.wf()
        &&& e.finite()
        &&& !p.contains_key(s.code())
        &&& forall|c: u32| #[trigger] dm.contains_key(c) ==> c == s.code() || p.contains_key(c)
        &&& forall|c: u32| #[trigger]
            e.contains(c) ==> dm.contains_key(c) && valid_positions(positions_of_code(c))
        &&& forall|c: u32| #[trigger] p.contains_key(c) ==> parent_link_ok(e, dm, c, p[c])
        &&& forall|c: u32| #[trigger]
            dm.contains_key(c) ==> dm[c] + (if e.contains(c) {
                1int
            } else {
                0int
            }) <= e.len()
        &&& forall|i: int|
            0 <= i < f.len() ==> (#[trigger] f[i]).0.wf() && dm.contains_key(f[i].0.code())
        &&& e.len() == 0 || e.contains(s.code())
        &&& dm.contains_key(s.code()) ==> dm[s.code()] == 0
        &&& e.contains(s.code()) || forall|i: int| 0 <= i < f.len() ==> (#[trigger] f[i]).0 == s
        &&& forall|c: u32| #[trigger] dm.contains_key(c) ==> dm[c] <= self.max_depth_reached
        &&& forall|i: int|
            0 <= i < self.to_check_size@.len() ==> #[trigger] self.to_check_size@[i]
                <= self.enqueued_nodes
    }

    /// Whether `a` and `b` agree on all the search's bookkeeping but the
    /// statistics.
    closed spec fn same_search(a: &Self, b: &Self) -> bool {
        &&& a.parents@ == b.parents@
        &&& a.boards_checked@ == b.boards_checked@
        &&& a.boards_to_check == b.boards_to_check
        &&& a.depth_by_board@ == b.depth_by_board@
        &&& a.start == b.start
    }

    /// Starts a run from `start`: clears the bookkeeping and the frontier, then
    /// puts `start` on the frontier at depth 0.
    fn init_search(&mut self, start: Board)
        requires
            old(self).boards_to_check.well_formed(),
            start.wf(),
        ensures
            final(self).well_formed(),
            final(self).start == start,
            final(self).boards_checked@ == Set::<u32>::empty(),
            final(self).boards_to_check.pending() == seq![BoardWithSteps(start, 0)],
            final(self).generated_nodes == 0,
            final(self).enqueued_nodes == 0,
            final(self).duplicates_pruned == 0,
            final(self).max_depth_reached == 0,
            final(self).to_check_size@.len() == 0,
    {
        loop
            invariant
                self.boards_to_check.well_formed(),
            ensures
                self.boards_to_check.well_formed(),
                self.boards_to_check.pending().len() == 0,
            decreases self.boards_to_check.pending().len(),
        {
            match self.boards_to_check.get_next() {
                None => break,
                Some(_) => {},
            }
        }
        self.parents.clear();
        self.boards_checked.clear();
        self.depth_by_board.clear();
        self.to_check_size.clear();
        self.generated_nodes = 0;
        self.enqueued_nodes = 0;
        self.duplicates_pruned = 0;
        self.max_depth_reached = 0;
        self.start = start;
        self.boards_to_check.enqueue(BoardWithSteps(start, 0));
        self.depth_by_board.insert(start.key(), 0);
        proof {
            assert(self.boards_to_check.pending() =~= seq![BoardWithSteps(start, 0)]);
        }
    }

    /// Records the frontier size.
    fn record_frontier_size(&mut self)
        requires
            old(self).well_formed(),
            old(self).enqueued_nodes == usize::MAX || old(self).boards_to_check.pending().len()
                <= old(self).enqueued_nodes,
        ensures
            final(self).generated_nodes == old(self).generated_nodes,
            final(self).enqueued_nodes == old(self).enqueued_nodes,
            final(self).duplicates_pruned == old(self).duplicates_pruned,
            final(self).max_depth_reached == old(self).max_depth_reached,
            final(self).well_formed(),
            Self::same_search(old(self), final(self)),
            final(self).to_check_size@ == old(self).to_check_size@.push(
                old(self).boards_to_check.pending().len() as usize,
            ),
    {
        let n = self.boards_to_check.len();
        self.to_check_size.push(n);
    }

    /// Marks `board` as explored.
    fn mark_explored(&mut self, board: Board)
        requires
            old(self).well_formed(),
            board.wf(),
            old(self).depth_by_board@.contains_key(board.code()),
            old(self).boards_checked@.contains(old(self).start.code()) || board == old(self).start,
        ensures
            final(self).well_formed(),
            final(self).boards_checked@ == old(self).boards_checked@.insert(board.code()),
            final(self).parents@ == old(self).parents@,
            final(self).boards_to_check == old(self).boards_to_check,
            final(self).depth_by_board@ == old(self).depth_by_board@,
            final(self).start == old(self).start,
            Self::same_counters(old(self), final(self)),
    {
        let ghost e = self.boards_checked@;
        self.boards_checked.insert(board.key());
        proof {
            let e2 = self.boards_checked@;
            assert(positions_of_code(board.code()) == board@);
            assert forall|c: u32| #[trigger] self.depth_by_board@.contains_key(c) implies self.depth_by_board@[c]
                + (if e2.contains(c) { 1int } else { 0int }) <= e2.len() by {
                if !e.contains(board.code()) {
                    assert(e2.len() == e.len() + 1);
                } else {
                    assert(e2 =~= e);
                }
            }
        }
    }

    /// A new engine over the empty frontier `search_strategy`.
    pub fn new(search_strategy: T) -> (r: Solver<T>)
        requires
            search_strategy.well_formed(),
            search_strategy.pending().len() == 0,
        ensures
            r.well_formed(),
            !r.has_solution(),
            r.explored() == Set::<u32>::empty(),
            r.frontier() == search_strategy,
            r.frontier_sizes() == Seq::<usize>::empty(),
            r.generated() == 0,
            r.enqueued() == 0,
            r.pruned() == 0,
            r.max_depth() == 0,
    {
        let r = Self {
            parents: HashMap::new(),
            boards_checked: HashSet::new(),
            boards_to_check: search_strategy,
            to_check_size: Vec::new(),
            depth_by_board: HashMap::new(),
            generated_nodes: 0,
            enqueued_nodes: 0,
            duplicates_pruned: 0,
            max_depth_reached: 0,
            solve_duration_ms: 0,
            start: Board::default(),
        };
        r
    }

    /// Puts `child`, one move from the explored `parent`, on the frontier,
    /// recording its parent and its depth.
    fn enqueue_successor(&mut self, parent: Board, child: Board)
        requires
            old(self).well_formed(),
            parent.wf(),
            child.wf(),
            old(self).boards_checked@.contains(parent.code()),
            !old(self).boards_checked@.contains(child.code()),
            one_move_apart(parent@, child@),
        ensures
            final(self).well_formed(),
            final(self).boards_checked@ == old(self).boards_checked@,
            final(self).start == old(self).start,
            grows_by(
                old(self).boards_to_check.pending(),
                final(self).boards_to_check.pending(),
                old(self).boards_checked@,
                1,
            ),
            in_frontier(final(self).boards_to_check.pending(), child.code()),
            old(self).depth_by_board@.contains_key(parent.code()),
            ({
                let depth = old(self).depth_by_board@[parent.code()] + 1;
                &&& final(self).boards_to_check.pending() == old(self).boards_to_check.pending().push(
                    BoardWithSteps(child, depth as usize),
                )
                &&& final(self).max_depth_reached == if depth > old(self).max_depth_reached {
                    depth
                } else {
                    old(self).max_depth_reached as int
                }
            }),
            final(self).parents@ == old(self).parents@.insert(child.code(), parent),
            final(self).depth_by_board@ == old(self).depth_by_board@.insert(
                child.code(),
                (old(self).depth_by_board@[parent.code()] + 1) as usize,
            ),
            final(self).boards_to_check.policy() == old(self).boards_to_check.policy(),
            final(self).enqueued_nodes == sat_inc(old(self).enqueued_nodes),
            final(self).generated_nodes == old(self).generated_nodes,
            final(self).duplicates_pruned == old(self).duplicates_pruned,
            final(self).to_check_size@ == old(self).to_check_size@,
    {
        let ghost e = self.boards_checked@;
        let ghost dm = self.depth_by_board@;
        let ghost p = self.parents@;
        let ghost f = self.boards_to_check.pending();
        proof {
            lemma_explored_bound(e);
            assert(dm.contains_key(parent.code()));
            assert(dm[parent.code()] + 1 <= e.len());
        }
        let parent_depth = match self.depth_by_board.get(&parent.key()) {
            Some(d) => *d,
            None => 0,
        };
        let depth = parent_depth + 1;
        self.boards_to_check.enqueue(BoardWithSteps(child, depth));
        self.enqueued_nodes = self.enqueued_nodes.saturating_add(1);
        self.parents.insert(child.key(), parent);
        self.depth_by_board.insert(child.key(), depth);
        if depth > self.max_depth_reached {
            self.max_depth_reached = depth;
        }
        proof {
            let f2 = self.boards_to_check.pending();
            let p2 = self.parents@;
            let dm2 = self.depth_by_board@;
            let s = self.start;
            let k = child.code();
            assert(child@ == positions_of_code(k));
            assert(s.code() != k);
            assert(f2.subrange(0, f.len() as int) =~= f);
            assert(f2[f.len() as int].0.code() == k);
            assert forall|c: u32| #[trigger] p2.contains_key(c) implies parent_link_ok(e, dm2, c, p2[c]) by {
                if c != k {
                    assert(parent_link_ok(e, dm, c, p[c]));
                    assert(p[c].code() != k);
                }
            }
            assert forall|c: u32| #[trigger] dm2.contains_key(c) implies dm2[c] + (if e.contains(c) {
                1int
            } else {
                0int
            }) <= e.len() by {
                if c != k {
                    assert(dm.contains_key(c));
                }
            }
            assert forall|i: int| 0 <= i < f2.len() implies (#[trigger] f2[i]).0.wf() && dm2.contains_key(
                f2[i].0.code(),
            ) by {
                if i < f.len() {
                    assert(f2[i] == f[i]);
                }
            }
            assert forall|c: u32| #[trigger] e.contains(c) implies dm2.contains_key(c) && valid_positions(
                positions_of_code(c),
            ) by {
                assert(dm.contains_key(c));
            }
        }
    }

    /// Tries the move in `dir` from the explored `parent`: counts the
    /// successor, then enqueues it unless it was explored.
    fn process_move(&mut self, parent: Board, dir: Direction)
        requires
            old(self).well_formed(),
            parent.wf(),
            old(self).boards_checked@.contains(parent.code()),
        ensures
            final(self).well_formed(),
            final(self).boards_checked@ == old(self).boards_checked@,
            final(self).start == old(self).start,
            grows_by(
                old(self).boards_to_check.pending(),
                final(self).boards_to_check.pending(),
                old(self).boards_checked@,
                1,
            ),
            can_move(parent.blank(), dir) ==> reached(
                final(self).boards_checked@,
                final(self).boards_to_check.pending(),
                neighbor_code(parent.code(), dir),
            ),
            final(self).to_check_size@ == old(self).to_check_size@,
            final(self).enqueued_nodes >= old(self).enqueued_nodes,
            final(self).enqueued_nodes < usize::MAX ==> final(self).boards_to_check.pending().len()
                - old(self).boards_to_check.pending().len() == final(self).enqueued_nodes - old(
                self,
            ).enqueued_nodes,
            old(self).counts_agree() ==> final(self).counts_agree(),
            final(self).boards_to_check.policy() == old(self).boards_to_check.policy(),
            !can_move(parent.blank(), dir) ==> {
                &&& Self::same_counters(old(self), final(self))
                &&& final(self).boards_to_check.pending() == old(self).boards_to_check.pending()
                &&& final(self).parents@ == old(self).parents@
                &&& final(self).depth_by_board@ == old(self).depth_by_board@
            },
            can_move(parent.blank(), dir) && old(self).boards_checked@.contains(
                neighbor_code(parent.code(), dir),
            ) ==> {
                &&& final(self).generated_nodes == sat_inc(old(self).generated_nodes)
                &&& final(self).duplicates_pruned == sat_inc(old(self).duplicates_pruned)
                &&& final(self).enqueued_nodes == old(self).enqueued_nodes
                &&& final(self).max_depth_reached == old(self).max_depth_reached
                &&& final(self).boards_to_check.pending() == old(self).boards_to_check.pending()
                &&& final(self).parents@ == old(self).parents@
                &&& final(self).depth_by_board@ == old(self).depth_by_board@
            },
            can_move(parent.blank(), dir) && !old(self).boards_checked@.contains(
                neighbor_code(parent.code(), dir),
            ) ==> {
                &&& final(self).generated_nodes == sat_inc(old(self).generated_nodes)
                &&& final(self).enqueued_nodes == sat_inc(old(self).enqueued_nodes)
                &&& final(self).duplicates_pruned == old(self).duplicates_pruned
                &&& final(self).boards_to_check.pending().len() == old(
                    self,
                ).boards_to_check.pending().len() + 1
                &&& final(self).boards_to_check.pending().last().0@ == slide(parent@, dir)
                &&& final(self).boards_to_check.pending().last().0.code() == neighbor_code(
                    parent.code(),
                    dir,
                )
                &&& final(self).parents@ == old(self).parents@.insert(
                    neighbor_code(parent.code(), dir),
                    parent,
                )
                &&& final(self).boards_to_check.pending() == old(
                    self,
                ).boards_to_check.pending().push(
                    BoardWithSteps(
                        final(self).boards_to_check.pending().last().0,
                        (old(self).depth_by_board@[parent.code()] + 1) as usize,
                    ),
                )
                &&& final(self).depth_by_board@ == old(self).depth_by_board@.insert(
                    neighbor_code(parent.code(), dir),
                    (old(self).depth_by_board@[parent.code()] + 1) as usize,
                )
            },
    {
        let ghost f = self.boards_to_check.pending();
        match parent.move_space(dir) {
            Ok(child) => {
                self.generated_nodes = self.generated_nodes.saturating_add(1);
                proof {
                    assert(parent@ == positions_of_code(parent.code()));
                    child.lemma_code_is_code_of_view();
                    assert(one_move_apart(parent@, child@));
                }
                if !self.boards_checked.contains(&child.key()) {
                    self.enqueue_successor(parent, child);
                    proof {
                        assert(self.boards_to_check.pending().last() == BoardWithSteps(
                            child,
                            self.boards_to_check.pending().last().1,
                        ));
                    }
                } else {
                    self.duplicates_pruned = self.duplicates_pruned.saturating_add(1);
                    proof {
                        assert(self.boards_to_check.pending().subrange(0, f.len() as int) =~= f);
                    }
                }
            },
            Err(_) => {
                proof {
                    assert(self.boards_to_check.pending().subrange(0, f.len() as int) =~= f);
                }
            },
        }
    }

    /// Tries the four moves from the explored `board`.
    fn expand_neighbors(&mut self, board: Board)
        requires
            old(self).well_formed(),
            board.wf(),
            old(self).boards_checked@.contains(board.code()),
        ensures
            final(self).well_formed(),
            final(self).boards_checked@ == old(self).boards_checked@,
            final(self).start == old(self).start,
            grows_by(
                old(self).boards_to_check.pending(),
                final(self).boards_to_check.pending(),
                old(self).boards_checked@,
                4,
            ),
            forall|d: Direction|
                can_move(board.blank(), d) ==> reached(
                    final(self).boards_checked@,
                    final(self).boards_to_check.pending(),
                    #[trigger] neighbor_code(board.code(), d),
                ),
            final(self).to_check_size@ == old(self).to_check_size@,
            final(self).enqueued_nodes >= old(self).enqueued_nodes,
            final(self).enqueued_nodes < usize::MAX ==> final(self).boards_to_check.pending().len()
                - old(self).boards_to_check.pending().len() == final(self).enqueued_nodes - old(
                self,
            ).enqueued_nodes,
            old(self).counts_agree() ==> final(self).counts_agree(),
            final(self).generated_nodes == sat_add(
                old(self).generated_nodes,
                crate::board::legal_move_count(board.blank()),
            ),
    {
        let directions = all_directions();
        let ghost e = self.boards_checked@;
        let ghost f0 = self.boards_to_check.pending();
        let mut i: usize = 0;
        assert(f0.subrange(0, f0.len() as int) =~= f0);
        while i < 4
            invariant
                self.well_formed(),
                board.wf(),
                self.boards_checked@ == e,
                e.contains(board.code()),
                self.start == old(self).start,
                i <= 4,
                self.to_check_size@ == old(self).to_check_size@,
                self.enqueued_nodes >= old(self).enqueued_nodes,
                self.enqueued_nodes < usize::MAX ==> self.boards_to_check.pending().len()
                    - old(self).boards_to_check.pending().len() == self.enqueued_nodes - old(
                    self,
                ).enqueued_nodes,
                old(self).counts_agree() ==> self.counts_agree(),
                self.generated_nodes == sat_add(
                    old(self).generated_nodes,
                    legal_among(board.blank(), i as int),
                ),
                directions@ == seq![Direction::Up, Direction::Down, Direction::Left, Direction::Right],
                grows_by(f0, self.boards_to_check.pending(), e, i as int),
                forall|j: int|
                    0 <= j < i && can_move(board.blank(), directions@[j]) ==> reached(
                        e,
                        self.boards_to_check.pending(),
                        #[trigger] neighbor_code(board.code(), directions@[j]),
                    ),
            decreases 4 - i,
        {
            let ghost f1 = self.boards_to_check.pending();
            let ghost g1 = self.generated_nodes;
            self.process_move(board, directions[i]);
            proof {
                let cell = board.blank();
                assert(legal_among(cell, i + 1) == legal_among(cell, i as int) + if can_move(
                    cell,
                    directions@[i as int],
                ) {
                    1int
                } else {
                    0int
                });
                let g0 = old(self).generated_nodes;
                let n = legal_among(cell, i as int);
                assert(g1 == sat_add(g0, n));
                assert(n >= 0) by {
                    lemma_legal_among_nonneg(cell, i as int);
                }
                if can_move(cell, directions@[i as int]) {
                    assert(self.generated_nodes == sat_inc(g1));
                    assert(sat_inc(sat_add(g0, n)) == sat_add(g0, n + 1));
                } else {
                    assert(self.generated_nodes == g1);
                }
                let f2 = self.boards_to_check.pending();
                assert forall|j: int|
                    0 <= j < i + 1 && can_move(board.blank(), directions@[j]) implies reached(
                    e,
                    f2,
                    #[trigger] neighbor_code(board.code(), directions@[j]),
                ) by {
                    if j < i {
                        lemma_reached_after_growth(e, f1, f2, neighbor_code(board.code(), directions@[j]));
                    }
                }
                assert(f2.subrange(0, f0.len() as int) =~= f1.subrange(0, f0.len() as int));
                assert forall|k: int| f0.len() <= k < f2.len() implies !e.contains((#[trigger] f2[k]).0.code()) by {
                    if k < f1.len() {
                        assert(f2[k] == f1[k]);
                    }
                }
            }
            i = i + 1;
        }
        proof {
            crate::board::lemma_one_free_cell(board@);
            lemma_legal_among_all(board.blank());
            assert forall|d: Direction| can_move(board.blank(), d) implies reached(
                e,
                self.boards_to_check.pending(),
                #[trigger] neighbor_code(board.code(), d),
            ) by {
                match d {
                    Direction::Up => assert(directions@[0] == d),
                    Direction::Down => assert(directions@[1] == d),
                    Direction::Left => assert(directions@[2] == d),
                    Direction::Right => assert(directions@[3] == d),
                }
            }
        }
    }

    /// Ends a run that found `board`, recording its duration.
    fn finish_with_solution(&mut self, start: Instant, board: Board) -> (r: Option<Board>)
        requires
            old(self).well_formed(),
        ensures
            final(self).well_formed(),
            Self::same_search(old(self), final(self)),
            Self::same_counters(old(self), final(self)),
            r == Some(board),
    {
        self.solve_duration_ms = start.elapsed().as_millis();
        Some(board)
    }

    /// Ends a run that exhausted the frontier, recording its duration.
    fn finish_without_solution(&mut self, start: Instant)
        requires
            old(self).well_formed(),
        ensures
            final(self).well_formed(),
            Self::same_search(old(self), final(self)),
            Self::same_counters(old(self), final(self)),
    {
        self.solve_duration_ms = start.elapsed().as_millis();
    }

    /// Searches from `board` until the solved board is popped or the frontier
    /// runs dry. `Some` holds the solved board; `None` comes only when no
    /// sequence of moves leads from `board` to the solved board.
    pub fn solve(&mut self, board: Board) -> (r: Option<Board>)
        requires
            old(self).well_formed(),
            board.wf(),
        ensures
            final(self).well_formed(),
            final(self).start() == board,
            r is Some <==> final(self).has_solution(),
            r matches Some(b) ==> b@ == goal_positions(),
            r is None ==> forall|ds: Seq<Direction>| #[trigger] play(board@, ds) != goal_positions(),
            final(self).counts_agree(),
            final(self).enqueued() < usize::MAX ==> final(self).frontier_sizes().len()
                + final(self).frontier().pending().len() == final(self).enqueued() + 1,
            forall|i: int|
                0 <= i < final(self).frontier_sizes().len()
                    ==> #[trigger] final(self).frontier_sizes()[i] <= final(self).enqueued(),
            final(self).explored().len() <= final(self).frontier_sizes().len(),
            final(self).has_solution() ==> final(self).goal_depth() <= final(self).max_depth(),
            board@ == goal_positions() ==> {
                &&& r == Some(board)
                &&& final(self).goal_depth() == 0
                &&& final(self).explored().len() == 1
                &&& final(self).generated() == 0
                &&& final(self).enqueued() == 0
                &&& final(self).pruned() == 0
                &&& final(self).max_depth() == 0
                &&& final(self).frontier_sizes() == seq![0usize]
            },
    {
        self.init_search(board);
        let start = Instant::now();
        let ghost goal = code_of(goal_positions());
        proof {
            assert(self.boards_to_check.pending()[0].0.code() == board.code());
        }
        loop
            invariant
                self.well_formed(),
                self.start == board,
                goal == code_of(goal_positions()),
                !self.boards_checked@.contains(goal),
                closed_under_moves(self.boards_checked@, self.boards_to_check.pending(), None),
                self.boards_checked@.contains(board.code()) || in_frontier(
                    self.boards_to_check.pending(),
                    board.code(),
                ),
                self.counts_agree(),
                self.enqueued_nodes < usize::MAX ==> self.to_check_size@.len()
                    + self.boards_to_check.pending().len() == self.enqueued_nodes + 1,
                self.boards_checked@.len() <= self.to_check_size@.len(),
                self.boards_checked@.len() == 0 ==> {
                    &&& self.generated_nodes == 0
                    &&& self.enqueued_nodes == 0
                    &&& self.duplicates_pruned == 0
                    &&& self.max_depth_reached == 0
                    &&& self.to_check_size@.len() == 0
                    &&& self.boards_to_check.pending().len() == 1
                },
            decreases
                u32::MAX - self.boards_checked@.len(),
                self.boards_to_check.pending().len() + 4 * seen_count(
                    self.boards_to_check.pending(),
                    self.boards_checked@,
                ),
        {
            let ghost e = self.boards_checked@;
            let ghost f = self.boards_to_check.pending();
            let ghost i = self.boards_to_check.next_index();
            proof {
                lemma_explored_bound(e);
            }
            match self.boards_to_check.get_next() {
                None => {
                    proof {
                        assert(f.len() == 0);
                        assert(self.boards_to_check.pending() =~= Seq::<BoardWithSteps>::empty());
                    }
                    self.finish_without_solution(start);
                    proof {
                        let e = self.boards_checked@;
                        assert(e.contains(board.code()));
                        assert(!e.contains(goal));
                        board.lemma_code_is_code_of_view();
                        assert(closed_under_moves(e, Seq::empty(), None));
                        assert forall|ds: Seq<Direction>| #[trigger] play(board@, ds) != goal_positions() by {
                            lemma_closed_reaches(e, board@, ds);
                            assert(e.contains(code_of(play(board@, ds))));
                        }
                        assert(!self.has_solution());
                    }
                    return None;
                },
                Some(item) => {
                    let b = item.0;
                    let ghost k = b.code();
                    let ghost f1 = self.boards_to_check.pending();
                    assert(f[i] == item);
                    self.mark_explored(b);
                    self.record_frontier_size();
                    proof {
                        lemma_code_round_trip(b@);
                        lemma_code_round_trip(goal_positions());
                    }
                    if b.is_solved() {
                        proof {
                            b.lemma_code_is_code_of_view();
                            board.lemma_code_is_code_of_view();
                            if board@ == goal_positions() {
                                assert(!e.contains(board.code()));
                                assert(e.len() == 0);
                                assert(f.len() == 1);
                                assert(f[0].0 == board);
                                assert(b == board);
                                assert(self.boards_checked@ =~= Set::<u32>::empty().insert(k));
                                assert(self.to_check_size@ =~= seq![0usize]);
                            }
                        }
                        return self.finish_with_solution(start, b);
                    }
                    proof {
                        b.lemma_code_is_code_of_view();
                        let e1 = self.boards_checked@;
                        assert(e1 == e.insert(k));
                        assert forall|c: u32, d: Direction|
                            e1.contains(c) && Some(k) != Some(c) && can_move(blank_of(positions_of_code(c)), d)
                            implies reached(e1, f1, #[trigger] neighbor_code(c, d)) by {
                            lemma_reached_after_pop(e, f, i, neighbor_code(c, d));
                        }
                        assert(self.boards_checked@.contains(board.code()) || in_frontier(f1, board.code())) by {
                            if !e.contains(board.code()) {
                                lemma_reached_after_pop(e, f, i, board.code());
                            }
                        }
                    }
                    self.expand_neighbors(b);
                    proof {
                        let e1 = self.boards_checked@;
                        let f2 = self.boards_to_check.pending();
                        assert forall|c: u32, d: Direction|
                            e1.contains(c) && can_move(blank_of(positions_of_code(c)), d)
                            implies reached(e1, f2, #[trigger] neighbor_code(c, d)) by {
                            if c != k {
                                lemma_reached_after_growth(e1, f1, f2, neighbor_code(c, d));
                            }
                        }
                        if !e.contains(board.code()) && !e1.contains(board.code()) {
                            lemma_reached_after_growth(e1, f1, f2, board.code());
                        }
                        lemma_explored_bound(e1);
                        lemma_seen_after_growth(f1, f2, e1);
                        if e.contains(k) {
                            assert(e1 =~= e);
                            lemma_seen_after_pop(f, e, i);
                        } else {
                            assert(e1.len() == e.len() + 1);
                        }
                    }
                },
            }
        }
    }

    /// The boards from the start of the last run to the solved board, found
    /// by following parents back from the solved board. Each board is one
    /// legal move from the next; after a run that found a solution the first
    /// is the start and there are `goal_depth() + 1` of them.
    #[verifier::rlimit(40)]
    pub fn step_by_step_solution(&self) -> (r: Vec<Board>)
        requires
            self.well_formed(),
        ensures
            r@.len() >= 1,
            r@.last()@ == goal_positions(),
            forall|i: int| 0 <= i < r@.len() ==> (#[trigger] r@[i]).wf(),
            forall|i: int| 0 <= i < r@.len() - 1 ==> one_move_apart(#[trigger] r@[i]@, r@[i + 1]@),
            self.has_solution() ==> r@[0] == self.start() && r@.len() == self.goal_depth() + 1,
            self.has_solution() ==> heuristic(self.start()@) <= r@.len() - 1,
            r@.no_duplicates(),
            self.has_solution() ==> r@.len() <= self.explored().len(),
    {
        let ghost dm = self.depth_by_board@;
        let ghost goal = code_of(goal_positions());
        let mut c = Board::default();
        let mut backwards: Vec<Board> = Vec::new();
        backwards.push(c);
        proof {
            c.lemma_code_is_code_of_view();
        }
        loop
            invariant
                self.well_formed(),
                dm == self.depth_by_board@,
                goal == code_of(goal_positions()),
                backwards@.len() >= 1,
                backwards@[0]@ == goal_positions(),
                backwards@.last() == c,
                forall|j: int| 0 <= j < backwards@.len() ==> (#[trigger] backwards@[j]).wf(),
                forall|j: int|
                    0 <= j < backwards@.len() - 1 ==> one_move_apart(
                        (#[trigger] backwards@[j + 1])@,
                        backwards@[j]@,
                    ),
                self.has_solution() ==> dm.contains_key(c.code()) && dm.contains_key(goal) && dm[c.code()]
                    + backwards@.len() - 1 == dm[goal],
                dm.contains_key(c.code()) ==> forall|j: int|
                    0 <= j < backwards@.len() ==> dm.contains_key((#[trigger] backwards@[j]).code())
                        && dm[backwards@[j].code()] == dm[c.code()] + (backwards@.len() - 1 - j),
                !dm.contains_key(c.code()) ==> backwards@.len() == 1,
                self.has_solution() ==> forall|j: int|
                    0 <= j < backwards@.len() ==> self.boards_checked@.contains(
                        (#[trigger] backwards@[j]).code(),
                    ),
            ensures
                backwards@.len() >= 1,
                backwards@[0]@ == goal_positions(),
                backwards@.last() == c,
                forall|j: int| 0 <= j < backwards@.len() ==> (#[trigger] backwards@[j]).wf(),
                forall|j: int|
                    0 <= j < backwards@.len() - 1 ==> one_move_apart(
                        (#[trigger] backwards@[j + 1])@,
                        backwards@[j]@,
                    ),
                self.has_solution() ==> dm.contains_key(c.code()) && dm[c.code()] + backwards@.len()
                    - 1 == dm[goal],
                !self.parents@.contains_key(c.code()),
                dm.contains_key(c.code()) ==> forall|j: int|
                    0 <= j < backwards@.len() ==> dm.contains_key((#[trigger] backwards@[j]).code())
                        && dm[backwards@[j].code()] == dm[c.code()] + (backwards@.len() - 1 - j),
                !dm.contains_key(c.code()) ==> backwards@.len() == 1,
                self.has_solution() ==> forall|j: int|
                    0 <= j < backwards@.len() ==> self.boards_checked@.contains(
                        (#[trigger] backwards@[j]).code(),
                    ),
            decreases
                if dm.contains_key(c.code()) {
                    dm[c.code()] as int
                } else {
                    0
                },
        {
            match self.parents.get(&c.key()) {
                Some(nc) => {
                    let nc = *nc;
                    proof {
                        assert(parent_link_ok(self.boards_checked@, dm, c.code(), nc));
                    }
                    backwards.push(nc);
                    c = nc;
                },
                None => break,
            }
        }
        proof {
            if self.has_solution() {
                Board::lemma_code_injective(c, self.start);
            }
            assert forall|j: int, k: int|
                0 <= j < backwards@.len() && 0 <= k < backwards@.len() && j != k implies backwards@[j]
                != backwards@[k] by {
                if dm.contains_key(c.code()) {
                    assert(dm[backwards@[j].code()] != dm[backwards@[k].code()]);
                }
            }
        }
        let n = backwards.len();
        let mut r: Vec<Board> = Vec::new();
        let mut i: usize = n;
        while i > 0
            invariant
                n == backwards@.len(),
                i <= n,
                r@.len() == n - i,
                forall|j: int| 0 <= j < r@.len() ==> #[trigger] r@[j] == backwards@[n - 1 - j],
            decreases i,
        {
            i = i - 1;
            r.push(backwards[i]);
        }
        proof {
            assert forall|j: int| 0 <= j < r@.len() - 1 implies one_move_apart(#[trigger] r@[j]@, r@[j + 1]@) by {
                assert(r@[j] == backwards@[(n - 2 - j) + 1]);
                assert(r@[j + 1] == backwards@[n - 2 - j]);
            }
            assert forall|j: int| 0 <= j < r@.len() implies (#[trigger] r@[j]).wf() by {
                assert(r@[j] == backwards@[n - 1 - j]);
            }
            let path = r@.map_values(|b: Board| b@);
            assert forall|j: int| 0 <= j < path.len() - 1 implies one_move_apart(#[trigger] path[j], path[j + 1]) by {
                assert(one_move_apart(r@[j]@, r@[j + 1]@));
            }
            assert(r@[0].wf());
            lemma_heuristic_bounds_path(path);
            assert forall|j: int, k: int| 0 <= j < r@.len() && 0 <= k < r@.len() && j != k implies r@[j]
                != r@[k] by {
                assert(r@[j] == backwards@[n - 1 - j]);
                assert(r@[k] == backwards@[n - 1 - k]);
            }
            if self.has_solution() {
                assert forall|j: int| 0 <= j < r@.len() implies self.boards_checked@.contains(
                    (#[trigger] r@[j]).code(),
                ) by {
                    assert(r@[j] == backwards@[n - 1 - j]);
                }
                lemma_distinct_boards_fit(r@, self.boards_checked@);
            }
        }
        r
    }

    /// What the last run did: the explored count, the solution length, the
    /// largest frontier size recorded, the counters and the duration.
    pub fn get_solution_stats(&self) -> (r: Stats)
        requires
            self.well_formed(),
        ensures
            r.nodes_explored == self.explored().len(),
            self.has_solution() ==> r.solution_moves == self.goal_depth(),
            r.max_frontier == seq_max(self.frontier_sizes()),
            r.generated_nodes == self.generated(),
            r.enqueued_nodes == self.enqueued(),
            r.duplicates_pruned == self.pruned(),
            r.max_depth_reached == self.max_depth(),
            r.duration_ms == self.duration(),
            self.has_solution() ==> r.solution_moves <= r.max_depth_reached,
            self.has_solution() ==> r.solution_moves + 1 <= r.nodes_explored,
            r.max_frontier <= r.enqueued_nodes,
            self.counts_agree() && r.generated_nodes < usize::MAX ==> r.generated_nodes
                == r.enqueued_nodes + r.duplicates_pruned,
    {
        let mut max_frontier: usize = 0;
        let mut i: usize = 0;
        while i < self.to_check_size.len()
            invariant
                self.well_formed(),
                i <= self.to_check_size@.len(),
                max_frontier == seq_max(self.to_check_size@.take(i as int)),
                max_frontier <= self.enqueued_nodes,
            decreases self.to_check_size@.len() - i,
        {
            proof {
                assert(self.to_check_size@.take(i as int + 1).drop_last() =~= self.to_check_size@.take(
                    i as int,
                ));
            }
            if self.to_check_size[i] > max_frontier {
                max_frontier = self.to_check_size[i];
            }
            i = i + 1;
        }
        proof {
            assert(self.to_check_size@.take(i as int) =~= self.to_check_size@);
        }
        let solution_moves = self.step_by_step_solution().len() - 1;
        Stats {
            nodes_explored: self.boards_checked.len(),
            solution_moves,
            max_frontier,
            generated_nodes: self.generated_nodes,
            enqueued_nodes: self.enqueued_nodes,
            duplicates_pruned: self.duplicates_pruned,
            max_depth_reached: self.max_depth_reached,
            duration_ms: self.solve_duration_ms,
        }
    }

    /// The frontier size recorded after each removal of the last run.
    pub fn frontier_size_history(&self) -> (r: &Vec<usize>)
        ensures
            r@ == self.frontier_sizes(),
    {
        &self.to_check_size
    }
}

} // verus!
