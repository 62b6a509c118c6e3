//! The search that plays the id-0 snake: a breadth-first expansion of
//! candidate move sequences over cloned boards, scored by a bounded flood
//! fill from the head, with a wall-clock budget.  Scores are fixed-point
//! integers scaled by a million; the exact weights are heuristic, not
//! load-bearing.

use std::collections::VecDeque;
use vstd::prelude::*;

use crate::board::{Board, BoardModel};
use crate::cell::{is_id, Cell};
use crate::clock;
use crate::geom::{dir_dx, dir_dy, spec_opposite, Direction, Pos};
use crate::grid::{live, snake_len};
use crate::rng;
use crate::tick::{cur_dir, head_x, head_y, BoardEvent};

verus! {

/// One fixed-point score unit: scores are scaled by this.
pub const SCORE_SCALE: i64 = 1000000;

/// The score of a state judged to be a near-certain trap.
pub const BAD_SCORE: i64 = -1000000000;

/// A visualisation sink for the search: candidate paths and flood-fill
/// extents.  Purely observational.
pub struct SearchTrace {
    pub lines: Vec<(Pos, Pos)>,
    pub points: Vec<Pos>,
}

impl SearchTrace {
    pub fn new() -> (r: SearchTrace)
        ensures
            r.lines@.len() == 0,
            r.points@.len() == 0,
    {
        SearchTrace { lines: Vec::new(), points: Vec::new() }
    }
}

/// A state of the search: a branch's board, its accumulated apple score,
/// its depth, and the moves that led to it.
struct SearchNode {
    board: Board,
    score: i64,
    depth: usize,
    history: Vec<Direction>,
}

/// The invariant every search state keeps: a well-formed board whose snake
/// ids fit the four input slots, with enough headroom in the part field and
/// the apple counter for the remaining depth, and a bounded score.
spec fn node_ok(m0: BoardModel, max_depth: int, n: SearchNode) -> bool {
    &&& n.board@.wf()
    &&& 0 <= n.depth <= max_depth
    &&& n.board@.apples_eaten + 256 * (max_depth + 2 - n.depth) <= usize::MAX
    &&& forall|id: u8| live(n.board@.cells, id) ==> id < 4
    &&& forall|id: u8|
        live(n.board@.cells, id) ==> snake_len(n.board@.cells, id) + (max_depth - n.depth) + 1
            <= u16::MAX + 1
    &&& 0 <= n.score <= SCORE_SCALE * (n.depth as int)
    &&& n.history@.len() >= 1 ==> n.history@[0] != spec_opposite(cur_dir(m0, 0))
}

/// The bounded lookahead search.
pub struct TreeSearch {
    pub max_depth: usize,
}

/// A baseline that steps to a uniformly random free neighbour cell.
pub struct RandomWalk;

/// Whether the id-0 snake could step one cell in direction `d`: the cell a
/// head move that way would land on lies on the board and is free (empty or
/// an apple).
pub open spec fn step_free(m: BoardModel, d: Direction) -> bool {
    let tx = head_x(m, 0) + dir_dx(d);
    let ty = head_y(m, 0) + dir_dy(d);
    crate::grid::in_grid(m.width, m.height, tx, ty) && match m.cells[crate::grid::grid_index(
        m.width,
        tx,
        ty,
    )] {
        Cell::Empty => true,
        Cell::Apple { .. } => true,
        _ => false,
    }
}

impl RandomWalk {
    /// A uniformly random direction whose cell is free (empty or apple).
    /// Succeeds exactly when the id-0 snake is on the board and at least
    /// one of the four directions is free.
    pub fn chose_move(&self, board: &Board, _trace: &mut SearchTrace) -> (r: Result<
        Direction,
        (),
    >)
        requires
            board@.wf(),
        ensures
            (r is Ok) <==> live(board@.cells, 0) && exists|d: Direction| step_free(board@, d),
            r matches Ok(d) ==> step_free(board@, d),
    {
        let ghost m = board@;
        let s = match board.derive_snake(0) {
            Ok(Some(s)) => s,
            Ok(None) => {
                return Err(());
            },
            Err(_) => {
                proof {
                    assert(false);
                }
                return Err(());
            },
        };
        proof {
            crate::tick::lemma_snake_view_facts(m, s);
        }
        let dirs = Direction::all();
        let mut cands: Vec<Direction> = Vec::new();
        let mut k: usize = 0;
        while k < dirs.len()
            invariant
                m == board@,
                board@.wf(),
                live(m.cells, 0),
                s.head.x as int == head_x(m, 0),
                s.head.y as int == head_y(m, 0),
                m.on_board(s.head),
                dirs@.len() == 4,
                dirs@ == seq![Direction::Up, Direction::Down, Direction::Left, Direction::Right],
                0 <= k <= 4,
                forall|j: int| 0 <= j < cands@.len() ==> step_free(m, #[trigger] cands@[j]),
                forall|j: int|
                    0 <= j < k && step_free(m, #[trigger] dirs@[j]) ==> exists|j2: int|
                        0 <= j2 < cands@.len() && cands@[j2] == dirs@[j],
            decreases 4 - k,
        {
            let d = dirs[k];
            let step = d.as_vec2();
            let p = Pos { x: s.head.x + step.x, y: s.head.y + step.y };
            let ghost pre_cands = cands@;
            let mut pushed = false;
            match board.get(p) {
                Ok(Cell::Empty) => {
                    cands.push(d);
                    pushed = true;
                },
                Ok(Cell::Apple { .. }) => {
                    cands.push(d);
                    pushed = true;
                },
                _ => {
                    proof {
                        assert(!step_free(m, d));
                    }
                },
            }
            proof {
                assert forall|j: int|
                    0 <= j < k + 1 && step_free(m, #[trigger] dirs@[j]) implies exists|j2: int|
                    0 <= j2 < cands@.len() && cands@[j2] == dirs@[j] by {
                    if j < k {
                        let j2 = choose|j2: int|
                            0 <= j2 < pre_cands.len() && pre_cands[j2] == dirs@[j];
                        assert(cands@[j2] == dirs@[j]);
                    } else {
                        assert(pushed);
                        assert(cands@[cands@.len() - 1] == d);
                    }
                }
            }
            k = k + 1;
        }
        if cands.len() == 0 {
            proof {
                assert forall|d: Direction| !step_free(m, d) by {
                    match d {
                        Direction::Up => {
                            assert(dirs@[0] == d);
                        },
                        Direction::Down => {
                            assert(dirs@[1] == d);
                        },
                        Direction::Left => {
                            assert(dirs@[2] == d);
                        },
                        Direction::Right => {
                            assert(dirs@[3] == d);
                        },
                    }
                }
            }
            return Err(());
        }
        let mut rg = rng::fresh_rng();
        let pick = rng::rng_below(&mut rg, cands.len());
        Ok(cands[pick])
    }
}

// ---------------------------------------------------------------------------
// The flood fill that scores a terminal board, as a reachability relation.
// ---------------------------------------------------------------------------

/// Whether the flood fill may step through flat index `i`: the cells a
/// snake could later move into.
pub open spec fn fill_passable(m: BoardModel, i: int) -> bool {
    match m.cells[i] {
        Cell::Empty => true,
        Cell::Apple { .. } => true,
        _ => false,
    }
}

/// Whether the cells at flat indices `a` and `b` are orthogonally adjacent.
pub open spec fn fill_adjacent(m: BoardModel, a: int, b: int) -> bool {
    &&& 0 <= a < m.cells.len()
    &&& 0 <= b < m.cells.len()
    &&& crate::geom::offset_dir(
        crate::grid::ix(m.width, b) - crate::grid::ix(m.width, a),
        crate::grid::iy(m.width, b) - crate::grid::iy(m.width, a),
    ) is Some
}

/// A flood-fill walk: it starts at `from`, every step is orthogonally
/// adjacent, and every cell it steps onwards from, other than the start,
/// is passable.  The final cell need not be: the fill sees it and stops.
pub open spec fn fill_path(m: BoardModel, from: int, p: Seq<int>) -> bool {
    &&& p.len() >= 1
    &&& p[0] == from
    &&& forall|k: int| 0 <= k < p.len() - 1 ==> fill_adjacent(m, #[trigger] p[k], p[k + 1])
    &&& forall|k: int| 1 <= k < p.len() - 1 ==> fill_passable(m, #[trigger] p[k])
}

/// Whether the flood fill from `from` reaches flat index `i`.
pub open spec fn fill_reaches(m: BoardModel, from: int, i: int) -> bool {
    exists|p: Seq<int>| fill_path(m, from, p) && p.last() == i
}

/// How many flat indices below `n` the flood fill from `from` reaches.
pub open spec fn fill_count_upto(m: BoardModel, from: int, n: int) -> int
    decreases n,
{
    if n <= 0 {
        0
    } else {
        fill_count_upto(m, from, n - 1) + if fill_reaches(m, from, n - 1) {
            1int
        } else {
            0int
        }
    }
}

/// How many cells of the grid the flood fill from `from` reaches.
pub open spec fn fill_count(m: BoardModel, from: int) -> int {
    fill_count_upto(m, from, m.cells.len() as int)
}

/// Whether `eval_board`'s bounded fill holds the id-0 snake's tail
/// reachable: the fill from its head cell reaches at least `cap` cells in
/// all, or reaches the tail cell itself.
pub open spec fn tail_reachable(m: BoardModel, cap: int) -> bool {
    fill_count(m, crate::grid::head_index(m.cells, 0)) >= cap || fill_reaches(
        m,
        crate::grid::head_index(m.cells, 0),
        crate::grid::part_index(m.cells, 0u8, 0u16),
    )
}

/// The exact score of a board whose id-0 snake is live, for a given
/// accumulated apple score: with the cap at twice the body length, a tail
/// held unreachable scores the trap constant plus the apple score, and
/// otherwise the fill's extent as a fraction of the cap, in `SCORE_SCALE`
/// fixed point, plus the double-weighted apple score.
pub open spec fn eval_score(m: BoardModel, apple_score: int) -> int {
    let cap = 2 * snake_len(m.cells, 0) as int;
    let n = fill_count(m, crate::grid::head_index(m.cells, 0));
    if !tail_reachable(m, cap) {
        BAD_SCORE + apple_score
    } else {
        (if n < cap {
            n
        } else {
            cap
        }) * SCORE_SCALE / cap + 2 * apple_score
    }
}

/// The number of `true` entries among the first `n` of `s`.
spec fn trues_upto(s: Seq<bool>, n: int) -> int
    decreases n,
{
    if n <= 0 {
        0
    } else {
        trues_upto(s, n - 1) + if s[n - 1] {
            1int
        } else {
            0int
        }
    }
}

proof fn lemma_trues_bounds(s: Seq<bool>, n: int)
    requires
        0 <= n <= s.len(),
    ensures
        0 <= trues_upto(s, n) <= n,
    decreases n,
{
    if n > 0 {
        lemma_trues_bounds(s, (n - 1) as int);
    }
}

proof fn lemma_trues_zero(s: Seq<bool>, n: int)
    requires
        0 <= n <= s.len(),
        forall|i: int| 0 <= i < n ==> !(#[trigger] s[i]),
    ensures
        trues_upto(s, n) == 0,
    decreases n,
{
    if n > 0 {
        lemma_trues_zero(s, (n - 1) as int);
    }
}

proof fn lemma_trues_missing(s: Seq<bool>, n: int, i: int)
    requires
        0 <= i < n <= s.len(),
        !s[i],
    ensures
        trues_upto(s, n) <= n - 1,
    decreases n,
{
    if i == n - 1 {
        lemma_trues_bounds(s, (n - 1) as int);
    } else {
        lemma_trues_missing(s, (n - 1) as int, i);
    }
}

proof fn lemma_trues_update(s: Seq<bool>, i: int, n: int)
    requires
        0 <= i < s.len(),
        0 <= n <= s.len(),
        !s[i],
    ensures
        trues_upto(s.update(i, true), n) == trues_upto(s, n) + if i < n {
            1int
        } else {
            0int
        },
    decreases n,
{
    if n > 0 {
        lemma_trues_update(s, i, (n - 1) as int);
    }
}

/// Counting visited cells that are all reached never overshoots the
/// reachability count.
proof fn lemma_fill_count_le(m: BoardModel, from: int, vis: Seq<bool>, n: int)
    requires
        vis.len() == m.cells.len(),
        0 <= n <= vis.len(),
        forall|i: int| 0 <= i < n && #[trigger] vis[i] ==> fill_reaches(m, from, i),
    ensures
        trues_upto(vis, n) <= fill_count_upto(m, from, n),
    decreases n,
{
    if n > 0 {
        lemma_fill_count_le(m, from, vis, (n - 1) as int);
    }
}

/// A visited set that agrees with reachability counts it exactly.
proof fn lemma_fill_count_eq(m: BoardModel, from: int, vis: Seq<bool>, n: int)
    requires
        vis.len() == m.cells.len(),
        0 <= n <= vis.len(),
        forall|i: int| 0 <= i < n ==> (#[trigger] vis[i] <==> fill_reaches(m, from, i)),
    ensures
        trues_upto(vis, n) == fill_count_upto(m, from, n),
    decreases n,
{
    if n > 0 {
        lemma_fill_count_eq(m, from, vis, (n - 1) as int);
    }
}

/// The start of the fill reaches itself.
proof fn lemma_fill_self(m: BoardModel, from: int)
    requires
        0 <= from < m.cells.len(),
    ensures
        fill_reaches(m, from, from),
{
    let p = seq![from];
    assert(fill_path(m, from, p));
    assert(p.last() == from);
}

/// A reached cell that is passable (or the start) extends the fill to each
/// of its neighbours.
proof fn lemma_fill_extend(m: BoardModel, from: int, a: int, b: int)
    requires
        fill_reaches(m, from, a),
        fill_adjacent(m, a, b),
        fill_passable(m, a) || a == from,
    ensures
        fill_reaches(m, from, b),
{
    if a == from {
        let p2 = seq![from, b];
        assert(fill_path(m, from, p2)) by {
            assert(p2[0] == from && p2[1] == b);
            assert forall|k: int|
                0 <= k < p2.len() - 1 implies fill_adjacent(m, #[trigger] p2[k], p2[k + 1]) by {
                assert(p2[0] == a && p2[1] == b);
            }
        };
        assert(p2.last() == b);
    } else {
        let p = choose|p: Seq<int>| fill_path(m, from, p) && p.last() == a;
        let p2 = p.push(b);
        assert(fill_path(m, from, p2)) by {
            assert(p2[0] == p[0]);
            assert forall|k: int|
                0 <= k < p2.len() - 1 implies fill_adjacent(m, #[trigger] p2[k], p2[k + 1]) by {
                if k < p.len() - 1 {
                    assert(p2[k] == p[k] && p2[k + 1] == p[k + 1]);
                } else {
                    assert(p2[k] == p.last() && p2[k + 1] == b);
                }
            }
            assert forall|k: int|
                1 <= k < p2.len() - 1 implies fill_passable(m, #[trigger] p2[k]) by {
                if k < p.len() - 1 {
                    assert(p2[k] == p[k]);
                } else {
                    assert(p2[k] == p.last() && p.last() == a);
                }
            }
        };
        assert(p2.last() == b);
    }
}

/// Walking any flood-fill path through a visited set that is closed under
/// taking neighbours of passable visited cells ends on a visited cell.
proof fn lemma_fill_path_visited(m: BoardModel, from: int, vis: Seq<bool>, p: Seq<int>)
    requires
        vis.len() == m.cells.len(),
        0 <= from < m.cells.len(),
        vis[from],
        forall|i: int, b: int|
            0 <= i < m.cells.len() && vis[i] && (fill_passable(m, i) || i == from)
                && #[trigger] fill_adjacent(m, i, b) ==> vis[b],
        fill_path(m, from, p),
    ensures
        vis[p.last()],
    decreases p.len(),
{
    if p.len() > 1 {
        let q = p.drop_last();
        assert(fill_path(m, from, q)) by {
            assert(q[0] == p[0]);
            assert forall|k: int|
                0 <= k < q.len() - 1 implies fill_adjacent(m, #[trigger] q[k], q[k + 1]) by {
                assert(q[k] == p[k] && q[k + 1] == p[k + 1]);
            }
            assert forall|k: int| 1 <= k < q.len() - 1 implies fill_passable(m, #[trigger] q[k]) by {
                assert(q[k] == p[k]);
            }
        };
        lemma_fill_path_visited(m, from, vis, q);
        let a = p[p.len() - 2];
        assert(q.last() == a);
        assert(fill_adjacent(m, a, p[p.len() - 1]));
        if p.len() - 2 >= 1 {
            assert(fill_passable(m, a));
        } else {
            assert(a == from);
        }
    }
}

/// A visited set closed under taking neighbours of passable visited cells
/// covers everything the fill reaches.
proof fn lemma_fill_complete(m: BoardModel, from: int, vis: Seq<bool>)
    requires
        vis.len() == m.cells.len(),
        0 <= from < m.cells.len(),
        vis[from],
        forall|i: int, b: int|
            0 <= i < m.cells.len() && vis[i] && (fill_passable(m, i) || i == from)
                && #[trigger] fill_adjacent(m, i, b) ==> vis[b],
    ensures
        forall|i: int|
            #[trigger] fill_reaches(m, from, i) ==> 0 <= i < m.cells.len() && vis[i],
{
    assert forall|i: int|
        #[trigger] fill_reaches(m, from, i) implies 0 <= i < m.cells.len() && vis[i] by {
        let p = choose|p: Seq<int>| fill_path(m, from, p) && p.last() == i;
        if p.len() == 1 {
            assert(i == from);
        } else {
            assert(fill_adjacent(m, p[p.len() - 2], p[p.len() - 1]));
        }
        lemma_fill_path_visited(m, from, vis, p);
    }
}

/// The unit offset of a direction is that direction's offset.
proof fn lemma_offset_of_dir(d: Direction)
    ensures
        crate::geom::offset_dir(dir_dx(d), dir_dy(d)) == Some(d),
{
    match d {
        Direction::Up => {},
        Direction::Down => {},
        Direction::Left => {},
        Direction::Right => {},
    }
}

impl TreeSearch {
    /// Score a terminal board for the id-0 snake: a bounded flood fill from
    /// its head, capped at twice its body length, checking whether its own
    /// tail stays reachable.  An unreachable tail scores as a large
    /// negative constant plus the accumulated apple score; otherwise the
    /// reachable-space fraction plus the double-weighted apple score.
    #[verifier::rlimit(100)]
    #[verifier::spinoff_prover]
    pub fn eval_board(&self, board: &Board, apple_score: i64) -> (r: i64)
        requires
            board@.wf(),
            0 <= apple_score <= 200000000000i64,
        ensures
            !live(board@.cells, 0) ==> r == BAD_SCORE + apple_score,
            live(board@.cells, 0) ==> r as int == eval_score(board@, apple_score as int),
            r == BAD_SCORE + apple_score || (2 * apple_score <= r <= 2 * apple_score
                + SCORE_SCALE),
    {
        let ghost m = board@;
        let s = match board.derive_snake(0) {
            Ok(Some(s)) => s,
            Ok(None) => {
                return BAD_SCORE + apple_score;
            },
            Err(_) => {
                proof {
                    assert(false);
                }
                return BAD_SCORE + apple_score;
            },
        };
        let total = board.cell_count();
        let nparts = s.parts.len();
        proof {
            crate::grid::lemma_count_le_len(m.cells, |c: Cell| is_id(c, 0u8));
            assert(nparts == snake_len(m.cells, 0) <= m.cells.len());
            assert(crate::grid::snake_ok(m.cells, m.width, 0));
            crate::grid::lemma_snake_len_upper(m.cells, 0);
            assert(nparts <= 65536);
        }
        let max_search = if nparts <= usize::MAX / 2 {
            nparts * 2
        } else {
            nparts
        };
        let mut visited: Vec<bool> = vec![false; total];
        let mut queue: Vec<usize> = Vec::new();
        let hi = board.idx_of(s.head);
        let ghost hidx = hi as int;
        let ghost tidx = crate::grid::part_index(m.cells, 0u8, 0u16);
        proof {
            let n = s.parts@.len() as int;
            assert(m.on_board(s.head));
            assert(m.cells[m.index_of(s.head)] == (Cell::Snake { id: 0u8, part: (n - 1) as u16 }));
            assert(crate::cell::is_id_part(m.cells[m.index_of(s.head)], 0u8, (n - 1) as u16));
            crate::grid::lemma_part_index_is(m.cells, 0u8, (n - 1) as u16, m.index_of(s.head));
            assert(hidx == crate::grid::head_index(m.cells, 0));
            assert(crate::grid::has_part(m.cells, 0u8, 0u16));
            assert(0 <= tidx < total && crate::cell::is_id_part(m.cells[tidx], 0u8, 0u16));
            assert(m.cells[tidx] == (Cell::Snake { id: 0u8, part: 0u16 }));
            assert(hidx != tidx);
            lemma_fill_self(m, hidx);
            lemma_trues_zero(visited@, total as int);
            lemma_trues_update(visited@, hidx, total as int);
        }
        visited.set(hi, true);
        queue.push(hi);
        proof {
            assert(queue@[0] == hi);
        }
        let mut filled: usize = 1;
        let mut found_tail = false;
        let mut cursor: usize = 0;
        let mut stop = false;
        while !stop && cursor < queue.len()
            invariant
                m == board@,
                board@.wf(),
                live(m.cells, 0),
                crate::grid::snake_ok(m.cells, m.width, 0),
                total == m.cells.len(),
                visited@.len() == total,
                0 <= cursor <= queue@.len(),
                queue@.len() <= total,
                forall|j: int| 0 <= j < queue@.len() ==> (#[trigger] queue@[j]) < total,
                forall|j1: int, j2: int|
                    0 <= j1 < j2 < queue@.len() ==> queue@[j1] != queue@[j2],
                forall|j: int|
                    0 <= j < queue@.len() ==> visited@[(#[trigger] queue@[j]) as int],
                1 <= filled <= total,
                nparts == snake_len(m.cells, 0),
                2 <= nparts <= 65536,
                max_search == 2 * nparts,
                hidx == hi as int,
                hidx == crate::grid::head_index(m.cells, 0),
                0 <= hidx < total,
                tidx == crate::grid::part_index(m.cells, 0u8, 0u16),
                0 <= tidx < total,
                m.cells[tidx] == (Cell::Snake { id: 0u8, part: 0u16 }),
                hidx != tidx,
                visited@[hidx],
                filled == trues_upto(visited@, total as int),
                queue@.len() <= filled,
                forall|i: int| 0 <= i < total && #[trigger] visited@[i] ==> fill_reaches(m, hidx, i),
                forall|j: int|
                    0 <= j < queue@.len() ==> fill_passable(m, (#[trigger] queue@[j]) as int)
                        || queue@[j] as int == hidx,
                forall|i: int|
                    0 <= i < total && #[trigger] visited@[i] && (fill_passable(m, i) || i == hidx)
                        ==> exists|j: int| 0 <= j < queue@.len() && queue@[j] == i,
                forall|j: int, b: int|
                    0 <= j < cursor && #[trigger] fill_adjacent(m, (queue@[j]) as int, b)
                        ==> visited@[b],
                found_tail == (stop || visited@[tidx]),
                stop ==> filled >= max_search,
                !stop ==> filled < max_search,
            decreases 2 * total + 1 - 2 * cursor - (if stop {
                1int
            } else {
                0int
            }),
        {
            let at = queue[cursor];
            cursor = cursor + 1;
            let pos = board.pos_at(at);
            proof {
                assert(fill_reaches(m, hidx, at as int));
                assert(fill_passable(m, at as int) || at as int == hidx);
            }
            let dirs = Direction::all();
            let mut k: usize = 0;
            while k < dirs.len()
                invariant
                    m == board@,
                    board@.wf(),
                    crate::grid::snake_ok(m.cells, m.width, 0),
                    total == m.cells.len(),
                    visited@.len() == total,
                    dirs@.len() == 4,
                    dirs@ == seq![
                        Direction::Up,
                        Direction::Down,
                        Direction::Left,
                        Direction::Right,
                    ],
                    0 <= k <= 4,
                    m.on_board(pos),
                    at < total,
                    pos.x == crate::grid::ix(m.width, at as int),
                    pos.y == crate::grid::iy(m.width, at as int),
                    fill_reaches(m, hidx, at as int),
                    fill_passable(m, at as int) || at as int == hidx,
                    0 <= cursor <= queue@.len(),
                    queue@.len() <= total,
                    forall|j: int| 0 <= j < queue@.len() ==> (#[trigger] queue@[j]) < total,
                    forall|j1: int, j2: int|
                        0 <= j1 < j2 < queue@.len() ==> queue@[j1] != queue@[j2],
                    forall|j: int|
                        0 <= j < queue@.len() ==> visited@[(#[trigger] queue@[j]) as int],
                    1 <= filled <= total,
                    hidx == crate::grid::head_index(m.cells, 0),
                    0 <= hidx < total,
                    tidx == crate::grid::part_index(m.cells, 0u8, 0u16),
                    0 <= tidx < total,
                    m.cells[tidx] == (Cell::Snake { id: 0u8, part: 0u16 }),
                    hidx != tidx,
                    visited@[hidx],
                    filled == trues_upto(visited@, total as int),
                    queue@.len() <= filled,
                    forall|i: int|
                        0 <= i < total && #[trigger] visited@[i] ==> fill_reaches(m, hidx, i),
                    forall|j: int|
                        0 <= j < queue@.len() ==> fill_passable(m, (#[trigger] queue@[j]) as int)
                            || queue@[j] as int == hidx,
                    forall|i: int|
                        0 <= i < total && #[trigger] visited@[i] && (fill_passable(m, i) || i
                            == hidx) ==> exists|j: int| 0 <= j < queue@.len() && queue@[j] == i,
                    forall|j: int, b: int|
                        0 <= j < cursor - 1 && #[trigger] fill_adjacent(m, (queue@[j]) as int, b)
                            ==> visited@[b],
                    forall|k2: int, b: int|
                        0 <= k2 < k && fill_adjacent(m, at as int, b) && crate::geom::offset_dir(
                            crate::grid::ix(m.width, b) - crate::grid::ix(m.width, at as int),
                            crate::grid::iy(m.width, b) - crate::grid::iy(m.width, at as int),
                        ) == Some(#[trigger] dirs@[k2]) ==> #[trigger] visited@[b],
                    found_tail == (stop || visited@[tidx]),
                    1 <= cursor,
                    at == queue@[cursor - 1],
                decreases 4 - k,
            {
                let d = dirs[k];
                let step = d.as_vec2();
                let np = Pos { x: pos.x + step.x, y: pos.y + step.y };
                if board.in_bounds(np) {
                    let ni = board.idx_of(np);
                    proof {
                        crate::grid::lemma_coords_of_index(
                            m.width,
                            m.height,
                            np.x as int,
                            np.y as int,
                        );
                        lemma_offset_of_dir(d);
                        assert(fill_adjacent(m, at as int, ni as int));
                    }
                    if !visited[ni] {
                        proof {
                            lemma_trues_missing(visited@, total as int, ni as int);
                            lemma_trues_update(visited@, ni as int, total as int);
                            lemma_fill_extend(m, hidx, at as int, ni as int);
                        }
                        let ghost pre_q = queue@;
                        let ghost pre_v = visited@;
                        visited.set(ni, true);
                        if filled < total {
                            filled = filled + 1;
                        } else {
                            proof {
                                assert(false);
                            }
                        }
                        match board.cell_at(ni) {
                            Cell::Empty => {
                                if queue.len() < total {
                                    queue.push(ni);
                                } else {
                                    proof {
                                        assert(false);
                                    }
                                }
                            },
                            Cell::Apple { .. } => {
                                if queue.len() < total {
                                    queue.push(ni);
                                } else {
                                    proof {
                                        assert(false);
                                    }
                                }
                            },
                            Cell::Snake { id: 0u8, part: 0u16 } => {
                                proof {
                                    assert(crate::cell::is_id_part(
                                        m.cells[ni as int],
                                        0u8,
                                        0u16,
                                    ));
                                    crate::grid::lemma_part_index_is(
                                        m.cells,
                                        0u8,
                                        0u16,
                                        ni as int,
                                    );
                                    assert(ni as int == tidx);
                                }
                                found_tail = true;
                            },
                            _ => {
                                proof {
                                    assert(ni as int != tidx);
                                    assert(ni as int != hidx);
                                    assert(!fill_passable(m, ni as int));
                                }
                            },
                        }
                        proof {
                            assert forall|j1: int, j2: int|
                                0 <= j1 < j2 < queue@.len() implies queue@[j1] != queue@[j2] by {}
                            assert forall|i: int|
                                0 <= i < total && #[trigger] visited@[i] && (fill_passable(m, i)
                                    || i == hidx) implies exists|j: int|
                                0 <= j < queue@.len() && queue@[j] == i by {
                                if i == ni as int {
                                    assert(i != hidx);
                                    assert(fill_passable(m, i));
                                    assert(queue@[queue@.len() - 1] == ni);
                                } else {
                                    assert(pre_v[i]);
                                    let j = choose|j: int|
                                        0 <= j < pre_q.len() && pre_q[j] == i;
                                    assert(queue@[j] == i);
                                }
                            }
                        }
                    }
                    proof {
                        assert(visited@[ni as int]);
                    }
                }
                proof {
                    assert forall|k2: int, b: int|
                        0 <= k2 < k + 1 && fill_adjacent(m, at as int, b)
                            && crate::geom::offset_dir(
                            crate::grid::ix(m.width, b) - crate::grid::ix(m.width, at as int),
                            crate::grid::iy(m.width, b) - crate::grid::iy(m.width, at as int),
                        ) == Some(#[trigger] dirs@[k2]) implies #[trigger] visited@[b] by {
                        if k2 == k {
                            assert(m.width > 0) by {
                                if m.width == 0 {
                                    assert(m.cells.len() == 0);
                                }
                            }
                            crate::grid::lemma_index_to_coords(m.width, m.height, b);
                            assert(crate::grid::ix(m.width, b) == pos.x + dir_dx(d));
                            assert(crate::grid::iy(m.width, b) == pos.y + dir_dy(d));
                            assert(np.x as int == crate::grid::ix(m.width, b));
                            assert(np.y as int == crate::grid::iy(m.width, b));
                            assert(m.on_board(np));
                            assert(b == crate::grid::grid_index(
                                m.width,
                                np.x as int,
                                np.y as int,
                            ));
                        }
                    }
                }
                k = k + 1;
            }
            proof {
                assert forall|b: int| #[trigger] fill_adjacent(m, at as int, b) implies visited@[b] by {
                    let dopt = crate::geom::offset_dir(
                        crate::grid::ix(m.width, b) - crate::grid::ix(m.width, at as int),
                        crate::grid::iy(m.width, b) - crate::grid::iy(m.width, at as int),
                    );
                    assert(dopt is Some);
                    let d2 = dopt->Some_0;
                    match d2 {
                        Direction::Up => {
                            assert(dirs@[0] == d2);
                        },
                        Direction::Down => {
                            assert(dirs@[1] == d2);
                        },
                        Direction::Left => {
                            assert(dirs@[2] == d2);
                        },
                        Direction::Right => {
                            assert(dirs@[3] == d2);
                        },
                    }
                }
                assert forall|j: int, b: int|
                    0 <= j < cursor && #[trigger] fill_adjacent(m, (queue@[j]) as int, b)
                        implies visited@[b] by {
                    if j == cursor - 1 {
                        assert(queue@[j] == at);
                    }
                }
            }
            if filled >= max_search {
                found_tail = true;
                stop = true;
            }
        }
        let ghost cap = 2 * snake_len(m.cells, 0) as int;
        proof {
            assert(cap == max_search as int);
            if !stop {
                assert(cursor >= queue@.len());
                assert forall|i: int, b: int|
                    0 <= i < m.cells.len() && visited@[i] && (fill_passable(m, i) || i == hidx)
                        && #[trigger] fill_adjacent(m, i, b) implies visited@[b] by {
                    let j = choose|j: int| 0 <= j < queue@.len() && queue@[j] == i;
                    assert(0 <= j < cursor);
                    assert(fill_adjacent(m, (queue@[j]) as int, b));
                };
                lemma_fill_complete(m, hidx, visited@);
                assert forall|i: int|
                    0 <= i < total implies (#[trigger] visited@[i] <==> fill_reaches(
                    m,
                    hidx,
                    i,
                )) by {}
                lemma_fill_count_eq(m, hidx, visited@, total as int);
                assert(filled == fill_count(m, hidx));
                assert(fill_count(m, hidx) < cap);
                assert(found_tail == visited@[tidx]);
                assert(found_tail == fill_reaches(m, hidx, tidx));
                assert(found_tail == tail_reachable(m, cap));
            } else {
                lemma_fill_count_le(m, hidx, visited@, total as int);
                assert(fill_count(m, hidx) >= filled >= max_search);
                assert(found_tail);
                assert(tail_reachable(m, cap));
            }
        }
        if !found_tail {
            proof {
                assert(!tail_reachable(m, cap));
                assert(eval_score(m, apple_score as int) == BAD_SCORE + apple_score);
            }
            return BAD_SCORE + apple_score;
        }
        let reach = if filled < max_search {
            filled
        } else {
            max_search
        };
        proof {
            assert(tail_reachable(m, cap));
            if stop {
                assert(reach == max_search);
                assert(fill_count(m, hidx) >= cap);
            } else {
                assert(reach == filled == fill_count(m, hidx));
                assert(fill_count(m, hidx) < cap);
            }
            assert(reach as int == (if fill_count(m, hidx) < cap {
                fill_count(m, hidx)
            } else {
                cap
            }));
            assert(nparts >= 2);
            assert(max_search >= 2);
            assert(reach <= max_search);
            assert(reach as int * SCORE_SCALE <= max_search as int * SCORE_SCALE)
                by (nonlinear_arith)
                requires
                    reach <= max_search,
            ;
            assert((reach as int * SCORE_SCALE) / (max_search as int) <= SCORE_SCALE)
                by (nonlinear_arith)
                requires
                    max_search >= 2,
                    reach as int * SCORE_SCALE <= max_search as int * SCORE_SCALE,
            ;
            assert((reach as int * SCORE_SCALE) / (max_search as int) >= 0) by (nonlinear_arith)
                requires
                    max_search >= 2,
                    reach >= 0,
                    SCORE_SCALE > 0,
            ;
            assert(reach <= 131072);
            assert(reach as int * SCORE_SCALE < 0x7fffffffffffffff) by (nonlinear_arith)
                requires
                    0 <= reach <= 131072,
            ;
        }
        let flood = ((reach as i64) * SCORE_SCALE) / (max_search as i64);
        proof {
            assert(flood as int == (if fill_count(m, hidx) < cap {
                fill_count(m, hidx)
            } else {
                cap
            }) * SCORE_SCALE / cap);
            assert(eval_score(m, apple_score as int) == flood as int + 2 * apple_score);
        }
        flood + 2 * apple_score
    }
}

/// What a terminal search state keeps: a well-formed board for scoring, a
/// bounded accumulated apple score, and a first move that never reverses
/// the snake.
spec fn fin_ok(m0: BoardModel, max_depth: int, n: SearchNode) -> bool {
    &&& n.board@.wf()
    &&& 0 <= n.score <= SCORE_SCALE * (max_depth + 1)
    &&& n.history@.len() >= 1
    &&& n.history@[0] != spec_opposite(cur_dir(m0, 0))
}

impl TreeSearch {
    /// Tick one branch with direction `d` for the id-0 snake and straight
    /// for everyone else, then route the resulting state into the queue or
    /// the terminal set.
    #[verifier::rlimit(100)]
    #[verifier::spinoff_prover]
    fn push_branch(
        &self,
        node: &SearchNode,
        d: Direction,
        queue: &mut VecDeque<SearchNode>,
        fin: &mut Vec<SearchNode>,
        rg: &mut rand::rngs::StdRng,
        Ghost(m0): Ghost<BoardModel>,
    )
        requires
            self.max_depth <= 100000,
            node_ok(m0, self.max_depth as int, *node),
            live(node.board@.cells, 0),
            d != spec_opposite(cur_dir(m0, 0)) || node.history@.len() >= 1,
            forall|j: int|
                0 <= j < old(queue)@.len() ==> node_ok(
                    m0,
                    self.max_depth as int,
                    #[trigger] old(queue)@[j],
                ) && old(queue)@[j].history@.len() >= 1,
            forall|j: int|
                0 <= j < old(fin)@.len() ==> fin_ok(
                    m0,
                    self.max_depth as int,
                    #[trigger] old(fin)@[j],
                ),
        ensures
            final(queue)@.len() + final(fin)@.len() == old(queue)@.len() + old(fin)@.len() + 1,
            forall|j: int|
                0 <= j < final(queue)@.len() ==> node_ok(
                    m0,
                    self.max_depth as int,
                    #[trigger] final(queue)@[j],
                ) && final(queue)@[j].history@.len() >= 1,
            forall|j: int|
                0 <= j < final(fin)@.len() ==> fin_ok(
                    m0,
                    self.max_depth as int,
                    #[trigger] final(fin)@[j],
                ),
    {
        let ghost mb = node.board@;
        let mut b = node.board.clone_board();
        b.reseed(rng::rng_next(rg));
        let mut inputs: Vec<Option<Direction>> = Vec::new();
        inputs.push(Some(d));
        inputs.push(None);
        inputs.push(None);
        inputs.push(None);
        proof {
            assert forall|id: u8| live(mb.cells, id) implies id < inputs@.len() by {}
            assert(crate::tick::inputs_cover(mb, inputs@));
            assert forall|id: u8|
                live(mb.cells, id) implies snake_len(mb.cells, id) <= u16::MAX by {}
        }
        let events = match b.tick_board(inputs.as_slice()) {
            Ok(ev) => ev,
            Err(_) => {
                proof {
                    assert(false);
                }
                Vec::new()
            },
        };
        let mut ate = false;
        let mut over = false;
        let mut j: usize = 0;
        while j < events.len()
            invariant
                0 <= j <= events@.len(),
            decreases events@.len() - j,
        {
            match events[j] {
                BoardEvent::AppleEaten { snake } => {
                    if snake == 0 {
                        ate = true;
                    }
                },
                BoardEvent::GameOver => {
                    over = true;
                },
                _ => {},
            }
            j = j + 1;
        }
        let mut score = node.score;
        if ate {
            let div = (node.depth as i64) + 1;
            let inc = SCORE_SCALE / div;
            proof {
                assert(0 <= (SCORE_SCALE as int) / (div as int) <= SCORE_SCALE as int)
                    by (nonlinear_arith)
                    requires
                        1 <= div <= 100001,
                ;
            }
            score = score + inc;
        }
        let mut h2: Vec<Direction> = Vec::new();
        let mut j: usize = 0;
        while j < node.history.len()
            invariant
                0 <= j <= node.history@.len(),
                h2@ =~= node.history@.take(j as int),
            decreases node.history@.len() - j,
        {
            h2.push(node.history[j]);
            proof {
                assert(h2@ =~= node.history@.take(j + 1));
            }
            j = j + 1;
        }
        proof {
            assert(h2@ =~= node.history@);
        }
        h2.push(d);
        proof {
            if node.history@.len() >= 1 {
                assert(h2@[0] == node.history@[0]);
            } else {
                assert(h2@[0] == d);
            }
            crate::tick::lemma_naturals_bound(mb, inputs@, 256);
            assert forall|id: u8| live(b@.cells, id) implies id < 4 by {
                assert(crate::tick::survives(mb, inputs@, id));
                assert(live(mb.cells, id));
            }
            assert forall|id: u8|
                live(b@.cells, id) implies snake_len(b@.cells, id) + (self.max_depth as int - (
            node.depth + 1)) + 1 <= u16::MAX + 1 by {
                assert(crate::tick::survives(mb, inputs@, id));
                assert(live(mb.cells, id));
                assert(snake_len(b@.cells, id) <= snake_len(mb.cells, id) + 1);
            }
        }
        let child = SearchNode { board: b, score, depth: node.depth + 1, history: h2 };
        if over || node.depth == self.max_depth {
            fin.push(child);
        } else {
            queue.push_back(child);
        }
    }

    /// Expand a search state: one branch per non-reversing direction.
    fn expand(
        &self,
        node: SearchNode,
        queue: &mut VecDeque<SearchNode>,
        fin: &mut Vec<SearchNode>,
        rg: &mut rand::rngs::StdRng,
        Ghost(m0): Ghost<BoardModel>,
    )
        requires
            self.max_depth <= 100000,
            node_ok(m0, self.max_depth as int, node),
            live(node.board@.cells, 0),
            node.history@.len() == 0 ==> node.board@ == m0,
            forall|j: int|
                0 <= j < old(queue)@.len() ==> node_ok(
                    m0,
                    self.max_depth as int,
                    #[trigger] old(queue)@[j],
                ) && old(queue)@[j].history@.len() >= 1,
            forall|j: int|
                0 <= j < old(fin)@.len() ==> fin_ok(
                    m0,
                    self.max_depth as int,
                    #[trigger] old(fin)@[j],
                ),
        ensures
            final(queue)@.len() + final(fin)@.len() == old(queue)@.len() + old(fin)@.len() + 3,
            forall|j: int|
                0 <= j < final(queue)@.len() ==> node_ok(
                    m0,
                    self.max_depth as int,
                    #[trigger] final(queue)@[j],
                ) && final(queue)@[j].history@.len() >= 1,
            forall|j: int|
                0 <= j < final(fin)@.len() ==> fin_ok(
                    m0,
                    self.max_depth as int,
                    #[trigger] final(fin)@[j],
                ),
    {
        let s = match node.board.derive_snake(0) {
            Ok(Some(s)) => s,
            _ => {
                proof {
                    assert(false);
                }
                return ;
            },
        };
        proof {
            crate::tick::lemma_snake_view_facts(node.board@, s);
            if node.history@.len() == 0 {
                assert(cur_dir(node.board@, 0) == cur_dir(m0, 0));
            }
        }
        let opp = s.dir.opposite();
        proof {
            assert(opp == spec_opposite(cur_dir(node.board@, 0)));
        }
        if !(matches!(opp, Direction::Up)) {
            self.push_branch(&node, Direction::Up, queue, fin, rg, Ghost(m0));
        }
        if !(matches!(opp, Direction::Down)) {
            self.push_branch(&node, Direction::Down, queue, fin, rg, Ghost(m0));
        }
        if !(matches!(opp, Direction::Left)) {
            self.push_branch(&node, Direction::Left, queue, fin, rg, Ghost(m0));
        }
        if !(matches!(opp, Direction::Right)) {
            self.push_branch(&node, Direction::Right, queue, fin, rg, Ghost(m0));
        }
        proof {
            match cur_dir(m0, 0) {
                Direction::Up => {},
                Direction::Down => {},
                Direction::Left => {},
                Direction::Right => {},
            }
        }
    }

    /// Pick the move for the id-0 snake: breadth-first lookahead under the
    /// depth cap and a wall-clock budget of a few milliseconds, terminal
    /// states scored by `eval_board`, ties broken uniformly at random.
    /// Succeeds exactly when the id-0 snake is on the board, and never
    /// returns the reverse of its current facing.
    #[verifier::rlimit(100)]
    #[verifier::spinoff_prover]
    pub fn chose_move(&self, board: &Board, trace: &mut SearchTrace) -> (r: Result<Direction, ()>)
        requires
            board@.wf(),
            self.max_depth <= 100000,
            forall|id: u8| live(board@.cells, id) ==> id < 4,
            forall|id: u8|
                live(board@.cells, id) ==> snake_len(board@.cells, id) + self.max_depth + 1
                    <= u16::MAX + 1,
            board@.apples_eaten + 256 * (self.max_depth + 2) <= usize::MAX,
        ensures
            (r is Ok) <==> live(board@.cells, 0),
            r matches Ok(d) ==> d != spec_opposite(cur_dir(board@, 0)),
    {
        let ghost m0 = board@;
        let s0 = match board.derive_snake(0) {
            Ok(Some(s)) => s,
            Ok(None) => {
                return Err(());
            },
            Err(_) => {
                proof {
                    assert(false);
                }
                return Err(());
            },
        };
        let mut queue: VecDeque<SearchNode> = VecDeque::new();
        let mut fin: Vec<SearchNode> = Vec::new();
        let mut rg = rng::fresh_rng();
        let root = SearchNode {
            board: board.clone_board(),
            score: 0,
            depth: 0,
            history: Vec::new(),
        };
        self.expand(root, &mut queue, &mut fin, &mut rg, Ghost(m0));
        let start = clock::clock_now();
        // A step budget bounds the loop alongside the wall-clock budget.
        let mut fuel: usize = 10000000;
        while queue.len() > 0 && fuel > 0
            invariant
                self.max_depth <= 100000,
                queue@.len() + fin@.len() >= 3,
                forall|j: int|
                    0 <= j < queue@.len() ==> node_ok(
                        m0,
                        self.max_depth as int,
                        #[trigger] queue@[j],
                    ) && queue@[j].history@.len() >= 1,
                forall|j: int|
                    0 <= j < fin@.len() ==> fin_ok(m0, self.max_depth as int, #[trigger] fin@[j]),
            decreases fuel,
        {
            fuel = fuel - 1;
            let node = match queue.pop_front() {
                Some(n) => n,
                None => {
                    proof {
                        assert(false);
                    }
                    break ;
                },
            };
            let alive0 = match node.board.derive_snake(0) {
                Ok(Some(_)) => true,
                Ok(None) => false,
                Err(_) => {
                    proof {
                        assert(false);
                    }
                    false
                },
            };
            if !alive0 {
                // The controlled snake died on this branch: a terminal
                // state.
                fin.push(node);
            } else {
                self.expand(node, &mut queue, &mut fin, &mut rg, Ghost(m0));
            }
            let elapsed = clock::clock_elapsed(&start);
            if clock::duration_millis(&elapsed) > 5 {
                // Budget exhausted: every queued state becomes terminal.
                while queue.len() > 0
                    invariant
                        queue@.len() + fin@.len() >= 3,
                        forall|j: int|
                            0 <= j < queue@.len() ==> node_ok(
                                m0,
                                self.max_depth as int,
                                #[trigger] queue@[j],
                            ) && queue@[j].history@.len() >= 1,
                        forall|j: int|
                            0 <= j < fin@.len() ==> fin_ok(
                                m0,
                                self.max_depth as int,
                                #[trigger] fin@[j],
                            ),
                    decreases queue@.len(),
                {
                    match queue.pop_front() {
                        Some(n) => {
                            fin.push(n);
                        },
                        None => {},
                    }
                }
                break ;
            }
        }
        // Flush whatever the step budget left queued.
        while queue.len() > 0
            invariant
                queue@.len() + fin@.len() >= 3,
                forall|j: int|
                    0 <= j < queue@.len() ==> node_ok(
                        m0,
                        self.max_depth as int,
                        #[trigger] queue@[j],
                    ) && queue@[j].history@.len() >= 1,
                forall|j: int|
                    0 <= j < fin@.len() ==> fin_ok(m0, self.max_depth as int, #[trigger] fin@[j]),
            decreases queue@.len(),
        {
            match queue.pop_front() {
                Some(n) => {
                    fin.push(n);
                },
                None => {},
            }
        }
        proof {
            assert(fin@.len() >= 3);
        }

        // Score every terminal state.
        let mut scores: Vec<i64> = Vec::new();
        let mut j: usize = 0;
        while j < fin.len()
            invariant
                self.max_depth <= 100000,
                fin@.len() >= 3,
                forall|j2: int|
                    0 <= j2 < fin@.len() ==> fin_ok(m0, self.max_depth as int, #[trigger] fin@[j2]),
                0 <= j <= fin@.len(),
                scores@.len() == j,
            decreases fin@.len() - j,
        {
            proof {
                assert(fin_ok(m0, self.max_depth as int, fin@[j as int]));
                assert(SCORE_SCALE * ((self.max_depth + 1) as int) <= 200000000000i64)
                    by (nonlinear_arith)
                    requires
                        self.max_depth <= 100000,
                ;
            }
            let sc = self.eval_board(&fin[j].board, fin[j].score);
            scores.push(sc);
            j = j + 1;
        }

        // The best score, with ties broken uniformly at random.
        let mut best = scores[0];
        let mut j: usize = 1;
        while j < scores.len()
            invariant
                scores@.len() == fin@.len() >= 3,
                1 <= j <= scores@.len(),
                exists|j2: int| 0 <= j2 < j && scores@[j2] == best,
                forall|j2: int| 0 <= j2 < j ==> scores@[j2] <= best,
            decreases scores@.len() - j,
        {
            if scores[j] > best {
                best = scores[j];
            }
            j = j + 1;
        }
        let mut cands: Vec<usize> = Vec::new();
        let mut j: usize = 0;
        while j < scores.len()
            invariant
                scores@.len() == fin@.len() >= 3,
                0 <= j <= scores@.len(),
                forall|j2: int| 0 <= j2 < cands@.len() ==> (#[trigger] cands@[j2]) < fin@.len(),
                (exists|j2: int| 0 <= j2 < j && scores@[j2] == best) ==> cands@.len() > 0,
            decreases scores@.len() - j,
        {
            if scores[j] == best {
                cands.push(j);
            }
            j = j + 1;
        }
        proof {
            assert(cands@.len() > 0);
        }
        let pick = rng::rng_below(&mut rg, cands.len());
        let ci = cands[pick];
        proof {
            assert(fin_ok(m0, self.max_depth as int, fin@[ci as int]));
        }
        let dir = fin[ci].history[0];
        let step = dir.as_vec2();
        proof {
            crate::tick::lemma_snake_view_facts(m0, s0);
            assert(m0.on_board(s0.head));
        }
        trace.lines.push(
            (s0.head, Pos { x: s0.head.x + step.x, y: s0.head.y + step.y }),
        );
        Ok(dir)
    }
}

} // verus!
