//! Apple and wall placement.  Apples go to a uniformly random empty cell.
//! Walls go to a uniformly random cell of the eligible set computed by
//! `get_spawnable`, which excludes everything that could trap a snake:
//! cells two in from a corner along an edge, cells near a snake head, cells
//! touching a wall, border cells two steps along the border from a wall,
//! and the members of four corner position pairs once either member holds a
//! wall.

use vstd::prelude::*;

use crate::board::{Board, BoardModel};
use crate::cell::{is_snake, Cell};
use crate::geom::Pos;
use crate::grid::{ix, iy, lemma_grid_index_bounds, lemma_index_to_coords, snake_len};
use crate::snakes::Snake;

verus! {

/// The squared Euclidean distance of two grid coordinates.
pub open spec fn sqdist(x1: int, y1: int, x2: int, y2: int) -> int {
    (x1 - x2) * (x1 - x2) + (y1 - y2) * (y1 - y2)
}

/// For integer coordinates, squared distance below 9 is the same as both
/// offsets lying within two cells.
pub proof fn lemma_sqdist_box(x1: int, y1: int, x2: int, y2: int)
    ensures
        sqdist(x1, y1, x2, y2) < 9 <==> (-2 <= x1 - x2 <= 2 && -2 <= y1 - y2 <= 2),
{
    let dx = x1 - x2;
    let dy = y1 - y2;
    assert((dx * dx + dy * dy < 9) <==> (-2 <= dx <= 2 && -2 <= dy <= 2)) by (nonlinear_arith);
}

/// Whether the cell at `(x, y)` exists and holds a wall.
pub open spec fn wall_at(m: BoardModel, x: int, y: int) -> bool {
    crate::grid::in_grid(m.width, m.height, x, y) && m.cells[crate::grid::grid_index(
        m.width,
        x,
        y,
    )] == Cell::Wall
}

/// Whether grid cell `i` holds the head (highest part) of some snake.
pub open spec fn is_head_cell(m: BoardModel, i: int) -> bool {
    match m.cells[i] {
        Cell::Snake { id, part } => part + 1 == snake_len(m.cells, id),
        _ => false,
    }
}

/// The eight single-cell board-edge positions exactly two cells in from
/// each corner along each edge.
pub open spec fn corner_blocked(w: nat, h: nat, x: int, y: int) -> bool {
    ||| (x == 1 && y == 0)
    ||| (x == 0 && y == 1)
    ||| (x == w - 2 && y == 0)
    ||| (x == 0 && y == h - 2)
    ||| (x == w - 2 && y == h - 1)
    ||| (x == w - 1 && y == h - 2)
    ||| (x == 1 && y == h - 1)
    ||| (x == w - 1 && y == 1)
}

/// Within squared distance 9 of some snake head.
pub open spec fn near_head(m: BoardModel, x: int, y: int) -> bool {
    exists|i: int|
        0 <= i < m.cells.len() && is_head_cell(m, i) && sqdist(
            ix(m.width, i),
            iy(m.width, i),
            x,
            y,
        ) < 9
}

/// A wall among the eight neighbours.
pub open spec fn near_wall(m: BoardModel, x: int, y: int) -> bool {
    exists|dx: int, dy: int|
        -1 <= dx <= 1 && -1 <= dy <= 1 && !(dx == 0 && dy == 0) && #[trigger] wall_at(
            m,
            x + dx,
            y + dy,
        )
}

/// On a border, exactly two cells along the border from a wall.
pub open spec fn border_gap(m: BoardModel, x: int, y: int) -> bool {
    ||| ((x == 0 || x == m.width - 1) && (wall_at(m, x, y + 2) || wall_at(m, x, y - 2)))
    ||| ((y == 0 || y == m.height - 1) && (wall_at(m, x + 2, y) || wall_at(m, x - 2, y)))
}

/// `(x, y)` is a member of the pair `(ax, ay)`/`(bx, by)` and either member
/// already holds a wall.
pub open spec fn pair_hit(
    m: BoardModel,
    x: int,
    y: int,
    ax: int,
    ay: int,
    bx: int,
    by: int,
) -> bool {
    ((x == ax && y == ay) || (x == bx && y == by)) && (wall_at(m, ax, ay) || wall_at(m, bx, by))
}

/// The four designated corner position pairs: if either member of a pair
/// holds a wall, the other member is excluded too.
pub open spec fn corner_pair_blocked(m: BoardModel, x: int, y: int) -> bool {
    let w = m.width as int;
    let h = m.height as int;
    ||| pair_hit(m, x, y, 0, 2, 2, 0)
    ||| pair_hit(m, x, y, 0, h - 3, 2, h - 1)
    ||| pair_hit(m, x, y, w - 3, h - 1, w - 1, h - 3)
    ||| pair_hit(m, x, y, w - 1, 2, w - 3, 0)
}

/// Whether grid cell `i` may receive a wall.
pub open spec fn eligible(m: BoardModel, i: int) -> bool {
    let x = ix(m.width, i);
    let y = iy(m.width, i);
    &&& m.cells[i] == Cell::Empty
    &&& !corner_blocked(m.width, m.height, x, y)
    &&& !near_head(m, x, y)
    &&& !near_wall(m, x, y)
    &&& !border_gap(m, x, y)
    &&& !corner_pair_blocked(m, x, y)
}

/// The positions of the eligible cells among the first `k` grid cells, in
/// row-major order.
pub open spec fn spawnable_upto(m: BoardModel, k: int) -> Seq<Pos>
    decreases k,
{
    if k <= 0 {
        Seq::empty()
    } else {
        spawnable_upto(m, k - 1) + if eligible(m, k - 1) {
            seq![Pos { x: ix(m.width, k - 1) as i32, y: iy(m.width, k - 1) as i32 }]
        } else {
            Seq::empty()
        }
    }
}

/// The wall-eligible positions of the whole grid, in row-major order.
pub open spec fn spawnable(m: BoardModel) -> Seq<Pos> {
    spawnable_upto(m, m.cells.len() as int)
}

/// Every entry of the eligible list is an eligible empty cell of the board.
pub proof fn lemma_spawnable_elems(m: BoardModel, k: int)
    requires
        m.dims_ok(),
        0 <= k <= m.cells.len(),
    ensures
        forall|j: int|
            0 <= j < spawnable_upto(m, k).len() ==> {
                let p = #[trigger] spawnable_upto(m, k)[j];
                m.on_board(p) && 0 <= m.index_of(p) < m.cells.len() && eligible(m, m.index_of(p))
                    && m.cells[m.index_of(p)] == Cell::Empty
            },
    decreases k,
{
    if k > 0 {
        lemma_spawnable_elems(m, k - 1);
        if eligible(m, k - 1) {
            if m.width == 0 {
                assert(m.cells.len() == 0);
            }
            lemma_index_to_coords(m.width, m.height, k - 1);
            let p = Pos { x: ix(m.width, k - 1) as i32, y: iy(m.width, k - 1) as i32 };
            assert(m.index_of(p) == k - 1);
            assert(spawnable_upto(m, k) == spawnable_upto(m, k - 1) + seq![p]);
            assert forall|j: int| 0 <= j < spawnable_upto(m, k).len() implies {
                let q = #[trigger] spawnable_upto(m, k)[j];
                m.on_board(q) && 0 <= m.index_of(q) < m.cells.len() && eligible(m, m.index_of(q))
                    && m.cells[m.index_of(q)] == Cell::Empty
            } by {
                if j < spawnable_upto(m, k - 1).len() {
                    assert(spawnable_upto(m, k)[j] == spawnable_upto(m, k - 1)[j]);
                } else {
                    assert(spawnable_upto(m, k)[j] == p);
                }
            }
        }
    }
}

/// The eligible set is a function of the board alone: two computations on
/// the same unmutated board return the same list.
pub proof fn lemma_get_spawnable_deterministic(m: BoardModel, r1: Seq<Pos>, r2: Seq<Pos>)
    requires
        r1 == spawnable(m),
        r2 == spawnable(m),
    ensures
        r1 == r2,
{
}

/// Whether the head positions `hs` are exactly the heads of `m`'s snakes.
pub open spec fn heads_match(m: BoardModel, hs: Seq<Pos>) -> bool {
    &&& forall|k: int|
        0 <= k < hs.len() ==> m.on_board(#[trigger] hs[k]) && is_head_cell(m, m.index_of(hs[k]))
    &&& forall|i: int|
        0 <= i < m.cells.len() && is_head_cell(m, i) ==> exists|k: int|
            0 <= k < hs.len() && m.index_of(#[trigger] hs[k]) == i
}

impl Board {
    /// Whether the cell at `(x, y)` exists and holds a wall.  Probe
    /// coordinates may lie off the board.
    fn wall_probe(&self, x: i64, y: i64) -> (b: bool)
        requires
            self@.dims_ok(),
        ensures
            b == wall_at(self@, x as int, y as int),
    {
        if x < 0 || y < 0 {
            return false;
        }
        if (x as u64) >= (self.width() as u64) || (y as u64) >= (self.height() as u64) {
            return false;
        }
        let px = x as usize;
        let py = y as usize;
        let total = self.cell_count();
        proof {
            lemma_grid_index_bounds(self@.width, self@.height, x as int, y as int);
        }
        let i = py * self.width() + px;
        match self.cell_at(i) {
            Cell::Wall => true,
            _ => false,
        }
    }

    /// Whether grid cell `i` may receive a wall.
    #[verifier::rlimit(100)]
    #[verifier::spinoff_prover]
    fn cell_eligible(&self, i: usize, heads: &Vec<Pos>) -> (b: bool)
        requires
            self@.dims_ok(),
            i < self@.cells.len(),
            heads_match(self@, heads@),
        ensures
            b == eligible(self@, i as int),
    {
        let ghost m = self@;
        match self.cell_at(i) {
            Cell::Empty => {},
            _ => {
                return false;
            },
        }
        let pos = self.pos_at(i);
        let x = pos.x as i64;
        let y = pos.y as i64;
        let w = self.width() as i64;
        let h = self.height() as i64;
        proof {
            assert(m.on_board(pos));
        }

        // Two cells in from a corner along an edge.
        if (x == 1 && y == 0) || (x == 0 && y == 1) || (x == w - 2 && y == 0) || (x == 0 && y == h
            - 2) || (x == w - 2 && y == h - 1) || (x == w - 1 && y == h - 2) || (x == 1 && y == h
            - 1) || (x == w - 1 && y == 1) {
            return false;
        }

        // Near a snake head.
        let mut k: usize = 0;
        while k < heads.len()
            invariant
                m == self@,
                self@.dims_ok(),
                heads_match(m, heads@),
                0 <= k <= heads@.len(),
                i < m.cells.len(),
                x == ix(m.width, i as int),
                y == iy(m.width, i as int),
                0 <= x < m.width,
                0 <= y < m.height,
                forall|k2: int|
                    0 <= k2 < k ==> sqdist(
                        (#[trigger] heads@[k2]).x as int,
                        heads@[k2].y as int,
                        x as int,
                        y as int,
                    ) >= 9,
            decreases heads@.len() - k,
        {
            let hp = heads[k];
            proof {
                assert(m.on_board(heads@[k as int]));
                lemma_sqdist_box(hp.x as int, hp.y as int, x as int, y as int);
            }
            let dx = (hp.x as i64) - x;
            let dy = (hp.y as i64) - y;
            if -2 <= dx && dx <= 2 && -2 <= dy && dy <= 2 {
                proof {
                    let hi = m.index_of(heads@[k as int]);
                    lemma_grid_index_bounds(
                        m.width,
                        m.height,
                        heads@[k as int].x as int,
                        heads@[k as int].y as int,
                    );
                    crate::grid::lemma_coords_of_index(
                        m.width,
                        m.height,
                        heads@[k as int].x as int,
                        heads@[k as int].y as int,
                    );
                    assert(is_head_cell(m, hi) && sqdist(
                        ix(m.width, hi),
                        iy(m.width, hi),
                        x as int,
                        y as int,
                    ) < 9);
                }
                return false;
            }
            k = k + 1;
        }
        proof {
            if near_head(m, x as int, y as int) {
                let hi = choose|hi: int|
                    0 <= hi < m.cells.len() && is_head_cell(m, hi) && sqdist(
                        ix(m.width, hi),
                        iy(m.width, hi),
                        x as int,
                        y as int,
                    ) < 9;
                let k2 = choose|k2: int|
                    0 <= k2 < heads@.len() && m.index_of(#[trigger] heads@[k2]) == hi;
                crate::grid::lemma_coords_of_index(
                    m.width,
                    m.height,
                    heads@[k2].x as int,
                    heads@[k2].y as int,
                );
                assert(sqdist(heads@[k2].x as int, heads@[k2].y as int, x as int, y as int) < 9);
            }
        }

        // Touching a wall.
        let n0 = self.wall_probe(x - 1, y - 1);
        let n1 = self.wall_probe(x, y - 1);
        let n2 = self.wall_probe(x + 1, y - 1);
        let n3 = self.wall_probe(x - 1, y);
        let n4 = self.wall_probe(x + 1, y);
        let n5 = self.wall_probe(x - 1, y + 1);
        let n6 = self.wall_probe(x, y + 1);
        let n7 = self.wall_probe(x + 1, y + 1);
        if n0 || n1 || n2 || n3 || n4 || n5 || n6 || n7 {
            proof {
                if n0 {
                    assert(wall_at(m, x as int + (-1), y as int + (-1)));
                }
                if n1 {
                    assert(wall_at(m, x as int + 0, y as int + (-1)));
                }
                if n2 {
                    assert(wall_at(m, x as int + 1, y as int + (-1)));
                }
                if n3 {
                    assert(wall_at(m, x as int + (-1), y as int + 0));
                }
                if n4 {
                    assert(wall_at(m, x as int + 1, y as int + 0));
                }
                if n5 {
                    assert(wall_at(m, x as int + (-1), y as int + 1));
                }
                if n6 {
                    assert(wall_at(m, x as int + 0, y as int + 1));
                }
                if n7 {
                    assert(wall_at(m, x as int + 1, y as int + 1));
                }
                assert(near_wall(m, x as int, y as int));
            }
            return false;
        }
        proof {
            if near_wall(m, x as int, y as int) {
                let (dx, dy) = choose|dx: int, dy: int|
                    -1 <= dx <= 1 && -1 <= dy <= 1 && !(dx == 0 && dy == 0) && #[trigger] wall_at(
                        m,
                        x + dx,
                        y + dy,
                    );
                assert(wall_at(m, x as int + dx, y as int + dy));
            }
        }

        // On a border, two cells along the border from a wall.
        if (x == 0 || x == w - 1) && (self.wall_probe(x, y + 2) || self.wall_probe(x, y - 2)) {
            return false;
        }
        if (y == 0 || y == h - 1) && (self.wall_probe(x + 2, y) || self.wall_probe(x - 2, y)) {
            return false;
        }

        // The four corner pairs.
        if ((x == 0 && y == 2) || (x == 2 && y == 0)) && (self.wall_probe(0, 2) || self.wall_probe(
            2,
            0,
        )) {
            return false;
        }
        if ((x == 0 && y == h - 3) || (x == 2 && y == h - 1)) && (self.wall_probe(0, h - 3)
            || self.wall_probe(2, h - 1)) {
            return false;
        }
        if ((x == w - 3 && y == h - 1) || (x == w - 1 && y == h - 3)) && (self.wall_probe(
            w - 3,
            h - 1,
        ) || self.wall_probe(w - 1, h - 3)) {
            return false;
        }
        if ((x == w - 1 && y == 2) || (x == w - 3 && y == 0)) && (self.wall_probe(w - 1, 2)
            || self.wall_probe(w - 3, 0)) {
            return false;
        }
        true
    }

    /// The set of empty cells eligible for wall placement, in row-major
    /// order.  A pure function of the grid: calling it twice on the same
    /// unmutated board returns the same list.
    pub fn get_spawnable(&self) -> (r: Vec<Pos>)
        requires
            self@.wf(),
        ensures
            r@ == spawnable(self@),
    {
        let ghost m = self@;
        let sv: Vec<Snake> = match self.snakes() {
            Ok(v) => v,
            Err(_) => {
                proof {
                    assert(false);
                }
                Vec::new()
            },
        };
        let mut heads: Vec<Pos> = Vec::new();
        let mut k: usize = 0;
        while k < sv.len()
            invariant
                m == self@,
                self@.wf(),
                0 <= k <= sv@.len(),
                heads@.len() == k,
                forall|k1: int|
                    0 <= k1 < sv@.len() ==> crate::snakes::snake_matches(m, #[trigger] sv@[k1])
                        && crate::grid::live(m.cells, sv@[k1].id),
                forall|id: u8|
                    crate::grid::live(m.cells, id) <==> exists|k1: int|
                        0 <= k1 < sv@.len() && sv@[k1].id == id,
                forall|k1: int| 0 <= k1 < k ==> #[trigger] heads@[k1] == sv@[k1].head,
            decreases sv@.len() - k,
        {
            heads.push(sv[k].head);
            k = k + 1;
        }
        proof {
            assert forall|k1: int|
                0 <= k1 < heads@.len() implies m.on_board(#[trigger] heads@[k1]) && is_head_cell(
                m,
                m.index_of(heads@[k1]),
            ) by {
                let s = sv@[k1];
                let n = s.parts@.len();
                assert(crate::grid::snake_ok(m.cells, m.width, s.id));
                crate::grid::lemma_snake_len_upper(m.cells, s.id);
                assert(heads@[k1] == s.parts@[n - 1]);
                assert(m.cells[m.index_of(s.parts@[n - 1])] == (Cell::Snake {
                    id: s.id,
                    part: (n - 1) as u16,
                }));
            }
            assert forall|i: int|
                0 <= i < m.cells.len() && is_head_cell(m, i) implies exists|k1: int|
                0 <= k1 < heads@.len() && m.index_of(#[trigger] heads@[k1]) == i by {
                let (hid, hpart) = match m.cells[i] {
                    Cell::Snake { id, part } => (id, part),
                    _ => (0u8, 0u16),
                };
                crate::grid::lemma_count_pos(m.cells, |c: Cell| crate::cell::is_id(c, hid));
                assert(crate::grid::live(m.cells, hid));
                let k1 = choose|k1: int| 0 <= k1 < sv@.len() && sv@[k1].id == hid;
                let s = sv@[k1];
                let n = s.parts@.len();
                assert(crate::grid::snake_ok(m.cells, m.width, hid));
                assert(crate::grid::parts_unique(m.cells, hid));
                crate::grid::lemma_snake_len_upper(m.cells, hid);
                lemma_grid_index_bounds(
                    m.width,
                    m.height,
                    s.parts@[n - 1].x as int,
                    s.parts@[n - 1].y as int,
                );
                assert(m.cells[m.index_of(s.parts@[n - 1])] == (Cell::Snake {
                    id: hid,
                    part: (n - 1) as u16,
                }));
                assert(crate::cell::is_id(m.cells[i], hid) && crate::cell::is_id(
                    m.cells[m.index_of(s.parts@[n - 1])],
                    hid,
                ));
                assert(crate::cell::cell_part(m.cells[i]) == crate::cell::cell_part(
                    m.cells[m.index_of(s.parts@[n - 1])],
                ));
                assert(m.index_of(heads@[k1]) == i);
            }
            assert(heads_match(m, heads@));
        }

        let total = self.cell_count();
        let mut r: Vec<Pos> = Vec::new();
        let mut i: usize = 0;
        while i < total
            invariant
                m == self@,
                self@.wf(),
                total == m.cells.len(),
                heads_match(m, heads@),
                0 <= i <= total,
                r@ == spawnable_upto(m, i as int),
            decreases total - i,
        {
            if self.cell_eligible(i, &heads) {
                let p = self.pos_at(i);
                r.push(p);
            }
            i = i + 1;
        }
        r
    }

    /// Place a natural apple on a uniformly random empty cell.  Reports
    /// failure, and changes nothing, exactly when no cell is empty.
    pub fn spawn_apple(&mut self) -> (r: Result<(), ()>)
        requires
            old(self)@.dims_ok(),
        ensures
            final(self)@.width == old(self)@.width,
            final(self)@.height == old(self)@.height,
            final(self)@.apples_eaten == old(self)@.apples_eaten,
            r is Ok <==> exists|i: int|
                0 <= i < old(self)@.cells.len() && old(self)@.cells[i] == Cell::Empty,
            r is Ok ==> exists|i: int|
                0 <= i < old(self)@.cells.len() && old(self)@.cells[i] == Cell::Empty && final(self)@.cells == old(self)@.cells.update(i, Cell::Apple { natural: true }),
            r is Err ==> final(self)@.cells == old(self)@.cells,
            forall|id: u8|
                snake_len(final(self)@.cells, id) == snake_len(old(self)@.cells, id) && (
                crate::grid::snake_ok(old(self)@.cells, old(self)@.width, id)
                    ==> crate::grid::snake_ok(final(self)@.cells, final(self)@.width, id)),
            old(self)@.wf() ==> final(self)@.wf(),
    {
        let ghost m = self@;
        let total = self.cell_count();
        let mut empties: Vec<usize> = Vec::new();
        let mut i: usize = 0;
        while i < total
            invariant
                m == self@,
                total == m.cells.len(),
                0 <= i <= total,
                forall|j: int|
                    0 <= j < empties@.len() ==> (#[trigger] empties@[j]) < total
                        && m.cells[empties@[j] as int] == Cell::Empty,
                forall|j: int| 0 <= j < i && m.cells[j] == Cell::Empty ==> empties@.len() > 0,
                empties@.len() == 0 ==> forall|j: int| 0 <= j < i ==> m.cells[j] != Cell::Empty,
            decreases total - i,
        {
            match self.cell_at(i) {
                Cell::Empty => {
                    empties.push(i);
                },
                _ => {},
            }
            i = i + 1;
        }
        if empties.len() == 0 {
            return Err(());
        }
        let pick = self.rand_below(empties.len());
        let ei = empties[pick];
        self.place_non_snake_idx(ei, Cell::Apple { natural: true });
        Ok(())
    }

    /// Place a wall on a uniformly random eligible cell.  Reports failure,
    /// and changes nothing, exactly when no cell is eligible.
    pub fn spawn_wall(&mut self) -> (r: Result<(), ()>)
        requires
            old(self)@.wf(),
        ensures
            final(self)@.width == old(self)@.width,
            final(self)@.height == old(self)@.height,
            final(self)@.apples_eaten == old(self)@.apples_eaten,
            r is Ok <==> spawnable(old(self)@).len() > 0,
            r is Ok ==> exists|k: int|
                0 <= k < spawnable(old(self)@).len() && {
                    let i = old(self)@.index_of(#[trigger] spawnable(old(self)@)[k]);
                    0 <= i < old(self)@.cells.len() && old(self)@.cells[i] == Cell::Empty && final(self)@.cells == old(self)@.cells.update(i, Cell::Wall)
                },
            r is Err ==> final(self)@.cells == old(self)@.cells,
            forall|id: u8|
                snake_len(final(self)@.cells, id) == snake_len(old(self)@.cells, id),
            final(self)@.wf(),
    {
        let ghost m = self@;
        let sp = self.get_spawnable();
        if sp.len() == 0 {
            return Err(());
        }
        let pick = self.rand_below(sp.len());
        let pos = sp[pick];
        proof {
            lemma_spawnable_elems(m, m.cells.len() as int);
            lemma_grid_index_bounds(m.width, m.height, pos.x as int, pos.y as int);
        }
        let i = self.idx_of(pos);
        self.place_non_snake_idx(i, Cell::Wall);
        Ok(())
    }
}

} // verus!
