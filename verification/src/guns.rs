//! Bullets.  Firing costs the shooter its tail segment and launches a
//! bullet from its head.  Each tick a bullet sweeps `speed` cells in its
//! direction and explodes on the first obstacle: the board edge, a wall
//! (which it destroys), or a snake segment other than the shooter's own
//! head and neck (which takes damage at that segment).

use vstd::prelude::*;

use crate::board::{Board, BoardModel};
use crate::cell::{cell_part, is_id, Cell};
use crate::commands::WallEv;
use crate::geom::{dir_dx, dir_dy, Direction, Pos};
use crate::grid::{
    grid_index, in_grid, lemma_count_pos, lemma_grid_index_bounds, lemma_part_index_is,
    lemma_parts_from_placement, lemma_snake_same, live, part_index, snake_len, snake_ok,
};

verus! {

/// A bullet in flight.
#[derive(Clone, Copy, Debug, PartialEq, Eq, Structural)]
pub struct Bullet {
    /// The id of the snake that fired it.
    pub id: u8,
    pub pos: Pos,
    pub dir: Direction,
    /// Cells swept per tick.
    pub speed: u32,
}

/// A request to launch a bullet.
#[derive(Clone, Copy, Debug, PartialEq, Eq, Structural)]
pub struct SpawnBulletEv(pub Bullet);

/// A bullet exploded at this position.
#[derive(Clone, Copy, Debug, PartialEq, Eq, Structural)]
pub struct ExplosionEv {
    pub pos: Pos,
}

/// A snake was hit at body index `snake_pos`, counted from the head.
#[derive(Clone, Copy, Debug, PartialEq, Eq, Structural)]
pub struct DamageSnakeEv {
    pub snake_id: u8,
    pub snake_pos: usize,
}

/// What became of a bullet after one tick.
pub enum BulletOutcome {
    Flying(Bullet),
    Exploded(ExplosionEv, Option<DamageSnakeEv>, Option<WallEv>),
}

/// The x coordinate of sweep step `i`.
pub open spec fn sweep_x(b: Bullet, i: int) -> int {
    b.pos.x + i * dir_dx(b.dir)
}

/// The y coordinate of sweep step `i`.
pub open spec fn sweep_y(b: Bullet, i: int) -> int {
    b.pos.y + i * dir_dy(b.dir)
}

/// Whether sweep step `i` stops the bullet: off the board, a wall, or a
/// snake segment other than the shooter's own head and neck.
pub open spec fn sweep_blocked(m: BoardModel, b: Bullet, i: int) -> bool {
    if !in_grid(m.width, m.height, sweep_x(b, i), sweep_y(b, i)) {
        true
    } else {
        match m.cells[grid_index(m.width, sweep_x(b, i), sweep_y(b, i))] {
            Cell::Wall => true,
            Cell::Snake { id, part } => !(id == b.id && part + 2 >= snake_len(m.cells, id)),
            _ => false,
        }
    }
}

/// The grid after the shooter's tail retracts: its parts shift one toward
/// the tail, the old tail cell empties, everything else is untouched.
pub open spec fn fire_cell(m: BoardModel, id: u8, c: Cell) -> Cell {
    match c {
        Cell::Snake { id: id2, part } => if id2 == id {
            if part == 0 {
                Cell::Empty
            } else {
                Cell::Snake { id, part: (part - 1) as u16 }
            }
        } else {
            c
        },
        _ => c,
    }
}

impl Board {
    /// Fire a bullet from snake `id`: the snake gives up its tail segment
    /// and a bullet launches from its head in its current direction.
    /// Fails, and changes nothing, unless the snake is on the board with at
    /// least three segments.
    #[verifier::rlimit(100)]
    #[verifier::spinoff_prover]
    pub fn fire(&mut self, id: u8) -> (r: Result<SpawnBulletEv, ()>)
        requires
            old(self)@.wf(),
        ensures
            final(self)@.width == old(self)@.width,
            final(self)@.height == old(self)@.height,
            final(self)@.apples_eaten == old(self)@.apples_eaten,
            (r is Ok) <==> (live(old(self)@.cells, id) && snake_len(old(self)@.cells, id) >= 3),
            r is Err ==> final(self)@.cells == old(self)@.cells,
            r matches Ok(ev) ==> {
                &&& ev.0.id == id
                &&& ev.0.speed == 2
                &&& ev.0.pos.x == crate::tick::head_x(old(self)@, id)
                &&& ev.0.pos.y == crate::tick::head_y(old(self)@, id)
                &&& Some(ev.0.dir) == crate::grid::snake_dir(
                    old(self)@.cells,
                    old(self)@.width,
                    id,
                )
                &&& forall|i: int|
                    0 <= i < old(self)@.cells.len() ==> final(self)@.cells[i] == fire_cell(
                        old(self)@,
                        id,
                        old(self)@.cells[i],
                    )
                &&& snake_len(final(self)@.cells, id) == snake_len(old(self)@.cells, id) - 1
                &&& forall|id2: u8|
                    id2 != id ==> snake_len(final(self)@.cells, id2) == snake_len(
                        old(self)@.cells,
                        id2,
                    )
                &&& final(self)@.wf()
            },
    {
        let ghost m = self@;
        let s = match self.derive_snake(id) {
            Ok(Some(s)) => s,
            Ok(None) => {
                return Err(());
            },
            Err(_) => {
                proof {
                    assert(false);
                }
                return Err(());
            },
        };
        if s.parts.len() < 3 {
            return Err(());
        }
        proof {
            crate::tick::lemma_snake_view_facts(m, s);
        }
        let ghost ln = snake_len(m.cells, id) as int;
        let total = self.cell_count();
        let mut cells = self.cells_vec();
        let mut i: usize = 0;
        while i < total
            invariant
                m == self@,
                total == m.cells.len(),
                cells@.len() == total,
                0 <= i <= total,
                forall|j: int| 0 <= j < i ==> cells@[j] == fire_cell(m, id, m.cells[j]),
                forall|j: int| i <= j < total ==> cells@[j] == m.cells[j],
            decreases total - i,
        {
            match cells[i] {
                Cell::Snake { id: cid, part } => {
                    if cid == id {
                        if part == 0 {
                            cells.set(i, Cell::Empty);
                        } else {
                            cells.set(i, Cell::Snake { id, part: part - 1 });
                        }
                    }
                },
                _ => {},
            }
            i = i + 1;
        }
        self.set_cells(cells);
        proof {
            assert(self@.cells =~= Seq::new(m.cells.len(), |j: int| fire_cell(m, id, m.cells[j])));
            lemma_fire_wf(m, id);
        }
        Ok(SpawnBulletEv(Bullet { id, pos: s.head, dir: s.dir, speed: 2 }))
    }
}

/// The shooter's tail retraction keeps the grid well formed: the shifted
/// parts again form exactly `{0, .., len-2}`, still headed by an attached
/// head, and no other snake is touched.
#[verifier::rlimit(100)]
proof fn lemma_fire_wf(m: BoardModel, id: u8)
    requires
        m.wf(),
        live(m.cells, id),
        snake_len(m.cells, id) >= 3,
    ensures
        ({
            let cur = Seq::new(m.cells.len(), |j: int| fire_cell(m, id, m.cells[j]));
            &&& snake_len(cur, id) == snake_len(m.cells, id) - 1
            &&& forall|id2: u8| id2 != id ==> snake_len(cur, id2) == snake_len(m.cells, id2)
            &&& (BoardModel { cells: cur, ..m }).wf()
        }),
{
    let cur = Seq::new(m.cells.len(), |j: int| fire_cell(m, id, m.cells[j]));
    let w = m.width;
    let ln = snake_len(m.cells, id) as int;
    assert(snake_ok(m.cells, w, id));
    crate::grid::lemma_snake_len_upper(m.cells, id);
    let idxs = Seq::new((ln - 1) as nat, |p: int| part_index(m.cells, id, (p + 1) as u16));
    assert forall|p: int| 0 <= p < ln - 1 implies 0 <= #[trigger] idxs[p] < cur.len() && cur[
        idxs[p]
    ] == (Cell::Snake { id, part: p as u16 }) by {
        let q = (p + 1) as u16;
        assert(crate::grid::has_part(m.cells, id, q));
        let oi = part_index(m.cells, id, q);
        assert(0 <= oi < m.cells.len() && crate::cell::is_id_part(m.cells[oi], id, q));
    }
    assert forall|i: int| 0 <= i < cur.len() && is_id(#[trigger] cur[i], id) implies exists|p: int|
        0 <= p < idxs.len() && idxs[p] == i by {
        assert(is_id(m.cells[i], id));
        let q = cell_part(m.cells[i]);
        assert(q >= 1);
        lemma_part_index_is(m.cells, id, q, i);
        assert(idxs[q - 1] == i);
    }
    assert(idxs[ln - 2] == part_index(m.cells, id, (ln - 1) as u16));
    assert(idxs[ln - 3] == part_index(m.cells, id, (ln - 2) as u16));
    assert(crate::grid::dir_between(w, idxs[ln - 3], idxs[ln - 2]) == crate::grid::snake_dir(
        m.cells,
        w,
        id,
    ));
    lemma_parts_from_placement(cur, w, id, idxs);
    assert forall|id2: u8|
        id2 != id implies snake_len(cur, id2) == snake_len(m.cells, id2) && (snake_ok(
        m.cells,
        w,
        id2,
    ) ==> snake_ok(cur, w, id2)) by {
        assert forall|i: int|
            0 <= i < m.cells.len() implies (is_id(#[trigger] m.cells[i], id2) || is_id(
            #[trigger] cur[i],
            id2,
        ) ==> m.cells[i] == cur[i]) by {}
        lemma_snake_same(m.cells, cur, w, id2);
    }
    let md = BoardModel { cells: cur, ..m };
    assert forall|id2: u8| live(md.cells, id2) implies snake_ok(md.cells, md.width, id2) by {
        if id2 != id {
            assert(live(m.cells, id2));
        }
    }
}

impl Bullet {
    /// Advance the bullet one tick: sweep `speed` cells from its position
    /// and explode on the first obstacle, destroying a wall or damaging a
    /// snake at the hit segment; otherwise fly on.
    #[verifier::rlimit(100)]
    #[verifier::spinoff_prover]
    pub fn step(&self, board: &Board) -> (r: BulletOutcome)
        requires
            board@.wf(),
            board@.on_board(self.pos),
            self.speed <= 100000,
        ensures
            (r is Flying) <==> (forall|i: int|
                0 <= i <= self.speed ==> !sweep_blocked(board@, *self, i)),
            r matches BulletOutcome::Flying(nb) ==> nb.id == self.id && nb.dir == self.dir
                && nb.speed == self.speed && nb.pos.x == sweep_x(*self, self.speed as int)
                && nb.pos.y == sweep_y(*self, self.speed as int),
            r matches BulletOutcome::Exploded(ev, dmg, wall) ==> exists|i: int|
                0 <= i <= self.speed && #[trigger] sweep_blocked(board@, *self, i) && (forall|
                    i2: int,
                |
                    0 <= i2 < i ==> !sweep_blocked(board@, *self, i2)) && ev.pos.x == sweep_x(
                    *self,
                    i,
                ) && ev.pos.y == sweep_y(*self, i) && {
                    let xb = sweep_x(*self, i);
                    let yb = sweep_y(*self, i);
                    if !in_grid(board@.width, board@.height, xb, yb) {
                        dmg is None && wall is None
                    } else {
                        match board@.cells[grid_index(board@.width, xb, yb)] {
                            Cell::Wall => wall == Some(WallEv::Destroy(ev.pos)) && dmg is None,
                            Cell::Snake { id, part } => wall is None && (dmg matches Some(de)
                                && de.snake_id == id && de.snake_pos == snake_len(
                                board@.cells,
                                id,
                            ) - 1 - part),
                            _ => false,
                        }
                    }
                },
    {
        let ghost m = board@;
        let dv = self.dir.as_vec2();
        let dx = dv.x as i64;
        let dy = dv.y as i64;
        let mut i: u64 = 0;
        let speed = self.speed as u64;
        while i <= speed
            invariant
                m == board@,
                board@.wf(),
                m.on_board(self.pos),
                speed == self.speed,
                speed <= 100000,
                dx == dir_dx(self.dir),
                dy == dir_dy(self.dir),
                -1 <= dx <= 1,
                -1 <= dy <= 1,
                0 <= i <= speed + 1,
                forall|i2: int| 0 <= i2 < i ==> !sweep_blocked(m, *self, i2),
            decreases speed + 1 - i,
        {
            proof {
                assert(-100001 <= (i as int) * (dx as int) <= 100001) by (nonlinear_arith)
                    requires
                        0 <= i <= 100000,
                        -1 <= dx <= 1,
                ;
                assert(-100001 <= (i as int) * (dy as int) <= 100001) by (nonlinear_arith)
                    requires
                        0 <= i <= 100000,
                        -1 <= dy <= 1,
                ;
            }
            let x = (self.pos.x as i64) + (i as i64) * dx;
            let y = (self.pos.y as i64) + (i as i64) * dy;
            proof {
                assert(x == sweep_x(*self, i as int));
                assert(y == sweep_y(*self, i as int));
                // The first stopped step is at most one cell past an
                // on-board cell, so its coordinates fit the position type.
                if i > 0 {
                    assert(!sweep_blocked(m, *self, i as int - 1));
                    assert(in_grid(
                        m.width,
                        m.height,
                        sweep_x(*self, i as int - 1),
                        sweep_y(*self, i as int - 1),
                    ));
                    assert((i as int) * (dx as int) == (i as int - 1) * (dx as int) + (
                    dx as int)) by (nonlinear_arith);
                    assert((i as int) * (dy as int) == (i as int - 1) * (dy as int) + (
                    dy as int)) by (nonlinear_arith);
                    assert(sweep_x(*self, i as int) == sweep_x(*self, i as int - 1) + dx);
                    assert(sweep_y(*self, i as int) == sweep_y(*self, i as int - 1) + dy);
                }
                assert(-1 <= x <= m.width);
                assert(-1 <= y <= m.height);
            }
            match board.probe(x, y) {
                None => {
                    let ev = ExplosionEv { pos: Pos { x: x as i32, y: y as i32 } };
                    proof {
                        assert(sweep_blocked(m, *self, i as int));
                    }
                    return BulletOutcome::Exploded(ev, None, None);
                },
                Some(c) => {
                    let ghost gi = grid_index(m.width, x as int, y as int);
                    proof {
                        assert(in_grid(m.width, m.height, x as int, y as int));
                        lemma_grid_index_bounds(m.width, m.height, x as int, y as int);
                        assert(c == m.cells[gi]);
                    }
                    match c {
                        Cell::Wall => {
                            let pos = Pos { x: x as i32, y: y as i32 };
                            proof {
                                assert(sweep_blocked(m, *self, i as int));
                            }
                            return BulletOutcome::Exploded(
                                ExplosionEv { pos },
                                None,
                                Some(WallEv::Destroy(pos)),
                            );
                        },
                        Cell::Snake { id, part } => {
                            proof {
                                assert(is_id(m.cells[gi], id));
                                lemma_count_pos(m.cells, |c2: Cell| is_id(c2, id));
                                assert(live(m.cells, id));
                                assert(snake_ok(m.cells, m.width, id));
                                assert(crate::grid::parts_bounded(m.cells, id));
                                assert(cell_part(m.cells[gi]) < snake_len(m.cells, id));
                            }
                            let sv = match board.derive_snake(id) {
                                Ok(Some(sv)) => sv,
                                _ => {
                                    proof {
                                        assert(false);
                                    }
                                    return BulletOutcome::Flying(*self);
                                },
                            };
                            let ln = sv.parts.len();
                            proof {
                                assert(ln == snake_len(m.cells, id));
                                assert(part < ln);
                            }
                            if !(id == self.id && (part as usize) + 2 >= ln) {
                                let pos = Pos { x: x as i32, y: y as i32 };
                                proof {
                                    assert(sweep_blocked(m, *self, i as int));
                                }
                                return BulletOutcome::Exploded(
                                    ExplosionEv { pos },
                                    Some(
                                        DamageSnakeEv {
                                            snake_id: id,
                                            snake_pos: ln - 1 - (part as usize),
                                        },
                                    ),
                                    None,
                                );
                            }
                            proof {
                                assert(!sweep_blocked(m, *self, i as int));
                            }
                        },
                        _ => {
                            proof {
                                assert(!sweep_blocked(m, *self, i as int));
                            }
                        },
                    }
                },
            }
            i = i + 1;
        }
        proof {
            assert(!sweep_blocked(m, *self, self.speed as int));
            assert(in_grid(m.width, m.height, sweep_x(*self, self.speed as int), sweep_y(
                *self,
                self.speed as int,
            )));
        }
        let x = (self.pos.x as i64) + (speed as i64) * dx;
        let y = (self.pos.y as i64) + (speed as i64) * dy;
        BulletOutcome::Flying(
            Bullet {
                id: self.id,
                pos: Pos { x: x as i32, y: y as i32 },
                dir: self.dir,
                speed: self.speed,
            },
        )
    }
}

} // verus!
