//! The derived snake view.  Snakes are never stored as objects: each tick
//! they are reconstructed from the grid by grouping cells by id and ordering
//! them by part index, tail first.

use vstd::prelude::*;

use crate::board::{Board, BoardModel};
use crate::cell::{cell_part, is_id, is_id_part, Cell};
use crate::geom::{offset_dir, Direction, Pos};
use crate::grid::{
    dir_between, has_part, ix, iy, lemma_count_pos, lemma_count_take_all, lemma_count_take_step,
    lemma_parts_from_placement, live, parts_bounded, parts_form_range, parts_unique, snake_dir,
    snake_len, snake_ok,
};

verus! {

/// Failure of a tick or of the snake-view derivation.  The last two report
/// a corrupted grid and are fatal to the round.
#[derive(Clone, Copy, Debug, PartialEq, Eq, Structural)]
pub enum BoardError {
    /// The tick was handed fewer inputs than there are snake ids.
    NotEnoughInputs,
    /// A snake's stored parts do not form a contiguous sequence of at least
    /// two cells: the body is too short, a part index is out of range,
    /// duplicated, or missing.
    SnakeTooShort { snake: u8 },
    /// A snake's head cell is not orthogonally adjacent to its neck cell.
    HeadNotAttachedToNeck { snake: u8 },
}

/// A snake as read off the grid: its body positions from tail to head, and
/// the derived landmarks.
pub struct Snake {
    pub id: u8,
    /// Body positions, tail first, head last.
    pub parts: Vec<Pos>,
    /// The direction the snake faces: from neck to head.
    pub dir: Direction,
    pub head: Pos,
    pub neck: Pos,
    pub hips: Pos,
    pub tail: Pos,
}

/// What it means for `s` to be the snake view of id `s.id` on board `m`.
pub open spec fn snake_matches(m: BoardModel, s: Snake) -> bool {
    &&& s.parts@.len() == snake_len(m.cells, s.id)
    &&& s.parts@.len() >= 2
    &&& forall|p: int|
        0 <= p < s.parts@.len() ==> m.on_board(#[trigger] s.parts@[p]) && m.cells[m.index_of(
            s.parts@[p],
        )] == (Cell::Snake { id: s.id, part: p as u16 })
    &&& s.head == s.parts@[s.parts@.len() - 1]
    &&& s.neck == s.parts@[s.parts@.len() - 2]
    &&& s.hips == s.parts@[1]
    &&& s.tail == s.parts@[0]
    &&& offset_dir(s.head.x - s.neck.x, s.head.y - s.neck.y) == Some(s.dir)
}

/// The number of distinct snake ids below `k` present on the grid.
pub open spec fn ids_present_below(cells: Seq<Cell>, k: int) -> nat
    decreases k,
{
    if k <= 0 {
        0
    } else {
        ids_present_below(cells, k - 1) + if live(cells, (k - 1) as u8) {
            1nat
        } else {
            0nat
        }
    }
}

impl Board {
    /// The derived view of snake `id`, if it is on the grid.
    pub(crate) fn derive_snake(&self, id: u8) -> (r: Result<Option<Snake>, BoardError>)
        requires
            self@.dims_ok(),
        ensures
            r == Ok::<Option<Snake>, BoardError>(None) <==> !live(self@.cells, id),
            (r matches Ok(s) && s is Some) <==> live(self@.cells, id) && snake_ok(
                self@.cells,
                self@.width,
                id,
            ),
            r matches Ok(s) ==> (s matches Some(v) ==> v.id == id && snake_matches(self@, v)
                && Some(v.dir) == snake_dir(self@.cells, self@.width, id)),
            r matches Err(e) ==> live(self@.cells, id) && !snake_ok(self@.cells, self@.width, id)
                && (e == (BoardError::SnakeTooShort { snake: id }) || e
                == (BoardError::HeadNotAttachedToNeck { snake: id })),
            r == Err::<Option<Snake>, BoardError>(BoardError::SnakeTooShort { snake: id }) ==> !(
            parts_form_range(self@.cells, id) && snake_len(self@.cells, id) >= 2),
            r == Err::<Option<Snake>, BoardError>(BoardError::HeadNotAttachedToNeck {
                snake: id,
            }) ==> parts_form_range(self@.cells, id) && snake_len(self@.cells, id) >= 2,
    {
        let ghost cells = self@.cells;
        let ghost w = self@.width;
        let total = self.cell_count();

        // First pass: how many cells does this snake occupy?
        let mut n: usize = 0;
        let mut i: usize = 0;
        while i < total
            invariant
                self@.dims_ok(),
                cells == self@.cells,
                total == cells.len(),
                0 <= i <= total,
                n == crate::grid::count_matching(cells.take(i as int), |c: Cell| is_id(c, id)),
                n <= i,
            decreases total - i,
        {
            proof {
                lemma_count_take_step(cells, |c: Cell| is_id(c, id), i as int);
            }
            match self.cell_at(i) {
                Cell::Snake { id: cid, .. } => {
                    if cid == id {
                        n = n + 1;
                    }
                },
                _ => {},
            }
            i = i + 1;
        }
        proof {
            lemma_count_take_all(cells, |c: Cell| is_id(c, id));
            assert(n == snake_len(cells, id));
        }
        if n == 0 {
            proof {
                assert(!live(cells, id));
            }
            return Ok(None);
        }
        if n == 1 {
            return Err(BoardError::SnakeTooShort { snake: id });
        }
        if n > (u16::MAX as usize) + 1 {
            // More cells than distinct part values: some part must repeat.
            proof {
                if parts_unique(cells, id) {
                    crate::grid::lemma_snake_len_upper(cells, id);
                }
            }
            return Err(BoardError::SnakeTooShort { snake: id });
        }

        // Second pass: place each part's flat index in its slot; a part out
        // of range or seen twice means the stored sequence is malformed.
        let mut slots: Vec<Option<usize>> = vec![None; n];
        let mut i: usize = 0;
        while i < total
            invariant
                self@.dims_ok(),
                cells == self@.cells,
                total == cells.len(),
                0 <= i <= total,
                2 <= n == snake_len(cells, id) <= u16::MAX + 1,
                slots@.len() == n,
                forall|p: int|
                    0 <= p < n ==> match #[trigger] slots@[p] {
                        Some(j) => 0 <= j < i && cells[j as int] == (Cell::Snake {
                            id,
                            part: p as u16,
                        }) && forall|j2: int|
                            0 <= j2 < i && is_id_part(#[trigger] cells[j2], id, p as u16) ==> j2
                                == j,
                        None => forall|j2: int|
                            0 <= j2 < i ==> !is_id_part(#[trigger] cells[j2], id, p as u16),
                    },
                forall|j: int|
                    0 <= j < i && is_id(#[trigger] cells[j], id) ==> cell_part(cells[j]) < n,
            decreases total - i,
        {
            match self.cell_at(i) {
                Cell::Snake { id: cid, part } => {
                    if cid == id {
                        let pu = part as usize;
                        if pu >= n {
                            proof {
                                assert(is_id(cells[i as int], id) && cell_part(cells[i as int])
                                    >= n);
                                assert(!parts_bounded(cells, id));
                            }
                            return Err(BoardError::SnakeTooShort { snake: id });
                        }
                        let dup = match slots[pu] {
                            Some(_) => true,
                            None => false,
                        };
                        if dup {
                            proof {
                                let j = slots@[pu as int].unwrap();
                                assert(is_id_part(cells[j as int], id, part));
                                assert(is_id_part(cells[i as int], id, part));
                                assert(!parts_unique(cells, id));
                            }
                            return Err(BoardError::SnakeTooShort { snake: id });
                        }
                        slots.set(pu, Some(i));
                    }
                },
                _ => {},
            }
            i = i + 1;
        }

        // Third pass: read the slots out in part order; an empty slot means
        // a missing part.
        let mut parts: Vec<Pos> = Vec::new();
        let mut p: usize = 0;
        while p < n
            invariant
                self@.dims_ok(),
                cells == self@.cells,
                total == cells.len(),
                2 <= n == snake_len(cells, id) <= u16::MAX + 1,
                slots@.len() == n,
                0 <= p <= n,
                parts@.len() == p,
                forall|p2: int|
                    0 <= p2 < n ==> match #[trigger] slots@[p2] {
                        Some(j) => 0 <= j < total && cells[j as int] == (Cell::Snake {
                            id,
                            part: p2 as u16,
                        }) && forall|j2: int|
                            0 <= j2 < total && is_id_part(#[trigger] cells[j2], id, p2 as u16)
                                ==> j2 == j,
                        None => forall|j2: int|
                            0 <= j2 < total ==> !is_id_part(#[trigger] cells[j2], id, p2 as u16),
                    },
                forall|j: int|
                    0 <= j < total && is_id(#[trigger] cells[j], id) ==> cell_part(cells[j]) < n,
                forall|q: int| 0 <= q < p ==> (#[trigger] slots@[q]) is Some,
                forall|q: int|
                    0 <= q < p ==> self@.on_board(#[trigger] parts@[q]) && parts@[q].x == ix(
                        self@.width,
                        slots@[q].unwrap() as int,
                    ) && parts@[q].y == iy(self@.width, slots@[q].unwrap() as int)
                        && self@.index_of(parts@[q]) == slots@[q].unwrap(),
            decreases n - p,
        {
            match slots[p] {
                Some(j) => {
                    let pos = self.pos_at(j);
                    parts.push(pos);
                },
                None => {
                    proof {
                        assert(!has_part(cells, id, p as u16));
                        assert(p < snake_len(cells, id));
                    }
                    return Err(BoardError::SnakeTooShort { snake: id });
                },
            }
            p = p + 1;
        }

        let ghost idxs: Seq<int> = Seq::new(n as nat, |q: int| slots@[q].unwrap() as int);
        proof {
            assert forall|q: int| 0 <= q < n implies 0 <= #[trigger] idxs[q] < total && cells[
                idxs[q]
            ] == (Cell::Snake { id, part: q as u16 }) by {
                assert(slots@[q] is Some);
            }
            assert forall|j: int| 0 <= j < total && is_id(#[trigger] cells[j], id) implies exists|
                q: int,
            | 0 <= q < idxs.len() && idxs[q] == j by {
                let pj = cell_part(cells[j]);
                assert(is_id_part(cells[j], id, pj));
                assert(pj < n);
                assert(slots@[pj as int] is Some);
                assert(idxs[pj as int] == j);
            }
            lemma_parts_from_placement(cells, w, id, idxs);
            assert forall|q: int|
                0 <= q < n implies self@.on_board(#[trigger] parts@[q]) && self@.index_of(
                parts@[q],
            ) == idxs[q] && parts@[q].x == ix(self@.width, idxs[q]) && parts@[q].y == iy(
                self@.width,
                idxs[q],
            ) by {
                assert(slots@[q] is Some);
            }
        }

        let head = parts[n - 1];
        let neck = parts[n - 2];
        let dx = head.x - neck.x;
        let dy = head.y - neck.y;
        proof {
            assert(ix(w, idxs[n - 1]) - ix(w, idxs[n - 2]) == dx);
            assert(iy(w, idxs[n - 1]) - iy(w, idxs[n - 2]) == dy);
            assert(dir_between(w, idxs[n - 2], idxs[n - 1]) == offset_dir(dx as int, dy as int));
        }
        match Direction::from_offset(Pos { x: dx, y: dy }) {
            None => {
                proof {
                    assert(!snake_ok(cells, w, id));
                }
                Err(BoardError::HeadNotAttachedToNeck { snake: id })
            },
            Some(d) => {
                let hips = parts[1];
                let tail = parts[0];
                let s = Snake { id, parts, dir: d, head, neck, hips, tail };
                proof {
                    assert(snake_matches(self@, s));
                }
                Ok(Some(s))
            },
        }
    }

    /// The derived view of every snake on the grid, ordered by id.  Fails
    /// exactly when some stored snake is malformed, naming the smallest
    /// such id.
    pub fn snakes(&self) -> (r: Result<Vec<Snake>, BoardError>)
        requires
            self@.dims_ok(),
        ensures
            r is Ok <==> self@.wf(),
            r matches Ok(v) ==> {
                &&& v@.len() <= 256
                &&& forall|k: int|
                    0 <= k < v@.len() ==> snake_matches(self@, #[trigger] v@[k]) && live(
                        self@.cells,
                        v@[k].id,
                    )
                &&& forall|k1: int, k2: int|
                    0 <= k1 < k2 < v@.len() ==> v@[k1].id < v@[k2].id
                &&& forall|id: u8|
                    live(self@.cells, id) <==> exists|k: int| 0 <= k < v@.len() && v@[k].id == id
            },
            r matches Err(e) ==> !self@.wf() && match e {
                BoardError::SnakeTooShort { .. } => true,
                BoardError::HeadNotAttachedToNeck { .. } => true,
                _ => false,
            },
    {
        let mut v: Vec<Snake> = Vec::new();
        let mut idv: usize = 0;
        while idv < 256
            invariant
                self@.dims_ok(),
                0 <= idv <= 256,
                v@.len() <= idv,
                forall|k: int|
                    0 <= k < v@.len() ==> snake_matches(self@, #[trigger] v@[k]) && live(
                        self@.cells,
                        v@[k].id,
                    ) && v@[k].id < idv,
                forall|k1: int, k2: int| 0 <= k1 < k2 < v@.len() ==> v@[k1].id < v@[k2].id,
                forall|id: u8|
                    id < idv ==> (live(self@.cells, id) <==> exists|k: int|
                        0 <= k < v@.len() && v@[k].id == id),
                forall|id: u8|
                    id < idv && live(self@.cells, id) ==> snake_ok(self@.cells, self@.width, id),
            decreases 256 - idv,
        {
            let id = idv as u8;
            let ghost old_v = v@;
            match self.derive_snake(id) {
                Err(e) => {
                    return Err(e);
                },
                Ok(None) => {
                    proof {
                        assert(!live(self@.cells, id));
                        assert forall|id2: u8|
                            id2 < idv + 1 implies (live(self@.cells, id2) <==> exists|k: int|
                            0 <= k < v@.len() && v@[k].id == id2) by {
                            if id2 < idv {
                            } else {
                                assert(id2 == id);
                                assert forall|k: int|
                                    0 <= k < v@.len() implies v@[k].id != id2 by {}
                            }
                        }
                    }
                },
                Ok(Some(s)) => {
                    v.push(s);
                    proof {
                        assert(v@[v@.len() - 1] == s);
                        assert forall|id2: u8|
                            id2 < idv + 1 implies (live(self@.cells, id2) <==> exists|k: int|
                            0 <= k < v@.len() && v@[k].id == id2) by {
                            if id2 < idv {
                                if live(self@.cells, id2) {
                                    let k = choose|k: int|
                                        0 <= k < old_v.len() && old_v[k].id == id2;
                                    assert(v@[k].id == id2);
                                }
                            } else {
                                assert(v@[v@.len() - 1].id == id2);
                            }
                        }
                    }
                },
            }
            idv = idv + 1;
        }
        proof {
            assert forall|id: u8| live(self@.cells, id) implies snake_ok(
                self@.cells,
                self@.width,
                id,
            ) by {
                assert(id < 256);
            }
        }
        Ok(v)
    }

    /// The number of distinct snake ids on the grid.
    pub fn count_snakes(&self) -> (r: usize)
        ensures
            r == ids_present_below(self@.cells, 256),
            r <= 256,
    {
        let ghost cells = self@.cells;
        let total = self.cell_count();
        let mut r: usize = 0;
        let mut idv: usize = 0;
        while idv < 256
            invariant
                cells == self@.cells,
                total == cells.len(),
                0 <= idv <= 256,
                r == ids_present_below(cells, idv as int),
                r <= idv,
            decreases 256 - idv,
        {
            let id = idv as u8;
            let mut found = false;
            let mut i: usize = 0;
            while i < total
                invariant
                    cells == self@.cells,
                    total == cells.len(),
                    0 <= i <= total,
                    found <==> exists|j: int| 0 <= j < i && is_id(#[trigger] cells[j], id),
                decreases total - i,
            {
                match self.cell_at(i) {
                    Cell::Snake { id: cid, .. } => {
                        if cid == id {
                            found = true;
                        }
                    },
                    _ => {},
                }
                i = i + 1;
            }
            proof {
                lemma_count_pos(cells, |c: Cell| is_id(c, id));
                assert(found <==> live(cells, id));
            }
            if found {
                r = r + 1;
            }
            idv = idv + 1;
        }
        r
    }
}

} // verus!
