//! The tick: the authoritative state transition that advances every snake
//! simultaneously.  All movement decisions are made against the pre-tick
//! grid, so the outcome does not depend on the order in which snakes are
//! processed.  Two snakes that pick the same target cell in the same tick
//! destroy each other; this makes the simultaneous semantics exact instead
//! of leaving the collision to iteration order.

use vstd::prelude::*;

use crate::board::BoardModel;
use crate::cell::{is_apple, is_id, Cell};
use crate::geom::{dir_dx, dir_dy, offset_dir, spec_opposite, Direction};
use crate::grid::{
    grid_index, has_part, head_index, in_grid, ix, iy, lemma_coords_of_index, lemma_count_pos,
    lemma_count_zero, lemma_grid_index_bounds, lemma_part_index_is, lemma_parts_from_placement,
    live, part_index, parts_unique, snake_dir, snake_len, snake_ok,
};

verus! {

/// What a tick reports: apples eaten, snakes damaged, and the end of the
/// round when no snake remains.
#[derive(Clone, Copy, Debug, PartialEq, Eq, Structural)]
pub enum BoardEvent {
    GameOver,
    AppleEaten { snake: u8 },
    SnakeDamaged { snake: u8 },
}

/// The direction snake `id` currently faces (head minus neck).
pub open spec fn cur_dir(m: BoardModel, id: u8) -> Direction {
    match snake_dir(m.cells, m.width, id) {
        Some(d) => d,
        None => Direction::Up,
    }
}

/// The input handed to snake `id`, `None` past the end of the slice.
pub open spec fn input_of(inputs: Seq<Option<Direction>>, id: u8) -> Option<Direction> {
    if id < inputs.len() {
        inputs[id as int]
    } else {
        None
    }
}

/// The direction a snake actually moves: the requested one, unless that is
/// the exact reverse of its current facing, in which case it continues
/// straight.
pub open spec fn resolved_dir(cur: Direction, inp: Option<Direction>) -> Direction {
    match inp {
        Some(d) => if d != spec_opposite(cur) {
            d
        } else {
            cur
        },
        None => cur,
    }
}

/// The direction snake `id` moves this tick.
pub open spec fn move_dir(m: BoardModel, inputs: Seq<Option<Direction>>, id: u8) -> Direction {
    resolved_dir(cur_dir(m, id), input_of(inputs, id))
}

pub open spec fn head_x(m: BoardModel, id: u8) -> int {
    ix(m.width, head_index(m.cells, id))
}

pub open spec fn head_y(m: BoardModel, id: u8) -> int {
    iy(m.width, head_index(m.cells, id))
}

pub open spec fn target_x(m: BoardModel, inputs: Seq<Option<Direction>>, id: u8) -> int {
    head_x(m, id) + dir_dx(move_dir(m, inputs, id))
}

pub open spec fn target_y(m: BoardModel, inputs: Seq<Option<Direction>>, id: u8) -> int {
    head_y(m, id) + dir_dy(move_dir(m, inputs, id))
}

/// Whether snake `id`'s candidate head cell lies on the board.
pub open spec fn target_on(m: BoardModel, inputs: Seq<Option<Direction>>, id: u8) -> bool {
    in_grid(m.width, m.height, target_x(m, inputs, id), target_y(m, inputs, id))
}

/// The flat index of snake `id`'s candidate head cell.
pub open spec fn target_index(m: BoardModel, inputs: Seq<Option<Direction>>, id: u8) -> int {
    grid_index(m.width, target_x(m, inputs, id), target_y(m, inputs, id))
}

/// Whether the pre-tick content of the candidate cell damages snake `id`:
/// off the board, a wall, or any snake segment other than its own
/// about-to-vacate tail.
pub open spec fn blocked(m: BoardModel, inputs: Seq<Option<Direction>>, id: u8) -> bool {
    if !target_on(m, inputs, id) {
        true
    } else {
        match m.cells[target_index(m, inputs, id)] {
            Cell::Wall => true,
            Cell::Snake { id: id2, part } => !(id2 == id && part == 0),
            _ => false,
        }
    }
}

/// Whether another live snake picked the same target cell: mutual
/// destruction.
pub open spec fn clash(m: BoardModel, inputs: Seq<Option<Direction>>, id: u8) -> bool {
    exists|id2: u8|
        id2 != id && live(m.cells, id2) && #[trigger] target_on(m, inputs, id2) && target_on(
            m,
            inputs,
            id,
        ) && target_index(m, inputs, id2) == target_index(m, inputs, id)
}

/// Whether snake `id` takes damage this tick.
pub open spec fn damaged(m: BoardModel, inputs: Seq<Option<Direction>>, id: u8) -> bool {
    blocked(m, inputs, id) || clash(m, inputs, id)
}

/// Whether snake `id` is alive before the tick and survives it.
pub open spec fn survives(m: BoardModel, inputs: Seq<Option<Direction>>, id: u8) -> bool {
    live(m.cells, id) && !damaged(m, inputs, id)
}

/// Whether snake `id` eats an apple this tick (and so keeps its tail).
pub open spec fn grows(m: BoardModel, inputs: Seq<Option<Direction>>, id: u8) -> bool {
    survives(m, inputs, id) && is_apple(m.cells[target_index(m, inputs, id)])
}

/// Whether the apple snake `id` eats is a natural one, which respawns.
pub open spec fn eats_natural(m: BoardModel, inputs: Seq<Option<Direction>>, id: u8) -> bool {
    grows(m, inputs, id) && m.cells[target_index(m, inputs, id)] == (Cell::Apple { natural: true })
}

/// The grid cell `i` after the head-placement phase: the new head of the
/// snake targeting it, if a surviving snake does, else the pre-tick cell.
pub open spec fn heads_cell(m: BoardModel, inputs: Seq<Option<Direction>>, i: int) -> Cell {
    if exists|id: u8| #[trigger] survives(m, inputs, id) && target_index(m, inputs, id) == i {
        let id = choose|id: u8| survives(m, inputs, id) && target_index(m, inputs, id) == i;
        Cell::Snake { id, part: snake_len(m.cells, id) as u16 }
    } else {
        m.cells[i]
    }
}

/// The damage phase, pointwise: every cell of a damaged snake becomes a
/// non-respawning apple.
pub open spec fn damage_cell(m: BoardModel, inputs: Seq<Option<Direction>>, c: Cell) -> Cell {
    match c {
        Cell::Snake { id, .. } => if live(m.cells, id) && damaged(m, inputs, id) {
            Cell::Apple { natural: false }
        } else {
            c
        },
        _ => c,
    }
}

/// The tail-retraction phase, pointwise: every segment of a non-growing
/// snake moves one step toward the tail; the old tail cell empties.
pub open spec fn retract_cell(m: BoardModel, inputs: Seq<Option<Direction>>, c: Cell) -> Cell {
    match c {
        Cell::Snake { id, part } => if grows(m, inputs, id) {
            c
        } else if part == 0 {
            Cell::Empty
        } else {
            Cell::Snake { id, part: (part - 1) as u16 }
        },
        _ => c,
    }
}

/// Grid cell `i` after the deterministic part of the tick.
pub open spec fn tick_cell(m: BoardModel, inputs: Seq<Option<Direction>>, i: int) -> Cell {
    retract_cell(m, inputs, damage_cell(m, inputs, heads_cell(m, inputs, i)))
}

/// The whole grid after the deterministic part of the tick (before the
/// random apple and wall spawns).
pub open spec fn tick_cells(m: BoardModel, inputs: Seq<Option<Direction>>) -> Seq<Cell> {
    Seq::new(m.cells.len(), |i: int| tick_cell(m, inputs, i))
}

/// The apple events of the tick, in snake id order, over ids below `k`.
pub open spec fn grow_events_upto(
    m: BoardModel,
    inputs: Seq<Option<Direction>>,
    k: int,
) -> Seq<BoardEvent>
    decreases k,
{
    if k <= 0 {
        Seq::empty()
    } else {
        grow_events_upto(m, inputs, k - 1) + if live(m.cells, (k - 1) as u8) && grows(
            m,
            inputs,
            (k - 1) as u8,
        ) {
            seq![BoardEvent::AppleEaten { snake: (k - 1) as u8 }]
        } else {
            Seq::empty()
        }
    }
}

/// The damage events of the tick, in snake id order, over ids below `k`.
pub open spec fn damage_events_upto(
    m: BoardModel,
    inputs: Seq<Option<Direction>>,
    k: int,
) -> Seq<BoardEvent>
    decreases k,
{
    if k <= 0 {
        Seq::empty()
    } else {
        damage_events_upto(m, inputs, k - 1) + if live(m.cells, (k - 1) as u8) && damaged(
            m,
            inputs,
            (k - 1) as u8,
        ) {
            seq![BoardEvent::SnakeDamaged { snake: (k - 1) as u8 }]
        } else {
            Seq::empty()
        }
    }
}

/// Whether every snake alive before the tick dies in it.
pub open spec fn all_dead(m: BoardModel, inputs: Seq<Option<Direction>>) -> bool {
    forall|id: u8| live(m.cells, id) ==> damaged(m, inputs, id)
}

/// Every event of the tick: apples eaten, then snakes damaged, then the end
/// of the round if no snake remains.
pub open spec fn tick_events(m: BoardModel, inputs: Seq<Option<Direction>>) -> Seq<BoardEvent> {
    grow_events_upto(m, inputs, 256) + damage_events_upto(m, inputs, 256) + if all_dead(
        m,
        inputs,
    ) {
        seq![BoardEvent::GameOver]
    } else {
        Seq::empty()
    }
}

/// How many natural apples are eaten this tick, over ids below `k`.
pub open spec fn naturals_upto(m: BoardModel, inputs: Seq<Option<Direction>>, k: int) -> nat
    decreases k,
{
    if k <= 0 {
        0
    } else {
        naturals_upto(m, inputs, k - 1) + if live(m.cells, (k - 1) as u8) && eats_natural(
            m,
            inputs,
            (k - 1) as u8,
        ) {
            1nat
        } else {
            0nat
        }
    }
}

/// The tail-retraction pass alone takes exactly one cell, the tail, from a
/// non-growing snake whose stored tail is present.
pub proof fn lemma_retraction_removes_tail(
    m: BoardModel,
    inputs: Seq<Option<Direction>>,
    id: u8,
    g: Seq<Cell>,
)
    requires
        !grows(m, inputs, id),
        has_part(g, id, 0),
        parts_unique(g, id),
    ensures
        snake_len(Seq::new(g.len(), |j: int| retract_cell(m, inputs, g[j])), id) == snake_len(
            g,
            id,
        ) - 1,
{
    let cur = Seq::new(g.len(), |j: int| retract_cell(m, inputs, g[j]));
    crate::grid::lemma_count_pointwise(
        cur,
        g,
        |c: Cell| is_id(c, id),
        |c: Cell| is_id(c, id) && crate::cell::cell_part(c) != 0,
    );
    crate::grid::lemma_count_split(
        g,
        |c: Cell| is_id(c, id),
        |c: Cell| is_id(c, id) && crate::cell::cell_part(c) == 0,
        |c: Cell| is_id(c, id) && crate::cell::cell_part(c) != 0,
    );
    let w = choose|i: int| 0 <= i < g.len() && crate::cell::is_id_part(g[i], id, 0);
    crate::grid::lemma_count_exactly_one(
        g,
        |c: Cell| is_id(c, id) && crate::cell::cell_part(c) == 0,
        w,
    );
}

/// At most one natural apple per snake id.
pub proof fn lemma_naturals_bound(m: BoardModel, inputs: Seq<Option<Direction>>, k: int)
    requires
        k >= 0,
    ensures
        naturals_upto(m, inputs, k) <= k,
    decreases k,
{
    if k > 0 {
        lemma_naturals_bound(m, inputs, k - 1);
    }
}

/// Whether the input slice covers every live snake id.
pub open spec fn inputs_cover(m: BoardModel, inputs: Seq<Option<Direction>>) -> bool {
    forall|id: u8| live(m.cells, id) ==> id < inputs.len()
}

/// The board model after the deterministic part of the tick.
pub open spec fn tick_model(m: BoardModel, inputs: Seq<Option<Direction>>) -> BoardModel {
    BoardModel { cells: tick_cells(m, inputs), ..m }
}

/// Two surviving snakes never share a target cell.
proof fn lemma_target_unique(
    m: BoardModel,
    inputs: Seq<Option<Direction>>,
    id1: u8,
    id2: u8,
)
    requires
        survives(m, inputs, id1),
        survives(m, inputs, id2),
        target_index(m, inputs, id1) == target_index(m, inputs, id2),
    ensures
        id1 == id2,
{
    if id1 != id2 {
        assert(target_on(m, inputs, id2));
        assert(clash(m, inputs, id1));
    }
}

/// Basic facts about a live snake's head cell under well-formedness.
proof fn lemma_head_facts(m: BoardModel, id: u8)
    requires
        m.wf(),
        live(m.cells, id),
    ensures
        2 <= snake_len(m.cells, id) <= u16::MAX + 1,
        0 <= head_index(m.cells, id) < m.cells.len(),
        m.cells[head_index(m.cells, id)] == (Cell::Snake {
            id,
            part: (snake_len(m.cells, id) - 1) as u16,
        }),
        in_grid(m.width, m.height, head_x(m, id), head_y(m, id)),
        grid_index(m.width, head_x(m, id), head_y(m, id)) == head_index(m.cells, id),
{
    assert(snake_ok(m.cells, m.width, id));
    crate::grid::lemma_snake_len_upper(m.cells, id);
    let n = snake_len(m.cells, id);
    assert(has_part(m.cells, id, (n - 1) as u16));
    let hi = head_index(m.cells, id);
    assert(0 <= hi < m.cells.len() && crate::cell::is_id_part(m.cells[hi], id, (n - 1) as u16));
    if m.width == 0 {
        assert(m.cells.len() == 0);
    }
    crate::grid::lemma_index_to_coords(m.width, m.height, hi);
}

/// A surviving snake's body after the tick: its parts again form exactly
/// `{0, .., len'-1}` where `len'` accounts for growth, its new head sits on
/// the target cell, and the new head is attached to the new neck.
#[verifier::rlimit(100)]
#[verifier::spinoff_prover]
proof fn lemma_tick_survivor(m: BoardModel, inputs: Seq<Option<Direction>>, id: u8)
    requires
        m.wf(),
        forall|id2: u8| live(m.cells, id2) ==> snake_len(m.cells, id2) <= u16::MAX,
        survives(m, inputs, id),
    ensures
        snake_ok(tick_cells(m, inputs), m.width, id),
        snake_len(tick_cells(m, inputs), id) == snake_len(m.cells, id) + (if grows(
            m,
            inputs,
            id,
        ) {
            1int
        } else {
            0int
        }),
{
    let tc = tick_cells(m, inputs);
    let w = m.width;
    let L = snake_len(m.cells, id) as int;
    let g = grows(m, inputs, id);
    let shift: int = if g {
        0
    } else {
        1
    };
    let l2 = if g {
        L + 1
    } else {
        L
    };
    let ti = target_index(m, inputs, id);
    let idxs = Seq::new(
        l2 as nat,
        |p: int|
            if p == l2 - 1 {
                ti
            } else {
                part_index(m.cells, id, (p + shift) as u16)
            },
    );
    lemma_head_facts(m, id);
    assert(snake_ok(m.cells, w, id));
    assert(2 <= L <= u16::MAX);
    assert(!blocked(m, inputs, id));
    assert(target_on(m, inputs, id));
    lemma_grid_index_bounds(w, m.height, target_x(m, inputs, id), target_y(m, inputs, id));
    assert(0 <= ti < m.cells.len());
    assert(tc.len() == m.cells.len());

    // The cell each new part lands on.
    assert forall|p: int| 0 <= p < l2 implies 0 <= #[trigger] idxs[p] < tc.len() && tc[idxs[p]]
        == (Cell::Snake { id, part: p as u16 }) by {
        if p == l2 - 1 {
            assert(survives(m, inputs, id) && target_index(m, inputs, id) == ti);
            let cid = choose|id2: u8|
                survives(m, inputs, id2) && target_index(m, inputs, id2) == ti;
            lemma_target_unique(m, inputs, cid, id);
            assert(heads_cell(m, inputs, ti) == (Cell::Snake { id, part: L as u16 }));
            assert(!damaged(m, inputs, id));
            assert(damage_cell(m, inputs, heads_cell(m, inputs, ti)) == (Cell::Snake {
                id,
                part: L as u16,
            }));
            if g {
                assert(tc[ti] == (Cell::Snake { id, part: L as u16 }));
            } else {
                assert(L as u16 != 0);
                assert(tc[ti] == (Cell::Snake { id, part: (L - 1) as u16 }));
            }
        } else {
            let q = (p + shift) as u16;
            assert(0 <= p + shift < L);
            assert(has_part(m.cells, id, q));
            let oi = part_index(m.cells, id, q);
            assert(0 <= oi < m.cells.len() && crate::cell::is_id_part(m.cells[oi], id, q));
            assert(m.cells[oi] == (Cell::Snake { id, part: q }));
            if exists|id2: u8|
                #[trigger] survives(m, inputs, id2) && target_index(m, inputs, id2) == oi {
                let id2 = choose|id2: u8|
                    survives(m, inputs, id2) && target_index(m, inputs, id2) == oi;
                assert(!blocked(m, inputs, id2));
                assert(m.cells[target_index(m, inputs, id2)] == (Cell::Snake { id, part: q }));
                assert(id2 == id && q == 0);
                if g {
                    assert(is_apple(m.cells[ti]));
                    assert(ti == oi);
                    assert(false);
                } else {
                    assert(p + shift >= 1);
                    assert(false);
                }
            }
            assert(heads_cell(m, inputs, oi) == m.cells[oi]);
            assert(damage_cell(m, inputs, m.cells[oi]) == m.cells[oi]);
            if g {
                assert(tc[oi] == (Cell::Snake { id, part: q }));
                assert(q == p as u16);
            } else {
                assert(q != 0);
                assert(tc[oi] == (Cell::Snake { id, part: (q - 1) as u16 }));
                assert(q - 1 == p);
            }
        }
    }

    // Every cell of the snake after the tick is one of those.
    assert forall|i: int|
        0 <= i < tc.len() && is_id(#[trigger] tc[i], id) implies exists|p: int|
        0 <= p < l2 && idxs[p] == i by {
        let hc = heads_cell(m, inputs, i);
        assert(tc[i] == retract_cell(m, inputs, damage_cell(m, inputs, hc)));
        if exists|id2: u8|
            #[trigger] survives(m, inputs, id2) && target_index(m, inputs, id2) == i {
            let cid = choose|id2: u8|
                survives(m, inputs, id2) && target_index(m, inputs, id2) == i;
            assert(hc == (Cell::Snake { id: cid, part: snake_len(m.cells, cid) as u16 }));
            assert(cid == id);
            assert(i == ti);
            assert(idxs[l2 - 1] == i);
        } else {
            assert(hc == m.cells[i]);
            assert(is_id(m.cells[i], id));
            let q = crate::cell::cell_part(m.cells[i]);
            assert(m.cells[i] == (Cell::Snake { id, part: q }));
            assert(q < L);
            if !g && q == 0 {
                assert(tc[i] == Cell::Empty);
                assert(false);
            }
            let p = q - shift;
            assert(0 <= p < l2 - 1);
            lemma_part_index_is(m.cells, id, q, i);
            assert(idxs[p] == i);
        }
    }

    // New head attached to new neck.
    let md = move_dir(m, inputs, id);
    lemma_coords_of_index(w, m.height, target_x(m, inputs, id), target_y(m, inputs, id));
    assert(ix(w, ti) == target_x(m, inputs, id) && iy(w, ti) == target_y(m, inputs, id));
    let ni = idxs[l2 - 2];
    assert(l2 - 2 + shift == L - 1);
    assert(ni == part_index(m.cells, id, (L - 1) as u16));
    assert(ni == head_index(m.cells, id));
    assert(ix(w, ni) == head_x(m, id) && iy(w, ni) == head_y(m, id));
    assert(offset_dir(dir_dx(md), dir_dy(md)) == Some(md)) by {
        match md {
            Direction::Up => {},
            Direction::Down => {},
            Direction::Left => {},
            Direction::Right => {},
        }
    }
    assert(crate::grid::dir_between(w, ni, ti) == Some(md));

    lemma_parts_from_placement(tc, w, id, idxs);
}

/// A snake that was not alive, or took damage, has no cells after the tick.
proof fn lemma_tick_gone(m: BoardModel, inputs: Seq<Option<Direction>>, id: u8)
    requires
        !survives(m, inputs, id),
    ensures
        snake_len(tick_cells(m, inputs), id) == 0,
{
    let tc = tick_cells(m, inputs);
    lemma_count_pos(m.cells, |c: Cell| is_id(c, id));
    assert forall|i: int| 0 <= i < tc.len() implies !is_id(#[trigger] tc[i], id) by {
        let hc = heads_cell(m, inputs, i);
        if exists|id2: u8|
            #[trigger] survives(m, inputs, id2) && target_index(m, inputs, id2) == i {
            let cid = choose|id2: u8|
                survives(m, inputs, id2) && target_index(m, inputs, id2) == i;
            assert(cid != id);
            assert(hc == (Cell::Snake { id: cid, part: snake_len(m.cells, cid) as u16 }));
        } else {
            assert(hc == m.cells[i]);
        }
        if is_id(hc, id) {
            assert(live(m.cells, id));
            assert(damaged(m, inputs, id));
            assert(damage_cell(m, inputs, hc) == (Cell::Apple { natural: false }));
        }
    }
    lemma_count_zero(tc, |c: Cell| is_id(c, id));
}

/// The deterministic tick preserves well-formedness, removes exactly the
/// damaged snakes, and changes every survivor's cell count by the growth
/// amount: unchanged for a non-growing snake (head added, tail retracted),
/// plus one for a growing snake (head added, tail kept).
pub proof fn lemma_tick_wf(m: BoardModel, inputs: Seq<Option<Direction>>)
    requires
        m.wf(),
        forall|id: u8| live(m.cells, id) ==> snake_len(m.cells, id) <= u16::MAX,
    ensures
        tick_cells(m, inputs).len() == m.cells.len(),
        tick_model(m, inputs).wf(),
        forall|id: u8|
            survives(m, inputs, id) ==> snake_ok(tick_cells(m, inputs), m.width, id)
                && snake_len(tick_cells(m, inputs), id) == snake_len(m.cells, id) + (if grows(
                m,
                inputs,
                id,
            ) {
                1int
            } else {
                0int
            }),
        forall|id: u8|
            !survives(m, inputs, id) ==> snake_len(tick_cells(m, inputs), id) == 0,
{
    assert forall|id: u8|
        survives(m, inputs, id) implies snake_ok(tick_cells(m, inputs), m.width, id)
        && snake_len(tick_cells(m, inputs), id) == snake_len(m.cells, id) + (if grows(
        m,
        inputs,
        id,
    ) {
        1int
    } else {
        0int
    }) by {
        lemma_tick_survivor(m, inputs, id);
    }
    assert forall|id: u8|
        !survives(m, inputs, id) implies snake_len(tick_cells(m, inputs), id) == 0 by {
        lemma_tick_gone(m, inputs, id);
    }
    let md = tick_model(m, inputs);
    assert(md.cells.len() == m.width * m.height);
    assert forall|id: u8| live(md.cells, id) implies snake_ok(md.cells, md.width, id) by {
        if !survives(m, inputs, id) {
            assert(snake_len(md.cells, id) == 0);
        }
    }
}

/// The grid after writing the new heads of surviving ids below `k`.
pub open spec fn heads_upto(m: BoardModel, inputs: Seq<Option<Direction>>, k: int) -> Seq<Cell>
    decreases k,
{
    if k <= 0 {
        m.cells
    } else {
        let prev = heads_upto(m, inputs, k - 1);
        if survives(m, inputs, (k - 1) as u8) {
            prev.update(
                target_index(m, inputs, (k - 1) as u8),
                Cell::Snake { id: (k - 1) as u8, part: snake_len(m.cells, (k - 1) as u8) as u16 },
            )
        } else {
            prev
        }
    }
}

proof fn lemma_heads_upto(m: BoardModel, inputs: Seq<Option<Direction>>, k: int)
    requires
        m.dims_ok(),
        0 <= k <= 256,
    ensures
        heads_upto(m, inputs, k).len() == m.cells.len(),
        forall|id: u8|
            id < k && #[trigger] survives(m, inputs, id) ==> heads_upto(m, inputs, k)[target_index(
                m,
                inputs,
                id,
            )] == (Cell::Snake { id, part: snake_len(m.cells, id) as u16 }),
        forall|i: int|
            0 <= i < m.cells.len() ==> heads_upto(m, inputs, k)[i] == m.cells[i] || (exists|id: u8|
                id < k && #[trigger] survives(m, inputs, id) && target_index(m, inputs, id) == i),
    decreases k,
{
    if k > 0 {
        lemma_heads_upto(m, inputs, k - 1);
        let idk = (k - 1) as u8;
        if survives(m, inputs, idk) {
            assert(target_on(m, inputs, idk));
            lemma_grid_index_bounds(
                m.width,
                m.height,
                target_x(m, inputs, idk),
                target_y(m, inputs, idk),
            );
            let tk = target_index(m, inputs, idk);
            assert forall|id: u8|
                id < k && #[trigger] survives(m, inputs, id) implies heads_upto(
                m,
                inputs,
                k,
            )[target_index(m, inputs, id)] == (Cell::Snake {
                id,
                part: snake_len(m.cells, id) as u16,
            }) by {
                assert(target_on(m, inputs, id));
                lemma_grid_index_bounds(
                    m.width,
                    m.height,
                    target_x(m, inputs, id),
                    target_y(m, inputs, id),
                );
                if id == idk {
                } else {
                    if target_index(m, inputs, id) == tk {
                        lemma_target_unique(m, inputs, id, idk);
                    }
                }
            }
        }
    }
}

proof fn lemma_heads_upto_full(m: BoardModel, inputs: Seq<Option<Direction>>)
    requires
        m.dims_ok(),
    ensures
        heads_upto(m, inputs, 256).len() == m.cells.len(),
        forall|i: int|
            0 <= i < m.cells.len() ==> heads_upto(m, inputs, 256)[i] == heads_cell(m, inputs, i),
{
    lemma_heads_upto(m, inputs, 256);
    assert forall|i: int|
        0 <= i < m.cells.len() implies heads_upto(m, inputs, 256)[i] == heads_cell(
        m,
        inputs,
        i,
    ) by {
        if exists|id: u8| #[trigger] survives(m, inputs, id) && target_index(m, inputs, id) == i {
            let cid = choose|id: u8|
                survives(m, inputs, id) && target_index(m, inputs, id) == i;
            assert(cid < 256 && survives(m, inputs, cid));
        } else {
            assert(heads_upto(m, inputs, 256)[i] == m.cells[i]);
        }
    }
}

/// Facts tying a derived snake view to the stored snake it was read from.
pub proof fn lemma_snake_view_facts(m: BoardModel, s: crate::snakes::Snake)
    requires
        m.wf(),
        crate::snakes::snake_matches(m, s),
        live(m.cells, s.id),
    ensures
        cur_dir(m, s.id) == s.dir,
        head_x(m, s.id) == s.head.x as int,
        head_y(m, s.id) == s.head.y as int,
        snake_len(m.cells, s.id) == s.parts@.len(),
        m.on_board(s.head),
{
    let id = s.id;
    let n = s.parts@.len() as int;
    assert(snake_ok(m.cells, m.width, id));
    crate::grid::lemma_snake_len_upper(m.cells, id);
    assert(m.on_board(s.parts@[n - 1]) && m.on_board(s.parts@[n - 2]));
    lemma_grid_index_bounds(m.width, m.height, s.parts@[n - 1].x as int, s.parts@[n - 1].y as int);
    lemma_grid_index_bounds(m.width, m.height, s.parts@[n - 2].x as int, s.parts@[n - 2].y as int);
    assert(crate::cell::is_id_part(m.cells[m.index_of(s.parts@[n - 1])], id, (n - 1) as u16));
    lemma_part_index_is(m.cells, id, (n - 1) as u16, m.index_of(s.parts@[n - 1]));
    assert(crate::cell::is_id_part(m.cells[m.index_of(s.parts@[n - 2])], id, (n - 2) as u16));
    lemma_part_index_is(m.cells, id, (n - 2) as u16, m.index_of(s.parts@[n - 2]));
    lemma_coords_of_index(m.width, m.height, s.parts@[n - 1].x as int, s.parts@[n - 1].y as int);
    lemma_coords_of_index(m.width, m.height, s.parts@[n - 2].x as int, s.parts@[n - 2].y as int);
    assert(head_index(m.cells, id) == m.index_of(s.head));
    assert(crate::grid::neck_index(m.cells, id) == m.index_of(s.neck));
    assert(snake_dir(m.cells, m.width, id) == offset_dir(
        s.head.x - s.neck.x,
        s.head.y - s.neck.y,
    ));
}

/// The tables the tick computes, one slot per snake id, all agreeing with
/// the per-id decision functions.
pub open spec fn tables_ok(
    m: BoardModel,
    inputs: Seq<Option<Direction>>,
    live_t: Seq<bool>,
    dmg_t: Seq<bool>,
    grow_t: Seq<bool>,
    nat_t: Seq<bool>,
    ti_t: Seq<usize>,
    len_t: Seq<usize>,
) -> bool {
    &&& live_t.len() == 256
    &&& dmg_t.len() == 256
    &&& grow_t.len() == 256
    &&& nat_t.len() == 256
    &&& ti_t.len() == 256
    &&& len_t.len() == 256
    &&& forall|id: u8| live_t[id as int] == live(m.cells, id)
    &&& forall|id: u8|
        live(m.cells, id) ==> dmg_t[id as int] == damaged(m, inputs, id) && grow_t[id as int]
            == grows(m, inputs, id) && nat_t[id as int] == eats_natural(m, inputs, id)
            && len_t[id as int] == snake_len(m.cells, id) && (survives(m, inputs, id)
            ==> ti_t[id as int] == target_index(m, inputs, id))
    &&& forall|id: u8|
        !live(m.cells, id) ==> dmg_t[id as int] == false && grow_t[id as int] == false
            && nat_t[id as int] == false
}

impl crate::board::Board {
    /// Advance every snake one cell, simultaneously.  Movement decisions
    /// are classified against the pre-tick grid; damaged snakes turn into
    /// non-respawning apples; non-growing snakes retract their tails; one
    /// replacement apple spawns per natural apple eaten, and every second
    /// eaten apple also attempts a wall spawn.
    #[verifier::rlimit(100)]
    #[verifier::spinoff_prover]
    pub fn tick_board(&mut self, inputs: &[Option<Direction>]) -> (r: Result<
        Vec<BoardEvent>,
        crate::snakes::BoardError,
    >)
        requires
            old(self)@.dims_ok(),
            old(self)@.apples_eaten + 256 <= usize::MAX,
            forall|id: u8|
                live(old(self)@.cells, id) ==> snake_len(old(self)@.cells, id) <= u16::MAX,
        ensures
            final(self)@.width == old(self)@.width,
            final(self)@.height == old(self)@.height,
            (r is Ok) <==> (old(self)@.wf() && inputs_cover(old(self)@, inputs@)),
            (r == Err::<Vec<BoardEvent>, crate::snakes::BoardError>(
                crate::snakes::BoardError::NotEnoughInputs,
            )) <==> (old(self)@.wf() && !inputs_cover(old(self)@, inputs@)),
            r is Err ==> final(self)@ == old(self)@,
            !old(self)@.wf() ==> (r matches Err(e) && (e matches
                crate::snakes::BoardError::SnakeTooShort { .. } || e matches
                crate::snakes::BoardError::HeadNotAttachedToNeck { .. })),
            r matches Ok(events) ==> events@ == tick_events(old(self)@, inputs@),
            r is Ok ==> final(self)@.apples_eaten == old(self)@.apples_eaten + naturals_upto(
                old(self)@,
                inputs@,
                256,
            ),
            r is Ok ==> final(self)@.cells.len() == old(self)@.cells.len() && final(self)@.wf(),
            r is Ok ==> forall|i: int|
                0 <= i < old(self)@.cells.len() ==> final(self)@.cells[i] == tick_cells(
                    old(self)@,
                    inputs@,
                )[i] || (tick_cells(old(self)@, inputs@)[i] == Cell::Empty && (final(self)@.cells[i]
                    == (Cell::Apple { natural: true }) || final(self)@.cells[i] == Cell::Wall)),
            r is Ok ==> forall|id: u8|
                survives(old(self)@, inputs@, id) ==> snake_len(final(self)@.cells, id)
                    == snake_len(old(self)@.cells, id) + (if grows(old(self)@, inputs@, id) {
                    1int
                } else {
                    0int
                }),
            r is Ok ==> forall|id: u8|
                !survives(old(self)@, inputs@, id) ==> !live(final(self)@.cells, id),
            r is Ok ==> crate::grid::natural_apples(final(self)@.cells)
                == crate::grid::natural_apples(tick_cells(old(self)@, inputs@)) + naturals_upto(
                old(self)@,
                inputs@,
                256,
            ) || !crate::grid::has_empty(final(self)@.cells),
    {
        let ghost m = self@;
        let ghost iv = inputs@;
        let snakes = match self.snakes() {
            Ok(v) => v,
            Err(e) => {
                return Err(e);
            },
        };

        // Every live snake id must have an input slot.
        let mut k: usize = 0;
        while k < snakes.len()
            invariant
                m == self@,
                iv == inputs@,
                m.wf(),
                forall|k2: int|
                    0 <= k2 < snakes@.len() ==> crate::snakes::snake_matches(
                        m,
                        #[trigger] snakes@[k2],
                    ) && live(m.cells, snakes@[k2].id),
                forall|id: u8|
                    live(m.cells, id) <==> exists|k2: int|
                        0 <= k2 < snakes@.len() && snakes@[k2].id == id,
                0 <= k <= snakes@.len(),
                forall|k2: int| 0 <= k2 < k ==> (#[trigger] snakes@[k2]).id < iv.len(),
            decreases snakes@.len() - k,
        {
            if snakes[k].id as usize >= inputs.len() {
                proof {
                    assert(live(m.cells, snakes@[k as int].id));
                    assert(!inputs_cover(m, iv));
                }
                return Err(crate::snakes::BoardError::NotEnoughInputs);
            }
            k = k + 1;
        }
        proof {
            assert forall|id: u8| live(m.cells, id) implies id < iv.len() by {
                let k2 = choose|k2: int| 0 <= k2 < snakes@.len() && snakes@[k2].id == id;
                assert(snakes@[k2].id < iv.len());
            }
            assert(inputs_cover(m, iv));
        }

        // Decision tables, one slot per id.
        let mut live_t: Vec<bool> = vec![false; 256];
        let mut dmg_t: Vec<bool> = vec![false; 256];
        let mut grow_t: Vec<bool> = vec![false; 256];
        let mut nat_t: Vec<bool> = vec![false; 256];
        let mut ton_t: Vec<bool> = vec![false; 256];
        let mut ti_t: Vec<usize> = vec![0; 256];
        let mut len_t: Vec<usize> = vec![0; 256];

        // First pass: resolved direction, candidate cell, and its pre-tick
        // classification, per snake.
        let mut k: usize = 0;
        while k < snakes.len()
            invariant
                m == self@,
                iv == inputs@,
                self@.dims_ok(),
                m.wf(),
                inputs_cover(m, iv),
                forall|k2: int|
                    0 <= k2 < snakes@.len() ==> crate::snakes::snake_matches(
                        m,
                        #[trigger] snakes@[k2],
                    ) && live(m.cells, snakes@[k2].id),
                forall|id: u8|
                    live(m.cells, id) <==> exists|k2: int|
                        0 <= k2 < snakes@.len() && snakes@[k2].id == id,
                forall|k1: int, k2: int|
                    0 <= k1 < k2 < snakes@.len() ==> snakes@[k1].id < snakes@[k2].id,
                0 <= k <= snakes@.len(),
                live_t@.len() == 256,
                dmg_t@.len() == 256,
                ton_t@.len() == 256,
                ti_t@.len() == 256,
                len_t@.len() == 256,
                grow_t@.len() == 256,
                nat_t@.len() == 256,
                forall|k2: int|
                    0 <= k2 < k ==> {
                        let id = (#[trigger] snakes@[k2]).id;
                        live_t@[id as int] == true && ton_t@[id as int] == target_on(m, iv, id)
                            && dmg_t@[id as int] == blocked(m, iv, id) && len_t@[id as int]
                            == snake_len(m.cells, id) && (target_on(m, iv, id) ==> ti_t@[id as int]
                            == target_index(m, iv, id))
                    },
                forall|id: u8|
                    !(exists|k2: int| 0 <= k2 < k && (#[trigger] snakes@[k2]).id == id)
                        ==> live_t@[id as int] == false && dmg_t@[id as int] == false
                        && ton_t@[id as int] == false,
            decreases snakes@.len() - k,
        {
            let s = &snakes[k];
            let id = s.id;
            let idu = id as usize;
            proof {
                lemma_snake_view_facts(m, snakes@[k as int]);
            }
            let inp = inputs[idu];
            let d = Self::resolve_direction(inp, s.dir);
            proof {
                assert(input_of(iv, id) == inp);
                assert(d == move_dir(m, iv, id));
            }
            let step = d.as_vec2();
            let tpos = crate::geom::Pos { x: s.head.x + step.x, y: s.head.y + step.y };
            let tin = self.in_bounds(tpos);
            proof {
                assert(tpos.x as int == target_x(m, iv, id));
                assert(tpos.y as int == target_y(m, iv, id));
                assert(tin == target_on(m, iv, id));
            }
            live_t.set(idu, true);
            ton_t.set(idu, tin);
            len_t.set(idu, s.parts.len());
            if tin {
                let tidx = self.idx_of(tpos);
                ti_t.set(idu, tidx);
                let blk = match self.cell_at(tidx) {
                    Cell::Wall => true,
                    Cell::Snake { id: id2, part } => !(id2 == id && part == 0),
                    _ => false,
                };
                dmg_t.set(idu, blk);
                proof {
                    assert(tidx == target_index(m, iv, id));
                    assert(dmg_t@[idu as int] == blocked(m, iv, id));
                }
            } else {
                dmg_t.set(idu, true);
                proof {
                    assert(blocked(m, iv, id));
                }
            }
            proof {
                assert forall|id2: u8|
                    !(exists|k2: int| 0 <= k2 < k + 1 && (#[trigger] snakes@[k2]).id == id2)
                        implies live_t@[id2 as int] == false && dmg_t@[id2 as int] == false
                    && ton_t@[id2 as int] == false by {
                    assert(id2 != id);
                    assert(!(exists|k2: int| 0 <= k2 < k && (#[trigger] snakes@[k2]).id == id2));
                }
                assert forall|k2: int| 0 <= k2 < k + 1 implies {
                    let id2 = (#[trigger] snakes@[k2]).id;
                    live_t@[id2 as int] == true && ton_t@[id2 as int] == target_on(m, iv, id2)
                        && dmg_t@[id2 as int] == blocked(m, iv, id2) && len_t@[id2 as int]
                        == snake_len(m.cells, id2) && (target_on(m, iv, id2) ==> ti_t@[id2 as int]
                        == target_index(m, iv, id2))
                } by {
                    if k2 < k {
                        assert(snakes@[k2].id != id);
                    }
                }
            }
            k = k + 1;
        }
        proof {
            assert forall|id: u8| live_t@[id as int] == live(m.cells, id) by {
                if live(m.cells, id) {
                    let k2 = choose|k2: int| 0 <= k2 < snakes@.len() && snakes@[k2].id == id;
                    assert(live_t@[id as int] == true);
                } else {
                    assert(!(exists|k2: int|
                        0 <= k2 < snakes@.len() && (#[trigger] snakes@[k2]).id == id));
                }
            }
        }

        // Second pass: two live snakes picking the same cell destroy each
        // other.
        let mut k1: usize = 0;
        while k1 < snakes.len()
            invariant
                m == self@,
                iv == inputs@,
                self@.dims_ok(),
                m.wf(),
                inputs_cover(m, iv),
                forall|k2: int|
                    0 <= k2 < snakes@.len() ==> crate::snakes::snake_matches(
                        m,
                        #[trigger] snakes@[k2],
                    ) && live(m.cells, snakes@[k2].id),
                forall|id: u8|
                    live(m.cells, id) <==> exists|k2: int|
                        0 <= k2 < snakes@.len() && snakes@[k2].id == id,
                forall|k1a: int, k2: int|
                    0 <= k1a < k2 < snakes@.len() ==> snakes@[k1a].id < snakes@[k2].id,
                0 <= k1 <= snakes@.len(),
                live_t@.len() == 256,
                dmg_t@.len() == 256,
                ton_t@.len() == 256,
                ti_t@.len() == 256,
                len_t@.len() == 256,
                forall|id: u8| live_t@[id as int] == live(m.cells, id),
                forall|k2: int|
                    0 <= k2 < snakes@.len() ==> {
                        let id = (#[trigger] snakes@[k2]).id;
                        ton_t@[id as int] == target_on(m, iv, id) && len_t@[id as int] == snake_len(
                            m.cells,
                            id,
                        ) && (target_on(m, iv, id) ==> ti_t@[id as int] == target_index(m, iv, id))
                    },
                forall|k2: int|
                    k1 <= k2 < snakes@.len() ==> dmg_t@[(#[trigger] snakes@[k2]).id as int]
                        == blocked(m, iv, snakes@[k2].id),
                forall|k2: int|
                    0 <= k2 < k1 ==> dmg_t@[(#[trigger] snakes@[k2]).id as int] == damaged(
                        m,
                        iv,
                        snakes@[k2].id,
                    ),
                forall|id: u8| !live(m.cells, id) ==> dmg_t@[id as int] == false,
            decreases snakes@.len() - k1,
        {
            let id1 = snakes[k1].id;
            let on1 = ton_t[id1 as usize];
            let t1 = ti_t[id1 as usize];
            let mut cl = false;
            let mut k2: usize = 0;
            while k2 < snakes.len()
                invariant
                    m == self@,
                    iv == inputs@,
                    0 <= k1 < snakes@.len(),
                    id1 == snakes@[k1 as int].id,
                    live(m.cells, id1),
                    forall|k3: int|
                        0 <= k3 < snakes@.len() ==> live(m.cells, (#[trigger] snakes@[k3]).id),
                    forall|k1a: int, k3: int|
                        0 <= k1a < k3 < snakes@.len() ==> snakes@[k1a].id < snakes@[k3].id,
                    ton_t@.len() == 256,
                    ti_t@.len() == 256,
                    forall|k3: int|
                        0 <= k3 < snakes@.len() ==> {
                            let id = (#[trigger] snakes@[k3]).id;
                            ton_t@[id as int] == target_on(m, iv, id) && (target_on(m, iv, id)
                                ==> ti_t@[id as int] == target_index(m, iv, id))
                        },
                    on1 == target_on(m, iv, id1),
                    target_on(m, iv, id1) ==> t1 == target_index(m, iv, id1),
                    0 <= k2 <= snakes@.len(),
                    cl == exists|k3: int|
                        0 <= k3 < k2 && (#[trigger] snakes@[k3]).id != id1 && target_on(
                            m,
                            iv,
                            snakes@[k3].id,
                        ) && target_on(m, iv, id1) && target_index(m, iv, snakes@[k3].id)
                            == target_index(m, iv, id1),
                decreases snakes@.len() - k2,
            {
                if k2 != k1 {
                    let id2 = snakes[k2].id;
                    proof {
                        if k2 < k1 {
                            assert(snakes@[k2 as int].id < snakes@[k1 as int].id);
                        } else {
                            assert(snakes@[k1 as int].id < snakes@[k2 as int].id);
                        }
                    }
                    if on1 && ton_t[id2 as usize] && t1 == ti_t[id2 as usize] {
                        cl = true;
                        proof {
                            assert((#[trigger] snakes@[k2 as int]).id != id1 && target_on(
                                m,
                                iv,
                                snakes@[k2 as int].id,
                            ) && target_on(m, iv, id1) && target_index(
                                m,
                                iv,
                                snakes@[k2 as int].id,
                            ) == target_index(m, iv, id1));
                        }
                    }
                }
                k2 = k2 + 1;
            }
            proof {
                if cl {
                    let k3 = choose|k3: int|
                        0 <= k3 < snakes@.len() && (#[trigger] snakes@[k3]).id != id1 && target_on(
                            m,
                            iv,
                            snakes@[k3].id,
                        ) && target_on(m, iv, id1) && target_index(m, iv, snakes@[k3].id)
                            == target_index(m, iv, id1);
                    assert(live(m.cells, snakes@[k3].id));
                    assert(clash(m, iv, id1));
                } else {
                    if clash(m, iv, id1) {
                        let id2 = choose|id2: u8|
                            id2 != id1 && live(m.cells, id2) && #[trigger] target_on(m, iv, id2)
                                && target_on(m, iv, id1) && target_index(m, iv, id2)
                                == target_index(m, iv, id1);
                        let k3 = choose|k3: int|
                            0 <= k3 < snakes@.len() && snakes@[k3].id == id2;
                        assert(false);
                    }
                }
                assert(cl == clash(m, iv, id1));
            }
            if cl {
                dmg_t.set(id1 as usize, true);
            }
            proof {
                assert(dmg_t@[id1 as int] == damaged(m, iv, id1));
                assert forall|k2: int|
                    0 <= k2 < k1 + 1 implies dmg_t@[(#[trigger] snakes@[k2]).id as int] == damaged(
                    m,
                    iv,
                    snakes@[k2].id,
                ) by {
                    if k2 < k1 {
                        assert(snakes@[k2].id != id1);
                    }
                }
            }
            k1 = k1 + 1;
        }

        // Third pass: who eats, and whether the apple was natural.
        let mut k: usize = 0;
        while k < snakes.len()
            invariant
                m == self@,
                iv == inputs@,
                self@.dims_ok(),
                m.wf(),
                forall|k2: int|
                    0 <= k2 < snakes@.len() ==> live(m.cells, (#[trigger] snakes@[k2]).id),
                forall|id: u8|
                    live(m.cells, id) <==> exists|k2: int|
                        0 <= k2 < snakes@.len() && snakes@[k2].id == id,
                forall|k1a: int, k2: int|
                    0 <= k1a < k2 < snakes@.len() ==> snakes@[k1a].id < snakes@[k2].id,
                0 <= k <= snakes@.len(),
                live_t@.len() == 256,
                dmg_t@.len() == 256,
                ton_t@.len() == 256,
                ti_t@.len() == 256,
                len_t@.len() == 256,
                grow_t@.len() == 256,
                nat_t@.len() == 256,
                forall|id: u8| live_t@[id as int] == live(m.cells, id),
                forall|id: u8| !live(m.cells, id) ==> dmg_t@[id as int] == false,
                forall|k2: int|
                    0 <= k2 < snakes@.len() ==> {
                        let id = (#[trigger] snakes@[k2]).id;
                        dmg_t@[id as int] == damaged(m, iv, id) && ton_t@[id as int] == target_on(
                            m,
                            iv,
                            id,
                        ) && len_t@[id as int] == snake_len(m.cells, id) && (target_on(m, iv, id)
                            ==> ti_t@[id as int] == target_index(m, iv, id))
                    },
                forall|k2: int|
                    0 <= k2 < k ==> grow_t@[(#[trigger] snakes@[k2]).id as int] == grows(
                        m,
                        iv,
                        snakes@[k2].id,
                    ) && nat_t@[snakes@[k2].id as int] == eats_natural(m, iv, snakes@[k2].id),
                forall|id: u8|
                    !(exists|k2: int| 0 <= k2 < k && (#[trigger] snakes@[k2]).id == id)
                        ==> grow_t@[id as int] == false && nat_t@[id as int] == false,
            decreases snakes@.len() - k,
        {
            let id = snakes[k].id;
            let idu = id as usize;
            if !dmg_t[idu] {
                proof {
                    assert(!blocked(m, iv, id));
                    assert(target_on(m, iv, id));
                    lemma_grid_index_bounds(
                        m.width,
                        m.height,
                        target_x(m, iv, id),
                        target_y(m, iv, id),
                    );
                    assert(ti_t@[idu as int] == target_index(m, iv, id));
                }
                let t = ti_t[idu];
                match self.cell_at(t) {
                    Cell::Apple { natural } => {
                        grow_t.set(idu, true);
                        if natural {
                            nat_t.set(idu, true);
                        }
                    },
                    _ => {},
                }
            }
            proof {
                assert(grow_t@[id as int] == grows(m, iv, id));
                assert(nat_t@[id as int] == eats_natural(m, iv, id));
                assert forall|id2: u8|
                    !(exists|k2: int| 0 <= k2 < k + 1 && (#[trigger] snakes@[k2]).id == id2)
                        implies grow_t@[id2 as int] == false && nat_t@[id2 as int] == false by {
                    assert(id2 != id);
                    assert(!(exists|k2: int| 0 <= k2 < k && (#[trigger] snakes@[k2]).id == id2));
                }
                assert forall|k2: int|
                    0 <= k2 < k + 1 implies grow_t@[(#[trigger] snakes@[k2]).id as int] == grows(
                    m,
                    iv,
                    snakes@[k2].id,
                ) && nat_t@[snakes@[k2].id as int] == eats_natural(m, iv, snakes@[k2].id) by {
                    if k2 < k {
                        assert(snakes@[k2].id != id);
                    }
                }
            }
            k = k + 1;
        }
        proof {
            assert forall|id: u8|
                live(m.cells, id) implies dmg_t@[id as int] == damaged(m, iv, id)
                && grow_t@[id as int] == grows(m, iv, id) && nat_t@[id as int] == eats_natural(
                m,
                iv,
                id,
            ) && len_t@[id as int] == snake_len(m.cells, id) && (survives(m, iv, id)
                ==> ti_t@[id as int] == target_index(m, iv, id)) by {
                let k2 = choose|k2: int| 0 <= k2 < snakes@.len() && snakes@[k2].id == id;
            }
            assert forall|id: u8|
                !live(m.cells, id) implies grow_t@[id as int] == false && nat_t@[id as int]
                == false by {
                assert(!(exists|k2: int|
                    0 <= k2 < snakes@.len() && (#[trigger] snakes@[k2]).id == id));
            }
            assert(tables_ok(m, iv, live_t@, dmg_t@, grow_t@, nat_t@, ti_t@, len_t@));
        }

        let events = self.tick_apply(
            Ghost(m),
            Ghost(iv),
            &live_t,
            &dmg_t,
            &grow_t,
            &nat_t,
            &ti_t,
            &len_t,
        );
        Ok(events)
    }

    /// Carry out a tick whose per-snake decisions have been computed: emit
    /// the events, write the new heads, convert damaged snakes to apples,
    /// retract tails, and run the apple/wall spawns.
    #[verifier::rlimit(100)]
    #[verifier::spinoff_prover]
    fn tick_apply(
        &mut self,
        Ghost(m): Ghost<BoardModel>,
        Ghost(iv): Ghost<Seq<Option<Direction>>>,
        live_t: &Vec<bool>,
        dmg_t: &Vec<bool>,
        grow_t: &Vec<bool>,
        nat_t: &Vec<bool>,
        ti_t: &Vec<usize>,
        len_t: &Vec<usize>,
    ) -> (events: Vec<BoardEvent>)
        requires
            old(self)@ == m,
            m.wf(),
            inputs_cover(m, iv),
            m.apples_eaten + 256 <= usize::MAX,
            forall|id: u8| live(m.cells, id) ==> snake_len(m.cells, id) <= u16::MAX,
            tables_ok(m, iv, live_t@, dmg_t@, grow_t@, nat_t@, ti_t@, len_t@),
        ensures
            final(self)@.width == m.width,
            final(self)@.height == m.height,
            events@ == tick_events(m, iv),
            final(self)@.apples_eaten == m.apples_eaten + naturals_upto(m, iv, 256),
            final(self)@.cells.len() == m.cells.len(),
            final(self)@.wf(),
            forall|i: int|
                0 <= i < m.cells.len() ==> final(self)@.cells[i] == tick_cells(m, iv)[i] || (
                tick_cells(m, iv)[i] == Cell::Empty && (final(self)@.cells[i] == (Cell::Apple {
                    natural: true,
                }) || final(self)@.cells[i] == Cell::Wall)),
            forall|id: u8|
                survives(m, iv, id) ==> snake_len(final(self)@.cells, id) == snake_len(
                    m.cells,
                    id,
                ) + (if grows(m, iv, id) {
                    1int
                } else {
                    0int
                }),
            forall|id: u8| !survives(m, iv, id) ==> !live(final(self)@.cells, id),
            crate::grid::natural_apples(final(self)@.cells) == crate::grid::natural_apples(
                tick_cells(m, iv),
            ) + naturals_upto(m, iv, 256) || !crate::grid::has_empty(final(self)@.cells),
    {
        let total = self.cell_count();

        // Apple events, in id order.
        let mut events: Vec<BoardEvent> = Vec::new();
        let mut idv: usize = 0;
        while idv < 256
            invariant
                self@ == m,
                tables_ok(m, iv, live_t@, dmg_t@, grow_t@, nat_t@, ti_t@, len_t@),
                0 <= idv <= 256,
                events@ == grow_events_upto(m, iv, idv as int),
            decreases 256 - idv,
        {
            if live_t[idv] && grow_t[idv] {
                events.push(BoardEvent::AppleEaten { snake: idv as u8 });
            }
            proof {
                let id = idv as u8;
                if live(m.cells, id) && grows(m, iv, id) {
                    assert(events@ == grow_events_upto(m, iv, idv as int) + seq![
                        BoardEvent::AppleEaten { snake: id },
                    ]);
                } else {
                    assert(events@ =~= grow_events_upto(m, iv, idv as int) + Seq::empty());
                }
            }
            idv = idv + 1;
        }

        // New heads, written on a copy of the grid.
        let mut cells = self.cells_vec();
        let mut idv: usize = 0;
        while idv < 256
            invariant
                self@ == m,
                tables_ok(m, iv, live_t@, dmg_t@, grow_t@, nat_t@, ti_t@, len_t@),
                m.wf(),
                0 <= idv <= 256,
                cells@ == heads_upto(m, iv, idv as int),
                cells@.len() == m.cells.len(),
                total == m.cells.len(),
                forall|id: u8| live(m.cells, id) ==> snake_len(m.cells, id) <= u16::MAX,
            decreases 256 - idv,
        {
            if live_t[idv] && !dmg_t[idv] {
                proof {
                    let id = idv as u8;
                    assert(survives(m, iv, id));
                    assert(target_on(m, iv, id));
                    lemma_grid_index_bounds(
                        m.width,
                        m.height,
                        target_x(m, iv, id),
                        target_y(m, iv, id),
                    );
                    assert(ti_t@[idv as int] == target_index(m, iv, id));
                    assert(len_t@[idv as int] == snake_len(m.cells, id));
                }
                let t = ti_t[idv];
                let ln = len_t[idv];
                cells.set(t, Cell::Snake { id: idv as u8, part: ln as u16 });
            }
            idv = idv + 1;
        }
        proof {
            lemma_heads_upto_full(m, iv);
        }
        let ghost hfull = cells@;

        // Damage: every cell of a damaged snake becomes a plain apple.
        let mut i: usize = 0;
        while i < total
            invariant
                self@ == m,
                tables_ok(m, iv, live_t@, dmg_t@, grow_t@, nat_t@, ti_t@, len_t@),
                m.wf(),
                total == m.cells.len(),
                cells@.len() == total,
                hfull.len() == total,
                forall|j: int| 0 <= j < total ==> hfull[j] == heads_cell(m, iv, j),
                0 <= i <= total,
                forall|j: int| 0 <= j < i ==> cells@[j] == damage_cell(m, iv, hfull[j]),
                forall|j: int| i <= j < total ==> cells@[j] == hfull[j],
            decreases total - i,
        {
            match cells[i] {
                Cell::Snake { id, .. } => {
                    if dmg_t[id as usize] {
                        cells.set(i, Cell::Apple { natural: false });
                    }
                    proof {
                        if live(m.cells, id) {
                        } else {
                            assert(dmg_t@[id as int] == false);
                        }
                        assert(cells@[i as int] == damage_cell(m, iv, hfull[i as int]));
                    }
                },
                _ => {},
            }
            i = i + 1;
        }
        let ghost dfull = cells@;

        // Tail retraction for every snake that did not grow.
        let mut i: usize = 0;
        while i < total
            invariant
                self@ == m,
                tables_ok(m, iv, live_t@, dmg_t@, grow_t@, nat_t@, ti_t@, len_t@),
                m.wf(),
                total == m.cells.len(),
                cells@.len() == total,
                hfull.len() == total,
                dfull.len() == total,
                forall|j: int| 0 <= j < total ==> hfull[j] == heads_cell(m, iv, j),
                forall|j: int| 0 <= j < total ==> dfull[j] == damage_cell(m, iv, hfull[j]),
                0 <= i <= total,
                forall|j: int| 0 <= j < i ==> cells@[j] == retract_cell(m, iv, dfull[j]),
                forall|j: int| i <= j < total ==> cells@[j] == dfull[j],
            decreases total - i,
        {
            match cells[i] {
                Cell::Snake { id, part } => {
                    proof {
                        if !live(m.cells, id) {
                            assert(dfull[i as int] == (Cell::Snake { id, part }));
                            assert(hfull[i as int] == (Cell::Snake { id, part }));
                            if exists|id2: u8|
                                #[trigger] survives(m, iv, id2) && target_index(m, iv, id2)
                                    == i as int {
                                let cid = choose|id2: u8|
                                    survives(m, iv, id2) && target_index(m, iv, id2) == i as int;
                                assert(live(m.cells, cid));
                                assert(false);
                            } else {
                                assert(m.cells[i as int] == (Cell::Snake { id, part }));
                                lemma_count_pos(m.cells, |c: Cell| is_id(c, id));
                                assert(false);
                            }
                        }
                        assert(grow_t@[id as int] == grows(m, iv, id));
                    }
                    if !grow_t[id as usize] {
                        if part == 0 {
                            cells.set(i, Cell::Empty);
                        } else {
                            cells.set(i, Cell::Snake { id, part: part - 1 });
                        }
                    }
                    proof {
                        assert(cells@[i as int] == retract_cell(m, iv, dfull[i as int]));
                    }
                },
                _ => {},
            }
            i = i + 1;
        }
        proof {
            assert forall|j: int| 0 <= j < total implies cells@[j] == tick_cell(m, iv, j) by {}
            assert(cells@ =~= tick_cells(m, iv));
        }
        self.set_cells(cells);
        proof {
            lemma_tick_wf(m, iv);
            assert(self@ == tick_model(m, iv));
        }
        let ghost tickm = self@;

        // Damage events, then the end of the round if nobody survived.
        let mut idv: usize = 0;
        proof {
            assert(events@ =~= grow_events_upto(m, iv, 256) + damage_events_upto(m, iv, 0));
        }
        while idv < 256
            invariant
                self@ == tickm,
                tables_ok(m, iv, live_t@, dmg_t@, grow_t@, nat_t@, ti_t@, len_t@),
                0 <= idv <= 256,
                events@ == grow_events_upto(m, iv, 256) + damage_events_upto(m, iv, idv as int),
            decreases 256 - idv,
        {
            if live_t[idv] && dmg_t[idv] {
                events.push(BoardEvent::SnakeDamaged { snake: idv as u8 });
            }
            proof {
                let id = idv as u8;
                if live(m.cells, id) && damaged(m, iv, id) {
                    assert(events@ =~= grow_events_upto(m, iv, 256) + (damage_events_upto(
                        m,
                        iv,
                        idv as int,
                    ) + seq![BoardEvent::SnakeDamaged { snake: id }]));
                } else {
                    assert(events@ =~= grow_events_upto(m, iv, 256) + (damage_events_upto(
                        m,
                        iv,
                        idv as int,
                    ) + Seq::empty()));
                }
            }
            idv = idv + 1;
        }
        let mut any_alive = false;
        let mut idv: usize = 0;
        while idv < 256
            invariant
                self@ == tickm,
                tables_ok(m, iv, live_t@, dmg_t@, grow_t@, nat_t@, ti_t@, len_t@),
                0 <= idv <= 256,
                any_alive == exists|id: u8|
                    id < idv && #[trigger] live(m.cells, id) && !damaged(m, iv, id),
            decreases 256 - idv,
        {
            if live_t[idv] && !dmg_t[idv] {
                any_alive = true;
                proof {
                    assert(live(m.cells, idv as u8) && !damaged(m, iv, idv as u8));
                }
            }
            proof {
                if !any_alive {
                    assert forall|id: u8|
                        id < idv + 1 && #[trigger] live(m.cells, id) implies damaged(
                        m,
                        iv,
                        id,
                    ) by {}
                }
            }
            idv = idv + 1;
        }
        if !any_alive {
            events.push(BoardEvent::GameOver);
        }
        proof {
            if any_alive {
                let id = choose|id: u8|
                    id < 256 && #[trigger] live(m.cells, id) && !damaged(m, iv, id);
                assert(!all_dead(m, iv));
                assert(events@ =~= tick_events(m, iv));
            } else {
                assert(all_dead(m, iv));
                assert(events@ =~= tick_events(m, iv));
            }
        }

        // One replacement apple per natural apple eaten; every second eaten
        // apple also attempts a wall spawn.
        let mut naturals: usize = 0;
        let mut idv: usize = 0;
        while idv < 256
            invariant
                self@ == tickm,
                tables_ok(m, iv, live_t@, dmg_t@, grow_t@, nat_t@, ti_t@, len_t@),
                0 <= idv <= 256,
                naturals == naturals_upto(m, iv, idv as int),
                naturals <= idv,
            decreases 256 - idv,
        {
            if live_t[idv] && nat_t[idv] {
                naturals = naturals + 1;
            }
            idv = idv + 1;
        }
        let ghost tcs = tick_cells(m, iv);
        let mut j: usize = 0;
        while j < naturals
            invariant
                self@.width == m.width,
                self@.height == m.height,
                self@.cells.len() == m.cells.len(),
                tcs == tick_cells(m, iv),
                tcs.len() == m.cells.len(),
                tickm == tick_model(m, iv),
                tickm.cells == tcs,
                self@.apples_eaten == m.apples_eaten + j,
                0 <= j <= naturals,
                naturals == naturals_upto(m, iv, 256),
                naturals <= 256,
                m.apples_eaten + 256 <= usize::MAX,
                self@.wf(),
                forall|i2: int|
                    0 <= i2 < m.cells.len() ==> self@.cells[i2] == tcs[i2] || (tcs[i2]
                        == Cell::Empty && (self@.cells[i2] == (Cell::Apple { natural: true })
                        || self@.cells[i2] == Cell::Wall)),
                forall|id: u8| snake_len(self@.cells, id) == snake_len(tcs, id),
                crate::grid::natural_apples(self@.cells) == crate::grid::natural_apples(tcs) + j
                    || !crate::grid::has_empty(self@.cells),
            decreases naturals - j,
        {
            let ghost pre1 = self@;
            let _ = self.spawn_apple();
            proof {
                assert forall|i2: int|
                    0 <= i2 < m.cells.len() implies self@.cells[i2] == tcs[i2] || (tcs[i2]
                        == Cell::Empty && (self@.cells[i2] == (Cell::Apple { natural: true })
                        || self@.cells[i2] == Cell::Wall)) by {
                    if self@.cells[i2] != pre1.cells[i2] {
                        assert(pre1.cells[i2] == Cell::Empty);
                    }
                }
                if crate::grid::has_empty(pre1.cells) {
                    let i = choose|i: int|
                        0 <= i < pre1.cells.len() && pre1.cells[i] == Cell::Empty && self@.cells
                            == pre1.cells.update(i, Cell::Apple { natural: true });
                    crate::grid::lemma_count_update(
                        pre1.cells,
                        |c: Cell| c == (Cell::Apple { natural: true }),
                        i,
                        Cell::Apple { natural: true },
                    );
                    assert(crate::grid::natural_apples(self@.cells)
                        == crate::grid::natural_apples(pre1.cells) + 1);
                } else {
                    assert(self@.cells == pre1.cells);
                }
            }
            self.bump_apples();
            if self.apples_eaten() % 2 == 1 {
                let ghost pre2 = self@;
                let _ = self.spawn_wall();
                proof {
                    if self@.cells != pre2.cells {
                        crate::spawn::lemma_spawnable_elems(pre2, pre2.cells.len() as int);
                        assert forall|i2: int|
                            0 <= i2 < m.cells.len() implies self@.cells[i2] == tcs[i2] || (tcs[i2]
                                == Cell::Empty && (self@.cells[i2] == (Cell::Apple {
                                natural: true,
                            }) || self@.cells[i2] == Cell::Wall)) by {
                            if self@.cells[i2] != pre2.cells[i2] {
                                assert(pre2.cells[i2] == Cell::Empty);
                            }
                        }
                        let k = choose|k: int|
                            0 <= k < crate::spawn::spawnable(pre2).len() && {
                                let i = pre2.index_of(#[trigger] crate::spawn::spawnable(
                                    pre2,
                                )[k]);
                                0 <= i < pre2.cells.len() && pre2.cells[i] == Cell::Empty
                                    && self@.cells == pre2.cells.update(i, Cell::Wall)
                            };
                        let i = pre2.index_of(crate::spawn::spawnable(pre2)[k]);
                        crate::grid::lemma_count_update(
                            pre2.cells,
                            |c: Cell| c == (Cell::Apple { natural: true }),
                            i,
                            Cell::Wall,
                        );
                        assert(crate::grid::natural_apples(self@.cells)
                            == crate::grid::natural_apples(pre2.cells));
                    }
                    if !crate::grid::has_empty(pre2.cells) {
                        if crate::spawn::spawnable(pre2).len() > 0 {
                            crate::spawn::lemma_spawnable_elems(pre2, pre2.cells.len() as int);
                            let p0 = crate::spawn::spawnable(pre2)[0];
                            assert(pre2.cells[pre2.index_of(p0)] == Cell::Empty);
                            assert(false);
                        }
                        assert(self@.cells == pre2.cells);
                    }
                }
            }
            proof {
                assert forall|id: u8|
                    snake_len(self@.cells, id) == snake_len(tcs, id) by {
                    assert(snake_len(pre1.cells, id) == snake_len(tcs, id));
                }
            }
            j = j + 1;
        }
        proof {
            assert forall|id: u8|
                survives(m, iv, id) implies snake_len(self@.cells, id) == snake_len(m.cells, id)
                + (if grows(m, iv, id) {
                1int
            } else {
                0int
            }) by {}
            assert forall|id: u8|
                !survives(m, iv, id) implies !live(self@.cells, id) by {}
        }
        events
    }

    /// Resolve a snake's requested direction against its current facing:
    /// the exact reverse is rejected and the snake continues straight, so
    /// the resolved direction is never the opposite of the current one.
    pub fn resolve_direction(input: Option<Direction>, current: Direction) -> (r: Direction)
        ensures
            r == resolved_dir(current, input),
            r != spec_opposite(current),
    {
        let r = match input {
            Some(d) => {
                if !(d == current.opposite()) {
                    d
                } else {
                    current
                }
            },
            None => current,
        };
        proof {
            match current {
                Direction::Up => {},
                Direction::Down => {},
                Direction::Left => {},
                Direction::Right => {},
            }
        }
        r
    }
}

} // verus!
