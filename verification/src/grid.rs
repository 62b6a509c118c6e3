//! Spec-level machinery over flat cell grids: counting cells that satisfy a
//! predicate, the index/coordinate bijection, and the well-formedness of the
//! per-snake part sequences stored in the grid.

use vstd::arithmetic::div_mod::{lemma_fundamental_div_mod, lemma_mod_division_less_than_divisor};
use vstd::prelude::*;

use crate::cell::{cell_part, is_id, is_id_part, is_snake, Cell};
use crate::geom::{offset_dir, Direction};

verus! {

// ---------------------------------------------------------------------------
// Counting cells that satisfy a predicate.
// ---------------------------------------------------------------------------

/// How many cells of `s` satisfy `f`.
pub open spec fn count_matching(s: Seq<Cell>, f: spec_fn(Cell) -> bool) -> nat
    decreases s.len(),
{
    if s.len() == 0 {
        0
    } else {
        count_matching(s.drop_last(), f) + if f(s.last()) {
            1nat
        } else {
            0nat
        }
    }
}

pub proof fn lemma_count_le_len(s: Seq<Cell>, f: spec_fn(Cell) -> bool)
    ensures
        count_matching(s, f) <= s.len(),
    decreases s.len(),
{
    if s.len() > 0 {
        lemma_count_le_len(s.drop_last(), f);
    }
}

/// Counting ignores everything but the pointwise truth of `f`.
pub proof fn lemma_count_pointwise(s1: Seq<Cell>, s2: Seq<Cell>, f: spec_fn(Cell) -> bool, g: spec_fn(
    Cell,
) -> bool)
    requires
        s1.len() == s2.len(),
        forall|i: int| 0 <= i < s1.len() ==> (f(s1[i]) <==> g(s2[i])),
    ensures
        count_matching(s1, f) == count_matching(s2, g),
    decreases s1.len(),
{
    if s1.len() > 0 {
        lemma_count_pointwise(s1.drop_last(), s2.drop_last(), f, g);
    }
}

/// Extending a prefix by one element.
pub proof fn lemma_count_take_step(s: Seq<Cell>, f: spec_fn(Cell) -> bool, k: int)
    requires
        0 <= k < s.len(),
    ensures
        count_matching(s.take(k + 1), f) == count_matching(s.take(k), f) + if f(s[k]) {
            1nat
        } else {
            0nat
        },
{
    assert(s.take(k + 1).drop_last() =~= s.take(k));
    assert(s.take(k + 1).last() == s[k]);
}

pub proof fn lemma_count_take_all(s: Seq<Cell>, f: spec_fn(Cell) -> bool)
    ensures
        count_matching(s.take(s.len() as int), f) == count_matching(s, f),
{
    assert(s.take(s.len() as int) =~= s);
}

/// A positive count is the same as a witness, and conversely.
pub proof fn lemma_count_pos(s: Seq<Cell>, f: spec_fn(Cell) -> bool)
    ensures
        count_matching(s, f) > 0 <==> exists|i: int| 0 <= i < s.len() && f(s[i]),
    decreases s.len(),
{
    if s.len() > 0 {
        lemma_count_pos(s.drop_last(), f);
        if f(s.last()) {
            assert(f(s[s.len() - 1]));
        }
        if count_matching(s, f) > 0 {
        } else {
            assert forall|i: int| 0 <= i < s.len() implies !f(s[i]) by {
                if i < s.len() - 1 {
                    assert(s.drop_last()[i] == s[i]);
                }
            }
        }
        if exists|i: int| 0 <= i < s.len() && f(s[i]) {
            let i = choose|i: int| 0 <= i < s.len() && f(s[i]);
            if i < s.len() - 1 {
                assert(s.drop_last()[i] == s[i]);
            }
        }
    }
}

/// If at most one index satisfies `f`, the count is at most one.
pub proof fn lemma_count_at_most_one(s: Seq<Cell>, f: spec_fn(Cell) -> bool)
    requires
        forall|i: int, j: int|
            0 <= i < s.len() && 0 <= j < s.len() && f(s[i]) && f(s[j]) ==> i == j,
    ensures
        count_matching(s, f) <= 1,
    decreases s.len(),
{
    if s.len() > 0 {
        let d = s.drop_last();
        assert forall|i: int, j: int|
            0 <= i < d.len() && 0 <= j < d.len() && f(d[i]) && f(d[j]) implies i == j by {
            assert(d[i] == s[i] && d[j] == s[j]);
        }
        lemma_count_at_most_one(d, f);
        if f(s.last()) {
            lemma_count_pos(d, f);
            if count_matching(d, f) > 0 {
                let i = choose|i: int| 0 <= i < d.len() && f(d[i]);
                assert(f(s[i]) && f(s[s.len() - 1]));
            }
        }
    }
}

/// If exactly one index satisfies `f`, the count is exactly one.
pub proof fn lemma_count_exactly_one(s: Seq<Cell>, f: spec_fn(Cell) -> bool, w: int)
    requires
        0 <= w < s.len(),
        f(s[w]),
        forall|i: int, j: int|
            0 <= i < s.len() && 0 <= j < s.len() && f(s[i]) && f(s[j]) ==> i == j,
    ensures
        count_matching(s, f) == 1,
{
    lemma_count_at_most_one(s, f);
    lemma_count_pos(s, f);
}

/// Updating one cell moves the count by whether the old and new cells
/// satisfy `f`.
pub proof fn lemma_count_update(s: Seq<Cell>, f: spec_fn(Cell) -> bool, i: int, c: Cell)
    requires
        0 <= i < s.len(),
    ensures
        count_matching(s.update(i, c), f) == count_matching(s, f) + (if f(c) {
            1int
        } else {
            0int
        }) - (if f(s[i]) {
            1int
        } else {
            0int
        }),
    decreases s.len(),
{
    let t = s.update(i, c);
    if i == s.len() - 1 {
        assert(t.drop_last() =~= s.drop_last());
        assert(t.last() == c);
    } else {
        assert(t.drop_last() =~= s.drop_last().update(i, c));
        assert(t.last() == s.last());
        lemma_count_update(s.drop_last(), f, i, c);
    }
}

/// If nothing satisfies `f`, the count is zero.
pub proof fn lemma_count_zero(s: Seq<Cell>, f: spec_fn(Cell) -> bool)
    requires
        forall|i: int| 0 <= i < s.len() ==> !f(s[i]),
    ensures
        count_matching(s, f) == 0,
{
    lemma_count_pos(s, f);
}

/// Counts add over a disjoint split of the predicate.
pub proof fn lemma_count_split(
    s: Seq<Cell>,
    f: spec_fn(Cell) -> bool,
    g: spec_fn(Cell) -> bool,
    h: spec_fn(Cell) -> bool,
)
    requires
        forall|c: Cell| #[trigger] f(c) <==> (g(c) || h(c)),
        forall|c: Cell| !(#[trigger] g(c) && h(c)),
    ensures
        count_matching(s, f) == count_matching(s, g) + count_matching(s, h),
    decreases s.len(),
{
    if s.len() > 0 {
        lemma_count_split(s.drop_last(), f, g, h);
        assert(f(s.last()) <==> (g(s.last()) || h(s.last())));
        assert(!(g(s.last()) && h(s.last())));
    }
}

// ---------------------------------------------------------------------------
// Index/coordinate bijection.
// ---------------------------------------------------------------------------

/// The flat index of coordinate `(x, y)` on a grid `w` cells wide.
pub open spec fn grid_index(w: nat, x: int, y: int) -> int {
    y * w + x
}

/// Whether `(x, y)` lies on a `w` by `h` grid.
pub open spec fn in_grid(w: nat, h: nat, x: int, y: int) -> bool {
    0 <= x < w && 0 <= y < h
}

/// The x coordinate of flat index `i`.
pub open spec fn ix(w: nat, i: int) -> int {
    i % (w as int)
}

/// The y coordinate of flat index `i`.
pub open spec fn iy(w: nat, i: int) -> int {
    i / (w as int)
}

pub proof fn lemma_grid_index_bounds(w: nat, h: nat, x: int, y: int)
    requires
        in_grid(w, h, x, y),
    ensures
        0 <= grid_index(w, x, y) < w * h,
{
    assert(y * w + x < w * h) by (nonlinear_arith)
        requires
            0 <= x < w,
            0 <= y < h,
    ;
    assert(y * w + x >= 0) by (nonlinear_arith)
        requires
            0 <= x,
            0 <= y,
            w >= 0,
    ;
}

pub proof fn lemma_grid_index_injective(w: nat, h: nat, x1: int, y1: int, x2: int, y2: int)
    requires
        in_grid(w, h, x1, y1),
        in_grid(w, h, x2, y2),
        grid_index(w, x1, y1) == grid_index(w, x2, y2),
    ensures
        x1 == x2 && y1 == y2,
{
    assert(y1 == y2 && x1 == x2) by (nonlinear_arith)
        requires
            0 <= x1 < w,
            0 <= x2 < w,
            0 <= y1 < h,
            0 <= y2 < h,
            y1 * w + x1 == y2 * w + x2,
    ;
}

pub proof fn lemma_index_to_coords(w: nat, h: nat, i: int)
    requires
        w > 0,
        0 <= i < w * h,
    ensures
        in_grid(w, h, ix(w, i), iy(w, i)),
        grid_index(w, ix(w, i), iy(w, i)) == i,
{
    lemma_fundamental_div_mod(i, w as int);
    lemma_mod_division_less_than_divisor(i, w as int);
    assert(i / (w as int) < h) by (nonlinear_arith)
        requires
            w > 0,
            0 <= i < w * h,
            i == (w as int) * (i / (w as int)) + i % (w as int),
            0 <= i % (w as int) < w,
    ;
    assert(i / (w as int) >= 0) by (nonlinear_arith)
        requires
            w > 0,
            0 <= i,
            i == (w as int) * (i / (w as int)) + i % (w as int),
            0 <= i % (w as int) < w,
    ;
    assert((i / (w as int)) * (w as int) == (w as int) * (i / (w as int))) by (nonlinear_arith);
}

pub proof fn lemma_coords_of_index(w: nat, h: nat, x: int, y: int)
    requires
        in_grid(w, h, x, y),
    ensures
        ix(w, grid_index(w, x, y)) == x,
        iy(w, grid_index(w, x, y)) == y,
{
    lemma_grid_index_bounds(w, h, x, y);
    lemma_index_to_coords(w, h, grid_index(w, x, y));
    lemma_grid_index_injective(w, h, x, y, ix(w, grid_index(w, x, y)), iy(w, grid_index(w, x, y)));
}

// ---------------------------------------------------------------------------
// Per-snake well-formedness of the stored part sequence.
// ---------------------------------------------------------------------------

/// The number of body cells of snake `id`.
pub open spec fn snake_len(cells: Seq<Cell>, id: u8) -> nat {
    count_matching(cells, |c: Cell| is_id(c, id))
}

/// The number of natural (respawning) apple cells on the grid.
pub open spec fn natural_apples(cells: Seq<Cell>) -> nat {
    count_matching(cells, |c: Cell| c == (Cell::Apple { natural: true }))
}

/// Whether some cell of the grid is empty.
pub open spec fn has_empty(cells: Seq<Cell>) -> bool {
    exists|i: int| 0 <= i < cells.len() && cells[i] == Cell::Empty
}

/// Whether snake `id` has at least one body cell.
pub open spec fn live(cells: Seq<Cell>, id: u8) -> bool {
    snake_len(cells, id) >= 1
}

/// Whether some cell holds part `p` of snake `id`.
pub open spec fn has_part(cells: Seq<Cell>, id: u8, p: u16) -> bool {
    exists|i: int| 0 <= i < cells.len() && is_id_part(cells[i], id, p)
}

/// The index of the cell holding part `p` of snake `id` (meaningful only
/// when such a cell exists and parts are unique).
pub open spec fn part_index(cells: Seq<Cell>, id: u8, p: u16) -> int {
    choose|i: int| 0 <= i < cells.len() && is_id_part(cells[i], id, p)
}

/// No two cells hold the same part of snake `id`.
pub open spec fn parts_unique(cells: Seq<Cell>, id: u8) -> bool {
    forall|i: int, j: int|
        0 <= i < cells.len() && 0 <= j < cells.len() && is_id(#[trigger] cells[i], id) && is_id(
            #[trigger] cells[j],
            id,
        ) && cell_part(cells[i]) == cell_part(cells[j]) ==> i == j
}

/// Every part of snake `id` is below its cell count.
pub open spec fn parts_bounded(cells: Seq<Cell>, id: u8) -> bool {
    forall|i: int|
        0 <= i < cells.len() && is_id(#[trigger] cells[i], id) ==> cell_part(cells[i])
            < snake_len(cells, id)
}

/// Every part index below the cell count occurs.
pub open spec fn parts_complete(cells: Seq<Cell>, id: u8) -> bool {
    forall|p: u16| p < snake_len(cells, id) ==> has_part(cells, id, p)
}

/// The stored parts of snake `id` form exactly the set `{0, .., len-1}`,
/// each exactly once.
pub open spec fn parts_form_range(cells: Seq<Cell>, id: u8) -> bool {
    parts_unique(cells, id) && parts_bounded(cells, id) && parts_complete(cells, id)
}

/// Unique parts within `{0, .., n-1}`, all present, force the cell count to
/// be exactly `n`.  This is the bridge between the part-set view of a snake
/// and the number of grid cells it occupies.
pub proof fn lemma_count_from_parts(cells: Seq<Cell>, id: u8, n: nat)
    requires
        n <= u16::MAX + 1,
        parts_unique(cells, id),
        forall|i: int|
            0 <= i < cells.len() && is_id(#[trigger] cells[i], id) ==> cell_part(cells[i]) < n,
        forall|p: u16| p < n ==> has_part(cells, id, p),
    ensures
        snake_len(cells, id) == n,
{
    lemma_count_parts_below(cells, id, n);
    lemma_count_pointwise(
        cells,
        cells,
        |c: Cell| is_id(c, id),
        |c: Cell| is_id(c, id) && cell_part(c) < n,
    );
}

/// The number of cells of snake `id` with part below `k` is exactly `k`,
/// under uniqueness and presence of those parts.
proof fn lemma_count_parts_below(cells: Seq<Cell>, id: u8, k: nat)
    requires
        k <= u16::MAX + 1,
        parts_unique(cells, id),
        forall|p: u16| p < k ==> has_part(cells, id, p),
    ensures
        count_matching(cells, |c: Cell| is_id(c, id) && cell_part(c) < k) == k,
    decreases k,
{
    if k == 0 {
        lemma_count_zero(cells, |c: Cell| is_id(c, id) && cell_part(c) < 0);
    } else {
        lemma_count_parts_below(cells, id, (k - 1) as nat);
        let pk: u16 = (k - 1) as u16;
        assert(has_part(cells, id, pk));
        let w = choose|i: int| 0 <= i < cells.len() && is_id_part(cells[i], id, pk);
        lemma_count_exactly_one(cells, |c: Cell| is_id(c, id) && cell_part(c) == k - 1, w);
        lemma_count_split(
            cells,
            |c: Cell| is_id(c, id) && cell_part(c) < k,
            |c: Cell| is_id(c, id) && cell_part(c) < k - 1,
            |c: Cell| is_id(c, id) && cell_part(c) == k - 1,
        );
        assert(count_matching(cells, |c: Cell| is_id(c, id) && cell_part(c) < k - 1) == k - 1);
    }
}

/// Under unique parts, a snake occupies at most `k` cells with part below
/// `k`.
pub proof fn lemma_count_parts_upper(cells: Seq<Cell>, id: u8, k: nat)
    requires
        parts_unique(cells, id),
    ensures
        count_matching(cells, |c: Cell| is_id(c, id) && cell_part(c) < k) <= k,
    decreases k,
{
    if k == 0 {
        lemma_count_zero(cells, |c: Cell| is_id(c, id) && cell_part(c) < 0);
    } else {
        lemma_count_parts_upper(cells, id, (k - 1) as nat);
        lemma_count_at_most_one(cells, |c: Cell| is_id(c, id) && cell_part(c) == k - 1);
        lemma_count_split(
            cells,
            |c: Cell| is_id(c, id) && cell_part(c) < k,
            |c: Cell| is_id(c, id) && cell_part(c) < k - 1,
            |c: Cell| is_id(c, id) && cell_part(c) == k - 1,
        );
    }
}

/// Under unique parts, a snake occupies at most `u16::MAX + 1` cells.
pub proof fn lemma_snake_len_upper(cells: Seq<Cell>, id: u8)
    requires
        parts_unique(cells, id),
    ensures
        snake_len(cells, id) <= u16::MAX + 1,
{
    lemma_count_parts_upper(cells, id, (u16::MAX + 1) as nat);
    lemma_count_pointwise(
        cells,
        cells,
        |c: Cell| is_id(c, id),
        |c: Cell| is_id(c, id) && cell_part(c) < u16::MAX + 1,
    );
}

/// The direction from the cell at flat index `from` to the one at `to`,
/// if they are orthogonally adjacent.
pub open spec fn dir_between(w: nat, from: int, to: int) -> Option<Direction> {
    offset_dir(ix(w, to) - ix(w, from), iy(w, to) - iy(w, from))
}

/// The flat index of the head (highest part) of snake `id`.
pub open spec fn head_index(cells: Seq<Cell>, id: u8) -> int {
    part_index(cells, id, (snake_len(cells, id) - 1) as u16)
}

/// The flat index of the neck (second-highest part) of snake `id`.
pub open spec fn neck_index(cells: Seq<Cell>, id: u8) -> int {
    part_index(cells, id, (snake_len(cells, id) - 2) as u16)
}

/// The direction the snake faces: from its neck cell to its head cell.
pub open spec fn snake_dir(cells: Seq<Cell>, w: nat, id: u8) -> Option<Direction> {
    dir_between(w, neck_index(cells, id), head_index(cells, id))
}

/// A well-formed stored snake: its parts form exactly `{0, .., len-1}`, it
/// has a head and a neck, and the head cell is orthogonally adjacent to the
/// neck cell.
pub open spec fn snake_ok(cells: Seq<Cell>, w: nat, id: u8) -> bool {
    parts_form_range(cells, id) && snake_len(cells, id) >= 2 && snake_dir(cells, w, id) is Some
}

/// Under unique parts, `part_index` returns the given witness.
pub proof fn lemma_part_index_is(cells: Seq<Cell>, id: u8, p: u16, i: int)
    requires
        0 <= i < cells.len(),
        is_id_part(cells[i], id, p),
        parts_unique(cells, id),
    ensures
        part_index(cells, id, p) == i,
        has_part(cells, id, p),
{
    let j = part_index(cells, id, p);
    assert(0 <= j < cells.len() && is_id_part(cells[j], id, p));
}

/// A snake laid out along a sequence of distinct in-range indices, covering
/// all of the snake's cells, has parts forming exactly `{0, .., len-1}`,
/// and `part_index` recovers the layout.
pub proof fn lemma_parts_from_placement(cells: Seq<Cell>, w: nat, id: u8, idxs: Seq<int>)
    requires
        2 <= idxs.len() <= u16::MAX + 1,
        forall|p: int| 0 <= p < idxs.len() ==> 0 <= #[trigger] idxs[p] < cells.len(),
        forall|p: int|
            0 <= p < idxs.len() ==> cells[#[trigger] idxs[p]] == (Cell::Snake {
                id,
                part: p as u16,
            }),
        forall|i: int|
            0 <= i < cells.len() && is_id(#[trigger] cells[i], id) ==> exists|p: int|
                0 <= p < idxs.len() && idxs[p] == i,
    ensures
        parts_form_range(cells, id),
        snake_len(cells, id) == idxs.len(),
        forall|p: int| 0 <= p < idxs.len() ==> part_index(cells, id, p as u16) == idxs[p],
        snake_dir(cells, w, id) == dir_between(w, idxs[idxs.len() - 2], idxs[idxs.len() - 1]),
        snake_ok(cells, w, id) <==> dir_between(w, idxs[idxs.len() - 2], idxs[idxs.len() - 1])
            is Some,
{
    let n = idxs.len();
    assert forall|i: int, j: int|
        0 <= i < cells.len() && 0 <= j < cells.len() && is_id(cells[i], id) && is_id(cells[j], id)
            && cell_part(cells[i]) == cell_part(cells[j]) implies i == j by {
        let pi = choose|p: int| 0 <= p < n && idxs[p] == i;
        let pj = choose|p: int| 0 <= p < n && idxs[p] == j;
        assert(cells[i] == (Cell::Snake { id, part: pi as u16 }));
        assert(cells[j] == (Cell::Snake { id, part: pj as u16 }));
        assert(pi == pj);
    }
    assert(parts_unique(cells, id));
    assert forall|i: int|
        0 <= i < cells.len() && is_id(#[trigger] cells[i], id) implies cell_part(cells[i]) < n by {
        let p = choose|p: int| 0 <= p < n && idxs[p] == i;
        assert(cells[i] == (Cell::Snake { id, part: p as u16 }));
    }
    assert forall|p: u16| p < n implies has_part(cells, id, p) by {
        assert(cells[idxs[p as int]] == (Cell::Snake { id, part: p }));
        assert(is_id_part(cells[idxs[p as int]], id, p));
    }
    lemma_count_from_parts(cells, id, n);
    assert forall|p: int| 0 <= p < n implies part_index(cells, id, p as u16) == idxs[p] by {
        assert(is_id_part(cells[idxs[p]], id, p as u16));
        lemma_part_index_is(cells, id, p as u16, idxs[p]);
    }
    assert(part_index(cells, id, (n - 1) as u16) == idxs[n - 1]);
    assert(part_index(cells, id, (n - 2) as u16) == idxs[n - 2]);
}

/// The grid after laying parts `0, .., p-1` of a snake along `ps`.
pub open spec fn place_seq(
    cells: Seq<Cell>,
    w: nat,
    id: u8,
    ps: Seq<crate::geom::Pos>,
    p: int,
) -> Seq<Cell>
    decreases p,
{
    if p <= 0 {
        cells
    } else {
        place_seq(cells, w, id, ps, p - 1).update(
            grid_index(w, ps[p - 1].x as int, ps[p - 1].y as int),
            Cell::Snake { id, part: (p - 1) as u16 },
        )
    }
}

/// The grid after writing cell `c` at the first `k` of the positions `ps`.
pub open spec fn place_cells(
    cells: Seq<Cell>,
    w: nat,
    ps: Seq<crate::geom::Pos>,
    c: Cell,
    k: int,
) -> Seq<Cell>
    decreases k,
{
    if k <= 0 {
        cells
    } else {
        place_cells(cells, w, ps, c, k - 1).update(
            grid_index(w, ps[k - 1].x as int, ps[k - 1].y as int),
            c,
        )
    }
}

/// Pointwise description of `place_cells`: every listed position holds `c`
/// (duplicates are harmless, every write being the same cell), and nothing
/// else moves.
pub proof fn lemma_place_cells(
    cells: Seq<Cell>,
    w: nat,
    h: nat,
    ps: Seq<crate::geom::Pos>,
    c: Cell,
    k: int,
)
    requires
        cells.len() == w * h,
        0 <= k <= ps.len(),
        forall|q: int|
            0 <= q < ps.len() ==> in_grid(w, h, (#[trigger] ps[q]).x as int, ps[q].y as int),
    ensures
        place_cells(cells, w, ps, c, k).len() == cells.len(),
        forall|q: int|
            0 <= q < k ==> place_cells(cells, w, ps, c, k)[grid_index(
                w,
                (#[trigger] ps[q]).x as int,
                ps[q].y as int,
            )] == c,
        forall|i: int|
            0 <= i < cells.len() ==> place_cells(cells, w, ps, c, k)[i] == cells[i] || (exists|
                q: int,
            | 0 <= q < k && grid_index(w, (#[trigger] ps[q]).x as int, ps[q].y as int) == i),
    decreases k,
{
    if k > 0 {
        lemma_place_cells(cells, w, h, ps, c, k - 1);
        let prev = place_cells(cells, w, ps, c, k - 1);
        let cur = place_cells(cells, w, ps, c, k);
        let inew = grid_index(w, ps[k - 1].x as int, ps[k - 1].y as int);
        lemma_grid_index_bounds(w, h, ps[k - 1].x as int, ps[k - 1].y as int);
        assert forall|q: int| 0 <= q < k implies cur[grid_index(
            w,
            (#[trigger] ps[q]).x as int,
            ps[q].y as int,
        )] == c by {
            lemma_grid_index_bounds(w, h, ps[q].x as int, ps[q].y as int);
            if grid_index(w, ps[q].x as int, ps[q].y as int) != inew {
                assert(cur[grid_index(w, ps[q].x as int, ps[q].y as int)] == prev[grid_index(
                    w,
                    ps[q].x as int,
                    ps[q].y as int,
                )]);
            }
        }
        assert forall|i: int|
            0 <= i < cells.len() implies cur[i] == cells[i] || (exists|q: int|
            0 <= q < k && grid_index(w, (#[trigger] ps[q]).x as int, ps[q].y as int) == i) by {
            if i == inew {
                assert(grid_index(w, (ps[k - 1]).x as int, ps[k - 1].y as int) == i);
            } else {
                assert(cur[i] == prev[i]);
                if prev[i] != cells[i] {
                    let q = choose|q: int|
                        0 <= q < k - 1 && grid_index(
                            w,
                            (#[trigger] ps[q]).x as int,
                            ps[q].y as int,
                        ) == i;
                    assert(grid_index(w, (ps[q]).x as int, ps[q].y as int) == i);
                }
            }
        }
    }
}

/// Pointwise description of `place_seq`.
pub proof fn lemma_place_seq(
    cells: Seq<Cell>,
    w: nat,
    h: nat,
    id: u8,
    ps: Seq<crate::geom::Pos>,
    p: int,
)
    requires
        cells.len() == w * h,
        0 <= p <= ps.len(),
        ps.len() <= u16::MAX + 1,
        forall|q: int|
            0 <= q < ps.len() ==> in_grid(w, h, (#[trigger] ps[q]).x as int, ps[q].y as int),
        forall|q1: int, q2: int|
            0 <= q1 < q2 < ps.len() ==> grid_index(w, (#[trigger] ps[q1]).x as int, ps[q1].y as int)
                != grid_index(w, (#[trigger] ps[q2]).x as int, ps[q2].y as int),
    ensures
        place_seq(cells, w, id, ps, p).len() == cells.len(),
        forall|q: int|
            0 <= q < p ==> place_seq(cells, w, id, ps, p)[grid_index(
                w,
                (#[trigger] ps[q]).x as int,
                ps[q].y as int,
            )] == (Cell::Snake { id, part: q as u16 }),
        forall|i: int|
            0 <= i < cells.len() ==> place_seq(cells, w, id, ps, p)[i] == cells[i] || (exists|
                q: int,
            | 0 <= q < p && grid_index(w, (#[trigger] ps[q]).x as int, ps[q].y as int) == i),
    decreases p,
{
    if p > 0 {
        lemma_place_seq(cells, w, h, id, ps, p - 1);
        let prev = place_seq(cells, w, id, ps, p - 1);
        let cur = place_seq(cells, w, id, ps, p);
        let inew = grid_index(w, ps[p - 1].x as int, ps[p - 1].y as int);
        lemma_grid_index_bounds(w, h, ps[p - 1].x as int, ps[p - 1].y as int);
        assert forall|q: int| 0 <= q < p implies cur[grid_index(
            w,
            (#[trigger] ps[q]).x as int,
            ps[q].y as int,
        )] == (Cell::Snake { id, part: q as u16 }) by {
            lemma_grid_index_bounds(w, h, ps[q].x as int, ps[q].y as int);
            if q < p - 1 {
                assert(grid_index(w, ps[q].x as int, ps[q].y as int) != inew);
            }
        }
        assert forall|i: int|
            0 <= i < cells.len() implies cur[i] == cells[i] || (exists|q: int|
            0 <= q < p && grid_index(w, (#[trigger] ps[q]).x as int, ps[q].y as int) == i) by {
            if i == inew {
                assert(grid_index(w, (ps[p - 1]).x as int, ps[p - 1].y as int) == i);
            } else {
                assert(cur[i] == prev[i]);
                if prev[i] != cells[i] {
                    let q = choose|q: int|
                        0 <= q < p - 1 && grid_index(
                            w,
                            (#[trigger] ps[q]).x as int,
                            ps[q].y as int,
                        ) == i;
                    assert(grid_index(w, (ps[q]).x as int, ps[q].y as int) == i);
                }
            }
        }
    }
}

/// A cell whose position is not among the placed positions is unchanged by
/// the placement.
pub proof fn lemma_unplaced_cell(
    pre: Seq<Cell>,
    cur: Seq<Cell>,
    w: nat,
    h: nat,
    ps: Seq<crate::geom::Pos>,
    t: crate::geom::Pos,
)
    requires
        pre.len() == cur.len() == w * h,
        forall|q: int|
            0 <= q < ps.len() ==> in_grid(w, h, (#[trigger] ps[q]).x as int, ps[q].y as int),
        in_grid(w, h, t.x as int, t.y as int),
        forall|q: int| 0 <= q < ps.len() ==> #[trigger] ps[q] != t,
        forall|i: int|
            0 <= i < cur.len() ==> cur[i] == pre[i] || (exists|q: int|
                0 <= q < ps.len() && grid_index(w, (#[trigger] ps[q]).x as int, ps[q].y as int)
                    == i),
    ensures
        cur[grid_index(w, t.x as int, t.y as int)] == pre[grid_index(w, t.x as int, t.y as int)],
{
    let it = grid_index(w, t.x as int, t.y as int);
    lemma_grid_index_bounds(w, h, t.x as int, t.y as int);
    if cur[it] != pre[it] {
        let q = choose|q: int|
            0 <= q < ps.len() && grid_index(w, (#[trigger] ps[q]).x as int, ps[q].y as int) == it;
        lemma_grid_index_injective(w, h, ps[q].x as int, ps[q].y as int, t.x as int, t.y as int);
        assert(ps[q] == t);
    }
}

/// After laying a fresh snake along distinct positions of an otherwise
/// snake-free region, the new snake is well formed and every other snake is
/// untouched.
pub proof fn lemma_place_snake_post(
    pre: Seq<Cell>,
    cur: Seq<Cell>,
    w: nat,
    h: nat,
    id: u8,
    ps: Seq<crate::geom::Pos>,
)
    requires
        pre.len() == w * h,
        cur.len() == pre.len(),
        2 <= ps.len() <= u16::MAX + 1,
        forall|q: int|
            0 <= q < ps.len() ==> in_grid(w, h, (#[trigger] ps[q]).x as int, ps[q].y as int),
        forall|q1: int, q2: int|
            0 <= q1 < q2 < ps.len() ==> grid_index(w, (#[trigger] ps[q1]).x as int, ps[q1].y as int)
                != grid_index(w, (#[trigger] ps[q2]).x as int, ps[q2].y as int),
        forall|q: int|
            1 <= q < ps.len() ==> offset_dir(
                (#[trigger] ps[q]).x - ps[q - 1].x,
                ps[q].y - ps[q - 1].y,
            ) is Some,
        !live(pre, id),
        forall|q: int|
            0 <= q < ps.len() ==> !is_snake(
                pre[grid_index(w, (#[trigger] ps[q]).x as int, ps[q].y as int)],
            ),
        forall|q: int|
            0 <= q < ps.len() ==> cur[grid_index(w, (#[trigger] ps[q]).x as int, ps[q].y as int)]
                == (Cell::Snake { id, part: q as u16 }),
        forall|i: int|
            0 <= i < cur.len() ==> cur[i] == pre[i] || (exists|q: int|
                0 <= q < ps.len() && grid_index(w, (#[trigger] ps[q]).x as int, ps[q].y as int)
                    == i),
    ensures
        snake_ok(cur, w, id),
        snake_len(cur, id) == ps.len(),
        forall|id2: u8|
            id2 != id ==> snake_len(cur, id2) == snake_len(pre, id2) && (snake_ok(pre, w, id2)
                ==> snake_ok(cur, w, id2)),
{
    let n = ps.len();
    let idxs: Seq<int> = Seq::new(n, |q: int| grid_index(w, ps[q].x as int, ps[q].y as int));
    assert forall|q: int| 0 <= q < n implies 0 <= #[trigger] idxs[q] < cur.len() && cur[idxs[q]]
        == (Cell::Snake { id, part: q as u16 }) by {
        lemma_grid_index_bounds(w, h, ps[q].x as int, ps[q].y as int);
    }
    lemma_count_pos(pre, |c: Cell| is_id(c, id));
    assert forall|i: int| 0 <= i < cur.len() && is_id(#[trigger] cur[i], id) implies exists|q: int|
        0 <= q < idxs.len() && idxs[q] == i by {
        if cur[i] == pre[i] {
            assert(!is_id(pre[i], id));
        } else {
            let q = choose|q: int|
                0 <= q < n && grid_index(w, (#[trigger] ps[q]).x as int, ps[q].y as int) == i;
            assert(idxs[q] == i);
        }
    }
    assert forall|q: int| 0 <= q < n implies ix(w, #[trigger] idxs[q]) == ps[q].x && iy(w, idxs[q])
        == ps[q].y by {
        lemma_coords_of_index(w, h, ps[q].x as int, ps[q].y as int);
    }
    assert(dir_between(w, idxs[n - 2], idxs[n - 1]) == offset_dir(
        ps[n - 1].x - ps[n - 2].x,
        ps[n - 1].y - ps[n - 2].y,
    ));
    lemma_parts_from_placement(cur, w, id, idxs);
    assert forall|id2: u8|
        id2 != id implies snake_len(cur, id2) == snake_len(pre, id2) && (snake_ok(pre, w, id2)
        ==> snake_ok(cur, w, id2)) by {
        assert forall|i: int|
            0 <= i < pre.len() implies (is_id(#[trigger] pre[i], id2) || is_id(
            #[trigger] cur[i],
            id2,
        ) ==> pre[i] == cur[i]) by {
            if cur[i] != pre[i] {
                let q = choose|q: int|
                    0 <= q < n && grid_index(w, (#[trigger] ps[q]).x as int, ps[q].y as int) == i;
                assert(cur[idxs[q]] == (Cell::Snake { id, part: q as u16 }));
                assert(!is_id(cur[i], id2));
                assert(!is_snake(pre[i]));
            }
        }
        lemma_snake_same(pre, cur, w, id2);
    }
}

/// Two grids that agree on every snake cell of `id` (in both directions)
/// give the snake the same length, the same part layout, and the same
/// well-formedness.
pub proof fn lemma_snake_same(cells1: Seq<Cell>, cells2: Seq<Cell>, w: nat, id: u8)
    requires
        cells1.len() == cells2.len(),
        forall|i: int|
            0 <= i < cells1.len() ==> (is_id(#[trigger] cells1[i], id) || is_id(
                #[trigger] cells2[i],
                id,
            ) ==> cells1[i] == cells2[i]),
    ensures
        snake_len(cells1, id) == snake_len(cells2, id),
        forall|p: u16| has_part(cells1, id, p) <==> has_part(cells2, id, p),
        forall|p: u16|
            has_part(cells1, id, p) ==> part_index(cells1, id, p) == part_index(cells2, id, p)
                || !parts_unique(cells1, id),
        parts_form_range(cells1, id) <==> parts_form_range(cells2, id),
        snake_ok(cells1, w, id) ==> snake_ok(cells2, w, id),
{
    lemma_count_pointwise(cells1, cells2, |c: Cell| is_id(c, id), |c: Cell| is_id(c, id));
    assert forall|p: u16| has_part(cells1, id, p) implies has_part(cells2, id, p) by {
        let i = choose|i: int| 0 <= i < cells1.len() && is_id_part(cells1[i], id, p);
        assert(is_id_part(cells2[i], id, p));
    }
    assert forall|p: u16| has_part(cells2, id, p) implies has_part(cells1, id, p) by {
        let i = choose|i: int| 0 <= i < cells2.len() && is_id_part(cells2[i], id, p);
        assert(is_id_part(cells1[i], id, p));
    }
    assert forall|p: u16|
        has_part(cells1, id, p) && parts_unique(cells1, id) implies part_index(cells1, id, p)
        == part_index(cells2, id, p) by {
        let i = part_index(cells1, id, p);
        assert(0 <= i < cells1.len() && is_id_part(cells1[i], id, p));
        assert(is_id_part(cells2[i], id, p));
        let j = part_index(cells2, id, p);
        assert(0 <= j < cells2.len() && is_id_part(cells2[j], id, p));
        assert(is_id_part(cells1[j], id, p));
        assert(cell_part(cells1[i]) == cell_part(cells1[j]));
    }
    if parts_form_range(cells1, id) {
        lemma_parts_form_range_same(cells1, cells2, id);
    }
    if parts_form_range(cells2, id) {
        lemma_parts_form_range_same(cells2, cells1, id);
    }
    if snake_ok(cells1, w, id) {
        let n = snake_len(cells1, id);
        assert(has_part(cells1, id, #[verifier::truncate] ((n - 1) as u16)));
        assert(has_part(cells1, id, #[verifier::truncate] ((n - 2) as u16)));
        assert(part_index(cells2, id, #[verifier::truncate] ((n - 1) as u16)) == part_index(
            cells1,
            id,
            #[verifier::truncate] ((n - 1) as u16),
        ));
        assert(part_index(cells2, id, #[verifier::truncate] ((n - 2) as u16)) == part_index(
            cells1,
            id,
            #[verifier::truncate] ((n - 2) as u16),
        ));
    }
}

/// One direction of the transfer of `parts_form_range` between two grids
/// that agree on the cells of `id`.
proof fn lemma_parts_form_range_same(cells1: Seq<Cell>, cells2: Seq<Cell>, id: u8)
    requires
        cells1.len() == cells2.len(),
        forall|i: int|
            0 <= i < cells1.len() ==> (is_id(#[trigger] cells1[i], id) || is_id(
                #[trigger] cells2[i],
                id,
            ) ==> cells1[i] == cells2[i]),
        parts_form_range(cells1, id),
    ensures
        parts_form_range(cells2, id),
{
    lemma_count_pointwise(cells1, cells2, |c: Cell| is_id(c, id), |c: Cell| is_id(c, id));
    assert forall|i: int, j: int|
        0 <= i < cells2.len() && 0 <= j < cells2.len() && is_id(#[trigger] cells2[i], id) && is_id(
            #[trigger] cells2[j],
            id,
        ) && cell_part(cells2[i]) == cell_part(cells2[j]) implies i == j by {
        assert(cells1[i] == cells2[i]);
        assert(cells1[j] == cells2[j]);
    }
    assert forall|i: int|
        0 <= i < cells2.len() && is_id(#[trigger] cells2[i], id) implies cell_part(cells2[i])
        < snake_len(cells2, id) by {
        assert(cells1[i] == cells2[i]);
    }
    assert forall|p: u16| p < snake_len(cells2, id) implies has_part(cells2, id, p) by {
        assert(has_part(cells1, id, p));
        let i = choose|i: int| 0 <= i < cells1.len() && is_id_part(cells1[i], id, p);
        assert(is_id_part(cells2[i], id, p));
    }
}

} // verus!
