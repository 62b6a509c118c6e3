//! The board: a flat grid of cells together with its own random stream and
//! the count of apples eaten so far (which gates periodic wall spawning).

use vstd::prelude::*;

use crate::cell::{is_id, is_snake, Cell};
use crate::geom::{offset_dir, Pos};
use crate::grid::{
    grid_index, in_grid, ix, iy, lemma_count_zero, lemma_grid_index_bounds,
    lemma_grid_index_injective, lemma_index_to_coords, lemma_place_snake_post, lemma_snake_same,
    live, snake_len, snake_ok,
};
use crate::rng;

verus! {

/// The mathematical model of a board: the cell grid, the dimensions, and the
/// apples-eaten counter.  The random stream is deliberately not part of the
/// model; no contract of this library depends on it.
pub struct BoardModel {
    pub cells: Seq<Cell>,
    pub width: nat,
    pub height: nat,
    pub apples_eaten: nat,
}

impl BoardModel {
    /// The grid really is `width` by `height`, and both dimensions fit in
    /// the coordinate type.
    pub open spec fn dims_ok(self) -> bool {
        self.cells.len() == self.width * self.height && self.width <= i32::MAX
            && self.height <= i32::MAX
    }

    /// Whether position `p` lies on the board.
    pub open spec fn on_board(self, p: Pos) -> bool {
        in_grid(self.width, self.height, p.x as int, p.y as int)
    }

    /// The flat index of position `p`.
    pub open spec fn index_of(self, p: Pos) -> int {
        grid_index(self.width, p.x as int, p.y as int)
    }

    /// A well-formed board: correct dimensions, and every snake present on
    /// the grid is stored as a contiguous part sequence with an attached
    /// head.
    pub open spec fn wf(self) -> bool {
        self.dims_ok() && forall|id: u8|
            live(self.cells, id) ==> snake_ok(self.cells, self.width, id)
    }
}

/// The authoritative game board.
pub struct Board {
    cells: Vec<Cell>,
    /// The board's own random stream, used by the apple and wall spawners.
    pub rng: rand::rngs::StdRng,
    width: usize,
    height: usize,
    apples_eaten: usize,
}

/// Failure of a bounds-checked cell access.
#[derive(Clone, Copy, Debug, PartialEq, Eq, Structural)]
pub enum CellError {
    OutOfBounds,
}

impl View for Board {
    type V = BoardModel;

    closed spec fn view(&self) -> BoardModel {
        BoardModel {
            cells: self.cells@,
            width: self.width as nat,
            height: self.height as nat,
            apples_eaten: self.apples_eaten as nat,
        }
    }
}

impl Board {
    /// A board of the given size with every cell empty.
    pub fn empty(width: usize, height: usize) -> (r: Board)
        requires
            width <= i32::MAX,
            height <= i32::MAX,
            width * height <= usize::MAX,
        ensures
            r@.width == width,
            r@.height == height,
            r@.apples_eaten == 0,
            r@.cells.len() == width * height,
            forall|i: int| 0 <= i < r@.cells.len() ==> r@.cells[i] == Cell::Empty,
            r@.wf(),
    {
        proof {
            assert(width * height <= usize::MAX);
        }
        let n = width * height;
        let cells: Vec<Cell> = vec![Cell::Empty; n];
        let b = Board {
            cells,
            rng: rng::fresh_rng(),
            width,
            height,
            apples_eaten: 0,
        };
        proof {
            assert forall|id: u8| live(b@.cells, id) implies snake_ok(b@.cells, b@.width, id) by {
                lemma_count_zero(b@.cells, |c: Cell| is_id(c, id));
            }
        }
        b
    }

    pub fn width(&self) -> (r: usize)
        ensures
            r == self@.width,
    {
        self.width
    }

    pub fn height(&self) -> (r: usize)
        ensures
            r == self@.height,
    {
        self.height
    }

    pub fn in_bounds(&self, pos: Pos) -> (r: bool)
        ensures
            r == self@.on_board(pos),
    {
        pos.x >= 0 && pos.y >= 0 && (pos.x as usize) < self.width && (pos.y as usize) < self.height
    }

    /// Bounds-checked read of the cell at `pos`.
    pub fn get(&self, pos: Pos) -> (r: Result<Cell, CellError>)
        requires
            self@.dims_ok(),
        ensures
            self@.on_board(pos) ==> r == Ok::<Cell, CellError>(self@.cells[self@.index_of(pos)]),
            !self@.on_board(pos) ==> r == Err::<Cell, CellError>(CellError::OutOfBounds),
    {
        if !self.in_bounds(pos) {
            return Err(CellError::OutOfBounds);
        }
        let n = self.cells.len();
        proof {
            lemma_grid_index_bounds(self@.width, self@.height, pos.x as int, pos.y as int);
        }
        let i = (pos.y as usize) * self.width + (pos.x as usize);
        Ok(self.cells[i])
    }

    /// Bounds-checked write of the cell at `pos`.
    pub fn set(&mut self, pos: Pos, cell: Cell) -> (r: Result<(), CellError>)
        requires
            old(self)@.dims_ok(),
        ensures
            final(self)@.width == old(self)@.width,
            final(self)@.height == old(self)@.height,
            final(self)@.apples_eaten == old(self)@.apples_eaten,
            old(self)@.on_board(pos) ==> r == Ok::<(), CellError>(()) && final(self)@.cells == old(
                self,
            )@.cells.update(old(self)@.index_of(pos), cell),
            !old(self)@.on_board(pos) ==> r == Err::<(), CellError>(CellError::OutOfBounds)
                && final(self)@ == old(self)@,
    {
        if !self.in_bounds(pos) {
            return Err(CellError::OutOfBounds);
        }
        let n = self.cells.len();
        proof {
            lemma_grid_index_bounds(self@.width, self@.height, pos.x as int, pos.y as int);
        }
        let i = (pos.y as usize) * self.width + (pos.x as usize);
        self.cells.set(i, cell);
        Ok(())
    }

    /// Every cell of the grid, paired with its position, in row-major order.
    pub fn cells(&self) -> (r: Vec<(Pos, Cell)>)
        requires
            self@.dims_ok(),
        ensures
            r@.len() == self@.cells.len(),
            forall|k: int|
                0 <= k < r@.len() ==> (#[trigger] r@[k]).1 == self@.cells[k] && r@[k].0.x == ix(
                    self@.width,
                    k,
                ) && r@[k].0.y == iy(self@.width, k) && self@.on_board(r@[k].0) && self@.index_of(
                    r@[k].0,
                ) == k,
    {
        let mut r: Vec<(Pos, Cell)> = Vec::new();
        let mut i: usize = 0;
        while i < self.cells.len()
            invariant
                self@.dims_ok(),
                0 <= i <= self@.cells.len(),
                r@.len() == i,
                forall|k: int|
                    0 <= k < i ==> (#[trigger] r@[k]).1 == self@.cells[k] && r@[k].0.x == ix(
                        self@.width,
                        k,
                    ) && r@[k].0.y == iy(self@.width, k) && self@.on_board(r@[k].0)
                        && self@.index_of(r@[k].0) == k,
            decreases self@.cells.len() - i,
        {
            proof {
                if self@.width == 0 {
                    assert(self@.cells.len() == 0);
                }
                lemma_index_to_coords(self@.width, self@.height, i as int);
            }
            let x = i % self.width;
            let y = i / self.width;
            let p = Pos { x: x as i32, y: y as i32 };
            r.push((p, self.cells[i]));
            i += 1;
        }
        r
    }

    /// The number of cells of the grid.
    pub(crate) fn cell_count(&self) -> (r: usize)
        ensures
            r == self@.cells.len(),
    {
        self.cells.len()
    }

    /// Read a cell by flat index.
    pub(crate) fn cell_at(&self, i: usize) -> (r: Cell)
        requires
            i < self@.cells.len(),
        ensures
            r == self@.cells[i as int],
    {
        self.cells[i]
    }

    /// The position of flat index `i`.
    pub(crate) fn pos_at(&self, i: usize) -> (r: Pos)
        requires
            self@.dims_ok(),
            i < self@.cells.len(),
        ensures
            r.x == ix(self@.width, i as int),
            r.y == iy(self@.width, i as int),
            self@.on_board(r),
            self@.index_of(r) == i,
    {
        proof {
            if self@.width == 0 {
                assert(self@.cells.len() == 0);
            }
            lemma_index_to_coords(self@.width, self@.height, i as int);
        }
        Pos { x: (i % self.width) as i32, y: (i / self.width) as i32 }
    }

    /// Write a cell by flat index.
    pub(crate) fn set_idx(&mut self, i: usize, c: Cell)
        requires
            i < old(self)@.cells.len(),
        ensures
            final(self)@.cells == old(self)@.cells.update(i as int, c),
            final(self)@.width == old(self)@.width,
            final(self)@.height == old(self)@.height,
            final(self)@.apples_eaten == old(self)@.apples_eaten,
    {
        self.cells.set(i, c);
    }

    /// Replace the whole grid.
    pub(crate) fn set_cells(&mut self, v: Vec<Cell>)
        ensures
            final(self)@.cells == v@,
            final(self)@.width == old(self)@.width,
            final(self)@.height == old(self)@.height,
            final(self)@.apples_eaten == old(self)@.apples_eaten,
    {
        self.cells = v;
    }

    /// A copy of the grid as a vector.
    pub(crate) fn cells_vec(&self) -> (r: Vec<Cell>)
        ensures
            r@ == self@.cells,
    {
        let mut r: Vec<Cell> = Vec::new();
        let mut i: usize = 0;
        while i < self.cells.len()
            invariant
                0 <= i <= self@.cells.len(),
                r@ =~= self@.cells.take(i as int),
            decreases self@.cells.len() - i,
        {
            r.push(self.cells[i]);
            proof {
                assert(r@ =~= self@.cells.take(i + 1));
            }
            i += 1;
        }
        proof {
            assert(self@.cells.take(self@.cells.len() as int) =~= self@.cells);
        }
        r
    }

    /// How many apples have been eaten on this board so far.
    pub fn apples_eaten(&self) -> (r: usize)
        ensures
            r == self@.apples_eaten,
    {
        self.apples_eaten
    }

    /// Count one more eaten apple.
    pub(crate) fn bump_apples(&mut self)
        requires
            old(self)@.apples_eaten + 1 <= usize::MAX,
        ensures
            final(self)@.apples_eaten == old(self)@.apples_eaten + 1,
            final(self)@.cells == old(self)@.cells,
            final(self)@.width == old(self)@.width,
            final(self)@.height == old(self)@.height,
    {
        self.apples_eaten = self.apples_eaten + 1;
    }

    /// A random number below `n`, drawn from the board's own stream.
    pub(crate) fn rand_below(&mut self, n: usize) -> (r: usize)
        requires
            n > 0,
        ensures
            r < n,
            final(self)@ == old(self)@,
    {
        rng::rng_below(&mut self.rng, n)
    }

    /// Re-seed the board's random stream.  The grid is untouched.
    pub fn reseed(&mut self, seed: u64)
        ensures
            final(self)@ == old(self)@,
    {
        self.rng = rng::seed_rng(seed);
    }

    /// A copy of this board with the same grid and a freshly seeded random
    /// stream.
    pub fn clone_board(&self) -> (r: Board)
        ensures
            r@ == self@,
    {
        let r = Board {
            cells: self.cells_vec(),
            rng: rng::fresh_rng(),
            width: self.width,
            height: self.height,
            apples_eaten: self.apples_eaten,
        };
        r
    }

    /// Assemble a board from decoded parts, with a freshly seeded random
    /// stream.
    pub(crate) fn from_parts(
        cells: Vec<Cell>,
        width: usize,
        height: usize,
        apples_eaten: usize,
    ) -> (r: Board)
        requires
            cells@.len() == width * height,
            width <= i32::MAX,
            height <= i32::MAX,
        ensures
            r@.cells == cells@,
            r@.width == width,
            r@.height == height,
            r@.apples_eaten == apples_eaten,
            r@.dims_ok(),
    {
        Board { cells, rng: rng::fresh_rng(), width, height, apples_eaten }
    }

    /// Read the cell at possibly off-board coordinates.
    pub(crate) fn probe(&self, x: i64, y: i64) -> (r: Option<Cell>)
        requires
            self@.dims_ok(),
        ensures
            in_grid(self@.width, self@.height, x as int, y as int) ==> r == Some(
                self@.cells[grid_index(self@.width, x as int, y as int)],
            ),
            !in_grid(self@.width, self@.height, x as int, y as int) ==> r is None,
    {
        if x < 0 || y < 0 {
            return None;
        }
        if (x as u64) >= (self.width as u64) || (y as u64) >= (self.height as u64) {
            return None;
        }
        let px = x as usize;
        let py = y as usize;
        let n = self.cells.len();
        proof {
            lemma_grid_index_bounds(self@.width, self@.height, x as int, y as int);
        }
        let i = py * self.width + px;
        Some(self.cells[i])
    }

    /// The flat index of an on-board position.
    pub(crate) fn idx_of(&self, pos: Pos) -> (r: usize)
        requires
            self@.dims_ok(),
            self@.on_board(pos),
        ensures
            r == self@.index_of(pos),
            r < self@.cells.len(),
    {
        let n = self.cells.len();
        proof {
            lemma_grid_index_bounds(self@.width, self@.height, pos.x as int, pos.y as int);
        }
        (pos.y as usize) * self.width + (pos.x as usize)
    }

    /// Write a non-snake cell over a non-snake cell, by flat index.  Every
    /// snake on the grid is untouched, so well-formedness survives.
    pub(crate) fn place_non_snake_idx(&mut self, i: usize, c: Cell)
        requires
            i < old(self)@.cells.len(),
            !is_snake(old(self)@.cells[i as int]),
            !is_snake(c),
        ensures
            final(self)@.cells == old(self)@.cells.update(i as int, c),
            final(self)@.width == old(self)@.width,
            final(self)@.height == old(self)@.height,
            final(self)@.apples_eaten == old(self)@.apples_eaten,
            forall|id: u8|
                snake_len(final(self)@.cells, id) == snake_len(old(self)@.cells, id) && (snake_ok(
                    old(self)@.cells,
                    old(self)@.width,
                    id,
                ) ==> snake_ok(final(self)@.cells, final(self)@.width, id)),
            old(self)@.wf() ==> final(self)@.wf(),
    {
        let ghost pre = self@;
        self.set_idx(i, c);
        proof {
            assert forall|id: u8|
                snake_len(self@.cells, id) == snake_len(pre.cells, id) && (snake_ok(
                    pre.cells,
                    pre.width,
                    id,
                ) ==> snake_ok(self@.cells, self@.width, id)) by {
                lemma_snake_same(pre.cells, self@.cells, pre.width, id);
            }
            if pre.wf() {
                assert forall|id: u8|
                    live(self@.cells, id) implies snake_ok(self@.cells, self@.width, id) by {
                    assert(snake_len(self@.cells, id) == snake_len(pre.cells, id));
                    assert(live(pre.cells, id));
                    lemma_snake_same(pre.cells, self@.cells, pre.width, id);
                }
            }
        }
    }

    /// Write a non-snake cell over a non-snake cell.  Every snake on the
    /// grid is untouched, so well-formedness survives.
    pub(crate) fn place_non_snake(&mut self, pos: Pos, c: Cell)
        requires
            old(self)@.dims_ok(),
            old(self)@.on_board(pos),
            !is_snake(old(self)@.cells[old(self)@.index_of(pos)]),
            !is_snake(c),
        ensures
            final(self)@.cells == old(self)@.cells.update(old(self)@.index_of(pos), c),
            final(self)@.width == old(self)@.width,
            final(self)@.height == old(self)@.height,
            final(self)@.apples_eaten == old(self)@.apples_eaten,
            forall|id: u8|
                snake_len(final(self)@.cells, id) == snake_len(old(self)@.cells, id) && (snake_ok(
                    old(self)@.cells,
                    old(self)@.width,
                    id,
                ) ==> snake_ok(final(self)@.cells, final(self)@.width, id)),
            old(self)@.wf() ==> final(self)@.wf(),
    {
        let i = self.idx_of(pos);
        self.place_non_snake_idx(i, c);
    }
}

/// The size tier of a round's board.
#[derive(Clone, Copy, Debug, PartialEq, Eq, Structural)]
pub enum BoardSize {
    Small,
    Medium,
    Large,
}

/// How many apples are placed when the round starts.
#[derive(Clone, Copy, Debug, PartialEq, Eq, Structural)]
pub enum AppleCount {
    One,
    Three,
    Five,
}

/// How many snakes are placed when the round starts.
#[derive(Clone, Copy, Debug, PartialEq, Eq, Structural)]
pub enum PlayerCount {
    One,
    Two,
    Three,
    Four,
}

/// Immutable per-round configuration, consumed once at board construction.
#[derive(Clone, Copy, Debug, PartialEq, Eq, Structural)]
pub struct BoardSettings {
    pub board_size: BoardSize,
    pub apples: AppleCount,
    pub players: PlayerCount,
}

impl Default for BoardSettings {
    fn default() -> (r: BoardSettings)
        ensures
            r.board_size == BoardSize::Small,
            r.apples == AppleCount::Five,
            r.players == PlayerCount::One,
    {
        BoardSettings {
            board_size: BoardSize::Small,
            apples: AppleCount::Five,
            players: PlayerCount::One,
        }
    }
}

/// The board width of a size tier.
pub open spec fn size_width(s: BoardSize) -> nat {
    match s {
        BoardSize::Small => 10,
        BoardSize::Medium => 17,
        BoardSize::Large => 24,
    }
}

/// The board height of a size tier.
pub open spec fn size_height(s: BoardSize) -> nat {
    match s {
        BoardSize::Small => 9,
        BoardSize::Medium => 15,
        BoardSize::Large => 21,
    }
}

/// The number of snakes of a player-count tier.
pub open spec fn player_count(p: PlayerCount) -> nat {
    match p {
        PlayerCount::One => 1,
        PlayerCount::Two => 2,
        PlayerCount::Three => 3,
        PlayerCount::Four => 4,
    }
}

/// The number of apples of an apple-count tier.
pub open spec fn apple_count(a: AppleCount) -> nat {
    match a {
        AppleCount::One => 1,
        AppleCount::Three => 3,
        AppleCount::Five => 5,
    }
}

/// The x coordinate around which the initial apples are laid out: a fixed
/// column towards the right in single player, the middle column otherwise.
pub open spec fn init_apple_center(s: BoardSettings) -> int {
    if player_count(s.players) == 1 {
        match s.board_size {
            BoardSize::Small => 6,
            BoardSize::Medium => 11,
            BoardSize::Large => 16,
        }
    } else {
        size_width(s.board_size) as int / 2
    }
}

/// The y coordinate of the board's middle row.
pub open spec fn init_mid_row(s: BoardSettings) -> int {
    size_height(s.board_size) as int / 2
}

/// The initial apple positions of the settings' tier, in placement order:
/// one apple just right of the apple centre; three add a pair one column
/// left, two rows up and down; five form a symmetric cross around it.
pub open spec fn init_apple_positions(s: BoardSettings) -> Seq<Pos> {
    let cx = init_apple_center(s);
    let ym = init_mid_row(s);
    match s.apples {
        AppleCount::One => seq![Pos { x: (cx + 1) as i32, y: ym as i32 }],
        AppleCount::Three => seq![
            Pos { x: (cx + 1) as i32, y: ym as i32 },
            Pos { x: (cx - 1) as i32, y: (ym + 2) as i32 },
            Pos { x: (cx - 1) as i32, y: (ym - 2) as i32 },
        ],
        AppleCount::Five => seq![
            Pos { x: cx as i32, y: ym as i32 },
            Pos { x: (cx + 2) as i32, y: (ym + 2) as i32 },
            Pos { x: (cx + 2) as i32, y: (ym - 2) as i32 },
            Pos { x: (cx - 2) as i32, y: (ym + 2) as i32 },
            Pos { x: (cx - 2) as i32, y: (ym - 2) as i32 },
        ],
    }
}

/// Snake `id`'s four starting positions, tail first, head last.  A single
/// player starts on the middle row near the left edge, facing right; with
/// several players the slots are the bottom-left, top-right, top-left and
/// bottom-right board edges in id order.
pub open spec fn init_snake_positions(s: BoardSettings, id: u8) -> Seq<Pos> {
    let w = size_width(s.board_size) as int;
    let h = size_height(s.board_size) as int;
    let ym = init_mid_row(s);
    if player_count(s.players) == 1 {
        let off = match s.board_size {
            BoardSize::Small => 0int,
            BoardSize::Medium => 1int,
            BoardSize::Large => 3int,
        };
        seq![
            Pos { x: off as i32, y: ym as i32 },
            Pos { x: (off + 1) as i32, y: ym as i32 },
            Pos { x: (off + 2) as i32, y: ym as i32 },
            Pos { x: (off + 3) as i32, y: ym as i32 },
        ]
    } else if id == 0 {
        seq![
            Pos { x: 1, y: (h - 2) as i32 },
            Pos { x: 2, y: (h - 2) as i32 },
            Pos { x: 3, y: (h - 2) as i32 },
            Pos { x: 4, y: (h - 2) as i32 },
        ]
    } else if id == 1 {
        seq![
            Pos { x: (w - 2) as i32, y: 1 },
            Pos { x: (w - 3) as i32, y: 1 },
            Pos { x: (w - 4) as i32, y: 1 },
            Pos { x: (w - 5) as i32, y: 1 },
        ]
    } else if id == 2 {
        seq![
            Pos { x: 1, y: 1 },
            Pos { x: 1, y: 2 },
            Pos { x: 1, y: 3 },
            Pos { x: 1, y: 4 },
        ]
    } else {
        seq![
            Pos { x: (w - 2) as i32, y: (h - 2) as i32 },
            Pos { x: (w - 2) as i32, y: (h - 3) as i32 },
            Pos { x: (w - 2) as i32, y: (h - 4) as i32 },
            Pos { x: (w - 2) as i32, y: (h - 5) as i32 },
        ]
    }
}

/// The initial grid after the first `n` snakes are laid down over `cells`.
pub open spec fn init_snakes_placed(
    cells: Seq<Cell>,
    w: nat,
    s: BoardSettings,
    n: int,
) -> Seq<Cell>
    decreases n,
{
    if n <= 0 {
        cells
    } else {
        let id = (n - 1) as u8;
        let ps = init_snake_positions(s, id);
        crate::grid::place_seq(init_snakes_placed(cells, w, s, n - 1), w, id, ps, ps.len() as int)
    }
}

/// The full initial grid of a fresh board: every cell empty, then the
/// settings' apples written at `init_apple_positions`, all natural, then
/// each player's snake written along `init_snake_positions`, tail part 0 up
/// to head part 3.  On every tier the apple and snake layouts are disjoint,
/// so the write order does not show.
pub open spec fn initial_cells(s: BoardSettings) -> Seq<Cell> {
    let w = size_width(s.board_size);
    let h = size_height(s.board_size);
    let base = Seq::new(w * h, |i: int| Cell::Empty);
    let aps = init_apple_positions(s);
    let with_apples = crate::grid::place_cells(
        base,
        w,
        aps,
        Cell::Apple { natural: true },
        aps.len() as int,
    );
    init_snakes_placed(with_apples, w, s, player_count(s.players) as int)
}

/// The flat index of a layout position on the settings' board.
pub open spec fn init_index(s: BoardSettings, p: Pos) -> int {
    grid_index(size_width(s.board_size), p.x as int, p.y as int)
}

/// On every tier the layout positions lie on the board, each snake's four
/// positions are distinct, distinct snakes' positions are disjoint, and no
/// apple position is a snake position.
proof fn lemma_layout_positions(s: BoardSettings)
    ensures
        forall|j: int|
            0 <= j < init_apple_positions(s).len() ==> in_grid(
                size_width(s.board_size),
                size_height(s.board_size),
                (#[trigger] init_apple_positions(s)[j]).x as int,
                init_apple_positions(s)[j].y as int,
            ),
        forall|id: u8, p: int|
            id < player_count(s.players) && 0 <= p < 4 ==> in_grid(
                size_width(s.board_size),
                size_height(s.board_size),
                (#[trigger] init_snake_positions(s, id)[p]).x as int,
                init_snake_positions(s, id)[p].y as int,
            ),
        forall|id: u8| id < player_count(s.players) ==> init_snake_positions(s, id).len() == 4,
        forall|id: u8, p1: int, p2: int|
            id < player_count(s.players) && 0 <= p1 < p2 < 4 ==> #[trigger] init_snake_positions(
                s,
                id,
            )[p1] != #[trigger] init_snake_positions(s, id)[p2],
        forall|id1: u8, id2: u8, p1: int, p2: int|
            id1 < id2 < player_count(s.players) && 0 <= p1 < 4 && 0 <= p2 < 4
                ==> #[trigger] init_snake_positions(s, id1)[p1] != #[trigger] init_snake_positions(
                s,
                id2,
            )[p2],
        forall|id: u8, p: int, j: int|
            id < player_count(s.players) && 0 <= p < 4 && 0 <= j < init_apple_positions(s).len()
                ==> #[trigger] init_snake_positions(s, id)[p] != #[trigger] init_apple_positions(
                s,
            )[j],
{
}

/// Pointwise description of `init_snakes_placed`: the first `n` snakes'
/// cells are written at their positions, and nothing else moves.
proof fn lemma_snakes_placed_cells(cells: Seq<Cell>, s: BoardSettings, n: int)
    requires
        cells.len() == size_width(s.board_size) * size_height(s.board_size),
        0 <= n <= player_count(s.players),
    ensures
        init_snakes_placed(cells, size_width(s.board_size), s, n).len() == cells.len(),
        forall|id: u8, p: int|
            id < n && 0 <= p < 4 ==> init_snakes_placed(cells, size_width(s.board_size), s, n)[
                init_index(s, #[trigger] init_snake_positions(s, id)[p])] == (Cell::Snake {
                id,
                part: p as u16,
            }),
        forall|i: int|
            0 <= i < cells.len() ==> init_snakes_placed(cells, size_width(s.board_size), s, n)[i]
                == cells[i] || (exists|id: u8, p: int|
                id < n && 0 <= p < 4 && init_index(s, #[trigger] init_snake_positions(s, id)[p])
                    == i),
    decreases n,
{
    let w = size_width(s.board_size);
    let h = size_height(s.board_size);
    lemma_layout_positions(s);
    if n > 0 {
        lemma_snakes_placed_cells(cells, s, n - 1);
        let prev = init_snakes_placed(cells, w, s, n - 1);
        let id = (n - 1) as u8;
        let ps = init_snake_positions(s, id);
        let cur = init_snakes_placed(cells, w, s, n);
        assert(cur == crate::grid::place_seq(prev, w, id, ps, ps.len() as int));
        assert forall|q1: int, q2: int|
            0 <= q1 < q2 < ps.len() implies grid_index(
            w,
            (#[trigger] ps[q1]).x as int,
            ps[q1].y as int,
        ) != grid_index(w, (#[trigger] ps[q2]).x as int, ps[q2].y as int) by {
            if grid_index(w, ps[q1].x as int, ps[q1].y as int) == grid_index(
                w,
                ps[q2].x as int,
                ps[q2].y as int,
            ) {
                lemma_grid_index_injective(
                    w,
                    h,
                    ps[q1].x as int,
                    ps[q1].y as int,
                    ps[q2].x as int,
                    ps[q2].y as int,
                );
            }
        }
        crate::grid::lemma_place_seq(prev, w, h, id, ps, ps.len() as int);
        assert forall|id2: u8, p: int|
            id2 < n && 0 <= p < 4 implies cur[init_index(
            s,
            #[trigger] init_snake_positions(s, id2)[p],
        )] == (Cell::Snake { id: id2, part: p as u16 }) by {
            let t = init_snake_positions(s, id2)[p];
            lemma_grid_index_bounds(w, h, t.x as int, t.y as int);
            if id2 == id {
                assert(cur[grid_index(w, ps[p].x as int, ps[p].y as int)] == (Cell::Snake {
                    id,
                    part: p as u16,
                }));
            } else {
                assert(id2 < n - 1);
                assert(prev[init_index(s, t)] == (Cell::Snake { id: id2, part: p as u16 }));
                if cur[init_index(s, t)] != prev[init_index(s, t)] {
                    let q = choose|q: int|
                        0 <= q < ps.len() && grid_index(
                            w,
                            (#[trigger] ps[q]).x as int,
                            ps[q].y as int,
                        ) == init_index(s, t);
                    lemma_grid_index_injective(
                        w,
                        h,
                        ps[q].x as int,
                        ps[q].y as int,
                        t.x as int,
                        t.y as int,
                    );
                    assert(init_snake_positions(s, id)[q] == init_snake_positions(s, id2)[p]);
                    assert(false);
                }
            }
        }
        assert forall|i: int|
            0 <= i < cells.len() implies cur[i] == cells[i] || (exists|id2: u8, p: int|
            id2 < n && 0 <= p < 4 && init_index(s, #[trigger] init_snake_positions(s, id2)[p])
                == i) by {
            if cur[i] != cells[i] {
                if cur[i] == prev[i] {
                    let (id2, p) = choose|id2: u8, p: int|
                        id2 < n - 1 && 0 <= p < 4 && init_index(
                            s,
                            #[trigger] init_snake_positions(s, id2)[p],
                        ) == i;
                    assert(id2 < n && init_index(s, init_snake_positions(s, id2)[p]) == i);
                } else {
                    let q = choose|q: int|
                        0 <= q < ps.len() && grid_index(
                            w,
                            (#[trigger] ps[q]).x as int,
                            ps[q].y as int,
                        ) == i;
                    assert(id < n && init_index(s, init_snake_positions(s, id)[q]) == i);
                }
            }
        }
    }
}

/// The pointwise reading of the initial grid: each of the settings' snakes
/// holds its four cells, parts 0 to 3, at `init_snake_positions`; each
/// position of `init_apple_positions` holds a natural apple; and every
/// other cell is empty.
pub proof fn lemma_initial_layout(s: BoardSettings)
    ensures
        initial_cells(s).len() == size_width(s.board_size) * size_height(s.board_size),
        forall|id: u8, p: int|
            id < player_count(s.players) && 0 <= p < 4 ==> initial_cells(s)[init_index(
                s,
                #[trigger] init_snake_positions(s, id)[p],
            )] == (Cell::Snake { id, part: p as u16 }),
        forall|j: int|
            0 <= j < init_apple_positions(s).len() ==> initial_cells(s)[init_index(
                s,
                #[trigger] init_apple_positions(s)[j],
            )] == (Cell::Apple { natural: true }),
        forall|i: int|
            0 <= i < initial_cells(s).len() ==> initial_cells(s)[i] == Cell::Empty || (exists|
                id: u8,
                p: int,
            |
                id < player_count(s.players) && 0 <= p < 4 && init_index(
                    s,
                    #[trigger] init_snake_positions(s, id)[p],
                ) == i) || (exists|j: int|
                0 <= j < init_apple_positions(s).len() && init_index(
                    s,
                    #[trigger] init_apple_positions(s)[j],
                ) == i),
{
    let w = size_width(s.board_size);
    let h = size_height(s.board_size);
    let n = player_count(s.players) as int;
    let base = Seq::new(w * h, |i: int| Cell::Empty);
    let aps = init_apple_positions(s);
    let wa = crate::grid::place_cells(base, w, aps, Cell::Apple { natural: true }, aps.len() as int);
    lemma_layout_positions(s);
    crate::grid::lemma_place_cells(base, w, h, aps, Cell::Apple { natural: true }, aps.len() as int);
    lemma_snakes_placed_cells(wa, s, n);
    assert(initial_cells(s) == init_snakes_placed(wa, w, s, n));
    let cur = initial_cells(s);

    assert forall|j: int|
        0 <= j < aps.len() implies cur[init_index(s, #[trigger] aps[j])] == (Cell::Apple {
        natural: true,
    }) by {
        let t = aps[j];
        lemma_grid_index_bounds(w, h, t.x as int, t.y as int);
        assert(wa[init_index(s, t)] == (Cell::Apple { natural: true }));
        if cur[init_index(s, t)] != wa[init_index(s, t)] {
            let (id2, p) = choose|id2: u8, p: int|
                id2 < n && 0 <= p < 4 && init_index(
                    s,
                    #[trigger] init_snake_positions(s, id2)[p],
                ) == init_index(s, t);
            let u = init_snake_positions(s, id2)[p];
            lemma_grid_index_injective(w, h, u.x as int, u.y as int, t.x as int, t.y as int);
            assert(u == t);
            assert(false);
        }
    }

    assert forall|i: int|
        0 <= i < cur.len() implies cur[i] == Cell::Empty || (exists|id: u8, p: int|
        id < player_count(s.players) && 0 <= p < 4 && init_index(
            s,
            #[trigger] init_snake_positions(s, id)[p],
        ) == i) || (exists|j: int|
        0 <= j < aps.len() && init_index(s, #[trigger] aps[j]) == i) by {
        if cur[i] != Cell::Empty {
            if cur[i] == wa[i] {
                assert(wa[i] != base[i]);
                let q = choose|q: int|
                    0 <= q < aps.len() && grid_index(
                        w,
                        (#[trigger] aps[q]).x as int,
                        aps[q].y as int,
                    ) == i;
                assert(init_index(s, aps[q]) == i);
            }
        }
    }
}

impl Board {
    /// Lay a fresh snake along `ps` (tail first), over non-snake cells.
    #[verifier::rlimit(100)]
    #[verifier::spinoff_prover]
    fn place_snake(&mut self, id: u8, ps: &Vec<Pos>)
        requires
            old(self)@.dims_ok(),
            2 <= ps@.len() <= u16::MAX + 1,
            forall|p: int| 0 <= p < ps@.len() ==> old(self)@.on_board(#[trigger] ps@[p]),
            forall|p1: int, p2: int|
                0 <= p1 < p2 < ps@.len() ==> #[trigger] ps@[p1] != #[trigger] ps@[p2],
            forall|p: int|
                1 <= p < ps@.len() ==> offset_dir(
                    (#[trigger] ps@[p]).x - ps@[p - 1].x,
                    ps@[p].y - ps@[p - 1].y,
                ) is Some,
            !live(old(self)@.cells, id),
            forall|p: int|
                0 <= p < ps@.len() ==> !is_snake(
                    old(self)@.cells[old(self)@.index_of(#[trigger] ps@[p])],
                ),
        ensures
            final(self)@.width == old(self)@.width,
            final(self)@.height == old(self)@.height,
            final(self)@.apples_eaten == old(self)@.apples_eaten,
            final(self)@.dims_ok(),
            forall|p: int|
                0 <= p < ps@.len() ==> final(self)@.cells[old(self)@.index_of(#[trigger] ps@[p])]
                    == (Cell::Snake { id, part: p as u16 }),
            forall|i: int|
                0 <= i < final(self)@.cells.len() ==> final(self)@.cells[i] == old(
                    self,
                )@.cells[i] || (exists|p: int|
                    0 <= p < ps@.len() && old(self)@.index_of(#[trigger] ps@[p]) == i),
            forall|id2: u8|
                id2 != id ==> snake_len(final(self)@.cells, id2) == snake_len(
                    old(self)@.cells,
                    id2,
                ) && (snake_ok(old(self)@.cells, old(self)@.width, id2) ==> snake_ok(
                    final(self)@.cells,
                    final(self)@.width,
                    id2,
                )),
            snake_ok(final(self)@.cells, final(self)@.width, id),
            snake_len(final(self)@.cells, id) == ps@.len(),
            old(self)@.wf() ==> final(self)@.wf(),
            final(self)@.cells == crate::grid::place_seq(
                old(self)@.cells,
                old(self)@.width,
                id,
                ps@,
                ps@.len() as int,
            ),
    {
        let ghost pre = self@;
        proof {
            assert forall|q1: int, q2: int|
                0 <= q1 < q2 < ps@.len() implies grid_index(
                pre.width,
                (#[trigger] ps@[q1]).x as int,
                ps@[q1].y as int,
            ) != grid_index(pre.width, (#[trigger] ps@[q2]).x as int, ps@[q2].y as int) by {
                if grid_index(pre.width, ps@[q1].x as int, ps@[q1].y as int) == grid_index(
                    pre.width,
                    ps@[q2].x as int,
                    ps@[q2].y as int,
                ) {
                    lemma_grid_index_injective(
                        pre.width,
                        pre.height,
                        ps@[q1].x as int,
                        ps@[q1].y as int,
                        ps@[q2].x as int,
                        ps@[q2].y as int,
                    );
                }
            }
        }
        let n = ps.len();
        let mut p: usize = 0;
        while p < n
            invariant
                self@.dims_ok(),
                self@.width == pre.width,
                self@.height == pre.height,
                self@.apples_eaten == pre.apples_eaten,
                pre.dims_ok(),
                n == ps@.len(),
                2 <= n <= u16::MAX + 1,
                0 <= p <= n,
                forall|q: int| 0 <= q < n ==> pre.on_board(#[trigger] ps@[q]),
                forall|q1: int, q2: int|
                    0 <= q1 < q2 < n ==> grid_index(
                        pre.width,
                        (#[trigger] ps@[q1]).x as int,
                        ps@[q1].y as int,
                    ) != grid_index(pre.width, (#[trigger] ps@[q2]).x as int, ps@[q2].y as int),
                self@.cells == crate::grid::place_seq(pre.cells, pre.width, id, ps@, p as int),
            decreases n - p,
        {
            let pos = ps[p];
            proof {
                crate::grid::lemma_place_seq(pre.cells, pre.width, pre.height, id, ps@, p as int);
                lemma_grid_index_bounds(pre.width, pre.height, pos.x as int, pos.y as int);
            }
            let i = self.idx_of(pos);
            self.set_idx(i, Cell::Snake { id, part: p as u16 });
            p = p + 1;
        }
        proof {
            crate::grid::lemma_place_seq(pre.cells, pre.width, pre.height, id, ps@, n as int);
            lemma_place_snake_post(pre.cells, self@.cells, pre.width, pre.height, id, ps@);
            if pre.wf() {
                assert forall|id2: u8|
                    live(self@.cells, id2) implies snake_ok(self@.cells, self@.width, id2) by {
                    if id2 != id {
                        assert(live(pre.cells, id2));
                    }
                }
            }
        }
    }
}

impl Board {
    /// A fresh board laid out for the given settings: the initial apples in
    /// a symmetric pattern around the apple centre, and each player's
    /// four-segment snake at its fixed starting position.  The apples are
    /// written first, while the grid is still empty; on every size tier the
    /// two layouts are disjoint, so the order does not show.
    #[verifier::rlimit(100)]
    #[verifier::spinoff_prover]
    pub fn new(board_settings: BoardSettings) -> (r: Board)
        ensures
            r@.wf(),
            r@.apples_eaten == 0,
            r@.width == size_width(board_settings.board_size),
            r@.height == size_height(board_settings.board_size),
            r@.cells == initial_cells(board_settings),
            forall|id: u8| live(r@.cells, id) <==> id < player_count(board_settings.players),
            forall|id: u8| live(r@.cells, id) ==> snake_len(r@.cells, id) == 4,
    {
        let dims: (usize, usize) = match board_settings.board_size {
            BoardSize::Small => (10, 9),
            BoardSize::Medium => (17, 15),
            BoardSize::Large => (24, 21),
        };
        let width = dims.0;
        let height = dims.1;
        proof {
            assert(width <= 24 && height <= 21);
            assert(width * height <= 504) by (nonlinear_arith)
                requires
                    0 <= width <= 24,
                    0 <= height <= 21,
            ;
        }
        let mut board = Board::empty(width, height);
        let wi = width as i32;
        let hi = height as i32;
        let y_mid = hi / 2;
        let players: usize = match board_settings.players {
            PlayerCount::One => 1,
            PlayerCount::Two => 2,
            PlayerCount::Three => 3,
            PlayerCount::Four => 4,
        };

        // Initial apples, all natural.
        let apple_center: i32 = if players == 1 {
            match board_settings.board_size {
                BoardSize::Small => 6,
                BoardSize::Medium => 11,
                BoardSize::Large => 16,
            }
        } else {
            wi / 2
        };
        let mut aps: Vec<Pos> = Vec::new();
        match board_settings.apples {
            AppleCount::One => {
                aps.push(Pos { x: apple_center + 1, y: y_mid });
            },
            AppleCount::Three => {
                aps.push(Pos { x: apple_center + 1, y: y_mid });
                aps.push(Pos { x: apple_center - 1, y: y_mid + 2 });
                aps.push(Pos { x: apple_center - 1, y: y_mid - 2 });
            },
            AppleCount::Five => {
                aps.push(Pos { x: apple_center, y: y_mid });
                aps.push(Pos { x: apple_center + 2, y: y_mid + 2 });
                aps.push(Pos { x: apple_center + 2, y: y_mid - 2 });
                aps.push(Pos { x: apple_center - 2, y: y_mid + 2 });
                aps.push(Pos { x: apple_center - 2, y: y_mid - 2 });
            },
        }
        let ghost m_empty = board@;
        proof {
            assert(players as int == player_count(board_settings.players));
            assert(y_mid as int == init_mid_row(board_settings));
            assert(apple_center as int == init_apple_center(board_settings));
            assert(aps@ =~= init_apple_positions(board_settings));
        }
        let mut k: usize = 0;
        while k < aps.len()
            invariant
                board@.dims_ok(),
                board@.width == m_empty.width,
                board@.height == m_empty.height,
                board@.apples_eaten == m_empty.apples_eaten,
                board@.cells.len() == m_empty.cells.len(),
                0 <= k <= aps@.len(),
                forall|j: int| 0 <= j < aps@.len() ==> board@.on_board(#[trigger] aps@[j]),
                forall|i: int| 0 <= i < board@.cells.len() ==> !is_snake(#[trigger] board@.cells[i]),
                board@.cells == crate::grid::place_cells(
                    m_empty.cells,
                    m_empty.width,
                    aps@,
                    Cell::Apple { natural: true },
                    k as int,
                ),
            decreases aps@.len() - k,
        {
            let p = aps[k];
            proof {
                lemma_grid_index_bounds(board@.width, board@.height, p.x as int, p.y as int);
            }
            board.place_non_snake(p, Cell::Apple { natural: true });
            proof {
                assert(crate::grid::place_cells(
                    m_empty.cells,
                    m_empty.width,
                    aps@,
                    Cell::Apple { natural: true },
                    k + 1,
                ) == crate::grid::place_cells(
                    m_empty.cells,
                    m_empty.width,
                    aps@,
                    Cell::Apple { natural: true },
                    k as int,
                ).update(
                    grid_index(m_empty.width, aps@[k as int].x as int, aps@[k as int].y as int),
                    Cell::Apple { natural: true },
                ));
            }
            k = k + 1;
        }
        let ghost m_ap = board@;
        proof {
            assert(m_empty.cells =~= Seq::new(
                size_width(board_settings.board_size) * size_height(board_settings.board_size),
                |i: int| Cell::Empty,
            ));
            assert(m_ap.cells == crate::grid::place_cells(
                Seq::new(
                    size_width(board_settings.board_size) * size_height(board_settings.board_size),
                    |i: int| Cell::Empty,
                ),
                m_empty.width,
                init_apple_positions(board_settings),
                Cell::Apple { natural: true },
                init_apple_positions(board_settings).len() as int,
            ));
        }
        proof {
            assert forall|id: u8| snake_len(m_ap.cells, id) == 0 by {
                lemma_count_zero(m_ap.cells, |c: Cell| is_id(c, id));
            }
        }

        // The snakes.
        if players == 1 {
            let offset: i32 = match board_settings.board_size {
                BoardSize::Small => 0,
                BoardSize::Medium => 1,
                BoardSize::Large => 3,
            };
            let mut ps: Vec<Pos> = Vec::new();
            ps.push(Pos { x: offset, y: y_mid });
            ps.push(Pos { x: offset + 1, y: y_mid });
            ps.push(Pos { x: offset + 2, y: y_mid });
            ps.push(Pos { x: offset + 3, y: y_mid });
            proof {
                assert(ps@ =~= init_snake_positions(board_settings, 0));
                assert forall|p: int|
                    0 <= p < ps@.len() implies board@.on_board(#[trigger] ps@[p]) && !is_snake(
                    board@.cells[board@.index_of(ps@[p])],
                ) by {
                    lemma_grid_index_bounds(board@.width, board@.height, ps@[p].x as int, ps@[p].y as int);
                }
            }
            board.place_snake(0, &ps);
            proof {
                assert forall|id: u8| id != 0 implies snake_len(board@.cells, id) == 0 by {}
                let s = board_settings;
                let w = m_empty.width;
                assert(init_snakes_placed(m_ap.cells, w, s, 0) == m_ap.cells);
                assert(init_snakes_placed(m_ap.cells, w, s, 1) == crate::grid::place_seq(
                    m_ap.cells,
                    w,
                    0u8,
                    init_snake_positions(s, 0),
                    init_snake_positions(s, 0).len() as int,
                ));
                assert(board@.cells == init_snakes_placed(m_ap.cells, w, s, 1));
                assert(board@.cells == initial_cells(s));
            }
        } else {
            let mut ps0: Vec<Pos> = Vec::new();
            ps0.push(Pos { x: 1, y: hi - 2 });
            ps0.push(Pos { x: 2, y: hi - 2 });
            ps0.push(Pos { x: 3, y: hi - 2 });
            ps0.push(Pos { x: 4, y: hi - 2 });
            proof {
                assert(ps0@ =~= init_snake_positions(board_settings, 0));
            }
            board.place_snake(0, &ps0);
            let ghost m0 = board@;

            let mut ps1: Vec<Pos> = Vec::new();
            ps1.push(Pos { x: wi - 2, y: 1 });
            ps1.push(Pos { x: wi - 3, y: 1 });
            ps1.push(Pos { x: wi - 4, y: 1 });
            ps1.push(Pos { x: wi - 5, y: 1 });
            proof {
                assert(ps1@ =~= init_snake_positions(board_settings, 1));
                assert forall|j: int|
                    0 <= j < ps1@.len() implies !is_snake(
                    m0.cells[m0.index_of(#[trigger] ps1@[j])],
                ) by {
                    crate::grid::lemma_unplaced_cell(
                        m_ap.cells,
                        m0.cells,
                        m_ap.width,
                        m_ap.height,
                        ps0@,
                        ps1@[j],
                    );
                    crate::grid::lemma_grid_index_bounds(
                        m_ap.width,
                        m_ap.height,
                        ps1@[j].x as int,
                        ps1@[j].y as int,
                    );
                }
            }
            board.place_snake(1, &ps1);
            let ghost m1 = board@;

            if players >= 3 {
                let mut ps2: Vec<Pos> = Vec::new();
                ps2.push(Pos { x: 1, y: 1 });
                ps2.push(Pos { x: 1, y: 2 });
                ps2.push(Pos { x: 1, y: 3 });
                ps2.push(Pos { x: 1, y: 4 });
                proof {
                    assert(ps2@ =~= init_snake_positions(board_settings, 2));
                    assert forall|j: int|
                        0 <= j < ps2@.len() implies !is_snake(
                        m1.cells[m1.index_of(#[trigger] ps2@[j])],
                    ) by {
                        crate::grid::lemma_unplaced_cell(
                            m0.cells,
                            m1.cells,
                            m_ap.width,
                            m_ap.height,
                            ps1@,
                            ps2@[j],
                        );
                        crate::grid::lemma_unplaced_cell(
                            m_ap.cells,
                            m0.cells,
                            m_ap.width,
                            m_ap.height,
                            ps0@,
                            ps2@[j],
                        );
                        crate::grid::lemma_grid_index_bounds(
                            m_ap.width,
                            m_ap.height,
                            ps2@[j].x as int,
                            ps2@[j].y as int,
                        );
                    }
                }
                board.place_snake(2, &ps2);
                proof {
                    assert(board@.cells == crate::grid::place_seq(
                        m1.cells,
                        m_empty.width,
                        2u8,
                        init_snake_positions(board_settings, 2),
                        init_snake_positions(board_settings, 2).len() as int,
                    ));
                }
            }
            let ghost m2 = board@;

            if players >= 4 {
                let mut ps3: Vec<Pos> = Vec::new();
                ps3.push(Pos { x: wi - 2, y: hi - 2 });
                ps3.push(Pos { x: wi - 2, y: hi - 3 });
                ps3.push(Pos { x: wi - 2, y: hi - 4 });
                ps3.push(Pos { x: wi - 2, y: hi - 5 });
                proof {
                    assert(ps3@ =~= init_snake_positions(board_settings, 3));
                    assert forall|j: int|
                        0 <= j < ps3@.len() implies !is_snake(
                        m2.cells[m2.index_of(#[trigger] ps3@[j])],
                    ) by {
                        if players >= 3 {
                            crate::grid::lemma_unplaced_cell(
                                m1.cells,
                                m2.cells,
                                m_ap.width,
                                m_ap.height,
                                seq![
                                    Pos { x: 1, y: 1 },
                                    Pos { x: 1, y: 2 },
                                    Pos { x: 1, y: 3 },
                                    Pos { x: 1, y: 4 },
                                ],
                                ps3@[j],
                            );
                        }
                        crate::grid::lemma_unplaced_cell(
                            m0.cells,
                            m1.cells,
                            m_ap.width,
                            m_ap.height,
                            ps1@,
                            ps3@[j],
                        );
                        crate::grid::lemma_unplaced_cell(
                            m_ap.cells,
                            m0.cells,
                            m_ap.width,
                            m_ap.height,
                            ps0@,
                            ps3@[j],
                        );
                        crate::grid::lemma_grid_index_bounds(
                            m_ap.width,
                            m_ap.height,
                            ps3@[j].x as int,
                            ps3@[j].y as int,
                        );
                    }
                }
                board.place_snake(3, &ps3);
                proof {
                    assert(board@.cells == crate::grid::place_seq(
                        m2.cells,
                        m_empty.width,
                        3u8,
                        init_snake_positions(board_settings, 3),
                        init_snake_positions(board_settings, 3).len() as int,
                    ));
                }
            }
            proof {
                assert forall|id: u8|
                    id >= players implies snake_len(board@.cells, id) == 0 by {}
                let s = board_settings;
                let w = m_empty.width;
                let g0 = init_snakes_placed(m_ap.cells, w, s, 0);
                let g1 = init_snakes_placed(m_ap.cells, w, s, 1);
                let g2 = init_snakes_placed(m_ap.cells, w, s, 2);
                assert(g0 == m_ap.cells);
                assert(g1 == crate::grid::place_seq(
                    g0,
                    w,
                    0u8,
                    init_snake_positions(s, 0),
                    init_snake_positions(s, 0).len() as int,
                ));
                assert(g2 == crate::grid::place_seq(
                    g1,
                    w,
                    1u8,
                    init_snake_positions(s, 1),
                    init_snake_positions(s, 1).len() as int,
                ));
                assert(m0.cells == g1);
                assert(m1.cells == g2);
                if players == 2 {
                    assert(board@.cells == initial_cells(s));
                } else {
                    let g3 = init_snakes_placed(m_ap.cells, w, s, 3);
                    assert(g3 == crate::grid::place_seq(
                        g2,
                        w,
                        2u8,
                        init_snake_positions(s, 2),
                        init_snake_positions(s, 2).len() as int,
                    ));
                    assert(m2.cells == g3);
                    if players == 3 {
                        assert(board@.cells == initial_cells(s));
                    } else {
                        let g4 = init_snakes_placed(m_ap.cells, w, s, 4);
                        assert(g4 == crate::grid::place_seq(
                            g3,
                            w,
                            3u8,
                            init_snake_positions(s, 3),
                            init_snake_positions(s, 3).len() as int,
                        ));
                        assert(board@.cells == g4);
                        assert(board@.cells == initial_cells(s));
                    }
                }
            }
        }
        board
    }
}

} // verus!
