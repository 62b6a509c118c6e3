//! The cell-kind enum and spec-level predicates on cells.

use vstd::prelude::*;

verus! {

/// What one grid cell holds.  A snake occupies one `Snake` cell per body
/// segment; `part` counts from 0 at the tail up to the head.  Natural apples
/// respawn elsewhere when eaten, apples left by a dead snake do not.
#[derive(Clone, Copy, Debug, PartialEq, Eq, Structural)]
pub enum Cell {
    Empty,
    Wall,
    Snake { id: u8, part: u16 },
    Apple { natural: bool },
}

/// Whether `c` is a body cell of snake `id`.
pub open spec fn is_id(c: Cell, id: u8) -> bool {
    match c {
        Cell::Snake { id: i, .. } => i == id,
        _ => false,
    }
}

/// Whether `c` is the body cell of snake `id` with part index `p`.
pub open spec fn is_id_part(c: Cell, id: u8, p: u16) -> bool {
    match c {
        Cell::Snake { id: i, part } => i == id && part == p,
        _ => false,
    }
}

/// The part index of a snake cell (0 for any other cell).
pub open spec fn cell_part(c: Cell) -> u16 {
    match c {
        Cell::Snake { part, .. } => part,
        _ => 0,
    }
}

/// Whether `c` is a snake cell of any id.
pub open spec fn is_snake(c: Cell) -> bool {
    match c {
        Cell::Snake { .. } => true,
        _ => false,
    }
}

/// Whether `c` is an apple cell.
pub open spec fn is_apple(c: Cell) -> bool {
    match c {
        Cell::Apple { .. } => true,
        _ => false,
    }
}

} // verus!
