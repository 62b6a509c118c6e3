//! Apple and wall commands: the operations collaborators request between
//! ticks, applied to the board with the same rules the tick uses.

use vstd::prelude::*;

use crate::board::Board;
use crate::cell::{is_apple, Cell};
use crate::geom::Pos;
use crate::grid::snake_len;
use crate::spawn::spawnable;

verus! {

/// A requested apple operation.
#[derive(Clone, Copy, Debug, PartialEq, Eq, Structural)]
pub enum AppleEv {
    /// Place a natural apple on a random empty cell.
    SpawnRandom,
    /// Place a natural apple on the given cell, if it is empty.
    SpawnPos(Pos),
    /// Remove the apple on the given cell, if there is one.
    Despawn(Pos),
}

/// A requested wall operation.
#[derive(Clone, Copy, Debug, PartialEq, Eq, Structural)]
pub enum WallEv {
    /// Place a wall on a random eligible cell.
    Spawn,
    /// Remove the wall on the given cell, if there is one.
    Destroy(Pos),
}

impl Board {
    /// Apply an apple command.  Reports failure, and changes nothing, when
    /// the target cell does not qualify.
    pub fn apply_apple_ev(&mut self, ev: AppleEv) -> (r: Result<(), ()>)
        requires
            old(self)@.dims_ok(),
        ensures
            final(self)@.width == old(self)@.width,
            final(self)@.height == old(self)@.height,
            final(self)@.apples_eaten == old(self)@.apples_eaten,
            ev == AppleEv::SpawnRandom ==> ((r is Ok <==> exists|i: int|
                0 <= i < old(self)@.cells.len() && old(self)@.cells[i] == Cell::Empty) && (r is Ok
                ==> exists|i: int|
                0 <= i < old(self)@.cells.len() && old(self)@.cells[i] == Cell::Empty && final(
                self)@.cells == old(self)@.cells.update(i, Cell::Apple { natural: true }))),
            forall|p: Pos|
                ev == AppleEv::SpawnPos(p) ==> ((r is Ok <==> old(self)@.on_board(p) && old(
                    self,
                )@.cells[old(self)@.index_of(p)] == Cell::Empty) && (r is Ok ==> final(self)@.cells
                    == old(self)@.cells.update(
                    old(self)@.index_of(p),
                    Cell::Apple { natural: true },
                ))),
            forall|p: Pos|
                ev == AppleEv::Despawn(p) ==> ((r is Ok <==> old(self)@.on_board(p) && is_apple(
                    old(self)@.cells[old(self)@.index_of(p)],
                )) && (r is Ok ==> final(self)@.cells == old(self)@.cells.update(
                    old(self)@.index_of(p),
                    Cell::Empty,
                ))),
            r is Err ==> final(self)@.cells == old(self)@.cells,
            forall|id: u8|
                snake_len(final(self)@.cells, id) == snake_len(old(self)@.cells, id),
            old(self)@.wf() ==> final(self)@.wf(),
    {
        match ev {
            AppleEv::SpawnRandom => self.spawn_apple(),
            AppleEv::SpawnPos(p) => {
                if !self.in_bounds(p) {
                    return Err(());
                }
                let i = self.idx_of(p);
                match self.cell_at(i) {
                    Cell::Empty => {
                        self.place_non_snake_idx(i, Cell::Apple { natural: true });
                        Ok(())
                    },
                    _ => Err(()),
                }
            },
            AppleEv::Despawn(p) => {
                if !self.in_bounds(p) {
                    return Err(());
                }
                let i = self.idx_of(p);
                match self.cell_at(i) {
                    Cell::Apple { .. } => {
                        self.place_non_snake_idx(i, Cell::Empty);
                        Ok(())
                    },
                    _ => Err(()),
                }
            },
        }
    }

    /// Apply a wall command.  Reports failure, and changes nothing, when
    /// the target cell does not qualify.
    pub fn apply_wall_ev(&mut self, ev: WallEv) -> (r: Result<(), ()>)
        requires
            old(self)@.wf(),
        ensures
            final(self)@.width == old(self)@.width,
            final(self)@.height == old(self)@.height,
            final(self)@.apples_eaten == old(self)@.apples_eaten,
            ev == WallEv::Spawn ==> ((r is Ok <==> spawnable(old(self)@).len() > 0) && (r is Ok
                ==> exists|k: int|
                0 <= k < spawnable(old(self)@).len() && {
                    let i = old(self)@.index_of(#[trigger] spawnable(old(self)@)[k]);
                    0 <= i < old(self)@.cells.len() && final(self)@.cells == old(
                        self,
                    )@.cells.update(i, Cell::Wall)
                })),
            forall|p: Pos|
                ev == WallEv::Destroy(p) ==> ((r is Ok <==> old(self)@.on_board(p) && old(
                    self,
                )@.cells[old(self)@.index_of(p)] == Cell::Wall) && (r is Ok ==> final(self)@.cells
                    == old(self)@.cells.update(old(self)@.index_of(p), Cell::Empty))),
            r is Err ==> final(self)@.cells == old(self)@.cells,
            forall|id: u8|
                snake_len(final(self)@.cells, id) == snake_len(old(self)@.cells, id),
            final(self)@.wf(),
    {
        match ev {
            WallEv::Spawn => self.spawn_wall(),
            WallEv::Destroy(p) => {
                if !self.in_bounds(p) {
                    return Err(());
                }
                let i = self.idx_of(p);
                match self.cell_at(i) {
                    Cell::Wall => {
                        self.place_non_snake_idx(i, Cell::Empty);
                        Ok(())
                    },
                    _ => Err(()),
                }
            },
        }
    }
}

} // verus!
