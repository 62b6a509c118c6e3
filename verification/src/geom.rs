//! Grid positions and the four movement directions.

use vstd::prelude::*;

verus! {

/// A cell coordinate on the board: `x` grows to the right, `y` grows upward.
#[derive(Clone, Copy, Debug, PartialEq, Eq, Structural)]
pub struct Pos {
    pub x: i32,
    pub y: i32,
}

impl Pos {
    pub fn new(x: i32, y: i32) -> (r: Pos)
        ensures
            r.x == x,
            r.y == y,
    {
        Pos { x, y }
    }
}

/// One of the four orthogonal movement directions.
#[derive(Clone, Copy, Debug, PartialEq, Eq, Structural)]
pub enum Direction {
    Up,
    Down,
    Left,
    Right,
}

/// The horizontal component of a direction's unit offset.
pub open spec fn dir_dx(d: Direction) -> int {
    match d {
        Direction::Left => -1,
        Direction::Right => 1,
        _ => 0,
    }
}

/// The vertical component of a direction's unit offset.
pub open spec fn dir_dy(d: Direction) -> int {
    match d {
        Direction::Up => 1,
        Direction::Down => -1,
        _ => 0,
    }
}

/// The direction pointing the opposite way.
pub open spec fn spec_opposite(d: Direction) -> Direction {
    match d {
        Direction::Up => Direction::Down,
        Direction::Down => Direction::Up,
        Direction::Left => Direction::Right,
        Direction::Right => Direction::Left,
    }
}

/// The direction whose unit offset is `(dx, dy)`, if there is one.
pub open spec fn offset_dir(dx: int, dy: int) -> Option<Direction> {
    if dx == 0 && dy == 1 {
        Some(Direction::Up)
    } else if dx == 0 && dy == -1 {
        Some(Direction::Down)
    } else if dx == -1 && dy == 0 {
        Some(Direction::Left)
    } else if dx == 1 && dy == 0 {
        Some(Direction::Right)
    } else {
        None
    }
}

impl Direction {
    pub fn opposite(&self) -> (r: Direction)
        ensures
            r == spec_opposite(*self),
    {
        match self {
            Direction::Up => Direction::Down,
            Direction::Down => Direction::Up,
            Direction::Left => Direction::Right,
            Direction::Right => Direction::Left,
        }
    }

    /// The unit offset of this direction as a position delta.
    pub fn as_vec2(&self) -> (r: Pos)
        ensures
            r.x == dir_dx(*self),
            r.y == dir_dy(*self),
    {
        match self {
            Direction::Up => Pos { x: 0, y: 1 },
            Direction::Down => Pos { x: 0, y: -1 },
            Direction::Left => Pos { x: -1, y: 0 },
            Direction::Right => Pos { x: 1, y: 0 },
        }
    }

    /// All four directions, in a fixed order.
    pub fn all() -> (r: Vec<Direction>)
        ensures
            r@ == seq![Direction::Up, Direction::Down, Direction::Left, Direction::Right],
    {
        let mut v: Vec<Direction> = Vec::new();
        v.push(Direction::Up);
        v.push(Direction::Down);
        v.push(Direction::Left);
        v.push(Direction::Right);
        proof {
            assert(v@ =~= seq![
                Direction::Up,
                Direction::Down,
                Direction::Left,
                Direction::Right,
            ]);
        }
        v
    }

    /// The direction whose unit offset is `p`, if `p` is such an offset.
    pub fn from_offset(p: Pos) -> (r: Option<Direction>)
        ensures
            r == offset_dir(p.x as int, p.y as int),
    {
        if p.x == 0 && p.y == 1 {
            Some(Direction::Up)
        } else if p.x == 0 && p.y == -1 {
            Some(Direction::Down)
        } else if p.x == -1 && p.y == 0 {
            Some(Direction::Left)
        } else if p.x == 1 && p.y == 0 {
            Some(Direction::Right)
        } else {
            None
        }
    }
}

} // verus!
