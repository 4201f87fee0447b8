//! A Hashlife engine: a Conway's Game of Life simulator that advances
//! patterns on an effectively unbounded grid by hash-consing a quadtree of
//! canonical nodes and memoizing per-node evolution results.

use vstd::prelude::*;

pub mod board;
pub mod cells;
pub mod evolve;
pub mod keys;
pub mod life;
pub mod region;
pub mod store;

verus! {

/// The state of a single cell.
#[derive(Clone, Copy, Debug, PartialEq, Eq, Structural)]
pub enum Cell {
    Alive,
    Dead,
}

impl Cell {
    pub fn new(alive: bool) -> (c: Cell)
        ensures
            c == (if alive { Cell::Alive } else { Cell::Dead }),
    {
        if alive {
            Cell::Alive
        } else {
            Cell::Dead
        }
    }

    pub fn is_alive(self) -> (r: bool)
        ensures
            r == (self == Cell::Alive),
    {
        match self {
            Cell::Alive => true,
            Cell::Dead => false,
        }
    }
}

/// The four quadrants of a square region, named by compass direction.
/// `x` grows eastward and `y` grows southward.
#[derive(Clone, Copy, Debug, PartialEq, Eq, Structural)]
pub enum Quadrant {
    Northeast,
    Northwest,
    Southeast,
    Southwest,
}

/// A cell coordinate. `x` grows eastward and `y` grows southward.
#[derive(Clone, Copy, Debug, PartialEq, Eq, Hash, Structural)]
pub struct Position {
    pub x: i64,
    pub y: i64,
}

impl Position {
    pub fn new(x: i64, y: i64) -> (p: Position)
        ensures
            p.x == x && p.y == y,
    {
        Position { x, y }
    }

    pub fn offset(&self, x_offset: i64, y_offset: i64) -> (p: Position)
        requires
            i64::MIN <= self.x + x_offset <= i64::MAX,
            i64::MIN <= self.y + y_offset <= i64::MAX,
        ensures
            p.x == self.x + x_offset,
            p.y == self.y + y_offset,
    {
        Position { x: self.x + x_offset, y: self.y + y_offset }
    }

    /// The quadrant this position falls in, relative to the origin.
    /// Cells with a nonnegative coordinate belong to the east/south side.
    pub fn quadrant(&self) -> (q: Quadrant)
        ensures
            q == self.quadrant_spec(),
    {
        match (self.x < 0, self.y < 0) {
            (true, true) => Quadrant::Northwest,
            (false, true) => Quadrant::Northeast,
            (true, false) => Quadrant::Southwest,
            (false, false) => Quadrant::Southeast,
        }
    }

    pub open spec fn quadrant_spec(self) -> Quadrant {
        if self.x < 0 && self.y < 0 {
            Quadrant::Northwest
        } else if self.x >= 0 && self.y < 0 {
            Quadrant::Northeast
        } else if self.x < 0 {
            Quadrant::Southwest
        } else {
            Quadrant::Southeast
        }
    }
}

/// An axis-aligned rectangle of cells, inclusive on all four edges.
#[derive(Clone, Copy, Debug, PartialEq, Eq, Hash, Structural)]
pub struct BoundingBox {
    pub upper_left: Position,
    pub lower_right: Position,
}

impl BoundingBox {
    pub open spec fn ul(self) -> Position {
        self.upper_left
    }

    pub open spec fn lr(self) -> Position {
        self.lower_right
    }

    /// True when the rectangle's corners are ordered.
    pub open spec fn wf(self) -> bool {
        self.upper_left.x <= self.lower_right.x && self.upper_left.y <= self.lower_right.y
    }

    /// True when the cell (x, y) lies inside the rectangle.
    pub open spec fn holds(self, x: int, y: int) -> bool {
        self.upper_left.x <= x <= self.lower_right.x && self.upper_left.y <= y
            <= self.lower_right.y
    }

    pub fn new(upper_left: Position, lower_right: Position) -> (b: BoundingBox)
        requires
            upper_left.x <= lower_right.x,
            upper_left.y <= lower_right.y,
        ensures
            b.ul() == upper_left && b.lr() == lower_right,
            b.wf(),
    {
        BoundingBox { upper_left, lower_right }
    }

    pub fn upper_left(&self) -> (p: Position)
        ensures
            p == self.ul(),
    {
        self.upper_left
    }

    pub fn lower_right(&self) -> (p: Position)
        ensures
            p == self.lr(),
    {
        self.lower_right
    }

    /// The smallest rectangle containing both `self` and `other`.
    pub fn combine(&self, other: BoundingBox) -> (b: BoundingBox)
        requires
            self.wf(),
            other.wf(),
        ensures
            b.wf(),
            b.ul().x == if self.ul().x <= other.ul().x { self.ul().x } else { other.ul().x },
            b.ul().y == if self.ul().y <= other.ul().y { self.ul().y } else { other.ul().y },
            b.lr().x == if self.lr().x >= other.lr().x { self.lr().x } else { other.lr().x },
            b.lr().y == if self.lr().y >= other.lr().y { self.lr().y } else { other.lr().y },
            forall|x: int, y: int| b.holds(x, y) <== self.holds(x, y) || other.holds(x, y),
    {
        let min_x = if self.upper_left.x <= other.upper_left.x {
            self.upper_left.x
        } else {
            other.upper_left.x
        };
        let min_y = if self.upper_left.y <= other.upper_left.y {
            self.upper_left.y
        } else {
            other.upper_left.y
        };
        let max_x = if self.lower_right.x >= other.lower_right.x {
            self.lower_right.x
        } else {
            other.lower_right.x
        };
        let max_y = if self.lower_right.y >= other.lower_right.y {
            self.lower_right.y
        } else {
            other.lower_right.y
        };
        BoundingBox {
            upper_left: Position { x: min_x, y: min_y },
            lower_right: Position { x: max_x, y: max_y },
        }
    }

    /// The rectangle translated by (x_offset, y_offset).
    pub fn offset(&self, x_offset: i64, y_offset: i64) -> (b: BoundingBox)
        requires
            self.wf(),
            i64::MIN <= self.ul().x + x_offset,
            i64::MIN <= self.ul().y + y_offset,
            self.lr().x + x_offset <= i64::MAX,
            self.lr().y + y_offset <= i64::MAX,
        ensures
            b.wf(),
            b.ul().x == self.ul().x + x_offset,
            b.ul().y == self.ul().y + y_offset,
            b.lr().x == self.lr().x + x_offset,
            b.lr().y == self.lr().y + y_offset,
    {
        BoundingBox {
            upper_left: self.upper_left.offset(x_offset, y_offset),
            lower_right: self.lower_right.offset(x_offset, y_offset),
        }
    }

    /// The rectangle grown by `amount` cells on every side.
    pub fn pad(&self, amount: i64) -> (b: BoundingBox)
        requires
            self.wf(),
            amount >= 0,
            i64::MIN <= self.ul().x - amount,
            i64::MIN <= self.ul().y - amount,
            self.lr().x + amount <= i64::MAX,
            self.lr().y + amount <= i64::MAX,
        ensures
            b.wf(),
            b.ul().x == self.ul().x - amount,
            b.ul().y == self.ul().y - amount,
            b.lr().x == self.lr().x + amount,
            b.lr().y == self.lr().y + amount,
    {
        BoundingBox {
            upper_left: self.upper_left.offset(-amount, -amount),
            lower_right: self.lower_right.offset(amount, amount),
        }
    }
}

/// The errors the checked node constructors report. Both indicate misuse of
/// the store, not a recoverable condition.
#[derive(Clone, Copy, Debug, PartialEq, Eq, Structural)]
pub enum Error {
    /// A node construction asked for a level below 3 or above 64, or for a
    /// population that no node can carry.
    InvalidLevel,
    /// An interior construction was handed children of unequal levels.
    ChildLevelMismatch,
}

} // verus!
