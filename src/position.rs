use vstd::prelude::*;

verus! {

/// Dimensions of a board.
#[derive(Clone, Copy, Debug)]
pub struct Size {
    pub width: usize,
    pub height: usize,
}

/// A cell of the board, by column `x` and row `y`.
#[derive(PartialEq, Eq, Structural, Hash, Debug, Clone, Copy)]
pub struct Position {
    pub x: usize,
    pub y: usize,
}

/// One of the eight compass directions; `Up` decreases `y`, `Left` decreases `x`.
#[derive(PartialEq, Eq, Structural, Debug, Clone, Copy)]
pub enum Direction {
    UpLeft,
    Up,
    UpRight,
    Right,
    DownRight,
    Down,
    DownLeft,
    Left,
}

/// `a` moved `k` steps along an axis whose unit step is `delta` (one of -1, 0, 1).
pub open spec fn shift(a: int, delta: int, k: int) -> int {
    if delta > 0 {
        a + k
    } else if delta < 0 {
        a - k
    } else {
        a
    }
}

/// Whether the cell `c` (column, row) lies on a board of the given size.
pub open spec fn in_bounds(c: (int, int), size: Size) -> bool {
    0 <= c.0 < size.width && 0 <= c.1 < size.height
}

impl Direction {
    /// Horizontal unit step.
    pub open spec fn dx(self) -> int {
        match self {
            Direction::UpLeft | Direction::DownLeft | Direction::Left => -1,
            Direction::Up | Direction::Down => 0,
            Direction::UpRight | Direction::Right | Direction::DownRight => 1,
        }
    }

    /// Vertical unit step.
    pub open spec fn dy(self) -> int {
        match self {
            Direction::UpLeft | Direction::Up | Direction::UpRight => -1,
            Direction::Left | Direction::Right => 0,
            Direction::DownLeft | Direction::Down | Direction::DownRight => 1,
        }
    }

    /// All eight directions, in the fixed order in which flips are searched.
    pub open spec fn all() -> Seq<Direction> {
        seq![
            Direction::UpLeft,
            Direction::Up,
            Direction::UpRight,
            Direction::Right,
            Direction::DownRight,
            Direction::Down,
            Direction::DownLeft,
            Direction::Left,
        ]
    }

    /// The eight directions, in the order of `all`.
    pub fn iter_all() -> (r: Vec<Direction>)
        ensures
            r@ == Self::all(),
    {
        let mut r: Vec<Direction> = Vec::new();
        r.push(Direction::UpLeft);
        r.push(Direction::Up);
        r.push(Direction::UpRight);
        r.push(Direction::Right);
        r.push(Direction::DownRight);
        r.push(Direction::Down);
        r.push(Direction::DownLeft);
        r.push(Direction::Left);
        assert(r@ =~= Self::all());
        r
    }
}

impl Position {
    /// The position as a pair of mathematical integers (column, row).
    pub open spec fn key(self) -> (int, int) {
        (self.x as int, self.y as int)
    }

    /// The cell `k` steps away from this one in direction `d`; it may lie off any board.
    pub open spec fn ray(self, d: Direction, k: int) -> (int, int) {
        (shift(self.x as int, d.dx(), k), shift(self.y as int, d.dy(), k))
    }

    /// One step in `direction`; `None` when the step leaves the board of size `limits`.
    pub fn advance(&self, direction: &Direction, limits: &Size) -> (r: Option<Position>)
        ensures
            r.is_some() == in_bounds(self.ray(*direction, 1), *limits),
            r matches Some(q) ==> q.key() == self.ray(*direction, 1),
    {
        let x_ok = match direction {
            Direction::UpLeft | Direction::DownLeft | Direction::Left => self.x >= 1 && self.x - 1
                < limits.width,
            Direction::Up | Direction::Down => self.x < limits.width,
            _ => limits.width >= 1 && self.x < limits.width - 1,
        };
        let y_ok = match direction {
            Direction::UpLeft | Direction::Up | Direction::UpRight => self.y >= 1 && self.y - 1
                < limits.height,
            Direction::Left | Direction::Right => self.y < limits.height,
            _ => limits.height >= 1 && self.y < limits.height - 1,
        };
        if !(x_ok && y_ok) {
            return None;
        }
        let x = match direction {
            Direction::UpLeft | Direction::DownLeft | Direction::Left => self.x - 1,
            Direction::Up | Direction::Down => self.x,
            _ => self.x + 1,
        };
        let y = match direction {
            Direction::UpLeft | Direction::Up | Direction::UpRight => self.y - 1,
            Direction::Left | Direction::Right => self.y,
            _ => self.y + 1,
        };
        Some(Position { x, y })
    }
}

} // verus!
