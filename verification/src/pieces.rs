//! The pieces of the game, the moves between positions and the errors of placement.
use vstd::prelude::*;

verus! {

/// A bunny on a cell given as `(column, row)`.
#[derive(Clone, Copy, Debug, PartialEq, Eq, Hash, PartialOrd, Ord)]
pub struct Bunny {
    pub pos: (usize, usize),
}

/// A fox covering two cells; normalized when `pos1` has the smaller coordinate sum.
#[derive(Clone, Copy, Debug, PartialEq, Eq, Hash, PartialOrd, Ord)]
pub struct Fox {
    pub pos1: (usize, usize),
    pub pos2: (usize, usize),
}

/// A mushroom on a cell.
#[derive(Clone, Copy, Debug, PartialEq, Eq, Hash, PartialOrd, Ord)]
pub struct Mushroom {
    pub pos: (usize, usize),
}

/// A move of one piece: where it stood and where it stands afterwards.
#[derive(Clone, Copy, Debug, PartialEq, Eq, Hash)]
pub enum Move {
    Bunny { from: Bunny, to: Bunny },
    Fox { from: Fox, to: Fox },
}

/// Why a piece cannot be placed, or a board is not a game position.
#[derive(Clone, Copy, Debug, PartialEq, Eq, Structural)]
pub enum InvalidBoardError {
    InvalidPosition,
    OutOfBounds,
    TooManyBunnies,
    TooManyFoxes,
    TooManyMushrooms,
    FoxNotNormalized,
    FoxNotConnected,
    FoxNotOnOddLane,
}

#[derive(PartialEq, Eq, Structural)]
pub(crate) enum FoxOrientation {
    Horizontal,
    Vertical,
}

/// Sum of the coordinates of a cell.
pub open spec fn pos_sum(p: (usize, usize)) -> int {
    p.0 + p.1
}

/// The fox with its two cells ordered by coordinate sum (the first cell kept on ties).
pub open spec fn normalized(f: Fox) -> Fox {
    if pos_sum(f.pos1) > pos_sum(f.pos2) {
        Fox { pos1: f.pos2, pos2: f.pos1 }
    } else {
        f
    }
}

/// The coordinate sums of the fox's cells fit in a `usize`.
pub open spec fn summable(f: Fox) -> bool {
    pos_sum(f.pos1) <= usize::MAX && pos_sum(f.pos2) <= usize::MAX
}

/// A fox whose cells share a column stands vertically.
pub open spec fn is_vertical(f: Fox) -> bool {
    f.pos1.0 == f.pos2.0
}

impl Fox {
    /// The same fox with the cell of smaller coordinate sum first.
    pub fn normalize(self) -> (r: Self)
        requires
            summable(self),
        ensures
            r == normalized(self),
            (r.pos1 == self.pos1 && r.pos2 == self.pos2) || (r.pos1 == self.pos2 && r.pos2
                == self.pos1),
            pos_sum(r.pos1) <= pos_sum(r.pos2),
            pos_sum(self.pos1) <= pos_sum(self.pos2) ==> r == self,
            normalized(r) == r,
    {
        let mut f = self;
        if f.pos1.0 + f.pos1.1 > f.pos2.0 + f.pos2.1 {
            let t = f.pos1;
            f.pos1 = f.pos2;
            f.pos2 = t;
        }
        f
    }

    pub(crate) fn orientation(&self) -> (r: FoxOrientation)
        ensures
            (r == FoxOrientation::Vertical) == is_vertical(*self),
    {
        if self.pos1.0 == self.pos2.0 {
            FoxOrientation::Vertical
        } else {
            FoxOrientation::Horizontal
        }
    }
}

} // verus!
