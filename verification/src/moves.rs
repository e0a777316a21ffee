//! Which moves a position allows: bunnies jump over pieces, foxes slide along their lane.
use vstd::prelude::*;
use crate::bits::has_bit;
use crate::board::{Board, BoardModel};
use crate::geometry::is_occupied;
use crate::pieces::{Bunny, Fox, Move, FoxOrientation, InvalidBoardError, normalized, is_vertical};
use crate::geometry::indexable;

verus! {

pub open spec fn in_board(x: int, y: int) -> bool {
    0 <= x < 5 && 0 <= y < 5
}

/// Some piece covers the cell `(x, y)` of the board in occupancy mask `occ`.
pub open spec fn taken(occ: u32, x: int, y: int) -> bool {
    has_bit(occ, (y * 5 + x) as u32)
}

/// One of the four unit steps.
pub open spec fn is_unit(dx: int, dy: int) -> bool {
    (dx == 1 && dy == 0) || (dx == -1 && dy == 0) || (dx == 0 && dy == 1) || (dx == 0 && dy == -1)
}

/// Steps from `(x, y)` in direction `(dx, dy)` until the edge of the board is crossed.
pub open spec fn steps_left(x: int, y: int, dx: int, dy: int) -> int {
    if dx == 1 {
        5 - x
    } else if dx == -1 {
        x + 1
    } else if dy == 1 {
        5 - y
    } else {
        y + 1
    }
}

/// The first free cell from `(x, y)` on in direction `(dx, dy)`, if the board has one.
pub open spec fn landing(occ: u32, x: int, y: int, dx: int, dy: int) -> Option<(int, int)>
    decreases steps_left(x, y, dx, dy),
{
    if !is_unit(dx, dy) || !in_board(x, y) {
        None
    } else if !taken(occ, x, y) {
        Some((x, y))
    } else {
        landing(occ, x + dx, y + dy, dx, dy)
    }
}

/// Where a bunny on `(x, y)` lands jumping in direction `(dx, dy)`: it needs a piece
/// next to it and lands on the first free cell behind the pieces in a row.
pub open spec fn bunny_jump(occ: u32, x: int, y: int, dx: int, dy: int) -> Option<(int, int)> {
    if in_board(x + dx, y + dy) && taken(occ, x + dx, y + dy) {
        landing(occ, x + 2 * dx, y + 2 * dy, dx, dy)
    } else {
        None
    }
}

/// The four directions in the order they are tried: right, up, left, down.
pub open spec fn dir_x(d: int) -> int {
    if d == 0 {
        1
    } else if d == 2 {
        -1
    } else {
        0
    }
}

pub open spec fn dir_y(d: int) -> int {
    if d == 1 {
        1
    } else if d == 3 {
        -1
    } else {
        0
    }
}

pub open spec fn landed_bunny(o: Option<(int, int)>) -> Seq<Bunny> {
    match o {
        Some(c) => seq![Bunny { pos: (c.0 as usize, c.1 as usize) }],
        None => Seq::empty(),
    }
}

/// The bunny's destinations in the first `k` directions.
pub open spec fn bunny_moves_upto(occ: u32, b: Bunny, k: int) -> Seq<Bunny>
    decreases k,
{
    if k <= 0 {
        Seq::empty()
    } else {
        bunny_moves_upto(occ, b, k - 1) + landed_bunny(
            bunny_jump(occ, b.pos.0 as int, b.pos.1 as int, dir_x(k - 1), dir_y(k - 1)),
        )
    }
}

/// Every destination of the bunny, direction by direction.
pub open spec fn bunny_moves(occ: u32, b: Bunny) -> Seq<Bunny> {
    bunny_moves_upto(occ, b, 4)
}

/// The free cells from `(x, y)` on in direction `(dx, dy)` up to the first taken cell.
pub open spec fn slide(occ: u32, x: int, y: int, dx: int, dy: int) -> Seq<(int, int)>
    decreases steps_left(x, y, dx, dy),
{
    if !is_unit(dx, dy) || !in_board(x, y) || taken(occ, x, y) {
        Seq::empty()
    } else {
        seq![(x, y)] + slide(occ, x + dx, y + dy, dx, dy)
    }
}

/// The fox whose leading cell is `(x, y)` after sliding in direction `(dx, dy)`.
pub open spec fn fox_at(c: (int, int), dx: int, dy: int) -> Fox {
    normalized(
        Fox {
            pos1: (c.0 as usize, c.1 as usize),
            pos2: ((c.0 - dx) as usize, (c.1 - dy) as usize),
        },
    )
}

/// The cell a fox slides from: its second cell going right or up, its first otherwise.
pub open spec fn slide_start(f: Fox, dx: int, dy: int) -> (int, int) {
    if dx + dy == 1 {
        (f.pos2.0 as int, f.pos2.1 as int)
    } else {
        (f.pos1.0 as int, f.pos1.1 as int)
    }
}

/// The fox's destinations sliding in direction `(dx, dy)`, nearest first.
pub open spec fn fox_moves_dir(occ: u32, f: Fox, dx: int, dy: int) -> Seq<Fox> {
    let s = slide_start(f, dx, dy);
    slide(occ, s.0 + dx, s.1 + dy, dx, dy).map_values(|c: (int, int)| fox_at(c, dx, dy))
}

/// Every destination of the fox: forward along its lane, then backward.
pub open spec fn fox_moves(occ: u32, f: Fox) -> Seq<Fox> {
    if is_vertical(f) {
        fox_moves_dir(occ, f, 0, 1) + fox_moves_dir(occ, f, 0, -1)
    } else {
        fox_moves_dir(occ, f, 1, 0) + fox_moves_dir(occ, f, -1, 0)
    }
}

pub open spec fn bunny_part(occ: u32, s: Seq<Bunny>) -> Seq<Move>
    decreases s.len(),
{
    if s.len() == 0 {
        Seq::empty()
    } else {
        bunny_part(occ, s.drop_last()) + bunny_moves(occ, s.last()).map_values(
            |t: Bunny| Move::Bunny { from: s.last(), to: t },
        )
    }
}

pub open spec fn fox_part(occ: u32, s: Seq<Fox>) -> Seq<Move>
    decreases s.len(),
{
    if s.len() == 0 {
        Seq::empty()
    } else {
        fox_part(occ, s.drop_last()) + fox_moves(occ, s.last()).map_values(
            |t: Fox| Move::Fox { from: s.last(), to: t },
        )
    }
}

/// A coordinate that converts to `isize` and can take one step.
pub open spec fn steppable(p: (usize, usize)) -> bool {
    (p.0 as int) < isize::MAX && (p.1 as int) < isize::MAX
}

impl BoardModel {
    /// Every move of the position: bunny by bunny, then fox by fox.
    pub open spec fn all_moves(self) -> Seq<Move> {
        bunny_part(self.occupancy(), self.bunnies) + fox_part(self.occupancy(), self.foxes)
    }
}

fn direction(d: usize) -> (r: (isize, isize))
    requires
        d < 4,
    ensures
        r.0 == dir_x(d as int),
        r.1 == dir_y(d as int),
        is_unit(r.0 as int, r.1 as int),
{
    if d == 0 {
        (1, 0)
    } else if d == 1 {
        (0, 1)
    } else if d == 2 {
        (-1, 0)
    } else {
        (0, -1)
    }
}

fn taken_at(occupied: u32, x: isize, y: isize) -> (r: bool)
    requires
        in_board(x as int, y as int),
    ensures
        r == taken(occupied, x as int, y as int),
{
    is_occupied(occupied, (x as usize, y as usize))
}

impl Board {
    /// Where the bunny can jump, given the occupancy of the board.
    pub(crate) fn get_possible_bunny_moves_with_occupancy(&self, bunny: &Bunny, occupied: u32) -> (r:
        Vec<Bunny>)
        requires
            steppable(bunny.pos),
        ensures
            r@ == bunny_moves(occupied, *bunny),
    {
        let mut moves: Vec<Bunny> = Vec::new();
        let bx = bunny.pos.0 as isize;
        let by = bunny.pos.1 as isize;
        let mut d: usize = 0;
        while d < 4
            invariant
                d <= 4,
                bx == bunny.pos.0,
                by == bunny.pos.1,
                steppable(bunny.pos),
                moves@ == bunny_moves_upto(occupied, *bunny, d as int),
            decreases 4 - d,
        {
            let (dx, dy) = direction(d);
            let ghost jump = bunny_jump(occupied, bx as int, by as int, dx as int, dy as int);
            let mut x = bx + dx;
            let mut y = by + dy;
            if !(y < 0 || y >= 5 || x < 0 || x >= 5) && taken_at(occupied, x, y) {
                x = x + dx;
                y = y + dy;
                loop
                    invariant_except_break
                        moves@ == bunny_moves_upto(occupied, *bunny, d as int),
                    invariant
                        is_unit(dx as int, dy as int),
                        -1 <= x <= 5,
                        -1 <= y <= 5,
                        landing(occupied, x as int, y as int, dx as int, dy as int) == jump,
                    ensures
                        moves@ == bunny_moves_upto(occupied, *bunny, d as int) + landed_bunny(
                            jump,
                        ),
                    decreases steps_left(x as int, y as int, dx as int, dy as int),
                {
                    if y < 0 || y >= 5 || x < 0 || x >= 5 {
                        break;
                    }
                    if taken_at(occupied, x, y) {
                        x = x + dx;
                        y = y + dy;
                    } else {
                        moves.push(Bunny { pos: (x as usize, y as usize) });
                        break;
                    }
                }
            }
            assert(moves@ =~= bunny_moves_upto(occupied, *bunny, d + 1));
            d = d + 1;
        }
        moves
    }

    /// Where the fox can slide, given the occupancy of the board.
    pub(crate) fn get_possible_fox_moves_with_occupancy(&self, fox: &Fox, occupied: u32) -> (r: Vec<
        Fox,
    >)
        requires
            steppable(fox.pos1),
            steppable(fox.pos2),
        ensures
            r@ == fox_moves(occupied, *fox),
    {
        let mut moves: Vec<Fox> = Vec::new();
        let vertical = match fox.orientation() {
            FoxOrientation::Horizontal => false,
            FoxOrientation::Vertical => true,
        };
        let mut k: usize = 0;
        while k < 2
            invariant
                k <= 2,
                vertical == is_vertical(*fox),
                steppable(fox.pos1),
                steppable(fox.pos2),
                k == 0 ==> moves@ == Seq::<Fox>::empty(),
                k == 1 ==> moves@ == (if vertical {
                    fox_moves_dir(occupied, *fox, 0, 1)
                } else {
                    fox_moves_dir(occupied, *fox, 1, 0)
                }),
                k == 2 ==> moves@ == fox_moves(occupied, *fox),
            decreases 2 - k,
        {
            let (dx, dy): (isize, isize) = if vertical {
                if k == 0 {
                    (0, 1)
                } else {
                    (0, -1)
                }
            } else {
                if k == 0 {
                    (1, 0)
                } else {
                    (-1, 0)
                }
            };
            let ghost start = slide_start(*fox, dx as int, dy as int);
            let ghost all = slide(
                occupied,
                start.0 + dx,
                start.1 + dy,
                dx as int,
                dy as int,
            );
            let ghost prefix = moves@;
            let mut pos: (isize, isize) = if dx + dy == 1 {
                (fox.pos2.0 as isize, fox.pos2.1 as isize)
            } else {
                (fox.pos1.0 as isize, fox.pos1.1 as isize)
            };
            pos = (pos.0 + dx, pos.1 + dy);
            let ghost mut done: int = 0;
            loop
                invariant
                    is_unit(dx as int, dy as int),
                    -1 <= pos.0 <= isize::MAX,
                    -1 <= pos.1 <= isize::MAX,
                    pos.0 - dx >= 0,
                    pos.1 - dy >= 0,
                    0 <= done <= all.len(),
                    slide(occupied, pos.0 as int, pos.1 as int, dx as int, dy as int) == all.skip(
                        done,
                    ),
                    moves@ == prefix + all.take(done).map_values(
                        |c: (int, int)| fox_at(c, dx as int, dy as int),
                    ),
                ensures
                    moves@ == prefix + all.map_values(
                        |c: (int, int)| fox_at(c, dx as int, dy as int),
                    ),
                decreases steps_left(pos.0 as int, pos.1 as int, dx as int, dy as int),
            {
                if pos.1 < 0 || pos.1 >= 5 || pos.0 < 0 || pos.0 >= 5 {
                    assert(all.skip(done).len() == 0);
                    assert(all.take(done) =~= all);
                    break;
                }
                if taken_at(occupied, pos.0, pos.1) {
                    assert(all.skip(done).len() == 0);
                    assert(all.take(done) =~= all);
                    break;
                } else {
                    let f = Fox {
                        pos1: (pos.0 as usize, pos.1 as usize),
                        pos2: ((pos.0 - dx) as usize, (pos.1 - dy) as usize),
                    }.normalize();
                    proof {
                        let rest = all.skip(done);
                        assert(rest.len() > 0);
                        assert(rest[0] == (pos.0 as int, pos.1 as int));
                        assert(all[done] == rest[0]);
                        assert(all.take(done + 1) =~= all.take(done).push(all[done]));
                        assert(all.skip(done + 1) =~= rest.drop_first());
                        assert(rest.drop_first() =~= slide(
                            occupied,
                            pos.0 + dx,
                            pos.1 + dy,
                            dx as int,
                            dy as int,
                        ));
                        done = done + 1;
                    }
                    moves.push(f);
                    assert(moves@ =~= prefix + all.take(done).map_values(
                        |c: (int, int)| fox_at(c, dx as int, dy as int),
                    ));
                }
                pos = (pos.0 + dx, pos.1 + dy);
            }
            assert(moves@ =~= prefix + fox_moves_dir(occupied, *fox, dx as int, dy as int));
            proof {
                if k == 0 {
                    assert(moves@ =~= fox_moves_dir(occupied, *fox, dx as int, dy as int));
                }
            }
            k = k + 1;
        }
        moves
    }

    /// Where the bunny can jump on this board.
    pub fn get_possible_bunny_moves(&self, bunny: &Bunny) -> (r: Vec<Bunny>)
        requires
            self@.indexable(),
            steppable(bunny.pos),
        ensures
            r@ == bunny_moves(self@.occupancy(), *bunny),
    {
        self.get_possible_bunny_moves_with_occupancy(bunny, self.occupied_mask())
    }

    /// Where the fox can slide on this board.
    pub fn get_possible_fox_moves(&self, fox: &Fox) -> (r: Vec<Fox>)
        requires
            self@.indexable(),
            steppable(fox.pos1),
            steppable(fox.pos2),
        ensures
            r@ == fox_moves(self@.occupancy(), *fox),
    {
        self.get_possible_fox_moves_with_occupancy(fox, self.occupied_mask())
    }
}

impl BoardModel {
    /// Every move the position generates can be made.
    pub open spec fn moves_succeed(self) -> bool {
        forall|i: int| 0 <= i < self.all_moves().len() ==> (#[trigger] self.apply(self.all_moves()[i])) is Ok
    }

    /// Some move the position generates leads to a board with the same pieces as `target`.
    pub open spec fn reaches(self, target: BoardModel) -> bool {
        exists|i: int|
            0 <= i < self.all_moves().len() && ((#[trigger] self.apply(self.all_moves()[i])) matches Ok(
                b,
            ) && b.same_pieces(target))
    }
}

impl Board {
    /// Every move of the position, bunny by bunny, then fox by fox.
    pub fn get_all_moves(&self) -> (r: Vec<Move>)
        requires
            self@.indexable(),
        ensures
            r@ == self@.all_moves(),
    {
        let ghost m = self@;
        let occupied = self.occupied_mask();
        let mut moves: Vec<Move> = Vec::new();
        let mut i: usize = 0;
        while i < self.bunnies.len()
            invariant
                m == self@,
                m.indexable(),
                occupied == m.occupancy(),
                i <= self.bunnies.len(),
                moves@ == bunny_part(occupied, self.bunnies@.take(i as int)),
            decreases self.bunnies.len() - i,
        {
            let bun = self.bunnies[i];
            proof {
                assert(indexable(m.bunnies[i as int].pos));
            }
            let targets = self.get_possible_bunny_moves_with_occupancy(&bun, occupied);
            let ghost before = moves@;
            let mut j: usize = 0;
            while j < targets.len()
                invariant
                    j <= targets.len(),
                    moves@ == before + targets@.take(j as int).map_values(
                        |t: Bunny| Move::Bunny { from: bun, to: t },
                    ),
                decreases targets.len() - j,
            {
                moves.push(Move::Bunny { from: bun, to: targets[j] });
                j = j + 1;
                assert(moves@ =~= before + targets@.take(j as int).map_values(
                    |t: Bunny| Move::Bunny { from: bun, to: t },
                ));
            }
            proof {
                assert(targets@.take(j as int) =~= targets@);
                assert(self.bunnies@.take(i + 1).drop_last() =~= self.bunnies@.take(i as int));
            }
            i = i + 1;
        }
        assert(self.bunnies@.take(i as int) =~= self.bunnies@);
        let ghost bpart = moves@;
        let mut i: usize = 0;
        while i < self.foxes.len()
            invariant
                m == self@,
                m.indexable(),
                occupied == m.occupancy(),
                i <= self.foxes.len(),
                bpart == bunny_part(occupied, self.bunnies@),
                moves@ == bpart + fox_part(occupied, self.foxes@.take(i as int)),
            decreases self.foxes.len() - i,
        {
            let fox = self.foxes[i];
            proof {
                assert(indexable(m.foxes[i as int].pos1));
                assert(indexable(m.foxes[i as int].pos2));
            }
            let targets = self.get_possible_fox_moves_with_occupancy(&fox, occupied);
            let ghost before = moves@;
            let mut j: usize = 0;
            while j < targets.len()
                invariant
                    j <= targets.len(),
                    moves@ == before + targets@.take(j as int).map_values(
                        |t: Fox| Move::Fox { from: fox, to: t },
                    ),
                decreases targets.len() - j,
            {
                moves.push(Move::Fox { from: fox, to: targets[j] });
                j = j + 1;
                assert(moves@ =~= before + targets@.take(j as int).map_values(
                    |t: Fox| Move::Fox { from: fox, to: t },
                ));
            }
            proof {
                assert(targets@.take(j as int) =~= targets@);
                assert(self.foxes@.take(i + 1).drop_last() =~= self.foxes@.take(i as int));
                assert(moves@ =~= bpart + fox_part(occupied, self.foxes@.take(i + 1)));
            }
            i = i + 1;
        }
        assert(self.foxes@.take(i as int) =~= self.foxes@);
        moves
    }

    /// The board after each move of the position, in the order of the moves.
    pub fn get_all_possible_moves(&self) -> (r: Vec<Board>)
        requires
            self@.indexable(),
            self@.moves_succeed(),
        ensures
            r.len() == self@.all_moves().len(),
            forall|i: int|
                0 <= i < r.len() ==> self@.apply(self@.all_moves()[i]) == Ok::<
                    BoardModel,
                    InvalidBoardError,
                >(#[trigger] r[i]@),
    {
        let moves = self.get_all_moves();
        let mut boards: Vec<Board> = Vec::new();
        let mut i: usize = 0;
        while i < moves.len()
            invariant
                self@.indexable(),
                self@.moves_succeed(),
                moves@ == self@.all_moves(),
                i <= moves.len(),
                boards.len() == i,
                forall|k: int|
                    0 <= k < i ==> self@.apply(self@.all_moves()[k]) == Ok::<
                        BoardModel,
                        InvalidBoardError,
                    >(#[trigger] boards[k]@),
            decreases moves.len() - i,
        {
            let r = self.apply_move(&moves[i]);
            proof {
                assert(self@.apply(self@.all_moves()[i as int]) is Ok);
            }
            match r {
                Ok(b) => {
                    boards.push(b);
                },
                Err(_) => {
                    proof {
                        assert(false);
                    }
                },
            }
            i = i + 1;
        }
        boards
    }

    /// Whether one move leads from this board to a board with the same pieces as `target`.
    pub fn can_move_to(&self, target: &Board) -> (r: bool)
        requires
            self@.indexable(),
            self@.moves_succeed(),
        ensures
            r == self@.reaches(target@),
    {
        let boards = self.get_all_possible_moves();
        let mut i: usize = 0;
        while i < boards.len()
            invariant
                i <= boards.len(),
                boards.len() == self@.all_moves().len(),
                forall|k: int|
                    0 <= k < boards.len() ==> self@.apply(self@.all_moves()[k]) == Ok::<
                        BoardModel,
                        InvalidBoardError,
                    >(#[trigger] boards[k]@),
                forall|k: int| 0 <= k < i ==> !(#[trigger] boards[k]@).same_pieces(target@),
            decreases boards.len() - i,
        {
            if boards[i] == *target {
                assert(self@.apply(self@.all_moves()[i as int]) == Ok::<
                    BoardModel,
                    InvalidBoardError,
                >(boards[i as int]@));
                return true;
            }
            i = i + 1;
        }
        proof {
            assert forall|k: int| 0 <= k < self@.all_moves().len() implies !((
            #[trigger] self@.apply(self@.all_moves()[k])) matches Ok(b) && b.same_pieces(
                target@,
            )) by {
                assert(self@.apply(self@.all_moves()[k]) == Ok::<
                    BoardModel,
                    InvalidBoardError,
                >(boards[k]@));
            }
        }
        false
    }
}

} // verus!
