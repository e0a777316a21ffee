//! A position of the game: where the bunnies, foxes and mushrooms stand.
use vstd::prelude::*;
use crate::bits::{has_bit, lemma_or_single};
use crate::geometry::{cell_index, indexable, mask_of, position_mask, is_occupied};
use crate::pieces::{Bunny, Fox, Mushroom, Move, InvalidBoardError};
use crate::order::{copy_vec, copy_without};

verus! {

/// A position of the game.
#[derive(Debug)]
pub struct Board {
    pub bunnies: Vec<Bunny>,
    pub foxes: Vec<Fox>,
    pub mushrooms: Vec<Mushroom>,
}

/// The pieces of a board, in the order the board lists them.
pub struct BoardModel {
    pub bunnies: Seq<Bunny>,
    pub foxes: Seq<Fox>,
    pub mushrooms: Seq<Mushroom>,
}

impl View for Board {
    type V = BoardModel;

    open spec fn view(&self) -> BoardModel {
        BoardModel { bunnies: self.bunnies@, foxes: self.foxes@, mushrooms: self.mushrooms@ }
    }
}

/// `s` without any element equal to `x`, the others kept in order.
pub open spec fn without<A>(s: Seq<A>, x: A) -> Seq<A>
    decreases s.len(),
{
    if s.len() == 0 {
        s
    } else if s.last() == x {
        without(s.drop_last(), x)
    } else {
        without(s.drop_last(), x).push(s.last())
    }
}

pub open spec fn bunny_cells(s: Seq<Bunny>) -> Seq<(usize, usize)> {
    s.map_values(|b: Bunny| b.pos)
}

pub open spec fn mushroom_cells(s: Seq<Mushroom>) -> Seq<(usize, usize)> {
    s.map_values(|m: Mushroom| m.pos)
}

/// The two cells of each fox, fox by fox.
pub open spec fn fox_cells(s: Seq<Fox>) -> Seq<(usize, usize)>
    decreases s.len(),
{
    if s.len() == 0 {
        Seq::empty()
    } else {
        fox_cells(s.drop_last()).push(s.last().pos1).push(s.last().pos2)
    }
}

/// `acc` with the bits of the cells `ps` set, one cell after the other.
pub open spec fn bits_of(acc: u32, ps: Seq<(usize, usize)>) -> u32
    decreases ps.len(),
{
    if ps.len() == 0 {
        acc
    } else {
        bits_of(acc, ps.drop_last()) | mask_of(ps.last())
    }
}

pub open spec fn all_indexable(ps: Seq<(usize, usize)>) -> bool {
    forall|j: int| 0 <= j < ps.len() ==> indexable(#[trigger] ps[j])
}

/// Some cell of `ps` has index `i`.
pub open spec fn covers(ps: Seq<(usize, usize)>, i: int) -> bool {
    exists|j: int| 0 <= j < ps.len() && cell_index(#[trigger] ps[j]) == i
}

/// The winning cells: the four holes in the corners and the one in the centre.
pub open spec fn is_hole(p: (usize, usize)) -> bool {
    p == (0usize, 0usize) || p == (0usize, 4usize) || p == (2usize, 2usize) || p == (4usize, 0usize)
        || p == (4usize, 4usize)
}

impl BoardModel {
    /// Every occupied cell, bunnies first, then foxes, then mushrooms.
    pub open spec fn cells(self) -> Seq<(usize, usize)> {
        bunny_cells(self.bunnies) + fox_cells(self.foxes) + mushroom_cells(self.mushrooms)
    }

    /// Every piece stands on cells whose bits fit in the occupancy mask.
    pub open spec fn indexable(self) -> bool {
        &&& forall|j: int| 0 <= j < self.bunnies.len() ==> indexable(#[trigger] self.bunnies[j].pos)
        &&& forall|j: int|
            0 <= j < self.foxes.len() ==> indexable(#[trigger] self.foxes[j].pos1) && indexable(
                self.foxes[j].pos2,
            )
        &&& forall|j: int|
            0 <= j < self.mushrooms.len() ==> indexable(#[trigger] self.mushrooms[j].pos)
    }

    /// The occupancy mask, built bunnies first, then foxes, then mushrooms.
    pub open spec fn occupancy(self) -> u32 {
        bits_of(
            bits_of(bits_of(0, bunny_cells(self.bunnies)), fox_cells(self.foxes)),
            mushroom_cells(self.mushrooms),
        )
    }

    /// The cell's bit is set in the occupancy mask.
    pub open spec fn filled(self, pos: (usize, usize)) -> bool {
        has_bit(self.occupancy(), cell_index(pos) as u32)
    }

    pub open spec fn with_bunny(self, b: Bunny) -> BoardModel {
        BoardModel { bunnies: self.bunnies.push(b), ..self }
    }

    pub open spec fn with_fox(self, f: Fox) -> BoardModel {
        BoardModel { foxes: self.foxes.push(f), ..self }
    }

    pub open spec fn with_mushroom(self, m: Mushroom) -> BoardModel {
        BoardModel { mushrooms: self.mushrooms.push(m), ..self }
    }

    /// The verdict on placing a bunny (or a mushroom) on `pos`.
    pub open spec fn single_placement(self, pos: (usize, usize)) -> Result<(), InvalidBoardError> {
        if pos.0 >= 5 || pos.1 >= 5 {
            Err(InvalidBoardError::OutOfBounds)
        } else if self.filled(pos) {
            Err(InvalidBoardError::InvalidPosition)
        } else {
            Ok(())
        }
    }

    /// The verdict on placing a fox on `pos1` and `pos2`, checks in order.
    pub open spec fn fox_placement(self, pos1: (usize, usize), pos2: (usize, usize)) -> Result<
        (),
        InvalidBoardError,
    > {
        let dx = crate::geometry::abs(pos1.0 - pos2.0);
        let dy = crate::geometry::abs(pos1.1 - pos2.1);
        if pos1.0 >= 5 || pos1.1 >= 5 || pos2.0 >= 5 || pos2.1 >= 5 {
            Err(InvalidBoardError::OutOfBounds)
        } else if self.filled(pos1) || self.filled(pos2) {
            Err(InvalidBoardError::InvalidPosition)
        } else if (dx != 1 && dy == 0) || (dy != 1 && dx == 0) {
            Err(InvalidBoardError::FoxNotConnected)
        } else if (pos1.0 % 2 == 0 && pos1.1 % 2 == 0) || (pos2.0 % 2 == 0 && pos2.1 % 2 == 0) {
            Err(InvalidBoardError::FoxNotOnOddLane)
        } else if pos1.0 + pos1.1 > pos2.0 + pos2.1 {
            Err(InvalidBoardError::FoxNotNormalized)
        } else {
            Ok(())
        }
    }

    /// The board after adding a bunny, or the reason it cannot stand there.
    pub open spec fn add_bunny(self, b: Bunny) -> Result<BoardModel, InvalidBoardError> {
        match self.single_placement(b.pos) {
            Ok(_) => Ok(self.with_bunny(b)),
            Err(e) => Err(e),
        }
    }

    pub open spec fn add_mushroom(self, m: Mushroom) -> Result<BoardModel, InvalidBoardError> {
        match self.single_placement(m.pos) {
            Ok(_) => Ok(self.with_mushroom(m)),
            Err(e) => Err(e),
        }
    }

    pub open spec fn add_fox(self, f: Fox) -> Result<BoardModel, InvalidBoardError> {
        match self.fox_placement(f.pos1, f.pos2) {
            Ok(_) => Ok(self.with_fox(f)),
            Err(e) => Err(e),
        }
    }

    /// Exactly three bunnies, each in a hole.
    pub open spec fn wins(self) -> bool {
        self.bunnies.len() == 3 && forall|j: int|
            0 <= j < self.bunnies.len() ==> is_hole(#[trigger] self.bunnies[j].pos)
    }

    pub open spec fn is_empty(self) -> bool {
        self.bunnies.len() == 0 && self.foxes.len() == 0 && self.mushrooms.len() == 0
    }
}

/// The game is won exactly when the board holds three bunnies and each of them sits in
/// one of the five holes: the four corners and the centre. A board with any other
/// number of bunnies is never won.
pub proof fn lemma_win_rule(m: BoardModel)
    ensures
        m.wins() == (m.bunnies.len() == 3 && forall|j: int|
            0 <= j < m.bunnies.len() ==> {
                let p = (#[trigger] m.bunnies[j]).pos;
                p == (0usize, 0usize) || p == (0usize, 4usize) || p == (2usize, 2usize) || p == (
                4usize,
                0usize,
            ) || p == (4usize, 4usize)
            }),
        m.bunnies.len() != 3 ==> !m.wins(),
{
}

/// What placing a fox demands, and which refusal each broken rule gives. A fox is
/// placed only on two free cells of the board that are neighbours in the row or column
/// they share (cells in neither the same row nor the same column pass this rule), with
/// no cell on two even coordinates and the cell of smaller coordinate sum first. Two
/// free cells of the board in one row that are not neighbouring columns, or in one
/// column that are not neighbouring rows, are refused as not connected.
pub proof fn lemma_fox_placement_rules(m: BoardModel, p1: (usize, usize), p2: (usize, usize))
    ensures
        m.fox_placement(p1, p2) is Ok ==> {
            &&& p1.0 < 5 && p1.1 < 5 && p2.0 < 5 && p2.1 < 5
            &&& !m.filled(p1) && !m.filled(p2)
            &&& p1.1 == p2.1 ==> (p1.0 + 1 == p2.0 || p2.0 + 1 == p1.0)
            &&& p1.0 == p2.0 ==> (p1.1 + 1 == p2.1 || p2.1 + 1 == p1.1)
            &&& !(p1.0 % 2 == 0 && p1.1 % 2 == 0)
            &&& !(p2.0 % 2 == 0 && p2.1 % 2 == 0)
            &&& p1.0 + p1.1 <= p2.0 + p2.1
        },
        p1.0 < 5 && p1.1 < 5 && p2.0 < 5 && p2.1 < 5 && !m.filled(p1) && !m.filled(p2) && ((p1.1
            == p2.1 && p1.0 + 1 != p2.0 && p2.0 + 1 != p1.0) || (p1.0 == p2.0 && p1.1 + 1 != p2.1
            && p2.1 + 1 != p1.1)) ==> m.fox_placement(p1, p2) == Err::<(), InvalidBoardError>(
            InvalidBoardError::FoxNotConnected,
        ),
        !(p1.0 < 5 && p1.1 < 5 && p2.0 < 5 && p2.1 < 5) ==> m.fox_placement(p1, p2) == Err::<
            (),
            InvalidBoardError,
        >(InvalidBoardError::OutOfBounds),
{
}

pub proof fn lemma_or_assoc(a: u32, b: u32, c: u32)
    ensures
        a | (b | c) == (a | b) | c,
{
    assert(a | (b | c) == (a | b) | c) by (bit_vector);
}

/// The bits set by `bits_of` are those of `acc` and of the cells.
pub proof fn lemma_bits_of(acc: u32, ps: Seq<(usize, usize)>, i: u32)
    requires
        all_indexable(ps),
        i < 32,
    ensures
        has_bit(bits_of(acc, ps), i) == (has_bit(acc, i) || covers(ps, i as int)),
    decreases ps.len(),
{
    if ps.len() > 0 {
        let rest = ps.drop_last();
        assert(all_indexable(rest)) by {
            assert forall|j: int| 0 <= j < rest.len() implies indexable(#[trigger] rest[j]) by {
                assert(rest[j] == ps[j]);
            }
        }
        lemma_bits_of(acc, rest, i);
        let k = cell_index(ps.last()) as u32;
        assert(indexable(ps[ps.len() - 1]));
        lemma_or_single(bits_of(acc, rest), k, i);
        if covers(ps, i as int) {
            let j = choose|j: int| 0 <= j < ps.len() && cell_index(#[trigger] ps[j]) == i;
            if j < ps.len() - 1 {
                assert(rest[j] == ps[j]);
            }
        }
        if covers(rest, i as int) {
            let j = choose|j: int| 0 <= j < rest.len() && cell_index(#[trigger] rest[j]) == i;
            assert(ps[j] == rest[j]);
        }
    }
}

impl Board {
    /// The empty board.
    pub fn new() -> (b: Self)
        ensures
            b@.is_empty(),
    {
        Board { bunnies: Vec::new(), foxes: Vec::new(), mushrooms: Vec::new() }
    }

    /// Whether no piece stands on the board.
    pub fn is_empty(&self) -> (r: bool)
        ensures
            r == self@.is_empty(),
    {
        self.bunnies.len() == 0 && self.foxes.len() == 0 && self.mushrooms.len() == 0
    }

    pub(crate) fn occupied_mask(&self) -> (r: u32)
        requires
            self@.indexable(),
        ensures
            r == self@.occupancy(),
    {
        let ghost m = self@;
        let mut occupied: u32 = 0;
        let mut i: usize = 0;
        while i < self.bunnies.len()
            invariant
                m == self@,
                m.indexable(),
                i <= self.bunnies.len(),
                occupied == bits_of(0, bunny_cells(self.bunnies@.take(i as int))),
            decreases self.bunnies.len() - i,
        {
            let pos = self.bunnies[i].pos;
            proof {
                assert(indexable(m.bunnies[i as int].pos));
                assert(bunny_cells(self.bunnies@.take(i + 1)).drop_last() =~= bunny_cells(
                    self.bunnies@.take(i as int),
                ));
            }
            occupied = occupied | position_mask(pos);
            i = i + 1;
        }
        assert(self.bunnies@.take(i as int) =~= self.bunnies@);
        let ghost nb = bunny_cells(self.bunnies@).len();
        let mut i: usize = 0;
        while i < self.foxes.len()
            invariant
                m == self@,
                m.indexable(),
                nb == bunny_cells(self.bunnies@).len(),
                i <= self.foxes.len(),
                fox_cells(self.foxes@.take(i as int)).len() == 2 * i,
                fox_cells(self.foxes@.take(i as int)) =~= fox_cells(self.foxes@).take(2 * i),
                occupied == bits_of(
                    bits_of(0, bunny_cells(self.bunnies@)),
                    fox_cells(self.foxes@.take(i as int)),
                ),
            decreases self.foxes.len() - i,
        {
            let fox = self.foxes[i];
            proof {
                assert(indexable(m.foxes[i as int].pos1));
                lemma_fox_cells_take(self.foxes@, i as int);
                let prev = fox_cells(self.foxes@.take(i as int));
                assert(self.foxes@.take(i + 1).drop_last() =~= self.foxes@.take(i as int));
                assert(self.foxes@.take(i + 1).last() == fox);
                assert(fox_cells(self.foxes@.take(i + 1)) == prev.push(fox.pos1).push(fox.pos2));
                assert(prev.push(fox.pos1).push(fox.pos2).drop_last() =~= prev.push(fox.pos1));
                assert(prev.push(fox.pos1).drop_last() =~= prev);
                lemma_or_assoc(occupied, mask_of(fox.pos1), mask_of(fox.pos2));
            }
            let ghost before = occupied;
            occupied = occupied | (position_mask(fox.pos1) | position_mask(fox.pos2));
            proof {
                let base = bits_of(0, bunny_cells(self.bunnies@));
                let prev = fox_cells(self.foxes@.take(i as int));
                assert(bits_of(base, prev.push(fox.pos1)) == before | mask_of(fox.pos1));
                assert(bits_of(base, prev.push(fox.pos1).push(fox.pos2)) == (before | mask_of(
                    fox.pos1,
                )) | mask_of(fox.pos2));
            }
            i = i + 1;
            proof {
                lemma_fox_cells_take(self.foxes@, i as int);
            }
        }
        assert(self.foxes@.take(i as int) =~= self.foxes@);
        let ghost nf = fox_cells(self.foxes@).len();
        let mut i: usize = 0;
        while i < self.mushrooms.len()
            invariant
                m == self@,
                m.indexable(),
                nb == bunny_cells(self.bunnies@).len(),
                nf == fox_cells(self.foxes@).len(),
                i <= self.mushrooms.len(),
                occupied == bits_of(
                    bits_of(bits_of(0, bunny_cells(self.bunnies@)), fox_cells(self.foxes@)),
                    mushroom_cells(self.mushrooms@.take(i as int)),
                ),
            decreases self.mushrooms.len() - i,
        {
            let pos = self.mushrooms[i].pos;
            proof {
                assert(indexable(m.mushrooms[i as int].pos));
                assert(mushroom_cells(self.mushrooms@.take(i + 1)).drop_last() =~= mushroom_cells(
                    self.mushrooms@.take(i as int),
                ));
            }
            occupied = occupied | position_mask(pos);
            i = i + 1;
        }
        assert(self.mushrooms@.take(i as int) =~= self.mushrooms@);
        occupied
    }

    /// Whether some piece covers the cell.
    pub fn is_position_filled(&self, pos: (usize, usize)) -> (r: bool)
        requires
            self@.indexable(),
            indexable(pos),
        ensures
            r == self@.filled(pos),
    {
        is_occupied(self.occupied_mask(), pos)
    }

    /// Whether a bunny may be placed on `pos`.
    pub fn is_bunny_placement_position_valid(&self, pos: (usize, usize)) -> (r: Result<
        (),
        InvalidBoardError,
    >)
        requires
            self@.indexable(),
        ensures
            r == self@.single_placement(pos),
    {
        if pos.0 >= 5 || pos.1 >= 5 {
            return Err(InvalidBoardError::OutOfBounds);
        }
        if self.is_position_filled(pos) {
            return Err(InvalidBoardError::InvalidPosition);
        }
        Ok(())
    }

    /// Whether a mushroom may be placed on `pos`.
    pub fn is_mushroom_placement_position_valid(&self, pos: (usize, usize)) -> (r: Result<
        (),
        InvalidBoardError,
    >)
        requires
            self@.indexable(),
        ensures
            r == self@.single_placement(pos),
    {
        if pos.0 >= 5 || pos.1 >= 5 {
            return Err(InvalidBoardError::OutOfBounds);
        }
        if self.is_position_filled(pos) {
            return Err(InvalidBoardError::InvalidPosition);
        }
        Ok(())
    }

    /// Whether a fox may be placed on `pos1` and `pos2`.
    pub fn is_fox_placement_position_valid(&self, pos1: (usize, usize), pos2: (usize, usize)) -> (r:
        Result<(), InvalidBoardError>)
        requires
            self@.indexable(),
        ensures
            r == self@.fox_placement(pos1, pos2),
    {
        if pos1.0 >= 5 || pos1.1 >= 5 || pos2.0 >= 5 || pos2.1 >= 5 {
            return Err(InvalidBoardError::OutOfBounds);
        }
        if self.is_position_filled(pos1) || self.is_position_filled(pos2) {
            return Err(InvalidBoardError::InvalidPosition);
        }
        let dx = if pos1.0 >= pos2.0 {
            pos1.0 - pos2.0
        } else {
            pos2.0 - pos1.0
        };
        let dy = if pos1.1 >= pos2.1 {
            pos1.1 - pos2.1
        } else {
            pos2.1 - pos1.1
        };
        if dx != 1 && dy == 0 || dy != 1 && dx == 0 {
            return Err(InvalidBoardError::FoxNotConnected);
        }
        if pos1.0 % 2 == 0 && pos1.1 % 2 == 0 || pos2.0 % 2 == 0 && pos2.1 % 2 == 0 {
            return Err(InvalidBoardError::FoxNotOnOddLane);
        }
        if pos1.0 + pos1.1 > pos2.0 + pos2.1 {
            return Err(InvalidBoardError::FoxNotNormalized);
        }
        Ok(())
    }

    /// Places a bunny, if its cell is on the board and free.
    pub fn add_bunny(&mut self, bunny: Bunny) -> (r: Result<(), InvalidBoardError>)
        requires
            old(self)@.indexable(),
        ensures
            r == old(self)@.single_placement(bunny.pos),
            r is Ok ==> final(self)@ == old(self)@.with_bunny(bunny),
            r is Err ==> final(self)@ == old(self)@,
    {
        self.is_bunny_placement_position_valid(bunny.pos)?;
        self.bunnies.push(bunny);
        Ok(())
    }

    /// Places a fox, if it passes the placement checks.
    pub fn add_fox(&mut self, fox: Fox) -> (r: Result<(), InvalidBoardError>)
        requires
            old(self)@.indexable(),
        ensures
            r == old(self)@.fox_placement(fox.pos1, fox.pos2),
            r is Ok ==> final(self)@ == old(self)@.with_fox(fox),
            r is Err ==> final(self)@ == old(self)@,
    {
        self.is_fox_placement_position_valid(fox.pos1, fox.pos2)?;
        self.foxes.push(fox);
        Ok(())
    }

    /// Places a mushroom, if its cell is on the board and free.
    pub fn add_mushroom(&mut self, mushroom: Mushroom) -> (r: Result<(), InvalidBoardError>)
        requires
            old(self)@.indexable(),
        ensures
            r == old(self)@.single_placement(mushroom.pos),
            r is Ok ==> final(self)@ == old(self)@.with_mushroom(mushroom),
            r is Err ==> final(self)@ == old(self)@,
    {
        self.is_mushroom_placement_position_valid(mushroom.pos)?;
        self.mushrooms.push(mushroom);
        Ok(())
    }

    /// Exactly three bunnies, all of them in holes.
    pub fn is_in_win_state(&self) -> (r: bool)
        ensures
            r == self@.wins(),
    {
        if self.bunnies.len() != 3 {
            return false;
        }
        let mut i: usize = 0;
        while i < self.bunnies.len()
            invariant
                i <= self.bunnies.len(),
                forall|j: int| 0 <= j < i ==> is_hole(#[trigger] self.bunnies@[j].pos),
            decreases self.bunnies.len() - i,
        {
            let p = self.bunnies[i].pos;
            let hole = (p.0 == 0 && p.1 == 0) || (p.0 == 0 && p.1 == 4) || (p.0 == 2 && p.1 == 2)
                || (p.0 == 4 && p.1 == 0) || (p.0 == 4 && p.1 == 4);
            if !hole {
                return false;
            }
            i = i + 1;
        }
        true
    }
}

pub proof fn lemma_fox_cells_take(s: Seq<Fox>, i: int)
    requires
        0 <= i <= s.len(),
    ensures
        fox_cells(s.take(i)).len() == 2 * i,
        fox_cells(s).len() == 2 * s.len(),
        fox_cells(s.take(i)) =~= fox_cells(s).take(2 * i),
        forall|j: int|
            0 <= j < s.len() ==> fox_cells(s)[2 * j] == #[trigger] s[j].pos1 && fox_cells(s)[2 * j
                + 1] == s[j].pos2,
    decreases s.len(),
{
    if s.len() > 0 {
        let r = s.drop_last();
        if i == s.len() {
            assert(s.take(i) =~= s);
            lemma_fox_cells_take(r, r.len() as int);
        } else {
            assert(s.take(i) =~= r.take(i));
            lemma_fox_cells_take(r, i);
        }
        lemma_fox_cells_take(r, r.len() as int);
        let fr = fox_cells(r);
        assert(fox_cells(s) == fr.push(s.last().pos1).push(s.last().pos2));
        assert forall|j: int| 0 <= j < s.len() implies fox_cells(s)[2 * j] == #[trigger] s[j].pos1
            && fox_cells(s)[2 * j + 1] == s[j].pos2 by {
            if j < r.len() {
                assert(r[j] == s[j]);
                assert(fr[2 * j] == r[j].pos1);
                assert(fr[2 * j + 1] == r[j].pos2);
            } else {
                assert(j == r.len());
            }
        }
    }
}

/// A board, or the reason a move or placement failed, seen through its model.
pub open spec fn result_model(r: Result<Board, InvalidBoardError>) -> Result<
    BoardModel,
    InvalidBoardError,
> {
    match r {
        Ok(b) => Ok(b@),
        Err(e) => Err(e),
    }
}

pub proof fn lemma_without<A>(s: Seq<A>, x: A)
    ensures
        forall|j: int|
            0 <= j < without(s, x).len() ==> #[trigger] without(s, x)[j] != x && s.contains(
                without(s, x)[j],
            ),
        forall|y: A| #[trigger] without(s, x).contains(y) <==> (s.contains(y) && y != x),
    decreases s.len(),
{
    if s.len() > 0 {
        let r = s.drop_last();
        let l = s.last();
        lemma_without(r, x);
        let w = without(s, x);
        let wr = without(r, x);
        assert(s =~= r.push(l));
        assert forall|y: A| s.contains(y) <==> (r.contains(y) || y == l) by {
            if s.contains(y) {
                let k = choose|k: int| 0 <= k < s.len() && s[k] == y;
                if k < r.len() {
                    assert(r[k] == y);
                }
            }
            if r.contains(y) {
                let k = choose|k: int| 0 <= k < r.len() && r[k] == y;
                assert(s[k] == y);
            }
            if y == l {
                assert(s[s.len() - 1] == y);
            }
        }
        if l == x {
            assert(w == wr);
            assert forall|j: int| 0 <= j < w.len() implies #[trigger] w[j] != x && s.contains(w[j]) by {
                assert(r.contains(wr[j]));
            }
        } else {
            assert(w == wr.push(l));
            assert forall|y: A| w.contains(y) <==> (wr.contains(y) || y == l) by {
                if w.contains(y) {
                    let k = choose|k: int| 0 <= k < w.len() && w[k] == y;
                    if k < wr.len() {
                        assert(wr[k] == y);
                    }
                }
                if wr.contains(y) {
                    let k = choose|k: int| 0 <= k < wr.len() && wr[k] == y;
                    assert(w[k] == y);
                }
                if y == l {
                    assert(w[w.len() - 1] == y);
                }
            }
            assert forall|j: int| 0 <= j < w.len() implies #[trigger] w[j] != x && s.contains(w[j]) by {
                if j < wr.len() {
                    assert(w[j] == wr[j]);
                    assert(r.contains(wr[j]));
                } else {
                    assert(w[j] == l);
                }
            }
        }
    }
}

impl BoardModel {
    pub open spec fn with_bunnies(self, s: Seq<Bunny>) -> BoardModel {
        BoardModel { bunnies: s, ..self }
    }

    pub open spec fn with_foxes(self, s: Seq<Fox>) -> BoardModel {
        BoardModel { foxes: s, ..self }
    }

    /// Moving a bunny: every bunny equal to `from` leaves, then `to` is placed.
    pub open spec fn move_bunny(self, from: Bunny, to: Bunny) -> Result<BoardModel, InvalidBoardError> {
        self.with_bunnies(without(self.bunnies, from)).add_bunny(to)
    }

    /// Moving a fox: every fox equal to `from` leaves, then `to` is placed.
    pub open spec fn move_fox(self, from: Fox, to: Fox) -> Result<BoardModel, InvalidBoardError> {
        self.with_foxes(without(self.foxes, from)).add_fox(to)
    }

    pub open spec fn apply(self, mv: Move) -> Result<BoardModel, InvalidBoardError> {
        match mv {
            Move::Bunny { from, to } => self.move_bunny(from, to),
            Move::Fox { from, to } => self.move_fox(from, to),
        }
    }
}

pub proof fn lemma_without_indexable(m: BoardModel, b: Bunny, f: Fox)
    requires
        m.indexable(),
    ensures
        m.with_bunnies(without(m.bunnies, b)).indexable(),
        m.with_foxes(without(m.foxes, f)).indexable(),
{
    lemma_without(m.bunnies, b);
    lemma_without(m.foxes, f);
    let wb = without(m.bunnies, b);
    let wf = without(m.foxes, f);
    assert forall|j: int| 0 <= j < wb.len() implies indexable(#[trigger] wb[j].pos) by {
        assert(m.bunnies.contains(wb[j]));
    }
    assert forall|j: int| 0 <= j < wf.len() implies indexable(#[trigger] wf[j].pos1) && indexable(
        wf[j].pos2,
    ) by {
        assert(m.foxes.contains(wf[j]));
    }
}

impl Clone for Board {
    fn clone(&self) -> (r: Self)
        ensures
            r@ == self@,
    {
        Board {
            bunnies: copy_vec(&self.bunnies),
            foxes: copy_vec(&self.foxes),
            mushrooms: copy_vec(&self.mushrooms),
        }
    }
}

impl Board {
    /// The board after moving a bunny from `from` to `to`.
    pub fn move_bunny(self, from: &Bunny, to: Bunny) -> (r: Result<Self, InvalidBoardError>)
        requires
            self@.indexable(),
        ensures
            result_model(r) == self@.move_bunny(*from, to),
    {
        proof {
            lemma_without_indexable(self@, *from, arbitrary());
        }
        let mut board = self;
        board.bunnies = copy_without(&board.bunnies, from);
        board.add_bunny(to)?;
        Ok(board)
    }

    /// The board after moving a fox from `from` to `to`.
    pub fn move_fox(self, from: &Fox, to: Fox) -> (r: Result<Self, InvalidBoardError>)
        requires
            self@.indexable(),
        ensures
            result_model(r) == self@.move_fox(*from, to),
    {
        proof {
            lemma_without_indexable(self@, arbitrary(), *from);
        }
        let mut board = self;
        board.foxes = copy_without(&board.foxes, from);
        board.add_fox(to)?;
        Ok(board)
    }

    /// The board after the move, or why the move cannot be made.
    pub fn apply_move(&self, movement: &Move) -> (r: Result<Board, InvalidBoardError>)
        requires
            self@.indexable(),
        ensures
            result_model(r) == self@.apply(*movement),
    {
        match movement {
            Move::Bunny { from, to } => self.clone().move_bunny(from, *to),
            Move::Fox { from, to } => self.clone().move_fox(from, *to),
        }
    }
}

} // verus!
