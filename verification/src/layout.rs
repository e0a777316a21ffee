//! What a board covers: its occupied cells, the piece limits of the game, and a
//! picture of the board as text.
use vstd::prelude::*;
use crate::board::{Board, BoardModel, bunny_cells, fox_cells, mushroom_cells};
use crate::geometry::on_board;
use crate::pieces::{Bunny, Fox, Mushroom, InvalidBoardError};
use crate::rules::{all_on_board, lane_fox};
use crate::geometry::is_legal_fox_edge;

verus! {

/// Some bunny stands on the cell.
pub open spec fn bunny_on(s: Seq<Bunny>, p: (usize, usize)) -> bool {
    exists|j: int| 0 <= j < s.len() && (#[trigger] s[j]).pos == p
}

/// Some fox covers the cell.
pub open spec fn fox_on(s: Seq<Fox>, p: (usize, usize)) -> bool {
    exists|j: int| 0 <= j < s.len() && ((#[trigger] s[j]).pos1 == p || s[j].pos2 == p)
}

/// Some mushroom stands on the cell.
pub open spec fn mushroom_on(s: Seq<Mushroom>, p: (usize, usize)) -> bool {
    exists|j: int| 0 <= j < s.len() && (#[trigger] s[j]).pos == p
}

impl BoardModel {
    /// The verdict on the numbers of pieces: at most three bunnies, two foxes and
    /// three mushrooms, checked in that order.
    pub open spec fn piece_limits(self) -> Result<(), InvalidBoardError> {
        if self.bunnies.len() > 3 {
            Err(InvalidBoardError::TooManyBunnies)
        } else if self.foxes.len() > 2 {
            Err(InvalidBoardError::TooManyFoxes)
        } else if self.mushrooms.len() > 3 {
            Err(InvalidBoardError::TooManyMushrooms)
        } else {
            Ok(())
        }
    }

    /// The character drawn for a cell: a mushroom over a fox over a bunny over an
    /// empty cell.
    pub open spec fn symbol(self, p: (usize, usize)) -> char {
        if mushroom_on(self.mushrooms, p) {
            'M'
        } else if fox_on(self.foxes, p) {
            'F'
        } else if bunny_on(self.bunnies, p) {
            'B'
        } else {
            '.'
        }
    }

    /// The board as five lines of five characters, the top row (row four) first,
    /// each line ended by a line feed.
    pub open spec fn picture(self) -> Seq<char> {
        Seq::new(
            30,
            |i: int|
                if i % 6 == 5 {
                    '\n'
                } else {
                    self.symbol(((i % 6) as usize, (4 - i / 6) as usize))
                },
        )
    }
}

/// What the picture shows on each cell `(x, y)`, at column `x` of line `4 - y`: an `M`
/// where a mushroom stands; otherwise an `F` where any fox of the board covers the cell;
/// otherwise a `B` where a bunny stands; otherwise a `.`. Each of the five lines ends
/// with a line feed.
pub proof fn lemma_picture_cells(m: BoardModel, x: usize, y: usize)
    requires
        x < 5,
        y < 5,
    ensures
        m.picture().len() == 30,
        m.picture()[(4 - y) * 6 + 5] == '\n',
        ({
            let c = m.picture()[(4 - y) * 6 + x];
            let p = (x, y);
            let mushroom = exists|j: int| 0 <= j < m.mushrooms.len() && (#[trigger] m.mushrooms[j]).pos == p;
            let fox = exists|j: int|
                0 <= j < m.foxes.len() && ((#[trigger] m.foxes[j]).pos1 == p || m.foxes[j].pos2 == p);
            let bunny = exists|j: int| 0 <= j < m.bunnies.len() && (#[trigger] m.bunnies[j]).pos == p;
            &&& mushroom ==> c == 'M'
            &&& !mushroom && fox ==> c == 'F'
            &&& !mushroom && !fox && bunny ==> c == 'B'
            &&& !mushroom && !fox && !bunny ==> c == '.'
        }),
{
    let i = (4 - y) * 6 + x;
    assert(i % 6 == x && i / 6 == 4 - y);
    let e = (4 - y) * 6 + 5;
    assert(e % 6 == 5);
}

/// `String::push`: appends the character at the end of the string.
#[verifier::external_body]
fn push_char(text: &mut String, c: char)
    ensures
        final(text)@ == old(text)@.push(c),
{
    text.push(c);
}

impl Board {
    /// Every covered cell, bunnies first, then both cells of each fox, then mushrooms.
    fn cell_list(&self) -> (r: Vec<(usize, usize)>)
        ensures
            r@ == self@.cells(),
    {
        let mut r: Vec<(usize, usize)> = Vec::new();
        let mut i: usize = 0;
        while i < self.bunnies.len()
            invariant
                i <= self.bunnies.len(),
                r@ == bunny_cells(self.bunnies@.take(i as int)),
            decreases self.bunnies.len() - i,
        {
            r.push(self.bunnies[i].pos);
            i = i + 1;
            assert(r@ =~= bunny_cells(self.bunnies@.take(i as int)));
        }
        assert(self.bunnies@.take(i as int) =~= self.bunnies@);
        let ghost nb = r@;
        let mut i: usize = 0;
        while i < self.foxes.len()
            invariant
                nb == bunny_cells(self.bunnies@),
                i <= self.foxes.len(),
                r@ == nb + fox_cells(self.foxes@.take(i as int)),
            decreases self.foxes.len() - i,
        {
            let fox = self.foxes[i];
            proof {
                assert(self.foxes@.take(i + 1).drop_last() =~= self.foxes@.take(i as int));
            }
            r.push(fox.pos1);
            r.push(fox.pos2);
            i = i + 1;
            assert(r@ =~= nb + fox_cells(self.foxes@.take(i as int)));
        }
        assert(self.foxes@.take(i as int) =~= self.foxes@);
        let ghost nf = r@;
        let mut i: usize = 0;
        while i < self.mushrooms.len()
            invariant
                nf == bunny_cells(self.bunnies@) + fox_cells(self.foxes@),
                i <= self.mushrooms.len(),
                r@ == nf + mushroom_cells(self.mushrooms@.take(i as int)),
            decreases self.mushrooms.len() - i,
        {
            r.push(self.mushrooms[i].pos);
            i = i + 1;
            assert(r@ =~= nf + mushroom_cells(self.mushrooms@.take(i as int)));
        }
        assert(self.mushrooms@.take(i as int) =~= self.mushrooms@);
        r
    }

    /// The covered cells, each once.
    pub fn get_filled_positions(&self) -> (r: Vec<(usize, usize)>)
        ensures
            r@.no_duplicates(),
            r@.to_set() == self@.cells().to_set(),
    {
        let cells = self.cell_list();
        let mut r: Vec<(usize, usize)> = Vec::new();
        let mut i: usize = 0;
        while i < cells.len()
            invariant
                i <= cells.len(),
                r@.no_duplicates(),
                r@.to_set() == cells@.take(i as int).to_set(),
            decreases cells.len() - i,
        {
            let c = cells[i];
            let mut j: usize = 0;
            let mut seen = false;
            while j < r.len()
                invariant
                    j <= r.len(),
                    seen == exists|k: int| 0 <= k < j && r@[k] == c,
                decreases r.len() - j,
            {
                if r[j].0 == c.0 && r[j].1 == c.1 {
                    seen = true;
                }
                j = j + 1;
            }
            let ghost before = r@;
            if !seen {
                r.push(c);
            }
            proof {
                let prev = cells@.take(i as int);
                let next = cells@.take(i + 1);
                assert(next =~= prev.push(c));
                assert forall|x: (usize, usize)| r@.contains(x) == next.contains(x) by {
                    assert(before.to_set().contains(x) == before.contains(x));
                    assert(prev.to_set().contains(x) == prev.contains(x));
                    if next.contains(x) {
                        let k = choose|k: int| 0 <= k < next.len() && next[k] == x;
                        if k < prev.len() {
                            assert(prev[k] == x);
                        }
                    }
                    if prev.contains(x) {
                        let k = choose|k: int| 0 <= k < prev.len() && prev[k] == x;
                        assert(next[k] == x);
                    }
                    if x == c {
                        assert(next[prev.len() as int] == c);
                        if seen {
                            let k = choose|k: int| 0 <= k < j && r@[k] == c;
                            assert(before[k] == c);
                        } else {
                            assert(r@[before.len() as int] == c);
                        }
                    }
                    if r@.contains(x) {
                        let k = choose|k: int| 0 <= k < r@.len() && r@[k] == x;
                        if k < before.len() {
                            assert(before[k] == x);
                        }
                    }
                    if before.contains(x) {
                        let k = choose|k: int| 0 <= k < before.len() && before[k] == x;
                        assert(r@[k] == x);
                    }
                }
                assert(r@.to_set() =~= next.to_set());
            }
            i = i + 1;
        }
        assert(cells@.take(i as int) =~= cells@);
        r
    }

    /// Whether the board is a game position: every piece on the board, no cell covered
    /// twice, every fox on two neighbouring cells of a lane.
    pub fn is_position(&self) -> (r: bool)
        ensures
            r == self@.valid(),
    {
        let cells = self.cell_list();
        let mut i: usize = 0;
        while i < cells.len()
            invariant
                cells@ == self@.cells(),
                i <= cells.len(),
                forall|j: int| 0 <= j < i ==> on_board(#[trigger] cells@[j]),
            decreases cells.len() - i,
        {
            if cells[i].0 >= 5 || cells[i].1 >= 5 {
                return false;
            }
            i = i + 1;
        }
        let mut i: usize = 0;
        while i < cells.len()
            invariant
                cells@ == self@.cells(),
                i <= cells.len(),
                forall|a: int, b: int| 0 <= a < i && 0 <= b < cells.len() && a != b ==> cells@[a] != cells@[b],
            decreases cells.len() - i,
        {
            let mut j: usize = 0;
            while j < cells.len()
                invariant
                    cells@ == self@.cells(),
                    i < cells.len(),
                    j <= cells.len(),
                    forall|a: int, b: int| 0 <= a < i && 0 <= b < cells.len() && a != b ==> cells@[a] != cells@[b],
                    forall|b: int| 0 <= b < j && b != i ==> cells@[i as int] != cells@[b],
                decreases cells.len() - j,
            {
                if j != i && cells[i].0 == cells[j].0 && cells[i].1 == cells[j].1 {
                    proof {
                        assert(cells@[i as int] == cells@[j as int]);
                        assert(!self@.cells().no_duplicates());
                    }
                    return false;
                }
                j = j + 1;
            }
            i = i + 1;
        }
        proof {
            assert(self@.cells().no_duplicates());
            crate::rules::lemma_cells_index(self@);
        }
        let ghost m = self@;
        let mut k: usize = 0;
        while k < self.foxes.len()
            invariant
                m == self@,
                all_on_board(m.cells()),
                k <= self.foxes.len(),
                forall|j: int| 0 <= j < k ==> lane_fox(#[trigger] m.foxes[j]),
            decreases self.foxes.len() - k,
        {
            let f = self.foxes[k];
            proof {
                crate::rules::lemma_cells_index(m);
                assert(on_board(m.cells()[m.bunnies.len() + 2 * k]));
                assert(on_board(m.cells()[m.bunnies.len() + 2 * k + 1]));
            }
            let a = (f.pos1.1 * 5 + f.pos1.0) as u8;
            let b = (f.pos2.1 * 5 + f.pos2.0) as u8;
            if !is_legal_fox_edge(a, b) {
                return false;
            }
            k = k + 1;
        }
        true
    }

    /// Whether the board keeps to the numbers of pieces the game has.
    #[allow(dead_code)]
    fn is_board_valid(&self) -> (r: Result<(), InvalidBoardError>)
        ensures
            r == self@.piece_limits(),
    {
        if self.bunnies.len() > 3 {
            return Err(InvalidBoardError::TooManyBunnies);
        }
        if self.foxes.len() > 2 {
            return Err(InvalidBoardError::TooManyFoxes);
        }
        if self.mushrooms.len() > 3 {
            return Err(InvalidBoardError::TooManyMushrooms);
        }
        Ok(())
    }

    /// The board drawn as text: five lines, the top row first, a `B` for a bunny, an
    /// `F` for a fox and an `M` for a mushroom, a `.` for an empty cell.
    pub fn to_string(&self) -> (r: String)
        requires
            all_on_board(self@.cells()),
        ensures
            r@ == self@.picture(),
    {
        let ghost m = self@;
        proof {
            crate::rules::lemma_cells_index(m);
        }
        let mut grid: Vec<char> = Vec::new();
        let mut k: usize = 0;
        while k < 25
            invariant
                k <= 25,
                grid.len() == k,
                forall|q: int| 0 <= q < k ==> grid@[q] == '.',
            decreases 25 - k,
        {
            grid.push('.');
            k = k + 1;
        }
        let mut i: usize = 0;
        while i < self.bunnies.len()
            invariant
                m == self@,
                all_on_board(m.cells()),
                i <= self.bunnies.len(),
                grid.len() == 25,
                forall|x: usize, y: usize|
                    x < 5 && y < 5 ==> #[trigger] grid@[y * 5 + x] == if bunny_on(
                        self.bunnies@.take(i as int),
                        (x, y),
                    ) {
                        'B'
                    } else {
                        '.'
                    },
            decreases self.bunnies.len() - i,
        {
            let p = self.bunnies[i].pos;
            proof {
                crate::rules::lemma_cells_index(m);
                assert(on_board(m.cells()[i as int]));
            }
            grid.set(p.1 * 5 + p.0, 'B');
            proof {
                let before = self.bunnies@.take(i as int);
                let after = self.bunnies@.take(i + 1);
                assert forall|x: usize, y: usize| x < 5 && y < 5 implies bunny_on(after, (x, y)) == (
                bunny_on(before, (x, y)) || p == (x, y)) by {
                    if bunny_on(after, (x, y)) {
                        let j = choose|j: int| 0 <= j < after.len() && (#[trigger] after[j]).pos == (x, y);
                        if j < i {
                            assert(before[j] == after[j]);
                        }
                    }
                    if bunny_on(before, (x, y)) {
                        let j = choose|j: int| 0 <= j < before.len() && (#[trigger] before[j]).pos == (x, y);
                        assert(after[j] == before[j]);
                    }
                    if p == (x, y) {
                        assert(after[i as int].pos == p);
                    }
                }
            }
            i = i + 1;
        }
        assert(self.bunnies@.take(i as int) =~= self.bunnies@);
        let mut i: usize = 0;
        while i < self.foxes.len()
            invariant
                m == self@,
                all_on_board(m.cells()),
                i <= self.foxes.len(),
                grid.len() == 25,
                forall|x: usize, y: usize|
                    x < 5 && y < 5 ==> #[trigger] grid@[y * 5 + x] == if fox_on(
                        self.foxes@.take(i as int),
                        (x, y),
                    ) {
                        'F'
                    } else if bunny_on(self.bunnies@, (x, y)) {
                        'B'
                    } else {
                        '.'
                    },
            decreases self.foxes.len() - i,
        {
            let f = self.foxes[i];
            proof {
                crate::rules::lemma_cells_index(m);
                assert(on_board(m.cells()[m.bunnies.len() + 2 * i]));
                assert(on_board(m.cells()[m.bunnies.len() + 2 * i + 1]));
            }
            grid.set(f.pos1.1 * 5 + f.pos1.0, 'F');
            grid.set(f.pos2.1 * 5 + f.pos2.0, 'F');
            proof {
                let before = self.foxes@.take(i as int);
                let after = self.foxes@.take(i + 1);
                assert forall|x: usize, y: usize| x < 5 && y < 5 implies fox_on(after, (x, y)) == (
                fox_on(before, (x, y)) || f.pos1 == (x, y) || f.pos2 == (x, y)) by {
                    if fox_on(after, (x, y)) {
                        let j = choose|j: int| 0 <= j < after.len() && ((#[trigger] after[j]).pos1 == (x, y) || after[j].pos2 == (x, y));
                        if j < i {
                            assert(before[j] == after[j]);
                        }
                    }
                    if fox_on(before, (x, y)) {
                        let j = choose|j: int| 0 <= j < before.len() && ((#[trigger] before[j]).pos1 == (x, y) || before[j].pos2 == (x, y));
                        assert(after[j] == before[j]);
                    }
                    if f.pos1 == (x, y) || f.pos2 == (x, y) {
                        assert(after[i as int] == f);
                    }
                }
            }
            i = i + 1;
        }
        assert(self.foxes@.take(i as int) =~= self.foxes@);
        let mut i: usize = 0;
        while i < self.mushrooms.len()
            invariant
                m == self@,
                all_on_board(m.cells()),
                i <= self.mushrooms.len(),
                grid.len() == 25,
                forall|x: usize, y: usize|
                    x < 5 && y < 5 ==> #[trigger] grid@[y * 5 + x] == if mushroom_on(
                        self.mushrooms@.take(i as int),
                        (x, y),
                    ) {
                        'M'
                    } else if fox_on(self.foxes@, (x, y)) {
                        'F'
                    } else if bunny_on(self.bunnies@, (x, y)) {
                        'B'
                    } else {
                        '.'
                    },
            decreases self.mushrooms.len() - i,
        {
            let p = self.mushrooms[i].pos;
            proof {
                crate::rules::lemma_cells_index(m);
                assert(on_board(m.cells()[m.bunnies.len() + 2 * m.foxes.len() + i]));
            }
            grid.set(p.1 * 5 + p.0, 'M');
            proof {
                let before = self.mushrooms@.take(i as int);
                let after = self.mushrooms@.take(i + 1);
                assert forall|x: usize, y: usize| x < 5 && y < 5 implies mushroom_on(after, (x, y))
                    == (mushroom_on(before, (x, y)) || p == (x, y)) by {
                    if mushroom_on(after, (x, y)) {
                        let j = choose|j: int| 0 <= j < after.len() && (#[trigger] after[j]).pos == (x, y);
                        if j < i {
                            assert(before[j] == after[j]);
                        }
                    }
                    if mushroom_on(before, (x, y)) {
                        let j = choose|j: int| 0 <= j < before.len() && (#[trigger] before[j]).pos == (x, y);
                        assert(after[j] == before[j]);
                    }
                    if p == (x, y) {
                        assert(after[i as int].pos == p);
                    }
                }
            }
            i = i + 1;
        }
        assert(self.mushrooms@.take(i as int) =~= self.mushrooms@);
        let mut text = String::new();
        let mut row: usize = 0;
        while row < 5
            invariant
                row <= 5,
                grid.len() == 25,
                forall|x: usize, y: usize| x < 5 && y < 5 ==> #[trigger] grid@[y * 5 + x] == m.symbol((x, y)),
                text@ == m.picture().take(row * 6),
            decreases 5 - row,
        {
            let mut col: usize = 0;
            while col < 5
                invariant
                    row < 5,
                    col <= 5,
                    grid.len() == 25,
                    forall|x: usize, y: usize| x < 5 && y < 5 ==> #[trigger] grid@[y * 5 + x] == m.symbol((x, y)),
                    text@ == m.picture().take(row * 6 + col),
                decreases 5 - col,
            {
                let c = grid[(4 - row) * 5 + col];
                proof {
                    let q = row * 6 + col;
                    assert(q % 6 == col && q / 6 == row) by (nonlinear_arith)
                        requires
                            q == row * 6 + col,
                            col < 5,
                    ;
                    assert(c == m.symbol((col, (4 - row) as usize)));
                    assert(m.picture()[q] == c);
                    assert(m.picture().take(q + 1) =~= m.picture().take(q).push(c));
                }
                push_char(&mut text, c);
                col = col + 1;
            }
            proof {
                let q = row * 6 + 5;
                assert(q % 6 == 5) by (nonlinear_arith)
                    requires
                        q == row * 6 + 5,
                ;
                assert(m.picture().take(q + 1) =~= m.picture().take(q).push('\n'));
            }
            push_char(&mut text, '\n');
            row = row + 1;
        }
        assert(m.picture().take(30) =~= m.picture());
        text
    }
}

} // verus!
