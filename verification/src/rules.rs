//! Game positions: boards whose pieces stand on distinct cells of the 5x5 board,
//! with every fox covering two neighbouring cells of one lane. Such a board allows
//! every move it generates, stays a game position after it, and its key follows
//! the move.
use vstd::prelude::*;
use crate::bits::{has_bit, lemma_zero};
use crate::board::{
    BoardModel, without, bits_of, bunny_cells, covers, fox_cells, lemma_bits_of,
    lemma_fox_cells_take, mushroom_cells, all_indexable,
};
use crate::geometry::{cell_index, indexable, legal_edge, on_board};
use crate::pieces::{Bunny, Fox, Move, InvalidBoardError, is_vertical};
use crate::geometry::mask_of;
use crate::pieces::normalized;
use crate::state::{keyable, fox_id, fox_index_pair, sort_ids};
use crate::moves::{
    bunny_part, fox_part, bunny_moves, fox_moves, bunny_moves_upto, bunny_jump, landed_bunny,
    landing, slide, slide_start, fox_at, fox_moves_dir, in_board, taken, is_unit, steps_left, dir_x,
    dir_y,
};

verus! {

pub open spec fn all_on_board(ps: Seq<(usize, usize)>) -> bool {
    forall|j: int| 0 <= j < ps.len() ==> on_board(#[trigger] ps[j])
}

/// A fox covering two neighbouring cells of one lane.
pub open spec fn lane_fox(f: Fox) -> bool {
    legal_edge(cell_index(f.pos1), cell_index(f.pos2))
}

impl BoardModel {
    /// A game position: every piece on the board, no cell covered twice, every
    /// fox on two neighbouring cells of a lane.
    pub open spec fn valid(self) -> bool {
        &&& all_on_board(self.cells())
        &&& self.cells().no_duplicates()
        &&& forall|j: int| 0 <= j < self.foxes.len() ==> lane_fox(#[trigger] self.foxes[j])
    }

    /// Every fox has the cell of smaller coordinate sum first, as placing a fox demands.
    pub open spec fn normal(self) -> bool {
        forall|j: int| 0 <= j < self.foxes.len() ==> normalized(#[trigger] self.foxes[j])
            == self.foxes[j]
    }
}

/// Where each piece's cells stand in the list of all cells.
pub proof fn lemma_cells_index(m: BoardModel)
    ensures
        m.cells().len() == m.bunnies.len() + 2 * m.foxes.len() + m.mushrooms.len(),
        forall|j: int| 0 <= j < m.bunnies.len() ==> m.cells()[j] == (#[trigger] m.bunnies[j]).pos,
        forall|j: int|
            0 <= j < m.foxes.len() ==> m.cells()[m.bunnies.len() + 2 * j] == (
            #[trigger] m.foxes[j]).pos1 && m.cells()[m.bunnies.len() + 2 * j + 1] == m.foxes[j].pos2,
        forall|j: int|
            0 <= j < m.mushrooms.len() ==> m.cells()[m.bunnies.len() + 2 * m.foxes.len() + j] == (
            #[trigger] m.mushrooms[j]).pos,
{
    lemma_fox_cells_take(m.foxes, 0);
    let b = bunny_cells(m.bunnies);
    let f = fox_cells(m.foxes);
    let u = mushroom_cells(m.mushrooms);
    assert forall|j: int| 0 <= j < m.foxes.len() implies m.cells()[m.bunnies.len() + 2 * j] == (
    #[trigger] m.foxes[j]).pos1 && m.cells()[m.bunnies.len() + 2 * j + 1] == m.foxes[j].pos2 by {
        assert(f[2 * j] == m.foxes[j].pos1);
        assert(f[2 * j + 1] == m.foxes[j].pos2);
    }
}

/// A position's pieces all have bits in the occupancy mask.
pub proof fn lemma_valid_indexable(m: BoardModel)
    requires
        all_on_board(m.cells()),
    ensures
        m.indexable(),
        all_indexable(bunny_cells(m.bunnies)),
        all_indexable(fox_cells(m.foxes)),
        all_indexable(mushroom_cells(m.mushrooms)),
{
    lemma_cells_index(m);
    let nb = m.bunnies.len();
    let nf = m.foxes.len();
    assert forall|j: int| 0 <= j < m.bunnies.len() implies indexable(#[trigger] m.bunnies[j].pos) by {
        assert(on_board(m.cells()[j]));
    }
    assert forall|j: int| 0 <= j < m.foxes.len() implies indexable(#[trigger] m.foxes[j].pos1)
        && indexable(m.foxes[j].pos2) by {
        assert(on_board(m.cells()[nb + 2 * j]));
        assert(on_board(m.cells()[nb + 2 * j + 1]));
    }
    assert forall|j: int| 0 <= j < m.mushrooms.len() implies indexable(
        #[trigger] m.mushrooms[j].pos,
    ) by {
        assert(on_board(m.cells()[nb + 2 * nf + j]));
    }
    let b = bunny_cells(m.bunnies);
    let f = fox_cells(m.foxes);
    let u = mushroom_cells(m.mushrooms);
    assert forall|j: int| 0 <= j < b.len() implies indexable(#[trigger] b[j]) by {
        assert(m.cells()[j] == b[j]);
        assert(on_board(m.cells()[j]));
    }
    assert forall|j: int| 0 <= j < f.len() implies indexable(#[trigger] f[j]) by {
        assert(m.cells()[nb + j] == f[j]);
        assert(on_board(m.cells()[nb + j]));
    }
    assert forall|j: int| 0 <= j < u.len() implies indexable(#[trigger] u[j]) by {
        assert(m.cells()[nb + f.len() + j] == u[j]);
        assert(on_board(m.cells()[nb + f.len() + j]));
    }
}

pub proof fn lemma_covers_concat(a: Seq<(usize, usize)>, b: Seq<(usize, usize)>, i: int)
    ensures
        covers(a + b, i) == (covers(a, i) || covers(b, i)),
{
    if covers(a + b, i) {
        let j = choose|j: int| 0 <= j < (a + b).len() && cell_index(#[trigger] (a + b)[j]) == i;
        if j < a.len() {
            assert(a[j] == (a + b)[j]);
        } else {
            assert(b[j - a.len()] == (a + b)[j]);
        }
    }
    if covers(a, i) {
        let j = choose|j: int| 0 <= j < a.len() && cell_index(#[trigger] a[j]) == i;
        assert(a[j] == (a + b)[j]);
    }
    if covers(b, i) {
        let j = choose|j: int| 0 <= j < b.len() && cell_index(#[trigger] b[j]) == i;
        assert(b[j] == (a + b)[a.len() + j]);
    }
}

/// On a position, a cell of the board is filled exactly when some piece covers it.
pub proof fn lemma_filled_iff(m: BoardModel, p: (usize, usize))
    requires
        all_on_board(m.cells()),
        on_board(p),
    ensures
        m.filled(p) == m.cells().contains(p),
{
    lemma_valid_indexable(m);
    let i = cell_index(p) as u32;
    let b = bunny_cells(m.bunnies);
    let f = fox_cells(m.foxes);
    let u = mushroom_cells(m.mushrooms);
    lemma_bits_of(0, b, i);
    lemma_bits_of(bits_of(0, b), f, i);
    lemma_bits_of(bits_of(bits_of(0, b), f), u, i);
    lemma_zero(i);
    lemma_covers_concat(b, f, i as int);
    lemma_covers_concat(b + f, u, i as int);
    assert(m.cells() == b + f + u);
    let c = m.cells();
    if covers(c, i as int) {
        let j = choose|j: int| 0 <= j < c.len() && cell_index(#[trigger] c[j]) == i;
        assert(on_board(c[j]));
        assert(c[j] == p);
    }
    if c.contains(p) {
        let j = choose|j: int| 0 <= j < c.len() && c[j] == p;
        assert(cell_index(c[j]) == i);
    }
}

pub proof fn lemma_bunny_part_member(occ: u32, s: Seq<Bunny>, i: int)
    requires
        0 <= i < bunny_part(occ, s).len(),
    ensures
        bunny_part(occ, s)[i] matches Move::Bunny { from, to } && s.contains(from) && bunny_moves(
            occ,
            from,
        ).contains(to),
    decreases s.len(),
{
    let r = s.drop_last();
    let prev = bunny_part(occ, r);
    let l = s.last();
    let tail = bunny_moves(occ, l).map_values(|t: Bunny| Move::Bunny { from: l, to: t });
    assert(bunny_part(occ, s) == prev + tail);
    if i < prev.len() {
        lemma_bunny_part_member(occ, r, i);
        assert(prev[i] == bunny_part(occ, s)[i]);
        if let Move::Bunny { from, to } = prev[i] {
            let k = choose|k: int| 0 <= k < r.len() && r[k] == from;
            assert(s[k] == from);
        }
    } else {
        let k = i - prev.len();
        assert(bunny_part(occ, s)[i] == tail[k]);
        assert(s[s.len() - 1] == l);
    }
}

pub proof fn lemma_fox_part_member(occ: u32, s: Seq<Fox>, i: int)
    requires
        0 <= i < fox_part(occ, s).len(),
    ensures
        fox_part(occ, s)[i] matches Move::Fox { from, to } && s.contains(from) && fox_moves(
            occ,
            from,
        ).contains(to),
    decreases s.len(),
{
    let r = s.drop_last();
    let prev = fox_part(occ, r);
    let l = s.last();
    let tail = fox_moves(occ, l).map_values(|t: Fox| Move::Fox { from: l, to: t });
    assert(fox_part(occ, s) == prev + tail);
    if i < prev.len() {
        lemma_fox_part_member(occ, r, i);
        assert(prev[i] == fox_part(occ, s)[i]);
        if let Move::Fox { from, to } = prev[i] {
            let k = choose|k: int| 0 <= k < r.len() && r[k] == from;
            assert(s[k] == from);
        }
    } else {
        let k = i - prev.len();
        assert(fox_part(occ, s)[i] == tail[k]);
        assert(s[s.len() - 1] == l);
    }
}

/// A generated move moves a piece of the board to one of its destinations.
pub proof fn lemma_move_member(m: BoardModel, i: int)
    requires
        0 <= i < m.all_moves().len(),
    ensures
        match m.all_moves()[i] {
            Move::Bunny { from, to } => m.bunnies.contains(from) && bunny_moves(
                m.occupancy(),
                from,
            ).contains(to),
            Move::Fox { from, to } => m.foxes.contains(from) && fox_moves(m.occupancy(), from).contains(
                to,
            ),
        },
{
    let occ = m.occupancy();
    let b = bunny_part(occ, m.bunnies);
    let f = fox_part(occ, m.foxes);
    if i < b.len() {
        lemma_bunny_part_member(occ, m.bunnies, i);
        assert(m.all_moves()[i] == b[i]);
    } else {
        lemma_fox_part_member(occ, m.foxes, i - b.len());
        assert(m.all_moves()[i] == f[i - b.len()]);
    }
}

pub proof fn lemma_landing(occ: u32, x: int, y: int, dx: int, dy: int)
    ensures
        landing(occ, x, y, dx, dy) matches Some(c) ==> in_board(c.0, c.1) && !taken(occ, c.0, c.1),
    decreases steps_left(x, y, dx, dy),
{
    if is_unit(dx, dy) && in_board(x, y) && taken(occ, x, y) {
        lemma_landing(occ, x + dx, y + dy, dx, dy);
    }
}

pub proof fn lemma_bunny_dest_upto(occ: u32, b: Bunny, k: int, t: Bunny)
    requires
        bunny_moves_upto(occ, b, k).contains(t),
    ensures
        in_board(t.pos.0 as int, t.pos.1 as int) && !taken(occ, t.pos.0 as int, t.pos.1 as int),
    decreases k,
{
    if k > 0 {
        let prev = bunny_moves_upto(occ, b, k - 1);
        let jump = bunny_jump(occ, b.pos.0 as int, b.pos.1 as int, dir_x(k - 1), dir_y(k - 1));
        let last = landed_bunny(jump);
        assert(bunny_moves_upto(occ, b, k) == prev + last);
        let j = choose|j: int| 0 <= j < (prev + last).len() && (prev + last)[j] == t;
        if j < prev.len() {
            assert(prev[j] == t);
            lemma_bunny_dest_upto(occ, b, k - 1, t);
        } else {
            assert(last[j - prev.len()] == t);
            let bx = b.pos.0 as int;
            let by = b.pos.1 as int;
            let dx = dir_x(k - 1);
            let dy = dir_y(k - 1);
            lemma_landing(occ, bx + 2 * dx, by + 2 * dy, dx, dy);
        }
    }
}

/// A bunny lands on a free cell of the board.
pub proof fn lemma_bunny_dest(occ: u32, b: Bunny, t: Bunny)
    requires
        bunny_moves(occ, b).contains(t),
    ensures
        in_board(t.pos.0 as int, t.pos.1 as int) && !taken(occ, t.pos.0 as int, t.pos.1 as int),
{
    lemma_bunny_dest_upto(occ, b, 4, t);
}

/// The cells a fox slides over: free cells of the board, one step apart.
pub proof fn lemma_slide(occ: u32, x: int, y: int, dx: int, dy: int)
    ensures
        ({
            let s = slide(occ, x, y, dx, dy);
            forall|j: int|
                0 <= j < s.len() ==> in_board((#[trigger] s[j]).0, s[j].1) && !taken(
                    occ,
                    s[j].0,
                    s[j].1,
                ) && s[j] == (if j == 0 {
                    (x, y)
                } else {
                    (s[j - 1].0 + dx, s[j - 1].1 + dy)
                })
        }),
        slide(occ, x, y, dx, dy).len() > 0 ==> is_unit(dx, dy),
    decreases steps_left(x, y, dx, dy),
{
    if is_unit(dx, dy) && in_board(x, y) && !taken(occ, x, y) {
        lemma_slide(occ, x + dx, y + dy, dx, dy);
        let s = slide(occ, x, y, dx, dy);
        let r = slide(occ, x + dx, y + dy, dx, dy);
        assert(s == seq![(x, y)] + r);
        assert forall|j: int| 0 <= j < s.len() implies in_board((#[trigger] s[j]).0, s[j].1)
            && !taken(occ, s[j].0, s[j].1) && s[j] == (if j == 0 {
            (x, y)
        } else {
            (s[j - 1].0 + dx, s[j - 1].1 + dy)
        }) by {
            if j > 0 {
                assert(s[j] == r[j - 1]);
                if j > 1 {
                    assert(s[j - 1] == r[j - 2]);
                }
            }
        }
    }
}

/// The lane direction of a fox and the slide it makes that way.
pub open spec fn lane_dir(f: Fox, dx: int, dy: int) -> bool {
    if is_vertical(f) {
        dx == 0 && (dy == 1 || dy == -1)
    } else {
        dy == 0 && (dx == 1 || dx == -1)
    }
}

/// A fox destination: the fox slid `j + 1` steps along its lane.
pub proof fn lemma_fox_dest(occ: u32, f: Fox, t: Fox)
    requires
        fox_moves(occ, f).contains(t),
    ensures
        exists|dx: int, dy: int, j: int|
            #![trigger lane_dir(f, dx, dy), slide(occ, slide_start(f, dx, dy).0 + dx, slide_start(f, dx, dy).1 + dy, dx, dy)[j]]
            lane_dir(f, dx, dy) && 0 <= j < slide(
                occ,
                slide_start(f, dx, dy).0 + dx,
                slide_start(f, dx, dy).1 + dy,
                dx,
                dy,
            ).len() && t == fox_at(
                slide(
                    occ,
                    slide_start(f, dx, dy).0 + dx,
                    slide_start(f, dx, dy).1 + dy,
                    dx,
                    dy,
                )[j],
                dx,
                dy,
            ),
{
    let (dx1, dy1, dx2, dy2) = if is_vertical(f) {
        (0int, 1int, 0int, -1int)
    } else {
        (1int, 0int, -1int, 0int)
    };
    let a = fox_moves_dir(occ, f, dx1, dy1);
    let b = fox_moves_dir(occ, f, dx2, dy2);
    assert(fox_moves(occ, f) == a + b);
    let k = choose|k: int| 0 <= k < (a + b).len() && (a + b)[k] == t;
    if k < a.len() {
        assert(a[k] == t);
        let s1 = slide_start(f, dx1, dy1);
        assert(lane_dir(f, dx1, dy1));
        assert(slide(occ, s1.0 + dx1, s1.1 + dy1, dx1, dy1)[k] == slide(
            occ,
            s1.0 + dx1,
            s1.1 + dy1,
            dx1,
            dy1,
        )[k]);
    } else {
        assert(b[k - a.len()] == t);
        let s2 = slide_start(f, dx2, dy2);
        assert(lane_dir(f, dx2, dy2));
        assert(slide(occ, s2.0 + dx2, s2.1 + dy2, dx2, dy2)[k - a.len()] == slide(
            occ,
            s2.0 + dx2,
            s2.1 + dy2,
            dx2,
            dy2,
        )[k - a.len()]);
    }
}

/// The number of times `x` occurs in `s`.
pub open spec fn occurrences<A>(s: Seq<A>, x: A) -> nat {
    s.to_multiset().count(x)
}

pub proof fn lemma_occurrences_concat<A>(a: Seq<A>, b: Seq<A>, x: A)
    ensures
        occurrences(a + b, x) == occurrences(a, x) + occurrences(b, x),
{
    vstd::seq_lib::lemma_multiset_commutative(a, b);
}

pub proof fn lemma_occurrences_single<A>(p: A, x: A)
    ensures
        occurrences(seq![p], x) == if p == x {
            1nat
        } else {
            0nat
        },
{
    assert(seq![p] =~= Seq::<A>::empty().push(p));
    broadcast use vstd::seq_lib::group_to_multiset_ensures;
    broadcast use vstd::multiset::group_multiset_axioms;
}

pub proof fn lemma_occurrences_contains<A>(s: Seq<A>, x: A)
    ensures
        (occurrences(s, x) > 0) == s.contains(x),
{
    broadcast use vstd::seq_lib::group_to_multiset_ensures;
}

/// A piece listed twice would cover its cells twice: on a position each bunny is listed once.
pub proof fn lemma_bunny_once(m: BoardModel, k: int)
    requires
        m.cells().no_duplicates(),
        0 <= k < m.bunnies.len(),
    ensures
        forall|j: int| 0 <= j < m.bunnies.len() && j != k ==> m.bunnies[j] != m.bunnies[k],
{
    lemma_cells_index(m);
    assert forall|j: int| 0 <= j < m.bunnies.len() && j != k implies m.bunnies[j] != m.bunnies[k] by {
        assert(m.cells()[j] == m.bunnies[j].pos);
        assert(m.cells()[k] == m.bunnies[k].pos);
    }
}

pub proof fn lemma_fox_once(m: BoardModel, k: int)
    requires
        m.cells().no_duplicates(),
        0 <= k < m.foxes.len(),
    ensures
        forall|j: int| 0 <= j < m.foxes.len() && j != k ==> m.foxes[j] != m.foxes[k],
{
    lemma_cells_index(m);
    let nb = m.bunnies.len();
    assert forall|j: int| 0 <= j < m.foxes.len() && j != k implies m.foxes[j] != m.foxes[k] by {
        assert(m.cells()[nb + 2 * j] == m.foxes[j].pos1);
        assert(m.cells()[nb + 2 * k] == m.foxes[k].pos1);
    }
}

/// Cells of the board have distinct indices.
pub proof fn lemma_index_injective(p: (usize, usize), q: (usize, usize))
    requires
        on_board(p),
        on_board(q),
    ensures
        (cell_index(p) == cell_index(q)) == (p == q),
{
}

/// A bunny move generated on a position can be made; it leads to a position whose key
/// is the old key after the move.
pub proof fn lemma_bunny_move(m: BoardModel, from: Bunny, to: Bunny)
    requires
        m.valid(),
        m.bunnies.contains(from),
        bunny_moves(m.occupancy(), from).contains(to),
    ensures
        m.apply(Move::Bunny { from, to }) == Ok::<BoardModel, InvalidBoardError>(
            m.with_bunnies(without(m.bunnies, from).push(to)),
        ),
        m.with_bunnies(without(m.bunnies, from).push(to)).valid(),
        m.state().can_apply(Move::Bunny { from, to }),
        m.with_bunnies(without(m.bunnies, from).push(to)).state() == m.state().apply(
            Move::Bunny { from, to },
        ),
{
    let bs = m.bunnies;
    let k = choose|k: int| 0 <= k < bs.len() && bs[k] == from;
    lemma_bunny_once(m, k);
    crate::seqs::lemma_without_once(bs, k);
    let a = bs.take(k);
    let b = bs.skip(k + 1);
    crate::seqs::lemma_split_at(bs, k);
    let w = without(bs, from);
    assert(w == a + b);
    let p = from.pos;
    let q = to.pos;
    lemma_bunny_dest(m.occupancy(), from, to);
    lemma_cells_index(m);
    assert(on_board(p)) by {
        assert(m.cells()[k] == p);
    }
    assert(on_board(q));
    lemma_filled_iff(m, q);
    assert(!m.cells().contains(q));
    let ca = bunny_cells(a);
    let cb = bunny_cells(b);
    let f = fox_cells(m.foxes);
    let u = mushroom_cells(m.mushrooms);
    assert(bunny_cells(bs) =~= ca + seq![p] + cb);
    assert(m.cells() =~= ca + seq![p] + cb + f + u);
    let m1 = m.with_bunnies(w);
    assert(bunny_cells(w) =~= ca + cb);
    assert(m1.cells() =~= ca + cb + f + u);
    let m2 = m1.with_bunny(to);
    assert(bunny_cells(w.push(to)) =~= ca + cb + seq![q]);
    assert(m2.cells() =~= ca + cb + seq![q] + f + u);
    // occupancy of the board after lifting the bunny
    assert(all_on_board(m1.cells())) by {
        assert forall|j: int| 0 <= j < m1.cells().len() implies on_board(#[trigger] m1.cells()[j]) by {
            if j < ca.len() {
                assert(m1.cells()[j] == m.cells()[j]);
            } else {
                assert(m1.cells()[j] == m.cells()[j + 1]);
            }
        }
    }
    lemma_filled_iff(m1, q);
    assert(!m1.cells().contains(q)) by {
        if m1.cells().contains(q) {
            let j = choose|j: int| 0 <= j < m1.cells().len() && m1.cells()[j] == q;
            if j < ca.len() {
                assert(m.cells()[j] == q);
            } else {
                assert(m.cells()[j + 1] == q);
            }
        }
    }
    assert(m.apply(Move::Bunny { from, to }) == Ok::<BoardModel, InvalidBoardError>(m2));
    // validity
    assert(all_on_board(m2.cells())) by {
        assert forall|j: int| 0 <= j < m2.cells().len() implies on_board(#[trigger] m2.cells()[j]) by {
            if j < ca.len() + cb.len() {
                assert(m2.cells()[j] == m1.cells()[j]);
            } else if j == ca.len() + cb.len() {
            } else {
                assert(m2.cells()[j] == m1.cells()[j - 1]);
            }
        }
    }
    crate::seqs::lemma_no_dup_counts(m.cells());
    crate::seqs::lemma_no_dup_counts(m2.cells());
    assert forall|x: (usize, usize)| #[trigger] m2.cells().to_multiset().count(x) <= 1 by {
        lemma_occurrences_concat(ca + seq![p] + cb + f, u, x);
        lemma_occurrences_concat(ca + seq![p] + cb, f, x);
        lemma_occurrences_concat(ca + seq![p], cb, x);
        lemma_occurrences_concat(ca, seq![p], x);
        lemma_occurrences_concat(ca + cb + seq![q] + f, u, x);
        lemma_occurrences_concat(ca + cb + seq![q], f, x);
        lemma_occurrences_concat(ca + cb, seq![q], x);
        lemma_occurrences_concat(ca, cb, x);
        lemma_occurrences_single(p, x);
        lemma_occurrences_single(q, x);
        lemma_occurrences_contains(m.cells(), q);
        assert(m.cells().to_multiset().count(x) <= 1);
    }
    assert(forall|j: int| 0 <= j < m2.foxes.len() ==> lane_fox(#[trigger] m2.foxes[j]));
    // the key follows the move
    lemma_valid_indexable(m);
    lemma_valid_indexable(m2);
    let before = bits_of(0, bunny_cells(bs));
    let after = bits_of(0, bunny_cells(w.push(to)));
    let ki = cell_index(p) as u32;
    let kq = cell_index(q) as u32;
    assert forall|i: u32| i < 32 implies has_bit(after, i) == has_bit(
        (before & !mask_of(p)) | mask_of(q),
        i,
    ) by {
        lemma_bits_of(0, bunny_cells(bs), i);
        lemma_bits_of(0, bunny_cells(w.push(to)), i);
        lemma_zero(i);
        crate::bits::lemma_and_not_single(before, ki, i);
        crate::bits::lemma_or_single(before & !mask_of(p), kq, i);
        lemma_covers_concat(ca + seq![p], cb, i as int);
        lemma_covers_concat(ca, seq![p], i as int);
        lemma_covers_concat(ca + cb, seq![q], i as int);
        lemma_covers_concat(ca, cb, i as int);
        assert(covers(seq![p], i as int) == (cell_index(p) == i));
        assert(covers(seq![q], i as int) == (cell_index(q) == i));
        if covers(ca, i as int) {
            let j = choose|j: int| 0 <= j < ca.len() && cell_index(#[trigger] ca[j]) == i;
            assert(ca[j] == m.cells()[j]);
            assert(j != k);
            lemma_index_injective(ca[j], p);
        }
        if covers(cb, i as int) {
            let j = choose|j: int| 0 <= j < cb.len() && cell_index(#[trigger] cb[j]) == i;
            assert(cb[j] == m.cells()[k + 1 + j]);
            lemma_index_injective(cb[j], p);
        }
    }
    crate::bits::lemma_ext(after, (before & !mask_of(p)) | mask_of(q));
}

pub proof fn lemma_legal_edge_symmetric(a: int, b: int)
    ensures
        legal_edge(a, b) == legal_edge(b, a),
{
}

/// The fox's placement has a number.
pub proof fn lemma_lane_keyable(f: Fox)
    requires
        on_board(f.pos1),
        on_board(f.pos2),
        lane_fox(f),
    ensures
        indexable(f.pos1),
        indexable(f.pos2),
        keyable(f),
{
    let i1 = cell_index(f.pos1);
    let i2 = cell_index(f.pos2);
    assert(0 <= i1 < 25 && 0 <= i2 < 25);
    assert(i1 % 256 == i1 && i2 % 256 == i2);
    crate::geometry::lemma_adjacent_order(i1, i2);
    lemma_legal_edge_symmetric(i1, i2);
    let p = fox_index_pair(f);
    assert(p == (i1, i2) || p == (i2, i1));
    assert(p.0 < p.1);
    assert(legal_edge(p.0, p.1));
    let k = p.0 * 25 + p.1;
    assert(k / 25 == p.0 && k % 25 == p.1);
}

proof fn lemma_lane_coords(x1: int, y1: int, x2: int, y2: int)
    requires
        0 <= x1 < 5,
        0 <= y1 < 5,
        0 <= x2 < 5,
        0 <= y2 < 5,
        crate::geometry::abs(x1 - x2) + crate::geometry::abs(y1 - y2) == 1,
        !(x1 % 2 == 0 && y1 % 2 == 0),
        !(x2 % 2 == 0 && y2 % 2 == 0),
    ensures
        x1 == x2 ==> x1 % 2 == 1 && crate::geometry::abs(y1 - y2) == 1,
        x1 != x2 ==> y1 == y2 && y1 % 2 == 1 && crate::geometry::abs(x1 - x2) == 1,
{
    if x1 == x2 {
        assert(y1 == y2 + 1 || y2 == y1 + 1);
        assert(y1 % 2 == 0 || y2 % 2 == 0);
    } else {
        assert(y1 == y2);
        assert(x1 == x2 + 1 || x2 == x1 + 1);
        assert(x1 % 2 == 0 || x2 % 2 == 0);
    }
}

/// Coordinates of a fox on two neighbouring cells of a lane.
pub proof fn lemma_lane_fox(f: Fox)
    requires
        on_board(f.pos1),
        on_board(f.pos2),
        lane_fox(f),
    ensures
        indexable(f.pos1),
        indexable(f.pos2),
        keyable(f),
        is_vertical(f) ==> f.pos1.0 % 2 == 1 && crate::geometry::abs(f.pos1.1 - f.pos2.1) == 1,
        !is_vertical(f) ==> f.pos1.1 == f.pos2.1 && f.pos1.1 % 2 == 1 && crate::geometry::abs(
            f.pos1.0 - f.pos2.0,
        ) == 1,
{
    lemma_lane_keyable(f);
    let x1 = f.pos1.0 as int;
    let y1 = f.pos1.1 as int;
    let x2 = f.pos2.0 as int;
    let y2 = f.pos2.1 as int;
    crate::geometry::lemma_index_coords(x1, y1);
    crate::geometry::lemma_index_coords(x2, y2);
    let i1 = cell_index(f.pos1);
    let i2 = cell_index(f.pos2);
    assert(crate::geometry::col(i1) == x1 && crate::geometry::row(i1) == y1);
    assert(crate::geometry::col(i2) == x2 && crate::geometry::row(i2) == y2);
    assert(crate::geometry::abs(x1 - x2) + crate::geometry::abs(y1 - y2) == 1);
    assert(!(x1 % 2 == 0 && y1 % 2 == 0));
    assert(!(x2 % 2 == 0 && y2 % 2 == 0));
    lemma_lane_coords(x1, y1, x2, y2);
}

/// Cells of a slide along a column keep the column, along a row keep the row.
pub proof fn lemma_slide_line(occ: u32, x: int, y: int, dx: int, dy: int)
    ensures
        forall|j: int|
            0 <= j < slide(occ, x, y, dx, dy).len() ==> (dx == 0 ==> (#[trigger] slide(
                occ,
                x,
                y,
                dx,
                dy,
            )[j]).0 == x) && (dy == 0 ==> slide(occ, x, y, dx, dy)[j].1 == y),
    decreases steps_left(x, y, dx, dy),
{
    if is_unit(dx, dy) && in_board(x, y) && !taken(occ, x, y) {
        lemma_slide_line(occ, x + dx, y + dy, dx, dy);
        let s = slide(occ, x, y, dx, dy);
        let r = slide(occ, x + dx, y + dy, dx, dy);
        assert(s == seq![(x, y)] + r);
        assert forall|j: int| 0 <= j < s.len() implies (dx == 0 ==> (#[trigger] s[j]).0 == x) && (dy
            == 0 ==> s[j].1 == y) by {
            if j > 0 {
                assert(s[j] == r[j - 1]);
            }
        }
    }
}

/// Where a fox lands: its new cells are on the board, on its lane, one step apart, and
/// free, except that the trailing cell may be one the fox left.
pub proof fn lemma_fox_target(m: BoardModel, from: Fox, to: Fox) -> (r: ((usize, usize), (usize, usize)))
    requires
        m.valid(),
        on_board(from.pos1),
        on_board(from.pos2),
        lane_fox(from),
        fox_moves(m.occupancy(), from).contains(to),
    ensures
        to == normalized(Fox { pos1: r.0, pos2: r.1 }),
        on_board(r.0),
        on_board(r.1),
        on_board(to.pos1),
        on_board(to.pos2),
        r.0 != r.1,
        to.pos1 != to.pos2,
        lane_fox(to),
        crate::geometry::abs(r.0.0 - r.1.0) + crate::geometry::abs(r.0.1 - r.1.1) == 1,
        !(r.0.0 % 2 == 0 && r.0.1 % 2 == 0),
        !(r.1.0 % 2 == 0 && r.1.1 % 2 == 0),
        !m.cells().contains(r.0),
        r.1 == from.pos1 || r.1 == from.pos2 || !m.cells().contains(r.1),
{
    let occ = m.occupancy();
    lemma_lane_fox(from);
    lemma_fox_dest(occ, from, to);
    let (dx, dy, j) = choose|dx: int, dy: int, j: int|
        #![trigger lane_dir(from, dx, dy), slide(occ, slide_start(from, dx, dy).0 + dx, slide_start(from, dx, dy).1 + dy, dx, dy)[j]]
        lane_dir(from, dx, dy) && 0 <= j < slide(
            occ,
            slide_start(from, dx, dy).0 + dx,
            slide_start(from, dx, dy).1 + dy,
            dx,
            dy,
        ).len() && to == fox_at(
            slide(occ, slide_start(from, dx, dy).0 + dx, slide_start(from, dx, dy).1 + dy, dx, dy)[j],
            dx,
            dy,
        );
    let st = slide_start(from, dx, dy);
    let sl = slide(occ, st.0 + dx, st.1 + dy, dx, dy);
    lemma_slide(occ, st.0 + dx, st.1 + dy, dx, dy);
    lemma_slide_line(occ, st.0 + dx, st.1 + dy, dx, dy);
    let head = sl[j];
    let tail = (head.0 - dx, head.1 - dy);
    assert(tail == if j == 0 {
        st
    } else {
        sl[j - 1]
    });
    let hp = (head.0 as usize, head.1 as usize);
    let tp = (tail.0 as usize, tail.1 as usize);
    assert(in_board(head.0, head.1) && !taken(occ, head.0, head.1));
    assert(on_board(hp) && on_board(tp));
    assert(j > 0 ==> !taken(occ, tail.0, tail.1));
    assert(j == 0 ==> tp == from.pos1 || tp == from.pos2);
    assert(crate::geometry::abs(hp.0 - tp.0) + crate::geometry::abs(hp.1 - tp.1) == 1);
    assert(!(hp.0 % 2 == 0 && hp.1 % 2 == 0));
    assert(!(tp.0 % 2 == 0 && tp.1 % 2 == 0));
    assert(to == normalized(Fox { pos1: hp, pos2: tp }));
    crate::geometry::lemma_index_coords(hp.0 as int, hp.1 as int);
    crate::geometry::lemma_index_coords(tp.0 as int, tp.1 as int);
    lemma_legal_edge_symmetric(cell_index(hp), cell_index(tp));
    assert(lane_fox(to));
    lemma_filled_iff(m, hp);
    if j > 0 {
        lemma_filled_iff(m, tp);
    }
    (hp, tp)
}

pub open spec fn lifted(m: BoardModel, k: int) -> BoardModel {
    m.with_foxes(m.foxes.take(k) + m.foxes.skip(k + 1))
}

pub open spec fn indicator<A>(x: A, y: A) -> nat {
    if x == y {
        1nat
    } else {
        0nat
    }
}

/// Counting the cells of a board before and after a fox move.
proof fn lemma_fox_cells_count(m: BoardModel, k: int, to: Fox)
    requires
        0 <= k < m.foxes.len(),
    ensures
        forall|x: (usize, usize)|
            occurrences(lifted(m, k).cells(), x) + indicator(x, m.foxes[k].pos1) + indicator(
                x,
                m.foxes[k].pos2,
            ) == #[trigger] occurrences(m.cells(), x),
        forall|x: (usize, usize)|
            #[trigger] occurrences(lifted(m, k).with_fox(to).cells(), x) == occurrences(
                lifted(m, k).cells(),
                x,
            ) + indicator(x, to.pos1) + indicator(x, to.pos2),
        forall|i: int|
            0 <= i < lifted(m, k).cells().len() ==> m.cells().contains(
                #[trigger] lifted(m, k).cells()[i],
            ),
        forall|i: int|
            0 <= i < lifted(m, k).with_fox(to).cells().len() ==> (exists|i2: int|
                0 <= i2 < lifted(m, k).cells().len() && lifted(m, k).cells()[i2]
                    == #[trigger] lifted(m, k).with_fox(to).cells()[i]) || lifted(m, k).with_fox(
                to,
            ).cells()[i] == to.pos1 || lifted(m, k).with_fox(to).cells()[i] == to.pos2,
{
    let fs = m.foxes;
    let from = fs[k];
    let a = fs.take(k);
    let b = fs.skip(k + 1);
    crate::seqs::lemma_split_at(fs, k);
    let cb = bunny_cells(m.bunnies);
    let fa = fox_cells(a);
    let fb = fox_cells(b);
    let u = mushroom_cells(m.mushrooms);
    let pf = seq![from.pos1, from.pos2];
    let pt = seq![to.pos1, to.pos2];
    crate::seqs::lemma_fox_cells_concat(a + seq![from], b);
    crate::seqs::lemma_fox_cells_concat(a, seq![from]);
    crate::seqs::lemma_fox_cells_single(from);
    crate::seqs::lemma_fox_cells_concat(a, b);
    crate::seqs::lemma_fox_cells_concat(a + b, seq![to]);
    crate::seqs::lemma_fox_cells_single(to);
    assert(fs == a + seq![from] + b);
    assert(m.cells() =~= cb + fa + pf + fb + u);
    let m1 = lifted(m, k);
    let m2 = m1.with_fox(to);
    assert((a + b).push(to) == a + b + seq![to]);
    assert(m1.cells() =~= cb + fa + fb + u);
    assert(m2.cells() =~= cb + fa + fb + pt + u);
    assert forall|x: (usize, usize)|
        occurrences(m1.cells(), x) + indicator(x, from.pos1) + indicator(x, from.pos2)
            == #[trigger] occurrences(m.cells(), x) by {
        lemma_occurrences_concat(cb + fa + pf + fb, u, x);
        lemma_occurrences_concat(cb + fa + pf, fb, x);
        lemma_occurrences_concat(cb + fa, pf, x);
        lemma_occurrences_concat(cb, fa, x);
        lemma_occurrences_concat(cb + fa + fb, u, x);
        lemma_occurrences_concat(cb + fa, fb, x);
        assert(pf == seq![from.pos1] + seq![from.pos2]);
        lemma_occurrences_concat(seq![from.pos1], seq![from.pos2], x);
        lemma_occurrences_single(from.pos1, x);
        lemma_occurrences_single(from.pos2, x);
    }
    assert forall|x: (usize, usize)|
        #[trigger] occurrences(m2.cells(), x) == occurrences(m1.cells(), x) + indicator(x, to.pos1)
            + indicator(x, to.pos2) by {
        lemma_occurrences_concat(cb + fa + fb + pt, u, x);
        lemma_occurrences_concat(cb + fa + fb, pt, x);
        lemma_occurrences_concat(cb + fa + fb, u, x);
        assert(pt == seq![to.pos1] + seq![to.pos2]);
        lemma_occurrences_concat(seq![to.pos1], seq![to.pos2], x);
        lemma_occurrences_single(to.pos1, x);
        lemma_occurrences_single(to.pos2, x);
    }
    assert forall|i: int| 0 <= i < m1.cells().len() implies m.cells().contains(
        #[trigger] m1.cells()[i],
    ) by {
        if i < cb.len() + fa.len() {
            assert(m.cells()[i] == m1.cells()[i]);
        } else {
            assert(m.cells()[i + 2] == m1.cells()[i]);
        }
    }
    assert forall|i: int| 0 <= i < m2.cells().len() implies (exists|i2: int|
        0 <= i2 < m1.cells().len() && m1.cells()[i2] == #[trigger] m2.cells()[i]) || m2.cells()[i]
        == to.pos1 || m2.cells()[i] == to.pos2 by {
        let n1 = cb.len() + fa.len() + fb.len();
        if i < n1 {
            assert(m1.cells()[i] == m2.cells()[i]);
        } else if i >= n1 + 2 {
            assert(m1.cells()[i - 2] == m2.cells()[i]);
        }
    }
}

/// A fox move generated on a position can be made and leads to a position.
#[verifier::rlimit(30)]
pub proof fn lemma_fox_move_valid(m: BoardModel, from: Fox, to: Fox)
    requires
        m.valid(),
        m.foxes.contains(from),
        fox_moves(m.occupancy(), from).contains(to),
    ensures
        m.apply(Move::Fox { from, to }) == Ok::<BoardModel, InvalidBoardError>(
            m.with_foxes(without(m.foxes, from).push(to)),
        ),
        m.with_foxes(without(m.foxes, from).push(to)).valid(),
        on_board(from.pos1) && on_board(from.pos2) && lane_fox(from),
        on_board(to.pos1) && on_board(to.pos2) && lane_fox(to),
        exists|k: int| 0 <= k < m.foxes.len() && m.foxes[k] == from && without(m.foxes, from) == m.foxes.take(k) + m.foxes.skip(k + 1),
{
    let fs = m.foxes;
    let k = choose|k: int| 0 <= k < fs.len() && fs[k] == from;
    lemma_fox_once(m, k);
    crate::seqs::lemma_without_once(fs, k);
    let w = without(fs, from);
    lemma_cells_index(m);
    let nb = m.bunnies.len();
    assert(on_board(from.pos1)) by {
        assert(m.cells()[nb + 2 * k] == from.pos1);
    }
    assert(on_board(from.pos2)) by {
        assert(m.cells()[nb + 2 * k + 1] == from.pos2);
    }
    assert(lane_fox(fs[k]));
    let (hp, tp) = lemma_fox_target(m, from, to);
    lemma_fox_cells_count(m, k, to);
    assert(w == fs.take(k) + fs.skip(k + 1));
    let m1 = lifted(m, k);
    assert(m1 == m.with_foxes(w));
    let m2 = m1.with_fox(to);
    crate::seqs::lemma_no_dup_counts(m.cells());
    crate::seqs::lemma_no_dup_counts(m2.cells());
    assert(from.pos1 != from.pos2) by {
        assert(m.cells()[nb + 2 * k] != m.cells()[nb + 2 * k + 1]);
    }
    assert(all_on_board(m1.cells())) by {
        assert forall|i: int| 0 <= i < m1.cells().len() implies on_board(#[trigger] m1.cells()[i]) by {
            assert(m.cells().contains(m1.cells()[i]));
            let i2 = choose|i2: int| 0 <= i2 < m.cells().len() && m.cells()[i2] == m1.cells()[i];
        }
    }
    assert(all_on_board(m2.cells())) by {
        assert forall|i: int| 0 <= i < m2.cells().len() implies on_board(#[trigger] m2.cells()[i]) by {
            if m2.cells()[i] != to.pos1 && m2.cells()[i] != to.pos2 {
                let i2 = choose|i2: int| 0 <= i2 < m1.cells().len() && m1.cells()[i2] == m2.cells()[i];
            }
        }
    }
    // the new cells are free once the fox is lifted
    lemma_occurrences_contains(m.cells(), hp);
    lemma_occurrences_contains(m.cells(), tp);
    assert(occurrences(m.cells(), from.pos1) <= 1);
    assert(occurrences(m.cells(), from.pos2) <= 1);
    assert(occurrences(m.cells(), hp) == 0);
    assert(occurrences(m1.cells(), hp) == 0);
    assert(occurrences(m1.cells(), tp) == 0);
    lemma_occurrences_contains(m1.cells(), hp);
    lemma_occurrences_contains(m1.cells(), tp);
    lemma_filled_iff(m1, hp);
    lemma_filled_iff(m1, tp);
    assert(to.pos1 == hp || to.pos1 == tp);
    assert(to.pos2 == hp || to.pos2 == tp);
    assert(!m1.filled(to.pos1) && !m1.filled(to.pos2));
    assert(m1.fox_placement(to.pos1, to.pos2) == Ok::<(), InvalidBoardError>(()));
    assert(m.apply(Move::Fox { from, to }) == Ok::<BoardModel, InvalidBoardError>(m2));
    // validity
    assert forall|x: (usize, usize)| #[trigger] m2.cells().to_multiset().count(x) <= 1 by {
        assert(occurrences(m.cells(), x) <= 1);
        assert(occurrences(m2.cells(), x) == occurrences(m1.cells(), x) + indicator(x, to.pos1)
            + indicator(x, to.pos2));
        assert(occurrences(m1.cells(), x) + indicator(x, from.pos1) + indicator(x, from.pos2)
            == occurrences(m.cells(), x));
    }
    crate::board::lemma_without(fs, from);
    assert forall|i: int| 0 <= i < m2.foxes.len() implies lane_fox(#[trigger] m2.foxes[i]) by {
        if i < w.len() {
            assert(m2.foxes[i] == w[i]);
            assert(fs.contains(w[i]));
            let q = choose|q: int| 0 <= q < fs.len() && fs[q] == w[i];
            assert(lane_fox(fs[q]));
        }
    }
}

/// A fox move generated on a position can be made; it leads to a position whose key
/// is the old key after the move.
pub proof fn lemma_fox_move(m: BoardModel, from: Fox, to: Fox)
    requires
        m.valid(),
        m.foxes.contains(from),
        fox_moves(m.occupancy(), from).contains(to),
    ensures
        m.apply(Move::Fox { from, to }) == Ok::<BoardModel, InvalidBoardError>(
            m.with_foxes(without(m.foxes, from).push(to)),
        ),
        m.with_foxes(without(m.foxes, from).push(to)).valid(),
        m.state().can_apply(Move::Fox { from, to }),
        m.with_foxes(without(m.foxes, from).push(to)).state() == m.state().apply(
            Move::Fox { from, to },
        ),
{
    lemma_fox_move_valid(m, from, to);
    lemma_lane_keyable(from);
    lemma_lane_keyable(to);
    let fs = m.foxes;
    let k = choose|k: int| 0 <= k < fs.len() && fs[k] == from && without(fs, from) == fs.take(k) + fs.skip(k + 1);
    let a = fs.take(k);
    let b = fs.skip(k + 1);
    crate::seqs::lemma_split_at(fs, k);
    let m2 = m.with_foxes(without(fs, from).push(to));
    let idf = fox_id(from);
    let idt = fox_id(to);
    let mapped = fs.map_values(|f: Fox| fox_id(f));
    let ids = sort_ids(mapped);
    let ma = a.map_values(|f: Fox| fox_id(f));
    let mb = b.map_values(|f: Fox| fox_id(f));
    assert(mapped =~= ma + seq![idf] + mb);
    let after = (a + b + seq![to]).map_values(|f: Fox| fox_id(f));
    assert((a + b).push(to) == a + b + seq![to]);
    assert(after =~= ma + mb + seq![idt]);
    <u8 as crate::order::Ordered>::lemma_total_order();
    mapped.lemma_sort_by_ensures(crate::order::leq::<u8>());
    assert(mapped.contains(idf)) by {
        assert(mapped[k] == idf);
    }
    lemma_occurrences_contains(mapped, idf);
    lemma_occurrences_contains(ids, idf);
    assert(ids.contains(idf));
    let c = ids.index_of(idf);
    vstd::seq_lib::to_multiset_update(ids, c, idt);
    let upd = ids.update(c, idt);
    assert forall|x: u8| #[trigger] after.to_multiset().count(x) == upd.to_multiset().count(x) by {
        lemma_occurrences_concat(ma + seq![idf], mb, x);
        lemma_occurrences_concat(ma, seq![idf], x);
        lemma_occurrences_concat(ma + mb, seq![idt], x);
        lemma_occurrences_concat(ma, mb, x);
        lemma_occurrences_single(idf, x);
        lemma_occurrences_single(idt, x);
        broadcast use vstd::multiset::group_multiset_axioms;
    }
    assert(after.to_multiset() =~= upd.to_multiset());
    crate::compare::lemma_sort_same(after, upd);
    assert(m2.state().foxes == sort_ids(after));
}

/// Every move generated on a position can be made, leads to a position with as many
/// pieces of each kind, and turns the position's key into the key after the move.
pub proof fn lemma_move_keeps_position(m: BoardModel, i: int)
    requires
        m.valid(),
        0 <= i < m.all_moves().len(),
    ensures
        m.apply(m.all_moves()[i]) is Ok,
        m.apply(m.all_moves()[i]) matches Ok(m2) && m2.valid() && m2.foxes.len() == m.foxes.len()
            && m2.bunnies.len() == m.bunnies.len() && m2.mushrooms == m.mushrooms
            && m2.state() == m.state().apply(m.all_moves()[i]),
        m.state().can_apply(m.all_moves()[i]),
{
    lemma_move_member(m, i);
    match m.all_moves()[i] {
        Move::Bunny { from, to } => {
            lemma_bunny_move(m, from, to);
            let k = choose|k: int| 0 <= k < m.bunnies.len() && m.bunnies[k] == from;
            lemma_bunny_once(m, k);
            crate::seqs::lemma_without_once(m.bunnies, k);
        },
        Move::Fox { from, to } => {
            lemma_fox_move(m, from, to);
            lemma_fox_move_valid(m, from, to);
        },
    }
}

/// On a position every generated move can be made.
pub proof fn lemma_valid_moves_succeed(m: BoardModel)
    requires
        m.valid(),
    ensures
        m.moves_succeed(),
{
    assert forall|i: int| 0 <= i < m.all_moves().len() implies (#[trigger] m.apply(
        m.all_moves()[i],
    )) is Ok by {
        lemma_move_keeps_position(m, i);
    }
}

/// A position's foxes all have placement numbers, so its key is well numbered.
pub proof fn lemma_valid_keyable(m: BoardModel)
    requires
        m.valid(),
    ensures
        m.indexable(),
        m.keyable(),
        m.state().well_numbered(),
{
    lemma_valid_indexable(m);
    lemma_cells_index(m);
    let nb = m.bunnies.len();
    assert forall|i: int| 0 <= i < m.foxes.len() implies keyable(#[trigger] m.foxes[i]) by {
        assert(m.cells()[nb + 2 * i] == m.foxes[i].pos1);
        assert(m.cells()[nb + 2 * i + 1] == m.foxes[i].pos2);
        lemma_lane_keyable(m.foxes[i]);
    }
    let mapped = m.foxes.map_values(|f: Fox| fox_id(f));
    <u8 as crate::order::Ordered>::lemma_total_order();
    mapped.lemma_sort_by_ensures(crate::order::leq::<u8>());
    let ids = sort_ids(mapped);
    assert forall|i: int| 0 <= i < ids.len() implies (#[trigger] ids[i] as int)
        < crate::geometry::placement_count() by {
        lemma_occurrences_contains(ids, ids[i]);
        assert(ids.contains(ids[i]));
        lemma_occurrences_contains(mapped, ids[i]);
        let j = choose|j: int| 0 <= j < mapped.len() && mapped[j] == ids[i];
        let f = m.foxes[j];
        let p = fox_index_pair(f);
        crate::geometry::lemma_rank_listed_lt(p.0 * 25 + p.1, 625);
        crate::geometry::lemma_rank_small(p.0 * 25 + p.1);
    }
}

} // verus!
