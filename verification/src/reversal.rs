//! Moves change the board, each move is listed once, and every move is undone by the
//! reverse move.
use vstd::prelude::*;
use crate::board::{
    BoardModel, without, bunny_cells, fox_cells, mushroom_cells, lemma_fox_cells_take,
    lemma_without,
};
use crate::geometry::on_board;
use crate::graph::after;
use crate::moves::{
    bunny_jump, bunny_moves, bunny_moves_upto, bunny_part, dir_x, dir_y, fox_at, fox_moves,
    fox_moves_dir, fox_part, in_board, is_unit, landed_bunny, landing, slide, slide_start,
    steps_left, taken,
};
use crate::pieces::{Bunny, Fox, Move, Mushroom, is_vertical, normalized, pos_sum};
use crate::rules::{
    lane_dir, lane_fox, lemma_bunny_dest, lemma_bunny_move, lemma_bunny_part_member,
    lemma_cells_index, lemma_filled_iff, lemma_fox_dest, lemma_fox_move, lemma_fox_part_member,
    lemma_move_member, lemma_slide,
};
use crate::turned_moves::{
    dir_of, jump_gives, lemma_bunny_moves_from, lemma_bunny_moves_source, lemma_front,
    lemma_fox_moves_from,
};

verus! {

broadcast use vstd::seq_lib::group_to_multiset_ensures;

/// A free cell of a position holds no piece.
proof fn lemma_free_cell(m: BoardModel, x: int, y: int)
    requires
        m.valid(),
        in_board(x, y),
        !taken(m.occupancy(), x, y),
    ensures
        !m.cells().contains((x as usize, y as usize)),
        forall|j: int| 0 <= j < m.bunnies.len() ==> (#[trigger] m.bunnies[j]).pos != (x as usize, y as usize),
        forall|j: int|
            0 <= j < m.foxes.len() ==> (#[trigger] m.foxes[j]).pos1 != (x as usize, y as usize)
                && m.foxes[j].pos2 != (x as usize, y as usize),
{
    let p = (x as usize, y as usize);
    lemma_filled_iff(m, p);
    lemma_cells_index(m);
    let nb = m.bunnies.len() as int;
    assert forall|j: int| 0 <= j < m.bunnies.len() implies (#[trigger] m.bunnies[j]).pos != p by {
        assert(m.cells()[j] == m.bunnies[j].pos);
    }
    assert forall|j: int| 0 <= j < m.foxes.len() implies (#[trigger] m.foxes[j]).pos1 != p
        && m.foxes[j].pos2 != p by {
        assert(m.cells()[nb + 2 * j] == m.foxes[j].pos1);
        assert(m.cells()[nb + 2 * j + 1] == m.foxes[j].pos2);
    }
}

/// The moved piece lands where no piece of its kind stood.
proof fn lemma_target_new(m: BoardModel, i: int)
    requires
        m.valid(),
        0 <= i < m.all_moves().len(),
    ensures
        match m.all_moves()[i] {
            Move::Bunny { from, to } => !m.bunnies.contains(to),
            Move::Fox { from, to } => !m.foxes.contains(to),
        },
{
    lemma_move_member(m, i);
    let occ = m.occupancy();
    match m.all_moves()[i] {
        Move::Bunny { from, to } => {
            lemma_bunny_dest(occ, from, to);
            lemma_free_cell(m, to.pos.0 as int, to.pos.1 as int);
        },
        Move::Fox { from, to } => {
            lemma_fox_dest(occ, from, to);
            let (dx, dy, j) = choose|dx: int, dy: int, j: int|
                #![trigger lane_dir(from, dx, dy), slide(occ, slide_start(from, dx, dy).0 + dx, slide_start(from, dx, dy).1 + dy, dx, dy)[j]]
                lane_dir(from, dx, dy) && 0 <= j < slide(
                    occ,
                    slide_start(from, dx, dy).0 + dx,
                    slide_start(from, dx, dy).1 + dy,
                    dx,
                    dy,
                ).len() && to == fox_at(
                    slide(
                        occ,
                        slide_start(from, dx, dy).0 + dx,
                        slide_start(from, dx, dy).1 + dy,
                        dx,
                        dy,
                    )[j],
                    dx,
                    dy,
                );
            let st = slide_start(from, dx, dy);
            let sl = slide(occ, st.0 + dx, st.1 + dy, dx, dy);
            lemma_slide(occ, st.0 + dx, st.1 + dy, dx, dy);
            let c = sl[j];
            lemma_free_cell(m, c.0, c.1);
            assert(to.pos1 == (c.0 as usize, c.1 as usize) || to.pos2 == (c.0 as usize, c.1 as usize));
        },
    }
}

/// No move leaves a position as it was: the moved piece lands where no piece of its kind
/// stood.
pub proof fn lemma_move_changes(m: BoardModel, i: int)
    requires
        m.valid(),
        0 <= i < m.all_moves().len(),
    ensures
        m.apply(m.all_moves()[i]) matches Ok(m2) && !m2.same_pieces(m),
{
    lemma_move_member(m, i);
    lemma_target_new(m, i);
    match m.all_moves()[i] {
        Move::Bunny { from, to } => {
            lemma_bunny_move(m, from, to);
            let m2 = m.with_bunnies(without(m.bunnies, from).push(to));
            assert(m2.bunnies[m2.bunnies.len() - 1] == to);
            vstd::seq_lib::to_multiset_contains(m.bunnies, to);
            vstd::seq_lib::to_multiset_contains(m2.bunnies, to);
        },
        Move::Fox { from, to } => {
            lemma_fox_move(m, from, to);
            let m2 = m.with_foxes(without(m.foxes, from).push(to));
            assert(m2.foxes[m2.foxes.len() - 1] == to);
            vstd::seq_lib::to_multiset_contains(m.foxes, to);
            vstd::seq_lib::to_multiset_contains(m2.foxes, to);
        },
    }
}

/// The cell `k` steps from `(x, y)` in direction `(dx, dy)`.
pub open spec fn step_cell(x: int, y: int, dx: int, dy: int, k: int) -> (int, int) {
    (x + k * dx, y + k * dy)
}

/// Landing passes taken cells of the board and stops on the first free one.
proof fn lemma_landing_walk(occ: u32, x: int, y: int, dx: int, dy: int)
    requires
        landing(occ, x, y, dx, dy) is Some,
    ensures
        is_unit(dx, dy),
        exists|k: int|
            0 <= k && landing(occ, x, y, dx, dy) == Some(#[trigger] step_cell(x, y, dx, dy, k))
                && (forall|j: int|
                0 <= j < k ==> in_board(step_cell(x, y, dx, dy, j).0, step_cell(x, y, dx, dy, j).1)
                    && taken(occ, #[trigger] step_cell(x, y, dx, dy, j).0, step_cell(x, y, dx, dy, j).1))
                && in_board(step_cell(x, y, dx, dy, k).0, step_cell(x, y, dx, dy, k).1) && !taken(
                occ,
                step_cell(x, y, dx, dy, k).0,
                step_cell(x, y, dx, dy, k).1,
            ),
    decreases steps_left(x, y, dx, dy),
{
    if !taken(occ, x, y) {
        assert(step_cell(x, y, dx, dy, 0) == (x, y));
    } else {
        lemma_landing_walk(occ, x + dx, y + dy, dx, dy);
        let k = choose|k: int|
            0 <= k && landing(occ, x + dx, y + dy, dx, dy) == Some(#[trigger] step_cell(x + dx, y + dy, dx, dy, k))
                && (forall|j: int|
                0 <= j < k ==> in_board(step_cell(x + dx, y + dy, dx, dy, j).0, step_cell(x + dx, y + dy, dx, dy, j).1)
                    && taken(occ, #[trigger] step_cell(x + dx, y + dy, dx, dy, j).0, step_cell(x + dx, y + dy, dx, dy, j).1))
                && in_board(step_cell(x + dx, y + dy, dx, dy, k).0, step_cell(x + dx, y + dy, dx, dy, k).1) && !taken(
                occ,
                step_cell(x + dx, y + dy, dx, dy, k).0,
                step_cell(x + dx, y + dy, dx, dy, k).1,
            );
        assert(step_cell(x, y, dx, dy, k + 1) == step_cell(x + dx, y + dy, dx, dy, k));
        assert forall|j: int| 0 <= j < k + 1 implies in_board(step_cell(x, y, dx, dy, j).0, step_cell(x, y, dx, dy, j).1)
            && taken(occ, #[trigger] step_cell(x, y, dx, dy, j).0, step_cell(x, y, dx, dy, j).1) by {
            if j > 0 {
                assert(step_cell(x, y, dx, dy, j) == step_cell(x + dx, y + dy, dx, dy, j - 1));
            } else {
                assert(step_cell(x, y, dx, dy, 0) == (x, y));
            }
        }
    }
}

/// Landing from `(x, y)` when the first `k` cells are taken and the next is free.
proof fn lemma_landing_from_walk(occ: u32, x: int, y: int, dx: int, dy: int, k: int)
    requires
        is_unit(dx, dy),
        0 <= k,
        forall|j: int|
            0 <= j < k ==> in_board(step_cell(x, y, dx, dy, j).0, step_cell(x, y, dx, dy, j).1)
                && taken(occ, #[trigger] step_cell(x, y, dx, dy, j).0, step_cell(x, y, dx, dy, j).1),
        in_board(step_cell(x, y, dx, dy, k).0, step_cell(x, y, dx, dy, k).1),
        !taken(occ, step_cell(x, y, dx, dy, k).0, step_cell(x, y, dx, dy, k).1),
    ensures
        landing(occ, x, y, dx, dy) == Some(step_cell(x, y, dx, dy, k)),
    decreases k,
{
    if k == 0 {
        assert(step_cell(x, y, dx, dy, 0) == (x, y));
    } else {
        assert(step_cell(x, y, dx, dy, 0) == (x, y));
        assert(in_board(step_cell(x, y, dx, dy, 0).0, step_cell(x, y, dx, dy, 0).1) && taken(
            occ,
            step_cell(x, y, dx, dy, 0).0,
            step_cell(x, y, dx, dy, 0).1,
        ));
        assert forall|j: int|
            0 <= j < k - 1 implies in_board(step_cell(x + dx, y + dy, dx, dy, j).0, step_cell(x + dx, y + dy, dx, dy, j).1)
                && taken(occ, #[trigger] step_cell(x + dx, y + dy, dx, dy, j).0, step_cell(x + dx, y + dy, dx, dy, j).1) by {
            assert(step_cell(x + dx, y + dy, dx, dy, j) == step_cell(x, y, dx, dy, j + 1));
        }
        assert(step_cell(x + dx, y + dy, dx, dy, k - 1) == step_cell(x, y, dx, dy, k));
        lemma_landing_from_walk(occ, x + dx, y + dy, dx, dy, k - 1);
    }
}

/// Sliding from `(x, y)` passes the cell `k` steps on when it and all before it are free.
proof fn lemma_slide_from_walk(occ: u32, x: int, y: int, dx: int, dy: int, k: int)
    requires
        is_unit(dx, dy),
        0 <= k,
        forall|j: int|
            0 <= j <= k ==> in_board(step_cell(x, y, dx, dy, j).0, step_cell(x, y, dx, dy, j).1)
                && !taken(occ, #[trigger] step_cell(x, y, dx, dy, j).0, step_cell(x, y, dx, dy, j).1),
    ensures
        k < slide(occ, x, y, dx, dy).len(),
        slide(occ, x, y, dx, dy)[k] == step_cell(x, y, dx, dy, k),
    decreases k,
{
    assert(step_cell(x, y, dx, dy, 0) == (x, y));
    assert(in_board(step_cell(x, y, dx, dy, 0).0, step_cell(x, y, dx, dy, 0).1) && !taken(
        occ,
        step_cell(x, y, dx, dy, 0).0,
        step_cell(x, y, dx, dy, 0).1,
    ));
    let rest = slide(occ, x + dx, y + dy, dx, dy);
    assert(slide(occ, x, y, dx, dy) == seq![(x, y)] + rest);
    if k > 0 {
        assert forall|j: int|
            0 <= j <= k - 1 implies in_board(step_cell(x + dx, y + dy, dx, dy, j).0, step_cell(x + dx, y + dy, dx, dy, j).1)
                && !taken(occ, #[trigger] step_cell(x + dx, y + dy, dx, dy, j).0, step_cell(x + dx, y + dy, dx, dy, j).1) by {
            assert(step_cell(x + dx, y + dy, dx, dy, j) == step_cell(x, y, dx, dy, j + 1));
        }
        assert(step_cell(x + dx, y + dy, dx, dy, k - 1) == step_cell(x, y, dx, dy, k));
        lemma_slide_from_walk(occ, x + dx, y + dy, dx, dy, k - 1);
        assert((seq![(x, y)] + rest)[k] == rest[k - 1]);
    }
}

/// The cells the moved piece leaves.
pub open spec fn vacated(mv: Move, p: (usize, usize)) -> bool {
    match mv {
        Move::Bunny { from, to } => from.pos == p,
        Move::Fox { from, to } => from.pos1 == p || from.pos2 == p,
    }
}

/// The cells the moved piece covers afterwards.
pub open spec fn entered(mv: Move, p: (usize, usize)) -> bool {
    match mv {
        Move::Bunny { from, to } => to.pos == p,
        Move::Fox { from, to } => to.pos1 == p || to.pos2 == p,
    }
}

proof fn lemma_fox_cells_contains(s: Seq<Fox>, p: (usize, usize))
    ensures
        fox_cells(s).contains(p) == exists|j: int|
            0 <= j < s.len() && ((#[trigger] s[j]).pos1 == p || s[j].pos2 == p),
{
    lemma_fox_cells_take(s, 0);
    let c = fox_cells(s);
    if c.contains(p) {
        let q = choose|q: int| 0 <= q < c.len() && c[q] == p;
        let j = q / 2;
        assert(q == 2 * j || q == 2 * j + 1);
        assert(s[j].pos1 == p || s[j].pos2 == p);
    }
    if exists|j: int| 0 <= j < s.len() && ((#[trigger] s[j]).pos1 == p || s[j].pos2 == p) {
        let j = choose|j: int| 0 <= j < s.len() && ((#[trigger] s[j]).pos1 == p || s[j].pos2 == p);
        if s[j].pos1 == p {
            assert(c[2 * j] == p);
        } else {
            assert(c[2 * j + 1] == p);
        }
    }
}

proof fn lemma_cells_contains(m: BoardModel, p: (usize, usize))
    ensures
        m.cells().contains(p) == (m.bunnies.contains(Bunny { pos: p }) || fox_cells(m.foxes).contains(p)
            || m.mushrooms.contains(Mushroom { pos: p })),
{
    let b = bunny_cells(m.bunnies);
    let f = fox_cells(m.foxes);
    let u = mushroom_cells(m.mushrooms);
    let c = m.cells();
    assert(c == b + f + u);
    if c.contains(p) {
        let q = choose|q: int| 0 <= q < c.len() && c[q] == p;
        if q < b.len() {
            assert(m.bunnies[q] == Bunny { pos: p });
        } else if q < b.len() + f.len() {
            assert(f[q - b.len()] == p);
        } else {
            assert(m.mushrooms[q - b.len() - f.len()] == Mushroom { pos: p });
        }
    }
    if m.bunnies.contains(Bunny { pos: p }) {
        let q = choose|q: int| 0 <= q < m.bunnies.len() && m.bunnies[q] == Bunny { pos: p };
        assert(c[q] == p);
    }
    if f.contains(p) {
        let q = choose|q: int| 0 <= q < f.len() && f[q] == p;
        assert(c[b.len() + q] == p);
    }
    if m.mushrooms.contains(Mushroom { pos: p }) {
        let q = choose|q: int| 0 <= q < m.mushrooms.len() && m.mushrooms[q] == Mushroom { pos: p };
        assert(c[b.len() + f.len() + q] == p);
    }
}

/// After a move the taken cells of the board are the taken cells before, less those
/// the moved piece left, with those it covers now.
#[verifier::spinoff_prover]
#[verifier::rlimit(60)]
pub proof fn lemma_taken_after(m: BoardModel, i: int, x: int, y: int)
    requires
        m.valid(),
        0 <= i < m.all_moves().len(),
        in_board(x, y),
    ensures
        taken(after(m, m.all_moves()[i]).occupancy(), x, y) == ((taken(m.occupancy(), x, y)
            && !vacated(m.all_moves()[i], (x as usize, y as usize))) || entered(
            m.all_moves()[i],
            (x as usize, y as usize),
        )),
{
    let mv = m.all_moves()[i];
    let p = (x as usize, y as usize);
    lemma_move_member(m, i);
    crate::rules::lemma_move_keeps_position(m, i);
    let m2 = after(m, mv);
    lemma_filled_iff(m, p);
    lemma_filled_iff(m2, p);
    lemma_cells_contains(m, p);
    lemma_cells_contains(m2, p);
    lemma_fox_cells_contains(m.foxes, p);
    lemma_fox_cells_contains(m2.foxes, p);
    lemma_cells_index(m);
    let nb = m.bunnies.len() as int;
    let nf = m.foxes.len() as int;
    match mv {
        Move::Bunny { from, to } => {
            lemma_bunny_move(m, from, to);
            lemma_without(m.bunnies, from);
            let w = without(m.bunnies, from);
            assert(m2.bunnies == w.push(to));
            assert(m2.bunnies.contains(Bunny { pos: p }) == (w.contains(Bunny { pos: p }) || to
                == Bunny { pos: p })) by {
                if m2.bunnies.contains(Bunny { pos: p }) {
                    let q = choose|q: int| 0 <= q < m2.bunnies.len() && m2.bunnies[q] == Bunny { pos: p };
                    if q < w.len() {
                        assert(w[q] == Bunny { pos: p });
                    }
                }
                if w.contains(Bunny { pos: p }) {
                    let q = choose|q: int| 0 <= q < w.len() && w[q] == Bunny { pos: p };
                    assert(m2.bunnies[q] == Bunny { pos: p });
                }
                if to == (Bunny { pos: p }) {
                    assert(m2.bunnies[w.len() as int] == to);
                }
            }
            if from.pos == p {
                let k = choose|k: int| 0 <= k < m.bunnies.len() && m.bunnies[k] == from;
                assert(m.cells()[k] == p);
                assert forall|j: int| 0 <= j < m.foxes.len() implies !((#[trigger] m.foxes[j]).pos1
                    == p || m.foxes[j].pos2 == p) by {
                    assert(m.cells()[nb + 2 * j] != m.cells()[k]);
                    assert(m.cells()[nb + 2 * j + 1] != m.cells()[k]);
                }
                assert forall|j: int| 0 <= j < m.mushrooms.len() implies (#[trigger] m.mushrooms[j])
                    != Mushroom { pos: p } by {
                    assert(m.cells()[nb + 2 * nf + j] != m.cells()[k]);
                }
            }
        },
        Move::Fox { from, to } => {
            lemma_fox_move(m, from, to);
            lemma_without(m.foxes, from);
            let w = without(m.foxes, from);
            assert(m2.foxes == w.push(to));
            lemma_fox_cells_contains(w, p);
            assert((exists|j: int| 0 <= j < m2.foxes.len() && ((#[trigger] m2.foxes[j]).pos1 == p
                || m2.foxes[j].pos2 == p)) == ((exists|j: int|
                0 <= j < w.len() && ((#[trigger] w[j]).pos1 == p || w[j].pos2 == p)) || to.pos1
                == p || to.pos2 == p)) by {
                if exists|j: int| 0 <= j < m2.foxes.len() && ((#[trigger] m2.foxes[j]).pos1 == p
                    || m2.foxes[j].pos2 == p) {
                    let q = choose|q: int| 0 <= q < m2.foxes.len() && ((#[trigger] m2.foxes[q]).pos1 == p
                        || m2.foxes[q].pos2 == p);
                    if q < w.len() {
                        assert(w[q] == m2.foxes[q]);
                    }
                }
                if exists|j: int| 0 <= j < w.len() && ((#[trigger] w[j]).pos1 == p || w[j].pos2 == p) {
                    let q = choose|q: int| 0 <= q < w.len() && ((#[trigger] w[q]).pos1 == p || w[q].pos2 == p);
                    assert(m2.foxes[q] == w[q]);
                }
                if to.pos1 == p || to.pos2 == p {
                    assert(m2.foxes[w.len() as int] == to);
                }
            }
            let k = choose|k: int| 0 <= k < m.foxes.len() && m.foxes[k] == from;
            assert((exists|j: int| 0 <= j < w.len() && ((#[trigger] w[j]).pos1 == p || w[j].pos2 == p))
                == ((exists|j: int|
                0 <= j < m.foxes.len() && ((#[trigger] m.foxes[j]).pos1 == p || m.foxes[j].pos2
                    == p)) && !(from.pos1 == p || from.pos2 == p))) by {
                if exists|j: int| 0 <= j < w.len() && ((#[trigger] w[j]).pos1 == p || w[j].pos2 == p) {
                    let q = choose|q: int| 0 <= q < w.len() && ((#[trigger] w[q]).pos1 == p || w[q].pos2 == p);
                    assert(m.foxes.contains(w[q]) && w[q] != from);
                    let r = choose|r: int| 0 <= r < m.foxes.len() && m.foxes[r] == w[q];
                    assert(r != k);
                    if from.pos1 == p || from.pos2 == p {
                        assert(m.cells()[nb + 2 * k] != m.cells()[nb + 2 * r]);
                        assert(m.cells()[nb + 2 * k] != m.cells()[nb + 2 * r + 1]);
                        assert(m.cells()[nb + 2 * k + 1] != m.cells()[nb + 2 * r]);
                        assert(m.cells()[nb + 2 * k + 1] != m.cells()[nb + 2 * r + 1]);
                    }
                }
                if (exists|j: int|
                    0 <= j < m.foxes.len() && ((#[trigger] m.foxes[j]).pos1 == p || m.foxes[j].pos2
                        == p)) && !(from.pos1 == p || from.pos2 == p) {
                    let r = choose|r: int| 0 <= r < m.foxes.len() && ((#[trigger] m.foxes[r]).pos1 == p
                        || m.foxes[r].pos2 == p);
                    assert(m.foxes[r] != from);
                    assert(w.contains(m.foxes[r]));
                    let q = choose|q: int| 0 <= q < w.len() && w[q] == m.foxes[r];
                }
            }
            if from.pos1 == p || from.pos2 == p {
                assert forall|j: int| 0 <= j < m.bunnies.len() implies (#[trigger] m.bunnies[j]) != Bunny { pos: p } by {
                    assert(m.cells()[j] != m.cells()[nb + 2 * k]);
                    assert(m.cells()[j] != m.cells()[nb + 2 * k + 1]);
                }
                assert forall|j: int| 0 <= j < m.mushrooms.len() implies (#[trigger] m.mushrooms[j])
                    != Mushroom { pos: p } by {
                    assert(m.cells()[nb + 2 * nf + j] != m.cells()[nb + 2 * k]);
                    assert(m.cells()[nb + 2 * nf + j] != m.cells()[nb + 2 * k + 1]);
                }
            }
        },
    }
}

/// Steps add up.
proof fn lemma_steps(x: int, y: int, dx: int, dy: int, a: int, b: int)
    ensures
        step_cell(step_cell(x, y, dx, dy, a).0, step_cell(x, y, dx, dy, a).1, dx, dy, b)
            == step_cell(x, y, dx, dy, a + b),
        step_cell(x, y, -dx, -dy, b) == step_cell(x, y, dx, dy, -b),
        step_cell(x, y, dx, dy, 0) == (x, y),
        step_cell(x, y, dx, dy, 1) == (x + dx, y + dy),
        step_cell(x, y, dx, dy, 2) == (x + 2 * dx, y + 2 * dy),
        step_cell(x, y, dx, dy, -1) == (x - dx, y - dy),
{
    assert(x + a * dx + b * dx == x + (a + b) * dx) by (nonlinear_arith);
    assert(y + a * dy + b * dy == y + (a + b) * dy) by (nonlinear_arith);
    assert(x + b * (-dx) == x + (-b) * dx) by (nonlinear_arith);
    assert(y + b * (-dy) == y + (-b) * dy) by (nonlinear_arith);
}

/// The walk of a bunny's jump: the cells one to `k + 1` steps on are taken, the cell
/// `k + 2` steps on is where it lands.
proof fn lemma_jump_walk(occ: u32, x0: int, y0: int, dx: int, dy: int) -> (k: int)
    requires
        bunny_jump(occ, x0, y0, dx, dy) is Some,
    ensures
        0 <= k,
        is_unit(dx, dy),
        bunny_jump(occ, x0, y0, dx, dy) == Some(step_cell(x0, y0, dx, dy, k + 2)),
        forall|q: int|
            1 <= q <= k + 1 ==> in_board(step_cell(x0, y0, dx, dy, q).0, step_cell(x0, y0, dx, dy, q).1)
                && taken(occ, #[trigger] step_cell(x0, y0, dx, dy, q).0, step_cell(x0, y0, dx, dy, q).1),
        in_board(step_cell(x0, y0, dx, dy, k + 2).0, step_cell(x0, y0, dx, dy, k + 2).1),
        !taken(occ, step_cell(x0, y0, dx, dy, k + 2).0, step_cell(x0, y0, dx, dy, k + 2).1),
{
    lemma_steps(x0, y0, dx, dy, 0, 0);
    let s2 = step_cell(x0, y0, dx, dy, 2);
    lemma_landing_walk(occ, s2.0, s2.1, dx, dy);
    let k = choose|k: int|
        0 <= k && landing(occ, s2.0, s2.1, dx, dy) == Some(#[trigger] step_cell(s2.0, s2.1, dx, dy, k))
            && (forall|j: int|
            0 <= j < k ==> in_board(step_cell(s2.0, s2.1, dx, dy, j).0, step_cell(s2.0, s2.1, dx, dy, j).1)
                && taken(occ, #[trigger] step_cell(s2.0, s2.1, dx, dy, j).0, step_cell(s2.0, s2.1, dx, dy, j).1))
            && in_board(step_cell(s2.0, s2.1, dx, dy, k).0, step_cell(s2.0, s2.1, dx, dy, k).1) && !taken(
            occ,
            step_cell(s2.0, s2.1, dx, dy, k).0,
            step_cell(s2.0, s2.1, dx, dy, k).1,
        );
    lemma_steps(x0, y0, dx, dy, 2, k);
    assert forall|q: int| 1 <= q <= k + 1 implies in_board(step_cell(x0, y0, dx, dy, q).0, step_cell(x0, y0, dx, dy, q).1)
        && taken(occ, #[trigger] step_cell(x0, y0, dx, dy, q).0, step_cell(x0, y0, dx, dy, q).1) by {
        lemma_steps(x0, y0, dx, dy, 0, 1);
        if q > 1 {
            lemma_steps(x0, y0, dx, dy, 2, q - 2);
            assert(in_board(step_cell(s2.0, s2.1, dx, dy, q - 2).0, step_cell(s2.0, s2.1, dx, dy, q - 2).1)
                && taken(occ, step_cell(s2.0, s2.1, dx, dy, q - 2).0, step_cell(s2.0, s2.1, dx, dy, q - 2).1));
        }
    }
    k
}

/// A bunny that jumped can jump back: from where it landed, in the opposite direction,
/// over the same row of pieces, to the cell it left.
#[verifier::spinoff_prover]
#[verifier::rlimit(40)]
proof fn lemma_bunny_back(m: BoardModel, i: int, from: Bunny, to: Bunny)
    requires
        m.valid(),
        0 <= i < m.all_moves().len(),
        m.all_moves()[i] == (Move::Bunny { from, to }),
    ensures
        bunny_moves(after(m, m.all_moves()[i]).occupancy(), to).contains(from),
{
    let occ = m.occupancy();
    let m2 = after(m, m.all_moves()[i]);
    let occ2 = m2.occupancy();
    lemma_move_member(m, i);
    let k0 = choose|k: int| 0 <= k < m.bunnies.len() && m.bunnies[k] == from;
    lemma_cells_index(m);
    assert(on_board(m.cells()[k0]));
    let x0 = from.pos.0 as int;
    let y0 = from.pos.1 as int;
    lemma_bunny_moves_source(occ, from, to, 4);
    let d = choose|d: int| 0 <= d < 4 && #[trigger] jump_gives(occ, from, d, to);
    let dx = dir_x(d);
    let dy = dir_y(d);
    let k = lemma_jump_walk(occ, x0, y0, dx, dy);
    let c = step_cell(x0, y0, dx, dy, k + 2);
    assert(to.pos == (c.0 as usize, c.1 as usize));
    assert forall|q: int| 1 <= q <= k + 1 implies in_board(step_cell(x0, y0, dx, dy, q).0, step_cell(x0, y0, dx, dy, q).1)
        && taken(occ2, #[trigger] step_cell(x0, y0, dx, dy, q).0, step_cell(x0, y0, dx, dy, q).1) by {
        let p = step_cell(x0, y0, dx, dy, q);
        assert(in_board(p.0, p.1) && taken(occ, p.0, p.1));
        lemma_steps(x0, y0, dx, dy, 0, 0);
        assert(x0 + q * dx != x0 || y0 + q * dy != y0) by (nonlinear_arith)
            requires
                is_unit(dx, dy),
                q >= 1,
        ;
        lemma_taken_after(m, i, p.0, p.1);
    }
    lemma_distinct_steps(x0, y0, dx, dy, 0, k + 2);
    lemma_steps(x0, y0, dx, dy, 0, 0);
    assert(to.pos != from.pos);
    lemma_taken_after(m, i, x0, y0);
    assert(!taken(occ2, x0, y0));
    let ex = -dx;
    let ey = -dy;
    let st = step_cell(x0, y0, dx, dy, k);
    assert forall|j: int| 0 <= j < k implies in_board(step_cell(st.0, st.1, ex, ey, j).0, step_cell(st.0, st.1, ex, ey, j).1)
        && taken(occ2, #[trigger] step_cell(st.0, st.1, ex, ey, j).0, step_cell(st.0, st.1, ex, ey, j).1) by {
        lemma_steps(st.0, st.1, dx, dy, 0, j);
        lemma_steps(x0, y0, dx, dy, k, -j);
        assert(step_cell(st.0, st.1, ex, ey, j) == step_cell(x0, y0, dx, dy, k - j));
        assert(in_board(step_cell(x0, y0, dx, dy, k - j).0, step_cell(x0, y0, dx, dy, k - j).1)
            && taken(occ2, step_cell(x0, y0, dx, dy, k - j).0, step_cell(x0, y0, dx, dy, k - j).1));
    }
    lemma_steps(st.0, st.1, dx, dy, 0, k);
    lemma_steps(x0, y0, dx, dy, k, -k);
    lemma_steps(x0, y0, dx, dy, 0, 0);
    assert(step_cell(st.0, st.1, ex, ey, k) == (x0, y0));
    lemma_landing_from_walk(occ2, st.0, st.1, ex, ey, k);
    lemma_steps(x0, y0, dx, dy, k + 2, -1);
    lemma_steps(x0, y0, dx, dy, k + 2, -2);
    lemma_steps(c.0, c.1, dx, dy, 0, 0);
    lemma_steps(c.0, c.1, dx, dy, -1, -1);
    assert((c.0 + ex, c.1 + ey) == step_cell(x0, y0, dx, dy, k + 1));
    assert(in_board(step_cell(x0, y0, dx, dy, k + 1).0, step_cell(x0, y0, dx, dy, k + 1).1)
        && taken(occ2, step_cell(x0, y0, dx, dy, k + 1).0, step_cell(x0, y0, dx, dy, k + 1).1));
    assert((c.0 + 2 * ex, c.1 + 2 * ey) == st);
    let d2 = dir_of(ex, ey);
    assert(dir_x(d2) == ex && dir_y(d2) == ey);
    assert(to.pos.0 as int == c.0 && to.pos.1 as int == c.1);
    assert(bunny_jump(occ2, to.pos.0 as int, to.pos.1 as int, dir_x(d2), dir_y(d2)) == Some((x0, y0)));
    lemma_bunny_moves_from(occ2, to, d2, 4);
    assert(from == Bunny { pos: (x0 as usize, y0 as usize) });
}

/// The cells of a slide, one step after the other.
proof fn lemma_slide_closed(occ: u32, x: int, y: int, dx: int, dy: int, i: int)
    requires
        0 <= i < slide(occ, x, y, dx, dy).len(),
    ensures
        slide(occ, x, y, dx, dy)[i] == step_cell(x, y, dx, dy, i),
        in_board(step_cell(x, y, dx, dy, i).0, step_cell(x, y, dx, dy, i).1),
        !taken(occ, step_cell(x, y, dx, dy, i).0, step_cell(x, y, dx, dy, i).1),
    decreases i,
{
    lemma_slide(occ, x, y, dx, dy);
    lemma_steps(x, y, dx, dy, 0, 0);
    if i > 0 {
        lemma_slide_closed(occ, x, y, dx, dy, i - 1);
        lemma_steps(x, y, dx, dy, i - 1, 1);
    }
}

/// The walk of a fox's slide: the fox stood on the cell `st` it slides from and the cell
/// one step behind it, passed the free cells one to `j` steps on, and stands on the cells
/// `j` and `j + 1` steps on.
proof fn lemma_fox_walk(m: BoardModel, i: int, from: Fox, to: Fox) -> (r: (int, int, int))
    requires
        m.valid(),
        m.normal(),
        0 <= i < m.all_moves().len(),
        m.all_moves()[i] == (Move::Fox { from, to }),
    ensures
        lane_dir(from, r.0, r.1),
        is_unit(r.0, r.1),
        0 <= r.2,
        ({
            let (dx, dy, j) = r;
            let st = slide_start(from, dx, dy);
            let back = step_cell(st.0, st.1, dx, dy, -1);
            let a = step_cell(st.0, st.1, dx, dy, j + 1);
            let b = step_cell(st.0, st.1, dx, dy, j);
            &&& in_board(st.0, st.1)
            &&& in_board(back.0, back.1)
            &&& in_board(a.0, a.1)
            &&& in_board(b.0, b.1)
            &&& forall|q: int|
                1 <= q <= j + 1 ==> in_board(step_cell(st.0, st.1, dx, dy, q).0, step_cell(st.0, st.1, dx, dy, q).1)
                    && !taken(m.occupancy(), #[trigger] step_cell(st.0, st.1, dx, dy, q).0, step_cell(st.0, st.1, dx, dy, q).1)
            &&& from == normalized(Fox { pos1: (back.0 as usize, back.1 as usize), pos2: (st.0 as usize, st.1 as usize) })
            &&& to == normalized(Fox { pos1: (a.0 as usize, a.1 as usize), pos2: (b.0 as usize, b.1 as usize) })
        }),
{
    let occ = m.occupancy();
    lemma_move_member(m, i);
    lemma_fox_move(m, from, to);
    lemma_cells_index(m);
    let nb = m.bunnies.len() as int;
    let kf = choose|k: int| 0 <= k < m.foxes.len() && m.foxes[k] == from;
    assert(on_board(m.cells()[nb + 2 * kf]) && on_board(m.cells()[nb + 2 * kf + 1]));
    assert(lane_fox(m.foxes[kf]));
    assert(normalized(m.foxes[kf]) == m.foxes[kf]);
    lemma_fox_dest(occ, from, to);
    let (dx, dy, j) = choose|dx: int, dy: int, j: int|
        #![trigger lane_dir(from, dx, dy), slide(occ, slide_start(from, dx, dy).0 + dx, slide_start(from, dx, dy).1 + dy, dx, dy)[j]]
        lane_dir(from, dx, dy) && 0 <= j < slide(
            occ,
            slide_start(from, dx, dy).0 + dx,
            slide_start(from, dx, dy).1 + dy,
            dx,
            dy,
        ).len() && to == fox_at(
            slide(
                occ,
                slide_start(from, dx, dy).0 + dx,
                slide_start(from, dx, dy).1 + dy,
                dx,
                dy,
            )[j],
            dx,
            dy,
        );
    let st = slide_start(from, dx, dy);
    lemma_front(from, dx, dy);
    lemma_steps(st.0, st.1, dx, dy, 0, 0);
    lemma_steps(st.0, st.1, dx, dy, 1, j);
    let s1 = step_cell(st.0, st.1, dx, dy, 1);
    lemma_slide_closed(occ, s1.0, s1.1, dx, dy, j);
    let a = step_cell(st.0, st.1, dx, dy, j + 1);
    let b = step_cell(st.0, st.1, dx, dy, j);
    lemma_steps(st.0, st.1, dx, dy, j + 1, -1);
    assert forall|q: int|
        1 <= q <= j + 1 implies in_board(step_cell(st.0, st.1, dx, dy, q).0, step_cell(st.0, st.1, dx, dy, q).1)
            && !taken(occ, #[trigger] step_cell(st.0, st.1, dx, dy, q).0, step_cell(st.0, st.1, dx, dy, q).1) by {
        lemma_slide_closed(occ, s1.0, s1.1, dx, dy, q - 1);
        lemma_steps(st.0, st.1, dx, dy, 1, q - 1);
    }
    assert(in_board(b.0, b.1)) by {
        if j > 0 {
            lemma_slide_closed(occ, s1.0, s1.1, dx, dy, j - 1);
            lemma_steps(st.0, st.1, dx, dy, 1, j - 1);
        }
    }
    (dx, dy, j)
}

/// The moved fox stands on two neighbouring cells of a lane, normalized.
proof fn lemma_moved_fox(m: BoardModel, i: int, from: Fox, to: Fox)
    requires
        m.valid(),
        m.normal(),
        0 <= i < m.all_moves().len(),
        m.all_moves()[i] == (Move::Fox { from, to }),
    ensures
        on_board(to.pos1),
        on_board(to.pos2),
        lane_fox(to),
        normalized(to) == to,
{
    lemma_move_member(m, i);
    lemma_fox_move(m, from, to);
    let m2 = after(m, m.all_moves()[i]);
    crate::rules::lemma_move_keeps_position(m, i);
    crate::equivalence::lemma_move_normal(m, i);
    assert(m2.foxes[m2.foxes.len() - 1] == to);
    lemma_cells_index(m2);
    let nb2 = m2.bunnies.len() as int;
    let kt = m2.foxes.len() - 1;
    assert(on_board(m2.cells()[nb2 + 2 * kt]) && on_board(m2.cells()[nb2 + 2 * kt + 1]));
    assert(lane_fox(m2.foxes[kt]));
    assert(normalized(m2.foxes[kt]) == m2.foxes[kt]);
}

/// Going back from the cell behind the moved fox towards the cell behind where it stood,
/// every cell is free after the move.
proof fn lemma_path_back(m: BoardModel, i: int, from: Fox, to: Fox, dx: int, dy: int, j: int, r: int)
    requires
        m.valid(),
        0 <= i < m.all_moves().len(),
        m.all_moves()[i] == (Move::Fox { from, to }),
        is_unit(dx, dy),
        -1 <= r < j,
        ({
            let st = slide_start(from, dx, dy);
            let back = step_cell(st.0, st.1, dx, dy, -1);
            let a = step_cell(st.0, st.1, dx, dy, j + 1);
            let b = step_cell(st.0, st.1, dx, dy, j);
            &&& in_board(st.0, st.1)
            &&& in_board(back.0, back.1)
            &&& in_board(a.0, a.1)
            &&& in_board(b.0, b.1)
            &&& forall|q: int|
                1 <= q <= j + 1 ==> in_board(step_cell(st.0, st.1, dx, dy, q).0, step_cell(st.0, st.1, dx, dy, q).1)
                    && !taken(m.occupancy(), #[trigger] step_cell(st.0, st.1, dx, dy, q).0, step_cell(st.0, st.1, dx, dy, q).1)
            &&& from == normalized(Fox { pos1: (back.0 as usize, back.1 as usize), pos2: (st.0 as usize, st.1 as usize) })
            &&& to == normalized(Fox { pos1: (a.0 as usize, a.1 as usize), pos2: (b.0 as usize, b.1 as usize) })
        }),
    ensures
        ({
            let st = slide_start(from, dx, dy);
            let p = step_cell(st.0, st.1, dx, dy, r);
            in_board(p.0, p.1) && !taken(after(m, m.all_moves()[i]).occupancy(), p.0, p.1)
        }),
{
    let st = slide_start(from, dx, dy);
    let p = step_cell(st.0, st.1, dx, dy, r);
    let back = step_cell(st.0, st.1, dx, dy, -1);
    let a = step_cell(st.0, st.1, dx, dy, j + 1);
    let b = step_cell(st.0, st.1, dx, dy, j);
    lemma_steps(st.0, st.1, dx, dy, 0, 0);
    if r >= 1 {
        assert(in_board(step_cell(st.0, st.1, dx, dy, r).0, step_cell(st.0, st.1, dx, dy, r).1)
            && !taken(m.occupancy(), step_cell(st.0, st.1, dx, dy, r).0, step_cell(st.0, st.1, dx, dy, r).1));
    }
    assert(in_board(p.0, p.1));
    lemma_distinct_steps(st.0, st.1, dx, dy, r, j);
    lemma_distinct_steps(st.0, st.1, dx, dy, r, j + 1);
    assert(!entered(m.all_moves()[i], (p.0 as usize, p.1 as usize)));
    if r <= 0 {
        assert(vacated(m.all_moves()[i], (p.0 as usize, p.1 as usize)));
    }
    lemma_taken_after(m, i, p.0, p.1);
}

/// A fox that slid can slide back to where it stood: the cells it passed and the cells
/// it left are free afterwards.
#[verifier::spinoff_prover]
proof fn lemma_fox_back(m: BoardModel, i: int, from: Fox, to: Fox)
    requires
        m.valid(),
        m.normal(),
        0 <= i < m.all_moves().len(),
        m.all_moves()[i] == (Move::Fox { from, to }),
    ensures
        fox_moves(after(m, m.all_moves()[i]).occupancy(), to).contains(from),
{
    let occ2 = after(m, m.all_moves()[i]).occupancy();
    let (dx, dy, j) = lemma_fox_walk(m, i, from, to);
    lemma_moved_fox(m, i, from, to);
    let st = slide_start(from, dx, dy);
    let back = step_cell(st.0, st.1, dx, dy, -1);
    let b = step_cell(st.0, st.1, dx, dy, j);
    let ex = -dx;
    let ey = -dy;
    assert(lane_dir(to, ex, ey));
    lemma_front(to, ex, ey);
    lemma_steps(st.0, st.1, dx, dy, j + 1, -1);
    assert(slide_start(to, ex, ey) == b);
    let start = (b.0 + ex, b.1 + ey);
    lemma_steps(st.0, st.1, dx, dy, j, -1);
    assert(start == step_cell(st.0, st.1, dx, dy, j - 1));
    assert forall|q: int| 0 <= q <= j implies in_board(step_cell(start.0, start.1, ex, ey, q).0, step_cell(start.0, start.1, ex, ey, q).1)
        && !taken(occ2, #[trigger] step_cell(start.0, start.1, ex, ey, q).0, step_cell(start.0, start.1, ex, ey, q).1) by {
        lemma_steps(start.0, start.1, dx, dy, 0, q);
        lemma_steps(st.0, st.1, dx, dy, j - 1, -q);
        lemma_path_back(m, i, from, to, dx, dy, j, j - 1 - q);
    }
    lemma_slide_from_walk(occ2, start.0, start.1, ex, ey, j);
    lemma_steps(start.0, start.1, dx, dy, 0, j);
    lemma_steps(st.0, st.1, dx, dy, j - 1, -j);
    assert(step_cell(start.0, start.1, ex, ey, j) == back);
    lemma_fox_moves_from(occ2, to, ex, ey, j);
    lemma_steps(st.0, st.1, dx, dy, -1, 1);
    lemma_steps(st.0, st.1, dx, dy, 0, 0);
    assert(fox_at(back, ex, ey) == from);
}

/// Cells on a line at different step counts differ.
proof fn lemma_distinct_steps(x: int, y: int, dx: int, dy: int, a: int, b: int)
    requires
        is_unit(dx, dy),
        a != b,
    ensures
        step_cell(x, y, dx, dy, a) != step_cell(x, y, dx, dy, b),
{
    if dx != 0 {
        assert(x + a * dx != x + b * dx) by (nonlinear_arith)
            requires
                dx == 1 || dx == -1,
                a != b,
        ;
    } else {
        assert(y + a * dy != y + b * dy) by (nonlinear_arith)
            requires
                dy == 1 || dy == -1,
                a != b,
        ;
    }
}

/// Dropping every copy of `x` leaves every other item as often as before.
proof fn lemma_without_count<A>(s: Seq<A>, x: A, y: A)
    ensures
        without(s, x).to_multiset().count(y) == if y == x {
            0
        } else {
            s.to_multiset().count(y)
        },
    decreases s.len(),
{
    if s.len() > 0 {
        let r = s.drop_last();
        lemma_without_count(r, x, y);
        assert(s =~= r.push(s.last()));
    }
}

/// An item listed at one index only is listed once.
proof fn lemma_once_count<A>(s: Seq<A>, k: int)
    requires
        0 <= k < s.len(),
        forall|j: int| 0 <= j < s.len() && j != k ==> s[j] != s[k],
    ensures
        s.to_multiset().count(s[k]) == 1,
{
    let x = s[k];
    let a = s.take(k);
    let c = s.skip(k + 1);
    assert(s =~= a + seq![x] + c);
    assert(!a.contains(x)) by {
        if a.contains(x) {
            let j = choose|j: int| 0 <= j < a.len() && a[j] == x;
            assert(s[j] == x);
        }
    }
    assert(!c.contains(x)) by {
        if c.contains(x) {
            let j = choose|j: int| 0 <= j < c.len() && c[j] == x;
            assert(s[k + 1 + j] == x);
        }
    }
    crate::rules::lemma_occurrences_concat(a + seq![x], c, x);
    crate::rules::lemma_occurrences_concat(a, seq![x], x);
    crate::rules::lemma_occurrences_single(x, x);
    crate::rules::lemma_occurrences_contains(a, x);
    crate::rules::lemma_occurrences_contains(c, x);
}

/// An item listed once, taken out and put back at the end: the same items as before.
proof fn lemma_put_back<A>(s: Seq<A>, x: A)
    requires
        s.to_multiset().count(x) == 1,
    ensures
        without(s, x).push(x).to_multiset() == s.to_multiset(),
{
    assert forall|y: A| without(s, x).push(x).to_multiset().count(y) == s.to_multiset().count(y) by {
        lemma_without_count(s, x, y);
    }
    assert(without(s, x).push(x).to_multiset() =~= s.to_multiset());
}

/// Taking out the item just put at the end, when it was not there before.
proof fn lemma_take_back<A>(w: Seq<A>, t: A)
    requires
        !w.contains(t),
    ensures
        without(w.push(t), t) == w,
{
    assert(w.push(t).drop_last() =~= w);
    crate::seqs::lemma_without_absent(w, t);
}

/// The move that puts the moved piece back where it stood.
pub open spec fn reverse(mv: Move) -> Move {
    match mv {
        Move::Bunny { from, to } => Move::Bunny { from: to, to: from },
        Move::Fox { from, to } => Move::Fox { from: to, to: from },
    }
}

/// Every move is undone by its reverse: on the board the move leads to, the reverse move
/// is among the moves, and making it gives back the pieces of the first board.
pub proof fn lemma_move_undone(m: BoardModel, i: int)
    requires
        m.valid(),
        m.normal(),
        0 <= i < m.all_moves().len(),
    ensures
        after(m, m.all_moves()[i]).all_moves().contains(reverse(m.all_moves()[i])),
        after(m, m.all_moves()[i]).apply(reverse(m.all_moves()[i])) matches Ok(m3) && m3.same_pieces(m),
{
    let mv = m.all_moves()[i];
    lemma_move_member(m, i);
    lemma_target_new(m, i);
    crate::rules::lemma_move_keeps_position(m, i);
    let m2 = after(m, mv);
    match mv {
        Move::Bunny { from, to } => {
            lemma_bunny_move(m, from, to);
            let w = without(m.bunnies, from);
            assert(m2.bunnies == w.push(to));
            assert(m2.bunnies.contains(to)) by {
                assert(m2.bunnies[w.len() as int] == to);
            }
            lemma_bunny_back(m, i, from, to);
            crate::turned_moves::lemma_all_moves_has(m2, reverse(mv));
            lemma_bunny_move(m2, to, from);
            lemma_without(m.bunnies, from);
            lemma_take_back(w, to);
            let k = choose|k: int| 0 <= k < m.bunnies.len() && m.bunnies[k] == from;
            crate::rules::lemma_bunny_once(m, k);
            lemma_once_count(m.bunnies, k);
            lemma_put_back(m.bunnies, from);
        },
        Move::Fox { from, to } => {
            lemma_fox_move(m, from, to);
            let w = without(m.foxes, from);
            assert(m2.foxes == w.push(to));
            assert(m2.foxes.contains(to)) by {
                assert(m2.foxes[w.len() as int] == to);
            }
            lemma_fox_back(m, i, from, to);
            crate::turned_moves::lemma_all_moves_has(m2, reverse(mv));
            lemma_fox_move(m2, to, from);
            lemma_without(m.foxes, from);
            lemma_take_back(w, to);
            let k = choose|k: int| 0 <= k < m.foxes.len() && m.foxes[k] == from;
            crate::rules::lemma_fox_once(m, k);
            lemma_once_count(m.foxes, k);
            lemma_put_back(m.foxes, from);
        },
    }
}

/// A board reached in one move reaches back in one move.
proof fn lemma_reaches_back(a: BoardModel, b: BoardModel)
    requires
        a.valid(),
        a.normal(),
        a.reaches(b),
    ensures
        b.reaches(a),
{
    let i = choose|i: int|
        0 <= i < a.all_moves().len() && ((#[trigger] a.apply(a.all_moves()[i])) matches Ok(x)
            && x.same_pieces(b));
    let mv = a.all_moves()[i];
    let rev = reverse(mv);
    lemma_move_undone(a, i);
    crate::rules::lemma_move_keeps_position(a, i);
    crate::equivalence::lemma_move_normal(a, i);
    let m2 = after(a, mv);
    let m3 = after(m2, rev);
    crate::equivalence::lemma_same_pieces_facts(m2, b);
    assert(b.all_moves().contains(rev));
    let k = choose|k: int| 0 <= k < b.all_moves().len() && b.all_moves()[k] == rev;
    let k2 = choose|k: int| 0 <= k < m2.all_moves().len() && m2.all_moves()[k] == rev;
    crate::rules::lemma_move_keeps_position(b, k);
    crate::equivalence::lemma_move_normal(b, k);
    crate::rules::lemma_move_keeps_position(m2, k2);
    crate::equivalence::lemma_move_normal(m2, k2);
    crate::rules::lemma_valid_indexable(m2);
    crate::compare::lemma_same_pieces_same_state(m2, b);
    let m4 = after(b, rev);
    crate::equivalence::lemma_same_state_same_pieces(m4, m3);
    assert(m4.same_pieces(a));
    assert(b.apply(b.all_moves()[k]) matches Ok(x) && x.same_pieces(a));
}

/// Reaching a board in one move goes both ways: a position reaches another exactly when
/// the other reaches it.
pub proof fn lemma_reaches_symmetric(a: BoardModel, b: BoardModel)
    requires
        a.valid(),
        a.normal(),
        b.valid(),
        b.normal(),
    ensures
        a.reaches(b) == b.reaches(a),
{
    if a.reaches(b) {
        lemma_reaches_back(a, b);
    }
    if b.reaches(a) {
        lemma_reaches_back(b, a);
    }
}

/// No position reaches itself in one move.
pub proof fn lemma_reaches_irreflexive(m: BoardModel)
    requires
        m.valid(),
    ensures
        !m.reaches(m),
{
    assert forall|i: int| 0 <= i < m.all_moves().len() implies !((#[trigger] m.apply(m.all_moves()[i])) matches Ok(x)
        && x.same_pieces(m)) by {
        lemma_move_changes(m, i);
    }
}

/// Two lists without repeats and without a shared item make a list without repeats.
proof fn lemma_concat_distinct<A>(a: Seq<A>, b: Seq<A>)
    requires
        a.no_duplicates(),
        b.no_duplicates(),
        forall|i: int, j: int| 0 <= i < a.len() && 0 <= j < b.len() ==> a[i] != b[j],
    ensures
        (a + b).no_duplicates(),
{
    let c = a + b;
    assert forall|i: int, j: int| 0 <= i < c.len() && 0 <= j < c.len() && i != j implies c[i] != c[j] by {
        if i < a.len() && j < a.len() {
            assert(c[i] == a[i] && c[j] == a[j]);
        } else if i < a.len() {
            assert(c[i] == a[i] && c[j] == b[j - a.len()]);
        } else if j < a.len() {
            assert(c[j] == a[j] && c[i] == b[i - a.len()]);
        } else {
            assert(c[i] == b[i - a.len()] && c[j] == b[j - a.len()]);
        }
    }
}

/// A jump in direction number `d` lands on the bunny's row or column, on the side of `d`.
proof fn lemma_jump_side(occ: u32, b: Bunny, d: int, t: Bunny)
    requires
        0 <= d < 4,
        jump_gives(occ, b, d, t),
        on_board(b.pos),
    ensures
        d == 0 ==> t.pos.0 > b.pos.0 && t.pos.1 == b.pos.1,
        d == 1 ==> t.pos.1 > b.pos.1 && t.pos.0 == b.pos.0,
        d == 2 ==> t.pos.0 < b.pos.0 && t.pos.1 == b.pos.1,
        d == 3 ==> t.pos.1 < b.pos.1 && t.pos.0 == b.pos.0,
{
    let x0 = b.pos.0 as int;
    let y0 = b.pos.1 as int;
    let k = lemma_jump_walk(occ, x0, y0, dir_x(d), dir_y(d));
    let c = step_cell(x0, y0, dir_x(d), dir_y(d), k + 2);
    assert(t.pos == (c.0 as usize, c.1 as usize));
    assert(c.0 == x0 + (k + 2) * dir_x(d) && c.1 == y0 + (k + 2) * dir_y(d));
    if d == 0 {
        assert(c.0 == x0 + k + 2 && c.1 == y0);
    } else if d == 1 {
        assert(c.1 == y0 + k + 2 && c.0 == x0);
    } else if d == 2 {
        assert(c.0 == x0 - k - 2 && c.1 == y0);
    } else {
        assert(c.1 == y0 - k - 2 && c.0 == x0);
    }
}

/// The bunny's destinations in the first `k` directions are all different.
proof fn lemma_bunny_moves_distinct(occ: u32, b: Bunny, k: int)
    requires
        0 <= k <= 4,
        on_board(b.pos),
    ensures
        bunny_moves_upto(occ, b, k).no_duplicates(),
    decreases k,
{
    if k > 0 {
        lemma_bunny_moves_distinct(occ, b, k - 1);
        let prev = bunny_moves_upto(occ, b, k - 1);
        let jump = bunny_jump(occ, b.pos.0 as int, b.pos.1 as int, dir_x(k - 1), dir_y(k - 1));
        let last = landed_bunny(jump);
        assert(bunny_moves_upto(occ, b, k) == prev + last);
        assert forall|i: int, j: int| 0 <= i < prev.len() && 0 <= j < last.len() implies prev[i] != last[j] by {
            assert(prev.contains(prev[i]));
            lemma_bunny_moves_source(occ, b, prev[i], k - 1);
            let d = choose|d: int| 0 <= d < k - 1 && #[trigger] jump_gives(occ, b, d, prev[i]);
            assert(jump_gives(occ, b, k - 1, last[j]));
            lemma_jump_side(occ, b, d, prev[i]);
            lemma_jump_side(occ, b, k - 1, last[j]);
        }
        lemma_concat_distinct(prev, last);
    }
}

/// The bunny moves of distinct bunnies on the board are all different.
proof fn lemma_bunny_part_distinct(occ: u32, s: Seq<Bunny>)
    requires
        forall|i: int, j: int| 0 <= i < s.len() && 0 <= j < s.len() && i != j ==> s[i] != s[j],
        forall|j: int| 0 <= j < s.len() ==> on_board(#[trigger] s[j].pos),
    ensures
        bunny_part(occ, s).no_duplicates(),
    decreases s.len(),
{
    if s.len() > 0 {
        let r = s.drop_last();
        let l = s.last();
        let prev = bunny_part(occ, r);
        let tail = bunny_moves(occ, l).map_values(|t: Bunny| Move::Bunny { from: l, to: t });
        assert(bunny_part(occ, s) == prev + tail);
        assert(on_board(s[s.len() - 1].pos));
        lemma_bunny_part_distinct(occ, r);
        lemma_bunny_moves_distinct(occ, l, 4);
        assert(tail.no_duplicates()) by {
            let bm = bunny_moves(occ, l);
            assert forall|i: int, j: int| 0 <= i < tail.len() && 0 <= j < tail.len() && i != j implies tail[i]
                != tail[j] by {
                assert(bm[i] != bm[j]);
            }
        }
        assert forall|i: int, j: int| 0 <= i < prev.len() && 0 <= j < tail.len() implies prev[i] != tail[j] by {
            lemma_bunny_part_member(occ, r, i);
            if let Move::Bunny { from, to } = prev[i] {
                let q = choose|q: int| 0 <= q < r.len() && r[q] == from;
                assert(s[q] == from && s[s.len() - 1] == l);
            }
        }
        lemma_concat_distinct(prev, tail);
    }
}

/// The fox slid `i + 1` steps: its first cell is `i` steps on from where it slides from
/// going right or up, `i + 1` steps on otherwise.
proof fn lemma_fox_dir_first(occ: u32, f: Fox, dx: int, dy: int, i: int)
    requires
        on_board(f.pos1),
        on_board(f.pos2),
        is_unit(dx, dy),
        0 <= i < fox_moves_dir(occ, f, dx, dy).len(),
    ensures
        ({
            let s = slide_start(f, dx, dy);
            pos_sum(fox_moves_dir(occ, f, dx, dy)[i].pos1) == if dx + dy == 1 {
                s.0 + s.1 + i
            } else {
                s.0 + s.1 - i - 1
            }
        }),
{
    let s = slide_start(f, dx, dy);
    let sl = slide(occ, s.0 + dx, s.1 + dy, dx, dy);
    lemma_slide_closed(occ, s.0 + dx, s.1 + dy, dx, dy, i);
    let c = sl[i];
    lemma_steps(s.0, s.1, dx, dy, 1, i);
    lemma_steps(s.0, s.1, dx, dy, 0, 0);
    assert(c == step_cell(s.0, s.1, dx, dy, i + 1));
    lemma_steps(s.0, s.1, dx, dy, i + 1, -1);
    let e = (c.0 - dx, c.1 - dy);
    assert(e == step_cell(s.0, s.1, dx, dy, i));
    assert(in_board(e.0, e.1)) by {
        if i > 0 {
            lemma_slide_closed(occ, s.0 + dx, s.1 + dy, dx, dy, i - 1);
            lemma_steps(s.0, s.1, dx, dy, 1, i - 1);
        }
    }
    assert(fox_moves_dir(occ, f, dx, dy)[i] == fox_at(c, dx, dy));
    assert(c.0 + c.1 == s.0 + s.1 + (i + 1) * (dx + dy)) by (nonlinear_arith)
        requires
            c.0 == s.0 + (i + 1) * dx,
            c.1 == s.1 + (i + 1) * dy,
    ;
}

/// The destinations of a normalized fox on the board are all different.
proof fn lemma_fox_moves_distinct(occ: u32, f: Fox)
    requires
        on_board(f.pos1),
        on_board(f.pos2),
        normalized(f) == f,
    ensures
        fox_moves(occ, f).no_duplicates(),
{
    let (dx, dy) = if is_vertical(f) {
        (0int, 1int)
    } else {
        (1int, 0int)
    };
    let fwd = fox_moves_dir(occ, f, dx, dy);
    let bwd = fox_moves_dir(occ, f, -dx, -dy);
    assert(fox_moves(occ, f) == fwd + bwd);
    assert forall|i: int, j: int| 0 <= i < fwd.len() && 0 <= j < fwd.len() && i != j implies fwd[i] != fwd[j] by {
        lemma_fox_dir_first(occ, f, dx, dy, i);
        lemma_fox_dir_first(occ, f, dx, dy, j);
    }
    assert forall|i: int, j: int| 0 <= i < bwd.len() && 0 <= j < bwd.len() && i != j implies bwd[i] != bwd[j] by {
        lemma_fox_dir_first(occ, f, -dx, -dy, i);
        lemma_fox_dir_first(occ, f, -dx, -dy, j);
    }
    assert forall|i: int, j: int| 0 <= i < fwd.len() && 0 <= j < bwd.len() implies fwd[i] != bwd[j] by {
        lemma_fox_dir_first(occ, f, dx, dy, i);
        lemma_fox_dir_first(occ, f, -dx, -dy, j);
    }
    lemma_concat_distinct(fwd, bwd);
}

/// The fox moves of distinct foxes on the board are all different.
proof fn lemma_fox_part_distinct(occ: u32, s: Seq<Fox>)
    requires
        forall|i: int, j: int| 0 <= i < s.len() && 0 <= j < s.len() && i != j ==> s[i] != s[j],
        forall|j: int|
            0 <= j < s.len() ==> on_board(#[trigger] s[j].pos1) && on_board(s[j].pos2) && normalized(s[j])
                == s[j],
    ensures
        fox_part(occ, s).no_duplicates(),
    decreases s.len(),
{
    if s.len() > 0 {
        let r = s.drop_last();
        let l = s.last();
        let prev = fox_part(occ, r);
        let tail = fox_moves(occ, l).map_values(|t: Fox| Move::Fox { from: l, to: t });
        assert(fox_part(occ, s) == prev + tail);
        assert(on_board(s[s.len() - 1].pos1));
        lemma_fox_part_distinct(occ, r);
        lemma_fox_moves_distinct(occ, l);
        assert(tail.no_duplicates()) by {
            let fm = fox_moves(occ, l);
            assert forall|i: int, j: int| 0 <= i < tail.len() && 0 <= j < tail.len() && i != j implies tail[i]
                != tail[j] by {
                assert(fm[i] != fm[j]);
            }
        }
        assert forall|i: int, j: int| 0 <= i < prev.len() && 0 <= j < tail.len() implies prev[i] != tail[j] by {
            lemma_fox_part_member(occ, r, i);
            if let Move::Fox { from, to } = prev[i] {
                let q = choose|q: int| 0 <= q < r.len() && r[q] == from;
                assert(s[q] == from && s[s.len() - 1] == l);
            }
        }
        lemma_concat_distinct(prev, tail);
    }
}

/// The move list of a position names each move once.
pub proof fn lemma_moves_distinct(m: BoardModel)
    requires
        m.valid(),
        m.normal(),
    ensures
        m.all_moves().no_duplicates(),
{
    let occ = m.occupancy();
    lemma_cells_index(m);
    let nb = m.bunnies.len() as int;
    assert forall|j: int| 0 <= j < m.bunnies.len() implies on_board(#[trigger] m.bunnies[j].pos) by {
        assert(on_board(m.cells()[j]));
    }
    assert forall|i: int, j: int| 0 <= i < m.bunnies.len() && 0 <= j < m.bunnies.len() && i != j implies m.bunnies[i]
        != m.bunnies[j] by {
        crate::rules::lemma_bunny_once(m, i);
    }
    assert forall|j: int| 0 <= j < m.foxes.len() implies on_board(#[trigger] m.foxes[j].pos1) && on_board(
        m.foxes[j].pos2,
    ) && normalized(m.foxes[j]) == m.foxes[j] by {
        assert(on_board(m.cells()[nb + 2 * j]) && on_board(m.cells()[nb + 2 * j + 1]));
    }
    assert forall|i: int, j: int| 0 <= i < m.foxes.len() && 0 <= j < m.foxes.len() && i != j implies m.foxes[i]
        != m.foxes[j] by {
        crate::rules::lemma_fox_once(m, i);
    }
    lemma_bunny_part_distinct(occ, m.bunnies);
    lemma_fox_part_distinct(occ, m.foxes);
    let bp = bunny_part(occ, m.bunnies);
    let fp = fox_part(occ, m.foxes);
    assert forall|i: int, j: int| 0 <= i < bp.len() && 0 <= j < fp.len() implies bp[i] != fp[j] by {
        lemma_bunny_part_member(occ, m.bunnies, i);
        lemma_fox_part_member(occ, m.foxes, j);
    }
    lemma_concat_distinct(bp, fp);
}

} // verus!
