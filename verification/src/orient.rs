//! Rotations and reflections of whole boards.
use vstd::prelude::*;
use crate::bits::{has_bit, lemma_ext, lemma_zero};
use crate::board::{Board, BoardModel, all_indexable, bits_of, covers, lemma_bits_of};
use crate::geometry::{
    cell_index, cell_sum, indexable, listed, on_board, placement_count, placement_id, sym_cell,
    transform_cell, lemma_adjacent_order, lemma_index_coords, lemma_rank_listed_lt,
    lemma_rank_small,
};
use crate::board::{bunny_cells, mushroom_cells};
use crate::rules::{
    all_on_board, lemma_cells_index, lemma_legal_edge_symmetric, lemma_valid_keyable, lane_fox,
};
use crate::pieces::{Bunny, Fox, Mushroom, normalized, pos_sum, summable};
use crate::state::{
    fox_id, fox_index_pair, lemma_edge_image, lemma_transform_cell, permute_bits, placement_image,
    sort_ids,
};
use crate::symmetry::{
    compose, lemma_canonical_symmetric, lemma_image_of_pair, lemma_ordered_swap, lemma_permute_bit,
    lemma_sym_compose, ordered, sends,
};
use crate::order::{Ordered, leq};
use crate::compare::lemma_sort_same;
use crate::seqs::lemma_map_multiset;

verus! {

broadcast use vstd::seq_lib::group_to_multiset_ensures;

/// Image of a cell under symmetry `s` of the square.
pub open spec fn cell_image(p: (usize, usize), s: int) -> (usize, usize) {
    let c = sym_cell(p.0 as int, p.1 as int, s);
    (c.0 as usize, c.1 as usize)
}

/// The fox on the images of its cells, in the same order.
pub open spec fn fox_image(f: Fox, s: int) -> Fox {
    Fox { pos1: cell_image(f.pos1, s), pos2: cell_image(f.pos2, s) }
}

impl BoardModel {
    /// The board with every piece moved to its image under symmetry `s`, each fox
    /// normalized again.
    pub open spec fn image(self, s: int) -> BoardModel {
        BoardModel {
            bunnies: self.bunnies.map_values(|b: Bunny| Bunny { pos: cell_image(b.pos, s) }),
            foxes: self.foxes.map_values(|f: Fox| normalized(fox_image(f, s))),
            mushrooms: self.mushrooms.map_values(|m: Mushroom| Mushroom { pos: cell_image(m.pos, s) }),
        }
    }

    /// No cell lies right of the last column, and the coordinate sums of the foxes'
    /// images under symmetry `s` fit in a `usize`: what turning the board needs.
    pub open spec fn turnable(self, s: int) -> bool {
        &&& forall|j: int| 0 <= j < self.bunnies.len() ==> (#[trigger] self.bunnies[j]).pos.0 <= 4
        &&& forall|j: int| 0 <= j < self.mushrooms.len() ==> (#[trigger] self.mushrooms[j]).pos.0 <= 4
        &&& forall|j: int|
            0 <= j < self.foxes.len() ==> (#[trigger] self.foxes[j]).pos1.0 <= 4 && self.foxes[j].pos2.0
                <= 4 && summable(fox_image(self.foxes[j], s))
    }
}

/// Image of a cell under the quarter turn (`symmetry == 1`) or the mirror in the
/// vertical axis (`symmetry == 4`).
fn turn_cell(pos: (usize, usize), symmetry: usize) -> (r: (usize, usize))
    requires
        symmetry == 1 || symmetry == 4,
        pos.0 <= 4,
    ensures
        r == cell_image(pos, symmetry as int),
{
    if symmetry == 1 {
        (pos.1, 4 - pos.0)
    } else {
        (4 - pos.0, pos.1)
    }
}

/// A symmetry maps cells of the board to cells of the board.
pub proof fn lemma_cell_image_on_board(p: (usize, usize), s: int)
    requires
        on_board(p),
    ensures
        on_board(cell_image(p, s)),
{
}

/// A board whose pieces stand on the board can be turned, and its image stands on the board.
pub proof fn lemma_image_on_board(m: BoardModel, s: int)
    requires
        all_on_board(m.cells()),
    ensures
        m.turnable(s),
        all_on_board(m.image(s).cells()),
{
    let t = m.image(s);
    lemma_cells_index(m);
    lemma_cells_index(t);
    let nb = m.bunnies.len() as int;
    let nf = m.foxes.len() as int;
    assert forall|j: int| 0 <= j < m.bunnies.len() implies (#[trigger] m.bunnies[j]).pos.0 <= 4 by {
        assert(on_board(m.cells()[j]));
    }
    assert forall|j: int| 0 <= j < m.mushrooms.len() implies (#[trigger] m.mushrooms[j]).pos.0
        <= 4 by {
        assert(on_board(m.cells()[nb + 2 * nf + j]));
    }
    assert forall|j: int| 0 <= j < m.foxes.len() implies (#[trigger] m.foxes[j]).pos1.0 <= 4
        && m.foxes[j].pos2.0 <= 4 && summable(fox_image(m.foxes[j], s)) by {
        assert(on_board(m.cells()[nb + 2 * j]));
        assert(on_board(m.cells()[nb + 2 * j + 1]));
        lemma_cell_image_on_board(m.foxes[j].pos1, s);
        lemma_cell_image_on_board(m.foxes[j].pos2, s);
    }
    assert forall|i: int| 0 <= i < t.cells().len() implies on_board(#[trigger] t.cells()[i]) by {
        assert(t.bunnies.len() == nb && t.foxes.len() == nf);
        if i < nb {
            assert(on_board(m.cells()[i]));
            lemma_cell_image_on_board(m.bunnies[i].pos, s);
            assert(t.cells()[i] == t.bunnies[i].pos);
        } else if i < nb + 2 * nf {
            let j = (i - nb) / 2;
            assert(on_board(m.cells()[nb + 2 * j]));
            assert(on_board(m.cells()[nb + 2 * j + 1]));
            lemma_cell_image_on_board(m.foxes[j].pos1, s);
            lemma_cell_image_on_board(m.foxes[j].pos2, s);
            assert(t.foxes[j] == normalized(fox_image(m.foxes[j], s)));
            assert(t.cells()[nb + 2 * j] == t.foxes[j].pos1);
            assert(i == nb + 2 * j || i == nb + 2 * j + 1);
        } else {
            let j = i - nb - 2 * nf;
            assert(on_board(m.cells()[nb + 2 * nf + j]));
            lemma_cell_image_on_board(m.mushrooms[j].pos, s);
            assert(t.cells()[nb + 2 * nf + j] == t.mushrooms[j].pos);
        }
    }
}

/// The index of a cell's image is the image of its index.
pub proof fn lemma_cell_index_image(p: (usize, usize), s: int)
    requires
        on_board(p),
    ensures
        cell_index(cell_image(p, s)) == transform_cell(cell_index(p), s),
        0 <= cell_index(p) < 25,
{
    lemma_index_coords(p.0 as int, p.1 as int);
    lemma_transform_cell(cell_index(p), s);
}

/// Setting the bits of the images of cells is permuting the bits of the cells.
pub proof fn lemma_bits_image(ps: Seq<(usize, usize)>, s: int)
    requires
        all_on_board(ps),
        0 <= s < 8,
    ensures
        bits_of(0, ps.map_values(|p: (usize, usize)| cell_image(p, s))) == permute_bits(
            bits_of(0, ps),
            s,
            25,
        ),
{
    let qs = ps.map_values(|p: (usize, usize)| cell_image(p, s));
    let before = bits_of(0, ps);
    assert(all_indexable(ps)) by {
        assert forall|j: int| 0 <= j < ps.len() implies indexable(#[trigger] ps[j]) by {
            assert(on_board(ps[j]));
        }
    }
    assert(all_indexable(qs)) by {
        assert forall|j: int| 0 <= j < qs.len() implies indexable(#[trigger] qs[j]) by {
            assert(on_board(ps[j]));
            lemma_cell_image_on_board(ps[j], s);
        }
    }
    assert forall|i: u32| i < 32 implies has_bit(bits_of(0, qs), i) == has_bit(
        permute_bits(before, s, 25),
        i,
    ) by {
        lemma_zero(i);
        lemma_bits_of(0, qs, i);
        lemma_permute_bit(before, s, 25, i);
        if covers(qs, i as int) {
            let j = choose|j: int| 0 <= j < qs.len() && cell_index(#[trigger] qs[j]) == i;
            assert(on_board(ps[j]));
            lemma_cell_index_image(ps[j], s);
            let p = cell_index(ps[j]);
            lemma_zero(p as u32);
            lemma_bits_of(0, ps, p as u32);
            assert(covers(ps, p));
            assert(sends(before, s, 25, i as int));
        }
        if sends(before, s, 25, i as int) {
            let p = choose|p: int| 0 <= p < 25 && has_bit(before, p as u32) && #[trigger] transform_cell(p, s) == i;
            lemma_zero(p as u32);
            lemma_bits_of(0, ps, p as u32);
            let j = choose|j: int| 0 <= j < ps.len() && cell_index(#[trigger] ps[j]) == p;
            assert(on_board(ps[j]));
            lemma_cell_index_image(ps[j], s);
            assert(cell_index(qs[j]) == i);
            assert(covers(qs, i as int));
        }
    }
    lemma_ext(bits_of(0, qs), permute_bits(before, s, 25));
}

/// The cells of a fox on two neighbouring cells of a lane, as the key numbers them.
pub proof fn lemma_fox_pair(f: Fox)
    requires
        on_board(f.pos1),
        on_board(f.pos2),
        lane_fox(f),
    ensures
        fox_index_pair(f) == ordered(cell_index(f.pos1), cell_index(f.pos2)),
        0 <= fox_index_pair(f).0 < fox_index_pair(f).1 < 25,
        listed(fox_index_pair(f).0 * 25 + fox_index_pair(f).1),
        fox_id(f) as int == placement_id(fox_index_pair(f).0, fox_index_pair(f).1),
        (fox_id(f) as int) < placement_count(),
        cell_sum(cell_index(f.pos1)) != cell_sum(cell_index(f.pos2)),
{
    let a = cell_index(f.pos1);
    let b = cell_index(f.pos2);
    assert(0 <= a < 25 && 0 <= b < 25);
    assert(a % 256 == a && b % 256 == b);
    lemma_adjacent_order(a, b);
    lemma_legal_edge_symmetric(a, b);
    let o = fox_index_pair(f);
    assert(o == (a, b) || o == (b, a));
    let k = o.0 * 25 + o.1;
    assert(k / 25 == o.0 && k % 25 == o.1);
    lemma_rank_small(k);
    lemma_rank_listed_lt(k, 625);
}

/// The image of a fox on two neighbouring cells of a lane covers the images of its
/// cells, again two neighbouring cells of a lane.
proof fn lemma_fox_cells_image(f: Fox, s: int)
    requires
        on_board(f.pos1),
        on_board(f.pos2),
        lane_fox(f),
    ensures
        ({
            let g = normalized(fox_image(f, s));
            let ta = transform_cell(cell_index(f.pos1), s);
            let tb = transform_cell(cell_index(f.pos2), s);
            &&& on_board(g.pos1) && on_board(g.pos2)
            &&& (cell_index(g.pos1) == ta && cell_index(g.pos2) == tb) || (cell_index(g.pos1) == tb
                && cell_index(g.pos2) == ta)
            &&& lane_fox(g)
        }),
{
    let a = cell_index(f.pos1);
    let b = cell_index(f.pos2);
    lemma_cell_index_image(f.pos1, s);
    lemma_cell_index_image(f.pos2, s);
    lemma_cell_image_on_board(f.pos1, s);
    lemma_cell_image_on_board(f.pos2, s);
    lemma_edge_image(a, b, s);
    lemma_legal_edge_symmetric(transform_cell(a, s), transform_cell(b, s));
}

/// A fox `g` covering the images of the cells of `f` has the image of the number of `f`.
proof fn lemma_fox_id_moved(f: Fox, g: Fox, s: int)
    requires
        on_board(f.pos1),
        on_board(f.pos2),
        lane_fox(f),
        on_board(g.pos1),
        on_board(g.pos2),
        lane_fox(g),
        0 <= s < 8,
        ({
            let ta = transform_cell(cell_index(f.pos1), s);
            let tb = transform_cell(cell_index(f.pos2), s);
            (cell_index(g.pos1) == ta && cell_index(g.pos2) == tb) || (cell_index(g.pos1) == tb
                && cell_index(g.pos2) == ta)
        }),
    ensures
        fox_id(g) == placement_image(fox_id(f), s),
{
    let a = cell_index(f.pos1);
    let b = cell_index(f.pos2);
    lemma_fox_pair(f);
    lemma_fox_pair(g);
    let o = fox_index_pair(f);
    lemma_image_of_pair(o.0, o.1, s);
    let ta = transform_cell(a, s);
    let tb = transform_cell(b, s);
    let q = ordered(transform_cell(o.0, s), transform_cell(o.1, s));
    lemma_ordered_swap(ta, tb);
    assert(q == ordered(ta, tb));
    assert(fox_index_pair(g) == q);
}

/// The placement number of a fox's image is the image of its placement number.
pub proof fn lemma_fox_id_image(f: Fox, s: int)
    requires
        on_board(f.pos1),
        on_board(f.pos2),
        lane_fox(f),
        0 <= s < 8,
    ensures
        (fox_id(f) as int) < placement_count(),
        fox_id(normalized(fox_image(f, s))) == placement_image(fox_id(f), s),
        lane_fox(normalized(fox_image(f, s))),
        on_board(normalized(fox_image(f, s)).pos1),
        on_board(normalized(fox_image(f, s)).pos2),
{
    lemma_fox_pair(f);
    lemma_fox_cells_image(f, s);
    lemma_fox_id_moved(f, normalized(fox_image(f, s)), s);
}

/// The key of the image of a position under a symmetry is the image of its key.
pub proof fn lemma_image_state(m: BoardModel, s: int)
    requires
        m.valid(),
        0 <= s < 8,
    ensures
        m.image(s).state() == m.state().transformed(s),
{
    let t = m.image(s);
    lemma_cells_index(m);
    let nb = m.bunnies.len() as int;
    let nf = m.foxes.len() as int;
    let bc = bunny_cells(m.bunnies);
    assert(all_on_board(bc)) by {
        assert forall|j: int| 0 <= j < bc.len() implies on_board(#[trigger] bc[j]) by {
            assert(on_board(m.cells()[j]));
        }
    }
    assert(bunny_cells(t.bunnies) =~= bc.map_values(|p: (usize, usize)| cell_image(p, s)));
    lemma_bits_image(bc, s);
    let mc = mushroom_cells(m.mushrooms);
    assert(all_on_board(mc)) by {
        assert forall|j: int| 0 <= j < mc.len() implies on_board(#[trigger] mc[j]) by {
            assert(on_board(m.cells()[nb + 2 * nf + j]));
        }
    }
    assert(mushroom_cells(t.mushrooms) =~= mc.map_values(|p: (usize, usize)| cell_image(p, s)));
    lemma_bits_image(mc, s);
    let ids = m.foxes.map_values(|f: Fox| fox_id(f));
    let moved = t.foxes.map_values(|f: Fox| fox_id(f));
    let imaged = ids.map_values(|f: u8| placement_image(f, s));
    assert(moved =~= imaged) by {
        assert forall|j: int| 0 <= j < moved.len() implies #[trigger] moved[j] == imaged[j] by {
            assert(on_board(m.cells()[nb + 2 * j]));
            assert(on_board(m.cells()[nb + 2 * j + 1]));
            assert(lane_fox(m.foxes[j]));
            lemma_fox_id_image(m.foxes[j], s);
        }
    }
    u8::lemma_total_order();
    ids.lemma_sort_by_ensures(leq::<u8>());
    lemma_map_multiset(sort_ids(ids), ids, |f: u8| placement_image(f, s));
    lemma_sort_same(moved, sort_ids(ids).map_values(|f: u8| placement_image(f, s)));
}

/// The index in the cells of `m` of the cell whose image is cell `i` of `m.image(s)`.
spec fn source_index(m: BoardModel, s: int, i: int) -> int {
    let nb = m.bunnies.len() as int;
    let nf = m.foxes.len() as int;
    if nb <= i < nb + 2 * nf {
        let j = (i - nb) / 2;
        let f = fox_image(m.foxes[j], s);
        if pos_sum(f.pos1) > pos_sum(f.pos2) {
            if (i - nb) % 2 == 0 {
                i + 1
            } else {
                i - 1
            }
        } else {
            i
        }
    } else {
        i
    }
}

proof fn lemma_source_index(m: BoardModel, s: int, i: int)
    requires
        0 <= i < m.cells().len(),
    ensures
        0 <= source_index(m, s, i) < m.cells().len(),
        m.image(s).cells()[i] == cell_image(m.cells()[source_index(m, s, i)], s),
        forall|k: int|
            0 <= k < m.cells().len() && #[trigger] source_index(m, s, k) == source_index(m, s, i)
                ==> k == i,
{
    let t = m.image(s);
    lemma_cells_index(m);
    lemma_cells_index(t);
    let nb = m.bunnies.len() as int;
    let nf = m.foxes.len() as int;
    assert(t.bunnies.len() == nb && t.foxes.len() == nf);
    if i < nb {
        assert(t.cells()[i] == t.bunnies[i].pos);
    } else if i < nb + 2 * nf {
        let j = (i - nb) / 2;
        assert(t.foxes[j] == normalized(fox_image(m.foxes[j], s)));
        assert(t.cells()[nb + 2 * j] == t.foxes[j].pos1);
        assert(i == nb + 2 * j || i == nb + 2 * j + 1);
    } else {
        let j = i - nb - 2 * nf;
        assert(t.cells()[nb + 2 * nf + j] == t.mushrooms[j].pos);
    }
}

/// The symmetries of the square map distinct cells of the board to distinct cells.
pub proof fn lemma_cell_image_injective(p: (usize, usize), q: (usize, usize), s: int)
    requires
        on_board(p),
        on_board(q),
        cell_image(p, s) == cell_image(q, s),
    ensures
        p == q,
{
}

/// The image of a position under a symmetry of the square is a position.
pub proof fn lemma_image_valid(m: BoardModel, s: int)
    requires
        m.valid(),
        0 <= s < 8,
    ensures
        m.image(s).valid(),
{
    let t = m.image(s);
    lemma_image_on_board(m, s);
    lemma_cells_index(m);
    let nb = m.bunnies.len() as int;
    assert forall|i: int, k: int| 0 <= i < t.cells().len() && 0 <= k < t.cells().len() && i != k
        implies t.cells()[i] != t.cells()[k] by {
        lemma_cells_index(t);
        lemma_source_index(m, s, i);
        lemma_source_index(m, s, k);
        let a = source_index(m, s, i);
        let b = source_index(m, s, k);
        assert(on_board(m.cells()[a]));
        assert(on_board(m.cells()[b]));
        if t.cells()[i] == t.cells()[k] {
            lemma_cell_image_injective(m.cells()[a], m.cells()[b], s);
            assert(a == b);
        }
    }
    assert forall|j: int| 0 <= j < t.foxes.len() implies lane_fox(#[trigger] t.foxes[j]) by {
        assert(on_board(m.cells()[nb + 2 * j]));
        assert(on_board(m.cells()[nb + 2 * j + 1]));
        assert(lane_fox(m.foxes[j]));
        lemma_fox_id_image(m.foxes[j], s);
    }
}

/// Turning or mirroring a position gives a position with the same canonical key.
pub proof fn lemma_image_canonical(m: BoardModel, s: int)
    requires
        m.valid(),
        0 <= s < 8,
    ensures
        m.image(s).valid(),
        m.image(s).state().canonical() == m.state().canonical(),
{
    lemma_image_valid(m, s);
    lemma_image_state(m, s);
    lemma_valid_keyable(m);
    lemma_canonical_symmetric(m.state(), s);
}

/// Each rotation and each reflection of a position is a position with the same
/// canonical key as the position itself.
pub proof fn lemma_turned_boards_share_key(m: BoardModel)
    requires
        m.valid(),
    ensures
        m.image(1).valid(),
        m.image(1).state().canonical() == m.state().canonical(),
        m.image(1).image(1).valid(),
        m.image(1).image(1).state().canonical() == m.state().canonical(),
        m.image(1).image(1).image(1).valid(),
        m.image(1).image(1).image(1).state().canonical() == m.state().canonical(),
        m.image(4).valid(),
        m.image(4).state().canonical() == m.state().canonical(),
        m.image(4).image(1).image(1).valid(),
        m.image(4).image(1).image(1).state().canonical() == m.state().canonical(),
{
    lemma_image_canonical(m, 1);
    lemma_image_canonical(m.image(1), 1);
    lemma_image_canonical(m.image(1).image(1), 1);
    lemma_image_canonical(m, 4);
    lemma_image_canonical(m.image(4), 1);
    lemma_image_canonical(m.image(4).image(1), 1);
}

/// Applying symmetry `a` and then `b` to a cell of the board is applying `compose(a, b)`.
proof fn lemma_cell_image_compose(p: (usize, usize), a: int, b: int)
    requires
        on_board(p),
        0 <= a < 8,
        0 <= b < 8,
    ensures
        cell_image(cell_image(p, a), b) == cell_image(p, compose(a, b)),
        on_board(cell_image(p, a)),
{
    lemma_sym_compose(p.0 as int, p.1 as int, a, b);
    lemma_cell_image_on_board(p, a);
}

/// Normalizing a fox before turning it makes no difference once the turned fox is
/// normalized, when its turned cells have different coordinate sums.
proof fn lemma_normalize_first(g: Fox, s: int)
    requires
        pos_sum(cell_image(g.pos1, s)) != pos_sum(cell_image(g.pos2, s)),
    ensures
        normalized(fox_image(normalized(g), s)) == normalized(fox_image(g, s)),
{
}

/// Turning a position by `a` and then by `b` is turning it by `compose(a, b)`.
pub proof fn lemma_image_compose(m: BoardModel, a: int, b: int)
    requires
        m.valid(),
        0 <= a < 8,
        0 <= b < 8,
    ensures
        m.image(a).image(b) == m.image(compose(a, b)),
{
    let c = compose(a, b);
    lemma_cells_index(m);
    let nb = m.bunnies.len() as int;
    let nf = m.foxes.len() as int;
    let two = m.image(a).image(b);
    let one = m.image(c);
    assert(two.bunnies =~= one.bunnies) by {
        assert forall|j: int| 0 <= j < m.bunnies.len() implies #[trigger] two.bunnies[j]
            == one.bunnies[j] by {
            assert(on_board(m.cells()[j]));
            lemma_cell_image_compose(m.bunnies[j].pos, a, b);
        }
    }
    assert(two.mushrooms =~= one.mushrooms) by {
        assert forall|j: int| 0 <= j < m.mushrooms.len() implies #[trigger] two.mushrooms[j]
            == one.mushrooms[j] by {
            assert(on_board(m.cells()[nb + 2 * nf + j]));
            lemma_cell_image_compose(m.mushrooms[j].pos, a, b);
        }
    }
    assert(two.foxes =~= one.foxes) by {
        assert forall|j: int| 0 <= j < m.foxes.len() implies #[trigger] two.foxes[j]
            == one.foxes[j] by {
            let f = m.foxes[j];
            assert(on_board(m.cells()[nb + 2 * j]));
            assert(on_board(m.cells()[nb + 2 * j + 1]));
            assert(lane_fox(f));
            lemma_cell_image_compose(f.pos1, a, b);
            lemma_cell_image_compose(f.pos2, a, b);
            let g = fox_image(f, a);
            lemma_fox_cells_image(f, a);
            let h = normalized(g);
            lemma_fox_cells_image(h, b);
            lemma_cell_index_image(g.pos1, b);
            lemma_cell_index_image(g.pos2, b);
            lemma_cell_index_image(cell_image(g.pos1, b), 0);
            lemma_index_coords(cell_image(g.pos1, b).0 as int, cell_image(g.pos1, b).1 as int);
            lemma_index_coords(cell_image(g.pos2, b).0 as int, cell_image(g.pos2, b).1 as int);
            lemma_cell_image_on_board(g.pos1, b);
            lemma_cell_image_on_board(g.pos2, b);
            lemma_fox_pair(normalized(fox_image(h, b)));
            lemma_normalize_first(g, b);
        }
    }
}

/// The identity leaves a normal position as it is.
proof fn lemma_image_identity(m: BoardModel)
    requires
        m.valid(),
        m.normal(),
    ensures
        m.image(0) == m,
{
    lemma_cells_index(m);
    let nb = m.bunnies.len() as int;
    let nf = m.foxes.len() as int;
    let t = m.image(0);
    assert(t.bunnies =~= m.bunnies) by {
        assert forall|j: int| 0 <= j < m.bunnies.len() implies #[trigger] t.bunnies[j]
            == m.bunnies[j] by {
            assert(on_board(m.cells()[j]));
        }
    }
    assert(t.mushrooms =~= m.mushrooms) by {
        assert forall|j: int| 0 <= j < m.mushrooms.len() implies #[trigger] t.mushrooms[j]
            == m.mushrooms[j] by {
            assert(on_board(m.cells()[nb + 2 * nf + j]));
        }
    }
    assert(t.foxes =~= m.foxes) by {
        assert forall|j: int| 0 <= j < m.foxes.len() implies #[trigger] t.foxes[j] == m.foxes[j] by {
            assert(on_board(m.cells()[nb + 2 * j]));
            assert(on_board(m.cells()[nb + 2 * j + 1]));
        }
    }
}

/// Two quarter turns are the half turn, three the turn back.
proof fn lemma_quarter_turns(m: BoardModel)
    requires
        m.valid(),
    ensures
        m.image(1).image(1) == m.image(2),
        m.image(1).image(1).image(1) == m.image(3),
{
    lemma_sym_compose(0, 0, 1, 1);
    lemma_sym_compose(0, 0, 2, 1);
    lemma_image_compose(m, 1, 1);
    lemma_image_valid(m, 2);
    lemma_image_compose(m, 2, 1);
}

/// Four quarter turns give a normal position back.
proof fn lemma_four_quarters(m: BoardModel)
    requires
        m.valid(),
        m.normal(),
    ensures
        m.image(1).image(1).image(1).image(1) == m,
{
    let three = m.image(1).image(1).image(1);
    assert(three == m.image(3)) by {
        lemma_quarter_turns(m);
    }
    assert(m.image(3).image(1) == m) by {
        lemma_image_valid(m, 3);
        lemma_image_compose(m, 3, 1);
        lemma_sym_compose(0, 0, 3, 1);
        lemma_image_identity(m);
    }
}

/// Two mirrors give a normal position back; the left-right mirror followed by the half
/// turn is the top-bottom mirror.
proof fn lemma_mirrors(m: BoardModel)
    requires
        m.valid(),
        m.normal(),
    ensures
        m.image(4).image(4) == m,
        m.image(4).image(1).image(1) == m.image(5),
{
    assert(m.image(4).image(4) == m) by {
        lemma_image_compose(m, 4, 4);
        lemma_sym_compose(0, 0, 4, 4);
        lemma_image_identity(m);
    }
    assert(m.image(4).image(1).image(1) == m.image(4).image(2)) by {
        lemma_image_valid(m, 4);
        lemma_quarter_turns(m.image(4));
    }
    assert(m.image(4).image(2) == m.image(5)) by {
        lemma_image_compose(m, 4, 2);
        lemma_sym_compose(0, 0, 4, 2);
    }
}

/// Four quarter turns, or two mirrors, give a position with normalized foxes back; two
/// quarter turns are the half turn, and the left-right mirror followed by the half turn
/// is the top-bottom mirror.
pub proof fn lemma_turns_undo(m: BoardModel)
    requires
        m.valid(),
        m.normal(),
    ensures
        m.image(1).image(1) == m.image(2),
        m.image(1).image(1).image(1) == m.image(3),
        m.image(1).image(1).image(1).image(1) == m,
        m.image(4).image(4) == m,
        m.image(4).image(1).image(1) == m.image(5),
{
    lemma_quarter_turns(m);
    lemma_four_quarters(m);
    lemma_mirrors(m);
}

impl Board {
    /// The board with every piece moved by the quarter turn (`symmetry == 1`) or the
    /// mirror (`symmetry == 4`).
    fn transform_board(&self, symmetry: usize) -> (r: Board)
        requires
            symmetry == 1 || symmetry == 4,
            self@.turnable(symmetry as int),
        ensures
            r@ == self@.image(symmetry as int),
    {
        let ghost s = symmetry as int;
        let ghost m = self@;
        let mut bunnies: Vec<Bunny> = Vec::new();
        let mut i: usize = 0;
        while i < self.bunnies.len()
            invariant
                symmetry == 1 || symmetry == 4,
                s == symmetry as int,
                m == self@,
                m.turnable(s),
                i <= self.bunnies.len(),
                bunnies@ == self.bunnies@.take(i as int).map_values(
                    |b: Bunny| Bunny { pos: cell_image(b.pos, s) },
                ),
            decreases self.bunnies.len() - i,
        {
            proof {
                assert(m.bunnies[i as int].pos.0 <= 4);
            }
            let b = Bunny { pos: turn_cell(self.bunnies[i].pos, symmetry) };
            bunnies.push(b);
            i = i + 1;
            proof {
                assert(bunnies@ =~= self.bunnies@.take(i as int).map_values(
                    |b: Bunny| Bunny { pos: cell_image(b.pos, s) },
                ));
            }
        }
        let mut mushrooms: Vec<Mushroom> = Vec::new();
        let mut i: usize = 0;
        while i < self.mushrooms.len()
            invariant
                symmetry == 1 || symmetry == 4,
                s == symmetry as int,
                m == self@,
                m.turnable(s),
                i <= self.mushrooms.len(),
                mushrooms@ == self.mushrooms@.take(i as int).map_values(
                    |u: Mushroom| Mushroom { pos: cell_image(u.pos, s) },
                ),
            decreases self.mushrooms.len() - i,
        {
            proof {
                assert(m.mushrooms[i as int].pos.0 <= 4);
            }
            let u = Mushroom { pos: turn_cell(self.mushrooms[i].pos, symmetry) };
            mushrooms.push(u);
            i = i + 1;
            proof {
                assert(mushrooms@ =~= self.mushrooms@.take(i as int).map_values(
                    |u: Mushroom| Mushroom { pos: cell_image(u.pos, s) },
                ));
            }
        }
        let mut foxes: Vec<Fox> = Vec::new();
        let mut i: usize = 0;
        while i < self.foxes.len()
            invariant
                symmetry == 1 || symmetry == 4,
                s == symmetry as int,
                m == self@,
                m.turnable(s),
                i <= self.foxes.len(),
                foxes@ == self.foxes@.take(i as int).map_values(
                    |f: Fox| normalized(fox_image(f, s)),
                ),
            decreases self.foxes.len() - i,
        {
            let f = self.foxes[i];
            proof {
                assert(m.foxes[i as int].pos1.0 <= 4);
                assert(summable(fox_image(f, s)));
            }
            let turned = Fox { pos1: turn_cell(f.pos1, symmetry), pos2: turn_cell(f.pos2, symmetry) };
            foxes.push(turned.normalize());
            i = i + 1;
            proof {
                assert(foxes@ =~= self.foxes@.take(i as int).map_values(
                    |f: Fox| normalized(fox_image(f, s)),
                ));
            }
        }
        proof {
            assert(self.bunnies@.take(self.bunnies@.len() as int) =~= self.bunnies@);
            assert(self.mushrooms@.take(self.mushrooms@.len() as int) =~= self.mushrooms@);
            assert(self.foxes@.take(self.foxes@.len() as int) =~= self.foxes@);
        }
        Board { bunnies, foxes, mushrooms }
    }

    /// The board turned a quarter: the cell `(x, y)` goes to `(y, 4 - x)`.
    pub fn rotate90(&self) -> (r: Self)
        requires
            self@.turnable(1),
        ensures
            r@ == self@.image(1),
    {
        self.transform_board(1)
    }

    /// The board turned half way round: twice the quarter turn.
    pub fn rotate180(&self) -> (r: Self)
        requires
            all_on_board(self@.cells()),
        ensures
            r@ == self@.image(1).image(1),
    {
        proof {
            lemma_image_on_board(self@, 1);
            lemma_image_on_board(self@.image(1), 1);
        }
        self.rotate90().rotate90()
    }

    /// The board turned three quarters: the half turn and then the quarter turn.
    pub fn rotate270(&self) -> (r: Self)
        requires
            all_on_board(self@.cells()),
        ensures
            r@ == self@.image(1).image(1).image(1),
    {
        proof {
            lemma_image_on_board(self@, 1);
            lemma_image_on_board(self@.image(1), 1);
            lemma_image_on_board(self@.image(1).image(1), 1);
        }
        self.rotate180().rotate90()
    }

    /// The board mirrored left to right: the cell `(x, y)` goes to `(4 - x, y)`.
    pub fn flip_x(&self) -> (r: Self)
        requires
            self@.turnable(4),
        ensures
            r@ == self@.image(4),
    {
        self.transform_board(4)
    }

    /// The board mirrored top to bottom: the left-right mirror and then the half turn.
    pub fn flip_y(&self) -> (r: Self)
        requires
            all_on_board(self@.cells()),
        ensures
            r@ == self@.image(4).image(1).image(1),
    {
        proof {
            lemma_image_on_board(self@, 4);
            lemma_image_on_board(self@.image(4), 1);
        }
        self.flip_x().rotate180()
    }
}

} // verus!
