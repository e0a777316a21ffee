//! Positions with the same canonical key: one is a rotation or reflection of the other,
//! up to the order in which the pieces are listed, so they win alike and allow the same
//! moves up to that symmetry.
use vstd::prelude::*;
use vstd::relations::sorted_by;
use crate::bits::{has_bit, lemma_ext, lemma_zero};
use crate::board::{
    BoardModel, all_indexable, bits_of, bunny_cells, covers, is_hole, lemma_bits_of, mushroom_cells,
    fox_cells,
};
use crate::compare::{lemma_bits_same, lemma_sort_same};
use crate::geometry::{
    cell_index, indexable, on_board, placement_count, rank, listed, transform_cell,
    lemma_adjacent_order, lemma_rank_injective, lemma_rank_small,
};
use crate::order::{Ordered, leq};
use crate::orient::{
    cell_image, fox_image, lemma_cell_index_image, lemma_fox_pair, lemma_image_state,
    lemma_image_valid,
};
use crate::pieces::{Bunny, Fox, Mushroom, normalized};
use crate::rules::{
    all_on_board, lane_fox, lemma_cells_index, lemma_index_injective, lemma_valid_keyable,
};
use crate::seqs::{lemma_map_multiset, lemma_no_dup_counts};
use crate::setup::lemma_same_cells;
use crate::turned_moves::{lemma_all_moves_has, lemma_occupancy_cells, move_image};

use crate::pieces::Move;
use crate::bits::{lemma_or_single, lemma_and_not_single};
use crate::board::without;

use crate::rules::{
    lemma_bunny_move, lemma_fox_move, lemma_move_member, lemma_bunny_dest, lemma_fox_dest,
};
use crate::turned_moves::lemma_transform_injective;
use crate::orient::lemma_fox_id_image;
use crate::graph::{after, successor_key};
use crate::rules::lemma_move_keeps_position;
use crate::symmetry::lemma_canonical_symmetric;
use crate::turned_moves::lemma_move_image;
use crate::state::{
    StateModel, fox_id, fox_index_pair, lemma_transform_cell, permute_bits, placement_image,
    placement_pair, sort_ids,
};
use crate::symmetry::{
    completing, lemma_compose_onto, lemma_image_of_pair, lemma_least_image, lemma_permute_bit,
    lemma_placement_listed, lemma_transformed_compose, sends,
};

verus! {

broadcast use vstd::seq_lib::group_to_multiset_ensures;

/// The key of a position is its own image under the identity.
pub proof fn lemma_state_identity(m: BoardModel)
    requires
        m.valid(),
    ensures
        m.state().transformed(0) == m.state(),
{
    let k = m.state();
    lemma_valid_keyable(m);
    lemma_cells_index(m);
    let nb = m.bunnies.len() as int;
    let nf = m.foxes.len() as int;
    let bc = bunny_cells(m.bunnies);
    let uc = mushroom_cells(m.mushrooms);
    assert(all_on_board(bc)) by {
        assert forall|j: int| 0 <= j < bc.len() implies on_board(#[trigger] bc[j]) by {
            assert(on_board(m.cells()[j]));
        }
    }
    assert(all_on_board(uc)) by {
        assert forall|j: int| 0 <= j < uc.len() implies on_board(#[trigger] uc[j]) by {
            assert(on_board(m.cells()[nb + 2 * nf + j]));
        }
    }
    lemma_identity_bits(bc);
    lemma_identity_bits(uc);
    let ids = k.foxes;
    let mapped = ids.map_values(|f: u8| placement_image(f, 0));
    assert(mapped =~= ids) by {
        assert forall|j: int| 0 <= j < ids.len() implies #[trigger] mapped[j] == ids[j] by {
            assert((ids[j] as int) < placement_count());
            lemma_identity_id(ids[j]);
        }
    }
    let raw = m.foxes.map_values(|f: Fox| fox_id(f));
    u8::lemma_total_order();
    raw.lemma_sort_by_ensures(leq::<u8>());
    lemma_sort_same(ids, raw);
}

/// The identity keeps the bits of cells of the board.
proof fn lemma_identity_bits(ps: Seq<(usize, usize)>)
    requires
        all_on_board(ps),
    ensures
        permute_bits(bits_of(0, ps), 0, 25) == bits_of(0, ps),
{
    let b = bits_of(0, ps);
    assert(all_indexable(ps)) by {
        assert forall|j: int| 0 <= j < ps.len() implies indexable(#[trigger] ps[j]) by {
            assert(on_board(ps[j]));
        }
    }
    assert forall|i: u32| i < 32 implies has_bit(permute_bits(b, 0, 25), i) == has_bit(b, i) by {
        lemma_permute_bit(b, 0, 25, i);
        lemma_zero(i);
        lemma_bits_of(0, ps, i);
        if sends(b, 0, 25, i as int) {
            let p = choose|p: int| 0 <= p < 25 && has_bit(b, p as u32) && #[trigger] transform_cell(p, 0) == i;
            lemma_transform_cell(p, 0);
        }
        if has_bit(b, i) {
            let j = choose|j: int| 0 <= j < ps.len() && cell_index(#[trigger] ps[j]) == i;
            assert(on_board(ps[j]));
            lemma_transform_cell(i as int, 0);
            assert(sends(b, 0, 25, i as int));
        }
    }
    lemma_ext(permute_bits(b, 0, 25), b);
}

/// The identity keeps a mask whose bits all lie below 25.
proof fn lemma_identity_mask(m: u32)
    requires
        m < 0x200_0000,
    ensures
        permute_bits(m, 0, 25) == m,
{
    assert forall|i: u32| i < 32 implies has_bit(permute_bits(m, 0, 25), i) == has_bit(m, i) by {
        lemma_permute_bit(m, 0, 25, i);
        assert(m < 0x200_0000 && 25 <= i < 32 ==> !has_bit(m, i)) by (bit_vector);
        if sends(m, 0, 25, i as int) {
            let p = choose|p: int| 0 <= p < 25 && has_bit(m, p as u32) && #[trigger] transform_cell(p, 0) == i;
            lemma_transform_cell(p, 0);
        }
        if has_bit(m, i) {
            lemma_transform_cell(i as int, 0);
            assert(sends(m, 0, 25, i as int));
        }
    }
    lemma_ext(permute_bits(m, 0, 25), m);
}

/// The identity leaves every key with bits below 25 and sorted, numbered foxes as it is;
/// every symmetry keeps the number of foxes and moves each bit below 25 to the bit of
/// the image cell, leaving the bits from 25 on clear.
pub proof fn lemma_identity_key(k: StateModel, s: int, p: int)
    requires
        k.well_numbered(),
        0 <= s < 8,
        0 <= p < 25,
    ensures
        k.bunnies < 0x200_0000 && k.mushrooms < 0x200_0000 && sorted_by(k.foxes, leq::<u8>())
            ==> k.transformed(0) == k,
        k.transformed(s).foxes.len() == k.foxes.len(),
        has_bit(k.transformed(s).bunnies, transform_cell(p, s) as u32) == has_bit(
            k.bunnies,
            p as u32,
        ),
        has_bit(k.transformed(s).mushrooms, transform_cell(p, s) as u32) == has_bit(
            k.mushrooms,
            p as u32,
        ),
        forall|i: u32|
            25 <= i < 32 ==> !has_bit(#[trigger] k.transformed(s).bunnies, i) && !has_bit(
                k.transformed(s).mushrooms,
                i,
            ),
{
    u8::lemma_total_order();
    let fm = k.foxes.map_values(|f: u8| placement_image(f, s));
    fm.lemma_sort_by_ensures(leq::<u8>());
    vstd::seq_lib::to_multiset_len(fm);
    vstd::seq_lib::to_multiset_len(sort_ids(fm));
    lemma_transform_cell(p, s);
    let tp = transform_cell(p, s);
    lemma_permute_bit(k.bunnies, s, 25, tp as u32);
    lemma_permute_bit(k.mushrooms, s, 25, tp as u32);
    if sends(k.bunnies, s, 25, tp) {
        let q = choose|q: int| 0 <= q < 25 && has_bit(k.bunnies, q as u32) && #[trigger] transform_cell(q, s) == tp;
        crate::turned_moves::lemma_transform_injective(p, q, s);
    }
    if has_bit(k.bunnies, p as u32) {
        assert(sends(k.bunnies, s, 25, tp));
    }
    if sends(k.mushrooms, s, 25, tp) {
        let q = choose|q: int| 0 <= q < 25 && has_bit(k.mushrooms, q as u32) && #[trigger] transform_cell(q, s) == tp;
        crate::turned_moves::lemma_transform_injective(p, q, s);
    }
    if has_bit(k.mushrooms, p as u32) {
        assert(sends(k.mushrooms, s, 25, tp));
    }
    assert forall|i: u32| 25 <= i < 32 implies !has_bit(#[trigger] k.transformed(s).bunnies, i)
        && !has_bit(k.transformed(s).mushrooms, i) by {
        lemma_permute_bit(k.bunnies, s, 25, i);
        lemma_permute_bit(k.mushrooms, s, 25, i);
        if sends(k.bunnies, s, 25, i as int) {
            let q = choose|q: int| 0 <= q < 25 && has_bit(k.bunnies, q as u32) && #[trigger] transform_cell(q, s) == i;
            lemma_transform_cell(q, s);
        }
        if sends(k.mushrooms, s, 25, i as int) {
            let q = choose|q: int| 0 <= q < 25 && has_bit(k.mushrooms, q as u32) && #[trigger] transform_cell(q, s) == i;
            lemma_transform_cell(q, s);
        }
    }
    if k.bunnies < 0x200_0000 && k.mushrooms < 0x200_0000 && sorted_by(k.foxes, leq::<u8>()) {
        lemma_identity_mask(k.bunnies);
        lemma_identity_mask(k.mushrooms);
        let f0 = k.foxes.map_values(|f: u8| placement_image(f, 0));
        assert(f0 =~= k.foxes) by {
            assert forall|j: int| 0 <= j < k.foxes.len() implies #[trigger] f0[j] == k.foxes[j] by {
                assert((k.foxes[j] as int) < placement_count());
                lemma_identity_id(k.foxes[j]);
            }
        }
        k.foxes.lemma_sort_by_ensures(leq::<u8>());
        vstd::seq_lib::lemma_sorted_unique(k.foxes, sort_ids(k.foxes), leq::<u8>());
    }
}

/// The cells whose bit is set in mask `m`.
pub open spec fn mask_cells(m: u32) -> Set<int> {
    vstd::set_lib::set_int_range(0, 25).filter(|p: int| has_bit(m, p as u32))
}

/// The cells of a turned mask are the images of the cells of the mask.
proof fn lemma_mask_cells_image(m: u32, s: int)
    requires
        0 <= s < 8,
    ensures
        mask_cells(crate::state::permute_bits(m, s, 25)) == mask_cells(m).map(|p: int| transform_cell(p, s)),
{
    let a = mask_cells(crate::state::permute_bits(m, s, 25));
    let f = |p: int| transform_cell(p, s);
    let b = mask_cells(m).map(f);
    assert forall|q: int| a.contains(q) == b.contains(q) by {
        if 0 <= q < 25 {
            lemma_permute_bit(m, s, 25, q as u32);
            if sends(m, s, 25, q) {
                let p = choose|p: int| 0 <= p < 25 && has_bit(m, p as u32) && #[trigger] transform_cell(p, s) == q;
                assert(mask_cells(m).contains(p) && f(p) == q);
            }
            if b.contains(q) {
                let p = choose|p: int| mask_cells(m).contains(p) && f(p) == q;
                assert(sends(m, s, 25, q));
            }
        } else if b.contains(q) {
            let p = choose|p: int| mask_cells(m).contains(p) && f(p) == q;
            lemma_transform_cell(p, s);
        }
    }
    assert(a =~= b);
}

/// A symmetry moves as many cells as the mask has.
proof fn lemma_mask_cells_len(m: u32, s: int)
    requires
        0 <= s < 8,
    ensures
        mask_cells(crate::state::permute_bits(m, s, 25)).len() == mask_cells(m).len(),
        mask_cells(m).finite(),
{
    let f = |p: int| transform_cell(p, s);
    vstd::set_lib::lemma_int_range(0, 25);
    vstd::set_lib::set_int_range(0, 25).lemma_len_filter(|p: int| has_bit(m, p as u32));
    lemma_mask_cells_image(m, s);
    assert(vstd::relations::injective_on(f, mask_cells(m))) by {
        assert forall|p: int, q: int| mask_cells(m).contains(p) && mask_cells(m).contains(q) && #[trigger] f(p)
            == #[trigger] f(q) implies p == q by {
            crate::turned_moves::lemma_transform_injective(p, q, s);
        }
    }
    vstd::set_lib::lemma_map_size(mask_cells(m), mask_cells(m).map(f), f);
}

/// Every symmetry keeps the number of each kind of piece of a key.
pub proof fn lemma_transform_counts(k: StateModel, s: int)
    requires
        0 <= s < 8,
    ensures
        mask_cells(k.transformed(s).bunnies).len() == mask_cells(k.bunnies).len(),
        mask_cells(k.transformed(s).mushrooms).len() == mask_cells(k.mushrooms).len(),
        k.transformed(s).foxes.len() == k.foxes.len(),
{
    lemma_mask_cells_len(k.bunnies, s);
    lemma_mask_cells_len(k.mushrooms, s);
    let fm = k.foxes.map_values(|f: u8| placement_image(f, s));
    u8::lemma_total_order();
    fm.lemma_sort_by_ensures(leq::<u8>());
    vstd::seq_lib::to_multiset_len(fm);
    vstd::seq_lib::to_multiset_len(sort_ids(fm));
}

/// The identity keeps placement numbers.
proof fn lemma_identity_id(id: u8)
    requires
        (id as int) < placement_count(),
    ensures
        placement_image(id, 0) == id,
{
    lemma_placement_listed(id as int);
    let p = placement_pair(id as int);
    lemma_rank_small(p.0 * 25 + p.1);
    lemma_image_of_pair(p.0, p.1, 0);
    lemma_transform_cell(p.0, 0);
    lemma_transform_cell(p.1, 0);
    lemma_adjacent_order(p.0, p.1);
}

/// The canonical key is one of the images of the key.
pub proof fn lemma_canonical_image(k: StateModel)
    ensures
        exists|t: int| 0 <= t < 8 && k.canonical() == #[trigger] k.transformed(t),
{
    reveal(StateModel::canonical);
    lemma_least_image(k, 8);
}

/// Two positions with the same canonical key: the key of one is an image of the key of
/// the other.
pub proof fn lemma_same_canonical(a: BoardModel, b: BoardModel)
    requires
        a.valid(),
        b.valid(),
        a.state().canonical() == b.state().canonical(),
    ensures
        exists|c: int| 0 <= c < 8 && a.state() == #[trigger] b.state().transformed(c),
{
    lemma_valid_keyable(a);
    lemma_valid_keyable(b);
    lemma_canonical_image(a.state());
    lemma_canonical_image(b.state());
    let t1 = choose|t: int| 0 <= t < 8 && a.state().canonical() == #[trigger] a.state().transformed(t);
    let t2 = choose|t: int| 0 <= t < 8 && b.state().canonical() == #[trigger] b.state().transformed(t);
    lemma_compose_onto(t1, 0);
    let u = completing(t1, 0);
    lemma_transformed_compose(a.state(), t1, u);
    lemma_transformed_compose(b.state(), t2, u);
    crate::symmetry::lemma_sym_compose(0, 0, t2, u);
    lemma_state_identity(a);
    let c = crate::symmetry::compose(t2, u);
    assert(a.state() == b.state().transformed(c));
}

/// Two lists without repeats that hold the same elements hold them equally often.
proof fn lemma_same_elements<A>(s: Seq<A>, t: Seq<A>)
    requires
        s.no_duplicates(),
        t.no_duplicates(),
        forall|x: A| s.contains(x) == t.contains(x),
    ensures
        s.to_multiset() == t.to_multiset(),
{
    lemma_no_dup_counts(s);
    lemma_no_dup_counts(t);
    assert forall|x: A| s.to_multiset().count(x) == t.to_multiset().count(x) by {
        vstd::seq_lib::to_multiset_contains(s, x);
        vstd::seq_lib::to_multiset_contains(t, x);
    }
    assert(s.to_multiset() =~= t.to_multiset());
}

/// Positions whose cells of one kind set the same bits have the same cells of that kind.
proof fn lemma_same_bits_cells(ps: Seq<(usize, usize)>, qs: Seq<(usize, usize)>, p: (usize, usize))
    requires
        all_on_board(ps),
        all_on_board(qs),
        bits_of(0, ps) == bits_of(0, qs),
        on_board(p),
    ensures
        ps.contains(p) == qs.contains(p),
{
    assert(all_indexable(ps)) by {
        assert forall|j: int| 0 <= j < ps.len() implies indexable(#[trigger] ps[j]) by {
            assert(on_board(ps[j]));
        }
    }
    assert(all_indexable(qs)) by {
        assert forall|j: int| 0 <= j < qs.len() implies indexable(#[trigger] qs[j]) by {
            assert(on_board(qs[j]));
        }
    }
    let i = cell_index(p) as u32;
    lemma_zero(i);
    lemma_bits_of(0, ps, i);
    lemma_bits_of(0, qs, i);
    if ps.contains(p) {
        let j = choose|j: int| 0 <= j < ps.len() && ps[j] == p;
        assert(covers(ps, i as int));
        let k = choose|k: int| 0 <= k < qs.len() && cell_index(#[trigger] qs[k]) == i;
        assert(on_board(qs[k]));
        lemma_index_injective(qs[k], p);
    }
    if qs.contains(p) {
        let j = choose|j: int| 0 <= j < qs.len() && qs[j] == p;
        assert(covers(qs, i as int));
        let k = choose|k: int| 0 <= k < ps.len() && cell_index(#[trigger] ps[k]) == i;
        assert(on_board(ps[k]));
        lemma_index_injective(ps[k], p);
    }
}

/// The cells of a normalized fox in the order the key numbers them.
proof fn lemma_normal_pair(f: Fox)
    requires
        on_board(f.pos1),
        on_board(f.pos2),
        lane_fox(f),
        normalized(f) == f,
    ensures
        fox_index_pair(f) == (cell_index(f.pos1), cell_index(f.pos2)),
        listed(cell_index(f.pos1) * 25 + cell_index(f.pos2)),
        0 <= cell_index(f.pos1) < 25,
        0 <= cell_index(f.pos2) < 25,
        fox_id(f) as int == rank(cell_index(f.pos1) * 25 + cell_index(f.pos2)),
{
    lemma_fox_pair(f);
    crate::geometry::lemma_index_coords(f.pos1.0 as int, f.pos1.1 as int);
    crate::geometry::lemma_index_coords(f.pos2.0 as int, f.pos2.1 as int);
}

/// Normalized foxes on two neighbouring cells of a lane with the same placement number
/// are the same fox.
pub proof fn lemma_fox_id_injective(f: Fox, g: Fox)
    requires
        on_board(f.pos1),
        on_board(f.pos2),
        lane_fox(f),
        normalized(f) == f,
        on_board(g.pos1),
        on_board(g.pos2),
        lane_fox(g),
        normalized(g) == g,
        fox_id(f) == fox_id(g),
    ensures
        f == g,
{
    lemma_normal_pair(f);
    lemma_normal_pair(g);
    let a1 = cell_index(f.pos1);
    let a2 = cell_index(f.pos2);
    let b1 = cell_index(g.pos1);
    let b2 = cell_index(g.pos2);
    lemma_rank_injective(a1 * 25 + a2, b1 * 25 + b2);
    assert((a1 * 25 + a2) / 25 == a1 && (a1 * 25 + a2) % 25 == a2);
    assert((b1 * 25 + b2) / 25 == b1 && (b1 * 25 + b2) % 25 == b2);
    lemma_index_injective(f.pos1, g.pos1);
    lemma_index_injective(f.pos2, g.pos2);
}

/// The cells of each kind of piece of a position, and that they lie on the board.
proof fn lemma_kind_cells(m: BoardModel)
    requires
        m.valid(),
    ensures
        all_on_board(bunny_cells(m.bunnies)),
        all_on_board(mushroom_cells(m.mushrooms)),
        bunny_cells(m.bunnies).no_duplicates(),
        mushroom_cells(m.mushrooms).no_duplicates(),
        m.bunnies.no_duplicates(),
        m.mushrooms.no_duplicates(),
        m.foxes.no_duplicates(),
        forall|j: int|
            0 <= j < m.foxes.len() ==> on_board((#[trigger] m.foxes[j]).pos1) && on_board(
                m.foxes[j].pos2,
            ) && lane_fox(m.foxes[j]),
{
    lemma_cells_index(m);
    let nb = m.bunnies.len() as int;
    let nf = m.foxes.len() as int;
    let bc = bunny_cells(m.bunnies);
    let uc = mushroom_cells(m.mushrooms);
    let c = m.cells();
    assert forall|j: int| 0 <= j < bc.len() implies on_board(#[trigger] bc[j]) by {
        assert(on_board(c[j]));
    }
    assert forall|j: int| 0 <= j < uc.len() implies on_board(#[trigger] uc[j]) by {
        assert(on_board(c[nb + 2 * nf + j]));
    }
    assert forall|i: int, j: int| 0 <= i < bc.len() && 0 <= j < bc.len() && i != j implies bc[i]
        != bc[j] by {
        assert(c[i] != c[j]);
    }
    assert forall|i: int, j: int| 0 <= i < uc.len() && 0 <= j < uc.len() && i != j implies uc[i]
        != uc[j] by {
        assert(c[nb + 2 * nf + i] != c[nb + 2 * nf + j]);
    }
    assert forall|i: int, j: int|
        0 <= i < m.bunnies.len() && 0 <= j < m.bunnies.len() && i != j implies m.bunnies[i]
        != m.bunnies[j] by {
        assert(c[i] != c[j]);
    }
    assert forall|i: int, j: int|
        0 <= i < m.mushrooms.len() && 0 <= j < m.mushrooms.len() && i != j implies m.mushrooms[i]
        != m.mushrooms[j] by {
        assert(c[nb + 2 * nf + i] != c[nb + 2 * nf + j]);
    }
    assert forall|i: int, j: int|
        0 <= i < m.foxes.len() && 0 <= j < m.foxes.len() && i != j implies m.foxes[i]
        != m.foxes[j] by {
        assert(c[nb + 2 * i] != c[nb + 2 * j]);
    }
    assert forall|j: int| 0 <= j < m.foxes.len() implies on_board((#[trigger] m.foxes[j]).pos1)
        && on_board(m.foxes[j].pos2) && lane_fox(m.foxes[j]) by {
        assert(on_board(c[nb + 2 * j]));
        assert(on_board(c[nb + 2 * j + 1]));
    }
}

/// Two normal positions with the same key hold the same pieces.
pub proof fn lemma_same_state_same_pieces(a: BoardModel, b: BoardModel)
    requires
        a.valid(),
        a.normal(),
        b.valid(),
        b.normal(),
        a.state() == b.state(),
    ensures
        a.same_pieces(b),
{
    lemma_kind_cells(a);
    lemma_kind_cells(b);
    let ab = bunny_cells(a.bunnies);
    let bb = bunny_cells(b.bunnies);
    assert forall|x: Bunny| a.bunnies.contains(x) == b.bunnies.contains(x) by {
        if a.bunnies.contains(x) {
            let j = choose|j: int| 0 <= j < a.bunnies.len() && a.bunnies[j] == x;
            assert(ab[j] == x.pos);
            assert(on_board(ab[j]));
            lemma_same_bits_cells(ab, bb, x.pos);
            let k = choose|k: int| 0 <= k < bb.len() && bb[k] == x.pos;
            assert(b.bunnies[k] == x);
        }
        if b.bunnies.contains(x) {
            let j = choose|j: int| 0 <= j < b.bunnies.len() && b.bunnies[j] == x;
            assert(bb[j] == x.pos);
            assert(on_board(bb[j]));
            lemma_same_bits_cells(ab, bb, x.pos);
            let k = choose|k: int| 0 <= k < ab.len() && ab[k] == x.pos;
            assert(a.bunnies[k] == x);
        }
    }
    lemma_same_elements(a.bunnies, b.bunnies);
    let au = mushroom_cells(a.mushrooms);
    let bu = mushroom_cells(b.mushrooms);
    assert forall|x: Mushroom| a.mushrooms.contains(x) == b.mushrooms.contains(x) by {
        if a.mushrooms.contains(x) {
            let j = choose|j: int| 0 <= j < a.mushrooms.len() && a.mushrooms[j] == x;
            assert(au[j] == x.pos);
            assert(on_board(au[j]));
            lemma_same_bits_cells(au, bu, x.pos);
            let k = choose|k: int| 0 <= k < bu.len() && bu[k] == x.pos;
            assert(b.mushrooms[k] == x);
        }
        if b.mushrooms.contains(x) {
            let j = choose|j: int| 0 <= j < b.mushrooms.len() && b.mushrooms[j] == x;
            assert(bu[j] == x.pos);
            assert(on_board(bu[j]));
            lemma_same_bits_cells(au, bu, x.pos);
            let k = choose|k: int| 0 <= k < au.len() && au[k] == x.pos;
            assert(a.mushrooms[k] == x);
        }
    }
    lemma_same_elements(a.mushrooms, b.mushrooms);
    let ai = a.foxes.map_values(|f: Fox| fox_id(f));
    let bi = b.foxes.map_values(|f: Fox| fox_id(f));
    lemma_sort_same(ai, bi);
    assert forall|x: Fox| a.foxes.contains(x) == b.foxes.contains(x) by {
        if a.foxes.contains(x) {
            let j = choose|j: int| 0 <= j < a.foxes.len() && a.foxes[j] == x;
            assert(ai[j] == fox_id(x));
            vstd::seq_lib::to_multiset_contains(ai, fox_id(x));
            vstd::seq_lib::to_multiset_contains(bi, fox_id(x));
            let k = choose|k: int| 0 <= k < bi.len() && bi[k] == fox_id(x);
            assert(normalized(a.foxes[j]) == a.foxes[j]);
            assert(normalized(b.foxes[k]) == b.foxes[k]);
            lemma_fox_id_injective(x, b.foxes[k]);
        }
        if b.foxes.contains(x) {
            let j = choose|j: int| 0 <= j < b.foxes.len() && b.foxes[j] == x;
            assert(bi[j] == fox_id(x));
            vstd::seq_lib::to_multiset_contains(ai, fox_id(x));
            vstd::seq_lib::to_multiset_contains(bi, fox_id(x));
            let k = choose|k: int| 0 <= k < ai.len() && ai[k] == fox_id(x);
            assert(normalized(b.foxes[j]) == b.foxes[j]);
            assert(normalized(a.foxes[k]) == a.foxes[k]);
            lemma_fox_id_injective(x, a.foxes[k]);
        }
    }
    lemma_same_elements(a.foxes, b.foxes);
}

/// A position and a board with the same pieces: the board is a position, normal when the
/// position is, wins alike, and allows every move the position allows.
pub proof fn lemma_same_pieces_facts(a: BoardModel, b: BoardModel)
    requires
        a.valid(),
        a.same_pieces(b),
    ensures
        b.valid(),
        a.normal() ==> b.normal(),
        a.occupancy() == b.occupancy(),
        a.wins() == b.wins(),
        forall|mv: Move| #[trigger] a.all_moves().contains(mv) ==> b.all_moves().contains(mv),
{
    let pos = |x: Bunny| x.pos;
    let mpos = |x: Mushroom| x.pos;
    lemma_map_multiset(a.bunnies, b.bunnies, pos);
    lemma_map_multiset(a.mushrooms, b.mushrooms, mpos);
    lemma_fox_cells_multiset(a.foxes, b.foxes);
    let ab = bunny_cells(a.bunnies);
    let af = fox_cells(a.foxes);
    let au = mushroom_cells(a.mushrooms);
    let bb = bunny_cells(b.bunnies);
    let bf = fox_cells(b.foxes);
    let bu = mushroom_cells(b.mushrooms);
    vstd::seq_lib::lemma_multiset_commutative(ab, af);
    vstd::seq_lib::lemma_multiset_commutative(ab + af, au);
    vstd::seq_lib::lemma_multiset_commutative(bb, bf);
    vstd::seq_lib::lemma_multiset_commutative(bb + bf, bu);
    assert(a.cells().to_multiset() =~= b.cells().to_multiset());
    lemma_same_cells(a.cells(), b.cells());
    assert forall|x: Fox| a.foxes.contains(x) == b.foxes.contains(x) by {
        vstd::seq_lib::to_multiset_contains(a.foxes, x);
        vstd::seq_lib::to_multiset_contains(b.foxes, x);
    }
    assert forall|x: Bunny| a.bunnies.contains(x) == b.bunnies.contains(x) by {
        vstd::seq_lib::to_multiset_contains(a.bunnies, x);
        vstd::seq_lib::to_multiset_contains(b.bunnies, x);
    }
    assert forall|j: int| 0 <= j < b.foxes.len() implies lane_fox(#[trigger] b.foxes[j]) && (
    a.normal() ==> normalized(b.foxes[j]) == b.foxes[j]) by {
        assert(b.foxes.contains(b.foxes[j]));
        let k = choose|k: int| 0 <= k < a.foxes.len() && a.foxes[k] == b.foxes[j];
    }
    lemma_occupancy_cells(a);
    lemma_occupancy_cells(b);
    assert(all_indexable(a.cells())) by {
        assert forall|j: int| 0 <= j < a.cells().len() implies indexable(#[trigger] a.cells()[j]) by {
            assert(on_board(a.cells()[j]));
        }
    }
    lemma_bits_same(a.cells(), b.cells());
    vstd::seq_lib::to_multiset_len(a.bunnies);
    vstd::seq_lib::to_multiset_len(b.bunnies);
    assert(a.wins() == b.wins()) by {
        if a.wins() {
            assert forall|j: int| 0 <= j < b.bunnies.len() implies is_hole(#[trigger] b.bunnies[j].pos) by {
                assert(b.bunnies.contains(b.bunnies[j]));
                let k = choose|k: int| 0 <= k < a.bunnies.len() && a.bunnies[k] == b.bunnies[j];
            }
        }
        if b.wins() {
            assert forall|j: int| 0 <= j < a.bunnies.len() implies is_hole(#[trigger] a.bunnies[j].pos) by {
                assert(a.bunnies.contains(a.bunnies[j]));
                let k = choose|k: int| 0 <= k < b.bunnies.len() && b.bunnies[k] == a.bunnies[j];
            }
        }
    }
    assert forall|mv: Move| #[trigger] a.all_moves().contains(mv) implies b.all_moves().contains(mv) by {
        let i = choose|i: int| 0 <= i < a.all_moves().len() && a.all_moves()[i] == mv;
        crate::rules::lemma_move_member(a, i);
        lemma_all_moves_has(b, mv);
    }
}

/// Foxes counted alike cover cells counted alike.
proof fn lemma_fox_cells_multiset(a: Seq<Fox>, b: Seq<Fox>)
    requires
        a.to_multiset() == b.to_multiset(),
    ensures
        fox_cells(a).to_multiset() == fox_cells(b).to_multiset(),
    decreases a.len(),
{
    broadcast use vstd::multiset::group_multiset_axioms;

    vstd::seq_lib::to_multiset_len(a);
    vstd::seq_lib::to_multiset_len(b);
    if a.len() == 0 {
        assert(fox_cells(a) =~= fox_cells(b));
    } else {
        let x = a.last();
        let rest = a.drop_last();
        assert(a =~= rest.push(x));
        vstd::seq_lib::to_multiset_build(rest, x);
        vstd::seq_lib::to_multiset_contains(b, x);
        let i = choose|i: int| 0 <= i < b.len() && b[i] == x;
        let others = b.remove(i);
        vstd::seq_lib::to_multiset_remove(b, i);
        assert(others.to_multiset() =~= rest.to_multiset());
        lemma_fox_cells_multiset(rest, others);
        let pre = b.subrange(0, i);
        let post = b.subrange(i + 1, b.len() as int);
        assert(b =~= pre + seq![x] + post);
        assert(others =~= pre + post);
        crate::seqs::lemma_fox_cells_concat(pre + seq![x], post);
        crate::seqs::lemma_fox_cells_concat(pre, seq![x]);
        crate::seqs::lemma_fox_cells_concat(pre, post);
        crate::seqs::lemma_fox_cells_single(x);
        let fp = fox_cells(pre);
        let fq = fox_cells(post);
        let fx = seq![x.pos1, x.pos2];
        vstd::seq_lib::lemma_multiset_commutative(fp + fx, fq);
        vstd::seq_lib::lemma_multiset_commutative(fp, fx);
        vstd::seq_lib::lemma_multiset_commutative(fp, fq);
        assert(fox_cells(a) == fox_cells(rest).push(x.pos1).push(x.pos2));
        vstd::seq_lib::to_multiset_build(fox_cells(rest), x.pos1);
        vstd::seq_lib::to_multiset_build(fox_cells(rest).push(x.pos1), x.pos2);
        vstd::seq_lib::to_multiset_build(Seq::<(usize, usize)>::empty().push(x.pos1), x.pos2);
        assert(fx =~= Seq::<(usize, usize)>::empty().push(x.pos1).push(x.pos2));
        vstd::seq_lib::to_multiset_build(Seq::<(usize, usize)>::empty(), x.pos1);
        assert(fox_cells(a).to_multiset() =~= fox_cells(b).to_multiset());
    }
}

/// A symmetry keeps the cells of the holes among the cells of the holes.
proof fn lemma_hole_image(p: (usize, usize), s: int)
    requires
        on_board(p),
    ensures
        is_hole(cell_image(p, s)) == is_hole(p),
{
}

/// A turned position wins exactly when the position wins; its foxes are normalized.
pub proof fn lemma_image_wins(m: BoardModel, s: int)
    requires
        m.valid(),
    ensures
        m.image(s).wins() == m.wins(),
        m.image(s).normal(),
{
    lemma_kind_cells(m);
    let t = m.image(s);
    let bc = bunny_cells(m.bunnies);
    assert forall|j: int| 0 <= j < m.bunnies.len() implies is_hole(#[trigger] t.bunnies[j].pos)
        == is_hole(m.bunnies[j].pos) by {
        assert(bc[j] == m.bunnies[j].pos);
        lemma_hole_image(m.bunnies[j].pos, s);
    }
    if m.wins() {
        assert forall|j: int| 0 <= j < t.bunnies.len() implies is_hole(#[trigger] t.bunnies[j].pos) by {
            assert(is_hole(m.bunnies[j].pos));
        }
    }
    if t.wins() {
        assert forall|j: int| 0 <= j < m.bunnies.len() implies is_hole(#[trigger] m.bunnies[j].pos) by {
            assert(is_hole(t.bunnies[j].pos));
        }
    }
}

/// Moving a bit from cell `p` to cell `q` and then permuting is permuting and then
/// moving the bit from the image of `p` to the image of `q`.
proof fn lemma_permute_move_bits(bm: u32, p: int, q: int, s: int)
    requires
        0 <= p < 25,
        0 <= q < 25,
        0 <= s < 8,
    ensures
        permute_bits((bm & !(1u32 << (p as u32))) | (1u32 << (q as u32)), s, 25) == (permute_bits(
            bm,
            s,
            25,
        ) & !(1u32 << (transform_cell(p, s) as u32))) | (1u32 << (transform_cell(q, s) as u32)),
{
    let moved = (bm & !(1u32 << (p as u32))) | (1u32 << (q as u32));
    let tp = transform_cell(p, s);
    let tq = transform_cell(q, s);
    lemma_transform_cell(p, s);
    lemma_transform_cell(q, s);
    let pb = permute_bits(bm, s, 25);
    assert forall|i: u32| i < 32 implies has_bit(permute_bits(moved, s, 25), i) == has_bit(
        (pb & !(1u32 << (tp as u32))) | (1u32 << (tq as u32)),
        i,
    ) by {
        lemma_permute_bit(moved, s, 25, i);
        lemma_permute_bit(bm, s, 25, i);
        lemma_or_single(pb & !(1u32 << (tp as u32)), tq as u32, i);
        lemma_and_not_single(pb, tp as u32, i);
        if sends(moved, s, 25, i as int) {
            let r = choose|r: int| 0 <= r < 25 && has_bit(moved, r as u32) && #[trigger] transform_cell(r, s) == i;
            lemma_or_single(bm & !(1u32 << (p as u32)), q as u32, r as u32);
            lemma_and_not_single(bm, p as u32, r as u32);
            if r != q {
                assert(sends(bm, s, 25, i as int));
                if i as int == tp {
                    lemma_transform_injective(r, p, s);
                }
            }
        }
        if has_bit((pb & !(1u32 << (tp as u32))) | (1u32 << (tq as u32)), i) {
            lemma_or_single(bm & !(1u32 << (p as u32)), q as u32, q as u32);
            if i as int == tq {
                assert(sends(moved, s, 25, i as int));
            } else {
                let r = choose|r: int| 0 <= r < 25 && has_bit(bm, r as u32) && #[trigger] transform_cell(r, s) == i;
                lemma_or_single(bm & !(1u32 << (p as u32)), q as u32, r as u32);
                lemma_and_not_single(bm, p as u32, r as u32);
                assert(r != p);
                assert(sends(moved, s, 25, i as int));
            }
        }
    }
    lemma_ext(permute_bits(moved, s, 25), (pb & !(1u32 << (tp as u32))) | (1u32 << (tq as u32)));
}

/// A move on a position keeps its foxes normalized.
pub proof fn lemma_move_normal(m: BoardModel, i: int)
    requires
        m.valid(),
        m.normal(),
        0 <= i < m.all_moves().len(),
    ensures
        m.apply(m.all_moves()[i]) matches Ok(m2) && m2.normal(),
{
    lemma_move_member(m, i);
    match m.all_moves()[i] {
        Move::Bunny { from, to } => {
            lemma_bunny_move(m, from, to);
        },
        Move::Fox { from, to } => {
            lemma_fox_move(m, from, to);
            lemma_fox_dest(m.occupancy(), from, to);
            crate::board::lemma_without(m.foxes, from);
            let rest = without(m.foxes, from);
            let fs = rest.push(to);
            assert forall|j: int| 0 <= j < fs.len() implies normalized(#[trigger] fs[j]) == fs[j] by {
                if j < rest.len() {
                    assert(m.foxes.contains(rest[j]));
                    let k = choose|k: int| 0 <= k < m.foxes.len() && m.foxes[k] == rest[j];
                    assert(normalized(m.foxes[k]) == m.foxes[k]);
                }
            }
        },
    }
}

/// Turning a key and then making the turned move gives the turned key after the move.
pub proof fn lemma_key_apply_image(m: BoardModel, s: int, i: int)
    requires
        m.valid(),
        m.normal(),
        0 <= s < 8,
        0 <= i < m.all_moves().len(),
    ensures
        m.state().transformed(s).apply(move_image(m.all_moves()[i], s)) == m.state().apply(
            m.all_moves()[i],
        ).transformed(s),
{
    let k = m.state();
    let mv = m.all_moves()[i];
    lemma_move_member(m, i);
    lemma_kind_cells(m);
    lemma_valid_keyable(m);
    match mv {
        Move::Bunny { from, to } => {
            lemma_bunny_move(m, from, to);
            lemma_bunny_dest(m.occupancy(), from, to);
            let j = choose|j: int| 0 <= j < m.bunnies.len() && m.bunnies[j] == from;
            assert(bunny_cells(m.bunnies)[j] == from.pos);
            assert(on_board(from.pos));
            assert(on_board(to.pos));
            lemma_cell_index_image(from.pos, s);
            lemma_cell_index_image(to.pos, s);
            lemma_permute_move_bits(k.bunnies, cell_index(from.pos), cell_index(to.pos), s);
            assert(k.transformed(s).apply(move_image(mv, s)) =~= k.apply(mv).transformed(s));
        },
        Move::Fox { from, to } => {
            lemma_fox_move(m, from, to);
            let m2 = m.with_foxes(without(m.foxes, from).push(to));
            lemma_kind_cells(m2);
            assert(m2.foxes[m2.foxes.len() - 1] == to);
            let jf = choose|j: int| 0 <= j < m.foxes.len() && m.foxes[j] == from;
            lemma_fox_id_image(from, s);
            lemma_fox_id_image(to, s);
            let img = |f: u8| placement_image(f, s);
            let f_ids = k.foxes;
            let w = fox_id(from);
            let v = fox_id(to);
            let fk = f_ids.map_values(img);
            u8::lemma_total_order();
            fk.lemma_sort_by_ensures(leq::<u8>());
            let big_k = sort_ids(fk);
            assert(k.can_apply(mv));
            let i0 = f_ids.index_of(w);
            assert(f_ids[i0] == w);
            assert(fk[i0] == img(w));
            assert(fk.contains(img(w)));
            vstd::seq_lib::to_multiset_contains(fk, img(w));
            vstd::seq_lib::to_multiset_contains(big_k, img(w));
            let j0 = big_k.index_of(img(w));
            assert(big_k[j0] == img(w));
            let left = big_k.update(j0, img(v));
            vstd::seq_lib::to_multiset_update(big_k, j0, img(v));
            let x = f_ids.update(i0, v);
            x.lemma_sort_by_ensures(leq::<u8>());
            lemma_map_multiset(sort_ids(x), x, img);
            assert(x.map_values(img) =~= fk.update(i0, img(v)));
            vstd::seq_lib::to_multiset_update(fk, i0, img(v));
            assert(left.to_multiset() =~= sort_ids(x).map_values(img).to_multiset());
            lemma_sort_same(left, sort_ids(x).map_values(img));
            assert(k.transformed(s).apply(move_image(mv, s)) =~= k.apply(mv).transformed(s));
        },
    }
}

/// Two normal positions with the same canonical key: the key of the first is the key
/// of a turned copy of the second, and the two hold the same pieces.
proof fn lemma_turned_copy(big: BoardModel, b: BoardModel) -> (c: int)
    requires
        big.valid(),
        big.normal(),
        b.valid(),
        b.normal(),
        big.state().canonical() == b.state().canonical(),
    ensures
        0 <= c < 8,
        big.state() == b.state().transformed(c),
        b.image(c).valid(),
        b.image(c).normal(),
        b.image(c).same_pieces(big),
        b.image(c).wins() == b.wins(),
{
    lemma_same_canonical(big, b);
    let c = choose|c: int| 0 <= c < 8 && big.state() == #[trigger] b.state().transformed(c);
    let bc = b.image(c);
    lemma_image_valid(b, c);
    lemma_image_wins(b, c);
    lemma_image_state(b, c);
    lemma_same_state_same_pieces(bc, big);
    c
}

/// Positions with the same canonical key win alike.
pub proof fn lemma_same_canonical_wins(a: BoardModel, b: BoardModel)
    requires
        a.valid(),
        a.normal(),
        b.valid(),
        b.normal(),
        a.state().canonical() == b.state().canonical(),
    ensures
        a.wins() == b.wins(),
{
    let c = lemma_turned_copy(a, b);
    lemma_same_pieces_facts(b.image(c), a);
}

/// Positions with the same canonical key allow the same moves up to symmetry: for each
/// move of the one some move of the other leads to the same canonical key.
pub proof fn lemma_symmetric_step(big: BoardModel, b: BoardModel, i: int)
    requires
        big.valid(),
        big.normal(),
        b.valid(),
        b.normal(),
        big.state().canonical() == b.state().canonical(),
        0 <= i < b.all_moves().len(),
    ensures
        exists|t: int|
            0 <= t < big.all_moves().len() && successor_key(big, #[trigger] big.all_moves()[t])
                == successor_key(b, b.all_moves()[i]),
{
    let c = lemma_turned_copy(big, b);
    let bc = b.image(c);
    let mv = b.all_moves()[i];
    let mi = move_image(mv, c);
    lemma_move_image(b, c, i);
    lemma_same_pieces_facts(bc, big);
    assert(big.all_moves().contains(mi));
    let t = choose|t: int| 0 <= t < big.all_moves().len() && big.all_moves()[t] == mi;
    lemma_move_keeps_position(big, t);
    lemma_move_keeps_position(b, i);
    lemma_key_apply_image(b, c, i);
    let b2 = after(b, mv);
    lemma_valid_keyable(b2);
    lemma_canonical_symmetric(b2.state(), c);
    assert(successor_key(big, big.all_moves()[t]) == successor_key(b, mv));
}

} // verus!
