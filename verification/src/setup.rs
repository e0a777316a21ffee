//! Positions built piece by piece: the empty board is a position, and a placement
//! that the placement rules accept keeps it one.
use vstd::prelude::*;
use crate::board::{BoardModel, bunny_cells, fox_cells, mushroom_cells};
use crate::geometry::{abs, cell_index, row, legal_edge, on_board, lemma_index_coords};
use crate::pieces::{Bunny, Fox, Mushroom};
use crate::rules::{all_on_board, lane_fox, lemma_filled_iff};
use crate::seqs::lemma_no_dup_counts;

verus! {

broadcast use vstd::seq_lib::group_to_multiset_ensures;

/// Two lists of the same cells: one without repeats, all on the board, makes the other so.
pub proof fn lemma_same_cells(s: Seq<(usize, usize)>, t: Seq<(usize, usize)>)
    requires
        s.to_multiset() == t.to_multiset(),
        s.no_duplicates(),
        all_on_board(s),
    ensures
        t.no_duplicates(),
        all_on_board(t),
{
    lemma_no_dup_counts(s);
    lemma_no_dup_counts(t);
    assert forall|j: int| 0 <= j < t.len() implies on_board(#[trigger] t[j]) by {
        vstd::seq_lib::to_multiset_contains(t, t[j]);
        vstd::seq_lib::to_multiset_contains(s, t[j]);
        assert(t.contains(t[j]));
        let k = choose|k: int| 0 <= k < s.len() && s[k] == t[j];
    }
}

/// Appending a cell of the board that is not yet listed keeps the list without repeats.
proof fn lemma_push_fresh(s: Seq<(usize, usize)>, x: (usize, usize))
    requires
        s.no_duplicates(),
        all_on_board(s),
        !s.contains(x),
        on_board(x),
    ensures
        s.push(x).no_duplicates(),
        all_on_board(s.push(x)),
{
    let t = s.push(x);
    assert forall|i: int, j: int| 0 <= i < t.len() && 0 <= j < t.len() && i != j implies t[i]
        != t[j] by {
        if i < s.len() && j < s.len() {
            assert(t[i] == s[i] && t[j] == s[j]);
        } else if i < s.len() {
            assert(t[i] == s[i]);
        } else if j < s.len() {
            assert(t[j] == s[j]);
        }
    }
    assert forall|j: int| 0 <= j < t.len() implies on_board(#[trigger] t[j]) by {
        if j < s.len() {
            assert(t[j] == s[j]);
        }
    }
}

/// The empty board is a position.
pub proof fn lemma_empty_valid(m: BoardModel)
    requires
        m.is_empty(),
    ensures
        m.valid(),
        m.normal(),
{
    assert(m.cells() =~= Seq::<(usize, usize)>::empty()) by {
        assert(fox_cells(m.foxes) =~= Seq::<(usize, usize)>::empty());
    }
}

/// Placing a bunny that the placement rules accept keeps a position a position, and keeps
/// its foxes normalized.
pub proof fn lemma_add_bunny_valid(m: BoardModel, b: Bunny)
    requires
        m.valid(),
    ensures
        m.add_bunny(b) matches Ok(n) ==> n.valid() && (m.normal() ==> n.normal()),
{
    if m.add_bunny(b) is Ok {
        let n = m.with_bunny(b);
        lemma_filled_iff(m, b.pos);
        let bc = bunny_cells(m.bunnies);
        let fc = fox_cells(m.foxes);
        let uc = mushroom_cells(m.mushrooms);
        assert(bunny_cells(n.bunnies) =~= bc.push(b.pos));
        assert(n.cells() == bc.push(b.pos) + fc + uc);
        lemma_push_fresh(m.cells(), b.pos);
        vstd::seq_lib::lemma_multiset_commutative(bc.push(b.pos), fc);
        vstd::seq_lib::lemma_multiset_commutative(bc.push(b.pos) + fc, uc);
        vstd::seq_lib::lemma_multiset_commutative(bc, fc);
        vstd::seq_lib::lemma_multiset_commutative(bc + fc, uc);
        assert(m.cells() == bc + fc + uc);
        assert(n.cells().to_multiset() =~= m.cells().push(b.pos).to_multiset());
        lemma_same_cells(m.cells().push(b.pos), n.cells());
        assert forall|j: int| 0 <= j < n.foxes.len() implies lane_fox(#[trigger] n.foxes[j]) by {
            assert(n.foxes[j] == m.foxes[j]);
        }
    }
}

/// Placing a mushroom that the placement rules accept keeps a position a position, and
/// keeps its foxes normalized.
pub proof fn lemma_add_mushroom_valid(m: BoardModel, u: Mushroom)
    requires
        m.valid(),
    ensures
        m.add_mushroom(u) matches Ok(n) ==> n.valid() && (m.normal() ==> n.normal()),
{
    if m.add_mushroom(u) is Ok {
        let n = m.with_mushroom(u);
        lemma_filled_iff(m, u.pos);
        let bc = bunny_cells(m.bunnies);
        let fc = fox_cells(m.foxes);
        let uc = mushroom_cells(m.mushrooms);
        assert(mushroom_cells(n.mushrooms) =~= uc.push(u.pos));
        assert(m.cells() == bc + fc + uc);
        assert(n.cells() =~= m.cells().push(u.pos));
        lemma_push_fresh(m.cells(), u.pos);
        assert forall|j: int| 0 <= j < n.foxes.len() implies lane_fox(#[trigger] n.foxes[j]) by {
            assert(n.foxes[j] == m.foxes[j]);
        }
    }
}

/// Placing a fox on two orthogonally neighbouring cells that the placement rules accept
/// keeps a position a position, and keeps its foxes normalized. (The placement rules also
/// accept two cells that are neither in one row nor in one column; such a fox covers no
/// lane and the board is no position.)
pub proof fn lemma_add_fox_valid(m: BoardModel, f: Fox)
    requires
        m.valid(),
        abs(f.pos1.0 - f.pos2.0) + abs(f.pos1.1 - f.pos2.1) == 1,
    ensures
        m.add_fox(f) matches Ok(n) ==> n.valid() && (m.normal() ==> n.normal()),
{
    if m.add_fox(f) is Ok {
        let n = m.with_fox(f);
        lemma_filled_iff(m, f.pos1);
        lemma_filled_iff(m, f.pos2);
        let bc = bunny_cells(m.bunnies);
        let fc = fox_cells(m.foxes);
        let uc = mushroom_cells(m.mushrooms);
        assert(fox_cells(n.foxes) == fc.push(f.pos1).push(f.pos2)) by {
            assert(n.foxes.drop_last() =~= m.foxes);
        }
        assert(m.cells() == bc + fc + uc);
        assert(n.cells() == bc + fc.push(f.pos1).push(f.pos2) + uc);
        lemma_push_fresh(m.cells(), f.pos1);
        assert(!m.cells().push(f.pos1).contains(f.pos2)) by {
            if m.cells().push(f.pos1).contains(f.pos2) {
                let k = choose|k: int| 0 <= k < m.cells().len() + 1 && m.cells().push(f.pos1)[k]
                    == f.pos2;
                if k < m.cells().len() {
                    assert(m.cells()[k] == f.pos2);
                }
            }
        }
        lemma_push_fresh(m.cells().push(f.pos1), f.pos2);
        vstd::seq_lib::lemma_multiset_commutative(bc, fc.push(f.pos1).push(f.pos2));
        vstd::seq_lib::lemma_multiset_commutative(bc + fc.push(f.pos1).push(f.pos2), uc);
        vstd::seq_lib::lemma_multiset_commutative(bc, fc);
        vstd::seq_lib::lemma_multiset_commutative(bc + fc, uc);
        assert(n.cells().to_multiset() =~= m.cells().push(f.pos1).push(f.pos2).to_multiset());
        lemma_same_cells(m.cells().push(f.pos1).push(f.pos2), n.cells());
        lemma_index_coords(f.pos1.0 as int, f.pos1.1 as int);
        lemma_index_coords(f.pos2.0 as int, f.pos2.1 as int);
        assert(legal_edge(cell_index(f.pos1), cell_index(f.pos2)));
        assert forall|j: int| 0 <= j < n.foxes.len() implies lane_fox(#[trigger] n.foxes[j]) by {
            if j < m.foxes.len() {
                assert(n.foxes[j] == m.foxes[j]);
            }
        }
    }
}

} // verus!
