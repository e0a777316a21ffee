//! Boards are equal when they hold the same pieces, in whatever order they list them.
use vstd::prelude::*;
use crate::bits::{has_bit, lemma_ext, lemma_zero};
use crate::board::{
    Board, BoardModel, all_indexable, bits_of, bunny_cells, covers, lemma_bits_of, mushroom_cells,
};
use crate::geometry::cell_index;
use crate::order::{Ordered, leq, sorted_copy};
use crate::pieces::{Bunny, Fox, Mushroom};
use crate::seqs::lemma_map_multiset;
use crate::state::fox_id;
use vstd::std_specs::cmp::PartialEqSpec;

verus! {

broadcast use vstd::seq_lib::group_to_multiset_ensures;

impl BoardModel {
    /// The same bunnies, foxes and mushrooms, each counted with multiplicity.
    pub open spec fn same_pieces(self, other: BoardModel) -> bool {
        &&& self.bunnies.to_multiset() == other.bunnies.to_multiset()
        &&& self.foxes.to_multiset() == other.foxes.to_multiset()
        &&& self.mushrooms.to_multiset() == other.mushrooms.to_multiset()
    }

    /// Each kind of piece listed in increasing order.
    pub open spec fn sorted(self) -> BoardModel {
        BoardModel {
            bunnies: self.bunnies.sort_by(leq::<Bunny>()),
            foxes: self.foxes.sort_by(leq::<Fox>()),
            mushrooms: self.mushrooms.sort_by(leq::<Mushroom>()),
        }
    }
}

fn vec_equal<T: Ordered>(a: &Vec<T>, b: &Vec<T>) -> (r: bool)
    ensures
        r == (a@ == b@),
{
    if a.len() != b.len() {
        return false;
    }
    let mut i: usize = 0;
    while i < a.len()
        invariant
            a.len() == b.len(),
            i <= a.len(),
            forall|k: int| 0 <= k < i ==> a@[k] == b@[k],
        decreases a.len() - i,
    {
        if !a[i].same(&b[i]) {
            return false;
        }
        i = i + 1;
    }
    assert(a@ =~= b@);
    true
}

/// Sorting two sequences gives the same result exactly when they hold the same elements.
pub proof fn lemma_sort_same<T: Ordered>(a: Seq<T>, b: Seq<T>)
    ensures
        (a.sort_by(leq::<T>()) == b.sort_by(leq::<T>())) == (a.to_multiset() == b.to_multiset()),
{
    T::lemma_total_order();
    a.lemma_sort_by_ensures(leq::<T>());
    b.lemma_sort_by_ensures(leq::<T>());
    if a.to_multiset() == b.to_multiset() {
        vstd::seq_lib::lemma_sorted_unique(a.sort_by(leq::<T>()), b.sort_by(leq::<T>()), leq::<T>());
    }
}

/// Boards hold the same pieces exactly when their sorted lists of pieces agree: `==`
/// compares boards this way, and the hash is computed from the sorted lists.
pub proof fn lemma_same_pieces_sorted(a: BoardModel, b: BoardModel)
    ensures
        a.same_pieces(b) == (a.sorted() == b.sorted()),
{
    lemma_sort_same(a.bunnies, b.bunnies);
    lemma_sort_same(a.foxes, b.foxes);
    lemma_sort_same(a.mushrooms, b.mushrooms);
}

/// Setting the bits of the same cells in another order gives the same mask.
pub proof fn lemma_bits_same(ps: Seq<(usize, usize)>, qs: Seq<(usize, usize)>)
    requires
        ps.to_multiset() == qs.to_multiset(),
        all_indexable(ps),
    ensures
        all_indexable(qs),
        bits_of(0, ps) == bits_of(0, qs),
{
    assert forall|x: (usize, usize)| ps.contains(x) == qs.contains(x) by {
        vstd::seq_lib::to_multiset_contains(ps, x);
        vstd::seq_lib::to_multiset_contains(qs, x);
    }
    assert forall|j: int| 0 <= j < qs.len() implies crate::geometry::indexable(#[trigger] qs[j]) by {
        assert(qs.contains(qs[j]));
        let k = choose|k: int| 0 <= k < ps.len() && ps[k] == qs[j];
    }
    assert forall|i: u32| i < 32 implies has_bit(bits_of(0, ps), i) == has_bit(bits_of(0, qs), i) by {
        lemma_zero(i);
        lemma_bits_of(0, ps, i);
        lemma_bits_of(0, qs, i);
        if covers(ps, i as int) {
            let j = choose|j: int| 0 <= j < ps.len() && cell_index(#[trigger] ps[j]) == i;
            assert(ps.contains(ps[j]));
            let k = choose|k: int| 0 <= k < qs.len() && qs[k] == ps[j];
            assert(covers(qs, i as int));
        }
        if covers(qs, i as int) {
            let j = choose|j: int| 0 <= j < qs.len() && cell_index(#[trigger] qs[j]) == i;
            assert(qs.contains(qs[j]));
            let k = choose|k: int| 0 <= k < ps.len() && ps[k] == qs[j];
            assert(covers(ps, i as int));
        }
    }
    lemma_ext(bits_of(0, ps), bits_of(0, qs));
}

/// Boards with the same pieces, in whatever order they list them, have the same key.
pub proof fn lemma_same_pieces_same_state(a: BoardModel, b: BoardModel)
    requires
        a.same_pieces(b),
        a.indexable(),
    ensures
        b.indexable(),
        a.state() == b.state(),
{
    lemma_map_multiset(a.bunnies, b.bunnies, |x: Bunny| x.pos);
    lemma_map_multiset(a.mushrooms, b.mushrooms, |x: Mushroom| x.pos);
    lemma_map_multiset(a.foxes, b.foxes, |f: Fox| fox_id(f));
    let ab = bunny_cells(a.bunnies);
    let am = mushroom_cells(a.mushrooms);
    assert(all_indexable(ab)) by {
        assert forall|j: int| 0 <= j < ab.len() implies crate::geometry::indexable(#[trigger] ab[j]) by {
            assert(crate::geometry::indexable(a.bunnies[j].pos));
        }
    }
    assert(all_indexable(am)) by {
        assert forall|j: int| 0 <= j < am.len() implies crate::geometry::indexable(#[trigger] am[j]) by {
            assert(crate::geometry::indexable(a.mushrooms[j].pos));
        }
    }
    lemma_bits_same(ab, bunny_cells(b.bunnies));
    lemma_bits_same(am, mushroom_cells(b.mushrooms));
    lemma_sort_same(a.foxes.map_values(|f: Fox| fox_id(f)), b.foxes.map_values(|f: Fox| fox_id(f)));
    assert forall|x: Fox| a.foxes.contains(x) == b.foxes.contains(x) by {
        vstd::seq_lib::to_multiset_contains(a.foxes, x);
        vstd::seq_lib::to_multiset_contains(b.foxes, x);
    }
    assert forall|j: int| 0 <= j < b.foxes.len() implies crate::geometry::indexable(
        #[trigger] b.foxes[j].pos1,
    ) && crate::geometry::indexable(b.foxes[j].pos2) by {
        assert(b.foxes.contains(b.foxes[j]));
        let k = choose|k: int| 0 <= k < a.foxes.len() && a.foxes[k] == b.foxes[j];
    }
    let bb = bunny_cells(b.bunnies);
    let bm = mushroom_cells(b.mushrooms);
    assert forall|j: int| 0 <= j < b.bunnies.len() implies crate::geometry::indexable(
        #[trigger] b.bunnies[j].pos,
    ) by {
        assert(bb[j] == b.bunnies[j].pos);
    }
    assert forall|j: int| 0 <= j < b.mushrooms.len() implies crate::geometry::indexable(
        #[trigger] b.mushrooms[j].pos,
    ) by {
        assert(bm[j] == b.mushrooms[j].pos);
    }
}

impl Board {
    /// A copy with each kind of piece sorted.
    pub fn sorted_pieces(&self) -> (r: Board)
        ensures
            r@ == self@.sorted(),
    {
        Board {
            bunnies: sorted_copy(&self.bunnies),
            foxes: sorted_copy(&self.foxes),
            mushrooms: sorted_copy(&self.mushrooms),
        }
    }
}

impl PartialEq for Board {
    fn eq(&self, other: &Self) -> (r: bool) {
        let a = self.sorted_pieces();
        let b = other.sorted_pieces();
        proof {
            lemma_sort_same(self.bunnies@, other.bunnies@);
            lemma_sort_same(self.foxes@, other.foxes@);
            lemma_sort_same(self.mushrooms@, other.mushrooms@);
        }
        vec_equal(&a.bunnies, &b.bunnies) && vec_equal(&a.foxes, &b.foxes) && vec_equal(
            &a.mushrooms,
            &b.mushrooms,
        )
    }
}

impl vstd::std_specs::cmp::PartialEqSpecImpl for Board {
    open spec fn obeys_eq_spec() -> bool {
        true
    }

    open spec fn eq_spec(&self, other: &Self) -> bool {
        self@.same_pieces(other@)
    }
}

impl Eq for Board {

}

/// `Hash::hash` of `Vec`, called on `sorted`: feeds that list to the hasher. What the
/// hasher makes of it is not claimed. The caller must hand over the sorted form of
/// `pieces`, so that the hasher sees a list fixed by which items `pieces` holds, not by
/// their order.
#[verifier::external_body]
fn hash_list<T: std::hash::Hash + Ordered, H: std::hash::Hasher>(
    pieces: &Vec<T>,
    sorted: &Vec<T>,
    state: &mut H,
)
    requires
        sorted@ == pieces@.sort_by(leq::<T>()),
{
    std::hash::Hash::hash(sorted, state);
}

impl std::hash::Hash for Board {
    /// Hashes the sorted pieces, so that boards with the same pieces hash alike.
    fn hash<H: std::hash::Hasher>(&self, state: &mut H) {
        let sorted = self.sorted_pieces();
        hash_list(&self.bunnies, &sorted.bunnies, state);
        hash_list(&self.foxes, &sorted.foxes, state);
        hash_list(&self.mushrooms, &sorted.mushrooms, state);
    }
}

/// `==` on boards compares the pieces each kind holds, counted with multiplicity, and not
/// the order the boards list them in.
pub proof fn lemma_eq_counts_pieces(a: &Board, b: &Board)
    ensures
        a.eq_spec(b) == (a@.bunnies.to_multiset() =~= b@.bunnies.to_multiset() && a@.foxes.to_multiset()
            =~= b@.foxes.to_multiset() && a@.mushrooms.to_multiset() =~= b@.mushrooms.to_multiset()),
{
}

/// `==` on boards is an equivalence: reflexive, symmetric and transitive.
pub proof fn lemma_eq_equivalence(a: &Board, b: &Board, c: &Board)
    ensures
        a.eq_spec(a),
        a.eq_spec(b) == b.eq_spec(a),
        a.eq_spec(b) && b.eq_spec(c) ==> a.eq_spec(c),
{
}

/// A board listing its pieces in another order is equal to it: when one board lists
/// each kind of piece as `x + y` and the other as `y + x`, the boards are `==`.
pub proof fn lemma_eq_reordered(
    a: &Board,
    b: &Board,
    bx: Seq<Bunny>,
    by: Seq<Bunny>,
    fx: Seq<Fox>,
    fy: Seq<Fox>,
    mx: Seq<Mushroom>,
    my: Seq<Mushroom>,
)
    requires
        a@.bunnies == bx + by,
        b@.bunnies == by + bx,
        a@.foxes == fx + fy,
        b@.foxes == fy + fx,
        a@.mushrooms == mx + my,
        b@.mushrooms == my + mx,
    ensures
        a.eq_spec(b),
{
    vstd::seq_lib::lemma_multiset_commutative(bx, by);
    vstd::seq_lib::lemma_multiset_commutative(by, bx);
    vstd::seq_lib::lemma_multiset_commutative(fx, fy);
    vstd::seq_lib::lemma_multiset_commutative(fy, fx);
    vstd::seq_lib::lemma_multiset_commutative(mx, my);
    vstd::seq_lib::lemma_multiset_commutative(my, mx);
    assert((bx + by).to_multiset() =~= (by + bx).to_multiset());
    assert((fx + fy).to_multiset() =~= (fy + fx).to_multiset());
    assert((mx + my).to_multiset() =~= (my + mx).to_multiset());
}

/// Boards that are `==` hand the hasher the same lists: each kind of piece, sorted, is
/// fixed by the pieces the board holds, whatever their order.
pub proof fn lemma_hash_input(a: &Board, b: &Board)
    ensures
        a.eq_spec(b) ==> a@.bunnies.sort_by(leq::<Bunny>()) == b@.bunnies.sort_by(leq::<Bunny>())
            && a@.foxes.sort_by(leq::<Fox>()) == b@.foxes.sort_by(leq::<Fox>())
            && a@.mushrooms.sort_by(leq::<Mushroom>()) == b@.mushrooms.sort_by(leq::<Mushroom>()),
{
    lemma_sort_same(a@.bunnies, b@.bunnies);
    lemma_sort_same(a@.foxes, b@.foxes);
    lemma_sort_same(a@.mushrooms, b@.mushrooms);
}

} // verus!
