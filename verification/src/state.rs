//! A compact key for a position: bit masks of the bunnies and mushrooms and the
//! sorted placement numbers of the foxes, and the symmetries acting on it.
use vstd::prelude::*;

use crate::bits::{has_bit, lemma_test_single};
use crate::board::{Board, BoardModel, bits_of, bunny_cells, mushroom_cells};
use crate::geometry::{
    cell_index, cell_sum, col, row, indexable, legal_edge, listed, lemma_adjacent_order,
    lemma_rank_injective, lemma_rank_listed_lt, lemma_rank_small, mask_of, placement_count,
    placement_id, position_index, position_mask, position_sum, fox_placement_id,
    fox_placement_from_id, rank, sym_cell, symmetry_maps, transform_cell, lemma_index_coords,
};
use crate::order::{leq, sorted_copy};
use crate::pieces::{Fox, Move};

verus! {

broadcast use vstd::seq_lib::group_to_multiset_ensures;

/// Key of a position: which cells hold bunnies, which hold mushrooms, and the
/// placement numbers of the foxes in increasing order.
#[derive(Debug, Eq, Hash, Ord, PartialEq, PartialOrd)]
pub struct StateKey {
    pub bunnies: u32,
    pub mushrooms: u32,
    pub foxes: Vec<u8>,
}

pub struct StateModel {
    pub bunnies: u32,
    pub mushrooms: u32,
    pub foxes: Seq<u8>,
}

impl View for StateKey {
    type V = StateModel;

    open spec fn view(&self) -> StateModel {
        StateModel { bunnies: self.bunnies, mushrooms: self.mushrooms, foxes: self.foxes@ }
    }
}

impl Clone for StateKey {
    fn clone(&self) -> (r: Self)
        ensures
            r@ == self@,
    {
        StateKey { bunnies: self.bunnies, mushrooms: self.mushrooms, foxes: crate::order::copy_vec(&self.foxes) }
    }
}

/// The cell indices of a fox, smaller coordinate sum first (the first cell kept on ties).
pub open spec fn fox_index_pair(f: Fox) -> (int, int) {
    let a = cell_index(f.pos1) % 256;
    let b = cell_index(f.pos2) % 256;
    if cell_sum(a) > cell_sum(b) {
        (b, a)
    } else {
        (a, b)
    }
}

/// The fox covers a placement that has a number.
pub open spec fn keyable(f: Fox) -> bool {
    let p = fox_index_pair(f);
    p.1 < 25 && listed(p.0 * 25 + p.1)
}

/// The placement number of a fox.
pub open spec fn fox_id(f: Fox) -> u8 {
    let p = fox_index_pair(f);
    placement_id(p.0, p.1) as u8
}

/// The increasing order of a sequence of placement numbers.
pub open spec fn sort_ids(s: Seq<u8>) -> Seq<u8> {
    s.sort_by(leq::<u8>())
}

/// The cells `first < second` of the placement numbered `id`.
pub open spec fn placement_pair(id: int) -> (int, int) {
    let k = choose|k: int| listed(k) && rank(k) == id;
    (k / 25, k % 25)
}

/// Image of the placement numbered `id` under symmetry `s`.
pub open spec fn placement_image(id: u8, s: int) -> u8 {
    let p = placement_pair(id as int);
    let a = transform_cell(p.0, s);
    let b = transform_cell(p.1, s);
    if cell_sum(a) > cell_sum(b) {
        placement_id(b, a) as u8
    } else {
        placement_id(a, b) as u8
    }
}

/// `m` with bit `t(p)` set for each set bit `p < n`, where `t` is symmetry `s`.
pub open spec fn permute_bits(m: u32, s: int, n: int) -> u32
    decreases n,
{
    if n <= 0 {
        0
    } else if has_bit(m, (n - 1) as u32) {
        permute_bits(m, s, n - 1) | (1u32 << (transform_cell(n - 1, s) as u32))
    } else {
        permute_bits(m, s, n - 1)
    }
}

/// Lexicographic order on placement-number sequences, a proper prefix first.
pub open spec fn ids_lt(a: Seq<u8>, b: Seq<u8>) -> bool
    decreases a.len(),
{
    if a.len() == 0 {
        b.len() > 0
    } else if b.len() == 0 {
        false
    } else if a[0] != b[0] {
        a[0] < b[0]
    } else {
        ids_lt(a.drop_first(), b.drop_first())
    }
}

impl StateModel {
    /// Every placement number is in range.
    pub open spec fn well_numbered(self) -> bool {
        forall|i: int| 0 <= i < self.foxes.len() ==> (#[trigger] self.foxes[i] as int) < placement_count()
    }

    /// The image of the key under symmetry `s`.
    pub open spec fn transformed(self, s: int) -> StateModel {
        StateModel {
            bunnies: permute_bits(self.bunnies, s, 25),
            mushrooms: permute_bits(self.mushrooms, s, 25),
            foxes: sort_ids(self.foxes.map_values(|f: u8| placement_image(f, s))),
        }
    }

    /// The order the derived `Ord` gives: bunnies, then mushrooms, then foxes.
    pub open spec fn lt(self, other: StateModel) -> bool {
        if self.bunnies != other.bunnies {
            self.bunnies < other.bunnies
        } else if self.mushrooms != other.mushrooms {
            self.mushrooms < other.mushrooms
        } else {
            ids_lt(self.foxes, other.foxes)
        }
    }

    /// The least of the images under symmetries `0..n`, the first one on ties.
    pub open spec fn least_image(self, n: int) -> StateModel
        decreases n,
    {
        if n <= 1 {
            self.transformed(0)
        } else {
            let best = self.least_image(n - 1);
            let t = self.transformed(n - 1);
            if t.lt(best) {
                t
            } else {
                best
            }
        }
    }

    /// The least image of the key over the eight symmetries.
    #[verifier::opaque]
    pub open spec fn canonical(self) -> StateModel {
        self.least_image(8)
    }

    /// The key after a move.
    pub open spec fn apply(self, mv: Move) -> StateModel {
        match mv {
            Move::Bunny { from, to } => StateModel {
                bunnies: (self.bunnies & !mask_of(from.pos)) | mask_of(to.pos),
                ..self
            },
            Move::Fox { from, to } => StateModel {
                foxes: sort_ids(
                    self.foxes.update(self.foxes.index_of(fox_id(from)), fox_id(to)),
                ),
                ..self
            },
        }
    }

    /// The move can be applied to the key: its cells have bits, and a moved fox is in the key.
    pub open spec fn can_apply(self, mv: Move) -> bool {
        match mv {
            Move::Bunny { from, to } => indexable(from.pos) && indexable(to.pos),
            Move::Fox { from, to } => {
                &&& indexable(from.pos1) && indexable(from.pos2) && keyable(from)
                &&& indexable(to.pos1) && indexable(to.pos2) && keyable(to)
                &&& self.foxes.contains(fox_id(from))
            },
        }
    }
}

impl BoardModel {
    /// Every fox covers a numbered placement.
    pub open spec fn keyable(self) -> bool {
        forall|i: int| 0 <= i < self.foxes.len() ==> keyable(#[trigger] self.foxes[i])
    }

    /// The key of the board.
    pub open spec fn state(self) -> StateModel {
        StateModel {
            bunnies: bits_of(0, bunny_cells(self.bunnies)),
            mushrooms: bits_of(0, mushroom_cells(self.mushrooms)),
            foxes: sort_ids(self.foxes.map_values(|f: Fox| fox_id(f))),
        }
    }
}

/// The placement number of a fox.
pub fn fox_key(fox: &Fox) -> (r: u8)
    requires
        indexable(fox.pos1),
        indexable(fox.pos2),
        keyable(*fox),
    ensures
        r == fox_id(*fox),
        (r as int) < placement_count(),
{
    let mut key = (position_index(fox.pos1), position_index(fox.pos2));
    if position_sum(key.0) > position_sum(key.1) {
        let t = key.0;
        key.0 = key.1;
        key.1 = t;
    }
    proof {
        let p = fox_index_pair(*fox);
        lemma_rank_listed_lt(p.0 * 25 + p.1, 625);
        lemma_rank_small(p.0 * 25 + p.1);
    }
    fox_placement_id(key.0, key.1)
}

/// The placement pair of a number is the one the enumeration lists with it.
pub proof fn lemma_placement_pair(k: int)
    requires
        listed(k),
    ensures
        placement_pair(rank(k) as int) == (k / 25, k % 25),
{
    let id = rank(k) as int;
    assert(listed(k) && rank(k) == id);
    let j = choose|j: int| listed(j) && rank(j) == id;
    lemma_rank_injective(j, k);
}

proof fn lemma_cell_coords(p: int)
    requires
        0 <= p < 25,
    ensures
        p == row(p) * 5 + col(p),
        0 <= col(p) < 5,
        0 <= row(p) < 5,
{
}

proof fn lemma_sym_range(x: int, y: int, s: int)
    requires
        0 <= x < 5,
        0 <= y < 5,
    ensures
        0 <= sym_cell(x, y, s).0 < 5,
        0 <= sym_cell(x, y, s).1 < 5,
        (sym_cell(x, y, s).0 % 2 == 0 && sym_cell(x, y, s).1 % 2 == 0) == (x % 2 == 0 && y % 2
            == 0),
{
}

proof fn lemma_sym_distance(x1: int, y1: int, x2: int, y2: int, s: int)
    ensures
        crate::geometry::abs(sym_cell(x1, y1, s).0 - sym_cell(x2, y2, s).0) + crate::geometry::abs(
            sym_cell(x1, y1, s).1 - sym_cell(x2, y2, s).1,
        ) == crate::geometry::abs(x1 - x2) + crate::geometry::abs(y1 - y2),
{
}

/// Image of a cell index below 25, with its coordinates.
pub proof fn lemma_transform_cell(p: int, s: int)
    requires
        0 <= p < 25,
    ensures
        0 <= transform_cell(p, s) < 25,
        col(transform_cell(p, s)) == sym_cell(col(p), row(p), s).0,
        row(transform_cell(p, s)) == sym_cell(col(p), row(p), s).1,
{
    lemma_cell_coords(p);
    let c = sym_cell(col(p), row(p), s);
    lemma_sym_range(col(p), row(p), s);
    lemma_index_coords(c.0, c.1);
}

/// A symmetry maps two cells a fox may cover to two cells a fox may cover.
pub proof fn lemma_edge_image(a: int, b: int, s: int)
    requires
        0 <= a < 25,
        0 <= b < 25,
        legal_edge(a, b),
    ensures
        legal_edge(transform_cell(a, s), transform_cell(b, s)),
{
    lemma_transform_cell(a, s);
    lemma_transform_cell(b, s);
    lemma_cell_coords(a);
    lemma_cell_coords(b);
    lemma_sym_range(col(a), row(a), s);
    lemma_sym_range(col(b), row(b), s);
    lemma_sym_distance(col(a), row(a), col(b), row(b), s);
}

/// A symmetry maps a placement to a placement, smaller coordinate sum first.
pub proof fn lemma_image_listed(a: int, b: int, s: int)
    requires
        0 <= a,
        0 <= b < 25,
        listed(a * 25 + b),
    ensures
        ({
            let ta = transform_cell(a, s);
            let tb = transform_cell(b, s);
            let p = if cell_sum(ta) > cell_sum(tb) {
                (tb, ta)
            } else {
                (ta, tb)
            };
            &&& 0 <= p.0 < p.1 < 25
            &&& listed(p.0 * 25 + p.1)
        }),
{
    let k = a * 25 + b;
    assert(k / 25 == a && k % 25 == b);
    let ta = transform_cell(a, s);
    let tb = transform_cell(b, s);
    lemma_transform_cell(a, s);
    lemma_transform_cell(b, s);
    lemma_cell_coords(a);
    lemma_cell_coords(b);
    lemma_sym_range(col(a), row(a), s);
    lemma_sym_range(col(b), row(b), s);
    lemma_sym_distance(col(a), row(a), col(b), row(b), s);
    assert(legal_edge(ta, tb));
    lemma_adjacent_order(ta, tb);
    let p = if cell_sum(ta) > cell_sum(tb) {
        (tb, ta)
    } else {
        (ta, tb)
    };
    let kk = p.0 * 25 + p.1;
    assert(kk / 25 == p.0 && kk % 25 == p.1);
}

/// The table `symmetry_maps` returns.
pub open spec fn maps_table(maps: Seq<Vec<u8>>) -> bool {
    &&& maps.len() == 8
    &&& forall|s: int| 0 <= s < 8 ==> #[trigger] maps[s]@.len() == 25
    &&& forall|s: int, p: int| 0 <= s < 8 && 0 <= p < 25 ==> #[trigger] maps[s]@[p] == transform_cell(p, s)
}

fn ids_less(a: &Vec<u8>, b: &Vec<u8>) -> (r: bool)
    ensures
        r == ids_lt(a@, b@),
{
    let mut i: usize = 0;
    assert(a@.skip(0) =~= a@);
    assert(b@.skip(0) =~= b@);
    while i < a.len() && i < b.len() && a[i] == b[i]
        invariant
            i <= a.len(),
            i <= b.len(),
            ids_lt(a@, b@) == ids_lt(a@.skip(i as int), b@.skip(i as int)),
        decreases a.len() - i,
    {
        proof {
            let sa = a@.skip(i as int);
            let sb = b@.skip(i as int);
            assert(sa.drop_first() =~= a@.skip(i + 1));
            assert(sb.drop_first() =~= b@.skip(i + 1));
        }
        i = i + 1;
    }
    if i < a.len() && i < b.len() {
        a[i] < b[i]
    } else {
        i == a.len() && i < b.len()
    }
}

/// Whether `a` comes before `b` in the order of keys.
pub fn key_less(a: &StateKey, b: &StateKey) -> (r: bool)
    ensures
        r == a@.lt(b@),
{
    if a.bunnies != b.bunnies {
        a.bunnies < b.bunnies
    } else if a.mushrooms != b.mushrooms {
        a.mushrooms < b.mushrooms
    } else {
        ids_less(&a.foxes, &b.foxes)
    }
}

fn placement_image_id(placement: u8, symmetry: usize, maps: &Vec<Vec<u8>>) -> (r: u8)
    requires
        symmetry < 8,
        maps_table(maps@),
        (placement as int) < placement_count(),
    ensures
        r == placement_image(placement, symmetry as int),
        (r as int) < placement_count(),
{
    let ghost s = symmetry as int;
    let (first, second) = fox_placement_from_id(placement);
    proof {
        lemma_placement_pair(first * 25 + second);
        lemma_image_listed(first as int, second as int, s);
        lemma_transform_cell(first as int, s);
        lemma_transform_cell(second as int, s);
        assert((first * 25 + second) / 25 == first);
        assert((first * 25 + second) % 25 == second);
        assert(maps@[s]@[first as int] == transform_cell(first as int, s));
        assert(maps@[s]@[second as int] == transform_cell(second as int, s));
    }
    let mut pair = (maps[symmetry][first as usize], maps[symmetry][second as usize]);
    if position_sum(pair.0) > position_sum(pair.1) {
        let t = pair.0;
        pair.0 = pair.1;
        pair.1 = t;
    }
    let id = fox_placement_id(pair.0, pair.1);
    proof {
        lemma_rank_listed_lt(pair.0 * 25 + pair.1, 625);
    }
    id
}

impl StateKey {
    fn transform(&self, symmetry: usize, maps: &Vec<Vec<u8>>) -> (r: StateKey)
        requires
            symmetry < 8,
            maps_table(maps@),
            self@.well_numbered(),
        ensures
            r@ == self@.transformed(symmetry as int),
            r@.well_numbered(),
    {
        let ghost s = symmetry as int;
        let mut bunnies: u32 = 0;
        let mut mushrooms: u32 = 0;
        let mut position: usize = 0;
        while position < 25
            invariant
                symmetry < 8,
                s == symmetry as int,
                maps_table(maps@),
                position <= 25,
                bunnies == permute_bits(self.bunnies, s, position as int),
                mushrooms == permute_bits(self.mushrooms, s, position as int),
            decreases 25 - position,
        {
            let source = 1u32 << (position as u32);
            let t = maps[symmetry][position];
            proof {
                assert(maps@[symmetry as int]@[position as int] == transform_cell(position as int, s));
                lemma_transform_cell(position as int, s);
                lemma_test_single(self.bunnies, position as u32);
                lemma_test_single(self.mushrooms, position as u32);
            }
            let target = 1u32 << (t as u32);
            assert(t == transform_cell(position as int, s));
            if self.bunnies & source != 0 {
                bunnies = bunnies | target;
            }
            if self.mushrooms & source != 0 {
                mushrooms = mushrooms | target;
            }
            assert(bunnies == permute_bits(self.bunnies, s, position + 1));
            assert(mushrooms == permute_bits(self.mushrooms, s, position + 1));
            position = position + 1;
        }
        let mut foxes: Vec<u8> = Vec::new();
        let mut i: usize = 0;
        while i < self.foxes.len()
            invariant
                symmetry < 8,
                s == symmetry as int,
                maps_table(maps@),
                self@.well_numbered(),
                i <= self.foxes.len(),
                foxes@ == self.foxes@.take(i as int).map_values(|f: u8| placement_image(f, s)),
                forall|j: int| 0 <= j < foxes.len() ==> (#[trigger] foxes@[j] as int) < placement_count(),
            decreases self.foxes.len() - i,
        {
            let placement = self.foxes[i];
            proof {
                let k = self@;
                assert((k.foxes[i as int] as int) < placement_count());
            }
            let id = placement_image_id(placement, symmetry, maps);
            foxes.push(id);
            i = i + 1;
            proof {
                assert(foxes@ =~= self.foxes@.take(i as int).map_values(|f: u8| placement_image(f, s)));
            }
        }
        assert(self.foxes@.take(i as int) =~= self.foxes@);
        let sorted = sorted_copy(&foxes);
        proof {
            assert forall|j: int| 0 <= j < sorted@.len() implies (#[trigger] sorted@[j] as int)
                < placement_count() by {
                assert(sorted@.to_multiset().count(sorted@[j]) > 0);
                assert(foxes@.contains(sorted@[j]));
            }
        }
        StateKey { bunnies, mushrooms, foxes: sorted }
    }

    /// The least of the key's images under the eight symmetries: one key for all
    /// positions that a rotation or reflection turns into one another.
    pub fn canonical(&self) -> (r: Self)
        requires
            self@.well_numbered(),
        ensures
            r@ == self@.canonical(),
    {
        let maps = symmetry_maps();
        proof {
            assert forall|s: int| 0 <= s < 8 implies #[trigger] maps@[s]@.len() == 25 by {
                assert(maps[s].len() == 25);
            }
            assert forall|s: int, p: int| 0 <= s < 8 && 0 <= p < 25 implies #[trigger] maps@[s]@[p]
                == transform_cell(p, s) by {
                assert(maps[s][p] == transform_cell(p, s));
            }
        }
        let mut best = self.transform(0, &maps);
        let mut symmetry: usize = 1;
        while symmetry < 8
            invariant
                1 <= symmetry <= 8,
                maps_table(maps@),
                self@.well_numbered(),
                best@ == self@.least_image(symmetry as int),
            decreases 8 - symmetry,
        {
            let t = self.transform(symmetry, &maps);
            if key_less(&t, &best) {
                best = t;
            }
            symmetry = symmetry + 1;
        }
        proof {
            reveal(StateModel::canonical);
        }
        best
    }

    /// The key after the move.
    pub fn apply_move(&self, movement: &Move) -> (r: Self)
        requires
            self@.can_apply(*movement),
        ensures
            r@ == self@.apply(*movement),
    {
        let mut successor = self.clone();
        match movement {
            Move::Bunny { from, to } => {
                successor.bunnies = successor.bunnies & !position_mask(from.pos);
                successor.bunnies = successor.bunnies | position_mask(to.pos);
                successor
            },
            Move::Fox { from, to } => {
                let foxes = replace_fox(&successor.foxes, from, to);
                StateKey { bunnies: successor.bunnies, mushrooms: successor.mushrooms, foxes }
            },
        }
    }
}

/// The placement numbers with one occurrence of the number of `from` replaced by
/// that of `to`, sorted.
fn replace_fox(ids: &Vec<u8>, from: &Fox, to: &Fox) -> (r: Vec<u8>)
    requires
        indexable(from.pos1) && indexable(from.pos2) && keyable(*from),
        indexable(to.pos1) && indexable(to.pos2) && keyable(*to),
        ids@.contains(fox_id(*from)),
    ensures
        r@ == sort_ids(ids@.update(ids@.index_of(fox_id(*from)), fox_id(*to))),
{
    let from_id = fox_key(from);
    let to_id = fox_key(to);
    let ghost old_foxes = ids@;
    let mut i: usize = 0;
    while i < ids.len() && ids[i] != from_id
        invariant
            ids@ == old_foxes,
            old_foxes.contains(from_id),
            i <= old_foxes.len(),
            forall|j: int| 0 <= j < i ==> old_foxes[j] != from_id,
        decreases old_foxes.len() - i,
    {
        i = i + 1;
    }
    if i == ids.len() {
        proof {
            let k = choose|k: int| 0 <= k < old_foxes.len() && old_foxes[k] == from_id;
            assert(false);
        }
    }
    let mut updated = crate::order::copy_vec(ids);
    updated.set(i, to_id);
    let sorted = sorted_copy(&updated);
    proof {
        let chosen = old_foxes.index_of(from_id);
        assert(0 <= chosen < old_foxes.len() && old_foxes[chosen] == from_id);
        vstd::seq_lib::to_multiset_update(old_foxes, i as int, to_id);
        vstd::seq_lib::to_multiset_update(old_foxes, chosen, to_id);
        crate::compare::lemma_sort_same(
            old_foxes.update(i as int, to_id),
            old_foxes.update(chosen, to_id),
        );
    }
    sorted
}

impl Board {
    /// The key of the board.
    pub fn state_key(&self) -> (r: StateKey)
        requires
            self@.indexable(),
            self@.keyable(),
        ensures
            r@ == self@.state(),
            r@.well_numbered(),
    {
        let ghost m = self@;
        let mut ids: Vec<u8> = Vec::new();
        let mut i: usize = 0;
        while i < self.foxes.len()
            invariant
                m == self@,
                m.indexable(),
                m.keyable(),
                i <= self.foxes.len(),
                ids@ == self.foxes@.take(i as int).map_values(|f: Fox| fox_id(f)),
                forall|j: int| 0 <= j < ids.len() ==> (#[trigger] ids@[j] as int) < placement_count(),
            decreases self.foxes.len() - i,
        {
            proof {
                assert(indexable(m.foxes[i as int].pos1));
                assert(keyable(m.foxes[i as int]));
            }
            let id = fox_key(&self.foxes[i]);
            ids.push(id);
            i = i + 1;
            assert(ids@ =~= self.foxes@.take(i as int).map_values(|f: Fox| fox_id(f)));
        }
        assert(self.foxes@.take(i as int) =~= self.foxes@);
        let foxes = sorted_copy(&ids);
        proof {
            assert forall|j: int| 0 <= j < foxes@.len() implies (#[trigger] foxes@[j] as int)
                < placement_count() by {
                assert(foxes@.to_multiset().count(foxes@[j]) > 0);
                assert(ids@.contains(foxes@[j]));
            }
        }
        let mut bunnies: u32 = 0;
        let mut i: usize = 0;
        while i < self.bunnies.len()
            invariant
                m == self@,
                m.indexable(),
                i <= self.bunnies.len(),
                bunnies == bits_of(0, bunny_cells(self.bunnies@.take(i as int))),
            decreases self.bunnies.len() - i,
        {
            let pos = self.bunnies[i].pos;
            proof {
                assert(indexable(m.bunnies[i as int].pos));
                assert(bunny_cells(self.bunnies@.take(i + 1)).drop_last() =~= bunny_cells(
                    self.bunnies@.take(i as int),
                ));
            }
            bunnies = bunnies | position_mask(pos);
            i = i + 1;
        }
        assert(self.bunnies@.take(i as int) =~= self.bunnies@);
        let mut mushrooms: u32 = 0;
        let mut i: usize = 0;
        while i < self.mushrooms.len()
            invariant
                m == self@,
                m.indexable(),
                i <= self.mushrooms.len(),
                mushrooms == bits_of(0, mushroom_cells(self.mushrooms@.take(i as int))),
            decreases self.mushrooms.len() - i,
        {
            let pos = self.mushrooms[i].pos;
            proof {
                assert(indexable(m.mushrooms[i as int].pos));
                assert(mushroom_cells(self.mushrooms@.take(i + 1)).drop_last() =~= mushroom_cells(
                    self.mushrooms@.take(i as int),
                ));
            }
            mushrooms = mushrooms | position_mask(pos);
            i = i + 1;
        }
        assert(self.mushrooms@.take(i as int) =~= self.mushrooms@);
        StateKey { bunnies, mushrooms, foxes }
    }
}

} // verus!
