//! The eight symmetries of the square acting on keys: they compose, and the
//! least image of a key is the same for every key in its orbit.
use vstd::prelude::*;
use vstd::relations::sorted_by;
use crate::bits::{has_bit, lemma_ext, lemma_or_single, lemma_zero};
use crate::geometry::{
    cell_sum, col, row, listed, rank, placement_count, placement_id, sym_cell, transform_cell,
    lemma_adjacent_order, lemma_rank_listed_lt, lemma_rank_small,
};
use crate::state::{
    StateModel, ids_lt, lemma_image_listed, lemma_placement_pair, lemma_transform_cell,
    permute_bits, placement_image, placement_pair, sort_ids,
};
use crate::order::{Ordered, leq};
use crate::compare::lemma_sort_same;
use crate::seqs::lemma_map_multiset;

verus! {

broadcast use vstd::seq_lib::group_to_multiset_ensures;

/// The symmetry that applying `a` and then `b` amounts to.
pub open spec fn compose(a: int, b: int) -> int {
    let row_a: Seq<int> = if a == 0 {
        seq![0, 1, 2, 3, 4, 5, 6, 7]
    } else if a == 1 {
        seq![1, 2, 3, 0, 7, 6, 4, 5]
    } else if a == 2 {
        seq![2, 3, 0, 1, 5, 4, 7, 6]
    } else if a == 3 {
        seq![3, 0, 1, 2, 6, 7, 5, 4]
    } else if a == 4 {
        seq![4, 6, 5, 7, 0, 2, 1, 3]
    } else if a == 5 {
        seq![5, 7, 4, 6, 2, 0, 3, 1]
    } else if a == 6 {
        seq![6, 5, 7, 4, 3, 1, 0, 2]
    } else {
        seq![7, 4, 6, 5, 1, 3, 2, 0]
    };
    row_a[b]
}

/// Applying symmetry `a` and then `b` to a cell is applying `compose(a, b)`.
pub proof fn lemma_sym_compose(x: int, y: int, a: int, b: int)
    requires
        0 <= a < 8,
        0 <= b < 8,
    ensures
        0 <= compose(a, b) < 8,
        ({
            let c = sym_cell(x, y, a);
            sym_cell(c.0, c.1, b)
        }) == sym_cell(x, y, compose(a, b)),
{
    assert(seq![0int, 1, 2, 3, 4, 5, 6, 7][b] == b);
    if a == 0 {
    } else if a == 1 {
        assert(seq![1int, 2, 3, 0, 7, 6, 4, 5][b] == compose(a, b));
    } else if a == 2 {
        assert(seq![2int, 3, 0, 1, 5, 4, 7, 6][b] == compose(a, b));
    } else if a == 3 {
        assert(seq![3int, 0, 1, 2, 6, 7, 5, 4][b] == compose(a, b));
    } else if a == 4 {
        assert(seq![4int, 6, 5, 7, 0, 2, 1, 3][b] == compose(a, b));
    } else if a == 5 {
        assert(seq![5int, 7, 4, 6, 2, 0, 3, 1][b] == compose(a, b));
    } else if a == 6 {
        assert(seq![6int, 5, 7, 4, 3, 1, 0, 2][b] == compose(a, b));
    } else {
        assert(seq![7int, 4, 6, 5, 1, 3, 2, 0][b] == compose(a, b));
    }
}

/// Applying symmetry `a` and then `b` to a cell index is applying `compose(a, b)`.
pub proof fn lemma_cell_compose(p: int, a: int, b: int)
    requires
        0 <= p < 25,
        0 <= a < 8,
        0 <= b < 8,
    ensures
        transform_cell(transform_cell(p, a), b) == transform_cell(p, compose(a, b)),
{
    lemma_transform_cell(p, a);
    lemma_transform_cell(transform_cell(p, a), b);
    lemma_sym_compose(col(p), row(p), a, b);
}

/// Some set bit `p < n` of `m` goes to `i` under symmetry `s`.
pub open spec fn sends(m: u32, s: int, n: int, i: int) -> bool {
    exists|p: int| 0 <= p < n && has_bit(m, p as u32) && #[trigger] transform_cell(p, s) == i
}

/// The bits of a permuted mask are the images of the bits of the mask.
pub proof fn lemma_permute_bit(m: u32, s: int, n: int, i: u32)
    requires
        0 <= n <= 25,
        0 <= s < 8,
        i < 32,
    ensures
        has_bit(permute_bits(m, s, n), i) == sends(m, s, n, i as int),
    decreases n,
{
    if n <= 0 {
        lemma_zero(i);
    } else {
        let q = n - 1;
        lemma_permute_bit(m, s, q, i);
        lemma_transform_cell(q, s);
        if has_bit(m, q as u32) {
            lemma_or_single(permute_bits(m, s, q), transform_cell(q, s) as u32, i);
        }
        if sends(m, s, n, i as int) {
            let p = choose|p: int| 0 <= p < n && has_bit(m, p as u32) && #[trigger] transform_cell(p, s) == i;
            if p < q {
                assert(sends(m, s, q, i as int));
            }
        }
        if sends(m, s, q, i as int) {
            let p = choose|p: int| 0 <= p < q && has_bit(m, p as u32) && #[trigger] transform_cell(p, s) == i;
            assert(sends(m, s, n, i as int));
        }
        if has_bit(m, q as u32) && transform_cell(q, s) == i {
            assert(sends(m, s, n, i as int));
        }
    }
}

/// Permuting the bits by `a` and then by `b` is permuting them by `compose(a, b)`.
pub proof fn lemma_permute_compose(m: u32, a: int, b: int)
    requires
        0 <= a < 8,
        0 <= b < 8,
    ensures
        permute_bits(permute_bits(m, a, 25), b, 25) == permute_bits(m, compose(a, b), 25),
{
    let c = compose(a, b);
    lemma_sym_compose(0, 0, a, b);
    let once = permute_bits(m, a, 25);
    assert forall|i: u32| i < 32 implies has_bit(permute_bits(once, b, 25), i) == has_bit(
        permute_bits(m, c, 25),
        i,
    ) by {
        lemma_permute_bit(once, b, 25, i);
        lemma_permute_bit(m, c, 25, i);
        if sends(once, b, 25, i as int) {
            let q = choose|q: int| 0 <= q < 25 && has_bit(once, q as u32) && #[trigger] transform_cell(q, b) == i;
            lemma_permute_bit(m, a, 25, q as u32);
            let p = choose|p: int| 0 <= p < 25 && has_bit(m, p as u32) && #[trigger] transform_cell(p, a) == q;
            lemma_cell_compose(p, a, b);
            assert(sends(m, c, 25, i as int));
        }
        if sends(m, c, 25, i as int) {
            let p = choose|p: int| 0 <= p < 25 && has_bit(m, p as u32) && #[trigger] transform_cell(p, c) == i;
            lemma_cell_compose(p, a, b);
            let q = transform_cell(p, a);
            lemma_transform_cell(p, a);
            lemma_permute_bit(m, a, 25, q as u32);
            assert(sends(m, a, 25, q));
            assert(has_bit(once, q as u32));
            assert(sends(once, b, 25, i as int));
        }
    }
    lemma_ext(permute_bits(once, b, 25), permute_bits(m, c, 25));
}

/// Every number below the count of listed steps before `n` is the number of a listed step.
proof fn lemma_rank_onto(id: int, n: int)
    requires
        0 <= id < rank(n),
        n <= 625,
    ensures
        exists|k: int| 0 <= k < n && listed(k) && #[trigger] rank(k) == id,
    decreases n,
{
    if n > 0 {
        if id < rank(n - 1) {
            lemma_rank_onto(id, n - 1);
            let k = choose|k: int| 0 <= k < n - 1 && listed(k) && #[trigger] rank(k) == id;
            assert(0 <= k < n);
        } else {
            assert(listed(n - 1) && rank(n - 1) == id);
        }
    } else {
        assert(rank(n) == 0);
    }
}

/// The two cells of a placement number, in increasing order, form a listed pair.
pub proof fn lemma_placement_listed(id: int)
    requires
        0 <= id < placement_count(),
    ensures
        listed(placement_pair(id).0 * 25 + placement_pair(id).1),
        0 <= placement_pair(id).0 < placement_pair(id).1 < 25,
        placement_id(placement_pair(id).0, placement_pair(id).1) == id,
{
    lemma_rank_onto(id, 625);
    let k = choose|k: int| 0 <= k < 625 && listed(k) && #[trigger] rank(k) == id;
    lemma_placement_pair(k);
    assert(k == (k / 25) * 25 + k % 25);
}

/// The two cells in order of coordinate sum, the first kept on ties.
pub open spec fn ordered(x: int, y: int) -> (int, int) {
    if cell_sum(x) > cell_sum(y) {
        (y, x)
    } else {
        (x, y)
    }
}

/// Two cells with different coordinate sums are ordered alike in either order.
pub proof fn lemma_ordered_swap(x: int, y: int)
    requires
        cell_sum(x) != cell_sum(y),
    ensures
        ordered(x, y) == ordered(y, x),
{
}

/// The image of the placement covering the listed pair `u < v`.
pub proof fn lemma_image_of_pair(u: int, v: int, s: int)
    requires
        0 <= u,
        0 <= v < 25,
        listed(u * 25 + v),
        0 <= s < 8,
    ensures
        ({
            let o = ordered(transform_cell(u, s), transform_cell(v, s));
            &&& 0 <= o.0 < o.1 < 25
            &&& listed(o.0 * 25 + o.1)
            &&& placement_image(placement_id(u, v) as u8, s) as int == placement_id(o.0, o.1)
            &&& placement_id(o.0, o.1) < placement_count()
            &&& cell_sum(o.0) + 1 == cell_sum(o.1)
        }),
{
    let k = u * 25 + v;
    assert(k / 25 == u && k % 25 == v);
    lemma_rank_small(k);
    lemma_placement_pair(k);
    lemma_image_listed(u, v, s);
    let o = ordered(transform_cell(u, s), transform_cell(v, s));
    lemma_rank_small(o.0 * 25 + o.1);
    lemma_rank_listed_lt(o.0 * 25 + o.1, 625);
    let kk = o.0 * 25 + o.1;
    assert(kk / 25 == o.0 && kk % 25 == o.1);
    lemma_adjacent_order(o.0, o.1);
}

/// A symmetry maps placement numbers below the count to placement numbers below it,
/// and applying `a` and then `b` to a placement is applying `compose(a, b)`.
pub proof fn lemma_image_compose(id: u8, a: int, b: int)
    requires
        (id as int) < placement_count(),
        0 <= a < 8,
        0 <= b < 8,
    ensures
        (placement_image(id, a) as int) < placement_count(),
        placement_image(placement_image(id, a), b) == placement_image(id, compose(a, b)),
{
    let c = compose(a, b);
    lemma_sym_compose(0, 0, a, b);
    lemma_placement_listed(id as int);
    let p = placement_pair(id as int);
    lemma_rank_small(p.0 * 25 + p.1);
    assert(placement_id(p.0, p.1) as u8 == id);
    lemma_image_of_pair(p.0, p.1, a);
    let o = ordered(transform_cell(p.0, a), transform_cell(p.1, a));
    lemma_rank_small(o.0 * 25 + o.1);
    let mid = placement_image(id, a);
    assert(placement_id(o.0, o.1) as u8 == mid);
    lemma_image_of_pair(o.0, o.1, b);
    lemma_image_of_pair(p.0, p.1, c);
    lemma_cell_compose(p.0, a, b);
    lemma_cell_compose(p.1, a, b);
}

/// Sorting placement numbers keeps them, and a sorted sequence of numbers below the
/// count stays below it.
proof fn lemma_sort_ids_bounded(s: Seq<u8>)
    requires
        forall|i: int| 0 <= i < s.len() ==> (#[trigger] s[i] as int) < placement_count(),
    ensures
        sort_ids(s).to_multiset() == s.to_multiset(),
        sorted_by(sort_ids(s), leq::<u8>()),
        forall|i: int| 0 <= i < sort_ids(s).len() ==> (#[trigger] sort_ids(s)[i] as int) < placement_count(),
{
    u8::lemma_total_order();
    s.lemma_sort_by_ensures(leq::<u8>());
    let t = sort_ids(s);
    assert forall|i: int| 0 <= i < t.len() implies (#[trigger] t[i] as int) < placement_count() by {
        assert(t.to_multiset().count(t[i]) > 0);
        assert(s.contains(t[i]));
    }
}

/// Transforming a key by `a` and then by `b` is transforming it by `compose(a, b)`; the
/// image of a well-numbered key is well numbered.
pub proof fn lemma_transformed_compose(k: StateModel, a: int, b: int)
    requires
        k.well_numbered(),
        0 <= a < 8,
        0 <= b < 8,
    ensures
        k.transformed(a).well_numbered(),
        k.transformed(a).transformed(b) == k.transformed(compose(a, b)),
{
    let c = compose(a, b);
    lemma_sym_compose(0, 0, a, b);
    lemma_permute_compose(k.bunnies, a, b);
    lemma_permute_compose(k.mushrooms, a, b);
    let fa = k.foxes.map_values(|f: u8| placement_image(f, a));
    assert forall|i: int| 0 <= i < fa.len() implies (#[trigger] fa[i] as int) < placement_count() by {
        assert((k.foxes[i] as int) < placement_count());
        lemma_image_compose(k.foxes[i], a, b);
    }
    lemma_sort_ids_bounded(fa);
    let sa = sort_ids(fa);
    lemma_map_multiset(sa, fa, |f: u8| placement_image(f, b));
    let fc = k.foxes.map_values(|f: u8| placement_image(f, c));
    let fab = fa.map_values(|f: u8| placement_image(f, b));
    assert(fab =~= fc) by {
        assert forall|i: int| 0 <= i < fc.len() implies #[trigger] fab[i] == fc[i] by {
            assert((k.foxes[i] as int) < placement_count());
            lemma_image_compose(k.foxes[i], a, b);
        }
    }
    lemma_sort_same(sa.map_values(|f: u8| placement_image(f, b)), fc);
}

/// The symmetry that, applied after `a`, gives `c`.
pub open spec fn completing(a: int, c: int) -> int {
    let row_a: Seq<int> = if a == 0 {
        seq![0, 1, 2, 3, 4, 5, 6, 7]
    } else if a == 1 {
        seq![3, 0, 1, 2, 6, 7, 5, 4]
    } else if a == 2 {
        seq![2, 3, 0, 1, 5, 4, 7, 6]
    } else if a == 3 {
        seq![1, 2, 3, 0, 7, 6, 4, 5]
    } else if a == 4 {
        seq![4, 6, 5, 7, 0, 2, 1, 3]
    } else if a == 5 {
        seq![5, 7, 4, 6, 2, 0, 3, 1]
    } else if a == 6 {
        seq![6, 5, 7, 4, 3, 1, 0, 2]
    } else {
        seq![7, 4, 6, 5, 1, 3, 2, 0]
    };
    row_a[c]
}

/// Each symmetry followed by some symmetry gives any symmetry wanted.
pub proof fn lemma_compose_onto(a: int, c: int)
    requires
        0 <= a < 8,
        0 <= c < 8,
    ensures
        0 <= completing(a, c) < 8,
        compose(a, completing(a, c)) == c,
{
    if a == 0 {
        assert(seq![0, 1, 2, 3, 4, 5, 6, 7int][c] == completing(a, c));
        assert(seq![0, 1, 2, 3, 4, 5, 6, 7int][completing(a, c)] == compose(a, completing(a, c)));
    } else if a == 1 {
        assert(seq![3, 0, 1, 2, 6, 7, 5, 4int][c] == completing(a, c));
        assert(seq![1, 2, 3, 0, 7, 6, 4, 5int][completing(a, c)] == compose(a, completing(a, c)));
    } else if a == 2 {
        assert(seq![2, 3, 0, 1, 5, 4, 7, 6int][c] == completing(a, c));
        assert(seq![2, 3, 0, 1, 5, 4, 7, 6int][completing(a, c)] == compose(a, completing(a, c)));
    } else if a == 3 {
        assert(seq![1, 2, 3, 0, 7, 6, 4, 5int][c] == completing(a, c));
        assert(seq![3, 0, 1, 2, 6, 7, 5, 4int][completing(a, c)] == compose(a, completing(a, c)));
    } else if a == 4 {
        assert(seq![4, 6, 5, 7, 0, 2, 1, 3int][c] == completing(a, c));
        assert(seq![4, 6, 5, 7, 0, 2, 1, 3int][completing(a, c)] == compose(a, completing(a, c)));
    } else if a == 5 {
        assert(seq![5, 7, 4, 6, 2, 0, 3, 1int][c] == completing(a, c));
        assert(seq![5, 7, 4, 6, 2, 0, 3, 1int][completing(a, c)] == compose(a, completing(a, c)));
    } else if a == 6 {
        assert(seq![6, 5, 7, 4, 3, 1, 0, 2int][c] == completing(a, c));
        assert(seq![6, 5, 7, 4, 3, 1, 0, 2int][completing(a, c)] == compose(a, completing(a, c)));
    } else {
        assert(seq![7, 4, 6, 5, 1, 3, 2, 0int][c] == completing(a, c));
        assert(seq![7, 4, 6, 5, 1, 3, 2, 0int][completing(a, c)] == compose(a, completing(a, c)));
    }
}

proof fn lemma_ids_lt_irreflexive(a: Seq<u8>)
    ensures
        !ids_lt(a, a),
    decreases a.len(),
{
    if a.len() > 0 {
        lemma_ids_lt_irreflexive(a.drop_first());
    }
}

proof fn lemma_ids_lt_transitive(a: Seq<u8>, b: Seq<u8>, c: Seq<u8>)
    requires
        ids_lt(a, b),
        ids_lt(b, c),
    ensures
        ids_lt(a, c),
    decreases a.len(),
{
    if a.len() > 0 && b.len() > 0 && c.len() > 0 && a[0] == b[0] && b[0] == c[0] {
        lemma_ids_lt_transitive(a.drop_first(), b.drop_first(), c.drop_first());
    }
}

proof fn lemma_ids_lt_total(a: Seq<u8>, b: Seq<u8>)
    requires
        a != b,
    ensures
        ids_lt(a, b) || ids_lt(b, a),
    decreases a.len(),
{
    if a.len() > 0 && b.len() > 0 && a[0] == b[0] {
        if a.drop_first() == b.drop_first() {
            assert(a =~= seq![a[0]] + a.drop_first());
            assert(b =~= seq![b[0]] + b.drop_first());
        }
        lemma_ids_lt_total(a.drop_first(), b.drop_first());
    } else if a.len() == 0 && b.len() == 0 {
        assert(a =~= b);
    }
}

/// The order of keys is a strict total order.
pub proof fn lemma_key_order(x: StateModel, y: StateModel, z: StateModel)
    ensures
        !x.lt(x),
        x.lt(y) && y.lt(z) ==> x.lt(z),
        x != y ==> x.lt(y) || y.lt(x),
{
    lemma_ids_lt_irreflexive(x.foxes);
    if x.lt(y) && y.lt(z) && x.bunnies == y.bunnies && y.bunnies == z.bunnies && x.mushrooms
        == y.mushrooms && y.mushrooms == z.mushrooms {
        lemma_ids_lt_transitive(x.foxes, y.foxes, z.foxes);
    }
    if x != y && x.bunnies == y.bunnies && x.mushrooms == y.mushrooms {
        lemma_ids_lt_total(x.foxes, y.foxes);
    }
}

/// The least image over symmetries `0..n` is one of them, and none of them comes before it.
pub proof fn lemma_least_image(k: StateModel, n: int)
    requires
        1 <= n <= 8,
    ensures
        exists|t: int| 0 <= t < n && k.least_image(n) == #[trigger] k.transformed(t),
        forall|t: int| 0 <= t < n ==> !(#[trigger] k.transformed(t)).lt(k.least_image(n)),
    decreases n,
{
    if n == 1 {
        assert(k.least_image(1) == k.transformed(0));
        lemma_key_order(k.transformed(0), k.transformed(0), k.transformed(0));
    } else {
        lemma_least_image(k, n - 1);
        let best = k.least_image(n - 1);
        let last = k.transformed(n - 1);
        lemma_key_order(last, last, last);
        if last.lt(best) {
            assert forall|t: int| 0 <= t < n implies !(#[trigger] k.transformed(t)).lt(
                k.least_image(n),
            ) by {
                lemma_key_order(k.transformed(t), last, best);
            }
        } else {
            let t0 = choose|t: int| 0 <= t < n - 1 && best == #[trigger] k.transformed(t);
            assert(k.least_image(n) == k.transformed(t0));
        }
    }
}

/// A key and any of its images under the symmetries of the square have the same
/// canonical key: the canonical key names the position up to rotation and reflection.
pub proof fn lemma_canonical_symmetric(k: StateModel, s: int)
    requires
        k.well_numbered(),
        0 <= s < 8,
    ensures
        k.transformed(s).canonical() == k.canonical(),
{
    reveal(StateModel::canonical);
    let ks = k.transformed(s);
    lemma_transformed_compose(k, s, 0);
    let x = ks.least_image(8);
    let y = k.least_image(8);
    lemma_least_image(ks, 8);
    lemma_least_image(k, 8);
    let t0 = choose|t: int| 0 <= t < 8 && x == #[trigger] ks.transformed(t);
    let t1 = choose|t: int| 0 <= t < 8 && y == #[trigger] k.transformed(t);
    lemma_transformed_compose(k, s, t0);
    lemma_sym_compose(0, 0, s, t0);
    let c0 = compose(s, t0);
    assert(x == k.transformed(c0));
    assert(!x.lt(y));
    lemma_compose_onto(s, t1);
    let t2 = completing(s, t1);
    lemma_transformed_compose(k, s, t2);
    assert(ks.transformed(t2) == y);
    assert(!y.lt(x));
    lemma_key_order(x, y, y);
}

} // verus!
