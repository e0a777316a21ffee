//! Facts about sequences with one element removed, and about duplicates.
use vstd::prelude::*;
use crate::board::{without, fox_cells};
use crate::pieces::Fox;

verus! {

broadcast use vstd::seq_lib::group_to_multiset_ensures;

pub proof fn lemma_without_absent<A>(s: Seq<A>, x: A)
    requires
        !s.contains(x),
    ensures
        without(s, x) == s,
    decreases s.len(),
{
    if s.len() > 0 {
        let r = s.drop_last();
        assert(!r.contains(x)) by {
            if r.contains(x) {
                let j = choose|j: int| 0 <= j < r.len() && r[j] == x;
                assert(s[j] == x);
            }
        }
        lemma_without_absent(r, x);
        assert(s[s.len() - 1] == s.last());
        assert(s =~= r.push(s.last()));
    }
}

pub proof fn lemma_without_concat<A>(a: Seq<A>, b: Seq<A>, x: A)
    ensures
        without(a + b, x) == without(a, x) + without(b, x),
    decreases b.len(),
{
    if b.len() == 0 {
        assert(a + b =~= a);
        assert(without(a, x) + without(b, x) =~= without(a, x));
    } else {
        let r = b.drop_last();
        lemma_without_concat(a, r, x);
        assert((a + b).drop_last() =~= a + r);
        assert((a + b).last() == b.last());
        if b.last() == x {
        } else {
            assert(without(a, x) + without(r, x).push(b.last()) =~= (without(a, x) + without(r, x)).push(
                b.last(),
            ));
        }
    }
}

/// `s` split around position `k`.
pub proof fn lemma_split_at<A>(s: Seq<A>, k: int)
    requires
        0 <= k < s.len(),
    ensures
        s == s.take(k) + seq![s[k]] + s.skip(k + 1),
{
    assert(s =~= s.take(k) + seq![s[k]] + s.skip(k + 1));
}

/// Removing an element that occurs once, at position `k`.
pub proof fn lemma_without_once<A>(s: Seq<A>, k: int)
    requires
        0 <= k < s.len(),
        forall|j: int| 0 <= j < s.len() && j != k ==> s[j] != s[k],
    ensures
        without(s, s[k]) == s.take(k) + s.skip(k + 1),
{
    let x = s[k];
    let a = s.take(k);
    let b = s.skip(k + 1);
    lemma_split_at(s, k);
    assert(!a.contains(x)) by {
        if a.contains(x) {
            let j = choose|j: int| 0 <= j < a.len() && a[j] == x;
            assert(s[j] == x);
        }
    }
    assert(!b.contains(x)) by {
        if b.contains(x) {
            let j = choose|j: int| 0 <= j < b.len() && b[j] == x;
            assert(s[k + 1 + j] == x);
        }
    }
    lemma_without_absent(a, x);
    lemma_without_absent(b, x);
    lemma_without_concat(a + seq![x], b, x);
    lemma_without_concat(a, seq![x], x);
    assert(seq![x].drop_last() =~= Seq::<A>::empty());
    assert(seq![x].last() == x);
    assert(without(Seq::<A>::empty(), x) == Seq::<A>::empty());
    assert(without(seq![x], x) == without(seq![x].drop_last(), x));
    assert(without(seq![x], x) =~= Seq::<A>::empty());
    assert(a + Seq::<A>::empty() =~= a);
}

pub proof fn lemma_fox_cells_concat(a: Seq<Fox>, b: Seq<Fox>)
    ensures
        fox_cells(a + b) == fox_cells(a) + fox_cells(b),
    decreases b.len(),
{
    if b.len() == 0 {
        assert(a + b =~= a);
        assert(fox_cells(b) =~= Seq::<(usize, usize)>::empty());
        assert(fox_cells(a) + fox_cells(b) =~= fox_cells(a));
    } else {
        let r = b.drop_last();
        lemma_fox_cells_concat(a, r);
        assert((a + b).drop_last() =~= a + r);
        assert((a + b).last() == b.last());
        assert(fox_cells(a) + fox_cells(r).push(b.last().pos1).push(b.last().pos2) =~= (fox_cells(a)
            + fox_cells(r)).push(b.last().pos1).push(b.last().pos2));
    }
}

pub proof fn lemma_fox_cells_single(f: Fox)
    ensures
        fox_cells(seq![f]) == seq![f.pos1, f.pos2],
{
    assert(seq![f].drop_last() =~= Seq::<Fox>::empty());
    assert(fox_cells(Seq::<Fox>::empty()) =~= Seq::<(usize, usize)>::empty());
    assert(Seq::<(usize, usize)>::empty().push(f.pos1).push(f.pos2) =~= seq![f.pos1, f.pos2]);
}

/// No duplicates exactly when every element is counted at most once.
pub proof fn lemma_no_dup_counts<A>(s: Seq<A>)
    ensures
        s.no_duplicates() <==> forall|x: A| #[trigger] s.to_multiset().count(x) <= 1,
{
    if s.no_duplicates() {
        s.lemma_multiset_has_no_duplicates();
        assert forall|x: A| #[trigger] s.to_multiset().count(x) <= 1 by {
            if s.to_multiset().count(x) > 0 {
                assert(s.to_multiset().contains(x));
            }
        }
    }
    if forall|x: A| #[trigger] s.to_multiset().count(x) <= 1 {
        assert forall|x: A| s.to_multiset().contains(x) implies s.to_multiset().count(x) == 1 by {
        }
        s.lemma_multiset_has_no_duplicates_conv();
    }
}

/// Mapping two sequences with the same elements gives sequences with the same elements.
pub proof fn lemma_map_multiset<A, B>(a: Seq<A>, b: Seq<A>, g: spec_fn(A) -> B)
    requires
        a.to_multiset() == b.to_multiset(),
    ensures
        a.map_values(g).to_multiset() == b.map_values(g).to_multiset(),
    decreases a.len(),
{
    broadcast use vstd::multiset::group_multiset_axioms;

    vstd::seq_lib::to_multiset_len(a);
    vstd::seq_lib::to_multiset_len(b);
    if a.len() == 0 {
        assert(a.map_values(g) =~= b.map_values(g));
    } else {
        let x = a.last();
        let rest = a.drop_last();
        assert(a =~= rest.push(x));
        vstd::seq_lib::to_multiset_build(rest, x);
        assert(a.to_multiset().count(x) > 0);
        assert(b.contains(x));
        let i = choose|i: int| 0 <= i < b.len() && b[i] == x;
        let others = b.remove(i);
        vstd::seq_lib::to_multiset_remove(b, i);
        assert(others.to_multiset() =~= rest.to_multiset());
        lemma_map_multiset(rest, others, g);
        let ga = a.map_values(g);
        let gb = b.map_values(g);
        assert(ga =~= rest.map_values(g).push(g(x)));
        vstd::seq_lib::to_multiset_build(rest.map_values(g), g(x));
        assert(gb.remove(i) =~= others.map_values(g));
        vstd::seq_lib::to_multiset_remove(gb, i);
        assert(gb[i] == g(x));
        assert(gb.contains(g(x)));
        assert(gb.to_multiset().count(g(x)) > 0);
        assert(gb.to_multiset() =~= gb.to_multiset().remove(g(x)).insert(g(x)));
    }
}

} // verus!
