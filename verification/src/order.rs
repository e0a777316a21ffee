//! Total orders on the pieces (the order their derived `Ord` gives) and on
//! placement numbers, with copying, filtering and sorting of vectors of them.
use vstd::prelude::*;
use vstd::relations::{sorted_by, total_ordering};
use crate::board::without;
use crate::pieces::{Bunny, Fox, Mushroom};

verus! {

broadcast use vstd::seq_lib::group_to_multiset_ensures;

/// Lexicographic order on cells `(column, row)`.
pub open spec fn cell_le(a: (usize, usize), b: (usize, usize)) -> bool {
    a.0 < b.0 || (a.0 == b.0 && a.1 <= b.1)
}

/// Values with an exact equality test and a total order.
pub trait Ordered: Copy + Sized {
    spec fn le_spec(self, other: Self) -> bool;

    fn same(&self, other: &Self) -> (r: bool)
        ensures
            r == (*self == *other),
    ;

    fn le(&self, other: &Self) -> (r: bool)
        ensures
            r == self.le_spec(*other),
    ;

    proof fn lemma_total_order()
        ensures
            total_ordering(|a: Self, b: Self| a.le_spec(b)),
    ;
}

pub open spec fn leq<T: Ordered>() -> spec_fn(T, T) -> bool {
    |a: T, b: T| a.le_spec(b)
}

impl Ordered for u8 {
    open spec fn le_spec(self, other: Self) -> bool {
        self <= other
    }

    fn same(&self, other: &Self) -> (r: bool) {
        *self == *other
    }

    fn le(&self, other: &Self) -> (r: bool) {
        *self <= *other
    }

    proof fn lemma_total_order() {
    }
}

impl Ordered for usize {
    open spec fn le_spec(self, other: Self) -> bool {
        self <= other
    }

    fn same(&self, other: &Self) -> (r: bool) {
        *self == *other
    }

    fn le(&self, other: &Self) -> (r: bool) {
        *self <= *other
    }

    proof fn lemma_total_order() {
    }
}

impl Ordered for Bunny {
    open spec fn le_spec(self, other: Self) -> bool {
        cell_le(self.pos, other.pos)
    }

    fn same(&self, other: &Self) -> (r: bool) {
        self.pos.0 == other.pos.0 && self.pos.1 == other.pos.1
    }

    fn le(&self, other: &Self) -> (r: bool) {
        self.pos.0 < other.pos.0 || (self.pos.0 == other.pos.0 && self.pos.1 <= other.pos.1)
    }

    proof fn lemma_total_order() {
        let r = |a: Self, b: Self| a.le_spec(b);
        assert forall|x: Self, y: Self| #[trigger] r(x, y) && #[trigger] r(y, x) implies x == y by {
            assert(x.pos == y.pos);
        }
    }
}

impl Ordered for Mushroom {
    open spec fn le_spec(self, other: Self) -> bool {
        cell_le(self.pos, other.pos)
    }

    fn same(&self, other: &Self) -> (r: bool) {
        self.pos.0 == other.pos.0 && self.pos.1 == other.pos.1
    }

    fn le(&self, other: &Self) -> (r: bool) {
        self.pos.0 < other.pos.0 || (self.pos.0 == other.pos.0 && self.pos.1 <= other.pos.1)
    }

    proof fn lemma_total_order() {
        let r = |a: Self, b: Self| a.le_spec(b);
        assert forall|x: Self, y: Self| #[trigger] r(x, y) && #[trigger] r(y, x) implies x == y by {
            assert(x.pos == y.pos);
        }
    }
}

impl Ordered for Fox {
    open spec fn le_spec(self, other: Self) -> bool {
        if self.pos1 == other.pos1 {
            cell_le(self.pos2, other.pos2)
        } else {
            cell_le(self.pos1, other.pos1)
        }
    }

    fn same(&self, other: &Self) -> (r: bool) {
        self.pos1.0 == other.pos1.0 && self.pos1.1 == other.pos1.1 && self.pos2.0 == other.pos2.0
            && self.pos2.1 == other.pos2.1
    }

    fn le(&self, other: &Self) -> (r: bool) {
        if self.pos1.0 == other.pos1.0 && self.pos1.1 == other.pos1.1 {
            self.pos2.0 < other.pos2.0 || (self.pos2.0 == other.pos2.0 && self.pos2.1
                <= other.pos2.1)
        } else {
            self.pos1.0 < other.pos1.0 || (self.pos1.0 == other.pos1.0 && self.pos1.1
                <= other.pos1.1)
        }
    }

    proof fn lemma_total_order() {
        let r = |a: Self, b: Self| a.le_spec(b);
        assert forall|x: Self, y: Self| #[trigger] r(x, y) && #[trigger] r(y, x) implies x == y by {
            assert(x.pos1 == y.pos1);
            assert(x.pos2 == y.pos2);
        }
    }
}

/// An element-by-element copy.
pub fn copy_vec<T: Ordered>(v: &Vec<T>) -> (r: Vec<T>)
    ensures
        r@ == v@,
{
    let mut r: Vec<T> = Vec::new();
    let mut i: usize = 0;
    while i < v.len()
        invariant
            i <= v.len(),
            r@ == v@.take(i as int),
        decreases v.len() - i,
    {
        r.push(v[i]);
        i = i + 1;
        assert(r@ =~= v@.take(i as int));
    }
    assert(v@.take(i as int) =~= v@);
    r
}

/// A copy without the elements equal to `x`.
pub fn copy_without<T: Ordered>(v: &Vec<T>, x: &T) -> (r: Vec<T>)
    ensures
        r@ == without(v@, *x),
{
    let mut r: Vec<T> = Vec::new();
    let mut i: usize = 0;
    while i < v.len()
        invariant
            i <= v.len(),
            r@ == without(v@.take(i as int), *x),
        decreases v.len() - i,
    {
        proof {
            assert(v@.take(i + 1).drop_last() =~= v@.take(i as int));
        }
        if !v[i].same(x) {
            r.push(v[i]);
        }
        i = i + 1;
    }
    assert(v@.take(i as int) =~= v@);
    r
}

pub proof fn lemma_sorted_insert<T: Ordered>(s: Seq<T>, j: int, x: T)
    requires
        total_ordering(leq::<T>()),
        sorted_by(s, leq::<T>()),
        0 <= j <= s.len(),
        forall|k: int| 0 <= k < j ==> (#[trigger] s[k]).le_spec(x),
        j < s.len() ==> !s[j].le_spec(x),
    ensures
        sorted_by(s.insert(j, x), leq::<T>()),
{
    let t = s.insert(j, x);
    let f = leq::<T>();
    assert forall|a: int, b: int| 0 <= a < b < t.len() implies #[trigger] f(t[a], t[b]) by {
        if b < j {
            assert(f(s[a], s[b]));
        } else if b == j {
            assert(s[a].le_spec(x));
        } else if a == j {
            assert(f(s[j], x) || f(x, s[j]));
            if b - 1 > j {
                assert(f(s[j], s[b - 1]));
            }
        } else if a < j {
            assert(f(s[a], s[b - 1]));
        } else {
            assert(f(s[a - 1], s[b - 1]));
        }
    }
}

/// A sorted copy: the same elements in increasing order.
pub fn sorted_copy<T: Ordered>(v: &Vec<T>) -> (r: Vec<T>)
    ensures
        sorted_by(r@, leq::<T>()),
        r@.to_multiset() == v@.to_multiset(),
        r@ == v@.sort_by(leq::<T>()),
{
    proof {
        T::lemma_total_order();
    }
    let mut r: Vec<T> = Vec::new();
    let mut i: usize = 0;
    while i < v.len()
        invariant
            total_ordering(leq::<T>()),
            i <= v.len(),
            sorted_by(r@, leq::<T>()),
            r@.to_multiset() == v@.take(i as int).to_multiset(),
        decreases v.len() - i,
    {
        let x = v[i];
        let mut j: usize = 0;
        while j < r.len() && r[j].le(&x)
            invariant
                j <= r.len(),
                forall|k: int| 0 <= k < j ==> (#[trigger] r@[k]).le_spec(x),
            decreases r.len() - j,
        {
            j = j + 1;
        }
        proof {
            lemma_sorted_insert(r@, j as int, x);
            vstd::seq_lib::to_multiset_insert(r@, j as int, x);
            assert(v@.take(i + 1) =~= v@.take(i as int).push(x));
        }
        r.insert(j, x);
        i = i + 1;
    }
    assert(v@.take(i as int) =~= v@);
    proof {
        v@.lemma_sort_by_ensures(leq::<T>());
        vstd::seq_lib::lemma_sorted_unique(r@, v@.sort_by(leq::<T>()), leq::<T>());
    }
    r
}

} // verus!
