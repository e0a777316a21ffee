//! Keys of positions with a given number of foxes are finitely many: each key has a
//! number below a bound, and distinct keys have distinct numbers.
use vstd::prelude::*;
use crate::state::{StateModel, sort_ids};

verus! {

broadcast use vstd::seq_lib::group_to_multiset_ensures;

pub open spec fn pow257(n: nat) -> nat
    decreases n,
{
    if n == 0 {
        1
    } else {
        257 * pow257((n - 1) as nat)
    }
}

/// A number for a sequence of bytes: one more than the first byte, plus 256 times the
/// number of the rest.
pub open spec fn ids_code(s: Seq<u8>) -> nat
    decreases s.len(),
{
    if s.len() == 0 {
        0
    } else {
        (1 + s[0] + 256 * ids_code(s.drop_first())) as nat
    }
}

/// A number for a key.
pub open spec fn key_code(k: StateModel) -> int {
    k.bunnies + 4294967296 * k.mushrooms + 18446744073709551616 * ids_code(k.foxes)
}

/// Every key with `f` foxes has a number below this bound.
pub open spec fn code_bound(f: nat) -> int {
    18446744073709551616 * (pow257(f) as int)
}

pub proof fn lemma_ids_code_injective(s: Seq<u8>, t: Seq<u8>)
    requires
        ids_code(s) == ids_code(t),
    ensures
        s == t,
    decreases s.len(),
{
    if s.len() == 0 || t.len() == 0 {
        assert(s.len() == 0 && t.len() == 0);
        assert(s =~= t);
    } else {
        lemma_ids_code_injective(s.drop_first(), t.drop_first());
        assert(s =~= seq![s[0]] + s.drop_first());
        assert(t =~= seq![t[0]] + t.drop_first());
    }
}

pub proof fn lemma_ids_code_bound(s: Seq<u8>)
    ensures
        ids_code(s) < pow257(s.len()),
        pow257(s.len()) >= 1,
    decreases s.len(),
{
    if s.len() > 0 {
        lemma_ids_code_bound(s.drop_first());
    }
}

pub proof fn lemma_pow257_monotone(a: nat, b: nat)
    requires
        a <= b,
    ensures
        pow257(a) <= pow257(b),
    decreases b,
{
    if a < b {
        lemma_pow257_monotone(a, (b - 1) as nat);
        lemma_ids_code_bound(Seq::<u8>::empty().push(0u8));
        assert(pow257((b - 1) as nat) >= 1) by {
            lemma_pow257_pos((b - 1) as nat);
        }
    }
}

proof fn lemma_pow257_pos(n: nat)
    ensures
        pow257(n) >= 1,
    decreases n,
{
    if n > 0 {
        lemma_pow257_pos((n - 1) as nat);
    }
}

pub proof fn lemma_key_code(a: StateModel, b: StateModel)
    ensures
        0 <= key_code(a) < code_bound(a.foxes.len()),
        key_code(a) == key_code(b) ==> a == b,
{
    lemma_ids_code_bound(a.foxes);
    if key_code(a) == key_code(b) {
        lemma_ids_code_bound(b.foxes);
        let ca = ids_code(a.foxes) as int;
        let cb = ids_code(b.foxes) as int;
        assert(ca == cb);
        lemma_ids_code_injective(a.foxes, b.foxes);
    }
}

/// Distinct keys, all with `f` foxes, are fewer than the bound.
pub proof fn lemma_distinct_keys_bounded(keys: Seq<StateModel>, f: nat)
    requires
        keys.no_duplicates(),
        forall|i: int| 0 <= i < keys.len() ==> (#[trigger] keys[i]).foxes.len() == f,
    ensures
        keys.len() <= code_bound(f),
{
    let codes = keys.map_values(|k: StateModel| key_code(k));
    assert(codes.no_duplicates()) by {
        assert forall|i: int, j: int|
            0 <= i < codes.len() && 0 <= j < codes.len() && i != j implies codes[i] != codes[j] by {
            lemma_key_code(keys[i], keys[j]);
        }
    }
    codes.unique_seq_to_set();
    vstd::set_lib::lemma_int_range(0, code_bound(f));
    assert(codes.to_set().subset_of(vstd::set_lib::set_int_range(0, code_bound(f)))) by {
        assert forall|c: int| codes.to_set().contains(c) implies vstd::set_lib::set_int_range(
            0,
            code_bound(f),
        ).contains(c) by {
            let i = choose|i: int| 0 <= i < codes.len() && codes[i] == c;
            lemma_key_code(keys[i], keys[i]);
        }
    }
    vstd::set_lib::lemma_len_subset(codes.to_set(), vstd::set_lib::set_int_range(0, code_bound(f)));
}

/// Symmetries keep the number of foxes of a key.
pub proof fn lemma_canonical_len(k: StateModel, n: int)
    ensures
        k.least_image(n).foxes.len() == k.foxes.len(),
    decreases n,
{
    if n > 1 {
        lemma_canonical_len(k, n - 1);
    }
    let s = if n <= 1 {
        0
    } else {
        n - 1
    };
    let mapped = k.foxes.map_values(|f: u8| crate::state::placement_image(f, s));
    <u8 as crate::order::Ordered>::lemma_total_order();
    mapped.lemma_sort_by_ensures(crate::order::leq::<u8>());
    assert(sort_ids(mapped).len() == mapped.len()) by {
        assert(sort_ids(mapped).to_multiset().len() == mapped.to_multiset().len());
    }
    if n > 1 {
        let s0 = 0int;
        let m0 = k.foxes.map_values(|f: u8| crate::state::placement_image(f, s0));
        m0.lemma_sort_by_ensures(crate::order::leq::<u8>());
        assert(sort_ids(m0).to_multiset().len() == m0.to_multiset().len());
    }
}

} // verus!
