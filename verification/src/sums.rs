//! Sums over the keys of a finite set.
use vstd::prelude::*;
use vstd::set::fold::{is_fun_commutative, lemma_fold_empty, lemma_fold_insert};

verus! {

/// Adding the number of a key to what was counted so far.
pub open spec fn add_term<K>(f: spec_fn(K) -> nat) -> spec_fn(nat, K) -> nat {
    |counted: nat, key: K| counted + f(key)
}

/// The sum of the numbers that `f` gives to the keys.
pub open spec fn sum_over<K>(keys: Set<K>, f: spec_fn(K) -> nat) -> nat {
    keys.fold(0nat, add_term(f))
}

/// Numbers can be added in any order.
proof fn lemma_add_commutative<K>(f: spec_fn(K) -> nat)
    ensures
        is_fun_commutative(add_term(f)),
{
    assert forall|a1: K, a2: K, b: nat| #[trigger]
        add_term(f)(add_term(f)(b, a2), a1) == add_term(f)(add_term(f)(b, a1), a2) by {}
}

/// The sum over no keys is 0.
pub proof fn lemma_sum_over_empty<K>(f: spec_fn(K) -> nat)
    ensures
        sum_over(Set::<K>::empty(), f) == 0,
{
    lemma_fold_empty(0nat, add_term(f));
}

/// One more key adds its number to the sum.
pub proof fn lemma_sum_over_insert<K>(keys: Set<K>, f: spec_fn(K) -> nat, key: K)
    requires
        keys.finite(),
        !keys.contains(key),
    ensures
        sum_over(keys.insert(key), f) == sum_over(keys, f) + f(key),
{
    lemma_add_commutative(f);
    lemma_fold_insert(keys, 0nat, add_term(f), key);
}

/// The sum depends on the numbers of the keys only.
pub proof fn lemma_sum_over_agree<K>(keys: Set<K>, f: spec_fn(K) -> nat, g: spec_fn(K) -> nat)
    requires
        keys.finite(),
        forall|key: K| keys.contains(key) ==> #[trigger] f(key) == g(key),
    ensures
        sum_over(keys, f) == sum_over(keys, g),
    decreases keys.len(),
{
    if keys.len() == 0 {
        assert(keys =~= Set::<K>::empty());
        lemma_sum_over_empty(f);
        lemma_sum_over_empty(g);
    } else {
        let key = keys.choose();
        let rest = keys.remove(key);
        assert(rest.insert(key) =~= keys);
        lemma_sum_over_agree(rest, f, g);
        lemma_sum_over_insert(rest, f, key);
        lemma_sum_over_insert(rest, g, key);
    }
}

/// Where the number of one key changes, the sum changes by as much.
pub proof fn lemma_sum_over_update<K>(
    keys: Set<K>,
    f: spec_fn(K) -> nat,
    g: spec_fn(K) -> nat,
    key: K,
)
    requires
        keys.finite(),
        keys.contains(key),
        forall|other: K| keys.contains(other) && other != key ==> #[trigger] f(other) == g(other),
    ensures
        sum_over(keys, g) + f(key) == sum_over(keys, f) + g(key),
{
    let rest = keys.remove(key);
    assert(rest.insert(key) =~= keys);
    lemma_sum_over_agree(rest, f, g);
    lemma_sum_over_insert(rest, f, key);
    lemma_sum_over_insert(rest, g, key);
}

} // verus!
