//! Lemmas about sequences that the index structures share: concatenation of a
//! sequence of blocks, filtering, and sums.
use vstd::prelude::*;
use vstd::seq_lib::lemma_flatten_concat;

verus! {

/// Sum of a sequence of natural numbers.
pub open spec fn sum(s: Seq<nat>) -> nat
    decreases s.len(),
{
    if s.len() == 0 {
        0
    } else {
        sum(s.drop_last()) + s.last()
    }
}

/// The sum of a concatenation is the sum of the sums.
pub proof fn lemma_sum_concat(a: Seq<nat>, b: Seq<nat>)
    ensures
        sum(a + b) == sum(a) + sum(b),
    decreases b.len(),
{
    if b.len() == 0 {
        assert(a + b =~= a);
    } else {
        assert((a + b).drop_last() =~= a + b.drop_last());
        lemma_sum_concat(a, b.drop_last());
    }
}

/// A sum is that of the numbers before a place, the number there, and the
/// numbers after it.
pub proof fn lemma_sum_split(s: Seq<nat>, i: int)
    requires
        0 <= i < s.len(),
    ensures
        sum(s) == sum(s.take(i)) + s[i] + sum(s.skip(i + 1)),
{
    assert(s =~= s.take(i) + seq![s[i]] + s.skip(i + 1));
    lemma_sum_concat(s.take(i) + seq![s[i]], s.skip(i + 1));
    lemma_sum_concat(s.take(i), seq![s[i]]);
    assert(seq![s[i]].drop_last() =~= Seq::<nat>::empty());
    assert(sum(seq![s[i]]) == s[i]) by {
        reveal_with_fuel(sum, 2);
    }
}

/// Replacing a number changes the sum by the difference.
pub proof fn lemma_sum_update(s: Seq<nat>, i: int, x: nat)
    requires
        0 <= i < s.len(),
    ensures
        sum(s.update(i, x)) == sum(s) - s[i] + x,
{
    let t = s.update(i, x);
    lemma_sum_split(s, i);
    lemma_sum_split(t, i);
    assert(t.take(i) =~= s.take(i));
    assert(t.skip(i + 1) =~= s.skip(i + 1));
}

/// Removing a number takes it from the sum.
pub proof fn lemma_sum_remove(s: Seq<nat>, i: int)
    requires
        0 <= i < s.len(),
    ensures
        sum(s.remove(i)) == sum(s) - s[i],
{
    lemma_sum_split(s, i);
    assert(s.remove(i) =~= s.take(i) + s.skip(i + 1));
    lemma_sum_concat(s.take(i), s.skip(i + 1));
}

/// A block of a concatenation sits between the blocks before it and the blocks
/// after it.
pub proof fn lemma_flatten_split<A>(ss: Seq<Seq<A>>, i: int)
    requires
        0 <= i < ss.len(),
    ensures
        ss.flatten() == ss.take(i).flatten() + ss[i] + ss.skip(i + 1).flatten(),
{
    assert(ss =~= ss.take(i) + seq![ss[i]] + ss.skip(i + 1));
    lemma_flatten_concat(ss.take(i) + seq![ss[i]], ss.skip(i + 1));
    lemma_flatten_concat(ss.take(i), seq![ss[i]]);
    seq![ss[i]].lemma_flatten_one_element();
}

/// A concatenation one of whose blocks was replaced.
pub proof fn lemma_flatten_update<A>(ss: Seq<Seq<A>>, i: int, block: Seq<A>)
    requires
        0 <= i < ss.len(),
    ensures
        ss.update(i, block).flatten() == ss.take(i).flatten() + block + ss.skip(i + 1).flatten(),
{
    let tt = ss.update(i, block);
    lemma_flatten_split(tt, i);
    assert(tt.take(i) =~= ss.take(i));
    assert(tt.skip(i + 1) =~= ss.skip(i + 1));
}

/// A concatenation one of whose blocks was removed.
pub proof fn lemma_flatten_remove<A>(ss: Seq<Seq<A>>, i: int)
    requires
        0 <= i < ss.len(),
    ensures
        ss.remove(i).flatten() == ss.take(i).flatten() + ss.skip(i + 1).flatten(),
{
    assert(ss.remove(i) =~= ss.take(i) + ss.skip(i + 1));
    lemma_flatten_concat(ss.take(i), ss.skip(i + 1));
}

/// A concatenation with one more block at the end.
pub proof fn lemma_flatten_append<A>(ss: Seq<Seq<A>>, block: Seq<A>)
    ensures
        ss.push(block).flatten() == ss.flatten() + block,
{
    assert(ss.push(block) =~= ss + seq![block]);
    lemma_flatten_concat(ss, seq![block]);
    seq![block].lemma_flatten_one_element();
}

/// Every item of a concatenation comes from one of its blocks.
pub proof fn lemma_flatten_member<A>(ss: Seq<Seq<A>>, k: int) -> (at: (int, int))
    requires
        0 <= k < ss.flatten().len(),
    ensures
        0 <= at.0 < ss.len(),
        0 <= at.1 < ss[at.0].len(),
        ss[at.0][at.1] == ss.flatten()[k],
    decreases ss.len(),
{
    if ss.len() == 0 {
        (0, 0)
    } else if k < ss.first().len() {
        (0, k)
    } else {
        let rest = lemma_flatten_member(ss.drop_first(), k - ss.first().len());
        (rest.0 + 1, rest.1)
    }
}

/// Filtering keeps a sequence whose items all pass.
pub proof fn lemma_filter_all<A>(s: Seq<A>, pred: spec_fn(A) -> bool)
    requires
        forall|i: int| 0 <= i < s.len() ==> pred(#[trigger] s[i]),
    ensures
        s.filter(pred) == s,
    decreases s.len(),
{
    reveal(Seq::filter);
    if s.len() > 0 {
        lemma_filter_all(s.drop_last(), pred);
        assert(s.drop_last().push(s.last()) =~= s);
    }
}

/// Filtering empties a sequence none of whose items pass.
pub proof fn lemma_filter_none<A>(s: Seq<A>, pred: spec_fn(A) -> bool)
    requires
        forall|i: int| 0 <= i < s.len() ==> !pred(#[trigger] s[i]),
    ensures
        s.filter(pred) == Seq::<A>::empty(),
    decreases s.len(),
{
    reveal(Seq::filter);
    if s.len() > 0 {
        lemma_filter_none(s.drop_last(), pred);
    }
}

/// Filtering the images of a sequence is filtering the sequence by the
/// predicate taken after the map.
pub proof fn lemma_filter_map<A, B>(
    s: Seq<A>,
    f: spec_fn(A) -> B,
    p: spec_fn(B) -> bool,
    q: spec_fn(A) -> bool,
)
    requires
        forall|i: int| 0 <= i < s.len() ==> q(#[trigger] s[i]) == p(f(s[i])),
    ensures
        s.map_values(f).filter(p) == s.filter(q).map_values(f),
    decreases s.len(),
{
    reveal(Seq::filter);
    if s.len() == 0 {
        assert(s.map_values(f) =~= Seq::<B>::empty());
        assert(s.filter(q).map_values(f) =~= Seq::<B>::empty());
    } else {
        lemma_filter_map(s.drop_last(), f, p, q);
        assert(s.map_values(f).drop_last() =~= s.drop_last().map_values(f));
        assert(s.map_values(f).last() == f(s.last()));
        if q(s.last()) {
            assert(s.drop_last().filter(q).push(s.last()).map_values(f)
                =~= s.drop_last().filter(q).map_values(f).push(f(s.last())));
        }
    }
}

/// An item is in the filtered sequence exactly if it is in the sequence and
/// passes.
pub proof fn lemma_filter_contains<A>(s: Seq<A>, pred: spec_fn(A) -> bool, x: A)
    ensures
        s.filter(pred).contains(x) <==> s.contains(x) && pred(x),
    decreases s.len(),
{
    reveal(Seq::filter);
    if s.len() > 0 {
        let head = s.drop_last();
        lemma_filter_contains(head, pred, x);
        if s.filter(pred).contains(x) {
            let k = choose|k: int| 0 <= k < s.filter(pred).len() && s.filter(pred)[k] == x;
            if pred(s.last()) && k == head.filter(pred).len() {
                assert(s[s.len() - 1] == x);
            } else {
                assert(head.filter(pred)[k] == x);
                assert(head.contains(x));
                let j = choose|j: int| 0 <= j < head.len() && head[j] == x;
                assert(s[j] == x);
            }
        }
        if s.contains(x) && pred(x) {
            let j = choose|j: int| 0 <= j < s.len() && s[j] == x;
            if j == s.len() - 1 {
                assert(s.filter(pred)[head.filter(pred).len() as int] == x);
            } else {
                assert(head[j] == x);
                assert(head.contains(x));
                let k = choose|k: int|
                    0 <= k < head.filter(pred).len() && head.filter(pred)[k] == x;
                assert(s.filter(pred)[k] == x);
            }
        }
    }
}

/// Filtering keeps a concatenation whose blocks hold only items that pass.
pub proof fn lemma_filter_flatten_all<A>(ss: Seq<Seq<A>>, pred: spec_fn(A) -> bool)
    requires
        forall|j: int, l: int|
            0 <= j < ss.len() && 0 <= l < ss[j].len() ==> pred(#[trigger] ss[j][l]),
    ensures
        ss.flatten().filter(pred) == ss.flatten(),
{
    assert forall|k: int| 0 <= k < ss.flatten().len() implies pred(#[trigger] ss.flatten()[k]) by {
        let at = lemma_flatten_member(ss, k);
        assert(pred(ss[at.0][at.1]));
    }
    lemma_filter_all(ss.flatten(), pred);
}

/// Filtering empties a concatenation whose blocks hold no item that passes.
pub proof fn lemma_filter_flatten_none<A>(ss: Seq<Seq<A>>, pred: spec_fn(A) -> bool)
    requires
        forall|j: int, l: int|
            0 <= j < ss.len() && 0 <= l < ss[j].len() ==> !pred(#[trigger] ss[j][l]),
    ensures
        ss.flatten().filter(pred) == Seq::<A>::empty(),
{
    assert forall|k: int| 0 <= k < ss.flatten().len() implies !pred(
        #[trigger] ss.flatten()[k],
    ) by {
        let at = lemma_flatten_member(ss, k);
        assert(!pred(ss[at.0][at.1]));
    }
    lemma_filter_none(ss.flatten(), pred);
}

/// Filtering a sequence without duplicates leaves one without duplicates.
pub proof fn lemma_filter_no_duplicates<A>(s: Seq<A>, pred: spec_fn(A) -> bool)
    requires
        s.no_duplicates(),
    ensures
        s.filter(pred).no_duplicates(),
    decreases s.len(),
{
    reveal(Seq::filter);
    if s.len() > 0 {
        let head = s.drop_last();
        lemma_filter_no_duplicates(head, pred);
        if pred(s.last()) {
            let kept = head.filter(pred);
            assert forall|i: int| 0 <= i < kept.len() implies kept[i] != s.last() by {
                assert(kept.contains(kept[i]));
                lemma_filter_contains(head, pred, kept[i]);
                let j = choose|j: int| 0 <= j < head.len() && head[j] == kept[i];
                assert(s[j] == kept[i]);
            }
        }
    }
}

} // verus!
