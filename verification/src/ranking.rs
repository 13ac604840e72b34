//! Ranking: the best `k` of a set of candidates, by score from the highest
//! down, and among equal scores by text from the first on.
use vstd::prelude::*;
use crate::corpus::Term;
use crate::text::text_lt;
use crate::types::IdType;

verus! {

/// Term `a` ranks before term `b`: it has the higher score, or the same
/// score and the text that comes first.
pub open spec fn ranks_before(a: Term, b: Term) -> bool {
    a.1 > b.1 || (a.1 == b.1 && text_lt(a.0, b.0))
}

/// Holds of the terms whose text starts with `prefix`.
pub open spec fn completes(prefix: Seq<char>) -> spec_fn(Term) -> bool {
    |t: Term| prefix.is_prefix_of(t.0)
}

/// The terms of `corpus` whose text starts with `prefix`, in order.
pub open spec fn matching_terms(corpus: Seq<Term>, prefix: Seq<char>) -> Seq<Term> {
    corpus.filter(completes(prefix))
}

/// `result` holds the best `k` of the terms `among`, best first: it holds at
/// most `k` terms, all from `among`, each ranking before the ones after it,
/// and a term of `among` that it leaves out is one that all `k` of its terms
/// rank before.
pub open spec fn is_top_k(result: Seq<Term>, among: Seq<Term>, k: int) -> bool {
    &&& result.len() <= k
    &&& forall|i: int| 0 <= i < result.len() ==> among.contains(#[trigger] result[i])
    &&& forall|i: int, j: int|
        0 <= i < j < result.len() ==> ranks_before(#[trigger] result[i], #[trigger] result[j])
    &&& forall|t: Term| #[trigger]
        among.contains(t) ==> result.contains(t) || (result.len() == k && forall|i: int|
            0 <= i < result.len() ==> ranks_before(#[trigger] result[i], t))
}

/// The best `k` of terms that are pairwise different are `k` terms, or all
/// of them if there are fewer; and where they are as many as the terms they
/// are chosen from, every term is among them.
pub proof fn lemma_top_k_len(result: Seq<Term>, among: Seq<Term>, k: int)
    requires
        is_top_k(result, among, k),
        among.no_duplicates(),
    ensures
        result.len() == if k <= among.len() {
            k
        } else {
            among.len() as int
        },
        among.len() <= k ==> forall|t: Term| among.contains(t) ==> result.contains(t),
{
    assert forall|i: int, j: int| 0 <= i < result.len() && 0 <= j < result.len() && i != j implies
        result[i] != result[j] by {
        if i < j {
            assert(ranks_before(result[i], result[j]));
        } else {
            assert(ranks_before(result[j], result[i]));
        }
    }
    result.unique_seq_to_set();
    among.unique_seq_to_set();
    vstd::seq_lib::seq_to_set_is_finite(result);
    vstd::seq_lib::seq_to_set_is_finite(among);
    assert forall|t: Term| result.to_set().contains(t) implies among.to_set().contains(t) by {
        let i = choose|i: int| 0 <= i < result.len() && result[i] == t;
        assert(among.contains(result[i]));
    }
    vstd::set_lib::lemma_len_subset(result.to_set(), among.to_set());
    if result.len() < k {
        assert forall|t: Term| among.to_set().contains(t) implies result.to_set().contains(t) by {
            assert(among.contains(t));
        }
        assert(result.to_set() =~= among.to_set());
    }
    if among.len() <= k {
        if result.len() == among.len() {
            vstd::set_lib::lemma_subset_equality(result.to_set(), among.to_set());
        }
        assert forall|t: Term| among.contains(t) implies result.contains(t) by {
            assert(among.to_set().contains(t));
            assert(result.to_set().contains(t));
        }
    }
}

/// Of two terms at most one ranks before the other, and none before itself.
pub proof fn lemma_ranks_asymmetric(a: Term, b: Term)
    ensures
        !(ranks_before(a, b) && ranks_before(b, a)),
{
    crate::text::lemma_text_lt_asymmetric(a.0, b.0);
}

/// Two choices of the best `k` agree on their first `n` terms.
proof fn lemma_top_k_agree(a: Seq<Term>, b: Seq<Term>, among: Seq<Term>, k: int, n: int)
    requires
        is_top_k(a, among, k),
        is_top_k(b, among, k),
        a.len() == b.len(),
        0 <= n <= a.len(),
    ensures
        a.take(n) == b.take(n),
    decreases n,
{
    if n == 0 {
        assert(a.take(0) =~= b.take(0));
    } else {
        lemma_top_k_agree(a, b, among, k, n - 1);
        let i = n - 1;
        assert forall|j: int| 0 <= j < i implies a[j] == b[j] by {
            assert(a.take(i)[j] == b.take(i)[j]);
        }
        if a[i] != b[i] {
            lemma_top_k_misplaced(a, b, among, k, i);
            lemma_top_k_misplaced(b, a, among, k, i);
            lemma_ranks_asymmetric(a[i], b[i]);
        }
        assert(a.take(n) =~= b.take(n));
    }
}

/// Where two choices of the best `k` agree before place `i` and differ at
/// it, the term that the second has there ranks before that of the first.
proof fn lemma_top_k_misplaced(a: Seq<Term>, b: Seq<Term>, among: Seq<Term>, k: int, i: int)
    requires
        is_top_k(a, among, k),
        is_top_k(b, among, k),
        a.len() == b.len(),
        0 <= i < a.len(),
        forall|j: int| 0 <= j < i ==> a[j] == b[j],
        a[i] != b[i],
    ensures
        ranks_before(b[i], a[i]),
{
    let x = a[i];
    assert(among.contains(x));
    if b.contains(x) {
        let p = choose|p: int| 0 <= p < b.len() && b[p] == x;
        if p < i {
            assert(ranks_before(a[p], a[i]));
            lemma_ranks_asymmetric(x, x);
        }
        assert(ranks_before(b[i], b[p]));
    }
}

/// The best `k` of the terms are one sequence and no other.
pub proof fn lemma_top_k_unique(a: Seq<Term>, b: Seq<Term>, among: Seq<Term>, k: int)
    requires
        is_top_k(a, among, k),
        is_top_k(b, among, k),
        among.no_duplicates(),
    ensures
        a == b,
{
    lemma_top_k_len(a, among, k);
    lemma_top_k_len(b, among, k);
    lemma_top_k_agree(a, b, among, k, a.len() as int);
    assert(a.take(a.len() as int) =~= a);
    assert(b.take(b.len() as int) =~= b);
}

/// The best terms come with their scores from the highest down.
pub proof fn lemma_top_k_descending(result: Seq<Term>, among: Seq<Term>, k: int)
    requires
        is_top_k(result, among, k),
    ensures
        forall|i: int, j: int| 0 <= i < j < result.len() ==> result[i].1 >= result[j].1,
{
    assert forall|i: int, j: int| 0 <= i < j < result.len() implies result[i].1 >= result[j].1 by {
        assert(ranks_before(result[i], result[j]));
    }
}

/// The identifier `a` ranks before `b`, where `scores[id - 1]` is the score
/// of the identifier `id`: it has the higher score, or the same score and is
/// the smaller.
pub open spec fn outranks(scores: Seq<IdType>, a: IdType, b: IdType) -> bool {
    scores[a - 1] > scores[b - 1] || (scores[a - 1] == scores[b - 1] && a < b)
}

/// `top` holds the best `k` of the identifiers `candidates`, best first.
pub open spec fn is_best(
    top: Seq<IdType>,
    candidates: Seq<IdType>,
    scores: Seq<IdType>,
    k: int,
) -> bool {
    &&& top.len() <= k
    &&& forall|i: int| 0 <= i < top.len() ==> candidates.contains(#[trigger] top[i])
    &&& forall|i: int, j: int|
        0 <= i < j < top.len() ==> outranks(scores, #[trigger] top[i], #[trigger] top[j])
    &&& forall|c: IdType| #[trigger]
        candidates.contains(c) ==> top.contains(c) || (top.len() == k && forall|i: int|
            0 <= i < top.len() ==> outranks(scores, #[trigger] top[i], c))
}

/// Whether the identifier `a` ranks before `b`.
fn ranks_higher(scores: &[IdType], a: IdType, b: IdType) -> (higher: bool)
    requires
        1 <= a <= scores@.len(),
        1 <= b <= scores@.len(),
    ensures
        higher == outranks(scores@, a, b),
{
    let sa = scores[(a - 1) as usize];
    let sb = scores[(b - 1) as usize];
    sa > sb || (sa == sb && a < b)
}

/// Placing a candidate into the best of the candidates so far: at `place`,
/// before the first that it ranks before.
proof fn lemma_placed(
    top: Seq<IdType>,
    seen: Seq<IdType>,
    scores: Seq<IdType>,
    k: int,
    c: IdType,
    place: int,
)
    requires
        is_best(top, seen, scores, k),
        top.len() < k,
        0 <= place <= top.len(),
        forall|i: int| 0 <= i < place ==> outranks(scores, #[trigger] top[i], c),
        place < top.len() ==> outranks(scores, c, top[place]),
    ensures
        is_best(top.insert(place, c), seen.push(c), scores, k),
{
    let grown = top.insert(place, c);
    let all = seen.push(c);
    assert forall|i: int| 0 <= i < grown.len() implies all.contains(#[trigger] grown[i]) by {
        if i == place {
            assert(all[seen.len() as int] == c);
        } else {
            let i0 = if i < place { i } else { i - 1 };
            assert(grown[i] == top[i0]);
            assert(seen.contains(top[i0]));
            let w = choose|w: int| 0 <= w < seen.len() && seen[w] == top[i0];
            assert(all[w] == top[i0]);
        }
    }
    assert forall|i: int, j: int| 0 <= i < j < grown.len() implies outranks(
        scores,
        #[trigger] grown[i],
        #[trigger] grown[j],
    ) by {
        if i == place {
            assert(grown[j] == top[j - 1]);
            if j - 1 > place {
                assert(outranks(scores, top[place], top[j - 1]));
            }
        } else if j == place {
            assert(grown[i] == top[i]);
        } else {
            let i0 = if i < place { i } else { i - 1 };
            let j0 = if j < place { j } else { j - 1 };
            assert(grown[i] == top[i0] && grown[j] == top[j0]);
        }
    }
    assert forall|x: IdType| #[trigger] all.contains(x) implies grown.contains(x) by {
        let w = choose|w: int| 0 <= w < all.len() && all[w] == x;
        if w == seen.len() {
            assert(grown[place] == x);
        } else {
            assert(seen.contains(x));
            assert(top.contains(x));
            let p = choose|p: int| 0 <= p < top.len() && top[p] == x;
            let moved = if p < place { p } else { p + 1 };
            assert(grown[moved] == x);
        }
    }
}

/// Placing a candidate into the best `k` of the candidates so far, which
/// are `k` already, and dropping the last of them.
proof fn lemma_displaced(
    top: Seq<IdType>,
    seen: Seq<IdType>,
    scores: Seq<IdType>,
    k: int,
    c: IdType,
    place: int,
)
    requires
        is_best(top, seen, scores, k),
        top.len() == k,
        0 <= place < top.len(),
        forall|i: int| 0 <= i < place ==> outranks(scores, #[trigger] top[i], c),
        outranks(scores, c, top[place]),
    ensures
        is_best(top.insert(place, c).drop_last(), seen.push(c), scores, k),
{
    let grown = top.insert(place, c);
    let kept = grown.drop_last();
    let all = seen.push(c);
    assert forall|i: int| 0 <= i < kept.len() implies all.contains(#[trigger] kept[i]) by {
        if i == place {
            assert(all[seen.len() as int] == c);
        } else {
            let i0 = if i < place { i } else { i - 1 };
            assert(kept[i] == top[i0]);
            assert(seen.contains(top[i0]));
            let w = choose|w: int| 0 <= w < seen.len() && seen[w] == top[i0];
            assert(all[w] == top[i0]);
        }
    }
    assert forall|i: int, j: int| 0 <= i < j < grown.len() implies outranks(
        scores,
        #[trigger] grown[i],
        #[trigger] grown[j],
    ) by {
        if i == place {
            assert(grown[j] == top[j - 1]);
            if j - 1 > place {
                assert(outranks(scores, top[place], top[j - 1]));
            }
        } else if j == place {
            assert(grown[i] == top[i]);
        } else {
            let i0 = if i < place { i } else { i - 1 };
            let j0 = if j < place { j } else { j - 1 };
            assert(grown[i] == top[i0] && grown[j] == top[j0]);
        }
    }
    assert forall|i: int, j: int| 0 <= i < j < kept.len() implies outranks(
        scores,
        #[trigger] kept[i],
        #[trigger] kept[j],
    ) by {
        assert(kept[i] == grown[i] && kept[j] == grown[j]);
    }
    assert forall|x: IdType| #[trigger] all.contains(x) implies kept.contains(x) || (kept.len()
        == k && forall|i: int| 0 <= i < kept.len() ==> outranks(scores, #[trigger] kept[i], x)) by {
        let w = choose|w: int| 0 <= w < all.len() && all[w] == x;
        if w == seen.len() {
            assert(kept[place] == x);
        } else {
            assert(seen.contains(x));
            if top.contains(x) {
                let p = choose|p: int| 0 <= p < top.len() && top[p] == x;
                if p < k - 1 {
                    let moved = if p < place { p } else { p + 1 };
                    assert(kept[moved] == x);
                } else {
                    assert(grown[k] == x);
                    assert forall|i: int| 0 <= i < kept.len() implies outranks(
                        scores,
                        #[trigger] kept[i],
                        x,
                    ) by {
                        assert(kept[i] == grown[i]);
                    }
                }
            } else {
                assert forall|i: int| 0 <= i < kept.len() implies outranks(
                    scores,
                    #[trigger] kept[i],
                    x,
                ) by {
                    if i == place {
                        assert(outranks(scores, top[place], x));
                    } else {
                        let i0 = if i < place { i } else { i - 1 };
                        assert(kept[i] == top[i0]);
                    }
                }
            }
        }
    }
}

/// A candidate that changes nothing: it is among the best already, or the
/// best are `k` and all rank before it.
proof fn lemma_passed(top: Seq<IdType>, seen: Seq<IdType>, scores: Seq<IdType>, k: int, c: IdType)
    requires
        is_best(top, seen, scores, k),
        top.contains(c) || (top.len() == k && forall|i: int|
            0 <= i < top.len() ==> outranks(scores, #[trigger] top[i], c)),
    ensures
        is_best(top, seen.push(c), scores, k),
{
    let all = seen.push(c);
    assert forall|i: int| 0 <= i < top.len() implies all.contains(#[trigger] top[i]) by {
        assert(seen.contains(top[i]));
        let w = choose|w: int| 0 <= w < seen.len() && seen[w] == top[i];
        assert(all[w] == top[i]);
    }
    assert forall|x: IdType| #[trigger] all.contains(x) implies top.contains(x) || (top.len() == k
        && forall|i: int| 0 <= i < top.len() ==> outranks(scores, #[trigger] top[i], x)) by {
        let w = choose|w: int| 0 <= w < all.len() && all[w] == x;
        if w < seen.len() {
            assert(seen.contains(x));
        }
    }
}

/// The best `k` of the identifiers `candidates`, best first, where
/// `scores[id - 1]` is the score of the identifier `id`. An identifier that
/// occurs several times among the candidates counts once. The best so far
/// are kept in order and each candidate is placed among them, which takes
/// time in proportion to the number of candidates times `k`.
pub fn select_top(candidates: &Vec<IdType>, scores: &[IdType], k: usize) -> (top: Vec<IdType>)
    requires
        forall|i: int|
            0 <= i < candidates@.len() ==> 1 <= #[trigger] candidates@[i] <= scores@.len(),
    ensures
        is_best(top@, candidates@, scores@, k as int),
{
    let mut top: Vec<IdType> = Vec::new();
    let mut n: usize = 0;
    assert(candidates@.take(0) =~= Seq::<IdType>::empty());
    while n < candidates.len()
        invariant
            n <= candidates.len(),
            forall|i: int|
                0 <= i < candidates@.len() ==> 1 <= #[trigger] candidates@[i] <= scores@.len(),
            is_best(top@, candidates@.take(n as int), scores@, k as int),
        decreases candidates.len() - n,
    {
        let c = candidates[n];
        let ghost seen = candidates@.take(n as int);
        assert(candidates@.take(n + 1) =~= seen.push(c));
        assert forall|i: int| 0 <= i < top@.len() implies 1 <= #[trigger] top@[i]
            <= scores@.len() by {
            assert(seen.contains(top@[i]));
        }
        let mut place: usize = 0;
        while place < top.len() && ranks_higher(scores, top[place], c)
            invariant
                place <= top.len(),
                1 <= c <= scores@.len(),
                forall|i: int| 0 <= i < top@.len() ==> 1 <= #[trigger] top@[i] <= scores@.len(),
                forall|i: int| 0 <= i < place ==> outranks(scores@, #[trigger] top@[i], c),
            decreases top.len() - place,
        {
            place += 1;
        }
        if place < top.len() && top[place] == c {
            proof {
                lemma_passed(top@, seen, scores@, k as int, c);
            }
        } else if top.len() < k {
            proof {
                lemma_placed(top@, seen, scores@, k as int, c, place as int);
            }
            top.insert(place, c);
        } else if place < top.len() {
            proof {
                lemma_displaced(top@, seen, scores@, k as int, c, place as int);
            }
            top.insert(place, c);
            top.pop();
        } else {
            proof {
                lemma_passed(top@, seen, scores@, k as int, c);
            }
        }
        n += 1;
    }
    assert(candidates@.take(n as int) =~= candidates@);
    top
}

} // verus!
