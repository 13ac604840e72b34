//! The corpus of an engine: the distinct texts of the strings it was given,
//! in byte-wise lexicographic order, each with the score of its last
//! occurrence. The place of a term in the corpus, counted from 1, is its
//! identifier in every structure of the engine.
use vstd::prelude::*;
use crate::sort::{covers, ordered, sorted_order, term_lt};
use crate::text::{lemma_text_lt_asymmetric, lemma_text_lt_transitive, text_lt, texts_of};
use crate::types::IdType;

verus! {

/// A term: a text and its score.
pub type Term = (Seq<char>, IdType);

/// The texts of a sequence of terms.
pub open spec fn term_texts(corpus: Seq<Term>) -> Seq<Seq<char>> {
    corpus.map_values(|t: Term| t.0)
}

/// Each text comes strictly before the ones after it.
pub open spec fn strictly_sorted(texts: Seq<Seq<char>>) -> bool {
    forall|i: int, j: int|
        0 <= i < j < texts.len() ==> text_lt(#[trigger] texts[i], #[trigger] texts[j])
}

/// Position `i` holds the last occurrence of its text.
pub open spec fn last_of(texts: Seq<Seq<char>>, i: int) -> bool {
    &&& 0 <= i < texts.len()
    &&& forall|j: int| i < j < texts.len() ==> #[trigger] texts[j] != texts[i]
}

/// `term` is one of the strings with the score of that string's last
/// occurrence.
pub open spec fn comes_from(term: Term, texts: Seq<Seq<char>>, scores: Seq<IdType>) -> bool {
    exists|i: int| #[trigger] last_of(texts, i) && term == (texts[i], scores[i])
}

/// `corpus` is the corpus of the strings `texts` with the scores `scores`:
/// its texts are strictly sorted, every string is the text of a term, and
/// every term is a string with the score of that string's last occurrence.
pub open spec fn is_corpus_of(
    corpus: Seq<Term>,
    texts: Seq<Seq<char>>,
    scores: Seq<IdType>,
) -> bool {
    &&& strictly_sorted(term_texts(corpus))
    &&& forall|i: int| 0 <= i < texts.len() ==> term_texts(corpus).contains(#[trigger] texts[i])
    &&& forall|k: int| 0 <= k < corpus.len() ==> comes_from(#[trigger] corpus[k], texts, scores)
}

/// Terms whose texts are strictly sorted are pairwise different.
pub proof fn lemma_sorted_terms_distinct(corpus: Seq<Term>)
    requires
        strictly_sorted(term_texts(corpus)),
    ensures
        corpus.no_duplicates(),
{
    let texts = term_texts(corpus);
    assert forall|i: int, j: int| 0 <= i < corpus.len() && 0 <= j < corpus.len() && i != j implies
        corpus[i] != corpus[j] by {
        assert(texts[i] == corpus[i].0 && texts[j] == corpus[j].0);
        if i < j {
            assert(text_lt(texts[i], texts[j]));
        } else {
            assert(text_lt(texts[j], texts[i]));
        }
    }
}

/// Two corpora of the same strings and scores agree on their first `n`
/// terms, and neither is longer than the other.
proof fn lemma_corpus_agree(
    a: Seq<Term>,
    b: Seq<Term>,
    texts: Seq<Seq<char>>,
    scores: Seq<IdType>,
    n: int,
)
    requires
        is_corpus_of(a, texts, scores),
        is_corpus_of(b, texts, scores),
        0 <= n <= a.len(),
    ensures
        n <= b.len(),
        a.take(n) == b.take(n),
    decreases n,
{
    if n == 0 {
        assert(a.take(0) =~= b.take(0));
    } else {
        lemma_corpus_agree(a, b, texts, scores, n - 1);
        let i = n - 1;
        assert forall|j: int| 0 <= j < i implies a[j] == b[j] by {
            assert(a.take(i)[j] == b.take(i)[j]);
        }
        let p = lemma_corpus_place(a, b, texts, scores, i);
        if p > i {
            let q = lemma_corpus_place(b, a, texts, scores, i);
            let (ta, tb) = (term_texts(a), term_texts(b));
            assert(ta[i] == a[i].0 && tb[i] == b[i].0 && tb[p] == b[p].0 && ta[q] == a[q].0);
            assert(text_lt(tb[i], tb[p]));
            if q > i {
                assert(text_lt(ta[i], ta[q]));
            }
            lemma_text_lt_asymmetric(a[i].0, b[i].0);
        }
        assert(a[i].0 == b[i].0);
        lemma_term_score(a[i], b[i], texts, scores);
        assert(a.take(n) =~= b.take(n));
    }
}

/// Where two corpora agree before place `i`, the text that the first has
/// at place `i` is in the second at place `i` or after it. Returns the
/// place.
proof fn lemma_corpus_place(
    a: Seq<Term>,
    b: Seq<Term>,
    texts: Seq<Seq<char>>,
    scores: Seq<IdType>,
    i: int,
) -> (p: int)
    requires
        is_corpus_of(a, texts, scores),
        is_corpus_of(b, texts, scores),
        0 <= i < a.len(),
        i <= b.len(),
        forall|j: int| 0 <= j < i ==> a[j] == b[j],
    ensures
        i <= p < b.len(),
        b[p].0 == a[i].0,
{
    assert(comes_from(a[i], texts, scores));
    let at = choose|at: int| #[trigger] last_of(texts, at) && a[i] == (texts[at], scores[at]);
    assert(term_texts(b).contains(texts[at]));
    let p = choose|p: int| 0 <= p < term_texts(b).len() && term_texts(b)[p] == texts[at];
    if p < i {
        let ta = term_texts(a);
        assert(ta[p] == a[p].0 && ta[i] == a[i].0);
        assert(text_lt(ta[p], ta[i]));
    }
    p
}

/// Two terms of the same text that come from the same strings and scores
/// have the same score.
proof fn lemma_term_score(a: Term, b: Term, texts: Seq<Seq<char>>, scores: Seq<IdType>)
    requires
        comes_from(a, texts, scores),
        comes_from(b, texts, scores),
        a.0 == b.0,
    ensures
        a == b,
{
    let i = choose|i: int| #[trigger] last_of(texts, i) && a == (texts[i], scores[i]);
    let j = choose|j: int| #[trigger] last_of(texts, j) && b == (texts[j], scores[j]);
    if i < j {
        assert(texts[j] != texts[i]);
    } else if j < i {
        assert(texts[i] != texts[j]);
    }
}

/// The strings and their scores have one corpus and no other.
pub proof fn lemma_corpus_unique(
    a: Seq<Term>,
    b: Seq<Term>,
    texts: Seq<Seq<char>>,
    scores: Seq<IdType>,
)
    requires
        is_corpus_of(a, texts, scores),
        is_corpus_of(b, texts, scores),
    ensures
        a == b,
{
    lemma_corpus_agree(a, b, texts, scores, a.len() as int);
    lemma_corpus_agree(b, a, texts, scores, b.len() as int);
    assert(a.take(a.len() as int) =~= a);
    assert(b.take(b.len() as int) =~= b);
}

/// Some position of `picked` holds the text `text`.
pub open spec fn has_term(texts: Seq<Seq<char>>, picked: Seq<usize>, text: Seq<char>) -> bool {
    exists|p: int| 0 <= p < picked.len() && texts[#[trigger] picked[p] as int] == text
}

/// The text at place `q` of the sorted positions is picked, or is the text
/// at place `k`, which is still to be looked at.
spec fn settled(
    texts: Seq<Seq<char>>,
    order: Seq<usize>,
    picked: Seq<usize>,
    k: int,
    q: int,
) -> bool {
    has_term(texts, picked, texts[order[q] as int]) || (k < order.len() && texts[order[q] as int]
        == texts[order[k] as int])
}

/// In sorted positions, a position whose successor holds another text holds
/// the last occurrence of its text.
proof fn lemma_last_occurrence(texts: Seq<Seq<char>>, order: Seq<usize>, k: int)
    requires
        covers(order, 0, texts.len() as int),
        ordered(texts, order),
        0 <= k < order.len(),
        k + 1 < order.len() ==> texts[order[k + 1] as int] != texts[order[k] as int],
        texts.len() <= usize::MAX,
    ensures
        last_of(texts, order[k] as int),
{
    let here = order[k] as int;
    assert forall|j: int| here < j < texts.len() implies #[trigger] texts[j] != texts[here] by {
        if texts[j] == texts[here] {
            assert(order.contains(j as usize));
            let q = choose|q: int| 0 <= q < order.len() && order[q] == j as usize;
            if q < k {
                assert(term_lt(texts, order[q] as int, order[k] as int));
                lemma_text_lt_asymmetric(texts[j], texts[here]);
            } else if q > k + 1 {
                assert(term_lt(texts, order[k] as int, order[k + 1] as int));
                assert(term_lt(texts, order[k + 1] as int, order[q] as int));
                let next = texts[order[k + 1] as int];
                lemma_text_lt_asymmetric(texts[here], next);
                lemma_text_lt_asymmetric(next, next);
            }
        }
    }
}

/// The positions of the last occurrence of every distinct text, in the
/// order of the texts.
pub fn distinct_terms(strings: &[String]) -> (picked: Vec<usize>)
    ensures
        forall|p: int|
            0 <= p < picked@.len() ==> last_of(texts_of(strings@), #[trigger] picked@[p] as int),
        forall|p: int, q: int|
            0 <= p < q < picked@.len() ==> text_lt(
                texts_of(strings@)[#[trigger] picked@[p] as int],
                texts_of(strings@)[#[trigger] picked@[q] as int],
            ),
        forall|i: int|
            0 <= i < strings@.len() ==> has_term(
                texts_of(strings@),
                picked@,
                #[trigger] texts_of(strings@)[i],
            ),
        picked@.len() <= strings@.len(),
{
    let ghost texts = texts_of(strings@);
    let order = sorted_order(strings);
    assert(texts.len() == strings.len());
    let mut picked: Vec<usize> = Vec::new();
    let mut k: usize = 0;
    while k < order.len()
        invariant
            texts == texts_of(strings@),
            texts.len() <= usize::MAX,
            covers(order@, 0, texts.len() as int),
            ordered(texts, order@),
            k <= order.len(),
            picked@.len() <= k,
            forall|p: int| 0 <= p < picked@.len() ==> last_of(texts, #[trigger] picked@[p] as int),
            forall|p: int, q: int|
                0 <= p < q < picked@.len() ==> text_lt(
                    texts[#[trigger] picked@[p] as int],
                    texts[#[trigger] picked@[q] as int],
                ),
            k < order.len() ==> forall|p: int|
                0 <= p < picked@.len() ==> text_lt(
                    texts[#[trigger] picked@[p] as int],
                    texts[order[k as int] as int],
                ),
            forall|q: int| 0 <= q < k ==> #[trigger] settled(texts, order@, picked@, k as int, q),
        decreases order.len() - k,
    {
        let here = order[k];
        let ghost before = picked@;
        let keep = if k + 1 < order.len() {
            !(strings[order[k + 1]] == strings[here])
        } else {
            true
        };
        proof {
            assert(texts[here as int] == strings@[here as int]@);
            if k + 1 < order.len() {
                assert(texts[order[k + 1] as int] == strings@[order[k + 1] as int]@);
                assert(term_lt(texts, order[k as int] as int, order[k + 1] as int));
            }
        }
        if keep {
            proof {
                lemma_last_occurrence(texts, order@, k as int);
            }
            picked.push(here);
            proof {
                let last = before.len() as int;
                assert(picked@[last] == here);
                if k + 1 < order.len() {
                    let next = texts[order[k + 1] as int];
                    assert forall|p: int| 0 <= p < picked@.len() implies text_lt(
                        texts[#[trigger] picked@[p] as int],
                        next,
                    ) by {
                        if p < last {
                            assert(picked@[p] == before[p]);
                            lemma_text_lt_transitive(
                                texts[before[p] as int],
                                texts[here as int],
                                next,
                            );
                        }
                    }
                }
                assert forall|q: int| 0 <= q < k + 1 implies #[trigger] settled(
                    texts,
                    order@,
                    picked@,
                    k + 1,
                    q,
                ) by {
                    let text = texts[order[q] as int];
                    if q < k {
                        assert(settled(texts, order@, before, k as int, q));
                    }
                    if q < k && has_term(texts, before, text) {
                        let p = choose|p: int|
                            0 <= p < before.len() && texts[#[trigger] before[p] as int] == text;
                        assert(picked@[p] == before[p]);
                    } else {
                        assert(texts[picked@[last] as int] == text);
                    }
                }
            }
        } else {
            proof {
                assert(texts[order[k + 1] as int] == texts[here as int]);
                assert forall|q: int| 0 <= q < k + 1 implies #[trigger] settled(
                    texts,
                    order@,
                    picked@,
                    k + 1,
                    q,
                ) by {
                    if q < k {
                        assert(settled(texts, order@, picked@, k as int, q));
                    }
                }
            }
        }
        k += 1;
    }
    proof {
        assert forall|i: int| 0 <= i < strings@.len() implies has_term(
            texts,
            picked@,
            #[trigger] texts[i],
        ) by {
            assert(order@.contains(i as usize));
            let q = choose|q: int| 0 <= q < order@.len() && order@[q] == i as usize;
            assert(settled(texts, order@, picked@, k as int, q));
        }
    }
    picked
}

} // verus!
