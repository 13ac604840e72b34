//! Sorting the positions of a sequence of strings by the text found at each
//! position, with the position itself breaking ties.
use vstd::prelude::*;
use vstd::seq_lib::{to_multiset_build, to_multiset_remove};
use crate::text::{
    bytes_of, common_prefix_len, lemma_bytes_injective, lemma_lcp, lemma_lex_antisymmetric,
    lemma_lex_connected, lemma_lex_transitive, text_le, text_lt, texts_of,
};

verus! {

/// Position `i` comes strictly before position `j`: its text comes first, or
/// the texts are the same and `i` is the smaller.
pub open spec fn term_lt(texts: Seq<Seq<char>>, i: int, j: int) -> bool {
    text_lt(texts[i], texts[j]) || (texts[i] == texts[j] && i < j)
}

/// The positions in `order` come each strictly before the next ones.
pub open spec fn ordered(texts: Seq<Seq<char>>, order: Seq<usize>) -> bool {
    forall|a: int, b: int|
        0 <= a < b < order.len() ==> term_lt(
            texts,
            #[trigger] order[a] as int,
            #[trigger] order[b] as int,
        )
}

/// `order` holds each position from `lo` up to `hi`, and nothing else.
pub open spec fn covers(order: Seq<usize>, lo: int, hi: int) -> bool {
    &&& order.len() == hi - lo
    &&& forall|k: int| 0 <= k < order.len() ==> lo <= #[trigger] order[k] < hi
    &&& forall|i: usize| lo <= i < hi ==> #[trigger] order.contains(i)
}

/// The texts found at the positions of `order`, in that order.
pub open spec fn arranged(texts: Seq<Seq<char>>, order: Seq<usize>) -> Seq<Seq<char>> {
    Seq::new(order.len(), |k: int| texts[order[k] as int])
}

/// The strict order of positions is transitive.
pub proof fn lemma_term_lt_transitive(texts: Seq<Seq<char>>, i: int, j: int, k: int)
    requires
        term_lt(texts, i, j),
        term_lt(texts, j, k),
    ensures
        term_lt(texts, i, k),
{
    let (a, b, c) = (texts[i], texts[j], texts[k]);
    if a == b {
        lemma_lex_connected(bytes_of(a), bytes_of(a));
    }
    if b == c {
        lemma_lex_connected(bytes_of(b), bytes_of(b));
    }
    if a != b && b != c {
        lemma_lex_transitive(bytes_of(a), bytes_of(b), bytes_of(c));
        if a == c {
            lemma_lex_antisymmetric(bytes_of(a), bytes_of(b));
            lemma_bytes_injective(a, b);
        }
    }
}

/// Of two different positions exactly one comes strictly before the other.
pub proof fn lemma_term_lt_connected(texts: Seq<Seq<char>>, i: int, j: int)
    requires
        i != j,
    ensures
        term_lt(texts, i, j) || term_lt(texts, j, i),
        !(term_lt(texts, i, j) && term_lt(texts, j, i)),
{
    let (a, b) = (texts[i], texts[j]);
    lemma_lex_connected(bytes_of(a), bytes_of(b));
    if text_le(a, b) && text_le(b, a) {
        lemma_lex_antisymmetric(bytes_of(a), bytes_of(b));
        lemma_bytes_injective(a, b);
    }
}

/// Positions in strict order are pairwise different.
pub proof fn lemma_ordered_distinct(texts: Seq<Seq<char>>, order: Seq<usize>)
    requires
        ordered(texts, order),
    ensures
        order.no_duplicates(),
{
    assert forall|a: int, b: int| 0 <= a < order.len() && 0 <= b < order.len() && a != b implies
        order[a] != order[b] by {
        if order[a] == order[b] {
            if a < b {
                assert(term_lt(texts, order[a] as int, order[b] as int));
            } else {
                assert(term_lt(texts, order[b] as int, order[a] as int));
            }
        }
    }
}

/// The texts taken in the order of their sorted positions are sorted.
pub proof fn lemma_arranged_sorted(texts: Seq<Seq<char>>, order: Seq<usize>)
    requires
        ordered(texts, order),
    ensures
        forall|a: int, b: int|
            0 <= a < b < order.len() ==> text_le(
                #[trigger] arranged(texts, order)[a],
                #[trigger] arranged(texts, order)[b],
            ),
{
    assert forall|a: int, b: int| 0 <= a < b < order.len() implies text_le(
        #[trigger] arranged(texts, order)[a],
        #[trigger] arranged(texts, order)[b],
    ) by {
        assert(term_lt(texts, order[a] as int, order[b] as int));
        lemma_lex_connected(bytes_of(texts[order[a] as int]), bytes_of(texts[order[a] as int]));
    }
}

/// The texts taken at each position once are the texts, rearranged.
pub proof fn lemma_arranged_multiset(texts: Seq<Seq<char>>, order: Seq<usize>)
    requires
        covers(order, 0, texts.len() as int),
        order.no_duplicates(),
        texts.len() <= usize::MAX,
    ensures
        arranged(texts, order).to_multiset() == texts.to_multiset(),
    decreases texts.len(),
{
    let n = texts.len() as int;
    if n == 0 {
        assert(arranged(texts, order) =~= texts);
    } else {
        let last = (n - 1) as usize;
        assert(order.contains(last));
        let p = choose|p: int| 0 <= p < order.len() && order[p] == last;
        let rest = order.remove(p);
        let fewer = texts.drop_last();
        assert forall|i: usize| 0 <= i < n - 1 implies #[trigger] rest.contains(i) by {
            assert(order.contains(i));
            let q = choose|q: int| 0 <= q < order.len() && order[q] == i;
            if q < p {
                assert(rest[q] == i);
            } else {
                assert(rest[q - 1] == i);
            }
        }
        assert forall|k: int| 0 <= k < rest.len() implies 0 <= #[trigger] rest[k] < n - 1 by {
            let k0 = if k < p { k } else { k + 1 };
            assert(rest[k] == order[k0]);
            assert(order[k0] != order[p]);
        }
        assert(rest.no_duplicates()) by {
            assert forall|a: int, b: int|
                0 <= a < rest.len() && 0 <= b < rest.len() && a != b implies rest[a]
                != rest[b] by {
                let a0 = if a < p { a } else { a + 1 };
                let b0 = if b < p { b } else { b + 1 };
                assert(order[a0] != order[b0]);
            }
        }
        lemma_arranged_multiset(fewer, rest);
        assert(arranged(fewer, rest) =~= arranged(texts, order).remove(p));
        to_multiset_remove(arranged(texts, order), p);
        to_multiset_build(fewer, texts.last());
        assert(fewer.push(texts.last()) =~= texts);
        arranged(texts, order).to_multiset_ensures();
        assert(arranged(texts, order).contains(arranged(texts, order)[p]));
        assert(arranged(texts, order).to_multiset() =~= arranged(
            texts,
            order,
        ).to_multiset().remove(texts.last()).insert(texts.last()));
    }
}

/// Whether the string at position `i` comes strictly before the one at
/// position `j`.
fn term_before(strings: &[String], i: usize, j: usize) -> (before: bool)
    requires
        i < strings.len(),
        j < strings.len(),
    ensures
        before == term_lt(texts_of(strings@), i as int, j as int),
{
    let a = strings[i].as_str().as_bytes();
    let b = strings[j].as_str().as_bytes();
    let n = common_prefix_len(a, b);
    proof {
        let (s, t) = (strings@[i as int]@, strings@[j as int]@);
        assert(texts_of(strings@)[i as int] == s);
        assert(texts_of(strings@)[j as int] == t);
        lemma_lcp(a@, b@);
        if s == t {
            assert(a@ == b@);
        }
        if n == a.len() && n == b.len() {
            assert(a@ =~= b@);
            lemma_bytes_injective(s, t);
        }
    }
    if n == a.len() && n == b.len() {
        i < j
    } else if n == a.len() {
        true
    } else if n == b.len() {
        false
    } else {
        a[n] < b[n]
    }
}

/// Merges two sorted runs of positions that lie side by side into one.
fn merge(
    strings: &[String],
    left: &Vec<usize>,
    right: &Vec<usize>,
    lo: usize,
    mid: usize,
    hi: usize,
) -> (out: Vec<usize>)
    requires
        lo <= mid <= hi <= strings.len(),
        covers(left@, lo as int, mid as int),
        covers(right@, mid as int, hi as int),
        ordered(texts_of(strings@), left@),
        ordered(texts_of(strings@), right@),
    ensures
        covers(out@, lo as int, hi as int),
        ordered(texts_of(strings@), out@),
{
    let ghost texts = texts_of(strings@);
    let mut out: Vec<usize> = Vec::new();
    let mut i: usize = 0;
    let mut j: usize = 0;
    while i < left.len() || j < right.len()
        invariant
            lo <= mid <= hi <= strings.len(),
            texts == texts_of(strings@),
            covers(left@, lo as int, mid as int),
            covers(right@, mid as int, hi as int),
            ordered(texts, left@),
            ordered(texts, right@),
            i <= left.len(),
            j <= right.len(),
            out.len() == i + j,
            forall|k: int| 0 <= k < out.len() ==> lo <= #[trigger] out[k] < hi,
            forall|k: int| 0 <= k < i ==> out@.contains(#[trigger] left[k]),
            forall|k: int| 0 <= k < j ==> out@.contains(#[trigger] right[k]),
            ordered(texts, out@),
            forall|k: int|
                0 <= k < out.len() && i < left.len() ==> term_lt(
                    texts,
                    #[trigger] out[k] as int,
                    left[i as int] as int,
                ),
            forall|k: int|
                0 <= k < out.len() && j < right.len() ==> term_lt(
                    texts,
                    #[trigger] out[k] as int,
                    right[j as int] as int,
                ),
        decreases left.len() - i + right.len() - j,
    {
        let ghost before = out@;
        let take_left = if i < left.len() && j < right.len() {
            term_before(strings, left[i], right[j])
        } else {
            i < left.len()
        };
        if take_left {
            let x = left[i];
            out.push(x);
            proof {
                assert forall|k: int| 0 <= k < i + 1 implies out@.contains(#[trigger] left[k]) by {
                    if k < i {
                        let w = choose|w: int| 0 <= w < before.len() && before[w] == left[k];
                        assert(out@[w] == left[k]);
                    } else {
                        assert(out@[before.len() as int] == left[k]);
                    }
                }
                assert forall|k: int| 0 <= k < j implies out@.contains(#[trigger] right[k]) by {
                    let w = choose|w: int| 0 <= w < before.len() && before[w] == right[k];
                    assert(out@[w] == right[k]);
                }
                assert forall|k: int| 0 <= k < out.len() && i + 1 < left.len() implies term_lt(
                    texts,
                    #[trigger] out[k] as int,
                    left[i + 1] as int,
                ) by {
                    assert(term_lt(texts, left[i as int] as int, left[i + 1] as int));
                    if k < before.len() {
                        lemma_term_lt_transitive(
                            texts,
                            before[k] as int,
                            x as int,
                            left[i + 1] as int,
                        );
                    }
                }
            }
            i += 1;
        } else {
            let x = right[j];
            out.push(x);
            proof {
                if i < left.len() {
                    lemma_term_lt_connected(texts, left[i as int] as int, x as int);
                }
                assert forall|k: int| 0 <= k < j + 1 implies out@.contains(#[trigger] right[k]) by {
                    if k < j {
                        let w = choose|w: int| 0 <= w < before.len() && before[w] == right[k];
                        assert(out@[w] == right[k]);
                    } else {
                        assert(out@[before.len() as int] == right[k]);
                    }
                }
                assert forall|k: int| 0 <= k < i implies out@.contains(#[trigger] left[k]) by {
                    let w = choose|w: int| 0 <= w < before.len() && before[w] == left[k];
                    assert(out@[w] == left[k]);
                }
                assert forall|k: int| 0 <= k < out.len() && j + 1 < right.len() implies term_lt(
                    texts,
                    #[trigger] out[k] as int,
                    right[j + 1] as int,
                ) by {
                    assert(term_lt(texts, right[j as int] as int, right[j + 1] as int));
                    if k < before.len() {
                        lemma_term_lt_transitive(
                            texts,
                            before[k] as int,
                            x as int,
                            right[j + 1] as int,
                        );
                    }
                }
            }
            j += 1;
        }
    }
    proof {
        assert forall|p: usize| lo <= p < hi implies #[trigger] out@.contains(p) by {
            if p < mid {
                assert(left@.contains(p));
                let k = choose|k: int| 0 <= k < left@.len() && left@[k] == p;
                assert(out@.contains(left[k]));
            } else {
                assert(right@.contains(p));
                let k = choose|k: int| 0 <= k < right@.len() && right@[k] == p;
                assert(out@.contains(right[k]));
            }
        }
    }
    out
}

/// Sorts the positions from `lo` up to `hi`.
fn sort_range(strings: &[String], lo: usize, hi: usize) -> (out: Vec<usize>)
    requires
        lo <= hi <= strings.len(),
    ensures
        covers(out@, lo as int, hi as int),
        ordered(texts_of(strings@), out@),
    decreases hi - lo,
{
    if hi - lo == 0 {
        Vec::new()
    } else if hi - lo == 1 {
        let mut out: Vec<usize> = Vec::new();
        out.push(lo);
        assert(out@[0] == lo);
        out
    } else {
        let mid = lo + (hi - lo) / 2;
        let left = sort_range(strings, lo, mid);
        let right = sort_range(strings, mid, hi);
        merge(strings, &left, &right, lo, mid, hi)
    }
}

/// The positions of `strings`, each once, sorted by the text found there in
/// byte-wise lexicographic order; among equal texts the earlier position
/// comes first.
pub fn sorted_order(strings: &[String]) -> (order: Vec<usize>)
    ensures
        covers(order@, 0, strings@.len() as int),
        ordered(texts_of(strings@), order@),
{
    sort_range(strings, 0, strings.len())
}

} // verus!
