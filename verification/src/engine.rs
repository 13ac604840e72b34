//! What the two engines share: the structures that are built from a sorted
//! list of distinct terms, and the facts that tie them together. The term
//! at place `i` of the list has the identifier `i + 1` in every structure.
use vstd::prelude::*;
use crate::corpus::{strictly_sorted, term_texts, Term};
use crate::front_coding::{all_bytes_of, coded_len};
use crate::index::BlockedInvertedIndex;
use crate::ranking::{completes, is_best, is_top_k, matching_terms, outranks, ranks_before};
use crate::seqs::lemma_filter_contains;
use crate::text::{lemma_text_lt_asymmetric, texts_of};
use crate::trie::{
    entry_ids, lemma_matching_ids, matching, CompletionTrie, Entry, TrieModel,
};
use crate::types::IdType;

verus! {

/// The number of members that a block of an engine's postings takes.
pub const BLOCK_SIZE: usize = 1024;

/// The scores of a sequence of terms.
pub open spec fn term_scores(corpus: Seq<Term>) -> Seq<IdType> {
    corpus.map_values(|t: Term| t.1)
}

/// The entries of a trie are those of the texts: each text once, under the
/// identifier of its place.
pub open spec fn trie_holds(entries: Seq<Entry>, texts: Seq<Seq<char>>) -> bool {
    &&& forall|k: int|
        0 <= k < entries.len() ==> 1 <= (#[trigger] entries[k]).1 <= texts.len() && entries[k].0
            == texts[entries[k].1 - 1]
    &&& forall|k: int, l: int|
        0 <= k < l < entries.len() ==> (#[trigger] entries[k]).1 != (#[trigger] entries[l]).1
    &&& forall|i: int|
        0 <= i < texts.len() ==> entries.contains((#[trigger] texts[i], (i + 1) as IdType))
}

/// The postings hold each of the first `n` identifiers under itself, in a
/// block of its own.
pub open spec fn index_holds(index: BlockedInvertedIndex, n: int) -> bool {
    &&& index.block_count() == n
    &&& forall|id: IdType| #[trigger] index@.contains_key(id) <==> 1 <= id <= n
    &&& forall|id: IdType| 1 <= id <= n ==> #[trigger] index@[id] == seq![seq![id]]
}

/// The trie that holds the first `n` of the texts, stored one after the
/// other, each under the identifier of its place.
pub open spec fn trie_of(texts: Seq<Seq<char>>, n: int) -> TrieModel
    decreases n,
{
    if n <= 0 {
        TrieModel::empty()
    } else {
        trie_of(texts, n - 1).inserted(texts[n - 1], n as IdType)
    }
}

/// What the structures of an engine take in bytes, the dictionary left
/// aside: in the pool the bytes of the texts, an offset for each term and one
/// more, and four bytes for each score; four bytes for each node of the
/// trie; and four bytes for each block of the postings, of which each term
/// has one.
pub open spec fn shared_footprint(corpus: Seq<Term>) -> nat {
    let texts = term_texts(corpus);
    let n = corpus.len();
    (coded_len(all_bytes_of(texts), 1, n as int) + (n + 1) * vstd::layout::size_of::<usize>() + n
        * 4) + trie_of(texts, n as int).node_count() * 4 + n * 4
}

/// The next text stored under the next identifier keeps the trie's entries
/// those of the texts.
proof fn lemma_trie_holds_next(
    entries: Seq<Entry>,
    texts: Seq<Seq<char>>,
    i: int,
    at: int,
)
    requires
        0 <= i < texts.len(),
        i + 1 <= IdType::MAX,
        trie_holds(entries, texts.take(i)),
        0 <= at <= entries.len(),
    ensures
        trie_holds(entries.insert(at, (texts[i], (i + 1) as IdType)), texts.take(i + 1)),
{
    let id = (i + 1) as IdType;
    let after = entries.insert(at, (texts[i], id));
    let old_of = |k: int| if k < at { k } else { k - 1 };
    assert forall|k: int| 0 <= k < after.len() implies 1 <= (#[trigger] after[k]).1 <= i + 1
        && after[k].0 == texts.take(i + 1)[after[k].1 - 1] by {
        if k != at {
            assert(after[k] == entries[old_of(k)]);
            assert(entries[old_of(k)].0 == texts.take(i)[entries[old_of(k)].1 - 1]);
        }
    }
    assert forall|k: int, l: int| 0 <= k < l < after.len() implies (#[trigger] after[k]).1 != (
    #[trigger] after[l]).1 by {
        if k != at {
            assert(after[k] == entries[old_of(k)]);
        }
        if l != at {
            assert(after[l] == entries[old_of(l)]);
        }
    }
    assert forall|j: int| 0 <= j < i + 1 implies after.contains(
        (#[trigger] texts.take(i + 1)[j], (j + 1) as IdType),
    ) by {
        if j == i {
            assert(after[at] == (texts[i], id));
        } else {
            let e = (texts.take(i)[j], (j + 1) as IdType);
            assert(entries.contains(e));
            let k = choose|k: int| 0 <= k < entries.len() && entries[k] == e;
            let k1 = if k < at { k } else { k + 1 };
            assert(after[k1] == e);
        }
    }
}

/// Builds the trie of the terms.
pub fn build_trie(terms: &Vec<String>) -> (trie: CompletionTrie)
    requires
        terms@.len() < IdType::MAX,
    ensures
        trie.wf(),
        trie_holds(trie@, texts_of(terms@)),
        trie.shape() == trie_of(texts_of(terms@), terms@.len() as int),
{
    let ghost texts = texts_of(terms@);
    let mut trie = CompletionTrie::new();
    let mut i: usize = 0;
    assert(texts.take(0) =~= Seq::<Seq<char>>::empty());
    while i < terms.len()
        invariant
            i <= terms.len(),
            terms@.len() < IdType::MAX,
            texts == texts_of(terms@),
            trie.wf(),
            trie_holds(trie@, texts.take(i as int)),
            trie.shape() == trie_of(texts, i as int),
        decreases terms.len() - i,
    {
        let ghost before = trie@;
        trie.insert(terms[i].as_str(), (i + 1) as IdType);
        proof {
            let e = (terms@[i as int]@, (i + 1) as IdType);
            let at = choose|at: int|
                0 <= at <= before.len() && trie@ == #[trigger] before.insert(at, e);
            assert(texts[i as int] == terms@[i as int]@);
            lemma_trie_holds_next(before, texts, i as int, at);
        }
        i += 1;
    }
    assert(texts.take(i as int) =~= texts);
    trie
}

/// Builds the postings of the first `n` identifiers.
pub fn build_index(n: usize) -> (index: BlockedInvertedIndex)
    requires
        n < IdType::MAX,
    ensures
        index.wf(),
        index_holds(index, n as int),
{
    let mut index = BlockedInvertedIndex::new(BLOCK_SIZE);
    let mut i: usize = 0;
    while i < n
        invariant
            i <= n < IdType::MAX,
            index.wf(),
            index_holds(index, i as int),
        decreases n - i,
    {
        let id = (i + 1) as IdType;
        let ghost before = index;
        index.add_doc(id, id);
        proof {
            assert(!before@.contains_key(id));
            assert(before.chain(id) =~= Seq::<Seq<IdType>>::empty());
            assert(index@[id] =~= seq![seq![id]]);
            assert forall|other: IdType| 1 <= other <= i + 1 implies #[trigger] index@[other]
                == seq![seq![other]] by {
                if other != id {
                    assert(before@.contains_key(other));
                    assert(before@[other] == seq![seq![other]]);
                }
            }
        }
        i += 1;
    }
    index
}

/// With the texts in strict order, an identifier ranks before another
/// exactly if its term ranks before the other's.
pub proof fn lemma_rank_by_id(corpus: Seq<Term>, a: IdType, b: IdType)
    requires
        strictly_sorted(term_texts(corpus)),
        1 <= a <= corpus.len(),
        1 <= b <= corpus.len(),
    ensures
        outranks(term_scores(corpus), a, b) <==> ranks_before(corpus[a - 1], corpus[b - 1]),
{
    let texts = term_texts(corpus);
    assert(texts[a - 1] == corpus[a - 1].0 && texts[b - 1] == corpus[b - 1].0);
    lemma_text_lt_asymmetric(texts[a - 1], texts[b - 1]);
    lemma_text_lt_asymmetric(texts[a - 1], texts[a - 1]);
    if a < b {
        assert(crate::text::text_lt(texts[a - 1], texts[b - 1]));
    } else if b < a {
        assert(crate::text::text_lt(texts[b - 1], texts[a - 1]));
    }
}

/// The identifiers that the trie finds under a prefix are those of the
/// terms whose text starts with the prefix.
pub proof fn lemma_candidates(corpus: Seq<Term>, entries: Seq<Entry>, prefix: Seq<char>, id: IdType)
    requires
        trie_holds(entries, term_texts(corpus)),
        corpus.len() < IdType::MAX,
    ensures
        entry_ids(matching(entries, prefix)).contains(id) <==> 1 <= id <= corpus.len()
            && prefix.is_prefix_of(corpus[id - 1].0),
{
    let texts = term_texts(corpus);
    lemma_matching_ids(entries, prefix, id);
    if 1 <= id <= corpus.len() && prefix.is_prefix_of(corpus[id - 1].0) {
        assert(entries.contains((texts[id - 1], ((id - 1) + 1) as IdType)));
        let k = choose|k: int| 0 <= k < entries.len() && entries[k] == (texts[id - 1], id);
        assert(entries[k].1 == id && prefix.is_prefix_of(entries[k].0));
    }
    if entry_ids(matching(entries, prefix)).contains(id) {
        let k = choose|k: int|
            0 <= k < entries.len() && (#[trigger] entries[k]).1 == id && prefix.is_prefix_of(
                entries[k].0,
            );
        assert(entries[k].0 == texts[entries[k].1 - 1]);
    }
}

/// The terms of the best identifiers among those that the trie finds under
/// a prefix are the best of the terms whose text starts with the prefix.
pub proof fn lemma_best_terms(
    corpus: Seq<Term>,
    entries: Seq<Entry>,
    prefix: Seq<char>,
    top: Seq<IdType>,
    result: Seq<Term>,
    k: int,
)
    requires
        strictly_sorted(term_texts(corpus)),
        trie_holds(entries, term_texts(corpus)),
        corpus.len() < IdType::MAX,
        is_best(top, entry_ids(matching(entries, prefix)), term_scores(corpus), k),
        result.len() == top.len(),
        forall|i: int|
            0 <= i < top.len() ==> 1 <= #[trigger] top[i] <= corpus.len() && result[i]
                == corpus[top[i] - 1],
    ensures
        is_top_k(result, matching_terms(corpus, prefix), k),
{
    let candidates = entry_ids(matching(entries, prefix));
    let among = matching_terms(corpus, prefix);
    assert forall|i: int| 0 <= i < result.len() implies among.contains(#[trigger] result[i]) by {
        assert(candidates.contains(top[i]));
        lemma_candidates(corpus, entries, prefix, top[i]);
        assert(corpus.contains(corpus[top[i] - 1]));
        lemma_filter_contains(corpus, completes(prefix), result[i]);
    }
    assert forall|i: int, j: int| 0 <= i < j < result.len() implies ranks_before(
        #[trigger] result[i],
        #[trigger] result[j],
    ) by {
        assert(outranks(term_scores(corpus), top[i], top[j]));
        lemma_rank_by_id(corpus, top[i], top[j]);
    }
    assert forall|t: Term| #[trigger] among.contains(t) implies result.contains(t) || (result.len()
        == k && forall|i: int| 0 <= i < result.len() ==> ranks_before(#[trigger] result[i], t)) by {
        lemma_filter_contains(corpus, completes(prefix), t);
        let at = choose|at: int| 0 <= at < corpus.len() && corpus[at] == t;
        let id = (at + 1) as IdType;
        lemma_candidates(corpus, entries, prefix, id);
        assert(candidates.contains(id));
        if top.contains(id) {
            let p = choose|p: int| 0 <= p < top.len() && top[p] == id;
            assert(result[p] == t);
        } else {
            assert forall|i: int| 0 <= i < result.len() implies ranks_before(
                #[trigger] result[i],
                t,
            ) by {
                assert(outranks(term_scores(corpus), top[i], id));
                lemma_rank_by_id(corpus, top[i], id);
            }
        }
    }
}

} // verus!
