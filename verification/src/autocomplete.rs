//! The autocomplete engines. An engine owns a dictionary, a pool of scored
//! strings, a trie and a store of postings, all built from one list of
//! terms and all keyed by the place of a term in that list.
use vstd::prelude::*;
use vstd::relations::sorted_by;
use vstd::seq_lib::lemma_sorted_unique;
use crate::corpus::{
    comes_from, distinct_terms, has_term, is_corpus_of, last_of, lemma_sorted_terms_distinct,
    strictly_sorted, term_texts, Term,
};
use crate::dictionary::{FCDictionary, IntegerFCDictionary, BUCKET_SIZE};
use crate::engine::{
    build_index, build_trie, index_holds, lemma_best_terms, lemma_candidates, shared_footprint,
    term_scores, trie_holds, trie_of,
};
use crate::footprint::{add_sizes, clamp, scale_size};
use crate::front_coding::{all_bytes_of, coded_len};
use crate::index::BlockedInvertedIndex;
use crate::ranking::{completes, is_top_k, lemma_top_k_len, matching_terms, select_top};
use crate::seqs::lemma_filter_no_duplicates;
use crate::string_pool::ScoredStringPool;
use crate::text::{lemma_text_total_order, text_order, texts_of};
use crate::trie::CompletionTrie;
use crate::types::IdType;

verus! {

/// The failure of `init`: the strings and the scores differ in number.
#[derive(Debug, Clone, Copy, PartialEq, Eq)]
pub struct InputMismatch {
    /// The number of strings that were given.
    pub strings: usize,
    /// The number of scores that were given.
    pub scores: usize,
}

/// The completions that a query returned, as terms.
pub open spec fn completions(results: Seq<(String, IdType)>) -> Seq<Term> {
    results.map_values(|r: (String, IdType)| (r.0@, r.1))
}

/// What an engine asks of its dictionary.
pub(crate) trait TermDictionary: Sized {
    /// The strings of the dictionary, in order.
    spec fn texts(&self) -> Seq<Seq<char>>;

    /// The dictionary's invariant.
    spec fn valid(&self) -> bool;

    /// Replaces the contents by `strings`, sorted.
    fn rebuild(&mut self, strings: &[String])
        ensures
            final(self).valid(),
            sorted_by(final(self).texts(), text_order()),
            final(self).texts().to_multiset() == texts_of(strings@).to_multiset(),
    ;

    /// The string with the identifier `id`.
    fn text_of(&self, id: IdType) -> (text: Option<String>)
        requires
            self.valid(),
        ensures
            match text {
                Some(s) => 1 <= id <= self.texts().len() && s@ == self.texts()[id - 1],
                None => id == 0 || id > self.texts().len(),
            },
    ;

    /// The footprint in bytes of a dictionary of this kind that holds
    /// `texts`.
    spec fn footprint_for(texts: Seq<Seq<char>>) -> nat;

    /// The footprint in bytes, or the largest `usize` if it is more.
    fn footprint(&self) -> (n: usize)
        requires
            self.valid(),
        ensures
            n == clamp(Self::footprint_for(self.texts()) as int),
    ;
}

/// The footprint in bytes of a front-coded dictionary of `texts`: two
/// counters, an offset for each text, the first text and the records of the
/// others.
pub open spec fn plain_footprint(texts: Seq<Seq<char>>) -> nat {
    (2 + texts.len()) * vstd::layout::size_of::<usize>() + coded_len(
        all_bytes_of(texts),
        0,
        texts.len() as int,
    )
}

/// The footprint in bytes of a bucketed front-coded dictionary of `texts`:
/// a counter, an offset for each text, the first texts of the buckets and
/// the records of the others.
pub open spec fn bucketed_footprint(texts: Seq<Seq<char>>) -> nat {
    (1 + texts.len()) * vstd::layout::size_of::<usize>() + coded_len(
        all_bytes_of(texts),
        BUCKET_SIZE as int,
        texts.len() as int,
    )
}

impl TermDictionary for FCDictionary {
    open spec fn texts(&self) -> Seq<Seq<char>> {
        self@
    }

    open spec fn valid(&self) -> bool {
        self.wf()
    }

    fn rebuild(&mut self, strings: &[String]) {
        self.build(strings)
    }

    fn text_of(&self, id: IdType) -> (text: Option<String>) {
        self.lookup(id)
    }

    open spec fn footprint_for(texts: Seq<Seq<char>>) -> nat {
        plain_footprint(texts)
    }

    fn footprint(&self) -> (n: usize) {
        self.bytes()
    }
}

impl TermDictionary for IntegerFCDictionary {
    open spec fn texts(&self) -> Seq<Seq<char>> {
        self@
    }

    open spec fn valid(&self) -> bool {
        self.wf()
    }

    fn rebuild(&mut self, strings: &[String]) {
        self.build(strings)
    }

    fn text_of(&self, id: IdType) -> (text: Option<String>) {
        self.lookup(id)
    }

    open spec fn footprint_for(texts: Seq<Seq<char>>) -> nat {
        bucketed_footprint(texts)
    }

    fn footprint(&self) -> (n: usize) {
        self.bytes()
    }
}

/// The four structures of an engine over a dictionary of kind `D`.
pub(crate) struct Engine<D: TermDictionary> {
    string_pool: ScoredStringPool,
    trie: CompletionTrie,
    dictionary: D,
    index: BlockedInvertedIndex,
    num_terms: usize,
}

impl<D: TermDictionary> Engine<D> {
    /// The terms of the engine, in the order of their identifiers.
    pub(crate) closed spec fn corpus(&self) -> Seq<Term> {
        Seq::new(
            self.dictionary.texts().len(),
            |i: int| (self.dictionary.texts()[i], self.string_pool@.scores[i]),
        )
    }

    /// The four structures hold the same terms under the same identifiers.
    pub(crate) closed spec fn wf(&self) -> bool {
        &&& self.num_terms == self.dictionary.texts().len()
        &&& self.num_terms < IdType::MAX
        &&& self.dictionary.valid()
        &&& strictly_sorted(self.dictionary.texts())
        &&& self.string_pool@.holds(self.dictionary.texts())
        &&& self.string_pool@.scores.len() == self.num_terms
        &&& self.trie.wf()
        &&& trie_holds(self.trie@, self.dictionary.texts())
        &&& self.trie.shape() == trie_of(self.dictionary.texts(), self.num_terms as int)
        &&& self.index.wf()
        &&& index_holds(self.index, self.num_terms as int)
    }

    /// An engine over the empty dictionary `dictionary`.
    pub(crate) fn new(dictionary: D) -> (engine: Self)
        requires
            dictionary.valid(),
            dictionary.texts() == Seq::<Seq<char>>::empty(),
        ensures
            engine.wf(),
            engine.corpus() == Seq::<Term>::empty(),
    {
        let engine = Self {
            string_pool: ScoredStringPool::new(),
            trie: CompletionTrie::new(),
            dictionary,
            index: BlockedInvertedIndex::new(crate::engine::BLOCK_SIZE),
            num_terms: 0,
        };
        assert(engine.corpus() =~= Seq::<Term>::empty());
        engine
    }

    /// Rebuilds the engine from `strings` and `scores`.
    pub(crate) fn init(&mut self, strings: &[String], scores: &[IdType]) -> (done: Result<
        (),
        InputMismatch,
    >)
        requires
            old(self).wf(),
            strings@.len() < IdType::MAX,
        ensures
            final(self).wf(),
            match done {
                Ok(_) => strings@.len() == scores@.len() && is_corpus_of(
                    final(self).corpus(),
                    texts_of(strings@),
                    scores@,
                ),
                Err(e) => strings@.len() != scores@.len() && e.strings == strings@.len()
                    && e.scores == scores@.len() && final(self).corpus() == old(self).corpus(),
            },
    {
        if strings.len() != scores.len() {
            return Err(InputMismatch { strings: strings.len(), scores: scores.len() });
        }
        let ghost texts = texts_of(strings@);
        let picked = distinct_terms(strings);
        let mut terms: Vec<String> = Vec::new();
        let mut term_scores: Vec<IdType> = Vec::new();
        let mut p: usize = 0;
        while p < picked.len()
            invariant
                p <= picked.len(),
                strings@.len() == scores@.len(),
                texts == texts_of(strings@),
                forall|q: int|
                    0 <= q < picked@.len() ==> last_of(texts, #[trigger] picked@[q] as int),
                terms@.len() == p,
                term_scores@.len() == p,
                forall|q: int|
                    0 <= q < p ==> (#[trigger] terms@[q])@ == texts[picked@[q] as int]
                        && term_scores@[q] == scores@[picked@[q] as int],
            decreases picked.len() - p,
        {
            let at = picked[p];
            assert(last_of(texts, picked@[p as int] as int));
            assert(texts[at as int] == strings@[at as int]@);
            terms.push(strings[at].clone());
            term_scores.push(scores[at]);
            p += 1;
        }
        let ghost found = texts_of(terms@);
        proof {
            assert forall|a: int, b: int| 0 <= a < b < found.len() implies crate::text::text_lt(
                #[trigger] found[a],
                #[trigger] found[b],
            ) by {
                assert(found[a] == terms@[a]@ && found[b] == terms@[b]@);
            }
        }
        self.dictionary.rebuild(terms.as_slice());
        proof {
            lemma_text_total_order();
            assert(sorted_by(found, text_order()));
            lemma_sorted_unique(self.dictionary.texts(), found, text_order());
            assert(self.dictionary.texts() == found);
        }
        self.trie = build_trie(&terms);
        self.index = build_index(terms.len());
        self.num_terms = terms.len();
        self.string_pool = ScoredStringPool::build(terms.as_slice(), term_scores);
        proof {
            let corpus = self.corpus();
            assert(term_texts(corpus) =~= found);
            assert forall|i: int| 0 <= i < texts.len() implies term_texts(corpus).contains(
                #[trigger] texts[i],
            ) by {
                assert(has_term(texts, picked@, texts[i]));
                let q = choose|q: int|
                    0 <= q < picked@.len() && texts[#[trigger] picked@[q] as int] == texts[i];
                assert(found[q] == terms@[q]@);
                assert(term_texts(corpus)[q] == texts[i]);
            }
            assert forall|k: int| 0 <= k < corpus.len() implies comes_from(
                #[trigger] corpus[k],
                texts,
                scores@,
            ) by {
                assert(found[k] == terms@[k]@);
                assert(last_of(texts, picked@[k] as int));
                assert(corpus[k] == (texts[picked@[k] as int], scores@[picked@[k] as int]));
            }
        }
        Ok(())
    }

    /// The best `k` of the terms whose text starts with `prefix`.
    pub(crate) fn complete(&self, prefix: &str, k: usize) -> (results: Vec<(String, IdType)>)
        requires
            self.wf(),
        ensures
            is_top_k(completions(results@), matching_terms(self.corpus(), prefix@), k as int),
    {
        let ghost corpus = self.corpus();
        let candidates = self.trie.complete(prefix);
        proof {
            assert(term_texts(corpus) =~= self.dictionary.texts());
            assert(term_scores(corpus) =~= self.string_pool@.scores);
            assert forall|i: int| 0 <= i < candidates@.len() implies 1 <= #[trigger] candidates@[i]
                <= self.string_pool@.scores.len() by {
                assert(candidates@.contains(candidates@[i]));
                lemma_candidates(corpus, self.trie@, prefix@, candidates@[i]);
            }
        }
        let top = select_top(&candidates, self.string_pool.scores(), k);
        let mut results: Vec<(String, IdType)> = Vec::new();
        let mut i: usize = 0;
        while i < top.len()
            invariant
                i <= top.len(),
                self.wf(),
                corpus == self.corpus(),
                forall|j: int| 0 <= j < top@.len() ==> 1 <= #[trigger] top@[j] <= corpus.len(),
                results@.len() == i,
                forall|j: int|
                    0 <= j < i ==> (#[trigger] completions(results@)[j]) == corpus[top@[j] - 1],
            decreases top.len() - i,
        {
            let id = top[i];
            let ghost before = results@;
            match self.dictionary.text_of(id) {
                Some(text) => {
                    let score = self.string_pool.get_score((id - 1) as usize);
                    results.push((text, score));
                    proof {
                        assert forall|j: int| 0 <= j < i + 1 implies (#[trigger] completions(
                            results@,
                        )[j]) == corpus[top@[j] - 1] by {
                            if j < i {
                                assert(results@[j] == before[j]);
                                assert(completions(before)[j] == corpus[top@[j] - 1]);
                            }
                        }
                    }
                },
                None => {
                    // Every candidate is an identifier of the dictionary.
                    assert(false);
                },
            }
            i += 1;
        }
        proof {
            lemma_best_terms(
                corpus,
                self.trie@,
                prefix@,
                top@,
                completions(results@),
                k as int,
            );
        }
        results
    }

    /// The number of completions: `k`, or that of the matching terms if they
    /// are fewer.
    pub(crate) proof fn lemma_len(&self, result: Seq<Term>, prefix: Seq<char>, k: int)
        requires
            self.wf(),
            0 <= k,
            is_top_k(result, matching_terms(self.corpus(), prefix), k),
        ensures
            result.len() == if k <= matching_terms(self.corpus(), prefix).len() {
                k
            } else {
                matching_terms(self.corpus(), prefix).len() as int
            },
    {
        let corpus = self.corpus();
        assert(term_texts(corpus) =~= self.dictionary.texts());
        lemma_sorted_terms_distinct(corpus);
        lemma_filter_no_duplicates(corpus, completes(prefix));
        lemma_top_k_len(result, matching_terms(corpus, prefix), k);
    }

    /// The footprint in bytes: those of the pool and of the dictionary, and
    /// four bytes for each node of the trie and for each block of the
    /// postings.
    pub(crate) closed spec fn footprint(&self) -> nat {
        shared_footprint(self.corpus()) + D::footprint_for(term_texts(self.corpus()))
    }

    /// The footprint in bytes, or the largest `usize` if it is more.
    pub(crate) fn bytes(&self) -> (n: usize)
        requires
            self.wf(),
        ensures
            n == clamp(self.footprint() as int),
    {
        proof {
            assert(term_texts(self.corpus()) =~= self.dictionary.texts());
        }
        let pool = self.string_pool.bytes();
        let trie = scale_size(self.trie.num_nodes(), 4);
        let dictionary = self.dictionary.footprint();
        let index = scale_size(self.index.num_blocks(), 4);
        add_sizes(add_sizes(add_sizes(pool, trie), dictionary), index)
    }

    /// The number of terms.
    pub(crate) fn num_terms(&self) -> (n: usize)
        requires
            self.wf(),
        ensures
            n == self.corpus().len(),
    {
        self.num_terms
    }
}

/// An autocomplete engine over a front-coded dictionary. Its value is its
/// corpus: the terms in the byte-wise lexicographic order of their texts,
/// each with its score.
pub struct Autocomplete {
    core: Engine<FCDictionary>,
}

impl View for Autocomplete {
    type V = Seq<Term>;

    closed spec fn view(&self) -> Seq<Term> {
        self.core.corpus()
    }
}

impl Autocomplete {
    /// The dictionary, the pool, the trie and the postings hold the same
    /// terms under the same identifiers.
    pub closed spec fn wf(&self) -> bool {
        self.core.wf()
    }

    /// The footprint in bytes: that of the pool, the trie and the postings,
    /// and that of the dictionary.
    pub open spec fn footprint(&self) -> nat {
        shared_footprint(self@) + plain_footprint(term_texts(self@))
    }

    /// Creates an engine without terms.
    pub fn new() -> (engine: Self)
        ensures
            engine.wf(),
            engine@ == Seq::<Term>::empty(),
    {
        Self { core: Engine::new(FCDictionary::new()) }
    }

    /// Rebuilds the engine from `strings` and `scores`, which must be as
    /// many: the corpus becomes the distinct texts of `strings` in byte-wise
    /// lexicographic order, each with the score of its last occurrence. If
    /// the two differ in number the engine stays as it is. Identifiers are
    /// 32 bits wide, so there must be fewer strings than the largest `u32`.
    pub fn init(&mut self, strings: &[String], scores: &[IdType]) -> (done: Result<
        (),
        InputMismatch,
    >)
        requires
            old(self).wf(),
            strings@.len() < IdType::MAX,
        ensures
            final(self).wf(),
            match done {
                Ok(_) => strings@.len() == scores@.len() && is_corpus_of(
                    final(self)@,
                    texts_of(strings@),
                    scores@,
                ),
                Err(e) => strings@.len() != scores@.len() && e.strings == strings@.len()
                    && e.scores == scores@.len() && final(self)@ == old(self)@,
            },
    {
        self.core.init(strings, scores)
    }

    /// The best `k` of the terms whose text starts with `prefix`, best
    /// first: by score from the highest down, and among equal scores by text
    /// in byte-wise lexicographic order. All such terms if they are fewer
    /// than `k`; none if no text starts with `prefix`.
    pub fn complete(&self, prefix: &str, k: usize) -> (results: Vec<(String, IdType)>)
        requires
            self.wf(),
        ensures
            is_top_k(completions(results@), matching_terms(self@, prefix@), k as int),
            results@.len() == if k <= matching_terms(self@, prefix@).len() {
                k as int
            } else {
                matching_terms(self@, prefix@).len() as int
            },
    {
        let results = self.core.complete(prefix, k);
        proof {
            self.core.lemma_len(completions(results@), prefix@, k as int);
        }
        results
    }

    /// The number of terms.
    pub fn num_terms(&self) -> (n: usize)
        requires
            self.wf(),
        ensures
            n == self@.len(),
    {
        self.core.num_terms()
    }

    /// The footprint in bytes, or the largest `usize` if it is more.
    pub fn bytes(&self) -> (n: usize)
        requires
            self.wf(),
        ensures
            n == clamp(self.footprint() as int),
    {
        self.core.bytes()
    }
}

/// An autocomplete engine over a bucketed front-coded dictionary. Its value
/// is its corpus: the terms in the byte-wise lexicographic order of their
/// texts, each with its score.
pub struct Autocomplete2 {
    core: Engine<IntegerFCDictionary>,
}

impl View for Autocomplete2 {
    type V = Seq<Term>;

    closed spec fn view(&self) -> Seq<Term> {
        self.core.corpus()
    }
}

impl Autocomplete2 {
    /// The dictionary, the pool, the trie and the postings hold the same
    /// terms under the same identifiers.
    pub closed spec fn wf(&self) -> bool {
        self.core.wf()
    }

    /// The footprint in bytes: that of the pool, the trie and the postings,
    /// and that of the dictionary.
    pub open spec fn footprint(&self) -> nat {
        shared_footprint(self@) + bucketed_footprint(term_texts(self@))
    }

    /// Creates an engine without terms.
    pub fn new() -> (engine: Self)
        ensures
            engine.wf(),
            engine@ == Seq::<Term>::empty(),
    {
        Self { core: Engine::new(IntegerFCDictionary::new()) }
    }

    /// Rebuilds the engine from `strings` and `scores`, which must be as
    /// many: the corpus becomes the distinct texts of `strings` in byte-wise
    /// lexicographic order, each with the score of its last occurrence. If
    /// the two differ in number the engine stays as it is. Identifiers are
    /// 32 bits wide, so there must be fewer strings than the largest `u32`.
    pub fn init(&mut self, strings: &[String], scores: &[IdType]) -> (done: Result<
        (),
        InputMismatch,
    >)
        requires
            old(self).wf(),
            strings@.len() < IdType::MAX,
        ensures
            final(self).wf(),
            match done {
                Ok(_) => strings@.len() == scores@.len() && is_corpus_of(
                    final(self)@,
                    texts_of(strings@),
                    scores@,
                ),
                Err(e) => strings@.len() != scores@.len() && e.strings == strings@.len()
                    && e.scores == scores@.len() && final(self)@ == old(self)@,
            },
    {
        self.core.init(strings, scores)
    }

    /// The best `k` of the terms whose text starts with `prefix`, best
    /// first: by score from the highest down, and among equal scores by text
    /// in byte-wise lexicographic order. All such terms if they are fewer
    /// than `k`; none if no text starts with `prefix`.
    pub fn complete(&self, prefix: &str, k: usize) -> (results: Vec<(String, IdType)>)
        requires
            self.wf(),
        ensures
            is_top_k(completions(results@), matching_terms(self@, prefix@), k as int),
            results@.len() == if k <= matching_terms(self@, prefix@).len() {
                k as int
            } else {
                matching_terms(self@, prefix@).len() as int
            },
    {
        let results = self.core.complete(prefix, k);
        proof {
            self.core.lemma_len(completions(results@), prefix@, k as int);
        }
        results
    }

    /// The number of terms.
    pub fn num_terms(&self) -> (n: usize)
        requires
            self.wf(),
        ensures
            n == self@.len(),
    {
        self.core.num_terms()
    }

    /// The footprint in bytes, or the largest `usize` if it is more.
    pub fn bytes(&self) -> (n: usize)
        requires
            self.wf(),
        ensures
            n == clamp(self.footprint() as int),
    {
        self.core.bytes()
    }
}

/// Round trip: a string that an engine was built from is completed from
/// every prefix of it, with the score of its last occurrence, whenever the
/// query asks for at least as many completions as there are terms that
/// match.
pub proof fn lemma_round_trip(
    corpus: Seq<Term>,
    strings: Seq<String>,
    scores: Seq<IdType>,
    i: int,
    prefix: Seq<char>,
    results: Seq<(String, IdType)>,
    k: int,
)
    requires
        is_corpus_of(corpus, texts_of(strings), scores),
        0 <= i < strings.len(),
        prefix.is_prefix_of(strings[i]@),
        is_top_k(completions(results), matching_terms(corpus, prefix), k),
        matching_terms(corpus, prefix).len() <= k,
    ensures
        exists|j: int|
            0 <= j < results.len() && (#[trigger] results[j]).0@ == strings[i]@ && comes_from(
                (results[j].0@, results[j].1),
                texts_of(strings),
                scores,
            ),
{
    let texts = texts_of(strings);
    let among = matching_terms(corpus, prefix);
    assert(term_texts(corpus).contains(texts[i]));
    let q = choose|q: int| 0 <= q < term_texts(corpus).len() && term_texts(corpus)[q] == texts[i];
    let term = corpus[q];
    assert(corpus.contains(term));
    crate::seqs::lemma_filter_contains(corpus, completes(prefix), term);
    lemma_sorted_terms_distinct(corpus);
    lemma_filter_no_duplicates(corpus, completes(prefix));
    lemma_top_k_len(completions(results), among, k);
    assert(completions(results).contains(term));
    let j = choose|j: int| 0 <= j < completions(results).len() && completions(results)[j] == term;
    assert(results[j].0@ == strings[i]@);
    assert(comes_from(corpus[q], texts, scores));
}

/// A prefix that no term starts with has no completions.
pub proof fn lemma_unknown_prefix(
    corpus: Seq<Term>,
    prefix: Seq<char>,
    results: Seq<(String, IdType)>,
    k: int,
)
    requires
        is_top_k(completions(results), matching_terms(corpus, prefix), k),
        forall|i: int| 0 <= i < corpus.len() ==> !prefix.is_prefix_of((#[trigger] corpus[i]).0),
    ensures
        results.len() == 0,
{
    if results.len() > 0 {
        let term = completions(results)[0];
        assert(matching_terms(corpus, prefix).contains(term));
        crate::seqs::lemma_filter_contains(corpus, completes(prefix), term);
        let i = choose|i: int| 0 <= i < corpus.len() && corpus[i] == term;
        assert(!prefix.is_prefix_of(corpus[i].0));
    }
}

} // verus!
