//! A store of postings in blocks of bounded size, chained per key, and two
//! compact containers.
use std::collections::HashMap;
use vstd::prelude::*;
use vstd::slice::slice_subrange;
use crate::footprint::{add_sizes, clamp};
use crate::seqs::{lemma_flatten_append, lemma_flatten_split, lemma_flatten_update, sum};
use crate::sums::{
    lemma_sum_over_agree, lemma_sum_over_empty, lemma_sum_over_insert, lemma_sum_over_update,
    sum_over,
};
use crate::types::IdType;

verus! {

/// A block of the postings of one key. `next` is the block that follows it
/// in the key's chain.
struct Block {
    term_id: IdType,
    num_docs: usize,
    docs: Vec<IdType>,
    next: Option<usize>,
}

impl Block {
    /// Creates an empty block for `term_id`, the last of its chain.
    fn new(term_id: IdType) -> (block: Self)
        ensures
            block.term_id == term_id,
            block.num_docs == 0,
            block.docs@ == Seq::<IdType>::empty(),
            block.next is None,
    {
        Self { term_id, num_docs: 0, docs: Vec::new(), next: None }
    }

    /// Appends a member.
    fn add_doc(&mut self, doc_id: IdType)
        requires
            old(self).num_docs == old(self).docs@.len(),
        ensures
            final(self).term_id == old(self).term_id,
            final(self).next == old(self).next,
            final(self).docs@ == old(self).docs@.push(doc_id),
            final(self).num_docs == final(self).docs@.len(),
    {
        self.docs.push(doc_id);
        self.num_docs = self.docs.len();
    }

    /// The number of members.
    fn size(&self) -> (n: usize)
        ensures
            n == self.num_docs,
    {
        self.num_docs
    }
}

/// The chain of a key after `member` was added to it: the last block takes
/// the member if the chain has a block and the last one holds fewer than
/// `capacity` members, else a new block with the member alone follows.
pub open spec fn appended(chain: Seq<Seq<IdType>>, member: IdType, capacity: int) -> Seq<
    Seq<IdType>,
> {
    if chain.len() > 0 && chain.last().len() < capacity {
        chain.update(chain.len() - 1, chain.last().push(member))
    } else {
        chain.push(seq![member])
    }
}

/// The number of blocks of the chain of each key.
pub open spec fn chain_lens(store: Map<IdType, Seq<Seq<IdType>>>) -> spec_fn(IdType) -> nat {
    |key: IdType| store[key].len()
}

/// The number of members of each key.
pub open spec fn member_counts(store: Map<IdType, Seq<Seq<IdType>>>) -> spec_fn(IdType) -> nat {
    |key: IdType| store[key].flatten().len()
}

/// A chain has one member more after a member was added to it.
pub proof fn lemma_appended_members(chain: Seq<Seq<IdType>>, member: IdType, capacity: int)
    ensures
        appended(chain, member, capacity).flatten().len() == chain.flatten().len() + 1,
{
    if chain.len() > 0 && chain.last().len() < capacity {
        let at = chain.len() - 1;
        lemma_flatten_update(chain, at, chain.last().push(member));
        lemma_flatten_split(chain, at);
    } else {
        lemma_flatten_append(chain, seq![member]);
    }
}

/// Every block of the chain but the last is full, and the last holds at
/// least one member and at most `capacity`.
pub open spec fn packed(chain: Seq<Seq<IdType>>, capacity: int) -> bool {
    &&& chain.len() > 0
    &&& forall|j: int| 0 <= j < chain.len() - 1 ==> (#[trigger] chain[j]).len() == capacity
    &&& 0 < chain.last().len() <= capacity
}

/// From block `at` on the links lead through blocks of `key`, each full,
/// to the block `last`, which ends the chain.
spec fn linked(blocks: Seq<Block>, at: int, key: IdType, capacity: int, last: int) -> bool
    decreases blocks.len() - at,
{
    &&& 0 <= at < blocks.len()
    &&& blocks[at].term_id == key
    &&& blocks[at].num_docs == blocks[at].docs@.len()
    &&& match blocks[at].next {
        None => at == last && 0 < blocks[at].docs@.len() <= capacity,
        Some(n) => at < n < blocks.len() && blocks[at].docs@.len() == capacity && linked(
            blocks,
            n as int,
            key,
            capacity,
            last,
        ),
    }
}

/// The members of the blocks from block `at` on, block by block.
spec fn chain_of(blocks: Seq<Block>, at: int) -> Seq<Seq<IdType>>
    decreases blocks.len() - at,
{
    if 0 <= at < blocks.len() {
        match blocks[at].next {
            None => seq![blocks[at].docs@],
            Some(n) => if at < n < blocks.len() {
                seq![blocks[at].docs@] + chain_of(blocks, n as int)
            } else {
                seq![blocks[at].docs@]
            },
        }
    } else {
        Seq::empty()
    }
}

/// The number of members of each block.
spec fn block_sizes(blocks: Seq<Block>) -> Seq<nat> {
    Seq::new(blocks.len(), |i: int| blocks[i].docs@.len())
}

/// A chain ends at or after each of its blocks, in a block without
/// successor, and is packed.
proof fn lemma_linked(blocks: Seq<Block>, at: int, key: IdType, capacity: int, last: int)
    requires
        linked(blocks, at, key, capacity, last),
    ensures
        at <= last < blocks.len(),
        blocks[last].next is None,
        blocks[last].term_id == key,
        blocks[last].num_docs == blocks[last].docs@.len(),
        0 < blocks[last].docs@.len() <= capacity,
        chain_of(blocks, at).len() > 0,
        chain_of(blocks, at).last() == blocks[last].docs@,
        packed(chain_of(blocks, at), capacity),
    decreases blocks.len() - at,
{
    match blocks[at].next {
        None => {},
        Some(n) => {
            lemma_linked(blocks, n as int, key, capacity, last);
            let rest = chain_of(blocks, n as int);
            let chain = chain_of(blocks, at);
            assert(chain == seq![blocks[at].docs@] + rest);
            assert forall|j: int| 0 <= j < chain.len() - 1 implies (#[trigger] chain[j]).len()
                == capacity by {
                if j > 0 {
                    assert(chain[j] == rest[j - 1]);
                }
            }
        },
    }
}

/// A chain stays what it is when the blocks of other keys change and blocks
/// are added.
proof fn lemma_chain_frame(
    blocks: Seq<Block>,
    after: Seq<Block>,
    at: int,
    key: IdType,
    capacity: int,
    last: int,
)
    requires
        linked(blocks, at, key, capacity, last),
        after.len() >= blocks.len(),
        forall|i: int|
            0 <= i < blocks.len() && (#[trigger] blocks[i]).term_id == key ==> after[i]
                == blocks[i],
    ensures
        linked(after, at, key, capacity, last),
        chain_of(after, at) == chain_of(blocks, at),
    decreases blocks.len() - at,
{
    assert(after[at] == blocks[at]);
    match blocks[at].next {
        None => {},
        Some(n) => {
            lemma_chain_frame(blocks, after, n as int, key, capacity, last);
        },
    }
}

/// A member pushed into the last block of a chain, which had room.
proof fn lemma_chain_push(
    blocks: Seq<Block>,
    after: Seq<Block>,
    at: int,
    key: IdType,
    capacity: int,
    last: int,
    member: IdType,
)
    requires
        linked(blocks, at, key, capacity, last),
        blocks[last].docs@.len() < capacity,
        after.len() == blocks.len(),
        forall|i: int| 0 <= i < blocks.len() && i != last ==> #[trigger] after[i] == blocks[i],
        after[last].term_id == blocks[last].term_id,
        after[last].next == blocks[last].next,
        after[last].docs@ == blocks[last].docs@.push(member),
        after[last].num_docs == after[last].docs@.len(),
    ensures
        linked(after, at, key, capacity, last),
        chain_of(after, at) == appended(chain_of(blocks, at), member, capacity),
    decreases blocks.len() - at,
{
    lemma_linked(blocks, at, key, capacity, last);
    match blocks[at].next {
        None => {
            assert(chain_of(after, at) =~= appended(chain_of(blocks, at), member, capacity));
        },
        Some(n) => {
            lemma_linked(blocks, n as int, key, capacity, last);
            lemma_chain_push(blocks, after, n as int, key, capacity, last, member);
            assert(after[at] == blocks[at]);
            let rest = chain_of(blocks, n as int);
            assert((seq![blocks[at].docs@] + rest).last() == rest.last());
            assert(chain_of(after, at) =~= appended(chain_of(blocks, at), member, capacity));
        },
    }
}

/// A new block with one member linked behind the last block of a chain,
/// which was full.
proof fn lemma_chain_link(
    blocks: Seq<Block>,
    after: Seq<Block>,
    at: int,
    key: IdType,
    capacity: int,
    last: int,
    member: IdType,
)
    requires
        linked(blocks, at, key, capacity, last),
        capacity >= 1,
        blocks[last].docs@.len() >= capacity,
        after.len() == blocks.len() + 1,
        forall|i: int| 0 <= i < blocks.len() && i != last ==> #[trigger] after[i] == blocks[i],
        after[last].term_id == blocks[last].term_id,
        after[last].next == Some(blocks.len() as usize),
        after[last].docs@ == blocks[last].docs@,
        after[last].num_docs == blocks[last].num_docs,
        blocks.len() <= usize::MAX,
        after[blocks.len() as int].term_id == key,
        after[blocks.len() as int].next is None,
        after[blocks.len() as int].docs@ == seq![member],
        after[blocks.len() as int].num_docs == 1,
    ensures
        linked(after, at, key, capacity, blocks.len() as int),
        chain_of(after, at) == appended(chain_of(blocks, at), member, capacity),
    decreases blocks.len() - at,
{
    lemma_linked(blocks, at, key, capacity, last);
    let fresh = blocks.len() as int;
    assert(linked(after, fresh, key, capacity, fresh));
    assert(chain_of(after, fresh) =~= seq![seq![member]]);
    match blocks[at].next {
        None => {
            assert(linked(after, at, key, capacity, fresh));
            assert(chain_of(after, at) =~= appended(chain_of(blocks, at), member, capacity));
        },
        Some(n) => {
            lemma_linked(blocks, n as int, key, capacity, last);
            lemma_chain_link(blocks, after, n as int, key, capacity, last, member);
            assert(after[at] == blocks[at]);
            let rest = chain_of(blocks, n as int);
            assert((seq![blocks[at].docs@] + rest).last() == rest.last());
            assert(chain_of(after, at) =~= appended(chain_of(blocks, at), member, capacity));
        },
    }
}

/// A store of postings: for each key the members added under it, in the
/// order in which they came, in a chain of blocks. Its value maps each key
/// that has members to the contents of its blocks, in chain order.
pub struct BlockedInvertedIndex {
    blocks: Vec<Block>,
    term_to_block: HashMap<IdType, (usize, usize)>,
    block_size: usize,
}

impl View for BlockedInvertedIndex {
    type V = Map<IdType, Seq<Seq<IdType>>>;

    closed spec fn view(&self) -> Map<IdType, Seq<Seq<IdType>>> {
        Map::new(
            |key: IdType| self.term_to_block@.contains_key(key),
            |key: IdType| chain_of(self.blocks@, self.term_to_block@[key].0 as int),
        )
    }
}

impl BlockedInvertedIndex {
    /// The number of members that a block takes: the block size that the
    /// store was made with, and one if that was zero, since a block always
    /// takes the member it was allocated for.
    pub closed spec fn capacity(&self) -> int {
        if self.block_size == 0 {
            1
        } else {
            self.block_size as int
        }
    }

    /// The number of blocks: those of the chains of all keys.
    pub open spec fn block_count(&self) -> nat {
        sum_over(self@.dom(), chain_lens(self@))
    }

    /// The number of members, over all keys.
    pub open spec fn doc_count(&self) -> nat {
        sum_over(self@.dom(), member_counts(self@))
    }

    /// Each key that has members leads to the first and the last block of
    /// its chain, and every block knows how many members it holds.
    pub closed spec fn wf(&self) -> bool {
        &&& forall|key: IdType| #[trigger]
            self.term_to_block@.contains_key(key) ==> linked(
                self.blocks@,
                self.term_to_block@[key].0 as int,
                key,
                self.capacity(),
                self.term_to_block@[key].1 as int,
            )
        &&& forall|i: int|
            0 <= i < self.blocks@.len() ==> (#[trigger] self.blocks@[i]).num_docs
                == self.blocks@[i].docs@.len()
        &&& self.blocks@.len() == self.block_count()
        &&& sum(block_sizes(self.blocks@)) == self.doc_count()
    }

    /// The members of `key`, in the order in which they came.
    pub open spec fn postings(&self, key: IdType) -> Seq<IdType> {
        if self@.contains_key(key) {
            self@[key].flatten()
        } else {
            Seq::empty()
        }
    }

    /// The chain of `key`; empty if the key has no members.
    pub open spec fn chain(&self, key: IdType) -> Seq<Seq<IdType>> {
        if self@.contains_key(key) {
            self@[key]
        } else {
            Seq::empty()
        }
    }

    /// Creates an empty store whose blocks take `block_size` members.
    pub fn new(block_size: usize) -> (index: Self)
        ensures
            index.wf(),
            index@ == Map::<IdType, Seq<Seq<IdType>>>::empty(),
            index.capacity() == if block_size == 0 {
                1
            } else {
                block_size as int
            },
            index.block_count() == 0,
            index.doc_count() == 0,
    {
        let index = Self { blocks: Vec::new(), term_to_block: HashMap::new(), block_size };
        assert(index@ =~= Map::<IdType, Seq<Seq<IdType>>>::empty());
        assert(block_sizes(index.blocks@) =~= Seq::empty());
        proof {
            assert(index@.dom() =~= Set::<IdType>::empty());
            lemma_sum_over_empty(chain_lens(index@));
            lemma_sum_over_empty(member_counts(index@));
        }
        index
    }

    /// Adds `doc_id` to the members of `term_id`: into the last block of the
    /// key's chain if there is one and it has room, else into a new block
    /// that is chained behind it.
    pub fn add_doc(&mut self, term_id: IdType, doc_id: IdType)
        requires
            old(self).wf(),
        ensures
            final(self).wf(),
            final(self).capacity() == old(self).capacity(),
            final(self)@ == old(self)@.insert(
                term_id,
                appended(old(self).chain(term_id), doc_id, old(self).capacity()),
            ),
            final(self).block_count() == old(self).block_count() + final(self).chain(
                term_id,
            ).len() - old(self).chain(term_id).len(),
            final(self).doc_count() == old(self).doc_count() + 1,
    {
        broadcast use vstd::std_specs::hash::group_hash_axioms;

        let ghost before = self.blocks@;
        let ghost capacity = self.capacity();
        let ghost store = self@;
        let room = if self.block_size == 0 {
            1
        } else {
            self.block_size
        };
        let place = match self.term_to_block.get(&term_id) {
            Some(ends) => Some(*ends),
            None => None,
        };
        match place {
            Some((first, last)) => {
                proof {
                    assert(old(self).term_to_block@.contains_key(term_id));
                    lemma_linked(before, first as int, term_id, capacity, last as int);
                }
                if self.blocks[last].size() < room {
                    self.blocks[last].add_doc(doc_id);
                    proof {
                        lemma_chain_push(
                            before,
                            self.blocks@,
                            first as int,
                            term_id,
                            capacity,
                            last as int,
                            doc_id,
                        );
                        assert(block_sizes(self.blocks@) =~= block_sizes(before).update(
                            last as int,
                            before[last as int].docs@.len() + 1,
                        ));
                        crate::seqs::lemma_sum_update(
                            block_sizes(before),
                            last as int,
                            before[last as int].docs@.len() + 1,
                        );
                    }
                } else {
                    let fresh = self.blocks.len();
                    self.blocks[last].next = Some(fresh);
                    let mut block = Block::new(term_id);
                    block.add_doc(doc_id);
                    self.blocks.push(block);
                    self.term_to_block.insert(term_id, (first, fresh));
                    proof {
                        lemma_chain_link(
                            before,
                            self.blocks@,
                            first as int,
                            term_id,
                            capacity,
                            last as int,
                            doc_id,
                        );
                        assert(block_sizes(self.blocks@) =~= block_sizes(before).push(1));
                        assert(block_sizes(before).push(1).drop_last() =~= block_sizes(before));
                    }
                }
            },
            None => {
                let fresh = self.blocks.len();
                let mut block = Block::new(term_id);
                block.add_doc(doc_id);
                self.blocks.push(block);
                self.term_to_block.insert(term_id, (fresh, fresh));
                proof {
                    assert(linked(self.blocks@, fresh as int, term_id, capacity, fresh as int));
                    assert(chain_of(self.blocks@, fresh as int) =~= seq![seq![doc_id]]);
                    assert(block_sizes(self.blocks@) =~= block_sizes(before).push(1));
                    assert(block_sizes(before).push(1).drop_last() =~= block_sizes(before));
                }
            },
        }
        proof {
            assert forall|key: IdType| #[trigger]
                self.term_to_block@.contains_key(key) && key != term_id implies linked(
                self.blocks@,
                self.term_to_block@[key].0 as int,
                key,
                capacity,
                self.term_to_block@[key].1 as int,
            ) && chain_of(self.blocks@, self.term_to_block@[key].0 as int) == chain_of(
                before,
                old(self).term_to_block@[key].0 as int,
            ) by {
                assert(old(self).term_to_block@.contains_key(key));
                lemma_chain_frame(
                    before,
                    self.blocks@,
                    self.term_to_block@[key].0 as int,
                    key,
                    capacity,
                    self.term_to_block@[key].1 as int,
                );
            }
            assert(self@ =~= old(self)@.insert(
                term_id,
                appended(old(self).chain(term_id), doc_id, capacity),
            ));
            assert(store.dom() =~= old(self).term_to_block@.dom());
            lemma_appended_members(old(self).chain(term_id), doc_id, capacity);
            if store.contains_key(term_id) {
                assert(self@.dom() =~= store.dom());
                lemma_sum_over_update(store.dom(), chain_lens(store), chain_lens(self@), term_id);
                lemma_sum_over_update(
                    store.dom(),
                    member_counts(store),
                    member_counts(self@),
                    term_id,
                );
            } else {
                assert(self@.dom() =~= store.dom().insert(term_id));
                assert(old(self).chain(term_id).flatten() =~= Seq::<IdType>::empty());
                lemma_sum_over_agree(store.dom(), chain_lens(store), chain_lens(self@));
                lemma_sum_over_agree(store.dom(), member_counts(store), member_counts(self@));
                lemma_sum_over_insert(store.dom(), chain_lens(self@), term_id);
                lemma_sum_over_insert(store.dom(), member_counts(self@), term_id);
            }
        }
    }

    /// The members of `term_id`, in the order in which they came: the
    /// contents of the blocks of its chain, one after the other.
    pub fn get_docs(&self, term_id: IdType) -> (docs: Vec<IdType>)
        requires
            self.wf(),
        ensures
            docs@ == self.postings(term_id),
    {
        broadcast use vstd::std_specs::hash::group_hash_axioms;

        let mut docs: Vec<IdType> = Vec::new();
        let place = match self.term_to_block.get(&term_id) {
            Some(ends) => Some(*ends),
            None => None,
        };
        match place {
            None => {},
            Some((first, last)) => {
                let mut at = first;
                let mut more = true;
                assert(self.term_to_block@.contains_key(term_id));
                assert(docs@ + chain_of(self.blocks@, at as int).flatten() =~= chain_of(
                    self.blocks@,
                    first as int,
                ).flatten());
                while more
                    invariant
                        more ==> linked(
                            self.blocks@,
                            at as int,
                            term_id,
                            self.capacity(),
                            last as int,
                        ),
                        more ==> docs@ + chain_of(self.blocks@, at as int).flatten() == chain_of(
                            self.blocks@,
                            first as int,
                        ).flatten(),
                        !more ==> docs@ == chain_of(self.blocks@, first as int).flatten(),
                    decreases self.blocks.len() - at + if more { 1int } else { 0int },
                {
                    let block = &self.blocks[at];
                    let ghost start = docs@;
                    let mut k: usize = 0;
                    while k < block.docs.len()
                        invariant
                            k <= block.docs.len(),
                            docs@ == start + block.docs@.take(k as int),
                        decreases block.docs.len() - k,
                    {
                        docs.push(block.docs[k]);
                        assert(block.docs@.take(k + 1) =~= block.docs@.take(k as int).push(
                            block.docs@[k as int],
                        ));
                        k += 1;
                    }
                    proof {
                        assert(block.docs@.take(k as int) =~= block.docs@);
                        let chain = chain_of(self.blocks@, at as int);
                        assert(chain.first() == block.docs@);
                        match block.next {
                            Some(n) => {
                                assert(chain.drop_first() =~= chain_of(self.blocks@, n as int));
                                assert(start + (block.docs@ + chain.drop_first().flatten())
                                    =~= (start + block.docs@) + chain.drop_first().flatten());
                            },
                            None => {
                                assert(chain.drop_first() =~= Seq::<Seq<IdType>>::empty());
                                assert(start + (block.docs@ + Seq::<IdType>::empty()) =~= start
                                    + block.docs@);
                            },
                        }
                    }
                    match block.next {
                        Some(n) => {
                            at = n;
                        },
                        None => {
                            more = false;
                        },
                    }
                }
            },
        }
        docs
    }

    /// The number of blocks.
    pub fn num_blocks(&self) -> (n: usize)
        requires
            self.wf(),
        ensures
            n == self.block_count(),
    {
        self.blocks.len()
    }

    /// The number of members, over all keys, or the largest `usize` if
    /// there are more.
    pub fn num_docs(&self) -> (n: usize)
        requires
            self.wf(),
        ensures
            n == clamp(self.doc_count() as int),
    {
        let mut n: usize = 0;
        let mut i: usize = 0;
        while i < self.blocks.len()
            invariant
                i <= self.blocks.len(),
                self.wf(),
                n == clamp(sum(block_sizes(self.blocks@).take(i as int)) as int),
            decreases self.blocks.len() - i,
        {
            proof {
                let sizes = block_sizes(self.blocks@);
                assert(sizes.take(i + 1).drop_last() =~= sizes.take(i as int));
                assert(self.blocks@[i as int].num_docs == self.blocks@[i as int].docs@.len());
            }
            n = add_sizes(n, self.blocks[i].size());
            i += 1;
        }
        assert(block_sizes(self.blocks@).take(i as int) =~= block_sizes(self.blocks@));
        n
    }

    /// Discards all blocks.
    pub fn clear(&mut self)
        ensures
            final(self).wf(),
            final(self).capacity() == old(self).capacity(),
            final(self)@ == Map::<IdType, Seq<Seq<IdType>>>::empty(),
            final(self).block_count() == 0,
            final(self).doc_count() == 0,
    {
        broadcast use vstd::std_specs::hash::group_hash_axioms;

        self.blocks.clear();
        self.term_to_block.clear();
        assert(self@ =~= Map::<IdType, Seq<Seq<IdType>>>::empty());
        assert(block_sizes(self.blocks@) =~= Seq::empty());
        proof {
            assert(self@.dom() =~= Set::<IdType>::empty());
            lemma_sum_over_empty(chain_lens(self@));
            lemma_sum_over_empty(member_counts(self@));
        }
    }
}

/// In a store every chain is packed: all its blocks but the last are full,
/// and the last holds at least one member.
pub proof fn lemma_chains_packed(index: BlockedInvertedIndex, key: IdType)
    requires
        index.wf(),
        index@.contains_key(key),
    ensures
        packed(index@[key], index.capacity()),
{
    lemma_linked(
        index.blocks@,
        index.term_to_block@[key].0 as int,
        key,
        index.capacity(),
        index.term_to_block@[key].1 as int,
    );
}

/// A vector of byte strings that all have the same length, kept in one
/// buffer. Its value is the sequence of its elements.
pub struct CompactVector {
    data: Vec<u8>,
    element_size: usize,
    num_elements: usize,
}

impl View for CompactVector {
    type V = Seq<Seq<u8>>;

    closed spec fn view(&self) -> Seq<Seq<u8>> {
        Seq::new(
            self.num_elements as nat,
            |i: int| self.data@.subrange(i * self.element_size, (i + 1) * self.element_size),
        )
    }
}

impl CompactVector {
    /// The buffer holds the elements and nothing else.
    pub closed spec fn wf(&self) -> bool {
        self.data@.len() == self.num_elements * self.element_size
    }

    /// The length that every element has.
    pub closed spec fn width(&self) -> nat {
        self.element_size as nat
    }

    /// Creates an empty vector for elements of `element_size` bytes.
    pub fn new(element_size: usize) -> (vector: Self)
        ensures
            vector.wf(),
            vector.width() == element_size,
            vector@ == Seq::<Seq<u8>>::empty(),
    {
        let vector = Self { data: Vec::new(), element_size, num_elements: 0 };
        assert(vector@ =~= Seq::<Seq<u8>>::empty());
        assert(0 * element_size == 0) by (nonlinear_arith);
        vector
    }

    /// Appends an element, which must have the vector's element size; the
    /// number of elements must still fit in a `usize`.
    pub fn push(&mut self, element: &[u8])
        requires
            old(self).wf(),
            element@.len() == old(self).width(),
            old(self)@.len() < usize::MAX,
        ensures
            final(self).wf(),
            final(self).width() == old(self).width(),
            final(self)@ == old(self)@.push(element@),
    {
        let ghost n = self.num_elements as int;
        let ghost w = self.element_size as int;
        let mut k: usize = 0;
        while k < element.len()
            invariant
                k <= element.len(),
                self.element_size == old(self).element_size,
                self.num_elements == old(self).num_elements,
                self.data@ == old(self).data@ + element@.take(k as int),
            decreases element.len() - k,
        {
            self.data.push(element[k]);
            assert(element@.take(k + 1) =~= element@.take(k as int).push(element@[k as int]));
            k += 1;
        }
        self.num_elements += 1;
        proof {
            assert(element@.take(k as int) =~= element@);
            assert((n + 1) * w == n * w + w) by (nonlinear_arith);
            assert forall|i: int| 0 <= i < n + 1 implies #[trigger] self@[i] == old(self)@.push(
                element@,
            )[i] by {
                assert(0 <= i * w && (i + 1) * w == i * w + w && (i < n ==> (i + 1) * w <= n * w))
                    by (nonlinear_arith)
                    requires
                        0 <= i < n + 1,
                        0 <= w,
                ;
                if i < n {
                    assert(self.data@.subrange(i * w, (i + 1) * w) =~= old(self).data@.subrange(
                        i * w,
                        (i + 1) * w,
                    ));
                } else {
                    assert(self.data@.subrange(n * w, (n + 1) * w) =~= element@);
                }
            }
            assert(self@ =~= old(self)@.push(element@));
        }
    }

    /// The element at `index`, if there is one.
    pub fn get(&self, index: usize) -> (element: Option<&[u8]>)
        requires
            self.wf(),
        ensures
            match element {
                Some(bytes) => index < self@.len() && bytes@ == self@[index as int],
                None => index >= self@.len(),
            },
    {
        if index >= self.num_elements {
            return None;
        }
        proof {
            let i = index as int;
            let n = self.num_elements as int;
            let w = self.element_size as int;
            assert(0 <= i * w && (i + 1) * w == i * w + w && (i + 1) * w <= n * w)
                by (nonlinear_arith)
                requires
                    0 <= i < n,
                    0 <= w,
            ;
            assert(n * w == self.data.len());
        }
        let start = index * self.element_size;
        let end = start + self.element_size;
        Some(slice_subrange(self.data.as_slice(), start, end))
    }

    /// The number of elements.
    pub fn size(&self) -> (n: usize)
        ensures
            n == self@.len(),
    {
        self.num_elements
    }

    /// The number of bytes that the elements take.
    pub fn bytes(&self) -> (n: usize)
        requires
            self.wf(),
        ensures
            n == self@.len() * self.width(),
    {
        self.data.len()
    }
}

/// Whether bit `k` of `byte` is set, counting from the lowest.
pub open spec fn bit_of(byte: u8, k: u8) -> bool {
    byte & (1u8 << k) != 0
}

/// A vector of bits, eight to a byte, the lowest bit first. Its value is the
/// sequence of its bits.
pub struct BitVector {
    data: Vec<u8>,
    num_bits: usize,
}

impl View for BitVector {
    type V = Seq<bool>;

    closed spec fn view(&self) -> Seq<bool> {
        Seq::new(self.num_bits as nat, |i: int| bit_of(self.data@[i / 8], (i % 8) as u8))
    }
}

impl BitVector {
    /// The buffer has a byte for every eight bits, and one for what is left.
    pub closed spec fn wf(&self) -> bool {
        self.data@.len() == (self.num_bits + 7) / 8
    }

    /// Creates a vector of `num_bits` bits, none of them set.
    pub fn new(num_bits: usize) -> (bits: Self)
        ensures
            bits.wf(),
            bits@.len() == num_bits,
            forall|i: int| 0 <= i < num_bits ==> !bits@[i],
    {
        let num_bytes = num_bits / 8 + if num_bits % 8 == 0 {
            0
        } else {
            1
        };
        let bits = Self { data: vec![0u8; num_bytes], num_bits };
        proof {
            assert forall|i: int| 0 <= i < num_bits implies !bits@[i] by {
                let k = (i % 8) as u8;
                assert(0u8 & (1u8 << k) == 0) by (bit_vector);
            }
        }
        bits
    }

    /// Sets the bit at `index`; does nothing if there is no such bit.
    pub fn set(&mut self, index: usize)
        requires
            old(self).wf(),
        ensures
            final(self).wf(),
            final(self)@ == if index < old(self)@.len() {
                old(self)@.update(index as int, true)
            } else {
                old(self)@
            },
    {
        if index < self.num_bits {
            let byte_idx = index / 8;
            let bit_idx = (index % 8) as u8;
            let byte = self.data[byte_idx];
            let mask = 1u8 << bit_idx;
            self.data.set(byte_idx, byte | mask);
            proof {
                assert forall|i: int| 0 <= i < self.num_bits implies #[trigger] self@[i] == old(
                    self,
                )@.update(index as int, true)[i] by {
                    let k = (i % 8) as u8;
                    if i / 8 == byte_idx {
                        assert(k < 8 && bit_idx < 8 ==> (((byte | (1u8 << bit_idx)) & (1u8 << k)
                            != 0) <==> (k == bit_idx || (byte & (1u8 << k) != 0))))
                            by (bit_vector);
                    }
                }
                assert(self@ =~= old(self)@.update(index as int, true));
            }
        }
    }

    /// Clears the bit at `index`; does nothing if there is no such bit.
    pub fn clear(&mut self, index: usize)
        requires
            old(self).wf(),
        ensures
            final(self).wf(),
            final(self)@ == if index < old(self)@.len() {
                old(self)@.update(index as int, false)
            } else {
                old(self)@
            },
    {
        if index < self.num_bits {
            let byte_idx = index / 8;
            let bit_idx = (index % 8) as u8;
            let byte = self.data[byte_idx];
            let mask = 1u8 << bit_idx;
            self.data.set(byte_idx, byte & !mask);
            proof {
                assert forall|i: int| 0 <= i < self.num_bits implies #[trigger] self@[i] == old(
                    self,
                )@.update(index as int, false)[i] by {
                    let k = (i % 8) as u8;
                    if i / 8 == byte_idx {
                        assert(k < 8 && bit_idx < 8 ==> (((byte & !(1u8 << bit_idx)) & (1u8 << k)
                            != 0) <==> (k != bit_idx && (byte & (1u8 << k) != 0))))
                            by (bit_vector);
                    }
                }
                assert(self@ =~= old(self)@.update(index as int, false));
            }
        }
    }

    /// Whether the bit at `index` is set; false if there is no such bit.
    pub fn test(&self, index: usize) -> (on: bool)
        requires
            self.wf(),
        ensures
            on == (index < self@.len() && self@[index as int]),
    {
        if index < self.num_bits {
            let byte_idx = index / 8;
            let bit_idx = (index % 8) as u8;
            (self.data[byte_idx] & (1u8 << bit_idx)) != 0
        } else {
            false
        }
    }

    /// The number of bits.
    pub fn size(&self) -> (n: usize)
        ensures
            n == self@.len(),
    {
        self.num_bits
    }

    /// The number of bytes that the bits take.
    pub fn bytes(&self) -> (n: usize)
        requires
            self.wf(),
        ensures
            n == (self@.len() + 7) / 8,
    {
        self.data.len()
    }
}

} // verus!
