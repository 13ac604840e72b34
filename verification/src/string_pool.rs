//! A pool of scored strings: the bytes of all strings one after the other in
//! one buffer, a table of offsets that says where each begins, and the score
//! of each.
use vstd::prelude::*;
use crate::footprint::{add_sizes, clamp, scale_size};
use crate::front_coding::{all_bytes_of, coded_len, push_bytes};
use crate::text::{bytes_of, texts_of};
use crate::types::{ByteRange, IdType};

verus! {

/// A range of bytes of the pool's buffer with the score of the string that
/// lies there.
#[derive(Debug, Clone)]
pub struct ScoredByteRange {
    pub string: ByteRange,
    pub score: IdType,
}

/// The value of a pool: its buffer, its offsets and its scores.
pub struct PoolModel {
    pub data: Seq<u8>,
    pub offsets: Seq<usize>,
    pub scores: Seq<IdType>,
}

impl PoolModel {
    /// The number of strings: one less than the number of offsets.
    pub open spec fn size(self) -> int {
        self.offsets.len() - 1
    }

    /// There is one offset more than there are scores, the first offset is
    /// 0, the offsets never decrease, and the last is the length of the
    /// buffer.
    pub open spec fn wf(self) -> bool {
        &&& self.offsets.len() == self.scores.len() + 1
        &&& self.offsets[0] == 0
        &&& forall|i: int, j: int|
            0 <= i <= j < self.offsets.len() ==> self.offsets[i] <= self.offsets[j]
        &&& self.offsets[self.offsets.len() - 1] == self.data.len()
    }

    /// The range of string `index`: from its offset up to the next one; the
    /// empty range at 0 if there is no such string.
    pub open spec fn range(self, index: int) -> (int, int) {
        if 0 <= index < self.size() {
            (self.offsets[index] as int, self.offsets[index + 1] as int)
        } else {
            (0, 0)
        }
    }

    /// The score of string `index`; 0 if there is no such score.
    pub open spec fn score(self, index: int) -> IdType {
        if 0 <= index < self.scores.len() {
            self.scores[index]
        } else {
            0
        }
    }

    /// The footprint in bytes: the buffer, the offsets and the scores.
    pub open spec fn footprint(self) -> nat {
        self.data.len() + self.offsets.len() * vstd::layout::size_of::<usize>() + self.scores.len()
            * 4
    }

    /// The bytes of string `index` in a well-formed pool.
    pub open spec fn bytes(self, index: int) -> Seq<u8> {
        self.data.subrange(self.range(index).0, self.range(index).1)
    }

    /// The pool holds the bytes of each text at the place of the text, and
    /// no other bytes.
    pub open spec fn holds(self, texts: Seq<Seq<char>>) -> bool {
        &&& self.wf()
        &&& self.size() == texts.len()
        &&& self.data.len() == coded_len(all_bytes_of(texts), 1, texts.len() as int)
        &&& forall|i: int| 0 <= i < texts.len() ==> #[trigger] self.bytes(i) == bytes_of(texts[i])
    }
}

/// A pool of scored strings.
pub struct ScoredStringPool {
    data: Vec<u8>,
    offsets: Vec<usize>,
    scores: Vec<IdType>,
}

impl View for ScoredStringPool {
    type V = PoolModel;

    closed spec fn view(&self) -> PoolModel {
        PoolModel { data: self.data@, offsets: self.offsets@, scores: self.scores@ }
    }
}

impl ScoredStringPool {
    /// Creates a pool without strings: its one offset is 0.
    pub fn new() -> (pool: Self)
        ensures
            pool@ == (PoolModel {
                data: Seq::empty(),
                offsets: seq![0usize],
                scores: Seq::empty(),
            }),
            pool@.wf(),
    {
        let mut offsets: Vec<usize> = Vec::new();
        offsets.push(0);
        let pool = Self { data: Vec::new(), offsets, scores: Vec::new() };
        assert(pool@.offsets =~= seq![0usize]);
        pool
    }

    /// Creates the pool of `strings` with `scores`, which must be as many:
    /// the buffer holds the bytes of the strings one after the other.
    pub fn build(strings: &[String], scores: Vec<IdType>) -> (pool: Self)
        requires
            strings@.len() == scores@.len(),
        ensures
            pool@.holds(texts_of(strings@)),
            pool@.scores == scores@,
    {
        let ghost texts = texts_of(strings@);
        let mut data: Vec<u8> = Vec::new();
        let mut offsets: Vec<usize> = Vec::new();
        offsets.push(0);
        let mut i: usize = 0;
        while i < strings.len()
            invariant
                i <= strings.len(),
                texts == texts_of(strings@),
                offsets@.len() == i + 1,
                offsets@[0] == 0,
                offsets@[i as int] == data@.len(),
                data@.len() == coded_len(all_bytes_of(texts), 1, i as int),
                forall|a: int, b: int| 0 <= a <= b <= i ==> offsets@[a] <= offsets@[b],
                forall|j: int|
                    0 <= j < i ==> data@.subrange(offsets@[j] as int, offsets@[j + 1] as int)
                        == bytes_of(#[trigger] texts[j]),
            decreases strings.len() - i,
        {
            let ghost old_data = data@;
            let ghost old_offsets = offsets@;
            push_bytes(&mut data, strings[i].as_str().as_bytes());
            offsets.push(data.len());
            proof {
                assert(texts[i as int] == strings@[i as int]@);
                assert(all_bytes_of(texts)[i as int] == bytes_of(texts[i as int]));
                assert(i % 1 == 0);
                assert forall|j: int| 0 <= j < i + 1 implies data@.subrange(
                    offsets@[j] as int,
                    offsets@[j + 1] as int,
                ) == bytes_of(#[trigger] texts[j]) by {
                    if j < i {
                        assert(old_offsets[j] <= old_offsets[j + 1] <= old_offsets[i as int]);
                        assert(data@.subrange(offsets@[j] as int, offsets@[j + 1] as int)
                            =~= old_data.subrange(
                            old_offsets[j] as int,
                            old_offsets[j + 1] as int,
                        ));
                    } else {
                        assert(data@.subrange(offsets@[j] as int, offsets@[j + 1] as int)
                            =~= bytes_of(texts[j]));
                    }
                }
            }
            i += 1;
        }
        Self { data, offsets, scores }
    }

    /// Appends the offset 0, with which a cleared pool starts again.
    pub fn init(&mut self)
        ensures
            final(self)@ == (PoolModel { offsets: old(self)@.offsets.push(0), ..old(self)@ }),
    {
        self.push_back_offset(0);
    }

    /// Makes the buffer `num_bytes` long and the scores `k` long, cutting
    /// them or filling them up with zeros.
    pub fn resize(&mut self, num_bytes: usize, k: u32)
        ensures
            final(self)@.offsets == old(self)@.offsets,
            final(self)@.data.len() == num_bytes,
            final(self)@.scores.len() == k,
            forall|i: int|
                0 <= i < num_bytes ==> final(self)@.data[i] == if i < old(self)@.data.len() {
                    old(self)@.data[i]
                } else {
                    0
                },
            forall|i: int|
                0 <= i < k ==> final(self)@.scores[i] == if i < old(self)@.scores.len() {
                    old(self)@.scores[i]
                } else {
                    0
                },
    {
        self.scores.resize(k as usize, 0);
        self.data.resize(num_bytes, 0);
    }

    /// Drops the offsets.
    pub fn clear(&mut self)
        ensures
            final(self)@ == (PoolModel { offsets: Seq::empty(), ..old(self)@ }),
    {
        self.offsets.clear();
    }

    /// The number of strings. The pool must hold an offset.
    pub fn size(&self) -> (n: usize)
        requires
            self@.offsets.len() > 0,
        ensures
            n == self@.size(),
    {
        self.offsets.len() - 1
    }

    /// The footprint in bytes, or the largest `usize` if it is more.
    pub fn bytes(&self) -> (n: usize)
        ensures
            n == clamp(self@.footprint() as int),
    {
        let table = scale_size(self.offsets.len(), core::mem::size_of::<usize>());
        let scores = scale_size(self.scores.len(), 4);
        add_sizes(add_sizes(self.data.len(), table), scores)
    }

    /// The buffer, to write into.
    pub fn data_mut(&mut self) -> (data: &mut [u8])
        ensures
            data@ == old(self)@.data,
            final(self)@.data == final(data)@,
            final(self)@.offsets == old(self)@.offsets,
            final(self)@.scores == old(self)@.scores,
    {
        self.data.as_mut_slice()
    }

    /// Appends an offset.
    pub fn push_back_offset(&mut self, offset: usize)
        ensures
            final(self)@ == (PoolModel { offsets: old(self)@.offsets.push(offset), ..old(self)@ }),
    {
        self.offsets.push(offset);
    }

    /// The scores, to write into.
    pub fn scores_mut(&mut self) -> (scores: &mut [IdType])
        ensures
            scores@ == old(self)@.scores,
            final(self)@.scores == final(scores)@,
            final(self)@.offsets == old(self)@.offsets,
            final(self)@.data == old(self)@.data,
    {
        self.scores.as_mut_slice()
    }

    /// The scores.
    pub fn scores(&self) -> (scores: &[IdType])
        ensures
            scores@ == self@.scores,
    {
        self.scores.as_slice()
    }

    /// The range and the score of string `index`; the empty range and the
    /// score 0 where the pool has none.
    pub fn get(&self, index: usize) -> (found: ScoredByteRange)
        ensures
            found.string.begin == self@.range(index as int).0,
            found.string.end == self@.range(index as int).1,
            found.score == if 0 <= index < self@.size() {
                self@.score(index as int)
            } else {
                0
            },
    {
        if self.offsets.len() == 0 || index >= self.offsets.len() - 1 {
            return ScoredByteRange { string: ByteRange { begin: 0, end: 0 }, score: 0 };
        }
        ScoredByteRange {
            string: ByteRange { begin: self.offsets[index], end: self.offsets[index + 1] },
            score: self.get_score(index),
        }
    }

    /// Replaces the offsets.
    pub fn set_offsets(&mut self, offsets: Vec<usize>)
        ensures
            final(self)@ == (PoolModel { offsets: offsets@, ..old(self)@ }),
    {
        self.offsets = offsets;
    }

    /// Replaces the scores.
    pub fn set_scores(&mut self, scores: Vec<IdType>)
        ensures
            final(self)@ == (PoolModel { scores: scores@, ..old(self)@ }),
    {
        self.scores = scores;
    }

    /// Replaces the buffer.
    pub fn set_data(&mut self, data: Vec<u8>)
        ensures
            final(self)@ == (PoolModel { data: data@, ..old(self)@ }),
    {
        self.data = data;
    }

    /// The score of string `index`; 0 where the pool has none.
    pub fn get_score(&self, index: usize) -> (score: IdType)
        ensures
            score == self@.score(index as int),
    {
        if index < self.scores.len() {
            self.scores[index]
        } else {
            0
        }
    }

    /// A walk over the strings of the pool from the first on.
    pub fn iter(&self) -> (walk: ScoredStringPoolIterator<'_>)
        ensures
            walk.pool_view() == self@,
            walk.position() == 0,
    {
        ScoredStringPoolIterator::new(self, 0)
    }
}

/// A walk over the strings of a pool, in order.
pub struct ScoredStringPoolIterator<'a> {
    pool: &'a ScoredStringPool,
    pos: usize,
}

impl<'a> ScoredStringPoolIterator<'a> {
    /// The value of the pool that is walked.
    pub closed spec fn pool_view(&self) -> PoolModel {
        self.pool@
    }

    /// The index of the string that comes next.
    pub closed spec fn position(&self) -> int {
        self.pos as int
    }

    /// Creates a walk over `pool` that starts at string `pos`.
    pub fn new(pool: &'a ScoredStringPool, pos: usize) -> (walk: Self)
        ensures
            walk.pool_view() == pool@,
            walk.position() == pos,
    {
        Self { pool, pos }
    }

    /// Whether the pool holds no string. The pool must hold an offset.
    pub fn empty(&self) -> (none: bool)
        requires
            self.pool_view().offsets.len() > 0,
        ensures
            none == (self.pool_view().size() == 0),
    {
        self.size() == 0
    }

    /// The number of strings of the pool. The pool must hold an offset.
    pub fn size(&self) -> (n: usize)
        requires
            self.pool_view().offsets.len() > 0,
        ensures
            n == self.pool_view().size(),
    {
        self.pool.size()
    }

    /// The pool that is walked.
    pub fn pool(&self) -> (pool: &ScoredStringPool)
        ensures
            pool@ == self.pool_view(),
    {
        self.pool
    }

    /// The range and the score of the next string, if the walk has not
    /// reached the end, in which case it moves on by one. The pool must hold
    /// an offset.
    pub fn next(&mut self) -> (item: Option<ScoredByteRange>)
        requires
            old(self).pool_view().offsets.len() > 0,
        ensures
            final(self).pool_view() == old(self).pool_view(),
            match item {
                Some(found) => {
                    &&& old(self).position() < old(self).pool_view().size()
                    &&& final(self).position() == old(self).position() + 1
                    &&& found.string.begin == old(self).pool_view().range(old(self).position()).0
                    &&& found.string.end == old(self).pool_view().range(old(self).position()).1
                    &&& found.score == old(self).pool_view().score(old(self).position())
                },
                None => {
                    &&& old(self).position() >= old(self).pool_view().size()
                    &&& final(self).position() == old(self).position()
                },
            },
    {
        if self.pos < self.pool.size() {
            let item = self.pool.get(self.pos);
            self.pos += 1;
            Some(item)
        } else {
            None
        }
    }
}

} // verus!
