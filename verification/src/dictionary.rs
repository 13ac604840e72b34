//! Dictionaries that keep a set of strings in sorted order, front coded, and
//! give each the identifier of its place: the first string has identifier 1.
use vstd::prelude::*;
use vstd::relations::sorted_by;
use vstd::slice::slice_subrange;
use vstd::utf8::{decode_utf8, encode_utf8_decode_utf8, encode_utf8_valid_utf8, valid_utf8};
use crate::footprint::{add_sizes, clamp, scale_size};
use crate::front_coding::{
    all_bytes_of, apply_record, chain, chain_stores, chain_wf, coded_len, front_decode,
    front_encode, lemma_append_slot, lemma_chain_empty, lemma_chain_first, lemma_chain_next,
    lemma_chain_record, lemma_front_round_trip, push_bytes, push_record, slot, slot_end, slots_wf,
    string_from_utf8,
};
use crate::sort::{
    arranged, covers, lemma_arranged_multiset, lemma_arranged_sorted, lemma_ordered_distinct,
    sorted_order,
};
use crate::text::{bytes_of, text_order, texts_of};
use crate::types::IdType;

verus! {

/// A front-coded dictionary: the first string is stored as it is, every
/// other as a record against the string before it. Its value is the sequence
/// of its strings, in their sorted order.
pub struct FCDictionary {
    data: Vec<u8>,
    offsets: Vec<usize>,
    num_strings: usize,
    total_size: usize,
}

impl View for FCDictionary {
    type V = Seq<Seq<char>>;

    closed spec fn view(&self) -> Seq<Seq<char>> {
        Seq::new(self.offsets@.len(), |i: int| decode_utf8(chain(self.data@, self.offsets@, i)))
    }
}

impl FCDictionary {
    /// The records lie in order in the buffer, each names a shared length
    /// that its predecessor has, every string is valid UTF-8, and the counts
    /// agree with the buffers.
    pub closed spec fn wf(&self) -> bool {
        &&& self.offsets@.len() == self.num_strings
        &&& self.data@.len() == self.total_size
        &&& self.data@.len() == coded_len(self.contents(), 0, self.offsets@.len() as int)
        &&& chain_wf(self.data@, self.offsets@)
        &&& forall|i: int|
            0 <= i < self.offsets@.len() ==> valid_utf8(
                #[trigger] chain(self.data@, self.offsets@, i),
            )
    }

    /// The byte strings of the dictionary, as its buffer gives them.
    spec fn contents(&self) -> Seq<Seq<u8>> {
        Seq::new(self.offsets@.len(), |i: int| chain(self.data@, self.offsets@, i))
    }

    /// The bytes that the first string and the records of the others take.
    pub open spec fn stored_len(&self) -> nat {
        coded_len(all_bytes_of(self@), 0, self@.len() as int)
    }

    /// The strings of a dictionary are the texts of its byte strings, and
    /// its buffer is as long as its strings take.
    proof fn lemma_contents(&self)
        requires
            self.wf(),
        ensures
            self.contents() == all_bytes_of(self@),
            self.data@.len() == self.stored_len(),
    {
        assert forall|i: int| 0 <= i < self.offsets@.len() implies #[trigger] self.contents()[i]
            == all_bytes_of(self@)[i] by {
            assert(valid_utf8(chain(self.data@, self.offsets@, i)));
            vstd::utf8::decode_utf8_encode_utf8(chain(self.data@, self.offsets@, i));
        }
        assert(self.contents() =~= all_bytes_of(self@));
    }

    /// Creates an empty dictionary.
    pub fn new() -> (dictionary: Self)
        ensures
            dictionary.wf(),
            dictionary@ == Seq::<Seq<char>>::empty(),
            dictionary.stored_len() == 0,
    {
        let dictionary = Self {
            data: Vec::new(),
            offsets: Vec::new(),
            num_strings: 0,
            total_size: 0,
        };
        assert(dictionary@ =~= Seq::<Seq<char>>::empty());
        proof {
            lemma_chain_empty(dictionary.contents());
            dictionary.lemma_contents();
        }
        dictionary
    }

    /// Replaces the contents by `strings`, sorted in byte-wise lexicographic
    /// order. A string that occurs several times is kept that many times.
    pub fn build(&mut self, strings: &[String])
        ensures
            final(self).wf(),
            sorted_by(final(self)@, text_order()),
            final(self)@.to_multiset() == texts_of(strings@).to_multiset(),
    {
        let ghost texts = texts_of(strings@);
        let order = sorted_order(strings);
        let ghost contents = Seq::new(order@.len(), |i: int| bytes_of(texts[order[i] as int]));
        let mut data: Vec<u8> = Vec::new();
        let mut offsets: Vec<usize> = Vec::new();
        let mut k: usize = 0;
        proof {
            lemma_chain_empty(contents);
        }
        while k < order.len()
            invariant
                k <= order.len(),
                texts == texts_of(strings@),
                covers(order@, 0, strings@.len() as int),
                contents == Seq::new(order@.len(), |i: int| bytes_of(texts[order[i] as int])),
                chain_stores(data@, offsets@, contents, k as int),
            decreases order.len() - k,
        {
            let ghost old_data = data@;
            let ghost old_offsets = offsets@;
            let ghost added;
            let curr = strings[order[k]].as_str().as_bytes();
            assert(curr@ == contents[k as int]);
            assert(old_data.len() == data.len());
            offsets.push(data.len());
            if k == 0 {
                push_bytes(&mut data, curr);
                proof {
                    added = curr@;
                }
            } else {
                let prev = strings[order[k - 1]].as_str().as_bytes();
                assert(prev@ == contents[k - 1]);
                push_record(&mut data, prev, curr);
                proof {
                    added = front_encode(prev@, curr@);
                }
            }
            proof {
                lemma_chain_next(old_data, old_offsets, contents, k as int, added);
            }
            k += 1;
        }
        self.num_strings = offsets.len();
        self.total_size = data.len();
        self.data = data;
        self.offsets = offsets;
        proof {
            assert(self.contents() =~= contents);
            assert forall|i: int| 0 <= i < self.offsets@.len() implies valid_utf8(
                #[trigger] chain(self.data@, self.offsets@, i),
            ) by {
                assert(chain(self.data@, self.offsets@, i) == contents[i]);
                encode_utf8_valid_utf8(texts[order[i] as int]);
            }
            assert(self@ =~= arranged(texts, order@)) by {
                assert forall|i: int| 0 <= i < order@.len() implies self@[i] == arranged(
                    texts,
                    order@,
                )[i] by {
                    assert(chain(self.data@, self.offsets@, i) == contents[i]);
                    encode_utf8_decode_utf8(texts[order[i] as int]);
                }
            }
            lemma_arranged_sorted(texts, order@);
            lemma_ordered_distinct(texts, order@);
            lemma_arranged_multiset(texts, order@);
        }
    }

    /// Where slot `i` ends.
    fn end_of(&self, i: usize) -> (end: usize)
        requires
            i < self.offsets.len(),
        ensures
            end == slot_end(self.data@, self.offsets@, i as int),
    {
        if i + 1 < self.offsets.len() {
            self.offsets[i + 1]
        } else {
            self.data.len()
        }
    }

    /// The bytes of the string at place `target`.
    fn bytes_at(&self, target: usize) -> (bytes: Vec<u8>)
        requires
            chain_wf(self.data@, self.offsets@),
            target < self.offsets.len(),
        ensures
            bytes@ == chain(self.data@, self.offsets@, target as int),
    {
        let mut bytes: Vec<u8> = Vec::new();
        let first_end = self.end_of(0);
        proof {
            lemma_chain_first(self.data@, self.offsets@);
        }
        push_bytes(&mut bytes, slice_subrange(self.data.as_slice(), self.offsets[0], first_end));
        let mut i: usize = 0;
        while i < target
            invariant
                chain_wf(self.data@, self.offsets@),
                i <= target < self.offsets.len(),
                bytes@ == chain(self.data@, self.offsets@, i as int),
            decreases target - i,
        {
            i += 1;
            let end = self.end_of(i);
            proof {
                lemma_chain_record(self.data@, self.offsets@, i as int);
            }
            apply_record(&mut bytes, &self.data, self.offsets[i], end);
        }
        bytes
    }

    /// The string with the identifier `id`: the one at place `id - 1` of the
    /// sorted order. Identifier 0 names no string, nor does one past the
    /// number of strings.
    pub fn lookup(&self, id: IdType) -> (text: Option<String>)
        requires
            self.wf(),
        ensures
            match text {
                Some(s) => 1 <= id <= self@.len() && s@ == self@[id - 1],
                None => id == 0 || id > self@.len(),
            },
    {
        if id == 0 || id as usize > self.num_strings {
            return None;
        }
        let target = (id - 1) as usize;
        let bytes = self.bytes_at(target);
        assert(valid_utf8(chain(self.data@, self.offsets@, target as int)));
        string_from_utf8(bytes)
    }

    /// The number of strings.
    pub fn size(&self) -> (n: usize)
        requires
            self.wf(),
        ensures
            n == self@.len(),
    {
        self.num_strings
    }

    /// The number of bytes that the first string and the records of the
    /// others take.
    pub fn total_size(&self) -> (n: usize)
        requires
            self.wf(),
        ensures
            n == self.stored_len(),
    {
        proof {
            self.lemma_contents();
        }
        self.total_size
    }

    /// The footprint in bytes: the two counters, one offset for each
    /// string, and the records.
    pub open spec fn footprint(&self) -> nat {
        (2 + self@.len()) * vstd::layout::size_of::<usize>() + self.stored_len()
    }

    /// The footprint in bytes, or the largest `usize` if it is more.
    pub fn bytes(&self) -> (n: usize)
        requires
            self.wf(),
        ensures
            n == clamp(self.footprint() as int),
    {
        let word = core::mem::size_of::<usize>();
        let counters = scale_size(2, word);
        let table = scale_size(self.offsets.len(), word);
        proof {
            self.lemma_contents();
            assert((2 + self@.len()) * word == 2 * word + self@.len() * word)
                by (nonlinear_arith);
        }
        add_sizes(add_sizes(counters, table), self.data.len())
    }
}

/// The number of strings in a bucket: the first is stored as it is, the
/// others as records against the string before them.
pub const BUCKET_SIZE: usize = 16;

/// The buffers of a bucketed dictionary: the first strings of the buckets,
/// and the records of the other strings, each with its table of offsets.
pub struct Buckets {
    pub headers: Seq<u8>,
    pub header_offsets: Seq<usize>,
    pub records: Seq<u8>,
    pub record_offsets: Seq<usize>,
}

impl Buckets {
    /// The number of buckets that `n` strings take.
    pub open spec fn heads(n: int) -> int {
        (n + BUCKET_SIZE - 1) / (BUCKET_SIZE as int)
    }

    /// The record of string `i`, which is not the first of its bucket.
    pub open spec fn record(self, i: int) -> Seq<u8> {
        slot(self.records, self.record_offsets, i - i / (BUCKET_SIZE as int) - 1)
    }

    /// The bytes of string `i`.
    #[verifier::opaque]
    pub open spec fn entry(self, i: int) -> Seq<u8>
        decreases i,
    {
        if i <= 0 || i % (BUCKET_SIZE as int) == 0 {
            slot(self.headers, self.header_offsets, i / (BUCKET_SIZE as int))
        } else {
            front_decode(self.entry(i - 1), self.record(i))
        }
    }

    /// The buffers hold `n` strings: one header for each bucket and one
    /// record for each other string, in order, and every record names a
    /// shared length that its predecessor has.
    #[verifier::opaque]
    pub open spec fn holds(self, n: int) -> bool {
        &&& self.header_offsets.len() == Self::heads(n)
        &&& self.record_offsets.len() == n - Self::heads(n)
        &&& slots_wf(self.headers, self.header_offsets)
        &&& slots_wf(self.records, self.record_offsets)
        &&& forall|i: int|
            0 < i < n && i % (BUCKET_SIZE as int) != 0 ==> (#[trigger] self.record(i)).len() > 0
                && self.record(i)[0] <= self.entry(i - 1).len()
    }

    /// The buffers after the bytes `added` were appended for string `n`: to
    /// the headers if it starts a bucket, else to the records.
    pub open spec fn grown(self, n: int, added: Seq<u8>) -> Buckets {
        if n % (BUCKET_SIZE as int) == 0 {
            Buckets {
                headers: self.headers + added,
                header_offsets: self.header_offsets.push(self.headers.len() as usize),
                ..self
            }
        } else {
            Buckets {
                records: self.records + added,
                record_offsets: self.record_offsets.push(self.records.len() as usize),
                ..self
            }
        }
    }
}

/// Appending for string `n` leaves the earlier strings as they were, and
/// makes the appended bytes the header or the record of string `n`.
proof fn lemma_grown(b: Buckets, n: int, added: Seq<u8>, i: int)
    requires
        0 <= i < n,
        b.header_offsets.len() == Buckets::heads(n),
        b.record_offsets.len() == n - Buckets::heads(n),
        slots_wf(b.headers, b.header_offsets),
        slots_wf(b.records, b.record_offsets),
        b.headers.len() <= usize::MAX,
        b.records.len() <= usize::MAX,
    ensures
        b.grown(n, added).entry(i) == b.entry(i),
        i % (BUCKET_SIZE as int) != 0 ==> b.grown(n, added).record(i) == b.record(i),
    decreases i,
{
    reveal(Buckets::entry);
    let g = b.grown(n, added);
    if n % (BUCKET_SIZE as int) == 0 {
        lemma_append_slot(b.headers, b.header_offsets, added);
    } else {
        lemma_append_slot(b.records, b.record_offsets, added);
    }
    if i <= 0 || i % (BUCKET_SIZE as int) == 0 {
        assert(slot(g.headers, g.header_offsets, i / (BUCKET_SIZE as int)) == slot(
            b.headers,
            b.header_offsets,
            i / (BUCKET_SIZE as int),
        ));
    } else {
        lemma_grown(b, n, added, i - 1);
        assert(slot(g.records, g.record_offsets, i - i / (BUCKET_SIZE as int) - 1) == slot(
            b.records,
            b.record_offsets,
            i - i / (BUCKET_SIZE as int) - 1,
        ));
    }
}

/// Where the header and the records of a bucket are found: string `i` of
/// `n` lies in bucket `i / BUCKET_SIZE`, which has a header, and if it is
/// not the first of its bucket it has a record, the one after that of the
/// string before it.
proof fn lemma_bucket_places(n: int, i: int)
    requires
        0 <= i < n,
    ensures
        0 <= i / (BUCKET_SIZE as int) < Buckets::heads(n),
        i % (BUCKET_SIZE as int) != 0 ==> 0 <= i - i / (BUCKET_SIZE as int) - 1 < n
            - Buckets::heads(n),
        i % (BUCKET_SIZE as int) != 0 ==> (i - 1) / (BUCKET_SIZE as int) == i / (
        BUCKET_SIZE as int),
        i - i % (BUCKET_SIZE as int) == (i / (BUCKET_SIZE as int)) * BUCKET_SIZE,
{
}

/// The buffers hold the byte strings `contents[0]` to `contents[n - 1]`.
pub open spec fn stores(b: Buckets, contents: Seq<Seq<u8>>, n: int) -> bool {
    &&& 0 <= n <= contents.len()
    &&& b.holds(n)
    &&& b.headers.len() + b.records.len() == coded_len(contents, BUCKET_SIZE as int, n)
    &&& forall|i: int| 0 <= i < n ==> #[trigger] b.entry(i) == contents[i]
}

/// Appending the next byte string, as a header if it starts a bucket and
/// else as a record against the one before it, stores it.
proof fn lemma_store_next(b: Buckets, contents: Seq<Seq<u8>>, n: int, added: Seq<u8>)
    requires
        stores(b, contents, n),
        n < contents.len(),
        b.headers.len() <= usize::MAX,
        b.records.len() <= usize::MAX,
        added == if n % (BUCKET_SIZE as int) == 0 {
            contents[n]
        } else {
            front_encode(contents[n - 1], contents[n])
        },
    ensures
        stores(b.grown(n, added), contents, n + 1),
{
    reveal(Buckets::entry);
    reveal(Buckets::holds);
    let g = b.grown(n, added);
    lemma_bucket_places(n + 1, n);
    if n % (BUCKET_SIZE as int) == 0 {
        lemma_append_slot(b.headers, b.header_offsets, added);
        assert(Buckets::heads(n + 1) == Buckets::heads(n) + 1);
        assert(g.entry(n) == contents[n]);
    } else {
        lemma_append_slot(b.records, b.record_offsets, added);
        assert(Buckets::heads(n + 1) == Buckets::heads(n));
        lemma_grown(b, n, added, n - 1);
        lemma_front_round_trip(contents[n - 1], contents[n]);
        assert(b.entry(n - 1) == contents[n - 1]);
        assert(g.record(n) == added);
        assert(g.entry(n) == contents[n]);
    }
    assert forall|i: int| 0 <= i < n + 1 implies #[trigger] g.entry(i) == contents[i] by {
        if i < n {
            lemma_grown(b, n, added, i);
            assert(b.entry(i) == contents[i]);
        }
    }
    assert forall|i: int| 0 < i < n + 1 && i % (BUCKET_SIZE as int) != 0 implies g.record(i).len()
        > 0 && (#[trigger] g.record(i))[0] <= g.entry(i - 1).len() by {
        if i < n {
            lemma_grown(b, n, added, i);
            lemma_grown(b, n, added, i - 1);
            assert(b.record(i).len() > 0);
        }
    }
}

/// Where the first string of the bucket of string `i` is found.
proof fn lemma_bucket_head(b: Buckets, n: int, i: int)
    requires
        b.holds(n),
        0 <= i < n,
    ensures
        0 <= i / (BUCKET_SIZE as int) < b.header_offsets.len(),
        b.header_offsets[i / (BUCKET_SIZE as int)] <= slot_end(
            b.headers,
            b.header_offsets,
            i / (BUCKET_SIZE as int),
        ) <= b.headers.len(),
        b.entry(i - i % (BUCKET_SIZE as int)) == slot(
            b.headers,
            b.header_offsets,
            i / (BUCKET_SIZE as int),
        ),
{
    reveal(Buckets::entry);
    reveal(Buckets::holds);
    lemma_bucket_places(n, i);
    let first = i - i % (BUCKET_SIZE as int);
    assert(first % (BUCKET_SIZE as int) == 0);
    assert(first / (BUCKET_SIZE as int) == i / (BUCKET_SIZE as int));
}

/// Where the record of string `i` is found, and what it stores.
proof fn lemma_bucket_record(b: Buckets, n: int, i: int)
    requires
        b.holds(n),
        0 < i < n,
        i % (BUCKET_SIZE as int) != 0,
    ensures
        0 <= i - i / (BUCKET_SIZE as int) - 1 < b.record_offsets.len(),
        b.record_offsets[i - i / (BUCKET_SIZE as int) - 1] < slot_end(
            b.records,
            b.record_offsets,
            i - i / (BUCKET_SIZE as int) - 1,
        ) <= b.records.len(),
        b.records[b.record_offsets[i - i / (BUCKET_SIZE as int) - 1] as int] <= b.entry(
            i - 1,
        ).len(),
        b.entry(i) == front_decode(b.entry(i - 1), b.record(i)),
{
    reveal(Buckets::entry);
    reveal(Buckets::holds);
    lemma_bucket_places(n, i);
    let at = i - i / (BUCKET_SIZE as int) - 1;
    assert(b.record_offsets[at] <= slot_end(b.records, b.record_offsets, at));
    assert(b.record(i).len() > 0);
    assert(b.record(i)[0] == b.records[b.record_offsets[at] as int]);
}

/// A dictionary that front codes its strings in buckets, so that a string is
/// rebuilt from the first string of its bucket. Its value is the sequence of
/// its strings, in their sorted order.
pub struct IntegerFCDictionary {
    headers: Vec<u8>,
    header_offsets: Vec<usize>,
    buckets: Vec<u8>,
    bucket_offsets: Vec<usize>,
    size: usize,
}

impl View for IntegerFCDictionary {
    type V = Seq<Seq<char>>;

    closed spec fn view(&self) -> Seq<Seq<char>> {
        Seq::new(self.size as nat, |i: int| decode_utf8(self.buffers().entry(i)))
    }
}

impl IntegerFCDictionary {
    /// The buffers as sequences.
    pub closed spec fn buffers(&self) -> Buckets {
        Buckets {
            headers: self.headers@,
            header_offsets: self.header_offsets@,
            records: self.buckets@,
            record_offsets: self.bucket_offsets@,
        }
    }

    /// The byte strings of the dictionary, as its buffers give them.
    spec fn contents(&self) -> Seq<Seq<u8>> {
        Seq::new(self.size as nat, |i: int| self.buffers().entry(i))
    }

    /// The bytes that the first strings of the buckets and the records of
    /// the others take.
    pub open spec fn stored_len(&self) -> nat {
        coded_len(all_bytes_of(self@), BUCKET_SIZE as int, self@.len() as int)
    }

    /// The buffers hold as many strings as the count says, and every string
    /// is valid UTF-8.
    pub closed spec fn wf(&self) -> bool {
        &&& stores(self.buffers(), self.contents(), self.size as int)
        &&& forall|i: int| 0 <= i < self.size ==> valid_utf8(#[trigger] self.buffers().entry(i))
    }

    /// The strings of a dictionary are the texts of its byte strings, and
    /// its buffers are as long as its strings take.
    proof fn lemma_contents(&self)
        requires
            self.wf(),
        ensures
            self.contents() == all_bytes_of(self@),
            self.headers@.len() + self.buckets@.len() == self.stored_len(),
    {
        assert forall|i: int| 0 <= i < self.size implies #[trigger] self.contents()[i]
            == all_bytes_of(self@)[i] by {
            assert(valid_utf8(self.buffers().entry(i)));
            vstd::utf8::decode_utf8_encode_utf8(self.buffers().entry(i));
        }
        assert(self.contents() =~= all_bytes_of(self@));
    }

    /// Creates an empty dictionary.
    pub fn new() -> (dictionary: Self)
        ensures
            dictionary.wf(),
            dictionary@ == Seq::<Seq<char>>::empty(),
    {
        let dictionary = Self {
            headers: Vec::new(),
            header_offsets: Vec::new(),
            buckets: Vec::new(),
            bucket_offsets: Vec::new(),
            size: 0,
        };
        proof {
            reveal(Buckets::holds);
        }
        assert(dictionary@ =~= Seq::<Seq<char>>::empty());
        dictionary
    }

    /// Replaces the contents by `strings`, sorted in byte-wise lexicographic
    /// order. A string that occurs several times is kept that many times.
    pub fn build(&mut self, strings: &[String])
        ensures
            final(self).wf(),
            sorted_by(final(self)@, text_order()),
            final(self)@.to_multiset() == texts_of(strings@).to_multiset(),
    {
        let ghost texts = texts_of(strings@);
        let order = sorted_order(strings);
        let ghost contents = Seq::new(order@.len(), |i: int| bytes_of(texts[order[i] as int]));
        let mut headers: Vec<u8> = Vec::new();
        let mut header_offsets: Vec<usize> = Vec::new();
        let mut buckets: Vec<u8> = Vec::new();
        let mut bucket_offsets: Vec<usize> = Vec::new();
        let mut k: usize = 0;
        proof {
            reveal(Buckets::holds);
        }
        while k < order.len()
            invariant
                k <= order.len(),
                texts == texts_of(strings@),
                covers(order@, 0, strings@.len() as int),
                contents == Seq::new(order@.len(), |i: int| bytes_of(texts[order[i] as int])),
                stores(
                    Buckets {
                        headers: headers@,
                        header_offsets: header_offsets@,
                        records: buckets@,
                        record_offsets: bucket_offsets@,
                    },
                    contents,
                    k as int,
                ),
            decreases order.len() - k,
        {
            let ghost before = Buckets {
                headers: headers@,
                header_offsets: header_offsets@,
                records: buckets@,
                record_offsets: bucket_offsets@,
            };
            assert(before.headers.len() == headers.len() && before.records.len() == buckets.len());
            let curr = strings[order[k]].as_str().as_bytes();
            assert(curr@ == contents[k as int]);
            let ghost added;
            if k % BUCKET_SIZE == 0 {
                header_offsets.push(headers.len());
                push_bytes(&mut headers, curr);
                proof {
                    added = curr@;
                }
            } else {
                let prev = strings[order[k - 1]].as_str().as_bytes();
                assert(prev@ == contents[k - 1]);
                bucket_offsets.push(buckets.len());
                push_record(&mut buckets, prev, curr);
                proof {
                    added = front_encode(prev@, curr@);
                }
            }
            proof {
                lemma_store_next(before, contents, k as int, added);
                assert(before.grown(k as int, added) == Buckets {
                    headers: headers@,
                    header_offsets: header_offsets@,
                    records: buckets@,
                    record_offsets: bucket_offsets@,
                });
            }
            k += 1;
        }
        self.size = order.len();
        self.headers = headers;
        self.header_offsets = header_offsets;
        self.buckets = buckets;
        self.bucket_offsets = bucket_offsets;
        proof {
            assert forall|i: int| 0 <= i < self.size implies #[trigger] self.contents()[i]
                == contents[i] by {
                assert(self.buffers().entry(i) == contents[i]);
            }
            assert(self.contents() =~= contents);
            assert forall|i: int| 0 <= i < self.size implies valid_utf8(
                #[trigger] self.buffers().entry(i),
            ) by {
                assert(self.buffers().entry(i) == contents[i]);
                encode_utf8_valid_utf8(texts[order[i] as int]);
            }
            assert(self@ =~= arranged(texts, order@)) by {
                assert forall|i: int| 0 <= i < order@.len() implies self@[i] == arranged(
                    texts,
                    order@,
                )[i] by {
                    assert(self.buffers().entry(i) == bytes_of(texts[order[i] as int]));
                    encode_utf8_decode_utf8(texts[order[i] as int]);
                }
            }
            lemma_arranged_sorted(texts, order@);
            lemma_ordered_distinct(texts, order@);
            lemma_arranged_multiset(texts, order@);
        }
    }

    /// Writes into `completion` the bytes of the string with the identifier
    /// `id`, the one at place `id - 1` of the sorted order, and returns their
    /// number. Identifier 0 names no string, nor does one past the number of
    /// strings: then `completion` stays as it is and the result is 0.
    pub fn extract(&self, id: IdType, completion: &mut Vec<u8>) -> (len: usize)
        requires
            self.wf(),
        ensures
            1 <= id <= self@.len() ==> final(completion)@ == bytes_of(self@[id - 1]) && len
                == final(completion)@.len(),
            id == 0 || id > self@.len() ==> final(completion)@ == old(completion)@ && len == 0,
    {
        if id == 0 || id as usize > self.size {
            return 0;
        }
        let target = (id - 1) as usize;
        let head = target / BUCKET_SIZE;
        let first = target - target % BUCKET_SIZE;
        proof {
            lemma_bucket_head(self.buffers(), self.size as int, target as int);
        }
        let head_end = if head + 1 < self.header_offsets.len() {
            self.header_offsets[head + 1]
        } else {
            self.headers.len()
        };
        completion.clear();
        push_bytes(
            completion,
            slice_subrange(self.headers.as_slice(), self.header_offsets[head], head_end),
        );
        assert(completion@ =~= self.buffers().entry(first as int));
        let mut i: usize = first;
        while i < target
            invariant
                self.buffers().holds(self.size as int),
                first <= i <= target < self.size,
                first + BUCKET_SIZE > target,
                first % BUCKET_SIZE == 0,
                completion@ == self.buffers().entry(i as int),
            decreases target - i,
        {
            i += 1;
            proof {
                assert(i % BUCKET_SIZE != 0);
                lemma_bucket_record(self.buffers(), self.size as int, i as int);
            }
            let at = i - i / BUCKET_SIZE - 1;
            let end = if at + 1 < self.bucket_offsets.len() {
                self.bucket_offsets[at + 1]
            } else {
                self.buckets.len()
            };
            apply_record(completion, &self.buckets, self.bucket_offsets[at], end);
        }
        proof {
            assert(valid_utf8(self.buffers().entry(target as int)));
            vstd::utf8::decode_utf8_encode_utf8(self.buffers().entry(target as int));
        }
        completion.len()
    }

    /// The string with the identifier `id`, if there is one.
    pub fn lookup(&self, id: IdType) -> (text: Option<String>)
        requires
            self.wf(),
        ensures
            match text {
                Some(s) => 1 <= id <= self@.len() && s@ == self@[id - 1],
                None => id == 0 || id > self@.len(),
            },
    {
        if id == 0 || id as usize > self.size {
            return None;
        }
        let mut bytes: Vec<u8> = Vec::new();
        self.extract(id, &mut bytes);
        proof {
            encode_utf8_valid_utf8(self@[id - 1]);
            encode_utf8_decode_utf8(self@[id - 1]);
        }
        string_from_utf8(bytes)
    }

    /// The number of strings.
    pub fn size(&self) -> (n: usize)
        requires
            self.wf(),
        ensures
            n == self@.len(),
    {
        self.size
    }

    /// The footprint in bytes: the counter, one offset for each string, the
    /// headers and the records.
    pub open spec fn footprint(&self) -> nat {
        (1 + self@.len()) * vstd::layout::size_of::<usize>() + self.stored_len()
    }

    /// The footprint in bytes, or the largest `usize` if it is more.
    pub fn bytes(&self) -> (n: usize)
        requires
            self.wf(),
        ensures
            n == clamp(self.footprint() as int),
    {
        let word = core::mem::size_of::<usize>();
        let counter = scale_size(1, word);
        let heads = scale_size(self.header_offsets.len(), word);
        let tails = scale_size(self.bucket_offsets.len(), word);
        proof {
            reveal(Buckets::holds);
            self.lemma_contents();
            let (h, t) = (self.header_offsets@.len() as int, self.bucket_offsets@.len() as int);
            assert((1 + (h + t)) * word == 1 * word + h * word + t * word) by (nonlinear_arith);
        }
        add_sizes(
            add_sizes(add_sizes(add_sizes(counter, heads), tails), self.headers.len()),
            self.buckets.len(),
        )
    }
}

/// Round trip: every string that a dictionary was built from has a place in
/// it, so that the lookup of the identifier of that place gives back the
/// string; and every place holds one of those strings.
pub proof fn lemma_built_round_trip(built: Seq<Seq<char>>, strings: Seq<String>)
    requires
        built.to_multiset() == texts_of(strings).to_multiset(),
    ensures
        built.len() == strings.len(),
        forall|i: int| 0 <= i < strings.len() ==> built.contains(#[trigger] strings[i]@),
        forall|k: int| 0 <= k < built.len() ==> texts_of(strings).contains(#[trigger] built[k]),
{
    let texts = texts_of(strings);
    vstd::seq_lib::to_multiset_len(built);
    vstd::seq_lib::to_multiset_len(texts);
    assert forall|i: int| 0 <= i < strings.len() implies built.contains(#[trigger] strings[i]@) by {
        assert(texts[i] == strings[i]@);
        assert(texts.contains(texts[i]));
        vstd::seq_lib::to_multiset_contains(texts, texts[i]);
        vstd::seq_lib::to_multiset_contains(built, texts[i]);
    }
    assert forall|k: int| 0 <= k < built.len() implies texts.contains(#[trigger] built[k]) by {
        assert(built.contains(built[k]));
        vstd::seq_lib::to_multiset_contains(built, built[k]);
        vstd::seq_lib::to_multiset_contains(texts, built[k]);
    }
}

} // verus!
