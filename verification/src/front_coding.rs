//! Front coding: a byte string is stored as the length of the prefix it
//! shares with its predecessor, in one byte, followed by the bytes that
//! differ. Records lie one after the other in a buffer, and a table of
//! offsets says where each begins.
use vstd::prelude::*;
use vstd::utf8::{decode_utf8, valid_utf8};
use crate::text::{common_prefix_len, lcp, lemma_lcp};

verus! {

/// The largest shared prefix length that one byte can hold.
pub const MAX_SHARED: usize = 255;

/// The shared prefix length that is stored for `curr` after `prev`: that of
/// the longest common prefix, or the largest that fits in a byte.
pub open spec fn shared_len(prev: Seq<u8>, curr: Seq<u8>) -> int {
    if lcp(prev, curr) > MAX_SHARED {
        MAX_SHARED as int
    } else {
        lcp(prev, curr)
    }
}

/// The record that stores `curr` after `prev`.
pub open spec fn front_encode(prev: Seq<u8>, curr: Seq<u8>) -> Seq<u8> {
    seq![shared_len(prev, curr) as u8] + curr.skip(shared_len(prev, curr))
}

/// The byte string that `record` stores after `prev`.
pub open spec fn front_decode(prev: Seq<u8>, record: Seq<u8>) -> Seq<u8> {
    prev.take(record[0] as int) + record.skip(1)
}

/// Decoding a record against the predecessor it was made for gives back the
/// byte string.
pub proof fn lemma_front_round_trip(prev: Seq<u8>, curr: Seq<u8>)
    ensures
        front_encode(prev, curr).len() > 0,
        front_encode(prev, curr)[0] <= prev.len(),
        front_encode(prev, curr)[0] == shared_len(prev, curr),
        front_decode(prev, front_encode(prev, curr)) == curr,
{
    lemma_lcp(prev, curr);
    let n = shared_len(prev, curr);
    let record = front_encode(prev, curr);
    assert(record.skip(1) =~= curr.skip(n));
    assert(prev.take(n) =~= curr.take(n));
    assert(curr.take(n) + curr.skip(n) =~= curr);
}

/// The bytes that the first `n` of the byte strings take when the one at
/// each multiple of `stride` is stored as it is and every other as a record
/// against the one before it. With a stride of 0 only the first is stored
/// as it is.
pub open spec fn coded_len(contents: Seq<Seq<u8>>, stride: int, n: int) -> nat
    decreases n,
{
    if n <= 0 {
        0
    } else if n == 1 || (stride > 0 && (n - 1) % stride == 0) {
        coded_len(contents, stride, n - 1) + contents[n - 1].len()
    } else {
        coded_len(contents, stride, n - 1) + front_encode(contents[n - 2], contents[n - 1]).len()
    }
}

/// The bytes of texts.
pub open spec fn all_bytes_of(texts: Seq<Seq<char>>) -> Seq<Seq<u8>> {
    texts.map_values(|t: Seq<char>| crate::text::bytes_of(t))
}

/// Where the slot that begins at `offsets[i]` ends: at the next offset, or
/// for the last slot at the end of the buffer.
pub open spec fn slot_end(data: Seq<u8>, offsets: Seq<usize>, i: int) -> int {
    if i + 1 < offsets.len() {
        offsets[i + 1] as int
    } else {
        data.len() as int
    }
}

/// The bytes of slot `i`.
pub open spec fn slot(data: Seq<u8>, offsets: Seq<usize>, i: int) -> Seq<u8> {
    data.subrange(offsets[i] as int, slot_end(data, offsets, i))
}

/// The slots lie inside the buffer, one after the other.
pub open spec fn slots_wf(data: Seq<u8>, offsets: Seq<usize>) -> bool {
    forall|i: int|
        0 <= i < offsets.len() ==> #[trigger] offsets[i] <= slot_end(data, offsets, i)
            <= data.len()
}

/// Appending a slot leaves the earlier slots as they were.
pub proof fn lemma_append_slot(data: Seq<u8>, offsets: Seq<usize>, bytes: Seq<u8>)
    requires
        slots_wf(data, offsets),
        data.len() <= usize::MAX,
    ensures
        slots_wf(data + bytes, offsets.push(data.len() as usize)),
        slot(data + bytes, offsets.push(data.len() as usize), offsets.len() as int) == bytes,
        forall|i: int|
            0 <= i < offsets.len() ==> #[trigger] slot(
                data + bytes,
                offsets.push(data.len() as usize),
                i,
            ) == slot(data, offsets, i),
{
    let data2 = data + bytes;
    let offsets2 = offsets.push(data.len() as usize);
    assert forall|i: int| 0 <= i < offsets2.len() implies #[trigger] offsets2[i] <= slot_end(
        data2,
        offsets2,
        i,
    ) <= data2.len() by {
        if i < offsets.len() {
            assert(offsets[i] <= slot_end(data, offsets, i));
        }
    }
    assert(slot(data2, offsets2, offsets.len() as int) =~= bytes);
    assert forall|i: int| 0 <= i < offsets.len() implies #[trigger] slot(data2, offsets2, i)
        == slot(data, offsets, i) by {
        assert(offsets[i] <= slot_end(data, offsets, i));
        assert(slot(data2, offsets2, i) =~= slot(data, offsets, i));
    }
}

/// The byte string of entry `i` where slot 0 holds the first byte string
/// itself and every later slot a record against the entry before it.
#[verifier::opaque]
pub open spec fn chain(data: Seq<u8>, offsets: Seq<usize>, i: int) -> Seq<u8>
    decreases i,
{
    if i <= 0 {
        slot(data, offsets, 0)
    } else {
        front_decode(chain(data, offsets, i - 1), slot(data, offsets, i))
    }
}

/// The slots are in order, and every record names a shared length that its
/// predecessor has.
#[verifier::opaque]
pub open spec fn chain_wf(data: Seq<u8>, offsets: Seq<usize>) -> bool {
    &&& slots_wf(data, offsets)
    &&& forall|i: int|
        0 < i < offsets.len() ==> (#[trigger] slot(data, offsets, i)).len() > 0 && slot(
            data,
            offsets,
            i,
        )[0] <= chain(data, offsets, i - 1).len()
}

/// The chain holds the byte strings `contents[0]` to `contents[n - 1]`, in as
/// many bytes as they take.
pub open spec fn chain_stores(
    data: Seq<u8>,
    offsets: Seq<usize>,
    contents: Seq<Seq<u8>>,
    n: int,
) -> bool {
    &&& 0 <= n <= contents.len()
    &&& offsets.len() == n
    &&& chain_wf(data, offsets)
    &&& data.len() == coded_len(contents, 0, n)
    &&& forall|i: int| 0 <= i < n ==> #[trigger] chain(data, offsets, i) == contents[i]
}

/// Nothing is stored in an empty buffer.
pub proof fn lemma_chain_empty(contents: Seq<Seq<u8>>)
    ensures
        chain_stores(Seq::empty(), Seq::empty(), contents, 0),
{
    reveal(chain_wf);
}

/// Appending the next byte string, as it is if it is the first and else as
/// a record against the one before it, stores it.
pub proof fn lemma_chain_next(
    data: Seq<u8>,
    offsets: Seq<usize>,
    contents: Seq<Seq<u8>>,
    n: int,
    added: Seq<u8>,
)
    requires
        chain_stores(data, offsets, contents, n),
        n < contents.len(),
        data.len() <= usize::MAX,
        added == if n == 0 {
            contents[n]
        } else {
            front_encode(contents[n - 1], contents[n])
        },
    ensures
        chain_stores(data + added, offsets.push(data.len() as usize), contents, n + 1),
{
    reveal(chain);
    reveal(chain_wf);
    let data2 = data + added;
    let offsets2 = offsets.push(data.len() as usize);
    lemma_append_slot(data, offsets, added);
    assert forall|i: int| 0 <= i < n implies #[trigger] chain(data2, offsets2, i) == chain(
        data,
        offsets,
        i,
    ) by {
        lemma_chain_frame(data, offsets, data2, offsets2, i);
    }
    assert(slot(data2, offsets2, n) == added);
    if n > 0 {
        assert(chain(data2, offsets2, n - 1) == chain(data, offsets, n - 1));
        lemma_front_round_trip(contents[n - 1], contents[n]);
    }
    assert(chain(data2, offsets2, n) == contents[n]);
    assert forall|i: int| 0 < i < offsets2.len() implies (#[trigger] slot(data2, offsets2, i)).len()
        > 0 && slot(data2, offsets2, i)[0] <= chain(data2, offsets2, i - 1).len() by {
        if i < n {
            assert(slot(data2, offsets2, i) == slot(data, offsets, i));
            assert(chain(data2, offsets2, i - 1) == chain(data, offsets, i - 1));
        }
    }
}

/// Where the record of entry `i` lies, and what it stores.
pub proof fn lemma_chain_record(data: Seq<u8>, offsets: Seq<usize>, i: int)
    requires
        chain_wf(data, offsets),
        0 < i < offsets.len(),
    ensures
        offsets[i] < slot_end(data, offsets, i) <= data.len(),
        data[offsets[i] as int] <= chain(data, offsets, i - 1).len(),
        chain(data, offsets, i) == front_decode(
            chain(data, offsets, i - 1),
            data.subrange(offsets[i] as int, slot_end(data, offsets, i)),
        ),
{
    reveal(chain);
    reveal(chain_wf);
    assert(offsets[i] <= slot_end(data, offsets, i));
    assert(slot(data, offsets, i).len() > 0);
    assert(slot(data, offsets, i)[0] == data[offsets[i] as int]);
}

/// Where the first entry lies.
pub proof fn lemma_chain_first(data: Seq<u8>, offsets: Seq<usize>)
    requires
        chain_wf(data, offsets),
        0 < offsets.len(),
    ensures
        offsets[0] <= slot_end(data, offsets, 0) <= data.len(),
        chain(data, offsets, 0) == data.subrange(offsets[0] as int, slot_end(data, offsets, 0)),
{
    reveal(chain);
    reveal(chain_wf);
    assert(offsets[0] <= slot_end(data, offsets, 0));
}

/// Entries are the same where all slots up to them are the same.
pub proof fn lemma_chain_frame(
    data: Seq<u8>,
    offsets: Seq<usize>,
    data2: Seq<u8>,
    offsets2: Seq<usize>,
    i: int,
)
    requires
        0 <= i,
        forall|j: int|
            0 <= j <= i ==> #[trigger] slot(data2, offsets2, j) == slot(data, offsets, j),
    ensures
        chain(data2, offsets2, i) == chain(data, offsets, i),
    decreases i,
{
    reveal(chain);
    if i > 0 {
        lemma_chain_frame(data, offsets, data2, offsets2, i - 1);
        assert(slot(data2, offsets2, i) == slot(data, offsets, i));
    } else {
        assert(slot(data2, offsets2, 0) == slot(data, offsets, 0));
    }
}

/// Appends to `data` the record that stores `curr` after `prev`.
pub fn push_record(data: &mut Vec<u8>, prev: &[u8], curr: &[u8])
    ensures
        final(data)@ == old(data)@ + front_encode(prev@, curr@),
{
    let found = common_prefix_len(prev, curr);
    let shared = if found > MAX_SHARED {
        MAX_SHARED
    } else {
        found
    };
    data.push(shared as u8);
    let mut k: usize = shared;
    while k < curr.len()
        invariant
            shared <= k <= curr.len(),
            data@ == old(data)@ + seq![shared as u8] + curr@.subrange(shared as int, k as int),
        decreases curr.len() - k,
    {
        data.push(curr[k]);
        assert(curr@.subrange(shared as int, k + 1) =~= curr@.subrange(
            shared as int,
            k as int,
        ).push(curr@[k as int]));
        k += 1;
    }
    assert(data@ =~= old(data)@ + front_encode(prev@, curr@));
}

/// Appends `bytes` to `data`.
pub fn push_bytes(data: &mut Vec<u8>, bytes: &[u8])
    ensures
        final(data)@ == old(data)@ + bytes@,
{
    let mut k: usize = 0;
    while k < bytes.len()
        invariant
            k <= bytes.len(),
            data@ == old(data)@ + bytes@.take(k as int),
        decreases bytes.len() - k,
    {
        data.push(bytes[k]);
        assert(bytes@.take(k + 1) =~= bytes@.take(k as int).push(bytes@[k as int]));
        k += 1;
    }
    assert(bytes@.take(k as int) =~= bytes@);
}

/// Turns `text`, which holds the predecessor, into the byte string that the
/// record in `data` from `start` up to `end` stores after it.
pub fn apply_record(text: &mut Vec<u8>, data: &Vec<u8>, start: usize, end: usize)
    requires
        start < end <= data.len(),
        data[start as int] <= old(text).len(),
    ensures
        final(text)@ == front_decode(old(text)@, data@.subrange(start as int, end as int)),
{
    let ghost record = data@.subrange(start as int, end as int);
    let shared = data[start] as usize;
    text.truncate(shared);
    let mut k: usize = start + 1;
    while k < end
        invariant
            start < k <= end <= data.len(),
            record == data@.subrange(start as int, end as int),
            text@ == old(text)@.take(shared as int) + record.subrange(1, k - start),
        decreases end - k,
    {
        text.push(data[k]);
        assert(record.subrange(1, k + 1 - start) =~= record.subrange(1, k - start).push(
            data@[k as int],
        ));
        k += 1;
    }
    assert(record.subrange(1, end - start) =~= record.skip(1));
}

/// The string that a vector of bytes encodes, if it is valid UTF-8.
///
/// Trusted: this is `String::from_utf8` of the standard library, which hands
/// back the string whose UTF-8 encoding the bytes are, and fails exactly if
/// the bytes are not valid UTF-8.
#[verifier::external_body]
pub(crate) fn string_from_utf8(bytes: Vec<u8>) -> (text: Option<String>)
    ensures
        text is Some <==> valid_utf8(bytes@),
        text is Some ==> text.unwrap()@ == decode_utf8(bytes@),
{
    String::from_utf8(bytes).ok()
}

} // verus!
