//! Byte strings and texts in lexicographic order: the longest common prefix,
//! the order itself, and the functions that compute them.
use vstd::prelude::*;
use vstd::relations::total_ordering;
use vstd::utf8::{encode_utf8, encode_utf8_decode_utf8};

verus! {

/// The first position from `from` on at which `a` and `b` differ or one of
/// them ends.
pub open spec fn agree_until(a: Seq<u8>, b: Seq<u8>, from: int) -> int
    decreases a.len() - from,
{
    if 0 <= from < a.len() && from < b.len() && a[from] == b[from] {
        agree_until(a, b, from + 1)
    } else {
        from
    }
}

/// The length of the longest common prefix of `a` and `b`.
pub open spec fn lcp(a: Seq<u8>, b: Seq<u8>) -> int {
    agree_until(a, b, 0)
}

/// `a` comes before `b` in lexicographic order, or is `b`: `a` ends where
/// the two part, or holds the smaller byte there.
pub open spec fn lex_le(a: Seq<u8>, b: Seq<u8>) -> bool {
    let n = lcp(a, b);
    n == a.len() || (n < b.len() && a[n] < b[n])
}

/// The bytes of a text: its UTF-8 encoding.
pub open spec fn bytes_of(text: Seq<char>) -> Seq<u8> {
    encode_utf8(text)
}

/// `a` comes before `b` in the byte-wise lexicographic order of texts, or is
/// `b`.
pub open spec fn text_le(a: Seq<char>, b: Seq<char>) -> bool {
    lex_le(bytes_of(a), bytes_of(b))
}

/// `a` comes strictly before `b` in the byte-wise lexicographic order.
pub open spec fn text_lt(a: Seq<char>, b: Seq<char>) -> bool {
    text_le(a, b) && a != b
}

/// The order of texts as a relation.
pub open spec fn text_order() -> spec_fn(Seq<char>, Seq<char>) -> bool {
    |a: Seq<char>, b: Seq<char>| text_le(a, b)
}

/// The texts of a sequence of strings.
pub open spec fn texts_of(strings: Seq<String>) -> Seq<Seq<char>> {
    strings.map_values(|s: String| s@)
}

/// What `agree_until` finds: from `from` up to the result the two agree, and
/// at the result they differ or one of them ends.
pub proof fn lemma_agree_until(a: Seq<u8>, b: Seq<u8>, from: int)
    requires
        0 <= from <= a.len(),
        from <= b.len(),
    ensures
        from <= agree_until(a, b, from) <= a.len(),
        agree_until(a, b, from) <= b.len(),
        forall|k: int| from <= k < agree_until(a, b, from) ==> a[k] == b[k],
        agree_until(a, b, from) < a.len() && agree_until(a, b, from) < b.len() ==> a[agree_until(
            a,
            b,
            from,
        )] != b[agree_until(a, b, from)],
    decreases a.len() - from,
{
    if from < a.len() && from < b.len() && a[from] == b[from] {
        lemma_agree_until(a, b, from + 1);
    }
}

/// What the longest common prefix is: up to its length the two agree, and
/// there they differ or one of them ends.
pub proof fn lemma_lcp(a: Seq<u8>, b: Seq<u8>)
    ensures
        0 <= lcp(a, b) <= a.len(),
        lcp(a, b) <= b.len(),
        a.take(lcp(a, b)) == b.take(lcp(a, b)),
        forall|k: int| 0 <= k < lcp(a, b) ==> a[k] == b[k],
        lcp(a, b) < a.len() && lcp(a, b) < b.len() ==> a[lcp(a, b)] != b[lcp(a, b)],
{
    lemma_agree_until(a, b, 0);
    assert(a.take(lcp(a, b)) =~= b.take(lcp(a, b)));
}

/// A length up to which the two agree, and at which they differ or one of
/// them ends, is the length of the longest common prefix.
pub proof fn lemma_lcp_unique(a: Seq<u8>, b: Seq<u8>, n: int)
    requires
        0 <= n <= a.len(),
        n <= b.len(),
        forall|k: int| 0 <= k < n ==> a[k] == b[k],
        n < a.len() && n < b.len() ==> a[n] != b[n],
    ensures
        lcp(a, b) == n,
{
    lemma_lcp(a, b);
    let m = lcp(a, b);
    if m < n {
        assert(a[m] == b[m]);
    }
}

/// The longest common prefix of two byte strings does not depend on their
/// order.
pub proof fn lemma_lcp_symmetric(a: Seq<u8>, b: Seq<u8>)
    ensures
        lcp(a, b) == lcp(b, a),
{
    lemma_lcp(a, b);
    lemma_lcp_unique(b, a, lcp(a, b));
}

/// A byte string comes before itself or is itself.
pub proof fn lemma_lex_reflexive(a: Seq<u8>)
    ensures
        lex_le(a, a),
{
    lemma_lcp_unique(a, a, a.len() as int);
}

/// Two byte strings each of which comes before the other or is it are the
/// same.
pub proof fn lemma_lex_antisymmetric(a: Seq<u8>, b: Seq<u8>)
    requires
        lex_le(a, b),
        lex_le(b, a),
    ensures
        a == b,
{
    lemma_lcp(a, b);
    lemma_lcp_symmetric(a, b);
    assert(a =~= b);
}

/// Of two byte strings one comes before the other or is it.
pub proof fn lemma_lex_connected(a: Seq<u8>, b: Seq<u8>)
    ensures
        lex_le(a, b) || lex_le(b, a),
{
    lemma_lcp(a, b);
    lemma_lcp_symmetric(a, b);
}

/// The lexicographic order is transitive.
pub proof fn lemma_lex_transitive(a: Seq<u8>, b: Seq<u8>, c: Seq<u8>)
    requires
        lex_le(a, b),
        lex_le(b, c),
    ensures
        lex_le(a, c),
{
    lemma_lcp(a, b);
    lemma_lcp(b, c);
    let n1 = lcp(a, b);
    let n2 = lcp(b, c);
    let n = if n1 <= n2 { n1 } else { n2 };
    assert forall|k: int| 0 <= k < n implies a[k] == c[k] by {
        assert(a[k] == b[k]);
        assert(b[k] == c[k]);
    }
    if n1 < n2 {
        assert(b[n1] == c[n1]);
    } else if n2 < n1 {
        assert(a[n2] == b[n2]);
    }
    lemma_lcp_unique(a, c, n);
}

/// Two texts with the same bytes are the same text.
pub proof fn lemma_bytes_injective(a: Seq<char>, b: Seq<char>)
    requires
        bytes_of(a) == bytes_of(b),
    ensures
        a == b,
{
    encode_utf8_decode_utf8(a);
    encode_utf8_decode_utf8(b);
}

/// The byte-wise lexicographic order of texts is a total order.
pub proof fn lemma_text_total_order()
    ensures
        total_ordering(text_order()),
{
    let leq = text_order();
    assert forall|a: Seq<char>| #[trigger] leq(a, a) by {
        lemma_lex_reflexive(bytes_of(a));
    }
    assert forall|a: Seq<char>, b: Seq<char>| #[trigger] leq(a, b) && #[trigger] leq(
        b,
        a,
    ) implies a == b by {
        lemma_lex_antisymmetric(bytes_of(a), bytes_of(b));
        lemma_bytes_injective(a, b);
    }
    assert forall|a: Seq<char>, b: Seq<char>, c: Seq<char>| #[trigger]
        leq(a, b) && #[trigger] leq(b, c) implies leq(a, c) by {
        lemma_lex_transitive(bytes_of(a), bytes_of(b), bytes_of(c));
    }
    assert forall|a: Seq<char>, b: Seq<char>| #[trigger] leq(a, b) || #[trigger] leq(b, a) by {
        lemma_lex_connected(bytes_of(a), bytes_of(b));
    }
}

/// The strict order of texts is transitive, also where one of the two
/// steps allows equality.
pub proof fn lemma_text_lt_transitive(a: Seq<char>, b: Seq<char>, c: Seq<char>)
    requires
        text_le(a, b),
        text_le(b, c),
        a != b || b != c,
    ensures
        text_lt(a, c),
{
    lemma_lex_transitive(bytes_of(a), bytes_of(b), bytes_of(c));
    if a == c {
        lemma_lex_antisymmetric(bytes_of(a), bytes_of(b));
        lemma_bytes_injective(a, b);
    }
}

/// No text comes strictly before itself, and of two texts at most one comes
/// strictly before the other.
pub proof fn lemma_text_lt_asymmetric(a: Seq<char>, b: Seq<char>)
    ensures
        !(text_lt(a, b) && text_lt(b, a)),
        a != b ==> text_lt(a, b) || text_lt(b, a),
{
    lemma_lex_connected(bytes_of(a), bytes_of(b));
    if text_le(a, b) && text_le(b, a) {
        lemma_lex_antisymmetric(bytes_of(a), bytes_of(b));
        lemma_bytes_injective(a, b);
    }
}

/// Computes the length of the longest common prefix of two byte strings.
pub fn common_prefix_len(a: &[u8], b: &[u8]) -> (n: usize)
    ensures
        n == lcp(a@, b@),
        n <= a.len(),
        n <= b.len(),
{
    let mut n: usize = 0;
    while n < a.len() && n < b.len() && a[n] == b[n]
        invariant
            n <= a.len(),
            n <= b.len(),
            forall|k: int| 0 <= k < n ==> a@[k] == b@[k],
        decreases a.len() - n,
    {
        n += 1;
    }
    proof {
        lemma_lcp_unique(a@, b@, n as int);
    }
    n
}

/// Whether `a` comes before `b` in lexicographic order, or is `b`.
pub fn bytes_le(a: &[u8], b: &[u8]) -> (le: bool)
    ensures
        le == lex_le(a@, b@),
{
    let n = common_prefix_len(a, b);
    n == a.len() || (n < b.len() && a[n] < b[n])
}

} // verus!
