//! The mathematical value of a trie: its nodes, the entries they hold in
//! depth-first order, and what storing and removing a text does to them.
use vstd::prelude::*;
use crate::seqs::{
    lemma_filter_all, lemma_filter_flatten_all, lemma_filter_flatten_none, lemma_filter_map,
    lemma_filter_none, lemma_flatten_append, lemma_flatten_member, lemma_flatten_remove,
    lemma_flatten_split, lemma_flatten_update, lemma_sum_remove, lemma_sum_update, sum,
};
use crate::types::IdType;

verus! {

/// One stored completion: its text and the identifier it was inserted under.
pub type Entry = (Seq<char>, IdType);

/// An entry of a subtree as seen from the parent that reaches the subtree by
/// `c`: the text gains `c` in front.
pub open spec fn lift(c: char) -> spec_fn(Entry) -> Entry {
    |e: Entry| (seq![c] + e.0, e.1)
}

/// The entries of a subtree as seen from its parent.
pub open spec fn prefixed(c: char, entries: Seq<Entry>) -> Seq<Entry> {
    entries.map_values(lift(c))
}

/// Holds of the entries whose text starts with `prefix`.
pub open spec fn starts_with(prefix: Seq<char>) -> spec_fn(Entry) -> bool {
    |e: Entry| prefix.is_prefix_of(e.0)
}

/// Holds of the entries whose text is not `text`.
pub open spec fn differs_from(text: Seq<char>) -> spec_fn(Entry) -> bool {
    |e: Entry| e.0 != text
}

/// The identifiers of a sequence of entries, in order.
pub open spec fn entry_ids(entries: Seq<Entry>) -> Seq<IdType> {
    entries.map_values(|e: Entry| e.1)
}

/// The entries whose text starts with `prefix`, in order.
pub open spec fn matching(entries: Seq<Entry>, prefix: Seq<char>) -> Seq<Entry> {
    entries.filter(starts_with(prefix))
}

/// The entries whose text is not `text`, in order.
pub open spec fn without(entries: Seq<Entry>, text: Seq<char>) -> Seq<Entry> {
    entries.filter(differs_from(text))
}

/// Whether some entry has the text `text`.
pub open spec fn has_text(entries: Seq<Entry>, text: Seq<char>) -> bool {
    exists|k: int| 0 <= k < entries.len() && (#[trigger] entries[k]).0 == text
}

/// The mathematical value of a trie node: the characters that lead to its
/// children, the children in the order in which they were created, the
/// terminal mark and the identifiers held at the node.
pub struct TrieModel {
    pub keys: Seq<char>,
    pub children: Seq<TrieModel>,
    pub terminal: bool,
    pub ids: Seq<IdType>,
}

impl TrieModel {
    /// A node without children, mark or identifiers.
    pub open spec fn empty() -> TrieModel {
        TrieModel { keys: Seq::empty(), children: Seq::empty(), terminal: false, ids: Seq::empty() }
    }

    /// Every node has one key per child, and no key twice.
    pub open spec fn wf(self) -> bool
        decreases self,
    {
        &&& self.keys.len() == self.children.len()
        &&& self.keys.no_duplicates()
        &&& forall|i: int| 0 <= i < self.children.len() ==> (#[trigger] self.children[i]).wf()
    }

    /// The child reached by `c`, if there is one.
    pub open spec fn child(self, c: char) -> Option<TrieModel> {
        if self.keys.contains(c) {
            Some(self.children[self.keys.index_of(c)])
        } else {
            None
        }
    }

    /// The entries that end at this node.
    pub open spec fn own_entries(self) -> Seq<Entry> {
        if self.terminal {
            self.ids.map_values(|id: IdType| (Seq::<char>::empty(), id))
        } else {
            Seq::empty()
        }
    }

    /// For each child, the entries below it as seen from this node.
    pub open spec fn blocks(self) -> Seq<Seq<Entry>>
        decreases self, 0nat,
    {
        Seq::new(
            self.children.len(),
            |i: int|
                if 0 <= i < self.children.len() {
                    prefixed(self.keys[i], self.children[i].entries())
                } else {
                    Seq::empty()
                },
        )
    }

    /// All entries of the subtree in depth-first order: those that end at the
    /// node, then those of each child in turn.
    pub open spec fn entries(self) -> Seq<Entry>
        decreases self, 1nat,
    {
        self.own_entries() + self.blocks().flatten()
    }

    /// The number of nodes of each child's subtree.
    pub open spec fn child_counts(self) -> Seq<nat>
        decreases self, 0nat,
    {
        Seq::new(
            self.children.len(),
            |i: int|
                if 0 <= i < self.children.len() {
                    self.children[i].node_count()
                } else {
                    0
                },
        )
    }

    /// The number of nodes of the subtree, this node included.
    pub open spec fn node_count(self) -> nat
        decreases self, 1nat,
    {
        1 + sum(self.child_counts())
    }

    /// A node that is terminal or has a child: one that a pruned trie keeps.
    pub open spec fn alive(self) -> bool {
        self.terminal || self.children.len() > 0
    }

    /// No node below this one is a dead end.
    pub open spec fn compact(self) -> bool
        decreases self,
    {
        forall|i: int|
            0 <= i < self.children.len() ==> (#[trigger] self.children[i]).alive()
                && self.children[i].compact()
    }

    /// Every node is terminal exactly if it holds an identifier.
    pub open spec fn tidy(self) -> bool
        decreases self,
    {
        &&& self.terminal <==> self.ids.len() > 0
        &&& forall|i: int| 0 <= i < self.children.len() ==> (#[trigger] self.children[i]).tidy()
    }

    /// Whether the walk along `text` ends at a terminal node.
    pub open spec fn terminal_at(self, text: Seq<char>) -> bool
        decreases text.len(),
    {
        if text.len() == 0 {
            self.terminal
        } else if self.keys.contains(text[0]) && self.keys.len() == self.children.len() {
            self.children[self.keys.index_of(text[0])].terminal_at(text.skip(1))
        } else {
            false
        }
    }

    /// How many characters of `text` the walk from this node can follow.
    pub open spec fn walk(self, text: Seq<char>) -> nat
        decreases text.len(),
    {
        if text.len() > 0 && self.keys.contains(text[0]) && self.keys.len() == self.children.len() {
            1 + self.children[self.keys.index_of(text[0])].walk(text.skip(1))
        } else {
            0
        }
    }

    /// The node after `id` was stored under `text`: the walk along `text`
    /// creates the children it misses, and the node it ends at becomes
    /// terminal and gains `id`.
    pub open spec fn inserted(self, text: Seq<char>, id: IdType) -> TrieModel
        decreases text.len(),
    {
        if text.len() == 0 {
            TrieModel { terminal: true, ids: self.ids.push(id), ..self }
        } else if self.keys.contains(text[0]) {
            let i = self.keys.index_of(text[0]);
            TrieModel {
                children: self.children.update(i, self.children[i].inserted(text.skip(1), id)),
                ..self
            }
        } else {
            TrieModel {
                keys: self.keys.push(text[0]),
                children: self.children.push(TrieModel::empty().inserted(text.skip(1), id)),
                ..self
            }
        }
    }

    /// The node after `text` was removed: the node at which `text` ends loses
    /// its mark and its identifiers, and each node on the way back up drops
    /// the child it came from if that child is left a dead end.
    pub open spec fn removed(self, text: Seq<char>) -> TrieModel
        decreases text.len(),
    {
        if !self.terminal_at(text) {
            self
        } else if text.len() == 0 {
            TrieModel { terminal: false, ids: Seq::empty(), ..self }
        } else {
            let i = self.keys.index_of(text[0]);
            let below = self.children[i].removed(text.skip(1));
            if below.alive() {
                TrieModel { children: self.children.update(i, below), ..self }
            } else {
                TrieModel { keys: self.keys.remove(i), children: self.children.remove(i), ..self }
            }
        }
    }
}

/// In a sequence without duplicates an item is found where it stands.
pub proof fn lemma_index_of_unique<A>(s: Seq<A>, i: int)
    requires
        s.no_duplicates(),
        0 <= i < s.len(),
    ensures
        s.contains(s[i]),
        s.index_of(s[i]) == i,
{
    assert(s.contains(s[i]));
    let j = s.index_of(s[i]);
    assert(0 <= j < s.len() && s[j] == s[i]);
}

/// A node without children has no entries but its own.
pub proof fn lemma_leaf_entries(m: TrieModel)
    requires
        m.children.len() == 0,
    ensures
        m.entries() == m.own_entries(),
{
    assert(m.blocks() =~= Seq::empty());
    assert(m.blocks().flatten() =~= Seq::empty());
    assert(m.own_entries() + Seq::empty() =~= m.own_entries());
}

/// Inserting into the middle part of three is inserting into the whole.
proof fn lemma_insert_in_middle<A>(a: Seq<A>, b: Seq<A>, c: Seq<A>, at: int, x: A)
    requires
        0 <= at <= b.len(),
    ensures
        a + b.insert(at, x) + c == (a + b + c).insert(a.len() + at, x),
{
    assert(a + b.insert(at, x) + c =~= (a + b + c).insert(a.len() + at, x));
}

/// An entry placed among the entries of a subtree is placed at the same spot
/// as seen from the parent.
proof fn lemma_prefixed_insert(c: char, entries: Seq<Entry>, at: int, e: Entry)
    requires
        0 <= at <= entries.len(),
    ensures
        prefixed(c, entries.insert(at, e)) == prefixed(c, entries).insert(
            at,
            (seq![c] + e.0, e.1),
        ),
{
    assert(prefixed(c, entries.insert(at, e)) =~= prefixed(c, entries).insert(
        at,
        (seq![c] + e.0, e.1),
    ));
}

/// Storing an identifier keeps the trie well formed, tidy and pruned, and
/// leaves the node a live one.
pub proof fn lemma_inserted_shape(m: TrieModel, text: Seq<char>, id: IdType)
    requires
        m.wf(),
    ensures
        m.inserted(text, id).wf(),
        m.inserted(text, id).alive(),
        m.tidy() ==> m.inserted(text, id).tidy(),
        m.compact() ==> m.inserted(text, id).compact(),
    decreases text.len(),
{
    let after = m.inserted(text, id);
    let kids = after.children;
    if text.len() == 0 {
    } else {
        let c = text[0];
        let rest = text.skip(1);
        if m.keys.contains(c) {
            let i = m.keys.index_of(c);
            lemma_inserted_shape(m.children[i], rest, id);
            assert forall|j: int| 0 <= j < kids.len() implies (#[trigger] kids[j]).wf() by {
                if j != i {
                    assert(m.children[j].wf());
                }
            }
            if m.tidy() {
                assert forall|j: int| 0 <= j < kids.len() implies (#[trigger] kids[j]).tidy() by {
                    if j != i {
                        assert(m.children[j].tidy());
                    }
                }
            }
            if m.compact() {
                assert forall|j: int| 0 <= j < kids.len() implies (#[trigger] kids[j]).alive()
                    && kids[j].compact() by {
                    if j != i {
                        assert(m.children[j].alive());
                    }
                }
            }
        } else {
            lemma_inserted_shape(TrieModel::empty(), rest, id);
            let last = m.children.len() as int;
            assert forall|j: int| 0 <= j < kids.len() implies (#[trigger] kids[j]).wf() by {
                if j != last {
                    assert(m.children[j].wf());
                }
            }
            if m.tidy() {
                assert forall|j: int| 0 <= j < kids.len() implies (#[trigger] kids[j]).tidy() by {
                    if j != last {
                        assert(m.children[j].tidy());
                    }
                }
            }
            if m.compact() {
                assert forall|j: int| 0 <= j < kids.len() implies (#[trigger] kids[j]).alive()
                    && kids[j].compact() by {
                    if j != last {
                        assert(m.children[j].alive());
                    }
                }
            }
        }
    }
}

/// Storing an identifier at the node itself places its entry after the
/// node's own entries.
proof fn lemma_inserted_here(m: TrieModel, id: IdType)
    requires
        m.tidy(),
    ensures
        m.inserted(Seq::empty(), id).entries() == m.entries().insert(
            m.own_entries().len() as int,
            (Seq::empty(), id),
        ),
{
    let after = m.inserted(Seq::empty(), id);
    let entry = (Seq::<char>::empty(), id);
    assert(after.blocks() =~= m.blocks());
    assert(after.own_entries() =~= m.own_entries().push(entry));
    assert(after.entries() =~= m.entries().insert(m.own_entries().len() as int, entry));
}

/// Storing an identifier places one new entry among the old ones without
/// changing their order. Returns the place.
pub proof fn lemma_inserted_entries(m: TrieModel, text: Seq<char>, id: IdType) -> (at: int)
    requires
        m.wf(),
        m.tidy(),
    ensures
        0 <= at <= m.entries().len(),
        m.inserted(text, id).entries() == m.entries().insert(at, (text, id)),
    decreases text.len(),
{
    let after = m.inserted(text, id);
    let entry = (text, id);
    if text.len() == 0 {
        assert(text =~= Seq::<char>::empty());
        lemma_inserted_here(m, id);
        m.own_entries().len() as int
    } else {
        let c = text[0];
        let rest = text.skip(1);
        assert(seq![c] + rest =~= text);
        if m.keys.contains(c) {
            let i = m.keys.index_of(c);
            let child = m.children[i];
            assert(child.wf() && child.tidy());
            let below = lemma_inserted_entries(child, rest, id);
            let grown = child.inserted(rest, id);
            lemma_prefixed_insert(c, child.entries(), below, (rest, id));
            let block = prefixed(c, grown.entries());
            assert(after.blocks() =~= m.blocks().update(i, block));
            lemma_flatten_update(m.blocks(), i, block);
            lemma_flatten_split(m.blocks(), i);
            let head = m.own_entries() + m.blocks().take(i).flatten();
            let tail = m.blocks().skip(i + 1).flatten();
            lemma_insert_in_middle(head, m.blocks()[i], tail, below, entry);
            assert(m.entries() =~= head + m.blocks()[i] + tail);
            assert(after.entries() =~= head + block + tail);
            head.len() + below
        } else {
            let fresh = TrieModel::empty();
            lemma_leaf_entries(fresh);
            let below = lemma_inserted_entries(fresh, rest, id);
            let grown = fresh.inserted(rest, id);
            assert(grown.entries() =~= seq![(rest, id)]);
            let block = prefixed(c, grown.entries());
            assert(block =~= seq![entry]);
            assert(after.blocks() =~= m.blocks().push(block));
            lemma_flatten_append(m.blocks(), block);
            assert(after.entries() =~= m.entries().insert(m.entries().len() as int, entry));
            m.entries().len() as int
        }
    }
}

/// An entry below a child starts with the child's key and goes on as the
/// child's own entry does.
proof fn lemma_block_entry(m: TrieModel, j: int, l: int)
    requires
        0 <= j < m.children.len(),
        0 <= l < m.blocks()[j].len(),
    ensures
        m.blocks()[j].len() == m.children[j].entries().len(),
        m.blocks()[j][l].0 == seq![m.keys[j]] + m.children[j].entries()[l].0,
        m.blocks()[j][l].1 == m.children[j].entries()[l].1,
        m.blocks()[j][l].0.len() > 0,
        m.blocks()[j][l].0[0] == m.keys[j],
        m.blocks()[j][l].0.skip(1) == m.children[j].entries()[l].0,
{
    let below = m.children[j].entries()[l].0;
    assert((seq![m.keys[j]] + below).skip(1) =~= below);
}

/// Filtering the entries below all children but one leaves them whole when
/// the predicate holds of every text that starts with another child's key.
proof fn lemma_filter_siblings_all(m: TrieModel, i: int, pred: spec_fn(Entry) -> bool)
    requires
        m.wf(),
        0 <= i < m.children.len(),
        forall|e: Entry| e.0.len() > 0 && e.0[0] != m.keys[i] ==> #[trigger] pred(e),
    ensures
        m.blocks().take(i).flatten().filter(pred) == m.blocks().take(i).flatten(),
        m.blocks().skip(i + 1).flatten().filter(pred) == m.blocks().skip(i + 1).flatten(),
{
    let head = m.blocks().take(i);
    let tail = m.blocks().skip(i + 1);
    assert forall|j: int, l: int| 0 <= j < head.len() && 0 <= l < head[j].len() implies pred(
        #[trigger] head[j][l],
    ) by {
        lemma_block_entry(m, j, l);
    }
    assert forall|j: int, l: int| 0 <= j < tail.len() && 0 <= l < tail[j].len() implies pred(
        #[trigger] tail[j][l],
    ) by {
        lemma_block_entry(m, j + i + 1, l);
    }
    lemma_filter_flatten_all(head, pred);
    lemma_filter_flatten_all(tail, pred);
}

/// Filtering the entries below all children but one empties them when the
/// predicate fails on every text that starts with another child's key.
proof fn lemma_filter_siblings_none(m: TrieModel, i: int, pred: spec_fn(Entry) -> bool)
    requires
        m.wf(),
        0 <= i < m.children.len(),
        forall|e: Entry| e.0.len() > 0 && e.0[0] != m.keys[i] ==> !#[trigger] pred(e),
    ensures
        m.blocks().take(i).flatten().filter(pred) == Seq::<Entry>::empty(),
        m.blocks().skip(i + 1).flatten().filter(pred) == Seq::<Entry>::empty(),
{
    let head = m.blocks().take(i);
    let tail = m.blocks().skip(i + 1);
    assert forall|j: int, l: int| 0 <= j < head.len() && 0 <= l < head[j].len() implies !pred(
        #[trigger] head[j][l],
    ) by {
        lemma_block_entry(m, j, l);
    }
    assert forall|j: int, l: int| 0 <= j < tail.len() && 0 <= l < tail[j].len() implies !pred(
        #[trigger] tail[j][l],
    ) by {
        lemma_block_entry(m, j + i + 1, l);
    }
    lemma_filter_flatten_none(head, pred);
    lemma_filter_flatten_none(tail, pred);
}

/// The entries of a node, parted at one child: the node's own, those below
/// earlier children, those below the child, those below later children.
proof fn lemma_entries_split(m: TrieModel, i: int)
    requires
        0 <= i < m.children.len(),
    ensures
        m.entries() == m.own_entries() + m.blocks().take(i).flatten() + prefixed(
            m.keys[i],
            m.children[i].entries(),
        ) + m.blocks().skip(i + 1).flatten(),
{
    lemma_flatten_split(m.blocks(), i);
    assert(m.entries() =~= m.own_entries() + m.blocks().take(i).flatten() + m.blocks()[i]
        + m.blocks().skip(i + 1).flatten());
}

/// Filtering distributes over the four parts of a node's entries.
proof fn lemma_filter_split(m: TrieModel, i: int, pred: spec_fn(Entry) -> bool)
    requires
        0 <= i < m.children.len(),
    ensures
        m.entries().filter(pred) == m.own_entries().filter(pred) + m.blocks().take(
            i,
        ).flatten().filter(pred) + prefixed(m.keys[i], m.children[i].entries()).filter(pred)
            + m.blocks().skip(i + 1).flatten().filter(pred),
{
    lemma_entries_split(m, i);
    let a = m.own_entries();
    let b = m.blocks().take(i).flatten();
    let c = prefixed(m.keys[i], m.children[i].entries());
    let d = m.blocks().skip(i + 1).flatten();
    Seq::filter_distributes_over_add(a + b + c, d, pred);
    Seq::filter_distributes_over_add(a + b, c, pred);
    Seq::filter_distributes_over_add(a, b, pred);
}

/// An entry with a given text shows that the walk along that text ends at a
/// terminal node.
pub proof fn lemma_text_is_terminal(m: TrieModel, text: Seq<char>)
    requires
        m.wf(),
        has_text(m.entries(), text),
    ensures
        m.terminal_at(text),
    decreases text.len(),
{
    let k = choose|k: int| 0 <= k < m.entries().len() && (#[trigger] m.entries()[k]).0 == text;
    if k < m.own_entries().len() {
        assert(m.entries()[k] == m.own_entries()[k]);
        assert(text =~= Seq::<char>::empty());
    } else {
        let at = lemma_flatten_member(m.blocks(), k - m.own_entries().len());
        lemma_block_entry(m, at.0, at.1);
        lemma_index_of_unique(m.keys, at.0);
        assert(m.children[at.0].entries()[at.1].0 == text.skip(1));
        assert(m.children[at.0].wf());
        lemma_text_is_terminal(m.children[at.0], text.skip(1));
    }
}

/// In a tidy trie the walk along a text ends at a terminal node only if an
/// entry has that text.
pub proof fn lemma_terminal_has_text(m: TrieModel, text: Seq<char>)
    requires
        m.wf(),
        m.tidy(),
        m.terminal_at(text),
    ensures
        has_text(m.entries(), text),
    decreases text.len(),
{
    if text.len() == 0 {
        assert(m.entries()[0] == m.own_entries()[0]);
        assert(m.entries()[0].0 =~= text);
    } else {
        let i = m.keys.index_of(text[0]);
        let child = m.children[i];
        assert(child.wf() && child.tidy());
        lemma_terminal_has_text(child, text.skip(1));
        let l = choose|l: int|
            0 <= l < child.entries().len() && (#[trigger] child.entries()[l]).0 == text.skip(1);
        lemma_entries_split(m, i);
        let before = m.own_entries() + m.blocks().take(i).flatten();
        assert(m.entries()[before.len() + l] == prefixed(m.keys[i], child.entries())[l]);
        assert(seq![text[0]] + text.skip(1) =~= text);
        assert(m.entries()[before.len() + l].0 == text);
    }
}

/// Removing a text keeps the trie well formed, tidy and pruned.
pub proof fn lemma_removed_shape(m: TrieModel, text: Seq<char>)
    requires
        m.wf(),
    ensures
        m.removed(text).wf(),
        m.tidy() ==> m.removed(text).tidy(),
        m.compact() ==> m.removed(text).compact(),
    decreases text.len(),
{
    let after = m.removed(text);
    let kids = after.children;
    if m.terminal_at(text) && text.len() > 0 {
        let i = m.keys.index_of(text[0]);
        assert(m.children[i].wf());
        lemma_removed_shape(m.children[i], text.skip(1));
        let below = m.children[i].removed(text.skip(1));
        if below.alive() {
            assert forall|j: int| 0 <= j < kids.len() implies (#[trigger] kids[j]).wf() by {
                if j != i {
                    assert(m.children[j].wf());
                }
            }
            if m.tidy() {
                assert(m.children[i].tidy());
                assert forall|j: int| 0 <= j < kids.len() implies (#[trigger] kids[j]).tidy() by {
                    if j != i {
                        assert(m.children[j].tidy());
                    }
                }
            }
            if m.compact() {
                assert(m.children[i].alive());
                assert forall|j: int| 0 <= j < kids.len() implies (#[trigger] kids[j]).alive()
                    && kids[j].compact() by {
                    if j != i {
                        assert(m.children[j].alive());
                    }
                }
            }
        } else {
            assert forall|j: int| 0 <= j < kids.len() implies (#[trigger] kids[j]).wf() by {
                if j < i {
                    assert(m.children[j].wf());
                } else {
                    assert(m.children[j + 1].wf());
                }
            }
            assert forall|a: int, b: int|
                0 <= a < after.keys.len() && 0 <= b < after.keys.len() && a != b implies
                after.keys[a] != after.keys[b] by {
                let a0 = if a < i { a } else { a + 1 };
                let b0 = if b < i { b } else { b + 1 };
                assert(m.keys[a0] != m.keys[b0]);
            }
            if m.tidy() {
                assert forall|j: int| 0 <= j < kids.len() implies (#[trigger] kids[j]).tidy() by {
                    if j < i {
                        assert(m.children[j].tidy());
                    } else {
                        assert(m.children[j + 1].tidy());
                    }
                }
            }
            if m.compact() {
                assert forall|j: int| 0 <= j < kids.len() implies (#[trigger] kids[j]).alive()
                    && kids[j].compact() by {
                    if j < i {
                        assert(m.children[j].alive());
                    } else {
                        assert(m.children[j + 1].alive());
                    }
                }
            }
        }
    }
}

/// Removing a text that no walk ends at changes nothing, and no entry has
/// that text.
proof fn lemma_removed_absent(m: TrieModel, text: Seq<char>)
    requires
        m.wf(),
        !m.terminal_at(text),
    ensures
        without(m.entries(), text) == m.entries(),
{
    let keep = differs_from(text);
    assert forall|k: int| 0 <= k < m.entries().len() implies keep(#[trigger] m.entries()[k]) by {
        if m.entries()[k].0 == text {
            assert(has_text(m.entries(), text));
            lemma_text_is_terminal(m, text);
        }
    }
    lemma_filter_all(m.entries(), keep);
}

/// Without the entries of the empty text, a node's entries are those below
/// its children.
proof fn lemma_without_own(m: TrieModel)
    ensures
        without(m.entries(), Seq::empty()) == m.blocks().flatten(),
{
    let keep = differs_from(Seq::empty());
    assert forall|j: int, l: int|
        0 <= j < m.blocks().len() && 0 <= l < m.blocks()[j].len() implies keep(
        #[trigger] m.blocks()[j][l],
    ) by {
        lemma_block_entry(m, j, l);
    }
    lemma_filter_flatten_all(m.blocks(), keep);
    assert forall|k: int| 0 <= k < m.own_entries().len() implies !keep(
        #[trigger] m.own_entries()[k],
    ) by {
        assert(m.own_entries()[k].0 =~= Seq::<char>::empty());
    }
    lemma_filter_none(m.own_entries(), keep);
    Seq::filter_distributes_over_add(m.own_entries(), m.blocks().flatten(), keep);
    assert(Seq::<Entry>::empty() + m.blocks().flatten() =~= m.blocks().flatten());
}

/// Dropping a text below a child, seen from the parent, drops the text that
/// starts with the child's key and goes on with it.
proof fn lemma_block_without(c: char, entries: Seq<Entry>, rest: Seq<char>)
    ensures
        without(prefixed(c, entries), seq![c] + rest) == prefixed(c, without(entries, rest)),
{
    let text = seq![c] + rest;
    assert forall|k: int| 0 <= k < entries.len() implies differs_from(rest)(
        #[trigger] entries[k],
    ) == differs_from(text)(lift(c)(entries[k])) by {
        let e = entries[k];
        assert((seq![c] + e.0).skip(1) =~= e.0);
        assert(text.skip(1) =~= rest);
    }
    lemma_filter_map(entries, lift(c), differs_from(text), differs_from(rest));
}

/// Without a text that goes through one child, a node's entries are its own,
/// those below the other children, and those below that child without the
/// rest of the text.
proof fn lemma_without_below(m: TrieModel, text: Seq<char>, i: int)
    requires
        m.wf(),
        text.len() > 0,
        0 <= i < m.keys.len(),
        m.keys[i] == text[0],
    ensures
        without(m.entries(), text) == m.own_entries() + m.blocks().take(i).flatten() + prefixed(
            text[0],
            without(m.children[i].entries(), text.skip(1)),
        ) + m.blocks().skip(i + 1).flatten(),
{
    let keep = differs_from(text);
    assert(seq![text[0]] + text.skip(1) =~= text);
    lemma_filter_split(m, i, keep);
    assert forall|k: int| 0 <= k < m.own_entries().len() implies keep(
        #[trigger] m.own_entries()[k],
    ) by {
        assert(m.own_entries()[k].0.len() == 0);
    }
    lemma_filter_all(m.own_entries(), keep);
    lemma_filter_siblings_all(m, i, keep);
    lemma_block_without(text[0], m.children[i].entries(), text.skip(1));
}

/// The entries of a node one of whose children was replaced.
proof fn lemma_entries_update(m: TrieModel, i: int, below: TrieModel)
    requires
        0 <= i < m.children.len(),
        m.keys.len() == m.children.len(),
    ensures
        (TrieModel { children: m.children.update(i, below), ..m }).entries() == m.own_entries()
            + m.blocks().take(i).flatten() + prefixed(m.keys[i], below.entries())
            + m.blocks().skip(i + 1).flatten(),
{
    let after = TrieModel { children: m.children.update(i, below), ..m };
    let block = prefixed(m.keys[i], below.entries());
    assert(after.blocks() =~= m.blocks().update(i, block));
    lemma_flatten_update(m.blocks(), i, block);
    assert(after.entries() =~= m.own_entries() + m.blocks().take(i).flatten() + block
        + m.blocks().skip(i + 1).flatten());
}

/// The entries of a node one of whose children was dropped.
proof fn lemma_entries_remove(m: TrieModel, i: int)
    requires
        0 <= i < m.children.len(),
        m.keys.len() == m.children.len(),
    ensures
        (TrieModel { keys: m.keys.remove(i), children: m.children.remove(i), ..m }).entries()
            == m.own_entries() + m.blocks().take(i).flatten() + m.blocks().skip(i + 1).flatten(),
{
    let after = TrieModel { keys: m.keys.remove(i), children: m.children.remove(i), ..m };
    assert(after.blocks() =~= m.blocks().remove(i));
    lemma_flatten_remove(m.blocks(), i);
    assert(after.entries() =~= m.own_entries() + m.blocks().take(i).flatten()
        + m.blocks().skip(i + 1).flatten());
}

/// Removing a text removes the entries that have it, and no others.
pub proof fn lemma_removed_entries(m: TrieModel, text: Seq<char>)
    requires
        m.wf(),
    ensures
        m.removed(text).entries() == without(m.entries(), text),
    decreases text.len(),
{
    if !m.terminal_at(text) {
        lemma_removed_absent(m, text);
    } else if text.len() == 0 {
        assert(text =~= Seq::<char>::empty());
        let after = TrieModel { terminal: false, ids: Seq::empty(), ..m };
        lemma_without_own(m);
        assert(after.blocks() =~= m.blocks());
        assert(after.entries() =~= m.blocks().flatten());
    } else {
        let i = m.keys.index_of(text[0]);
        let child = m.children[i];
        assert(child.wf());
        lemma_removed_entries(child, text.skip(1));
        let below = child.removed(text.skip(1));
        lemma_without_below(m, text, i);
        if below.alive() {
            lemma_entries_update(m, i, below);
        } else {
            lemma_leaf_entries(below);
            lemma_entries_remove(m, i);
            let head = m.own_entries() + m.blocks().take(i).flatten();
            assert(prefixed(text[0], Seq::<Entry>::empty()) =~= Seq::<Entry>::empty());
            assert(head + Seq::<Entry>::empty() =~= head);
        }
    }
}

/// Matching a prefix below a child, seen from the parent, is matching the
/// prefix that starts with the child's key and goes on with it.
proof fn lemma_block_matching(c: char, entries: Seq<Entry>, rest: Seq<char>)
    ensures
        matching(prefixed(c, entries), seq![c] + rest) == prefixed(c, matching(entries, rest)),
{
    let prefix = seq![c] + rest;
    assert forall|k: int| 0 <= k < entries.len() implies starts_with(rest)(
        #[trigger] entries[k],
    ) == starts_with(prefix)(lift(c)(entries[k])) by {
        let e = entries[k];
        let text = seq![c] + e.0;
        if rest.is_prefix_of(e.0) {
            assert(text.subrange(0, prefix.len() as int) =~= prefix);
        }
        if prefix.is_prefix_of(text) {
            assert(e.0.subrange(0, rest.len() as int) =~= text.subrange(
                0,
                prefix.len() as int,
            ).skip(1));
            assert(prefix.skip(1) =~= rest);
        }
    }
    lemma_filter_map(entries, lift(c), starts_with(prefix), starts_with(rest));
}

/// No entry of a node itself starts with a non-empty prefix.
proof fn lemma_own_matching(m: TrieModel, prefix: Seq<char>)
    requires
        prefix.len() > 0,
    ensures
        matching(m.own_entries(), prefix) == Seq::<Entry>::empty(),
{
    let pass = starts_with(prefix);
    assert forall|k: int| 0 <= k < m.own_entries().len() implies !pass(
        #[trigger] m.own_entries()[k],
    ) by {
        assert(m.own_entries()[k].0.len() == 0);
    }
    lemma_filter_none(m.own_entries(), pass);
}

/// The entries that start with a non-empty prefix lie below the child that
/// the prefix's first character leads to, where they start with the rest of
/// the prefix; without such a child there are none.
pub proof fn lemma_matching_step(m: TrieModel, prefix: Seq<char>)
    requires
        m.wf(),
        prefix.len() > 0,
    ensures
        match m.child(prefix[0]) {
            Some(below) => matching(m.entries(), prefix) == prefixed(
                prefix[0],
                matching(below.entries(), prefix.skip(1)),
            ),
            None => matching(m.entries(), prefix) == Seq::<Entry>::empty(),
        },
{
    let c = prefix[0];
    let pass = starts_with(prefix);
    assert(seq![c] + prefix.skip(1) =~= prefix);
    lemma_own_matching(m, prefix);
    if m.keys.contains(c) {
        let i = m.keys.index_of(c);
        lemma_filter_split(m, i, pass);
        assert forall|e: Entry| e.0.len() > 0 && e.0[0] != m.keys[i] implies !#[trigger] pass(
            e,
        ) by {
            if prefix.is_prefix_of(e.0) {
                assert(e.0.subrange(0, prefix.len() as int)[0] == c);
            }
        }
        lemma_filter_siblings_none(m, i, pass);
        lemma_block_matching(c, m.children[i].entries(), prefix.skip(1));
        let hit = prefixed(c, matching(m.children[i].entries(), prefix.skip(1)));
        assert(Seq::<Entry>::empty() + Seq::<Entry>::empty() + hit + Seq::<Entry>::empty()
            =~= hit);
    } else {
        assert forall|j: int, l: int|
            0 <= j < m.blocks().len() && 0 <= l < m.blocks()[j].len() implies !pass(
            #[trigger] m.blocks()[j][l],
        ) by {
            lemma_block_entry(m, j, l);
            let text = m.blocks()[j][l].0;
            if prefix.is_prefix_of(text) {
                assert(text.subrange(0, prefix.len() as int)[0] == c);
                assert(m.keys[j] == c);
            }
        }
        lemma_filter_flatten_none(m.blocks(), pass);
        Seq::filter_distributes_over_add(m.own_entries(), m.blocks().flatten(), pass);
    }
}

/// Every entry starts with the empty prefix.
pub proof fn lemma_matching_all(entries: Seq<Entry>)
    ensures
        matching(entries, Seq::empty()) == entries,
{
    let pass = starts_with(Seq::empty());
    assert forall|k: int| 0 <= k < entries.len() implies pass(#[trigger] entries[k]) by {
        assert(entries[k].0.subrange(0, 0) =~= Seq::<char>::empty());
    }
    lemma_filter_all(entries, pass);
}

/// The identifiers of a subtree's entries are the same seen from the parent.
pub proof fn lemma_prefixed_ids(c: char, entries: Seq<Entry>)
    ensures
        entry_ids(prefixed(c, entries)) == entry_ids(entries),
{
    assert(entry_ids(prefixed(c, entries)) =~= entry_ids(entries));
}

/// The number of children's nodes of a node one of whose children was
/// replaced.
proof fn lemma_count_update(m: TrieModel, i: int, below: TrieModel)
    requires
        0 <= i < m.children.len(),
    ensures
        (TrieModel { children: m.children.update(i, below), ..m }).node_count() == m.node_count()
            - m.children[i].node_count() + below.node_count(),
{
    let after = TrieModel { children: m.children.update(i, below), ..m };
    assert(after.child_counts() =~= m.child_counts().update(i, below.node_count()));
    lemma_sum_update(m.child_counts(), i, below.node_count());
}

/// Storing an identifier adds one node for each character of the text that
/// the walk could not follow.
pub proof fn lemma_inserted_count(m: TrieModel, text: Seq<char>, id: IdType)
    requires
        m.wf(),
    ensures
        m.walk(text) <= text.len(),
        m.inserted(text, id).node_count() == m.node_count() + text.len() - m.walk(text),
    decreases text.len(),
{
    let after = m.inserted(text, id);
    if text.len() == 0 {
        assert(after.child_counts() =~= m.child_counts());
    } else {
        let c = text[0];
        let rest = text.skip(1);
        if m.keys.contains(c) {
            let i = m.keys.index_of(c);
            assert(m.children[i].wf());
            lemma_inserted_count(m.children[i], rest, id);
            lemma_count_update(m, i, m.children[i].inserted(rest, id));
        } else {
            let fresh = TrieModel::empty();
            lemma_inserted_count(fresh, rest, id);
            assert(fresh.child_counts() =~= Seq::empty());
            let grown = fresh.inserted(rest, id);
            assert(after.child_counts() =~= m.child_counts().push(grown.node_count()));
            assert(m.child_counts().push(grown.node_count()).drop_last() =~= m.child_counts());
        }
    }
}

/// Removing a text drops one node for each character of the text that the
/// walk can no longer follow.
pub proof fn lemma_removed_count(m: TrieModel, text: Seq<char>)
    requires
        m.wf(),
    ensures
        m.removed(text).walk(text) <= m.walk(text) <= text.len(),
        m.terminal_at(text) ==> m.walk(text) == text.len(),
        !m.terminal_at(text) ==> m.removed(text) == m,
        m.removed(text).node_count() == m.node_count() - (m.walk(text) - m.removed(text).walk(
            text,
        )),
    decreases text.len(),
{
    let after = m.removed(text);
    if !m.terminal_at(text) {
        if text.len() > 0 && m.keys.contains(text[0]) {
            let i = m.keys.index_of(text[0]);
            assert(m.children[i].wf());
            lemma_removed_count(m.children[i], text.skip(1));
        }
    } else if text.len() == 0 {
        assert(after.child_counts() =~= m.child_counts());
    } else {
        let c = text[0];
        let rest = text.skip(1);
        let i = m.keys.index_of(c);
        let child = m.children[i];
        assert(child.wf());
        lemma_removed_count(child, rest);
        let below = child.removed(rest);
        if below.alive() {
            lemma_count_update(m, i, below);
        } else {
            assert(below.child_counts() =~= Seq::empty());
            assert(after.child_counts() =~= m.child_counts().remove(i));
            lemma_sum_remove(m.child_counts(), i);
            assert(!after.keys.contains(c)) by {
                if after.keys.contains(c) {
                    let j = choose|j: int| 0 <= j < after.keys.len() && after.keys[j] == c;
                    let j0 = if j < i { j } else { j + 1 };
                    assert(m.keys[j0] == c);
                }
            }
        }
    }
}

} // verus!
