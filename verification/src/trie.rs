//! A character-keyed trie of completions. Each node owns its children; a node
//! at which a completion ends is terminal and holds the identifiers given to
//! that completion.
use vstd::prelude::*;
use crate::footprint::{add_sizes, clamp};
use crate::seqs::{lemma_filter_all, lemma_filter_contains, lemma_flatten_append, sum};
use crate::types::IdType;

pub mod model;

pub use model::{
    Entry, TrieModel, differs_from, entry_ids, has_text, lemma_index_of_unique,
    lemma_inserted_count, lemma_inserted_entries, lemma_inserted_shape, lemma_leaf_entries,
    lemma_matching_all, lemma_matching_step, lemma_prefixed_ids, lemma_removed_count,
    lemma_removed_entries, lemma_removed_shape, lemma_terminal_has_text, lemma_text_is_terminal,
    lift, matching, prefixed, starts_with, without,
};

verus! {

/// A node of a completion trie.
pub struct TrieNode {
    keys: Vec<char>,
    children: Vec<TrieNode>,
    is_terminal: bool,
    completion_ids: Vec<IdType>,
}

impl View for TrieNode {
    type V = TrieModel;

    closed spec fn view(&self) -> TrieModel
        decreases self,
    {
        TrieModel {
            keys: self.keys@,
            children: Seq::new(
                self.children.len() as nat,
                |i: int|
                    if 0 <= i < self.children.len() {
                        self.children[i].view()
                    } else {
                        TrieModel::empty()
                    },
            ),
            terminal: self.is_terminal,
            ids: self.completion_ids@,
        }
    }
}

impl TrieNode {
    /// Creates a node without children, mark or identifiers.
    pub fn new() -> (node: Self)
        ensures
            node@ == TrieModel::empty(),
    {
        let node = Self {
            keys: Vec::new(),
            children: Vec::new(),
            is_terminal: false,
            completion_ids: Vec::new(),
        };
        assert(node@.children =~= Seq::empty());
        node
    }

    /// The position of the child reached by `c`.
    fn find_child(&self, c: char) -> (found: Option<usize>)
        requires
            self@.wf(),
        ensures
            match found {
                Some(i) => i < self.keys.len() && self.keys[i as int] == c
                    && self@.keys.contains(c) && self@.keys.index_of(c) == i,
                None => !self@.keys.contains(c),
            },
    {
        let mut i: usize = 0;
        while i < self.keys.len()
            invariant
                i <= self.keys.len(),
                self@.wf(),
                forall|j: int| 0 <= j < i ==> self.keys[j] != c,
            decreases self.keys.len() - i,
        {
            if self.keys[i] == c {
                proof {
                    lemma_index_of_unique(self@.keys, i as int);
                }
                return Some(i);
            }
            i += 1;
        }
        None
    }

    /// Returns the child reached by `c`, creating an empty one at the end of
    /// the children if there is none. The node's value follows what the caller
    /// does to the child.
    pub fn add_child(&mut self, c: char) -> (child: &mut TrieNode)
        requires
            old(self)@.wf(),
        ensures
            final(self)@.terminal == old(self)@.terminal,
            final(self)@.ids == old(self)@.ids,
            match old(self)@.child(c) {
                Some(present) => {
                    &&& child@ == present
                    &&& final(self)@.keys == old(self)@.keys
                    &&& final(self)@.children =~= old(self)@.children.update(
                        old(self)@.keys.index_of(c),
                        final(child)@,
                    )
                },
                None => {
                    &&& child@ == TrieModel::empty()
                    &&& final(self)@.keys == old(self)@.keys.push(c)
                    &&& final(self)@.children =~= old(self)@.children.push(final(child)@)
                },
            },
    {
        match self.find_child(c) {
            Some(i) => &mut self.children[i],
            None => {
                self.keys.push(c);
                self.children.push(TrieNode::new());
                let last = self.children.len() - 1;
                &mut self.children[last]
            },
        }
    }

    /// Returns the child reached by `c`, if there is one.
    pub fn get_child(&self, c: char) -> (child: Option<&TrieNode>)
        requires
            self@.wf(),
        ensures
            match child {
                Some(node) => self@.child(c) == Some(node@),
                None => self@.child(c) is None,
            },
    {
        match self.find_child(c) {
            Some(i) => Some(&self.children[i]),
            None => None,
        }
    }

    /// Whether a completion ends at this node.
    pub fn is_terminal(&self) -> (terminal: bool)
        ensures
            terminal == self@.terminal,
    {
        self.is_terminal
    }

    /// Marks the node as the end of a completion.
    pub fn set_terminal(&mut self)
        ensures
            final(self)@ == (TrieModel { terminal: true, ..old(self)@ }),
    {
        self.is_terminal = true;
        assert(final(self)@.children =~= old(self)@.children);
    }

    /// Appends `id` to the identifiers held at this node.
    pub fn add_completion_id(&mut self, id: IdType)
        ensures
            final(self)@ == (TrieModel { ids: old(self)@.ids.push(id), ..old(self)@ }),
    {
        self.completion_ids.push(id);
        assert(final(self)@.children =~= old(self)@.children);
    }

    /// The identifiers held at this node, in the order in which they came.
    pub fn completion_ids(&self) -> (ids: &[IdType])
        ensures
            ids@ == self@.ids,
    {
        self.completion_ids.as_slice()
    }

    /// Whether the node is terminal or has a child.
    fn is_alive(&self) -> (alive: bool)
        ensures
            alive == self@.alive(),
    {
        self.is_terminal || self.children.len() > 0
    }

    /// Stores `id` under the characters of `text` from `pos` on.
    fn insert_path(&mut self, text: &Vec<char>, pos: usize, id: IdType)
        requires
            old(self)@.wf(),
            pos <= text.len(),
        ensures
            final(self)@ == old(self)@.inserted(text@.skip(pos as int), id),
        decreases text.len() - pos,
    {
        let ghost rest = text@.skip(pos as int);
        if pos == text.len() {
            self.is_terminal = true;
            self.completion_ids.push(id);
            assert(final(self)@.children =~= old(self)@.children);
        } else {
            let c = text[pos];
            assert(rest[0] == c);
            assert(rest.skip(1) =~= text@.skip(pos + 1));
            proof {
                if self@.keys.contains(c) {
                    assert(self@.children[self@.keys.index_of(c)].wf());
                }
            }
            let child = self.add_child(c);
            child.insert_path(text, pos + 1, id);
        }
    }

    /// Removes what is stored under the characters of `text` from `pos` on,
    /// and prunes the child on the way if it is left a dead end.
    fn remove_path(&mut self, text: &Vec<char>, pos: usize) -> (removed: bool)
        requires
            old(self)@.wf(),
            pos <= text.len(),
        ensures
            removed == old(self)@.terminal_at(text@.skip(pos as int)),
            final(self)@ == old(self)@.removed(text@.skip(pos as int)),
        decreases text.len() - pos,
    {
        let ghost rest = text@.skip(pos as int);
        if pos == text.len() {
            if !self.is_terminal {
                return false;
            }
            self.is_terminal = false;
            self.completion_ids.clear();
            assert(final(self)@.children =~= old(self)@.children);
            true
        } else {
            let c = text[pos];
            assert(rest[0] == c);
            assert(rest.skip(1) =~= text@.skip(pos + 1));
            match self.find_child(c) {
                None => false,
                Some(i) => {
                    assert(self@.children[i as int].wf());
                    let removed = self.children[i].remove_path(text, pos + 1);
                    let ghost below = old(self)@.children[i as int].removed(rest.skip(1));
                    if removed && !self.children[i].is_alive() {
                        self.keys.remove(i);
                        self.children.remove(i);
                        assert(final(self)@.children =~= old(self)@.children.remove(i as int));
                    } else {
                        assert(final(self)@.children =~= old(self)@.children.update(
                            i as int,
                            below,
                        ));
                        assert(!removed ==> old(self)@.children.update(i as int, below)
                            =~= old(self)@.children);
                    }
                    removed
                },
            }
        }
    }

    /// Appends the identifiers of the subtree to `completions`, in depth-first
    /// order.
    fn collect(&self, completions: &mut Vec<IdType>)
        requires
            self@.wf(),
        ensures
            final(completions)@ == old(completions)@ + entry_ids(self@.entries()),
        decreases self,
    {
        if self.is_terminal {
            let mut k: usize = 0;
            while k < self.completion_ids.len()
                invariant
                    k <= self.completion_ids.len(),
                    completions@ == old(completions)@ + self.completion_ids@.take(k as int),
                decreases self.completion_ids.len() - k,
            {
                completions.push(self.completion_ids[k]);
                assert(self.completion_ids@.take(k + 1) =~= self.completion_ids@.take(
                    k as int,
                ).push(self.completion_ids[k as int]));
                k += 1;
            }
            assert(self.completion_ids@.take(k as int) =~= self.completion_ids@);
        }
        assert(completions@ =~= old(completions)@ + entry_ids(self@.own_entries()));
        let mut i: usize = 0;
        while i < self.children.len()
            invariant
                i <= self.children.len(),
                self@.wf(),
                completions@ == old(completions)@ + entry_ids(
                    self@.own_entries() + self@.blocks().take(i as int).flatten(),
                ),
            decreases self.children.len() - i,
        {
            assert(self@.children[i as int].wf());
            self.children[i].collect(completions);
            proof {
                let blocks = self@.blocks();
                assert(blocks.take(i + 1) =~= blocks.take(i as int).push(blocks[i as int]));
                lemma_flatten_append(blocks.take(i as int), blocks[i as int]);
                assert(entry_ids(blocks[i as int]) =~= entry_ids(
                    self@.children[i as int].entries(),
                ));
                assert(entry_ids(
                    self@.own_entries() + (blocks.take(i as int).flatten() + blocks[i as int]),
                ) =~= entry_ids(self@.own_entries() + blocks.take(i as int).flatten())
                    + entry_ids(blocks[i as int]));
            }
            i += 1;
        }
        assert(self@.blocks().take(i as int) =~= self@.blocks());
    }

    /// The number of entries of the subtree, or the largest `usize` if there
    /// are more.
    fn count_entries(&self) -> (n: usize)
        requires
            self@.wf(),
        ensures
            n == clamp(self@.entries().len() as int),
        decreases self,
    {
        let mut n: usize = if self.is_terminal {
            self.completion_ids.len()
        } else {
            0
        };
        let mut i: usize = 0;
        assert(self@.blocks().take(0).flatten() =~= Seq::<Entry>::empty());
        while i < self.children.len()
            invariant
                i <= self.children.len(),
                self@.wf(),
                n == clamp(
                    (self@.own_entries().len() + self@.blocks().take(i as int).flatten().len())
                        as int,
                ),
            decreases self.children.len() - i,
        {
            assert(self@.children[i as int].wf());
            let below = self.children[i].count_entries();
            proof {
                let blocks = self@.blocks();
                assert(blocks.take(i + 1) =~= blocks.take(i as int).push(blocks[i as int]));
                lemma_flatten_append(blocks.take(i as int), blocks[i as int]);
            }
            n = add_sizes(n, below);
            i += 1;
        }
        assert(self@.blocks().take(i as int) =~= self@.blocks());
        n
    }

    /// The number of nodes of the subtree, or the largest `usize` if there are
    /// more.
    fn count_nodes(&self) -> (n: usize)
        requires
            self@.wf(),
        ensures
            n == clamp(self@.node_count() as int),
        decreases self,
    {
        let mut n: usize = 1;
        let mut i: usize = 0;
        while i < self.children.len()
            invariant
                i <= self.children.len(),
                self@.wf(),
                n == clamp((1 + sum(self@.child_counts().take(i as int))) as int),
            decreases self.children.len() - i,
        {
            assert(self@.children[i as int].wf());
            let below = self.children[i].count_nodes();
            proof {
                let counts = self@.child_counts();
                assert(counts.take(i + 1).drop_last() =~= counts.take(i as int));
            }
            n = add_sizes(n, below);
            i += 1;
        }
        assert(self@.child_counts().take(i as int) =~= self@.child_counts());
        n
    }
}

/// The characters of a string, in order.
fn chars_of(s: &str) -> (chars: Vec<char>)
    ensures
        chars@ == s@,
{
    broadcast use vstd::string::group_string_axioms;

    let mut chars: Vec<char> = Vec::new();
    for c in it: s.chars()
        invariant
            it.seq() == s@,
            chars@ == s@.take(it.index() as int),
    {
        assert(s@.take(it.index() + 1) =~= s@.take(it.index() as int).push(c));
        chars.push(c);
    }
    assert(s@.take(s@.len() as int) =~= s@);
    chars
}

/// A trie of completions. Its value is the sequence of its entries in
/// depth-first order, children in the order in which they were created.
pub struct CompletionTrie {
    root: TrieNode,
}

impl View for CompletionTrie {
    type V = Seq<Entry>;

    open spec fn view(&self) -> Seq<Entry> {
        self.shape().entries()
    }
}

impl CompletionTrie {
    /// The tree itself: the value of the root.
    pub closed spec fn shape(&self) -> TrieModel {
        self.root@
    }

    /// No character leads two ways, a node is terminal exactly if it holds an
    /// identifier, and every node but the root is terminal or has a child.
    pub open spec fn wf(&self) -> bool {
        &&& self.shape().wf()
        &&& self.shape().tidy()
        &&& self.shape().compact()
    }

    /// The number of nodes, the root included.
    pub open spec fn node_count(&self) -> nat {
        self.shape().node_count()
    }

    /// How many characters of `text` the walk from the root can follow.
    pub open spec fn depth(&self, text: Seq<char>) -> nat {
        self.shape().walk(text)
    }

    /// Creates a trie that holds the root alone.
    pub fn new() -> (trie: Self)
        ensures
            trie.wf(),
            trie.shape() == TrieModel::empty(),
            trie@ == Seq::<Entry>::empty(),
            trie.node_count() == 1,
    {
        let trie = Self { root: TrieNode::new() };
        proof {
            lemma_leaf_entries(trie.root@);
            assert(trie.root@.child_counts() =~= Seq::empty());
        }
        trie
    }

    /// Stores `id` under `completion`: walks from the root along the
    /// characters of `completion`, creating the nodes it misses, marks the
    /// node it ends at terminal and appends `id` to that node's identifiers.
    /// The new entry takes its place among the old ones, whose order stays.
    pub fn insert(&mut self, completion: &str, id: IdType)
        requires
            old(self).wf(),
        ensures
            final(self).wf(),
            final(self).shape() == old(self).shape().inserted(completion@, id),
            exists|at: int|
                0 <= at <= old(self)@.len() && final(self)@ == #[trigger] old(self)@.insert(
                    at,
                    (completion@, id),
                ),
            final(self).node_count() == old(self).node_count() + completion@.len() - old(
                self,
            ).depth(completion@),
    {
        let chars = chars_of(completion);
        self.root.insert_path(&chars, 0, id);
        proof {
            assert(chars@.skip(0) =~= completion@);
            lemma_inserted_shape(old(self).root@, completion@, id);
            let at = lemma_inserted_entries(old(self).root@, completion@, id);
            assert(final(self)@ == old(self)@.insert(at, (completion@, id)));
            lemma_inserted_count(old(self).root@, completion@, id);
        }
    }

    /// The identifiers of the completions that start with `prefix`, in
    /// depth-first order; none if no walk follows `prefix`.
    pub fn complete(&self, prefix: &str) -> (ids: Vec<IdType>)
        requires
            self.wf(),
        ensures
            ids@ == entry_ids(matching(self@, prefix@)),
    {
        broadcast use vstd::string::group_string_axioms;

        let mut node = &self.root;
        assert(prefix@.skip(0) =~= prefix@);
        for c in it: prefix.chars()
            invariant
                it.seq() == prefix@,
                node@.wf(),
                entry_ids(matching(self@, prefix@)) == entry_ids(
                    matching(node@.entries(), prefix@.skip(it.index() as int)),
                ),
        {
            let ghost rest = prefix@.skip(it.index() as int);
            proof {
                assert(rest[0] == c);
                assert(rest.skip(1) =~= prefix@.skip(it.index() + 1));
                lemma_matching_step(node@, rest);
            }
            match node.get_child(c) {
                Some(next) => {
                    proof {
                        lemma_prefixed_ids(c, matching(next@.entries(), rest.skip(1)));
                        assert(node@.children[node@.keys.index_of(c)].wf());
                    }
                    node = next;
                },
                None => {
                    let none: Vec<IdType> = Vec::new();
                    assert(none@ =~= entry_ids(Seq::<Entry>::empty()));
                    return none;
                },
            }
        }
        proof {
            assert(prefix@.skip(prefix@.len() as int) =~= Seq::<char>::empty());
            lemma_matching_all(node@.entries());
        }
        let mut ids: Vec<IdType> = Vec::new();
        node.collect(&mut ids);
        assert(ids@ =~= entry_ids(node@.entries()));
        ids
    }

    /// Removes `completion`: returns false and changes nothing if no entry
    /// has that text. Otherwise the node at which it ends loses its mark and
    /// its identifiers, and each trailing node of the walk that is left
    /// neither terminal nor with a child is pruned.
    pub fn remove(&mut self, completion: &str) -> (removed: bool)
        requires
            old(self).wf(),
        ensures
            final(self).wf(),
            removed == has_text(old(self)@, completion@),
            final(self).shape() == old(self).shape().removed(completion@),
            final(self)@ == without(old(self)@, completion@),
            final(self).node_count() == old(self).node_count() - (old(self).depth(completion@)
                - final(self).depth(completion@)),
            removed ==> old(self).depth(completion@) == completion@.len(),
            !removed ==> final(self).depth(completion@) == old(self).depth(completion@),
    {
        let chars = chars_of(completion);
        let removed = self.root.remove_path(&chars, 0);
        proof {
            assert(chars@.skip(0) =~= completion@);
            lemma_removed_shape(old(self).root@, completion@);
            lemma_removed_entries(old(self).root@, completion@);
            lemma_removed_count(old(self).root@, completion@);
            if removed {
                lemma_terminal_has_text(old(self).root@, completion@);
            }
            if has_text(old(self)@, completion@) {
                lemma_text_is_terminal(old(self).root@, completion@);
            }
        }
        removed
    }

    /// Drops every node but the root, which it leaves empty.
    pub fn clear(&mut self)
        ensures
            final(self).wf(),
            final(self).shape() == TrieModel::empty(),
            final(self)@ == Seq::<Entry>::empty(),
            final(self).node_count() == 1,
    {
        self.root = TrieNode::new();
        proof {
            lemma_leaf_entries(self.root@);
            assert(self.root@.child_counts() =~= Seq::empty());
        }
    }

    /// The number of nodes, the root included, or the largest `usize` if
    /// there are more.
    pub fn num_nodes(&self) -> (n: usize)
        requires
            self.wf(),
        ensures
            n == clamp(self.node_count() as int),
    {
        self.root.count_nodes()
    }

    /// The number of entries, or the largest `usize` if there are more.
    pub fn num_completions(&self) -> (n: usize)
        requires
            self.wf(),
        ensures
            n == clamp(self@.len() as int),
    {
        self.root.count_entries()
    }
}

/// An identifier is among those of the entries that start with a prefix
/// exactly if some entry holds it under a text that starts with the prefix.
pub proof fn lemma_matching_ids(entries: Seq<Entry>, prefix: Seq<char>, id: IdType)
    ensures
        entry_ids(matching(entries, prefix)).contains(id) <==> exists|k: int|
            0 <= k < entries.len() && (#[trigger] entries[k]).1 == id && prefix.is_prefix_of(
                entries[k].0,
            ),
{
    let hits = matching(entries, prefix);
    if entry_ids(hits).contains(id) {
        let j = choose|j: int| 0 <= j < entry_ids(hits).len() && entry_ids(hits)[j] == id;
        assert(hits.contains(hits[j]));
        lemma_filter_contains(entries, starts_with(prefix), hits[j]);
        let k = choose|k: int| 0 <= k < entries.len() && entries[k] == hits[j];
        assert(entries[k].1 == id && prefix.is_prefix_of(entries[k].0));
    }
    if exists|k: int|
        0 <= k < entries.len() && (#[trigger] entries[k]).1 == id && prefix.is_prefix_of(
            entries[k].0,
        ) {
        let k = choose|k: int|
            0 <= k < entries.len() && (#[trigger] entries[k]).1 == id && prefix.is_prefix_of(
                entries[k].0,
            );
        assert(entries.contains(entries[k]));
        lemma_filter_contains(entries, starts_with(prefix), entries[k]);
        let j = choose|j: int| 0 <= j < hits.len() && hits[j] == entries[k];
        assert(entry_ids(hits)[j] == id);
    }
}

/// A completion that was stored is found under every prefix of its text.
pub proof fn lemma_stored_is_found(
    before: CompletionTrie,
    after: CompletionTrie,
    at: int,
    text: Seq<char>,
    id: IdType,
    prefix: Seq<char>,
)
    requires
        0 <= at <= before@.len(),
        after@ == before@.insert(at, (text, id)),
        prefix.is_prefix_of(text),
    ensures
        entry_ids(matching(after@, prefix)).contains(id),
{
    assert(after@[at] == (text, id));
    lemma_matching_ids(after@, prefix, id);
}

/// Extending a prefix can only narrow what is found: every identifier found
/// under the longer prefix is found under the shorter one.
pub proof fn lemma_prefix_monotone(trie: CompletionTrie, shorter: Seq<char>, longer: Seq<char>)
    requires
        shorter.is_prefix_of(longer),
    ensures
        entry_ids(matching(trie@, longer)).to_set().subset_of(
            entry_ids(matching(trie@, shorter)).to_set(),
        ),
{
    assert forall|id: IdType| entry_ids(matching(trie@, longer)).contains(id) implies entry_ids(
        matching(trie@, shorter),
    ).contains(id) by {
        lemma_matching_ids(trie@, longer, id);
        let k = choose|k: int|
            0 <= k < trie@.len() && (#[trigger] trie@[k]).1 == id && longer.is_prefix_of(
                trie@[k].0,
            );
        let text = trie@[k].0;
        assert(text.subrange(0, shorter.len() as int) =~= text.subrange(
            0,
            longer.len() as int,
        ).subrange(0, shorter.len() as int));
        assert(shorter.is_prefix_of(text));
        lemma_matching_ids(trie@, shorter, id);
    }
}

/// No entry that is left after a text was dropped has that text.
proof fn lemma_without_differs(entries: Seq<Entry>, text: Seq<char>, k: int)
    requires
        0 <= k < without(entries, text).len(),
    ensures
        without(entries, text)[k].0 != text,
{
    entries.lemma_filter_pred(differs_from(text), k);
}

/// Once a text is removed no entry has it any more, so that a second removal
/// finds nothing and changes nothing, and no prefix completes to it.
pub proof fn lemma_removed_is_gone(trie: CompletionTrie, text: Seq<char>, prefix: Seq<char>)
    ensures
        !has_text(without(trie@, text), text),
        without(without(trie@, text), text) == without(trie@, text),
        !has_text(matching(without(trie@, text), prefix), text),
{
    let left = without(trie@, text);
    assert forall|k: int| 0 <= k < left.len() implies differs_from(text)(#[trigger] left[k]) by {
        lemma_without_differs(trie@, text, k);
    }
    lemma_filter_all(left, differs_from(text));
    let hits = matching(left, prefix);
    assert forall|k: int| 0 <= k < hits.len() implies (#[trigger] hits[k]).0 != text by {
        assert(hits.contains(hits[k]));
        lemma_filter_contains(left, starts_with(prefix), hits[k]);
        let j = choose|j: int| 0 <= j < left.len() && left[j] == hits[k];
        lemma_without_differs(trie@, text, j);
    }
}

} // verus!
