//! A word tree (trie) storing words in a compact form, so that a word can
//! be checked in time proportional to its length.
use crate::game::tile::Letter;
use crate::util::fsm::{letters_filter, str_letters_filtered};
use vstd::prelude::*;

verus! {

broadcast use crate::game::tile::group_letter;

/// Index of a node in a [`WordTree`], so that the node can be retrieved in
/// constant time.
#[derive(Clone, Copy, Debug, PartialEq, Eq, Structural)]
pub struct NodeIndex(pub usize);

/// A node in the tree, representing a letter in a word.
#[derive(Debug)]
pub struct Node {
    is_terminal: bool,
    children: [Option<NodeIndex>; 26],
}

impl Node {
    /// Whether a word ends at this node.
    pub closed spec fn spec_terminal(&self) -> bool {
        self.is_terminal
    }

    /// The child of this node reached by letter number `k`.
    pub closed spec fn spec_child(&self, k: int) -> Option<NodeIndex> {
        if 0 <= k < 26 {
            self.children@[k]
        } else {
            None
        }
    }

    /// Sets a child by key (letter).
    pub fn set_child(&mut self, letter: Letter, idx: NodeIndex)
        ensures
            final(self).spec_terminal() == old(self).spec_terminal(),
            forall|k: int| #[trigger] final(self).spec_child(k) == if k == letter.index() {
                Some(idx)
            } else {
                old(self).spec_child(k)
            },
    {
        let i = letter.to_index();
        self.children[i] = Some(idx);
    }

    /// Gets an optional child by key (letter).
    pub fn get_child(&self, letter: Letter) -> (r: Option<NodeIndex>)
        ensures
            r == self.spec_child(letter.index() as int),
    {
        self.children[letter.to_index()]
    }

    /// Gets the node's children, by letter.
    pub fn children(&self) -> (r: Vec<Option<NodeIndex>>)
        ensures
            r@.len() == 26,
            forall|k: int| 0 <= k < 26 ==> #[trigger] r@[k] == self.spec_child(k),
    {
        let mut r: Vec<Option<NodeIndex>> = Vec::new();
        let mut k: usize = 0;
        while k < 26
            invariant
                k <= 26,
                r@.len() == k,
                forall|j: int| 0 <= j < k ==> #[trigger] r@[j] == self.spec_child(j),
            decreases 26 - k,
        {
            r.push(self.children[k]);
            k = k + 1;
        }
        r
    }

    /// Checks whether the node is terminal, meaning that a word ends at
    /// this point.
    pub fn is_terminal(&self) -> (r: bool)
        ensures
            r == self.spec_terminal(),
    {
        self.is_terminal
    }

    /// Sets the `is_terminal` property.
    pub fn set_terminal(&mut self, is_terminal: bool)
        ensures
            final(self).spec_terminal() == is_terminal,
            forall|k: int| #[trigger] final(self).spec_child(k) == old(self).spec_child(k),
    {
        self.is_terminal = is_terminal;
    }

    /// Creates a new node with no children, terminal as given.
    pub fn new(is_terminal: bool) -> (n: Node)
        ensures
            n.spec_terminal() == is_terminal,
            forall|k: int| #[trigger] n.spec_child(k) is None,
    {
        let children: [Option<NodeIndex>; 26] = vstd::array::array_fill_for_copy_types(None);
        proof {
            assert(children == vstd::array::spec_array_fill_for_copy_type::<Option<NodeIndex>, 26>(None));
        }
        Node { is_terminal, children }
    }
}

impl Default for Node {
    fn default() -> (n: Node)
        ensures
            !n.spec_terminal(),
            forall|k: int| #[trigger] n.spec_child(k) is None,
    {
        Node::new(false)
    }
}

/// The child of node `i` of `nodes` reached by letter `l`.
pub open spec fn child_of(nodes: Seq<Node>, i: int, l: Letter) -> Option<NodeIndex> {
    nodes[i].spec_child(l.index() as int)
}

/// The node reached from node `s` of `nodes` by following the letters of
/// `w`, if every step exists.
pub open spec fn trace(nodes: Seq<Node>, s: int, w: Seq<Letter>) -> Option<int>
    decreases w.len(),
{
    if w.len() == 0 {
        Some(s)
    } else {
        match trace(nodes, s, w.drop_last()) {
            Some(p) => match child_of(nodes, p, w.last()) {
                Some(c) => Some(c.0 as int),
                None => None,
            },
            None => None,
        }
    }
}

/// Whether `w` is a word of the tree `nodes`: following it from the root
/// ends on a terminal node.
pub open spec fn accepts(nodes: Seq<Node>, w: Seq<Letter>) -> bool {
    match trace(nodes, 0, w) {
        Some(j) => nodes[j].spec_terminal(),
        None => false,
    }
}

/// Every child index names a node.
pub open spec fn indices_ok(nodes: Seq<Node>) -> bool {
    forall|i: int, k: int| 0 <= i < nodes.len() && #[trigger] nodes[i].spec_child(k) is Some
        ==> nodes[i].spec_child(k).unwrap().0 < nodes.len()
}

/// The nodes form a tree below node zero: child indices name nodes, the
/// root is nobody's child, and every other node has at most one parent.
pub open spec fn is_tree(nodes: Seq<Node>) -> bool {
    &&& nodes.len() >= 1
    &&& indices_ok(nodes)
    &&& forall|i: int, k: int| 0 <= i < nodes.len() && #[trigger] nodes[i].spec_child(k) is Some
        ==> nodes[i].spec_child(k).unwrap().0 != 0
    &&& forall|i1: int, k1: int, i2: int, k2: int|
        0 <= i1 < nodes.len() && 0 <= i2 < nodes.len() && #[trigger] nodes[i1].spec_child(k1) is Some
        && nodes[i1].spec_child(k1) == #[trigger] nodes[i2].spec_child(k2) ==> i1 == i2 && k1 == k2
}

/// A data structure designed to store words in a compact format, so that
/// words can be validated in time linear in their length. Nodes are kept
/// in a single vector, each holding the indices of its children.
#[derive(Debug)]
pub struct WordTree {
    root: NodeIndex,
    nodes: Vec<Node>,
}

impl WordTree {
    /// The nodes of the tree.
    pub closed spec fn spec_nodes(&self) -> Seq<Node> {
        self.nodes@
    }

    /// The root is node zero.
    pub closed spec fn spec_root(&self) -> NodeIndex {
        self.root
    }

    /// The tree is well formed, with its root at node zero.
    pub open spec fn wf(&self) -> bool {
        is_tree(self.spec_nodes()) && self.spec_root() == NodeIndex(0)
    }

    /// Whether the letters `w` form a word of the tree.
    pub open spec fn spec_contains(&self, w: Seq<Letter>) -> bool {
        accepts(self.spec_nodes(), w)
    }

    /// Gets the [`NodeIndex`] of the root node.
    pub fn root_idx(&self) -> (r: NodeIndex)
        ensures
            r == self.spec_root(),
    {
        self.root
    }

    /// Borrows a [`Node`] from a [`NodeIndex`].
    pub fn node(&self, idx: NodeIndex) -> (r: &Node)
        requires
            idx.0 < self.spec_nodes().len(),
        ensures
            *r == self.spec_nodes()[idx.0 as int],
    {
        &self.nodes[idx.0]
    }

    /// Mutably borrows a [`Node`] from a [`NodeIndex`].
    pub fn node_mut(&mut self, idx: NodeIndex) -> (r: &mut Node)
        requires
            idx.0 < old(self).spec_nodes().len(),
        ensures
            *r == old(self).spec_nodes()[idx.0 as int],
            final(self).spec_nodes() == old(self).spec_nodes().update(idx.0 as int, *final(r)),
            final(self).spec_root() == old(self).spec_root(),
    {
        &mut self.nodes[idx.0]
    }

    /// Traces the path of `letters` from the node `root`, giving the final
    /// node if the path exists.
    pub fn trace_word(&self, root: NodeIndex, letters: &[Letter]) -> (r: Option<NodeIndex>)
        requires
            indices_ok(self.spec_nodes()),
            root.0 < self.spec_nodes().len(),
        ensures
            r matches Some(n) ==> trace(self.spec_nodes(), root.0 as int, letters@) == Some(n.0 as int)
                && n.0 < self.spec_nodes().len(),
            r is None ==> trace(self.spec_nodes(), root.0 as int, letters@) is None,
    {
        let mut curr = root;
        let mut i: usize = 0;
        while i < letters.len()
            invariant
                i <= letters@.len(),
                indices_ok(self.spec_nodes()),
                curr.0 < self.spec_nodes().len(),
                trace(self.spec_nodes(), root.0 as int, letters@.subrange(0, i as int)) == Some(curr.0 as int),
            decreases letters@.len() - i,
        {
            let ghost pre = letters@.subrange(0, i as int + 1);
            proof {
                assert(pre.drop_last() =~= letters@.subrange(0, i as int));
            }
            match self.nodes[curr.0].get_child(letters[i]) {
                Some(c) => {
                    curr = c;
                },
                None => {
                    proof {
                        lemma_trace_stuck(self.spec_nodes(), root.0 as int, letters@, i as int + 1);
                    }
                    return None;
                },
            }
            i = i + 1;
        }
        proof {
            assert(letters@.subrange(0, i as int) =~= letters@);
        }
        Some(curr)
    }

    /// Checks whether a sequence of [`Letter`]s is a word of the tree.
    pub fn contains_letters(&self, letters: &[Letter]) -> (r: bool)
        requires
            self.wf(),
        ensures
            r == self.spec_contains(letters@),
    {
        match self.trace_word(self.root, letters) {
            Some(idx) => self.nodes[idx.0].is_terminal(),
            None => false,
        }
    }

    /// Checks whether a full word is contained within the tree; characters
    /// other than latin letters are skipped.
    pub fn contains(&self, word: &str) -> (r: bool)
        requires
            self.wf(),
        ensures
            r == self.spec_contains(letters_filter(word@)),
    {
        let letters = str_letters_filtered(word);
        self.contains_letters(letters.as_slice())
    }
}

/// A path that fails to continue stays failed.
proof fn lemma_trace_stuck(nodes: Seq<Node>, s: int, w: Seq<Letter>, k: int)
    requires
        0 <= k <= w.len(),
        trace(nodes, s, w.subrange(0, k)) is None,
    ensures
        trace(nodes, s, w) is None,
    decreases w.len() - k,
{
    if k < w.len() {
        assert(w.subrange(0, k + 1).drop_last() =~= w.subrange(0, k));
        lemma_trace_stuck(nodes, s, w, k + 1);
    } else {
        assert(w.subrange(0, k) =~= w);
    }
}

impl Default for WordTree {
    fn default() -> (t: WordTree)
        ensures
            t.wf(),
            forall|w: Seq<Letter>| !t.spec_contains(w),
    {
        let mut nodes: Vec<Node> = Vec::new();
        nodes.push(Node::new(false));
        let t = WordTree { root: NodeIndex(0), nodes };
        proof {
            assert forall|w: Seq<Letter>| !t.spec_contains(w) by {
                lemma_single_node(t.spec_nodes(), w);
            }
        }
        t
    }
}

/// A tree of one node holds no word: only the empty path exists, and the
/// root is not terminal.
proof fn lemma_single_node(nodes: Seq<Node>, w: Seq<Letter>)
    requires
        nodes.len() == 1,
        !nodes[0].spec_terminal(),
        forall|k: int| #[trigger] nodes[0].spec_child(k) is None,
    ensures
        trace(nodes, 0, w) == if w.len() == 0 { Some(0int) } else { None },
    decreases w.len(),
{
    if w.len() > 0 {
        lemma_single_node(nodes, w.drop_last());
    }
}

/// Traces from the root of a tree stay on its nodes.
proof fn lemma_trace_bound(nodes: Seq<Node>, v: Seq<Letter>)
    requires
        nodes.len() >= 1,
        indices_ok(nodes),
    ensures
        trace(nodes, 0, v) matches Some(j) ==> 0 <= j < nodes.len(),
    decreases v.len(),
{
    if v.len() > 0 {
        lemma_trace_bound(nodes, v.drop_last());
    }
}

/// In a tree, distinct words lead to distinct nodes.
proof fn lemma_trace_injective(nodes: Seq<Node>, v1: Seq<Letter>, v2: Seq<Letter>)
    requires
        is_tree(nodes),
        trace(nodes, 0, v1) is Some,
        trace(nodes, 0, v1) == trace(nodes, 0, v2),
    ensures
        v1 == v2,
    decreases v1.len() + v2.len(),
{
    lemma_trace_bound(nodes, v1);
    if v1.len() == 0 && v2.len() == 0 {
        assert(v1 =~= v2);
    } else if v1.len() == 0 || v2.len() == 0 {
        let v = if v1.len() == 0 { v2 } else { v1 };
        lemma_trace_bound(nodes, v.drop_last());
        let p = trace(nodes, 0, v.drop_last())->0;
        assert(nodes[p].spec_child(v.last().index() as int) is Some);
    } else {
        lemma_trace_bound(nodes, v1.drop_last());
        lemma_trace_bound(nodes, v2.drop_last());
        let p1 = trace(nodes, 0, v1.drop_last())->0;
        let p2 = trace(nodes, 0, v2.drop_last())->0;
        let k1 = v1.last().index() as int;
        let k2 = v2.last().index() as int;
        assert(nodes[p1].spec_child(k1) is Some);
        assert(nodes[p1].spec_child(k1) == nodes[p2].spec_child(k2));
        assert(p1 == p2 && k1 == k2);
        assert(v1.last() == v2.last()) by {
            assert(Letter::with_index(v1.last().index()) == v1.last());
            assert(Letter::with_index(v2.last().index()) == v2.last());
        }
        lemma_trace_injective(nodes, v1.drop_last(), v2.drop_last());
        assert(v1 =~= v1.drop_last().push(v1.last()));
        assert(v2 =~= v2.drop_last().push(v2.last()));
    }
}

/// Growing a tree by adding edges only where there were none, and only to
/// new nodes whose own edges lead to new nodes, keeps every path, and every
/// path that ends on an old node was there before.
proof fn lemma_grow(old: Seq<Node>, new: Seq<Node>, v: Seq<Letter>)
    requires
        old.len() >= 1,
        new.len() >= old.len(),
        indices_ok(old),
        indices_ok(new),
        forall|i: int, k: int| 0 <= i < old.len() && #[trigger] old[i].spec_child(k) is Some ==> new[i].spec_child(k)
            == old[i].spec_child(k),
        forall|i: int, k: int| 0 <= i < old.len() && #[trigger] new[i].spec_child(k) is Some
            && new[i].spec_child(k).unwrap().0 < old.len() ==> old[i].spec_child(k) == new[i].spec_child(k),
        forall|i: int, k: int| old.len() <= i < new.len() && #[trigger] new[i].spec_child(k) is Some
            ==> new[i].spec_child(k).unwrap().0 >= old.len(),
    ensures
        trace(old, 0, v) is Some ==> trace(new, 0, v) == trace(old, 0, v),
        trace(new, 0, v) matches Some(j) && j < old.len() ==> trace(old, 0, v) == trace(new, 0, v),
    decreases v.len(),
{
    if v.len() > 0 {
        lemma_grow(old, new, v.drop_last());
        lemma_trace_bound(old, v.drop_last());
        lemma_trace_bound(new, v.drop_last());
    }
}

/// Trees whose nodes have the same children have the same paths.
proof fn lemma_same_children(a: Seq<Node>, b: Seq<Node>, v: Seq<Letter>)
    requires
        a.len() == b.len(),
        forall|i: int, k: int| 0 <= i < a.len() ==> #[trigger] a[i].spec_child(k) == b[i].spec_child(k),
        indices_ok(a),
        a.len() >= 1,
    ensures
        trace(a, 0, v) == trace(b, 0, v),
    decreases v.len(),
{
    if v.len() > 0 {
        lemma_same_children(a, b, v.drop_last());
        lemma_trace_bound(a, v.drop_last());
    }
}

impl WordTree {
    /// Inserts a `word` into the tree; characters other than latin letters
    /// are skipped. Afterwards the tree holds exactly the words it held
    /// before and this one, every path of the old tree leads where it led,
    /// and every prefix of the word is a path from the root.
    pub fn insert(&mut self, word: &str)
        requires
            old(self).wf(),
        ensures
            final(self).wf(),
            forall|v: Seq<Letter>| #[trigger] final(self).spec_contains(v) == (old(self).spec_contains(v) || v
                == letters_filter(word@)),
            forall|v: Seq<Letter>| #[trigger] trace(old(self).spec_nodes(), 0, v) is Some
                ==> trace(final(self).spec_nodes(), 0, v) == trace(old(self).spec_nodes(), 0, v),
            forall|k: int| 0 <= k <= letters_filter(word@).len()
                ==> #[trigger] trace(final(self).spec_nodes(), 0, letters_filter(word@).subrange(0, k)) is Some,
    {
        let letters = str_letters_filtered(word);
        let ghost nodes0 = self.nodes@;
        let ghost n0 = nodes0.len();
        let mut curr = self.root;
        let mut i: usize = 0;
        while i < letters.len()
            invariant
                i <= letters@.len(),
                self.root == NodeIndex(0),
                n0 == nodes0.len(),
                is_tree(nodes0),
                is_tree(self.nodes@),
                self.nodes@.len() >= n0,
                forall|j: int, k: int| 0 <= j < n0 && #[trigger] nodes0[j].spec_child(k) is Some
                    ==> self.nodes@[j].spec_child(k) == nodes0[j].spec_child(k),
                forall|j: int, k: int| 0 <= j < n0 && #[trigger] self.nodes@[j].spec_child(k) is Some
                    && self.nodes@[j].spec_child(k).unwrap().0 < n0 ==> nodes0[j].spec_child(k) == self.nodes@[j].spec_child(k),
                forall|j: int, k: int| n0 <= j < self.nodes@.len() && #[trigger] self.nodes@[j].spec_child(k) is Some
                    ==> self.nodes@[j].spec_child(k).unwrap().0 >= n0,
                forall|j: int| 0 <= j < n0 ==> (#[trigger] self.nodes@[j]).spec_terminal() == nodes0[j].spec_terminal(),
                forall|j: int| n0 <= j < self.nodes@.len() ==> !(#[trigger] self.nodes@[j]).spec_terminal(),
                curr.0 < self.nodes@.len(),
                trace(self.nodes@, 0, letters@.subrange(0, i as int)) == Some(curr.0 as int),
                forall|j: int| 0 <= j <= i ==> #[trigger] trace(self.nodes@, 0, letters@.subrange(0, j)) is Some,
            decreases letters@.len() - i,
        {
            let letter = letters[i];
            let ghost before = self.nodes@;
            let ghost pre = letters@.subrange(0, i as int);
            proof {
                assert(letters@.subrange(0, i as int + 1).drop_last() =~= pre);
            }
            match self.nodes[curr.0].get_child(letter) {
                Some(idx) => {
                    curr = idx;
                },
                None => {
                    let n = self.nodes.len();
                    self.nodes.push(Node::default());
                    let ghost pushed = self.nodes@;
                    self.node_mut(curr).set_child(letter, NodeIndex(n));
                    proof {
                        let after = self.nodes@;
                        let kl = letter.index() as int;
                        assert forall|j: int, k: int| 0 <= j < after.len() implies #[trigger] after[j].spec_child(k)
                            == if j == curr.0 && k == kl { Some(NodeIndex(n)) } else if j < n { before[j].spec_child(k) } else { None } by {
                            if j == curr.0 {
                            } else if j < n {
                                assert(after[j] == before[j]);
                            } else {
                                assert(after[j] == pushed[j]);
                            }
                        }
                        assert forall|j: int| 0 <= j < after.len() implies (#[trigger] after[j]).spec_terminal()
                            == if j < n { before[j].spec_terminal() } else { false } by {
                            if j != curr.0 && j < n {
                                assert(after[j] == before[j]);
                            }
                        }
                        assert(is_tree(after));
                        lemma_grow(before, after, pre);
                        assert forall|j: int| 0 <= j <= i implies #[trigger] trace(after, 0, letters@.subrange(0, j)) is Some by {
                            lemma_grow(before, after, letters@.subrange(0, j));
                        }
                    }
                    curr = NodeIndex(n);
                },
            }
            i = i + 1;
        }
        proof {
            assert(letters@.subrange(0, i as int) =~= letters@);
        }
        let ghost grown = self.nodes@;
        self.node_mut(curr).set_terminal(true);
        proof {
            let fin = self.nodes@;
            let w = letters@;
            assert forall|j: int, k: int| 0 <= j < fin.len() implies #[trigger] fin[j].spec_child(k)
                == grown[j].spec_child(k) by {
                if j != curr.0 {
                    assert(fin[j] == grown[j]);
                }
            }
            assert(is_tree(fin));
            assert forall|v: Seq<Letter>| #[trigger] trace(nodes0, 0, v) is Some implies trace(fin, 0, v) == trace(nodes0, 0, v) by {
                lemma_grow(nodes0, grown, v);
                lemma_same_children(grown, fin, v);
            }
            assert forall|k: int| 0 <= k <= w.len() implies #[trigger] trace(fin, 0, w.subrange(0, k)) is Some by {
                lemma_same_children(grown, fin, w.subrange(0, k));
            }
            assert forall|v: Seq<Letter>| #[trigger] accepts(fin, v) == (accepts(nodes0, v) || v == w) by {
                lemma_same_children(grown, fin, v);
                lemma_same_children(grown, fin, w);
                lemma_grow(nodes0, grown, v);
                lemma_trace_bound(nodes0, v);
                lemma_trace_bound(grown, v);
                if accepts(fin, v) {
                    let j = trace(fin, 0, v)->0;
                    if j == curr.0 {
                        lemma_trace_injective(grown, v, w);
                    } else {
                        assert(fin[j] == grown[j]);
                    }
                }
                if accepts(nodes0, v) {
                    let j = trace(nodes0, 0, v)->0;
                    if j != curr.0 {
                        assert(fin[j] == grown[j]);
                    }
                }
            }
        }
    }
}

} // verus!
