use vstd::prelude::*;
use vstd::arithmetic::power2::{lemma_pow2_strictly_increases, lemma_pow2_unfold, pow2};

verus! {

/// One node of a code tree, stored in an arena. An internal node refers to
/// its two children by their positions in the arena.
#[derive(Debug, Clone, Copy, PartialEq, Eq)]
pub enum Node {
    Leaf { symbol: char, weight: u64 },
    Internal { weight: u64, left: usize, right: usize },
}

impl Node {
    pub open spec fn spec_weight(self) -> u64 {
        match self {
            Node::Leaf { weight, .. } => weight,
            Node::Internal { weight, .. } => weight,
        }
    }

    /// The node's weight: a symbol's count, or the sum of the children's weights.
    pub fn weight(&self) -> (r: u64)
        ensures
            r == self.spec_weight(),
    {
        match self {
            Node::Leaf { weight, .. } => *weight,
            Node::Internal { weight, .. } => *weight,
        }
    }

    pub fn is_leaf(&self) -> (r: bool)
        ensures
            r == self is Leaf,
    {
        matches!(self, Node::Leaf { .. })
    }
}

/// A node is well formed when its children come before it in the arena and
/// its weight is the sum of theirs.
pub open spec fn node_wf(nodes: Seq<Node>, i: int) -> bool {
    match nodes[i] {
        Node::Leaf { .. } => true,
        Node::Internal { weight, left, right } => {
            &&& left < i
            &&& right < i
            &&& weight == nodes[left as int].spec_weight() + nodes[right as int].spec_weight()
        },
    }
}

pub open spec fn nodes_wf(nodes: Seq<Node>) -> bool {
    forall|i: int| 0 <= i < nodes.len() ==> #[trigger] node_wf(nodes, i)
}

/// The child reached from internal node `i` by one bit: `true` goes left,
/// `false` goes right.
pub open spec fn child(nodes: Seq<Node>, i: int, bit: bool) -> int {
    match nodes[i] {
        Node::Internal { left, right, .. } => if bit { left as int } else { right as int },
        Node::Leaf { .. } => i,
    }
}

/// The symbols on the leaves of the subtree rooted at `i`.
pub open spec fn symbols(nodes: Seq<Node>, i: int) -> Set<char>
    decreases i,
{
    if 0 <= i < nodes.len() {
        match nodes[i] {
            Node::Leaf { symbol, .. } => set![symbol],
            Node::Internal { left, right, .. } => if left < i && right < i {
                symbols(nodes, left as int) + symbols(nodes, right as int)
            } else {
                Set::empty()
            },
        }
    } else {
        Set::empty()
    }
}

/// The number of edges on the longest path from `i` down to a leaf.
pub open spec fn height(nodes: Seq<Node>, i: int) -> nat
    decreases i,
{
    if 0 <= i < nodes.len() {
        match nodes[i] {
            Node::Leaf { .. } => 0,
            Node::Internal { left, right, .. } => if left < i && right < i {
                let l = height(nodes, left as int);
                let r = height(nodes, right as int);
                1 + if l >= r { l } else { r }
            } else {
                0
            },
        }
    } else {
        0
    }
}

/// The node reached from `i` by following `path`, if the path stays inside
/// the tree.
pub open spec fn reach(nodes: Seq<Node>, i: int, path: Seq<bool>) -> Option<int>
    decreases path.len(),
{
    if path.len() == 0 {
        Some(i)
    } else if nodes[i] is Internal {
        reach(nodes, child(nodes, i, path[0]), path.drop_first())
    } else {
        None
    }
}

/// The symbol of the leaf that `path` leads to from `i`, if it ends on a leaf.
pub open spec fn leaf_at(nodes: Seq<Node>, i: int, path: Seq<bool>) -> Option<char> {
    match reach(nodes, i, path) {
        Some(j) => match nodes[j] {
            Node::Leaf { symbol, .. } => Some(symbol),
            Node::Internal { .. } => None,
        },
        None => None,
    }
}

/// A code tree: an arena of nodes and the position of the root.
#[derive(Debug, Clone)]
pub struct HuffmanTree {
    pub nodes: Vec<Node>,
    pub root: usize,
}

impl HuffmanTree {
    pub open spec fn wf(&self) -> bool {
        &&& nodes_wf(self.nodes@)
        &&& self.root < self.nodes@.len()
    }

    /// The symbols that the tree has codes for.
    pub open spec fn alphabet(&self) -> Set<char> {
        symbols(self.nodes@, self.root as int)
    }

    pub open spec fn spec_height(&self) -> nat {
        height(self.nodes@, self.root as int)
    }

    pub open spec fn root_is_leaf(&self) -> bool {
        self.nodes@[self.root as int] is Leaf
    }
}

fn subtree_height(tree: &HuffmanTree, i: usize) -> (r: usize)
    requires
        tree.wf(),
        i < tree.nodes@.len(),
    ensures
        r == height(tree.nodes@, i as int),
    decreases i,
{
    assert(node_wf(tree.nodes@, i as int));
    match tree.nodes[i] {
        Node::Leaf { .. } => 0,
        Node::Internal { left, right, .. } => {
            let l = subtree_height(tree, left);
            let r = subtree_height(tree, right);
            proof { lemma_height_bound(tree.nodes@, i as int); }
            if l >= r { l + 1 } else { r + 1 }
        },
    }
}

proof fn lemma_height_bound(nodes: Seq<Node>, i: int)
    requires
        nodes_wf(nodes),
        0 <= i < nodes.len(),
    ensures
        height(nodes, i) <= i,
    decreases i,
{
    assert(node_wf(nodes, i));
    if let Node::Internal { left, right, .. } = nodes[i] {
        lemma_height_bound(nodes, left as int);
        lemma_height_bound(nodes, right as int);
    }
}

proof fn lemma_symbols_within_height(nodes: Seq<Node>, i: int)
    requires
        nodes_wf(nodes),
        0 <= i < nodes.len(),
    ensures
        symbols(nodes, i).finite(),
        symbols(nodes, i).len() <= pow2(height(nodes, i)),
    decreases i,
{
    assert(node_wf(nodes, i));
    match nodes[i] {
        Node::Leaf { symbol, .. } => {
            assert(symbols(nodes, i) == set![symbol]);
            assert(set![symbol].len() == 1) by {
                assert(Set::<char>::empty().insert(symbol).len() == Set::<char>::empty().len() + 1);
            }
            assert(pow2(0) == 1) by {
                reveal(vstd::arithmetic::power::pow);
            }
        },
        Node::Internal { left, right, .. } => {
            let l = left as int;
            let r = right as int;
            lemma_symbols_within_height(nodes, l);
            lemma_symbols_within_height(nodes, r);
            vstd::set_lib::lemma_len_union(symbols(nodes, l), symbols(nodes, r));
            let h = height(nodes, i);
            let hm = (h - 1) as nat;
            lemma_pow2_unfold(h);
            if height(nodes, l) < hm {
                lemma_pow2_strictly_increases(height(nodes, l), hm);
            }
            if height(nodes, r) < hm {
                lemma_pow2_strictly_increases(height(nodes, r), hm);
            }
        },
    }
}

/// A tree of height `h` has at most `2^h` symbols in its alphabet, so an
/// alphabet of more than `2^h` symbols needs a tree taller than `h`.
pub proof fn lemma_alphabet_within_height(tree: &HuffmanTree)
    requires
        tree.wf(),
    ensures
        tree.alphabet().finite(),
        tree.alphabet().len() <= pow2(tree.spec_height()),
{
    lemma_symbols_within_height(tree.nodes@, tree.root as int);
}

/// The height of the tree: the length of its longest code, zero for a tree
/// that is a single leaf.
pub fn tree_height(tree: &HuffmanTree) -> (r: usize)
    requires
        tree.wf(),
    ensures
        r == tree.spec_height(),
{
    subtree_height(tree, tree.root)
}

} // verus!
