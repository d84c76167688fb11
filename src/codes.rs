use vstd::prelude::*;
use std::collections::HashMap;
use crate::freq::lemma_scalar_injective;
use crate::tree::{leaf_at, node_wf, nodes_wf, reach, symbols, HuffmanTree, Node};

verus! {

broadcast use vstd::std_specs::hash::group_hash_axioms;

/// The path from `i` to the leftmost leaf that carries `c`, if there is one.
pub open spec fn first_code(nodes: Seq<Node>, i: int, c: char) -> Option<Seq<bool>>
    decreases i,
{
    if 0 <= i < nodes.len() {
        match nodes[i] {
            Node::Leaf { symbol, .. } => if symbol == c {
                Some(Seq::empty())
            } else {
                None
            },
            Node::Internal { left, right, .. } => if left < i && right < i {
                match first_code(nodes, left as int, c) {
                    Some(p) => Some(seq![true] + p),
                    None => match first_code(nodes, right as int, c) {
                        Some(p) => Some(seq![false] + p),
                        None => None,
                    },
                }
            } else {
                None
            },
        }
    } else {
        None
    }
}

impl HuffmanTree {
    /// The code of `c`: the path from the root to the leftmost leaf that
    /// carries it, or the single bit `true` when the whole tree is one leaf.
    pub open spec fn code_of(&self, c: char) -> Seq<bool> {
        if self.root_is_leaf() {
            seq![true]
        } else {
            first_code(self.nodes@, self.root as int, c)->Some_0
        }
    }

    /// The code table of the tree: each symbol of the alphabet with its code.
    pub open spec fn codes(&self) -> Map<char, Seq<bool>> {
        Map::new(|c: char| self.alphabet().contains(c), |c: char| self.code_of(c))
    }
}

/// A table from symbols to codes, keyed by each symbol's scalar value.
pub struct CodeTable {
    pub codes: HashMap<u32, Vec<bool>>,
}

/// What a map keyed by scalar values says of characters.
pub open spec fn char_view(m: Map<u32, Vec<bool>>) -> Map<char, Seq<bool>> {
    Map::new(|c: char| m.contains_key(c as u32), |c: char| m[c as u32]@)
}

impl View for CodeTable {
    type V = Map<char, Seq<bool>>;

    open spec fn view(&self) -> Map<char, Seq<bool>> {
        char_view(self.codes@)
    }
}

impl CodeTable {
    /// The code of `c`, if the table has one.
    pub fn get(&self, c: char) -> (r: Option<&Vec<bool>>)
        ensures
            match r {
                Some(v) => self@.contains_key(c) && self@[c] == v@,
                None => !self@.contains_key(c),
            },
    {
        self.codes.get(&(c as u32))
    }
}

pub proof fn lemma_first_code_some(nodes: Seq<Node>, i: int, c: char)
    requires
        nodes_wf(nodes),
        0 <= i < nodes.len(),
    ensures
        first_code(nodes, i, c) is Some <==> symbols(nodes, i).contains(c),
    decreases i,
{
    assert(node_wf(nodes, i));
    if let Node::Internal { left, right, .. } = nodes[i] {
        lemma_first_code_some(nodes, left as int, c);
        lemma_first_code_some(nodes, right as int, c);
    }
}

/// Following the leftmost path to `c` from `i` ends on a leaf that carries `c`.
pub proof fn lemma_first_code_leads_to(nodes: Seq<Node>, i: int, c: char)
    requires
        nodes_wf(nodes),
        0 <= i < nodes.len(),
        first_code(nodes, i, c) is Some,
    ensures
        leaf_at(nodes, i, first_code(nodes, i, c)->Some_0) == Some(c),
    decreases i,
{
    assert(node_wf(nodes, i));
    let p = first_code(nodes, i, c)->Some_0;
    if let Node::Internal { left, right, .. } = nodes[i] {
        if first_code(nodes, left as int, c) is Some {
            lemma_first_code_leads_to(nodes, left as int, c);
            assert(p.drop_first() =~= first_code(nodes, left as int, c)->Some_0);
        } else {
            lemma_first_code_leads_to(nodes, right as int, c);
            assert(p.drop_first() =~= first_code(nodes, right as int, c)->Some_0);
        }
    }
}

proof fn lemma_leaf_paths(nodes: Seq<Node>, i: int, p: Seq<bool>, q: Seq<bool>)
    requires
        leaf_at(nodes, i, p) is Some,
        leaf_at(nodes, i, q) is Some,
        p.is_prefix_of(q),
    ensures
        p == q,
    decreases p.len(),
{
    if p.len() == 0 {
        if q.len() > 0 {
            assert(reach(nodes, i, p) == Some(i));
        }
        assert(q =~= p);
    } else {
        let next = crate::tree::child(nodes, i, p[0]);
        assert(q[0] == p[0]);
        assert(p.drop_first().is_prefix_of(q.drop_first())) by {
            assert(p.drop_first() =~= q.drop_first().subrange(0, p.drop_first().len() as int));
        }
        lemma_leaf_paths(nodes, next, p.drop_first(), q.drop_first());
        assert(p =~= seq![p[0]] + p.drop_first());
        assert(q =~= seq![q[0]] + q.drop_first());
    }
}

/// Prefix-freeness: the code of a symbol of the tree is never a prefix of
/// the code of another symbol.
pub proof fn lemma_prefix_free(tree: &HuffmanTree, a: char, b: char)
    requires
        tree.wf(),
        tree.codes().contains_key(a),
        tree.codes().contains_key(b),
        a != b,
    ensures
        !tree.codes()[a].is_prefix_of(tree.codes()[b]),
{
    let nodes = tree.nodes@;
    let root = tree.root as int;
    if tree.root_is_leaf() {
        assert(tree.alphabet() =~= set![nodes[root]->Leaf_symbol]);
    } else {
        lemma_first_code_some(nodes, root, a);
        lemma_first_code_some(nodes, root, b);
        lemma_first_code_leads_to(nodes, root, a);
        lemma_first_code_leads_to(nodes, root, b);
        if tree.codes()[a].is_prefix_of(tree.codes()[b]) {
            lemma_leaf_paths(nodes, root, tree.codes()[a], tree.codes()[b]);
        }
    }
}

fn encode_helper(tree: &HuffmanTree, i: usize, code: Vec<bool>, table: &mut HashMap<u32, Vec<bool>>)
    requires
        tree.wf(),
        i < tree.nodes@.len(),
    ensures
        forall|c: char| #[trigger] char_view(final(table)@).contains_key(c)
            <==> (char_view(old(table)@).contains_key(c) || symbols(tree.nodes@, i as int).contains(c)),
        forall|c: char| #[trigger] char_view(old(table)@).contains_key(c)
            ==> char_view(final(table)@)[c] == char_view(old(table)@)[c],
        forall|c: char| !char_view(old(table)@).contains_key(c) && symbols(tree.nodes@, i as int).contains(c)
            ==> #[trigger] char_view(final(table)@)[c] == code@ + first_code(tree.nodes@, i as int, c)->Some_0,
    decreases i,
{
    let ghost nodes = tree.nodes@;
    proof {
        assert(node_wf(nodes, i as int));
    }
    match tree.nodes[i] {
        Node::Leaf { symbol, .. } => {
            proof {
                assert(symbols(nodes, i as int) =~= set![symbol]);
            }
            if !table.contains_key(&(symbol as u32)) {
                let ghost code_v = code@;
                table.insert(symbol as u32, code);
                proof {
                    assert(code_v + Seq::<bool>::empty() =~= code_v);
                    assert(symbols(nodes, i as int) =~= set![symbol]);
                    assert forall|c: char| #[trigger] char_view(table@).contains_key(c)
                        <==> (char_view(old(table)@).contains_key(c) || c == symbol) by {
                        lemma_scalar_injective(c, symbol);
                    }
                }
            }
        },
        Node::Internal { left, right, .. } => {
            let ghost t0 = *table;
            let mut left_code = code.clone();
            assert(left_code@ =~= code@);
            left_code.push(true);
            encode_helper(tree, left, left_code, table);
            let mut right_code = code;
            right_code.push(false);
            let ghost t1 = *table;
            encode_helper(tree, right, right_code, table);
            proof {
                assert forall|c: char| !char_view(t0@).contains_key(c) && symbols(nodes, i as int).contains(c)
                    implies #[trigger] char_view(table@)[c] == code@ + first_code(nodes, i as int, c)->Some_0 by {
                    lemma_first_code_some(nodes, left as int, c);
                    lemma_first_code_some(nodes, right as int, c);
                    assert(char_view(t1@).contains_key(c) <==> symbols(nodes, left as int).contains(c));
                    if symbols(nodes, left as int).contains(c) {
                        assert(char_view(t1@)[c] == left_code@ + first_code(nodes, left as int, c)->Some_0);
                        assert(char_view(table@)[c] == char_view(t1@)[c]);
                        let p = first_code(nodes, left as int, c)->Some_0;
                        assert(code@.push(true) + p =~= code@ + (seq![true] + p));
                    } else {
                        assert(char_view(table@)[c] == right_code@ + first_code(nodes, right as int, c)->Some_0);
                        let p = first_code(nodes, right as int, c)->Some_0;
                        assert(code@.push(false) + p =~= code@ + (seq![false] + p));
                    }
                }
            }
        },
    }
}

/// The code table of a tree, found by one depth-first walk from the root:
/// `true` for a step to the left child, `false` for one to the right. Where a
/// symbol sits on several leaves the first one found keeps its code. A tree
/// that is a single leaf gives its symbol the one-bit code `true`.
pub fn code_table(tree: &HuffmanTree) -> (r: CodeTable)
    requires
        tree.wf(),
    ensures
        r@ == tree.codes(),
        forall|a: char, b: char| #[trigger] r@.contains_key(a) && #[trigger] r@.contains_key(b) && a != b
            ==> !r@[a].is_prefix_of(r@[b]),
{
    proof {
        assert forall|a: char, b: char| #[trigger] tree.codes().contains_key(a) && #[trigger] tree.codes().contains_key(b) && a != b
            implies !tree.codes()[a].is_prefix_of(tree.codes()[b]) by {
            lemma_prefix_free(tree, a, b);
        }
    }
    let mut codes: HashMap<u32, Vec<bool>> = HashMap::new();
    let ghost nodes = tree.nodes@;
    if tree.nodes[tree.root].is_leaf() {
        let symbol = match tree.nodes[tree.root] {
            Node::Leaf { symbol, .. } => symbol,
            Node::Internal { .. } => 'a',
        };
        let mut one: Vec<bool> = Vec::new();
        one.push(true);
        proof {
            assert(one@ =~= seq![true]);
        }
        codes.insert(symbol as u32, one);
        let r = CodeTable { codes };
        proof {
            assert(tree.alphabet() =~= set![symbol]);
            assert forall|c: char| #[trigger] r@.contains_key(c) <==> c == symbol by {
                lemma_scalar_injective(c, symbol);
            }
            assert(r@ =~= tree.codes());
        }
        r
    } else {
        let ghost t0 = codes;
        encode_helper(tree, tree.root, Vec::new(), &mut codes);
        let r = CodeTable { codes };
        proof {
            assert(char_view(t0@) =~= Map::<char, Seq<bool>>::empty());
            assert forall|c: char| #[trigger] r@.contains_key(c) implies r@[c] == tree.code_of(c) by {
                assert(Seq::<bool>::empty() + first_code(nodes, tree.root as int, c)->Some_0
                    =~= first_code(nodes, tree.root as int, c)->Some_0);
            }
            assert(r@ =~= tree.codes());
        }
        r
    }
}

} // verus!
