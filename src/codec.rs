use vstd::prelude::*;
use vstd::std_specs::iter::IteratorSpec;
use crate::codes::{code_table, first_code, lemma_first_code_leads_to, lemma_first_code_some};
use crate::error::HuffmanError;
use crate::tree::{child, leaf_at, node_wf, reach, HuffmanTree, Node};

verus! {

/// The concatenation of the codes of the symbols of `s`, in order.
pub open spec fn encode_seq(codes: Map<char, Seq<bool>>, s: Seq<char>) -> Seq<bool>
    decreases s.len(),
{
    if s.len() == 0 {
        Seq::empty()
    } else {
        encode_seq(codes, s.drop_last()) + codes[s.last()]
    }
}

/// The occurrences in `s` of symbols that have no code, in order.
pub open spec fn unknown_symbols(codes: Map<char, Seq<bool>>, s: Seq<char>) -> Seq<char>
    decreases s.len(),
{
    if s.len() == 0 {
        Seq::empty()
    } else if codes.contains_key(s.last()) {
        unknown_symbols(codes, s.drop_last())
    } else {
        unknown_symbols(codes, s.drop_last()).push(s.last())
    }
}

pub open spec fn prepend(p: Seq<char>, o: Option<Seq<char>>) -> Option<Seq<char>> {
    match o {
        Some(rest) => Some(p + rest),
        None => None,
    }
}

/// Reading `bits` with the cursor at internal node `cur`: each bit moves the
/// cursor to a child; on a leaf its symbol is emitted and the cursor goes
/// back to the root. The bits must run out with the cursor at the root.
pub open spec fn walk(nodes: Seq<Node>, root: int, cur: int, bits: Seq<bool>) -> Option<Seq<char>>
    decreases bits.len(),
{
    if bits.len() == 0 {
        if cur == root {
            Some(Seq::empty())
        } else {
            None
        }
    } else {
        let next = child(nodes, cur, bits[0]);
        match nodes[next] {
            Node::Leaf { symbol, .. } => prepend(seq![symbol], walk(nodes, root, root, bits.drop_first())),
            Node::Internal { .. } => walk(nodes, root, next, bits.drop_first()),
        }
    }
}

impl HuffmanTree {
    /// The symbols that `bits` decode to, if the bits end on a code boundary.
    /// A tree that is a single leaf reads each bit as one occurrence of its
    /// symbol.
    pub open spec fn decode_bits(&self, bits: Seq<bool>) -> Option<Seq<char>> {
        match self.nodes@[self.root as int] {
            Node::Leaf { symbol, .. } => Some(Seq::new(bits.len(), |k: int| symbol)),
            Node::Internal { .. } => walk(self.nodes@, self.root as int, self.root as int, bits),
        }
    }
}

proof fn lemma_encode_front(codes: Map<char, Seq<bool>>, s: Seq<char>)
    requires
        s.len() > 0,
    ensures
        encode_seq(codes, s) == codes[s[0]] + encode_seq(codes, s.drop_first()),
    decreases s.len(),
{
    if s.len() == 1 {
        assert(s.drop_last() =~= Seq::<char>::empty());
        assert(s.drop_first() =~= Seq::<char>::empty());
        assert(encode_seq(codes, s.drop_last()) == encode_seq(codes, Seq::<char>::empty()));
        assert(encode_seq(codes, s.drop_first()) == encode_seq(codes, Seq::<char>::empty()));
        assert(encode_seq(codes, Seq::<char>::empty()) =~= Seq::<bool>::empty());
        assert(s.last() == s[0]);
        assert(encode_seq(codes, s) =~= codes[s[0]] + Seq::<bool>::empty());
    } else {
        lemma_encode_front(codes, s.drop_last());
        assert(s.drop_last().drop_first() =~= s.drop_first().drop_last());
        assert(encode_seq(codes, s) =~= codes[s[0]] + encode_seq(codes, s.drop_first()));
    }
}

proof fn lemma_encode_len_one_bit(codes: Map<char, Seq<bool>>, s: Seq<char>)
    requires
        forall|k: int| 0 <= k < s.len() ==> #[trigger] codes[s[k]] == seq![true],
    ensures
        encode_seq(codes, s).len() == s.len(),
    decreases s.len(),
{
    if s.len() > 0 {
        lemma_encode_len_one_bit(codes, s.drop_last());
        assert(codes[s[s.len() - 1]] == seq![true]);
    }
}

proof fn lemma_walk_path(nodes: Seq<Node>, root: int, cur: int, p: Seq<bool>, rest: Seq<bool>, c: char)
    requires
        crate::tree::nodes_wf(nodes),
        0 <= cur < nodes.len(),
        nodes[cur] is Internal,
        p.len() >= 1,
        leaf_at(nodes, cur, p) == Some(c),
    ensures
        walk(nodes, root, cur, p + rest) == prepend(seq![c], walk(nodes, root, root, rest)),
    decreases p.len(),
{
    assert(node_wf(nodes, cur));
    let next = child(nodes, cur, p[0]);
    assert((p + rest)[0] == p[0]);
    assert((p + rest).drop_first() =~= p.drop_first() + rest);
    assert(reach(nodes, cur, p) == reach(nodes, next, p.drop_first()));
    if p.len() == 1 {
        assert(p.drop_first() + rest =~= rest);
    } else {
        lemma_walk_path(nodes, root, next, p.drop_first(), rest, c);
    }
}

proof fn lemma_walk_encoded(tree: &HuffmanTree, s: Seq<char>)
    requires
        tree.wf(),
        !tree.root_is_leaf(),
        forall|k: int| 0 <= k < s.len() ==> #[trigger] tree.alphabet().contains(s[k]),
    ensures
        walk(tree.nodes@, tree.root as int, tree.root as int, encode_seq(tree.codes(), s)) == Some(s),
    decreases s.len(),
{
    let nodes = tree.nodes@;
    let root = tree.root as int;
    let codes = tree.codes();
    if s.len() == 0 {
        assert(encode_seq(codes, s) =~= Seq::<bool>::empty());
    } else {
        let c = s[0];
        assert(tree.alphabet().contains(c));
        lemma_encode_front(codes, s);
        assert forall|k: int| 0 <= k < s.drop_first().len() implies #[trigger] tree.alphabet().contains(s.drop_first()[k]) by {
            assert(s.drop_first()[k] == s[k + 1]);
        }
        lemma_walk_encoded(tree, s.drop_first());
        lemma_first_code_some(nodes, root, c);
        lemma_first_code_leads_to(nodes, root, c);
        assert(node_wf(nodes, root));
        assert(codes[c].len() >= 1);
        lemma_walk_path(nodes, root, root, codes[c], encode_seq(codes, s.drop_first()), c);
        assert(seq![c] + s.drop_first() =~= s);
    }
}

/// Round trip: decoding the encoding of any sequence over the tree's
/// alphabet gives back that sequence.
pub proof fn lemma_round_trip(tree: &HuffmanTree, s: Seq<char>)
    requires
        tree.wf(),
        forall|k: int| 0 <= k < s.len() ==> #[trigger] tree.alphabet().contains(s[k]),
    ensures
        tree.decode_bits(encode_seq(tree.codes(), s)) == Some(s),
{
    if tree.root_is_leaf() {
        let symbol = tree.nodes@[tree.root as int]->Leaf_symbol;
        assert(tree.alphabet() =~= set![symbol]);
        assert forall|k: int| 0 <= k < s.len() implies #[trigger] tree.codes()[s[k]] == seq![true] by {
            assert(tree.alphabet().contains(s[k]));
        }
        lemma_encode_len_one_bit(tree.codes(), s);
        assert forall|k: int| 0 <= k < s.len() implies s[k] == symbol by {
            assert(tree.alphabet().contains(s[k]));
        }
        assert(Seq::new(s.len(), |k: int| symbol) =~= s);
    } else {
        lemma_walk_encoded(tree, s);
    }
}

/// The characters of `s`, in order.
fn chars_of(s: &str) -> (r: Vec<char>)
    ensures
        r@ == s@,
{
    broadcast use vstd::string::axiom_spec_iter, vstd::string::next_postcondition;

    let mut it = s.chars();
    let mut r: Vec<char> = Vec::new();
    loop
        invariant
            r@ + it.remaining() == s@,
            it.decrease() is Some,
        decreases it.decrease()->0,
    {
        let ghost before = it.remaining();
        match it.next() {
            Some(c) => {
                r.push(c);
                proof {
                    assert(r@ + it.remaining() =~= s@) by {
                        assert(before =~= seq![c] + it.remaining());
                    }
                }
            },
            None => {
                proof {
                    assert(r@ =~= s@);
                }
                return r;
            },
        }
    }
}

/// Relies on String's FromIterator<char>: the string of the characters in order.
#[verifier::external_body]
fn string_of(v: &Vec<char>) -> (r: String)
    ensures
        r@ == v@,
{
    v.iter().collect()
}

/// Encodes `text` with the codes of `tree`. It fails when some characters
/// have no code, and then names each such occurrence.
pub fn encode_huffman(tree: &HuffmanTree, text: &str) -> (r: Result<Vec<bool>, HuffmanError>)
    requires
        tree.wf(),
    ensures
        r is Ok <==> forall|k: int| 0 <= k < text@.len() ==> #[trigger] tree.alphabet().contains(text@[k]),
        r is Ok <==> unknown_symbols(tree.codes(), text@).len() == 0,
        r matches Ok(bits) ==> bits@ == encode_seq(tree.codes(), text@),
        r is Err ==> (r->Err_0 matches HuffmanError::UnknownSymbol(v) && v@ == unknown_symbols(tree.codes(), text@)),
{
    let table = code_table(tree);
    let chars = chars_of(text);
    let ghost codes = tree.codes();
    let mut bits: Vec<bool> = Vec::new();
    let mut errors: Vec<char> = Vec::new();
    let mut i: usize = 0;
    while i < chars.len()
        invariant
            i <= chars@.len(),
            chars@ == text@,
            table@ == codes,
            codes == tree.codes(),
            errors@ == unknown_symbols(codes, chars@.take(i as int)),
            errors@.len() == 0 ==> bits@ == encode_seq(codes, chars@.take(i as int)),
            errors@.len() == 0 <==> forall|k: int| 0 <= k < i ==> #[trigger] codes.contains_key(chars@[k]),
        decreases chars@.len() - i,
    {
        let c = chars[i];
        proof {
            assert(chars@.take(i + 1).drop_last() =~= chars@.take(i as int));
        }
        match table.get(c) {
            Some(code) => {
                let ghost b0 = bits@;
                let mut j: usize = 0;
                while j < code.len()
                    invariant
                        j <= code@.len(),
                        bits@ == b0 + code@.take(j as int),
                    decreases code@.len() - j,
                {
                    bits.push(code[j]);
                    proof {
                        assert(code@.take(j + 1) =~= code@.take(j as int).push(code@[j as int]));
                    }
                    j = j + 1;
                }
                proof {
                    assert(code@.take(j as int) =~= code@);
                }
            },
            None => {
                errors.push(c);
            },
        }
        i = i + 1;
    }
    proof {
        assert(chars@.take(i as int) =~= chars@);
        assert forall|k: int| 0 <= k < text@.len() implies (#[trigger] tree.alphabet().contains(text@[k])
            <==> codes.contains_key(text@[k])) by {}
    }
    if errors.len() == 0 {
        Ok(bits)
    } else {
        Err(HuffmanError::UnknownSymbol(errors))
    }
}

/// Decodes `bits` by walking `tree`. It fails when the bits do not end on
/// a code boundary.
pub fn decode_huffman(tree: &HuffmanTree, bits: &Vec<bool>) -> (r: Result<String, HuffmanError>)
    requires
        tree.wf(),
    ensures
        match tree.decode_bits(bits@) {
            Some(s) => r is Ok && r->Ok_0@ == s,
            None => r == Err::<String, HuffmanError>(HuffmanError::IncompleteCode),
        },
{
    let ghost nodes = tree.nodes@;
    let root = tree.root;
    let mut out: Vec<char> = Vec::new();
    if let Node::Leaf { symbol, .. } = tree.nodes[root] {
        let mut i: usize = 0;
        while i < bits.len()
            invariant
                i <= bits@.len(),
                out@ =~= Seq::new(i as nat, |k: int| symbol),
            decreases bits@.len() - i,
        {
            out.push(symbol);
            i = i + 1;
        }
        return Ok(string_of(&out));
    }
    let mut cur = root;
    let mut i: usize = 0;
    proof {
        assert(bits@.skip(0) =~= bits@);
        if let Some(t) = walk(nodes, root as int, root as int, bits@) {
            assert(out@ + t =~= t);
        }
    }
    while i < bits.len()
        invariant
            tree.wf(),
            nodes == tree.nodes@,
            root == tree.root,
            nodes[root as int] is Internal,
            i <= bits@.len(),
            cur < nodes.len(),
            nodes[cur as int] is Internal,
            walk(nodes, root as int, root as int, bits@) == prepend(out@, walk(nodes, root as int, cur as int, bits@.skip(i as int))),
        decreases bits@.len() - i,
    {
        let ghost rest = bits@.skip(i as int);
        proof {
            assert(rest[0] == bits@[i as int]);
            assert(rest.drop_first() =~= bits@.skip(i + 1));
            assert(node_wf(nodes, cur as int));
        }
        let next = match tree.nodes[cur] {
            Node::Internal { left, right, .. } => if bits[i] { left } else { right },
            Node::Leaf { .. } => cur,
        };
        match tree.nodes[next] {
            Node::Leaf { symbol, .. } => {
                let ghost o = out@;
                out.push(symbol);
                cur = root;
                proof {
                    let tail = walk(nodes, root as int, root as int, bits@.skip(i + 1));
                    if let Some(t) = tail {
                        assert(o + (seq![symbol] + t) =~= out@ + t);
                    }
                }
            },
            Node::Internal { .. } => {
                cur = next;
            },
        }
        i = i + 1;
    }
    proof {
        assert(bits@.skip(i as int) =~= Seq::<bool>::empty());
        assert(out@ + Seq::<char>::empty() =~= out@);
    }
    if cur == root {
        Ok(string_of(&out))
    } else {
        Err(HuffmanError::IncompleteCode)
    }
}

} // verus!
