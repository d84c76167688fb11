use vstd::prelude::*;
use crate::error::HuffmanError;
use crate::freq::{freq_chars, total_weight};
use crate::queue::{prio_le, queue_entries, queue_len, queue_new, queue_pop, queue_push, MinQueue};
use crate::tree::{node_wf, nodes_wf, symbols, HuffmanTree, Node};

verus! {

/// The total weight of the subtrees rooted at the positions in `live`.
pub open spec fn live_weight(nodes: Seq<Node>, live: Seq<usize>) -> int
    decreases live.len(),
{
    if live.len() == 0 {
        0
    } else {
        live_weight(nodes, live.drop_last()) + nodes[live.last() as int].spec_weight()
    }
}

/// The symbols of the subtrees rooted at the positions in `live`.
pub open spec fn live_symbols(nodes: Seq<Node>, live: Seq<usize>) -> Set<char>
    decreases live.len(),
{
    if live.len() == 0 {
        Set::empty()
    } else {
        live_symbols(nodes, live.drop_last()) + symbols(nodes, live.last() as int)
    }
}

proof fn lemma_live_remove(nodes: Seq<Node>, live: Seq<usize>, j: int)
    requires
        0 <= j < live.len(),
    ensures
        live_weight(nodes, live) == live_weight(nodes, live.remove(j)) + nodes[live[j] as int].spec_weight(),
        live_symbols(nodes, live) == live_symbols(nodes, live.remove(j)) + symbols(nodes, live[j] as int),
        live_weight(nodes, live.remove(j)) >= 0,
    decreases live.len(),
{
    lemma_live_weight_nonneg(nodes, live.remove(j));
    if j == live.len() - 1 {
        assert(live.remove(j) =~= live.drop_last());
    } else {
        lemma_live_remove(nodes, live.drop_last(), j);
        assert(live.remove(j).drop_last() =~= live.drop_last().remove(j));
        assert(live.remove(j).last() == live.last());
        assert(live_symbols(nodes, live) =~= live_symbols(nodes, live.remove(j)) + symbols(nodes, live[j] as int));
    }
}

proof fn lemma_live_weight_nonneg(nodes: Seq<Node>, live: Seq<usize>)
    ensures
        live_weight(nodes, live) >= 0,
    decreases live.len(),
{
    if live.len() > 0 {
        lemma_live_weight_nonneg(nodes, live.drop_last());
    }
}

proof fn lemma_symbols_frame(nodes: Seq<Node>, x: Node, i: int)
    requires
        0 <= i < nodes.len(),
    ensures
        symbols(nodes.push(x), i) == symbols(nodes, i),
    decreases i,
{
    if let Node::Internal { left, right, .. } = nodes[i] {
        if left < i && right < i {
            lemma_symbols_frame(nodes, x, left as int);
            lemma_symbols_frame(nodes, x, right as int);
        }
    }
}

proof fn lemma_live_frame(nodes: Seq<Node>, x: Node, live: Seq<usize>)
    requires
        forall|m: int| 0 <= m < live.len() ==> live[m] < nodes.len(),
    ensures
        live_weight(nodes.push(x), live) == live_weight(nodes, live),
        live_symbols(nodes.push(x), live) == live_symbols(nodes, live),
    decreases live.len(),
{
    if live.len() > 0 {
        lemma_live_frame(nodes, x, live.drop_last());
        lemma_symbols_frame(nodes, x, live.last() as int);
    }
}

/// Position `k` is among `live`.
#[verifier::opaque]
pub open spec fn holds(live: Seq<usize>, k: usize) -> bool {
    live.contains(k)
}

proof fn lemma_holds_index(live: Seq<usize>, m: int)
    requires
        0 <= m < live.len(),
    ensures
        holds(live, live[m]),
{
    reveal(holds);
    assert(live[m] == live[m]);
}

proof fn lemma_holds_witness(live: Seq<usize>, k: usize) -> (m: int)
    requires
        holds(live, k),
    ensures
        0 <= m < live.len(),
        live[m] == k,
{
    reveal(holds);
    choose|m: int| 0 <= m < live.len() && live[m] == k
}

proof fn lemma_remove_holds(live: Seq<usize>, j: int, k: usize)
    requires
        0 <= j < live.len(),
        live.no_duplicates(),
    ensures
        live.remove(j).no_duplicates(),
        holds(live.remove(j), k) <==> (holds(live, k) && k != live[j]),
{
    reveal(holds);
    live.remove_ensures(j);
    let r = live.remove(j);
    assert(r.no_duplicates()) by {
        assert forall|x: int, y: int| 0 <= x < y < r.len() implies r[x] != r[y] by {
            let x1 = if x < j { x } else { x + 1 };
            let y1 = if y < j { y } else { y + 1 };
            assert(r[x] == live[x1] && r[y] == live[y1]);
        }
    }
    if r.contains(k) {
        let m = choose|m: int| 0 <= m < r.len() && r[m] == k;
        if m < j {
            assert(live[m] == k);
        } else {
            assert(live[m + 1] == k);
        }
    }
    if live.contains(k) && k != live[j] {
        let m = choose|m: int| 0 <= m < live.len() && live[m] == k;
        if m < j {
            assert(r[m] == k);
        } else {
            assert(r[m - 1] == k);
        }
    }
}

proof fn lemma_push_holds(live: Seq<usize>, x: usize, k: usize)
    ensures
        holds(live.push(x), k) <==> (holds(live, k) || k == x),
{
    reveal(holds);
    if live.push(x).contains(k) {
        let m = choose|m: int| 0 <= m < live.len() + 1 && live.push(x)[m] == k;
        if m < live.len() {
            assert(live[m] == k);
        }
    }
    if live.contains(k) {
        let m = choose|m: int| 0 <= m < live.len() && live[m] == k;
        assert(live.push(x)[m] == k);
    }
    if k == x {
        assert(live.push(x)[live.len() as int] == k);
    }
}

proof fn lemma_push_unique(live: Seq<usize>, x: usize)
    requires
        live.no_duplicates(),
        !holds(live, x),
    ensures
        live.push(x).no_duplicates(),
{
    let l2 = live.push(x);
    assert forall|a: int, b: int| 0 <= a < b < l2.len() implies l2[a] != l2[b] by {
        if b == live.len() {
            lemma_holds_index(live, a);
        }
    }
}

/// The queue holds exactly the positions in `live`, each with the priority
/// made of its node's weight and the position itself.
pub open spec fn queue_matches(q: MinQueue, nodes: Seq<Node>, live: Seq<usize>) -> bool {
    &&& queue_entries(q).dom().finite()
    &&& live.no_duplicates()
    &&& forall|k: usize| #[trigger] queue_entries(q).contains_key(k) <==> holds(live, k)
    &&& forall|k: usize| #[trigger] queue_entries(q).contains_key(k)
        ==> k < nodes.len() && queue_entries(q)[k] == (nodes[k as int].spec_weight(), k)
}

/// What holds of the state while the leaves are being queued.
pub open spec fn leaves_queued(nodes: Seq<Node>, q: MinQueue, live: Seq<usize>, freqs: Seq<(char, u64)>, i: int) -> bool {
    &&& 0 <= i <= freqs.len()
    &&& nodes.len() == i
    &&& nodes_wf(nodes)
    &&& queue_matches(q, nodes, live)
    &&& live_weight(nodes, live) == total_weight(freqs.take(i))
    &&& live_symbols(nodes, live) == freq_chars(freqs.take(i))
    &&& i > 0 ==> queue_entries(q).contains_key((i - 1) as usize)
    &&& queue_entries(q).len() == i
}

/// What holds of the state while subtrees are being joined.
pub open spec fn joining(nodes: Seq<Node>, q: MinQueue, live: Seq<usize>, freqs: Seq<(char, u64)>) -> bool {
    &&& nodes_wf(nodes)
    &&& queue_matches(q, nodes, live)
    &&& queue_entries(q).len() >= 1
    &&& live_weight(nodes, live) == total_weight(freqs)
    &&& live_symbols(nodes, live) == freq_chars(freqs)
    &&& total_weight(freqs) <= u64::MAX
    &&& nodes.len() + queue_entries(q).len() == 2 * freqs.len()
    &&& freqs.len() <= usize::MAX / 2
}

proof fn lemma_wf_push(nodes: Seq<Node>, x: Node)
    requires
        nodes_wf(nodes),
        node_wf(nodes.push(x), nodes.len() as int),
    ensures
        nodes_wf(nodes.push(x)),
{
    assert forall|m: int| 0 <= m < nodes.push(x).len() implies #[trigger] node_wf(nodes.push(x), m) by {
        if m < nodes.len() {
            assert(node_wf(nodes, m));
        }
    }
}

proof fn lemma_leaf_step(
    nodes: Seq<Node>,
    q: MinQueue,
    q2: MinQueue,
    live: Seq<usize>,
    freqs: Seq<(char, u64)>,
    i: int,
    c: char,
    w: u64,
)
    requires
        (c, w) == freqs[i],
        leaves_queued(nodes, q, live, freqs, i),
        i < freqs.len(),
        i < usize::MAX,
        queue_entries(q2) == queue_entries(q).insert(i as usize, (freqs[i].1, i as usize)),
        queue_entries(q2).dom().finite(),
    ensures
        leaves_queued(nodes.push(Node::Leaf { symbol: c, weight: w }), q2, live.push(i as usize), freqs, i + 1),
{
    let leaf = Node::Leaf { symbol: c, weight: w };
    let n2 = nodes.push(leaf);
    let l2 = live.push(i as usize);
    assert(n2[i] == leaf);
    assert forall|m: int| 0 <= m < live.len() implies live[m] < nodes.len() by {
        lemma_holds_index(live, m);
        assert(queue_entries(q).contains_key(live[m]));
    }
    lemma_live_frame(nodes, leaf, live);
    assert(!holds(live, i as usize)) by {
        if holds(live, i as usize) {
            assert(queue_entries(q).contains_key(i as usize));
        }
    }
    lemma_push_unique(live, i as usize);
    lemma_wf_push(nodes, leaf);
    assert(l2.drop_last() =~= live);
    assert(freqs.take(i + 1).drop_last() =~= freqs.take(i));
    assert(symbols(n2, i) =~= set![c]);
    assert(freq_chars(freqs.take(i + 1)) =~= freq_chars(freqs.take(i)) + set![c]) by {
        assert(freqs.take(i + 1)[i].0 == c);
        assert forall|ch: char| freq_chars(freqs.take(i)).contains(ch) implies
            freq_chars(freqs.take(i + 1)).contains(ch) by {
            let k = choose|k: int| 0 <= k < i && #[trigger] freqs.take(i)[k].0 == ch;
            assert(freqs.take(i + 1)[k].0 == ch);
        }
        assert forall|ch: char| freq_chars(freqs.take(i + 1)).contains(ch) && ch != c implies
            freq_chars(freqs.take(i)).contains(ch) by {
            let k = choose|k: int| 0 <= k < i + 1 && #[trigger] freqs.take(i + 1)[k].0 == ch;
            assert(freqs.take(i)[k].0 == ch);
        }
    }
    assert(queue_entries(q2).dom() == queue_entries(q).dom().insert(i as usize));
    assert forall|k: usize| #[trigger] queue_entries(q2).contains_key(k) <==> holds(l2, k) by {
        lemma_push_holds(live, i as usize, k);
    }
    assert forall|k: usize| #[trigger] queue_entries(q2).contains_key(k)
        implies k < n2.len() && queue_entries(q2)[k] == (n2[k as int].spec_weight(), k) by {
        if k != i {
            assert(queue_entries(q).contains_key(k));
        }
    }
}

proof fn lemma_join_fits(
    nodes: Seq<Node>,
    q: MinQueue,
    q1: MinQueue,
    live: Seq<usize>,
    freqs: Seq<(char, u64)>,
    a: usize,
    b: usize,
)
    requires
        joining(nodes, q, live, freqs),
        queue_entries(q).contains_key(a),
        queue_entries(q1) == queue_entries(q).remove(a),
        queue_entries(q1).contains_key(b),
    ensures
        nodes[a as int].spec_weight() + nodes[b as int].spec_weight() <= u64::MAX,
{
    let ja = lemma_holds_witness(live, a);
    lemma_remove_holds(live, ja, b);
    lemma_live_remove(nodes, live, ja);
    let live1 = live.remove(ja);
    let jb = lemma_holds_witness(live1, b);
    lemma_remove_holds(live1, jb, b);
    lemma_live_remove(nodes, live1, jb);
}

proof fn lemma_join_step(
    nodes: Seq<Node>,
    q: MinQueue,
    q1: MinQueue,
    q2: MinQueue,
    q3: MinQueue,
    live: Seq<usize>,
    freqs: Seq<(char, u64)>,
    a: usize,
    b: usize,
) -> (r: Seq<usize>)
    requires
        joining(nodes, q, live, freqs),
        queue_entries(q).len() >= 2,
        queue_entries(q).contains_key(a),
        queue_entries(q1) == queue_entries(q).remove(a),
        queue_entries(q1).contains_key(b),
        queue_entries(q2) == queue_entries(q1).remove(b),
        queue_entries(q3) == queue_entries(q2).insert(nodes.len() as usize,
            ((nodes[a as int].spec_weight() + nodes[b as int].spec_weight()) as u64, nodes.len() as usize)),
        queue_entries(q3).dom().finite(),
    ensures
        nodes[a as int].spec_weight() + nodes[b as int].spec_weight() <= u64::MAX,
        joining(nodes.push(Node::Internal {
            weight: (nodes[a as int].spec_weight() + nodes[b as int].spec_weight()) as u64,
            left: a,
            right: b,
        }), q3, r, freqs),
        queue_entries(q3).len() == queue_entries(q).len() - 1,
        forall|x: usize| #[trigger] holds(r, x) <==> ((holds(live, x) && x != a && x != b) || x == nodes.len()),
{
    let k = nodes.len() as usize;
    let wa = nodes[a as int].spec_weight();
    let wb = nodes[b as int].spec_weight();
    let ja = lemma_holds_witness(live, a);
    lemma_remove_holds(live, ja, b);
    lemma_live_remove(nodes, live, ja);
    let live1 = live.remove(ja);
    assert(queue_entries(q).contains_key(b));
    let jb = lemma_holds_witness(live1, b);
    lemma_remove_holds(live1, jb, k);
    lemma_live_remove(nodes, live1, jb);
    let live2 = live1.remove(jb);
    let node = Node::Internal { weight: (wa + wb) as u64, left: a, right: b };
    let n2 = nodes.push(node);
    let l3 = live2.push(k);
    assert(a < k && b < k);
    assert forall|m: int| 0 <= m < live2.len() implies live2[m] < nodes.len() by {
        lemma_holds_index(live2, m);
        lemma_remove_holds(live1, jb, live2[m]);
        lemma_remove_holds(live, ja, live2[m]);
        assert(queue_entries(q).contains_key(live2[m]));
    }
    lemma_live_frame(nodes, node, live2);
    lemma_symbols_frame(nodes, node, a as int);
    lemma_symbols_frame(nodes, node, b as int);
    lemma_remove_holds(live, ja, k);
    assert(!holds(live2, k)) by {
        if holds(live, k) {
            assert(queue_entries(q).contains_key(k));
        }
    }
    lemma_push_unique(live2, k);
    assert(n2[k as int] == node);
    assert(node_wf(n2, k as int));
    lemma_wf_push(nodes, node);
    assert(l3.drop_last() =~= live2);
    assert(live_symbols(n2, l3) =~= live_symbols(nodes, live1) + symbols(nodes, a as int));
    assert forall|x: usize| #[trigger] queue_entries(q3).contains_key(x) <==> holds(l3, x) by {
        lemma_push_holds(live2, k, x);
        lemma_remove_holds(live1, jb, x);
        lemma_remove_holds(live, ja, x);
    }
    assert forall|x: usize| #[trigger] holds(l3, x) <==> ((holds(live, x) && x != a && x != b) || x == k) by {
        lemma_push_holds(live2, k, x);
        lemma_remove_holds(live1, jb, x);
        lemma_remove_holds(live, ja, x);
    }
    assert forall|x: usize| #[trigger] queue_entries(q3).contains_key(x)
        implies x < n2.len() && queue_entries(q3)[x] == (n2[x as int].spec_weight(), x) by {
        if x != k {
            assert(queue_entries(q).contains_key(x));
        }
    }
    assert(queue_entries(q3).contains_key(k));
    assert(queue_entries(q1).dom() == queue_entries(q).dom().remove(a));
    assert(queue_entries(q2).dom() == queue_entries(q1).dom().remove(b));
    assert(queue_entries(q3).dom() == queue_entries(q2).dom().insert(k));
    l3
}

/// Internal node `t` has `m` as a child.
pub open spec fn is_parent_of(nodes: Seq<Node>, t: int, m: int) -> bool {
    &&& nodes[t] is Internal
    &&& (nodes[t]->Internal_left as int == m || nodes[t]->Internal_right as int == m)
}

/// Subtree `m` has been joined under one of the nodes at positions `from..to`.
pub open spec fn joined_before(nodes: Seq<Node>, from: int, to: int, m: int) -> bool {
    exists|t: int| from <= t < to && #[trigger] is_parent_of(nodes, t, m)
}

/// When node `j` is made, subtree `m` is still waiting to be joined.
pub open spec fn waiting(nodes: Seq<Node>, from: int, j: int, m: int) -> bool {
    0 <= m < j && !joined_before(nodes, from, j, m)
}

/// The order in which subtrees are taken: by weight, then by position.
pub open spec fn prio_of(nodes: Seq<Node>, m: int) -> (u64, usize) {
    (nodes[m].spec_weight(), m as usize)
}

/// Node `j` joins the two waiting subtrees that come first in that order,
/// the first as its left child.
pub open spec fn greedy_step(nodes: Seq<Node>, from: int, j: int) -> bool {
    match nodes[j] {
        Node::Internal { left, right, .. } => {
            &&& waiting(nodes, from, j, left as int)
            &&& waiting(nodes, from, j, right as int)
            &&& left != right
            &&& forall|m: int| #[trigger] waiting(nodes, from, j, m) && m != left
                ==> prio_le(prio_of(nodes, left as int), prio_of(nodes, m))
            &&& forall|m: int| #[trigger] waiting(nodes, from, j, m) && m != left && m != right
                ==> prio_le(prio_of(nodes, right as int), prio_of(nodes, m))
        },
        Node::Leaf { .. } => false,
    }
}

pub open spec fn leaf_of_entry(x: Node, e: (char, u64)) -> bool {
    &&& x is Leaf
    &&& x->Leaf_symbol == e.0
    &&& x->Leaf_weight == e.1
}

/// The arena is what the greedy rule makes from `freqs`: first one leaf per
/// table entry, in table order, then one internal node per join.
pub open spec fn greedy_tree(nodes: Seq<Node>, freqs: Seq<(char, u64)>) -> bool {
    &&& freqs.len() <= nodes.len()
    &&& forall|k: int| 0 <= k < freqs.len() ==> #[trigger] leaf_of_entry(nodes[k], freqs[k])
    &&& forall|j: int| freqs.len() <= j < nodes.len() ==> #[trigger] greedy_step(nodes, freqs.len() as int, j)
}

proof fn lemma_waiting_frame(nodes: Seq<Node>, x: Node, from: int, j: int, m: int)
    requires
        0 <= from,
        j <= nodes.len(),
    ensures
        waiting(nodes.push(x), from, j, m) == waiting(nodes, from, j, m),
        0 <= m < j ==> prio_of(nodes.push(x), m) == prio_of(nodes, m),
{
    let n2 = nodes.push(x);
    if joined_before(n2, from, j, m) {
        let t = choose|t: int| from <= t < j && #[trigger] is_parent_of(n2, t, m);
        assert(n2[t] == nodes[t]);
        assert(is_parent_of(nodes, t, m));
    }
    if joined_before(nodes, from, j, m) {
        let t = choose|t: int| from <= t < j && #[trigger] is_parent_of(nodes, t, m);
        assert(n2[t] == nodes[t]);
        assert(is_parent_of(n2, t, m));
    }
}

proof fn lemma_greedy_frame(nodes: Seq<Node>, x: Node, from: int, j: int)
    requires
        0 <= from,
        0 <= j < nodes.len(),
        greedy_step(nodes, from, j),
    ensures
        greedy_step(nodes.push(x), from, j),
{
    let n2 = nodes.push(x);
    assert(n2[j] == nodes[j]);
    if let Node::Internal { left, right, .. } = nodes[j] {
        lemma_waiting_frame(nodes, x, from, j, left as int);
        lemma_waiting_frame(nodes, x, from, j, right as int);
        assert forall|m: int| #[trigger] waiting(n2, from, j, m) && m != left
            implies prio_le(prio_of(n2, left as int), prio_of(n2, m)) by {
            lemma_waiting_frame(nodes, x, from, j, m);
        }
        assert forall|m: int| #[trigger] waiting(n2, from, j, m) && m != left && m != right
            implies prio_le(prio_of(n2, right as int), prio_of(n2, m)) by {
            lemma_waiting_frame(nodes, x, from, j, m);
        }
    }
}

proof fn lemma_leaf_step_greedy(nodes: Seq<Node>, live: Seq<usize>, freqs: Seq<(char, u64)>, i: int, c: char, w: u64)
    requires
        0 <= i < freqs.len(),
        (c, w) == freqs[i],
        nodes.len() == i,
        forall|k: int| 0 <= k < i ==> #[trigger] leaf_of_entry(nodes[k], freqs[k]),
        forall|m: usize| #[trigger] holds(live, m) <==> m < i,
    ensures
        forall|k: int| 0 <= k < i + 1 ==> #[trigger] leaf_of_entry(nodes.push(Node::Leaf { symbol: c, weight: w })[k], freqs[k]),
        forall|m: usize| #[trigger] holds(live.push(i as usize), m) <==> m < i + 1,
{
    let n2 = nodes.push(Node::Leaf { symbol: c, weight: w });
    assert forall|k: int| 0 <= k < i + 1 implies #[trigger] leaf_of_entry(n2[k], freqs[k]) by {
        if k < i {
            assert(n2[k] == nodes[k]);
        }
    }
    assert forall|m: usize| #[trigger] holds(live.push(i as usize), m) <==> m < i + 1 by {
        lemma_push_holds(live, i as usize, m);
    }
}

proof fn lemma_greedy_start(nodes: Seq<Node>, live: Seq<usize>, freqs: Seq<(char, u64)>)
    requires
        nodes.len() == freqs.len(),
        forall|k: int| 0 <= k < freqs.len() ==> #[trigger] leaf_of_entry(nodes[k], freqs[k]),
        forall|m: usize| #[trigger] holds(live, m) <==> m < freqs.len(),
    ensures
        greedy_tree(nodes, freqs),
        forall|m: usize| #[trigger] holds(live, m) <==> waiting(nodes, freqs.len() as int, nodes.len() as int, m as int),
{
}

proof fn lemma_join_step_greedy(
    nodes: Seq<Node>,
    q: MinQueue,
    q1: MinQueue,
    live: Seq<usize>,
    l3: Seq<usize>,
    freqs: Seq<(char, u64)>,
    a: usize,
    b: usize,
    w: u64,
)
    requires
        nodes_wf(nodes),
        greedy_tree(nodes, freqs),
        nodes.len() < usize::MAX,
        queue_matches(q, nodes, live),
        forall|m: usize| #[trigger] holds(live, m) <==> waiting(nodes, freqs.len() as int, nodes.len() as int, m as int),
        queue_entries(q).contains_key(a),
        forall|x: usize| #[trigger] queue_entries(q).contains_key(x) ==> prio_le(queue_entries(q)[a], queue_entries(q)[x]),
        queue_entries(q1) == queue_entries(q).remove(a),
        queue_entries(q1).contains_key(b),
        forall|x: usize| #[trigger] queue_entries(q1).contains_key(x) ==> prio_le(queue_entries(q1)[b], queue_entries(q1)[x]),
        forall|x: usize| #[trigger] holds(l3, x) <==> ((holds(live, x) && x != a && x != b) || x == nodes.len()),
    ensures
        greedy_tree(nodes.push(Node::Internal { weight: w, left: a, right: b }), freqs),
        forall|m: usize| #[trigger] holds(l3, m) <==> waiting(nodes.push(Node::Internal { weight: w, left: a, right: b }),
            freqs.len() as int, nodes.len() as int + 1, m as int),
{
    let from = freqs.len() as int;
    let k = nodes.len() as int;
    let x = Node::Internal { weight: w, left: a, right: b };
    let n2 = nodes.push(x);
    assert(holds(live, a));
    assert(queue_entries(q).contains_key(b));
    assert(holds(live, b));
    assert(n2[k] == x);
    assert forall|j: int| from <= j < n2.len() implies #[trigger] greedy_step(n2, from, j) by {
        if j < k {
            lemma_greedy_frame(nodes, x, from, j);
        } else {
            lemma_waiting_frame(nodes, x, from, k, a as int);
            lemma_waiting_frame(nodes, x, from, k, b as int);
            assert forall|m: int| #[trigger] waiting(n2, from, k, m) && m != a
                implies prio_le(prio_of(n2, a as int), prio_of(n2, m)) by {
                lemma_waiting_frame(nodes, x, from, k, m);
                assert(holds(live, m as usize));
                assert(queue_entries(q).contains_key(m as usize));
            }
            assert forall|m: int| #[trigger] waiting(n2, from, k, m) && m != a && m != b
                implies prio_le(prio_of(n2, b as int), prio_of(n2, m)) by {
                lemma_waiting_frame(nodes, x, from, k, m);
                assert(holds(live, m as usize));
                assert(queue_entries(q1).contains_key(m as usize));
            }
        }
    }
    assert forall|k2: int| 0 <= k2 < freqs.len() implies #[trigger] leaf_of_entry(n2[k2], freqs[k2]) by {
        assert(n2[k2] == nodes[k2]);
    }
    assert forall|m: usize| #[trigger] holds(l3, m) <==> waiting(n2, from, k + 1, m as int) by {
        let mi = m as int;
        if joined_before(n2, from, k + 1, mi) {
            let t = choose|t: int| from <= t < k + 1 && #[trigger] is_parent_of(n2, t, mi);
            if t < k {
                assert(is_parent_of(nodes, t, mi));
                assert(joined_before(nodes, from, k, mi));
            }
        }
        if mi < k && joined_before(nodes, from, k, mi) {
            let t = choose|t: int| from <= t < k && #[trigger] is_parent_of(nodes, t, mi);
            assert(is_parent_of(n2, t, mi));
        }
        if mi == a as int || mi == b as int {
            assert(is_parent_of(n2, k, mi));
        }
        if mi == k {
            assert(!joined_before(n2, from, k + 1, mi)) by {
                if joined_before(n2, from, k + 1, mi) {
                    let t = choose|t: int| from <= t < k + 1 && #[trigger] is_parent_of(n2, t, mi);
                    if t < k {
                        assert(node_wf(nodes, t));
                    }
                }
            }
        }
    }
}

/// Builds a code tree from a frequency table by the greedy rule: while more
/// than one subtree is left, the two of least weight are joined under a new
/// internal node. Ties in weight go to the subtree made first (leaves in
/// table order, then joined nodes in order of creation); the first one taken
/// becomes the left child.
pub fn build(freqs: &Vec<(char, u64)>) -> (r: Result<HuffmanTree, HuffmanError>)
    requires
        total_weight(freqs@) <= u64::MAX,
        freqs@.len() <= usize::MAX / 2,
    ensures
        freqs@.len() == 0 <==> r is Err,
        r is Err ==> r == Err::<HuffmanTree, HuffmanError>(HuffmanError::EmptyAlphabet),
        r matches Ok(t) ==> {
            &&& t.wf()
            &&& greedy_tree(t.nodes@, freqs@)
            &&& t.nodes@.len() == 2 * freqs@.len() - 1
            &&& t.root == t.nodes@.len() - 1
            &&& t.alphabet() == freq_chars(freqs@)
            &&& t.nodes@[t.root as int].spec_weight() == total_weight(freqs@)
        },
{
    if freqs.len() == 0 {
        return Err(HuffmanError::EmptyAlphabet);
    }
    let mut nodes: Vec<Node> = Vec::new();
    let mut pq = queue_new();
    let ghost mut live: Seq<usize> = Seq::empty();
    let mut i: usize = 0;
    proof {
        assert(live_symbols(nodes@, live) =~= freq_chars(freqs@.take(0)));
        assert(total_weight(freqs@.take(0)) == 0);
        assert(queue_matches(pq, nodes@, live)) by {
            reveal(holds);
        }
        assert forall|m: usize| #[trigger] holds(live, m) <==> m < 0 by {
            reveal(holds);
        }
    }
    while i < freqs.len()
        invariant
            leaves_queued(nodes@, pq, live, freqs@, i as int),
            forall|k: int| 0 <= k < i ==> #[trigger] leaf_of_entry(nodes@[k], freqs@[k]),
            forall|m: usize| #[trigger] holds(live, m) <==> m < i,
        decreases freqs@.len() - i,
    {
        let (c, w) = freqs[i];
        let ghost n0 = nodes@;
        let ghost q0 = pq;
        nodes.push(Node::Leaf { symbol: c, weight: w });
        queue_push(&mut pq, i, (w, i));
        proof {
            lemma_leaf_step(n0, q0, pq, live, freqs@, i as int, c, w);
            lemma_leaf_step_greedy(n0, live, freqs@, i as int, c, w);
            live = live.push(i);
        }
        i = i + 1;
    }
    proof {
        assert(freqs@.take(i as int) =~= freqs@);
        assert(queue_entries(pq).contains_key((i - 1) as usize));
        vstd::set_lib::lemma_set_empty_equivalency_len(queue_entries(pq).dom());
        lemma_greedy_start(nodes@, live, freqs@);
    }
    while queue_len(&pq) > 1
        invariant
            joining(nodes@, pq, live, freqs@),
            freqs@.len() > 0,
            greedy_tree(nodes@, freqs@),
            forall|m: usize| #[trigger] holds(live, m)
                <==> waiting(nodes@, freqs@.len() as int, nodes@.len() as int, m as int),
        decreases queue_entries(pq).len(),
    {
        let ghost n0 = nodes@;
        let ghost q0 = pq;
        proof {
            vstd::set_lib::lemma_set_empty_equivalency_len(queue_entries(pq).dom());
        }
        let (a, pa) = queue_pop(&mut pq).unwrap();
        let ghost q1 = pq;
        proof {
            vstd::set_lib::lemma_set_empty_equivalency_len(queue_entries(pq).dom());
        }
        let (b, pb) = queue_pop(&mut pq).unwrap();
        let ghost q2 = pq;
        proof {
            lemma_join_fits(n0, q0, q1, live, freqs@, a, b);
        }
        let w = pa.0 + pb.0;
        let k = nodes.len();
        nodes.push(Node::Internal { weight: w, left: a, right: b });
        queue_push(&mut pq, k, (w, k));
        proof {
            let live0 = live;
            live = lemma_join_step(n0, q0, q1, q2, pq, live0, freqs@, a, b);
            lemma_join_step_greedy(n0, q0, q1, live0, live, freqs@, a, b, w);
        }
    }
    let ghost q0 = pq;
    proof {
        vstd::set_lib::lemma_set_empty_equivalency_len(queue_entries(pq).dom());
    }
    let (root, _) = queue_pop(&mut pq).unwrap();
    proof {
        lemma_last_one(nodes@, q0, pq, live, root);
        let n = freqs@.len() as int;
        let last = nodes@.len() - 1;
        if nodes@.len() > n {
            assert(!joined_before(nodes@, n, nodes@.len() as int, last)) by {
                if joined_before(nodes@, n, nodes@.len() as int, last) {
                    let t = choose|t: int| n <= t < nodes@.len() && #[trigger] is_parent_of(nodes@, t, last);
                    assert(node_wf(nodes@, t));
                }
            }
            assert(holds(live, last as usize));
            assert(queue_entries(q0).contains_key(last as usize));
            if root != last {
                assert(queue_entries(pq).dom().contains(last as usize));
                vstd::set_lib::lemma_set_empty_equivalency_len(queue_entries(pq).dom());
            }
        }
    }
    Ok(HuffmanTree { nodes, root })
}

proof fn lemma_last_one(nodes: Seq<Node>, q: MinQueue, q1: MinQueue, live: Seq<usize>, root: usize)
    requires
        queue_matches(q, nodes, live),
        queue_entries(q).len() == 1,
        queue_entries(q).contains_key(root),
        queue_entries(q1) == queue_entries(q).remove(root),
    ensures
        root < nodes.len(),
        live_weight(nodes, live) == nodes[root as int].spec_weight(),
        live_symbols(nodes, live) == symbols(nodes, root as int),
{
    let j = lemma_holds_witness(live, root);
    lemma_live_remove(nodes, live, j);
    let rest = live.remove(j);
    assert(queue_entries(q1).dom() == queue_entries(q).dom().remove(root));
    assert(queue_entries(q1).dom().len() == 0);
    vstd::set_lib::lemma_set_empty_equivalency_len(queue_entries(q1).dom());
    if rest.len() > 0 {
        lemma_holds_index(rest, 0);
        lemma_remove_holds(live, j, rest[0]);
        assert(queue_entries(q1).dom().contains(rest[0]));
    }
    assert(rest =~= Seq::<usize>::empty());
    assert(live_symbols(nodes, rest) =~= Set::<char>::empty());
    assert(live_symbols(nodes, live) =~= symbols(nodes, root as int));
}

} // verus!
