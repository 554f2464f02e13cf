//! The flat trie layout behind a `ByteSet`, and its construction.
//!
//! Nodes and edges live in two fixed-capacity arrays.  Node `0` is the root;
//! the child edges of a node occupy the contiguous range
//! `child_start .. child_start + child_len` of the edge array, ordered by
//! descending weight (the number of sequences that pass through the edge),
//! ties broken by ascending byte, and the ranges of consecutive nodes follow
//! one another.
use crate::builder::{
    key_before, lemma_sum_lens_take_le, lemma_sum_lens_take_rest_empty, lemma_sum_lens_take_step,
    sum_lens, Builder,
};
use crate::model::{
    is_prefix, lemma_occurs_drop_last, first_occurrences, prefix_list, distinct_prefix_count, lemma_distinct_prefix_count_bound, lemma_prefix_set_contains,
    lemma_total_len_take_le, lemma_total_len_take_step, prefix_count, prefix_set, total_len,
};
use vstd::prelude::*;

verus! {

/// One trie node: whether a sequence ends here, and where its child edges are.
#[derive(Clone, Copy, Debug, PartialEq, Eq, Structural)]
pub struct Node {
    pub terminal: bool,
    pub child_start: usize,
    pub child_len: usize,
}

/// The node value that fills unused slots.
pub open spec fn empty_node() -> Node {
    Node { terminal: false, child_start: 0, child_len: 0 }
}

impl Node {
    /// A non-terminal node without children.
    pub fn empty() -> (node: Self)
        ensures
            node == empty_node(),
    {
        Self { terminal: false, child_start: 0, child_len: 0 }
    }
}

/// One trie edge: the byte it matches, the node it leads to, and how many
/// sequences pass through it.
#[derive(Clone, Copy, Debug, PartialEq, Eq, Structural)]
pub struct Edge {
    pub byte: u8,
    pub target: usize,
    pub weight: usize,
}

/// The edge value that fills unused slots.
pub open spec fn empty_edge() -> Edge {
    Edge { byte: 0, target: 0, weight: 0 }
}

impl Edge {
    /// A zero edge.
    pub fn empty() -> (edge: Self)
        ensures
            edge == empty_edge(),
    {
        Self { byte: 0, target: 0, weight: 0 }
    }
}

/// Sibling order: heavier edges first, then smaller bytes.
pub open spec fn edge_before(a: Edge, b: Edge) -> bool {
    a.weight > b.weight || (a.weight == b.weight && a.byte < b.byte)
}

/// Edge index `k` lies in the child range of `node`.
pub open spec fn in_children(node: Node, k: int) -> bool {
    node.child_start <= k < node.child_start + node.child_len
}

/// `nodes[..n]` and `edges[..e]` form the trie of `seqs`, node `i` standing for
/// the prefix `labels[i]`:
/// - the labels are the distinct prefixes of `seqs`, each once, the root's empty;
/// - a node is terminal exactly when its label is one of `seqs`;
/// - child ranges are laid out one after the other from edge `0` to edge `e`;
/// - a node has an edge for byte `b` exactly when its label extended by `b` is a
///   prefix; that edge leads to the node of the extended label and weighs the
///   number of sequences that have it as a prefix;
/// - siblings are ordered by `edge_before`.
pub open spec fn trie_shape(
    nodes: Seq<Node>,
    edges: Seq<Edge>,
    n: int,
    e: int,
    labels: Seq<Seq<u8>>,
    seqs: Seq<Seq<u8>>,
) -> bool {
    &&& 1 <= n <= nodes.len()
    &&& 0 <= e <= edges.len()
    &&& labels.len() == n
    &&& labels[0] == Seq::<u8>::empty()
    &&& labels.no_duplicates()
    &&& labels.to_set() == prefix_set(seqs)
    &&& forall|i: int| 0 <= i < n ==> (#[trigger] nodes[i]).terminal == seqs.contains(labels[i])
    &&& nodes[0].child_start == 0
    &&& forall|i: int|
        0 <= i < n - 1 ==> (#[trigger] nodes[i + 1]).child_start == nodes[i].child_start
            + nodes[i].child_len
    &&& nodes[n - 1].child_start + nodes[n - 1].child_len == e
    &&& forall|i: int| 0 <= i < n ==> (#[trigger] nodes[i]).child_start + nodes[i].child_len <= e
    &&& forall|i: int, k: int|
        #![trigger nodes[i], edges[k]]
        0 <= i < n && in_children(nodes[i], k) ==> {
            &&& 0 < edges[k].target < n
            &&& labels[edges[k].target as int] == labels[i].push(edges[k].byte)
            &&& edges[k].weight == prefix_count(seqs, labels[edges[k].target as int])
        }
    &&& forall|i: int, b: u8|
        0 <= i < n && #[trigger] prefix_set(seqs).contains(labels[i].push(b)) ==> exists|k: int|
            in_children(nodes[i], k) && (#[trigger] edges[k]).byte == b
    &&& forall|i: int, k1: int, k2: int|
        #![trigger nodes[i], edges[k1], edges[k2]]
        0 <= i < n && in_children(nodes[i], k1) && in_children(nodes[i], k2) && k1 < k2
            ==> edge_before(edges[k1], edges[k2])
}

/// The byte views of the given sequences.
pub open spec fn seq_views(seqs: Seq<&[u8]>) -> Seq<Seq<u8>> {
    Seq::new(seqs.len(), |i: int| seqs[i]@)
}

/// The trie of `seqs` laid out in `nodes[..n]` and `edges[..e]`, node `i`
/// standing for the `i`-th distinct prefix of `seqs` in order of first
/// occurrence.
pub open spec fn trie_of(nodes: Seq<Node>, edges: Seq<Edge>, n: int, e: int, seqs: Seq<Seq<u8>>) -> bool {
    trie_shape(nodes, edges, n, e, first_occurrences(prefix_list(seqs)), seqs)
}

/// A trie with room for `MAX_NODES` nodes and `MAX_EDGES` edges.
#[derive(Clone, Debug)]
pub struct Trie<const MAX_NODES: usize, const MAX_EDGES: usize> {
    pub nodes: [Node; MAX_NODES],
    pub edges: [Edge; MAX_EDGES],
    pub node_count: usize,
    pub edge_count: usize,
    pub sequence_count: usize,
}

impl<const MAX_NODES: usize, const MAX_EDGES: usize> Trie<MAX_NODES, MAX_EDGES> {
    /// The trie holds the trie of `seqs`, `sequence_count` is the number of
    /// distinct sequences among them, and every unused slot holds the empty value.
    pub open spec fn is_trie_of(&self, seqs: Seq<Seq<u8>>) -> bool {
        &&& trie_of(self.nodes@, self.edges@, self.node_count as int, self.edge_count as int, seqs)
        &&& self.sequence_count == seqs.to_set().len()
        &&& forall|i: int| self.node_count <= i < MAX_NODES ==> self.nodes[i] == empty_node()
        &&& forall|k: int| self.edge_count <= k < MAX_EDGES ==> self.edges[k] == empty_edge()
    }

    /// All slots empty, all counts zero.
    fn uninit() -> (trie: Self)
        ensures
            trie.node_count == 0,
            trie.edge_count == 0,
            trie.sequence_count == 0,
            forall|i: int| 0 <= i < MAX_NODES ==> trie.nodes[i] == empty_node(),
            forall|k: int| 0 <= k < MAX_EDGES ==> trie.edges[k] == empty_edge(),
    {
        Self {
            nodes: [Node::empty(); MAX_NODES],
            edges: [Edge::empty(); MAX_EDGES],
            node_count: 0,
            edge_count: 0,
            sequence_count: 0,
        }
    }
}

/// The total number of bytes in `sequences`.
pub fn total_bytes<const N: usize>(sequences: &[&[u8]; N]) -> (sum: usize)
    requires
        total_len(seq_views(sequences@)) <= usize::MAX,
    ensures
        sum == total_len(seq_views(sequences@)),
{
    let ghost s = seq_views(sequences@);
    let mut sum = 0usize;
    let mut i = 0usize;
    while i < N
        invariant
            i <= N,
            s == seq_views(sequences@),
            s.len() == N,
            total_len(s) <= usize::MAX,
            sum == total_len(s.take(i as int)),
        decreases N - i,
    {
        proof {
            lemma_total_len_take_step(s, i as int);
            lemma_total_len_take_le(s, i as int + 1);
        }
        sum += sequences[i].len();
        i += 1;
    }
    assert(s.take(N as int) =~= s);
    sum
}

/// Builds the trie of `sequences`: one node per distinct prefix, numbered in
/// the order the prefixes first occur, and sibling edges ordered by descending
/// weight, then ascending byte.  Every given sequence counts in the weights;
/// `sequence_count` is the number of distinct sequences, the size of the set.
pub fn build_trie<const N: usize, const MAX_NODES: usize, const MAX_EDGES: usize>(
    sequences: &[&[u8]; N],
) -> (trie: Trie<MAX_NODES, MAX_EDGES>)
    requires
        distinct_prefix_count(seq_views(sequences@)) <= MAX_NODES,
        distinct_prefix_count(seq_views(sequences@)) <= MAX_EDGES + 1,
    ensures
        trie.is_trie_of(seq_views(sequences@)),
        trie.node_count == distinct_prefix_count(seq_views(sequences@)),
        trie.edge_count + 1 == trie.node_count,
{
    let ghost total = seq_views(sequences@);
    proof {
        lemma_distinct_prefix_count_bound(total);
    }
    let mut trie = Trie::uninit();
    let mut builder = Builder::<MAX_NODES, MAX_EDGES>::new();
    assert(total.take(0) =~= Seq::<Seq<u8>>::empty());
    let mut seq_idx = 0usize;
    while seq_idx < N
        invariant
            seq_idx <= N,
            total == seq_views(sequences@),
            total.len() == N,
            builder.inv(total.take(seq_idx as int), total.take(seq_idx as int)),
            prefix_set(total).len() <= MAX_NODES,
            prefix_set(total).len() <= MAX_EDGES + 1,
        decreases N - seq_idx,
    {
        let seq = sequences[seq_idx];
        assert(seq@ == total[seq_idx as int]);
        builder.insert(seq, Ghost(total.take(seq_idx as int)), Ghost(total));
        assert(total.take(seq_idx as int).push(seq@) =~= total.take(seq_idx + 1));
        seq_idx += 1;
    }
    assert(total.take(N as int) =~= total);

    let mut sorted_edge_bytes = [0u8; MAX_EDGES];
    let mut sorted_edge_targets = [0usize; MAX_EDGES];
    let mut sorted_edge_weights = [0usize; MAX_EDGES];
    let mut node_child_start = [0usize; MAX_NODES];
    let mut scratch_indexes = [0usize; MAX_EDGES];
    let node_count = builder.node_count;
    let ghost lists = builder.lists@;
    let ghost mut sorted: Seq<Seq<usize>> = Seq::empty();
    assert(lists.take(0) =~= Seq::<Seq<usize>>::empty());
    let mut current_node = 0usize;
    let mut sorted_edge_count = 0usize;
    while current_node < node_count
        invariant
            builder.inv(total, total),
            node_count == builder.node_count,
            lists == builder.lists@,
            current_node <= node_count,
            sorted.len() == current_node,
            sorted_edge_count == sum_lens(lists.take(current_node as int)),
            forall|i: int|
                0 <= i < current_node ==> #[trigger] node_child_start[i] == sum_lens(lists.take(i)),
            forall|i: int|
                0 <= i < current_node ==> {
                    &&& (#[trigger] sorted[i]).len() == lists[i].len()
                    &&& sorted[i].no_duplicates()
                    &&& forall|x: usize| sorted[i].contains(x) <==> lists[i].contains(x)
                    &&& forall|a: int, c: int|
                        #![trigger sorted[i][a], sorted[i][c]]
                        0 <= a < c < sorted[i].len() ==> key_before(
                            builder.edge_weight@,
                            builder.edge_byte@,
                            sorted[i][a],
                            sorted[i][c],
                        )
                },
            forall|i: int, t: int|
                #![trigger sorted[i][t]]
                0 <= i < current_node && 0 <= t < sorted[i].len() ==> {
                    let x = sorted[i][t] as int;
                    &&& sorted_edge_bytes[node_child_start[i] + t] == builder.edge_byte[x]
                    &&& sorted_edge_targets[node_child_start[i] + t] == builder.edge_target[x]
                    &&& sorted_edge_weights[node_child_start[i] + t] == builder.edge_weight[x]
                },
        decreases node_count - current_node,
    {
        proof {
            lemma_sum_lens_take_step(lists, current_node as int);
            lemma_sum_lens_take_le(lists, current_node + 1);
        }
        let start = sorted_edge_count;
        let child_total = builder.sorted_children(
            current_node,
            &mut scratch_indexes,
            Ghost(total),
            Ghost(total),
        );
        let ghost bytes0 = sorted_edge_bytes@;
        let ghost targets0 = sorted_edge_targets@;
        let ghost weights0 = sorted_edge_weights@;
        let ghost order = scratch_indexes@.take(child_total as int);
        let mut k = 0usize;
        while k < child_total
            invariant
                builder.inv(total, total),
                lists == builder.lists@,
                current_node < builder.node_count,
                k <= child_total,
                child_total == lists[current_node as int].len(),
                sorted_edge_count == start + k,
                start + child_total <= MAX_EDGES,
                order == scratch_indexes@.take(child_total as int),
                forall|x: usize| order.contains(x) <==> lists[current_node as int].contains(x),
                forall|a: int|
                    0 <= a < start ==> {
                        &&& sorted_edge_bytes[a] == bytes0[a]
                        &&& sorted_edge_targets[a] == targets0[a]
                        &&& sorted_edge_weights[a] == weights0[a]
                    },
                forall|t: int|
                    0 <= t < k ==> {
                        let x = #[trigger] order[t] as int;
                        &&& sorted_edge_bytes[start + t] == builder.edge_byte[x]
                        &&& sorted_edge_targets[start + t] == builder.edge_target[x]
                        &&& sorted_edge_weights[start + t] == builder.edge_weight[x]
                    },
            decreases child_total - k,
        {
            let edge_idx = scratch_indexes[k];
            proof {
                assert(order[k as int] == edge_idx);
                assert(order.contains(edge_idx));
                let tt = choose|tt: int|
                    0 <= tt < lists[current_node as int].len() && lists[current_node as int][tt]
                        == edge_idx;
                assert(edge_idx < builder.edge_count);
            }
            sorted_edge_bytes[sorted_edge_count] = builder.edge_byte[edge_idx];
            sorted_edge_targets[sorted_edge_count] = builder.edge_target[edge_idx];
            sorted_edge_weights[sorted_edge_count] = builder.edge_weight[edge_idx];
            sorted_edge_count += 1;
            k += 1;
        }
        node_child_start[current_node] = start;
        proof {
            let cur = current_node as int;
            sorted = sorted.push(order);
            assert forall|i: int, t: int|
                #![trigger sorted[i][t]]
                0 <= i < cur + 1 && 0 <= t < sorted[i].len() implies {
                let x = sorted[i][t] as int;
                &&& sorted_edge_bytes[node_child_start[i] + t] == builder.edge_byte[x]
                &&& sorted_edge_targets[node_child_start[i] + t] == builder.edge_target[x]
                &&& sorted_edge_weights[node_child_start[i] + t] == builder.edge_weight[x]
            } by {
                if i < cur {
                    lemma_sum_lens_take_step(lists, i);
                    lemma_sum_lens_take_le(lists.take(cur), i + 1);
                    assert(lists.take(cur).take(i + 1) =~= lists.take(i + 1));
                    assert(node_child_start[i] + t < start);
                } else {
                    assert(order[t] == sorted[i][t]);
                }
            }
        }
        current_node += 1;
    }

    let mut n = 0usize;
    while n < node_count
        invariant
            builder.inv(total, total),
            node_count == builder.node_count,
            n <= node_count,
            forall|i: int|
                0 <= i < n ==> #[trigger] trie.nodes[i] == (Node {
                    terminal: builder.node_terminal[i],
                    child_start: node_child_start[i],
                    child_len: builder.node_child_count[i],
                }),
            forall|i: int| n <= i < MAX_NODES ==> #[trigger] trie.nodes[i] == empty_node(),
            forall|k: int| 0 <= k < MAX_EDGES ==> #[trigger] trie.edges[k] == empty_edge(),
        decreases node_count - n,
    {
        trie.nodes[n] = Node {
            terminal: builder.node_terminal[n],
            child_start: node_child_start[n],
            child_len: builder.node_child_count[n],
        };
        n += 1;
    }
    proof {
        builder.lemma_unused_lists_empty(total, total);
        lemma_sum_lens_take_rest_empty(lists, node_count as int);
    }
    let ghost laid_nodes = trie.nodes@;
    let mut e = 0usize;
    while e < sorted_edge_count
        invariant
            trie.nodes@ == laid_nodes,
            sorted_edge_count <= MAX_EDGES,
            e <= sorted_edge_count,
            forall|k: int|
                0 <= k < e ==> #[trigger] trie.edges[k] == (Edge {
                    byte: sorted_edge_bytes[k],
                    target: sorted_edge_targets[k],
                    weight: sorted_edge_weights[k],
                }),
            forall|k: int| e <= k < MAX_EDGES ==> #[trigger] trie.edges[k] == empty_edge(),
        decreases sorted_edge_count - e,
    {
        trie.edges[e] = Edge {
            byte: sorted_edge_bytes[e],
            target: sorted_edge_targets[e],
            weight: sorted_edge_weights[e],
        };
        e += 1;
    }
    trie.node_count = node_count;
    trie.edge_count = sorted_edge_count;
    trie.sequence_count = builder.distinct_count;
    proof {
        assert forall|i: int, t: int|
            #![trigger sorted[i][t]]
            0 <= i < node_count && 0 <= t < sorted[i].len() implies {
            let x = sorted[i][t] as int;
            trie.edges[node_child_start[i] + t] == (Edge {
                byte: builder.edge_byte[x],
                target: builder.edge_target[x],
                weight: builder.edge_weight[x],
            })
        } by {
            lemma_sum_lens_take_step(lists, i);
            lemma_sum_lens_take_le(lists, i + 1);
            assert(node_child_start[i] + t < sorted_edge_count);
        }
        lemma_layout_shape(
            builder,
            total,
            sorted,
            node_child_start@,
            trie.nodes@,
            trie.edges@,
            sorted_edge_count as int,
        );
        assert(trie.nodes@.len() == MAX_NODES);
        assert(trie.edges@.len() == MAX_EDGES);
        assert(distinct_prefix_count(total) == builder.node_count) by {
            builder.labels@.unique_seq_to_set();
        }
    }
    trie
}

/// The laid-out arrays of a finished builder form the trie of its sequences.
proof fn lemma_layout_shape<const MAX_NODES: usize, const MAX_EDGES: usize>(
    b: Builder<MAX_NODES, MAX_EDGES>,
    total: Seq<Seq<u8>>,
    sorted: Seq<Seq<usize>>,
    starts: Seq<usize>,
    nodes: Seq<Node>,
    edges: Seq<Edge>,
    e: int,
)
    requires
        b.inv(total, total),
        sorted.len() == b.node_count,
        starts.len() == MAX_NODES,
        nodes.len() == MAX_NODES,
        edges.len() == MAX_EDGES,
        e == sum_lens(b.lists@),
        forall|i: int| 0 <= i < b.node_count ==> #[trigger] starts[i] == sum_lens(b.lists@.take(i)),
        forall|i: int|
            0 <= i < b.node_count ==> {
                &&& (#[trigger] sorted[i]).len() == b.lists@[i].len()
                &&& sorted[i].no_duplicates()
                &&& forall|x: usize| sorted[i].contains(x) <==> b.lists@[i].contains(x)
                &&& forall|a: int, c: int|
                    #![trigger sorted[i][a], sorted[i][c]]
                    0 <= a < c < sorted[i].len() ==> key_before(
                        b.edge_weight@,
                        b.edge_byte@,
                        sorted[i][a],
                        sorted[i][c],
                    )
            },
        forall|i: int|
            0 <= i < b.node_count ==> #[trigger] nodes[i] == (Node {
                terminal: b.node_terminal[i],
                child_start: starts[i],
                child_len: b.node_child_count[i],
            }),
        forall|i: int, t: int|
            #![trigger sorted[i][t]]
            0 <= i < b.node_count && 0 <= t < sorted[i].len() ==> {
                let x = sorted[i][t] as int;
                edges[starts[i] + t] == (Edge {
                    byte: b.edge_byte[x],
                    target: b.edge_target[x],
                    weight: b.edge_weight[x],
                })
            },
    ensures
        trie_shape(nodes, edges, b.node_count as int, e, b.labels@, total),
{
    let n = b.node_count as int;
    let labels = b.labels@;
    let lists = b.lists@;
    assert(lists.take(0) =~= Seq::<Seq<usize>>::empty());
    b.lemma_unused_lists_empty(total, total);
    assert(labels.to_set() =~= prefix_set(total)) by {
        assert forall|q: Seq<u8>| labels.to_set().contains(q) <==> prefix_set(total).contains(q) by {
            lemma_prefix_set_contains(total, q);
        }
    }
    assert forall|i: int| 0 <= i < n - 1 implies (#[trigger] nodes[i + 1]).child_start
        == nodes[i].child_start + nodes[i].child_len by {
        lemma_sum_lens_take_step(lists, i);
        assert(starts[i + 1] == sum_lens(lists.take(i + 1)));
        assert(starts[i] == sum_lens(lists.take(i)));
    }
    lemma_sum_lens_take_rest_empty(lists, n);
    lemma_sum_lens_take_step(lists, n - 1);
    assert forall|i: int| 0 <= i < n implies (#[trigger] nodes[i]).child_start
        + nodes[i].child_len <= e by {
        lemma_sum_lens_take_step(lists, i);
        lemma_sum_lens_take_le(lists, i + 1);
    }
    assert forall|i: int, k: int|
        #![trigger nodes[i], edges[k]]
        0 <= i < n && in_children(nodes[i], k) implies {
        &&& 0 < edges[k].target < n
        &&& labels[edges[k].target as int] == labels[i].push(edges[k].byte)
        &&& edges[k].weight == prefix_count(total, labels[edges[k].target as int])
    } by {
        let t = k - starts[i];
        let x = sorted[i][t];
        assert(sorted[i].contains(x));
        let tt = choose|tt: int| 0 <= tt < lists[i].len() && lists[i][tt] == x;
        assert(b.parent@[x as int] == i);
    }
    assert forall|i: int, bt: u8|
        0 <= i < n && #[trigger] prefix_set(total).contains(labels[i].push(bt)) implies exists|k: int|
        in_children(nodes[i], k) && (#[trigger] edges[k]).byte == bt by {
        let l = labels[i].push(bt);
        lemma_prefix_set_contains(total, l);
        assert(labels.contains(l));
        let j = choose|j: int| 0 <= j < labels.len() && labels[j] == l;
        assert(j != 0) by {
            assert(l.len() == labels[i].len() + 1);
        }
        let x = j - 1;
        let par = b.parent@[x];
        assert(labels[j] == labels[par].push(b.edge_byte[x]));
        assert(labels[par] =~= l.drop_last());
        assert(labels[i] =~= l.drop_last());
        assert(par == i);
        assert(labels[par].push(b.edge_byte[x]).last() == b.edge_byte[x]);
        assert(l.last() == bt);
        assert(sorted[i].contains(x as usize));
        let t = choose|t: int| 0 <= t < sorted[i].len() && sorted[i][t] == x as usize;
        assert(in_children(nodes[i], starts[i] + t));
        assert(edges[starts[i] + t].byte == bt);
    }
    assert forall|i: int, k1: int, k2: int|
        #![trigger nodes[i], edges[k1], edges[k2]]
        0 <= i < n && in_children(nodes[i], k1) && in_children(nodes[i], k2) && k1 < k2 implies edge_before(
        edges[k1],
        edges[k2],
    ) by {
        let t1 = k1 - starts[i];
        let t2 = k2 - starts[i];
        assert(key_before(b.edge_weight@, b.edge_byte@, sorted[i][t1], sorted[i][t2]));
    }
}

/// The child edges of node `i`, in order.
pub open spec fn child_edges(nodes: Seq<Node>, edges: Seq<Edge>, i: int) -> Seq<Edge> {
    edges.subrange(nodes[i].child_start as int, nodes[i].child_start + nodes[i].child_len)
}

/// Two strictly ordered sequences of the same edges are equal.
pub(crate) proof fn lemma_sorted_edges_unique(s1: Seq<Edge>, s2: Seq<Edge>)
    requires
        forall|a: int, b: int|
            #![trigger s1[a], s1[b]]
            0 <= a < b < s1.len() ==> edge_before(s1[a], s1[b]),
        forall|a: int, b: int|
            #![trigger s2[a], s2[b]]
            0 <= a < b < s2.len() ==> edge_before(s2[a], s2[b]),
        forall|x: Edge| s1.contains(x) <==> s2.contains(x),
    ensures
        s1 == s2,
    decreases s1.len(),
{
    if s1.len() == 0 {
        if s2.len() > 0 {
            assert(s2.contains(s2[0]));
        }
        assert(s1 =~= s2);
    } else {
        assert(s1.contains(s1[0]));
        let k = choose|k: int| 0 <= k < s2.len() && s2[k] == s1[0];
        assert(s2.contains(s2[0]));
        let j = choose|j: int| 0 <= j < s1.len() && s1[j] == s2[0];
        if j > 0 {
            assert(edge_before(s1[0], s1[j]));
            if k > 0 {
                assert(edge_before(s2[0], s2[k]));
            }
        }
        assert(s1[0] == s2[0]);
        let t1 = s1.drop_first();
        let t2 = s2.drop_first();
        assert forall|x: Edge| t1.contains(x) <==> t2.contains(x) by {
            if t1.contains(x) {
                let a = choose|a: int| 0 <= a < t1.len() && t1[a] == x;
                assert(s1[a + 1] == x);
                assert(edge_before(s1[0], s1[a + 1]));
                assert(s1.contains(x));
                let b = choose|b: int| 0 <= b < s2.len() && s2[b] == x;
                assert(b != 0);
                assert(t2[b - 1] == x);
            }
            if t2.contains(x) {
                let a = choose|a: int| 0 <= a < t2.len() && t2[a] == x;
                assert(s2[a + 1] == x);
                assert(edge_before(s2[0], s2[a + 1]));
                assert(s2.contains(x));
                let b = choose|b: int| 0 <= b < s1.len() && s1[b] == x;
                assert(b != 0);
                assert(t1[b - 1] == x);
            }
        }
        assert forall|a: int, b: int|
            #![trigger t1[a], t1[b]]
            0 <= a < b < t1.len() implies edge_before(t1[a], t1[b]) by {
            assert(edge_before(s1[a + 1], s1[b + 1]));
        }
        assert forall|a: int, b: int|
            #![trigger t2[a], t2[b]]
            0 <= a < b < t2.len() implies edge_before(t2[a], t2[b]) by {
            assert(edge_before(s2[a + 1], s2[b + 1]));
        }
        lemma_sorted_edges_unique(t1, t2);
        assert(s1 =~= seq![s1[0]] + t1);
        assert(s2 =~= seq![s2[0]] + t2);
    }
}

/// Every child edge of node `i` in one layout is a child edge of node `i` in another.
proof fn lemma_child_edges_included(
    nodes1: Seq<Node>,
    edges1: Seq<Edge>,
    e1: int,
    nodes2: Seq<Node>,
    edges2: Seq<Edge>,
    e2: int,
    n: int,
    labels: Seq<Seq<u8>>,
    seqs: Seq<Seq<u8>>,
    i: int,
    x: Edge,
)
    requires
        trie_shape(nodes1, edges1, n, e1, labels, seqs),
        trie_shape(nodes2, edges2, n, e2, labels, seqs),
        0 <= i < n,
        child_edges(nodes1, edges1, i).contains(x),
    ensures
        child_edges(nodes2, edges2, i).contains(x),
{
    let c1 = child_edges(nodes1, edges1, i);
    let c2 = child_edges(nodes2, edges2, i);
    let t = choose|t: int| 0 <= t < c1.len() && c1[t] == x;
    let k = nodes1[i].child_start + t;
    assert(edges1[k] == x);
    assert(in_children(nodes1[i], k));
    let l = labels[i].push(x.byte);
    assert(labels[x.target as int] == l);
    assert(labels.contains(l));
    assert(labels.to_set().contains(l));
    assert(prefix_set(seqs).contains(l));
    let k2 = choose|k2: int| in_children(nodes2[i], k2) && (#[trigger] edges2[k2]).byte == x.byte;
    let y = edges2[k2];
    assert(labels[y.target as int] == l);
    assert(y.target == x.target);
    assert(y == x);
    assert(c2[k2 - nodes2[i].child_start] == x);
}

/// Every edge index below `e` lies in the child range of some node.
proof fn lemma_edge_covered(nodes: Seq<Node>, n: int, e: int, k: int, i: int)
    requires
        0 <= i < n <= nodes.len(),
        nodes[i].child_start <= k < e,
        forall|j: int|
            0 <= j < n - 1 ==> (#[trigger] nodes[j + 1]).child_start == nodes[j].child_start
                + nodes[j].child_len,
        nodes[n - 1].child_start + nodes[n - 1].child_len == e,
    ensures
        exists|j: int| i <= j < n && in_children(nodes[j], k),
    decreases n - i,
{
    if k >= nodes[i].child_start + nodes[i].child_len {
        assert(i < n - 1);
        assert(nodes[i + 1].child_start == nodes[i].child_start + nodes[i].child_len);
        lemma_edge_covered(nodes, n, e, k, i + 1);
    } else {
        assert(in_children(nodes[i], k));
    }
}

/// The trie of a list of sequences is unique: two layouts of it with the same
/// node labels hold the same used nodes and edges.
pub proof fn lemma_trie_shape_unique(
    nodes1: Seq<Node>,
    edges1: Seq<Edge>,
    e1: int,
    nodes2: Seq<Node>,
    edges2: Seq<Edge>,
    e2: int,
    n: int,
    labels: Seq<Seq<u8>>,
    seqs: Seq<Seq<u8>>,
)
    requires
        trie_shape(nodes1, edges1, n, e1, labels, seqs),
        trie_shape(nodes2, edges2, n, e2, labels, seqs),
    ensures
        e1 == e2,
        nodes1.take(n) == nodes2.take(n),
        edges1.take(e1) == edges2.take(e2),
{
    assert forall|i: int| 0 <= i < n implies #[trigger] child_edges(nodes1, edges1, i) == child_edges(
        nodes2,
        edges2,
        i,
    ) by {
        let c1 = child_edges(nodes1, edges1, i);
        let c2 = child_edges(nodes2, edges2, i);
        assert forall|x: Edge| c1.contains(x) <==> c2.contains(x) by {
            if c1.contains(x) {
                lemma_child_edges_included(nodes1, edges1, e1, nodes2, edges2, e2, n, labels, seqs, i, x);
            }
            if c2.contains(x) {
                lemma_child_edges_included(nodes2, edges2, e2, nodes1, edges1, e1, n, labels, seqs, i, x);
            }
        }
        assert forall|a: int, b: int|
            #![trigger c1[a], c1[b]]
            0 <= a < b < c1.len() implies edge_before(c1[a], c1[b]) by {
            let s = nodes1[i].child_start as int;
            assert(edge_before(edges1[s + a], edges1[s + b]));
        }
        assert forall|a: int, b: int|
            #![trigger c2[a], c2[b]]
            0 <= a < b < c2.len() implies edge_before(c2[a], c2[b]) by {
            let s = nodes2[i].child_start as int;
            assert(edge_before(edges2[s + a], edges2[s + b]));
        }
        lemma_sorted_edges_unique(c1, c2);
    }
    assert forall|j: int| 0 <= j < n implies nodes1[j].child_len == nodes2[j].child_len by {
        assert(child_edges(nodes1, edges1, j).len() == child_edges(nodes2, edges2, j).len());
    }
    assert forall|i: int| 0 <= i < n implies #[trigger] nodes1[i] == nodes2[i] by {
        lemma_same_start(nodes1, edges1, nodes2, edges2, n, i);
    }
    assert(nodes1.take(n) =~= nodes2.take(n));
    assert(nodes1[n - 1] == nodes2[n - 1]);
    assert forall|k: int| 0 <= k < e1 implies #[trigger] edges1[k] == edges2[k] by {
        lemma_edge_covered(nodes1, n, e1, k, 0);
        let i = choose|i: int| 0 <= i < n && in_children(nodes1[i], k);
        assert(nodes1[i] == nodes2[i]);
        let s = nodes1[i].child_start as int;
        assert(child_edges(nodes1, edges1, i)[k - s] == edges1[k]);
        assert(child_edges(nodes2, edges2, i)[k - s] == edges2[k]);
    }
    assert(edges1.take(e1) =~= edges2.take(e2));
}

/// Equal child counts give equal child ranges, node by node.
proof fn lemma_same_start(
    nodes1: Seq<Node>,
    edges1: Seq<Edge>,
    nodes2: Seq<Node>,
    edges2: Seq<Edge>,
    n: int,
    i: int,
)
    requires
        0 <= i < n <= nodes1.len(),
        n <= nodes2.len(),
        nodes1[0].child_start == 0,
        nodes2[0].child_start == 0,
        forall|j: int|
            0 <= j < n - 1 ==> (#[trigger] nodes1[j + 1]).child_start == nodes1[j].child_start
                + nodes1[j].child_len,
        forall|j: int|
            0 <= j < n - 1 ==> (#[trigger] nodes2[j + 1]).child_start == nodes2[j].child_start
                + nodes2[j].child_len,
        forall|j: int| 0 <= j < n ==> nodes1[j].child_len == nodes2[j].child_len,
    ensures
        nodes1[i].child_start == nodes2[i].child_start,
    decreases i,
{
    if i > 0 {
        lemma_same_start(nodes1, edges1, nodes2, edges2, n, i - 1);
        let j = i - 1;
        assert(nodes1[j + 1] == nodes1[i]);
        assert(nodes2[j + 1] == nodes2[i]);
        assert(nodes1[i].child_start == nodes1[i - 1].child_start + nodes1[i - 1].child_len);
        assert(nodes2[i].child_start == nodes2[i - 1].child_start + nodes2[i - 1].child_len);
    }
}

/// The first edge in `start..end` whose byte is `b`.
pub open spec fn first_match(edges: Seq<Edge>, start: int, end: int, b: u8) -> Option<int>
    decreases end - start,
{
    if start >= end {
        None
    } else if edges[start].byte == b {
        Some(start)
    } else {
        first_match(edges, start + 1, end, b)
    }
}

/// The node that a lookup of `c` reaches from the root, taking for each byte
/// the first child edge with that byte; `None` when the tables have no nodes,
/// when a node on the way is not below `n`, or when it has no such edge.
pub open spec fn walk(nodes: Seq<Node>, edges: Seq<Edge>, n: int, c: Seq<u8>) -> Option<int>
    decreases c.len(),
{
    if c.len() == 0 {
        if n > 0 {
            Some(0)
        } else {
            None
        }
    } else {
        match walk(nodes, edges, n, c.drop_last()) {
            Some(i) => if 0 <= i < n {
                match first_match(
                    edges,
                    nodes[i].child_start as int,
                    nodes[i].child_start + nodes[i].child_len,
                    c.last(),
                ) {
                    Some(k) => Some(edges[k].target as int),
                    None => None,
                }
            } else {
                None
            },
            None => None,
        }
    }
}

/// A lookup of `c` ends on a terminal node below `n`.
pub open spec fn walk_accepts(nodes: Seq<Node>, edges: Seq<Edge>, n: int, c: Seq<u8>) -> bool {
    match walk(nodes, edges, n, c) {
        Some(i) => 0 <= i < n && nodes[i].terminal,
        None => false,
    }
}

/// `first_match` finds the first edge with the byte, or reports that none has it.
pub proof fn lemma_first_match(edges: Seq<Edge>, start: int, end: int, b: u8)
    ensures
        match first_match(edges, start, end, b) {
            Some(k) => start <= k < end && edges[k].byte == b && forall|j: int|
                start <= j < k ==> (#[trigger] edges[j]).byte != b,
            None => forall|j: int| start <= j < end ==> (#[trigger] edges[j]).byte != b,
        },
    decreases end - start,
{
    if start < end && edges[start].byte != b {
        lemma_first_match(edges, start + 1, end, b);
    }
}

/// Once a lookup has no node below `n`, it accepts nothing longer.
pub proof fn lemma_walk_stuck(nodes: Seq<Node>, edges: Seq<Edge>, n: int, c: Seq<u8>, k: int)
    requires
        0 <= k <= c.len(),
        match walk(nodes, edges, n, c.take(k)) {
            Some(i) => !(0 <= i < n),
            None => true,
        },
    ensures
        !walk_accepts(nodes, edges, n, c),
    decreases c.len() - k,
{
    if k == c.len() {
        assert(c.take(k) =~= c);
    } else {
        assert(c.take(k + 1).drop_last() =~= c.take(k));
        assert(walk(nodes, edges, n, c.take(k + 1)) is None);
        lemma_walk_stuck(nodes, edges, n, c, k + 1);
    }
}

/// In the trie of `seqs`, a lookup of a prefix reaches that prefix's node, and a
/// lookup of anything else reaches no node.
proof fn lemma_walk_labels(
    nodes: Seq<Node>,
    edges: Seq<Edge>,
    n: int,
    e: int,
    seqs: Seq<Seq<u8>>,
    c: Seq<u8>,
)
    requires
        trie_of(nodes, edges, n, e, seqs),
    ensures
        forall|i: int|
            0 <= i < n && first_occurrences(prefix_list(seqs))[i] == c ==> walk(nodes, edges, n, c)
                == Some(i),
        !first_occurrences(prefix_list(seqs)).contains(c) ==> walk(nodes, edges, n, c) is None,
    decreases c.len(),
{
    let labels = first_occurrences(prefix_list(seqs));
    if c.len() == 0 {
        assert(labels[0] =~= c);
        assert(labels.contains(c));
        assert forall|i: int| 0 <= i < n && labels[i] == c implies walk(nodes, edges, n, c) == Some(i) by {
            assert(labels[i] == labels[0]);
        }
    } else {
        let init = c.drop_last();
        let b = c.last();
        assert(init.push(b) =~= c);
        lemma_walk_labels(nodes, edges, n, e, seqs, init);
        if labels.contains(c) {
            assert(labels.to_set().contains(c));
            lemma_prefix_set_contains(seqs, c);
            lemma_occurs_drop_last(init, b, seqs);
            lemma_prefix_set_contains(seqs, init);
            assert(labels.to_set().contains(init));
        }
        if labels.contains(init) {
            let p = choose|p: int| 0 <= p < labels.len() && labels[p] == init;
            assert(walk(nodes, edges, n, init) == Some(p));
            let start = nodes[p].child_start as int;
            let end = nodes[p].child_start + nodes[p].child_len;
            lemma_first_match(edges, start, end, b);
            match first_match(edges, start, end, b) {
                Some(k) => {
                    assert(in_children(nodes[p], k));
                    assert(labels[edges[k].target as int] == c);
                    assert(labels.contains(c));
                    assert forall|i: int| 0 <= i < n && labels[i] == c implies walk(nodes, edges, n, c)
                        == Some(i) by {
                        assert(labels[i] == labels[edges[k].target as int]);
                    }
                },
                None => {
                    if labels.contains(c) {
                        assert(labels.to_set().contains(labels[p].push(b)));
                        let k = choose|k: int| in_children(nodes[p], k) && (#[trigger] edges[k]).byte == b;
                        assert(edges[k].byte != b);
                    }
                },
            }
        }
    }
}

/// A lookup in the trie of `seqs` accepts exactly the sequences of `seqs`.
pub proof fn lemma_walk_membership(
    nodes: Seq<Node>,
    edges: Seq<Edge>,
    n: int,
    e: int,
    seqs: Seq<Seq<u8>>,
    c: Seq<u8>,
)
    requires
        trie_of(nodes, edges, n, e, seqs),
    ensures
        walk_accepts(nodes, edges, n, c) <==> seqs.contains(c),
{
    let labels = first_occurrences(prefix_list(seqs));
    lemma_walk_labels(nodes, edges, n, e, seqs, c);
    if seqs.contains(c) {
        let j = choose|j: int| 0 <= j < seqs.len() && seqs[j] == c;
        assert(c.take(c.len() as int) =~= c);
        assert(is_prefix(c, seqs[j]));
        lemma_prefix_set_contains(seqs, c);
        assert(labels.to_set().contains(c));
    }
    if labels.contains(c) {
        let i = choose|i: int| 0 <= i < labels.len() && labels[i] == c;
        assert(walk(nodes, edges, n, c) == Some(i));
        assert(nodes[i].terminal == seqs.contains(labels[i]));
    }
}

} // verus!
