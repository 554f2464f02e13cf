//! `ByteSet`: membership in a fixed set of byte sequences, by a walk down a
//! weight-ordered trie.
use crate::internal::{
    first_match, in_children, lemma_walk_membership, lemma_walk_stuck, trie_of,
    trie_shape, walk, walk_accepts, Edge, Node, Trie,
};
use crate::model::{first_occurrences, prefix_count, prefix_list, prefix_set};
use vstd::prelude::*;

verus! {

/// Membership checks for a small, static set of byte sequences.
///
/// The set reads a trie laid out by `build_trie`.  A lookup walks it without
/// allocation and stops at the first byte that has no edge.
#[derive(Clone, Copy, Debug)]
pub struct ByteSet {
    nodes: &'static [Node],
    edges: &'static [Edge],
    node_count: usize,
    edge_count: usize,
    len: usize,
}

/// The used parts of a layout that forms the trie of `seqs` form it too.
proof fn lemma_used_shape(
    nodes: Seq<Node>,
    edges: Seq<Edge>,
    n: int,
    e: int,
    labels: Seq<Seq<u8>>,
    seqs: Seq<Seq<u8>>,
)
    requires
        trie_shape(nodes, edges, n, e, labels, seqs),
    ensures
        trie_shape(nodes.take(n), edges.take(e), n, e, labels, seqs),
{
    let used_nodes = nodes.take(n);
    let used_edges = edges.take(e);
    assert forall|i: int| 0 <= i < n implies #[trigger] used_nodes[i] == nodes[i] by {}
    assert forall|k: int| 0 <= k < e implies #[trigger] used_edges[k] == edges[k] by {}
    assert forall|i: int, k: int|
        #![trigger used_nodes[i], used_edges[k]]
        0 <= i < n && in_children(used_nodes[i], k) implies {
        &&& 0 < used_edges[k].target < n
        &&& labels[used_edges[k].target as int] == labels[i].push(used_edges[k].byte)
        &&& used_edges[k].weight == prefix_count(seqs, labels[used_edges[k].target as int])
    } by {
        assert(nodes[i] == used_nodes[i]);
        assert(edges[k] == used_edges[k]);
    }
    assert forall|i: int, b: u8|
        0 <= i < n && #[trigger] prefix_set(seqs).contains(labels[i].push(b)) implies exists|k: int|
        in_children(used_nodes[i], k) && (#[trigger] used_edges[k]).byte == b by {
        assert(nodes[i] == used_nodes[i]);
        let k = choose|k: int| in_children(nodes[i], k) && (#[trigger] edges[k]).byte == b;
        assert(used_edges[k] == edges[k]);
    }
    assert forall|i: int, k1: int, k2: int|
        #![trigger used_nodes[i], used_edges[k1], used_edges[k2]]
        0 <= i < n && in_children(used_nodes[i], k1) && in_children(used_nodes[i], k2) && k1 < k2 implies crate::internal::edge_before(
        used_edges[k1],
        used_edges[k2],
    ) by {
        assert(nodes[i] == used_nodes[i]);
        assert(edges[k1] == used_edges[k1]);
        assert(edges[k2] == used_edges[k2]);
    }
}

impl ByteSet {
    /// The node array the set reads.
    pub closed spec fn nodes_view(self) -> Seq<Node> {
        self.nodes@
    }

    /// The edge array the set reads.
    pub closed spec fn edges_view(self) -> Seq<Edge> {
        self.edges@
    }

    /// How many nodes of the node array are in use.
    pub closed spec fn node_total(self) -> int {
        self.node_count as int
    }

    /// How many edges of the edge array are in use.
    pub closed spec fn edge_total(self) -> int {
        self.edge_count as int
    }

    /// The stored number of sequences.
    pub closed spec fn stored_len(self) -> int {
        self.len as int
    }

    /// The used part of the node array.
    pub open spec fn trie_nodes(self) -> Seq<Node> {
        self.nodes_view().take(self.node_total())
    }

    /// The used part of the edge array.
    pub open spec fn trie_edges(self) -> Seq<Edge> {
        self.edges_view().take(self.edge_total())
    }

    /// A lookup can read every used node and every child range of a used node.
    pub open spec fn bounded(self) -> bool {
        &&& self.node_total() <= self.nodes_view().len()
        &&& forall|i: int|
            0 <= i < self.node_total() ==> (#[trigger] self.nodes_view()[i]).child_start
                + self.nodes_view()[i].child_len <= self.edges_view().len()
    }

    /// The set reads the trie of `seqs`, and stores the number of distinct
    /// sequences among them.
    pub open spec fn is_set_of(self, seqs: Seq<Seq<u8>>) -> bool {
        &&& trie_of(self.nodes_view(), self.edges_view(), self.node_total(), self.edge_total(), seqs)
        &&& self.stored_len() == seqs.to_set().len()
        &&& self.bounded()
    }

    /// Wraps a trie: the set reads its arrays and stores its counts; when the
    /// trie is the trie of some sequences, so is the set.
    pub fn from_trie<const NODES: usize, const EDGES: usize>(trie: &'static Trie<NODES, EDGES>) -> (set:
        Self)
        ensures
            set.nodes_view() == trie.nodes@,
            set.edges_view() == trie.edges@,
            set.node_total() == trie.node_count,
            set.edge_total() == trie.edge_count,
            set.stored_len() == trie.sequence_count,
            forall|seqs: Seq<Seq<u8>>| #[trigger] trie.is_trie_of(seqs) ==> set.is_set_of(seqs),
    {
        let set = Self {
            nodes: trie.nodes.as_slice(),
            edges: trie.edges.as_slice(),
            node_count: trie.node_count,
            edge_count: trie.edge_count,
            len: trie.sequence_count,
        };
        proof {
            assert forall|seqs: Seq<Seq<u8>>| #[trigger] trie.is_trie_of(seqs) implies set.is_set_of(
                seqs,
            ) by {
                assert forall|i: int| 0 <= i < set.node_total() implies (#[trigger] set.nodes_view()[i]).child_start
                    + set.nodes_view()[i].child_len <= set.edges_view().len() by {
                    assert(trie.nodes@[i] == set.nodes_view()[i]);
                }
            }
        }
        set
    }

    /// Number of byte sequences in the set: the stored count, which is the
    /// number of distinct sequences for a set built from them.
    #[inline]
    pub fn len(&self) -> (n: usize)
        ensures
            n == self.stored_len(),
            forall|seqs: Seq<Seq<u8>>| #[trigger] self.is_set_of(seqs) ==> n == seqs.to_set().len(),
    {
        self.len
    }

    /// Returns `true` when the candidate sequence exists in the set: the walk
    /// from the root, taking for each byte the first child edge with that byte,
    /// ends on a terminal node.
    #[inline]
    pub fn contains(&self, candidate: &[u8]) -> (found: bool)
        requires
            self.bounded(),
        ensures
            found == walk_accepts(self.nodes_view(), self.edges_view(), self.node_total(), candidate@),
            forall|seqs: Seq<Seq<u8>>| #[trigger]
                self.is_set_of(seqs) ==> (found <==> seqs.contains(candidate@)),
    {
        let ghost c = candidate@;
        let ghost nodes = self.nodes@;
        let ghost edges = self.edges@;
        let ghost n = self.node_count as int;
        proof {
            assert forall|seqs: Seq<Seq<u8>>| #[trigger]
                self.is_set_of(seqs) implies (walk_accepts(nodes, edges, n, c) <==> seqs.contains(c)) by {
                lemma_walk_membership(nodes, edges, n, self.edge_count as int, seqs, c);
            }
        }
        if self.node_count == 0 {
            proof {
                assert(c.take(0) =~= Seq::<u8>::empty());
                lemma_walk_stuck(nodes, edges, n, c, 0);
            }
            return false;
        }
        let mut node_idx = 0usize;
        let mut pos = 0usize;
        assert(c.take(0) =~= Seq::<u8>::empty());
        while pos < candidate.len()
            invariant
                c == candidate@,
                nodes == self.nodes@,
                edges == self.edges@,
                n == self.node_count,
                self.bounded(),
                forall|seqs: Seq<Seq<u8>>| #[trigger]
                    self.is_set_of(seqs) ==> (walk_accepts(nodes, edges, n, c) <==> seqs.contains(c)),
                pos <= candidate.len(),
                walk(nodes, edges, n, c.take(pos as int)) == Some(node_idx as int),
            decreases candidate.len() - pos,
        {
            if node_idx >= self.node_count {
                proof {
                    lemma_walk_stuck(nodes, edges, n, c, pos as int);
                }
                return false;
            }
            let node = self.nodes[node_idx];
            proof {
                assert(node == self.nodes_view()[node_idx as int]);
                assert(self.edges@.len() == self.edges.len());
            }
            let ghost cur_node = node_idx as int;
            let ghost start = node.child_start as int;
            let ghost b = c[pos as int];
            let mut found = false;
            let mut edge_i = node.child_start;
            let end = edge_i + node.child_len;
            while edge_i < end
                invariant_except_break
                    !found,
                    c == candidate@,
                    edges == self.edges@,
                    pos < candidate.len(),
                    b == c[pos as int],
                    node_idx == cur_node,
                    start <= edge_i <= end,
                    end <= edges.len(),
                    first_match(edges, start, end as int, b) == first_match(edges, edge_i as int, end as int, b),
                ensures
                    found ==> first_match(edges, start, end as int, b) == Some(edge_i as int)
                        && node_idx == edges[edge_i as int].target,
                    !found ==> node_idx == cur_node && first_match(edges, start, end as int, b)
                        is None,
                decreases end - edge_i,
            {
                let edge = self.edges[edge_i];
                if edge.byte == candidate[pos] {
                    node_idx = edge.target;
                    found = true;
                    break;
                }
                edge_i += 1;
            }
            proof {
                assert(c.take(pos + 1).drop_last() =~= c.take(pos as int));
                assert(c.take(pos + 1).last() == b);
            }
            if !found {
                proof {
                    lemma_walk_stuck(nodes, edges, n, c, pos + 1);
                }
                return false;
            }
            pos += 1;
        }
        assert(c.take(c.len() as int) =~= c);
        node_idx < self.node_count && self.nodes[node_idx].terminal
    }

    /// Returns `true` when the set is empty: the stored count is zero, which
    /// for a set built from sequences means there are none.
    #[inline]
    pub fn is_empty(&self) -> (empty: bool)
        ensures
            empty == (self.stored_len() == 0),
            forall|seqs: Seq<Seq<u8>>| #[trigger]
                self.is_set_of(seqs) ==> (empty <==> seqs.len() == 0),
    {
        proof {
            assert forall|seqs: Seq<Seq<u8>>| #[trigger]
                self.is_set_of(seqs) implies ((self.stored_len() == 0) <==> seqs.len() == 0) by {
                seqs.lemma_cardinality_of_empty_set_is_0();
            }
        }
        self.len == 0
    }

    /// The used nodes of the trie, root first; for a set built from sequences,
    /// with `debug_edges` they form the trie of those sequences.
    pub fn debug_nodes(&self) -> (nodes: &[Node])
        requires
            self.node_total() <= self.nodes_view().len(),
        ensures
            nodes@ == self.trie_nodes(),
            forall|seqs: Seq<Seq<u8>>| #[trigger]
                self.is_set_of(seqs) ==> trie_shape(
                    nodes@,
                    self.trie_edges(),
                    nodes@.len() as int,
                    self.trie_edges().len() as int,
                    first_occurrences(prefix_list(seqs)),
                    seqs,
                ),
    {
        proof {
            assert forall|seqs: Seq<Seq<u8>>| #[trigger] self.is_set_of(seqs) implies trie_shape(
                self.trie_nodes(),
                self.trie_edges(),
                self.trie_nodes().len() as int,
                self.trie_edges().len() as int,
                first_occurrences(prefix_list(seqs)),
                seqs,
            ) by {
                lemma_used_shape(
                    self.nodes_view(),
                    self.edges_view(),
                    self.node_total(),
                    self.edge_total(),
                    first_occurrences(prefix_list(seqs)),
                    seqs,
                );
            }
        }
        vstd::slice::slice_subrange(self.nodes, 0, self.node_count)
    }

    /// The used edges of the trie, grouped by parent node; for a set built from
    /// sequences, with `debug_nodes` they form the trie of those sequences.
    pub fn debug_edges(&self) -> (edges: &[Edge])
        requires
            self.edge_total() <= self.edges_view().len(),
        ensures
            edges@ == self.trie_edges(),
            forall|seqs: Seq<Seq<u8>>| #[trigger]
                self.is_set_of(seqs) ==> trie_shape(
                    self.trie_nodes(),
                    edges@,
                    self.trie_nodes().len() as int,
                    edges@.len() as int,
                    first_occurrences(prefix_list(seqs)),
                    seqs,
                ),
    {
        proof {
            assert forall|seqs: Seq<Seq<u8>>| #[trigger] self.is_set_of(seqs) implies trie_shape(
                self.trie_nodes(),
                self.trie_edges(),
                self.trie_nodes().len() as int,
                self.trie_edges().len() as int,
                first_occurrences(prefix_list(seqs)),
                seqs,
            ) by {
                lemma_used_shape(
                    self.nodes_view(),
                    self.edges_view(),
                    self.node_total(),
                    self.edge_total(),
                    first_occurrences(prefix_list(seqs)),
                    seqs,
                );
            }
        }
        vstd::slice::slice_subrange(self.edges, 0, self.edge_count)
    }
}

} // verus!
