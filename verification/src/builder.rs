//! Working state of trie construction: nodes and edges in creation order,
//! each node's children kept as a singly linked list of edge indexes.
use crate::model::{
    first_occurrences, lemma_first_occurrences_contains, lemma_first_occurrences_push,
    lemma_prefix_list_push_empty, lemma_prefix_list_step, prefix_list, is_prefix, lemma_is_prefix_of_take, lemma_is_prefix_take_step, lemma_prefix_count_le,
    lemma_prefix_count_push, lemma_prefix_count_zero, lemma_prefix_set_contains, occurs_as_prefix,
    prefix_count, prefix_set,
};
use vstd::prelude::*;

verus! {

/// Ends a child list.
pub(crate) const NO_EDGE: usize = usize::MAX;

/// Following `next` from `head` visits exactly the edges of `l`, in order, and
/// then reaches `NO_EDGE`.
pub(crate) open spec fn list_ok(head: usize, next: Seq<usize>, l: Seq<usize>) -> bool
    decreases l.len(),
{
    if l.len() == 0 {
        head == NO_EDGE
    } else {
        &&& head == l[0]
        &&& head < next.len()
        &&& list_ok(next[head as int], next, l.drop_first())
    }
}

/// The total length of the lists.
pub(crate) open spec fn sum_lens(lists: Seq<Seq<usize>>) -> int
    decreases lists.len(),
{
    if lists.len() == 0 {
        0
    } else {
        sum_lens(lists.drop_last()) + lists.last().len()
    }
}

/// Sibling order on edge indexes, by their weights `w` and bytes `b`.
pub(crate) open spec fn key_before(w: Seq<usize>, b: Seq<u8>, x: usize, y: usize) -> bool {
    w[x as int] > w[y as int] || (w[x as int] == w[y as int] && b[x as int] < b[y as int])
}

proof fn lemma_list_ok_update(head: usize, next: Seq<usize>, l: Seq<usize>, x: int, v: usize)
    requires
        list_ok(head, next, l),
        !l.contains(x as usize),
        0 <= x < next.len(),
    ensures
        list_ok(head, next.update(x, v), l),
    decreases l.len(),
{
    if l.len() > 0 {
        assert(l[0] != x);
        if l.drop_first().contains(x as usize) {
            let t = choose|t: int| 0 <= t < l.drop_first().len() && l.drop_first()[t] == x as usize;
            assert(l[t + 1] == x as usize);
        }
        lemma_list_ok_update(next[head as int], next, l.drop_first(), x, v);
    }
}

proof fn lemma_sum_lens_update(lists: Seq<Seq<usize>>, i: int, x: Seq<usize>)
    requires
        0 <= i < lists.len(),
    ensures
        sum_lens(lists.update(i, x)) == sum_lens(lists) - lists[i].len() + x.len(),
    decreases lists.len(),
{
    let u = lists.update(i, x);
    if i == lists.len() - 1 {
        assert(u.drop_last() =~= lists.drop_last());
    } else {
        assert(u.drop_last() =~= lists.drop_last().update(i, x));
        lemma_sum_lens_update(lists.drop_last(), i, x);
    }
}

proof fn lemma_sum_lens_ge(lists: Seq<Seq<usize>>, i: int)
    requires
        0 <= i < lists.len(),
    ensures
        lists[i].len() <= sum_lens(lists),
        0 <= sum_lens(lists),
    decreases lists.len(),
{
    lemma_sum_lens_nonneg(lists.drop_last());
    if i < lists.len() - 1 {
        lemma_sum_lens_ge(lists.drop_last(), i);
    }
}

proof fn lemma_sum_lens_nonneg(lists: Seq<Seq<usize>>)
    ensures
        0 <= sum_lens(lists),
    decreases lists.len(),
{
    if lists.len() > 0 {
        lemma_sum_lens_nonneg(lists.drop_last());
    }
}

/// Prefix sums of list lengths grow by one list at a time.
pub(crate) proof fn lemma_sum_lens_take_step(lists: Seq<Seq<usize>>, i: int)
    requires
        0 <= i < lists.len(),
    ensures
        sum_lens(lists.take(i + 1)) == sum_lens(lists.take(i)) + lists[i].len(),
{
    assert(lists.take(i + 1).drop_last() =~= lists.take(i));
}

/// A prefix sum of list lengths is at most the whole sum.
pub(crate) proof fn lemma_sum_lens_take_le(lists: Seq<Seq<usize>>, i: int)
    requires
        0 <= i <= lists.len(),
    ensures
        sum_lens(lists.take(i)) <= sum_lens(lists),
    decreases lists.len() - i,
{
    if i < lists.len() {
        lemma_sum_lens_take_step(lists, i);
        lemma_sum_lens_take_le(lists, i + 1);
    } else {
        assert(lists.take(i) =~= lists);
    }
}

/// Empty lists at the end add nothing to the sum.
pub(crate) proof fn lemma_sum_lens_take_rest_empty(lists: Seq<Seq<usize>>, i: int)
    requires
        0 <= i <= lists.len(),
        forall|k: int| i <= k < lists.len() ==> (#[trigger] lists[k]).len() == 0,
    ensures
        sum_lens(lists.take(i)) == sum_lens(lists),
    decreases lists.len() - i,
{
    if i < lists.len() {
        lemma_sum_lens_take_step(lists, i);
        lemma_sum_lens_take_rest_empty(lists, i + 1);
    } else {
        assert(lists.take(i) =~= lists);
    }
}

/// Distinct labels that are all prefixes of `total` number at most its
/// distinct prefixes.
proof fn lemma_label_count(labels: Seq<Seq<u8>>, total: Seq<Seq<u8>>)
    requires
        labels.no_duplicates(),
        forall|i: int| 0 <= i < labels.len() ==> occurs_as_prefix(#[trigger] labels[i], total),
    ensures
        labels.len() <= prefix_set(total).len(),
{
    broadcast use vstd::seq_lib::seq_to_set_is_finite;

    assert forall|q: Seq<u8>| labels.to_set().contains(q) implies prefix_set(total).contains(q) by {
        let i = choose|i: int| 0 <= i < labels.len() && labels[i] == q;
        lemma_prefix_set_contains(total, q);
    }
    labels.unique_seq_to_set();
    vstd::set_lib::lemma_len_subset(labels.to_set(), prefix_set(total));
}

/// Growing the last processed sequence by one byte adds exactly that prefix.
pub(crate) proof fn lemma_occurs_step(q: Seq<u8>, done: Seq<Seq<u8>>, s: Seq<u8>, p: int)
    requires
        0 <= p < s.len(),
    ensures
        occurs_as_prefix(q, done.push(s.take(p + 1))) <==> (occurs_as_prefix(q, done.push(s.take(p)))
            || q == s.take(p + 1)),
{
    let a = done.push(s.take(p));
    let b = done.push(s.take(p + 1));
    lemma_is_prefix_take_step(q, s, p);
    if occurs_as_prefix(q, b) && q.len() != 0 {
        let j = choose|j: int| 0 <= j < b.len() && #[trigger] is_prefix(q, b[j]);
        if j < done.len() {
            assert(a[j] == b[j]);
        } else {
            if q != s.take(p + 1) {
                assert(is_prefix(q, a[done.len() as int]));
            }
        }
    }
    if occurs_as_prefix(q, a) && q.len() != 0 {
        let j = choose|j: int| 0 <= j < a.len() && #[trigger] is_prefix(q, a[j]);
        if j < done.len() {
            assert(a[j] == b[j]);
        } else {
            assert(is_prefix(q, b[done.len() as int]));
        }
    }
    if q == s.take(p + 1) {
        assert(s.take(p + 1).take(q.len() as int) =~= s.take(p + 1));
        assert(is_prefix(q, b[done.len() as int]));
    }
}

/// A prefix of the sequences processed so far is a prefix of all of them.
proof fn lemma_occurs_within(
    q: Seq<u8>,
    done: Seq<Seq<u8>>,
    s: Seq<u8>,
    p: int,
    total: Seq<Seq<u8>>,
)
    requires
        0 <= p <= s.len(),
        done.len() < total.len(),
        forall|j: int| 0 <= j < done.len() ==> done[j] == total[j],
        s == total[done.len() as int],
        occurs_as_prefix(q, done.push(s.take(p))),
    ensures
        occurs_as_prefix(q, total),
{
    let cur = done.push(s.take(p));
    if q.len() != 0 {
        let j = choose|j: int| 0 <= j < cur.len() && #[trigger] is_prefix(q, cur[j]);
        if j < done.len() {
            assert(total[j] == cur[j]);
        } else {
            lemma_is_prefix_of_take(q, s, p);
            assert(is_prefix(q, total[done.len() as int]));
        }
    }
}

/// Appending the empty sequence adds no prefix.
pub(crate) proof fn lemma_occurs_push_empty(q: Seq<u8>, done: Seq<Seq<u8>>)
    ensures
        occurs_as_prefix(q, done.push(Seq::<u8>::empty())) <==> occurs_as_prefix(q, done),
{
    let b = done.push(Seq::<u8>::empty());
    if occurs_as_prefix(q, b) && q.len() != 0 {
        let j = choose|j: int| 0 <= j < b.len() && #[trigger] is_prefix(q, b[j]);
        assert(j < done.len());
        assert(done[j] == b[j]);
    }
    if occurs_as_prefix(q, done) && q.len() != 0 {
        let j = choose|j: int| 0 <= j < done.len() && #[trigger] is_prefix(q, done[j]);
        assert(done[j] == b[j]);
    }
}

/// The state of a trie under construction.
pub(crate) struct Builder<const MAX_NODES: usize, const MAX_EDGES: usize> {
    pub(crate) node_terminal: [bool; MAX_NODES],
    pub(crate) node_first_child: [usize; MAX_NODES],
    pub(crate) node_child_count: [usize; MAX_NODES],
    pub(crate) edge_byte: [u8; MAX_EDGES],
    pub(crate) edge_target: [usize; MAX_EDGES],
    pub(crate) edge_weight: [usize; MAX_EDGES],
    pub(crate) edge_next: [usize; MAX_EDGES],
    pub(crate) node_count: usize,
    pub(crate) edge_count: usize,
    /// The number of distinct sequences marked so far.
    pub(crate) distinct_count: usize,
    /// The prefix each node stands for.
    pub(crate) labels: Ghost<Seq<Seq<u8>>>,
    /// The child edges of each node, in list order.
    pub(crate) lists: Ghost<Seq<Seq<usize>>>,
    /// The node each edge leaves from.
    pub(crate) parent: Ghost<Seq<int>>,
}

impl<const MAX_NODES: usize, const MAX_EDGES: usize> Builder<MAX_NODES, MAX_EDGES> {
    /// The nodes are the prefixes of `processed`, each edge leads from a node
    /// to the node of its label extended by the edge's byte and weighs the
    /// number of `processed` sequences through it, a node is terminal when its
    /// label is one of `done`, and the child lists partition the edges.
    pub(crate) open spec fn inv(&self, processed: Seq<Seq<u8>>, done: Seq<Seq<u8>>) -> bool {
        let n = self.node_count as int;
        let ec = self.edge_count as int;
        let labels = self.labels@;
        let lists = self.lists@;
        let parent = self.parent@;
        &&& 1 <= n <= MAX_NODES
        &&& ec == n - 1
        &&& ec <= MAX_EDGES
        &&& labels.len() == n
        &&& labels[0] == Seq::<u8>::empty()
        &&& labels.no_duplicates()
        &&& labels == first_occurrences(prefix_list(processed))
        &&& forall|q: Seq<u8>|
            #![trigger labels.contains(q)]
            #![trigger occurs_as_prefix(q, processed)]
            labels.contains(q) <==> occurs_as_prefix(q, processed)
        &&& forall|i: int| 0 <= i < n ==> self.node_terminal[i] == done.contains(#[trigger] labels[i])
        &&& lists.len() == MAX_NODES
        &&& forall|i: int|
            #![trigger self.node_terminal[i]]
            #![trigger self.node_first_child[i]]
            n <= i < MAX_NODES ==> {
                &&& !self.node_terminal[i]
                &&& self.node_first_child[i] == NO_EDGE
                &&& lists[i].len() == 0
            }
        &&& forall|i: int|
            #![trigger self.node_first_child[i]]
            #![trigger self.node_child_count[i]]
            0 <= i < MAX_NODES ==> {
                &&& list_ok(self.node_first_child[i], self.edge_next@, lists[i])
                &&& self.node_child_count[i] == lists[i].len()
                &&& lists[i].no_duplicates()
            }
        &&& forall|i: int, t: int|
            #![trigger lists[i][t]]
            0 <= i < MAX_NODES && 0 <= t < lists[i].len() ==> lists[i][t] < ec && parent[lists[i][t] as int] == i
        &&& parent.len() == ec
        &&& forall|e: int|
            #![trigger parent[e]]
            0 <= e < ec ==> {
                &&& 0 <= parent[e] < n
                &&& lists[parent[e]].contains(e as usize)
                &&& self.edge_target[e] == e + 1
                &&& labels[e + 1] == labels[parent[e]].push(self.edge_byte[e])
                &&& self.edge_weight[e] == prefix_count(processed, labels[e + 1])
            }
        &&& sum_lens(lists) == ec
        &&& self.distinct_count == done.to_set().len()
    }

    /// Only the root, no sequences.
    pub(crate) fn new() -> (b: Self)
        requires
            1 <= MAX_NODES,
        ensures
            b.inv(Seq::empty(), Seq::empty()),
    {
        let mut node_terminal = [false; MAX_NODES];
        let mut node_first_child = [NO_EDGE; MAX_NODES];
        let mut node_child_count = [0usize; MAX_NODES];
        node_terminal[0] = false;
        node_first_child[0] = NO_EDGE;
        node_child_count[0] = 0;
        let ghost root_only = seq![Seq::<u8>::empty()];
        let ghost no_lists = Seq::new(MAX_NODES as nat, |i: int| Seq::<usize>::empty());
        let b = Builder {
            node_terminal,
            node_first_child,
            node_child_count,
            edge_byte: [0u8; MAX_EDGES],
            edge_target: [0usize; MAX_EDGES],
            edge_weight: [0usize; MAX_EDGES],
            edge_next: [NO_EDGE; MAX_EDGES],
            node_count: 1,
            edge_count: 0,
            distinct_count: 0,
            labels: Ghost(root_only),
            lists: Ghost(no_lists),
            parent: Ghost(Seq::empty()),
        };
        proof {
            let lists = b.lists@;
            let none = Seq::<Seq<u8>>::empty();
            assert(none.to_set() =~= Set::<Seq<u8>>::empty());
            assert(prefix_list(none) == seq![Seq::<u8>::empty()]);
            lemma_first_occurrences_push(Seq::<Seq<u8>>::empty(), Seq::<u8>::empty());
            assert(seq![Seq::<u8>::empty()] =~= Seq::<Seq<u8>>::empty().push(Seq::<u8>::empty()));
            assert(first_occurrences(Seq::<Seq<u8>>::empty()) =~= Seq::<Seq<u8>>::empty());
            assert(b.labels@ =~= first_occurrences(prefix_list(none)));
            assert forall|q: Seq<u8>| b.labels@.contains(q) <==> occurs_as_prefix(q, Seq::empty()) by {
                if q.len() == 0 {
                    assert(q =~= Seq::<u8>::empty());
                    assert(b.labels@[0] == q);
                }
            }
            assert(sum_lens(lists) == 0) by {
                lemma_sum_lens_take_rest_empty(lists, 0);
                assert(lists.take(0) =~= Seq::<Seq<usize>>::empty());
            }
        }
        b
    }

    /// The child edge of `node` that matches `byte`, or `NO_EDGE` when there is none.
    pub(crate) fn find_child(
        &self,
        node: usize,
        byte: u8,
        Ghost(processed): Ghost<Seq<Seq<u8>>>,
        Ghost(done): Ghost<Seq<Seq<u8>>>,
    ) -> (found: usize)
        requires
            self.inv(processed, done),
            node < self.node_count,
        ensures
            found == NO_EDGE ==> forall|t: int|
                0 <= t < self.lists@[node as int].len() ==> self.edge_byte[#[trigger] self.lists@[node as int][t] as int] != byte,
            found != NO_EDGE ==> {
                &&& self.lists@[node as int].contains(found)
                &&& found < self.edge_count
                &&& self.edge_byte[found as int] == byte
            },
    {
        let ghost l = self.lists@[node as int];
        let mut edge_idx = self.node_first_child[node];
        let ghost mut pos: int = 0;
        assert(l.skip(0) =~= l);
        while edge_idx != NO_EDGE
            invariant
                0 <= pos <= l.len(),
                l == self.lists@[node as int],
                list_ok(edge_idx, self.edge_next@, l.skip(pos)),
                forall|t: int| 0 <= t < pos ==> self.edge_byte[#[trigger] l[t] as int] != byte,
                forall|t: int| 0 <= t < l.len() ==> #[trigger] l[t] < self.edge_count,
                self.edge_count <= MAX_EDGES,
            decreases l.len() - pos,
        {
            assert(l.skip(pos).len() > 0);
            assert(l[pos] == edge_idx);
            if self.edge_byte[edge_idx] == byte {
                assert(l.contains(edge_idx));
                return edge_idx;
            }
            edge_idx = self.edge_next[edge_idx];
            proof {
                assert(l.skip(pos).drop_first() =~= l.skip(pos + 1));
                pos = pos + 1;
            }
        }
        proof {
            if pos < l.len() {
                assert(l.skip(pos)[0] == l[pos]);
            }
        }
        NO_EDGE
    }

    /// No label is its parent's label extended by a byte that no child edge has.
    pub(crate) proof fn lemma_absent_child(
        &self,
        processed: Seq<Seq<u8>>,
        done: Seq<Seq<u8>>,
        node: int,
        byte: u8,
    )
        requires
            self.inv(processed, done),
            0 <= node < self.node_count,
            forall|t: int|
                0 <= t < self.lists@[node].len() ==> self.edge_byte[#[trigger] self.lists@[node][t] as int] != byte,
        ensures
            !self.labels@.contains(self.labels@[node].push(byte)),
    {
        let labels = self.labels@;
        let l = labels[node].push(byte);
        if labels.contains(l) {
            let i = choose|i: int| 0 <= i < labels.len() && labels[i] == l;
            assert(i != 0) by {
                assert(l.len() == labels[node].len() + 1);
            }
            let e = i - 1;
            let par = self.parent@[e];
            assert(labels[i] == labels[par].push(self.edge_byte[e]));
            assert(labels[par] =~= l.drop_last());
            assert(labels[node] =~= l.drop_last());
            assert(par == node);
            assert(labels[par].push(self.edge_byte[e]).last() == self.edge_byte[e]);
            assert(l.last() == byte);
            assert(self.edge_byte[e] == byte);
            let t = choose|t: int| 0 <= t < self.lists@[node].len() && self.lists@[node][t] == e as usize;
            assert(self.edge_byte[self.lists@[node][t] as int] != byte);
        }
    }

    /// The child edge `e` carries one more sequence.
    pub(crate) fn follow_child(
        &mut self,
        e: usize,
        Ghost(processed): Ghost<Seq<Seq<u8>>>,
        Ghost(next_processed): Ghost<Seq<Seq<u8>>>,
        Ghost(done): Ghost<Seq<Seq<u8>>>,
    ) -> (child: usize)
        requires
            old(self).inv(processed, done),
            e < old(self).edge_count,
            forall|q: Seq<u8>|
                #[trigger] occurs_as_prefix(q, next_processed) <==> (occurs_as_prefix(q, processed)
                    || q == old(self).labels@[e + 1]),
            forall|q: Seq<u8>|
                #[trigger] prefix_count(next_processed, q) == prefix_count(processed, q) + if q
                    == old(self).labels@[e + 1] {
                    1nat
                } else {
                    0nat
                },
            prefix_count(processed, old(self).labels@[e + 1]) < usize::MAX,
            prefix_list(next_processed) == prefix_list(processed).push(old(self).labels@[e + 1]),
        ensures
            final(self).inv(next_processed, done),
            child == e + 1,
            final(self).labels@ == old(self).labels@,
            final(self).node_count == old(self).node_count,
    {
        let ghost pre = *self;
        assert(0 <= pre.parent@[e as int]);
        assert(pre.edge_weight[e as int] == prefix_count(processed, pre.labels@[e + 1]));
        self.edge_weight[e] = self.edge_weight[e] + 1;
        proof {
            let labels = self.labels@;
            lemma_first_occurrences_push(prefix_list(processed), labels[e + 1]);
            lemma_first_occurrences_contains(prefix_list(processed), labels[e + 1]);
            assert(labels.contains(labels[e + 1]));
            assert forall|q: Seq<u8>| labels.contains(q) <==> occurs_as_prefix(q, next_processed) by {
                if q == labels[e + 1] {
                    assert(labels.contains(q));
                }
            }
            assert forall|f: int| 0 <= f < self.edge_count implies self.edge_weight[f]
                == prefix_count(next_processed, labels[f + 1]) by {
                assert(0 <= pre.parent@[f]);
                assert(pre.edge_weight[f] == prefix_count(processed, pre.labels@[f + 1]));
                if f != e {
                    assert(labels[f + 1] != labels[e + 1]);
                }
            }
            assert forall|i: int| 0 <= i < MAX_NODES implies list_ok(
                #[trigger] self.node_first_child[i],
                self.edge_next@,
                self.lists@[i],
            ) by {
                assert(pre.node_first_child[i] == self.node_first_child[i]);
            }
        }
        self.edge_target[e]
    }

    /// A new child of `node` for `byte`, leading to a new node.
    pub(crate) fn add_child(
        &mut self,
        node: usize,
        byte: u8,
        Ghost(processed): Ghost<Seq<Seq<u8>>>,
        Ghost(next_processed): Ghost<Seq<Seq<u8>>>,
        Ghost(done): Ghost<Seq<Seq<u8>>>,
    ) -> (child: usize)
        requires
            old(self).inv(processed, done),
            node < old(self).node_count,
            old(self).node_count < MAX_NODES,
            old(self).node_count <= MAX_EDGES,
            !old(self).labels@.contains(old(self).labels@[node as int].push(byte)),
            !done.contains(old(self).labels@[node as int].push(byte)),
            forall|q: Seq<u8>|
                #[trigger] occurs_as_prefix(q, next_processed) <==> (occurs_as_prefix(q, processed)
                    || q == old(self).labels@[node as int].push(byte)),
            forall|q: Seq<u8>|
                #[trigger] prefix_count(next_processed, q) == prefix_count(processed, q) + if q
                    == old(self).labels@[node as int].push(byte) {
                    1nat
                } else {
                    0nat
                },
            prefix_count(processed, old(self).labels@[node as int].push(byte)) == 0,
            prefix_list(next_processed) == prefix_list(processed).push(
                old(self).labels@[node as int].push(byte),
            ),
        ensures
            final(self).inv(next_processed, done),
            child == old(self).node_count,
            final(self).node_count == child + 1,
            final(self).labels@ == old(self).labels@.push(old(self).labels@[node as int].push(byte)),
    {
        let ghost pre = *self;
        let ghost l = self.labels@[node as int].push(byte);
        let ghost old_list = self.lists@[node as int];
        let next_node = self.node_count;
        let ec = self.edge_count;
        proof {
            lemma_sum_lens_ge(self.lists@, node as int);
        }
        self.node_count = self.node_count + 1;
        self.edge_byte[ec] = byte;
        self.edge_target[ec] = next_node;
        self.edge_weight[ec] = 1;
        self.edge_next[ec] = self.node_first_child[node];
        self.node_first_child[node] = ec;
        self.node_child_count[node] = self.node_child_count[node] + 1;
        self.node_terminal[next_node] = false;
        self.node_first_child[next_node] = NO_EDGE;
        self.node_child_count[next_node] = 0;
        self.labels = Ghost(self.labels@.push(l));
        self.lists = Ghost(self.lists@.update(node as int, seq![ec].add(old_list)));
        self.parent = Ghost(self.parent@.push(node as int));
        self.edge_count = self.edge_count + 1;
        proof {
            let labels = self.labels@;
            let lists = self.lists@;
            let new_list = seq![ec].add(old_list);
            lemma_first_occurrences_push(prefix_list(processed), l);
            lemma_first_occurrences_contains(prefix_list(processed), l);
            assert(labels.no_duplicates()) by {
                assert forall|a: int, b: int| 0 <= a < b < labels.len() implies labels[a]
                    != labels[b] by {
                    if b == labels.len() - 1 {
                        assert(pre.labels@.contains(pre.labels@[a]));
                    } else {
                        assert(pre.labels@[a] != pre.labels@[b]);
                    }
                }
            }
            assert forall|q: Seq<u8>| labels.contains(q) <==> occurs_as_prefix(q, next_processed) by {
                if labels.contains(q) && q != l {
                    let i = choose|i: int| 0 <= i < labels.len() && labels[i] == q;
                    assert(pre.labels@[i] == q);
                    assert(pre.labels@.contains(q));
                }
                if occurs_as_prefix(q, processed) {
                    assert(pre.labels@.contains(q));
                    let i = choose|i: int| 0 <= i < pre.labels@.len() && pre.labels@[i] == q;
                    assert(labels[i] == q);
                }
                if q == l {
                    assert(labels[labels.len() - 1] == q);
                }
            }
            assert(!old_list.contains(ec)) by {
                if old_list.contains(ec) {
                    let t = choose|t: int| 0 <= t < old_list.len() && old_list[t] == ec;
                    assert(pre.lists@[node as int][t] < pre.edge_count);
                }
            }
            assert(new_list.drop_first() =~= old_list);
            assert forall|i: int| 0 <= i < MAX_NODES implies {
                &&& list_ok(#[trigger] self.node_first_child[i], self.edge_next@, lists[i])
                &&& self.node_child_count[i] == lists[i].len()
                &&& lists[i].no_duplicates()
            } by {
                if i == node {
                    lemma_list_ok_update(
                        pre.node_first_child[i],
                        pre.edge_next@,
                        old_list,
                        ec as int,
                        pre.node_first_child[i],
                    );
                    assert(new_list.no_duplicates()) by {
                        assert forall|a: int, b: int| 0 <= a < b < new_list.len() implies new_list[a]
                            != new_list[b] by {
                            if a == 0 {
                                assert(old_list.contains(new_list[b]));
                            } else {
                                assert(old_list[a - 1] != old_list[b - 1]);
                            }
                        }
                    }
                } else {
                    assert(!pre.lists@[i].contains(ec)) by {
                        if pre.lists@[i].contains(ec) {
                            let t = choose|t: int|
                                0 <= t < pre.lists@[i].len() && pre.lists@[i][t] == ec;
                            assert(pre.lists@[i][t] < pre.edge_count);
                        }
                    }
                    lemma_list_ok_update(
                        pre.node_first_child[i],
                        pre.edge_next@,
                        pre.lists@[i],
                        ec as int,
                        pre.node_first_child[node as int],
                    );
                }
            }
            assert forall|i: int, t: int|
                #![trigger lists[i][t]]
                0 <= i < MAX_NODES && 0 <= t < lists[i].len() implies lists[i][t]
                < self.edge_count && self.parent@[lists[i][t] as int] == i by {
                if i == node && t == 0 {
                } else if i == node {
                    assert(lists[i][t] == pre.lists@[i][t - 1]);
                } else {
                    assert(lists[i][t] == pre.lists@[i][t]);
                }
            }
            assert forall|f: int| #![trigger self.parent@[f]] 0 <= f < self.edge_count implies {
                &&& 0 <= self.parent@[f] < self.node_count
                &&& lists[self.parent@[f]].contains(f as usize)
                &&& self.edge_target[f] == f + 1
                &&& labels[f + 1] == labels[self.parent@[f]].push(self.edge_byte[f])
                &&& self.edge_weight[f] == prefix_count(next_processed, labels[f + 1])
            } by {
                if f == ec {
                    assert(new_list[0] == ec);
                } else {
                    let par = pre.parent@[f];
                    assert(pre.lists@[par].contains(f as usize));
                    if par == node {
                        let t = choose|t: int| 0 <= t < old_list.len() && old_list[t] == f as usize;
                        assert(new_list[t + 1] == f as usize);
                    }
                    assert(labels[f + 1] == pre.labels@[f + 1]);
                    assert(pre.labels@.contains(pre.labels@[f + 1]));
                }
            }
            lemma_sum_lens_update(pre.lists@, node as int, new_list);
            assert forall|i: int| self.node_count <= i < MAX_NODES implies !self.node_terminal[i]
                && self.node_first_child[i] == NO_EDGE && lists[i].len() == 0 by {
                assert(!pre.node_terminal[i]);
            }
            assert forall|i: int| 0 <= i < self.node_count implies self.node_terminal[i]
                == done.contains(#[trigger] labels[i]) by {
                if i < pre.node_count {
                    assert(labels[i] == pre.labels@[i]);
                }
            }
        }
        next_node
    }

    /// Adds the path of `seq`, the sequence that follows `done` in `total`, and
    /// marks its end terminal.
    #[verifier::spinoff_prover]
    #[verifier::rlimit(40)]
    pub(crate) fn insert(
        &mut self,
        seq: &[u8],
        Ghost(done): Ghost<Seq<Seq<u8>>>,
        Ghost(total): Ghost<Seq<Seq<u8>>>,
    )
        requires
            old(self).inv(done, done),
            done.len() < total.len(),
            total.len() <= usize::MAX,
            forall|j: int| 0 <= j < done.len() ==> done[j] == total[j],
            seq@ == total[done.len() as int],
            prefix_set(total).len() <= MAX_NODES,
            prefix_set(total).len() <= MAX_EDGES + 1,
        ensures
            final(self).inv(done.push(seq@), done.push(seq@)),
    {
        let ghost s = seq@;
        proof {
            let start = done.push(s.take(0));
            assert(s.take(0) =~= Seq::<u8>::empty());
            lemma_prefix_list_push_empty(done);
            assert forall|q: Seq<u8>| #[trigger]
                occurs_as_prefix(q, start) <==> occurs_as_prefix(q, done) by {
                lemma_occurs_push_empty(q, done);
            }
            assert forall|e: int| 0 <= e < self.edge_count implies self.edge_weight[e]
                == prefix_count(start, self.labels@[e + 1]) by {
                assert(0 <= self.parent@[e]);
                lemma_prefix_count_push(done, s.take(0), self.labels@[e + 1]);
            }
            assert(self.labels@[0] == s.take(0));
            assert(self.inv(start, done));
        }
        let mut node_idx = 0usize;
        let mut byte_pos = 0usize;
        while byte_pos < seq.len()
            invariant
                byte_pos <= seq.len(),
                s == seq@,
                self.inv(done.push(s.take(byte_pos as int)), done),
                node_idx < self.node_count,
                self.labels@[node_idx as int] == s.take(byte_pos as int),
                done.len() < total.len(),
                total.len() <= usize::MAX,
                forall|j: int| 0 <= j < done.len() ==> done[j] == total[j],
                s == total[done.len() as int],
                prefix_set(total).len() <= MAX_NODES,
                prefix_set(total).len() <= MAX_EDGES + 1,
            decreases seq.len() - byte_pos,
        {
            let byte = seq[byte_pos];
            let ghost p = byte_pos as int;
            let ghost cur = done.push(s.take(p));
            let ghost next = done.push(s.take(p + 1));
            let ghost l = s.take(p + 1);
            proof {
                assert(s.take(p).push(byte) =~= l);
                assert forall|q: Seq<u8>| #[trigger]
                    occurs_as_prefix(q, next) <==> (occurs_as_prefix(q, cur) || q == l) by {
                    lemma_occurs_step(q, done, s, p);
                }
                assert forall|q: Seq<u8>| #[trigger]
                    prefix_count(next, q) == prefix_count(cur, q) + if q == l {
                        1nat
                    } else {
                        0nat
                    } by {
                    lemma_prefix_count_push(done, s.take(p), q);
                    lemma_prefix_count_push(done, l, q);
                    lemma_is_prefix_take_step(q, s, p);
                }
                lemma_prefix_count_push(done, s.take(p), l);
                lemma_prefix_count_le(done, l);
                lemma_prefix_list_step(done, s, p);
            }
            let found_edge = self.find_child(node_idx, byte, Ghost(cur), Ghost(done));
            if found_edge == NO_EDGE {
                proof {
                    self.lemma_absent_child(cur, done, node_idx as int, byte);
                    let labels = self.labels@;
                    if done.contains(l) {
                        let j = choose|j: int| 0 <= j < done.len() && done[j] == l;
                        assert(l.take(l.len() as int) =~= l);
                        assert(is_prefix(l, cur[j]));
                        assert(labels.contains(l));
                    }
                    assert forall|j: int| 0 <= j < done.len() implies !#[trigger] is_prefix(
                        l,
                        done[j],
                    ) by {
                        if is_prefix(l, done[j]) {
                            assert(is_prefix(l, cur[j]));
                            assert(labels.contains(l));
                        }
                    }
                    lemma_prefix_count_zero(done, l);
                    let grown = labels.push(l);
                    assert(grown.no_duplicates()) by {
                        assert forall|a: int, b: int| 0 <= a < b < grown.len() implies grown[a]
                            != grown[b] by {
                            if b == grown.len() - 1 {
                                assert(labels.contains(labels[a]));
                            } else {
                                assert(labels[a] != labels[b]);
                            }
                        }
                    }
                    assert forall|i: int| 0 <= i < grown.len() implies occurs_as_prefix(
                        #[trigger] grown[i],
                        total,
                    ) by {
                        if i < labels.len() {
                            assert(labels.contains(labels[i]));
                            lemma_occurs_within(labels[i], done, s, p, total);
                        } else {
                            assert(l.take(l.len() as int) =~= l);
                            assert(is_prefix(l, next[done.len() as int]));
                            lemma_occurs_within(l, done, s, p + 1, total);
                        }
                    }
                    lemma_label_count(grown, total);
                }
                node_idx = self.add_child(node_idx, byte, Ghost(cur), Ghost(next), Ghost(done));
            } else {
                proof {
                    let t = choose|t: int|
                        0 <= t < self.lists@[node_idx as int].len() && self.lists@[node_idx as int][t]
                            == found_edge;
                    assert(self.parent@[found_edge as int] == node_idx);
                }
                node_idx = self.follow_child(found_edge, Ghost(cur), Ghost(next), Ghost(done));
            }
            byte_pos += 1;
        }
        let ghost pre = *self;
        let first_time = !self.node_terminal[node_idx];
        self.node_terminal[node_idx] = true;
        proof {
            let finished = done.push(s);
            assert(s.take(s.len() as int) =~= s);
            broadcast use vstd::seq_lib::seq_to_set_is_finite;
            assert forall|x: Seq<u8>| finished.to_set().contains(x) <==> done.to_set().insert(s).contains(
                x,
            ) by {
                if finished.contains(x) && x != s {
                    let j = choose|j: int| 0 <= j < finished.len() && finished[j] == x;
                    assert(done[j] == x);
                }
                if done.contains(x) {
                    let j = choose|j: int| 0 <= j < done.len() && done[j] == x;
                    assert(finished[j] == x);
                }
                assert(finished[done.len() as int] == s);
            }
            assert(finished.to_set() =~= done.to_set().insert(s));
            vstd::set::axiom_set_insert_len(done.to_set(), s);
            assert(first_time == !done.to_set().contains(s));
            done.lemma_cardinality_of_set();
        }
        if first_time {
            self.distinct_count = self.distinct_count + 1;
        }
        proof {
            let finished = done.push(s);
            let labels = self.labels@;
            assert forall|i: int| 0 <= i < self.node_count implies self.node_terminal[i]
                == finished.contains(#[trigger] labels[i]) by {
                if finished.contains(labels[i]) && labels[i] != s {
                    let j = choose|j: int| 0 <= j < finished.len() && finished[j] == labels[i];
                    assert(done[j] == labels[i]);
                }
                if done.contains(labels[i]) {
                    let j = choose|j: int| 0 <= j < done.len() && done[j] == labels[i];
                    assert(finished[j] == labels[i]);
                }
                if i != node_idx {
                    assert(labels[i] != labels[node_idx as int]);
                } else {
                    assert(finished[done.len() as int] == s);
                }
            }
            assert forall|i: int| 0 <= i < MAX_NODES implies list_ok(
                #[trigger] self.node_first_child[i],
                self.edge_next@,
                self.lists@[i],
            ) by {
                assert(pre.node_first_child[i] == self.node_first_child[i]);
            }
        }
    }

    /// The child edges of `node` land in `scratch[..count]`, sorted by `key_before`.
    pub(crate) fn sorted_children(
        &self,
        node: usize,
        scratch: &mut [usize; MAX_EDGES],
        Ghost(processed): Ghost<Seq<Seq<u8>>>,
        Ghost(done): Ghost<Seq<Seq<u8>>>,
    ) -> (count: usize)
        requires
            self.inv(processed, done),
            node < self.node_count,
        ensures
            count == self.lists@[node as int].len(),
            count <= MAX_EDGES,
            final(scratch)@.take(count as int).no_duplicates(),
            forall|x: usize|
                final(scratch)@.take(count as int).contains(x) <==> self.lists@[node as int].contains(
                    x,
                ),
            forall|a: int, c: int|
                #![trigger final(scratch)@[a], final(scratch)@[c]]
                0 <= a < c < count ==> key_before(
                    self.edge_weight@,
                    self.edge_byte@,
                    final(scratch)@[a],
                    final(scratch)@[c],
                ),
    {
        let ghost l = self.lists@[node as int];
        let ghost w = self.edge_weight@;
        let ghost b = self.edge_byte@;
        proof {
            lemma_sum_lens_ge(self.lists@, node as int);
            assert(l.skip(0) =~= l);
        }
        let child_total = self.node_child_count[node];
        let mut list_head = self.node_first_child[node];
        let mut idx = 0usize;
        while list_head != NO_EDGE
            invariant
                0 <= idx <= l.len(),
                l.len() <= MAX_EDGES,
                l == self.lists@[node as int],
                list_ok(list_head, self.edge_next@, l.skip(idx as int)),
                forall|t: int| 0 <= t < idx ==> scratch@[t] == l[t],
            decreases l.len() - idx,
        {
            assert(l.skip(idx as int).len() > 0);
            assert(l[idx as int] == list_head);
            scratch[idx] = list_head;
            proof {
                assert(l.skip(idx as int).drop_first() =~= l.skip(idx + 1));
            }
            idx += 1;
            list_head = self.edge_next[list_head];
        }
        proof {
            if idx < l.len() {
                assert(l.skip(idx as int)[0] == l[idx as int]);
            }
            assert(scratch@.take(child_total as int) =~= l);
            assert forall|x: usize, y: usize|
                l.contains(x) && l.contains(y) && x != y implies #[trigger] b[x as int]
                != #[trigger] b[y as int] by {
                self.lemma_sibling_bytes(processed, done, node as int, x, y);
            }
        }
        let mut i = 0usize;
        while i < child_total
            invariant
                i <= child_total,
                child_total == l.len(),
                child_total <= MAX_EDGES,
                scratch@.take(child_total as int).no_duplicates(),
                forall|x: usize| scratch@.take(child_total as int).contains(x) <==> l.contains(x),
                forall|x: usize, y: usize|
                    l.contains(x) && l.contains(y) && x != y ==> #[trigger] b[x as int]
                        != #[trigger] b[y as int],
                forall|x: usize| l.contains(x) ==> x < MAX_EDGES,
                w == self.edge_weight@,
                b == self.edge_byte@,
                forall|a: int, c: int|
                    #![trigger scratch@[a], scratch@[c]]
                    0 <= a < c < i ==> key_before(w, b, scratch@[a], scratch@[c]),
                forall|a: int, c: int|
                    #![trigger scratch@[a], scratch@[c]]
                    0 <= a < i <= c < child_total ==> key_before(w, b, scratch@[a], scratch@[c]),
            decreases child_total - i,
        {
            let ghost s0 = scratch@;
            let mut best = i;
            let mut j = i + 1;
            while j < child_total
                invariant
                    i < child_total,
                    i <= best < j <= child_total,
                    child_total <= MAX_EDGES,
                    scratch@ == s0,
                    s0.take(child_total as int).no_duplicates(),
                    forall|x: usize| s0.take(child_total as int).contains(x) <==> l.contains(x),
                    forall|x: usize, y: usize|
                        l.contains(x) && l.contains(y) && x != y ==> #[trigger] b[x as int]
                            != #[trigger] b[y as int],
                    forall|x: usize| l.contains(x) ==> x < MAX_EDGES,
                    w == self.edge_weight@,
                    b == self.edge_byte@,
                    forall|c: int|
                        i <= c < j && c != best ==> key_before(w, b, s0[best as int], #[trigger] s0[c]),
                decreases child_total - j,
            {
                let left_idx = scratch[j];
                let best_idx = scratch[best];
                proof {
                    assert(s0.take(child_total as int)[j as int] == left_idx);
                    assert(s0.take(child_total as int)[best as int] == best_idx);
                    assert(l.contains(left_idx));
                    assert(l.contains(best_idx));
                }
                let left_weight = self.edge_weight[left_idx];
                let best_weight = self.edge_weight[best_idx];
                if left_weight > best_weight || (left_weight == best_weight
                    && self.edge_byte[left_idx] < self.edge_byte[best_idx]) {
                    best = j;
                } else {
                    proof {
                        assert(left_idx != best_idx);
                    }
                }
                j += 1;
            }
            if best != i {
                let tmp = scratch[i];
                scratch[i] = scratch[best];
                scratch[best] = tmp;
            }
            proof {
                let s1 = scratch@;
                let n = child_total as int;
                assert forall|a: int| 0 <= a < n implies #[trigger] s1[a] == if a == i {
                    s0[best as int]
                } else if a == best {
                    s0[i as int]
                } else {
                    s0[a]
                } by {}
                assert forall|x: usize| s1.take(n).contains(x) <==> s0.take(n).contains(x) by {
                    if s1.take(n).contains(x) {
                        let a = choose|a: int| 0 <= a < n && s1.take(n)[a] == x;
                        let a0 = if a == i {
                            best as int
                        } else if a == best {
                            i as int
                        } else {
                            a
                        };
                        assert(s0.take(n)[a0] == x);
                    }
                    if s0.take(n).contains(x) {
                        let a = choose|a: int| 0 <= a < n && s0.take(n)[a] == x;
                        let a1 = if a == i {
                            best as int
                        } else if a == best {
                            i as int
                        } else {
                            a
                        };
                        assert(s1.take(n)[a1] == x);
                    }
                }
                assert(s1.take(n).no_duplicates()) by {
                    assert forall|a: int, c: int| 0 <= a < c < n implies s1.take(n)[a] != s1.take(
                        n,
                    )[c] by {
                        let a0 = if a == i {
                            best as int
                        } else if a == best {
                            i as int
                        } else {
                            a
                        };
                        let c0 = if c == i {
                            best as int
                        } else if c == best {
                            i as int
                        } else {
                            c
                        };
                        assert(s0.take(n)[a0] != s0.take(n)[c0]);
                    }
                }
                assert forall|a: int, c: int|
                    #![trigger s1[a], s1[c]]
                    0 <= a < c < i + 1 implies key_before(w, b, s1[a], s1[c]) by {
                    if c == i {
                        assert(key_before(w, b, s0[a], s0[best as int]));
                    } else {
                        assert(key_before(w, b, s0[a], s0[c]));
                    }
                }
                assert forall|a: int, c: int|
                    #![trigger s1[a], s1[c]]
                    0 <= a < i + 1 <= c < n implies key_before(w, b, s1[a], s1[c]) by {
                    let c0 = if c == best {
                        i as int
                    } else {
                        c
                    };
                    if a < i {
                        assert(key_before(w, b, s0[a], s0[c0]));
                    } else {
                        assert(c0 != best);
                        assert(key_before(w, b, s0[best as int], s0[c0]));
                    }
                }
            }
            i += 1;
        }
        child_total
    }

    /// Sibling edges carry distinct bytes.
    proof fn lemma_sibling_bytes(
        &self,
        processed: Seq<Seq<u8>>,
        done: Seq<Seq<u8>>,
        node: int,
        x: usize,
        y: usize,
    )
        requires
            self.inv(processed, done),
            0 <= node < self.node_count,
            self.lists@[node].contains(x),
            self.lists@[node].contains(y),
            x != y,
        ensures
            self.edge_byte[x as int] != self.edge_byte[y as int],
    {
        let l = self.lists@[node];
        let tx = choose|t: int| 0 <= t < l.len() && l[t] == x;
        let ty = choose|t: int| 0 <= t < l.len() && l[t] == y;
        assert(self.parent@[x as int] == node);
        assert(self.parent@[y as int] == node);
        assert(self.labels@[x + 1] != self.labels@[y + 1]);
    }

    /// Nodes not yet created have no children.
    pub(crate) proof fn lemma_unused_lists_empty(&self, processed: Seq<Seq<u8>>, done: Seq<Seq<u8>>)
        requires
            self.inv(processed, done),
        ensures
            forall|k: int| self.node_count <= k < MAX_NODES ==> (#[trigger] self.lists@[k]).len() == 0,
    {
        assert forall|k: int| self.node_count <= k < MAX_NODES implies (#[trigger] self.lists@[k]).len()
            == 0 by {
            assert(!self.node_terminal[k]);
        }
    }
}

} // verus!
