//! The mathematical model of a set of byte sequences and of its prefixes.
//!
//! A trie over sequences `seqs` has one node per distinct prefix of the
//! sequences (the empty prefix is the root), and one edge from each nonempty
//! prefix's parent prefix to it.  The functions here describe those prefixes,
//! how many sequences pass through each of them, and how sibling edges are
//! ordered.
use vstd::prelude::*;

verus! {

/// `p` is a prefix of `s`.
pub open spec fn is_prefix(p: Seq<u8>, s: Seq<u8>) -> bool {
    p.len() <= s.len() && s.take(p.len() as int) == p
}

/// `p` is the empty sequence or a prefix of one of `seqs`: exactly the
/// prefixes that become nodes of the trie built from `seqs`.
pub open spec fn occurs_as_prefix(p: Seq<u8>, seqs: Seq<Seq<u8>>) -> bool {
    p.len() == 0 || exists|j: int| 0 <= j < seqs.len() && #[trigger] is_prefix(p, seqs[j])
}

/// The nonempty prefixes of `s`, shortest first.
pub open spec fn nonempty_prefixes(s: Seq<u8>) -> Seq<Seq<u8>> {
    Seq::new(s.len(), |k: int| s.take(k + 1))
}

/// The empty prefix followed by the nonempty prefixes of each sequence in turn
/// (a prefix shared by several sequences appears once per sequence).
pub open spec fn prefix_list(seqs: Seq<Seq<u8>>) -> Seq<Seq<u8>>
    decreases seqs.len(),
{
    if seqs.len() == 0 {
        seq![Seq::<u8>::empty()]
    } else {
        prefix_list(seqs.drop_last()) + nonempty_prefixes(seqs.last())
    }
}

/// The set of distinct prefixes of `seqs`, the empty one included.
pub open spec fn prefix_set(seqs: Seq<Seq<u8>>) -> Set<Seq<u8>> {
    prefix_list(seqs).to_set()
}

/// The number of distinct prefixes of `seqs`: the node count of their trie.
pub open spec fn distinct_prefix_count(seqs: Seq<Seq<u8>>) -> nat {
    prefix_set(seqs).len()
}

/// How many of `seqs` (counted with repetition) have `p` as a prefix: the
/// weight of the trie edge that leads to `p`.
pub open spec fn prefix_count(seqs: Seq<Seq<u8>>, p: Seq<u8>) -> nat
    decreases seqs.len(),
{
    if seqs.len() == 0 {
        0
    } else {
        prefix_count(seqs.drop_last(), p) + if is_prefix(p, seqs.last()) {
            1nat
        } else {
            0nat
        }
    }
}

/// The total number of bytes in `seqs`.
pub open spec fn total_len(seqs: Seq<Seq<u8>>) -> nat
    decreases seqs.len(),
{
    if seqs.len() == 0 {
        0
    } else {
        total_len(seqs.drop_last()) + seqs.last().len()
    }
}

/// Membership in `prefix_set` is `occurs_as_prefix`.
pub proof fn lemma_prefix_set_contains(seqs: Seq<Seq<u8>>, p: Seq<u8>)
    ensures
        prefix_set(seqs).contains(p) <==> occurs_as_prefix(p, seqs),
    decreases seqs.len(),
{
    broadcast use vstd::seq_lib::group_seq_properties;

    if seqs.len() == 0 {
        assert(prefix_list(seqs)[0] == Seq::<u8>::empty());
        if prefix_list(seqs).contains(p) {
            let i = choose|i: int| 0 <= i < prefix_list(seqs).len() && prefix_list(seqs)[i] == p;
            assert(i == 0);
        }
        if p.len() == 0 {
            assert(p =~= Seq::<u8>::empty());
            assert(prefix_list(seqs).contains(p));
        }
    } else {
        let init = seqs.drop_last();
        let last = seqs.last();
        lemma_prefix_set_contains(init, p);
        let l = prefix_list(seqs);
        assert(l == prefix_list(init) + nonempty_prefixes(last));
        if l.contains(p) {
            let i = choose|i: int| 0 <= i < l.len() && l[i] == p;
            if i < prefix_list(init).len() {
                assert(prefix_list(init).contains(p));
                if p.len() != 0 {
                    let j = choose|j: int| 0 <= j < init.len() && #[trigger] is_prefix(p, init[j]);
                    assert(seqs[j] == init[j]);
                }
            } else {
                let k = i - prefix_list(init).len();
                assert(p == last.take(k + 1));
                assert(is_prefix(p, seqs[seqs.len() - 1]));
            }
        }
        if occurs_as_prefix(p, seqs) {
            if p.len() == 0 {
                assert(prefix_list(init).contains(p));
                let i = choose|i: int| 0 <= i < prefix_list(init).len() && prefix_list(init)[i] == p;
                assert(l[i] == p);
            } else {
                let j = choose|j: int| 0 <= j < seqs.len() && #[trigger] is_prefix(p, seqs[j]);
                if j < seqs.len() - 1 {
                    assert(init[j] == seqs[j]);
                    assert(occurs_as_prefix(p, init));
                    let i = choose|i: int| 0 <= i < prefix_list(init).len() && prefix_list(init)[i] == p;
                    assert(l[i] == p);
                } else {
                    let k = p.len() - 1;
                    let i = prefix_list(init).len() + k;
                    assert(l[i] == nonempty_prefixes(last)[k]);
                    assert(l[i] == p);
                }
            }
        }
    }
}

/// `prefix_list` holds one entry per byte, plus the empty prefix.
pub proof fn lemma_prefix_list_len(seqs: Seq<Seq<u8>>)
    ensures
        prefix_list(seqs).len() == total_len(seqs) + 1,
    decreases seqs.len(),
{
    if seqs.len() > 0 {
        lemma_prefix_list_len(seqs.drop_last());
    }
}

/// A trie never has more nodes than its sequences have bytes, plus the root.
pub proof fn lemma_distinct_prefix_count_bound(seqs: Seq<Seq<u8>>)
    ensures
        1 <= distinct_prefix_count(seqs) <= total_len(seqs) + 1,
        prefix_set(seqs).finite(),
{
    broadcast use vstd::seq_lib::seq_to_set_is_finite;

    lemma_prefix_list_len(seqs);
    prefix_list(seqs).lemma_cardinality_of_set();
    lemma_prefix_set_contains(seqs, Seq::<u8>::empty());
    assert(prefix_set(seqs).contains(Seq::<u8>::empty()));
    vstd::set_lib::lemma_len_subset(set![Seq::<u8>::empty()], prefix_set(seqs));
}

/// Counting over one more sequence adds one exactly when it has the prefix.
pub proof fn lemma_prefix_count_push(seqs: Seq<Seq<u8>>, x: Seq<u8>, p: Seq<u8>)
    ensures
        prefix_count(seqs.push(x), p) == prefix_count(seqs, p) + if is_prefix(p, x) {
            1nat
        } else {
            0nat
        },
{
    assert(seqs.push(x).drop_last() =~= seqs);
}

/// A prefix is shared by at most all the sequences.
pub proof fn lemma_prefix_count_le(seqs: Seq<Seq<u8>>, p: Seq<u8>)
    ensures
        prefix_count(seqs, p) <= seqs.len(),
    decreases seqs.len(),
{
    if seqs.len() > 0 {
        lemma_prefix_count_le(seqs.drop_last(), p);
    }
}

/// A prefix of none of the sequences has count zero.
pub proof fn lemma_prefix_count_zero(seqs: Seq<Seq<u8>>, p: Seq<u8>)
    requires
        forall|j: int| 0 <= j < seqs.len() ==> !#[trigger] is_prefix(p, seqs[j]),
    ensures
        prefix_count(seqs, p) == 0,
    decreases seqs.len(),
{
    if seqs.len() > 0 {
        let init = seqs.drop_last();
        assert forall|j: int| 0 <= j < init.len() implies !#[trigger] is_prefix(p, init[j]) by {
            assert(init[j] == seqs[j]);
        }
        lemma_prefix_count_zero(init, p);
        assert(!is_prefix(p, seqs[seqs.len() - 1]));
    }
}

/// A prefix of `s.take(k + 1)` is a prefix of `s.take(k)` or `s.take(k + 1)` itself.
pub proof fn lemma_is_prefix_take_step(q: Seq<u8>, s: Seq<u8>, k: int)
    requires
        0 <= k < s.len(),
    ensures
        is_prefix(q, s.take(k + 1)) <==> (is_prefix(q, s.take(k)) || q == s.take(k + 1)),
{
    if is_prefix(q, s.take(k + 1)) && q.len() <= k {
        assert(s.take(k + 1).take(q.len() as int) =~= s.take(k).take(q.len() as int));
    }
    if is_prefix(q, s.take(k + 1)) && q.len() == k + 1 {
        assert(s.take(k + 1).take(q.len() as int) =~= s.take(k + 1));
    }
    if is_prefix(q, s.take(k)) {
        assert(s.take(k + 1).take(q.len() as int) =~= s.take(k).take(q.len() as int));
    }
    if q == s.take(k + 1) {
        assert(s.take(k + 1).take(q.len() as int) =~= s.take(k + 1));
    }
}

/// A prefix of `s.take(k)` is a prefix of `s`.
pub proof fn lemma_is_prefix_of_take(q: Seq<u8>, s: Seq<u8>, k: int)
    requires
        0 <= k <= s.len(),
        is_prefix(q, s.take(k)),
    ensures
        is_prefix(q, s),
{
    assert(s.take(k).take(q.len() as int) =~= s.take(q.len() as int));
}

/// The byte total grows one sequence at a time.
pub proof fn lemma_total_len_take_step(seqs: Seq<Seq<u8>>, i: int)
    requires
        0 <= i < seqs.len(),
    ensures
        total_len(seqs.take(i + 1)) == total_len(seqs.take(i)) + seqs[i].len(),
{
    assert(seqs.take(i + 1).drop_last() =~= seqs.take(i));
}

/// The byte total of a joined list is the sum of the totals of its parts, and
/// the total of a single sequence is its length.
pub proof fn lemma_total_len_concat(a: Seq<Seq<u8>>, b: Seq<Seq<u8>>, x: Seq<u8>)
    ensures
        total_len(a + b) == total_len(a) + total_len(b),
        total_len(seq![x]) == x.len(),
    decreases b.len(),
{
    assert(seq![x].drop_last() =~= Seq::<Seq<u8>>::empty());
    assert(total_len(Seq::<Seq<u8>>::empty()) == 0);
    assert(seq![x].last() == x);
    if b.len() == 0 {
        assert(a + b =~= a);
    } else {
        lemma_total_len_concat(a, b.drop_last(), x);
        assert((a + b).drop_last() =~= a + b.drop_last());
    }
}

/// The bytes of the first `i` sequences are no more than those of all of them.
pub proof fn lemma_total_len_take_le(seqs: Seq<Seq<u8>>, i: int)
    requires
        0 <= i <= seqs.len(),
    ensures
        total_len(seqs.take(i)) <= total_len(seqs),
    decreases seqs.len() - i,
{
    if i < seqs.len() {
        lemma_total_len_take_step(seqs, i);
        lemma_total_len_take_le(seqs, i + 1);
    } else {
        assert(seqs.take(i) =~= seqs);
    }
}

/// The distinct entries of `s`, each where it first appears.
pub open spec fn first_occurrences(s: Seq<Seq<u8>>) -> Seq<Seq<u8>>
    decreases s.len(),
{
    if s.len() == 0 {
        Seq::empty()
    } else {
        let init = first_occurrences(s.drop_last());
        if init.contains(s.last()) {
            init
        } else {
            init.push(s.last())
        }
    }
}

/// `first_occurrences` keeps exactly the entries of `s`.
pub proof fn lemma_first_occurrences_contains(s: Seq<Seq<u8>>, x: Seq<u8>)
    ensures
        first_occurrences(s).contains(x) <==> s.contains(x),
    decreases s.len(),
{
    if s.len() > 0 {
        let init = s.drop_last();
        lemma_first_occurrences_contains(init, x);
        lemma_first_occurrences_contains(init, s.last());
        let f = first_occurrences(init);
        if s.contains(x) {
            let i = choose|i: int| 0 <= i < s.len() && s[i] == x;
            if i < s.len() - 1 {
                assert(init[i] == x);
            }
        }
        if init.contains(x) {
            let i = choose|i: int| 0 <= i < init.len() && init[i] == x;
            assert(s[i] == x);
        }
        if !f.contains(s.last()) {
            if f.push(s.last()).contains(x) {
                let i = choose|i: int| 0 <= i < f.len() + 1 && f.push(s.last())[i] == x;
                if i < f.len() {
                    assert(f[i] == x);
                }
            }
            if f.contains(x) {
                let i = choose|i: int| 0 <= i < f.len() && f[i] == x;
                assert(f.push(s.last())[i] == x);
            }
            assert(f.push(s.last())[f.len() as int] == s.last());
        }
        assert(s[s.len() - 1] == s.last());
    }
}

/// Appending an entry extends the first occurrences exactly when it is new.
pub proof fn lemma_first_occurrences_push(s: Seq<Seq<u8>>, x: Seq<u8>)
    ensures
        first_occurrences(s.push(x)) == if s.contains(x) {
            first_occurrences(s)
        } else {
            first_occurrences(s).push(x)
        },
{
    assert(s.push(x).drop_last() =~= s);
    lemma_first_occurrences_contains(s, x);
}

/// The prefix list of the processed sequences grows by one prefix per byte.
pub proof fn lemma_prefix_list_step(done: Seq<Seq<u8>>, s: Seq<u8>, p: int)
    requires
        0 <= p < s.len(),
    ensures
        prefix_list(done.push(s.take(p + 1))) == prefix_list(done.push(s.take(p))).push(s.take(p + 1)),
{
    assert(done.push(s.take(p + 1)).drop_last() =~= done);
    assert(done.push(s.take(p)).drop_last() =~= done);
    assert(nonempty_prefixes(s.take(p + 1)) =~= nonempty_prefixes(s.take(p)).push(s.take(p + 1)))
        by {
        assert forall|k: int| 0 <= k < p implies #[trigger] nonempty_prefixes(s.take(p + 1))[k]
            =~= nonempty_prefixes(s.take(p))[k] by {}
        assert(s.take(p + 1).take(p + 1) =~= s.take(p + 1));
    }
}

/// An empty sequence adds nothing to the prefix list.
pub proof fn lemma_prefix_list_push_empty(done: Seq<Seq<u8>>)
    ensures
        prefix_list(done.push(Seq::<u8>::empty())) == prefix_list(done),
{
    assert(done.push(Seq::<u8>::empty()).drop_last() =~= done);
    assert(nonempty_prefixes(Seq::<u8>::empty()) =~= Seq::<Seq<u8>>::empty());
    assert(prefix_list(done) + Seq::<Seq<u8>>::empty() =~= prefix_list(done));
}

/// A list without repetitions is its own first occurrences.
pub proof fn lemma_first_occurrences_no_duplicates(s: Seq<Seq<u8>>)
    requires
        s.no_duplicates(),
    ensures
        first_occurrences(s) == s,
    decreases s.len(),
{
    if s.len() > 0 {
        let init = s.drop_last();
        assert(init.no_duplicates());
        lemma_first_occurrences_no_duplicates(init);
        if init.contains(s.last()) {
            let i = choose|i: int| 0 <= i < init.len() && init[i] == s.last();
            assert(s[i] == s[s.len() - 1]);
        }
        assert(init.push(s.last()) =~= s);
    }
}

/// A prefix without its last byte is a prefix too.
pub proof fn lemma_occurs_drop_last(q: Seq<u8>, b: u8, processed: Seq<Seq<u8>>)
    requires
        occurs_as_prefix(q.push(b), processed),
    ensures
        occurs_as_prefix(q, processed),
{
    let j = choose|j: int| 0 <= j < processed.len() && #[trigger] is_prefix(q.push(b), processed[j]);
    assert(processed[j].take(q.len() as int) =~= processed[j].take(q.len() + 1 as int).take(q.len() as int));
    assert(q.push(b).take(q.len() as int) =~= q);
    assert(is_prefix(q, processed[j]));
}

} // verus!
