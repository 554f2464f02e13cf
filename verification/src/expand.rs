//! The decisions of the `byte_set!` procedural macro.
//!
//! The macro reads a list of sequence expressions (byte strings, strings, or
//! arrays of byte-sized literals), removes repeated sequences, builds a trie
//! whose sibling edges are ordered by weight, lays it out as flat node and edge
//! tables, and emits a decision tree that compares one byte per level.  The
//! token handling lives outside this library; everything it decides is here.
use crate::internal::{
    child_edges, lemma_sorted_edges_unique, edge_before, empty_node, in_children, lemma_trie_shape_unique, trie_shape, Edge, Node, Trie,
};
use crate::model::{
    first_occurrences, is_prefix, lemma_first_occurrences_contains,
    lemma_first_occurrences_no_duplicates, lemma_first_occurrences_push,
    lemma_is_prefix_of_take, lemma_is_prefix_take_step, lemma_prefix_count_le,
    lemma_prefix_count_push, lemma_prefix_count_zero, lemma_prefix_list_push_empty,
    lemma_occurs_drop_last, lemma_prefix_list_step, lemma_prefix_set_contains, occurs_as_prefix, prefix_count, prefix_list,
    prefix_set,
};
use crate::builder::{lemma_occurs_push_empty, lemma_occurs_step};
use vstd::prelude::*;

verus! {

/// One element of an array sequence expression, as written in the source.
pub enum ArrayElement {
    /// An integer literal whose decimal value fits in `u16`.
    Int(u16),
    /// An integer literal whose decimal value does not fit in `u16`.
    WideInt,
    /// A byte literal (`b'a'`).
    Byte(u8),
    /// A character literal (`'a'`).
    Char(char),
    /// Any other literal.
    OtherLiteral,
    /// An expression that is not a literal.
    NotLiteral,
}

/// Why an array element does not denote a byte.
#[derive(Clone, Copy, Debug, PartialEq, Eq, Structural)]
pub enum ElementError {
    /// The integer literal does not fit in `u16`.
    IntParse,
    /// The integer is above 255.
    IntOutOfRange,
    /// The character's code point is above 255.
    CharOutOfRange,
    /// A literal that is neither an integer, a byte nor a character.
    UnexpectedLiteral,
    /// Not a literal at all.
    NotLiteral,
}

/// One sequence expression of the macro input, as written in the source.
pub enum SequenceExpr {
    /// A byte string literal, with its bytes.
    ByteStr(Vec<u8>),
    /// A string literal, with its UTF-8 bytes.
    Str(Vec<u8>),
    /// An array expression, with its elements.
    Array(Vec<ArrayElement>),
    /// A reference to another sequence expression.
    Reference(Box<SequenceExpr>),
    /// A literal that is not a (byte) string.
    OtherLiteral,
    /// Any other expression.
    Other,
}

/// Why a sequence expression does not denote a byte sequence.
#[derive(Clone, Copy, Debug, PartialEq, Eq, Structural)]
pub enum SequenceError {
    /// A literal that is not a (byte) string.
    UnexpectedLiteral,
    /// An expression of an unsupported kind.
    Unsupported,
    /// Element `index` of the innermost array is not a byte.
    Element { index: usize, error: ElementError },
}

/// The byte that an array element denotes.
pub open spec fn element_value(e: ArrayElement) -> Result<u8, ElementError> {
    match e {
        ArrayElement::Int(v) => if v <= 255 {
            Ok(v as u8)
        } else {
            Err(ElementError::IntOutOfRange)
        },
        ArrayElement::WideInt => Err(ElementError::IntParse),
        ArrayElement::Byte(b) => Ok(b),
        ArrayElement::Char(c) => if (c as u32) <= 255 {
            Ok(c as u8)
        } else {
            Err(ElementError::CharOutOfRange)
        },
        ArrayElement::OtherLiteral => Err(ElementError::UnexpectedLiteral),
        ArrayElement::NotLiteral => Err(ElementError::NotLiteral),
    }
}

/// The bytes of an array's elements, or the error of the first element that
/// is not a byte.
pub open spec fn array_value(elems: Seq<ArrayElement>) -> Result<Seq<u8>, SequenceError>
    decreases elems.len(),
{
    if elems.len() == 0 {
        Ok(Seq::empty())
    } else {
        match array_value(elems.drop_last()) {
            Err(e) => Err(e),
            Ok(prefix) => match element_value(elems.last()) {
                Ok(b) => Ok(prefix.push(b)),
                Err(error) => Err(SequenceError::Element { index: (elems.len() - 1) as usize, error }),
            },
        }
    }
}

/// The byte sequence that a sequence expression denotes.
pub open spec fn sequence_value(e: SequenceExpr) -> Result<Seq<u8>, SequenceError>
    decreases e,
{
    match e {
        SequenceExpr::ByteStr(bytes) => Ok(bytes@),
        SequenceExpr::Str(bytes) => Ok(bytes@),
        SequenceExpr::Array(elems) => array_value(elems@),
        SequenceExpr::Reference(inner) => sequence_value(*inner),
        SequenceExpr::OtherLiteral => Err(SequenceError::UnexpectedLiteral),
        SequenceExpr::Other => Err(SequenceError::Unsupported),
    }
}

/// The byte an array element denotes: integers up to 255, byte literals, and
/// characters whose code point is at most 255.
pub fn parse_byte(elem: &ArrayElement) -> (byte: Result<u8, ElementError>)
    ensures
        byte == element_value(*elem),
        match *elem {
            ArrayElement::Int(v) => match byte {
                Ok(b) => v <= 255 && b as int == v as int,
                Err(e) => v > 255 && e == ElementError::IntOutOfRange,
            },
            ArrayElement::Byte(b) => byte == Ok::<u8, ElementError>(b),
            ArrayElement::Char(c) => match byte {
                Ok(b) => (c as u32) <= 255 && b as int == c as u32 as int,
                Err(e) => (c as u32) > 255 && e == ElementError::CharOutOfRange,
            },
            _ => byte is Err,
        },
{
    match elem {
        ArrayElement::Int(value) => {
            if *value > 255 {
                Err(ElementError::IntOutOfRange)
            } else {
                Ok(*value as u8)
            }
        },
        ArrayElement::WideInt => Err(ElementError::IntParse),
        ArrayElement::Byte(b) => Ok(*b),
        ArrayElement::Char(c) => {
            let value = *c as u32;
            if value > 255 {
                Err(ElementError::CharOutOfRange)
            } else {
                Ok(value as u8)
            }
        },
        ArrayElement::OtherLiteral => Err(ElementError::UnexpectedLiteral),
        ArrayElement::NotLiteral => Err(ElementError::NotLiteral),
    }
}

/// The byte sequence a sequence expression denotes; an array yields the error
/// of its first element that is not a byte.
pub fn parse_sequence(expr: &SequenceExpr) -> (bytes: Result<Vec<u8>, SequenceError>)
    ensures
        match bytes {
            Ok(v) => sequence_value(*expr) == Ok::<Seq<u8>, SequenceError>(v@),
            Err(e) => sequence_value(*expr) == Err::<Seq<u8>, SequenceError>(e),
        },
        match *expr {
            SequenceExpr::ByteStr(given) => bytes matches Ok(v) && v@ == given@,
            SequenceExpr::Str(given) => bytes matches Ok(v) && v@ == given@,
            SequenceExpr::Array(elems) => match bytes {
                Ok(v) => v.len() == elems.len() && forall|i: int|
                    0 <= i < elems.len() ==> element_value(#[trigger] elems@[i]) == Ok::<u8, ElementError>(v@[i]),
                Err(e) => e matches SequenceError::Element { index, error } && {
                    &&& index < elems.len()
                    &&& element_value(elems@[index as int]) == Err::<u8, ElementError>(error)
                    &&& forall|i: int| 0 <= i < index ==> (#[trigger] element_value(elems@[i])) is Ok
                },
            },
            SequenceExpr::OtherLiteral => bytes == Err::<Vec<u8>, SequenceError>(SequenceError::UnexpectedLiteral),
            SequenceExpr::Other => bytes == Err::<Vec<u8>, SequenceError>(SequenceError::Unsupported),
            _ => true,
        },
    decreases expr,
{
    match expr {
        SequenceExpr::ByteStr(bytes) => Ok(vstd::slice::slice_to_vec(bytes.as_slice())),
        SequenceExpr::Str(bytes) => Ok(vstd::slice::slice_to_vec(bytes.as_slice())),
        SequenceExpr::Array(elems) => {
            let mut out: Vec<u8> = Vec::with_capacity(elems.len());
            let mut i = 0usize;
            assert(elems@.take(0) =~= Seq::<ArrayElement>::empty());
            while i < elems.len()
                invariant
                    i <= elems.len(),
                    *expr matches SequenceExpr::Array(es) && es@ == elems@,
                    sequence_value(*expr) == array_value(elems@),
                    array_value(elems@.take(i as int)) == Ok::<Seq<u8>, SequenceError>(out@),
                decreases elems.len() - i,
            {
                let byte = parse_byte(&elems[i]);
                assert(elems@.take(i + 1).drop_last() =~= elems@.take(i as int));
                match byte {
                    Ok(b) => {
                        out.push(b);
                    },
                    Err(error) => {
                        proof {
                            lemma_array_value_error_stays(elems@, i + 1);
                            lemma_array_is_its_elements(elems@);
                        }
                        return Err(SequenceError::Element { index: i, error });
                    },
                }
                i += 1;
            }
            assert(elems@.take(elems.len() as int) =~= elems@);
            proof {
                lemma_array_is_its_elements(elems@);
            }
            Ok(out)
        },
        SequenceExpr::Reference(inner) => parse_sequence(inner),
        SequenceExpr::OtherLiteral => Err(SequenceError::UnexpectedLiteral),
        SequenceExpr::Other => Err(SequenceError::Unsupported),
    }
}

/// An integer array element up to 255 is the byte with that value; a larger
/// one is out of range.
pub proof fn lemma_int_element_is_its_value(v: u16)
    ensures
        element_value(ArrayElement::Int(v)) is Ok <==> v <= 255,
        element_value(ArrayElement::Int(v)) matches Ok(b) ==> b as int == v as int,
        v > 255 ==> element_value(ArrayElement::Int(v)) == Err::<u8, ElementError>(
            ElementError::IntOutOfRange,
        ),
{
}

/// A byte literal element is that byte.
pub proof fn lemma_byte_element_is_itself(b: u8)
    ensures
        element_value(ArrayElement::Byte(b)) == Ok::<u8, ElementError>(b),
{
}

/// A character element whose code point is at most 255 is the byte with that
/// code point; any other character is out of range.
pub proof fn lemma_char_element_is_its_code_point(c: char)
    ensures
        element_value(ArrayElement::Char(c)) is Ok <==> (c as u32) <= 255,
        element_value(ArrayElement::Char(c)) matches Ok(b) ==> b as int == c as u32 as int,
        (c as u32) > 255 ==> element_value(ArrayElement::Char(c)) == Err::<u8, ElementError>(
            ElementError::CharOutOfRange,
        ),
{
}

/// A byte string literal, and a string literal (by its UTF-8 bytes), denote
/// exactly their bytes, and a reference denotes what it refers to.
pub proof fn lemma_literal_sequences_are_their_bytes(given: Vec<u8>, inner: SequenceExpr)
    ensures
        sequence_value(SequenceExpr::ByteStr(given)) matches Ok(s) && s.len() == given@.len()
            && forall|i: int| 0 <= i < s.len() ==> s[i] == given@[i],
        sequence_value(SequenceExpr::Str(given)) matches Ok(s) && s.len() == given@.len()
            && forall|i: int| 0 <= i < s.len() ==> s[i] == given@[i],
        sequence_value(SequenceExpr::Reference(Box::new(inner))) == sequence_value(inner),
{
}

/// An array denotes the bytes of its elements, one byte per element in order,
/// when every element is a byte; otherwise it reports the first element that
/// is not, with that element's error.
pub proof fn lemma_array_is_its_elements(elems: Seq<ArrayElement>)
    requires
        elems.len() <= usize::MAX,
    ensures
        array_value(elems) matches Ok(s) ==> s.len() == elems.len() && forall|i: int|
            0 <= i < elems.len() ==> element_value(#[trigger] elems[i]) == Ok::<u8, ElementError>(s[i]),
        (forall|i: int| 0 <= i < elems.len() ==> (#[trigger] element_value(elems[i])) is Ok)
            ==> array_value(elems) is Ok,
        array_value(elems) is Err ==> (array_value(elems) matches Err(SequenceError::Element { index, error }) && {
            &&& 0 <= index < elems.len()
            &&& element_value(elems[index as int]) == Err::<u8, ElementError>(error)
            &&& forall|i: int| 0 <= i < index ==> (#[trigger] element_value(elems[i])) is Ok
        }),
    decreases elems.len(),
{
    if elems.len() > 0 {
        let init = elems.drop_last();
        lemma_array_is_its_elements(init);
        assert forall|i: int| 0 <= i < init.len() implies init[i] == elems[i] by {}
        match array_value(init) {
            Err(e) => {
                assert(array_value(elems) == Err::<Seq<u8>, SequenceError>(e));
                if let SequenceError::Element { index, error } = e {
                    assert(elems[index as int] == init[index as int]);
                    assert forall|i: int| 0 <= i < index implies (#[trigger] element_value(elems[i])) is Ok by {
                        assert(elems[i] == init[i]);
                        assert(element_value(init[i]) is Ok);
                    }
                }
            },
            Ok(prefix) => {
                match element_value(elems.last()) {
                    Ok(b) => {
                        let s = prefix.push(b);
                        assert(array_value(elems) == Ok::<Seq<u8>, SequenceError>(s));
                        assert forall|i: int| 0 <= i < elems.len() implies element_value(#[trigger] elems[i])
                            == Ok::<u8, ElementError>(s[i]) by {
                            if i < init.len() {
                                assert(elems[i] == init[i]);
                                assert(element_value(init[i]) == Ok::<u8, ElementError>(prefix[i]));
                            }
                        }
                    },
                    Err(error) => {
                        let index = (elems.len() - 1) as usize;
                        assert(index as int == elems.len() - 1);
                        assert(array_value(elems) == Err::<Seq<u8>, SequenceError>(
                            SequenceError::Element { index, error },
                        ));
                        assert forall|i: int| 0 <= i < index implies (#[trigger] element_value(elems[i])) is Ok by {
                            assert(elems[i] == init[i]);
                            assert(element_value(init[i]) == Ok::<u8, ElementError>(prefix[i]));
                        }
                    },
                }
            },
        }
        if forall|i: int| 0 <= i < elems.len() ==> (#[trigger] element_value(elems[i])) is Ok {
            assert forall|i: int| 0 <= i < init.len() implies (#[trigger] element_value(init[i])) is Ok by {
                assert(element_value(elems[i]) is Ok);
            }
            assert(element_value(elems[elems.len() - 1]) is Ok);
        }
    }
}

/// Once a prefix of the elements fails, the whole array fails the same way.
proof fn lemma_array_value_error_stays(elems: Seq<ArrayElement>, k: int)
    requires
        0 <= k <= elems.len(),
        array_value(elems.take(k)) is Err,
    ensures
        array_value(elems) == array_value(elems.take(k)),
    decreases elems.len() - k,
{
    if k < elems.len() {
        assert(elems.take(k + 1).drop_last() =~= elems.take(k));
        lemma_array_value_error_stays(elems, k + 1);
    } else {
        assert(elems.take(k) =~= elems);
    }
}

/// The byte views of the given vectors.
pub open spec fn vec_views(seqs: Seq<Vec<u8>>) -> Seq<Seq<u8>> {
    Seq::new(seqs.len(), |i: int| seqs[i]@)
}

/// Whether two byte slices hold the same bytes.
fn bytes_equal(a: &[u8], b: &[u8]) -> (eq: bool)
    ensures
        eq == (a@ == b@),
{
    if a.len() != b.len() {
        return false;
    }
    let mut i = 0usize;
    while i < a.len()
        invariant
            i <= a.len(),
            a.len() == b.len(),
            forall|k: int| 0 <= k < i ==> a@[k] == b@[k],
        decreases a.len() - i,
    {
        if a[i] != b[i] {
            return false;
        }
        i += 1;
    }
    assert(a@ =~= b@);
    true
}

/// The sequences without repetitions, each kept where it first appears.
pub fn remove_duplicates(sequences: Vec<Vec<u8>>) -> (unique: Vec<Vec<u8>>)
    ensures
        vec_views(unique@) == first_occurrences(vec_views(sequences@)),
{
    let ghost all = vec_views(sequences@);
    let mut unique: Vec<Vec<u8>> = Vec::new();
    let mut i = 0usize;
    assert(all.take(0) =~= Seq::<Seq<u8>>::empty());
    assert(vec_views(unique@) =~= first_occurrences(all.take(0)));
    while i < sequences.len()
        invariant
            i <= sequences.len(),
            all == vec_views(sequences@),
            vec_views(unique@) == first_occurrences(all.take(i as int)),
        decreases sequences.len() - i,
    {
        let mut seen = false;
        let mut j = 0usize;
        while j < unique.len()
            invariant
                j <= unique.len(),
                i < sequences.len(),
                seen <==> exists|k: int| 0 <= k < j && unique@[k]@ == sequences@[i as int]@,
            decreases unique.len() - j,
        {
            if bytes_equal(unique[j].as_slice(), sequences[i].as_slice()) {
                seen = true;
            }
            j += 1;
        }
        proof {
            let x = all[i as int];
            let before = all.take(i as int);
            assert(all.take(i + 1) =~= before.push(x));
            lemma_first_occurrences_push(before, x);
            lemma_first_occurrences_contains(before, x);
            if seen {
                let k = choose|k: int| 0 <= k < unique.len() && unique@[k]@ == sequences@[i as int]@;
                assert(vec_views(unique@)[k] == x);
                assert(first_occurrences(before).contains(x));
            } else {
                if first_occurrences(before).contains(x) {
                    let k = choose|k: int|
                        0 <= k < first_occurrences(before).len() && first_occurrences(before)[k] == x;
                    assert(vec_views(unique@)[k] == x);
                }
            }
        }
        if !seen {
            let copy = vstd::slice::slice_to_vec(sequences[i].as_slice());
            let ghost old_unique = unique@;
            unique.push(copy);
            assert(vec_views(unique@) =~= vec_views(old_unique).push(all[i as int]));
        }
        i += 1;
    }
    assert(all.take(sequences.len() as int) =~= all);
    unique
}

/// An edge of the macro's trie.
#[derive(Clone, Copy, Debug, PartialEq, Eq, Structural)]
pub struct TrieEdge {
    pub byte: u8,
    pub target: usize,
    pub weight: usize,
}

/// A node of the macro's trie, with its child edges.
#[derive(Clone)]
pub struct TrieNode {
    pub terminal: bool,
    pub children: Vec<TrieEdge>,
}

/// Sibling order of the macro's trie: heavier first, then smaller bytes.
pub open spec fn tree_edge_before(a: TrieEdge, b: TrieEdge) -> bool {
    a.weight > b.weight || (a.weight == b.weight && a.byte < b.byte)
}

/// The labels of the trie of `processed`: its distinct prefixes in the order
/// they first occur.
pub open spec fn tree_labels(processed: Seq<Seq<u8>>) -> Seq<Seq<u8>> {
    first_occurrences(prefix_list(processed))
}

/// Node `i` stands for `tree_labels(processed)[i]`; each child edge leads to a
/// later node whose label extends the parent's by the edge's byte, and weighs
/// the number of `processed` sequences through it; siblings have distinct
/// bytes, and every extension of a label by a byte that is itself a label has
/// an edge; a node is terminal when its label is one of `done`.
pub open spec fn tree_inv(nodes: Seq<TrieNode>, processed: Seq<Seq<u8>>, done: Seq<Seq<u8>>) -> bool {
    let n = nodes.len() as int;
    let labels = tree_labels(processed);
    &&& n >= 1
    &&& labels.len() == n
    &&& labels[0] == Seq::<u8>::empty()
    &&& labels.no_duplicates()
    &&& forall|q: Seq<u8>|
        #![trigger labels.contains(q)]
        #![trigger occurs_as_prefix(q, processed)]
        labels.contains(q) <==> occurs_as_prefix(q, processed)
    &&& forall|i: int| 0 <= i < n ==> (#[trigger] nodes[i]).terminal == done.contains(labels[i])
    &&& forall|i: int, k: int|
        #![trigger nodes[i].children@[k]]
        0 <= i < n && 0 <= k < nodes[i].children.len() ==> {
            let c = nodes[i].children@[k];
            &&& i < c.target < n
            &&& labels[c.target as int] == labels[i].push(c.byte)
            &&& c.weight == prefix_count(processed, labels[c.target as int])
        }
    &&& forall|i: int, k1: int, k2: int|
        #![trigger nodes[i].children@[k1], nodes[i].children@[k2]]
        0 <= i < n && 0 <= k1 < nodes[i].children.len() && 0 <= k2 < nodes[i].children.len() && k1
            != k2 ==> nodes[i].children@[k1].byte != nodes[i].children@[k2].byte
    &&& forall|i: int, b: u8|
        0 <= i < n && #[trigger] labels.contains(labels[i].push(b)) ==> exists|k: int|
            0 <= k < nodes[i].children.len() && (#[trigger] nodes[i].children@[k]).byte == b
}

/// The child of `node` that matches `byte`, if any.
fn find_tree_child(node: &TrieNode, byte: u8) -> (found: Option<usize>)
    ensures
        match found {
            Some(k) => k < node.children.len() && node.children@[k as int].byte == byte,
            None => forall|k: int|
                0 <= k < node.children.len() ==> (#[trigger] node.children@[k]).byte != byte,
        },
{
    let mut k = 0usize;
    while k < node.children.len()
        invariant
            k <= node.children.len(),
            forall|kk: int| 0 <= kk < k ==> (#[trigger] node.children@[kk]).byte != byte,
        decreases node.children.len() - k,
    {
        if node.children[k].byte == byte {
            return Some(k);
        }
        k += 1;
    }
    None
}

/// Child edge `k` of `node` carries one more sequence; returns its target.
fn tree_follow(
    nodes: &mut Vec<TrieNode>,
    node: usize,
    k: usize,
    Ghost(processed): Ghost<Seq<Seq<u8>>>,
    Ghost(next_processed): Ghost<Seq<Seq<u8>>>,
    Ghost(done): Ghost<Seq<Seq<u8>>>,
) -> (child: usize)
    requires
        tree_inv(old(nodes)@, processed, done),
        node < old(nodes)@.len(),
        k < old(nodes)@[node as int].children.len(),
        ({
            let l = tree_labels(processed)[old(nodes)@[node as int].children@[k as int].target as int];
            &&& forall|q: Seq<u8>|
                #[trigger] occurs_as_prefix(q, next_processed) <==> (occurs_as_prefix(q, processed)
                    || q == l)
            &&& forall|q: Seq<u8>|
                #[trigger] prefix_count(next_processed, q) == prefix_count(processed, q) + if q
                    == l {
                    1nat
                } else {
                    0nat
                }
            &&& prefix_count(processed, l) < usize::MAX
            &&& prefix_list(next_processed) == prefix_list(processed).push(l)
        }),
    ensures
        tree_inv(final(nodes)@, next_processed, done),
        child == old(nodes)@[node as int].children@[k as int].target,
        tree_labels(next_processed) == tree_labels(processed),
        final(nodes)@.len() == old(nodes)@.len(),
{
    let ghost pre = nodes@;
    let ghost labels = tree_labels(processed);
    let ghost l = labels[pre[node as int].children@[k as int].target as int];
    proof {
        assert(labels.contains(l));
        lemma_first_occurrences_push(prefix_list(processed), l);
        lemma_first_occurrences_contains(prefix_list(processed), l);
        assert(tree_labels(next_processed) == labels);
        assert(pre[node as int].children@[k as int].weight == prefix_count(processed, l));
    }
    let weight = nodes[node].children[k].weight;
    nodes[node].children[k].weight = weight + 1;
    let child = nodes[node].children[k].target;
    proof {
        let post = nodes@;
        assert forall|i: int| 0 <= i < post.len() implies (#[trigger] post[i]).terminal == pre[i].terminal
            && post[i].children.len() == pre[i].children.len() by {}
        assert forall|i: int, kk: int|
            #![trigger post[i].children@[kk]]
            0 <= i < post.len() && 0 <= kk < post[i].children.len() implies {
            let c = post[i].children@[kk];
            &&& i < c.target < post.len()
            &&& labels[c.target as int] == labels[i].push(c.byte)
            &&& c.weight == prefix_count(next_processed, labels[c.target as int])
        } by {
            let c0 = pre[i].children@[kk];
            if i == node && kk == k {
            } else {
                assert(post[i].children@[kk] == c0);
                let ck = pre[node as int].children@[k as int];
                if labels[c0.target as int] == l {
                    assert(c0.target == ck.target);
                    assert(labels[i] =~= l.drop_last());
                    assert(labels[node as int] =~= l.drop_last());
                    assert(i == node);
                    assert(labels[i].push(c0.byte).last() == c0.byte);
                    assert(labels[i].push(ck.byte).last() == ck.byte);
                    assert(c0.byte == ck.byte);
                    assert(false);
                }
            }
        }
        assert forall|i: int, k1: int, k2: int|
            #![trigger post[i].children@[k1], post[i].children@[k2]]
            0 <= i < post.len() && 0 <= k1 < post[i].children.len() && 0 <= k2
                < post[i].children.len() && k1 != k2 implies post[i].children@[k1].byte
            != post[i].children@[k2].byte by {
            assert(pre[i].children@[k1].byte != pre[i].children@[k2].byte);
        }
        assert forall|i: int, b: u8|
            0 <= i < post.len() && #[trigger] labels.contains(labels[i].push(b)) implies exists|kk: int|
            0 <= kk < post[i].children.len() && (#[trigger] post[i].children@[kk]).byte == b by {
            let kk = choose|kk: int|
                0 <= kk < pre[i].children.len() && (#[trigger] pre[i].children@[kk]).byte == b;
            assert(post[i].children@[kk].byte == b);
        }
    }
    child
}

/// A new child of `node` for `byte`, leading to a new node; returns that node.
fn tree_add(
    nodes: &mut Vec<TrieNode>,
    node: usize,
    byte: u8,
    Ghost(processed): Ghost<Seq<Seq<u8>>>,
    Ghost(next_processed): Ghost<Seq<Seq<u8>>>,
    Ghost(done): Ghost<Seq<Seq<u8>>>,
) -> (child: usize)
    requires
        tree_inv(old(nodes)@, processed, done),
        node < old(nodes)@.len(),
        ({
            let l = tree_labels(processed)[node as int].push(byte);
            &&& !tree_labels(processed).contains(l)
            &&& !done.contains(l)
            &&& forall|q: Seq<u8>|
                #[trigger] occurs_as_prefix(q, next_processed) <==> (occurs_as_prefix(q, processed)
                    || q == l)
            &&& forall|q: Seq<u8>|
                #[trigger] prefix_count(next_processed, q) == prefix_count(processed, q) + if q
                    == l {
                    1nat
                } else {
                    0nat
                }
            &&& prefix_count(processed, l) == 0
            &&& prefix_list(next_processed) == prefix_list(processed).push(l)
        }),
    ensures
        tree_inv(final(nodes)@, next_processed, done),
        child == old(nodes)@.len(),
        final(nodes)@.len() == child + 1,
        tree_labels(next_processed) == tree_labels(processed).push(
            tree_labels(processed)[node as int].push(byte),
        ),
{
    let ghost pre = nodes@;
    let ghost labels = tree_labels(processed);
    let ghost l = labels[node as int].push(byte);
    proof {
        lemma_first_occurrences_push(prefix_list(processed), l);
        lemma_first_occurrences_contains(prefix_list(processed), l);
    }
    let next_node = nodes.len();
    nodes.push(TrieNode { terminal: false, children: Vec::new() });
    nodes[node].children.push(TrieEdge { byte, target: next_node, weight: 1 });
    proof {
        let post = nodes@;
        let labels2 = labels.push(l);
        assert(tree_labels(next_processed) == labels2);
        assert(labels2.no_duplicates()) by {
            assert forall|a: int, b: int| 0 <= a < b < labels2.len() implies labels2[a]
                != labels2[b] by {
                if b == labels2.len() - 1 {
                    assert(labels.contains(labels[a]));
                } else {
                    assert(labels[a] != labels[b]);
                }
            }
        }
        assert forall|q: Seq<u8>| labels2.contains(q) <==> occurs_as_prefix(q, next_processed) by {
            if labels2.contains(q) && q != l {
                let i = choose|i: int| 0 <= i < labels2.len() && labels2[i] == q;
                assert(labels[i] == q);
                assert(labels.contains(q));
            }
            if occurs_as_prefix(q, processed) {
                assert(labels.contains(q));
                let i = choose|i: int| 0 <= i < labels.len() && labels[i] == q;
                assert(labels2[i] == q);
            }
            if q == l {
                assert(labels2[labels2.len() - 1] == q);
            }
        }
        assert forall|i: int| 0 <= i < post.len() implies (#[trigger] post[i]).terminal == done.contains(
            labels2[i],
        ) by {
            if i < pre.len() {
                assert(post[i].terminal == pre[i].terminal);
                assert(labels2[i] == labels[i]);
            }
        }
        assert forall|i: int, kk: int|
            #![trigger post[i].children@[kk]]
            0 <= i < post.len() && 0 <= kk < post[i].children.len() implies {
            let c = post[i].children@[kk];
            &&& i < c.target < post.len()
            &&& labels2[c.target as int] == labels2[i].push(c.byte)
            &&& c.weight == prefix_count(next_processed, labels2[c.target as int])
        } by {
            if i == node && kk == pre[i].children.len() {
            } else {
                let c0 = pre[i].children@[kk];
                assert(post[i].children@[kk] == c0);
                assert(labels2[c0.target as int] == labels[c0.target as int]);
                assert(labels2[i] == labels[i]);
                assert(labels.contains(labels[c0.target as int]));
            }
        }
        assert forall|i: int, k1: int, k2: int|
            #![trigger post[i].children@[k1], post[i].children@[k2]]
            0 <= i < post.len() && 0 <= k1 < post[i].children.len() && 0 <= k2
                < post[i].children.len() && k1 != k2 implies post[i].children@[k1].byte
            != post[i].children@[k2].byte by {
            let old_len = pre[node as int].children.len();
            if i == node && (k1 == old_len || k2 == old_len) {
                let other = if k1 == old_len {
                    k2
                } else {
                    k1
                };
                let c0 = pre[i].children@[other];
                assert(post[i].children@[other] == c0);
                if c0.byte == byte {
                    assert(labels[c0.target as int] == l);
                    assert(labels.contains(l));
                }
            } else if i < pre.len() {
                assert(post[i].children@[k1] == pre[i].children@[k1]);
                assert(post[i].children@[k2] == pre[i].children@[k2]);
                assert(pre[i].children@[k1].byte != pre[i].children@[k2].byte);
            }
        }
        assert forall|i: int, b: u8|
            0 <= i < post.len() && #[trigger] labels2.contains(labels2[i].push(b)) implies exists|kk: int|
            0 <= kk < post[i].children.len() && (#[trigger] post[i].children@[kk]).byte == b by {
            let q = labels2[i].push(b);
            if i == pre.len() {
                // The new node's label is new, so no label extends it.
                assert(occurs_as_prefix(q, next_processed));
                lemma_occurs_drop_last(l, b, next_processed);
                if q != l {
                    assert(occurs_as_prefix(q, processed));
                    lemma_occurs_drop_last(l, b, processed);
                    assert(labels.contains(l));
                }
                assert(q.len() == l.len() + 1);
            } else if q == l {
                assert(labels2[i] =~= l.drop_last());
                assert(labels[node as int] =~= l.drop_last());
                assert(labels[i] == labels[node as int]);
                assert(i == node);
                assert(q.last() == b);
                assert(l.last() == byte);
                assert(post[i].children@[pre[i].children.len() as int].byte == b);
            } else {
                assert(labels2[i] == labels[i]);
                let j = choose|j: int| 0 <= j < labels2.len() && labels2[j] == q;
                assert(labels[j] == q);
                assert(labels.contains(q));
                let kk = choose|kk: int|
                    0 <= kk < pre[i].children.len() && (#[trigger] pre[i].children@[kk]).byte == b;
                assert(post[i].children@[kk] == pre[i].children@[kk]);
            }
        }
    }
    next_node
}

/// The children are in sibling order.
pub open spec fn children_sorted(children: Seq<TrieEdge>) -> bool {
    forall|k1: int, k2: int|
        #![trigger children[k1], children[k2]]
        0 <= k1 < k2 < children.len() ==> tree_edge_before(children[k1], children[k2])
}

/// Sorts sibling edges by descending weight, then ascending byte.
fn sort_children(children: &mut Vec<TrieEdge>)
    requires
        forall|k1: int, k2: int|
            #![trigger old(children)@[k1], old(children)@[k2]]
            0 <= k1 < old(children)@.len() && 0 <= k2 < old(children)@.len() && k1 != k2
                ==> old(children)@[k1].byte != old(children)@[k2].byte,
    ensures
        final(children)@.len() == old(children)@.len(),
        forall|e: TrieEdge| final(children)@.contains(e) <==> old(children)@.contains(e),
        forall|k1: int, k2: int|
            #![trigger final(children)@[k1], final(children)@[k2]]
            0 <= k1 < final(children)@.len() && 0 <= k2 < final(children)@.len() && k1 != k2
                ==> final(children)@[k1].byte != final(children)@[k2].byte,
        children_sorted(final(children)@),
{
    let ghost unsorted = children@;
    let n = children.len();
    let mut i = 0usize;
    while i < n
        invariant
            i <= n,
            n == children@.len(),
            forall|e: TrieEdge| children@.contains(e) <==> unsorted.contains(e),
            forall|k1: int, k2: int|
                #![trigger children@[k1], children@[k2]]
                0 <= k1 < n && 0 <= k2 < n && k1 != k2 ==> children@[k1].byte != children@[k2].byte,
            forall|a: int, c: int|
                #![trigger children@[a], children@[c]]
                0 <= a < c < i ==> tree_edge_before(children@[a], children@[c]),
            forall|a: int, c: int|
                #![trigger children@[a], children@[c]]
                0 <= a < i <= c < n ==> tree_edge_before(children@[a], children@[c]),
        decreases n - i,
    {
        let ghost s0 = children@;
        let mut best = i;
        let mut j = i + 1;
        while j < n
            invariant
                i < n,
                i <= best < j <= n,
                n == children@.len(),
                children@ == s0,
                forall|k1: int, k2: int|
                    #![trigger s0[k1], s0[k2]]
                    0 <= k1 < n && 0 <= k2 < n && k1 != k2 ==> s0[k1].byte != s0[k2].byte,
                forall|c: int|
                    i <= c < j && c != best ==> tree_edge_before(s0[best as int], #[trigger] s0[c]),
            decreases n - j,
        {
            let left = children[j];
            let current = children[best];
            if left.weight > current.weight || (left.weight == current.weight && left.byte
                < current.byte) {
                best = j;
            } else {
                assert(s0[j as int].byte != s0[best as int].byte);
            }
            j += 1;
        }
        if best != i {
            let tmp = children[i];
            let chosen = children[best];
            children.set(i, chosen);
            children.set(best, tmp);
        }
        proof {
            let s1 = children@;
            assert forall|a: int| 0 <= a < n implies #[trigger] s1[a] == if a == i {
                s0[best as int]
            } else if a == best {
                s0[i as int]
            } else {
                s0[a]
            } by {}
            assert forall|e: TrieEdge| s1.contains(e) <==> s0.contains(e) by {
                if s1.contains(e) {
                    let a = choose|a: int| 0 <= a < n && s1[a] == e;
                    let a0 = if a == i {
                        best as int
                    } else if a == best {
                        i as int
                    } else {
                        a
                    };
                    assert(s0[a0] == e);
                }
                if s0.contains(e) {
                    let a = choose|a: int| 0 <= a < n && s0[a] == e;
                    let a1 = if a == i {
                        best as int
                    } else if a == best {
                        i as int
                    } else {
                        a
                    };
                    assert(s1[a1] == e);
                }
            }
            assert forall|k1: int, k2: int|
                #![trigger s1[k1], s1[k2]]
                0 <= k1 < n && 0 <= k2 < n && k1 != k2 implies s1[k1].byte != s1[k2].byte by {
                let a0 = if k1 == i {
                    best as int
                } else if k1 == best {
                    i as int
                } else {
                    k1
                };
                let c0 = if k2 == i {
                    best as int
                } else if k2 == best {
                    i as int
                } else {
                    k2
                };
                assert(s0[a0].byte != s0[c0].byte);
            }
            assert forall|a: int, c: int|
                #![trigger s1[a], s1[c]]
                0 <= a < c < i + 1 implies tree_edge_before(s1[a], s1[c]) by {
                if c == i {
                    assert(tree_edge_before(s0[a], s0[best as int]));
                } else {
                    assert(tree_edge_before(s0[a], s0[c]));
                }
            }
            assert forall|a: int, c: int|
                #![trigger s1[a], s1[c]]
                0 <= a < i + 1 <= c < n implies tree_edge_before(s1[a], s1[c]) by {
                let c0 = if c == best {
                    i as int
                } else {
                    c
                };
                if a < i {
                    assert(tree_edge_before(s0[a], s0[c0]));
                } else {
                    assert(c0 != best);
                    assert(tree_edge_before(s0[best as int], s0[c0]));
                }
            }
        }
        i += 1;
    }
}

/// Before a sequence's bytes are added, the empty prefix of it adds nothing.
proof fn lemma_tree_start(nodes: Seq<TrieNode>, done: Seq<Seq<u8>>)
    requires
        tree_inv(nodes, done, done),
    ensures
        tree_inv(nodes, done.push(Seq::<u8>::empty()), done),
{
    let start = done.push(Seq::<u8>::empty());
    lemma_prefix_list_push_empty(done);
    let labels = tree_labels(done);
    assert(tree_labels(start) == labels);
    assert forall|q: Seq<u8>| #[trigger] occurs_as_prefix(q, start) <==> occurs_as_prefix(q, done) by {
        lemma_occurs_push_empty(q, done);
    }
    assert forall|i: int, k: int|
        #![trigger nodes[i].children@[k]]
        0 <= i < nodes.len() && 0 <= k < nodes[i].children.len() implies nodes[i].children@[k].weight
        == prefix_count(start, labels[nodes[i].children@[k].target as int]) by {
        let c = nodes[i].children@[k];
        lemma_prefix_count_push(done, Seq::<u8>::empty(), labels[c.target as int]);
        assert(labels[c.target as int].len() == labels[i].len() + 1);
    }
}

/// Marking the node of the sequence just added terminal records it as done.
proof fn lemma_tree_mark(
    pre: Seq<TrieNode>,
    post: Seq<TrieNode>,
    node: int,
    done: Seq<Seq<u8>>,
    s: Seq<u8>,
)
    requires
        tree_inv(pre, done.push(s), done),
        0 <= node < pre.len(),
        tree_labels(done.push(s))[node] == s,
        post.len() == pre.len(),
        forall|i: int| 0 <= i < pre.len() && i != node ==> #[trigger] post[i] == pre[i],
        post[node].terminal,
        post[node].children == pre[node].children,
    ensures
        tree_inv(post, done.push(s), done.push(s)),
{
    let processed = done.push(s);
    let finished = done.push(s);
    let labels = tree_labels(processed);
    assert forall|i: int| 0 <= i < post.len() implies (#[trigger] post[i]).terminal == finished.contains(
        labels[i],
    ) by {
        if finished.contains(labels[i]) && labels[i] != s {
            let j = choose|j: int| 0 <= j < finished.len() && finished[j] == labels[i];
            assert(done[j] == labels[i]);
        }
        if done.contains(labels[i]) {
            let j = choose|j: int| 0 <= j < done.len() && done[j] == labels[i];
            assert(finished[j] == labels[i]);
        }
        if i != node {
            assert(labels[i] != labels[node]);
            assert(post[i] == pre[i]);
        } else {
            assert(finished[done.len() as int] == s);
        }
    }
    assert forall|i: int, k: int|
        #![trigger post[i].children@[k]]
        0 <= i < post.len() && 0 <= k < post[i].children.len() implies post[i].children@[k]
        == pre[i].children@[k] by {
        if i != node {
            assert(post[i] == pre[i]);
        }
    }
    assert forall|i: int, b: u8|
        0 <= i < post.len() && #[trigger] labels.contains(labels[i].push(b)) implies exists|k: int|
        0 <= k < post[i].children.len() && (#[trigger] post[i].children@[k]).byte == b by {
        let k = choose|k: int| 0 <= k < pre[i].children.len() && (#[trigger] pre[i].children@[k]).byte == b;
        if i != node {
            assert(post[i] == pre[i]);
        }
        assert(post[i].children@[k] == pre[i].children@[k]);
    }
}

/// Reordering one node's children keeps the trie.
proof fn lemma_tree_permute(
    pre: Seq<TrieNode>,
    post: Seq<TrieNode>,
    node: int,
    processed: Seq<Seq<u8>>,
    done: Seq<Seq<u8>>,
)
    requires
        tree_inv(pre, processed, done),
        0 <= node < pre.len(),
        post.len() == pre.len(),
        forall|i: int| 0 <= i < pre.len() && i != node ==> #[trigger] post[i] == pre[i],
        post[node].terminal == pre[node].terminal,
        post[node].children@.len() == pre[node].children@.len(),
        forall|e: TrieEdge| post[node].children@.contains(e) <==> pre[node].children@.contains(e),
        forall|k1: int, k2: int|
            #![trigger post[node].children@[k1], post[node].children@[k2]]
            0 <= k1 < post[node].children.len() && 0 <= k2 < post[node].children.len() && k1 != k2
                ==> post[node].children@[k1].byte != post[node].children@[k2].byte,
    ensures
        tree_inv(post, processed, done),
{
    let labels = tree_labels(processed);
    assert forall|i: int| 0 <= i < post.len() implies (#[trigger] post[i]).terminal == done.contains(
        labels[i],
    ) by {
        if i != node {
            assert(post[i] == pre[i]);
        }
    }
    assert forall|i: int, k: int|
        #![trigger post[i].children@[k]]
        0 <= i < post.len() && 0 <= k < post[i].children.len() implies {
        let c = post[i].children@[k];
        &&& i < c.target < post.len()
        &&& labels[c.target as int] == labels[i].push(c.byte)
        &&& c.weight == prefix_count(processed, labels[c.target as int])
    } by {
        if i != node {
            assert(post[i] == pre[i]);
        } else {
            let c = post[i].children@[k];
            assert(post[i].children@.contains(c));
            let k0 = choose|k0: int| 0 <= k0 < pre[i].children@.len() && pre[i].children@[k0] == c;
            assert(pre[i].children@[k0] == c);
        }
    }
    assert forall|i: int, k1: int, k2: int|
        #![trigger post[i].children@[k1], post[i].children@[k2]]
        0 <= i < post.len() && 0 <= k1 < post[i].children.len() && 0 <= k2 < post[i].children.len()
            && k1 != k2 implies post[i].children@[k1].byte != post[i].children@[k2].byte by {
        if i != node {
            assert(post[i] == pre[i]);
            assert(pre[i].children@[k1].byte != pre[i].children@[k2].byte);
        }
    }
    assert forall|i: int, b: u8|
        0 <= i < post.len() && #[trigger] labels.contains(labels[i].push(b)) implies exists|k: int|
        0 <= k < post[i].children.len() && (#[trigger] post[i].children@[k]).byte == b by {
        let k = choose|k: int| 0 <= k < pre[i].children.len() && (#[trigger] pre[i].children@[k]).byte == b;
        if i != node {
            assert(post[i] == pre[i]);
            assert(post[i].children@[k].byte == b);
        } else {
            let c = pre[i].children@[k];
            assert(pre[i].children@.contains(c));
            let k1 = choose|k1: int| 0 <= k1 < post[i].children@.len() && post[i].children@[k1] == c;
            assert(post[i].children@[k1].byte == b);
        }
    }
}

/// Builds the macro's trie of `sequences`: nodes are the distinct prefixes in
/// the order they first occur, each child edge weighs the number of sequences
/// through it, and siblings are ordered by descending weight, then byte.
pub fn build_trie(sequences: &[Vec<u8>]) -> (nodes: Vec<TrieNode>)
    ensures
        tree_inv(nodes@, vec_views(sequences@), vec_views(sequences@)),
        forall|i: int| 0 <= i < nodes@.len() ==> children_sorted(#[trigger] nodes@[i].children@),
{
    let ghost total = vec_views(sequences@);
    let mut nodes = vec![TrieNode { terminal: false, children: Vec::new() }];
    proof {
        let none = Seq::<Seq<u8>>::empty();
        assert(total.take(0) =~= none);
        assert(prefix_list(none) == seq![Seq::<u8>::empty()]);
        lemma_first_occurrences_push(none, Seq::<u8>::empty());
        assert(seq![Seq::<u8>::empty()] =~= none.push(Seq::<u8>::empty()));
        assert(first_occurrences(none) =~= none);
        let labels = tree_labels(none);
        assert(labels =~= seq![Seq::<u8>::empty()]);
        assert forall|q: Seq<u8>| labels.contains(q) <==> occurs_as_prefix(q, none) by {
            if q.len() == 0 {
                assert(q =~= Seq::<u8>::empty());
                assert(labels[0] == q);
            }
        }
        assert forall|i: int, b: u8| 0 <= i < 1 && #[trigger] labels.contains(labels[i].push(b)) implies false by {
            let j = choose|j: int| 0 <= j < labels.len() && labels[j] == labels[i].push(b);
            assert(labels[j].len() == 0);
        }
        assert(tree_inv(nodes@, none, none));
    }
    let mut i = 0usize;
    while i < sequences.len()
        invariant
            i <= sequences.len(),
            total == vec_views(sequences@),
            tree_inv(nodes@, total.take(i as int), total.take(i as int)),
        decreases sequences.len() - i,
    {
        let sequence = &sequences[i];
        let ghost done = total.take(i as int);
        let ghost s = sequence@;
        proof {
            assert(s == total[i as int]);
            assert(done.push(s) =~= total.take(i + 1));
            lemma_tree_start(nodes@, done);
            assert(s.take(0) =~= Seq::<u8>::empty());
        }
        let mut node_idx = 0usize;
        if sequence.is_empty() {
            let ghost pre = nodes@;
            nodes[node_idx].terminal = true;
            proof {
                assert(s =~= Seq::<u8>::empty());
                lemma_tree_mark(pre, nodes@, 0, done, s);
            }
            i += 1;
            continue;
        }
        let mut pos = 0usize;
        while pos < sequence.len()
            invariant
                pos <= sequence.len(),
                s == sequence@,
                i < sequences.len(),
                done == total.take(i as int),
                s == total[i as int],
                total.len() == sequences@.len(),
                tree_inv(nodes@, done.push(s.take(pos as int)), done),
                node_idx < nodes@.len(),
                tree_labels(done.push(s.take(pos as int)))[node_idx as int] == s.take(pos as int),
            decreases sequence.len() - pos,
        {
            let byte = sequence[pos];
            let ghost p = pos as int;
            let ghost cur = done.push(s.take(p));
            let ghost next = done.push(s.take(p + 1));
            let ghost l = s.take(p + 1);
            let ghost labels = tree_labels(cur);
            proof {
                assert(s.take(p).push(byte) =~= l);
                assert forall|q: Seq<u8>| #[trigger]
                    occurs_as_prefix(q, next) <==> (occurs_as_prefix(q, cur) || q == l) by {
                    lemma_occurs_step(q, done, s, p);
                }
                assert forall|q: Seq<u8>| #[trigger]
                    prefix_count(next, q) == prefix_count(cur, q) + if q == l {
                        1nat
                    } else {
                        0nat
                    } by {
                    lemma_prefix_count_push(done, s.take(p), q);
                    lemma_prefix_count_push(done, l, q);
                    lemma_is_prefix_take_step(q, s, p);
                }
                lemma_prefix_count_push(done, s.take(p), l);
                lemma_prefix_count_le(done, l);
                lemma_prefix_list_step(done, s, p);
            }
            match find_tree_child(&nodes[node_idx], byte) {
                Some(k) => {
                    proof {
                        let c = nodes@[node_idx as int].children@[k as int];
                        assert(labels[c.target as int] == labels[node_idx as int].push(byte));
                    }
                    node_idx = tree_follow(&mut nodes, node_idx, k, Ghost(cur), Ghost(next), Ghost(done));
                },
                None => {
                    proof {
                        if labels.contains(l) {
                            let k = choose|k: int|
                                0 <= k < nodes@[node_idx as int].children.len() && (#[trigger] nodes@[node_idx as int].children@[k]).byte
                                    == byte;
                            assert(false);
                        }
                        if done.contains(l) {
                            let j = choose|j: int| 0 <= j < done.len() && done[j] == l;
                            assert(l.take(l.len() as int) =~= l);
                            assert(is_prefix(l, cur[j]));
                            assert(labels.contains(l));
                        }
                        assert forall|j: int| 0 <= j < done.len() implies !#[trigger] is_prefix(
                            l,
                            done[j],
                        ) by {
                            if is_prefix(l, done[j]) {
                                assert(is_prefix(l, cur[j]));
                                assert(labels.contains(l));
                            }
                        }
                        lemma_prefix_count_zero(done, l);
                    }
                    node_idx = tree_add(&mut nodes, node_idx, byte, Ghost(cur), Ghost(next), Ghost(done));
                },
            }
            pos += 1;
        }
        let ghost pre = nodes@;
        nodes[node_idx].terminal = true;
        proof {
            assert(s.take(s.len() as int) =~= s);
            lemma_tree_mark(pre, nodes@, node_idx as int, done, s);
        }
        i += 1;
    }
    assert(total.take(sequences@.len() as int) =~= total);
    let mut idx = 0usize;
    while idx < nodes.len()
        invariant
            idx <= nodes@.len(),
            tree_inv(nodes@, total, total),
            forall|j: int| 0 <= j < idx ==> children_sorted(#[trigger] nodes@[j].children@),
        decreases nodes@.len() - idx,
    {
        let ghost pre = nodes@;
        proof {
            assert forall|k1: int, k2: int|
                #![trigger pre[idx as int].children@[k1], pre[idx as int].children@[k2]]
                0 <= k1 < pre[idx as int].children@.len() && 0 <= k2 < pre[idx as int].children@.len()
                    && k1 != k2 implies pre[idx as int].children@[k1].byte
                != pre[idx as int].children@[k2].byte by {}
        }
        sort_children(&mut nodes[idx].children);
        proof {
            lemma_tree_permute(pre, nodes@, idx as int, total, total);
            assert forall|j: int| 0 <= j < idx + 1 implies children_sorted(#[trigger] nodes@[j].children@) by {
                if j < idx {
                    assert(nodes@[j] == pre[j]);
                }
            }
        }
        idx += 1;
    }
    nodes
}

/// One arm of a generated `match` on a candidate byte.
pub struct MatchArm {
    pub byte: u8,
    pub next: Box<Matcher>,
}

/// The decision tree that the generated `contains` function follows.
pub enum Matcher {
    /// `false`.
    Reject,
    /// `len == depth`: a terminal node without children.
    LengthIs(usize),
    /// `if len == depth { terminal } else { match candidate.get(depth) { arms, _ => false } }`.
    Branch { depth: usize, terminal: bool, arms: Vec<MatchArm> },
}

/// Whether the decision tree answers `true` for `candidate`.
pub open spec fn accepts(m: Matcher, candidate: Seq<u8>) -> bool
    decreases m,
{
    match m {
        Matcher::Reject => false,
        Matcher::LengthIs(depth) => candidate.len() == depth,
        Matcher::Branch { depth, terminal, arms } => if candidate.len() == depth {
            terminal
        } else {
            arms_accept(arms@, 0, candidate, depth)
        },
    }
}

/// The first arm from `i` on whose byte is `candidate[depth]` decides; with
/// none, the answer is `false`.
pub open spec fn arms_accept(arms: Seq<MatchArm>, i: int, candidate: Seq<u8>, depth: usize) -> bool
    decreases arms, arms.len() - i,
{
    if 0 <= i < arms.len() {
        if depth < candidate.len() && candidate[depth as int] == arms[i].byte {
            accepts(*arms[i].next, candidate)
        } else {
            arms_accept(arms, i + 1, candidate, depth)
        }
    } else {
        false
    }
}

/// `m` is the decision tree generated for node `index` of `tree`, whose label
/// has length `depth`: for a node without children, `LengthIs(depth)` when it
/// is terminal and `Reject` otherwise; for any other node, a branch on `depth`
/// with the node's terminal flag and one arm per child edge, in the children's
/// order, each arm leading to the tree of the child.
pub open spec fn decides_tree(m: Matcher, tree: Seq<TrieNode>, index: int, depth: int) -> bool
    decreases m,
{
    match m {
        Matcher::Reject => tree[index].children.len() == 0 && !tree[index].terminal,
        Matcher::LengthIs(d) => tree[index].children.len() == 0 && tree[index].terminal && d
            == depth,
        Matcher::Branch { depth: d, terminal, arms } => {
            &&& tree[index].children.len() > 0
            &&& d == depth
            &&& terminal == tree[index].terminal
            &&& arms.len() == tree[index].children.len()
            &&& arms_decide_tree(arms@, 0, tree, index, depth)
        },
    }
}

/// Arms `i..` follow the child edges `i..` of node `index` of `tree`.
pub open spec fn arms_decide_tree(
    arms: Seq<MatchArm>,
    i: int,
    tree: Seq<TrieNode>,
    index: int,
    depth: int,
) -> bool
    decreases arms, arms.len() - i,
{
    if 0 <= i < arms.len() {
        let c = tree[index].children@[i];
        &&& arms[i].byte == c.byte
        &&& decides_tree(*arms[i].next, tree, c.target as int, depth + 1)
        &&& arms_decide_tree(arms, i + 1, tree, index, depth)
    } else {
        true
    }
}

/// `m` is the decision tree for node `index` of the flat tables, whose label has
/// length `depth`, with the same shape as `decides_tree`.
pub open spec fn decides_table(
    m: Matcher,
    nodes: Seq<Node>,
    edges: Seq<Edge>,
    index: int,
    depth: int,
) -> bool
    decreases m,
{
    match m {
        Matcher::Reject => nodes[index].child_len == 0 && !nodes[index].terminal,
        Matcher::LengthIs(d) => nodes[index].child_len == 0 && nodes[index].terminal && d == depth,
        Matcher::Branch { depth: d, terminal, arms } => {
            &&& nodes[index].child_len > 0
            &&& d == depth
            &&& terminal == nodes[index].terminal
            &&& arms.len() == nodes[index].child_len
            &&& arms_decide_table(arms@, 0, nodes, edges, index, depth)
        },
    }
}

/// Arms `i..` follow the child edges `i..` of node `index` of the flat tables.
pub open spec fn arms_decide_table(
    arms: Seq<MatchArm>,
    i: int,
    nodes: Seq<Node>,
    edges: Seq<Edge>,
    index: int,
    depth: int,
) -> bool
    decreases arms, arms.len() - i,
{
    if 0 <= i < arms.len() {
        let e = edges[nodes[index].child_start + i];
        &&& arms[i].byte == e.byte
        &&& decides_table(*arms[i].next, nodes, edges, e.target as int, depth + 1)
        &&& arms_decide_table(arms, i + 1, nodes, edges, index, depth)
    } else {
        true
    }
}

/// The flat tables mirror the tree: same terminal flags and child counts, and
/// node `i`'s child `t` stored at edge `child_start + t`.
pub open spec fn tables_mirror_tree(tree: Seq<TrieNode>, nodes: Seq<Node>, edges: Seq<Edge>) -> bool {
    &&& nodes.len() == tree.len()
    &&& forall|i: int|
        0 <= i < nodes.len() ==> {
            &&& (#[trigger] nodes[i]).terminal == tree[i].terminal
            &&& nodes[i].child_len == tree[i].children.len()
        }
    &&& forall|i: int, t: int|
        #![trigger tree[i].children@[t]]
        0 <= i < nodes.len() && 0 <= t < tree[i].children.len() ==> {
            let c = tree[i].children@[t];
            edges[nodes[i].child_start + t] == (Edge { byte: c.byte, target: c.target, weight: c.weight })
        }
}

/// A decision tree that follows the tree follows the tables that mirror it.
proof fn lemma_decides_table(
    m: Matcher,
    tree: Seq<TrieNode>,
    nodes: Seq<Node>,
    edges: Seq<Edge>,
    index: int,
    depth: int,
)
    requires
        decides_tree(m, tree, index, depth),
        tables_mirror_tree(tree, nodes, edges),
        forall|i: int, t: int|
            #![trigger tree[i].children@[t]]
            0 <= i < tree.len() && 0 <= t < tree[i].children.len() ==> tree[i].children@[t].target
                < tree.len(),
        0 <= index < tree.len(),
    ensures
        decides_table(m, nodes, edges, index, depth),
    decreases m,
{
    match m {
        Matcher::Branch { depth: d, terminal, arms } => {
            lemma_arms_decide_table(arms@, 0, tree, nodes, edges, index, depth);
        },
        _ => {
            assert(nodes[index].terminal == tree[index].terminal);
        },
    }
}

/// Arms that follow the tree follow the mirroring tables.
proof fn lemma_arms_decide_table(
    arms: Seq<MatchArm>,
    i: int,
    tree: Seq<TrieNode>,
    nodes: Seq<Node>,
    edges: Seq<Edge>,
    index: int,
    depth: int,
)
    requires
        arms_decide_tree(arms, i, tree, index, depth),
        tables_mirror_tree(tree, nodes, edges),
        forall|i: int, t: int|
            #![trigger tree[i].children@[t]]
            0 <= i < tree.len() && 0 <= t < tree[i].children.len() ==> tree[i].children@[t].target
                < tree.len(),
        0 <= index < tree.len(),
        arms.len() <= tree[index].children.len(),
    ensures
        arms_decide_table(arms, i, nodes, edges, index, depth),
    decreases arms, arms.len() - i,
{
    if 0 <= i < arms.len() {
        let c = tree[index].children@[i];
        assert(edges[nodes[index].child_start + i] == Edge { byte: c.byte, target: c.target, weight: c.weight });
        lemma_decides_table(*arms[i].next, tree, nodes, edges, c.target as int, depth + 1);
        lemma_arms_decide_table(arms, i + 1, tree, nodes, edges, index, depth);
    }
}

/// Arms built one per child, each following its child, follow the node.
proof fn lemma_arms_decide_tree(
    arms: Seq<MatchArm>,
    i: int,
    tree: Seq<TrieNode>,
    index: int,
    depth: int,
)
    requires
        0 <= i <= arms.len(),
        arms.len() == tree[index].children.len(),
        forall|t: int|
            i <= t < arms.len() ==> {
                &&& (#[trigger] arms[t]).byte == tree[index].children@[t].byte
                &&& decides_tree(*arms[t].next, tree, tree[index].children@[t].target as int, depth + 1)
            },
    ensures
        arms_decide_tree(arms, i, tree, index, depth),
    decreases arms.len() - i,
{
    if i < arms.len() {
        lemma_arms_decide_tree(arms, i + 1, tree, index, depth);
    }
}

/// With an arm `t` for the candidate's byte, that arm decides; without one,
/// nothing is accepted.
proof fn lemma_arms_accept(arms: Seq<MatchArm>, i: int, candidate: Seq<u8>, depth: usize)
    requires
        0 <= i <= arms.len(),
        depth < candidate.len(),
        forall|t1: int, t2: int|
            #![trigger arms[t1], arms[t2]]
            0 <= t1 < arms.len() && 0 <= t2 < arms.len() && t1 != t2 ==> arms[t1].byte
                != arms[t2].byte,
    ensures
        (forall|t: int| i <= t < arms.len() ==> (#[trigger] arms[t]).byte != candidate[depth as int])
            ==> !arms_accept(arms, i, candidate, depth),
        forall|t: int|
            i <= t < arms.len() && (#[trigger] arms[t]).byte == candidate[depth as int] ==> arms_accept(
                arms,
                i,
                candidate,
                depth,
            ) == accepts(*arms[t].next, candidate),
    decreases arms.len() - i,
{
    if i < arms.len() {
        lemma_arms_accept(arms, i + 1, candidate, depth);
        assert forall|t: int|
            i <= t < arms.len() && (#[trigger] arms[t]).byte == candidate[depth as int] implies arms_accept(
            arms,
            i,
            candidate,
            depth,
        ) == accepts(*arms[t].next, candidate) by {
            if t != i {
                assert(arms[t].byte != arms[i].byte);
            }
        }
    }
}

/// The decision tree for the subtrie at `index`, whose label has length
/// `depth`: it accepts a candidate extending that label exactly when the
/// candidate is one of the sequences.
fn generate_node_expr(
    nodes: &[TrieNode],
    index: usize,
    depth: usize,
    Ghost(seqs): Ghost<Seq<Seq<u8>>>,
) -> (m: Matcher)
    requires
        tree_inv(nodes@, seqs, seqs),
        index < nodes@.len(),
        depth == tree_labels(seqs)[index as int].len(),
        forall|j: int| 0 <= j < seqs.len() ==> (#[trigger] seqs[j]).len() <= usize::MAX,
    ensures
        forall|c: Seq<u8>|
            is_prefix(tree_labels(seqs)[index as int], c) ==> (#[trigger] accepts(m, c)
                <==> seqs.contains(c)),
        decides_tree(m, nodes@, index as int, depth as int),
    decreases nodes@.len() - index,
{
    let ghost labels = tree_labels(seqs);
    let ghost label = labels[index as int];
    let node = &nodes[index];
    proof {
        assert forall|c: Seq<u8>| is_prefix(label, c) && c.len() > depth && seqs.contains(c) implies exists|k: int|
            0 <= k < node.children.len() && (#[trigger] node.children@[k]).byte == c[depth as int] by {
            let next = c.take(depth + 1);
            assert(label.push(c[depth as int]) =~= next);
            let j = choose|j: int| 0 <= j < seqs.len() && seqs[j] == c;
            assert(c.take(next.len() as int) =~= next);
            assert(is_prefix(next, seqs[j]));
            assert(labels.contains(next));
        }
        assert forall|c: Seq<u8>| is_prefix(label, c) && c.len() == depth implies c == label by {
            assert(c.take(depth as int) =~= c);
        }
    }
    if node.children.len() == 0 {
        if node.terminal {
            Matcher::LengthIs(depth)
        } else {
            Matcher::Reject
        }
    } else {
        let mut arms: Vec<MatchArm> = Vec::with_capacity(node.children.len());
        let mut k = 0usize;
        while k < node.children.len()
            invariant
                tree_inv(nodes@, seqs, seqs),
                labels == tree_labels(seqs),
                index < nodes@.len(),
                *node == nodes@[index as int],
                depth == labels[index as int].len(),
                forall|j: int| 0 <= j < seqs.len() ==> (#[trigger] seqs[j]).len() <= usize::MAX,
                k <= node.children.len(),
                arms@.len() == k,
                forall|t: int| 0 <= t < k ==> (#[trigger] arms@[t]).byte == node.children@[t].byte,
                forall|t: int|
                    0 <= t < k ==> decides_tree(
                        *(#[trigger] arms@[t]).next,
                        nodes@,
                        node.children@[t].target as int,
                        depth + 1,
                    ),
                forall|t: int, c: Seq<u8>|
                    #![trigger accepts(*arms@[t].next, c)]
                    0 <= t < k && is_prefix(labels[node.children@[t].target as int], c) ==> (accepts(
                        *arms@[t].next,
                        c,
                    ) <==> seqs.contains(c)),
            decreases node.children.len() - k,
        {
            let edge = node.children[k];
            proof {
                let child_label = labels[edge.target as int];
                assert(child_label == labels[index as int].push(edge.byte));
                assert(labels.contains(child_label));
                let j = choose|j: int| 0 <= j < seqs.len() && #[trigger] is_prefix(child_label, seqs[j]);
            }
            let child_expr = generate_node_expr(nodes, edge.target, depth + 1, Ghost(seqs));
            arms.push(MatchArm { byte: edge.byte, next: Box::new(child_expr) });
            proof {
                assert forall|t: int, c: Seq<u8>|
                    #![trigger accepts(*arms@[t].next, c)]
                    0 <= t < k + 1 && is_prefix(labels[node.children@[t].target as int], c) implies (accepts(
                        *arms@[t].next,
                        c,
                    ) <==> seqs.contains(c)) by {
                    if t == k {
                        assert(arms@[t].next == Box::new(child_expr));
                    }
                }
                assert(arms@[k as int].next == Box::new(child_expr));
            }
            k += 1;
        }
        let ghost arms_seq = arms@;
        proof {
            lemma_arms_decide_tree(arms_seq, 0, nodes@, index as int, depth as int);
        }
        let m = Matcher::Branch { depth, terminal: node.terminal, arms };
        proof {
            assert(arms_seq.len() == node.children.len());
            assert forall|t1: int, t2: int|
                #![trigger arms_seq[t1], arms_seq[t2]]
                0 <= t1 < arms_seq.len() && 0 <= t2 < arms_seq.len() && t1 != t2 implies arms_seq[t1].byte
                    != arms_seq[t2].byte by {
                assert(node.children@[t1].byte != node.children@[t2].byte);
            }
            assert(node.terminal == seqs.contains(label));
            assert forall|c: Seq<u8>| is_prefix(label, c) implies (#[trigger] accepts(m, c) <==> seqs.contains(c)) by {
                if c.len() == depth {
                    assert(c == label);
                } else {
                    assert(c.len() > depth);
                    lemma_arms_accept(arms_seq, 0, c, depth);
                    let b = c[depth as int];
                    assert(accepts(m, c) == arms_accept(arms_seq, 0, c, depth));
                    if exists|t: int| 0 <= t < arms_seq.len() && (#[trigger] arms_seq[t]).byte == b {
                        let t = choose|t: int| 0 <= t < arms_seq.len() && (#[trigger] arms_seq[t]).byte == b;
                        let child_label = labels[node.children@[t].target as int];
                        assert(child_label == label.push(b));
                        assert(c.take(depth + 1) =~= label.push(b));
                        assert(c.take(child_label.len() as int) == child_label);
                        assert(is_prefix(child_label, c));
                        assert(accepts(*arms_seq[t].next, c) <==> seqs.contains(c));
                    } else {
                        if seqs.contains(c) {
                            let k = choose|k: int|
                                0 <= k < node.children.len() && (#[trigger] node.children@[k]).byte == b;
                            assert(arms_seq[k].byte == b);
                        }
                    }
                }
            }
        }
        m
    }
}

/// What the macro emits: the decision tree of the generated `contains`, the
/// flat node and edge tables, and the number of distinct sequences.
pub struct Expansion {
    pub matcher: Matcher,
    pub nodes: Vec<Node>,
    pub edges: Vec<Edge>,
    pub len: usize,
}

/// The trie of no sequences is a bare, non-terminal root.
proof fn lemma_empty_shape()
    ensures
        trie_shape(
            seq![empty_node()],
            Seq::<Edge>::empty(),
            1,
            0,
            tree_labels(Seq::<Seq<u8>>::empty()),
            Seq::<Seq<u8>>::empty(),
        ),
{
    let none = Seq::<Seq<u8>>::empty();
    let labels = tree_labels(none);
    assert(prefix_list(none) == seq![Seq::<u8>::empty()]);
    lemma_first_occurrences_push(none, Seq::<u8>::empty());
    assert(seq![Seq::<u8>::empty()] =~= none.push(Seq::<u8>::empty()));
    assert(first_occurrences(none) =~= none);
    assert(labels =~= seq![Seq::<u8>::empty()]);
    assert(labels.to_set() =~= prefix_set(none)) by {
        assert forall|q: Seq<u8>| labels.to_set().contains(q) <==> prefix_set(none).contains(q) by {
            lemma_prefix_set_contains(none, q);
            if q.len() == 0 {
                assert(q =~= Seq::<u8>::empty());
                assert(labels[0] == q);
            }
        }
    }
    assert forall|i: int, b: u8|
        0 <= i < 1 && #[trigger] prefix_set(none).contains(labels[i].push(b)) implies false by {
        lemma_prefix_set_contains(none, labels[i].push(b));
    }
}

/// The expansion for an empty macro input: a bare root, and a `contains` that
/// is always `false`.
pub fn expand_empty_byte_set() -> (x: Expansion)
    ensures
        x.len == 0,
        x.nodes@ == seq![empty_node()],
        x.edges@.len() == 0,
        forall|c: Seq<u8>| !accepts(x.matcher, c),
        decides_table(x.matcher, x.nodes@, x.edges@, 0, 0),
{
    let x = Expansion {
        matcher: Matcher::Reject,
        nodes: vec![Node { terminal: false, child_start: 0, child_len: 0 }],
        edges: Vec::new(),
        len: 0,
    };
    assert(x.nodes@ =~= seq![empty_node()]);
    x
}

/// Flat tables laid out from the macro's trie form the trie of its sequences.
proof fn lemma_layout_shape(
    tree: Seq<TrieNode>,
    nodes: Seq<Node>,
    edges: Seq<Edge>,
    seqs: Seq<Seq<u8>>,
)
    requires
        tree_inv(tree, seqs, seqs),
        forall|i: int| 0 <= i < tree.len() ==> children_sorted(#[trigger] tree[i].children@),
        nodes.len() == tree.len(),
        nodes[0].child_start == 0,
        forall|i: int|
            0 <= i < nodes.len() ==> {
                &&& (#[trigger] nodes[i]).terminal == tree[i].terminal
                &&& nodes[i].child_len == tree[i].children.len()
                &&& nodes[i].child_start + nodes[i].child_len <= edges.len()
            },
        forall|i: int|
            0 <= i < nodes.len() - 1 ==> (#[trigger] nodes[i + 1]).child_start == nodes[i].child_start
                + nodes[i].child_len,
        nodes[nodes.len() - 1].child_start + nodes[nodes.len() - 1].child_len == edges.len(),
        forall|i: int, t: int|
            #![trigger tree[i].children@[t]]
            0 <= i < nodes.len() && 0 <= t < tree[i].children.len() ==> {
                let c = tree[i].children@[t];
                edges[nodes[i].child_start + t] == (Edge {
                    byte: c.byte,
                    target: c.target,
                    weight: c.weight,
                })
            },
    ensures
        trie_shape(nodes, edges, nodes.len() as int, edges.len() as int, tree_labels(seqs), seqs),
{
    let labels = tree_labels(seqs);
    let n = nodes.len() as int;
    assert(labels.to_set() =~= prefix_set(seqs)) by {
        assert forall|q: Seq<u8>| labels.to_set().contains(q) <==> prefix_set(seqs).contains(q) by {
            lemma_prefix_set_contains(seqs, q);
        }
    }
    assert forall|i: int| 0 <= i < n implies (#[trigger] nodes[i]).terminal == seqs.contains(labels[i]) by {
        assert(tree[i].terminal == seqs.contains(labels[i]));
    }
    assert forall|i: int, k: int|
        #![trigger nodes[i], edges[k]]
        0 <= i < n && in_children(nodes[i], k) implies {
        &&& 0 < edges[k].target < n
        &&& labels[edges[k].target as int] == labels[i].push(edges[k].byte)
        &&& edges[k].weight == prefix_count(seqs, labels[edges[k].target as int])
    } by {
        let t = k - nodes[i].child_start;
        let c = tree[i].children@[t];
        assert(edges[k] == Edge { byte: c.byte, target: c.target, weight: c.weight });
    }
    assert forall|i: int, b: u8|
        0 <= i < n && #[trigger] prefix_set(seqs).contains(labels[i].push(b)) implies exists|k: int|
        in_children(nodes[i], k) && (#[trigger] edges[k]).byte == b by {
        lemma_prefix_set_contains(seqs, labels[i].push(b));
        assert(labels.contains(labels[i].push(b)));
        let t = choose|t: int| 0 <= t < tree[i].children.len() && (#[trigger] tree[i].children@[t]).byte == b;
        let c = tree[i].children@[t];
        assert(edges[nodes[i].child_start + t] == Edge { byte: c.byte, target: c.target, weight: c.weight });
        assert(in_children(nodes[i], nodes[i].child_start + t));
    }
    assert forall|i: int, k1: int, k2: int|
        #![trigger nodes[i], edges[k1], edges[k2]]
        0 <= i < n && in_children(nodes[i], k1) && in_children(nodes[i], k2) && k1 < k2 implies edge_before(
        edges[k1],
        edges[k2],
    ) by {
        let t1 = k1 - nodes[i].child_start;
        let t2 = k2 - nodes[i].child_start;
        let c1 = tree[i].children@[t1];
        let c2 = tree[i].children@[t2];
        assert(edges[k1] == Edge { byte: c1.byte, target: c1.target, weight: c1.weight });
        assert(edges[k2] == Edge { byte: c2.byte, target: c2.target, weight: c2.weight });
        assert(children_sorted(tree[i].children@));
        assert(tree_edge_before(c1, c2));
    }
}

/// Everything the `byte_set!` macro decides for its sequences: repeated
/// sequences are dropped, the generated `contains` accepts exactly the given
/// sequences, and the tables form their trie.
pub fn expand_byte_set(sequences: Vec<Vec<u8>>) -> (x: Expansion)
    ensures
        forall|c: Seq<u8>| #[trigger] accepts(x.matcher, c) <==> vec_views(sequences@).contains(c),
        x.len == first_occurrences(vec_views(sequences@)).len(),
        trie_shape(
            x.nodes@,
            x.edges@,
            x.nodes@.len() as int,
            x.edges@.len() as int,
            tree_labels(first_occurrences(vec_views(sequences@))),
            first_occurrences(vec_views(sequences@)),
        ),
        decides_table(x.matcher, x.nodes@, x.edges@, 0, 0),
        sequences@.len() == 0 ==> x.nodes@ == seq![empty_node()] && x.edges@.len() == 0,
{
    let ghost all = vec_views(sequences@);
    if sequences.len() == 0 {
        let x = expand_empty_byte_set();
        proof {
            assert(all =~= Seq::<Seq<u8>>::empty());
            assert(first_occurrences(all) =~= Seq::<Seq<u8>>::empty());
            lemma_empty_shape();
        }
        return x;
    }
    let sequences = remove_duplicates(sequences);
    let ghost unique = vec_views(sequences@);
    let unique_slice = sequences.as_slice();
    let trie = build_trie(unique_slice);
    proof {
        assert(unique_slice@ == sequences@);
        assert forall|j: int| 0 <= j < unique.len() implies (#[trigger] unique[j]).len() <= usize::MAX by {
            assert(sequences@[j].len() == sequences@[j]@.len());
        }
        assert(tree_labels(unique)[0].len() == 0);
    }
    let root_expr = generate_node_expr(trie.as_slice(), 0, 0, Ghost(unique));
    proof {
        assert forall|c: Seq<u8>| #[trigger] accepts(root_expr, c) <==> all.contains(c) by {
            assert(c.take(0) =~= Seq::<u8>::empty());
            assert(is_prefix(tree_labels(unique)[0], c));
            lemma_first_occurrences_contains(all, c);
        }
    }
    let node_count = trie.len();
    let mut node_defs: Vec<Node> = Vec::with_capacity(node_count);
    let mut edge_defs: Vec<Edge> = Vec::new();
    let mut edge_start = 0usize;
    let mut n = 0usize;
    while n < node_count
        invariant
            node_count == trie@.len(),
            n <= node_count,
            node_defs@.len() == n,
            edge_defs@.len() == edge_start,
            n == 0 ==> edge_start == 0,
            n > 0 ==> node_defs@[0].child_start == 0,
            n > 0 ==> node_defs@[n - 1].child_start + node_defs@[n - 1].child_len == edge_start,
            forall|i: int|
                0 <= i < n ==> {
                    &&& (#[trigger] node_defs@[i]).terminal == trie@[i].terminal
                    &&& node_defs@[i].child_len == trie@[i].children.len()
                    &&& node_defs@[i].child_start + node_defs@[i].child_len <= edge_start
                },
            forall|i: int|
                0 <= i < n - 1 ==> (#[trigger] node_defs@[i + 1]).child_start
                    == node_defs@[i].child_start + node_defs@[i].child_len,
            forall|i: int, t: int|
                #![trigger trie@[i].children@[t]]
                0 <= i < n && 0 <= t < trie@[i].children.len() ==> {
                    let c = trie@[i].children@[t];
                    edge_defs@[node_defs@[i].child_start + t] == (Edge {
                        byte: c.byte,
                        target: c.target,
                        weight: c.weight,
                    })
                },
        decreases node_count - n,
    {
        let terminal = trie[n].terminal;
        let child_start = edge_start;
        let child_len = trie[n].children.len();
        node_defs.push(Node { terminal, child_start, child_len });
        let ghost edges_before = edge_defs@;
        let mut k = 0usize;
        while k < child_len
            invariant
                n < node_count,
                node_count == trie@.len(),
                child_len == trie@[n as int].children.len(),
                k <= child_len,
                edge_defs@.len() == child_start + k,
                edges_before.len() == child_start,
                forall|a: int| 0 <= a < child_start ==> edge_defs@[a] == edges_before[a],
                forall|t: int|
                    #![trigger trie@[n as int].children@[t]]
                    0 <= t < k ==> {
                        let c = trie@[n as int].children@[t];
                        edge_defs@[child_start + t] == (Edge {
                            byte: c.byte,
                            target: c.target,
                            weight: c.weight,
                        })
                    },
            decreases child_len - k,
        {
            let child = trie[n].children[k];
            edge_defs.push(Edge { byte: child.byte, target: child.target, weight: child.weight });
            k += 1;
        }
        let total_edges = edge_defs.len();
        assert(total_edges == edge_start + child_len);
        edge_start += child_len;
        n += 1;
    }
    proof {
        lemma_layout_shape(trie@, node_defs@, edge_defs@, unique);
        lemma_decides_table(root_expr, trie@, node_defs@, edge_defs@, 0, 0);
    }
    Expansion { matcher: root_expr, nodes: node_defs, edges: edge_defs, len: sequences.len() }
}

/// For sequences without repetitions, the tables the macro emits are the used
/// part of the tables that `build_trie` lays out: both are the one trie of
/// those sequences.
pub proof fn lemma_expansion_matches_build_trie<const MAX_NODES: usize, const MAX_EDGES: usize>(
    x: Expansion,
    trie: Trie<MAX_NODES, MAX_EDGES>,
    seqs: Seq<Seq<u8>>,
)
    requires
        seqs.no_duplicates(),
        trie_shape(
            x.nodes@,
            x.edges@,
            x.nodes@.len() as int,
            x.edges@.len() as int,
            tree_labels(first_occurrences(seqs)),
            first_occurrences(seqs),
        ),
        trie.is_trie_of(seqs),
    ensures
        x.nodes@ == trie.nodes@.take(trie.node_count as int),
        x.edges@ == trie.edges@.take(trie.edge_count as int),
{
    lemma_first_occurrences_no_duplicates(seqs);
    let n = trie.node_count as int;
    lemma_trie_shape_unique(
        x.nodes@,
        x.edges@,
        x.edges@.len() as int,
        trie.nodes@,
        trie.edges@,
        trie.edge_count as int,
        n,
        first_occurrences(prefix_list(seqs)),
        seqs,
    );
    assert(x.nodes@.take(n) =~= x.nodes@);
    assert(x.edges@.take(x.edges@.len() as int) =~= x.edges@);
}

/// The child edges of a node of the macro's trie, as table edges.
pub open spec fn tree_child_edges(tree: Seq<TrieNode>, i: int) -> Seq<Edge> {
    tree[i].children@.map_values(|c: TrieEdge| Edge { byte: c.byte, target: c.target, weight: c.weight })
}

/// The macro's trie builder and `build_trie` build the same trie from the same
/// sequences, repetitions included: the same nodes, in the same order, with the
/// same terminal flags, and the same child edges in the same order.
#[verifier::spinoff_prover]
pub proof fn lemma_macro_trie_matches_build_trie<const MAX_NODES: usize, const MAX_EDGES: usize>(
    tree: Seq<TrieNode>,
    trie: Trie<MAX_NODES, MAX_EDGES>,
    seqs: Seq<Seq<u8>>,
)
    requires
        tree_inv(tree, seqs, seqs),
        forall|i: int| 0 <= i < tree.len() ==> children_sorted(#[trigger] tree[i].children@),
        trie.is_trie_of(seqs),
    ensures
        tree.len() == trie.node_count,
        forall|i: int|
            0 <= i < tree.len() ==> {
                &&& (#[trigger] tree[i]).terminal == trie.nodes[i].terminal
                &&& tree[i].children.len() == trie.nodes[i].child_len
            },
        forall|i: int, j: int|
            #![trigger tree[i].children@[j]]
            0 <= i < tree.len() && 0 <= j < tree[i].children.len() ==> {
                let c = tree[i].children@[j];
                let e = trie.edges[trie.nodes[i].child_start + j];
                &&& c.byte == e.byte
                &&& c.target == e.target
                &&& c.weight == e.weight
            },
{
    let labels = tree_labels(seqs);
    let nodes = trie.nodes@;
    let edges = trie.edges@;
    let n = trie.node_count as int;
    assert(tree.len() == n);
    assert forall|i: int| 0 <= i < n implies #[trigger] tree_child_edges(tree, i) == child_edges(nodes, edges, i) by {
        let t = tree_child_edges(tree, i);
        let c = child_edges(nodes, edges, i);
        let s = nodes[i].child_start as int;
        assert forall|x: Edge| t.contains(x) implies c.contains(x) by {
            let j = choose|j: int| 0 <= j < t.len() && t[j] == x;
            let ch = tree[i].children@[j];
            assert(labels[ch.target as int] == labels[i].push(ch.byte));
            assert(labels.to_set().contains(labels[i].push(ch.byte)));
            let k = choose|k: int| in_children(nodes[i], k) && (#[trigger] edges[k]).byte == ch.byte;
            assert(labels[edges[k].target as int] == labels[i].push(ch.byte));
            assert(edges[k].target == ch.target);
            assert(edges[k] == x);
            assert(c[k - s] == x);
        }
        assert forall|x: Edge| c.contains(x) implies t.contains(x) by {
            let k0 = choose|k0: int| 0 <= k0 < c.len() && c[k0] == x;
            let k = s + k0;
            assert(edges[k] == x);
            assert(in_children(nodes[i], k));
            assert(labels[x.target as int] == labels[i].push(x.byte));
            assert(labels.contains(labels[i].push(x.byte)));
            let j = choose|j: int| 0 <= j < tree[i].children.len() && (#[trigger] tree[i].children@[j]).byte == x.byte;
            let ch = tree[i].children@[j];
            assert(labels[ch.target as int] == labels[i].push(x.byte));
            assert(ch.target == x.target);
            assert(t[j] == x);
        }
        assert forall|a: int, b: int| #![trigger t[a], t[b]] 0 <= a < b < t.len() implies edge_before(t[a], t[b]) by {
            assert(tree_edge_before(tree[i].children@[a], tree[i].children@[b]));
        }
        assert forall|a: int, b: int| #![trigger c[a], c[b]] 0 <= a < b < c.len() implies edge_before(c[a], c[b]) by {
            assert(edge_before(edges[s + a], edges[s + b]));
        }
        lemma_sorted_edges_unique(t, c);
    }
    assert forall|i: int| 0 <= i < tree.len() implies {
        &&& (#[trigger] tree[i]).terminal == trie.nodes[i].terminal
        &&& tree[i].children.len() == trie.nodes[i].child_len
    } by {
        assert(tree_child_edges(tree, i) == child_edges(nodes, edges, i));
    }
    assert forall|i: int, j: int|
        #![trigger tree[i].children@[j]]
        0 <= i < tree.len() && 0 <= j < tree[i].children.len() implies {
        let c = tree[i].children@[j];
        let e = trie.edges[trie.nodes[i].child_start + j];
        &&& c.byte == e.byte
        &&& c.target == e.target
        &&& c.weight == e.weight
    } by {
        assert(tree_child_edges(tree, i) == child_edges(nodes, edges, i));
        assert(tree_child_edges(tree, i)[j] == child_edges(nodes, edges, i)[j]);
    }
}

} // verus!
