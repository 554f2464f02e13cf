use comtains::{build_trie, total_bytes, ByteSet, Edge, Node, Trie};

const EXAMPLE_SEQUENCES: [&[u8]; 4] = [b"\xA0\xB1", b"\xA1\xB2", b"\xA1\xB2\xC3", b"\xA1\xB2\xC4"];

fn leak<const NODES: usize, const EDGES: usize>(trie: Trie<NODES, EDGES>) -> &'static Trie<NODES, EDGES> {
    Box::leak(Box::new(trie))
}

fn example_set() -> ByteSet {
    ByteSet::from_trie(leak(build_trie::<4, 11, 10>(&EXAMPLE_SEQUENCES)))
}

#[test]
fn finds_present_sequences() {
    let set = example_set();
    assert!(set.contains(b"\xA0\xB1"));
    assert!(set.contains(b"\xA1\xB2"));
    assert!(set.contains(b"\xA1\xB2\xC3"));
    assert!(set.contains(b"\xA1\xB2\xC4"));
}

#[test]
fn rejects_missing_sequences() {
    let set = example_set();
    assert!(!set.contains(b""));
    assert!(!set.contains(b"\xA1"));
    assert!(!set.contains(b"\xA1\xB2\x00"));
    assert!(!set.contains(b"\xA1\xB3"));
    assert!(!set.contains(b"\xA1\xB2\xC5"));
}

#[test]
fn exposes_weighted_trie_structure() {
    let set = example_set();
    let nodes = set.debug_nodes();
    let edges = set.debug_edges();

    assert!(
        nodes.len() >= 3,
        "expected at least three nodes in the trie"
    );
    let root = &nodes[0];
    assert!(
        root.child_len >= 2,
        "root should branch to shared A0 and A1 prefixes"
    );

    let first_child = &edges[root.child_start];
    let second_child = &edges[root.child_start + 1];

    assert_eq!(first_child.byte, 0xA1, "most common prefix should be A1");
    assert_eq!(
        first_child.weight, 3,
        "A1 branch should cover three sequences"
    );
    assert_eq!(
        second_child.byte, 0xA0,
        "less common branch should come second"
    );
    assert_eq!(
        second_child.weight, 1,
        "A0 branch should cover one sequence"
    );

    let shared_node = &nodes[first_child.target];
    assert!(
        shared_node.child_len >= 1,
        "branch A1 should have further children"
    );

    let mut found_b2 = false;
    let mut idx = shared_node.child_start;
    while idx < shared_node.child_start + shared_node.child_len {
        if edges[idx].byte == 0xB2 {
            assert_eq!(
                edges[idx].weight, 3,
                "A1B2 should be shared by all remaining sequences"
            );
            found_b2 = true;
            break;
        }
        idx += 1;
    }
    assert!(found_b2, "expected a child edge for byte B2 after A1");
}

#[test]
fn example_trie_has_one_node_per_prefix() {
    let trie = build_trie::<4, 11, 10>(&EXAMPLE_SEQUENCES);
    // [], A0, A0B1, A1, A1B2, A1B2C3, A1B2C4
    assert_eq!(trie.node_count, 7);
    assert_eq!(trie.edge_count, 6);
    assert_eq!(trie.sequence_count, 4);
    // Child ranges follow one another.
    let mut next_start = 0;
    for node in &trie.nodes[..trie.node_count] {
        assert_eq!(node.child_start, next_start);
        next_start += node.child_len;
    }
    assert_eq!(next_start, trie.edge_count);
    // Unused slots stay empty.
    for node in &trie.nodes[trie.node_count..] {
        assert_eq!(*node, Node::empty());
    }
    for edge in &trie.edges[trie.edge_count..] {
        assert_eq!(*edge, Edge::empty());
    }
}

#[test]
fn example_trie_exact_layout() {
    let trie = build_trie::<4, 11, 10>(&EXAMPLE_SEQUENCES);
    // Nodes in order of first occurrence: [], A0, A0B1, A1, A1B2, A1B2C3, A1B2C4.
    let expected_nodes = [
        (false, 0, 2),
        (false, 2, 1),
        (true, 3, 0),
        (false, 3, 1),
        (true, 4, 2),
        (true, 6, 0),
        (true, 6, 0),
    ];
    for (i, (terminal, start, len)) in expected_nodes.iter().enumerate() {
        assert_eq!(trie.nodes[i], Node { terminal: *terminal, child_start: *start, child_len: *len });
    }
    let expected_edges = [
        (0xA1, 3, 3),
        (0xA0, 1, 1),
        (0xB1, 2, 1),
        (0xB2, 4, 3),
        (0xC3, 5, 1),
        (0xC4, 6, 1),
    ];
    for (k, (byte, target, weight)) in expected_edges.iter().enumerate() {
        assert_eq!(trie.edges[k], Edge { byte: *byte, target: *target, weight: *weight });
    }
}

#[test]
fn siblings_ordered_by_weight_then_byte() {
    let sequences: [&[u8]; 5] = [b"\x05", b"\x03", b"\x04\x01", b"\x04\x02", b"\x01"];
    let set = ByteSet::from_trie(leak(build_trie::<5, 8, 7>(&sequences)));
    let nodes = set.debug_nodes();
    let edges = set.debug_edges();
    let root = nodes[0];
    let bytes: Vec<u8> = edges[root.child_start..root.child_start + root.child_len]
        .iter()
        .map(|e| e.byte)
        .collect();
    // 0x04 carries two sequences; the rest one each, smallest byte first.
    assert_eq!(bytes, vec![0x04, 0x01, 0x03, 0x05]);
    let weights: Vec<usize> = edges[root.child_start..root.child_start + root.child_len]
        .iter()
        .map(|e| e.weight)
        .collect();
    assert_eq!(weights, vec![2, 1, 1, 1]);
}

#[test]
fn duplicates_count_once_in_len_but_in_every_weight() {
    let sequences: [&[u8]; 3] = [b"ab", b"ab", b"a"];
    let set = ByteSet::from_trie(leak(build_trie::<3, 6, 5>(&sequences)));
    assert_eq!(set.len(), 2);
    assert!(!set.is_empty());
    assert!(set.contains(b"ab"));
    assert!(set.contains(b"a"));
    assert!(!set.contains(b"b"));
    let edges = set.debug_edges();
    assert_eq!(edges[0], Edge { byte: b'a', target: 1, weight: 3 });
    assert_eq!(edges[1], Edge { byte: b'b', target: 2, weight: 2 });
    assert_eq!(set.debug_nodes().len(), 3);
}

#[test]
fn empty_sequence_is_a_member_of_its_set() {
    let sequences: [&[u8]; 2] = [b"", b"x"];
    let set = ByteSet::from_trie(leak(build_trie::<2, 2, 1>(&sequences)));
    assert!(set.contains(b""));
    assert!(set.contains(b"x"));
    assert!(!set.contains(b"xx"));
    assert!(set.debug_nodes()[0].terminal);
}

#[test]
fn empty_set_contains_nothing() {
    let sequences: [&[u8]; 0] = [];
    let set = ByteSet::from_trie(leak(build_trie::<0, 1, 0>(&sequences)));
    assert_eq!(set.len(), 0);
    assert!(set.is_empty());
    assert!(!set.contains(b""));
    assert!(!set.contains(b"\x00"));
    assert_eq!(set.debug_nodes().len(), 1);
    assert_eq!(set.debug_edges().len(), 0);
}

#[test]
fn tight_capacity_is_enough() {
    // Two distinct prefixes besides the root need exactly three nodes and two edges.
    let sequences: [&[u8]; 2] = [b"ab", b"a"];
    let set = ByteSet::from_trie(leak(build_trie::<2, 3, 2>(&sequences)));
    assert!(set.contains(b"a"));
    assert!(set.contains(b"ab"));
    assert!(!set.contains(b"b"));
}

#[test]
fn total_bytes_sums_lengths() {
    assert_eq!(total_bytes(&EXAMPLE_SEQUENCES), 10);
    let none: [&[u8]; 0] = [];
    assert_eq!(total_bytes(&none), 0);
    let sequences: [&[u8]; 3] = [b"", b"abc", b"de"];
    assert_eq!(total_bytes(&sequences), 5);
}

#[test]
fn empty_values_are_zero() {
    assert_eq!(Node::empty(), Node { terminal: false, child_start: 0, child_len: 0 });
    assert_eq!(Edge::empty(), Edge { byte: 0, target: 0, weight: 0 });
}

#[test]
fn http_methods_from_readme() {
    let sequences: [&[u8]; 4] = [b"GET", b"POST", b"PUT", b"PATCH"];
    let set = ByteSet::from_trie(leak(build_trie::<4, 16, 15>(&sequences)));
    assert!(set.contains(b"GET"));
    assert!(!set.contains(b"DELETE"));
    assert!(set.contains(b"PATCH"));
    assert!(!set.contains(b"PU"));
    assert_eq!(set.len(), 4);
}

#[test]
fn build_trie_counts_distinct_sequences() {
    let sequences: [&[u8]; 4] = [b"x", b"", b"x", b""];
    let trie = build_trie::<4, 3, 2>(&sequences);
    assert_eq!(trie.sequence_count, 2);
    assert_eq!(trie.node_count, 2);
    assert_eq!(trie.edges[0], Edge { byte: b'x', target: 1, weight: 2 });
}

#[test]
fn set_over_a_hand_made_trie_follows_the_first_matching_edge() {
    // The root has two edges for b'a'; a lookup takes the first one.
    let trie = Trie::<3, 2> {
        nodes: [
            Node { terminal: false, child_start: 0, child_len: 2 },
            Node { terminal: false, child_start: 2, child_len: 0 },
            Node { terminal: true, child_start: 2, child_len: 0 },
        ],
        edges: [Edge { byte: b'a', target: 1, weight: 1 }, Edge { byte: b'a', target: 2, weight: 1 }],
        node_count: 3,
        edge_count: 2,
        sequence_count: 7,
    };
    let set = ByteSet::from_trie(leak(trie));
    assert!(!set.contains(b"a"));
    assert!(!set.contains(b""));
    assert!(!set.contains(b"b"));
    assert_eq!(set.len(), 7);
    assert!(!set.is_empty());
    assert_eq!(set.debug_nodes().len(), 3);
    assert_eq!(set.debug_edges().len(), 2);
}

#[test]
fn set_over_a_hand_made_trie_stops_at_targets_out_of_range() {
    let trie = Trie::<2, 2> {
        nodes: [
            Node { terminal: true, child_start: 0, child_len: 2 },
            Node { terminal: true, child_start: 2, child_len: 0 },
        ],
        edges: [Edge { byte: b'a', target: 5, weight: 0 }, Edge { byte: b'b', target: 1, weight: 0 }],
        node_count: 2,
        edge_count: 2,
        sequence_count: 0,
    };
    let set = ByteSet::from_trie(leak(trie));
    assert!(set.contains(b""));
    assert!(!set.contains(b"a"));
    assert!(!set.contains(b"ab"));
    assert!(set.contains(b"b"));
    assert!(set.is_empty());
}

#[test]
fn set_over_a_trie_without_nodes_contains_nothing() {
    let trie = Trie::<1, 0> {
        nodes: [Node::empty()],
        edges: [],
        node_count: 0,
        edge_count: 0,
        sequence_count: 0,
    };
    let set = ByteSet::from_trie(leak(trie));
    assert!(!set.contains(b""));
    assert!(!set.contains(b"a"));
    assert_eq!(set.debug_nodes().len(), 0);
}
