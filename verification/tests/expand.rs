use comtains::expand::{
    build_trie, expand_byte_set, expand_empty_byte_set, parse_byte, parse_sequence,
    remove_duplicates, ArrayElement, ElementError, Matcher, SequenceError, SequenceExpr,
};
use comtains::{build_trie as build_table_trie, Edge, Node};

/// Runs a decision tree the way the generated `contains` function does.
fn run(matcher: &Matcher, candidate: &[u8]) -> bool {
    let len = candidate.len();
    match matcher {
        Matcher::Reject => false,
        Matcher::LengthIs(depth) => len == *depth,
        Matcher::Branch { depth, terminal, arms } => {
            if len == *depth {
                *terminal
            } else {
                match candidate.get(*depth) {
                    Some(b) => match arms.iter().find(|arm| arm.byte == *b) {
                        Some(arm) => run(&arm.next, candidate),
                        None => false,
                    },
                    None => false,
                }
            }
        }
    }
}

fn owned(sequences: &[&[u8]]) -> Vec<Vec<u8>> {
    sequences.iter().map(|s| s.to_vec()).collect()
}

#[test]
fn parse_byte_accepts_byte_sized_literals() {
    assert_eq!(parse_byte(&ArrayElement::Int(0)), Ok(0));
    assert_eq!(parse_byte(&ArrayElement::Int(255)), Ok(255));
    assert_eq!(parse_byte(&ArrayElement::Byte(b'P')), Ok(b'P'));
    assert_eq!(parse_byte(&ArrayElement::Char('a')), Ok(97));
    assert_eq!(parse_byte(&ArrayElement::Char('\u{ff}')), Ok(255));
}

#[test]
fn parse_byte_rejects_everything_else() {
    assert_eq!(parse_byte(&ArrayElement::Int(256)), Err(ElementError::IntOutOfRange));
    assert_eq!(parse_byte(&ArrayElement::Int(65535)), Err(ElementError::IntOutOfRange));
    assert_eq!(parse_byte(&ArrayElement::WideInt), Err(ElementError::IntParse));
    assert_eq!(parse_byte(&ArrayElement::Char('\u{100}')), Err(ElementError::CharOutOfRange));
    assert_eq!(parse_byte(&ArrayElement::OtherLiteral), Err(ElementError::UnexpectedLiteral));
    assert_eq!(parse_byte(&ArrayElement::NotLiteral), Err(ElementError::NotLiteral));
}

#[test]
fn parse_sequence_reads_each_form() {
    assert_eq!(parse_sequence(&SequenceExpr::ByteStr(b"GET".to_vec())), Ok(b"GET".to_vec()));
    assert_eq!(parse_sequence(&SequenceExpr::Str("é".as_bytes().to_vec())), Ok(vec![0xC3, 0xA9]));
    let array = SequenceExpr::Array(vec![
        ArrayElement::Byte(b'P'),
        ArrayElement::Int(0x55),
        ArrayElement::Char('T'),
    ]);
    assert_eq!(parse_sequence(&array), Ok(b"PUT".to_vec()));
    let reference = SequenceExpr::Reference(Box::new(SequenceExpr::Array(vec![ArrayElement::Int(1)])));
    assert_eq!(parse_sequence(&reference), Ok(vec![1]));
    assert_eq!(parse_sequence(&SequenceExpr::Array(vec![])), Ok(vec![]));
}

#[test]
fn parse_sequence_reports_the_first_bad_element() {
    let array = SequenceExpr::Array(vec![
        ArrayElement::Int(1),
        ArrayElement::Int(300),
        ArrayElement::NotLiteral,
    ]);
    assert_eq!(
        parse_sequence(&array),
        Err(SequenceError::Element { index: 1, error: ElementError::IntOutOfRange })
    );
    let nested = SequenceExpr::Reference(Box::new(SequenceExpr::Array(vec![ArrayElement::OtherLiteral])));
    assert_eq!(
        parse_sequence(&nested),
        Err(SequenceError::Element { index: 0, error: ElementError::UnexpectedLiteral })
    );
    assert_eq!(parse_sequence(&SequenceExpr::OtherLiteral), Err(SequenceError::UnexpectedLiteral));
    assert_eq!(parse_sequence(&SequenceExpr::Other), Err(SequenceError::Unsupported));
}

#[test]
fn remove_duplicates_keeps_first_occurrences() {
    let unique = remove_duplicates(owned(&[b"ab", b"a", b"ab", b"", b"a", b""]));
    assert_eq!(unique, owned(&[b"ab", b"a", b""]));
    assert_eq!(remove_duplicates(vec![]), Vec::<Vec<u8>>::new());
}

#[test]
fn macro_trie_orders_children_by_weight() {
    let sequences = owned(&[b"\xA0\xB1", b"\xA1\xB2", b"\xA1\xB2\xC3", b"\xA1\xB2\xC4"]);
    let nodes = build_trie(&sequences);
    assert_eq!(nodes.len(), 7);
    let root = &nodes[0];
    assert!(!root.terminal);
    assert_eq!(root.children.len(), 2);
    assert_eq!((root.children[0].byte, root.children[0].weight), (0xA1, 3));
    assert_eq!((root.children[1].byte, root.children[1].weight), (0xA0, 1));
    let a1 = &nodes[root.children[0].target];
    assert_eq!((a1.children[0].byte, a1.children[0].weight), (0xB2, 3));
    let b2 = &nodes[a1.children[0].target];
    assert!(b2.terminal);
    assert_eq!(b2.children.len(), 2);
    assert_eq!(b2.children[0].byte, 0xC3);
    assert_eq!(b2.children[1].byte, 0xC4);
}

#[test]
fn macro_trie_root_terminal_for_empty_sequence() {
    let nodes = build_trie(&owned(&[b"", b"z"]));
    assert!(nodes[0].terminal);
    assert_eq!(nodes.len(), 2);
    assert!(nodes[1].terminal);
}

#[test]
fn generated_matcher_accepts_exactly_the_set() {
    let sequences = owned(&[b"GET", b"POST", b"PUT", b"PATCH"]);
    let matcher = expand_byte_set(sequences.clone()).matcher;
    for s in &sequences {
        assert!(run(&matcher, s));
    }
    for s in [&b""[..], b"G", b"GE", b"GETS", b"PU", b"DELETE", b"PATC", b"POSTT"] {
        assert!(!run(&matcher, s));
    }
}

#[test]
fn expansion_of_methods_example() {
    // The documented example: b"GET", b"POST", [b'P', b'U', b'T'].
    let put = parse_sequence(&SequenceExpr::Array(vec![
        ArrayElement::Byte(b'P'),
        ArrayElement::Byte(b'U'),
        ArrayElement::Byte(b'T'),
    ]))
    .unwrap();
    let x = expand_byte_set(vec![b"GET".to_vec(), b"POST".to_vec(), put]);
    assert!(run(&x.matcher, b"GET"));
    assert!(run(&x.matcher, b"PUT"));
    assert!(!run(&x.matcher, b"DELETE"));
    assert_eq!(x.len, 3);
}

#[test]
fn expansion_drops_duplicates_and_lays_out_tables() {
    let x = expand_byte_set(owned(&[b"ab", b"a", b"ab"]));
    assert_eq!(x.len, 2);
    assert_eq!(
        x.nodes,
        vec![
            Node { terminal: false, child_start: 0, child_len: 1 },
            Node { terminal: true, child_start: 1, child_len: 1 },
            Node { terminal: true, child_start: 2, child_len: 0 },
        ]
    );
    assert_eq!(
        x.edges,
        vec![Edge { byte: b'a', target: 1, weight: 2 }, Edge { byte: b'b', target: 2, weight: 1 }]
    );
    assert!(run(&x.matcher, b"a"));
    assert!(run(&x.matcher, b"ab"));
    assert!(!run(&x.matcher, b""));
    assert!(!run(&x.matcher, b"b"));
}

#[test]
fn expansion_of_nothing_rejects_everything() {
    let x = expand_byte_set(vec![]);
    assert_eq!(x.len, 0);
    assert_eq!(x.nodes, vec![Node::empty()]);
    assert!(x.edges.is_empty());
    assert!(!run(&x.matcher, b""));
    assert!(!run(&x.matcher, b"a"));
    let empty = expand_empty_byte_set();
    assert_eq!(empty.len, 0);
    assert_eq!(empty.nodes, vec![Node { terminal: false, child_start: 0, child_len: 0 }]);
    assert!(empty.edges.is_empty());
    assert!(matches!(empty.matcher, Matcher::Reject));
}

#[test]
fn expansion_with_only_the_empty_sequence() {
    let x = expand_byte_set(owned(&[b""]));
    assert_eq!(x.len, 1);
    assert!(run(&x.matcher, b""));
    assert!(!run(&x.matcher, b"\x00"));
    assert!(matches!(x.matcher, Matcher::LengthIs(0)));
}

#[test]
fn expansion_tables_match_library_trie() {
    let sequences: [&[u8]; 4] = [b"\xA0\xB1", b"\xA1\xB2", b"\xA1\xB2\xC3", b"\xA1\xB2\xC4"];
    let trie = build_table_trie::<4, 11, 10>(&sequences);
    let x = expand_byte_set(sequences.iter().map(|s| s.to_vec()).collect());
    assert_eq!(x.nodes, trie.nodes[..trie.node_count].to_vec());
    assert_eq!(x.edges, trie.edges[..trie.edge_count].to_vec());
    assert_eq!(x.len, trie.sequence_count);
}

#[test]
fn macro_trie_matches_library_trie_with_repeats() {
    let sequences: [&[u8]; 5] = [b"ab", b"a", b"ab", b"b", b""];
    let trie = build_table_trie::<5, 6, 5>(&sequences);
    let tree = build_trie(&sequences.iter().map(|s| s.to_vec()).collect::<Vec<_>>());
    assert_eq!(tree.len(), trie.node_count);
    for (i, node) in tree.iter().enumerate() {
        assert_eq!(node.terminal, trie.nodes[i].terminal);
        assert_eq!(node.children.len(), trie.nodes[i].child_len);
        for (j, c) in node.children.iter().enumerate() {
            let e = trie.edges[trie.nodes[i].child_start + j];
            assert_eq!((c.byte, c.target, c.weight), (e.byte, e.target, e.weight));
        }
    }
    // "ab" is given twice and counts twice in the weights.
    assert_eq!(tree[0].children[0].byte, b'a');
    assert_eq!(tree[0].children[0].weight, 3);
}
