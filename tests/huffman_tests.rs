use huffman::{
    build, code_table, decode_huffman, decode_packed, encode_huffman, frequencies, pack_bits, read_container, write_container,
    process, tree_height, unpack_bits, HuffmanError, Node,
};

#[test]
fn test_encode() {
    let text = "Hello world!";
    let encoded = process(text).unwrap();
    let decoded = decode_huffman(&encoded.0, &encoded.1).unwrap();
    assert_eq!(text, decoded);
}

#[test]
fn test_compressed_size() {
    let text = "Hello world!";
    let encoded = process(text).unwrap();
    assert!(encoded.1.len() < text.len() * 8);
}

#[test]
fn frequencies_of_hello_world() {
    let f = frequencies("Hello world!");
    let count = |c: char| f.iter().find(|e| e.0 == c).map(|e| e.1);
    assert_eq!(count('l'), Some(3));
    assert_eq!(count('o'), Some(2));
    assert_eq!(count(' '), Some(1));
    for c in ['H', 'e', 'w', 'r', 'd', '!'] {
        assert_eq!(count(c), Some(1));
    }
    assert_eq!(f.len(), 9);
    assert_eq!(f.iter().map(|e| e.1).sum::<u64>(), 12);
    for w in f.windows(2) {
        assert!(w[0].0 < w[1].0);
    }
}

#[test]
fn worked_example_hello_world() {
    let text = "Hello world!";
    let (tree, bits, freqs) = process(text).unwrap();
    assert_eq!(freqs, frequencies(text));
    assert!(tree_height(&tree) >= 3);
    assert!(bits.len() < 96);
    assert_eq!(decode_huffman(&tree, &bits).unwrap(), text);
}

#[test]
fn degenerate_alphabet_single_symbol() {
    let (tree, bits, _) = process("aaaa").unwrap();
    let table = code_table(&tree);
    assert_eq!(table.get('a'), Some(&vec![true]));
    assert_eq!(bits.len(), 4);
    assert_eq!(tree_height(&tree), 0);
    assert_eq!(decode_huffman(&tree, &bits).unwrap(), "aaaa");
}

#[test]
fn unknown_symbol_is_named() {
    let tree = build(&frequencies("ab")).unwrap();
    let r = encode_huffman(&tree, "abc");
    assert_eq!(r, Err(HuffmanError::UnknownSymbol(vec!['c'])));
}

#[test]
fn unknown_symbols_listed_in_order() {
    let tree = build(&frequencies("ab")).unwrap();
    let r = encode_huffman(&tree, "xaby");
    assert_eq!(r, Err(HuffmanError::UnknownSymbol(vec!['x', 'y'])));
}

#[test]
fn empty_alphabet_is_refused() {
    assert_eq!(build(&Vec::new()).unwrap_err(), HuffmanError::EmptyAlphabet);
    assert_eq!(process("").unwrap_err(), HuffmanError::EmptyAlphabet);
}

#[test]
fn round_trip_various_inputs() {
    for text in ["a", "ab", "abracadabra", "mississippi river", "ünïcødé ✓✓✓", "zzzzzzzzy"] {
        let (tree, bits, _) = process(text).unwrap();
        assert_eq!(decode_huffman(&tree, &bits).unwrap(), text);
    }
}

#[test]
fn no_worse_than_fixed_width() {
    for text in ["Hello world!", "abracadabra", "abcdefgh", "aab", "the quick brown fox jumps over the lazy dog"] {
        let (_, bits, freqs) = process(text).unwrap();
        let n = freqs.len();
        let mut width = 0usize;
        while (1usize << width) < n {
            width += 1;
        }
        let symbols = text.chars().count();
        assert!(bits.len() <= width * symbols, "{}", text);
    }
}

#[test]
fn codes_are_prefix_free() {
    let (tree, _, freqs) = process("Hello world!").unwrap();
    let table = code_table(&tree);
    let codes: Vec<Vec<bool>> = freqs.iter().map(|e| table.get(e.0).unwrap().clone()).collect();
    for (i, a) in codes.iter().enumerate() {
        assert!(!a.is_empty());
        for (j, b) in codes.iter().enumerate() {
            if i != j {
                assert!(!(a.len() <= b.len() && b[..a.len()] == a[..]));
            }
        }
    }
}

#[test]
fn ties_go_to_the_earlier_entry() {
    let tree = build(&vec![('a', 1), ('b', 1)]).unwrap();
    let table = code_table(&tree);
    assert_eq!(table.get('a'), Some(&vec![true]));
    assert_eq!(table.get('b'), Some(&vec![false]));
    match tree.nodes[tree.root] {
        Node::Internal { weight, left, right } => {
            assert_eq!(weight, 2);
            assert_eq!(left, 0);
            assert_eq!(right, 1);
        }
        Node::Leaf { .. } => panic!("expected an internal root"),
    }
}

#[test]
fn greedy_joins_lightest_pair() {
    let tree = build(&vec![('a', 5), ('b', 1), ('c', 2)]).unwrap();
    let table = code_table(&tree);
    assert_eq!(table.get('a').unwrap().len(), 1);
    assert_eq!(table.get('b').unwrap().len(), 2);
    assert_eq!(table.get('c').unwrap().len(), 2);
    assert_eq!(tree.nodes[tree.root].weight(), 8);
    assert_eq!(tree_height(&tree), 2);
}

#[test]
fn incomplete_code_is_reported() {
    let tree = build(&vec![('a', 5), ('b', 1), ('c', 2)]).unwrap();
    let b_code = code_table(&tree).get('b').unwrap().clone();
    let partial = vec![b_code[0]];
    assert_eq!(decode_huffman(&tree, &partial), Err(HuffmanError::IncompleteCode));
    assert_eq!(decode_huffman(&tree, &Vec::new()).unwrap(), "");
}

#[test]
fn pack_order_is_least_significant_first() {
    let bits = vec![true, false, true, true, false, false, false, false, true];
    let bytes = pack_bits(&bits);
    assert_eq!(bytes.len(), 2);
    assert_eq!(bytes[0], 0b0000_1101);
    assert_eq!(bytes[1] & 1, 1);
    assert_eq!(unpack_bits(&bytes, 9).unwrap(), bits);
}

#[test]
fn unpack_refuses_too_many_bits() {
    assert_eq!(unpack_bits(&vec![0xFFu8], 9), Err(HuffmanError::IncompleteCode));
    assert_eq!(unpack_bits(&vec![0x02u8], 3).unwrap(), vec![false, true, false]);
}

#[test]
fn decode_packed_round_trip() {
    let text = "abracadabra";
    let (tree, bits, _) = process(text).unwrap();
    let bytes = pack_bits(&bits);
    assert_eq!(decode_packed(&tree, &bytes, bits.len()).unwrap(), text);
    assert_eq!(decode_packed(&tree, &bytes, bytes.len() * 8 + 1), Err(HuffmanError::IncompleteCode));
}

#[test]
fn error_messages_are_distinct() {
    let a = HuffmanError::EmptyAlphabet.message();
    let b = HuffmanError::UnknownSymbol(vec!['x']).message();
    let c = HuffmanError::IncompleteCode.message();
    let d = HuffmanError::MalformedContainer.message();
    assert_eq!(a, "Cannot build a huffman tree from an empty alphabet");
    assert_eq!(b, "Could not find corresponding binary code for the given key");
    assert_eq!(c, "The encoded bits do not end on a complete code");
    assert_eq!(d, "The stored bytes do not hold a well-formed encoded file");
    assert!(a != b && b != c && a != c && d != a && d != b && d != c);
}

#[test]
fn nine_symbols_need_height_four() {
    let (tree, _, freqs) = process("Hello world!").unwrap();
    assert_eq!(freqs.len(), 9);
    assert!(tree_height(&tree) >= 4);
    assert_eq!(tree.nodes.len(), 2 * freqs.len() - 1);
    assert_eq!(tree.root, tree.nodes.len() - 1);
}

#[test]
fn container_round_trip_rebuilds_the_same_tree() {
    let text = "Hello world!";
    let (tree, bits, freqs) = process(text).unwrap();
    let bytes = pack_bits(&bits);
    let stored = write_container(&freqs, bits.len() as u64, &bytes);
    assert_eq!(stored.len(), 8 + 12 * freqs.len() + 8 + bytes.len());
    assert_eq!(&stored[0..8], &(freqs.len() as u64).to_le_bytes());
    let (table, bit_len, payload) = read_container(&stored).unwrap();
    assert_eq!(table, freqs);
    assert_eq!(bit_len, bits.len() as u64);
    assert_eq!(payload, bytes);
    let rebuilt = build(&table).unwrap();
    assert_eq!(rebuilt.nodes, tree.nodes);
    assert_eq!(decode_packed(&rebuilt, &payload, bit_len as usize).unwrap(), text);
}

#[test]
fn container_entry_layout() {
    let stored = write_container(&vec![('A', 3)], 5, &vec![0xAB]);
    assert_eq!(
        stored,
        vec![1, 0, 0, 0, 0, 0, 0, 0, 0x41, 0, 0, 0, 3, 0, 0, 0, 0, 0, 0, 0, 5, 0, 0, 0, 0, 0, 0, 0, 0xAB]
    );
}

#[test]
fn malformed_containers_are_refused() {
    assert_eq!(read_container(&vec![0u8; 15]), Err(HuffmanError::MalformedContainer));
    let mut too_many = vec![0u8; 16];
    too_many[0] = 1;
    assert_eq!(read_container(&too_many), Err(HuffmanError::MalformedContainer));
    let mut surrogate = write_container(&vec![('a', 1)], 1, &vec![1]);
    surrogate[8..12].copy_from_slice(&0xD800u32.to_le_bytes());
    assert_eq!(read_container(&surrogate), Err(HuffmanError::MalformedContainer));
    let empty = read_container(&vec![0u8; 16]).unwrap();
    assert_eq!(empty, (Vec::new(), 0, Vec::new()));
}
