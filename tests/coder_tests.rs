use huffzip::bitstream::{codes_to_bin, unpack, PackedStream};
use huffzip::coder::encode;
use huffzip::frequency::{count_frequencies, symbols_of};
use huffzip::huffman::{build_tree, gen_code_map, gen_codes, HuffCode, HuffError, HuffmanNode};

fn leaf(c: char, w: u64) -> HuffmanNode {
    HuffmanNode { freq_value: w, left: None, right: None, value: Some(c) }
}

fn node(l: HuffmanNode, r: HuffmanNode) -> HuffmanNode {
    HuffmanNode {
        freq_value: l.freq_value + r.freq_value,
        left: Some(Box::new(l)),
        right: Some(Box::new(r)),
        value: None,
    }
}

fn code_list(root: &HuffmanNode) -> Vec<(char, String)> {
    gen_codes(root).unwrap().into_iter().map(|c| (c.val, c.code_str)).collect()
}

fn code(val: char, bitlength: u8, code: u64) -> HuffCode {
    HuffCode { val, bitlength, code, code_str: String::new() }
}

fn round_trip(text: &str) -> Vec<char> {
    let (tree, stream) = encode(text).unwrap();
    unpack(&stream, &tree).unwrap()
}

#[test]
fn frequencies_in_order_of_first_occurrence() {
    let symbols = symbols_of("abracadabra");
    assert_eq!(symbols.len(), 11);
    let table = count_frequencies(&symbols);
    assert_eq!(table, vec![('a', 5), ('b', 2), ('r', 2), ('c', 1), ('d', 1)]);
}

#[test]
fn frequencies_of_empty_input() {
    assert!(count_frequencies(&Vec::new()).is_empty());
}

#[test]
fn symbols_of_multibyte_text() {
    assert_eq!(symbols_of("añ€"), vec!['a', 'ñ', '€']);
}

#[test]
fn empty_input_is_rejected() {
    assert_eq!(HuffmanNode::new("").err(), Some(HuffError::EmptyInput));
    assert_eq!(build_tree(&Vec::new()).err(), Some(HuffError::EmptyInput));
    assert_eq!(encode("").err(), Some(HuffError::EmptyInput));
}

#[test]
fn tree_weights_and_shape() {
    let root = HuffmanNode::new("abracadabra").unwrap();
    assert_eq!(root.freq_value, 11);
    assert!(root.value.is_none());
    let left = root.left.as_ref().unwrap();
    assert_eq!(left.value, Some('a'));
    assert_eq!(left.freq_value, 5);
    assert_eq!(root.right.as_ref().unwrap().freq_value, 6);
}

#[test]
fn codes_of_abracadabra() {
    let root = HuffmanNode::new("abracadabra").unwrap();
    let codes = gen_codes(&root).unwrap();
    let got: Vec<(char, u8, u64, String)> =
        codes.into_iter().map(|c| (c.val, c.bitlength, c.code, c.code_str)).collect();
    assert_eq!(
        got,
        vec![
            ('a', 1, 0, "0".to_string()),
            ('c', 3, 4, "100".to_string()),
            ('d', 3, 5, "101".to_string()),
            ('b', 3, 6, "110".to_string()),
            ('r', 3, 7, "111".to_string()),
        ]
    );
}

#[test]
fn codes_form_a_prefix_code() {
    for text in ["abracadabra", "hello world", "mississippi river", "ab", "the quick brown fox"] {
        let root = HuffmanNode::new(text).unwrap();
        let codes = code_list(&root);
        for (i, (_, a)) in codes.iter().enumerate() {
            for (j, (_, b)) in codes.iter().enumerate() {
                if i != j {
                    assert!(!b.starts_with(a.as_str()), "{} is a prefix of {}", a, b);
                }
            }
        }
    }
}

#[test]
fn code_generation_is_idempotent() {
    let root = HuffmanNode::new("the quick brown fox jumps over the lazy dog").unwrap();
    let first: Vec<(char, u8, u64, String)> =
        gen_codes(&root).unwrap().into_iter().map(|c| (c.val, c.bitlength, c.code, c.code_str)).collect();
    let second: Vec<(char, u8, u64, String)> =
        gen_codes(&root).unwrap().into_iter().map(|c| (c.val, c.bitlength, c.code, c.code_str)).collect();
    assert_eq!(first, second);
    let m1 = gen_code_map(&root).unwrap();
    let m2 = gen_code_map(&root).unwrap();
    for c in "the quick brown fox jumps over the lazy dog".chars() {
        let a = m1.get(c).unwrap();
        let b = m2.get(c).unwrap();
        assert_eq!((a.val, a.bitlength, a.code, &a.code_str), (b.val, b.bitlength, b.code, &b.code_str));
    }
}

#[test]
fn code_map_lookup() {
    let root = HuffmanNode::new("abracadabra").unwrap();
    let map = gen_code_map(&root).unwrap();
    let r = map.get('r').unwrap();
    assert_eq!((r.bitlength, r.code, r.code_str.as_str()), (3, 7, "111"));
    assert!(map.get('z').is_none());
}

#[test]
fn code_map_last_entry_wins() {
    let root = node(leaf('x', 1), leaf('x', 1));
    let map = gen_code_map(&root).unwrap();
    assert_eq!(map.get('x').unwrap().code_str, "1");
}

#[test]
fn two_symbol_alphabet() {
    let root = HuffmanNode::new("aab").unwrap();
    let codes = gen_codes(&root).unwrap();
    assert_eq!(codes.len(), 2);
    assert!(codes.iter().all(|c| c.bitlength == 1));
    let (tree, stream) = encode("aab").unwrap();
    assert_eq!(stream.bit_count, 3);
    assert_eq!(stream.bytes, vec![0b1100_0000]);
    assert_eq!(unpack(&stream, &tree).unwrap(), vec!['a', 'a', 'b']);
}

#[test]
fn single_symbol_alphabet() {
    for n in [1usize, 7, 8, 9, 10, 16, 17] {
        let text: String = std::iter::repeat('q').take(n).collect();
        let root = HuffmanNode::new(&text).unwrap();
        assert_eq!(root.value, Some('q'));
        let codes = gen_codes(&root).unwrap();
        assert_eq!(codes.len(), 1);
        assert_eq!((codes[0].bitlength, codes[0].code, codes[0].code_str.as_str()), (1, 0, "0"));
        let (tree, stream) = encode(&text).unwrap();
        assert_eq!(stream.bit_count, n);
        assert_eq!(stream.bytes.len(), (n + 7) / 8);
        assert!(stream.bytes.iter().all(|b| *b == 0));
        assert_eq!(unpack(&stream, &tree).unwrap(), vec!['q'; n]);
    }
}

#[test]
fn exact_multiple_of_eight_has_no_padding() {
    let (_, stream) = encode("hello world").unwrap();
    assert_eq!(stream.bit_count, 32);
    assert_eq!(stream.bytes.len() * 8, stream.bit_count);
    assert_eq!(stream.bytes, vec![0xef, 0xac, 0x0e, 0x53]);
    let packed = codes_to_bin(&vec![code('a', 3, 0b101), code('b', 5, 0b10011)]);
    assert_eq!(packed.bit_count, 8);
    assert_eq!(packed.bytes, vec![0b1011_0011]);
}

#[test]
fn packing_crosses_byte_boundaries() {
    let codes = vec![code('a', 3, 0b101), code('b', 7, 0b1100110), code('c', 1, 1), code('d', 12, 0xABC)];
    let packed = codes_to_bin(&codes);
    assert_eq!(packed.bit_count, 23);
    assert_eq!(packed.bytes, vec![0b1011_1001, 0b1011_0101, 0b0111_1000]);
}

#[test]
fn packing_keeps_only_the_low_bits_of_each_code() {
    let packed = codes_to_bin(&vec![code('a', 2, 0xFF), code('b', 64, u64::MAX)]);
    assert_eq!(packed.bit_count, 66);
    assert_eq!(packed.bytes, vec![0xFF; 8].into_iter().chain([0b1100_0000]).collect::<Vec<u8>>());
}

#[test]
fn packing_nothing() {
    let packed = codes_to_bin(&Vec::new());
    assert_eq!(packed.bit_count, 0);
    assert!(packed.bytes.is_empty());
}

#[test]
fn encoding_of_abracadabra() {
    let (tree, stream) = encode("abracadabra").unwrap();
    assert_eq!(stream.bit_count, 23);
    assert_eq!(stream.bytes, vec![0x6e, 0x8a, 0xdc]);
    assert_eq!(unpack(&stream, &tree).unwrap(), "abracadabra".chars().collect::<Vec<char>>());
}

#[test]
fn encoded_length_is_optimal_on_small_alphabets() {
    // weighted path lengths of optimal prefix codes, worked out by hand
    let cases: [(&str, usize); 4] = [("abracadabra", 23), ("aab", 3), ("abcd", 8), ("aaaabbc", 10)];
    for (text, best) in cases {
        let (_, stream) = encode(text).unwrap();
        assert_eq!(stream.bit_count, best, "{}", text);
    }
}

#[test]
fn round_trip_on_varied_inputs() {
    for text in ["a", "ab", "aab", "hello world", "mississippi", "añ€añ€ 漢字 漢", "0123456789abcdef", "zzzzzzzzzzzzzzzzzy"] {
        assert_eq!(round_trip(text), text.chars().collect::<Vec<char>>(), "{}", text);
    }
}

#[test]
fn truncated_stream_is_reported() {
    let (tree, stream) = encode("abracadabra").unwrap();
    let short = PackedStream { bytes: stream.bytes.clone(), bit_count: 21 };
    assert_eq!(unpack(&short, &tree).err(), Some(HuffError::TruncatedStream));
    let boundary = PackedStream { bytes: stream.bytes.clone(), bit_count: 22 };
    assert_eq!(unpack(&boundary, &tree).unwrap(), "abracadabr".chars().collect::<Vec<char>>());
    let too_long = PackedStream { bytes: vec![0x6e], bit_count: 9 };
    assert_eq!(unpack(&too_long, &tree).err(), Some(HuffError::TruncatedStream));
}

#[test]
fn decoding_stops_at_the_valid_bit_count() {
    let (tree, stream) = encode("abracadabra").unwrap();
    let prefix = PackedStream { bytes: stream.bytes.clone(), bit_count: 4 };
    assert_eq!(unpack(&prefix, &tree).unwrap(), vec!['a', 'b']);
    let none = PackedStream { bytes: Vec::new(), bit_count: 0 };
    assert_eq!(unpack(&none, &tree).unwrap(), Vec::<char>::new());
}

#[test]
fn decoding_with_a_hand_built_tree() {
    let tree = node(leaf('x', 1), node(leaf('y', 1), leaf('z', 1)));
    let stream = PackedStream { bytes: vec![0b0101_1000], bit_count: 5 };
    assert_eq!(unpack(&stream, &tree).unwrap(), vec!['x', 'y', 'z']);
}

#[test]
fn long_codes_overflow() {
    // weights that grow like Fibonacci numbers give a chain: n symbols, depth n - 1
    let mut weights: Vec<u64> = vec![1, 1];
    while weights.len() < 66 {
        let n = weights.len();
        weights.push(weights[n - 1] + weights[n - 2]);
    }
    let symbols: Vec<char> = (0..66u32).map(|i| char::from_u32(0x100 + i).unwrap()).collect();
    let table: Vec<(char, u64)> = symbols.iter().cloned().zip(weights.iter().cloned()).collect();
    let root = build_tree(&table).unwrap();
    assert_eq!(gen_codes(&root).err(), Some(HuffError::CodeLengthOverflow));
    assert_eq!(gen_code_map(&root).err(), Some(HuffError::CodeLengthOverflow));
    let fits = build_tree(&table[..65].to_vec()).unwrap();
    let codes = gen_codes(&fits).unwrap();
    assert_eq!(codes.iter().map(|c| c.bitlength).max(), Some(64));
}

#[test]
fn build_tree_keeps_every_entry() {
    let table = vec![('p', 4), ('q', 4), ('r', 4), ('s', 4)];
    let root = build_tree(&table).unwrap();
    assert_eq!(root.freq_value, 16);
    let codes = code_list(&root);
    assert_eq!(
        codes,
        vec![
            ('p', "00".to_string()),
            ('q', "01".to_string()),
            ('r', "10".to_string()),
            ('s', "11".to_string()),
        ]
    );
}
