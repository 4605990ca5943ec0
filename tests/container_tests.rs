use huffzip::bitstream::{unpack, PackedStream};
use huffzip::coder::encode;
use huffzip::container::{read_container, write_container};

#[test]
fn stored_form_of_a_small_stream() {
    let (tree, stream) = encode("aab").unwrap();
    let bytes = write_container(&tree, &stream);
    assert_eq!(
        bytes,
        vec![0, 1, 0x62, 0, 0, 0, 1, 0x61, 0, 0, 0, 3, 0, 0, 0, 0, 0, 0, 0, 0b1100_0000]
    );
}

#[test]
fn stored_form_reads_back() {
    for text in ["abracadabra", "aab", "q", "añ€ 漢字", "hello world"] {
        let (tree, stream) = encode(text).unwrap();
        let bytes = write_container(&tree, &stream);
        let (tree2, stream2) = read_container(&bytes).unwrap();
        assert_eq!(stream2.bit_count, stream.bit_count);
        assert_eq!(stream2.bytes, stream.bytes);
        assert_eq!(tree2.freq_value, 0);
        assert_eq!(unpack(&stream2, &tree2).unwrap(), text.chars().collect::<Vec<char>>());
    }
}

#[test]
fn stored_form_with_large_bit_count() {
    let (tree, _) = encode("ab").unwrap();
    let stream = PackedStream { bytes: vec![0xAB], bit_count: 0x0102_0304_0506 };
    let bytes = write_container(&tree, &stream);
    let (_, back) = read_container(&bytes).unwrap();
    assert_eq!(back.bit_count, 0x0102_0304_0506);
    assert_eq!(back.bytes, vec![0xAB]);
}

#[test]
fn malformed_stored_forms_are_rejected() {
    assert!(read_container(&Vec::new()).is_none());
    assert!(read_container(&vec![2, 0, 0, 0, 0, 0, 0, 0, 0]).is_none());
    // a leaf whose value is a surrogate, not a character
    assert!(read_container(&vec![1, 0x00, 0xD8, 0, 0, 0, 0, 0, 0, 0, 0, 0, 0]).is_none());
    // an internal node with one subtree only
    assert!(read_container(&vec![0, 1, 0x61, 0, 0, 0]).is_none());
    // a tree without the bit count after it
    assert!(read_container(&vec![1, 0x61, 0, 0, 0, 3, 0, 0]).is_none());
    let (_, p) = read_container(&vec![1, 0x61, 0, 0, 0, 2, 0, 0, 0, 0, 0, 0, 0]).unwrap();
    assert_eq!(p.bit_count, 2);
    assert!(p.bytes.is_empty());
}
