use huffman_codec::bmp::{BmpImage, CodecError};
use huffman_codec::huffman_tree::HuffmanTree;

fn expect_err(r: Result<BmpImage, CodecError>) -> CodecError {
    match r {
        Ok(_) => panic!("expected the container to be rejected"),
        Err(e) => e,
    }
}

fn sample_header() -> Vec<u8> {
    let mut h = Vec::new();
    for i in 0..54u8 {
        h.push(i.wrapping_mul(7));
    }
    h
}

fn roundtrip(data: Vec<u8>) {
    let header = sample_header();
    let image = BmpImage { header: header.clone(), data: data.clone() };
    let container = image.compress();
    let back = BmpImage::decompress(&container).expect("container must decompress");
    assert_eq!(back.header, header);
    assert_eq!(back.data, data);
}

#[test]
fn frequency_counts_concrete() {
    let tree = HuffmanTree::new();
    let freqs = tree.calculate_frequencies(&[0x00, 0x00, 0x00, 0x01]);
    assert_eq!(freqs.len(), 256);
    assert_eq!(freqs[0], 3);
    assert_eq!(freqs[1], 1);
    for b in 2..256 {
        assert_eq!(freqs[b], 0);
    }
}

#[test]
fn frequency_counts_empty() {
    let tree = HuffmanTree::new();
    let freqs = tree.calculate_frequencies(&[]);
    assert_eq!(freqs.len(), 256);
    for b in 0..256 {
        assert_eq!(freqs[b], 0);
    }
}

#[test]
fn frequency_conservation_all_distinct() {
    let mut data = Vec::new();
    for b in 0..=255u8 {
        data.push(b);
    }
    let tree = HuffmanTree::new();
    let freqs = tree.calculate_frequencies(&data);
    let mut total: u64 = 0;
    for b in 0..256 {
        assert_eq!(freqs[b], 1);
        total += freqs[b];
    }
    assert_eq!(total as usize, data.len());
}

#[test]
fn concrete_scenario_two_symbols() {
    let data = [0x00u8, 0x00, 0x00, 0x01];
    let mut tree = HuffmanTree::new();
    tree.build(&data);

    let codes = tree.generate_codes();
    assert_eq!(codes[0x00].as_ref().unwrap().as_slice(), &[false]);
    assert_eq!(codes[0x01].as_ref().unwrap().as_slice(), &[true]);
    for b in 2..256 {
        assert!(codes[b].is_none());
    }

    let encoded = tree.encode(&data);
    assert_eq!(encoded, vec![0x10]);

    let decoded = tree.decode(&encoded, 4);
    assert_eq!(decoded, vec![0x00, 0x00, 0x00, 0x01]);
}

#[test]
fn empty_input_container() {
    let header = sample_header();
    let image = BmpImage { header: header.clone(), data: Vec::new() };
    let container = image.compress();
    assert_eq!(container.len(), 66);
    assert_eq!(&container[0..8], &[0u8; 8]);
    assert_eq!(&container[8..12], &[0u8; 4]);
    assert_eq!(&container[12..66], header.as_slice());
    let back = BmpImage::decompress(&container).expect("empty container must decompress");
    assert_eq!(back.header, header);
    assert!(back.data.is_empty());
}

#[test]
fn single_symbol_tree_is_bare_leaf() {
    let data = vec![0x41u8; 1000];
    let mut tree = HuffmanTree::new();
    tree.build(&data);
    let root = tree.root.as_ref().unwrap();
    assert_eq!(root.value, Some(0x41));
    assert_eq!(root.frequency, 1000);
    assert!(root.left.is_none() && root.right.is_none());
    assert_eq!(tree.serialize(), vec![0x00, 0x41]);
    let encoded = tree.encode(&data);
    assert!(encoded.is_empty());
    let decoded = tree.decode(&encoded, 1000);
    assert_eq!(decoded, data);
}

#[test]
fn single_symbol_roundtrip() {
    roundtrip(vec![0x41u8; 1000]);
}

#[test]
fn empty_roundtrip() {
    roundtrip(Vec::new());
}

#[test]
fn all_bytes_roundtrip() {
    let mut data = Vec::new();
    for b in 0..=255u8 {
        data.push(b);
    }
    roundtrip(data);
}

#[test]
fn mixed_data_roundtrip() {
    let mut data = Vec::new();
    let mut state: u32 = 0x12345678;
    for _ in 0..4096 {
        state = state.wrapping_mul(1664525).wrapping_add(1013904223);
        data.push((state >> 24) as u8 & 0x3f);
    }
    roundtrip(data);
}

#[test]
fn two_byte_roundtrip() {
    roundtrip(vec![7, 9]);
}

#[test]
fn serialized_tree_decodes_original_encoding() {
    let data = b"abracadabra, a cask of ale".to_vec();
    let mut tree = HuffmanTree::new();
    tree.build(&data);
    let encoded = tree.encode(&data);
    let blob = tree.serialize();

    let rebuilt = HuffmanTree::deserialize(&blob).expect("serialized tree must parse");
    let decoded = rebuilt.decode(&encoded, data.len());
    assert_eq!(decoded, data);
}

#[test]
fn deserialize_rejects_truncated_blob() {
    // An internal node whose right child is missing.
    assert!(HuffmanTree::deserialize(&[1, 0, 65]).is_none());
    // A leaf discriminator with no symbol byte.
    assert!(HuffmanTree::deserialize(&[0]).is_none());
    // An empty blob.
    assert!(HuffmanTree::deserialize(&[]).is_none());
}

#[test]
fn truncated_container_mid_tree_is_rejected() {
    let image = BmpImage { header: sample_header(), data: b"hello huffman".to_vec() };
    let container = image.compress();
    // Cut the buffer inside the tree blob.
    let truncated = &container[0..13];
    assert_eq!(expect_err(BmpImage::decompress(truncated)), CodecError::TruncatedInput);
}

#[test]
fn short_buffer_is_rejected() {
    assert_eq!(expect_err(BmpImage::decompress(&[])), CodecError::TruncatedInput);
    assert_eq!(expect_err(BmpImage::decompress(&[1, 2, 3])), CodecError::TruncatedInput);
}

#[test]
fn truncated_packed_bits_are_rejected() {
    let image = BmpImage { header: sample_header(), data: vec![0x00, 0x00, 0x00, 0x01] };
    let container = image.compress();
    // Drop the single packed byte at the end.
    let truncated = &container[0..container.len() - 1];
    assert_eq!(expect_err(BmpImage::decompress(truncated)), CodecError::TruncatedInput);
}

#[test]
fn malformed_tree_is_rejected() {
    // original length 1, tree blob of one lone internal-node discriminator.
    let mut container = Vec::new();
    container.extend_from_slice(&[1, 0, 0, 0, 0, 0, 0, 0]);
    container.extend_from_slice(&[1, 0, 0, 0]);
    container.push(1);
    container.extend_from_slice(&sample_header());
    assert_eq!(expect_err(BmpImage::decompress(&container)), CodecError::MalformedTree);
}

#[test]
fn declared_payload_without_tree_is_rejected() {
    // original length 5 but an empty tree blob.
    let mut container = Vec::new();
    container.extend_from_slice(&[5, 0, 0, 0, 0, 0, 0, 0]);
    container.extend_from_slice(&[0, 0, 0, 0]);
    container.extend_from_slice(&sample_header());
    assert_eq!(expect_err(BmpImage::decompress(&container)), CodecError::EmptyAlphabetMismatch);
}

#[test]
fn codes_are_prefix_free() {
    let data = b"the quick brown fox jumps over the lazy dog".to_vec();
    let mut tree = HuffmanTree::new();
    tree.build(&data);
    let codes = tree.generate_codes();
    let present: Vec<&Vec<bool>> = codes.iter().filter_map(|c| c.as_ref()).collect();
    assert!(present.len() >= 2);
    for (i, a) in present.iter().enumerate() {
        for (j, b) in present.iter().enumerate() {
            if i != j {
                assert!(!(a.len() <= b.len() && b[..a.len()] == a[..]));
            }
        }
    }
}

#[test]
fn kraft_equality_and_length_bounds() {
    let data = b"mississippi river basin".to_vec();
    let mut tree = HuffmanTree::new();
    tree.build(&data);
    let codes = tree.generate_codes();
    let present: Vec<&Vec<bool>> = codes.iter().filter_map(|c| c.as_ref()).collect();
    let k = present.len();
    assert!(k >= 2);
    let max_len = present.iter().map(|c| c.len()).max().unwrap();
    let mut scaled_sum: u64 = 0;
    for c in &present {
        assert!(c.len() >= 1 && c.len() <= k - 1);
        scaled_sum += 1u64 << (max_len - c.len());
    }
    assert_eq!(scaled_sum, 1u64 << max_len);
}

#[test]
fn root_frequency_is_input_length() {
    let data = b"abracadabra".to_vec();
    let mut tree = HuffmanTree::new();
    tree.build(&data);
    assert_eq!(tree.root.as_ref().unwrap().frequency, data.len() as u64);
}

#[test]
fn container_layout_fields() {
    let data = vec![0x00u8, 0x00, 0x00, 0x01];
    let header = sample_header();
    let image = BmpImage { header: header.clone(), data };
    let container = image.compress();
    // original length 4, little endian.
    assert_eq!(&container[0..8], &[4, 0, 0, 0, 0, 0, 0, 0]);
    // two leaves: the tree blob is 1 + 2 + 2 bytes long.
    assert_eq!(&container[8..12], &[5, 0, 0, 0]);
    // pre-order blob: internal, leaf 0x00, leaf 0x01.
    assert_eq!(&container[12..17], &[1, 0, 0x00, 0, 0x01]);
    assert_eq!(&container[17..71], header.as_slice());
    assert_eq!(&container[71..], &[0x10]);
}
