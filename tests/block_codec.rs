use mini_lsm::block::{Block, BlockError};

#[test]
fn empty_block_encodes_to_footer_only() {
    let b = Block { data: vec![], offsets: vec![] };
    let enc = b.encode();
    assert_eq!(&enc[..], &[0x00u8, 0x00][..]);
    let dec = Block::decode(&enc).unwrap();
    assert!(dec.data.is_empty());
    assert!(dec.offsets.is_empty());
}

#[test]
fn encode_layout_is_data_offsets_count() {
    let b = Block { data: vec![1, 2, 3], offsets: vec![0, 258] };
    let enc = b.encode();
    assert_eq!(&enc[..], &[1u8, 2, 3, 0x00, 0x00, 0x01, 0x02, 0x00, 0x02][..]);
    assert_eq!(enc.len(), 3 + 2 * 2 + 2);
}

#[test]
fn round_trip_keeps_data_and_offsets() {
    let data: Vec<u8> = (0..200u32).map(|i| (i * 7 % 256) as u8).collect();
    let offsets: Vec<u16> = vec![0, 17, 17, 64, 199, 0xABCD];
    let b = Block { data: data.clone(), offsets: offsets.clone() };
    let dec = Block::decode(&b.encode()).unwrap();
    assert_eq!(dec.data, data);
    assert_eq!(dec.offsets, offsets);
}

#[test]
fn round_trip_largest_sizes() {
    let data: Vec<u8> = vec![0xEE; 65535];
    let offsets: Vec<u16> = (0..65535u32).map(|i| i as u16).collect();
    let b = Block { data: data.clone(), offsets: offsets.clone() };
    let enc = b.encode();
    assert_eq!(enc.len(), 65535 + 2 * 65535 + 2);
    assert_eq!(&enc[enc.len() - 2..], &[0xFFu8, 0xFF][..]);
    let dec = Block::decode(&enc).unwrap();
    assert_eq!(dec.data, data);
    assert_eq!(dec.offsets, offsets);
}

#[test]
fn decode_rejects_buffer_without_footer() {
    assert_eq!(Block::decode(&[]).err(), Some(BlockError::Malformed));
    assert_eq!(Block::decode(&[7]).err(), Some(BlockError::Malformed));
}

#[test]
fn decode_rejects_count_beyond_length() {
    // declares two offsets, but only the footer is there
    assert_eq!(Block::decode(&[0x00, 0x02]).err(), Some(BlockError::Malformed));
    // declares two offsets, one offset's worth of bytes before the footer
    assert_eq!(Block::decode(&[9, 9, 0x00, 0x02]).err(), Some(BlockError::Malformed));
}

#[test]
fn decode_uses_declared_count_for_split() {
    // five data bytes, one offset (0x0102), count 1
    let dec = Block::decode(&[10, 11, 12, 13, 14, 0x01, 0x02, 0x00, 0x01]).unwrap();
    assert_eq!(dec.data, vec![10u8, 11, 12, 13, 14]);
    assert_eq!(dec.offsets, vec![0x0102u16]);
}

#[test]
fn decode_copies_out_of_input() {
    let mut buf = vec![5u8, 6, 0x00, 0x00, 0x00, 0x01];
    let dec = Block::decode(&buf).unwrap();
    buf[0] = 99;
    assert_eq!(dec.data, vec![5u8, 6]);
    assert_eq!(dec.offsets, vec![0u16]);
}
