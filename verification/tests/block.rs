use mini_lsm::block::{Block, BlockBuilder, BlockIterator};
use std::sync::Arc;

fn key_of(idx: usize) -> Vec<u8> {
    format!("key_{:03}", idx * 5).into_bytes()
}

fn value_of(idx: usize) -> Vec<u8> {
    format!("value_{:010}", idx).into_bytes()
}

fn num_of_keys() -> usize {
    100
}

fn generate_block() -> Block {
    let mut builder = BlockBuilder::new(10000);
    for idx in 0..num_of_keys() {
        let key = key_of(idx);
        let value = value_of(idx);
        assert!(builder.add(&key[..], &value[..]));
    }
    builder.build()
}

#[test]
fn test_block_build_single_key() {
    let mut builder = BlockBuilder::new(16);
    assert!(builder.add(b"233", b"233333"));
    let block = builder.build();
    assert_eq!(block.offsets, vec![0u16]);
    assert_eq!(block.data, b"\x00\x03233\x00\x06233333".to_vec());
}

#[test]
fn test_block_build_full() {
    let mut builder = BlockBuilder::new(16);
    assert!(builder.add(b"11", b"11"));
    assert!(!builder.add(b"22", b"22"));
    let block = builder.build();
    assert_eq!(block.offsets, vec![0u16]);
    assert_eq!(block.data, b"\x00\x0211\x00\x0211".to_vec());
}

#[test]
fn test_block_build_large_1() {
    let mut builder = BlockBuilder::new(16);
    let value = vec![b'1'; 100];
    assert!(builder.add(b"11", &value));
    let block = builder.build();
    assert_eq!(block.data.len(), 2 + 2 + 2 + 100);
}

#[test]
fn test_block_build_large_2() {
    let mut builder = BlockBuilder::new(16);
    assert!(builder.add(b"11", b"1"));
    let value = vec![b'1'; 100];
    assert!(!builder.add(b"11", &value));
}

#[test]
fn test_block_builder_is_empty() {
    let mut builder = BlockBuilder::new(64);
    assert!(builder.is_empty());
    assert!(builder.add(b"a", b"b"));
    assert!(!builder.is_empty());
}

#[test]
fn test_block_budget_counts_data_and_six_bytes() {
    // 8 bytes are stored; the second entry needs 8 + 2 + 2 + 6 = 18
    let mut exact = BlockBuilder::new(18);
    assert!(exact.add(b"aa", b"bb"));
    assert!(exact.add(b"cc", b"dd"));
    let mut short = BlockBuilder::new(17);
    assert!(short.add(b"aa", b"bb"));
    assert!(!short.add(b"cc", b"dd"));
    let block = short.build();
    assert_eq!(block.offsets, vec![0u16]);
}

#[test]
fn test_block_budget_never_exceeded_after_first_entry() {
    let budget = 200usize;
    let mut builder = BlockBuilder::new(budget);
    let mut stored = 0usize;
    let mut entries = 0usize;
    for idx in 0..100 {
        let key = key_of(idx);
        let value = value_of(idx);
        let fits = entries == 0 || stored + key.len() + value.len() + 6 <= budget;
        assert_eq!(builder.add(&key, &value), fits);
        if fits {
            stored += key.len() + value.len() + 4;
            entries += 1;
        }
    }
    let block = builder.build();
    assert_eq!(block.offsets.len(), entries);
    assert_eq!(block.data.len(), stored);
    assert!(block.data.len() + 2 <= budget);
}

#[test]
fn test_block_first_entry_may_exceed_budget() {
    let mut builder = BlockBuilder::new(1);
    let key = vec![7u8; 300];
    let value = vec![9u8; 60000];
    assert!(builder.add(&key, &value));
    assert!(!builder.add(b"z", b""));
    let block = builder.build();
    assert_eq!(block.offsets, vec![0u16]);
    assert_eq!(block.data.len(), 4 + 300 + value.len());
    assert!(block.is_well_formed());
}

#[test]
fn test_block_encode() {
    let block = generate_block();
    let encoded = block.encode();
    assert_eq!(encoded.len(), block.data.len() + 2 * num_of_keys() + 2);
}

#[test]
fn test_block_encode_exact_bytes() {
    let mut builder = BlockBuilder::new(4096);
    assert!(builder.add(b"k1", b"v"));
    assert!(builder.add(b"k22", b""));
    let block = builder.build();
    assert_eq!(block.offsets, vec![0u16, 7]);
    let encoded = block.encode();
    let expected: Vec<u8> = vec![
        0, 2, b'k', b'1', 0, 1, b'v', // first entry
        0, 3, b'k', b'2', b'2', 0, 0, // second entry, empty value
        0, 0, 0, 7, // offsets
        0, 2, // count
    ];
    assert_eq!(&encoded[..], &expected[..]);
}

#[test]
fn test_block_offsets_are_big_endian() {
    let mut builder = BlockBuilder::new(4096);
    let value = vec![1u8; 300];
    assert!(builder.add(b"a", &value));
    assert!(builder.add(b"b", b"x"));
    let block = builder.build();
    // 2 + 1 + 2 + 300 = 305 = 0x0131
    assert_eq!(block.offsets, vec![0u16, 305]);
    let encoded = block.encode();
    let n = encoded.len();
    assert_eq!(&encoded[n - 6..], &[0u8, 0, 0x01, 0x31, 0, 2][..]);
    // the length of the value, 300 = 0x012c, stands before it
    assert_eq!(&encoded[3..5], &[0x01u8, 0x2c][..]);
}

#[test]
fn test_block_decode() {
    let block = generate_block();
    let encoded = block.encode();
    let decoded_block = Block::decode(&encoded);
    assert_eq!(block.offsets, decoded_block.offsets);
    assert_eq!(block.data, decoded_block.data);
}

#[test]
fn test_block_encode_decode_round_trip() {
    let mut builder = BlockBuilder::new(4096);
    assert!(builder.add(b"key1", b"value1"));
    assert!(builder.add(b"key2", b"value2"));
    let block = builder.build();
    let encoded = block.encode();
    let decoded = Block::decode(&encoded);
    assert_eq!(decoded.data, block.data);
    assert_eq!(decoded.offsets, block.offsets);
    assert_eq!(&decoded.encode()[..], &encoded[..]);
}

#[test]
fn test_block_decode_checked_accepts_encoded_block() {
    let block = generate_block();
    let encoded = block.encode();
    let decoded = Block::decode_checked(&encoded).unwrap();
    assert_eq!(decoded.data, block.data);
    assert_eq!(decoded.offsets, block.offsets);
}

#[test]
fn test_block_decode_checked_rejects_malformed() {
    // too short to hold a count
    assert!(Block::decode_checked(&[]).is_none());
    assert!(Block::decode_checked(&[0]).is_none());
    // a count of zero: an empty block is never valid
    assert!(Block::decode_checked(&[0, 0]).is_none());
    // a count of three with room for one offset
    assert!(Block::decode_checked(&[0, 0, 0, 3]).is_none());
    // one entry whose value is said to be longer than the data
    let bad = [0u8, 1, b'k', 0, 9, b'v', 0, 0, 0, 1];
    assert!(Block::decode_checked(&bad).is_none());
    // the same entry with the right length
    let good = [0u8, 1, b'k', 0, 1, b'v', 0, 0, 0, 1];
    assert!(Block::decode_checked(&good).is_some());
    // the first offset is not zero
    let shifted = [0u8, 1, b'k', 0, 1, b'v', 0, 1, 0, 1];
    assert!(Block::decode_checked(&shifted).is_none());
}

#[test]
fn test_block_entry_key_and_value() {
    let block = generate_block();
    for idx in 0..num_of_keys() {
        assert_eq!(block.entry_key(idx), &key_of(idx)[..]);
        assert_eq!(block.entry_value(idx), &value_of(idx)[..]);
    }
}

#[test]
fn test_block_iterator() {
    let block = Arc::new(generate_block());
    let mut iter = BlockIterator::create_and_seek_to_first(block);
    for _ in 0..5 {
        for i in 0..num_of_keys() {
            assert!(iter.is_valid());
            assert_eq!(iter.key(), &key_of(i)[..]);
            assert_eq!(iter.value(), &value_of(i)[..]);
            iter.next();
        }
        assert!(!iter.is_valid());
        iter.seek_to_first();
    }
}

#[test]
fn test_block_iterator_past_the_end_stays() {
    let mut builder = BlockBuilder::new(64);
    assert!(builder.add(b"a", b"1"));
    let mut iter = BlockIterator::create_and_seek_to_first(Arc::new(builder.build()));
    assert!(iter.is_valid());
    iter.next();
    assert!(!iter.is_valid());
    iter.next();
    assert!(!iter.is_valid());
}

#[test]
fn test_block_seek_key() {
    let block = Arc::new(generate_block());
    let mut iter = BlockIterator::create_and_seek_to_key(block, &key_of(0));
    for offset in 1..=5 {
        for i in 0..num_of_keys() {
            assert!(iter.is_valid());
            assert_eq!(iter.key(), &key_of(i)[..]);
            assert_eq!(iter.value(), &value_of(i)[..]);
            // a key that lies between this one and the next
            let between = format!("key_{:03}", i * 5 + offset).into_bytes();
            iter.seek_to_key(&between);
        }
        assert!(!iter.is_valid());
        iter.seek_to_key(b"k");
        assert!(iter.is_valid());
        assert_eq!(iter.key(), &key_of(0)[..]);
    }
}

#[test]
fn test_block_seek_key_exact_and_prefix() {
    let mut builder = BlockBuilder::new(4096);
    assert!(builder.add(b"ab", b"1"));
    assert!(builder.add(b"abc", b"2"));
    assert!(builder.add(b"b", b"3"));
    let block = Arc::new(builder.build());
    let iter = BlockIterator::create_and_seek_to_key(block.clone(), b"abc");
    assert_eq!(iter.key(), b"abc");
    let iter = BlockIterator::create_and_seek_to_key(block.clone(), b"aba");
    assert_eq!(iter.key(), b"abc");
    let iter = BlockIterator::create_and_seek_to_key(block.clone(), b"a");
    assert_eq!(iter.key(), b"ab");
    let iter = BlockIterator::create_and_seek_to_key(block.clone(), b"abcd");
    assert_eq!(iter.key(), b"b");
    let iter = BlockIterator::create_and_seek_to_key(block, b"c");
    assert!(!iter.is_valid());
}
