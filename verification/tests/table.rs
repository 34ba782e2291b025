use mini_lsm::block::Block;
use mini_lsm::error::Error;
use mini_lsm::iterators::StorageIterator;
use mini_lsm::table::{BlockMeta, SsTable, SsTableBuilder, SsTableIterator};
use std::sync::Arc;

fn key_of(idx: usize) -> Vec<u8> {
    format!("key_{:03}", idx * 5).into_bytes()
}

fn value_of(idx: usize) -> Vec<u8> {
    format!("value_{:010}", idx).into_bytes()
}

fn num_of_keys() -> usize {
    100
}

fn generate_sst() -> SsTable {
    let mut builder = SsTableBuilder::new(128);
    for idx in 0..num_of_keys() {
        let key = key_of(idx);
        let value = value_of(idx);
        builder.add(&key[..], &value[..]);
    }
    builder.build_for_test().unwrap()
}

fn crc_be(bytes: &[u8]) -> Vec<u8> {
    crc32fast::hash(bytes).to_be_bytes().to_vec()
}

#[test]
fn test_sst_build_single_key() {
    let mut builder = SsTableBuilder::new(16);
    builder.add(b"233", b"233333");
    let table = builder.build_for_test().unwrap();
    assert_eq!(table.num_of_blocks(), 1);
    assert_eq!(table.first_key(), b"233");
    assert_eq!(table.last_key(), b"233");
}

#[test]
fn test_sst_build_two_blocks() {
    let mut builder = SsTableBuilder::new(16);
    builder.add(b"11", b"11");
    builder.add(b"22", b"22");
    builder.add(b"33", b"11");
    builder.add(b"44", b"22");
    builder.add(b"55", b"11");
    builder.add(b"66", b"22");
    // five blocks are finished, the sixth is being filled
    assert_eq!(builder.estimated_size(), 5 * (8 + 2 + 2 + 4));
    let table = builder.build_for_test().unwrap();
    assert_eq!(table.num_of_blocks(), 6);
}

#[test]
fn test_sst_build_all() {
    let table = generate_sst();
    assert_eq!(table.first_key(), &key_of(0)[..]);
    assert_eq!(table.last_key(), &key_of(num_of_keys() - 1)[..]);
    assert_eq!(table.sst_id(), 0);
    assert_eq!(table.max_ts(), 0);
}

#[test]
fn test_sst_builder_is_empty_and_estimated_size() {
    let mut builder = SsTableBuilder::new(16);
    assert!(builder.is_empty());
    assert_eq!(builder.estimated_size(), 0);
    builder.add(b"11", b"11");
    assert!(!builder.is_empty());
    // the block that is being filled is not counted
    assert_eq!(builder.estimated_size(), 0);
    builder.add(b"22", b"22");
    // one block of one entry: 8 bytes of data, one offset, the count, the checksum
    assert_eq!(builder.estimated_size(), 8 + 2 + 2 + 4);
    builder.add(b"33", b"33");
    assert_eq!(builder.estimated_size(), 2 * (8 + 2 + 2 + 4));
}

#[test]
fn test_sst_file_layout_is_exact() {
    let mut builder = SsTableBuilder::new(8);
    builder.add(b"a", b"1");
    builder.add(b"b", b"22");
    let table = builder.build(7).unwrap();
    assert_eq!(table.sst_id(), 7);
    let block0: Vec<u8> = vec![0, 1, b'a', 0, 1, b'1', 0, 0, 0, 1];
    let block1: Vec<u8> = vec![0, 1, b'b', 0, 2, b'2', b'2', 0, 0, 0, 1];
    let mut expected = Vec::new();
    expected.extend_from_slice(&block0);
    expected.extend_from_slice(&crc_be(&block0));
    let second_at = expected.len() as u32;
    expected.extend_from_slice(&block1);
    expected.extend_from_slice(&crc_be(&block1));
    let meta_at = expected.len() as u32;
    // index: the offset, then each key after its length
    expected.extend_from_slice(&[0, 0, 0, 0, 0, 1, b'a', 0, 1, b'a']);
    expected.extend_from_slice(&second_at.to_be_bytes());
    expected.extend_from_slice(&[0, 1, b'b', 0, 1, b'b']);
    expected.extend_from_slice(&meta_at.to_be_bytes());
    assert_eq!(table.file_bytes(), &expected[..]);
    assert_eq!(table.table_size(), expected.len());
    assert_eq!(second_at, 14);
    assert_eq!(meta_at, 29);
}

#[test]
fn test_sst_block_meta_encode_exact_bytes() {
    let metas = vec![
        BlockMeta { offset: 0, first_key: b"ab".to_vec(), last_key: b"c".to_vec() },
        BlockMeta { offset: 0x01020304, first_key: b"d".to_vec(), last_key: Vec::new() },
    ];
    let mut buf = vec![0xeeu8];
    BlockMeta::encode_block_meta(&metas, &mut buf);
    let expected: Vec<u8> = vec![
        0xee, 0, 0, 0, 0, 0, 2, b'a', b'b', 0, 1, b'c', 1, 2, 3, 4, 0, 1, b'd', 0, 0,
    ];
    assert_eq!(buf, expected);
    let decoded = BlockMeta::decode_block_meta(&buf[1..]).unwrap();
    assert_eq!(decoded.len(), 2);
    assert_eq!(decoded[0].offset, 0);
    assert_eq!(decoded[0].first_key, b"ab".to_vec());
    assert_eq!(decoded[0].last_key, b"c".to_vec());
    assert_eq!(decoded[1].offset, 0x01020304);
    assert_eq!(decoded[1].first_key, b"d".to_vec());
    assert_eq!(decoded[1].last_key, Vec::<u8>::new());
}

#[test]
fn test_sst_block_meta_decode_rejects_truncated() {
    let metas = vec![BlockMeta { offset: 9, first_key: b"ab".to_vec(), last_key: b"c".to_vec() }];
    let mut buf = Vec::new();
    BlockMeta::encode_block_meta(&metas, &mut buf);
    assert!(BlockMeta::decode_block_meta(&buf).is_ok());
    for cut in 1..buf.len() {
        assert_eq!(BlockMeta::decode_block_meta(&buf[..cut]).err(), Some(Error::Corrupted));
    }
    assert_eq!(BlockMeta::decode_block_meta(&[]).unwrap().len(), 0);
}

#[test]
fn test_sst_bounds_and_block_ranges() {
    let table = generate_sst();
    let metas = BlockMeta::decode_block_meta(
        &table.file_bytes()[table_meta_offset(&table)..table.table_size() - 4],
    )
    .unwrap();
    assert_eq!(metas.len(), table.num_of_blocks());
    assert!(metas.len() > 1);
    assert_eq!(table.first_key(), &metas[0].first_key[..]);
    assert_eq!(table.last_key(), &metas[metas.len() - 1].last_key[..]);
    assert_eq!(table.first_key(), &key_of(0)[..]);
    assert_eq!(table.last_key(), &key_of(num_of_keys() - 1)[..]);
    assert_eq!(metas[0].offset, 0);
    for i in 0..metas.len() {
        assert!(metas[i].first_key <= metas[i].last_key);
        if i + 1 < metas.len() {
            assert!(metas[i].last_key < metas[i + 1].first_key);
            assert!(metas[i].offset < metas[i + 1].offset);
        }
        let block = table.read_block(i).unwrap();
        assert_eq!(block.entry_key(0), &metas[i].first_key[..]);
        assert_eq!(block.entry_key(block.offsets.len() - 1), &metas[i].last_key[..]);
    }
}

fn table_meta_offset(table: &SsTable) -> usize {
    let bytes = table.file_bytes();
    let n = bytes.len();
    u32::from_be_bytes([bytes[n - 4], bytes[n - 3], bytes[n - 2], bytes[n - 1]]) as usize
}

#[test]
fn test_sst_open_reads_back_built_table() {
    let table = generate_sst();
    let reopened = SsTable::open(3, table.file_bytes().to_vec()).unwrap();
    assert_eq!(reopened.sst_id(), 3);
    assert_eq!(reopened.num_of_blocks(), table.num_of_blocks());
    assert_eq!(reopened.first_key(), table.first_key());
    assert_eq!(reopened.last_key(), table.last_key());
    assert_eq!(reopened.file_bytes(), table.file_bytes());
    for i in 0..table.num_of_blocks() {
        let a = table.read_block(i).unwrap();
        let b = reopened.read_block(i).unwrap();
        assert_eq!(a.data, b.data);
        assert_eq!(a.offsets, b.offsets);
    }
}

#[test]
fn test_sst_read_block_returns_what_was_built() {
    let mut builder = SsTableBuilder::new(8);
    builder.add(b"a", b"1");
    builder.add(b"b", b"22");
    let table = builder.build_for_test().unwrap();
    let first: Arc<Block> = table.read_block(0).unwrap();
    assert_eq!(first.data, vec![0, 1, b'a', 0, 1, b'1']);
    assert_eq!(first.offsets, vec![0u16]);
    let second = table.read_block(1).unwrap();
    assert_eq!(second.data, vec![0, 1, b'b', 0, 2, b'2', b'2']);
}

#[test]
fn test_sst_open_rejects_malformed_files() {
    assert_eq!(SsTable::open(0, vec![]).err(), Some(Error::Corrupted));
    assert_eq!(SsTable::open(0, vec![0, 0, 0]).err(), Some(Error::Corrupted));
    // no block at all
    assert_eq!(SsTable::open(0, vec![0, 0, 0, 0]).err(), Some(Error::Corrupted));
    // the index is said to start past the end
    assert_eq!(SsTable::open(0, vec![1, 2, 0, 0, 0, 9]).err(), Some(Error::Corrupted));
    let table = generate_sst();
    let bytes = table.file_bytes().to_vec();
    // cut inside the index
    let mut cut = bytes[..bytes.len() - 5].to_vec();
    cut.extend_from_slice(&bytes[bytes.len() - 4..]);
    assert_eq!(SsTable::open(0, cut).err(), Some(Error::Corrupted));
    // the first block is said to start at byte one
    let meta_at = table_meta_offset(&table);
    let mut shifted = bytes.clone();
    shifted[meta_at + 3] = 1;
    assert_eq!(SsTable::open(0, shifted).err(), Some(Error::Corrupted));
}

#[test]
fn test_sst_flipped_byte_in_block_region_fails_checksum() {
    let mut builder = SsTableBuilder::new(32);
    builder.add(b"k1", b"value1");
    builder.add(b"k2", b"value2");
    builder.add(b"k3", b"value3");
    builder.add(b"k4", b"value4");
    let table = builder.build_for_test().unwrap();
    let bytes = table.file_bytes().to_vec();
    let meta_at = table_meta_offset(&table);
    let blocks = table.num_of_blocks();
    assert!(blocks >= 2);
    let metas = BlockMeta::decode_block_meta(&bytes[meta_at..bytes.len() - 4]).unwrap();
    for pos in 0..meta_at {
        let mut damaged = bytes.clone();
        damaged[pos] ^= 0x01;
        let reopened = SsTable::open(0, damaged).unwrap();
        for i in 0..blocks {
            let end = if i + 1 < blocks { metas[i + 1].offset } else { meta_at };
            let hit = metas[i].offset <= pos && pos < end;
            let read = reopened.read_block(i);
            if hit {
                assert_eq!(read.err(), Some(Error::ChecksumMismatch));
            } else {
                assert!(read.is_ok());
            }
        }
    }
}

#[test]
fn test_sst_block_with_right_checksum_and_wrong_shape_is_corrupted() {
    // one block whose count says three entries where there is room for none
    let block: Vec<u8> = vec![0, 3];
    let mut file = block.clone();
    file.extend_from_slice(&crc_be(&block));
    let meta_at = file.len() as u32;
    let metas = vec![BlockMeta { offset: 0, first_key: b"a".to_vec(), last_key: b"a".to_vec() }];
    BlockMeta::encode_block_meta(&metas, &mut file);
    file.extend_from_slice(&meta_at.to_be_bytes());
    let table = SsTable::open(1, file).unwrap();
    assert_eq!(table.read_block(0).err(), Some(Error::Corrupted));
    let opened = SsTableIterator::create_and_seek_to_first(Arc::new(table));
    assert_eq!(opened.err(), Some(Error::Corrupted));
}

#[test]
fn test_sst_find_block_idx() {
    let mut builder = SsTableBuilder::new(8);
    builder.add(b"b", b"1");
    builder.add(b"d", b"2");
    builder.add(b"f", b"3");
    let table = builder.build_for_test().unwrap();
    assert_eq!(table.num_of_blocks(), 3);
    assert_eq!(table.find_block_idx(b"a"), 0);
    assert_eq!(table.find_block_idx(b"b"), 0);
    assert_eq!(table.find_block_idx(b"c"), 0);
    assert_eq!(table.find_block_idx(b"d"), 1);
    assert_eq!(table.find_block_idx(b"e"), 1);
    assert_eq!(table.find_block_idx(b"f"), 2);
    assert_eq!(table.find_block_idx(b"z"), 2);
}

#[test]
fn test_sst_iterator() {
    let sst = Arc::new(generate_sst());
    let mut iter = SsTableIterator::create_and_seek_to_first(sst).unwrap();
    for _ in 0..5 {
        for i in 0..num_of_keys() {
            assert!(iter.is_valid());
            assert_eq!(iter.key(), &key_of(i)[..]);
            assert_eq!(iter.value(), &value_of(i)[..]);
            iter.next().unwrap();
        }
        assert!(!iter.is_valid());
        iter.seek_to_first().unwrap();
    }
}

#[test]
fn test_sst_seek_key() {
    let sst = Arc::new(generate_sst());
    let mut iter = SsTableIterator::create_and_seek_to_key(sst, &key_of(0)).unwrap();
    for offset in 1..=5 {
        for i in 0..num_of_keys() {
            assert!(iter.is_valid());
            assert_eq!(iter.key(), &key_of(i)[..]);
            assert_eq!(iter.value(), &value_of(i)[..]);
            let between = format!("key_{:03}", i * 5 + offset).into_bytes();
            iter.seek_to_key(&between).unwrap();
        }
        assert!(!iter.is_valid());
        iter.seek_to_key(b"k").unwrap();
        assert!(iter.is_valid());
        assert_eq!(iter.key(), &key_of(0)[..]);
    }
}

#[test]
fn test_sst_seek_between_blocks_lands_on_next_block() {
    // every entry is a block of its own
    let mut builder = SsTableBuilder::new(8);
    builder.add(b"b", b"1");
    builder.add(b"d", b"2");
    builder.add(b"f", b"3");
    let table = Arc::new(builder.build_for_test().unwrap());
    assert_eq!(table.num_of_blocks(), 3);
    let iter = SsTableIterator::create_and_seek_to_key(table.clone(), b"c").unwrap();
    assert!(iter.is_valid());
    assert_eq!(iter.key(), b"d");
    assert_eq!(iter.value(), b"2");
    let iter = SsTableIterator::create_and_seek_to_key(table.clone(), b"a").unwrap();
    assert_eq!(iter.key(), b"b");
    let iter = SsTableIterator::create_and_seek_to_key(table.clone(), b"d").unwrap();
    assert_eq!(iter.key(), b"d");
    let iter = SsTableIterator::create_and_seek_to_key(table.clone(), b"e").unwrap();
    assert_eq!(iter.key(), b"f");
    let iter = SsTableIterator::create_and_seek_to_key(table.clone(), b"g").unwrap();
    assert!(!iter.is_valid());
}

#[test]
fn test_sst_seek_lands_on_smallest_key_at_or_after() {
    let table = Arc::new(generate_sst());
    assert!(table.num_of_blocks() > 10);
    for probe in 0..(num_of_keys() * 5 + 3) {
        let key = format!("key_{:03}", probe).into_bytes();
        let iter = SsTableIterator::create_and_seek_to_key(table.clone(), &key).unwrap();
        let expected = (probe + 4) / 5;
        if expected < num_of_keys() {
            assert!(iter.is_valid());
            assert_eq!(iter.key(), &key_of(expected)[..]);
        } else {
            assert!(!iter.is_valid());
        }
    }
}

#[test]
fn test_sst_seek_to_next_moves_one_block() {
    let mut builder = SsTableBuilder::new(8);
    builder.add(b"b", b"1");
    builder.add(b"d", b"2");
    let table = Arc::new(builder.build_for_test().unwrap());
    let mut iter = SsTableIterator::create_and_seek_to_first(table).unwrap();
    assert_eq!(iter.key(), b"b");
    iter.seek_to_next().unwrap();
    assert_eq!(iter.key(), b"d");
    assert_eq!(iter.num_active_iterators(), 1);
}

#[test]
fn test_sst_iterator_fails_on_damaged_next_block() {
    let mut builder = SsTableBuilder::new(8);
    builder.add(b"b", b"1");
    builder.add(b"d", b"2");
    let table = builder.build_for_test().unwrap();
    let mut bytes = table.file_bytes().to_vec();
    // the second block starts after the ten bytes of the first and its checksum
    bytes[14 + 2] ^= 0xff;
    let damaged = Arc::new(SsTable::open(0, bytes).unwrap());
    let mut iter = SsTableIterator::create_and_seek_to_first(damaged.clone()).unwrap();
    assert_eq!(iter.key(), b"b");
    assert_eq!(iter.next(), Err(Error::ChecksumMismatch));
    assert!(!iter.is_valid());
    let sought = SsTableIterator::create_and_seek_to_key(damaged, b"c");
    assert_eq!(sought.err(), Some(Error::ChecksumMismatch));
}

#[test]
fn test_error_messages() {
    assert_eq!(Error::ChecksumMismatch.message(), "block checksum mismatch");
    assert_eq!(Error::Corrupted.message(), "malformed table or block");
    assert_eq!(
        Error::TableTooLarge.message(),
        "table larger than a 32-bit offset can address"
    );
}

#[test]
fn test_sst_validate_accepts_built_table() {
    let table = generate_sst();
    assert!(table.validate());
    let reopened = SsTable::open(0, table.file_bytes().to_vec()).unwrap();
    assert!(reopened.validate());
}

#[test]
fn test_sst_validate_rejects_damaged_block() {
    let table = generate_sst();
    let mut bytes = table.file_bytes().to_vec();
    bytes[5] ^= 0x40;
    let damaged = SsTable::open(0, bytes).unwrap();
    assert!(!damaged.validate());
}

#[test]
fn test_sst_validate_rejects_keys_out_of_order() {
    // within one block
    let mut builder = SsTableBuilder::new(4096);
    builder.add(b"b", b"1");
    builder.add(b"a", b"2");
    let table = builder.build_for_test().unwrap();
    assert_eq!(table.num_of_blocks(), 1);
    assert!(!table.validate());
    // from one block to the next
    let mut builder = SsTableBuilder::new(8);
    builder.add(b"b", b"1");
    builder.add(b"a", b"2");
    let table = builder.build_for_test().unwrap();
    assert_eq!(table.num_of_blocks(), 2);
    assert!(!table.validate());
    // the same key twice
    let mut builder = SsTableBuilder::new(4096);
    builder.add(b"a", b"1");
    builder.add(b"a", b"2");
    assert!(!builder.build_for_test().unwrap().validate());
}

#[test]
fn test_sst_validate_rejects_index_with_wrong_keys() {
    let mut builder = SsTableBuilder::new(8);
    builder.add(b"b", b"1");
    builder.add(b"d", b"2");
    let table = builder.build_for_test().unwrap();
    let mut bytes = table.file_bytes().to_vec();
    let meta_at = table_meta_offset(&table);
    // the first key of the first block, as the index gives it
    assert_eq!(bytes[meta_at + 6], b'b');
    bytes[meta_at + 6] = b'a';
    let changed = SsTable::open(0, bytes).unwrap();
    assert_eq!(changed.first_key(), b"a");
    assert!(changed.read_block(0).is_ok());
    assert!(!changed.validate());
}

#[test]
fn test_sst_seek_fails_only_where_it_reads_a_damaged_block() {
    // three blocks of one entry each; the last one is damaged
    let mut builder = SsTableBuilder::new(8);
    builder.add(b"b", b"1");
    builder.add(b"d", b"2");
    builder.add(b"f", b"3");
    let table = builder.build_for_test().unwrap();
    let mut bytes = table.file_bytes().to_vec();
    bytes[2 * 14 + 2] ^= 0xff;
    let damaged = Arc::new(SsTable::open(0, bytes).unwrap());
    assert!(damaged.read_block(0).is_ok());
    assert!(damaged.read_block(1).is_ok());
    assert_eq!(damaged.read_block(2).err(), Some(Error::ChecksumMismatch));
    // searches that stay in the first two blocks succeed
    for key in [&b"a"[..], &b"b"[..], &b"c"[..], &b"d"[..]] {
        let iter = SsTableIterator::create_and_seek_to_key(damaged.clone(), key).unwrap();
        assert!(iter.is_valid());
    }
    // a search that starts in the second block and has to move on fails
    let moved_on = SsTableIterator::create_and_seek_to_key(damaged.clone(), b"e");
    assert_eq!(moved_on.err(), Some(Error::ChecksumMismatch));
    // as does one that starts in the third
    let started = SsTableIterator::create_and_seek_to_key(damaged.clone(), b"f");
    assert_eq!(started.err(), Some(Error::ChecksumMismatch));
    // a failed search leaves the iterator where it was
    let mut iter = SsTableIterator::create_and_seek_to_first(damaged).unwrap();
    assert_eq!(iter.seek_to_key(b"z"), Err(Error::ChecksumMismatch));
    assert!(iter.is_valid());
    assert_eq!(iter.key(), b"b");
}
