use mini_lsm::error::Error;
use mini_lsm::iterators::heap::HeapWrapper;
use mini_lsm::iterators::merge_iterator::MergeIterator;
use mini_lsm::iterators::StorageIterator;
use mini_lsm::table::{SsTable, SsTableBuilder, SsTableIterator};
use std::sync::Arc;

fn table_of(pairs: &[(&[u8], &[u8])], block_size: usize) -> Arc<SsTable> {
    let mut builder = SsTableBuilder::new(block_size);
    for (key, value) in pairs {
        builder.add(key, value);
    }
    Arc::new(builder.build_for_test().unwrap())
}

fn source(pairs: &[(&[u8], &[u8])]) -> Box<SsTableIterator> {
    Box::new(SsTableIterator::create_and_seek_to_first(table_of(pairs, 32)).unwrap())
}

fn exhausted_source(pairs: &[(&[u8], &[u8])]) -> Box<SsTableIterator> {
    let iter = SsTableIterator::create_and_seek_to_key(table_of(pairs, 32), b"\xff\xff").unwrap();
    assert!(!iter.is_valid());
    Box::new(iter)
}

fn drain<I: StorageIterator>(iter: &mut I) -> Vec<(Vec<u8>, Vec<u8>)> {
    let mut out = Vec::new();
    while iter.is_valid() {
        out.push((iter.key().to_vec(), iter.value().to_vec()));
        iter.next().unwrap();
    }
    out
}

fn pairs_of(pairs: &[(&[u8], &[u8])]) -> Vec<(Vec<u8>, Vec<u8>)> {
    pairs.iter().map(|(k, v)| (k.to_vec(), v.to_vec())).collect()
}

#[test]
fn test_merge_duplicate_key_first_source_wins() {
    let iter0 = source(&[(b"k1", b"a")]);
    let iter1 = source(&[(b"k1", b"b")]);
    let mut merged = MergeIterator::create(vec![iter0, iter1]);
    assert!(merged.is_valid());
    assert_eq!(merged.key(), b"k1");
    assert_eq!(merged.value(), b"a");
    merged.next().unwrap();
    assert!(!merged.is_valid());
}

#[test]
fn test_merge_duplicate_key_order_of_sources_decides() {
    let iter0 = source(&[(b"k1", b"b")]);
    let iter1 = source(&[(b"k1", b"a")]);
    let mut merged = MergeIterator::create(vec![iter0, iter1]);
    assert_eq!(drain(&mut merged), pairs_of(&[(b"k1", b"b")]));
}

#[test]
fn test_merge_ordering() {
    let odd: [(&[u8], &[u8]); 3] = [(b"1", b"o1"), (b"3", b"o3"), (b"5", b"o5")];
    let even: [(&[u8], &[u8]); 3] = [(b"2", b"e2"), (b"4", b"e4"), (b"6", b"e6")];
    let expected = pairs_of(&[
        (b"1", b"o1"),
        (b"2", b"e2"),
        (b"3", b"o3"),
        (b"4", b"e4"),
        (b"5", b"o5"),
        (b"6", b"e6"),
    ]);
    let mut merged = MergeIterator::create(vec![source(&odd), source(&even)]);
    assert_eq!(drain(&mut merged), expected);
    let mut merged = MergeIterator::create(vec![source(&even), source(&odd)]);
    assert_eq!(drain(&mut merged), expected);
}

#[test]
fn test_merge_1() {
    let i1: [(&[u8], &[u8]); 3] = [(b"a", b"1.1"), (b"b", b"2.1"), (b"c", b"3.1")];
    let i2: [(&[u8], &[u8]); 4] = [(b"a", b"1.2"), (b"b", b"2.2"), (b"c", b"3.2"), (b"d", b"4.2")];
    let i3: [(&[u8], &[u8]); 3] = [(b"b", b"2.3"), (b"c", b"3.3"), (b"d", b"4.3")];
    let mut merged = MergeIterator::create(vec![source(&i1), source(&i2), source(&i3)]);
    assert_eq!(
        drain(&mut merged),
        pairs_of(&[(b"a", b"1.1"), (b"b", b"2.1"), (b"c", b"3.1"), (b"d", b"4.2")])
    );
    let mut merged = MergeIterator::create(vec![source(&i3), source(&i1), source(&i2)]);
    assert_eq!(
        drain(&mut merged),
        pairs_of(&[(b"a", b"1.1"), (b"b", b"2.3"), (b"c", b"3.3"), (b"d", b"4.3")])
    );
}

#[test]
fn test_merge_2() {
    let i1: [(&[u8], &[u8]); 3] = [(b"a", b"1.1"), (b"b", b"2.1"), (b"c", b"3.1")];
    let i2: [(&[u8], &[u8]); 3] = [(b"d", b"1.2"), (b"e", b"2.2"), (b"f", b"3.2")];
    let i3: [(&[u8], &[u8]); 3] = [(b"h", b"1.3"), (b"i", b"2.3"), (b"j", b"3.3")];
    let i4: [(&[u8], &[u8]); 1] = [(b"k", b"1.4")];
    let result = pairs_of(&[
        (b"a", b"1.1"),
        (b"b", b"2.1"),
        (b"c", b"3.1"),
        (b"d", b"1.2"),
        (b"e", b"2.2"),
        (b"f", b"3.2"),
        (b"h", b"1.3"),
        (b"i", b"2.3"),
        (b"j", b"3.3"),
        (b"k", b"1.4"),
    ]);
    let mut merged =
        MergeIterator::create(vec![source(&i1), source(&i2), source(&i3), source(&i4)]);
    assert_eq!(drain(&mut merged), result);
    let mut merged =
        MergeIterator::create(vec![source(&i2), source(&i4), source(&i3), source(&i1)]);
    assert_eq!(drain(&mut merged), result);
    let mut merged =
        MergeIterator::create(vec![source(&i4), source(&i3), source(&i2), source(&i1)]);
    assert_eq!(drain(&mut merged), result);
}

#[test]
fn test_merge_empty() {
    let mut merged = MergeIterator::<SsTableIterator>::create(vec![]);
    assert!(!merged.is_valid());
    assert_eq!(merged.num_active_iterators(), 0);
    assert_eq!(drain(&mut merged), Vec::new());
}

#[test]
fn test_merge_all_exhausted() {
    let pairs: [(&[u8], &[u8]); 2] = [(b"a", b"1"), (b"b", b"2")];
    let merged = MergeIterator::create(vec![exhausted_source(&pairs), exhausted_source(&pairs)]);
    assert!(!merged.is_valid());
    assert_eq!(merged.num_active_iterators(), 0);
    let merged = MergeIterator::create(vec![exhausted_source(&pairs)]);
    assert!(!merged.is_valid());
}

#[test]
fn test_merge_some_exhausted() {
    let i1: [(&[u8], &[u8]); 3] = [(b"a", b"1.1"), (b"b", b"2.1"), (b"c", b"3.1")];
    let i2: [(&[u8], &[u8]); 1] = [(b"b", b"2.2")];
    let mut merged =
        MergeIterator::create(vec![exhausted_source(&i1), source(&i2), source(&i1)]);
    assert_eq!(merged.num_active_iterators(), 2);
    assert_eq!(
        drain(&mut merged),
        pairs_of(&[(b"a", b"1.1"), (b"b", b"2.2"), (b"c", b"3.1")])
    );
    assert_eq!(merged.num_active_iterators(), 0);
}

#[test]
fn test_merge_counts_active_sources() {
    let i1: [(&[u8], &[u8]); 2] = [(b"a", b"1"), (b"c", b"3")];
    let i2: [(&[u8], &[u8]); 1] = [(b"a", b"2")];
    let i3: [(&[u8], &[u8]); 1] = [(b"b", b"2")];
    let mut merged = MergeIterator::create(vec![source(&i1), source(&i2), source(&i3)]);
    assert_eq!(merged.num_active_iterators(), 3);
    merged.next().unwrap();
    // the second source stood on the same key and is exhausted with it
    assert_eq!(merged.num_active_iterators(), 2);
    assert_eq!(merged.key(), b"b");
    merged.next().unwrap();
    assert_eq!(merged.num_active_iterators(), 1);
    assert_eq!(merged.key(), b"c");
    merged.next().unwrap();
    assert_eq!(merged.num_active_iterators(), 0);
}

#[test]
fn test_merge_many_sources_across_blocks() {
    let mut sources: Vec<Box<SsTableIterator>> = Vec::new();
    let mut expected: Vec<(Vec<u8>, Vec<u8>)> = Vec::new();
    for s in 0..7usize {
        let mut builder = SsTableBuilder::new(48);
        for k in 0..60usize {
            if k % (s + 2) == 0 {
                let key = format!("key_{:04}", k).into_bytes();
                let value = format!("v{}_{}", s, k).into_bytes();
                builder.add(&key, &value);
            }
        }
        let table = Arc::new(builder.build_for_test().unwrap());
        sources.push(Box::new(SsTableIterator::create_and_seek_to_first(table).unwrap()));
    }
    for k in 0..60usize {
        for s in 0..7usize {
            if k % (s + 2) == 0 {
                expected.push((
                    format!("key_{:04}", k).into_bytes(),
                    format!("v{}_{}", s, k).into_bytes(),
                ));
                break;
            }
        }
    }
    let mut merged = MergeIterator::create(sources);
    assert_eq!(drain(&mut merged), expected);
}

#[test]
fn test_merge_of_merges() {
    let i1: [(&[u8], &[u8]); 2] = [(b"a", b"1.1"), (b"c", b"3.1")];
    let i2: [(&[u8], &[u8]); 2] = [(b"b", b"2.2"), (b"c", b"3.2")];
    let i3: [(&[u8], &[u8]); 2] = [(b"a", b"1.3"), (b"d", b"4.3")];
    let inner0 = MergeIterator::create(vec![source(&i1), source(&i2)]);
    let inner1 = MergeIterator::create(vec![source(&i3)]);
    let mut merged = MergeIterator::create(vec![Box::new(inner1), Box::new(inner0)]);
    assert_eq!(
        drain(&mut merged),
        pairs_of(&[(b"a", b"1.3"), (b"b", b"2.2"), (b"c", b"3.1"), (b"d", b"4.3")])
    );
}

#[test]
fn test_merge_surfaces_error_of_a_source() {
    // two sources on the same key; the second cannot read its next block
    let mut builder = SsTableBuilder::new(8);
    builder.add(b"b", b"1");
    builder.add(b"d", b"2");
    let table = builder.build_for_test().unwrap();
    let mut bytes = table.file_bytes().to_vec();
    bytes[14 + 2] ^= 0xff;
    let damaged = Arc::new(SsTable::open(0, bytes).unwrap());
    let broken = Box::new(SsTableIterator::create_and_seek_to_first(damaged).unwrap());
    let sound = source(&[(b"b", b"x"), (b"c", b"y")]);
    let mut merged = MergeIterator::create(vec![sound, broken]);
    assert_eq!(merged.key(), b"b");
    assert_eq!(merged.value(), b"x");
    assert_eq!(merged.next(), Err(Error::ChecksumMismatch));
    // the source that failed has left the merge; the step was not taken
    assert!(merged.is_valid());
    assert_eq!(merged.key(), b"b");
    assert_eq!(merged.num_active_iterators(), 1);
    merged.next().unwrap();
    assert_eq!(merged.key(), b"c");
    merged.next().unwrap();
    assert!(!merged.is_valid());
}

#[test]
fn test_merge_surfaces_error_of_the_current_source() {
    let mut builder = SsTableBuilder::new(8);
    builder.add(b"b", b"1");
    builder.add(b"d", b"2");
    let table = builder.build_for_test().unwrap();
    let mut bytes = table.file_bytes().to_vec();
    bytes[14 + 2] ^= 0xff;
    let damaged = Arc::new(SsTable::open(0, bytes).unwrap());
    let broken = Box::new(SsTableIterator::create_and_seek_to_first(damaged).unwrap());
    let sound = source(&[(b"c", b"y")]);
    let mut merged = MergeIterator::create(vec![broken, sound]);
    assert_eq!(merged.key(), b"b");
    assert_eq!(merged.next(), Err(Error::ChecksumMismatch));
    // the source that failed is exhausted; the other one goes on
    assert!(merged.is_valid());
    assert_eq!(merged.key(), b"c");
}

#[test]
fn test_heap_order_by_key_then_by_place() {
    let a0 = HeapWrapper(0, source(&[(b"a", b"1")]));
    let a1 = HeapWrapper(1, source(&[(b"a", b"2")]));
    let b0 = HeapWrapper(0, source(&[(b"b", b"3")]));
    assert!(a0.precedes(&a1));
    assert!(!a1.precedes(&a0));
    assert!(a1.precedes(&b0));
    assert!(!b0.precedes(&a1));
    assert!(!a0.precedes(&a0));
}
