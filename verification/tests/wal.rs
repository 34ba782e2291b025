use bytes::Bytes;
use crossbeam_skiplist::SkipMap;
use mini_lsm::wal::{decode_records, encode_record, recover};

fn log_of(records: &[(&[u8], &[u8])]) -> Vec<u8> {
    let mut log = Vec::new();
    for (key, value) in records {
        encode_record(&mut log, key, value);
    }
    log
}

fn contents(map: &SkipMap<Bytes, Bytes>) -> Vec<(Vec<u8>, Vec<u8>)> {
    map.iter().map(|e| (e.key().to_vec(), e.value().to_vec())).collect()
}

#[test]
fn test_wal_record_exact_bytes() {
    let mut log = vec![0xaau8];
    encode_record(&mut log, b"key", b"va");
    assert_eq!(log, vec![0xaa, 0, 0, 0, 3, b'k', b'e', b'y', 0, 0, 0, 2, b'v', b'a']);
    let mut log = Vec::new();
    encode_record(&mut log, b"", b"");
    assert_eq!(log, vec![0u8; 8]);
    let mut log = Vec::new();
    let key = vec![1u8; 0x0102];
    encode_record(&mut log, &key, b"");
    assert_eq!(&log[..4], &[0u8, 0, 1, 2][..]);
    assert_eq!(log.len(), 8 + 0x0102);
}

#[test]
fn test_wal_decode_round_trip() {
    let records: [(&[u8], &[u8]); 4] =
        [(b"a", b"1"), (b"bb", b""), (b"", b"only value"), (b"a", b"2")];
    let log = log_of(&records);
    let decoded = decode_records(&log);
    assert_eq!(decoded.len(), 4);
    for (i, (key, value)) in records.iter().enumerate() {
        assert_eq!(&decoded[i].0[..], *key);
        assert_eq!(&decoded[i].1[..], *value);
    }
    assert_eq!(decode_records(&[]).len(), 0);
}

#[test]
fn test_wal_crash_tolerance() {
    let a: (&[u8], &[u8]) = (b"key_a", b"value_a");
    let b: (&[u8], &[u8]) = (b"key_b", b"value_b");
    let c: (&[u8], &[u8]) = (b"key_c", b"value_c");
    let whole = log_of(&[a, b]);
    let partial = log_of(&[c]);
    for cut in 0..partial.len() {
        let mut log = whole.clone();
        log.extend_from_slice(&partial[..cut]);
        let mut map = SkipMap::new();
        assert_eq!(recover(&log, &mut map), 2);
        assert_eq!(
            contents(&map),
            vec![
                (b"key_a".to_vec(), b"value_a".to_vec()),
                (b"key_b".to_vec(), b"value_b".to_vec())
            ]
        );
        let decoded = decode_records(&log);
        assert_eq!(decoded.len(), 2);
        assert_eq!(decoded[1], (b"key_b".to_vec(), b"value_b".to_vec()));
    }
    let mut log = whole.clone();
    log.extend_from_slice(&partial);
    let mut map = SkipMap::new();
    assert_eq!(recover(&log, &mut map), 3);
    assert_eq!(map.len(), 3);
}

#[test]
fn test_wal_recover_later_record_replaces_earlier() {
    let log = log_of(&[(b"k", b"1"), (b"j", b"x"), (b"k", b"2"), (b"k", b"")]);
    let mut map = SkipMap::new();
    map.insert(Bytes::from_static(b"old"), Bytes::from_static(b"kept"));
    map.insert(Bytes::from_static(b"j"), Bytes::from_static(b"replaced"));
    assert_eq!(recover(&log, &mut map), 4);
    assert_eq!(
        contents(&map),
        vec![
            (b"j".to_vec(), b"x".to_vec()),
            (b"k".to_vec(), Vec::new()),
            (b"old".to_vec(), b"kept".to_vec())
        ]
    );
}

#[test]
fn test_wal_recover_empty_log() {
    let mut map: SkipMap<Bytes, Bytes> = SkipMap::new();
    assert_eq!(recover(&[], &mut map), 0);
    assert!(map.is_empty());
    // fewer bytes than a length
    assert_eq!(recover(&[0, 0, 0], &mut map), 0);
    assert!(map.is_empty());
}

#[test]
fn test_wal_length_that_overruns_the_log_ends_reading() {
    let mut log = log_of(&[(b"a", b"1")]);
    // a record whose key is said to be longer than what is left
    log.extend_from_slice(&[0xff, 0xff, 0xff, 0xff, 1, 2, 3]);
    let decoded = decode_records(&log);
    assert_eq!(decoded, vec![(b"a".to_vec(), b"1".to_vec())]);
}
