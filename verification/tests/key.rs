use mini_lsm::key::{copy_bytes, key_equal, key_less};

#[test]
fn test_key_less_is_lexicographic() {
    assert!(key_less(b"", b"a"));
    assert!(!key_less(b"", b""));
    assert!(!key_less(b"a", b""));
    assert!(key_less(b"a", b"b"));
    assert!(!key_less(b"b", b"a"));
    assert!(key_less(b"ab", b"abc"));
    assert!(!key_less(b"abc", b"ab"));
    assert!(key_less(b"abc", b"abd"));
    assert!(key_less(b"b", b"ba"));
    assert!(key_less(b"az", b"b"));
    assert!(!key_less(b"same", b"same"));
    assert!(key_less(&[0x7f], &[0x80]));
    assert!(key_less(&[0x00, 0xff], &[0x01]));
}

#[test]
fn test_key_less_agrees_with_slice_order() {
    let keys: Vec<&[u8]> = vec![b"", b"1", b"10", b"2", b"a", b"aa", b"ab", b"b", b"\xff"];
    for a in keys.iter() {
        for b in keys.iter() {
            assert_eq!(key_less(a, b), a < b);
            assert_eq!(key_equal(a, b), a == b);
        }
    }
}

#[test]
fn test_key_equal() {
    assert!(key_equal(b"", b""));
    assert!(key_equal(b"abc", b"abc"));
    assert!(!key_equal(b"abc", b"abd"));
    assert!(!key_equal(b"abc", b"ab"));
}

#[test]
fn test_copy_bytes() {
    assert_eq!(copy_bytes(b"hello"), b"hello".to_vec());
    assert_eq!(copy_bytes(b""), Vec::<u8>::new());
}
