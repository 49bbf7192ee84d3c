use bnc::bytes::{bytes_eq, bytes_lt, join, starts_with, tail};
use bnc::{Engine, MemEngine};

#[test]
fn engine_finds_what_was_put_until_it_is_deleted() {
    let mut e = MemEngine::new();
    assert_eq!(e.get(b"k"), None);
    e.put(b"k", b"v1");
    assert_eq!(e.get(b"k"), Some(b"v1".to_vec()));
    e.put(b"k", b"v2");
    assert_eq!(e.get(b"k"), Some(b"v2".to_vec()));
    e.put(b"other", b"o");
    e.delete(b"k");
    assert_eq!(e.get(b"k"), None);
    assert_eq!(e.get(b"other"), Some(b"o".to_vec()));
    e.delete(b"k");
    e.flush();
    assert_eq!(e.get(b"other"), Some(b"o".to_vec()));
}

#[test]
fn seek_walks_a_prefix_in_byte_order() {
    let mut e = MemEngine::new();
    for k in [&b"b2"[..], b"a", b"b", b"b1", b"c", b"b10"] {
        e.put(k, k);
    }
    assert_eq!(e.seek(b"b", None), Some((b"b".to_vec(), b"b".to_vec())));
    assert_eq!(e.seek(b"b", Some(b"b")), Some((b"b1".to_vec(), b"b1".to_vec())));
    assert_eq!(e.seek(b"b", Some(b"b1")), Some((b"b10".to_vec(), b"b10".to_vec())));
    assert_eq!(e.seek(b"b", Some(b"b10")), Some((b"b2".to_vec(), b"b2".to_vec())));
    assert_eq!(e.seek(b"b", Some(b"b2")), None);
    assert_eq!(e.seek(b"b", Some(b"a")), Some((b"b".to_vec(), b"b".to_vec())));
    assert_eq!(e.seek(b"b", Some(b"z")), None);
    assert_eq!(e.seek(b"", None), Some((b"a".to_vec(), b"a".to_vec())));
    assert_eq!(e.seek(b"d", None), None);
}

#[test]
fn byte_strings_compare_lexicographically() {
    assert!(bytes_lt(b"", b"a"));
    assert!(!bytes_lt(b"", b""));
    assert!(!bytes_lt(b"a", b""));
    assert!(bytes_lt(b"a", b"ab"));
    assert!(!bytes_lt(b"ab", b"a"));
    assert!(bytes_lt(b"ab", b"b"));
    assert!(bytes_lt(&[1, 255], &[2, 0]));
    assert!(!bytes_lt(&[2, 0], &[1, 255]));
    assert!(!bytes_lt(b"same", b"same"));
    assert!(bytes_eq(b"same", b"same"));
    assert!(!bytes_eq(b"same", b"sama"));
    assert!(!bytes_eq(b"same", b"sam"));
    assert!(bytes_eq(b"", b""));
}

#[test]
fn prefixes_and_tails() {
    assert!(starts_with(b"prefix and more", b"prefix"));
    assert!(starts_with(b"prefix", b"prefix"));
    assert!(starts_with(b"anything", b""));
    assert!(!starts_with(b"pre", b"prefix"));
    assert!(!starts_with(b"prefiy", b"prefix"));
    assert_eq!(join(b"ab", b"cd"), b"abcd".to_vec());
    assert_eq!(join(b"", b""), Vec::<u8>::new());
    assert_eq!(tail(b"abcd", 1), b"bcd".to_vec());
    assert_eq!(tail(b"abcd", 4), Vec::<u8>::new());
    assert_eq!(tail(b"abcd", 0), b"abcd".to_vec());
}
