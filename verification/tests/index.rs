use tinkv::index::{bytes_eq, Index};
use tinkv::segment::Location;

#[test]
fn set_get_remove() {
    let mut index = Index::new();
    assert_eq!(index.len(), 0);
    assert_eq!(index.get(b"a"), None);
    index.set(b"a".to_vec(), 1, 0, 30);
    index.set(b"b".to_vec(), 1, 30, 31);
    assert_eq!(index.get(b"a"), Some(Location { segment_id: 1, offset: 0, length: 30 }));
    assert_eq!(index.get(b"b"), Some(Location { segment_id: 1, offset: 30, length: 31 }));
    index.set(b"a".to_vec(), 2, 7, 40);
    assert_eq!(index.len(), 2);
    assert_eq!(index.get(b"a"), Some(Location { segment_id: 2, offset: 7, length: 40 }));
    index.remove(b"a");
    assert_eq!(index.get(b"a"), None);
    assert_eq!(index.get(b"b"), Some(Location { segment_id: 1, offset: 30, length: 31 }));
    index.remove(b"missing");
    assert_eq!(index.len(), 1);
}

#[test]
fn keys_lists_each_live_key_once() {
    let mut index = Index::new();
    index.set(b"x".to_vec(), 1, 0, 1);
    index.set(b"y".to_vec(), 1, 1, 1);
    index.set(b"x".to_vec(), 1, 2, 1);
    index.insert_new(b"z".to_vec(), Location { segment_id: 3, offset: 4, length: 5 });
    let mut keys = index.keys();
    keys.sort();
    assert_eq!(keys, vec![b"x".to_vec(), b"y".to_vec(), b"z".to_vec()]);
    assert_eq!(index.key_at(0), b"x");
    assert_eq!(index.location_at(2), Location { segment_id: 3, offset: 4, length: 5 });
}

#[test]
fn bytes_eq_compares_content() {
    assert!(bytes_eq(b"", b""));
    assert!(bytes_eq(b"abc", b"abc"));
    assert!(!bytes_eq(b"abc", b"abd"));
    assert!(!bytes_eq(b"abc", b"ab"));
}
