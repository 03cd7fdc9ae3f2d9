use tinkv::data::Entry;
use tinkv::error::TinkvError;
use tinkv::segment::{Location, Segment};
use tinkv::store::{OpenOptions, Store, FIRST_SEGMENT_ID};

fn options(max_segment_size: usize) -> OpenOptions {
    OpenOptions { max_segment_size, sync: false, strict_delete: false }
}

fn snapshot(store: &Store) -> Vec<Segment> {
    store.segments().iter().map(|s| s.clone()).collect()
}

fn entry(key: &[u8], value: &[u8]) -> Entry {
    Entry::with_timestamp(key.to_vec(), value.to_vec(), 3)
}

#[test]
fn put_then_get_returns_the_value() {
    let mut store = Store::create(options(1 << 20));
    assert_eq!(store.get(b"k"), Ok(None));
    store.put(b"k", b"v1").unwrap();
    assert_eq!(store.get(b"k"), Ok(Some(b"v1".to_vec())));
    store.put(b"k", b"v2").unwrap();
    store.put(b"other", b"x").unwrap();
    assert_eq!(store.get(b"k"), Ok(Some(b"v2".to_vec())));
    assert_eq!(store.get(b"other"), Ok(Some(b"x".to_vec())));
}

#[test]
fn delete_then_get_returns_absent() {
    let mut store = Store::create(options(1 << 20));
    store.put(b"k", b"v1").unwrap();
    store.put(b"k", b"v2").unwrap();
    store.put(b"stay", b"s").unwrap();
    store.delete(b"k").unwrap();
    assert_eq!(store.get(b"k"), Ok(None));
    assert_eq!(store.get(b"stay"), Ok(Some(b"s".to_vec())));
    store.delete(b"never").unwrap();
    assert_eq!(store.get(b"never"), Ok(None));
    store.put(b"k", b"v3").unwrap();
    assert_eq!(store.get(b"k"), Ok(Some(b"v3".to_vec())));
}

#[test]
fn scenario_put_put_delete_close_reopen() {
    let mut store = Store::open(OpenOptions::default(), Vec::new(), false).unwrap();
    store.put(b"a", b"1").unwrap();
    store.put(b"b", b"2").unwrap();
    store.delete(b"a").unwrap();
    assert_eq!(store.close(), Ok(()));
    let reopened = Store::open(OpenOptions::default(), snapshot(&store), false).unwrap();
    assert_eq!(reopened.get(b"a"), Ok(None));
    assert_eq!(reopened.get(b"b"), Ok(Some(b"2".to_vec())));
}

#[test]
fn receipt_tells_where_the_record_stands() {
    let mut store = Store::create(OpenOptions { max_segment_size: 60, sync: true, strict_delete: false });
    let first = store.put_at(b"a", b"1", 3).unwrap();
    assert_eq!(first.location, Location { segment_id: FIRST_SEGMENT_ID, offset: 0, length: 26 });
    assert!(first.sync);
    assert_eq!(first.rotated_to, None);
    let second = store.put_at(b"key", b"value", 3).unwrap();
    assert_eq!(second.location, Location { segment_id: 1, offset: 26, length: 32 });
    assert_eq!(second.rotated_to, None);
    assert_eq!(store.segments()[0].bytes()[26..], entry(b"key", b"value").encode()[..]);
    let third = store.delete_at(b"a", 3).unwrap();
    assert_eq!(third.location, Location { segment_id: 1, offset: 58, length: 25 });
    assert_eq!(third.rotated_to, Some(2));
    assert!(third.sync);
}

#[test]
fn rotation_creates_a_new_segment_and_keeps_prior_writes() {
    let mut store = Store::create(options(100));
    let mut rotations = 0;
    for i in 0..20u8 {
        let receipt = store.put(&[b'k', i], &[b'v', i]).unwrap();
        if let Some(next) = receipt.rotated_to {
            rotations += 1;
            assert_eq!(next, receipt.location.segment_id + 1);
            assert!(receipt.sync);
            assert!(receipt.location.offset + receipt.location.length >= 100);
        } else {
            assert!(receipt.location.offset + receipt.location.length < 100);
            assert!(!receipt.sync);
        }
    }
    assert_eq!(rotations, 5);
    let segments = store.segments();
    assert_eq!(segments.len(), 6);
    for (at, segment) in segments.iter().enumerate() {
        assert_eq!(segment.id(), at as u64 + 1);
        assert_eq!(segment.is_sealed(), at + 1 < segments.len());
    }
    assert_eq!(segments[5].len(), 0);
    for i in 0..20u8 {
        assert_eq!(store.get(&[b'k', i]), Ok(Some(vec![b'v', i])));
    }
}

#[test]
fn threshold_is_met_exactly() {
    let mut store = Store::create(options(26));
    let receipt = store.put(b"a", b"1").unwrap();
    assert_eq!(receipt.rotated_to, Some(2));
    let mut store = Store::create(options(27));
    let receipt = store.put(b"a", b"1").unwrap();
    assert_eq!(receipt.rotated_to, None);
    let mut store = Store::create(options(0));
    assert_eq!(store.put(b"a", b"1").unwrap().rotated_to, Some(2));
    assert_eq!(store.put(b"b", b"2").unwrap().rotated_to, Some(3));
    assert_eq!(store.get(b"a"), Ok(Some(b"1".to_vec())));
}

#[test]
fn compaction_preserves_what_every_key_holds() {
    let mut store = Store::create(options(120));
    for round in 0..6u8 {
        for i in 0..10u8 {
            store.put(&[b'k', i], &[b'v', i, round]).unwrap();
        }
        store.delete(&[b'k', round]).unwrap();
    }
    store.put(b"k\x00", b"back").unwrap();
    let keys: Vec<Vec<u8>> = (0..12u8).map(|i| vec![b'k', i]).collect();
    let before: Vec<_> = keys.iter().map(|k| store.get(k)).collect();
    let active_before = store.segments().last().unwrap().clone();
    let sealed_before: Vec<u64> =
        store.segments().iter().filter(|s| s.is_sealed()).map(|s| s.id()).collect();
    let bytes_before: usize = store.segments().iter().map(|s| s.len()).sum();

    let receipt = store.compact().unwrap();

    let after: Vec<_> = keys.iter().map(|k| store.get(k)).collect();
    assert_eq!(before, after);
    assert_eq!(receipt.removed, sealed_before);
    assert_eq!(receipt.merged, sealed_before.last().copied());
    assert_eq!(store.segments().len(), 2);
    assert_eq!(store.segments()[0].id(), *sealed_before.last().unwrap());
    assert!(store.segments()[0].is_sealed());
    assert_eq!(store.segments()[1].id(), active_before.id());
    assert_eq!(store.segments()[1].bytes(), active_before.bytes());
    assert!(!store.segments()[1].is_sealed());
    let bytes_after: usize = store.segments().iter().map(|s| s.len()).sum();
    assert!(bytes_after < bytes_before);

    let reopened = Store::open(options(120), snapshot(&store), false).unwrap();
    let again: Vec<_> = keys.iter().map(|k| reopened.get(k)).collect();
    assert_eq!(before, again);

    store.put(b"k\x01", b"new").unwrap();
    let receipt = store.compact().unwrap();
    assert_eq!(receipt.removed.len(), 1);
    assert_eq!(store.get(b"k\x01"), Ok(Some(b"new".to_vec())));
    assert_eq!(store.get(b"k\x09"), Ok(Some(vec![b'v', 9, 5])));
}

#[test]
fn compaction_drops_tombstones_and_superseded_records() {
    let mut store = Store::create(options(1));
    store.put_at(b"a", b"1", 3).unwrap();
    store.put_at(b"a", b"2", 3).unwrap();
    store.put_at(b"b", b"3", 3).unwrap();
    store.delete_at(b"b", 3).unwrap();
    store.put_at(b"c", b"4", 3).unwrap();
    assert_eq!(store.segments().len(), 6);
    let receipt = store.compact().unwrap();
    assert_eq!(receipt.removed, vec![1, 2, 3, 4, 5]);
    assert_eq!(receipt.merged, Some(5));
    let mut expected = entry(b"a", b"2").encode();
    expected.extend_from_slice(&entry(b"c", b"4").encode());
    assert_eq!(store.segments()[0].bytes(), &expected[..]);
    assert_eq!(store.segments()[1].id(), 6);
    assert_eq!(store.get(b"a"), Ok(Some(b"2".to_vec())));
    assert_eq!(store.get(b"b"), Ok(None));
    assert_eq!(store.get(b"c"), Ok(Some(b"4".to_vec())));
}

#[test]
fn compaction_without_sealed_segments_changes_nothing() {
    let mut store = Store::create(options(1 << 20));
    store.put(b"a", b"1").unwrap();
    let before = store.segments()[0].bytes().to_vec();
    let receipt = store.compact().unwrap();
    assert_eq!(receipt.merged, None);
    assert!(receipt.removed.is_empty());
    assert_eq!(store.segments().len(), 1);
    assert_eq!(store.segments()[0].bytes(), &before[..]);
}

#[test]
fn open_recovers_a_file_truncated_in_its_last_record() {
    let mut first = Segment::create(1);
    first.append(&entry(b"a", b"1")).unwrap();
    first.append(&entry(b"b", b"2")).unwrap();
    let mut second = Segment::create(2);
    second.append(&entry(b"a", b"3")).unwrap();
    second.append(&entry(b"c", b"4")).unwrap();
    let whole = second.len();
    for cut in 27..whole {
        let mut torn = second.clone();
        torn.truncate(cut);
        let store = Store::open(options(1 << 20), vec![first.clone(), torn], false).unwrap();
        assert_eq!(store.get(b"a"), Ok(Some(b"3".to_vec())));
        assert_eq!(store.get(b"b"), Ok(Some(b"2".to_vec())));
        assert_eq!(store.get(b"c"), Ok(None));
        assert_eq!(store.segments()[1].len(), 26);
    }
    for cut in 1..26 {
        let mut torn = second.clone();
        torn.truncate(cut);
        let store = Store::open(options(1 << 20), vec![first.clone(), torn], false).unwrap();
        assert_eq!(store.get(b"a"), Ok(Some(b"1".to_vec())));
        assert_eq!(store.segments()[1].len(), 0);
    }
}

#[test]
fn open_recovers_a_last_record_with_a_wrong_checksum() {
    let mut bytes = entry(b"a", b"1").encode();
    let mut last = entry(b"b", b"2").encode();
    last[16] ^= 0x40;
    bytes.extend_from_slice(&last);
    let mut store = Store::open(options(1 << 20), vec![Segment::from_bytes(7, bytes)], false).unwrap();
    assert_eq!(store.get(b"a"), Ok(Some(b"1".to_vec())));
    assert_eq!(store.get(b"b"), Ok(None));
    assert_eq!(store.segments()[0].len(), 26);
    let receipt = store.put_at(b"c", b"3", 3).unwrap();
    assert_eq!(receipt.location, Location { segment_id: 7, offset: 26, length: 26 });
}

#[test]
fn open_fails_on_damage_before_the_tail() {
    let mut bytes = entry(b"a", b"1").encode();
    bytes[16] ^= 0x40;
    bytes.extend_from_slice(&entry(b"b", b"2").encode()[..10]);
    let r = Store::open(options(1 << 20), vec![Segment::from_bytes(1, bytes)], false);
    assert_eq!(r.unwrap_err(), TinkvError::Corrupt);

    let mut bytes = entry(b"a", b"1").encode();
    bytes[17] ^= 1;
    bytes.extend_from_slice(&entry(b"b", b"2").encode());
    let r = Store::open(options(1 << 20), vec![Segment::from_bytes(1, bytes)], false);
    assert_eq!(r.unwrap_err(), TinkvError::Corrupt);
}

#[test]
fn open_fails_on_any_damage_in_an_older_segment() {
    let mut old = entry(b"a", b"1").encode();
    old.truncate(20);
    let new = entry(b"b", b"2").encode();
    let r = Store::open(
        options(1 << 20),
        vec![Segment::from_bytes(1, old), Segment::from_bytes(2, new)],
        false,
    );
    assert_eq!(r.unwrap_err(), TinkvError::Corrupt);
}

#[test]
fn open_sorts_segments_by_id() {
    let mut one = Segment::create(10);
    one.append(&entry(b"k", b"old")).unwrap();
    let mut two = Segment::create(20);
    two.append(&entry(b"k", b"mid")).unwrap();
    two.seal();
    let mut three = Segment::create(30);
    three.append(&entry(b"k", b"new")).unwrap();
    three.append(&entry(b"gone", b"")).unwrap();
    let mut zero = Segment::create(5);
    zero.append(&entry(b"gone", b"here")).unwrap();
    let store = Store::open(options(1 << 20), vec![three, one, zero, two], false).unwrap();
    assert_eq!(store.get(b"k"), Ok(Some(b"new".to_vec())));
    assert_eq!(store.get(b"gone"), Ok(None));
    let ids: Vec<u64> = store.segments().iter().map(|s| s.id()).collect();
    assert_eq!(ids, vec![5, 10, 20, 30]);
    let sealed: Vec<bool> = store.segments().iter().map(|s| s.is_sealed()).collect();
    assert_eq!(sealed, vec![true, true, true, false]);
}

#[test]
fn open_rejects_two_segments_with_one_id() {
    let r = Store::open(
        options(1 << 20),
        vec![Segment::create(2), Segment::create(1), Segment::create(2)],
        false,
    );
    assert_eq!(r.unwrap_err(), TinkvError::Corrupt);
}

#[test]
fn open_of_an_empty_directory_starts_with_the_first_id() {
    let mut store = Store::open(options(1 << 20), Vec::new(), false).unwrap();
    assert_eq!(store.segments().len(), 1);
    assert_eq!(store.segments()[0].id(), FIRST_SEGMENT_ID);
    assert!(!store.is_closed());
    assert_eq!(store.options(), options(1 << 20));
    assert!(store.keys().is_empty());
    assert_eq!(store.put(b"a", b"1").unwrap().location.segment_id, 1);
}

#[test]
fn open_seals_a_newest_segment_that_exceeds_the_limit() {
    let mut seg = Segment::create(3);
    seg.append(&entry(b"a", b"1")).unwrap();
    let store = Store::open(options(25), vec![seg.clone()], false).unwrap();
    assert_eq!(store.segments().len(), 2);
    assert!(store.segments()[0].is_sealed());
    assert_eq!(store.segments()[1].id(), 4);
    assert_eq!(store.segments()[1].len(), 0);
    assert_eq!(store.get(b"a"), Ok(Some(b"1".to_vec())));

    let store = Store::open(options(26), vec![seg.clone()], false).unwrap();
    assert_eq!(store.segments().len(), 1);
    assert!(!store.segments()[0].is_sealed());

    let mut last = Segment::create(u64::MAX);
    last.append(&entry(b"a", b"1")).unwrap();
    let r = Store::open(options(25), vec![last.clone()], false);
    assert_eq!(r.unwrap_err(), TinkvError::Io);
    let mut store = Store::open(options(1000), vec![last], false).unwrap();
    assert!(store.put(b"b", b"2").is_ok());
    let mut tight = Store::open(options(60), snapshot(&store), false).unwrap();
    assert_eq!(tight.put(b"c", b"3").unwrap_err(), TinkvError::Io);
    assert_eq!(tight.get(b"c"), Ok(None));
    assert_eq!(tight.segments()[0].len(), 52);
}

#[test]
fn open_fails_when_locked() {
    let r = Store::open(options(1 << 20), Vec::new(), true);
    assert_eq!(r.unwrap_err(), TinkvError::Locked);
}

#[test]
fn closed_store_refuses_everything() {
    let mut store = Store::create(options(1));
    store.put(b"a", b"1").unwrap();
    assert_eq!(store.close(), Ok(()));
    assert!(store.is_closed());
    let before = snapshot(&store);
    assert_eq!(store.close(), Err(TinkvError::Closed));
    assert_eq!(store.get(b"a"), Err(TinkvError::Closed));
    assert_eq!(store.put(b"a", b"2").unwrap_err(), TinkvError::Closed);
    assert_eq!(store.put(b"a", b"").unwrap_err(), TinkvError::Closed);
    assert_eq!(store.delete(b"a").unwrap_err(), TinkvError::Closed);
    assert_eq!(store.compact().unwrap_err(), TinkvError::Closed);
    assert_eq!(store.segments().len(), before.len());
    assert_eq!(store.segments()[0].bytes(), before[0].bytes());
}

#[test]
fn empty_value_is_refused() {
    let mut store = Store::create(options(1 << 20));
    store.put(b"a", b"1").unwrap();
    assert_eq!(store.put(b"a", b"").unwrap_err(), TinkvError::EmptyValue);
    assert_eq!(store.get(b"a"), Ok(Some(b"1".to_vec())));
    assert_eq!(store.segments()[0].len(), 26);
}

#[test]
fn strict_delete_fails_on_absent_keys() {
    let mut store =
        Store::create(OpenOptions { max_segment_size: 1 << 20, sync: false, strict_delete: true });
    assert_eq!(store.delete(b"a").unwrap_err(), TinkvError::NotFound);
    assert_eq!(store.segments()[0].len(), 0);
    store.put(b"a", b"1").unwrap();
    assert!(store.delete(b"a").is_ok());
    assert_eq!(store.delete(b"a").unwrap_err(), TinkvError::NotFound);
    assert_eq!(store.get(b"a"), Ok(None));
}

#[test]
fn keys_lists_live_keys() {
    let mut store = Store::create(options(50));
    store.put(b"a", b"1").unwrap();
    store.put(b"b", b"2").unwrap();
    store.put(b"c", b"3").unwrap();
    store.delete(b"b").unwrap();
    store.put(b"a", b"4").unwrap();
    let mut keys = store.keys();
    keys.sort();
    assert_eq!(keys, vec![b"a".to_vec(), b"c".to_vec()]);
    store.compact().unwrap();
    let mut keys = store.keys();
    keys.sort();
    assert_eq!(keys, vec![b"a".to_vec(), b"c".to_vec()]);
}

#[test]
fn default_options() {
    let d = OpenOptions::default();
    assert_eq!(d.max_segment_size, 64 * 1024 * 1024);
    assert!(!d.sync);
    assert!(!d.strict_delete);
}

#[test]
fn sort_segments_orders_by_id() {
    let sorted = tinkv::recovery::sort_segments(vec![
        Segment::create(3),
        Segment::create(1),
        Segment::create(2),
        Segment::create(1),
    ]);
    let ids: Vec<u64> = sorted.iter().map(|s| s.id()).collect();
    assert_eq!(ids, vec![1, 1, 2, 3]);
}
