use tinkv::data::Entry;
use tinkv::error::TinkvError;
use tinkv::segment::Segment;

fn entry(key: &[u8], value: &[u8]) -> Entry {
    Entry::with_timestamp(key.to_vec(), value.to_vec(), 3)
}

#[test]
fn append_returns_where_the_record_begins() {
    let mut seg = Segment::create(4);
    assert_eq!(seg.id(), 4);
    assert_eq!(seg.len(), 0);
    assert!(!seg.is_sealed());
    assert_eq!(seg.append(&entry(b"a", b"1")), Ok(0));
    assert_eq!(seg.len(), 26);
    assert_eq!(seg.append(&entry(b"bb", b"22")), Ok(26));
    assert_eq!(seg.len(), 54);
    let mut expected = entry(b"a", b"1").encode();
    expected.extend_from_slice(&entry(b"bb", b"22").encode());
    assert_eq!(seg.bytes(), &expected[..]);
}

#[test]
fn read_at_gives_the_record_back() {
    let mut seg = Segment::create(1);
    seg.append(&entry(b"a", b"1")).unwrap();
    let at = seg.append(&entry(b"key", b"value")).unwrap();
    let back = seg.read_at(at, 32).unwrap();
    assert_eq!(back.key, b"key".to_vec());
    assert_eq!(back.value, b"value".to_vec());
    assert_eq!(back.timestamp, 3);
}

#[test]
fn read_at_tells_short_reads_from_corruption() {
    let mut seg = Segment::create(1);
    seg.append(&entry(b"key", b"value")).unwrap();
    assert_eq!(seg.read_at(0, 33).unwrap_err(), TinkvError::Io);
    assert_eq!(seg.read_at(40, 1).unwrap_err(), TinkvError::Io);
    assert_eq!(seg.read_at(usize::MAX, 2).unwrap_err(), TinkvError::Io);
    assert_eq!(seg.read_at(0, 31).unwrap_err(), TinkvError::Corrupt);
    assert_eq!(seg.read_at(1, 31).unwrap_err(), TinkvError::Corrupt);
}

#[test]
fn sealed_segment_refuses_appends() {
    let mut seg = Segment::create(1);
    seg.append(&entry(b"a", b"1")).unwrap();
    seg.seal();
    seg.seal();
    assert!(seg.is_sealed());
    assert_eq!(seg.append(&entry(b"b", b"2")).unwrap_err(), TinkvError::Io);
    assert_eq!(seg.len(), 26);
    assert!(seg.read_at(0, 26).is_ok());
}

#[test]
fn iterate_yields_offsets_and_records_and_restarts() {
    let mut seg = Segment::create(1);
    seg.append(&entry(b"a", b"1")).unwrap();
    seg.append(&entry(b"b", b"")).unwrap();
    seg.append(&entry(b"c", b"333")).unwrap();
    for _ in 0..2 {
        let mut it = seg.iterate();
        let (at, e) = it.next().unwrap().unwrap();
        assert_eq!((at, e.key), (0, b"a".to_vec()));
        let (at, e) = it.next().unwrap().unwrap();
        assert_eq!((at, e.key, e.value.len()), (26, b"b".to_vec(), 0));
        let (at, e) = it.next().unwrap().unwrap();
        assert_eq!((at, e.value), (51, b"333".to_vec()));
        assert!(it.next().is_none());
        assert!(it.next().is_none());
        assert_eq!(it.offset(), seg.len());
    }
}

#[test]
fn iterate_ends_at_a_torn_tail() {
    let mut bytes = entry(b"a", b"1").encode();
    let second = entry(b"b", b"2").encode();
    bytes.extend_from_slice(&second[..10]);
    let seg = Segment::from_bytes(1, bytes);
    let mut it = seg.iterate();
    assert!(it.next().unwrap().is_ok());
    assert!(it.next().is_none());
    assert_eq!(it.offset(), 26);

    let mut bytes = entry(b"a", b"1").encode();
    let mut second = entry(b"b", b"2").encode();
    second[16] ^= 1;
    bytes.extend_from_slice(&second);
    let seg = Segment::from_bytes(1, bytes);
    let mut it = seg.iterate();
    assert!(it.next().unwrap().is_ok());
    assert!(it.next().is_none());
    assert_eq!(it.offset(), 26);
}

#[test]
fn iterate_reports_damage_in_the_middle() {
    let mut bytes = entry(b"a", b"1").encode();
    bytes[16] ^= 1;
    bytes.extend_from_slice(&entry(b"b", b"2").encode());
    let seg = Segment::from_bytes(1, bytes);
    let mut it = seg.iterate();
    assert_eq!(it.next().unwrap().unwrap_err(), TinkvError::Corrupt);
    assert_eq!(it.offset(), 0);
}

#[test]
fn truncate_and_into_bytes() {
    let mut seg = Segment::create(9);
    seg.append(&entry(b"a", b"1")).unwrap();
    seg.append(&entry(b"b", b"2")).unwrap();
    seg.truncate(100);
    assert_eq!(seg.len(), 52);
    seg.truncate(26);
    assert_eq!(seg.len(), 26);
    let copy = seg.clone();
    assert_eq!(copy.id(), 9);
    assert_eq!(seg.into_bytes(), entry(b"a", b"1").encode());
    assert_eq!(copy.bytes(), &entry(b"a", b"1").encode()[..]);
}

#[test]
fn file_names_sort_as_ids_do() {
    let name = tinkv::naming::file_name(42);
    assert_eq!(name, b"00000000000000000042.data".to_vec());
    assert_eq!(tinkv::naming::file_name(0), b"00000000000000000000.data".to_vec());
    assert_eq!(tinkv::naming::file_name(u64::MAX), b"18446744073709551615.data".to_vec());
    assert!(tinkv::naming::file_name(9) < tinkv::naming::file_name(10));
    assert!(tinkv::naming::file_name(99999) < tinkv::naming::file_name(100000));
}

#[test]
fn file_names_are_read_back() {
    for id in [0u64, 1, 9, 10, 123456789, u64::MAX - 1, u64::MAX] {
        assert_eq!(tinkv::naming::parse_file_name(&tinkv::naming::file_name(id)), Some(id));
    }
    let parse = tinkv::naming::parse_file_name;
    assert_eq!(parse(b"18446744073709551616.data"), None);
    assert_eq!(parse(b"99999999999999999999.data"), None);
    assert_eq!(parse(b"0000000000000000042.data"), None);
    assert_eq!(parse(b"000000000000000000042.data"), None);
    assert_eq!(parse(b"00000000000000000042.dat"), None);
    assert_eq!(parse(b"00000000000000000042.datb"), None);
    assert_eq!(parse(b"00000000000000000042xdata"), None);
    assert_eq!(parse(b"0000000000000000004a.data"), None);
    assert_eq!(parse(b"+0000000000000000042.data"), None);
    assert_eq!(parse(b"LOCK"), None);
    assert_eq!(parse(b""), None);
}
