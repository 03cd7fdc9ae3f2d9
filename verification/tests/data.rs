use tinkv::data::{read_frame, Entry, FrameRead};
use tinkv::util::current_timestamp;

#[test]
fn test_new_entry() {
    let ent = Entry::new(b"key".to_vec(), b"value".to_vec());
    assert_eq!(ent.timestamp <= current_timestamp(), true);
    assert_eq!(ent.checksum, 3327521766);
}

#[test]
fn test_checksum_valid() {
    let ent = Entry::new(b"key".to_vec(), b"value".to_vec());
    assert_eq!(ent.is_valid(), true);
}

#[test]
fn test_checksum_invalid() {
    let mut ent = Entry::new(b"key".to_vec(), b"value".to_vec());
    ent.value = b"value_changed".to_vec();
    assert_eq!(ent.is_valid(), false);
}

#[test]
fn checksum_of_known_inputs() {
    assert_eq!(tinkv::util::checksum(b""), 0);
    assert_eq!(tinkv::util::checksum(b"123456789"), 3421780262);
    assert_eq!(tinkv::util::checksum(b"keyvalue"), 3327521766);
}

#[test]
fn checksum_continues_over_parts() {
    let first = tinkv::util::crc_update(0xFFFF_FFFF, b"key");
    let both = tinkv::util::crc_update(first, b"value");
    assert_eq!(both ^ 0xFFFF_FFFF, 3327521766);
}

#[test]
fn timestamp_saturates() {
    assert_eq!(tinkv::util::timestamp_from_secs(5), 5);
    assert_eq!(tinkv::util::timestamp_from_secs(4294967295), u32::MAX);
    assert_eq!(tinkv::util::timestamp_from_secs(4294967296), u32::MAX);
    assert_eq!(tinkv::util::timestamp_from_secs(u64::MAX), u32::MAX);
}

#[test]
fn current_timestamp_is_after_2017() {
    assert!(current_timestamp() > 1_500_000_000);
}

#[test]
fn encode_golden_bytes() {
    let ent = Entry::with_timestamp(b"key".to_vec(), b"value".to_vec(), 1);
    assert_eq!(ent.checksum, 3327521766);
    assert_eq!(ent.timestamp, 1);
    let expected: Vec<u8> = vec![
        3, 0, 0, 0, 0, 0, 0, 0, 5, 0, 0, 0, 0, 0, 0, 0, 107, 101, 121, 118, 97, 108, 117, 101, 1,
        0, 0, 0, 230, 243, 85, 198,
    ];
    assert_eq!(ent.encode(), expected);
    assert_eq!(ent.encoded_len(), Some(32));
}

#[test]
fn decode_reproduces_encoded_record() {
    let ent = Entry::with_timestamp(b"k".to_vec(), vec![0, 255, 10, 13], 77);
    let back = Entry::decode(&ent.encode()).unwrap();
    assert_eq!(back.key, b"k".to_vec());
    assert_eq!(back.value, vec![0, 255, 10, 13]);
    assert_eq!(back.timestamp, 77);
    assert_eq!(back.checksum, ent.checksum);
    assert!(back.is_valid());
}

#[test]
fn decode_reproduces_tombstone_and_empty_key() {
    let tomb = Entry::with_timestamp(b"gone".to_vec(), Vec::new(), 9);
    assert!(tomb.is_tombstone());
    let back = Entry::decode(&tomb.encode()).unwrap();
    assert!(back.is_tombstone());
    assert_eq!(back.key, b"gone".to_vec());

    let bare = Entry::with_timestamp(Vec::new(), Vec::new(), 0);
    assert_eq!(bare.checksum, 0);
    let back = Entry::decode(&bare.encode()).unwrap();
    assert_eq!(back.key.len(), 0);
    assert_eq!(back.value.len(), 0);
}

#[test]
fn decode_ignores_what_follows_the_record() {
    let ent = Entry::with_timestamp(b"key".to_vec(), b"value".to_vec(), 1);
    let mut bytes = ent.encode();
    bytes.extend_from_slice(b"trailing");
    let back = Entry::decode(&bytes).unwrap();
    assert_eq!(back.value, b"value".to_vec());
}

#[test]
fn decode_rejects_short_buffers() {
    let ent = Entry::with_timestamp(b"key".to_vec(), b"value".to_vec(), 1);
    let bytes = ent.encode();
    assert_eq!(Entry::decode(&[]).unwrap_err(), tinkv::error::TinkvError::Corrupt);
    for cut in 0..bytes.len() {
        assert_eq!(
            Entry::decode(&bytes[..cut]).unwrap_err(),
            tinkv::error::TinkvError::Corrupt
        );
    }
}

#[test]
fn decode_rejects_every_single_byte_change_of_key_and_value() {
    let ent = Entry::with_timestamp(b"key".to_vec(), b"value".to_vec(), 1);
    let bytes = ent.encode();
    for at in 16..24 {
        for flip in 1..=255u8 {
            let mut changed = bytes.clone();
            changed[at] ^= flip;
            assert_eq!(
                Entry::decode(&changed).unwrap_err(),
                tinkv::error::TinkvError::Corrupt
            );
        }
    }
}

#[test]
fn decode_rejects_changed_checksum() {
    let ent = Entry::with_timestamp(b"key".to_vec(), b"value".to_vec(), 1);
    let mut bytes = ent.encode();
    let last = bytes.len() - 1;
    bytes[last] ^= 1;
    assert_eq!(Entry::decode(&bytes).unwrap_err(), tinkv::error::TinkvError::Corrupt);
}

#[test]
fn read_frame_tells_the_kinds_apart() {
    let ent = Entry::with_timestamp(b"key".to_vec(), b"value".to_vec(), 1);
    let mut bytes = ent.encode();
    assert!(matches!(read_frame(&bytes, 0), FrameRead::Record(_, 32)));
    assert!(matches!(read_frame(&bytes, 32), FrameRead::End));
    assert!(matches!(read_frame(&bytes, 40), FrameRead::End));
    assert!(matches!(read_frame(&bytes[..31], 0), FrameRead::Truncated));
    assert!(matches!(read_frame(&bytes[..5], 0), FrameRead::Truncated));
    bytes[17] ^= 0x20;
    assert!(matches!(read_frame(&bytes, 0), FrameRead::Damaged(32)));
}

#[test]
fn clone_keeps_the_record() {
    let ent = Entry::with_timestamp(b"key".to_vec(), b"value".to_vec(), 5);
    let copy = ent.clone();
    assert_eq!(copy.key, ent.key);
    assert_eq!(copy.value, ent.value);
    assert_eq!(copy.timestamp, 5);
    assert_eq!(copy.checksum, ent.checksum);
}
