//! Records and their on-disk framing.
use crate::error::TinkvError;
use crate::util::{
    checksum_spec, crc_update, current_timestamp, lemma_checksum_detects_byte,
    lemma_crc_feed_concat,
};
use vstd::prelude::*;

verus! {

/// Bytes before the key: the key's and the value's length, eight bytes each.
pub const HEADER_LEN: usize = 16;

/// Bytes after the value: timestamp and checksum, four bytes each.
pub const TRAILER_LEN: usize = 8;

/// The mathematical content of a record.
pub struct EntryView {
    pub key: Seq<u8>,
    pub value: Seq<u8>,
    pub timestamp: u32,
    pub checksum: u32,
}

impl EntryView {
    /// Whether the stored checksum is that of the key followed by the value.
    pub open spec fn is_valid(self) -> bool {
        self.checksum == checksum_spec(self.key + self.value)
    }

    /// Whether the record marks its key as deleted.
    pub open spec fn is_tombstone(self) -> bool {
        self.value.len() == 0
    }

    /// The number of bytes that the record takes in a segment.
    pub open spec fn encoded_len(self) -> nat {
        HEADER_LEN as nat + self.key.len() + self.value.len() + TRAILER_LEN as nat
    }
}

/// One record: a key, its value, and when and how it was sealed. A record
/// with an empty value is a tombstone.
#[derive(Debug)]
pub struct Entry {
    pub key: Vec<u8>,
    pub value: Vec<u8>,
    /// Seconds since the epoch at which the record was made.
    pub timestamp: u32,
    /// CRC-32 of the key followed by the value.
    pub checksum: u32,
}

impl View for Entry {
    type V = EntryView;

    open spec fn view(&self) -> EntryView {
        EntryView {
            key: self.key@,
            value: self.value@,
            timestamp: self.timestamp,
            checksum: self.checksum,
        }
    }
}

impl Clone for Entry {
    fn clone(&self) -> (e: Self)
        ensures
            e@ == self@,
    {
        Entry {
            key: vstd::slice::slice_to_vec(self.key.as_slice()),
            value: vstd::slice::slice_to_vec(self.value.as_slice()),
            timestamp: self.timestamp,
            checksum: self.checksum,
        }
    }
}

impl Entry {
    /// A record for `key` and `value`, stamped with the current time.
    pub fn new(key: Vec<u8>, value: Vec<u8>) -> (e: Self)
        ensures
            e.key == key,
            e.value == value,
            e@.is_valid(),
    {
        Entry::with_timestamp(key, value, current_timestamp())
    }

    /// A record for `key` and `value`, stamped with `timestamp`.
    pub fn with_timestamp(key: Vec<u8>, value: Vec<u8>, timestamp: u32) -> (e: Self)
        ensures
            e.key == key,
            e.value == value,
            e.timestamp == timestamp,
            e@.is_valid(),
    {
        let mut ent = Entry { key, value, timestamp, checksum: 0 };
        ent.checksum = ent.fresh_checksum();
        ent
    }

    /// The checksum that the key and the value call for.
    pub fn fresh_checksum(&self) -> (c: u32)
        ensures
            c == checksum_spec(self.key@ + self.value@),
    {
        let over_key = crc_update(0xFFFF_FFFFu32, self.key.as_slice());
        let over_both = crc_update(over_key, self.value.as_slice());
        proof {
            lemma_crc_feed_concat(0xFFFF_FFFFu32, self.key@, self.value@);
        }
        over_both ^ 0xFFFF_FFFFu32
    }

    /// Whether the stored checksum matches the key and the value.
    pub fn is_valid(&self) -> (b: bool)
        ensures
            b == self@.is_valid(),
    {
        self.checksum == self.fresh_checksum()
    }

    /// Whether the record marks its key as deleted.
    pub fn is_tombstone(&self) -> (b: bool)
        ensures
            b == self@.is_tombstone(),
    {
        self.value.len() == 0
    }
}


/// The four bytes of `x`, least significant first.
pub open spec fn le_bytes_u32(x: u32) -> Seq<u8> {
    seq![
        (x & 0xff) as u8,
        ((x >> 8) & 0xff) as u8,
        ((x >> 16) & 0xff) as u8,
        ((x >> 24) & 0xff) as u8,
    ]
}

/// The number whose bytes, least significant first, are the first four of `s`.
pub open spec fn u32_from_le(s: Seq<u8>) -> u32 {
    (s[0] as u32) | ((s[1] as u32) << 8) | ((s[2] as u32) << 16) | ((s[3] as u32) << 24)
}

/// The eight bytes of `x`, least significant first.
pub open spec fn le_bytes_u64(x: u64) -> Seq<u8> {
    seq![
        (x & 0xff) as u8,
        ((x >> 8) & 0xff) as u8,
        ((x >> 16) & 0xff) as u8,
        ((x >> 24) & 0xff) as u8,
        ((x >> 32) & 0xff) as u8,
        ((x >> 40) & 0xff) as u8,
        ((x >> 48) & 0xff) as u8,
        ((x >> 56) & 0xff) as u8,
    ]
}

/// The number whose bytes, least significant first, are the first eight of `s`.
pub open spec fn u64_from_le(s: Seq<u8>) -> u64 {
    (s[0] as u64) | ((s[1] as u64) << 8) | ((s[2] as u64) << 16) | ((s[3] as u64) << 24) | ((
    s[4] as u64) << 32) | ((s[5] as u64) << 40) | ((s[6] as u64) << 48) | ((s[7] as u64) << 56)
}

/// Reading back the bytes of a 32-bit number gives the number.
pub proof fn lemma_u32_le_round_trip(x: u32)
    ensures
        u32_from_le(le_bytes_u32(x)) == x,
        le_bytes_u32(x).len() == 4,
{
    assert((((x & 0xff) as u8) as u32) | ((((x >> 8) & 0xff) as u8) as u32) << 8 | ((((x >> 16)
        & 0xff) as u8) as u32) << 16 | ((((x >> 24) & 0xff) as u8) as u32) << 24 == x)
        by (bit_vector);
}

/// Reading back the bytes of a 64-bit number gives the number.
pub proof fn lemma_u64_le_round_trip(x: u64)
    ensures
        u64_from_le(le_bytes_u64(x)) == x,
        le_bytes_u64(x).len() == 8,
{
    assert((((x & 0xff) as u8) as u64) | ((((x >> 8) & 0xff) as u8) as u64) << 8 | ((((x >> 16)
        & 0xff) as u8) as u64) << 16 | ((((x >> 24) & 0xff) as u8) as u64) << 24 | ((((x >> 32)
        & 0xff) as u8) as u64) << 32 | ((((x >> 40) & 0xff) as u8) as u64) << 40 | ((((x >> 48)
        & 0xff) as u8) as u64) << 48 | ((((x >> 56) & 0xff) as u8) as u64) << 56 == x)
        by (bit_vector);
}

fn push_u32_le(buf: &mut Vec<u8>, x: u32)
    ensures
        final(buf)@ == old(buf)@ + le_bytes_u32(x),
{
    buf.push((x & 0xff) as u8);
    buf.push(((x >> 8) & 0xff) as u8);
    buf.push(((x >> 16) & 0xff) as u8);
    buf.push(((x >> 24) & 0xff) as u8);
    assert(buf@ =~= old(buf)@ + le_bytes_u32(x));
}

fn push_u64_le(buf: &mut Vec<u8>, x: u64)
    ensures
        final(buf)@ == old(buf)@ + le_bytes_u64(x),
{
    buf.push((x & 0xff) as u8);
    buf.push(((x >> 8) & 0xff) as u8);
    buf.push(((x >> 16) & 0xff) as u8);
    buf.push(((x >> 24) & 0xff) as u8);
    buf.push(((x >> 32) & 0xff) as u8);
    buf.push(((x >> 40) & 0xff) as u8);
    buf.push(((x >> 48) & 0xff) as u8);
    buf.push(((x >> 56) & 0xff) as u8);
    assert(buf@ =~= old(buf)@ + le_bytes_u64(x));
}

fn read_u32_le(bytes: &[u8], at: usize) -> (x: u32)
    requires
        at + 4 <= bytes@.len(),
    ensures
        x == u32_from_le(bytes@.subrange(at as int, at + 4)),
{
    (bytes[at] as u32) | ((bytes[at + 1] as u32) << 8) | ((bytes[at + 2] as u32) << 16) | ((
    bytes[at + 3] as u32) << 24)
}

fn read_u64_le(bytes: &[u8], at: usize) -> (x: u64)
    requires
        at + 8 <= bytes@.len(),
    ensures
        x == u64_from_le(bytes@.subrange(at as int, at + 8)),
{
    (bytes[at] as u64) | ((bytes[at + 1] as u64) << 8) | ((bytes[at + 2] as u64) << 16) | ((
    bytes[at + 3] as u64) << 24) | ((bytes[at + 4] as u64) << 32) | ((bytes[at + 5] as u64)
        << 40) | ((bytes[at + 6] as u64) << 48) | ((bytes[at + 7] as u64) << 56)
}

/// The bytes that stand for a record in a segment: the key's length and the
/// value's length as 64-bit numbers, the key, the value, the timestamp and
/// the checksum as 32-bit numbers; every number least significant byte first.
pub open spec fn encode_spec(e: EntryView) -> Seq<u8> {
    le_bytes_u64(e.key.len() as u64) + le_bytes_u64(e.value.len() as u64) + e.key + e.value
        + le_bytes_u32(e.timestamp) + le_bytes_u32(e.checksum)
}

/// What stands at an offset of a run of records.
pub enum Frame {
    /// The offset is at or behind the end of the bytes.
    End,
    /// The bytes end before the record that starts here is complete.
    Truncated,
    /// A complete record whose checksum does not match; `next` is where it ends.
    Damaged { next: nat },
    /// A valid record; `next` is where it ends.
    Record { entry: EntryView, next: nat },
}

/// The frame that starts at `offset` of `bytes`.
pub open spec fn frame_at(bytes: Seq<u8>, offset: nat) -> Frame {
    if offset >= bytes.len() {
        Frame::End
    } else if bytes.len() - offset < HEADER_LEN {
        Frame::Truncated
    } else {
        let at = offset as int;
        let key_len = u64_from_le(bytes.subrange(at, at + 8)) as int;
        let value_len = u64_from_le(bytes.subrange(at + 8, at + 16)) as int;
        let key_at = at + 16;
        let value_at = key_at + key_len;
        let tail_at = value_at + value_len;
        let next = tail_at + 8;
        if next > bytes.len() {
            Frame::Truncated
        } else {
            let entry = EntryView {
                key: bytes.subrange(key_at, value_at),
                value: bytes.subrange(value_at, tail_at),
                timestamp: u32_from_le(bytes.subrange(tail_at, tail_at + 4)),
                checksum: u32_from_le(bytes.subrange(tail_at + 4, tail_at + 8)),
            };
            if entry.is_valid() {
                Frame::Record { entry, next: next as nat }
            } else {
                Frame::Damaged { next: next as nat }
            }
        }
    }
}

/// The record that `buf` starts with, if it starts with a valid one.
pub open spec fn decode_spec(buf: Seq<u8>) -> Option<EntryView> {
    match frame_at(buf, 0) {
        Frame::Record { entry, next } => Some(entry),
        _ => None,
    }
}

/// What was found at an offset of a run of records.
pub enum FrameRead {
    End,
    Truncated,
    Damaged(usize),
    Record(Entry, usize),
}

impl View for FrameRead {
    type V = Frame;

    open spec fn view(&self) -> Frame {
        match self {
            FrameRead::End => Frame::End,
            FrameRead::Truncated => Frame::Truncated,
            FrameRead::Damaged(next) => Frame::Damaged { next: *next as nat },
            FrameRead::Record(entry, next) => Frame::Record { entry: entry@, next: *next as nat },
        }
    }
}

/// Reads the frame that starts at `offset` of `bytes`.
pub fn read_frame(bytes: &[u8], offset: usize) -> (r: FrameRead)
    ensures
        r@ == frame_at(bytes@, offset as nat),
{
    let len: usize = bytes.len();
    if offset >= len {
        return FrameRead::End;
    }
    if len - offset < HEADER_LEN {
        return FrameRead::Truncated;
    }
    let key_len: u64 = read_u64_le(bytes, offset);
    let value_len: u64 = read_u64_le(bytes, offset + 8);
    let avail: usize = len - offset - HEADER_LEN;
    if avail < TRAILER_LEN {
        return FrameRead::Truncated;
    }
    let room: usize = avail - TRAILER_LEN;
    if key_len > room as u64 {
        return FrameRead::Truncated;
    }
    let key_size: usize = key_len as usize;
    if value_len > (room - key_size) as u64 {
        return FrameRead::Truncated;
    }
    let value_size: usize = value_len as usize;
    let key_at: usize = offset + HEADER_LEN;
    let value_at: usize = key_at + key_size;
    let tail_at: usize = value_at + value_size;
    let next: usize = tail_at + TRAILER_LEN;
    let key = vstd::slice::slice_to_vec(vstd::slice::slice_subrange(bytes, key_at, value_at));
    let value = vstd::slice::slice_to_vec(vstd::slice::slice_subrange(bytes, value_at, tail_at));
    let timestamp: u32 = read_u32_le(bytes, tail_at);
    let checksum: u32 = read_u32_le(bytes, tail_at + 4);
    let entry = Entry { key, value, timestamp, checksum };
    if entry.is_valid() {
        FrameRead::Record(entry, next)
    } else {
        FrameRead::Damaged(next)
    }
}

impl Entry {
    /// The number of bytes that the record takes in a segment, or `None`
    /// when that number leaves the machine's range.
    pub fn encoded_len(&self) -> (n: Option<usize>)
        ensures
            self@.encoded_len() <= usize::MAX ==> n == Some(self@.encoded_len() as usize),
            self@.encoded_len() > usize::MAX ==> n.is_none(),
    {
        let fixed: usize = HEADER_LEN + TRAILER_LEN;
        let key_len: usize = self.key.len();
        let value_len: usize = self.value.len();
        if key_len > usize::MAX - fixed {
            return None;
        }
        if value_len > usize::MAX - fixed - key_len {
            return None;
        }
        Some(fixed + key_len + value_len)
    }

    /// Appends the record's bytes to `buf`.
    pub fn encode_into(&self, buf: &mut Vec<u8>)
        ensures
            final(buf)@ == old(buf)@ + encode_spec(self@),
    {
        push_u64_le(buf, self.key.len() as u64);
        push_u64_le(buf, self.value.len() as u64);
        buf.extend_from_slice(self.key.as_slice());
        buf.extend_from_slice(self.value.as_slice());
        push_u32_le(buf, self.timestamp);
        push_u32_le(buf, self.checksum);
        assert(buf@ =~= old(buf)@ + encode_spec(self@));
    }

    /// The record's bytes as they stand in a segment.
    pub fn encode(&self) -> (bytes: Vec<u8>)
        ensures
            bytes@ == encode_spec(self@),
    {
        let mut bytes: Vec<u8> = Vec::new();
        self.encode_into(&mut bytes);
        assert(bytes@ =~= encode_spec(self@));
        bytes
    }

    /// Reads the record that `buf` starts with. The record is corrupt when
    /// `buf` is shorter than the lengths it declares, or when its checksum
    /// does not match its key and value.
    pub fn decode(buf: &[u8]) -> (r: Result<Entry, TinkvError>)
        ensures
            match decode_spec(buf@) {
                Some(e) => r.is_ok() && r.unwrap()@ == e,
                None => r.is_err() && r.unwrap_err() == TinkvError::Corrupt,
            },
    {
        match read_frame(buf, 0) {
            FrameRead::Record(entry, _) => Ok(entry),
            _ => Err(TinkvError::Corrupt),
        }
    }
}


/// Where a complete frame ends.
pub open spec fn frame_next(f: Frame) -> nat {
    match f {
        Frame::Record { entry, next } => next,
        Frame::Damaged { next } => next,
        _ => 0,
    }
}

/// The frame `f`, moved by `delta` bytes.
pub open spec fn frame_shift(f: Frame, delta: int) -> Frame {
    match f {
        Frame::Record { entry, next } => Frame::Record { entry, next: (next + delta) as nat },
        Frame::Damaged { next } => Frame::Damaged { next: (next + delta) as nat },
        other => other,
    }
}

/// A complete frame depends on its own bytes only: where the same bytes
/// stand in another run, the same frame stands.
pub proof fn lemma_frame_agree(x: Seq<u8>, ox: nat, y: Seq<u8>, oy: nat)
    requires
        frame_at(x, ox) is Record || frame_at(x, ox) is Damaged,
        oy + (frame_next(frame_at(x, ox)) - ox) <= y.len(),
        x.subrange(ox as int, frame_next(frame_at(x, ox)) as int) == y.subrange(
            oy as int,
            oy + (frame_next(frame_at(x, ox)) - ox),
        ),
    ensures
        frame_at(y, oy) == frame_shift(frame_at(x, ox), oy - ox),
{
    let nx = frame_next(frame_at(x, ox)) as int;
    let a = ox as int;
    let b = oy as int;
    let w = x.subrange(a, nx);
    let v = y.subrange(b, b + (nx - a));
    assert(x.subrange(a, a + 8) =~= w.subrange(0, 8));
    assert(y.subrange(b, b + 8) =~= v.subrange(0, 8));
    assert(x.subrange(a + 8, a + 16) =~= w.subrange(8, 16));
    assert(y.subrange(b + 8, b + 16) =~= v.subrange(8, 16));
    let key_len = u64_from_le(x.subrange(a, a + 8)) as int;
    let value_len = u64_from_le(x.subrange(a + 8, a + 16)) as int;
    let k = 16 + key_len;
    let t = k + value_len;
    assert(x.subrange(a + 16, a + k) =~= w.subrange(16, k));
    assert(y.subrange(b + 16, b + k) =~= v.subrange(16, k));
    assert(x.subrange(a + k, a + t) =~= w.subrange(k, t));
    assert(y.subrange(b + k, b + t) =~= v.subrange(k, t));
    assert(x.subrange(a + t, a + t + 4) =~= w.subrange(t, t + 4));
    assert(y.subrange(b + t, b + t + 4) =~= v.subrange(t, t + 4));
    assert(x.subrange(a + t + 4, a + t + 8) =~= w.subrange(t + 4, t + 8));
    assert(y.subrange(b + t + 4, b + t + 8) =~= v.subrange(t + 4, t + 8));
}

/// A record's bytes are as many as its encoded length says.
pub proof fn lemma_encoding_len(e: EntryView)
    ensures
        encode_spec(e).len() == e.encoded_len(),
{
}

/// A record that was read takes as many bytes as its encoded length says,
/// and its key and value are as long as 64-bit numbers can tell.
pub proof fn lemma_frame_len(bytes: Seq<u8>, offset: nat)
    requires
        frame_at(bytes, offset) is Record,
    ensures
        frame_at(bytes, offset)->Record_next == offset + frame_at(
            bytes,
            offset,
        )->entry.encoded_len(),
        frame_at(bytes, offset)->entry.key.len() <= u64::MAX,
        frame_at(bytes, offset)->entry.value.len() <= u64::MAX,
        frame_at(bytes, offset)->entry.is_valid(),
{
}

/// Where a valid record's bytes stand in a run, that record is read.
pub proof fn lemma_frame_of_encoding(prefix: Seq<u8>, e: EntryView, suffix: Seq<u8>)
    requires
        e.is_valid(),
        e.key.len() <= u64::MAX,
        e.value.len() <= u64::MAX,
    ensures
        encode_spec(e).len() == e.encoded_len(),
        frame_at(prefix + encode_spec(e) + suffix, prefix.len()) == (Frame::Record {
            entry: e,
            next: prefix.len() + e.encoded_len(),
        }),
{
    let all = prefix + encode_spec(e) + suffix;
    let a = prefix.len() as int;
    let k = 16 + e.key.len();
    let t = k + e.value.len();
    lemma_u64_le_round_trip(e.key.len() as u64);
    lemma_u64_le_round_trip(e.value.len() as u64);
    lemma_u32_le_round_trip(e.timestamp);
    lemma_u32_le_round_trip(e.checksum);
    assert(all.subrange(a, a + 8) =~= le_bytes_u64(e.key.len() as u64));
    assert(all.subrange(a + 8, a + 16) =~= le_bytes_u64(e.value.len() as u64));
    assert(all.subrange(a + 16, a + k) =~= e.key);
    assert(all.subrange(a + k, a + t) =~= e.value);
    assert(all.subrange(a + t, a + t + 4) =~= le_bytes_u32(e.timestamp));
    assert(all.subrange(a + t + 4, a + t + 8) =~= le_bytes_u32(e.checksum));
}

/// Decoding the bytes of a valid record gives the record back: its key, its
/// value, its timestamp and its checksum.
pub proof fn lemma_decode_encode(e: EntryView)
    requires
        e.is_valid(),
        e.key.len() <= u64::MAX,
        e.value.len() <= u64::MAX,
    ensures
        decode_spec(encode_spec(e)) == Some(e),
{
    lemma_frame_of_encoding(Seq::<u8>::empty(), e, Seq::<u8>::empty());
    assert(Seq::<u8>::empty() + encode_spec(e) + Seq::<u8>::empty() =~= encode_spec(e));
}


/// The record `e` with byte `i` of its key and value, counted through the
/// key and on through the value, set to `b`.
pub open spec fn with_byte(e: EntryView, i: int, b: u8) -> EntryView {
    let changed = (e.key + e.value).update(i, b);
    EntryView {
        key: changed.take(e.key.len() as int),
        value: changed.skip(e.key.len() as int),
        ..e
    }
}

/// A valid record in which one byte of the key or of the value was changed
/// is no longer valid: its checksum tells the change.
pub proof fn lemma_byte_change_detected(e: EntryView, i: int, b: u8)
    requires
        e.is_valid(),
        0 <= i < e.key.len() + e.value.len(),
        b != (e.key + e.value)[i],
    ensures
        !with_byte(e, i, b).is_valid(),
{
    let changed = (e.key + e.value).update(i, b);
    let c = with_byte(e, i, b);
    assert(c.key + c.value =~= changed);
    lemma_checksum_detects_byte(e.key + e.value, i, b);
}

} // verus!
