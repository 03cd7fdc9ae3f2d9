//! Segments: append-only runs of records, each with a numeric id.
use crate::data::{
    decode_spec, encode_spec, frame_at, lemma_frame_agree, lemma_frame_of_encoding, read_frame,
    Entry, EntryView, Frame, FrameRead,
};
use crate::error::TinkvError;
use vstd::prelude::*;

verus! {

/// Where a record stands: its segment, the offset of its first byte, and
/// the number of its bytes.
#[derive(Debug, Clone, Copy, PartialEq, Eq, Structural)]
pub struct Location {
    pub segment_id: u64,
    pub offset: usize,
    pub length: usize,
}

/// A record together with the place where it stands.
pub struct Record {
    pub entry: EntryView,
    pub loc: Location,
}

/// The record that stands at `offset` of segment `id` and ends at `next`.
pub open spec fn record_at(id: u64, offset: nat, entry: EntryView, next: nat) -> Record {
    Record {
        entry,
        loc: Location {
            segment_id: id,
            offset: offset as usize,
            length: (next - offset) as usize,
        },
    }
}

/// The valid records that follow one another from `offset` on, up to the
/// end of the bytes or the first frame that is not a valid record.
pub open spec fn records_from(id: u64, bytes: Seq<u8>, offset: nat) -> Seq<Record>
    decreases bytes.len() - offset,
{
    match frame_at(bytes, offset) {
        Frame::Record { entry, next } => if offset < next {
            seq![record_at(id, offset, entry, next)] + records_from(id, bytes, next)
        } else {
            Seq::empty()
        },
        _ => Seq::empty(),
    }
}

/// The offset at which the run of valid records that starts at `offset` ends.
pub open spec fn scan_stop(bytes: Seq<u8>, offset: nat) -> nat
    decreases bytes.len() - offset,
{
    match frame_at(bytes, offset) {
        Frame::Record { entry, next } => if offset < next {
            scan_stop(bytes, next)
        } else {
            offset
        },
        _ => offset,
    }
}

/// Whether the valid records from `offset` on take all the remaining bytes.
pub open spec fn clean_from(bytes: Seq<u8>, offset: nat) -> bool {
    scan_stop(bytes, offset) >= bytes.len()
}

/// Whether `bytes` is a run of valid records and nothing else.
pub open spec fn is_clean(bytes: Seq<u8>) -> bool {
    clean_from(bytes, 0)
}

/// Whether the frame at `offset` is the mark of an interrupted last write:
/// a record that the bytes end in the middle of, or a complete record with a
/// wrong checksum that ends exactly where the bytes end.
pub open spec fn is_torn_tail(bytes: Seq<u8>, offset: nat) -> bool {
    match frame_at(bytes, offset) {
        Frame::Truncated => true,
        Frame::Damaged { next } => next == bytes.len(),
        _ => false,
    }
}

/// Whether `bytes` is a run of valid records, followed by nothing or by the
/// mark of an interrupted last write.
pub open spec fn is_recoverable(bytes: Seq<u8>) -> bool {
    is_clean(bytes) || is_torn_tail(bytes, scan_stop(bytes, 0))
}

/// A scan stops inside the bytes, at or behind the offset it started from.
pub proof fn lemma_scan_stop_bounds(bytes: Seq<u8>, offset: nat)
    ensures
        offset <= scan_stop(bytes, offset),
        offset <= bytes.len() ==> scan_stop(bytes, offset) <= bytes.len(),
        !(frame_at(bytes, scan_stop(bytes, offset)) is Record),
    decreases bytes.len() - offset,
{
    match frame_at(bytes, offset) {
        Frame::Record { entry, next } => {
            if offset < next {
                lemma_scan_stop_bounds(bytes, next);
            }
        },
        _ => {},
    }
}

/// Every record of a scan stands in the scanned segment, at or behind the
/// offset the scan started from, and is the frame read at its own offset.
pub proof fn lemma_records_sound(id: u64, bytes: Seq<u8>, offset: nat, r: Record)
    requires
        bytes.len() <= usize::MAX,
        records_from(id, bytes, offset).contains(r),
    ensures
        r.loc.segment_id == id,
        offset <= r.loc.offset,
        r.loc.offset + r.loc.length <= bytes.len(),
        frame_at(bytes, r.loc.offset as nat) == (Frame::Record {
            entry: r.entry,
            next: (r.loc.offset + r.loc.length) as nat,
        }),
    decreases bytes.len() - offset,
{
    match frame_at(bytes, offset) {
        Frame::Record { entry, next } => {
            let head = record_at(id, offset, entry, next);
            let tail = records_from(id, bytes, next);
            let all = seq![head] + tail;
            let i = choose|i: int| 0 <= i < all.len() && all[i] == r;
            if i == 0 {
                assert(r == head);
            } else {
                assert(tail[i - 1] == r);
                lemma_records_sound(id, bytes, next, r);
            }
        },
        _ => {
            assert(records_from(id, bytes, offset).len() == 0);
        },
    }
}

/// Appending a valid record's bytes to a clean run adds that record to the
/// records of the run, at the old end, and leaves the run clean.
pub proof fn lemma_append_record(id: u64, bytes: Seq<u8>, offset: nat, e: EntryView)
    requires
        offset <= bytes.len(),
        clean_from(bytes, offset),
        e.is_valid(),
        e.key.len() <= u64::MAX,
        e.value.len() <= u64::MAX,
    ensures
        records_from(id, bytes + encode_spec(e), offset) == records_from(id, bytes, offset).push(
            record_at(id, bytes.len(), e, bytes.len() + e.encoded_len()),
        ),
        clean_from(bytes + encode_spec(e), offset),
    decreases bytes.len() - offset,
{
    let grown = bytes + encode_spec(e);
    let end = bytes.len();
    lemma_frame_of_encoding(bytes, e, Seq::<u8>::empty());
    assert(bytes + encode_spec(e) + Seq::<u8>::empty() =~= grown);
    match frame_at(bytes, offset) {
        Frame::Record { entry, next } => {
            lemma_scan_stop_bounds(bytes, next);
            assert(bytes.subrange(offset as int, next as int) =~= grown.subrange(
                offset as int,
                next as int,
            ));
            lemma_frame_agree(bytes, offset, grown, offset);
            lemma_append_record(id, bytes, next, e);
            let head = record_at(id, offset, entry, next);
            let last = record_at(id, end, e, end + e.encoded_len());
            assert(seq![head] + records_from(id, bytes, next).push(last) =~= (seq![head]
                + records_from(id, bytes, next)).push(last));
        },
        _ => {
            assert(offset == end);
            let last = record_at(id, end, e, end + e.encoded_len());
            let after = end + e.encoded_len();
            assert(frame_at(grown, after) is End);
            assert(records_from(id, grown, after) =~= Seq::<Record>::empty());
            assert(seq![last] + Seq::<Record>::empty() =~= Seq::<Record>::empty().push(last));
            assert(scan_stop(grown, after) == after);
        },
    }
}

/// Cutting a run where its valid records end leaves those records, and
/// nothing behind them.
pub proof fn lemma_truncate_at_stop(id: u64, bytes: Seq<u8>, offset: nat)
    requires
        offset <= bytes.len(),
    ensures
        records_from(id, bytes.take(scan_stop(bytes, offset) as int), offset) == records_from(
            id,
            bytes,
            offset,
        ),
        scan_stop(bytes.take(scan_stop(bytes, offset) as int), offset) == scan_stop(bytes, offset),
    decreases bytes.len() - offset,
{
    let stop = scan_stop(bytes, offset);
    let cut = bytes.take(stop as int);
    lemma_scan_stop_bounds(bytes, offset);
    match frame_at(bytes, offset) {
        Frame::Record { entry, next } => {
            lemma_scan_stop_bounds(bytes, next);
            assert(bytes.subrange(offset as int, next as int) =~= cut.subrange(
                offset as int,
                next as int,
            ));
            lemma_frame_agree(bytes, offset, cut, offset);
            lemma_truncate_at_stop(id, bytes, next);
        },
        _ => {
            assert(frame_at(cut, offset) is End);
        },
    }
}

/// Whether the record ends at or before the offset `cut`.
pub open spec fn ends_by(r: Record, cut: nat) -> bool {
    r.loc.offset + r.loc.length <= cut
}

/// A clean run that is cut anywhere reads as the records that were complete
/// before the cut, followed by nothing or by a record that the bytes end in
/// the middle of: the cut run is recoverable, it loses no record that ends
/// at or before the cut, and it holds no other.
pub proof fn lemma_scan_truncated(id: u64, whole: Seq<u8>, offset: nat, cut: nat)
    requires
        whole.len() <= usize::MAX,
        offset <= cut <= whole.len(),
        clean_from(whole, offset),
    ensures
        ({
            let part = records_from(id, whole.take(cut as int), offset);
            let all = records_from(id, whole, offset);
            &&& part.len() <= all.len()
            &&& part == all.take(part.len() as int)
            &&& forall|i: int| 0 <= i < part.len() ==> ends_by(#[trigger] part[i], cut)
            &&& forall|i: int| part.len() <= i < all.len() ==> !ends_by(#[trigger] all[i], cut)
        }),
        scan_stop(whole.take(cut as int), offset) <= cut,
        frame_at(whole.take(cut as int), scan_stop(whole.take(cut as int), offset)) is End
            || frame_at(whole.take(cut as int), scan_stop(whole.take(cut as int), offset))
            is Truncated,
    decreases whole.len() - offset,
{
    let t = whole.take(cut as int);
    let part = records_from(id, t, offset);
    let all = records_from(id, whole, offset);
    lemma_scan_stop_bounds(whole, offset);
    match frame_at(whole, offset) {
        Frame::Record { entry, next } => {
            lemma_scan_stop_bounds(whole, next);
            let head = record_at(id, offset, entry, next);
            let rest = records_from(id, whole, next);
            assert(all == seq![head] + rest);
            if next <= cut {
                assert(whole.subrange(offset as int, next as int) =~= t.subrange(
                    offset as int,
                    next as int,
                ));
                lemma_frame_agree(whole, offset, t, offset);
                lemma_scan_truncated(id, whole, next, cut);
                let sub = records_from(id, t, next);
                assert(part == seq![head] + sub);
                assert(part =~= all.take(part.len() as int));
                assert forall|i: int| 0 <= i < part.len() implies ends_by(
                    #[trigger] part[i],
                    cut,
                ) by {
                    if i > 0 {
                        assert(part[i] == sub[i - 1]);
                    }
                }
                assert forall|i: int| part.len() <= i < all.len() implies !ends_by(
                    #[trigger] all[i],
                    cut,
                ) by {
                    assert(all[i] == rest[i - 1]);
                }
            } else {
                if offset < cut && cut - offset >= 16 {
                    let at = offset as int;
                    assert(whole.subrange(at, at + 8) =~= t.subrange(at, at + 8));
                    assert(whole.subrange(at + 8, at + 16) =~= t.subrange(at + 8, at + 16));
                }
                assert(!(frame_at(t, offset) is Record));
                assert(part =~= all.take(0));
                assert forall|i: int| 0 <= i < all.len() implies !ends_by(
                    #[trigger] all[i],
                    cut,
                ) by {
                    if i > 0 {
                        assert(all[i] == rest[i - 1]);
                        lemma_records_sound(id, whole, next, rest[i - 1]);
                    }
                }
            }
        },
        _ => {
            assert(offset == whole.len());
            assert(t =~= whole);
            assert(part =~= all.take(0));
        },
    }
}

/// The mathematical content of a segment.
pub struct SegmentView {
    pub id: u64,
    pub bytes: Seq<u8>,
    pub sealed: bool,
}

impl SegmentView {
    /// The valid records of the segment, in the order in which they stand.
    pub open spec fn records(self) -> Seq<Record> {
        records_from(self.id, self.bytes, 0)
    }
}

/// One append-only run of records, held in memory.
#[derive(Debug)]
pub struct Segment {
    id: u64,
    data: Vec<u8>,
    sealed: bool,
}

impl View for Segment {
    type V = SegmentView;

    closed spec fn view(&self) -> SegmentView {
        SegmentView { id: self.id, bytes: self.data@, sealed: self.sealed }
    }
}

impl Clone for Segment {
    fn clone(&self) -> (s: Self)
        ensures
            s@ == self@,
    {
        Segment {
            id: self.id,
            data: vstd::slice::slice_to_vec(self.data.as_slice()),
            sealed: self.sealed,
        }
    }
}

impl Segment {
    /// A new, empty, writable segment.
    pub fn create(id: u64) -> (s: Self)
        ensures
            s@ == (SegmentView { id, bytes: Seq::<u8>::empty(), sealed: false }),
    {
        Segment { id, data: Vec::new(), sealed: false }
    }

    /// A writable segment that holds `data`, as read back from storage.
    pub fn from_bytes(id: u64, data: Vec<u8>) -> (s: Self)
        ensures
            s@ == (SegmentView { id, bytes: data@, sealed: false }),
    {
        Segment { id, data, sealed: false }
    }

    /// The id of the segment.
    pub fn id(&self) -> (id: u64)
        ensures
            id == self@.id,
    {
        self.id
    }

    /// The number of bytes in the segment.
    pub fn len(&self) -> (n: usize)
        ensures
            n == self@.bytes.len(),
    {
        self.data.len()
    }

    /// Whether the segment is read-only.
    pub fn is_sealed(&self) -> (b: bool)
        ensures
            b == self@.sealed,
    {
        self.sealed
    }

    /// The bytes of the segment.
    pub fn bytes(&self) -> (b: &[u8])
        ensures
            b@ == self@.bytes,
    {
        self.data.as_slice()
    }

    /// Writes `entry` at the end of the segment and returns the offset at
    /// which it begins. Fails with `Io`, and writes nothing, when the segment
    /// is sealed or would outgrow the machine's range.
    pub fn append(&mut self, entry: &Entry) -> (r: Result<usize, TinkvError>)
        ensures
            final(self)@.id == old(self)@.id,
            final(self)@.sealed == old(self)@.sealed,
            !old(self)@.sealed && old(self)@.bytes.len() + entry@.encoded_len() <= usize::MAX ==> r
                == Ok::<usize, TinkvError>(old(self)@.bytes.len() as usize) && final(self)@.bytes
                == old(self)@.bytes + encode_spec(entry@),
            old(self)@.sealed || old(self)@.bytes.len() + entry@.encoded_len() > usize::MAX ==> r
                == Err::<usize, TinkvError>(TinkvError::Io) && final(self)@ == old(self)@,
    {
        if self.sealed {
            return Err(TinkvError::Io);
        }
        let offset: usize = self.data.len();
        match entry.encoded_len() {
            Some(n) => {
                if n > usize::MAX - offset {
                    return Err(TinkvError::Io);
                }
            },
            None => {
                return Err(TinkvError::Io);
            },
        }
        entry.encode_into(&mut self.data);
        Ok(offset)
    }

    /// Reads the record that takes the `length` bytes from `offset` on.
    /// Fails with `Io` when the segment ends before `offset + length`, and
    /// with `Corrupt` when those bytes do not start with a valid record.
    pub fn read_at(&self, offset: usize, length: usize) -> (r: Result<Entry, TinkvError>)
        ensures
            offset + length > self@.bytes.len() ==> r.is_err() && r.unwrap_err() == TinkvError::Io,
            offset + length <= self@.bytes.len() ==> match decode_spec(
                self@.bytes.subrange(offset as int, offset + length),
            ) {
                Some(e) => r.is_ok() && r.unwrap()@ == e,
                None => r.is_err() && r.unwrap_err() == TinkvError::Corrupt,
            },
    {
        let len: usize = self.data.len();
        if offset > len || length > len - offset {
            return Err(TinkvError::Io);
        }
        Entry::decode(vstd::slice::slice_subrange(self.data.as_slice(), offset, offset + length))
    }

    /// The bytes of the segment, given up by it.
    pub fn into_bytes(self) -> (data: Vec<u8>)
        ensures
            data@ == self@.bytes,
    {
        self.data
    }

    /// Makes the segment read-only. Sealing a sealed segment changes nothing.
    pub fn seal(&mut self)
        ensures
            final(self)@ == (SegmentView { sealed: true, ..old(self)@ }),
    {
        self.sealed = true;
    }

    /// Drops whatever stands at or behind `len`.
    pub fn truncate(&mut self, len: usize)
        ensures
            final(self)@ == (SegmentView {
                bytes: if len <= old(self)@.bytes.len() {
                    old(self)@.bytes.take(len as int)
                } else {
                    old(self)@.bytes
                },
                ..old(self)@
            }),
    {
        if len <= self.data.len() {
            self.data.truncate(len);
            assert(self.data@ =~= old(self).data@.take(len as int));
        }
    }

    /// Reads the frame that starts at `offset`.
    pub fn frame(&self, offset: usize) -> (r: FrameRead)
        ensures
            r@ == frame_at(self@.bytes, offset as nat),
    {
        read_frame(self.data.as_slice(), offset)
    }
}


/// A pass over the records of a segment, from its first byte on.
pub struct SegmentIter<'a> {
    segment: &'a Segment,
    offset: usize,
}

impl Segment {
    /// A fresh pass over the records of the segment.
    pub fn iterate(&self) -> (it: SegmentIter<'_>)
        ensures
            it.segment() == self@,
            it.position() == 0,
    {
        SegmentIter { segment: self, offset: 0 }
    }
}

impl<'a> SegmentIter<'a> {
    /// The segment that is passed over.
    pub closed spec fn segment(&self) -> SegmentView {
        self.segment@
    }

    /// The offset of the frame that comes next.
    pub closed spec fn position(&self) -> nat {
        self.offset as nat
    }

    /// The offset of the frame that comes next: after the pass has ended,
    /// the logical end of the segment.
    pub fn offset(&self) -> (offset: usize)
        ensures
            offset == self.position(),
    {
        self.offset
    }

    /// The next record and the offset at which it begins. The pass ends,
    /// with `None`, at the end of the segment and at the mark of an
    /// interrupted last write; any other damage is reported as `Corrupt`,
    /// and the pass stays where it is.
    pub fn next(&mut self) -> (r: Option<Result<(usize, Entry), TinkvError>>)
        ensures
            final(self).segment() == old(self).segment(),
            match frame_at(old(self).segment().bytes, old(self).position()) {
                Frame::Record { entry, next } => r.is_some() && r.unwrap().is_ok()
                    && r.unwrap().unwrap().0 == old(self).position() && r.unwrap().unwrap().1@
                    == entry && final(self).position() == next,
                Frame::Damaged { next } => final(self).position() == old(self).position() && if next
                    == old(self).segment().bytes.len() {
                    r.is_none()
                } else {
                    r.is_some() && r.unwrap().is_err() && r.unwrap().unwrap_err()
                        == TinkvError::Corrupt
                },
                _ => r.is_none() && final(self).position() == old(self).position(),
            },
    {
        let at: usize = self.offset;
        match self.segment.frame(at) {
            FrameRead::Record(entry, next) => {
                self.offset = next;
                Some(Ok((at, entry)))
            },
            FrameRead::Damaged(next) => {
                if next == self.segment.len() {
                    None
                } else {
                    Some(Err(TinkvError::Corrupt))
                }
            },
            _ => None,
        }
    }
}

} // verus!
