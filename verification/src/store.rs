//! The store: the segments, the index over them, and the operations that
//! keep the two in step.
//!
//! A store holds the bytes of its segments in memory. Whoever keeps the
//! directory mirrors them to files: every write returns a receipt that
//! tells which bytes were added where, and compaction one that tells which
//! segments went and which came.
use crate::compaction::{
    carried_entries, carried_over, compacted, encoded_run, is_merge_of, keys_within,
    lemma_carry_copied, lemma_carry_kept, lemma_compaction, lemma_merge_push,
    lemma_merged_len_prefix, lemma_next_key_is_new, merged_len,
};
use crate::data::{encode_spec, frame_at, lemma_frame_agree, Entry, EntryView, Frame, FrameRead};
use crate::error::TinkvError;
use crate::index::{lemma_key_has_slot, lemma_slot, map_of, slot_of, Index};
use crate::recovery::{
    all_clean, ascending, is_sorting_of, lemma_recovered_log, recovered, replay_segment,
    sort_segments, strictly_ascending,
};
use crate::replay::{
    apply, lemma_log_append, lemma_log_ignores_seal, lemma_log_member, lemma_log_push_empty,
    lemma_log_take, lemma_replay_member, lemma_replay_push, locations, log_of, replay, values,
};
use crate::segment::{
    is_clean, is_torn_tail, lemma_append_record, lemma_records_sound, lemma_scan_stop_bounds,
    lemma_truncate_at_stop, record_at, scan_stop, Location, Record, Segment, SegmentView,
};
use crate::util::{checksum_spec, current_timestamp};
use vstd::prelude::*;

verus! {

/// The id of the first segment of an empty directory.
pub const FIRST_SEGMENT_ID: u64 = 1;

/// How a store is opened.
#[derive(Debug, Clone, Copy, PartialEq, Eq, Structural)]
pub struct OpenOptions {
    /// The size in bytes at which the active segment is sealed.
    pub max_segment_size: usize,
    /// Whether every write is to reach stable storage at once.
    pub sync: bool,
    /// Whether deleting a key that is not live fails with `NotFound`.
    pub strict_delete: bool,
}

impl Default for OpenOptions {
    /// Segments of 64 MiB, buffered writes, lenient deletion.
    fn default() -> (options: Self)
        ensures
            options == (OpenOptions {
                max_segment_size: 67108864,
                sync: false,
                strict_delete: false,
            }),
    {
        OpenOptions { max_segment_size: 67108864, sync: false, strict_delete: false }
    }
}

/// What a write did, for whoever mirrors the segments to storage.
#[derive(Debug, Clone, Copy, PartialEq, Eq)]
pub struct WriteReceipt {
    /// Where the new record stands.
    pub location: Location,
    /// Whether the written segment is to be flushed to stable storage now.
    pub sync: bool,
    /// The id of the new active segment, when the write sealed the old one.
    pub rotated_to: Option<u64>,
}

/// The record for `key` and `value` made at `timestamp`, with its checksum.
pub open spec fn sealed_entry(key: Seq<u8>, value: Seq<u8>, timestamp: u32) -> EntryView {
    EntryView { key, value, timestamp, checksum: checksum_spec(key + value) }
}

/// Whether a segment may stand in a store, as the last one or before it:
/// a run of valid records, sealed unless it is the last.
pub open spec fn segment_ok(v: SegmentView, is_last: bool) -> bool {
    &&& is_clean(v.bytes)
    &&& v.bytes.len() <= usize::MAX
    &&& v.sealed == !is_last
}

/// The mathematical content of a store.
pub struct StoreState {
    /// The sealed segments in the order of their ids, then the active one.
    pub segments: Seq<SegmentView>,
    pub options: OpenOptions,
    pub closed: bool,
}

impl StoreState {
    /// Whether the segments are those of a store: at least one, ids
    /// strictly ascending, each a run of valid records, all sealed but the
    /// last.
    pub open spec fn wf(self) -> bool {
        &&& self.segments.len() >= 1
        &&& forall|i: int, j: int|
            0 <= i < j < self.segments.len() ==> (#[trigger] self.segments[i]).id < (
            #[trigger] self.segments[j]).id
        &&& forall|i: int|
            0 <= i < self.segments.len() ==> segment_ok(
                #[trigger] self.segments[i],
                i == self.segments.len() - 1,
            )
    }

    /// The segment that receives writes.
    pub open spec fn active(self) -> SegmentView {
        self.segments.last()
    }

    /// The latest record of every live key.
    pub open spec fn live(self) -> Map<Seq<u8>, Record> {
        replay(log_of(self.segments))
    }

    /// What `get` answers: the value of every live key.
    pub open spec fn contents(self) -> Map<Seq<u8>, Seq<u8>> {
        values(self.live())
    }

    /// Whether writing `e` seals the active segment.
    pub open spec fn rotates(self, e: EntryView) -> bool {
        self.active().bytes.len() + e.encoded_len() >= self.options.max_segment_size
    }

    /// Whether `e` can be written: the active segment stays within the
    /// machine's range, and so does the id of the segment that follows it.
    pub open spec fn can_write(self, e: EntryView) -> bool {
        &&& self.active().bytes.len() + e.encoded_len() <= usize::MAX
        &&& self.rotates(e) ==> self.active().id < u64::MAX
    }

    /// Where `e` comes to stand when it is written.
    pub open spec fn place_of(self, e: EntryView) -> Record {
        record_at(
            self.active().id,
            self.active().bytes.len(),
            e,
            self.active().bytes.len() + e.encoded_len(),
        )
    }

    /// The store after `e` was written to the active segment, and the
    /// segment sealed and followed by an empty one where it reached the
    /// size limit.
    pub open spec fn written(self, e: EntryView) -> StoreState {
        let grown = SegmentView {
            bytes: self.active().bytes + encode_spec(e),
            ..self.active()
        };
        if self.rotates(e) {
            StoreState {
                segments: self.segments.drop_last().push(
                    SegmentView { sealed: true, ..grown },
                ).push(
                    SegmentView {
                        id: (grown.id + 1) as u64,
                        bytes: Seq::<u8>::empty(),
                        sealed: false,
                    },
                ),
                ..self
            }
        } else {
            StoreState { segments: self.segments.drop_last().push(grown), ..self }
        }
    }

    /// What the writer of `e` is told.
    pub open spec fn receipt(self, e: EntryView) -> WriteReceipt {
        WriteReceipt {
            location: self.place_of(e).loc,
            sync: self.options.sync || self.rotates(e),
            rotated_to: if self.rotates(e) {
                Some((self.active().id + 1) as u64)
            } else {
                None
            },
        }
    }

    /// The store after an attempt to write `e`, and what the attempt returns.
    pub open spec fn write_outcome(self, e: EntryView) -> (StoreState, Result<
        WriteReceipt,
        TinkvError,
    >) {
        if !self.can_write(e) {
            (self, Err(TinkvError::Io))
        } else {
            (self.written(e), Ok(self.receipt(e)))
        }
    }

    /// The store after `put` of `key` and `value` at `timestamp`, and what
    /// the call returns.
    pub open spec fn put_outcome(self, key: Seq<u8>, value: Seq<u8>, timestamp: u32) -> (
        StoreState,
        Result<WriteReceipt, TinkvError>,
    ) {
        if self.closed {
            (self, Err(TinkvError::Closed))
        } else if value.len() == 0 {
            (self, Err(TinkvError::EmptyValue))
        } else {
            self.write_outcome(sealed_entry(key, value, timestamp))
        }
    }

    /// The store after `delete` of `key` at `timestamp`, and what the call
    /// returns.
    pub open spec fn delete_outcome(self, key: Seq<u8>, timestamp: u32) -> (
        StoreState,
        Result<WriteReceipt, TinkvError>,
    ) {
        if self.closed {
            (self, Err(TinkvError::Closed))
        } else if self.options.strict_delete && !self.contents().contains_key(key) {
            (self, Err(TinkvError::NotFound))
        } else {
            self.write_outcome(sealed_entry(key, Seq::<u8>::empty(), timestamp))
        }
    }

    /// What `get` of `key` returns.
    pub open spec fn get_outcome(self, key: Seq<u8>) -> Result<Option<Seq<u8>>, TinkvError> {
        if self.closed {
            Err(TinkvError::Closed)
        } else if self.contents().contains_key(key) {
            Ok(Some(self.contents()[key]))
        } else {
            Ok(None)
        }
    }
}

/// The log after a write is the log before it and the written record.
pub proof fn lemma_written_log(s: StoreState, e: EntryView)
    requires
        s.wf(),
        e.is_valid(),
        s.can_write(e),
    ensures
        log_of(s.written(e).segments) == log_of(s.segments).push(s.place_of(e)),
{
    let n = s.segments.len() as int;
    let last = s.segments.last();
    assert(segment_ok(s.segments[n - 1], true));
    let grown = SegmentView { bytes: last.bytes + encode_spec(e), ..last };
    let kept = s.segments.drop_last().push(grown);
    lemma_log_append(s.segments, e);
    if s.rotates(e) {
        let sealed = SegmentView { sealed: true, ..grown };
        let fresh = SegmentView {
            id: (grown.id + 1) as u64,
            bytes: Seq::<u8>::empty(),
            sealed: false,
        };
        let mid = s.segments.drop_last().push(sealed);
        assert(kept.drop_last() =~= s.segments.drop_last());
        assert(kept.last() == grown);
        assert(mid == kept.drop_last().push(SegmentView { sealed: true, ..kept.last() }));
        lemma_log_ignores_seal(kept, true);
        lemma_log_push_empty(mid, fresh);
    }
}

/// A store stays well formed when a record is written.
pub proof fn lemma_written_wf(s: StoreState, e: EntryView)
    requires
        s.wf(),
        e.is_valid(),
        s.can_write(e),
    ensures
        s.written(e).wf(),
{
    let n = s.segments.len() as int;
    let last = s.segments.last();
    assert(segment_ok(s.segments[n - 1], true));
    let grown = SegmentView { bytes: last.bytes + encode_spec(e), ..last };
    assert(is_clean(grown.bytes)) by {
        lemma_log_append(s.segments, e);
    }
    assert(grown.bytes.len() == last.bytes.len() + e.encoded_len()) by {
        crate::data::lemma_encoding_len(e);
    }
    let after = s.written(e).segments;
    if s.rotates(e) {
        let fresh = SegmentView {
            id: (grown.id + 1) as u64,
            bytes: Seq::<u8>::empty(),
            sealed: false,
        };
        assert(is_clean(fresh.bytes)) by {
            lemma_log_push_empty(s.segments, fresh);
        }
        assert(after.len() == n + 1);
        assert(after[n - 1] == SegmentView { sealed: true, ..grown });
        assert(after[n] == fresh);
        assert forall|i: int| 0 <= i < n - 1 implies after[i] == s.segments[i] by {}
        assert forall|i: int, j: int| 0 <= i < j < after.len() implies (#[trigger] after[i]).id
            < (#[trigger] after[j]).id by {
            if i < n - 1 {
                assert(s.segments[i].id < s.segments[n - 1].id);
                if j < n - 1 {
                    assert(s.segments[i].id < s.segments[j].id);
                }
            }
        }
        assert forall|i: int| 0 <= i < after.len() implies segment_ok(
            #[trigger] after[i],
            i == after.len() - 1,
        ) by {
            if i < n - 1 {
                assert(segment_ok(s.segments[i], false));
            }
        }
    } else {
        assert(after.len() == n);
        assert(after[n - 1] == grown);
        assert forall|i: int| 0 <= i < n - 1 implies after[i] == s.segments[i] by {}
        assert forall|i: int, j: int| 0 <= i < j < after.len() implies (#[trigger] after[i]).id
            < (#[trigger] after[j]).id by {
            assert(s.segments[i].id < s.segments[j].id);
        }
        assert forall|i: int| 0 <= i < after.len() implies segment_ok(
            #[trigger] after[i],
            i == after.len() - 1,
        ) by {
            if i < n - 1 {
                assert(segment_ok(s.segments[i], false));
            }
        }
    }
}

/// Writing a record keeps a store well formed and applies the record, at
/// the place where it came to stand, to the latest records per key.
pub proof fn lemma_written(s: StoreState, e: EntryView)
    requires
        s.wf(),
        e.is_valid(),
        s.can_write(e),
    ensures
        s.written(e).wf(),
        s.written(e).live() == apply(s.live(), s.place_of(e)),
        s.written(e).options == s.options,
        s.written(e).closed == s.closed,
{
    lemma_written_wf(s, e);
    lemma_written_log(s, e);
    lemma_replay_push(Map::empty(), log_of(s.segments), s.place_of(e));
}

/// After a successful `put`, the key holds the value that was put, and
/// every other key holds what it held before.
pub proof fn lemma_put_then_get(s: StoreState, key: Seq<u8>, value: Seq<u8>, timestamp: u32)
    requires
        s.wf(),
        s.put_outcome(key, value, timestamp).1.is_ok(),
    ensures
        s.put_outcome(key, value, timestamp).0.wf(),
        s.put_outcome(key, value, timestamp).0.contents() == s.contents().insert(key, value),
        s.put_outcome(key, value, timestamp).0.get_outcome(key) == Ok::<
            Option<Seq<u8>>,
            TinkvError,
        >(Some(value)),
{
    let e = sealed_entry(key, value, timestamp);
    lemma_written(s, e);
    assert(values(apply(s.live(), s.place_of(e))) =~= values(s.live()).insert(key, value));
}

/// After a `delete` that did not fail for want of room, the key is absent,
/// whatever was put before, and every other key holds what it held before:
/// be it that a tombstone was written, be it that strict deletion found the
/// key absent already.
pub proof fn lemma_delete_then_get(s: StoreState, key: Seq<u8>, timestamp: u32)
    requires
        s.wf(),
        s.delete_outcome(key, timestamp).1.is_ok() || s.delete_outcome(key, timestamp).1
            == Err::<WriteReceipt, TinkvError>(TinkvError::NotFound),
    ensures
        s.delete_outcome(key, timestamp).0.wf(),
        s.delete_outcome(key, timestamp).0.contents() == s.contents().remove(key),
        s.delete_outcome(key, timestamp).0.get_outcome(key) == Ok::<
            Option<Seq<u8>>,
            TinkvError,
        >(None),
{
    if s.delete_outcome(key, timestamp).1.is_ok() {
        let e = sealed_entry(key, Seq::<u8>::empty(), timestamp);
        assert(key + Seq::<u8>::empty() =~= key);
        lemma_written(s, e);
        assert(values(apply(s.live(), s.place_of(e))) =~= values(s.live()).remove(key));
    } else {
        assert(s.contents() =~= s.contents().remove(key));
    }
}

/// A write that fills the active segment to the size limit seals it and
/// opens a segment with the next id; what was written before stays where
/// it was, and every key but the written one holds what it held before.
pub proof fn lemma_rotation(s: StoreState, e: EntryView)
    requires
        s.wf(),
        e.is_valid(),
        s.can_write(e),
        s.rotates(e),
    ensures
        s.written(e).segments.len() == s.segments.len() + 1,
        s.written(e).active().id == s.active().id + 1,
        s.written(e).active().bytes.len() == 0,
        forall|i: int|
            0 <= i < s.segments.len() - 1 ==> s.written(e).segments[i] == s.segments[i],
        forall|k: Seq<u8>|
            k != e.key ==> s.written(e).contents().contains_key(k) == s.contents().contains_key(
                k,
            ) && (s.contents().contains_key(k) ==> s.written(e).contents()[k]
                == s.contents()[k]),
{
    lemma_written(s, e);
}

/// Whether `r` is read back from the segment `v` at the place it names.
pub open spec fn stands_in(r: Record, v: SegmentView) -> bool {
    &&& v.id == r.loc.segment_id
    &&& r.loc.offset + r.loc.length <= v.bytes.len()
    &&& frame_at(v.bytes, r.loc.offset as nat) == (Frame::Record {
        entry: r.entry,
        next: (r.loc.offset + r.loc.length) as nat,
    })
}

/// The latest record of a live key carries that key and a value, and is
/// read back from one of the segments at the place it names.
pub proof fn lemma_live_record(s: StoreState, k: Seq<u8>)
    requires
        s.wf(),
        s.live().contains_key(k),
    ensures
        s.live()[k].entry.key == k,
        !s.live()[k].entry.is_tombstone(),
        exists|i: int| 0 <= i < s.segments.len() && stands_in(s.live()[k], #[trigger] s.segments[i]),
{
    let r = s.live()[k];
    lemma_replay_member(Map::empty(), log_of(s.segments), k);
    lemma_log_member(s.segments, r);
    let i = choose|i: int|
        0 <= i < s.segments.len() && (#[trigger] s.segments[i]).records().contains(r);
    assert(segment_ok(s.segments[i], i == s.segments.len() - 1));
    lemma_records_sound(s.segments[i].id, s.segments[i].bytes, 0, r);
    assert(stands_in(r, s.segments[i]));
}

/// What compaction did, for whoever mirrors the segments to storage.
#[derive(Debug)]
pub struct CompactionReceipt {
    /// The id of the segment that holds the copied records, if any was made.
    pub merged: Option<u64>,
    /// The ids of the sealed segments that it replaces.
    pub removed: Vec<u64>,
}

/// The views of the segments, in order.
pub open spec fn views_of(segments: Seq<Segment>) -> Seq<SegmentView> {
    Seq::new(segments.len(), |i: int| segments[i]@)
}

/// An open database: the sealed segments, the active segment, and the index
/// of the latest record of every live key.
#[derive(Debug)]
pub struct Store {
    segments: Vec<Segment>,
    index: Index,
    options: OpenOptions,
    closed: bool,
}

impl View for Store {
    type V = StoreState;

    closed spec fn view(&self) -> StoreState {
        StoreState {
            segments: views_of(self.segments@),
            options: self.options,
            closed: self.closed,
        }
    }
}

impl Store {
    /// Whether the store is well formed: its segments are those of a store,
    /// and its index points at the latest record of every live key.
    pub closed spec fn wf(&self) -> bool {
        &&& self@.wf()
        &&& self.index.wf()
        &&& self.index@ == locations(self@.live())
    }

    /// A well-formed store has well-formed segments.
    pub proof fn lemma_wf_view(&self)
        requires
            self.wf(),
        ensures
            self@.wf(),
    {
    }

    /// A store over an empty directory: one empty segment, no key.
    pub fn create(options: OpenOptions) -> (store: Self)
        ensures
            store.wf(),
            store@ == (StoreState {
                segments: seq![
                    SegmentView {
                        id: FIRST_SEGMENT_ID,
                        bytes: Seq::<u8>::empty(),
                        sealed: false,
                    },
                ],
                options,
                closed: false,
            }),
            store@.contents() == Map::<Seq<u8>, Seq<u8>>::empty(),
    {
        let mut segments: Vec<Segment> = Vec::new();
        segments.push(Segment::create(FIRST_SEGMENT_ID));
        let store = Store { segments, index: Index::new(), options, closed: false };
        proof {
            let fresh = SegmentView {
                id: FIRST_SEGMENT_ID,
                bytes: Seq::<u8>::empty(),
                sealed: false,
            };
            assert(store@.segments =~= seq![fresh]);
            lemma_log_push_empty(Seq::<SegmentView>::empty(), fresh);
            assert(Seq::<SegmentView>::empty().push(fresh) =~= seq![fresh]);
            assert(log_of(Seq::<SegmentView>::empty()) =~= Seq::<Record>::empty());
            assert(store@.live() =~= Map::<Seq<u8>, Record>::empty());
            assert(locations(store@.live()) =~= Map::<Seq<u8>, Location>::empty());
            assert(store@.contents() =~= Map::<Seq<u8>, Seq<u8>>::empty());
        }
        store
    }

    /// Whether the store was closed.
    pub fn is_closed(&self) -> (b: bool)
        ensures
            b == self@.closed,
    {
        self.closed
    }

    /// The options that the store was opened with.
    pub fn options(&self) -> (options: OpenOptions)
        ensures
            options == self@.options,
    {
        self.options
    }

    /// The sealed segments in the order of their ids, then the active one.
    pub fn segments(&self) -> (segments: &Vec<Segment>)
        ensures
            views_of(segments@) == self@.segments,
    {
        &self.segments
    }

    /// All live keys, each once, in no particular order.
    pub fn keys(&self) -> (keys: Vec<Vec<u8>>)
        requires
            self.wf(),
        ensures
            keys@.len() == self.slots().len(),
            forall|i: int| 0 <= i < keys@.len() ==> (#[trigger] keys@[i])@ == self.slots()[i].0,
            forall|i: int| 0 <= i < keys@.len() ==> self@.contents().contains_key(
                (#[trigger] keys@[i])@,
            ),
            forall|k: Seq<u8>|
                self@.contents().contains_key(k) ==> exists|i: int|
                    0 <= i < keys@.len() && (#[trigger] keys@[i])@ == k,
            forall|i: int, j: int|
                0 <= i < j < keys@.len() ==> (#[trigger] keys@[i])@ != (#[trigger] keys@[j])@,
    {
        let keys = self.index.keys();
        proof {
            let slots = self.index.slots();
            assert forall|i: int| 0 <= i < keys@.len() implies self@.contents().contains_key(
                (#[trigger] keys@[i])@,
            ) by {
                lemma_slot(slots, i);
            }
            assert forall|k: Seq<u8>| self@.contents().contains_key(k) implies exists|i: int|
                0 <= i < keys@.len() && (#[trigger] keys@[i])@ == k by {
                assert(map_of(slots).contains_key(k));
                lemma_key_has_slot(slots, k);
                assert(keys@[slot_of(slots, k)]@ == k);
            }
            assert forall|i: int, j: int| 0 <= i < j < keys@.len() implies (#[trigger] keys@[i])@
                != (#[trigger] keys@[j])@ by {
                assert(slots[i].0 != slots[j].0);
            }
        }
        keys
    }

    fn find_segment(&self, id: u64) -> (r: Option<usize>)
        ensures
            match r {
                Some(i) => i < self@.segments.len() && self@.segments[i as int].id == id,
                None => forall|i: int|
                    0 <= i < self@.segments.len() ==> (#[trigger] self@.segments[i]).id != id,
            },
    {
        let mut i: usize = 0;
        while i < self.segments.len()
            invariant
                i <= self.segments.len(),
                self.segments.len() == self@.segments.len(),
                forall|j: int| 0 <= j < i ==> (#[trigger] self@.segments[j]).id != id,
            decreases self.segments.len() - i,
        {
            if self.segments[i].id() == id {
                return Some(i);
            }
            i = i + 1;
        }
        None
    }

    /// Reads the latest record of a live key from the place `loc`, where
    /// the index says it stands.
    fn read_live(&self, key: &[u8], loc: Location) -> (r: Result<Entry, TinkvError>)
        requires
            self.wf(),
            self@.live().contains_key(key@),
            self@.live()[key@].loc == loc,
        ensures
            r.is_ok(),
            r.unwrap()@ == self@.live()[key@].entry,
    {
        let ghost rec = self@.live()[key@];
        proof {
            lemma_live_record(self@, key@);
        }
        let ghost at = choose|i: int|
            0 <= i < self@.segments.len() && stands_in(rec, #[trigger] self@.segments[i]);
        match self.find_segment(loc.segment_id) {
            None => {
                assert(self@.segments[at].id == loc.segment_id);
                Err(TinkvError::Corrupt)
            },
            Some(j) => {
                let seg = &self.segments[j];
                proof {
                    if j < at {
                        assert(self@.segments[j as int].id < self@.segments[at].id);
                    } else if at < j {
                        assert(self@.segments[at].id < self@.segments[j as int].id);
                    }
                    assert(j == at);
                    assert(seg@ == self@.segments[at]);
                    let bytes = seg@.bytes;
                    let window = bytes.subrange(loc.offset as int, loc.offset + loc.length);
                    assert(window.subrange(0, loc.length as int) =~= window);
                    lemma_frame_agree(bytes, loc.offset as nat, window, 0);
                }
                seg.read_at(loc.offset, loc.length)
            },
        }
    }

    /// The value of `key`, or `None` when the key is not live.
    pub fn get(&self, key: &[u8]) -> (r: Result<Option<Vec<u8>>, TinkvError>)
        requires
            self.wf(),
        ensures
            match self@.get_outcome(key@) {
                Ok(Some(v)) => r.is_ok() && r.unwrap().is_some() && r.unwrap().unwrap()@ == v,
                Ok(None) => r.is_ok() && r.unwrap().is_none(),
                Err(e) => r.is_err() && r.unwrap_err() == e,
            },
    {
        if self.closed {
            return Err(TinkvError::Closed);
        }
        match self.index.get(key) {
            None => Ok(None),
            Some(loc) => match self.read_live(key, loc) {
                Ok(entry) => Ok(Some(entry.value)),
                Err(e) => Err(e),
            },
        }
    }

    /// Appends `entry` to the active segment, seals the segment where it
    /// reached the size limit, and brings the index up to date.
    fn write(&mut self, entry: Entry) -> (r: Result<WriteReceipt, TinkvError>)
        requires
            old(self).wf(),
            entry@.is_valid(),
        ensures
            final(self).wf(),
            final(self)@ == old(self)@.write_outcome(entry@).0,
            r == old(self)@.write_outcome(entry@).1,
    {
        let ghost before = self@;
        let ghost e = entry@;
        let count: usize = self.segments.len();
        let active_len: usize = self.segments[count - 1].len();
        let active_id: u64 = self.segments[count - 1].id();
        assert(segment_ok(before.segments[count - 1], true));
        let size: usize = match entry.encoded_len() {
            Some(n) => n,
            None => {
                return Err(TinkvError::Io);
            },
        };
        if size > usize::MAX - active_len {
            return Err(TinkvError::Io);
        }
        let rotate: bool = active_len + size >= self.options.max_segment_size;
        if rotate && active_id == u64::MAX {
            return Err(TinkvError::Io);
        }
        let mut active = match self.segments.pop() {
            Some(segment) => segment,
            None => {
                return Err(TinkvError::Io);
            },
        };
        let appended = active.append(&entry);
        if rotate {
            active.seal();
        }
        self.segments.push(active);
        if rotate {
            self.segments.push(Segment::create(active_id + 1));
        }
        let tombstone: bool = entry.is_tombstone();
        let Entry { key, value, timestamp, checksum } = entry;
        if tombstone {
            self.index.remove(key.as_slice());
        } else {
            self.index.set(key, active_id, active_len, size);
        }
        proof {
            lemma_written(before, e);
            let place = before.place_of(e);
            assert(self@.segments =~= before.written(e).segments);
            assert(self@ == before.written(e));
            assert(locations(apply(before.live(), place)) =~= if e.is_tombstone() {
                locations(before.live()).remove(e.key)
            } else {
                locations(before.live()).insert(e.key, place.loc)
            });
        }
        Ok(
            WriteReceipt {
                location: Location { segment_id: active_id, offset: active_len, length: size },
                sync: self.options.sync || rotate,
                rotated_to: if rotate {
                    Some(active_id + 1)
                } else {
                    None
                },
            },
        )
    }

    /// Stores `value` under `key`, with the given timestamp. An empty value
    /// is refused: it would read as a deletion.
    pub fn put_at(&mut self, key: &[u8], value: &[u8], timestamp: u32) -> (r: Result<
        WriteReceipt,
        TinkvError,
    >)
        requires
            old(self).wf(),
        ensures
            final(self).wf(),
            final(self)@ == old(self)@.put_outcome(key@, value@, timestamp).0,
            r == old(self)@.put_outcome(key@, value@, timestamp).1,
    {
        if self.closed {
            return Err(TinkvError::Closed);
        }
        if value.len() == 0 {
            return Err(TinkvError::EmptyValue);
        }
        let entry = Entry::with_timestamp(
            vstd::slice::slice_to_vec(key),
            vstd::slice::slice_to_vec(value),
            timestamp,
        );
        self.write(entry)
    }

    /// Stores `value` under `key`, stamped with the current time.
    pub fn put(&mut self, key: &[u8], value: &[u8]) -> (r: Result<WriteReceipt, TinkvError>)
        requires
            old(self).wf(),
        ensures
            final(self).wf(),
            exists|t: u32| #[trigger]
                old(self)@.put_outcome(key@, value@, t) == (final(self)@, r),
    {
        let timestamp = current_timestamp();
        let r = self.put_at(key, value, timestamp);
        assert(old(self)@.put_outcome(key@, value@, timestamp) == (self@, r));
        r
    }

    /// Deletes `key` by writing a tombstone with the given timestamp. A key
    /// that is not live is deleted all the same, unless the store was opened
    /// for strict deletion.
    pub fn delete_at(&mut self, key: &[u8], timestamp: u32) -> (r: Result<WriteReceipt, TinkvError>)
        requires
            old(self).wf(),
        ensures
            final(self).wf(),
            final(self)@ == old(self)@.delete_outcome(key@, timestamp).0,
            r == old(self)@.delete_outcome(key@, timestamp).1,
    {
        if self.closed {
            return Err(TinkvError::Closed);
        }
        if self.options.strict_delete && self.index.get(key).is_none() {
            return Err(TinkvError::NotFound);
        }
        let entry = Entry::with_timestamp(vstd::slice::slice_to_vec(key), Vec::new(), timestamp);
        self.write(entry)
    }

    /// Deletes `key` by writing a tombstone stamped with the current time.
    pub fn delete(&mut self, key: &[u8]) -> (r: Result<WriteReceipt, TinkvError>)
        requires
            old(self).wf(),
        ensures
            final(self).wf(),
            exists|t: u32| #[trigger] old(self)@.delete_outcome(key@, t) == (final(self)@, r),
    {
        let timestamp = current_timestamp();
        let r = self.delete_at(key, timestamp);
        assert(old(self)@.delete_outcome(key@, timestamp) == (self@, r));
        r
    }

    /// Opens a store over the segments found in a directory, in whatever
    /// order they were found; `locked` tells that another store holds the
    /// directory. The segments are sorted by id and their records replayed
    /// in that order; what `recovered` says of the sorted segments is what
    /// comes back.
    pub fn open(options: OpenOptions, segments: Vec<Segment>, locked: bool) -> (r: Result<
        Store,
        TinkvError,
    >)
        ensures
            locked ==> r.is_err() && r.unwrap_err() == TinkvError::Locked,
            !locked ==> exists|sorted: Seq<SegmentView>| #[trigger]
                is_sorting_of(sorted, views_of(segments@)) && match recovered(options, sorted) {
                    Ok(v) => r.is_ok() && r.unwrap()@ == v && r.unwrap().wf(),
                    Err(e) => r.is_err() && r.unwrap_err() == e,
                },
    {
        if locked {
            return Err(TinkvError::Locked);
        }
        let sorted = sort_segments(segments);
        let ghost order = views_of(sorted@);
        let r = Store::recover(options, sorted);
        assert(is_sorting_of(order, views_of(segments@)));
        r
    }

    /// Recovers a store from segments that are sorted by id.
    fn recover(options: OpenOptions, segments: Vec<Segment>) -> (r: Result<Store, TinkvError>)
        requires
            ascending(views_of(segments@)),
        ensures
            match recovered(options, views_of(segments@)) {
                Ok(v) => r.is_ok() && r.unwrap()@ == v && r.unwrap().wf(),
                Err(e) => r.is_err() && r.unwrap_err() == e,
            },
    {
        let ghost given = views_of(segments@);
        let mut segs = segments;
        let count: usize = segs.len();
        let mut i: usize = 1;
        while i < count
            invariant
                1 <= i,
                count == segs.len(),
                given == views_of(segs@),
                given == views_of(segments@),
                forall|a: int, b: int|
                    0 <= a < b < i && b < count ==> (#[trigger] given[a]).id < (
                    #[trigger] given[b]).id,
            decreases count - i,
        {
            if segs[i - 1].id() >= segs[i].id() {
                assert(!(given[i - 1].id < given[i as int].id));
                return Err(TinkvError::Corrupt);
            }
            proof {
                assert forall|a: int, b: int| 0 <= a < b < i + 1 && b < count implies (
                #[trigger] given[a]).id < (#[trigger] given[b]).id by {
                    if b == i && a < i - 1 {
                        assert(given[a].id < given[i - 1].id);
                    }
                }
            }
            i = i + 1;
        }
        assert(strictly_ascending(given));
        if count == 0 {
            return Ok(Store::create(options));
        }
        let mut index = Index::new();
        let mut n: usize = 0;
        let mut stop: usize = 0;
        proof {
            assert(given.take(0) =~= Seq::<SegmentView>::empty());
            assert(log_of(given.take(0)) =~= Seq::<Record>::empty());
            assert(locations(replay(log_of(given.take(0)))) =~= Map::<Seq<u8>, Location>::empty());
        }
        while n < count
            invariant
                n <= count,
                count == segs.len(),
                count >= 1,
                given == views_of(segs@),
                given == views_of(segments@),
                index.wf(),
                index@ == locations(replay(log_of(given.take(n as int)))),
                forall|x: int| 0 <= x < n && x < count - 1 ==> is_clean((#[trigger] given[x]).bytes),
                forall|x: int| 0 <= x < n ==> (#[trigger] given[x]).bytes.len() <= usize::MAX,
                n == count ==> stop == scan_stop(given[count - 1].bytes, 0),
            decreases count - n,
        {
            let ghost prior = log_of(given.take(n as int));
            assert(segs@[n as int]@ == given[n as int]);
            stop = replay_segment(&mut index, &segs[n], Ghost(prior));
            proof {
                lemma_log_take(given, n as int);
            }
            let size: usize = segs[n].len();
            if n + 1 < count && stop < size {
                assert(!is_clean(given.drop_last()[n as int].bytes));
                return Err(TinkvError::Corrupt);
            }
            n = n + 1;
        }
        proof {
            assert(given.take(count as int) =~= given);
            assert(all_clean(given.drop_last())) by {
                assert forall|x: int| 0 <= x < given.drop_last().len() implies is_clean(
                    (#[trigger] given.drop_last()[x]).bytes,
                ) by {
                    assert(given.drop_last()[x] == given[x]);
                }
            }
            lemma_scan_stop_bounds(given[count - 1].bytes, 0);
            lemma_truncate_at_stop(given[count - 1].id, given[count - 1].bytes, 0);
        }
        assert(segs@[count - 1]@ == given[count - 1]);
        let last_len: usize = segs[count - 1].len();
        if stop < last_len {
            let torn: bool = match segs[count - 1].frame(stop) {
                FrameRead::Truncated => true,
                FrameRead::Damaged(next) => next == last_len,
                _ => false,
            };
            if !torn {
                proof {
                    assert(given.last() == given[count - 1]);
                    assert(!is_torn_tail(given[count - 1].bytes, stop as nat));
                }
                return Err(TinkvError::Corrupt);
            }
        }
        let last = match segs.pop() {
            Some(segment) => segment,
            None => {
                return Err(TinkvError::Corrupt);
            },
        };
        let last_id: u64 = last.id();
        let mut data = last.into_bytes();
        data.truncate(stop);
        let ghost kept = given[count - 1].bytes.take(stop as int);
        assert(data@ =~= kept);
        let rotate: bool = stop > options.max_segment_size;
        if rotate && last_id == u64::MAX {
            return Err(TinkvError::Io);
        }
        let mut x: usize = 0;
        while x < segs.len()
            invariant
                x <= segs.len(),
                segs.len() == count - 1,
                given.len() == count,
                forall|y: int|
                    0 <= y < x ==> (#[trigger] segs@[y])@ == (SegmentView {
                        sealed: true,
                        ..given[y]
                    }),
                forall|y: int| x <= y < segs.len() ==> (#[trigger] segs@[y])@ == given[y],
            decreases segs.len() - x,
        {
            segs[x].seal();
            x = x + 1;
        }
        let mut active = Segment::from_bytes(last_id, data);
        if rotate {
            active.seal();
        }
        segs.push(active);
        if rotate {
            segs.push(Segment::create(last_id + 1));
        }
        let store = Store { segments: segs, index, options, closed: false };
        proof {
            let v = recovered(options, given)->Ok_0;
            assert(store@.segments =~= v.segments);
            lemma_recovered_log(options, given);
        }
        Ok(store)
    }

    /// The keys of the index and the places that it names, in the order in
    /// which the keys came.
    pub closed spec fn slots(&self) -> Seq<(Seq<u8>, Location)> {
        self.index.slots()
    }

    /// The size of the segment that compaction would write now.
    pub open spec fn merged_size(&self) -> nat {
        merged_len(self.slots(), self@.active().id)
    }

    /// Copies the latest record of every live key that stands in a sealed
    /// segment into one new sealed segment, which takes the place of all
    /// sealed segments under the id of the last of them: its records stay
    /// older than those of the active segment, as replay needs them. The
    /// active segment and what every key holds stay as they are. Fails with `Io`, and
    /// changes nothing, when the new segment would outgrow the machine's
    /// range; does nothing where no segment is sealed.
    pub fn compact(&mut self) -> (r: Result<CompactionReceipt, TinkvError>)
        requires
            old(self).wf(),
        ensures
            final(self).wf(),
            final(self)@.contents() == old(self)@.contents(),
            old(self)@.closed ==> r.is_err() && r.unwrap_err() == TinkvError::Closed && final(self)@
                == old(self)@,
            !old(self)@.closed && old(self)@.segments.len() == 1 ==> r.is_ok() && final(self)@
                == old(self)@ && r.unwrap().merged.is_none() && r.unwrap().removed@.len() == 0,
            !old(self)@.closed && old(self)@.segments.len() >= 2 && old(self).merged_size()
                > usize::MAX ==> r.is_err() && r.unwrap_err() == TinkvError::Io && final(self)@
                == old(self)@,
            !old(self)@.closed && old(self)@.segments.len() >= 2 && old(self).merged_size()
                <= usize::MAX ==> r.is_ok() && ({
                let merged = final(self)@.segments[0];
                &&& final(self)@ == compacted(old(self)@, merged)
                &&& merged.id == old(self)@.segments[old(self)@.segments.len() - 2].id
                &&& merged.sealed
                &&& merged.bytes == encoded_run(
                    carried_entries(
                        old(self).slots(),
                        old(self)@.live(),
                        old(self)@.active().id,
                    ),
                )
                &&& merged.bytes.len() == old(self).merged_size()
                &&& is_merge_of(merged.records(), old(self)@.live(), old(self)@.active().id)
                &&& r.unwrap().merged == Some(merged.id)
                &&& r.unwrap().removed@.len() == old(self)@.segments.len() - 1
                &&& forall|i: int|
                    0 <= i < r.unwrap().removed@.len() ==> r.unwrap().removed@[i] == old(self)@.segments[i].id
            }),
    {
        if self.closed {
            return Err(TinkvError::Closed);
        }
        let count: usize = self.segments.len();
        if count < 2 {
            return Ok(CompactionReceipt { merged: None, removed: Vec::new() });
        }
        let active_id: u64 = self.segments[count - 1].id();
        let merged_id: u64 = self.segments[count - 2].id();
        let ghost s = self@;
        let ghost slots = self.index.slots();
        let ghost live = s.live();
        let mut merged = Segment::create(merged_id);
        let mut fresh = Index::new();
        let total: usize = self.index.len();
        let mut i: usize = 0;
        proof {
            lemma_log_push_empty(Seq::<SegmentView>::empty(), merged@);
            assert(merged@.records() =~= Seq::<Record>::empty());
            assert(slots.take(0) =~= Seq::<(Seq<u8>, Location)>::empty());
            assert(merged@.bytes =~= encoded_run(carried_entries(slots.take(0), live, active_id)));
        }
        while i < total
            invariant
                self.wf(),
                self@ == s,
                !s.closed,
                self.index.slots() == slots,
                live == s.live(),
                s.segments.len() >= 2,
                active_id == s.active().id,
                merged_id == s.segments[s.segments.len() - 2].id,
                i <= total,
                total == slots.len(),
                merged@.id == merged_id,
                !merged@.sealed,
                is_clean(merged@.bytes),
                merged@.bytes.len() <= usize::MAX,
                merged@.bytes.len() == merged_len(slots.take(i as int), active_id),
                merged@.bytes == encoded_run(carried_entries(slots.take(i as int), live, active_id)),
                fresh.wf(),
                fresh.slots().len() == i,
                carried_over(
                    slots,
                    fresh.slots(),
                    live,
                    replay(merged@.records()),
                    active_id,
                    i as int,
                ),
                is_merge_of(merged@.records(), live, active_id),
                keys_within(merged@.records(), slots, i as int),
            decreases total - i,
        {
            let loc = self.index.location_at(i);
            let key = vstd::slice::slice_to_vec(self.index.key_at(i));
            let ghost k = slots[i as int].0;
            let ghost records = merged@.records();
            let ghost bytes = merged@.bytes;
            proof {
                lemma_slot(slots, i as int);
                assert(live.contains_key(k) && live[k].loc == loc);
                lemma_next_key_is_new(
                    slots,
                    fresh.slots(),
                    live,
                    replay(records),
                    active_id,
                    i as int,
                );
                assert(slots.take(i + 1).drop_last() =~= slots.take(i as int));
                assert(slots.take(i + 1).last() == slots[i as int]);
            }
            if loc.segment_id == active_id {
                proof {
                    lemma_carry_kept(
                        slots,
                        fresh.slots(),
                        live,
                        replay(records),
                        active_id,
                        i as int,
                    );
                    assert(keys_within(records, slots, i + 1)) by {
                        assert forall|x: int| 0 <= x < records.len() implies exists|j: int|
                            0 <= j < i + 1 && (#[trigger] slots[j]).0 == (
                            #[trigger] records[x]).entry.key by {
                            let j = choose|j: int|
                                0 <= j < i && (#[trigger] slots[j]).0 == records[x].entry.key;
                            assert(0 <= j < i + 1 && slots[j].0 == records[x].entry.key);
                        }
                    }
                }
                fresh.insert_new(key, loc);
            } else {
                let entry = match self.read_live(key.as_slice(), loc) {
                    Ok(entry) => entry,
                    Err(e) => {
                        return Err(e);
                    },
                };
                let ghost e = entry@;
                proof {
                    lemma_live_record(s, k);
                    let at = choose|x: int|
                        0 <= x < s.segments.len() && stands_in(live[k], #[trigger] s.segments[x]);
                    crate::data::lemma_frame_len(s.segments[at].bytes, loc.offset as nat);
                    assert(e.encoded_len() == loc.length);
                    lemma_merged_len_prefix(slots, active_id, i + 1);
                }
                let offset: usize = match merged.append(&entry) {
                    Ok(offset) => offset,
                    Err(_) => {
                        return Err(TinkvError::Io);
                    },
                };
                let place = Location { segment_id: merged_id, offset, length: loc.length };
                proof {
                    let rec = record_at(merged_id, bytes.len(), e, bytes.len() + e.encoded_len());
                    assert(rec.loc == place);
                    lemma_append_record(merged_id, bytes, 0, e);
                    lemma_replay_push(Map::empty(), records, rec);
                    assert(replay(merged@.records()) == replay(records).insert(k, rec));
                    lemma_carry_copied(
                        slots,
                        fresh.slots(),
                        live,
                        replay(records),
                        active_id,
                        i as int,
                        rec,
                    );
                    lemma_merge_push(records, slots, live, active_id, i as int, rec);
                    crate::data::lemma_encoding_len(e);
                    let carried = carried_entries(slots.take(i + 1), live, active_id);
                    assert(carried.drop_last() =~= carried_entries(
                        slots.take(i as int),
                        live,
                        active_id,
                    ));
                }
                fresh.insert_new(key, place);
            }
            i = i + 1;
        }
        let active = match self.segments.pop() {
            Some(segment) => segment,
            None => {
                return Err(TinkvError::Io);
            },
        };
        let mut removed: Vec<u64> = Vec::new();
        let mut j: usize = 0;
        while j < self.segments.len()
            invariant
                j <= self.segments.len(),
                self.segments.len() == s.segments.len() - 1,
                removed@.len() == j,
                forall|x: int| 0 <= x < self.segments.len() ==> self.segments@[x]@ == s.segments[x],
                forall|x: int| 0 <= x < j ==> removed@[x] == s.segments[x].id,
            decreases self.segments.len() - j,
        {
            removed.push(self.segments[j].id());
            j = j + 1;
        }
        merged.seal();
        proof {
            assert(slots.take(total as int) =~= slots);
            assert(active@ == s.active());
            lemma_compaction(s, slots, fresh.slots(), merged@);
        }
        let mut segments: Vec<Segment> = Vec::new();
        segments.push(merged);
        segments.push(active);
        self.segments = segments;
        self.index = fresh;
        proof {
            assert(self@.segments =~= seq![self@.segments[0], s.active()]);
            assert(self@ == compacted(s, self@.segments[0]));
        }
        Ok(CompactionReceipt { merged: Some(merged_id), removed })
    }

    /// Closes the store. Every later operation fails with `Closed`, a second
    /// `close` too.
    pub fn close(&mut self) -> (r: Result<(), TinkvError>)
        requires
            old(self).wf(),
        ensures
            final(self).wf(),
            final(self)@ == (StoreState { closed: true, ..old(self)@ }),
            r == if old(self)@.closed {
                Err::<(), TinkvError>(TinkvError::Closed)
            } else {
                Ok::<(), TinkvError>(())
            },
    {
        if self.closed {
            return Err(TinkvError::Closed);
        }
        self.closed = true;
        Ok(())
    }
}

} // verus!
