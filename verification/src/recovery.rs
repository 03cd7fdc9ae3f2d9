//! Recovery: sorting the segments of a directory, replaying them, and what
//! becomes of a newest segment whose last write was interrupted.
use crate::data::{frame_at, FrameRead};
use crate::error::TinkvError;
use crate::index::Index;
use crate::replay::{
    apply, lemma_log_push_empty, lemma_log_same_records, lemma_replay_push, locations, log_of,
    replay,
};
use crate::segment::{
    ends_by, is_clean, is_recoverable, is_torn_tail, lemma_scan_stop_bounds, lemma_scan_truncated,
    lemma_truncate_at_stop, record_at, records_from, scan_stop, Record, Segment, SegmentView,
};
use crate::store::{segment_ok, views_of, OpenOptions, StoreState, FIRST_SEGMENT_ID};
use vstd::prelude::*;

verus! {

/// Whether the ids never fall from one segment to the next.
pub open spec fn ascending(segments: Seq<SegmentView>) -> bool {
    forall|i: int, j: int|
        0 <= i < j < segments.len() ==> (#[trigger] segments[i]).id <= (#[trigger] segments[j]).id
}

/// Whether the ids rise from each segment to the next.
pub open spec fn strictly_ascending(segments: Seq<SegmentView>) -> bool {
    forall|i: int, j: int|
        0 <= i < j < segments.len() ==> (#[trigger] segments[i]).id < (#[trigger] segments[j]).id
}

/// Whether `sorted` holds the segments of `input`, each as often as `input`
/// holds it, in the order of their ids.
pub open spec fn is_sorting_of(sorted: Seq<SegmentView>, input: Seq<SegmentView>) -> bool {
    ascending(sorted) && sorted.to_multiset() == input.to_multiset()
}

/// Whether every segment is a run of valid records and nothing else.
pub open spec fn all_clean(segments: Seq<SegmentView>) -> bool {
    forall|i: int| 0 <= i < segments.len() ==> is_clean((#[trigger] segments[i]).bytes)
}

/// The segments, each sealed.
pub open spec fn sealed_all(segments: Seq<SegmentView>) -> Seq<SegmentView> {
    Seq::new(segments.len(), |i: int| SegmentView { sealed: true, ..segments[i] })
}

/// An empty, writable segment.
pub open spec fn fresh_segment(id: u64) -> SegmentView {
    SegmentView { id, bytes: Seq::<u8>::empty(), sealed: false }
}

/// The store that recovery makes of the segments of a directory, given in
/// the order of their ids, or the reason for which it gives up.
///
/// Two segments with one id, damage in any segment but the newest, and
/// damage in the newest that is not the mark of an interrupted last write
/// are corruption. The newest segment is cut where its valid records end
/// and becomes the active one, unless it is larger than the size limit:
/// then it is sealed, and an empty segment with the next id follows it.
pub open spec fn recovered(options: OpenOptions, segments: Seq<SegmentView>) -> Result<
    StoreState,
    TinkvError,
> {
    if !strictly_ascending(segments) {
        Err(TinkvError::Corrupt)
    } else if segments.len() == 0 {
        Ok(StoreState { segments: seq![fresh_segment(FIRST_SEGMENT_ID)], options, closed: false })
    } else if !all_clean(segments.drop_last()) || !is_recoverable(segments.last().bytes) {
        Err(TinkvError::Corrupt)
    } else {
        let last = segments.last();
        let kept = last.bytes.take(scan_stop(last.bytes, 0) as int);
        if kept.len() > options.max_segment_size {
            if last.id == u64::MAX {
                Err(TinkvError::Io)
            } else {
                Ok(
                    StoreState {
                        segments: sealed_all(segments.drop_last()).push(
                            SegmentView { id: last.id, bytes: kept, sealed: true },
                        ).push(fresh_segment((last.id + 1) as u64)),
                        options,
                        closed: false,
                    },
                )
            }
        } else {
            Ok(
                StoreState {
                    segments: sealed_all(segments.drop_last()).push(
                        SegmentView { id: last.id, bytes: kept, sealed: false },
                    ),
                    options,
                    closed: false,
                },
            )
        }
    }
}

/// What recovery makes of clean, sorted segments is a well-formed store
/// that holds their log.
pub proof fn lemma_recovered_log(options: OpenOptions, segments: Seq<SegmentView>)
    requires
        recovered(options, segments).is_ok(),
        segments.len() >= 1,
        forall|i: int| 0 <= i < segments.len() ==> (#[trigger] segments[i]).bytes.len() <= usize::MAX,
    ensures
        recovered(options, segments).unwrap().wf(),
        log_of(recovered(options, segments).unwrap().segments) == log_of(segments),
{
    let n = segments.len() as int;
    let v = recovered(options, segments).unwrap();
    let last = segments.last();
    let front = segments.drop_last();
    let stop = scan_stop(last.bytes, 0);
    let kept = last.bytes.take(stop as int);
    lemma_scan_stop_bounds(last.bytes, 0);
    lemma_truncate_at_stop(last.id, last.bytes, 0);
    let rotate = kept.len() > options.max_segment_size;
    let mid = sealed_all(front).push(SegmentView { id: last.id, bytes: kept, sealed: rotate });
    assert(mid.len() == n);
    assert forall|i: int| 0 <= i < n implies (#[trigger] mid[i]).records()
        == segments[i].records() && mid[i].id == segments[i].id && is_clean(mid[i].bytes)
        && mid[i].bytes.len() <= usize::MAX by {
        if i < n - 1 {
            assert(front[i] == segments[i]);
            assert(is_clean(front[i].bytes));
        }
    }
    lemma_log_same_records(mid, segments);
    if rotate {
        let fresh = fresh_segment((last.id + 1) as u64);
        lemma_log_push_empty(mid, fresh);
        assert(v.segments == mid.push(fresh));
        assert forall|i: int, j: int| 0 <= i < j < v.segments.len() implies (
        #[trigger] v.segments[i]).id < (#[trigger] v.segments[j]).id by {
            assert(mid[i].id == segments[i].id);
            if j < n {
                assert(mid[j].id == segments[j].id);
            } else {
                assert(segments[i].id <= segments[n - 1].id);
            }
        }
        assert forall|i: int| 0 <= i < v.segments.len() implies segment_ok(
            #[trigger] v.segments[i],
            i == v.segments.len() - 1,
        ) by {
            if i < n {
                assert(v.segments[i] == mid[i]);
                assert(is_clean(mid[i].bytes));
            }
        }
    } else {
        assert(v.segments == mid);
        assert forall|i: int, j: int| 0 <= i < j < v.segments.len() implies (
        #[trigger] v.segments[i]).id < (#[trigger] v.segments[j]).id by {
            assert(mid[i].id == segments[i].id);
            assert(mid[j].id == segments[j].id);
        }
        assert forall|i: int| 0 <= i < v.segments.len() implies segment_ok(
            #[trigger] v.segments[i],
            i == v.segments.len() - 1,
        ) by {
            assert(is_clean(mid[i].bytes));
        }
    }
}

/// Reopening keeps what every key holds: recovery from the segments of a
/// well-formed store succeeds, unless the id of a segment that it has to
/// add would leave the machine's range, and the store that it makes holds
/// the same log and the same contents.
pub proof fn lemma_reopen(s: StoreState, options: OpenOptions)
    requires
        s.wf(),
        s.active().bytes.len() <= options.max_segment_size || s.active().id < u64::MAX,
    ensures
        recovered(options, s.segments).is_ok(),
        recovered(options, s.segments).unwrap().wf(),
        recovered(options, s.segments).unwrap().contents() == s.contents(),
{
    let n = s.segments.len() as int;
    let last = s.segments.last();
    assert(segment_ok(s.segments[n - 1], true));
    assert(all_clean(s.segments.drop_last())) by {
        assert forall|i: int| 0 <= i < n - 1 implies is_clean(
            (#[trigger] s.segments.drop_last()[i]).bytes,
        ) by {
            assert(segment_ok(s.segments[i], false));
        }
    }
    lemma_scan_stop_bounds(last.bytes, 0);
    assert(last.bytes.take(scan_stop(last.bytes, 0) as int) =~= last.bytes);
    assert forall|i: int| 0 <= i < n implies (#[trigger] s.segments[i]).bytes.len()
        <= usize::MAX by {
        assert(segment_ok(s.segments[i], i == n - 1));
    }
    lemma_recovered_log(options, s.segments);
}

/// Crash tolerance: where the newest segment of a well-formed store was cut
/// anywhere, even in the middle of a record, recovery succeeds (unless the
/// id of a segment that it has to add would leave the machine's range), and
/// the log that it recovers holds all records of the sealed segments, then
/// the records of the newest segment that were complete before the cut, and
/// no other.
pub proof fn lemma_recover_truncated(s: StoreState, options: OpenOptions, cut: nat)
    requires
        s.wf(),
        cut <= s.active().bytes.len(),
        cut <= options.max_segment_size || s.active().id < u64::MAX,
    ensures
        ({
            let damaged = s.segments.drop_last().push(
                SegmentView { bytes: s.active().bytes.take(cut as int), ..s.active() },
            );
            let part = records_from(s.active().id, s.active().bytes.take(cut as int), 0);
            let all = s.active().records();
            &&& recovered(options, damaged).is_ok()
            &&& recovered(options, damaged).unwrap().wf()
            &&& log_of(recovered(options, damaged).unwrap().segments) == log_of(
                s.segments.drop_last(),
            ) + part
            &&& part.len() <= all.len()
            &&& part == all.take(part.len() as int)
            &&& forall|i: int| 0 <= i < part.len() ==> ends_by(#[trigger] part[i], cut)
            &&& forall|i: int| part.len() <= i < all.len() ==> !ends_by(#[trigger] all[i], cut)
        }),
{
    let n = s.segments.len() as int;
    let last = s.active();
    let front = s.segments.drop_last();
    let torn = SegmentView { bytes: last.bytes.take(cut as int), ..last };
    let damaged = front.push(torn);
    assert(segment_ok(s.segments[n - 1], true));
    lemma_scan_truncated(last.id, last.bytes, 0, cut);
    assert(damaged.drop_last() =~= front);
    assert(damaged.last() == torn);
    assert(all_clean(front)) by {
        assert forall|i: int| 0 <= i < n - 1 implies is_clean((#[trigger] front[i]).bytes) by {
            assert(segment_ok(s.segments[i], false));
        }
    }
    assert(strictly_ascending(damaged)) by {
        assert forall|i: int, j: int| 0 <= i < j < damaged.len() implies (
        #[trigger] damaged[i]).id < (#[trigger] damaged[j]).id by {
            assert(damaged[i].id == s.segments[i].id);
            assert(damaged[j].id == s.segments[j].id);
        }
    }
    lemma_scan_stop_bounds(torn.bytes, 0);
    assert(is_recoverable(torn.bytes));
    assert forall|i: int| 0 <= i < n implies (#[trigger] damaged[i]).bytes.len()
        <= usize::MAX by {
        assert(segment_ok(s.segments[i], i == n - 1));
    }
    lemma_recovered_log(options, damaged);
}

/// Damage that is not the mark of an interrupted last write makes recovery
/// fail: a complete record with a wrong checksum that ends before its
/// segment does, in any segment, or any damage in a segment that is not the
/// newest.
pub proof fn lemma_damage_fails(options: OpenOptions, segments: Seq<SegmentView>, i: int)
    requires
        0 <= i < segments.len(),
        !is_clean(segments[i].bytes),
        i < segments.len() - 1 || !is_torn_tail(
            segments[i].bytes,
            scan_stop(segments[i].bytes, 0),
        ),
    ensures
        recovered(options, segments) == Err::<StoreState, TinkvError>(TinkvError::Corrupt),
{
    if i < segments.len() - 1 {
        assert(segments.drop_last()[i] == segments[i]);
    }
}

/// Sorts segments by id.
pub fn sort_segments(segments: Vec<Segment>) -> (sorted: Vec<Segment>)
    ensures
        is_sorting_of(views_of(sorted@), views_of(segments@)),
{
    let ghost input = views_of(segments@);
    let mut rest = segments;
    let mut sorted: Vec<Segment> = Vec::new();
    proof {
        assert(views_of(sorted@) =~= Seq::<SegmentView>::empty());
        assert(views_of(sorted@).to_multiset().add(input.to_multiset()) =~= input.to_multiset())
            by {
            broadcast use vstd::seq_lib::group_to_multiset_ensures;

        }
    }
    while rest.len() > 0
        invariant
            ascending(views_of(sorted@)),
            forall|a: int, b: int|
                0 <= a < sorted@.len() && 0 <= b < rest@.len() ==> (#[trigger] sorted@[a])@.id <= (
                #[trigger] rest@[b])@.id,
            views_of(sorted@).to_multiset().add(views_of(rest@).to_multiset())
                == input.to_multiset(),
        decreases rest.len(),
    {
        let mut least: usize = 0;
        let mut j: usize = 1;
        while j < rest.len()
            invariant
                least < rest.len(),
                1 <= j <= rest.len(),
                forall|b: int| 0 <= b < j ==> rest@[least as int]@.id <= (#[trigger] rest@[b])@.id,
            decreases rest.len() - j,
        {
            if rest[j].id() < rest[least].id() {
                least = j;
            }
            j = j + 1;
        }
        let ghost before_rest = views_of(rest@);
        let ghost before_sorted = views_of(sorted@);
        let ghost old_rest = rest@;
        let ghost old_sorted = sorted@;
        let segment = rest.remove(least);
        sorted.push(segment);
        proof {
            let moved = before_rest[least as int];
            assert(views_of(rest@) =~= before_rest.remove(least as int));
            assert(views_of(sorted@) =~= before_sorted.push(moved));
            vstd::seq_lib::to_multiset_remove(before_rest, least as int);
            vstd::seq_lib::to_multiset_build(before_sorted, moved);
            assert(before_rest.to_multiset().count(moved) > 0) by {
                broadcast use vstd::seq_lib::group_to_multiset_ensures;

                assert(before_rest.contains(moved));
            }
            assert(before_sorted.to_multiset().insert(moved).add(
                before_rest.to_multiset().remove(moved),
            ) =~= before_sorted.to_multiset().add(before_rest.to_multiset()));
            assert forall|a: int, b: int|
                0 <= a < sorted@.len() && 0 <= b < rest@.len() implies (#[trigger] sorted@[a])@.id
                <= (#[trigger] rest@[b])@.id by {
                let b0 = if b < least { b } else { b + 1 };
                assert(rest@[b] == old_rest[b0]);
                if a < old_sorted.len() {
                    assert(sorted@[a] == old_sorted[a]);
                }
            }
            assert forall|a: int, b: int| 0 <= a < b < sorted@.len() implies (#[trigger] views_of(
                sorted@,
            )[a]).id <= (#[trigger] views_of(sorted@)[b]).id by {
                assert(views_of(sorted@)[a] == before_sorted[a]);
                if b < old_sorted.len() {
                    assert(views_of(sorted@)[b] == before_sorted[b]);
                } else {
                    assert(old_sorted[a]@.id <= old_rest[least as int]@.id);
                }
            }
        }
    }
    proof {
        assert(views_of(rest@) =~= Seq::<SegmentView>::empty());
        assert(views_of(sorted@).to_multiset().add(views_of(rest@).to_multiset()) =~= views_of(
            sorted@,
        ).to_multiset()) by {
            broadcast use vstd::seq_lib::group_to_multiset_ensures;

        }
    }
    sorted
}

/// Replays the valid records of `segment`, from its start to the first
/// frame that is no valid record, into `index`; returns where that frame
/// stands.
pub(crate) fn replay_segment(index: &mut Index, segment: &Segment, Ghost(prior): Ghost<Seq<Record>>) -> (stop:
    usize)
    requires
        old(index).wf(),
        old(index)@ == locations(replay(prior)),
    ensures
        final(index).wf(),
        final(index)@ == locations(replay(prior + segment@.records())),
        stop == scan_stop(segment@.bytes, 0),
        stop <= segment@.bytes.len(),
{
    let id: u64 = segment.id();
    let len: usize = segment.len();
    let ghost bytes = segment@.bytes;
    let ghost done: Seq<Record> = Seq::empty();
    let mut offset: usize = 0;
    let mut scanning: bool = true;
    proof {
        assert(prior + done =~= prior);
        assert(done + records_from(id, bytes, 0) =~= records_from(id, bytes, 0));
    }
    while scanning
        invariant
            id == segment@.id,
            len == bytes.len(),
            bytes == segment@.bytes,
            offset <= len,
            index.wf(),
            index@ == locations(replay(prior + done)),
            records_from(id, bytes, 0) == done + records_from(id, bytes, offset as nat),
            scan_stop(bytes, 0) == scan_stop(bytes, offset as nat),
            !scanning ==> !(frame_at(bytes, offset as nat) is Record),
        decreases len - offset + (if scanning { 1int } else { 0int }),
    {
        match segment.frame(offset) {
            FrameRead::Record(entry, next) => {
                let ghost rec = record_at(id, offset as nat, entry@, next as nat);
                proof {
                    crate::data::lemma_frame_len(bytes, offset as nat);
                    lemma_replay_push(Map::empty(), prior + done, rec);
                    assert(prior + done.push(rec) =~= (prior + done).push(rec));
                    assert(done.push(rec) + records_from(id, bytes, next as nat) =~= done + (
                    seq![rec] + records_from(id, bytes, next as nat)));
                    assert(locations(apply(replay(prior + done), rec)) =~= if rec.entry.is_tombstone() {
                        locations(replay(prior + done)).remove(rec.entry.key)
                    } else {
                        locations(replay(prior + done)).insert(rec.entry.key, rec.loc)
                    });
                    done = done.push(rec);
                }
                if entry.is_tombstone() {
                    index.remove(entry.key.as_slice());
                } else {
                    index.set(entry.key, id, offset, next - offset);
                }
                offset = next;
            },
            _ => {
                scanning = false;
            },
        }
    }
    proof {
        assert(records_from(id, bytes, offset as nat) =~= Seq::<Record>::empty());
        assert(done + Seq::<Record>::empty() =~= done);
    }
    offset
}

} // verus!
