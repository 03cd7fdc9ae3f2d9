//! The log of a set of segments, and the replay that turns a log into the
//! latest record of every live key.
use crate::data::{encode_spec, EntryView};
use crate::segment::{is_clean, lemma_append_record, record_at, Location, Record, SegmentView};
use vstd::prelude::*;

verus! {

/// All records of the segments, in the order in which they were written.
pub open spec fn log_of(segments: Seq<SegmentView>) -> Seq<Record>
    decreases segments.len(),
{
    if segments.len() == 0 {
        Seq::empty()
    } else {
        log_of(segments.drop_last()) + segments.last().records()
    }
}

/// The effect of one record on the latest records per key: a tombstone
/// forgets its key, any other record takes its key's place.
pub open spec fn apply(m: Map<Seq<u8>, Record>, r: Record) -> Map<Seq<u8>, Record> {
    if r.entry.is_tombstone() {
        m.remove(r.entry.key)
    } else {
        m.insert(r.entry.key, r)
    }
}

/// The latest records per key after the records of `log` came upon `m`.
pub open spec fn replay_onto(m: Map<Seq<u8>, Record>, log: Seq<Record>) -> Map<Seq<u8>, Record>
    decreases log.len(),
{
    if log.len() == 0 {
        m
    } else {
        apply(replay_onto(m, log.drop_last()), log.last())
    }
}

/// The latest record of every live key of `log`.
pub open spec fn replay(log: Seq<Record>) -> Map<Seq<u8>, Record> {
    replay_onto(Map::empty(), log)
}

/// Where each of the records stands.
pub open spec fn locations(m: Map<Seq<u8>, Record>) -> Map<Seq<u8>, Location> {
    Map::new(|k: Seq<u8>| m.contains_key(k), |k: Seq<u8>| m[k].loc)
}

/// The value that each of the records holds.
pub open spec fn values(m: Map<Seq<u8>, Record>) -> Map<Seq<u8>, Seq<u8>> {
    Map::new(|k: Seq<u8>| m.contains_key(k), |k: Seq<u8>| m[k].entry.value)
}

/// A record appended to the last segment is appended to the log.
pub proof fn lemma_log_append(segments: Seq<SegmentView>, e: EntryView)
    requires
        segments.len() >= 1,
        is_clean(segments.last().bytes),
        e.is_valid(),
        e.key.len() <= u64::MAX,
        e.value.len() <= u64::MAX,
    ensures
        log_of(
            segments.drop_last().push(
                SegmentView { bytes: segments.last().bytes + encode_spec(e), ..segments.last() },
            ),
        ) == log_of(segments).push(
            record_at(
                segments.last().id,
                segments.last().bytes.len(),
                e,
                segments.last().bytes.len() + e.encoded_len(),
            ),
        ),
        is_clean(segments.last().bytes + encode_spec(e)),
{
    let last = segments.last();
    let grown = SegmentView { bytes: last.bytes + encode_spec(e), ..last };
    let after = segments.drop_last().push(grown);
    let r = record_at(last.id, last.bytes.len(), e, last.bytes.len() + e.encoded_len());
    lemma_append_record(last.id, last.bytes, 0, e);
    assert(after.drop_last() =~= segments.drop_last());
    assert(after.last() == grown);
    assert(log_of(segments.drop_last()) + last.records().push(r) =~= (log_of(
        segments.drop_last(),
    ) + last.records()).push(r));
}

/// The sealed flag of a segment has no part in the log.
pub proof fn lemma_log_ignores_seal(segments: Seq<SegmentView>, sealed: bool)
    requires
        segments.len() >= 1,
    ensures
        log_of(segments.drop_last().push(SegmentView { sealed, ..segments.last() })) == log_of(
            segments,
        ),
{
    let after = segments.drop_last().push(SegmentView { sealed, ..segments.last() });
    assert(after.drop_last() =~= segments.drop_last());
}

/// An empty segment adds nothing to the log.
pub proof fn lemma_log_push_empty(segments: Seq<SegmentView>, fresh: SegmentView)
    requires
        fresh.bytes.len() == 0,
    ensures
        log_of(segments.push(fresh)) == log_of(segments),
        is_clean(fresh.bytes),
{
    let after = segments.push(fresh);
    assert(after.drop_last() =~= segments);
    assert(fresh.records() =~= Seq::<Record>::empty());
    assert(log_of(segments) + Seq::<Record>::empty() =~= log_of(segments));
}

/// Replaying one more record applies it to what was replayed before.
pub proof fn lemma_replay_push(m: Map<Seq<u8>, Record>, log: Seq<Record>, r: Record)
    ensures
        replay_onto(m, log.push(r)) == apply(replay_onto(m, log), r),
{
    assert(log.push(r).drop_last() =~= log);
}

/// A key that a replay left live holds a record of the log, with that key
/// and a value, unless it holds what it held before the replay.
pub proof fn lemma_replay_member(m: Map<Seq<u8>, Record>, log: Seq<Record>, k: Seq<u8>)
    requires
        replay_onto(m, log).contains_key(k),
    ensures
        ({
            let r = replay_onto(m, log)[k];
            (log.contains(r) && r.entry.key == k && !r.entry.is_tombstone()) || (m.contains_key(k)
                && m[k] == r)
        }),
    decreases log.len(),
{
    if log.len() > 0 {
        let front = log.drop_last();
        let last = log.last();
        let r = replay_onto(m, log)[k];
        if last.entry.key == k {
            assert(log[log.len() - 1] == r);
        } else {
            lemma_replay_member(m, front, k);
            if front.contains(r) {
                let i = choose|i: int| 0 <= i < front.len() && front[i] == r;
                assert(log[i] == r);
            }
        }
    }
}

/// Every record of the log stands among the records of some segment.
pub proof fn lemma_log_member(segments: Seq<SegmentView>, r: Record)
    requires
        log_of(segments).contains(r),
    ensures
        exists|i: int| 0 <= i < segments.len() && (#[trigger] segments[i]).records().contains(r),
    decreases segments.len(),
{
    if segments.len() > 0 {
        let front = segments.drop_last();
        let last = segments.last();
        let log = log_of(segments);
        let j = choose|j: int| 0 <= j < log.len() && log[j] == r;
        if j < log_of(front).len() {
            assert(log_of(front)[j] == r);
            lemma_log_member(front, r);
            let i = choose|i: int| 0 <= i < front.len() && (#[trigger] front[i]).records().contains(r);
            assert(segments[i] == front[i]);
        } else {
            assert(last.records()[j - log_of(front).len()] == r);
            assert(segments[segments.len() - 1].records().contains(r));
        }
    }
}

/// Replaying two logs one after the other is replaying their concatenation.
pub proof fn lemma_replay_concat(m: Map<Seq<u8>, Record>, a: Seq<Record>, b: Seq<Record>)
    ensures
        replay_onto(m, a + b) == replay_onto(replay_onto(m, a), b),
    decreases b.len(),
{
    if b.len() == 0 {
        assert(a + b =~= a);
    } else {
        lemma_replay_concat(m, a, b.drop_last());
        assert((a + b).drop_last() =~= a + b.drop_last());
        assert((a + b).last() == b.last());
    }
}

/// Whether some record of `log` carries the key `k`.
pub open spec fn touches(log: Seq<Record>, k: Seq<u8>) -> bool {
    exists|i: int| 0 <= i < log.len() && (#[trigger] log[i]).entry.key == k
}

/// A key that no record of the log carries holds after the replay what it
/// held before.
pub proof fn lemma_replay_untouched(m: Map<Seq<u8>, Record>, log: Seq<Record>, k: Seq<u8>)
    requires
        !touches(log, k),
    ensures
        replay_onto(m, log).contains_key(k) == m.contains_key(k),
        m.contains_key(k) ==> replay_onto(m, log)[k] == m[k],
    decreases log.len(),
{
    if log.len() > 0 {
        let front = log.drop_last();
        assert(log[log.len() - 1].entry.key != k);
        assert(!touches(front, k)) by {
            if touches(front, k) {
                let i = choose|i: int| 0 <= i < front.len() && (#[trigger] front[i]).entry.key == k;
                assert(log[i].entry.key == k);
            }
        }
        lemma_replay_untouched(m, front, k);
    }
}

/// What a key that some record of the log carries holds after the replay
/// does not depend on what stood before: it is a record of the log, or
/// nothing.
pub proof fn lemma_replay_touched(
    m1: Map<Seq<u8>, Record>,
    m2: Map<Seq<u8>, Record>,
    log: Seq<Record>,
    k: Seq<u8>,
)
    requires
        touches(log, k),
    ensures
        replay_onto(m1, log).contains_key(k) == replay_onto(m2, log).contains_key(k),
        replay_onto(m1, log).contains_key(k) ==> replay_onto(m1, log)[k] == replay_onto(
            m2,
            log,
        )[k] && log.contains(replay_onto(m1, log)[k]),
    decreases log.len(),
{
    let front = log.drop_last();
    let last = log.last();
    if last.entry.key == k {
        assert(log[log.len() - 1] == last);
    } else {
        let i = choose|i: int| 0 <= i < log.len() && (#[trigger] log[i]).entry.key == k;
        assert(front[i].entry.key == k);
        lemma_replay_touched(m1, m2, front, k);
        if replay_onto(m1, front).contains_key(k) {
            let r = replay_onto(m1, front)[k];
            let j = choose|j: int| 0 <= j < front.len() && front[j] == r;
            assert(log[j] == r);
        }
    }
}

/// The log of two segments is the records of the first, then of the second.
pub proof fn lemma_log_pair(a: SegmentView, b: SegmentView)
    ensures
        log_of(seq![a, b]) == a.records() + b.records(),
{
    let both = seq![a, b];
    let one = seq![a];
    assert(both.drop_last() =~= one);
    assert(one.drop_last() =~= Seq::<SegmentView>::empty());
    assert(log_of(one.drop_last()) =~= Seq::<Record>::empty());
    assert(one.last() == a);
    assert(log_of(one) =~= a.records());
}

/// Segments that hold the same records, one by one, make the same log.
pub proof fn lemma_log_same_records(a: Seq<SegmentView>, b: Seq<SegmentView>)
    requires
        a.len() == b.len(),
        forall|i: int| 0 <= i < a.len() ==> (#[trigger] a[i]).records() == b[i].records(),
    ensures
        log_of(a) == log_of(b),
    decreases a.len(),
{
    if a.len() > 0 {
        let fa = a.drop_last();
        let fb = b.drop_last();
        assert forall|i: int| 0 <= i < fa.len() implies (#[trigger] fa[i]).records()
            == fb[i].records() by {
            assert(fa[i] == a[i]);
            assert(fb[i] == b[i]);
        }
        lemma_log_same_records(fa, fb);
        assert(a[a.len() - 1].records() == b[a.len() - 1].records());
    }
}

/// The log of the first segments, then the records of the next one, is the
/// log of one segment more.
pub proof fn lemma_log_take(segments: Seq<SegmentView>, n: int)
    requires
        0 <= n < segments.len(),
    ensures
        log_of(segments.take(n + 1)) == log_of(segments.take(n)) + segments[n].records(),
{
    assert(segments.take(n + 1).drop_last() =~= segments.take(n));
    assert(segments.take(n + 1).last() == segments[n]);
}

} // verus!
