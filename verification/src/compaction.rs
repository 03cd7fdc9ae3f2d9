//! What compaction copies, and why the store holds afterwards what it held
//! before.
use crate::data::{encode_spec, EntryView};
use crate::index::{distinct_keys, has_key, lemma_key_has_slot, lemma_slot, map_of, slot_of};
use crate::replay::{
    lemma_log_member, lemma_log_pair, lemma_replay_concat, lemma_replay_member,
    lemma_replay_touched, lemma_replay_untouched, locations, log_of, replay, replay_onto, touches,
};
use crate::segment::{is_clean, lemma_records_sound, Location, Record, SegmentView};
use crate::store::{segment_ok, StoreState};
use vstd::prelude::*;

verus! {

/// Whether the first `n` slots were carried over: a slot whose record
/// stands in the active segment as it is, any other with its record copied
/// to the place that the new slot names; and nothing else was copied.
pub open spec fn carried_over(
    slots: Seq<(Seq<u8>, Location)>,
    fresh: Seq<(Seq<u8>, Location)>,
    live: Map<Seq<u8>, Record>,
    copies: Map<Seq<u8>, Record>,
    active_id: u64,
    n: int,
) -> bool {
    &&& forall|j: int|
        0 <= j < n ==> (#[trigger] fresh[j]).0 == slots[j].0 && if slots[j].1.segment_id
            == active_id {
            fresh[j].1 == slots[j].1
        } else {
            copies.contains_key(slots[j].0) && copies[slots[j].0].entry
                == live[slots[j].0].entry && copies[slots[j].0].loc == fresh[j].1
        }
    &&& forall|k: Seq<u8>| #[trigger]
        copies.contains_key(k) ==> exists|j: int|
            0 <= j < n && (#[trigger] slots[j]).0 == k && slots[j].1.segment_id != active_id
}

/// The store that compaction leaves: the merged segment, then the active one.
pub open spec fn compacted(s: StoreState, merged: SegmentView) -> StoreState {
    StoreState { segments: seq![merged, s.active()], ..s }
}

/// Compaction keeps what every key holds: where the latest records of the
/// sealed segments were copied to one segment that takes their place, the
/// store stays well formed, the new slots are its index, and its contents
/// are what they were.
pub proof fn lemma_compaction(
    s: StoreState,
    slots: Seq<(Seq<u8>, Location)>,
    fresh: Seq<(Seq<u8>, Location)>,
    merged: SegmentView,
)
    requires
        s.wf(),
        s.segments.len() >= 2,
        distinct_keys(slots),
        map_of(slots) == locations(s.live()),
        merged.id == s.segments[s.segments.len() - 2].id,
        merged.sealed,
        is_clean(merged.bytes),
        merged.bytes.len() <= usize::MAX,
        fresh.len() == slots.len(),
        carried_over(slots, fresh, s.live(), replay(merged.records()), s.active().id, slots.len() as int),
    ensures
        compacted(s, merged).wf(),
        distinct_keys(fresh),
        map_of(fresh) == locations(compacted(s, merged).live()),
        compacted(s, merged).contents() == s.contents(),
{
    let n = s.segments.len() as int;
    let t = compacted(s, merged);
    let active = s.active();
    let copies = replay(merged.records());
    let sealed_log = log_of(s.segments.drop_last());
    let tail = active.records();
    assert(segment_ok(s.segments[n - 1], true));
    assert(s.segments[n - 2].id < s.segments[n - 1].id);
    assert(t.wf());
    lemma_log_pair(merged, active);
    lemma_replay_concat(Map::empty(), merged.records(), tail);
    lemma_replay_concat(Map::empty(), sealed_log, tail);
    assert(t.live() == replay_onto(copies, tail));
    assert(s.live() == replay_onto(replay(sealed_log), tail));
    assert forall|a: int, b: int| 0 <= a < b < fresh.len() implies (#[trigger] fresh[a]).0 != (
    #[trigger] fresh[b]).0 by {
        assert(slots[a].0 != slots[b].0);
    }
    assert forall|k: Seq<u8>|
        t.live().contains_key(k) == s.live().contains_key(k) && (s.live().contains_key(k)
            ==> t.live()[k].entry == s.live()[k].entry && has_key(fresh, k) && fresh[slot_of(
            fresh,
            k,
        )].1 == t.live()[k].loc) by {
        lemma_compaction_key(s, slots, fresh, merged, k);
    }
    assert forall|k: Seq<u8>| has_key(fresh, k) implies s.live().contains_key(k) by {
        let j = slot_of(fresh, k);
        assert(fresh[j].0 == slots[j].0);
        lemma_slot(slots, j);
    }
    assert(map_of(fresh) =~= locations(t.live()));
    assert(t.contents() =~= s.contents());
}

/// What compaction does to one key.
proof fn lemma_compaction_key(
    s: StoreState,
    slots: Seq<(Seq<u8>, Location)>,
    fresh: Seq<(Seq<u8>, Location)>,
    merged: SegmentView,
    k: Seq<u8>,
)
    requires
        s.wf(),
        s.segments.len() >= 2,
        distinct_keys(slots),
        distinct_keys(fresh),
        map_of(slots) == locations(s.live()),
        fresh.len() == slots.len(),
        carried_over(slots, fresh, s.live(), replay(merged.records()), s.active().id, slots.len() as int),
        compacted(s, merged).live() == replay_onto(replay(merged.records()), s.active().records()),
        s.live() == replay_onto(replay(log_of(s.segments.drop_last())), s.active().records()),
    ensures
        compacted(s, merged).live().contains_key(k) == s.live().contains_key(k),
        s.live().contains_key(k) ==> compacted(s, merged).live()[k].entry == s.live()[k].entry
            && has_key(fresh, k) && fresh[slot_of(fresh, k)].1 == compacted(s, merged).live()[k].loc,
{
    let n = s.segments.len() as int;
    let t = compacted(s, merged);
    let active = s.active();
    let copies = replay(merged.records());
    let front = s.segments.drop_last();
    let sealed_log = log_of(front);
    let before = replay(sealed_log);
    let tail = active.records();
    assert(segment_ok(s.segments[n - 1], true));
    if s.live().contains_key(k) {
        assert(map_of(slots).contains_key(k));
        lemma_key_has_slot(slots, k);
        let j = slot_of(slots, k);
        lemma_slot(slots, j);
        assert(slots[j].1 == s.live()[k].loc);
        assert(fresh[j].0 == k);
        lemma_slot(fresh, j);
    }
    if touches(tail, k) {
        lemma_replay_touched(copies, before, tail, k);
        if s.live().contains_key(k) {
            let r = s.live()[k];
            lemma_records_sound(active.id, active.bytes, 0, r);
        }
    } else {
        lemma_replay_untouched(copies, tail, k);
        lemma_replay_untouched(before, tail, k);
        if before.contains_key(k) {
            let r = before[k];
            lemma_replay_member(Map::empty(), sealed_log, k);
            lemma_log_member(front, r);
            let i = choose|i: int|
                0 <= i < front.len() && (#[trigger] front[i]).records().contains(r);
            assert(front[i] == s.segments[i]);
            assert(segment_ok(s.segments[i], false));
            lemma_records_sound(front[i].id, front[i].bytes, 0, r);
            assert(s.segments[i].id < s.segments[n - 1].id);
        } else if copies.contains_key(k) {
            let j = choose|j: int|
                0 <= j < slots.len() && (#[trigger] slots[j]).0 == k && slots[j].1.segment_id
                    != active.id;
            lemma_slot(slots, j);
        }
    }
}

/// The size of the segment that compaction writes: the lengths of the
/// records that the slots name outside the active segment, added up.
pub open spec fn merged_len(slots: Seq<(Seq<u8>, Location)>, active_id: u64) -> nat
    decreases slots.len(),
{
    if slots.len() == 0 {
        0
    } else {
        merged_len(slots.drop_last(), active_id) + if slots.last().1.segment_id == active_id {
            0nat
        } else {
            slots.last().1.length as nat
        }
    }
}

/// The records that compaction copies, in the order of the slots: the
/// latest record of every key whose slot names a place outside the active
/// segment.
pub open spec fn carried_entries(
    slots: Seq<(Seq<u8>, Location)>,
    live: Map<Seq<u8>, Record>,
    active_id: u64,
) -> Seq<EntryView>
    decreases slots.len(),
{
    if slots.len() == 0 {
        Seq::empty()
    } else if slots.last().1.segment_id == active_id {
        carried_entries(slots.drop_last(), live, active_id)
    } else {
        carried_entries(slots.drop_last(), live, active_id).push(live[slots.last().0].entry)
    }
}

/// The bytes of the records, one after the other.
pub open spec fn encoded_run(entries: Seq<EntryView>) -> Seq<u8>
    decreases entries.len(),
{
    if entries.len() == 0 {
        Seq::empty()
    } else {
        encoded_run(entries.drop_last()) + encode_spec(entries.last())
    }
}

/// The first slots name no more bytes than all of them.
pub proof fn lemma_merged_len_prefix(slots: Seq<(Seq<u8>, Location)>, active_id: u64, n: int)
    requires
        0 <= n <= slots.len(),
    ensures
        merged_len(slots.take(n), active_id) <= merged_len(slots, active_id),
    decreases slots.len() - n,
{
    if n == slots.len() {
        assert(slots.take(n) =~= slots);
    } else {
        lemma_merged_len_prefix(slots, active_id, n + 1);
        assert(slots.take(n + 1).drop_last() =~= slots.take(n));
    }
}

/// Whether every record of `records` is the latest record of a live key
/// that stood outside the active segment, and no key comes twice.
pub open spec fn is_merge_of(records: Seq<Record>, live: Map<Seq<u8>, Record>, active_id: u64) -> bool {
    &&& forall|x: int|
        0 <= x < records.len() ==> live.contains_key((#[trigger] records[x]).entry.key)
            && live[records[x].entry.key].entry == records[x].entry
            && live[records[x].entry.key].loc.segment_id != active_id
    &&& forall|x: int, y: int|
        0 <= x < y < records.len() ==> (#[trigger] records[x]).entry.key != (
        #[trigger] records[y]).entry.key
}

/// Whether every record of `records` carries the key of one of the first
/// `n` slots.
pub open spec fn keys_within(records: Seq<Record>, slots: Seq<(Seq<u8>, Location)>, n: int) -> bool {
    forall|x: int|
        0 <= x < records.len() ==> exists|j: int|
            0 <= j < n && (#[trigger] slots[j]).0 == (#[trigger] records[x]).entry.key
}

/// Carrying over a slot whose record stands in the active segment.
pub proof fn lemma_carry_kept(
    slots: Seq<(Seq<u8>, Location)>,
    fresh: Seq<(Seq<u8>, Location)>,
    live: Map<Seq<u8>, Record>,
    copies: Map<Seq<u8>, Record>,
    active_id: u64,
    n: int,
)
    requires
        0 <= n < slots.len(),
        fresh.len() == n,
        carried_over(slots, fresh, live, copies, active_id, n),
        slots[n].1.segment_id == active_id,
    ensures
        carried_over(slots, fresh.push(slots[n]), live, copies, active_id, n + 1),
{
    let next = fresh.push(slots[n]);
    assert forall|j: int| 0 <= j < n + 1 implies (#[trigger] next[j]).0 == slots[j].0
        && if slots[j].1.segment_id == active_id {
        next[j].1 == slots[j].1
    } else {
        copies.contains_key(slots[j].0) && copies[slots[j].0].entry == live[slots[j].0].entry
            && copies[slots[j].0].loc == next[j].1
    } by {
        if j < n {
            assert(next[j] == fresh[j]);
        }
    }
    assert forall|k: Seq<u8>| #[trigger] copies.contains_key(k) implies exists|j: int|
        0 <= j < n + 1 && (#[trigger] slots[j]).0 == k && slots[j].1.segment_id != active_id by {
        let j = choose|j: int|
            0 <= j < n && (#[trigger] slots[j]).0 == k && slots[j].1.segment_id != active_id;
        assert(0 <= j < n + 1 && slots[j].0 == k);
    }
}

/// Carrying over a slot whose record was copied to the place `rec.loc`.
pub proof fn lemma_carry_copied(
    slots: Seq<(Seq<u8>, Location)>,
    fresh: Seq<(Seq<u8>, Location)>,
    live: Map<Seq<u8>, Record>,
    copies: Map<Seq<u8>, Record>,
    active_id: u64,
    n: int,
    rec: Record,
)
    requires
        0 <= n < slots.len(),
        fresh.len() == n,
        distinct_keys(slots),
        carried_over(slots, fresh, live, copies, active_id, n),
        slots[n].1.segment_id != active_id,
        rec.entry.key == slots[n].0,
        rec.entry == live[slots[n].0].entry,
    ensures
        carried_over(
            slots,
            fresh.push((slots[n].0, rec.loc)),
            live,
            copies.insert(slots[n].0, rec),
            active_id,
            n + 1,
        ),
{
    let k = slots[n].0;
    let next = fresh.push((k, rec.loc));
    let more = copies.insert(k, rec);
    assert forall|j: int| 0 <= j < n + 1 implies (#[trigger] next[j]).0 == slots[j].0
        && if slots[j].1.segment_id == active_id {
        next[j].1 == slots[j].1
    } else {
        more.contains_key(slots[j].0) && more[slots[j].0].entry == live[slots[j].0].entry
            && more[slots[j].0].loc == next[j].1
    } by {
        if j < n {
            assert(next[j] == fresh[j]);
            assert(slots[j].0 != slots[n].0);
        }
    }
    assert forall|q: Seq<u8>| #[trigger] more.contains_key(q) implies exists|j: int|
        0 <= j < n + 1 && (#[trigger] slots[j]).0 == q && slots[j].1.segment_id != active_id by {
        if q == k {
            assert(slots[n].0 == q);
        } else {
            assert(copies.contains_key(q));
            let j = choose|j: int|
                0 <= j < n && (#[trigger] slots[j]).0 == q && slots[j].1.segment_id != active_id;
            assert(0 <= j < n + 1 && slots[j].0 == q);
        }
    }
}

/// A copied record joins the records of the merged segment.
pub proof fn lemma_merge_push(
    records: Seq<Record>,
    slots: Seq<(Seq<u8>, Location)>,
    live: Map<Seq<u8>, Record>,
    active_id: u64,
    n: int,
    rec: Record,
)
    requires
        0 <= n < slots.len(),
        distinct_keys(slots),
        is_merge_of(records, live, active_id),
        keys_within(records, slots, n),
        rec.entry.key == slots[n].0,
        live.contains_key(slots[n].0),
        rec.entry == live[slots[n].0].entry,
        live[slots[n].0].loc.segment_id != active_id,
    ensures
        is_merge_of(records.push(rec), live, active_id),
        keys_within(records.push(rec), slots, n + 1),
{
    let next = records.push(rec);
    assert forall|x: int| 0 <= x < next.len() implies exists|j: int|
        0 <= j < n + 1 && (#[trigger] slots[j]).0 == (#[trigger] next[x]).entry.key by {
        if x < records.len() {
            assert(next[x] == records[x]);
            let j = choose|j: int| 0 <= j < n && (#[trigger] slots[j]).0 == records[x].entry.key;
            assert(0 <= j < n + 1 && slots[j].0 == next[x].entry.key);
        } else {
            assert(slots[n].0 == next[x].entry.key);
        }
    }
    assert forall|x: int, y: int| 0 <= x < y < next.len() implies (#[trigger] next[x]).entry.key
        != (#[trigger] next[y]).entry.key by {
        assert(next[x] == records[x]);
        if y < records.len() {
            assert(next[y] == records[y]);
        } else {
            let j = choose|j: int| 0 <= j < n && (#[trigger] slots[j]).0 == records[x].entry.key;
            assert(slots[j].0 != slots[n].0);
        }
    }
    assert forall|x: int| 0 <= x < next.len() implies live.contains_key(
        (#[trigger] next[x]).entry.key,
    ) && live[next[x].entry.key].entry == next[x].entry && live[next[x].entry.key].loc.segment_id
        != active_id by {
        if x < records.len() {
            assert(next[x] == records[x]);
        }
    }
}

/// The keys carried over so far do not hold the key of the next slot.
pub proof fn lemma_next_key_is_new(
    slots: Seq<(Seq<u8>, Location)>,
    fresh: Seq<(Seq<u8>, Location)>,
    live: Map<Seq<u8>, Record>,
    copies: Map<Seq<u8>, Record>,
    active_id: u64,
    n: int,
)
    requires
        0 <= n < slots.len(),
        fresh.len() == n,
        distinct_keys(slots),
        carried_over(slots, fresh, live, copies, active_id, n),
    ensures
        !has_key(fresh, slots[n].0),
{
    if has_key(fresh, slots[n].0) {
        let j = slot_of(fresh, slots[n].0);
        assert(fresh[j].0 == slots[j].0);
        assert(slots[j].0 != slots[n].0);
    }
}

} // verus!
