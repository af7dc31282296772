//! What a scan of the log for messages that are only on disk does, and when it is over.
use vstd::prelude::*;

use crate::engine::disk_log;
use crate::engine::disk_log::SegmentRead;
use crate::engine::model;
use crate::engine::model::{EngineView, ScanView, NUM_SHARDS};
use crate::engine::single_queue::HOT_DELAY_HORIZON_SEC;
use crate::engine::wal::RecordView;

verus! {

/// The message is in memory or known to be acknowledged.
pub open spec fn is_kept_or_acked(e: EngineView, queue: Seq<char>, id: u128) -> bool {
    e.shard(queue).messages.contains_key(id) || e.shard(queue).acked.contains(id)
}

/// Memory holds as many messages as the engine was opened for.
pub open spec fn memory_is_full(e: EngineView) -> bool {
    e.total_in_ram >= e.options.max_hot_messages_in_ram
}

/// There is no room for the record at `k` when its turn comes.
#[verifier::opaque]
spec fn stops_at(e: EngineView, records: Seq<RecordView>, now: u64, k: int) -> bool {
    e.page_records(records.take(k), now).stops_before(records[k], now)
}

proof fn lemma_stops_at(e: EngineView, records: Seq<RecordView>, now: u64, k: int)
    requires
        0 <= k < records.len() - 1,
    ensures
        stops_at(e, records, now, k) == stops_at(e, records.drop_last(), now, k),
{
    reveal(stops_at);
    assert(records.drop_last().take(k) =~= records.take(k));
}

/// The records are taken one by one up to the first for which there is no room.
proof fn lemma_page_count_stops(e: EngineView, records: Seq<RecordView>, now: u64)
    ensures
        ({
            let n = e.page_count(records, now);
            &&& n <= records.len()
            &&& forall|k: int| 0 <= k < n ==> !#[trigger] stops_at(e, records, now, k)
            &&& n < records.len() ==> stops_at(e, records, now, n as int)
        }),
    decreases records.len(),
{
    if records.len() > 0 {
        let head = records.drop_last();
        let m = head.len() as int;
        lemma_page_count_stops(e, head, now);
        let n = e.page_count(records, now);
        let h = e.page_count(head, now);
        assert(stops_at(e, records, now, m) == e.page_records(head, now).stops_before(
            records.last(),
            now,
        )) by {
            reveal(stops_at);
            assert(records.take(m) =~= head);
        }
        if h < m {
            lemma_stops_at(e, records, now, h as int);
        }
        assert forall|k: int| 0 <= k < n implies !#[trigger] stops_at(e, records, now, k) by {
            if k < m {
                lemma_stops_at(e, records, now, k);
                assert(!stops_at(e, head, now, k));
            }
        }
    }
}

proof fn lemma_page_record_keeps(e: EngineView, record: RecordView, now: u64, queue: Seq<char>, id: u128)
    requires
        e.shards.len() == NUM_SHARDS,
        is_kept_or_acked(e, queue, id),
    ensures
        is_kept_or_acked(e.page_record(record, now), queue, id),
        e.page_record(record, now).shards.len() == NUM_SHARDS,
{
    model::lemma_shard_of_bound(queue);
    model::lemma_shard_of_bound(model::queue_of(record));
}

/// The records that were taken: every pushed message among them that is due within the horizon
/// is in memory or acknowledged.
proof fn lemma_passed_are_kept(e: EngineView, records: Seq<RecordView>, now: u64, n: nat, k: int)
    requires
        e.shards.len() == NUM_SHARDS,
        0 < n <= records.len(),
        k < n,
        forall|i: int| 0 <= i < n ==> !#[trigger] stops_at(e, records, now, i),
    ensures
        e.page_records(records.take(n as int), now).shards.len() == NUM_SHARDS,
        0 <= k && records[k] is Push && records[k]->visible_at <= now + HOT_DELAY_HORIZON_SEC
            ==> is_kept_or_acked(
            e.page_records(records.take(n as int), now),
            records[k]->Push_queue_name,
            records[k]->Push_msg_id,
        ),
    decreases n,
{
    let m = (n - 1) as nat;
    let t = records.take(n as int);
    assert(t.drop_last() =~= records.take(m as int));
    assert(t.last() == records[m as int]);
    let p = e.page_records(records.take(m as int), now);
    if m > 0 {
        lemma_passed_are_kept(
            e,
            records,
            now,
            m,
            if k < m {
                k
            } else {
                -1
            },
        );
    } else {
        assert(records.take(0).len() == 0);
    }
    model::lemma_shard_of_bound(model::queue_of(records[m as int]));
    if 0 <= k && records[k] is Push {
        if k < m {
            if is_kept_or_acked(p, records[k]->Push_queue_name, records[k]->Push_msg_id) {
                lemma_page_record_keeps(
                    p,
                    records[m as int],
                    now,
                    records[k]->Push_queue_name,
                    records[k]->Push_msg_id,
                );
            }
        } else {
            assert(!p.stops_before(records[m as int], now)) by {
                assert(!stops_at(e, records, now, m as int));
                reveal(stops_at);
            }
            model::lemma_shard_of_bound(records[k]->Push_queue_name);
        }
    }
}

/// After a step of a scan, every pushed message among the records that were read, if it is due
/// within the horizon, is in memory or known to be acknowledged, unless memory is full.
pub proof fn law_scan_brings_in_what_it_passes(
    e: EngineView,
    scan: ScanView,
    read: SegmentRead,
    k: int,
)
    requires
        e.inv(),
    ensures
        ({
            let post = e.page_step(scan, read).0;
            disk_log::entries_from(
                e.disk.registry,
                e.spill_offset,
                scan.fetch_limit,
                read,
            ) matches Some((records, _)) ==> (0 <= k < records.len() && records[k] is Push
                && records[k]->visible_at <= scan.now + HOT_DELAY_HORIZON_SEC ==> memory_is_full(
                post,
            ) || is_kept_or_acked(
                post,
                records[k]->Push_queue_name,
                records[k]->Push_msg_id,
            ))
        }),
{
    if let Some((records, next)) = disk_log::entries_from(
        e.disk.registry,
        e.spill_offset,
        scan.fetch_limit,
        read,
    ) {
        lemma_page_count_stops(e, records, scan.now);
        let n = e.page_count(records, scan.now);
        if 0 <= k < records.len() && records[k] is Push {
            assert(model::has_push(records));
            if k < n {
                lemma_passed_are_kept(e, records, scan.now, n, k);
            } else {
                reveal(stops_at);
            }
        }
    }
}

/// One of the records is a push to the queue of a message that was neither in memory nor known to
/// be acknowledged before, and is one or the other now.
pub open spec fn brings_message(
    e: EngineView,
    records: Seq<RecordView>,
    queue: Seq<char>,
    post: EngineView,
) -> bool {
    exists|k: int|
        0 <= k < records.len() && (#[trigger] records[k]) is Push && records[k]->Push_queue_name
            == queue && is_kept_or_acked(post, queue, records[k]->Push_msg_id)
            && !is_kept_or_acked(e, queue, records[k]->Push_msg_id)
}

proof fn lemma_pages_in_for_some(
    e: EngineView,
    records: Seq<RecordView>,
    target: Seq<char>,
    now: u64,
)
    requires
        e.shards.len() == NUM_SHARDS,
        e.pages_in_for(records, target, now),
    ensures
        e.page_records(records, now).shards.len() == NUM_SHARDS,
        brings_message(e, records, target, e.page_records(records, now)),
    decreases records.len(),
{
    let head = records.drop_last();
    let last = records[records.len() - 1];
    let p = e.page_records(head, now);
    lemma_page_records_len(e, head, now);
    model::lemma_shard_of_bound(target);
    model::lemma_shard_of_bound(model::queue_of(last));
    if e.pages_in_for(head, target, now) {
        lemma_pages_in_for_some(e, head, target, now);
        let k = choose|k: int|
            0 <= k < head.len() && (#[trigger] head[k]) is Push && head[k]->Push_queue_name
                == target && is_kept_or_acked(p, target, head[k]->Push_msg_id)
                && !is_kept_or_acked(e, target, head[k]->Push_msg_id);
        assert(records[k] == head[k]);
        lemma_page_record_keeps(p, last, now, target, records[k]->Push_msg_id);
    } else {
        assert(p.pages_in(last, now));
        if is_kept_or_acked(e, target, last->Push_msg_id) {
            lemma_page_records_keep(e, head, now, target, last->Push_msg_id);
        }
        assert(records[records.len() - 1] is Push);
    }
}

proof fn lemma_page_records_keep(
    e: EngineView,
    records: Seq<RecordView>,
    now: u64,
    queue: Seq<char>,
    id: u128,
)
    requires
        e.shards.len() == NUM_SHARDS,
        is_kept_or_acked(e, queue, id),
    ensures
        e.page_records(records, now).shards.len() == NUM_SHARDS,
        is_kept_or_acked(e.page_records(records, now), queue, id),
    decreases records.len(),
{
    if records.len() > 0 {
        let head = records.drop_last();
        lemma_page_records_keep(e, head, now, queue, id);
        lemma_page_record_keeps(e.page_records(head, now), records.last(), now, queue, id);
    }
}

proof fn lemma_page_records_len(e: EngineView, records: Seq<RecordView>, now: u64)
    requires
        e.shards.len() == NUM_SHARDS,
    ensures
        e.page_records(records, now).shards.len() == NUM_SHARDS,
    decreases records.len(),
{
    if records.len() > 0 {
        lemma_page_records_len(e, records.drop_last(), now);
    }
}

/// A scan goes on behind records of which none is for its queue, and is over when its queue got a
/// message, memory is full, or reading failed. At the end of the log it goes on once, after what
/// is still on its way to the log was flushed, and is over at the second time; the next scan then
/// starts at the beginning.
pub proof fn law_scan_ends_for_a_reason(e: EngineView, scan: ScanView, read: SegmentRead)
    requires
        e.inv(),
    ensures
        ({
            let (post, after, again) = e.page_step(scan, read);
            match disk_log::entries_from(
                e.disk.registry,
                e.spill_offset,
                scan.fetch_limit,
                read,
            ) {
                None => !again && post == e && after == scan,
                Some((records, next)) => {
                    &&& records.len() > 0 && !again ==> memory_is_full(post) || brings_message(
                        e,
                        records,
                        scan.target_queue,
                        post,
                    )
                    &&& records.len() > 0 && again ==> post.spill_offset == next && after == scan
                    &&& records.len() > 0 && !memory_is_full(post) ==> post.spill_offset == next
                    &&& records.len() > 0 && !again && post.spill_offset != next
                        ==> memory_is_full(post)
                    &&& records.len() > 0 && (forall|k: int|
                        0 <= k < records.len() ==> !((#[trigger] records[k]) is Push
                            && records[k]->Push_queue_name == scan.target_queue))
                        && !memory_is_full(post) ==> again
                    &&& records.len() == 0 ==> again == !scan.flushed
                    &&& records.len() == 0 ==> after == (ScanView { flushed: true, ..scan })
                    &&& records.len() == 0 ==> post.shards == e.shards
                    &&& records.len() == 0 && scan.flushed && next > 0 ==> post.spill_offset == 0
                    &&& records.len() == 0 && !scan.flushed ==> post.spill_offset
                        == e.spill_offset && post.disk == e.disk.flush()
                },
            }
        }),
{
    if let Some((records, next)) = disk_log::entries_from(
        e.disk.registry,
        e.spill_offset,
        scan.fetch_limit,
        read,
    ) {
        let n = e.page_count(records, scan.now);
        lemma_page_count_stops(e, records, scan.now);
        model::lemma_page_records_frame(e, records.take(n as int), scan.now);
        if n == records.len() {
            assert(records.take(n as int) =~= records);
        } else {
            reveal(stops_at);
            assert(e.page_records(records.take(n as int), scan.now).is_full());
        }
        if records.len() > 0 && model::has_push(records) && n == records.len() && e.pages_in_for(
            records,
            scan.target_queue,
            scan.now,
        ) {
            lemma_pages_in_for_some(e, records, scan.target_queue, scan.now);
            let post = e.page_step(scan, read).0;
            let k = choose|k: int|
                0 <= k < records.len() && (#[trigger] records[k]) is Push
                    && records[k]->Push_queue_name == scan.target_queue && is_kept_or_acked(
                    e.page_records(records, scan.now),
                    scan.target_queue,
                    records[k]->Push_msg_id,
                ) && !is_kept_or_acked(e, scan.target_queue, records[k]->Push_msg_id);
            assert(is_kept_or_acked(post, scan.target_queue, records[k]->Push_msg_id));
        }
    }
}

/// After memory was cleared, and after the log was compacted, the next scan starts at the
/// beginning of the log.
pub proof fn law_scan_starts_over(e: EngineView, records: Seq<RecordView>)
    ensures
        e.cleared().spill_offset == 0,
        e.cleared().disk == e.disk,
        e.compacted(records).spill_offset == 0,
        e.compacted(records).shards == e.shards,
{
}

}
