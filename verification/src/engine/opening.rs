//! What an engine has in memory when it was opened.
use vstd::prelude::*;

use crate::engine::compaction;
use crate::engine::disk_log::DiskView;
use crate::engine::model;
use crate::engine::model::EngineView;
use crate::engine::queue;
use crate::engine::queue::QueueOptions;
use crate::engine::recovery;
use crate::engine::redelivery;
use crate::engine::registry::RegistryView;
use crate::engine::shard::MsgView;
use crate::engine::single_queue::HOT_DELAY_HORIZON_SEC;
use crate::engine::wal;
use crate::engine::wal::RecordView;

verus! {

/// What the two segments hold, under the names of the manifest, the first before the second.
pub open spec fn records_on_disk(
    manifest: Seq<u8>,
    wal_a: Seq<u8>,
    wal_b: Seq<u8>,
) -> Seq<RecordView> {
    let names = RegistryView::empty().load(manifest);
    wal::records_in(wal_a, names) + wal::records_in(wal_b, names)
}

/// An engine that was opened has the options that it was opened with, and keeps to its limit of
/// deliveries. A message whose first push on disk is not followed by its acknowledgement, and
/// which is due within the horizon, is in memory as it was pushed, if there is room for all
/// pushes on disk. A message that was pushed and then acknowledged is not in memory.
pub proof fn law_opened_engine_has_open_messages(
    manifest: Seq<u8>,
    wal_a: Seq<u8>,
    wal_b: Seq<u8>,
    opts: QueueOptions,
    base_epoch_sec: u64,
    engine: EngineView,
    k: int,
    j: int,
)
    requires
        queue::opened(manifest, wal_a, wal_b, opts, base_epoch_sec, engine),
    ensures
        engine.options == opts,
        redelivery::limits_hold(engine),
        ({
            let records = records_on_disk(manifest, wal_a, wal_b);
            let record = records[k];
            let at = model::shard_of(record->Push_queue_name);
            let id = record->Push_msg_id;
            let s = engine.shards[at];
            &&& 0 <= k < records.len() && record is Push && recovery::push_count(records)
                <= opts.max_hot_messages_in_ram && record->visible_at <= base_epoch_sec
                + HOT_DELAY_HORIZON_SEC && (forall|i: int|
                0 <= i < k ==> !recovery::pushes_id(#[trigger] records[i], at, id)) && (forall|
                i: int,
            |
                k < i < records.len() ==> !compaction::acks_id(#[trigger] records[i], at, id))
                ==> s.messages.contains_key(id) && s.messages[id] == (MsgView {
                id,
                queue: record->Push_queue_name,
                payload: record->payload,
                visible_at: record->visible_at,
                delivery_count: 0,
                max_delivery: opts.max_delivery_count,
            })
            &&& 0 <= k < j < records.len() && record is Push && compaction::acks_id(
                records[j],
                at,
                id,
            ) ==> !s.messages.contains_key(id) && s.acked.contains(id)
        }),
{
    let disk = DiskView::open(manifest, wal_a, wal_b, opts.max_wal_segment_size);
    let blank = EngineView::blank(disk, opts, base_epoch_sec);
    let records = wal::records_in(wal_a, disk.registry) + wal::records_in(wal_b, disk.registry);
    assert(records == records_on_disk(manifest, wal_a, wal_b));
    redelivery::law_blank_engine_keeps_limits(disk, opts, base_epoch_sec);
    redelivery::law_recovery_keeps_limits(blank, records);
    let record = records[k];
    let at = model::shard_of(record->Push_queue_name);
    let id = record->Push_msg_id;
    model::lemma_shard_of_bound(record->Push_queue_name);
    if 0 <= k < records.len() && record is Push {
        assert(recovery::pushes_id(record, at, id));
        if recovery::push_count(records) <= opts.max_hot_messages_in_ram && record->visible_at
            <= base_epoch_sec + HOT_DELAY_HORIZON_SEC && (forall|i: int|
            0 <= i < k ==> !recovery::pushes_id(#[trigger] records[i], at, id)) && (forall|i: int|
            k < i < records.len() ==> !compaction::acks_id(#[trigger] records[i], at, id)) {
            recovery::law_unacked_message_is_recovered(blank, records, at, id, k);
        }
        if k < j < records.len() && compaction::acks_id(records[j], at, id) {
            recovery::law_acked_message_is_not_recovered(blank, records, at, id, k, j);
        }
    }
}

proof fn lemma_replay_keeps_disk(e: EngineView, records: Seq<RecordView>)
    ensures
        e.replay(records).disk == e.disk,
    decreases records.len(),
{
    if records.len() > 0 {
        lemma_replay_keeps_disk(e, records.drop_last());
    }
}

/// An engine that was opened goes on in the segment that has something, the first if both have,
/// and knows how large it is. Nothing is written by opening.
pub proof fn law_opened_engine_goes_on_where_it_was(
    manifest: Seq<u8>,
    wal_a: Seq<u8>,
    wal_b: Seq<u8>,
    opts: QueueOptions,
    base_epoch_sec: u64,
    engine: EngineView,
)
    requires
        queue::opened(manifest, wal_a, wal_b, opts, base_epoch_sec, engine),
        wal_a.len() <= u64::MAX,
        wal_b.len() <= u64::MAX,
    ensures
        wal_a.len() > 0 ==> !engine.disk.active_is_b && engine.disk.active_bytes == wal_a.len(),
        wal_a.len() == 0 && wal_b.len() > 0 ==> engine.disk.active_is_b
            && engine.disk.active_bytes == wal_b.len(),
        wal_a.len() == 0 && wal_b.len() == 0 ==> !engine.disk.active_is_b
            && engine.disk.active_bytes == 0,
        engine.disk.max_segment_size == opts.max_wal_segment_size,
        engine.disk.actions.len() == 0,
{
    let disk = DiskView::open(manifest, wal_a, wal_b, opts.max_wal_segment_size);
    let blank = EngineView::blank(disk, opts, base_epoch_sec);
    let records = wal::records_in(wal_a, disk.registry) + wal::records_in(wal_b, disk.registry);
    lemma_replay_keeps_disk(blank, records);
}

}
