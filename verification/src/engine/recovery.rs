//! What a restart brings back: every message that the log holds and that was not
//! acknowledged, and no other.
use vstd::prelude::*;

use crate::engine::compaction;
use crate::engine::disk_log::{DiskView, SurvivorView};
use crate::engine::durability;
use crate::engine::durability::FilesView;
use crate::engine::laws;
use crate::engine::model;
use crate::engine::model::{EngineView, PushView, NUM_SHARDS};
use crate::engine::queue::QueueOptions;
use crate::engine::shard;
use crate::engine::shard::{MsgView, ShardView};
use crate::engine::single_queue::HOT_DELAY_HORIZON_SEC;
use crate::engine::wal;
use crate::engine::wal::RecordView;

verus! {

/// How many pushes the records hold.
pub open spec fn push_count(records: Seq<RecordView>) -> nat
    decreases records.len(),
{
    if records.len() == 0 {
        0
    } else {
        push_count(records.drop_last()) + if records.last() is Push {
            1nat
        } else {
            0
        }
    }
}

/// The record is a push of this id to a queue of the shard.
pub open spec fn pushes_id(record: RecordView, at: int, id: u128) -> bool {
    record matches RecordView::Push { msg_id, queue_name, .. } && msg_id == id && model::shard_of(
        queue_name,
    ) == at
}

proof fn lemma_replay_frame(e: EngineView, records: Seq<RecordView>)
    requires
        e.shards.len() == NUM_SHARDS,
        e.total_in_ram + push_count(records) <= e.options.max_hot_messages_in_ram,
    ensures
        e.replay(records).shards.len() == NUM_SHARDS,
        e.replay(records).options == e.options,
        e.replay(records).base_epoch_sec == e.base_epoch_sec,
        e.replay(records).total_in_ram <= e.total_in_ram + push_count(records),
    decreases records.len(),
{
    if records.len() > 0 {
        lemma_replay_frame(e, records.drop_last());
        let p = e.replay(records.drop_last());
        model::lemma_wrap(p.total_in_ram + 1);
        model::lemma_wrap(p.total_in_ram - 1);
    }
}

/// Recovery brings back a message that was pushed, not acknowledged and is due within the
/// horizon, as it was first pushed: as long as memory has room for what the log holds, it is
/// there with its queue, payload and time.
pub proof fn law_unacked_message_is_recovered(
    e: EngineView,
    records: Seq<RecordView>,
    at: int,
    id: u128,
    k: int,
)
    requires
        e.shards.len() == NUM_SHARDS,
        !e.shards[at].seen.contains(id),
        e.total_in_ram + push_count(records) <= e.options.max_hot_messages_in_ram,
        0 <= k < records.len(),
        pushes_id(records[k], at, id),
        records[k]->visible_at <= e.base_epoch_sec + HOT_DELAY_HORIZON_SEC,
        forall|j: int| 0 <= j < k ==> !pushes_id(#[trigger] records[j], at, id),
        forall|j: int| k < j < records.len() ==> !compaction::acks_id(#[trigger] records[j], at, id),
    ensures
        ({
            let s = e.replay(records).shards[at];
            &&& s.seen.contains(id)
            &&& s.messages.contains_key(id)
            &&& records[k] matches RecordView::Push { msg_id, queue_name, visible_at, payload }
                && s.messages[id] == e.fresh_msg(id, queue_name, payload, visible_at)
        }),
    decreases records.len(),
{
    let head = records.drop_last();
    let last = records.last();
    assert(records[records.len() - 1] == last);
    lemma_replay_frame(e, head);
    let p = e.replay(head);
    model::lemma_shard_of_bound(model::queue_of(records[k]));
    model::lemma_shard_of_bound(model::queue_of(last));
    if k == records.len() - 1 {
        assert forall|j: int| 0 <= j < head.len() implies !pushes_id(#[trigger] head[j], at, id) by {
            assert(head[j] == records[j]);
        }
        lemma_never_pushed(e, head, at, id);
        assert(p.total_in_ram < p.options.max_hot_messages_in_ram);
    } else {
        assert(head[k] == records[k]);
        assert forall|j: int| 0 <= j < k implies !pushes_id(#[trigger] head[j], at, id) by {
            assert(head[j] == records[j]);
        }
        assert forall|j: int| k < j < head.len() implies !compaction::acks_id(
            #[trigger] head[j],
            at,
            id,
        ) by {
            assert(head[j] == records[j]);
        }
        law_unacked_message_is_recovered(e, head, at, id, k);
        assert(!compaction::acks_id(last, at, id));
    }
}

pub proof fn lemma_pushed_is_seen(e: EngineView, records: Seq<RecordView>, at: int, id: u128, k: int)
    requires
        e.shards.len() == NUM_SHARDS,
        0 <= k < records.len(),
        pushes_id(records[k], at, id),
    ensures
        e.replay(records).shards.len() == NUM_SHARDS,
        e.replay(records).shards[at].seen.contains(id),
    decreases records.len(),
{
    let head = records.drop_last();
    let last = records.last();
    assert(records[records.len() - 1] == last);
    lemma_replay_len(e, head);
    model::lemma_shard_of_bound(model::queue_of(records[k]));
    model::lemma_shard_of_bound(model::queue_of(last));
    if k < records.len() - 1 {
        assert(head[k] == records[k]);
        lemma_pushed_is_seen(e, head, at, id, k);
    }
}

/// Recovery does not bring back a message that was acknowledged after it was pushed,
/// whatever the log holds behind that.
pub proof fn law_acked_message_is_not_recovered(
    e: EngineView,
    records: Seq<RecordView>,
    at: int,
    id: u128,
    j: int,
    k: int,
)
    requires
        e.shards.len() == NUM_SHARDS,
        0 <= j < k < records.len(),
        pushes_id(records[j], at, id),
        compaction::acks_id(records[k], at, id),
    ensures
        !e.replay(records).shards[at].messages.contains_key(id),
        e.replay(records).shards[at].acked.contains(id),
    decreases records.len(),
{
    let head = records.drop_last();
    let last = records.last();
    assert(records[records.len() - 1] == last);
    assert(head[j] == records[j]);
    lemma_pushed_is_seen(e, head, at, id, j);
    model::lemma_shard_of_bound(model::queue_of(records[k]));
    model::lemma_shard_of_bound(model::queue_of(last));
    if k < records.len() - 1 {
        assert(head[k] == records[k]);
        law_acked_message_is_not_recovered(e, head, at, id, j, k);
    }
}

proof fn lemma_replay_len(e: EngineView, records: Seq<RecordView>)
    requires
        e.shards.len() == NUM_SHARDS,
    ensures
        e.replay(records).shards.len() == NUM_SHARDS,
    decreases records.len(),
{
    if records.len() > 0 {
        lemma_replay_len(e, records.drop_last());
    }
}

/// The list is of these shards' messages: every message of the shards is on it, and what is
/// on it is a message of the shards.
pub proof fn law_snapshot_lists_every_message(
    shards: Seq<ShardView>,
    n: nat,
    list: Seq<SurvivorView>,
)
    requires
        n <= shards.len(),
        model::lists_shards(shards, n, list),
    ensures
        forall|at: int, id: u128|
            0 <= at < n && (#[trigger] shards[at]).messages.contains_key(id)
                ==> #[trigger] list.contains(shard::survivor_of(shards[at].messages[id])),
        forall|i: int|
            0 <= i < list.len() ==> exists|at: int|
                0 <= at < n && (#[trigger] shards[at]).messages.contains_key(
                    (#[trigger] list[i]).id,
                ) && list[i] == shard::survivor_of(shards[at].messages[list[i].id]),
    decreases n,
{
    if n > 0 {
        let (head, part) = choose|head: Seq<SurvivorView>, part: Seq<SurvivorView>|
            list == #[trigger] (head + part) && model::lists_shards(shards, (n - 1) as nat, head)
                && shard::lists_messages(shards[n - 1].messages, part);
        law_snapshot_lists_every_message(shards, (n - 1) as nat, head);
        assert forall|at: int, id: u128|
            0 <= at < n && (#[trigger] shards[at]).messages.contains_key(
                id,
            ) implies #[trigger] list.contains(shard::survivor_of(shards[at].messages[id])) by {
            let m = shard::survivor_of(shards[at].messages[id]);
            if at < n - 1 {
                assert(head.contains(m));
                let k = choose|k: int| 0 <= k < head.len() && head[k] == m;
                assert(list[k] == m);
            } else {
                let k = choose|k: int| 0 <= k < part.len() && part[k].id == id;
                assert(part[k] == m);
                assert(list[head.len() + k] == m);
            }
        }
        assert forall|i: int| 0 <= i < list.len() implies exists|at: int|
            0 <= at < n && (#[trigger] shards[at]).messages.contains_key((#[trigger] list[i]).id)
                && list[i] == shard::survivor_of(shards[at].messages[list[i].id]) by {
            if i < head.len() {
                assert(list[i] == head[i]);
                let at = choose|at: int|
                    0 <= at < n - 1 && (#[trigger] shards[at]).messages.contains_key(head[i].id)
                        && head[i] == shard::survivor_of(shards[at].messages[head[i].id]);
                assert(shards[at].messages.contains_key(list[i].id));
            } else {
                let k = i - head.len();
                assert(list[i] == part[k]);
                assert(shards[n - 1].messages.contains_key(list[i].id));
            }
        }
    }
}

/// The first push of this message in the shard that the records hold has this content, and
/// no acknowledgement follows it.
pub open spec fn holds_push(
    records: Seq<RecordView>,
    at: int,
    id: u128,
    queue: Seq<char>,
    visible_at: u64,
    payload: Seq<u8>,
) -> bool {
    exists|k: int|
        first_push_at(records, at, id, k) && #[trigger] records[k] == (RecordView::Push {
            msg_id: id,
            queue_name: queue,
            visible_at,
            payload,
        })
}

/// The record at `k` is the first push of this message in the shard, and no acknowledgement
/// of it follows.
pub open spec fn first_push_at(records: Seq<RecordView>, at: int, id: u128, k: int) -> bool {
    &&& 0 <= k < records.len()
    &&& pushes_id(records[k], at, id)
    &&& forall|j: int| 0 <= j < k ==> !pushes_id(#[trigger] records[j], at, id)
    &&& forall|j: int| k < j < records.len() ==> !compaction::acks_id(#[trigger] records[j], at, id)
}

/// Whatever push of this message in the shard the records hold, an acknowledgement follows.
pub open spec fn holds_no_push(records: Seq<RecordView>, at: int, id: u128) -> bool {
    forall|k: int|
        0 <= k < records.len() && pushes_id(#[trigger] records[k], at, id) ==> exists|j: int|
            k < j < records.len() && compaction::acks_id(#[trigger] records[j], at, id)
}

/// The files hold what the log says, and only the active segment holds anything.
pub open spec fn settled(disk: DiskView, files: FilesView) -> bool {
    durability::in_step(disk, files) && durability::frozen_segment(disk, files) == Seq::<
        u8,
    >::empty()
}

/// The message can be had back from the files.
pub open spec fn logged(
    disk: DiskView,
    files: FilesView,
    id: u128,
    queue: Seq<char>,
    visible_at: u64,
    payload: Seq<u8>,
) -> bool {
    settled(disk, files) && holds_push(
        durability::active_records(disk, files),
        model::shard_of(queue),
        id,
        queue,
        visible_at,
        payload,
    )
}

/// The message cannot be had back from the files.
pub open spec fn erased(disk: DiskView, files: FilesView, queue: Seq<char>, id: u128) -> bool {
    settled(disk, files) && holds_no_push(
        durability::active_records(disk, files),
        model::shard_of(queue),
        id,
    )
}

proof fn lemma_later_record(
    records: Seq<RecordView>,
    record: RecordView,
    at: int,
    id: u128,
    queue: Seq<char>,
    visible_at: u64,
    payload: Seq<u8>,
)
    requires
        holds_push(records, at, id, queue, visible_at, payload),
        !compaction::acks_id(record, at, id),
    ensures
        holds_push(records.push(record), at, id, queue, visible_at, payload),
{
    let push = RecordView::Push { msg_id: id, queue_name: queue, visible_at, payload };
    let k = choose|k: int| first_push_at(records, at, id, k) && #[trigger] records[k] == push;
    let more = records.push(record);
    assert(more[k] == push);
    assert forall|j: int| 0 <= j < k implies !pushes_id(#[trigger] more[j], at, id) by {
        assert(more[j] == records[j]);
    }
    assert forall|j: int| k < j < more.len() implies !compaction::acks_id(
        #[trigger] more[j],
        at,
        id,
    ) by {
        if j < records.len() {
            assert(more[j] == records[j]);
        }
    }
    assert(first_push_at(more, at, id, k));
}

proof fn lemma_first_record(
    records: Seq<RecordView>,
    id: u128,
    queue: Seq<char>,
    visible_at: u64,
    payload: Seq<u8>,
)
    requires
        forall|j: int|
            0 <= j < records.len() ==> !pushes_id(
                #[trigger] records[j],
                model::shard_of(queue),
                id,
            ),
    ensures
        holds_push(
            records.push(RecordView::Push { msg_id: id, queue_name: queue, visible_at, payload }),
            model::shard_of(queue),
            id,
            queue,
            visible_at,
            payload,
        ),
{
    let push = RecordView::Push { msg_id: id, queue_name: queue, visible_at, payload };
    let more = records.push(push);
    let at = model::shard_of(queue);
    assert forall|j: int| 0 <= j < records.len() implies !pushes_id(#[trigger] more[j], at, id) by {
        assert(more[j] == records[j]);
    }
    assert(more[records.len() as int] == push);
    assert(first_push_at(more, at, id, records.len() as int));
}

/// The shards have seen every message that the log holds a push of. This is so from the time
/// on at which an engine is opened, until what it has in memory is cleared.
pub open spec fn log_is_seen(e: EngineView, files: FilesView) -> bool {
    forall|k: int|
        0 <= k < durability::active_records(e.disk, files).len() ==> match (
        #[trigger] durability::active_records(e.disk, files)[k]) {
            RecordView::Push { msg_id, queue_name, .. } => e.shard(queue_name).seen.contains(msg_id),
            RecordView::Ack { .. } => true,
        }
}

proof fn lemma_push_len(id: u128, q_id: u16, visible_at: u64, payload: Seq<u8>)
    ensures
        wal::push_bytes(id, q_id, visible_at, payload).len() == 27 + payload.len(),
{
    broadcast use crate::wire::lemma_be_len;

}

/// What the log says once a new message has been appended and taken in.
proof fn lemma_taken_in_is_logged(
    e: EngineView,
    files: FilesView,
    queue: Seq<char>,
    id: u128,
    payload: Seq<u8>,
    visible_at: u64,
    now: u64,
)
    requires
        e.shards.len() == NUM_SHARDS,
        settled(e.disk, files),
        log_is_seen(e, files),
        !e.shard(queue).seen.contains(id),
        durability::can_name(e.disk.registry, queue),
        durability::fits_record(visible_at, payload),
        e.disk.active_bytes + 27 + payload.len() <= u64::MAX,
    ensures
        ({
            let disk = e.disk.append_push(id, queue, visible_at, payload);
            let post = e.with_disk(disk).accept(queue, id, payload, visible_at, now);
            &&& logged(disk, files, id, queue, visible_at, payload)
            &&& disk.active_bytes == e.disk.active_bytes + 27 + payload.len()
            &&& durability::can_name(disk.registry, queue)
            &&& log_is_seen(post, files)
        }),
{
    model::lemma_shard_of_bound(queue);
    let at = model::shard_of(queue);
    let disk = e.disk.append_push(id, queue, visible_at, payload);
    durability::law_logged_push_is_read_back(e.disk, files, id, queue, visible_at, payload);
    lemma_push_len(id, e.disk.registry.id_of(queue), visible_at, payload);
    vstd::arithmetic::div_mod::lemma_small_mod(
        e.disk.active_bytes as nat + 27 + payload.len(),
        u64::MAX as nat + 1,
    );
    let records = durability::active_records(e.disk, files);
    assert forall|j: int| 0 <= j < records.len() implies !pushes_id(#[trigger] records[j], at, id) by {}
    lemma_first_record(records, id, queue, visible_at, payload);
    let post = e.with_disk(disk).accept(queue, id, payload, visible_at, now);
    let more = durability::active_records(disk, files);
    assert forall|k: int| 0 <= k < more.len() implies match (#[trigger] more[k]) {
        RecordView::Push { msg_id, queue_name, .. } => post.shard(queue_name).seen.contains(msg_id),
        RecordView::Ack { .. } => true,
    } by {
        if k < records.len() {
            assert(more[k] == records[k]);
        }
        model::lemma_shard_of_bound(model::queue_of(more[k]));
    }
}

/// A push of a new message leaves it in the log.
pub proof fn law_pushed_message_is_logged(
    e: EngineView,
    files: FilesView,
    queue: Seq<char>,
    id: u128,
    payload: Seq<u8>,
    visible_at: u64,
    now: u64,
    post: EngineView,
)
    requires
        e.inv(),
        settled(e.disk, files),
        log_is_seen(e, files),
        !e.shard(queue).seen.contains(id),
        durability::can_name(e.disk.registry, queue),
        durability::fits_record(visible_at, payload),
        e.disk.active_bytes + 27 + payload.len() <= u64::MAX,
        e.pushes_to(queue, id, payload, visible_at, now, post),
    ensures
        logged(post.disk, files, id, queue, visible_at, payload),
        log_is_seen(post, files),
{
    lemma_taken_in_is_logged(e, files, queue, id, payload, visible_at, now);
    let disk = e.disk.append_push(id, queue, visible_at, payload);
    durability::law_flush_keeps_files(disk, files);
    let flushed = e.with_disk(disk).accept(queue, id, payload, visible_at, now);
    assert(flushed.shards == post.shards);
    assert(durability::active_records(post.disk, files) == durability::active_records(disk, files));
}

/// A message stays in the log as it was first pushed while pushes are added, also pushes
/// of its own id.
pub proof fn law_push_keeps_message_logged(
    disk: DiskView,
    files: FilesView,
    id: u128,
    queue: Seq<char>,
    visible_at: u64,
    payload: Seq<u8>,
    other_id: u128,
    other_queue: Seq<char>,
    other_visible_at: u64,
    other_payload: Seq<u8>,
)
    requires
        logged(disk, files, id, queue, visible_at, payload),
        durability::can_name(disk.registry, other_queue),
        durability::fits_record(other_visible_at, other_payload),
        disk.active_bytes + 27 + other_payload.len() <= u64::MAX,
    ensures
        logged(
            disk.append_push(other_id, other_queue, other_visible_at, other_payload),
            files,
            id,
            queue,
            visible_at,
            payload,
        ),
{
    durability::law_logged_push_is_read_back(
        disk,
        files,
        other_id,
        other_queue,
        other_visible_at,
        other_payload,
    );
    lemma_later_record(
        durability::active_records(disk, files),
        RecordView::Push {
            msg_id: other_id,
            queue_name: other_queue,
            visible_at: other_visible_at,
            payload: other_payload,
        },
        model::shard_of(queue),
        id,
        queue,
        visible_at,
        payload,
    );
}

/// A message stays in the log while other messages are acknowledged.
pub proof fn law_other_ack_keeps_message_logged(
    disk: DiskView,
    files: FilesView,
    id: u128,
    queue: Seq<char>,
    visible_at: u64,
    payload: Seq<u8>,
    other_id: u128,
    other_queue: Seq<char>,
)
    requires
        logged(disk, files, id, queue, visible_at, payload),
        durability::can_name(disk.registry, other_queue),
        disk.active_bytes + 19 <= u64::MAX,
        other_id != id || model::shard_of(other_queue) != model::shard_of(queue),
    ensures
        logged(
            disk.append_ack(other_id, other_queue),
            files,
            id,
            queue,
            visible_at,
            payload,
        ),
{
    durability::law_logged_ack_is_read_back(disk, files, other_id, other_queue);
    lemma_later_record(
        durability::active_records(disk, files),
        RecordView::Ack { msg_id: other_id, queue_name: other_queue },
        model::shard_of(queue),
        id,
        queue,
        visible_at,
        payload,
    );
}

/// How many bytes the records of a batch take at most.
pub open spec fn batch_bytes(items: Seq<PushView>, n: nat) -> nat
    decreases n,
{
    if n == 0 {
        0
    } else {
        batch_bytes(items, (n - 1) as nat) + 27 + items[n - 1].payload.len()
    }
}

/// The messages of a batch fit the log.
pub open spec fn batch_fits(disk: DiskView, items: Seq<PushView>, n: nat, now: u64) -> bool {
    &&& disk.active_bytes + batch_bytes(items, n) <= u64::MAX
    &&& forall|i: int|
        0 <= i < n ==> now + (#[trigger] items[i]).delay_seconds <= u64::MAX
            && durability::fits_record((now + items[i].delay_seconds) as u64, items[i].payload)
}

proof fn lemma_batch_logged(
    e: EngineView,
    files: FilesView,
    queue: Seq<char>,
    ids: Seq<u128>,
    items: Seq<PushView>,
    now: u64,
)
    requires
        e.shards.len() == NUM_SHARDS,
        settled(e.disk, files),
        log_is_seen(e, files),
        durability::can_name(e.disk.registry, queue),
        batch_fits(e.disk, items, ids.len(), now),
    ensures
        ({
            let b = e.batch(queue, ids, items, now);
            &&& b.shards.len() == NUM_SHARDS
            &&& settled(b.disk, files)
            &&& log_is_seen(b, files)
            &&& durability::can_name(b.disk.registry, queue)
            &&& e.disk.active_bytes <= b.disk.active_bytes <= e.disk.active_bytes + batch_bytes(
                items,
                ids.len(),
            )
            &&& forall|x: u128| #[trigger]
                b.shard(queue).seen.contains(x) <==> e.shard(queue).seen.contains(x)
                    || ids.contains(x)
            &&& forall|k: int|
                0 <= k < ids.len() && !e.shard(queue).seen.contains(#[trigger] ids[k])
                    && !ids.take(k).contains(ids[k]) ==> logged(
                    b.disk,
                    files,
                    ids[k],
                    queue,
                    (now + items[k].delay_seconds) as u64,
                    items[k].payload,
                )
        }),
    decreases ids.len(),
{
    model::lemma_shard_of_bound(queue);
    if ids.len() > 0 {
        let n = ids.len() - 1;
        let head = ids.drop_last();
        lemma_batch_logged(e, files, queue, head, items, now);
        let p = e.batch(queue, head, items, now);
        let b = e.batch(queue, ids, items, now);
        let id = ids[n];
        let visible_at = (now + items[n].delay_seconds) as u64;
        let payload = items[n].payload;
        assert forall|x: u128| #[trigger] b.shard(queue).seen.contains(x) <==> e.shard(
            queue,
        ).seen.contains(x) || ids.contains(x) by {
            assert(ids =~= head.push(id));
            assert(p.shard(queue).seen.contains(x) <==> e.shard(queue).seen.contains(x)
                || head.contains(x));
            if head.contains(x) {
                let j = choose|j: int| 0 <= j < head.len() && head[j] == x;
                assert(ids[j] == x);
            }
            if ids.contains(x) && x != id {
                let j = choose|j: int| 0 <= j < ids.len() && ids[j] == x;
                assert(head[j] == x);
            }
        }
        if !p.shard(queue).seen.contains(id) {
            lemma_taken_in_is_logged(p, files, queue, id, payload, visible_at, now);
            assert(b.disk == p.disk.append_push(id, queue, visible_at, payload));
            assert(logged(b.disk, files, id, queue, visible_at, payload));
        }
        assert forall|k: int|
            0 <= k < ids.len() && !e.shard(queue).seen.contains(#[trigger] ids[k]) && !ids.take(
                k,
            ).contains(ids[k]) implies logged(
            b.disk,
            files,
            ids[k],
            queue,
            (now + items[k].delay_seconds) as u64,
            items[k].payload,
        ) by {
            if k < n {
                assert(head[k] == ids[k]);
                assert(head.take(k) =~= ids.take(k));
                assert(head.contains(head[k]));
                if !p.shard(queue).seen.contains(id) {
                    assert(p.shard(queue).seen.contains(head[k]));
                    law_push_keeps_message_logged(
                        p.disk,
                        files,
                        ids[k],
                        queue,
                        (now + items[k].delay_seconds) as u64,
                        items[k].payload,
                        id,
                        queue,
                        visible_at,
                        payload,
                    );
                }
            } else {
                assert(ids.take(k) =~= head);
                assert(!p.shard(queue).seen.contains(id));
            }
        }
    } else {
        assert forall|x: u128| !ids.contains(x) by {}
    }
}

/// A push of a batch leaves every message of it in the log that was not seen before, as the
/// batch first gives it.
pub proof fn law_batch_pushed_messages_are_logged(
    e: EngineView,
    files: FilesView,
    queue: Seq<char>,
    ids: Seq<u128>,
    items: Seq<PushView>,
    now: u64,
    post: EngineView,
    k: int,
)
    requires
        e.inv(),
        settled(e.disk, files),
        log_is_seen(e, files),
        durability::can_name(e.disk.registry, queue),
        batch_fits(e.disk, items, ids.len(), now),
        e.batch_pushes_to(queue, ids, items, now, post),
        0 <= k < ids.len(),
        !e.shard(queue).seen.contains(ids[k]),
        !ids.take(k).contains(ids[k]),
    ensures
        logged(
            post.disk,
            files,
            ids[k],
            queue,
            (now + items[k].delay_seconds) as u64,
            items[k].payload,
        ),
        log_is_seen(post, files),
{
    lemma_batch_logged(e, files, queue, ids, items, now);
    let b = e.batch(queue, ids, items, now);
    durability::law_flush_keeps_files(b.disk, files);
    assert(post.shards == b.shards);
    assert(durability::active_records(post.disk, files) == durability::active_records(b.disk, files));
}

proof fn lemma_carried_holds(
    records: Seq<RecordView>,
    at: int,
    id: u128,
    queue: Seq<char>,
    visible_at: u64,
    payload: Seq<u8>,
)
    requires
        holds_push(records, at, id, queue, visible_at, payload),
    ensures
        holds_push(
            durability::survivor_records(compaction::carried(records)),
            at,
            id,
            queue,
            visible_at,
            payload,
        ),
    decreases records.len(),
{
    let push = RecordView::Push { msg_id: id, queue_name: queue, visible_at, payload };
    let k = choose|k: int| first_push_at(records, at, id, k) && #[trigger] records[k] == push;
    let behind = records.drop_first();
    let list = durability::survivor_records(compaction::carried(records));
    let rest = durability::survivor_records(compaction::carried(behind));
    if k == 0 {
        assert forall|j: int| 0 <= j < behind.len() implies !compaction::acks_id(
            #[trigger] behind[j],
            at,
            id,
        ) by {
            assert(behind[j] == records[j + 1]);
        }
        assert(compaction::is_open(records[0], behind));
        assert(list[0] == push);
        assert(first_push_at(list, at, id, 0));
    } else {
        assert(behind[k - 1] == push);
        assert forall|j: int| 0 <= j < k - 1 implies !pushes_id(#[trigger] behind[j], at, id) by {
            assert(behind[j] == records[j + 1]);
        }
        assert forall|j: int| k - 1 < j < behind.len() implies !compaction::acks_id(
            #[trigger] behind[j],
            at,
            id,
        ) by {
            assert(behind[j] == records[j + 1]);
        }
        assert(first_push_at(behind, at, id, k - 1));
        lemma_carried_holds(behind, at, id, queue, visible_at, payload);
        if compaction::is_open(records[0], behind) {
            let m = choose|m: int| first_push_at(rest, at, id, m) && #[trigger] rest[m] == push;
            assert(!pushes_id(records[0], at, id));
            assert(list[0] == records[0]);
            assert(list[m + 1] == rest[m]);
            assert forall|j: int| 0 <= j < m + 1 implies !pushes_id(#[trigger] list[j], at, id) by {
                if j > 0 {
                    assert(list[j] == rest[j - 1]);
                }
            }
            assert(first_push_at(list, at, id, m + 1));
        } else {
            assert(list =~= rest);
        }
    }
}

/// What a compaction carries over fits the log.
pub open spec fn fits_compaction(disk: DiskView, files: FilesView) -> bool {
    let list = compaction::carried(durability::active_records(disk, files));
    durability::fits_log(disk.registry, list) && durability::survivor_bytes(list) <= u64::MAX
}

/// A compaction keeps every push of the active segment that no later record acknowledges,
/// whether or not the message is in memory.
pub proof fn law_compaction_keeps_every_open_push(e: EngineView, files: FilesView, k: int)
    requires
        settled(e.disk, files),
        fits_compaction(e.disk, files),
        0 <= k < durability::active_records(e.disk, files).len(),
        compaction::is_open(
            durability::active_records(e.disk, files)[k],
            durability::active_records(e.disk, files).skip(k + 1),
        ),
    ensures
        ({
            let records = durability::active_records(e.disk, files);
            let post = e.compacted(records);
            &&& settled(post.disk, files)
            &&& durability::active_records(post.disk, files).contains(records[k])
        }),
{
    let records = durability::active_records(e.disk, files);
    let list = compaction::carried(records);
    durability::law_compaction_keeps_survivors(e.disk, files, list);
    compaction::law_open_push_is_carried(records, k);
    let j = choose|j: int| 0 <= j < list.len() && list[j] == compaction::survivor_of(records[k]);
    assert(durability::survivor_records(list)[j] == records[k]);
}

/// A compaction keeps nothing but the pushes of the active segment that no later record
/// acknowledges, and leaves the other segment empty.
pub proof fn law_compaction_keeps_open_pushes_only(e: EngineView, files: FilesView, j: int)
    requires
        settled(e.disk, files),
        fits_compaction(e.disk, files),
        ({
            let post = e.compacted(durability::active_records(e.disk, files));
            0 <= j < durability::active_records(post.disk, files).len()
        }),
    ensures
        ({
            let records = durability::active_records(e.disk, files);
            let post = e.compacted(records);
            &&& durability::frozen_segment(post.disk, files) == Seq::<u8>::empty()
            &&& exists|k: int|
                0 <= k < records.len() && compaction::is_open(
                    #[trigger] records[k],
                    records.skip(k + 1),
                ) && durability::active_records(post.disk, files)[j] == records[k]
        }),
{
    let records = durability::active_records(e.disk, files);
    let list = compaction::carried(records);
    durability::law_compaction_keeps_survivors(e.disk, files, list);
    let k = compaction::law_carried_push_is_open(records, j);
    assert(durability::survivor_records(list)[j] == records[k]);
}

/// A compaction keeps every message in the log that is there, as it was first pushed.
pub proof fn law_compaction_keeps_message_logged(
    e: EngineView,
    files: FilesView,
    id: u128,
    queue: Seq<char>,
    visible_at: u64,
    payload: Seq<u8>,
)
    requires
        logged(e.disk, files, id, queue, visible_at, payload),
        fits_compaction(e.disk, files),
    ensures
        logged(
            e.compacted(durability::active_records(e.disk, files)).disk,
            files,
            id,
            queue,
            visible_at,
            payload,
        ),
{
    let records = durability::active_records(e.disk, files);
    durability::law_compaction_keeps_survivors(e.disk, files, compaction::carried(records));
    lemma_carried_holds(records, model::shard_of(queue), id, queue, visible_at, payload);
}

/// A compaction leaves the log one whose messages have been seen.
pub proof fn law_compaction_keeps_log_seen(e: EngineView, files: FilesView)
    requires
        settled(e.disk, files),
        fits_compaction(e.disk, files),
        log_is_seen(e, files),
    ensures
        log_is_seen(e.compacted(durability::active_records(e.disk, files)), files),
{
    let records = durability::active_records(e.disk, files);
    let list = compaction::carried(records);
    let post = e.compacted(records);
    durability::law_compaction_keeps_survivors(e.disk, files, list);
    let after = durability::active_records(post.disk, files);
    assert forall|j: int| 0 <= j < after.len() implies match (#[trigger] after[j]) {
        RecordView::Push { msg_id, queue_name, .. } => post.shard(queue_name).seen.contains(msg_id),
        RecordView::Ack { .. } => true,
    } by {
        let k = compaction::law_carried_push_is_open(records, j);
        assert(after[j] == records[k]);
    }
}

/// A message that is in the log and due within the horizon is in memory after a restart, with
/// its queue, payload and time, if memory has room for what the log holds.
pub proof fn law_logged_message_survives_restart(
    disk: DiskView,
    files: FilesView,
    id: u128,
    queue: Seq<char>,
    visible_at: u64,
    payload: Seq<u8>,
    options: QueueOptions,
    max_segment_size: u64,
    base_epoch_sec: u64,
)
    requires
        logged(disk, files, id, queue, visible_at, payload),
        push_count(durability::active_records(disk, files)) <= options.max_hot_messages_in_ram,
        visible_at <= base_epoch_sec + HOT_DELAY_HORIZON_SEC,
    ensures
        ({
            let e = restarted(disk, files, options, max_segment_size, base_epoch_sec);
            &&& e.shard(queue).messages.contains_key(id)
            &&& e.shard(queue).messages[id] == e.fresh_msg(id, queue, payload, visible_at)
        }),
{
    durability::law_reopening_reads_the_active_segment(disk, files, max_segment_size);
    let records = durability::active_records(disk, files);
    let at = model::shard_of(queue);
    let done = files.perform_all(disk.actions);
    let reopened = DiskView::open(done.manifest, done.wal_a, done.wal_b, max_segment_size);
    let blank = EngineView::blank(reopened, options, base_epoch_sec);
    let push = RecordView::Push { msg_id: id, queue_name: queue, visible_at, payload };
    let k = choose|k: int| first_push_at(records, at, id, k) && #[trigger] records[k] == push;
    model::lemma_shard_of_bound(queue);
    law_unacked_message_is_recovered(blank, records, at, id, k);
    lemma_replay_frame(blank, records);
}

/// Every message in memory is due within the horizon of this time.
pub open spec fn keeps_to_horizon(e: EngineView, now: u64) -> bool {
    forall|at: int, id: u128|
        0 <= at < NUM_SHARDS && #[trigger] e.shards[at].messages.contains_key(id)
            ==> e.shards[at].messages[id].visible_at <= now + HOT_DELAY_HORIZON_SEC
}

proof fn lemma_replay_keeps_to_horizon(e: EngineView, records: Seq<RecordView>)
    requires
        e.shards.len() == NUM_SHARDS,
        keeps_to_horizon(e, e.base_epoch_sec),
    ensures
        e.replay(records).shards.len() == NUM_SHARDS,
        e.replay(records).base_epoch_sec == e.base_epoch_sec,
        keeps_to_horizon(e.replay(records), e.base_epoch_sec),
    decreases records.len(),
{
    if records.len() > 0 {
        let head = records.drop_last();
        lemma_replay_keeps_to_horizon(e, head);
        let p = e.replay(head);
        let post = e.replay(records);
        model::lemma_shard_of_bound(model::queue_of(records.last()));
        assert forall|at: int, id: u128|
            0 <= at < NUM_SHARDS && #[trigger] post.shards[at].messages.contains_key(
                id,
            ) implies post.shards[at].messages[id].visible_at <= e.base_epoch_sec
            + HOT_DELAY_HORIZON_SEC by {
            assert(p.shards[at].messages.contains_key(id) ==> p.shards[at].messages[id].visible_at
                <= e.base_epoch_sec + HOT_DELAY_HORIZON_SEC);
        }
    }
}

/// After a restart no message that is due beyond the horizon is in memory.
pub proof fn law_restart_leaves_far_messages_on_disk(
    disk: DiskView,
    files: FilesView,
    options: QueueOptions,
    max_segment_size: u64,
    base_epoch_sec: u64,
)
    ensures
        keeps_to_horizon(
            restarted(disk, files, options, max_segment_size, base_epoch_sec),
            base_epoch_sec,
        ),
{
    let done = files.perform_all(disk.actions);
    let reopened = DiskView::open(done.manifest, done.wal_a, done.wal_b, max_segment_size);
    let blank = EngineView::blank(reopened, options, base_epoch_sec);
    lemma_replay_keeps_to_horizon(
        blank,
        wal::records_in(done.wal_a, reopened.registry) + wal::records_in(
            done.wal_b,
            reopened.registry,
        ),
    );
}

/// The engine over the files as they are once the log's pending actions have been carried
/// out.
pub open spec fn restarted(
    disk: DiskView,
    files: FilesView,
    options: QueueOptions,
    max_segment_size: u64,
    base_epoch_sec: u64,
) -> EngineView {
    let done = files.perform_all(disk.actions);
    let reopened = DiskView::open(done.manifest, done.wal_a, done.wal_b, max_segment_size);
    EngineView::blank(reopened, options, base_epoch_sec).replay(
        wal::records_in(done.wal_a, reopened.registry) + wal::records_in(
            done.wal_b,
            reopened.registry,
        ),
    )
}

proof fn lemma_never_acked(e: EngineView, records: Seq<RecordView>, at: int, id: u128)
    requires
        e.shards.len() == NUM_SHARDS,
        0 <= at < NUM_SHARDS,
        !e.shards[at].acked.contains(id),
        forall|k: int| 0 <= k < records.len() ==> !compaction::acks_id(#[trigger] records[k], at, id),
    ensures
        !e.replay(records).shards[at].acked.contains(id),
        e.replay(records).spill_offset == e.spill_offset,
    decreases records.len(),
{
    if records.len() > 0 {
        let head = records.drop_last();
        let last = records.last();
        assert(records[records.len() - 1] == last);
        assert forall|k: int| 0 <= k < head.len() implies !compaction::acks_id(#[trigger] head[k], at, id) by {
            assert(head[k] == records[k]);
        }
        lemma_never_acked(e, head, at, id);
        lemma_replay_len(e, head);
        model::lemma_shard_of_bound(model::queue_of(last));
    }
}

/// A restart leaves no message behind, however little memory there is: one that the log
/// holds and never acknowledges is in memory, or the scan of the log, which then starts at
/// the beginning, takes it in when the horizon has reached its time and there is room.
pub proof fn law_restart_leaves_no_message_behind(
    disk: DiskView,
    files: FilesView,
    k: int,
    options: QueueOptions,
    max_segment_size: u64,
    base_epoch_sec: u64,
    now: u64,
)
    requires
        settled(disk, files),
        0 <= k < durability::active_records(disk, files).len(),
        durability::active_records(disk, files)[k] is Push,
        durability::active_records(disk, files)[k]->visible_at <= now
            + HOT_DELAY_HORIZON_SEC,
        ({
            let records = durability::active_records(disk, files);
            let at = model::shard_of(model::queue_of(records[k]));
            forall|j: int|
                0 <= j < records.len() ==> !compaction::acks_id(
                    #[trigger] records[j],
                    at,
                    records[k]->Push_msg_id,
                )
        }),
    ensures
        ({
            let record = durability::active_records(disk, files)[k];
            let e = restarted(disk, files, options, max_segment_size, base_epoch_sec);
            &&& e.spill_offset == 0
            &&& e.shard(model::queue_of(record)).messages.contains_key(record->Push_msg_id)
                || e.wants_in(record, now)
        }),
{
    let records = durability::active_records(disk, files);
    let queue = model::queue_of(records[k]);
    model::lemma_shard_of_bound(queue);
    durability::law_reopening_reads_the_active_segment(disk, files, max_segment_size);
    let done = files.perform_all(disk.actions);
    let reopened = DiskView::open(done.manifest, done.wal_a, done.wal_b, max_segment_size);
    let blank = EngineView::blank(reopened, options, base_epoch_sec);
    lemma_never_acked(blank, records, model::shard_of(queue), records[k]->Push_msg_id);
}

/// After a restart the shards have seen every message that the log holds a push of.
pub proof fn law_restarted_log_is_seen(
    disk: DiskView,
    files: FilesView,
    options: QueueOptions,
    max_segment_size: u64,
    base_epoch_sec: u64,
    k: int,
)
    requires
        settled(disk, files),
        0 <= k < durability::active_records(disk, files).len(),
    ensures
        match durability::active_records(disk, files)[k] {
            RecordView::Push { msg_id, queue_name, .. } => restarted(
                disk,
                files,
                options,
                max_segment_size,
                base_epoch_sec,
            ).shard(queue_name).seen.contains(msg_id),
            RecordView::Ack { .. } => true,
        },
{
    durability::law_reopening_reads_the_active_segment(disk, files, max_segment_size);
    let records = durability::active_records(disk, files);
    let done = files.perform_all(disk.actions);
    let reopened = DiskView::open(done.manifest, done.wal_a, done.wal_b, max_segment_size);
    let blank = EngineView::blank(reopened, options, base_epoch_sec);
    match records[k] {
        RecordView::Push { msg_id, queue_name, .. } => {
            lemma_pushed_is_seen(blank, records, model::shard_of(queue_name), msg_id, k);
        },
        _ => {},
    }
}

/// An acknowledgement, by receipt or from elsewhere, takes the message out of the log.
pub proof fn law_acked_message_is_erased(
    e: EngineView,
    files: FilesView,
    queue: Seq<char>,
    id: u128,
    post: EngineView,
)
    requires
        e.inv(),
        settled(e.disk, files),
        durability::can_name(e.disk.registry, queue),
        e.disk.active_bytes + 19 <= u64::MAX,
        e.acks_to(queue, id, post) || e.follower_acks_to(queue, id, post),
    ensures
        erased(post.disk, files, queue, id),
{
    let at = model::shard_of(queue);
    let appended = e.disk.append_ack(id, queue);
    durability::law_logged_ack_is_read_back(e.disk, files, id, queue);
    durability::law_flush_keeps_files(appended, files);
    let records = durability::active_records(appended, files);
    let ack = RecordView::Ack { msg_id: id, queue_name: queue };
    assert(records[records.len() - 1] == ack);
    assert(compaction::acks_id(ack, at, id));
}

/// A compaction does not bring back a message that is out of the log.
pub proof fn law_compaction_keeps_message_erased(
    e: EngineView,
    files: FilesView,
    queue: Seq<char>,
    id: u128,
)
    requires
        erased(e.disk, files, queue, id),
        fits_compaction(e.disk, files),
    ensures
        erased(e.compacted(durability::active_records(e.disk, files)).disk, files, queue, id),
{
    let at = model::shard_of(queue);
    let records = durability::active_records(e.disk, files);
    let list = compaction::carried(records);
    durability::law_compaction_keeps_survivors(e.disk, files, list);
    let after = durability::survivor_records(list);
    assert forall|j: int| 0 <= j < after.len() implies !pushes_id(#[trigger] after[j], at, id) by {
        let k = compaction::law_carried_push_is_open(records, j);
        assert(after[j] == records[k]);
        if pushes_id(records[k], at, id) {
            let i = choose|i: int|
                k < i < records.len() && compaction::acks_id(#[trigger] records[i], at, id);
            assert(records.skip(k + 1)[i - k - 1] == records[i]);
        }
    }
}

/// A message that was acknowledged stays out of the log, whatever is pushed.
pub proof fn law_push_keeps_message_erased(
    e: EngineView,
    files: FilesView,
    queue: Seq<char>,
    id: u128,
    other_queue: Seq<char>,
    other_id: u128,
    payload: Seq<u8>,
    visible_at: u64,
    now: u64,
    post: EngineView,
)
    requires
        e.inv(),
        laws::gone(e, queue, id),
        erased(e.disk, files, queue, id),
        durability::can_name(e.disk.registry, other_queue),
        durability::fits_record(visible_at, payload),
        e.disk.active_bytes + 27 + payload.len() <= u64::MAX,
        e.pushes_to(other_queue, other_id, payload, visible_at, now, post),
    ensures
        erased(post.disk, files, queue, id),
{
    let at = model::shard_of(queue);
    let s = e.shard(other_queue);
    if !(s.seen.contains(other_id) && s.acked.contains(other_id)) {
        let disk = e.disk.append_push(other_id, other_queue, visible_at, payload);
        durability::law_logged_push_is_read_back(
            e.disk,
            files,
            other_id,
            other_queue,
            visible_at,
            payload,
        );
        durability::law_flush_keeps_files(disk, files);
        lemma_stays_erased(
            durability::active_records(e.disk, files),
            RecordView::Push { msg_id: other_id, queue_name: other_queue, visible_at, payload },
            at,
            id,
        );
    }
}

proof fn lemma_stays_erased(records: Seq<RecordView>, record: RecordView, at: int, id: u128)
    requires
        holds_no_push(records, at, id),
        !pushes_id(record, at, id),
    ensures
        holds_no_push(records.push(record), at, id),
{
    let more = records.push(record);
    assert forall|k: int| 0 <= k < more.len() && pushes_id(#[trigger] more[k], at, id) implies exists|
        j: int,
    |
        k < j < more.len() && compaction::acks_id(#[trigger] more[j], at, id) by {
        assert(more[k] == records[k]);
        let j = choose|j: int|
            k < j < records.len() && compaction::acks_id(#[trigger] records[j], at, id);
        assert(more[j] == records[j]);
    }
}

/// The room that the log needs for a message's move to its dead letter queue.
pub open spec fn fits_dead_letter(e: EngineView, msg: MsgView, now: u64) -> bool {
    let dead = model::dlq_name(msg.queue);
    &&& durability::can_name(e.disk.registry, msg.queue)
    &&& e.disk.registry.ids.contains_key(dead) || e.disk.registry.ids.contains_key(msg.queue)
        || e.disk.registry.names.len() + 1 < 0x1_0000
    &&& durability::can_name(e.disk.registry, dead)
    &&& durability::fits_record(now, msg.payload)
    &&& e.disk.active_bytes + 27 + msg.payload.len() + 19 <= u64::MAX
}

/// A message that goes to its dead letter queue can be had back from the files there, and
/// not in its own queue any more.
pub proof fn law_dead_letter_is_logged(e: EngineView, files: FilesView, msg: MsgView, now: u64)
    requires
        e.inv(),
        settled(e.disk, files),
        log_is_seen(e, files),
        msg.delivery_count >= msg.max_delivery,
        fits_dead_letter(e, msg, now),
        !e.shard(model::dlq_name(msg.queue)).seen.contains(msg.id),
    ensures
        logged(
            e.route(msg, now).disk,
            files,
            msg.id,
            model::dlq_name(msg.queue),
            now,
            msg.payload,
        ),
        erased(e.route(msg, now).disk, files, msg.queue, msg.id),
{
    let dead = model::dlq_name(msg.queue);
    model::law_dead_letters_go_to_another_shard(msg.queue);
    lemma_taken_in_is_logged(e, files, dead, msg.id, msg.payload, now, now);
    let pushed = e.disk.append_push(msg.id, dead, now, msg.payload);
    durability::law_logged_ack_is_read_back(pushed, files, msg.id, msg.queue);
    law_other_ack_keeps_message_logged(
        pushed,
        files,
        msg.id,
        dead,
        now,
        msg.payload,
        msg.id,
        msg.queue,
    );
    let records = durability::active_records(e.route(msg, now).disk, files);
    let ack = RecordView::Ack { msg_id: msg.id, queue_name: msg.queue };
    assert(records[records.len() - 1] == ack);
    assert(compaction::acks_id(ack, model::shard_of(msg.queue), msg.id));
}

proof fn lemma_never_pushed(e: EngineView, records: Seq<RecordView>, at: int, id: u128)
    requires
        e.shards.len() == NUM_SHARDS,
        0 <= at < NUM_SHARDS,
        forall|k: int| 0 <= k < records.len() ==> !pushes_id(#[trigger] records[k], at, id),
    ensures
        !e.shards[at].messages.contains_key(id) ==> !e.replay(
            records,
        ).shards[at].messages.contains_key(id),
        !e.shards[at].seen.contains(id) ==> !e.replay(records).shards[at].seen.contains(id),
    decreases records.len(),
{
    if records.len() > 0 {
        let head = records.drop_last();
        let last = records.last();
        assert(records[records.len() - 1] == last);
        assert forall|k: int| 0 <= k < head.len() implies !pushes_id(#[trigger] head[k], at, id) by {
            assert(head[k] == records[k]);
        }
        lemma_never_pushed(e, head, at, id);
        lemma_replay_len(e, head);
        model::lemma_shard_of_bound(model::queue_of(last));
    }
}

/// A message that was taken out of the log is not in memory after a restart.
pub proof fn law_erased_message_stays_away(
    disk: DiskView,
    files: FilesView,
    queue: Seq<char>,
    id: u128,
    options: QueueOptions,
    max_segment_size: u64,
    base_epoch_sec: u64,
)
    requires
        erased(disk, files, queue, id),
    ensures
        !restarted(disk, files, options, max_segment_size, base_epoch_sec).shard(
            queue,
        ).messages.contains_key(id),
{
    model::lemma_shard_of_bound(queue);
    durability::law_reopening_reads_the_active_segment(disk, files, max_segment_size);
    let records = durability::active_records(disk, files);
    let at = model::shard_of(queue);
    let done = files.perform_all(disk.actions);
    let reopened = DiskView::open(done.manifest, done.wal_a, done.wal_b, max_segment_size);
    let blank = EngineView::blank(reopened, options, base_epoch_sec);
    if exists|k: int| 0 <= k < records.len() && pushes_id(#[trigger] records[k], at, id) {
        let k = choose|k: int| 0 <= k < records.len() && pushes_id(#[trigger] records[k], at, id);
        let j = choose|j: int|
            k < j < records.len() && compaction::acks_id(#[trigger] records[j], at, id);
        law_acked_message_is_not_recovered(blank, records, at, id, k, j);
    } else {
        lemma_never_pushed(blank, records, at, id);
    }
}

/// A compaction leaves only what is not acknowledged on disk, and none is due then, unless
/// that alone reaches the limit of a segment.
pub proof fn law_no_compaction_is_left_due(e: EngineView, files: FilesView)
    requires
        settled(e.disk, files),
        fits_compaction(e.disk, files),
    ensures
        ({
            let records = durability::active_records(e.disk, files);
            let live = durability::survivor_bytes(compaction::carried(records));
            let post = e.compacted(records);
            &&& post.disk.active_bytes == live
            &&& post.disk.compaction_due() <==> live >= e.disk.max_segment_size
            &&& durability::frozen_segment(post.disk, files) == Seq::<u8>::empty()
        }),
{
    let records = durability::active_records(e.disk, files);
    durability::law_compaction_keeps_survivors(e.disk, files, compaction::carried(records));
    lemma_compaction_keeps_limit(e.disk, compaction::carried(records));
}

proof fn lemma_compaction_keeps_limit(disk: DiskView, list: Seq<SurvivorView>)
    ensures
        disk.compact(list).max_segment_size == disk.max_segment_size,
{
    let flipped = DiskView { active_is_b: !disk.active_is_b, active_bytes: 0, ..disk.flush() };
    lemma_append_keeps_limit(flipped, list);
}

proof fn lemma_append_keeps_limit(disk: DiskView, list: Seq<SurvivorView>)
    ensures
        disk.append_all(list).max_segment_size == disk.max_segment_size,
    decreases list.len(),
{
    if list.len() > 0 {
        lemma_append_keeps_limit(disk, list.drop_last());
    }
}

/// The two segments never take more than twice the limit of one, not even while a compaction
/// writes the new one, if every push and acknowledgement is followed by a compaction where one
/// is due: as long as one record, and all that is not acknowledged, together fit the limit.
/// `before` is the log before a record was appended, `e` the engine after it.
pub proof fn law_disk_usage_is_bounded(before: DiskView, e: EngineView, files: FilesView)
    requires
        !before.compaction_due(),
        e.disk.max_segment_size == before.max_segment_size,
        settled(e.disk, files),
        fits_compaction(e.disk, files),
        e.disk.active_bytes - before.active_bytes + durability::survivor_bytes(
            compaction::carried(durability::active_records(e.disk, files)),
        ) <= before.max_segment_size,
    ensures
        ({
            let post = if e.disk.compaction_due() {
                e.compacted(durability::active_records(e.disk, files))
            } else {
                e
            };
            &&& !post.disk.compaction_due()
            &&& e.disk.active_bytes <= 2 * before.max_segment_size
            &&& e.disk.compaction_due() ==> e.disk.active_bytes + post.disk.active_bytes <= 2
                * before.max_segment_size
        }),
{
    if e.disk.compaction_due() {
        law_no_compaction_is_left_due(e, files);
    }
}

}
