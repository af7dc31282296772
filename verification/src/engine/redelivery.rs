//! How often a message is delivered: as often as the engine was opened with, then it is a dead
//! letter.
use vstd::prelude::*;

use crate::engine::disk_log;
use crate::engine::disk_log::{DiskView, SegmentRead};
use crate::engine::model;
use crate::engine::model::{EngineView, PushView, ScanView, NUM_SHARDS};
use crate::engine::queue::QueueOptions;
use crate::engine::sequences;
use crate::engine::shard;
use crate::engine::shard::{MsgView, ShardView};
use crate::engine::single_queue::QueueView;
use crate::engine::timer_wheel;
use crate::engine::timer_wheel::ItemView;
use crate::engine::wal::RecordView;

verus! {

/// Every message in the shard may be delivered this often.
pub open spec fn shard_limits(s: ShardView, limit: u32) -> bool {
    forall|id: u128| #[trigger]
        s.messages.contains_key(id) ==> s.messages[id].max_delivery == limit
}

/// Every message in memory may be delivered as often as the engine was opened with.
pub open spec fn limits_hold(e: EngineView) -> bool {
    &&& e.shards.len() == NUM_SHARDS
    &&& forall|at: int|
        0 <= at < NUM_SHARDS ==> shard_limits(
            #[trigger] e.shards[at],
            e.options.max_delivery_count,
        )
}

/// The engine keeps its options, and every message in memory may be delivered as often as they
/// say.
pub open spec fn keeps_limits(e: EngineView, post: EngineView) -> bool {
    post.options == e.options && limits_hold(post)
}

proof fn lemma_with_shard(e: EngineView, queue: Seq<char>, s: ShardView)
    requires
        limits_hold(e),
        shard_limits(s, e.options.max_delivery_count),
    ensures
        keeps_limits(e, e.with_shard(queue, s)),
{
    model::lemma_shard_of_bound(queue);
}

/// An engine with nothing in memory keeps to its limit.
pub proof fn law_blank_engine_keeps_limits(
    disk: DiskView,
    options: QueueOptions,
    base_epoch_sec: u64,
)
    ensures
        limits_hold(EngineView::blank(disk, options, base_epoch_sec)),
        EngineView::blank(disk, options, base_epoch_sec).options == options,
{
}

/// Dropping all that is in memory keeps the limit.
pub proof fn law_clearing_keeps_limits(e: EngineView)
    requires
        limits_hold(e),
    ensures
        keeps_limits(e, e.cleared()),
{
}

/// Compacting the log keeps the limit.
pub proof fn law_compaction_keeps_limits(e: EngineView, records: Seq<RecordView>)
    requires
        limits_hold(e),
    ensures
        keeps_limits(e, e.compacted(records)),
{
}

/// A pushed message may be delivered as often as the engine was opened with, and so may every
/// other after the push.
pub proof fn law_push_keeps_limits(
    e: EngineView,
    queue: Seq<char>,
    id: u128,
    payload: Seq<u8>,
    visible_at: u64,
    now: u64,
    post: EngineView,
)
    requires
        limits_hold(e),
        e.pushes_to(queue, id, payload, visible_at, now, post),
    ensures
        keeps_limits(e, post),
{
    model::lemma_shard_of_bound(queue);
}

/// The same holds of a batch of pushes.
pub proof fn law_batch_push_keeps_limits(
    e: EngineView,
    queue: Seq<char>,
    ids: Seq<u128>,
    items: Seq<PushView>,
    now: u64,
    post: EngineView,
)
    requires
        limits_hold(e),
        e.batch_pushes_to(queue, ids, items, now, post),
    ensures
        keeps_limits(e, post),
{
    lemma_batch(e, queue, ids, items, now);
}

proof fn lemma_batch(
    e: EngineView,
    queue: Seq<char>,
    ids: Seq<u128>,
    items: Seq<PushView>,
    now: u64,
)
    requires
        limits_hold(e),
    ensures
        keeps_limits(e, e.batch(queue, ids, items, now)),
    decreases ids.len(),
{
    if ids.len() > 0 {
        lemma_batch(e, queue, ids.drop_last(), items, now);
        model::lemma_shard_of_bound(queue);
    }
}

/// A message that is paged in may be delivered as often as the engine was opened with.
pub proof fn law_paging_keeps_limits(e: EngineView, records: Seq<RecordView>, now: u64)
    requires
        limits_hold(e),
    ensures
        keeps_limits(e, e.page_records(records, now)),
    decreases records.len(),
{
    if records.len() > 0 {
        law_paging_keeps_limits(e, records.drop_last(), now);
        model::lemma_shard_of_bound(model::queue_of(records.last()));
    }
}

/// The same holds of a step of a scan of the log.
pub proof fn law_scan_keeps_limits(e: EngineView, scan: ScanView, read: SegmentRead)
    requires
        limits_hold(e),
    ensures
        keeps_limits(e, e.page_step(scan, read).0),
{
    if let Some((records, next)) = disk_log::entries_from(
        e.disk.registry,
        e.spill_offset,
        scan.fetch_limit,
        read,
    ) {
        let n = e.page_count(records, scan.now);
        law_paging_keeps_limits(e, records.take(n as int), scan.now);
    }
}

/// A message that is recovered from the log may be delivered as often as the engine was opened
/// with.
pub proof fn law_recovery_keeps_limits(e: EngineView, records: Seq<RecordView>)
    requires
        limits_hold(e),
    ensures
        keeps_limits(e, e.replay(records)),
    decreases records.len(),
{
    if records.len() > 0 {
        law_recovery_keeps_limits(e, records.drop_last());
        model::lemma_shard_of_bound(model::queue_of(records.last()));
    }
}

proof fn lemma_lease(
    s: ShardView,
    name: Seq<char>,
    ids: Seq<u128>,
    receipts: Seq<Seq<char>>,
    expire_at: u64,
    limit: u32,
)
    requires
        shard_limits(s, limit),
    ensures
        shard_limits(s.lease(name, ids, receipts, expire_at).0, limit),
    decreases ids.len(),
{
    if ids.len() > 0 {
        lemma_lease(s, name, ids.drop_last(), receipts, expire_at, limit);
    }
}

/// Handing messages out keeps the limit.
pub proof fn law_poll_keeps_limits(
    e: EngineView,
    queue: Seq<char>,
    now: u64,
    max: nat,
    receipts: Seq<Seq<char>>,
    expire_at: u64,
)
    requires
        limits_hold(e),
    ensures
        ({
            let (claimed, ids) = e.claim(queue, now, max);
            keeps_limits(e, claimed.lease(queue, ids, receipts, expire_at).0)
        }),
{
    model::lemma_shard_of_bound(queue);
    let (claimed, ids) = e.claim(queue, now, max);
    lemma_lease(
        claimed.shard(queue),
        queue,
        ids,
        receipts,
        expire_at,
        e.options.max_delivery_count,
    );
}

/// Acknowledgements keep the limit.
pub proof fn law_acks_keep_limits(
    e: EngineView,
    queue: Seq<char>,
    items: Seq<(Seq<char>, Seq<char>)>,
    now: u64,
    post: EngineView,
)
    requires
        limits_hold(e),
        e.batch_acks_to(queue, items, now, post),
    ensures
        keeps_limits(e, post),
{
    lemma_acks(e, queue, items, now);
}

proof fn lemma_acks(
    e: EngineView,
    queue: Seq<char>,
    items: Seq<(Seq<char>, Seq<char>)>,
    now: u64,
)
    requires
        limits_hold(e),
    ensures
        keeps_limits(e, e.ack_all(queue, items, now)),
    decreases items.len(),
{
    if items.len() > 0 {
        lemma_acks(e, queue, items.drop_last(), now);
        model::lemma_shard_of_bound(queue);
    }
}

proof fn lemma_route(e: EngineView, msg: MsgView, now: u64)
    requires
        limits_hold(e),
        msg.max_delivery == e.options.max_delivery_count,
    ensures
        keeps_limits(e, e.route(msg, now)),
{
    model::lemma_shard_of_bound(msg.queue);
    model::lemma_shard_of_bound(model::dlq_name(msg.queue));
}

proof fn lemma_route_all(e: EngineView, msgs: Seq<MsgView>, now: u64)
    requires
        limits_hold(e),
        forall|k: int|
            0 <= k < msgs.len() ==> (#[trigger] msgs[k]).max_delivery
                == e.options.max_delivery_count,
    ensures
        keeps_limits(e, e.route_all(msgs, now)),
    decreases msgs.len(),
{
    if msgs.len() > 0 {
        let head = msgs.drop_last();
        assert forall|k: int| 0 <= k < head.len() implies (#[trigger] head[k]).max_delivery
            == e.options.max_delivery_count by {
            assert(head[k] == msgs[k]);
        }
        assert(msgs.last() == msgs[msgs.len() - 1]);
        lemma_route_all(e, head, now);
        lemma_route(e.route_all(head, now), msgs.last(), now);
    }
}

/// Ending leases keeps the limit.
pub proof fn law_expiry_keeps_limits(e: EngineView, queue: Seq<char>, now: u64)
    requires
        e.inv(),
        limits_hold(e),
    ensures
        keeps_limits(e, e.expire(queue, now)),
{
    model::lemma_shard_of_bound(queue);
    let at = model::shard_of(queue);
    let s = e.shard(queue);
    assert(model::shard_holds(e.shards[at], at));
    assert(shard_limits(e.shards[at], e.options.max_delivery_count));
    model::lemma_take_expired(s, at, now);
    let (r, taken) = s.take_expired(now);
    assert(shard_limits(r, e.options.max_delivery_count)) by {
        assert forall|id: u128| #[trigger] r.messages.contains_key(id) implies r.messages[id].max_delivery
            == e.options.max_delivery_count by {
            assert(s.messages.dom().contains(id));
        }
    }
    lemma_with_shard(e, queue, r);
    lemma_route_all(e.with_shard(queue, r), taken, now);
}

proof fn lemma_taken_all(messages: Map<u128, MsgView>, items: Seq<ItemView>, id: u128)
    requires
        messages.contains_key(id),
        exists|k: int| 0 <= k < items.len() && (#[trigger] items[k]).id == id,
    ensures
        shard::take_messages(messages, items).1.contains(messages[id]),
        !shard::take_messages(messages, items).0.contains_key(id),
    decreases items.len(),
{
    let head = items.drop_last();
    let (rest, taken) = shard::take_messages(messages, head);
    let all = shard::take_messages(messages, items).1;
    let k = choose|k: int| 0 <= k < items.len() && (#[trigger] items[k]).id == id;
    if exists|j: int| 0 <= j < head.len() && (#[trigger] head[j]).id == id {
        lemma_taken_all(messages, head, id);
        let j = choose|j: int| 0 <= j < taken.len() && taken[j] == messages[id];
        assert(all[j] == messages[id]);
    } else {
        assert(k == items.len() - 1) by {
            if k < head.len() {
                assert(head[k].id == id);
            }
        }
        lemma_taken_none(messages, head, id);
        assert(all[taken.len() as int] == messages[id]);
    }
}

pub proof fn lemma_taken_none(messages: Map<u128, MsgView>, items: Seq<ItemView>, id: u128)
    requires
        messages.contains_key(id),
        forall|k: int| 0 <= k < items.len() ==> (#[trigger] items[k]).id != id,
    ensures
        shard::take_messages(messages, items).0.contains_key(id),
        shard::take_messages(messages, items).0[id] == messages[id],
    decreases items.len(),
{
    if items.len() > 0 {
        let head = items.drop_last();
        assert forall|k: int| 0 <= k < head.len() implies (#[trigger] head[k]).id != id by {
            assert(head[k] == items[k]);
        }
        assert(items[items.len() - 1].id != id);
        lemma_taken_none(messages, head, id);
    }
}

/// The message is ready in its queue.
pub open spec fn is_ready(e: EngineView, queue: Seq<char>, msg: MsgView) -> bool {
    let s = e.shard(queue);
    &&& s.messages.contains_key(msg.id)
    &&& s.messages[msg.id] == msg
    &&& s.queues.contains_key(queue)
    &&& s.queues[queue].ready.contains(msg.id)
    &&& !s.queues[queue].deleted.contains(msg.id)
}

pub proof fn lemma_insert_keeps_ready(q: QueueView, other: u128, visible_at: u64, now: u64, id: u128)
    requires
        q.ready.contains(id),
        !q.deleted.contains(id),
    ensures
        q.insert(other, visible_at, now).ready.contains(id),
        !q.insert(other, visible_at, now).deleted.contains(id),
{
    let i = choose|i: int| 0 <= i < q.ready.len() && q.ready[i] == id;
    assert(q.insert(other, visible_at, now).ready[i] == id);
}

pub proof fn lemma_tombstone_keeps_ready(q: QueueView, other: u128, id: u128)
    requires
        q.ready.contains(id),
        !q.deleted.contains(id),
        other != id,
    ensures
        q.mark_deleted(other).ready.contains(id),
        !q.mark_deleted(other).deleted.contains(id),
{
    let i = choose|i: int| 0 <= i < q.ready.len() && q.ready[i] == id;
    if q.ready.len() > 0 && q.ready[0] == other {
        assert(q.mark_deleted(other).ready[i - 1] == id);
    } else {
        assert(q.mark_deleted(other).ready[i] == id);
    }
}

proof fn lemma_route_keeps_ready(
    e: EngineView,
    other: MsgView,
    now: u64,
    queue: Seq<char>,
    msg: MsgView,
)
    requires
        e.shards.len() == NUM_SHARDS,
        is_ready(e, queue, msg),
        other.id != msg.id,
    ensures
        is_ready(e.route(other, now), queue, msg),
{
    let dead = model::dlq_name(other.queue);
    model::lemma_shard_of_bound(queue);
    model::lemma_shard_of_bound(other.queue);
    model::lemma_shard_of_bound(dead);
    if other.delivery_count >= other.max_delivery {
        let given_up = e.with_disk(e.log_dead_letter(other, now)).with_shard(
            other.queue,
            e.shard(other.queue).mark_acked(other.id).tombstone(other.queue, other.id),
        );
        if other.queue == queue {
            lemma_tombstone_keeps_ready(e.shard(queue).queues[queue], other.id, msg.id);
        }
        assert(is_ready(given_up, queue, msg));
        if dead == queue {
            lemma_insert_keeps_ready(
                given_up.shard(queue).queues[queue],
                other.id,
                now,
                now,
                msg.id,
            );
        }
    } else if other.queue == queue {
        lemma_insert_keeps_ready(e.shard(queue).queues[queue], other.id, now, now, msg.id);
    }
}

/// The message is known to be acknowledged at its shard and is not in memory there.
pub open spec fn is_gone(e: EngineView, at: int, id: u128) -> bool {
    e.shards[at].acked.contains(id) && !e.shards[at].messages.contains_key(id)
}

proof fn lemma_route_keeps_gone(e: EngineView, other: MsgView, now: u64, at: int, id: u128)
    requires
        e.shards.len() == NUM_SHARDS,
        0 <= at < NUM_SHARDS,
        is_gone(e, at, id),
        other.id != id,
    ensures
        is_gone(e.route(other, now), at, id),
{
    model::lemma_shard_of_bound(other.queue);
    model::lemma_shard_of_bound(model::dlq_name(other.queue));
}

/// Where a message whose lease ran out is after the routing.
spec fn is_routed(e: EngineView, msg: MsgView, now: u64) -> bool {
    if msg.delivery_count < msg.max_delivery {
        is_ready(e, msg.queue, MsgView { visible_at: now, ..msg })
    } else {
        let dead = msg.queue + ".dlq"@;
        &&& is_ready(e, dead, MsgView { queue: dead, visible_at: now, ..msg })
        &&& is_gone(e, model::shard_of(msg.queue), msg.id)
    }
}

proof fn lemma_route_all_routes(e: EngineView, msgs: Seq<MsgView>, now: u64, k: int)
    requires
        e.shards.len() == NUM_SHARDS,
        0 <= k < msgs.len(),
        forall|i: int, j: int|
            0 <= i < j < msgs.len() ==> (#[trigger] msgs[i]).id != (#[trigger] msgs[j]).id,
        !e.shard(msgs[k].queue).messages.contains_key(msgs[k].id),
    ensures
        is_routed(e.route_all(msgs, now), msgs[k], now),
    decreases msgs.len(),
{
    let head = msgs.drop_last();
    let msg = msgs[k];
    let dead = model::dlq_name(msg.queue);
    let last = msgs.last();
    assert(last == msgs[msgs.len() - 1]);
    let p = e.route_all(head, now);
    model::lemma_shard_of_bound(msg.queue);
    model::lemma_shard_of_bound(dead);
    model::law_dead_letters_go_to_another_shard(msg.queue);
    crate::engine::laws::lemma_route_all_wheels(e, head, now);
    if k < head.len() {
        assert(head[k] == msg);
        assert forall|i: int, j: int| 0 <= i < j < head.len() implies (#[trigger] head[i]).id != (
        #[trigger] head[j]).id by {
            assert(msgs[i].id != msgs[j].id);
        }
        lemma_route_all_routes(e, head, now, k);
        assert(msgs[k].id != msgs[msgs.len() - 1].id);
        if msg.delivery_count < msg.max_delivery {
            lemma_route_keeps_ready(p, last, now, msg.queue, MsgView { visible_at: now, ..msg });
        } else {
            lemma_route_keeps_ready(
                p,
                last,
                now,
                dead,
                MsgView { queue: dead, visible_at: now, ..msg },
            );
            lemma_route_keeps_gone(p, last, now, model::shard_of(msg.queue), msg.id);
        }
    } else {
        assert forall|i: int| 0 <= i < head.len() implies (#[trigger] head[i]).id != msg.id by {
            assert(msgs[i].id != msgs[k].id);
        }
        lemma_route_all_absent(e, head, now, model::shard_of(msg.queue), msg.id);
        let r = p.route(msg, now);
        if msg.delivery_count < msg.max_delivery {
            let q = p.shard(msg.queue).queue(msg.queue, now);
            assert(r.shard(msg.queue).queues[msg.queue].ready[q.ready.len() as int] == msg.id);
        } else {
            let q = p.shard(dead).queue(dead, now);
            assert(r.shard(dead).queues[dead].ready[q.ready.len() as int] == msg.id);
        }
    }
}

proof fn lemma_route_all_absent(e: EngineView, msgs: Seq<MsgView>, now: u64, at: int, id: u128)
    requires
        e.shards.len() == NUM_SHARDS,
        0 <= at < NUM_SHARDS,
        !e.shards[at].messages.contains_key(id),
        forall|i: int| 0 <= i < msgs.len() ==> (#[trigger] msgs[i]).id != id,
    ensures
        e.route_all(msgs, now).shards.len() == NUM_SHARDS,
        !e.route_all(msgs, now).shards[at].messages.contains_key(id),
    decreases msgs.len(),
{
    if msgs.len() > 0 {
        let head = msgs.drop_last();
        assert forall|i: int| 0 <= i < head.len() implies (#[trigger] head[i]).id != id by {
            assert(head[i] == msgs[i]);
        }
        assert(msgs.last() == msgs[msgs.len() - 1]);
        lemma_route_all_absent(e, head, now, at, id);
        model::lemma_shard_of_bound(msgs.last().queue);
        model::lemma_shard_of_bound(model::dlq_name(msgs.last().queue));
    }
}

/// A message whose lease has run out by `now` comes back to its queue, as it was, if it was
/// delivered less often than the engine was opened with; else it leaves its queue for good and
/// is ready, as it was, in the queue of the same name with ".dlq" behind it.
pub proof fn law_ended_lease_returns_or_gives_up(
    e: EngineView,
    queue: Seq<char>,
    item: ItemView,
    now: u64,
)
    requires
        e.inv(),
        limits_hold(e),
        e.shard(queue).wheel.wf(),
        !e.shard(queue).wheel.index.dom().is_empty(),
        timer_wheel::in_wheel(e.shard(queue).wheel, item),
        e.shard(queue).wheel.sweep_base(now) < item.expire_at <= now,
        e.shard(queue).messages.contains_key(item.id),
    ensures
        ({
            let msg = e.shard(queue).messages[item.id];
            let post = e.expire(queue, now);
            let dead = msg.queue + ".dlq"@;
            if msg.delivery_count < e.options.max_delivery_count {
                &&& is_ready(post, msg.queue, MsgView { visible_at: now, ..msg })
                &&& sequences::awaits(post, msg.queue, item.id, now)
            } else {
                &&& is_ready(post, dead, MsgView { queue: dead, visible_at: now, ..msg })
                &&& sequences::awaits(post, dead, item.id, now)
                &&& is_gone(post, model::shard_of(msg.queue), item.id)
            }
        }),
{
    model::lemma_shard_of_bound(queue);
    let at = model::shard_of(queue);
    let s = e.shard(queue);
    assert(model::shard_holds(e.shards[at], at));
    assert(shard_limits(e.shards[at], e.options.max_delivery_count));
    let msg = s.messages[item.id];
    timer_wheel::law_collect_is_complete(s.wheel, now, item);
    let items = s.wheel.collect(now).1;
    let i = choose|i: int| 0 <= i < items.len() && items[i] == item;
    assert(items[i].id == item.id);
    lemma_taken_all(s.messages, items, item.id);
    model::lemma_take_expired(s, at, now);
    let (r, taken) = s.take_expired(now);
    let k = choose|k: int| 0 <= k < taken.len() && taken[k] == msg;
    assert(model::shard_of(msg.queue) == at);
    lemma_route_all_routes(e.with_shard(queue, r), taken, now, k);
}

}
