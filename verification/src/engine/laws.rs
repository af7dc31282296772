//! What holds of the engine across operations: order and timing of delivery, receipts,
//! acknowledged messages, dead letters and the bound on memory.
use vstd::prelude::*;

use crate::engine::exclusive;
use crate::engine::model;
use crate::engine::model::{EngineView, PushView, NUM_SHARDS};
use crate::engine::shard;
use crate::engine::shard::{MsgView, ShardView};
use crate::engine::single_queue;
use crate::engine::single_queue::{FarFutureItem, QueueView, HOT_DELAY_HORIZON_SEC};
use crate::engine::timer_wheel;
use crate::engine::timer_wheel::ItemView;
use crate::engine::wal::RecordView;
use crate::ids;

verus! {

/// No tombstone stands for a ready message.
pub open spec fn ready_is_live(q: QueueView) -> bool {
    forall|i: int| 0 <= i < q.ready.len() ==> !q.deleted.contains(#[trigger] q.ready[i])
}

/// Ready messages come out in the order in which they became ready.
pub proof fn law_ready_messages_come_out_in_order(q: QueueView, max: nat)
    requires
        ready_is_live(q),
    ensures
        ({
            let n = if max <= q.ready.len() {
                max as int
            } else {
                q.ready.len() as int
            };
            &&& q.claim(max).1 == q.ready.take(n)
            &&& q.claim(max).0.ready == q.ready.skip(n)
        }),
    decreases max,
{
    if max > 0 && q.ready.len() > 0 {
        let p = QueueView { ready: q.ready.drop_first(), ..q };
        assert(!q.deleted.contains(q.ready[0]));
        assert(q.pop() == (p, Some(q.ready[0])));
        assert forall|i: int| 0 <= i < p.ready.len() implies !p.deleted.contains(#[trigger] p.ready[i]) by {
            assert(p.ready[i] == q.ready[i + 1]);
        }
        let m = (max - 1) as nat;
        law_ready_messages_come_out_in_order(p, m);
        let k = if m <= p.ready.len() {
            m as int
        } else {
            p.ready.len() as int
        };
        assert(seq![q.ready[0]] + p.ready.take(k) =~= q.ready.take(k + 1));
        assert(p.ready.skip(k) =~= q.ready.skip(k + 1));
    } else if max > 0 {
        assert(q.claim(max).1 =~= q.ready.take(0));
        assert(q.claim(max).0.ready =~= q.ready.skip(0));
    } else {
        assert(q.claim(max).1 =~= q.ready.take(0));
        assert(q.claim(max).0.ready =~= q.ready.skip(0));
    }
}

/// Messages without a delay queue up behind those that are ready.
pub proof fn law_pushed_messages_queue_up(q: QueueView, first: u128, second: u128, now: u64)
    ensures
        q.insert(first, now, now).insert(second, now, now).ready == q.ready.push(first).push(second),
{
}

proof fn lemma_settle_ready(q: QueueView, ids: Seq<u128>)
    ensures
        forall|x: u128| #[trigger]
            q.settle(ids).ready.contains(x) ==> q.ready.contains(x) || ids.contains(x),
        forall|x: u128| #[trigger] q.ready.contains(x) ==> q.settle(ids).ready.contains(x),
        forall|x: u128| #[trigger] q.settle(ids).deleted.contains(x) ==> q.deleted.contains(x),
        forall|i: int|
            0 <= i < ids.len() && !q.deleted.contains(ids[i]) ==> q.settle(ids).ready.contains(
                #[trigger] ids[i],
            ),
    decreases ids.len(),
{
    if ids.len() > 0 {
        let head = ids.drop_last();
        let id = ids.last();
        lemma_settle_ready(q, head);
        let p = q.settle(head);
        let r = q.settle(ids);
        assert(ids[ids.len() - 1] == id);
        assert forall|x: u128| head.contains(x) implies ids.contains(x) by {
            let i = choose|i: int| 0 <= i < head.len() && head[i] == x;
            assert(ids[i] == x);
        }
        assert forall|x: u128| #[trigger] p.ready.contains(x) implies r.ready.contains(x) by {
            let i = choose|i: int| 0 <= i < p.ready.len() && p.ready[i] == x;
            assert(r.ready[i] == x);
        }
        assert forall|x: u128| #[trigger] r.ready.contains(x) implies q.ready.contains(x)
            || ids.contains(x) by {
            let i = choose|i: int| 0 <= i < r.ready.len() && r.ready[i] == x;
            if i < p.ready.len() {
                assert(p.ready[i] == x);
                assert(p.ready.contains(x));
            }
        }
        assert forall|i: int| 0 <= i < ids.len() && !q.deleted.contains(ids[i]) implies r.ready.contains(
            #[trigger] ids[i],
        ) by {
            if i < head.len() {
                assert(head[i] == ids[i]);
            } else {
                assert(!p.deleted.contains(id));
                assert(r.ready[p.ready.len() as int] == id);
            }
        }
    }
}

pub proof fn lemma_drain_ready(q: QueueView, now: u64)
    requires
        q.hot.dom().finite(),
    ensures
        forall|x: u128| #[trigger]
            q.drain(now).ready.contains(x) ==> q.ready.contains(x) || exists|sec: u64| #[trigger]
                q.hot.contains_key(sec) && sec <= now && q.hot[sec].contains(x),
        forall|x: u128| #[trigger] q.ready.contains(x) ==> q.drain(now).ready.contains(x),
        forall|sec: u64, x: u128|
            q.hot.contains_key(sec) && sec <= now && #[trigger] q.hot[sec].contains(x)
                && !q.deleted.contains(x) ==> q.drain(now).ready.contains(x),
        forall|sec: u64| #[trigger] q.drain(now).hot.contains_key(sec) ==> sec > now,
    decreases q.hot.dom().len(),
{
    if exists|sec: u64| single_queue::is_next_due(q.hot, now, sec) {
        let due = choose|sec: u64| single_queue::is_next_due(q.hot, now, sec);
        let bucket = q.hot[due];
        lemma_settle_ready(q, bucket);
        let settled = q.settle(bucket);
        let r = QueueView { hot: q.hot.remove(due), ..settled };
        lemma_drain_ready(r, now);
        let d = q.drain(now);
        assert(d == r.drain(now));
        assert forall|x: u128| #[trigger] d.ready.contains(x) implies q.ready.contains(x) || exists|
            sec: u64,
        | #[trigger]
            q.hot.contains_key(sec) && sec <= now && q.hot[sec].contains(x) by {
            if r.ready.contains(x) {
                if bucket.contains(x) {
                    assert(q.hot.contains_key(due));
                }
            } else {
                let sec = choose|sec: u64| #[trigger]
                    r.hot.contains_key(sec) && sec <= now && r.hot[sec].contains(x);
                assert(q.hot.contains_key(sec) && q.hot[sec].contains(x));
            }
        }
        assert forall|x: u128| #[trigger] q.ready.contains(x) implies d.ready.contains(x) by {
            assert(r.ready.contains(x));
        }
        assert forall|sec: u64, x: u128|
            q.hot.contains_key(sec) && sec <= now && #[trigger] q.hot[sec].contains(x)
                && !q.deleted.contains(x) implies d.ready.contains(x) by {
            if sec == due {
                let i = choose|i: int| 0 <= i < bucket.len() && bucket[i] == x;
                assert(settled.ready.contains(bucket[i]));
                assert(r.ready.contains(x));
            } else {
                assert(r.hot.contains_key(sec) && r.hot[sec].contains(x));
                assert(!r.deleted.contains(x));
            }
        }
    } else {
        assert forall|sec: u64| #[trigger] q.drain(now).hot.contains_key(sec) implies sec > now by {
            if sec <= now {
                lemma_has_next_due(q.hot, now, sec);
            }
        }
    }
}

/// Where a bucket is due, one is the earliest.
proof fn lemma_has_next_due(hot: Map<u64, Seq<u128>>, now: u64, sec: u64)
    requires
        hot.contains_key(sec),
        sec <= now,
    ensures
        exists|s: u64| single_queue::is_next_due(hot, now, s),
    decreases sec,
{
    if forall|other: u64| #[trigger] hot.contains_key(other) ==> sec <= other {
        assert(single_queue::is_next_due(hot, now, sec));
    } else {
        let other = choose|other: u64| #[trigger] hot.contains_key(other) && other < sec;
        lemma_has_next_due(hot, now, other);
    }
}

pub proof fn lemma_promote_hot(q: QueueView, items: Seq<FarFutureItem>, now: u64)
    ensures
        q.promote(items, now).ready == q.ready,
        q.promote(items, now).deleted == q.deleted,
        q.hot.dom().finite() ==> q.promote(items, now).hot.dom().finite(),
        forall|sec: u64, x: u128|
            q.promote(items, now).hot.contains_key(sec) && #[trigger] q.promote(
                items,
                now,
            ).hot[sec].contains(x) ==> (q.hot.contains_key(sec) && q.hot[sec].contains(x)) || exists|
                i: int,
            |
                0 <= i < items.len() && (#[trigger] items[i]).id == x && items[i].visible_at == sec,
        forall|sec: u64, x: u128|
            q.hot.contains_key(sec) && #[trigger] q.hot[sec].contains(x) ==> q.promote(
                items,
                now,
            ).hot.contains_key(sec) && q.promote(items, now).hot[sec].contains(x),
    decreases items.len(),
{
    if items.len() > 0 {
        let head = items.drop_last();
        let item = items.last();
        lemma_promote_hot(q, head, now);
        let p = q.promote(head, now);
        let r = q.promote(items, now);
        let target = item.visible_at;
        assert(items[items.len() - 1] == item);
        let moved = !q.deleted.contains(item.id) && item.visible_at <= now + HOT_DELAY_HORIZON_SEC;
        if moved {
            assert(r.hot == single_queue::with_bucketed(p.hot, target, item.id));
            if p.hot.contains_key(target) {
                assert forall|x: u128| #[trigger] r.hot[target].contains(x) <==> p.hot[target].contains(x)
                    || x == item.id by {
                    let s = p.hot[target];
                    assert(r.hot[target] == s.push(item.id));
                    if s.contains(x) {
                        let i = choose|i: int| 0 <= i < s.len() && s[i] == x;
                        assert(s.push(item.id)[i] == x);
                    }
                    if x == item.id {
                        assert(s.push(item.id)[s.len() as int] == x);
                    }
                }
            }
        }
        assert forall|sec: u64, x: u128|
            r.hot.contains_key(sec) && #[trigger] r.hot[sec].contains(x) implies (q.hot.contains_key(
            sec,
        ) && q.hot[sec].contains(x)) || exists|i: int|
            0 <= i < items.len() && (#[trigger] items[i]).id == x && items[i].visible_at == sec by {
            if p.hot.contains_key(sec) && p.hot[sec].contains(x) {
                if !(q.hot.contains_key(sec) && q.hot[sec].contains(x)) {
                    let i = choose|i: int|
                        0 <= i < head.len() && (#[trigger] head[i]).id == x && head[i].visible_at
                            == sec;
                    assert(items[i].id == x);
                }
            } else {
                assert(moved && sec == target && x == item.id);
                assert(items[items.len() - 1].id == x);
            }
        }
        assert forall|sec: u64, x: u128|
            q.hot.contains_key(sec) && #[trigger] q.hot[sec].contains(x) implies r.hot.contains_key(
            sec,
        ) && r.hot[sec].contains(x) by {
            assert(p.hot.contains_key(sec) && p.hot[sec].contains(x));
        }
    }
}

/// The id waits in the queue until `visible_at`, if at all: it is not ready, and where it is
/// filed, it is filed under that second.
pub open spec fn waits_until(q: QueueView, id: u128, visible_at: u64) -> bool {
    &&& !q.ready.contains(id)
    &&& forall|sec: u64| #[trigger]
        q.hot.contains_key(sec) && q.hot[sec].contains(id) ==> sec == visible_at
    &&& forall|i: int|
        0 <= i < q.far.len() && (#[trigger] q.far[i]).id == id ==> q.far[i].visible_at == visible_at
}

pub proof fn lemma_promote_far(q: QueueView, items: Seq<FarFutureItem>, now: u64)
    ensures
        forall|i: int|
            0 <= i < q.promote(items, now).far.len() ==> items.contains(
                #[trigger] q.promote(items, now).far[i],
            ),
    decreases items.len(),
{
    if items.len() > 0 {
        let head = items.drop_last();
        lemma_promote_far(q, head, now);
        let p = q.promote(head, now);
        let r = q.promote(items, now);
        assert forall|i: int| 0 <= i < r.far.len() implies items.contains(#[trigger] r.far[i]) by {
            if i < p.far.len() {
                assert(r.far[i] == p.far[i]);
                let j = choose|j: int| 0 <= j < head.len() && head[j] == p.far[i];
                assert(items[j] == r.far[i]);
            } else {
                assert(items[items.len() - 1] == r.far[i]);
            }
        }
    }
}

pub proof fn lemma_settle_hot(q: QueueView, ids: Seq<u128>)
    ensures
        q.settle(ids).hot == q.hot,
        q.settle(ids).far == q.far,
    decreases ids.len(),
{
    if ids.len() > 0 {
        lemma_settle_hot(q, ids.drop_last());
    }
}

pub proof fn lemma_drain_hot(q: QueueView, now: u64)
    requires
        q.hot.dom().finite(),
    ensures
        q.drain(now).hot.submap_of(q.hot),
        q.drain(now).far == q.far,
    decreases q.hot.dom().len(),
{
    if exists|sec: u64| single_queue::is_next_due(q.hot, now, sec) {
        let due = choose|sec: u64| single_queue::is_next_due(q.hot, now, sec);
        lemma_settle_hot(q, q.hot[due]);
        let r = QueueView { hot: q.hot.remove(due), ..q.settle(q.hot[due]) };
        lemma_drain_hot(r, now);
        assert(r.hot.submap_of(q.hot));
        assert forall|sec: u64| #[trigger] q.drain(now).hot.contains_key(sec) implies q.hot.contains_key(
            sec,
        ) && q.drain(now).hot[sec] == q.hot[sec] by {
            assert(r.hot.dom().contains(sec));
        }
    }
}

/// A delayed message is filed under its second, whatever its delay.
pub proof fn law_delayed_message_waits(q: QueueView, id: u128, visible_at: u64, pushed_at: u64)
    requires
        !exclusive::queued(q, id),
        pushed_at < visible_at,
    ensures
        waits_until(q.insert(id, visible_at, pushed_at), id, visible_at),
{
    let r = q.insert(id, visible_at, pushed_at);
    assert forall|sec: u64| #[trigger] r.hot.contains_key(sec) && r.hot[sec].contains(id) implies sec
        == visible_at by {
        if q.hot.contains_key(sec) && q.hot[sec].contains(id) {
            assert(exclusive::in_hot(q.hot, id));
        }
    }
    assert forall|i: int| 0 <= i < r.far.len() && (#[trigger] r.far[i]).id == id implies r.far[i].visible_at
        == visible_at by {
        if i < q.far.len() {
            assert(q.far[i].id == id);
            assert(exclusive::in_far(q.far, id));
        }
    }
}

/// A delayed message goes on waiting while its time has not come, however often the queue is
/// brought to the present.
pub proof fn law_waiting_message_waits_on(q: QueueView, id: u128, visible_at: u64, now: u64)
    requires
        q.hot.dom().finite(),
        waits_until(q, id, visible_at),
        now < visible_at,
    ensures
        waits_until(q.advance(now), id, visible_at),
{
    if now >= q.last_drained_sec {
        lemma_promote_hot(q, q.far, now);
        lemma_promote_far(q, q.far, now);
        let p = q.promote(q.far, now);
        lemma_drain_ready(p, now);
        lemma_drain_hot(p, now);
        let d = p.drain(now);
        assert forall|sec: u64| #[trigger] p.hot.contains_key(sec) && p.hot[sec].contains(id) implies sec
            == visible_at by {
            assert(p.hot[sec].contains(id));
            if q.hot.contains_key(sec) && q.hot[sec].contains(id) {
            } else {
                let i = choose|i: int|
                    0 <= i < q.far.len() && (#[trigger] q.far[i]).id == id && q.far[i].visible_at
                        == sec;
                assert(q.far[i].visible_at == visible_at);
            }
        }
        if d.ready.contains(id) {
            let sec = choose|sec: u64| #[trigger]
                p.hot.contains_key(sec) && sec <= now && p.hot[sec].contains(id);
            assert(sec == visible_at);
        }
        assert forall|sec: u64| #[trigger] d.hot.contains_key(sec) && d.hot[sec].contains(id) implies sec
            == visible_at by {
            assert(p.hot.contains_key(sec));
        }
        assert forall|i: int| 0 <= i < d.far.len() && (#[trigger] d.far[i]).id == id implies d.far[i].visible_at
            == visible_at by {
            assert(q.far.contains(p.far[i]));
            let j = choose|j: int| 0 <= j < q.far.len() && q.far[j] == p.far[i];
            assert(q.far[j].id == id);
        }
        let a = q.advance(now);
        assert(a.ready == d.ready && a.hot == d.hot && a.far == d.far);
    }
}

/// A message with a delay is not ready before its time, whatever its delay.
pub proof fn law_delayed_message_is_not_early(
    q: QueueView,
    id: u128,
    visible_at: u64,
    pushed_at: u64,
    now: u64,
)
    requires
        q.hot.dom().finite(),
        !exclusive::queued(q, id),
        pushed_at < visible_at,
        now < visible_at,
    ensures
        !q.insert(id, visible_at, pushed_at).advance(now).ready.contains(id),
{
    law_delayed_message_waits(q, id, visible_at, pushed_at);
    law_waiting_message_waits_on(q.insert(id, visible_at, pushed_at), id, visible_at, now);
}

pub proof fn lemma_promote_reaches(q: QueueView, items: Seq<FarFutureItem>, now: u64, k: int)
    requires
        0 <= k < items.len(),
        !q.deleted.contains(items[k].id),
        items[k].visible_at <= now + HOT_DELAY_HORIZON_SEC,
    ensures
        q.promote(items, now).hot.contains_key(items[k].visible_at),
        q.promote(items, now).hot[items[k].visible_at].contains(items[k].id),
    decreases items.len(),
{
    let head = items.drop_last();
    let item = items.last();
    let p = q.promote(head, now);
    let r = q.promote(items, now);
    let at = items[k].visible_at;
    if k < head.len() {
        assert(head[k] == items[k]);
        lemma_promote_reaches(q, head, now, k);
        let s = p.hot[at];
        let i = choose|i: int| 0 <= i < s.len() && s[i] == items[k].id;
        assert(r.hot[at][i] == items[k].id);
    } else {
        let s = r.hot[at];
        assert(s[s.len() - 1] == items[k].id);
    }
}

/// A message with a delay is ready once its time has come, whatever its delay.
pub proof fn law_delayed_message_becomes_ready(
    q: QueueView,
    id: u128,
    visible_at: u64,
    pushed_at: u64,
    now: u64,
)
    requires
        q.hot.dom().finite(),
        visible_at <= now,
        q.last_drained_sec <= now,
    ensures
        q.insert(id, visible_at, pushed_at).advance(now).ready.contains(id),
{
    let r = q.insert(id, visible_at, pushed_at);
    lemma_promote_hot(r, r.far, now);
    let p = r.promote(r.far, now);
    lemma_drain_ready(p, now);
    if visible_at <= pushed_at {
        assert(r.ready[q.ready.len() as int] == id);
        assert(p.ready.contains(id));
    } else if visible_at <= pushed_at + HOT_DELAY_HORIZON_SEC {
        assert(r.hot.contains_key(visible_at));
        if q.hot.contains_key(visible_at) {
            assert(r.hot[visible_at][q.hot[visible_at].len() as int] == id);
        } else {
            assert(r.hot[visible_at][0] == id);
        }
        assert(r.hot[visible_at].contains(id));
        assert(p.hot.contains_key(visible_at) && p.hot[visible_at].contains(id));
    } else {
        let k = q.far.len() as int;
        assert(r.far[k].id == id && r.far[k].visible_at == visible_at);
        lemma_promote_reaches(r, r.far, now, k);
        assert(p.hot[visible_at].contains(id));
    }
}

/// Pushing never takes the count of messages in memory beyond its bound.
pub proof fn law_push_respects_memory_bound(
    e: EngineView,
    queue: Seq<char>,
    id: u128,
    payload: Seq<u8>,
    visible_at: u64,
    now: u64,
    post: EngineView,
)
    requires
        e.pushes_to(queue, id, payload, visible_at, now, post),
    ensures
        post.total_in_ram <= e.total_in_ram || post.total_in_ram
            <= e.options.max_hot_messages_in_ram,
{
    if !e.shard(queue).seen.contains(id) {
        model::lemma_wrap(e.total_in_ram + 1);
    }
}

/// Pushing a batch never takes the count of messages in memory beyond its bound.
pub proof fn law_batch_push_respects_memory_bound(
    e: EngineView,
    queue: Seq<char>,
    ids: Seq<u128>,
    items: Seq<PushView>,
    now: u64,
    post: EngineView,
)
    requires
        e.batch_pushes_to(queue, ids, items, now, post),
    ensures
        post.total_in_ram <= e.total_in_ram || post.total_in_ram
            <= e.options.max_hot_messages_in_ram,
{
    lemma_batch_bound(e, queue, ids, items, now);
}

proof fn lemma_batch_bound(
    e: EngineView,
    queue: Seq<char>,
    ids: Seq<u128>,
    items: Seq<PushView>,
    now: u64,
)
    ensures
        e.batch(queue, ids, items, now).options == e.options,
        e.batch(queue, ids, items, now).total_in_ram <= e.total_in_ram || e.batch(
            queue,
            ids,
            items,
            now,
        ).total_in_ram <= e.options.max_hot_messages_in_ram,
    decreases ids.len(),
{
    if ids.len() > 0 {
        lemma_batch_bound(e, queue, ids.drop_last(), items, now);
        model::lemma_wrap(e.batch(queue, ids.drop_last(), items, now).total_in_ram + 1);
    }
}

/// A push beyond the horizon or beyond the bound leaves memory as it was, but for the note
/// that the id was seen.
pub proof fn law_spilled_push_takes_no_memory(
    e: EngineView,
    queue: Seq<char>,
    id: u128,
    payload: Seq<u8>,
    visible_at: u64,
    now: u64,
    post: EngineView,
)
    requires
        e.inv(),
        e.pushes_to(queue, id, payload, visible_at, now, post),
        visible_at > now + HOT_DELAY_HORIZON_SEC || e.total_in_ram
            >= e.options.max_hot_messages_in_ram,
    ensures
        post.total_in_ram == e.total_in_ram,
        post.shard(queue).messages == e.shard(queue).messages,
        post.shard(queue).queues == e.shard(queue).queues,
{
    model::lemma_shard_of_bound(queue);
}

/// A message that was pushed but is only on disk is paged in when a scan of the log comes
/// across it within the horizon and there is room, unless it was acknowledged.
pub proof fn law_spilled_message_is_paged_in(
    e: EngineView,
    queue: Seq<char>,
    id: u128,
    payload: Seq<u8>,
    visible_at: u64,
    now: u64,
)
    requires
        e.inv(),
        !e.shard(queue).messages.contains_key(id),
        !e.shard(queue).acked.contains(id),
        !e.is_full(),
        visible_at <= now + HOT_DELAY_HORIZON_SEC,
    ensures
        ({
            let record = RecordView::Push { msg_id: id, queue_name: queue, visible_at, payload };
            let post = e.page_record(record, now);
            &&& e.pages_in(record, now)
            &&& post.shard(queue).messages.contains_key(id)
            &&& post.shard(queue).messages[id] == e.fresh_msg(id, queue, payload, visible_at)
            &&& post.shard(queue).queues.contains_key(queue)
            &&& exclusive::queued(post.shard(queue).queues[queue], id)
        }),
{
    model::lemma_shard_of_bound(queue);
    let q = e.shard(queue).queue(queue, now);
    lemma_inserted_is_queued(q, id, visible_at, now);
}

proof fn lemma_inserted_is_queued(q: QueueView, id: u128, visible_at: u64, now: u64)
    ensures
        exclusive::queued(q.insert(id, visible_at, now), id),
{
    let r = q.insert(id, visible_at, now);
    if visible_at <= now {
        assert(r.ready[q.ready.len() as int] == id);
    } else if visible_at <= now + HOT_DELAY_HORIZON_SEC {
        assert(r.hot.contains_key(visible_at));
        if q.hot.contains_key(visible_at) {
            assert(r.hot[visible_at][q.hot[visible_at].len() as int] == id);
        } else {
            assert(r.hot[visible_at][0] == id);
        }
        assert(r.hot[visible_at].contains(id));
    } else {
        assert(r.far[q.far.len() as int].id == id);
    }
}

/// Pushing an id a second time changes the log only, and not even that once the message is
/// acknowledged.
pub proof fn law_second_push_changes_log_only(
    e: EngineView,
    queue: Seq<char>,
    id: u128,
    payload: Seq<u8>,
    visible_at: u64,
    now: u64,
    mid: EngineView,
    again: Seq<u8>,
    again_at: u64,
    later: u64,
    post: EngineView,
)
    requires
        e.inv(),
        e.pushes_to(queue, id, payload, visible_at, now, mid),
        mid.pushes_to(queue, id, again, again_at, later, post),
    ensures
        post == if mid.shard(queue).acked.contains(id) {
            mid
        } else {
            mid.with_disk(mid.disk.append_push(id, queue, again_at, again).flush())
        },
{
    model::lemma_shard_of_bound(queue);
}

/// The message was acknowledged: the queue's shard has seen it, knows it is done with, and
/// does not keep it.
pub open spec fn gone(e: EngineView, queue: Seq<char>, id: u128) -> bool {
    let s = e.shard(queue);
    s.seen.contains(id) && s.acked.contains(id) && !s.messages.contains_key(id)
}

/// An acknowledged message is gone.
pub proof fn law_acked_message_is_gone(
    e: EngineView,
    queue: Seq<char>,
    id: u128,
    post: EngineView,
)
    requires
        e.inv(),
        e.shard(queue).seen.contains(id),
        e.acks_to(queue, id, post) || e.follower_acks_to(queue, id, post),
    ensures
        gone(post, queue, id),
{
    model::lemma_shard_of_bound(queue);
    let by_lease = e.ack_lease(queue, id).with_disk(e.disk.append_ack(id, queue).flush());
    let by_log = e.apply_ack(queue, id).with_disk(e.disk.append_ack(id, queue).flush());
    assert(by_lease.shard(queue) == e.shard(queue).ack_lease(queue, id));
    assert(by_log.shard(queue) == e.shard(queue).apply_ack(queue, id));
}

/// What is gone does not come back with a push, whatever it pushes.
pub proof fn law_gone_message_is_not_pushed_back(
    e: EngineView,
    queue: Seq<char>,
    id: u128,
    other_queue: Seq<char>,
    other_id: u128,
    payload: Seq<u8>,
    visible_at: u64,
    now: u64,
    post: EngineView,
)
    requires
        e.inv(),
        gone(e, queue, id),
        e.pushes_to(other_queue, other_id, payload, visible_at, now, post),
    ensures
        gone(post, queue, id),
{
    model::lemma_shard_of_bound(queue);
    model::lemma_shard_of_bound(other_queue);
}

/// What is gone does not come back when the log is read again.
pub proof fn law_gone_message_is_not_paged_in(
    e: EngineView,
    queue: Seq<char>,
    id: u128,
    records: Seq<RecordView>,
    now: u64,
)
    requires
        e.inv(),
        gone(e, queue, id),
    ensures
        gone(e.page_records(records, now), queue, id),
        e.page_records(records, now).inv(),
    decreases records.len(),
{
    if records.len() > 0 {
        let head = records.drop_last();
        law_gone_message_is_not_paged_in(e, queue, id, head, now);
        let p = e.page_records(head, now);
        model::lemma_page_record_inv(p, records.last(), now);
        model::lemma_shard_of_bound(queue);
        model::lemma_shard_of_bound(model::queue_of(records.last()));
    }
}

pub proof fn lemma_lease_frame(
    s: ShardView,
    name: Seq<char>,
    ids: Seq<u128>,
    receipts: Seq<Seq<char>>,
    expire_at: u64,
)
    ensures
        s.lease(name, ids, receipts, expire_at).0.seen == s.seen,
        s.lease(name, ids, receipts, expire_at).0.acked == s.acked,
        s.lease(name, ids, receipts, expire_at).0.messages.dom() == s.messages.dom(),
    decreases ids.len(),
{
    if ids.len() > 0 {
        lemma_lease_frame(s, name, ids.drop_last(), receipts, expire_at);
        let p = s.lease(name, ids.drop_last(), receipts, expire_at).0;
        assert(s.lease(name, ids, receipts, expire_at).0.messages.dom() =~= p.messages.dom());
    }
}

/// A poll hands out only messages that are in memory; what is gone is not among them, and
/// stays gone.
pub proof fn law_gone_message_is_not_delivered(
    e: EngineView,
    queue: Seq<char>,
    id: u128,
    now: u64,
    max: nat,
    receipts: Seq<Seq<char>>,
    expire_at: u64,
)
    requires
        e.inv(),
        gone(e, queue, id),
    ensures
        ({
            let (claimed, ids) = e.claim(queue, now, max);
            let (post, polled) = claimed.lease(queue, ids, receipts, expire_at);
            &&& forall|k: int|
                0 <= k < polled.len() ==> (#[trigger] polled[k]).message_id != ids::ulid_text(id)
            &&& gone(post, queue, id)
        }),
{
    model::lemma_shard_of_bound(queue);
    let (claimed, ids) = e.claim(queue, now, max);
    let c = claimed.shard(queue);
    lemma_lease_frame(c, queue, ids, receipts, expire_at);
    lemma_polled_in_memory(c, queue, ids, receipts, expire_at, id);
    let post = claimed.lease(queue, ids, receipts, expire_at).0;
    let r = c.lease(queue, ids, receipts, expire_at).0;
    assert(post.shard(queue) == r);
    assert(r.messages.dom().contains(id) == c.messages.dom().contains(id));
}

proof fn lemma_polled_in_memory(
    s: ShardView,
    name: Seq<char>,
    ids: Seq<u128>,
    receipts: Seq<Seq<char>>,
    expire_at: u64,
    id: u128,
)
    requires
        !s.messages.contains_key(id),
    ensures
        forall|k: int|
            0 <= k < s.lease(name, ids, receipts, expire_at).1.len() ==> (#[trigger] s.lease(
                name,
                ids,
                receipts,
                expire_at,
            ).1[k]).message_id != ids::ulid_text(id),
    decreases ids.len(),
{
    if ids.len() > 0 {
        let head = ids.drop_last();
        lemma_polled_in_memory(s, name, head, receipts, expire_at, id);
        lemma_lease_frame(s, name, head, receipts, expire_at);
        let (p, polled) = s.lease(name, head, receipts, expire_at);
        assert(!p.messages.dom().contains(id));
        ids::law_ulid_text_is_injective(ids.last(), id);
    }
}

proof fn lemma_lease_receipts(
    s: ShardView,
    name: Seq<char>,
    ids: Seq<u128>,
    receipts: Seq<Seq<char>>,
    expire_at: u64,
)
    requires
        ids.no_duplicates(),
    ensures
        ({
            let (r, polled) = s.lease(name, ids, receipts, expire_at);
            &&& forall|k: int|
                0 <= k < polled.len() ==> exists|j: int|
                    0 <= j < ids.len() && (#[trigger] polled[k]).message_id == ids::ulid_text(
                        #[trigger] ids[j],
                    ) && polled[k].receipt_handle == receipts[j] && r.wheel.holds(
                        ids[j],
                        receipts[j],
                    ) && r.wheel.index[ids[j]].2 == expire_at
            &&& forall|x: u128, receipt: Seq<char>|
                !ids.contains(x) ==> #[trigger] r.wheel.holds(x, receipt) == s.wheel.holds(
                    x,
                    receipt,
                )
        }),
    decreases ids.len(),
{
    if ids.len() > 0 {
        let head = ids.drop_last();
        let id = ids.last();
        assert forall|a: int, b: int| 0 <= a < head.len() && 0 <= b < head.len() && a
            != b implies head[a] != head[b] by {
            assert(ids[a] != ids[b]);
        }
        lemma_lease_receipts(s, name, head, receipts, expire_at);
        let (p, listed) = s.lease(name, head, receipts, expire_at);
        let (r, polled) = s.lease(name, ids, receipts, expire_at);
        assert(ids[ids.len() - 1] == id);
        assert(!head.contains(id)) by {
            if head.contains(id) {
                let j = choose|j: int| 0 <= j < head.len() && head[j] == id;
                assert(ids[j] == ids[ids.len() - 1]);
            }
        }
        assert forall|x: u128, receipt: Seq<char>| !ids.contains(x) implies #[trigger] r.wheel.holds(
            x,
            receipt,
        ) == s.wheel.holds(x, receipt) by {
            assert(x != id);
            if head.contains(x) {
                let j = choose|j: int| 0 <= j < head.len() && head[j] == x;
                assert(ids[j] == x);
            }
            assert(p.wheel.holds(x, receipt) == s.wheel.holds(x, receipt));
        }
        assert forall|k: int| 0 <= k < polled.len() implies exists|j: int|
            0 <= j < ids.len() && (#[trigger] polled[k]).message_id == ids::ulid_text(
                #[trigger] ids[j],
            ) && polled[k].receipt_handle == receipts[j] && r.wheel.holds(ids[j], receipts[j])
            && r.wheel.index[ids[j]].2 == expire_at by {
            if k < listed.len() {
                assert(polled[k] == listed[k]);
                let j = choose|j: int|
                    0 <= j < head.len() && listed[k].message_id == ids::ulid_text(
                        #[trigger] head[j],
                    ) && listed[k].receipt_handle == receipts[j] && p.wheel.holds(
                        head[j],
                        receipts[j],
                    ) && p.wheel.index[head[j]].2 == expire_at;
                assert(head[j] == ids[j]);
                assert(head.contains(ids[j]));
                assert(ids[j] != id);
                assert(r.wheel.holds(ids[j], receipts[j]));
            } else {
                let j = ids.len() - 1;
                assert(polled[k].message_id == ids::ulid_text(ids[j]));
                assert(r.wheel.holds(ids[j], receipts[j]));
            }
        }
    }
}

/// Every message of a poll can be acknowledged by the id and the receipt that came with it,
/// for as long as the lease runs.
pub proof fn law_polled_message_can_be_acked(
    e: EngineView,
    queue: Seq<char>,
    now: u64,
    max: nat,
    receipts: Seq<Seq<char>>,
    expire_at: u64,
    k: int,
    acked_at: u64,
)
    requires
        acked_at < expire_at,
        exclusive::all_exclusive(e),
        ({
            let (claimed, ids) = e.claim(queue, now, max);
            0 <= k < claimed.lease(queue, ids, receipts, expire_at).1.len()
        }),
    ensures
        ({
            let (claimed, ids) = e.claim(queue, now, max);
            let (post, polled) = claimed.lease(queue, ids, receipts, expire_at);
            post.ack_is_valid(
                queue,
                polled[k].message_id,
                polled[k].receipt_handle,
                acked_at,
            )
        }),
{
    model::lemma_shard_of_bound(queue);
    exclusive::law_poll_is_exclusive(e, queue, now, max, receipts, expire_at);
    let (claimed, ids) = e.claim(queue, now, max);
    let c = claimed.shard(queue);
    lemma_lease_receipts(c, queue, ids, receipts, expire_at);
    let (post, polled) = claimed.lease(queue, ids, receipts, expire_at);
    let r = c.lease(queue, ids, receipts, expire_at).0;
    assert(post.shard(queue) == r);
    let j = choose|j: int|
        0 <= j < ids.len() && polled[k].message_id == ids::ulid_text(#[trigger] ids[j])
            && polled[k].receipt_handle == receipts[j] && r.wheel.holds(ids[j], receipts[j])
            && r.wheel.index[ids[j]].2 == expire_at;
    ids::law_ulid_round_trip(ids[j]);
}

/// A message is acknowledged once: after an acknowledgement no receipt is accepted.
pub proof fn law_second_ack_is_refused(
    e: EngineView,
    queue: Seq<char>,
    id: u128,
    post: EngineView,
    id_text: Seq<char>,
    receipt: Seq<char>,
    now: u64,
)
    requires
        e.inv(),
        e.acks_to(queue, id, post),
        ids::id_value(id_text) == Some(id),
    ensures
        !post.ack_is_valid(queue, id_text, receipt, now),
{
    model::lemma_shard_of_bound(queue);
    timer_wheel::law_lease_ends_once(e.shard(queue).wheel, id, receipt);
}

pub proof fn lemma_route_all_wheels(e: EngineView, msgs: Seq<MsgView>, now: u64)
    requires
        e.shards.len() == NUM_SHARDS,
    ensures
        e.route_all(msgs, now).shards.len() == NUM_SHARDS,
        forall|at: int|
            0 <= at < NUM_SHARDS ==> (#[trigger] e.route_all(msgs, now).shards[at]).wheel
                == e.shards[at].wheel,
    decreases msgs.len(),
{
    if msgs.len() > 0 {
        lemma_route_all_wheels(e, msgs.drop_last(), now);
        model::lemma_shard_of_bound(msgs.last().queue);
        model::lemma_shard_of_bound(model::dlq_name(msgs.last().queue));
    }
}

/// Once the time of a lease is over, its receipt is not accepted any more, whether or not the
/// lease was ended.
pub proof fn law_late_ack_is_refused(
    e: EngineView,
    queue: Seq<char>,
    ids: Seq<u128>,
    receipts: Seq<Seq<char>>,
    expire_at: u64,
    k: int,
    acked_at: u64,
)
    requires
        e.inv(),
        ids.no_duplicates(),
        0 <= k < e.lease(queue, ids, receipts, expire_at).1.len(),
        expire_at <= acked_at,
    ensures
        ({
            let (post, polled) = e.lease(queue, ids, receipts, expire_at);
            forall|receipt: Seq<char>| !(#[trigger] post.ack_is_valid(
                queue,
                polled[k].message_id,
                receipt,
                acked_at,
            ))
        }),
{
    model::lemma_shard_of_bound(queue);
    lemma_lease_receipts(e.shard(queue), queue, ids, receipts, expire_at);
    let (r, polled) = e.shard(queue).lease(queue, ids, receipts, expire_at);
    let j = choose|j: int|
        0 <= j < ids.len() && polled[k].message_id == ids::ulid_text(#[trigger] ids[j])
            && polled[k].receipt_handle == receipts[j] && r.wheel.holds(ids[j], receipts[j])
            && r.wheel.index[ids[j]].2 == expire_at;
    ids::law_ulid_round_trip(ids[j]);
}

/// Once a lease has run out and was ended, its receipt is not accepted any more.
pub proof fn law_expired_receipt_is_refused(
    e: EngineView,
    queue: Seq<char>,
    now: u64,
    item: ItemView,
    id_text: Seq<char>,
    receipt: Seq<char>,
    acked_at: u64,
)
    requires
        e.inv(),
        e.shard(queue).wheel.wf(),
        !e.shard(queue).wheel.index.dom().is_empty(),
        timer_wheel::in_wheel(e.shard(queue).wheel, item),
        e.shard(queue).wheel.sweep_base(now) < item.expire_at <= now,
        ids::id_value(id_text) == Some(item.id),
    ensures
        !e.expire(queue, now).ack_is_valid(queue, id_text, receipt, acked_at),
{
    model::lemma_shard_of_bound(queue);
    let w = e.shard(queue).wheel;
    timer_wheel::law_collect_is_complete(w, now, item);
    let items = w.collect(now).1;
    let k = choose|k: int| 0 <= k < items.len() && items[k] == item;
    timer_wheel::law_collected_leases_have_ended(w, now, k, receipt);
    let (s, taken) = e.shard(queue).take_expired(now);
    lemma_route_all_wheels(e.with_shard(queue, s), taken, now);
    assert(e.expire(queue, now).shards[model::shard_of(queue)].wheel == s.wheel);
}

/// A message whose lease ran out is ready in its queue again, with its count of deliveries,
/// if it may be delivered again.
pub proof fn law_expired_message_is_ready_again(e: EngineView, msg: MsgView, now: u64)
    requires
        e.inv(),
        msg.delivery_count < msg.max_delivery,
    ensures
        ({
            let s = e.route(msg, now).shard(msg.queue);
            &&& s.messages.contains_key(msg.id)
            &&& s.messages[msg.id] == (MsgView { visible_at: now, ..msg })
            &&& s.queues.contains_key(msg.queue)
            &&& s.queues[msg.queue].ready.contains(msg.id)
        }),
{
    model::lemma_shard_of_bound(msg.queue);
    let q = e.shard(msg.queue).queue(msg.queue, now);
    let r = q.insert(msg.id, now, now);
    assert(r.ready[q.ready.len() as int] == msg.id);
}

/// A message that was delivered as often as it may be goes to the dead letter queue, ready
/// there, and is done with in its own queue.
pub proof fn law_exhausted_message_goes_to_dead_letters(e: EngineView, msg: MsgView, now: u64)
    requires
        e.inv(),
        msg.delivery_count >= msg.max_delivery,
    ensures
        ({
            let post = e.route(msg, now);
            let dead = model::dlq_name(msg.queue);
            let s = post.shard(dead);
            &&& post.shard(msg.queue).acked.contains(msg.id)
            &&& s.messages.contains_key(msg.id)
            &&& s.messages[msg.id] == (MsgView { queue: dead, visible_at: now, ..msg })
            &&& s.queues.contains_key(dead)
            &&& s.queues[dead].ready.contains(msg.id)
        }),
{
    let dead = model::dlq_name(msg.queue);
    model::lemma_shard_of_bound(msg.queue);
    model::lemma_shard_of_bound(dead);
    let given_up = e.with_disk(e.log_dead_letter(msg, now)).with_shard(
        msg.queue,
        e.shard(msg.queue).mark_acked(msg.id).tombstone(msg.queue, msg.id),
    );
    let q = given_up.shard(dead).mark_seen(msg.id).queue(dead, now);
    let r = q.insert(msg.id, now, now);
    assert(r.ready[q.ready.len() as int] == msg.id);
}

/// A message of this id is in memory.
pub open spec fn in_memory(e: EngineView, id: u128) -> bool {
    exists|at: int| 0 <= at < NUM_SHARDS && (#[trigger] e.shards[at]).messages.contains_key(id)
}

/// One of the messages has this id.
pub open spec fn among(msgs: Seq<MsgView>, id: u128) -> bool {
    exists|k: int| 0 <= k < msgs.len() && (#[trigger] msgs[k]).id == id
}

proof fn lemma_take_messages_splits(
    messages: Map<u128, MsgView>,
    items: Seq<ItemView>,
    id: u128,
)
    requires
        forall|x: u128| #[trigger] messages.contains_key(x) ==> messages[x].id == x,
    ensures
        ({
            let (rest, taken) = shard::take_messages(messages, items);
            &&& messages.contains_key(id) ==> rest.contains_key(id) || among(taken, id)
            &&& rest.contains_key(id) ==> messages.contains_key(id)
            &&& among(taken, id) ==> messages.contains_key(id)
            &&& forall|x: u128| #[trigger] rest.contains_key(x) ==> rest[x].id == x
        }),
    decreases items.len(),
{
    if items.len() > 0 {
        lemma_take_messages_splits(messages, items.drop_last(), id);
        let (rest, taken) = shard::take_messages(messages, items.drop_last());
        let (after, all) = shard::take_messages(messages, items);
        let x = items.last().id;
        if rest.contains_key(x) {
            assert(all == taken.push(rest[x]));
            if among(taken, id) {
                let k = choose|k: int| 0 <= k < taken.len() && (#[trigger] taken[k]).id == id;
                assert(all[k].id == id);
            }
            if id == x {
                assert(all[taken.len() as int].id == id);
            }
            if among(all, id) {
                let k = choose|k: int| 0 <= k < all.len() && (#[trigger] all[k]).id == id;
                if k < taken.len() {
                    assert(taken[k].id == id);
                }
            }
        }
    }
}

proof fn lemma_route_in_memory(e: EngineView, msg: MsgView, now: u64, id: u128)
    requires
        e.shards.len() == NUM_SHARDS,
    ensures
        e.route(msg, now).shards.len() == NUM_SHARDS,
        in_memory(e.route(msg, now), id) <==> in_memory(e, id) || msg.id == id,
{
    let dead = model::dlq_name(msg.queue);
    model::lemma_shard_of_bound(msg.queue);
    model::lemma_shard_of_bound(dead);
    let post = e.route(msg, now);
    let target = if msg.delivery_count >= msg.max_delivery {
        model::shard_of(dead)
    } else {
        model::shard_of(msg.queue)
    };
    assert(post.shards[target].messages.contains_key(msg.id));
    assert forall|at: int| 0 <= at < NUM_SHARDS implies (
    #[trigger] post.shards[at]).messages.contains_key(id) == (e.shards[at].messages.contains_key(id)
        || (at == target && msg.id == id)) by {}
    if in_memory(e, id) {
        let at = choose|at: int|
            0 <= at < NUM_SHARDS && (#[trigger] e.shards[at]).messages.contains_key(id);
        assert(post.shards[at].messages.contains_key(id));
    }
    if in_memory(post, id) {
        let at = choose|at: int|
            0 <= at < NUM_SHARDS && (#[trigger] post.shards[at]).messages.contains_key(id);
        assert(e.shards[at].messages.contains_key(id) || msg.id == id);
    }
}

proof fn lemma_route_all_in_memory(e: EngineView, msgs: Seq<MsgView>, now: u64, id: u128)
    requires
        e.shards.len() == NUM_SHARDS,
    ensures
        e.route_all(msgs, now).shards.len() == NUM_SHARDS,
        in_memory(e.route_all(msgs, now), id) <==> in_memory(e, id) || among(msgs, id),
    decreases msgs.len(),
{
    if msgs.len() > 0 {
        let head = msgs.drop_last();
        lemma_route_all_in_memory(e, head, now, id);
        lemma_route_in_memory(e.route_all(head, now), msgs.last(), now, id);
        assert(msgs[msgs.len() - 1] == msgs.last());
        if among(head, id) {
            let k = choose|k: int| 0 <= k < head.len() && (#[trigger] head[k]).id == id;
            assert(msgs[k].id == id);
        }
        if among(msgs, id) && msgs.last().id != id {
            let k = choose|k: int| 0 <= k < msgs.len() && (#[trigger] msgs[k]).id == id;
            assert(head[k].id == id);
        }
    }
}

/// The end of leases neither loses a message nor makes one: what is in memory before is in
/// memory after, and nothing else.
pub proof fn law_expiry_loses_nothing(e: EngineView, queue: Seq<char>, now: u64, id: u128)
    requires
        e.inv(),
    ensures
        in_memory(e.expire(queue, now), id) <==> in_memory(e, id),
{
    model::lemma_shard_of_bound(queue);
    let here = model::shard_of(queue);
    assert(model::shard_holds(e.shards[here], here));
    let s = e.shard(queue);
    lemma_take_messages_splits(s.messages, s.wheel.collect(now).1, id);
    let (after, taken) = s.take_expired(now);
    let mid = e.with_shard(queue, after);
    lemma_route_all_in_memory(mid, taken, now, id);
    if in_memory(e, id) {
        let at = choose|at: int|
            0 <= at < NUM_SHARDS && (#[trigger] e.shards[at]).messages.contains_key(id);
        assert(at != here ==> mid.shards[at].messages.contains_key(id));
        assert(mid.shards[here] == after);
    }
    if in_memory(mid, id) {
        let at = choose|at: int|
            0 <= at < NUM_SHARDS && (#[trigger] mid.shards[at]).messages.contains_key(id);
        assert(e.shards[at].messages.contains_key(id));
    }
    if among(taken, id) {
        assert(e.shards[here].messages.contains_key(id));
    }
}

}
