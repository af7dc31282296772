//! From a push to a poll: what is pushed is delivered, and queues do not disturb each other.
use vstd::prelude::*;

use crate::engine::exclusive;
use crate::engine::laws;
use crate::engine::model;
use crate::engine::model::EngineView;
use crate::engine::shard::{PolledView, ShardView};
use crate::engine::single_queue;
use crate::engine::single_queue::{FarFutureItem, QueueView, HOT_DELAY_HORIZON_SEC};
use crate::ids;

verus! {

proof fn lemma_settle_deleted(q: QueueView, ids: Seq<u128>)
    ensures
        q.settle(ids).deleted.subset_of(q.deleted),
    decreases ids.len(),
{
    if ids.len() > 0 {
        lemma_settle_deleted(q, ids.drop_last());
    }
}

proof fn lemma_drain_deleted(q: QueueView, now: u64)
    requires
        q.hot.dom().finite(),
    ensures
        q.drain(now).deleted.subset_of(q.deleted),
    decreases q.hot.dom().len(),
{
    if exists|sec: u64| single_queue::is_next_due(q.hot, now, sec) {
        let due = choose|sec: u64| single_queue::is_next_due(q.hot, now, sec);
        lemma_settle_deleted(q, q.hot[due]);
        lemma_drain_deleted(QueueView { hot: q.hot.remove(due), ..q.settle(q.hot[due]) }, now);
    }
}

proof fn lemma_promote_deleted(q: QueueView, items: Seq<FarFutureItem>, now: u64)
    ensures
        q.promote(items, now).deleted == q.deleted,
        q.hot.dom().finite() ==> q.promote(items, now).hot.dom().finite(),
    decreases items.len(),
{
    if items.len() > 0 {
        lemma_promote_deleted(q, items.drop_last(), now);
    }
}

/// As time goes on, tombstones go and none comes.
pub proof fn lemma_advance_deleted(q: QueueView, now: u64)
    requires
        q.hot.dom().finite(),
    ensures
        q.advance(now).deleted.subset_of(q.deleted),
{
    if now >= q.last_drained_sec {
        lemma_promote_deleted(q, q.far, now);
        lemma_drain_deleted(q.promote(q.far, now), now);
    }
}

proof fn lemma_pop_gets(q: QueueView, id: u128)
    requires
        q.ready.contains(id),
        !q.deleted.contains(id),
    ensures
        ({
            let (r, popped) = q.pop();
            &&& popped is Some
            &&& popped == Some(id) || (r.ready.contains(id) && !r.deleted.contains(id))
            &&& r.ready.len() < q.ready.len()
        }),
    decreases q.ready.len(),
{
    let k = choose|k: int| 0 <= k < q.ready.len() && q.ready[k] == id;
    let first = q.ready[0];
    let rest = QueueView { ready: q.ready.drop_first(), ..q };
    if k > 0 {
        assert(rest.ready[k - 1] == id);
    }
    if q.deleted.contains(first) {
        lemma_pop_gets(QueueView { deleted: rest.deleted.remove(first), ..rest }, id);
    }
}

proof fn lemma_claim_gets(q: QueueView, max: nat, id: u128)
    requires
        q.ready.contains(id),
        !q.deleted.contains(id),
        max >= q.ready.len(),
    ensures
        q.claim(max).1.contains(id),
    decreases max,
{
    lemma_pop_gets(q, id);
    let k = choose|k: int| 0 <= k < q.ready.len() && q.ready[k] == id;
    assert(max > 0);
    let (r, popped) = q.pop();
    let (last, ids) = r.claim((max - 1) as nat);
    let all = q.claim(max).1;
    assert(all == seq![popped.unwrap()] + ids);
    if popped == Some(id) {
        assert(all[0] == id);
    } else {
        lemma_claim_gets(r, (max - 1) as nat, id);
        let j = choose|j: int| 0 <= j < ids.len() && ids[j] == id;
        assert(all[j + 1] == id);
    }
}

/// The message is handed out under its id and a receipt, for the `count`-th time.
pub open spec fn hands_out(
    polled: Seq<PolledView>,
    id: u128,
    payload: Seq<u8>,
    receipt: Seq<char>,
    count: u32,
) -> bool {
    polled.contains(
        PolledView {
            message_id: ids::ulid_text(id),
            payload,
            receipt_handle: receipt,
            delivery_count: count,
        },
    )
}

proof fn lemma_lease_hands_out(
    s: ShardView,
    name: Seq<char>,
    ids: Seq<u128>,
    receipts: Seq<Seq<char>>,
    expire_at: u64,
    j: int,
)
    requires
        ids.no_duplicates(),
        0 <= j < ids.len(),
        s.messages.contains_key(ids[j]),
    ensures
        hands_out(
            s.lease(name, ids, receipts, expire_at).1,
            ids[j],
            s.messages[ids[j]].payload,
            receipts[j],
            ((s.messages[ids[j]].delivery_count + 1) % 0x1_0000_0000) as u32,
        ),
    decreases ids.len(),
{
    let head = ids.drop_last();
    let n = ids.len() - 1;
    let (p, listed) = s.lease(name, head, receipts, expire_at);
    let polled = s.lease(name, ids, receipts, expire_at).1;
    if j < n {
        assert forall|a: int, b: int| 0 <= a < head.len() && 0 <= b < head.len() && a
            != b implies head[a] != head[b] by {
            assert(ids[a] != ids[b]);
        }
        assert(head[j] == ids[j]);
        lemma_lease_hands_out(s, name, head, receipts, expire_at, j);
        let m = PolledView {
            message_id: ids::ulid_text(ids[j]),
            payload: s.messages[ids[j]].payload,
            receipt_handle: receipts[j],
            delivery_count: ((s.messages[ids[j]].delivery_count + 1) % 0x1_0000_0000) as u32,
        };
        let k = choose|k: int| 0 <= k < listed.len() && listed[k] == m;
        assert(polled[k] == m);
    } else {
        assert(!head.contains(ids[n])) by {
            if head.contains(ids[n]) {
                let i = choose|i: int| 0 <= i < head.len() && head[i] == ids[n];
                assert(ids[i] == ids[n]);
            }
        }
        lemma_lease_leaves_others(s, name, head, receipts, expire_at, ids[n]);
        assert(polled[listed.len() as int].message_id == ids::ulid_text(ids[n]));
    }
}

proof fn lemma_lease_leaves_others(
    s: ShardView,
    name: Seq<char>,
    ids: Seq<u128>,
    receipts: Seq<Seq<char>>,
    expire_at: u64,
    id: u128,
)
    requires
        !ids.contains(id),
        s.messages.contains_key(id),
    ensures
        ({
            let r = s.lease(name, ids, receipts, expire_at).0;
            r.messages.contains_key(id) && r.messages[id] == s.messages[id]
        }),
    decreases ids.len(),
{
    if ids.len() > 0 {
        let head = ids.drop_last();
        assert(ids[ids.len() - 1] != id);
        assert(!head.contains(id)) by {
            if head.contains(id) {
                let i = choose|i: int| 0 <= i < head.len() && head[i] == id;
                assert(ids[i] == id);
            }
        }
        lemma_lease_leaves_others(s, name, head, receipts, expire_at, id);
    }
}

/// A message that was pushed, and that memory had room for, is handed out by the next poll
/// that comes when it is due and asks for all that is ready: with its id and payload, for
/// the first time.
pub proof fn law_pushed_message_is_delivered(
    e: EngineView,
    queue: Seq<char>,
    id: u128,
    payload: Seq<u8>,
    visible_at: u64,
    pushed_at: u64,
    mid: EngineView,
    now: u64,
    max: nat,
    receipts: Seq<Seq<char>>,
    expire_at: u64,
)
    requires
        exclusive::all_exclusive(e),
        !e.shard(queue).seen.contains(id),
        e.total_in_ram < e.options.max_hot_messages_in_ram,
        visible_at <= pushed_at + HOT_DELAY_HORIZON_SEC,
        e.pushes_to(queue, id, payload, visible_at, pushed_at, mid),
        visible_at <= now,
        mid.shard(queue).queues[queue].last_drained_sec <= now,
        max >= mid.shard(queue).queues[queue].advance(now).ready.len(),
    ensures
        ({
            let (claimed, ids) = mid.claim(queue, now, max);
            let polled = claimed.lease(queue, ids, receipts, expire_at).1;
            exists|j: int|
                0 <= j < ids.len() && hands_out(polled, id, payload, #[trigger] receipts[j], 1)
        }),
{
    model::lemma_shard_of_bound(queue);
    let at = model::shard_of(queue);
    assert(model::shard_holds(e.shards[at], at));
    exclusive::law_push_keeps_exclusive(e, queue, id, payload, visible_at, pushed_at, mid);
    exclusive::law_poll_is_exclusive(mid, queue, now, max, receipts, expire_at);
    let logged = e.with_disk(e.disk.append_push(id, queue, visible_at, payload).flush());
    let taken = logged.accept(queue, id, payload, visible_at, pushed_at);
    assert(mid.shards == taken.shards && mid.options == e.options);
    let before = e.shard(queue).queue(queue, pushed_at);
    let q = before.insert(id, visible_at, pushed_at);
    assert(mid.shard(queue).queues[queue] == q);
    assert(before.hot.dom().finite()) by {
        if e.shard(queue).queues.contains_key(queue) {
            assert(exclusive::exclusive(e.shards[at]));
            assert(exclusive::once(e.shard(queue).queues[queue]));
        }
    }
    assert(q.last_drained_sec == before.last_drained_sec);
    laws::law_delayed_message_becomes_ready(before, id, visible_at, pushed_at, now);
    assert(q.hot.dom().finite());
    lemma_advance_deleted(q, now);
    assert(!q.deleted.contains(id));
    let a = q.advance(now);
    lemma_claim_gets(a, max, id);
    let (claimed, ids) = mid.claim(queue, now, max);
    let c = claimed.shard(queue);
    let j = choose|j: int| 0 <= j < ids.len() && ids[j] == id;
    assert(c.messages == mid.shard(queue).messages);
    assert(c.messages[id] == e.fresh_msg(id, queue, payload, visible_at));
    lemma_lease_hands_out(c, queue, ids, receipts, expire_at, j);
    assert(hands_out(
        claimed.lease(queue, ids, receipts, expire_at).1,
        id,
        payload,
        receipts[j],
        1,
    ));
}

/// What waits in a queue of this name.
pub open spec fn waiting(e: EngineView, name: Seq<char>) -> Option<QueueView> {
    if e.shard(name).queues.contains_key(name) {
        Some(e.shard(name).queues[name])
    } else {
        None
    }
}

/// A push to one queue leaves what waits in another as it is.
pub proof fn law_push_leaves_other_queues(
    e: EngineView,
    queue: Seq<char>,
    id: u128,
    payload: Seq<u8>,
    visible_at: u64,
    now: u64,
    post: EngineView,
    other: Seq<char>,
)
    requires
        e.inv(),
        e.pushes_to(queue, id, payload, visible_at, now, post),
        other != queue,
    ensures
        waiting(post, other) == waiting(e, other),
{
    model::lemma_shard_of_bound(queue);
    model::lemma_shard_of_bound(other);
    let logged = e.with_disk(e.disk.append_push(id, queue, visible_at, payload).flush());
    let taken = logged.accept(queue, id, payload, visible_at, now);
    assert(post.shards == taken.shards || post.shards == e.shards);
}

/// A poll of one queue, once expired leases have been ended, leaves what waits in another
/// as it is.
pub proof fn law_poll_leaves_other_queues(
    e: EngineView,
    queue: Seq<char>,
    now: u64,
    max: nat,
    receipts: Seq<Seq<char>>,
    expire_at: u64,
    other: Seq<char>,
)
    requires
        e.inv(),
        other != queue,
    ensures
        ({
            let (claimed, ids) = e.claim(queue, now, max);
            waiting(claimed.lease(queue, ids, receipts, expire_at).0, other) == waiting(e, other)
        }),
{
    model::lemma_shard_of_bound(queue);
    model::lemma_shard_of_bound(other);
    let (claimed, ids) = e.claim(queue, now, max);
    lemma_lease_queues(claimed.shard(queue), queue, ids, receipts, expire_at);
}

pub proof fn lemma_lease_queues(
    s: ShardView,
    name: Seq<char>,
    ids: Seq<u128>,
    receipts: Seq<Seq<char>>,
    expire_at: u64,
)
    ensures
        s.lease(name, ids, receipts, expire_at).0.queues == s.queues,
    decreases ids.len(),
{
    if ids.len() > 0 {
        lemma_lease_queues(s, name, ids.drop_last(), receipts, expire_at);
    }
}

}
