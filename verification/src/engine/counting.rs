//! The count of messages in memory is right, whatever is done.
use vstd::prelude::*;

use crate::engine::disk_log;
use crate::engine::disk_log::{DiskView, SegmentRead};
use crate::engine::laws;
use crate::engine::model;
use crate::engine::model::{EngineView, PushView, ScanView, NUM_SHARDS};
use crate::engine::queue::QueueOptions;
use crate::engine::shard;
use crate::engine::shard::{MsgView, ShardView};
use crate::engine::timer_wheel::ItemView;
use crate::engine::wal::RecordView;
use crate::ids;

verus! {

/// How many messages the first `n` shards keep.
pub open spec fn kept(shards: Seq<ShardView>, n: nat) -> nat
    decreases n,
{
    if n == 0 {
        0
    } else {
        kept(shards, (n - 1) as nat) + shards[n - 1].messages.dom().len()
    }
}

/// The engine's count is the number of messages in its shards.
pub open spec fn counted(e: EngineView) -> bool {
    &&& e.shards.len() == NUM_SHARDS
    &&& forall|at: int|
        0 <= at < NUM_SHARDS ==> (#[trigger] e.shards[at]).messages.dom().finite()
    &&& e.total_in_ram == kept(e.shards, NUM_SHARDS as nat)
}

proof fn lemma_kept_update(shards: Seq<ShardView>, n: nat, at: int, s: ShardView)
    requires
        n <= shards.len(),
        0 <= at < shards.len(),
    ensures
        kept(shards.update(at, s), n) == if at < n {
            kept(shards, n) - shards[at].messages.dom().len() + s.messages.dom().len()
        } else {
            kept(shards, n) as int
        },
        at < n ==> kept(shards, n) >= shards[at].messages.dom().len(),
    decreases n,
{
    if n > 0 {
        lemma_kept_update(shards, (n - 1) as nat, at, s);
    }
}

proof fn lemma_store_counted(s: ShardView, msg: MsgView, now: u64)
    requires
        s.messages.dom().finite(),
    ensures
        s.store(msg, now).messages.dom().finite(),
        s.store(msg, now).messages.dom().len() == s.messages.dom().len()
            + if s.messages.contains_key(msg.id) {
            0int
        } else {
            1
        },
{
    assert(s.store(msg, now).messages.dom() =~= s.messages.dom().insert(msg.id));
    if s.messages.contains_key(msg.id) {
        assert(s.messages.dom().insert(msg.id) =~= s.messages.dom());
    }
}

proof fn lemma_drop_counted(messages: Map<u128, MsgView>, id: u128)
    requires
        messages.dom().finite(),
    ensures
        messages.remove(id).dom().finite(),
        messages.remove(id).dom().len() == messages.dom().len() - if messages.contains_key(id) {
            1int
        } else {
            0
        },
{
    assert(messages.remove(id).dom() =~= messages.dom().remove(id));
    if !messages.contains_key(id) {
        assert(messages.dom().remove(id) =~= messages.dom());
    }
}

/// A new engine, which keeps nothing, counts nothing.
pub proof fn law_blank_engine_is_counted(
    disk: DiskView,
    options: QueueOptions,
    base_epoch_sec: u64,
)
    ensures
        counted(EngineView::blank(disk, options, base_epoch_sec)),
{
    let e = EngineView::blank(disk, options, base_epoch_sec);
    lemma_kept_nothing(e.shards, NUM_SHARDS as nat);
}

/// Clearing an engine clears its count.
pub proof fn law_cleared_engine_is_counted(e: EngineView)
    requires
        e.inv(),
    ensures
        counted(e.cleared()),
{
    lemma_kept_nothing(e.cleared().shards, NUM_SHARDS as nat);
}

proof fn lemma_kept_nothing(shards: Seq<ShardView>, n: nat)
    requires
        n <= shards.len(),
        forall|at: int|
            0 <= at < n ==> (#[trigger] shards[at]).messages == Map::<u128, MsgView>::empty(),
    ensures
        kept(shards, n) == 0,
    decreases n,
{
    if n > 0 {
        lemma_kept_nothing(shards, (n - 1) as nat);
        assert(shards[n - 1].messages.dom() =~= Set::empty());
    }
}

proof fn lemma_accept_counted(
    e: EngineView,
    queue: Seq<char>,
    id: u128,
    payload: Seq<u8>,
    visible_at: u64,
    now: u64,
)
    requires
        counted(e),
    ensures
        counted(e.accept(queue, id, payload, visible_at, now)),
{
    model::lemma_shard_of_bound(queue);
    let at = model::shard_of(queue);
    let s = e.shard(queue).mark_seen(id);
    let post = e.accept(queue, id, payload, visible_at, now);
    let msg = e.fresh_msg(id, queue, payload, visible_at);
    lemma_store_counted(s, msg, now);
    lemma_kept_update(e.shards, NUM_SHARDS as nat, at, s);
    lemma_kept_update(e.shards, NUM_SHARDS as nat, at, s.store(msg, now));
    model::lemma_wrap(e.total_in_ram + 1);
    assert forall|a: int| 0 <= a < NUM_SHARDS implies (
    #[trigger] post.shards[a]).messages.dom().finite() by {
        assert(a != at ==> post.shards[a] == e.shards[a]);
    }
}

/// A push keeps the count right.
pub proof fn law_push_keeps_count(
    e: EngineView,
    queue: Seq<char>,
    id: u128,
    payload: Seq<u8>,
    visible_at: u64,
    now: u64,
    post: EngineView,
)
    requires
        counted(e),
        e.pushes_to(queue, id, payload, visible_at, now, post),
    ensures
        counted(post),
{
    let logged = e.with_disk(e.disk.append_push(id, queue, visible_at, payload).flush());
    assert(counted(logged));
    if !e.shard(queue).seen.contains(id) {
        lemma_accept_counted(logged, queue, id, payload, visible_at, now);
    }
}

proof fn lemma_batch_counted(
    e: EngineView,
    queue: Seq<char>,
    ids: Seq<u128>,
    items: Seq<PushView>,
    now: u64,
)
    requires
        counted(e),
    ensures
        counted(e.batch(queue, ids, items, now)),
    decreases ids.len(),
{
    if ids.len() > 0 {
        let k = ids.len() - 1;
        lemma_batch_counted(e, queue, ids.drop_last(), items, now);
        let p = e.batch(queue, ids.drop_last(), items, now);
        let visible_at = (now + items[k].delay_seconds) as u64;
        let logged = p.with_disk(p.disk.append_push(ids[k], queue, visible_at, items[k].payload));
        assert(counted(logged));
        lemma_accept_counted(logged, queue, ids[k], items[k].payload, visible_at, now);
    }
}

/// A push of a batch keeps the count right.
pub proof fn law_batch_push_keeps_count(
    e: EngineView,
    queue: Seq<char>,
    ids: Seq<u128>,
    items: Seq<PushView>,
    now: u64,
    post: EngineView,
)
    requires
        counted(e),
        e.batch_pushes_to(queue, ids, items, now, post),
    ensures
        counted(post),
{
    lemma_batch_counted(e, queue, ids, items, now);
    let pushed = e.batch(queue, ids, items, now);
    let flushed = pushed.with_disk(pushed.disk.flush());
    assert(counted(flushed));
}

pub proof fn lemma_apply_ack_counted(e: EngineView, queue: Seq<char>, id: u128)
    requires
        counted(e),
    ensures
        counted(e.apply_ack(queue, id)),
        e.apply_ack(queue, id).total_in_ram <= e.total_in_ram,
{
    model::lemma_shard_of_bound(queue);
    let at = model::shard_of(queue);
    let s = e.shard(queue).apply_ack(queue, id);
    let post = e.apply_ack(queue, id);
    lemma_drop_counted(e.shard(queue).messages, id);
    lemma_kept_update(e.shards, NUM_SHARDS as nat, at, s);
    model::lemma_wrap(e.total_in_ram - 1);
    assert forall|a: int| 0 <= a < NUM_SHARDS implies (
    #[trigger] post.shards[a]).messages.dom().finite() by {
        assert(a != at ==> post.shards[a] == e.shards[a]);
    }
}

proof fn lemma_ack_lease_counted(e: EngineView, queue: Seq<char>, id: u128)
    requires
        counted(e),
    ensures
        counted(e.ack_lease(queue, id)),
        e.ack_lease(queue, id).total_in_ram == e.total_in_ram - if e.shard(
            queue,
        ).messages.contains_key(id) {
            1int
        } else {
            0
        },
{
    model::lemma_shard_of_bound(queue);
    let at = model::shard_of(queue);
    let s = e.shard(queue).ack_lease(queue, id);
    let post = e.ack_lease(queue, id);
    lemma_drop_counted(e.shard(queue).messages, id);
    lemma_kept_update(e.shards, NUM_SHARDS as nat, at, s);
    model::lemma_wrap(e.total_in_ram - 1);
    assert forall|a: int| 0 <= a < NUM_SHARDS implies (
    #[trigger] post.shards[a]).messages.dom().finite() by {
        assert(a != at ==> post.shards[a] == e.shards[a]);
    }
}

/// An acknowledgement by a receipt keeps the count right.
pub proof fn law_ack_keeps_count(e: EngineView, queue: Seq<char>, id: u128, post: EngineView)
    requires
        counted(e),
        e.acks_to(queue, id, post),
    ensures
        counted(post),
{
    lemma_ack_lease_counted(e, queue, id);
    let acked = e.ack_lease(queue, id).with_disk(e.disk.append_ack(id, queue).flush());
    assert(counted(acked));
}

/// An acknowledgement that was decided elsewhere keeps the count right.
pub proof fn law_follower_ack_keeps_count(
    e: EngineView,
    queue: Seq<char>,
    id: u128,
    post: EngineView,
)
    requires
        counted(e),
        e.follower_acks_to(queue, id, post),
    ensures
        counted(post),
{
    lemma_apply_ack_counted(e, queue, id);
    let acked = e.apply_ack(queue, id).with_disk(e.disk.append_ack(id, queue).flush());
    assert(counted(acked));
}

proof fn lemma_ack_all_counted(
    e: EngineView,
    queue: Seq<char>,
    items: Seq<(Seq<char>, Seq<char>)>,
    now: u64,
)
    requires
        counted(e),
    ensures
        counted(e.ack_all(queue, items, now)),
        e.ack_all(queue, items, now).total_in_ram + e.ack_count(queue, items, now)
            == e.total_in_ram,
    decreases items.len(),
{
    if items.len() > 0 {
        lemma_ack_all_counted(e, queue, items.drop_last(), now);
        let p = e.ack_all(queue, items.drop_last(), now);
        let (id_text, receipt) = items.last();
        if p.ack_is_valid(queue, id_text, receipt, now) {
            let id = ids::id_value(id_text).unwrap();
            let logged = p.with_disk(p.disk.append_ack(id, queue));
            assert(counted(logged));
            lemma_ack_lease_counted(logged, queue, id);
        }
    }
}

/// A batch of acknowledgements keeps the count right, which falls by what the batch counts.
pub proof fn law_batch_ack_keeps_count(
    e: EngineView,
    queue: Seq<char>,
    items: Seq<(Seq<char>, Seq<char>)>,
    now: u64,
    post: EngineView,
)
    requires
        counted(e),
        e.batch_acks_to(queue, items, now, post),
    ensures
        counted(post),
        post.total_in_ram == e.total_in_ram - e.ack_count(queue, items, now),
{
    lemma_ack_all_counted(e, queue, items, now);
    let acked = e.ack_all(queue, items, now);
    let flushed = acked.with_disk(acked.disk.flush());
    assert(counted(flushed));
}

/// Handing messages out keeps the count right: a message under a lease is still in memory.
pub proof fn law_poll_keeps_count(
    e: EngineView,
    queue: Seq<char>,
    now: u64,
    max: nat,
    receipts: Seq<Seq<char>>,
    expire_at: u64,
)
    requires
        counted(e),
    ensures
        ({
            let (claimed, ids) = e.claim(queue, now, max);
            counted(claimed.lease(queue, ids, receipts, expire_at).0)
        }),
{
    model::lemma_shard_of_bound(queue);
    let at = model::shard_of(queue);
    let (claimed, ids) = e.claim(queue, now, max);
    let c = claimed.shard(queue);
    laws::lemma_lease_frame(c, queue, ids, receipts, expire_at);
    let s = c.lease(queue, ids, receipts, expire_at).0;
    let post = claimed.lease(queue, ids, receipts, expire_at).0;
    lemma_kept_update(e.shards, NUM_SHARDS as nat, at, s);
    assert(post.shards =~= e.shards.update(at, s));
    assert forall|a: int| 0 <= a < NUM_SHARDS implies (
    #[trigger] post.shards[a]).messages.dom().finite() by {
        assert(a != at ==> post.shards[a] == e.shards[a]);
    }
}

/// Paging in keeps the count right, and never takes it beyond its bound.
pub proof fn law_paging_keeps_count(e: EngineView, records: Seq<RecordView>, now: u64)
    requires
        counted(e),
    ensures
        counted(e.page_records(records, now)),
        e.total_in_ram <= e.options.max_hot_messages_in_ram ==> e.page_records(
            records,
            now,
        ).total_in_ram <= e.options.max_hot_messages_in_ram,
    decreases records.len(),
{
    if records.len() > 0 {
        law_paging_keeps_count(e, records.drop_last(), now);
        model::lemma_page_records_frame(e, records.drop_last(), now);
        let p = e.page_records(records.drop_last(), now);
        let post = e.page_records(records, now);
        match records.last() {
            RecordView::Push { msg_id, queue_name, visible_at, payload } => {
                if p.pages_in(records.last(), now) {
                    model::lemma_shard_of_bound(queue_name);
                    let at = model::shard_of(queue_name);
                    let s = p.shard(queue_name).mark_seen(msg_id);
                    let msg = p.fresh_msg(msg_id, queue_name, payload, visible_at);
                    lemma_store_counted(s, msg, now);
                    lemma_kept_update(p.shards, NUM_SHARDS as nat, at, s.store(msg, now));
                    model::lemma_wrap(p.total_in_ram + 1);
                    assert forall|a: int| 0 <= a < NUM_SHARDS implies (
                    #[trigger] post.shards[a]).messages.dom().finite() by {
                        assert(a != at ==> post.shards[a] == p.shards[a]);
                    }
                }
            },
            RecordView::Ack { msg_id, queue_name } => {
                lemma_apply_ack_counted(p, queue_name, msg_id);
            },
        }
    }
}

/// A step of a scan keeps the count right, and never takes it beyond its bound.
pub proof fn law_scan_keeps_count(e: EngineView, scan: ScanView, read: SegmentRead)
    requires
        counted(e),
    ensures
        counted(e.page_step(scan, read).0),
        e.total_in_ram <= e.options.max_hot_messages_in_ram ==> e.page_step(
            scan,
            read,
        ).0.total_in_ram <= e.options.max_hot_messages_in_ram,
{
    match disk_log::entries_from(e.disk.registry, e.spill_offset, scan.fetch_limit, read) {
        Some((records, next)) => {
            let n = e.page_count(records, scan.now) as int;
            law_paging_keeps_count(e, records.take(n), scan.now);
        },
        None => {},
    }
}

/// Recovery counts right, whatever the log holds.
pub proof fn law_recovery_counts_right(e: EngineView, records: Seq<RecordView>)
    requires
        e.inv(),
        counted(e),
    ensures
        e.replay(records).inv(),
        counted(e.replay(records)),
    decreases records.len(),
{
    if records.len() > 0 {
        let head = records.drop_last();
        let last = records[records.len() - 1];
        law_recovery_counts_right(e, head);
        model::lemma_replay_record_inv(e.replay(head), last);
        let p = e.replay(head);
        let post = e.replay(records);
        match last {
            RecordView::Push { msg_id, queue_name, visible_at, payload } => {
                model::lemma_shard_of_bound(queue_name);
                let at = model::shard_of(queue_name);
                let s = p.shard(queue_name).mark_seen(msg_id);
                let msg = p.fresh_msg(msg_id, queue_name, payload, visible_at);
                assert(model::shard_holds(p.shards[at], at));
                lemma_store_counted(s, msg, p.base_epoch_sec);
                lemma_kept_update(p.shards, NUM_SHARDS as nat, at, s);
                lemma_kept_update(
                    p.shards,
                    NUM_SHARDS as nat,
                    at,
                    s.store(msg, p.base_epoch_sec),
                );
                model::lemma_wrap(p.total_in_ram + 1);
                assert forall|a: int| 0 <= a < NUM_SHARDS implies (
                #[trigger] post.shards[a]).messages.dom().finite() by {
                    assert(a != at ==> post.shards[a] == p.shards[a]);
                }
            },
            RecordView::Ack { msg_id, queue_name } => {
                model::lemma_shard_of_bound(queue_name);
                let at = model::shard_of(queue_name);
                lemma_kept_update(p.shards, NUM_SHARDS as nat, at, p.shard(queue_name));
                lemma_drop_counted(p.shard(queue_name).messages, msg_id);
                lemma_apply_ack_counted(p, queue_name, msg_id);
                assert(post == p.apply_ack(queue_name, msg_id));
            },
        }
    }
}

proof fn lemma_take_messages_counted(messages: Map<u128, MsgView>, items: Seq<ItemView>)
    requires
        messages.dom().finite(),
    ensures
        ({
            let (rest, taken) = shard::take_messages(messages, items);
            &&& rest.dom().finite()
            &&& rest.dom().len() + taken.len() == messages.dom().len()
        }),
    decreases items.len(),
{
    if items.len() > 0 {
        lemma_take_messages_counted(messages, items.drop_last());
        let rest = shard::take_messages(messages, items.drop_last()).0;
        lemma_drop_counted(rest, items.last().id);
    }
}

/// The id is in no shard's memory but possibly that of one.
pub open spec fn only_in(e: EngineView, home: int, id: u128) -> bool {
    forall|at: int|
        0 <= at < NUM_SHARDS && at != home ==> !(#[trigger] e.shards[at]).messages.contains_key(id)
}

proof fn lemma_route_counted(e: EngineView, msg: MsgView, now: u64)
    requires
        e.shards.len() == NUM_SHARDS,
        forall|at: int|
            0 <= at < NUM_SHARDS ==> (#[trigger] e.shards[at]).messages.dom().finite(),
        forall|at: int|
            0 <= at < NUM_SHARDS ==> !(#[trigger] e.shards[at]).messages.contains_key(msg.id),
    ensures
        ({
            let post = e.route(msg, now);
            &&& post.shards.len() == NUM_SHARDS
            &&& post.total_in_ram == e.total_in_ram
            &&& forall|at: int|
                0 <= at < NUM_SHARDS ==> (#[trigger] post.shards[at]).messages.dom().finite()
            &&& kept(post.shards, NUM_SHARDS as nat) == kept(e.shards, NUM_SHARDS as nat) + 1
            &&& forall|at: int, id: u128|
                0 <= at < NUM_SHARDS && id != msg.id
                    && !(#[trigger] e.shards[at]).messages.contains_key(id)
                    ==> !#[trigger] post.shards[at].messages.contains_key(id)
        }),
{
    let dead = model::dlq_name(msg.queue);
    model::lemma_shard_of_bound(msg.queue);
    model::lemma_shard_of_bound(dead);
    let post = e.route(msg, now);
    let n = NUM_SHARDS as nat;
    if msg.delivery_count >= msg.max_delivery {
        let s = e.shard(msg.queue).mark_acked(msg.id).tombstone(msg.queue, msg.id);
        let given_up = e.with_shard(msg.queue, s);
        assert(s.messages == e.shard(msg.queue).messages);
        lemma_kept_update(e.shards, n, model::shard_of(msg.queue), s);
        let t = given_up.shard(dead).mark_seen(msg.id);
        let moved = MsgView { queue: dead, visible_at: now, ..msg };
        lemma_store_counted(t, moved, now);
        lemma_kept_update(given_up.shards, n, model::shard_of(dead), t.store(moved, now));
    } else {
        let moved = MsgView { visible_at: now, ..msg };
        lemma_store_counted(e.shard(msg.queue), moved, now);
        lemma_kept_update(
            e.shards,
            n,
            model::shard_of(msg.queue),
            e.shard(msg.queue).store(moved, now),
        );
    }
}

proof fn lemma_route_all_counted(e: EngineView, msgs: Seq<MsgView>, now: u64)
    requires
        e.shards.len() == NUM_SHARDS,
        forall|at: int|
            0 <= at < NUM_SHARDS ==> (#[trigger] e.shards[at]).messages.dom().finite(),
        forall|at: int, k: int|
            0 <= at < NUM_SHARDS && 0 <= k < msgs.len()
                ==> !(#[trigger] e.shards[at]).messages.contains_key((#[trigger] msgs[k]).id),
        forall|i: int, j: int|
            0 <= i < j < msgs.len() ==> (#[trigger] msgs[i]).id != (#[trigger] msgs[j]).id,
    ensures
        ({
            let post = e.route_all(msgs, now);
            &&& post.shards.len() == NUM_SHARDS
            &&& post.total_in_ram == e.total_in_ram
            &&& forall|at: int|
                0 <= at < NUM_SHARDS ==> (#[trigger] post.shards[at]).messages.dom().finite()
            &&& kept(post.shards, NUM_SHARDS as nat) == kept(e.shards, NUM_SHARDS as nat)
                + msgs.len()
            &&& forall|at: int, id: u128|
                0 <= at < NUM_SHARDS && (forall|k: int|
                    0 <= k < msgs.len() ==> (#[trigger] msgs[k]).id != id)
                    && !(#[trigger] e.shards[at]).messages.contains_key(id)
                    ==> !#[trigger] post.shards[at].messages.contains_key(id)
        }),
    decreases msgs.len(),
{
    if msgs.len() > 0 {
        let head = msgs.drop_last();
        let n = msgs.len() - 1;
        let last = msgs[n];
        assert forall|at: int, k: int|
            0 <= at < NUM_SHARDS && 0 <= k < head.len() implies !(
        #[trigger] e.shards[at]).messages.contains_key((#[trigger] head[k]).id) by {
            assert(head[k] == msgs[k]);
        }
        assert forall|i: int, j: int| 0 <= i < j < head.len() implies (#[trigger] head[i]).id != (
        #[trigger] head[j]).id by {
            assert(head[i] == msgs[i] && head[j] == msgs[j]);
        }
        lemma_route_all_counted(e, head, now);
        let p = e.route_all(head, now);
        assert forall|k: int| 0 <= k < head.len() implies (#[trigger] head[k]).id != last.id by {
            assert(head[k] == msgs[k]);
        }
        assert forall|at: int| 0 <= at < NUM_SHARDS implies !(
        #[trigger] p.shards[at]).messages.contains_key(last.id) by {
            assert(!e.shards[at].messages.contains_key(msgs[n].id));
        }
        lemma_route_counted(p, last, now);
        let post = e.route_all(msgs, now);
        assert(post == p.route(last, now));
        assert forall|at: int, id: u128|
            0 <= at < NUM_SHARDS && (forall|k: int|
                0 <= k < msgs.len() ==> (#[trigger] msgs[k]).id != id)
                && !(#[trigger] e.shards[at]).messages.contains_key(
                id,
            ) implies !#[trigger] post.shards[at].messages.contains_key(id) by {
            assert forall|k: int| 0 <= k < head.len() implies (#[trigger] head[k]).id != id by {
                assert(head[k] == msgs[k]);
            }
            assert(!p.shards[at].messages.contains_key(id));
            assert(last.id != id);
        }
    }
}

/// Ending leases keeps the count right, as long as no message of the shard is in another
/// shard's memory under the same id.
pub proof fn law_expiry_keeps_count(e: EngineView, queue: Seq<char>, now: u64)
    requires
        e.inv(),
        counted(e),
        forall|id: u128| #[trigger]
            e.shard(queue).messages.contains_key(id) ==> only_in(e, model::shard_of(queue), id),
    ensures
        counted(e.expire(queue, now)),
{
    model::lemma_shard_of_bound(queue);
    let home = model::shard_of(queue);
    let s = e.shard(queue);
    assert(model::shard_holds(e.shards[home], home));
    model::lemma_take_expired(s, home, now);
    lemma_take_messages_counted(s.messages, s.wheel.collect(now).1);
    let (r, taken) = s.take_expired(now);
    let cleared = e.with_shard(queue, r);
    lemma_kept_update(e.shards, NUM_SHARDS as nat, home, r);
    assert forall|at: int| 0 <= at < NUM_SHARDS implies (
    #[trigger] cleared.shards[at]).messages.dom().finite() by {
        assert(at != home ==> cleared.shards[at] == e.shards[at]);
    }
    assert forall|at: int, k: int| 0 <= at < NUM_SHARDS && 0 <= k < taken.len() implies !(
    #[trigger] cleared.shards[at]).messages.contains_key((#[trigger] taken[k]).id) by {
        if at != home {
            assert(s.messages.contains_key(taken[k].id));
            assert(only_in(e, home, taken[k].id));
            assert(!e.shards[at].messages.contains_key(taken[k].id));
        }
    }
    lemma_route_all_counted(cleared, taken, now);
}

}
