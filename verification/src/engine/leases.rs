//! A message that is in memory is not known to be acknowledged, whatever is done. A message on
//! which a lease runs is in memory, whatever is done, but for an acknowledgement that was
//! decided elsewhere.
use vstd::prelude::*;

use crate::engine::compaction;
use crate::engine::counting;
use crate::engine::disk_log;
use crate::engine::disk_log::{DiskView, SegmentRead};
use crate::engine::exclusive;
use crate::engine::histories;
use crate::engine::laws;
use crate::engine::model;
use crate::engine::model::{EngineView, PushView, ScanView, NUM_SHARDS};
use crate::engine::queue::QueueOptions;
use crate::engine::recovery;
use crate::engine::shard::{MsgView, ShardView};
use crate::engine::wal::RecordView;
use crate::ids;

verus! {

/// Every message of the shard on which a lease runs is in memory.
pub open spec fn shard_has_leased(s: ShardView) -> bool {
    forall|id: u128| #[trigger] s.wheel.index.contains_key(id) ==> s.messages.contains_key(id)
}

/// Every message on which a lease runs is in memory.
pub open spec fn leased_in_memory(e: EngineView) -> bool {
    &&& e.shards.len() == NUM_SHARDS
    &&& forall|at: int| 0 <= at < NUM_SHARDS ==> shard_has_leased(#[trigger] e.shards[at])
}

proof fn lemma_with_shard(e: EngineView, queue: Seq<char>, s: ShardView)
    requires
        leased_in_memory(e),
        shard_has_leased(s),
    ensures
        leased_in_memory(e.with_shard(queue, s)),
{
    model::lemma_shard_of_bound(queue);
}

/// An engine with nothing in memory, a new one or one that was cleared, has no leases.
pub proof fn law_blank_engine_has_leased_in_memory(e: EngineView)
    requires
        e.is_clear(),
    ensures
        leased_in_memory(e),
{
    assert forall|at: int| 0 <= at < NUM_SHARDS implies shard_has_leased(#[trigger] e.shards[at]) by {
        assert(e.shards[at] == e.shards[at].cleared());
    }
}

proof fn lemma_store_has_leased(s: ShardView, msg: MsgView, now: u64)
    requires
        shard_has_leased(s),
    ensures
        shard_has_leased(s.store(msg, now)),
        shard_has_leased(s.mark_seen(msg.id).store(msg, now)),
        shard_has_leased(s.mark_seen(msg.id)),
{
}

proof fn lemma_accept(
    e: EngineView,
    queue: Seq<char>,
    id: u128,
    payload: Seq<u8>,
    visible_at: u64,
    now: u64,
)
    requires
        leased_in_memory(e),
    ensures
        leased_in_memory(e.accept(queue, id, payload, visible_at, now)),
{
    model::lemma_shard_of_bound(queue);
    let msg = e.fresh_msg(id, queue, payload, visible_at);
    let s = e.shard(queue);
    assert(shard_has_leased(s));
    lemma_store_has_leased(s, msg, now);
    lemma_with_shard(e, queue, s.mark_seen(id));
    lemma_with_shard(e, queue, s.mark_seen(id).store(msg, now));
}

/// A push keeps the messages in memory on which leases run.
pub proof fn law_push_keeps_leased_in_memory(
    e: EngineView,
    queue: Seq<char>,
    id: u128,
    payload: Seq<u8>,
    visible_at: u64,
    now: u64,
    post: EngineView,
)
    requires
        leased_in_memory(e),
        e.pushes_to(queue, id, payload, visible_at, now, post),
    ensures
        leased_in_memory(post),
{
    let logged = e.with_disk(e.disk.append_push(id, queue, visible_at, payload).flush());
    assert(leased_in_memory(logged));
    lemma_accept(logged, queue, id, payload, visible_at, now);
}

proof fn lemma_batch(
    e: EngineView,
    queue: Seq<char>,
    ids: Seq<u128>,
    items: Seq<PushView>,
    now: u64,
)
    requires
        leased_in_memory(e),
    ensures
        leased_in_memory(e.batch(queue, ids, items, now)),
    decreases ids.len(),
{
    if ids.len() > 0 {
        lemma_batch(e, queue, ids.drop_last(), items, now);
        let b = e.batch(queue, ids.drop_last(), items, now);
        let k = ids.len() - 1;
        let visible_at = (now + items[k].delay_seconds) as u64;
        let logged = b.with_disk(b.disk.append_push(ids[k], queue, visible_at, items[k].payload));
        assert(leased_in_memory(logged));
        lemma_accept(logged, queue, ids[k], items[k].payload, visible_at, now);
    }
}

/// A push of a batch keeps the messages in memory on which leases run.
pub proof fn law_batch_push_keeps_leased_in_memory(
    e: EngineView,
    queue: Seq<char>,
    ids: Seq<u128>,
    items: Seq<PushView>,
    now: u64,
    post: EngineView,
)
    requires
        leased_in_memory(e),
        e.batch_pushes_to(queue, ids, items, now, post),
    ensures
        leased_in_memory(post),
{
    lemma_batch(e, queue, ids, items, now);
    let b = e.batch(queue, ids, items, now);
    assert(b.shards == post.shards);
}

proof fn lemma_lease(
    s: ShardView,
    name: Seq<char>,
    ids: Seq<u128>,
    receipts: Seq<Seq<char>>,
    expire_at: u64,
)
    requires
        shard_has_leased(s),
    ensures
        shard_has_leased(s.lease(name, ids, receipts, expire_at).0),
    decreases ids.len(),
{
    if ids.len() > 0 {
        lemma_lease(s, name, ids.drop_last(), receipts, expire_at);
        let p = s.lease(name, ids.drop_last(), receipts, expire_at).0;
        let r = s.lease(name, ids, receipts, expire_at).0;
        assert forall|id: u128| #[trigger] r.wheel.index.contains_key(
            id,
        ) implies r.messages.contains_key(id) by {
            assert(id != ids.last() ==> p.wheel.index.contains_key(id) ==> p.messages.contains_key(
                id,
            ));
        }
    }
}

/// Handing messages out keeps the messages in memory on which leases run.
pub proof fn law_poll_keeps_leased_in_memory(
    e: EngineView,
    queue: Seq<char>,
    now: u64,
    max: nat,
    receipts: Seq<Seq<char>>,
    expire_at: u64,
)
    requires
        leased_in_memory(e),
    ensures
        ({
            let (claimed, ids) = e.claim(queue, now, max);
            leased_in_memory(claimed.lease(queue, ids, receipts, expire_at).0)
        }),
{
    model::lemma_shard_of_bound(queue);
    let s = e.shard(queue);
    let (c, ids) = s.claim(queue, now, max);
    assert(shard_has_leased(s));
    assert(shard_has_leased(c));
    lemma_with_shard(e, queue, c);
    let claimed = e.claim(queue, now, max).0;
    assert(claimed.shard(queue) == c);
    lemma_lease(c, queue, ids, receipts, expire_at);
    lemma_with_shard(claimed, queue, c.lease(queue, ids, receipts, expire_at).0);
}

proof fn lemma_route(e: EngineView, msg: MsgView, now: u64)
    requires
        leased_in_memory(e),
    ensures
        leased_in_memory(e.route(msg, now)),
{
    model::lemma_shard_of_bound(msg.queue);
    let s = e.shard(msg.queue);
    assert(shard_has_leased(s));
    if msg.delivery_count >= msg.max_delivery {
        let dead = model::dlq_name(msg.queue);
        model::lemma_shard_of_bound(dead);
        let t = s.mark_acked(msg.id).tombstone(msg.queue, msg.id);
        assert(shard_has_leased(t));
        let logged = e.with_disk(e.log_dead_letter(msg, now));
        assert(leased_in_memory(logged));
        lemma_with_shard(logged, msg.queue, t);
        let given_up = logged.with_shard(msg.queue, t);
        let letter = MsgView { queue: dead, visible_at: now, ..msg };
        lemma_store_has_leased(given_up.shard(dead), letter, now);
        lemma_with_shard(
            given_up,
            dead,
            given_up.shard(dead).mark_seen(msg.id).store(letter, now),
        );
    } else {
        let back = MsgView { visible_at: now, ..msg };
        lemma_store_has_leased(s, back, now);
        lemma_with_shard(e, msg.queue, s.store(back, now));
    }
}

proof fn lemma_route_all(e: EngineView, msgs: Seq<MsgView>, now: u64)
    requires
        leased_in_memory(e),
    ensures
        leased_in_memory(e.route_all(msgs, now)),
    decreases msgs.len(),
{
    if msgs.len() > 0 {
        lemma_route_all(e, msgs.drop_last(), now);
        lemma_route(e.route_all(msgs.drop_last(), now), msgs.last(), now);
    }
}

/// Ending the leases that ran out keeps the messages in memory on which the others run.
pub proof fn law_expiry_keeps_leased_in_memory(e: EngineView, queue: Seq<char>, now: u64)
    requires
        exclusive::all_exclusive(e),
        leased_in_memory(e),
    ensures
        leased_in_memory(e.expire(queue, now)),
{
    model::lemma_shard_of_bound(queue);
    let s = e.shard(queue);
    assert(exclusive::exclusive(s));
    assert(shard_has_leased(s));
    exclusive::lemma_collect_single(s.wheel, now);
    let (wheel, items) = s.wheel.collect(now);
    let (r, taken) = s.take_expired(now);
    assert forall|id: u128| #[trigger] r.wheel.index.contains_key(id) implies r.messages.contains_key(
        id,
    ) by {
        assert(wheel.index.dom().contains(id));
        assert(s.wheel.index.contains_key(id));
        assert forall|k: int| 0 <= k < items.len() implies (#[trigger] items[k]).id != id by {
            assert(!wheel.index.contains_key(items[k].id));
        }
        exclusive::lemma_take_messages_only(s.messages, items, id);
    }
    lemma_with_shard(e, queue, r);
    lemma_route_all(e.with_shard(queue, r), taken, now);
}

proof fn lemma_ack_lease(e: EngineView, queue: Seq<char>, id: u128)
    requires
        leased_in_memory(e),
    ensures
        leased_in_memory(e.ack_lease(queue, id)),
{
    model::lemma_shard_of_bound(queue);
    let s = e.shard(queue);
    let r = s.ack_lease(queue, id);
    assert(shard_has_leased(s));
    assert forall|x: u128| #[trigger] r.wheel.index.contains_key(x) implies r.messages.contains_key(
        x,
    ) by {
        assert(s.wheel.index.contains_key(x));
    }
    lemma_with_shard(e, queue, r);
}

/// An acknowledgement by a receipt keeps the messages in memory on which other leases run.
pub proof fn law_ack_keeps_leased_in_memory(
    e: EngineView,
    queue: Seq<char>,
    id: u128,
    post: EngineView,
)
    requires
        leased_in_memory(e),
        e.acks_to(queue, id, post),
    ensures
        leased_in_memory(post),
{
    lemma_ack_lease(e, queue, id);
    assert(post.shards == e.ack_lease(queue, id).shards);
}

proof fn lemma_ack_all(
    e: EngineView,
    queue: Seq<char>,
    items: Seq<(Seq<char>, Seq<char>)>,
    now: u64,
)
    requires
        leased_in_memory(e),
    ensures
        leased_in_memory(e.ack_all(queue, items, now)),
    decreases items.len(),
{
    if items.len() > 0 {
        lemma_ack_all(e, queue, items.drop_last(), now);
        let p = e.ack_all(queue, items.drop_last(), now);
        let (id_text, receipt) = items.last();
        if p.ack_is_valid(queue, id_text, receipt, now) {
            let id = ids::id_value(id_text).unwrap();
            let logged = p.with_disk(p.disk.append_ack(id, queue));
            assert(leased_in_memory(logged));
            lemma_ack_lease(logged, queue, id);
        }
    }
}

/// A batch of acknowledgements keeps the messages in memory on which other leases run.
pub proof fn law_batch_ack_keeps_leased_in_memory(
    e: EngineView,
    queue: Seq<char>,
    items: Seq<(Seq<char>, Seq<char>)>,
    now: u64,
    post: EngineView,
)
    requires
        leased_in_memory(e),
        e.batch_acks_to(queue, items, now, post),
    ensures
        leased_in_memory(post),
{
    lemma_ack_all(e, queue, items, now);
    assert(post.shards == e.ack_all(queue, items, now).shards);
}

/// Paging in records of the log keeps the messages in memory on which leases run, if it is
/// known what the log acknowledges.
pub proof fn law_paging_keeps_leased_in_memory(
    e: EngineView,
    log: Seq<RecordView>,
    records: Seq<RecordView>,
    now: u64,
)
    requires
        leased_in_memory(e),
        memory_is_open(e),
        histories::acks_are_known(e, log),
        forall|k: int| 0 <= k < records.len() ==> log.contains(#[trigger] records[k]),
    ensures
        leased_in_memory(e.page_records(records, now)),
        memory_is_open(e.page_records(records, now)),
        histories::acks_are_known(e.page_records(records, now), log),
    decreases records.len(),
{
    if records.len() > 0 {
        let head = records.drop_last();
        let last = records[records.len() - 1];
        assert forall|k: int| 0 <= k < head.len() implies log.contains(#[trigger] head[k]) by {
            assert(head[k] == records[k]);
        }
        law_paging_keeps_leased_in_memory(e, log, head, now);
        let p = e.page_records(head, now);
        let post = e.page_records(records, now);
        law_paging_keeps_memory_open(p, last, now);
        let queue = model::queue_of(last);
        model::lemma_shard_of_bound(queue);
        let home = model::shard_of(queue);
        let s = p.shard(queue);
        assert(shard_has_leased(p.shards[home]));
        assert(shard_is_open(p.shards[home]));
        match last {
            RecordView::Push { msg_id, queue_name, visible_at, payload } => {
                let msg = p.fresh_msg(msg_id, queue_name, payload, visible_at);
                lemma_store_has_leased(s, msg, now);
                lemma_with_shard(p, queue, s.mark_seen(msg_id).store(msg, now));
            },
            RecordView::Ack { msg_id, queue_name } => {
                assert(log.contains(last));
                let k = choose|k: int| 0 <= k < log.len() && log[k] == last;
                assert(compaction::acks_id(log[k], home, msg_id));
                assert(compaction::acked_in(log, home, msg_id));
                assert(p.shards[home].acked.contains(msg_id));
                assert(!s.messages.contains_key(msg_id));
                let r = s.apply_ack(queue, msg_id);
                assert(shard_has_leased(r)) by {
                    assert forall|x: u128| #[trigger] r.wheel.index.contains_key(
                        x,
                    ) implies r.messages.contains_key(x) by {
                        assert(s.wheel.index.contains_key(x));
                    }
                }
                lemma_with_shard(p, queue, r);
            },
        }
        assert forall|at: int, id: u128|
            0 <= at < NUM_SHARDS && #[trigger] compaction::acked_in(
                log,
                at,
                id,
            ) implies post.shards[at].acked.contains(id) by {
            assert(p.shards[at].acked.contains(id));
        }
    }
}

/// A step of a scan of the log keeps the messages in memory on which leases run, if it is known
/// what the log acknowledges.
pub proof fn law_scan_keeps_leased_in_memory(
    e: EngineView,
    log: Seq<RecordView>,
    scan: ScanView,
    read: SegmentRead,
)
    requires
        leased_in_memory(e),
        memory_is_open(e),
        histories::acks_are_known(e, log),
        disk_log::entries_from(e.disk.registry, e.spill_offset, scan.fetch_limit, read) matches Some(
            (records, _),
        ) ==> forall|k: int| 0 <= k < records.len() ==> log.contains(#[trigger] records[k]),
    ensures
        leased_in_memory(e.page_step(scan, read).0),
        memory_is_open(e.page_step(scan, read).0),
        histories::acks_are_known(e.page_step(scan, read).0, log),
{
    match disk_log::entries_from(e.disk.registry, e.spill_offset, scan.fetch_limit, read) {
        Some((records, next)) => {
            let n = e.page_count(records, scan.now) as int;
            model::lemma_page_count(e, records, scan.now);
            let taken = records.take(n);
            assert forall|k: int| 0 <= k < taken.len() implies log.contains(#[trigger] taken[k]) by {
                assert(taken[k] == records[k]);
            }
            law_paging_keeps_leased_in_memory(e, log, taken, scan.now);
            let paged = e.page_records(taken, scan.now);
            let post = e.page_step(scan, read).0;
            assert(post.shards == e.shards || post.shards == paged.shards);
        },
        None => {},
    }
}

/// Recovery leads to an engine without leases.
pub proof fn law_recovered_engine_has_leased_in_memory(e: EngineView, records: Seq<RecordView>)
    requires
        e.is_clear(),
    ensures
        leased_in_memory(e.replay(records)),
{
    lemma_replay_has_no_leases(e, records);
}

proof fn lemma_replay_has_no_leases(e: EngineView, records: Seq<RecordView>)
    requires
        e.is_clear(),
    ensures
        e.replay(records).shards.len() == NUM_SHARDS,
        forall|at: int|
            0 <= at < NUM_SHARDS ==> (#[trigger] e.replay(records).shards[at]).wheel.index.dom()
                == Set::<u128>::empty(),
    decreases records.len(),
{
    if records.len() > 0 {
        lemma_replay_has_no_leases(e, records.drop_last());
        let p = e.replay(records.drop_last());
        model::lemma_shard_of_bound(model::queue_of(records.last()));
        assert forall|at: int| 0 <= at < NUM_SHARDS implies (#[trigger] e.replay(
            records,
        ).shards[at]).wheel.index.dom() == Set::<u128>::empty() by {
            assert(p.shards[at].wheel.index.dom() == Set::<u128>::empty());
        }
    } else {
        assert forall|at: int| 0 <= at < NUM_SHARDS implies (
        #[trigger] e.shards[at]).wheel.index.dom() == Set::<u128>::empty() by {
            assert(e.shards[at] == e.shards[at].cleared());
            assert(e.shards[at].wheel.index.dom() =~= Set::<u128>::empty());
        }
    }
}

/// No message that the shard has in memory is known to be acknowledged.
pub open spec fn shard_is_open(s: ShardView) -> bool {
    forall|id: u128| #[trigger] s.messages.contains_key(id) ==> !s.acked.contains(id)
}

/// No message in memory is known to be acknowledged.
pub open spec fn memory_is_open(e: EngineView) -> bool {
    &&& e.shards.len() == NUM_SHARDS
    &&& forall|at: int| 0 <= at < NUM_SHARDS ==> shard_is_open(#[trigger] e.shards[at])
}

proof fn lemma_with_open_shard(e: EngineView, queue: Seq<char>, s: ShardView)
    requires
        memory_is_open(e),
        shard_is_open(s),
    ensures
        memory_is_open(e.with_shard(queue, s)),
{
    model::lemma_shard_of_bound(queue);
}

/// An engine with nothing in memory, a new one or one that was cleared, has nothing in memory
/// that is known to be acknowledged.
pub proof fn law_blank_engine_is_open(e: EngineView)
    requires
        e.is_clear(),
    ensures
        memory_is_open(e),
{
    assert forall|at: int| 0 <= at < NUM_SHARDS implies shard_is_open(#[trigger] e.shards[at]) by {
        assert(e.shards[at] == e.shards[at].cleared());
    }
}

proof fn lemma_accept_open(
    e: EngineView,
    queue: Seq<char>,
    id: u128,
    payload: Seq<u8>,
    visible_at: u64,
    now: u64,
)
    requires
        memory_is_open(e),
        !e.shard(queue).acked.contains(id),
    ensures
        memory_is_open(e.accept(queue, id, payload, visible_at, now)),
{
    model::lemma_shard_of_bound(queue);
    let s = e.shard(queue);
    assert(shard_is_open(s));
    let n = s.mark_seen(id);
    lemma_with_open_shard(e, queue, n);
    lemma_with_open_shard(e, queue, n.store(e.fresh_msg(id, queue, payload, visible_at), now));
}

/// A push brings nothing into memory that is known to be acknowledged, as long as nothing is
/// acknowledged before it is first pushed.
pub proof fn law_push_keeps_memory_open(
    e: EngineView,
    queue: Seq<char>,
    id: u128,
    payload: Seq<u8>,
    visible_at: u64,
    now: u64,
    post: EngineView,
)
    requires
        memory_is_open(e),
        e.shard(queue).acked.contains(id) ==> e.shard(queue).seen.contains(id),
        e.pushes_to(queue, id, payload, visible_at, now, post),
    ensures
        memory_is_open(post),
{
    let logged = e.with_disk(e.disk.append_push(id, queue, visible_at, payload).flush());
    assert(memory_is_open(logged));
    if !e.shard(queue).seen.contains(id) {
        lemma_accept_open(logged, queue, id, payload, visible_at, now);
    }
}

proof fn lemma_batch_open(
    e: EngineView,
    queue: Seq<char>,
    ids: Seq<u128>,
    items: Seq<PushView>,
    now: u64,
)
    requires
        memory_is_open(e),
        e.shard(queue).acked.subset_of(e.shard(queue).seen),
    ensures
        memory_is_open(e.batch(queue, ids, items, now)),
        ({
            let s = e.batch(queue, ids, items, now).shard(queue);
            s.acked.subset_of(s.seen)
        }),
    decreases ids.len(),
{
    if ids.len() > 0 {
        lemma_batch_open(e, queue, ids.drop_last(), items, now);
        model::lemma_shard_of_bound(queue);
        let b = e.batch(queue, ids.drop_last(), items, now);
        let k = ids.len() - 1;
        if !b.shard(queue).seen.contains(ids[k]) {
            let visible_at = (now + items[k].delay_seconds) as u64;
            let logged = b.with_disk(
                b.disk.append_push(ids[k], queue, visible_at, items[k].payload),
            );
            assert(memory_is_open(logged));
            lemma_accept_open(logged, queue, ids[k], items[k].payload, visible_at, now);
        }
    }
}

/// A push of a batch brings nothing into memory that is known to be acknowledged, as long as
/// nothing is acknowledged before it is first pushed.
pub proof fn law_batch_push_keeps_memory_open(
    e: EngineView,
    queue: Seq<char>,
    ids: Seq<u128>,
    items: Seq<PushView>,
    now: u64,
    post: EngineView,
)
    requires
        memory_is_open(e),
        e.shard(queue).acked.subset_of(e.shard(queue).seen),
        e.batch_pushes_to(queue, ids, items, now, post),
    ensures
        memory_is_open(post),
{
    lemma_batch_open(e, queue, ids, items, now);
    assert(post.shards == e.batch(queue, ids, items, now).shards);
}

/// Handing messages out leaves nothing in memory that is known to be acknowledged.
pub proof fn law_poll_keeps_memory_open(
    e: EngineView,
    queue: Seq<char>,
    now: u64,
    max: nat,
    receipts: Seq<Seq<char>>,
    expire_at: u64,
)
    requires
        memory_is_open(e),
    ensures
        ({
            let (claimed, ids) = e.claim(queue, now, max);
            memory_is_open(claimed.lease(queue, ids, receipts, expire_at).0)
        }),
{
    model::lemma_shard_of_bound(queue);
    let s = e.shard(queue);
    let (c, ids) = s.claim(queue, now, max);
    assert(shard_is_open(s));
    lemma_with_open_shard(e, queue, c);
    let claimed = e.claim(queue, now, max).0;
    assert(claimed.shard(queue) == c);
    laws::lemma_lease_frame(c, queue, ids, receipts, expire_at);
    let r = c.lease(queue, ids, receipts, expire_at).0;
    assert forall|id: u128| #[trigger] r.messages.contains_key(id) implies !r.acked.contains(id) by {
        assert(r.messages.dom().contains(id));
        assert(c.messages.dom().contains(id));
        assert(s.messages.contains_key(id));
    }
    lemma_with_open_shard(claimed, queue, r);
}

/// Where a message whose lease ran out may go without being in memory though acknowledged.
spec fn may_route(e: EngineView, msg: MsgView) -> bool {
    &&& !e.shard(msg.queue).acked.contains(msg.id)
    &&& !e.shard(msg.queue).messages.contains_key(msg.id)
    &&& !e.shard(model::dlq_name(msg.queue)).acked.contains(msg.id)
}

proof fn lemma_route_open(e: EngineView, msg: MsgView, now: u64)
    requires
        memory_is_open(e),
        may_route(e, msg),
    ensures
        memory_is_open(e.route(msg, now)),
        forall|other: MsgView|
            other.id != msg.id && may_route(e, other) ==> #[trigger] may_route(
                e.route(msg, now),
                other,
            ),
{
    model::lemma_shard_of_bound(msg.queue);
    let s = e.shard(msg.queue);
    assert(shard_is_open(s));
    let post = e.route(msg, now);
    if msg.delivery_count >= msg.max_delivery {
        let dead = model::dlq_name(msg.queue);
        model::lemma_shard_of_bound(dead);
        model::law_dead_letters_go_to_another_shard(msg.queue);
        let t = s.mark_acked(msg.id).tombstone(msg.queue, msg.id);
        assert(shard_is_open(t));
        let logged = e.with_disk(e.log_dead_letter(msg, now));
        assert(memory_is_open(logged));
        lemma_with_open_shard(logged, msg.queue, t);
        let given_up = logged.with_shard(msg.queue, t);
        let d = given_up.shard(dead);
        assert(d == e.shard(dead));
        assert(shard_is_open(d));
        let letter = MsgView { queue: dead, visible_at: now, ..msg };
        let r = d.mark_seen(msg.id).store(letter, now);
        assert(shard_is_open(r));
        lemma_with_open_shard(given_up, dead, r);
    } else {
        lemma_with_open_shard(e, msg.queue, s.store(MsgView { visible_at: now, ..msg }, now));
    }
    assert forall|other: MsgView| other.id != msg.id && may_route(
        e,
        other,
    ) implies #[trigger] may_route(post, other) by {
        model::lemma_shard_of_bound(other.queue);
        model::lemma_shard_of_bound(model::dlq_name(other.queue));
    }
}

proof fn lemma_route_all_open(e: EngineView, msgs: Seq<MsgView>, now: u64)
    requires
        memory_is_open(e),
        forall|i: int, j: int|
            0 <= i < j < msgs.len() ==> (#[trigger] msgs[i]).id != (#[trigger] msgs[j]).id,
        forall|k: int| 0 <= k < msgs.len() ==> may_route(e, #[trigger] msgs[k]),
    ensures
        memory_is_open(e.route_all(msgs, now)),
        forall|other: MsgView|
            may_route(e, other) && (forall|k: int|
                0 <= k < msgs.len() ==> (#[trigger] msgs[k]).id != other.id)
                ==> #[trigger] may_route(e.route_all(msgs, now), other),
    decreases msgs.len(),
{
    if msgs.len() > 0 {
        let head = msgs.drop_last();
        let last = msgs[msgs.len() - 1];
        assert forall|i: int, j: int| 0 <= i < j < head.len() implies (#[trigger] head[i]).id != (
        #[trigger] head[j]).id by {
            assert(head[i] == msgs[i] && head[j] == msgs[j]);
        }
        assert forall|k: int| 0 <= k < head.len() implies may_route(e, #[trigger] head[k]) by {
            assert(head[k] == msgs[k]);
        }
        lemma_route_all_open(e, head, now);
        let p = e.route_all(head, now);
        assert forall|k: int| 0 <= k < head.len() implies (#[trigger] head[k]).id != last.id by {
            assert(msgs[k].id != msgs[msgs.len() - 1].id);
        }
        assert(may_route(p, last));
        lemma_route_open(p, last, now);
        assert forall|other: MsgView|
            may_route(e, other) && (forall|k: int|
                0 <= k < msgs.len() ==> (#[trigger] msgs[k]).id
                    != other.id) implies #[trigger] may_route(e.route_all(msgs, now), other) by {
            assert forall|k: int| 0 <= k < head.len() implies (#[trigger] head[k]).id != other.id by {
                assert(head[k] == msgs[k]);
            }
            assert(may_route(p, other));
            assert(last.id != other.id);
        }
    }
}

/// Ending the leases that ran out leaves nothing in memory that is known to be acknowledged, as
/// long as a message that goes to a dead letter queue is not acknowledged there already under
/// the same id.
pub proof fn law_expiry_keeps_memory_open(e: EngineView, queue: Seq<char>, now: u64)
    requires
        e.inv(),
        memory_is_open(e),
        forall|at: int, id: u128|
            0 <= at < NUM_SHARDS && at != model::shard_of(queue) && e.shard(
                queue,
            ).messages.contains_key(id) ==> !#[trigger] e.shards[at].acked.contains(id),
    ensures
        memory_is_open(e.expire(queue, now)),
{
    model::lemma_shard_of_bound(queue);
    let home = model::shard_of(queue);
    let s = e.shard(queue);
    assert(shard_is_open(s));
    assert(model::shard_holds(s, home));
    model::lemma_take_expired(s, home, now);
    let (r, taken) = s.take_expired(now);
    assert(r.acked == s.acked);
    assert forall|id: u128| #[trigger] r.messages.contains_key(id) implies !r.acked.contains(id) by {
        assert(r.messages.dom().contains(id));
        assert(s.messages.contains_key(id));
    }
    lemma_with_open_shard(e, queue, r);
    let cleared = e.with_shard(queue, r);
    assert forall|k: int| 0 <= k < taken.len() implies may_route(cleared, #[trigger] taken[k]) by {
        let msg = taken[k];
        let dead = model::dlq_name(msg.queue);
        model::lemma_shard_of_bound(dead);
        model::law_dead_letters_go_to_another_shard(msg.queue);
        assert(s.messages.contains_key(msg.id));
        assert(cleared.shard(msg.queue) == r);
        assert(cleared.shard(dead) == e.shards[model::shard_of(dead)]);
        assert(!e.shards[model::shard_of(dead)].acked.contains(msg.id));
    }
    lemma_route_all_open(cleared, taken, now);
}

proof fn lemma_acks_open(e: EngineView, queue: Seq<char>, id: u128)
    requires
        memory_is_open(e),
    ensures
        memory_is_open(e.ack_lease(queue, id)),
        memory_is_open(e.apply_ack(queue, id)),
{
    model::lemma_shard_of_bound(queue);
    let s = e.shard(queue);
    assert(shard_is_open(s));
    assert(shard_is_open(s.ack_lease(queue, id)));
    assert(shard_is_open(s.apply_ack(queue, id)));
    lemma_with_open_shard(e, queue, s.ack_lease(queue, id));
    lemma_with_open_shard(e, queue, s.apply_ack(queue, id));
}

/// An acknowledgement, by receipt or from elsewhere, leaves nothing in memory that is known to
/// be acknowledged.
pub proof fn law_ack_keeps_memory_open(
    e: EngineView,
    queue: Seq<char>,
    id: u128,
    post: EngineView,
)
    requires
        memory_is_open(e),
        e.acks_to(queue, id, post) || e.follower_acks_to(queue, id, post),
    ensures
        memory_is_open(post),
{
    lemma_acks_open(e, queue, id);
    assert(post.shards == e.ack_lease(queue, id).shards || post.shards == e.apply_ack(
        queue,
        id,
    ).shards);
}

proof fn lemma_ack_all_open(
    e: EngineView,
    queue: Seq<char>,
    items: Seq<(Seq<char>, Seq<char>)>,
    now: u64,
)
    requires
        memory_is_open(e),
    ensures
        memory_is_open(e.ack_all(queue, items, now)),
    decreases items.len(),
{
    if items.len() > 0 {
        lemma_ack_all_open(e, queue, items.drop_last(), now);
        let p = e.ack_all(queue, items.drop_last(), now);
        let (id_text, receipt) = items.last();
        if p.ack_is_valid(queue, id_text, receipt, now) {
            let id = ids::id_value(id_text).unwrap();
            let logged = p.with_disk(p.disk.append_ack(id, queue));
            assert(memory_is_open(logged));
            lemma_acks_open(logged, queue, id);
        }
    }
}

/// A batch of acknowledgements leaves nothing in memory that is known to be acknowledged.
pub proof fn law_batch_ack_keeps_memory_open(
    e: EngineView,
    queue: Seq<char>,
    items: Seq<(Seq<char>, Seq<char>)>,
    now: u64,
    post: EngineView,
)
    requires
        memory_is_open(e),
        e.batch_acks_to(queue, items, now, post),
    ensures
        memory_is_open(post),
{
    lemma_ack_all_open(e, queue, items, now);
    assert(post.shards == e.ack_all(queue, items, now).shards);
}

/// Paging in a record of the log brings nothing into memory that is known to be acknowledged.
pub proof fn law_paging_keeps_memory_open(e: EngineView, record: RecordView, now: u64)
    requires
        memory_is_open(e),
    ensures
        memory_is_open(e.page_record(record, now)),
{
    let queue = model::queue_of(record);
    model::lemma_shard_of_bound(queue);
    let s = e.shard(queue);
    assert(shard_is_open(s));
    match record {
        RecordView::Push { msg_id, queue_name, visible_at, payload } => {
            if e.pages_in(record, now) {
                let msg = e.fresh_msg(msg_id, queue_name, payload, visible_at);
                let r = s.mark_seen(msg_id).store(msg, now);
                assert(shard_is_open(r));
                lemma_with_open_shard(e, queue, r);
            }
        },
        RecordView::Ack { msg_id, queue_name } => {
            lemma_acks_open(e, queue, msg_id);
        },
    }
}

/// Every acknowledgement among the records follows a push of its message.
pub open spec fn acks_follow_pushes(records: Seq<RecordView>) -> bool {
    forall|at: int, id: u128, k: int|
        0 <= k < records.len() && #[trigger] compaction::acks_id(records[k], at, id) ==> exists|
            j: int,
        |
            0 <= j < k && recovery::pushes_id(#[trigger] records[j], at, id)
}

proof fn lemma_replay_open(e: EngineView, records: Seq<RecordView>)
    requires
        e.shards.len() == NUM_SHARDS,
        memory_is_open(e),
        forall|at: int|
            0 <= at < NUM_SHARDS ==> (#[trigger] e.shards[at]).acked.subset_of(e.shards[at].seen),
        acks_follow_pushes(records),
    ensures
        memory_is_open(e.replay(records)),
        forall|at: int|
            0 <= at < NUM_SHARDS ==> (#[trigger] e.replay(records).shards[at]).acked.subset_of(
                e.replay(records).shards[at].seen,
            ),
    decreases records.len(),
{
    if records.len() > 0 {
        let head = records.drop_last();
        let last = records[records.len() - 1];
        assert(acks_follow_pushes(head)) by {
            assert forall|at: int, id: u128, k: int|
                0 <= k < head.len() && #[trigger] compaction::acks_id(
                    head[k],
                    at,
                    id,
                ) implies exists|j: int|
                0 <= j < k && recovery::pushes_id(#[trigger] head[j], at, id) by {
                assert(compaction::acks_id(records[k], at, id));
                let j = choose|j: int|
                    0 <= j < k && recovery::pushes_id(#[trigger] records[j], at, id);
                assert(recovery::pushes_id(head[j], at, id));
            }
        }
        lemma_replay_open(e, head);
        let p = e.replay(head);
        let post = e.replay(records);
        let queue = model::queue_of(last);
        model::lemma_shard_of_bound(queue);
        let home = model::shard_of(queue);
        let s = p.shards[home];
        assert(shard_is_open(s));
        assert(s.acked.subset_of(s.seen));
        match last {
            RecordView::Push { msg_id, queue_name, visible_at, payload } => {
                assert(shard_is_open(post.shards[home]));
            },
            RecordView::Ack { msg_id, queue_name } => {
                assert(compaction::acks_id(records[records.len() - 1], home, msg_id));
                let j = choose|j: int|
                    0 <= j < records.len() - 1 && recovery::pushes_id(
                        #[trigger] records[j],
                        home,
                        msg_id,
                    );
                assert(recovery::pushes_id(head[j], home, msg_id));
                recovery::lemma_pushed_is_seen(e, head, home, msg_id, j);
                lemma_acks_open(p, queue, msg_id);
                assert(post.shards[home] == s.apply_ack(queue, msg_id));
            },
        }
        assert forall|at: int| 0 <= at < NUM_SHARDS implies shard_is_open(
            #[trigger] post.shards[at],
        ) && post.shards[at].acked.subset_of(post.shards[at].seen) by {
            if at != home {
                assert(post.shards[at] == p.shards[at]);
                assert(shard_is_open(p.shards[at]));
            }
        }
    }
}

/// Recovery brings nothing into memory that is known to be acknowledged, from a log in which
/// acknowledgements follow the pushes of their messages.
pub proof fn law_recovery_keeps_memory_open(
    disk: DiskView,
    options: QueueOptions,
    base_epoch_sec: u64,
    records: Seq<RecordView>,
)
    requires
        acks_follow_pushes(records),
    ensures
        memory_is_open(EngineView::blank(disk, options, base_epoch_sec).replay(records)),
{
    let blank = EngineView::blank(disk, options, base_epoch_sec);
    assert(blank.is_clear()) by {
        assert forall|at: int| 0 <= at < NUM_SHARDS implies #[trigger] blank.shards[at]
            == blank.shards[at].cleared() by {}
    }
    law_blank_engine_is_open(blank);
    lemma_replay_open(blank, records);
}

/// The engine after acknowledgements one by one, and how many of them were accepted.
pub open spec fn ack_one_by_one(
    e: EngineView,
    queue: Seq<char>,
    items: Seq<(Seq<char>, Seq<char>)>,
    now: u64,
) -> (EngineView, nat)
    decreases items.len(),
{
    if items.len() == 0 {
        (e, 0)
    } else {
        let (p, n) = ack_one_by_one(e, queue, items.drop_last(), now);
        let (id_text, receipt) = items.last();
        if p.ack_is_valid(queue, id_text, receipt, now) {
            let id = ids::id_value(id_text).unwrap();
            (p.ack_lease(queue, id).with_disk(p.disk.append_ack(id, queue).flush()), n + 1)
        } else {
            (p, n)
        }
    }
}

/// A batch of acknowledgements counts what the acknowledgements one by one would, leaves the
/// same in memory, and takes as many messages out of it as it counts, if the messages on which
/// leases run are in memory.
pub proof fn law_ack_batch_counts_as_one_by_one(
    e: EngineView,
    queue: Seq<char>,
    items: Seq<(Seq<char>, Seq<char>)>,
    now: u64,
    post: EngineView,
)
    requires
        leased_in_memory(e),
        counting::counted(e),
        e.batch_acks_to(queue, items, now, post),
    ensures
        e.ack_count(queue, items, now) == ack_one_by_one(e, queue, items, now).1,
        post.shards == ack_one_by_one(e, queue, items, now).0.shards,
        post.total_in_ram == ack_one_by_one(e, queue, items, now).0.total_in_ram,
        post.total_in_ram == e.total_in_ram - e.ack_count(queue, items, now),
{
    lemma_one_by_one(e, queue, items, now);
    counting::law_batch_ack_keeps_count(e, queue, items, now, post);
}

proof fn lemma_one_by_one(
    e: EngineView,
    queue: Seq<char>,
    items: Seq<(Seq<char>, Seq<char>)>,
    now: u64,
)
    requires
        leased_in_memory(e),
    ensures
        e.ack_count(queue, items, now) == ack_one_by_one(e, queue, items, now).1,
        e.ack_all(queue, items, now).shards == ack_one_by_one(e, queue, items, now).0.shards,
        e.ack_all(queue, items, now).total_in_ram == ack_one_by_one(
            e,
            queue,
            items,
            now,
        ).0.total_in_ram,
    decreases items.len(),
{
    if items.len() > 0 {
        let head = items.drop_last();
        lemma_one_by_one(e, queue, head, now);
        lemma_ack_all(e, queue, head, now);
        model::lemma_shard_of_bound(queue);
        let p = e.ack_all(queue, head, now);
        assert(shard_has_leased(p.shards[model::shard_of(queue)]));
    }
}

}
