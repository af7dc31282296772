//! What a lease is: while it runs, its receipt acknowledges the message and no poll hands the
//! message out; from its end on, its receipt is refused and the message comes back.
use vstd::prelude::*;

use crate::engine::compaction;
use crate::engine::delivery;
use crate::engine::exclusive;
use crate::engine::laws;
use crate::engine::model;
use crate::engine::model::{EngineView, NUM_SHARDS};
use crate::engine::queue;
use crate::engine::queue::QueueError;
use crate::engine::redelivery;
use crate::engine::sequences;
use crate::engine::sequences::PollStep;
use crate::engine::shard;
use crate::engine::shard::{MsgView, PolledView, ShardView};
use crate::engine::timer_wheel;
use crate::engine::timer_wheel::ItemView;
use crate::engine::timing;
use crate::engine::wal::RecordView;
use crate::ids;

verus! {

/// A lease on the message of the queue runs until `until` under this receipt, and the message
/// waits nowhere in the queue.
pub open spec fn leased_until(
    e: EngineView,
    queue: Seq<char>,
    id: u128,
    receipt: Seq<char>,
    until: u64,
) -> bool {
    let s = e.shard(queue);
    &&& timing::withheld(e, queue, id, u64::MAX + 1, until as int)
    &&& s.wheel.index.contains_key(id)
    &&& s.wheel.index[id].1 == receipt
    &&& s.wheel.index[id].2 == until
    &&& timer_wheel::in_wheel(s.wheel, ItemView { id, queue, receipt, expire_at: until })
    &&& s.messages.contains_key(id)
    &&& 0 < s.wheel.last_checked_sec < until
}

/// Leases are ended before `until` only.
pub open spec fn ends_before(steps: Seq<PollStep>, until: u64) -> bool {
    forall|k: int|
        0 <= k < steps.len() ==> ((#[trigger] steps[k]) matches PollStep::End { now } ==> 0 < now
            < until)
}

/// The `k`-th message that is handed out is one of the claimed, as it was but for one delivery
/// more, and its lease is in the wheel.
proof fn lemma_lease_entry(
    s: ShardView,
    name: Seq<char>,
    ids: Seq<u128>,
    receipts: Seq<Seq<char>>,
    expire_at: u64,
    k: int,
) -> (j: int)
    requires
        s.wheel.wf(),
        ids.no_duplicates(),
        0 <= k < s.lease(name, ids, receipts, expire_at).1.len(),
    ensures
        0 <= j < ids.len(),
        s.messages.contains_key(ids[j]),
        ({
            let (r, polled) = s.lease(name, ids, receipts, expire_at);
            let id = ids[j];
            let item = ItemView { id, queue: name, receipt: receipts[j], expire_at };
            let count = ((s.messages[id].delivery_count + 1) % 0x1_0000_0000) as u32;
            &&& r.wheel.wf()
            &&& r.wheel.last_checked_sec == s.wheel.last_checked_sec
            &&& polled[k] == (PolledView {
                message_id: ids::ulid_text(id),
                payload: s.messages[id].payload,
                receipt_handle: receipts[j],
                delivery_count: count,
            })
            &&& r.messages.contains_key(id)
            &&& r.messages[id] == (MsgView { delivery_count: count, ..s.messages[id] })
            &&& r.wheel.index.contains_key(id)
            &&& r.wheel.index[id].1 == receipts[j]
            &&& r.wheel.index[id].2 == expire_at
            &&& timer_wheel::in_wheel(r.wheel, item)
            &&& forall|other: ItemView| #[trigger]
                timer_wheel::in_wheel(r.wheel, other) && other.id == id && other != item
                    ==> timer_wheel::in_wheel(s.wheel, other)
        }),
    decreases ids.len(),
{
    let head = ids.drop_last();
    let last = ids.last();
    let n = ids.len() - 1;
    assert(ids[n] == last);
    assert(head.no_duplicates()) by {
        assert forall|a: int, b: int| 0 <= a < head.len() && 0 <= b < head.len() && a
            != b implies head[a] != head[b] by {
            assert(ids[a] != ids[b]);
        }
    }
    let (p, listed) = s.lease(name, head, receipts, expire_at);
    let (r, polled) = s.lease(name, ids, receipts, expire_at);
    assert(!head.contains(last)) by {
        if head.contains(last) {
            let a = choose|a: int| 0 <= a < head.len() && head[a] == last;
            assert(ids[a] == ids[n]);
        }
    }
    timing::lemma_lease_spares(s, name, head, receipts, expire_at, last);
    lemma_lease_clock(s, name, head, receipts, expire_at);
    assert(p.messages.dom().contains(last) == s.messages.dom().contains(last));
    let newest = ItemView { id: last, queue: name, receipt: receipts[n], expire_at };
    timing::lemma_wheel_insert(p.wheel, newest);
    if k < listed.len() {
        let j = lemma_lease_entry(s, name, head, receipts, expire_at, k);
        assert(head[j] == ids[j]);
        assert(ids[j] != ids[n]);
        assert(polled[k] == listed[k]);
        j
    } else {
        n
    }
}

proof fn lemma_lease_clock(
    s: ShardView,
    name: Seq<char>,
    ids: Seq<u128>,
    receipts: Seq<Seq<char>>,
    expire_at: u64,
)
    ensures
        s.lease(name, ids, receipts, expire_at).0.wheel.last_checked_sec
            == s.wheel.last_checked_sec,
    decreases ids.len(),
{
    if ids.len() > 0 {
        lemma_lease_clock(s, name, ids.drop_last(), receipts, expire_at);
    }
}

/// Every message that is handed out until `expire_at` is one that was in memory. It is handed
/// out with its payload, it counts one delivery more, and a lease on it runs until `expire_at`
/// under the receipt that was handed out.
pub proof fn law_polled_message_is_leased(
    e: EngineView,
    queue: Seq<char>,
    now: u64,
    max: nat,
    receipts: Seq<Seq<char>>,
    expire_at: u64,
    k: int,
) -> (id: u128)
    requires
        exclusive::all_exclusive(e),
        0 < e.shard(queue).wheel.last_checked_sec < expire_at,
        0 <= k < sequences::step_once(
            e,
            queue,
            PollStep::Take { now, max, receipts, expire_at },
        ).1.len(),
    ensures
        ({
            let (post, polled) = sequences::step_once(
                e,
                queue,
                PollStep::Take { now, max, receipts, expire_at },
            );
            let msg = e.shard(queue).messages[id];
            let count = ((msg.delivery_count + 1) % 0x1_0000_0000) as u32;
            &&& e.shard(queue).messages.contains_key(id)
            &&& polled[k].message_id == ids::ulid_text(id)
            &&& polled[k].payload == msg.payload
            &&& polled[k].delivery_count == count
            &&& post.shard(queue).messages[id] == (MsgView { delivery_count: count, ..msg })
            &&& leased_until(post, queue, id, polled[k].receipt_handle, expire_at)
        }),
{
    model::lemma_shard_of_bound(queue);
    let at = model::shard_of(queue);
    let s = e.shard(queue);
    assert(exclusive::exclusive(e.shards[at]));
    exclusive::lemma_claim_exclusive(s, queue, now, max);
    let (claimed, ids) = e.claim(queue, now, max);
    let c = claimed.shard(queue);
    assert(c == s.claim(queue, now, max).0);
    let j = lemma_lease_entry(c, queue, ids, receipts, expire_at, k);
    let id = ids[j];
    let (r, polled) = c.lease(queue, ids, receipts, expire_at);
    let post = claimed.lease(queue, ids, receipts, expire_at).0;
    assert(post.shard(queue) == r);
    assert(exclusive::is_free(c, id));
    model::lemma_claim_inv(e, queue, now, max);
    model::lemma_lease_inv(claimed, queue, ids, receipts, expire_at);
    delivery::lemma_lease_queues(c, queue, ids, receipts, expire_at);
    assert forall|item: ItemView| #[trigger] timer_wheel::in_wheel(r.wheel, item) && item.id
        == id implies item.expire_at >= expire_at by {
        if timer_wheel::in_wheel(c.wheel, item) {
            let slot = c.wheel.slot_of(item.expire_at as int);
            let i = choose|i: int| 0 <= i < c.wheel.slots[slot].len() && c.wheel.slots[slot][i] == item;
            assert(c.wheel.index.contains_key(c.wheel.slots[slot][i].id));
        }
    }
    if r.queues.contains_key(queue) {
        let q = r.queues[queue];
        assert(exclusive::once(c.queues[queue]));
        assert(!exclusive::waits(c, queue, id));
        assert(!exclusive::queued(q, id));
        assert forall|sec: u64| #[trigger] q.hot.contains_key(sec) && q.hot[sec].contains(
            id,
        ) implies sec >= u64::MAX + 1 by {
            assert(exclusive::in_hot(q.hot, id));
        }
        assert forall|i: int| 0 <= i < q.far.len() && (#[trigger] q.far[i]).id
            == id implies q.far[i].visible_at >= u64::MAX + 1 by {
            assert(exclusive::in_far(q.far, id));
        }
    }
    id
}

proof fn lemma_paging_keeps_message(
    e: EngineView,
    records: Seq<RecordView>,
    now: u64,
    at: int,
    id: u128,
)
    requires
        e.shards.len() == NUM_SHARDS,
        0 <= at < NUM_SHARDS,
        e.shards[at].messages.contains_key(id),
        !compaction::acked_in(records, at, id),
    ensures
        e.page_records(records, now).shards.len() == NUM_SHARDS,
        e.page_records(records, now).shards[at].messages.contains_key(id),
        e.page_records(records, now).shards[at].messages[id] == e.shards[at].messages[id],
    decreases records.len(),
{
    if records.len() > 0 {
        let head = records.drop_last();
        let last = records.last();
        assert(!compaction::acked_in(head, at, id)) by {
            if compaction::acked_in(head, at, id) {
                let k = choose|k: int|
                    0 <= k < head.len() && compaction::acks_id(#[trigger] head[k], at, id);
                assert(compaction::acks_id(records[k], at, id));
            }
        }
        assert(!compaction::acks_id(records[records.len() - 1], at, id));
        lemma_paging_keeps_message(e, head, now, at, id);
        model::lemma_shard_of_bound(model::queue_of(last));
    }
}

proof fn lemma_step_keeps_lease(
    e: EngineView,
    queue: Seq<char>,
    step: PollStep,
    id: u128,
    receipt: Seq<char>,
    until: u64,
)
    requires
        leased_until(e, queue, id, receipt, until),
        step matches PollStep::End { now } ==> 0 < now < until,
        sequences::step_spares(e, step, model::shard_of(queue), id),
    ensures
        ({
            let (post, polled) = sequences::step_once(e, queue, step);
            &&& leased_until(post, queue, id, receipt, until)
            &&& post.shard(queue).messages[id] == e.shard(queue).messages[id]
            &&& !sequences::is_handed_out(polled, id)
        }),
{
    model::lemma_shard_of_bound(queue);
    let at = model::shard_of(queue);
    let s = e.shard(queue);
    let item = ItemView { id, queue, receipt, expire_at: until };
    timing::lemma_step_withholds(e, queue, step, id, u64::MAX + 1, until as int);
    match step {
        PollStep::End { now } => {
            timing::lemma_collect(s.wheel, now);
            timer_wheel::law_collect_loses_nothing(s.wheel, now, item, id);
            assert(model::shard_holds(e.shards[at], at));
            let items = s.wheel.collect(now).1;
            assert forall|k: int| 0 <= k < items.len() implies (#[trigger] items[k]).id != id by {
                assert(timer_wheel::in_wheel(s.wheel, items[k]));
            }
            redelivery::lemma_taken_none(s.messages, items, id);
            exclusive::lemma_taken_from_items(s.messages, items);
            let (r, taken) = s.take_expired(now);
            assert forall|k: int| 0 <= k < taken.len() implies (#[trigger] taken[k]).id != id by {
                let j = choose|j: int| 0 <= j < items.len() && items[j].id == taken[k].id;
                assert(items[j].id != id);
            }
            let mid = e.with_shard(queue, r);
            timing::lemma_route_all_spares(mid, taken, now, queue, id, u64::MAX + 1);
            laws::lemma_route_all_wheels(mid, taken, now);
            let post = e.expire(queue, now);
            assert(post.shards[at].wheel == r.wheel);
            assert(post.shard(queue).wheel == r.wheel);
            assert(r.wheel.index.dom().contains(id));
            assert(s.wheel.index.dom().contains(id));
        },
        PollStep::Scan { scan, read } => {
            let taken = sequences::lemma_scan_pages(e, scan, read);
            sequences::lemma_taken_spares(e, scan, read, taken, at, id);
            lemma_paging_keeps_message(e, taken, scan.now, at, id);
            sequences::lemma_paging_keeps_wheels(e, taken, scan.now, at);
        },
        PollStep::Take { now, max, receipts, expire_at } => {
            let (claimed, ids) = e.claim(queue, now, max);
            let c = claimed.shard(queue);
            assert(c == s.claim(queue, now, max).0);
            if s.queues.contains_key(queue) {
                timing::lemma_advance_holds_back(s.queues[queue], now, id, u64::MAX + 1);
                timing::lemma_claim_holds_back(
                    s.queues[queue].advance(now),
                    max,
                    id,
                    u64::MAX + 1,
                );
            }
            timing::lemma_lease_spares(c, queue, ids, receipts, expire_at, id);
            lemma_lease_clock(c, queue, ids, receipts, expire_at);
            assert(timer_wheel::in_wheel(c.wheel, item));
        },
    }
}

/// While a lease runs, and the log does not acknowledge the message, the lease goes on and no
/// poll of the queue hands the message out.
pub proof fn law_leased_message_is_not_handed_out(
    e: EngineView,
    queue: Seq<char>,
    steps: Seq<PollStep>,
    id: u128,
    receipt: Seq<char>,
    until: u64,
)
    requires
        leased_until(e, queue, id, receipt, until),
        ends_before(steps, until),
        sequences::spares(e, queue, steps, model::shard_of(queue), id),
    ensures
        ({
            let (post, polled) = sequences::run(e, queue, steps);
            &&& leased_until(post, queue, id, receipt, until)
            &&& post.shard(queue).messages[id] == e.shard(queue).messages[id]
            &&& !sequences::is_handed_out(polled, id)
        }),
    decreases steps.len(),
{
    if steps.len() > 0 {
        let head = steps.drop_last();
        assert forall|k: int| 0 <= k < head.len() implies ((#[trigger] head[k]) matches PollStep::End {
            now,
        } ==> 0 < now < until) by {
            assert(head[k] == steps[k]);
        }
        assert(steps[steps.len() - 1] == steps.last());
        law_leased_message_is_not_handed_out(e, queue, head, id, receipt, until);
        let (p, listed) = sequences::run(e, queue, head);
        lemma_step_keeps_lease(p, queue, steps.last(), id, receipt, until);
        let polled = sequences::step_once(p, queue, steps.last()).1;
        let all = listed + polled;
        if sequences::is_handed_out(all, id) {
            let k = choose|k: int|
                0 <= k < all.len() && (#[trigger] all[k]).message_id == ids::ulid_text(id);
            if k < listed.len() {
                assert(listed[k].message_id == ids::ulid_text(id));
            } else {
                assert(polled[k - listed.len()].message_id == ids::ulid_text(id));
            }
        }
    }
}

/// The receipt of a lease, and no other, acknowledges the message before the lease ends, and
/// none does from then on.
pub proof fn law_receipt_is_good_until_the_lease_ends(
    e: EngineView,
    queue: Seq<char>,
    id: u128,
    receipt: Seq<char>,
    until: u64,
    given: Seq<char>,
    now: u64,
)
    requires
        leased_until(e, queue, id, receipt, until),
    ensures
        e.ack_is_valid(queue, ids::ulid_text(id), given, now) <==> given == receipt && now < until,
{
    ids::law_ulid_round_trip(id);
}

/// When a lease has run out, the message comes back to its queue if it was delivered less often
/// than the engine was opened with; else it is in the dead letter queue.
pub proof fn law_message_comes_back_when_its_lease_ends(
    e: EngineView,
    queue: Seq<char>,
    id: u128,
    receipt: Seq<char>,
    until: u64,
    now: u64,
)
    requires
        redelivery::limits_hold(e),
        leased_until(e, queue, id, receipt, until),
        until <= now,
    ensures
        ({
            let msg = e.shard(queue).messages[id];
            let post = e.expire(queue, now);
            let dead = msg.queue + ".dlq"@;
            if msg.delivery_count < e.options.max_delivery_count {
                &&& redelivery::is_ready(post, msg.queue, MsgView { visible_at: now, ..msg })
                &&& sequences::awaits(post, msg.queue, id, now)
            } else {
                &&& redelivery::is_ready(
                    post,
                    dead,
                    MsgView { queue: dead, visible_at: now, ..msg },
                )
                &&& sequences::awaits(post, dead, id, now)
                &&& redelivery::is_gone(post, model::shard_of(msg.queue), id)
            }
        }),
{
    model::lemma_shard_of_bound(queue);
    let s = e.shard(queue);
    assert(model::shard_holds(e.shards[model::shard_of(queue)], model::shard_of(queue)));
    assert(s.wheel.index.dom().contains(id));
    let item = ItemView { id, queue, receipt, expire_at: until };
    redelivery::law_ended_lease_returns_or_gives_up(e, queue, item, now);
}

/// The buckets of the queue are finitely many.
spec fn has_finite_buckets(e: EngineView, queue: Seq<char>) -> bool {
    let s = e.shard(queue);
    s.queues.contains_key(queue) ==> s.queues[queue].hot.dom().finite()
}

proof fn lemma_route_all_buckets(e: EngineView, msgs: Seq<MsgView>, now: u64, queue: Seq<char>)
    requires
        e.shards.len() == NUM_SHARDS,
        has_finite_buckets(e, queue),
    ensures
        e.route_all(msgs, now).shards.len() == NUM_SHARDS,
        has_finite_buckets(e.route_all(msgs, now), queue),
    decreases msgs.len(),
{
    if msgs.len() > 0 {
        lemma_route_all_buckets(e, msgs.drop_last(), now, queue);
        model::lemma_shard_of_bound(queue);
        model::lemma_shard_of_bound(msgs.last().queue);
        model::lemma_shard_of_bound(model::dlq_name(msgs.last().queue));
    }
}

proof fn lemma_page_record_keeps_ready(
    e: EngineView,
    record: RecordView,
    now: u64,
    queue: Seq<char>,
    msg: MsgView,
)
    requires
        e.shards.len() == NUM_SHARDS,
        has_finite_buckets(e, queue),
        redelivery::is_ready(e, queue, msg),
        !compaction::acks_id(record, model::shard_of(queue), msg.id),
    ensures
        e.page_record(record, now).shards.len() == NUM_SHARDS,
        has_finite_buckets(e.page_record(record, now), queue),
        redelivery::is_ready(e.page_record(record, now), queue, msg),
{
    model::lemma_shard_of_bound(queue);
    model::lemma_shard_of_bound(model::queue_of(record));
    let q = e.shard(queue).queues[queue];
    match record {
        RecordView::Push { msg_id, queue_name, visible_at, payload } => {
            if e.pages_in(record, now) && queue_name == queue {
                redelivery::lemma_insert_keeps_ready(q, msg_id, visible_at, now, msg.id);
            }
        },
        RecordView::Ack { msg_id, queue_name } => {
            if queue_name == queue {
                redelivery::lemma_tombstone_keeps_ready(q, msg_id, msg.id);
            }
        },
    }
}

proof fn lemma_paging_keeps_ready(
    e: EngineView,
    records: Seq<RecordView>,
    now: u64,
    queue: Seq<char>,
    msg: MsgView,
)
    requires
        e.shards.len() == NUM_SHARDS,
        has_finite_buckets(e, queue),
        redelivery::is_ready(e, queue, msg),
        !compaction::acked_in(records, model::shard_of(queue), msg.id),
    ensures
        e.page_records(records, now).shards.len() == NUM_SHARDS,
        has_finite_buckets(e.page_records(records, now), queue),
        redelivery::is_ready(e.page_records(records, now), queue, msg),
    decreases records.len(),
{
    if records.len() > 0 {
        let at = model::shard_of(queue);
        let head = records.drop_last();
        assert(!compaction::acked_in(head, at, msg.id)) by {
            if compaction::acked_in(head, at, msg.id) {
                let k = choose|k: int|
                    0 <= k < head.len() && compaction::acks_id(#[trigger] head[k], at, msg.id);
                assert(compaction::acks_id(records[k], at, msg.id));
            }
        }
        assert(!compaction::acks_id(records[records.len() - 1], at, msg.id));
        lemma_paging_keeps_ready(e, head, now, queue, msg);
        lemma_page_record_keeps_ready(e.page_records(head, now), records.last(), now, queue, msg);
    }
}

/// All the steps are scans of the log.
pub open spec fn only_scans(steps: Seq<PollStep>) -> bool {
    forall|k: int| 0 <= k < steps.len() ==> (#[trigger] steps[k]) is Scan
}

proof fn lemma_scans_keep_ready(
    e: EngineView,
    queue: Seq<char>,
    scans: Seq<PollStep>,
    msg: MsgView,
)
    requires
        e.shards.len() == NUM_SHARDS,
        has_finite_buckets(e, queue),
        redelivery::is_ready(e, queue, msg),
        only_scans(scans),
        sequences::spares(e, queue, scans, model::shard_of(queue), msg.id),
    ensures
        ({
            let (post, polled) = sequences::run(e, queue, scans);
            &&& post.shards.len() == NUM_SHARDS
            &&& has_finite_buckets(post, queue)
            &&& redelivery::is_ready(post, queue, msg)
            &&& polled.len() == 0
        }),
    decreases scans.len(),
{
    if scans.len() > 0 {
        let head = scans.drop_last();
        assert forall|k: int| 0 <= k < head.len() implies (#[trigger] head[k]) is Scan by {
            assert(head[k] == scans[k]);
        }
        lemma_scans_keep_ready(e, queue, head, msg);
        let p = sequences::run(e, queue, head).0;
        assert(scans[scans.len() - 1] is Scan);
        if let PollStep::Scan { scan, read } = scans.last() {
            let taken = sequences::lemma_scan_pages(p, scan, read);
            sequences::lemma_taken_spares(p, scan, read, taken, model::shard_of(queue), msg.id);
            lemma_paging_keeps_ready(p, taken, scan.now, queue, msg);
            let post = p.page_step(scan, read).0;
            assert(post.shards == p.page_records(taken, scan.now).shards);
        }
    }
}

/// A message that is ready is handed out by a poll that gets fewer messages than it asks for.
proof fn lemma_ready_is_taken(
    e: EngineView,
    queue: Seq<char>,
    now: u64,
    max: nat,
    receipts: Seq<Seq<char>>,
    expire_at: u64,
    msg: MsgView,
)
    requires
        has_finite_buckets(e, queue),
        redelivery::is_ready(e, queue, msg),
        e.shards.len() == NUM_SHARDS,
        e.claim(queue, now, max).1.len() < max,
    ensures
        sequences::is_handed_out(
            sequences::step_once(e, queue, PollStep::Take { now, max, receipts, expire_at }).1,
            msg.id,
        ),
{
    model::lemma_shard_of_bound(queue);
    let s = e.shard(queue);
    let q = s.queues[queue];
    let a = q.advance(now);
    delivery::lemma_advance_deleted(q, now);
    assert(!a.deleted.contains(msg.id));
    if now >= q.last_drained_sec {
        let p = q.promote(q.far, now);
        laws::lemma_promote_hot(q, q.far, now);
        laws::lemma_promote_far(q, q.far, now);
        laws::lemma_drain_ready(p, now);
    }
    assert(a.ready.contains(msg.id));
    sequences::lemma_claim_splits(a, max, msg.id);
    sequences::law_short_claim_leaves_nothing_ready(a, max);
    let (claimed, ids) = e.claim(queue, now, max);
    assert(ids.contains(msg.id));
    sequences::lemma_lease_hands_out(
        claimed.shard(queue),
        queue,
        ids,
        receipts,
        expire_at,
        msg.id,
    );
}

/// A message of the queue whose lease ended before it was delivered as often as the engine was
/// opened with is handed out by the next poll of the queue, with scans of a log that does not
/// acknowledge it, if the poll gets fewer messages than it asks for.
pub proof fn law_message_is_handed_out_again_when_its_lease_ends(
    e: EngineView,
    queue: Seq<char>,
    id: u128,
    receipt: Seq<char>,
    until: u64,
    ended_at: u64,
    scans: Seq<PollStep>,
    now: u64,
    max: nat,
    receipts: Seq<Seq<char>>,
    expire_at: u64,
)
    requires
        redelivery::limits_hold(e),
        leased_until(e, queue, id, receipt, until),
        e.shard(queue).messages[id].queue == queue,
        e.shard(queue).messages[id].delivery_count < e.options.max_delivery_count,
        until <= ended_at,
        only_scans(scans),
        sequences::spares(e.expire(queue, ended_at), queue, scans, model::shard_of(queue), id),
        sequences::run(e.expire(queue, ended_at), queue, scans).0.claim(queue, now, max).1.len()
            < max,
    ensures
        sequences::is_handed_out(
            sequences::step_once(
                sequences::run(e.expire(queue, ended_at), queue, scans).0,
                queue,
                PollStep::Take { now, max, receipts, expire_at },
            ).1,
            id,
        ),
{
    model::lemma_shard_of_bound(queue);
    let at = model::shard_of(queue);
    let s = e.shard(queue);
    assert(model::shard_holds(e.shards[at], at));
    let msg = s.messages[id];
    law_message_comes_back_when_its_lease_ends(e, queue, id, receipt, until, ended_at);
    let (r, taken) = s.take_expired(ended_at);
    lemma_route_all_buckets(e.with_shard(queue, r), taken, ended_at, queue);
    let back = MsgView { visible_at: ended_at, ..msg };
    lemma_scans_keep_ready(e.expire(queue, ended_at), queue, scans, back);
    lemma_ready_is_taken(
        sequences::run(e.expire(queue, ended_at), queue, scans).0,
        queue,
        now,
        max,
        receipts,
        expire_at,
        back,
    );
}

/// An acknowledgement to the engine is accepted exactly if a lease on the message runs under the
/// receipt. Then the lease is over, the message is gone and known to be acknowledged; else
/// nothing changes.
pub proof fn law_engine_ack_needs_a_running_lease(
    e: EngineView,
    queue: Seq<char>,
    id_text: Seq<char>,
    receipt: Seq<char>,
    now: u64,
    post: EngineView,
    res: Result<bool, QueueError>,
    id: u128,
)
    requires
        e.inv(),
        queue::acked_by_receipt(e, queue, id_text, receipt, now, post, res),
        ids::id_value(id_text) == Some(id),
    ensures
        res is Ok,
        ({
            let w = e.shard(queue).wheel;
            let s = post.shard(queue);
            &&& res.unwrap() <==> w.index.contains_key(id) && w.index[id].1 == receipt && now
                < w.index[id].2
            &&& res.unwrap() ==> {
                &&& !s.messages.contains_key(id)
                &&& !s.wheel.index.contains_key(id)
                &&& s.acked.contains(id)
            }
            &&& !res.unwrap() ==> post == e
        }),
{
    model::lemma_shard_of_bound(queue);
}

}
