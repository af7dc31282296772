//! What holds over many operations: whole scans of the log, repeated pushes, and the parts
//! that they go through.
use vstd::prelude::*;

use crate::engine::compaction;
use crate::engine::disk_log;
use crate::engine::disk_log::SegmentRead;
use crate::engine::exclusive;
use crate::engine::laws;
use crate::engine::model;
use crate::engine::model::{EngineView, ScanView, NUM_SHARDS};
use crate::engine::recovery;
use crate::engine::shard::{MsgView, ShardView};
use crate::engine::single_queue;
use crate::engine::single_queue::{FarFutureItem, QueueView, HOT_DELAY_HORIZON_SEC};
use crate::engine::timer_wheel;
use crate::engine::timer_wheel::{ItemView, WheelView};
use crate::engine::wal::RecordView;
use crate::ids;

verus! {

proof fn lemma_expired_distinct(items: Seq<ItemView>, now: u64)
    requires
        exclusive::distinct_items(items),
    ensures
        exclusive::distinct_items(timer_wheel::expired_of(items, now)),
    decreases items.len(),
{
    if items.len() > 0 {
        let head = items.drop_last();
        let last = items.last();
        assert forall|i: int, j: int| 0 <= i < j < head.len() implies (#[trigger] head[i]).id != (
        #[trigger] head[j]).id by {
            assert(head[i] == items[i] && head[j] == items[j]);
        }
        lemma_expired_distinct(head, now);
        timer_wheel::lemma_split(head, now);
        let rest = timer_wheel::expired_of(head, now);
        let all = timer_wheel::expired_of(items, now);
        if last.expire_at <= now {
            assert forall|i: int, j: int| 0 <= i < j < all.len() implies (#[trigger] all[i]).id != (
            #[trigger] all[j]).id by {
                assert(all[i] == rest[i]);
                if j == rest.len() {
                    assert(head.contains(rest[i]));
                    let k = choose|k: int| 0 <= k < head.len() && head[k] == rest[i];
                    assert(items[k].id != items[items.len() - 1].id);
                } else {
                    assert(all[j] == rest[j]);
                }
            }
        }
    }
}

proof fn lemma_sweep_distinct(w: WheelView, base: int, n: nat, now: u64)
    requires
        exclusive::single_leases(w),
    ensures
        exclusive::distinct_items(w.sweep(base, n, now).1),
    decreases n,
{
    if n > 0 {
        lemma_sweep_distinct(w, base, (n - 1) as nat, now);
        timer_wheel::lemma_sweep(w, base, (n - 1) as nat, now);
        exclusive::lemma_sweep_single(w, base, (n - 1) as nat, now);
        let (v, listed) = w.sweep(base, (n - 1) as nat, now);
        let slot = w.slot_of(base + n);
        let due = timer_wheel::expired_of(v.slots[slot], now);
        assert(exclusive::distinct_items(v.slots[slot]));
        lemma_expired_distinct(v.slots[slot], now);
        timer_wheel::lemma_split(v.slots[slot], now);
        let all = w.sweep(base, n, now).1;
        assert forall|i: int, j: int| 0 <= i < j < all.len() implies (#[trigger] all[i]).id != (
        #[trigger] all[j]).id by {
            if j < listed.len() {
                assert(all[i] == listed[i] && all[j] == listed[j]);
            } else if i >= listed.len() {
                assert(all[i] == due[i - listed.len()] && all[j] == due[j - listed.len()]);
            } else {
                let item = due[j - listed.len()];
                assert(all[i] == listed[i] && all[j] == item);
                assert(v.slots[slot].contains(item));
                let k = choose|k: int| 0 <= k < v.slots[slot].len() && v.slots[slot][k] == item;
                assert(v.index.contains_key(v.slots[slot][k].id));
                assert(!v.index.contains_key(listed[i].id));
            }
        }
    }
}

/// A collection hands out every lease whose time is over once, and leaves none of them, if
/// none was over already when the last one was made.
pub proof fn law_collection_takes_each_ended_lease_once(w: WheelView, now: u64)
    requires
        exclusive::single_leases(w),
        forall|item: ItemView| #[trigger]
            timer_wheel::in_wheel(w, item) ==> w.sweep_base(now) < item.expire_at,
    ensures
        exclusive::distinct_items(w.collect(now).1),
        forall|item: ItemView| #[trigger]
            timer_wheel::in_wheel(w, item) && item.expire_at <= now ==> w.collect(now).1.contains(
                item,
            ),
        forall|item: ItemView| #[trigger]
            timer_wheel::in_wheel(w.collect(now).0, item) ==> item.expire_at > now,
{
    let base = w.sweep_base(now);
    let (v, items) = w.collect(now);
    exclusive::lemma_collect_single(w, now);
    lemma_sweep_distinct(w, -1, w.slots.len(), now);
    timer_wheel::lemma_sweep(w, -1, w.slots.len(), now);
    if now > base {
        lemma_sweep_distinct(w, base, (now - base) as nat, now);
        timer_wheel::lemma_sweep(w, base, (now - base) as nat, now);
    }
    assert forall|item: ItemView| #[trigger] timer_wheel::in_wheel(w, item) && item.expire_at
        <= now implies items.contains(item) by {
        let slot = w.slot_of(item.expire_at as int);
        let j = choose|j: int| 0 <= j < w.slots[slot].len() && w.slots[slot][j] == item;
        assert(w.index.dom().contains(w.slots[slot][j].id));
        timer_wheel::law_collect_is_complete(w, now, item);
    }
    assert forall|item: ItemView| #[trigger] timer_wheel::in_wheel(v, item) implies item.expire_at
        > now by {
        if item.expire_at <= now {
            assert(timer_wheel::in_wheel(w.sweep(-1, w.slots.len(), now).0, item)
                || timer_wheel::in_wheel(w.sweep(base, (now - base) as nat, now).0, item)
                || v.slots == w.slots);
            assert(timer_wheel::in_wheel(w, item));
            assert(items.contains(item));
            let k = choose|k: int| 0 <= k < items.len() && items[k] == item;
            assert(!v.index.contains_key(items[k].id));
            let slot = v.slot_of(item.expire_at as int);
            let j = choose|j: int| 0 <= j < v.slots[slot].len() && v.slots[slot][j] == item;
            assert(v.index.contains_key(v.slots[slot][j].id));
        }
    }
}

/// What is not indexed as a lease is not handed out by a collection, nor indexed after it.
pub proof fn law_unknown_lease_is_not_collected(w: WheelView, id: u128, now: u64)
    requires
        exclusive::single_leases(w),
        !w.index.contains_key(id),
    ensures
        !timer_wheel::ids_of(w.collect(now).1).contains(id),
        exclusive::single_leases(w.collect(now).0),
        !w.collect(now).0.index.contains_key(id),
{
    exclusive::lemma_collect_single(w, now);
    let items = w.collect(now).1;
    if timer_wheel::ids_of(items).contains(id) {
        let k = choose|k: int| 0 <= k < items.len() && (#[trigger] items[k]).id == id;
        assert(w.index.contains_key(items[k].id));
    }
    assert(w.collect(now).0.index.dom().subset_of(w.index.dom()));
}

/// A lease that was removed is not collected.
pub proof fn law_removed_lease_is_not_collected(w: WheelView, id: u128, now: u64)
    requires
        exclusive::single_leases(w),
        w.index.contains_key(id),
    ensures
        !timer_wheel::ids_of(w.remove(id).collect(now).1).contains(id),
        !w.remove(id).collect(now).0.index.contains_key(id),
{
    exclusive::lemma_remove_single(w, id);
    law_unknown_lease_is_not_collected(w.remove(id), id, now);
}

proof fn lemma_promote_keeps_far(q: QueueView, items: Seq<FarFutureItem>, now: u64, x: u128)
    requires
        !q.deleted.contains(x),
        exclusive::in_far(items, x),
    ensures
        exclusive::in_hot(q.promote(items, now).hot, x) || exclusive::in_far(
            q.promote(items, now).far,
            x,
        ),
    decreases items.len(),
{
    let head = items.drop_last();
    let last = items.last();
    let k = choose|k: int| 0 <= k < items.len() && (#[trigger] items[k]).id == x;
    let p = q.promote(head, now);
    let r = q.promote(items, now);
    if items[k].visible_at <= now + HOT_DELAY_HORIZON_SEC {
        laws::lemma_promote_reaches(q, items, now, k);
        assert(r.hot.contains_key(items[k].visible_at));
    } else if k < head.len() {
        assert(head[k].id == x);
        lemma_promote_keeps_far(q, head, now, x);
        if exclusive::in_hot(p.hot, x) {
            let sec = choose|sec: u64| #[trigger] p.hot.contains_key(sec) && p.hot[sec].contains(x);
            let s = p.hot[sec];
            let i = choose|i: int| 0 <= i < s.len() && s[i] == x;
            assert(r.hot.contains_key(sec) && r.hot[sec][i] == x);
            assert(r.hot[sec].contains(x));
        } else {
            let i = choose|i: int| 0 <= i < p.far.len() && (#[trigger] p.far[i]).id == x;
            assert(r.far[i].id == x);
        }
    } else {
        assert(r.far[p.far.len() as int].id == x);
    }
}

proof fn lemma_promote_far_is_far(q: QueueView, items: Seq<FarFutureItem>, now: u64)
    ensures
        forall|i: int|
            0 <= i < q.promote(items, now).far.len() ==> {
                let item = #[trigger] q.promote(items, now).far[i];
                !q.deleted.contains(item.id) && item.visible_at > now + HOT_DELAY_HORIZON_SEC
            },
    decreases items.len(),
{
    if items.len() > 0 {
        lemma_promote_far_is_far(q, items.drop_last(), now);
        let p = q.promote(items.drop_last(), now);
        let r = q.promote(items, now);
        assert forall|i: int| 0 <= i < r.far.len() implies {
            let item = #[trigger] r.far[i];
            !q.deleted.contains(item.id) && item.visible_at > now + HOT_DELAY_HORIZON_SEC
        } by {
            if i < p.far.len() {
                assert(r.far[i] == p.far[i]);
            }
        }
    }
}

proof fn lemma_promote_nothing(q: QueueView, items: Seq<FarFutureItem>, now: u64)
    requires
        forall|i: int|
            0 <= i < items.len() ==> !q.deleted.contains((#[trigger] items[i]).id)
                && items[i].visible_at > now + HOT_DELAY_HORIZON_SEC,
    ensures
        q.promote(items, now) == (QueueView { far: items, ..q }),
    decreases items.len(),
{
    if items.len() > 0 {
        let head = items.drop_last();
        assert forall|i: int| 0 <= i < head.len() implies !q.deleted.contains(
            (#[trigger] head[i]).id,
        ) && head[i].visible_at > now + HOT_DELAY_HORIZON_SEC by {
            assert(head[i] == items[i]);
        }
        lemma_promote_nothing(q, head, now);
        assert(items[items.len() - 1] == items.last());
        assert(head.push(items.last()) =~= items);
    } else {
        assert(items =~= Seq::empty());
    }
}

proof fn lemma_settle_deleted_shrinks(q: QueueView, ids: Seq<u128>)
    ensures
        q.settle(ids).deleted.subset_of(q.deleted),
    decreases ids.len(),
{
    if ids.len() > 0 {
        lemma_settle_deleted_shrinks(q, ids.drop_last());
    }
}

pub proof fn lemma_drain_keeps(q: QueueView, now: u64)
    requires
        q.hot.dom().finite(),
    ensures
        q.drain(now).deleted.subset_of(q.deleted),
        forall|sec: u64| #[trigger]
            q.hot.contains_key(sec) && sec > now ==> q.drain(now).hot.contains_key(sec)
                && q.drain(now).hot[sec] == q.hot[sec],
    decreases q.hot.dom().len(),
{
    if exists|sec: u64| single_queue::is_next_due(q.hot, now, sec) {
        let due = choose|sec: u64| single_queue::is_next_due(q.hot, now, sec);
        laws::lemma_settle_hot(q, q.hot[due]);
        lemma_settle_deleted_shrinks(q, q.hot[due]);
        let r = QueueView { hot: q.hot.remove(due), ..q.settle(q.hot[due]) };
        lemma_drain_keeps(r, now);
        assert forall|sec: u64| #[trigger] q.hot.contains_key(sec) && sec > now implies q.drain(
            now,
        ).hot.contains_key(sec) && q.drain(now).hot[sec] == q.hot[sec] by {
            assert(r.hot.contains_key(sec));
        }
    }
}

/// Bringing a queue to the present loses nothing and doubles nothing: what waits, and has no
/// tombstone, still waits, and nothing else does; and no id waits twice.
pub proof fn law_advance_loses_and_doubles_nothing(q: QueueView, now: u64, x: u128)
    requires
        exclusive::once(q),
        !q.deleted.contains(x),
    ensures
        exclusive::once(q.advance(now)),
        exclusive::queued(q.advance(now), x) <==> exclusive::queued(q, x),
{
    exclusive::lemma_advance_once(q, now);
    if now >= q.last_drained_sec && exclusive::queued(q, x) {
        let p = q.promote(q.far, now);
        let a = q.advance(now);
        laws::lemma_promote_hot(q, q.far, now);
        laws::lemma_drain_ready(p, now);
        lemma_drain_keeps(p, now);
        if q.ready.contains(x) {
            assert(p.ready.contains(x));
        } else {
            if exclusive::in_hot(q.hot, x) {
                let sec = choose|sec: u64| #[trigger]
                    q.hot.contains_key(sec) && q.hot[sec].contains(x);
                assert(q.hot[sec].contains(x));
                assert(p.hot.contains_key(sec));
            } else {
                lemma_promote_keeps_far(q, q.far, now, x);
            }
            if exclusive::in_hot(p.hot, x) {
                let sec = choose|sec: u64| #[trigger]
                    p.hot.contains_key(sec) && p.hot[sec].contains(x);
                if sec <= now {
                    assert(p.hot[sec].contains(x));
                    assert(p.drain(now).ready.contains(x));
                } else {
                    assert(a.hot.contains_key(sec) && a.hot[sec].contains(x));
                }
            } else {
                laws::lemma_drain_hot(p, now);
            }
        }
    }
}

/// Bringing a queue to the present a second time changes nothing.
pub proof fn law_advance_is_idempotent(q: QueueView, now: u64)
    requires
        q.hot.dom().finite(),
    ensures
        q.advance(now).advance(now) == q.advance(now),
{
    if now >= q.last_drained_sec {
        let p = q.promote(q.far, now);
        let a = q.advance(now);
        laws::lemma_promote_hot(q, q.far, now);
        lemma_promote_far_is_far(q, q.far, now);
        laws::lemma_drain_hot(p, now);
        laws::lemma_drain_ready(p, now);
        lemma_drain_keeps(p, now);
        assert forall|i: int| 0 <= i < a.far.len() implies !a.deleted.contains(
            (#[trigger] a.far[i]).id,
        ) && a.far[i].visible_at > now + HOT_DELAY_HORIZON_SEC by {
            assert(a.far[i] == p.far[i]);
        }
        lemma_promote_nothing(a, a.far, now);
        assert(a.promote(a.far, now) == a);
        assert(a.hot.dom().subset_of(p.hot.dom()));
        vstd::set_lib::lemma_len_subset(a.hot.dom(), p.hot.dom());
        assert(forall|sec: u64| !single_queue::is_next_due(a.hot, now, sec));
        assert(a.drain(now) == a);
    }
}

pub proof fn lemma_lease_index(
    s: ShardView,
    name: Seq<char>,
    ids: Seq<u128>,
    receipts: Seq<Seq<char>>,
    expire_at: u64,
)
    requires
        ids.no_duplicates(),
    ensures
        ({
            let (r, polled) = s.lease(name, ids, receipts, expire_at);
            &&& s.wheel.index.dom().subset_of(r.wheel.index.dom())
            &&& forall|k: int|
                0 <= k < polled.len() ==> exists|j: int|
                    0 <= j < ids.len() && (#[trigger] polled[k]).message_id == ids::ulid_text(
                        #[trigger] ids[j],
                    ) && r.wheel.index.contains_key(ids[j]) && s.messages.contains_key(ids[j])
                        && polled[k].payload == s.messages[ids[j]].payload
            &&& forall|i: int, k: int|
                0 <= i < k < polled.len() ==> (#[trigger] polled[i]).message_id != (
                #[trigger] polled[k]).message_id
            &&& forall|x: u128| #[trigger]
                s.messages.contains_key(x) <==> r.messages.contains_key(x)
            &&& forall|x: u128| #[trigger]
                s.messages.contains_key(x) ==> r.messages[x].payload == s.messages[x].payload
        }),
    decreases ids.len(),
{
    if ids.len() > 0 {
        let head = ids.drop_last();
        let id = ids.last();
        assert forall|a: int, b: int| 0 <= a < head.len() && 0 <= b < head.len() && a
            != b implies head[a] != head[b] by {
            assert(ids[a] != ids[b]);
        }
        lemma_lease_index(s, name, head, receipts, expire_at);
        let (p, listed) = s.lease(name, head, receipts, expire_at);
        let (r, polled) = s.lease(name, ids, receipts, expire_at);
        assert(ids[ids.len() - 1] == id);
        assert forall|k: int| 0 <= k < polled.len() implies exists|j: int|
            0 <= j < ids.len() && (#[trigger] polled[k]).message_id == ids::ulid_text(
                #[trigger] ids[j],
            ) && r.wheel.index.contains_key(ids[j]) && s.messages.contains_key(ids[j])
                && polled[k].payload == s.messages[ids[j]].payload by {
            if k < listed.len() {
                assert(polled[k] == listed[k]);
                let j = choose|j: int|
                    0 <= j < head.len() && listed[k].message_id == ids::ulid_text(
                        #[trigger] head[j],
                    ) && p.wheel.index.contains_key(head[j]) && s.messages.contains_key(head[j])
                        && listed[k].payload == s.messages[head[j]].payload;
                assert(ids[j] == head[j]);
            } else {
                assert(polled[k].message_id == ids::ulid_text(ids[ids.len() - 1]));
                assert(s.messages.contains_key(id));
            }
        }
        assert forall|i: int, k: int| 0 <= i < k < polled.len() implies (
        #[trigger] polled[i]).message_id != (#[trigger] polled[k]).message_id by {
            assert(polled[i] == listed[i]);
            if k < listed.len() {
                assert(polled[k] == listed[k]);
            } else {
                let j = choose|j: int|
                    0 <= j < head.len() && listed[i].message_id == ids::ulid_text(
                        #[trigger] head[j],
                    ) && p.wheel.index.contains_key(head[j]) && s.messages.contains_key(head[j])
                        && listed[i].payload == s.messages[head[j]].payload;
                assert(ids[j] == head[j]);
                ids::law_ulid_text_is_injective(head[j], id);
            }
        }
    }
}

/// The shards know of every acknowledgement that the log holds. This is so from the time on
/// at which an engine is opened.
pub open spec fn acks_are_known(e: EngineView, log: Seq<RecordView>) -> bool {
    forall|at: int, id: u128|
        0 <= at < NUM_SHARDS && #[trigger] compaction::acked_in(log, at, id)
            ==> e.shards[at].acked.contains(id)
}

/// The message is one that the log holds a push of, which is due within the horizon, and
/// that nothing in the log acknowledges.
pub open spec fn is_open_message(
    e: EngineView,
    log: Seq<RecordView>,
    at: int,
    msg: MsgView,
    now: u64,
) -> bool {
    &&& !compaction::acked_in(log, at, msg.id)
    &&& exists|k: int|
        0 <= k < log.len() && match #[trigger] log[k] {
            RecordView::Push { msg_id, queue_name, visible_at, payload } => model::shard_of(
                queue_name,
            ) == at && visible_at <= now + HOT_DELAY_HORIZON_SEC && msg == e.fresh_msg(
                msg_id,
                queue_name,
                payload,
                visible_at,
            ),
            RecordView::Ack { .. } => false,
        }
}

/// Paging in records of the log brings only messages into memory that the log holds, that
/// it does not acknowledge, and that are due within the horizon.
pub proof fn law_paging_brings_in_open_messages_only(
    e: EngineView,
    log: Seq<RecordView>,
    records: Seq<RecordView>,
    now: u64,
)
    requires
        e.inv(),
        acks_are_known(e, log),
        forall|k: int| 0 <= k < records.len() ==> log.contains(#[trigger] records[k]),
    ensures
        e.page_records(records, now).inv(),
        acks_are_known(e.page_records(records, now), log),
        forall|at: int, id: u128|
            0 <= at < NUM_SHARDS && #[trigger] e.page_records(
                records,
                now,
            ).shards[at].messages.contains_key(id) && !e.shards[at].messages.contains_key(id)
                ==> is_open_message(
                e,
                log,
                at,
                e.page_records(records, now).shards[at].messages[id],
                now,
            ),
    decreases records.len(),
{
    if records.len() > 0 {
        let head = records.drop_last();
        let last = records[records.len() - 1];
        assert forall|k: int| 0 <= k < head.len() implies log.contains(#[trigger] head[k]) by {
            assert(head[k] == records[k]);
        }
        law_paging_brings_in_open_messages_only(e, log, head, now);
        model::lemma_page_records_frame(e, head, now);
        let p = e.page_records(head, now);
        let post = e.page_records(records, now);
        model::lemma_page_record_inv(p, last, now);
        let queue = model::queue_of(last);
        model::lemma_shard_of_bound(queue);
        let home = model::shard_of(queue);
        assert forall|at: int, id: u128|
            0 <= at < NUM_SHARDS && #[trigger] compaction::acked_in(
                log,
                at,
                id,
            ) implies post.shards[at].acked.contains(id) by {
            assert(p.shards[at].acked.contains(id));
        }
        assert forall|at: int, id: u128|
            0 <= at < NUM_SHARDS && #[trigger] post.shards[at].messages.contains_key(id)
                && !e.shards[at].messages.contains_key(id) implies is_open_message(
            e,
            log,
            at,
            post.shards[at].messages[id],
            now,
        ) by {
            if at == home && last is Push && id == last->Push_msg_id && p.pages_in(last, now) {
                assert(log.contains(last));
                let k = choose|k: int| 0 <= k < log.len() && log[k] == last;
                assert(log[k] is Push);
                assert(!p.shards[at].acked.contains(id));
            } else {
                assert(p.shards[at].messages.contains_key(id));
                assert(post.shards[at].messages[id] == p.shards[at].messages[id]);
            }
        }
    }
}

/// The engine and the scan after steps of a scan one behind the other.
pub open spec fn scan_all(e: EngineView, scan: ScanView, reads: Seq<SegmentRead>) -> (
    EngineView,
    ScanView,
)
    decreases reads.len(),
{
    if reads.len() == 0 {
        (e, scan)
    } else {
        let (p, s) = scan_all(e, scan, reads.drop_last());
        let (post, next, _again) = p.page_step(s, reads.last());
        (post, next)
    }
}

/// Every step of the scan reads records of the log.
pub open spec fn scans_log(
    e: EngineView,
    scan: ScanView,
    reads: Seq<SegmentRead>,
    log: Seq<RecordView>,
) -> bool {
    forall|i: int|
        0 <= i < reads.len() ==> {
            let (p, s) = scan_all(e, scan, reads.take(i));
            match disk_log::entries_from(
                p.disk.registry,
                p.spill_offset,
                s.fetch_limit,
                #[trigger] reads[i],
            ) {
                Some((records, next)) => forall|k: int|
                    0 <= k < records.len() ==> log.contains(#[trigger] records[k]),
                None => true,
            }
        }
}

/// A scan of the log, over however many reads, brings only messages into memory that the log
/// holds, that it does not acknowledge, and that are due within the horizon.
pub proof fn law_scan_brings_in_open_messages_only(
    e: EngineView,
    scan: ScanView,
    reads: Seq<SegmentRead>,
    log: Seq<RecordView>,
)
    requires
        e.inv(),
        acks_are_known(e, log),
        scans_log(e, scan, reads, log),
    ensures
        ({
            let post = scan_all(e, scan, reads).0;
            &&& post.inv()
            &&& acks_are_known(post, log)
            &&& post.options == e.options
            &&& scan_all(e, scan, reads).1.now == scan.now
            &&& forall|at: int, id: u128|
                0 <= at < NUM_SHARDS && #[trigger] post.shards[at].messages.contains_key(id)
                    && !e.shards[at].messages.contains_key(id) ==> is_open_message(
                    e,
                    log,
                    at,
                    post.shards[at].messages[id],
                    scan.now,
                )
        }),
    decreases reads.len(),
{
    if reads.len() > 0 {
        let head = reads.drop_last();
        let last = reads[reads.len() - 1];
        lemma_scans_head(e, scan, reads, log);
        law_scan_brings_in_open_messages_only(e, scan, head, log);
        assert(reads.take(reads.len() - 1) =~= head);
        let (p, s) = scan_all(e, scan, head);
        let post = scan_all(e, scan, reads).0;
        match disk_log::entries_from(p.disk.registry, p.spill_offset, s.fetch_limit, last) {
            Some((records, next)) => {
                let n = p.page_count(records, s.now) as int;
                model::lemma_page_count(p, records, s.now);
                let taken = records.take(n);
                assert forall|k: int| 0 <= k < taken.len() implies log.contains(
                    #[trigger] taken[k],
                ) by {
                    assert(taken[k] == records[k]);
                }
                law_paging_brings_in_open_messages_only(p, log, taken, s.now);
                model::lemma_page_records_frame(p, taken, s.now);
                let paged = p.page_records(taken, s.now);
                assert(post.shards == p.shards || post.shards == paged.shards);
                assert forall|at: int, id: u128|
                    0 <= at < NUM_SHARDS && #[trigger] post.shards[at].messages.contains_key(id)
                        && !e.shards[at].messages.contains_key(id) implies is_open_message(
                    e,
                    log,
                    at,
                    post.shards[at].messages[id],
                    scan.now,
                ) by {
                    if post.shards != p.shards {
                        assert(paged.shards[at].messages.contains_key(id));
                        if p.shards[at].messages.contains_key(id) {
                            lemma_paging_keeps_messages(p, taken, s.now, at, id);
                        } else {
                            assert(is_open_message(
                                p,
                                log,
                                at,
                                paged.shards[at].messages[id],
                                s.now,
                            ));
                        }
                    }
                }
            },
            None => {},
        }
    }
}

pub proof fn lemma_paging_keeps_messages(
    e: EngineView,
    records: Seq<RecordView>,
    now: u64,
    at: int,
    id: u128,
)
    requires
        e.inv(),
        0 <= at < NUM_SHARDS,
        e.shards[at].messages.contains_key(id),
    ensures
        e.page_records(records, now).inv(),
        e.page_records(records, now).shards[at].messages.contains_key(id) ==> e.page_records(
            records,
            now,
        ).shards[at].messages[id] == e.shards[at].messages[id],
        e.page_records(records, now).shards[at].messages.contains_key(id) || e.page_records(
            records,
            now,
        ).shards[at].acked.contains(id),
    decreases records.len(),
{
    if records.len() > 0 {
        let head = records.drop_last();
        lemma_paging_keeps_messages(e, head, now, at, id);
        model::lemma_page_record_inv(e.page_records(head, now), records.last(), now);
        model::lemma_shard_of_bound(model::queue_of(records.last()));
    }
}

/// The message is in memory as it was, or it is known to be acknowledged, not in memory, and
/// the log acknowledges it.
pub open spec fn is_kept_or_acked(
    e: EngineView,
    log: Seq<RecordView>,
    at: int,
    msg: MsgView,
) -> bool {
    let s = e.shards[at];
    ||| s.messages.contains_key(msg.id) && s.messages[msg.id] == msg
    ||| !s.messages.contains_key(msg.id) && s.acked.contains(msg.id) && compaction::acked_in(
        log,
        at,
        msg.id,
    )
}

proof fn lemma_paging_keeps_or_acks(
    e: EngineView,
    log: Seq<RecordView>,
    records: Seq<RecordView>,
    now: u64,
    at: int,
    msg: MsgView,
)
    requires
        e.shards.len() == NUM_SHARDS,
        0 <= at < NUM_SHARDS,
        is_kept_or_acked(e, log, at, msg),
        forall|k: int| 0 <= k < records.len() ==> log.contains(#[trigger] records[k]),
    ensures
        e.page_records(records, now).shards.len() == NUM_SHARDS,
        is_kept_or_acked(e.page_records(records, now), log, at, msg),
    decreases records.len(),
{
    if records.len() > 0 {
        let head = records.drop_last();
        let last = records[records.len() - 1];
        assert forall|k: int| 0 <= k < head.len() implies log.contains(#[trigger] head[k]) by {
            assert(head[k] == records[k]);
        }
        lemma_paging_keeps_or_acks(e, log, head, now, at, msg);
        model::lemma_shard_of_bound(model::queue_of(last));
        if compaction::acks_id(last, at, msg.id) {
            assert(log.contains(last));
            let k = choose|k: int| 0 <= k < log.len() && log[k] == last;
            assert(compaction::acks_id(log[k], at, msg.id));
        }
    }
}

/// A scan of the log, over however many reads, leaves the messages that are in memory as they
/// are, with their payload and delivery count, but for those that the log acknowledges.
pub proof fn law_scan_keeps_messages(
    e: EngineView,
    scan: ScanView,
    reads: Seq<SegmentRead>,
    log: Seq<RecordView>,
    at: int,
    id: u128,
)
    requires
        e.inv(),
        scans_log(e, scan, reads, log),
        0 <= at < NUM_SHARDS,
        e.shards[at].messages.contains_key(id),
    ensures
        scan_all(e, scan, reads).0.shards.len() == NUM_SHARDS,
        is_kept_or_acked(scan_all(e, scan, reads).0, log, at, e.shards[at].messages[id]),
    decreases reads.len(),
{
    let msg = e.shards[at].messages[id];
    assert(model::shard_holds(e.shards[at], at));
    assert(msg.id == id);
    if reads.len() > 0 {
        let head = reads.drop_last();
        let last = reads[reads.len() - 1];
        lemma_scans_head(e, scan, reads, log);
        law_scan_keeps_messages(e, scan, head, log, at, id);
        assert(reads.take(reads.len() - 1) =~= head);
        let (p, s) = scan_all(e, scan, head);
        match disk_log::entries_from(p.disk.registry, p.spill_offset, s.fetch_limit, last) {
            Some((records, next)) => {
                let n = p.page_count(records, s.now) as int;
                model::lemma_page_count(p, records, s.now);
                let taken = records.take(n);
                assert forall|k: int| 0 <= k < taken.len() implies log.contains(
                    #[trigger] taken[k],
                ) by {
                    assert(taken[k] == records[k]);
                }
                lemma_paging_keeps_or_acks(p, log, taken, s.now, at, msg);
                let post = scan_all(e, scan, reads).0;
                assert(post.shards == p.shards || post.shards == p.page_records(
                    taken,
                    s.now,
                ).shards);
            },
            None => {},
        }
    }
}

proof fn lemma_scans_head(
    e: EngineView,
    scan: ScanView,
    reads: Seq<SegmentRead>,
    log: Seq<RecordView>,
)
    requires
        reads.len() > 0,
        scans_log(e, scan, reads, log),
    ensures
        scans_log(e, scan, reads.drop_last(), log),
{
    let head = reads.drop_last();
    assert forall|i: int| 0 <= i < head.len() implies {
        let (p, s) = scan_all(e, scan, head.take(i));
        match disk_log::entries_from(
            p.disk.registry,
            p.spill_offset,
            s.fetch_limit,
            #[trigger] head[i],
        ) {
            Some((records, next)) => forall|k: int|
                0 <= k < records.len() ==> log.contains(#[trigger] records[k]),
            None => true,
        }
    } by {
        assert(head[i] == reads[i]);
        assert(head.take(i) =~= reads.take(i));
    }
}

/// While the first push of a message is in memory, what a repeated push of its id brings is
/// never delivered: not after the push, nor after a scan of a log that does not acknowledge
/// the message.
pub proof fn law_repeated_push_is_not_delivered(
    e: EngineView,
    queue: Seq<char>,
    id: u128,
    again: Seq<u8>,
    again_at: u64,
    pushed_at: u64,
    mid: EngineView,
    records: Seq<RecordView>,
    now: u64,
    max: nat,
    receipts: Seq<Seq<char>>,
    expire_at: u64,
    k: int,
)
    requires
        exclusive::all_exclusive(e),
        e.shard(queue).messages.contains_key(id),
        e.pushes_to(queue, id, again, again_at, pushed_at, mid),
        !compaction::acked_in(records, model::shard_of(queue), id),
        ({
            let (claimed, ids) = mid.page_records(records, now).claim(queue, now, max);
            let polled = claimed.lease(queue, ids, receipts, expire_at).1;
            0 <= k < polled.len() && polled[k].message_id == ids::ulid_text(id)
        }),
    ensures
        ({
            let (claimed, ids) = mid.page_records(records, now).claim(queue, now, max);
            claimed.lease(queue, ids, receipts, expire_at).1[k].payload == e.shard(
                queue,
            ).messages[id].payload
        }),
{
    model::lemma_shard_of_bound(queue);
    let at = model::shard_of(queue);
    assert(model::shard_holds(e.shards[at], at));
    assert(mid.shards == e.shards);
    assert(exclusive::all_exclusive(mid));
    lemma_unacked_stays(mid, records, now, at, id);
    exclusive::law_paging_keeps_exclusive(mid, records, now);
    let paged = mid.page_records(records, now);
    exclusive::lemma_claim_exclusive(paged.shard(queue), queue, now, max);
    let (claimed, ids) = paged.claim(queue, now, max);
    let c = claimed.shard(queue);
    assert(c == paged.shard(queue).claim(queue, now, max).0);
    lemma_lease_index(c, queue, ids, receipts, expire_at);
    let polled = claimed.lease(queue, ids, receipts, expire_at).1;
    let j = choose|j: int|
        0 <= j < ids.len() && polled[k].message_id == ids::ulid_text(#[trigger] ids[j])
            && c.lease(queue, ids, receipts, expire_at).0.wheel.index.contains_key(ids[j])
            && c.messages.contains_key(ids[j]) && polled[k].payload == c.messages[ids[j]].payload;
    ids::law_ulid_text_is_injective(ids[j], id);
}

/// The scan does not stop before a record that is among those paged in.
proof fn lemma_scan_passes(e: EngineView, records: Seq<RecordView>, now: u64, f: int)
    requires
        0 <= f < e.page_count(records, now),
    ensures
        f < records.len(),
        !e.page_records(records.take(f), now).stops_before(records[f], now),
    decreases records.len(),
{
    let head = records.drop_last();
    model::lemma_page_count(e, records, now);
    model::lemma_page_count(e, head, now);
    if f < head.len() {
        lemma_scan_passes(e, head, now, f);
        assert(head.take(f) =~= records.take(f));
        assert(head[f] == records[f]);
    } else {
        assert(records.take(f) =~= head);
    }
}

/// What the records that are paged in bring of a message is its first push among them.
proof fn lemma_first_push_is_taken(
    e: EngineView,
    records: Seq<RecordView>,
    now: u64,
    at: int,
    id: u128,
    f: int,
    m: int,
)
    requires
        e.inv(),
        0 <= at < NUM_SHARDS,
        !e.shards[at].messages.contains_key(id),
        0 <= f < records.len(),
        recovery::pushes_id(records[f], at, id),
        forall|j: int| 0 <= j < f ==> !recovery::pushes_id(#[trigger] records[j], at, id),
        records[f]->visible_at <= now + HOT_DELAY_HORIZON_SEC,
        0 <= m <= e.page_count(records, now),
    ensures
        ({
            let s = e.page_records(records.take(m), now).shards[at];
            let first = e.fresh_msg(
                id,
                model::queue_of(records[f]),
                records[f]->payload,
                records[f]->visible_at,
            );
            &&& e.page_records(records.take(m), now).shards.len() == NUM_SHARDS
            &&& m <= f ==> !s.messages.contains_key(id)
            &&& m > f ==> (s.messages.contains_key(id) && s.messages[id] == first) || (
            !s.messages.contains_key(id) && s.acked.contains(id))
        }),
    decreases m,
{
    model::lemma_page_count(e, records, now);
    if m > 0 {
        lemma_first_push_is_taken(e, records, now, at, id, f, m - 1);
        let part = records.take(m);
        assert(part.drop_last() =~= records.take(m - 1));
        assert(part.last() == records[m - 1]);
        let p = e.page_records(records.take(m - 1), now);
        model::lemma_page_records_frame(e, records.take(m - 1), now);
        model::lemma_shard_of_bound(model::queue_of(records[m - 1]));
        lemma_scan_passes(e, records, now, m - 1);
        if m - 1 < f {
            assert(!recovery::pushes_id(records[m - 1], at, id));
        }
    } else {
        assert(records.take(0) =~= Seq::empty());
    }
}

/// Where the first push of a message is only on disk, what a repeated push of its id brings is
/// not delivered either, if the record of the first is due within the horizon when the scan
/// meets it: a poll after the scan that hands out the message hands out the first push.
pub proof fn law_repeated_push_on_disk_is_not_delivered(
    e: EngineView,
    queue: Seq<char>,
    id: u128,
    again: Seq<u8>,
    again_at: u64,
    pushed_at: u64,
    mid: EngineView,
    records: Seq<RecordView>,
    f: int,
    now: u64,
    max: nat,
    receipts: Seq<Seq<char>>,
    expire_at: u64,
    k: int,
)
    requires
        exclusive::all_exclusive(e),
        e.shard(queue).seen.contains(id),
        !e.shard(queue).messages.contains_key(id),
        e.pushes_to(queue, id, again, again_at, pushed_at, mid),
        0 <= f < records.len(),
        recovery::pushes_id(records[f], model::shard_of(queue), id),
        forall|j: int|
            0 <= j < f ==> !recovery::pushes_id(#[trigger] records[j], model::shard_of(queue), id),
        records[f]->visible_at <= now + HOT_DELAY_HORIZON_SEC,
        ({
            let taken = records.take(mid.page_count(records, now) as int);
            let (claimed, ids) = mid.page_records(taken, now).claim(queue, now, max);
            let polled = claimed.lease(queue, ids, receipts, expire_at).1;
            0 <= k < polled.len() && polled[k].message_id == ids::ulid_text(id)
        }),
    ensures
        ({
            let taken = records.take(mid.page_count(records, now) as int);
            let (claimed, ids) = mid.page_records(taken, now).claim(queue, now, max);
            claimed.lease(queue, ids, receipts, expire_at).1[k].payload == records[f]->payload
        }),
{
    model::lemma_shard_of_bound(queue);
    let at = model::shard_of(queue);
    assert(mid.shards == e.shards);
    assert(exclusive::all_exclusive(mid));
    let n = mid.page_count(records, now) as int;
    let taken = records.take(n);
    lemma_first_push_is_taken(mid, records, now, at, id, f, n);
    exclusive::law_paging_keeps_exclusive(mid, taken, now);
    let paged = mid.page_records(taken, now);
    exclusive::lemma_claim_exclusive(paged.shard(queue), queue, now, max);
    let (claimed, ids) = paged.claim(queue, now, max);
    let c = claimed.shard(queue);
    assert(c == paged.shard(queue).claim(queue, now, max).0);
    lemma_lease_index(c, queue, ids, receipts, expire_at);
    let polled = claimed.lease(queue, ids, receipts, expire_at).1;
    let j = choose|j: int|
        0 <= j < ids.len() && polled[k].message_id == ids::ulid_text(#[trigger] ids[j])
            && c.lease(queue, ids, receipts, expire_at).0.wheel.index.contains_key(ids[j])
            && c.messages.contains_key(ids[j]) && polled[k].payload == c.messages[ids[j]].payload;
    ids::law_ulid_text_is_injective(ids[j], id);
    assert(paged.shards[at].messages.contains_key(id));
}

pub proof fn lemma_unacked_stays(
    e: EngineView,
    records: Seq<RecordView>,
    now: u64,
    at: int,
    id: u128,
)
    requires
        e.inv(),
        0 <= at < NUM_SHARDS,
        e.shards[at].messages.contains_key(id),
        !compaction::acked_in(records, at, id),
    ensures
        e.page_records(records, now).inv(),
        e.page_records(records, now).shards[at].messages.contains_key(id),
        e.page_records(records, now).shards[at].messages[id] == e.shards[at].messages[id],
    decreases records.len(),
{
    if records.len() > 0 {
        let head = records.drop_last();
        let last = records[records.len() - 1];
        assert(!compaction::acked_in(head, at, id)) by {
            if compaction::acked_in(head, at, id) {
                let k = choose|k: int|
                    0 <= k < head.len() && compaction::acks_id(#[trigger] head[k], at, id);
                assert(compaction::acks_id(records[k], at, id));
            }
        }
        lemma_unacked_stays(e, head, now, at, id);
        model::lemma_page_record_inv(e.page_records(head, now), last, now);
        model::lemma_shard_of_bound(model::queue_of(last));
        assert(!compaction::acks_id(last, at, id));
    }
}

/// Clearing what is in memory keeps it known what the log acknowledges.
pub proof fn law_clearing_keeps_acks_known(e: EngineView, log: Seq<RecordView>)
    requires
        e.inv(),
        acks_are_known(e, log),
    ensures
        acks_are_known(e.cleared(), log),
{
}

/// A push keeps it known what the log, with its record, acknowledges.
pub proof fn law_push_keeps_acks_known(
    e: EngineView,
    queue: Seq<char>,
    id: u128,
    payload: Seq<u8>,
    visible_at: u64,
    now: u64,
    post: EngineView,
    log: Seq<RecordView>,
)
    requires
        e.inv(),
        acks_are_known(e, log),
        e.pushes_to(queue, id, payload, visible_at, now, post),
    ensures
        acks_are_known(
            post,
            log.push(RecordView::Push { msg_id: id, queue_name: queue, visible_at, payload }),
        ),
{
    model::lemma_shard_of_bound(queue);
    let more = log.push(RecordView::Push { msg_id: id, queue_name: queue, visible_at, payload });
    assert forall|at: int, x: u128|
        0 <= at < NUM_SHARDS && #[trigger] compaction::acked_in(
            more,
            at,
            x,
        ) implies post.shards[at].acked.contains(x) by {
        let k = choose|k: int|
            0 <= k < more.len() && compaction::acks_id(#[trigger] more[k], at, x);
        assert(compaction::acks_id(log[k], at, x));
        assert(compaction::acked_in(log, at, x));
    }
}

/// An acknowledgement, by receipt or from elsewhere, is known, and so is what the log
/// acknowledged before.
pub proof fn law_ack_keeps_acks_known(
    e: EngineView,
    queue: Seq<char>,
    id: u128,
    post: EngineView,
    log: Seq<RecordView>,
)
    requires
        e.inv(),
        acks_are_known(e, log),
        e.acks_to(queue, id, post) || e.follower_acks_to(queue, id, post),
    ensures
        acks_are_known(post, log.push(RecordView::Ack { msg_id: id, queue_name: queue })),
{
    model::lemma_shard_of_bound(queue);
    let home = model::shard_of(queue);
    let more = log.push(RecordView::Ack { msg_id: id, queue_name: queue });
    let s = e.shard(queue);
    assert(post.shards[home] == s.ack_lease(queue, id) || post.shards[home] == s.apply_ack(
        queue,
        id,
    ));
    assert forall|at: int, x: u128|
        0 <= at < NUM_SHARDS && #[trigger] compaction::acked_in(
            more,
            at,
            x,
        ) implies post.shards[at].acked.contains(x) by {
        let k = choose|k: int|
            0 <= k < more.len() && compaction::acks_id(#[trigger] more[k], at, x);
        if k < log.len() {
            assert(compaction::acks_id(log[k], at, x));
            assert(compaction::acked_in(log, at, x));
        }
    }
}

/// After recovery the shards know of every acknowledgement that the log holds.
pub proof fn law_recovered_acks_are_known(e: EngineView, records: Seq<RecordView>)
    requires
        e.inv(),
    ensures
        e.replay(records).inv(),
        acks_are_known(e.replay(records), records),
    decreases records.len(),
{
    if records.len() > 0 {
        let head = records.drop_last();
        let last = records[records.len() - 1];
        law_recovered_acks_are_known(e, head);
        let p = e.replay(head);
        let post = e.replay(records);
        model::lemma_replay_record_inv(p, last);
        model::lemma_shard_of_bound(model::queue_of(last));
        assert forall|at: int, id: u128|
            0 <= at < NUM_SHARDS && #[trigger] compaction::acked_in(
                records,
                at,
                id,
            ) implies post.shards[at].acked.contains(id) by {
            let k = choose|k: int|
                0 <= k < records.len() && compaction::acks_id(#[trigger] records[k], at, id);
            if k < head.len() {
                assert(compaction::acks_id(head[k], at, id));
                assert(compaction::acked_in(head, at, id));
            }
        }
    }
}

}
