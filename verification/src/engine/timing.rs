//! When a message is handed out: not before its time, not while a lease on it runs, and again
//! once the lease has run out.
use vstd::prelude::*;

use crate::engine::disk_log;
use crate::engine::draining;
use crate::engine::exclusive;
use crate::engine::laws;
use crate::engine::model;
use crate::engine::model::{EngineView, NUM_SHARDS};
use crate::engine::sequences;
use crate::engine::sequences::PollStep;
use crate::engine::shard;
use crate::engine::shard::{MsgView, ShardView};
use crate::engine::single_queue::QueueView;
use crate::engine::timer_wheel;
use crate::engine::timer_wheel::{ItemView, WheelView};
use crate::engine::wal::RecordView;
use crate::ids;

verus! {

/// The id is not ready in the queue, and is filed under no second before `ready_at`.
pub open spec fn held_back(q: QueueView, id: u128, ready_at: int) -> bool {
    &&& q.hot.dom().finite()
    &&& !q.ready.contains(id)
    &&& forall|sec: u64| #[trigger]
        q.hot.contains_key(sec) && q.hot[sec].contains(id) ==> sec >= ready_at
    &&& forall|i: int|
        0 <= i < q.far.len() && (#[trigger] q.far[i]).id == id ==> q.far[i].visible_at >= ready_at
}

/// The message does not come up in its queue before `ready_at`, and no lease on it runs out
/// before `until`.
pub open spec fn withheld(
    e: EngineView,
    queue: Seq<char>,
    id: u128,
    ready_at: int,
    until: int,
) -> bool {
    let s = e.shard(queue);
    &&& e.inv()
    &&& s.wheel.wf()
    &&& forall|item: ItemView| #[trigger]
        timer_wheel::in_wheel(s.wheel, item) && item.id == id ==> item.expire_at >= until
    &&& s.queues.contains_key(queue) ==> held_back(s.queues[queue], id, ready_at)
}

/// The message is in memory, or known to be acknowledged.
pub open spec fn is_settled(e: EngineView, queue: Seq<char>, id: u128) -> bool {
    e.shard(queue).messages.contains_key(id) || e.shard(queue).acked.contains(id)
}

/// The records bring the message to the queue no earlier than `ready_at`.
pub open spec fn brings_late(
    records: Seq<RecordView>,
    queue: Seq<char>,
    id: u128,
    ready_at: int,
) -> bool {
    forall|k: int|
        0 <= k < records.len() && (#[trigger] records[k]) is Push && records[k]->Push_msg_id == id
            && records[k]->Push_queue_name == queue ==> records[k]->visible_at >= ready_at
}

/// The step comes before `ready_at` and before `until`. What it reads of the log brings the
/// message no earlier than `ready_at`, unless the message is settled.
pub open spec fn step_is_early(
    e: EngineView,
    queue: Seq<char>,
    step: PollStep,
    id: u128,
    ready_at: int,
    until: int,
) -> bool {
    match step {
        PollStep::End { now } => now < until,
        PollStep::Scan { scan, read } => scan.now < ready_at && (is_settled(e, queue, id)
            || match disk_log::entries_from(
            e.disk.registry,
            e.spill_offset,
            scan.fetch_limit,
            read,
        ) {
            Some((records, _)) => brings_late(records, queue, id, ready_at),
            None => true,
        }),
        PollStep::Take { now, .. } => now < ready_at,
    }
}

/// Every one of the steps comes before `ready_at` and before `until`.
pub open spec fn steps_are_early(
    e: EngineView,
    queue: Seq<char>,
    steps: Seq<PollStep>,
    id: u128,
    ready_at: int,
    until: int,
) -> bool
    decreases steps.len(),
{
    steps.len() > 0 ==> {
        &&& steps_are_early(e, queue, steps.drop_last(), id, ready_at, until)
        &&& step_is_early(
            sequences::run(e, queue, steps.drop_last()).0,
            queue,
            steps.last(),
            id,
            ready_at,
            until,
        )
    }
}

pub proof fn lemma_insert_holds_back(
    q: QueueView,
    other: u128,
    visible_at: u64,
    now: u64,
    id: u128,
    ready_at: int,
)
    requires
        held_back(q, id, ready_at),
        other != id || (visible_at > now && visible_at >= ready_at),
    ensures
        held_back(q.insert(other, visible_at, now), id, ready_at),
{
    let r = q.insert(other, visible_at, now);
    if r.ready.contains(id) {
        let i = choose|i: int| 0 <= i < r.ready.len() && r.ready[i] == id;
        if i < q.ready.len() {
            assert(q.ready[i] == id);
        }
    }
    assert forall|sec: u64| #[trigger] r.hot.contains_key(sec) && r.hot[sec].contains(id) implies sec
        >= ready_at by {
        if sec != visible_at || r.hot == q.hot {
            assert(q.hot.contains_key(sec) && q.hot[sec].contains(id));
        } else if other != id {
            let i = choose|i: int| 0 <= i < r.hot[sec].len() && r.hot[sec][i] == id;
            assert(q.hot.contains_key(sec));
            assert(q.hot[sec][i] == id);
            assert(q.hot[sec].contains(id));
        }
    }
    assert forall|i: int| 0 <= i < r.far.len() && (#[trigger] r.far[i]).id == id implies r.far[i].visible_at
        >= ready_at by {
        if i < q.far.len() {
            assert(q.far[i] == r.far[i]);
        }
    }
}

proof fn lemma_tombstone_holds_back(q: QueueView, other: u128, id: u128, ready_at: int)
    requires
        held_back(q, id, ready_at),
    ensures
        held_back(q.mark_deleted(other), id, ready_at),
{
    let r = q.mark_deleted(other);
    if r.ready.contains(id) {
        let i = choose|i: int| 0 <= i < r.ready.len() && r.ready[i] == id;
        if r.ready.len() < q.ready.len() {
            assert(q.ready[i + 1] == id);
        } else {
            assert(q.ready[i] == id);
        }
    }
}

pub proof fn lemma_advance_holds_back(q: QueueView, now: u64, id: u128, ready_at: int)
    requires
        held_back(q, id, ready_at),
        now < ready_at,
    ensures
        held_back(q.advance(now), id, ready_at),
{
    if now >= q.last_drained_sec {
        let p = q.promote(q.far, now);
        laws::lemma_promote_hot(q, q.far, now);
        laws::lemma_promote_far(q, q.far, now);
        laws::lemma_drain_ready(p, now);
        laws::lemma_drain_hot(p, now);
        let a = q.advance(now);
        assert forall|sec: u64| #[trigger]
            p.hot.contains_key(sec) && p.hot[sec].contains(id) implies sec >= ready_at by {
            assert(p.hot[sec].contains(id));
            if !(q.hot.contains_key(sec) && q.hot[sec].contains(id)) {
                let i = choose|i: int|
                    0 <= i < q.far.len() && (#[trigger] q.far[i]).id == id && q.far[i].visible_at
                        == sec;
                assert(q.far[i].id == id);
            }
        }
        assert(a.hot.dom().subset_of(p.hot.dom()));
        vstd::set_lib::lemma_len_subset(a.hot.dom(), p.hot.dom());
        assert forall|sec: u64| #[trigger] a.hot.contains_key(sec) && a.hot[sec].contains(
            id,
        ) implies sec >= ready_at by {
            assert(p.hot.dom().contains(sec));
            assert(p.hot.contains_key(sec) && p.hot[sec] == a.hot[sec]);
        }
        assert forall|i: int| 0 <= i < a.far.len() && (#[trigger] a.far[i]).id
            == id implies a.far[i].visible_at >= ready_at by {
            assert(q.far.contains(p.far[i]));
            let j = choose|j: int| 0 <= j < q.far.len() && q.far[j] == p.far[i];
            assert(q.far[j].id == id);
        }
    }
}

proof fn lemma_pop_holds_back(q: QueueView, id: u128, ready_at: int)
    requires
        held_back(q, id, ready_at),
    ensures
        held_back(q.pop().0, id, ready_at),
        q.pop().1 != Some(id),
    decreases q.ready.len(),
{
    if q.ready.len() > 0 {
        let first = q.ready[0];
        let rest = q.ready.drop_first();
        assert(!rest.contains(id)) by {
            if rest.contains(id) {
                let i = choose|i: int| 0 <= i < rest.len() && rest[i] == id;
                assert(q.ready[i + 1] == id);
            }
        }
        if q.deleted.contains(first) {
            lemma_pop_holds_back(
                QueueView { ready: rest, deleted: q.deleted.remove(first), ..q },
                id,
                ready_at,
            );
        }
    }
}

pub proof fn lemma_claim_holds_back(q: QueueView, max: nat, id: u128, ready_at: int)
    requires
        held_back(q, id, ready_at),
    ensures
        held_back(q.claim(max).0, id, ready_at),
        !q.claim(max).1.contains(id),
    decreases max,
{
    if max > 0 {
        lemma_pop_holds_back(q, id, ready_at);
        let (p, first) = q.pop();
        if first is Some {
            lemma_claim_holds_back(p, (max - 1) as nat, id, ready_at);
            let rest = p.claim((max - 1) as nat).1;
            let all = q.claim(max).1;
            assert(all == seq![first.unwrap()] + rest);
            if all.contains(id) {
                let i = choose|i: int| 0 <= i < all.len() && all[i] == id;
                assert(i > 0);
                assert(rest[i - 1] == id);
            }
        }
    }
}

/// What is not among the ids is neither handed out nor leased.
pub proof fn lemma_lease_spares(
    s: ShardView,
    name: Seq<char>,
    ids: Seq<u128>,
    receipts: Seq<Seq<char>>,
    expire_at: u64,
    id: u128,
)
    requires
        !ids.contains(id),
        s.wheel.wf(),
    ensures
        ({
            let (r, polled) = s.lease(name, ids, receipts, expire_at);
            &&& !sequences::is_handed_out(polled, id)
            &&& r.wheel.wf()
            &&& r.queues == s.queues
            &&& r.acked == s.acked
            &&& r.messages.dom() == s.messages.dom()
            &&& s.messages.contains_key(id) ==> r.messages[id] == s.messages[id]
            &&& r.wheel.index.contains_key(id) == s.wheel.index.contains_key(id)
            &&& s.wheel.index.contains_key(id) ==> r.wheel.index[id] == s.wheel.index[id]
            &&& forall|item: ItemView| #[trigger]
                timer_wheel::in_wheel(r.wheel, item) && item.id == id ==> timer_wheel::in_wheel(
                    s.wheel,
                    item,
                )
            &&& forall|item: ItemView|
                timer_wheel::in_wheel(s.wheel, item) ==> #[trigger] timer_wheel::in_wheel(
                    r.wheel,
                    item,
                )
        }),
    decreases ids.len(),
{
    if ids.len() > 0 {
        let head = ids.drop_last();
        let last = ids.last();
        assert(ids[ids.len() - 1] == last);
        assert(!head.contains(id)) by {
            if head.contains(id) {
                let i = choose|i: int| 0 <= i < head.len() && head[i] == id;
                assert(ids[i] == id);
            }
        }
        assert(last != id) by {
            if last == id {
                assert(ids.contains(id));
            }
        }
        lemma_lease_spares(s, name, head, receipts, expire_at, id);
        let (p, listed) = s.lease(name, head, receipts, expire_at);
        let (r, polled) = s.lease(name, ids, receipts, expire_at);
        if p.messages.contains_key(last) {
            let item = ItemView { id: last, queue: name, receipt: receipts[ids.len() - 1], expire_at };
            lemma_wheel_insert(p.wheel, item);
            assert(r.wheel == p.wheel.insert(item));
            assert(r.messages.dom() =~= p.messages.dom());
            if sequences::is_handed_out(polled, id) {
                let k = choose|k: int|
                    0 <= k < polled.len() && (#[trigger] polled[k]).message_id == ids::ulid_text(id);
                if k < listed.len() {
                    assert(listed[k].message_id == ids::ulid_text(id));
                } else {
                    ids::law_ulid_text_is_injective(last, id);
                }
            }
        }
    }
}

pub proof fn lemma_wheel_insert(w: WheelView, item: ItemView)
    requires
        w.wf(),
    ensures
        w.insert(item).wf(),
        timer_wheel::in_wheel(w.insert(item), item),
        forall|other: ItemView|
            timer_wheel::in_wheel(w, other) ==> #[trigger] timer_wheel::in_wheel(
                w.insert(item),
                other,
            ),
        forall|other: ItemView| #[trigger]
            timer_wheel::in_wheel(w.insert(item), other) && other != item ==> timer_wheel::in_wheel(
                w,
                other,
            ),
{
    let v = w.insert(item);
    let slot = w.slot_of(item.expire_at as int);
    assert(0 <= slot < w.slots.len());
    assert forall|s: int, k: int|
        0 <= s < v.slots.len() && 0 <= k < v.slots[s].len() implies v.slot_of(
        (#[trigger] v.slots[s][k]).expire_at as int,
    ) == s by {
        if s == slot && k == w.slots[slot].len() {
            assert(v.slots[s][k] == item);
        } else {
            assert(v.slots[s][k] == w.slots[s][k]);
        }
    }
    assert(v.slots[slot][w.slots[slot].len() as int] == item);
    assert forall|other: ItemView| timer_wheel::in_wheel(
        w,
        other,
    ) implies #[trigger] timer_wheel::in_wheel(v, other) by {
        let s = w.slot_of(other.expire_at as int);
        let j = choose|j: int| 0 <= j < w.slots[s].len() && w.slots[s][j] == other;
        assert(v.slots[s][j] == other);
    }
    assert forall|other: ItemView| #[trigger] timer_wheel::in_wheel(v, other) && other
        != item implies timer_wheel::in_wheel(w, other) by {
        let s = w.slot_of(other.expire_at as int);
        let j = choose|j: int| 0 <= j < v.slots[s].len() && v.slots[s][j] == other;
        assert(w.slots[s][j] == other);
    }
}

/// What a collection leaves in the wheel was there before, and what it hands out was there and
/// had run out.
pub proof fn lemma_collect(w: WheelView, now: u64)
    requires
        w.wf(),
    ensures
        w.collect(now).0.wf(),
        w.collect(now).0.index.submap_of(w.index),
        w.collect(now).0.last_checked_sec == now,
        forall|item: ItemView| #[trigger]
            timer_wheel::in_wheel(w.collect(now).0, item) ==> timer_wheel::in_wheel(w, item),
        forall|k: int|
            0 <= k < w.collect(now).1.len() ==> timer_wheel::in_wheel(
                w,
                #[trigger] w.collect(now).1[k],
            ) && w.collect(now).1[k].expire_at <= now,
{
    let base = w.sweep_base(now);
    let v = w.collect(now).0;
    timer_wheel::lemma_sweep(w, -1, w.slots.len(), now);
    if now > base {
        timer_wheel::lemma_sweep(w, base, (now - base) as nat, now);
    }
    let u = if w.index.dom().is_empty() || now <= base {
        w
    } else if now - base >= w.slots.len() {
        w.sweep(-1, w.slots.len(), now).0
    } else {
        w.sweep(base, (now - base) as nat, now).0
    };
    assert(v == (WheelView { last_checked_sec: now, ..u }));
    assert(u.wf());
    assert forall|s: int, k: int|
        0 <= s < v.slots.len() && 0 <= k < v.slots[s].len() implies v.slot_of(
        (#[trigger] v.slots[s][k]).expire_at as int,
    ) == s by {
        assert(u.slot_of(u.slots[s][k].expire_at as int) == s);
    }
    assert forall|item: ItemView| #[trigger] timer_wheel::in_wheel(
        v,
        item,
    ) implies timer_wheel::in_wheel(w, item) by {
        assert(timer_wheel::in_wheel(u, item));
    }
}

/// Routing one message leaves every other message as it is, in memory and in its queue.
proof fn lemma_route_spares(
    e: EngineView,
    msg: MsgView,
    now: u64,
    queue: Seq<char>,
    id: u128,
    ready_at: int,
)
    requires
        e.shards.len() == NUM_SHARDS,
        msg.id != id,
        e.shard(queue).queues.contains_key(queue) ==> held_back(
            e.shard(queue).queues[queue],
            id,
            ready_at,
        ),
    ensures
        ({
            let (s, r) = (e.shard(queue), e.route(msg, now).shard(queue));
            &&& e.route(msg, now).shards.len() == NUM_SHARDS
            &&& r.queues.contains_key(queue) ==> held_back(r.queues[queue], id, ready_at)
            &&& r.messages.contains_key(id) == s.messages.contains_key(id)
            &&& s.messages.contains_key(id) ==> r.messages[id] == s.messages[id]
            &&& s.acked.contains(id) ==> r.acked.contains(id)
        }),
{
    let dead = model::dlq_name(msg.queue);
    model::lemma_shard_of_bound(queue);
    model::lemma_shard_of_bound(msg.queue);
    model::lemma_shard_of_bound(dead);
    let s = e.shard(queue);
    let none = QueueView::empty(now);
    assert(held_back(none, id, ready_at));
    if msg.delivery_count >= msg.max_delivery {
        let given_up = e.with_disk(e.log_dead_letter(msg, now)).with_shard(
            msg.queue,
            e.shard(msg.queue).mark_acked(msg.id).tombstone(msg.queue, msg.id),
        );
        let g = given_up.shard(queue);
        if g.queues.contains_key(queue) && msg.queue == queue {
            lemma_tombstone_holds_back(s.queues[queue], msg.id, id, ready_at);
        }
        assert(g.queues.contains_key(queue) ==> held_back(g.queues[queue], id, ready_at));
        if dead == queue {
            let q = g.mark_seen(msg.id).queue(dead, now);
            lemma_insert_holds_back(q, msg.id, now, now, id, ready_at);
        }
    } else if msg.queue == queue {
        lemma_insert_holds_back(s.queue(queue, now), msg.id, now, now, id, ready_at);
    }
}

pub proof fn lemma_route_all_spares(
    e: EngineView,
    msgs: Seq<MsgView>,
    now: u64,
    queue: Seq<char>,
    id: u128,
    ready_at: int,
)
    requires
        e.shards.len() == NUM_SHARDS,
        forall|k: int| 0 <= k < msgs.len() ==> (#[trigger] msgs[k]).id != id,
        e.shard(queue).queues.contains_key(queue) ==> held_back(
            e.shard(queue).queues[queue],
            id,
            ready_at,
        ),
    ensures
        ({
            let (s, r) = (e.shard(queue), e.route_all(msgs, now).shard(queue));
            &&& e.route_all(msgs, now).shards.len() == NUM_SHARDS
            &&& r.queues.contains_key(queue) ==> held_back(r.queues[queue], id, ready_at)
            &&& r.messages.contains_key(id) == s.messages.contains_key(id)
            &&& s.messages.contains_key(id) ==> r.messages[id] == s.messages[id]
            &&& s.acked.contains(id) ==> r.acked.contains(id)
        }),
    decreases msgs.len(),
{
    if msgs.len() > 0 {
        let head = msgs.drop_last();
        assert forall|k: int| 0 <= k < head.len() implies (#[trigger] head[k]).id != id by {
            assert(head[k] == msgs[k]);
        }
        assert(msgs[msgs.len() - 1] == msgs.last());
        lemma_route_all_spares(e, head, now, queue, id, ready_at);
        lemma_route_spares(e.route_all(head, now), msgs.last(), now, queue, id, ready_at);
    }
}

proof fn lemma_end_withholds(
    e: EngineView,
    queue: Seq<char>,
    now: u64,
    id: u128,
    ready_at: int,
    until: int,
)
    requires
        withheld(e, queue, id, ready_at, until),
        now < until,
    ensures
        withheld(e.expire(queue, now), queue, id, ready_at, until),
        is_settled(e, queue, id) ==> is_settled(e.expire(queue, now), queue, id),
{
    model::lemma_shard_of_bound(queue);
    let at = model::shard_of(queue);
    let s = e.shard(queue);
    assert(model::shard_holds(e.shards[at], at));
    lemma_collect(s.wheel, now);
    let items = s.wheel.collect(now).1;
    let (r, taken) = s.take_expired(now);
    assert forall|k: int| 0 <= k < items.len() implies (#[trigger] items[k]).id != id by {
        assert(timer_wheel::in_wheel(s.wheel, items[k]));
    }
    exclusive::lemma_take_messages_only(s.messages, items, id);
    exclusive::lemma_taken_from_items(s.messages, items);
    assert forall|k: int| 0 <= k < taken.len() implies (#[trigger] taken[k]).id != id by {
        let j = choose|j: int| 0 <= j < items.len() && items[j].id == taken[k].id;
        assert(items[j].id != id);
    }
    let mid = e.with_shard(queue, r);
    lemma_route_all_spares(mid, taken, now, queue, id, ready_at);
    laws::lemma_route_all_wheels(mid, taken, now);
    model::lemma_take_expired(s, at, now);
    model::lemma_with_shard_inv(e, queue, r);
    assert forall|k: int| 0 <= k < taken.len() implies mid.shard(
        (#[trigger] taken[k]).queue,
    ).seen.contains(taken[k].id) by {
        assert(model::shard_of(taken[k].queue) == at);
    }
    model::lemma_route_all_inv(mid, taken, now);
    let post = e.expire(queue, now);
    assert(post.shards[at].wheel == r.wheel);
    assert(post.shard(queue).wheel == r.wheel);
}

proof fn lemma_page_record_withholds(
    e: EngineView,
    record: RecordView,
    now: u64,
    queue: Seq<char>,
    id: u128,
    ready_at: int,
    until: int,
)
    requires
        withheld(e, queue, id, ready_at, until),
        now < ready_at,
        is_settled(e, queue, id) || brings_late(seq![record], queue, id, ready_at),
    ensures
        withheld(e.page_record(record, now), queue, id, ready_at, until),
        is_settled(e, queue, id) ==> is_settled(e.page_record(record, now), queue, id),
{
    let name = model::queue_of(record);
    model::lemma_shard_of_bound(queue);
    model::lemma_shard_of_bound(name);
    model::lemma_page_record_inv(e, record, now);
    let s = e.shard(queue);
    assert(held_back(QueueView::empty(now), id, ready_at));
    assert(seq![record][0] == record);
    match record {
        RecordView::Push { msg_id, queue_name, visible_at, payload } => {
            if e.pages_in(record, now) && name == queue {
                lemma_insert_holds_back(s.queue(queue, now), msg_id, visible_at, now, id, ready_at);
            }
        },
        RecordView::Ack { msg_id, queue_name } => {
            if name == queue && s.queues.contains_key(queue) {
                lemma_tombstone_holds_back(s.queues[queue], msg_id, id, ready_at);
            }
        },
    }
    let post = e.page_record(record, now);
    assert(post.shard(queue).wheel == s.wheel);
}

proof fn lemma_paging_withholds(
    e: EngineView,
    records: Seq<RecordView>,
    now: u64,
    queue: Seq<char>,
    id: u128,
    ready_at: int,
    until: int,
)
    requires
        withheld(e, queue, id, ready_at, until),
        now < ready_at,
        is_settled(e, queue, id) || brings_late(records, queue, id, ready_at),
    ensures
        withheld(e.page_records(records, now), queue, id, ready_at, until),
        is_settled(e, queue, id) ==> is_settled(e.page_records(records, now), queue, id),
    decreases records.len(),
{
    if records.len() > 0 {
        let head = records.drop_last();
        let last = records[records.len() - 1];
        if brings_late(records, queue, id, ready_at) {
            assert(brings_late(head, queue, id, ready_at)) by {
                assert forall|k: int|
                    0 <= k < head.len() && (#[trigger] head[k]) is Push && head[k]->Push_msg_id == id
                        && head[k]->Push_queue_name == queue implies head[k]->visible_at
                    >= ready_at by {
                    assert(head[k] == records[k]);
                }
            }
            assert(brings_late(seq![last], queue, id, ready_at));
        }
        lemma_paging_withholds(e, head, now, queue, id, ready_at, until);
        lemma_page_record_withholds(
            e.page_records(head, now),
            last,
            now,
            queue,
            id,
            ready_at,
            until,
        );
    }
}

pub proof fn lemma_step_withholds(
    e: EngineView,
    queue: Seq<char>,
    step: PollStep,
    id: u128,
    ready_at: int,
    until: int,
)
    requires
        withheld(e, queue, id, ready_at, until),
        step_is_early(e, queue, step, id, ready_at, until),
    ensures
        ({
            let (post, polled) = sequences::step_once(e, queue, step);
            &&& withheld(post, queue, id, ready_at, until)
            &&& is_settled(e, queue, id) ==> is_settled(post, queue, id)
            &&& !sequences::is_handed_out(polled, id)
        }),
{
    model::lemma_shard_of_bound(queue);
    let s = e.shard(queue);
    match step {
        PollStep::End { now } => {
            lemma_end_withholds(e, queue, now, id, ready_at, until);
        },
        PollStep::Scan { scan, read } => {
            let taken = sequences::lemma_scan_pages(e, scan, read);
            if taken.len() > 0 && !is_settled(e, queue, id) {
                let records = disk_log::entries_from(
                    e.disk.registry,
                    e.spill_offset,
                    scan.fetch_limit,
                    read,
                ).unwrap().0;
                assert forall|k: int|
                    0 <= k < taken.len() && (#[trigger] taken[k]) is Push && taken[k]->Push_msg_id
                        == id && taken[k]->Push_queue_name == queue implies taken[k]->visible_at
                    >= ready_at by {
                    assert(taken[k] == records.subrange(0, taken.len() as int)[k]);
                    assert(records[k] is Push);
                }
            }
            lemma_paging_withholds(e, taken, scan.now, queue, id, ready_at, until);
            let paged = e.page_records(taken, scan.now);
            let post = e.page_step(scan, read).0;
            assert(post.shards == paged.shards);
            assert forall|at: int| 0 <= at < NUM_SHARDS implies model::shard_holds(
                #[trigger] post.shards[at],
                at,
            ) by {
                assert(post.shards[at] == paged.shards[at]);
            }
        },
        PollStep::Take { now, max, receipts, expire_at } => {
            let (claimed, ids) = e.claim(queue, now, max);
            let c = claimed.shard(queue);
            assert(c == s.claim(queue, now, max).0);
            if s.queues.contains_key(queue) {
                lemma_advance_holds_back(s.queues[queue], now, id, ready_at);
                lemma_claim_holds_back(s.queues[queue].advance(now), max, id, ready_at);
            }
            assert(!ids.contains(id));
            lemma_lease_spares(c, queue, ids, receipts, expire_at, id);
            model::lemma_claim_inv(e, queue, now, max);
            model::lemma_lease_inv(claimed, queue, ids, receipts, expire_at);
            let r = c.lease(queue, ids, receipts, expire_at).0;
            let post = sequences::step_once(e, queue, step).0;
            assert(post.shard(queue) == r);
            assert(r.messages.dom().contains(id) == c.messages.dom().contains(id));
        },
    }
}

/// However a queue is polled before `ready_at` and before `until`, a message that is withheld
/// until then is not handed out, and stays withheld.
pub proof fn law_withheld_message_is_not_handed_out(
    e: EngineView,
    queue: Seq<char>,
    steps: Seq<PollStep>,
    id: u128,
    ready_at: int,
    until: int,
)
    requires
        withheld(e, queue, id, ready_at, until),
        steps_are_early(e, queue, steps, id, ready_at, until),
    ensures
        ({
            let (post, polled) = sequences::run(e, queue, steps);
            &&& withheld(post, queue, id, ready_at, until)
            &&& is_settled(e, queue, id) ==> is_settled(post, queue, id)
            &&& !sequences::is_handed_out(polled, id)
        }),
    decreases steps.len(),
{
    if steps.len() > 0 {
        let head = steps.drop_last();
        law_withheld_message_is_not_handed_out(e, queue, head, id, ready_at, until);
        let (p, listed) = sequences::run(e, queue, head);
        lemma_step_withholds(p, queue, steps.last(), id, ready_at, until);
        let polled = sequences::step_once(p, queue, steps.last()).1;
        let all = listed + polled;
        if sequences::is_handed_out(all, id) {
            let k = choose|k: int|
                0 <= k < all.len() && (#[trigger] all[k]).message_id == ids::ulid_text(id);
            if k < listed.len() {
                assert(listed[k].message_id == ids::ulid_text(id));
            } else {
                assert(polled[k - listed.len()].message_id == ids::ulid_text(id));
            }
        }
    }
}

/// A message that was acknowledged in its queue does not come up there any more, and is not in
/// memory.
pub proof fn law_acked_message_does_not_come_up(
    e: EngineView,
    queue: Seq<char>,
    id: u128,
    due: u64,
)
    requires
        exclusive::all_exclusive(e),
        e.shard(queue).queues.contains_key(queue),
    ensures
        ({
            let s = e.apply_ack(queue, id).shard(queue);
            &&& s.queues.contains_key(queue)
            &&& !sequences::comes_up(s.queues[queue], id, due)
            &&& !s.messages.contains_key(id)
            &&& s.acked.contains(id)
        }),
{
    model::lemma_shard_of_bound(queue);
    assert(exclusive::exclusive(e.shards[model::shard_of(queue)]));
    let q = e.shard(queue).queues[queue];
    assert(exclusive::once(q));
    let r = q.mark_deleted(id);
    if q.ready.len() > 0 && q.ready[0] == id {
        assert(q.ready.contains(id));
        if r.ready.contains(id) {
            let i = choose|i: int| 0 <= i < r.ready.len() && r.ready[i] == id;
            assert(q.ready[i + 1] == q.ready[0]);
        }
        if draining::is_due(r, id, due) {
            let sec = choose|sec: u64| sec <= due && #[trigger] draining::filed_under(r, id, sec);
            if q.hot.contains_key(sec) && q.hot[sec].contains(id) {
                assert(exclusive::in_hot(q.hot, id));
            } else {
                assert(exclusive::in_far(q.far, id));
            }
        }
    }
}

}
