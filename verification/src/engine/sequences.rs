//! Polls of a queue one behind the other, with scans of the log between them.
use vstd::prelude::*;

use crate::engine::compaction;
use crate::engine::delivery;
use crate::engine::disk_log;
use crate::engine::disk_log::SegmentRead;
use crate::engine::draining;
use crate::engine::exclusive;
use crate::engine::histories;
use crate::engine::laws;
use crate::engine::model;
use crate::engine::model::{EngineView, ScanView, NUM_SHARDS};
use crate::engine::shard::{PolledView, ShardView};
use crate::engine::single_queue::{QueueView, HOT_DELAY_HORIZON_SEC};
use crate::engine::timer_wheel;
use crate::engine::timer_wheel::ItemView;
use crate::engine::wal::RecordView;
use crate::ids;

verus! {

/// A step of polls of a queue: the leases that have run out are ended, a part of the log is
/// scanned for messages that are only on disk, or messages are handed out under receipts and
/// until a time. A poll is the first, any number of the second, and the third.
pub enum PollStep {
    End { now: u64 },
    Scan { scan: ScanView, read: SegmentRead },
    Take { now: u64, max: nat, receipts: Seq<Seq<char>>, expire_at: u64 },
}

/// The engine after a step, and what the step handed out.
pub open spec fn step_once(e: EngineView, queue: Seq<char>, step: PollStep) -> (
    EngineView,
    Seq<PolledView>,
) {
    match step {
        PollStep::End { now } => (e.expire(queue, now), Seq::empty()),
        PollStep::Scan { scan, read } => (e.page_step(scan, read).0, Seq::empty()),
        PollStep::Take { now, max, receipts, expire_at } => {
            let (claimed, ids) = e.claim(queue, now, max);
            claimed.lease(queue, ids, receipts, expire_at)
        },
    }
}

/// The engine after steps one behind the other, and all that they handed out.
pub open spec fn run(e: EngineView, queue: Seq<char>, steps: Seq<PollStep>) -> (
    EngineView,
    Seq<PolledView>,
)
    decreases steps.len(),
{
    if steps.len() == 0 {
        (e, Seq::empty())
    } else {
        let (p, listed) = run(e, queue, steps.drop_last());
        let (post, polled) = step_once(p, queue, steps.last());
        (post, listed + polled)
    }
}

/// No lease in the queue's shard has run out at this time.
pub open spec fn leases_run(e: EngineView, queue: Seq<char>, now: u64) -> bool {
    forall|item: ItemView| #[trigger]
        timer_wheel::in_wheel(e.shard(queue).wheel, item) ==> item.expire_at > now
}

/// Where all leases run, ending those that have run out changes no queue, message or lease.
proof fn lemma_nothing_expires(e: EngineView, queue: Seq<char>, now: u64)
    requires
        exclusive::all_exclusive(e),
        leases_run(e, queue, now),
    ensures
        ({
            let s = e.shard(queue);
            let wheel = s.wheel.collect(now).0;
            &&& e.expire(queue, now) == e.with_shard(queue, ShardView { wheel, ..s })
            &&& wheel.index == s.wheel.index
            &&& exclusive::all_exclusive(e.expire(queue, now))
        }),
{
    model::lemma_shard_of_bound(queue);
    let s = e.shard(queue);
    let w = s.wheel;
    assert(exclusive::exclusive(s));
    exclusive::lemma_collect_single(w, now);
    let (v, items) = w.collect(now);
    if items.len() > 0 {
        timer_wheel::law_collected_leases_have_ended(w, now, 0, Seq::empty());
        assert(timer_wheel::in_wheel(w, items[0]));
        assert(false);
    }
    assert(items =~= Seq::empty());
    assert forall|id: u128| w.index.contains_key(id) implies v.index.contains_key(id) by {
        timer_wheel::law_collect_loses_nothing(w, now, arbitrary(), id);
        if !v.index.contains_key(id) {
            assert(timer_wheel::ids_of(items).contains(id));
        }
    }
    assert(v.index =~= w.index);
    let r = ShardView { wheel: v, ..s };
    let (taken, msgs) = s.take_expired(now);
    assert(taken =~= r);
    assert(msgs =~= Seq::empty());
    assert(exclusive::exclusive(r)) by {
        assert forall|name: Seq<char>, x: u128| exclusive::waits(r, name, x) == exclusive::waits(
            s,
            name,
            x,
        ) by {}
        assert forall|name: Seq<char>, id: u128| #[trigger] exclusive::waits(
            r,
            name,
            id,
        ) implies exclusive::known(r, id) && !r.wheel.index.contains_key(id) by {
            assert(exclusive::waits(s, name, id));
        }
        assert forall|a: Seq<char>, b: Seq<char>, id: u128| #[trigger] exclusive::waits(r, a, id)
            && #[trigger] exclusive::waits(r, b, id) implies a == b by {
            assert(exclusive::waits(s, a, id) && exclusive::waits(s, b, id));
        }
        assert forall|id: u128| #[trigger] r.wheel.index.contains_key(id) implies exclusive::known(
            r,
            id,
        ) by {
            assert(s.wheel.index.contains_key(id));
        }
    }
    assert(model::shard_holds(s, model::shard_of(queue)));
    assert(model::shard_holds(r, model::shard_of(queue)));
    model::lemma_with_shard_inv(e, queue, r);
    exclusive::lemma_with_shard_exclusive(e, queue, r);
}

/// Whenever leases are ended, all of them in the queue's shard run.
pub open spec fn within_leases(e: EngineView, queue: Seq<char>, steps: Seq<PollStep>) -> bool
    decreases steps.len(),
{
    steps.len() > 0 ==> {
        &&& within_leases(e, queue, steps.drop_last())
        &&& steps.last() matches PollStep::End { now } ==> leases_run(
            run(e, queue, steps.drop_last()).0,
            queue,
            now,
        )
    }
}

/// None of the records that a step scans acknowledges the message.
pub open spec fn step_spares(e: EngineView, step: PollStep, at: int, id: u128) -> bool {
    step matches PollStep::Scan { scan, read } ==> match disk_log::entries_from(
        e.disk.registry,
        e.spill_offset,
        scan.fetch_limit,
        read,
    ) {
        Some((records, _)) => !compaction::acked_in(records, at, id),
        None => true,
    }
}

/// None of the records that the steps scan acknowledges the message.
pub open spec fn spares(
    e: EngineView,
    queue: Seq<char>,
    steps: Seq<PollStep>,
    at: int,
    id: u128,
) -> bool
    decreases steps.len(),
{
    steps.len() > 0 ==> {
        &&& spares(e, queue, steps.drop_last(), at, id)
        &&& step_spares(run(e, queue, steps.drop_last()).0, steps.last(), at, id)
    }
}

/// A message that was handed out is under a lease.
spec fn under_lease(e: EngineView, queue: Seq<char>, text: Seq<char>) -> bool {
    exists|x: u128|
        text == #[trigger] ids::ulid_text(x) && e.shard(queue).wheel.index.contains_key(x)
}

/// A step of a scan pages in the first of the records that it reads, or none.
pub proof fn lemma_scan_pages(e: EngineView, scan: ScanView, read: SegmentRead) -> (taken: Seq<RecordView>)
    ensures
        e.page_step(scan, read).0.shards == e.page_records(taken, scan.now).shards,
        taken.len() > 0 ==> {
            &&& disk_log::entries_from(
                e.disk.registry,
                e.spill_offset,
                scan.fetch_limit,
                read,
            ) matches Some((records, _)) && taken.is_prefix_of(records)
        },
{
    match disk_log::entries_from(e.disk.registry, e.spill_offset, scan.fetch_limit, read) {
        Some((records, next)) => if records.len() > 0 && model::has_push(records) {
            model::lemma_page_count(e, records, scan.now);
            records.take(e.page_count(records, scan.now) as int)
        } else {
            Seq::empty()
        },
        None => Seq::empty(),
    }
}

pub proof fn lemma_taken_spares(
    e: EngineView,
    scan: ScanView,
    read: SegmentRead,
    taken: Seq<RecordView>,
    at: int,
    id: u128,
)
    requires
        step_spares(e, PollStep::Scan { scan, read }, at, id),
        taken.len() > 0 ==> {
            &&& disk_log::entries_from(
                e.disk.registry,
                e.spill_offset,
                scan.fetch_limit,
                read,
            ) matches Some((records, _)) && taken.is_prefix_of(records)
        },
    ensures
        !compaction::acked_in(taken, at, id),
{
    if compaction::acked_in(taken, at, id) {
        let k = choose|k: int|
            0 <= k < taken.len() && compaction::acks_id(#[trigger] taken[k], at, id);
        let records = disk_log::entries_from(
            e.disk.registry,
            e.spill_offset,
            scan.fetch_limit,
            read,
        ).unwrap().0;
        assert(taken[k] == records.subrange(0, taken.len() as int)[k]);
        assert(compaction::acks_id(records[k], at, id));
    }
}

pub proof fn lemma_paging_keeps_wheels(e: EngineView, records: Seq<RecordView>, now: u64, at: int)
    requires
        e.shards.len() == NUM_SHARDS,
        0 <= at < NUM_SHARDS,
    ensures
        e.page_records(records, now).shards.len() == NUM_SHARDS,
        e.page_records(records, now).shards[at].wheel == e.shards[at].wheel,
    decreases records.len(),
{
    if records.len() > 0 {
        lemma_paging_keeps_wheels(e, records.drop_last(), now, at);
        model::lemma_shard_of_bound(model::queue_of(records.last()));
    }
}

proof fn lemma_scan_step(e: EngineView, queue: Seq<char>, scan: ScanView, read: SegmentRead)
    requires
        exclusive::all_exclusive(e),
    ensures
        exclusive::all_exclusive(e.page_step(scan, read).0),
        e.page_step(scan, read).0.shard(queue).wheel == e.shard(queue).wheel,
{
    let taken = lemma_scan_pages(e, scan, read);
    exclusive::law_paging_keeps_exclusive(e, taken, scan.now);
    model::lemma_shard_of_bound(queue);
    lemma_paging_keeps_wheels(e, taken, scan.now, model::shard_of(queue));
    let paged = e.page_records(taken, scan.now);
    let post = e.page_step(scan, read).0;
    assert forall|at: int| 0 <= at < NUM_SHARDS implies exclusive::exclusive(
        #[trigger] post.shards[at],
    ) && model::shard_holds(post.shards[at], at) by {
        assert(post.shards[at] == paged.shards[at]);
    }
}

/// What a step hands out is not under a lease before, each once, and is after.
proof fn lemma_step_leases(e: EngineView, queue: Seq<char>, step: PollStep)
    requires
        exclusive::all_exclusive(e),
        step matches PollStep::End { now } ==> leases_run(e, queue, now),
    ensures
        ({
            let (post, polled) = step_once(e, queue, step);
            &&& exclusive::all_exclusive(post)
            &&& e.shard(queue).wheel.index.dom().subset_of(post.shard(queue).wheel.index.dom())
            &&& forall|k: int|
                0 <= k < polled.len() ==> exists|x: u128|
                    (#[trigger] polled[k]).message_id == #[trigger] ids::ulid_text(x)
                        && !e.shard(queue).wheel.index.contains_key(x) && post.shard(
                        queue,
                    ).wheel.index.contains_key(x) && e.shard(queue).messages.contains_key(x)
                        && polled[k].payload == e.shard(queue).messages[x].payload
            &&& forall|i: int, k: int|
                0 <= i < k < polled.len() ==> (#[trigger] polled[i]).message_id != (
                #[trigger] polled[k]).message_id
        }),
{
    model::lemma_shard_of_bound(queue);
    match step {
        PollStep::End { now } => {
            lemma_nothing_expires(e, queue, now);
        },
        PollStep::Scan { scan, read } => {
            lemma_scan_step(e, queue, scan, read);
        },
        PollStep::Take { now, max, receipts, expire_at } => {
            exclusive::law_poll_is_exclusive(e, queue, now, max, receipts, expire_at);
            let s = e.shard(queue);
            exclusive::lemma_claim_exclusive(s, queue, now, max);
            let (claimed, ids) = e.claim(queue, now, max);
            let c = claimed.shard(queue);
            assert(c == s.claim(queue, now, max).0);
            histories::lemma_lease_index(c, queue, ids, receipts, expire_at);
            let (post, polled) = claimed.lease(queue, ids, receipts, expire_at);
            let r = c.lease(queue, ids, receipts, expire_at).0;
            assert(post.shard(queue) == r);
            assert forall|k: int| 0 <= k < polled.len() implies exists|x: u128|
                (#[trigger] polled[k]).message_id == #[trigger] ids::ulid_text(x)
                    && !s.wheel.index.contains_key(x) && r.wheel.index.contains_key(x)
                    && s.messages.contains_key(x) && polled[k].payload == s.messages[x].payload by {
                let j = choose|j: int|
                    0 <= j < ids.len() && polled[k].message_id == ids::ulid_text(#[trigger] ids[j])
                        && r.wheel.index.contains_key(ids[j]) && c.messages.contains_key(ids[j])
                        && polled[k].payload == c.messages[ids[j]].payload;
                assert(polled[k].message_id == ids::ulid_text(ids[j]));
            }
        },
    }
}

proof fn lemma_run_leases(e: EngineView, queue: Seq<char>, steps: Seq<PollStep>)
    requires
        exclusive::all_exclusive(e),
        within_leases(e, queue, steps),
    ensures
        exclusive::all_exclusive(run(e, queue, steps).0),
        forall|i: int, j: int|
            0 <= i < j < run(e, queue, steps).1.len() ==> (
            #[trigger] run(e, queue, steps).1[i]).message_id != (
            #[trigger] run(e, queue, steps).1[j]).message_id,
        forall|k: int|
            0 <= k < run(e, queue, steps).1.len() ==> under_lease(
                run(e, queue, steps).0,
                queue,
                (#[trigger] run(e, queue, steps).1[k]).message_id,
            ),
    decreases steps.len(),
{
    if steps.len() > 0 {
        let head = steps.drop_last();
        let last = steps.last();
        lemma_run_leases(e, queue, head);
        let (p, listed) = run(e, queue, head);
        lemma_step_leases(p, queue, last);
        let (post, polled) = step_once(p, queue, last);
        let all = run(e, queue, steps).1;
        assert(all == listed + polled);
        let before = p.shard(queue).wheel.index;
        let after = post.shard(queue).wheel.index;
        assert forall|k: int| 0 <= k < all.len() implies under_lease(
            post,
            queue,
            (#[trigger] all[k]).message_id,
        ) by {
            if k < listed.len() {
                assert(all[k] == listed[k]);
                assert(under_lease(p, queue, listed[k].message_id));
                let x = choose|x: u128|
                    listed[k].message_id == #[trigger] ids::ulid_text(x) && before.contains_key(x);
                assert(after.dom().contains(x));
            } else {
                let m = polled[k - listed.len()];
                assert(all[k] == m);
                let x = choose|x: u128|
                    m.message_id == #[trigger] ids::ulid_text(x) && !before.contains_key(x)
                        && after.contains_key(x) && p.shard(queue).messages.contains_key(x);
                assert(after.contains_key(x));
            }
        }
        assert forall|i: int, k: int| 0 <= i < k < all.len() implies (
        #[trigger] all[i]).message_id != (#[trigger] all[k]).message_id by {
            if k < listed.len() {
                assert(all[i] == listed[i] && all[k] == listed[k]);
            } else if i >= listed.len() {
                assert(all[i] == polled[i - listed.len()] && all[k] == polled[k - listed.len()]);
            } else {
                let m = polled[k - listed.len()];
                assert(all[i] == listed[i] && all[k] == m);
                assert(under_lease(p, queue, listed[i].message_id));
                let x = choose|x: u128|
                    listed[i].message_id == #[trigger] ids::ulid_text(x) && before.contains_key(x);
                let y = choose|y: u128|
                    m.message_id == #[trigger] ids::ulid_text(y) && !before.contains_key(y)
                        && after.contains_key(y) && p.shard(queue).messages.contains_key(y);
                if listed[i].message_id == m.message_id {
                    ids::law_ulid_text_is_injective(x, y);
                }
            }
        }
    }
}

/// Polls of a queue within the lease time, however many there are and whatever they bring in
/// from the log, hand out each message at most once.
pub proof fn law_polls_hand_out_each_message_once(
    e: EngineView,
    queue: Seq<char>,
    steps: Seq<PollStep>,
)
    requires
        exclusive::all_exclusive(e),
        within_leases(e, queue, steps),
    ensures
        exclusive::all_exclusive(run(e, queue, steps).0),
        forall|i: int, j: int|
            0 <= i < j < run(e, queue, steps).1.len() ==> (
            #[trigger] run(e, queue, steps).1[i]).message_id != (
            #[trigger] run(e, queue, steps).1[j]).message_id,
{
    lemma_run_leases(e, queue, steps);
}

/// A poll that hands out fewer ids than it was asked for leaves nothing ready.
pub proof fn law_short_claim_leaves_nothing_ready(q: QueueView, max: nat)
    requires
        q.claim(max).1.len() < max,
    ensures
        q.claim(max).0.ready.len() == 0,
    decreases max,
{
    let (p, id) = q.pop();
    lemma_pop_of_nothing(q);
    if id is Some {
        law_short_claim_leaves_nothing_ready(p, (max - 1) as nat);
    }
}

proof fn lemma_pop_of_nothing(q: QueueView)
    ensures
        q.pop().1 is None ==> q.pop().0.ready.len() == 0,
    decreases q.ready.len(),
{
    if q.ready.len() > 0 {
        let id = q.ready[0];
        if q.deleted.contains(id) {
            lemma_pop_of_nothing(
                QueueView { ready: q.ready.drop_first(), deleted: q.deleted.remove(id), ..q },
            );
        }
    }
}

/// The message is among those that were handed out.
pub open spec fn is_handed_out(polled: Seq<PolledView>, id: u128) -> bool {
    exists|k: int|
        0 <= k < polled.len() && (#[trigger] polled[k]).message_id == ids::ulid_text(id)
}

proof fn lemma_pop_splits(q: QueueView, id: u128)
    requires
        q.ready.contains(id),
        !q.deleted.contains(id),
    ensures
        q.pop().1 is Some,
        q.pop().1 == Some(id) || (q.pop().0.ready.contains(id) && !q.pop().0.deleted.contains(id)),
    decreases q.ready.len(),
{
    let first = q.ready[0];
    let rest = q.ready.drop_first();
    let i = choose|i: int| 0 <= i < q.ready.len() && q.ready[i] == id;
    if first != id {
        assert(rest[i - 1] == id);
        if q.deleted.contains(first) {
            lemma_pop_splits(QueueView { ready: rest, deleted: q.deleted.remove(first), ..q }, id);
        }
    }
}

pub proof fn lemma_claim_splits(q: QueueView, max: nat, id: u128)
    requires
        q.ready.contains(id),
        !q.deleted.contains(id),
    ensures
        q.claim(max).1.contains(id) || (q.claim(max).0.ready.contains(id) && !q.claim(
            max,
        ).0.deleted.contains(id)),
    decreases max,
{
    if max > 0 {
        lemma_pop_splits(q, id);
        let (p, first) = q.pop();
        let m = (max - 1) as nat;
        let all = q.claim(max).1;
        let ids = p.claim(m).1;
        assert(all == seq![first.unwrap()] + ids);
        if first == Some(id) {
            assert(all[0] == id);
        } else {
            lemma_claim_splits(p, m, id);
            if ids.contains(id) {
                let i = choose|i: int| 0 <= i < ids.len() && ids[i] == id;
                assert(all[i + 1] == id);
            }
        }
    }
}

pub proof fn lemma_lease_hands_out(
    s: ShardView,
    name: Seq<char>,
    ids: Seq<u128>,
    receipts: Seq<Seq<char>>,
    expire_at: u64,
    id: u128,
)
    requires
        ids.contains(id),
        s.messages.contains_key(id),
    ensures
        is_handed_out(s.lease(name, ids, receipts, expire_at).1, id),
    decreases ids.len(),
{
    let head = ids.drop_last();
    let (p, listed) = s.lease(name, head, receipts, expire_at);
    let polled = s.lease(name, ids, receipts, expire_at).1;
    laws::lemma_lease_frame(s, name, head, receipts, expire_at);
    if ids.last() == id {
        assert(p.messages.dom().contains(id));
        assert(polled[listed.len() as int].message_id == ids::ulid_text(id));
    } else {
        let i = choose|i: int| 0 <= i < ids.len() && ids[i] == id;
        assert(head[i] == id);
        lemma_lease_hands_out(s, name, head, receipts, expire_at, id);
        let k = choose|k: int|
            0 <= k < listed.len() && (#[trigger] listed[k]).message_id == ids::ulid_text(id);
        assert(polled[k] == listed[k]);
    }
}

/// The id is ready in the queue, or filed under a second not after `due`, and has no
/// tombstone.
pub open spec fn comes_up(q: QueueView, id: u128, due: u64) -> bool {
    !q.deleted.contains(id) && (q.ready.contains(id) || draining::is_due(q, id, due))
}

/// The message is in memory, and comes up in its queue at `due` at the latest.
pub open spec fn awaits(e: EngineView, queue: Seq<char>, id: u128, due: u64) -> bool {
    let s = e.shard(queue);
    &&& s.messages.contains_key(id)
    &&& s.queues.contains_key(queue)
    &&& comes_up(s.queues[queue], id, due)
}

pub proof fn lemma_insert_comes_up(q: QueueView, id: u128, visible_at: u64, now: u64)
    requires
        visible_at <= now + HOT_DELAY_HORIZON_SEC,
    ensures
        comes_up(q.insert(id, visible_at, now), id, visible_at),
{
    let r = q.insert(id, visible_at, now);
    if visible_at <= now {
        assert(r.ready[q.ready.len() as int] == id);
    } else {
        if q.hot.contains_key(visible_at) {
            assert(r.hot[visible_at][q.hot[visible_at].len() as int] == id);
        } else {
            assert(r.hot[visible_at][0] == id);
        }
        assert(r.hot[visible_at].contains(id));
        assert(draining::filed_under(r, id, visible_at));
    }
}

pub proof fn lemma_insert_keeps_coming_up(
    q: QueueView,
    other: u128,
    visible_at: u64,
    now: u64,
    id: u128,
    due: u64,
)
    requires
        comes_up(q, id, due),
        other != id,
    ensures
        comes_up(q.insert(other, visible_at, now), id, due),
{
    let r = q.insert(other, visible_at, now);
    if q.ready.contains(id) {
        let i = choose|i: int| 0 <= i < q.ready.len() && q.ready[i] == id;
        assert(r.ready[i] == id);
    } else {
        let sec = choose|sec: u64| sec <= due && #[trigger] draining::filed_under(q, id, sec);
        if q.hot.contains_key(sec) && q.hot[sec].contains(id) {
            let b = q.hot[sec];
            let i = choose|i: int| 0 <= i < b.len() && b[i] == id;
            assert(r.hot.contains_key(sec) && r.hot[sec][i] == id);
            assert(r.hot[sec].contains(id));
        } else {
            let i = choose|i: int| 0 <= i < q.far.len() && q.far[i].id == id && q.far[i].visible_at
                == sec;
            assert(r.far[i] == q.far[i]);
        }
        assert(draining::filed_under(r, id, sec));
    }
}

pub proof fn lemma_tombstone_keeps_coming_up(q: QueueView, other: u128, id: u128, due: u64)
    requires
        comes_up(q, id, due),
        other != id,
    ensures
        comes_up(q.mark_deleted(other), id, due),
{
    let r = q.mark_deleted(other);
    if q.ready.contains(id) {
        let i = choose|i: int| 0 <= i < q.ready.len() && q.ready[i] == id;
        if r.ready != q.ready {
            assert(r.ready[i - 1] == id);
        }
    } else {
        let sec = choose|sec: u64| sec <= due && #[trigger] draining::filed_under(q, id, sec);
        assert(draining::filed_under(r, id, sec));
    }
}

proof fn lemma_page_record_keeps_awaiting(
    e: EngineView,
    record: RecordView,
    now: u64,
    queue: Seq<char>,
    id: u128,
    due: u64,
)
    requires
        e.inv(),
        awaits(e, queue, id, due),
        !compaction::acks_id(record, model::shard_of(queue), id),
    ensures
        awaits(e.page_record(record, now), queue, id, due),
{
    model::lemma_shard_of_bound(queue);
    let at = model::shard_of(queue);
    let s = e.shard(queue);
    let name = model::queue_of(record);
    model::lemma_shard_of_bound(name);
    if model::shard_of(name) == at {
        match record {
            RecordView::Push { msg_id, queue_name, visible_at, payload } => {
                if e.pages_in(record, now) && name == queue {
                    lemma_insert_keeps_coming_up(
                        s.queues[queue],
                        msg_id,
                        visible_at,
                        now,
                        id,
                        due,
                    );
                }
            },
            RecordView::Ack { msg_id, queue_name } => {
                if name == queue {
                    lemma_tombstone_keeps_coming_up(s.queues[queue], msg_id, id, due);
                }
            },
        }
    }
}

proof fn lemma_paging_keeps_awaiting(
    e: EngineView,
    records: Seq<RecordView>,
    now: u64,
    queue: Seq<char>,
    id: u128,
    due: u64,
)
    requires
        e.inv(),
        awaits(e, queue, id, due),
        !compaction::acked_in(records, model::shard_of(queue), id),
    ensures
        e.page_records(records, now).inv(),
        awaits(e.page_records(records, now), queue, id, due),
    decreases records.len(),
{
    if records.len() > 0 {
        let head = records.drop_last();
        let last = records[records.len() - 1];
        let at = model::shard_of(queue);
        assert(!compaction::acked_in(head, at, id)) by {
            if compaction::acked_in(head, at, id) {
                let k = choose|k: int|
                    0 <= k < head.len() && compaction::acks_id(#[trigger] head[k], at, id);
                assert(compaction::acks_id(records[k], at, id));
            }
        }
        assert(!compaction::acks_id(last, at, id));
        lemma_paging_keeps_awaiting(e, head, now, queue, id, due);
        let p = e.page_records(head, now);
        model::lemma_page_record_inv(p, last, now);
        lemma_page_record_keeps_awaiting(p, last, now, queue, id, due);
    }
}

proof fn lemma_pop_frame(q: QueueView)
    ensures
        q.pop().0.hot == q.hot,
        q.pop().0.far == q.far,
        q.pop().0.deleted.subset_of(q.deleted),
    decreases q.ready.len(),
{
    if q.ready.len() > 0 {
        let id = q.ready[0];
        if q.deleted.contains(id) {
            lemma_pop_frame(
                QueueView { ready: q.ready.drop_first(), deleted: q.deleted.remove(id), ..q },
            );
        }
    }
}

proof fn lemma_claim_frame(q: QueueView, max: nat)
    ensures
        q.claim(max).0.hot == q.hot,
        q.claim(max).0.far == q.far,
        q.claim(max).0.deleted.subset_of(q.deleted),
    decreases max,
{
    if max > 0 {
        lemma_pop_frame(q);
        let (p, id) = q.pop();
        if id is Some {
            lemma_claim_frame(p, (max - 1) as nat);
        }
    }
}

proof fn lemma_advance_comes_up(q: QueueView, now: u64, id: u128, due: u64)
    requires
        exclusive::once(q),
        comes_up(q, id, due),
    ensures
        comes_up(q.advance(now), id, due),
        due <= now && q.last_drained_sec <= now ==> q.advance(now).ready.contains(id),
{
    if now >= q.last_drained_sec {
        let a = q.advance(now);
        let n = q.ready.len() as int;
        let p = q.promote(q.far, now);
        draining::law_advance_appends_what_is_due(q, now);
        laws::lemma_promote_hot(q, q.far, now);
        histories::lemma_drain_keeps(p, now);
        assert(!a.deleted.contains(id));
        if q.ready.contains(id) {
            let i = choose|i: int| 0 <= i < n && q.ready[i] == id;
            assert(a.ready.take(n)[i] == id);
            assert(a.ready[i] == id);
        } else {
            let sec = choose|sec: u64| sec <= due && #[trigger] draining::filed_under(q, id, sec);
            if sec <= now {
                assert(draining::is_due(q, id, now));
                assert(a.ready.skip(n).contains(id));
                let i = choose|i: int| 0 <= i < a.ready.skip(n).len() && a.ready.skip(n)[i] == id;
                assert(a.ready[n + i] == id);
            } else {
                assert(draining::filed_under(a, id, sec));
            }
        }
    }
}

proof fn lemma_take_splits(
    s: ShardView,
    queue: Seq<char>,
    now: u64,
    max: nat,
    receipts: Seq<Seq<char>>,
    expire_at: u64,
    id: u128,
    due: u64,
)
    requires
        s.messages.contains_key(id),
        s.queues.contains_key(queue),
        exclusive::once(s.queues[queue]),
        comes_up(s.queues[queue], id, due),
    ensures
        ({
            let (c, ids) = s.claim(queue, now, max);
            let (r, polled) = c.lease(queue, ids, receipts, expire_at);
            &&& is_handed_out(polled, id) || (r.messages.contains_key(id) && r.queues.contains_key(
                queue,
            ) && comes_up(r.queues[queue], id, due))
            &&& ids.len() < max && due <= now && s.queues[queue].last_drained_sec <= now
                ==> is_handed_out(polled, id)
        }),
{
    let q = s.queues[queue];
    let a = q.advance(now);
    lemma_advance_comes_up(q, now, id, due);
    lemma_claim_frame(a, max);
    let (after, taken) = a.claim(max);
    let (c, ids) = s.claim(queue, now, max);
    assert(ids == taken && c.queues[queue] == after);
    if a.ready.contains(id) {
        lemma_claim_splits(a, max, id);
        if taken.len() < max {
            law_short_claim_leaves_nothing_ready(a, max);
        }
    } else {
        let sec = choose|sec: u64| sec <= due && #[trigger] draining::filed_under(a, id, sec);
        assert(draining::filed_under(after, id, sec));
    }
    if ids.contains(id) {
        lemma_lease_hands_out(c, queue, ids, receipts, expire_at, id);
    } else {
        laws::lemma_lease_frame(c, queue, ids, receipts, expire_at);
        delivery::lemma_lease_queues(c, queue, ids, receipts, expire_at);
        let r = c.lease(queue, ids, receipts, expire_at).0;
        assert(r.messages.dom().contains(id));
    }
}

proof fn lemma_step_splits(
    e: EngineView,
    queue: Seq<char>,
    step: PollStep,
    id: u128,
    due: u64,
)
    requires
        exclusive::all_exclusive(e),
        step matches PollStep::End { now } ==> leases_run(e, queue, now),
        step_spares(e, step, model::shard_of(queue), id),
        awaits(e, queue, id, due),
    ensures
        is_handed_out(step_once(e, queue, step).1, id) || awaits(
            step_once(e, queue, step).0,
            queue,
            id,
            due,
        ),
        takes_all(e, queue, step, due) ==> is_handed_out(step_once(e, queue, step).1, id),
{
    model::lemma_shard_of_bound(queue);
    let at = model::shard_of(queue);
    let s = e.shard(queue);
    assert(exclusive::exclusive(s));
    match step {
        PollStep::End { now } => {
            lemma_nothing_expires(e, queue, now);
        },
        PollStep::Scan { scan, read } => {
            let taken = lemma_scan_pages(e, scan, read);
            lemma_taken_spares(e, scan, read, taken, at, id);
            lemma_paging_keeps_awaiting(e, taken, scan.now, queue, id, due);
            assert(e.page_step(scan, read).0.shard(queue) == e.page_records(
                taken,
                scan.now,
            ).shard(queue));
        },
        PollStep::Take { now, max, receipts, expire_at } => {
            lemma_take_splits(s, queue, now, max, receipts, expire_at, id, due);
            let (claimed, ids) = e.claim(queue, now, max);
            assert(claimed.shard(queue) == s.claim(queue, now, max).0);
            let post = step_once(e, queue, step).0;
            assert(post.shard(queue) == claimed.shard(queue).lease(
                queue,
                ids,
                receipts,
                expire_at,
            ).0);
        },
    }
}

/// The step hands messages out at `due` or later, on a clock that did not go back, and gets
/// fewer than it asks for.
pub open spec fn takes_all(e: EngineView, queue: Seq<char>, step: PollStep, due: u64) -> bool {
    step matches PollStep::Take { now, max, .. } && {
        &&& due <= now
        &&& e.shard(queue).queue(queue, now).last_drained_sec <= now
        &&& e.claim(queue, now, max).1.len() < max
    }
}

proof fn lemma_handed_out_behind(listed: Seq<PolledView>, polled: Seq<PolledView>, id: u128)
    requires
        is_handed_out(polled, id),
    ensures
        is_handed_out(listed + polled, id),
{
    let k = choose|k: int|
        0 <= k < polled.len() && (#[trigger] polled[k]).message_id == ids::ulid_text(id);
    assert((listed + polled)[listed.len() + k] == polled[k]);
}

/// A message that comes up in its queue is handed out by polls within the lease time, or still
/// comes up after them, whatever they bring in from the log, if that does not acknowledge it.
pub proof fn law_polls_lose_no_message(
    e: EngineView,
    queue: Seq<char>,
    steps: Seq<PollStep>,
    id: u128,
    due: u64,
)
    requires
        exclusive::all_exclusive(e),
        within_leases(e, queue, steps),
        spares(e, queue, steps, model::shard_of(queue), id),
        awaits(e, queue, id, due),
    ensures
        is_handed_out(run(e, queue, steps).1, id) || awaits(run(e, queue, steps).0, queue, id, due),
    decreases steps.len(),
{
    if steps.len() > 0 {
        let head = steps.drop_last();
        law_polls_lose_no_message(e, queue, head, id, due);
        lemma_run_leases(e, queue, head);
        let (p, listed) = run(e, queue, head);
        let polled = step_once(p, queue, steps.last()).1;
        if is_handed_out(listed, id) {
            lemma_handed_out_before(listed, polled, id);
        } else {
            lemma_step_splits(p, queue, steps.last(), id, due);
            if is_handed_out(polled, id) {
                lemma_handed_out_behind(listed, polled, id);
            }
        }
    }
}

proof fn lemma_handed_out_before(listed: Seq<PolledView>, polled: Seq<PolledView>, id: u128)
    requires
        is_handed_out(listed, id),
    ensures
        is_handed_out(listed + polled, id),
{
    let k = choose|k: int|
        0 <= k < listed.len() && (#[trigger] listed[k]).message_id == ids::ulid_text(id);
    assert((listed + polled)[k] == listed[k]);
}

/// Polls of a queue within the lease time, of which the last gets fewer messages than it asks
/// for, hand out every message that comes up by then, each once, whatever they bring in from
/// the log, if that does not acknowledge the message.
pub proof fn law_polls_hand_out_every_message_once(
    e: EngineView,
    queue: Seq<char>,
    steps: Seq<PollStep>,
    id: u128,
    due: u64,
)
    requires
        exclusive::all_exclusive(e),
        within_leases(e, queue, steps),
        spares(e, queue, steps, model::shard_of(queue), id),
        awaits(e, queue, id, due),
        steps.len() > 0,
        takes_all(run(e, queue, steps.drop_last()).0, queue, steps.last(), due),
    ensures
        is_handed_out(run(e, queue, steps).1, id),
        forall|i: int, j: int|
            0 <= i < j < run(e, queue, steps).1.len() ==> (
            #[trigger] run(e, queue, steps).1[i]).message_id != (
            #[trigger] run(e, queue, steps).1[j]).message_id,
{
    lemma_run_leases(e, queue, steps);
    let head = steps.drop_last();
    lemma_run_leases(e, queue, head);
    law_polls_lose_no_message(e, queue, head, id, due);
    let (p, listed) = run(e, queue, head);
    let polled = step_once(p, queue, steps.last()).1;
    if is_handed_out(listed, id) {
        lemma_handed_out_before(listed, polled, id);
    } else {
        lemma_step_splits(p, queue, steps.last(), id, due);
        lemma_handed_out_behind(listed, polled, id);
    }
}

/// The message is known to be acknowledged, and not in memory.
pub open spec fn stays_away(e: EngineView, at: int, id: u128) -> bool {
    e.shards[at].acked.contains(id) && !e.shards[at].messages.contains_key(id)
}

proof fn lemma_paging_keeps_away(
    e: EngineView,
    records: Seq<RecordView>,
    now: u64,
    at: int,
    id: u128,
)
    requires
        e.shards.len() == NUM_SHARDS,
        0 <= at < NUM_SHARDS,
        stays_away(e, at, id),
    ensures
        e.page_records(records, now).shards.len() == NUM_SHARDS,
        stays_away(e.page_records(records, now), at, id),
    decreases records.len(),
{
    if records.len() > 0 {
        lemma_paging_keeps_away(e, records.drop_last(), now, at, id);
        model::lemma_shard_of_bound(model::queue_of(records.last()));
    }
}

/// Polls within the lease time do not hand out a message that is known to be acknowledged and
/// not in memory, whatever they bring in from the log.
pub proof fn law_polls_leave_acked_messages_away(
    e: EngineView,
    queue: Seq<char>,
    steps: Seq<PollStep>,
    id: u128,
)
    requires
        exclusive::all_exclusive(e),
        within_leases(e, queue, steps),
        stays_away(e, model::shard_of(queue), id),
    ensures
        stays_away(run(e, queue, steps).0, model::shard_of(queue), id),
        !is_handed_out(run(e, queue, steps).1, id),
    decreases steps.len(),
{
    if steps.len() > 0 {
        model::lemma_shard_of_bound(queue);
        let at = model::shard_of(queue);
        let head = steps.drop_last();
        let last = steps.last();
        law_polls_leave_acked_messages_away(e, queue, head, id);
        lemma_run_leases(e, queue, head);
        let (p, listed) = run(e, queue, head);
        lemma_step_leases(p, queue, last);
        let (post, polled) = step_once(p, queue, last);
        match last {
            PollStep::End { now } => {
                lemma_nothing_expires(p, queue, now);
            },
            PollStep::Scan { scan, read } => {
                let taken = lemma_scan_pages(p, scan, read);
                lemma_paging_keeps_away(p, taken, scan.now, at, id);
            },
            PollStep::Take { now, max, receipts, expire_at } => {
                let (claimed, ids) = p.claim(queue, now, max);
                laws::lemma_lease_frame(claimed.shard(queue), queue, ids, receipts, expire_at);
                if post.shard(queue).messages.contains_key(id) {
                    assert(post.shard(queue).messages.dom().contains(id));
                    assert(claimed.shard(queue).messages.dom().contains(id));
                }
            },
        }
        let all = listed + polled;
        if is_handed_out(all, id) {
            let k = choose|k: int|
                0 <= k < all.len() && (#[trigger] all[k]).message_id == ids::ulid_text(id);
            if k < listed.len() {
                assert(listed[k].message_id == ids::ulid_text(id));
            } else {
                let m = polled[k - listed.len()];
                assert(all[k] == m);
                let x = choose|x: u128|
                    m.message_id == #[trigger] ids::ulid_text(x) && !p.shard(
                        queue,
                    ).wheel.index.contains_key(x) && post.shard(queue).wheel.index.contains_key(x)
                        && p.shard(queue).messages.contains_key(x);
                ids::law_ulid_text_is_injective(x, id);
            }
        }
    }
}

proof fn lemma_claim_len(q: QueueView, max: nat)
    ensures
        q.claim(max).1.len() <= max,
    decreases max,
{
    if max > 0 {
        let (p, id) = q.pop();
        if id is Some {
            lemma_claim_len(p, (max - 1) as nat);
        }
    }
}

proof fn lemma_lease_len(
    s: ShardView,
    name: Seq<char>,
    ids: Seq<u128>,
    receipts: Seq<Seq<char>>,
    expire_at: u64,
)
    ensures
        s.lease(name, ids, receipts, expire_at).1.len() <= ids.len(),
    decreases ids.len(),
{
    if ids.len() > 0 {
        lemma_lease_len(s, name, ids.drop_last(), receipts, expire_at);
    }
}

/// A poll hands out at most as many messages as it asks for.
pub proof fn law_poll_hands_out_at_most_what_is_asked_for(
    e: EngineView,
    queue: Seq<char>,
    now: u64,
    max: nat,
    receipts: Seq<Seq<char>>,
    expire_at: u64,
)
    ensures
        step_once(e, queue, PollStep::Take { now, max, receipts, expire_at }).1.len() <= max,
{
    let s = e.shard(queue);
    let (claimed, ids) = e.claim(queue, now, max);
    if s.queues.contains_key(queue) {
        lemma_claim_len(s.queues[queue].advance(now), max);
    }
    lemma_lease_len(claimed.shard(queue), queue, ids, receipts, expire_at);
}

/// The message is in memory with this payload.
pub open spec fn has_payload(e: EngineView, queue: Seq<char>, id: u128, payload: Seq<u8>) -> bool {
    e.shard(queue).messages.contains_key(id) && e.shard(queue).messages[id].payload == payload
}

proof fn lemma_step_keeps_payload(
    e: EngineView,
    queue: Seq<char>,
    step: PollStep,
    id: u128,
    payload: Seq<u8>,
)
    requires
        exclusive::all_exclusive(e),
        step matches PollStep::End { now } ==> leases_run(e, queue, now),
        step_spares(e, step, model::shard_of(queue), id),
        has_payload(e, queue, id, payload),
    ensures
        has_payload(step_once(e, queue, step).0, queue, id, payload),
{
    model::lemma_shard_of_bound(queue);
    let at = model::shard_of(queue);
    match step {
        PollStep::End { now } => {
            lemma_nothing_expires(e, queue, now);
        },
        PollStep::Scan { scan, read } => {
            let taken = lemma_scan_pages(e, scan, read);
            lemma_taken_spares(e, scan, read, taken, at, id);
            histories::lemma_unacked_stays(e, taken, scan.now, at, id);
        },
        PollStep::Take { now, max, receipts, expire_at } => {
            let s = e.shard(queue);
            exclusive::lemma_claim_exclusive(s, queue, now, max);
            let (claimed, ids) = e.claim(queue, now, max);
            let c = claimed.shard(queue);
            assert(c == s.claim(queue, now, max).0);
            histories::lemma_lease_index(c, queue, ids, receipts, expire_at);
            assert(c.messages.contains_key(id));
        },
    }
}

/// While the first push of a message is in memory, polls within the lease time hand out its
/// payload, whatever was pushed under its id since and whatever they bring in from the log, if
/// that does not acknowledge the message.
pub proof fn law_polls_hand_out_the_first_push(
    e: EngineView,
    queue: Seq<char>,
    steps: Seq<PollStep>,
    id: u128,
    payload: Seq<u8>,
)
    requires
        exclusive::all_exclusive(e),
        within_leases(e, queue, steps),
        spares(e, queue, steps, model::shard_of(queue), id),
        has_payload(e, queue, id, payload),
    ensures
        has_payload(run(e, queue, steps).0, queue, id, payload),
        forall|k: int|
            0 <= k < run(e, queue, steps).1.len() && (
            #[trigger] run(e, queue, steps).1[k]).message_id == ids::ulid_text(id) ==> run(
                e,
                queue,
                steps,
            ).1[k].payload == payload,
    decreases steps.len(),
{
    if steps.len() > 0 {
        let head = steps.drop_last();
        let last = steps.last();
        law_polls_hand_out_the_first_push(e, queue, head, id, payload);
        lemma_run_leases(e, queue, head);
        let (p, listed) = run(e, queue, head);
        lemma_step_keeps_payload(p, queue, last, id, payload);
        lemma_step_leases(p, queue, last);
        let (post, polled) = step_once(p, queue, last);
        let all = run(e, queue, steps).1;
        assert(all == listed + polled);
        assert forall|k: int|
            0 <= k < all.len() && (#[trigger] all[k]).message_id == ids::ulid_text(
                id,
            ) implies all[k].payload == payload by {
            if k < listed.len() {
                assert(all[k] == listed[k]);
            } else {
                let m = polled[k - listed.len()];
                assert(all[k] == m);
                let x = choose|x: u128|
                    m.message_id == #[trigger] ids::ulid_text(x) && !p.shard(
                        queue,
                    ).wheel.index.contains_key(x) && post.shard(queue).wheel.index.contains_key(x)
                        && p.shard(queue).messages.contains_key(x) && m.payload == p.shard(
                        queue,
                    ).messages[x].payload;
                ids::law_ulid_text_is_injective(x, id);
            }
        }
    }
}

/// Every record that a step scans is one of the log.
pub open spec fn step_scans(e: EngineView, step: PollStep, log: Seq<RecordView>) -> bool {
    step matches PollStep::Scan { scan, read } ==> match disk_log::entries_from(
        e.disk.registry,
        e.spill_offset,
        scan.fetch_limit,
        read,
    ) {
        Some((records, _)) => forall|k: int|
            0 <= k < records.len() ==> log.contains(#[trigger] records[k]),
        None => true,
    }
}

/// Every record that the steps scan is one of the log.
pub open spec fn scans(
    e: EngineView,
    queue: Seq<char>,
    steps: Seq<PollStep>,
    log: Seq<RecordView>,
) -> bool
    decreases steps.len(),
{
    steps.len() > 0 ==> {
        &&& scans(e, queue, steps.drop_last(), log)
        &&& step_scans(run(e, queue, steps.drop_last()).0, steps.last(), log)
    }
}

/// The log holds a push of this payload under this id in the shard, and nothing in it
/// acknowledges the message.
pub open spec fn holds_open(log: Seq<RecordView>, at: int, id: u128, payload: Seq<u8>) -> bool {
    &&& !compaction::acked_in(log, at, id)
    &&& exists|k: int|
        0 <= k < log.len() && match #[trigger] log[k] {
            RecordView::Push { msg_id, queue_name, payload: pushed, .. } => msg_id == id
                && model::shard_of(queue_name) == at && pushed == payload,
            RecordView::Ack { .. } => false,
        }
}

/// The message is in memory with this payload, or the log holds it open.
pub open spec fn has_source(
    e: EngineView,
    log: Seq<RecordView>,
    at: int,
    id: u128,
    payload: Seq<u8>,
) -> bool {
    ||| e.shards[at].messages.contains_key(id) && e.shards[at].messages[id].payload == payload
    ||| holds_open(log, at, id, payload)
}

/// Every message of the shard that is in memory has a source.
spec fn all_have_source(e: EngineView, log: Seq<RecordView>, at: int, post: EngineView) -> bool {
    forall|id: u128| #[trigger]
        post.shards[at].messages.contains_key(id) ==> has_source(
            e,
            log,
            at,
            id,
            post.shards[at].messages[id].payload,
        )
}

proof fn lemma_step_sources(
    e: EngineView,
    log: Seq<RecordView>,
    queue: Seq<char>,
    p: EngineView,
    step: PollStep,
)
    requires
        exclusive::all_exclusive(p),
        step matches PollStep::End { now } ==> leases_run(p, queue, now),
        histories::acks_are_known(p, log),
        step_scans(p, step, log),
        all_have_source(e, log, model::shard_of(queue), p),
    ensures
        histories::acks_are_known(step_once(p, queue, step).0, log),
        all_have_source(e, log, model::shard_of(queue), step_once(p, queue, step).0),
{
    model::lemma_shard_of_bound(queue);
    let at = model::shard_of(queue);
    let s = p.shard(queue);
    let post = step_once(p, queue, step).0;
    match step {
        PollStep::End { now } => {
            lemma_nothing_expires(p, queue, now);
        },
        PollStep::Scan { scan, read } => {
            let taken = lemma_scan_pages(p, scan, read);
            assert forall|k: int| 0 <= k < taken.len() implies log.contains(#[trigger] taken[k]) by {
                let records = disk_log::entries_from(
                    p.disk.registry,
                    p.spill_offset,
                    scan.fetch_limit,
                    read,
                ).unwrap().0;
                assert(taken[k] == records.subrange(0, taken.len() as int)[k]);
                assert(log.contains(records[k]));
            }
            histories::law_paging_brings_in_open_messages_only(p, log, taken, scan.now);
            let paged = p.page_records(taken, scan.now);
            assert forall|id: u128| #[trigger] post.shards[at].messages.contains_key(
                id,
            ) implies has_source(e, log, at, id, post.shards[at].messages[id].payload) by {
                assert(paged.shards[at].messages.contains_key(id));
                let msg = paged.shards[at].messages[id];
                if s.messages.contains_key(id) {
                    histories::lemma_paging_keeps_messages(p, taken, scan.now, at, id);
                } else {
                    assert(histories::is_open_message(p, log, at, msg, scan.now));
                    assert(model::shard_holds(paged.shards[at], at));
                    assert(msg.id == id);
                    let k = choose|k: int|
                        0 <= k < log.len() && match #[trigger] log[k] {
                            RecordView::Push { msg_id, queue_name, visible_at, payload } =>
                                model::shard_of(queue_name) == at && visible_at <= scan.now
                                    + HOT_DELAY_HORIZON_SEC && msg == p.fresh_msg(
                                    msg_id,
                                    queue_name,
                                    payload,
                                    visible_at,
                                ),
                            RecordView::Ack { .. } => false,
                        };
                    assert(log[k] is Push);
                    assert(holds_open(log, at, id, msg.payload));
                }
            }
        },
        PollStep::Take { now, max, receipts, expire_at } => {
            exclusive::lemma_claim_exclusive(s, queue, now, max);
            let (claimed, ids) = p.claim(queue, now, max);
            let c = claimed.shard(queue);
            assert(c == s.claim(queue, now, max).0);
            histories::lemma_lease_index(c, queue, ids, receipts, expire_at);
            laws::lemma_lease_frame(c, queue, ids, receipts, expire_at);
            let r = c.lease(queue, ids, receipts, expire_at).0;
            assert(post.shard(queue) == r);
            assert forall|id: u128| #[trigger] post.shards[at].messages.contains_key(
                id,
            ) implies has_source(e, log, at, id, post.shards[at].messages[id].payload) by {
                assert(c.messages.contains_key(id));
                assert(r.messages[id].payload == c.messages[id].payload);
                assert(p.shards[at].messages.contains_key(id));
            }
        },
    }
}

proof fn lemma_run_sources(
    e: EngineView,
    queue: Seq<char>,
    steps: Seq<PollStep>,
    log: Seq<RecordView>,
)
    requires
        exclusive::all_exclusive(e),
        within_leases(e, queue, steps),
        histories::acks_are_known(e, log),
        scans(e, queue, steps, log),
    ensures
        histories::acks_are_known(run(e, queue, steps).0, log),
        all_have_source(e, log, model::shard_of(queue), run(e, queue, steps).0),
    decreases steps.len(),
{
    if steps.len() > 0 {
        let head = steps.drop_last();
        lemma_run_sources(e, queue, head, log);
        lemma_run_leases(e, queue, head);
        lemma_step_sources(e, log, queue, run(e, queue, head).0, steps.last());
    }
}

/// Polls of a queue within the lease time hand out only messages that were in memory before,
/// or that the log holds and does not acknowledge, each with its payload.
pub proof fn law_polls_hand_out_open_messages_only(
    e: EngineView,
    queue: Seq<char>,
    steps: Seq<PollStep>,
    log: Seq<RecordView>,
    k: int,
)
    requires
        exclusive::all_exclusive(e),
        within_leases(e, queue, steps),
        histories::acks_are_known(e, log),
        scans(e, queue, steps, log),
        0 <= k < run(e, queue, steps).1.len(),
    ensures
        exists|id: u128|
            run(e, queue, steps).1[k].message_id == #[trigger] ids::ulid_text(id) && has_source(
                e,
                log,
                model::shard_of(queue),
                id,
                run(e, queue, steps).1[k].payload,
            ),
    decreases steps.len(),
{
    let head = steps.drop_last();
    let last = steps.last();
    lemma_run_leases(e, queue, head);
    lemma_run_sources(e, queue, head, log);
    let (p, listed) = run(e, queue, head);
    let polled = step_once(p, queue, last).1;
    let all = run(e, queue, steps).1;
    assert(all == listed + polled);
    if k < listed.len() {
        assert(all[k] == listed[k]);
        law_polls_hand_out_open_messages_only(e, queue, head, log, k);
    } else {
        lemma_step_leases(p, queue, last);
        let m = polled[k - listed.len()];
        assert(all[k] == m);
        let post = step_once(p, queue, last).0;
        let id = choose|x: u128|
            m.message_id == #[trigger] ids::ulid_text(x) && !p.shard(
                queue,
            ).wheel.index.contains_key(x) && post.shard(queue).wheel.index.contains_key(x)
                && p.shard(queue).messages.contains_key(x) && m.payload == p.shard(
                queue,
            ).messages[x].payload;
        assert(p.shards[model::shard_of(queue)].messages.contains_key(id));
        assert(all[k].message_id == ids::ulid_text(id));
    }
}

}
