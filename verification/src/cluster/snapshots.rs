//! What a node has after a snapshot was installed on it.
use vstd::prelude::*;

use crate::cluster::laws;
use crate::cluster::raft;
use crate::cluster::raft_model;
use crate::cluster::raft_model::{EnginePush, EntryView, RaftRole, RaftView};
use crate::engine::arrivals;
use crate::engine::exclusive;
use crate::engine::model;
use crate::engine::model::{EngineView, NUM_SHARDS};
use crate::engine::sequences;
use crate::engine::sequences::PollStep;
use crate::engine::single_queue::HOT_DELAY_HORIZON_SEC;
use crate::engine::timing;
use crate::ids;
use crate::protocol::SnapshotItem;

verus! {

/// When a listed message comes up: at its time, or at once if that has passed.
pub open spec fn listed_time(item: SnapshotItem, now: u64) -> u64 {
    if item.visible_at > now {
        item.visible_at
    } else {
        now
    }
}

/// No item before this one has its id in a queue of the same shard.
pub open spec fn is_listed_first(items: Seq<SnapshotItem>, i: int) -> bool {
    forall|h: int|
        0 <= h < i ==> ids::id_value((#[trigger] items[h]).id@) != ids::id_value(items[i].id@)
            || model::shard_of(items[h].queue@) != model::shard_of(items[i].queue@)
}

/// The push is of the listed message.
pub open spec fn comes_from(p: EnginePush, item: SnapshotItem) -> bool {
    Some(p.id) == ids::id_value(item.id@) && p.queue == item.queue@
}

/// The push is of one of the first `n` listed messages.
pub open spec fn comes_from_first(p: EnginePush, items: Seq<SnapshotItem>, n: int) -> bool {
    exists|h: int| 0 <= h < n && comes_from(p, #[trigger] items[h])
}

/// A listed message whose id is one is among the pushes of the snapshot, behind pushes of earlier
/// items only.
proof fn lemma_listed_is_pushed(items: Seq<SnapshotItem>, now: u64, i: int) -> (j: int)
    requires
        0 <= i < items.len(),
        ids::id_value(items[i].id@) is Some,
    ensures
        ({
            let pushes = raft::snapshot_pushes(items, now);
            &&& 0 <= j < pushes.len() <= items.len()
            &&& pushes[j].queue == items[i].queue@
            &&& Some(pushes[j].id) == ids::id_value(items[i].id@)
            &&& pushes[j].payload == items[i].payload@
            &&& now + pushes[j].delay == listed_time(items[i], now)
            &&& forall|k: int| 0 <= k < j ==> comes_from_first(#[trigger] pushes[k], items, i)
        }),
    decreases items.len(),
{
    let head = items.drop_last();
    let rest = raft::snapshot_pushes(head, now);
    let pushes = raft::snapshot_pushes(items, now);
    lemma_pushes_listed(head, now);
    if i < head.len() {
        assert(head[i] == items[i]);
        let j = lemma_listed_is_pushed(head, now, i);
        assert(pushes[j] == rest[j]);
        assert forall|k: int| 0 <= k < j implies comes_from_first(
            #[trigger] pushes[k],
            items,
            i,
        ) by {
            assert(pushes[k] == rest[k]);
            let h = choose|h: int| 0 <= h < i && comes_from(rest[k], #[trigger] head[h]);
            assert(items[h] == head[h]);
        }
        j
    } else {
        let j = rest.len() as int;
        assert forall|k: int| 0 <= k < j implies comes_from_first(
            #[trigger] pushes[k],
            items,
            i,
        ) by {
            assert(pushes[k] == rest[k]);
            let h = choose|h: int|
                0 <= h < head.len() && comes_from(rest[k], #[trigger] head[h]);
            assert(items[h] == head[h]);
        }
        j
    }
}

proof fn lemma_pushes_listed(items: Seq<SnapshotItem>, now: u64)
    ensures
        raft::snapshot_pushes(items, now).len() <= items.len(),
        forall|k: int|
            0 <= k < raft::snapshot_pushes(items, now).len() ==> comes_from_first(
                #[trigger] raft::snapshot_pushes(items, now)[k],
                items,
                items.len() as int,
            ),
    decreases items.len(),
{
    if items.len() > 0 {
        let head = items.drop_last();
        let rest = raft::snapshot_pushes(head, now);
        let pushes = raft::snapshot_pushes(items, now);
        lemma_pushes_listed(head, now);
        assert forall|k: int| 0 <= k < pushes.len() implies comes_from_first(
            #[trigger] pushes[k],
            items,
            items.len() as int,
        ) by {
            if k < rest.len() {
                assert(pushes[k] == rest[k]);
                let h = choose|h: int|
                    0 <= h < head.len() && comes_from(rest[k], #[trigger] head[h]);
                assert(items[h] == head[h]);
            } else {
                assert(comes_from(pushes[k], items[items.len() - 1]));
            }
        }
    }
}

proof fn lemma_push_withholds(
    mid: EngineView,
    p: EnginePush,
    now: u64,
    post: EngineView,
    queue: Seq<char>,
    id: u128,
    ready_at: int,
)
    requires
        raft_model::push_leads_to(mid, p, now, post),
        timing::withheld(mid, queue, id, ready_at, u64::MAX + 1),
        p.queue == queue && p.id == id ==> mid.shard(queue).seen.contains(id) || (p.delay > 0 && now
            + p.delay <= u64::MAX && now + p.delay >= ready_at),
    ensures
        timing::withheld(post, queue, id, ready_at, u64::MAX + 1),
{
    reveal(raft_model::push_leads_to);
    let visible_at = (now + p.delay) as u64;
    let logged = mid.with_disk(
        mid.disk.append_push(p.id, p.queue, visible_at, p.payload).flush(),
    );
    assert(timing::withheld(logged, queue, id, ready_at, u64::MAX + 1)) by {
        assert forall|at: int| 0 <= at < NUM_SHARDS implies model::shard_holds(
            #[trigger] logged.shards[at],
            at,
        ) by {
            assert(model::shard_holds(mid.shards[at], at));
        }
    }
    if !mid.shard(p.queue).seen.contains(p.id) {
        arrivals::lemma_accept_withholds(
            logged,
            p.queue,
            p.id,
            p.payload,
            visible_at,
            now,
            queue,
            id,
            ready_at,
        );
    }
}

#[verifier::rlimit(60)]
proof fn lemma_pushes_withhold(
    pre: EngineView,
    pushes: Seq<EnginePush>,
    now: u64,
    post: EngineView,
    j: int,
)
    requires
        exclusive::all_exclusive(pre),
        pre.is_clear(),
        pre.total_in_ram == 0,
        pushes.len() <= pre.options.max_hot_messages_in_ram,
        raft_model::pushes_all_to(pre, pushes, now, post),
        0 <= j < pushes.len(),
        laws::is_first_of_its_id(pushes, j),
        0 < pushes[j].delay <= HOT_DELAY_HORIZON_SEC,
        now + pushes[j].delay <= u64::MAX,
    ensures
        timing::withheld(
            post,
            pushes[j].queue,
            pushes[j].id,
            now + pushes[j].delay,
            u64::MAX + 1,
        ),
    decreases pushes.len(),
{
    let head = pushes.drop_last();
    let n = pushes.len() - 1;
    let p = pushes[n];
    let x = pushes[j];
    let ready_at = now + x.delay;
    let mid = choose|mid: EngineView|
        raft_model::pushes_all_to(pre, head, now, mid) && #[trigger] raft_model::push_leads_to(
            mid,
            pushes.last(),
            now,
            post,
        );
    laws::lemma_pushes_arrive(pre, head, now, mid);
    model::lemma_shard_of_bound(x.queue);
    if j < n {
        assert(head[j] == x);
        assert(laws::is_first_of_its_id(head, j)) by {
            assert forall|i: int| 0 <= i < j implies (#[trigger] head[i]).id != head[j].id
                || model::shard_of(head[i].queue) != model::shard_of(head[j].queue) by {
                assert(head[i] == pushes[i]);
            }
        }
        lemma_pushes_withhold(pre, head, now, mid, j);
        assert(arrivals::has_arrived(mid, x.queue, x.id, x.payload, ready_at as u64));
        assert(model::shard_holds(
            mid.shards[model::shard_of(x.queue)],
            model::shard_of(x.queue),
        ));
        assert(mid.shard(x.queue).seen.contains(x.id));
    } else {
        assert(!mid.shard(x.queue).seen.contains(x.id)) by {
            let at = model::shard_of(x.queue);
            if mid.shards[at].seen.contains(x.id) {
                let i = choose|i: int|
                    0 <= i < head.len() && (#[trigger] head[i]).id == x.id && model::shard_of(
                        head[i].queue,
                    ) == at;
                assert(pushes[i] == head[i]);
            }
        }
        arrivals::lemma_unseen_is_withheld(mid, x.queue, x.id, ready_at);
    }
    lemma_push_withholds(mid, p, now, post, x.queue, x.id, ready_at);
}

/// After a snapshot was installed, every message that it lists, the first of its id, whose id is
/// one and which is due within the horizon, is in memory with its queue, payload and time, if
/// there is room for all that is listed. It does not come up before its time, and polls hand it
/// out once, once its time has come.
#[verifier::rlimit(60)]
pub proof fn law_installed_snapshot_brings_its_messages(
    pre: RaftView,
    term: u64,
    leader_id: Seq<char>,
    last_index: u64,
    last_term: u64,
    items: Seq<SnapshotItem>,
    now: u64,
    post: RaftView,
    i: int,
    id: u128,
    steps: Seq<PollStep>,
)
    requires
        raft::snapshot_installed(
            pre,
            term,
            leader_id,
            last_index,
            last_term,
            items,
            now,
            post,
        ),
        pre.engine.inv(),
        items.len() <= pre.engine.options.max_hot_messages_in_ram,
        0 <= i < items.len(),
        ids::id_value(items[i].id@) == Some(id),
        is_listed_first(items, i),
        items[i].visible_at <= now + HOT_DELAY_HORIZON_SEC,
    ensures
        arrivals::has_arrived(
            post.engine,
            items[i].queue@,
            id,
            items[i].payload@,
            listed_time(items[i], now),
        ),
        items[i].visible_at > now ==> timing::withheld(
            post.engine,
            items[i].queue@,
            id,
            items[i].visible_at as int,
            u64::MAX + 1,
        ),
        ({
            let queue = items[i].queue@;
            let polled = sequences::run(post.engine, queue, steps).1;
            &&& steps.len() > 0
            &&& sequences::within_leases(post.engine, queue, steps)
            &&& sequences::spares(post.engine, queue, steps, model::shard_of(queue), id)
            &&& sequences::takes_all(
                sequences::run(post.engine, queue, steps.drop_last()).0,
                queue,
                steps.last(),
                listed_time(items[i], now),
            )
        }) ==> {
            let polled = sequences::run(post.engine, items[i].queue@, steps).1;
            &&& sequences::is_handed_out(polled, id)
            &&& forall|a: int, b: int|
                0 <= a < b < polled.len() ==> (#[trigger] polled[a]).message_id != (
                #[trigger] polled[b]).message_id
        },
{
    let engine = choose|engine: EngineView| #[trigger]
        raft_model::pushes_all_to(
            pre.engine.cleared(),
            raft::snapshot_pushes(items, now),
            now,
            engine,
        ) && post == (RaftView {
            snapshot_index: last_index,
            snapshot_term: last_term,
            commit_index: last_index,
            engine,
            log: raft_model::entries_after(pre.log, last_index),
            ..pre.following(term, leader_id)
        });
    let base = pre.engine.cleared();
    assert(base.is_clear());
    exclusive::law_blank_engine_is_exclusive(base);
    let pushes = raft::snapshot_pushes(items, now);
    let j = lemma_listed_is_pushed(items, now, i);
    assert(laws::is_first_of_its_id(pushes, j)) by {
        assert forall|k: int| 0 <= k < j implies (#[trigger] pushes[k]).id != pushes[j].id
            || model::shard_of(pushes[k].queue) != model::shard_of(pushes[j].queue) by {
            let h = choose|h: int| 0 <= h < i && comes_from(pushes[k], #[trigger] items[h]);
            assert(comes_from(pushes[k], items[h]));
        }
    }
    laws::lemma_pushes_arrive(base, pushes, now, engine);
    assert(now + pushes[j].delay <= now + HOT_DELAY_HORIZON_SEC);
    if items[i].visible_at > now {
        lemma_pushes_withhold(base, pushes, now, engine, j);
    }
    let queue = items[i].queue@;
    if steps.len() > 0 && sequences::within_leases(engine, queue, steps) && sequences::spares(
        engine,
        queue,
        steps,
        model::shard_of(queue),
        id,
    ) && sequences::takes_all(
        sequences::run(engine, queue, steps.drop_last()).0,
        queue,
        steps.last(),
        listed_time(items[i], now),
    ) {
        laws::law_pushed_messages_are_handed_out_once(base, pushes, now, engine, j, steps);
    }
}

/// After a snapshot was installed, the node follows the leader that sent it, in a term that is no
/// earlier than the leader's, and its log holds exactly the entries beyond the snapshot.
pub proof fn law_installed_snapshot_sets_the_log(
    pre: RaftView,
    term: u64,
    leader_id: Seq<char>,
    last_index: u64,
    last_term: u64,
    items: Seq<SnapshotItem>,
    now: u64,
    post: RaftView,
    entry: EntryView,
)
    requires
        raft::snapshot_installed(
            pre,
            term,
            leader_id,
            last_index,
            last_term,
            items,
            now,
            post,
        ),
    ensures
        post.log.contains(entry) <==> pre.log.contains(entry) && entry.index > last_index,
        post.log.len() <= pre.log.len(),
        post.snapshot_index == last_index,
        post.snapshot_term == last_term,
        post.commit_index == last_index,
        post.current_leader == Some(leader_id),
        post.current_term >= term,
        post.current_term >= pre.current_term,
        post.current_term == term || post.current_term == pre.current_term,
        term > pre.current_term ==> post.role == RaftRole::Follower && !post.is_leader_cached,
        post.node_id == pre.node_id,
        post.peers == pre.peers,
{
    lemma_entries_after(pre.log, last_index, entry);
}

proof fn lemma_entries_after(log: Seq<EntryView>, index: u64, entry: EntryView)
    ensures
        raft_model::entries_after(log, index).contains(entry) <==> log.contains(entry)
            && entry.index > index,
        raft_model::entries_after(log, index).len() <= log.len(),
    decreases log.len(),
{
    if log.len() > 0 {
        let head = log.drop_last();
        let last = log.last();
        lemma_entries_after(head, index, entry);
        let rest = raft_model::entries_after(head, index);
        assert(log[log.len() - 1] == last);
        assert(log.contains(entry) == (head.contains(entry) || entry == last)) by {
            if head.contains(entry) {
                let i = choose|i: int| 0 <= i < head.len() && head[i] == entry;
                assert(log[i] == entry);
            }
            if log.contains(entry) {
                let i = choose|i: int| 0 <= i < log.len() && log[i] == entry;
                if i < head.len() {
                    assert(head[i] == entry);
                }
            }
        }
        let all = raft_model::entries_after(log, index);
        if last.index > index {
            assert(all[rest.len() as int] == last);
            if rest.contains(entry) {
                let i = choose|i: int| 0 <= i < rest.len() && rest[i] == entry;
                assert(all[i] == entry);
            }
            if all.contains(entry) {
                let i = choose|i: int| 0 <= i < all.len() && all[i] == entry;
                if i < rest.len() {
                    assert(rest[i] == entry);
                }
            }
        }
    }
}

/// After a snapshot was installed, every message in memory is one that it lists, with its queue.
/// What the node had before is not there any more unless it is listed.
pub proof fn law_installed_snapshot_leaves_listed_messages_only(
    pre: RaftView,
    term: u64,
    leader_id: Seq<char>,
    last_index: u64,
    last_term: u64,
    items: Seq<SnapshotItem>,
    now: u64,
    post: RaftView,
    at: int,
    id: u128,
) -> (i: int)
    requires
        raft::snapshot_installed(
            pre,
            term,
            leader_id,
            last_index,
            last_term,
            items,
            now,
            post,
        ),
        pre.engine.inv(),
        items.len() <= pre.engine.options.max_hot_messages_in_ram,
        0 <= at < NUM_SHARDS,
        post.engine.shards[at].messages.contains_key(id),
    ensures
        0 <= i < items.len(),
        ids::id_value(items[i].id@) == Some(id),
        model::shard_of(items[i].queue@) == at,
{
    let engine = choose|engine: EngineView| #[trigger]
        raft_model::pushes_all_to(
            pre.engine.cleared(),
            raft::snapshot_pushes(items, now),
            now,
            engine,
        ) && post == (RaftView {
            snapshot_index: last_index,
            snapshot_term: last_term,
            commit_index: last_index,
            engine,
            log: raft_model::entries_after(pre.log, last_index),
            ..pre.following(term, leader_id)
        });
    let base = pre.engine.cleared();
    assert(base.is_clear());
    exclusive::law_blank_engine_is_exclusive(base);
    let pushes = raft::snapshot_pushes(items, now);
    lemma_pushes_listed(items, now);
    laws::lemma_pushes_arrive(base, pushes, now, engine);
    assert(model::shard_holds(engine.shards[at], at));
    let k = choose|k: int|
        0 <= k < pushes.len() && (#[trigger] pushes[k]).id == id && model::shard_of(
            pushes[k].queue,
        ) == at;
    assert(comes_from_first(pushes[k], items, items.len() as int));
    choose|h: int| 0 <= h < items.len() && comes_from(pushes[k], #[trigger] items[h])
}

}
