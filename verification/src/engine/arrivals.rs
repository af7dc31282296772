//! What a batch of pushes brings into memory, and when it comes up.
use vstd::prelude::*;

use crate::engine::exclusive;
use crate::engine::model;
use crate::engine::model::{EngineView, PushView, NUM_SHARDS};
use crate::engine::queue;
use crate::engine::queue::{PushItem, QueueError};
use crate::engine::registry;
use crate::engine::sequences;
use crate::engine::shard::MsgView;
use crate::engine::single_queue::{QueueView, HOT_DELAY_HORIZON_SEC};
use crate::engine::timer_wheel;
use crate::engine::timer_wheel::ItemView;
use crate::engine::timing;
use crate::ids;

verus! {

/// The message is in memory as it was pushed, not delivered yet, to be delivered as often as the
/// engine was opened with, and comes up in its queue at `visible_at`.
pub open spec fn has_arrived(
    e: EngineView,
    queue: Seq<char>,
    id: u128,
    payload: Seq<u8>,
    visible_at: u64,
) -> bool {
    &&& e.shard(queue).messages.contains_key(id)
    &&& e.shard(queue).messages[id] == (MsgView {
        id,
        queue,
        payload,
        visible_at,
        delivery_count: 0,
        max_delivery: e.options.max_delivery_count,
    })
    &&& sequences::awaits(e, queue, id, visible_at)
}

/// The batch with the queue's shard as it must be for what follows.
proof fn lemma_batch_frame(
    e: EngineView,
    queue: Seq<char>,
    ids: Seq<u128>,
    items: Seq<PushView>,
    now: u64,
)
    requires
        exclusive::all_exclusive(e),
    ensures
        ({
            let b = e.batch(queue, ids, items, now);
            &&& exclusive::all_exclusive(b)
            &&& b.options == e.options
            &&& forall|x: u128| #[trigger]
                b.shard(queue).seen.contains(x) ==> e.shard(queue).seen.contains(x)
                    || ids.contains(x)
            &&& forall|x: u128|
                e.shard(queue).seen.contains(x) || ids.contains(x) ==> #[trigger] b.shard(
                    queue,
                ).seen.contains(x)
        }),
    decreases ids.len(),
{
    model::lemma_shard_of_bound(queue);
    let b = e.batch(queue, ids, items, now);
    let post = b.with_disk(b.disk.flush());
    exclusive::law_batch_push_keeps_exclusive(e, queue, ids, items, now, post);
    assert(exclusive::all_exclusive(b)) by {
        assert forall|at: int| 0 <= at < NUM_SHARDS implies exclusive::exclusive(
            #[trigger] b.shards[at],
        ) && model::shard_holds(b.shards[at], at) by {
            assert(post.shards[at] == b.shards[at]);
            assert(model::shard_holds(post.shards[at], at));
            assert(exclusive::exclusive(post.shards[at]));
        }
    }
    if ids.len() > 0 {
        let head = ids.drop_last();
        let n = ids.len() - 1;
        lemma_batch_frame(e, queue, head, items, now);
        assert forall|x: u128| ids.contains(x) == (head.contains(x) || x == ids[n]) by {
            if head.contains(x) {
                let i = choose|i: int| 0 <= i < head.len() && head[i] == x;
                assert(ids[i] == x);
            }
            if ids.contains(x) {
                let i = choose|i: int| 0 <= i < ids.len() && ids[i] == x;
                if i < n {
                    assert(head[i] == x);
                }
            }
        }
    }
}

pub proof fn lemma_accept_withholds(
    e: EngineView,
    name: Seq<char>,
    other: u128,
    payload: Seq<u8>,
    visible_at: u64,
    now: u64,
    queue: Seq<char>,
    id: u128,
    ready_at: int,
)
    requires
        timing::withheld(e, queue, id, ready_at, u64::MAX + 1),
        name != queue || other != id || (visible_at > now && visible_at >= ready_at),
    ensures
        timing::withheld(
            e.accept(name, other, payload, visible_at, now),
            queue,
            id,
            ready_at,
            u64::MAX + 1,
        ),
{
    model::lemma_shard_of_bound(queue);
    model::lemma_shard_of_bound(name);
    model::lemma_accept_inv(e, name, other, payload, visible_at, now);
    if name == queue {
        let q = e.shard(queue).queue(queue, now);
        assert(timing::held_back(QueueView::empty(now), id, ready_at));
        timing::lemma_insert_holds_back(q, other, visible_at, now, id, ready_at);
    }
}

/// An id that the shard has not seen waits nowhere and is not leased.
pub proof fn lemma_unseen_is_withheld(e: EngineView, queue: Seq<char>, id: u128, ready_at: int)
    requires
        exclusive::all_exclusive(e),
        !e.shard(queue).seen.contains(id),
    ensures
        timing::withheld(e, queue, id, ready_at, u64::MAX + 1),
{
    model::lemma_shard_of_bound(queue);
    let s = e.shard(queue);
    assert(exclusive::exclusive(e.shards[model::shard_of(queue)]));
    assert forall|item: ItemView| #[trigger] timer_wheel::in_wheel(s.wheel, item) && item.id
        == id implies item.expire_at >= u64::MAX + 1 by {
        let slot = s.wheel.slot_of(item.expire_at as int);
        let i = choose|i: int| 0 <= i < s.wheel.slots[slot].len() && s.wheel.slots[slot][i] == item;
        assert(s.wheel.index.contains_key(s.wheel.slots[slot][i].id));
        assert(exclusive::known(s, id));
    }
    if s.queues.contains_key(queue) {
        let q = s.queues[queue];
        assert(!exclusive::queued(q, id)) by {
            if exclusive::queued(q, id) {
                assert(exclusive::waits(s, queue, id));
            }
        }
        assert(exclusive::once(q));
        assert forall|sec: u64| #[trigger] q.hot.contains_key(sec) && q.hot[sec].contains(
            id,
        ) implies sec >= ready_at by {
            assert(exclusive::in_hot(q.hot, id));
        }
        assert forall|i: int| 0 <= i < q.far.len() && (#[trigger] q.far[i]).id
            == id implies q.far[i].visible_at >= ready_at by {
            assert(exclusive::in_far(q.far, id));
        }
    }
}

proof fn lemma_batch_withholds(
    e: EngineView,
    queue: Seq<char>,
    ids: Seq<u128>,
    items: Seq<PushView>,
    now: u64,
    k: int,
)
    requires
        exclusive::all_exclusive(e),
        0 <= k < ids.len(),
        !e.shard(queue).seen.contains(ids[k]),
        !ids.take(k).contains(ids[k]),
        0 < items[k].delay_seconds,
        now + items[k].delay_seconds <= u64::MAX,
    ensures
        timing::withheld(
            e.batch(queue, ids, items, now),
            queue,
            ids[k],
            now + items[k].delay_seconds,
            u64::MAX + 1,
        ),
    decreases ids.len(),
{
    model::lemma_shard_of_bound(queue);
    let head = ids.drop_last();
    let n = ids.len() - 1;
    let id = ids[k];
    let ready_at = now + items[k].delay_seconds;
    let b = e.batch(queue, head, items, now);
    lemma_batch_frame(e, queue, head, items, now);
    let visible_at = (now + items[n].delay_seconds) as u64;
    let logged = b.with_disk(b.disk.append_push(ids[n], queue, visible_at, items[n].payload));
    if k < n {
        assert(head[k] == id);
        assert(head.take(k) =~= ids.take(k));
        lemma_batch_withholds(e, queue, head, items, now, k);
        assert(head.contains(id));
        assert(b.shard(queue).seen.contains(id));
    } else {
        assert(head =~= ids.take(k));
        lemma_unseen_is_withheld(b, queue, id, ready_at);
    }
    assert(timing::withheld(b, queue, id, ready_at, u64::MAX + 1));
    if !b.shard(queue).seen.contains(ids[n]) {
        assert(timing::withheld(logged, queue, id, ready_at, u64::MAX + 1)) by {
            assert(logged.inv()) by {
                assert forall|at: int| 0 <= at < NUM_SHARDS implies model::shard_holds(
                    #[trigger] logged.shards[at],
                    at,
                ) by {
                    assert(model::shard_holds(b.shards[at], at));
                }
            }
        }
        lemma_accept_withholds(
            logged,
            queue,
            ids[n],
            items[n].payload,
            visible_at,
            now,
            queue,
            id,
            ready_at,
        );
    }
}

/// A message that is pushed with a delay, under an id that was not seen before, does not come up
/// before its delay is over.
pub proof fn law_delayed_message_is_withheld(
    e: EngineView,
    queue: Seq<char>,
    ids: Seq<u128>,
    items: Seq<PushView>,
    now: u64,
    post: EngineView,
    k: int,
)
    requires
        exclusive::all_exclusive(e),
        e.batch_pushes_to(queue, ids, items, now, post),
        0 <= k < ids.len(),
        !e.shard(queue).seen.contains(ids[k]),
        !ids.take(k).contains(ids[k]),
        0 < items[k].delay_seconds,
        now + items[k].delay_seconds <= u64::MAX,
    ensures
        timing::withheld(post, queue, ids[k], now + items[k].delay_seconds, u64::MAX + 1),
{
    lemma_batch_withholds(e, queue, ids, items, now, k);
    let b = e.batch(queue, ids, items, now);
    assert forall|at: int| 0 <= at < NUM_SHARDS implies model::shard_holds(
        #[trigger] post.shards[at],
        at,
    ) by {
        assert(model::shard_holds(b.shards[at], at));
    }
}

proof fn lemma_batch_arrives(
    e: EngineView,
    queue: Seq<char>,
    ids: Seq<u128>,
    items: Seq<PushView>,
    now: u64,
    k: int,
)
    requires
        exclusive::all_exclusive(e),
        0 <= k < ids.len(),
        !e.shard(queue).seen.contains(ids[k]),
        !ids.take(k).contains(ids[k]),
        items[k].delay_seconds <= HOT_DELAY_HORIZON_SEC,
        now + items[k].delay_seconds <= u64::MAX,
        e.total_in_ram + ids.len() <= e.options.max_hot_messages_in_ram,
    ensures
        has_arrived(
            e.batch(queue, ids, items, now),
            queue,
            ids[k],
            items[k].payload,
            (now + items[k].delay_seconds) as u64,
        ),
    decreases ids.len(),
{
    model::lemma_shard_of_bound(queue);
    let at = model::shard_of(queue);
    let head = ids.drop_last();
    let n = ids.len() - 1;
    let id = ids[k];
    let due = (now + items[k].delay_seconds) as u64;
    let b = e.batch(queue, head, items, now);
    lemma_batch_frame(e, queue, head, items, now);
    lemma_batch_total(e, queue, head, items, now);
    let s = b.shard(queue);
    assert(model::shard_holds(b.shards[at], at));
    let visible_at = (now + items[n].delay_seconds) as u64;
    if k < n {
        assert(head[k] == id);
        assert(head.take(k) =~= ids.take(k));
        lemma_batch_arrives(e, queue, head, items, now, k);
        assert(head.contains(id));
        assert(s.seen.contains(id));
        if !s.seen.contains(ids[n]) {
            sequences::lemma_insert_keeps_coming_up(
                s.queues[queue],
                ids[n],
                visible_at,
                now,
                id,
                due,
            );
        }
    } else {
        assert(head =~= ids.take(k));
        assert(!s.seen.contains(id));
        assert(!s.messages.contains_key(id));
        sequences::lemma_insert_comes_up(s.queue(queue, now), id, due, now);
    }
}

proof fn lemma_batch_total(
    e: EngineView,
    queue: Seq<char>,
    ids: Seq<u128>,
    items: Seq<PushView>,
    now: u64,
)
    requires
        e.total_in_ram + ids.len() <= usize::MAX,
    ensures
        e.batch(queue, ids, items, now).total_in_ram <= e.total_in_ram + ids.len(),
    decreases ids.len(),
{
    if ids.len() > 0 {
        lemma_batch_total(e, queue, ids.drop_last(), items, now);
        model::lemma_wrap(e.batch(queue, ids.drop_last(), items, now).total_in_ram + 1);
    }
}

/// A message that is pushed under an id that was not seen before, and is due within the horizon,
/// is in memory as it was pushed, and comes up when its delay is over, if there is room for the
/// whole batch.
pub proof fn law_pushed_message_arrives(
    e: EngineView,
    queue: Seq<char>,
    ids: Seq<u128>,
    items: Seq<PushView>,
    now: u64,
    post: EngineView,
    k: int,
)
    requires
        exclusive::all_exclusive(e),
        e.batch_pushes_to(queue, ids, items, now, post),
        0 <= k < ids.len(),
        !e.shard(queue).seen.contains(ids[k]),
        !ids.take(k).contains(ids[k]),
        items[k].delay_seconds <= HOT_DELAY_HORIZON_SEC,
        now + items[k].delay_seconds <= u64::MAX,
        e.total_in_ram + ids.len() <= e.options.max_hot_messages_in_ram,
    ensures
        has_arrived(
            post,
            queue,
            ids[k],
            items[k].payload,
            (now + items[k].delay_seconds) as u64,
        ),
{
    lemma_batch_arrives(e, queue, ids, items, now, k);
}

/// A message that is pushed alone, under a fresh id that was not seen before, is answered with
/// its id. It is in memory as it was pushed, and comes up when its delay is over and not before,
/// if it is due within the horizon and there is room.
pub proof fn law_fresh_message_arrives(
    e: EngineView,
    queue: Seq<char>,
    payload: Seq<u8>,
    delay_sec: u64,
    now: u64,
    post: EngineView,
    res: Result<String, QueueError>,
) -> (id: u128)
    requires
        exclusive::all_exclusive(e),
        queue::pushed_under_fresh_id(e, queue, payload, delay_sec, now, post, res),
        delay_sec <= HOT_DELAY_HORIZON_SEC,
        now + delay_sec <= u64::MAX,
        e.total_in_ram < e.options.max_hot_messages_in_ram,
    ensures
        res is Ok,
        ids::id_value(res.unwrap()@) == Some(id),
        !e.shard(queue).seen.contains(id) ==> has_arrived(
            post,
            queue,
            id,
            payload,
            (now + delay_sec) as u64,
        ),
        !e.shard(queue).seen.contains(id) && delay_sec > 0 ==> timing::withheld(
            post,
            queue,
            id,
            now + delay_sec,
            u64::MAX + 1,
        ),
{
    let id = choose|id: u128|
        (res matches Ok(text) && text@ == #[trigger] ids::ulid_text(id)) && e.pushes_to(
            queue,
            id,
            payload,
            (now + delay_sec) as u64,
            now,
            post,
        );
    ids::law_ulid_round_trip(id);
    model::lemma_shard_of_bound(queue);
    let at = model::shard_of(queue);
    let s = e.shard(queue);
    assert(model::shard_holds(e.shards[at], at));
    let due = (now + delay_sec) as u64;
    if !s.seen.contains(id) {
        sequences::lemma_insert_comes_up(s.queue(queue, now), id, due, now);
        if delay_sec > 0 {
            lemma_unseen_is_withheld(e, queue, id, due as int);
            let logged = e.with_disk(e.disk.append_push(id, queue, due, payload).flush());
            assert forall|i: int| 0 <= i < NUM_SHARDS implies model::shard_holds(
                #[trigger] logged.shards[i],
                i,
            ) by {
                assert(model::shard_holds(e.shards[i], i));
            }
            assert(timing::withheld(logged, queue, id, due as int, u64::MAX + 1));
            lemma_accept_withholds(
                logged,
                queue,
                id,
                payload,
                due,
                now,
                queue,
                id,
                due as int,
            );
        }
    }
    id
}

/// A batch is answered with one id for each message, the given one where one is given. A message
/// whose id was not seen before, and which is due within the horizon, is in memory as it was
/// pushed, and comes up when its delay is over, if there is room for the whole batch.
pub proof fn law_batch_messages_arrive(
    e: EngineView,
    queue: Seq<char>,
    items: Seq<PushItem>,
    now: u64,
    post: EngineView,
    res: Result<Vec<String>, QueueError>,
    k: int,
) -> (ids: Seq<u128>)
    requires
        exclusive::all_exclusive(e),
        queue::pushed_as_batch(e, queue, items, now, post, res),
        0 <= k < items.len(),
        now + items[k].delay_seconds <= u64::MAX,
    ensures
        res is Ok,
        res.unwrap()@.len() == items.len(),
        ids.len() == items.len(),
        ids::id_value(res.unwrap()@[k]@) == Some(ids[k]),
        items[k].id matches Some(given) ==> ids[k] == given,
        !e.shard(queue).seen.contains(ids[k]) && !ids.take(k).contains(ids[k])
            && items[k].delay_seconds <= HOT_DELAY_HORIZON_SEC && e.total_in_ram + items.len()
            <= e.options.max_hot_messages_in_ram ==> has_arrived(
            post,
            queue,
            ids[k],
            items[k].payload@,
            (now + items[k].delay_seconds) as u64,
        ),
        !e.shard(queue).seen.contains(ids[k]) && !ids.take(k).contains(ids[k])
            && items[k].delay_seconds > 0 ==> timing::withheld(
            post,
            queue,
            ids[k],
            now + items[k].delay_seconds,
            u64::MAX + 1,
        ),
{
    let ids = choose|ids: Seq<u128>| #[trigger]
        queue::keeps_given_ids(items, ids) && (res matches Ok(texts) && registry::text_views(
            texts@,
        ) == model::id_texts(ids)) && e.batch_pushes_to(
            queue,
            ids,
            queue::push_views(items),
            now,
            post,
        );
    ids::law_ulid_round_trip(ids[k]);
    let texts = res.unwrap()@;
    assert(registry::text_views(texts).len() == texts.len());
    assert(registry::text_views(texts)[k] == texts[k]@);
    assert(model::id_texts(ids)[k] == ids::ulid_text(ids[k]));
    let views = queue::push_views(items);
    assert(views[k].payload == items[k].payload@ && views[k].delay_seconds
        == items[k].delay_seconds);
    assert(items[k].id == items[k].id);
    if !e.shard(queue).seen.contains(ids[k]) && !ids.take(k).contains(ids[k]) {
        if items[k].delay_seconds <= HOT_DELAY_HORIZON_SEC && e.total_in_ram + items.len()
            <= e.options.max_hot_messages_in_ram {
            law_pushed_message_arrives(e, queue, ids, views, now, post, k);
        }
        if items[k].delay_seconds > 0 {
            law_delayed_message_is_withheld(e, queue, ids, views, now, post, k);
        }
    }
    ids
}

}
