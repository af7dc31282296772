//! Exclusive delivery: while a lease on a message runs, the message is not handed out
//! again.
use vstd::prelude::*;

use crate::engine::model;
use crate::engine::model::{EngineView, NUM_SHARDS};
use crate::engine::shard;
use crate::engine::shard::{MsgView, ShardView};
use crate::engine::single_queue;
use crate::engine::single_queue::{FarFutureItem, QueueView, HOT_DELAY_HORIZON_SEC};
use crate::engine::timer_wheel;
use crate::engine::timer_wheel::{ItemView, WheelView};
use crate::engine::wal::RecordView;

verus! {

/// The id waits in one of the far-future places.
pub open spec fn in_far(far: Seq<FarFutureItem>, id: u128) -> bool {
    exists|i: int| 0 <= i < far.len() && (#[trigger] far[i]).id == id
}

/// The id waits in one of the buckets.
pub open spec fn in_hot(hot: Map<u64, Seq<u128>>, id: u128) -> bool {
    exists|sec: u64| #[trigger] hot.contains_key(sec) && hot[sec].contains(id)
}

/// The id waits somewhere in the queue.
pub open spec fn queued(q: QueueView, id: u128) -> bool {
    q.ready.contains(id) || in_hot(q.hot, id) || in_far(q.far, id)
}

/// No id waits in the queue twice.
pub open spec fn once(q: QueueView) -> bool {
    &&& q.hot.dom().finite()
    &&& q.ready.no_duplicates()
    &&& forall|sec: u64| #[trigger] q.hot.contains_key(sec) ==> q.hot[sec].no_duplicates()
    &&& forall|a: u64, b: u64, id: u128|
        #![trigger q.hot[a].contains(id), q.hot[b].contains(id)]
        q.hot.contains_key(a) && q.hot.contains_key(b) && q.hot[a].contains(id)
            && q.hot[b].contains(id) ==> a == b
    &&& forall|id: u128| #[trigger]
        q.ready.contains(id) ==> !in_hot(q.hot, id) && !in_far(q.far, id)
    &&& forall|id: u128| #[trigger] in_hot(q.hot, id) ==> !in_far(q.far, id)
    &&& forall|i: int, j: int|
        0 <= i < j < q.far.len() ==> (#[trigger] q.far[i]).id != (#[trigger] q.far[j]).id
}

proof fn lemma_in_push(s: Seq<u128>, x: u128, id: u128)
    ensures
        s.push(x).contains(id) <==> s.contains(id) || id == x,
        s.no_duplicates() && !s.contains(x) ==> s.push(x).no_duplicates(),
{
    if s.contains(id) {
        let i = choose|i: int| 0 <= i < s.len() && s[i] == id;
        assert(s.push(x)[i] == id);
    }
    if id == x {
        assert(s.push(x)[s.len() as int] == id);
    }
}

proof fn lemma_in_far_push(far: Seq<FarFutureItem>, item: FarFutureItem, id: u128)
    ensures
        in_far(far.push(item), id) <==> in_far(far, id) || id == item.id,
{
    if in_far(far, id) {
        let i = choose|i: int| 0 <= i < far.len() && (#[trigger] far[i]).id == id;
        assert(far.push(item)[i].id == id);
    }
    if id == item.id {
        assert(far.push(item)[far.len() as int].id == id);
    }
}

proof fn lemma_in_hot_bucketed(hot: Map<u64, Seq<u128>>, sec: u64, x: u128, id: u128)
    ensures
        in_hot(single_queue::with_bucketed(hot, sec, x), id) <==> in_hot(hot, id) || id == x,
{
    let after = single_queue::with_bucketed(hot, sec, x);
    assert(after.contains_key(sec));
    if hot.contains_key(sec) {
        lemma_in_push(hot[sec], x, id);
        assert(after[sec] == hot[sec].push(x));
    } else {
        assert(after[sec] == seq![x]);
        assert(seq![x].contains(id) <==> id == x) by {
            assert(seq![x][0] == x);
        }
    }
    if in_hot(hot, id) {
        let s = choose|s: u64| #[trigger] hot.contains_key(s) && hot[s].contains(id);
        assert(after.contains_key(s) && after[s].contains(id));
    }
    if in_hot(after, id) && id != x {
        let s = choose|s: u64| #[trigger] after.contains_key(s) && after[s].contains(id);
        assert(hot.contains_key(s) && hot[s].contains(id));
    }
}

/// A bucket gets an id that waits nowhere yet.
proof fn lemma_bucketed_once(q: QueueView, sec: u64, id: u128)
    requires
        once(q),
        !queued(q, id),
    ensures
        once(QueueView { hot: single_queue::with_bucketed(q.hot, sec, id), ..q }),
{
    let after = single_queue::with_bucketed(q.hot, sec, id);
    assert forall|x: u128| in_hot(after, x) <==> in_hot(q.hot, x) || x == id by {
        lemma_in_hot_bucketed(q.hot, sec, id, x);
    }
    assert(!(q.hot.contains_key(sec) && q.hot[sec].contains(id)));
    assert forall|s: u64| #[trigger] after.contains_key(s) implies after[s].no_duplicates() by {
        if s == sec && q.hot.contains_key(sec) {
            lemma_in_push(q.hot[sec], id, id);
        } else if s == sec {
            assert(after[s] == seq![id]);
        } else {
            assert(q.hot.contains_key(s));
        }
    }
    assert forall|a: u64, b: u64, x: u128|
        #![trigger after[a].contains(x), after[b].contains(x)]
        after.contains_key(a) && after.contains_key(b) && after[a].contains(x) && after[b].contains(
            x,
        ) implies a == b by {
        if q.hot.contains_key(sec) {
            lemma_in_push(q.hot[sec], id, x);
        }
        assert(after[sec].contains(x) ==> x == id || (q.hot.contains_key(sec) && q.hot[sec].contains(x)));
        if x == id {
            if a != sec {
                assert(q.hot.contains_key(a) && q.hot[a].contains(id));
            }
            if b != sec {
                assert(q.hot.contains_key(b) && q.hot[b].contains(id));
            }
        } else {
            assert(q.hot.contains_key(a) && q.hot[a].contains(x));
            assert(q.hot.contains_key(b) && q.hot[b].contains(x));
        }
    }
    assert(after.dom().finite());
}

/// Filing an id that does not wait yet keeps ids from waiting twice.
proof fn lemma_insert_once(q: QueueView, id: u128, visible_at: u64, now: u64)
    requires
        once(q),
        !queued(q, id),
    ensures
        once(q.insert(id, visible_at, now)),
        forall|x: u128| #[trigger]
            queued(q.insert(id, visible_at, now), x) <==> queued(q, x) || x == id,
{
    let p = QueueView { deleted: q.deleted.remove(id), ..q };
    let r = q.insert(id, visible_at, now);
    assert(once(p) && !queued(p, id));
    if visible_at <= now {
        assert forall|x: u128| #[trigger] r.ready.contains(x) <==> q.ready.contains(x) || x == id by {
            lemma_in_push(q.ready, id, x);
        }
        lemma_in_push(q.ready, id, id);
    } else if visible_at <= now + HOT_DELAY_HORIZON_SEC {
        lemma_bucketed_once(p, visible_at, id);
        assert forall|x: u128| in_hot(r.hot, x) <==> in_hot(q.hot, x) || x == id by {
            lemma_in_hot_bucketed(q.hot, visible_at, id, x);
        }
    } else {
        let item = FarFutureItem { id, visible_at };
        assert forall|x: u128| in_far(r.far, x) <==> in_far(q.far, x) || x == id by {
            lemma_in_far_push(q.far, item, x);
        }
        assert forall|i: int, j: int| 0 <= i < j < r.far.len() implies (#[trigger] r.far[i]).id != (
        #[trigger] r.far[j]).id by {
            if j == q.far.len() {
                assert(in_far(q.far, q.far[i].id));
            }
        }
    }
    assert forall|x: u128| #[trigger] queued(r, x) <==> queued(q, x) || x == id by {}
}

/// Dropping an id keeps ids from waiting twice, and adds none.
proof fn lemma_mark_deleted_once(q: QueueView, id: u128)
    requires
        once(q),
    ensures
        once(q.mark_deleted(id)),
        forall|x: u128| #[trigger] queued(q.mark_deleted(id), x) ==> queued(q, x),
{
    let r = q.mark_deleted(id);
    if q.ready.len() > 0 && q.ready[0] == id {
        assert forall|x: u128| #[trigger] r.ready.contains(x) implies q.ready.contains(x) by {
            let i = choose|i: int| 0 <= i < r.ready.len() && r.ready[i] == x;
            assert(q.ready[i + 1] == x);
        }
    }
}

proof fn lemma_promote_once(q: QueueView, items: Seq<FarFutureItem>, now: u64)
    requires
        once(QueueView { far: Seq::empty(), ..q }),
        forall|i: int, j: int|
            0 <= i < j < items.len() ==> (#[trigger] items[i]).id != (#[trigger] items[j]).id,
        forall|i: int|
            0 <= i < items.len() ==> !q.ready.contains((#[trigger] items[i]).id) && !in_hot(
                q.hot,
                items[i].id,
            ),
    ensures
        once(q.promote(items, now)),
        forall|x: u128| #[trigger]
            queued(q.promote(items, now), x) ==> q.ready.contains(x) || in_hot(q.hot, x) || in_far(
                items,
                x,
            ),
    decreases items.len(),
{
    let r = q.promote(items, now);
    if items.len() == 0 {
        assert forall|x: u128| #[trigger] queued(r, x) implies q.ready.contains(x) || in_hot(
            q.hot,
            x,
        ) || in_far(items, x) by {}
    } else {
        let head = items.drop_last();
        let item = items.last();
        assert forall|i: int| 0 <= i < head.len() implies !q.ready.contains(
            (#[trigger] head[i]).id,
        ) && !in_hot(q.hot, head[i].id) by {
            assert(head[i] == items[i]);
        }
        assert forall|i: int, j: int| 0 <= i < j < head.len() implies (#[trigger] head[i]).id != (
        #[trigger] head[j]).id by {
            assert(head[i] == items[i] && head[j] == items[j]);
        }
        lemma_promote_once(q, head, now);
        let p = q.promote(head, now);
        assert(items[items.len() - 1] == item);
        assert forall|x: u128| in_far(head, x) implies in_far(items, x) by {
            let i = choose|i: int| 0 <= i < head.len() && (#[trigger] head[i]).id == x;
            assert(items[i].id == x);
        }
        assert(in_far(items, item.id));
        assert(!in_far(head, item.id)) by {
            if in_far(head, item.id) {
                let i = choose|i: int| 0 <= i < head.len() && (#[trigger] head[i]).id == item.id;
                assert(items[i].id == items[items.len() - 1].id);
            }
        }
        assert(!queued(p, item.id));
        if !q.deleted.contains(item.id) {
            if item.visible_at <= now + HOT_DELAY_HORIZON_SEC {
                let sec = item.visible_at;
                lemma_bucketed_once(p, sec, item.id);
                assert forall|x: u128| in_hot(r.hot, x) <==> in_hot(p.hot, x) || x == item.id by {
                    lemma_in_hot_bucketed(p.hot, sec, item.id, x);
                }
                assert forall|x: u128| #[trigger] queued(r, x) implies queued(p, x) || x
                    == item.id by {}
            } else {
                assert forall|x: u128| in_far(r.far, x) <==> in_far(p.far, x) || x == item.id by {
                    lemma_in_far_push(p.far, item, x);
                }
                assert forall|i: int, j: int| 0 <= i < j < r.far.len() implies (
                #[trigger] r.far[i]).id != (#[trigger] r.far[j]).id by {
                    if j == p.far.len() {
                        assert(in_far(p.far, p.far[i].id));
                    }
                }
                assert forall|x: u128| #[trigger] queued(r, x) implies queued(p, x) || x
                    == item.id by {}
            }
        }
        assert forall|x: u128| #[trigger] queued(r, x) implies q.ready.contains(x) || in_hot(
            q.hot,
            x,
        ) || in_far(items, x) by {
            assert(queued(p, x) || x == item.id);
        }
    }
}

proof fn lemma_settle_once(q: QueueView, ids: Seq<u128>)
    requires
        once(q),
        ids.no_duplicates(),
        forall|i: int| 0 <= i < ids.len() ==> !queued(q, #[trigger] ids[i]),
    ensures
        once(q.settle(ids)),
        forall|x: u128| #[trigger] queued(q.settle(ids), x) ==> queued(q, x) || ids.contains(x),
    decreases ids.len(),
{
    if ids.len() > 0 {
        let head = ids.drop_last();
        let id = ids.last();
        assert forall|i: int| 0 <= i < head.len() implies !queued(q, #[trigger] head[i]) by {
            assert(head[i] == ids[i]);
        }
        lemma_settle_once(q, head);
        let p = q.settle(head);
        let r = q.settle(ids);
        assert forall|x: u128| head.contains(x) implies ids.contains(x) by {
            let i = choose|i: int| 0 <= i < head.len() && head[i] == x;
            assert(ids[i] == x);
        }
        assert(ids[ids.len() - 1] == id);
        assert(!head.contains(id)) by {
            if head.contains(id) {
                let i = choose|i: int| 0 <= i < head.len() && head[i] == id;
                assert(ids[i] == ids[ids.len() - 1]);
            }
        }
        assert(!queued(p, id));
        if !p.deleted.contains(id) {
            assert forall|x: u128| #[trigger] r.ready.contains(x) <==> p.ready.contains(x) || x
                == id by {
                lemma_in_push(p.ready, id, x);
            }
            lemma_in_push(p.ready, id, id);
        }
        assert forall|x: u128| #[trigger] queued(r, x) implies queued(q, x) || ids.contains(x) by {
            assert(queued(p, x) || x == id);
        }
    }
}

proof fn lemma_drain_once(q: QueueView, now: u64)
    requires
        once(q),
    ensures
        once(q.drain(now)),
        forall|x: u128| #[trigger] queued(q.drain(now), x) ==> queued(q, x),
    decreases q.hot.dom().len(),
{
    if exists|sec: u64| single_queue::is_next_due(q.hot, now, sec) {
        let sec = choose|sec: u64| single_queue::is_next_due(q.hot, now, sec);
        let bucket = q.hot[sec];
        let p = QueueView { hot: q.hot.remove(sec), ..q };
        assert forall|x: u128| in_hot(p.hot, x) implies in_hot(q.hot, x) by {
            let s = choose|s: u64| #[trigger] p.hot.contains_key(s) && p.hot[s].contains(x);
            assert(q.hot.contains_key(s) && q.hot[s].contains(x));
        }
        assert(once(p)) by {
            assert forall|s: u64| #[trigger] p.hot.contains_key(s) implies p.hot[s].no_duplicates() by {
                assert(q.hot.contains_key(s));
            }
            assert forall|a: u64, b: u64, id: u128|
                #![trigger p.hot[a].contains(id), p.hot[b].contains(id)]
                p.hot.contains_key(a) && p.hot.contains_key(b) && p.hot[a].contains(id)
                    && p.hot[b].contains(id) implies a == b by {
                assert(q.hot[a].contains(id) && q.hot[b].contains(id));
            }
        }
        assert forall|i: int| 0 <= i < bucket.len() implies !queued(p, #[trigger] bucket[i]) by {
            let x = bucket[i];
            assert(q.hot[sec].contains(x));
            assert(in_hot(q.hot, x));
            if in_hot(p.hot, x) {
                let s = choose|s: u64| #[trigger] p.hot.contains_key(s) && p.hot[s].contains(x);
                assert(q.hot[s].contains(x));
            }
        }
        lemma_settle_once(p, bucket);
        single_queue::lemma_settle_frame(q, q.hot.remove(sec), bucket);
        let r = p.settle(bucket);
        assert(r == (QueueView { hot: q.hot.remove(sec), ..q.settle(bucket) }));
        lemma_drain_once(r, now);
        assert forall|x: u128| #[trigger] queued(q.drain(now), x) implies queued(q, x) by {
            assert(queued(r, x));
            if bucket.contains(x) {
                assert(in_hot(q.hot, x));
            }
        }
    }
}

pub proof fn lemma_promote_far_once(q: QueueView, now: u64)
    requires
        once(q),
    ensures
        once(q.promote(q.far, now)),
        forall|x: u128| #[trigger] queued(q.promote(q.far, now), x) ==> queued(q, x),
{
    let bare = QueueView { far: Seq::empty(), ..q };
    assert(once(bare));
    assert forall|i: int| 0 <= i < q.far.len() implies !q.ready.contains((#[trigger] q.far[i]).id)
        && !in_hot(q.hot, q.far[i].id) by {
        assert(in_far(q.far, q.far[i].id));
    }
    lemma_promote_once(q, q.far, now);
}

pub proof fn lemma_advance_once(q: QueueView, now: u64)
    requires
        once(q),
    ensures
        once(q.advance(now)),
        forall|x: u128| #[trigger] queued(q.advance(now), x) ==> queued(q, x),
{
    if now >= q.last_drained_sec {
        lemma_promote_far_once(q, now);
        let p = q.promote(q.far, now);
        lemma_drain_once(p, now);
        let d = p.drain(now);
        let r = q.advance(now);
        assert(r == (QueueView { last_drained_sec: now, ..d }));
        assert forall|x: u128| #[trigger] queued(r, x) implies queued(q, x) by {
            assert(queued(d, x));
            assert(queued(p, x));
        }
    }
}

proof fn lemma_pop_once(q: QueueView)
    requires
        once(q),
    ensures
        once(q.pop().0),
        forall|x: u128| #[trigger] queued(q.pop().0, x) ==> queued(q, x),
        q.pop().1 matches Some(id) ==> q.ready.contains(id) && !queued(q.pop().0, id),
    decreases q.ready.len(),
{
    if q.ready.len() > 0 {
        let id = q.ready[0];
        let rest = q.ready.drop_first();
        assert forall|x: u128| #[trigger] rest.contains(x) implies q.ready.contains(x) && x != id by {
            let i = choose|i: int| 0 <= i < rest.len() && rest[i] == x;
            assert(q.ready[i + 1] == x);
        }
        assert(q.ready.contains(id));
        assert(rest.no_duplicates()) by {
            assert forall|i: int, j: int| 0 <= i < rest.len() && 0 <= j < rest.len() && i
                != j implies rest[i] != rest[j] by {
                assert(q.ready[i + 1] != q.ready[j + 1]);
            }
        }
        let p = QueueView { ready: rest, ..q };
        assert(once(p));
        if q.deleted.contains(id) {
            let d = QueueView { deleted: p.deleted.remove(id), ..p };
            assert(once(d));
            lemma_pop_once(d);
            assert forall|x: u128| #[trigger] queued(q.pop().0, x) implies queued(q, x) by {
                assert(queued(d, x));
            }
        }
    }
}

proof fn lemma_claim_once(q: QueueView, max: nat)
    requires
        once(q),
    ensures
        once(q.claim(max).0),
        q.claim(max).1.no_duplicates(),
        forall|x: u128| #[trigger] queued(q.claim(max).0, x) ==> queued(q, x),
        forall|k: int|
            0 <= k < q.claim(max).1.len() ==> {
                let id = #[trigger] q.claim(max).1[k];
                queued(q, id) && !queued(q.claim(max).0, id)
            },
    decreases max,
{
    if max > 0 {
        lemma_pop_once(q);
        let (p, first) = q.pop();
        if first is Some {
            let id = first.unwrap();
            let m = (max - 1) as nat;
            lemma_claim_once(p, m);
            let (r, ids) = p.claim(m);
            let all = q.claim(max).1;
            assert(all == seq![id] + ids);
            assert forall|k: int| 0 <= k < all.len() implies {
                let x = #[trigger] all[k];
                queued(q, x) && !queued(r, x)
            } by {
                if k > 0 {
                    assert(all[k] == ids[k - 1]);
                }
            }
            assert forall|i: int, j: int| 0 <= i < all.len() && 0 <= j < all.len() && i != j implies all[i]
                != all[j] by {
                if i > 0 {
                    assert(all[i] == ids[i - 1]);
                    assert(queued(p, ids[i - 1]));
                }
                if j > 0 {
                    assert(all[j] == ids[j - 1]);
                    assert(queued(p, ids[j - 1]));
                }
            }
        }
    }
}

/// No id occurs twice among the items.
pub open spec fn distinct_items(items: Seq<ItemView>) -> bool {
    forall|i: int, j: int|
        0 <= i < j < items.len() ==> (#[trigger] items[i]).id != (#[trigger] items[j]).id
}

/// Every item of the wheel is the one that the index points to.
pub open spec fn single_leases(w: WheelView) -> bool {
    &&& w.wf()
    &&& forall|slot: int| 0 <= slot < w.slots.len() ==> distinct_items(#[trigger] w.slots[slot])
    &&& forall|slot: int, k: int|
        0 <= slot < w.slots.len() && 0 <= k < w.slots[slot].len() ==> w.index.contains_key(
            (#[trigger] w.slots[slot][k]).id,
        ) && w.index[w.slots[slot][k].id].0 == slot
}

pub proof fn lemma_split_distinct(items: Seq<ItemView>, now: u64)
    requires
        distinct_items(items),
    ensures
        distinct_items(timer_wheel::kept_of(items, now)),
        forall|i: int, j: int|
            0 <= i < timer_wheel::kept_of(items, now).len() && 0 <= j < timer_wheel::expired_of(
                items,
                now,
            ).len() ==> (#[trigger] timer_wheel::kept_of(items, now)[i]).id != (
            #[trigger] timer_wheel::expired_of(items, now)[j]).id,
    decreases items.len(),
{
    if items.len() > 0 {
        let head = items.drop_last();
        let last = items.last();
        assert forall|i: int, j: int| 0 <= i < j < head.len() implies (#[trigger] head[i]).id != (
        #[trigger] head[j]).id by {
            assert(head[i] == items[i] && head[j] == items[j]);
        }
        lemma_split_distinct(head, now);
        timer_wheel::lemma_split(head, now);
        let kept = timer_wheel::kept_of(head, now);
        let expired = timer_wheel::expired_of(head, now);
        assert forall|x: ItemView| head.contains(x) implies x.id != last.id by {
            let i = choose|i: int| 0 <= i < head.len() && head[i] == x;
            assert(items[i].id != items[items.len() - 1].id);
        }
        assert forall|i: int| 0 <= i < kept.len() implies (#[trigger] kept[i]).id != last.id by {
            assert(head.contains(kept[i]));
        }
        assert forall|i: int| 0 <= i < expired.len() implies (#[trigger] expired[i]).id != last.id by {
            assert(head.contains(expired[i]));
        }
        let kept_all = timer_wheel::kept_of(items, now);
        let expired_all = timer_wheel::expired_of(items, now);
        assert forall|i: int, j: int| 0 <= i < kept_all.len() && 0 <= j < expired_all.len() implies (
        #[trigger] kept_all[i]).id != (#[trigger] expired_all[j]).id by {
            if i < kept.len() && j < expired.len() {
                assert(kept_all[i] == kept[i] && expired_all[j] == expired[j]);
            }
        }
        assert forall|i: int, j: int| 0 <= i < j < kept_all.len() implies (#[trigger] kept_all[i]).id
            != (#[trigger] kept_all[j]).id by {
            assert(kept_all[i] == kept[i]);
            if j < kept.len() {
                assert(kept_all[j] == kept[j]);
            }
        }
    }
}

proof fn lemma_sweep_slot_single(w: WheelView, slot: int, now: u64)
    requires
        single_leases(w),
        0 <= slot < w.slots.len(),
    ensures
        single_leases(w.sweep_slot(slot, now)),
{
    timer_wheel::lemma_sweep_slot(w, slot, now);
    timer_wheel::lemma_split(w.slots[slot], now);
    lemma_split_distinct(w.slots[slot], now);
    let v = w.sweep_slot(slot, now);
    let expired = timer_wheel::expired_of(w.slots[slot], now);
    let kept = timer_wheel::kept_of(w.slots[slot], now);
    assert forall|s: int, k: int|
        0 <= s < v.slots.len() && 0 <= k < v.slots[s].len() implies v.index.contains_key(
        (#[trigger] v.slots[s][k]).id,
    ) && v.index[v.slots[s][k].id].0 == s by {
        let item = v.slots[s][k];
        if s == slot {
            assert(w.slots[slot].contains(kept[k]));
            let j = choose|j: int| 0 <= j < w.slots[slot].len() && w.slots[slot][j] == item;
            assert(w.slots[slot][j].id == item.id);
            if timer_wheel::ids_of(expired).contains(item.id) {
                let e = choose|e: int| 0 <= e < expired.len() && (#[trigger] expired[e]).id == item.id;
                assert(kept[k].id != expired[e].id);
            }
        } else {
            assert(w.slots[s][k] == item);
            if timer_wheel::ids_of(expired).contains(item.id) {
                let e = choose|e: int| 0 <= e < expired.len() && (#[trigger] expired[e]).id == item.id;
                assert(w.slots[slot].contains(expired[e]));
                let j = choose|j: int| 0 <= j < w.slots[slot].len() && w.slots[slot][j] == expired[e];
                assert(w.index[w.slots[slot][j].id].0 == slot);
            }
        }
    }
    assert forall|s: int| 0 <= s < v.slots.len() implies distinct_items(#[trigger] v.slots[s]) by {
        if s != slot {
            assert(v.slots[s] == w.slots[s]);
        }
    }
}

pub proof fn lemma_sweep_single(w: WheelView, base: int, n: nat, now: u64)
    requires
        single_leases(w),
    ensures
        single_leases(w.sweep(base, n, now).0),
    decreases n,
{
    if n > 0 {
        lemma_sweep_single(w, base, (n - 1) as nat, now);
        timer_wheel::lemma_sweep(w, base, (n - 1) as nat, now);
        lemma_sweep_slot_single(
            w.sweep(base, (n - 1) as nat, now).0,
            w.slot_of(base + n),
            now,
        );
    }
}

/// A collection keeps every item the one that the index points to, hands out only items
/// that the index pointed to, and the index points to none of them any more.
pub proof fn lemma_collect_single(w: WheelView, now: u64)
    requires
        single_leases(w),
    ensures
        single_leases(w.collect(now).0),
        w.collect(now).0.index.submap_of(w.index),
        forall|k: int|
            0 <= k < w.collect(now).1.len() ==> {
                let id = (#[trigger] w.collect(now).1[k]).id;
                w.index.contains_key(id) && !w.collect(now).0.index.contains_key(id)
            },
{
    let base = w.sweep_base(now);
    timer_wheel::lemma_sweep(w, -1, w.slots.len(), now);
    lemma_sweep_single(w, -1, w.slots.len(), now);
    if now > base {
        timer_wheel::lemma_sweep(w, base, (now - base) as nat, now);
        lemma_sweep_single(w, base, (now - base) as nat, now);
    }
    let (v, items) = w.collect(now);
    assert forall|k: int| 0 <= k < items.len() implies w.index.contains_key(
        (#[trigger] items[k]).id,
    ) && !v.index.contains_key(items[k].id) by {
        let item = items[k];
        assert(timer_wheel::in_wheel(w, item));
        let slot = w.slot_of(item.expire_at as int);
        let j = choose|j: int| 0 <= j < w.slots[slot].len() && w.slots[slot][j] == item;
        assert(w.index.contains_key(w.slots[slot][j].id));
    }
}

proof fn lemma_lease_single(w: WheelView, item: ItemView)
    requires
        single_leases(w),
        !w.index.contains_key(item.id),
    ensures
        single_leases(w.insert(item)),
{
    let v = w.insert(item);
    let slot = w.slot_of(item.expire_at as int);
    assert(0 <= slot < w.slots.len());
    assert forall|s: int, k: int|
        0 <= s < v.slots.len() && 0 <= k < v.slots[s].len() implies v.index.contains_key(
        (#[trigger] v.slots[s][k]).id,
    ) && v.index[v.slots[s][k].id].0 == s && v.slot_of(v.slots[s][k].expire_at as int) == s by {
        if s == slot && k == w.slots[slot].len() {
            assert(v.slots[s][k] == item);
        } else {
            assert(v.slots[s][k] == w.slots[s][k]);
        }
    }
    assert forall|s: int| 0 <= s < v.slots.len() implies distinct_items(#[trigger] v.slots[s]) by {
        if s == slot {
            let items = v.slots[s];
            assert forall|i: int, j: int| 0 <= i < j < items.len() implies (#[trigger] items[i]).id != (
            #[trigger] items[j]).id by {
                assert(items[i] == w.slots[slot][i]);
                assert(distinct_items(w.slots[slot]));
                if j < w.slots[slot].len() {
                    assert(items[j] == w.slots[slot][j]);
                }
            }
        } else {
            assert(v.slots[s] == w.slots[s]);
        }
    }
}

proof fn lemma_position(items: Seq<ItemView>, id: u128, from: int, k: int)
    requires
        0 <= from <= k < items.len(),
        items[k].id == id,
    ensures
        from <= timer_wheel::position_of(items, id, from) <= k,
        items[timer_wheel::position_of(items, id, from)].id == id,
    decreases items.len() - from,
{
    if items[from].id != id {
        lemma_position(items, id, from + 1, k);
    }
}

proof fn lemma_no_position(items: Seq<ItemView>, id: u128, from: int)
    requires
        0 <= from <= items.len(),
        timer_wheel::position_of(items, id, from) >= items.len(),
    ensures
        forall|k: int| from <= k < items.len() ==> (#[trigger] items[k]).id != id,
    decreases items.len() - from,
{
    if from < items.len() && items[from].id != id {
        lemma_no_position(items, id, from + 1);
    }
}

proof fn lemma_position_found(items: Seq<ItemView>, id: u128, from: int)
    requires
        0 <= from <= items.len(),
        timer_wheel::position_of(items, id, from) < items.len(),
    ensures
        from <= timer_wheel::position_of(items, id, from),
        items[timer_wheel::position_of(items, id, from)].id == id,
    decreases items.len() - from,
{
    if from < items.len() && items[from].id != id {
        lemma_position_found(items, id, from + 1);
    }
}

pub proof fn lemma_remove_single(w: WheelView, id: u128)
    requires
        single_leases(w),
        w.index.contains_key(id),
    ensures
        single_leases(w.remove(id)),
{
    let slot = w.index[id].0;
    let items = w.slots[slot];
    let pos = timer_wheel::position_of(items, id, 0);
    let v = w.remove(id);
    assert(distinct_items(items));
    if pos < items.len() {
        lemma_position_found(items, id, 0);
        let after = items.update(pos, items.last()).drop_last();
        assert(v.slots[slot] == after);
        assert forall|k: int| 0 <= k < after.len() implies ((#[trigger] after[k]) == items[k] && k
            != pos) || (after[k] == items[items.len() - 1] && k == pos) by {}
        assert forall|k: int| 0 <= k < after.len() implies (#[trigger] after[k]).id != id by {
            if k == pos {
                assert(items[pos].id != items[items.len() - 1].id);
            } else if k < pos {
                assert(items[k].id != items[pos].id);
            } else {
                assert(items[pos].id != items[k].id);
            }
        }
        assert(distinct_items(after));
    } else {
        lemma_no_position(items, id, 0);
    }
    assert forall|s: int, k: int|
        0 <= s < v.slots.len() && 0 <= k < v.slots[s].len() implies v.index.contains_key(
        (#[trigger] v.slots[s][k]).id,
    ) && v.index[v.slots[s][k].id].0 == s && v.slot_of(v.slots[s][k].expire_at as int) == s by {
        if s == slot {
            if pos < items.len() {
                let after = items.update(pos, items.last()).drop_last();
                assert(v.slots[s][k] == after[k]);
                if k == pos {
                    assert(after[k] == w.slots[slot][items.len() - 1]);
                } else {
                    assert(after[k] == w.slots[slot][k]);
                }
            } else {
                assert(v.slots[s][k] == w.slots[slot][k]);
            }
        } else {
            assert(v.slots[s][k] == w.slots[s][k]);
            assert(w.index[w.slots[s][k].id].0 == s);
        }
    }
    assert forall|s: int| 0 <= s < v.slots.len() implies distinct_items(#[trigger] v.slots[s]) by {
        if s != slot {
            assert(v.slots[s] == w.slots[s]);
        }
    }
}

/// The id waits in the queue of this name.
pub open spec fn waits(s: ShardView, name: Seq<char>, id: u128) -> bool {
    s.queues.contains_key(name) && queued(s.queues[name], id)
}

/// The shard has seen the message, and has it or knows that it is done with.
pub open spec fn known(s: ShardView, id: u128) -> bool {
    s.seen.contains(id) && (s.messages.contains_key(id) || s.acked.contains(id))
}

/// A message waits in one place at most, or a lease on it runs, but not both; and it is
/// known.
pub open spec fn exclusive(s: ShardView) -> bool {
    &&& single_leases(s.wheel)
    &&& forall|name: Seq<char>| #[trigger] s.queues.contains_key(name) ==> once(s.queues[name])
    &&& forall|name: Seq<char>, id: u128| #[trigger]
        waits(s, name, id) ==> known(s, id) && !s.wheel.index.contains_key(id)
    &&& forall|a: Seq<char>, b: Seq<char>, id: u128| #[trigger]
        waits(s, a, id) && #[trigger] waits(s, b, id) ==> a == b
    &&& forall|id: u128| #[trigger] s.wheel.index.contains_key(id) ==> known(s, id)
}

/// The id waits nowhere, and no lease on it runs.
pub open spec fn is_free(s: ShardView, id: u128) -> bool {
    &&& !s.wheel.index.contains_key(id)
    &&& forall|name: Seq<char>| !#[trigger] waits(s, name, id)
}

proof fn lemma_store_exclusive(s: ShardView, msg: MsgView, now: u64)
    requires
        exclusive(s),
        s.seen.contains(msg.id),
        is_free(s, msg.id),
    ensures
        exclusive(s.store(msg, now)),
        forall|x: u128| x != msg.id && is_free(s, x) ==> #[trigger] is_free(s.store(msg, now), x),
{
    let r = s.store(msg, now);
    let q = s.queue(msg.queue, now);
    assert(once(q) && !queued(q, msg.id)) by {
        if s.queues.contains_key(msg.queue) {
            assert(!waits(s, msg.queue, msg.id));
        } else {
            assert(q == QueueView::empty(now));
        }
    }
    lemma_insert_once(q, msg.id, msg.visible_at, now);
    assert forall|name: Seq<char>, id: u128| #[trigger] waits(r, name, id) implies waits(s, name, id)
        || (name == msg.queue && id == msg.id) by {
        if name == msg.queue {
            assert(r.queues[name] == q.insert(msg.id, msg.visible_at, now));
            if !s.queues.contains_key(name) {
                assert(!queued(QueueView::empty(now), id));
            }
        }
    }
    assert forall|name: Seq<char>| #[trigger] r.queues.contains_key(name) implies once(r.queues[name]) by {
        if name != msg.queue {
            assert(s.queues.contains_key(name));
        }
    }
    assert forall|a: Seq<char>, b: Seq<char>, id: u128| #[trigger] waits(r, a, id)
        && #[trigger] waits(r, b, id) implies a == b by {
        if id == msg.id {
            assert(!waits(s, a, id) && !waits(s, b, id));
        } else {
            assert(waits(s, a, id) && waits(s, b, id));
        }
    }
    assert forall|x: u128| x != msg.id && is_free(s, x) implies #[trigger] is_free(r, x) by {
        assert forall|name: Seq<char>| !#[trigger] waits(r, name, x) by {
            assert(!waits(s, name, x));
        }
    }
}

proof fn lemma_tombstone_exclusive(s: ShardView, name: Seq<char>, id: u128)
    requires
        exclusive(s),
    ensures
        exclusive(s.tombstone(name, id)),
        forall|n: Seq<char>, x: u128| #[trigger]
            waits(s.tombstone(name, id), n, x) ==> waits(s, n, x),
{
    let r = s.tombstone(name, id);
    if s.queues.contains_key(name) {
        lemma_mark_deleted_once(s.queues[name], id);
        assert forall|n: Seq<char>, x: u128| #[trigger] waits(r, n, x) implies waits(s, n, x) by {
            if n == name {
                assert(r.queues[n] == s.queues[name].mark_deleted(id));
            }
        }
        assert forall|n: Seq<char>| #[trigger] r.queues.contains_key(n) implies once(r.queues[n]) by {
            if n != name {
                assert(s.queues.contains_key(n));
            }
        }
    }
}

/// A message that is done with can be forgotten.
proof fn lemma_forget_exclusive(s: ShardView, id: u128)
    requires
        exclusive(s),
    ensures
        exclusive(s.mark_acked(id)),
        exclusive(s.mark_acked(id).remove_message(id)),
        exclusive(s.mark_seen(id)),
{
    let a = s.mark_acked(id);
    let r = a.remove_message(id);
    let n = s.mark_seen(id);
    assert forall|name: Seq<char>, x: u128|
        waits(a, name, x) == waits(s, name, x) && waits(r, name, x) == waits(s, name, x) && waits(
            n,
            name,
            x,
        ) == waits(s, name, x) by {}
    assert(exclusive(a)) by {
        assert forall|name: Seq<char>, x: u128| #[trigger] waits(a, name, x) implies known(a, x)
            && !a.wheel.index.contains_key(x) by {
            assert(waits(s, name, x));
        }
        assert forall|x: Seq<char>, y: Seq<char>, z: u128| #[trigger] waits(a, x, z)
            && #[trigger] waits(a, y, z) implies x == y by {
            assert(waits(s, x, z) && waits(s, y, z));
        }
    }
    assert(exclusive(r)) by {
        assert forall|name: Seq<char>, x: u128| #[trigger] waits(r, name, x) implies known(r, x)
            && !r.wheel.index.contains_key(x) by {
            assert(waits(s, name, x));
        }
        assert forall|x: Seq<char>, y: Seq<char>, z: u128| #[trigger] waits(r, x, z)
            && #[trigger] waits(r, y, z) implies x == y by {
            assert(waits(s, x, z) && waits(s, y, z));
        }
        assert forall|x: u128| #[trigger] r.wheel.index.contains_key(x) implies known(r, x) by {
            assert(s.wheel.index.contains_key(x));
        }
    }
    assert(exclusive(n)) by {
        assert forall|name: Seq<char>, x: u128| #[trigger] waits(n, name, x) implies known(n, x)
            && !n.wheel.index.contains_key(x) by {
            assert(waits(s, name, x));
        }
        assert forall|x: Seq<char>, y: Seq<char>, z: u128| #[trigger] waits(n, x, z)
            && #[trigger] waits(n, y, z) implies x == y by {
            assert(waits(s, x, z) && waits(s, y, z));
        }
    }
}

proof fn lemma_apply_ack_exclusive(s: ShardView, name: Seq<char>, id: u128)
    requires
        exclusive(s),
    ensures
        exclusive(s.apply_ack(name, id)),
{
    lemma_forget_exclusive(s, id);
    lemma_tombstone_exclusive(s.mark_acked(id).remove_message(id), name, id);
}

/// The end of a lease keeps the shard exclusive.
proof fn lemma_release_exclusive(s: ShardView, id: u128)
    requires
        exclusive(s),
        s.wheel.index.contains_key(id),
    ensures
        exclusive(ShardView { wheel: s.wheel.remove(id), ..s }),
{
    lemma_remove_single(s.wheel, id);
    let r = ShardView { wheel: s.wheel.remove(id), ..s };
    assert forall|name: Seq<char>, x: u128| #[trigger] waits(r, name, x) implies known(r, x)
        && !r.wheel.index.contains_key(x) by {
        assert(waits(s, name, x));
    }
    assert forall|x: Seq<char>, y: Seq<char>, z: u128| #[trigger] waits(r, x, z)
        && #[trigger] waits(r, y, z) implies x == y by {
        assert(waits(s, x, z) && waits(s, y, z));
    }
    assert forall|x: u128| #[trigger] r.wheel.index.contains_key(x) implies known(r, x) by {
        assert(s.wheel.index.contains_key(x));
    }
}

proof fn lemma_ack_lease_exclusive(s: ShardView, name: Seq<char>, id: u128)
    requires
        exclusive(s),
        s.wheel.index.contains_key(id),
    ensures
        exclusive(s.ack_lease(name, id)),
{
    lemma_release_exclusive(s, id);
    let released = ShardView { wheel: s.wheel.remove(id), ..s };
    lemma_forget_exclusive(released, id);
    lemma_tombstone_exclusive(released.mark_acked(id).remove_message(id), name, id);
}

pub proof fn lemma_take_messages_only(messages: Map<u128, MsgView>, items: Seq<ItemView>, id: u128)
    requires
        forall|k: int| 0 <= k < items.len() ==> (#[trigger] items[k]).id != id,
    ensures
        shard::take_messages(messages, items).0.contains_key(id) == messages.contains_key(id),
    decreases items.len(),
{
    if items.len() > 0 {
        let head = items.drop_last();
        assert forall|k: int| 0 <= k < head.len() implies (#[trigger] head[k]).id != id by {
            assert(head[k] == items[k]);
        }
        lemma_take_messages_only(messages, head, id);
        assert(items[items.len() - 1].id != id);
    }
}

pub proof fn lemma_taken_from_items(messages: Map<u128, MsgView>, items: Seq<ItemView>)
    requires
        forall|id: u128| #[trigger] messages.contains_key(id) ==> messages[id].id == id,
    ensures
        forall|id: u128| #[trigger]
            shard::take_messages(messages, items).0.contains_key(id) ==> messages.contains_key(id)
                && shard::take_messages(messages, items).0[id] == messages[id],
        forall|k: int|
            0 <= k < shard::take_messages(messages, items).1.len() ==> exists|j: int|
                0 <= j < items.len() && items[j].id == (
                #[trigger] shard::take_messages(messages, items).1[k]).id,
    decreases items.len(),
{
    if items.len() > 0 {
        let head = items.drop_last();
        lemma_taken_from_items(messages, head);
        let (rest, taken) = shard::take_messages(messages, head);
        let (after, all) = shard::take_messages(messages, items);
        assert forall|k: int| 0 <= k < all.len() implies exists|j: int|
            0 <= j < items.len() && items[j].id == (#[trigger] all[k]).id by {
            if k < taken.len() {
                assert(all[k] == taken[k]);
                let j = choose|j: int| 0 <= j < head.len() && head[j].id == taken[k].id;
                assert(items[j].id == all[k].id);
            } else {
                assert(items[items.len() - 1].id == all[k].id);
            }
        }
    }
}

/// Ending the leases that ran out keeps the shard exclusive, and frees their messages.
proof fn lemma_take_expired_exclusive(s: ShardView, at: int, now: u64)
    requires
        exclusive(s),
        model::shard_holds(s, at),
    ensures
        exclusive(s.take_expired(now).0),
        forall|k: int|
            0 <= k < s.take_expired(now).1.len() ==> is_free(
                s.take_expired(now).0,
                (#[trigger] s.take_expired(now).1[k]).id,
            ),
{
    lemma_collect_single(s.wheel, now);
    let (wheel, items) = s.wheel.collect(now);
    let (messages, taken) = shard::take_messages(s.messages, items);
    let r = s.take_expired(now).0;
    lemma_taken_from_items(s.messages, items);
    assert(r == (ShardView { messages, wheel, ..s }));
    assert forall|id: u128| !s.wheel.index.contains_key(id) || wheel.index.contains_key(id) implies (
    known(s, id) ==> #[trigger] known(r, id)) by {
        assert forall|k: int| 0 <= k < items.len() implies (#[trigger] items[k]).id != id by {
            assert(s.wheel.index.contains_key(items[k].id) && !wheel.index.contains_key(items[k].id));
        }
        lemma_take_messages_only(s.messages, items, id);
    }
    assert forall|name: Seq<char>, x: u128| #[trigger] waits(r, name, x) implies known(r, x)
        && !r.wheel.index.contains_key(x) by {
        assert(waits(s, name, x));
        assert(!s.wheel.index.contains_key(x));
        if wheel.index.contains_key(x) {
            assert(wheel.index.dom().contains(x));
        }
    }
    assert forall|x: Seq<char>, y: Seq<char>, z: u128| #[trigger] waits(r, x, z)
        && #[trigger] waits(r, y, z) implies x == y by {
        assert(waits(s, x, z) && waits(s, y, z));
    }
    assert forall|x: u128| #[trigger] r.wheel.index.contains_key(x) implies known(r, x) by {
        assert(wheel.index.dom().contains(x));
        assert(s.wheel.index.contains_key(x));
    }
    assert forall|k: int| 0 <= k < taken.len() implies is_free(r, (#[trigger] taken[k]).id) by {
        let id = taken[k].id;
        let j = choose|j: int| 0 <= j < items.len() && items[j].id == id;
        assert(s.wheel.index.contains_key(items[j].id) && !wheel.index.contains_key(items[j].id));
        assert forall|name: Seq<char>| !#[trigger] waits(r, name, id) by {
            assert(!waits(s, name, id));
        }
    }
}

/// Claiming takes out ids that were waiting, each once; they are free then.
pub proof fn lemma_claim_exclusive(s: ShardView, name: Seq<char>, now: u64, max: nat)
    requires
        exclusive(s),
    ensures
        exclusive(s.claim(name, now, max).0),
        s.claim(name, now, max).1.no_duplicates(),
        forall|k: int|
            0 <= k < s.claim(name, now, max).1.len() ==> {
                let id = #[trigger] s.claim(name, now, max).1[k];
                &&& waits(s, name, id)
                &&& known(s, id)
                &&& !s.wheel.index.contains_key(id)
                &&& is_free(s.claim(name, now, max).0, id)
            },
{
    if s.queues.contains_key(name) {
        let q = s.queues[name];
        lemma_advance_once(q, now);
        lemma_claim_once(q.advance(now), max);
        let (after, ids) = q.advance(now).claim(max);
        let r = s.claim(name, now, max).0;
        assert forall|n: Seq<char>, x: u128| #[trigger] waits(r, n, x) implies waits(s, n, x) by {
            if n == name {
                assert(r.queues[n] == after);
                assert(queued(q.advance(now), x));
            }
        }
        assert forall|n: Seq<char>| #[trigger] r.queues.contains_key(n) implies once(r.queues[n]) by {
            if n != name {
                assert(s.queues.contains_key(n));
            }
        }
        assert forall|k: int| 0 <= k < ids.len() implies {
            let id = #[trigger] ids[k];
            &&& waits(s, name, id)
            &&& known(s, id)
            &&& !s.wheel.index.contains_key(id)
            &&& is_free(r, id)
        } by {
            let id = ids[k];
            assert(queued(q.advance(now), id));
            assert(waits(s, name, id));
            assert forall|n: Seq<char>| !#[trigger] waits(r, n, id) by {
                if n == name {
                    assert(!queued(after, id));
                } else if waits(r, n, id) {
                    assert(waits(s, n, id));
                }
            }
        }
    }
}

pub proof fn lemma_lease_exclusive(
    s: ShardView,
    name: Seq<char>,
    ids: Seq<u128>,
    receipts: Seq<Seq<char>>,
    expire_at: u64,
)
    requires
        exclusive(s),
        ids.no_duplicates(),
        forall|k: int|
            0 <= k < ids.len() ==> is_free(s, #[trigger] ids[k]) && s.seen.contains(ids[k]),
    ensures
        exclusive(s.lease(name, ids, receipts, expire_at).0),
        s.lease(name, ids, receipts, expire_at).0.seen == s.seen,
        forall|x: u128| !ids.contains(x) && is_free(s, x) ==> #[trigger] is_free(
            s.lease(name, ids, receipts, expire_at).0,
            x,
        ),
    decreases ids.len(),
{
    if ids.len() > 0 {
        let head = ids.drop_last();
        let id = ids.last();
        assert forall|k: int| 0 <= k < head.len() implies is_free(s, #[trigger] head[k])
            && s.seen.contains(head[k]) by {
            assert(head[k] == ids[k]);
        }
        assert forall|x: u128| head.contains(x) implies ids.contains(x) by {
            let j = choose|j: int| 0 <= j < head.len() && head[j] == x;
            assert(ids[j] == x);
        }
        assert(ids[ids.len() - 1] == id);
        assert(ids.contains(id));
        assert(!head.contains(id)) by {
            if head.contains(id) {
                let j = choose|j: int| 0 <= j < head.len() && head[j] == id;
                assert(ids[j] == ids[ids.len() - 1]);
            }
        }
        lemma_lease_exclusive(s, name, head, receipts, expire_at);
        let p = s.lease(name, head, receipts, expire_at).0;
        let r = s.lease(name, ids, receipts, expire_at).0;
        assert(is_free(p, id));
        if p.messages.contains_key(id) {
            let item = ItemView { id, queue: name, receipt: receipts[ids.len() - 1], expire_at };
            lemma_lease_single(p.wheel, item);
            assert forall|n: Seq<char>, x: u128| waits(r, n, x) == waits(p, n, x) by {}
            assert forall|n: Seq<char>, x: u128| #[trigger] waits(r, n, x) implies known(r, x)
                && !r.wheel.index.contains_key(x) by {
                assert(waits(p, n, x));
                assert(known(p, x));
            }
            assert forall|a: Seq<char>, b: Seq<char>, z: u128| #[trigger] waits(r, a, z)
                && #[trigger] waits(r, b, z) implies a == b by {
                assert(waits(p, a, z) && waits(p, b, z));
            }
            assert forall|x: u128| #[trigger] r.wheel.index.contains_key(x) implies known(r, x) by {
                if x != id {
                    assert(p.wheel.index.contains_key(x));
                }
            }
        }
        assert forall|x: u128| !ids.contains(x) && is_free(s, x) implies #[trigger] is_free(r, x) by {
            assert(!head.contains(x));
            assert(is_free(p, x));
            assert forall|n: Seq<char>| !#[trigger] waits(r, n, x) by {
                assert(!waits(p, n, x));
            }
        }
    }
}

/// Every shard of the engine is exclusive.
pub open spec fn all_exclusive(e: EngineView) -> bool {
    &&& e.inv()
    &&& forall|at: int| 0 <= at < NUM_SHARDS ==> exclusive(#[trigger] e.shards[at])
}

pub proof fn lemma_with_shard_exclusive(e: EngineView, queue: Seq<char>, s: ShardView)
    requires
        all_exclusive(e),
        exclusive(s),
        model::shard_holds(s, model::shard_of(queue)),
    ensures
        all_exclusive(e.with_shard(queue, s)),
{
    model::lemma_with_shard_inv(e, queue, s);
    model::lemma_shard_of_bound(queue);
}

proof fn lemma_unknown_is_free(s: ShardView, id: u128)
    requires
        exclusive(s),
        !known(s, id),
    ensures
        is_free(s, id),
{
    assert forall|name: Seq<char>| !#[trigger] waits(s, name, id) by {}
}

proof fn lemma_accept_exclusive(
    e: EngineView,
    queue: Seq<char>,
    id: u128,
    payload: Seq<u8>,
    visible_at: u64,
    now: u64,
)
    requires
        all_exclusive(e),
        !e.shard(queue).seen.contains(id),
    ensures
        all_exclusive(e.accept(queue, id, payload, visible_at, now)),
{
    model::lemma_shard_of_bound(queue);
    model::lemma_accept_inv(e, queue, id, payload, visible_at, now);
    let s = e.shard(queue);
    lemma_unknown_is_free(s, id);
    lemma_forget_exclusive(s, id);
    let n = s.mark_seen(id);
    assert(is_free(n, id)) by {
        assert forall|name: Seq<char>| !#[trigger] waits(n, name, id) by {
            assert(!waits(s, name, id));
        }
    }
    lemma_store_exclusive(n, e.fresh_msg(id, queue, payload, visible_at), now);
}

/// An engine with nothing in memory, a new one or one that was cleared, hands messages out
/// exclusively.
pub proof fn law_blank_engine_is_exclusive(e: EngineView)
    requires
        e.is_clear(),
    ensures
        all_exclusive(e),
{
    assert(single_leases(ShardView::empty().wheel));
    assert forall|at: int| 0 <= at < NUM_SHARDS implies exclusive(#[trigger] e.shards[at])
        && model::shard_holds(e.shards[at], at) by {
        let s = e.shards[at];
        assert(s == s.cleared());
        assert forall|name: Seq<char>, id: u128| !#[trigger] waits(s, name, id) by {}
    }
}

/// Pushes keep delivery exclusive, whatever ids they come with.
pub proof fn law_push_keeps_exclusive(
    e: EngineView,
    queue: Seq<char>,
    id: u128,
    payload: Seq<u8>,
    visible_at: u64,
    now: u64,
    post: EngineView,
)
    requires
        all_exclusive(e),
        e.pushes_to(queue, id, payload, visible_at, now, post),
    ensures
        all_exclusive(post),
{
    let logged = e.with_disk(e.disk.append_push(id, queue, visible_at, payload).flush());
    assert(all_exclusive(logged));
    if !e.shard(queue).seen.contains(id) {
        lemma_accept_exclusive(logged, queue, id, payload, visible_at, now);
    }
}

proof fn lemma_batch_exclusive(
    e: EngineView,
    queue: Seq<char>,
    ids: Seq<u128>,
    items: Seq<crate::engine::model::PushView>,
    now: u64,
)
    requires
        all_exclusive(e),
    ensures
        all_exclusive(e.batch(queue, ids, items, now)),
    decreases ids.len(),
{
    if ids.len() > 0 {
        lemma_batch_exclusive(e, queue, ids.drop_last(), items, now);
        let b = e.batch(queue, ids.drop_last(), items, now);
        let k = ids.len() - 1;
        if !b.shard(queue).seen.contains(ids[k]) {
            let visible_at = (now + items[k].delay_seconds) as u64;
            let logged = b.with_disk(
                b.disk.append_push(ids[k], queue, visible_at, items[k].payload),
            );
            assert(all_exclusive(logged));
            lemma_accept_exclusive(logged, queue, ids[k], items[k].payload, visible_at, now);
        }
    }
}

/// Pushes of batches keep delivery exclusive.
pub proof fn law_batch_push_keeps_exclusive(
    e: EngineView,
    queue: Seq<char>,
    ids: Seq<u128>,
    items: Seq<crate::engine::model::PushView>,
    now: u64,
    post: EngineView,
)
    requires
        all_exclusive(e),
        e.batch_pushes_to(queue, ids, items, now, post),
    ensures
        all_exclusive(post),
{
    lemma_batch_exclusive(e, queue, ids, items, now);
    let pushed = e.batch(queue, ids, items, now);
    let flushed = pushed.with_disk(pushed.disk.flush());
    assert(all_exclusive(flushed));
}

proof fn lemma_page_record_exclusive(e: EngineView, record: RecordView, now: u64)
    requires
        all_exclusive(e),
    ensures
        all_exclusive(e.page_record(record, now)),
{
    model::lemma_page_record_inv(e, record, now);
    match record {
        RecordView::Push { msg_id, queue_name, visible_at, payload } => {
            model::lemma_shard_of_bound(queue_name);
            let s = e.shard(queue_name);
            if e.pages_in(record, now) {
                lemma_unknown_is_free(s, msg_id);
                lemma_forget_exclusive(s, msg_id);
                let n = s.mark_seen(msg_id);
                assert(is_free(n, msg_id)) by {
                    assert forall|name: Seq<char>| !#[trigger] waits(n, name, msg_id) by {
                        assert(!waits(s, name, msg_id));
                    }
                }
                lemma_store_exclusive(n, e.fresh_msg(msg_id, queue_name, payload, visible_at), now);
            }
        },
        RecordView::Ack { msg_id, queue_name } => {
            model::lemma_shard_of_bound(queue_name);
            lemma_apply_ack_exclusive(e.shard(queue_name), queue_name, msg_id);
        },
    }
}

/// Paging in messages from disk keeps delivery exclusive.
pub proof fn law_paging_keeps_exclusive(e: EngineView, records: Seq<RecordView>, now: u64)
    requires
        all_exclusive(e),
    ensures
        all_exclusive(e.page_records(records, now)),
    decreases records.len(),
{
    if records.len() > 0 {
        law_paging_keeps_exclusive(e, records.drop_last(), now);
        lemma_page_record_exclusive(
            e.page_records(records.drop_last(), now),
            records.last(),
            now,
        );
    }
}

/// A poll hands out every message once, and none on which a lease runs; and it keeps
/// delivery exclusive.
pub proof fn law_poll_is_exclusive(
    e: EngineView,
    queue: Seq<char>,
    now: u64,
    max: nat,
    receipts: Seq<Seq<char>>,
    expire_at: u64,
)
    requires
        all_exclusive(e),
    ensures
        ({
            let (claimed, ids) = e.claim(queue, now, max);
            &&& ids.no_duplicates()
            &&& forall|k: int, receipt: Seq<char>|
                0 <= k < ids.len() ==> !#[trigger] e.leased(queue, ids[k], receipt)
            &&& all_exclusive(claimed)
            &&& all_exclusive(claimed.lease(queue, ids, receipts, expire_at).0)
        }),
{
    model::lemma_shard_of_bound(queue);
    model::lemma_claim_inv(e, queue, now, max);
    let s = e.shard(queue);
    lemma_claim_exclusive(s, queue, now, max);
    let (c, ids) = s.claim(queue, now, max);
    let claimed = e.claim(queue, now, max).0;
    assert(claimed.shard(queue) == c);
    model::lemma_lease_inv(claimed, queue, ids, receipts, expire_at);
    assert forall|k: int| 0 <= k < ids.len() implies is_free(c, #[trigger] ids[k]) && c.seen.contains(
        ids[k],
    ) by {
        assert(known(s, ids[k]));
    }
    lemma_lease_exclusive(c, queue, ids, receipts, expire_at);
}

proof fn lemma_route_exclusive(e: EngineView, msg: MsgView, now: u64)
    requires
        all_exclusive(e),
        e.shard(msg.queue).seen.contains(msg.id),
        is_free(e.shard(msg.queue), msg.id),
        msg.delivery_count >= msg.max_delivery ==> is_free(
            e.shard(model::dlq_name(msg.queue)),
            msg.id,
        ),
    ensures
        all_exclusive(e.route(msg, now)),
        forall|at: int, x: u128|
            0 <= at < NUM_SHARDS && x != msg.id && is_free(#[trigger] e.shards[at], x)
                ==> #[trigger] is_free(e.route(msg, now).shards[at], x),
{
    model::lemma_shard_of_bound(msg.queue);
    model::lemma_route_inv(e, msg, now);
    let s = e.shard(msg.queue);
    let post = e.route(msg, now);
    if msg.delivery_count >= msg.max_delivery {
        let dead = model::dlq_name(msg.queue);
        model::lemma_shard_of_bound(dead);
        lemma_forget_exclusive(s, msg.id);
        let m = s.mark_acked(msg.id);
        assert forall|name: Seq<char>, x: u128| waits(m, name, x) == waits(s, name, x) by {}
        lemma_tombstone_exclusive(m, msg.queue, msg.id);
        let t = m.tombstone(msg.queue, msg.id);
        let given_up = e.with_disk(e.log_dead_letter(msg, now)).with_shard(msg.queue, t);
        assert forall|x: u128| is_free(s, x) implies #[trigger] is_free(t, x) by {
            assert forall|name: Seq<char>| !#[trigger] waits(t, name, x) by {
                if waits(t, name, x) {
                    assert(waits(m, name, x));
                    assert(waits(s, name, x));
                }
            }
        }
        let d = given_up.shard(dead);
        assert(exclusive(d) && is_free(d, msg.id));
        lemma_forget_exclusive(d, msg.id);
        let n = d.mark_seen(msg.id);
        assert forall|name: Seq<char>, x: u128| waits(n, name, x) == waits(d, name, x) by {}
        assert forall|x: u128| is_free(d, x) implies #[trigger] is_free(n, x) by {
            assert forall|name: Seq<char>| !#[trigger] waits(n, name, x) by {
                assert(!waits(d, name, x));
            }
        }
        lemma_store_exclusive(n, MsgView { queue: dead, visible_at: now, ..msg }, now);
        assert forall|at: int, x: u128|
            0 <= at < NUM_SHARDS && x != msg.id && is_free(#[trigger] e.shards[at], x) implies #[trigger] is_free(
            post.shards[at],
            x,
        ) by {
            assert(is_free(given_up.shards[at], x));
            if at == model::shard_of(dead) {
                assert(is_free(n, x));
            }
        }
    } else {
        lemma_store_exclusive(s, MsgView { visible_at: now, ..msg }, now);
    }
}

proof fn lemma_route_all_exclusive(e: EngineView, msgs: Seq<MsgView>, now: u64)
    requires
        all_exclusive(e),
        forall|i: int, j: int|
            0 <= i < j < msgs.len() ==> (#[trigger] msgs[i]).id != (#[trigger] msgs[j]).id,
        forall|k: int|
            0 <= k < msgs.len() ==> {
                let msg = #[trigger] msgs[k];
                &&& e.shard(msg.queue).seen.contains(msg.id)
                &&& is_free(e.shard(msg.queue), msg.id)
                &&& msg.delivery_count >= msg.max_delivery ==> is_free(
                    e.shard(model::dlq_name(msg.queue)),
                    msg.id,
                )
            },
    ensures
        all_exclusive(e.route_all(msgs, now)),
        forall|at: int, x: u128|
            0 <= at < NUM_SHARDS && is_free(#[trigger] e.shards[at], x) && (forall|k: int|
                0 <= k < msgs.len() ==> (#[trigger] msgs[k]).id != x) ==> #[trigger] is_free(
                e.route_all(msgs, now).shards[at],
                x,
            ),
    decreases msgs.len(),
{
    if msgs.len() > 0 {
        let head = msgs.drop_last();
        let last = msgs[msgs.len() - 1];
        assert forall|k: int| 0 <= k < head.len() implies {
            let msg = #[trigger] head[k];
            &&& e.shard(msg.queue).seen.contains(msg.id)
            &&& is_free(e.shard(msg.queue), msg.id)
            &&& msg.delivery_count >= msg.max_delivery ==> is_free(
                e.shard(model::dlq_name(msg.queue)),
                msg.id,
            )
        } by {
            assert(head[k] == msgs[k]);
        }
        assert forall|i: int, j: int| 0 <= i < j < head.len() implies (#[trigger] head[i]).id != (
        #[trigger] head[j]).id by {
            assert(head[i] == msgs[i] && head[j] == msgs[j]);
        }
        lemma_route_all_exclusive(e, head, now);
        model::lemma_route_all_inv(e, head, now);
        let p = e.route_all(head, now);
        model::lemma_shard_of_bound(last.queue);
        model::lemma_shard_of_bound(model::dlq_name(last.queue));
        assert forall|k: int| 0 <= k < head.len() implies (#[trigger] head[k]).id != last.id by {
            assert(msgs[k].id != msgs[msgs.len() - 1].id);
        }
        let at = model::shard_of(last.queue);
        let dead = model::shard_of(model::dlq_name(last.queue));
        assert(is_free(e.shards[at], last.id) && is_free(p.shards[at], last.id));
        assert(e.shards[at].seen.contains(last.id));
        assert(p.shards[at].seen.contains(last.id));
        assert(is_free(e.shards[dead], last.id) ==> is_free(p.shards[dead], last.id));
        lemma_route_exclusive(p, last, now);
        assert forall|a: int, x: u128|
            0 <= a < NUM_SHARDS && is_free(#[trigger] e.shards[a], x) && (forall|k: int|
                0 <= k < msgs.len() ==> (#[trigger] msgs[k]).id != x) implies #[trigger] is_free(
            e.route_all(msgs, now).shards[a],
            x,
        ) by {
            assert forall|k: int| 0 <= k < head.len() implies (#[trigger] head[k]).id != x by {
                assert(head[k] == msgs[k]);
            }
            assert(is_free(p.shards[a], x));
            assert(last.id != x);
        }
    }
}

/// Ending the leases that ran out keeps delivery exclusive, as long as a message that goes
/// to a dead letter queue in another shard is not known there under the same id.
pub proof fn law_expiry_keeps_exclusive(e: EngineView, queue: Seq<char>, now: u64)
    requires
        all_exclusive(e),
        forall|at: int, id: u128|
            0 <= at < NUM_SHARDS && at != model::shard_of(queue) && e.shard(
                queue,
            ).messages.contains_key(id) ==> !#[trigger] known(e.shards[at], id),
    ensures
        all_exclusive(e.expire(queue, now)),
{
    model::lemma_shard_of_bound(queue);
    let home = model::shard_of(queue);
    let s = e.shard(queue);
    lemma_take_expired_exclusive(s, home, now);
    model::lemma_take_expired(s, home, now);
    let (r, taken) = s.take_expired(now);
    let cleared = e.with_shard(queue, r);
    lemma_with_shard_exclusive(e, queue, r);
    assert forall|k: int| 0 <= k < taken.len() implies {
        let msg = #[trigger] taken[k];
        &&& cleared.shard(msg.queue).seen.contains(msg.id)
        &&& is_free(cleared.shard(msg.queue), msg.id)
        &&& msg.delivery_count >= msg.max_delivery ==> is_free(
            cleared.shard(model::dlq_name(msg.queue)),
            msg.id,
        )
    } by {
        let msg = taken[k];
        let dead = model::shard_of(model::dlq_name(msg.queue));
        model::lemma_shard_of_bound(model::dlq_name(msg.queue));
        assert(is_free(r, msg.id));
        if dead != home {
            assert(cleared.shards[dead] == e.shards[dead]);
            assert(!known(e.shards[dead], msg.id));
            lemma_unknown_is_free(e.shards[dead], msg.id);
        }
    }
    lemma_route_all_exclusive(cleared, taken, now);
}

/// Acknowledgements keep delivery exclusive, by receipt or from elsewhere.
pub proof fn law_ack_keeps_exclusive(
    e: EngineView,
    queue: Seq<char>,
    id: u128,
    receipt: Seq<char>,
)
    requires
        all_exclusive(e),
    ensures
        all_exclusive(e.apply_ack(queue, id)),
        e.leased(queue, id, receipt) ==> all_exclusive(e.ack_lease(queue, id)),
{
    model::lemma_shard_of_bound(queue);
    model::lemma_ack_inv(e, queue, id);
    lemma_apply_ack_exclusive(e.shard(queue), queue, id);
    if e.leased(queue, id, receipt) {
        lemma_ack_lease_exclusive(e.shard(queue), queue, id);
    }
}

/// Recovery leads to exclusive delivery, whatever the log holds.
pub proof fn law_recovery_is_exclusive(e: EngineView, records: Seq<RecordView>)
    requires
        all_exclusive(e),
    ensures
        all_exclusive(e.replay(records)),
    decreases records.len(),
{
    if records.len() > 0 {
        let head = records.drop_last();
        let last = records[records.len() - 1];
        law_recovery_is_exclusive(e, head);
        let p = e.replay(head);
        model::lemma_replay_record_inv(p, last);
        match last {
            RecordView::Push { msg_id, queue_name, visible_at, payload } if !p.shard(
                queue_name,
            ).seen.contains(msg_id) => {
                model::lemma_shard_of_bound(queue_name);
                let s = p.shard(queue_name);
                lemma_unknown_is_free(s, msg_id);
                lemma_forget_exclusive(s, msg_id);
                let n = s.mark_seen(msg_id);
                assert(is_free(n, msg_id)) by {
                    assert forall|name: Seq<char>| !#[trigger] waits(n, name, msg_id) by {
                        assert(!waits(s, name, msg_id));
                    }
                }
                lemma_store_exclusive(
                    n,
                    p.fresh_msg(msg_id, queue_name, payload, visible_at),
                    p.base_epoch_sec,
                );
            },
            RecordView::Push { .. } => {},
            RecordView::Ack { msg_id, queue_name } => {
                model::lemma_shard_of_bound(queue_name);
                lemma_apply_ack_exclusive(p.shard(queue_name), queue_name, msg_id);
            },
        }
    }
}

}
