//! What bringing a queue to the present does to it: the ids whose time has come join the ready
//! ones, and the others stay where they are.
use vstd::prelude::*;

use crate::engine::exclusive;
use crate::engine::histories;
use crate::engine::laws;
use crate::engine::single_queue;
use crate::engine::single_queue::{FarFutureItem, QueueView, HOT_DELAY_HORIZON_SEC};

verus! {

/// The id is filed under this second, in its bucket or in the far future.
pub open spec fn filed_under(q: QueueView, id: u128, sec: u64) -> bool {
    ||| q.hot.contains_key(sec) && q.hot[sec].contains(id)
    ||| q.far.contains(FarFutureItem { id, visible_at: sec })
}

/// The id is filed under a second that has come.
pub open spec fn is_due(q: QueueView, id: u128, now: u64) -> bool {
    exists|sec: u64| sec <= now && #[trigger] filed_under(q, id, sec)
}

proof fn lemma_settle_appends(q: QueueView, ids: Seq<u128>)
    ensures
        q.ready.is_prefix_of(q.settle(ids).ready),
    decreases ids.len(),
{
    if ids.len() > 0 {
        lemma_settle_appends(q, ids.drop_last());
        let p = q.settle(ids.drop_last());
        let r = q.settle(ids);
        assert(p.ready.take(q.ready.len() as int) =~= r.ready.take(q.ready.len() as int));
        assert forall|i: int| 0 <= i < q.ready.len() implies q.ready[i] == r.ready[i] by {
            assert(p.ready.subrange(0, q.ready.len() as int)[i] == q.ready[i]);
        }
        assert(q.ready =~= r.ready.subrange(0, q.ready.len() as int));
    } else {
        assert(q.ready =~= q.ready.subrange(0, q.ready.len() as int));
    }
}

proof fn lemma_drain_appends(q: QueueView, now: u64)
    requires
        q.hot.dom().finite(),
    ensures
        q.ready.is_prefix_of(q.drain(now).ready),
    decreases q.hot.dom().len(),
{
    if exists|sec: u64| single_queue::is_next_due(q.hot, now, sec) {
        let due = choose|sec: u64| single_queue::is_next_due(q.hot, now, sec);
        let r = QueueView { hot: q.hot.remove(due), ..q.settle(q.hot[due]) };
        lemma_settle_appends(q, q.hot[due]);
        lemma_drain_appends(r, now);
        let d = q.drain(now);
        assert(d == r.drain(now));
        assert(q.ready =~= d.ready.subrange(0, q.ready.len() as int)) by {
            assert forall|i: int| 0 <= i < q.ready.len() implies q.ready[i] == d.ready[i] by {
                assert(r.ready.subrange(0, q.ready.len() as int)[i] == q.ready[i]);
                assert(d.ready.subrange(0, r.ready.len() as int)[i] == r.ready[i]);
            }
        }
    } else {
        assert(q.ready =~= q.ready.subrange(0, q.ready.len() as int));
    }
}

proof fn lemma_settle_tombstoned(q: QueueView, ids: Seq<u128>, x: u128)
    requires
        q.deleted.contains(x),
        !q.ready.contains(x),
        ids.no_duplicates(),
    ensures
        !q.settle(ids).ready.contains(x),
        !ids.contains(x) ==> q.settle(ids).deleted.contains(x),
    decreases ids.len(),
{
    if ids.len() > 0 {
        let head = ids.drop_last();
        let last = ids[ids.len() - 1];
        assert forall|i: int, j: int| 0 <= i < head.len() && 0 <= j < head.len() && i
            != j implies head[i] != head[j] by {
            assert(ids[i] != ids[j]);
        }
        lemma_settle_tombstoned(q, head, x);
        let p = q.settle(head);
        let r = q.settle(ids);
        if head.contains(x) {
            let i = choose|i: int| 0 <= i < head.len() && head[i] == x;
            assert(ids[i] != ids[ids.len() - 1]);
            assert(ids[i] == x);
        } else {
            assert(ids.contains(last));
        }
        if r.ready.contains(x) {
            let i = choose|i: int| 0 <= i < r.ready.len() && r.ready[i] == x;
            if i < p.ready.len() {
                assert(p.ready[i] == x);
            }
            assert(false);
        }
    }
}

proof fn lemma_drain_tombstoned(q: QueueView, now: u64, x: u128)
    requires
        q.hot.dom().finite(),
        q.deleted.contains(x),
        !q.ready.contains(x),
        forall|sec: u64| #[trigger] q.hot.contains_key(sec) ==> q.hot[sec].no_duplicates(),
        forall|a: u64, b: u64|
            #![trigger q.hot[a].contains(x), q.hot[b].contains(x)]
            q.hot.contains_key(a) && q.hot.contains_key(b) && q.hot[a].contains(x)
                && q.hot[b].contains(x) ==> a == b,
    ensures
        !q.drain(now).ready.contains(x),
    decreases q.hot.dom().len(),
{
    if exists|sec: u64| single_queue::is_next_due(q.hot, now, sec) {
        let due = choose|sec: u64| single_queue::is_next_due(q.hot, now, sec);
        let bucket = q.hot[due];
        lemma_settle_tombstoned(q, bucket, x);
        let r = QueueView { hot: q.hot.remove(due), ..q.settle(bucket) };
        assert(q.drain(now) == r.drain(now));
        assert forall|sec: u64| #[trigger] r.hot.contains_key(sec) implies q.hot.contains_key(sec)
            && r.hot[sec] == q.hot[sec] && sec != due by {}
        assert forall|a: u64, b: u64|
            #![trigger r.hot[a].contains(x), r.hot[b].contains(x)]
            r.hot.contains_key(a) && r.hot.contains_key(b) && r.hot[a].contains(x)
                && r.hot[b].contains(x) implies a == b by {
            assert(q.hot[a].contains(x) && q.hot[b].contains(x));
        }
        if bucket.contains(x) {
            laws::lemma_drain_ready(r, now);
            if r.drain(now).ready.contains(x) {
                let sec = choose|sec: u64| #[trigger]
                    r.hot.contains_key(sec) && sec <= now && r.hot[sec].contains(x);
                assert(q.hot[sec].contains(x) && q.hot[due].contains(x));
            }
        } else {
            lemma_drain_tombstoned(r, now, x);
        }
    }
}

proof fn lemma_promote_keeps_filed(q: QueueView, items: Seq<FarFutureItem>, now: u64, k: int)
    requires
        0 <= k < items.len(),
        !q.deleted.contains(items[k].id),
    ensures
        filed_under(q.promote(items, now), items[k].id, items[k].visible_at),
    decreases items.len(),
{
    let r = q.promote(items, now);
    let item = items[k];
    if item.visible_at <= now + HOT_DELAY_HORIZON_SEC {
        laws::lemma_promote_reaches(q, items, now, k);
    } else if k < items.len() - 1 {
        let head = items.drop_last();
        let p = q.promote(head, now);
        assert(head[k] == item);
        lemma_promote_keeps_filed(q, head, now, k);
        if p.hot.contains_key(item.visible_at) && p.hot[item.visible_at].contains(item.id) {
            let s = p.hot[item.visible_at];
            let i = choose|i: int| 0 <= i < s.len() && s[i] == item.id;
            assert(r.hot.contains_key(item.visible_at) && r.hot[item.visible_at][i] == item.id);
            assert(r.hot[item.visible_at].contains(item.id));
        } else {
            assert(p.far.contains(item));
            let i = choose|i: int| 0 <= i < p.far.len() && p.far[i] == item;
            assert(r.far[i] == item);
        }
    } else {
        assert(r.far[r.far.len() - 1] == item);
    }
}

/// Bringing a queue to the present leaves what was ready in front, in its order, and puts
/// behind it the ids whose second has come and that have no tombstone, each once, and no
/// others. What is filed under a later second, and has no tombstone, stays filed under it.
pub proof fn law_advance_appends_what_is_due(q: QueueView, now: u64)
    requires
        exclusive::once(q),
        now >= q.last_drained_sec,
    ensures
        ({
            let a = q.advance(now);
            let n = q.ready.len() as int;
            &&& n <= a.ready.len()
            &&& a.ready.take(n) == q.ready
            &&& a.ready.no_duplicates()
            &&& forall|x: u128| #[trigger]
                a.ready.skip(n).contains(x) <==> is_due(q, x, now) && !q.deleted.contains(x)
            &&& forall|x: u128, sec: u64|
                sec > now && #[trigger] filed_under(q, x, sec) && !q.deleted.contains(x)
                    ==> filed_under(a, x, sec)
        }),
{
    let p = q.promote(q.far, now);
    let a = q.advance(now);
    let n = q.ready.len() as int;
    exclusive::lemma_advance_once(q, now);
    exclusive::lemma_promote_far_once(q, now);
    laws::lemma_promote_hot(q, q.far, now);
    laws::lemma_drain_ready(p, now);
    laws::lemma_drain_hot(p, now);
    histories::lemma_drain_keeps(p, now);
    lemma_drain_appends(p, now);
    assert(a.ready == p.drain(now).ready);
    assert(a.ready.take(n) =~= a.ready.subrange(0, n));
    assert forall|x: u128| #[trigger] a.ready.skip(n).contains(x) implies is_due(q, x, now)
        && !q.deleted.contains(x) by {
        let rest = a.ready.skip(n);
        let i = choose|i: int| 0 <= i < rest.len() && rest[i] == x;
        assert(a.ready[n + i] == x);
        assert(!q.ready.contains(x)) by {
            if q.ready.contains(x) {
                let j = choose|j: int| 0 <= j < n && q.ready[j] == x;
                assert(a.ready.take(n)[j] == x);
                assert(a.ready[j] == a.ready[n + i]);
            }
        }
        assert(p.drain(now).ready.contains(x));
        let sec = choose|sec: u64| #[trigger]
            p.hot.contains_key(sec) && sec <= now && p.hot[sec].contains(x);
        assert(p.hot[sec].contains(x));
        if !(q.hot.contains_key(sec) && q.hot[sec].contains(x)) {
            let k = choose|k: int|
                0 <= k < q.far.len() && (#[trigger] q.far[k]).id == x && q.far[k].visible_at == sec;
            assert(q.far[k] == (FarFutureItem { id: x, visible_at: sec }));
        }
        assert(filed_under(q, x, sec));
        if q.deleted.contains(x) {
            assert forall|s: u64, t: u64|
                #![trigger p.hot[s].contains(x), p.hot[t].contains(x)]
                p.hot.contains_key(s) && p.hot.contains_key(t) && p.hot[s].contains(x)
                    && p.hot[t].contains(x) implies s == t by {}
            lemma_drain_tombstoned(p, now, x);
        }
    }
    assert forall|x: u128| is_due(q, x, now) && !q.deleted.contains(
        x,
    ) implies #[trigger] a.ready.skip(n).contains(x) by {
        let sec = choose|sec: u64| sec <= now && #[trigger] filed_under(q, x, sec);
        if q.hot.contains_key(sec) && q.hot[sec].contains(x) {
            assert(exclusive::in_hot(q.hot, x));
        } else {
            let k = choose|k: int|
                0 <= k < q.far.len() && q.far[k] == (FarFutureItem { id: x, visible_at: sec });
            assert(q.far[k].id == x);
            assert(exclusive::in_far(q.far, x));
            laws::lemma_promote_reaches(q, q.far, now, k);
        }
        assert(!q.ready.contains(x));
        assert(p.hot[sec].contains(x));
        assert(p.drain(now).ready.contains(x));
        let i = choose|i: int| 0 <= i < a.ready.len() && a.ready[i] == x;
        if i < n {
            assert(a.ready.take(n)[i] == x);
            assert(q.ready[i] == x);
        }
        assert(a.ready.skip(n)[i - n] == x);
    }
    assert forall|x: u128, sec: u64|
        sec > now && #[trigger] filed_under(q, x, sec) && !q.deleted.contains(x) implies filed_under(
        a,
        x,
        sec,
    ) by {
        if !(q.hot.contains_key(sec) && q.hot[sec].contains(x)) {
            let k = choose|k: int|
                0 <= k < q.far.len() && q.far[k] == (FarFutureItem { id: x, visible_at: sec });
            lemma_promote_keeps_filed(q, q.far, now, k);
        } else {
            assert(q.hot[sec].contains(x));
        }
        assert(filed_under(p, x, sec));
        assert(p.drain(now).far == p.far);
    }
}

}
