//! One named queue: a FIFO of ready messages, delay buckets, and a far-future schedule.
use std::collections::{HashMap, HashSet, VecDeque};
use vstd::prelude::*;

verus! {

broadcast use vstd::std_specs::hash::group_hash_axioms;

/// How far ahead delayed messages are kept in buckets: five minutes.
pub const HOT_DELAY_HORIZON_SEC: u64 = 300;

/// A delayed message beyond the horizon.
#[derive(Debug, Clone, Copy)]
pub struct FarFutureItem {
    pub id: u128,
    pub visible_at: u64,
}

/// The mathematical content of a [`SingleQueue`].
#[verifier::ext_equal]
pub struct QueueView {
    pub ready: Seq<u128>,
    pub hot: Map<u64, Seq<u128>>,
    pub far: Seq<FarFutureItem>,
    pub deleted: Set<u128>,
    pub last_drained_sec: u64,
}

/// A bucket with one more id in it.
pub open spec fn with_bucketed(hot: Map<u64, Seq<u128>>, sec: u64, id: u128) -> Map<u64, Seq<u128>> {
    if hot.contains_key(sec) {
        hot.insert(sec, hot[sec].push(id))
    } else {
        hot.insert(sec, seq![id])
    }
}

/// `sec` is the earliest bucket that is due at `now`.
pub open spec fn is_next_due(hot: Map<u64, Seq<u128>>, now: u64, sec: u64) -> bool {
    &&& hot.contains_key(sec)
    &&& sec <= now
    &&& forall|other: u64| #[trigger] hot.contains_key(other) ==> sec <= other
}

impl QueueView {
    pub open spec fn empty(now: u64) -> QueueView {
        QueueView {
            ready: Seq::empty(),
            hot: Map::empty(),
            far: Seq::empty(),
            deleted: Set::empty(),
            last_drained_sec: now,
        }
    }

    pub open spec fn insert(self, id: u128, visible_at: u64, now: u64) -> QueueView {
        let q = QueueView { deleted: self.deleted.remove(id), ..self };
        if visible_at <= now {
            QueueView { ready: q.ready.push(id), ..q }
        } else if visible_at <= now + HOT_DELAY_HORIZON_SEC {
            QueueView { hot: with_bucketed(q.hot, visible_at, id), ..q }
        } else {
            QueueView { far: q.far.push(FarFutureItem { id, visible_at }), ..q }
        }
    }

    pub open spec fn mark_deleted(self, id: u128) -> QueueView {
        if self.ready.len() > 0 && self.ready[0] == id {
            QueueView { ready: self.ready.drop_first(), ..self }
        } else {
            QueueView { deleted: self.deleted.insert(id), ..self }
        }
    }

    pub open spec fn ready_len(self) -> nat {
        if self.ready.len() >= self.deleted.len() {
            (self.ready.len() - self.deleted.len()) as nat
        } else {
            0
        }
    }

    /// Puts the far-future items in `items` that the horizon has reached into the bucket of
    /// their second, and keeps the others. Tombstoned items are dropped.
    pub open spec fn promote(self, items: Seq<FarFutureItem>, now: u64) -> QueueView
        decreases items.len(),
    {
        if items.len() == 0 {
            QueueView { far: Seq::empty(), ..self }
        } else {
            let q = self.promote(items.drop_last(), now);
            let item = items.last();
            if self.deleted.contains(item.id) {
                q
            } else if item.visible_at <= now + HOT_DELAY_HORIZON_SEC {
                QueueView {
                    hot: with_bucketed(q.hot, item.visible_at, item.id),
                    ..q
                }
            } else {
                QueueView { far: q.far.push(item), ..q }
            }
        }
    }

    /// Makes the ids of a bucket ready, except those with a tombstone, which is used up.
    pub open spec fn settle(self, ids: Seq<u128>) -> QueueView
        decreases ids.len(),
    {
        if ids.len() == 0 {
            self
        } else {
            let q = self.settle(ids.drop_last());
            let id = ids.last();
            if q.deleted.contains(id) {
                QueueView { deleted: q.deleted.remove(id), ..q }
            } else {
                QueueView { ready: q.ready.push(id), ..q }
            }
        }
    }

    /// Empties the buckets that are due, the earliest first.
    pub open spec fn drain(self, now: u64) -> QueueView
        decreases self.hot.dom().len(),
        when self.hot.dom().finite()
    {
        if exists|sec: u64| is_next_due(self.hot, now, sec) {
            let sec = choose|sec: u64| is_next_due(self.hot, now, sec);
            QueueView { hot: self.hot.remove(sec), ..self.settle(self.hot[sec]) }.drain(now)
        } else {
            self
        }
    }

    /// The queue at `now`; a clock that went back changes nothing.
    pub open spec fn advance(self, now: u64) -> QueueView {
        if now < self.last_drained_sec {
            self
        } else {
            QueueView { last_drained_sec: now, ..self.promote(self.far, now).drain(now) }
        }
    }

    /// Takes the first ready id without a tombstone. Where none is left, all tombstones
    /// are cleared.
    pub open spec fn pop(self) -> (QueueView, Option<u128>)
        decreases self.ready.len(),
    {
        if self.ready.len() == 0 {
            (QueueView { deleted: Set::empty(), ..self }, None)
        } else {
            let id = self.ready[0];
            let q = QueueView { ready: self.ready.drop_first(), ..self };
            if self.deleted.contains(id) {
                QueueView { deleted: q.deleted.remove(id), ..q }.pop()
            } else {
                (q, Some(id))
            }
        }
    }

    /// Takes up to `max` ready ids.
    pub open spec fn claim(self, max: nat) -> (QueueView, Seq<u128>)
        decreases max,
    {
        if max == 0 {
            (self, Seq::empty())
        } else {
            let (q, id) = self.pop();
            match id {
                None => (q, Seq::empty()),
                Some(id) => {
                    let (rest, ids) = q.claim((max - 1) as nat);
                    (rest, seq![id] + ids)
                },
            }
        }
    }
}

/// Settling a bucket does not depend on the other buckets.
pub proof fn lemma_settle_frame(q: QueueView, hot: Map<u64, Seq<u128>>, ids: Seq<u128>)
    ensures
        (QueueView { hot, ..q }).settle(ids) == (QueueView { hot, ..q.settle(ids) }),
    decreases ids.len(),
{
    if ids.len() > 0 {
        lemma_settle_frame(q, hot, ids.drop_last());
    }
}

proof fn lemma_promote_frame(q: QueueView, items: Seq<FarFutureItem>, now: u64)
    ensures
        q.promote(items, now).deleted == q.deleted,
        q.promote(items, now).ready == q.ready,
        q.promote(items, now).last_drained_sec == q.last_drained_sec,
        q.hot.dom().finite() ==> q.promote(items, now).hot.dom().finite(),
    decreases items.len(),
{
    if items.len() > 0 {
        lemma_promote_frame(q, items.drop_last(), now);
    }
}

/// A queue with tombstones for what was acknowledged before it became ready.
pub struct SingleQueue {
    ready: VecDeque<u128>,
    hot_delay_buckets: HashMap<u64, Vec<u128>>,
    far_future: Vec<FarFutureItem>,
    deleted: HashSet<u128>,
    last_drained_sec: u64,
}

pub open spec fn bucket_views(buckets: Map<u64, Vec<u128>>) -> Map<u64, Seq<u128>> {
    buckets.map_values(|v: Vec<u128>| v@)
}

impl View for SingleQueue {
    type V = QueueView;

    closed spec fn view(&self) -> QueueView {
        QueueView {
            ready: self.ready@,
            hot: bucket_views(self.hot_delay_buckets@),
            far: self.far_future@,
            deleted: self.deleted@,
            last_drained_sec: self.last_drained_sec,
        }
    }
}

fn put_in_bucket(buckets: &mut HashMap<u64, Vec<u128>>, sec: u64, id: u128)
    ensures
        bucket_views(final(buckets)@) == with_bucketed(bucket_views(old(buckets)@), sec, id),
{
    let mut bucket: Vec<u128> = match buckets.remove(&sec) {
        Some(bucket) => bucket,
        None => Vec::new(),
    };
    bucket.push(id);
    buckets.insert(sec, bucket);
    proof {
        assert(bucket_views(buckets@) =~~= with_bucketed(bucket_views(old(buckets)@), sec, id));
    }
}

impl SingleQueue {
    /// A queue holds finitely many buckets.
    pub proof fn lemma_finite(&self)
        ensures
            self@.hot.dom().finite(),
    {
        assert(self.hot_delay_buckets@.dom().finite());
        assert(self@.hot.dom() =~= self.hot_delay_buckets@.dom());
    }

    pub fn new(now_sec: u64) -> (res: Self)
        ensures
            res@ == QueueView::empty(now_sec),
    {
        let res = SingleQueue {
            ready: VecDeque::new(),
            hot_delay_buckets: HashMap::new(),
            far_future: Vec::new(),
            deleted: HashSet::new(),
            last_drained_sec: now_sec,
        };
        proof {
            assert(res@ =~~= QueueView::empty(now_sec));
        }
        res
    }

    /// Files a message under ready, under the bucket of its second, or under the far future.
    pub fn insert(&mut self, id: u128, visible_at: u64, now_sec: u64)
        requires
            now_sec + HOT_DELAY_HORIZON_SEC <= u64::MAX,
        ensures
            final(self)@ == old(self)@.insert(id, visible_at, now_sec),
    {
        self.deleted.remove(&id);
        if visible_at <= now_sec {
            self.ready.push_back(id);
        } else if visible_at <= now_sec + HOT_DELAY_HORIZON_SEC {
            put_in_bucket(&mut self.hot_delay_buckets, visible_at, id);
        } else {
            self.far_future.push(FarFutureItem { id, visible_at });
        }
        proof {
            assert(self@ =~~= old(self)@.insert(id, visible_at, now_sec));
        }
    }

    /// Drops a message: from the front if it is there, else by a tombstone.
    pub fn mark_deleted(&mut self, id: u128)
        ensures
            final(self)@ == old(self)@.mark_deleted(id),
    {
        if self.ready.len() > 0 && self.ready[0] == id {
            self.ready.pop_front();
            proof {
                assert(self@ =~~= old(self)@.mark_deleted(id));
            }
        } else {
            self.deleted.insert(id);
            proof {
                assert(self@ =~~= old(self)@.mark_deleted(id));
            }
        }
    }

    pub fn ready_len(&self) -> (n: usize)
        ensures
            n == self@.ready_len(),
    {
        self.ready.len().saturating_sub(self.deleted.len())
    }

    fn promote_far_future(&mut self, now_sec: u64)
        requires
            now_sec + HOT_DELAY_HORIZON_SEC <= u64::MAX,
        ensures
            final(self)@ == old(self)@.promote(old(self)@.far, now_sec),
    {
        let horizon_limit: u64 = now_sec + HOT_DELAY_HORIZON_SEC;
        let mut items: Vec<FarFutureItem> = Vec::new();
        std::mem::swap(&mut items, &mut self.far_future);
        let ghost all = items@;
        let mut i: usize = 0;
        proof {
            assert(all.take(0) =~= Seq::empty());
            assert(self@ =~~= old(self)@.promote(all.take(0), now_sec));
        }
        while i < items.len()
            invariant
                i <= items.len(),
                all == items@,
                horizon_limit == now_sec + HOT_DELAY_HORIZON_SEC,
                self@ == old(self)@.promote(all.take(i as int), now_sec),
            decreases items.len() - i,
        {
            let item = items[i];
            proof {
                assert(all.take(i + 1).drop_last() =~= all.take(i as int));
                assert(all.take(i + 1).last() == item);
                lemma_promote_frame(old(self)@, all.take(i as int), now_sec);
            }
            if !self.deleted.contains(&item.id) {
                if item.visible_at <= horizon_limit {
                    put_in_bucket(&mut self.hot_delay_buckets, item.visible_at, item.id);
                } else {
                    self.far_future.push(item);
                }
            }
            i += 1;
            proof {
                assert(self@ =~= old(self)@.promote(all.take(i as int), now_sec));
            }
        }
        proof {
            assert(all.take(i as int) =~= all);
        }
    }

    fn settle(&mut self, ids: Vec<u128>)
        ensures
            final(self)@ == old(self)@.settle(ids@),
    {
        let mut i: usize = 0;
        proof {
            assert(ids@.take(0) =~= Seq::empty());
        }
        while i < ids.len()
            invariant
                i <= ids.len(),
                self@ == old(self)@.settle(ids@.take(i as int)),
            decreases ids.len() - i,
        {
            let id: u128 = ids[i];
            proof {
                assert(ids@.take(i + 1).drop_last() =~= ids@.take(i as int));
                assert(ids@.take(i + 1).last() == id);
            }
            if !self.deleted.remove(&id) {
                self.ready.push_back(id);
            }
            i += 1;
            proof {
                assert(self@ =~= old(self)@.settle(ids@.take(i as int)));
            }
        }
        proof {
            assert(ids@.take(i as int) =~= ids@);
        }
    }

    /// The earliest bucket that is due at `now_sec`.
    fn next_due(&self, now_sec: u64) -> (res: Option<u64>)
        ensures
            match res {
                Some(sec) => is_next_due(self@.hot, now_sec, sec),
                None => !exists|sec: u64| is_next_due(self@.hot, now_sec, sec),
            },
    {
        let mut best: Option<u64> = None;
        let ghost hot = self@.hot;
        for sec in it: self.hot_delay_buckets.keys()
            invariant
                hot.dom() == self.hot_delay_buckets@.dom(),
                it.seq().unref().to_set() == self.hot_delay_buckets@.dom(),
                match best {
                    Some(b) => hot.contains_key(b) && b <= now_sec && forall|k: int|
                        0 <= k < it.index() ==> b <= *(#[trigger] it.seq()[k]),
                    None => forall|k: int| 0 <= k < it.index() ==> now_sec < *(#[trigger] it.seq()[k]),
                },
        {
            let s: u64 = *sec;
            proof {
                assert(it.seq().unref()[it.index() as int] == s);
                assert(it.seq().unref().to_set().contains(s));
            }
            match best {
                Some(b) => {
                    if s < b {
                        best = Some(s);
                    }
                },
                None => {
                    if s <= now_sec {
                        best = Some(s);
                    }
                },
            }
        }
        best
    }

    fn drain_due_buckets(&mut self, now_sec: u64)
        ensures
            final(self)@ == old(self)@.drain(now_sec),
    {
        let ghost target = old(self)@.drain(now_sec);
        proof {
            self.lemma_finite();
        }
        loop
            invariant
                self@.hot.dom().finite(),
                self@.drain(now_sec) == target,
            ensures
                self@ == target,
            decreases self@.hot.dom().len(),
        {
            match self.next_due(now_sec) {
                Some(sec) => {
                    let ghost before = self@;
                    proof {
                        let picked = choose|s: u64| is_next_due(before.hot, now_sec, s);
                        assert(before.hot.contains_key(picked) && before.hot.contains_key(sec));
                        assert(picked == sec);
                    }
                    match self.hot_delay_buckets.remove(&sec) {
                        Some(bucket) => {
                            proof {
                                assert(self@ =~~= QueueView { hot: before.hot.remove(sec), ..before });
                                lemma_settle_frame(before, before.hot.remove(sec), bucket@);
                            }
                            self.settle(bucket);
                        },
                        None => {},
                    }
                },
                None => {
                    break;
                },
            }
        }
    }

    /// Brings the queue to `now_sec`: far-future messages enter the horizon, and due buckets
    /// become ready, the earliest first.
    pub fn advance_and_drain(&mut self, now_sec: u64)
        requires
            now_sec + HOT_DELAY_HORIZON_SEC <= u64::MAX,
        ensures
            final(self)@ == old(self)@.advance(now_sec),
    {
        if now_sec < self.last_drained_sec {
            return;
        }
        self.promote_far_future(now_sec);
        self.drain_due_buckets(now_sec);
        let ghost drained = self@;
        self.last_drained_sec = now_sec;
        proof {
            assert(self@ =~= QueueView { last_drained_sec: now_sec, ..drained });
        }
    }

    /// Takes the next ready message.
    pub fn pop_ready(&mut self) -> (id: Option<u128>)
        ensures
            (final(self)@, id) == old(self)@.pop(),
    {
        let ghost target = old(self)@.pop();
        while self.ready.len() > 0
            invariant
                self@.pop() == target,
                target == old(self)@.pop(),
            decreases self.ready@.len(),
        {
            let id: u128 = self.ready[0];
            let ghost before = self@;
            self.ready.pop_front();
            proof {
                assert(self@ =~= QueueView { ready: before.ready.drop_first(), ..before });
            }
            if self.deleted.remove(&id) {
                proof {
                    assert(self@ =~= QueueView {
                        ready: before.ready.drop_first(),
                        deleted: before.deleted.remove(id),
                        ..before
                    });
                }
            } else {
                proof {
                    assert(self@ =~= QueueView { ready: before.ready.drop_first(), ..before });
                }
                return Some(id);
            }
        }
        let ghost before = self@;
        if !self.deleted.is_empty() {
            self.deleted.clear();
        }
        proof {
            assert(self@ =~= QueueView { deleted: Set::empty(), ..before });
        }
        None
    }

    /// Takes up to `max` ready messages.
    pub fn claim(&mut self, max: usize) -> (ids: Vec<u128>)
        ensures
            (final(self)@, ids@) == old(self)@.claim(max as nat),
            ids@.len() <= max,
    {
        let ghost target = old(self)@.claim(max as nat);
        let mut ids: Vec<u128> = Vec::new();
        proof {
            assert(ids@ + target.1 =~= target.1);
        }
        while ids.len() < max
            invariant_except_break
                ids.len() <= max,
                target.0 == self@.claim((max - ids.len()) as nat).0,
                target.1 == ids@ + self@.claim((max - ids.len()) as nat).1,
            ensures
                ids.len() <= max,
                target == (self@, ids@),
            decreases max - ids.len(),
        {
            let ghost prior = ids@;
            let ghost rest = self@.claim((max - ids.len()) as nat).1;
            match self.pop_ready() {
                Some(id) => {
                    ids.push(id);
                    proof {
                        let tail = self@.claim((max - ids.len()) as nat).1;
                        assert(rest == seq![id] + tail);
                        assert(prior + rest =~= ids@ + tail);
                    }
                },
                None => {
                    proof {
                        assert(prior + rest =~= prior);
                    }
                    break;
                },
            }
        }
        ids
    }
}

}
