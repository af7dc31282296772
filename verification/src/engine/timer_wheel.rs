//! A hashed timer wheel that tracks the visibility leases of delivered messages.
use std::collections::HashMap;
use vstd::prelude::*;

verus! {

broadcast use vstd::std_specs::hash::group_hash_axioms;

/// A delivered message whose lease runs until `expire_at`.
#[derive(Debug)]
pub struct InFlightItem {
    pub id: u128,
    pub queue: String,
    pub receipt: String,
    pub expire_at: u64,
}

/// The mathematical content of an [`InFlightItem`].
pub struct ItemView {
    pub id: u128,
    pub queue: Seq<char>,
    pub receipt: Seq<char>,
    pub expire_at: u64,
}

impl View for InFlightItem {
    type V = ItemView;

    open spec fn view(&self) -> ItemView {
        ItemView {
            id: self.id,
            queue: self.queue@,
            receipt: self.receipt@,
            expire_at: self.expire_at,
        }
    }
}

impl Clone for InFlightItem {
    fn clone(&self) -> (res: Self)
        ensures
            res@ == self@,
    {
        InFlightItem {
            id: self.id,
            queue: self.queue.clone(),
            receipt: self.receipt.clone(),
            expire_at: self.expire_at,
        }
    }
}

pub open spec fn item_views(items: Seq<InFlightItem>) -> Seq<ItemView> {
    items.map_values(|item: InFlightItem| item@)
}

/// The items of one slot whose lease has run out at `now`, in slot order.
pub open spec fn expired_of(items: Seq<ItemView>, now: u64) -> Seq<ItemView>
    decreases items.len(),
{
    if items.len() == 0 {
        Seq::empty()
    } else {
        let rest = expired_of(items.drop_last(), now);
        if items.last().expire_at <= now {
            rest.push(items.last())
        } else {
            rest
        }
    }
}

/// The items of one slot whose lease is still running at `now`, in slot order.
pub open spec fn kept_of(items: Seq<ItemView>, now: u64) -> Seq<ItemView>
    decreases items.len(),
{
    if items.len() == 0 {
        Seq::empty()
    } else {
        let rest = kept_of(items.drop_last(), now);
        if items.last().expire_at <= now {
            rest
        } else {
            rest.push(items.last())
        }
    }
}

/// The ids that occur in a sequence of items.
pub open spec fn ids_of(items: Seq<ItemView>) -> Set<u128> {
    Set::new(|id: u128| exists|k: int| 0 <= k < items.len() && (#[trigger] items[k]).id == id)
}

/// The first position at or after `from` that holds `id`, or the length if none does.
pub open spec fn position_of(items: Seq<ItemView>, id: u128, from: int) -> int
    decreases items.len() - from,
{
    if from >= items.len() {
        items.len() as int
    } else if items[from].id == id {
        from
    } else {
        position_of(items, id, from + 1)
    }
}

/// The mathematical content of a [`TimerWheel`]: the slots, the index of the leases
/// by slot, receipt and end, and the second up to which expired leases have been collected.
#[verifier::ext_equal]
pub struct WheelView {
    pub slots: Seq<Seq<ItemView>>,
    pub index: Map<u128, (int, Seq<char>, u64)>,
    pub last_checked_sec: u64,
}

impl WheelView {
    /// An empty wheel with one slot per second, at least sixty.
    pub open spec fn empty(capacity_secs: usize) -> WheelView {
        WheelView {
            slots: Seq::new(
                if capacity_secs >= 60 { capacity_secs as nat } else { 60 },
                |i: int| Seq::empty(),
            ),
            index: Map::empty(),
            last_checked_sec: 0,
        }
    }

    pub open spec fn slot_of(self, at: int) -> int {
        at % (self.slots.len() as int)
    }

    /// Every lease in the index points into the wheel, and every item lies in the slot
    /// of the second in which it runs out.
    pub open spec fn wf(self) -> bool {
        &&& self.slots.len() >= 60
        &&& forall|id: u128| #[trigger]
            self.index.contains_key(id) ==> 0 <= self.index[id].0 < self.slots.len()
        &&& forall|slot: int, k: int|
            0 <= slot < self.slots.len() && 0 <= k < self.slots[slot].len() ==> self.slot_of(
                (#[trigger] self.slots[slot][k]).expire_at as int,
            ) == slot
    }

    pub open spec fn insert(self, item: ItemView) -> WheelView {
        let slot = self.slot_of(item.expire_at as int);
        WheelView {
            slots: self.slots.update(slot, self.slots[slot].push(item)),
            index: self.index.insert(item.id, (slot, item.receipt, item.expire_at)),
            ..self
        }
    }

    /// The lease of `id` is running under this very receipt.
    pub open spec fn holds(self, id: u128, receipt: Seq<char>) -> bool {
        self.index.contains_key(id) && self.index[id].1 == receipt
    }

    /// The lease of `id` is running under this very receipt, and its time is not over.
    pub open spec fn runs(self, id: u128, receipt: Seq<char>, now: u64) -> bool {
        self.holds(id, receipt) && now < self.index[id].2
    }

    pub open spec fn remove(self, id: u128) -> WheelView {
        let slot = self.index[id].0;
        let items = self.slots[slot];
        let pos = position_of(items, id, 0);
        WheelView {
            slots: if pos < items.len() {
                self.slots.update(slot, items.update(pos, items.last()).drop_last())
            } else {
                self.slots
            },
            index: self.index.remove(id),
            ..self
        }
    }

    /// Takes the expired items out of one slot.
    pub open spec fn sweep_slot(self, slot: int, now: u64) -> WheelView {
        WheelView {
            slots: self.slots.update(slot, kept_of(self.slots[slot], now)),
            index: self.index.remove_keys(ids_of(expired_of(self.slots[slot], now))),
            ..self
        }
    }

    /// Takes the expired items out of the `n` slots that follow second `base`, one after
    /// the other, and lists them.
    pub open spec fn sweep(self, base: int, n: nat, now: u64) -> (WheelView, Seq<ItemView>)
        decreases n,
    {
        if n == 0 {
            (self, Seq::empty())
        } else {
            let (w, expired) = self.sweep(base, (n - 1) as nat, now);
            let slot = self.slot_of(base + n);
            (w.sweep_slot(slot, now), expired + expired_of(w.slots[slot], now))
        }
    }

    /// The second after which the next collection at `now` starts to look.
    pub open spec fn sweep_base(self, now: u64) -> int {
        if self.last_checked_sec != 0 {
            self.last_checked_sec as int
        } else if now == 0 {
            0
        } else {
            now - 1
        }
    }

    /// The wheel after a collection at `now`, and what was collected. Only the slots of
    /// the seconds since the last collection are looked at, or all of them once a whole
    /// turn of the wheel has passed.
    pub open spec fn collect(self, now: u64) -> (WheelView, Seq<ItemView>) {
        let base = self.sweep_base(now);
        let (w, expired) = if self.index.dom().is_empty() || now <= base {
            (self, Seq::empty())
        } else if now - base >= self.slots.len() {
            self.sweep(-1, self.slots.len(), now)
        } else {
            self.sweep(base, (now - base) as nat, now)
        };
        (WheelView { last_checked_sec: now, ..w }, expired)
    }
}

/// A slot splits into the items that have run out and those that have not.
pub proof fn lemma_split(items: Seq<ItemView>, now: u64)
    ensures
        forall|k: int|
            0 <= k < expired_of(items, now).len() ==> items.contains(
                #[trigger] expired_of(items, now)[k],
            ) && expired_of(items, now)[k].expire_at <= now,
        forall|k: int|
            0 <= k < kept_of(items, now).len() ==> items.contains(
                #[trigger] kept_of(items, now)[k],
            ) && kept_of(items, now)[k].expire_at > now,
        forall|k: int|
            0 <= k < items.len() ==> if (#[trigger] items[k]).expire_at <= now {
                expired_of(items, now).contains(items[k])
            } else {
                kept_of(items, now).contains(items[k])
            },
    decreases items.len(),
{
    if items.len() > 0 {
        let head = items.drop_last();
        lemma_split(head, now);
        let expired = expired_of(items, now);
        let kept = kept_of(items, now);
        assert forall|item: ItemView| head.contains(item) implies items.contains(item) by {
            let j = choose|j: int| 0 <= j < head.len() && head[j] == item;
            assert(items[j] == item);
        }
        assert(items.contains(items.last())) by {
            assert(items[items.len() - 1] == items.last());
        }
        assert forall|k: int| 0 <= k < items.len() implies if (#[trigger] items[k]).expire_at
            <= now {
            expired.contains(items[k])
        } else {
            kept.contains(items[k])
        } by {
            if k < head.len() {
                assert(head[k] == items[k]);
                if items[k].expire_at <= now {
                    let prior = expired_of(head, now);
                    let j = choose|j: int| 0 <= j < prior.len() && prior[j] == items[k];
                    assert(expired[j] == items[k]);
                } else {
                    let prior = kept_of(head, now);
                    let j = choose|j: int| 0 <= j < prior.len() && prior[j] == items[k];
                    assert(kept[j] == items[k]);
                }
            } else if items[k].expire_at <= now {
                assert(expired[expired.len() - 1] == items[k]);
            } else {
                assert(kept[kept.len() - 1] == items[k]);
            }
        }
    }
}

pub proof fn lemma_sweep_slot(w: WheelView, slot: int, now: u64)
    requires
        w.wf(),
        0 <= slot < w.slots.len(),
    ensures
        w.sweep_slot(slot, now).wf(),
{
    lemma_split(w.slots[slot], now);
    let swept = w.sweep_slot(slot, now);
    assert forall|s: int, k: int|
        0 <= s < swept.slots.len() && 0 <= k < swept.slots[s].len() implies swept.slot_of(
        (#[trigger] swept.slots[s][k]).expire_at as int,
    ) == s by {
        if s == slot {
            let item = kept_of(w.slots[slot], now)[k];
            let j = choose|j: int| 0 <= j < w.slots[slot].len() && w.slots[slot][j] == item;
            assert(w.slots[slot][j] == item);
        } else {
            assert(swept.slots[s][k] == w.slots[s][k]);
        }
    }
}

/// Leases hashed by the second in which they run out.
pub struct TimerWheel {
    slots: Vec<Vec<InFlightItem>>,
    size: usize,
    index_by_id: HashMap<u128, (usize, String, u64)>,
    last_checked_sec: u64,
}

impl View for TimerWheel {
    type V = WheelView;

    closed spec fn view(&self) -> WheelView {
        WheelView {
            slots: self.slots@.map_values(|slot: Vec<InFlightItem>| item_views(slot@)),
            index: self.index_by_id@.map_values(
                |e: (usize, String, u64)| (e.0 as int, e.1@, e.2),
            ),
            last_checked_sec: self.last_checked_sec,
        }
    }
}

impl TimerWheel {
    pub closed spec fn wf(&self) -> bool {
        &&& self.size == self.slots@.len()
        &&& self@.wf()
    }

    pub fn new(capacity_secs: usize) -> (res: Self)
        ensures
            res.wf(),
            res@ == WheelView::empty(capacity_secs),
    {
        let size: usize = if capacity_secs >= 60 { capacity_secs } else { 60 };
        let mut slots: Vec<Vec<InFlightItem>> = Vec::new();
        let mut i: usize = 0;
        while i < size
            invariant
                i <= size,
                slots@.len() == i,
                forall|k: int| 0 <= k < i ==> (#[trigger] slots@[k])@.len() == 0,
            decreases size - i,
        {
            slots.push(Vec::new());
            i += 1;
        }
        let res = TimerWheel { slots, size, index_by_id: HashMap::new(), last_checked_sec: 0 };
        proof {
            assert(res@ =~~= WheelView::empty(capacity_secs));
        }
        res
    }

    pub fn insert(&mut self, item: InFlightItem)
        requires
            old(self).wf(),
        ensures
            final(self).wf(),
            final(self)@ == old(self)@.insert(item@),
    {
        let slot: usize = (item.expire_at % (self.size as u64)) as usize;
        self.index_by_id.insert(item.id, (slot, item.receipt.clone(), item.expire_at));
        self.slots[slot].push(item);
        proof {
            assert(self@ =~~= old(self)@.insert(item@));
        }
    }

    /// Says whether a lease of `id` is indexed whose time is not over.
    pub fn is_running(&self, id: u128, now_sec: u64) -> (res: bool)
        ensures
            res == (self@.index.contains_key(id) && now_sec < self@.index[id].2),
    {
        match self.index_by_id.get(&id) {
            Some(entry) => now_sec < entry.2,
            None => false,
        }
    }

    /// Ends the lease of `id` if it is running under `receipt`.
    pub fn remove_if_valid(&mut self, id: u128, receipt: &str) -> (removed: bool)
        requires
            old(self).wf(),
        ensures
            final(self).wf(),
            removed == old(self)@.holds(id, receipt@),
            final(self)@ == if removed {
                old(self)@.remove(id)
            } else {
                old(self)@
            },
    {
        let slot: usize = match self.index_by_id.get(&id) {
            Some(entry) => {
                if entry.1 == receipt.to_owned() {
                    entry.0
                } else {
                    return false;
                }
            },
            None => {
                return false;
            },
        };
        proof {
            assert(self@.index.contains_key(id) && self@.index[id].0 == slot);
        }
        self.index_by_id.remove(&id);
        let ghost items = old(self)@.slots[slot as int];
        let mut pos: usize = 0;
        while pos < self.slots[slot].len() && self.slots[slot][pos].id != id
            invariant
                slot < self.slots@.len(),
                self.slots == old(self).slots,
                pos <= self.slots@[slot as int]@.len(),
                items == item_views(self.slots@[slot as int]@),
                position_of(items, id, 0) == position_of(items, id, pos as int),
            decreases self.slots@[slot as int]@.len() - pos,
        {
            pos += 1;
        }
        if pos < self.slots[slot].len() {
            self.slots[slot].swap_remove(pos);
        }
        proof {
            assert(self@ =~~= old(self)@.remove(id));
        }
        true
    }

    /// Moves the expired items of one slot to the end of `expired`.
    fn sweep_slot(&mut self, slot: usize, now_sec: u64, expired: &mut Vec<InFlightItem>)
        requires
            old(self).wf(),
            slot < old(self)@.slots.len(),
        ensures
            final(self).wf(),
            final(self)@ == old(self)@.sweep_slot(slot as int, now_sec),
            item_views(final(expired)@) == item_views(old(expired)@) + expired_of(
                old(self)@.slots[slot as int],
                now_sec,
            ),
    {
        let mut items: Vec<InFlightItem> = Vec::new();
        std::mem::swap(&mut items, &mut self.slots[slot]);
        let ghost views = item_views(items@);
        let mut remaining: Vec<InFlightItem> = Vec::new();
        proof {
            assert(self.index_by_id@ =~= old(self).index_by_id@.remove_keys(
                ids_of(expired_of(views.take(0), now_sec)),
            ));
            assert(item_views(remaining@) =~= kept_of(views.take(0), now_sec));
            assert(item_views(expired@) =~= item_views(old(expired)@) + expired_of(
                views.take(0),
                now_sec,
            ));
        }
        for item in it: items
            invariant
                views == item_views(it.seq()),
                self.slots@ == old(self).slots@.update(slot as int, self.slots@[slot as int]),
                slot < old(self).slots@.len(),
                self.size == old(self).size,
                self.last_checked_sec == old(self).last_checked_sec,
                self.index_by_id@ == old(self).index_by_id@.remove_keys(
                    ids_of(expired_of(views.take(it.index() as int), now_sec)),
                ),
                item_views(remaining@) == kept_of(views.take(it.index() as int), now_sec),
                item_views(expired@) == item_views(old(expired)@) + expired_of(
                    views.take(it.index() as int),
                    now_sec,
                ),
        {
            let ghost k = it.index() as int;
            let ghost head = views.take(k);
            proof {
                assert(views.take(k + 1).drop_last() =~= head);
                assert(views.take(k + 1).last() == item@);
            }
            let ghost before = expired_of(head, now_sec);
            if item.expire_at <= now_sec {
                self.index_by_id.remove(&item.id);
                let ghost listed = expired@;
                expired.push(item);
                proof {
                    assert(item_views(expired@) =~= item_views(listed).push(item@));
                    let after = before.push(item@);
                    assert(after.last().id == item@.id);
                    assert forall|id: u128| ids_of(after).contains(id) <==> ids_of(before).contains(
                        id,
                    ) || id == item@.id by {
                        if ids_of(before).contains(id) {
                            let j = choose|j: int| 0 <= j < before.len() && (#[trigger] before[j]).id == id;
                            assert(after[j].id == id);
                        }
                    }
                    assert(self.index_by_id@ =~= old(self).index_by_id@.remove_keys(ids_of(after)));
                    assert(item_views(expired@) =~= item_views(old(expired)@) + after);
                }
            } else {
                remaining.push(item);
                proof {
                    assert(item_views(remaining@) =~= kept_of(head, now_sec).push(item@));
                }
            }
        }
        self.slots[slot] = remaining;
        proof {
            assert(views.take(views.len() as int) =~= views);
            assert(self@ =~~= old(self)@.sweep_slot(slot as int, now_sec));
            lemma_sweep_slot(old(self)@, slot as int, now_sec);
        }
    }

    /// Takes out and returns the leases that have run out at `now_sec`.
    pub fn collect_expired(&mut self, now_sec: u64) -> (expired: Vec<InFlightItem>)
        requires
            old(self).wf(),
        ensures
            final(self).wf(),
            final(self)@ == old(self)@.collect(now_sec).0,
            item_views(expired@) == old(self)@.collect(now_sec).1,
    {
        let mut expired: Vec<InFlightItem> = Vec::new();
        proof {
            assert(item_views(expired@) =~= Seq::empty());
            assert(self@.index.dom() =~= self.index_by_id@.dom());
        }
        if self.index_by_id.is_empty() {
            self.last_checked_sec = now_sec;
            proof {
                assert(self.index_by_id@.dom().len() == 0);
                assert(self@.index.dom() =~= Set::empty());
            }
            return expired;
        }
        let base: u64 = if self.last_checked_sec == 0 {
            now_sec.saturating_sub(1)
        } else {
            self.last_checked_sec
        };
        let elapsed: u64 = now_sec.saturating_sub(base);
        let full: bool = elapsed >= self.size as u64;
        let ticks: u64 = if full { self.size as u64 } else { elapsed };
        let ghost start: int = if full { -1 } else { base as int };
        let mut t: u64 = 0;
        while t < ticks
            invariant
                self.wf(),
                t <= ticks <= self.size,
                self.size == old(self)@.slots.len(),
                full ==> start == -1 && ticks == self.size,
                !full ==> start == base && (ticks > 0 ==> base + ticks == now_sec),
                (self@, item_views(expired@)) == old(self)@.sweep(start, t as nat, now_sec),
            decreases ticks - t,
        {
            let slot: usize = if full {
                t as usize
            } else {
                ((base + t + 1) % (self.size as u64)) as usize
            };
            proof {
                if full {
                    vstd::arithmetic::div_mod::lemma_small_mod(t as nat, self.size as nat);
                }
                assert(slot == old(self)@.slot_of(start + (t + 1)));
            }
            self.sweep_slot(slot, now_sec, &mut expired);
            t += 1;
        }
        let ghost swept = self@;
        self.last_checked_sec = now_sec;
        proof {
            assert(self@ == WheelView { last_checked_sec: now_sec, ..swept });
        }
        expired
    }
}

/// The item lies in some slot of the wheel.
pub open spec fn in_wheel(w: WheelView, item: ItemView) -> bool {
    let slot = w.slot_of(item.expire_at as int);
    0 <= slot < w.slots.len() && w.slots[slot].contains(item)
}

pub proof fn lemma_sweep(w: WheelView, base: int, n: nat, now: u64)
    requires
        w.wf(),
    ensures
        w.sweep(base, n, now).0.wf(),
        w.sweep(base, n, now).0.slots.len() == w.slots.len(),
        w.sweep(base, n, now).0.index.submap_of(w.index),
        forall|k: int|
            0 <= k < w.sweep(base, n, now).1.len() ==> {
                let item = #[trigger] w.sweep(base, n, now).1[k];
                &&& item.expire_at <= now
                &&& in_wheel(w, item)
                &&& !w.sweep(base, n, now).0.index.contains_key(item.id)
            },
        forall|item: ItemView| #[trigger]
            in_wheel(w, item) ==> in_wheel(w.sweep(base, n, now).0, item) || w.sweep(
                base,
                n,
                now,
            ).1.contains(item),
        forall|item: ItemView| #[trigger]
            in_wheel(w.sweep(base, n, now).0, item) ==> in_wheel(w, item),
        forall|item: ItemView, k: int|
            1 <= k <= n && in_wheel(w, item) && item.expire_at <= now && w.slot_of(
                item.expire_at as int,
            ) == #[trigger] w.slot_of(base + k) ==> #[trigger] w.sweep(base, n, now).1.contains(item),
        forall|id: u128|
            w.index.contains_key(id) && !#[trigger] w.sweep(base, n, now).0.index.contains_key(id)
                ==> exists|k: int|
                0 <= k < w.sweep(base, n, now).1.len() && w.sweep(base, n, now).1[k].id == id,
    decreases n,
{
    if n > 0 {
        lemma_sweep(w, base, (n - 1) as nat, now);
        let (v, listed) = w.sweep(base, (n - 1) as nat, now);
        let slot = w.slot_of(base + n);
        let (u, all) = w.sweep(base, n, now);
        let due = expired_of(v.slots[slot], now);
        assert(0 <= slot < w.slots.len());
        lemma_split(v.slots[slot], now);
        lemma_sweep_slot(v, slot, now);
        assert forall|item: ItemView| listed.contains(item) || due.contains(item) implies #[trigger] all.contains(
            item,
        ) by {
            if listed.contains(item) {
                let j = choose|j: int| 0 <= j < listed.len() && listed[j] == item;
                assert(all[j] == item);
            } else {
                let j = choose|j: int| 0 <= j < due.len() && due[j] == item;
                assert(all[listed.len() + j] == item);
            }
        }
        assert forall|item: ItemView| #[trigger] in_wheel(u, item) implies in_wheel(w, item) by {
            let s = u.slot_of(item.expire_at as int);
            if s == slot {
                let kept = kept_of(v.slots[slot], now);
                let j = choose|j: int| 0 <= j < kept.len() && kept[j] == item;
                assert(v.slots[slot].contains(kept[j]));
            }
            assert(in_wheel(v, item));
        }
        assert forall|item: ItemView| #[trigger] in_wheel(w, item) implies in_wheel(u, item)
            || all.contains(item) by {
            if in_wheel(v, item) {
                let s = v.slot_of(item.expire_at as int);
                if s == slot {
                    let j = choose|j: int| 0 <= j < v.slots[slot].len() && v.slots[slot][j] == item;
                    assert(v.slots[slot][j] == item);
                }
            } else {
                assert(listed.contains(item));
            }
        }
        assert forall|item: ItemView, k: int|
            1 <= k <= n && in_wheel(w, item) && item.expire_at <= now && w.slot_of(
                item.expire_at as int,
            ) == #[trigger] w.slot_of(base + k) implies #[trigger] all.contains(item) by {
            if k == n {
                if in_wheel(v, item) {
                    let j = choose|j: int| 0 <= j < v.slots[slot].len() && v.slots[slot][j] == item;
                    assert(v.slots[slot][j] == item);
                } else {
                    assert(listed.contains(item));
                }
            } else {
                assert(listed.contains(item));
            }
        }
        assert forall|k: int| 0 <= k < all.len() implies {
            let item = #[trigger] all[k];
            &&& item.expire_at <= now
            &&& in_wheel(w, item)
            &&& !u.index.contains_key(item.id)
        } by {
            if k < listed.len() {
                assert(all[k] == listed[k]);
            } else {
                let item = due[k - listed.len()];
                assert(all[k] == item);
                assert(v.slots[slot].contains(item));
                let j = choose|j: int| 0 <= j < v.slots[slot].len() && v.slots[slot][j] == item;
                assert(v.slot_of(v.slots[slot][j].expire_at as int) == slot);
                assert(in_wheel(v, item));
                assert(ids_of(due).contains(item.id));
            }
        }
        assert forall|id: u128|
            w.index.contains_key(id) && !#[trigger] u.index.contains_key(id) implies exists|k: int|
            0 <= k < all.len() && all[k].id == id by {
            if v.index.contains_key(id) {
                assert(ids_of(due).contains(id));
                let j = choose|j: int| 0 <= j < due.len() && (#[trigger] due[j]).id == id;
                assert(all[listed.len() + j].id == id);
            } else {
                let j = choose|j: int| 0 <= j < listed.len() && listed[j].id == id;
                assert(all[j].id == id);
            }
        }
    }
}

/// A lease can be ended once: after its receipt was accepted, no receipt is.
pub proof fn law_lease_ends_once(w: WheelView, id: u128, again: Seq<char>)
    ensures
        !w.remove(id).holds(id, again),
{
}

/// A new lease on a message makes every earlier receipt of it worthless.
pub proof fn law_new_lease_voids_old_receipts(w: WheelView, item: ItemView, receipt: Seq<char>)
    ensures
        w.insert(item).holds(item.id, receipt) <==> receipt == item.receipt,
{
}

/// What a collection hands out was in the wheel and had run out, and its lease has ended.
pub proof fn law_collected_leases_have_ended(w: WheelView, now: u64, k: int, receipt: Seq<char>)
    requires
        w.wf(),
        0 <= k < w.collect(now).1.len(),
    ensures
        in_wheel(w, w.collect(now).1[k]),
        w.collect(now).1[k].expire_at <= now,
        !w.collect(now).0.holds(w.collect(now).1[k].id, receipt),
{
    lemma_sweep(w, -1, w.slots.len(), now);
    let base = w.sweep_base(now);
    if now > base {
        lemma_sweep(w, base, (now - base) as nat, now);
    }
}

/// A collection loses nothing: what was in the wheel is handed out or still there, and a
/// lease that is no longer indexed was handed out.
pub proof fn law_collect_loses_nothing(w: WheelView, now: u64, item: ItemView, id: u128)
    requires
        w.wf(),
    ensures
        in_wheel(w, item) ==> in_wheel(w.collect(now).0, item) || w.collect(now).1.contains(item),
        w.index.contains_key(id) && !w.collect(now).0.index.contains_key(id) ==> ids_of(
            w.collect(now).1,
        ).contains(id),
{
    lemma_sweep(w, -1, w.slots.len(), now);
    let base = w.sweep_base(now);
    if now > base {
        lemma_sweep(w, base, (now - base) as nat, now);
    }
}

/// A lease that ran out since the last collection is handed out by the next one, however
/// many seconds lie between the two.
pub proof fn law_collect_is_complete(w: WheelView, now: u64, item: ItemView)
    requires
        w.wf(),
        !w.index.dom().is_empty(),
        in_wheel(w, item),
        w.sweep_base(now) < item.expire_at <= now,
    ensures
        w.collect(now).1.contains(item),
{
    let base = w.sweep_base(now);
    let n = w.slots.len();
    if now - base >= n {
        lemma_sweep(w, -1, n, now);
        let slot = w.slot_of(item.expire_at as int);
        vstd::arithmetic::div_mod::lemma_small_mod(slot as nat, n);
        assert(w.slot_of(-1 + (slot + 1)) == slot);
    } else {
        lemma_sweep(w, base, (now - base) as nat, now);
        assert(w.slot_of(base + (item.expire_at - base)) == w.slot_of(item.expire_at as int));
    }
}

}
