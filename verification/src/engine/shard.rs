//! One shard of the engine: the queues, messages and leases of the queue names that hash
//! to it.
use std::collections::{HashMap, HashSet};
use vstd::hash_map::StringHashMap;
use vstd::prelude::*;

use crate::engine::disk_log;
use crate::engine::disk_log::{Survivor, SurvivorView};
use crate::engine::single_queue::{QueueView, SingleQueue, HOT_DELAY_HORIZON_SEC};
use crate::engine::timer_wheel;
use crate::engine::timer_wheel::{InFlightItem, ItemView, TimerWheel, WheelView};
use crate::ids;
use crate::ids::format_id;

verus! {

broadcast use vstd::std_specs::hash::group_hash_axioms;

/// How many seconds the lease wheel of a shard spans.
pub const WHEEL_SECS: usize = 3600;

/// A message in memory.
#[derive(Debug)]
pub struct StoredMsg {
    pub id: u128,
    pub queue: String,
    pub payload: Vec<u8>,
    pub visible_at: u64,
    pub delivery_count: u32,
    pub max_delivery: u32,
}

/// The mathematical content of a [`StoredMsg`].
pub struct MsgView {
    pub id: u128,
    pub queue: Seq<char>,
    pub payload: Seq<u8>,
    pub visible_at: u64,
    pub delivery_count: u32,
    pub max_delivery: u32,
}

impl View for StoredMsg {
    type V = MsgView;

    open spec fn view(&self) -> MsgView {
        MsgView {
            id: self.id,
            queue: self.queue@,
            payload: self.payload@,
            visible_at: self.visible_at,
            delivery_count: self.delivery_count,
            max_delivery: self.max_delivery,
        }
    }
}

pub open spec fn msg_views(msgs: Seq<StoredMsg>) -> Seq<MsgView> {
    msgs.map_values(|m: StoredMsg| m@)
}

/// A message as it is handed to a consumer.
#[derive(Debug, Clone)]
pub struct PolledMessage {
    pub message_id: String,
    pub payload: Vec<u8>,
    pub receipt_handle: String,
    pub delivery_count: u32,
}

/// The mathematical content of a [`PolledMessage`].
pub struct PolledView {
    pub message_id: Seq<char>,
    pub payload: Seq<u8>,
    pub receipt_handle: Seq<char>,
    pub delivery_count: u32,
}

impl View for PolledMessage {
    type V = PolledView;

    open spec fn view(&self) -> PolledView {
        PolledView {
            message_id: self.message_id@,
            payload: self.payload@,
            receipt_handle: self.receipt_handle@,
            delivery_count: self.delivery_count,
        }
    }
}

pub open spec fn polled_views(msgs: Seq<PolledMessage>) -> Seq<PolledView> {
    msgs.map_values(|m: PolledMessage| m@)
}

/// Takes the messages of the items out of a map, in order.
pub open spec fn take_messages(messages: Map<u128, MsgView>, items: Seq<ItemView>) -> (
    Map<u128, MsgView>,
    Seq<MsgView>,
)
    decreases items.len(),
{
    if items.len() == 0 {
        (messages, Seq::empty())
    } else {
        let (rest, taken) = take_messages(messages, items.drop_last());
        let id = items.last().id;
        if rest.contains_key(id) {
            (rest.remove(id), taken.push(rest[id]))
        } else {
            (rest, taken)
        }
    }
}

/// What is carried over of a message.
pub open spec fn survivor_of(msg: MsgView) -> SurvivorView {
    SurvivorView {
        id: msg.id,
        queue: msg.queue,
        visible_at: msg.visible_at,
        payload: msg.payload,
    }
}

/// The list holds every message once, in any order.
pub open spec fn lists_messages(messages: Map<u128, MsgView>, list: Seq<SurvivorView>) -> bool {
    &&& forall|i: int|
        0 <= i < list.len() ==> messages.contains_key((#[trigger] list[i]).id) && list[i]
            == survivor_of(messages[list[i].id])
    &&& forall|id: u128| #[trigger]
        messages.contains_key(id) ==> exists|i: int| 0 <= i < list.len() && list[i].id == id
    &&& forall|i: int, j: int|
        0 <= i < j < list.len() ==> (#[trigger] list[i]).id != (#[trigger] list[j]).id
}

/// The mathematical content of a [`ShardState`].
#[verifier::ext_equal]
pub struct ShardView {
    pub queues: Map<Seq<char>, QueueView>,
    pub messages: Map<u128, MsgView>,
    pub seen: Set<u128>,
    pub acked: Set<u128>,
    pub wheel: WheelView,
}

impl ShardView {
    pub open spec fn empty() -> ShardView {
        ShardView {
            queues: Map::empty(),
            messages: Map::empty(),
            seen: Set::empty(),
            acked: Set::empty(),
            wheel: WheelView::empty(WHEEL_SECS),
        }
    }

    /// The shard without anything but the ids that are known to be acknowledged.
    pub open spec fn cleared(self) -> ShardView {
        ShardView { acked: self.acked, ..ShardView::empty() }
    }

    /// Every message is kept under its own id.
    pub open spec fn keyed(self) -> bool {
        forall|id: u128| #[trigger]
            self.messages.contains_key(id) ==> self.messages[id].id == id
    }

    /// The queue of this name, or a new one.
    pub open spec fn queue(self, name: Seq<char>, now: u64) -> QueueView {
        if self.queues.contains_key(name) {
            self.queues[name]
        } else {
            QueueView::empty(now)
        }
    }

    pub open spec fn mark_seen(self, id: u128) -> ShardView {
        ShardView { seen: self.seen.insert(id), ..self }
    }

    pub open spec fn mark_acked(self, id: u128) -> ShardView {
        ShardView { acked: self.acked.insert(id), ..self }
    }

    /// Keeps a message and files it in its queue.
    pub open spec fn store(self, msg: MsgView, now: u64) -> ShardView {
        ShardView {
            queues: self.queues.insert(
                msg.queue,
                self.queue(msg.queue, now).insert(msg.id, msg.visible_at, now),
            ),
            messages: self.messages.insert(msg.id, msg),
            ..self
        }
    }

    /// Drops an id from a queue, if there is such a queue.
    pub open spec fn tombstone(self, name: Seq<char>, id: u128) -> ShardView {
        if self.queues.contains_key(name) {
            ShardView {
                queues: self.queues.insert(name, self.queues[name].mark_deleted(id)),
                ..self
            }
        } else {
            self
        }
    }

    pub open spec fn remove_message(self, id: u128) -> ShardView {
        ShardView { messages: self.messages.remove(id), ..self }
    }

    /// What an acknowledgement in the log does.
    pub open spec fn apply_ack(self, name: Seq<char>, id: u128) -> ShardView {
        self.mark_acked(id).remove_message(id).tombstone(name, id)
    }

    /// What an acknowledgement by a receipt does: the lease ends, and the message goes, if
    /// it is still there.
    pub open spec fn ack_lease(self, name: Seq<char>, id: u128) -> ShardView {
        let released = (ShardView { wheel: self.wheel.remove(id), ..self }).mark_acked(id);
        if self.messages.contains_key(id) {
            released.remove_message(id).tombstone(name, id)
        } else {
            released
        }
    }

    /// Takes out the messages whose leases have run out.
    pub open spec fn take_expired(self, now: u64) -> (ShardView, Seq<MsgView>) {
        let (wheel, items) = self.wheel.collect(now);
        let (messages, taken) = take_messages(self.messages, items);
        (ShardView { messages, wheel, ..self }, taken)
    }

    /// Takes up to `max` ready ids from a queue.
    pub open spec fn claim(self, name: Seq<char>, now: u64, max: nat) -> (ShardView, Seq<u128>) {
        if self.queues.contains_key(name) {
            let (q, ids) = self.queues[name].advance(now).claim(max);
            (ShardView { queues: self.queues.insert(name, q), ..self }, ids)
        } else {
            (self, Seq::empty())
        }
    }

    /// Leases the claimed messages that are still there, each under its receipt.
    pub open spec fn lease(
        self,
        name: Seq<char>,
        ids: Seq<u128>,
        receipts: Seq<Seq<char>>,
        expire_at: u64,
    ) -> (ShardView, Seq<PolledView>)
        decreases ids.len(),
    {
        if ids.len() == 0 {
            (self, Seq::empty())
        } else {
            let (s, polled) = self.lease(name, ids.drop_last(), receipts, expire_at);
            let id = ids.last();
            let receipt = receipts[ids.len() - 1];
            if s.messages.contains_key(id) {
                let msg = MsgView {
                    delivery_count: ((s.messages[id].delivery_count + 1) % 0x1_0000_0000) as u32,
                    ..s.messages[id]
                };
                (
                    ShardView {
                        messages: s.messages.insert(id, msg),
                        wheel: s.wheel.insert(ItemView { id, queue: name, receipt, expire_at }),
                        ..s
                    },
                    polled.push(
                        PolledView {
                            message_id: ids::ulid_text(id),
                            payload: msg.payload,
                            receipt_handle: receipt,
                            delivery_count: msg.delivery_count,
                        },
                    ),
                )
            } else {
                (s, polled)
            }
        }
    }
}

/// The queues, messages and leases of one shard.
pub struct ShardState {
    queue_index: StringHashMap<usize>,
    queues: Vec<SingleQueue>,
    messages: HashMap<u128, StoredMsg>,
    seen_ids: HashSet<u128>,
    acked_ids: HashSet<u128>,
    wheel: TimerWheel,
}

pub open spec fn message_views(messages: Map<u128, StoredMsg>) -> Map<u128, MsgView> {
    messages.map_values(|m: StoredMsg| m@)
}

impl View for ShardState {
    type V = ShardView;

    closed spec fn view(&self) -> ShardView {
        ShardView {
            queues: Map::new(
                |name: Seq<char>| self.queue_index@.contains_key(name),
                |name: Seq<char>| self.queues@[self.queue_index@[name] as int]@,
            ),
            messages: message_views(self.messages@),
            seen: self.seen_ids@,
            acked: self.acked_ids@,
            wheel: self.wheel@,
        }
    }
}

impl ShardState {
    pub closed spec fn wf(&self) -> bool {
        &&& self.wheel.wf()
        &&& forall|name: Seq<char>| #[trigger]
            self.queue_index@.contains_key(name) ==> self.queue_index@[name] < self.queues@.len()
        &&& forall|a: Seq<char>, b: Seq<char>|
            self.queue_index@.contains_key(a) && self.queue_index@.contains_key(b)
                && #[trigger] self.queue_index@[a] == #[trigger] self.queue_index@[b] ==> a == b
    }

    pub fn new() -> (res: Self)
        ensures
            res.wf(),
            res@ == ShardView::empty(),
    {
        let res = ShardState {
            queue_index: StringHashMap::new(),
            queues: Vec::new(),
            messages: HashMap::new(),
            seen_ids: HashSet::new(),
            acked_ids: HashSet::new(),
            wheel: TimerWheel::new(WHEEL_SECS),
        };
        proof {
            assert(res@ =~~= ShardView::empty());
        }
        res
    }

    /// Forgets everything but which ids were acknowledged.
    pub fn clear(&mut self)
        ensures
            final(self).wf(),
            final(self)@ == old(self)@.cleared(),
    {
        let mut fresh: ShardState = ShardState::new();
        std::mem::swap(&mut fresh.acked_ids, &mut self.acked_ids);
        *self = fresh;
        proof {
            assert(self@ =~= old(self)@.cleared());
        }
    }

    pub fn has_seen(&self, id: u128) -> (res: bool)
        ensures
            res == self@.seen.contains(id),
    {
        self.seen_ids.contains(&id)
    }

    pub fn has_acked(&self, id: u128) -> (res: bool)
        ensures
            res == self@.acked.contains(id),
    {
        self.acked_ids.contains(&id)
    }

    pub fn has_message(&self, id: u128) -> (res: bool)
        ensures
            res == self@.messages.contains_key(id),
    {
        self.messages.contains_key(&id)
    }

    pub fn mark_seen(&mut self, id: u128)
        requires
            old(self).wf(),
        ensures
            final(self).wf(),
            final(self)@ == old(self)@.mark_seen(id),
    {
        self.seen_ids.insert(id);
        proof {
            assert(self@ =~= old(self)@.mark_seen(id));
        }
    }

    pub fn mark_acked(&mut self, id: u128)
        requires
            old(self).wf(),
        ensures
            final(self).wf(),
            final(self)@ == old(self)@.mark_acked(id),
    {
        self.acked_ids.insert(id);
        proof {
            assert(self@ =~= old(self)@.mark_acked(id));
        }
    }

    /// Drops an id from a queue, if there is such a queue.
    pub fn tombstone(&mut self, name: &str, id: u128)
        requires
            old(self).wf(),
        ensures
            final(self).wf(),
            final(self)@ == old(self)@.tombstone(name@, id),
    {
        match self.queue_index.get(name) {
            Some(at) => {
                let i: usize = *at;
                self.queues[i].mark_deleted(id);
                proof {
                    assert(self@.queues =~= old(self)@.tombstone(name@, id).queues);
                    assert(self@ =~= old(self)@.tombstone(name@, id));
                }
            },
            None => {},
        }
    }

    /// Keeps a message and files it in its queue, which is made if need be.
    pub fn store(&mut self, msg: StoredMsg, now: u64)
        requires
            old(self).wf(),
            now + HOT_DELAY_HORIZON_SEC <= u64::MAX,
        ensures
            final(self).wf(),
            final(self)@ == old(self)@.store(msg@, now),
    {
        let known: Option<usize> = match self.queue_index.get(msg.queue.as_str()) {
            Some(at) => Some(*at),
            None => None,
        };
        match known {
            Some(i) => {
                self.queues[i].insert(msg.id, msg.visible_at, now);
            },
            None => {
                let mut q = SingleQueue::new(now);
                q.insert(msg.id, msg.visible_at, now);
                let at: usize = self.queues.len();
                self.queues.push(q);
                self.queue_index.insert(msg.queue.clone(), at);
            },
        }
        self.messages.insert(msg.id, msg);
        proof {
            assert(self@.queues =~= old(self)@.store(msg@, now).queues);
            assert(self@.messages =~= old(self)@.store(msg@, now).messages);
            assert(self@ =~= old(self)@.store(msg@, now));
        }
    }

    /// Forgets a message; says whether it was there.
    pub fn remove_message(&mut self, id: u128) -> (removed: bool)
        requires
            old(self).wf(),
        ensures
            final(self).wf(),
            removed == old(self)@.messages.contains_key(id),
            final(self)@ == old(self)@.remove_message(id),
    {
        let removed: bool = self.messages.remove(&id).is_some();
        proof {
            assert(self@.messages =~= old(self)@.remove_message(id).messages);
            assert(self@ =~= old(self)@.remove_message(id));
        }
        removed
    }

    /// What an acknowledgement in the log does; says whether the message was there.
    pub fn apply_ack(&mut self, name: &str, id: u128) -> (removed: bool)
        requires
            old(self).wf(),
        ensures
            final(self).wf(),
            removed == old(self)@.messages.contains_key(id),
            final(self)@ == old(self)@.apply_ack(name@, id),
    {
        self.mark_acked(id);
        let removed: bool = self.remove_message(id);
        self.tombstone(name, id);
        removed
    }

    /// Ends the lease of `id` if it runs under `receipt` at `now`. Says whether it did, and
    /// whether the message was still there.
    pub fn ack_lease(&mut self, name: &str, id: u128, receipt: &str, now: u64) -> (res: (bool, bool))
        requires
            old(self).wf(),
        ensures
            final(self).wf(),
            res.0 == old(self)@.wheel.runs(id, receipt@, now),
            res.1 == (res.0 && old(self)@.messages.contains_key(id)),
            final(self)@ == if res.0 {
                old(self)@.ack_lease(name@, id)
            } else {
                old(self)@
            },
    {
        if !self.wheel.is_running(id, now) || !self.wheel.remove_if_valid(id, receipt) {
            proof {
                assert(self@ =~= old(self)@);
            }
            return (false, false);
        }
        proof {
            assert(self@ =~= ShardView { wheel: old(self)@.wheel.remove(id), ..old(self)@ });
        }
        self.mark_acked(id);
        if self.has_message(id) {
            self.remove_message(id);
            self.tombstone(name, id);
            (true, true)
        } else {
            (true, false)
        }
    }

    /// Takes out the messages whose leases have run out.
    pub fn take_expired(&mut self, now: u64) -> (taken: Vec<StoredMsg>)
        requires
            old(self).wf(),
        ensures
            final(self).wf(),
            (final(self)@, msg_views(taken@)) == old(self)@.take_expired(now),
    {
        let items: Vec<InFlightItem> = self.wheel.collect_expired(now);
        let ghost views = timer_wheel::item_views(items@);
        let ghost messages = old(self)@.messages;
        let mut taken: Vec<StoredMsg> = Vec::new();
        let mut i: usize = 0;
        proof {
            assert(views.take(0) =~= Seq::empty());
            assert(msg_views(taken@) =~= Seq::empty());
        }
        while i < items.len()
            invariant
                i <= items.len(),
                views == timer_wheel::item_views(items@),
                self.queue_index == old(self).queue_index,
                self.queues == old(self).queues,
                self.seen_ids == old(self).seen_ids,
                self.acked_ids == old(self).acked_ids,
                self.wheel@ == old(self)@.wheel.collect(now).0,
                self.wheel.wf(),
                (message_views(self.messages@), msg_views(taken@)) == take_messages(
                    messages,
                    views.take(i as int),
                ),
            decreases items.len() - i,
        {
            let ghost before = self.messages@;
            let ghost listed = taken@;
            let id: u128 = items[i].id;
            proof {
                assert(views.take(i + 1).drop_last() =~= views.take(i as int));
                assert(views.take(i + 1).last() == items@[i as int]@);
            }
            match self.messages.remove(&id) {
                Some(msg) => {
                    taken.push(msg);
                    proof {
                        assert(message_views(self.messages@) =~= message_views(before).remove(id));
                        assert(msg_views(taken@) =~= msg_views(listed).push(message_views(before)[id]));
                    }
                },
                None => {
                    proof {
                        assert(self.messages@ =~= before);
                    }
                },
            }
            i += 1;
        }
        proof {
            assert(views.take(i as int) =~= views);
            assert(self@ =~= old(self)@.take_expired(now).0);
        }
        taken
    }

    /// How many messages of a queue are ready, if there is such a queue.
    pub fn ready_len(&self, name: &str) -> (res: Option<usize>)
        requires
            self.wf(),
        ensures
            match res {
                Some(n) => self@.queues.contains_key(name@) && n == self@.queues[name@].ready_len(),
                None => !self@.queues.contains_key(name@),
            },
    {
        match self.queue_index.get(name) {
            Some(at) => Some(self.queues[*at].ready_len()),
            None => None,
        }
    }

    /// Brings a queue to `now` and takes up to `max` ready ids from it.
    pub fn claim(&mut self, name: &str, now: u64, max: usize) -> (ids: Vec<u128>)
        requires
            old(self).wf(),
            now + HOT_DELAY_HORIZON_SEC <= u64::MAX,
        ensures
            final(self).wf(),
            (final(self)@, ids@) == old(self)@.claim(name@, now, max as nat),
            ids@.len() <= max,
    {
        match self.queue_index.get(name) {
            Some(at) => {
                let i: usize = *at;
                self.queues[i].advance_and_drain(now);
                let claimed: Vec<u128> = self.queues[i].claim(max);
                proof {
                    let target = old(self)@.claim(name@, now, max as nat).0;
                    assert(self@.queues =~= target.queues);
                    assert(self@ =~= target);
                }
                claimed
            },
            None => Vec::new(),
        }
    }

    /// Leases the claimed messages that are still there, each under its receipt.
    pub fn lease(
        &mut self,
        name: &str,
        ids: &Vec<u128>,
        receipts: &Vec<String>,
        expire_at: u64,
    ) -> (polled: Vec<PolledMessage>)
        requires
            old(self).wf(),
            receipts@.len() == ids@.len(),
        ensures
            final(self).wf(),
            (final(self)@, polled_views(polled@)) == old(self)@.lease(
                name@,
                ids@,
                crate::engine::registry::text_views(receipts@),
                expire_at,
            ),
    {
        let ghost texts = crate::engine::registry::text_views(receipts@);
        let mut polled: Vec<PolledMessage> = Vec::new();
        let mut i: usize = 0;
        proof {
            assert(ids@.take(0) =~= Seq::empty());
            assert(polled_views(polled@) =~= Seq::empty());
        }
        while i < ids.len()
            invariant
                self.wf(),
                i <= ids.len(),
                receipts@.len() == ids@.len(),
                texts == crate::engine::registry::text_views(receipts@),
                (self@, polled_views(polled@)) == old(self)@.lease(
                    name@,
                    ids@.take(i as int),
                    texts,
                    expire_at,
                ),
            decreases ids.len() - i,
        {
            let ghost before = self@;
            let ghost listed = polled@;
            let id: u128 = ids[i];
            proof {
                assert(ids@.take(i + 1).drop_last() =~= ids@.take(i as int));
                assert(ids@.take(i + 1).last() == id);
                assert(texts[i as int] == receipts@[i as int]@);
            }
            match self.messages.remove(&id) {
                Some(stored) => {
                    let mut msg = stored;
                    msg.delivery_count = msg.delivery_count.wrapping_add(1);
                    let receipt: String = receipts[i].clone();
                    self.wheel.insert(
                        InFlightItem {
                            id,
                            queue: name.to_owned(),
                            receipt: receipt.clone(),
                            expire_at,
                        },
                    );
                    let payload: Vec<u8> = msg.payload.clone();
                    polled.push(
                        PolledMessage {
                            message_id: format_id(id),
                            payload,
                            receipt_handle: receipt,
                            delivery_count: msg.delivery_count,
                        },
                    );
                    self.messages.insert(id, msg);
                    proof {
                        assert(payload@ =~= msg.payload@);
                        let view = MsgView {
                            delivery_count: ((before.messages[id].delivery_count + 1)
                                % 0x1_0000_0000) as u32,
                            ..before.messages[id]
                        };
                        assert(msg@ =~= view);
                        assert(self@.messages =~= before.messages.insert(id, view));
                        assert(self@.queues =~= before.queues);
                        assert(polled_views(polled@) =~= polled_views(listed).push(
                            PolledView {
                                message_id: ids::ulid_text(id),
                                payload: view.payload,
                                receipt_handle: texts[i as int],
                                delivery_count: view.delivery_count,
                            },
                        ));
                    }
                },
                None => {
                    proof {
                        assert(self@.messages =~= before.messages);
                        assert(self@ =~= before);
                    }
                },
            }
            i += 1;
        }
        proof {
            assert(ids@.take(i as int) =~= ids@);
        }
        polled
    }

    /// Adds the shard's messages to a list, in no particular order.
    pub fn append_survivors(&self, list: &mut Vec<Survivor>)
        requires
            self@.keyed(),
        ensures
            exists|part: Seq<SurvivorView>|
                lists_messages(self@.messages, part) && disk_log::survivor_views(final(list)@)
                    == #[trigger] (disk_log::survivor_views(old(list)@) + part),
    {
        let ghost base = disk_log::survivor_views(list@);
        let ghost mut part: Seq<SurvivorView> = Seq::empty();
        proof {
            assert(base + part =~= base);
        }
        let keys = self.messages.keys();
        let ghost order = vstd::std_specs::iter::IteratorSpec::remaining(&keys);
        for key in it: keys
            invariant
                self@.keyed(),
                it.seq() == order,
                order.unref().to_set() == self.messages@.dom(),
                order.no_duplicates(),
                disk_log::survivor_views(list@) == base + part,
                part.len() == it.index(),
                forall|k: int|
                    0 <= k < part.len() ==> (#[trigger] part[k]).id == *it.seq()[k]
                        && self@.messages.contains_key(part[k].id) && part[k] == survivor_of(
                        self@.messages[part[k].id],
                    ),
        {
            let id: u128 = *key;
            proof {
                assert(it.seq().unref()[it.index() as int] == id);
                assert(it.seq().unref().to_set().contains(id));
                assert(self@.messages.contains_key(id));
            }
            match self.messages.get(&id) {
                Some(msg) => {
                    let ghost prior = list@;
                    let payload: Vec<u8> = msg.payload.clone();
                    list.push((id, msg.queue.clone(), msg.visible_at, payload));
                    proof {
                        assert(payload@ =~= msg.payload@);
                        let view = survivor_of(self@.messages[id]);
                        assert(disk_log::survivor_view(list@.last()) == view);
                        assert(disk_log::survivor_views(list@) =~= disk_log::survivor_views(prior).push(view));
                        part = part.push(view);
                        assert(disk_log::survivor_views(list@) =~= base + part);
                    }
                },
                None => {},
            }
        }
        proof {
            assert forall|id: u128| #[trigger] self@.messages.contains_key(id) implies exists|i: int|
                0 <= i < part.len() && part[i].id == id by {
                assert(order.unref().to_set().contains(id));
                let i = choose|i: int| 0 <= i < order.len() && order.unref()[i] == id;
                assert(part[i].id == id);
            }
            assert(lists_messages(self@.messages, part));
        }
    }
}

}
