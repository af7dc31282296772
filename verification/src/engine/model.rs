//! The engine's state as mathematics: what every operation does to it, and what every
//! operation keeps.
use vstd::prelude::*;
use vstd::utf8;

use crate::engine::compaction;
use crate::engine::disk_log;
use crate::engine::disk_log::{DiskView, SegmentRead, SurvivorView};
use crate::engine::queue::QueueOptions;
use crate::engine::shard;
use crate::engine::shard::{MsgView, PolledView, ShardView};
use crate::engine::single_queue::HOT_DELAY_HORIZON_SEC;
use crate::engine::timer_wheel::ItemView;
use crate::engine::wal::RecordView;
use crate::ids;

verus! {

pub const NUM_SHARDS: usize = 32;

/// The 64-bit FNV-1a hash of a byte sequence.
pub open spec fn fnv1a(data: Seq<u8>) -> u64
    decreases data.len(),
{
    if data.len() == 0 {
        0xcbf29ce484222325
    } else {
        (((fnv1a(data.drop_last()) ^ (data.last() as u64)) * 0x100000001b3) % (u64::MAX + 1)) as u64
    }
}

/// The shard that a queue name belongs to.
pub open spec fn shard_of(queue: Seq<char>) -> int {
    fnv1a(utf8::encode_utf8(queue)) as int % NUM_SHARDS as int
}

/// The dead letter queue of a queue.
pub open spec fn dlq_name(queue: Seq<char>) -> Seq<char> {
    queue + ".dlq"@
}

/// A number as far as a machine word holds it.
pub open spec fn wrap(n: int) -> usize {
    (n % (usize::MAX + 1)) as usize
}

/// The list holds the messages of the first `n` shards, shard by shard, each shard's in
/// any order.
pub open spec fn lists_shards(shards: Seq<ShardView>, n: nat, list: Seq<SurvivorView>) -> bool
    decreases n,
{
    if n == 0 {
        list.len() == 0
    } else {
        exists|head: Seq<SurvivorView>, part: Seq<SurvivorView>|
            list == #[trigger] (head + part) && lists_shards(shards, (n - 1) as nat, head)
                && shard::lists_messages(shards[n - 1].messages, part)
    }
}

/// A message to be pushed: its payload and its delay.
pub struct PushView {
    pub payload: Seq<u8>,
    pub delay_seconds: u64,
}

/// The mathematical content of a queue engine.
#[verifier::ext_equal]
pub struct EngineView {
    pub shards: Seq<ShardView>,
    pub disk: DiskView,
    pub options: QueueOptions,
    pub base_epoch_sec: u64,
    pub total_in_ram: usize,
    pub spill_offset: u64,
}

/// What holds of a shard and its number: its messages and queues hash to it, and it has
/// seen every message that it keeps.
pub open spec fn shard_holds(s: ShardView, at: int) -> bool {
    &&& s.keyed()
    &&& forall|id: u128| #[trigger]
        s.messages.contains_key(id) ==> shard_of(s.messages[id].queue) == at && s.seen.contains(id)
    &&& forall|name: Seq<char>| #[trigger] s.queues.contains_key(name) ==> shard_of(name) == at
}

impl EngineView {
    /// There are 32 shards, and each keeps what belongs to it.
    pub open spec fn inv(self) -> bool {
        &&& self.shards.len() == NUM_SHARDS
        &&& forall|at: int|
            0 <= at < NUM_SHARDS ==> shard_holds(#[trigger] self.shards[at], at)
    }

    /// There are 32 shards, with nothing in them but what is known to be acknowledged.
    pub open spec fn is_clear(self) -> bool {
        &&& self.shards.len() == NUM_SHARDS
        &&& forall|at: int|
            0 <= at < NUM_SHARDS ==> #[trigger] self.shards[at] == self.shards[at].cleared()
    }

    /// The shard of a queue.
    pub open spec fn shard(self, queue: Seq<char>) -> ShardView {
        self.shards[shard_of(queue)]
    }

    pub open spec fn with_shard(self, queue: Seq<char>, s: ShardView) -> EngineView {
        EngineView { shards: self.shards.update(shard_of(queue), s), ..self }
    }

    pub open spec fn with_disk(self, disk: DiskView) -> EngineView {
        EngineView { disk, ..self }
    }

    pub open spec fn with_total(self, n: int) -> EngineView {
        EngineView { total_in_ram: wrap(n), ..self }
    }

    /// A message that was not delivered yet.
    pub open spec fn fresh_msg(
        self,
        id: u128,
        queue: Seq<char>,
        payload: Seq<u8>,
        visible_at: u64,
    ) -> MsgView {
        MsgView {
            id,
            queue,
            payload,
            visible_at,
            delivery_count: 0,
            max_delivery: self.options.max_delivery_count,
        }
    }

    /// Takes note of a pushed message, and keeps it in memory if it is due within the
    /// horizon and there is room.
    pub open spec fn accept(
        self,
        queue: Seq<char>,
        id: u128,
        payload: Seq<u8>,
        visible_at: u64,
        now: u64,
    ) -> EngineView {
        let s = self.shard(queue).mark_seen(id);
        if visible_at <= now + HOT_DELAY_HORIZON_SEC && self.total_in_ram
            < self.options.max_hot_messages_in_ram && !s.messages.contains_key(id) {
            self.with_shard(
                queue,
                s.store(self.fresh_msg(id, queue, payload, visible_at), now),
            ).with_total(self.total_in_ram + 1)
        } else {
            self.with_shard(queue, s)
        }
    }

    /// The active segment, which holds these records, is compacted to the pushes in it that
    /// are not acknowledged, and the log is read from its start again.
    pub open spec fn compacted(self, records: Seq<RecordView>) -> EngineView {
        EngineView {
            disk: self.disk.compact(compaction::carried(records)),
            spill_offset: 0,
            ..self
        }
    }

    /// What a push of this id comes to: it is logged, unless the id is known to be
    /// acknowledged, and taken in unless the id was seen before.
    pub open spec fn pushes_to(
        self,
        queue: Seq<char>,
        id: u128,
        payload: Seq<u8>,
        visible_at: u64,
        now: u64,
        post: EngineView,
    ) -> bool {
        let s = self.shard(queue);
        let logged = self.with_disk(
            self.disk.append_push(id, queue, visible_at, payload).flush(),
        );
        if s.seen.contains(id) && s.acked.contains(id) {
            post == self
        } else if s.seen.contains(id) {
            post == logged
        } else {
            post == logged.accept(queue, id, payload, visible_at, now)
        }
    }

    /// One message of a batch: ids that were seen before are passed over.
    pub open spec fn batch_step(
        self,
        queue: Seq<char>,
        id: u128,
        item: PushView,
        now: u64,
    ) -> EngineView {
        if self.shard(queue).seen.contains(id) {
            self
        } else {
            let visible_at = (now + item.delay_seconds) as u64;
            self.with_disk(self.disk.append_push(id, queue, visible_at, item.payload)).accept(
                queue,
                id,
                item.payload,
                visible_at,
                now,
            )
        }
    }

    pub open spec fn batch(
        self,
        queue: Seq<char>,
        ids: Seq<u128>,
        items: Seq<PushView>,
        now: u64,
    ) -> EngineView
        decreases ids.len(),
    {
        if ids.len() == 0 {
            self
        } else {
            let k = ids.len() - 1;
            self.batch(queue, ids.drop_last(), items, now).batch_step(queue, ids[k], items[k], now)
        }
    }

    /// What a push of a batch comes to.
    pub open spec fn batch_pushes_to(
        self,
        queue: Seq<char>,
        ids: Seq<u128>,
        items: Seq<PushView>,
        now: u64,
        post: EngineView,
    ) -> bool {
        let pushed = self.batch(queue, ids, items, now);
        post == pushed.with_disk(pushed.disk.flush())
    }

    /// The log with a message's move to its dead letter queue: the push of the dead letter,
    /// and the acknowledgement that ends the push of the message.
    pub open spec fn log_dead_letter(self, msg: MsgView, now: u64) -> DiskView {
        self.disk.append_push(msg.id, dlq_name(msg.queue), now, msg.payload).append_ack(
            msg.id,
            msg.queue,
        )
    }

    /// A message whose lease ran out goes back to its queue, or to the dead letter queue
    /// if it was delivered as often as it may be.
    pub open spec fn route(self, msg: MsgView, now: u64) -> EngineView {
        if msg.delivery_count >= msg.max_delivery {
            let dead = dlq_name(msg.queue);
            let given_up = self.with_disk(self.log_dead_letter(msg, now)).with_shard(
                msg.queue,
                self.shard(msg.queue).mark_acked(msg.id).tombstone(msg.queue, msg.id),
            );
            given_up.with_shard(
                dead,
                given_up.shard(dead).mark_seen(msg.id).store(
                    MsgView { queue: dead, visible_at: now, ..msg },
                    now,
                ),
            )
        } else {
            self.with_shard(
                msg.queue,
                self.shard(msg.queue).store(MsgView { visible_at: now, ..msg }, now),
            )
        }
    }

    pub open spec fn route_all(self, msgs: Seq<MsgView>, now: u64) -> EngineView
        decreases msgs.len(),
    {
        if msgs.len() == 0 {
            self
        } else {
            self.route_all(msgs.drop_last(), now).route(msgs.last(), now)
        }
    }

    /// Ends the leases in a queue's shard that have run out.
    pub open spec fn expire(self, queue: Seq<char>, now: u64) -> EngineView {
        let (s, taken) = self.shard(queue).take_expired(now);
        self.with_shard(queue, s).route_all(taken, now)
    }

    /// Fewer messages of the queue than this are ready.
    pub open spec fn runs_low(self, queue: Seq<char>, threshold: nat) -> bool {
        let s = self.shard(queue);
        s.queues.contains_key(queue) ==> s.queues[queue].ready_len() < threshold
    }

    /// Takes up to `max` ready ids from a queue.
    pub open spec fn claim(self, queue: Seq<char>, now: u64, max: nat) -> (EngineView, Seq<u128>) {
        let (s, ids) = self.shard(queue).claim(queue, now, max);
        (self.with_shard(queue, s), ids)
    }

    /// Leases claimed messages until `expire_at`.
    pub open spec fn lease(
        self,
        queue: Seq<char>,
        ids: Seq<u128>,
        receipts: Seq<Seq<char>>,
        expire_at: u64,
    ) -> (EngineView, Seq<PolledView>) {
        let (s, polled) = self.shard(queue).lease(queue, ids, receipts, expire_at);
        (self.with_shard(queue, s), polled)
    }

    /// The lease time for a poll that asks for `visibility_sec`.
    pub open spec fn timeout(self, visibility_sec: u32) -> u32 {
        if visibility_sec == 0 {
            self.options.default_visibility_timeout_sec
        } else {
            visibility_sec
        }
    }

    /// A pushed message in the log is one to page in: due within the horizon, not in
    /// memory, not acknowledged.
    pub open spec fn wants_in(self, record: RecordView, now: u64) -> bool {
        match record {
            RecordView::Push { msg_id, queue_name, visible_at, payload } => {
                let s = self.shard(queue_name);
                visible_at <= now + HOT_DELAY_HORIZON_SEC && !s.messages.contains_key(msg_id)
                    && !s.acked.contains(msg_id)
            },
            RecordView::Ack { .. } => false,
        }
    }

    /// Memory is full.
    pub open spec fn is_full(self) -> bool {
        self.total_in_ram >= self.options.max_hot_messages_in_ram
    }

    /// A pushed message in the log is one to page in, and there is room for it.
    pub open spec fn pages_in(self, record: RecordView, now: u64) -> bool {
        self.wants_in(record, now) && !self.is_full()
    }

    /// A pushed message in the log is one to page in, but there is no room for it.
    pub open spec fn stops_before(self, record: RecordView, now: u64) -> bool {
        self.wants_in(record, now) && self.is_full()
    }

    /// An acknowledgement in the log.
    pub open spec fn apply_ack(self, queue: Seq<char>, id: u128) -> EngineView {
        let e = self.with_shard(queue, self.shard(queue).apply_ack(queue, id));
        if self.shard(queue).messages.contains_key(id) {
            e.with_total(self.total_in_ram - 1)
        } else {
            e
        }
    }

    /// What paging in does with one record of the log.
    pub open spec fn page_record(self, record: RecordView, now: u64) -> EngineView {
        match record {
            RecordView::Push { msg_id, queue_name, visible_at, payload } => if self.pages_in(
                record,
                now,
            ) {
                self.with_shard(
                    queue_name,
                    self.shard(queue_name).mark_seen(msg_id).store(
                        self.fresh_msg(msg_id, queue_name, payload, visible_at),
                        now,
                    ),
                ).with_total(self.total_in_ram + 1)
            } else {
                self
            },
            RecordView::Ack { msg_id, queue_name } => self.apply_ack(queue_name, msg_id),
        }
    }

    pub open spec fn page_records(self, records: Seq<RecordView>, now: u64) -> EngineView
        decreases records.len(),
    {
        if records.len() == 0 {
            self
        } else {
            self.page_records(records.drop_last(), now).page_record(records.last(), now)
        }
    }

    /// How many of the records are paged in before the first for which there is no room.
    pub open spec fn page_count(self, records: Seq<RecordView>, now: u64) -> nat
        decreases records.len(),
    {
        if records.len() == 0 {
            0
        } else {
            let head = records.drop_last();
            let n = self.page_count(head, now);
            if n < head.len() || self.page_records(head, now).stops_before(records.last(), now) {
                n
            } else {
                records.len()
            }
        }
    }

    /// One of the records adds a message to the target queue.
    pub open spec fn pages_in_for(
        self,
        records: Seq<RecordView>,
        target: Seq<char>,
        now: u64,
    ) -> bool
        decreases records.len(),
    {
        records.len() > 0 && (self.pages_in_for(records.drop_last(), target, now) || (
        self.page_records(records.drop_last(), now).pages_in(records.last(), now)
            && queue_of(records.last()) == target))
    }

    /// What recovery does with one record of the log: every push of an id that was not seen
    /// before is noted, and kept in memory if it is due within the horizon and there is room.
    pub open spec fn replay_record(self, record: RecordView) -> EngineView {
        match record {
            RecordView::Push { msg_id, queue_name, visible_at, payload } => {
                let s = self.shard(queue_name).mark_seen(msg_id);
                if self.shard(queue_name).seen.contains(msg_id) {
                    self
                } else if visible_at <= self.base_epoch_sec + HOT_DELAY_HORIZON_SEC
                    && self.total_in_ram < self.options.max_hot_messages_in_ram {
                    self.with_shard(
                        queue_name,
                        s.store(
                            self.fresh_msg(msg_id, queue_name, payload, visible_at),
                            self.base_epoch_sec,
                        ),
                    ).with_total(self.total_in_ram + 1)
                } else {
                    self.with_shard(queue_name, s)
                }
            },
            RecordView::Ack { msg_id, queue_name } => {
                let e = self.with_shard(
                    queue_name,
                    self.shard(queue_name).apply_ack(queue_name, msg_id),
                );
                if self.shard(queue_name).messages.contains_key(msg_id) && self.total_in_ram > 0 {
                    e.with_total(self.total_in_ram - 1)
                } else {
                    e
                }
            },
        }
    }

    pub open spec fn replay(self, records: Seq<RecordView>) -> EngineView
        decreases records.len(),
    {
        if records.len() == 0 {
            self
        } else {
            self.replay(records.drop_last()).replay_record(records.last())
        }
    }

    /// An engine with nothing in memory.
    pub open spec fn blank(disk: DiskView, options: QueueOptions, base_epoch_sec: u64) -> EngineView {
        EngineView {
            shards: Seq::new(NUM_SHARDS as nat, |i: int| ShardView::empty()),
            disk,
            options,
            base_epoch_sec,
            total_in_ram: 0,
            spill_offset: 0,
        }
    }

    /// A lease on this message of the queue runs under this receipt.
    pub open spec fn leased(self, queue: Seq<char>, id: u128, receipt: Seq<char>) -> bool {
        self.shard(queue).wheel.holds(id, receipt)
    }

    /// A lease on this message of the queue runs under this receipt, and its time is not
    /// over.
    pub open spec fn runs(self, queue: Seq<char>, id: u128, receipt: Seq<char>, now: u64) -> bool {
        self.shard(queue).wheel.runs(id, receipt, now)
    }

    /// What an acknowledgement by a receipt comes to.
    pub open spec fn acks_to(self, queue: Seq<char>, id: u128, post: EngineView) -> bool {
        post == self.ack_lease(queue, id).with_disk(self.disk.append_ack(id, queue).flush())
    }

    /// What a batch of acknowledgements comes to.
    pub open spec fn batch_acks_to(
        self,
        queue: Seq<char>,
        items: Seq<(Seq<char>, Seq<char>)>,
        now: u64,
        post: EngineView,
    ) -> bool {
        let acked = self.ack_all(queue, items, now);
        post == if self.ack_count(queue, items, now) > 0 {
            acked.with_disk(acked.disk.flush())
        } else {
            acked
        }
    }

    /// What an acknowledgement that was decided elsewhere comes to.
    pub open spec fn follower_acks_to(self, queue: Seq<char>, id: u128, post: EngineView) -> bool {
        post == self.apply_ack(queue, id).with_disk(self.disk.append_ack(id, queue).flush())
    }

    /// The engine without anything in memory but what is known to be acknowledged; the log
    /// stays as it is.
    pub open spec fn cleared(self) -> EngineView {
        EngineView {
            shards: self.shards.map_values(|s: ShardView| s.cleared()),
            total_in_ram: 0,
            spill_offset: 0,
            ..self
        }
    }

    /// The end of a lease by its receipt.
    pub open spec fn ack_lease(self, queue: Seq<char>, id: u128) -> EngineView {
        let e = self.with_shard(queue, self.shard(queue).ack_lease(queue, id));
        if self.shard(queue).messages.contains_key(id) {
            e.with_total(self.total_in_ram - 1)
        } else {
            e
        }
    }

    /// An acknowledgement by id text and receipt is one to accept.
    pub open spec fn ack_is_valid(
        self,
        queue: Seq<char>,
        id_text: Seq<char>,
        receipt: Seq<char>,
        now: u64,
    ) -> bool {
        ids::id_value(id_text) matches Some(id) && self.runs(queue, id, receipt, now)
    }

    /// An acknowledgement by id text and receipt is one to accept, and takes the message out
    /// of memory.
    pub open spec fn ack_removes(
        self,
        queue: Seq<char>,
        id_text: Seq<char>,
        receipt: Seq<char>,
        now: u64,
    ) -> bool {
        self.ack_is_valid(queue, id_text, receipt, now) && self.shard(
            queue,
        ).messages.contains_key(ids::id_value(id_text).unwrap())
    }

    /// One acknowledgement of a batch.
    pub open spec fn ack_step(
        self,
        queue: Seq<char>,
        id_text: Seq<char>,
        receipt: Seq<char>,
        now: u64,
    ) -> EngineView {
        if self.ack_is_valid(queue, id_text, receipt, now) {
            let id = ids::id_value(id_text).unwrap();
            self.with_disk(self.disk.append_ack(id, queue)).ack_lease(queue, id)
        } else {
            self
        }
    }

    pub open spec fn ack_all(
        self,
        queue: Seq<char>,
        items: Seq<(Seq<char>, Seq<char>)>,
        now: u64,
    ) -> EngineView
        decreases items.len(),
    {
        if items.len() == 0 {
            self
        } else {
            self.ack_all(queue, items.drop_last(), now).ack_step(
                queue,
                items.last().0,
                items.last().1,
                now,
            )
        }
    }

    /// The acknowledgement at `k` of a batch takes a message out of memory when its turn
    /// comes.
    pub open spec fn ack_is_accepted(
        self,
        queue: Seq<char>,
        items: Seq<(Seq<char>, Seq<char>)>,
        k: int,
        now: u64,
    ) -> bool {
        self.ack_all(queue, items.take(k), now).ack_removes(queue, items[k].0, items[k].1, now)
    }

    /// The acknowledgements of a batch that take a message out of memory, each where its turn
    /// comes, in order.
    pub open spec fn accepted_acks(
        self,
        queue: Seq<char>,
        items: Seq<(Seq<char>, Seq<char>)>,
        now: u64,
    ) -> Seq<(Seq<char>, Seq<char>)>
        decreases items.len(),
    {
        if items.len() == 0 {
            Seq::empty()
        } else {
            let before = self.ack_all(queue, items.drop_last(), now);
            let accepted = self.accepted_acks(queue, items.drop_last(), now);
            if before.ack_removes(queue, items.last().0, items.last().1, now) {
                accepted.push(items.last())
            } else {
                accepted
            }
        }
    }

    /// How many messages a batch of acknowledgements takes out of memory.
    pub open spec fn ack_count(
        self,
        queue: Seq<char>,
        items: Seq<(Seq<char>, Seq<char>)>,
        now: u64,
    ) -> nat {
        self.accepted_acks(queue, items, now).len()
    }
}

/// How many messages of a queue are to be ready before a poll, for none to be missed.
pub open spec fn prefetch_threshold(max_messages: u32) -> usize {
    let doubled = if max_messages as int * 2 > usize::MAX {
        usize::MAX
    } else {
        (max_messages * 2) as usize
    };
    if doubled < 200 {
        200
    } else {
        doubled
    }
}

/// The mathematical content of a scan of the log for messages that are only on disk.
#[verifier::ext_equal]
pub struct ScanView {
    pub target_queue: Seq<char>,
    pub now: u64,
    pub fetch_limit: usize,
    pub flushed: bool,
}

impl ScanView {
    pub open spec fn begin(target_queue: Seq<char>, now: u64, needed: usize) -> ScanView {
        ScanView {
            target_queue,
            now,
            fetch_limit: if needed < 1000 { 1000 } else { needed },
            flushed: false,
        }
    }
}

impl EngineView {
    /// One step of a scan, given what reading the log at the scan's offset gave: the engine
    /// and the scan after it, and whether the scan goes on. A scan ends when the target
    /// queue got a message, memory is full, reading failed, or the log is at its end for the
    /// second time; the next scan then starts over. A record for which there is no room is
    /// left for the next scan to start with.
    pub open spec fn page_step(self, scan: ScanView, read: SegmentRead) -> (
        EngineView,
        ScanView,
        bool,
    ) {
        match disk_log::entries_from(
            self.disk.registry,
            self.spill_offset,
            scan.fetch_limit,
            read,
        ) {
            None => (self, scan, false),
            Some((records, next)) => if records.len() > 0 {
                let n = self.page_count(records, scan.now);
                if !has_push(records) {
                    (EngineView { spill_offset: next, ..self }, scan, true)
                } else {
                    let paged = self.page_records(records.take(n as int), scan.now);
                    let end = if n == records.len() {
                        next
                    } else {
                        disk_log::offset_behind(self.disk.registry, self.spill_offset, n, read)
                    };
                    (
                        EngineView { spill_offset: end, ..paged },
                        scan,
                        n == records.len() && !self.pages_in_for(
                            records,
                            scan.target_queue,
                            scan.now,
                        ) && !paged.is_full(),
                    )
                }
            } else if !scan.flushed {
                (self.with_disk(self.disk.flush()), ScanView { flushed: true, ..scan }, true)
            } else if next > 0 {
                (EngineView { spill_offset: 0, ..self }, scan, false)
            } else {
                (self, scan, false)
            },
        }
    }
}

/// The texts of a sequence of ids.
pub open spec fn id_texts(ids: Seq<u128>) -> Seq<Seq<char>> {
    ids.map_values(|id: u128| ids::ulid_text(id))
}

/// The queue that a record is about.
pub open spec fn queue_of(record: RecordView) -> Seq<char> {
    match record {
        RecordView::Push { queue_name, .. } => queue_name,
        RecordView::Ack { queue_name, .. } => queue_name,
    }
}

/// One of the records is a push.
pub open spec fn has_push(records: Seq<RecordView>) -> bool {
    exists|i: int| 0 <= i < records.len() && #[trigger] records[i] is Push
}

/// Numbers one step outside a machine word wrap around.
pub proof fn lemma_wrap(n: int)
    ensures
        0 <= n <= usize::MAX ==> wrap(n) == n,
        n == -1 ==> wrap(n) == usize::MAX,
        n == usize::MAX + 1 ==> wrap(n) == 0,
{
    let m = usize::MAX + 1;
    if 0 <= n <= usize::MAX {
        vstd::arithmetic::div_mod::lemma_small_mod(n as nat, m as nat);
    } else if n == -1 {
        vstd::arithmetic::div_mod::lemma_mod_add_multiples_vanish(n, m);
        vstd::arithmetic::div_mod::lemma_small_mod((m - 1) as nat, m as nat);
    } else if n == m {
        vstd::arithmetic::div_mod::lemma_mod_self_0(m);
    }
}

pub proof fn lemma_shard_of_bound(queue: Seq<char>)
    ensures
        0 <= shard_of(queue) < NUM_SHARDS,
{
}

proof fn lemma_encode_concat(a: Seq<char>, b: Seq<char>)
    ensures
        utf8::encode_utf8(a + b) == utf8::encode_utf8(a) + utf8::encode_utf8(b),
    decreases a.len(),
{
    if a.len() == 0 {
        assert(a + b =~= b);
        assert(utf8::encode_utf8(a) + utf8::encode_utf8(b) =~= utf8::encode_utf8(b));
    } else {
        lemma_encode_concat(a.drop_first(), b);
        assert((a + b).drop_first() =~= a.drop_first() + b);
        let first = utf8::encode_scalar(a[0] as u32);
        assert(first + (utf8::encode_utf8(a.drop_first()) + utf8::encode_utf8(b)) =~= (first
            + utf8::encode_utf8(a.drop_first())) + utf8::encode_utf8(b));
    }
}

/// The lowest five bits of a hash, and with them the shard, depend on the lowest five bits
/// of what was hashed before.
proof fn lemma_hash_low_bits(data: Seq<u8>, byte: u8)
    ensures
        fnv1a(data.push(byte)) % 32 == (((fnv1a(data) % 32) ^ (byte as u64 % 32)) * 19) % 32,
{
    assert(data.push(byte).drop_last() =~= data);
    let h = fnv1a(data);
    let b = byte as u64;
    assert(((h ^ b) * 0x100000001b3u64) % 0x1_0000_0000_0000_0000 % 32 == (((h % 32) ^ (b % 32))
        * 19) % 32) by (bit_vector);
}

/// A queue and its dead letter queue belong to different shards.
pub proof fn law_dead_letters_go_to_another_shard(queue: Seq<char>)
    ensures
        shard_of(dlq_name(queue)) != shard_of(queue),
{
    reveal_strlit(".dlq");
    let tail = ".dlq"@;
    let data = utf8::encode_utf8(queue);
    lemma_encode_concat(queue, tail);
    utf8::is_ascii_chars_encode_utf8(tail);
    let one = data.push(46);
    let two = one.push(100);
    let three = two.push(108);
    let four = three.push(113);
    assert(utf8::encode_utf8(dlq_name(queue)) =~= four);
    lemma_hash_low_bits(data, 46);
    lemma_hash_low_bits(one, 100);
    lemma_hash_low_bits(two, 108);
    lemma_hash_low_bits(three, 113);
    let h = fnv1a(data) % 32;
    let h1 = fnv1a(one) % 32;
    let h2 = fnv1a(two) % 32;
    let h3 = fnv1a(three) % 32;
    let h4 = fnv1a(four) % 32;
    assert(h4 != h) by (bit_vector)
        requires
            h < 32,
            h1 == ((h ^ (46u64 % 32)) * 19) % 32,
            h2 == ((h1 ^ (100u64 % 32)) * 19) % 32,
            h3 == ((h2 ^ (108u64 % 32)) * 19) % 32,
            h4 == ((h3 ^ (113u64 % 32)) * 19) % 32,
    ;
}

pub proof fn lemma_hash_step(data: Seq<u8>, i: int)
    requires
        0 <= i < data.len(),
    ensures
        fnv1a(data.take(i + 1)) == ((fnv1a(data.take(i)) ^ (data[i] as u64)) * 0x100000001b3) % (
        u64::MAX + 1),
{
    assert(data.take(i + 1).drop_last() =~= data.take(i));
}

pub proof fn lemma_with_shard_inv(e: EngineView, queue: Seq<char>, s: ShardView)
    requires
        e.inv(),
        shard_holds(s, shard_of(queue)),
    ensures
        e.with_shard(queue, s).inv(),
{
    lemma_shard_of_bound(queue);
}

pub proof fn lemma_store_holds(s: ShardView, at: int, msg: MsgView, now: u64)
    requires
        shard_holds(s, at),
        shard_of(msg.queue) == at,
        s.seen.contains(msg.id),
    ensures
        shard_holds(s.store(msg, now), at),
{
}

pub proof fn lemma_tombstone_holds(s: ShardView, at: int, name: Seq<char>, id: u128)
    requires
        shard_holds(s, at),
    ensures
        shard_holds(s.tombstone(name, id), at),
{
}

proof fn lemma_take_messages(s: ShardView, at: int, items: Seq<ItemView>)
    requires
        shard_holds(s, at),
    ensures
        forall|id: u128| #[trigger]
            shard::take_messages(s.messages, items).0.contains_key(id) ==> s.messages.contains_key(
                id,
            ) && shard::take_messages(s.messages, items).0[id] == s.messages[id],
        forall|k: int|
            0 <= k < shard::take_messages(s.messages, items).1.len() ==> {
                let msg = #[trigger] shard::take_messages(s.messages, items).1[k];
                &&& s.messages.contains_key(msg.id)
                &&& s.messages[msg.id] == msg
                &&& !shard::take_messages(s.messages, items).0.contains_key(msg.id)
            },
        forall|i: int, j: int|
            0 <= i < j < shard::take_messages(s.messages, items).1.len() ==> (
            #[trigger] shard::take_messages(s.messages, items).1[i]).id != (
            #[trigger] shard::take_messages(s.messages, items).1[j]).id,
    decreases items.len(),
{
    if items.len() > 0 {
        lemma_take_messages(s, at, items.drop_last());
        let (rest, taken) = shard::take_messages(s.messages, items.drop_last());
        let id = items.last().id;
        if rest.contains_key(id) {
            let (after, all) = shard::take_messages(s.messages, items);
            assert(after == rest.remove(id) && all == taken.push(rest[id]));
            assert(s.messages.contains_key(id) && s.messages[id] == rest[id]);
            assert forall|k: int| 0 <= k < all.len() implies {
                let msg = #[trigger] all[k];
                &&& s.messages.contains_key(msg.id)
                &&& s.messages[msg.id] == msg
                &&& !after.contains_key(msg.id)
            } by {
                if k < taken.len() {
                    assert(all[k] == taken[k]);
                }
            }
            assert forall|i: int, j: int| 0 <= i < j < all.len() implies (#[trigger] all[i]).id != (
            #[trigger] all[j]).id by {
                assert(all[i] == taken[i]);
                if j < taken.len() {
                    assert(all[j] == taken[j]);
                } else {
                    assert(!rest.contains_key(taken[i].id));
                }
            }
        }
    }
}

/// The messages whose leases ran out were in the shard, each once, and are not any more.
pub proof fn lemma_take_expired(s: ShardView, at: int, now: u64)
    requires
        shard_holds(s, at),
    ensures
        ({
            let (after, taken) = s.take_expired(now);
            &&& shard_holds(after, at)
            &&& after.seen == s.seen
            &&& after.messages.submap_of(s.messages)
            &&& forall|k: int|
                0 <= k < taken.len() ==> {
                    let msg = #[trigger] taken[k];
                    &&& s.messages.contains_key(msg.id)
                    &&& s.messages[msg.id] == msg
                    &&& !after.messages.contains_key(msg.id)
                    &&& shard_of(msg.queue) == at
                    &&& s.seen.contains(msg.id)
                }
            &&& forall|i: int, j: int|
                0 <= i < j < taken.len() ==> (#[trigger] taken[i]).id != (#[trigger] taken[j]).id
        }),
{
    let items = s.wheel.collect(now).1;
    lemma_take_messages(s, at, items);
    let (after, taken) = s.take_expired(now);
    let (messages, listed) = shard::take_messages(s.messages, items);
    assert(after.messages == messages && taken == listed);
    assert forall|id: u128| #[trigger] after.messages.contains_key(id) implies
        s.messages.contains_key(id) && after.messages[id] == s.messages[id] by {
        assert(messages.contains_key(id));
    }
}

pub proof fn lemma_lease_holds(
    s: ShardView,
    at: int,
    name: Seq<char>,
    ids: Seq<u128>,
    receipts: Seq<Seq<char>>,
    expire_at: u64,
)
    requires
        shard_holds(s, at),
    ensures
        shard_holds(s.lease(name, ids, receipts, expire_at).0, at),
    decreases ids.len(),
{
    if ids.len() > 0 {
        lemma_lease_holds(s, at, name, ids.drop_last(), receipts, expire_at);
    }
}

pub proof fn lemma_accept_inv(
    e: EngineView,
    queue: Seq<char>,
    id: u128,
    payload: Seq<u8>,
    visible_at: u64,
    now: u64,
)
    requires
        e.inv(),
    ensures
        e.accept(queue, id, payload, visible_at, now).inv(),
{
    lemma_shard_of_bound(queue);
    let s = e.shard(queue).mark_seen(id);
    assert(shard_holds(s, shard_of(queue)));
    lemma_store_holds(s, shard_of(queue), e.fresh_msg(id, queue, payload, visible_at), now);
}

pub proof fn lemma_route_inv(e: EngineView, msg: MsgView, now: u64)
    requires
        e.inv(),
        e.shard(msg.queue).seen.contains(msg.id),
    ensures
        e.route(msg, now).inv(),
        forall|at: int, id: u128|
            0 <= at < NUM_SHARDS && (#[trigger] e.shards[at]).seen.contains(id)
                ==> #[trigger] e.route(msg, now).shards[at].seen.contains(id),
{
    lemma_shard_of_bound(msg.queue);
    let at = shard_of(msg.queue);
    if msg.delivery_count >= msg.max_delivery {
        let dead = dlq_name(msg.queue);
        lemma_shard_of_bound(dead);
        let s = e.shard(msg.queue).mark_acked(msg.id);
        assert(shard_holds(s, at));
        lemma_tombstone_holds(s, at, msg.queue, msg.id);
        let given_up = e.with_shard(msg.queue, s.tombstone(msg.queue, msg.id));
        lemma_with_shard_inv(e, msg.queue, s.tombstone(msg.queue, msg.id));
        let t = given_up.shard(dead).mark_seen(msg.id);
        assert(shard_holds(t, shard_of(dead)));
        lemma_store_holds(t, shard_of(dead), MsgView { queue: dead, visible_at: now, ..msg }, now);
    } else {
        lemma_store_holds(e.shard(msg.queue), at, MsgView { visible_at: now, ..msg }, now);
    }
}

pub proof fn lemma_route_all_inv(e: EngineView, msgs: Seq<MsgView>, now: u64)
    requires
        e.inv(),
        forall|k: int|
            0 <= k < msgs.len() ==> e.shard((#[trigger] msgs[k]).queue).seen.contains(msgs[k].id),
    ensures
        e.route_all(msgs, now).inv(),
        forall|at: int, id: u128|
            0 <= at < NUM_SHARDS && (#[trigger] e.shards[at]).seen.contains(id)
                ==> #[trigger] e.route_all(msgs, now).shards[at].seen.contains(id),
    decreases msgs.len(),
{
    if msgs.len() > 0 {
        let head = msgs.drop_last();
        assert forall|k: int| 0 <= k < head.len() implies e.shard(
            (#[trigger] head[k]).queue,
        ).seen.contains(head[k].id) by {
            assert(head[k] == msgs[k]);
        }
        lemma_route_all_inv(e, head, now);
        let last = msgs[msgs.len() - 1];
        lemma_shard_of_bound(last.queue);
        assert(e.shards[shard_of(last.queue)].seen.contains(last.id));
        lemma_route_inv(e.route_all(head, now), last, now);
    }
}

pub proof fn lemma_claim_inv(e: EngineView, queue: Seq<char>, now: u64, max: nat)
    requires
        e.inv(),
    ensures
        e.claim(queue, now, max).0.inv(),
{
    lemma_shard_of_bound(queue);
}

pub proof fn lemma_lease_inv(
    e: EngineView,
    queue: Seq<char>,
    ids: Seq<u128>,
    receipts: Seq<Seq<char>>,
    expire_at: u64,
)
    requires
        e.inv(),
    ensures
        e.lease(queue, ids, receipts, expire_at).0.inv(),
{
    lemma_shard_of_bound(queue);
    lemma_lease_holds(e.shard(queue), shard_of(queue), queue, ids, receipts, expire_at);
}

pub proof fn lemma_shard_ack_holds(s: ShardView, at: int, name: Seq<char>, id: u128)
    requires
        shard_holds(s, at),
    ensures
        shard_holds(s.apply_ack(name, id), at),
        shard_holds(s.ack_lease(name, id), at),
{
    let gone = s.mark_acked(id).remove_message(id);
    assert(shard_holds(gone, at));
    lemma_tombstone_holds(gone, at, name, id);
    let released = (ShardView { wheel: s.wheel.remove(id), ..s }).mark_acked(id);
    assert(shard_holds(released, at));
    assert(shard_holds(released.remove_message(id), at));
    lemma_tombstone_holds(released.remove_message(id), at, name, id);
}

pub proof fn lemma_ack_inv(e: EngineView, queue: Seq<char>, id: u128)
    requires
        e.inv(),
    ensures
        e.apply_ack(queue, id).inv(),
        e.ack_lease(queue, id).inv(),
{
    lemma_shard_of_bound(queue);
    lemma_shard_ack_holds(e.shard(queue), shard_of(queue), queue, id);
}

pub proof fn lemma_page_record_inv(e: EngineView, record: RecordView, now: u64)
    requires
        e.inv(),
    ensures
        e.page_record(record, now).inv(),
{
    match record {
        RecordView::Push { msg_id, queue_name, visible_at, payload } => {
            lemma_shard_of_bound(queue_name);
            let s = e.shard(queue_name).mark_seen(msg_id);
            assert(shard_holds(s, shard_of(queue_name)));
            lemma_store_holds(
                s,
                shard_of(queue_name),
                e.fresh_msg(msg_id, queue_name, payload, visible_at),
                now,
            );
        },
        RecordView::Ack { msg_id, queue_name } => {
            lemma_ack_inv(e, queue_name, msg_id);
        },
    }
}

/// Paging in changes what is in memory only.
pub proof fn lemma_page_records_frame(e: EngineView, records: Seq<RecordView>, now: u64)
    ensures
        e.page_records(records, now).disk == e.disk,
        e.page_records(records, now).options == e.options,
        e.page_records(records, now).base_epoch_sec == e.base_epoch_sec,
        e.page_records(records, now).spill_offset == e.spill_offset,
        e.inv() ==> e.page_records(records, now).inv(),
    decreases records.len(),
{
    if records.len() > 0 {
        lemma_page_records_frame(e, records.drop_last(), now);
        let before = e.page_records(records.drop_last(), now);
        if e.inv() {
            lemma_page_record_inv(before, records.last(), now);
        }
    }
}

/// The records that are paged in are the first of those read.
pub proof fn lemma_page_count(e: EngineView, records: Seq<RecordView>, now: u64)
    ensures
        e.page_count(records, now) <= records.len(),
    decreases records.len(),
{
    if records.len() > 0 {
        lemma_page_count(e, records.drop_last(), now);
    }
}

pub proof fn lemma_replay_record_inv(e: EngineView, record: RecordView)
    requires
        e.inv(),
    ensures
        e.replay_record(record).inv(),
{
    match record {
        RecordView::Push { msg_id, queue_name, visible_at, payload } => {
            lemma_shard_of_bound(queue_name);
            let s = e.shard(queue_name).mark_seen(msg_id);
            assert(shard_holds(s, shard_of(queue_name)));
            lemma_store_holds(
                s,
                shard_of(queue_name),
                e.fresh_msg(msg_id, queue_name, payload, visible_at),
                e.base_epoch_sec,
            );
        },
        RecordView::Ack { msg_id, queue_name } => {
            lemma_shard_of_bound(queue_name);
            lemma_shard_ack_holds(e.shard(queue_name), shard_of(queue_name), queue_name, msg_id);
        },
    }
}

pub proof fn lemma_blank_inv(disk: DiskView, options: QueueOptions, base_epoch_sec: u64)
    ensures
        EngineView::blank(disk, options, base_epoch_sec).inv(),
{
}

}
