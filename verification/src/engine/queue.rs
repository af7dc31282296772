//! The queue engine: shards of queues over a write-ahead log.
use vstd::prelude::*;

pub use crate::engine::shard::PolledMessage;
pub use crate::engine::single_queue::HOT_DELAY_HORIZON_SEC;

use crate::engine::compaction::carry_over;
use crate::engine::disk_log;
use crate::engine::disk_log::{DiskAction, DiskLog, DiskView, SegmentRead, Survivor, SurvivorView};
use crate::engine::model;
use crate::engine::model::{EngineView, PushView, ScanView, NUM_SHARDS};
use crate::engine::registry;
use crate::engine::shard;
use crate::engine::shard::{ShardState, ShardView, StoredMsg};
use crate::engine::wal;
use crate::engine::wal::WalRecord;
use crate::ids;
use crate::ids::{format_id, parse_id, ulid_new};
use crate::text;
use crate::text::append_decimal;

verus! {

/// Why the engine could not do what was asked.
#[derive(Debug)]
pub enum QueueError {
    Io(String),
    NotFound(String),
    RamLimitExceeded(usize),
}

impl QueueError {
    pub open spec fn message(self) -> Seq<char> {
        match self {
            QueueError::Io(reason) => "IO error: "@ + reason@,
            QueueError::NotFound(name) => "Queue not found: "@ + name@,
            QueueError::RamLimitExceeded(n) => "RAM limit exceeded: hot queue memory full ("@
                + text::decimal(n as nat) + " messages)"@,
        }
    }

    /// The reason in words.
    pub fn text(&self) -> (res: String)
        ensures
            res@ == self.message(),
    {
        match self {
            QueueError::Io(reason) => {
                let mut res: String = "IO error: ".to_owned();
                res.append(reason.as_str());
                res
            },
            QueueError::NotFound(name) => {
                let mut res: String = "Queue not found: ".to_owned();
                res.append(name.as_str());
                res
            },
            QueueError::RamLimitExceeded(n) => {
                let mut res: String = "RAM limit exceeded: hot queue memory full (".to_owned();
                append_decimal(&mut res, *n as u64);
                res.append(" messages)");
                res
            },
        }
    }
}

#[derive(Debug, Clone, Copy)]
pub struct QueueOptions {
    pub default_visibility_timeout_sec: u32,
    pub max_delivery_count: u32,
    pub max_hot_messages_in_ram: usize,
    pub max_wal_segment_size: u64,
}

impl Default for QueueOptions {
    fn default() -> (res: Self)
        ensures
            res == (QueueOptions {
                default_visibility_timeout_sec: 300,
                max_delivery_count: 3,
                max_hot_messages_in_ram: 1_000_000,
                max_wal_segment_size: 67_108_864,
            }),
    {
        QueueOptions {
            default_visibility_timeout_sec: 300,
            max_delivery_count: 3,
            max_hot_messages_in_ram: 1_000_000,
            max_wal_segment_size: 64 * 1024 * 1024,
        }
    }
}

/// A message to be pushed; without an id it gets a fresh one.
#[derive(Debug, Clone)]
pub struct PushItem {
    pub id: Option<u128>,
    pub payload: Vec<u8>,
    pub delay_seconds: u64,
}

/// A scan of the log for messages that are only on disk.
#[derive(Debug)]
pub struct ColdScan {
    target_queue: String,
    now: u64,
    fetch_limit: usize,
    flushed: bool,
}

impl View for ColdScan {
    type V = ScanView;

    closed spec fn view(&self) -> ScanView {
        ScanView {
            target_queue: self.target_queue@,
            now: self.now,
            fetch_limit: self.fetch_limit,
            flushed: self.flushed,
        }
    }
}

impl ColdScan {
    pub fn begin(target_queue: &str, now: u64, needed: usize) -> (scan: Self)
        ensures
            scan@ == ScanView::begin(target_queue@, now, needed),
    {
        ColdScan {
            target_queue: target_queue.to_owned(),
            now,
            fetch_limit: if needed < 1000 { 1000 } else { needed },
            flushed: false,
        }
    }
}

/// The mathematical content of messages to be pushed.
pub open spec fn push_views(items: Seq<PushItem>) -> Seq<PushView> {
    items.map_values(
        |item: PushItem| PushView { payload: item.payload@, delay_seconds: item.delay_seconds },
    )
}

/// The mathematical content of pairs of texts.
pub open spec fn pair_views(items: Seq<(String, String)>) -> Seq<(Seq<char>, Seq<char>)> {
    items.map_values(|item: (String, String)| (item.0@, item.1@))
}

/// Every message that came with an id has it.
pub open spec fn keeps_given_ids(items: Seq<PushItem>, ids: Seq<u128>) -> bool {
    &&& ids.len() == items.len()
    &&& forall|k: int|
        0 <= k < items.len() ==> (#[trigger] items[k].id matches Some(id) ==> ids[k] == id)
}

pub open spec fn shard_views(shards: Seq<ShardState>) -> Seq<ShardView> {
    shards.map_values(|s: ShardState| s@)
}

/// Named queues with delayed delivery, leases, dead letter queues, a bound on what is kept
/// in memory, and a log from which they recover.
pub struct QueueEngine {
    shards: Vec<ShardState>,
    pub disk: DiskLog,
    pub options: QueueOptions,
    base_epoch_sec: u64,
    total_messages_in_ram: usize,
    spill_read_offset: u64,
}

impl View for QueueEngine {
    type V = EngineView;

    closed spec fn view(&self) -> EngineView {
        EngineView {
            shards: shard_views(self.shards@),
            disk: self.disk@,
            options: self.options,
            base_epoch_sec: self.base_epoch_sec,
            total_in_ram: self.total_messages_in_ram,
            spill_offset: self.spill_read_offset,
        }
    }
}

/// What opening an engine over files with this content comes to.
pub open spec fn opened(
    manifest: Seq<u8>,
    wal_a: Seq<u8>,
    wal_b: Seq<u8>,
    opts: QueueOptions,
    base_epoch_sec: u64,
    engine: EngineView,
) -> bool {
    let disk = DiskView::open(manifest, wal_a, wal_b, opts.max_wal_segment_size);
    let records = wal::records_in(wal_a, disk.registry) + wal::records_in(wal_b, disk.registry);
    engine == EngineView::blank(disk, opts, base_epoch_sec).replay(records)
}

/// What a push under a fresh id comes to.
pub open spec fn pushed_under_fresh_id(
    pre: EngineView,
    queue: Seq<char>,
    payload: Seq<u8>,
    delay_sec: u64,
    now: u64,
    post: EngineView,
    res: Result<String, QueueError>,
) -> bool {
    exists|id: u128|
        (res matches Ok(text) && text@ == #[trigger] ids::ulid_text(id)) && pre.pushes_to(
            queue,
            id,
            payload,
            (now + delay_sec) as u64,
            now,
            post,
        )
}

/// What a push of a batch comes to, under the ids that its items give and fresh ones.
pub open spec fn pushed_as_batch(
    pre: EngineView,
    queue: Seq<char>,
    items: Seq<PushItem>,
    now: u64,
    post: EngineView,
    res: Result<Vec<String>, QueueError>,
) -> bool {
    exists|ids: Seq<u128>| #[trigger]
        keeps_given_ids(items, ids) && (res matches Ok(texts) && registry::text_views(texts@)
            == model::id_texts(ids)) && pre.batch_pushes_to(
            queue,
            ids,
            push_views(items),
            now,
            post,
        )
}

/// What an acknowledgement by id text and receipt comes to.
pub open spec fn acked_by_receipt(
    pre: EngineView,
    queue: Seq<char>,
    id_text: Seq<char>,
    receipt: Seq<char>,
    now: u64,
    post: EngineView,
    res: Result<bool, QueueError>,
) -> bool {
    let good = pre.ack_is_valid(queue, id_text, receipt, now);
    &&& res == Ok::<bool, QueueError>(good)
    &&& if good {
        pre.acks_to(queue, ids::id_value(id_text).unwrap(), post)
    } else {
        post == pre
    }
}

impl QueueEngine {
    pub closed spec fn wf(&self) -> bool {
        &&& self@.inv()
        &&& forall|i: int| 0 <= i < self.shards@.len() ==> (#[trigger] self.shards@[i]).wf()
    }

    pub(crate) fn shard_idx(queue: &str) -> (idx: usize)
        ensures
            idx == model::shard_of(queue@),
            idx < NUM_SHARDS,
    {
        let data: &[u8] = queue.as_bytes();
        let mut hash: u64 = 0xcbf29ce484222325;
        let mut i: usize = 0;
        proof {
            assert(data@.take(0) =~= Seq::empty());
        }
        while i < data.len()
            invariant
                i <= data.len(),
                hash == model::fnv1a(data@.take(i as int)),
            decreases data.len() - i,
        {
            proof {
                model::lemma_hash_step(data@, i as int);
            }
            hash = (hash ^ (data[i] as u64)).wrapping_mul(0x100000001b3);
            i += 1;
        }
        proof {
            assert(data@.take(i as int) =~= data@);
        }
        (hash % (NUM_SHARDS as u64)) as usize
    }

    /// The time, given how long ago the engine was opened.
    pub fn current_time_sec(&self, elapsed_sec: u64) -> (now: u64)
        requires
            self@.base_epoch_sec + elapsed_sec <= u64::MAX,
        ensures
            now == self@.base_epoch_sec + elapsed_sec,
    {
        self.base_epoch_sec + elapsed_sec
    }

    pub fn total_messages_in_ram(&self) -> (n: usize)
        ensures
            n == self@.total_in_ram,
    {
        self.total_messages_in_ram
    }

    pub fn set_initial_spill_offset(&mut self, offset: u64)
        requires
            old(self).wf(),
        ensures
            final(self).wf(),
            final(self)@ == (EngineView { spill_offset: offset, ..old(self)@ }),
    {
        self.spill_read_offset = offset;
        proof {
            assert(self@ =~= EngineView { spill_offset: offset, ..old(self)@ });
        }
    }

    fn blank_shards() -> (shards: Vec<ShardState>)
        ensures
            shard_views(shards@) == Seq::new(NUM_SHARDS as nat, |i: int| ShardView::empty()),
            forall|i: int| 0 <= i < shards@.len() ==> (#[trigger] shards@[i]).wf(),
    {
        let mut shards: Vec<ShardState> = Vec::new();
        let mut n: usize = 0;
        while n < NUM_SHARDS
            invariant
                n <= NUM_SHARDS,
                shards@.len() == n,
                forall|i: int|
                    0 <= i < n ==> (#[trigger] shards@[i]).wf() && shards@[i]@
                        == ShardView::empty(),
            decreases NUM_SHARDS - n,
        {
            shards.push(ShardState::new());
            n += 1;
        }
        proof {
            assert(shard_views(shards@) =~= Seq::new(NUM_SHARDS as nat, |i: int| ShardView::empty()));
        }
        shards
    }

    fn fresh_msg(&self, id: u128, queue: String, payload: Vec<u8>, visible_at: u64) -> (msg: StoredMsg)
        ensures
            msg@ == self@.fresh_msg(id, queue@, payload@, visible_at),
    {
        StoredMsg {
            id,
            queue,
            payload,
            visible_at,
            delivery_count: 0,
            max_delivery: self.options.max_delivery_count,
        }
    }

    fn replay_record(&mut self, record: WalRecord)
        requires
            old(self).wf(),
            old(self)@.base_epoch_sec + HOT_DELAY_HORIZON_SEC <= u64::MAX,
        ensures
            final(self).wf(),
            final(self)@ == old(self)@.replay_record(record@),
    {
        proof {
            model::lemma_replay_record_inv(self@, record@);
        }
        match record {
            WalRecord::Push { msg_id, queue_name, visible_at, payload } => {
                let i: usize = Self::shard_idx(queue_name.as_str());
                if self.shards[i].has_seen(msg_id) {
                    return;
                }
                self.shards[i].mark_seen(msg_id);
                let now: u64 = self.base_epoch_sec;
                if visible_at <= now + HOT_DELAY_HORIZON_SEC && self.total_messages_in_ram
                    < self.options.max_hot_messages_in_ram {
                    let msg: StoredMsg = self.fresh_msg(msg_id, queue_name, payload, visible_at);
                    self.shards[i].store(msg, now);
                    proof {
                        model::lemma_wrap(self.total_messages_in_ram + 1);
                    }
                    self.total_messages_in_ram += 1;
                }
            },
            WalRecord::Ack { msg_id, queue_name } => {
                let i: usize = Self::shard_idx(queue_name.as_str());
                if self.shards[i].apply_ack(queue_name.as_str(), msg_id) {
                    proof {
                        model::lemma_wrap(self.total_messages_in_ram - 1);
                    }
                    self.total_messages_in_ram = self.total_messages_in_ram.saturating_sub(1);
                }
            },
        }
        proof {
            assert(self@.shards =~= old(self)@.replay_record(record@).shards);
            assert(self@ =~= old(self)@.replay_record(record@));
        }
    }

    /// Opens the engine over the content of its files. What the log says is replayed at
    /// `base_epoch_sec`, the time of opening.
    pub fn open(
        manifest: &[u8],
        wal_a: &[u8],
        wal_b: &[u8],
        opts: QueueOptions,
        base_epoch_sec: u64,
    ) -> (res: Result<Self, QueueError>)
        requires
            base_epoch_sec + HOT_DELAY_HORIZON_SEC <= u64::MAX,
        ensures
            res matches Ok(engine) && engine.wf() && opened(
                manifest@,
                wal_a@,
                wal_b@,
                opts,
                base_epoch_sec,
                engine@,
            ),
    {
        let (disk, recovered) = DiskLog::open(manifest, wal_a, wal_b, opts.max_wal_segment_size);
        let ghost disk_view = disk@;
        let ghost records = wal::record_views(recovered@);
        let mut engine = QueueEngine {
            shards: Self::blank_shards(),
            disk,
            options: opts,
            base_epoch_sec,
            total_messages_in_ram: 0,
            spill_read_offset: 0,
        };
        let ghost blank = EngineView::blank(disk_view, opts, base_epoch_sec);
        proof {
            model::lemma_blank_inv(disk_view, opts, base_epoch_sec);
            assert(engine@ =~= blank);
            assert(records.take(0) =~= Seq::empty());
        }
        for record in it: recovered
            invariant
                engine.wf(),
                engine@.base_epoch_sec == base_epoch_sec,
                base_epoch_sec + HOT_DELAY_HORIZON_SEC <= u64::MAX,
                records == wal::record_views(it.seq()),
                engine@ == blank.replay(records.take(it.index() as int)),
        {
            let ghost k = it.index() as int;
            proof {
                assert(records.take(k + 1).drop_last() =~= records.take(k));
                assert(records.take(k + 1).last() == record@);
            }
            engine.replay_record(record);
        }
        proof {
            assert(records.take(records.len() as int) =~= records);
        }
        Ok(engine)
    }

    /// Takes note of a pushed message, and keeps it if it is due soon and there is room.
    fn accept(&mut self, queue: &str, id: u128, payload: Vec<u8>, visible_at: u64, now: u64)
        requires
            old(self).wf(),
            now + HOT_DELAY_HORIZON_SEC <= u64::MAX,
        ensures
            final(self).wf(),
            final(self)@ == old(self)@.accept(queue@, id, payload@, visible_at, now),
    {
        proof {
            model::lemma_accept_inv(self@, queue@, id, payload@, visible_at, now);
        }
        let i: usize = Self::shard_idx(queue);
        self.shards[i].mark_seen(id);
        if visible_at <= now + HOT_DELAY_HORIZON_SEC && self.total_messages_in_ram
            < self.options.max_hot_messages_in_ram && !self.shards[i].has_message(id) {
            let msg: StoredMsg = self.fresh_msg(id, queue.to_owned(), payload, visible_at);
            self.shards[i].store(msg, now);
            proof {
                model::lemma_wrap(self.total_messages_in_ram + 1);
            }
            self.total_messages_in_ram += 1;
        }
        proof {
            let target = old(self)@.accept(queue@, id, payload@, visible_at, now);
            assert(self@.shards =~= target.shards);
            assert(self@ =~= target);
        }
    }

    /// The messages in memory, shard by shard.
    pub fn get_surviving_snapshot_messages(&self) -> (list: Vec<Survivor>)
        requires
            self.wf(),
        ensures
            model::lists_shards(
                self@.shards,
                NUM_SHARDS as nat,
                disk_log::survivor_views(list@),
            ),
    {
        let mut list: Vec<Survivor> = Vec::new();
        let mut n: usize = 0;
        while n < NUM_SHARDS
            invariant
                self.wf(),
                n <= NUM_SHARDS,
                model::lists_shards(self@.shards, n as nat, disk_log::survivor_views(list@)),
            decreases NUM_SHARDS - n,
        {
            let ghost head = disk_log::survivor_views(list@);
            proof {
                assert(model::shard_holds(self@.shards[n as int], n as int));
                assert(self@.shards[n as int] == self.shards@[n as int]@);
            }
            self.shards[n].append_survivors(&mut list);
            proof {
                let part = choose|part: Seq<SurvivorView>|
                    shard::lists_messages(self.shards@[n as int]@.messages, part)
                        && disk_log::survivor_views(list@) == #[trigger] (head + part);
                assert(disk_log::survivor_views(list@) == head + part);
            }
            n += 1;
        }
        list
    }

    /// Says whether the active segment is to be compacted after a push or an acknowledgement.
    pub fn compaction_due(&self) -> (res: bool)
        ensures
            res == self@.disk.compaction_due(),
    {
        self.disk.should_compact()
    }

    /// Compacts the active segment, whose content is `segment`, where that is due.
    pub fn check_and_trigger_compaction(&mut self, segment: &[u8])
        requires
            old(self).wf(),
        ensures
            final(self).wf(),
            final(self)@ == if old(self)@.disk.compaction_due() {
                old(self)@.compacted(wal::records_in(segment@, old(self)@.disk.registry))
            } else {
                old(self)@
            },
    {
        if self.compaction_due() {
            self.force_compaction(segment);
        }
    }

    /// Compacts the active segment, whose content is `segment`, to the pushes in it that are
    /// not acknowledged.
    pub fn force_compaction(&mut self, segment: &[u8])
        requires
            old(self).wf(),
        ensures
            final(self).wf(),
            final(self)@ == old(self)@.compacted(
                wal::records_in(segment@, old(self)@.disk.registry),
            ),
    {
        let surviving: Vec<Survivor> = carry_over(self.disk.records_of(segment));
        self.disk.perform_flip_flop_compaction(&surviving);
        self.spill_read_offset = 0;
        proof {
            assert(self@ =~= old(self)@.compacted(
                wal::records_in(segment@, old(self)@.disk.registry),
            ));
        }
    }

    /// Pushes a message under a fresh id.
    pub fn push(&mut self, queue: &str, payload: Vec<u8>, delay_sec: u64, now: u64) -> (res: Result<
        String,
        QueueError,
    >)
        requires
            old(self).wf(),
            now + delay_sec <= u64::MAX,
            now + HOT_DELAY_HORIZON_SEC <= u64::MAX,
        ensures
            final(self).wf(),
            pushed_under_fresh_id(
                old(self)@,
                queue@,
                payload@,
                delay_sec,
                now,
                final(self)@,
                res,
            ),
    {
        let id: u128 = ulid_new();
        self.push_with_ulid(queue, id, payload, delay_sec, now)
    }

    /// Pushes a message under the number of a UUID.
    pub fn push_with_id(
        &mut self,
        queue: &str,
        id: u128,
        payload: Vec<u8>,
        delay_sec: u64,
        now: u64,
    ) -> (res: Result<String, QueueError>)
        requires
            old(self).wf(),
            now + delay_sec <= u64::MAX,
            now + HOT_DELAY_HORIZON_SEC <= u64::MAX,
        ensures
            final(self).wf(),
            res matches Ok(text) && text@ == ids::ulid_text(id),
            old(self)@.pushes_to(
                queue@,
                id,
                payload@,
                (now + delay_sec) as u64,
                now,
                final(self)@,
            ),
    {
        self.push_with_ulid(queue, id, payload, delay_sec, now)
    }

    /// Pushes a message under an id. It becomes visible after `delay_sec`. An id that was
    /// seen before is logged again, unless it is acknowledged, and otherwise passed over.
    pub fn push_with_ulid(
        &mut self,
        queue: &str,
        id: u128,
        payload: Vec<u8>,
        delay_sec: u64,
        now: u64,
    ) -> (res: Result<String, QueueError>)
        requires
            old(self).wf(),
            now + delay_sec <= u64::MAX,
            now + HOT_DELAY_HORIZON_SEC <= u64::MAX,
        ensures
            final(self).wf(),
            res matches Ok(text) && text@ == ids::ulid_text(id),
            old(self)@.pushes_to(
                queue@,
                id,
                payload@,
                (now + delay_sec) as u64,
                now,
                final(self)@,
            ),
    {
        let visible_at: u64 = now + delay_sec;
        let i: usize = Self::shard_idx(queue);
        proof {
            assert(self@.shard(queue@) == self.shards@[i as int]@);
        }
        let seen: bool = self.shards[i].has_seen(id);
        if seen && self.shards[i].has_acked(id) {
            return Ok(format_id(id));
        }
        self.disk.append_push_durable(id, queue, visible_at, payload.as_slice());
        let ghost logged = old(self)@.with_disk(
            old(self)@.disk.append_push(id, queue@, visible_at, payload@).flush(),
        );
        proof {
            assert(self@ =~= logged);
        }
        if !seen {
            self.accept(queue, id, payload, visible_at, now);
        }
        Ok(format_id(id))
    }

    /// Pushes messages to one queue, those without an id under fresh ones, and returns the
    /// texts of the ids.
    pub fn push_batch(&mut self, queue: &str, items: Vec<PushItem>, now: u64) -> (res: Result<
        Vec<String>,
        QueueError,
    >)
        requires
            old(self).wf(),
            now + HOT_DELAY_HORIZON_SEC <= u64::MAX,
            forall|k: int|
                0 <= k < items@.len() ==> now + (#[trigger] items@[k]).delay_seconds <= u64::MAX,
        ensures
            final(self).wf(),
            pushed_as_batch(old(self)@, queue@, items@, now, final(self)@, res),
    {
        let mut ids: Vec<u128> = Vec::new();
        let mut i: usize = 0;
        while i < items.len()
            invariant
                i <= items.len(),
                ids@.len() == i,
                forall|k: int| 0 <= k < i ==> (#[trigger] items@[k].id matches Some(id) ==> ids@[k] == id),
            decreases items.len() - i,
        {
            let id: u128 = match items[i].id {
                Some(id) => id,
                None => ulid_new(),
            };
            ids.push(id);
            i += 1;
        }
        proof {
            assert(keeps_given_ids(items@, ids@));
        }
        self.push_batch_with_ids(queue, &ids, items, now)
    }

    /// Pushes messages to one queue under the given ids. Ids that were seen before are
    /// passed over.
    pub fn push_batch_with_ids(
        &mut self,
        queue: &str,
        ids: &Vec<u128>,
        items: Vec<PushItem>,
        now: u64,
    ) -> (res: Result<Vec<String>, QueueError>)
        requires
            old(self).wf(),
            ids@.len() == items@.len(),
            now + HOT_DELAY_HORIZON_SEC <= u64::MAX,
            forall|k: int|
                0 <= k < items@.len() ==> now + (#[trigger] items@[k]).delay_seconds <= u64::MAX,
        ensures
            final(self).wf(),
            res matches Ok(texts) && registry::text_views(texts@) == model::id_texts(ids@),
            old(self)@.batch_pushes_to(queue@, ids@, push_views(items@), now, final(self)@),
    {
        let mut texts: Vec<String> = Vec::new();
        let ghost views = push_views(items@);
        proof {
            assert(ids@.take(0) =~= Seq::empty());
            assert(registry::text_views(texts@) =~= model::id_texts(ids@.take(0)));
        }
        let mut i: usize = 0;
        for item in it: items
            invariant
                self.wf(),
                i == it.index(),
                ids.len() == it.seq().len(),
                views == push_views(it.seq()),
                now + HOT_DELAY_HORIZON_SEC <= u64::MAX,
                forall|k: int|
                    0 <= k < it.seq().len() ==> now + (#[trigger] it.seq()[k]).delay_seconds
                        <= u64::MAX,
                self@ == old(self)@.batch(queue@, ids@.take(i as int), views, now),
                registry::text_views(texts@) == model::id_texts(ids@.take(i as int)),
        {
            let id: u128 = ids[i];
            let ghost listed = texts@;
            let ghost before = self@;
            proof {
                assert(ids@.take(i + 1).drop_last() =~= ids@.take(i as int));
                assert(views[i as int].payload == item.payload@);
            }
            texts.push(format_id(id));
            proof {
                assert(registry::text_views(texts@) =~= registry::text_views(listed).push(
                    ids::ulid_text(id),
                ));
                assert(model::id_texts(ids@.take(i + 1)) =~= model::id_texts(
                    ids@.take(i as int),
                ).push(ids::ulid_text(id)));
            }
            let s: usize = Self::shard_idx(queue);
            if !self.shards[s].has_seen(id) {
                let visible_at: u64 = now + item.delay_seconds;
                self.disk.append_push_async(id, queue, visible_at, item.payload.as_slice());
                proof {
                    assert(self@ =~= before.with_disk(
                        before.disk.append_push(id, queue@, visible_at, item.payload@),
                    ));
                }
                self.accept(queue, id, item.payload, visible_at, now);
            }
            i += 1;
        }
        proof {
            assert(ids@.take(i as int) =~= ids@);
        }
        let ghost pushed = self@;
        self.disk.flush();
        proof {
            assert(self@ =~= pushed.with_disk(pushed.disk.flush()));
        }
        Ok(texts)
    }

    /// Logs a message's move to its dead letter queue, whose name is `dead`.
    fn log_dead_letter(&mut self, msg: &StoredMsg, dead: &str, now: u64)
        requires
            old(self).wf(),
            dead@ == model::dlq_name(msg@.queue),
        ensures
            final(self).wf(),
            final(self)@ == old(self)@.with_disk(old(self)@.log_dead_letter(msg@, now)),
            final(self).shards == old(self).shards,
    {
        self.disk.append_push_async(msg.id, dead, now, msg.payload.as_slice());
        self.disk.append_ack_async(msg.id, msg.queue.as_str());
        proof {
            assert(self@ =~= old(self)@.with_disk(old(self)@.log_dead_letter(msg@, now)));
        }
    }

    fn route(&mut self, msg: StoredMsg, now: u64)
        requires
            old(self).wf(),
            old(self)@.shard(msg@.queue).seen.contains(msg@.id),
            now + HOT_DELAY_HORIZON_SEC <= u64::MAX,
        ensures
            final(self).wf(),
            final(self)@ == old(self)@.route(msg@, now),
    {
        let ghost view = msg@;
        proof {
            model::lemma_route_inv(self@, view, now);
            model::lemma_shard_of_bound(view.queue);
            model::lemma_shard_of_bound(model::dlq_name(view.queue));
        }
        let mut msg = msg;
        let i: usize = Self::shard_idx(msg.queue.as_str());
        if msg.delivery_count >= msg.max_delivery {
            let mut dead: String = msg.queue.clone();
            dead.append(".dlq");
            self.log_dead_letter(&msg, dead.as_str(), now);
            self.shards[i].mark_acked(msg.id);
            self.shards[i].tombstone(msg.queue.as_str(), msg.id);
            let ghost given_up = self@;
            proof {
                assert(given_up.shards =~= old(self)@.shards.update(
                    i as int,
                    old(self)@.shards[i as int].mark_acked(view.id).tombstone(view.queue, view.id),
                ));
            }
            msg.visible_at = now;
            msg.queue = dead;
            let d: usize = Self::shard_idx(msg.queue.as_str());
            self.shards[d].mark_seen(msg.id);
            self.shards[d].store(msg, now);
            proof {
                assert(self@.shards =~= old(self)@.route(view, now).shards);
                assert(self@ =~= old(self)@.route(view, now));
            }
        } else {
            msg.visible_at = now;
            self.shards[i].store(msg, now);
            proof {
                assert(self@.shards =~= old(self)@.route(view, now).shards);
                assert(self@ =~= old(self)@.route(view, now));
            }
        }
    }

    /// Ends the leases in the queue's shard that have run out: their messages are ready
    /// again, or go to the dead letter queue.
    fn expire(&mut self, queue: &str, now: u64)
        requires
            old(self).wf(),
            now + HOT_DELAY_HORIZON_SEC <= u64::MAX,
        ensures
            final(self).wf(),
            final(self)@ == old(self)@.expire(queue@, now),
    {
        let i: usize = Self::shard_idx(queue);
        proof {
            model::lemma_take_expired(self@.shard(queue@), model::shard_of(queue@), now);
            model::lemma_with_shard_inv(
                self@,
                queue@,
                self@.shard(queue@).take_expired(now).0,
            );
        }
        let taken: Vec<StoredMsg> = self.shards[i].take_expired(now);
        let ghost views = shard::msg_views(taken@);
        let ghost cleared = old(self)@.with_shard(queue@, old(self)@.shard(queue@).take_expired(now).0);
        proof {
            assert(self@ =~= cleared);
            assert(views == old(self)@.shard(queue@).take_expired(now).1);
            assert(views.take(0) =~= Seq::empty());
        }
        for msg in it: taken
            invariant
                self.wf(),
                cleared.inv(),
                now + HOT_DELAY_HORIZON_SEC <= u64::MAX,
                views == shard::msg_views(it.seq()),
                forall|k: int|
                    0 <= k < views.len() ==> cleared.shard((#[trigger] views[k]).queue).seen.contains(
                        views[k].id,
                    ),
                self@ == cleared.route_all(views.take(it.index() as int), now),
        {
            let ghost k = it.index() as int;
            let ghost head = views.take(k);
            proof {
                assert(views.take(k + 1).drop_last() =~= head);
                assert(views.take(k + 1).last() == msg@);
                assert(views[k] == msg@);
                assert forall|j: int| 0 <= j < head.len() implies cleared.shard(
                    (#[trigger] head[j]).queue,
                ).seen.contains(head[j].id) by {
                    assert(head[j] == views[j]);
                }
                model::lemma_route_all_inv(cleared, head, now);
                model::lemma_shard_of_bound(msg@.queue);
                assert(cleared.shards[model::shard_of(msg@.queue)].seen.contains(msg@.id));
            }
            self.route(msg, now);
        }
        proof {
            assert(views.take(views.len() as int) =~= views);
        }
    }

    /// Prepares a poll: leases that have run out are ended. Where few messages are ready,
    /// the log is to be scanned for more before the poll.
    pub fn begin_poll(&mut self, queue: &str, max_messages: u32, now: u64) -> (scan: Option<ColdScan>)
        requires
            old(self).wf(),
            now + HOT_DELAY_HORIZON_SEC <= u64::MAX,
        ensures
            final(self).wf(),
            final(self)@ == old(self)@.expire(queue@, now),
            match scan {
                Some(s) => s@ == ScanView::begin(
                    queue@,
                    now,
                    model::prefetch_threshold(max_messages),
                ) && final(self)@.runs_low(queue@, model::prefetch_threshold(max_messages) as nat),
                None => !final(self)@.runs_low(
                    queue@,
                    model::prefetch_threshold(max_messages) as nat,
                ),
            },
    {
        self.expire(queue, now);
        let doubled: usize = if max_messages as u64 * 2 > usize::MAX as u64 {
            usize::MAX
        } else {
            (max_messages as u64 * 2) as usize
        };
        let threshold: usize = if doubled < 200 { 200 } else { doubled };
        let i: usize = Self::shard_idx(queue);
        proof {
            assert(self@.shard(queue@) == self.shards@[i as int]@);
        }
        let low: bool = match self.shards[i].ready_len(queue) {
            Some(n) => n < threshold,
            None => true,
        };
        if low {
            Some(ColdScan::begin(queue, now, threshold))
        } else {
            None
        }
    }

    /// Takes up to `max_messages` ready ids from a queue, in order.
    pub fn claim_ready(&mut self, queue: &str, max_messages: u32, now: u64) -> (claimed: Vec<u128>)
        requires
            old(self).wf(),
            now + HOT_DELAY_HORIZON_SEC <= u64::MAX,
        ensures
            final(self).wf(),
            (final(self)@, claimed@) == old(self)@.claim(queue@, now, max_messages as nat),
    {
        let i: usize = Self::shard_idx(queue);
        proof {
            model::lemma_claim_inv(self@, queue@, now, max_messages as nat);
        }
        let claimed: Vec<u128> = self.shards[i].claim(queue, now, max_messages as usize);
        proof {
            assert(self@ =~= old(self)@.claim(queue@, now, max_messages as nat).0);
        }
        claimed
    }

    /// Leases claimed messages, each under the receipt of its place. A lease time of zero
    /// stands for the default.
    pub fn lease_claimed(
        &mut self,
        queue: &str,
        claimed: &Vec<u128>,
        receipts: &Vec<u128>,
        visibility_sec: u32,
        now: u64,
    ) -> (polled: Vec<PolledMessage>)
        requires
            old(self).wf(),
            receipts@.len() == claimed@.len(),
            now + u32::MAX <= u64::MAX,
        ensures
            final(self).wf(),
            (final(self)@, shard::polled_views(polled@)) == old(self)@.lease(
                queue@,
                claimed@,
                model::id_texts(receipts@),
                (now + old(self)@.timeout(visibility_sec)) as u64,
            ),
    {
        let timeout: u32 = if visibility_sec == 0 {
            self.options.default_visibility_timeout_sec
        } else {
            visibility_sec
        };
        let mut texts: Vec<String> = Vec::new();
        let mut k: usize = 0;
        while k < receipts.len()
            invariant
                k <= receipts.len(),
                texts@.len() == k,
                forall|j: int| 0 <= j < k ==> (#[trigger] texts@[j])@ == ids::ulid_text(receipts@[j]),
            decreases receipts.len() - k,
        {
            texts.push(format_id(receipts[k]));
            k += 1;
        }
        let expire_at: u64 = now + timeout as u64;
        let i: usize = Self::shard_idx(queue);
        proof {
            assert(registry::text_views(texts@) =~= model::id_texts(receipts@));
            model::lemma_lease_inv(
                self@,
                queue@,
                claimed@,
                model::id_texts(receipts@),
                expire_at,
            );
        }
        let polled: Vec<PolledMessage> = self.shards[i].lease(queue, claimed, &texts, expire_at);
        proof {
            assert(self@ =~= old(self)@.lease(
                queue@,
                claimed@,
                model::id_texts(receipts@),
                expire_at,
            ).0);
        }
        polled
    }

    /// Hands out up to `max_messages` ready messages of a queue, each under a fresh receipt.
    /// Before it, [`QueueEngine::begin_poll`] ends the leases that have run out, and
    /// [`QueueEngine::page_in_cold_spill`] brings in messages that are only on disk.
    pub fn poll(&mut self, queue: &str, visibility_sec: u32, max_messages: u32, now: u64) -> (res:
        Result<Vec<PolledMessage>, QueueError>)
        requires
            old(self).wf(),
            now + u32::MAX <= u64::MAX,
        ensures
            final(self).wf(),
            exists|receipts: Seq<u128>|
                ({
                    let (claimed, ids) = old(self)@.claim(queue@, now, max_messages as nat);
                    &&& receipts.len() == ids.len()
                    &&& res matches Ok(polled) && (final(self)@, shard::polled_views(polled@))
                        == claimed.lease(
                        queue@,
                        ids,
                        #[trigger] model::id_texts(receipts),
                        (now + old(self)@.timeout(visibility_sec)) as u64,
                    )
                }),
    {
        let claimed: Vec<u128> = self.claim_ready(queue, max_messages, now);
        let mut receipts: Vec<u128> = Vec::new();
        while receipts.len() < claimed.len()
            invariant
                receipts.len() <= claimed.len(),
            decreases claimed.len() - receipts.len(),
        {
            receipts.push(ulid_new());
        }
        let polled: Vec<PolledMessage> = self.lease_claimed(
            queue,
            &claimed,
            &receipts,
            visibility_sec,
            now,
        );
        Ok(polled)
    }

    /// Says whether a record of the log is one to page in for which there is no room.
    fn stops_before(&self, record: &WalRecord, now: u64) -> (res: bool)
        requires
            self.wf(),
            now + HOT_DELAY_HORIZON_SEC <= u64::MAX,
        ensures
            res == self@.stops_before(record@, now),
    {
        match record {
            WalRecord::Push { msg_id, queue_name, visible_at, payload: _ } => {
                let i: usize = Self::shard_idx(queue_name.as_str());
                proof {
                    assert(self@.shard(queue_name@) == self.shards@[i as int]@);
                }
                *visible_at <= now + HOT_DELAY_HORIZON_SEC && !self.shards[i].has_message(*msg_id)
                    && !self.shards[i].has_acked(*msg_id) && self.total_messages_in_ram
                    >= self.options.max_hot_messages_in_ram
            },
            WalRecord::Ack { .. } => false,
        }
    }

    /// Pages in one record of the log; says whether it added a message.
    fn page_record(&mut self, record: WalRecord, now: u64) -> (added: bool)
        requires
            old(self).wf(),
            now + HOT_DELAY_HORIZON_SEC <= u64::MAX,
        ensures
            final(self).wf(),
            added == old(self)@.pages_in(record@, now),
            final(self)@ == old(self)@.page_record(record@, now),
    {
        proof {
            model::lemma_page_record_inv(self@, record@, now);
        }
        match record {
            WalRecord::Push { msg_id, queue_name, visible_at, payload } => {
                let i: usize = Self::shard_idx(queue_name.as_str());
                proof {
                    assert(self@.shard(queue_name@) == self.shards@[i as int]@);
                }
                if visible_at <= now + HOT_DELAY_HORIZON_SEC && !self.shards[i].has_message(msg_id)
                    && !self.shards[i].has_acked(msg_id) && self.total_messages_in_ram
                    < self.options.max_hot_messages_in_ram {
                    let msg: StoredMsg = self.fresh_msg(msg_id, queue_name, payload, visible_at);
                    self.shards[i].mark_seen(msg_id);
                    self.shards[i].store(msg, now);
                    proof {
                        model::lemma_wrap(self.total_messages_in_ram + 1);
                    }
                    self.total_messages_in_ram += 1;
                    proof {
                        let target = old(self)@.page_record(record@, now);
                        assert(self@.shards =~= target.shards);
                        assert(self@ =~= target);
                    }
                    true
                } else {
                    false
                }
            },
            WalRecord::Ack { msg_id, queue_name } => {
                self.apply_ack(queue_name.as_str(), msg_id);
                false
            },
        }
    }

    /// Drops a message that was acknowledged; says whether it was in memory.
    fn apply_ack(&mut self, queue: &str, id: u128) -> (removed: bool)
        requires
            old(self).wf(),
        ensures
            final(self).wf(),
            removed == old(self)@.shard(queue@).messages.contains_key(id),
            final(self)@ == old(self)@.apply_ack(queue@, id),
    {
        proof {
            model::lemma_ack_inv(self@, queue@, id);
            model::lemma_wrap(self.total_messages_in_ram - 1);
        }
        let i: usize = Self::shard_idx(queue);
        let removed: bool = self.shards[i].apply_ack(queue, id);
        if removed {
            self.total_messages_in_ram = self.total_messages_in_ram.wrapping_sub(1);
        }
        proof {
            let target = old(self)@.apply_ack(queue@, id);
            assert(self@.shards =~= target.shards);
            assert(self@ =~= target);
        }
        removed
    }

    /// One step of a scan for messages that are only on disk: takes in what reading the
    /// active segment at the engine's offset gave, and says whether the segment is to be
    /// read again.
    pub fn page_in_cold_spill(&mut self, scan: &mut ColdScan, read: &SegmentRead) -> (again: bool)
        requires
            old(self).wf(),
            old(scan)@.now + HOT_DELAY_HORIZON_SEC <= u64::MAX,
            read.is_window(old(self)@.spill_offset),
        ensures
            final(self).wf(),
            (final(self)@, final(scan)@, again) == old(self)@.page_step(old(scan)@, *read),
    {
        let offset: u64 = self.spill_read_offset;
        let (records, new_offset) = match self.disk.read_entries_from_offset(
            offset,
            scan.fetch_limit,
            read,
        ) {
            Ok(found) => found,
            Err(_) => {
                return false;
            },
        };
        let ghost views = wal::record_views(records@);
        if records.is_empty() {
            if !scan.flushed {
                self.disk.flush();
                scan.flushed = true;
                proof {
                    assert(self@ =~= old(self)@.with_disk(old(self)@.disk.flush()));
                }
                return true;
            }
            if new_offset > 0 {
                self.spill_read_offset = 0;
                proof {
                    assert(self@ =~= EngineView { spill_offset: 0, ..old(self)@ });
                }
            }
            return false;
        }
        proof {
            assert(views.len() > 0);
        }
        if !Self::has_push(&records) {
            self.spill_read_offset = new_offset;
            proof {
                assert(self@ =~= EngineView { spill_offset: new_offset, ..old(self)@ });
            }
            return true;
        }
        let now: u64 = scan.now;
        let total: usize = records.len();
        let mut taken: usize = 0;
        let mut stopped: bool = false;
        let mut target_added: bool = false;
        proof {
            assert(views.take(0) =~= Seq::empty());
        }
        for record in it: records
            invariant
                self.wf(),
                now + HOT_DELAY_HORIZON_SEC <= u64::MAX,
                views == wal::record_views(it.seq()),
                total == views.len(),
                taken <= it.index() <= total,
                stopped == (taken < it.index()),
                taken == old(self)@.page_count(views.take(it.index() as int), now),
                self@ == old(self)@.page_records(views.take(taken as int), now),
                target_added == old(self)@.pages_in_for(
                    views.take(taken as int),
                    scan@.target_queue,
                    now,
                ),
        {
            let ghost k = it.index() as int;
            proof {
                assert(views.take(k + 1).drop_last() =~= views.take(k));
                assert(views.take(k + 1).last() == record@);
            }
            if !stopped && self.stops_before(&record, now) {
                stopped = true;
            }
            if !stopped {
                let for_target: bool = match &record {
                    WalRecord::Push { queue_name, .. } => *queue_name == scan.target_queue,
                    WalRecord::Ack { .. } => false,
                };
                let added: bool = self.page_record(record, now);
                if added && for_target {
                    target_added = true;
                }
                taken += 1;
            }
        }
        proof {
            assert(views.take(views.len() as int) =~= views);
        }
        let ghost paged = self@;
        proof {
            model::lemma_page_records_frame(old(self)@, views.take(taken as int), now);
        }
        self.spill_read_offset = if stopped {
            self.disk.offset_behind(offset, taken, read)
        } else {
            new_offset
        };
        proof {
            assert(self@ =~= EngineView { spill_offset: self.spill_read_offset, ..paged });
        }
        !stopped && !target_added && self.total_messages_in_ram
            < self.options.max_hot_messages_in_ram
    }

    fn has_push(records: &Vec<WalRecord>) -> (res: bool)
        ensures
            res == model::has_push(wal::record_views(records@)),
    {
        let ghost views = wal::record_views(records@);
        let mut i: usize = 0;
        while i < records.len()
            invariant
                i <= records.len(),
                views == wal::record_views(records@),
                forall|k: int| 0 <= k < i ==> !(#[trigger] views[k] is Push),
            decreases records.len() - i,
        {
            match &records[i] {
                WalRecord::Push { .. } => {
                    proof {
                        assert(views[i as int] is Push);
                    }
                    return true;
                },
                WalRecord::Ack { .. } => {},
            }
            i += 1;
        }
        false
    }

    /// Where the next read of the active segment starts.
    pub fn spill_read_offset(&self) -> (offset: u64)
        ensures
            offset == self@.spill_offset,
    {
        self.spill_read_offset
    }

    fn ack_lease(&mut self, queue: &str, id: u128, receipt: &str, now: u64) -> (res: (bool, bool))
        requires
            old(self).wf(),
        ensures
            final(self).wf(),
            res.0 == old(self)@.runs(queue@, id, receipt@, now),
            res.1 == (res.0 && old(self)@.shard(queue@).messages.contains_key(id)),
            final(self)@ == if res.0 {
                old(self)@.ack_lease(queue@, id)
            } else {
                old(self)@
            },
    {
        proof {
            model::lemma_ack_inv(self@, queue@, id);
            model::lemma_wrap(self.total_messages_in_ram - 1);
        }
        let i: usize = Self::shard_idx(queue);
        let res: (bool, bool) = self.shards[i].ack_lease(queue, id, receipt, now);
        if res.1 {
            self.total_messages_in_ram = self.total_messages_in_ram.wrapping_sub(1);
        }
        proof {
            let target = if res.0 {
                old(self)@.ack_lease(queue@, id)
            } else {
                old(self)@
            };
            assert(self@.shards =~= target.shards);
            assert(self@ =~= target);
        }
        res
    }

    /// Acknowledges a message under the receipt of its lease. False if the text is no id or
    /// no lease runs under the receipt at `now`.
    pub fn ack(&mut self, queue: &str, message_id_str: &str, receipt: &str, now: u64) -> (res: Result<
        bool,
        QueueError,
    >)
        requires
            old(self).wf(),
        ensures
            final(self).wf(),
            acked_by_receipt(
                old(self)@,
                queue@,
                message_id_str@,
                receipt@,
                now,
                final(self)@,
                res,
            ),
    {
        let id: u128 = match parse_id(message_id_str) {
            Some(id) => id,
            None => {
                return Ok(false);
            },
        };
        let (held, _present) = self.ack_lease(queue, id, receipt, now);
        if !held {
            return Ok(false);
        }
        let ghost acked = self@;
        self.disk.append_ack_durable(id, queue);
        proof {
            assert(self@ =~= acked.with_disk(old(self)@.disk.append_ack(id, queue@).flush()));
        }
        Ok(true)
    }

    /// Acknowledges messages of one queue, each under its receipt, and returns how many
    /// messages that took out of memory.
    pub fn ack_batch(&mut self, queue: &str, items: &Vec<(String, String)>, now: u64) -> (res: Result<
        usize,
        QueueError,
    >)
        requires
            old(self).wf(),
        ensures
            final(self).wf(),
            res matches Ok(n) && n == old(self)@.ack_count(queue@, pair_views(items@), now),
            old(self)@.batch_acks_to(queue@, pair_views(items@), now, final(self)@),
    {
        let accepted: Vec<bool> = self.ack_each(queue, items, now);
        let mut count: usize = 0;
        let mut i: usize = 0;
        let ghost views = pair_views(items@);
        proof {
            assert(views.take(0) =~= Seq::empty());
        }
        while i < accepted.len()
            invariant
                count <= i <= accepted.len() == items.len(),
                views == pair_views(items@),
                count == old(self)@.ack_count(queue@, views.take(i as int), now),
                forall|k: int|
                    0 <= k < accepted.len() ==> (#[trigger] accepted@[k] == old(
                        self,
                    )@.ack_is_accepted(queue@, views, k, now)),
            decreases accepted.len() - i,
        {
            proof {
                assert(views.take(i + 1).drop_last() =~= views.take(i as int));
                assert(views.take(i + 1).last() == views[i as int]);
            }
            if accepted[i] {
                count += 1;
            }
            i += 1;
        }
        proof {
            assert(views.take(i as int) =~= views);
        }
        Ok(count)
    }

    /// Acknowledges messages of one queue, each under its receipt, and says of each whether
    /// it took the message out of memory.
    pub fn ack_each(&mut self, queue: &str, items: &Vec<(String, String)>, now: u64) -> (accepted:
        Vec<bool>)
        requires
            old(self).wf(),
        ensures
            final(self).wf(),
            accepted@.len() == items@.len(),
            forall|k: int|
                0 <= k < accepted@.len() ==> (#[trigger] accepted@[k] == old(self)@.ack_is_accepted(
                    queue@,
                    pair_views(items@),
                    k,
                    now,
                )),
            old(self)@.batch_acks_to(queue@, pair_views(items@), now, final(self)@),
    {
        let ghost views = pair_views(items@);
        let mut accepted: Vec<bool> = Vec::new();
        let mut any: bool = false;
        let mut i: usize = 0;
        proof {
            assert(views.take(0) =~= Seq::empty());
        }
        while i < items.len()
            invariant
                self.wf(),
                accepted.len() == i <= items.len(),
                views == pair_views(items@),
                self@ == old(self)@.ack_all(queue@, views.take(i as int), now),
                any == (old(self)@.ack_count(queue@, views.take(i as int), now) > 0),
                forall|k: int|
                    0 <= k < i ==> (#[trigger] accepted@[k] == old(self)@.ack_is_accepted(
                        queue@,
                        views,
                        k,
                        now,
                    )),
            decreases items.len() - i,
        {
            let ghost before = self@;
            let item = &items[i];
            proof {
                assert(views.take(i + 1).drop_last() =~= views.take(i as int));
                assert(views.take(i + 1).last() == (item.0@, item.1@));
                assert(views[i as int] == (item.0@, item.1@));
            }
            let mut held: bool = false;
            match parse_id(item.0.as_str()) {
                Some(id) => {
                    let (runs, present) = self.ack_lease(queue, id, item.1.as_str(), now);
                    if runs {
                        let ghost released = self@;
                        self.disk.append_ack_async(id, queue);
                        proof {
                            assert(self@ =~= released.with_disk(before.disk.append_ack(id, queue@)));
                            assert(self@ =~= before.ack_step(queue@, item.0@, item.1@, now));
                        }
                        held = present;
                        any = any || present;
                    }
                },
                None => {},
            }
            accepted.push(held);
            i += 1;
        }
        proof {
            assert(views.take(i as int) =~= views);
        }
        if any {
            let ghost acked = self@;
            self.disk.flush();
            proof {
                assert(self@ =~= acked.with_disk(acked.disk.flush()));
            }
        }
        accepted
    }

    /// Acknowledges a message whatever its lease. False if the text is no id.
    pub fn ack_follower(&mut self, queue: &str, message_id_str: &str) -> (res: Result<
        bool,
        QueueError,
    >)
        requires
            old(self).wf(),
        ensures
            final(self).wf(),
            res == Ok::<bool, QueueError>(ids::id_value(message_id_str@) is Some),
            match ids::id_value(message_id_str@) {
                Some(id) => old(self)@.follower_acks_to(queue@, id, final(self)@),
                None => final(self)@ == old(self)@,
            },
    {
        let id: u128 = match parse_id(message_id_str) {
            Some(id) => id,
            None => {
                return Ok(false);
            },
        };
        self.apply_ack(queue, id);
        let ghost acked = self@;
        self.disk.append_ack_durable(id, queue);
        proof {
            assert(self@ =~= acked.with_disk(old(self)@.disk.append_ack(id, queue@).flush()));
        }
        Ok(true)
    }

    /// Asks for the log to be flushed.
    pub fn flush_wal(&mut self)
        requires
            old(self).wf(),
        ensures
            final(self).wf(),
            final(self)@ == old(self)@.with_disk(old(self)@.disk.flush()),
    {
        self.disk.flush();
        proof {
            assert(self@ =~= old(self)@.with_disk(old(self)@.disk.flush()));
        }
    }

    /// Hands over what has to be done to the files.
    pub fn take_actions(&mut self) -> (actions: Vec<DiskAction>)
        requires
            old(self).wf(),
        ensures
            final(self).wf(),
            disk_log::action_views(actions@) == old(self)@.disk.actions,
            final(self)@ == old(self)@.with_disk(
                (DiskView { actions: Seq::empty(), ..old(self)@.disk }),
            ),
    {
        let actions: Vec<DiskAction> = self.disk.take_actions();
        proof {
            assert(self@ =~= old(self)@.with_disk(
                DiskView { actions: Seq::empty(), ..old(self)@.disk },
            ));
        }
        actions
    }

    /// Forgets everything in memory but which messages were acknowledged, for the state to be
    /// built again from elsewhere.
    pub fn clear_for_raft_recovery(&mut self)
        requires
            old(self).wf(),
        ensures
            final(self).wf(),
            final(self)@ == old(self)@.cleared(),
    {
        let mut n: usize = 0;
        while n < self.shards.len()
            invariant
                n <= self.shards.len() == old(self).shards.len(),
                self.disk == old(self).disk,
                self.options == old(self).options,
                self.base_epoch_sec == old(self).base_epoch_sec,
                old(self).wf(),
                forall|i: int|
                    0 <= i < self.shards@.len() ==> (#[trigger] self.shards@[i]).wf() && if i < n {
                        self.shards@[i]@ == old(self).shards@[i]@.cleared()
                    } else {
                        self.shards@[i] == old(self).shards@[i]
                    },
            decreases self.shards.len() - n,
        {
            self.shards[n].clear();
            n += 1;
        }
        self.total_messages_in_ram = 0;
        self.spill_read_offset = 0;
        proof {
            assert(self@.shards =~= old(self)@.cleared().shards);
            assert(self@ =~= old(self)@.cleared());
        }
    }
}

}
