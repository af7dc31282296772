//! The write-ahead log: two segments of which one is active, and the manifest of queue
//! names. The log decides what is written where; carrying out its [`DiskAction`]s is left
//! to the caller.
use vstd::prelude::*;

pub use crate::engine::registry::QueueRegistry;
pub use crate::engine::wal::{WalRecord, EPOCH_2020_SEC};

use crate::engine::registry;
use crate::engine::registry::RegistryView;
use crate::engine::wal;
use crate::engine::wal::{
    encode_ack, encode_push, read_declared_len, read_records, RecordView, PUSH_HEADER_BYTES,
};

verus! {

/// Appends to one segment are gathered into one write up to this many bytes.
pub const GROUP_COMMIT_BYTES: usize = 131072;

/// How much of a segment is read at a time, unless one record takes more.
pub const READ_WINDOW_BYTES: u64 = 1048576;

/// What has to be done to the files, in order.
#[derive(Debug)]
pub enum DiskAction {
    AppendManifest { bytes: Vec<u8> },
    AppendSegment { to_b: bool, bytes: Vec<u8> },
    Flush,
    TruncateSegment { is_b: bool },
}

/// The mathematical content of a [`DiskAction`].
pub enum ActionView {
    AppendManifest { bytes: Seq<u8> },
    AppendSegment { to_b: bool, bytes: Seq<u8> },
    Flush,
    TruncateSegment { is_b: bool },
}

impl View for DiskAction {
    type V = ActionView;

    open spec fn view(&self) -> ActionView {
        match *self {
            DiskAction::AppendManifest { bytes } => ActionView::AppendManifest { bytes: bytes@ },
            DiskAction::AppendSegment { to_b, bytes } => ActionView::AppendSegment {
                to_b,
                bytes: bytes@,
            },
            DiskAction::Flush => ActionView::Flush,
            DiskAction::TruncateSegment { is_b } => ActionView::TruncateSegment { is_b },
        }
    }
}

pub open spec fn action_views(actions: Seq<DiskAction>) -> Seq<ActionView> {
    actions.map_values(|a: DiskAction| a@)
}

/// The actions with an append to a segment added: to the last write, if that goes to the
/// same segment and is not large yet.
pub open spec fn with_append(actions: Seq<ActionView>, to_b: bool, bytes: Seq<u8>) -> Seq<
    ActionView,
> {
    match actions.last() {
        ActionView::AppendSegment { to_b: last_to_b, bytes: last } if actions.len() > 0
            && last_to_b == to_b && last.len() <= GROUP_COMMIT_BYTES =>
            actions.drop_last().push(ActionView::AppendSegment { to_b, bytes: last + bytes }),
        _ => actions.push(ActionView::AppendSegment { to_b, bytes }),
    }
}

/// A message that is carried over to a fresh segment: id, queue, visibility, payload.
pub type Survivor = (u128, String, u64, Vec<u8>);

/// The mathematical content of a [`Survivor`].
pub struct SurvivorView {
    pub id: u128,
    pub queue: Seq<char>,
    pub visible_at: u64,
    pub payload: Seq<u8>,
}

pub open spec fn survivor_view(s: Survivor) -> SurvivorView {
    SurvivorView { id: s.0, queue: s.1@, visible_at: s.2, payload: s.3@ }
}

pub open spec fn survivor_views(list: Seq<Survivor>) -> Seq<SurvivorView> {
    list.map_values(|s: Survivor| survivor_view(s))
}

/// The mathematical content of a [`DiskLog`].
#[verifier::ext_equal]
pub struct DiskView {
    pub registry: RegistryView,
    pub active_is_b: bool,
    pub active_bytes: u64,
    pub max_segment_size: u64,
    pub actions: Seq<ActionView>,
}

impl DiskView {
    /// The log over files with this content.
    pub open spec fn open(
        manifest: Seq<u8>,
        wal_a: Seq<u8>,
        wal_b: Seq<u8>,
        max_segment_size: u64,
    ) -> DiskView {
        let active_is_b = wal_b.len() > 0 && wal_a.len() == 0;
        DiskView {
            registry: RegistryView::empty().load(manifest),
            active_is_b,
            active_bytes: if active_is_b { wal_b.len() as u64 } else { wal_a.len() as u64 },
            max_segment_size,
            actions: Seq::empty(),
        }
    }

    pub open spec fn register(self, queue: Seq<char>) -> DiskView {
        if self.registry.ids.contains_key(queue) {
            self
        } else {
            DiskView {
                registry: self.registry.register(queue),
                actions: self.actions.push(
                    ActionView::AppendManifest {
                        bytes: registry::manifest_entry(self.registry.id_of(queue), queue),
                    },
                ),
                ..self
            }
        }
    }

    pub open spec fn append(self, bytes: Seq<u8>) -> DiskView {
        DiskView {
            active_bytes: ((self.active_bytes + bytes.len()) % (u64::MAX + 1)) as u64,
            actions: with_append(self.actions, self.active_is_b, bytes),
            ..self
        }
    }

    pub open spec fn append_push(
        self,
        msg_id: u128,
        queue: Seq<char>,
        visible_at: u64,
        payload: Seq<u8>,
    ) -> DiskView {
        self.register(queue).append(
            wal::push_bytes(msg_id, self.registry.id_of(queue), visible_at, payload),
        )
    }

    pub open spec fn append_ack(self, msg_id: u128, queue: Seq<char>) -> DiskView {
        self.register(queue).append(wal::ack_bytes(msg_id, self.registry.id_of(queue)))
    }

    pub open spec fn flush(self) -> DiskView {
        DiskView { actions: self.actions.push(ActionView::Flush), ..self }
    }

    pub open spec fn append_all(self, list: Seq<SurvivorView>) -> DiskView
        decreases list.len(),
    {
        if list.len() == 0 {
            self
        } else {
            let m = list.last();
            self.append_all(list.drop_last()).append_push(m.id, m.queue, m.visible_at, m.payload)
        }
    }

    /// The active segment has reached its limit.
    pub open spec fn compaction_due(self) -> bool {
        self.active_bytes >= self.max_segment_size
    }

    /// Writes the survivors to the other segment, makes that the active one, and empties
    /// the one that was active.
    pub open spec fn compact(self, list: Seq<SurvivorView>) -> DiskView {
        let flipped = DiskView { active_is_b: !self.active_is_b, active_bytes: 0, ..self.flush() };
        let written = flipped.append_all(list).flush();
        DiskView {
            actions: written.actions.push(ActionView::TruncateSegment { is_b: self.active_is_b }),
            ..written
        }
    }
}

/// What came back when the active segment was read.
#[derive(Debug)]
pub enum SegmentRead {
    /// There is no such file.
    Missing,
    /// The file could not be opened or read.
    Failed { message: String },
    /// The file's length, and its bytes from the offset that was asked for on, as many as
    /// [`read_window`] says.
    Data { file_len: u64, raw: Vec<u8> },
}

/// How many bytes are to be read from `offset` on, where the bytes there start with `head`:
/// so many that the record there is all among them, if the file holds all of it.
pub open spec fn window_len(file_len: u64, offset: u64, head: Seq<u8>) -> u64 {
    let wanted = match wal::declared_len(head) {
        Some(n) if n > READ_WINDOW_BYTES => n as u64,
        _ => READ_WINDOW_BYTES,
    };
    if offset >= file_len {
        0
    } else if file_len - offset <= wanted {
        (file_len - offset) as u64
    } else {
        wanted
    }
}

/// How many bytes of a segment of this length are to be read from `offset` on. `head` is
/// what stands there, of which [`PUSH_HEADER_BYTES`] matter.
pub fn read_window(file_len: u64, offset: u64, head: &[u8]) -> (len: u64)
    ensures
        len == window_len(file_len, offset, head@),
{
    let wanted: u64 = match read_declared_len(head) {
        Some(n) if n > READ_WINDOW_BYTES => n,
        _ => READ_WINDOW_BYTES,
    };
    if offset >= file_len {
        0
    } else if file_len - offset <= wanted {
        file_len - offset
    } else {
        wanted
    }
}

impl SegmentRead {
    /// The data is what a read at `offset` gives.
    pub open spec fn is_window(self, offset: u64) -> bool {
        match self {
            SegmentRead::Data { file_len, raw } => raw@.len() == window_len(
                file_len,
                offset,
                raw@,
            ),
            _ => true,
        }
    }
}

/// The records that a read gave, and the offset behind them; nothing if it failed.
pub open spec fn entries_from(
    reg: RegistryView,
    offset: u64,
    max_entries: usize,
    read: SegmentRead,
) -> Option<(Seq<RecordView>, u64)> {
    match read {
        SegmentRead::Missing => Some((Seq::empty(), offset)),
        SegmentRead::Failed { message } => None,
        SegmentRead::Data { file_len, raw } => if offset >= file_len {
            Some((Seq::empty(), file_len))
        } else {
            let (records, consumed) = wal::parse(raw@, reg, max_entries as nat);
            Some((records, (offset + consumed) as u64))
        },
    }
}

/// The offset behind the first `n` records that a read gave.
pub open spec fn offset_behind(reg: RegistryView, offset: u64, n: nat, read: SegmentRead) -> u64 {
    match read {
        SegmentRead::Data { file_len, raw } if offset < file_len => (offset + wal::parse(
            raw@,
            reg,
            n,
        ).1) as u64,
        _ => offset,
    }
}

/// Two segments, of which one is active, and the names of the queues in them.
pub struct DiskLog {
    registry: QueueRegistry,
    active_is_b: bool,
    active_bytes: u64,
    pub max_segment_size: u64,
    actions: Vec<DiskAction>,
}

impl View for DiskLog {
    type V = DiskView;

    closed spec fn view(&self) -> DiskView {
        DiskView {
            registry: self.registry@,
            active_is_b: self.active_is_b,
            active_bytes: self.active_bytes,
            max_segment_size: self.max_segment_size,
            actions: action_views(self.actions@),
        }
    }
}

impl DiskLog {
    /// Opens the log over the content of its files, and returns the records in them, those
    /// of the first segment first. A file that does not exist counts as empty.
    pub fn open(manifest: &[u8], wal_a: &[u8], wal_b: &[u8], max_segment_size: u64) -> (res: (
        Self,
        Vec<WalRecord>,
    ))
        ensures
            res.0@ == DiskView::open(manifest@, wal_a@, wal_b@, max_segment_size),
            wal::record_views(res.1@) == wal::records_in(wal_a@, res.0@.registry)
                + wal::records_in(wal_b@, res.0@.registry),
    {
        let registry = QueueRegistry::open(manifest);
        let (mut records, _len_a) = read_records(wal_a, &registry, wal_a.len());
        let (mut records_b, _len_b) = read_records(wal_b, &registry, wal_b.len());
        let ghost first = records@;
        let ghost second = records_b@;
        records.append(&mut records_b);
        let active_is_b: bool = wal_b.len() > 0 && wal_a.len() == 0;
        let active_bytes: u64 = if active_is_b { wal_b.len() as u64 } else { wal_a.len() as u64 };
        let disk = DiskLog {
            registry,
            active_is_b,
            active_bytes,
            max_segment_size,
            actions: Vec::new(),
        };
        proof {
            assert(wal::record_views(records@) =~= wal::record_views(first) + wal::record_views(second));
            assert(disk@ =~= DiskView::open(manifest@, wal_a@, wal_b@, max_segment_size));
        }
        (disk, records)
    }

    /// The number of a queue; a new name is put on the manifest.
    fn register(&mut self, queue_name: &str) -> (q_id: u16)
        ensures
            final(self)@ == old(self)@.register(queue_name@),
            q_id == old(self)@.registry.id_of(queue_name@),
    {
        let (q_id, entry) = self.registry.get_or_register(queue_name);
        match entry {
            Some(bytes) => {
                self.actions.push(DiskAction::AppendManifest { bytes });
                proof {
                    assert(self@ =~= old(self)@.register(queue_name@));
                }
            },
            None => {},
        }
        q_id
    }

    fn append(&mut self, bytes: Vec<u8>)
        ensures
            final(self)@ == old(self)@.append(bytes@),
    {
        let ghost before = self.actions@;
        self.active_bytes = self.active_bytes.wrapping_add(bytes.len() as u64);
        let to_b: bool = self.active_is_b;
        match self.actions.pop() {
            Some(DiskAction::AppendSegment { to_b: last_to_b, bytes: mut last }) => {
                if last_to_b == to_b && last.len() <= GROUP_COMMIT_BYTES {
                    let mut bytes = bytes;
                    let ghost tail = bytes@;
                    let ghost head = last@;
                    last.append(&mut bytes);
                    self.actions.push(DiskAction::AppendSegment { to_b, bytes: last });
                    proof {
                        assert(action_views(before).last() == before.last()@);
                        assert(action_views(self.actions@) =~= action_views(before).drop_last().push(
                            ActionView::AppendSegment { to_b, bytes: head + tail },
                        ));
                    }
                } else {
                    self.actions.push(DiskAction::AppendSegment { to_b: last_to_b, bytes: last });
                    self.actions.push(DiskAction::AppendSegment { to_b, bytes });
                    proof {
                        assert(action_views(before).last() == before.last()@);
                        assert(action_views(self.actions@) =~= action_views(before).push(
                            ActionView::AppendSegment { to_b, bytes: bytes@ },
                        ));
                    }
                }
            },
            Some(last) => {
                self.actions.push(last);
                self.actions.push(DiskAction::AppendSegment { to_b, bytes });
                proof {
                    assert(action_views(before).last() == before.last()@);
                    assert(action_views(self.actions@) =~= action_views(before).push(
                        ActionView::AppendSegment { to_b, bytes: bytes@ },
                    ));
                }
            },
            None => {
                self.actions.push(DiskAction::AppendSegment { to_b, bytes });
                proof {
                    assert(action_views(self.actions@) =~= action_views(before).push(
                        ActionView::AppendSegment { to_b, bytes: bytes@ },
                    ));
                }
            },
        }
        proof {
            assert(self@ =~= old(self)@.append(bytes@));
        }
    }

    /// Logs a push.
    pub fn append_push_async(
        &mut self,
        msg_id: u128,
        queue_name: &str,
        visible_at: u64,
        payload: &[u8],
    )
        ensures
            final(self)@ == old(self)@.append_push(msg_id, queue_name@, visible_at, payload@),
    {
        let q_id: u16 = self.register(queue_name);
        let mut record: Vec<u8> = Vec::new();
        encode_push(&mut record, msg_id, q_id, visible_at, payload);
        proof {
            assert(record@ =~= wal::push_bytes(msg_id, q_id, visible_at, payload@));
        }
        self.append(record);
    }

    /// Logs a push and has it flushed.
    pub fn append_push_durable(
        &mut self,
        msg_id: u128,
        queue_name: &str,
        visible_at: u64,
        payload: &[u8],
    )
        ensures
            final(self)@ == old(self)@.append_push(
                msg_id,
                queue_name@,
                visible_at,
                payload@,
            ).flush(),
    {
        self.append_push_async(msg_id, queue_name, visible_at, payload);
        self.flush();
    }

    /// Logs an acknowledgement.
    pub fn append_ack_async(&mut self, msg_id: u128, queue_name: &str)
        ensures
            final(self)@ == old(self)@.append_ack(msg_id, queue_name@),
    {
        let q_id: u16 = self.register(queue_name);
        let mut record: Vec<u8> = Vec::new();
        encode_ack(&mut record, msg_id, q_id);
        proof {
            assert(record@ =~= wal::ack_bytes(msg_id, q_id));
        }
        self.append(record);
    }

    /// Logs an acknowledgement and has it flushed.
    pub fn append_ack_durable(&mut self, msg_id: u128, queue_name: &str)
        ensures
            final(self)@ == old(self)@.append_ack(msg_id, queue_name@).flush(),
    {
        self.append_ack_async(msg_id, queue_name);
        self.flush();
    }

    /// Asks for everything logged so far to be flushed.
    pub fn flush(&mut self)
        ensures
            final(self)@ == old(self)@.flush(),
    {
        self.actions.push(DiskAction::Flush);
        proof {
            assert(self@ =~= old(self)@.flush());
        }
    }

    /// Hands over what has to be done to the files.
    pub fn take_actions(&mut self) -> (actions: Vec<DiskAction>)
        ensures
            action_views(actions@) == old(self)@.actions,
            final(self)@ == (DiskView { actions: Seq::empty(), ..old(self)@ }),
    {
        let mut actions: Vec<DiskAction> = Vec::new();
        std::mem::swap(&mut actions, &mut self.actions);
        proof {
            assert(self@ =~= DiskView { actions: Seq::empty(), ..old(self)@ });
        }
        actions
    }

    /// Says whether the active segment has reached its limit.
    pub fn should_compact(&self) -> (res: bool)
        ensures
            res == self@.compaction_due(),
    {
        self.active_bytes >= self.max_segment_size
    }

    /// How many bytes the active segment holds.
    pub fn active_bytes(&self) -> (n: u64)
        ensures
            n == self@.active_bytes,
    {
        self.active_bytes
    }

    /// Whether the second segment is the active one.
    pub fn active_is_b(&self) -> (res: bool)
        ensures
            res == self@.active_is_b,
    {
        self.active_is_b
    }

    /// Moves the survivors to the other segment and empties this one.
    pub fn perform_flip_flop_compaction(&mut self, surviving_unacked_messages: &Vec<Survivor>)
        ensures
            final(self)@ == old(self)@.compact(survivor_views(surviving_unacked_messages@)),
    {
        let ghost list = survivor_views(surviving_unacked_messages@);
        let was_b: bool = self.active_is_b;
        self.flush();
        self.active_is_b = !was_b;
        self.active_bytes = 0;
        let ghost flipped = DiskView {
            active_is_b: !old(self)@.active_is_b,
            active_bytes: 0,
            ..old(self)@.flush()
        };
        proof {
            assert(self@ =~= flipped);
            assert(list.take(0) =~= Seq::empty());
        }
        let mut i: usize = 0;
        while i < surviving_unacked_messages.len()
            invariant
                i <= surviving_unacked_messages.len(),
                list == survivor_views(surviving_unacked_messages@),
                self@ == flipped.append_all(list.take(i as int)),
            decreases surviving_unacked_messages.len() - i,
        {
            let m = &surviving_unacked_messages[i];
            self.append_push_async(m.0, m.1.as_str(), m.2, m.3.as_slice());
            i += 1;
            proof {
                assert(list.take(i as int).drop_last() =~= list.take(i - 1));
                assert(list.take(i as int).last() == survivor_view(*m));
            }
        }
        self.flush();
        self.actions.push(DiskAction::TruncateSegment { is_b: was_b });
        proof {
            assert(list.take(list.len() as int) =~= list);
            assert(self@ =~= old(self)@.compact(list));
        }
    }

    /// The offset behind the first `n` records that a read of the active segment at `offset`
    /// gave.
    pub fn offset_behind(&self, offset: u64, n: usize, read: &SegmentRead) -> (end: u64)
        requires
            read.is_window(offset),
        ensures
            end == offset_behind(self@.registry, offset, n as nat, *read),
    {
        match read {
            SegmentRead::Data { file_len, raw } => {
                if offset >= *file_len {
                    return offset;
                }
                let (_records, consumed) = read_records(raw.as_slice(), &self.registry, n);
                offset + consumed as u64
            },
            _ => offset,
        }
    }

    /// The records that `data`, the content of a segment, holds.
    pub fn records_of(&self, data: &[u8]) -> (records: Vec<WalRecord>)
        ensures
            wal::record_views(records@) == wal::records_in(data@, self@.registry),
    {
        let (records, _used) = read_records(data, &self.registry, data.len());
        records
    }

    /// The records that a read of the active segment at `offset` gave, at most
    /// `max_entries`, and the offset behind them.
    pub fn read_entries_from_offset(
        &self,
        offset: u64,
        max_entries: usize,
        read: &SegmentRead,
    ) -> (res: Result<(Vec<WalRecord>, u64), String>)
        requires
            read.is_window(offset),
        ensures
            match res {
                Ok((records, next)) => entries_from(
                    self@.registry,
                    offset,
                    max_entries,
                    *read,
                ) == Some((wal::record_views(records@), next)),
                Err(text) => *read matches SegmentRead::Failed { message } && text@ == message@,
            },
    {
        match read {
            SegmentRead::Missing => {
                let records: Vec<WalRecord> = Vec::new();
                proof {
                    assert(wal::record_views(records@) =~= Seq::empty());
                }
                Ok((records, offset))
            },
            SegmentRead::Failed { message } => Err(message.clone()),
            SegmentRead::Data { file_len, raw } => {
                if offset >= *file_len {
                    let records: Vec<WalRecord> = Vec::new();
                    proof {
                        assert(wal::record_views(records@) =~= Seq::empty());
                    }
                    return Ok((records, *file_len));
                }
                let (records, consumed) = read_records(raw.as_slice(), &self.registry, max_entries);
                Ok((records, offset + consumed as u64))
            },
        }
    }
}

}
