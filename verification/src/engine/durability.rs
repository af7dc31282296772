//! What the files hold once the actions of a log have been carried out, and what is read
//! back from them.
use vstd::prelude::*;
use vstd::utf8;

use crate::engine::disk_log;
use crate::engine::disk_log::{ActionView, DiskView, SegmentRead, SurvivorView};
use crate::engine::registry;
use crate::engine::registry::RegistryView;
use crate::engine::wal;
use crate::engine::wal::{RecordView, EPOCH_2020_SEC};
use crate::wire;

verus! {

broadcast use crate::wire::lemma_be_len;

/// The content of the three files.
#[verifier::ext_equal]
pub struct FilesView {
    pub manifest: Seq<u8>,
    pub wal_a: Seq<u8>,
    pub wal_b: Seq<u8>,
}

impl FilesView {
    pub open spec fn segment(self, is_b: bool) -> Seq<u8> {
        if is_b {
            self.wal_b
        } else {
            self.wal_a
        }
    }

    pub open spec fn with_segment(self, is_b: bool, data: Seq<u8>) -> FilesView {
        if is_b {
            FilesView { wal_b: data, ..self }
        } else {
            FilesView { wal_a: data, ..self }
        }
    }

    /// The files after one action.
    pub open spec fn perform(self, action: ActionView) -> FilesView {
        match action {
            ActionView::AppendManifest { bytes } => FilesView {
                manifest: self.manifest + bytes,
                ..self
            },
            ActionView::AppendSegment { to_b, bytes } => self.with_segment(
                to_b,
                self.segment(to_b) + bytes,
            ),
            ActionView::Flush => self,
            ActionView::TruncateSegment { is_b } => self.with_segment(is_b, Seq::empty()),
        }
    }

    /// The files after all the actions, in order.
    pub open spec fn perform_all(self, actions: Seq<ActionView>) -> FilesView
        decreases actions.len(),
    {
        if actions.len() == 0 {
            self
        } else {
            self.perform_all(actions.drop_last()).perform(actions.last())
        }
    }
}

/// The names and numbers of a registry agree.
pub open spec fn names_agree(reg: RegistryView) -> bool {
    &&& reg.names.len() <= 0x1_0000
    &&& forall|name: Seq<char>| #[trigger]
        reg.ids.contains_key(name) ==> reg.ids[name] < reg.names.len()
            && reg.names[reg.ids[name] as int] == name
}

/// The files that the log's pending actions lead to hold what the log thinks they hold.
pub open spec fn in_step(disk: DiskView, files: FilesView) -> bool {
    let done = files.perform_all(disk.actions);
    let active = done.segment(disk.active_is_b);
    &&& registry::manifest_is_whole(done.manifest)
    &&& RegistryView::empty().load(done.manifest) == disk.registry
    &&& names_agree(disk.registry)
    &&& wal::log_is_whole(active, disk.registry)
    &&& wal::queues_below(active, disk.registry.names.len())
    &&& disk.active_bytes == active.len()
}

/// The records that are read back from the active segment.
pub open spec fn active_records(disk: DiskView, files: FilesView) -> Seq<RecordView> {
    wal::records_in(
        files.perform_all(disk.actions).segment(disk.active_is_b),
        disk.registry,
    )
}

/// The content of the segment that is not active.
pub open spec fn frozen_segment(disk: DiskView, files: FilesView) -> Seq<u8> {
    files.perform_all(disk.actions).segment(!disk.active_is_b)
}

/// The queue name can be put on the manifest and numbered.
pub open spec fn can_name(reg: RegistryView, queue: Seq<char>) -> bool {
    reg.ids.contains_key(queue) || (reg.names.len() < 0x1_0000 && utf8::encode_utf8(queue).len()
        < 0x1_0000)
}

/// The time and the payload's length fit their fields of a record.
pub open spec fn fits_record(visible_at: u64, payload: Seq<u8>) -> bool {
    &&& EPOCH_2020_SEC <= visible_at < EPOCH_2020_SEC + 0x1_0000_0000
    &&& payload.len() < 0x1_0000_0000
}

proof fn lemma_perform_push(files: FilesView, actions: Seq<ActionView>, action: ActionView)
    ensures
        files.perform_all(actions.push(action)) == files.perform_all(actions).perform(action),
{
    assert(actions.push(action).drop_last() =~= actions);
}

/// Gathering appends into one write leaves the same files.
proof fn lemma_with_append(files: FilesView, actions: Seq<ActionView>, to_b: bool, bytes: Seq<u8>)
    ensures
        files.perform_all(disk_log::with_append(actions, to_b, bytes)) == files.perform_all(
            actions,
        ).perform(ActionView::AppendSegment { to_b, bytes }),
{
    match actions.last() {
        ActionView::AppendSegment { to_b: last_to_b, bytes: last } if actions.len() > 0
            && last_to_b == to_b && last.len() <= disk_log::GROUP_COMMIT_BYTES => {
            let joined = ActionView::AppendSegment { to_b, bytes: last + bytes };
            lemma_perform_push(files, actions.drop_last(), joined);
            let base = files.perform_all(actions.drop_last());
            assert(base.segment(to_b) + last + bytes =~= base.segment(to_b) + (last + bytes));
        },
        _ => {
            lemma_perform_push(files, actions, ActionView::AppendSegment { to_b, bytes });
        },
    }
}

/// It does not matter when pending actions are handed over: carrying them out in two lots
/// leaves the files as carrying them out at once.
pub proof fn law_actions_carried_out_in_lots(
    files: FilesView,
    first: Seq<ActionView>,
    second: Seq<ActionView>,
)
    ensures
        files.perform_all(first).perform_all(second) == files.perform_all(first + second),
    decreases second.len(),
{
    if second.len() == 0 {
        assert(first + second =~= first);
    } else {
        law_actions_carried_out_in_lots(files, first, second.drop_last());
        assert((first + second).drop_last() =~= first + second.drop_last());
    }
}

/// A log that was just opened over whole files is in step with them.
pub proof fn law_opened_log_is_in_step(files: FilesView, max_segment_size: u64)
    requires
        registry::manifest_is_whole(files.manifest),
        names_agree(RegistryView::empty().load(files.manifest)),
        ({
            let disk = DiskView::open(files.manifest, files.wal_a, files.wal_b, max_segment_size);
            let active = files.segment(disk.active_is_b);
            &&& wal::log_is_whole(active, disk.registry)
            &&& wal::queues_below(active, disk.registry.names.len())
            &&& active.len() <= u64::MAX
        }),
    ensures
        in_step(
            DiskView::open(files.manifest, files.wal_a, files.wal_b, max_segment_size),
            files,
        ),
{
}

/// An empty directory opens as a log that is in step.
pub proof fn law_new_log_is_in_step(max_segment_size: u64)
    ensures
        ({
            let files = FilesView {
                manifest: Seq::empty(),
                wal_a: Seq::empty(),
                wal_b: Seq::empty(),
            };
            let disk = DiskView::open(files.manifest, files.wal_a, files.wal_b, max_segment_size);
            in_step(disk, files) && active_records(disk, files) == Seq::<RecordView>::empty()
        }),
{
}

proof fn lemma_register_in_step(disk: DiskView, files: FilesView, queue: Seq<char>)
    requires
        in_step(disk, files),
        can_name(disk.registry, queue),
    ensures
        in_step(disk.register(queue), files),
        active_records(disk.register(queue), files) == active_records(disk, files),
        frozen_segment(disk.register(queue), files) == frozen_segment(disk, files),
        disk.registry.names.is_prefix_of(disk.register(queue).registry.names),
        disk.registry.id_of(queue) < disk.register(queue).registry.names.len(),
        wal::record_queue(disk.register(queue).registry, disk.registry.id_of(queue)) == queue,
{
    if !disk.registry.ids.contains_key(queue) {
        let done = files.perform_all(disk.actions);
        let id = disk.registry.id_of(queue);
        let entry = registry::manifest_entry(id, queue);
        let after = disk.register(queue);
        lemma_perform_push(files, disk.actions, ActionView::AppendManifest { bytes: entry });
        registry::law_registered_name_is_read_back(done.manifest, queue);
        let active = done.segment(disk.active_is_b);
        wal::law_later_names_do_not_matter(active, disk.registry, after.registry);
        lemma_queues_below_more(active, disk.registry.names.len(), after.registry.names.len());
    }
}

proof fn lemma_queues_below_more(data: Seq<u8>, bound: nat, more: nat)
    requires
        wal::queues_below(data, bound),
        bound <= more,
    ensures
        wal::queues_below(data, more),
    decreases data.len(),
{
    match wal::record_len(data) {
        None => {},
        Some(n) => {
            lemma_queues_below_more(data.skip(n as int), bound, more);
        },
    }
}

proof fn lemma_append_in_step(disk: DiskView, files: FilesView, record: Seq<u8>)
    requires
        in_step(disk, files),
        wal::record_len(record) == Some(record.len()),
        wal::record_q_id(record) < disk.registry.names.len(),
        disk.active_bytes + record.len() <= u64::MAX,
    ensures
        in_step(disk.append(record), files),
        active_records(disk.append(record), files) == active_records(disk, files).push(
            wal::record_of(record, disk.registry),
        ),
        frozen_segment(disk.append(record), files) == frozen_segment(disk, files),
{
    let active = files.perform_all(disk.actions).segment(disk.active_is_b);
    let bound = disk.registry.names.len();
    lemma_with_append(files, disk.actions, disk.active_is_b, record);
    wal::law_appended_record_is_read_back(active, record, disk.registry);
    wal::lemma_queues_below_append(active, record, disk.registry, bound, bound);
    vstd::arithmetic::div_mod::lemma_small_mod(
        disk.active_bytes as nat + record.len(),
        u64::MAX as nat + 1,
    );
}

/// A push that was logged is what is read back last, and the rest of the files is as it
/// was. The queue's name and the record's fields have to fit, and the segment's length has
/// to be countable.
pub proof fn law_logged_push_is_read_back(
    disk: DiskView,
    files: FilesView,
    msg_id: u128,
    queue: Seq<char>,
    visible_at: u64,
    payload: Seq<u8>,
)
    requires
        in_step(disk, files),
        can_name(disk.registry, queue),
        fits_record(visible_at, payload),
        disk.active_bytes + 27 + payload.len() <= u64::MAX,
    ensures
        ({
            let after = disk.append_push(msg_id, queue, visible_at, payload);
            &&& in_step(after, files)
            &&& active_records(after, files) == active_records(disk, files).push(
                RecordView::Push { msg_id, queue_name: queue, visible_at, payload },
            )
            &&& frozen_segment(after, files) == frozen_segment(disk, files)
        }),
{
    let q_id = disk.registry.id_of(queue);
    let named = disk.register(queue);
    lemma_register_in_step(disk, files, queue);
    wal::law_push_record_round_trip(msg_id, q_id, visible_at, payload, named.registry);
    lemma_append_in_step(named, files, wal::push_bytes(msg_id, q_id, visible_at, payload));
}

/// An acknowledgement that was logged is what is read back last, and the rest of the files
/// is as it was.
pub proof fn law_logged_ack_is_read_back(
    disk: DiskView,
    files: FilesView,
    msg_id: u128,
    queue: Seq<char>,
)
    requires
        in_step(disk, files),
        can_name(disk.registry, queue),
        disk.active_bytes + 19 <= u64::MAX,
    ensures
        ({
            let after = disk.append_ack(msg_id, queue);
            &&& in_step(after, files)
            &&& active_records(after, files) == active_records(disk, files).push(
                RecordView::Ack { msg_id, queue_name: queue },
            )
            &&& frozen_segment(after, files) == frozen_segment(disk, files)
        }),
{
    let q_id = disk.registry.id_of(queue);
    let named = disk.register(queue);
    lemma_register_in_step(disk, files, queue);
    wal::law_ack_record_round_trip(msg_id, q_id, named.registry);
    lemma_append_in_step(named, files, wal::ack_bytes(msg_id, q_id));
}

/// Flushing changes nothing in what is read back.
pub proof fn law_flush_keeps_files(disk: DiskView, files: FilesView)
    requires
        in_step(disk, files),
    ensures
        in_step(disk.flush(), files),
        active_records(disk.flush(), files) == active_records(disk, files),
        frozen_segment(disk.flush(), files) == frozen_segment(disk, files),
{
    lemma_perform_push(files, disk.actions, ActionView::Flush);
}

/// How many bytes the push records of the survivors take.
pub open spec fn survivor_bytes(list: Seq<SurvivorView>) -> nat
    decreases list.len(),
{
    if list.len() == 0 {
        0
    } else {
        survivor_bytes(list.drop_last()) + 27 + list.last().payload.len()
    }
}

/// The push records of the survivors.
pub open spec fn survivor_records(list: Seq<SurvivorView>) -> Seq<RecordView> {
    list.map_values(
        |m: SurvivorView|
            RecordView::Push {
                msg_id: m.id,
                queue_name: m.queue,
                visible_at: m.visible_at,
                payload: m.payload,
            },
    )
}

/// The queue names of the survivors can be put on the manifest and numbered, and their times
/// and payload lengths fit their fields of a record.
pub open spec fn fits_log(reg: RegistryView, list: Seq<SurvivorView>) -> bool {
    forall|i: int|
        0 <= i < list.len() ==> fits_record((#[trigger] list[i]).visible_at, list[i].payload) && (reg.ids.contains_key(list[i].queue) || (reg.names.len() + list.len() <= 0x1_0000
            && utf8::encode_utf8(list[i].queue).len() < 0x1_0000))
}

proof fn lemma_append_all_in_step(disk: DiskView, files: FilesView, list: Seq<SurvivorView>)
    requires
        in_step(disk, files),
        fits_log(disk.registry, list),
        disk.active_bytes + survivor_bytes(list) <= u64::MAX,
    ensures
        in_step(disk.append_all(list), files),
        disk.append_all(list).registry.names.len() <= disk.registry.names.len() + list.len(),
        disk.registry.ids.dom().subset_of(disk.append_all(list).registry.ids.dom()),
        disk.append_all(list).active_is_b == disk.active_is_b,
        disk.append_all(list).active_bytes == disk.active_bytes + survivor_bytes(list),
        active_records(disk.append_all(list), files) == active_records(disk, files)
            + survivor_records(list),
        frozen_segment(disk.append_all(list), files) == frozen_segment(disk, files),
    decreases list.len(),
{
    if list.len() == 0 {
        assert(active_records(disk, files) + survivor_records(list) =~= active_records(disk, files));
    } else {
        let m = list.last();
        let head = list.drop_last();
        assert(list[list.len() - 1] == m);
        assert forall|i: int| 0 <= i < head.len() implies fits_record(
            (#[trigger] head[i]).visible_at,
            head[i].payload,
        ) && (disk.registry.ids.contains_key(head[i].queue) || (disk.registry.names.len()
            + head.len() <= 0x1_0000 && utf8::encode_utf8(head[i].queue).len() < 0x1_0000)) by {
            assert(head[i] == list[i]);
        }
        lemma_append_all_in_step(disk, files, head);
        let before = disk.append_all(head);
        law_logged_push_is_read_back(before, files, m.id, m.queue, m.visible_at, m.payload);
        vstd::arithmetic::div_mod::lemma_small_mod(
            before.active_bytes as nat + 27 + m.payload.len(),
            u64::MAX as nat + 1,
        );
        assert(active_records(disk.append_all(list), files) =~= active_records(disk, files)
            + survivor_records(list));
    }
}

/// A compaction leaves the survivors, and nothing else, in the files: they are what is
/// read back from the new active segment, and the other one is empty. The segment that
/// compaction writes to has to be empty before.
pub proof fn law_compaction_keeps_survivors(
    disk: DiskView,
    files: FilesView,
    list: Seq<SurvivorView>,
)
    requires
        in_step(disk, files),
        frozen_segment(disk, files) == Seq::<u8>::empty(),
        fits_log(disk.registry, list),
        survivor_bytes(list) <= u64::MAX,
    ensures
        in_step(disk.compact(list), files),
        active_records(disk.compact(list), files) == survivor_records(list),
        frozen_segment(disk.compact(list), files) == Seq::<u8>::empty(),
        disk.compact(list).active_bytes == survivor_bytes(list),
{
    law_flush_keeps_files(disk, files);
    let flipped = DiskView { active_is_b: !disk.active_is_b, active_bytes: 0, ..disk.flush() };
    assert(flipped.actions == disk.flush().actions);
    let blank = files.perform_all(flipped.actions).segment(flipped.active_is_b);
    assert(blank == Seq::<u8>::empty());
    assert(wal::log_is_whole(blank, disk.registry));
    assert(wal::queues_below(blank, disk.registry.names.len()));
    assert(in_step(flipped, files));
    assert(active_records(flipped, files) =~= Seq::empty());
    lemma_append_all_in_step(flipped, files, list);
    let written = flipped.append_all(list);
    law_flush_keeps_files(written, files);
    let truncated = ActionView::TruncateSegment { is_b: disk.active_is_b };
    lemma_perform_push(files, written.flush().actions, truncated);
    let target = disk.compact(list);
    assert(target.actions == written.flush().actions.push(truncated));
    assert(files.perform_all(target.actions) == files.perform_all(
        written.flush().actions,
    ).perform(truncated));
    assert(active_records(target, files) =~= survivor_records(list));
}

/// What is read when the files are opened again is the active segment's records: after a
/// compaction or in a log that was never compacted, the other segment is empty.
pub proof fn law_reopening_reads_the_active_segment(
    disk: DiskView,
    files: FilesView,
    max_segment_size: u64,
)
    requires
        in_step(disk, files),
        frozen_segment(disk, files) == Seq::<u8>::empty(),
    ensures
        ({
            let done = files.perform_all(disk.actions);
            let reopened = DiskView::open(done.manifest, done.wal_a, done.wal_b, max_segment_size);
            &&& reopened.registry == disk.registry
            &&& wal::records_in(done.wal_a, reopened.registry) + wal::records_in(
                done.wal_b,
                reopened.registry,
            ) == active_records(disk, files)
        }),
{
    let done = files.perform_all(disk.actions);
    let none = Seq::<u8>::empty();
    assert(wal::records_in(none, disk.registry) =~= Seq::empty());
    assert(wal::records_in(done.wal_a, disk.registry) + wal::records_in(done.wal_b, disk.registry)
        =~= active_records(disk, files));
}

/// The read is one of the segment `data` at `offset`, as long as it has to be.
pub open spec fn reads_segment(read: SegmentRead, data: Seq<u8>, offset: u64) -> bool {
    &&& read.is_window(offset)
    &&& read matches SegmentRead::Data { file_len, raw } && file_len == data.len() && offset
        + raw@.len() <= data.len() && raw@ == data.subrange(offset as int, offset + raw@.len())
}

/// A scan of a segment that goes from read to read meets every record of it in order: a
/// read gives the records at its offset, and goes on behind them. It gives at least one
/// where the segment holds all of the next record, however long that is.
pub proof fn law_scan_reads_on(
    reg: RegistryView,
    data: Seq<u8>,
    offset: u64,
    max_entries: usize,
    read: SegmentRead,
)
    requires
        offset < data.len() <= u64::MAX,
        max_entries > 0,
        reads_segment(read, data, offset),
    ensures
        disk_log::entries_from(reg, offset, max_entries, read) matches Some((records, next))
            && {
            &&& offset <= next <= data.len()
            &&& wal::records_in(data.skip(offset as int), reg) == records + wal::records_in(
                data.skip(next as int),
                reg,
            )
            &&& wal::record_len(data.skip(offset as int)) is Some ==> records.len() > 0 && next
                > offset
        },
{
    let head = read->Data_raw@;
    let window = head.len() as int;
    let rest = data.skip(offset as int);
    let more = rest.skip(window);
    assert(head =~= rest.take(window));
    assert(head + more =~= rest);
    wal::law_log_reads_in_pieces(head, more, reg, max_entries as nat);
    let used = wal::parse(head, reg, max_entries as nat).1;
    assert(rest.skip(used as int) =~= data.skip(offset + used));
    if wal::record_len(rest) is Some {
        if wal::is_push_magic(rest[0]) {
            assert(head.subrange(23, 27) =~= rest.subrange(23, 27));
        }
        wal::lemma_record_fits(rest, window);
    }
}

/// The records that a scan meets which starts at `offset` and goes from read to read, each
/// giving at most `max_entries`. `reads` are what the reads come to.
pub open spec fn scan_records(
    reg: RegistryView,
    offset: u64,
    max_entries: usize,
    reads: Seq<SegmentRead>,
) -> Seq<RecordView>
    decreases reads.len(),
{
    if reads.len() == 0 {
        Seq::empty()
    } else {
        match disk_log::entries_from(reg, offset, max_entries, reads[0]) {
            Some((records, next)) => records + scan_records(
                reg,
                next,
                max_entries,
                reads.drop_first(),
            ),
            None => Seq::empty(),
        }
    }
}

/// The reads follow each other through the segment `data`, from `offset` to its end: each
/// is made where the one before it ended, and the last ends where no whole record follows.
pub open spec fn reads_through(
    reg: RegistryView,
    data: Seq<u8>,
    offset: u64,
    max_entries: usize,
    reads: Seq<SegmentRead>,
) -> bool
    decreases reads.len(),
{
    if reads.len() == 0 {
        offset <= data.len() && wal::record_len(data.skip(offset as int)) is None
    } else {
        &&& offset < data.len()
        &&& reads_segment(reads[0], data, offset)
        &&& disk_log::entries_from(reg, offset, max_entries, reads[0]) matches Some((_, next))
            && reads_through(reg, data, next, max_entries, reads.drop_first())
    }
}

/// A chain of reads through a segment gives every record of it once, in order.
pub proof fn law_chain_of_reads_gives_every_record(
    reg: RegistryView,
    data: Seq<u8>,
    offset: u64,
    max_entries: usize,
    reads: Seq<SegmentRead>,
)
    requires
        data.len() <= u64::MAX,
        max_entries > 0,
        reads_through(reg, data, offset, max_entries, reads),
    ensures
        scan_records(reg, offset, max_entries, reads) == wal::records_in(
            data.skip(offset as int),
            reg,
        ),
    decreases reads.len(),
{
    if reads.len() > 0 {
        law_scan_reads_on(reg, data, offset, max_entries, reads[0]);
        let (records, next) = disk_log::entries_from(reg, offset, max_entries, reads[0]).unwrap();
        law_chain_of_reads_gives_every_record(reg, data, next, max_entries, reads.drop_first());
    }
}

/// The log with a record appended and flushed.
pub open spec fn append_record(disk: DiskView, record: RecordView) -> DiskView {
    match record {
        RecordView::Push { msg_id, queue_name, visible_at, payload } => disk.append_push(
            msg_id,
            queue_name,
            visible_at,
            payload,
        ).flush(),
        RecordView::Ack { msg_id, queue_name } => disk.append_ack(msg_id, queue_name).flush(),
    }
}

/// The log with records appended and flushed one behind the other.
pub open spec fn append_records(disk: DiskView, records: Seq<RecordView>) -> DiskView
    decreases records.len(),
{
    if records.len() == 0 {
        disk
    } else {
        append_record(append_records(disk, records.drop_last()), records.last())
    }
}

/// The queue that a record is about, and how many bytes the record takes.
pub open spec fn record_needs(record: RecordView) -> (Seq<char>, nat) {
    match record {
        RecordView::Push { queue_name, payload, .. } => (queue_name, 27 + payload.len()),
        RecordView::Ack { queue_name, .. } => (queue_name, 19),
    }
}

/// How many bytes records take.
pub open spec fn records_bytes(records: Seq<RecordView>) -> nat
    decreases records.len(),
{
    if records.len() == 0 {
        0
    } else {
        records_bytes(records.drop_last()) + record_needs(records.last()).1
    }
}

/// The records fit the log: when its turn comes, the queue name of each can be put on the
/// manifest and numbered, their times and payload lengths fit their fields of a record, and
/// their bytes can be counted.
pub open spec fn fit_records(disk: DiskView, records: Seq<RecordView>) -> bool {
    &&& disk.active_bytes + records_bytes(records) <= u64::MAX
    &&& forall|i: int|
        0 <= i < records.len() ==> can_name(
            append_records(disk, records.take(i)).registry,
            record_needs(#[trigger] records[i]).0,
        )
    &&& forall|i: int|
        0 <= i < records.len() && (#[trigger] records[i]) is Push ==> fits_record(
            records[i]->visible_at,
            records[i]->payload,
        )
}

proof fn lemma_append_record(disk: DiskView, files: FilesView, record: RecordView)
    requires
        in_step(disk, files),
        can_name(disk.registry, record_needs(record).0),
        record is Push ==> fits_record(record->visible_at, record->payload),
        disk.active_bytes + record_needs(record).1 <= u64::MAX,
    ensures
        ({
            let after = append_record(disk, record);
            &&& in_step(after, files)
            &&& after.active_bytes == disk.active_bytes + record_needs(record).1
            &&& active_records(after, files) == active_records(disk, files).push(record)
            &&& frozen_segment(after, files) == frozen_segment(disk, files)
        }),
{
    vstd::arithmetic::div_mod::lemma_small_mod(
        disk.active_bytes as nat + record_needs(record).1,
        u64::MAX as nat + 1,
    );
    match record {
        RecordView::Push { msg_id, queue_name, visible_at, payload } => {
            law_logged_push_is_read_back(disk, files, msg_id, queue_name, visible_at, payload);
            law_flush_keeps_files(
                disk.append_push(msg_id, queue_name, visible_at, payload),
                files,
            );
        },
        RecordView::Ack { msg_id, queue_name } => {
            law_logged_ack_is_read_back(disk, files, msg_id, queue_name);
            law_flush_keeps_files(disk.append_ack(msg_id, queue_name), files);
        },
    }
}

/// Records that were appended, however many, are read back behind those before them, all of
/// them and in order.
pub proof fn law_appended_records_are_read_back(
    disk: DiskView,
    files: FilesView,
    records: Seq<RecordView>,
)
    requires
        in_step(disk, files),
        fit_records(disk, records),
    ensures
        ({
            let after = append_records(disk, records);
            &&& in_step(after, files)
            &&& after.active_bytes == disk.active_bytes + records_bytes(records)
            &&& active_records(after, files) == active_records(disk, files) + records
            &&& frozen_segment(after, files) == frozen_segment(disk, files)
        }),
    decreases records.len(),
{
    if records.len() == 0 {
        assert(active_records(disk, files) + records =~= active_records(disk, files));
    } else {
        let head = records.drop_last();
        let last = records[records.len() - 1];
        assert forall|i: int| 0 <= i < head.len() implies can_name(
            append_records(disk, head.take(i)).registry,
            record_needs(#[trigger] head[i]).0,
        ) by {
            assert(head[i] == records[i]);
            assert(head.take(i) =~= records.take(i));
        }
        assert forall|i: int| 0 <= i < head.len() && (#[trigger] head[i]) is Push implies fits_record(
            head[i]->visible_at,
            head[i]->payload,
        ) by {
            assert(head[i] == records[i]);
        }
        assert(records.take(records.len() - 1) =~= head);
        law_appended_records_are_read_back(disk, files, head);
        let before = append_records(disk, head);
        lemma_append_record(before, files, last);
        let after = append_records(disk, records);
        assert(active_records(after, files) =~= active_records(disk, files) + records);
    }
}

/// What was appended to a new log, however much, is what opening its files again gives.
pub proof fn law_reopening_reads_what_was_appended(
    records: Seq<RecordView>,
    max_segment_size: u64,
    reopened_size: u64,
)
    requires
        fit_records(
            DiskView::open(Seq::empty(), Seq::empty(), Seq::empty(), max_segment_size),
            records,
        ),
    ensures
        ({
            let files = FilesView {
                manifest: Seq::empty(),
                wal_a: Seq::empty(),
                wal_b: Seq::empty(),
            };
            let disk = append_records(
                DiskView::open(files.manifest, files.wal_a, files.wal_b, max_segment_size),
                records,
            );
            let done = files.perform_all(disk.actions);
            let reopened = DiskView::open(done.manifest, done.wal_a, done.wal_b, reopened_size);
            wal::records_in(done.wal_a, reopened.registry) + wal::records_in(
                done.wal_b,
                reopened.registry,
            ) == records
        }),
{
    let files = FilesView { manifest: Seq::empty(), wal_a: Seq::empty(), wal_b: Seq::empty() };
    let fresh = DiskView::open(files.manifest, files.wal_a, files.wal_b, max_segment_size);
    law_new_log_is_in_step(max_segment_size);
    law_appended_records_are_read_back(fresh, files, records);
    let disk = append_records(fresh, records);
    law_reopening_reads_the_active_segment(disk, files, reopened_size);
    assert(active_records(fresh, files) + records =~= records);
}

}
