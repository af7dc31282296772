//! The records of the write-ahead log and their binary form.
use vstd::prelude::*;

use crate::engine::registry::{QueueRegistry, RegistryView};
use crate::wire;
use crate::wire::{get_be, put_be};

verus! {

broadcast use crate::wire::lemma_be_len;

/// The first byte of a push record.
pub const PUSH_MAGIC: u8 = 1;

/// The first byte of an acknowledgement record.
pub const ACK_MAGIC: u8 = 2;

/// The first byte of a push record whose payload is stored compressed.
pub const COMPRESSED_PUSH_MAGIC: u8 = 3;

/// How many bytes of a push record stand before its payload.
pub const PUSH_HEADER_BYTES: usize = 27;

/// The start of the year 2020, from which the log counts seconds.
pub const EPOCH_2020_SEC: u64 = 1577836800;

#[derive(Debug)]
pub enum WalRecord {
    Push { msg_id: u128, queue_name: String, visible_at: u64, payload: Vec<u8> },
    Ack { msg_id: u128, queue_name: String },
}

/// The mathematical content of a [`WalRecord`].
pub enum RecordView {
    Push { msg_id: u128, queue_name: Seq<char>, visible_at: u64, payload: Seq<u8> },
    Ack { msg_id: u128, queue_name: Seq<char> },
}

impl View for WalRecord {
    type V = RecordView;

    open spec fn view(&self) -> RecordView {
        match *self {
            WalRecord::Push { msg_id, queue_name, visible_at, payload } => RecordView::Push {
                msg_id,
                queue_name: queue_name@,
                visible_at,
                payload: payload@,
            },
            WalRecord::Ack { msg_id, queue_name } => RecordView::Ack {
                msg_id,
                queue_name: queue_name@,
            },
        }
    }
}

pub open spec fn record_views(records: Seq<WalRecord>) -> Seq<RecordView> {
    records.map_values(|r: WalRecord| r@)
}

/// What `zstd::decode_all` makes of a byte sequence, if it can be decoded.
pub uninterp spec fn zstd_decoded(data: Seq<u8>) -> Option<Seq<u8>>;

/// Calls `zstd::decode_all`, which decompresses whole zstd frames. Why data could not be
/// decompressed is not kept.
#[verifier::external_body]
fn zstd_decode_all(data: &[u8]) -> (res: Option<Vec<u8>>)
    ensures
        match res {
            Some(decoded) => zstd_decoded(data@) == Some(decoded@),
            None => zstd_decoded(data@) is None,
        },
{
    zstd::decode_all(data).ok()
}

/// The seconds since 2020 that the log keeps of a point in time.
pub open spec fn relative_sec(visible_at: u64) -> nat {
    if visible_at >= EPOCH_2020_SEC {
        (visible_at - EPOCH_2020_SEC) as nat
    } else {
        0
    }
}

/// A push record: magic, id, queue, visibility in seconds since 2020, payload length,
/// payload. The visibility and the length keep their lowest four bytes.
pub open spec fn push_bytes(msg_id: u128, q_id: u16, visible_at: u64, payload: Seq<u8>) -> Seq<u8> {
    seq![PUSH_MAGIC] + wire::be(msg_id as nat, 16) + wire::be(q_id as nat, 2) + wire::be(
        relative_sec(visible_at),
        4,
    ) + wire::be(payload.len(), 4) + payload
}

/// An acknowledgement record: magic, id, queue.
pub open spec fn ack_bytes(msg_id: u128, q_id: u16) -> Seq<u8> {
    seq![ACK_MAGIC] + wire::be(msg_id as nat, 16) + wire::be(q_id as nat, 2)
}

/// The byte starts a push record.
pub open spec fn is_push_magic(magic: u8) -> bool {
    magic == PUSH_MAGIC || magic == COMPRESSED_PUSH_MAGIC
}

/// The queue that a record with this number belongs to.
pub open spec fn record_queue(reg: RegistryView, q_id: u16) -> Seq<char> {
    match reg.name_of(q_id) {
        Some(name) => name,
        None => "default"@,
    }
}

/// The payload that a stored payload stands for. What is marked as compressed but cannot
/// be decompressed is taken as it is.
pub open spec fn record_payload(compressed: bool, stored: Seq<u8>) -> Seq<u8> {
    if compressed {
        match zstd_decoded(stored) {
            Some(decoded) => decoded,
            None => stored,
        }
    } else {
        stored
    }
}

/// How many bytes the record at the start of `data` takes, as far as its header tells.
pub open spec fn declared_len(data: Seq<u8>) -> Option<nat> {
    if data.len() == 0 {
        None
    } else if data[0] == ACK_MAGIC {
        Some(19)
    } else if is_push_magic(data[0]) && data.len() >= PUSH_HEADER_BYTES {
        Some(PUSH_HEADER_BYTES as nat + wire::be_value(data.subrange(23, 27)))
    } else {
        None
    }
}

/// How many bytes the record at the start of `data` takes, if it is all there.
pub open spec fn record_len(data: Seq<u8>) -> Option<nat> {
    match declared_len(data) {
        Some(n) if n <= data.len() => Some(n),
        _ => None,
    }
}

/// The queue number of the record of the bytes `data`.
pub open spec fn record_q_id(data: Seq<u8>) -> u16 {
    wire::be_value(data.subrange(17, 19)) as u16
}

/// The record of the bytes `data`.
pub open spec fn record_of(data: Seq<u8>, reg: RegistryView) -> RecordView {
    let msg_id = wire::be_value(data.subrange(1, 17)) as u128;
    let queue_name = record_queue(reg, record_q_id(data));
    if data[0] == ACK_MAGIC {
        RecordView::Ack { msg_id, queue_name }
    } else {
        RecordView::Push {
            msg_id,
            queue_name,
            visible_at: (wire::be_value(data.subrange(19, 23)) + EPOCH_2020_SEC) as u64,
            payload: record_payload(data[0] == COMPRESSED_PUSH_MAGIC, data.skip(27)),
        }
    }
}

/// The first `limit` records of `data`, up to the first that is not all there, and how
/// many bytes they take.
pub open spec fn parse(data: Seq<u8>, reg: RegistryView, limit: nat) -> (Seq<RecordView>, nat)
    decreases limit,
{
    if limit == 0 {
        (Seq::empty(), 0)
    } else {
        match record_len(data) {
            None => (Seq::empty(), 0),
            Some(n) => {
                let (rest, m) = parse(data.skip(n as int), reg, (limit - 1) as nat);
                (seq![record_of(data.take(n as int), reg)] + rest, n + m)
            },
        }
    }
}

/// The payload for a stored payload, given what decompressing it came to.
pub fn payload_or_stored(decoded: Option<Vec<u8>>, stored: &[u8]) -> (payload: Vec<u8>)
    ensures
        payload@ == match decoded {
            Some(d) => d@,
            None => stored@,
        },
{
    match decoded {
        Some(d) => d,
        None => {
            let mut payload: Vec<u8> = Vec::new();
            payload.extend_from_slice(stored);
            proof {
                assert(payload@ =~= stored@);
            }
            payload
        },
    }
}

/// Appends a push record.
pub fn encode_push(buf: &mut Vec<u8>, msg_id: u128, q_id: u16, visible_at: u64, payload: &[u8])
    ensures
        final(buf)@ == old(buf)@ + push_bytes(msg_id, q_id, visible_at, payload@),
{
    let rel_ts: u64 = visible_at.saturating_sub(EPOCH_2020_SEC);
    buf.push(PUSH_MAGIC);
    put_be(buf, msg_id, 16);
    put_be(buf, q_id as u128, 2);
    put_be(buf, rel_ts as u128, 4);
    put_be(buf, payload.len() as u128, 4);
    buf.extend_from_slice(payload);
    proof {
        assert(buf@ =~= old(buf)@ + push_bytes(msg_id, q_id, visible_at, payload@));
    }
}

/// Appends an acknowledgement record.
pub fn encode_ack(buf: &mut Vec<u8>, msg_id: u128, q_id: u16)
    ensures
        final(buf)@ == old(buf)@ + ack_bytes(msg_id, q_id),
{
    buf.push(ACK_MAGIC);
    put_be(buf, msg_id, 16);
    put_be(buf, q_id as u128, 2);
    proof {
        assert(buf@ =~= old(buf)@ + ack_bytes(msg_id, q_id));
    }
}

fn queue_of_record(reg: &QueueRegistry, q_id: u16) -> (name: String)
    ensures
        name@ == record_queue(reg@, q_id),
{
    match reg.get_name(q_id) {
        Some(name) => name,
        None => "default".to_owned(),
    }
}

/// Reads the record at `pos`, if it is all there, and says where it ends.
pub fn read_record(data: &[u8], pos: usize, reg: &QueueRegistry) -> (res: Option<(WalRecord, usize)>)
    requires
        pos <= data@.len(),
    ensures
        match res {
            None => record_len(data@.skip(pos as int)) is None,
            Some((record, end)) => {
                let n = record_len(data@.skip(pos as int));
                &&& n == Some((end - pos) as nat)
                &&& pos < end <= data@.len()
                &&& record@ == record_of(data@.subrange(pos as int, end as int), reg@)
            },
        },
{
    let ghost rest = data@.skip(pos as int);
    let left: usize = data.len() - pos;
    if left < 1 {
        return None;
    }
    let magic: u8 = data[pos];
    if magic == ACK_MAGIC {
        if left < 19 {
            return None;
        }
        let msg_id: u128 = get_be(data, pos + 1, 16);
        let q_id: u16 = get_be(data, pos + 17, 2) as u16;
        let record = WalRecord::Ack { msg_id, queue_name: queue_of_record(reg, q_id) };
        proof {
            wire::lemma_be_widths();
            let own = data@.subrange(pos as int, pos + 19);
            assert(own.subrange(1, 17) =~= data@.subrange(pos + 1, pos + 1 + 16));
            assert(own.subrange(17, 19) =~= data@.subrange(pos + 17, pos + 17 + 2));
        }
        Some((record, pos + 19))
    } else if magic == PUSH_MAGIC || magic == COMPRESSED_PUSH_MAGIC {
        if left < PUSH_HEADER_BYTES {
            return None;
        }
        let msg_id: u128 = get_be(data, pos + 1, 16);
        let q_id: u16 = get_be(data, pos + 17, 2) as u16;
        let rel_ts: u64 = get_be(data, pos + 19, 4) as u64;
        let payload_len: usize = get_be(data, pos + 23, 4) as usize;
        proof {
            wire::lemma_be_widths();
            assert(rest.subrange(23, 27) =~= data@.subrange(pos + 23, pos + 23 + 4));
        }
        if left - PUSH_HEADER_BYTES < payload_len {
            return None;
        }
        let end: usize = pos + PUSH_HEADER_BYTES + payload_len;
        let stored: &[u8] = vstd::slice::slice_subrange(data, pos + PUSH_HEADER_BYTES, end);
        let decoded: Option<Vec<u8>> = if magic == COMPRESSED_PUSH_MAGIC {
            zstd_decode_all(stored)
        } else {
            None
        };
        let payload: Vec<u8> = payload_or_stored(decoded, stored);
        let record = WalRecord::Push {
            msg_id,
            queue_name: queue_of_record(reg, q_id),
            visible_at: rel_ts + EPOCH_2020_SEC,
            payload,
        };
        proof {
            let own = data@.subrange(pos as int, end as int);
            assert(own.subrange(1, 17) =~= data@.subrange(pos + 1, pos + 1 + 16));
            assert(own.subrange(17, 19) =~= data@.subrange(pos + 17, pos + 17 + 2));
            assert(own.subrange(19, 23) =~= data@.subrange(pos + 19, pos + 19 + 4));
            assert(own.skip(27) =~= stored@);
        }
        Some((record, end))
    } else {
        None
    }
}

/// How many bytes the record at the start of `data` takes, as far as its header tells.
pub fn read_declared_len(data: &[u8]) -> (len: Option<u64>)
    ensures
        match len {
            Some(n) => declared_len(data@) == Some(n as nat),
            None => declared_len(data@) is None,
        },
{
    if data.len() == 0 {
        None
    } else if data[0] == ACK_MAGIC {
        Some(19)
    } else if (data[0] == PUSH_MAGIC || data[0] == COMPRESSED_PUSH_MAGIC) && data.len()
        >= PUSH_HEADER_BYTES {
        let payload_len: u64 = get_be(data, 23, 4) as u64;
        proof {
            wire::lemma_be_widths();
        }
        Some(PUSH_HEADER_BYTES as u64 + payload_len)
    } else {
        None
    }
}

/// Reads up to `limit` records from the start of `data` and says how many bytes they take.
pub fn read_records(data: &[u8], reg: &QueueRegistry, limit: usize) -> (res: (Vec<WalRecord>, usize))
    ensures
        (record_views(res.0@), res.1 as nat) == parse(data@, reg@, limit as nat),
        res.1 <= data@.len(),
{
    let mut records: Vec<WalRecord> = Vec::new();
    let mut pos: usize = 0;
    let ghost all = parse(data@, reg@, limit as nat);
    proof {
        assert(data@.skip(0) =~= data@);
        assert(record_views(records@) =~= Seq::empty());
        assert(Seq::<RecordView>::empty() + all.0 =~= all.0);
    }
    while records.len() < limit
        invariant_except_break
            pos <= data.len(),
            records.len() <= limit,
            all.0 == record_views(records@) + parse(
                data@.skip(pos as int),
                reg@,
                (limit - records.len()) as nat,
            ).0,
            all.1 == pos + parse(data@.skip(pos as int), reg@, (limit - records.len()) as nat).1,
        ensures
            pos <= data.len(),
            all.0 == record_views(records@),
            all.1 == pos,
        decreases limit - records.len(),
    {
        let ghost rest = data@.skip(pos as int);
        match read_record(data, pos, reg) {
            None => {
                proof {
                    assert(record_views(records@) + Seq::<RecordView>::empty() =~= record_views(records@));
                }
                break;
            },
            Some((record, end)) => {
                let ghost prior = records@;
                let ghost n = end - pos;
                records.push(record);
                proof {
                    assert(rest.take(n) =~= data@.subrange(pos as int, end as int));
                    assert(rest.skip(n) =~= data@.skip(end as int));
                    assert(record_views(records@) =~= record_views(prior).push(record@));
                    let after = parse(rest.skip(n), reg@, (limit - records.len()) as nat).0;
                    assert(record_views(prior) + (seq![record@] + after) =~= record_views(prior).push(
                        record@,
                    ) + after);
                }
                pos = end;
            },
        }
    }
    (records, pos)
}

/// All the records of a log.
pub open spec fn records_in(data: Seq<u8>, reg: RegistryView) -> Seq<RecordView> {
    parse(data, reg, data.len()).0
}

/// The log holds whole records only.
pub open spec fn log_is_whole(data: Seq<u8>, reg: RegistryView) -> bool {
    parse(data, reg, data.len()).1 == data.len()
}

/// Every queue number in the log is below `bound`.
pub open spec fn queues_below(data: Seq<u8>, bound: nat) -> bool
    decreases data.len(),
{
    match record_len(data) {
        None => true,
        Some(n) => record_q_id(data.take(n as int)) < bound && queues_below(
            data.skip(n as int),
            bound,
        ),
    }
}

proof fn lemma_record_extends(data: Seq<u8>, more: Seq<u8>)
    requires
        record_len(data) is Some,
    ensures
        record_len(data + more) == record_len(data),
        record_len(data).unwrap() <= data.len(),
        record_len(data).unwrap() >= 1,
        (data + more).take(record_len(data).unwrap() as int) == data.take(
            record_len(data).unwrap() as int,
        ),
        (data + more).skip(record_len(data).unwrap() as int) == data.skip(
            record_len(data).unwrap() as int,
        ) + more,
{
    let all = data + more;
    let n = record_len(data).unwrap();
    if is_push_magic(data[0]) {
        assert(all.subrange(23, 27) =~= data.subrange(23, 27));
    }
    assert(all.take(n as int) =~= data.take(n as int));
    assert(all.skip(n as int) =~= data.skip(n as int) + more);
}

/// A record is all there in every part of the log that reaches beyond it.
pub proof fn lemma_record_fits(data: Seq<u8>, cut: int)
    requires
        record_len(data) is Some,
        record_len(data).unwrap() <= cut <= data.len(),
    ensures
        record_len(data.take(cut)) == record_len(data),
{
    if is_push_magic(data[0]) {
        assert(data.take(cut).subrange(23, 27) =~= data.subrange(23, 27));
    }
}

/// A limit that no log of this length can reach does not matter.
proof fn lemma_parse_limit(data: Seq<u8>, reg: RegistryView, limit: nat)
    requires
        limit >= data.len(),
    ensures
        parse(data, reg, limit) == parse(data, reg, data.len()),
        parse(data, reg, limit).1 <= data.len(),
    decreases data.len(),
{
    match record_len(data) {
        None => {},
        Some(n) => {
            let rest = data.skip(n as int);
            lemma_parse_limit(rest, reg, (limit - 1) as nat);
            lemma_parse_limit(rest, reg, (data.len() - 1) as nat);
        },
    }
}

/// Reading two logs one behind the other comes to reading each of them, if the first
/// holds whole records only.
pub proof fn law_logs_read_in_sequence(data: Seq<u8>, more: Seq<u8>, reg: RegistryView)
    requires
        log_is_whole(data, reg),
    ensures
        records_in(data + more, reg) == records_in(data, reg) + records_in(more, reg),
        log_is_whole(more, reg) ==> log_is_whole(data + more, reg),
    decreases data.len(),
{
    let all = data + more;
    match record_len(data) {
        None => {
            assert(data.len() == 0);
            assert(all =~= more);
            assert(records_in(data, reg) + records_in(more, reg) =~= records_in(more, reg));
        },
        Some(n) => {
            lemma_record_extends(data, more);
            let rest = data.skip(n as int);
            lemma_parse_limit(rest, reg, (data.len() - 1) as nat);
            lemma_parse_limit(rest + more, reg, (all.len() - 1) as nat);
            law_logs_read_in_sequence(rest, more, reg);
            assert(records_in(all, reg) =~= records_in(data, reg) + records_in(more, reg));
        },
    }
}

/// A record that is appended to a whole log is read back behind the others.
pub proof fn law_appended_record_is_read_back(data: Seq<u8>, record: Seq<u8>, reg: RegistryView)
    requires
        log_is_whole(data, reg),
        record_len(record) == Some(record.len()),
    ensures
        log_is_whole(data + record, reg),
        records_in(data + record, reg) == records_in(data, reg).push(record_of(record, reg)),
{
    let n = record.len() as int;
    assert(record.take(n) =~= record);
    assert(record.skip(n) =~= Seq::empty());
    let rest = parse(Seq::empty(), reg, (n - 1) as nat);
    assert(rest == (Seq::<RecordView>::empty(), 0nat));
    assert(records_in(record, reg) =~= seq![record_of(record, reg)]);
    law_logs_read_in_sequence(data, record, reg);
    assert(records_in(data + record, reg) =~= records_in(data, reg).push(record_of(record, reg)));
}

/// Cutting a log short loses records from its end only: what is still read is the
/// beginning of what was there.
pub proof fn law_torn_log_reads_as_prefix(data: Seq<u8>, cut: int, reg: RegistryView)
    requires
        0 <= cut <= data.len(),
    ensures
        records_in(data.take(cut), reg).is_prefix_of(records_in(data, reg)),
    decreases data.len(),
{
    let head = data.take(cut);
    assert(head + data.skip(cut) =~= data);
    match record_len(head) {
        None => {},
        Some(n) => {
            lemma_record_extends(head, data.skip(cut));
            let rest = data.skip(n as int);
            lemma_parse_limit(head.skip(n as int), reg, (head.len() - 1) as nat);
            lemma_parse_limit(rest, reg, (data.len() - 1) as nat);
            law_torn_log_reads_as_prefix(rest, cut - n, reg);
            assert(rest.take(cut - n) =~= head.skip(n as int));
            assert(head.take(n as int) =~= data.take(n as int));
        },
    }
}

/// Reading a log in pieces comes to reading it at once: what the beginning gives, up to a
/// limit, is followed by what is read from where that ended. Where the first record is all
/// there, it is among what the beginning gives.
pub proof fn law_log_reads_in_pieces(
    head: Seq<u8>,
    more: Seq<u8>,
    reg: RegistryView,
    limit: nat,
)
    ensures
        ({
            let (records, used) = parse(head, reg, limit);
            &&& used <= head.len()
            &&& records_in(head + more, reg) == records + records_in(
                (head + more).skip(used as int),
                reg,
            )
            &&& limit > 0 && record_len(head) is Some ==> records.len() > 0 && used > 0
        }),
    decreases limit,
{
    let all = head + more;
    if limit == 0 || record_len(head) is None {
        assert(all.skip(0) =~= all);
        assert(Seq::<RecordView>::empty() + records_in(all, reg) =~= records_in(all, reg));
    } else {
        let n = record_len(head).unwrap() as int;
        lemma_record_extends(head, more);
        let rest = head.skip(n);
        law_log_reads_in_pieces(rest, more, reg, (limit - 1) as nat);
        lemma_parse_limit(all.skip(n), reg, (all.len() - 1) as nat);
        let (records, used) = parse(rest, reg, (limit - 1) as nat);
        assert(all.skip(n).skip(used as int) =~= all.skip(n + used));
        let first = record_of(head.take(n), reg);
        assert(seq![first] + (records + records_in(all.skip(n + used), reg)) =~= (seq![first]
            + records) + records_in(all.skip(n + used), reg));
    }
}

/// A push record reads back as what was written, for a payload that a length of four
/// bytes can count and a time that four bytes of seconds since 2020 can hold.
pub proof fn law_push_record_round_trip(
    msg_id: u128,
    q_id: u16,
    visible_at: u64,
    payload: Seq<u8>,
    reg: RegistryView,
)
    requires
        payload.len() < 0x1_0000_0000,
        EPOCH_2020_SEC <= visible_at < EPOCH_2020_SEC + 0x1_0000_0000,
    ensures
        ({
            let data = push_bytes(msg_id, q_id, visible_at, payload);
            &&& record_len(data) == Some(data.len())
            &&& record_q_id(data) == q_id
            &&& record_of(data, reg) == (RecordView::Push {
                msg_id,
                queue_name: record_queue(reg, q_id),
                visible_at,
                payload,
            })
        }),
{
    let data = push_bytes(msg_id, q_id, visible_at, payload);
    wire::lemma_be_widths();
    wire::law_be_round_trip(msg_id as nat, 16);
    wire::law_be_round_trip(relative_sec(visible_at), 4);
    wire::law_be_round_trip(q_id as nat, 2);
    wire::law_be_round_trip(payload.len(), 4);
    assert(data[0] == PUSH_MAGIC);
    assert(data.subrange(1, 17) =~= wire::be(msg_id as nat, 16));
    assert(data.subrange(17, 19) =~= wire::be(q_id as nat, 2));
    assert(data.subrange(19, 23) =~= wire::be(relative_sec(visible_at), 4));
    assert(data.subrange(23, 27) =~= wire::be(payload.len(), 4));
    assert(data.skip(27) =~= payload);
}

/// An acknowledgement record reads back as what was written.
pub proof fn law_ack_record_round_trip(msg_id: u128, q_id: u16, reg: RegistryView)
    ensures
        ({
            let data = ack_bytes(msg_id, q_id);
            &&& record_len(data) == Some(data.len())
            &&& record_q_id(data) == q_id
            &&& record_of(data, reg) == (RecordView::Ack {
                msg_id,
                queue_name: record_queue(reg, q_id),
            })
        }),
{
    let data = ack_bytes(msg_id, q_id);
    wire::lemma_be_widths();
    wire::law_be_round_trip(msg_id as nat, 16);
    wire::law_be_round_trip(q_id as nat, 2);
    assert(data[0] == ACK_MAGIC);
    assert(data.subrange(1, 17) =~= wire::be(msg_id as nat, 16));
    assert(data.subrange(17, 19) =~= wire::be(q_id as nat, 2));
}

/// Names that are registered later do not change what the log says.
pub proof fn law_later_names_do_not_matter(data: Seq<u8>, reg: RegistryView, later: RegistryView)
    requires
        queues_below(data, reg.names.len()),
        reg.names.is_prefix_of(later.names),
    ensures
        parse(data, later, data.len()) == parse(data, reg, data.len()),
    decreases data.len(),
{
    match record_len(data) {
        None => {},
        Some(n) => {
            let rest = data.skip(n as int);
            let q_id = record_q_id(data.take(n as int));
            assert(later.names[q_id as int] == reg.names[q_id as int]);
            law_later_names_do_not_matter(rest, reg, later);
            lemma_parse_limit(rest, reg, (data.len() - 1) as nat);
            lemma_parse_limit(rest, later, (data.len() - 1) as nat);
        },
    }
}

/// Queue numbers stay below a bound when a record below it is appended.
pub proof fn lemma_queues_below_append(
    data: Seq<u8>,
    record: Seq<u8>,
    reg: RegistryView,
    old_bound: nat,
    bound: nat,
)
    requires
        log_is_whole(data, reg),
        queues_below(data, old_bound),
        old_bound <= bound,
        record_len(record) == Some(record.len()),
        record_q_id(record) < bound,
    ensures
        queues_below(data + record, bound),
    decreases data.len(),
{
    match record_len(data) {
        None => {
            assert(data + record =~= record);
            assert(record.take(record.len() as int) =~= record);
            assert(record.skip(record.len() as int) =~= Seq::empty());
            assert(queues_below(Seq::empty(), bound));
        },
        Some(n) => {
            lemma_record_extends(data, record);
            let rest = data.skip(n as int);
            lemma_parse_limit(rest, reg, (data.len() - 1) as nat);
            lemma_queues_below_append(rest, record, reg, old_bound, bound);
        },
    }
}

}
