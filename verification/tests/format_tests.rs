//! Identifiers, numbers in text, frames and the record formats on disk.
use walrq::engine::disk_log::{read_window, DiskAction, DiskLog, SegmentRead};
use walrq::engine::queue::QueueError;
use walrq::engine::registry::QueueRegistry;
use walrq::engine::single_queue::SingleQueue;
use walrq::engine::timer_wheel::{InFlightItem, TimerWheel};
use walrq::engine::wal::{encode_ack, encode_push, payload_or_stored, read_records, WalRecord};
use walrq::ids::{format_id, parse_id};
use walrq::metrics::WalrMetrics;
use walrq::protocol::{encode_frame, frame_body_len};
use walrq::text::{parse_number, text_precedes};

const T0: u64 = 1_577_836_800;

#[test]
fn ids_are_written_in_crockford_base32() {
    assert_eq!(format_id(0), "00000000000000000000000000");
    assert_eq!(format_id(31), "0000000000000000000000000Z");
    assert_eq!(format_id(u128::MAX), "7ZZZZZZZZZZZZZZZZZZZZZZZZZ");
    let text = "01ARZ3NDEKTSV4RRFFQ69G5FAV";
    assert_eq!(format_id(parse_id(text).unwrap()), text);
    assert_eq!(parse_id(text), Some(0x01563e3ab5d3d6764c61efb99302bd5b));
}

#[test]
fn ids_are_read_as_ulid_or_uuid() {
    assert_eq!(parse_id("0000000000000000000000000z"), Some(31));
    assert_eq!(parse_id("0000000000000000000000000U"), None);
    assert_eq!(parse_id(""), None);
    assert_eq!(parse_id("7"), None);
    // Bits beyond the hundred and twenty-eighth are dropped.
    assert_eq!(parse_id("ZZZZZZZZZZZZZZZZZZZZZZZZZZ"), Some(u128::MAX));
    let id = 0x550e8400_e29b_41d4_a716_446655440000u128;
    assert_eq!(parse_id("550e8400-e29b-41d4-a716-446655440000"), Some(id));
    assert_eq!(parse_id("550E8400E29B41D4A716446655440000"), Some(id));
    assert_eq!(parse_id("{550e8400-e29b-41d4-a716-446655440000}"), Some(id));
    assert_eq!(parse_id("urn:uuid:550e8400-e29b-41d4-a716-446655440000"), Some(id));
    assert_eq!(parse_id("550e8400-e29b-41d4-a716-44665544000g"), None);
    // As many bytes as a ULID has, but not as many characters.
    assert_eq!(parse_id("0000000000000000000000\u{e9}\u{e9}"), None);
}

#[test]
fn frames_carry_their_length() {
    let frame = encode_frame(b"abc");
    assert_eq!(frame, vec![0, 0, 0, 3, b'a', b'b', b'c']);
    assert_eq!(frame_body_len(&frame[..4]), 3);
    assert_eq!(frame_body_len(&[1, 2, 3, 4]), 0x01020304);
    assert_eq!(encode_frame(b""), vec![0, 0, 0, 0]);
}

#[test]
fn push_and_ack_records_have_fixed_headers() {
    let mut buf = Vec::new();
    encode_push(&mut buf, 0x0102, 3, T0 + 5, b"hi");
    let mut expected = vec![0x01u8];
    expected.extend(0x0102u128.to_be_bytes());
    expected.extend(3u16.to_be_bytes());
    expected.extend(5u32.to_be_bytes());
    expected.extend(2u32.to_be_bytes());
    expected.extend(b"hi");
    assert_eq!(buf, expected);
    assert_eq!(buf.len(), 29);

    let mut buf = Vec::new();
    encode_ack(&mut buf, 7, 9);
    let mut expected = vec![0x02u8];
    expected.extend(7u128.to_be_bytes());
    expected.extend(9u16.to_be_bytes());
    assert_eq!(buf, expected);
    assert_eq!(buf.len(), 19);
}

#[test]
fn times_are_read_back_from_2020_on() {
    let reg = QueueRegistry::open(&[]);
    let last = T0 + u32::MAX as u64;
    // A time before 2020 is kept as the start of 2020.
    for (at, read) in [(0u64, T0), (12, T0), (T0, T0), (T0 + 1, T0 + 1), (last, last)] {
        let mut buf = Vec::new();
        encode_push(&mut buf, 1, 0, at, b"");
        let (records, used) = read_records(&buf, &reg, 10);
        assert_eq!(used, buf.len());
        match &records[0] {
            WalRecord::Push { visible_at, queue_name, .. } => {
                assert_eq!(*visible_at, read);
                assert_eq!(queue_name, "default");
            }
            other => panic!("unexpected record {:?}", other),
        }
    }
}

#[test]
fn byte_that_starts_no_record_ends_the_log() {
    let reg = QueueRegistry::open(&[]);
    let mut buf = Vec::new();
    encode_ack(&mut buf, 1, 0);
    for magic in [0u8, 4, 255] {
        let mut data = buf.clone();
        data.push(magic);
        encode_ack(&mut data, 2, 0);
        let (records, used) = read_records(&data, &reg, 10);
        assert_eq!(records.len(), 1);
        assert_eq!(used, 19);
    }
}

#[test]
fn records_are_read_in_sequence_up_to_a_limit() {
    let mut reg = QueueRegistry::open(&[]);
    let (q_id, _) = reg.get_or_register("q");
    let mut buf = Vec::new();
    encode_push(&mut buf, 1, q_id, T0, b"a");
    encode_ack(&mut buf, 1, q_id);
    encode_push(&mut buf, 2, q_id, T0, b"b");
    let (records, used) = read_records(&buf, &reg, 2);
    assert_eq!(records.len(), 2);
    assert_eq!(used, 28 + 19);
    assert!(matches!(&records[1], WalRecord::Ack { msg_id: 1, queue_name } if queue_name == "q"));
    let (records, used) = read_records(&buf, &reg, 9);
    assert_eq!(records.len(), 3);
    assert_eq!(used, buf.len());
    // Every shorter log gives a prefix.
    for cut in 0..buf.len() {
        let (records, used) = read_records(&buf[..cut], &reg, 9);
        assert!(used <= cut);
        assert_eq!(records.len(), if cut >= 47 { 2 } else if cut >= 28 { 1 } else { 0 });
    }
}

fn compressed_record(stored: &[u8]) -> Vec<u8> {
    let mut buf = Vec::new();
    encode_push(&mut buf, 1, 0, T0, stored);
    buf[0] = 3;
    buf
}

#[test]
fn compressed_payload_is_unpacked_where_it_can_be() {
    let reg = QueueRegistry::open(&[]);
    let plain = vec![b'z'; 500];
    let packed = zstd::encode_all(&plain[..], 0).unwrap();
    assert!(packed.len() < 100);
    let (records, _) = read_records(&compressed_record(&packed), &reg, 1);
    match &records[0] {
        WalRecord::Push { payload, .. } => assert_eq!(*payload, plain),
        other => panic!("unexpected record {:?}", other),
    }
    let (records, _) = read_records(&compressed_record(b"not packed"), &reg, 1);
    match &records[0] {
        WalRecord::Push { payload, .. } => assert_eq!(*payload, b"not packed".to_vec()),
        other => panic!("unexpected record {:?}", other),
    }
    assert_eq!(payload_or_stored(Some(vec![1]), &[2]), vec![1]);
    assert_eq!(payload_or_stored(None, &[2]), vec![2]);
}

#[test]
fn manifest_entry_is_number_length_and_name() {
    let mut reg = QueueRegistry::open(&[]);
    let (id, entry) = reg.get_or_register("q\u{e9}");
    assert_eq!(id, 0);
    let entry = entry.unwrap();
    assert_eq!(entry, vec![0, 0, 0, 3, b'q', 0xc3, 0xa9]);
    let reread = QueueRegistry::open(&entry);
    assert_eq!(reread.get_name(0).as_deref(), Some("q\u{e9}"));
    assert_eq!(reread.get_name(1), None);
}

#[test]
fn manifest_with_gaps_and_bad_text_is_read() {
    let data = [0u8, 2, 0, 2, b'a', 0xff, 0, 0, 0, 1, b'b', 0, 1, 0, 9, b'c'];
    let mut reg = QueueRegistry::open(&data);
    assert_eq!(reg.get_name(2).as_deref(), Some("a\u{fffd}"));
    assert_eq!(reg.get_name(0).as_deref(), Some("b"));
    assert_eq!(reg.get_name(1).as_deref(), Some(""));
    assert_eq!(reg.get_or_register("d").0, 3);
    assert_eq!(reg.get_or_register("b").0, 0);
}

#[test]
fn log_gathers_appends_and_flips() {
    let (mut log, recovered) = DiskLog::open(&[], &[], &[], 10);
    assert!(recovered.is_empty());
    assert!(!log.should_compact());
    log.append_push_async(1, "q", T0, b"x");
    log.append_ack_async(1, "q");
    log.flush();
    assert!(log.should_compact());
    let actions = log.take_actions();
    assert_eq!(actions.len(), 3);
    assert!(matches!(&actions[0], DiskAction::AppendManifest { bytes } if bytes.len() == 5));
    assert!(matches!(
        &actions[1],
        DiskAction::AppendSegment { to_b: false, bytes } if bytes.len() == 28 + 19
    ));
    assert!(matches!(&actions[2], DiskAction::Flush));
    assert_eq!(log.active_bytes(), 47);

    let survivors = vec![(2u128, "q".to_string(), T0, b"yy".to_vec())];
    log.perform_flip_flop_compaction(&survivors);
    assert!(log.active_is_b());
    assert_eq!(log.active_bytes(), 29);
    let actions = log.take_actions();
    assert!(matches!(
        actions.last(),
        Some(DiskAction::TruncateSegment { is_b: false })
    ));
    assert!(actions.iter().any(
        |a| matches!(a, DiskAction::AppendSegment { to_b: true, bytes } if bytes.len() == 29)
    ));
}

#[test]
fn compacted_segment_counts_headers_and_payloads() {
    let (mut log, _) = DiskLog::open(&[], &[], &[], 28);
    log.perform_flip_flop_compaction(&vec![(1u128, "q".to_string(), T0, Vec::new())]);
    assert_eq!(log.active_bytes(), 27);
    assert!(!log.should_compact());
    log.perform_flip_flop_compaction(&vec![(1u128, "q".to_string(), T0, vec![0])]);
    assert_eq!(log.active_bytes(), 28);
    assert!(log.should_compact());
}

#[test]
fn names_get_one_number_each_however_often_they_are_asked_for() {
    let mut reg = QueueRegistry::open(&[]);
    let mut manifest = Vec::new();
    for i in 0..100_000u32 {
        let (id, entry) = reg.get_or_register(&format!("q{}", i % 3));
        assert_eq!(id as u32, i % 3);
        manifest.extend(entry.unwrap_or_default());
    }
    let reread = QueueRegistry::open(&manifest);
    assert_eq!(reread.get_name(2).as_deref(), Some("q2"));
    assert_eq!(reread.get_name(3), None);
}

#[test]
fn reads_are_cut_into_windows() {
    assert_eq!(read_window(10, 4, &[]), 6);
    assert_eq!(read_window(10, 10, &[]), 0);
    assert_eq!(read_window(10, 11, &[]), 0);
    assert_eq!(read_window(3_000_000, 5, &[]), 1_048_576);
    let mut record = Vec::new();
    encode_push(&mut record, 1, 0, T0, &vec![0; 2_000_000]);
    assert_eq!(read_window(3_000_000, 5, &record[..26]), 1_048_576);
    assert_eq!(read_window(3_000_000, 5, &record[..27]), 2_000_027);
    assert_eq!(read_window(2_000_000, 5, &record[..27]), 1_999_995);
    record[0] = 2;
    assert_eq!(read_window(3_000_000, 5, &record[..27]), 1_048_576);
}

#[test]
fn reads_of_the_log_end_or_fail_as_the_file_does() {
    let (log, _) = DiskLog::open(&[], &[], &[], 10);
    let (records, next) =
        log.read_entries_from_offset(7, 5, &SegmentRead::Missing).unwrap();
    assert!(records.is_empty());
    assert_eq!(next, 7);
    let end = SegmentRead::Data { file_len: 4, raw: Vec::new() };
    let (records, next) = log.read_entries_from_offset(7, 5, &end).unwrap();
    assert!(records.is_empty());
    assert_eq!(next, 4);
    let failed = SegmentRead::Failed { message: "disk on fire".to_string() };
    assert_eq!(log.read_entries_from_offset(7, 5, &failed).unwrap_err(), "disk on fire");
    let mut raw = Vec::new();
    encode_ack(&mut raw, 1, 0);
    raw.push(1);
    let data = SegmentRead::Data { file_len: 120, raw };
    let (records, next) = log.read_entries_from_offset(100, 5, &data).unwrap();
    assert_eq!(records.len(), 1);
    assert_eq!(next, 119);
}

#[test]
fn errors_say_what_went_wrong() {
    assert_eq!(QueueError::Io("gone".to_string()).text(), "IO error: gone");
    assert_eq!(QueueError::NotFound("q".to_string()).text(), "Queue not found: q");
    assert_eq!(
        QueueError::RamLimitExceeded(500).text(),
        "RAM limit exceeded: hot queue memory full (500 messages)"
    );
}

fn item(id: u128, receipt: &str, expire_at: u64) -> InFlightItem {
    InFlightItem { id, queue: "q".to_string(), receipt: receipt.to_string(), expire_at }
}

#[test]
fn wheel_ends_leases_once_and_in_time() {
    let mut wheel = TimerWheel::new(10);
    wheel.insert(item(1, "r1", 105));
    wheel.insert(item(2, "r2", 112));
    assert!(wheel.collect_expired(104).is_empty());
    let ended = wheel.collect_expired(106);
    assert_eq!(ended.len(), 1);
    assert_eq!(ended[0].id, 1);
    assert!(!wheel.remove_if_valid(1, "r1"));
    assert!(!wheel.remove_if_valid(2, "r1"));
    assert!(wheel.remove_if_valid(2, "r2"));
    assert!(!wheel.remove_if_valid(2, "r2"));
    assert!(wheel.collect_expired(200).is_empty());
}

#[test]
fn new_lease_voids_the_old_receipt() {
    let mut wheel = TimerWheel::new(3600);
    wheel.insert(item(1, "old", 50));
    wheel.insert(item(1, "new", 60));
    assert!(!wheel.remove_if_valid(1, "old"));
    assert!(wheel.remove_if_valid(1, "new"));
}

#[test]
fn queue_hands_out_in_order_and_skips_tombstones() {
    let mut q = SingleQueue::new(1000);
    q.insert(1, 1000, 1000);
    q.insert(2, 1005, 1000);
    q.insert(3, 1002, 1000);
    q.insert(4, 1000, 1000);
    q.insert(5, 1400, 1000);
    assert_eq!(q.ready_len(), 2);
    q.mark_deleted(4);
    q.advance_and_drain(1005);
    assert_eq!(q.pop_ready(), Some(1));
    assert_eq!(q.pop_ready(), Some(3));
    assert_eq!(q.pop_ready(), Some(2));
    assert_eq!(q.pop_ready(), None);
    // The far message waits for its very second.
    q.advance_and_drain(1399);
    assert_eq!(q.pop_ready(), None);
    q.advance_and_drain(1400);
    assert_eq!(q.pop_ready(), Some(5));
}

#[test]
fn metrics_balance_and_are_rendered() {
    let mut m = WalrMetrics::default();
    m.record_push(3);
    m.record_poll(5);
    m.record_ack(7);
    m.record_wal_compact();
    assert_eq!(m.in_flight_messages, -2);
    let text = m.render_prometheus(42, false);
    let expected = "# HELP walrq_messages_pushed_total Total messages pushed to queue\n\
         # TYPE walrq_messages_pushed_total counter\n\
         walrq_messages_pushed_total 3\n\
         # HELP walrq_messages_acked_total Total messages acknowledged\n\
         # TYPE walrq_messages_acked_total counter\n\
         walrq_messages_acked_total 7\n\
         # HELP walrq_messages_polled_total Total messages polled by consumers\n\
         # TYPE walrq_messages_polled_total counter\n\
         walrq_messages_polled_total 5\n\
         # HELP walrq_in_flight_messages Current active in-flight visibility leases\n\
         # TYPE walrq_in_flight_messages gauge\n\
         walrq_in_flight_messages -2\n\
         # HELP walrq_wal_compaction_total Total WAL flip-flop compactions executed\n\
         # TYPE walrq_wal_compaction_total counter\n\
         walrq_wal_compaction_total 1\n\
         # HELP walrq_hot_messages_in_ram Current messages residing in memory\n\
         # TYPE walrq_hot_messages_in_ram gauge\n\
         walrq_hot_messages_in_ram 42\n\
         # HELP walrq_is_leader Whether this node is the current Raft leader\n\
         # TYPE walrq_is_leader gauge\n\
         walrq_is_leader 0\n";
    assert_eq!(text, expected);
}

#[test]
fn numbers_and_texts_are_compared_as_expected() {
    assert_eq!(parse_number("007", 65535), Some(7));
    assert_eq!(parse_number("+7", 65535), Some(7));
    assert_eq!(parse_number("65536", 65535), None);
    assert_eq!(parse_number("-1", 65535), None);
    assert_eq!(parse_number("+", 65535), None);
    assert_eq!(parse_number("", 65535), None);
    assert_eq!(parse_number("18446744073709551615", u64::MAX), Some(u64::MAX));
    assert_eq!(parse_number("18446744073709551616", u64::MAX), None);
    assert!(text_precedes("a", "b"));
    assert!(text_precedes("a", "ab"));
    assert!(!text_precedes("ab", "a"));
    assert!(!text_precedes("a", "a"));
    assert!(text_precedes("Z", "a"));
}

#[test]
fn far_message_is_not_early() {
    let mut q = SingleQueue::new(0);
    q.insert(1, 359, 0);
    q.advance_and_drain(300);
    assert_eq!(q.ready_len(), 0);
    assert_eq!(q.pop_ready(), None);
    q.advance_and_drain(358);
    assert_eq!(q.pop_ready(), None);
    q.advance_and_drain(359);
    assert_eq!(q.pop_ready(), Some(1));
}

#[test]
fn bringing_a_queue_to_the_present_twice_changes_nothing() {
    let mut q = SingleQueue::new(0);
    for id in 0..20u128 {
        q.insert(id, (id as u64 % 7) * 60, 0);
    }
    q.advance_and_drain(120);
    let ready = q.ready_len();
    q.advance_and_drain(120);
    assert_eq!(q.ready_len(), ready);
    let mut found = Vec::new();
    while let Some(id) = q.pop_ready() {
        found.push(id);
    }
    assert_eq!(found.len(), ready);
    q.advance_and_drain(1000);
    while let Some(id) = q.pop_ready() {
        found.push(id);
    }
    found.sort();
    assert_eq!(found, (0..20u128).collect::<Vec<_>>());
}

#[test]
fn collection_gives_each_ended_lease_once_and_no_removed_one() {
    let mut wheel = TimerWheel::new(60);
    for id in 0..100u128 {
        wheel.insert(item(id, "r", 1000 + (id as u64 * 7) % 150));
    }
    assert!(wheel.collect_expired(999).is_empty());
    assert!(wheel.remove_if_valid(3, "r"));
    let mut ids: Vec<u128> = wheel.collect_expired(1100).iter().map(|i| i.id).collect();
    ids.sort();
    let expected: Vec<u128> =
        (0..100u128).filter(|id| *id != 3 && 1000 + (*id as u64 * 7) % 150 <= 1100).collect();
    assert_eq!(ids, expected);
    assert!(wheel.collect_expired(1100).is_empty());
    assert!(wheel.is_running(20, 1139));
    assert!(!wheel.is_running(20, 1140));
    assert!(!wheel.is_running(3, 0));
}

#[test]
fn appended_records_are_read_back_in_order() {
    let (mut log, recovered) = DiskLog::open(&[], &[], &[], 1000);
    assert!(recovered.is_empty());
    log.append_push_durable(1, "a", T0, b"one");
    log.append_push_durable(2, "b", T0 + 400, b"");
    log.append_ack_durable(1, "a");
    log.append_push_durable(1, "a", T0, b"again");
    let (mut manifest, mut segment) = (Vec::new(), Vec::new());
    for action in log.take_actions() {
        match action {
            DiskAction::AppendManifest { bytes } => manifest.extend(bytes),
            DiskAction::AppendSegment { to_b: false, bytes } => segment.extend(bytes),
            DiskAction::Flush => {}
            other => panic!("unexpected action {:?}", other),
        }
    }
    let (_, recovered) = DiskLog::open(&manifest, &segment, &[], 1000);
    let text = format!("{:?}", recovered);
    let expected = vec![
        WalRecord::Push { msg_id: 1, queue_name: "a".to_string(), visible_at: T0, payload: b"one".to_vec() },
        WalRecord::Push { msg_id: 2, queue_name: "b".to_string(), visible_at: T0 + 400, payload: Vec::new() },
        WalRecord::Ack { msg_id: 1, queue_name: "a".to_string() },
        WalRecord::Push { msg_id: 1, queue_name: "a".to_string(), visible_at: T0, payload: b"again".to_vec() },
    ];
    assert_eq!(text, format!("{:?}", expected));
}

#[test]
fn metrics_come_in_groups_of_three_lines() {
    let text = WalrMetrics::default().render_prometheus(0, true);
    let lines: Vec<&str> = text.lines().collect();
    assert_eq!(lines.len(), 21);
    assert!(text.ends_with('\n'));
    for group in lines.chunks(3) {
        let name = group[2].split(' ').next().unwrap();
        assert!(group[0].starts_with(&format!("# HELP {} ", name)));
        assert!(group[1].starts_with(&format!("# TYPE {} ", name)));
    }
}
