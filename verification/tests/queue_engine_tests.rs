//! The queue engine over files held in memory, with a clock that the tests move.
use std::collections::{HashMap, HashSet};
use std::time::{Duration, Instant};

use walrq::engine::disk_log::{read_window, DiskAction, QueueRegistry, SegmentRead};
use walrq::engine::queue::{PolledMessage, PushItem, QueueEngine, QueueOptions};
use walrq::engine::single_queue::SingleQueue;
use walrq::ids::parse_id;

const START: u64 = 1_750_000_000;

#[derive(Default, Clone)]
struct Files {
    manifest: Vec<u8>,
    wal_a: Vec<u8>,
    wal_b: Vec<u8>,
}

impl Files {
    fn perform(&mut self, actions: Vec<DiskAction>) {
        for action in actions {
            match action {
                DiskAction::AppendManifest { bytes } => self.manifest.extend(bytes),
                DiskAction::AppendSegment { to_b, bytes } => {
                    if to_b {
                        self.wal_b.extend(bytes);
                    } else {
                        self.wal_a.extend(bytes);
                    }
                }
                DiskAction::Flush => {}
                DiskAction::TruncateSegment { is_b } => {
                    if is_b {
                        self.wal_b.clear();
                    } else {
                        self.wal_a.clear();
                    }
                }
            }
        }
    }

    fn read(&self, is_b: bool, offset: u64) -> SegmentRead {
        let data = if is_b { &self.wal_b } else { &self.wal_a };
        let file_len = data.len() as u64;
        let head = data.get(offset as usize..).unwrap_or(&[]);
        let len = read_window(file_len, offset, head) as usize;
        let raw = if len == 0 {
            Vec::new()
        } else {
            data[offset as usize..offset as usize + len].to_vec()
        };
        SegmentRead::Data { file_len, raw }
    }

    fn segment(&self, is_b: bool) -> Vec<u8> {
        if is_b {
            self.wal_b.clone()
        } else {
            self.wal_a.clone()
        }
    }

    fn wal_size(&self) -> usize {
        self.wal_a.len() + self.wal_b.len()
    }
}

struct Host {
    engine: QueueEngine,
    files: Files,
    now: u64,
}

impl Host {
    fn open(files: Files, opts: QueueOptions, now: u64) -> Host {
        let engine = QueueEngine::open(&files.manifest, &files.wal_a, &files.wal_b, opts, now)
            .unwrap();
        Host { engine, files, now }
    }

    fn fresh(opts: QueueOptions) -> Host {
        Host::open(Files::default(), opts, START)
    }

    /// Lets go of the engine, as a crash would, and keeps the files.
    fn crash(self) -> Files {
        self.files
    }

    fn settle(&mut self) {
        let actions = self.engine.take_actions();
        self.files.perform(actions);
    }

    /// Compacts the log where that is due, as it may be after a push or an acknowledgement.
    fn compact(&mut self) {
        self.settle();
        if self.engine.compaction_due() {
            let segment = self.files.segment(self.engine.disk.active_is_b());
            self.engine.check_and_trigger_compaction(&segment);
            self.settle();
        }
    }

    fn advance(&mut self, secs: u64) {
        self.now += secs;
    }

    fn push(&mut self, queue: &str, payload: &[u8], delay: u64) -> String {
        let id = self.engine.push(queue, payload.to_vec(), delay, self.now).unwrap();
        self.compact();
        id
    }

    fn poll(&mut self, queue: &str, visibility: u32, max: u32) -> Vec<PolledMessage> {
        if let Some(mut scan) = self.engine.begin_poll(queue, max, self.now) {
            self.settle();
            loop {
                let read = self
                    .files
                    .read(self.engine.disk.active_is_b(), self.engine.spill_read_offset());
                let again = self.engine.page_in_cold_spill(&mut scan, &read);
                self.settle();
                if !again {
                    break;
                }
            }
        }
        let polled = self.engine.poll(queue, visibility, max, self.now).unwrap();
        self.settle();
        polled
    }

    fn ack(&mut self, queue: &str, id: &str, receipt: &str) -> bool {
        let ok = self.engine.ack(queue, id, receipt, self.now).unwrap();
        self.compact();
        ok
    }

    fn force_compaction(&mut self) {
        let segment = self.files.segment(self.engine.disk.active_is_b());
        self.engine.force_compaction(&segment);
        self.engine.flush_wal();
        self.settle();
    }
}

#[test]
fn test_push_poll_ack_happy_path() {
    let mut host = Host::fresh(QueueOptions::default());
    let msg_id = host.push("orders", b"order-101", 0);

    let polled = host.poll("orders", 300, 1);
    assert_eq!(polled.len(), 1);
    let msg = &polled[0];
    assert_eq!(msg.message_id, msg_id);
    assert_eq!(msg.payload, b"order-101".to_vec());
    assert_eq!(msg.delivery_count, 1);

    let empty_poll = host.poll("orders", 300, 1);
    assert_eq!(empty_poll.len(), 0);

    let acked = host.ack("orders", &msg.message_id, &msg.receipt_handle);
    assert!(acked);

    let after_ack = host.poll("orders", 300, 1);
    assert_eq!(after_ack.len(), 0);
}

#[test]
fn test_future_delayed_visibility_up_to_month() {
    let mut host = Host::fresh(QueueOptions::default());
    let delay_30_days = 30 * 24 * 3600;
    let msg_id = host.push("billing", b"invoice-delayed", delay_30_days);

    assert_eq!(host.poll("billing", 300, 1).len(), 0);

    host.advance(29 * 24 * 3600);
    assert_eq!(host.poll("billing", 300, 1).len(), 0);

    host.advance(24 * 3600 + 1);
    let polled = host.poll("billing", 300, 1);
    assert_eq!(polled.len(), 1);
    assert_eq!(polled[0].message_id, msg_id);
}

#[test]
fn test_visibility_timeout_requeue_on_no_ack() {
    let mut host = Host::fresh(QueueOptions::default());
    host.push("tasks", b"task-payload", 0);

    let polled = host.poll("tasks", 60, 1);
    assert_eq!(polled.len(), 1);
    assert_eq!(polled[0].delivery_count, 1);

    host.advance(30);
    assert_eq!(host.poll("tasks", 60, 1).len(), 0);

    host.advance(31);
    let retried = host.poll("tasks", 60, 1);
    assert_eq!(retried.len(), 1);
    assert_eq!(retried[0].delivery_count, 2);
}

#[test]
fn test_dlq_movement_after_max_delivery() {
    let mut opts = QueueOptions::default();
    opts.max_delivery_count = 2;
    let mut host = Host::fresh(opts);
    host.push("critical", b"doomed-task", 0);

    let p1 = host.poll("critical", 10, 1);
    assert_eq!(p1.len(), 1);
    assert_eq!(p1[0].delivery_count, 1);
    host.advance(11);

    let p2 = host.poll("critical", 10, 1);
    assert_eq!(p2.len(), 1);
    assert_eq!(p2[0].delivery_count, 2);
    host.advance(11);

    let p3 = host.poll("critical", 10, 1);
    assert_eq!(p3.len(), 0, "Normal queue must be empty");

    let dlq_poll = host.poll("critical.dlq", 10, 1);
    assert_eq!(dlq_poll.len(), 1, "Message must appear in DLQ");
    assert_eq!(dlq_poll[0].payload, b"doomed-task".to_vec());
}

#[test]
fn test_concurrent_pollers_exact_one_delivery() {
    let mut host = Host::fresh(QueueOptions::default());
    for i in 0..100 {
        host.push("jobs", format!("job-{}", i).as_bytes(), 0);
    }

    // 20 pollers take turns, 20 rounds each.
    let mut claimed: Vec<Vec<String>> = vec![Vec::new(); 20];
    for _ in 0..20 {
        for poller in claimed.iter_mut() {
            for m in host.poll("jobs", 60, 5) {
                poller.push(m.message_id);
            }
        }
    }

    let mut all_claimed: Vec<String> = Vec::new();
    for msgs in claimed {
        all_claimed.extend(msgs);
    }
    assert_eq!(all_claimed.len(), 100);
    let mut dedupped = all_claimed.clone();
    dedupped.sort();
    dedupped.dedup();
    assert_eq!(dedupped.len(), 100, "Every message claimed exactly once");
}

#[test]
fn test_crash_recovery_from_disk() {
    let mut host = Host::fresh(QueueOptions::default());
    let id1 = host.push("persist", b"msg-1", 0);
    host.push("persist", b"msg-2", 0);
    host.push("persist", b"msg-3", 0);
    let p = host.poll("persist", 300, 10);
    let msg1 = p.iter().find(|m| m.message_id == id1).unwrap();
    host.ack("persist", &msg1.message_id, &msg1.receipt_handle);
    let files = host.crash();

    let mut host = Host::open(files, QueueOptions::default(), START + 1);
    let p = host.poll("persist", 300, 10);
    assert_eq!(p.len(), 2, "Acked message should stay deleted, 2 unacked must recover");
    let payloads: Vec<Vec<u8>> = p.into_iter().map(|m| m.payload).collect();
    assert!(payloads.contains(&b"msg-2".to_vec()));
    assert!(payloads.contains(&b"msg-3".to_vec()));
}

#[test]
fn test_edge_case_zero_byte_payload() {
    let mut host = Host::fresh(QueueOptions::default());
    let id = host.push("empty-q", b"", 0);
    let polled = host.poll("empty-q", 60, 1);
    assert_eq!(polled.len(), 1);
    assert_eq!(polled[0].message_id, id);
    assert_eq!(polled[0].payload.len(), 0);

    let acked = host.ack("empty-q", &id, &polled[0].receipt_handle);
    assert!(acked);
}

#[test]
fn test_edge_case_large_payload_10mb() {
    let mut host = Host::fresh(QueueOptions::default());
    let large_data = vec![0xAB; 10 * 1024 * 1024];
    let id = host.push("large-q", &large_data, 0);

    let polled = host.poll("large-q", 60, 1);
    assert_eq!(polled.len(), 1);
    assert_eq!(polled[0].message_id, id);
    assert_eq!(polled[0].payload.len(), 10 * 1024 * 1024);
    assert_eq!(polled[0].payload[..4], [0xAB, 0xAB, 0xAB, 0xAB]);
}

#[test]
fn test_edge_case_duplicate_ack_idempotency() {
    let mut host = Host::fresh(QueueOptions::default());
    let id = host.push("ack-q", b"data", 0);
    let polled = host.poll("ack-q", 60, 1);
    let receipt = &polled[0].receipt_handle;

    assert!(host.ack("ack-q", &id, receipt));
    assert!(!host.ack("ack-q", &id, receipt));
}

#[test]
fn test_edge_case_stale_receipt_handle_rejected_after_timeout() {
    let mut host = Host::fresh(QueueOptions::default());
    let id = host.push("stale-q", b"data", 0);

    let p1 = host.poll("stale-q", 10, 1);
    let stale_receipt = p1[0].receipt_handle.clone();

    host.advance(12);

    let p2 = host.poll("stale-q", 10, 1);
    assert_eq!(p2[0].message_id, id);
    let fresh_receipt = p2[0].receipt_handle.clone();
    assert_ne!(stale_receipt, fresh_receipt);

    assert!(!host.ack("stale-q", &id, &stale_receipt));
    assert!(host.ack("stale-q", &id, &fresh_receipt));
}

#[test]
fn test_edge_case_high_load_churn_1000_msgs() {
    let mut host = Host::fresh(QueueOptions::default());
    for i in 0..1000 {
        host.push("churn-q", format!("msg-{}", i).as_bytes(), 0);
    }

    // 10 workers take turns, 100 rounds each.
    let mut total_acked = 0;
    for _ in 0..100 {
        for _ in 0..10 {
            for m in host.poll("churn-q", 30, 20) {
                if host.ack("churn-q", &m.message_id, &m.receipt_handle) {
                    total_acked += 1;
                }
            }
        }
    }

    assert_eq!(total_acked, 1000, "All 1000 messages processed and acked exactly once");
    assert_eq!(host.poll("churn-q", 30, 10).len(), 0);
}

#[test]
fn test_ram_ceiling_and_hot_horizon_window() {
    let mut opts = QueueOptions::default();
    opts.max_hot_messages_in_ram = 500;
    let mut host = Host::fresh(opts);

    for i in 0..500 {
        let payload = format!("m-{}", i).into_bytes();
        let res = host.engine.push("limit-q", payload, 0, host.now);
        assert!(res.is_ok());
        host.settle();
    }

    let overflow_res = host.engine.push("limit-q", b"overflow".to_vec(), 0, host.now);
    assert!(overflow_res.is_ok(), "Message beyond RAM cap must safely spill to disk");
    host.settle();
    assert!(host.engine.total_messages_in_ram() <= 500);

    let polled = host.poll("limit-q", 30, 100);
    assert_eq!(polled.len(), 100);
    for m in polled {
        assert!(host.ack("limit-q", &m.message_id, &m.receipt_handle));
    }

    let new_push = host.engine.push("limit-q", b"recovered".to_vec(), 0, host.now);
    assert!(new_push.is_ok());
}

#[test]
fn test_60_second_horizon_promotion() {
    let mut host = Host::fresh(QueueOptions::default());
    let far_id = host.push("horizon-q", b"far-future", 120);
    let hot_id = host.push("horizon-q", b"hot-window", 30);

    assert_eq!(host.poll("horizon-q", 30, 10).len(), 0);

    host.advance(31);
    let p_hot = host.poll("horizon-q", 30, 10);
    assert_eq!(p_hot.len(), 1);
    assert_eq!(p_hot[0].message_id, hot_id);
    assert!(host.ack("horizon-q", &p_hot[0].message_id, &p_hot[0].receipt_handle));

    host.advance(20);
    assert_eq!(host.poll("horizon-q", 30, 10).len(), 0);

    host.advance(70);
    let p_far = host.poll("horizon-q", 30, 10);
    assert_eq!(p_far.len(), 1);
    assert_eq!(p_far[0].message_id, far_id);
}

#[test]
fn test_sliding_window_crash_replay_with_zero_loss() {
    let mut opts = QueueOptions::default();
    opts.max_hot_messages_in_ram = 1_000;
    opts.max_wal_segment_size = 50 * 1024;
    let mut pushed_ids = HashSet::new();

    let mut host = Host::fresh(opts);
    for i in 0..300 {
        let delay = if i < 100 { 0 } else { 1 };
        let id = host.push("sliding-chaos-q", format!("m-{}", i).as_bytes(), delay);
        pushed_ids.insert(id);
    }
    let polled = host.poll("sliding-chaos-q", 30, 50);
    assert_eq!(polled.len(), 50);
    for m in polled {
        host.ack("sliding-chaos-q", &m.message_id, &m.receipt_handle);
        pushed_ids.remove(&m.message_id);
    }
    let files = host.crash();

    let mut host = Host::open(files, opts, START + 2);
    let mut recovered_ids = HashSet::new();
    host.advance(1);
    loop {
        let batch = host.poll("sliding-chaos-q", 30, 100);
        if batch.is_empty() {
            break;
        }
        for m in batch {
            let ok = host.ack("sliding-chaos-q", &m.message_id, &m.receipt_handle);
            assert!(ok);
            recovered_ids.insert(m.message_id);
        }
    }

    assert_eq!(
        recovered_ids.len(),
        250,
        "All remaining 250 messages recovered through sliding window with ZERO loss"
    );
    for id in &pushed_ids {
        assert!(recovered_ids.contains(id));
    }
}

#[test]
fn test_soak_and_stress() {
    let mut host = Host::fresh(QueueOptions::default());
    let mut total_pushed = 0u64;
    let mut total_acked = 0u64;
    let mut seqs = vec![0u64; 4];
    let mut turns = vec![0usize; 8];

    // 4 producers and 8 consumers take turns for three seconds.
    let start = Instant::now();
    while start.elapsed() < Duration::from_secs(3) {
        for (p_id, seq) in seqs.iter_mut().enumerate() {
            if total_pushed.saturating_sub(total_acked) > 20_000 {
                continue;
            }
            let payload = format!("prod-{}-msg-{}", p_id, seq);
            let q_name = format!("soak-q-{}", *seq % 8);
            host.push(&q_name, payload.as_bytes(), 0);
            total_pushed += 1;
            *seq += 1;
        }
        for q_idx in turns.iter_mut() {
            let q_name = format!("soak-q-{}", *q_idx % 8);
            *q_idx += 1;
            for m in host.poll(&q_name, 60, 20) {
                if host.ack(&q_name, &m.message_id, &m.receipt_handle) {
                    total_acked += 1;
                }
            }
        }
    }

    // What is left is drained.
    loop {
        let mut drained_any = false;
        for q_idx in 0..8 {
            let q_name = format!("soak-q-{}", q_idx);
            loop {
                let msgs = host.poll(&q_name, 60, 500);
                if msgs.is_empty() {
                    break;
                }
                for m in msgs {
                    if host.ack(&q_name, &m.message_id, &m.receipt_handle) {
                        total_acked += 1;
                        drained_any = true;
                    }
                }
            }
        }
        if !drained_any {
            break;
        }
    }
    println!(
        ">>> soak finished: pushed={}, acked={}, in_ram={}",
        total_pushed,
        total_acked,
        host.engine.total_messages_in_ram()
    );
    assert_eq!(total_pushed, total_acked, "Zero message loss under continuous churn");
}

#[test]
fn test_wal_flip_flop_compaction_and_disk_reclamation() {
    let mut opts = QueueOptions::default();
    opts.max_wal_segment_size = 5 * 1024;
    let mut host = Host::fresh(opts);

    let payload = vec![b'X'; 256];
    for i in 0..500 {
        let q_name = format!("compact-q-{}", i % 4);
        host.push(&q_name, &payload, 0);
    }

    let mut acked_count = 0;
    for q_idx in 0..4 {
        let q_name = format!("compact-q-{}", q_idx);
        for m in host.poll(&q_name, 30, 150) {
            if acked_count < 480 {
                let ok = host.ack(&q_name, &m.message_id, &m.receipt_handle);
                assert!(ok);
                acked_count += 1;
            }
        }
    }

    host.force_compaction();
    let total_wal_size = host.files.wal_size();
    assert!(total_wal_size < 15 * 1024, "Total WAL size must be strictly bounded under 15KB!");

    let files = host.crash();
    let mut recovered = Host::open(files, opts, START);
    let mut recovered_polled = 0;
    for q_idx in 0..4 {
        let q_name = format!("compact-q-{}", q_idx);
        recovered_polled += recovered.poll(&q_name, 30, 100).len();
    }
    assert_eq!(recovered_polled, 20, "Exact 20 unacked messages must be recovered on boot!");
}

#[test]
fn test_random_out_of_order_ack_holes_cleaned_and_disk_reclaimed() {
    let mut opts = QueueOptions::default();
    opts.max_wal_segment_size = 10 * 1024;
    let mut host = Host::fresh(opts);

    let payload = vec![b'A'; 256];
    let mut pushed_ids = Vec::new();
    for i in 0..1000 {
        let q_name = format!("hole-q-{}", i % 4);
        let id = host.push(&q_name, &payload, 0);
        pushed_ids.push((q_name, id));
    }

    let mut acked_ids = HashSet::new();
    let mut surviving_ids = HashSet::new();
    let mut ack_map = HashMap::new();
    for (idx, (q_name, msg_id)) in pushed_ids.iter().enumerate() {
        if idx % 20 != 0 {
            ack_map.insert(msg_id.clone(), q_name.clone());
        } else {
            surviving_ids.insert(msg_id.clone());
        }
    }
    for q_idx in 0..4 {
        let q_name = format!("hole-q-{}", q_idx);
        for m in host.poll(&q_name, 30, 300) {
            if ack_map.contains_key(&m.message_id) {
                let ok = host.ack(&q_name, &m.message_id, &m.receipt_handle);
                assert!(ok);
                acked_ids.insert(m.message_id);
            }
        }
    }

    host.force_compaction();
    let total_wal_size = host.files.wal_size();
    assert!(
        total_wal_size < 15 * 1024,
        "Total WAL size must be < 15KB after hole cleanup! Got {} bytes",
        total_wal_size
    );

    let files = host.crash();
    let mut recovered = Host::open(files, opts, START);
    let mut recovered_polled_ids = HashSet::new();
    for q_idx in 0..4 {
        let q_name = format!("hole-q-{}", q_idx);
        for m in recovered.poll(&q_name, 30, 100) {
            recovered_polled_ids.insert(m.message_id);
        }
    }
    for id in &surviving_ids {
        assert!(
            recovered_polled_ids.contains(id),
            "Surviving message {} must exist after compaction",
            id
        );
    }
    for id in &acked_ids {
        assert!(
            !recovered_polled_ids.contains(id),
            "Acked hole message {} must NEVER be resurrected",
            id
        );
    }
}

#[test]
fn test_queue_registry_encoding_and_persistence() {
    let mut manifest: Vec<u8> = Vec::new();
    {
        let mut reg = QueueRegistry::open(&manifest);
        let (id0, entry0) = reg.get_or_register("orders-queue");
        let (id1, entry1) = reg.get_or_register("payments-queue");
        let (id0_again, again) = reg.get_or_register("orders-queue");
        assert_eq!(id0, 0);
        assert_eq!(id1, 1);
        assert_eq!(id0_again, 0);
        assert_eq!(reg.get_name(0).as_deref(), Some("orders-queue"));
        assert_eq!(reg.get_name(1).as_deref(), Some("payments-queue"));
        assert!(again.is_none());
        manifest.extend(entry0.unwrap());
        manifest.extend(entry1.unwrap());
    }
    {
        let mut reg = QueueRegistry::open(&manifest);
        assert_eq!(reg.get_name(0).as_deref(), Some("orders-queue"));
        assert_eq!(reg.get_name(1).as_deref(), Some("payments-queue"));
        let (id2, _) = reg.get_or_register("notifications-queue");
        assert_eq!(id2, 2);
    }
}

#[test]
fn test_arbitrary_swiss_cheese_wal_hole_reclamation() {
    let mut opts = QueueOptions::default();
    opts.max_wal_segment_size = 8 * 1024;
    let mut host = Host::fresh(opts);

    let payload = vec![b'Z'; 200];
    let mut all_pushed = Vec::new();
    for i in 0..600 {
        let q_name = format!("swiss-q-{}", i % 3);
        let id = host.push(&q_name, &payload, 0);
        all_pushed.push((q_name, id));
    }

    let mut acked_ids = HashSet::new();
    let mut surviving_ids = HashSet::new();
    let mut to_ack_map = HashMap::new();
    for (i, (q_name, id)) in all_pushed.iter().enumerate() {
        if i % 12 != 0 {
            to_ack_map.insert(id.clone(), q_name.clone());
        } else {
            surviving_ids.insert(id.clone());
        }
    }
    for q_idx in 0..3 {
        let q_name = format!("swiss-q-{}", q_idx);
        for m in host.poll(&q_name, 30, 250) {
            if to_ack_map.contains_key(&m.message_id) {
                let ok = host.ack(&q_name, &m.message_id, &m.receipt_handle);
                assert!(ok);
                acked_ids.insert(m.message_id);
            }
        }
    }

    host.force_compaction();
    let total_size = host.files.wal_size();
    assert!(total_size < 12 * 1024, "Compacted size must be < 12KB, got {}", total_size);

    let files = host.crash();
    let mut recovered = Host::open(files, opts, START);
    let mut recovered_ids = HashSet::new();
    for q_idx in 0..3 {
        let q_name = format!("swiss-q-{}", q_idx);
        for m in recovered.poll(&q_name, 30, 100) {
            recovered_ids.insert(m.message_id);
        }
    }
    assert_eq!(recovered_ids.len(), surviving_ids.len());
    for s_id in &surviving_ids {
        assert!(recovered_ids.contains(s_id));
    }
    for a_id in &acked_ids {
        assert!(!recovered_ids.contains(a_id));
    }
}

#[test]
fn batch_passes_over_ids_that_were_seen() {
    let mut host = Host::fresh(QueueOptions::default());
    let items = vec![
        PushItem { id: Some(7), payload: b"first".to_vec(), delay_seconds: 0 },
        PushItem { id: Some(7), payload: b"second".to_vec(), delay_seconds: 0 },
        PushItem { id: None, payload: b"third".to_vec(), delay_seconds: 0 },
    ];
    let ids = host.engine.push_batch("q", items, host.now).unwrap();
    host.settle();
    assert_eq!(ids.len(), 3);
    assert_eq!(ids[0], "00000000000000000000000007");
    assert_eq!(ids[1], ids[0]);
    assert_eq!(host.engine.total_messages_in_ram(), 2);

    let polled = host.poll("q", 30, 10);
    assert_eq!(polled.len(), 2);
    assert_eq!(polled[0].payload, b"first".to_vec());
    assert_eq!(polled[1].payload, b"third".to_vec());
}

#[test]
fn second_push_of_an_id_is_only_logged() {
    let mut host = Host::fresh(QueueOptions::default());
    host.engine.push_with_id("q", 9, b"one".to_vec(), 0, host.now).unwrap();
    host.settle();
    assert_eq!(host.files.wal_a.len(), 30);
    host.engine.push_with_id("q", 9, b"two".to_vec(), 0, host.now).unwrap();
    host.settle();
    assert_eq!(host.files.wal_a.len(), 60);
    let polled = host.poll("q", 30, 10);
    assert_eq!(polled.len(), 1);
    assert_eq!(polled[0].payload, b"one".to_vec());
}

#[test]
fn reading_of_the_log_starts_where_it_is_told() {
    let mut host = Host::fresh(QueueOptions::default());
    assert_eq!(host.engine.spill_read_offset(), 0);
    host.engine.set_initial_spill_offset(77);
    assert_eq!(host.engine.spill_read_offset(), 77);
}

#[test]
fn spilled_messages_are_paged_in_in_order() {
    let mut opts = QueueOptions::default();
    opts.max_hot_messages_in_ram = 2;
    let mut host = Host::fresh(opts);
    for i in 0..5 {
        host.push("q", format!("m{}", i).as_bytes(), 0);
    }
    assert_eq!(host.engine.total_messages_in_ram(), 2);
    let mut payloads: Vec<Vec<u8>> = Vec::new();
    loop {
        let polled = host.poll("q", 30, 10);
        assert!(host.engine.total_messages_in_ram() <= 2);
        if polled.is_empty() {
            break;
        }
        for m in polled {
            assert!(host.ack("q", &m.message_id, &m.receipt_handle));
            payloads.push(m.payload);
        }
    }
    let expected: Vec<Vec<u8>> = (0..5).map(|i| format!("m{}", i).into_bytes()).collect();
    assert_eq!(payloads, expected);
}

#[test]
fn far_message_takes_no_memory_until_the_horizon_reaches_it() {
    let mut host = Host::fresh(QueueOptions::default());
    let id = host.push("q", b"later", 301);
    assert_eq!(host.engine.total_messages_in_ram(), 0);
    assert_eq!(host.poll("q", 30, 1).len(), 0);
    assert_eq!(host.engine.total_messages_in_ram(), 0);
    host.advance(1);
    assert_eq!(host.poll("q", 30, 1).len(), 0);
    assert_eq!(host.engine.total_messages_in_ram(), 1);
    host.advance(299);
    assert_eq!(host.poll("q", 30, 1).len(), 0);
    host.advance(1);
    let polled = host.poll("q", 30, 1);
    assert_eq!(polled.len(), 1);
    assert_eq!(polled[0].message_id, id);
}

#[test]
fn acked_message_does_not_come_back_after_compaction_and_restart() {
    let mut host = Host::fresh(QueueOptions::default());
    let gone = host.push("q", b"gone", 0);
    let kept = host.push("q", b"kept", 0);
    let polled = host.poll("q", 30, 1);
    assert_eq!(polled[0].message_id, gone);
    assert!(host.ack("q", &gone, &polled[0].receipt_handle));
    host.force_compaction();
    assert!(host.engine.disk.active_is_b());
    assert_eq!(host.files.wal_a.len(), 0);
    assert_eq!(host.files.wal_b.len(), 31);

    let mut host = Host::open(host.crash(), QueueOptions::default(), START + 5);
    assert!(host.engine.disk.active_is_b());
    let polled = host.poll("q", 30, 10);
    assert_eq!(polled.len(), 1);
    assert_eq!(polled[0].message_id, kept);
    host.engine.push_with_ulid("q", 1, b"x".to_vec(), 0, host.now).unwrap();
    assert_eq!(host.engine.total_messages_in_ram(), 2);
}

#[test]
fn segment_is_compacted_once_it_is_full() {
    let mut opts = QueueOptions::default();
    opts.max_wal_segment_size = 100;
    let mut host = Host::fresh(opts);
    for i in 0..3 {
        host.push("q", format!("m{}", i).as_bytes(), 0);
    }
    assert_eq!(host.files.wal_a.len(), 3 * 29);
    assert!(!host.engine.disk.should_compact());
    host.push("q", b"m3", 0);
    assert_eq!(host.files.wal_a.len(), 0);
    assert_eq!(host.files.wal_b.len(), 4 * 29);
    assert_eq!(host.engine.spill_read_offset(), 0);
    assert_eq!(host.engine.disk.active_bytes(), 4 * 29);
    // What is still in use reaches the limit alone, so every push compacts again.
    assert!(host.engine.compaction_due());
    host.push("q", b"m4", 0);
    assert_eq!(host.files.wal_b.len(), 0);
    assert_eq!(host.files.wal_a.len(), 5 * 29);
    let polled = host.poll("q", 30, 10);
    assert_eq!(polled.len(), 5);
    for m in &polled[..4] {
        assert!(host.ack("q", &m.message_id, &m.receipt_handle));
    }
    assert!(!host.engine.compaction_due());
    assert_eq!(host.files.wal_size() as u64, host.engine.disk.active_bytes());
    assert!(host.files.wal_size() < 100);
}

#[test]
fn far_messages_do_not_fill_memory_after_a_restart() {
    let mut opts = QueueOptions::default();
    opts.max_hot_messages_in_ram = 1;
    let mut host = Host::fresh(opts.clone());
    host.push("q", b"far", 30 * 24 * 3600);
    host.push("q", b"due", 0);
    let mut host = Host::open(host.crash(), opts, START + 1);
    assert_eq!(host.engine.total_messages_in_ram(), 1);
    let polled = host.poll("q", 30, 10);
    assert_eq!(polled.len(), 1);
    assert_eq!(polled[0].payload, b"due".to_vec());
    assert!(host.ack("q", &polled[0].message_id, &polled[0].receipt_handle));
    host.advance(30 * 24 * 3600);
    // The scan gets to the end of the log first, and starts over with the next poll.
    assert!(host.poll("q", 30, 10).is_empty());
    assert_eq!(host.poll("q", 30, 10)[0].payload, b"far".to_vec());
}

#[test]
fn batch_counts_only_messages_that_it_removes() {
    let mut host = Host::fresh(QueueOptions::default());
    let one = host.push("q", b"1", 0);
    host.push("q", b"2", 0);
    let polled = host.poll("q", 30, 10);
    assert!(host.engine.ack_follower("q", &one).unwrap());
    let items: Vec<(String, String)> = polled
        .iter()
        .chain(&polled)
        .map(|m| (m.message_id.clone(), m.receipt_handle.clone()))
        .collect();
    assert_eq!(host.engine.total_messages_in_ram(), 1);
    assert_eq!(host.engine.ack_batch("q", &items, host.now).unwrap(), 1);
    assert_eq!(host.engine.total_messages_in_ram(), 0);
}

#[test]
fn acked_messages_stay_away_when_memory_is_cleared() {
    let mut host = Host::fresh(QueueOptions::default());
    let mut ids = Vec::new();
    for i in 0..1100 {
        ids.push(host.push("q", format!("m{}", i).as_bytes(), 0));
    }
    for id in &ids[..30] {
        assert!(host.engine.ack_follower("q", id).unwrap());
        host.settle();
    }
    host.engine.clear_for_raft_recovery();
    assert_eq!(host.engine.total_messages_in_ram(), 0);
    let mut seen: Vec<String> = Vec::new();
    loop {
        let polled = host.poll("q", 300, 2000);
        if polled.is_empty() {
            break;
        }
        seen.extend(polled.into_iter().map(|m| m.message_id));
    }
    assert_eq!(seen, ids[30..].to_vec());
}

#[test]
fn due_ids_join_the_ready_ones_at_their_end() {
    let mut q = SingleQueue::new(1000);
    q.insert(1, 1000, 1000);
    q.insert(2, 1010, 1000);
    q.insert(3, 1005, 1000);
    q.insert(4, 1005, 1000);
    q.mark_deleted(4);
    q.insert(5, 1011, 1000);
    q.advance_and_drain(1010);
    assert_eq!(q.ready_len(), 3);
    q.advance_and_drain(1010);
    for id in [1, 3, 2] {
        assert_eq!(q.pop_ready(), Some(id));
    }
    assert_eq!(q.pop_ready(), None);
    q.advance_and_drain(1011);
    assert_eq!(q.pop_ready(), Some(5));
}

#[test]
fn first_push_on_disk_is_the_one_that_is_delivered() {
    let mut opts = QueueOptions::default();
    opts.max_hot_messages_in_ram = 1;
    let mut host = Host::fresh(opts);
    host.push("q", b"blocks", 0);
    host.engine.push_with_id("q", 9, b"first".to_vec(), 0, host.now).unwrap();
    host.engine.push_with_id("q", 9, b"second".to_vec(), 0, host.now).unwrap();
    host.settle();
    let polled = host.poll("q", 30, 10);
    assert!(host.ack("q", &polled[0].message_id, &polled[0].receipt_handle));
    let polled = host.poll("q", 30, 10);
    assert_eq!(polled.len(), 1);
    assert_eq!(polled[0].payload, b"first".to_vec());
}

#[test]
fn scan_leaves_messages_in_memory_as_they_are() {
    let mut opts = QueueOptions::default();
    opts.max_hot_messages_in_ram = 10;
    opts.max_delivery_count = 9;
    let mut host = Host::fresh(opts);
    let id = host.push("q", b"first", 0);
    host.engine.push_with_ulid("q", parse_id(&id).unwrap(), b"other".to_vec(), 0, host.now).unwrap();
    host.settle();
    for count in 1..4 {
        let polled = host.poll("q", 5, 10);
        assert_eq!(polled.len(), 1);
        assert_eq!(polled[0].payload, b"first".to_vec());
        assert_eq!(polled[0].delivery_count, count);
        host.advance(6);
    }
}

#[test]
fn disk_usage_stays_bounded() {
    let mut opts = QueueOptions::default();
    opts.max_wal_segment_size = 1000;
    let mut host = Host::fresh(opts);
    host.push("later", b"stays", 5000);
    for i in 0..200 {
        host.push("q", format!("message {}", i).as_bytes(), 0);
        assert!(host.files.wal_size() <= 2000);
        let polled = host.poll("q", 30, 1);
        assert!(host.ack("q", &polled[0].message_id, &polled[0].receipt_handle));
        assert!(host.files.wal_size() <= 2000);
    }
    host.advance(5001);
    assert_eq!(host.poll("later", 30, 1)[0].payload, b"stays".to_vec());
}

#[test]
fn torn_log_gives_the_records_before_the_tear() {
    let mut host = Host::fresh(QueueOptions::default());
    host.push("q", b"whole", 0);
    host.push("q", b"torn", 0);
    let mut files = host.crash();
    files.wal_a.pop();
    let mut host = Host::open(files, QueueOptions::default(), START);
    let polled = host.poll("q", 30, 10);
    assert_eq!(polled.len(), 1);
    assert_eq!(polled[0].payload, b"whole".to_vec());
}

#[test]
fn other_queues_are_not_disturbed() {
    let mut host = Host::fresh(QueueOptions::default());
    let a = host.push("a", b"in a", 0);
    let b = host.push("b", b"in b", 0);
    let from_a = host.poll("a", 30, 10);
    assert_eq!(from_a.len(), 1);
    assert_eq!(from_a[0].message_id, a);
    assert!(!host.ack("b", &b, &from_a[0].receipt_handle));
    let from_b = host.poll("b", 30, 10);
    assert_eq!(from_b.len(), 1);
    assert_eq!(from_b[0].message_id, b);
}

#[test]
fn default_lease_time_is_taken_for_zero() {
    let mut opts = QueueOptions::default();
    opts.default_visibility_timeout_sec = 7;
    let mut host = Host::fresh(opts);
    host.push("q", b"x", 0);
    assert_eq!(host.poll("q", 0, 1).len(), 1);
    host.advance(6);
    assert_eq!(host.poll("q", 0, 1).len(), 0);
    host.advance(1);
    assert_eq!(host.poll("q", 0, 1).len(), 1);
}

#[test]
fn batch_of_acks_counts_what_it_took() {
    let mut host = Host::fresh(QueueOptions::default());
    host.push("q", b"1", 0);
    host.push("q", b"2", 0);
    let polled = host.poll("q", 30, 10);
    let items = vec![
        (polled[0].message_id.clone(), polled[0].receipt_handle.clone()),
        (polled[0].message_id.clone(), polled[0].receipt_handle.clone()),
        (polled[1].message_id.clone(), "no receipt".to_string()),
        ("no id".to_string(), polled[1].receipt_handle.clone()),
    ];
    assert_eq!(host.engine.ack_batch("q", &items, host.now).unwrap(), 1);
    assert_eq!(host.engine.total_messages_in_ram(), 1);
}

#[test]
fn follower_ack_needs_no_receipt() {
    let mut host = Host::fresh(QueueOptions::default());
    let id = host.push("q", b"x", 0);
    assert!(!host.engine.ack_follower("q", "no id").unwrap());
    assert!(host.engine.ack_follower("q", &id).unwrap());
    host.settle();
    assert_eq!(host.engine.total_messages_in_ram(), 0);
    assert_eq!(host.poll("q", 30, 1).len(), 0);
}

#[test]
fn messages_are_spread_over_shards_by_name() {
    // Leases in one shard run out when another queue of that shard is polled, and only then.
    let mut host = Host::fresh(QueueOptions::default());
    let mut expected = 0;
    for i in 0..64 {
        host.push(&format!("queue-{}", i), b"x", 0);
        expected += host.poll(&format!("queue-{}", i), 5, 1).len();
    }
    assert_eq!(expected, 64);
    host.advance(5);
    for i in 0..64 {
        assert_eq!(host.poll(&format!("queue-{}", i), 5, 1).len(), 1);
    }
}

#[test]
fn clearing_for_recovery_keeps_the_log() {
    let mut host = Host::fresh(QueueOptions::default());
    host.push("q", b"x", 0);
    host.engine.clear_for_raft_recovery();
    host.settle();
    assert_eq!(host.engine.total_messages_in_ram(), 0);
    assert_eq!(host.files.wal_a.len(), 28);
    assert_eq!(host.engine.current_time_sec(3), START + 3);
}

#[test]
fn snapshot_holds_every_message_in_memory() {
    let mut host = Host::fresh(QueueOptions::default());
    let mut expected = Vec::new();
    for i in 0..10u8 {
        let queue = format!("q{}", i % 3);
        host.engine.push_with_ulid(&queue, i as u128, vec![i], 0, host.now).unwrap();
        expected.push((i as u128, queue, host.now, vec![i]));
    }
    let mut listed = host.engine.get_surviving_snapshot_messages();
    listed.sort();
    assert_eq!(listed, expected);
}

#[test]
fn count_is_the_number_of_messages_in_memory() {
    let mut opts = QueueOptions::default();
    opts.max_delivery_count = 1;
    let mut host = Host::fresh(opts);
    for i in 0..6 {
        host.push(&format!("q{}", i % 2), b"x", if i == 5 { 400 } else { 0 });
    }
    let agree = |host: &Host| {
        assert_eq!(
            host.engine.total_messages_in_ram(),
            host.engine.get_surviving_snapshot_messages().len()
        );
    };
    agree(&host);
    assert_eq!(host.engine.total_messages_in_ram(), 5);
    let polled = host.poll("q0", 10, 2);
    agree(&host);
    assert!(host.ack("q0", &polled[0].message_id, &polled[0].receipt_handle));
    agree(&host);
    host.advance(11);
    host.poll("q0", 10, 10);
    agree(&host);
    assert_eq!(host.poll("q0.dlq", 10, 10).len(), 1);
    agree(&host);
    host.advance(100);
    host.poll("q1", 10, 10);
    agree(&host);
    assert_eq!(host.engine.total_messages_in_ram(), 5);
    let reopened = Host::open(host.crash(), opts, START + 200);
    agree(&reopened);
    assert_eq!(reopened.engine.total_messages_in_ram(), 5);
}

#[test]
fn compaction_keeps_messages_that_are_leased_or_dead() {
    let mut opts = QueueOptions::default();
    opts.max_delivery_count = 1;
    let mut host = Host::fresh(opts);
    let dead = host.push("q", b"dead", 0);
    host.poll("q", 5, 1);
    host.advance(6);
    let leased = host.push("q", b"leased", 0);
    assert_eq!(host.poll("q", 5, 1)[0].message_id, leased);
    host.force_compaction();

    let mut host = Host::open(host.crash(), opts, START + 10);
    let from_q = host.poll("q", 5, 10);
    assert_eq!(from_q.len(), 1);
    assert_eq!(from_q[0].message_id, leased);
    assert_eq!(from_q[0].delivery_count, 1);
    let from_dlq = host.poll("q.dlq", 5, 10);
    assert_eq!(from_dlq.len(), 1);
    assert_eq!(from_dlq[0].message_id, dead);
}

#[test]
fn restart_with_little_memory_leaves_no_message_behind() {
    let mut host = Host::fresh(QueueOptions::default());
    let mut expected = Vec::new();
    for i in 0..10 {
        expected.push(host.push("q", format!("m{}", i).as_bytes(), 0));
    }
    let mut opts = QueueOptions::default();
    opts.max_hot_messages_in_ram = 3;
    let mut host = Host::open(host.crash(), opts, START + 1);
    assert_eq!(host.engine.total_messages_in_ram(), 3);
    let mut found = Vec::new();
    for _ in 0..10 {
        for m in host.poll("q", 30, 2) {
            assert!(host.ack("q", &m.message_id, &m.receipt_handle));
            found.push(m.message_id);
        }
    }
    assert_eq!(found, expected);
}

#[test]
fn log_longer_than_a_window_is_scanned_to_its_end() {
    let mut opts = QueueOptions::default();
    opts.max_hot_messages_in_ram = 100;
    let mut host = Host::fresh(opts);
    let payload = vec![7u8; 1000];
    for _ in 0..2500 {
        host.push("q", &payload, 0);
    }
    assert!(host.files.wal_a.len() > 2 * 1_048_576);
    let mut found = HashSet::new();
    loop {
        let batch = host.poll("q", 300, 1000);
        if batch.is_empty() {
            break;
        }
        for m in batch {
            assert!(host.ack("q", &m.message_id, &m.receipt_handle));
            assert!(found.insert(m.message_id));
        }
    }
    assert_eq!(found.len(), 2500);
    assert_eq!(host.engine.total_messages_in_ram(), 0);
}

#[test]
fn compaction_keeps_messages_that_are_only_on_disk() {
    let mut host = Host::fresh(QueueOptions::default());
    let id = host.push("q", b"in an hour", 3600);
    assert_eq!(host.engine.total_messages_in_ram(), 0);
    host.force_compaction();
    assert!(host.engine.disk.active_is_b());
    assert_eq!(host.files.wal_a.len(), 0);
    assert_eq!(host.files.wal_b.len(), 27 + 10);
    host.advance(3601);
    let polled = host.poll("q", 30, 1);
    assert_eq!(polled.len(), 1);
    assert_eq!(polled[0].message_id, id);
    assert_eq!(polled[0].payload, b"in an hour".to_vec());
}

#[test]
fn compaction_carries_over_what_is_not_acknowledged_in_order() {
    let mut host = Host::fresh(QueueOptions::default());
    for i in 0..6u8 {
        host.engine.push_with_ulid("q", i as u128, vec![i], 0, host.now).unwrap();
    }
    host.settle();
    for m in host.poll("q", 30, 3) {
        if m.payload != vec![1] {
            assert!(host.ack("q", &m.message_id, &m.receipt_handle));
        }
    }
    host.force_compaction();
    assert_eq!(host.files.wal_b.len(), 4 * 28);
    let ids: Vec<u8> = host.files.wal_b.chunks(28).map(|r| r[16]).collect();
    assert_eq!(ids, vec![1, 3, 4, 5]);
    assert_eq!(host.engine.spill_read_offset(), 0);
}

#[test]
fn message_longer_than_a_window_is_paged_in() {
    let mut host = Host::fresh(QueueOptions::default());
    let payload: Vec<u8> = (0..2 * 1_048_576u32).map(|i| i as u8).collect();
    let before = host.push("q", b"before", 301);
    let long = host.push("q", &payload, 301);
    let behind = host.push("q", b"behind", 301);
    assert_eq!(host.engine.total_messages_in_ram(), 0);
    host.advance(302);
    let mut found = Vec::new();
    for _ in 0..4 {
        for m in host.poll("q", 300, 10) {
            if m.message_id == long {
                assert_eq!(m.payload, payload);
            }
            found.push(m.message_id);
        }
    }
    assert_eq!(found, vec![before, long, behind]);
}

#[test]
fn paging_in_keeps_to_the_memory_bound() {
    let mut opts = QueueOptions::default();
    opts.max_hot_messages_in_ram = 1;
    let mut host = Host::fresh(opts);
    let first = host.push("q", b"a", 0);
    let second = host.push("q", b"b", 0);
    assert_eq!(host.engine.total_messages_in_ram(), 1);
    let polled = host.poll("q", 30, 10);
    assert_eq!(host.engine.total_messages_in_ram(), 1);
    assert_eq!(polled.len(), 1);
    assert_eq!(polled[0].message_id, first);
    assert!(host.poll("q", 30, 10).is_empty());
    assert_eq!(host.engine.total_messages_in_ram(), 1);
    assert!(host.ack("q", &first, &polled[0].receipt_handle));
    let polled = host.poll("q", 30, 10);
    assert_eq!(host.engine.total_messages_in_ram(), 1);
    assert_eq!(polled.len(), 1);
    assert_eq!(polled[0].message_id, second);
}

#[test]
fn retried_push_is_delivered_once_after_a_restart() {
    let mut host = Host::fresh(QueueOptions::default());
    host.engine.push_with_ulid("q", 7, b"first".to_vec(), 0, host.now).unwrap();
    host.engine.push_with_ulid("q", 7, b"again".to_vec(), 0, host.now).unwrap();
    host.settle();
    let mut host = Host::open(host.crash(), QueueOptions::default(), START + 1);
    assert_eq!(host.engine.total_messages_in_ram(), 1);
    let polled = host.poll("q", 30, 10);
    assert_eq!(polled.len(), 1);
    assert_eq!(polled[0].payload, b"first".to_vec());
    assert!(host.poll("q", 30, 10).is_empty());
}

#[test]
fn acknowledged_id_that_is_pushed_again_stays_away() {
    let mut host = Host::fresh(QueueOptions::default());
    host.engine.push_with_ulid("q", 7, b"x".to_vec(), 0, host.now).unwrap();
    host.settle();
    let polled = host.poll("q", 30, 1);
    assert!(host.ack("q", &polled[0].message_id, &polled[0].receipt_handle));
    let size = host.files.wal_size();
    assert_eq!(
        host.engine.push_with_ulid("q", 7, b"x".to_vec(), 0, host.now).unwrap(),
        polled[0].message_id
    );
    host.settle();
    assert_eq!(host.files.wal_size(), size);
    assert!(host.poll("q", 30, 1).is_empty());
    host.force_compaction();
    assert_eq!(host.files.wal_size(), 0);
    let mut host = Host::open(host.crash(), QueueOptions::default(), START + 1);
    assert!(host.poll("q", 30, 1).is_empty());
}

#[test]
fn dead_letter_that_was_acknowledged_stays_away_after_a_restart() {
    let mut opts = QueueOptions::default();
    opts.max_delivery_count = 1;
    let mut host = Host::fresh(opts);
    host.push("critical", b"x", 0);
    assert_eq!(host.poll("critical", 10, 1).len(), 1);
    host.advance(11);
    assert!(host.poll("critical", 10, 1).is_empty());
    let dead = host.poll("critical.dlq", 10, 1);
    assert_eq!(dead.len(), 1);
    assert!(host.ack("critical.dlq", &dead[0].message_id, &dead[0].receipt_handle));
    let mut host = Host::open(host.crash(), opts, START + 20);
    assert_eq!(host.engine.total_messages_in_ram(), 0);
    assert!(host.poll("critical", 10, 1).is_empty());
    assert!(host.poll("critical.dlq", 10, 1).is_empty());
}

#[test]
fn dead_letter_is_still_one_after_a_restart() {
    let mut opts = QueueOptions::default();
    opts.max_delivery_count = 1;
    let mut host = Host::fresh(opts);
    let id = host.push("critical", b"x", 0);
    host.poll("critical", 10, 1);
    host.advance(11);
    host.poll("critical", 10, 1);
    let mut host = Host::open(host.crash(), opts, START + 20);
    assert!(host.poll("critical", 10, 1).is_empty());
    let dead = host.poll("critical.dlq", 10, 1);
    assert_eq!(dead.len(), 1);
    assert_eq!(dead[0].message_id, id);
}

#[test]
fn late_ack_is_refused_before_anyone_polls() {
    let mut host = Host::fresh(QueueOptions::default());
    let id = host.push("q", b"x", 0);
    let polled = host.poll("q", 10, 1);
    host.advance(10);
    assert!(!host.ack("q", &id, &polled[0].receipt_handle));
    let items = vec![(id.clone(), polled[0].receipt_handle.clone())];
    assert_eq!(host.engine.ack_batch("q", &items, host.now).unwrap(), 0);
    let again = host.poll("q", 10, 1);
    assert_eq!(again[0].message_id, id);
    host.advance(9);
    assert!(host.ack("q", &id, &again[0].receipt_handle));
}

#[test]
fn batch_of_acks_counts_as_one_by_one() {
    let fill = || {
        let mut host = Host::fresh(QueueOptions::default());
        for i in 0..4u8 {
            host.engine.push_with_ulid("q", i as u128, vec![i], 0, host.now).unwrap();
        }
        host.settle();
        host
    };
    let mut one_by_one = fill();
    let polled = one_by_one.poll("q", 30, 3);
    let mut at_once = fill();
    let claimed = at_once.engine.claim_ready("q", 3, at_once.now);
    let receipts: Vec<u128> =
        polled.iter().map(|m| walrq::ids::parse_id(&m.receipt_handle).unwrap()).collect();
    at_once.engine.lease_claimed("q", &claimed, &receipts, 30, at_once.now);
    let mut items: Vec<(String, String)> =
        polled.iter().map(|m| (m.message_id.clone(), m.receipt_handle.clone())).collect();
    items.push(items[1].clone());
    items.push((items[0].0.clone(), "wrong".to_string()));
    let mut count = 0;
    for (id, receipt) in &items {
        if one_by_one.ack("q", id, receipt) {
            count += 1;
        }
    }
    assert_eq!(count, 3);
    assert_eq!(at_once.engine.ack_batch("q", &items, at_once.now).unwrap(), count);
    assert_eq!(at_once.engine.total_messages_in_ram(), 4 - count);
    assert_eq!(
        at_once.engine.total_messages_in_ram(),
        one_by_one.engine.total_messages_in_ram()
    );
}

#[test]
fn polls_within_the_lease_time_hand_out_each_message_once() {
    let mut host = Host::fresh(QueueOptions::default());
    let mut expected = HashSet::new();
    for i in 0..50 {
        expected.insert(host.push("q", format!("m{}", i).as_bytes(), i % 5));
    }
    let mut found = HashSet::new();
    for k in 0..10 {
        for m in host.poll("q", 30, 7) {
            assert!(found.insert(m.message_id));
        }
        if k % 2 == 0 {
            host.advance(1);
        }
    }
    assert_eq!(found, expected);
}

#[test]
fn queue_numbers_are_dense_and_last() {
    let mut host = Host::fresh(QueueOptions::default());
    for name in ["a", "b", "a", "c", "b"] {
        host.push(name, b"x", 0);
    }
    let registry = QueueRegistry::open(&host.files.manifest);
    let names: Vec<Option<String>> = (0..4).map(|i| registry.get_name(i)).collect();
    let expected = vec![Some("a".to_string()), Some("b".to_string()), Some("c".to_string()), None];
    assert_eq!(names, expected);
    let mut host = Host::open(host.crash(), QueueOptions::default(), START + 1);
    host.push("d", b"x", 0);
    let registry = QueueRegistry::open(&host.files.manifest);
    assert_eq!(registry.get_name(3).as_deref(), Some("d"));
    assert_eq!(registry.get_name(0).as_deref(), Some("a"));
}
