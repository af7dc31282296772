//! Servers that talk to each other through memory.
use std::collections::HashSet;

use walrq::cluster::discovery::{
    parse_seeds, wait_for_peer, DiscoveryEngine, DiscoveryMode, DiscoveryPlan, DiscoveryVars,
};
use walrq::cluster::raft::{
    quorum_reached, LogEntry, RaftCommand, RaftNode, ReceivedEntry, Replication, TickAction,
};
use walrq::cluster::raft_model::RaftRole;
use walrq::engine::disk_log::{read_window, DiskAction, SegmentRead};
use walrq::engine::queue::{QueueEngine, QueueOptions};
use walrq::protocol::{
    AckItem, BatchPushItem, Message, RaftLogEntryWire, Request, Response, SnapshotItem,
};
use walrq::server::tcp_service::{Dispatch, WalrServer, DEFAULT_MAX_CONNECTIONS};

const NOW: u64 = 1_750_000_000;

#[derive(Default)]
struct Files {
    manifest: Vec<u8>,
    wal_a: Vec<u8>,
    wal_b: Vec<u8>,
}

struct Node {
    server: WalrServer,
    files: Files,
    reachable: bool,
}

impl Node {
    fn boot(addr: &str, peers: &[&str], files: Files, opts: QueueOptions) -> Node {
        let engine =
            QueueEngine::open(&files.manifest, &files.wal_a, &files.wal_b, opts, NOW).unwrap();
        let peers: Vec<String> = peers.iter().map(|p| p.to_string()).collect();
        let raft = RaftNode::new(addr.to_string(), peers, engine);
        let server = WalrServer::new_raft(raft, addr.to_string());
        Node { server, files, reachable: true }
    }

    fn fresh(addr: &str, peers: &[&str]) -> Node {
        Node::boot(addr, peers, Files::default(), QueueOptions::default())
    }

    /// Compacts the log where that is due, as it may be after a push or an acknowledgement.
    fn compact(&mut self) {
        self.settle();
        if self.server.raft.engine.compaction_due() {
            let is_b = self.server.raft.engine.disk.active_is_b();
            let segment = if is_b { self.files.wal_b.clone() } else { self.files.wal_a.clone() };
            self.server.compact_where_due(&segment);
            self.settle();
        }
    }

    fn settle(&mut self) {
        for action in self.server.take_actions() {
            match action {
                DiskAction::AppendManifest { bytes } => self.files.manifest.extend(bytes),
                DiskAction::AppendSegment { to_b: true, bytes } => self.files.wal_b.extend(bytes),
                DiskAction::AppendSegment { to_b: false, bytes } => self.files.wal_a.extend(bytes),
                DiskAction::Flush => {}
                DiskAction::TruncateSegment { is_b: true } => self.files.wal_b.clear(),
                DiskAction::TruncateSegment { is_b: false } => self.files.wal_a.clear(),
            }
        }
    }

    fn read_log(&self) -> SegmentRead {
        let engine = &self.server.raft.engine;
        let data = if engine.disk.active_is_b() { &self.files.wal_b } else { &self.files.wal_a };
        let offset = engine.spill_read_offset();
        let file_len = data.len() as u64;
        let head = data.get(offset as usize..).unwrap_or(&[]);
        let len = read_window(file_len, offset, head) as usize;
        let raw = if len == 0 {
            Vec::new()
        } else {
            data[offset as usize..offset as usize + len].to_vec()
        };
        SegmentRead::Data { file_len, raw }
    }

    /// Takes entries from the leader as they come over the wire.
    fn receive(&mut self, r: &Replication, now: u64) -> bool {
        if !self.reachable {
            return false;
        }
        let wires: Vec<RaftLogEntryWire> = r
            .entries
            .iter()
            .map(|e| RaftLogEntryWire { term: e.term, index: e.index, command: Vec::new() })
            .collect();
        let req = Request::RaftAppend {
            term: r.term,
            leader_id: r.leader_id.clone(),
            prev_log_index: r.prev_log_index,
            prev_log_term: r.prev_log_term,
            entries: wires,
            leader_commit: r.leader_commit,
        };
        let pending = match self.server.dispatch(req, now) {
            Dispatch::Append { pending } => pending,
            other => panic!("expected append, got {:?}", other),
        };
        let received: Vec<ReceivedEntry> = pending
            .entries
            .iter()
            .zip(r.entries.iter())
            .map(|(wire, e)| ReceivedEntry {
                term: wire.term,
                index: wire.index,
                command: Some(e.command.clone()),
            })
            .collect();
        let response = self.server.finish_append(pending.term, &pending.leader_id, received, now);
        self.compact();
        match response {
            Response::RaftAppend { success, .. } => success,
            other => panic!("expected append, got {:?}", other),
        }
    }
}

struct Net {
    nodes: Vec<Node>,
    now: u64,
}

impl Net {
    fn replicate(&mut self, r: &Replication) -> Vec<bool> {
        let mut replies = Vec::new();
        for peer in &r.peers {
            let mut reply = false;
            for node in self.nodes.iter_mut() {
                if node.server.raft.node_id == *peer {
                    reply = node.receive(r, self.now);
                }
            }
            replies.push(reply);
        }
        replies
    }

    fn call(&mut self, at: usize, req: Request) -> Response {
        assert!(self.nodes[at].server.has_room_for(&req));
        let response = match self.nodes[at].server.dispatch(req, self.now) {
            Dispatch::Done { response } => response,
            Dispatch::Push { proposal, batch } => {
                let replies = self.replicate(&proposal.replication);
                assert!(proposal.delays_fit(self.now));
                let response =
                    self.nodes[at].server.finish_push(proposal, batch, &replies, self.now);
                self.nodes[at].compact();
                response
            }
            Dispatch::Ack { proposal, batch } => {
                self.replicate(&proposal.replication);
                let response = self.nodes[at].server.finish_ack(proposal, batch);
                self.nodes[at].compact();
                response
            }
            Dispatch::Poll { mut poll } => {
                self.nodes[at].settle();
                loop {
                    let read = self.nodes[at].read_log();
                    let again = self.nodes[at].server.continue_poll(&mut poll, &read);
                    self.nodes[at].settle();
                    if !again {
                        break;
                    }
                }
                self.nodes[at].server.finish_poll(poll, self.now)
            }
            Dispatch::Append { pending } => panic!("unexpected append {:?}", pending),
        };
        self.nodes[at].settle();
        response
    }

    fn push(&mut self, at: usize, queue: &str, payload: &[u8]) -> Response {
        self.call(
            at,
            Request::Push {
                queue_name: queue.to_string(),
                payload: payload.to_vec(),
                delay_seconds: 0,
                message_id: String::new(),
            },
        )
    }

    fn poll(&mut self, at: usize, queue: &str, batch_size: u32) -> Vec<Message> {
        let req = Request::Poll {
            queue_name: queue.to_string(),
            visibility_timeout_sec: 30,
            batch_size,
        };
        match self.call(at, req) {
            Response::Poll { messages } => messages,
            other => panic!("expected poll, got {:?}", other),
        }
    }

    fn ack(&mut self, at: usize, queue: &str, m: &Message) -> bool {
        let req = Request::Ack {
            queue_name: queue.to_string(),
            message_id: m.message_id.clone(),
            receipt_handle: m.receipt_handle.clone(),
        };
        match self.call(at, req) {
            Response::Ack { success } => success,
            other => panic!("expected ack, got {:?}", other),
        }
    }
}

fn pushed_id(resp: Response) -> String {
    match resp {
        Response::Push { message_id } => message_id,
        other => panic!("expected push, got {:?}", other),
    }
}

fn single(addr: &str) -> Net {
    let mut node = Node::fresh(addr, &[]);
    node.server.raft.become_leader_for_test();
    Net { nodes: vec![node], now: NOW }
}

fn three(addrs: [&str; 3]) -> Net {
    let [a, b, c] = addrs;
    let mut first = Node::fresh(a, &[b, c]);
    first.server.raft.become_leader_for_test();
    Net { nodes: vec![first, Node::fresh(b, &[a, c]), Node::fresh(c, &[a, b])], now: NOW }
}

#[test]
fn test_tcp_server_push_poll_ack() {
    let mut net = single("127.0.0.1:51051");

    let push_id = pushed_id(net.push(0, "test-q", b"hello postcard"));
    assert!(!push_id.is_empty());

    let msgs = net.poll(0, "test-q", 10);
    assert_eq!(msgs.len(), 1);
    assert_eq!(msgs[0].message_id, push_id);
    assert_eq!(msgs[0].payload, b"hello postcard");

    assert!(net.ack(0, "test-q", &msgs[0]));
}

#[test]
fn test_node_kill_and_disk_recovery() {
    let total_messages = 5_000;
    let options = QueueOptions {
        max_delivery_count: 5,
        default_visibility_timeout_sec: 30,
        max_hot_messages_in_ram: 10_000,
        max_wal_segment_size: 64 * 1024 * 1024,
    };
    let addr = "127.0.0.1:49051";

    let mut node = Node::boot(addr, &[], Files::default(), options);
    node.server.raft.become_leader_for_test();
    let mut net = Net { nodes: vec![node], now: NOW };
    let mut all_pushed_ids = Vec::new();
    for batch_idx in 0..10 {
        for i in 0..500 {
            let seq = batch_idx * 500 + i;
            let payload = format!("heavy-payload-{}", seq).into_bytes();
            if let Response::Push { message_id } = net.push(0, "heavy-durability-q", &payload) {
                all_pushed_ids.push(message_id);
            }
        }
    }
    assert_eq!(all_pushed_ids.len(), total_messages);
    let files = net.nodes.remove(0).files;

    let mut node = Node::boot(addr, &[], files, options);
    node.server.raft.become_leader_for_test();
    let mut net = Net { nodes: vec![node], now: NOW };
    let mut polled_count = 0;
    let mut rounds = 0;
    while polled_count < total_messages {
        polled_count += net.poll(0, "heavy-durability-q", 500).len();
        rounds += 1;
        assert!(rounds <= 100);
    }
    assert_eq!(polled_count, total_messages);
}

#[test]
fn test_raft_chaos_cluster() {
    let mut net = three(["127.0.0.1:44051", "127.0.0.1:44052", "127.0.0.1:44053"]);
    let id = pushed_id(net.push(0, "raft-chaos-q", b"chaos-msg"));
    let msgs = net.poll(0, "raft-chaos-q", 10);
    assert_eq!(msgs.len(), 1);
    assert_eq!(msgs[0].message_id, id);
}

#[test]
fn test_raft_strict_quorum_replication_and_follower_recovery() {
    let mut net = three(["127.0.0.1:42051", "127.0.0.1:42052", "127.0.0.1:42053"]);
    let mut pushed_ids = HashSet::new();
    for i in 0..100 {
        let payload = format!("payload-{}", i).into_bytes();
        pushed_ids.insert(pushed_id(net.push(0, "raft-strict-q", &payload)));
    }
    assert_eq!(pushed_ids.len(), 100);

    let msgs = net.poll(0, "raft-strict-q", 30);
    assert_eq!(msgs.len(), 30);
    for m in &msgs {
        assert!(net.ack(0, "raft-strict-q", m));
    }

    assert!(net.nodes[1].server.raft.log_delays_fit(NOW));
    net.nodes[1].server.raft.recover_as_new_leader(NOW);
    net.nodes[1].settle();

    let msgs2 = net.poll(1, "raft-strict-q", 100);
    assert_eq!(msgs2.len(), 70);
}

#[test]
fn test_raft_mode_udp_broadcast_peer_discovery() {
    let addr1 = "127.0.0.1:48051";
    let addr2 = "127.0.0.1:48052";
    let mut node1 = Node::fresh(addr1, &[]);
    let mut node2 = Node::fresh(addr2, &[]);

    for (node, own, seed) in [(&mut node1, addr1, addr2), (&mut node2, addr2, addr1)] {
        let mode = DiscoveryMode::StaticSeeds { seeds: vec![seed.to_string()] };
        match DiscoveryEngine::start(&mode, own) {
            DiscoveryPlan::Peers { peers } => {
                for p in peers {
                    node.server.raft.add_peer(&p);
                }
            }
            other => panic!("unexpected plan {:?}", other),
        }
    }

    let peers1 = &node1.server.raft.peers;
    let peers2 = &node2.server.raft.peers;
    assert!(
        peers1.contains(&addr2.to_string()) && peers2.contains(&addr1.to_string()),
        "Nodes should discover each other"
    );
}

#[test]
fn test_headless_dns_dynamic_scaling_discovery() {
    let mut node = Node::fresh("127.0.0.1:48053", &[]);
    let mode = DiscoveryMode::HeadlessDns {
        dns_host: "localhost".to_string(),
        port: 48053,
        poll_interval_sec: 1,
    };
    match DiscoveryEngine::start(&mode, "127.0.0.1:9999") {
        DiscoveryPlan::Lookup { query, poll_interval_sec } => {
            assert_eq!(query, "localhost:48053");
            assert_eq!(poll_interval_sec, 1);
        }
        other => panic!("unexpected plan {:?}", other),
    }
    // What the name resolves to.
    let resolved = vec!["127.0.0.1:48053".to_string(), "127.0.0.1:9999".to_string()];
    let seeds = DiscoveryEngine::other_nodes(&resolved, "127.0.0.1:9999");
    for s in &seeds {
        node.server.raft.add_peer(s);
    }
    assert!(!seeds.is_empty(), "Headless DNS discovery must return resolved pod addresses");
    assert_eq!(seeds, vec!["127.0.0.1:48053".to_string()]);
}

#[test]
fn broadcast_plan_and_beacons() {
    let mode = DiscoveryMode::Broadcast { broadcast_port: 7234 };
    match DiscoveryEngine::start(&mode, "10.0.0.1:50051") {
        DiscoveryPlan::Beacon { listen_addr, beacon, target } => {
            assert_eq!(listen_addr, "0.0.0.0:7234");
            assert_eq!(beacon, "WALRQ_BEACON:10.0.0.1:50051");
            assert_eq!(target, "255.255.255.255:7234");
            let heard = DiscoveryEngine::parse_beacon(beacon.as_bytes(), "10.0.0.2:50051");
            assert_eq!(heard.as_deref(), Some("10.0.0.1:50051"));
            assert!(DiscoveryEngine::parse_beacon(beacon.as_bytes(), "10.0.0.1:50051").is_none());
        }
        other => panic!("unexpected plan {:?}", other),
    }
    assert!(DiscoveryEngine::parse_beacon(b"WALRQ_BEACON", "x").is_none());
    assert!(DiscoveryEngine::parse_beacon(b"OTHER_BEACON:a", "x").is_none());
    assert!(DiscoveryEngine::parse_beacon(b"WALRQ_BEACON:\xff", "x").is_none());
    assert_eq!(
        DiscoveryEngine::parse_beacon("WALRQ_BEACON:\u{e9}".as_bytes(), "x").as_deref(),
        Some("\u{e9}")
    );
}

fn vars() -> DiscoveryVars {
    DiscoveryVars {
        headless_dns: None,
        server_port: None,
        tcp_port: None,
        poll_interval_sec: None,
        broadcast_port: None,
        seeds: None,
    }
}

#[test]
fn discovery_mode_is_chosen_by_variables() {
    assert!(matches!(
        DiscoveryMode::from_env(&vars()),
        DiscoveryMode::Broadcast { broadcast_port: 7001 }
    ));

    let mut v = vars();
    v.seeds = Some("a:1,,b:2".to_string());
    match DiscoveryMode::from_env(&v) {
        DiscoveryMode::StaticSeeds { seeds } => assert_eq!(seeds, vec!["a:1", "b:2"]),
        other => panic!("unexpected mode {:?}", other),
    }
    v.broadcast_port = Some("none".to_string());
    assert!(matches!(DiscoveryMode::from_env(&v), DiscoveryMode::StaticSeeds { .. }));
    v.broadcast_port = Some("65535".to_string());
    assert!(matches!(
        DiscoveryMode::from_env(&v),
        DiscoveryMode::Broadcast { broadcast_port: 65535 }
    ));
    v.broadcast_port = Some("65536".to_string());
    v.seeds = Some(",".to_string());
    assert!(matches!(
        DiscoveryMode::from_env(&v),
        DiscoveryMode::Broadcast { broadcast_port: 7001 }
    ));

    v.headless_dns = Some("pods".to_string());
    v.tcp_port = Some("+81".to_string());
    match DiscoveryMode::from_env(&v) {
        DiscoveryMode::HeadlessDns { dns_host, port, poll_interval_sec } => {
            assert_eq!(dns_host, "pods");
            assert_eq!(port, 81);
            assert_eq!(poll_interval_sec, 3);
        }
        other => panic!("unexpected mode {:?}", other),
    }
    v.server_port = Some("x".to_string());
    v.poll_interval_sec = Some("9".to_string());
    match DiscoveryMode::from_env(&v) {
        DiscoveryMode::HeadlessDns { port, poll_interval_sec, .. } => {
            assert_eq!(port, 50051);
            assert_eq!(poll_interval_sec, 9);
        }
        other => panic!("unexpected mode {:?}", other),
    }
}

#[test]
fn seeds_are_separated_by_commas() {
    assert_eq!(parse_seeds("x"), vec!["x"]);
    assert_eq!(parse_seeds(",x, y,"), vec!["x", " y"]);
    assert!(parse_seeds("").is_empty());
}

#[test]
fn followers_redirect_to_the_leader() {
    let mut net = three(["a:1", "b:1", "c:1"]);
    match net.push(1, "q", b"x") {
        Response::Redirect { leader } => assert_eq!(leader, ""),
        other => panic!("expected redirect, got {:?}", other),
    }
    pushed_id(net.push(0, "q", b"x"));
    let requests = vec![
        Request::Push {
            queue_name: "q".to_string(),
            payload: Vec::new(),
            delay_seconds: 0,
            message_id: String::new(),
        },
        Request::PushBatch { queue_name: "q".to_string(), items: Vec::new() },
        Request::Poll { queue_name: "q".to_string(), visibility_timeout_sec: 1, batch_size: 1 },
        Request::Ack {
            queue_name: "q".to_string(),
            message_id: String::new(),
            receipt_handle: String::new(),
        },
        Request::AckBatch { queue_name: "q".to_string(), items: Vec::new() },
        Request::JoinCluster { peer_addr: "d:1".to_string() },
        Request::LeaveCluster { peer_addr: "a:1".to_string() },
    ];
    for req in requests {
        match net.call(1, req) {
            Response::Redirect { leader } => assert_eq!(leader, "a:1"),
            other => panic!("expected redirect, got {:?}", other),
        }
    }
    assert_eq!(net.nodes[1].server.raft.peers.len(), 2);
    assert_eq!(net.nodes[1].server.raft.engine.total_messages_in_ram(), 1);
}

#[test]
fn push_needs_a_majority() {
    let mut net = three(["a:1", "b:1", "c:1"]);
    net.nodes[1].reachable = false;
    pushed_id(net.push(0, "q", b"one"));
    net.nodes[2].reachable = false;
    match net.push(0, "q", b"two") {
        Response::Error { message } => assert_eq!(
            message,
            "QUORUM_FAILED: Failed to replicate batch to majority quorum"
        ),
        other => panic!("expected error, got {:?}", other),
    }
    assert_eq!(net.nodes[0].server.raft.engine.total_messages_in_ram(), 1);
    assert_eq!(net.nodes[0].server.raft.commit_index, 1);
    assert_eq!(net.nodes[0].server.raft.log.len(), 2);

    assert!(quorum_reached(0, &vec![]));
    assert!(!quorum_reached(1, &vec![false]));
    assert!(quorum_reached(1, &vec![true]));
    assert!(quorum_reached(2, &vec![false, true]));
    assert!(!quorum_reached(3, &vec![false, true, false]));
    assert!(quorum_reached(3, &vec![true, true, false]));
    assert!(quorum_reached(4, &vec![true, true, false, false]));
}

#[test]
fn nodes_hold_the_same_messages() {
    let mut net = three(["a:1", "b:1", "c:1"]);
    let req = Request::PushBatch {
        queue_name: "q".to_string(),
        items: vec![
            BatchPushItem {
                payload: b"given".to_vec(),
                delay_seconds: 0,
                message_id: "0000000000000000000000000A".to_string(),
            },
            BatchPushItem {
                payload: b"fresh".to_vec(),
                delay_seconds: 60,
                message_id: String::new(),
            },
            BatchPushItem {
                payload: b"no id".to_vec(),
                delay_seconds: 0,
                message_id: "!!!!!!!!!!!!!!!!!!!!!!!!!!".to_string(),
            },
        ],
    };
    let ids = match net.call(0, req) {
        Response::PushBatch { message_ids } => message_ids,
        other => panic!("expected push batch, got {:?}", other),
    };
    assert_eq!(ids.len(), 3);
    assert_eq!(ids[0], "0000000000000000000000000A");
    assert_ne!(ids[2], "!!!!!!!!!!!!!!!!!!!!!!!!!!");
    let mut lists = Vec::new();
    for node in &net.nodes {
        let mut list = node.server.raft.engine.get_surviving_snapshot_messages();
        list.sort();
        lists.push(list);
    }
    assert_eq!(lists[0].len(), 3);
    assert!(lists[0].iter().any(|m| m.0 == 10 && m.2 == NOW && m.3 == b"given".to_vec()));
    assert!(lists[0].iter().any(|m| m.2 == NOW + 60));
    assert_eq!(lists[1], lists[0]);
    assert_eq!(lists[2], lists[0]);

    let polled = net.poll(0, "q", 10);
    let items: Vec<AckItem> = polled
        .iter()
        .map(|m| AckItem {
            message_id: m.message_id.clone(),
            receipt_handle: m.receipt_handle.clone(),
        })
        .collect();
    match net.call(0, Request::AckBatch { queue_name: "q".to_string(), items }) {
        Response::AckBatch { acked_count } => assert_eq!(acked_count, 2),
        other => panic!("expected ack batch, got {:?}", other),
    }
    for node in &net.nodes {
        assert_eq!(node.server.raft.engine.total_messages_in_ram(), 1);
    }
}

#[test]
fn id_of_the_wrong_length_is_turned_away() {
    let mut net = single("a:1");
    let req = Request::Push {
        queue_name: "q".to_string(),
        payload: Vec::new(),
        delay_seconds: 0,
        message_id: "550e8400-e29b-41d4-a716-446655440000".to_string(),
    };
    match net.call(0, req) {
        Response::Error { message } => {
            assert_eq!(message, "invalid ULID message_id: invalid length")
        }
        other => panic!("expected error, got {:?}", other),
    }
}

#[test]
fn wrong_receipt_is_answered_with_no() {
    let mut net = single("a:1");
    pushed_id(net.push(0, "q", b"x"));
    let mut m = net.poll(0, "q", 1).remove(0);
    let right = m.receipt_handle.clone();
    m.receipt_handle = "wrong".to_string();
    assert!(!net.ack(0, "q", &m));
    assert_eq!(net.nodes[0].server.raft.log.len(), 1);
    m.receipt_handle = right;
    assert!(net.ack(0, "q", &m));
    assert!(!net.ack(0, "q", &m));
    assert_eq!(net.nodes[0].server.raft.log.len(), 2);
    assert_eq!(net.nodes[0].server.raft.commit_index, 2);
}

#[test]
fn empty_batches_are_answered_at_once() {
    let mut net = single("a:1");
    let push = Request::PushBatch { queue_name: "q".to_string(), items: Vec::new() };
    assert!(matches!(
        net.call(0, push),
        Response::PushBatch { message_ids } if message_ids.is_empty()
    ));
    let ack = Request::AckBatch { queue_name: "q".to_string(), items: Vec::new() };
    assert!(matches!(net.call(0, ack), Response::AckBatch { acked_count: 0 }));
}

#[test]
fn votes_go_to_later_terms_only() {
    let mut net = single("a:1");
    let vote = |term: u64| Request::RaftVote {
        term,
        candidate_id: "b:1".to_string(),
        last_log_index: 0,
        last_log_term: 0,
    };
    assert!(matches!(
        net.call(0, vote(0)),
        Response::RaftVote { term: 0, vote_granted: false }
    ));
    assert!(net.nodes[0].server.raft.is_leader());
    assert!(matches!(net.call(0, vote(3)), Response::RaftVote { term: 3, vote_granted: true }));
    assert!(!net.nodes[0].server.raft.is_leader());
    assert!(!net.nodes[0].server.raft.is_leader_fast());
    assert!(matches!(
        net.call(0, vote(3)),
        Response::RaftVote { term: 3, vote_granted: false }
    ));
    assert_eq!(net.nodes[0].server.raft.leader_name(), "b:1");
}

fn replication(term: u64, entries: Vec<LogEntry>) -> Replication {
    Replication {
        peers: Vec::new(),
        term,
        leader_id: "lead:1".to_string(),
        prev_log_index: 0,
        prev_log_term: 0,
        entries,
        leader_commit: 0,
    }
}

fn push_entry(index: u64, id: &str) -> LogEntry {
    LogEntry {
        term: 1,
        index,
        command: RaftCommand::Push {
            queue: "q".to_string(),
            msg_id: id.to_string(),
            payload: b"p".to_vec(),
            visible_at: 0,
        },
    }
}

#[test]
fn entries_of_an_old_term_are_turned_away() {
    let mut node = Node::fresh("a:1", &[]);
    node.server.raft.handle_vote(5, "x", 0, 0);
    let entries = vec![push_entry(1, "00000000000000000000000001")];
    assert!(!node.receive(&replication(4, entries.clone()), NOW));
    assert_eq!(node.server.raft.log.len(), 0);
    assert!(node.receive(&replication(5, entries), NOW));
    assert_eq!(node.server.raft.log.len(), 1);
    assert_eq!(node.server.raft.leader_name(), "lead:1");
    assert_eq!(node.server.raft.engine.total_messages_in_ram(), 1);
}

#[test]
fn entry_that_cannot_be_decoded_is_passed_over() {
    let mut node = Node::fresh("a:1", &[]);
    let entries = vec![
        ReceivedEntry { term: 1, index: 1, command: None },
        ReceivedEntry {
            term: 1,
            index: 2,
            command: Some(push_entry(2, "550e8400-e29b-41d4-a716-446655440000").command),
        },
        ReceivedEntry { term: 1, index: 3, command: Some(push_entry(3, "no id").command) },
    ];
    assert!(RaftNode::received_delays_fit(&entries, NOW));
    assert!(node.server.raft.handle_append_entries(1, "l", 0, 0, entries, 0, NOW));
    assert_eq!(node.server.raft.log.len(), 2);
    let list = node.server.raft.engine.get_surviving_snapshot_messages();
    assert_eq!(list.len(), 1);
    assert_eq!(list[0].0, 0x550e8400_e29b_41d4_a716_446655440000);
}

#[test]
fn delays_that_do_not_fit_are_seen() {
    let late = RaftCommand::Push {
        queue: "q".to_string(),
        msg_id: String::new(),
        payload: Vec::new(),
        visible_at: u64::MAX,
    };
    let entries = vec![ReceivedEntry { term: 1, index: 1, command: Some(late) }];
    assert!(!RaftNode::received_delays_fit(&entries, 1));
    assert!(RaftNode::received_delays_fit(&entries, 0));
}

#[test]
fn snapshot_brings_a_peer_up_to_date() {
    let mut net = single("a:1");
    let kept = pushed_id(net.push(0, "q", b"kept"));
    let (request, more) = net.nodes[0].server.raft.sync_all_entries_to_peer("b:1");
    let mut peer = Node::fresh("b:1", &[]);
    pushed_id({
        peer.server.raft.become_leader_for_test();
        let mut own = Net { nodes: vec![peer], now: NOW };
        let resp = own.push(0, "q", b"forgotten");
        peer = own.nodes.remove(0);
        resp
    });
    match peer.server.dispatch(request, NOW) {
        Dispatch::Done { response } => {
            assert!(matches!(response, Response::RaftInstallSnapshot { term: 0, success: true }))
        }
        other => panic!("unexpected dispatch {:?}", other),
    }
    let more = more.unwrap();
    assert_eq!(more.peers, vec!["b:1".to_string()]);
    assert!(peer.receive(&more, NOW));
    let mut list = peer.server.raft.engine.get_surviving_snapshot_messages();
    assert_eq!(list.len(), 1);
    let m = list.remove(0);
    assert_eq!(m.3, b"kept".to_vec());
    assert_eq!(peer.server.raft.leader_name(), "a:1");
    let mut net = Net { nodes: vec![peer], now: NOW };
    let polled = net.poll(0, "q", 1);
    assert_eq!(polled[0].message_id, kept);
}

#[test]
fn old_snapshot_is_turned_away() {
    let mut node = Node::fresh("a:1", &[]);
    node.server.raft.handle_vote(2, "x", 0, 0);
    let request = Request::RaftInstallSnapshot {
        term: 1,
        leader_id: "b:1".to_string(),
        last_included_index: 9,
        last_included_term: 1,
        items: vec![SnapshotItem {
            id: "00000000000000000000000001".to_string(),
            queue: "q".to_string(),
            visible_at: NOW,
            payload: Vec::new(),
        }],
    };
    assert!(!node.server.raft.handle_install_snapshot(request, NOW));
    assert_eq!(node.server.raft.snapshot_index, 0);
    assert!(!node.server.raft.handle_install_snapshot(Request::Metrics, NOW));
}

#[test]
fn log_is_compacted_every_so_many_entries() {
    let engine = QueueEngine::open(&[], &[], &[], QueueOptions::default(), NOW).unwrap();
    let mut raft = RaftNode::with_threshold("a:1".to_string(), Vec::new(), engine, 3);
    raft.become_leader_for_test();
    for i in 1..=4u64 {
        let proposal = raft
            .propose_push_str("q", "", b"x".to_vec(), 0)
            .unwrap()
            .unwrap();
        let id = raft.commit_push(proposal, &vec![], NOW).unwrap();
        assert_eq!(id.len(), 26);
        assert_eq!(raft.commit_index, i);
    }
    assert_eq!(raft.snapshot_index, 3);
    assert_eq!(raft.log.len(), 1);
    assert_eq!(raft.log[0].index, 4);
    raft.compact_log_snapshot();
    assert_eq!(raft.log.len(), 1);
}

#[test]
fn long_follower_log_is_cut() {
    let engine = QueueEngine::open(&[], &[], &[], QueueOptions::default(), NOW).unwrap();
    let mut raft = RaftNode::with_threshold("a:1".to_string(), Vec::new(), engine, 2);
    let entries: Vec<ReceivedEntry> = (1..=5u64)
        .map(|i| ReceivedEntry {
            term: 1,
            index: i,
            command: Some(push_entry(i, &format!("0000000000000000000000000{}", i)).command),
        })
        .collect();
    assert!(raft.handle_append_entries(1, "l", 0, 0, entries, 0, NOW));
    assert_eq!(raft.log.len(), 2);
    assert_eq!(raft.log[0].index, 4);
    assert_eq!(raft.snapshot_index, 3);
    assert_eq!(raft.engine.total_messages_in_ram(), 5);
}

#[test]
fn first_node_elects_itself() {
    let mut first = Node::fresh("a:1", &["b:1", "c:1"]);
    let mut second = Node::fresh("b:1", &["c:1", "a:1"]);
    assert!(matches!(second.server.raft.tick(NOW), TickAction::Nothing));
    assert!(matches!(first.server.raft.tick(NOW), TickAction::Elected));
    assert_eq!(first.server.raft.role, RaftRole::Leader);
    match first.server.raft.tick(NOW) {
        TickAction::Heartbeat(r) => {
            assert_eq!(r.peers, vec!["b:1", "c:1"]);
            assert!(r.entries.is_empty());
            assert!(second.receive(&r, NOW));
        }
        other => panic!("unexpected action {:?}", other),
    }
    assert_eq!(second.server.raft.leader_name(), "a:1");
    first.server.raft.is_running = false;
    assert!(matches!(first.server.raft.tick(NOW), TickAction::Stop));
}

#[test]
fn members_join_and_leave() {
    let mut net = single("a:1");
    let members = |resp: Response| match resp {
        Response::ClusterMembership { success: true, members } => members,
        other => panic!("expected membership, got {:?}", other),
    };
    let join = |addr: &str| Request::JoinCluster { peer_addr: addr.to_string() };
    assert_eq!(members(net.call(0, join("b:1"))), vec!["a:1", "b:1"]);
    assert_eq!(members(net.call(0, join("b:1"))), vec!["a:1", "b:1"]);
    assert_eq!(members(net.call(0, join("a:1"))), vec!["a:1", "b:1"]);
    let leave = Request::LeaveCluster { peer_addr: "b:1".to_string() };
    assert_eq!(members(net.call(0, leave)), vec!["a:1"]);
}

#[test]
fn uuid_push_keeps_its_text() {
    let mut net = single("a:1");
    let raft = &mut net.nodes[0].server.raft;
    let id = 0x550e8400_e29b_41d4_a716_446655440000u128;
    let proposal = raft.propose_push("q", id, b"x".to_vec()).unwrap().unwrap();
    let text = raft.commit_push(proposal, &vec![], NOW).unwrap();
    assert_eq!(text, "550e8400-e29b-41d4-a716-446655440000");
    assert_eq!(raft.engine.get_surviving_snapshot_messages()[0].0, id);
}

#[test]
fn proposals_need_the_leader() {
    let mut node = Node::fresh("a:1", &[]);
    let raft = &mut node.server.raft;
    assert_eq!(
        raft.propose_push_str("q", "", Vec::new(), 0).unwrap_err(),
        "NOT_LEADER:"
    );
    raft.handle_vote(1, "b:1", 0, 0);
    assert_eq!(raft.propose_ack("q", "", "", NOW).unwrap_err(), "NOT_LEADER:b:1");
}

#[test]
fn batch_items_are_proposed_as_pairs() {
    let mut net = single("a:1");
    for payload in [b"1", b"2"] {
        pushed_id(net.push(0, "q", payload));
    }
    let polled = net.poll(0, "q", 2);
    let items = vec![
        AckItem {
            message_id: polled[0].message_id.clone(),
            receipt_handle: polled[0].receipt_handle.clone(),
        },
        AckItem {
            message_id: polled[1].message_id.clone(),
            receipt_handle: polled[0].receipt_handle.clone(),
        },
    ];
    let raft = &mut net.nodes[0].server.raft;
    let proposal = raft.propose_ack_batch_items("q", items, NOW).unwrap().unwrap();
    assert_eq!(raft.commit_ack_batch(proposal), 1);
    assert_eq!(raft.commit_index, 3);
    assert!(raft.propose_ack_batch_items("q", Vec::new(), NOW).unwrap().is_none());
}

#[test]
fn metrics_are_counted_and_shown() {
    let mut net = single("a:1");
    pushed_id(net.push(0, "q", b"x"));
    pushed_id(net.push(0, "q", b"y"));
    let polled = net.poll(0, "q", 2);
    assert!(net.ack(0, "q", &polled[0]));
    let text = match net.call(0, Request::Metrics) {
        Response::Metrics { prometheus_text } => prometheus_text,
        other => panic!("expected metrics, got {:?}", other),
    };
    assert!(text.contains("walrq_messages_pushed_total 2\n"));
    assert!(text.contains("walrq_messages_polled_total 2\n"));
    assert!(text.contains("walrq_messages_acked_total 1\n"));
    assert!(text.contains("walrq_in_flight_messages 1\n"));
    assert!(text.contains("walrq_hot_messages_in_ram 1\n"));
    assert!(text.ends_with("walrq_is_leader 1\n"));
    assert_eq!(net.nodes[0].server.max_connections(), DEFAULT_MAX_CONNECTIONS);

    let engine = QueueEngine::open(&[], &[], &[], QueueOptions::default(), NOW).unwrap();
    let raft = RaftNode::new("b:1".to_string(), Vec::new(), engine);
    let mut quiet = WalrServer::new_raft_with_limits(raft, "b:1".to_string(), 5, false);
    match quiet.dispatch(Request::Metrics, NOW) {
        Dispatch::Done { response: Response::Error { message } } => {
            assert_eq!(message, "metrics endpoint is disabled on this server")
        }
        other => panic!("unexpected dispatch {:?}", other),
    }
}

#[test]
fn compactions_are_counted() {
    let mut opts = QueueOptions::default();
    opts.max_wal_segment_size = 40;
    let mut node = Node::boot("a:1", &[], Files::default(), opts);
    node.server.raft.become_leader_for_test();
    let mut net = Net { nodes: vec![node], now: NOW };
    for _ in 0..2 {
        pushed_id(net.push(0, "q", b"0123456789"));
    }
    let text = match net.call(0, Request::Metrics) {
        Response::Metrics { prometheus_text } => prometheus_text,
        other => panic!("expected metrics, got {:?}", other),
    };
    assert_eq!(net.nodes[0].server.metrics.wal_compaction_count, 1);
    assert!(text.contains("walrq_wal_compaction_total 1\n"));
}

#[test]
fn drained_server_has_flushed_and_compacted() {
    let mut net = single("a:1");
    pushed_id(net.push(0, "q", b"x"));
    pushed_id(net.push(0, "q", b"y"));
    net.nodes[0].server.drain_and_flush();
    net.nodes[0].settle();
    assert_eq!(net.nodes[0].server.raft.log.len(), 0);
    assert_eq!(net.nodes[0].server.raft.snapshot_index, 2);
}

#[test]
fn only_accepted_acks_are_logged_and_told_to_the_peers() {
    let mut net = three(["a:1", "b:1", "c:1"]);
    for payload in [b"1", b"2", b"3"] {
        pushed_id(net.push(0, "q", payload));
    }
    let polled = net.poll(0, "q", 2);
    let item = |m: &Message, receipt: &str| AckItem {
        message_id: m.message_id.clone(),
        receipt_handle: receipt.to_string(),
    };
    let items = vec![
        item(&polled[0], "wrong"),
        item(&polled[1], &polled[1].receipt_handle),
        item(&polled[1], &polled[1].receipt_handle),
    ];
    match net.call(0, Request::AckBatch { queue_name: "q".to_string(), items }) {
        Response::AckBatch { acked_count } => assert_eq!(acked_count, 1),
        other => panic!("expected ack batch, got {:?}", other),
    }
    for node in &net.nodes {
        let raft = &node.server.raft;
        assert_eq!(raft.log.len(), 4);
        assert_eq!(raft.log[3].index, 4);
        assert_eq!(raft.engine.total_messages_in_ram(), 2);
    }
    assert_eq!(net.nodes[0].server.raft.commit_index, 4);
    let refused = vec![item(&polled[0], "wrong")];
    match net.call(0, Request::AckBatch { queue_name: "q".to_string(), items: refused }) {
        Response::AckBatch { acked_count } => assert_eq!(acked_count, 0),
        other => panic!("expected ack batch, got {:?}", other),
    }
    assert_eq!(net.nodes[0].server.raft.log.len(), 4);
    assert_eq!(net.nodes[0].server.raft.commit_index, 4);
    assert!(net.ack(0, "q", &polled[0]));
}

#[test]
fn leader_steps_down_for_a_later_term() {
    let mut net = single("n1");
    let raft = &mut net.nodes[0].server.raft;
    assert!(raft.is_leader());
    assert!(raft.handle_append_entries(0, "n2", 0, 0, Vec::new(), 0, NOW));
    assert!(raft.is_leader());
    assert!(raft.handle_append_entries(5, "n2", 0, 0, Vec::new(), 0, NOW));
    assert!(!raft.is_leader());
    assert!(!raft.is_leader_fast());
    assert_eq!(raft.current_leader.as_deref(), Some("n2"));
    assert_eq!(raft.current_term(), 5);
    assert!(!raft.handle_append_entries(4, "n3", 0, 0, Vec::new(), 0, NOW));
    assert_eq!(raft.leader_name(), "n2");

    let mut net = single("n1");
    let raft = &mut net.nodes[0].server.raft;
    let snapshot = Request::RaftInstallSnapshot {
        term: 2,
        leader_id: "n2".to_string(),
        last_included_index: 7,
        last_included_term: 1,
        items: Vec::new(),
    };
    assert!(raft.handle_install_snapshot(snapshot, NOW));
    assert!(!raft.is_leader());
    assert!(!raft.is_leader_fast());
    assert_eq!(raft.current_term(), 2);
}

#[test]
fn log_indices_follow_each_other_also_after_compactions() {
    let engine = QueueEngine::open(&[], &[], &[], QueueOptions::default(), NOW).unwrap();
    let mut raft = RaftNode::with_threshold("a:1".to_string(), Vec::new(), engine, 3);
    raft.become_leader_for_test();
    let mut last = 0;
    for n in 1..20usize {
        let items: Vec<(String, Vec<u8>, u64)> =
            (0..n % 4).map(|_| (String::new(), Vec::new(), 0)).collect();
        if let Some(proposal) = raft.propose_push_batch("q", items).unwrap() {
            raft.commit_push_batch(proposal, &vec![], NOW).unwrap();
        }
        last += (n % 4) as u64;
        assert_eq!(raft.commit_index, last);
        for (k, entry) in raft.log.iter().enumerate() {
            assert_eq!(entry.index, raft.snapshot_index + 1 + k as u64);
        }
        assert_eq!(raft.snapshot_index + raft.log.len() as u64, last);
        if n % 5 == 0 {
            raft.compact_log_snapshot();
            assert_eq!(raft.snapshot_index + raft.log.len() as u64, last);
        }
    }
}

#[test]
fn first_peer_is_waited_for_a_while() {
    assert!(wait_for_peer(0, 0));
    assert!(wait_for_peer(149, 0));
    assert!(!wait_for_peer(150, 0));
    assert!(!wait_for_peer(0, 1));
}

#[test]
fn new_leader_hands_out_what_was_pushed_and_not_acknowledged() {
    let mut net = three(["a:1", "b:1", "c:1"]);
    let mut expected = Vec::new();
    for i in 0..5 {
        expected.push(pushed_id(net.push(0, "q", format!("m{}", i).as_bytes())));
    }
    let polled = net.poll(0, "q", 2);
    assert!(net.ack(0, "q", &polled[1]));
    expected.remove(1);
    assert!(net.nodes[1].server.raft.log_delays_fit(NOW));
    net.nodes[1].server.raft.recover_as_new_leader(NOW);
    net.nodes[1].settle();
    let found: Vec<String> = net.poll(1, "q", 10).into_iter().map(|m| m.message_id).collect();
    assert_eq!(found, expected);
}

#[test]
fn new_leader_with_a_long_log_brings_back_no_acknowledged_message() {
    let mut net = three(["a:1", "b:1", "c:1"]);
    let mut expected = Vec::new();
    for i in 0..1100 {
        expected.push(pushed_id(net.push(0, "q", format!("m{}", i).as_bytes())));
    }
    let polled = net.poll(0, "q", 30);
    assert_eq!(polled.len(), 30);
    for m in &polled {
        assert!(net.ack(0, "q", m));
    }
    assert_eq!(net.nodes[1].server.raft.snapshot_index, 0);
    assert!(net.nodes[1].server.raft.log_delays_fit(NOW));
    net.nodes[1].server.raft.recover_as_new_leader(NOW);
    net.nodes[1].settle();
    let found: Vec<String> = net.poll(1, "q", 2000).into_iter().map(|m| m.message_id).collect();
    assert_eq!(found, expected[30..].to_vec());
}
