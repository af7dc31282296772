//! A cluster node: the replicated log, the leader's proposals, and what followers do with
//! them. Talking to the peers is left to the caller: proposals say what to send, and are
//! committed with the replies.
use vstd::hash_set::StringHashSet;
use vstd::prelude::*;
use vstd::utf8;

pub use crate::cluster::raft_model::RaftRole;

use crate::cluster::raft_model;
use crate::cluster::raft_model::{
    AckProposalView, ClientPush, CommandView, EnginePush, EntryView, PushProposalView, RaftView, ReplicationView,
};
use crate::engine::disk_log;
use crate::engine::disk_log::{DiskAction, DiskView, SegmentRead, Survivor};
use crate::engine::model;
use crate::engine::model::{EngineView, ScanView, NUM_SHARDS};
use crate::engine::queue;
use crate::engine::queue::{ColdScan, PushItem, QueueEngine, QueueError};
use crate::engine::registry;
use crate::engine::shard;
use crate::engine::shard::PolledMessage;
use crate::engine::single_queue::HOT_DELAY_HORIZON_SEC;
use crate::engine::wal;
use crate::ids;
use crate::ids::{format_id, parse_id, ulid_from_string, ulid_new, uuid_parse_str, uuid_to_string};
use crate::protocol::{AckItem, BatchPushItem, Request, SnapshotItem};
use crate::text;
use crate::text::{same_text, text_precedes};

verus! {

/// What the nodes agree on.
#[derive(Debug)]
pub enum RaftCommand {
    Push { queue: String, msg_id: String, payload: Vec<u8>, visible_at: u64 },
    Ack { queue: String, msg_id: String, receipt: String },
}

impl View for RaftCommand {
    type V = CommandView;

    open spec fn view(&self) -> CommandView {
        match *self {
            RaftCommand::Push { queue, msg_id, payload, visible_at } => CommandView::Push {
                queue: queue@,
                msg_id: msg_id@,
                payload: payload@,
                visible_at,
            },
            RaftCommand::Ack { queue, msg_id, receipt } => CommandView::Ack {
                queue: queue@,
                msg_id: msg_id@,
                receipt: receipt@,
            },
        }
    }
}

fn copy_bytes(data: &Vec<u8>) -> (res: Vec<u8>)
    ensures
        res@ == data@,
{
    let res: Vec<u8> = data.clone();
    proof {
        assert(res@ =~= data@);
    }
    res
}

impl Clone for RaftCommand {
    fn clone(&self) -> (res: Self)
        ensures
            res@ == self@,
    {
        match self {
            RaftCommand::Push { queue, msg_id, payload, visible_at } => RaftCommand::Push {
                queue: queue.clone(),
                msg_id: msg_id.clone(),
                payload: copy_bytes(payload),
                visible_at: *visible_at,
            },
            RaftCommand::Ack { queue, msg_id, receipt } => RaftCommand::Ack {
                queue: queue.clone(),
                msg_id: msg_id.clone(),
                receipt: receipt.clone(),
            },
        }
    }
}

/// One entry of the replicated log.
#[derive(Debug)]
pub struct LogEntry {
    pub term: u64,
    pub index: u64,
    pub command: RaftCommand,
}

impl View for LogEntry {
    type V = EntryView;

    open spec fn view(&self) -> EntryView {
        EntryView { term: self.term, index: self.index, command: self.command@ }
    }
}

impl Clone for LogEntry {
    fn clone(&self) -> (res: Self)
        ensures
            res@ == self@,
    {
        LogEntry { term: self.term, index: self.index, command: self.command.clone() }
    }
}

pub open spec fn entry_views(entries: Seq<LogEntry>) -> Seq<EntryView> {
    entries.map_values(|e: LogEntry| e@)
}

/// A log entry as it came over the wire, with its command if that could be decoded.
#[derive(Debug)]
pub struct ReceivedEntry {
    pub term: u64,
    pub index: u64,
    pub command: Option<RaftCommand>,
}

/// The entries whose commands could be decoded.
pub open spec fn decoded(entries: Seq<ReceivedEntry>) -> Seq<EntryView>
    decreases entries.len(),
{
    if entries.len() == 0 {
        Seq::empty()
    } else {
        let rest = decoded(entries.drop_last());
        let entry = entries.last();
        match entry.command {
            Some(command) => rest.push(
                EntryView { term: entry.term, index: entry.index, command: command@ },
            ),
            None => rest,
        }
    }
}

/// What is to be sent to each of the peers.
#[derive(Debug)]
pub struct Replication {
    pub peers: Vec<String>,
    pub term: u64,
    pub leader_id: String,
    pub prev_log_index: u64,
    pub prev_log_term: u64,
    pub entries: Vec<LogEntry>,
    pub leader_commit: u64,
}

impl View for Replication {
    type V = ReplicationView;

    open spec fn view(&self) -> ReplicationView {
        ReplicationView {
            peers: registry::text_views(self.peers@),
            term: self.term,
            leader_id: self.leader_id@,
            prev_log_index: self.prev_log_index,
            prev_log_term: self.prev_log_term,
            entries: entry_views(self.entries@),
            leader_commit: self.leader_commit,
        }
    }
}

/// A batch of pushes that was logged and waits for a quorum.
#[derive(Debug)]
pub struct PushProposal {
    queue: String,
    message_ids: Vec<String>,
    ids: Vec<u128>,
    items: Vec<PushItem>,
    last_index: u64,
    pub replication: Replication,
}

impl View for PushProposal {
    type V = PushProposalView;

    closed spec fn view(&self) -> PushProposalView {
        PushProposalView {
            queue: self.queue@,
            message_ids: registry::text_views(self.message_ids@),
            ids: self.ids@,
            items: queue::push_views(self.items@),
            last_index: self.last_index,
            replication: self.replication@,
        }
    }
}

impl PushProposal {
    /// There is an id for each message.
    pub open spec fn wf(&self) -> bool {
        self@.ids.len() == self@.items.len()
    }

    /// Whether the delays of the batch can all be added to the time.
    pub fn delays_fit(&self, now: u64) -> (res: bool)
        ensures
            res == forall|k: int|
                0 <= k < self@.items.len() ==> now + (#[trigger] self@.items[k]).delay_seconds
                    <= u64::MAX,
    {
        let mut i: usize = 0;
        while i < self.items.len()
            invariant
                i <= self.items.len(),
                forall|k: int|
                    0 <= k < i ==> now + (#[trigger] self@.items[k]).delay_seconds <= u64::MAX,
            decreases self.items.len() - i,
        {
            proof {
                assert(self@.items[i as int].delay_seconds == self.items@[i as int].delay_seconds);
            }
            if now > u64::MAX - self.items[i].delay_seconds {
                return false;
            }
            i += 1;
        }
        true
    }
}

/// A batch of acknowledgements that took effect and is told to the peers.
#[derive(Debug)]
pub struct AckProposal {
    acked_count: usize,
    last_index: u64,
    pub replication: Replication,
}

impl View for AckProposal {
    type V = AckProposalView;

    closed spec fn view(&self) -> AckProposalView {
        AckProposalView {
            acked_count: self.acked_count,
            last_index: self.last_index,
            replication: self.replication@,
        }
    }
}

pub open spec fn command_views(commands: Seq<RaftCommand>) -> Seq<CommandView> {
    commands.map_values(|c: RaftCommand| c@)
}

/// The mathematical content of a client's push.
pub open spec fn client_push(item: (String, Vec<u8>, u64)) -> ClientPush {
    ClientPush { id_text: item.0@, payload: item.1@, delay: item.2 }
}

pub open spec fn client_pushes(items: Seq<(String, Vec<u8>, u64)>) -> Seq<ClientPush> {
    items.map_values(|item: (String, Vec<u8>, u64)| client_push(item))
}

pub open spec fn batch_pushes(items: Seq<BatchPushItem>) -> Seq<ClientPush> {
    items.map_values(
        |item: BatchPushItem|
            ClientPush {
                id_text: item.message_id@,
                payload: item.payload@,
                delay: item.delay_seconds,
            },
    )
}

/// The id texts and receipts of acknowledgements.
pub open spec fn ack_pairs(items: Seq<AckItem>) -> Seq<(Seq<char>, Seq<char>)> {
    items.map_values(|item: AckItem| (item.message_id@, item.receipt_handle@))
}

pub open spec fn option_text(t: Option<String>) -> Option<Seq<char>> {
    match t {
        Some(s) => Some(s@),
        None => None,
    }
}

/// What proposing a batch of pushes comes to.
pub open spec fn push_proposed(
    pre: RaftView,
    queue: Seq<char>,
    items: Seq<ClientPush>,
    fresh: Seq<u128>,
    post: RaftView,
    res: Result<Option<PushProposal>, String>,
) -> bool {
    if pre.role != RaftRole::Leader {
        post == pre && (res matches Err(text) && text@ == "NOT_LEADER:"@ + pre.leader_name())
    } else if items.len() == 0 {
        post == pre && (res matches Ok(none) && none is None)
    } else {
        &&& post == pre.with_commands(RaftView::push_commands(queue, items, fresh))
        &&& res matches Ok(Some(proposal)) && proposal@ == pre.push_proposal(queue, items, fresh)
    }
}

/// What committing a batch of pushes comes to.
pub open spec fn push_committed(
    pre: RaftView,
    proposal: PushProposalView,
    replies: Seq<bool>,
    now: u64,
    post: RaftView,
    res: Result<Vec<String>, String>,
) -> bool {
    if raft_model::quorum_met(proposal.replication.peers.len(), replies) {
        &&& pre.commits_push_to(proposal, now, post)
        &&& res matches Ok(texts) && registry::text_views(texts@) == proposal.message_ids
    } else {
        &&& post == pre
        &&& res matches Err(text) && text@
            == "QUORUM_FAILED: Failed to replicate batch to majority quorum"@
    }
}

/// What proposing a batch of acknowledgements comes to: they take effect at once, and those
/// that took a message out of memory are logged and told to the peers, in order.
pub open spec fn ack_proposed(
    pre: RaftView,
    queue: Seq<char>,
    items: Seq<(Seq<char>, Seq<char>)>,
    now: u64,
    post: RaftView,
    res: Result<Option<AckProposal>, String>,
) -> bool {
    if pre.role != RaftRole::Leader {
        post == pre && (res matches Err(text) && text@ == "NOT_LEADER:"@ + pre.leader_name())
    } else {
        let accepted = pre.engine.accepted_acks(queue, items, now);
        let commands = RaftView::ack_commands(queue, accepted);
        exists|engine: EngineView| #[trigger]
            pre.engine.batch_acks_to(queue, items, now, engine) && if accepted.len() == 0 {
                post == (RaftView { engine, ..pre }) && (res matches Ok(none) && none is None)
            } else {
                &&& post == (RaftView { engine, ..pre }).with_commands(commands)
                &&& res matches Ok(Some(proposal)) && proposal@ == (AckProposalView {
                    acked_count: accepted.len() as usize,
                    last_index: (pre.next_index() + accepted.len() - 1) as u64,
                    replication: pre.replication(commands),
                })
            }
    }
}

/// The pushes that the items of a snapshot stand for; those whose id is no id are left out.
pub open spec fn snapshot_pushes(items: Seq<SnapshotItem>, now: u64) -> Seq<EnginePush>
    decreases items.len(),
{
    if items.len() == 0 {
        Seq::empty()
    } else {
        let rest = snapshot_pushes(items.drop_last(), now);
        let item = items.last();
        match raft_model::snapshot_push(
            item.id@,
            item.queue@,
            item.visible_at,
            item.payload@,
            now,
        ) {
            Some(push) => rest.push(push),
            None => rest,
        }
    }
}

/// The node after a snapshot from its leader.
pub open spec fn snapshot_installed(
    pre: RaftView,
    term: u64,
    leader_id: Seq<char>,
    last_index: u64,
    last_term: u64,
    items: Seq<SnapshotItem>,
    now: u64,
    post: RaftView,
) -> bool {
    exists|engine: EngineView| #[trigger]
        raft_model::pushes_all_to(
            pre.engine.cleared(),
            snapshot_pushes(items, now),
            now,
            engine,
        ) && post == (RaftView {
            snapshot_index: last_index,
            snapshot_term: last_term,
            commit_index: last_index,
            engine,
            log: raft_model::entries_after(pre.log, last_index),
            ..pre.following(term, leader_id)
        })
}

/// The node after entries from its leader.
pub open spec fn entries_appended(
    pre: RaftView,
    term: u64,
    leader_id: Seq<char>,
    entries: Seq<EntryView>,
    now: u64,
    post: RaftView,
) -> bool {
    exists|engine: EngineView| #[trigger]
        raft_model::entries_lead_to(pre.engine, entries, now, engine) && post == (RaftView {
            engine,
            log: pre.log + entries,
            ..pre.following(term, leader_id)
        }).trimmed()
}

proof fn lemma_decoded_prefix(entries: Seq<ReceivedEntry>, i: int)
    requires
        0 <= i <= entries.len(),
    ensures
        decoded(entries.take(i)).is_prefix_of(decoded(entries)),
    decreases entries.len(),
{
    if i == entries.len() {
        assert(entries.take(i) =~= entries);
    } else {
        lemma_decoded_prefix(entries.drop_last(), i);
        assert(entries.drop_last().take(i) =~= entries.take(i));
    }
}

/// The item of a snapshot stands for this message.
pub open spec fn is_snapshot_item(m: disk_log::SurvivorView, item: SnapshotItem) -> bool {
    &&& item.id@ == ids::ulid_text(m.id)
    &&& item.queue@ == m.queue
    &&& item.visible_at == m.visible_at
    &&& item.payload@ == m.payload
}

/// The request installs these messages as the node's snapshot.
pub open spec fn is_snapshot_request(
    node: RaftView,
    list: Seq<disk_log::SurvivorView>,
    request: Request,
) -> bool {
    match request {
        Request::RaftInstallSnapshot {
            term,
            leader_id,
            last_included_index,
            last_included_term,
            items,
        } => {
            &&& term == node.current_term
            &&& leader_id@ == node.node_id
            &&& last_included_index == node.snapshot_index
            &&& last_included_term == node.snapshot_term
            &&& items@.len() == list.len()
            &&& forall|k: int|
                0 <= k < list.len() ==> is_snapshot_item(list[k], #[trigger] items@[k])
        },
        _ => false,
    }
}

/// What is due on a tick of the clock.
#[derive(Debug)]
pub enum TickAction {
    /// The node was stopped.
    Stop,
    /// The peers are to be told that the leader is alive.
    Heartbeat(Replication),
    /// The node made itself the leader.
    Elected,
    Nothing,
}

/// What a node does from time to time.
pub open spec fn ticked(pre: RaftView, now: u64, post: RaftView, action: TickAction) -> bool {
    if !pre.is_running {
        action is Stop && post == pre
    } else if pre.role == RaftRole::Leader {
        (action matches TickAction::Heartbeat(r) && r@ == pre.heartbeat()) && post == pre
    } else if pre.current_leader is None && pre.is_first() {
        action is Elected && pre.takes_over_to(now, post)
    } else {
        action is Nothing && post == pre
    }
}

/// What a node sends to a peer that is to have all that it has: its messages as a snapshot, and
/// its log, if there is one.
pub open spec fn is_sync_plan(
    node: RaftView,
    peer: Seq<char>,
    request: Request,
    replication: Option<Replication>,
) -> bool {
    &&& exists|list: Seq<disk_log::SurvivorView>| #[trigger]
        model::lists_shards(node.engine.shards, NUM_SHARDS as nat, list) && is_snapshot_request(
            node,
            list,
            request,
        )
    &&& match replication {
        None => node.log.len() == 0,
        Some(r) => node.log.len() > 0 && r@ == (ReplicationView {
            peers: seq![peer],
            term: node.current_term,
            leader_id: node.node_id,
            prev_log_index: node.snapshot_index,
            prev_log_term: node.snapshot_term,
            entries: node.log,
            leader_commit: node.commit_index,
        }),
    }
}

/// A node of a cluster and its queue engine.
pub struct RaftNode {
    pub node_id: String,
    pub peers: Vec<String>,
    pub role: RaftRole,
    pub current_term: u64,
    pub current_leader: Option<String>,
    pub log: Vec<LogEntry>,
    pub commit_index: u64,
    pub snapshot_index: u64,
    pub snapshot_term: u64,
    pub engine: QueueEngine,
    pub is_running: bool,
    pub compaction_threshold: u64,
    is_leader_cached: bool,
}

impl View for RaftNode {
    type V = RaftView;

    closed spec fn view(&self) -> RaftView {
        RaftView {
            node_id: self.node_id@,
            peers: registry::text_views(self.peers@),
            role: self.role,
            current_term: self.current_term,
            current_leader: option_text(self.current_leader),
            log: entry_views(self.log@),
            commit_index: self.commit_index,
            snapshot_index: self.snapshot_index,
            snapshot_term: self.snapshot_term,
            engine: self.engine@,
            is_running: self.is_running,
            compaction_threshold: self.compaction_threshold,
            is_leader_cached: self.is_leader_cached,
        }
    }
}

fn copy_texts(texts: &Vec<String>) -> (res: Vec<String>)
    ensures
        registry::text_views(res@) == registry::text_views(texts@),
{
    let mut res: Vec<String> = Vec::new();
    let mut i: usize = 0;
    while i < texts.len()
        invariant
            i <= texts.len(),
            res@.len() == i,
            forall|k: int| 0 <= k < i ==> (#[trigger] res@[k])@ == texts@[k]@,
        decreases texts.len() - i,
    {
        res.push(texts[i].clone());
        i += 1;
    }
    proof {
        assert(registry::text_views(res@) =~= registry::text_views(texts@));
    }
    res
}

fn copy_entries(entries: &Vec<LogEntry>) -> (res: Vec<LogEntry>)
    ensures
        entry_views(res@) == entry_views(entries@),
{
    let mut res: Vec<LogEntry> = Vec::new();
    let mut i: usize = 0;
    while i < entries.len()
        invariant
            i <= entries.len(),
            res@.len() == i,
            forall|k: int| 0 <= k < i ==> (#[trigger] res@[k])@ == entries@[k]@,
        decreases entries.len() - i,
    {
        res.push(entries[i].clone());
        i += 1;
    }
    proof {
        assert(entry_views(res@) =~= entry_views(entries@));
    }
    res
}

/// Whether the leader and the peers that agreed are a majority.
pub fn quorum_reached(peers: usize, replies: &Vec<bool>) -> (res: bool)
    ensures
        res == raft_model::quorum_met(peers as nat, replies@),
{
    if peers == 0 {
        return true;
    }
    let needed: usize = peers / 2 + peers % 2;
    let mut agreed: usize = 0;
    let mut i: usize = 0;
    proof {
        assert(replies@.take(0) =~= Seq::empty());
    }
    while i < replies.len()
        invariant
            i <= replies.len(),
            agreed <= i,
            agreed == raft_model::count_true(replies@.take(i as int)),
        decreases replies.len() - i,
    {
        proof {
            assert(replies@.take(i + 1).drop_last() =~= replies@.take(i as int));
        }
        if replies[i] {
            agreed += 1;
        }
        i += 1;
    }
    proof {
        assert(replies@.take(i as int) =~= replies@);
    }
    agreed >= needed
}

impl RaftNode {
    pub closed spec fn wf(&self) -> bool {
        self.engine.wf()
    }

    pub fn new(node_id: String, peers: Vec<String>, engine: QueueEngine) -> (res: Self)
        requires
            engine.wf(),
        ensures
            res.wf(),
            res@ == RaftView::new(node_id@, registry::text_views(peers@), engine@, 10_000),
    {
        Self::with_threshold(node_id, peers, engine, 10_000)
    }

    pub fn with_threshold(
        node_id: String,
        peers: Vec<String>,
        engine: QueueEngine,
        compaction_threshold: u64,
    ) -> (res: Self)
        requires
            engine.wf(),
        ensures
            res.wf(),
            res@ == RaftView::new(
                node_id@,
                registry::text_views(peers@),
                engine@,
                compaction_threshold,
            ),
    {
        let res = RaftNode {
            node_id,
            peers,
            role: RaftRole::Follower,
            current_term: 0,
            current_leader: None,
            log: Vec::new(),
            commit_index: 0,
            snapshot_index: 0,
            snapshot_term: 0,
            engine,
            is_running: true,
            compaction_threshold,
            is_leader_cached: false,
        };
        proof {
            assert(res@ =~= RaftView::new(
                node_id@,
                registry::text_views(peers@),
                engine@,
                compaction_threshold,
            ));
        }
        res
    }

    /// The leader's name, or an empty text.
    pub fn leader_name(&self) -> (name: String)
        ensures
            name@ == self@.leader_name(),
    {
        match &self.current_leader {
            Some(name) => name.clone(),
            None => String::new(),
        }
    }

    fn next_index(&self) -> (index: u64)
        requires
            self@.next_index() <= u64::MAX,
        ensures
            index == self@.next_index(),
    {
        let n: usize = self.log.len();
        if n > 0 {
            proof {
                assert(self@.log.last() == self.log@[n - 1]@);
            }
            self.log[n - 1].index + 1
        } else {
            self.snapshot_index + 1
        }
    }

    /// Whether the log has indices left for `n` more entries.
    pub fn has_index_room(&self, n: usize) -> (res: bool)
        ensures
            res == (self@.next_index() + n <= u64::MAX),
    {
        let len: usize = self.log.len();
        let last: u64 = if len > 0 {
            proof {
                assert(self@.log.last() == self.log@[len - 1]@);
            }
            self.log[len - 1].index
        } else {
            self.snapshot_index
        };
        let room: u64 = u64::MAX - last;
        room > 0 && room - 1 >= n as u64
    }

    /// Puts commands at the end of the log, and says what to send to the peers.
    fn append_commands(&mut self, commands: Vec<RaftCommand>) -> (replication: Replication)
        requires
            old(self).wf(),
            old(self)@.next_index() + commands@.len() <= u64::MAX,
        ensures
            final(self).wf(),
            final(self)@ == old(self)@.with_commands(command_views(commands@)),
            replication@ == old(self)@.replication(command_views(commands@)),
    {
        let ghost views = command_views(commands@);
        let ghost added = old(self)@.new_entries(views);
        let start: u64 = self.next_index();
        let mut entries: Vec<LogEntry> = Vec::new();
        let mut offset: u64 = 0;
        proof {
            assert(self@.log =~= old(self)@.log + added.take(0));
            assert(entry_views(entries@) =~= added.take(0));
        }
        for command in it: commands
            invariant
                self.wf(),
                offset == it.index(),
                views == command_views(it.seq()),
                added == old(self)@.new_entries(views),
                start == old(self)@.next_index(),
                start + views.len() <= u64::MAX,
                self@ == (RaftView { log: self@.log, ..old(self)@ }),
                self@.log == old(self)@.log + added.take(offset as int),
                entry_views(entries@) == added.take(offset as int),
        {
            let ghost log = self@.log;
            let ghost sent = entries@;
            let entry = LogEntry { term: self.current_term, index: start + offset, command };
            entries.push(entry.clone());
            let ghost view = entry@;
            proof {
                assert(views[offset as int] == command@);
                assert(view == added[offset as int]);
            }
            self.log.push(entry);
            proof {
                assert(self@.log =~= log.push(view));
                assert(added.take(offset + 1) =~= added.take(offset as int).push(view));
                assert(log.push(view) =~= old(self)@.log + added.take(offset + 1));
                assert(entry_views(entries@) =~= entry_views(sent).push(view));
            }
            offset += 1;
        }
        proof {
            assert(added.take(added.len() as int) =~= added);
            assert(self@ =~= old(self)@.with_commands(views));
        }
        Replication {
            peers: copy_texts(&self.peers),
            term: self.current_term,
            leader_id: self.node_id.clone(),
            prev_log_index: start - 1,
            prev_log_term: self.current_term,
            entries,
            leader_commit: self.commit_index,
        }
    }

    fn not_leader(&self) -> (text: String)
        ensures
            text@ == "NOT_LEADER:"@ + self@.leader_name(),
    {
        let mut text: String = "NOT_LEADER:".to_owned();
        text.append(self.leader_name().as_str());
        text
    }

    /// The id that a client's text leads to, as text and as number.
    fn resolve_id(id_text: String, fresh: u128) -> (res: (String, u128))
        ensures
            (res.0@, res.1) == raft_model::resolve_id(id_text@, fresh),
    {
        let own: Option<u128> = if id_text.as_str().is_empty() {
            None
        } else if id_text.as_str().as_bytes().len() == 26 {
            match ulid_from_string(id_text.as_str()) {
                Ok(id) => Some(id),
                Err(_) => None,
            }
        } else {
            uuid_parse_str(id_text.as_str())
        };
        match own {
            Some(id) => (id_text, id),
            None => (format_id(fresh), fresh),
        }
    }

    /// Logs a batch of pushes, those without a usable id under fresh ones. The proposal
    /// says what to send to the peers; it is committed with their replies. Only the leader
    /// takes proposals. An empty batch is no proposal.
    pub fn propose_push_batch(
        &mut self,
        queue: &str,
        items: Vec<(String, Vec<u8>, u64)>,
    ) -> (res: Result<Option<PushProposal>, String>)
        requires
            old(self).wf(),
            old(self)@.next_index() + items@.len() <= u64::MAX,
        ensures
            final(self).wf(),
            exists|fresh: Seq<u128>|
                fresh.len() == items@.len() && #[trigger] push_proposed(
                    old(self)@,
                    queue@,
                    client_pushes(items@),
                    fresh,
                    final(self)@,
                    res,
                ),
    {
        let mut fresh: Vec<u128> = Vec::new();
        while fresh.len() < items.len()
            invariant
                fresh.len() <= items.len(),
            decreases items.len() - fresh.len(),
        {
            fresh.push(ulid_new());
        }
        self.propose_push_batch_with(queue, items, &fresh)
    }

    /// Logs a batch of pushes, with the fresh ids to use where one is needed.
    pub fn propose_push_batch_with(
        &mut self,
        queue: &str,
        items: Vec<(String, Vec<u8>, u64)>,
        fresh: &Vec<u128>,
    ) -> (res: Result<Option<PushProposal>, String>)
        requires
            old(self).wf(),
            fresh@.len() == items@.len(),
            old(self)@.next_index() + items@.len() <= u64::MAX,
        ensures
            final(self).wf(),
            push_proposed(
                old(self)@,
                queue@,
                client_pushes(items@),
                fresh@,
                final(self)@,
                res,
            ),
    {
        if self.role != RaftRole::Leader {
            return Err(self.not_leader());
        }
        if items.is_empty() {
            return Ok(None);
        }
        let ghost views = client_pushes(items@);
        let ghost target = old(self)@.push_proposal(queue@, views, fresh@);
        let ghost wanted = RaftView::push_commands(queue@, views, fresh@);
        let n: usize = items.len();
        let mut message_ids: Vec<String> = Vec::new();
        let mut ids: Vec<u128> = Vec::new();
        let mut push_items: Vec<PushItem> = Vec::new();
        let mut commands: Vec<RaftCommand> = Vec::new();
        let mut i: usize = 0;
        for item in it: items
            invariant
                i == it.index(),
                fresh.len() == it.seq().len(),
                views == client_pushes(it.seq()),
                target == old(self)@.push_proposal(queue@, views, fresh@),
                wanted == RaftView::push_commands(queue@, views, fresh@),
                message_ids@.len() == i,
                ids@.len() == i,
                push_items@.len() == i,
                commands@.len() == i,
                forall|k: int|
                    0 <= k < i ==> (#[trigger] message_ids@[k])@ == target.message_ids[k],
                forall|k: int| 0 <= k < i ==> (#[trigger] ids@[k]) == target.ids[k],
                forall|k: int|
                    0 <= k < i ==> (#[trigger] push_items@[k]).payload@ == target.items[k].payload
                        && push_items@[k].delay_seconds == target.items[k].delay_seconds,
                forall|k: int| 0 <= k < i ==> (#[trigger] commands@[k])@ == wanted[k],
        {
            let (id_text, payload, delay) = item;
            proof {
                assert(views[i as int] == (ClientPush {
                    id_text: id_text@,
                    payload: payload@,
                    delay,
                }));
            }
            let (message_id, id) = Self::resolve_id(id_text, fresh[i]);
            message_ids.push(message_id.clone());
            ids.push(id);
            push_items.push(
                PushItem { id: Some(id), payload: copy_bytes(&payload), delay_seconds: delay },
            );
            commands.push(
                RaftCommand::Push {
                    queue: queue.to_owned(),
                    msg_id: message_id,
                    payload,
                    visible_at: delay,
                },
            );
            i += 1;
        }
        proof {
            assert(command_views(commands@) =~= wanted);
        }
        let start: u64 = self.next_index();
        let replication: Replication = self.append_commands(commands);
        let proposal = PushProposal {
            queue: queue.to_owned(),
            message_ids,
            ids,
            items: push_items,
            last_index: start + (n as u64 - 1),
            replication,
        };
        proof {
            assert(registry::text_views(message_ids@) =~= target.message_ids);
            assert(ids@ =~= target.ids);
            assert(queue::push_views(push_items@) =~= target.items);
            assert(proposal@ == target);
        }
        Ok(Some(proposal))
    }

    /// Commits a batch of pushes, given the replies of the peers, and returns the ids of
    /// the messages. Without a majority the batch stays in the log and nothing is pushed.
    pub fn commit_push_batch(
        &mut self,
        proposal: PushProposal,
        replies: &Vec<bool>,
        now: u64,
    ) -> (res: Result<Vec<String>, String>)
        requires
            old(self).wf(),
            proposal.wf(),
            now + HOT_DELAY_HORIZON_SEC <= u64::MAX,
            forall|k: int|
                0 <= k < proposal@.items.len() ==> now + (
                #[trigger] proposal@.items[k]).delay_seconds <= u64::MAX,
        ensures
            final(self).wf(),
            push_committed(old(self)@, proposal@, replies@, now, final(self)@, res),
    {
        if !quorum_reached(proposal.replication.peers.len(), replies) {
            return Err("QUORUM_FAILED: Failed to replicate batch to majority quorum".to_owned());
        }
        let PushProposal { queue, message_ids, ids, items, last_index, replication: _ } = proposal;
        self.commit_index = last_index;
        proof {
            assert forall|k: int| 0 <= k < items@.len() implies now + (
            #[trigger] items@[k]).delay_seconds <= u64::MAX by {
                assert(proposal@.items[k].delay_seconds == items@[k].delay_seconds);
            }
        }
        let _pushed = self.engine.push_batch_with_ids(queue.as_str(), &ids, items, now);
        let ghost engine = self.engine@;
        proof {
            assert(self@ =~= RaftView { commit_index: last_index, engine, ..old(self)@ });
            assert(old(self)@.engine.batch_pushes_to(
                proposal@.queue,
                proposal@.ids,
                proposal@.items,
                now,
                engine,
            ));
        }
        self.compact_if_due(last_index);
        proof {
            assert(old(self)@.commits_push_to(proposal@, now, self@));
        }
        Ok(message_ids)
    }

    fn compact_if_due(&mut self, last_index: u64)
        requires
            old(self).wf(),
        ensures
            final(self).wf(),
            final(self)@ == old(self)@.compacted_if_due(last_index),
    {
        if self.compaction_threshold > 0 && last_index % self.compaction_threshold == 0 {
            self.compact_log_snapshot();
        }
    }

    /// Drops the first `n` entries of the log; the snapshot ends with the last of them.
    fn drop_entries(&mut self, n: usize)
        requires
            old(self).wf(),
            0 < n <= old(self)@.log.len(),
        ensures
            final(self).wf(),
            final(self)@ == (RaftView {
                log: old(self)@.log.skip(n as int),
                snapshot_index: old(self)@.log[n - 1].index,
                snapshot_term: old(self)@.log[n - 1].term,
                ..old(self)@
            }),
    {
        self.snapshot_index = self.log[n - 1].index;
        self.snapshot_term = self.log[n - 1].term;
        let tail: Vec<LogEntry> = self.log.split_off(n);
        self.log = tail;
        proof {
            assert(self@.log =~= old(self)@.log.skip(n as int));
            assert(self@ =~= RaftView {
                log: old(self)@.log.skip(n as int),
                snapshot_index: old(self)@.log[n - 1].index,
                snapshot_term: old(self)@.log[n - 1].term,
                ..old(self)@
            });
        }
    }

    /// Drops the committed beginning of the log.
    pub fn compact_log_snapshot(&mut self)
        requires
            old(self).wf(),
        ensures
            final(self).wf(),
            final(self)@ == old(self)@.compacted(),
    {
        if self.log.len() > 0 && self.commit_index > self.log[0].index {
            let ghost log = self@.log;
            let mut n: usize = self.log.len();
            proof {
                assert(log.take(n as int) =~= log);
                assert(log[0] == self.log@[0]@);
            }
            while self.log[n - 1].index > self.commit_index
                invariant
                    0 < n <= self.log.len(),
                    log == entry_views(self.log@),
                    log[0].index < self.commit_index,
                    raft_model::committed_len(log, self.commit_index) == raft_model::committed_len(
                        log.take(n as int),
                        self.commit_index,
                    ),
                decreases n,
            {
                proof {
                    assert(log[n - 1] == self.log@[n - 1]@);
                    assert(log.take(n as int).last() == log[n - 1]);
                    assert(log.take(n as int).drop_last() =~= log.take(n - 1));
                }
                n -= 1;
            }
            proof {
                assert(log[n - 1] == self.log@[n - 1]@);
                assert(log.take(n as int).last() == log[n - 1]);
            }
            self.drop_entries(n);
        }
    }

    /// Logs one push; see [`RaftNode::propose_push_batch`].
    pub fn propose_push_str(
        &mut self,
        queue: &str,
        msg_id: &str,
        payload: Vec<u8>,
        delay_sec: u64,
    ) -> (res: Result<Option<PushProposal>, String>)
        requires
            old(self).wf(),
            old(self)@.next_index() + 1 <= u64::MAX,
        ensures
            final(self).wf(),
            exists|fresh: u128| #[trigger]
                push_proposed(
                    old(self)@,
                    queue@,
                    seq![ClientPush { id_text: msg_id@, payload: payload@, delay: delay_sec }],
                    seq![fresh],
                    final(self)@,
                    res,
                ),
    {
        let mut items: Vec<(String, Vec<u8>, u64)> = Vec::new();
        items.push((msg_id.to_owned(), payload, delay_sec));
        let mut fresh: Vec<u128> = Vec::new();
        let id: u128 = ulid_new();
        fresh.push(id);
        proof {
            assert(client_pushes(items@) =~= seq![
                ClientPush { id_text: msg_id@, payload: payload@, delay: delay_sec },
            ]);
            assert(fresh@ =~= seq![id]);
        }
        self.propose_push_batch_with(queue, items, &fresh)
    }

    /// Logs one push without delay under the number of a UUID.
    pub fn propose_push(&mut self, queue: &str, msg_id: u128, payload: Vec<u8>) -> (res: Result<
        Option<PushProposal>,
        String,
    >)
        requires
            old(self).wf(),
            old(self)@.next_index() + 1 <= u64::MAX,
        ensures
            final(self).wf(),
            exists|fresh: u128| #[trigger]
                push_proposed(
                    old(self)@,
                    queue@,
                    seq![ClientPush {
                        id_text: ids::uuid_text(msg_id),
                        payload: payload@,
                        delay: 0,
                    }],
                    seq![fresh],
                    final(self)@,
                    res,
                ),
    {
        let text: String = uuid_to_string(msg_id);
        self.propose_push_str(queue, text.as_str(), payload, 0)
    }

    /// Logs a batch of pushes as it came from a client.
    pub fn propose_push_batch_items(&mut self, queue: &str, items: Vec<BatchPushItem>) -> (res:
        Result<Option<PushProposal>, String>)
        requires
            old(self).wf(),
            old(self)@.next_index() + items@.len() <= u64::MAX,
        ensures
            final(self).wf(),
            exists|fresh: Seq<u128>|
                fresh.len() == items@.len() && #[trigger] push_proposed(
                    old(self)@,
                    queue@,
                    batch_pushes(items@),
                    fresh,
                    final(self)@,
                    res,
                ),
    {
        let ghost views = batch_pushes(items@);
        let mut pairs: Vec<(String, Vec<u8>, u64)> = Vec::new();
        for item in it: items
            invariant
                views == batch_pushes(it.seq()),
                pairs@.len() == it.index(),
                forall|k: int|
                    0 <= k < pairs@.len() ==> client_push(#[trigger] pairs@[k]) == views[k],
        {
            let ghost k = it.index() as int;
            proof {
                assert(views[k] == (ClientPush {
                    id_text: item.message_id@,
                    payload: item.payload@,
                    delay: item.delay_seconds,
                }));
            }
            pairs.push((item.message_id, item.payload, item.delay_seconds));
        }
        proof {
            assert(client_pushes(pairs@) =~= views);
        }
        self.propose_push_batch(queue, pairs)
    }

    /// Commits one push, given the replies of the peers, and returns its id.
    pub fn commit_push(&mut self, proposal: PushProposal, replies: &Vec<bool>, now: u64) -> (res:
        Result<String, String>)
        requires
            old(self).wf(),
            proposal.wf(),
            now + HOT_DELAY_HORIZON_SEC <= u64::MAX,
            forall|k: int|
                0 <= k < proposal@.items.len() ==> now + (
                #[trigger] proposal@.items[k]).delay_seconds <= u64::MAX,
        ensures
            final(self).wf(),
            if raft_model::quorum_met(proposal@.replication.peers.len(), replies@) {
                &&& old(self)@.commits_push_to(proposal@, now, final(self)@)
                &&& res matches Ok(text) && text@ == if proposal@.message_ids.len() > 0 {
                    proposal@.message_ids[0]
                } else {
                    Seq::empty()
                }
            } else {
                &&& final(self)@ == old(self)@
                &&& res matches Err(text) && text@
                    == "QUORUM_FAILED: Failed to replicate batch to majority quorum"@
            },
    {
        let ghost wanted = proposal@.message_ids;
        match self.commit_push_batch(proposal, replies, now) {
            Ok(texts) => {
                if texts.len() > 0 {
                    proof {
                        assert(wanted[0] == texts@[0]@);
                    }
                    Ok(texts[0].clone())
                } else {
                    Ok(String::new())
                }
            },
            Err(text) => Err(text),
        }
    }

    /// Acknowledges a batch of messages and logs the acknowledgements that took a message out
    /// of memory. The proposal says what to send to the peers. Where no message was taken out
    /// there is no proposal.
    pub fn propose_ack_batch(&mut self, queue: &str, items: Vec<(String, String)>, now: u64) -> (res:
        Result<Option<AckProposal>, String>)
        requires
            old(self).wf(),
            old(self)@.next_index() + items@.len() <= u64::MAX,
        ensures
            final(self).wf(),
            ack_proposed(
                old(self)@,
                queue@,
                queue::pair_views(items@),
                now,
                final(self)@,
                res,
            ),
    {
        if self.role != RaftRole::Leader {
            return Err(self.not_leader());
        }
        let ghost views = queue::pair_views(items@);
        let ghost before = self.engine@;
        let ghost listed = before.accepted_acks(queue@, views, now);
        let accepted: Vec<bool> = self.engine.ack_each(queue, &items, now);
        let ghost engine = self.engine@;
        let ghost acked = RaftView { engine, ..old(self)@ };
        let mut commands: Vec<RaftCommand> = Vec::new();
        let mut i: usize = 0;
        proof {
            assert(self@ =~= acked);
            assert(before.batch_acks_to(queue@, views, now, engine));
            assert(views.take(0) =~= Seq::empty());
            assert(command_views(commands@) =~= RaftView::ack_commands(
                queue@,
                before.accepted_acks(queue@, views.take(0), now),
            ));
        }
        for item in it: items
            invariant
                views == queue::pair_views(it.seq()),
                i == it.index(),
                commands@.len() <= i <= accepted.len() == it.seq().len(),
                forall|k: int|
                    0 <= k < accepted@.len() ==> (#[trigger] accepted@[k]
                        == before.ack_is_accepted(queue@, views, k, now)),
                command_views(commands@) == RaftView::ack_commands(
                    queue@,
                    before.accepted_acks(queue@, views.take(i as int), now),
                ),
        {
            let (msg_id, receipt) = item;
            let ghost head = before.accepted_acks(queue@, views.take(i as int), now);
            let ghost prior = commands@;
            proof {
                assert(views[it.index() as int] == (msg_id@, receipt@));
                assert(views.take(i + 1).drop_last() =~= views.take(i as int));
                assert(views.take(i + 1).last() == views[i as int]);
            }
            if accepted[i] {
                commands.push(RaftCommand::Ack { queue: queue.to_owned(), msg_id, receipt });
                proof {
                    let command = CommandView::Ack {
                        queue: queue@,
                        msg_id: msg_id@,
                        receipt: receipt@,
                    };
                    assert(command_views(commands@) =~= command_views(prior).push(command));
                    assert(RaftView::ack_commands(queue@, head.push((msg_id@, receipt@)))
                        =~= RaftView::ack_commands(queue@, head).push(command));
                }
            }
            i += 1;
        }
        proof {
            assert(views.take(i as int) =~= views);
            assert(command_views(commands@).len() == listed.len());
        }
        let n: usize = commands.len();
        if n == 0 {
            return Ok(None);
        }
        let ghost wanted = RaftView::ack_commands(queue@, listed);
        proof {
            assert(acked.next_index() == old(self)@.next_index());
            assert(acked.new_entries(wanted) =~= old(self)@.new_entries(wanted));
        }
        let start: u64 = self.next_index();
        let replication: Replication = self.append_commands(commands);
        Ok(
            Some(AckProposal { acked_count: n, last_index: start + (n as u64 - 1), replication }),
        )
    }

    /// Acknowledges a batch of messages as it came from a client.
    pub fn propose_ack_batch_items(&mut self, queue: &str, items: Vec<AckItem>, now: u64) -> (res:
        Result<Option<AckProposal>, String>)
        requires
            old(self).wf(),
            old(self)@.next_index() + items@.len() <= u64::MAX,
        ensures
            final(self).wf(),
            ack_proposed(old(self)@, queue@, ack_pairs(items@), now, final(self)@, res),
    {
        let ghost views = ack_pairs(items@);
        let mut pairs: Vec<(String, String)> = Vec::new();
        for item in it: items
            invariant
                views == ack_pairs(it.seq()),
                pairs@.len() == it.index(),
                forall|k: int|
                    0 <= k < pairs@.len() ==> ((#[trigger] pairs@[k]).0@, pairs@[k].1@) == views[k],
        {
            proof {
                assert(views[it.index() as int] == (item.message_id@, item.receipt_handle@));
            }
            pairs.push((item.message_id, item.receipt_handle));
        }
        proof {
            assert(queue::pair_views(pairs@) =~= views);
        }
        self.propose_ack_batch(queue, pairs, now)
    }

    /// Acknowledges one message and logs it.
    pub fn propose_ack(
        &mut self,
        queue: &str,
        message_id_str: &str,
        receipt: &str,
        now: u64,
    ) -> (res: Result<Option<AckProposal>, String>)
        requires
            old(self).wf(),
            old(self)@.next_index() + 1 <= u64::MAX,
        ensures
            final(self).wf(),
            ack_proposed(
                old(self)@,
                queue@,
                seq![(message_id_str@, receipt@)],
                now,
                final(self)@,
                res,
            ),
    {
        let mut items: Vec<(String, String)> = Vec::new();
        items.push((message_id_str.to_owned(), receipt.to_owned()));
        proof {
            assert(queue::pair_views(items@) =~= seq![(message_id_str@, receipt@)]);
        }
        self.propose_ack_batch(queue, items, now)
    }

    /// Commits a batch of acknowledgements and returns how many were accepted. What the peers reply does not matter: the acknowledgements have taken effect.
    pub fn commit_ack_batch(&mut self, proposal: AckProposal) -> (acked_count: usize)
        requires
            old(self).wf(),
        ensures
            final(self).wf(),
            acked_count == proposal@.acked_count,
            final(self)@ == (RaftView {
                commit_index: proposal@.last_index,
                ..old(self)@
            }).compacted_if_due(proposal@.last_index),
    {
        self.commit_index = proposal.last_index;
        proof {
            assert(self@ =~= RaftView { commit_index: proposal.last_index, ..old(self)@ });
        }
        self.compact_if_due(proposal.last_index);
        proposal.acked_count
    }

    /// Votes for a candidate of a later term, and follows it.
    pub fn handle_vote(
        &mut self,
        term: u64,
        candidate_id: &str,
        _last_log_index: u64,
        _last_log_term: u64,
    ) -> (granted: bool)
        requires
            old(self).wf(),
        ensures
            final(self).wf(),
            granted == (term > old(self)@.current_term),
            final(self)@ == if granted {
                (RaftView {
                    current_term: term,
                    role: RaftRole::Follower,
                    is_leader_cached: false,
                    current_leader: Some(candidate_id@),
                    ..old(self)@
                })
            } else {
                old(self)@
            },
    {
        if term > self.current_term {
            self.current_term = term;
            self.role = RaftRole::Follower;
            self.is_leader_cached = false;
            self.current_leader = Some(candidate_id.to_owned());
            proof {
                assert(self@ =~= RaftView {
                    current_term: term,
                    role: RaftRole::Follower,
                    is_leader_cached: false,
                    current_leader: Some(candidate_id@),
                    ..old(self)@
                });
            }
            true
        } else {
            false
        }
    }

    /// Pushes a message to the engine under the id that a text stands for; without one
    /// nothing happens.
    fn push_text_id(
        &mut self,
        queue: &str,
        id_text: &str,
        payload: Vec<u8>,
        delay: u64,
        now: u64,
    )
        requires
            old(self).wf(),
            now + delay <= u64::MAX,
            now + HOT_DELAY_HORIZON_SEC <= u64::MAX,
        ensures
            final(self).wf(),
            final(self)@ == (RaftView { engine: final(self)@.engine, ..old(self)@ }),
            match ids::id_value(id_text@) {
                Some(id) => old(self)@.engine.pushes_to(
                    queue@,
                    id,
                    payload@,
                    (now + delay) as u64,
                    now,
                    final(self)@.engine,
                ),
                None => final(self)@ == old(self)@,
            },
    {
        match parse_id(id_text) {
            Some(id) => {
                let _pushed = self.engine.push_with_ulid(queue, id, payload, delay, now);
                proof {
                    assert(self@ =~= RaftView { engine: self.engine@, ..old(self)@ });
                }
            },
            None => {},
        }
    }

    /// Follows a leader. A later term than its own makes the node a follower, whatever it
    /// was.
    fn follow(&mut self, term: u64, leader_id: &str)
        requires
            old(self).wf(),
        ensures
            final(self).wf(),
            final(self)@ == old(self)@.following(term, leader_id@),
    {
        self.current_leader = Some(leader_id.to_owned());
        if term > self.current_term {
            self.current_term = term;
            self.role = RaftRole::Follower;
            self.is_leader_cached = false;
        }
        proof {
            assert(self@ =~= old(self)@.following(term, leader_id@));
        }
    }

    /// Takes over the state that the leader sent, unless the leader's term is over. Any
    /// other request is turned down.
    pub fn handle_install_snapshot(&mut self, req: Request, now: u64) -> (installed: bool)
        requires
            old(self).wf(),
            now + HOT_DELAY_HORIZON_SEC <= u64::MAX,
        ensures
            final(self).wf(),
            match req {
                Request::RaftInstallSnapshot {
                    term,
                    leader_id,
                    last_included_index,
                    last_included_term,
                    items,
                } => {
                    &&& installed == (term >= old(self)@.current_term)
                    &&& if installed {
                        snapshot_installed(
                            old(self)@,
                            term,
                            leader_id@,
                            last_included_index,
                            last_included_term,
                            items@,
                            now,
                            final(self)@,
                        )
                    } else {
                        final(self)@ == old(self)@
                    }
                },
                _ => !installed && final(self)@ == old(self)@,
            },
    {
        match req {
            Request::RaftInstallSnapshot {
                term,
                leader_id,
                last_included_index,
                last_included_term,
                items,
            } => {
                if term < self.current_term {
                    return false;
                }
                let ghost all = items@;
                self.follow(term, leader_id.as_str());
                self.snapshot_index = last_included_index;
                self.snapshot_term = last_included_term;
                self.commit_index = last_included_index;
                self.engine.clear_for_raft_recovery();
                let ghost base = RaftView {
                    snapshot_index: last_included_index,
                    snapshot_term: last_included_term,
                    commit_index: last_included_index,
                    engine: old(self)@.engine.cleared(),
                    ..old(self)@.following(term, leader_id@)
                };
                proof {
                    assert(self@ =~= base);
                }
                self.push_items(items, now);
                self.retain_after(last_included_index);
                proof {
                    assert(snapshot_installed(
                        old(self)@,
                        term,
                        leader_id@,
                        last_included_index,
                        last_included_term,
                        all,
                        now,
                        self@,
                    ));
                }
                true
            },
            _ => false,
        }
    }

    /// Pushes the items of a snapshot.
    fn push_items(&mut self, items: Vec<SnapshotItem>, now: u64)
        requires
            old(self).wf(),
            now + HOT_DELAY_HORIZON_SEC <= u64::MAX,
        ensures
            final(self).wf(),
            final(self)@ == (RaftView { engine: final(self)@.engine, ..old(self)@ }),
            raft_model::pushes_all_to(
                old(self)@.engine,
                snapshot_pushes(items@, now),
                now,
                final(self)@.engine,
            ),
    {
        let ghost all = items@;
        proof {
            assert(all.take(0) =~= Seq::empty());
        }
        for item in it: items
            invariant
                self.wf(),
                all == it.seq(),
                now + HOT_DELAY_HORIZON_SEC <= u64::MAX,
                self@ == (RaftView { engine: self@.engine, ..old(self)@ }),
                raft_model::pushes_all_to(
                    old(self)@.engine,
                    snapshot_pushes(all.take(it.index() as int), now),
                    now,
                    self@.engine,
                ),
        {
            let ghost k = it.index() as int;
            let ghost before = self@.engine;
            let ghost head = snapshot_pushes(all.take(k), now);
            let ghost push = raft_model::snapshot_push(
                item.id@,
                item.queue@,
                item.visible_at,
                item.payload@,
                now,
            );
            proof {
                assert(all.take(k + 1).drop_last() =~= all.take(k));
                assert(all.take(k + 1).last() == item);
            }
            let delay: u64 = item.visible_at.saturating_sub(now);
            self.push_text_id(item.queue.as_str(), item.id.as_str(), item.payload, delay, now);
            proof {
                if push is Some {
                    reveal(raft_model::push_leads_to);
                    raft_model::lemma_pushes_step(
                        old(self)@.engine,
                        head,
                        push.unwrap(),
                        now,
                        before,
                        self@.engine,
                    );
                }
            }
        }
        proof {
            assert(all.take(all.len() as int) =~= all);
        }
    }

    /// Keeps the log entries whose index is beyond `index`.
    fn retain_after(&mut self, index: u64)
        requires
            old(self).wf(),
        ensures
            final(self).wf(),
            final(self)@ == (RaftView {
                log: raft_model::entries_after(old(self)@.log, index),
                ..old(self)@
            }),
    {
        let mut entries: Vec<LogEntry> = Vec::new();
        std::mem::swap(&mut entries, &mut self.log);
        let ghost views = entry_views(entries@);
        let mut kept: Vec<LogEntry> = Vec::new();
        proof {
            assert(views.take(0) =~= Seq::empty());
            assert(entry_views(kept@) =~= Seq::empty());
        }
        for entry in it: entries
            invariant
                views == entry_views(it.seq()),
                entry_views(kept@) == raft_model::entries_after(views.take(it.index() as int), index),
        {
            let ghost k = it.index() as int;
            let ghost prior = kept@;
            proof {
                assert(views.take(k + 1).drop_last() =~= views.take(k));
                assert(views.take(k + 1).last() == entry@);
            }
            if entry.index > index {
                kept.push(entry);
                proof {
                    assert(entry_views(kept@) =~= entry_views(prior).push(entry@));
                }
            }
        }
        self.log = kept;
        proof {
            assert(views.take(views.len() as int) =~= views);
            assert(self@ =~= RaftView {
                log: raft_model::entries_after(old(self)@.log, index),
                ..old(self)@
            });
        }
    }

    /// Whether the delays of entries can all be added to the time.
    pub fn received_delays_fit(entries: &Vec<ReceivedEntry>, now: u64) -> (res: bool)
        ensures
            res == raft_model::delays_fit(decoded(entries@), now),
    {
        let mut i: usize = 0;
        proof {
            assert(entries@.take(0) =~= Seq::empty());
        }
        while i < entries.len()
            invariant
                i <= entries.len(),
                raft_model::delays_fit(decoded(entries@.take(i as int)), now),
            decreases entries.len() - i,
        {
            let ghost next = decoded(entries@.take(i + 1));
            proof {
                assert(entries@.take(i + 1).drop_last() =~= entries@.take(i as int));
                assert(entries@.take(i + 1).last() == entries@[i as int]);
                lemma_decoded_prefix(entries@, i + 1);
            }
            match &entries[i].command {
                Some(RaftCommand::Push { visible_at, .. }) => {
                    if now > u64::MAX - *visible_at {
                        proof {
                            let at = next.len() - 1;
                            assert(next[at].command is Push);
                            assert(decoded(entries@)[at] == next[at]);
                        }
                        return false;
                    }
                },
                _ => {},
            }
            i += 1;
        }
        proof {
            assert(entries@.take(i as int) =~= entries@);
        }
        true
    }

    /// Applies the leader's entries and logs them, unless the leader's term is over. A leader
    /// that hears of a later term steps down. An entry whose command could not be decoded is passed over.
    pub fn handle_append_entries(
        &mut self,
        term: u64,
        leader_id: &str,
        _prev_log_index: u64,
        _prev_log_term: u64,
        entries: Vec<ReceivedEntry>,
        _leader_commit: u64,
        now: u64,
    ) -> (success: bool)
        requires
            old(self).wf(),
            now + HOT_DELAY_HORIZON_SEC <= u64::MAX,
            raft_model::delays_fit(decoded(entries@), now),
        ensures
            final(self).wf(),
            success == (term >= old(self)@.current_term),
            if success {
                entries_appended(
                    old(self)@,
                    term,
                    leader_id@,
                    decoded(entries@),
                    now,
                    final(self)@,
                )
            } else {
                final(self)@ == old(self)@
            },
    {
        if term < self.current_term {
            return false;
        }
        let ghost all = entries@;
        let ghost accepted = decoded(all);
        self.follow(term, leader_id);
        let ghost base = old(self)@.following(term, leader_id@);
        proof {
            assert(self@ =~= base);
            assert(all.take(0) =~= Seq::empty());
            assert(base.log + decoded(all.take(0)) =~= base.log);
        }
        for entry in it: entries
            invariant
                self.wf(),
                all == it.seq(),
                now + HOT_DELAY_HORIZON_SEC <= u64::MAX,
                raft_model::delays_fit(decoded(all), now),
                self@ == (RaftView {
                    engine: self@.engine,
                    log: base.log + decoded(all.take(it.index() as int)),
                    ..base
                }),
                raft_model::entries_lead_to(
                    base.engine,
                    decoded(all.take(it.index() as int)),
                    now,
                    self@.engine,
                ),
        {
            let ghost k = it.index() as int;
            let ghost head = decoded(all.take(k));
            let ghost next = decoded(all.take(k + 1));
            let ghost before = self@;
            proof {
                assert(all.take(k + 1).drop_last() =~= all.take(k));
                assert(all.take(k + 1).last() == entry);
                lemma_decoded_prefix(all, k + 1);
            }
            match entry.command {
                Some(command) => {
                    let ghost view = EntryView {
                        term: entry.term,
                        index: entry.index,
                        command: command@,
                    };
                    proof {
                        assert(next == head.push(view));
                        assert(next[head.len() as int] == view);
                        assert(decoded(all)[head.len() as int] == view);
                    }
                    self.apply_command(&command, now);
                    let ghost applied = self@.engine;
                    self.log.push(LogEntry { term: entry.term, index: entry.index, command });
                    proof {
                        assert(self@.log =~= before.log.push(view));
                        assert(before.log.push(view) =~= base.log + next);
                        assert(self@ =~= RaftView {
                            engine: applied,
                            log: base.log + next,
                            ..base
                        });
                        raft_model::lemma_entries_step(
                            base.engine,
                            head,
                            view,
                            now,
                            before.engine,
                            applied,
                        );
                    }
                },
                None => {},
            }
        }
        proof {
            assert(all.take(all.len() as int) =~= all);
        }
        let ghost engine = self@.engine;
        self.trim_log();
        proof {
            assert(raft_model::entries_lead_to(base.engine, accepted, now, engine));
            assert(entries_appended(old(self)@, term, leader_id@, accepted, now, self@));
        }
        true
    }

    /// Applies a command of the leader to the engine.
    fn apply_command(&mut self, command: &RaftCommand, now: u64)
        requires
            old(self).wf(),
            now + HOT_DELAY_HORIZON_SEC <= u64::MAX,
            match command@ {
                CommandView::Push { visible_at, .. } => now + visible_at <= u64::MAX,
                CommandView::Ack { .. } => true,
            },
        ensures
            final(self).wf(),
            final(self)@ == (RaftView { engine: final(self)@.engine, ..old(self)@ }),
            raft_model::command_leads_to(old(self)@.engine, command@, now, final(self)@.engine),
    {
        proof {
            reveal(raft_model::command_leads_to);
        }
        match command {
            RaftCommand::Push { queue, msg_id, payload, visible_at } => {
                self.push_text_id(
                    queue.as_str(),
                    msg_id.as_str(),
                    copy_bytes(payload),
                    *visible_at,
                    now,
                );
            },
            RaftCommand::Ack { queue, msg_id, receipt: _ } => {
                let _acked = self.engine.ack_follower(queue.as_str(), msg_id.as_str());
                proof {
                    assert(self@ =~= RaftView { engine: self.engine@, ..old(self)@ });
                }
            },
        }
    }

    /// Cuts a log that has grown too long.
    fn trim_log(&mut self)
        requires
            old(self).wf(),
        ensures
            final(self).wf(),
            final(self)@ == old(self)@.trimmed(),
    {
        let keep: u64 = self.compaction_threshold;
        if keep > 0 && self.log.len() as u128 > keep as u128 * 2 {
            let n: usize = self.log.len() - keep as usize;
            self.drop_entries(n);
        }
    }

    /// Whether the delays of the log's pushes can all be added to the time.
    pub fn log_delays_fit(&self, now: u64) -> (res: bool)
        ensures
            res == raft_model::delays_fit(self@.log, now),
    {
        let mut i: usize = 0;
        while i < self.log.len()
            invariant
                i <= self.log.len(),
                forall|k: int|
                    0 <= k < i ==> match (#[trigger] self@.log[k]).command {
                        CommandView::Push { visible_at, .. } => now + visible_at <= u64::MAX,
                        CommandView::Ack { .. } => true,
                    },
            decreases self.log.len() - i,
        {
            proof {
                assert(self@.log[i as int] == self.log@[i as int]@);
            }
            match &self.log[i].command {
                RaftCommand::Push { visible_at, .. } => {
                    if now > u64::MAX - *visible_at {
                        return false;
                    }
                },
                RaftCommand::Ack { .. } => {},
            }
            i += 1;
        }
        true
    }

    /// The id texts that the log acknowledges.
    fn acknowledged_texts(&self) -> (set: StringHashSet)
        ensures
            forall|t: Seq<char>| #[trigger] set@.contains(t) <==> raft_model::acknowledges(self@.log, t),
    {
        let mut set: StringHashSet = StringHashSet::new();
        let mut i: usize = 0;
        while i < self.log.len()
            invariant
                i <= self.log.len(),
                forall|t: Seq<char>| #[trigger]
                    set@.contains(t) <==> exists|k: int|
                        0 <= k < i && (#[trigger] self@.log[k]).command is Ack
                            && self@.log[k].command->Ack_msg_id == t,
            decreases self.log.len() - i,
        {
            proof {
                assert(self@.log[i as int] == self.log@[i as int]@);
            }
            match &self.log[i].command {
                RaftCommand::Push { .. } => {},
                RaftCommand::Ack { msg_id, .. } => {
                    set.insert(msg_id.clone());
                    proof {
                        assert(self@.log[i as int].command->Ack_msg_id == msg_id@);
                    }
                },
            }
            i += 1;
        }
        set
    }

    /// Makes the node the leader, and brings its engine to what the log says.
    pub fn recover_as_new_leader(&mut self, now: u64)
        requires
            old(self).wf(),
            now + HOT_DELAY_HORIZON_SEC <= u64::MAX,
            raft_model::delays_fit(old(self)@.log, now),
        ensures
            final(self).wf(),
            old(self)@.takes_over_to(now, final(self)@),
    {
        self.role = RaftRole::Leader;
        self.is_leader_cached = true;
        self.current_leader = Some(self.node_id.clone());
        let after: Option<u64> = if self.snapshot_index > 0 {
            Some(self.snapshot_index)
        } else {
            None
        };
        let acked: StringHashSet = self.acknowledged_texts();
        if after.is_none() {
            self.engine.clear_for_raft_recovery();
        }
        let ghost base = old(self)@.takeover_base();
        let ghost log = old(self)@.log;
        let ghost start = RaftView { engine: base, ..old(self)@.elected() };
        proof {
            assert(self@ =~= start);
        }
        let mut i: usize = 0;
        while i < self.log.len()
            invariant
                self.wf(),
                i <= self.log.len(),
                log == start.log,
                now + HOT_DELAY_HORIZON_SEC <= u64::MAX,
                raft_model::delays_fit(log, now),
                forall|t: Seq<char>| #[trigger]
                    acked@.contains(t) <==> raft_model::acknowledges(log, t),
                self@ == (RaftView { engine: self@.engine, ..start }),
                raft_model::pushes_all_to(
                    start.engine,
                    raft_model::open_pushes(log, i as nat, after),
                    now,
                    self@.engine,
                ),
            decreases self.log.len() - i,
        {
            let ghost before = self@.engine;
            let ghost head = raft_model::open_pushes(log, i as nat, after);
            proof {
                assert(self.log@.len() == self@.log.len());
                assert(self@.log[i as int] == self.log@[i as int]@);
            }
            let wanted: bool = match after {
                Some(a) => self.log[i].index > a,
                None => true,
            };
            let command: RaftCommand = self.log[i].command.clone();
            match command {
                RaftCommand::Push { queue, msg_id, payload, visible_at } => {
                    proof {
                        assert(log[i as int].command == (CommandView::Push {
                            queue: queue@,
                            msg_id: msg_id@,
                            payload: payload@,
                            visible_at,
                        }));
                    }
                    if wanted && !acked.contains(msg_id.as_str()) {
                        self.push_text_id(
                            queue.as_str(),
                            msg_id.as_str(),
                            payload,
                            visible_at,
                            now,
                        );
                        proof {
                            let id = ids::id_value(msg_id@);
                            if id is Some {
                                reveal(raft_model::push_leads_to);
                                raft_model::lemma_pushes_step(
                                    start.engine,
                                    head,
                                    EnginePush {
                                        queue: queue@,
                                        id: id.unwrap(),
                                        payload: payload@,
                                        delay: visible_at,
                                    },
                                    now,
                                    before,
                                    self@.engine,
                                );
                            }
                        }
                    }
                },
                RaftCommand::Ack { .. } => {},
            }
            i += 1;
            proof {
                assert(self.log@.len() == self@.log.len());
            }
        }
        proof {
            let engine = self@.engine;
            assert(raft_model::pushes_all_to(base, old(self)@.takeover_pushes(), now, engine));
            assert(self@ == (RaftView { engine, ..old(self)@.elected() }));
        }
    }

    /// What is sent to every peer as a sign of life.
    pub fn send_heartbeat(&self) -> (replication: Replication)
        ensures
            replication@ == self@.heartbeat(),
    {
        let entries: Vec<LogEntry> = Vec::new();
        proof {
            assert(entry_views(entries@) =~= Seq::empty());
        }
        Replication {
            peers: copy_texts(&self.peers),
            term: self.current_term,
            leader_id: self.node_id.clone(),
            prev_log_index: 0,
            prev_log_term: 0,
            entries,
            leader_commit: self.commit_index,
        }
    }

    /// Whether no peer comes before this node in the order of names.
    fn is_first(&self) -> (res: bool)
        ensures
            res == self@.is_first(),
    {
        let mut i: usize = 0;
        while i < self.peers.len()
            invariant
                i <= self.peers.len(),
                forall|k: int|
                    0 <= k < i ==> !text::precedes(
                        utf8::encode_utf8(#[trigger] self@.peers[k]),
                        utf8::encode_utf8(self@.node_id),
                    ),
            decreases self.peers.len() - i,
        {
            proof {
                assert(self@.peers[i as int] == self.peers@[i as int]@);
            }
            if text_precedes(self.peers[i].as_str(), self.node_id.as_str()) {
                return false;
            }
            i += 1;
        }
        true
    }

    /// One round of the election clock: a leader shows that it is alive, and where there is
    /// no leader, the first of the nodes makes itself one.
    pub fn tick(&mut self, now: u64) -> (action: TickAction)
        requires
            old(self).wf(),
            now + HOT_DELAY_HORIZON_SEC <= u64::MAX,
            raft_model::delays_fit(old(self)@.log, now),
        ensures
            final(self).wf(),
            ticked(old(self)@, now, final(self)@, action),
    {
        if !self.is_running {
            return TickAction::Stop;
        }
        if self.role == RaftRole::Leader {
            return TickAction::Heartbeat(self.send_heartbeat());
        }
        if self.current_leader.is_none() && self.is_first() {
            self.recover_as_new_leader(now);
            return TickAction::Elected;
        }
        TickAction::Nothing
    }

    /// What brings a peer up to date: a snapshot of the messages in memory, and the log
    /// behind it, if there is any.
    pub fn sync_all_entries_to_peer(&self, peer_addr: &str) -> (plan: (Request, Option<Replication>))
        requires
            self.wf(),
        ensures
            is_sync_plan(self@, peer_addr@, plan.0, plan.1),
    {
        let surviving: Vec<Survivor> = self.engine.get_surviving_snapshot_messages();
        let ghost list = disk_log::survivor_views(surviving@);
        let mut items: Vec<SnapshotItem> = Vec::new();
        for m in it: surviving
            invariant
                list == disk_log::survivor_views(it.seq()),
                items@.len() == it.index(),
                forall|k: int|
                    0 <= k < items@.len() ==> is_snapshot_item(list[k], #[trigger] items@[k]),
        {
            let (id, queue, visible_at, payload) = m;
            proof {
                assert(list[it.index() as int] == disk_log::survivor_view(m));
            }
            items.push(SnapshotItem { id: format_id(id), queue, visible_at, payload });
        }
        let request = Request::RaftInstallSnapshot {
            term: self.current_term,
            leader_id: self.node_id.clone(),
            last_included_index: self.snapshot_index,
            last_included_term: self.snapshot_term,
            items,
        };
        proof {
            assert(model::lists_shards(self@.engine.shards, NUM_SHARDS as nat, list));
            assert(is_snapshot_request(self@, list, request));
        }
        if self.log.is_empty() {
            return (request, None);
        }
        let mut peers: Vec<String> = Vec::new();
        peers.push(peer_addr.to_owned());
        proof {
            assert(registry::text_views(peers@) =~= seq![peer_addr@]);
        }
        let replication = Replication {
            peers,
            term: self.current_term,
            leader_id: self.node_id.clone(),
            prev_log_index: self.snapshot_index,
            prev_log_term: self.snapshot_term,
            entries: copy_entries(&self.log),
            leader_commit: self.commit_index,
        };
        (request, Some(replication))
    }

    /// Adds a peer, unless it is known or the node itself.
    pub fn add_peer(&mut self, peer_addr: &str)
        requires
            old(self).wf(),
        ensures
            final(self).wf(),
            final(self)@ == (RaftView {
                peers: if old(self)@.peers.contains(peer_addr@) || peer_addr@
                    == old(self)@.node_id {
                    old(self)@.peers
                } else {
                    old(self)@.peers.push(peer_addr@)
                },
                ..old(self)@
            }),
    {
        if same_text(peer_addr, self.node_id.as_str()) {
            return;
        }
        let mut i: usize = 0;
        while i < self.peers.len()
            invariant
                self == old(self),
                self.wf(),
                i <= self.peers.len(),
                forall|k: int| 0 <= k < i ==> #[trigger] self@.peers[k] != peer_addr@,
            decreases self.peers.len() - i,
        {
            proof {
                assert(self@.peers[i as int] == self.peers@[i as int]@);
            }
            if same_text(self.peers[i].as_str(), peer_addr) {
                proof {
                    assert(self@.peers.contains(peer_addr@));
                }
                return;
            }
            i += 1;
        }
        self.peers.push(peer_addr.to_owned());
        proof {
            assert(self@.peers =~= old(self)@.peers.push(peer_addr@));
            assert(self@ =~= RaftView { peers: self@.peers, ..old(self)@ });
        }
    }

    /// Forgets a peer.
    pub fn remove_peer(&mut self, peer_addr: &str)
        requires
            old(self).wf(),
        ensures
            final(self).wf(),
            final(self)@ == (RaftView {
                peers: raft_model::texts_without(old(self)@.peers, peer_addr@),
                ..old(self)@
            }),
    {
        let mut all: Vec<String> = Vec::new();
        std::mem::swap(&mut all, &mut self.peers);
        let ghost views = registry::text_views(all@);
        let mut kept: Vec<String> = Vec::new();
        proof {
            assert(views.take(0) =~= Seq::empty());
            assert(registry::text_views(kept@) =~= Seq::empty());
        }
        for peer in it: all
            invariant
                views == registry::text_views(it.seq()),
                registry::text_views(kept@) == raft_model::texts_without(
                    views.take(it.index() as int),
                    peer_addr@,
                ),
        {
            let ghost k = it.index() as int;
            let ghost prior = kept@;
            proof {
                assert(views.take(k + 1).drop_last() =~= views.take(k));
                assert(views.take(k + 1).last() == peer@);
            }
            if !same_text(peer.as_str(), peer_addr) {
                kept.push(peer);
                proof {
                    assert(registry::text_views(kept@) =~= registry::text_views(prior).push(peer@));
                }
            }
        }
        self.peers = kept;
        proof {
            assert(views.take(views.len() as int) =~= views);
            assert(self@ =~= RaftView {
                peers: raft_model::texts_without(old(self)@.peers, peer_addr@),
                ..old(self)@
            });
        }
    }

    /// The members of the cluster, this node first.
    pub fn get_peers(&self) -> (all: Vec<String>)
        ensures
            registry::text_views(all@) == seq![self@.node_id] + self@.peers,
    {
        let mut all: Vec<String> = Vec::new();
        all.push(self.node_id.clone());
        let mut peers: Vec<String> = copy_texts(&self.peers);
        let ghost others = peers@;
        all.append(&mut peers);
        proof {
            assert(registry::text_views(all@) =~= seq![self@.node_id] + registry::text_views(others));
        }
        all
    }

    pub fn is_leader_fast(&self) -> (res: bool)
        ensures
            res == self@.is_leader_cached,
    {
        self.is_leader_cached
    }

    pub fn is_leader(&self) -> (res: bool)
        ensures
            res == (self@.role == RaftRole::Leader),
    {
        self.role == RaftRole::Leader
    }

    /// Makes the node the leader and leaves its engine as it is.
    pub fn become_leader_for_test(&mut self)
        requires
            old(self).wf(),
        ensures
            final(self).wf(),
            final(self)@ == old(self)@.elected(),
    {
        self.role = RaftRole::Leader;
        self.is_leader_cached = true;
        self.current_leader = Some(self.node_id.clone());
        proof {
            assert(self@ =~= old(self)@.elected());
        }
    }

    pub fn current_term(&self) -> (term: u64)
        ensures
            term == self@.current_term,
    {
        self.current_term
    }

    /// See [`QueueEngine::total_messages_in_ram`].
    pub fn total_messages_in_ram(&self) -> (n: usize)
        ensures
            n == self@.engine.total_in_ram,
    {
        self.engine.total_messages_in_ram()
    }

    /// See [`QueueEngine::begin_poll`].
    pub(crate) fn engine_begin_poll(&mut self, queue: &str, max_messages: u32, now: u64) -> (scan:
        Option<ColdScan>)
        requires
            old(self).wf(),
            now + HOT_DELAY_HORIZON_SEC <= u64::MAX,
        ensures
            final(self).wf(),
            final(self)@ == (RaftView {
                engine: old(self)@.engine.expire(queue@, now),
                ..old(self)@
            }),
            match scan {
                Some(s) => s@ == ScanView::begin(
                    queue@,
                    now,
                    model::prefetch_threshold(max_messages),
                ) && final(self)@.engine.runs_low(
                    queue@,
                    model::prefetch_threshold(max_messages) as nat,
                ),
                None => !final(self)@.engine.runs_low(
                    queue@,
                    model::prefetch_threshold(max_messages) as nat,
                ),
            },
    {
        let scan: Option<ColdScan> = self.engine.begin_poll(queue, max_messages, now);
        proof {
            assert(self@ =~= RaftView { engine: self.engine@, ..old(self)@ });
        }
        scan
    }

    /// See [`QueueEngine::page_in_cold_spill`].
    pub(crate) fn engine_page_in(&mut self, scan: &mut ColdScan, read: &SegmentRead) -> (again: bool)
        requires
            old(self).wf(),
            old(scan)@.now + HOT_DELAY_HORIZON_SEC <= u64::MAX,
            read.is_window(old(self)@.engine.spill_offset),
        ensures
            final(self).wf(),
            (final(self)@.engine, final(scan)@, again) == old(self)@.engine.page_step(
                old(scan)@,
                *read,
            ),
            final(self)@ == (RaftView { engine: final(self)@.engine, ..old(self)@ }),
    {
        let again: bool = self.engine.page_in_cold_spill(scan, read);
        proof {
            assert(self@ =~= RaftView { engine: self.engine@, ..old(self)@ });
        }
        again
    }

    /// See [`QueueEngine::poll`].
    pub(crate) fn engine_poll(
        &mut self,
        queue: &str,
        visibility_sec: u32,
        max_messages: u32,
        now: u64,
    ) -> (res: Result<Vec<PolledMessage>, QueueError>)
        requires
            old(self).wf(),
            now + u32::MAX <= u64::MAX,
        ensures
            final(self).wf(),
            final(self)@ == (RaftView { engine: final(self)@.engine, ..old(self)@ }),
            exists|receipts: Seq<u128>|
                ({
                    let (claimed, ids) = old(self)@.engine.claim(queue@, now, max_messages as nat);
                    &&& receipts.len() == ids.len()
                    &&& res matches Ok(polled) && (
                        final(self)@.engine,
                        shard::polled_views(polled@),
                    ) == claimed.lease(
                        queue@,
                        ids,
                        #[trigger] model::id_texts(receipts),
                        (now + old(self)@.engine.timeout(visibility_sec)) as u64,
                    )
                }),
    {
        let res = self.engine.poll(queue, visibility_sec, max_messages, now);
        proof {
            assert(self@ =~= RaftView { engine: self.engine@, ..old(self)@ });
        }
        res
    }

    /// See [`QueueEngine::flush_wal`].
    pub(crate) fn engine_flush(&mut self)
        requires
            old(self).wf(),
        ensures
            final(self).wf(),
            final(self)@ == (RaftView {
                engine: old(self)@.engine.with_disk(old(self)@.engine.disk.flush()),
                ..old(self)@
            }),
    {
        self.engine.flush_wal();
        proof {
            assert(self@ =~= RaftView { engine: self.engine@, ..old(self)@ });
        }
    }

    /// See [`QueueEngine::compaction_due`].
    pub(crate) fn engine_compaction_due(&self) -> (res: bool)
        ensures
            res == self@.engine.disk.compaction_due(),
    {
        self.engine.compaction_due()
    }

    /// See [`QueueEngine::check_and_trigger_compaction`].
    pub(crate) fn engine_compact(&mut self, segment: &[u8])
        requires
            old(self).wf(),
        ensures
            final(self).wf(),
            final(self)@ == (RaftView {
                engine: if old(self)@.engine.disk.compaction_due() {
                    old(self)@.engine.compacted(
                        wal::records_in(segment@, old(self)@.engine.disk.registry),
                    )
                } else {
                    old(self)@.engine
                },
                ..old(self)@
            }),
    {
        self.engine.check_and_trigger_compaction(segment);
        proof {
            assert(self@ =~= RaftView { engine: self.engine@, ..old(self)@ });
        }
    }

    /// See [`QueueEngine::take_actions`].
    pub fn engine_take_actions(&mut self) -> (actions: Vec<DiskAction>)
        requires
            old(self).wf(),
        ensures
            final(self).wf(),
            disk_log::action_views(actions@) == old(self)@.engine.disk.actions,
            final(self)@ == (RaftView {
                engine: old(self)@.engine.with_disk(
                    DiskView { actions: Seq::empty(), ..old(self)@.engine.disk },
                ),
                ..old(self)@
            }),
    {
        let actions: Vec<DiskAction> = self.engine.take_actions();
        proof {
            assert(self@ =~= RaftView { engine: self.engine@, ..old(self)@ });
        }
        actions
    }
}

}
