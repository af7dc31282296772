//! The state of a cluster node as mathematics.
use vstd::prelude::*;
use vstd::utf8;

use crate::engine::model::{EngineView, PushView};
use crate::ids;
use crate::text;

verus! {

#[derive(Debug, Clone, Copy, PartialEq, Eq, Structural)]
pub enum RaftRole {
    Follower,
    Candidate,
    Leader,
}

/// The mathematical content of a log command.
pub enum CommandView {
    Push { queue: Seq<char>, msg_id: Seq<char>, payload: Seq<u8>, visible_at: u64 },
    Ack { queue: Seq<char>, msg_id: Seq<char>, receipt: Seq<char> },
}

/// The mathematical content of a log entry.
pub struct EntryView {
    pub term: u64,
    pub index: u64,
    pub command: CommandView,
}

/// The mathematical content of what a leader sends to its peers.
pub struct ReplicationView {
    pub peers: Seq<Seq<char>>,
    pub term: u64,
    pub leader_id: Seq<char>,
    pub prev_log_index: u64,
    pub prev_log_term: u64,
    pub entries: Seq<EntryView>,
    pub leader_commit: u64,
}

/// A message that a client asks to be pushed: its id text, payload and delay.
pub struct ClientPush {
    pub id_text: Seq<char>,
    pub payload: Seq<u8>,
    pub delay: u64,
}

/// The mathematical content of a batch of pushes on its way to a quorum.
pub struct PushProposalView {
    pub queue: Seq<char>,
    pub message_ids: Seq<Seq<char>>,
    pub ids: Seq<u128>,
    pub items: Seq<PushView>,
    pub last_index: u64,
    pub replication: ReplicationView,
}

/// The mathematical content of a batch of acknowledgements on its way to the peers.
pub struct AckProposalView {
    pub acked_count: usize,
    pub last_index: u64,
    pub replication: ReplicationView,
}

/// A push as the engine takes it.
pub struct EnginePush {
    pub queue: Seq<char>,
    pub id: u128,
    pub payload: Seq<u8>,
    pub delay: u64,
}

/// The id that a client's text leads to, as text and as number: the text's own if it is a
/// ULID or a UUID, else a fresh one.
pub open spec fn resolve_id(id_text: Seq<char>, fresh: u128) -> (Seq<char>, u128) {
    let own = if id_text.len() == 0 {
        None
    } else if utf8::encode_utf8(id_text).len() == 26 {
        ids::ulid_value(id_text)
    } else {
        ids::uuid_value(id_text)
    };
    match own {
        Some(id) => (id_text, id),
        None => (ids::ulid_text(fresh), fresh),
    }
}

/// How many nodes, the leader among them, make a majority of a cluster with this many
/// peers.
pub open spec fn quorum_size(peers: nat) -> nat {
    (peers + 1) / 2 + 1
}

pub open spec fn count_true(replies: Seq<bool>) -> nat
    decreases replies.len(),
{
    if replies.len() == 0 {
        0
    } else {
        count_true(replies.drop_last()) + if replies.last() {
            1nat
        } else {
            0
        }
    }
}

/// The leader and the peers that agreed are a majority.
pub open spec fn quorum_met(peers: nat, replies: Seq<bool>) -> bool {
    peers == 0 || 1 + count_true(replies) >= quorum_size(peers)
}

/// The engine after one push.
#[verifier::opaque]
pub open spec fn push_leads_to(pre: EngineView, p: EnginePush, now: u64, post: EngineView) -> bool {
    pre.pushes_to(p.queue, p.id, p.payload, (now + p.delay) as u64, now, post)
}

/// The engine after pushes one behind the other.
pub open spec fn pushes_all_to(
    pre: EngineView,
    pushes: Seq<EnginePush>,
    now: u64,
    post: EngineView,
) -> bool
    decreases pushes.len(),
{
    if pushes.len() == 0 {
        post == pre
    } else {
        exists|mid: EngineView|
            pushes_all_to(pre, pushes.drop_last(), now, mid) && #[trigger] push_leads_to(
                mid,
                pushes.last(),
                now,
                post,
            )
    }
}

/// The engine after a command from the leader. A command whose id is no id changes nothing.
#[verifier::opaque]
pub open spec fn command_leads_to(
    pre: EngineView,
    command: CommandView,
    now: u64,
    post: EngineView,
) -> bool {
    match command {
        CommandView::Push { queue, msg_id, payload, visible_at } => match ids::id_value(msg_id) {
            Some(id) => pre.pushes_to(
                queue,
                id,
                payload,
                (now + visible_at) as u64,
                now,
                post,
            ),
            None => post == pre,
        },
        CommandView::Ack { queue, msg_id, receipt } => match ids::id_value(msg_id) {
            Some(id) => pre.follower_acks_to(queue, id, post),
            None => post == pre,
        },
    }
}

/// The engine after the commands of log entries one behind the other.
pub open spec fn entries_lead_to(
    pre: EngineView,
    entries: Seq<EntryView>,
    now: u64,
    post: EngineView,
) -> bool
    decreases entries.len(),
{
    if entries.len() == 0 {
        post == pre
    } else {
        exists|mid: EngineView|
            entries_lead_to(pre, entries.drop_last(), now, mid) && #[trigger] command_leads_to(
                mid,
                entries.last().command,
                now,
                post,
            )
    }
}

/// Every delay in the commands can be added to the time.
pub open spec fn delays_fit(entries: Seq<EntryView>, now: u64) -> bool {
    forall|i: int|
        0 <= i < entries.len() ==> match (#[trigger] entries[i]).command {
            CommandView::Push { visible_at, .. } => now + visible_at <= u64::MAX,
            CommandView::Ack { .. } => true,
        }
}

/// The log acknowledges a message under this id text.
pub open spec fn acknowledges(log: Seq<EntryView>, id_text: Seq<char>) -> bool {
    exists|i: int|
        0 <= i < log.len() && (#[trigger] log[i]).command is Ack && log[i].command->Ack_msg_id
            == id_text
}

/// The pushes of a log behind `after` that it does not acknowledge, in order.
pub open spec fn open_pushes(log: Seq<EntryView>, upto: nat, after: Option<u64>) -> Seq<EnginePush>
    decreases upto,
{
    if upto == 0 {
        Seq::empty()
    } else {
        let rest = open_pushes(log, (upto - 1) as nat, after);
        let entry = log[upto - 1];
        match entry.command {
            CommandView::Push { queue, msg_id, payload, visible_at } => match ids::id_value(msg_id) {
                Some(id) if (after matches Some(a) ==> entry.index > a) && !acknowledges(
                    log,
                    msg_id,
                ) => rest.push(EnginePush { queue, id, payload, delay: visible_at }),
                _ => rest,
            },
            CommandView::Ack { .. } => rest,
        }
    }
}

/// The last position of a log whose index is at most `commit`, plus one; zero if none is.
pub open spec fn committed_len(log: Seq<EntryView>, commit: u64) -> nat
    decreases log.len(),
{
    if log.len() == 0 {
        0
    } else if log.last().index <= commit {
        log.len()
    } else {
        committed_len(log.drop_last(), commit)
    }
}

/// The mathematical content of a cluster node.
#[verifier::ext_equal]
pub struct RaftView {
    pub node_id: Seq<char>,
    pub peers: Seq<Seq<char>>,
    pub role: RaftRole,
    pub current_term: u64,
    pub current_leader: Option<Seq<char>>,
    pub log: Seq<EntryView>,
    pub commit_index: u64,
    pub snapshot_index: u64,
    pub snapshot_term: u64,
    pub engine: EngineView,
    pub is_running: bool,
    pub compaction_threshold: u64,
    pub is_leader_cached: bool,
}

impl RaftView {
    pub open spec fn new(
        node_id: Seq<char>,
        peers: Seq<Seq<char>>,
        engine: EngineView,
        compaction_threshold: u64,
    ) -> RaftView {
        RaftView {
            node_id,
            peers,
            role: RaftRole::Follower,
            current_term: 0,
            current_leader: None,
            log: Seq::empty(),
            commit_index: 0,
            snapshot_index: 0,
            snapshot_term: 0,
            engine,
            is_running: true,
            compaction_threshold,
            is_leader_cached: false,
        }
    }

    /// The leader's name, or nothing.
    pub open spec fn leader_name(self) -> Seq<char> {
        match self.current_leader {
            Some(name) => name,
            None => Seq::empty(),
        }
    }

    /// The index of the next log entry.
    pub open spec fn next_index(self) -> int {
        if self.log.len() > 0 {
            self.log.last().index + 1
        } else {
            self.snapshot_index + 1
        }
    }

    /// The entries that commands make at the end of the log.
    pub open spec fn new_entries(self, commands: Seq<CommandView>) -> Seq<EntryView> {
        Seq::new(
            commands.len(),
            |i: int|
                EntryView {
                    term: self.current_term,
                    index: (self.next_index() + i) as u64,
                    command: commands[i],
                },
        )
    }

    pub open spec fn with_commands(self, commands: Seq<CommandView>) -> RaftView {
        RaftView { log: self.log + self.new_entries(commands), ..self }
    }

    /// What is sent to the peers for new commands.
    pub open spec fn replication(self, commands: Seq<CommandView>) -> ReplicationView {
        ReplicationView {
            peers: self.peers,
            term: self.current_term,
            leader_id: self.node_id,
            prev_log_index: (self.next_index() - 1) as u64,
            prev_log_term: self.current_term,
            entries: self.new_entries(commands),
            leader_commit: self.commit_index,
        }
    }

    /// What is sent to the peers as a sign of life.
    pub open spec fn heartbeat(self) -> ReplicationView {
        ReplicationView {
            peers: self.peers,
            term: self.current_term,
            leader_id: self.node_id,
            prev_log_index: 0,
            prev_log_term: 0,
            entries: Seq::empty(),
            leader_commit: self.commit_index,
        }
    }

    pub open spec fn push_commands(
        queue: Seq<char>,
        items: Seq<ClientPush>,
        fresh: Seq<u128>,
    ) -> Seq<CommandView> {
        Seq::new(
            items.len(),
            |i: int|
                CommandView::Push {
                    queue,
                    msg_id: resolve_id(items[i].id_text, fresh[i]).0,
                    payload: items[i].payload,
                    visible_at: items[i].delay,
                },
        )
    }

    /// A batch of pushes on its way to a quorum.
    pub open spec fn push_proposal(
        self,
        queue: Seq<char>,
        items: Seq<ClientPush>,
        fresh: Seq<u128>,
    ) -> PushProposalView {
        PushProposalView {
            queue,
            message_ids: Seq::new(
                items.len(),
                |i: int| resolve_id(items[i].id_text, fresh[i]).0,
            ),
            ids: Seq::new(items.len(), |i: int| resolve_id(items[i].id_text, fresh[i]).1),
            items: Seq::new(
                items.len(),
                |i: int| PushView { payload: items[i].payload, delay_seconds: items[i].delay },
            ),
            last_index: (self.next_index() + items.len() - 1) as u64,
            replication: self.replication(Self::push_commands(queue, items, fresh)),
        }
    }

    pub open spec fn ack_commands(
        queue: Seq<char>,
        items: Seq<(Seq<char>, Seq<char>)>,
    ) -> Seq<CommandView> {
        Seq::new(
            items.len(),
            |i: int| CommandView::Ack { queue, msg_id: items[i].0, receipt: items[i].1 },
        )
    }

    /// The node as a follower of this leader: a later term than its own makes it one,
    /// whatever it was.
    pub open spec fn following(self, term: u64, leader_id: Seq<char>) -> RaftView {
        let told = RaftView { current_leader: Some(leader_id), ..self };
        if term > self.current_term {
            RaftView {
                current_term: term,
                role: RaftRole::Follower,
                is_leader_cached: false,
                ..told
            }
        } else {
            told
        }
    }

    /// The log without its committed beginning, which the snapshot stands for.
    pub open spec fn compacted(self) -> RaftView {
        if self.log.len() > 0 && self.commit_index > self.log[0].index {
            let n = committed_len(self.log, self.commit_index) as int;
            RaftView {
                log: self.log.skip(n),
                snapshot_index: self.log[n - 1].index,
                snapshot_term: self.log[n - 1].term,
                ..self
            }
        } else {
            self
        }
    }

    /// Every so many entries the log is compacted.
    pub open spec fn compacted_if_due(self, last_index: u64) -> RaftView {
        if self.compaction_threshold > 0 && last_index % self.compaction_threshold == 0 {
            self.compacted()
        } else {
            self
        }
    }

    /// The node after a batch of pushes was committed.
    pub open spec fn commits_push_to(
        self,
        proposal: PushProposalView,
        now: u64,
        post: RaftView,
    ) -> bool {
        exists|engine: EngineView| #[trigger]
            self.engine.batch_pushes_to(
                proposal.queue,
                proposal.ids,
                proposal.items,
                now,
                engine,
            ) && post == (RaftView {
                commit_index: proposal.last_index,
                engine,
                ..self
            }).compacted_if_due(proposal.last_index)
    }

    /// A log that grew beyond twice the threshold is cut to the threshold.
    pub open spec fn trimmed(self) -> RaftView {
        let keep = self.compaction_threshold as int;
        if keep > 0 && self.log.len() > keep * 2 {
            let n = self.log.len() - keep;
            RaftView {
                log: self.log.skip(n),
                snapshot_index: self.log[n - 1].index,
                snapshot_term: self.log[n - 1].term,
                ..self
            }
        } else {
            self
        }
    }

    /// The node as the leader.
    pub open spec fn elected(self) -> RaftView {
        RaftView {
            role: RaftRole::Leader,
            is_leader_cached: true,
            current_leader: Some(self.node_id),
            ..self
        }
    }

    /// What a node that takes over starts from: its engine if there is a snapshot, else
    /// an empty one.
    pub open spec fn takeover_base(self) -> EngineView {
        if self.snapshot_index > 0 {
            self.engine
        } else {
            self.engine.cleared()
        }
    }

    /// What a node that takes over pushes: the log behind the snapshot, or all of it.
    pub open spec fn takeover_pushes(self) -> Seq<EnginePush> {
        open_pushes(
            self.log,
            self.log.len(),
            if self.snapshot_index > 0 {
                Some(self.snapshot_index)
            } else {
                None
            },
        )
    }

    /// The node after it took over.
    pub open spec fn takes_over_to(self, now: u64, post: RaftView) -> bool {
        exists|engine: EngineView| #[trigger]
            pushes_all_to(self.takeover_base(), self.takeover_pushes(), now, engine) && post == (
            RaftView { engine, ..self.elected() })
    }

    /// No peer comes before this node.
    pub open spec fn is_first(self) -> bool {
        forall|i: int|
            0 <= i < self.peers.len() ==> !text::precedes(
                utf8::encode_utf8(#[trigger] self.peers[i]),
                utf8::encode_utf8(self.node_id),
            )
    }
}

/// The pushes that a snapshot stands for: a message becomes visible when it would have.
pub open spec fn snapshot_push(
    id_text: Seq<char>,
    queue: Seq<char>,
    visible_at: u64,
    payload: Seq<u8>,
    now: u64,
) -> Option<EnginePush> {
    match ids::id_value(id_text) {
        Some(id) => Some(
            EnginePush {
                queue,
                id,
                payload,
                delay: if visible_at > now {
                    (visible_at - now) as u64
                } else {
                    0
                },
            },
        ),
        None => None,
    }
}

/// The entries whose index is beyond `index`, in order.
pub open spec fn entries_after(log: Seq<EntryView>, index: u64) -> Seq<EntryView>
    decreases log.len(),
{
    if log.len() == 0 {
        Seq::empty()
    } else {
        let rest = entries_after(log.drop_last(), index);
        if log.last().index > index {
            rest.push(log.last())
        } else {
            rest
        }
    }
}

/// The texts other than `gone`, in order.
pub open spec fn texts_without(texts: Seq<Seq<char>>, gone: Seq<char>) -> Seq<Seq<char>>
    decreases texts.len(),
{
    if texts.len() == 0 {
        Seq::empty()
    } else {
        let rest = texts_without(texts.drop_last(), gone);
        if texts.last() == gone {
            rest
        } else {
            rest.push(texts.last())
        }
    }
}

pub proof fn lemma_pushes_step(
    pre: EngineView,
    pushes: Seq<EnginePush>,
    p: EnginePush,
    now: u64,
    mid: EngineView,
    post: EngineView,
)
    requires
        pushes_all_to(pre, pushes, now, mid),
        push_leads_to(mid, p, now, post),
    ensures
        pushes_all_to(pre, pushes.push(p), now, post),
{
    assert(pushes.push(p).drop_last() =~= pushes);
    assert(pushes.push(p).last() == p);
}

pub proof fn lemma_entries_step(
    pre: EngineView,
    entries: Seq<EntryView>,
    entry: EntryView,
    now: u64,
    mid: EngineView,
    post: EngineView,
)
    requires
        entries_lead_to(pre, entries, now, mid),
        command_leads_to(mid, entry.command, now, post),
    ensures
        entries_lead_to(pre, entries.push(entry), now, post),
{
    assert(entries.push(entry).drop_last() =~= entries);
    assert(entries.push(entry).last() == entry);
}

}
