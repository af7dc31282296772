//! What a node answers to requests. Where an answer needs the peers, the log on disk or a
//! decoder, the request is left pending and finished with what came back.
use vstd::prelude::*;
use vstd::utf8;

use crate::cluster::raft;
use crate::cluster::raft::{AckProposal, PushProposal, RaftNode, ReceivedEntry};
use crate::cluster::raft_model;
use crate::cluster::raft_model::{
    AckProposalView, ClientPush, EntryView, PushProposalView, RaftRole, RaftView,
};
use crate::engine::disk_log;
use crate::engine::disk_log::{DiskAction, DiskView, SegmentRead};
use crate::engine::model;
use crate::engine::model::{EngineView, ScanView};
use crate::engine::queue;
use crate::engine::queue::ColdScan;
use crate::engine::registry;
use crate::engine::shard;
use crate::engine::shard::{PolledMessage, PolledView};
use crate::engine::single_queue::HOT_DELAY_HORIZON_SEC;
use crate::engine::wal;
use crate::ids::ulid_from_string;
use crate::metrics;
use crate::metrics::WalrMetrics;
use crate::protocol;
use crate::protocol::{
    AckItem, BatchPushItem, Message, RaftLogEntryWire, Request, Response, ResponseView,
};

verus! {

pub const DEFAULT_MAX_CONNECTIONS: usize = 10_000;

/// A poll that waits for a scan of the log.
#[derive(Debug)]
pub struct PendingPoll {
    queue_name: String,
    visibility_timeout_sec: u32,
    batch_size: u32,
    scan: ColdScan,
}

/// The mathematical content of a [`PendingPoll`].
pub struct PendingPollView {
    pub queue_name: Seq<char>,
    pub visibility_timeout_sec: u32,
    pub batch_size: u32,
    pub scan: ScanView,
}

impl View for PendingPoll {
    type V = PendingPollView;

    closed spec fn view(&self) -> PendingPollView {
        PendingPollView {
            queue_name: self.queue_name@,
            visibility_timeout_sec: self.visibility_timeout_sec,
            batch_size: self.batch_size,
            scan: self.scan@,
        }
    }
}

/// Entries from a leader whose commands have to be decoded.
#[derive(Debug)]
pub struct PendingAppend {
    pub term: u64,
    pub leader_id: String,
    pub prev_log_index: u64,
    pub prev_log_term: u64,
    pub entries: Vec<RaftLogEntryWire>,
    pub leader_commit: u64,
}

/// What a request comes to: an answer, or something to be done first.
#[derive(Debug)]
pub enum Dispatch {
    Done { response: Response },
    /// The proposal goes to the peers; their replies finish it.
    Push { proposal: PushProposal, batch: bool },
    /// The proposal goes to the peers; then it is finished.
    Ack { proposal: AckProposal, batch: bool },
    /// The log is read until the scan is over; then the poll is finished.
    Poll { poll: PendingPoll },
    /// The commands are decoded; then the entries are finished.
    Append { pending: PendingAppend },
}

/// The mathematical content of a [`WalrServer`].
#[verifier::ext_equal]
pub struct ServerView {
    pub raft: RaftView,
    pub local_node_id: Seq<char>,
    pub max_connections: usize,
    pub enable_metrics: bool,
    pub metrics: WalrMetrics,
}

/// A client's message id that is neither empty nor as long as a ULID.
pub open spec fn has_wrong_length(id_text: Seq<char>) -> bool {
    id_text.len() > 0 && utf8::encode_utf8(id_text).len() != 26
}

/// The answer to a message id of the wrong length.
pub open spec fn wrong_length_response() -> ResponseView {
    ResponseView::Error { message: "invalid ULID message_id: "@ + "invalid length"@ }
}

/// The request is answered with this.
pub open spec fn answers(res: Dispatch, response: ResponseView) -> bool {
    res matches Dispatch::Done { response: r } && r@ == response
}

/// Only the leader serves the request.
pub open spec fn needs_leader(req: Request) -> bool {
    match req {
        Request::Push { .. } => true,
        Request::PushBatch { .. } => true,
        Request::Poll { .. } => true,
        Request::Ack { .. } => true,
        Request::AckBatch { .. } => true,
        Request::JoinCluster { .. } => true,
        Request::LeaveCluster { .. } => true,
        _ => false,
    }
}

/// How many entries the request may add to the log.
pub open spec fn new_entry_count(req: Request) -> nat {
    match req {
        Request::Push { .. } => 1,
        Request::PushBatch { queue_name, items } => items@.len(),
        Request::Ack { .. } => 1,
        Request::AckBatch { queue_name, items } => items@.len(),
        _ => 0,
    }
}

/// The dispatch that a proposed push leads to.
pub open spec fn follows_push(
    proposed: Result<Option<PushProposal>, String>,
    batch: bool,
    res: Dispatch,
) -> bool {
    match proposed {
        Err(text) => answers(res, ResponseView::Error { message: text@ }),
        Ok(Some(p)) => res == (Dispatch::Push { proposal: p, batch }),
        Ok(None) => answers(res, ResponseView::PushBatch { message_ids: Seq::empty() }),
    }
}

/// The dispatch that a proposed acknowledgement leads to.
pub open spec fn follows_ack(
    proposed: Result<Option<AckProposal>, String>,
    batch: bool,
    res: Dispatch,
) -> bool {
    match proposed {
        Err(text) => answers(res, ResponseView::Error { message: text@ }),
        Ok(Some(p)) => res == (Dispatch::Ack { proposal: p, batch }),
        Ok(None) => answers(
            res,
            if batch {
                ResponseView::AckBatch { acked_count: 0 }
            } else {
                ResponseView::Ack { success: false }
            },
        ),
    }
}

/// The engine and the messages after a poll, under some fresh receipts.
pub open spec fn polls_to(
    pre: EngineView,
    queue: Seq<char>,
    visibility_sec: u32,
    max_messages: u32,
    now: u64,
    post: EngineView,
    messages: Seq<PolledView>,
) -> bool {
    let (claimed, ids) = pre.claim(queue, now, max_messages as nat);
    exists|receipts: Seq<u128>|
        receipts.len() == ids.len() && (post, messages) == claimed.lease(
            queue,
            ids,
            #[trigger] model::id_texts(receipts),
            (now + pre.timeout(visibility_sec)) as u64,
        )
}

impl ServerView {
    /// The log has indices left for what the request may add.
    pub open spec fn has_room(self, req: Request) -> bool {
        self.raft.is_leader_cached ==> self.raft.next_index() + new_entry_count(req) <= u64::MAX
    }

    pub open spec fn with_raft(self, raft: RaftView) -> ServerView {
        ServerView { raft, ..self }
    }

    pub open spec fn with_engine(self, engine: EngineView) -> ServerView {
        self.with_raft(RaftView { engine, ..self.raft })
    }

    /// The metrics after a compaction.
    pub open spec fn counting_compaction(self) -> ServerView {
        ServerView {
            metrics: WalrMetrics {
                wal_compaction_count: metrics::wrap_counter(
                    self.metrics.wal_compaction_count + 1,
                ) as u64,
                ..self.metrics
            },
            ..self
        }
    }

    /// The metrics after messages were handed out.
    pub open spec fn counting_poll(self, n: nat) -> ServerView {
        if n > 0 {
            ServerView {
                metrics: WalrMetrics {
                    messages_polled_total: metrics::wrap_counter(
                        self.metrics.messages_polled_total + n,
                    ) as u64,
                    in_flight_messages: metrics::wrap_gauge(
                        self.metrics.in_flight_messages + n,
                    ) as i64,
                    ..self.metrics
                },
                ..self
            }
        } else {
            self
        }
    }

    /// The metrics after messages were pushed.
    pub open spec fn counting_push(self, n: nat) -> ServerView {
        ServerView {
            metrics: WalrMetrics {
                messages_pushed_total: metrics::wrap_counter(
                    self.metrics.messages_pushed_total + n,
                ) as u64,
                ..self.metrics
            },
            ..self
        }
    }

    /// The metrics after messages were acknowledged.
    pub open spec fn counting_ack(self, n: nat) -> ServerView {
        if n > 0 {
            ServerView {
                metrics: WalrMetrics {
                    messages_acked_total: metrics::wrap_counter(
                        self.metrics.messages_acked_total + n,
                    ) as u64,
                    in_flight_messages: metrics::wrap_gauge(
                        self.metrics.in_flight_messages - n,
                    ) as i64,
                    ..self.metrics
                },
                ..self
            }
        } else {
            self
        }
    }

    /// The poll is answered at `post` with what the queue gives.
    pub open spec fn poll_answered(
        self,
        queue: Seq<char>,
        visibility_sec: u32,
        max_messages: u32,
        now: u64,
        post: ServerView,
        response: ResponseView,
    ) -> bool {
        exists|engine: EngineView, messages: Seq<PolledView>| #[trigger]
            polls_to(
                self.raft.engine,
                queue,
                visibility_sec,
                max_messages,
                now,
                engine,
                messages,
            ) && post == self.with_engine(engine).counting_poll(messages.len()) && response == (
            ResponseView::Poll { messages })
    }
}

/// What a request to push comes to, at the leader.
pub open spec fn push_dispatched(
    pre: ServerView,
    queue: Seq<char>,
    item: ClientPush,
    post: ServerView,
    res: Dispatch,
) -> bool {
    if has_wrong_length(item.id_text) {
        post == pre && answers(res, wrong_length_response())
    } else {
        exists|fresh: u128, proposed: Result<Option<PushProposal>, String>| #[trigger]
            raft::push_proposed(
                pre.raft,
                queue,
                seq![item],
                seq![fresh],
                post.raft,
                proposed,
            ) && post == pre.with_raft(post.raft) && follows_push(proposed, false, res)
    }
}

/// What a request to push a batch comes to, at the leader.
pub open spec fn push_batch_dispatched(
    pre: ServerView,
    queue: Seq<char>,
    items: Seq<ClientPush>,
    post: ServerView,
    res: Dispatch,
) -> bool {
    if exists|i: int| 0 <= i < items.len() && has_wrong_length((#[trigger] items[i]).id_text) {
        post == pre && answers(res, wrong_length_response())
    } else {
        exists|fresh: Seq<u128>, proposed: Result<Option<PushProposal>, String>|
            fresh.len() == items.len() && #[trigger] raft::push_proposed(
                pre.raft,
                queue,
                items,
                fresh,
                post.raft,
                proposed,
            ) && post == pre.with_raft(post.raft) && follows_push(proposed, true, res)
    }
}

/// What a request to poll comes to, at the leader: an answer where enough messages are
/// ready, else a scan of the log first.
pub open spec fn poll_dispatched(
    pre: ServerView,
    queue: Seq<char>,
    visibility_sec: u32,
    batch_size: u32,
    now: u64,
    post: ServerView,
    res: Dispatch,
) -> bool {
    let max = if batch_size == 0 {
        1u32
    } else {
        batch_size
    };
    let expired = pre.with_engine(pre.raft.engine.expire(queue, now));
    let threshold = model::prefetch_threshold(max);
    if expired.raft.engine.runs_low(queue, threshold as nat) {
        post == expired && (res matches Dispatch::Poll { poll } && poll@ == (PendingPollView {
            queue_name: queue,
            visibility_timeout_sec: visibility_sec,
            batch_size: max,
            scan: ScanView::begin(queue, now, threshold),
        }))
    } else {
        res matches Dispatch::Done { response } && expired.poll_answered(
            queue,
            visibility_sec,
            max,
            now,
            post,
            response@,
        )
    }
}

/// What a request to acknowledge comes to, at the leader.
pub open spec fn ack_dispatched(
    pre: ServerView,
    queue: Seq<char>,
    items: Seq<(Seq<char>, Seq<char>)>,
    batch: bool,
    now: u64,
    post: ServerView,
    res: Dispatch,
) -> bool {
    exists|proposed: Result<Option<AckProposal>, String>| #[trigger]
        raft::ack_proposed(pre.raft, queue, items, now, post.raft, proposed) && post
            == pre.with_raft(post.raft) && follows_ack(proposed, batch, res)
}

/// What a request comes to.
pub open spec fn dispatched(
    pre: ServerView,
    req: Request,
    now: u64,
    post: ServerView,
    res: Dispatch,
) -> bool {
    if needs_leader(req) && !pre.raft.is_leader_cached {
        post == pre && answers(res, ResponseView::Redirect { leader: pre.raft.leader_name() })
    } else {
        match req {
            Request::Push { queue_name, payload, delay_seconds, message_id } => push_dispatched(
                pre,
                queue_name@,
                ClientPush { id_text: message_id@, payload: payload@, delay: delay_seconds },
                post,
                res,
            ),
            Request::PushBatch { queue_name, items } => push_batch_dispatched(
                pre,
                queue_name@,
                raft::batch_pushes(items@),
                post,
                res,
            ),
            Request::Poll { queue_name, visibility_timeout_sec, batch_size } => poll_dispatched(
                pre,
                queue_name@,
                visibility_timeout_sec,
                batch_size,
                now,
                post,
                res,
            ),
            Request::Ack { queue_name, message_id, receipt_handle } => ack_dispatched(
                pre,
                queue_name@,
                seq![(message_id@, receipt_handle@)],
                false,
                now,
                post,
                res,
            ),
            Request::AckBatch { queue_name, items } => ack_dispatched(
                pre,
                queue_name@,
                raft::ack_pairs(items@),
                true,
                now,
                post,
                res,
            ),
            Request::RaftVote { term, candidate_id, .. } => {
                let granted = term > pre.raft.current_term;
                &&& post == if granted {
                    pre.with_raft(
                        RaftView {
                            current_term: term,
                            role: RaftRole::Follower,
                            is_leader_cached: false,
                            current_leader: Some(candidate_id@),
                            ..pre.raft
                        },
                    )
                } else {
                    pre
                }
                &&& answers(
                    res,
                    ResponseView::RaftVote {
                        term: post.raft.current_term,
                        vote_granted: granted,
                    },
                )
            },
            Request::RaftAppend {
                term,
                leader_id,
                prev_log_index,
                prev_log_term,
                entries,
                leader_commit,
            } => post == pre && (res matches Dispatch::Append { pending } && pending == (
            PendingAppend {
                term,
                leader_id,
                prev_log_index,
                prev_log_term,
                entries,
                leader_commit,
            })),
            Request::RaftInstallSnapshot {
                term,
                leader_id,
                last_included_index,
                last_included_term,
                items,
            } => {
                let success = term >= pre.raft.current_term;
                &&& if success {
                    post == pre.with_raft(post.raft) && raft::snapshot_installed(
                        pre.raft,
                        term,
                        leader_id@,
                        last_included_index,
                        last_included_term,
                        items@,
                        now,
                        post.raft,
                    )
                } else {
                    post == pre
                }
                &&& answers(res, ResponseView::RaftInstallSnapshot { term, success })
            },
            Request::JoinCluster { peer_addr } => {
                let peers = if pre.raft.peers.contains(peer_addr@) || peer_addr@
                    == pre.raft.node_id {
                    pre.raft.peers
                } else {
                    pre.raft.peers.push(peer_addr@)
                };
                &&& post == pre.with_raft(RaftView { peers, ..pre.raft })
                &&& answers(
                    res,
                    ResponseView::ClusterMembership {
                        success: true,
                        members: seq![pre.raft.node_id] + peers,
                    },
                )
            },
            Request::LeaveCluster { peer_addr } => {
                let peers = raft_model::texts_without(pre.raft.peers, peer_addr@);
                &&& post == pre.with_raft(RaftView { peers, ..pre.raft })
                &&& answers(
                    res,
                    ResponseView::ClusterMembership {
                        success: true,
                        members: seq![pre.raft.node_id] + peers,
                    },
                )
            },
            Request::Metrics => post == pre && answers(
                res,
                if pre.enable_metrics {
                    ResponseView::Metrics {
                        prometheus_text: metrics::prometheus_text(
                            pre.metrics,
                            pre.raft.engine.total_in_ram,
                            pre.raft.is_leader_cached,
                        ),
                    }
                } else {
                    ResponseView::Error {
                        message: "metrics endpoint is disabled on this server"@,
                    }
                },
            ),
        }
    }
}

/// What a push is answered, given the replies of the peers.
pub open spec fn push_finished(
    pre: ServerView,
    proposal: PushProposalView,
    batch: bool,
    replies: Seq<bool>,
    now: u64,
    post: ServerView,
    response: ResponseView,
) -> bool {
    if raft_model::quorum_met(proposal.replication.peers.len(), replies) {
        exists|raft: RaftView| #[trigger]
            pre.raft.commits_push_to(proposal, now, raft) && if batch {
                &&& post == pre.with_raft(raft).counting_push(proposal.message_ids.len())
                &&& response == (ResponseView::PushBatch { message_ids: proposal.message_ids })
            } else {
                &&& post == pre.with_raft(raft).counting_push(1)
                &&& response == (ResponseView::Push {
                    message_id: if proposal.message_ids.len() > 0 {
                        proposal.message_ids[0]
                    } else {
                        Seq::empty()
                    },
                })
            }
    } else {
        post == pre && response == (ResponseView::Error {
            message: "QUORUM_FAILED: Failed to replicate batch to majority quorum"@,
        })
    }
}

/// What an acknowledgement is answered, once the peers were told.
pub open spec fn ack_finished(
    pre: ServerView,
    proposal: AckProposalView,
    batch: bool,
    post: ServerView,
    response: ResponseView,
) -> bool {
    let raft = (RaftView { commit_index: proposal.last_index, ..pre.raft }).compacted_if_due(
        proposal.last_index,
    );
    let n = proposal.acked_count;
    if batch {
        &&& post == pre.with_raft(raft).counting_ack(n as nat)
        &&& response == (ResponseView::AckBatch { acked_count: (n as int % 0x1_0000_0000) as u32 })
    } else {
        &&& post == pre.with_raft(raft).counting_ack(
            if n > 0 {
                1
            } else {
                0
            },
        )
        &&& response == (ResponseView::Ack { success: n > 0 })
    }
}

/// What a step of the scan that a poll waits for comes to.
pub open spec fn poll_continued(
    pre: ServerView,
    poll: PendingPollView,
    read: SegmentRead,
    post: ServerView,
    then_poll: PendingPollView,
    again: bool,
) -> bool {
    let (engine, scan, more) = pre.raft.engine.page_step(poll.scan, read);
    &&& post == pre.with_engine(engine)
    &&& then_poll == (PendingPollView { scan, ..poll })
    &&& again == more
}

/// What a poll is answered after the scan that it waited for.
pub open spec fn poll_finished(
    pre: ServerView,
    poll: PendingPollView,
    now: u64,
    post: ServerView,
    response: ResponseView,
) -> bool {
    pre.poll_answered(
        poll.queue_name,
        poll.visibility_timeout_sec,
        poll.batch_size,
        now,
        post,
        response,
    )
}

/// What a leader is answered to its entries.
pub open spec fn append_finished(
    pre: ServerView,
    term: u64,
    leader_id: Seq<char>,
    entries: Seq<EntryView>,
    now: u64,
    post: ServerView,
    response: ResponseView,
) -> bool {
    let success = term >= pre.raft.current_term;
    &&& if success {
        &&& post == pre.with_raft(post.raft)
        &&& raft::entries_appended(pre.raft, term, leader_id, entries, now, post.raft)
    } else {
        post == pre
    }
    &&& response == (ResponseView::RaftAppend { term: post.raft.current_term, success })
}

/// What a look at the log for a compaction that is due comes to.
pub open spec fn compaction_checked(pre: ServerView, segment: Seq<u8>, post: ServerView) -> bool {
    let engine = pre.raft.engine;
    post == if engine.disk.compaction_due() {
        pre.counting_compaction().with_engine(
            engine.compacted(wal::records_in(segment, engine.disk.registry)),
        )
    } else {
        pre
    }
}

/// A node that answers requests.
pub struct WalrServer {
    pub raft: RaftNode,
    local_node_id: String,
    max_connections: usize,
    enable_metrics: bool,
    pub metrics: WalrMetrics,
}

impl View for WalrServer {
    type V = ServerView;

    closed spec fn view(&self) -> ServerView {
        ServerView {
            raft: self.raft@,
            local_node_id: self.local_node_id@,
            max_connections: self.max_connections,
            enable_metrics: self.enable_metrics,
            metrics: self.metrics,
        }
    }
}

fn done(response: Response) -> (res: Dispatch)
    ensures
        answers(res, response@),
{
    Dispatch::Done { response }
}

impl WalrServer {
    pub closed spec fn wf(&self) -> bool {
        self.raft.wf()
    }

    pub fn new_raft(raft: RaftNode, local_node_id: String) -> (res: Self)
        requires
            raft.wf(),
        ensures
            res.wf(),
            res@.raft == raft@,
            res@.local_node_id == local_node_id@,
            res@.max_connections == DEFAULT_MAX_CONNECTIONS,
            res@.enable_metrics,
            res@.metrics == (WalrMetrics {
                messages_pushed_total: 0,
                messages_acked_total: 0,
                messages_polled_total: 0,
                in_flight_messages: 0,
                wal_compaction_count: 0,
            }),
    {
        Self::new_raft_with_limits(raft, local_node_id, DEFAULT_MAX_CONNECTIONS, true)
    }

    pub fn new_raft_with_limits(
        raft: RaftNode,
        local_node_id: String,
        max_connections: usize,
        enable_metrics: bool,
    ) -> (res: Self)
        requires
            raft.wf(),
        ensures
            res.wf(),
            res@.raft == raft@,
            res@.local_node_id == local_node_id@,
            res@.max_connections == max_connections,
            res@.enable_metrics == enable_metrics,
            res@.metrics == (WalrMetrics {
                messages_pushed_total: 0,
                messages_acked_total: 0,
                messages_polled_total: 0,
                in_flight_messages: 0,
                wal_compaction_count: 0,
            }),
    {
        WalrServer {
            raft,
            local_node_id,
            max_connections,
            enable_metrics,
            metrics: WalrMetrics::default(),
        }
    }

    /// How many connections the node takes at a time.
    pub fn max_connections(&self) -> (n: usize)
        ensures
            n == self@.max_connections,
    {
        self.max_connections
    }

    /// Whether the log has indices left for what the request may add. A node that is not the
    /// leader adds nothing.
    pub fn has_room_for(&self, req: &Request) -> (res: bool)
        ensures
            res == self@.has_room(*req),
    {
        if !self.raft.is_leader_fast() {
            return true;
        }
        let n: usize = match req {
            Request::Push { .. } => 1,
            Request::PushBatch { items, .. } => items.len(),
            Request::Ack { .. } => 1,
            Request::AckBatch { items, .. } => items.len(),
            _ => 0,
        };
        self.raft.has_index_room(n)
    }

    fn redirect(&self) -> (res: Dispatch)
        ensures
            answers(res, ResponseView::Redirect { leader: self@.raft.leader_name() }),
    {
        done(Response::Redirect { leader: self.raft.leader_name() })
    }

    /// The answer to a message id of the wrong length, if it has one.
    fn check_id(message_id: &str) -> (res: Option<Response>)
        ensures
            match res {
                Some(response) => has_wrong_length(message_id@) && response@
                    == wrong_length_response(),
                None => !has_wrong_length(message_id@),
            },
    {
        if !message_id.is_empty() && message_id.as_bytes().len() != 26 {
            match ulid_from_string(message_id) {
                Ok(_) => {
                    proof {
                        lemma_ulid_is_26_bytes(message_id@);
                    }
                    None
                },
                Err(e) => {
                    let mut message: String = "invalid ULID message_id: ".to_owned();
                    message.append(e.text().as_str());
                    Some(Response::Error { message })
                },
            }
        } else {
            None
        }
    }

    fn dispatch_push(
        &mut self,
        queue_name: String,
        payload: Vec<u8>,
        delay_seconds: u64,
        message_id: String,
    ) -> (res: Dispatch)
        requires
            old(self).wf(),
            old(self)@.raft.next_index() + 1 <= u64::MAX,
        ensures
            final(self).wf(),
            push_dispatched(
                old(self)@,
                queue_name@,
                ClientPush { id_text: message_id@, payload: payload@, delay: delay_seconds },
                final(self)@,
                res,
            ),
    {
        match Self::check_id(message_id.as_str()) {
            Some(response) => {
                return done(response);
            },
            None => {},
        }
        let ghost item = ClientPush {
            id_text: message_id@,
            payload: payload@,
            delay: delay_seconds,
        };
        let proposed = self.raft.propose_push_str(
            queue_name.as_str(),
            message_id.as_str(),
            payload,
            delay_seconds,
        );
        proof {
            assert(self@ =~= old(self)@.with_raft(self.raft@));
            let fresh = choose|fresh: u128| #[trigger]
                raft::push_proposed(
                    old(self)@.raft,
                    queue_name@,
                    seq![item],
                    seq![fresh],
                    self@.raft,
                    proposed,
                );
            assert(raft::push_proposed(
                old(self)@.raft,
                queue_name@,
                seq![item],
                seq![fresh],
                self@.raft,
                proposed,
            ));
        }
        match proposed {
            Ok(Some(proposal)) => Dispatch::Push { proposal, batch: false },
            Ok(None) => done(Response::PushBatch { message_ids: Vec::new() }),
            Err(message) => done(Response::Error { message }),
        }
    }

    fn dispatch_push_batch(&mut self, queue_name: String, items: Vec<BatchPushItem>) -> (res:
        Dispatch)
        requires
            old(self).wf(),
            old(self)@.raft.next_index() + items@.len() <= u64::MAX,
        ensures
            final(self).wf(),
            push_batch_dispatched(
                old(self)@,
                queue_name@,
                raft::batch_pushes(items@),
                final(self)@,
                res,
            ),
    {
        let ghost views = raft::batch_pushes(items@);
        let mut i: usize = 0;
        while i < items.len()
            invariant
                self == old(self),
                self.wf(),
                i <= items.len(),
                views == raft::batch_pushes(items@),
                forall|k: int| 0 <= k < i ==> !has_wrong_length((#[trigger] views[k]).id_text),
            decreases items.len() - i,
        {
            proof {
                assert(views[i as int].id_text == items@[i as int].message_id@);
            }
            match Self::check_id(items[i].message_id.as_str()) {
                Some(response) => {
                    return done(response);
                },
                None => {},
            }
            i += 1;
        }
        let proposed = self.raft.propose_push_batch_items(queue_name.as_str(), items);
        proof {
            assert(self@ =~= old(self)@.with_raft(self.raft@));
            let fresh = choose|fresh: Seq<u128>|
                fresh.len() == items@.len() && #[trigger] raft::push_proposed(
                    old(self)@.raft,
                    queue_name@,
                    views,
                    fresh,
                    self@.raft,
                    proposed,
                );
            assert(raft::push_proposed(
                old(self)@.raft,
                queue_name@,
                views,
                fresh,
                self@.raft,
                proposed,
            ));
        }
        match proposed {
            Ok(Some(proposal)) => Dispatch::Push { proposal, batch: true },
            Ok(None) => {
                let message_ids: Vec<String> = Vec::new();
                proof {
                    assert(registry::text_views(message_ids@) =~= Seq::empty());
                }
                done(Response::PushBatch { message_ids })
            },
            Err(message) => done(Response::Error { message }),
        }
    }

    fn dispatch_ack(
        &mut self,
        queue_name: String,
        items: Vec<(String, String)>,
        batch: bool,
        now: u64,
    ) -> (res: Dispatch)
        requires
            old(self).wf(),
            old(self)@.raft.next_index() + items@.len() <= u64::MAX,
        ensures
            final(self).wf(),
            ack_dispatched(
                old(self)@,
                queue_name@,
                queue::pair_views(items@),
                batch,
                now,
                final(self)@,
                res,
            ),
    {
        let proposed = self.raft.propose_ack_batch(queue_name.as_str(), items, now);
        proof {
            assert(self@ =~= old(self)@.with_raft(self.raft@));
            assert(raft::ack_proposed(
                old(self)@.raft,
                queue_name@,
                queue::pair_views(items@),
                now,
                self@.raft,
                proposed,
            ));
        }
        match proposed {
            Ok(Some(proposal)) => Dispatch::Ack { proposal, batch },
            Ok(None) => {
                if batch {
                    done(Response::AckBatch { acked_count: 0 })
                } else {
                    done(Response::Ack { success: false })
                }
            },
            Err(message) => done(Response::Error { message }),
        }
    }

    /// Answers a poll from what is ready.
    fn answer_poll(
        &mut self,
        queue_name: &str,
        visibility_timeout_sec: u32,
        batch_size: u32,
        now: u64,
    ) -> (response: Response)
        requires
            old(self).wf(),
            now + u32::MAX <= u64::MAX,
        ensures
            final(self).wf(),
            old(self)@.poll_answered(
                queue_name@,
                visibility_timeout_sec,
                batch_size,
                now,
                final(self)@,
                response@,
            ),
    {
        let polled: Vec<PolledMessage> = match self.raft.engine_poll(
            queue_name,
            visibility_timeout_sec,
            batch_size,
            now,
        ) {
            Ok(polled) => polled,
            Err(_) => Vec::new(),
        };
        let ghost engine = self.raft@.engine;
        let ghost views = shard::polled_views(polled@);
        proof {
            assert(self@ =~= old(self)@.with_engine(engine));
            assert(polls_to(
                old(self)@.raft.engine,
                queue_name@,
                visibility_timeout_sec,
                batch_size,
                now,
                engine,
                views,
            ));
        }
        if !polled.is_empty() {
            self.metrics.record_poll(polled.len() as u64);
        }
        let mut messages: Vec<Message> = Vec::new();
        for m in it: polled
            invariant
                views == shard::polled_views(it.seq()),
                messages@.len() == it.index(),
                forall|k: int| 0 <= k < messages@.len() ==> (#[trigger] messages@[k])@ == views[k],
        {
            proof {
                assert(views[it.index() as int] == m@);
            }
            messages.push(
                Message {
                    message_id: m.message_id,
                    payload: m.payload,
                    receipt_handle: m.receipt_handle,
                    delivery_count: m.delivery_count,
                },
            );
        }
        proof {
            assert(protocol::message_views(messages@) =~= views);
            assert(self@ =~= old(self)@.with_engine(engine).counting_poll(views.len()));
        }
        Response::Poll { messages }
    }

    fn dispatch_poll(
        &mut self,
        queue_name: String,
        visibility_timeout_sec: u32,
        batch_size: u32,
        now: u64,
    ) -> (res: Dispatch)
        requires
            old(self).wf(),
            now + u32::MAX <= u64::MAX,
        ensures
            final(self).wf(),
            poll_dispatched(
                old(self)@,
                queue_name@,
                visibility_timeout_sec,
                batch_size,
                now,
                final(self)@,
                res,
            ),
    {
        let max: u32 = if batch_size == 0 { 1 } else { batch_size };
        let scan: Option<ColdScan> = self.raft.engine_begin_poll(queue_name.as_str(), max, now);
        proof {
            assert(self@ =~= old(self)@.with_engine(self.raft@.engine));
        }
        match scan {
            Some(scan) => Dispatch::Poll {
                poll: PendingPoll { queue_name, visibility_timeout_sec, batch_size: max, scan },
            },
            None => done(
                self.answer_poll(queue_name.as_str(), visibility_timeout_sec, max, now),
            ),
        }
    }

    /// Takes a request. The answer is there at once, or follows when what the request waits
    /// for is there.
    pub fn dispatch(&mut self, req: Request, now: u64) -> (res: Dispatch)
        requires
            old(self).wf(),
            now + u32::MAX <= u64::MAX,
            old(self)@.has_room(req),
        ensures
            final(self).wf(),
            dispatched(old(self)@, req, now, final(self)@, res),
    {
        match req {
            Request::Push { queue_name, payload, delay_seconds, message_id } => {
                if !self.raft.is_leader_fast() {
                    return self.redirect();
                }
                self.dispatch_push(queue_name, payload, delay_seconds, message_id)
            },
            Request::PushBatch { queue_name, items } => {
                if !self.raft.is_leader_fast() {
                    return self.redirect();
                }
                self.dispatch_push_batch(queue_name, items)
            },
            Request::Poll { queue_name, visibility_timeout_sec, batch_size } => {
                if !self.raft.is_leader_fast() {
                    return self.redirect();
                }
                self.dispatch_poll(queue_name, visibility_timeout_sec, batch_size, now)
            },
            Request::Ack { queue_name, message_id, receipt_handle } => {
                if !self.raft.is_leader_fast() {
                    return self.redirect();
                }
                let mut items: Vec<(String, String)> = Vec::new();
                items.push((message_id, receipt_handle));
                proof {
                    assert(queue::pair_views(items@) =~= seq![(message_id@, receipt_handle@)]);
                }
                self.dispatch_ack(queue_name, items, false, now)
            },
            Request::AckBatch { queue_name, items } => {
                if !self.raft.is_leader_fast() {
                    return self.redirect();
                }
                let pairs: Vec<(String, String)> = Self::ack_pairs(items);
                self.dispatch_ack(queue_name, pairs, true, now)
            },
            Request::RaftVote { term, candidate_id, last_log_index, last_log_term } => {
                let vote_granted: bool = self.raft.handle_vote(
                    term,
                    candidate_id.as_str(),
                    last_log_index,
                    last_log_term,
                );
                proof {
                    assert(self@ =~= old(self)@.with_raft(self.raft@));
                }
                done(Response::RaftVote { term: self.raft.current_term(), vote_granted })
            },
            Request::RaftAppend {
                term,
                leader_id,
                prev_log_index,
                prev_log_term,
                entries,
                leader_commit,
            } => Dispatch::Append {
                pending: PendingAppend {
                    term,
                    leader_id,
                    prev_log_index,
                    prev_log_term,
                    entries,
                    leader_commit,
                },
            },
            Request::RaftInstallSnapshot { .. } => self.dispatch_snapshot(req, now),
            Request::JoinCluster { peer_addr } => {
                if !self.raft.is_leader_fast() {
                    return self.redirect();
                }
                self.raft.add_peer(peer_addr.as_str());
                proof {
                    assert(self@ =~= old(self)@.with_raft(self.raft@));
                }
                done(
                    Response::ClusterMembership { success: true, members: self.raft.get_peers() },
                )
            },
            Request::LeaveCluster { peer_addr } => {
                if !self.raft.is_leader_fast() {
                    return self.redirect();
                }
                self.raft.remove_peer(peer_addr.as_str());
                proof {
                    assert(self@ =~= old(self)@.with_raft(self.raft@));
                }
                done(
                    Response::ClusterMembership { success: true, members: self.raft.get_peers() },
                )
            },
            Request::Metrics => {
                if !self.enable_metrics {
                    return done(
                        Response::Error {
                            message: "metrics endpoint is disabled on this server".to_owned(),
                        },
                    );
                }
                let ram: usize = self.raft.total_messages_in_ram();
                let is_leader: bool = self.raft.is_leader_fast();
                done(
                    Response::Metrics {
                        prometheus_text: self.metrics.render_prometheus(ram, is_leader),
                    },
                )
            },
        }
    }

    fn dispatch_snapshot(&mut self, req: Request, now: u64) -> (res: Dispatch)
        requires
            old(self).wf(),
            req is RaftInstallSnapshot,
            now + HOT_DELAY_HORIZON_SEC <= u64::MAX,
        ensures
            final(self).wf(),
            dispatched(old(self)@, req, now, final(self)@, res),
    {
        let term: u64 = match &req {
            Request::RaftInstallSnapshot { term, .. } => *term,
            _ => 0,
        };
        let success: bool = self.raft.handle_install_snapshot(req, now);
        proof {
            assert(self@ =~= old(self)@.with_raft(self.raft@));
        }
        done(Response::RaftInstallSnapshot { term, success })
    }

    fn ack_pairs(items: Vec<AckItem>) -> (pairs: Vec<(String, String)>)
        ensures
            queue::pair_views(pairs@) == raft::ack_pairs(items@),
            pairs@.len() == items@.len(),
    {
        let ghost views = raft::ack_pairs(items@);
        let mut pairs: Vec<(String, String)> = Vec::new();
        for item in it: items
            invariant
                views == raft::ack_pairs(it.seq()),
                pairs@.len() == it.index(),
                forall|k: int|
                    0 <= k < pairs@.len() ==> ((#[trigger] pairs@[k]).0@, pairs@[k].1@) == views[k],
        {
            proof {
                assert(views[it.index() as int] == (item.message_id@, item.receipt_handle@));
            }
            pairs.push((item.message_id, item.receipt_handle));
        }
        proof {
            assert(queue::pair_views(pairs@) =~= views);
        }
        pairs
    }

    /// Answers a push, given the replies of the peers.
    pub fn finish_push(
        &mut self,
        proposal: PushProposal,
        batch: bool,
        replies: &Vec<bool>,
        now: u64,
    ) -> (response: Response)
        requires
            old(self).wf(),
            proposal.wf(),
            now + HOT_DELAY_HORIZON_SEC <= u64::MAX,
            forall|k: int|
                0 <= k < proposal@.items.len() ==> now + (
                #[trigger] proposal@.items[k]).delay_seconds <= u64::MAX,
        ensures
            final(self).wf(),
            push_finished(
                old(self)@,
                proposal@,
                batch,
                replies@,
                now,
                final(self)@,
                response@,
            ),
    {
        if batch {
            match self.raft.commit_push_batch(proposal, replies, now) {
                Ok(message_ids) => {
                    let ghost raft = self.raft@;
                    self.metrics.record_push(message_ids.len() as u64);
                    proof {
                        assert(message_ids@.len() == registry::text_views(message_ids@).len());
                        assert(self@ =~= old(self)@.with_raft(raft).counting_push(
                            proposal@.message_ids.len(),
                        ));
                    }
                    Response::PushBatch { message_ids }
                },
                Err(message) => {
                    proof {
                        assert(self@ =~= old(self)@);
                    }
                    Response::Error { message }
                },
            }
        } else {
            match self.raft.commit_push(proposal, replies, now) {
                Ok(message_id) => {
                    let ghost raft = self.raft@;
                    self.metrics.record_push(1);
                    proof {
                        assert(self@ =~= old(self)@.with_raft(raft).counting_push(1));
                    }
                    Response::Push { message_id }
                },
                Err(message) => {
                    proof {
                        assert(self@ =~= old(self)@);
                    }
                    Response::Error { message }
                },
            }
        }
    }

    /// Answers an acknowledgement, once the peers were told.
    pub fn finish_ack(&mut self, proposal: AckProposal, batch: bool) -> (response: Response)
        requires
            old(self).wf(),
        ensures
            final(self).wf(),
            ack_finished(old(self)@, proposal@, batch, final(self)@, response@),
    {
        let acked: usize = self.raft.commit_ack_batch(proposal);
        let ghost raft = self.raft@;
        proof {
            assert(self@ =~= old(self)@.with_raft(raft));
        }
        if acked > 0 {
            self.metrics.record_ack(if batch { acked as u64 } else { 1 });
        }
        if batch {
            proof {
                assert(self@ =~= old(self)@.with_raft(raft).counting_ack(acked as nat));
            }
            Response::AckBatch { acked_count: (acked as u64 % 0x1_0000_0000) as u32 }
        } else {
            proof {
                assert(self@ =~= old(self)@.with_raft(raft).counting_ack(
                    if acked > 0 {
                        1
                    } else {
                        0
                    },
                ));
            }
            Response::Ack { success: acked > 0 }
        }
    }

    /// One step of the scan that a poll waits for; says whether the segment is to be read
    /// again.
    pub fn continue_poll(&mut self, poll: &mut PendingPoll, read: &SegmentRead) -> (again: bool)
        requires
            old(self).wf(),
            old(poll)@.scan.now + HOT_DELAY_HORIZON_SEC <= u64::MAX,
            read.is_window(old(self)@.raft.engine.spill_offset),
        ensures
            final(self).wf(),
            poll_continued(old(self)@, old(poll)@, *read, final(self)@, final(poll)@, again),
    {
        let again: bool = self.raft.engine_page_in(&mut poll.scan, read);
        proof {
            assert(self@ =~= old(self)@.with_engine(self.raft@.engine));
        }
        again
    }

    /// Answers a poll after the scan it waited for.
    pub fn finish_poll(&mut self, poll: PendingPoll, now: u64) -> (response: Response)
        requires
            old(self).wf(),
            now + u32::MAX <= u64::MAX,
        ensures
            final(self).wf(),
            poll_finished(old(self)@, poll@, now, final(self)@, response@),
    {
        self.answer_poll(
            poll.queue_name.as_str(),
            poll.visibility_timeout_sec,
            poll.batch_size,
            now,
        )
    }

    /// Answers the leader, given its entries with their commands decoded.
    pub fn finish_append(
        &mut self,
        term: u64,
        leader_id: &str,
        entries: Vec<ReceivedEntry>,
        now: u64,
    ) -> (response: Response)
        requires
            old(self).wf(),
            now + HOT_DELAY_HORIZON_SEC <= u64::MAX,
            raft_model::delays_fit(raft::decoded(entries@), now),
        ensures
            final(self).wf(),
            append_finished(
                old(self)@,
                term,
                leader_id@,
                raft::decoded(entries@),
                now,
                final(self)@,
                response@,
            ),
    {
        let success: bool = self.raft.handle_append_entries(
            term,
            leader_id,
            0,
            0,
            entries,
            0,
            now,
        );
        proof {
            assert(self@ =~= old(self)@.with_raft(self.raft@));
        }
        Response::RaftAppend { term: self.raft.current_term(), success }
    }

    /// Has the log flushed and the replicated log compacted, before the node stops.
    pub fn drain_and_flush(&mut self)
        requires
            old(self).wf(),
        ensures
            final(self).wf(),
            final(self)@ == ({
                let engine = old(self)@.raft.engine;
                let flushed = old(self)@.with_engine(engine.with_disk(engine.disk.flush()));
                flushed.with_raft(flushed.raft.compacted())
            }),
    {
        self.raft.engine_flush();
        self.raft.compact_log_snapshot();
        proof {
            let engine = old(self)@.raft.engine;
            let flushed = old(self)@.with_engine(engine.with_disk(engine.disk.flush()));
            assert(self@ =~= flushed.with_raft(flushed.raft.compacted()));
        }
    }

    /// Compacts the active segment, whose content is `segment`, where that is due, and counts
    /// it.
    pub fn compact_where_due(&mut self, segment: &[u8])
        requires
            old(self).wf(),
        ensures
            final(self).wf(),
            compaction_checked(old(self)@, segment@, final(self)@),
    {
        let due: bool = self.raft.engine_compaction_due();
        if due {
            self.raft.engine_compact(segment);
            self.metrics.record_wal_compact();
            proof {
                let engine = old(self)@.raft.engine;
                assert(self@ =~= old(self)@.counting_compaction().with_engine(
                    engine.compacted(wal::records_in(segment@, engine.disk.registry)),
                ));
            }
        }
    }

    /// Hands over what has to be done to the files.
    pub fn take_actions(&mut self) -> (actions: Vec<DiskAction>)
        requires
            old(self).wf(),
        ensures
            final(self).wf(),
            disk_log::action_views(actions@) == old(self)@.raft.engine.disk.actions,
            final(self)@ == old(self)@.with_engine(
                old(self)@.raft.engine.with_disk(
                    (DiskView { actions: Seq::empty(), ..old(self)@.raft.engine.disk }),
                ),
            ),
    {
        let actions: Vec<DiskAction> = self.raft.engine_take_actions();
        proof {
            assert(self@ =~= old(self)@.with_engine(self.raft@.engine));
        }
        actions
    }
}

/// A ULID text is 26 bytes long.
pub proof fn lemma_ulid_is_26_bytes(text: Seq<char>)
    requires
        crate::ids::ulid_value(text) is Some,
    ensures
        utf8::encode_utf8(text).len() == 26,
{
    assert forall|i: int| 0 <= i < text.len() implies (#[trigger] text[i]) as u32 <= 127 by {
        assert(crate::ids::crockford_value(text[i]) is Some);
    }
    utf8::is_ascii_chars_encode_utf8(text);
}

}
