//! What requests are answered, and what they leave alone.
use vstd::prelude::*;
use vstd::utf8;

use crate::cluster::appending;
use crate::cluster::discovery;
use crate::cluster::raft;
use crate::cluster::raft_model;
use crate::cluster::raft_model::{EntryView, RaftRole, RaftView};
use crate::cluster::snapshots;
use crate::engine::arrivals;
use crate::engine::compaction;
use crate::engine::counting;
use crate::engine::disk_log::{DiskView, SurvivorView};
use crate::engine::exclusive;
use crate::engine::model;
use crate::engine::model::EngineView;
use crate::engine::single_queue::HOT_DELAY_HORIZON_SEC;
use crate::engine::timing;
use crate::engine::wal;
use crate::ids;
use crate::metrics;
use crate::protocol::{Request, ResponseView};
use crate::server::laws;
use crate::server::tcp_service;
use crate::server::tcp_service::{Dispatch, ServerView};
use crate::text;

verus! {

/// The request comes from a client or from an operator, not from a peer.
pub open spec fn is_client_request(req: Request) -> bool {
    ||| req is Push
    ||| req is PushBatch
    ||| req is Poll
    ||| req is Ack
    ||| req is AckBatch
    ||| req is JoinCluster
    ||| req is LeaveCluster
}

/// A node that does not lead sends clients to the leader that it knows of, and changes nothing.
pub proof fn law_client_is_sent_to_the_leader(
    pre: ServerView,
    req: Request,
    now: u64,
    post: ServerView,
    res: Dispatch,
)
    requires
        tcp_service::dispatched(pre, req, now, post, res),
        is_client_request(req),
        !pre.raft.is_leader_cached,
    ensures
        post == pre,
        res is Done,
        res->response@ is Redirect,
        pre.raft.current_leader matches Some(name) ==> res->response@->leader == name,
        pre.raft.current_leader is None ==> res->response@->leader.len() == 0,
{
}

/// No request is sent to another node by the leader.
pub proof fn law_leader_sends_nobody_away(
    pre: ServerView,
    req: Request,
    now: u64,
    post: ServerView,
    res: Dispatch,
)
    requires
        tcp_service::dispatched(pre, req, now, post, res),
        pre.raft.is_leader_cached,
    ensures
        res matches Dispatch::Done { response } ==> !(response@ is Redirect),
{
}

/// The id is neither empty nor 26 bytes long.
pub open spec fn is_misfit(id_text: Seq<char>) -> bool {
    id_text.len() > 0 && utf8::encode_utf8(id_text).len() != 26
}

/// A push with an id that is neither empty nor 26 bytes long is refused as a whole, and changes
/// nothing. Any other push of at least one message goes to the peers.
pub proof fn law_push_with_misfit_id_is_refused(
    pre: ServerView,
    req: Request,
    now: u64,
    post: ServerView,
    res: Dispatch,
)
    requires
        tcp_service::dispatched(pre, req, now, post, res),
        req is Push || req is PushBatch,
        pre.raft.is_leader_cached,
        pre.raft.role == RaftRole::Leader,
    ensures
        (exists|k: int|
            0 <= k < laws::asked_count(req) && is_misfit(#[trigger] laws::asked_id(req, k)))
            ==> post == pre && (res matches Dispatch::Done { response } && response@ is Error),
        (forall|k: int|
            0 <= k < laws::asked_count(req) ==> !is_misfit(#[trigger] laws::asked_id(req, k)))
            && laws::asked_count(req) > 0 ==> res is Push,
        laws::asked_count(req) == 0 ==> post == pre && (res matches Dispatch::Done { response }
            && response@ == (ResponseView::PushBatch { message_ids: Seq::empty() })),
{
    match req {
        Request::Push { queue_name, payload, delay_seconds, message_id } => {
            assert(laws::asked_id(req, 0) == message_id@);
        },
        Request::PushBatch { queue_name, items } => {
            let pushes = raft::batch_pushes(items@);
            assert forall|i: int| 0 <= i < items@.len() implies is_misfit(
                laws::asked_id(req, i),
            ) == tcp_service::has_wrong_length((#[trigger] pushes[i]).id_text) by {
                assert(pushes[i].id_text == items@[i].message_id@);
            }
            if exists|k: int|
                0 <= k < laws::asked_count(req) && is_misfit(#[trigger] laws::asked_id(req, k)) {
                let k = choose|k: int|
                    0 <= k < laws::asked_count(req) && is_misfit(
                        #[trigger] laws::asked_id(req, k),
                    );
                assert(tcp_service::has_wrong_length(pushes[k].id_text));
            }
            if exists|i: int|
                0 <= i < pushes.len() && tcp_service::has_wrong_length(
                    (#[trigger] pushes[i]).id_text,
                ) {
                let i = choose|i: int|
                    0 <= i < pushes.len() && tcp_service::has_wrong_length(
                        (#[trigger] pushes[i]).id_text,
                    );
                assert(is_misfit(laws::asked_id(req, i)));
            }
        },
        _ => {},
    }
}

/// What a push sends to the peers of the time is also at the end of the leader's log: for each
/// message one entry of the leader's term, numbered on from the log, with the queue, an id, the
/// payload and the delay that were asked for. No queue changes before the peers replied.
pub proof fn law_push_is_told_to_every_peer(
    pre: ServerView,
    req: Request,
    now: u64,
    mid: ServerView,
    res: Dispatch,
    k: int,
)
    requires
        tcp_service::dispatched(pre, req, now, mid, res),
        req is Push || req is PushBatch,
        res is Push,
        0 <= k < laws::asked_count(req),
        pre.raft.next_index() + laws::asked_count(req) <= u64::MAX + 1,
    ensures
        ({
            let p = res->Push_proposal@;
            let entry = p.replication.entries[k];
            &&& p.replication.peers == pre.raft.peers
            &&& p.replication.leader_id == pre.raft.node_id
            &&& p.replication.term == pre.raft.current_term
            &&& p.replication.entries.len() == laws::asked_count(req)
            &&& mid.raft.log == pre.raft.log + p.replication.entries
            &&& mid.raft.engine == pre.raft.engine
            &&& mid.raft.commit_index == pre.raft.commit_index
            &&& mid.metrics == pre.metrics
            &&& p.last_index == pre.raft.next_index() + laws::asked_count(req) - 1
            &&& entry.term == pre.raft.current_term
            &&& entry.index == pre.raft.next_index() + k
            &&& entry.command is Push
            &&& entry.command->Push_queue == laws::asked_queue(req)
            &&& entry.command->Push_msg_id == p.message_ids[k]
            &&& entry.command->payload == laws::asked_payload(req, k)
            &&& entry.command->visible_at == laws::asked_delay(req, k)
        }),
{
    let fresh = laws::lemma_push_proposal(pre, req, now, mid, res);
    let p = res->Push_proposal@;
    assert(p.items[k].payload == laws::asked_payload(req, k));
}

/// A vote is granted exactly to a candidate of a later term than the node's. The node then has
/// that term and follows the candidate; else nothing changes. The answer carries the node's term.
pub proof fn law_vote_goes_to_a_later_term(
    pre: ServerView,
    req: Request,
    now: u64,
    post: ServerView,
    res: Dispatch,
)
    requires
        tcp_service::dispatched(pre, req, now, post, res),
        req is RaftVote,
    ensures
        res is Done,
        res->response@ is RaftVote,
        res->response@->vote_granted == (req->RaftVote_term > pre.raft.current_term),
        res->response@->RaftVote_term == post.raft.current_term,
        post.raft.current_term >= pre.raft.current_term,
        post.raft.current_term >= req->RaftVote_term,
        res->response@->vote_granted ==> {
            &&& post.raft.current_term == req->RaftVote_term
            &&& post.raft.role == RaftRole::Follower
            &&& !post.raft.is_leader_cached
            &&& post.raft.current_leader == Some(req->candidate_id@)
            &&& post.raft.log == pre.raft.log
            &&& post.raft.engine == pre.raft.engine
            &&& post.raft.peers == pre.raft.peers
            &&& post.raft.commit_index == pre.raft.commit_index
        },
        !res->response@->vote_granted ==> post == pre,
{
}

/// A node grants at most one vote in a term.
pub proof fn law_one_vote_in_a_term(
    pre: ServerView,
    first: Request,
    now: u64,
    mid: ServerView,
    one: Dispatch,
    second: Request,
    later: u64,
    post: ServerView,
    two: Dispatch,
)
    requires
        tcp_service::dispatched(pre, first, now, mid, one),
        first is RaftVote,
        tcp_service::dispatched(mid, second, later, post, two),
        second is RaftVote,
        second->RaftVote_term <= first->RaftVote_term,
    ensures
        two is Done,
        two->response@ is RaftVote,
        !two->response@->vote_granted,
{
}

/// Entries of a leader of an earlier term are refused and change nothing. Others are taken in:
/// they are at the end of the log, and what they push and do not acknowledge is in memory. The
/// answer says which, and carries the node's term.
#[verifier::rlimit(60)]
pub proof fn law_leader_of_the_term_is_followed(
    pre: ServerView,
    term: u64,
    leader_id: Seq<char>,
    entries: Seq<EntryView>,
    now: u64,
    post: ServerView,
    response: ResponseView,
    k: int,
    id: u128,
)
    requires
        tcp_service::append_finished(pre, term, leader_id, entries, now, post, response),
    ensures
        response == (ResponseView::RaftAppend {
            term: post.raft.current_term,
            success: term >= pre.raft.current_term,
        }),
        term < pre.raft.current_term ==> post == pre,
        term >= pre.raft.current_term ==> {
            &&& post.raft.current_term == term
            &&& post.raft.current_leader == Some(leader_id)
            &&& post.metrics == pre.metrics
            &&& pre.raft.compaction_threshold == 0 ==> post.raft.log == pre.raft.log + entries
        },
        ({
            let e = pre.raft.engine;
            let command = entries[k].command;
            &&& term >= pre.raft.current_term
            &&& exclusive::all_exclusive(e)
            &&& counting::counted(e)
            &&& e.total_in_ram + entries.len() <= e.options.max_hot_messages_in_ram
            &&& 0 <= k < entries.len()
            &&& command is Push
            &&& ids::id_value(command->Push_msg_id) == Some(id)
            &&& !e.shard(command->Push_queue).seen.contains(id)
            &&& appending::no_push_before(entries, k, model::shard_of(command->Push_queue), id)
            &&& appending::no_ack(entries, model::shard_of(command->Push_queue), id)
            &&& command->visible_at <= HOT_DELAY_HORIZON_SEC
            &&& now + command->visible_at <= u64::MAX
        }) ==> arrivals::has_arrived(
            post.raft.engine,
            entries[k].command->Push_queue,
            id,
            entries[k].command->payload,
            (now + entries[k].command->visible_at) as u64,
        ),
        ({
            let e = pre.raft.engine;
            &&& term >= pre.raft.current_term
            &&& exclusive::all_exclusive(e)
            &&& counting::counted(e)
            &&& e.total_in_ram + entries.len() <= usize::MAX
            &&& 0 <= k < entries.len()
            &&& entries[k].command is Ack
            &&& ids::id_value(entries[k].command->Ack_msg_id) == Some(id)
        }) ==> post.raft.engine.shard(entries[k].command->Ack_queue).acked.contains(id),
{
    if term >= pre.raft.current_term {
        let engine = choose|engine: EngineView| #[trigger]
            raft_model::entries_lead_to(pre.raft.engine, entries, now, engine) && post.raft == (
            RaftView {
                engine,
                log: pre.raft.log + entries,
                ..pre.raft.following(term, leader_id)
            }).trimmed();
        assert(post.raft.engine == engine);
        let e = pre.raft.engine;
        let command = entries[k].command;
        if exclusive::all_exclusive(e) && counting::counted(e) && 0 <= k < entries.len() {
            if e.total_in_ram + entries.len() <= e.options.max_hot_messages_in_ram && command
                is Push && ids::id_value(command->Push_msg_id) == Some(id) && !e.shard(
                command->Push_queue,
            ).seen.contains(id) && appending::no_push_before(
                entries,
                k,
                model::shard_of(command->Push_queue),
                id,
            ) && appending::no_ack(entries, model::shard_of(command->Push_queue), id)
                && command->visible_at <= HOT_DELAY_HORIZON_SEC && now + command->visible_at
                <= u64::MAX {
                appending::law_appended_push_arrives(e, entries, now, engine, k, id);
            }
            if e.total_in_ram + entries.len() <= usize::MAX && command is Ack && ids::id_value(
                command->Ack_msg_id,
            ) == Some(id) {
                appending::law_appended_ack_removes(e, entries, now, engine, k, id);
            }
        }
    }
}

/// What a leader sends of its log is handed on to be decoded as it came, and changes nothing
/// until then.
pub proof fn law_entries_are_handed_on(
    pre: ServerView,
    req: Request,
    now: u64,
    post: ServerView,
    res: Dispatch,
)
    requires
        tcp_service::dispatched(pre, req, now, post, res),
        req is RaftAppend,
    ensures
        post == pre,
        res is Append,
        res->pending.term == req->RaftAppend_term,
        res->pending.leader_id == req->RaftAppend_leader_id,
        res->pending.entries == req->entries,
{
}

/// A snapshot of a leader of an earlier term is refused and changes nothing. After any other,
/// every message that it lists, the first of its id, whose id is one and which is due within the
/// horizon, is in memory with its queue, payload and time, if there is room for all that is
/// listed; and none comes up before its time.
#[verifier::rlimit(60)]
pub proof fn law_snapshot_is_installed(
    pre: ServerView,
    req: Request,
    now: u64,
    post: ServerView,
    res: Dispatch,
    i: int,
    id: u128,
)
    requires
        tcp_service::dispatched(pre, req, now, post, res),
        req is RaftInstallSnapshot,
        pre.raft.engine.inv(),
    ensures
        res is Done,
        res->response@ == (ResponseView::RaftInstallSnapshot {
            term: req->RaftInstallSnapshot_term,
            success: req->RaftInstallSnapshot_term >= pre.raft.current_term,
        }),
        req->RaftInstallSnapshot_term < pre.raft.current_term ==> post == pre,
        ({
            let items = req->RaftInstallSnapshot_items@;
            &&& req->RaftInstallSnapshot_term >= pre.raft.current_term
            &&& items.len() <= pre.raft.engine.options.max_hot_messages_in_ram
            &&& 0 <= i < items.len()
            &&& ids::id_value(items[i].id@) == Some(id)
            &&& snapshots::is_listed_first(items, i)
            &&& items[i].visible_at <= now + HOT_DELAY_HORIZON_SEC
        }) ==> {
            let item = req->RaftInstallSnapshot_items@[i];
            &&& arrivals::has_arrived(
                post.raft.engine,
                item.queue@,
                id,
                item.payload@,
                snapshots::listed_time(item, now),
            )
            &&& item.visible_at > now ==> timing::withheld(
                post.raft.engine,
                item.queue@,
                id,
                item.visible_at as int,
                u64::MAX + 1,
            )
        },
        req->RaftInstallSnapshot_term >= pre.raft.current_term ==> {
            &&& post.raft.current_leader == Some(req->RaftInstallSnapshot_leader_id@)
            &&& post.raft.current_term == req->RaftInstallSnapshot_term
            &&& post.raft.snapshot_index == req->last_included_index
            &&& post.raft.snapshot_term == req->last_included_term
            &&& post.raft.commit_index == req->last_included_index
            &&& forall|k: int|
                0 <= k < post.raft.log.len() ==> (#[trigger] post.raft.log[k]).index
                    > req->last_included_index
            &&& post.metrics == pre.metrics
        },
{
    let items = req->RaftInstallSnapshot_items@;
    let term = req->RaftInstallSnapshot_term;
    let leader_id = req->RaftInstallSnapshot_leader_id@;
    if term >= pre.raft.current_term {
        assert forall|k: int| 0 <= k < post.raft.log.len() implies (
        #[trigger] post.raft.log[k]).index > req->last_included_index by {
            snapshots::law_installed_snapshot_sets_the_log(
                pre.raft,
                term,
                leader_id,
                req->last_included_index,
                req->last_included_term,
                items,
                now,
                post.raft,
                post.raft.log[k],
            );
            assert(post.raft.log.contains(post.raft.log[k]));
        }
        if items.len() <= pre.raft.engine.options.max_hot_messages_in_ram && 0 <= i < items.len()
            && ids::id_value(items[i].id@) == Some(id) && snapshots::is_listed_first(items, i)
            && items[i].visible_at <= now + HOT_DELAY_HORIZON_SEC {
            snapshots::law_installed_snapshot_brings_its_messages(
                pre.raft,
                term,
                leader_id,
                req->last_included_index,
                req->last_included_term,
                items,
                now,
                post.raft,
                i,
                id,
                Seq::empty(),
            );
        }
    }
}

/// After a node joined, it is among the peers, once, unless it is this node; all others stay, and
/// the answer lists this node and all peers. To join twice changes nothing more.
pub proof fn law_joined_node_is_a_peer(
    pre: ServerView,
    req: Request,
    now: u64,
    post: ServerView,
    res: Dispatch,
    name: Seq<char>,
)
    requires
        tcp_service::dispatched(pre, req, now, post, res),
        req is JoinCluster,
        pre.raft.is_leader_cached,
    ensures
        post.raft.peers.contains(name) <==> pre.raft.peers.contains(name) || (name
            == req->JoinCluster_peer_addr@ && name != pre.raft.node_id),
        pre.raft.peers.no_duplicates() ==> post.raft.peers.no_duplicates(),
        pre.raft.peers.contains(req->JoinCluster_peer_addr@) ==> post.raft.peers == pre.raft.peers,
        post == pre.with_raft(RaftView { peers: post.raft.peers, ..pre.raft }),
        res is Done,
        res->response@ == (ResponseView::ClusterMembership {
            success: true,
            members: seq![pre.raft.node_id] + post.raft.peers,
        }),
{
    let added = req->JoinCluster_peer_addr@;
    let peers = pre.raft.peers;
    let all = peers.push(added);
    assert forall|t: Seq<char>| all.contains(t) == (peers.contains(t) || t == added) by {
        assert(all[peers.len() as int] == added);
        if peers.contains(t) {
            let i = choose|i: int| 0 <= i < peers.len() && peers[i] == t;
            assert(all[i] == t);
        }
        if all.contains(t) {
            let i = choose|i: int| 0 <= i < all.len() && all[i] == t;
            if i < peers.len() {
                assert(peers[i] == t);
            }
        }
    }
}

/// After a node left, it is not among the peers; all others stay, and the answer lists this node
/// and all peers.
pub proof fn law_node_that_left_is_no_peer(
    pre: ServerView,
    req: Request,
    now: u64,
    post: ServerView,
    res: Dispatch,
    name: Seq<char>,
)
    requires
        tcp_service::dispatched(pre, req, now, post, res),
        req is LeaveCluster,
        pre.raft.is_leader_cached,
    ensures
        post.raft.peers.contains(name) <==> pre.raft.peers.contains(name) && name
            != req->LeaveCluster_peer_addr@,
        ({
            let gone = req->LeaveCluster_peer_addr@;
            post.raft.peers == pre.raft.peers.filter(|t: Seq<char>| t != gone)
        }),
        post == pre.with_raft(RaftView { peers: post.raft.peers, ..pre.raft }),
        res is Done,
        res->response@ == (ResponseView::ClusterMembership {
            success: true,
            members: seq![pre.raft.node_id] + post.raft.peers,
        }),
{
    discovery::law_left_out_text_is_gone(pre.raft.peers, req->LeaveCluster_peer_addr@);
}

/// The metrics are answered where they are enabled, with each value in a line of its own, and
/// with an error where they are not. To ask for them changes nothing.
pub proof fn law_metrics_are_reported(
    pre: ServerView,
    req: Request,
    now: u64,
    post: ServerView,
    res: Dispatch,
)
    requires
        tcp_service::dispatched(pre, req, now, post, res),
        req is Metrics,
    ensures
        post == pre,
        res is Done,
        !pre.enable_metrics ==> res->response@ is Error,
        pre.enable_metrics ==> {
            let m = pre.metrics;
            &&& res->response@ is Metrics
            &&& metrics::is_line_of(
                res->response@->prometheus_text,
                "walrq_messages_pushed_total"@ + " "@ + text::decimal(
                    m.messages_pushed_total as nat,
                ),
            )
            &&& metrics::is_line_of(
                res->response@->prometheus_text,
                "walrq_messages_acked_total"@ + " "@ + text::decimal(
                    m.messages_acked_total as nat,
                ),
            )
            &&& metrics::is_line_of(
                res->response@->prometheus_text,
                "walrq_messages_polled_total"@ + " "@ + text::decimal(
                    m.messages_polled_total as nat,
                ),
            )
            &&& metrics::is_line_of(
                res->response@->prometheus_text,
                "walrq_hot_messages_in_ram"@ + " "@ + text::decimal(
                    pre.raft.engine.total_in_ram as nat,
                ),
            )
            &&& metrics::is_line_of(
                res->response@->prometheus_text,
                "walrq_is_leader"@ + " "@ + if pre.raft.is_leader_cached {
                    seq!['1']
                } else {
                    seq!['0']
                },
            )
        },
{
    let m = pre.metrics;
    let ram = pre.raft.engine.total_in_ram;
    let leads = pre.raft.is_leader_cached;
    metrics::law_text_reports_every_value(m, ram, leads);
}

/// The pushed messages are counted: as many as the answer has ids, and none without a majority.
pub proof fn law_pushed_messages_are_counted(
    pre: ServerView,
    req: Request,
    now: u64,
    mid: ServerView,
    at: ServerView,
    replies: Seq<bool>,
    committed_at: u64,
    post: ServerView,
    response: ResponseView,
)
    requires
        laws::push_served(pre, req, now, mid, at, replies, committed_at, post, response),
        at.metrics.messages_pushed_total + laws::asked_count(req) <= u64::MAX,
    ensures
        post.metrics.messages_pushed_total == at.metrics.messages_pushed_total
            + laws::answered_ids(response).len(),
        post.metrics.messages_acked_total == at.metrics.messages_acked_total,
        post.metrics.messages_polled_total == at.metrics.messages_polled_total,
        post.metrics.in_flight_messages == at.metrics.in_flight_messages,
        post.metrics.wal_compaction_count == at.metrics.wal_compaction_count,
{
    laws::law_push_is_confirmed_by_a_majority(
        pre,
        req,
        now,
        mid,
        at,
        replies,
        committed_at,
        post,
        response,
    );
    let res = choose|res: Dispatch| #[trigger]
        tcp_service::dispatched(pre, req, now, mid, res) && (res matches Dispatch::Push {
            proposal,
            batch,
        } && tcp_service::push_finished(
            at,
            proposal@,
            batch,
            replies,
            committed_at,
            post,
            response,
        ));
    let fresh = laws::lemma_push_proposal(pre, req, now, mid, res);
}

/// The log is compacted exactly if the active segment has reached the size that it may have, and
/// that is counted. No message in memory, lease or queue changes.
pub proof fn law_compaction_is_done_when_due(pre: ServerView, segment: Seq<u8>, post: ServerView)
    requires
        tcp_service::compaction_checked(pre, segment, post),
        pre.metrics.wal_compaction_count < u64::MAX,
    ensures
        ({
            let disk = pre.raft.engine.disk;
            let due = disk.active_bytes >= disk.max_segment_size;
            &&& due ==> post.metrics.wal_compaction_count == pre.metrics.wal_compaction_count + 1
            &&& due ==> post.raft.engine.disk.active_is_b == !disk.active_is_b
            &&& due ==> post.raft.engine.spill_offset == 0
            &&& !due ==> post == pre
            &&& post.raft.engine.shards == pre.raft.engine.shards
            &&& post.raft.engine.total_in_ram == pre.raft.engine.total_in_ram
            &&& post.raft.log == pre.raft.log
            &&& post.metrics.messages_pushed_total == pre.metrics.messages_pushed_total
            &&& post.metrics.in_flight_messages == pre.metrics.in_flight_messages
        }),
{
    let e = pre.raft.engine;
    let records = wal::records_in(segment, e.disk.registry);
    lemma_compacted_side(e, compaction::carried(records));
}

proof fn lemma_compacted_side(e: EngineView, list: Seq<SurvivorView>)
    ensures
        e.disk.compact(list).active_is_b == !e.disk.active_is_b,
{
    let flipped = DiskView {
        active_is_b: !e.disk.active_is_b,
        active_bytes: 0,
        ..e.disk.flush()
    };
    lemma_append_all_side(flipped, list);
}

proof fn lemma_append_all_side(disk: DiskView, list: Seq<SurvivorView>)
    ensures
        disk.append_all(list).active_is_b == disk.active_is_b,
    decreases list.len(),
{
    if list.len() > 0 {
        lemma_append_all_side(disk, list.drop_last());
    }
}

}
