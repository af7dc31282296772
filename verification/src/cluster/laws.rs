//! What holds of a cluster across operations: majorities, the order of the log, elections,
//! and that every node gets the same messages.
use vstd::prelude::*;
use vstd::utf8;

use crate::cluster::raft;
use crate::cluster::raft::{AckProposal, PushProposal};
use crate::cluster::raft_model;
use crate::cluster::raft_model::{
    ClientPush, CommandView, EnginePush, EntryView, PushProposalView, RaftRole, RaftView,
};
use crate::engine::arrivals;
use crate::engine::compaction;
use crate::engine::disk_log::SurvivorView;
use crate::engine::exclusive;
use crate::engine::histories;
use crate::engine::model;
use crate::engine::model::{EngineView, NUM_SHARDS};
use crate::engine::sequences;
use crate::engine::sequences::PollStep;
use crate::engine::shard::MsgView;
use crate::engine::single_queue::HOT_DELAY_HORIZON_SEC;
use crate::engine::wal::RecordView;
use crate::ids;
use crate::protocol::{Request, SnapshotItem};
use crate::text;

verus! {

/// A push is confirmed exactly if the leader and the peers that agreed are more than half of
/// the cluster, or the leader is alone.
pub proof fn law_quorum_is_a_majority(peers: nat, replies: Seq<bool>)
    ensures
        raft_model::quorum_met(peers, replies) <==> peers == 0 || 2 * (1 + raft_model::count_true(
            replies,
        )) > peers + 1,
{
}

/// Two groups of nodes that are each large enough for a quorum have a node in common.
pub proof fn law_quorums_overlap(
    nodes: Set<Seq<char>>,
    peers: nat,
    a: Set<Seq<char>>,
    b: Set<Seq<char>>,
)
    requires
        nodes.finite(),
        nodes.len() == peers + 1,
        a.subset_of(nodes),
        b.subset_of(nodes),
        a.len() >= raft_model::quorum_size(peers),
        b.len() >= raft_model::quorum_size(peers),
    ensures
        exists|node: Seq<char>| a.contains(node) && #[trigger] b.contains(node),
{
    vstd::set_lib::lemma_len_subset(a, nodes);
    vstd::set_lib::lemma_len_subset(b, nodes);
    if a.disjoint(b) {
        vstd::set_lib::lemma_set_disjoint_lens(a, b);
        vstd::set_lib::lemma_len_subset(a + b, nodes);
        assert(false);
    }
}

/// The entries of the log are numbered one after the other, from the one behind the
/// snapshot on.
pub open spec fn contiguous(node: RaftView) -> bool {
    forall|i: int|
        0 <= i < node.log.len() ==> (#[trigger] node.log[i]).index == node.snapshot_index + 1 + i
}

/// New commands are numbered on from the end of the log.
pub proof fn law_new_commands_keep_log_contiguous(node: RaftView, commands: Seq<CommandView>)
    requires
        contiguous(node),
        node.next_index() + commands.len() <= u64::MAX,
    ensures
        contiguous(node.with_commands(commands)),
{
    let after = node.with_commands(commands);
    if node.log.len() > 0 {
        assert(node.log[node.log.len() - 1] == node.log.last());
    }
    assert forall|i: int| 0 <= i < after.log.len() implies (#[trigger] after.log[i]).index
        == after.snapshot_index + 1 + i by {
        if i < node.log.len() {
            assert(after.log[i] == node.log[i]);
        } else {
            assert(after.log[i] == node.new_entries(commands)[i - node.log.len()]);
        }
    }
}

proof fn lemma_committed_len(log: Seq<EntryView>, commit: u64)
    ensures
        raft_model::committed_len(log, commit) <= log.len(),
        forall|i: int|
            raft_model::committed_len(log, commit) <= i < log.len() ==> (#[trigger] log[i]).index
                > commit,
        raft_model::committed_len(log, commit) > 0 ==> log[raft_model::committed_len(log, commit)
            - 1].index <= commit,
    decreases log.len(),
{
    if log.len() > 0 {
        assert(log[log.len() - 1] == log.last());
        lemma_committed_len(log.drop_last(), commit);
        if log.last().index > commit {
            let n = raft_model::committed_len(log, commit);
            assert forall|i: int| n <= i < log.len() implies (#[trigger] log[i]).index > commit by {
                if i < log.len() - 1 {
                    assert(log.drop_last()[i] == log[i]);
                }
            }
            if n > 0 {
                assert(log.drop_last()[n - 1] == log[n - 1]);
            }
        }
    }
}

/// Compacting the log drops committed entries only: what is not committed stays, what is
/// left stays numbered, and the snapshot does not go beyond what was committed.
pub proof fn law_log_compaction_drops_committed_entries_only(node: RaftView)
    requires
        contiguous(node),
        node.snapshot_index <= node.commit_index,
    ensures
        contiguous(node.compacted()),
        node.compacted().snapshot_index <= node.commit_index,
        node.compacted().snapshot_index >= node.snapshot_index,
        node.compacted().engine == node.engine,
        forall|i: int|
            0 <= i < node.log.len() && (#[trigger] node.log[i]).index > node.commit_index
                ==> node.compacted().log.contains(node.log[i]),
{
    let after = node.compacted();
    if node.log.len() > 0 && node.commit_index > node.log[0].index {
        let n = raft_model::committed_len(node.log, node.commit_index) as int;
        lemma_committed_len(node.log, node.commit_index);
        assert(n > 0);
        assert forall|i: int| 0 <= i < after.log.len() implies (#[trigger] after.log[i]).index
            == after.snapshot_index + 1 + i by {
            assert(after.log[i] == node.log[n + i]);
        }
        assert forall|i: int|
            0 <= i < node.log.len() && (#[trigger] node.log[i]).index
                > node.commit_index implies after.log.contains(node.log[i]) by {
            if i < n {
                assert(node.log[n - 1].index >= node.log[i].index);
            }
            assert(after.log[i - n] == node.log[i]);
        }
    } else {
        assert forall|i: int|
            0 <= i < node.log.len() && (#[trigger] node.log[i]).index
                > node.commit_index implies after.log.contains(node.log[i]) by {
            assert(after.log[i] == node.log[i]);
        }
    }
}

/// Cutting a long log keeps its newest entries, numbered as before, and never leaves more
/// than twice the threshold.
pub proof fn law_log_is_bounded(node: RaftView)
    requires
        contiguous(node),
        node.compaction_threshold > 0,
    ensures
        contiguous(node.trimmed()),
        node.trimmed().log.len() <= 2 * node.compaction_threshold,
        node.log.len() > 2 * node.compaction_threshold ==> node.trimmed().log.len()
            == node.compaction_threshold,
{
    let after = node.trimmed();
    let keep = node.compaction_threshold as int;
    if node.log.len() > keep * 2 {
        let n = node.log.len() - keep;
        assert forall|i: int| 0 <= i < after.log.len() implies (#[trigger] after.log[i]).index
            == after.snapshot_index + 1 + i by {
            assert(after.log[i] == node.log[n + i]);
        }
    }
}

/// The text under which a push is told to the peers leads them to the leader's number for
/// the message.
pub proof fn law_peers_find_the_same_id(id_text: Seq<char>, fresh: u128)
    ensures
        ({
            let (text, id) = raft_model::resolve_id(id_text, fresh);
            ids::id_value(text) == Some(id)
        }),
{
    ids::law_ulid_round_trip(fresh);
}

/// What a follower makes of an entry that the leader proposed is a push of the same message
/// to the same queue.
pub proof fn law_peers_push_the_same_message(
    leader: RaftView,
    queue: Seq<char>,
    items: Seq<ClientPush>,
    fresh: Seq<u128>,
    k: int,
    pre: EngineView,
    now: u64,
    post: EngineView,
)
    requires
        fresh.len() == items.len(),
        0 <= k < items.len(),
    ensures
        ({
            let proposal = leader.push_proposal(queue, items, fresh);
            let command = proposal.replication.entries[k].command;
            raft_model::command_leads_to(pre, command, now, post) <==> pre.pushes_to(
                queue,
                proposal.ids[k],
                proposal.items[k].payload,
                (now + proposal.items[k].delay_seconds) as u64,
                now,
                post,
            )
        }),
{
    reveal(raft_model::command_leads_to);
    law_peers_find_the_same_id(items[k].id_text, fresh[k]);
}

/// What a follower makes of an acknowledgement that the leader accepted takes the same
/// message out of memory.
pub proof fn law_peers_drop_the_same_message(
    id_text: Seq<char>,
    queue: Seq<char>,
    receipt: Seq<char>,
    leader: EngineView,
    acked_at: u64,
    pre: EngineView,
    now: u64,
    post: EngineView,
)
    requires
        leader.ack_is_valid(queue, id_text, receipt, acked_at),
        pre.shards.len() == model::NUM_SHARDS,
        raft_model::command_leads_to(
            pre,
            CommandView::Ack { queue, msg_id: id_text, receipt },
            now,
            post,
        ),
    ensures
        ({
            let id = ids::id_value(id_text).unwrap();
            &&& !post.shard(queue).messages.contains_key(id)
            &&& post.shard(queue).acked.contains(id)
        }),
{
    reveal(raft_model::command_leads_to);
    model::lemma_shard_of_bound(queue);
}

proof fn lemma_precedes_total(a: Seq<u8>, b: Seq<u8>)
    ensures
        a != b ==> text::precedes(a, b) || text::precedes(b, a),
        !(text::precedes(a, b) && text::precedes(b, a)),
    decreases a.len(),
{
    if a.len() > 0 && b.len() > 0 {
        lemma_precedes_total(a.skip(1), b.skip(1));
        if a[0] == b[0] && a.skip(1) == b.skip(1) {
            assert(a =~= seq![a[0]] + a.skip(1));
            assert(b =~= seq![b[0]] + b.skip(1));
        }
    } else if a.len() == 0 && b.len() == 0 {
        assert(a =~= b);
    }
}

/// Of two nodes that know each other at most one makes itself the leader where there is
/// none.
pub proof fn law_only_one_node_is_first(a: RaftView, b: RaftView)
    requires
        a.node_id != b.node_id,
        a.peers.contains(b.node_id),
        b.peers.contains(a.node_id),
    ensures
        !(a.is_first() && b.is_first()),
{
    let i = choose|i: int| 0 <= i < a.peers.len() && a.peers[i] == b.node_id;
    let j = choose|j: int| 0 <= j < b.peers.len() && b.peers[j] == a.node_id;
    assert(a.peers[i] == b.node_id && b.peers[j] == a.node_id);
    let x = utf8::encode_utf8(a.node_id);
    let y = utf8::encode_utf8(b.node_id);
    utf8::encode_utf8_decode_utf8(a.node_id);
    utf8::encode_utf8_decode_utf8(b.node_id);
    lemma_precedes_total(x, y);
}

/// The entry is a push that a node which takes over has to do again.
pub open spec fn is_open(log: Seq<EntryView>, after: Option<u64>, i: int, p: EnginePush) -> bool {
    &&& 0 <= i < log.len()
    &&& after matches Some(a) ==> log[i].index > a
    &&& log[i].command matches CommandView::Push { queue, msg_id, payload, visible_at }
        && !raft_model::acknowledges(log, msg_id) && (ids::id_value(msg_id) matches Some(id) && p
        == (EnginePush { queue, id, payload, delay: visible_at }))
}

/// A node that takes over pushes what its log holds behind the snapshot and does not
/// acknowledge, all of it and nothing else.
pub proof fn law_takeover_pushes_what_is_open(
    log: Seq<EntryView>,
    upto: nat,
    after: Option<u64>,
    p: EnginePush,
)
    requires
        upto <= log.len(),
    ensures
        raft_model::open_pushes(log, upto, after).contains(p) <==> exists|i: int|
            i < upto && #[trigger] is_open(log, after, i, p),
    decreases upto,
{
    let all = raft_model::open_pushes(log, upto, after);
    if upto == 0 {
        assert forall|i: int| i < upto implies !#[trigger] is_open(log, after, i, p) by {}
    } else {
        law_takeover_pushes_what_is_open(log, (upto - 1) as nat, after, p);
        let rest = raft_model::open_pushes(log, (upto - 1) as nat, after);
        if rest.contains(p) {
            let k = choose|k: int| 0 <= k < rest.len() && rest[k] == p;
            assert(all[k] == p);
            let i = choose|i: int| i < upto - 1 && #[trigger] is_open(log, after, i, p);
            assert(is_open(log, after, i, p));
        }
        if is_open(log, after, upto - 1, p) {
            assert(all[rest.len() as int] == p);
        }
        if all.contains(p) && !rest.contains(p) {
            let k = choose|k: int| 0 <= k < all.len() && all[k] == p;
            if k < rest.len() {
                assert(rest[k] == p);
            }
            assert(is_open(log, after, upto - 1, p));
        }
        if exists|i: int| i < upto && #[trigger] is_open(log, after, i, p) {
            let i = choose|i: int| i < upto && #[trigger] is_open(log, after, i, p);
            if i < upto - 1 {
                assert(is_open(log, after, i, p));
            }
        }
    }
}

/// A snapshot carries every message that is in the sender's memory: the receiver pushes each
/// of them, with its id, queue and payload, to become visible when it would have.
pub proof fn law_snapshot_carries_messages(
    sender: RaftView,
    list: Seq<SurvivorView>,
    request: Request,
    now: u64,
    k: int,
)
    requires
        raft::is_snapshot_request(sender, list, request),
        0 <= k < list.len(),
    ensures
        ({
            let pushes = raft::snapshot_pushes(request->RaftInstallSnapshot_items@, now);
            &&& pushes.len() == list.len()
            &&& pushes[k] == (EnginePush {
                queue: list[k].queue,
                id: list[k].id,
                payload: list[k].payload,
                delay: if list[k].visible_at > now {
                    (list[k].visible_at - now) as u64
                } else {
                    0
                },
            })
        }),
{
    let items = request->RaftInstallSnapshot_items@;
    lemma_snapshot_prefix(list, items, now);
}

proof fn lemma_snapshot_prefix(list: Seq<SurvivorView>, items: Seq<SnapshotItem>, now: u64)
    requires
        items.len() == list.len(),
        forall|k: int|
            0 <= k < list.len() ==> raft::is_snapshot_item(list[k], #[trigger] items[k]),
    ensures
        raft::snapshot_pushes(items, now).len() == list.len(),
        forall|k: int|
            0 <= k < list.len() ==> #[trigger] raft::snapshot_pushes(items, now)[k] == (EnginePush {
                queue: list[k].queue,
                id: list[k].id,
                payload: list[k].payload,
                delay: if list[k].visible_at > now {
                    (list[k].visible_at - now) as u64
                } else {
                    0
                },
            }),
    decreases items.len(),
{
    if items.len() > 0 {
        let n = items.len() - 1;
        assert(raft::is_snapshot_item(list[n], items[n]));
        assert forall|k: int| 0 <= k < n implies raft::is_snapshot_item(
            list.drop_last()[k],
            #[trigger] items.drop_last()[k],
        ) by {
            assert(raft::is_snapshot_item(list[k], items[k]));
        }
        lemma_snapshot_prefix(list.drop_last(), items.drop_last(), now);
        ids::law_ulid_round_trip(list[n].id);
        let rest = raft::snapshot_pushes(items.drop_last(), now);
        let all = raft::snapshot_pushes(items, now);
        assert forall|k: int| 0 <= k < list.len() implies #[trigger] all[k] == (EnginePush {
            queue: list[k].queue,
            id: list[k].id,
            payload: list[k].payload,
            delay: if list[k].visible_at > now {
                (list[k].visible_at - now) as u64
            } else {
                0
            },
        }) by {
            if k < n {
                assert(all[k] == rest[k]);
                assert(list.drop_last()[k] == list[k]);
            }
        }
    }
}

/// The node goes from one state to the next by a proposal, a commit, a compaction of its log,
/// or something that leaves its log as it is.
pub open spec fn leader_step(pre: RaftView, post: RaftView) -> bool {
    ||| exists|
        queue: Seq<char>,
        items: Seq<ClientPush>,
        fresh: Seq<u128>,
        res: Result<Option<PushProposal>, String>,
    |
        pre.next_index() + items.len() <= u64::MAX && #[trigger] raft::push_proposed(
            pre,
            queue,
            items,
            fresh,
            post,
            res,
        )
    ||| exists|
        proposal: PushProposalView,
        replies: Seq<bool>,
        now: u64,
        res: Result<Vec<String>, String>,
    | #[trigger]
        raft::push_committed(pre, proposal, replies, now, post, res)
    ||| exists|
        queue: Seq<char>,
        items: Seq<(Seq<char>, Seq<char>)>,
        now: u64,
        res: Result<Option<AckProposal>, String>,
    |
        pre.next_index() + items.len() <= u64::MAX && #[trigger] raft::ack_proposed(
            pre,
            queue,
            items,
            now,
            post,
            res,
        )
    ||| exists|last_index: u64|
        post == #[trigger] (RaftView { commit_index: last_index, ..pre }).compacted_if_due(
            last_index,
        )
    ||| post == pre.compacted()
    ||| post.log == pre.log && post.snapshot_index == pre.snapshot_index
}

proof fn lemma_compacted_contiguous(node: RaftView)
    requires
        contiguous(node),
    ensures
        contiguous(node.compacted()),
        node.compacted().next_index() == node.next_index(),
{
    let after = node.compacted();
    if node.log.len() > 0 && node.commit_index > node.log[0].index {
        let n = raft_model::committed_len(node.log, node.commit_index) as int;
        lemma_committed_len(node.log, node.commit_index);
        assert(n > 0);
        assert forall|i: int| 0 <= i < after.log.len() implies (#[trigger] after.log[i]).index
            == after.snapshot_index + 1 + i by {
            assert(after.log[i] == node.log[n + i]);
        }
        if n < node.log.len() {
            assert(after.log.last() == node.log.last());
        }
    }
}

proof fn lemma_accepted_len(
    e: EngineView,
    queue: Seq<char>,
    items: Seq<(Seq<char>, Seq<char>)>,
    now: u64,
)
    ensures
        e.accepted_acks(queue, items, now).len() <= items.len(),
    decreases items.len(),
{
    if items.len() > 0 {
        lemma_accepted_len(e, queue, items.drop_last(), now);
    }
}

/// Every step keeps the log numbered one after the other, and no step makes the next index
/// one that was used before.
pub proof fn law_leader_step_keeps_log_contiguous(pre: RaftView, post: RaftView)
    requires
        contiguous(pre),
        leader_step(pre, post),
    ensures
        contiguous(post),
        post.next_index() >= pre.next_index(),
{
    if exists|
        queue: Seq<char>,
        items: Seq<ClientPush>,
        fresh: Seq<u128>,
        res: Result<Option<PushProposal>, String>,
    |
        pre.next_index() + items.len() <= u64::MAX && #[trigger] raft::push_proposed(
            pre,
            queue,
            items,
            fresh,
            post,
            res,
        ) {
        let (queue, items, fresh, res) = choose|
            queue: Seq<char>,
            items: Seq<ClientPush>,
            fresh: Seq<u128>,
            res: Result<Option<PushProposal>, String>,
        |
            pre.next_index() + items.len() <= u64::MAX && #[trigger] raft::push_proposed(
                pre,
                queue,
                items,
                fresh,
                post,
                res,
            );
        law_new_commands_keep_log_contiguous(pre, RaftView::push_commands(queue, items, fresh));
    } else if exists|
        proposal: PushProposalView,
        replies: Seq<bool>,
        now: u64,
        res: Result<Vec<String>, String>,
    | #[trigger]
        raft::push_committed(pre, proposal, replies, now, post, res) {
        let (proposal, replies, now, res) = choose|
            proposal: PushProposalView,
            replies: Seq<bool>,
            now: u64,
            res: Result<Vec<String>, String>,
        | #[trigger]
            raft::push_committed(pre, proposal, replies, now, post, res);
        if raft_model::quorum_met(proposal.replication.peers.len(), replies) {
            let engine = choose|engine: EngineView| #[trigger]
                pre.engine.batch_pushes_to(
                    proposal.queue,
                    proposal.ids,
                    proposal.items,
                    now,
                    engine,
                ) && post == (RaftView {
                    commit_index: proposal.last_index,
                    engine,
                    ..pre
                }).compacted_if_due(proposal.last_index);
            let committed = RaftView { commit_index: proposal.last_index, engine, ..pre };
            assert(contiguous(committed));
            lemma_compacted_contiguous(committed);
        }
    } else if exists|
        queue: Seq<char>,
        items: Seq<(Seq<char>, Seq<char>)>,
        now: u64,
        res: Result<Option<AckProposal>, String>,
    |
        pre.next_index() + items.len() <= u64::MAX && #[trigger] raft::ack_proposed(
            pre,
            queue,
            items,
            now,
            post,
            res,
        ) {
        let (queue, items, now, res) = choose|
            queue: Seq<char>,
            items: Seq<(Seq<char>, Seq<char>)>,
            now: u64,
            res: Result<Option<AckProposal>, String>,
        |
            pre.next_index() + items.len() <= u64::MAX && #[trigger] raft::ack_proposed(
                pre,
                queue,
                items,
                now,
                post,
                res,
            );
        let accepted = pre.engine.accepted_acks(queue, items, now);
        lemma_accepted_len(pre.engine, queue, items, now);
        let acked = RaftView { engine: post.engine, ..pre };
        assert(contiguous(acked));
        if pre.role == RaftRole::Leader && accepted.len() > 0 {
            law_new_commands_keep_log_contiguous(acked, RaftView::ack_commands(queue, accepted));
        }
    } else if exists|last_index: u64|
        post == #[trigger] (RaftView { commit_index: last_index, ..pre }).compacted_if_due(
            last_index,
        ) {
        let last_index = choose|last_index: u64|
            post == #[trigger] (RaftView { commit_index: last_index, ..pre }).compacted_if_due(
                last_index,
            );
        let committed = RaftView { commit_index: last_index, ..pre };
        assert(contiguous(committed));
        lemma_compacted_contiguous(committed);
    } else if post == pre.compacted() {
        lemma_compacted_contiguous(pre);
    }
}

/// From a new node on, whatever it proposes, commits and compacts, and in whatever order, the
/// log is always numbered one after the other from the one behind the snapshot on, and no
/// index is given out twice.
pub proof fn law_log_is_always_contiguous(
    node_id: Seq<char>,
    peers: Seq<Seq<char>>,
    engine: EngineView,
    compaction_threshold: u64,
    states: Seq<RaftView>,
    k: int,
)
    requires
        0 <= k < states.len(),
        states[0] == RaftView::new(node_id, peers, engine, compaction_threshold),
        forall|i: int|
            0 < i < states.len() ==> leader_step(states[i - 1], #[trigger] states[i]),
    ensures
        contiguous(states[k]),
        forall|i: int|
            0 <= i <= k ==> (#[trigger] states[i]).next_index() <= states[k].next_index(),
    decreases k,
{
    if k > 0 {
        law_log_is_always_contiguous(
            node_id,
            peers,
            engine,
            compaction_threshold,
            states,
            k - 1,
        );
        assert(leader_step(states[k - 1], states[k]));
        law_leader_step_keeps_log_contiguous(states[k - 1], states[k]);
    }
}

/// A batch of pushes that is refused for want of a majority changes no queue of the leader
/// and commits nothing.
pub proof fn law_refused_push_changes_no_queue(
    pre: RaftView,
    queue: Seq<char>,
    items: Seq<ClientPush>,
    fresh: Seq<u128>,
    mid: RaftView,
    proposed: Result<Option<PushProposal>, String>,
    replies: Seq<bool>,
    now: u64,
    post: RaftView,
    res: Result<Vec<String>, String>,
)
    requires
        pre.role == RaftRole::Leader,
        items.len() > 0,
        raft::push_proposed(pre, queue, items, fresh, mid, proposed),
        raft::push_committed(mid, proposed.unwrap().unwrap()@, replies, now, post, res),
        !raft_model::quorum_met(pre.peers.len(), replies),
    ensures
        res is Err,
        post.engine == pre.engine,
        post.commit_index == pre.commit_index,
{
}

/// A batch of pushes that a leader proposes and commits takes the next indices, in its term,
/// and all of them are committed.
pub proof fn law_batch_takes_the_next_indices(
    pre: RaftView,
    queue: Seq<char>,
    items: Seq<ClientPush>,
    fresh: Seq<u128>,
    mid: RaftView,
    proposed: Result<Option<PushProposal>, String>,
    replies: Seq<bool>,
    now: u64,
    post: RaftView,
    res: Result<Vec<String>, String>,
)
    requires
        contiguous(pre),
        pre.role == RaftRole::Leader,
        items.len() > 0,
        pre.next_index() + items.len() <= u64::MAX,
        raft::push_proposed(pre, queue, items, fresh, mid, proposed),
        raft::push_committed(mid, proposed.unwrap().unwrap()@, replies, now, post, res),
        raft_model::quorum_met(pre.peers.len(), replies),
    ensures
        res is Ok,
        mid.log.len() == pre.log.len() + items.len(),
        forall|i: int|
            0 <= i < items.len() ==> {
                let entry = #[trigger] mid.log[pre.log.len() + i];
                entry.index == pre.next_index() + i && entry.term == pre.current_term
            },
        post.commit_index == pre.next_index() + items.len() - 1,
        contiguous(post),
        post.next_index() == post.commit_index + 1,
{
    let commands = RaftView::push_commands(queue, items, fresh);
    law_new_commands_keep_log_contiguous(pre, commands);
    let proposal = pre.push_proposal(queue, items, fresh);
    let engine = choose|engine: EngineView| #[trigger]
        mid.engine.batch_pushes_to(
            proposal.queue,
            proposal.ids,
            proposal.items,
            now,
            engine,
        ) && post == (RaftView {
            commit_index: proposal.last_index,
            engine,
            ..mid
        }).compacted_if_due(proposal.last_index);
    let committed = RaftView { commit_index: proposal.last_index, engine, ..mid };
    assert(contiguous(committed));
    lemma_compacted_contiguous(committed);
    assert(mid.log.last() == pre.new_entries(commands)[items.len() - 1]);
    assert forall|i: int| 0 <= i < items.len() implies {
        let entry = #[trigger] mid.log[pre.log.len() + i];
        entry.index == pre.next_index() + i && entry.term == pre.current_term
    } by {
        assert(mid.log[pre.log.len() + i] == pre.new_entries(commands)[i]);
    }
}

/// The message is what this push brings to a shard.
pub open spec fn is_message_of(p: EnginePush, at: int, msg: MsgView) -> bool {
    &&& msg.id == p.id
    &&& msg.queue == p.queue
    &&& msg.payload == p.payload
    &&& model::shard_of(p.queue) == at
}

/// Some of the pushes brings this message to a shard.
pub open spec fn is_pushed(pushes: Seq<EnginePush>, at: int, msg: MsgView) -> bool {
    exists|j: int| 0 <= j < pushes.len() && is_message_of(#[trigger] pushes[j], at, msg)
}

proof fn lemma_pushed_more(pushes: Seq<EnginePush>, at: int, msg: MsgView)
    requires
        pushes.len() > 0,
        is_pushed(pushes.drop_last(), at, msg),
    ensures
        is_pushed(pushes, at, msg),
{
    let head = pushes.drop_last();
    let j = choose|j: int| 0 <= j < head.len() && is_message_of(#[trigger] head[j], at, msg);
    assert(pushes[j] == head[j]);
}

proof fn lemma_pushes_memory(
    pre: EngineView,
    pushes: Seq<EnginePush>,
    now: u64,
    post: EngineView,
)
    requires
        exclusive::all_exclusive(pre),
        raft_model::pushes_all_to(pre, pushes, now, post),
    ensures
        exclusive::all_exclusive(post),
        post.options == pre.options,
        forall|at: int, id: u128|
            0 <= at < NUM_SHARDS && #[trigger] post.shards[at].messages.contains_key(id) ==> (
            pre.shards[at].messages.contains_key(id) && post.shards[at].messages[id]
                == pre.shards[at].messages[id]) || is_pushed(
                pushes,
                at,
                post.shards[at].messages[id],
            ),
    decreases pushes.len(),
{
    if pushes.len() > 0 {
        let head = pushes.drop_last();
        let p = pushes[pushes.len() - 1];
        let mid = choose|mid: EngineView|
            raft_model::pushes_all_to(pre, head, now, mid) && #[trigger] raft_model::push_leads_to(
                mid,
                pushes.last(),
                now,
                post,
            );
        lemma_pushes_memory(pre, head, now, mid);
        reveal(raft_model::push_leads_to);
        let visible_at = (now + p.delay) as u64;
        exclusive::law_push_keeps_exclusive(mid, p.queue, p.id, p.payload, visible_at, now, post);
        model::lemma_shard_of_bound(p.queue);
        assert forall|at: int, id: u128|
            0 <= at < NUM_SHARDS && #[trigger] post.shards[at].messages.contains_key(id) implies (
        pre.shards[at].messages.contains_key(id) && post.shards[at].messages[id]
            == pre.shards[at].messages[id]) || is_pushed(
            pushes,
            at,
            post.shards[at].messages[id],
        ) by {
            if mid.shards[at].messages.contains_key(id) {
                assert(post.shards[at].messages[id] == mid.shards[at].messages[id]);
                if is_pushed(head, at, mid.shards[at].messages[id]) {
                    lemma_pushed_more(pushes, at, mid.shards[at].messages[id]);
                }
            } else {
                assert(is_message_of(pushes[pushes.len() - 1], at, post.shards[at].messages[id]));
            }
        }
    }
}

/// Without a snapshot, a node that took over has in memory what its log holds and does not
/// acknowledge, and nothing else.
pub proof fn law_takeover_holds_open_pushes_only(
    node: RaftView,
    now: u64,
    post: RaftView,
    at: int,
    id: u128,
)
    requires
        node.snapshot_index == 0,
        node.engine.inv(),
        node.takes_over_to(now, post),
        0 <= at < NUM_SHARDS,
        post.engine.shards[at].messages.contains_key(id),
    ensures
        is_pushed(node.takeover_pushes(), at, post.engine.shards[at].messages[id]),
{
    let engine = choose|engine: EngineView| #[trigger]
        raft_model::pushes_all_to(
            node.takeover_base(),
            node.takeover_pushes(),
            now,
            engine,
        ) && post == (RaftView { engine, ..node.elected() });
    assert(node.takeover_base().is_clear());
    exclusive::law_blank_engine_is_exclusive(node.takeover_base());
    lemma_pushes_memory(node.takeover_base(), node.takeover_pushes(), now, engine);
}

proof fn lemma_pushes_keep_acked(
    pre: EngineView,
    pushes: Seq<EnginePush>,
    now: u64,
    post: EngineView,
    at: int,
    id: u128,
)
    requires
        pre.shards.len() == NUM_SHARDS,
        0 <= at < NUM_SHARDS,
        pre.shards[at].acked.contains(id),
        raft_model::pushes_all_to(pre, pushes, now, post),
    ensures
        post.shards.len() == NUM_SHARDS,
        post.shards[at].acked.contains(id),
    decreases pushes.len(),
{
    if pushes.len() > 0 {
        let mid = choose|mid: EngineView|
            raft_model::pushes_all_to(pre, pushes.drop_last(), now, mid)
                && #[trigger] raft_model::push_leads_to(mid, pushes.last(), now, post);
        lemma_pushes_keep_acked(pre, pushes.drop_last(), now, mid, at, id);
        reveal(raft_model::push_leads_to);
        model::lemma_shard_of_bound(pushes.last().queue);
    }
}

/// The engine of a node that took over without a snapshot.
proof fn lemma_takeover_engine(node: RaftView, now: u64, post: RaftView)
    requires
        node.snapshot_index == 0,
        node.engine.inv(),
        node.takes_over_to(now, post),
    ensures
        node.takeover_base().is_clear(),
        raft_model::pushes_all_to(
            node.takeover_base(),
            node.takeover_pushes(),
            now,
            post.engine,
        ),
        exclusive::all_exclusive(post.engine),
{
    let engine = choose|engine: EngineView| #[trigger]
        raft_model::pushes_all_to(
            node.takeover_base(),
            node.takeover_pushes(),
            now,
            engine,
        ) && post == (RaftView { engine, ..node.elected() });
    assert(node.takeover_base().is_clear());
    exclusive::law_blank_engine_is_exclusive(node.takeover_base());
    lemma_pushes_memory(node.takeover_base(), node.takeover_pushes(), now, engine);
}

/// Taking over keeps it known what the log on disk acknowledges.
pub proof fn law_takeover_keeps_acks_known(
    node: RaftView,
    now: u64,
    post: RaftView,
    log: Seq<RecordView>,
)
    requires
        node.snapshot_index == 0,
        node.engine.inv(),
        node.takes_over_to(now, post),
        histories::acks_are_known(node.engine, log),
    ensures
        histories::acks_are_known(post.engine, log),
{
    lemma_takeover_engine(node, now, post);
    assert forall|at: int, id: u128|
        0 <= at < NUM_SHARDS && #[trigger] compaction::acked_in(
            log,
            at,
            id,
        ) implies post.engine.shards[at].acked.contains(id) by {
        let base = node.takeover_base();
        assert(base.shards[at].acked == node.engine.shards[at].acked);
        lemma_pushes_keep_acked(base, node.takeover_pushes(), now, post.engine, at, id);
    }
}

/// Without a snapshot, polls of a node that took over, with scans of the log on disk among
/// them, hand out what the node's log holds and does not acknowledge, or the log on disk, and
/// nothing else.
pub proof fn law_takeover_polls_hand_out_open_messages_only(
    node: RaftView,
    now: u64,
    post: RaftView,
    queue: Seq<char>,
    steps: Seq<PollStep>,
    log: Seq<RecordView>,
    k: int,
)
    requires
        node.snapshot_index == 0,
        node.engine.inv(),
        node.takes_over_to(now, post),
        histories::acks_are_known(node.engine, log),
        sequences::within_leases(post.engine, queue, steps),
        sequences::scans(post.engine, queue, steps, log),
        0 <= k < sequences::run(post.engine, queue, steps).1.len(),
    ensures
        ({
            let polled = sequences::run(post.engine, queue, steps).1[k];
            let pushes = node.takeover_pushes();
            exists|id: u128|
                polled.message_id == #[trigger] ids::ulid_text(id) && ((exists|j: int|
                    0 <= j < pushes.len() && (#[trigger] pushes[j]).id == id && pushes[j].payload
                        == polled.payload) || sequences::holds_open(
                    log,
                    model::shard_of(queue),
                    id,
                    polled.payload,
                ))
        }),
{
    lemma_takeover_engine(node, now, post);
    law_takeover_keeps_acks_known(node, now, post, log);
    sequences::law_polls_hand_out_open_messages_only(post.engine, queue, steps, log, k);
    model::lemma_shard_of_bound(queue);
    let at = model::shard_of(queue);
    let polled = sequences::run(post.engine, queue, steps).1[k];
    let id = choose|id: u128|
        polled.message_id == #[trigger] ids::ulid_text(id) && sequences::has_source(
            post.engine,
            log,
            at,
            id,
            polled.payload,
        );
    if !sequences::holds_open(log, at, id, polled.payload) {
        law_takeover_holds_open_pushes_only(node, now, post, at, id);
        let pushes = node.takeover_pushes();
        let msg = post.engine.shards[at].messages[id];
        assert(model::shard_holds(post.engine.shards[at], at));
        let j = choose|j: int|
            0 <= j < pushes.len() && is_message_of(#[trigger] pushes[j], at, msg);
        assert(pushes[j].id == id && pushes[j].payload == polled.payload);
    }
    assert(polled.message_id == ids::ulid_text(id));
}

/// Without a snapshot, polls of a node that took over, with scans of the log on disk among
/// them, do not hand out a message that the node knows to be acknowledged and that its log
/// does not hold open.
pub proof fn law_takeover_polls_leave_acked_messages_away(
    node: RaftView,
    now: u64,
    post: RaftView,
    queue: Seq<char>,
    steps: Seq<PollStep>,
    id: u128,
)
    requires
        node.snapshot_index == 0,
        node.engine.inv(),
        node.takes_over_to(now, post),
        node.engine.shard(queue).acked.contains(id),
        forall|j: int|
            0 <= j < node.takeover_pushes().len() ==> (
            #[trigger] node.takeover_pushes()[j]).id != id,
        sequences::within_leases(post.engine, queue, steps),
    ensures
        !sequences::is_handed_out(sequences::run(post.engine, queue, steps).1, id),
{
    model::lemma_shard_of_bound(queue);
    let at = model::shard_of(queue);
    lemma_takeover_engine(node, now, post);
    let base = node.takeover_base();
    assert(base.shards[at].acked == node.engine.shards[at].acked);
    lemma_pushes_keep_acked(base, node.takeover_pushes(), now, post.engine, at, id);
    if post.engine.shards[at].messages.contains_key(id) {
        law_takeover_holds_open_pushes_only(node, now, post, at, id);
        let pushes = node.takeover_pushes();
        let msg = post.engine.shards[at].messages[id];
        assert(model::shard_holds(post.engine.shards[at], at));
        let j = choose|j: int|
            0 <= j < pushes.len() && is_message_of(#[trigger] pushes[j], at, msg);
        assert(pushes[j].id == id);
    }
    sequences::law_polls_leave_acked_messages_away(post.engine, queue, steps, id);
}

/// No push before this one has its id in a queue of the same shard.
pub open spec fn is_first_of_its_id(pushes: Seq<EnginePush>, j: int) -> bool {
    forall|i: int|
        0 <= i < j ==> (#[trigger] pushes[i]).id != pushes[j].id
            || model::shard_of(pushes[i].queue) != model::shard_of(
            pushes[j].queue,
        )
}

#[verifier::rlimit(60)]
pub proof fn lemma_pushes_arrive(
    pre: EngineView,
    pushes: Seq<EnginePush>,
    now: u64,
    post: EngineView,
)
    requires
        exclusive::all_exclusive(pre),
        pre.is_clear(),
        pre.total_in_ram == 0,
        pushes.len() <= pre.options.max_hot_messages_in_ram,
        raft_model::pushes_all_to(pre, pushes, now, post),
    ensures
        exclusive::all_exclusive(post),
        post.options == pre.options,
        post.total_in_ram <= pushes.len(),
        forall|at: int, id: u128|
            0 <= at < NUM_SHARDS && #[trigger] post.shards[at].seen.contains(id) ==> exists|i: int|
                0 <= i < pushes.len() && (#[trigger] pushes[i]).id == id
                    && model::shard_of(pushes[i].queue) == at,
        forall|j: int|
            0 <= j < pushes.len() && is_first_of_its_id(pushes, j) && now + (
            #[trigger] pushes[j]).delay <= now + HOT_DELAY_HORIZON_SEC && now + pushes[j].delay
                <= u64::MAX ==> {
                let s = post.shard(pushes[j].queue);
                &&& s.messages.contains_key(pushes[j].id)
                &&& is_message_of(
                    pushes[j],
                    model::shard_of(pushes[j].queue),
                    s.messages[pushes[j].id],
                )
                &&& sequences::awaits(
                    post,
                    pushes[j].queue,
                    pushes[j].id,
                    (now + pushes[j].delay) as u64,
                )
                &&& arrivals::has_arrived(
                    post,
                    pushes[j].queue,
                    pushes[j].id,
                    pushes[j].payload,
                    (now + pushes[j].delay) as u64,
                )
            },
    decreases pushes.len(),
{
    if pushes.len() > 0 {
        let head = pushes.drop_last();
        let n = pushes.len() - 1;
        let p = pushes[n];
        let mid = choose|mid: EngineView|
            raft_model::pushes_all_to(pre, head, now, mid) && #[trigger] raft_model::push_leads_to(
                mid,
                pushes.last(),
                now,
                post,
            );
        lemma_pushes_arrive(pre, head, now, mid);
        reveal(raft_model::push_leads_to);
        let visible_at = (now + p.delay) as u64;
        exclusive::law_push_keeps_exclusive(mid, p.queue, p.id, p.payload, visible_at, now, post);
        model::lemma_shard_of_bound(p.queue);
        model::lemma_wrap(mid.total_in_ram + 1);
        let home = model::shard_of(p.queue);
        let s = mid.shards[home];
        let t = post.shards[home];
        assert(model::shard_holds(s, home));
        assert forall|at: int, id: u128|
            0 <= at < NUM_SHARDS && #[trigger] post.shards[at].seen.contains(id) implies exists|
            i: int,
        |
            0 <= i < pushes.len() && (#[trigger] pushes[i]).id == id
                && model::shard_of(pushes[i].queue) == at by {
            if mid.shards[at].seen.contains(id) {
                let i = choose|i: int|
                    0 <= i < head.len() && (#[trigger] head[i]).id == id
                        && model::shard_of(head[i].queue) == at;
                assert(pushes[i] == head[i]);
            } else {
                assert(pushes[n].id == id);
            }
        }
        let fresh = !s.seen.contains(p.id);
        if fresh && p.delay <= HOT_DELAY_HORIZON_SEC {
            sequences::lemma_insert_comes_up(s.queue(p.queue, now), p.id, visible_at, now);
        }
        assert forall|j: int|
            0 <= j < pushes.len() && is_first_of_its_id(pushes, j) && now + (
            #[trigger] pushes[j]).delay <= now + HOT_DELAY_HORIZON_SEC && now + pushes[j].delay
                <= u64::MAX implies {
            let u = post.shard(pushes[j].queue);
            &&& u.messages.contains_key(pushes[j].id)
            &&& is_message_of(
                pushes[j],
                model::shard_of(pushes[j].queue),
                u.messages[pushes[j].id],
            )
            &&& sequences::awaits(
                post,
                pushes[j].queue,
                pushes[j].id,
                (now + pushes[j].delay) as u64,
            )
            &&& arrivals::has_arrived(
                post,
                pushes[j].queue,
                pushes[j].id,
                pushes[j].payload,
                (now + pushes[j].delay) as u64,
            )
        } by {
            let x = pushes[j];
            model::lemma_shard_of_bound(x.queue);
            if j < n {
                assert(head[j] == x);
                assert(is_first_of_its_id(head, j)) by {
                    assert forall|i: int| 0 <= i < j implies (#[trigger] head[i]).id != head[j].id
                        || model::shard_of(head[i].queue)
                        != model::shard_of(head[j].queue) by {
                        assert(head[i] == pushes[i]);
                    }
                }
                let old_shard = mid.shard(x.queue);
                let due = (now + x.delay) as u64;
                assert(sequences::awaits(mid, x.queue, x.id, due));
                assert(old_shard.seen.contains(x.id));
                if fresh && model::shard_of(x.queue) == home {
                    assert(x.id != p.id);
                    if x.queue == p.queue {
                        sequences::lemma_insert_keeps_coming_up(
                            s.queues[p.queue],
                            p.id,
                            visible_at,
                            now,
                            x.id,
                            due,
                        );
                    }
                }
            } else {
                if s.seen.contains(p.id) {
                    assert(mid.shards[home].seen.contains(p.id));
                    let i = choose|i: int|
                        0 <= i < head.len() && (#[trigger] head[i]).id == p.id
                            && model::shard_of(head[i].queue) == home;
                    assert(pushes[i] == head[i]);
                }
            }
        }
    }
}

/// Messages that are pushed to an engine with nothing in memory, and are due within the
/// horizon, are handed out by polls within the lease time, each once, once their time has come,
/// if memory has room for all of them.
pub proof fn law_pushed_messages_are_handed_out_once(
    pre: EngineView,
    pushes: Seq<EnginePush>,
    now: u64,
    post: EngineView,
    j: int,
    steps: Seq<PollStep>,
)
    requires
        pre.is_clear(),
        pre.total_in_ram == 0,
        pushes.len() <= pre.options.max_hot_messages_in_ram,
        raft_model::pushes_all_to(pre, pushes, now, post),
        0 <= j < pushes.len(),
        is_first_of_its_id(pushes, j),
        pushes[j].delay <= HOT_DELAY_HORIZON_SEC,
        now + pushes[j].delay <= u64::MAX,
        sequences::within_leases(post, pushes[j].queue, steps),
        sequences::spares(
            post,
            pushes[j].queue,
            steps,
            model::shard_of(pushes[j].queue),
            pushes[j].id,
        ),
        steps.len() > 0,
        sequences::takes_all(
            sequences::run(post, pushes[j].queue, steps.drop_last()).0,
            pushes[j].queue,
            steps.last(),
            (now + pushes[j].delay) as u64,
        ),
    ensures
        ({
            let polled = sequences::run(post, pushes[j].queue, steps).1;
            &&& sequences::is_handed_out(polled, pushes[j].id)
            &&& forall|i: int, k: int|
                0 <= i < k < polled.len() ==> (#[trigger] polled[i]).message_id != (
                #[trigger] polled[k]).message_id
        }),
{
    exclusive::law_blank_engine_is_exclusive(pre);
    lemma_pushes_arrive(pre, pushes, now, post);
    let p = pushes[j];
    let due = (now + p.delay) as u64;
    assert(sequences::awaits(post, p.queue, p.id, due));
    sequences::law_polls_hand_out_every_message_once(post, p.queue, steps, p.id, due);
}

/// Without a snapshot, polls of a node that took over, with scans of the log on disk among
/// them, hand out everything that the node's log holds and does not acknowledge, each once,
/// once its time has come, if it is due within the horizon and memory has room for all of it.
pub proof fn law_takeover_polls_hand_out_every_open_push_once(
    node: RaftView,
    now: u64,
    post: RaftView,
    j: int,
    steps: Seq<PollStep>,
)
    requires
        node.snapshot_index == 0,
        node.engine.inv(),
        node.takes_over_to(now, post),
        node.takeover_pushes().len() <= node.engine.options.max_hot_messages_in_ram,
        0 <= j < node.takeover_pushes().len(),
        is_first_of_its_id(node.takeover_pushes(), j),
        node.takeover_pushes()[j].delay <= HOT_DELAY_HORIZON_SEC,
        now + node.takeover_pushes()[j].delay <= u64::MAX,
        steps.len() > 0,
        ({
            let p = node.takeover_pushes()[j];
            &&& sequences::within_leases(post.engine, p.queue, steps)
            &&& sequences::spares(post.engine, p.queue, steps, model::shard_of(p.queue), p.id)
            &&& sequences::takes_all(
                sequences::run(post.engine, p.queue, steps.drop_last()).0,
                p.queue,
                steps.last(),
                (now + p.delay) as u64,
            )
        }),
    ensures
        ({
            let p = node.takeover_pushes()[j];
            let polled = sequences::run(post.engine, p.queue, steps).1;
            &&& sequences::is_handed_out(polled, p.id)
            &&& forall|i: int, k: int|
                0 <= i < k < polled.len() ==> (#[trigger] polled[i]).message_id != (
                #[trigger] polled[k]).message_id
        }),
{
    lemma_takeover_engine(node, now, post);
    law_pushed_messages_are_handed_out_once(
        node.takeover_base(),
        node.takeover_pushes(),
        now,
        post.engine,
        j,
        steps,
    );
}

/// Without a snapshot, everything that the log of a node holds and does not acknowledge, and
/// that is due within the horizon, is in memory after the node took over, and comes up in its
/// queue in time, if memory has room for all of it.
pub proof fn law_takeover_holds_every_open_push(
    node: RaftView,
    now: u64,
    post: RaftView,
    j: int,
)
    requires
        node.snapshot_index == 0,
        node.engine.inv(),
        node.takes_over_to(now, post),
        node.takeover_pushes().len() <= node.engine.options.max_hot_messages_in_ram,
        0 <= j < node.takeover_pushes().len(),
        is_first_of_its_id(node.takeover_pushes(), j),
        node.takeover_pushes()[j].delay <= HOT_DELAY_HORIZON_SEC,
        now + node.takeover_pushes()[j].delay <= u64::MAX,
    ensures
        ({
            let p = node.takeover_pushes()[j];
            let s = post.engine.shard(p.queue);
            &&& s.messages.contains_key(p.id)
            &&& is_message_of(p, model::shard_of(p.queue), s.messages[p.id])
            &&& sequences::awaits(post.engine, p.queue, p.id, (now + p.delay) as u64)
        }),
{
    let engine = choose|engine: EngineView| #[trigger]
        raft_model::pushes_all_to(
            node.takeover_base(),
            node.takeover_pushes(),
            now,
            engine,
        ) && post == (RaftView { engine, ..node.elected() });
    assert(node.takeover_base().is_clear());
    exclusive::law_blank_engine_is_exclusive(node.takeover_base());
    lemma_pushes_arrive(node.takeover_base(), node.takeover_pushes(), now, engine);
}

}
