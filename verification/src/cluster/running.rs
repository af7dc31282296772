//! What a node does by itself, and what it hands to a peer.
use vstd::prelude::*;
use vstd::utf8;

use crate::cluster::laws;
use crate::cluster::raft;
use crate::cluster::raft::{Replication, TickAction};
use crate::cluster::raft_model::{RaftRole, RaftView};
use crate::cluster::snapshots;
use crate::engine::arrivals;
use crate::engine::disk_log::SurvivorView;
use crate::engine::model;
use crate::engine::model::NUM_SHARDS;
use crate::engine::recovery;
use crate::engine::shard;
use crate::engine::single_queue::HOT_DELAY_HORIZON_SEC;
use crate::ids;
use crate::protocol::{Request, SnapshotItem};
use crate::text;

verus! {

/// A node that was stopped stops. A leader that runs tells every peer that it is alive, in its
/// term and without entries. Another node takes over exactly if it knows of no leader and no
/// peer's name comes before its own; then it is the leader. Else nothing happens.
pub proof fn law_node_leads_when_it_should(
    pre: RaftView,
    now: u64,
    post: RaftView,
    action: TickAction,
)
    requires
        raft::ticked(pre, now, post, action),
    ensures
        ({
            let is_first = forall|i: int|
                0 <= i < pre.peers.len() ==> !text::precedes(
                    utf8::encode_utf8(#[trigger] pre.peers[i]),
                    utf8::encode_utf8(pre.node_id),
                );
            &&& action is Stop <==> !pre.is_running
            &&& action is Heartbeat <==> pre.is_running && pre.role == RaftRole::Leader
            &&& action is Elected <==> pre.is_running && pre.role != RaftRole::Leader
                && pre.current_leader is None && is_first
            &&& action matches TickAction::Heartbeat(r) ==> {
                &&& r@.peers == pre.peers
                &&& r@.term == pre.current_term
                &&& r@.leader_id == pre.node_id
                &&& r@.entries.len() == 0
                &&& r@.leader_commit == pre.commit_index
            }
            &&& !(action is Elected) ==> post == pre
            &&& action is Elected ==> {
                &&& post.role == RaftRole::Leader
                &&& post.is_leader_cached
                &&& post.current_leader == Some(pre.node_id)
                &&& post.log == pre.log
                &&& post.peers == pre.peers
            }
        }),
{
}

/// Of two nodes that know each other as peers, and have different names, not both take over by
/// themselves.
pub proof fn law_two_nodes_are_not_both_elected(
    a: RaftView,
    b: RaftView,
    now: u64,
    then_a: RaftView,
    then_b: RaftView,
    one: TickAction,
    two: TickAction,
)
    requires
        raft::ticked(a, now, then_a, one),
        raft::ticked(b, now, then_b, two),
        a.peers.contains(b.node_id),
        b.peers.contains(a.node_id),
        a.node_id != b.node_id,
    ensures
        !(one is Elected && two is Elected),
{
    laws::law_only_one_node_is_first(a, b);
}

/// The first listed place of a message.
proof fn lemma_first_listed(items: Seq<SnapshotItem>, n: nat, at: int, id: u128) -> (i: int)
    requires
        n <= items.len(),
        exists|h: int|
            0 <= h < n && ids::id_value((#[trigger] items[h]).id@) == Some(id) && model::shard_of(
                items[h].queue@,
            ) == at,
    ensures
        0 <= i < n,
        ids::id_value(items[i].id@) == Some(id),
        model::shard_of(items[i].queue@) == at,
        snapshots::is_listed_first(items, i),
    decreases n,
{
    let m = (n - 1) as nat;
    if exists|h: int|
        0 <= h < m && ids::id_value((#[trigger] items[h]).id@) == Some(id) && model::shard_of(
            items[h].queue@,
        ) == at {
        lemma_first_listed(items, m, at, id)
    } else {
        let h = choose|h: int|
            0 <= h < n && ids::id_value((#[trigger] items[h]).id@) == Some(id) && model::shard_of(
                items[h].queue@,
            ) == at;
        h
    }
}

/// A peer that is synced gets the node's whole log, and after it installed the snapshot that goes
/// with it, it has every message that the node has in memory and that is due within the horizon,
/// with its queue, payload and time, if there is room for all of them.
pub proof fn law_synced_peer_has_every_message(
    node: RaftView,
    peer: Seq<char>,
    request: Request,
    replication: Option<Replication>,
    pre: RaftView,
    now: u64,
    post: RaftView,
    at: int,
    id: u128,
)
    requires
        raft::is_sync_plan(node, peer, request, replication),
        node.engine.inv(),
        request is RaftInstallSnapshot,
        raft::snapshot_installed(
            pre,
            request->RaftInstallSnapshot_term,
            request->RaftInstallSnapshot_leader_id@,
            request->last_included_index,
            request->last_included_term,
            request->RaftInstallSnapshot_items@,
            now,
            post,
        ),
        pre.engine.inv(),
        request->RaftInstallSnapshot_items@.len() <= pre.engine.options.max_hot_messages_in_ram,
        0 <= at < NUM_SHARDS,
        node.engine.shards[at].messages.contains_key(id),
        node.engine.shards[at].messages[id].visible_at <= now + HOT_DELAY_HORIZON_SEC,
    ensures
        replication is Some <==> node.log.len() > 0,
        replication matches Some(r) ==> r@.entries == node.log && r@.peers == seq![peer]
            && r@.term == node.current_term && r@.leader_id == node.node_id,
        request->RaftInstallSnapshot_term == node.current_term,
        post.snapshot_index == node.snapshot_index,
        post.snapshot_term == node.snapshot_term,
        post.current_leader == Some(node.node_id),
        ({
            let msg = node.engine.shards[at].messages[id];
            arrivals::has_arrived(
                post.engine,
                msg.queue,
                id,
                msg.payload,
                if msg.visible_at > now {
                    msg.visible_at
                } else {
                    now
                },
            )
        }),
{
    let list = choose|list: Seq<SurvivorView>| #[trigger]
        model::lists_shards(node.engine.shards, NUM_SHARDS as nat, list)
            && raft::is_snapshot_request(node, list, request);
    let items = request->RaftInstallSnapshot_items@;
    let msg = node.engine.shards[at].messages[id];
    assert(model::shard_holds(node.engine.shards[at], at));
    recovery::law_snapshot_lists_every_message(node.engine.shards, NUM_SHARDS as nat, list);
    assert(list.contains(shard::survivor_of(msg)));
    let h = choose|h: int| 0 <= h < list.len() && list[h] == shard::survivor_of(msg);
    assert(raft::is_snapshot_item(list[h], items[h]));
    ids::law_ulid_round_trip(id);
    let i = lemma_first_listed(items, items.len(), at, id);
    assert(raft::is_snapshot_item(list[i], items[i]));
    let home = choose|home: int|
        0 <= home < NUM_SHARDS && (
        #[trigger] node.engine.shards[home]).messages.contains_key(list[i].id) && list[i]
            == shard::survivor_of(node.engine.shards[home].messages[list[i].id]);
    assert(model::shard_holds(node.engine.shards[home], home));
    ids::law_ulid_round_trip(list[i].id);
    assert(list[i].id == id);
    assert(home == at);
    assert(list[i] == shard::survivor_of(msg));
    snapshots::law_installed_snapshot_brings_its_messages(
        pre,
        request->RaftInstallSnapshot_term,
        request->RaftInstallSnapshot_leader_id@,
        request->last_included_index,
        request->last_included_term,
        items,
        now,
        post,
        i,
        id,
        Seq::empty(),
    );
}

}
