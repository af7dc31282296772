//! What a node has after it took in the entries of its leader.
use vstd::prelude::*;

use crate::cluster::raft;
use crate::cluster::raft_model;
use crate::cluster::raft_model::{CommandView, EnginePush, EntryView, RaftRole, RaftView};
use crate::engine::arrivals;
use crate::engine::counting;
use crate::engine::exclusive;
use crate::engine::model;
use crate::engine::model::{EngineView, NUM_SHARDS};
use crate::engine::sequences;
use crate::engine::single_queue::HOT_DELAY_HORIZON_SEC;
use crate::ids;

verus! {

/// The command pushes the message to a queue of this shard.
pub open spec fn pushes_message(command: CommandView, at: int, id: u128) -> bool {
    command matches CommandView::Push { queue, msg_id, .. } && ids::id_value(msg_id) == Some(id)
        && model::shard_of(queue) == at
}

/// The command acknowledges the message in a queue of this shard.
pub open spec fn acks_message(command: CommandView, at: int, id: u128) -> bool {
    command matches CommandView::Ack { queue, msg_id, .. } && ids::id_value(msg_id) == Some(id)
        && model::shard_of(queue) == at
}

/// None of the entries before `n` pushes the message.
pub open spec fn no_push_before(entries: Seq<EntryView>, n: int, at: int, id: u128) -> bool {
    forall|i: int| 0 <= i < n ==> !pushes_message((#[trigger] entries[i]).command, at, id)
}

/// None of the entries acknowledges the message.
pub open spec fn no_ack(entries: Seq<EntryView>, at: int, id: u128) -> bool {
    forall|i: int|
        0 <= i < entries.len() ==> !acks_message((#[trigger] entries[i]).command, at, id)
}

/// What every command keeps.
#[verifier::rlimit(60)]
proof fn lemma_command_frame(
    pre: EngineView,
    command: CommandView,
    now: u64,
    post: EngineView,
    at: int,
    id: u128,
)
    requires
        exclusive::all_exclusive(pre),
        counting::counted(pre),
        pre.total_in_ram < usize::MAX,
        raft_model::command_leads_to(pre, command, now, post),
        0 <= at < NUM_SHARDS,
    ensures
        exclusive::all_exclusive(post),
        counting::counted(post),
        post.options == pre.options,
        post.total_in_ram <= pre.total_in_ram + 1,
        pre.shards[at].seen.contains(id) ==> post.shards[at].seen.contains(id),
        post.shards[at].seen.contains(id) ==> pre.shards[at].seen.contains(id) || pushes_message(
            command,
            at,
            id,
        ),
        pre.shards[at].acked.contains(id) ==> post.shards[at].acked.contains(id),
        post.shards[at].acked.contains(id) ==> pre.shards[at].acked.contains(id) || acks_message(
            command,
            at,
            id,
        ),
        acks_message(command, at, id) ==> post.shards[at].acked.contains(id)
            && !post.shards[at].messages.contains_key(id),
        post.shards[at].messages.contains_key(id) ==> pre.shards[at].messages.contains_key(id)
            || pushes_message(command, at, id),
        pre.shards[at].messages.contains_key(id) && !acks_message(command, at, id)
            ==> post.shards[at].messages.contains_key(id) && post.shards[at].messages[id]
            == pre.shards[at].messages[id],
{
    reveal(raft_model::command_leads_to);
    assert(model::shard_holds(pre.shards[at], at));
    match command {
        CommandView::Push { queue, msg_id, payload, visible_at } => {
            model::lemma_shard_of_bound(queue);
            if let Some(pushed) = ids::id_value(msg_id) {
                let due = (now + visible_at) as u64;
                exclusive::law_push_keeps_exclusive(pre, queue, pushed, payload, due, now, post);
                counting::law_push_keeps_count(pre, queue, pushed, payload, due, now, post);
                model::lemma_wrap(pre.total_in_ram + 1);
                assert(model::shard_holds(
                    pre.shards[model::shard_of(queue)],
                    model::shard_of(queue),
                ));
            }
        },
        CommandView::Ack { queue, msg_id, receipt } => {
            model::lemma_shard_of_bound(queue);
            if let Some(acked) = ids::id_value(msg_id) {
                exclusive::law_ack_keeps_exclusive(pre, queue, acked, receipt);
                counting::law_follower_ack_keeps_count(pre, queue, acked, post);
                counting::lemma_apply_ack_counted(pre, queue, acked);
                let mid = pre.apply_ack(queue, acked);
                assert forall|i: int| 0 <= i < NUM_SHARDS implies exclusive::exclusive(
                    #[trigger] post.shards[i],
                ) && model::shard_holds(post.shards[i], i) by {
                    assert(exclusive::exclusive(mid.shards[i]));
                    assert(model::shard_holds(mid.shards[i], i));
                }
            }
        },
    }
}

/// A message that waits goes on to wait, unless the command acknowledges it.
proof fn lemma_command_keeps_arrived(
    pre: EngineView,
    command: CommandView,
    now: u64,
    post: EngineView,
    queue: Seq<char>,
    id: u128,
    payload: Seq<u8>,
    due: u64,
)
    requires
        pre.inv(),
        raft_model::command_leads_to(pre, command, now, post),
        arrivals::has_arrived(pre, queue, id, payload, due),
        !acks_message(command, model::shard_of(queue), id),
        post.options == pre.options,
    ensures
        arrivals::has_arrived(post, queue, id, payload, due),
{
    reveal(raft_model::command_leads_to);
    model::lemma_shard_of_bound(queue);
    let at = model::shard_of(queue);
    assert(model::shard_holds(pre.shards[at], at));
    let q = pre.shard(queue).queues[queue];
    match command {
        CommandView::Push { queue: name, msg_id, payload: body, visible_at } => {
            model::lemma_shard_of_bound(name);
            if let Some(pushed) = ids::id_value(msg_id) {
                if name == queue && pushed != id {
                    sequences::lemma_insert_keeps_coming_up(
                        q,
                        pushed,
                        (now + visible_at) as u64,
                        now,
                        id,
                        due,
                    );
                }
            }
        },
        CommandView::Ack { queue: name, msg_id, receipt } => {
            model::lemma_shard_of_bound(name);
            if let Some(acked) = ids::id_value(msg_id) {
                if name == queue {
                    sequences::lemma_tombstone_keeps_coming_up(q, acked, id, due);
                }
            }
        },
    }
}

/// A push of a message that was not seen brings it in.
proof fn lemma_push_command_arrives(
    pre: EngineView,
    command: CommandView,
    now: u64,
    post: EngineView,
    id: u128,
)
    requires
        pre.inv(),
        raft_model::command_leads_to(pre, command, now, post),
        command is Push,
        ids::id_value(command->Push_msg_id) == Some(id),
        !pre.shard(command->Push_queue).seen.contains(id),
        command->visible_at <= HOT_DELAY_HORIZON_SEC,
        now + command->visible_at <= u64::MAX,
        pre.total_in_ram < pre.options.max_hot_messages_in_ram,
    ensures
        arrivals::has_arrived(
            post,
            command->Push_queue,
            id,
            command->payload,
            (now + command->visible_at) as u64,
        ),
{
    reveal(raft_model::command_leads_to);
    let queue = command->Push_queue;
    model::lemma_shard_of_bound(queue);
    let at = model::shard_of(queue);
    assert(model::shard_holds(pre.shards[at], at));
    sequences::lemma_insert_comes_up(
        pre.shard(queue).queue(queue, now),
        id,
        (now + command->visible_at) as u64,
        now,
    );
}

proof fn lemma_entries_frame(
    pre: EngineView,
    entries: Seq<EntryView>,
    now: u64,
    post: EngineView,
    at: int,
    id: u128,
)
    requires
        exclusive::all_exclusive(pre),
        counting::counted(pre),
        pre.total_in_ram + entries.len() <= usize::MAX,
        raft_model::entries_lead_to(pre, entries, now, post),
        0 <= at < NUM_SHARDS,
    ensures
        exclusive::all_exclusive(post),
        counting::counted(post),
        post.options == pre.options,
        post.total_in_ram <= pre.total_in_ram + entries.len(),
        !pre.shards[at].seen.contains(id) && no_push_before(
            entries,
            entries.len() as int,
            at,
            id,
        ) ==> !post.shards[at].seen.contains(id),
        pre.shards[at].acked.contains(id) ==> post.shards[at].acked.contains(id),
        !pre.shards[at].messages.contains_key(id) && no_push_before(
            entries,
            entries.len() as int,
            at,
            id,
        ) ==> !post.shards[at].messages.contains_key(id),
        pre.shards[at].messages.contains_key(id) && no_ack(entries, at, id)
            ==> post.shards[at].messages.contains_key(id) && post.shards[at].messages[id]
            == pre.shards[at].messages[id],
        post.shards[at].acked.contains(id) && no_ack(entries, at, id)
            ==> pre.shards[at].acked.contains(id),
    decreases entries.len(),
{
    if entries.len() > 0 {
        let head = entries.drop_last();
        let n = entries.len() - 1;
        let mid = choose|mid: EngineView|
            raft_model::entries_lead_to(pre, head, now, mid)
                && #[trigger] raft_model::command_leads_to(
                mid,
                entries.last().command,
                now,
                post,
            );
        lemma_entries_frame(pre, head, now, mid, at, id);
        lemma_command_frame(mid, entries.last().command, now, post, at, id);
        lemma_heads(entries, at, id);
    }
}

proof fn lemma_heads(entries: Seq<EntryView>, at: int, id: u128)
    requires
        entries.len() > 0,
    ensures
        no_push_before(entries, entries.len() as int, at, id) ==> no_push_before(
            entries.drop_last(),
            entries.len() - 1,
            at,
            id,
        ) && !pushes_message(entries.last().command, at, id),
        no_ack(entries, at, id) ==> no_ack(entries.drop_last(), at, id) && !acks_message(
            entries.last().command,
            at,
            id,
        ),
{
    let head = entries.drop_last();
    assert(entries[entries.len() - 1] == entries.last());
    assert forall|i: int| 0 <= i < head.len() implies #[trigger] head[i] == entries[i] by {}
}

/// Every message that the leader's entries push, for the first time to its shard, and do not
/// acknowledge, is in memory afterwards as it was pushed, and comes up when its delay is over,
/// if it is due within the horizon and there is room.
pub proof fn law_appended_push_arrives(
    pre: EngineView,
    entries: Seq<EntryView>,
    now: u64,
    post: EngineView,
    k: int,
    id: u128,
)
    requires
        exclusive::all_exclusive(pre),
        counting::counted(pre),
        pre.total_in_ram + entries.len() <= pre.options.max_hot_messages_in_ram,
        raft_model::entries_lead_to(pre, entries, now, post),
        0 <= k < entries.len(),
        entries[k].command is Push,
        ids::id_value(entries[k].command->Push_msg_id) == Some(id),
        !pre.shard(entries[k].command->Push_queue).seen.contains(id),
        no_push_before(entries, k, model::shard_of(entries[k].command->Push_queue), id),
        no_ack(entries, model::shard_of(entries[k].command->Push_queue), id),
        entries[k].command->visible_at <= HOT_DELAY_HORIZON_SEC,
        now + entries[k].command->visible_at <= u64::MAX,
    ensures
        arrivals::has_arrived(
            post,
            entries[k].command->Push_queue,
            id,
            entries[k].command->payload,
            (now + entries[k].command->visible_at) as u64,
        ),
    decreases entries.len(),
{
    let head = entries.drop_last();
    let n = entries.len() - 1;
    let command = entries[k].command;
    let queue = command->Push_queue;
    let at = model::shard_of(queue);
    model::lemma_shard_of_bound(queue);
    let mid = choose|mid: EngineView|
        raft_model::entries_lead_to(pre, head, now, mid) && #[trigger] raft_model::command_leads_to(
            mid,
            entries.last().command,
            now,
            post,
        );
    lemma_entries_frame(pre, head, now, mid, at, id);
    lemma_command_frame(mid, entries.last().command, now, post, at, id);
    lemma_heads(entries, at, id);
    assert forall|i: int| 0 <= i < head.len() implies #[trigger] head[i] == entries[i] by {}
    if k < n {
        law_appended_push_arrives(pre, head, now, mid, k, id);
        lemma_command_keeps_arrived(
            mid,
            entries.last().command,
            now,
            post,
            queue,
            id,
            command->payload,
            (now + command->visible_at) as u64,
        );
    } else {
        assert(no_push_before(head, head.len() as int, at, id));
        lemma_push_command_arrives(mid, command, now, post, id);
    }
}

/// Every message that the leader's entries acknowledge is known to be acknowledged afterwards,
/// and is not in memory unless a later entry pushes it.
pub proof fn law_appended_ack_removes(
    pre: EngineView,
    entries: Seq<EntryView>,
    now: u64,
    post: EngineView,
    k: int,
    id: u128,
)
    requires
        exclusive::all_exclusive(pre),
        counting::counted(pre),
        pre.total_in_ram + entries.len() <= usize::MAX,
        raft_model::entries_lead_to(pre, entries, now, post),
        0 <= k < entries.len(),
        entries[k].command is Ack,
        ids::id_value(entries[k].command->Ack_msg_id) == Some(id),
    ensures
        post.shard(entries[k].command->Ack_queue).acked.contains(id),
        (forall|i: int|
            k < i < entries.len() ==> !pushes_message(
                (#[trigger] entries[i]).command,
                model::shard_of(entries[k].command->Ack_queue),
                id,
            )) ==> !post.shard(entries[k].command->Ack_queue).messages.contains_key(id),
    decreases entries.len(),
{
    let head = entries.drop_last();
    let n = entries.len() - 1;
    let queue = entries[k].command->Ack_queue;
    let at = model::shard_of(queue);
    model::lemma_shard_of_bound(queue);
    let mid = choose|mid: EngineView|
        raft_model::entries_lead_to(pre, head, now, mid) && #[trigger] raft_model::command_leads_to(
            mid,
            entries.last().command,
            now,
            post,
        );
    lemma_entries_frame(pre, head, now, mid, at, id);
    lemma_command_frame(mid, entries.last().command, now, post, at, id);
    assert forall|i: int| 0 <= i < head.len() implies #[trigger] head[i] == entries[i] by {}
    assert(entries[n] == entries.last());
    if k < n {
        law_appended_ack_removes(pre, head, now, mid, k, id);
    }
}

/// A message that the leader's entries do not name stays as it is, in memory or not.
pub proof fn law_append_leaves_other_messages(
    pre: EngineView,
    entries: Seq<EntryView>,
    now: u64,
    post: EngineView,
    at: int,
    id: u128,
)
    requires
        exclusive::all_exclusive(pre),
        counting::counted(pre),
        pre.total_in_ram + entries.len() <= usize::MAX,
        raft_model::entries_lead_to(pre, entries, now, post),
        0 <= at < NUM_SHARDS,
        no_push_before(entries, entries.len() as int, at, id),
        no_ack(entries, at, id),
    ensures
        post.shards[at].messages.contains_key(id) == pre.shards[at].messages.contains_key(id),
        pre.shards[at].messages.contains_key(id) ==> post.shards[at].messages[id]
            == pre.shards[at].messages[id],
        post.shards[at].acked.contains(id) == pre.shards[at].acked.contains(id),
{
    lemma_entries_frame(pre, entries, now, post, at, id);
}

/// After the leader's entries were taken in, they are the end of the log. The beginning of a log
/// that became too long is cut off, and the snapshot stands for it. The node knows its leader,
/// and a later term makes it a follower.
pub proof fn law_append_grows_the_log(
    pre: RaftView,
    term: u64,
    leader_id: Seq<char>,
    entries: Seq<EntryView>,
    now: u64,
    post: RaftView,
)
    requires
        raft::entries_appended(pre, term, leader_id, entries, now, post),
    ensures
        ({
            let whole = pre.log + entries;
            let cut = whole.len() - post.log.len();
            &&& post.log == whole.skip(cut)
            &&& 0 <= cut
            &&& cut > 0 ==> post.log.len() == pre.compaction_threshold && post.snapshot_index
                == whole[cut - 1].index && post.snapshot_term == whole[cut - 1].term
            &&& cut == 0 ==> post.snapshot_index == pre.snapshot_index && post.snapshot_term
                == pre.snapshot_term
            &&& cut > 0 <==> pre.compaction_threshold > 0 && whole.len() > 2
                * pre.compaction_threshold
        }),
        post.current_leader == Some(leader_id),
        post.current_term == if term > pre.current_term {
            term
        } else {
            pre.current_term
        },
        term > pre.current_term ==> post.role == RaftRole::Follower && !post.is_leader_cached,
        term <= pre.current_term ==> post.role == pre.role && post.is_leader_cached
            == pre.is_leader_cached,
        post.commit_index == pre.commit_index,
        post.node_id == pre.node_id,
        post.peers == pre.peers,
{
    let engine = choose|engine: EngineView| #[trigger]
        raft_model::entries_lead_to(pre.engine, entries, now, engine) && post == (RaftView {
            engine,
            log: pre.log + entries,
            ..pre.following(term, leader_id)
        }).trimmed();
    assert((pre.log + entries).skip(0) =~= pre.log + entries);
}

/// What follows of a node that took over: it is the leader, it says so, and it keeps its term,
/// log and peers.
pub proof fn law_takeover_makes_a_leader(node: RaftView, now: u64, post: RaftView)
    requires
        node.takes_over_to(now, post),
    ensures
        post.role == RaftRole::Leader,
        post.is_leader_cached,
        post.current_leader == Some(node.node_id),
        post.current_term == node.current_term,
        post.log == node.log,
        post.peers == node.peers,
        post.node_id == node.node_id,
        post.commit_index == node.commit_index,
        post.snapshot_index == node.snapshot_index,
{
}

proof fn lemma_push_keeps_message(
    pre: EngineView,
    p: EnginePush,
    now: u64,
    post: EngineView,
    at: int,
    id: u128,
)
    requires
        exclusive::all_exclusive(pre),
        pre.total_in_ram < usize::MAX,
        raft_model::push_leads_to(pre, p, now, post),
        0 <= at < NUM_SHARDS,
    ensures
        exclusive::all_exclusive(post),
        post.options == pre.options,
        post.total_in_ram <= pre.total_in_ram + 1,
        post.shards[at].wheel == pre.shards[at].wheel,
        pre.shards[at].messages.contains_key(id) ==> post.shards[at].messages.contains_key(id)
            && post.shards[at].messages[id] == pre.shards[at].messages[id],
        post.shards[at].seen.contains(id) ==> pre.shards[at].seen.contains(id) || (p.id == id
            && model::shard_of(p.queue) == at),
{
    reveal(raft_model::push_leads_to);
    model::lemma_shard_of_bound(p.queue);
    let due = (now + p.delay) as u64;
    exclusive::law_push_keeps_exclusive(pre, p.queue, p.id, p.payload, due, now, post);
    model::lemma_wrap(pre.total_in_ram + 1);
    assert(model::shard_holds(pre.shards[at], at));
    assert(model::shard_holds(pre.shards[model::shard_of(p.queue)], model::shard_of(p.queue)));
}

proof fn lemma_pushes_keep_messages(
    pre: EngineView,
    pushes: Seq<EnginePush>,
    now: u64,
    post: EngineView,
    at: int,
    id: u128,
)
    requires
        exclusive::all_exclusive(pre),
        pre.total_in_ram + pushes.len() <= usize::MAX,
        raft_model::pushes_all_to(pre, pushes, now, post),
        0 <= at < NUM_SHARDS,
    ensures
        exclusive::all_exclusive(post),
        post.options == pre.options,
        post.total_in_ram <= pre.total_in_ram + pushes.len(),
        post.shards[at].wheel == pre.shards[at].wheel,
        pre.shards[at].messages.contains_key(id) ==> post.shards[at].messages.contains_key(id)
            && post.shards[at].messages[id] == pre.shards[at].messages[id],
        post.shards[at].seen.contains(id) ==> pre.shards[at].seen.contains(id) || exists|i: int|
            0 <= i < pushes.len() && (#[trigger] pushes[i]).id == id && model::shard_of(
                pushes[i].queue,
            ) == at,
    decreases pushes.len(),
{
    if pushes.len() > 0 {
        let head = pushes.drop_last();
        let n = pushes.len() - 1;
        let mid = choose|mid: EngineView|
            raft_model::pushes_all_to(pre, head, now, mid) && #[trigger] raft_model::push_leads_to(
                mid,
                pushes.last(),
                now,
                post,
            );
        lemma_pushes_keep_messages(pre, head, now, mid, at, id);
        lemma_push_keeps_message(mid, pushes.last(), now, post, at, id);
        assert(pushes[n] == pushes.last());
        if mid.shards[at].seen.contains(id) && !pre.shards[at].seen.contains(id) {
            let i = choose|i: int|
                0 <= i < head.len() && (#[trigger] head[i]).id == id && model::shard_of(
                    head[i].queue,
                ) == at;
            assert(pushes[i] == head[i]);
        }
    }
}

/// With a snapshot, a node that takes over keeps every message that it has in memory, and every
/// lease.
pub proof fn law_takeover_with_snapshot_keeps_messages(
    node: RaftView,
    now: u64,
    post: RaftView,
    at: int,
    id: u128,
)
    requires
        node.takes_over_to(now, post),
        node.snapshot_index > 0,
        exclusive::all_exclusive(node.engine),
        node.engine.total_in_ram + node.takeover_pushes().len() <= usize::MAX,
        0 <= at < NUM_SHARDS,
    ensures
        post.engine.shards[at].wheel == node.engine.shards[at].wheel,
        node.engine.shards[at].messages.contains_key(id)
            ==> post.engine.shards[at].messages.contains_key(id)
            && post.engine.shards[at].messages[id] == node.engine.shards[at].messages[id],
{
    let engine = choose|engine: EngineView| #[trigger]
        raft_model::pushes_all_to(
            node.takeover_base(),
            node.takeover_pushes(),
            now,
            engine,
        ) && post == (RaftView { engine, ..node.elected() });
    lemma_pushes_keep_messages(node.engine, node.takeover_pushes(), now, engine, at, id);
}

}
