//! What a client that acknowledges can rely on, from request to answer.
use vstd::prelude::*;

use crate::cluster::raft;
use crate::cluster::raft_model::{AckProposalView, CommandView, EntryView, RaftRole, RaftView};
use crate::engine::leasing;
use crate::engine::model;
use crate::engine::model::{EngineView, NUM_SHARDS};
use crate::engine::shard::ShardView;
use crate::ids;
use crate::protocol::{Request, ResponseView};
use crate::server::tcp_service;
use crate::server::tcp_service::{Dispatch, ServerView};

verus! {

/// The queue that an acknowledgement is for.
pub open spec fn acked_queue(req: Request) -> Seq<char> {
    match req {
        Request::Ack { queue_name, .. } => queue_name@,
        Request::AckBatch { queue_name, .. } => queue_name@,
        _ => Seq::empty(),
    }
}

/// The id texts and receipts of an acknowledgement.
pub open spec fn acked_items(req: Request) -> Seq<(Seq<char>, Seq<char>)> {
    match req {
        Request::Ack { message_id, receipt_handle, .. } => seq![(message_id@, receipt_handle@)],
        Request::AckBatch { items, .. } => Seq::new(
            items@.len(),
            |k: int| (items@[k].message_id@, items@[k].receipt_handle@),
        ),
        _ => Seq::empty(),
    }
}

/// An acknowledgement is dispatched at `pre`, which leads to `mid`, and is answered at once, or
/// at `at` once the peers were told.
pub open spec fn ack_served(
    pre: ServerView,
    req: Request,
    now: u64,
    mid: ServerView,
    at: ServerView,
    post: ServerView,
    response: ResponseView,
) -> bool {
    &&& req is Ack || req is AckBatch
    &&& pre.raft.is_leader_cached
    &&& pre.raft.role == RaftRole::Leader
    &&& exists|res: Dispatch| #[trigger]
        tcp_service::dispatched(pre, req, now, mid, res) && match res {
            Dispatch::Done { response: answer } => response == answer@ && post == mid,
            Dispatch::Ack { proposal, batch } => tcp_service::ack_finished(
                at,
                proposal@,
                batch,
                post,
                response,
            ),
            _ => false,
        }
}

/// The message is in memory, and a lease on it runs under this receipt.
pub open spec fn can_be_acked(
    e: EngineView,
    queue: Seq<char>,
    item: (Seq<char>, Seq<char>),
    now: u64,
) -> bool {
    let s = e.shard(queue);
    ids::id_value(item.0) matches Some(id) && {
        &&& s.messages.contains_key(id)
        &&& s.wheel.index.contains_key(id)
        &&& s.wheel.index[id].1 == item.1
        &&& now < s.wheel.index[id].2
    }
}

/// The items name different messages.
pub open spec fn names_differ(items: Seq<(Seq<char>, Seq<char>)>) -> bool {
    forall|i: int, j: int|
        0 <= i < j < items.len() && ids::id_value((#[trigger] items[i]).0) is Some
            ==> ids::id_value(items[i].0) != ids::id_value((#[trigger] items[j]).0)
}

/// None of the items names the message.
pub open spec fn names_not(items: Seq<(Seq<char>, Seq<char>)>, id: u128) -> bool {
    forall|i: int| 0 <= i < items.len() ==> ids::id_value((#[trigger] items[i]).0) != Some(id)
}

/// The shard has the message, its lease and what is known of it as before.
pub open spec fn same_message(s: ShardView, r: ShardView, id: u128) -> bool {
    &&& r.messages.contains_key(id) == s.messages.contains_key(id)
    &&& s.messages.contains_key(id) ==> r.messages[id] == s.messages[id]
    &&& r.wheel.index.contains_key(id) == s.wheel.index.contains_key(id)
    &&& s.wheel.index.contains_key(id) ==> r.wheel.index[id] == s.wheel.index[id]
    &&& r.acked.contains(id) == s.acked.contains(id)
}

/// The message is not in memory, not leased, and known to be acknowledged.
pub open spec fn is_acked(s: ShardView, id: u128) -> bool {
    !s.messages.contains_key(id) && !s.wheel.index.contains_key(id) && s.acked.contains(id)
}

proof fn lemma_acks_spare(
    e: EngineView,
    queue: Seq<char>,
    items: Seq<(Seq<char>, Seq<char>)>,
    now: u64,
)
    requires
        e.shards.len() == NUM_SHARDS,
    ensures
        e.ack_all(queue, items, now).shards.len() == NUM_SHARDS,
        forall|at: int|
            0 <= at < NUM_SHARDS && at != model::shard_of(queue) ==> #[trigger] e.ack_all(
                queue,
                items,
                now,
            ).shards[at] == e.shards[at],
        forall|id: u128| #[trigger]
            names_not(items, id) ==> same_message(
                e.shard(queue),
                e.ack_all(queue, items, now).shard(queue),
                id,
            ),
    decreases items.len(),
{
    model::lemma_shard_of_bound(queue);
    if items.len() > 0 {
        let head = items.drop_last();
        lemma_acks_spare(e, queue, head, now);
        assert forall|id: u128| #[trigger] names_not(items, id) implies same_message(
            e.shard(queue),
            e.ack_all(queue, items, now).shard(queue),
            id,
        ) by {
            assert(names_not(head, id)) by {
                assert forall|i: int| 0 <= i < head.len() implies ids::id_value(
                    (#[trigger] head[i]).0,
                ) != Some(id) by {
                    assert(head[i] == items[i]);
                }
            }
            assert(ids::id_value(items[items.len() - 1].0) != Some(id));
        }
    }
}

/// An item that names a message of its own is accepted exactly if the message can be
/// acknowledged with it, whatever the others are.
proof fn lemma_acks_removed(
    e: EngineView,
    queue: Seq<char>,
    items: Seq<(Seq<char>, Seq<char>)>,
    now: u64,
)
    requires
        e.shards.len() == NUM_SHARDS,
        names_differ(items),
    ensures
        e.accepted_acks(queue, items, now) == items.filter(
            |item: (Seq<char>, Seq<char>)| can_be_acked(e, queue, item, now),
        ),
        forall|k: int|
            0 <= k < items.len() && can_be_acked(e, queue, #[trigger] items[k], now) ==> is_acked(
                e.ack_all(queue, items, now).shard(queue),
                ids::id_value(items[k].0).unwrap(),
            ),
    decreases items.len(),
{
    reveal(Seq::filter);
    model::lemma_shard_of_bound(queue);
    if items.len() > 0 {
        let head = items.drop_last();
        let n = items.len() - 1;
        let last = items[n];
        assert(names_differ(head)) by {
            assert forall|i: int, j: int|
                0 <= i < j < head.len() && ids::id_value((#[trigger] head[i]).0) is Some
                implies ids::id_value(head[i].0) != ids::id_value((#[trigger] head[j]).0) by {
                assert(ids::id_value(items[i].0) != ids::id_value(items[j].0));
            }
        }
        lemma_acks_removed(e, queue, head, now);
        lemma_acks_spare(e, queue, head, now);
        let mid = e.ack_all(queue, head, now);
        let post = e.ack_all(queue, items, now);
        if let Some(id) = ids::id_value(last.0) {
            assert(names_not(head, id)) by {
                assert forall|i: int| 0 <= i < head.len() implies ids::id_value(
                    (#[trigger] head[i]).0,
                ) != Some(id) by {
                    assert(head[i] == items[i]);
                    assert(ids::id_value(items[i].0) is Some ==> ids::id_value(items[i].0)
                        != ids::id_value(items[n].0));
                }
            }
            assert(same_message(e.shard(queue), mid.shard(queue), id));
        }
        assert(mid.ack_removes(queue, last.0, last.1, now) == can_be_acked(e, queue, last, now));
        assert forall|k: int|
            0 <= k < items.len() && can_be_acked(
                e,
                queue,
                #[trigger] items[k],
                now,
            ) implies is_acked(post.shard(queue), ids::id_value(items[k].0).unwrap()) by {
            if k < n {
                assert(head[k] == items[k]);
                assert(ids::id_value(items[k].0) != ids::id_value(items[n].0));
            }
        }
    }
}

/// What an acknowledgement does at the engine, and what it proposes.
#[verifier::rlimit(60)]
proof fn lemma_ack_engine(
    pre: ServerView,
    req: Request,
    now: u64,
    mid: ServerView,
    at: ServerView,
    post: ServerView,
    response: ResponseView,
)
    requires
        ack_served(pre, req, now, mid, at, post, response),
    ensures
        mid.raft.engine.shards == pre.raft.engine.ack_all(
            acked_queue(req),
            acked_items(req),
            now,
        ).shards,
        ({
            let accepted = pre.raft.engine.accepted_acks(
                acked_queue(req),
                acked_items(req),
                now,
            );
            match response {
                ResponseView::Ack { success } => req is Ack && success == (accepted.len() > 0),
                ResponseView::AckBatch { acked_count } => req is AckBatch && (accepted.len()
                    <= u32::MAX ==> acked_count == accepted.len()),
                _ => false,
            }
        }),
        ({
            let accepted = pre.raft.engine.accepted_acks(
                acked_queue(req),
                acked_items(req),
                now,
            );
            &&& mid.raft.log.len() == pre.raft.log.len() + accepted.len()
            &&& forall|k: int|
                0 <= k < accepted.len() ==> (#[trigger] mid.raft.log[pre.raft.log.len() + k])
                    == (EntryView {
                    term: pre.raft.current_term,
                    index: (pre.raft.next_index() + k) as u64,
                    command: CommandView::Ack {
                        queue: acked_queue(req),
                        msg_id: accepted[k].0,
                        receipt: accepted[k].1,
                    },
                })
        }),
{
    let res = choose|res: Dispatch| #[trigger]
        tcp_service::dispatched(pre, req, now, mid, res) && match res {
            Dispatch::Done { response: answer } => response == answer@ && post == mid,
            Dispatch::Ack { proposal, batch } => tcp_service::ack_finished(
                at,
                proposal@,
                batch,
                post,
                response,
            ),
            _ => false,
        };
    let queue = acked_queue(req);
    let items = acked_items(req);
    if let Request::AckBatch { queue_name, items: given } = req {
        assert(raft::ack_pairs(given@) =~= items);
    }
    let proposed = choose|proposed: Result<Option<raft::AckProposal>, String>| #[trigger]
        raft::ack_proposed(pre.raft, queue, items, now, mid.raft, proposed) && mid
            == pre.with_raft(mid.raft) && tcp_service::follows_ack(
            proposed,
            req is AckBatch,
            res,
        );
    let accepted = pre.raft.engine.accepted_acks(queue, items, now);
    let commands = RaftView::ack_commands(queue, accepted);
    let engine = choose|engine: EngineView| #[trigger]
        pre.raft.engine.batch_acks_to(queue, items, now, engine) && if accepted.len() == 0 {
            mid.raft == (RaftView { engine, ..pre.raft }) && (proposed matches Ok(none)
                && none is None)
        } else {
            &&& mid.raft == (RaftView { engine, ..pre.raft }).with_commands(commands)
            &&& proposed matches Ok(Some(proposal)) && proposal@ == (AckProposalView {
                acked_count: accepted.len() as usize,
                last_index: (pre.raft.next_index() + accepted.len() - 1) as u64,
                replication: pre.raft.replication(commands),
            })
        };
    assert(mid.raft.engine == engine);
    lemma_accepted_len(pre.raft.engine, queue, items, now);
}

proof fn lemma_accepted_len(
    e: EngineView,
    queue: Seq<char>,
    items: Seq<(Seq<char>, Seq<char>)>,
    now: u64,
)
    ensures
        e.accepted_acks(queue, items, now).len() <= items.len(),
    decreases items.len(),
{
    if items.len() > 0 {
        lemma_accepted_len(e, queue, items.drop_last(), now);
    }
}

/// An acknowledgement succeeds exactly if its message is in memory and a lease on it runs under
/// the receipt. Then the message is gone for good.
pub proof fn law_ack_succeeds_with_a_running_receipt(
    pre: ServerView,
    req: Request,
    now: u64,
    mid: ServerView,
    at: ServerView,
    post: ServerView,
    response: ResponseView,
)
    requires
        ack_served(pre, req, now, mid, at, post, response),
        req is Ack,
        pre.raft.engine.inv(),
    ensures
        ({
            let item = (req->Ack_message_id@, req->receipt_handle@);
            let queue = req->Ack_queue_name@;
            let good = can_be_acked(pre.raft.engine, queue, item, now);
            &&& response == (ResponseView::Ack { success: good })
            &&& good ==> is_acked(
                mid.raft.engine.shard(queue),
                ids::id_value(item.0).unwrap(),
            )
        }),
{
    let items = acked_items(req);
    let queue = acked_queue(req);
    lemma_ack_engine(pre, req, now, mid, at, post, response);
    lemma_acks_removed(pre.raft.engine, queue, items, now);
    reveal(Seq::filter);
    let e = pre.raft.engine;
    let good = |item: (Seq<char>, Seq<char>)| can_be_acked(e, queue, item, now);
    assert(items.drop_last().filter(good).len() == 0);
    assert(items[0] == (req->Ack_message_id@, req->receipt_handle@));
}

/// A batch of acknowledgements that name different messages is answered with the number of those
/// whose message is in memory and leased under the receipt. The message of each of them is gone
/// for good, and the log has one entry more for each.
pub proof fn law_ack_batch_counts_running_receipts(
    pre: ServerView,
    req: Request,
    now: u64,
    mid: ServerView,
    at: ServerView,
    post: ServerView,
    response: ResponseView,
    k: int,
)
    requires
        ack_served(pre, req, now, mid, at, post, response),
        req is AckBatch,
        pre.raft.engine.inv(),
        names_differ(acked_items(req)),
        acked_items(req).len() <= u32::MAX,
    ensures
        ({
            let queue = acked_queue(req);
            let items = acked_items(req);
            let good = items.filter(
                |item: (Seq<char>, Seq<char>)| can_be_acked(pre.raft.engine, queue, item, now),
            );
            &&& response == (ResponseView::AckBatch { acked_count: good.len() as u32 })
            &&& good.len() <= items.len()
            &&& 0 <= k < items.len() && can_be_acked(pre.raft.engine, queue, items[k], now)
                ==> is_acked(mid.raft.engine.shard(queue), ids::id_value(items[k].0).unwrap())
            &&& mid.raft.log.len() == pre.raft.log.len() + good.len()
        }),
{
    let items = acked_items(req);
    let queue = acked_queue(req);
    lemma_ack_engine(pre, req, now, mid, at, post, response);
    lemma_acks_removed(pre.raft.engine, queue, items, now);
    lemma_accepted_len(pre.raft.engine, queue, items, now);
}

/// An acknowledgement leaves every message alone that it does not name, and every other shard.
pub proof fn law_ack_leaves_other_messages(
    pre: ServerView,
    req: Request,
    now: u64,
    mid: ServerView,
    at: ServerView,
    post: ServerView,
    response: ResponseView,
    id: u128,
    other: int,
)
    requires
        ack_served(pre, req, now, mid, at, post, response),
        pre.raft.engine.inv(),
        names_not(acked_items(req), id),
        0 <= other < NUM_SHARDS,
        other != model::shard_of(acked_queue(req)),
    ensures
        same_message(
            pre.raft.engine.shard(acked_queue(req)),
            mid.raft.engine.shard(acked_queue(req)),
            id,
        ),
        mid.raft.engine.shards[other] == pre.raft.engine.shards[other],
{
    lemma_ack_engine(pre, req, now, mid, at, post, response);
    lemma_acks_spare(pre.raft.engine, acked_queue(req), acked_items(req), now);
}

/// What a poll handed out can be acknowledged with its receipt until the lease ends: before then
/// the answer is yes and the message is gone for good, from then on the answer is no.
pub proof fn law_ack_succeeds_until_the_lease_ends(
    pre: ServerView,
    req: Request,
    now: u64,
    mid: ServerView,
    at: ServerView,
    post: ServerView,
    response: ResponseView,
    id: u128,
    receipt: Seq<char>,
    until: u64,
)
    requires
        ack_served(pre, req, now, mid, at, post, response),
        req is Ack,
        leasing::leased_until(pre.raft.engine, req->Ack_queue_name@, id, receipt, until),
        req->Ack_message_id@ == ids::ulid_text(id),
    ensures
        response == (ResponseView::Ack {
            success: req->receipt_handle@ == receipt && now < until,
        }),
        req->receipt_handle@ == receipt && now < until ==> is_acked(
            mid.raft.engine.shard(req->Ack_queue_name@),
            id,
        ),
{
    ids::law_ulid_round_trip(id);
    law_ack_succeeds_with_a_running_receipt(pre, req, now, mid, at, post, response);
}

/// The messages that were acknowledged are counted, and are no longer in flight.
pub proof fn law_acked_messages_are_counted(
    pre: ServerView,
    req: Request,
    now: u64,
    mid: ServerView,
    at: ServerView,
    post: ServerView,
    response: ResponseView,
)
    requires
        ack_served(pre, req, now, mid, at, post, response),
        at == mid,
        acked_items(req).len() <= u32::MAX,
        pre.metrics.messages_acked_total + acked_items(req).len() <= u64::MAX,
        pre.metrics.in_flight_messages - acked_items(req).len() >= i64::MIN,
    ensures
        ({
            let n: int = match response {
                ResponseView::Ack { success } => if success {
                    1
                } else {
                    0
                },
                ResponseView::AckBatch { acked_count } => acked_count as int,
                _ => -1,
            };
            &&& n >= 0
            &&& post.metrics.messages_acked_total == pre.metrics.messages_acked_total + n
            &&& post.metrics.in_flight_messages == pre.metrics.in_flight_messages - n
            &&& post.metrics.messages_pushed_total == pre.metrics.messages_pushed_total
            &&& post.metrics.messages_polled_total == pre.metrics.messages_polled_total
        }),
{
    lemma_ack_engine(pre, req, now, mid, at, post, response);
    lemma_accepted_len(pre.raft.engine, acked_queue(req), acked_items(req), now);
    if let Request::AckBatch { queue_name, items: given } = req {
        assert(raft::ack_pairs(given@) =~= acked_items(req));
    }
}

/// What an acknowledgement that takes messages out of memory sends to the peers of the time is
/// also at the end of the leader's log: one entry of the leader's term for each of them, numbered
/// on from the log, with the queue and the client's id. Once that was told, the log is committed
/// up to the last of them.
#[verifier::rlimit(60)]
pub proof fn law_ack_is_told_to_every_peer(
    pre: ServerView,
    req: Request,
    now: u64,
    mid: ServerView,
    res: Dispatch,
    at: ServerView,
    post: ServerView,
    response: ResponseView,
    k: int,
)
    requires
        req is Ack || req is AckBatch,
        pre.raft.is_leader_cached,
        pre.raft.role == RaftRole::Leader,
        tcp_service::dispatched(pre, req, now, mid, res),
        res matches Dispatch::Ack { proposal, batch } && tcp_service::ack_finished(
            at,
            proposal@,
            batch,
            post,
            response,
        ),
        pre.raft.next_index() + acked_items(req).len() <= u64::MAX + 1,
        0 <= k < res->Ack_proposal@.replication.entries.len(),
    ensures
        ({
            let p = res->Ack_proposal@;
            let entry = p.replication.entries[k];
            &&& p.replication.peers == pre.raft.peers
            &&& p.replication.leader_id == pre.raft.node_id
            &&& p.replication.term == pre.raft.current_term
            &&& mid.raft.log == pre.raft.log + p.replication.entries
            &&& entry.term == pre.raft.current_term
            &&& entry.index == pre.raft.next_index() + k
            &&& entry.command is Ack
            &&& entry.command->Ack_queue == acked_queue(req)
            &&& exists|i: int|
                0 <= i < acked_items(req).len() && (#[trigger] acked_items(req)[i]).0
                    == entry.command->Ack_msg_id && acked_items(req)[i].1
                    == entry.command->Ack_receipt
            &&& post.raft.commit_index == pre.raft.next_index() + p.replication.entries.len() - 1
            &&& mid.raft.commit_index == pre.raft.commit_index
        }),
{
    let queue = acked_queue(req);
    let items = acked_items(req);
    if let Request::AckBatch { queue_name, items: given } = req {
        assert(raft::ack_pairs(given@) =~= items);
    }
    let proposed = choose|proposed: Result<Option<raft::AckProposal>, String>| #[trigger]
        raft::ack_proposed(pre.raft, queue, items, now, mid.raft, proposed) && mid
            == pre.with_raft(mid.raft) && tcp_service::follows_ack(
            proposed,
            req is AckBatch,
            res,
        );
    let accepted = pre.raft.engine.accepted_acks(queue, items, now);
    let commands = RaftView::ack_commands(queue, accepted);
    lemma_accepted_len(pre.raft.engine, queue, items, now);
    lemma_accepted_from_items(pre.raft.engine, queue, items, now);
    let engine = choose|engine: EngineView| #[trigger]
        pre.raft.engine.batch_acks_to(queue, items, now, engine) && if accepted.len() == 0 {
            mid.raft == (RaftView { engine, ..pre.raft }) && (proposed matches Ok(none)
                && none is None)
        } else {
            &&& mid.raft == (RaftView { engine, ..pre.raft }).with_commands(commands)
            &&& proposed matches Ok(Some(proposal)) && proposal@ == (AckProposalView {
                acked_count: accepted.len() as usize,
                last_index: (pre.raft.next_index() + accepted.len() - 1) as u64,
                replication: pre.raft.replication(commands),
            })
        };
    let p = res->Ack_proposal@;
    assert(p.replication == pre.raft.replication(commands));
    assert(mid.raft.log =~= pre.raft.log + p.replication.entries);
    assert(items.contains(accepted[k]));
    let i = choose|i: int| 0 <= i < items.len() && items[i] == accepted[k];
    assert(acked_items(req)[i] == accepted[k]);
}

proof fn lemma_accepted_from_items(
    e: EngineView,
    queue: Seq<char>,
    items: Seq<(Seq<char>, Seq<char>)>,
    now: u64,
)
    ensures
        forall|k: int|
            0 <= k < e.accepted_acks(queue, items, now).len() ==> items.contains(
                #[trigger] e.accepted_acks(queue, items, now)[k],
            ),
    decreases items.len(),
{
    if items.len() > 0 {
        let head = items.drop_last();
        lemma_accepted_from_items(e, queue, head, now);
        let some = e.accepted_acks(queue, head, now);
        let all = e.accepted_acks(queue, items, now);
        assert forall|k: int| 0 <= k < all.len() implies items.contains(#[trigger] all[k]) by {
            if k < some.len() {
                assert(all[k] == some[k]);
                let i = choose|i: int| 0 <= i < head.len() && head[i] == some[k];
                assert(items[i] == all[k]);
            } else {
                assert(items[items.len() - 1] == all[k]);
            }
        }
    }
}

}
