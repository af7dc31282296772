//! What a client can rely on, from request to answer.
use vstd::prelude::*;

use crate::cluster::laws;
use crate::cluster::raft;
use crate::cluster::raft_model;
use crate::cluster::raft_model::{ClientPush, RaftView};
use crate::engine::arrivals;
use crate::engine::exclusive;
use crate::engine::model::EngineView;
use crate::engine::single_queue::HOT_DELAY_HORIZON_SEC;
use crate::engine::timing;
use crate::ids;
use crate::protocol::{Request, ResponseView};
use crate::server::tcp_service;
use crate::server::tcp_service::{Dispatch, ServerView};

verus! {

/// The leader and this many peers that agreed are more than half of the nodes.
pub open spec fn is_majority(peers: nat, agreed: nat) -> bool {
    2 * (1 + agreed) > 1 + peers
}

/// The queue that a push is for.
pub open spec fn asked_queue(req: Request) -> Seq<char> {
    match req {
        Request::Push { queue_name, .. } => queue_name@,
        Request::PushBatch { queue_name, .. } => queue_name@,
        _ => Seq::empty(),
    }
}

/// How many messages a push is about.
pub open spec fn asked_count(req: Request) -> nat {
    match req {
        Request::Push { .. } => 1,
        Request::PushBatch { items, .. } => items@.len(),
        _ => 0,
    }
}

/// The client's id of a message of a push.
pub open spec fn asked_id(req: Request, k: int) -> Seq<char> {
    match req {
        Request::Push { message_id, .. } => message_id@,
        Request::PushBatch { items, .. } => items@[k].message_id@,
        _ => Seq::empty(),
    }
}

pub open spec fn asked_payload(req: Request, k: int) -> Seq<u8> {
    match req {
        Request::Push { payload, .. } => payload@,
        Request::PushBatch { items, .. } => items@[k].payload@,
        _ => Seq::empty(),
    }
}

pub open spec fn asked_delay(req: Request, k: int) -> u64 {
    match req {
        Request::Push { delay_seconds, .. } => delay_seconds,
        Request::PushBatch { items, .. } => items@[k].delay_seconds,
        _ => 0,
    }
}

/// The ids that a push was answered with.
pub open spec fn answered_ids(response: ResponseView) -> Seq<Seq<char>> {
    match response {
        ResponseView::Push { message_id } => seq![message_id],
        ResponseView::PushBatch { message_ids } => message_ids,
        _ => Seq::empty(),
    }
}

/// A push is dispatched at `pre`, goes to the peers of that time, and is finished with their
/// replies at `at`.
pub open spec fn push_served(
    pre: ServerView,
    req: Request,
    now: u64,
    mid: ServerView,
    at: ServerView,
    replies: Seq<bool>,
    committed_at: u64,
    post: ServerView,
    response: ResponseView,
) -> bool {
    &&& req is Push || req is PushBatch
    &&& exists|res: Dispatch| #[trigger]
        tcp_service::dispatched(pre, req, now, mid, res) && (res matches Dispatch::Push {
            proposal,
            batch,
        } && tcp_service::push_finished(
            at,
            proposal@,
            batch,
            replies,
            committed_at,
            post,
            response,
        ))
}

proof fn lemma_count_true(replies: Seq<bool>)
    ensures
        raft_model::count_true(replies) == replies.filter(|b: bool| b).len(),
    decreases replies.len(),
{
    reveal(Seq::filter);
    if replies.len() > 0 {
        lemma_count_true(replies.drop_last());
    }
}

/// What a push that goes to the peers proposes.
#[verifier::rlimit(60)]
pub proof fn lemma_push_proposal(
    pre: ServerView,
    req: Request,
    now: u64,
    mid: ServerView,
    res: Dispatch,
) -> (fresh: Seq<u128>)
    requires
        req is Push || req is PushBatch,
        tcp_service::dispatched(pre, req, now, mid, res),
        res is Push,
    ensures
        ({
            let p = res->Push_proposal@;
            &&& res->Push_batch == (req is PushBatch)
            &&& p.queue == asked_queue(req)
            &&& p.replication.peers == pre.raft.peers
            &&& p.message_ids.len() == asked_count(req)
            &&& p.ids.len() == asked_count(req)
            &&& p.items.len() == asked_count(req)
            &&& asked_count(req) > 0
            &&& forall|k: int|
                0 <= k < asked_count(req) ==> {
                    &&& (#[trigger] p.items[k]).payload == asked_payload(req, k)
                    &&& p.items[k].delay_seconds == asked_delay(req, k)
                    &&& (p.message_ids[k], p.ids[k]) == raft_model::resolve_id(
                        asked_id(req, k),
                        fresh[k],
                    )
                    &&& !tcp_service::has_wrong_length(asked_id(req, k))
                }
        }),
{
    match req {
        Request::Push { queue_name, payload, delay_seconds, message_id } => {
            let item = ClientPush {
                id_text: message_id@,
                payload: payload@,
                delay: delay_seconds,
            };
            let (fresh, proposed) = choose|
                fresh: u128,
                proposed: Result<Option<raft::PushProposal>, String>,
            | #[trigger]
                raft::push_proposed(
                    pre.raft,
                    queue_name@,
                    seq![item],
                    seq![fresh],
                    mid.raft,
                    proposed,
                ) && mid == pre.with_raft(mid.raft) && tcp_service::follows_push(
                    proposed,
                    false,
                    res,
                );
            assert(seq![item][0] == item);
            seq![fresh]
        },
        Request::PushBatch { queue_name, items } => {
            let pushes = raft::batch_pushes(items@);
            assert forall|i: int| 0 <= i < items@.len() implies !tcp_service::has_wrong_length(
                (#[trigger] items@[i]).message_id@,
            ) by {
                assert(pushes[i].id_text == items@[i].message_id@);
            }
            let (fresh, proposed) = choose|
                fresh: Seq<u128>,
                proposed: Result<Option<raft::PushProposal>, String>,
            |
                fresh.len() == pushes.len() && #[trigger] raft::push_proposed(
                    pre.raft,
                    queue_name@,
                    pushes,
                    fresh,
                    mid.raft,
                    proposed,
                ) && mid == pre.with_raft(mid.raft) && tcp_service::follows_push(
                    proposed,
                    true,
                    res,
                );
            fresh
        },
        _ => Seq::empty(),
    }
}

/// A push, single or batch, is answered with ids exactly if the leader and the peers that agreed
/// are more than half of the cluster, and then with one id for each message. Else it is answered
/// with an error and nothing changes.
pub proof fn law_push_is_confirmed_by_a_majority(
    pre: ServerView,
    req: Request,
    now: u64,
    mid: ServerView,
    at: ServerView,
    replies: Seq<bool>,
    committed_at: u64,
    post: ServerView,
    response: ResponseView,
)
    requires
        push_served(pre, req, now, mid, at, replies, committed_at, post, response),
    ensures
        if is_majority(pre.raft.peers.len(), replies.filter(|b: bool| b).len()) {
            &&& req is Push ==> response is Push
            &&& req is PushBatch ==> response is PushBatch
            &&& answered_ids(response).len() == asked_count(req)
        } else {
            response is Error && post == at
        },
{
    let res = choose|res: Dispatch| #[trigger]
        tcp_service::dispatched(pre, req, now, mid, res) && (res matches Dispatch::Push {
            proposal,
            batch,
        } && tcp_service::push_finished(
            at,
            proposal@,
            batch,
            replies,
            committed_at,
            post,
            response,
        ));
    let fresh = lemma_push_proposal(pre, req, now, mid, res);
    lemma_count_true(replies);
}

/// Every id that a push is answered with is one. A client's id that is a ULID is the one that
/// the message gets.
#[verifier::rlimit(60)]
pub proof fn law_push_is_answered_with_ids(
    pre: ServerView,
    req: Request,
    now: u64,
    mid: ServerView,
    at: ServerView,
    replies: Seq<bool>,
    committed_at: u64,
    post: ServerView,
    response: ResponseView,
    k: int,
)
    requires
        push_served(pre, req, now, mid, at, replies, committed_at, post, response),
        response !is Error,
        0 <= k < asked_count(req),
    ensures
        k < answered_ids(response).len(),
        ids::id_value(answered_ids(response)[k]) is Some,
        ids::ulid_value(asked_id(req, k)) is Some ==> answered_ids(response)[k] == asked_id(req, k)
            && ids::id_value(answered_ids(response)[k]) == ids::ulid_value(asked_id(req, k)),
{
    let res = choose|res: Dispatch| #[trigger]
        tcp_service::dispatched(pre, req, now, mid, res) && (res matches Dispatch::Push {
            proposal,
            batch,
        } && tcp_service::push_finished(
            at,
            proposal@,
            batch,
            replies,
            committed_at,
            post,
            response,
        ));
    let fresh = lemma_push_proposal(pre, req, now, mid, res);
    let p = res->Push_proposal@;
    assert(p.items[k].payload == asked_payload(req, k));
    laws::law_peers_find_the_same_id(asked_id(req, k), fresh[k]);
    if ids::ulid_value(asked_id(req, k)) is Some {
        tcp_service::lemma_ulid_is_26_bytes(asked_id(req, k));
    }
}

/// No message of the batch before this one was answered with its id.
pub open spec fn is_new_in_batch(response: ResponseView, k: int) -> bool {
    forall|i: int|
        0 <= i < k ==> ids::id_value(#[trigger] answered_ids(response)[i]) != ids::id_value(
            answered_ids(response)[k],
        )
}

/// A confirmed push leaves each message, under the id that it was answered with and that the
/// queue's shard had not seen, to come up when its delay has passed since the commit: not before,
/// and, if it is due within the horizon and there is room, in memory with its payload and time.
#[verifier::rlimit(60)]
pub proof fn law_pushed_message_comes_up_after_its_delay(
    pre: ServerView,
    req: Request,
    now: u64,
    mid: ServerView,
    at: ServerView,
    replies: Seq<bool>,
    committed_at: u64,
    post: ServerView,
    response: ResponseView,
    k: int,
    id: u128,
)
    requires
        push_served(pre, req, now, mid, at, replies, committed_at, post, response),
        response !is Error,
        0 <= k < asked_count(req),
        ids::id_value(answered_ids(response)[k]) == Some(id),
        is_new_in_batch(response, k),
        exclusive::all_exclusive(at.raft.engine),
        !at.raft.engine.shard(asked_queue(req)).seen.contains(id),
        committed_at + asked_delay(req, k) <= u64::MAX,
    ensures
        asked_delay(req, k) > 0 ==> timing::withheld(
            post.raft.engine,
            asked_queue(req),
            id,
            committed_at + asked_delay(req, k),
            u64::MAX + 1,
        ),
        asked_delay(req, k) <= HOT_DELAY_HORIZON_SEC && at.raft.engine.total_in_ram + asked_count(
            req,
        ) <= at.raft.engine.options.max_hot_messages_in_ram ==> arrivals::has_arrived(
            post.raft.engine,
            asked_queue(req),
            id,
            asked_payload(req, k),
            (committed_at + asked_delay(req, k)) as u64,
        ),
{
    let res = choose|res: Dispatch| #[trigger]
        tcp_service::dispatched(pre, req, now, mid, res) && (res matches Dispatch::Push {
            proposal,
            batch,
        } && tcp_service::push_finished(
            at,
            proposal@,
            batch,
            replies,
            committed_at,
            post,
            response,
        ));
    let fresh = lemma_push_proposal(pre, req, now, mid, res);
    let p = res->Push_proposal@;
    let node = choose|node: RaftView| #[trigger]
        at.raft.commits_push_to(p, committed_at, node) && post.raft == node;
    let engine = choose|engine: EngineView| #[trigger]
        at.raft.engine.batch_pushes_to(p.queue, p.ids, p.items, committed_at, engine)
            && node == (RaftView {
            commit_index: p.last_index,
            engine,
            ..at.raft
        }).compacted_if_due(p.last_index);
    assert(post.raft.engine == engine);
    assert forall|i: int| 0 <= i <= k implies ids::id_value(
        #[trigger] answered_ids(response)[i],
    ) == Some(p.ids[i]) by {
        assert(p.items[i].payload == asked_payload(req, i));
        laws::law_peers_find_the_same_id(asked_id(req, i), fresh[i]);
    }
    assert(p.ids[k] == id);
    assert(!p.ids.take(k).contains(id)) by {
        if p.ids.take(k).contains(id) {
            let i = choose|i: int| 0 <= i < k && p.ids.take(k)[i] == id;
            assert(ids::id_value(answered_ids(response)[i]) == Some(p.ids[i]));
        }
    }
    assert(p.items[k].payload == asked_payload(req, k));
    if asked_delay(req, k) > 0 {
        arrivals::law_delayed_message_is_withheld(
            at.raft.engine,
            p.queue,
            p.ids,
            p.items,
            committed_at,
            engine,
            k,
        );
    }
    if asked_delay(req, k) <= HOT_DELAY_HORIZON_SEC && at.raft.engine.total_in_ram + asked_count(
        req,
    ) <= at.raft.engine.options.max_hot_messages_in_ram {
        arrivals::law_pushed_message_arrives(
            at.raft.engine,
            p.queue,
            p.ids,
            p.items,
            committed_at,
            engine,
            k,
        );
    }
}

/// With a majority, a push is committed up to its last entry. The log stays as it is unless its
/// compaction is due; then a log that is committed as a whole is empty afterwards, and the
/// snapshot stands for it. Without a majority, nothing is committed.
pub proof fn law_confirmed_push_is_committed(
    pre: ServerView,
    req: Request,
    now: u64,
    mid: ServerView,
    at: ServerView,
    replies: Seq<bool>,
    committed_at: u64,
    post: ServerView,
    response: ResponseView,
)
    requires
        push_served(pre, req, now, mid, at, replies, committed_at, post, response),
        pre.raft.next_index() + asked_count(req) <= u64::MAX + 1,
    ensures
        response is Error ==> post.raft == at.raft,
        response !is Error ==> {
            let last = pre.raft.next_index() + asked_count(req) - 1;
            &&& post.raft.commit_index == last
            &&& at.raft.compaction_threshold == 0 || last % at.raft.compaction_threshold as int != 0
                ==> post.raft.log == at.raft.log && post.raft.snapshot_index
                == at.raft.snapshot_index
            &&& at.raft.compaction_threshold > 0 && last % at.raft.compaction_threshold as int == 0
                && at.raft.log.len() > 0 && at.raft.log[0].index < last && at.raft.log.last().index
                <= last ==> post.raft.log.len() == 0 && post.raft.snapshot_index
                == at.raft.log.last().index && post.raft.snapshot_term == at.raft.log.last().term
            &&& post.raft.current_term == at.raft.current_term
            &&& post.raft.peers == at.raft.peers
            &&& post.raft.role == at.raft.role
        },
{
    let res = choose|res: Dispatch| #[trigger]
        tcp_service::dispatched(pre, req, now, mid, res) && (res matches Dispatch::Push {
            proposal,
            batch,
        } && tcp_service::push_finished(
            at,
            proposal@,
            batch,
            replies,
            committed_at,
            post,
            response,
        ));
    let fresh = lemma_push_proposal(pre, req, now, mid, res);
}

}
