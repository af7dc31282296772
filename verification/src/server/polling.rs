//! What a client that polls can rely on, from request to answer.
use vstd::prelude::*;

use crate::engine::disk_log;
use crate::engine::disk_log::SegmentRead;
use crate::engine::exclusive;
use crate::engine::leasing;
use crate::engine::model;
use crate::engine::model::{EngineView, NUM_SHARDS};
use crate::engine::redelivery;
use crate::engine::sequences;
use crate::engine::sequences::PollStep;
use crate::engine::shard::{MsgView, PolledView};
use crate::engine::single_queue::HOT_DELAY_HORIZON_SEC;
use crate::engine::timing;
use crate::ids;
use crate::protocol::{Request, ResponseView};
use crate::server::laws;
use crate::server::tcp_service;
use crate::server::tcp_service::{Dispatch, PendingPollView, ServerView};

verus! {

/// The poll comes from one state to the next by one read of the log.
pub open spec fn scan_goes_on(
    pre: ServerView,
    poll: PendingPollView,
    read: SegmentRead,
    post: ServerView,
    after: PendingPollView,
) -> bool {
    exists|again: bool| #[trigger]
        tcp_service::poll_continued(pre, poll, read, post, after, again)
}

/// The scan that a poll waits for goes from state to state, one read of the log after the other.
pub open spec fn poll_scans(
    states: Seq<ServerView>,
    polls: Seq<PendingPollView>,
    reads: Seq<SegmentRead>,
) -> bool {
    &&& states.len() == reads.len() + 1
    &&& polls.len() == reads.len() + 1
    &&& forall|k: int|
        0 <= k < reads.len() ==> scan_goes_on(
            states[k],
            polls[k],
            #[trigger] reads[k],
            states[k + 1],
            polls[k + 1],
        )
}

/// A poll that is dispatched at `now` is answered, at once or at `later`, after a scan of the
/// log.
pub open spec fn poll_served(
    pre: ServerView,
    req: Request,
    now: u64,
    at_once: bool,
    states: Seq<ServerView>,
    polls: Seq<PendingPollView>,
    reads: Seq<SegmentRead>,
    later: u64,
    post: ServerView,
    response: ResponseView,
) -> bool {
    &&& req is Poll
    &&& pre.raft.is_leader_cached
    &&& exists|res: Dispatch| #[trigger]
        tcp_service::dispatched(pre, req, now, states[0], res) && match res {
            Dispatch::Done { response: answer } => {
                &&& at_once
                &&& states.len() == 1
                &&& reads.len() == 0
                &&& later == now
                &&& post == states[0]
                &&& response == answer@
            },
            Dispatch::Poll { poll } => {
                &&& !at_once
                &&& polls[0] == poll@
                &&& poll_scans(states, polls, reads)
                &&& tcp_service::poll_finished(states.last(), polls.last(), later, post, response)
            },
            _ => false,
        }
}

/// How many messages a poll asks for: one, if it does not say.
pub open spec fn asked_for(req: Request) -> nat {
    if req->batch_size == 0 {
        1
    } else {
        req->batch_size as nat
    }
}

/// The time of the leases that a poll asks for: what the engine was opened with, if it does not
/// say.
pub open spec fn lease_time(e: EngineView, req: Request) -> int {
    if req->visibility_timeout_sec > 0 {
        req->visibility_timeout_sec as int
    } else {
        e.options.default_visibility_timeout_sec as int
    }
}

/// The engine that a poll takes its messages from.
pub open spec fn polled_engine(
    pre: ServerView,
    req: Request,
    now: u64,
    at_once: bool,
    states: Seq<ServerView>,
) -> EngineView {
    if at_once {
        pre.raft.engine.expire(req->Poll_queue_name@, now)
    } else {
        states.last().raft.engine
    }
}

/// The scans of the log that a poll waits for, as steps.
pub open spec fn scan_steps(polls: Seq<PendingPollView>, reads: Seq<SegmentRead>) -> Seq<PollStep> {
    Seq::new(reads.len(), |k: int| PollStep::Scan { scan: polls[k].scan, read: reads[k] })
}

/// What is read of the log does not acknowledge the message.
pub open spec fn reads_spare(
    states: Seq<ServerView>,
    polls: Seq<PendingPollView>,
    reads: Seq<SegmentRead>,
    queue: Seq<char>,
    id: u128,
) -> bool {
    forall|k: int|
        0 <= k < reads.len() ==> sequences::step_spares(
            states[k].raft.engine,
            PollStep::Scan { scan: polls[k].scan, read: #[trigger] reads[k] },
            model::shard_of(queue),
            id,
        )
}

/// What is read of the log brings the message no earlier than `ready_at`.
pub open spec fn reads_bring_late(
    states: Seq<ServerView>,
    polls: Seq<PendingPollView>,
    reads: Seq<SegmentRead>,
    queue: Seq<char>,
    id: u128,
    ready_at: int,
) -> bool {
    forall|k: int|
        0 <= k < reads.len() ==> match disk_log::entries_from(
            states[k].raft.engine.disk.registry,
            states[k].raft.engine.spill_offset,
            polls[k].scan.fetch_limit,
            #[trigger] reads[k],
        ) {
            Some((records, _)) => timing::brings_late(records, queue, id, ready_at),
            None => true,
        }
}

/// The first scans of a poll: what the poll asks for stays, and so do the options.
proof fn lemma_scans(
    states: Seq<ServerView>,
    polls: Seq<PendingPollView>,
    reads: Seq<SegmentRead>,
    n: nat,
    queue: Seq<char>,
)
    requires
        poll_scans(states, polls, reads),
        n <= reads.len(),
    ensures
        polls[n as int].queue_name == polls[0].queue_name,
        polls[n as int].visibility_timeout_sec == polls[0].visibility_timeout_sec,
        polls[n as int].batch_size == polls[0].batch_size,
        polls[n as int].scan.now == polls[0].scan.now,
        states[n as int].raft.engine.options == states[0].raft.engine.options,
        states[n as int] == states[0].with_engine(states[n as int].raft.engine),
        sequences::run(
            states[0].raft.engine,
            queue,
            scan_steps(polls, reads).take(n as int),
        ) == (states[n as int].raft.engine, Seq::<PolledView>::empty()),
        leasing::only_scans(scan_steps(polls, reads).take(n as int)),
    decreases n,
{
    let steps = scan_steps(polls, reads);
    if n > 0 {
        let m = (n - 1) as nat;
        lemma_scans(states, polls, reads, m, queue);
        assert(steps.take(n as int).drop_last() =~= steps.take(m as int));
        assert(scan_goes_on(
            states[m as int],
            polls[m as int],
            reads[m as int],
            states[n as int],
            polls[n as int],
        ));
        let e = states[m as int].raft.engine;
        let scan = polls[m as int].scan;
        let read = reads[m as int];
        if let Some((records, next)) = disk_log::entries_from(
            e.disk.registry,
            e.spill_offset,
            scan.fetch_limit,
            read,
        ) {
            model::lemma_page_records_frame(
                e,
                records.take(e.page_count(records, scan.now) as int),
                scan.now,
            );
        }
        assert(sequences::step_once(e, queue, steps[m as int]).1
            =~= Seq::<PolledView>::empty());
    }
}

proof fn lemma_scans_spare(
    states: Seq<ServerView>,
    polls: Seq<PendingPollView>,
    reads: Seq<SegmentRead>,
    n: nat,
    queue: Seq<char>,
    id: u128,
)
    requires
        poll_scans(states, polls, reads),
        reads_spare(states, polls, reads, queue, id),
        n <= reads.len(),
    ensures
        sequences::spares(
            states[0].raft.engine,
            queue,
            scan_steps(polls, reads).take(n as int),
            model::shard_of(queue),
            id,
        ),
    decreases n,
{
    let steps = scan_steps(polls, reads);
    if n > 0 {
        let m = (n - 1) as nat;
        lemma_scans_spare(states, polls, reads, m, queue, id);
        lemma_scans(states, polls, reads, m, queue);
        assert(steps.take(n as int).drop_last() =~= steps.take(m as int));
        assert(reads[m as int] == reads[m as int]);
        assert(steps.take(n as int).last() == (PollStep::Scan {
            scan: polls[m as int].scan,
            read: reads[m as int],
        }));
    }
}

proof fn lemma_route_all_options(e: EngineView, msgs: Seq<MsgView>, now: u64)
    ensures
        e.route_all(msgs, now).options == e.options,
    decreases msgs.len(),
{
    if msgs.len() > 0 {
        lemma_route_all_options(e, msgs.drop_last(), now);
    }
}

/// A poll ends leases at `now`, scans the log as often as it was read, and then takes messages.
#[verifier::rlimit(60)]
proof fn lemma_poll_steps(
    pre: ServerView,
    req: Request,
    now: u64,
    at_once: bool,
    states: Seq<ServerView>,
    polls: Seq<PendingPollView>,
    reads: Seq<SegmentRead>,
    later: u64,
    post: ServerView,
    response: ResponseView,
) -> (receipts: Seq<Seq<char>>)
    requires
        poll_served(pre, req, now, at_once, states, polls, reads, later, post, response),
        later + u32::MAX <= u64::MAX,
    ensures
        ({
            let queue = req->Poll_queue_name@;
            let source = polled_engine(pre, req, now, at_once, states);
            let take = PollStep::Take {
                now: later,
                max: asked_for(req),
                receipts,
                expire_at: (later + lease_time(pre.raft.engine, req)) as u64,
            };
            &&& response is Poll
            &&& sequences::step_once(source, queue, take) == (
                post.raft.engine,
                response->messages,
            )
            &&& !at_once ==> poll_scans(states, polls, reads) && states[0].raft.engine
                == pre.raft.engine.expire(queue, now) && polls[0].scan.now == now
            &&& source.options == pre.raft.engine.options
            &&& post == pre.with_engine(post.raft.engine).counting_poll(response->messages.len())
        }),
{
    let queue = req->Poll_queue_name@;
    let res = choose|res: Dispatch| #[trigger]
        tcp_service::dispatched(pre, req, now, states[0], res) && match res {
            Dispatch::Done { response: answer } => {
                &&& at_once
                &&& states.len() == 1
                &&& reads.len() == 0
                &&& later == now
                &&& post == states[0]
                &&& response == answer@
            },
            Dispatch::Poll { poll } => {
                &&& !at_once
                &&& polls[0] == poll@
                &&& poll_scans(states, polls, reads)
                &&& tcp_service::poll_finished(states.last(), polls.last(), later, post, response)
            },
            _ => false,
        };
    let expired = pre.raft.engine.expire(queue, now);
    let (r, taken) = pre.raft.engine.shard(queue).take_expired(now);
    lemma_route_all_options(pre.raft.engine.with_shard(queue, r), taken, now);
    let before = if at_once {
        pre.with_engine(expired)
    } else {
        lemma_scans(states, polls, reads, reads.len(), queue);
        states.last()
    };
    let visibility = req->visibility_timeout_sec;
    let max: u32 = if req->batch_size == 0 {
        1
    } else {
        req->batch_size
    };
    assert(before.poll_answered(queue, visibility, max, later, post, response));
    let (engine, messages) = choose|engine: EngineView, messages: Seq<PolledView>| #[trigger]
        tcp_service::polls_to(
            before.raft.engine,
            queue,
            visibility,
            max,
            later,
            engine,
            messages,
        ) && post == before.with_engine(engine).counting_poll(messages.len()) && response == (
        ResponseView::Poll { messages });
    let (claimed, ids) = before.raft.engine.claim(queue, later, max as nat);
    let receipts = choose|receipts: Seq<u128>|
        receipts.len() == ids.len() && (engine, messages) == claimed.lease(
            queue,
            ids,
            #[trigger] model::id_texts(receipts),
            (later + before.raft.engine.timeout(visibility)) as u64,
        );
    model::id_texts(receipts)
}

proof fn lemma_scans_withhold(
    states: Seq<ServerView>,
    polls: Seq<PendingPollView>,
    reads: Seq<SegmentRead>,
    n: nat,
    queue: Seq<char>,
    id: u128,
    ready_at: int,
    until: int,
)
    requires
        poll_scans(states, polls, reads),
        n <= reads.len(),
        timing::withheld(states[0].raft.engine, queue, id, ready_at, until),
        timing::is_settled(states[0].raft.engine, queue, id) || reads_bring_late(
            states,
            polls,
            reads,
            queue,
            id,
            ready_at,
        ),
        polls[0].scan.now < ready_at,
    ensures
        timing::withheld(states[n as int].raft.engine, queue, id, ready_at, until),
        timing::is_settled(states[0].raft.engine, queue, id) ==> timing::is_settled(
            states[n as int].raft.engine,
            queue,
            id,
        ),
    decreases n,
{
    if n > 0 {
        let m = (n - 1) as nat;
        lemma_scans_withhold(states, polls, reads, m, queue, id, ready_at, until);
        lemma_scans(states, polls, reads, m, queue);
        assert(scan_goes_on(
            states[m as int],
            polls[m as int],
            reads[m as int],
            states[n as int],
            polls[n as int],
        ));
        timing::lemma_step_withholds(
            states[m as int].raft.engine,
            queue,
            PollStep::Scan { scan: polls[m as int].scan, read: reads[m as int] },
            id,
            ready_at,
            until,
        );
    }
}

/// A message that is withheld is not handed out by a poll of its queue before `ready_at` that
/// ends no lease on it, and stays withheld.
pub proof fn law_poll_leaves_withheld_message_away(
    pre: ServerView,
    req: Request,
    now: u64,
    at_once: bool,
    states: Seq<ServerView>,
    polls: Seq<PendingPollView>,
    reads: Seq<SegmentRead>,
    later: u64,
    post: ServerView,
    response: ResponseView,
    id: u128,
    ready_at: int,
    until: int,
)
    requires
        poll_served(pre, req, now, at_once, states, polls, reads, later, post, response),
        later + u32::MAX <= u64::MAX,
        timing::withheld(pre.raft.engine, req->Poll_queue_name@, id, ready_at, until),
        timing::is_settled(pre.raft.engine, req->Poll_queue_name@, id) || reads_bring_late(
            states,
            polls,
            reads,
            req->Poll_queue_name@,
            id,
            ready_at,
        ),
        now < ready_at,
        later < ready_at,
        now < until,
    ensures
        response is Poll,
        !sequences::is_handed_out(response->messages, id),
        timing::withheld(post.raft.engine, req->Poll_queue_name@, id, ready_at, until),
        timing::is_settled(pre.raft.engine, req->Poll_queue_name@, id) ==> timing::is_settled(
            post.raft.engine,
            req->Poll_queue_name@,
            id,
        ),
{
    let queue = req->Poll_queue_name@;
    let receipts = lemma_poll_steps(
        pre,
        req,
        now,
        at_once,
        states,
        polls,
        reads,
        later,
        post,
        response,
    );
    timing::lemma_step_withholds(
        pre.raft.engine,
        queue,
        PollStep::End { now },
        id,
        ready_at,
        until,
    );
    if !at_once {
        lemma_scans_withhold(states, polls, reads, reads.len(), queue, id, ready_at, until);
    }
    timing::lemma_step_withholds(
        polled_engine(pre, req, now, at_once, states),
        queue,
        PollStep::Take {
            now: later,
            max: asked_for(req),
            receipts,
            expire_at: (later + lease_time(pre.raft.engine, req)) as u64,
        },
        id,
        ready_at,
        until,
    );
}

/// A message pushed with a delay of `d`, and committed at `t`, is not handed out by a poll that
/// is answered before `t + d`.
pub proof fn law_delayed_push_is_not_polled_early(
    before: ServerView,
    push: Request,
    pushed_at: u64,
    mid: ServerView,
    at: ServerView,
    replies: Seq<bool>,
    committed_at: u64,
    pre: ServerView,
    confirmed: ResponseView,
    k: int,
    id: u128,
    poll: Request,
    now: u64,
    at_once: bool,
    states: Seq<ServerView>,
    polls: Seq<PendingPollView>,
    reads: Seq<SegmentRead>,
    later: u64,
    post: ServerView,
    response: ResponseView,
)
    requires
        laws::push_served(
            before,
            push,
            pushed_at,
            mid,
            at,
            replies,
            committed_at,
            pre,
            confirmed,
        ),
        confirmed !is Error,
        0 <= k < laws::asked_count(push),
        ids::id_value(laws::answered_ids(confirmed)[k]) == Some(id),
        laws::is_new_in_batch(confirmed, k),
        exclusive::all_exclusive(at.raft.engine),
        !at.raft.engine.shard(laws::asked_queue(push)).seen.contains(id),
        committed_at + laws::asked_delay(push, k) <= u64::MAX,
        poll_served(pre, poll, now, at_once, states, polls, reads, later, post, response),
        poll->Poll_queue_name@ == laws::asked_queue(push),
        now <= later,
        later + u32::MAX <= u64::MAX,
        later < committed_at + laws::asked_delay(push, k),
        committed_at <= later,
        (laws::asked_delay(push, k) <= HOT_DELAY_HORIZON_SEC && at.raft.engine.total_in_ram
            + laws::asked_count(push) <= at.raft.engine.options.max_hot_messages_in_ram)
            || reads_bring_late(
            states,
            polls,
            reads,
            laws::asked_queue(push),
            id,
            committed_at + laws::asked_delay(push, k),
        ),
    ensures
        response is Poll,
        !sequences::is_handed_out(response->messages, id),
{
    laws::law_pushed_message_comes_up_after_its_delay(
        before,
        push,
        pushed_at,
        mid,
        at,
        replies,
        committed_at,
        pre,
        confirmed,
        k,
        id,
    );
    law_poll_leaves_withheld_message_away(
        pre,
        poll,
        now,
        at_once,
        states,
        polls,
        reads,
        later,
        post,
        response,
        id,
        committed_at + laws::asked_delay(push, k),
        u64::MAX + 1,
    );
}

proof fn lemma_scans_keep_exclusive(
    states: Seq<ServerView>,
    polls: Seq<PendingPollView>,
    reads: Seq<SegmentRead>,
    n: nat,
    queue: Seq<char>,
)
    requires
        poll_scans(states, polls, reads),
        n <= reads.len(),
        exclusive::all_exclusive(states[0].raft.engine),
    ensures
        exclusive::all_exclusive(states[n as int].raft.engine),
        states[n as int].raft.engine.shard(queue).wheel == states[0].raft.engine.shard(queue).wheel,
    decreases n,
{
    if n > 0 {
        model::lemma_shard_of_bound(queue);
        let m = (n - 1) as nat;
        lemma_scans_keep_exclusive(states, polls, reads, m, queue);
        assert(scan_goes_on(
            states[m as int],
            polls[m as int],
            reads[m as int],
            states[n as int],
            polls[n as int],
        ));
        let e = states[m as int].raft.engine;
        let scan = polls[m as int].scan;
        let taken = sequences::lemma_scan_pages(e, scan, reads[m as int]);
        exclusive::law_paging_keeps_exclusive(e, taken, scan.now);
        sequences::lemma_paging_keeps_wheels(e, taken, scan.now, model::shard_of(queue));
        let paged = e.page_records(taken, scan.now);
        let after = states[n as int].raft.engine;
        assert(after.shards == paged.shards);
        assert forall|at: int| 0 <= at < NUM_SHARDS implies exclusive::exclusive(
            #[trigger] after.shards[at],
        ) && model::shard_holds(after.shards[at], at) by {
            assert(exclusive::exclusive(paged.shards[at]));
            assert(model::shard_holds(paged.shards[at], at));
        }
    }
}

/// Every message that a poll is answered with is one that was in memory. It comes with its
/// payload, counts one delivery more, and is leased, under the receipt that it comes with, until
/// the time of the answer plus the time that the request asks for, or, if it asks for none, that
/// the engine was opened with.
pub proof fn law_polled_messages_are_leased_as_asked(
    pre: ServerView,
    req: Request,
    now: u64,
    at_once: bool,
    states: Seq<ServerView>,
    polls: Seq<PendingPollView>,
    reads: Seq<SegmentRead>,
    later: u64,
    post: ServerView,
    response: ResponseView,
    k: int,
) -> (id: u128)
    requires
        poll_served(pre, req, now, at_once, states, polls, reads, later, post, response),
        0 < now <= later,
        later + u32::MAX <= u64::MAX,
        lease_time(pre.raft.engine, req) > 0,
        pre.raft.engine.inv(),
        exclusive::all_exclusive(pre.raft.engine.expire(req->Poll_queue_name@, now)),
        0 <= k < response->messages.len(),
    ensures
        ({
            let queue = req->Poll_queue_name@;
            let source = polled_engine(pre, req, now, at_once, states);
            let message = response->messages[k];
            let msg = source.shard(queue).messages[id];
            let count = ((msg.delivery_count + 1) % 0x1_0000_0000) as u32;
            &&& response is Poll
            &&& message.message_id == ids::ulid_text(id)
            &&& source.shard(queue).messages.contains_key(id)
            &&& message.payload == msg.payload
            &&& message.delivery_count == count
            &&& post.raft.engine.shard(queue).messages[id] == (MsgView {
                delivery_count: count,
                ..msg
            })
            &&& leasing::leased_until(
                post.raft.engine,
                queue,
                id,
                message.receipt_handle,
                (later + lease_time(pre.raft.engine, req)) as u64,
            )
        }),
{
    let queue = req->Poll_queue_name@;
    let receipts = lemma_poll_steps(
        pre,
        req,
        now,
        at_once,
        states,
        polls,
        reads,
        later,
        post,
        response,
    );
    model::lemma_shard_of_bound(queue);
    let source = polled_engine(pre, req, now, at_once, states);
    let e = pre.raft.engine;
    let expired = e.expire(queue, now);
    lemma_expired_clock(e, queue, now);
    if !at_once {
        lemma_scans_keep_exclusive(states, polls, reads, reads.len(), queue);
    }
    leasing::law_polled_message_is_leased(
        source,
        queue,
        later,
        asked_for(req),
        receipts,
        (later + lease_time(e, req)) as u64,
        k,
    )
}

proof fn lemma_expired_clock(e: EngineView, queue: Seq<char>, now: u64)
    requires
        e.inv(),
    ensures
        e.expire(queue, now).shard(queue).wheel.last_checked_sec == now,
{
    model::lemma_shard_of_bound(queue);
    let (r, taken) = e.shard(queue).take_expired(now);
    let mid = e.with_shard(queue, r);
    crate::engine::laws::lemma_route_all_wheels(mid, taken, now);
    let post = e.expire(queue, now);
    assert(post.shards[model::shard_of(queue)].wheel == mid.shards[model::shard_of(queue)].wheel);
}

/// While a lease runs, no poll of the queue hands its message out.
pub proof fn law_leased_message_is_not_polled(
    pre: ServerView,
    req: Request,
    now: u64,
    at_once: bool,
    states: Seq<ServerView>,
    polls: Seq<PendingPollView>,
    reads: Seq<SegmentRead>,
    later: u64,
    post: ServerView,
    response: ResponseView,
    id: u128,
    receipt: Seq<char>,
    until: u64,
)
    requires
        poll_served(pre, req, now, at_once, states, polls, reads, later, post, response),
        later + u32::MAX <= u64::MAX,
        leasing::leased_until(pre.raft.engine, req->Poll_queue_name@, id, receipt, until),
        now < until,
    ensures
        response is Poll,
        !sequences::is_handed_out(response->messages, id),
{
    law_poll_leaves_withheld_message_away(
        pre,
        req,
        now,
        at_once,
        states,
        polls,
        reads,
        later,
        post,
        response,
        id,
        u64::MAX + 1,
        until as int,
    );
}

/// A poll of the queue after a lease has ended hands its message out again, if the message was
/// delivered less often than the engine was opened with, the log that is read does not
/// acknowledge it, and the poll gets fewer messages than it asks for.
pub proof fn law_message_is_polled_again_after_its_lease(
    pre: ServerView,
    req: Request,
    now: u64,
    at_once: bool,
    states: Seq<ServerView>,
    polls: Seq<PendingPollView>,
    reads: Seq<SegmentRead>,
    later: u64,
    post: ServerView,
    response: ResponseView,
    id: u128,
    receipt: Seq<char>,
    until: u64,
)
    requires
        poll_served(pre, req, now, at_once, states, polls, reads, later, post, response),
        later + u32::MAX <= u64::MAX,
        redelivery::limits_hold(pre.raft.engine),
        leasing::leased_until(pre.raft.engine, req->Poll_queue_name@, id, receipt, until),
        ({
            let msg = pre.raft.engine.shard(req->Poll_queue_name@).messages[id];
            &&& msg.queue == req->Poll_queue_name@
            &&& msg.delivery_count < pre.raft.engine.options.max_delivery_count
        }),
        until <= now,
        reads_spare(states, polls, reads, req->Poll_queue_name@, id),
        polled_engine(pre, req, now, at_once, states).claim(
            req->Poll_queue_name@,
            later,
            asked_for(req),
        ).1.len() < asked_for(req),
    ensures
        response is Poll,
        sequences::is_handed_out(response->messages, id),
{
    let queue = req->Poll_queue_name@;
    let receipts = lemma_poll_steps(
        pre,
        req,
        now,
        at_once,
        states,
        polls,
        reads,
        later,
        post,
        response,
    );
    let expired = pre.raft.engine.expire(queue, now);
    let scans = if at_once {
        Seq::empty()
    } else {
        scan_steps(polls, reads)
    };
    if !at_once {
        lemma_scans(states, polls, reads, reads.len(), queue);
        lemma_scans_spare(states, polls, reads, reads.len(), queue, id);
        assert(scans.take(reads.len() as int) =~= scans);
    }
    leasing::law_message_is_handed_out_again_when_its_lease_ends(
        pre.raft.engine,
        queue,
        id,
        receipt,
        until,
        now,
        scans,
        later,
        asked_for(req),
        receipts,
        (later + lease_time(pre.raft.engine, req)) as u64,
    );
}

/// A poll is answered with at most as many messages as it asks for.
pub proof fn law_poll_is_answered_with_at_most_what_it_asks_for(
    pre: ServerView,
    req: Request,
    now: u64,
    at_once: bool,
    states: Seq<ServerView>,
    polls: Seq<PendingPollView>,
    reads: Seq<SegmentRead>,
    later: u64,
    post: ServerView,
    response: ResponseView,
)
    requires
        poll_served(pre, req, now, at_once, states, polls, reads, later, post, response),
        later + u32::MAX <= u64::MAX,
    ensures
        response is Poll,
        response->messages.len() <= asked_for(req),
{
    let receipts = lemma_poll_steps(
        pre,
        req,
        now,
        at_once,
        states,
        polls,
        reads,
        later,
        post,
        response,
    );
    sequences::law_poll_hands_out_at_most_what_is_asked_for(
        polled_engine(pre, req, now, at_once, states),
        req->Poll_queue_name@,
        later,
        asked_for(req),
        receipts,
        (later + lease_time(pre.raft.engine, req)) as u64,
    );
}

/// The messages that a poll is answered with are counted, as polled and as in flight. A poll
/// changes nothing but that and the queues.
#[verifier::rlimit(60)]
pub proof fn law_polled_messages_are_counted(
    pre: ServerView,
    req: Request,
    now: u64,
    at_once: bool,
    states: Seq<ServerView>,
    polls: Seq<PendingPollView>,
    reads: Seq<SegmentRead>,
    later: u64,
    post: ServerView,
    response: ResponseView,
)
    requires
        poll_served(pre, req, now, at_once, states, polls, reads, later, post, response),
        later + u32::MAX <= u64::MAX,
        pre.metrics.messages_polled_total + response->messages.len() <= u64::MAX,
        pre.metrics.in_flight_messages + response->messages.len() <= i64::MAX,
    ensures
        response is Poll,
        post.metrics.messages_polled_total == pre.metrics.messages_polled_total
            + response->messages.len(),
        post.metrics.in_flight_messages == pre.metrics.in_flight_messages
            + response->messages.len(),
        post.metrics.messages_pushed_total == pre.metrics.messages_pushed_total,
        post.metrics.messages_acked_total == pre.metrics.messages_acked_total,
        post.raft.log == pre.raft.log,
        post.raft.current_term == pre.raft.current_term,
        post.raft.commit_index == pre.raft.commit_index,
        post.raft.peers == pre.raft.peers,
        post.raft.role == pre.raft.role,
        post.raft.is_leader_cached == pre.raft.is_leader_cached,
{
    let receipts = lemma_poll_steps(
        pre,
        req,
        now,
        at_once,
        states,
        polls,
        reads,
        later,
        post,
        response,
    );
}

/// A poll is answered without a look at the log only if, after ended leases were ended, at least
/// 200 messages of the queue are ready, and at least twice as many as it asks for. Else it scans
/// for its queue at the time of the request, and asks the log for at least 1000 records at a
/// time.
pub proof fn law_poll_looks_at_the_log_when_few_are_ready(
    pre: ServerView,
    req: Request,
    now: u64,
    post: ServerView,
    res: Dispatch,
)
    requires
        tcp_service::dispatched(pre, req, now, post, res),
        req is Poll,
        pre.raft.is_leader_cached,
        2 * asked_for(req) <= usize::MAX,
    ensures
        ({
            let queue = req->Poll_queue_name@;
            let s = pre.raft.engine.expire(queue, now).shard(queue);
            let plenty = s.queues.contains_key(queue) && s.queues[queue].ready.len()
                >= s.queues[queue].deleted.len() + 200 && s.queues[queue].ready.len()
                >= s.queues[queue].deleted.len() + 2 * asked_for(req);
            &&& plenty <==> res is Done
            &&& !plenty <==> res is Poll
            &&& res matches Dispatch::Poll { poll } ==> {
                &&& poll@.queue_name == queue
                &&& poll@.scan.target_queue == queue
                &&& poll@.scan.now == now
                &&& poll@.scan.fetch_limit >= 1000
                &&& poll@.scan.fetch_limit >= 2 * asked_for(req)
                &&& !poll@.scan.flushed
                &&& poll@.batch_size == asked_for(req)
                &&& poll@.visibility_timeout_sec == req->visibility_timeout_sec
            }
        }),
{
}

}
