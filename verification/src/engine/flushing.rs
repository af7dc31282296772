//! What is confirmed is on its way to disk with a flush behind it.
use vstd::prelude::*;

use crate::engine::disk_log::{ActionView, DiskView};
use crate::engine::model::{EngineView, PushView};
use crate::engine::wal::RecordView;

verus! {

/// All that was written to the log has a flush behind it.
pub open spec fn is_flushed(disk: DiskView) -> bool {
    disk.actions.len() > 0 && disk.actions.last() is Flush
}

/// After a push, what was written has a flush behind it, unless the message is known to be
/// acknowledged; then nothing was written.
pub proof fn law_push_is_flushed(
    e: EngineView,
    queue: Seq<char>,
    id: u128,
    payload: Seq<u8>,
    visible_at: u64,
    now: u64,
    post: EngineView,
)
    requires
        e.pushes_to(queue, id, payload, visible_at, now, post),
    ensures
        is_flushed(post.disk) || post == e,
        !e.shard(queue).acked.contains(id) ==> is_flushed(post.disk),
{
}

/// After a batch of pushes, what was written has a flush behind it.
pub proof fn law_batch_push_is_flushed(
    e: EngineView,
    queue: Seq<char>,
    ids: Seq<u128>,
    items: Seq<PushView>,
    now: u64,
    post: EngineView,
)
    requires
        e.batch_pushes_to(queue, ids, items, now, post),
    ensures
        is_flushed(post.disk),
{
}

/// After acknowledgements, what was written has a flush behind it.
pub proof fn law_acks_are_flushed(
    e: EngineView,
    queue: Seq<char>,
    id: u128,
    items: Seq<(Seq<char>, Seq<char>)>,
    now: u64,
    one: EngineView,
    told: EngineView,
    many: EngineView,
)
    requires
        e.acks_to(queue, id, one),
        e.follower_acks_to(queue, id, told),
        e.batch_acks_to(queue, items, now, many),
    ensures
        is_flushed(one.disk),
        is_flushed(told.disk),
        e.ack_count(queue, items, now) > 0 ==> is_flushed(many.disk),
{
}

/// A compaction empties a segment only after all that it carries over was flushed to the other.
pub proof fn law_compaction_flushes_before_it_empties(e: EngineView, records: Seq<RecordView>)
    ensures
        ({
            let actions = e.compacted(records).disk.actions;
            let n = actions.len() as int;
            &&& n >= 2
            &&& actions[n - 2] is Flush
            &&& actions[n - 1] == (ActionView::TruncateSegment { is_b: e.disk.active_is_b })
        }),
{
}

}
