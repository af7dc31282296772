//! What a compaction carries over: the pushes of a segment that nothing in it acknowledges.
use std::collections::HashSet;
use vstd::prelude::*;

use crate::engine::disk_log;
use crate::engine::disk_log::{Survivor, SurvivorView};
use crate::engine::model;
use crate::engine::model::NUM_SHARDS;
use crate::engine::queue::QueueEngine;
use crate::engine::wal;
use crate::engine::wal::{RecordView, WalRecord};

verus! {

broadcast use vstd::std_specs::hash::group_hash_axioms;

/// The record acknowledges the message `id` of a shard.
pub open spec fn acks_id(record: RecordView, at: int, id: u128) -> bool {
    record matches RecordView::Ack { msg_id, queue_name } && msg_id == id && model::shard_of(
        queue_name,
    ) == at
}

/// One of the records acknowledges the message `id` of a shard.
pub open spec fn acked_in(records: Seq<RecordView>, at: int, id: u128) -> bool {
    exists|k: int| 0 <= k < records.len() && acks_id(#[trigger] records[k], at, id)
}

/// The record is a push, and none of the records behind it acknowledges its message.
pub open spec fn is_open(record: RecordView, behind: Seq<RecordView>) -> bool {
    record matches RecordView::Push { msg_id, queue_name, .. } && !acked_in(
        behind,
        model::shard_of(queue_name),
        msg_id,
    )
}

/// What is carried over of a push record.
pub open spec fn survivor_of(record: RecordView) -> SurvivorView {
    SurvivorView {
        id: record->Push_msg_id,
        queue: record->Push_queue_name,
        visible_at: record->visible_at,
        payload: record->payload,
    }
}

/// What is carried over of a segment with these records, in order.
pub open spec fn carried(records: Seq<RecordView>) -> Seq<SurvivorView>
    decreases records.len(),
{
    if records.len() == 0 {
        Seq::empty()
    } else {
        let behind = records.drop_first();
        if is_open(records[0], behind) {
            seq![survivor_of(records[0])] + carried(behind)
        } else {
            carried(behind)
        }
    }
}

proof fn lemma_acked_in_step(records: Seq<RecordView>, at: int, id: u128)
    requires
        records.len() > 0,
    ensures
        acked_in(records, at, id) == (acks_id(records[0], at, id) || acked_in(
            records.drop_first(),
            at,
            id,
        )),
{
    let behind = records.drop_first();
    if acked_in(records, at, id) {
        let k = choose|k: int| 0 <= k < records.len() && acks_id(#[trigger] records[k], at, id);
        if k > 0 {
            assert(acks_id(behind[k - 1], at, id));
        }
    }
    if acked_in(behind, at, id) {
        let k = choose|k: int| 0 <= k < behind.len() && acks_id(#[trigger] behind[k], at, id);
        assert(acks_id(records[k + 1], at, id));
    }
}

/// Every push of a segment that no later record acknowledges is carried over.
pub proof fn law_open_push_is_carried(records: Seq<RecordView>, k: int)
    requires
        0 <= k < records.len(),
        is_open(records[k], records.skip(k + 1)),
    ensures
        carried(records).contains(survivor_of(records[k])),
    decreases records.len(),
{
    let behind = records.drop_first();
    if k == 0 {
        assert(records.skip(1) =~= behind);
        assert(carried(records)[0] == survivor_of(records[0]));
    } else {
        assert(behind.skip(k) =~= records.skip(k + 1));
        law_open_push_is_carried(behind, k - 1);
        let rest = carried(behind);
        let j = choose|j: int| 0 <= j < rest.len() && rest[j] == survivor_of(records[k]);
        if is_open(records[0], behind) {
            assert(carried(records)[j + 1] == survivor_of(records[k]));
        }
    }
}

/// Only pushes of the segment that no later record acknowledges are carried over.
pub proof fn law_carried_push_is_open(records: Seq<RecordView>, j: int) -> (k: int)
    requires
        0 <= j < carried(records).len(),
    ensures
        0 <= k < records.len(),
        is_open(records[k], records.skip(k + 1)),
        carried(records)[j] == survivor_of(records[k]),
    decreases records.len(),
{
    let behind = records.drop_first();
    if is_open(records[0], behind) {
        assert(records.skip(1) =~= behind);
        if j == 0 {
            0
        } else {
            let k = law_carried_push_is_open(behind, j - 1);
            assert(records.skip(k + 2) =~= behind.skip(k + 1));
            k + 1
        }
    } else {
        let k = law_carried_push_is_open(behind, j);
        assert(records.skip(k + 2) =~= behind.skip(k + 1));
        k + 1
    }
}

/// Picks what is carried over of a segment with these records, in order.
pub fn carry_over(records: Vec<WalRecord>) -> (list: Vec<Survivor>)
    ensures
        disk_log::survivor_views(list@) == carried(wal::record_views(records@)),
{
    let ghost all = wal::record_views(records@);
    let mut acked: Vec<HashSet<u128>> = Vec::new();
    while acked.len() < NUM_SHARDS
        invariant
            acked.len() <= NUM_SHARDS,
            forall|at: int, id: u128|
                0 <= at < acked.len() ==> !(#[trigger] acked@[at]@.contains(id)),
        decreases NUM_SHARDS - acked.len(),
    {
        acked.push(HashSet::new());
    }
    let mut records = records;
    let mut backwards: Vec<Survivor> = Vec::new();
    proof {
        assert(all.skip(all.len() as int) =~= Seq::empty());
        assert(disk_log::survivor_views(backwards@) =~= carried(all.skip(all.len() as int)).reverse());
    }
    while records.len() > 0
        invariant
            records.len() <= all.len(),
            wal::record_views(records@) == all.take(records.len() as int),
            acked.len() == NUM_SHARDS,
            forall|at: int, id: u128|
                0 <= at < NUM_SHARDS ==> (#[trigger] acked@[at]@.contains(id) == acked_in(
                    all.skip(records.len() as int),
                    at,
                    id,
                )),
            disk_log::survivor_views(backwards@) == carried(
                all.skip(records.len() as int),
            ).reverse(),
        decreases records.len(),
    {
        let ghost n = records.len() - 1;
        let ghost rest = all.skip(n);
        proof {
            assert(rest.drop_first() =~= all.skip(n + 1));
            assert(rest[0] == all[n]);
            assert(wal::record_views(records@)[n] == all[n]);
            assert(all.take(n + 1).drop_last() =~= all.take(n));
            assert forall|at: int, id: u128| #[trigger] acked_in(rest, at, id) == (acks_id(
                all[n],
                at,
                id,
            ) || acked_in(all.skip(n + 1), at, id)) by {
                lemma_acked_in_step(rest, at, id);
            }
        }
        let ghost picked = backwards@;
        let ghost before = acked@;
        match records.pop() {
            Some(WalRecord::Push { msg_id, queue_name, visible_at, payload }) => {
                let at: usize = QueueEngine::shard_idx(queue_name.as_str());
                assert(acked@[at as int]@.contains(msg_id) == acked_in(
                    all.skip(n + 1),
                    at as int,
                    msg_id,
                ));
                if !acked[at].contains(&msg_id) {
                    backwards.push((msg_id, queue_name, visible_at, payload));
                    proof {
                        let x = survivor_of(all[n]);
                        assert(disk_log::survivor_views(backwards@) =~= disk_log::survivor_views(
                            picked,
                        ).push(x));
                        assert((seq![x] + carried(all.skip(n + 1))).reverse() =~= carried(
                            all.skip(n + 1),
                        ).reverse().push(x));
                    }
                }
                proof {
                    assert(wal::record_views(records@) =~= all.take(n));
                }
            },
            Some(WalRecord::Ack { msg_id, queue_name }) => {
                let at: usize = QueueEngine::shard_idx(queue_name.as_str());
                acked[at].insert(msg_id);
                proof {
                    assert(wal::record_views(records@) =~= all.take(n));
                    assert forall|t: int, id: u128| 0 <= t < NUM_SHARDS implies #[trigger] acked@[t]@.contains(
                        id,
                    ) == acked_in(all.skip(n), t, id) by {
                        assert(before[t]@.contains(id) == acked_in(all.skip(n + 1), t, id));
                        assert(acked_in(rest, t, id) == (acks_id(all[n], t, id) || acked_in(
                            all.skip(n + 1),
                            t,
                            id,
                        )));
                    }
                }
            },
            None => {},
        }
    }
    proof {
        assert(all.skip(0) =~= all);
    }
    let mut list: Vec<Survivor> = Vec::new();
    let ghost picked = disk_log::survivor_views(backwards@);
    proof {
        assert(carried(all).reverse().reverse() =~= carried(all));
        assert(disk_log::survivor_views(list@) =~= picked.skip(picked.len() as int).reverse());
    }
    while backwards.len() > 0
        invariant
            backwards.len() <= picked.len(),
            disk_log::survivor_views(backwards@) == picked.take(backwards.len() as int),
            disk_log::survivor_views(list@) == picked.skip(backwards.len() as int).reverse(),
        decreases backwards.len(),
    {
        let ghost n = backwards.len() - 1;
        let ghost listed = list@;
        proof {
            assert(disk_log::survivor_views(backwards@)[n] == picked[n]);
        }
        match backwards.pop() {
            Some(m) => {
                list.push(m);
                proof {
                    assert(disk_log::survivor_views(backwards@) =~= picked.take(n));
                    assert(disk_log::survivor_views(list@) =~= disk_log::survivor_views(listed).push(
                        picked[n],
                    ));
                    assert(picked.skip(n).reverse() =~= picked.skip(n + 1).reverse().push(picked[n]));
                }
            },
            None => {},
        }
    }
    proof {
        assert(picked.skip(0) =~= picked);
    }
    list
}

}
