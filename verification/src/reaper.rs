//! Taking back leases that ran out.

use vstd::prelude::*;

use crate::error::{Fault, QueueError};
use crate::store;
use crate::store::{Batch, BatchView, OpView, Record, RecordView, Scan, ScanView};
use crate::task;
use crate::task::{queue_prefix, Task};
use crate::tenant;
use crate::tenant::settle;
use crate::tenant::{cf_inflight, cf_pending, Families};
use crate::text;

verus! {

/// The lease of the record has run out.
pub open spec fn overdue(value: Seq<u8>, now: u64) -> bool {
    task::read_task(value) matches Some(t) && t.deadline > 0 && t.deadline < now
}

/// The changes for a leased record: an overdue task waits again under the same
/// key, bytes that are no task go, in an envelope, to the dead letters, and
/// other tasks stay.
pub open spec fn reap_op(tenant: Seq<char>, queue: Seq<char>, now: u64, r: RecordView) -> Seq<
    OpView,
> {
    let gone = OpView::Delete { cf: tenant::inflight_name(tenant), key: r.key };
    match task::read_task(r.value) {
        None => seq![
            gone,
            OpView::Put {
                cf: tenant::dlq_name(tenant),
                key: r.key,
                value: task::task_code(task::poison_view(queue, r.value, now)),
            },
        ],
        Some(t) => if overdue(r.value, now) {
            seq![
                gone,
                OpView::Put {
                    cf: tenant::pending_name(tenant),
                    key: r.key,
                    value: task::task_code(settle::unleased(t)),
                },
            ]
        } else {
            Seq::empty()
        },
    }
}

/// The changes for leased records, in their order.
pub open spec fn reap_ops(tenant: Seq<char>, queue: Seq<char>, now: u64, rs: Seq<RecordView>) -> Seq<
    OpView,
>
    decreases rs.len(),
{
    if rs.len() == 0 {
        Seq::empty()
    } else {
        reap_ops(tenant, queue, now, rs.drop_last()) + reap_op(tenant, queue, now, rs.last())
    }
}

/// How many records come before the first whose key does not begin with
/// `prefix`.
pub open spec fn leading(prefix: Seq<u8>, rs: Seq<RecordView>) -> nat
    decreases rs.len(),
{
    if rs.len() == 0 || !prefix.is_prefix_of(rs[0].key) {
        0
    } else {
        1 + leading(prefix, rs.drop_first())
    }
}

/// The first records whose keys begin with the prefix all count as leading.
pub proof fn lemma_leading(prefix: Seq<u8>, rs: Seq<RecordView>, i: int)
    requires
        0 <= i <= rs.len(),
        forall|j: int| 0 <= j < i ==> prefix.is_prefix_of((#[trigger] rs[j]).key),
    ensures
        leading(prefix, rs) == i + leading(prefix, rs.skip(i)),
    decreases i,
{
    if i == 0 {
        assert(rs.skip(0) =~= rs);
    } else {
        let rest = rs.drop_first();
        assert(prefix.is_prefix_of(rs[0].key));
        assert forall|j: int| 0 <= j < i - 1 implies prefix.is_prefix_of(
            (#[trigger] rest[j]).key,
        ) by {
            assert(rest[j] == rs[j + 1]);
        }
        lemma_leading(prefix, rest, i - 1);
        assert(rest.skip(i - 1) =~= rs.skip(i));
    }
}

/// The leading records are no more than there are, and all begin with the
/// prefix.
pub proof fn lemma_leading_all(prefix: Seq<u8>, rs: Seq<RecordView>)
    ensures
        leading(prefix, rs) <= rs.len(),
        forall|i: int|
            0 <= i < leading(prefix, rs) ==> prefix.is_prefix_of((#[trigger] rs[i]).key),
        leading(prefix, rs) < rs.len() ==> !prefix.is_prefix_of(
            rs[leading(prefix, rs) as int].key,
        ),
    decreases rs.len(),
{
    if rs.len() > 0 && prefix.is_prefix_of(rs[0].key) {
        let rest = rs.drop_first();
        lemma_leading_all(prefix, rest);
        assert forall|i: int| 0 <= i < leading(prefix, rs) implies prefix.is_prefix_of(
            (#[trigger] rs[i]).key,
        ) by {
            if i > 0 {
                assert(rest[i - 1] == rs[i]);
            }
        }
    }
}

/// All the records are tasks.
pub open spec fn all_tasks(rs: Seq<RecordView>) -> bool {
    forall|i: int| 0 <= i < rs.len() ==> task::read_task((#[trigger] rs[i]).value) is Some
}

/// What a sweep over the leased records of a queue gives. The records were
/// read from the queue's prefix on; those of other queues behind it are not
/// looked at. The dead letters are needed only for a record that is no task.
pub open spec fn reaped(
    tenant: Seq<char>,
    queue: Seq<char>,
    fam: Families,
    now: u64,
    scan: ScanView,
) -> Result<Option<BatchView>, Fault> {
    let n = leading(task::prefix_code(queue), scan.records);
    if !fam.inflight {
        Err(Fault::ColumnFamilyMissing(tenant::inflight_name(tenant)))
    } else if !fam.pending {
        Err(Fault::ColumnFamilyMissing(tenant::pending_name(tenant)))
    } else if !fam.dlq && !all_tasks(scan.records.take(n as int)) {
        Err(Fault::ColumnFamilyMissing(tenant::dlq_name(tenant)))
    } else if n == scan.records.len() && scan.failure is Some {
        Err(Fault::Store(scan.failure->0))
    } else {
        Ok(
            store::write_if_any(
                reap_ops(tenant, queue, now, scan.records.take(n as int)),
                false,
            ),
        )
    }
}

/// Adds the changes for a leased record to a batch; a record that is no task is
/// refused where there is no family of dead letters.
fn reap_record(
    tenant_id: &str,
    queue: &str,
    fam: &Families,
    now: u64,
    record: &Record,
    batch: &mut Batch,
) -> (r: Result<(), QueueError>)
    ensures
        match r {
            Ok(_) => {
                &&& fam.dlq || task::read_task(record@.value) is Some
                &&& final(batch)@ == (BatchView {
                    ops: old(batch)@.ops + reap_op(tenant_id@, queue@, now, record@),
                    ..old(batch)@
                })
            },
            Err(e) => {
                &&& !fam.dlq && task::read_task(record@.value) is None
                &&& e@ == Fault::ColumnFamilyMissing(tenant::dlq_name(tenant_id@))
            },
        },
{
    let inflight = cf_inflight(tenant_id);
    match Task::deserialize(record.value.as_slice()) {
        Err(_) => {
            let dlq = match fam.dlq_cf(tenant_id) {
                Ok(name) => name,
                Err(e) => return Err(e),
            };
            let envelope = Task::poison(queue, record.value.as_slice(), now);
            let kept = match envelope.serialize() {
                Ok(v) => v,
                Err(e) => return Err(e),
            };
            batch.delete(inflight.as_str(), record.key.as_slice());
            batch.put(dlq.as_str(), record.key.as_slice(), kept);
        },
        Ok(task) => {
            if task.deadline > 0 && task.deadline < now {
                let pending = cf_pending(tenant_id);
                let mut reclaimed = task;
                reclaimed.deadline = 0;
                let value = match reclaimed.serialize() {
                    Ok(v) => v,
                    Err(e) => return Err(e),
                };
                batch.delete(inflight.as_str(), record.key.as_slice());
                batch.put(pending.as_str(), record.key.as_slice(), value);
            }
        },
    }
    assert(batch@.ops =~= old(batch)@.ops + reap_op(tenant_id@, queue@, now, record@));
    Ok(())
}

/// Sweeps the leased records of a queue, on what a scan from the queue's
/// prefix on gave: tasks whose lease ran out wait again. A record that is no
/// task goes to the dead letters and does not stop the sweep.
pub fn reap_inflight(tenant_id: &str, queue: &str, fam: &Families, now: u64, scan: &Scan) -> (r:
    Result<Option<Batch>, QueueError>)
    ensures
        match r {
            Ok(b) => reaped(tenant_id@, queue@, *fam, now, scan@) == Ok::<
                Option<BatchView>,
                Fault,
            >(store::batch_view(b)),
            Err(e) => reaped(tenant_id@, queue@, *fam, now, scan@) == Err::<
                Option<BatchView>,
                Fault,
            >(e@),
        },
{
    if let Err(e) = fam.inflight_cf(tenant_id) {
        return Err(e);
    }
    if let Err(e) = fam.pending_cf(tenant_id) {
        return Err(e);
    }
    let prefix = queue_prefix(queue);
    let ghost rs = scan@.records;
    let mut batch = Batch::hot();
    let mut i: usize = 0;
    let mut stopped = false;
    assert(rs.take(0) =~= Seq::<RecordView>::empty());
    while i < scan.records.len() && !stopped
        invariant
            0 <= i <= scan.records@.len(),
            rs == scan@.records,
            prefix@ == task::prefix_code(queue@),
            fam.inflight && fam.pending,
            !fam.dlq ==> all_tasks(rs.take(i as int)),
            forall|j: int| 0 <= j < i ==> prefix@.is_prefix_of((#[trigger] rs[j]).key),
            stopped ==> i < rs.len() && !prefix@.is_prefix_of(rs[i as int].key),
            batch@ == (BatchView {
                ops: reap_ops(tenant_id@, queue@, now, rs.take(i as int)),
                sync: false,
            }),
        decreases scan.records@.len() - i + (if stopped { 0int } else { 1 }),
    {
        let record = &scan.records[i];
        let ghost r = rs[i as int];
        assert(record@ == r);
        if !text::begins_with(record.key.as_slice(), prefix.as_slice()) {
            stopped = true;
        } else {
            proof {
                lemma_leading(prefix@, rs, i + 1);
                lemma_leading_all(prefix@, rs);
                assert(rs.take(leading(prefix@, rs) as int)[i as int] == r);
            }
            match reap_record(tenant_id, queue, fam, now, record, &mut batch) {
                Ok(_) => {},
                Err(e) => return Err(e),
            }
            let ghost next = rs.take(i + 1);
            assert(next.drop_last() =~= rs.take(i as int));
            assert(next.last() == r);
            assert forall|j: int| !fam.dlq && 0 <= j < next.len() implies task::read_task(
                (#[trigger] next[j]).value,
            ) is Some by {
                if j < i {
                    assert(rs.take(i as int)[j] == next[j]);
                }
            }
            i = i + 1;
        }
    }
    proof {
        lemma_leading(prefix@, rs, i as int);
        if i < rs.len() {
            assert(rs.skip(i as int)[0] == rs[i as int]);
        } else {
            assert(rs.skip(i as int).len() == 0);
        }
    }
    if !stopped {
        if let Some(reason) = &scan.failure {
            return Err(QueueError::RocksDB(reason.clone()));
        }
    }
    Ok(batch.if_any())
}

} // verus!
