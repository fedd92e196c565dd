//! Dead letters: dropping them, and giving their tasks another chance.

use vstd::prelude::*;

use crate::error::{Fault, QueueError};
use crate::store;
use crate::store::{Batch, BatchView, OpView, RecordView, Scan, ScanView};
use crate::task;
use crate::task::{encode_key, Task, TaskView};
use crate::tenant;
use crate::tenant::enqueue;
use crate::tenant::quota;
use crate::tenant::{Families, RegistryView, TenantRegistry};

verus! {

/// What dropping all dead letters gives.
pub open spec fn purged(tenant: Seq<char>, fam: Families, scan: ScanView) -> Result<
    (nat, Option<BatchView>),
    Fault,
> {
    if !fam.dlq {
        Err(Fault::ColumnFamilyMissing(tenant::dlq_name(tenant)))
    } else if scan.failure is Some {
        Err(Fault::Store(scan.failure->0))
    } else {
        Ok(
            (
                scan.records.len(),
                store::write_if_any(
                    quota::delete_ops(tenant::dlq_name(tenant), scan.records),
                    true,
                ),
            ),
        )
    }
}

/// A task that starts anew.
pub open spec fn renewed(t: TaskView) -> TaskView {
    TaskView { attempts: 0, deadline: 0, ..t }
}

/// The changes for a dead letter that goes back to its queue under a number.
pub open spec fn replay_op(tenant: Seq<char>, r: RecordView, seq: u64) -> Seq<OpView> {
    let t = task::read_task(r.value)->0;
    seq![
        OpView::Put {
            cf: tenant::pending_name(tenant),
            key: task::key_code(t.queue, seq),
            value: task::task_code(renewed(t)),
        },
        OpView::Delete { cf: tenant::dlq_name(tenant), key: r.key },
    ]
}

/// The changes for dead letters that go back, in their order, under
/// consecutive numbers.
pub open spec fn replay_ops(tenant: Seq<char>, first: u64, rs: Seq<RecordView>) -> Seq<OpView>
    decreases rs.len(),
{
    if rs.len() == 0 {
        Seq::empty()
    } else {
        replay_ops(tenant, first, rs.drop_last()) + replay_op(
            tenant,
            rs.last(),
            enqueue::nth_seq(first, rs.len() - 1),
        )
    }
}

/// How many records come before the first that is no task.
pub open spec fn leading_tasks(rs: Seq<RecordView>) -> nat
    decreases rs.len(),
{
    if rs.len() == 0 || task::read_task(rs[0].value) is None {
        0
    } else {
        1 + leading_tasks(rs.drop_first())
    }
}

/// What replaying all dead letters gives: all or none, since one that is no
/// task is an error.
pub open spec fn replayed(
    tenant: Seq<char>,
    fam: Families,
    first: u64,
    scan: ScanView,
) -> Result<(nat, Option<BatchView>), Fault> {
    if !fam.pending {
        Err(Fault::ColumnFamilyMissing(tenant::pending_name(tenant)))
    } else if !fam.dlq {
        Err(Fault::ColumnFamilyMissing(tenant::dlq_name(tenant)))
    } else if leading_tasks(scan.records) < scan.records.len() {
        Err(Fault::Serialization)
    } else if scan.failure is Some {
        Err(Fault::Store(scan.failure->0))
    } else {
        Ok(
            (
                scan.records.len(),
                store::write_if_any(replay_ops(tenant, first, scan.records), true),
            ),
        )
    }
}

/// How many numbers a replay uses up, even where it fails.
pub open spec fn replay_uses(fam: Families, scan: ScanView) -> nat {
    if fam.pending && fam.dlq {
        leading_tasks(scan.records)
    } else {
        0
    }
}

/// The first records that are tasks all count as leading.
pub proof fn lemma_leading_tasks(rs: Seq<RecordView>, i: int)
    requires
        0 <= i <= rs.len(),
        forall|j: int| 0 <= j < i ==> task::read_task((#[trigger] rs[j]).value) is Some,
    ensures
        leading_tasks(rs) == i + leading_tasks(rs.skip(i)),
    decreases i,
{
    if i == 0 {
        assert(rs.skip(0) =~= rs);
    } else {
        let rest = rs.drop_first();
        assert(task::read_task(rs[0].value) is Some);
        assert forall|j: int| 0 <= j < i - 1 implies task::read_task(
            (#[trigger] rest[j]).value,
        ) is Some by {
            assert(rest[j] == rs[j + 1]);
        }
        lemma_leading_tasks(rest, i - 1);
        assert(rest.skip(i - 1) =~= rs.skip(i));
    }
}

impl TenantRegistry {
    /// The families to compact for a tenant, in their order.
    pub fn compact_tenant(tenant: &str, fam: &Families) -> (r: Result<Vec<String>, QueueError>)
        ensures
            match r {
                Ok(names) => fam.pending && fam.inflight && fam.dlq && enqueue::texts(names@)
                    == seq![
                    tenant::pending_name(tenant@),
                    tenant::inflight_name(tenant@),
                    tenant::dlq_name(tenant@),
                ],
                Err(e) => if !fam.pending {
                    e@ == Fault::ColumnFamilyMissing(tenant::pending_name(tenant@))
                } else if !fam.inflight {
                    e@ == Fault::ColumnFamilyMissing(tenant::inflight_name(tenant@))
                } else {
                    !fam.dlq && e@ == Fault::ColumnFamilyMissing(tenant::dlq_name(tenant@))
                },
            },
    {
        let pending = match fam.pending_cf(tenant) {
            Ok(name) => name,
            Err(e) => return Err(e),
        };
        let inflight = match fam.inflight_cf(tenant) {
            Ok(name) => name,
            Err(e) => return Err(e),
        };
        let dlq = match fam.dlq_cf(tenant) {
            Ok(name) => name,
            Err(e) => return Err(e),
        };
        let ghost want = seq![pending@, inflight@, dlq@];
        let mut names: Vec<String> = Vec::new();
        names.push(pending);
        names.push(inflight);
        names.push(dlq);
        assert(enqueue::texts(names@) =~= want);
        Ok(names)
    }

    /// Drops all dead letters of a tenant, on what a scan of them gave, and
    /// gives their number.
    pub fn purge_dlq(tenant: &str, fam: &Families, scan: &Scan) -> (r: Result<
        (usize, Option<Batch>),
        QueueError,
    >)
        ensures
            match r {
                Ok((n, batch)) => purged(tenant@, *fam, scan@) == Ok::<
                    (nat, Option<BatchView>),
                    Fault,
                >((n as nat, store::batch_view(batch))),
                Err(e) => purged(tenant@, *fam, scan@) == Err::<(nat, Option<BatchView>), Fault>(
                    e@,
                ),
            },
    {
        let dlq = match fam.dlq_cf(tenant) {
            Ok(name) => name,
            Err(e) => return Err(e),
        };
        if let Some(reason) = &scan.failure {
            return Err(QueueError::RocksDB(reason.clone()));
        }
        let n: usize = scan.records.len();
        let batch = quota::delete_first(dlq.as_str(), scan, n, Batch::admin());
        assert(scan@.records.take(n as int) =~= scan@.records);
        assert(Seq::<OpView>::empty() + quota::delete_ops(dlq@, scan@.records)
            =~= quota::delete_ops(dlq@, scan@.records));
        Ok((n, batch.if_any()))
    }

    /// Puts all dead letters of a tenant back to the end of their queues with
    /// their attempts reset, on what a scan of them gave, and gives their
    /// number.
    pub fn replay_dlq(&mut self, tenant: &str, fam: &Families, scan: &Scan) -> (r: Result<
        (usize, Option<Batch>),
        QueueError,
    >)
        ensures
            old(self).wf() ==> final(self).wf(),
            final(self)@ == (RegistryView {
                seq: enqueue::nth_seq(old(self)@.seq, replay_uses(*fam, scan@) as int),
                ..old(self)@
            }),
            match r {
                Ok((n, batch)) => replayed(tenant@, *fam, old(self)@.seq, scan@) == Ok::<
                    (nat, Option<BatchView>),
                    Fault,
                >((n as nat, store::batch_view(batch))),
                Err(e) => replayed(tenant@, *fam, old(self)@.seq, scan@) == Err::<
                    (nat, Option<BatchView>),
                    Fault,
                >(e@),
            },
    {
        let pending = match fam.pending_cf(tenant) {
            Ok(name) => name,
            Err(e) => return Err(e),
        };
        let dlq = match fam.dlq_cf(tenant) {
            Ok(name) => name,
            Err(e) => return Err(e),
        };
        let ghost first = self@.seq;
        let ghost rs = scan@.records;
        let mut batch = Batch::admin();
        let mut i: usize = 0;
        assert(rs.take(0) =~= Seq::<RecordView>::empty());
        while i < scan.records.len()
            invariant
                0 <= i <= scan.records@.len(),
                rs == scan@.records,
                fam.pending,
                fam.dlq,
                first == old(self)@.seq,
                pending@ == tenant::pending_name(tenant@),
                dlq@ == tenant::dlq_name(tenant@),
                old(self).wf() ==> self.wf(),
                self@ == (RegistryView { seq: enqueue::nth_seq(first, i as int), ..old(self)@ }),
                forall|j: int| 0 <= j < i ==> task::read_task((#[trigger] rs[j]).value) is Some,
                batch@ == (BatchView {
                    ops: replay_ops(tenant@, first, rs.take(i as int)),
                    sync: true,
                }),
            decreases scan.records@.len() - i,
        {
            let record = &scan.records[i];
            let ghost r = rs[i as int];
            assert(record@ == r);
            let found = match Task::deserialize(record.value.as_slice()) {
                Ok(t) => t,
                Err(e) => {
                    proof {
                        lemma_leading_tasks(rs, i as int);
                        assert(rs.skip(i as int)[0] == r);
                    }
                    return Err(e);
                },
            };
            let ghost t = found@;
            let mut task = found;
            task.attempts = 0;
            task.deadline = 0;
            proof {
                enqueue::lemma_nth_seq_step(first, i as int);
            }
            let seq: u64 = self.next_seq();
            assert(self@ == (RegistryView {
                seq: enqueue::nth_seq(first, i + 1),
                ..old(self)@
            }));
            let new_key = encode_key(task.queue.as_str(), seq);
            let new_value = match task.serialize() {
                Ok(v) => v,
                Err(e) => return Err(e),
            };
            let ghost before = batch@.ops;
            batch.put(pending.as_str(), new_key.as_slice(), new_value);
            batch.delete(dlq.as_str(), record.key.as_slice());
            assert(rs.take(i + 1).drop_last() =~= rs.take(i as int));
            assert(rs.take(i + 1).last() == r);
            assert(t == task::read_task(r.value)->0);
            assert(batch@.ops =~= before + replay_op(tenant@, r, seq));
            i = i + 1;
        }
        proof {
            lemma_leading_tasks(rs, i as int);
            assert(rs.skip(i as int).len() == 0);
            assert(rs.take(i as int) =~= rs);
        }
        if let Some(reason) = &scan.failure {
            return Err(QueueError::RocksDB(reason.clone()));
        }
        Ok((i, batch.if_any()))
    }
}

} // verus!
