//! What becomes of leased tasks: done, given back, or given up.

use vstd::prelude::*;
use vstd::slice::*;

use crate::error::{Fault, QueueError};
use crate::store;
use crate::store::{Batch, BatchView, OpView, RecordView, Scan, ScanView};
use crate::task;
use crate::task::{decode_key_seq, encode_key, key_name_len, Task, TaskView};
use crate::tenant;
use crate::tenant::enqueue;
use crate::tenant::{Families, RegistryView, TenantRegistry};
use crate::text;

verus! {

/// How often a task is handed out before it is given up.
pub const MAX_ATTEMPTS: u32 = 5;

/// The removal of keys, in their order.
pub open spec fn forget_ops(cf: Seq<char>, keys: Seq<Seq<u8>>) -> Seq<OpView> {
    keys.map_values(|k: Seq<u8>| OpView::Delete { cf, key: k })
}

/// The removal of keys from two families, key by key.
pub open spec fn forget_twice_ops(a: Seq<char>, b: Seq<char>, keys: Seq<Seq<u8>>) -> Seq<OpView>
    decreases keys.len(),
{
    if keys.len() == 0 {
        Seq::empty()
    } else {
        forget_twice_ops(a, b, keys.drop_last()) + seq![
            OpView::Delete { cf: a, key: keys.last() },
            OpView::Delete { cf: b, key: keys.last() },
        ]
    }
}

/// The queue that a key names, as far as its bytes are text.
pub open spec fn key_queue(key: Seq<u8>) -> Seq<char> {
    text::text_from(key.take(task::name_len(key) as int))
}

/// A task that goes back to its queue: it is not leased any more.
pub open spec fn unleased(t: TaskView) -> TaskView {
    TaskView { deadline: 0, ..t }
}

/// The changes for a leased record that is given back. A task whose attempts
/// are used up goes to the dead letters as it is, another one goes to the end
/// of its queue; bytes that are no task go, in an envelope, to the dead
/// letters.
pub open spec fn nack_ops(
    tenant: Seq<char>,
    key: Seq<u8>,
    value: Seq<u8>,
    seq: u64,
    now: u64,
) -> Seq<OpView> {
    let gone = OpView::Delete { cf: tenant::inflight_name(tenant), key };
    match task::read_task(value) {
        None => seq![
            gone,
            OpView::Put {
                cf: tenant::dlq_name(tenant),
                key,
                value: task::task_code(task::poison_view(key_queue(key), value, now)),
            },
        ],
        Some(t) => if t.attempts >= MAX_ATTEMPTS {
            seq![gone, OpView::Put { cf: tenant::dlq_name(tenant), key, value }]
        } else {
            seq![
                gone,
                OpView::Put {
                    cf: tenant::pending_name(tenant),
                    key: task::key_code(t.queue, seq),
                    value: task::task_code(unleased(t)),
                },
            ]
        },
    }
}

/// Whether giving a record back puts it at the end of its queue.
pub open spec fn retries(value: Seq<u8>) -> bool {
    task::read_task(value) matches Some(t) && t.attempts < MAX_ATTEMPTS
}

/// What giving back gives.
pub open spec fn nacked(
    tenant: Seq<char>,
    key: Seq<u8>,
    fam: Families,
    found: Option<Seq<u8>>,
    seq: u64,
    now: u64,
) -> Result<Option<BatchView>, Fault> {
    if !fam.pending {
        Err(Fault::ColumnFamilyMissing(tenant::pending_name(tenant)))
    } else if !fam.inflight {
        Err(Fault::ColumnFamilyMissing(tenant::inflight_name(tenant)))
    } else if !fam.dlq {
        Err(Fault::ColumnFamilyMissing(tenant::dlq_name(tenant)))
    } else {
        match found {
            None => Ok(None),
            Some(value) => Ok(
                Some(BatchView { ops: nack_ops(tenant, key, value, seq, now), sync: false }),
            ),
        }
    }
}

/// How many records come before the first whose number is above `up_to`.
pub open spec fn reach(rs: Seq<RecordView>, up_to: u64) -> nat
    decreases rs.len(),
{
    if rs.len() == 0 || beyond(rs[0].key, up_to) {
        0
    } else {
        1 + reach(rs.drop_first(), up_to)
    }
}

/// The number of the key is above `up_to`.
pub open spec fn beyond(key: Seq<u8>, up_to: u64) -> bool {
    task::key_seq(key) matches Some(s) && s > up_to
}

/// The keys among the records that hold a number, in their order.
pub open spec fn numbered(rs: Seq<RecordView>) -> Seq<Seq<u8>>
    decreases rs.len(),
{
    if rs.len() == 0 {
        Seq::empty()
    } else if task::key_seq(rs.last().key) is Some {
        numbered(rs.drop_last()).push(rs.last().key)
    } else {
        numbered(rs.drop_last())
    }
}

/// What acknowledging everything up to a number gives.
pub open spec fn cumulative(
    tenant: Seq<char>,
    fam: Families,
    up_to: u64,
    scan: ScanView,
) -> Result<(nat, Option<BatchView>), Fault> {
    let n = reach(scan.records, up_to);
    if !fam.inflight {
        Err(Fault::ColumnFamilyMissing(tenant::inflight_name(tenant)))
    } else if n == scan.records.len() && scan.failure is Some {
        Err(Fault::Store(scan.failure->0))
    } else {
        let keys = numbered(scan.records.take(n as int));
        Ok(
            (
                keys.len(),
                store::write_if_any(forget_ops(tenant::inflight_name(tenant), keys), false),
            ),
        )
    }
}

/// The first records that are not beyond the number are all reached.
proof fn lemma_reach(rs: Seq<RecordView>, up_to: u64, i: int)
    requires
        0 <= i <= rs.len(),
        forall|j: int| 0 <= j < i ==> !beyond((#[trigger] rs[j]).key, up_to),
    ensures
        reach(rs, up_to) == i + reach(rs.skip(i), up_to),
    decreases i,
{
    if i == 0 {
        assert(rs.skip(0) =~= rs);
    } else {
        let rest = rs.drop_first();
        assert(!beyond(rs[0].key, up_to));
        assert forall|j: int| 0 <= j < i - 1 implies !beyond((#[trigger] rest[j]).key, up_to) by {
            assert(rest[j] == rs[j + 1]);
        }
        lemma_reach(rest, up_to, i - 1);
        assert(rest.skip(i - 1) =~= rs.skip(i));
    }
}

impl TenantRegistry {
    /// Acknowledges a leased task; `present` says whether its key is there.
    /// The outcome says the same: acknowledging twice is no error.
    pub fn ack(tenant: &str, key: &[u8], fam: &Families, present: bool) -> (r: Result<
        (bool, Batch),
        QueueError,
    >)
        ensures
            match r {
                Ok((done, batch)) => {
                    &&& fam.inflight
                    &&& done == present
                    &&& batch@ == (BatchView {
                        ops: seq![OpView::Delete { cf: tenant::inflight_name(tenant@), key: key@ }],
                        sync: false,
                    })
                },
                Err(e) => !fam.inflight && e@ == Fault::ColumnFamilyMissing(
                    tenant::inflight_name(tenant@),
                ),
            },
    {
        let inflight = match fam.inflight_cf(tenant) {
            Ok(name) => name,
            Err(e) => return Err(e),
        };
        let mut batch = Batch::hot();
        batch.delete(inflight.as_str(), key);
        assert(batch@.ops =~= seq![OpView::Delete { cf: inflight@, key: key@ }]);
        Ok((present, batch))
    }

    /// Acknowledges leased tasks and gives the number of keys, whether they
    /// were there or not.
    pub fn ack_batch(tenant: &str, keys: &Vec<Vec<u8>>, fam: &Families) -> (r: Result<
        (usize, Option<Batch>),
        QueueError,
    >)
        ensures
            match r {
                Ok((n, batch)) => {
                    &&& fam.inflight
                    &&& n == keys@.len()
                    &&& store::batch_view(batch) == store::write_if_any(
                        forget_ops(
                            tenant::inflight_name(tenant@),
                            enqueue::byte_strings(keys@),
                        ),
                        false,
                    )
                },
                Err(e) => !fam.inflight && e@ == Fault::ColumnFamilyMissing(
                    tenant::inflight_name(tenant@),
                ),
            },
    {
        let inflight = match fam.inflight_cf(tenant) {
            Ok(name) => name,
            Err(e) => return Err(e),
        };
        let ghost ks = enqueue::byte_strings(keys@);
        let mut batch = Batch::hot();
        let mut i: usize = 0;
        assert(forget_ops(inflight@, ks.take(0)) =~= Seq::<OpView>::empty());
        while i < keys.len()
            invariant
                0 <= i <= keys@.len(),
                ks == enqueue::byte_strings(keys@),
                batch@ == (BatchView {
                    ops: forget_ops(inflight@, ks.take(i as int)),
                    sync: false,
                }),
            decreases keys@.len() - i,
        {
            batch.delete(inflight.as_str(), keys[i].as_slice());
            assert(ks[i as int] == keys@[i as int]@);
            assert(forget_ops(inflight@, ks.take(i + 1)) =~= forget_ops(
                inflight@,
                ks.take(i as int),
            ).push(OpView::Delete { cf: inflight@, key: ks[i as int] }));
            i = i + 1;
        }
        assert(ks.take(i as int) =~= ks);
        Ok((i, batch.if_any()))
    }

    /// Acknowledges tasks that were leased in place: they and their leases
    /// go.
    pub fn ack_lease_batch_experimental(tenant: &str, keys: &Vec<Vec<u8>>, fam: &Families) -> (r:
        Result<(usize, Option<Batch>), QueueError>)
        ensures
            match r {
                Ok((n, batch)) => {
                    &&& fam.pending && fam.inflight
                    &&& n == keys@.len()
                    &&& store::batch_view(batch) == store::write_if_any(
                        forget_twice_ops(
                            tenant::pending_name(tenant@),
                            tenant::inflight_name(tenant@),
                            enqueue::byte_strings(keys@),
                        ),
                        false,
                    )
                },
                Err(e) => if fam.pending {
                    !fam.inflight && e@ == Fault::ColumnFamilyMissing(
                        tenant::inflight_name(tenant@),
                    )
                } else {
                    e@ == Fault::ColumnFamilyMissing(tenant::pending_name(tenant@))
                },
            },
    {
        let pending = match fam.pending_cf(tenant) {
            Ok(name) => name,
            Err(e) => return Err(e),
        };
        let inflight = match fam.inflight_cf(tenant) {
            Ok(name) => name,
            Err(e) => return Err(e),
        };
        let ghost ks = enqueue::byte_strings(keys@);
        let mut batch = Batch::hot();
        let mut i: usize = 0;
        assert(ks.take(0) =~= Seq::<Seq<u8>>::empty());
        while i < keys.len()
            invariant
                0 <= i <= keys@.len(),
                ks == enqueue::byte_strings(keys@),
                batch@ == (BatchView {
                    ops: forget_twice_ops(pending@, inflight@, ks.take(i as int)),
                    sync: false,
                }),
            decreases keys@.len() - i,
        {
            let ghost before = batch@.ops;
            batch.delete(pending.as_str(), keys[i].as_slice());
            batch.delete(inflight.as_str(), keys[i].as_slice());
            assert(ks[i as int] == keys@[i as int]@);
            assert(ks.take(i + 1).drop_last() =~= ks.take(i as int));
            assert(ks.take(i + 1).last() == ks[i as int]);
            assert(batch@.ops =~= before + seq![
                OpView::Delete { cf: pending@, key: ks[i as int] },
                OpView::Delete { cf: inflight@, key: ks[i as int] },
            ]);
            i = i + 1;
        }
        assert(ks.take(i as int) =~= ks);
        Ok((i, batch.if_any()))
    }

    /// Gives a leased task back; `found` is what is stored under its key. A
    /// key that is not there is no error, and nothing is written for it.
    pub fn nack(
        &mut self,
        tenant: &str,
        key: &[u8],
        fam: &Families,
        found: Option<Vec<u8>>,
        now: u64,
    ) -> (r: Result<Option<Batch>, QueueError>)
        ensures
            old(self).wf() ==> final(self).wf(),
            ({
                let value = match found {
                    None => None::<Seq<u8>>,
                    Some(v) => Some(v@),
                };
                let want = nacked(tenant@, key@, *fam, value, old(self)@.seq, now);
                match r {
                    Ok(b) => {
                        &&& want == Ok::<Option<BatchView>, Fault>(store::batch_view(b))
                        &&& final(self)@ == (if value is Some && retries(value->0) {
                            RegistryView { seq: old(self)@.seq.wrapping_add(1), ..old(self)@ }
                        } else {
                            old(self)@
                        })
                    },
                    Err(e) => {
                        &&& want == Err::<Option<BatchView>, Fault>(e@)
                        &&& final(self)@ == old(self)@
                    },
                }
            }),
    {
        let pending = match fam.pending_cf(tenant) {
            Ok(name) => name,
            Err(e) => return Err(e),
        };
        let inflight = match fam.inflight_cf(tenant) {
            Ok(name) => name,
            Err(e) => return Err(e),
        };
        let dlq = match fam.dlq_cf(tenant) {
            Ok(name) => name,
            Err(e) => return Err(e),
        };
        let value = match found {
            None => return Ok(None),
            Some(v) => v,
        };
        let ghost want = nack_ops(tenant@, key@, value@, self@.seq, now);
        let mut batch = Batch::hot();
        batch.delete(inflight.as_str(), key);
        match Task::deserialize(value.as_slice()) {
            Err(_) => {
                let n: usize = key_name_len(key);
                proof {
                    task::lemma_name_len(key@);
                }
                let name = slice_subrange(key, 0, n);
                assert(name@ =~= key@.take(n as int));
                let queue = text::text_of_bytes(name);
                let envelope = Task::poison(queue.as_str(), value.as_slice(), now);
                let kept = match envelope.serialize() {
                    Ok(v) => v,
                    Err(e) => return Err(e),
                };
                batch.put(dlq.as_str(), key, kept);
            },
            Ok(task) => {
                if task.attempts >= MAX_ATTEMPTS {
                    batch.put(dlq.as_str(), key, value);
                } else {
                    let mut retry = task;
                    retry.deadline = 0;
                    let seq: u64 = self.next_seq();
                    let new_key = encode_key(retry.queue.as_str(), seq);
                    let new_value = match retry.serialize() {
                        Ok(v) => v,
                        Err(e) => return Err(e),
                    };
                    batch.put(pending.as_str(), new_key.as_slice(), new_value);
                }
            },
        }
        assert(batch@.ops =~= want);
        Ok(Some(batch))
    }

    /// Acknowledges the leased tasks of a queue whose numbers are at most
    /// `up_to_seq`, on what a scan of its leased records gave, and gives their
    /// number. Keys without a number are passed over.
    pub fn cumulative_ack(tenant: &str, up_to_seq: u64, fam: &Families, scan: &Scan) -> (r: Result<
        (usize, Option<Batch>),
        QueueError,
    >)
        ensures
            match r {
                Ok((n, batch)) => cumulative(tenant@, *fam, up_to_seq, scan@) == Ok::<
                    (nat, Option<BatchView>),
                    Fault,
                >((n as nat, store::batch_view(batch))),
                Err(e) => cumulative(tenant@, *fam, up_to_seq, scan@) == Err::<
                    (nat, Option<BatchView>),
                    Fault,
                >(e@),
            },
    {
        let inflight = match fam.inflight_cf(tenant) {
            Ok(name) => name,
            Err(e) => return Err(e),
        };
        let ghost rs = scan@.records;
        let mut batch = Batch::hot();
        let mut count: usize = 0;
        let mut i: usize = 0;
        let mut stopped = false;
        assert(rs.take(0) =~= Seq::<RecordView>::empty());
        assert(forget_ops(inflight@, Seq::empty()) =~= Seq::<OpView>::empty());
        while i < scan.records.len() && !stopped
            invariant
                0 <= i <= scan.records@.len(),
                rs == scan@.records,
                count <= i,
                count == numbered(rs.take(i as int)).len(),
                forall|j: int| 0 <= j < i ==> !beyond((#[trigger] rs[j]).key, up_to_seq),
                stopped ==> i < rs.len() && beyond(rs[i as int].key, up_to_seq),
                batch@ == (BatchView {
                    ops: forget_ops(inflight@, numbered(rs.take(i as int))),
                    sync: false,
                }),
            decreases scan.records@.len() - i + (if stopped { 0int } else { 1 }),
        {
            let record = &scan.records[i];
            assert(record@ == rs[i as int]);
            assert(rs.take(i + 1).drop_last() =~= rs.take(i as int));
            assert(rs.take(i + 1).last() == rs[i as int]);
            match decode_key_seq(record.key.as_slice()) {
                Some(seq) => {
                    if seq > up_to_seq {
                        stopped = true;
                    } else {
                        let ghost before = numbered(rs.take(i as int));
                        batch.delete(inflight.as_str(), record.key.as_slice());
                        assert(forget_ops(inflight@, before.push(record.key@)) =~= forget_ops(
                            inflight@,
                            before,
                        ).push(OpView::Delete { cf: inflight@, key: record.key@ }));
                        count = count + 1;
                        i = i + 1;
                    }
                },
                None => {
                    i = i + 1;
                },
            }
        }
        proof {
            lemma_reach(rs, up_to_seq, i as int);
            if i < rs.len() {
                assert(rs.skip(i as int)[0] == rs[i as int]);
            } else {
                assert(rs.skip(i as int).len() == 0);
            }
        }
        if !stopped {
            if let Some(reason) = &scan.failure {
                return Err(QueueError::RocksDB(reason.clone()));
            }
        }
        Ok((count, batch.if_any()))
    }
}

} // verus!
