//! Handing waiting tasks to workers.

use vstd::prelude::*;

use crate::error::{Fault, QueueError};
use crate::keys;
use crate::store;
use crate::store::{Batch, BatchView, OpView, Record, RecordView, Scan, ScanView};
use crate::task;
use crate::task::{Task, TaskView};
use crate::tenant;
use crate::tenant::{
    Families, Leased, LeasedView, TenantRegistry, DEFAULT_VISIBILITY_TIMEOUT_MS,
};

verus! {

/// Tasks handed out, and the writes that lease them.
pub struct Dequeued {
    pub tasks: Vec<Leased>,
    pub batch: Option<Batch>,
}

/// The outcome of a dequeue as a mathematical value.
#[verifier::ext_equal]
pub struct DequeuedView {
    pub tasks: Seq<LeasedView>,
    pub batch: Option<BatchView>,
}

impl View for Dequeued {
    type V = DequeuedView;

    open spec fn view(&self) -> DequeuedView {
        DequeuedView {
            tasks: tenant::leased_view(self.tasks@),
            batch: store::batch_view(self.batch),
        }
    }
}

/// The circumstances of a dequeue: whose queue, when, and until when the
/// tasks are leased.
pub struct Lease {
    pub tenant: Seq<char>,
    pub queue: Seq<char>,
    pub now: u64,
    pub deadline: u64,
}

/// The end of a lease that begins at `now`; no lease ends after the last
/// moment that can be written down.
pub open spec fn lease_end(now: u64, timeout_ms: u64) -> u64 {
    if now + timeout_ms > u64::MAX {
        u64::MAX
    } else {
        (now + timeout_ms) as u64
    }
}

/// A task once it is handed out: one more attempt, and a deadline.
pub open spec fn leased_task(t: TaskView, deadline: u64) -> TaskView {
    TaskView { attempts: (t.attempts + 1) as u32, deadline, ..t }
}

/// The changes for one waiting record: a task moves to the leased ones, bytes
/// that are no task move, in an envelope, to the dead letters.
pub open spec fn take_ops(l: Lease, r: RecordView) -> Seq<OpView> {
    let gone = OpView::Delete { cf: tenant::pending_name(l.tenant), key: r.key };
    match task::read_task(r.value) {
        None => seq![
            gone,
            OpView::Put {
                cf: tenant::dlq_name(l.tenant),
                key: r.key,
                value: task::task_code(task::poison_view(l.queue, r.value, l.now)),
            },
        ],
        Some(t) => seq![
            gone,
            OpView::Put {
                cf: tenant::inflight_name(l.tenant),
                key: r.key,
                value: task::task_code(leased_task(t, l.deadline)),
            },
        ],
    }
}

/// The changes for waiting records, in their order.
pub open spec fn take_all_ops(l: Lease, rs: Seq<RecordView>) -> Seq<OpView>
    decreases rs.len(),
{
    if rs.len() == 0 {
        Seq::empty()
    } else {
        take_all_ops(l, rs.drop_last()) + take_ops(l, rs.last())
    }
}

/// The tasks among waiting records, as they are handed out, in their order.
pub open spec fn taken(l: Lease, rs: Seq<RecordView>) -> Seq<LeasedView>
    decreases rs.len(),
{
    if rs.len() == 0 {
        Seq::empty()
    } else {
        match task::read_task(rs.last().value) {
            None => taken(l, rs.drop_last()),
            Some(t) => taken(l, rs.drop_last()).push((rs.last().key, leased_task(t, l.deadline))),
        }
    }
}

/// The smaller of two numbers.
pub open spec fn least(a: nat, b: nat) -> nat {
    if a <= b {
        a
    } else {
        b
    }
}

/// Nothing handed out, nothing written.
pub open spec fn nothing_taken() -> DequeuedView {
    DequeuedView { tasks: Seq::empty(), batch: None }
}

/// What a dequeue of at most `limit` records gives on what was read. Records
/// beyond the limit are not looked at.
pub open spec fn dequeued(l: Lease, fam: Families, limit: nat, scan: ScanView) -> Result<
    DequeuedView,
    Fault,
> {
    if limit == 0 {
        Ok(nothing_taken())
    } else if !fam.pending {
        Err(Fault::ColumnFamilyMissing(tenant::pending_name(l.tenant)))
    } else if !fam.inflight {
        Err(Fault::ColumnFamilyMissing(tenant::inflight_name(l.tenant)))
    } else if !fam.dlq {
        Err(Fault::ColumnFamilyMissing(tenant::dlq_name(l.tenant)))
    } else if scan.records.len() < limit && scan.failure is Some {
        Err(Fault::Store(scan.failure->0))
    } else {
        let rs = scan.records.take(least(limit, scan.records.len()) as int);
        Ok(
            DequeuedView {
                tasks: taken(l, rs),
                batch: store::write_if_any(take_all_ops(l, rs), false),
            },
        )
    }
}

/// The attempts of each task among the first `n` records can still be
/// counted up.
pub open spec fn countable(rs: Seq<RecordView>, n: nat) -> bool {
    forall|i: int|
        0 <= i < rs.len() && i < n ==> match task::read_task((#[trigger] rs[i]).value) {
            None => true,
            Some(t) => t.attempts < u32::MAX,
        }
}

/// Whether the attempts of each task among the first `n` records can still be
/// counted up.
pub fn attempts_countable(records: &Vec<Record>, n: usize) -> (r: bool)
    ensures
        r == countable(records@.map_values(|r: Record| r@), n as nat),
{
    let ghost views = records@.map_values(|r: Record| r@);
    let mut i: usize = 0;
    while i < records.len() && i < n
        invariant
            views == records@.map_values(|r: Record| r@),
            0 <= i <= records@.len(),
            i <= n,
            countable(views, i as nat),
        decreases records@.len() - i,
    {
        assert(views[i as int].value == records@[i as int].value@);
        if let Ok(t) = Task::deserialize(records[i].value.as_slice()) {
            if t.attempts == u32::MAX {
                return false;
            }
        }
        i = i + 1;
    }
    true
}

impl TenantRegistry {
    /// Hands out at most `limit` waiting tasks of a queue for the usual time.
    pub fn dequeue(
        tenant: &str,
        queue: &str,
        limit: usize,
        fam: &Families,
        now: u64,
        scan: &Scan,
    ) -> (r: Result<Dequeued, QueueError>)
        requires
            countable(scan@.records, limit as nat),
        ensures
            ({
                let l = Lease {
                    tenant: tenant@,
                    queue: queue@,
                    now,
                    deadline: lease_end(now, DEFAULT_VISIBILITY_TIMEOUT_MS),
                };
                match r {
                    Ok(d) => dequeued(l, *fam, limit as nat, scan@) == Ok::<DequeuedView, Fault>(
                        d@,
                    ),
                    Err(e) => dequeued(l, *fam, limit as nat, scan@) == Err::<
                        DequeuedView,
                        Fault,
                    >(e@),
                }
            }),
    {
        TenantRegistry::dequeue_batch(
            tenant,
            queue,
            limit,
            DEFAULT_VISIBILITY_TIMEOUT_MS,
            fam,
            now,
            scan,
        )
    }

    /// Hands out at most `limit` waiting tasks of a queue, on what a scan of
    /// its waiting records gave. A record that is no task goes to the dead
    /// letters instead, and the records behind it are handed out all the same.
    pub fn dequeue_batch(
        tenant: &str,
        queue: &str,
        limit: usize,
        visibility_timeout_ms: u64,
        fam: &Families,
        now: u64,
        scan: &Scan,
    ) -> (r: Result<Dequeued, QueueError>)
        requires
            countable(scan@.records, limit as nat),
        ensures
            ({
                let l = Lease {
                    tenant: tenant@,
                    queue: queue@,
                    now,
                    deadline: lease_end(now, visibility_timeout_ms),
                };
                match r {
                    Ok(d) => dequeued(l, *fam, limit as nat, scan@) == Ok::<DequeuedView, Fault>(
                        d@,
                    ),
                    Err(e) => dequeued(l, *fam, limit as nat, scan@) == Err::<
                        DequeuedView,
                        Fault,
                    >(e@),
                }
            }),
    {
        if limit == 0 {
            let d = Dequeued { tasks: Vec::new(), batch: None };
            assert(d@ =~= nothing_taken());
            return Ok(d);
        }
        let pending = match fam.pending_cf(tenant) {
            Ok(name) => name,
            Err(e) => return Err(e),
        };
        let inflight = match fam.inflight_cf(tenant) {
            Ok(name) => name,
            Err(e) => return Err(e),
        };
        let dlq = match fam.dlq_cf(tenant) {
            Ok(name) => name,
            Err(e) => return Err(e),
        };
        let deadline: u64 = now.saturating_add(visibility_timeout_ms);
        let ghost l = Lease { tenant: tenant@, queue: queue@, now, deadline };
        let total: usize = scan.records.len();
        if total < limit {
            if let Some(reason) = &scan.failure {
                return Err(QueueError::RocksDB(reason.clone()));
            }
        }
        let n: usize = if limit <= total {
            limit
        } else {
            total
        };
        let ghost rs = scan@.records;
        let mut tasks: Vec<Leased> = Vec::new();
        let mut batch = Batch::hot();
        let mut i: usize = 0;
        assert(rs.take(0) =~= Seq::<RecordView>::empty());
        assert(tenant::leased_view(tasks@) =~= Seq::<LeasedView>::empty());
        while i < n
            invariant
                0 <= i <= n <= total,
                total == scan.records@.len(),
                n <= limit,
                rs == scan@.records,
                countable(rs, limit as nat),
                l == (Lease { tenant: tenant@, queue: queue@, now, deadline }),
                pending@ == tenant::pending_name(l.tenant),
                inflight@ == tenant::inflight_name(l.tenant),
                dlq@ == tenant::dlq_name(l.tenant),
                batch@ == (BatchView { ops: take_all_ops(l, rs.take(i as int)), sync: false }),
                tenant::leased_view(tasks@) == taken(l, rs.take(i as int)),
            decreases n - i,
        {
            let record = &scan.records[i];
            let ghost r = rs[i as int];
            assert(r == record@);
            assert(rs.take(i + 1).drop_last() =~= rs.take(i as int));
            assert(rs.take(i + 1).last() == r);
            let ghost ops = batch@.ops;
            let ghost before = tenant::leased_view(tasks@);
            match Task::deserialize(record.value.as_slice()) {
                Err(_) => {
                    let envelope = Task::poison(queue, record.value.as_slice(), now);
                    let value = match envelope.serialize() {
                        Ok(v) => v,
                        Err(e) => return Err(e),
                    };
                    batch.delete(pending.as_str(), record.key.as_slice());
                    batch.put(dlq.as_str(), record.key.as_slice(), value);
                    assert(batch@.ops =~= ops + take_ops(l, r));
                },
                Ok(found) => {
                    assert(task::read_task(rs[i as int].value) is Some);
                    let mut task = found;
                    task.attempts = task.attempts + 1;
                    task.deadline = deadline;
                    let value = match task.serialize() {
                        Ok(v) => v,
                        Err(e) => return Err(e),
                    };
                    batch.delete(pending.as_str(), record.key.as_slice());
                    batch.put(inflight.as_str(), record.key.as_slice(), value);
                    assert(batch@.ops =~= ops + take_ops(l, r));
                    tasks.push((record.key.clone(), task));
                    assert(tenant::leased_view(tasks@) =~= before.push((r.key, task@)));
                },
            }
            i = i + 1;
        }
        let d = Dequeued { tasks, batch: batch.if_any() };
        Ok(d)
    }

    /// Hands out waiting tasks so that no more than `max_inflight` are leased;
    /// `leased` says how many are. The scan is looked at only where there is
    /// room.
    pub fn dequeue_with_max_inflight(
        tenant: &str,
        queue: &str,
        limit: usize,
        visibility_timeout_ms: u64,
        max_inflight: usize,
        fam: &Families,
        leased: &Scan,
        now: u64,
        scan: &Scan,
    ) -> (r: Result<Dequeued, QueueError>)
        requires
            countable(
                scan@.records,
                room_within(limit as nat, max_inflight as nat, leased@.records.len()),
            ),
        ensures
            ({
                let l = Lease {
                    tenant: tenant@,
                    queue: queue@,
                    now,
                    deadline: lease_end(now, visibility_timeout_ms),
                };
                let want = dequeued_within(l, *fam, limit as nat, max_inflight as nat, leased@, scan@);
                match r {
                    Ok(d) => want == Ok::<DequeuedView, Fault>(d@),
                    Err(e) => want == Err::<DequeuedView, Fault>(e@),
                }
            }),
    {
        let none = Dequeued { tasks: Vec::new(), batch: None };
        assert(none@ =~= nothing_taken());
        if max_inflight == 0 {
            return Ok(none);
        }
        let inflight: usize = match TenantRegistry::count_inflight(tenant, fam, leased) {
            Ok(n) => n,
            Err(e) => return Err(e),
        };
        if inflight >= max_inflight {
            return Ok(none);
        }
        let room: usize = max_inflight - inflight;
        let n: usize = if limit <= room {
            limit
        } else {
            room
        };
        TenantRegistry::dequeue_batch(tenant, queue, n, visibility_timeout_ms, fam, now, scan)
    }

    /// How many tasks of a queue are leased.
    pub fn count_inflight(tenant: &str, fam: &Families, leased: &Scan) -> (r: Result<
        usize,
        QueueError,
    >)
        ensures
            match r {
                Ok(n) => fam.inflight && leased@.failure is None && n == leased@.records.len(),
                Err(e) => if fam.inflight {
                    leased@.failure matches Some(s) && e@ == Fault::Store(s)
                } else {
                    e@ == Fault::ColumnFamilyMissing(tenant::inflight_name(tenant@))
                },
            },
    {
        match fam.inflight_cf(tenant) {
            Ok(_) => {},
            Err(e) => return Err(e),
        }
        TenantRegistry::count_prefix(leased)
    }

    /// How many records a scan met.
    pub fn count_prefix(scan: &Scan) -> (r: Result<usize, QueueError>)
        ensures
            match r {
                Ok(n) => scan@.failure is None && n == scan@.records.len(),
                Err(e) => scan@.failure matches Some(s) && e@ == Fault::Store(s),
            },
    {
        match &scan.failure {
            Some(reason) => Err(QueueError::RocksDB(reason.clone())),
            None => Ok(scan.records.len()),
        }
    }
}

/// How many records a dequeue may take where `leased` are out already.
pub open spec fn room_within(limit: nat, max_inflight: nat, leased: nat) -> nat {
    if leased >= max_inflight {
        0
    } else {
        least(limit, (max_inflight - leased) as nat)
    }
}

/// What a dequeue with a bound on leases gives.
pub open spec fn dequeued_within(
    l: Lease,
    fam: Families,
    limit: nat,
    max_inflight: nat,
    leased: ScanView,
    scan: ScanView,
) -> Result<DequeuedView, Fault> {
    if max_inflight == 0 {
        Ok(nothing_taken())
    } else if !fam.inflight {
        Err(Fault::ColumnFamilyMissing(tenant::inflight_name(l.tenant)))
    } else if leased.failure is Some {
        Err(Fault::Store(leased.failure->0))
    } else {
        dequeued(l, fam, room_within(limit, max_inflight, leased.records.len()), scan)
    }
}

/// A waiting record, and whether it is leased already.
pub struct Candidate {
    pub record: Record,
    pub held: bool,
}

/// Waiting records read one after the other, each with whether it is leased,
/// and the error that ended the reading, if there was one.
pub struct Candidates {
    pub items: Vec<Candidate>,
    pub failure: Option<String>,
}

/// A waiting record with its state, as a mathematical value.
#[verifier::ext_equal]
pub struct CandidateView {
    pub record: RecordView,
    pub held: bool,
}

/// Waiting records as mathematical values.
pub open spec fn candidates_view(items: Seq<Candidate>) -> Seq<CandidateView> {
    items.map_values(|c: Candidate| CandidateView { record: c.record@, held: c.held })
}

/// The stored form of a lease: the attempts and the deadline, most significant
/// bytes first.
pub open spec fn lease_code(attempts: u32, deadline: u64) -> Seq<u8> {
    keys::be_bytes(attempts as nat, 4) + keys::be_bytes(deadline as nat, 8)
}

/// The tasks leased in place among the candidates: those not leased yet, in
/// their order, until `limit` are; an error as soon as one is no task.
pub open spec fn leased_in_place(l: Lease, limit: nat, cs: Seq<CandidateView>) -> Result<
    Seq<LeasedView>,
    Fault,
>
    decreases cs.len(),
{
    if cs.len() == 0 {
        Ok(Seq::empty())
    } else {
        match leased_in_place(l, limit, cs.drop_last()) {
            Err(e) => Err(e),
            Ok(ts) => if ts.len() >= limit || cs.last().held {
                Ok(ts)
            } else {
                match task::read_task(cs.last().record.value) {
                    None => Err(Fault::Serialization),
                    Some(t) => Ok(ts.push((cs.last().record.key, leased_task(t, l.deadline)))),
                }
            },
        }
    }
}

/// The writes for tasks leased in place.
pub open spec fn lease_ops(l: Lease, ts: Seq<LeasedView>) -> Seq<OpView> {
    ts.map_values(
        |t: LeasedView|
            OpView::Put {
                cf: tenant::inflight_name(l.tenant),
                key: t.0,
                value: lease_code(t.1.attempts, t.1.deadline),
            },
    )
}

/// What leasing in place gives on what was read.
pub open spec fn lease_outcome(
    l: Lease,
    fam: Families,
    limit: nat,
    cs: Seq<CandidateView>,
    failure: Option<Seq<char>>,
) -> Result<DequeuedView, Fault> {
    if limit == 0 {
        Ok(nothing_taken())
    } else if !fam.pending {
        Err(Fault::ColumnFamilyMissing(tenant::pending_name(l.tenant)))
    } else if !fam.inflight {
        Err(Fault::ColumnFamilyMissing(tenant::inflight_name(l.tenant)))
    } else {
        match leased_in_place(l, limit, cs) {
            Err(e) => Err(e),
            Ok(ts) => if ts.len() < limit && failure is Some {
                Err(Fault::Store(failure->0))
            } else {
                Ok(
                    DequeuedView {
                        tasks: ts,
                        batch: store::write_if_any(lease_ops(l, ts), false),
                    },
                )
            },
        }
    }
}

/// The attempts of each task that is leased in place can be counted up.
pub open spec fn lease_countable(l: Lease, limit: nat, cs: Seq<CandidateView>) -> bool {
    forall|i: int|
        0 <= i < cs.len() ==> match leased_in_place(l, limit, #[trigger] cs.take(i)) {
            Err(_) => true,
            Ok(ts) => ts.len() >= limit || cs[i].held || match task::read_task(
                cs[i].record.value,
            ) {
                None => true,
                Some(t) => t.attempts < u32::MAX,
            },
        }
}

/// Once leasing in place has failed or has leased enough, it stays so.
proof fn lemma_lease_settled(l: Lease, limit: nat, cs: Seq<CandidateView>, i: int)
    requires
        0 <= i <= cs.len(),
        match leased_in_place(l, limit, cs.take(i)) {
            Err(_) => true,
            Ok(ts) => ts.len() >= limit,
        },
    ensures
        leased_in_place(l, limit, cs) == leased_in_place(l, limit, cs.take(i)),
    decreases cs.len() - i,
{
    if i < cs.len() {
        assert(cs.take(i + 1).drop_last() =~= cs.take(i));
        lemma_lease_settled(l, limit, cs, i + 1);
    } else {
        assert(cs.take(i) =~= cs);
    }
}

/// The four bytes of a number, most significant first.
fn push_be_u32(out: &mut Vec<u8>, x: u32)
    ensures
        final(out)@ == old(out)@ + keys::be_bytes(x as nat, 4),
{
    out.push((x / 0x100_0000) as u8);
    out.push(((x / 0x1_0000) % 256) as u8);
    out.push(((x / 0x100) % 256) as u8);
    out.push((x % 256) as u8);
    proof {
        reveal_with_fuel(keys::be_bytes, 5);
        assert(out@ =~= old(out)@ + keys::be_bytes(x as nat, 4));
    }
}

impl TenantRegistry {
    /// Leases at most `limit` waiting tasks of a queue that are not leased
    /// yet, and leaves them where they are: only a short lease record is
    /// written for each.
    pub fn dequeue_lease_batch_experimental(
        tenant: &str,
        queue: &str,
        limit: usize,
        visibility_timeout_ms: u64,
        fam: &Families,
        now: u64,
        candidates: &Candidates,
    ) -> (r: Result<Dequeued, QueueError>)
        requires
            lease_countable(
                (Lease {
                    tenant: tenant@,
                    queue: queue@,
                    now,
                    deadline: lease_end(now, visibility_timeout_ms),
                }),
                limit as nat,
                candidates_view(candidates.items@),
            ),
        ensures
            ({
                let l = Lease {
                    tenant: tenant@,
                    queue: queue@,
                    now,
                    deadline: lease_end(now, visibility_timeout_ms),
                };
                let want = lease_outcome(
                    l,
                    *fam,
                    limit as nat,
                    candidates_view(candidates.items@),
                    store::text_view(candidates.failure),
                );
                match r {
                    Ok(d) => want == Ok::<DequeuedView, Fault>(d@),
                    Err(e) => want == Err::<DequeuedView, Fault>(e@),
                }
            }),
    {
        if limit == 0 {
            let d = Dequeued { tasks: Vec::new(), batch: None };
            assert(d@ =~= nothing_taken());
            return Ok(d);
        }
        let _pending = match fam.pending_cf(tenant) {
            Ok(name) => name,
            Err(e) => return Err(e),
        };
        let inflight = match fam.inflight_cf(tenant) {
            Ok(name) => name,
            Err(e) => return Err(e),
        };
        let deadline: u64 = now.saturating_add(visibility_timeout_ms);
        let ghost l = Lease { tenant: tenant@, queue: queue@, now, deadline };
        let ghost cs = candidates_view(candidates.items@);
        let mut tasks: Vec<Leased> = Vec::new();
        let mut batch = Batch::hot();
        let mut i: usize = 0;
        assert(cs.take(0) =~= Seq::<CandidateView>::empty());
        assert(tenant::leased_view(tasks@) =~= Seq::<LeasedView>::empty());
        assert(lease_ops(l, Seq::empty()) =~= Seq::<OpView>::empty());
        while i < candidates.items.len() && tasks.len() < limit
            invariant
                0 <= i <= candidates.items@.len(),
                tasks@.len() <= limit,
                cs == candidates_view(candidates.items@),
                l == (Lease { tenant: tenant@, queue: queue@, now, deadline }),
                lease_countable(l, limit as nat, cs),
                inflight@ == tenant::inflight_name(l.tenant),
                batch@ == (BatchView {
                    ops: lease_ops(l, tenant::leased_view(tasks@)),
                    sync: false,
                }),
                leased_in_place(l, limit as nat, cs.take(i as int)) == Ok::<
                    Seq<LeasedView>,
                    Fault,
                >(tenant::leased_view(tasks@)),
                fam.pending,
                fam.inflight,
                limit > 0,
                deadline == lease_end(now, visibility_timeout_ms),
            decreases candidates.items@.len() - i,
        {
            let candidate = &candidates.items[i];
            let ghost c = cs[i as int];
            assert(c == (CandidateView { record: candidate.record@, held: candidate.held }));
            assert(cs.take(i + 1).drop_last() =~= cs.take(i as int));
            assert(cs.take(i + 1).last() == c);
            if !candidate.held {
                let found = match Task::deserialize(candidate.record.value.as_slice()) {
                    Ok(t) => t,
                    Err(e) => {
                        proof {
                            lemma_lease_settled(l, limit as nat, cs, i + 1);
                        }
                        return Err(e);
                    },
                };
                let mut task = found;
                task.attempts = task.attempts + 1;
                task.deadline = deadline;
                let mut lease: Vec<u8> = Vec::new();
                push_be_u32(&mut lease, task.attempts);
                task::push_be_u64(&mut lease, deadline);
                assert(lease@ =~= lease_code(task.attempts, deadline));
                batch.put(inflight.as_str(), candidate.record.key.as_slice(), lease);
                let ghost before = tenant::leased_view(tasks@);
                tasks.push((candidate.record.key.clone(), task));
                assert(tenant::leased_view(tasks@) =~= before.push((c.record.key, task@)));
                assert(lease_ops(l, tenant::leased_view(tasks@)) =~= lease_ops(l, before).push(
                    OpView::Put {
                        cf: inflight@,
                        key: c.record.key,
                        value: lease_code(task.attempts, deadline),
                    },
                ));
            }
            i = i + 1;
        }
        proof {
            if tasks@.len() >= limit {
                lemma_lease_settled(l, limit as nat, cs, i as int);
            } else {
                assert(cs.take(i as int) =~= cs);
            }
        }
        if tasks.len() < limit {
            if let Some(reason) = &candidates.failure {
                return Err(QueueError::RocksDB(reason.clone()));
            }
        }
        Ok(Dequeued { tasks, batch: batch.if_any() })
    }

    /// Whether the attempts of each task that would be leased in place can be
    /// counted up.
    pub fn leases_countable(
        tenant: &str,
        queue: &str,
        limit: usize,
        visibility_timeout_ms: u64,
        now: u64,
        candidates: &Candidates,
    ) -> (r: bool)
        ensures
            r == lease_countable(
                (Lease {
                    tenant: tenant@,
                    queue: queue@,
                    now,
                    deadline: lease_end(now, visibility_timeout_ms),
                }),
                limit as nat,
                candidates_view(candidates.items@),
            ),
    {
        let ghost l = Lease {
            tenant: tenant@,
            queue: queue@,
            now,
            deadline: lease_end(now, visibility_timeout_ms),
        };
        let ghost cs = candidates_view(candidates.items@);
        let mut count: usize = 0;
        let mut i: usize = 0;
        assert(cs.take(0) =~= Seq::<CandidateView>::empty());
        while i < candidates.items.len()
            invariant
                0 <= i <= candidates.items@.len(),
                count <= i,
                cs == candidates_view(candidates.items@),
                l == (Lease {
                    tenant: tenant@,
                    queue: queue@,
                    now,
                    deadline: lease_end(now, visibility_timeout_ms),
                }),
                leased_in_place(l, limit as nat, cs.take(i as int)) is Ok,
                leased_in_place(l, limit as nat, cs.take(i as int))->Ok_0.len() == count,
                forall|j: int|
                    0 <= j < i ==> match leased_in_place(l, limit as nat, #[trigger] cs.take(j)) {
                        Err(_) => true,
                        Ok(ts) => ts.len() >= limit || cs[j].held || match task::read_task(
                            cs[j].record.value,
                        ) {
                            None => true,
                            Some(t) => t.attempts < u32::MAX,
                        },
                    },
            decreases candidates.items@.len() - i,
        {
            let candidate = &candidates.items[i];
            assert(cs[i as int] == (CandidateView {
                record: candidate.record@,
                held: candidate.held,
            }));
            assert(cs.take(i + 1).drop_last() =~= cs.take(i as int));
            assert(cs.take(i + 1).last() == cs[i as int]);
            if count < limit && !candidate.held {
                match Task::deserialize(candidate.record.value.as_slice()) {
                    Ok(t) => {
                        if t.attempts == u32::MAX {
                            assert(!lease_countable(l, limit as nat, cs)) by {
                                assert(cs.take(i as int) == cs.take(i as int));
                            }
                            return false;
                        }
                        count = count + 1;
                    },
                    Err(_) => {
                        assert forall|j: int| i < j < cs.len() implies leased_in_place(
                            l,
                            limit as nat,
                            #[trigger] cs.take(j),
                        ) is Err by {
                            assert(cs.take(j).take(i + 1) =~= cs.take(i + 1));
                            lemma_lease_settled(l, limit as nat, cs.take(j), i + 1);
                        }
                        return true;
                    },
                }
            }
            i = i + 1;
        }
        true
    }
}

} // verus!
