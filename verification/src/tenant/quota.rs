//! How full a queue is, and what happens when it would be too full.

use vstd::prelude::*;

use crate::error::{Fault, QueueError};
use crate::policy::{BacklogPolicy, NamespacePolicy, PolicyView};
use crate::store;
use crate::store::{Batch, BatchView, OpView, RecordView, Scan, ScanView};
use crate::tenant;
use crate::tenant::dequeue;
use crate::tenant::{Families, TenantRegistry};

verus! {

/// How many records of each family a queue has: waiting, leased, dead.
pub open spec fn depths(
    tenant: Seq<char>,
    fam: Families,
    pending: ScanView,
    inflight: ScanView,
    dlq: ScanView,
) -> Result<(nat, nat, nat), Fault> {
    if !fam.pending {
        Err(Fault::ColumnFamilyMissing(tenant::pending_name(tenant)))
    } else if pending.failure is Some {
        Err(Fault::Store(pending.failure->0))
    } else if !fam.inflight {
        Err(Fault::ColumnFamilyMissing(tenant::inflight_name(tenant)))
    } else if inflight.failure is Some {
        Err(Fault::Store(inflight.failure->0))
    } else if !fam.dlq {
        Err(Fault::ColumnFamilyMissing(tenant::dlq_name(tenant)))
    } else if dlq.failure is Some {
        Err(Fault::Store(dlq.failure->0))
    } else {
        Ok((pending.records.len(), inflight.records.len(), dlq.records.len()))
    }
}

/// What is known when the next step towards admission is decided.
#[derive(Debug, Clone, Copy, PartialEq, Eq, Structural)]
pub enum QuotaEvent {
    /// Nothing was measured yet.
    Begin,
    /// The queue has so many waiting and leased tasks. A producer that waits
    /// for room has a deadline.
    Measured { pending: usize, inflight: usize, deadline: Option<u64> },
}

/// The next step towards the admission of tasks.
#[derive(Debug, Clone, Copy, PartialEq, Eq, Structural)]
pub enum QuotaStep {
    /// The tasks may be added.
    Admit,
    /// The queue is to be measured, after a pause of `pause_ms`.
    Measure { pause_ms: u64, deadline: Option<u64> },
    /// The oldest waiting tasks are to be dropped, so many at most, and then
    /// the tasks may be added.
    Evict { count: usize },
}

/// How long a producer that waits for room pauses between two looks.
pub const QUOTA_POLL_MS: u64 = 50;

/// The refusal of tasks that would exceed the quota.
pub open spec fn quota_fault(
    tenant: Seq<char>,
    queue: Seq<char>,
    current: int,
    quota: usize,
    incoming: usize,
) -> Fault {
    Fault::BacklogQuotaExceeded { tenant, queue, current: current as usize, quota, incoming }
}

/// The next step towards the admission of `incoming` tasks.
pub open spec fn quota_step(
    tenant: Seq<char>,
    queue: Seq<char>,
    policy: PolicyView,
    incoming: usize,
    event: QuotaEvent,
    now: u64,
) -> Result<QuotaStep, Fault> {
    match policy.backlog_quota {
        None => Ok(QuotaStep::Admit),
        Some(quota) => match event {
            QuotaEvent::Begin => Ok(QuotaStep::Measure { pause_ms: 0, deadline: None }),
            QuotaEvent::Measured { pending, inflight, deadline } => {
                let current = pending + inflight;
                let over = current + incoming > quota;
                match policy.backlog_policy {
                    BacklogPolicy::Reject => if over {
                        Err(quota_fault(tenant, queue, current, quota, incoming))
                    } else {
                        Ok(QuotaStep::Admit)
                    },
                    BacklogPolicy::EvictOldest => if over {
                        Ok(QuotaStep::Evict { count: (current + incoming - quota) as usize })
                    } else {
                        Ok(QuotaStep::Admit)
                    },
                    BacklogPolicy::Block { timeout_ms } => match deadline {
                        None => Ok(
                            QuotaStep::Measure {
                                pause_ms: 0,
                                deadline: Some((now + timeout_ms) as u64),
                            },
                        ),
                        Some(end) => if !over {
                            Ok(QuotaStep::Admit)
                        } else if now >= end {
                            Err(quota_fault(tenant, queue, current, quota, incoming))
                        } else {
                            Ok(QuotaStep::Measure { pause_ms: QUOTA_POLL_MS, deadline })
                        },
                    },
                }
            },
        },
    }
}

/// The numbers of a step can be added up.
pub open spec fn quota_fits(
    policy: PolicyView,
    incoming: usize,
    event: QuotaEvent,
    now: u64,
) -> bool {
    policy.backlog_quota is Some ==> (event matches QuotaEvent::Measured {
        pending,
        inflight,
        deadline,
    } ==> {
        &&& pending + inflight + incoming <= usize::MAX
        &&& policy.backlog_policy matches BacklogPolicy::Block { timeout_ms } ==> deadline is None
            ==> now + timeout_ms <= u64::MAX
    })
}

/// The removal of records, in their order.
pub open spec fn delete_ops(cf: Seq<char>, rs: Seq<RecordView>) -> Seq<OpView> {
    rs.map_values(|r: RecordView| OpView::Delete { cf, key: r.key })
}

/// What dropping the oldest `count` waiting records gives.
pub open spec fn evicted(
    tenant: Seq<char>,
    fam: Families,
    count: nat,
    scan: ScanView,
) -> Result<Option<BatchView>, Fault> {
    if !fam.pending {
        Err(Fault::ColumnFamilyMissing(tenant::pending_name(tenant)))
    } else if scan.records.len() < count && scan.failure is Some {
        Err(Fault::Store(scan.failure->0))
    } else {
        let rs = scan.records.take(dequeue::least(count, scan.records.len()) as int);
        Ok(store::write_if_any(delete_ops(tenant::pending_name(tenant), rs), false))
    }
}

impl TenantRegistry {
    /// The number of waiting, leased and dead tasks of a queue, from scans of
    /// the three families.
    pub fn depth(
        tenant: &str,
        fam: &Families,
        pending: &Scan,
        inflight: &Scan,
        dlq: &Scan,
    ) -> (r: Result<(usize, usize, usize), QueueError>)
        ensures
            match r {
                Ok(d) => depths(tenant@, *fam, pending@, inflight@, dlq@) == Ok::<
                    (nat, nat, nat),
                    Fault,
                >((d.0 as nat, d.1 as nat, d.2 as nat)),
                Err(e) => depths(tenant@, *fam, pending@, inflight@, dlq@) == Err::<
                    (nat, nat, nat),
                    Fault,
                >(e@),
            },
    {
        match fam.pending_cf(tenant) {
            Ok(_) => {},
            Err(e) => return Err(e),
        }
        let p: usize = match TenantRegistry::count_prefix(pending) {
            Ok(n) => n,
            Err(e) => return Err(e),
        };
        let i: usize = match TenantRegistry::count_inflight(tenant, fam, inflight) {
            Ok(n) => n,
            Err(e) => return Err(e),
        };
        match fam.dlq_cf(tenant) {
            Ok(_) => {},
            Err(e) => return Err(e),
        }
        let d: usize = match TenantRegistry::count_prefix(dlq) {
            Ok(n) => n,
            Err(e) => return Err(e),
        };
        Ok((p, i, d))
    }

    /// Decides the next step towards the admission of `incoming` tasks to a
    /// queue under a policy. The steps begin with `QuotaEvent::Begin`; after a
    /// step that asks for a measurement they go on with its outcome.
    pub fn enforce_quota(
        tenant: &str,
        queue: &str,
        policy: &NamespacePolicy,
        incoming: usize,
        event: QuotaEvent,
        now: u64,
    ) -> (r: Result<QuotaStep, QueueError>)
        requires
            quota_fits(policy@, incoming, event, now),
        ensures
            match r {
                Ok(s) => quota_step(tenant@, queue@, policy@, incoming, event, now) == Ok::<
                    QuotaStep,
                    Fault,
                >(s),
                Err(e) => quota_step(tenant@, queue@, policy@, incoming, event, now) == Err::<
                    QuotaStep,
                    Fault,
                >(e@),
            },
    {
        let quota: usize = match policy.backlog_quota {
            None => return Ok(QuotaStep::Admit),
            Some(q) => q,
        };
        match event {
            QuotaEvent::Begin => Ok(QuotaStep::Measure { pause_ms: 0, deadline: None }),
            QuotaEvent::Measured { pending, inflight, deadline } => {
                let current: usize = pending + inflight;
                let over = current + incoming > quota;
                match policy.backlog_policy {
                    BacklogPolicy::Reject => {
                        if over {
                            return Err(
                                QueueError::BacklogQuotaExceeded {
                                    tenant: tenant.to_owned(),
                                    queue: queue.to_owned(),
                                    current,
                                    quota,
                                    incoming,
                                },
                            );
                        }
                        Ok(QuotaStep::Admit)
                    },
                    BacklogPolicy::EvictOldest => {
                        if over {
                            return Ok(QuotaStep::Evict { count: current + incoming - quota });
                        }
                        Ok(QuotaStep::Admit)
                    },
                    BacklogPolicy::Block { timeout_ms } => match deadline {
                        None => Ok(
                            QuotaStep::Measure { pause_ms: 0, deadline: Some(now + timeout_ms) },
                        ),
                        Some(end) => {
                            if !over {
                                return Ok(QuotaStep::Admit);
                            }
                            if now >= end {
                                return Err(
                                    QueueError::BacklogQuotaExceeded {
                                        tenant: tenant.to_owned(),
                                        queue: queue.to_owned(),
                                        current,
                                        quota,
                                        incoming,
                                    },
                                );
                            }
                            Ok(QuotaStep::Measure { pause_ms: QUOTA_POLL_MS, deadline })
                        },
                    },
                }
            },
        }
    }

    /// Drops the oldest `count` waiting records of a queue, or all if there
    /// are fewer.
    pub fn evict_oldest_pending(tenant: &str, count: usize, fam: &Families, scan: &Scan) -> (r:
        Result<Option<Batch>, QueueError>)
        ensures
            match r {
                Ok(b) => evicted(tenant@, *fam, count as nat, scan@) == Ok::<
                    Option<BatchView>,
                    Fault,
                >(store::batch_view(b)),
                Err(e) => evicted(tenant@, *fam, count as nat, scan@) == Err::<
                    Option<BatchView>,
                    Fault,
                >(e@),
            },
    {
        let pending = match fam.pending_cf(tenant) {
            Ok(name) => name,
            Err(e) => return Err(e),
        };
        let total: usize = scan.records.len();
        if total < count {
            if let Some(reason) = &scan.failure {
                return Err(QueueError::RocksDB(reason.clone()));
            }
        }
        let n: usize = if count <= total {
            count
        } else {
            total
        };
        let batch = delete_first(pending.as_str(), scan, n, Batch::hot());
        assert(Seq::<OpView>::empty() + delete_ops(pending@, scan@.records.take(n as int))
            =~= delete_ops(pending@, scan@.records.take(n as int)));
        Ok(batch.if_any())
    }
}

/// Adds the removal of the first `n` records to a batch.
pub(crate) fn delete_first(cf: &str, scan: &Scan, n: usize, batch: Batch) -> (r: Batch)
    requires
        n <= scan@.records.len(),
    ensures
        r@ == (BatchView {
            ops: batch@.ops + delete_ops(cf@, scan@.records.take(n as int)),
            sync: batch@.sync,
        }),
{
    let ghost start = batch@;
    let ghost rs = scan@.records;
    let mut batch = batch;
    let mut i: usize = 0;
    assert(start.ops + delete_ops(cf@, rs.take(0)) =~= start.ops);
    while i < n
        invariant
            0 <= i <= n,
            n <= scan.records@.len(),
            rs == scan@.records,
            batch@ == (BatchView {
                ops: start.ops + delete_ops(cf@, rs.take(i as int)),
                sync: start.sync,
            }),
        decreases n - i,
    {
        let record = &scan.records[i];
        assert(record@ == rs[i as int]);
        let ghost before = batch@.ops;
        batch.delete(cf, record.key.as_slice());
        assert(start.ops + delete_ops(cf@, rs.take(i + 1)) =~= before.push(
            OpView::Delete { cf: cf@, key: rs[i as int].key },
        ));
        i = i + 1;
    }
    batch
}

/// Without a quota every number of tasks is admitted at once.
pub proof fn law_no_quota_admits(
    tenant: Seq<char>,
    queue: Seq<char>,
    policy: PolicyView,
    incoming: usize,
    event: QuotaEvent,
    now: u64,
)
    requires
        policy.backlog_quota is None,
    ensures
        quota_step(tenant, queue, policy, incoming, event, now) == Ok::<QuotaStep, Fault>(
            QuotaStep::Admit,
        ),
{
}

/// Tasks are admitted under a quota only where they fit, and where they do not
/// fit they are refused, wait or push others out: the admitted and the measured
/// tasks together never exceed the quota.
pub proof fn law_quota_holds(
    tenant: Seq<char>,
    queue: Seq<char>,
    policy: PolicyView,
    incoming: usize,
    event: QuotaEvent,
    now: u64,
)
    requires
        policy.backlog_quota is Some,
        quota_step(tenant, queue, policy, incoming, event, now) == Ok::<QuotaStep, Fault>(
            QuotaStep::Admit,
        ),
    ensures
        event matches QuotaEvent::Measured { pending, inflight, .. } && pending + inflight
            + incoming <= policy.backlog_quota->0,
{
}

/// A producer is refused only where its tasks do not fit, and a producer that
/// may wait only after its deadline.
pub proof fn law_refused_only_when_over(
    tenant: Seq<char>,
    queue: Seq<char>,
    policy: PolicyView,
    incoming: usize,
    event: QuotaEvent,
    now: u64,
)
    requires
        quota_fits(policy, incoming, event, now),
        quota_step(tenant, queue, policy, incoming, event, now) is Err,
    ensures
        event matches QuotaEvent::Measured { pending, inflight, deadline } && pending + inflight
            + incoming > policy.backlog_quota->0 && (policy.backlog_policy is Block ==> deadline
            is Some && now >= deadline->0) && policy.backlog_policy != BacklogPolicy::EvictOldest,
        quota_step(tenant, queue, policy, incoming, event, now) == Err::<QuotaStep, Fault>(
            quota_fault(
                tenant,
                queue,
                event->pending + event->inflight,
                policy.backlog_quota->0,
                incoming,
            ),
        ),
{
}

/// Dropping as many waiting tasks as asked makes the new ones fit, as long as
/// the leased and the new ones alone fit; where they do not, every waiting task
/// goes.
pub proof fn law_eviction_makes_room(
    tenant: Seq<char>,
    queue: Seq<char>,
    policy: PolicyView,
    incoming: usize,
    pending: usize,
    inflight: usize,
    now: u64,
    count: usize,
)
    requires
        ({
            let event = QuotaEvent::Measured { pending, inflight, deadline: None };
            quota_fits(policy, incoming, event, now) && quota_step(
                tenant,
                queue,
                policy,
                incoming,
                event,
                now,
            ) == Ok::<QuotaStep, Fault>(QuotaStep::Evict { count })
        }),
    ensures
        ({
            let left = pending - dequeue::least(count as nat, pending as nat);
            if inflight + incoming <= policy.backlog_quota->0 {
                left + inflight + incoming == policy.backlog_quota->0
            } else {
                left == 0
            }
        }),
{
}

/// Tasks fit under a quota or they do not: under `Reject` those that do not fit are
/// refused with the numbers, and those that do are added.
pub proof fn law_reject_rule(
    tenant: Seq<char>,
    queue: Seq<char>,
    policy: PolicyView,
    quota: usize,
    incoming: usize,
    pending: usize,
    inflight: usize,
    deadline: Option<u64>,
    now: u64,
)
    requires
        policy.backlog_quota == Some(quota),
        policy.backlog_policy == BacklogPolicy::Reject,
        pending + inflight + incoming <= usize::MAX,
    ensures
        ({
            let r = quota_step(
                tenant,
                queue,
                policy,
                incoming,
                (QuotaEvent::Measured { pending, inflight, deadline }),
                now,
            );
            &&& r is Ok <==> pending + inflight + incoming <= quota
            &&& r is Ok ==> r->Ok_0 is Admit
            &&& r is Err ==> r->Err_0 == (Fault::BacklogQuotaExceeded {
                tenant,
                queue,
                current: (pending + inflight) as usize,
                quota,
                incoming,
            })
        }),
{
}

/// Under `EvictOldest` nobody is refused: as many waiting tasks go as are too many,
/// and none where there is room.
pub proof fn law_evict_rule(
    tenant: Seq<char>,
    queue: Seq<char>,
    policy: PolicyView,
    quota: usize,
    incoming: usize,
    pending: usize,
    inflight: usize,
    deadline: Option<u64>,
    now: u64,
)
    requires
        policy.backlog_quota == Some(quota),
        policy.backlog_policy == BacklogPolicy::EvictOldest,
        pending + inflight + incoming <= usize::MAX,
    ensures
        ({
            let r = quota_step(
                tenant,
                queue,
                policy,
                incoming,
                (QuotaEvent::Measured { pending, inflight, deadline }),
                now,
            );
            &&& r is Ok
            &&& r->Ok_0 is Admit <==> pending + inflight + incoming <= quota
            &&& pending + inflight + incoming > quota ==> (r->Ok_0 matches QuotaStep::Evict {
                count,
            } && count + quota == pending + inflight + incoming)
        }),
{
}

/// Under `Block` the first look sets the deadline, the whole timeout from then; the
/// later ones come after short pauses, keep the deadline, let the tasks in as soon
/// as they fit, and refuse them where they do not fit and the deadline has come.
pub proof fn law_block_rule(
    tenant: Seq<char>,
    queue: Seq<char>,
    policy: PolicyView,
    quota: usize,
    timeout_ms: u64,
    incoming: usize,
    pending: usize,
    inflight: usize,
    end: u64,
    now: u64,
)
    requires
        policy.backlog_quota == Some(quota),
        policy.backlog_policy == (BacklogPolicy::Block { timeout_ms }),
        pending + inflight + incoming <= usize::MAX,
        now + timeout_ms <= u64::MAX,
    ensures
        ({
            let first = quota_step(
                tenant,
                queue,
                policy,
                incoming,
                (QuotaEvent::Measured { pending, inflight, deadline: None }),
                now,
            );
            first matches Ok(QuotaStep::Measure { pause_ms, deadline: Some(until) }) && pause_ms
                == 0 && until - now == timeout_ms
        }),
        ({
            let later = quota_step(
                tenant,
                queue,
                policy,
                incoming,
                (QuotaEvent::Measured { pending, inflight, deadline: Some(end) }),
                now,
            );
            &&& (later matches Ok(QuotaStep::Admit)) <==> pending + inflight + incoming <= quota
            &&& later is Err <==> pending + inflight + incoming > quota && now >= end
            &&& later is Err ==> later->Err_0 == (Fault::BacklogQuotaExceeded {
                tenant,
                queue,
                current: (pending + inflight) as usize,
                quota,
                incoming,
            })
            &&& pending + inflight + incoming > quota && now < end ==> (later matches Ok(
                QuotaStep::Measure { pause_ms, deadline },
            ) && pause_ms == 50 && deadline == Some(end))
        }),
{
}

/// A producer begins with a measurement, and is let in at once only without a quota.
pub proof fn law_begin_measures(
    tenant: Seq<char>,
    queue: Seq<char>,
    policy: PolicyView,
    incoming: usize,
    now: u64,
)
    ensures
        ({
            let r = quota_step(tenant, queue, policy, incoming, QuotaEvent::Begin, now);
            &&& r is Ok
            &&& r->Ok_0 is Admit <==> policy.backlog_quota is None
            &&& policy.backlog_quota is Some ==> (r->Ok_0 matches QuotaStep::Measure {
                pause_ms,
                deadline,
            } && pause_ms == 0 && deadline is None)
        }),
{
}

/// The looks of a producer at its queue, one after the other: what each knew and
/// when it was made. Each goes on where the one before asked for a measurement, with
/// the deadline that it gave.
pub open spec fn goes_on(
    tenant: Seq<char>,
    queue: Seq<char>,
    policy: PolicyView,
    incoming: usize,
    looks: Seq<(QuotaEvent, u64)>,
) -> bool {
    &&& looks.len() > 0
    &&& looks[0].0 is Begin
    &&& forall|i: int|
        #![trigger looks[i]]
        0 < i < looks.len() ==> {
            &&& looks[i - 1].1 <= looks[i].1
            &&& quota_fits(policy, incoming, looks[i].0, looks[i].1)
            &&& looks[i].0 matches QuotaEvent::Measured { deadline, .. } && quota_step(
                tenant,
                queue,
                policy,
                incoming,
                looks[i - 1].0,
                looks[i - 1].1,
            ) matches Ok(QuotaStep::Measure { deadline: told, .. }) && told == deadline
        }
}

/// The deadline that a look is made with comes no earlier than the whole timeout
/// after the first look.
proof fn lemma_deadline_far_enough(
    tenant: Seq<char>,
    queue: Seq<char>,
    policy: PolicyView,
    timeout_ms: u64,
    incoming: usize,
    looks: Seq<(QuotaEvent, u64)>,
    i: int,
)
    requires
        goes_on(tenant, queue, policy, incoming, looks),
        policy.backlog_policy == (BacklogPolicy::Block { timeout_ms }),
        0 <= i < looks.len(),
    ensures
        looks[0].1 <= looks[i].1,
        i > 0 ==> looks[i].0 is Measured,
        looks[i].0 matches QuotaEvent::Measured { deadline: Some(end), .. } ==> end >= looks[0].1
            + timeout_ms,
    decreases i,
{
    if i > 0 {
        lemma_deadline_far_enough(tenant, queue, policy, timeout_ms, incoming, looks, i - 1);
        assert(looks[i].0 is Measured);
        if i > 1 {
            assert(looks[i - 1].0 is Measured);
        }
    }
}

/// Whoever may wait is given the whole time: under `Block` no sequence of looks that
/// begins at a time ends in a refusal before the timeout has passed since.
pub proof fn law_no_refusal_before_timeout(
    tenant: Seq<char>,
    queue: Seq<char>,
    policy: PolicyView,
    timeout_ms: u64,
    incoming: usize,
    looks: Seq<(QuotaEvent, u64)>,
)
    requires
        policy.backlog_policy == (BacklogPolicy::Block { timeout_ms }),
        goes_on(tenant, queue, policy, incoming, looks),
        quota_step(tenant, queue, policy, incoming, looks.last().0, looks.last().1) is Err,
    ensures
        looks.last().1 >= looks[0].1 + timeout_ms,
{
    lemma_deadline_far_enough(
        tenant,
        queue,
        policy,
        timeout_ms,
        incoming,
        looks,
        looks.len() - 1,
    );
}

/// The depth of a queue is known where its families are there and were read to
/// their ends; it counts each family's records.
pub proof fn law_depth_counts(
    tenant: Seq<char>,
    fam: Families,
    pending: ScanView,
    inflight: ScanView,
    dlq: ScanView,
)
    ensures
        ({
            let r = depths(tenant, fam, pending, inflight, dlq);
            &&& r is Ok <==> fam.pending && fam.inflight && fam.dlq && pending.failure is None
                && inflight.failure is None && dlq.failure is None
            &&& r is Ok ==> (r->Ok_0).0 == pending.records.len() && (r->Ok_0).1
                == inflight.records.len() && (r->Ok_0).2 == dlq.records.len()
        }),
{
}

} // verus!
