//! Adding tasks to a queue under its quota.
//!
//! An enqueue goes step by step: the queue is measured, the tasks are refused,
//! wait or are admitted, and once they are admitted the oldest waiting tasks may
//! have to go before the new ones are written.

use vstd::prelude::*;
use vstd::slice::*;

use crate::error::{Fault, QueueError};
use crate::policy::{NamespacePolicy, PolicyView};
use crate::store;
use crate::store::{Batch, BatchView, Scan, ScanView};
use crate::tenant;
use crate::tenant::enqueue;
use crate::tenant::enqueue::Enqueued;
use crate::tenant::quota;
use crate::tenant::quota::{QuotaEvent, QuotaStep};
use crate::tenant::{Families, TenantRegistry};

verus! {

/// What is known when the next step of an enqueue is decided.
#[derive(Debug)]
pub enum EnqueueEvent {
    /// Nothing was measured yet.
    Begin,
    /// The queue's records in the three families. A producer that waits for
    /// room has a deadline.
    Measured { pending: Scan, inflight: Scan, dlq: Scan, deadline: Option<u64> },
}

/// What is known, as a mathematical value.
#[verifier::ext_equal]
pub enum EventView {
    Begin,
    Measured { pending: ScanView, inflight: ScanView, dlq: ScanView, deadline: Option<u64> },
}

impl View for EnqueueEvent {
    type V = EventView;

    open spec fn view(&self) -> EventView {
        match self {
            EnqueueEvent::Begin => EventView::Begin,
            EnqueueEvent::Measured { pending, inflight, dlq, deadline } => EventView::Measured {
                pending: pending@,
                inflight: inflight@,
                dlq: dlq@,
                deadline: *deadline,
            },
        }
    }
}

/// What comes next for tasks that are to be added.
#[derive(Debug)]
pub enum Admission {
    /// The queue is to be measured, after a pause of `pause_ms`.
    Measure { pause_ms: u64, deadline: Option<u64> },
    /// The tasks may be written, after the removal of the oldest waiting ones
    /// where there is one.
    Write { evict: Option<Batch> },
}

/// What comes next, as a mathematical value.
#[verifier::ext_equal]
pub enum AdmissionView {
    Measure { pause_ms: u64, deadline: Option<u64> },
    Write { evict: Option<BatchView> },
}

impl View for Admission {
    type V = AdmissionView;

    open spec fn view(&self) -> AdmissionView {
        match self {
            Admission::Measure { pause_ms, deadline } => AdmissionView::Measure {
                pause_ms: *pause_ms,
                deadline: *deadline,
            },
            Admission::Write { evict } => AdmissionView::Write { evict: store::batch_view(*evict) },
        }
    }
}

/// The next step of an enqueue.
#[derive(Debug)]
pub enum EnqueueStep {
    /// The queue is to be measured, after a pause of `pause_ms`.
    Measure { pause_ms: u64, deadline: Option<u64> },
    /// The writes: the removal of the oldest waiting tasks where there is one,
    /// and then the new tasks.
    Write { evict: Option<Batch>, added: Enqueued },
}

/// What the quota sees of the queue.
pub open spec fn quota_event(event: EventView) -> QuotaEvent {
    match event {
        EventView::Begin => QuotaEvent::Begin,
        EventView::Measured { pending, inflight, deadline, .. } => QuotaEvent::Measured {
            pending: pending.records.len() as usize,
            inflight: inflight.records.len() as usize,
            deadline,
        },
    }
}

/// The error that a measurement met.
pub open spec fn measured_fault(tenant: Seq<char>, fam: Families, event: EventView) -> Option<
    Fault,
> {
    match event {
        EventView::Begin => None,
        EventView::Measured { pending, inflight, dlq, .. } => match quota::depths(
            tenant,
            fam,
            pending,
            inflight,
            dlq,
        ) {
            Err(f) => Some(f),
            Ok(_) => None,
        },
    }
}

/// What comes next for `incoming` tasks: the error that the measurement met, or
/// what the quota says, with the oldest waiting tasks picked out where they have
/// to make room.
pub open spec fn admission(
    tenant: Seq<char>,
    queue: Seq<char>,
    policy: PolicyView,
    incoming: usize,
    fam: Families,
    event: EventView,
    now: u64,
) -> Result<AdmissionView, Fault> {
    match measured_fault(tenant, fam, event) {
        Some(f) => Err(f),
        None => match quota::quota_step(tenant, queue, policy, incoming, quota_event(event), now) {
            Err(f) => Err(f),
            Ok(QuotaStep::Admit) => Ok(AdmissionView::Write { evict: None }),
            Ok(QuotaStep::Measure { pause_ms, deadline }) => Ok(
                AdmissionView::Measure { pause_ms, deadline },
            ),
            Ok(QuotaStep::Evict { count }) => match quota::evicted(
                tenant,
                fam,
                count as nat,
                event->pending,
            ) {
                Err(f) => Err(f),
                Ok(evict) => Ok(AdmissionView::Write { evict }),
            },
        },
    }
}

/// The numbers of a step can be added up.
pub open spec fn admission_fits(
    policy: PolicyView,
    incoming: usize,
    event: EventView,
    now: u64,
) -> bool {
    quota::quota_fits(policy, incoming, quota_event(event), now)
}

/// What a step of an enqueue gives and leaves: it waits, it is refused, or the
/// admitted tasks are written.
pub open spec fn enqueue_result(
    before: tenant::RegistryView,
    after: tenant::RegistryView,
    tenant: Seq<char>,
    queue: Seq<char>,
    payloads: Seq<Seq<u8>>,
    policy: PolicyView,
    fam: Families,
    event: EventView,
    now: u64,
    r: Result<EnqueueStep, QueueError>,
) -> bool {
    let next = admission(tenant, queue, policy, payloads.len() as usize, fam, event, now);
    match r {
        Ok(EnqueueStep::Measure { pause_ms, deadline }) => {
            &&& next == Ok::<AdmissionView, Fault>(AdmissionView::Measure { pause_ms, deadline })
            &&& after == before
        },
        Ok(EnqueueStep::Write { evict, added }) => {
            &&& next == Ok::<AdmissionView, Fault>(
                AdmissionView::Write { evict: store::batch_view(evict) },
            )
            &&& fam.pending
            &&& enqueue::appended(before, after, tenant, queue, payloads, now, added)
        },
        Err(e) => {
            &&& after == before
            &&& match next {
                Err(f) => e@ == f,
                Ok(AdmissionView::Write { .. }) => !fam.pending && e@
                    == Fault::ColumnFamilyMissing(tenant::pending_name(tenant)),
                Ok(AdmissionView::Measure { .. }) => false,
            }
        },
    }
}

impl TenantRegistry {
    /// Decides what comes next for `incoming` tasks that are to be added to a
    /// queue under a policy. The steps begin with `EnqueueEvent::Begin`; after a
    /// step that asks for a measurement they go on with its outcome.
    pub fn decide_admission(
        tenant: &str,
        queue: &str,
        policy: &NamespacePolicy,
        incoming: usize,
        fam: &Families,
        event: &EnqueueEvent,
        now: u64,
    ) -> (r: Result<Admission, QueueError>)
        requires
            admission_fits(policy@, incoming, event@, now),
        ensures
            match r {
                Ok(a) => admission(tenant@, queue@, policy@, incoming, *fam, event@, now) == Ok::<
                    AdmissionView,
                    Fault,
                >(a@),
                Err(e) => admission(tenant@, queue@, policy@, incoming, *fam, event@, now) == Err::<
                    AdmissionView,
                    Fault,
                >(e@),
            },
    {
        let seen = match event {
            EnqueueEvent::Begin => QuotaEvent::Begin,
            EnqueueEvent::Measured { pending, inflight, dlq, deadline } => {
                match TenantRegistry::depth(tenant, fam, pending, inflight, dlq) {
                    Err(e) => return Err(e),
                    Ok((p, i, _)) => QuotaEvent::Measured {
                        pending: p,
                        inflight: i,
                        deadline: *deadline,
                    },
                }
            },
        };
        assert(seen == quota_event(event@));
        match TenantRegistry::enforce_quota(tenant, queue, policy, incoming, seen, now) {
            Err(e) => Err(e),
            Ok(QuotaStep::Admit) => Ok(Admission::Write { evict: None }),
            Ok(QuotaStep::Measure { pause_ms, deadline }) => Ok(
                Admission::Measure { pause_ms, deadline },
            ),
            Ok(QuotaStep::Evict { count }) => match event {
                EnqueueEvent::Begin => Ok(Admission::Write { evict: None }),
                EnqueueEvent::Measured { pending, .. } => {
                    match TenantRegistry::evict_oldest_pending(tenant, count, fam, pending) {
                        Err(e) => Err(e),
                        Ok(evict) => Ok(Admission::Write { evict }),
                    }
                },
            },
        }
    }

    /// The next step of adding a task to a queue under a policy. Once it is
    /// admitted, what is written depends on its id, which is random; all else is
    /// fixed.
    pub fn enqueue(
        &mut self,
        tenant: &str,
        queue: &str,
        payload: &[u8],
        policy: &NamespacePolicy,
        fam: &Families,
        event: &EnqueueEvent,
        now: u64,
    ) -> (r: Result<EnqueueStep, QueueError>)
        requires
            admission_fits(policy@, 1, event@, now),
        ensures
            old(self).wf() ==> final(self).wf(),
            enqueue_result(
                old(self)@,
                final(self)@,
                tenant@,
                queue@,
                seq![payload@],
                policy@,
                *fam,
                event@,
                now,
                r,
            ),
    {
        let mut payloads: Vec<Vec<u8>> = Vec::new();
        payloads.push(slice_to_vec(payload));
        assert(enqueue::byte_strings(payloads@) =~= seq![payload@]);
        self.enqueue_batch(tenant, queue, &payloads, policy, fam, event, now)
    }

    /// The next step of adding tasks to a queue under a policy, one for each
    /// payload. Once they are admitted, what is written depends on their ids,
    /// which are random; all else is fixed.
    pub fn enqueue_batch(
        &mut self,
        tenant: &str,
        queue: &str,
        payloads: &Vec<Vec<u8>>,
        policy: &NamespacePolicy,
        fam: &Families,
        event: &EnqueueEvent,
        now: u64,
    ) -> (r: Result<EnqueueStep, QueueError>)
        requires
            admission_fits(policy@, payloads@.len() as usize, event@, now),
        ensures
            old(self).wf() ==> final(self).wf(),
            enqueue_result(
                old(self)@,
                final(self)@,
                tenant@,
                queue@,
                enqueue::byte_strings(payloads@),
                policy@,
                *fam,
                event@,
                now,
                r,
            ),
    {
        let n: usize = payloads.len();
        assert(enqueue::byte_strings(payloads@).len() == n);
        match TenantRegistry::decide_admission(tenant, queue, policy, n, fam, event, now) {
            Err(e) => Err(e),
            Ok(Admission::Measure { pause_ms, deadline }) => Ok(
                EnqueueStep::Measure { pause_ms, deadline },
            ),
            Ok(Admission::Write { evict }) => {
                match self.append_batch(tenant, queue, payloads, fam, now) {
                    Err(e) => Err(e),
                    Ok(added) => Ok(EnqueueStep::Write { evict, added }),
                }
            },
        }
    }
}

} // verus!
