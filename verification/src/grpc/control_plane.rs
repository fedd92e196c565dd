//! The requests of the control plane.
//!
//! A request that changes the store is answered in two parts: what is to be
//! done is decided first, and once it is done the state in memory follows and
//! the answer is made.

use vstd::prelude::*;
use vstd::utf8::*;

use crate::baseline;
use crate::baseline::{BaselineRegistry, BaselineStart, TenantBaseline};
use crate::compaction::CompactionCounters;
use crate::error;
use crate::error::{Fault, QueueError};
use crate::grpc::ack_key;
use crate::grpc::ack_key::{encode_ack_key, parse_ack_key, KeyFault};
use crate::policy;
use crate::policy::{BacklogPolicy, NamespacePolicy, PolicyView, RetentionPolicy};
use crate::scheduler;
use crate::scheduler::{SchedulerView, SharePolicy, Standing, TenantPolicy, WFQScheduler};
use crate::stats;
use crate::stats::{StatsCollector, TenantStats};
use crate::stats_store;
use crate::stats_store::BaselineRecord;
use crate::store::Batch;
use crate::tenant;
use crate::tenant::{Leased, LeasedView, RegistryView, TenantRegistry};
use crate::tenant_map;
use crate::text;
use crate::throttle;
use crate::throttle::{AutoThrottle, ThrottleState};

verus! {

/// How many tasks a request gets that does not say how many it wants.
pub const DEFAULT_DEQUEUE_LIMIT: usize = 500;

/// How long tasks stay leased to a client of the control plane.
pub const CLIENT_LEASE_MS: u64 = 60_000;

/// How long a drain pauses between two looks, in milliseconds.
pub const DRAIN_POLL_MS: u64 = 500;

/// The kind of a refusal.
#[derive(Debug, Clone, Copy, PartialEq, Eq, Structural)]
pub enum Code {
    NotFound,
    ResourceExhausted,
    InvalidArgument,
    Internal,
}

/// A refusal: its kind, and the reason.
#[derive(Debug)]
pub struct Status {
    pub code: Code,
    pub message: String,
}

/// A refusal as a mathematical value.
#[verifier::ext_equal]
pub struct StatusView {
    pub code: Code,
    pub message: Seq<char>,
}

impl View for Status {
    type V = StatusView;

    open spec fn view(&self) -> StatusView {
        StatusView { code: self.code, message: self.message@ }
    }
}

/// The thing that was asked for is not there.
pub fn not_found(msg: &str) -> (r: Status)
    ensures
        r@ == (StatusView { code: Code::NotFound, message: msg@ }),
{
    Status { code: Code::NotFound, message: msg.to_owned() }
}

/// The server is at fault.
pub fn internal(msg: &str) -> (r: Status)
    ensures
        r@ == (StatusView { code: Code::Internal, message: msg@ }),
{
    Status { code: Code::Internal, message: msg.to_owned() }
}

/// The request is at fault.
pub fn invalid_argument(msg: &str) -> (r: Status)
    ensures
        r@ == (StatusView { code: Code::InvalidArgument, message: msg@ }),
{
    Status { code: Code::InvalidArgument, message: msg.to_owned() }
}

/// The kind of refusal that an error is answered with.
pub open spec fn fault_code(f: Fault) -> Code {
    match f {
        Fault::ColumnFamilyMissing(_) => Code::NotFound,
        Fault::QueueNotFound(_) => Code::NotFound,
        Fault::TaskNotFound(_) => Code::NotFound,
        Fault::BacklogQuotaExceeded { .. } => Code::ResourceExhausted,
        Fault::Store(_) => Code::Internal,
        Fault::Serialization => Code::Internal,
        Fault::Io(_, _) => Code::Internal,
    }
}

/// The refusal that an error is answered with. Of a decoding error only the
/// beginning of the reason is stated.
pub fn queue_error(err: &QueueError) -> (r: Status)
    ensures
        r.code == fault_code(err@),
        err@ is Serialization ==> error::fault_text(err@).is_prefix_of(r.message@),
        !(err@ is Serialization) ==> r.message@ == error::fault_text(err@),
{
    let code = match err {
        QueueError::ColumnFamilyMissing(_) => Code::NotFound,
        QueueError::QueueNotFound(_) => Code::NotFound,
        QueueError::TaskNotFound(_) => Code::NotFound,
        QueueError::BacklogQuotaExceeded { .. } => Code::ResourceExhausted,
        QueueError::RocksDB(_) => Code::Internal,
        QueueError::Serialization(_) => Code::Internal,
        QueueError::Io(_, _) => Code::Internal,
    };
    Status { code, message: err.message() }
}

/// The queue that a request means.
pub open spec fn queue_meant(queue: Seq<char>) -> Seq<char> {
    if queue.len() == 0 {
        "default"@
    } else {
        queue
    }
}

/// The queue that a request means: the default one where it names none.
pub fn queue_or_default(queue: &str) -> (r: String)
    ensures
        r@ == queue_meant(queue@),
{
    if queue.as_bytes().len() == 0 {
        assert(queue@.len() == 0) by {
            text::lemma_encode_injective(queue@, Seq::empty());
        }
        "default".to_owned()
    } else {
        assert(queue@.len() > 0) by {
            if queue@.len() == 0 {
                assert(encode_utf8(queue@).len() == 0);
            }
        }
        queue.to_owned()
    }
}

/// The refusal of a text that is no key.
pub open spec fn bad_key(f: KeyFault) -> StatusView {
    StatusView {
        code: Code::InvalidArgument,
        message: "invalid ack_key: "@ + ack_key::fault_words(f),
    }
}

/// The key that a client means.
pub fn decode_ack_key(key: &str) -> (r: Result<Vec<u8>, Status>)
    ensures
        match r {
            Ok(v) => ack_key::is_hex(encode_utf8(key@)) && v@ == ack_key::hex_bytes(
                encode_utf8(key@),
            ),
            Err(s) => exists|f: KeyFault| #[trigger]
                ack_key::is_fault(encode_utf8(key@), f) && s@ == bad_key(f),
        },
{
    match parse_ack_key(key) {
        Ok(v) => Ok(v),
        Err(f) => {
            let message = text::join("invalid ack_key: ", f.words().as_str());
            assert(ack_key::is_fault(encode_utf8(key@), f));
            Err(Status { code: Code::InvalidArgument, message })
        },
    }
}

/// An answer about a tenant.
#[derive(Debug)]
pub struct TenantResponse {
    pub tenant_id: String,
    pub success: bool,
    pub message: String,
}

/// The answer says that it is done.
pub open spec fn is_done(r: TenantResponse, tenant: Seq<char>, message: Seq<char>) -> bool {
    r.tenant_id@ == tenant && r.success && r.message@ == message
}

/// The answer that it is done.
fn done(tenant_id: &str, message: &str) -> (r: TenantResponse)
    ensures
        is_done(r, tenant_id@, message@),
{
    TenantResponse { tenant_id: tenant_id.to_owned(), success: true, message: message.to_owned() }
}

/// The policy of a tier; every tier but the premium one is the standard one.
pub open spec fn tier_policy(tenant: Seq<char>, tier: Seq<char>) -> PolicyView {
    if tier == "premium"@ {
        policy::premium_policy(tenant)
    } else {
        policy::standard_policy(tenant)
    }
}

/// What a policy means for the scheduler.
pub open spec fn share_of(tenant: Seq<char>, p: PolicyView) -> SharePolicy {
    SharePolicy {
        tenant_id: tenant,
        weight: p.weight,
        max_inflight: p.max_inflight,
        burst_tokens: p.burst_tokens,
        rate_per_sec: p.rate_per_sec,
    }
}

/// What a policy means for the scheduler.
pub fn scheduler_policy(tenant_id: &str, policy: &NamespacePolicy) -> (r: TenantPolicy)
    ensures
        r@ == share_of(tenant_id@, policy@),
{
    TenantPolicy {
        tenant_id: tenant_id.to_owned(),
        weight: policy.weight,
        max_inflight: policy.max_inflight,
        burst_tokens: policy.burst_tokens,
        rate_per_sec: policy.rate_per_sec,
    }
}

/// A request for a policy of a namespace.
#[derive(Debug)]
pub struct NamespacePolicyRequest {
    pub tenant_id: String,
    pub backlog_quota: u64,
    pub backlog_policy: String,
    pub block_timeout_ms: u64,
    pub pending_retention_secs: u64,
    pub dlq_retention_secs: u64,
    pub inflight_stale_secs: u64,
}

/// The backlog policy that a word means: every word but two means to reject.
pub open spec fn backlog_meant(word: Seq<char>, timeout_ms: u64) -> BacklogPolicy {
    if word == "block"@ {
        BacklogPolicy::Block { timeout_ms }
    } else if word == "evict_oldest"@ {
        BacklogPolicy::EvictOldest
    } else {
        BacklogPolicy::Reject
    }
}

/// The word for a backlog policy.
pub open spec fn backlog_word(p: BacklogPolicy) -> Seq<char> {
    match p {
        BacklogPolicy::Reject => "reject"@,
        BacklogPolicy::Block { .. } => "block"@,
        BacklogPolicy::EvictOldest => "evict_oldest"@,
    }
}

/// The policy that a request asks for: shares of the standard tier, the quota
/// unless it is 0, and the usual retention where 0 is asked for.
pub open spec fn policy_meant(req: NamespacePolicyRequest) -> PolicyView {
    PolicyView {
        tenant_id: req.tenant_id@,
        namespace: req.tenant_id@,
        weight: 10,
        max_inflight: 500,
        burst_tokens: 100,
        rate_per_sec: 100,
        backlog_quota: if req.backlog_quota == 0 {
            None
        } else {
            Some(req.backlog_quota as usize)
        },
        backlog_policy: backlog_meant(req.backlog_policy@, req.block_timeout_ms),
        retention: RetentionPolicy {
            pending_retention_secs: req.pending_retention_secs,
            dlq_retention_secs: if req.dlq_retention_secs == 0 {
                604_800
            } else {
                req.dlq_retention_secs
            },
            inflight_stale_secs: if req.inflight_stale_secs == 0 {
                300
            } else {
                req.inflight_stale_secs
            },
        },
    }
}

/// The policy that a request asks for. A quota that this machine cannot count
/// to is cut off.
pub fn set_namespace_policy(req: &NamespacePolicyRequest) -> (r: NamespacePolicy)
    ensures
        r@ == policy_meant(*req),
{
    let backlog_policy = if text::same_text(req.backlog_policy.as_str(), "block") {
        BacklogPolicy::Block { timeout_ms: req.block_timeout_ms }
    } else if text::same_text(req.backlog_policy.as_str(), "evict_oldest") {
        BacklogPolicy::EvictOldest
    } else {
        BacklogPolicy::Reject
    };
    NamespacePolicy {
        tenant_id: req.tenant_id.clone(),
        namespace: req.tenant_id.clone(),
        weight: 10,
        max_inflight: 500,
        burst_tokens: 100,
        rate_per_sec: 100,
        backlog_quota: if req.backlog_quota == 0 {
            None
        } else {
            Some(#[verifier::truncate] (req.backlog_quota as usize))
        },
        backlog_policy,
        retention: RetentionPolicy {
            pending_retention_secs: req.pending_retention_secs,
            dlq_retention_secs: if req.dlq_retention_secs == 0 {
                7 * 24 * 3600
            } else {
                req.dlq_retention_secs
            },
            inflight_stale_secs: if req.inflight_stale_secs == 0 {
                300
            } else {
                req.inflight_stale_secs
            },
        },
    }
}

/// An answer about a policy of a namespace.
#[derive(Debug)]
pub struct NamespacePolicyResponse {
    pub tenant_id: String,
    pub backlog_quota: u64,
    pub backlog_policy: String,
    pub pending_retention_secs: u64,
    pub dlq_retention_secs: u64,
    pub inflight_stale_secs: u64,
}

/// The answer tells the policy.
pub open spec fn tells_policy(r: NamespacePolicyResponse, tenant: Seq<char>, p: PolicyView) -> bool {
    &&& r.tenant_id@ == tenant
    &&& r.backlog_quota == (match p.backlog_quota {
        None => 0,
        Some(q) => q as u64,
    })
    &&& r.backlog_policy@ == backlog_word(p.backlog_policy)
    &&& r.pending_retention_secs == p.retention.pending_retention_secs
    &&& r.dlq_retention_secs == p.retention.dlq_retention_secs
    &&& r.inflight_stale_secs == p.retention.inflight_stale_secs
}

/// The shares of a tenant in a request or an answer.
#[derive(Debug, Clone, Copy, PartialEq, Eq, Structural)]
pub struct PolicyMessage {
    pub weight: u32,
    pub max_inflight: u32,
    pub burst_tokens: u32,
    pub rate_per_sec: u32,
}

/// How many tasks a tenant has, and whether it is paused.
#[derive(Debug)]
pub struct TenantStatus {
    pub tenant_id: String,
    pub paused: bool,
    pub pending: u64,
    pub inflight: u64,
    pub dlq: u64,
}

/// How many tasks a queue has at a time.
#[derive(Debug)]
pub struct QueueDepthEvent {
    pub tenant_id: String,
    pub queue: String,
    pub pending: u64,
    pub inflight: u64,
    pub dlq: u64,
    pub timestamp: u64,
}

/// What came of measuring a queue for a watcher.
pub enum DepthOutcome {
    /// The measurement itself broke down; why.
    Broken(String),
    /// The store refused.
    Refused(QueueError),
    /// Waiting, leased, dead.
    Measured(usize, usize, usize),
}

/// What a watcher is sent, and whether the watch goes on if it arrives.
pub struct WatchStep {
    pub message: Result<QueueDepthEvent, Status>,
    pub goes_on: bool,
}

/// What a watch does next.
#[derive(Debug, Clone, Copy, PartialEq, Eq, Structural)]
pub enum WatchAction {
    /// It waits for the next tick.
    Tick,
    /// It measures the queue at the place.
    Measure(usize),
}

/// What a watch of so many queues does once it has measured so many at a tick.
pub open spec fn watch_action(queues: usize, at: usize) -> WatchAction {
    if at < queues {
        WatchAction::Measure(at)
    } else {
        WatchAction::Tick
    }
}

/// What a watch does next: all queues in their order at every tick.
pub fn watch_next(queues: usize, at: usize) -> (r: WatchAction)
    ensures
        r == watch_action(queues, at),
{
    if at < queues {
        WatchAction::Measure(at)
    } else {
        WatchAction::Tick
    }
}

/// A number of seconds, but at least one.
pub open spec fn at_least_one(secs: u64) -> u64 {
    if secs >= 1 {
        secs
    } else {
        1
    }
}

/// How often a watcher is served, in seconds: at least every second.
pub fn watch_interval(interval_secs: u64) -> (r: u64)
    ensures
        r == at_least_one(interval_secs),
{
    if interval_secs >= 1 {
        interval_secs
    } else {
        1
    }
}

/// The message that a watcher is sent.
pub open spec fn watch_message_is(
    m: Result<QueueDepthEvent, Status>,
    tenant: Seq<char>,
    queue: Seq<char>,
    outcome: DepthOutcome,
    now: u64,
) -> bool {
    match outcome {
        DepthOutcome::Broken(why) => m matches Err(s) && s@ == (StatusView {
            code: Code::Internal,
            message: "blocking task failed: "@ + why@,
        }),
        DepthOutcome::Refused(e) => m matches Err(s) && s.code == Code::Internal && (if e@
            is Serialization {
            error::fault_text(e@).is_prefix_of(s.message@)
        } else {
            s.message@ == error::fault_text(e@)
        }),
        DepthOutcome::Measured(p, i, d) => m matches Ok(ev) && ev.tenant_id@ == tenant
            && ev.queue@ == queue && ev.pending == p && ev.inflight == i && ev.dlq == d
            && ev.timestamp == now,
    }
}

/// What a watcher is sent about a queue: its depth, or the error that ends the
/// watch.
pub fn watch_queue_depth(tenant_id: &str, queue: &str, outcome: &DepthOutcome, now: u64) -> (r:
    WatchStep)
    ensures
        watch_message_is(r.message, tenant_id@, queue@, *outcome, now),
        r.goes_on == (*outcome is Measured),
{
    match outcome {
        DepthOutcome::Broken(why) => WatchStep {
            message: Err(internal(text::join("blocking task failed: ", why.as_str()).as_str())),
            goes_on: false,
        },
        DepthOutcome::Refused(e) => WatchStep {
            message: Err(internal(e.message().as_str())),
            goes_on: false,
        },
        DepthOutcome::Measured(p, i, d) => WatchStep {
            message: Ok(
                QueueDepthEvent {
                    tenant_id: tenant_id.to_owned(),
                    queue: queue.to_owned(),
                    pending: *p as u64,
                    inflight: *i as u64,
                    dlq: *d as u64,
                    timestamp: now,
                },
            ),
            goes_on: true,
        },
    }
}

/// A dequeued task as a client sees it.
#[derive(Debug)]
pub struct DequeuedTask {
    pub ack_key: String,
    pub task_id: String,
    pub queue: String,
    pub payload: String,
    pub enqueued_at: u64,
    pub attempts: u32,
    pub deadline: u64,
}

/// The client sees the leased task: its key as text, and its payload as far as
/// it is text.
pub open spec fn shows(d: DequeuedTask, t: LeasedView) -> bool {
    &&& d.ack_key@ == ack_key::hex_text(t.0)
    &&& d.task_id@ == t.1.id
    &&& d.queue@ == t.1.queue
    &&& d.payload@ == text::text_from(t.1.payload)
    &&& d.enqueued_at == t.1.enqueued_at
    &&& d.attempts == t.1.attempts
    &&& d.deadline == t.1.deadline
}

/// Dequeued tasks as a client sees them, in their order.
pub fn present_tasks(tasks: &Vec<Leased>) -> (r: Vec<DequeuedTask>)
    ensures
        r@.len() == tasks@.len(),
        forall|i: int|
            0 <= i < r@.len() ==> shows(#[trigger] r@[i], tenant::leased_view(tasks@)[i]),
{
    let mut out: Vec<DequeuedTask> = Vec::new();
    let mut i: usize = 0;
    while i < tasks.len()
        invariant
            0 <= i <= tasks@.len(),
            out@.len() == i,
            forall|k: int|
                0 <= k < i ==> shows(#[trigger] out@[k], tenant::leased_view(tasks@)[k]),
        decreases tasks@.len() - i,
    {
        let (key, task) = &tasks[i];
        let d = DequeuedTask {
            ack_key: encode_ack_key(key.as_slice()),
            task_id: task.id.clone(),
            queue: task.queue.clone(),
            payload: text::text_of_bytes(task.payload.as_slice()),
            enqueued_at: task.enqueued_at,
            attempts: task.attempts,
            deadline: task.deadline,
        };
        assert(tenant::leased_view(tasks@)[i as int] == (key@, task@));
        assert(shows(d, (key@, task@)));
        out.push(d);
        i = i + 1;
    }
    out
}

/// How many tasks a request wants; 0 stands for the usual number.
pub open spec fn tasks_wanted(limit: u32) -> usize {
    if limit == 0 {
        DEFAULT_DEQUEUE_LIMIT
    } else {
        limit as usize
    }
}

/// How many tasks a request wants.
pub fn limit_meant(limit: u32) -> (r: usize)
    ensures
        r == tasks_wanted(limit),
        limit == 0 ==> r == 500,
{
    if limit == 0 {
        DEFAULT_DEQUEUE_LIMIT
    } else {
        limit as usize
    }
}

/// The keys that clients mean; the first that is none is refused.
pub fn decode_ack_keys(keys: &Vec<String>) -> (r: Result<Vec<Vec<u8>>, Status>)
    ensures
        match r {
            Ok(v) => {
                &&& keys@.len() > 0
                &&& v@.len() == keys@.len()
                &&& forall|i: int|
                    0 <= i < v@.len() ==> ack_key::is_hex(
                        encode_utf8(#[trigger] keys@[i]@),
                    ) && v@[i]@ == ack_key::hex_bytes(encode_utf8(keys@[i]@))
            },
            Err(s) => if keys@.len() == 0 {
                s@ == (StatusView {
                    code: Code::InvalidArgument,
                    message: "ack_keys must not be empty"@,
                })
            } else {
                exists|i: int, f: KeyFault|
                    0 <= i < keys@.len() && #[trigger] ack_key::is_fault(
                        encode_utf8(keys@[i]@),
                        f,
                    ) && s@ == bad_key(f) && forall|k: int|
                        0 <= k < i ==> ack_key::is_hex(encode_utf8(#[trigger] keys@[k]@))
            },
        },
{
    if keys.len() == 0 {
        return Err(invalid_argument("ack_keys must not be empty"));
    }
    let mut out: Vec<Vec<u8>> = Vec::new();
    let mut i: usize = 0;
    while i < keys.len()
        invariant
            0 <= i <= keys@.len(),
            keys@.len() > 0,
            out@.len() == i,
            forall|k: int|
                0 <= k < i ==> ack_key::is_hex(encode_utf8(#[trigger] keys@[k]@)) && out@[k]@
                    == ack_key::hex_bytes(encode_utf8(keys@[k]@)),
        decreases keys@.len() - i,
    {
        match decode_ack_key(keys[i].as_str()) {
            Ok(v) => {
                let ghost before = out@;
                out.push(v);
                assert forall|k: int| 0 <= k < i + 1 implies ack_key::is_hex(
                    encode_utf8(#[trigger] keys@[k]@),
                ) && out@[k]@ == ack_key::hex_bytes(encode_utf8(keys@[k]@)) by {
                    if k < i {
                        assert(out@[k] == before[k]);
                    }
                }
            },
            Err(s) => {
                assert(exists|f: KeyFault| #[trigger]
                    ack_key::is_fault(encode_utf8(keys@[i as int]@), f) && s@ == bad_key(f));
                return Err(s);
            },
        }
        i = i + 1;
    }
    Ok(out)
}

/// What a drain does next.
#[derive(Debug, Clone, Copy, PartialEq, Eq, Structural)]
pub enum DrainStep {
    /// It is over; whether all tasks are gone, and how many are left.
    Over { drained: bool, remaining: u64 },
    /// It looks again after the pause.
    Wait { pause_ms: u64 },
}

/// How long a drain may take, in seconds: at least one.
pub fn drain_timeout(timeout_secs: u64) -> (r: u64)
    ensures
        r == at_least_one(timeout_secs),
{
    if timeout_secs >= 1 {
        timeout_secs
    } else {
        1
    }
}

/// What a drain does next on what it sees of the queue.
pub open spec fn drain_next(pending: usize, inflight: usize, late: bool) -> DrainStep {
    if pending == 0 && inflight == 0 {
        DrainStep::Over { drained: true, remaining: 0 }
    } else if late {
        DrainStep::Over { drained: false, remaining: (pending + inflight) as u64 }
    } else {
        DrainStep::Wait { pause_ms: DRAIN_POLL_MS }
    }
}

/// What a drain does next on what it sees of the queue.
pub fn drain_step(pending: usize, inflight: usize, late: bool) -> (r: DrainStep)
    requires
        pending + inflight <= usize::MAX,
    ensures
        r == drain_next(pending, inflight, late),
        r matches DrainStep::Wait { pause_ms } ==> pause_ms == 500,
{
    if pending == 0 && inflight == 0 {
        return DrainStep::Over { drained: true, remaining: 0 };
    }
    if late {
        return DrainStep::Over { drained: false, remaining: (pending + inflight) as u64 };
    }
    DrainStep::Wait { pause_ms: DRAIN_POLL_MS }
}

/// The answer to a request for a checkpoint that failed is the client's fault
/// exactly where the error says that something must be otherwise.
pub fn checkpoint_is_bad_request(message: &str) -> (r: bool)
    ensures
        r == text::occurs_in(encode_utf8("must"@), encode_utf8(message@)),
{
    text::contains_text(message, "must")
}

/// What the clock and the store say when a tenant is registered.
pub struct Registration {
    /// The bit pattern of a full bucket.
    pub full_bucket: u64,
    /// The time in ticks of the scheduler's clock.
    pub ticks: u64,
    /// From where the baseline starts.
    pub start: BaselineStart,
    /// The baseline that was kept, if there is one.
    pub record: Option<BaselineRecord>,
    /// The time in milliseconds.
    pub now: u64,
}

/// The state that requests work on.
pub struct ControlPlaneService {
    pub registry: TenantRegistry,
    pub scheduler: WFQScheduler,
    pub collector: StatsCollector,
    pub throttle: AutoThrottle,
    pub baselines: BaselineRegistry,
    pub queues: Vec<String>,
}

/// The baseline that a tenant is registered with.
pub open spec fn registered_baseline(tenant: Seq<char>, reg: Registration) -> baseline::BaselineView {
    match reg.record {
        None => baseline::new_baseline(tenant, reg.start, reg.now),
        Some(r) => baseline::resumed(baseline::new_baseline(tenant, reg.start, reg.now), r@),
    }
}

/// A tenant is registered everywhere with its policy.
pub open spec fn registers(
    before: ControlPlaneService,
    after: ControlPlaneService,
    tenant: Seq<char>,
    p: PolicyView,
    reg: Registration,
) -> bool {
    &&& after.scheduler@ == (SchedulerView {
        tenants: before.scheduler@.tenants.insert(
            tenant,
            scheduler::newcomer(share_of(tenant, p), reg.full_bucket, reg.ticks),
        ),
        ..before.scheduler@
    })
    &&& after.collector@ == before.collector@.insert(tenant, stats::new_tally(tenant, reg.ticks))
    &&& after.collector.min_slots() == before.collector.min_slots()
    &&& after.collector.order() == (if before.collector@.contains_key(tenant) {
        before.collector.order()
    } else {
        before.collector.order().push(tenant)
    })
    &&& after.baselines@ == before.baselines@.insert(tenant, registered_baseline(tenant, reg))
    &&& after.throttle == before.throttle
    &&& after.queues == before.queues
}

impl ControlPlaneService {
    /// All parts are in order.
    pub open spec fn wf(&self) -> bool {
        &&& self.registry.wf()
        &&& self.scheduler.wf()
        &&& self.collector.wf()
        &&& self.throttle.wf()
        &&& self.baselines.wf()
    }

    /// The service over its parts.
    pub fn new(
        registry: TenantRegistry,
        scheduler: WFQScheduler,
        collector: StatsCollector,
        throttle: AutoThrottle,
        baselines: BaselineRegistry,
        queues: Vec<String>,
    ) -> (r: Self)
        requires
            registry.wf(),
            scheduler.wf(),
            collector.wf(),
            throttle.wf(),
            baselines.wf(),
        ensures
            r.wf(),
            r.registry == registry,
            r.scheduler == scheduler,
            r.collector == collector,
            r.throttle == throttle,
            r.baselines == baselines,
            r.queues == queues,
    {
        ControlPlaneService { registry, scheduler, collector, throttle, baselines, queues }
    }

    /// The policy that a tenant of a tier is provisioned with.
    pub fn policy_for_tier(tenant_id: &str, tier: &str) -> (r: NamespacePolicy)
        ensures
            r@ == tier_policy(tenant_id@, tier@),
    {
        if text::same_text(tier, "premium") {
            NamespacePolicy::premium(tenant_id)
        } else {
            NamespacePolicy::standard(tenant_id)
        }
    }

    /// Registers a tenant with its policy everywhere but in the registry.
    fn register_everywhere(&mut self, tenant_id: &str, policy: &NamespacePolicy, reg: &Registration)
        requires
            old(self).wf(),
        ensures
            final(self).wf(),
            final(self).registry == old(self).registry,
            registers(*old(self), *final(self), tenant_id@, policy@, *reg),
    {
        self.scheduler.register(
            scheduler_policy(tenant_id, policy),
            reg.full_bucket,
            reg.ticks,
        );
        self.collector.register(tenant_id, reg.ticks);
        self.baselines.register(tenant_id, &reg.start, &reg.record, reg.now);
    }

    /// A tenant was provisioned in the store: it is known from now on.
    pub fn provision_tenant(
        &mut self,
        tenant_id: &str,
        policy: NamespacePolicy,
        reg: &Registration,
    ) -> (r: TenantResponse)
        requires
            old(self).wf(),
        ensures
            final(self).wf(),
            is_done(r, tenant_id@, "provisioned"@),
            final(self).registry@ == (RegistryView {
                policies: old(self).registry@.policies.insert(tenant_id@, policy@),
                ..old(self).registry@
            }),
            registers(*old(self), *final(self), tenant_id@, policy@, *reg),
    {
        self.register_everywhere(tenant_id, &policy, reg);
        self.registry.policy_stored(tenant_id, policy);
        done(tenant_id, "provisioned")
    }

    /// Registers a tenant that the registry knows after a restart; tells
    /// whether it knows it.
    pub fn restore_tenant(&mut self, tenant_id: &str, reg: &Registration) -> (r: bool)
        requires
            old(self).wf(),
        ensures
            final(self).wf(),
            r == old(self).registry@.policies.contains_key(tenant_id@),
            final(self).registry == old(self).registry,
            r ==> registers(
                *old(self),
                *final(self),
                tenant_id@,
                old(self).registry@.policies[tenant_id@],
                *reg,
            ),
            !r ==> *final(self) == *old(self),
    {
        match self.registry.get_policy(tenant_id) {
            None => false,
            Some(policy) => {
                self.register_everywhere(tenant_id, &policy, reg);
                true
            },
        }
    }

    /// A tenant was dropped from the store: it is not known any more.
    pub fn drop_tenant(&mut self, tenant_id: &str) -> (r: TenantResponse)
        requires
            old(self).wf(),
        ensures
            final(self).wf(),
            is_done(r, tenant_id@, "dropped"@),
            final(self).registry@ == (RegistryView {
                policies: old(self).registry@.policies.remove(tenant_id@),
                ..old(self).registry@
            }),
            final(self).scheduler@ == (SchedulerView {
                tenants: old(self).scheduler@.tenants.remove(tenant_id@),
                ..old(self).scheduler@
            }),
            final(self).collector@ == old(self).collector@.remove(tenant_id@),
            final(self).collector.min_slots() == old(self).collector.min_slots(),
            final(self).collector.order() == tenant_map::delisted(
                old(self).collector.order(),
                tenant_id@,
            ),
            final(self).baselines@ == old(self).baselines@.remove(tenant_id@),
            final(self).throttle == old(self).throttle,
            final(self).queues == old(self).queues,
    {
        self.registry.tenant_dropped(tenant_id);
        self.scheduler.deregister(tenant_id);
        self.collector.deregister(tenant_id);
        self.baselines.deregister(tenant_id);
        done(tenant_id, "dropped")
    }

    /// Gives a tenant other shares.
    pub fn update_policy(
        &mut self,
        tenant_id: &str,
        policy: Option<PolicyMessage>,
        full_bucket: u64,
        ticks: u64,
    ) -> (r: Result<TenantResponse, Status>)
        requires
            old(self).wf(),
        ensures
            final(self).wf(),
            final(self).registry == old(self).registry,
            final(self).collector == old(self).collector,
            final(self).throttle == old(self).throttle,
            final(self).baselines == old(self).baselines,
            final(self).queues == old(self).queues,
            match policy {
                None => {
                    &&& r matches Err(s) && s@ == (StatusView {
                        code: Code::InvalidArgument,
                        message: "policy required"@,
                    })
                    &&& final(self).scheduler == old(self).scheduler
                },
                Some(p) => {
                    &&& r matches Ok(a) && is_done(a, tenant_id@, "policy updated"@)
                    &&& final(self).scheduler@ == (SchedulerView {
                        tenants: scheduler::repoliced(
                            old(self).scheduler@.tenants,
                            SharePolicy {
                                tenant_id: tenant_id@,
                                weight: p.weight,
                                max_inflight: p.max_inflight as usize,
                                burst_tokens: p.burst_tokens,
                                rate_per_sec: p.rate_per_sec,
                            },
                            full_bucket,
                            ticks,
                        ),
                        ..old(self).scheduler@
                    })
                },
            },
    {
        match policy {
            None => Err(invalid_argument("policy required")),
            Some(p) => {
                let share = TenantPolicy {
                    tenant_id: tenant_id.to_owned(),
                    weight: p.weight,
                    max_inflight: p.max_inflight as usize,
                    burst_tokens: p.burst_tokens,
                    rate_per_sec: p.rate_per_sec,
                };
                self.scheduler.update_policy(share, full_bucket, ticks);
                Ok(done(tenant_id, "policy updated"))
            },
        }
    }

    /// A tenant's shares. A bound on leases that the answer cannot hold is cut
    /// off.
    pub fn get_policy(&self, tenant_id: &str) -> (r: Result<PolicyMessage, Status>)
        requires
            self.wf(),
        ensures
            match r {
                Ok(p) => self.scheduler@.tenants.contains_key(tenant_id@) && p == ({
                    let q = self.scheduler@.tenants[tenant_id@].policy;
                    PolicyMessage {
                        weight: q.weight,
                        max_inflight: q.max_inflight as u32,
                        burst_tokens: q.burst_tokens,
                        rate_per_sec: q.rate_per_sec,
                    }
                }),
                Err(s) => !self.scheduler@.tenants.contains_key(tenant_id@) && s@ == (
                StatusView { code: Code::NotFound, message: "tenant not found"@ }),
            },
    {
        match self.scheduler.policy(tenant_id) {
            None => Err(not_found("tenant not found")),
            Some(p) => Ok(
                PolicyMessage {
                    weight: p.weight,
                    max_inflight: #[verifier::truncate] (p.max_inflight as u32),
                    burst_tokens: p.burst_tokens,
                    rate_per_sec: p.rate_per_sec,
                },
            ),
        }
    }

    /// A tenant's policy was kept: it counts from now on.
    pub fn namespace_policy_stored(&mut self, tenant_id: &str, policy: NamespacePolicy) -> (r:
        TenantResponse)
        requires
            old(self).wf(),
        ensures
            final(self).wf(),
            is_done(r, tenant_id@, "namespace policy set"@),
            final(self).registry@ == (RegistryView {
                policies: old(self).registry@.policies.insert(tenant_id@, policy@),
                ..old(self).registry@
            }),
            final(self).scheduler == old(self).scheduler,
            final(self).collector == old(self).collector,
            final(self).throttle == old(self).throttle,
            final(self).baselines == old(self).baselines,
            final(self).queues == old(self).queues,
    {
        self.registry.policy_stored(tenant_id, policy);
        done(tenant_id, "namespace policy set")
    }

    /// The policy of a tenant's namespace.
    pub fn get_namespace_policy(&self, tenant_id: &str) -> (r: Result<
        NamespacePolicyResponse,
        Status,
    >)
        requires
            self.wf(),
        ensures
            match r {
                Ok(a) => self.registry@.policies.contains_key(tenant_id@) && tells_policy(
                    a,
                    tenant_id@,
                    self.registry@.policies[tenant_id@],
                ),
                Err(s) => !self.registry@.policies.contains_key(tenant_id@) && s@ == (
                StatusView { code: Code::NotFound, message: "tenant not found"@ }),
            },
    {
        let p = match self.registry.get_policy(tenant_id) {
            None => return Err(not_found("tenant not found")),
            Some(p) => p,
        };
        let word = match p.backlog_policy {
            BacklogPolicy::Reject => "reject",
            BacklogPolicy::Block { .. } => "block",
            BacklogPolicy::EvictOldest => "evict_oldest",
        };
        Ok(
            NamespacePolicyResponse {
                tenant_id: tenant_id.to_owned(),
                backlog_quota: match p.backlog_quota {
                    None => 0,
                    Some(q) => q as u64,
                },
                backlog_policy: word.to_owned(),
                pending_retention_secs: p.retention.pending_retention_secs,
                dlq_retention_secs: p.retention.dlq_retention_secs,
                inflight_stale_secs: p.retention.inflight_stale_secs,
            },
        )
    }

    /// The queue that a tenant's status is about: the first one.
    pub fn status_queue(&self) -> (r: String)
        ensures
            r@ == (if self.queues@.len() > 0 {
                self.queues@[0]@
            } else {
                Seq::empty()
            }),
    {
        if self.queues.len() > 0 {
            self.queues[0].clone()
        } else {
            let r = String::new();
            r
        }
    }

    /// A tenant's status with the depth of its queue. A tenant that the
    /// scheduler does not know is not paused.
    pub fn get_tenant_status(&self, tenant_id: &str, depth: (usize, usize, usize)) -> (r:
        TenantStatus)
        requires
            self.wf(),
        ensures
            r.tenant_id@ == tenant_id@,
            r.pending == depth.0,
            r.inflight == depth.1,
            r.dlq == depth.2,
            r.paused == (self.scheduler@.tenants.contains_key(tenant_id@)
                && self.scheduler@.tenants[tenant_id@].paused),
    {
        let paused = match self.scheduler.tenant_snapshot(tenant_id) {
            None => false,
            Some(s) => s.paused,
        };
        TenantStatus {
            tenant_id: tenant_id.to_owned(),
            paused,
            pending: depth.0 as u64,
            inflight: depth.1 as u64,
            dlq: depth.2 as u64,
        }
    }

    /// The queue that new tasks go to, and the policy that counts for them.
    pub fn enqueue_task(&self, tenant_id: &str, queue: &str) -> (r: Result<
        (String, NamespacePolicy),
        Status,
    >)
        requires
            self.wf(),
        ensures
            match r {
                Ok((q, p)) => self.registry@.policies.contains_key(tenant_id@) && q@
                    == queue_meant(queue@) && p@ == self.registry@.policies[tenant_id@],
                Err(s) => !self.registry@.policies.contains_key(tenant_id@) && s@ == (
                StatusView { code: Code::NotFound, message: "tenant not found"@ }),
            },
    {
        match self.registry.get_policy(tenant_id) {
            None => Err(not_found("tenant not found")),
            Some(p) => Ok((queue_or_default(queue), p)),
        }
    }

    /// The same for several tasks, of which there must be one.
    pub fn enqueue_batch(&self, tenant_id: &str, queue: &str, count: usize) -> (r: Result<
        (String, NamespacePolicy),
        Status,
    >)
        requires
            self.wf(),
        ensures
            match r {
                Ok((q, p)) => count > 0 && self.registry@.policies.contains_key(tenant_id@)
                    && q@ == queue_meant(queue@) && p@ == self.registry@.policies[tenant_id@],
                Err(s) => if count == 0 {
                    s@ == (StatusView {
                        code: Code::InvalidArgument,
                        message: "payloads must not be empty"@,
                    })
                } else {
                    !self.registry@.policies.contains_key(tenant_id@) && s@ == (StatusView {
                        code: Code::NotFound,
                        message: "tenant not found"@,
                    })
                },
            },
    {
        if count == 0 {
            return Err(invalid_argument("payloads must not be empty"));
        }
        self.enqueue_task(tenant_id, queue)
    }

    /// Tasks were added: they are counted.
    pub fn enqueued(&mut self, tenant_id: &str, count: u64)
        requires
            old(self).wf(),
        ensures
            final(self).wf(),
            final(self).registry == old(self).registry,
            final(self).scheduler == old(self).scheduler,
            final(self).throttle == old(self).throttle,
            final(self).baselines == old(self).baselines,
            final(self).queues == old(self).queues,
            final(self).collector.min_slots() == old(self).collector.min_slots(),
            final(self).collector.order() == old(self).collector.order(),
            final(self).collector@ == (if old(self).collector@.contains_key(tenant_id@) {
                old(self).collector@.insert(
                    tenant_id@,
                    stats::with_enqueued(old(self).collector@[tenant_id@], count),
                )
            } else {
                old(self).collector@
            }),
    {
        self.collector.record_enqueue(tenant_id, count);
    }

    /// How a client's request for tasks is served: from which queue, how many
    /// at most, and within which bound on leases.
    pub fn dequeue_tasks(&self, tenant_id: &str, queue: &str, limit: u32) -> (r: Result<
        (String, usize, usize),
        Status,
    >)
        requires
            self.wf(),
        ensures
            match r {
                Ok((q, n, max_inflight)) => self.registry@.policies.contains_key(tenant_id@)
                    && q@ == queue_meant(queue@) && n == (if limit == 0 {
                    500
                } else {
                    limit as usize
                }) && max_inflight == self.registry@.policies[tenant_id@].max_inflight,
                Err(s) => !self.registry@.policies.contains_key(tenant_id@) && s@ == (
                StatusView { code: Code::NotFound, message: "tenant not found"@ }),
            },
    {
        match self.registry.get_policy(tenant_id) {
            None => Err(not_found("tenant not found")),
            Some(p) => Ok((queue_or_default(queue), limit_meant(limit), p.max_inflight)),
        }
    }

    /// A task was acknowledged, or was acknowledged before: the answer is the
    /// same, and only the first is counted.
    pub fn ack_task(&mut self, tenant_id: &str, acked: bool) -> (r: TenantResponse)
        requires
            old(self).wf(),
        ensures
            final(self).wf(),
            is_done(r, tenant_id@, "acked"@),
            final(self).registry == old(self).registry,
            final(self).scheduler == old(self).scheduler,
            final(self).throttle == old(self).throttle,
            final(self).baselines == old(self).baselines,
            final(self).queues == old(self).queues,
            final(self).collector.min_slots() == old(self).collector.min_slots(),
            final(self).collector.order() == old(self).collector.order(),
            final(self).collector@ == (if acked && old(self).collector@.contains_key(tenant_id@) {
                old(self).collector@.insert(
                    tenant_id@,
                    stats::with_acked(old(self).collector@[tenant_id@], 1, 0),
                )
            } else {
                old(self).collector@
            }),
    {
        if acked {
            self.collector.record_ack(tenant_id, 0);
        }
        done(tenant_id, "acked")
    }

    /// Tasks were acknowledged: they are counted, and the answer says how
    /// many.
    pub fn ack_batch(&mut self, tenant_id: &str, count: usize) -> (r: TenantResponse)
        requires
            old(self).wf(),
        ensures
            final(self).wf(),
            is_done(r, tenant_id@, "acked "@ + text::decimal(count as nat)),
            final(self).registry == old(self).registry,
            final(self).scheduler == old(self).scheduler,
            final(self).throttle == old(self).throttle,
            final(self).baselines == old(self).baselines,
            final(self).queues == old(self).queues,
            final(self).collector.min_slots() == old(self).collector.min_slots(),
            final(self).collector.order() == old(self).collector.order(),
            final(self).collector@ == (if old(self).collector@.contains_key(tenant_id@) {
                old(self).collector@.insert(
                    tenant_id@,
                    stats::with_acked(old(self).collector@[tenant_id@], count as u64, 0),
                )
            } else {
                old(self).collector@
            }),
    {
        self.collector.record_ack_count(tenant_id, count as u64, 0);
        let message = text::join("acked ", text::decimal_text(count as u64).as_str());
        done(tenant_id, message.as_str())
    }

    /// A task was given back: it is counted.
    pub fn nack_task(&mut self, tenant_id: &str) -> (r: TenantResponse)
        requires
            old(self).wf(),
        ensures
            final(self).wf(),
            is_done(r, tenant_id@, "nacked"@),
            final(self).registry == old(self).registry,
            final(self).scheduler == old(self).scheduler,
            final(self).throttle == old(self).throttle,
            final(self).baselines == old(self).baselines,
            final(self).queues == old(self).queues,
            final(self).collector.min_slots() == old(self).collector.min_slots(),
            final(self).collector.order() == old(self).collector.order(),
            final(self).collector@ == (if old(self).collector@.contains_key(tenant_id@) {
                old(self).collector@.insert(
                    tenant_id@,
                    stats::with_nacked(old(self).collector@[tenant_id@]),
                )
            } else {
                old(self).collector@
            }),
    {
        self.collector.record_nack(tenant_id);
        done(tenant_id, "nacked")
    }

    /// A tenant's traffic.
    pub fn get_tenant_stats(&self, tenant_id: &str) -> (r: Result<TenantStats, Status>)
        requires
            self.wf(),
        ensures
            match r {
                Ok(s) => self.collector@.contains_key(tenant_id@) && s@
                    == self.collector@[tenant_id@].stats,
                Err(s) => !self.collector@.contains_key(tenant_id@) && s@ == (StatusView {
                    code: Code::NotFound,
                    message: "tenant stats not found"@,
                }),
            },
    {
        match self.collector.snapshot(tenant_id) {
            None => Err(not_found("tenant stats not found")),
            Some(s) => Ok(s),
        }
    }

    /// How a tenant is slowed down.
    pub fn get_throttle_status(&self, tenant_id: &str) -> (r: Result<ThrottleState, Status>)
        requires
            self.wf(),
        ensures
            match r {
                Ok(t) => self.throttle@.states.contains_key(tenant_id@) && t@
                    == self.throttle@.states[tenant_id@],
                Err(s) => !self.throttle@.states.contains_key(tenant_id@) && s@ == (StatusView {
                    code: Code::NotFound,
                    message: "no throttle state"@,
                }),
            },
    {
        match self.throttle.snapshot(tenant_id) {
            None => Err(not_found("no throttle state")),
            Some(t) => Ok(t),
        }
    }

    /// Lets a tenant go whatever its traffic, and gives the writes that keep
    /// this.
    pub fn force_release_throttle(&mut self, tenant_id: &str) -> (r: (TenantResponse, Vec<Batch>))
        requires
            old(self).wf(),
        ensures
            final(self).wf(),
            is_done(r.0, tenant_id@, "throttle released"@),
            final(self).registry == old(self).registry,
            final(self).collector == old(self).collector,
            final(self).baselines == old(self).baselines,
            final(self).queues == old(self).queues,
            final(self).throttle@.config == old(self).throttle@.config,
            final(self).scheduler@.virtual_time == old(self).scheduler@.virtual_time,
            throttle::scene(
                final(self).throttle@.states,
                final(self).scheduler@.tenants,
                stats_store::batches_view(r.1@),
            ) == throttle::forced(
                throttle::scene(
                    old(self).throttle@.states,
                    old(self).scheduler@.tenants,
                    Seq::empty(),
                ),
                tenant_id@,
            ),
    {
        let writes = self.throttle.force_release(&mut self.scheduler, tenant_id);
        (done(tenant_id, "throttle released"), writes)
    }

    /// What is normal for a tenant.
    pub fn get_baseline_status(&self, tenant_id: &str) -> (r: Result<TenantBaseline, Status>)
        requires
            self.wf(),
        ensures
            match r {
                Ok(b) => self.baselines@.contains_key(tenant_id@) && b@
                    == self.baselines@[tenant_id@],
                Err(s) => !self.baselines@.contains_key(tenant_id@) && s@ == (StatusView {
                    code: Code::NotFound,
                    message: "no baseline"@,
                }),
            },
    {
        match self.baselines.snapshot(tenant_id) {
            None => Err(not_found("no baseline")),
            Some(b) => Ok(b),
        }
    }

    /// Pauses a tenant.
    pub fn pause_tenant(&mut self, tenant_id: &str) -> (r: Result<TenantResponse, Status>)
        requires
            old(self).wf(),
        ensures
            final(self).wf(),
            paused_answer(*old(self), *final(self), tenant_id@, true, r, "paused"@),
    {
        match self.scheduler.set_paused(tenant_id, true) {
            None => Err(not_found("tenant not found")),
            Some(_) => Ok(done(tenant_id, "paused")),
        }
    }

    /// Lets a paused tenant go on.
    pub fn resume_tenant(&mut self, tenant_id: &str) -> (r: Result<TenantResponse, Status>)
        requires
            old(self).wf(),
        ensures
            final(self).wf(),
            paused_answer(*old(self), *final(self), tenant_id@, false, r, "resumed"@),
    {
        match self.scheduler.set_paused(tenant_id, false) {
            None => Err(not_found("tenant not found")),
            Some(_) => Ok(done(tenant_id, "resumed")),
        }
    }

    /// Begins a drain: a known tenant is paused, and gets no new slots.
    pub fn begin_drain(&mut self, tenant_id: &str)
        requires
            old(self).wf(),
        ensures
            final(self).wf(),
            only_scheduler_changes(*old(self), *final(self)),
            final(self).scheduler@ == (SchedulerView {
                tenants: with_pause(old(self).scheduler@.tenants, tenant_id@, true),
                ..old(self).scheduler@
            }),
    {
        let _ = self.scheduler.set_paused(tenant_id, true);
    }

    /// What compaction has dropped and kept so far.
    pub fn get_compaction_stats(&self) -> (r: CompactionCounters)
        ensures
            r == self.registry@.counters,
    {
        *self.registry.compaction_counters()
    }
}

/// The standings with a tenant paused or not, if there is such a tenant.
pub open spec fn with_pause(m: Map<Seq<char>, Standing>, name: Seq<char>, paused: bool) -> Map<
    Seq<char>,
    Standing,
> {
    if m.contains_key(name) {
        m.insert(name, Standing { paused, ..m[name] })
    } else {
        m
    }
}

/// Nothing but the scheduler changes.
pub open spec fn only_scheduler_changes(
    before: ControlPlaneService,
    after: ControlPlaneService,
) -> bool {
    &&& after.registry == before.registry
    &&& after.collector == before.collector
    &&& after.throttle == before.throttle
    &&& after.baselines == before.baselines
    &&& after.queues == before.queues
}

/// What a request to pause or resume does and is answered.
pub open spec fn paused_answer(
    before: ControlPlaneService,
    after: ControlPlaneService,
    tenant: Seq<char>,
    paused: bool,
    r: Result<TenantResponse, Status>,
    message: Seq<char>,
) -> bool {
    &&& only_scheduler_changes(before, after)
    &&& after.scheduler@ == (SchedulerView {
        tenants: with_pause(before.scheduler@.tenants, tenant, paused),
        ..before.scheduler@
    })
    &&& match r {
        Ok(a) => before.scheduler@.tenants.contains_key(tenant) && is_done(a, tenant, message),
        Err(s) => !before.scheduler@.tenants.contains_key(tenant) && s@ == (StatusView {
            code: Code::NotFound,
            message: "tenant not found"@,
        }),
    }
}

/// A policy that was asked for is told back: the word for the backlog policy is
/// the one that asks for it, and 0 stands for no quota.
pub proof fn law_policy_told_back(req: NamespacePolicyRequest, r: NamespacePolicyResponse)
    requires
        tells_policy(r, req.tenant_id@, policy_meant(req)),
        req.backlog_quota <= usize::MAX,
    ensures
        r.backlog_quota == req.backlog_quota,
        backlog_meant(r.backlog_policy@, req.block_timeout_ms) == backlog_meant(
            req.backlog_policy@,
            req.block_timeout_ms,
        ),
        r.pending_retention_secs == req.pending_retention_secs,
        req.dlq_retention_secs != 0 ==> r.dlq_retention_secs == req.dlq_retention_secs,
        req.inflight_stale_secs != 0 ==> r.inflight_stale_secs == req.inflight_stale_secs,
{
    reveal_strlit("reject");
    reveal_strlit("block");
    reveal_strlit("evict_oldest");
    assert("reject"@.len() == 6);
    assert("block"@.len() == 5);
    assert("evict_oldest"@.len() == 12);
}

/// The key that a client gets with a task is the key that the task is
/// acknowledged under when it comes back.
pub proof fn law_client_key_returns(d: DequeuedTask, t: LeasedView)
    requires
        shows(d, t),
    ensures
        ack_key::is_hex(encode_utf8(d.ack_key@)),
        ack_key::hex_bytes(encode_utf8(d.ack_key@)) == t.0,
{
    ack_key::law_ack_key_roundtrip(t.0);
}

/// A payload that is text reaches the client as it was.
pub proof fn law_text_payload_unchanged(d: DequeuedTask, t: LeasedView, payload: Seq<char>)
    requires
        shows(d, t),
        t.1.payload == encode_utf8(payload),
    ensures
        d.payload@ == payload,
{
    text::lemma_text_from(payload);
}

/// A paused tenant is not eligible for slots, and resuming it undoes the pause.
pub proof fn law_paused_is_not_eligible(m: Map<Seq<char>, Standing>, name: Seq<char>)
    requires
        m.contains_key(name),
    ensures
        !scheduler::eligible(with_pause(m, name, true)[name]),
        with_pause(with_pause(m, name, true), name, false) == with_pause(m, name, false),
{
    assert(with_pause(with_pause(m, name, true), name, false) =~= with_pause(m, name, false));
}

/// How errors are answered: what is missing is not found, a full backlog is exhausted,
/// and everything else is the server's fault.
pub proof fn law_errors_answered(f: Fault)
    ensures
        fault_code(f) == Code::NotFound <==> f is ColumnFamilyMissing || f is QueueNotFound || f
            is TaskNotFound,
        fault_code(f) == Code::ResourceExhausted <==> f is BacklogQuotaExceeded,
        fault_code(f) == Code::Internal <==> f is Store || f is Serialization || f is Io,
{
}

/// A named queue is meant as it is named, and no name means the default one.
pub proof fn law_queue_meant(queue: Seq<char>)
    ensures
        queue.len() > 0 ==> queue_meant(queue) == queue,
        queue.len() == 0 ==> queue_meant(queue) == "default"@,
{
}

/// A text that is no key is the client's fault, in words.
pub proof fn law_bad_key_answered(f: KeyFault, c: char, index: usize)
    ensures
        bad_key(f).code == Code::InvalidArgument,
        bad_key(KeyFault::OddLength).message == "invalid ack_key: "@ + "Odd number of digits"@,
        bad_key((KeyFault::InvalidCharacter { c, index })).message == "invalid ack_key: "@ + (
        "Invalid character "@ + ack_key::quoted_char(c) + " at position "@ + text::decimal(
            index as nat,
        )),
{
}

/// What a tier gets: the premium tier its own shares, quota and waiting; every other word
/// the standard ones.
pub proof fn law_tier_counts(tenant: Seq<char>, tier: Seq<char>)
    ensures
        ({
            let p = tier_policy(tenant, tier);
            &&& p.tenant_id == tenant && p.namespace == tenant
            &&& tier == "premium"@ ==> p.weight == 50 && p.max_inflight == 5000 && p.burst_tokens
                == 1000 && p.rate_per_sec == 1000 && p.backlog_quota == Some(1_000_000usize)
                && p.backlog_policy == (BacklogPolicy::Block { timeout_ms: 5000 })
            &&& tier != "premium"@ ==> p.weight == 10 && p.max_inflight == 500 && p.burst_tokens
                == 100 && p.rate_per_sec == 100 && p.backlog_quota == Some(100_000usize)
                && p.backlog_policy == BacklogPolicy::Reject
        }),
{
}

/// The scheduler gets the shares of a policy as they are.
pub proof fn law_shares_taken_over(tenant: Seq<char>, p: PolicyView)
    ensures
        ({
            let s = share_of(tenant, p);
            &&& s.tenant_id == tenant
            &&& s.weight == p.weight
            &&& s.max_inflight == p.max_inflight
            &&& s.burst_tokens == p.burst_tokens
            &&& s.rate_per_sec == p.rate_per_sec
        }),
{
}

/// What a request for a policy means: the quota that is asked for, none for 0; the
/// backlog policy of the word, with the timeout for a wait; the retention times that are
/// asked for, and a week and five minutes where 0 is; the shares are the standard ones.
pub proof fn law_policy_meant(req: NamespacePolicyRequest)
    ensures
        ({
            let p = policy_meant(req);
            &&& p.tenant_id == req.tenant_id@ && p.namespace == req.tenant_id@
            &&& p.weight == 10 && p.max_inflight == 500 && p.burst_tokens == 100 && p.rate_per_sec
                == 100
            &&& p.backlog_quota is None <==> req.backlog_quota == 0
            &&& 0 < req.backlog_quota <= usize::MAX ==> p.backlog_quota->0 == req.backlog_quota
            &&& req.backlog_policy@ == "block"@ ==> p.backlog_policy == (BacklogPolicy::Block {
                timeout_ms: req.block_timeout_ms,
            })
            &&& req.backlog_policy@ == "evict_oldest"@ ==> p.backlog_policy
                == BacklogPolicy::EvictOldest
            &&& req.backlog_policy@ != "block"@ && req.backlog_policy@ != "evict_oldest"@
                ==> p.backlog_policy == BacklogPolicy::Reject
            &&& p.retention.pending_retention_secs == req.pending_retention_secs
            &&& req.dlq_retention_secs > 0 ==> p.retention.dlq_retention_secs
                == req.dlq_retention_secs
            &&& req.dlq_retention_secs == 0 ==> p.retention.dlq_retention_secs == 7 * 24 * 60 * 60
            &&& req.inflight_stale_secs > 0 ==> p.retention.inflight_stale_secs
                == req.inflight_stale_secs
            &&& req.inflight_stale_secs == 0 ==> p.retention.inflight_stale_secs == 5 * 60
        }),
{
    reveal_strlit("block");
    reveal_strlit("evict_oldest");
    assert("block"@.len() == 5);
    assert("evict_oldest"@.len() == 12);
}

/// An answer about a policy tells its quota, 0 for none, the word for its backlog policy,
/// and its retention times.
pub proof fn law_policy_told(r: NamespacePolicyResponse, tenant: Seq<char>, p: PolicyView)
    requires
        tells_policy(r, tenant, p),
    ensures
        r.tenant_id@ == tenant,
        p.backlog_quota matches Some(q) ==> r.backlog_quota == q,
        p.backlog_quota is None ==> r.backlog_quota == 0,
        p.backlog_policy is Reject ==> r.backlog_policy@ == "reject"@,
        p.backlog_policy is Block ==> r.backlog_policy@ == "block"@,
        p.backlog_policy is EvictOldest ==> r.backlog_policy@ == "evict_oldest"@,
        r.pending_retention_secs == p.retention.pending_retention_secs,
        r.dlq_retention_secs == p.retention.dlq_retention_secs,
        r.inflight_stale_secs == p.retention.inflight_stale_secs,
{
}

/// A watcher is told the depth of the queue, with the time, or the error, which is the
/// server's fault.
pub proof fn law_watcher_told(
    m: Result<QueueDepthEvent, Status>,
    tenant: Seq<char>,
    queue: Seq<char>,
    outcome: DepthOutcome,
    now: u64,
)
    requires
        watch_message_is(m, tenant, queue, outcome, now),
    ensures
        outcome is Measured <==> m is Ok,
        outcome matches DepthOutcome::Measured(p, i, d) ==> {
            let ev = m->Ok_0;
            &&& ev.tenant_id@ == tenant && ev.queue@ == queue
            &&& ev.pending == p && ev.inflight == i && ev.dlq == d
            &&& ev.timestamp == now
        },
        m matches Err(s) ==> s.code == Code::Internal,
        outcome matches DepthOutcome::Broken(why) ==> m->Err_0.message@ == "blocking task failed: "@
            + why@,
        outcome matches DepthOutcome::Refused(e) ==> !(e@ is Serialization) ==> m->Err_0.message@
            == error::fault_text(e@),
{
}

/// A client sees of a leased task what the task is.
pub proof fn law_client_sees_task(d: DequeuedTask, t: LeasedView)
    requires
        shows(d, t),
    ensures
        d.ack_key@ == ack_key::hex_text(t.0),
        d.task_id@ == t.1.id,
        d.queue@ == t.1.queue,
        d.enqueued_at == t.1.enqueued_at,
        d.attempts == t.1.attempts,
        d.deadline == t.1.deadline,
{
}

/// An answer that it is done says so, for the tenant, in the words.
pub proof fn law_done_says_so(r: TenantResponse, tenant: Seq<char>, message: Seq<char>)
    requires
        is_done(r, tenant, message),
    ensures
        r.success,
        r.tenant_id@ == tenant,
        r.message@ == message,
{
}

/// A registered tenant stands with the shares of its policy and a full bucket, has
/// nothing leased, is not paused, has no traffic yet, and what is normal for it is what
/// was kept, if something was. Nothing changes for other tenants.
pub proof fn law_registered_everywhere(
    before: ControlPlaneService,
    after: ControlPlaneService,
    tenant: Seq<char>,
    p: PolicyView,
    reg: Registration,
    other: Seq<char>,
)
    requires
        registers(before, after, tenant, p, reg),
        other != tenant,
    ensures
        after.scheduler@.tenants.contains_key(tenant),
        ({
            let s = after.scheduler@.tenants[tenant];
            &&& s.policy.tenant_id == tenant
            &&& s.policy.weight == p.weight && s.policy.max_inflight == p.max_inflight
            &&& s.policy.burst_tokens == p.burst_tokens && s.policy.rate_per_sec == p.rate_per_sec
            &&& s.tokens == reg.full_bucket && s.inflight == 0 && !s.paused && s.finish == 0
            &&& s.last_refill == reg.ticks && s.created_at == reg.ticks
        }),
        after.scheduler@.virtual_time == before.scheduler@.virtual_time,
        after.scheduler@.tenants.contains_key(other) <==> before.scheduler@.tenants.contains_key(
            other,
        ),
        after.scheduler@.tenants[other] == before.scheduler@.tenants[other],
        after.collector@.contains_key(tenant),
        after.collector@[tenant] == stats::new_tally(tenant, reg.ticks),
        after.collector@.contains_key(other) <==> before.collector@.contains_key(other),
        after.collector@[other] == before.collector@[other],
        after.baselines@.contains_key(tenant),
        after.baselines@[tenant].tenant_id == tenant,
        reg.record is None ==> after.baselines@[tenant].long_ema == reg.start.rate
            && after.baselines@[tenant].spike_threshold == reg.start.spike_threshold,
        reg.record matches Some(r) ==> after.baselines@[tenant].short_ema == r@.short_ema
            && after.baselines@[tenant].long_ema == r@.long_ema
            && after.baselines@[tenant].spike_threshold == r@.spike_threshold,
        after.baselines@.contains_key(other) <==> before.baselines@.contains_key(other),
        after.baselines@[other] == before.baselines@[other],
        after.throttle == before.throttle,
        after.queues == before.queues,
{
}

/// Pausing sets the mark of the tenant and nothing else; an unknown tenant is not found,
/// and nothing changes.
pub proof fn law_pause_marks(
    before: ControlPlaneService,
    after: ControlPlaneService,
    tenant: Seq<char>,
    paused: bool,
    r: Result<TenantResponse, Status>,
    message: Seq<char>,
    other: Seq<char>,
)
    requires
        paused_answer(before, after, tenant, paused, r, message),
        other != tenant,
    ensures
        ({
            let old_ones = before.scheduler@.tenants;
            let new_ones = after.scheduler@.tenants;
            &&& r is Ok <==> old_ones.contains_key(tenant)
            &&& old_ones.contains_key(tenant) ==> new_ones.contains_key(tenant)
                && new_ones[tenant].paused == paused && new_ones[tenant].inflight
                == old_ones[tenant].inflight && new_ones[tenant].tokens == old_ones[tenant].tokens
                && new_ones[tenant].finish == old_ones[tenant].finish && new_ones[tenant].policy
                == old_ones[tenant].policy && new_ones[tenant].last_refill
                == old_ones[tenant].last_refill && new_ones[tenant].created_at
                == old_ones[tenant].created_at
            &&& !old_ones.contains_key(tenant) ==> new_ones == old_ones
            &&& new_ones.contains_key(other) <==> old_ones.contains_key(other)
            &&& new_ones[other] == old_ones[other]
        }),
        r matches Ok(a) ==> a.success && a.tenant_id@ == tenant && a.message@ == message,
        r matches Err(s) ==> s.code == Code::NotFound && s.message@ == "tenant not found"@,
        after.scheduler@.virtual_time == before.scheduler@.virtual_time,
        after.registry == before.registry && after.collector == before.collector && after.throttle
            == before.throttle && after.baselines == before.baselines && after.queues
            == before.queues,
{
}

/// A client that takes tasks has a minute for them.
pub proof fn law_client_lease(now: u64)
    ensures
        now + CLIENT_LEASE_MS == now + 60 * 1000,
{
}

/// A drain is over when nothing waits and nothing is leased, and also when it is late;
/// it tells which, and how many tasks are left. Otherwise it looks again in half a
/// second.
pub proof fn law_drain_ends(pending: usize, inflight: usize, late: bool)
    requires
        pending + inflight <= usize::MAX,
    ensures
        ({
            let r = drain_next(pending, inflight, late);
            &&& r is Over <==> late || pending + inflight == 0
            &&& r matches DrainStep::Over { drained, remaining } ==> remaining == pending + inflight
                && (drained <==> remaining == 0)
            &&& r matches DrainStep::Wait { pause_ms } ==> pause_ms == 500
        }),
{
}

/// A watch measures every queue once between two ticks, in order, and is served once a
/// second where it asks for more; a drain has a second at least.
pub proof fn law_watch_serves_all(queues: usize, at: usize, secs: u64)
    ensures
        at < queues <==> watch_action(queues, at) == WatchAction::Measure(at),
        at >= queues <==> watch_action(queues, at) is Tick,
        at_least_one(secs) >= 1,
        secs > 0 ==> at_least_one(secs) == secs,
        secs == 0 ==> at_least_one(secs) == 1,
{
}

/// A request gets as many tasks as it wants, and five hundred where it does not say.
pub proof fn law_tasks_wanted(limit: u32)
    ensures
        limit > 0 ==> tasks_wanted(limit) == limit,
        limit == 0 ==> tasks_wanted(limit) == 500,
{
}

} // verus!
