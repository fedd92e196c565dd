//! The queue over a store in memory.

use std::collections::BTreeMap;

use rocksqueue::baseline::{BaselineRegistry, BaselineStart};
use rocksqueue::compaction::{CompactionFilter, Decision};
use rocksqueue::error::{IoKind, QueueError};
use rocksqueue::fair_worker::{FairWorkerPool, TaskEvent, TaskStep};
use rocksqueue::grpc::control_plane::{
    decode_ack_key, decode_ack_keys, present_tasks, queue_error, Code, ControlPlaneService,
    DequeuedTask, Registration, Status, TenantResponse, CLIENT_LEASE_MS,
};
use rocksqueue::policy::{BacklogPolicy, NamespacePolicy, RetentionPolicy};
use rocksqueue::reaper::reap_inflight;
use rocksqueue::scheduler::WFQScheduler;
use rocksqueue::stats::StatsCollector;
use rocksqueue::store::{Batch, Record, Scan, WriteOp};
use rocksqueue::task::{decode_key_seq, encode_key, now_millis, queue_prefix, Task};
use rocksqueue::tenant::admission::{Admission, EnqueueEvent, EnqueueStep};
use rocksqueue::tenant::admin::{AdminStep, FamilyOptions, FamilyPlan};
use rocksqueue::tenant::dequeue::{attempts_countable, Candidate, Candidates};
use rocksqueue::tenant::quota::{QuotaEvent, QuotaStep};
use rocksqueue::tenant::{DbConfig, Families, TenantRegistry};
use rocksqueue::throttle::{AutoThrottle, ThrottleConfig};

const SYSTEM: &str = "__system__";

type Leased = (Vec<u8>, Task);

/// Column families in memory.
#[derive(Default)]
struct Db {
    tables: BTreeMap<String, BTreeMap<Vec<u8>, Vec<u8>>>,
    options: BTreeMap<String, FamilyOptions>,
}

impl Db {
    fn listing(&self) -> Option<Vec<String>> {
        if self.tables.is_empty() {
            return None;
        }
        Some(self.tables.keys().cloned().collect())
    }

    fn create(&mut self, plan: &FamilyPlan) -> Result<(), QueueError> {
        if self.tables.contains_key(&plan.name) {
            return Err(QueueError::RocksDB(format!("{} exists", plan.name)));
        }
        self.tables.insert(plan.name.clone(), BTreeMap::new());
        self.options.insert(plan.name.clone(), plan.options);
        Ok(())
    }

    fn scan_from(&self, cf: &str, from: &[u8]) -> Scan {
        let records = match self.tables.get(cf) {
            None => Vec::new(),
            Some(t) => t
                .range(from.to_vec()..)
                .map(|(k, v)| Record { key: k.clone(), value: v.clone() })
                .collect(),
        };
        Scan { records, failure: None }
    }

    fn scan_prefix(&self, cf: &str, prefix: &[u8]) -> Scan {
        let mut scan = self.scan_from(cf, prefix);
        scan.records.retain(|r| r.key.starts_with(prefix));
        scan
    }

    fn get(&self, cf: &str, key: &[u8]) -> Option<Vec<u8>> {
        self.tables.get(cf).and_then(|t| t.get(key)).cloned()
    }

    fn put(&mut self, cf: &str, key: &[u8], value: &[u8]) {
        self.tables.get_mut(cf).unwrap().insert(key.to_vec(), value.to_vec());
    }

    fn write(&mut self, batch: Batch) {
        for op in batch.ops {
            match op {
                WriteOp::Put { cf, key, value } => {
                    self.tables.get_mut(&cf).unwrap().insert(key, value);
                }
                WriteOp::Delete { cf, key } => {
                    self.tables.get_mut(&cf).unwrap().remove(&key);
                }
            }
        }
    }
}

/// A registry and its store.
struct Queue {
    registry: TenantRegistry,
    db: Db,
}

fn config() -> DbConfig {
    DbConfig {
        sst_path: "sst".to_string(),
        wal_path: "wal".to_string(),
        block_cache_bytes: 16 * 1024 * 1024,
        write_buffer_bytes: 4 * 1024 * 1024,
        max_write_buffers: 2,
    }
}

fn make_registry() -> Queue {
    Queue::open(&config(), Db::default())
}

impl Queue {
    fn open(cfg: &DbConfig, mut db: Db) -> Queue {
        let existing = if TenantRegistry::holds_tenants(&db.listing()) {
            TenantRegistry::load_persisted_tenants(&db.scan_from(SYSTEM, b"tenant:")).unwrap()
        } else {
            Vec::new()
        };
        let (registry, plan) = TenantRegistry::open(cfg, existing, now_millis());
        for f in &plan.families {
            if !db.tables.contains_key(&f.name) {
                db.create(f).unwrap();
            }
            db.options.insert(f.name.clone(), f.options);
        }
        Queue { registry, db }
    }

    fn families(&self, tenant: &str) -> Families {
        Families {
            pending: self.db.tables.contains_key(&format!("{tenant}__pending")),
            inflight: self.db.tables.contains_key(&format!("{tenant}__inflight")),
            dlq: self.db.tables.contains_key(&format!("{tenant}__dlq")),
        }
    }

    fn scan(&self, tenant: &str, family: &str, queue: &str) -> Scan {
        self.db.scan_prefix(&format!("{tenant}__{family}"), &queue_prefix(queue))
    }

    fn perform(&mut self, steps: Vec<AdminStep>) -> Result<(), QueueError> {
        for step in steps {
            match step {
                AdminStep::CreateFamily(plan) => self.db.create(&plan)?,
                AdminStep::DropFamily(name) => {
                    self.db.tables.remove(&name);
                }
                AdminStep::RequireFamily(name) => {
                    if !self.db.tables.contains_key(&name) {
                        return Err(QueueError::ColumnFamilyMissing(name));
                    }
                }
                AdminStep::Write(batch) => self.db.write(batch),
            }
        }
        Ok(())
    }

    fn provision_tenant(&mut self, tenant: &str, policy: NamespacePolicy) -> Result<(), QueueError> {
        let steps = self.registry.provision_tenant(tenant, &policy)?;
        self.perform(steps)?;
        self.registry.policy_stored(tenant, policy);
        Ok(())
    }

    fn drop_tenant(&mut self, tenant: &str) -> Result<(), QueueError> {
        self.perform(TenantRegistry::drop_tenant(tenant))?;
        self.registry.tenant_dropped(tenant);
        Ok(())
    }

    fn update_namespace_policy(
        &mut self,
        tenant: &str,
        policy: NamespacePolicy,
    ) -> Result<(), QueueError> {
        let steps = self.registry.update_namespace_policy(tenant, &policy)?;
        self.perform(steps)?;
        self.registry.policy_stored(tenant, policy);
        Ok(())
    }

    fn depth(&self, tenant: &str, queue: &str) -> Result<(usize, usize, usize), QueueError> {
        TenantRegistry::depth(
            tenant,
            &self.families(tenant),
            &self.scan(tenant, "pending", queue),
            &self.scan(tenant, "inflight", queue),
            &self.scan(tenant, "dlq", queue),
        )
    }

    /// Admits new tasks; time passes by the pauses that are asked for.
    fn enforce_quota(
        &mut self,
        tenant: &str,
        queue: &str,
        policy: &NamespacePolicy,
        incoming: usize,
    ) -> Result<u64, QueueError> {
        let start = now_millis();
        let mut now = start;
        let mut event = QuotaEvent::Begin;
        loop {
            match TenantRegistry::enforce_quota(tenant, queue, policy, incoming, event, now)? {
                QuotaStep::Admit => return Ok(now - start),
                QuotaStep::Measure { pause_ms, deadline } => {
                    now += pause_ms;
                    let (pending, inflight, _) = self.depth(tenant, queue)?;
                    event = QuotaEvent::Measured { pending, inflight, deadline };
                }
                QuotaStep::Evict { count } => {
                    let batch = TenantRegistry::evict_oldest_pending(
                        tenant,
                        count,
                        &self.families(tenant),
                        &self.scan(tenant, "pending", queue),
                    )?;
                    if let Some(b) = batch {
                        self.db.write(b);
                    }
                    return Ok(now - start);
                }
            }
        }
    }

    fn enqueue(
        &mut self,
        tenant: &str,
        queue: &str,
        payload: Vec<u8>,
        policy: &NamespacePolicy,
    ) -> Result<String, QueueError> {
        let mut now = now_millis();
        let mut event = EnqueueEvent::Begin;
        loop {
            let fam = self.families(tenant);
            match self.registry.enqueue(tenant, queue, &payload, policy, &fam, &event, now)? {
                EnqueueStep::Measure { pause_ms, deadline } => {
                    now += pause_ms;
                    event = self.measure(tenant, queue, deadline);
                }
                EnqueueStep::Write { evict, mut added } => {
                    if let Some(b) = evict {
                        self.db.write(b);
                    }
                    self.db.write(added.batch);
                    return Ok(added.ids.remove(0));
                }
            }
        }
    }

    /// The queue's records, as they are measured for an enqueue.
    fn measure(&self, tenant: &str, queue: &str, deadline: Option<u64>) -> EnqueueEvent {
        EnqueueEvent::Measured {
            pending: self.scan(tenant, "pending", queue),
            inflight: self.scan(tenant, "inflight", queue),
            dlq: self.scan(tenant, "dlq", queue),
            deadline,
        }
    }

    fn dequeue(&mut self, tenant: &str, queue: &str, limit: usize) -> Result<Vec<Leased>, QueueError> {
        let scan = self.scan(tenant, "pending", queue);
        assert!(attempts_countable(&scan.records, limit));
        let got = TenantRegistry::dequeue(
            tenant,
            queue,
            limit,
            &self.families(tenant),
            now_millis(),
            &scan,
        )?;
        if let Some(b) = got.batch {
            self.db.write(b);
        }
        Ok(got.tasks)
    }

    fn ack(&mut self, tenant: &str, key: &[u8]) -> Result<bool, QueueError> {
        let present = self.db.get(&format!("{tenant}__inflight"), key).is_some();
        let (acked, batch) = TenantRegistry::ack(tenant, key, &self.families(tenant), present)?;
        self.db.write(batch);
        Ok(acked)
    }

    fn nack(&mut self, tenant: &str, key: &[u8]) -> Result<(), QueueError> {
        let found = self.db.get(&format!("{tenant}__inflight"), key);
        let fam = self.families(tenant);
        if let Some(b) = self.registry.nack(tenant, key, &fam, found, now_millis())? {
            self.db.write(b);
        }
        Ok(())
    }

    fn purge_dlq(&mut self, tenant: &str) -> Result<usize, QueueError> {
        let scan = self.db.scan_from(&format!("{tenant}__dlq"), b"");
        let (n, batch) = TenantRegistry::purge_dlq(tenant, &self.families(tenant), &scan)?;
        if let Some(b) = batch {
            self.db.write(b);
        }
        Ok(n)
    }

    fn replay_dlq(&mut self, tenant: &str) -> Result<usize, QueueError> {
        let scan = self.db.scan_from(&format!("{tenant}__dlq"), b"");
        let fam = self.families(tenant);
        let (n, batch) = self.registry.replay_dlq(tenant, &fam, &scan)?;
        if let Some(b) = batch {
            self.db.write(b);
        }
        Ok(n)
    }

    fn reap(&mut self, tenant: &str, queue: &str, now: u64) -> Result<(), QueueError> {
        let scan = self.db.scan_from(&format!("{tenant}__inflight"), &queue_prefix(queue));
        if let Some(b) = reap_inflight(tenant, queue, &self.families(tenant), now, &scan)? {
            self.db.write(b);
        }
        Ok(())
    }
}

fn provision(q: &mut Queue, tenant: &str) -> NamespacePolicy {
    let policy = NamespacePolicy::standard(tenant);
    q.provision_tenant(tenant, policy.clone()).unwrap();
    policy
}

// Backlog quotas.

#[test]
fn test_reject_policy_exceeds_quota() {
    let mut registry = make_registry();

    let mut policy = NamespacePolicy::standard("acme");
    policy.backlog_quota = Some(3);
    policy.backlog_policy = BacklogPolicy::Reject;
    registry.provision_tenant("acme", policy.clone()).unwrap();

    for i in 0..3 {
        registry.enqueue("acme", "default", format!("task{i}").into_bytes(), &policy).unwrap();
    }

    let result = registry.enqueue("acme", "default", b"overflow".to_vec(), &policy);
    assert!(matches!(result, Err(QueueError::BacklogQuotaExceeded { .. })));
}

#[test]
fn test_evict_oldest_policy() {
    let mut registry = make_registry();

    let mut policy = NamespacePolicy::standard("acme");
    policy.backlog_quota = Some(3);
    policy.backlog_policy = BacklogPolicy::EvictOldest;
    registry.provision_tenant("acme", policy.clone()).unwrap();

    for i in 0..3 {
        registry.enqueue("acme", "default", format!("task{i}").into_bytes(), &policy).unwrap();
    }

    registry.enqueue("acme", "default", b"new_task".to_vec(), &policy).unwrap();

    let (pending, _, _) = registry.depth("acme", "default").unwrap();
    assert!(pending <= 3);
}

#[test]
fn test_no_quota_allows_unlimited() {
    let mut registry = make_registry();

    let mut policy = NamespacePolicy::standard("acme");
    policy.backlog_quota = None;
    registry.provision_tenant("acme", policy.clone()).unwrap();

    for i in 0..100 {
        registry.enqueue("acme", "default", format!("task{i}").into_bytes(), &policy).unwrap();
    }

    let (pending, _, _) = registry.depth("acme", "default").unwrap();
    assert_eq!(pending, 100);
}

#[test]
fn eviction_drops_the_oldest_and_keeps_the_rest() {
    let mut q = make_registry();
    let mut policy = NamespacePolicy::standard("acme");
    policy.backlog_quota = Some(3);
    policy.backlog_policy = BacklogPolicy::EvictOldest;
    q.provision_tenant("acme", policy.clone()).unwrap();
    for i in 0..4 {
        q.enqueue("acme", "default", format!("task{i}").into_bytes(), &policy).unwrap();
    }
    let left: Vec<Vec<u8>> =
        q.dequeue("acme", "default", 10).unwrap().into_iter().map(|(_, t)| t.payload).collect();
    assert_eq!(left, vec![b"task1".to_vec(), b"task2".to_vec(), b"task3".to_vec()]);
}

#[test]
fn a_refused_task_leaves_the_queue_as_it_was() {
    let mut q = make_registry();
    let mut policy = NamespacePolicy::standard("acme");
    policy.backlog_quota = Some(3);
    policy.backlog_policy = BacklogPolicy::Reject;
    q.provision_tenant("acme", policy.clone()).unwrap();
    for i in 0..3u8 {
        q.enqueue("acme", "default", vec![i], &policy).unwrap();
    }
    match q.enqueue("acme", "default", vec![9], &policy) {
        Err(QueueError::BacklogQuotaExceeded { current, quota, incoming, .. }) => {
            assert_eq!((current, quota, incoming), (3, 3, 1));
        }
        other => panic!("{other:?}"),
    }
    assert_eq!(q.depth("acme", "default").unwrap(), (3, 0, 0));
    let left: Vec<Vec<u8>> =
        q.dequeue("acme", "default", 10).unwrap().into_iter().map(|(_, t)| t.payload).collect();
    assert_eq!(left, vec![vec![0], vec![1], vec![2]]);
}

#[test]
fn a_batch_evicts_as_many_as_are_too_many() {
    let mut q = make_registry();
    let mut policy = NamespacePolicy::standard("acme");
    policy.backlog_quota = Some(4);
    policy.backlog_policy = BacklogPolicy::EvictOldest;
    q.provision_tenant("acme", policy.clone()).unwrap();
    for i in 0..4u8 {
        q.enqueue("acme", "default", vec![i], &policy).unwrap();
    }
    let held = q.dequeue("acme", "default", 1).unwrap();
    assert_eq!(held[0].1.payload, vec![0]);
    let payloads = vec![vec![7u8], vec![8u8]];
    let fam = q.families("acme");
    let first = q
        .registry
        .enqueue_batch("acme", "default", &payloads, &policy, &fam, &EnqueueEvent::Begin, 5)
        .unwrap();
    let deadline = match first {
        EnqueueStep::Measure { pause_ms: 0, deadline } => deadline,
        other => panic!("{other:?}"),
    };
    let seen = q.measure("acme", "default", deadline);
    match q.registry.enqueue_batch("acme", "default", &payloads, &policy, &fam, &seen, 5).unwrap() {
        EnqueueStep::Write { evict, added } => {
            let evict = evict.unwrap();
            assert_eq!(evict.ops.len(), 2);
            assert_eq!(added.ids.len(), 2);
            q.db.write(evict);
            q.db.write(added.batch);
        }
        other => panic!("{other:?}"),
    }
    assert_eq!(q.depth("acme", "default").unwrap(), (3, 1, 0));
    let left: Vec<Vec<u8>> =
        q.dequeue("acme", "default", 10).unwrap().into_iter().map(|(_, t)| t.payload).collect();
    assert_eq!(left, vec![vec![3], vec![7], vec![8]]);
}

#[test]
fn admission_is_measured_and_then_decided() {
    let mut q = make_registry();
    let mut policy = NamespacePolicy::standard("acme");
    policy.backlog_quota = None;
    q.provision_tenant("acme", policy.clone()).unwrap();
    let fam = q.families("acme");
    let decide = |policy: &NamespacePolicy, event: &EnqueueEvent, now: u64| {
        TenantRegistry::decide_admission("acme", "default", policy, 1, &fam, event, now)
    };
    // Without a quota nothing is measured.
    assert!(matches!(
        decide(&policy, &EnqueueEvent::Begin, 0),
        Ok(Admission::Write { evict: None })
    ));
    policy.backlog_quota = Some(1);
    policy.backlog_policy = BacklogPolicy::Block { timeout_ms: 120 };
    assert!(matches!(
        decide(&policy, &EnqueueEvent::Begin, 1_000),
        Ok(Admission::Measure { pause_ms: 0, deadline: None })
    ));
    let empty = q.measure("acme", "default", Some(1_120));
    assert!(matches!(decide(&policy, &empty, 1_000), Ok(Admission::Write { evict: None })));
    q.enqueue("acme", "default", b"fill".to_vec(), &policy).unwrap();
    let full = q.measure("acme", "default", None);
    assert!(matches!(
        decide(&policy, &full, 1_000),
        Ok(Admission::Measure { pause_ms: 0, deadline: Some(1_120) })
    ));
    let late = q.measure("acme", "default", Some(1_120));
    assert!(matches!(
        decide(&policy, &late, 1_120),
        Err(QueueError::BacklogQuotaExceeded { current: 1, quota: 1, incoming: 1, .. })
    ));
    let broken = EnqueueEvent::Measured {
        pending: Scan { records: Vec::new(), failure: Some("disk on fire".to_string()) },
        inflight: Scan { records: Vec::new(), failure: None },
        dlq: Scan { records: Vec::new(), failure: None },
        deadline: None,
    };
    match decide(&policy, &broken, 1_000) {
        Err(QueueError::RocksDB(why)) => assert_eq!(why, "disk on fire"),
        other => panic!("{other:?}"),
    }
}

#[test]
fn a_refusal_names_the_numbers() {
    let mut q = make_registry();
    let mut policy = NamespacePolicy::standard("acme");
    policy.backlog_quota = Some(1);
    policy.backlog_policy = BacklogPolicy::Reject;
    q.provision_tenant("acme", policy.clone()).unwrap();
    q.enqueue("acme", "default", b"a".to_vec(), &policy).unwrap();
    match q.enforce_quota("acme", "default", &policy, 2) {
        Err(QueueError::BacklogQuotaExceeded { tenant, queue, current, quota, incoming }) => {
            assert_eq!(tenant, "acme");
            assert_eq!(queue, "default");
            assert_eq!((current, quota, incoming), (1, 1, 2));
        }
        other => panic!("{other:?}"),
    }
}

#[test]
fn a_full_queue_blocks_until_the_deadline() {
    let mut q = make_registry();
    let mut policy = NamespacePolicy::standard("acme");
    policy.backlog_quota = Some(1);
    policy.backlog_policy = BacklogPolicy::Block { timeout_ms: 120 };
    q.provision_tenant("acme", policy.clone()).unwrap();
    assert_eq!(q.enforce_quota("acme", "default", &policy, 1).unwrap(), 0);
    q.enqueue("acme", "default", b"fill".to_vec(), &policy).unwrap();
    assert!(matches!(
        q.enforce_quota("acme", "default", &policy, 1),
        Err(QueueError::BacklogQuotaExceeded { .. })
    ));
    // The deadline is set at the first look; later looks are 50 ms apart.
    let step = TenantRegistry::enforce_quota(
        "acme",
        "default",
        &policy,
        1,
        QuotaEvent::Measured { pending: 1, inflight: 0, deadline: None },
        1_000,
    );
    assert_eq!(step.unwrap(), QuotaStep::Measure { pause_ms: 0, deadline: Some(1_120) });
    let step = TenantRegistry::enforce_quota(
        "acme",
        "default",
        &policy,
        1,
        QuotaEvent::Measured { pending: 1, inflight: 0, deadline: Some(1_120) },
        1_119,
    );
    assert_eq!(step.unwrap(), QuotaStep::Measure { pause_ms: 50, deadline: Some(1_120) });
    let step = TenantRegistry::enforce_quota(
        "acme",
        "default",
        &policy,
        1,
        QuotaEvent::Measured { pending: 0, inflight: 0, deadline: Some(1_120) },
        1_100,
    );
    assert_eq!(step.unwrap(), QuotaStep::Admit);
}

#[test]
fn leased_tasks_count_against_the_quota() {
    let mut q = make_registry();
    let mut policy = NamespacePolicy::standard("acme");
    policy.backlog_quota = Some(2);
    policy.backlog_policy = BacklogPolicy::Reject;
    q.provision_tenant("acme", policy.clone()).unwrap();
    q.enqueue("acme", "default", b"a".to_vec(), &policy).unwrap();
    q.enqueue("acme", "default", b"b".to_vec(), &policy).unwrap();
    assert_eq!(q.dequeue("acme", "default", 1).unwrap().len(), 1);
    assert!(q.enqueue("acme", "default", b"c".to_vec(), &policy).is_err());
}

// Enqueueing, dequeueing and settling.

#[test]
fn test_enqueue_and_dequeue() {
    let mut registry = make_registry();
    let policy = NamespacePolicy::standard("acme");
    registry.provision_tenant("acme", policy.clone()).unwrap();

    let id = registry.enqueue("acme", "default", b"hello".to_vec(), &policy).unwrap();
    assert!(!id.is_empty());

    let tasks = registry.dequeue("acme", "default", 10).unwrap();
    assert_eq!(tasks.len(), 1);
    assert_eq!(tasks[0].1.payload, b"hello");
}

#[test]
fn test_ack_removes_from_inflight() {
    let mut registry = make_registry();
    let policy = NamespacePolicy::standard("acme");
    registry.provision_tenant("acme", policy.clone()).unwrap();

    registry.enqueue("acme", "default", b"task1".to_vec(), &policy).unwrap();

    let tasks = registry.dequeue("acme", "default", 1).unwrap();
    let (key, _) = &tasks[0];

    let (_, inflight_before, _) = registry.depth("acme", "default").unwrap();
    assert_eq!(inflight_before, 1);

    registry.ack("acme", key).unwrap();

    let (_, inflight_after, _) = registry.depth("acme", "default").unwrap();
    assert_eq!(inflight_after, 0);
}

#[test]
fn test_nack_requeues_task() {
    let mut registry = make_registry();
    let policy = NamespacePolicy::standard("acme");
    registry.provision_tenant("acme", policy.clone()).unwrap();

    registry.enqueue("acme", "default", b"retry_me".to_vec(), &policy).unwrap();

    let tasks = registry.dequeue("acme", "default", 1).unwrap();
    let (key, _) = &tasks[0];
    registry.nack("acme", key).unwrap();

    let (pending, inflight, _) = registry.depth("acme", "default").unwrap();
    assert_eq!(inflight, 0);
    assert_eq!(pending, 1);
}

#[test]
fn test_depth_counts() {
    let mut registry = make_registry();
    let policy = NamespacePolicy::standard("acme");
    registry.provision_tenant("acme", policy.clone()).unwrap();

    for i in 0..5 {
        registry.enqueue("acme", "default", format!("task{i}").into_bytes(), &policy).unwrap();
    }

    let (pending, inflight, dlq) = registry.depth("acme", "default").unwrap();
    assert_eq!(pending, 5);
    assert_eq!(inflight, 0);
    assert_eq!(dlq, 0);

    let tasks = registry.dequeue("acme", "default", 3).unwrap();
    assert_eq!(tasks.len(), 3);
    let (pending2, inflight2, _) = registry.depth("acme", "default").unwrap();
    assert_eq!(pending2, 2);
    assert_eq!(inflight2, 3);
}

#[test]
fn tasks_come_out_in_the_order_they_went_in() {
    let mut q = make_registry();
    let policy = provision(&mut q, "acme");
    let mut ids = Vec::new();
    for i in 0..20u8 {
        ids.push(q.enqueue("acme", "default", vec![i], &policy).unwrap());
    }
    let tasks = q.dequeue("acme", "default", 20).unwrap();
    let out: Vec<String> = tasks.iter().map(|(_, t)| t.id.clone()).collect();
    assert_eq!(out, ids);
    for (key, task) in &tasks {
        assert_eq!(task.attempts, 1);
        assert_eq!(task.queue, "default");
        assert!(decode_key_seq(key).is_some());
        assert!(task.deadline >= task.enqueued_at + 60_000);
    }
}

#[test]
fn task_ids_are_version_four_uuids_and_differ() {
    let mut q = make_registry();
    let policy = provision(&mut q, "acme");
    let a = q.enqueue("acme", "default", b"a".to_vec(), &policy).unwrap();
    let b = q.enqueue("acme", "default", b"b".to_vec(), &policy).unwrap();
    assert_ne!(a, b);
    assert_eq!(a.len(), 36);
    assert_eq!(a.as_bytes()[14], b'4');
    assert!(b"89ab".contains(&a.as_bytes()[19]));
}

#[test]
fn a_batch_keeps_its_order_and_gives_an_id_each() {
    let mut q = make_registry();
    provision(&mut q, "acme");
    let fam = q.families("acme");
    let made = q
        .registry
        .append_batch("acme", "default", &vec![b"x".to_vec(), b"y".to_vec()], &fam, 77)
        .unwrap();
    assert_eq!(made.ids.len(), 2);
    assert_eq!(made.batch.ops.len(), 2);
    assert!(!made.batch.sync);
    q.db.write(made.batch);
    let tasks = q.dequeue("acme", "default", 5).unwrap();
    assert_eq!(tasks[0].1.id, made.ids[0]);
    assert_eq!(tasks[1].1.id, made.ids[1]);
    assert_eq!(tasks[1].1.payload, b"y");
    assert_eq!(tasks[0].1.enqueued_at, 77);
}

#[test]
fn tasks_with_given_ids_are_stored_under_growing_numbers() {
    let mut q = make_registry();
    provision(&mut q, "acme");
    let fam = q.families("acme");
    let ids = vec!["one".to_string(), "two".to_string()];
    let batch = q
        .registry
        .enqueue_with_ids("acme", "q", &ids, &vec![b"1".to_vec(), b"2".to_vec()], &fam, 5)
        .unwrap();
    q.db.write(batch);
    let scan = q.scan("acme", "pending", "q");
    let first = decode_key_seq(&scan.records[0].key).unwrap();
    assert_eq!(decode_key_seq(&scan.records[1].key), Some(first + 1));
    let task = Task::deserialize(&scan.records[1].value).unwrap();
    assert_eq!(
        (task.id.as_str(), task.queue.as_str(), task.attempts, task.deadline, task.enqueued_at),
        ("two", "q", 0, 0, 5)
    );
}

#[test]
fn a_task_goes_to_one_worker_at_a_time() {
    let mut q = make_registry();
    let policy = provision(&mut q, "acme");
    for i in 0..4u8 {
        q.enqueue("acme", "default", vec![i], &policy).unwrap();
    }
    let first: Vec<Vec<u8>> =
        q.dequeue("acme", "default", 2).unwrap().into_iter().map(|(k, _)| k).collect();
    let second: Vec<Vec<u8>> =
        q.dequeue("acme", "default", 9).unwrap().into_iter().map(|(k, _)| k).collect();
    assert_eq!((first.len(), second.len()), (2, 2));
    assert!(second.iter().all(|k| !first.contains(k)));
    assert!(q.dequeue("acme", "default", 9).unwrap().is_empty());
}

#[test]
fn an_unknown_tenant_is_refused() {
    let mut q = make_registry();
    let policy = NamespacePolicy::standard("ghost");
    match q.enqueue("ghost", "default", b"x".to_vec(), &policy) {
        Err(QueueError::ColumnFamilyMissing(name)) => assert_eq!(name, "ghost__pending"),
        other => panic!("{other:?}"),
    }
    assert!(matches!(
        q.dequeue("ghost", "default", 1),
        Err(QueueError::ColumnFamilyMissing(_))
    ));
    assert!(matches!(q.ack("ghost", b"k"), Err(QueueError::ColumnFamilyMissing(_))));
    assert!(matches!(q.nack("ghost", b"k"), Err(QueueError::ColumnFamilyMissing(_))));
    assert!(matches!(q.purge_dlq("ghost"), Err(QueueError::ColumnFamilyMissing(_))));
}

#[test]
fn a_scan_that_failed_is_an_error() {
    let mut q = make_registry();
    provision(&mut q, "acme");
    let fam = q.families("acme");
    let broken = Scan { records: Vec::new(), failure: Some("disk on fire".to_string()) };
    match TenantRegistry::dequeue("acme", "default", 1, &fam, 0, &broken) {
        Err(QueueError::RocksDB(why)) => assert_eq!(why, "disk on fire"),
        _ => panic!("must fail"),
    }
}

#[test]
fn acknowledging_twice_is_no_error() {
    let mut q = make_registry();
    let policy = provision(&mut q, "acme");
    q.enqueue("acme", "default", b"x".to_vec(), &policy).unwrap();
    let key = q.dequeue("acme", "default", 1).unwrap().remove(0).0;
    assert!(q.ack("acme", &key).unwrap());
    assert!(!q.ack("acme", &key).unwrap());
    assert_eq!(q.depth("acme", "default").unwrap(), (0, 0, 0));
}

#[test]
fn a_batch_of_acknowledgements_counts_its_keys() {
    let mut q = make_registry();
    let policy = provision(&mut q, "acme");
    for i in 0..3u8 {
        q.enqueue("acme", "default", vec![i], &policy).unwrap();
    }
    let mut keys: Vec<Vec<u8>> =
        q.dequeue("acme", "default", 3).unwrap().into_iter().map(|(k, _)| k).collect();
    keys.push(encode_key("default", 3));
    let (n, batch) = TenantRegistry::ack_batch("acme", &keys, &q.families("acme")).unwrap();
    q.db.write(batch.unwrap());
    assert_eq!(n, 4);
    assert_eq!(q.depth("acme", "default").unwrap(), (0, 0, 0));
    let (n, batch) = TenantRegistry::ack_batch("acme", &Vec::new(), &q.families("acme")).unwrap();
    assert_eq!(n, 0);
    assert!(batch.is_none());
}

#[test]
fn a_cumulative_acknowledgement_stops_at_its_number() {
    let mut q = make_registry();
    let policy = provision(&mut q, "acme");
    for i in 0..4u8 {
        q.enqueue("acme", "default", vec![i], &policy).unwrap();
    }
    let tasks = q.dequeue("acme", "default", 4).unwrap();
    let up_to = decode_key_seq(&tasks[2].0).unwrap();
    let scan = q.scan("acme", "inflight", "default");
    let (n, batch) =
        TenantRegistry::cumulative_ack("acme", up_to, &q.families("acme"), &scan).unwrap();
    q.db.write(batch.unwrap());
    assert_eq!(n, 3);
    let left = q.scan("acme", "inflight", "default");
    assert_eq!(left.records.len(), 1);
    assert_eq!(left.records[0].key, tasks[3].0);
}

#[test]
fn leases_stay_within_the_bound() {
    let mut q = make_registry();
    let policy = provision(&mut q, "acme");
    for i in 0..6u8 {
        q.enqueue("acme", "default", vec![i], &policy).unwrap();
    }
    q.dequeue("acme", "default", 2).unwrap();
    let got = TenantRegistry::dequeue_with_max_inflight(
        "acme",
        "default",
        10,
        1_000,
        3,
        &q.families("acme"),
        &q.scan("acme", "inflight", "default"),
        500,
        &q.scan("acme", "pending", "default"),
    )
    .unwrap();
    assert_eq!(got.tasks.len(), 1);
    assert_eq!(got.tasks[0].1.deadline, 1_500);
    q.db.write(got.batch.unwrap());
    let got = TenantRegistry::dequeue_with_max_inflight(
        "acme",
        "default",
        10,
        1_000,
        3,
        &q.families("acme"),
        &q.scan("acme", "inflight", "default"),
        500,
        &q.scan("acme", "pending", "default"),
    )
    .unwrap();
    assert!(got.tasks.is_empty());
    assert!(got.batch.is_none());
    assert_eq!(
        TenantRegistry::count_inflight(
            "acme",
            &q.families("acme"),
            &q.scan("acme", "inflight", "default")
        )
        .unwrap(),
        3
    );
}

#[test]
fn a_lease_in_place_leaves_the_task_waiting() {
    let mut q = make_registry();
    let policy = provision(&mut q, "acme");
    q.enqueue("acme", "default", b"a".to_vec(), &policy).unwrap();
    q.enqueue("acme", "default", b"b".to_vec(), &policy).unwrap();
    let candidates = |q: &Queue| Candidates {
        items: q
            .scan("acme", "pending", "default")
            .records
            .into_iter()
            .map(|record| Candidate {
                held: q.db.get("acme__inflight", &record.key).is_some(),
                record,
            })
            .collect(),
        failure: None,
    };
    let seen = candidates(&q);
    assert!(TenantRegistry::leases_countable("acme", "default", 1, 1_000, 10, &seen));
    let got = TenantRegistry::dequeue_lease_batch_experimental(
        "acme",
        "default",
        1,
        1_000,
        &q.families("acme"),
        10,
        &seen,
    )
    .unwrap();
    assert_eq!(got.tasks.len(), 1);
    assert_eq!(got.tasks[0].1.payload, b"a");
    q.db.write(got.batch.unwrap());
    assert_eq!(q.depth("acme", "default").unwrap(), (2, 1, 0));

    // The leased one is passed over the next time.
    let again = TenantRegistry::dequeue_lease_batch_experimental(
        "acme",
        "default",
        5,
        1_000,
        &q.families("acme"),
        11,
        &candidates(&q),
    )
    .unwrap();
    assert_eq!(again.tasks.len(), 1);
    assert_eq!(again.tasks[0].1.payload, b"b");

    // Acknowledged, the task and its lease are gone.
    let keys = vec![got.tasks[0].0.clone()];
    let (n, batch) =
        TenantRegistry::ack_lease_batch_experimental("acme", &keys, &q.families("acme")).unwrap();
    assert_eq!(n, 1);
    q.db.write(batch.unwrap());
    assert_eq!(q.depth("acme", "default").unwrap(), (1, 0, 0));
}

// Tenants.

#[test]
fn test_tenant_isolation() {
    let mut registry = make_registry();

    let policy_a = NamespacePolicy::standard("acme");
    let policy_b = NamespacePolicy::standard("globex");
    registry.provision_tenant("acme", policy_a.clone()).unwrap();
    registry.provision_tenant("globex", policy_b.clone()).unwrap();

    registry.enqueue("acme", "default", b"acme_task".to_vec(), &policy_a).unwrap();
    registry.enqueue("globex", "default", b"globex_task".to_vec(), &policy_b).unwrap();

    let acme_tasks = registry.dequeue("acme", "default", 10).unwrap();
    let globex_tasks = registry.dequeue("globex", "default", 10).unwrap();

    assert_eq!(acme_tasks.len(), 1);
    assert_eq!(acme_tasks[0].1.payload, b"acme_task");

    assert_eq!(globex_tasks.len(), 1);
    assert_eq!(globex_tasks[0].1.payload, b"globex_task");
}

#[test]
fn queues_of_a_tenant_do_not_mix() {
    let mut q = make_registry();
    let policy = provision(&mut q, "acme");
    q.enqueue("acme", "mail", b"m".to_vec(), &policy).unwrap();
    q.enqueue("acme", "mailing", b"l".to_vec(), &policy).unwrap();
    assert_eq!(q.depth("acme", "mail").unwrap().0, 1);
    let got = q.dequeue("acme", "mail", 10).unwrap();
    assert_eq!(got.len(), 1);
    assert_eq!(got[0].1.payload, b"m");
    assert_eq!(q.depth("acme", "mailing").unwrap().0, 1);
}

#[test]
fn test_drop_tenant() {
    let mut registry = make_registry();

    let policy = NamespacePolicy::standard("acme");
    registry.provision_tenant("acme", policy.clone()).unwrap();

    registry.enqueue("acme", "default", b"hello".to_vec(), &policy).unwrap();

    registry.drop_tenant("acme").unwrap();

    let policy2 = NamespacePolicy::standard("acme");
    registry.provision_tenant("acme", policy2.clone()).unwrap();

    let (pending, _, _) = registry.depth("acme", "default").unwrap();
    assert_eq!(pending, 0);
}

#[test]
fn a_tenant_is_not_provisioned_twice() {
    let mut q = make_registry();
    provision(&mut q, "acme");
    assert!(q.provision_tenant("acme", NamespacePolicy::premium("acme")).is_err());
    assert_eq!(q.registry.get_policy("acme").unwrap().weight, 10);
}

#[test]
fn test_dlq_after_max_attempts() {
    let mut registry = make_registry();
    let policy = NamespacePolicy::standard("acme");
    registry.provision_tenant("acme", policy.clone()).unwrap();

    registry.enqueue("acme", "default", b"bad_task".to_vec(), &policy).unwrap();

    for _ in 0..5 {
        let tasks = registry.dequeue("acme", "default", 1).unwrap();
        if tasks.is_empty() {
            break;
        }
        let (key, _) = &tasks[0];
        registry.nack("acme", key).unwrap();
    }

    let (_, _, dlq) = registry.depth("acme", "default").unwrap();
    assert_eq!(dlq, 1);
}

#[test]
fn four_failures_are_not_final() {
    let mut q = make_registry();
    let policy = provision(&mut q, "acme");
    q.enqueue("acme", "default", b"shaky".to_vec(), &policy).unwrap();
    for _ in 0..4 {
        let key = q.dequeue("acme", "default", 1).unwrap().remove(0).0;
        q.nack("acme", &key).unwrap();
    }
    assert_eq!(q.depth("acme", "default").unwrap(), (1, 0, 0));
    let (_, task) = q.dequeue("acme", "default", 1).unwrap().remove(0);
    assert_eq!(task.attempts, 5);
}

#[test]
fn test_replay_dlq() {
    let mut registry = make_registry();
    let policy = NamespacePolicy::standard("acme");
    registry.provision_tenant("acme", policy.clone()).unwrap();

    registry.enqueue("acme", "default", b"bad_task".to_vec(), &policy).unwrap();

    for _ in 0..5 {
        let tasks = registry.dequeue("acme", "default", 1).unwrap();
        if tasks.is_empty() {
            break;
        }
        registry.nack("acme", &tasks[0].0).unwrap();
    }

    let (_, _, dlq_before) = registry.depth("acme", "default").unwrap();
    assert_eq!(dlq_before, 1);

    let replayed = registry.replay_dlq("acme").unwrap();
    assert_eq!(replayed, 1);

    let (pending, _, dlq_after) = registry.depth("acme", "default").unwrap();
    assert_eq!(dlq_after, 0);
    assert_eq!(pending, 1);
}

#[test]
fn a_replayed_task_starts_over() {
    let mut q = make_registry();
    let policy = provision(&mut q, "acme");
    let id = q.enqueue("acme", "default", b"again".to_vec(), &policy).unwrap();
    for _ in 0..5 {
        let key = q.dequeue("acme", "default", 1).unwrap().remove(0).0;
        q.nack("acme", &key).unwrap();
    }
    assert_eq!(q.replay_dlq("acme").unwrap(), 1);
    let (_, task) = q.dequeue("acme", "default", 1).unwrap().remove(0);
    assert_eq!(task.id, id);
    assert_eq!(task.attempts, 1);
    assert_eq!(task.payload, b"again");
}

#[test]
fn test_restart_recovery() {
    let cfg = DbConfig {
        sst_path: "sst".to_string(),
        wal_path: "wal".to_string(),
        block_cache_bytes: 16 * 1024 * 1024,
        write_buffer_bytes: 4 * 1024 * 1024,
        max_write_buffers: 2,
    };

    let db = {
        let mut registry = Queue::open(&cfg, Db::default());
        let policy = NamespacePolicy::standard("acme");
        registry.provision_tenant("acme", policy.clone()).unwrap();
        registry.enqueue("acme", "default", b"task1".to_vec(), &policy).unwrap();
        registry.enqueue("acme", "default", b"task2".to_vec(), &policy).unwrap();
        registry.enqueue("acme", "default", b"task3".to_vec(), &policy).unwrap();
        registry.db
    };

    {
        let registry = Queue::open(&cfg, db);

        let tenants = registry.registry.list_tenants();
        assert!(tenants.contains(&"acme".to_string()), "tenant must survive restart");

        let (pending, _, _) = registry.depth("acme", "default").unwrap();
        assert_eq!(pending, 3, "all 3 pending tasks must survive restart");

        let policy = registry.registry.get_policy("acme").expect("policy must survive restart");
        assert_eq!(policy.tenant_id, "acme");
    }
}

#[test]
fn test_namespace_policy_update_persisted() {
    let cfg = DbConfig {
        sst_path: "sst".to_string(),
        wal_path: "wal".to_string(),
        block_cache_bytes: 16 * 1024 * 1024,
        write_buffer_bytes: 4 * 1024 * 1024,
        max_write_buffers: 2,
    };

    let db = {
        let mut registry = Queue::open(&cfg, Db::default());
        let policy = NamespacePolicy::standard("acme");
        registry.provision_tenant("acme", policy).unwrap();

        let mut updated = NamespacePolicy::standard("acme");
        updated.backlog_quota = Some(42);
        updated.backlog_policy = BacklogPolicy::EvictOldest;
        registry.update_namespace_policy("acme", updated).unwrap();

        let p = registry.registry.get_policy("acme").unwrap();
        assert_eq!(p.backlog_quota, Some(42));
        registry.db
    };

    let db = {
        let registry = Queue::open(&cfg, db);
        let p = registry.registry.get_policy("acme").expect("policy must survive restart");
        assert_eq!(p.backlog_quota, Some(42), "updated quota must persist across restarts");
        assert!(matches!(p.backlog_policy, BacklogPolicy::EvictOldest));
        registry.db
    };

    {
        let mut registry = Queue::open(&cfg, db);
        let result = registry.update_namespace_policy("ghost", NamespacePolicy::standard("ghost"));
        assert!(result.is_err(), "updating unknown tenant must fail");
    }
}

#[test]
fn test_provisioned_tenant_shares_block_cache() {
    const SHARED_CACHE_BYTES: u64 = 16 * 1024 * 1024;
    const WRITE_BUFFER_BYTES: u64 = 4 * 1024 * 1024;
    let mut registry = make_registry();

    registry.provision_tenant("acme", NamespacePolicy::standard("acme")).unwrap();

    for cf_name in ["acme__pending", "acme__inflight", "acme__dlq"] {
        match registry.db.options.get(cf_name).expect("cf must exist") {
            FamilyOptions::Queue { shared_block_cache_bytes: cap, .. } => {
                assert_eq!(
                    *cap, SHARED_CACHE_BYTES,
                    "{cf_name} must use the shared block cache, got {cap} bytes"
                );
                assert_ne!(
                    *cap, WRITE_BUFFER_BYTES,
                    "{cf_name} must not use an isolated per-tenant cache"
                );
            }
            FamilyOptions::System { .. } => panic!("{cf_name} is a family of a tenant"),
        }
    }
}

#[test]
fn families_carry_the_retention_of_their_policy() {
    let mut q = make_registry();
    let mut policy = NamespacePolicy::standard("acme");
    policy.retention =
        RetentionPolicy { pending_retention_secs: 1, dlq_retention_secs: 2, inflight_stale_secs: 3 };
    q.provision_tenant("acme", policy).unwrap();
    let filter = |name: &str| match q.db.options.get(name) {
        Some(FamilyOptions::Queue { filter, .. }) => *filter,
        _ => panic!("{name}"),
    };
    assert_eq!(filter("acme__pending"), CompactionFilter::Pending { retention_secs: 1 });
    assert_eq!(filter("acme__dlq"), CompactionFilter::Dlq { retention_secs: 2 });
    assert_eq!(filter("acme__inflight"), CompactionFilter::Inflight { stale_after_secs: 3 });
}

// Compaction and dead letters.

#[test]
fn test_dlq_purge() {
    let mut registry = make_registry();

    let policy = NamespacePolicy::standard("acme");
    registry.provision_tenant("acme", policy.clone()).unwrap();

    registry.enqueue("acme", "default", b"task1".to_vec(), &policy).unwrap();
    registry.enqueue("acme", "default", b"task2".to_vec(), &policy).unwrap();

    for _ in 0..5 {
        let tasks = registry.dequeue("acme", "default", 2).unwrap();
        for (key, _) in &tasks {
            registry.nack("acme", key).unwrap();
        }
    }

    let (_, _, dlq) = registry.depth("acme", "default").unwrap();
    assert!(dlq > 0);

    let purged = registry.purge_dlq("acme").unwrap();
    assert!(purged > 0);

    let (_, _, dlq_after) = registry.depth("acme", "default").unwrap();
    assert_eq!(dlq_after, 0);
}

#[test]
fn test_compaction_counters_exposed() {
    let mut registry = make_registry();

    let policy = NamespacePolicy::standard("acme");
    registry.provision_tenant("acme", policy.clone()).unwrap();

    let families = TenantRegistry::compact_tenant("acme", &registry.families("acme")).unwrap();
    assert_eq!(families, vec!["acme__pending", "acme__inflight", "acme__dlq"]);

    let counters = registry.registry.compaction_counters();
    let _ = counters.kept;
}

#[test]
fn test_short_retention_policy() {
    let mut registry = make_registry();

    let mut policy = NamespacePolicy::standard("acme");
    policy.retention = RetentionPolicy {
        pending_retention_secs: 1,
        dlq_retention_secs: 1,
        inflight_stale_secs: 1,
    };
    registry.provision_tenant("acme", policy.clone()).unwrap();

    registry.enqueue("acme", "default", b"temp_task".to_vec(), &policy).unwrap();

    let (pending, _, _) = registry.depth("acme", "default").unwrap();
    assert_eq!(pending, 1);
}

#[test]
fn compaction_counts_what_it_drops_and_keeps() {
    let mut q = make_registry();
    let task = Task {
        id: "t".to_string(),
        queue: "default".to_string(),
        payload: Vec::new(),
        enqueued_at: 1_000,
        attempts: 1,
        deadline: 2_000,
    };
    let bytes = task.serialize().unwrap();
    let pending = CompactionFilter::Pending { retention_secs: 10 };
    assert_eq!(q.registry.filter_entry(&pending, &bytes, 11_000), Decision::Keep);
    assert_eq!(q.registry.filter_entry(&pending, &bytes, 11_001), Decision::Remove);
    let forever = CompactionFilter::Pending { retention_secs: 0 };
    assert_eq!(q.registry.filter_entry(&forever, b"junk", u64::MAX), Decision::Keep);
    let dlq = CompactionFilter::Dlq { retention_secs: 0 };
    assert_eq!(q.registry.filter_entry(&dlq, &bytes, 1_001), Decision::Remove);
    let inflight = CompactionFilter::Inflight { stale_after_secs: 1 };
    assert_eq!(q.registry.filter_entry(&inflight, &bytes, 3_000), Decision::Keep);
    assert_eq!(q.registry.filter_entry(&inflight, &bytes, 3_001), Decision::Remove);
    assert_eq!(q.registry.filter_entry(&inflight, b"junk", 0), Decision::Remove);
    let counters = *q.registry.compaction_counters();
    assert_eq!(counters.pending_expired, 1);
    assert_eq!(counters.dlq_expired, 1);
    assert_eq!(counters.inflight_stale, 2);
    assert_eq!(counters.kept, 3);
}

// Records that cannot be read.

#[test]
fn test_reaper_skips_corrupt_record() {
    let mut registry = make_registry();
    provision(&mut registry, "acme");

    let valid_key = encode_key("default", 1);
    let valid = Task {
        id: "valid".to_string(),
        queue: "default".to_string(),
        payload: b"payload".to_vec(),
        enqueued_at: now_millis(),
        attempts: 1,
        deadline: now_millis() - 1_000,
    };
    registry.db.put("acme__inflight", &valid_key, &valid.serialize().unwrap());

    let corrupt_key = encode_key("default", 2);
    registry.db.put("acme__inflight", &corrupt_key, b"\xff\xff not a task");

    registry.reap("acme", "default", now_millis()).unwrap();

    assert!(registry.db.get("acme__inflight", &valid_key).is_none());
    assert!(registry.db.get("acme__inflight", &corrupt_key).is_none());

    let reclaimed = registry.db.get("acme__pending", &valid_key);
    assert!(reclaimed.is_some(), "valid record must be reclaimed to pending");

    let dlq_val =
        registry.db.get("acme__dlq", &corrupt_key).expect("corrupt record must be in DLQ");
    let envelope = Task::deserialize(&dlq_val).expect("DLQ record must be a valid Task");
    assert_eq!(envelope.attempts, u32::MAX);
    assert_eq!(envelope.payload, b"\xff\xff not a task");
}

#[test]
fn the_reaper_spares_leases_that_still_run() {
    let mut q = make_registry();
    let policy = provision(&mut q, "acme");
    q.enqueue("acme", "default", b"x".to_vec(), &policy).unwrap();
    let (_, task) = q.dequeue("acme", "default", 1).unwrap().remove(0);
    q.reap("acme", "default", task.deadline - 1).unwrap();
    assert_eq!(q.depth("acme", "default").unwrap(), (0, 1, 0));
    q.reap("acme", "default", task.deadline + 1).unwrap();
    assert_eq!(q.depth("acme", "default").unwrap(), (1, 0, 0));
}

#[test]
fn a_reaped_task_is_handed_out_again() {
    let mut q = make_registry();
    let policy = provision(&mut q, "acme");
    let id = q.enqueue("acme", "default", b"x".to_vec(), &policy).unwrap();
    let (key, task) = q.dequeue("acme", "default", 1).unwrap().remove(0);
    q.reap("acme", "default", task.deadline + 1).unwrap();
    let (again, task) = q.dequeue("acme", "default", 1).unwrap().remove(0);
    assert_eq!(again, key);
    assert_eq!((task.id, task.attempts), (id, 2));
}

#[test]
fn the_reaper_needs_dead_letters_only_for_corrupt_records() {
    let mut q = make_registry();
    let policy = provision(&mut q, "acme");
    q.enqueue("acme", "default", b"late".to_vec(), &policy).unwrap();
    let (key, _) = q.dequeue("acme", "default", 1).unwrap().remove(0);
    let fam = Families { pending: true, inflight: true, dlq: false };
    let prefix = queue_prefix("default");
    let empty = Scan { records: Vec::new(), failure: None };
    assert!(reap_inflight("acme", "default", &fam, u64::MAX, &empty).unwrap().is_none());
    let scan = q.db.scan_from("acme__inflight", &prefix);
    let batch = reap_inflight("acme", "default", &fam, u64::MAX, &scan).unwrap().unwrap();
    assert_eq!(batch.ops.len(), 2);
    q.db.write(batch);
    assert!(q.db.get("acme__pending", &key).is_some());

    q.db.put("acme__inflight", &encode_key("default", 1), b"no task");
    let scan = q.db.scan_from("acme__inflight", &prefix);
    match reap_inflight("acme", "default", &fam, u64::MAX, &scan) {
        Err(QueueError::ColumnFamilyMissing(name)) => assert_eq!(name, "acme__dlq"),
        _ => panic!("must fail"),
    }
    // Another queue's record is not looked at.
    let other = Scan {
        records: vec![Record { key: encode_key("other", 1), value: b"no task".to_vec() }],
        failure: None,
    };
    assert!(reap_inflight("acme", "default", &fam, u64::MAX, &other).unwrap().is_none());
}

#[test]
fn the_reaper_stops_at_the_end_of_the_queue() {
    let mut q = make_registry();
    let policy = provision(&mut q, "acme");
    q.enqueue("acme", "a", b"x".to_vec(), &policy).unwrap();
    q.enqueue("acme", "b", b"y".to_vec(), &policy).unwrap();
    q.dequeue("acme", "a", 1).unwrap();
    let (_, late) = q.dequeue("acme", "b", 1).unwrap().remove(0);
    q.reap("acme", "a", late.deadline + 1).unwrap();
    assert_eq!(q.depth("acme", "a").unwrap(), (1, 0, 0));
    assert_eq!(q.depth("acme", "b").unwrap(), (0, 1, 0));
}

#[test]
fn test_dequeue_skips_corrupt_record() {
    let mut registry = make_registry();
    let policy = provision(&mut registry, "acme");

    let corrupt_key = encode_key("default", 1);
    registry.db.put("acme__pending", &corrupt_key, b"garbage");

    registry.enqueue("acme", "default", b"good".to_vec(), &policy).unwrap();

    let got = TenantRegistry::dequeue_batch(
        "acme",
        "default",
        10,
        60_000,
        &registry.families("acme"),
        now_millis(),
        &registry.scan("acme", "pending", "default"),
    )
    .unwrap();
    let results = got.tasks;
    registry.db.write(got.batch.unwrap());
    assert_eq!(results.len(), 1, "valid task must still be returned");
    assert_eq!(results[0].1.payload, b"good");

    assert!(registry.db.get("acme__pending", &corrupt_key).is_none());
    let dlq_val =
        registry.db.get("acme__dlq", &corrupt_key).expect("corrupt pending record must be in DLQ");
    let envelope = Task::deserialize(&dlq_val).expect("DLQ record must be a valid Task");
    assert_eq!(envelope.attempts, u32::MAX);
}

#[test]
fn test_nack_handles_corrupt_record() {
    let mut registry = make_registry();
    provision(&mut registry, "acme");

    let key = encode_key("default", 7);
    registry.db.put("acme__inflight", &key, b"\x00 corrupt");

    registry.nack("acme", &key).expect("nack must not error on corrupt record");

    assert!(registry.db.get("acme__inflight", &key).is_none());
    let dlq_val =
        registry.db.get("acme__dlq", &key).expect("corrupt inflight record must be in DLQ");
    let envelope = Task::deserialize(&dlq_val).expect("DLQ record must be a valid Task");
    assert_eq!(envelope.attempts, u32::MAX);
}

#[test]
fn a_policy_that_cannot_be_read_stops_the_start() {
    let mut q = make_registry();
    provision(&mut q, "acme");
    q.db.put(SYSTEM, b"tenant:bad", b"\x01");
    let scan = q.db.scan_from(SYSTEM, b"tenant:");
    assert!(matches!(
        TenantRegistry::load_persisted_tenants(&scan),
        Err(QueueError::Serialization(_))
    ));
}

#[test]
fn other_records_of_the_system_are_no_tenants() {
    let mut q = make_registry();
    provision(&mut q, "acme");
    q.db.put(SYSTEM, b"throttle:acme", b"\x01");
    let scan = q.db.scan_from(SYSTEM, b"tenant:");
    let tenants = TenantRegistry::load_persisted_tenants(&scan).unwrap();
    assert_eq!(tenants.len(), 1);
    assert_eq!(tenants[0].0, "acme");
}

// Checkpoints.

#[test]
fn test_checkpoint_path_traversal_rejected() {
    let result = TenantRegistry::create_checkpoint("/tmp/checkpoints/../escape", "/tmp/checkpoints");
    assert!(result.is_err(), "path with .. must be rejected");
}

#[test]
fn test_checkpoint_outside_base_rejected() {
    let result = TenantRegistry::create_checkpoint("/tmp/elsewhere/snap", "/tmp/checkpoints");
    assert!(result.is_err(), "path outside allowed base must be rejected");
}

#[test]
fn a_refused_checkpoint_is_a_permission_error() {
    for path in ["/ckpt/../escape", "/elsewhere/snap", "/ckpt-old/snap"] {
        assert!(matches!(
            TenantRegistry::create_checkpoint(path, "/ckpt"),
            Err(QueueError::Io(IoKind::PermissionDenied, _))
        ));
    }
}

#[test]
fn a_checkpoint_below_its_base_is_allowed() {
    assert!(TenantRegistry::create_checkpoint("/tmp/checkpoints/snap1", "/tmp/checkpoints").is_ok());
    assert!(TenantRegistry::create_checkpoint("/tmp/checkpoints2/snap", "/tmp/checkpoints").is_err());
}

// Workers.

/// A pool of one worker that runs a handler on a task.
fn process(
    q: &mut Queue,
    collector: &mut StatsCollector,
    key: &[u8],
    mut handler: impl FnMut() -> Result<(), String>,
) {
    let pool = FairWorkerPool {
        queues: vec!["default".to_string()],
        concurrency: 1,
        tick_ms: 10,
        total_slots: 1,
    };
    let mut event = TaskEvent::Taken;
    loop {
        event = match pool.process_task(collector, "acme", event) {
            TaskStep::Handle => match handler() {
                Ok(()) => TaskEvent::Succeeded,
                Err(_) => TaskEvent::Failed,
            },
            TaskStep::Ack => match q.ack("acme", key) {
                Ok(present) => TaskEvent::Acked { present, latency_ms: 3 },
                Err(_) => TaskEvent::NotSettled,
            },
            TaskStep::Nack => match q.nack("acme", key) {
                Ok(()) => TaskEvent::Nacked,
                Err(_) => TaskEvent::NotSettled,
            },
            TaskStep::Done => return,
        };
    }
}

fn setup() -> (Queue, StatsCollector, NamespacePolicy) {
    let mut registry = make_registry();
    let policy = NamespacePolicy::standard("acme");
    registry.provision_tenant("acme", policy.clone()).unwrap();
    let mut collector = StatsCollector::new();
    collector.register("acme", 0);
    (registry, collector, policy)
}

#[test]
fn test_process_task_records_ack_on_success() {
    let (mut registry, mut collector, policy) = setup();
    registry.enqueue("acme", "default", b"task".to_vec(), &policy).unwrap();
    let (key, _task) = registry.dequeue("acme", "default", 1).unwrap().remove(0);

    let mut calls = 0;
    process(&mut registry, &mut collector, &key, || {
        calls += 1;
        Ok(())
    });

    collector.refresh();
    assert_eq!(calls, 1, "handler must run");
    assert_eq!(collector.snapshot("acme").unwrap().total_acked, 1);
    assert_eq!(registry.depth("acme", "default").unwrap().1, 0, "inflight cleared");
}

#[test]
fn test_process_task_skips_ack_when_key_missing() {
    let (mut registry, mut collector, policy) = setup();
    registry.enqueue("acme", "default", b"task".to_vec(), &policy).unwrap();
    let (_key, _task) = registry.dequeue("acme", "default", 1).unwrap().remove(0);

    let mut calls = 0;
    let missing = encode_key("default", u64::MAX);
    process(&mut registry, &mut collector, &missing, || {
        calls += 1;
        Ok(())
    });

    collector.refresh();
    assert_eq!(calls, 1, "handler must still run");
    assert_eq!(
        collector.snapshot("acme").unwrap().total_acked,
        0,
        "no ack recorded for a missing key"
    );
}

#[test]
fn a_failed_handler_gives_the_task_back() {
    let (mut q, mut collector, policy) = setup();
    q.enqueue("acme", "default", b"task".to_vec(), &policy).unwrap();
    let (key, _) = q.dequeue("acme", "default", 1).unwrap().remove(0);
    let mut calls = 0;
    process(&mut q, &mut collector, &key, || {
        calls += 1;
        Err("no".to_string())
    });
    collector.refresh();
    assert_eq!(calls, 1);
    let stats = collector.snapshot("acme").unwrap();
    assert_eq!((stats.total_acked, stats.total_nacked), (0, 1));
    assert_eq!(q.depth("acme", "default").unwrap(), (1, 0, 0));
}

// The control plane.

struct Plane {
    svc: ControlPlaneService,
    db: Db,
}

fn fresh() -> Registration {
    Registration {
        full_bucket: 100f64.to_bits(),
        ticks: 0,
        start: BaselineStart { rate: 0, spike_threshold: 0, k_slack: 0, h_threshold: 0 },
        record: None,
        now: 0,
    }
}

impl Plane {
    fn new() -> Plane {
        let q = make_registry();
        Plane {
            svc: ControlPlaneService::new(
                q.registry,
                WFQScheduler::new(),
                StatsCollector::new(),
                AutoThrottle::new(ThrottleConfig::default()),
                BaselineRegistry::new(),
                vec!["default".to_string()],
            ),
            db: q.db,
        }
    }

    fn with_queue<T>(&mut self, f: impl FnOnce(&mut Queue) -> T) -> T {
        let empty = TenantRegistry::open(&config(), Vec::new(), 0).0;
        let mut q = Queue {
            registry: std::mem::replace(&mut self.svc.registry, empty),
            db: std::mem::take(&mut self.db),
        };
        let r = f(&mut q);
        self.svc.registry = q.registry;
        self.db = q.db;
        r
    }

    fn provision_tenant(&mut self, tenant: &str, tier: &str) -> Result<TenantResponse, Status> {
        let policy = ControlPlaneService::policy_for_tier(tenant, tier);
        let steps =
            self.svc.registry.provision_tenant(tenant, &policy).map_err(|e| queue_error(&e))?;
        self.with_queue(|q| q.perform(steps)).map_err(|e| queue_error(&e))?;
        Ok(self.svc.provision_tenant(tenant, policy, &fresh()))
    }

    fn enqueue_task(&mut self, tenant: &str, queue: &str, payload: &str) -> Result<String, Status> {
        let (queue, policy) = self.svc.enqueue_task(tenant, queue)?;
        let id = self
            .with_queue(|q| q.enqueue(tenant, &queue, payload.as_bytes().to_vec(), &policy))
            .map_err(|e| queue_error(&e))?;
        self.svc.enqueued(tenant, 1);
        Ok(id)
    }

    fn dequeue_tasks(
        &mut self,
        tenant: &str,
        queue: &str,
        limit: u32,
    ) -> Result<Vec<DequeuedTask>, Status> {
        let (queue, limit, max_inflight) = self.svc.dequeue_tasks(tenant, queue, limit)?;
        self.with_queue(|q| {
            let got = TenantRegistry::dequeue_with_max_inflight(
                tenant,
                &queue,
                limit,
                CLIENT_LEASE_MS,
                max_inflight,
                &q.families(tenant),
                &q.scan(tenant, "inflight", &queue),
                now_millis(),
                &q.scan(tenant, "pending", &queue),
            )
            .map_err(|e| queue_error(&e))?;
            if let Some(b) = got.batch {
                q.db.write(b);
            }
            Ok(present_tasks(&got.tasks))
        })
    }

    fn ack_task(&mut self, tenant: &str, key: &str) -> Result<TenantResponse, Status> {
        let key = decode_ack_key(key)?;
        let acked = self.with_queue(|q| q.ack(tenant, &key)).map_err(|e| queue_error(&e))?;
        Ok(self.svc.ack_task(tenant, acked))
    }

    fn acked(&mut self, tenant: &str) -> u64 {
        self.svc.collector.refresh();
        self.svc.collector.snapshot(tenant).unwrap().total_acked
    }
}

#[test]
fn test_ack_task_is_idempotent() {
    let mut svc = Plane::new();

    svc.provision_tenant("acme", "standard").unwrap();
    svc.enqueue_task("acme", "default", "hello").unwrap();
    let dequeued = svc.dequeue_tasks("acme", "default", 1).unwrap();
    let ack_key = dequeued[0].ack_key.clone();

    let ok = svc.ack_task("acme", &ack_key).unwrap();
    assert!(ok.success, "live ack key must report success");
    assert_eq!(ok.message, "acked");

    let again = svc.ack_task("acme", &ack_key).unwrap();
    assert!(again.success, "re-acking a removed key must be idempotent");
    assert_eq!(again.message, "acked");
}

#[test]
fn only_the_first_acknowledgement_is_counted() {
    let mut svc = Plane::new();
    svc.provision_tenant("acme", "premium").unwrap();
    svc.enqueue_task("acme", "", "hello").unwrap();
    let task = svc.dequeue_tasks("acme", "", 0).unwrap().remove(0);
    assert_eq!(task.payload, "hello");
    assert_eq!(task.queue, "default");
    svc.ack_task("acme", &task.ack_key).unwrap();
    svc.ack_task("acme", &task.ack_key).unwrap();
    assert_eq!(svc.acked("acme"), 1);
}

#[test]
fn a_payload_that_is_no_text_is_shown_as_far_as_it_is() {
    let task = Task {
        id: "t".to_string(),
        queue: "q".to_string(),
        payload: b"ok \xff".to_vec(),
        enqueued_at: 1,
        attempts: 2,
        deadline: 3,
    };
    let shown = present_tasks(&vec![(vec![0x0a, 0xff], task)]);
    assert_eq!(shown[0].ack_key, "0aff");
    assert_eq!(shown[0].payload, "ok \u{fffd}");
    assert_eq!((shown[0].enqueued_at, shown[0].attempts, shown[0].deadline), (1, 2, 3));
}

#[test]
fn keys_that_are_none_are_refused() {
    let bad = decode_ack_key("xyz0").unwrap_err();
    assert_eq!(bad.code, Code::InvalidArgument);
    assert_eq!(bad.message, "invalid ack_key: Invalid character 'x' at position 0");
    let odd = decode_ack_key("abc").unwrap_err();
    assert_eq!(odd.message, "invalid ack_key: Odd number of digits");
    assert_eq!(decode_ack_keys(&Vec::new()).unwrap_err().message, "ack_keys must not be empty");
    let second = decode_ack_keys(&vec!["00".to_string(), "0g".to_string()]).unwrap_err();
    assert_eq!(second.message, "invalid ack_key: Invalid character 'g' at position 1");
    let both = decode_ack_keys(&vec!["00".to_string(), "A1".to_string()]).unwrap();
    assert_eq!(both, vec![vec![0u8], vec![0xa1u8]]);
}

#[test]
fn a_stored_policy_is_answered() {
    let mut plane = Plane::new();
    plane.provision_tenant("acme", "starter").unwrap();
    let mut policy = NamespacePolicy::standard("acme");
    policy.backlog_quota = Some(17);
    let answer = plane.svc.namespace_policy_stored("acme", policy);
    assert_eq!(answer.tenant_id, "acme");
    assert!(answer.success);
    assert_eq!(answer.message, "namespace policy set");
    assert_eq!(plane.svc.registry.get_policy("acme").unwrap().backlog_quota, Some(17));
}

#[test]
fn requests_for_unknown_tenants_are_refused() {
    let mut svc = Plane::new();
    let no = svc.enqueue_task("ghost", "default", "x").unwrap_err();
    assert_eq!((no.code, no.message.as_str()), (Code::NotFound, "tenant not found"));
    let no = svc.dequeue_tasks("ghost", "default", 1).unwrap_err();
    assert_eq!(no.code, Code::NotFound);
    let no = svc.svc.enqueue_batch("ghost", "default", 0).unwrap_err();
    assert_eq!((no.code, no.message.as_str()), (Code::InvalidArgument, "payloads must not be empty"));
    let no = svc.svc.enqueue_batch("ghost", "default", 2).unwrap_err();
    assert_eq!(no.code, Code::NotFound);
    let no = svc.ack_task("ghost", "00").unwrap_err();
    assert_eq!(no.code, Code::NotFound);
    assert_eq!(no.message, "Column family missing: ghost__inflight");
}
