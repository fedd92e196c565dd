//! Tasks, policies, keys, errors, configuration and the answers of the control
//! plane.

use rocksqueue::baseline::{BaselineRegistry, BaselineStart};
use rocksqueue::codec::integer_message;
use rocksqueue::compaction::{
    make_dlq_filter, make_inflight_filter, make_pending_filter, CompactionCounters,
    CompactionFilter, Decision,
};
use rocksqueue::config::{Config, EnvValues};
use rocksqueue::error::{IoKind, QueueError};
use rocksqueue::grpc::ack_key::{encode_ack_key, parse_ack_key, KeyFault};
use rocksqueue::grpc::control_plane::{
    checkpoint_is_bad_request, drain_step, drain_timeout, limit_meant, queue_error,
    queue_or_default, set_namespace_policy, watch_interval, watch_next, watch_queue_depth, Code,
    ControlPlaneService, DepthOutcome, DrainStep, NamespacePolicyRequest, PolicyMessage,
    Registration, WatchAction,
};
use rocksqueue::ownership::OwnershipMap;
use rocksqueue::policy::{BacklogPolicy, NamespacePolicy, RetentionPolicy};
use rocksqueue::scheduler::WFQScheduler;
use rocksqueue::stats::StatsCollector;
use rocksqueue::task::{decode_key_seq, encode_key, epoch_millis, now_millis, queue_prefix, Task};
use rocksqueue::tenant::admin::{compression_per_level, db_options, AdminStep, Compression};
use rocksqueue::tenant::{DbConfig, TenantRegistry};
use rocksqueue::throttle::{AutoThrottle, ThrottleConfig};

fn task() -> Task {
    Task {
        id: "id".to_string(),
        queue: "q".to_string(),
        payload: vec![7, 8, 9],
        enqueued_at: 258,
        attempts: 3,
        deadline: 1,
    }
}

#[test]
fn a_task_has_the_fixed_layout() {
    let mut want: Vec<u8> = Vec::new();
    want.extend_from_slice(&[2, 0, 0, 0, 0, 0, 0, 0, b'i', b'd']);
    want.extend_from_slice(&[1, 0, 0, 0, 0, 0, 0, 0, b'q']);
    want.extend_from_slice(&[3, 0, 0, 0, 0, 0, 0, 0, 7, 8, 9]);
    want.extend_from_slice(&[2, 1, 0, 0, 0, 0, 0, 0]);
    want.extend_from_slice(&[3, 0, 0, 0]);
    want.extend_from_slice(&[1, 0, 0, 0, 0, 0, 0, 0]);
    assert_eq!(task().serialize().unwrap(), want);
}

#[test]
fn a_task_comes_back_as_it_was_stored() {
    let bytes = task().serialize().unwrap();
    let back = Task::deserialize(&bytes).unwrap();
    assert_eq!(back.id, "id");
    assert_eq!(back.queue, "q");
    assert_eq!(back.payload, vec![7, 8, 9]);
    assert_eq!((back.enqueued_at, back.attempts, back.deadline), (258, 3, 1));
    assert!(matches!(Task::deserialize(&bytes[..5]), Err(QueueError::Serialization(_))));
    let mut longer = bytes.clone();
    longer.extend_from_slice(b"more");
    assert_eq!(Task::deserialize(&longer).unwrap().deadline, 1);
    let mut bad = bytes.clone();
    bad[8] = 0xff;
    assert!(Task::deserialize(&bad).is_err());
}

#[test]
fn a_poisoned_record_is_wrapped() {
    let p = Task::poison("q", b"\xff", 9);
    assert_eq!((p.attempts, p.enqueued_at, p.queue.as_str()), (u32::MAX, 9, "q"));
    assert_eq!(p.payload, b"\xff");
}

#[test]
fn the_age_of_a_task_is_never_negative() {
    assert_eq!(task().age_at(300), 42);
    assert_eq!(task().age_at(200), 0);
    assert!(task().age_ms() > 1_000_000_000_000);
    assert!(now_millis() > 1_600_000_000_000);
    assert_eq!(epoch_millis(Some(1_600_000_000_000)), 1_600_000_000_000);
    assert_eq!(epoch_millis(Some((1u128 << 64) + 3)), 3);
    assert_eq!(epoch_millis(None), 0);
}

#[test]
fn keys_sort_by_number_within_a_queue() {
    assert_eq!(encode_key("ab", 258), vec![b'a', b'b', 0, 0, 0, 0, 0, 0, 0, 1, 2]);
    assert_eq!(queue_prefix("ab"), vec![b'a', b'b', 0]);
    assert!(encode_key("q", 255) < encode_key("q", 256));
    assert!(encode_key("q", 256) < encode_key("q", u64::MAX));
    assert_eq!(decode_key_seq(&encode_key("q", 77)), Some(77));
    assert_eq!(decode_key_seq(b"short"), None);
    assert_eq!(decode_key_seq(b"no zero here"), None);
}

#[test]
fn keys_of_a_queue_share_their_prefix() {
    let key = encode_key("mail", 5);
    assert_eq!(TenantRegistry::queue_prefix_transform(&key), b"mail\0");
    assert!(TenantRegistry::queue_prefix_in_domain(&key));
    assert!(!TenantRegistry::queue_prefix_in_domain(b"mail"));
    let lock = TenantRegistry::queue_lock_name("acme", "mail");
    assert!(TenantRegistry::lock_goes_with(&lock, "acme"));
    assert!(!TenantRegistry::lock_goes_with(&lock, "acm"));
}

#[test]
fn tiers_of_namespaces() {
    let s = NamespacePolicy::standard("acme");
    assert_eq!((s.weight, s.max_inflight, s.burst_tokens, s.rate_per_sec), (10, 500, 100, 100));
    assert_eq!(s.backlog_policy, BacklogPolicy::Reject);
    let p = NamespacePolicy::premium("acme");
    assert_eq!((p.weight, p.max_inflight, p.burst_tokens, p.rate_per_sec), (50, 5000, 1000, 1000));
    let r = RetentionPolicy::default();
    assert_eq!(
        (r.pending_retention_secs, r.dlq_retention_secs, r.inflight_stale_secs),
        (0, 604_800, 300)
    );
}

#[test]
fn a_policy_comes_back_as_it_was_stored() {
    for backlog in
        [BacklogPolicy::Reject, BacklogPolicy::Block { timeout_ms: 9 }, BacklogPolicy::EvictOldest]
    {
        for quota in [None, Some(17)] {
            let mut p = NamespacePolicy::premium("acme");
            p.backlog_policy = backlog;
            p.backlog_quota = quota;
            let back = NamespacePolicy::deserialize(&p.serialize().unwrap()).unwrap();
            assert_eq!(back.backlog_policy, backlog);
            assert_eq!(back.backlog_quota, quota);
            assert_eq!(back.tenant_id, "acme");
            assert_eq!(back.weight, 50);
        }
    }
    let mut bytes = NamespacePolicy::standard("a").serialize().unwrap();
    bytes.truncate(20);
    assert!(NamespacePolicy::deserialize(&bytes).is_err());
}

#[test]
fn an_unknown_backlog_policy_is_a_decoding_error() {
    let mut bytes = NamespacePolicy::standard("a").serialize().unwrap();
    // Two names of nine bytes, four numbers of 20 bytes, a quota of nine bytes.
    assert_eq!(&bytes[47..51], &[0, 0, 0, 0]);
    bytes[47] = 3;
    let words = integer_message(3, "variant index 0 <= i < 3");
    assert_eq!(words, "invalid value: integer `3`, expected variant index 0 <= i < 3");
    assert_eq!(
        NamespacePolicy::deserialize(&bytes).unwrap_err().message(),
        format!("Serialization error: {words}")
    );
}

#[test]
fn filters_decide_by_the_clock() {
    let mut counters = CompactionCounters::new();
    let mut t = task();
    t.enqueued_at = now_millis();
    let bytes = t.serialize().unwrap();
    let pending: CompactionFilter = make_pending_filter(3_600);
    assert_eq!(pending.decide_now(&bytes, &mut counters), Decision::Keep);
    assert_eq!(make_dlq_filter(3_600).decide_now(&bytes, &mut counters), Decision::Keep);
    assert_eq!(make_inflight_filter(3_600).decide_now(&bytes, &mut counters), Decision::Remove);
    assert_eq!((counters.kept, counters.inflight_stale), (2, 1));
}

#[test]
fn errors_say_what_is_wrong() {
    let says = |e: QueueError| e.message();
    assert_eq!(says(QueueError::RocksDB("x".to_string())), "RocksDB error: x");
    assert_eq!(says(QueueError::QueueNotFound("q".to_string())), "Queue not found: q");
    assert_eq!(says(QueueError::TaskNotFound("t".to_string())), "Task not found: t");
    assert_eq!(says(QueueError::ColumnFamilyMissing("c".to_string())), "Column family missing: c");
    assert_eq!(says(QueueError::Io(IoKind::Other, "i".to_string())), "IO error: i");
    let quota = QueueError::BacklogQuotaExceeded {
        tenant: "acme".to_string(),
        queue: "q".to_string(),
        current: 3,
        quota: 10,
        incoming: 8,
    };
    assert_eq!(
        says(quota),
        "Backlog quota exceeded for tenant=acme queue=q: current=3 quota=10 incoming=8"
    );
    let bad = Task::deserialize(b"").unwrap_err().message();
    assert_eq!(bad, "Serialization error: io error: unexpected end of file");
}

#[test]
fn errors_are_answered_by_their_kind() {
    let code = |e: QueueError| queue_error(&e).code;
    assert_eq!(code(QueueError::ColumnFamilyMissing(String::new())), Code::NotFound);
    assert_eq!(code(QueueError::QueueNotFound(String::new())), Code::NotFound);
    assert_eq!(code(QueueError::TaskNotFound(String::new())), Code::NotFound);
    assert_eq!(code(QueueError::RocksDB(String::new())), Code::Internal);
    assert_eq!(code(QueueError::Io(IoKind::PermissionDenied, String::new())), Code::Internal);
    assert_eq!(code(Task::deserialize(b"").unwrap_err()), Code::Internal);
    let quota = QueueError::BacklogQuotaExceeded {
        tenant: String::new(),
        queue: String::new(),
        current: 1,
        quota: 1,
        incoming: 1,
    };
    assert_eq!(code(quota), Code::ResourceExhausted);
    assert_eq!(queue_error(&QueueError::Io(IoKind::Other, "full".to_string())).message, "IO error: full");
}

#[test]
fn keys_travel_as_digits() {
    assert_eq!(encode_ack_key(&[0, 15, 255]), "000fff");
    assert_eq!(parse_ack_key("000fFF").unwrap(), vec![0, 15, 255]);
    assert_eq!(parse_ack_key(""), Ok(Vec::new()));
    assert_eq!(parse_ack_key("0"), Err(KeyFault::OddLength));
    assert_eq!(parse_ack_key("0\n"), Err(KeyFault::InvalidCharacter { c: '\n', index: 1 }));
    assert_eq!(
        parse_ack_key("0\n").unwrap_err().words(),
        "Invalid character '\\n' at position 1"
    );
    let key = encode_key("default", 99);
    assert_eq!(parse_ack_key(&encode_ack_key(&key)).unwrap(), key);
}

fn no_values() -> EnvValues {
    EnvValues {
        rocksdb_path: None,
        rocksdb_wal_path: None,
        checkpoint_path: None,
        grpc_addr: None,
        metrics_addr: None,
        s3_bucket: None,
        s3_endpoint: None,
        aws_region: None,
    }
}

#[test]
fn the_usual_configuration_is_local() {
    let c = Config::from_env(no_values());
    assert!(c.is_local());
    assert_eq!(c.grpc_addr, "0.0.0.0:50051");
    assert_eq!(c.metrics_addr, "0.0.0.0:9090");
    assert_eq!(c.aws_region, "us-east-1");
    assert_eq!(c.block_cache_bytes, 256 * 1024 * 1024);
    assert_eq!(
        c.ensure_dirs(),
        vec!["./data/rocksqueue", "./data/rocksqueue-wal", "./data/checkpoints"]
    );
    let db = c.db_config();
    assert_eq!((db.write_buffer_bytes, db.max_write_buffers), (64 * 1024 * 1024, 4));
    assert_eq!(db.sst_path, "./data/rocksqueue");
}

#[test]
fn data_under_the_data_directory_is_production() {
    let mut v = no_values();
    v.rocksdb_path = Some("/data/rocksqueue".to_string());
    v.aws_region = Some("eu-west-1".to_string());
    let c = Config::from_env(v);
    assert!(!c.is_local());
    assert!(c.ensure_dirs().is_empty());
    assert_eq!(c.block_cache_bytes, 4 * 1024 * 1024 * 1024);
    assert_eq!(c.aws_region, "eu-west-1");
    let mut v = no_values();
    v.rocksdb_path = Some("/database".to_string());
    assert!(Config::from_env(v).is_local());
    assert_eq!(DbConfig::local().block_cache_bytes, 256 * 1024 * 1024);
    assert_eq!(DbConfig::production().sst_path, "/data/rocksqueue");
}

#[test]
fn the_store_uses_the_processors() {
    let o = db_options(&DbConfig::local(), 6);
    assert_eq!(o.parallelism, 6);
    assert_eq!(o.wal_dir, "./data/rocksqueue-wal");
    assert!(o.create_if_missing && o.create_missing_column_families);
    let levels = compression_per_level();
    assert_eq!(levels.len(), 7);
    assert_eq!((levels[1], levels[2], levels[5]), (Compression::Off, Compression::Lz4, Compression::Zstd));
    let (_, plan) = TenantRegistry::open(&DbConfig::local(), Vec::new(), 0);
    assert!(plan.db.parallelism >= 1);
    assert_eq!(plan.families.len(), 1);
    assert_eq!(plan.families[0].name, "__system__");
}

#[test]
fn administrative_steps_come_in_order() {
    let steps = TenantRegistry::drop_tenant("acme");
    let names: Vec<String> = steps
        .iter()
        .map(|s| match s {
            AdminStep::CreateFamily(p) => format!("create {}", p.name),
            AdminStep::DropFamily(n) => format!("drop {n}"),
            AdminStep::RequireFamily(n) => format!("need {n}"),
            AdminStep::Write(b) => format!("write {} {}", b.ops.len(), b.sync),
        })
        .collect();
    assert_eq!(
        names,
        vec![
            "drop acme__pending",
            "drop acme__inflight",
            "drop acme__dlq",
            "need __system__",
            "write 1 true"
        ]
    );
}

#[test]
fn numbers_start_from_the_time() {
    let (mut r, _) = TenantRegistry::open(&DbConfig::local(), Vec::new(), 1_000);
    let first = r.next_seq();
    assert!(first >= 1_000);
    assert_eq!(r.next_seq(), first + 1);
}

#[test]
fn a_single_node_owns_every_tenant() {
    let mut m = OwnershipMap::new();
    assert!(m.is_local("acme", "node-1"));
    assert_eq!(m.owner_of("acme"), None);
    m.assign("acme", "node-2");
    assert!(!m.is_local("acme", "node-1"));
    assert!(m.is_local("acme", "node-2"));
    assert!(m.is_local("globex", "node-1"));
    assert_eq!(m.owner_of("acme"), Some("node-2".to_string()));
}

// The control plane.

fn service() -> ControlPlaneService {
    let (registry, _) = TenantRegistry::open(&DbConfig::local(), Vec::new(), 1);
    ControlPlaneService::new(
        registry,
        WFQScheduler::new(),
        StatsCollector::new(),
        AutoThrottle::new(ThrottleConfig::default()),
        BaselineRegistry::new(),
        vec!["first".to_string(), "second".to_string()],
    )
}

fn registration() -> Registration {
    Registration {
        full_bucket: 100f64.to_bits(),
        ticks: 3,
        start: BaselineStart { rate: 0, spike_threshold: 10f64.to_bits(), k_slack: 0, h_threshold: 0 },
        record: None,
        now: 4,
    }
}

#[test]
fn a_provisioned_tenant_is_known_everywhere() {
    let mut svc = service();
    let policy = ControlPlaneService::policy_for_tier("acme", "premium");
    assert_eq!(policy.weight, 50);
    assert_eq!(ControlPlaneService::policy_for_tier("acme", "gold").weight, 10);
    let done = svc.provision_tenant("acme", policy, &registration());
    assert_eq!((done.tenant_id.as_str(), done.success, done.message.as_str()), ("acme", true, "provisioned"));
    assert_eq!(svc.get_policy("acme").unwrap().max_inflight, 5000);
    assert!(svc.get_tenant_stats("acme").unwrap().is_new);
    assert_eq!(f64::from_bits(svc.get_baseline_status("acme").unwrap().spike_threshold), 10.0);
    assert_eq!(svc.registry.list_tenants(), vec!["acme"]);

    let dropped = svc.drop_tenant("acme");
    assert_eq!(dropped.message, "dropped");
    assert_eq!(svc.get_policy("acme").unwrap_err().message, "tenant not found");
    assert_eq!(svc.get_tenant_stats("acme").unwrap_err().message, "tenant stats not found");
    assert_eq!(svc.get_baseline_status("acme").unwrap_err().message, "no baseline");
    assert_eq!(svc.get_throttle_status("acme").unwrap_err().message, "no throttle state");
    assert!(svc.registry.list_tenants().is_empty());
}

#[test]
fn a_restart_registers_the_tenants_that_are_kept() {
    let existing = vec![("acme".to_string(), NamespacePolicy::premium("acme"))];
    let (registry, plan) = TenantRegistry::open(&DbConfig::local(), existing, 1);
    assert_eq!(plan.families.len(), 4);
    let mut svc = service();
    svc.registry = registry;
    assert!(svc.restore_tenant("acme", &registration()));
    assert!(!svc.restore_tenant("ghost", &registration()));
    assert_eq!(svc.get_policy("acme").unwrap().weight, 50);
    assert!(svc.get_policy("ghost").is_err());
}

#[test]
fn shares_can_be_changed() {
    let mut svc = service();
    assert_eq!(svc.update_policy("acme", None, 0, 0).unwrap_err().message, "policy required");
    let p = PolicyMessage { weight: 1, max_inflight: 2, burst_tokens: 3, rate_per_sec: 4 };
    assert_eq!(svc.update_policy("acme", Some(p), 3f64.to_bits(), 0).unwrap().message, "policy updated");
    assert_eq!(svc.get_policy("acme").unwrap(), p);
}

#[test]
fn a_namespace_policy_is_told_back() {
    let req = |word: &str, quota: u64, dlq: u64| NamespacePolicyRequest {
        tenant_id: "acme".to_string(),
        backlog_quota: quota,
        backlog_policy: word.to_string(),
        block_timeout_ms: 77,
        pending_retention_secs: 5,
        dlq_retention_secs: dlq,
        inflight_stale_secs: dlq,
    };
    let p = set_namespace_policy(&req("block", 12, 9));
    assert_eq!(p.backlog_policy, BacklogPolicy::Block { timeout_ms: 77 });
    assert_eq!((p.backlog_quota, p.weight, p.max_inflight), (Some(12), 10, 500));
    assert_eq!((p.retention.dlq_retention_secs, p.retention.inflight_stale_secs), (9, 9));
    let mut svc = service();
    assert_eq!(svc.get_namespace_policy("acme").unwrap_err().code, Code::NotFound);
    svc.registry.policy_stored("acme", p);
    let told = svc.get_namespace_policy("acme").unwrap();
    assert_eq!((told.backlog_policy.as_str(), told.backlog_quota), ("block", 12));
    assert_eq!(told.pending_retention_secs, 5);

    let p = set_namespace_policy(&req("evict_oldest", 0, 0));
    assert_eq!((p.backlog_policy, p.backlog_quota), (BacklogPolicy::EvictOldest, None));
    assert_eq!((p.retention.dlq_retention_secs, p.retention.inflight_stale_secs), (604_800, 300));
    svc.registry.policy_stored("acme", p);
    let told = svc.get_namespace_policy("acme").unwrap();
    assert_eq!((told.backlog_policy.as_str(), told.backlog_quota), ("evict_oldest", 0));
    assert_eq!(set_namespace_policy(&req("whatever", 1, 1)).backlog_policy, BacklogPolicy::Reject);
}

#[test]
fn pausing_and_resuming() {
    let mut svc = service();
    assert_eq!(svc.pause_tenant("acme").unwrap_err().message, "tenant not found");
    assert!(svc.resume_tenant("acme").is_err());
    svc.provision_tenant("acme", NamespacePolicy::standard("acme"), &registration());
    assert_eq!(svc.pause_tenant("acme").unwrap().message, "paused");
    let status = svc.get_tenant_status("acme", (1, 2, 3));
    assert!(status.paused);
    assert_eq!((status.pending, status.inflight, status.dlq), (1, 2, 3));
    assert_eq!(svc.resume_tenant("acme").unwrap().message, "resumed");
    assert!(!svc.get_tenant_status("acme", (0, 0, 0)).paused);
    assert!(!svc.get_tenant_status("ghost", (0, 0, 0)).paused);
    svc.begin_drain("acme");
    assert!(svc.get_tenant_status("acme", (0, 0, 0)).paused);
    assert_eq!(svc.status_queue(), "first");
    svc.queues.clear();
    assert_eq!(svc.status_queue(), "");
}

#[test]
fn settled_tasks_are_counted() {
    let mut svc = service();
    svc.provision_tenant("acme", NamespacePolicy::standard("acme"), &registration());
    svc.enqueued("acme", 5);
    assert_eq!(svc.ack_batch("acme", 12).message, "acked 12");
    assert_eq!(svc.nack_task("acme").message, "nacked");
    assert_eq!(svc.ack_task("acme", false).message, "acked");
    svc.collector.refresh();
    let s = svc.get_tenant_stats("acme").unwrap();
    assert_eq!((s.total_enqueued, s.total_acked, s.total_nacked), (5, 12, 1));
    let (done, writes) = svc.force_release_throttle("acme");
    assert_eq!(done.message, "throttle released");
    assert_eq!(writes.len(), 1);
    assert_eq!(svc.get_compaction_stats().kept, 0);
}

#[test]
fn a_drain_ends_when_the_queue_is_empty_or_time_is_up() {
    assert_eq!(drain_step(0, 0, false), DrainStep::Over { drained: true, remaining: 0 });
    assert_eq!(drain_step(2, 3, true), DrainStep::Over { drained: false, remaining: 5 });
    assert_eq!(drain_step(2, 0, false), DrainStep::Wait { pause_ms: 500 });
    assert_eq!((drain_timeout(0), drain_timeout(9)), (1, 9));
}

#[test]
fn a_watch_ends_with_the_first_error() {
    let ok = watch_queue_depth("acme", "q", &DepthOutcome::Measured(1, 2, 3), 44);
    assert!(ok.goes_on);
    let event = ok.message.unwrap();
    assert_eq!((event.pending, event.inflight, event.dlq, event.timestamp), (1, 2, 3, 44));
    assert_eq!((event.tenant_id.as_str(), event.queue.as_str()), ("acme", "q"));
    let no = watch_queue_depth("acme", "q", &DepthOutcome::Broken("panic".to_string()), 0);
    assert!(!no.goes_on);
    assert_eq!(no.message.unwrap_err().message, "blocking task failed: panic");
    let gone = QueueError::ColumnFamilyMissing("acme__pending".to_string());
    let no = watch_queue_depth("acme", "q", &DepthOutcome::Refused(gone), 0);
    assert!(!no.goes_on);
    let status = no.message.unwrap_err();
    assert_eq!(status.code, Code::Internal);
    assert_eq!(status.message, "Column family missing: acme__pending");
    assert_eq!(watch_next(2, 1), WatchAction::Measure(1));
    assert_eq!(watch_next(2, 2), WatchAction::Tick);
    assert_eq!((watch_interval(0), watch_interval(3)), (1, 3));
}

#[test]
fn requests_have_their_defaults() {
    assert_eq!(queue_or_default(""), "default");
    assert_eq!(queue_or_default("mail"), "mail");
    assert_eq!((limit_meant(0), limit_meant(7)), (500, 7));
    assert!(checkpoint_is_bad_request("path must be under base"));
    assert!(!checkpoint_is_bad_request("IO error: full"));
}
