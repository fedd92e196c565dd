//! Opening the store, and tenants that come, change and go.

use vstd::prelude::*;
use vstd::slice::*;
use vstd::utf8::*;

use crate::compaction::{
    make_dlq_filter, make_inflight_filter, make_pending_filter, CompactionFilter,
};
use crate::error::{Fault, QueueError};
use crate::policy;
use crate::policy::{NamespacePolicy, PolicyView, RetentionPolicy};
use crate::reaper;
use crate::store::{Batch, BatchView, OpView, RecordView, Scan, ScanView};
use crate::tenant;
use crate::tenant::enqueue;
use crate::tenant::{
    cf_dlq, cf_inflight, cf_pending, cf_system, DbConfig, RegistryView, TenantRegistry,
};
use crate::text;

verus! {

/// How a level of a family's files is compressed.
#[derive(Debug, Clone, Copy, PartialEq, Eq, Structural)]
pub enum Compression {
    Off,
    Lz4,
    Zstd,
}

/// How a level of a family's files is compressed: the first two not at all,
/// the next three fast, the rest well.
pub open spec fn level_compression(level: int) -> Compression {
    if level < 2 {
        Compression::Off
    } else if level < 5 {
        Compression::Lz4
    } else {
        Compression::Zstd
    }
}

/// The compression of each of the seven levels.
pub fn compression_per_level() -> (r: Vec<Compression>)
    ensures
        r@ == Seq::new(7, |i: int| level_compression(i)),
{
    let mut r: Vec<Compression> = Vec::new();
    r.push(Compression::Off);
    r.push(Compression::Off);
    r.push(Compression::Lz4);
    r.push(Compression::Lz4);
    r.push(Compression::Lz4);
    r.push(Compression::Zstd);
    r.push(Compression::Zstd);
    assert(r@ =~= Seq::new(7, |i: int| level_compression(i)));
    r
}

/// The options of a family. All families of tenants share one block cache.
#[derive(Debug, Clone, Copy, PartialEq, Eq, Structural)]
pub enum FamilyOptions {
    /// The family of the system's own records.
    System { write_buffer_size: usize },
    /// A family of a tenant.
    Queue {
        write_buffer_size: usize,
        max_write_buffer_number: i32,
        min_write_buffer_number_to_merge: i32,
        level_zero_file_num_compaction_trigger: i32,
        level_zero_slowdown_writes_trigger: i32,
        level_zero_stop_writes_trigger: i32,
        target_file_size_base: u64,
        max_bytes_for_level_base: u64,
        shared_block_cache_bytes: u64,
        filter: CompactionFilter,
    },
}

/// The options of the system's family.
pub open spec fn system_options() -> FamilyOptions {
    FamilyOptions::System { write_buffer_size: 16_777_216 }
}

/// The options of a tenant's family.
pub open spec fn queue_options(
    write_buffer_bytes: usize,
    max_write_buffers: i32,
    block_cache_bytes: u64,
    filter: CompactionFilter,
) -> FamilyOptions {
    FamilyOptions::Queue {
        write_buffer_size: write_buffer_bytes,
        max_write_buffer_number: max_write_buffers,
        min_write_buffer_number_to_merge: 2,
        level_zero_file_num_compaction_trigger: 4,
        level_zero_slowdown_writes_trigger: 12,
        level_zero_stop_writes_trigger: 20,
        target_file_size_base: 67_108_864,
        max_bytes_for_level_base: 536_870_912,
        shared_block_cache_bytes: block_cache_bytes,
        filter,
    }
}

/// The options of the system's family.
pub fn system_cf_opts() -> (r: FamilyOptions)
    ensures
        r == system_options(),
{
    FamilyOptions::System { write_buffer_size: 16 * 1024 * 1024 }
}

/// The options of a tenant's family.
pub fn cf_options_with_filter(
    write_buffer_bytes: usize,
    max_write_buffers: i32,
    block_cache_bytes: u64,
    filter: CompactionFilter,
) -> (r: FamilyOptions)
    ensures
        r == queue_options(write_buffer_bytes, max_write_buffers, block_cache_bytes, filter),
{
    FamilyOptions::Queue {
        write_buffer_size: write_buffer_bytes,
        max_write_buffer_number: max_write_buffers,
        min_write_buffer_number_to_merge: 2,
        level_zero_file_num_compaction_trigger: 4,
        level_zero_slowdown_writes_trigger: 12,
        level_zero_stop_writes_trigger: 20,
        target_file_size_base: 64 * 1024 * 1024,
        max_bytes_for_level_base: 512 * 1024 * 1024,
        shared_block_cache_bytes: block_cache_bytes,
        filter,
    }
}

/// A family and its options.
#[derive(Debug)]
pub struct FamilyPlan {
    pub name: String,
    pub options: FamilyOptions,
}

/// A family and its options as a mathematical value.
#[verifier::ext_equal]
pub struct FamilyPlanView {
    pub name: Seq<char>,
    pub options: FamilyOptions,
}

impl View for FamilyPlan {
    type V = FamilyPlanView;

    open spec fn view(&self) -> FamilyPlanView {
        FamilyPlanView { name: self.name@, options: self.options }
    }
}

/// Families as mathematical values.
pub open spec fn plans_view(v: Seq<FamilyPlan>) -> Seq<FamilyPlanView> {
    v.map_values(|p: FamilyPlan| p@)
}

/// The three families of a tenant with the filters that its retention asks
/// for.
pub open spec fn tenant_families(
    tenant: Seq<char>,
    retention: RetentionPolicy,
    write_buffer_bytes: usize,
    max_write_buffers: i32,
    block_cache_bytes: u64,
) -> Seq<FamilyPlanView> {
    seq![
        FamilyPlanView {
            name: tenant::pending_name(tenant),
            options: queue_options(
                write_buffer_bytes,
                max_write_buffers,
                block_cache_bytes,
                CompactionFilter::Pending { retention_secs: retention.pending_retention_secs },
            ),
        },
        FamilyPlanView {
            name: tenant::inflight_name(tenant),
            options: queue_options(
                write_buffer_bytes,
                max_write_buffers,
                block_cache_bytes,
                CompactionFilter::Inflight { stale_after_secs: retention.inflight_stale_secs },
            ),
        },
        FamilyPlanView {
            name: tenant::dlq_name(tenant),
            options: queue_options(
                write_buffer_bytes,
                max_write_buffers,
                block_cache_bytes,
                CompactionFilter::Dlq { retention_secs: retention.dlq_retention_secs },
            ),
        },
    ]
}

/// Adds the three families of a tenant to a list.
fn push_tenant_families(
    out: &mut Vec<FamilyPlan>,
    tenant: &str,
    retention: &RetentionPolicy,
    write_buffer_bytes: usize,
    max_write_buffers: i32,
    block_cache_bytes: u64,
)
    ensures
        plans_view(final(out)@) == plans_view(old(out)@) + tenant_families(
            tenant@,
            *retention,
            write_buffer_bytes,
            max_write_buffers,
            block_cache_bytes,
        ),
{
    out.push(
        FamilyPlan {
            name: cf_pending(tenant),
            options: cf_options_with_filter(
                write_buffer_bytes,
                max_write_buffers,
                block_cache_bytes,
                make_pending_filter(retention.pending_retention_secs),
            ),
        },
    );
    out.push(
        FamilyPlan {
            name: cf_inflight(tenant),
            options: cf_options_with_filter(
                write_buffer_bytes,
                max_write_buffers,
                block_cache_bytes,
                make_inflight_filter(retention.inflight_stale_secs),
            ),
        },
    );
    out.push(
        FamilyPlan {
            name: cf_dlq(tenant),
            options: cf_options_with_filter(
                write_buffer_bytes,
                max_write_buffers,
                block_cache_bytes,
                make_dlq_filter(retention.dlq_retention_secs),
            ),
        },
    );
    assert(plans_view(out@) =~= plans_view(old(out)@) + tenant_families(
        tenant@,
        *retention,
        write_buffer_bytes,
        max_write_buffers,
        block_cache_bytes,
    ));
}

/// The beginning of the keys under which policies are kept.
pub open spec fn meta_prefix() -> Seq<u8> {
    encode_utf8("tenant:"@)
}

/// The key under which a tenant's policy is kept.
pub open spec fn meta_key(tenant: Seq<char>) -> Seq<u8> {
    meta_prefix() + encode_utf8(tenant)
}

/// The key under which a tenant's policy is kept.
fn tenant_meta_key(tenant: &str) -> (r: Vec<u8>)
    ensures
        r@ == meta_key(tenant@),
{
    let mut key = slice_to_vec("tenant:".as_bytes());
    key.extend_from_slice(tenant.as_bytes());
    assert(key@ =~= meta_key(tenant@));
    key
}

/// A tenant and its policy as mathematical values.
pub type TenantView = (Seq<char>, PolicyView);

/// Tenants and policies as mathematical values.
pub open spec fn tenants_view(v: Seq<(String, NamespacePolicy)>) -> Seq<TenantView> {
    v.map_values(|t: (String, NamespacePolicy)| (t.0@, t.1@))
}

/// The tenant of a record that holds a policy.
pub open spec fn tenant_of(r: RecordView) -> TenantView {
    (
        text::text_from(r.key.skip(meta_prefix().len() as int)),
        policy::read_policy(r.value)->0,
    )
}

/// How many records come before the first that holds no policy.
pub open spec fn leading_policies(rs: Seq<RecordView>) -> nat
    decreases rs.len(),
{
    if rs.len() == 0 || policy::read_policy(rs[0].value) is None {
        0
    } else {
        1 + leading_policies(rs.drop_first())
    }
}

/// The tenants kept in the system's family, on what was read from the first
/// policy key on.
pub open spec fn loaded(scan: ScanView) -> Result<Seq<TenantView>, Fault> {
    let n = reaper::leading(meta_prefix(), scan.records);
    let rs = scan.records.take(n as int);
    if leading_policies(rs) < n {
        Err(Fault::Serialization)
    } else if n == scan.records.len() && scan.failure is Some {
        Err(Fault::Store(scan.failure->0))
    } else {
        Ok(rs.map_values(|r: RecordView| tenant_of(r)))
    }
}

/// The first records that hold policies all count as leading.
pub proof fn lemma_leading_policies(rs: Seq<RecordView>, i: int)
    requires
        0 <= i <= rs.len(),
        forall|j: int| 0 <= j < i ==> policy::read_policy((#[trigger] rs[j]).value) is Some,
    ensures
        leading_policies(rs) == i + leading_policies(rs.skip(i)),
    decreases i,
{
    if i == 0 {
        assert(rs.skip(0) =~= rs);
    } else {
        let rest = rs.drop_first();
        assert(policy::read_policy(rs[0].value) is Some);
        assert forall|j: int| 0 <= j < i - 1 implies policy::read_policy(
            (#[trigger] rest[j]).value,
        ) is Some by {
            assert(rest[j] == rs[j + 1]);
        }
        lemma_leading_policies(rest, i - 1);
        assert(rest.skip(i - 1) =~= rs.skip(i));
    }
}

/// The options of the whole store.
#[derive(Debug)]
pub struct DbOptions {
    pub create_if_missing: bool,
    pub create_missing_column_families: bool,
    pub wal_dir: String,
    pub wal_bytes_per_sync: u64,
    pub bytes_per_sync: u64,
    pub allow_concurrent_memtable_write: bool,
    pub enable_write_thread_adaptive_yield: bool,
    pub parallelism: i32,
    pub max_background_jobs: i32,
    /// A damaged end of the log is cut off rather than refused.
    pub tolerate_corrupted_tail: bool,
}

/// What the options of the store are on a machine with so many processors.
pub open spec fn is_db_options(o: DbOptions, wal_path: Seq<char>, cpus: usize) -> bool {
    &&& o.create_if_missing
    &&& o.create_missing_column_families
    &&& o.wal_dir@ == wal_path
    &&& o.wal_bytes_per_sync == 512 * 1024
    &&& o.bytes_per_sync == 1024 * 1024
    &&& o.allow_concurrent_memtable_write
    &&& o.enable_write_thread_adaptive_yield
    &&& o.parallelism == cpus as i32
    &&& o.max_background_jobs == (if cpus < 8 {
        cpus as i32
    } else {
        8
    })
    &&& o.tolerate_corrupted_tail
}

/// The options of the store on a machine with so many processors.
pub fn db_options(cfg: &DbConfig, cpus: usize) -> (r: DbOptions)
    ensures
        is_db_options(r, cfg.wal_path@, cpus),
{
    DbOptions {
        create_if_missing: true,
        create_missing_column_families: true,
        wal_dir: cfg.wal_path.clone(),
        wal_bytes_per_sync: 512 * 1024,
        bytes_per_sync: 1024 * 1024,
        allow_concurrent_memtable_write: true,
        enable_write_thread_adaptive_yield: true,
        parallelism: #[verifier::truncate] (cpus as i32),
        max_background_jobs: if cpus < 8 {
            cpus as i32
        } else {
            8
        },
        tolerate_corrupted_tail: true,
    }
}

/// `num_cpus::get`: the number of processors, which is at least one. It
/// depends on the machine.
#[verifier::external_body]
fn cpu_count() -> (r: usize)
    ensures
        r >= 1,
{
    num_cpus::get()
}

/// How the store is opened: its options and its families.
pub struct OpenPlan {
    pub db: DbOptions,
    pub families: Vec<FamilyPlan>,
}

/// The families of a store with such tenants: the system's and three for each
/// tenant.
pub open spec fn open_families(
    tenants: Seq<TenantView>,
    write_buffer_bytes: usize,
    max_write_buffers: i32,
    block_cache_bytes: u64,
) -> Seq<FamilyPlanView>
    decreases tenants.len(),
{
    if tenants.len() == 0 {
        seq![FamilyPlanView { name: tenant::system_name(), options: system_options() }]
    } else {
        open_families(
            tenants.drop_last(),
            write_buffer_bytes,
            max_write_buffers,
            block_cache_bytes,
        ) + tenant_families(
            tenants.last().0,
            tenants.last().1.retention,
            write_buffer_bytes,
            max_write_buffers,
            block_cache_bytes,
        )
    }
}

/// The policies of tenants; the last one of a name counts.
pub open spec fn policies_of(tenants: Seq<TenantView>) -> Map<Seq<char>, PolicyView>
    decreases tenants.len(),
{
    if tenants.len() == 0 {
        Map::empty()
    } else {
        policies_of(tenants.drop_last()).insert(tenants.last().0, tenants.last().1)
    }
}

/// A step of an administrative change. The steps are done one after the other,
/// and the first that fails ends the change.
pub enum AdminStep {
    /// The family is created.
    CreateFamily(FamilyPlan),
    /// The family is dropped.
    DropFamily(String),
    /// The family must be there.
    RequireFamily(String),
    /// The batch is written.
    Write(Batch),
}

/// A step as a mathematical value.
pub enum StepView {
    CreateFamily(FamilyPlanView),
    DropFamily(Seq<char>),
    RequireFamily(Seq<char>),
    Write(BatchView),
}

impl View for AdminStep {
    type V = StepView;

    open spec fn view(&self) -> StepView {
        match self {
            AdminStep::CreateFamily(p) => StepView::CreateFamily(p@),
            AdminStep::DropFamily(n) => StepView::DropFamily(n@),
            AdminStep::RequireFamily(n) => StepView::RequireFamily(n@),
            AdminStep::Write(b) => StepView::Write(b@),
        }
    }
}

/// Steps as mathematical values.
pub open spec fn steps_view(v: Seq<AdminStep>) -> Seq<StepView> {
    v.map_values(|s: AdminStep| s@)
}

/// The steps that keep a tenant's policy.
pub open spec fn store_policy_steps(tenant: Seq<char>, p: PolicyView) -> Seq<StepView> {
    seq![
        StepView::RequireFamily(tenant::system_name()),
        StepView::Write(
            BatchView {
                ops: seq![
                    OpView::Put {
                        cf: tenant::system_name(),
                        key: meta_key(tenant),
                        value: policy::policy_code(p),
                    },
                ],
                sync: true,
            },
        ),
    ]
}

/// The steps that create a tenant: its families, and then its policy.
pub open spec fn provision_steps(tenant: Seq<char>, p: PolicyView, reg: RegistryView) -> Seq<
    StepView,
> {
    let fs = tenant_families(
        tenant,
        p.retention,
        reg.write_buffer_bytes,
        reg.max_write_buffers,
        reg.block_cache_bytes,
    );
    seq![
        StepView::CreateFamily(fs[0]),
        StepView::CreateFamily(fs[1]),
        StepView::CreateFamily(fs[2]),
    ] + store_policy_steps(tenant, p)
}

/// The steps that remove a tenant: its families, and then its policy.
pub open spec fn drop_steps(tenant: Seq<char>) -> Seq<StepView> {
    seq![
        StepView::DropFamily(tenant::pending_name(tenant)),
        StepView::DropFamily(tenant::inflight_name(tenant)),
        StepView::DropFamily(tenant::dlq_name(tenant)),
        StepView::RequireFamily(tenant::system_name()),
        StepView::Write(
            BatchView {
                ops: seq![OpView::Delete { cf: tenant::system_name(), key: meta_key(tenant) }],
                sync: true,
            },
        ),
    ]
}

impl TenantRegistry {
    /// Whether a store with such families holds tenants that are to be read
    /// before it is opened; the families of a store that is not there yet
    /// cannot be listed.
    pub fn holds_tenants(listing: &Option<Vec<String>>) -> (r: bool)
        ensures
            match *listing {
                None => !r,
                Some(names) => r == enqueue::texts(names@).contains(tenant::system_name()),
            },
    {
        match listing {
            None => false,
            Some(names) => {
                let mut i: usize = 0;
                while i < names.len()
                    invariant
                        0 <= i <= names@.len(),
                        *listing == Some(*names),
                        forall|j: int|
                            0 <= j < i ==> #[trigger] enqueue::texts(names@)[j]
                                != tenant::system_name(),
                    decreases names@.len() - i,
                {
                    if text::same_text(names[i].as_str(), cf_system()) {
                        assert(enqueue::texts(names@)[i as int] == tenant::system_name());
                        return true;
                    }
                    i = i + 1;
                }
                false
            },
        }
    }

    /// The tenants kept in the system's family, on what was read from the
    /// first policy key on; records behind the policies are not looked at.
    pub fn load_persisted_tenants(scan: &Scan) -> (r: Result<
        Vec<(String, NamespacePolicy)>,
        QueueError,
    >)
        ensures
            match r {
                Ok(ts) => loaded(scan@) == Ok::<Seq<TenantView>, Fault>(tenants_view(ts@)),
                Err(e) => loaded(scan@) == Err::<Seq<TenantView>, Fault>(e@),
            },
    {
        let prefix: &[u8] = "tenant:".as_bytes();
        let ghost rs = scan@.records;
        let ghost n = reaper::leading(meta_prefix(), rs);
        let ghost led = rs.take(n as int);
        proof {
            reaper::lemma_leading_all(meta_prefix(), rs);
        }
        let mut tenants: Vec<(String, NamespacePolicy)> = Vec::new();
        let mut i: usize = 0;
        let mut stopped = false;
        assert(tenants_view(tenants@) =~= led.take(0).map_values(|r: RecordView| tenant_of(r)));
        while i < scan.records.len() && !stopped
            invariant
                0 <= i <= scan.records@.len(),
                rs == scan@.records,
                n == reaper::leading(meta_prefix(), rs),
                n <= rs.len(),
                led == rs.take(n as int),
                prefix@ == meta_prefix(),
                i <= n,
                forall|j: int| 0 <= j < n ==> meta_prefix().is_prefix_of((#[trigger] rs[j]).key),
                n < rs.len() ==> !meta_prefix().is_prefix_of(rs[n as int].key),
                forall|j: int|
                    0 <= j < i ==> policy::read_policy((#[trigger] led[j]).value) is Some,
                stopped ==> i == n && n < rs.len(),
                tenants_view(tenants@) == led.take(i as int).map_values(
                    |r: RecordView| tenant_of(r),
                ),
            decreases scan.records@.len() - i + (if stopped { 0int } else { 1 }),
        {
            let record = &scan.records[i];
            let ghost r = rs[i as int];
            assert(record@ == r);
            if !text::begins_with(record.key.as_slice(), prefix) {
                stopped = true;
            } else {
                assert(i < n);
                assert(led[i as int] == r);
                let tail = slice_subrange(record.key.as_slice(), prefix.len(), record.key.len());
                assert(tail@ =~= r.key.skip(meta_prefix().len() as int));
                let name = text::text_of_bytes(tail);
                let policy = match NamespacePolicy::deserialize(record.value.as_slice()) {
                    Ok(p) => p,
                    Err(e) => {
                        proof {
                            lemma_leading_policies(led, i as int);
                            assert(led.skip(i as int)[0] == r);
                        }
                        return Err(e);
                    },
                };
                let ghost before = tenants_view(tenants@);
                tenants.push((name, policy));
                assert(tenants_view(tenants@) =~= before.push((name@, policy@)));
                assert(led.take(i + 1).map_values(|r: RecordView| tenant_of(r)) =~= before.push(
                    tenant_of(r),
                ));
                i = i + 1;
            }
        }
        proof {
            assert(i == n) by {
                if i < n {
                    assert(meta_prefix().is_prefix_of(rs[i as int].key));
                }
            }
            lemma_leading_policies(led, i as int);
            assert(led.skip(i as int).len() == 0);
            assert(led.take(i as int) =~= led);
        }
        if !stopped {
            if let Some(reason) = &scan.failure {
                return Err(QueueError::RocksDB(reason.clone()));
            }
        }
        Ok(tenants)
    }

    /// Opens the registry of a store that holds such tenants: how the store is
    /// to be opened, and the registry. The first task gets the time as its
    /// number.
    pub fn open(cfg: &DbConfig, existing: Vec<(String, NamespacePolicy)>, now: u64) -> (r: (
        TenantRegistry,
        OpenPlan,
    ))
        ensures
            r.0.wf(),
            r.0@ == (RegistryView {
                seq: now,
                policies: policies_of(tenants_view(existing@)),
                counters: crate::compaction::no_counts(),
                write_buffer_bytes: cfg.write_buffer_bytes,
                max_write_buffers: cfg.max_write_buffers,
                block_cache_bytes: cfg.block_cache_bytes,
            }),
            plans_view(r.1.families@) == open_families(
                tenants_view(existing@),
                cfg.write_buffer_bytes,
                cfg.max_write_buffers,
                cfg.block_cache_bytes,
            ),
            exists|cpus: usize| cpus >= 1 && #[trigger] is_db_options(r.1.db, cfg.wal_path@, cpus),
    {
        let mut registry = TenantRegistry::empty(
            now,
            cfg.write_buffer_bytes,
            cfg.max_write_buffers,
            cfg.block_cache_bytes,
        );
        let mut families: Vec<FamilyPlan> = Vec::new();
        families.push(FamilyPlan { name: cf_system().to_owned(), options: system_cf_opts() });
        let ghost ts = tenants_view(existing@);
        let mut i: usize = 0;
        assert(ts.take(0) =~= Seq::<TenantView>::empty());
        assert(plans_view(families@) =~= open_families(
            ts.take(0),
            cfg.write_buffer_bytes,
            cfg.max_write_buffers,
            cfg.block_cache_bytes,
        ));
        while i < existing.len()
            invariant
                0 <= i <= existing@.len(),
                ts == tenants_view(existing@),
                registry.wf(),
                registry@ == (RegistryView {
                    seq: now,
                    policies: policies_of(ts.take(i as int)),
                    counters: crate::compaction::no_counts(),
                    write_buffer_bytes: cfg.write_buffer_bytes,
                    max_write_buffers: cfg.max_write_buffers,
                    block_cache_bytes: cfg.block_cache_bytes,
                }),
                plans_view(families@) == open_families(
                    ts.take(i as int),
                    cfg.write_buffer_bytes,
                    cfg.max_write_buffers,
                    cfg.block_cache_bytes,
                ),
            decreases existing@.len() - i,
        {
            let (name, policy) = &existing[i];
            assert(ts[i as int] == (name@, policy@));
            assert(ts.take(i + 1).drop_last() =~= ts.take(i as int));
            assert(ts.take(i + 1).last() == ts[i as int]);
            push_tenant_families(
                &mut families,
                name.as_str(),
                &policy.retention,
                cfg.write_buffer_bytes,
                cfg.max_write_buffers,
                cfg.block_cache_bytes,
            );
            registry.set_policy(name.as_str(), policy.clone());
            i = i + 1;
        }
        assert(ts.take(i as int) =~= ts);
        let cpus: usize = cpu_count();
        let plan = OpenPlan { db: db_options(cfg, cpus), families };
        assert(is_db_options(plan.db, cfg.wal_path@, cpus));
        (registry, plan)
    }

    /// The steps that create a tenant with a policy. Once they are done, the
    /// policy is known through `policy_stored`.
    pub fn provision_tenant(&self, tenant: &str, policy: &NamespacePolicy) -> (r: Result<
        Vec<AdminStep>,
        QueueError,
    >)
        ensures
            r is Ok,
            steps_view(r->Ok_0@) == provision_steps(tenant@, policy@, self@),
    {
        let (write_buffer_bytes, max_write_buffers, block_cache_bytes) = self.sizes();
        let mut families: Vec<FamilyPlan> = Vec::new();
        push_tenant_families(
            &mut families,
            tenant,
            &policy.retention,
            write_buffer_bytes,
            max_write_buffers,
            block_cache_bytes,
        );
        let ghost fs = plans_view(families@);
        assert(fs =~= tenant_families(
            tenant@,
            policy@.retention,
            write_buffer_bytes,
            max_write_buffers,
            block_cache_bytes,
        ));
        let mut steps: Vec<AdminStep> = Vec::new();
        assert(fs.len() == 3);
        let mut families = families;
        let pending = families.remove(0);
        let inflight = families.remove(0);
        let dlq = families.remove(0);
        assert(pending@ == fs[0] && inflight@ == fs[1] && dlq@ == fs[2]);
        steps.push(AdminStep::CreateFamily(pending));
        steps.push(AdminStep::CreateFamily(inflight));
        steps.push(AdminStep::CreateFamily(dlq));
        match push_policy_steps(&mut steps, tenant, policy) {
            Ok(_) => {},
            Err(e) => return Err(e),
        }
        assert(steps_view(steps@) =~= provision_steps(tenant@, policy@, self@));
        Ok(steps)
    }

    /// The steps that remove a tenant. Once they are done, the tenant is
    /// forgotten through `tenant_dropped`.
    pub fn drop_tenant(tenant: &str) -> (r: Vec<AdminStep>)
        ensures
            steps_view(r@) == drop_steps(tenant@),
    {
        let mut batch = Batch::admin();
        batch.delete(cf_system(), tenant_meta_key(tenant).as_slice());
        let ghost b = batch@;
        assert(b.ops =~= seq![
            OpView::Delete { cf: tenant::system_name(), key: meta_key(tenant@) },
        ]);
        let mut steps: Vec<AdminStep> = Vec::new();
        steps.push(AdminStep::DropFamily(cf_pending(tenant)));
        steps.push(AdminStep::DropFamily(cf_inflight(tenant)));
        steps.push(AdminStep::DropFamily(cf_dlq(tenant)));
        steps.push(AdminStep::RequireFamily(cf_system().to_owned()));
        steps.push(AdminStep::Write(batch));
        assert(steps_view(steps@) =~= drop_steps(tenant@));
        steps
    }

    /// The steps that give an existing tenant another policy. Once they are
    /// done, the policy is known through `policy_stored`.
    pub fn update_namespace_policy(&self, tenant: &str, policy: &NamespacePolicy) -> (r: Result<
        Vec<AdminStep>,
        QueueError,
    >)
        requires
            self.wf(),
        ensures
            match r {
                Ok(steps) => self@.policies.contains_key(tenant@) && steps_view(steps@)
                    == store_policy_steps(tenant@, policy@),
                Err(e) => !self@.policies.contains_key(tenant@) && e@ == Fault::QueueNotFound(
                    "tenant not found: "@ + tenant@,
                ),
            },
    {
        if !self.knows(tenant) {
            return Err(QueueError::QueueNotFound(text::join("tenant not found: ", tenant)));
        }
        let mut steps: Vec<AdminStep> = Vec::new();
        match push_policy_steps(&mut steps, tenant, policy) {
            Ok(_) => {},
            Err(e) => return Err(e),
        }
        assert(steps_view(steps@) =~= store_policy_steps(tenant@, policy@));
        Ok(steps)
    }

    /// A tenant's policy was kept: it counts from now on.
    pub fn policy_stored(&mut self, tenant: &str, policy: NamespacePolicy)
        requires
            old(self).wf(),
        ensures
            final(self).wf(),
            final(self)@ == (RegistryView {
                policies: old(self)@.policies.insert(tenant@, policy@),
                ..old(self)@
            }),
    {
        self.set_policy(tenant, policy);
    }

    /// A tenant was removed: it is not known any more.
    pub fn tenant_dropped(&mut self, tenant: &str)
        requires
            old(self).wf(),
        ensures
            final(self).wf(),
            final(self)@ == (RegistryView {
                policies: old(self)@.policies.remove(tenant@),
                ..old(self)@
            }),
    {
        self.clear_policy(tenant);
    }
}

/// Adds the steps that keep a tenant's policy.
fn push_policy_steps(steps: &mut Vec<AdminStep>, tenant: &str, policy: &NamespacePolicy) -> (r:
    Result<(), QueueError>)
    ensures
        r is Ok,
        steps_view(final(steps)@) == steps_view(old(steps)@) + store_policy_steps(
            tenant@,
            policy@,
        ),
{
    let value = match policy.serialize() {
        Ok(v) => v,
        Err(e) => return Err(e),
    };
    let mut batch = Batch::admin();
    batch.put(cf_system(), tenant_meta_key(tenant).as_slice(), value);
    assert(batch@.ops =~= seq![
        OpView::Put {
            cf: tenant::system_name(),
            key: meta_key(tenant@),
            value: policy::policy_code(policy@),
        },
    ]);
    steps.push(AdminStep::RequireFamily(cf_system().to_owned()));
    steps.push(AdminStep::Write(batch));
    assert(steps_view(steps@) =~= steps_view(old(steps)@) + store_policy_steps(tenant@, policy@));
    Ok(())
}

/// How files are compressed: the first two levels not at all, from the third to the
/// fifth fast, from the sixth on well.
pub proof fn law_compression_by_level(level: int)
    ensures
        level_compression(level) == Compression::Off <==> level <= 1,
        level_compression(level) == Compression::Lz4 <==> 2 <= level <= 4,
        level_compression(level) == Compression::Zstd <==> level >= 5,
{
}

/// A tenant's three families: the tasks that wait, the leased ones and the dead letters,
/// each with the filter of its own retention time, and all within the same sizes.
pub proof fn law_families_of_a_tenant(
    tenant: Seq<char>,
    retention: RetentionPolicy,
    write_buffer_bytes: usize,
    max_write_buffers: i32,
    block_cache_bytes: u64,
)
    ensures
        ({
            let fs = tenant_families(
                tenant,
                retention,
                write_buffer_bytes,
                max_write_buffers,
                block_cache_bytes,
            );
            &&& fs.len() == 3
            &&& fs[0].name == tenant + "__pending"@
            &&& fs[1].name == tenant + "__inflight"@
            &&& fs[2].name == tenant + "__dlq"@
            &&& fs[0].options->filter == (CompactionFilter::Pending {
                retention_secs: retention.pending_retention_secs,
            })
            &&& fs[1].options->filter == (CompactionFilter::Inflight {
                stale_after_secs: retention.inflight_stale_secs,
            })
            &&& fs[2].options->filter == (CompactionFilter::Dlq {
                retention_secs: retention.dlq_retention_secs,
            })
            &&& forall|i: int|
                #![trigger fs[i]]
                0 <= i < 3 ==> {
                    let o = fs[i].options;
                    &&& o is Queue
                    &&& o->Queue_write_buffer_size == write_buffer_bytes
                    &&& o->max_write_buffer_number == max_write_buffers
                    &&& o->shared_block_cache_bytes == block_cache_bytes
                    &&& o->min_write_buffer_number_to_merge == 2
                    &&& o->level_zero_file_num_compaction_trigger == 4
                    &&& o->level_zero_slowdown_writes_trigger == 12
                    &&& o->level_zero_stop_writes_trigger == 20
                    &&& o->target_file_size_base == 64 * 1024 * 1024
                    &&& o->max_bytes_for_level_base == 512 * 1024 * 1024
                }
        }),
{
}

/// The families of a store: the system's alone where there is no tenant, and three more
/// behind the others for each tenant.
pub proof fn law_families_of_a_store(
    tenants: Seq<TenantView>,
    t: TenantView,
    write_buffer_bytes: usize,
    max_write_buffers: i32,
    block_cache_bytes: u64,
)
    ensures
        open_families(
            tenants.push(t),
            write_buffer_bytes,
            max_write_buffers,
            block_cache_bytes,
        ) == open_families(tenants, write_buffer_bytes, max_write_buffers, block_cache_bytes)
            + tenant_families(
            t.0,
            t.1.retention,
            write_buffer_bytes,
            max_write_buffers,
            block_cache_bytes,
        ),
        ({
            let none = open_families(
                Seq::empty(),
                write_buffer_bytes,
                max_write_buffers,
                block_cache_bytes,
            );
            none.len() == 1 && none[0].name == "__system__"@ && none[0].options
                == (FamilyOptions::System { write_buffer_size: 16_777_216 })
        }),
{
    assert(tenants.push(t).drop_last() =~= tenants);
}

/// The policies of a list of tenants: nobody has one where there is no tenant, and one
/// more tenant has its own from there on.
pub proof fn law_last_policy_counts(tenants: Seq<TenantView>, t: TenantView, name: Seq<char>)
    ensures
        !policies_of(Seq::empty()).contains_key(name),
        policies_of(tenants.push(t)).contains_key(t.0) && policies_of(tenants.push(t))[t.0] == t.1,
        name != t.0 ==> (policies_of(tenants.push(t)).contains_key(name) <==> policies_of(
            tenants,
        ).contains_key(name)) && policies_of(tenants.push(t))[name] == policies_of(tenants)[name],
{
    assert(tenants.push(t).drop_last() =~= tenants);
}

/// A policy is kept under the tenant's name behind its label.
pub proof fn law_policy_key(tenant: Seq<char>)
    ensures
        meta_key(tenant) == encode_utf8("tenant:"@ + tenant),
{
    text::lemma_encode_concat("tenant:"@, tenant);
}

/// What is loaded where `n` records at the front have the label: each is a tenant under
/// the rest of its key. One that holds no policy fails the load, and so does a store
/// that fails before another label is met.
pub proof fn law_tenants_loaded(scan: ScanView, n: int)
    requires
        0 <= n <= scan.records.len(),
        forall|i: int|
            0 <= i < n ==> encode_utf8("tenant:"@).is_prefix_of((#[trigger] scan.records[i]).key),
        n < scan.records.len() ==> !encode_utf8("tenant:"@).is_prefix_of(scan.records[n].key),
    ensures
        ({
            let rs = scan.records;
            let all = forall|i: int|
                0 <= i < n ==> policy::read_policy((#[trigger] rs[i]).value) is Some;
            &&& !all ==> loaded(scan) == Err::<Seq<TenantView>, Fault>(Fault::Serialization)
            &&& all && n == rs.len() && scan.failure is Some ==> loaded(scan) == Err::<
                Seq<TenantView>,
                Fault,
            >(Fault::Store(scan.failure->0))
            &&& all && (n < rs.len() || scan.failure is None) ==> (loaded(scan) matches Ok(ts)
                && ts.len() == n && forall|i: int|
                #![trigger ts[i]]
                0 <= i < n ==> ts[i].0 == text::text_from(rs[i].key.skip(7)) && Some(ts[i].1)
                    == policy::read_policy(rs[i].value))
        }),
{
    let rs = scan.records;
    let led = rs.take(n);
    reveal_strlit("tenant:");
    is_ascii_chars_encode_utf8("tenant:"@);
    reaper::lemma_leading(encode_utf8("tenant:"@), rs, n);
    if n < rs.len() {
        assert(rs.skip(n)[0] == rs[n]);
    } else {
        assert(rs.skip(n).len() == 0);
    }
    assert(reaper::leading(meta_prefix(), rs) == n);
    let all = forall|i: int| 0 <= i < n ==> policy::read_policy((#[trigger] rs[i]).value) is Some;
    if all {
        lemma_leading_policies(led, n);
        assert(led.skip(n).len() == 0);
    } else {
        let bad = choose|i: int| 0 <= i < n && policy::read_policy((#[trigger] rs[i]).value) is None;
        assert(led[bad].value == rs[bad].value);
        lemma_policies_end(led, bad);
    }
}

/// Records that hold a policy do not go on past one that holds none.
proof fn lemma_policies_end(rs: Seq<RecordView>, i: int)
    requires
        0 <= i < rs.len(),
        policy::read_policy(rs[i].value) is None,
    ensures
        leading_policies(rs) <= i,
    decreases rs.len(),
{
    if i > 0 && policy::read_policy(rs[0].value) is Some {
        assert(rs.drop_first()[i - 1] == rs[i]);
        lemma_policies_end(rs.drop_first(), i - 1);
    }
}

/// Keeping a policy is one write to the system's family that waits for the disk.
pub proof fn law_policy_written(tenant: Seq<char>, p: PolicyView)
    ensures
        ({
            let steps = store_policy_steps(tenant, p);
            &&& steps.len() == 2
            &&& steps[0] == StepView::RequireFamily("__system__"@)
            &&& steps[1] matches StepView::Write(b) && b.sync && b.ops.len() == 1 && (
            b.ops[0] matches OpView::Put { cf, key, value } && cf == "__system__"@ && key
                == encode_utf8("tenant:"@ + tenant) && value == policy::policy_code(p))
        }),
{
    law_policy_key(tenant);
}

/// A tenant is created family by family, and its policy is kept last.
pub proof fn law_provisioned_in_order(tenant: Seq<char>, p: PolicyView, reg: RegistryView)
    ensures
        ({
            let steps = provision_steps(tenant, p, reg);
            let fs = tenant_families(
                tenant,
                p.retention,
                reg.write_buffer_bytes,
                reg.max_write_buffers,
                reg.block_cache_bytes,
            );
            &&& steps.len() == 5
            &&& forall|i: int| 0 <= i < 3 ==> #[trigger] steps[i] == StepView::CreateFamily(fs[i])
            &&& steps.skip(3) == store_policy_steps(tenant, p)
        }),
{
    assert(provision_steps(tenant, p, reg).skip(3) =~= store_policy_steps(tenant, p));
}

/// A tenant is removed family by family, and its policy goes last, by one write that
/// waits for the disk.
pub proof fn law_dropped_in_order(tenant: Seq<char>)
    ensures
        ({
            let steps = drop_steps(tenant);
            &&& steps.len() == 5
            &&& steps[0] == StepView::DropFamily(tenant + "__pending"@)
            &&& steps[1] == StepView::DropFamily(tenant + "__inflight"@)
            &&& steps[2] == StepView::DropFamily(tenant + "__dlq"@)
            &&& steps[3] == StepView::RequireFamily("__system__"@)
            &&& steps[4] matches StepView::Write(b) && b.sync && b.ops.len() == 1 && (
            b.ops[0] matches OpView::Delete { cf, key } && cf == "__system__"@ && key
                == encode_utf8("tenant:"@ + tenant))
        }),
{
    law_policy_key(tenant);
}

/// The store is created where it is missing, is synced in portions of half a mebibyte
/// and of one, forgives a damaged end of its log, and has a background job for each
/// processor, but no more than eight.
pub proof fn law_store_options(o: DbOptions, wal_path: Seq<char>, cpus: usize)
    requires
        is_db_options(o, wal_path, cpus),
    ensures
        o.create_if_missing && o.create_missing_column_families,
        o.wal_dir@ == wal_path,
        o.wal_bytes_per_sync == 524_288 && o.bytes_per_sync == 1_048_576,
        o.allow_concurrent_memtable_write && o.enable_write_thread_adaptive_yield,
        o.tolerate_corrupted_tail,
        o.max_background_jobs <= 8,
        cpus <= 8 ==> o.max_background_jobs == cpus,
        cpus > 8 ==> o.max_background_jobs == 8,
        cpus <= i32::MAX ==> o.parallelism == cpus,
{
}

} // verus!
