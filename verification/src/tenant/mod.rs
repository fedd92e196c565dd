//! The registry of tenants and the life of a task in a tenant's queues.
//!
//! A tenant owns three column families: tasks that wait, tasks that are leased
//! to a worker, and dead letters. One further family holds the system's own
//! records.

use vstd::prelude::*;
use vstd::slice::*;
use vstd::utf8::*;

use crate::compaction;
use crate::compaction::{CompactionCounters, CompactionFilter, Decision};
use crate::error::QueueError;
use crate::policy::{NamespacePolicy, PolicyView};
use crate::task;
use crate::task::{key_name_len, Task, TaskView};
use crate::tenant_map::TenantMap;
use crate::text;

pub mod admin;
pub mod admission;
pub mod checkpoint;
pub mod delivery;
pub mod dequeue;
pub mod dlq;
pub mod enqueue;
pub mod isolation;
pub mod outcome;
pub mod quota;
pub mod recovery;
pub mod settle;

verus! {

/// Where the store lives and how much memory it may use.
#[derive(Debug)]
pub struct DbConfig {
    pub sst_path: String,
    pub wal_path: String,
    pub block_cache_bytes: u64,
    pub write_buffer_bytes: usize,
    pub max_write_buffers: i32,
}

impl DbConfig {
    /// The configuration of a developer's machine.
    pub fn local() -> (r: Self)
        ensures
            r.sst_path@ == "./data/rocksqueue"@,
            r.wal_path@ == "./data/rocksqueue-wal"@,
            r.block_cache_bytes == 256 * 1024 * 1024,
            r.write_buffer_bytes == 64 * 1024 * 1024,
            r.max_write_buffers == 4,
    {
        DbConfig {
            sst_path: "./data/rocksqueue".to_owned(),
            wal_path: "./data/rocksqueue-wal".to_owned(),
            block_cache_bytes: 256 * 1024 * 1024,
            write_buffer_bytes: 64 * 1024 * 1024,
            max_write_buffers: 4,
        }
    }

    /// The configuration of a server.
    pub fn production() -> (r: Self)
        ensures
            r.sst_path@ == "/data/rocksqueue"@,
            r.wal_path@ == "/wal/rocksqueue-wal"@,
            r.block_cache_bytes == 4 * 1024 * 1024 * 1024,
            r.write_buffer_bytes == 64 * 1024 * 1024,
            r.max_write_buffers == 4,
    {
        DbConfig {
            sst_path: "/data/rocksqueue".to_owned(),
            wal_path: "/wal/rocksqueue-wal".to_owned(),
            block_cache_bytes: 4 * 1024 * 1024 * 1024,
            write_buffer_bytes: 64 * 1024 * 1024,
            max_write_buffers: 4,
        }
    }
}

/// The name of the family of the system's own records.
pub open spec fn system_name() -> Seq<char> {
    "__system__"@
}

/// The name of a tenant's family of waiting tasks.
pub open spec fn pending_name(tenant: Seq<char>) -> Seq<char> {
    tenant + "__pending"@
}

/// The name of a tenant's family of leased tasks.
pub open spec fn inflight_name(tenant: Seq<char>) -> Seq<char> {
    tenant + "__inflight"@
}

/// The name of a tenant's family of dead letters.
pub open spec fn dlq_name(tenant: Seq<char>) -> Seq<char> {
    tenant + "__dlq"@
}

/// The name of the family of the system's own records.
pub fn cf_system() -> (r: &'static str)
    ensures
        r@ == system_name(),
{
    "__system__"
}

/// The name of a tenant's family of waiting tasks.
pub fn cf_pending(tenant: &str) -> (r: String)
    ensures
        r@ == pending_name(tenant@),
{
    text::join(tenant, "__pending")
}

/// The name of a tenant's family of leased tasks.
pub fn cf_inflight(tenant: &str) -> (r: String)
    ensures
        r@ == inflight_name(tenant@),
{
    text::join(tenant, "__inflight")
}

/// The name of a tenant's family of dead letters.
pub fn cf_dlq(tenant: &str) -> (r: String)
    ensures
        r@ == dlq_name(tenant@),
{
    text::join(tenant, "__dlq")
}

/// How long a dequeued task stays leased where nothing else is said.
pub const DEFAULT_VISIBILITY_TIMEOUT_MS: u64 = 60_000;

/// Which of a tenant's families the store has.
#[derive(Debug, Clone, Copy, PartialEq, Eq, Structural)]
pub struct Families {
    pub pending: bool,
    pub inflight: bool,
    pub dlq: bool,
}

impl Families {
    /// The name of the family of waiting tasks, which must be there.
    pub fn pending_cf(&self, tenant: &str) -> (r: Result<String, QueueError>)
        ensures
            match r {
                Ok(name) => self.pending && name@ == pending_name(tenant@),
                Err(QueueError::ColumnFamilyMissing(name)) => !self.pending && name@
                    == pending_name(tenant@),
                Err(_) => false,
            },
    {
        let name = cf_pending(tenant);
        if self.pending {
            Ok(name)
        } else {
            Err(QueueError::ColumnFamilyMissing(name))
        }
    }

    /// The name of the family of leased tasks, which must be there.
    pub fn inflight_cf(&self, tenant: &str) -> (r: Result<String, QueueError>)
        ensures
            match r {
                Ok(name) => self.inflight && name@ == inflight_name(tenant@),
                Err(QueueError::ColumnFamilyMissing(name)) => !self.inflight && name@
                    == inflight_name(tenant@),
                Err(_) => false,
            },
    {
        let name = cf_inflight(tenant);
        if self.inflight {
            Ok(name)
        } else {
            Err(QueueError::ColumnFamilyMissing(name))
        }
    }

    /// The name of the family of dead letters, which must be there.
    pub fn dlq_cf(&self, tenant: &str) -> (r: Result<String, QueueError>)
        ensures
            match r {
                Ok(name) => self.dlq && name@ == dlq_name(tenant@),
                Err(QueueError::ColumnFamilyMissing(name)) => !self.dlq && name@ == dlq_name(
                    tenant@,
                ),
                Err(_) => false,
            },
    {
        let name = cf_dlq(tenant);
        if self.dlq {
            Ok(name)
        } else {
            Err(QueueError::ColumnFamilyMissing(name))
        }
    }
}

/// The part of a key by which the store groups keys.
pub open spec fn key_group(key: Seq<u8>) -> Seq<u8> {
    if task::name_len(key) < key.len() {
        key.take(task::name_len(key) as int + 1)
    } else {
        key
    }
}

/// A task with the key under which it is leased.
pub type Leased = (Vec<u8>, Task);

/// A leased task as a mathematical value.
pub type LeasedView = (Seq<u8>, TaskView);

/// Leased tasks as mathematical values.
pub open spec fn leased_view(tasks: Seq<Leased>) -> Seq<LeasedView> {
    tasks.map_values(|t: Leased| (t.0@, t.1@))
}

/// The state shared by all tenants: the number of the next task, the policies
/// and the counters of compaction, and how large buffers may be.
pub struct TenantRegistry {
    seq: u64,
    policies: TenantMap<NamespacePolicy>,
    counters: CompactionCounters,
    write_buffer_bytes: usize,
    max_write_buffers: i32,
    block_cache_bytes: u64,
}

/// The registry as a mathematical value.
#[verifier::ext_equal]
pub struct RegistryView {
    pub seq: u64,
    pub policies: Map<Seq<char>, PolicyView>,
    pub counters: CompactionCounters,
    pub write_buffer_bytes: usize,
    pub max_write_buffers: i32,
    pub block_cache_bytes: u64,
}

/// Policies as mathematical values.
pub open spec fn policies_view(m: Map<Seq<char>, NamespacePolicy>) -> Map<Seq<char>, PolicyView> {
    m.map_values(|p: NamespacePolicy| p@)
}

impl View for TenantRegistry {
    type V = RegistryView;

    closed spec fn view(&self) -> RegistryView {
        RegistryView {
            seq: self.seq,
            policies: policies_view(self.policies@),
            counters: self.counters,
            write_buffer_bytes: self.write_buffer_bytes,
            max_write_buffers: self.max_write_buffers,
            block_cache_bytes: self.block_cache_bytes,
        }
    }
}

impl TenantRegistry {
    /// The map of policies is in order.
    pub closed spec fn wf(&self) -> bool {
        self.policies.wf()
    }

    /// A registry without tenants whose first task gets the number `first`.
    pub(crate) fn empty(
        first: u64,
        write_buffer_bytes: usize,
        max_write_buffers: i32,
        block_cache_bytes: u64,
    ) -> (r: TenantRegistry)
        ensures
            r.wf(),
            r@ == (RegistryView {
                seq: first,
                policies: Map::empty(),
                counters: compaction::no_counts(),
                write_buffer_bytes,
                max_write_buffers,
                block_cache_bytes,
            }),
    {
        let r = TenantRegistry {
            seq: first,
            policies: TenantMap::new(),
            counters: CompactionCounters::new(),
            write_buffer_bytes,
            max_write_buffers,
            block_cache_bytes,
        };
        assert(r@.policies =~= Map::<Seq<char>, PolicyView>::empty());
        r
    }

    /// The number of the next task; the one after it wraps around.
    pub fn next_seq(&mut self) -> (r: u64)
        ensures
            r == old(self)@.seq,
            final(self)@ == (RegistryView { seq: old(self)@.seq.wrapping_add(1), ..old(self)@ }),
            old(self).wf() ==> final(self).wf(),
    {
        let r: u64 = self.seq;
        self.seq = self.seq.wrapping_add(1);
        r
    }

    /// The tenants, each once, in no particular order.
    pub fn list_tenants(&self) -> (r: Vec<String>)
        requires
            self.wf(),
        ensures
            r@.map_values(|s: String| s@).no_duplicates(),
            forall|t: Seq<char>| #[trigger]
                self@.policies.contains_key(t) <==> r@.map_values(|s: String| s@).contains(t),
    {
        proof {
            self.policies.lemma_order();
            assert forall|t: Seq<char>| #[trigger]
                self@.policies.contains_key(t) <==> self.policies@.contains_key(t) by {}
        }
        self.policies.names()
    }

    /// The policy of a tenant.
    pub fn get_policy(&self, tenant: &str) -> (r: Option<NamespacePolicy>)
        requires
            self.wf(),
        ensures
            r is Some <==> self@.policies.contains_key(tenant@),
            r matches Some(p) ==> p@ == self@.policies[tenant@],
    {
        match self.policies.get(tenant) {
            None => None,
            Some(p) => Some(p.clone()),
        }
    }

    /// Whether there is such a tenant.
    pub(crate) fn knows(&self, tenant: &str) -> (r: bool)
        requires
            self.wf(),
        ensures
            r == self@.policies.contains_key(tenant@),
    {
        self.policies.contains_key(tenant)
    }

    /// Gives a tenant a policy.
    pub(crate) fn set_policy(&mut self, tenant: &str, policy: NamespacePolicy)
        requires
            old(self).wf(),
        ensures
            final(self).wf(),
            final(self)@ == (RegistryView {
                policies: old(self)@.policies.insert(tenant@, policy@),
                ..old(self)@
            }),
    {
        self.policies.insert(tenant, policy);
        assert(self@.policies =~= old(self)@.policies.insert(tenant@, policy@));
    }

    /// Forgets a tenant.
    pub(crate) fn clear_policy(&mut self, tenant: &str)
        requires
            old(self).wf(),
        ensures
            final(self).wf(),
            final(self)@ == (RegistryView {
                policies: old(self)@.policies.remove(tenant@),
                ..old(self)@
            }),
    {
        self.policies.remove(tenant);
        assert(self@.policies =~= old(self)@.policies.remove(tenant@));
    }

    /// The counters of compaction.
    pub fn compaction_counters(&self) -> (r: &CompactionCounters)
        ensures
            *r == self@.counters,
    {
        &self.counters
    }

    /// Decides about an entry that compaction meets, and counts the decision.
    pub fn filter_entry(&mut self, filter: &CompactionFilter, value: &[u8], now: u64) -> (r:
        Decision)
        requires
            compaction::limit_ms(*filter) <= u64::MAX,
        ensures
            old(self).wf() ==> final(self).wf(),
            r == (if compaction::drops(*filter, value@, now) {
                Decision::Remove
            } else {
                Decision::Keep
            }),
            final(self)@ == (RegistryView {
                counters: compaction::counted(
                    old(self)@.counters,
                    *filter,
                    compaction::drops(*filter, value@, now),
                ),
                ..old(self)@
            }),
    {
        let mut counters = self.counters;
        let r = filter.decide(value, now, &mut counters);
        self.counters = counters;
        r
    }

    /// The part of a key by which the store groups keys: the queue's name with
    /// the zero byte behind it, or the whole key where there is none.
    pub fn queue_prefix_transform(key: &[u8]) -> (r: &[u8])
        ensures
            r@ == key_group(key@),
    {
        let n: usize = key_name_len(key);
        proof {
            task::lemma_name_len(key@);
        }
        if n < key.len() {
            let r = slice_subrange(key, 0, n + 1);
            assert(r@ =~= key@.take(n + 1));
            r
        } else {
            key
        }
    }

    /// Whether a key has a group of its own: it holds a zero byte.
    pub fn queue_prefix_in_domain(key: &[u8]) -> (r: bool)
        ensures
            r == key@.contains(0u8),
    {
        let n: usize = key_name_len(key);
        proof {
            task::lemma_name_len(key@);
        }
        assert(n < key@.len() ==> key@[n as int] == 0u8);
        n < key.len()
    }

    /// The name of the lock under which a queue's quota is checked and its
    /// tasks are added.
    pub fn queue_lock_name(tenant: &str, queue: &str) -> (r: String)
        ensures
            r@ == tenant@ + "/"@ + queue@,
    {
        let mut r = text::join(tenant, "/");
        r.append(queue);
        r
    }

    /// Whether a lock goes when the tenant goes.
    pub fn lock_goes_with(lock: &str, tenant: &str) -> (r: bool)
        ensures
            r == encode_utf8(tenant@ + "/"@).is_prefix_of(encode_utf8(lock@)),
    {
        let start = text::join(tenant, "/");
        text::begins_with(lock.as_bytes(), start.as_str().as_bytes())
    }

    /// How large the write buffers may be, how many there may be, and how
    /// large the block cache is that all families share.
    pub(crate) fn sizes(&self) -> (r: (usize, i32, u64))
        ensures
            r.0 == self@.write_buffer_bytes,
            r.1 == self@.max_write_buffers,
            r.2 == self@.block_cache_bytes,
    {
        (self.write_buffer_bytes, self.max_write_buffers, self.block_cache_bytes)
    }
}

/// A family is named by its tenant and by what it holds.
pub proof fn law_family_names(tenant: Seq<char>)
    ensures
        pending_name(tenant) == tenant + "__pending"@,
        inflight_name(tenant) == tenant + "__inflight"@,
        dlq_name(tenant) == tenant + "__dlq"@,
        system_name() == "__system__"@,
{
}

/// How keys are grouped: by everything up to and with the first zero byte; a key without
/// one is a group of its own.
pub proof fn law_keys_grouped(key: Seq<u8>, n: int)
    requires
        0 <= n <= key.len(),
        forall|i: int| 0 <= i < n ==> key[i] != 0,
        n < key.len() ==> key[n] == 0,
    ensures
        n < key.len() ==> key_group(key) == key.take(n + 1),
        n == key.len() ==> key_group(key) == key,
{
    task::lemma_name_len_is(key, n);
}

/// All keys of a queue are in one group, and no key of another queue is in it, where the
/// names hold no zero byte.
pub proof fn law_queue_is_a_group(queue: Seq<char>, seq: u64, other: Seq<char>, number: u64)
    requires
        !encode_utf8(queue).contains(0u8),
        !encode_utf8(other).contains(0u8),
    ensures
        key_group(task::key_code(queue, seq)) == encode_utf8(queue).push(0u8),
        key_group(task::key_code(queue, seq)) == key_group(task::key_code(other, number)) <==> queue
            == other,
{
    isolation::law_key_group(queue, seq);
    isolation::law_key_group(other, number);
    let a = encode_utf8(queue).push(0u8);
    let b = encode_utf8(other).push(0u8);
    if a == b {
        assert(a.drop_last() =~= encode_utf8(queue));
        assert(b.drop_last() =~= encode_utf8(other));
        text::lemma_encode_injective(queue, other);
    }
}

} // verus!
