//! What a tenant is allowed: weights, rates, backlog and retention.

use vstd::bytes::*;
use vstd::prelude::*;
use vstd::utf8::*;

use crate::codec;
use crate::codec::{Decoder, Encoder};
use crate::error::QueueError;

verus! {

/// What happens to tasks that would exceed the backlog quota.
#[derive(Debug, Clone, Copy, PartialEq, Eq, Structural)]
pub enum BacklogPolicy {
    /// They are refused at once.
    Reject,
    /// The producer waits for room, up to the timeout, and is then refused.
    Block { timeout_ms: u64 },
    /// The oldest pending tasks make room.
    EvictOldest,
}

/// How long stored tasks are kept.
#[derive(Debug, Clone, Copy, PartialEq, Eq, Structural)]
pub struct RetentionPolicy {
    /// 0 keeps pending tasks forever.
    pub pending_retention_secs: u64,
    pub dlq_retention_secs: u64,
    /// How far past its deadline an inflight task is given up.
    pub inflight_stale_secs: u64,
}

/// Pending tasks stay, dead letters stay a week, and an inflight task is
/// given up five minutes after its deadline.
pub open spec fn default_retention() -> RetentionPolicy {
    RetentionPolicy {
        pending_retention_secs: 0,
        dlq_retention_secs: 604_800,
        inflight_stale_secs: 300,
    }
}

impl Default for RetentionPolicy {
    fn default() -> (r: Self)
        ensures
            r == default_retention(),
    {
        RetentionPolicy {
            pending_retention_secs: 0,
            dlq_retention_secs: 7 * 24 * 3600,
            inflight_stale_secs: 300,
        }
    }
}

/// The policy of a tenant.
#[derive(Debug)]
pub struct NamespacePolicy {
    pub tenant_id: String,
    pub namespace: String,
    pub weight: u32,
    pub max_inflight: usize,
    pub burst_tokens: u32,
    pub rate_per_sec: u32,
    /// The most tasks, pending and inflight, that a queue may hold.
    pub backlog_quota: Option<usize>,
    pub backlog_policy: BacklogPolicy,
    pub retention: RetentionPolicy,
}

/// A policy as a mathematical value.
#[verifier::ext_equal]
pub struct PolicyView {
    pub tenant_id: Seq<char>,
    pub namespace: Seq<char>,
    pub weight: u32,
    pub max_inflight: usize,
    pub burst_tokens: u32,
    pub rate_per_sec: u32,
    pub backlog_quota: Option<usize>,
    pub backlog_policy: BacklogPolicy,
    pub retention: RetentionPolicy,
}

impl View for NamespacePolicy {
    type V = PolicyView;

    open spec fn view(&self) -> PolicyView {
        PolicyView {
            tenant_id: self.tenant_id@,
            namespace: self.namespace@,
            weight: self.weight,
            max_inflight: self.max_inflight,
            burst_tokens: self.burst_tokens,
            rate_per_sec: self.rate_per_sec,
            backlog_quota: self.backlog_quota,
            backlog_policy: self.backlog_policy,
            retention: self.retention,
        }
    }
}

impl Clone for NamespacePolicy {
    fn clone(&self) -> (r: Self)
        ensures
            r@ == self@,
    {
        NamespacePolicy {
            tenant_id: self.tenant_id.clone(),
            namespace: self.namespace.clone(),
            weight: self.weight,
            max_inflight: self.max_inflight,
            burst_tokens: self.burst_tokens,
            rate_per_sec: self.rate_per_sec,
            backlog_quota: self.backlog_quota,
            backlog_policy: self.backlog_policy,
            retention: self.retention,
        }
    }
}

/// The standard tier.
pub open spec fn standard_policy(tenant_id: Seq<char>) -> PolicyView {
    PolicyView {
        tenant_id,
        namespace: tenant_id,
        weight: 10,
        max_inflight: 500,
        burst_tokens: 100,
        rate_per_sec: 100,
        backlog_quota: Some(100_000),
        backlog_policy: BacklogPolicy::Reject,
        retention: default_retention(),
    }
}

/// The premium tier.
pub open spec fn premium_policy(tenant_id: Seq<char>) -> PolicyView {
    PolicyView {
        tenant_id,
        namespace: tenant_id,
        weight: 50,
        max_inflight: 5000,
        burst_tokens: 1000,
        rate_per_sec: 1000,
        backlog_quota: Some(1_000_000),
        backlog_policy: BacklogPolicy::Block { timeout_ms: 5000 },
        retention: default_retention(),
    }
}

/// The stored form of a backlog policy: its number, and the timeout of a wait.
pub open spec fn backlog_code(p: BacklogPolicy) -> Seq<u8> {
    match p {
        BacklogPolicy::Reject => spec_u32_to_le_bytes(0),
        BacklogPolicy::Block { timeout_ms } => spec_u32_to_le_bytes(1) + spec_u64_to_le_bytes(
            timeout_ms,
        ),
        BacklogPolicy::EvictOldest => spec_u32_to_le_bytes(2),
    }
}

/// Reads a backlog policy from the front.
pub open spec fn read_backlog(b: Seq<u8>) -> Option<(BacklogPolicy, Seq<u8>)> {
    match codec::read_u32(b) {
        None => None,
        Some((tag, r)) => if tag == 0 {
            Some((BacklogPolicy::Reject, r))
        } else if tag == 1 {
            match codec::read_u64(r) {
                None => None,
                Some((timeout_ms, r)) => Some((BacklogPolicy::Block { timeout_ms }, r)),
            }
        } else if tag == 2 {
            Some((BacklogPolicy::EvictOldest, r))
        } else {
            None
        },
    }
}

/// A size as it is stored.
pub open spec fn stored_size(o: Option<usize>) -> Option<u64> {
    match o {
        None => None,
        Some(x) => Some(x as u64),
    }
}

/// The stored form of a policy: its fields, one after the other.
pub open spec fn policy_code(p: PolicyView) -> Seq<u8> {
    codec::str_code(p.tenant_id) + codec::str_code(p.namespace) + spec_u32_to_le_bytes(p.weight)
        + spec_u64_to_le_bytes(p.max_inflight as u64) + spec_u32_to_le_bytes(p.burst_tokens)
        + spec_u32_to_le_bytes(p.rate_per_sec) + codec::opt_code(stored_size(p.backlog_quota))
        + backlog_code(p.backlog_policy) + spec_u64_to_le_bytes(p.retention.pending_retention_secs)
        + spec_u64_to_le_bytes(p.retention.dlq_retention_secs) + spec_u64_to_le_bytes(
        p.retention.inflight_stale_secs,
    )
}

/// Reads the retention part of a policy.
pub open spec fn read_retention(b: Seq<u8>) -> Option<(RetentionPolicy, Seq<u8>)> {
    match codec::read_u64(b) {
        None => None,
        Some((pending_retention_secs, r)) => match codec::read_u64(r) {
            None => None,
            Some((dlq_retention_secs, r)) => match codec::read_u64(r) {
                None => None,
                Some((inflight_stale_secs, r)) => Some(
                    (
                        RetentionPolicy {
                            pending_retention_secs,
                            dlq_retention_secs,
                            inflight_stale_secs,
                        },
                        r,
                    ),
                ),
            },
        },
    }
}

/// The policy stored at the front of `b`, if there is one; a size that this
/// machine cannot hold is none.
pub open spec fn read_policy(b: Seq<u8>) -> Option<PolicyView> {
    match codec::read_str(b) {
        None => None,
        Some((tenant_id, r)) => match codec::read_str(r) {
            None => None,
            Some((namespace, r)) => match codec::read_u32(r) {
                None => None,
                Some((weight, r)) => match codec::read_u64(r) {
                    None => None,
                    Some((max_inflight, r)) => if max_inflight > usize::MAX {
                        None
                    } else {
                        match codec::read_u32(r) {
                            None => None,
                            Some((burst_tokens, r)) => match codec::read_u32(r) {
                                None => None,
                                Some((rate_per_sec, r)) => match codec::read_opt(r) {
                                    None => None,
                                    Some((quota, r)) => if quota is Some && quota->0 > usize::MAX {
                                        None
                                    } else {
                                        match read_backlog(r) {
                                            None => None,
                                            Some((backlog_policy, r)) => match read_retention(r) {
                                                None => None,
                                                Some((retention, _)) => Some(
                                                    PolicyView {
                                                        tenant_id,
                                                        namespace,
                                                        weight,
                                                        max_inflight: max_inflight as usize,
                                                        burst_tokens,
                                                        rate_per_sec,
                                                        backlog_quota: match quota {
                                                            None => None,
                                                            Some(q) => Some(q as usize),
                                                        },
                                                        backlog_policy,
                                                        retention,
                                                    },
                                                ),
                                            },
                                        }
                                    },
                                },
                            },
                        }
                    },
                },
            },
        },
    }
}

impl NamespacePolicy {
    /// The standard tier for `tenant_id`.
    pub fn standard(tenant_id: &str) -> (r: Self)
        ensures
            r@ == standard_policy(tenant_id@),
    {
        NamespacePolicy {
            namespace: tenant_id.to_owned(),
            tenant_id: tenant_id.to_owned(),
            weight: 10,
            max_inflight: 500,
            burst_tokens: 100,
            rate_per_sec: 100,
            backlog_quota: Some(100_000),
            backlog_policy: BacklogPolicy::Reject,
            retention: RetentionPolicy::default(),
        }
    }

    /// The premium tier for `tenant_id`.
    pub fn premium(tenant_id: &str) -> (r: Self)
        ensures
            r@ == premium_policy(tenant_id@),
    {
        NamespacePolicy {
            namespace: tenant_id.to_owned(),
            tenant_id: tenant_id.to_owned(),
            weight: 50,
            max_inflight: 5000,
            burst_tokens: 1000,
            rate_per_sec: 1000,
            backlog_quota: Some(1_000_000),
            backlog_policy: BacklogPolicy::Block { timeout_ms: 5000 },
            retention: RetentionPolicy::default(),
        }
    }

    /// The stored form of the policy.
    pub fn serialize(&self) -> (r: Result<Vec<u8>, QueueError>)
        ensures
            r is Ok,
            r->Ok_0@ == policy_code(self@),
    {
        let mut e = Encoder::new();
        e.put_str(self.tenant_id.as_str())?;
        e.put_str(self.namespace.as_str())?;
        e.put_u32(self.weight)?;
        e.put_u64(self.max_inflight as u64)?;
        e.put_u32(self.burst_tokens)?;
        e.put_u32(self.rate_per_sec)?;
        let quota: Option<u64> = match self.backlog_quota {
            None => None,
            Some(q) => Some(q as u64),
        };
        e.put_opt(quota)?;
        let ghost before = e@;
        match self.backlog_policy {
            BacklogPolicy::Reject => {
                e.put_u32(0)?;
            },
            BacklogPolicy::Block { timeout_ms } => {
                e.put_u32(1)?;
                e.put_u64(timeout_ms)?;
            },
            BacklogPolicy::EvictOldest => {
                e.put_u32(2)?;
            },
        }
        assert(e@ =~= before + backlog_code(self.backlog_policy));
        e.put_u64(self.retention.pending_retention_secs)?;
        e.put_u64(self.retention.dlq_retention_secs)?;
        e.put_u64(self.retention.inflight_stale_secs)?;
        assert(e@ =~= policy_code(self@));
        Ok(e.finish())
    }

    /// The policy stored in `bytes`; what follows it is not looked at.
    pub fn deserialize(bytes: &[u8]) -> (r: Result<NamespacePolicy, QueueError>)
        ensures
            match r {
                Ok(p) => read_policy(bytes@) == Some(p@),
                Err(e) => read_policy(bytes@) is None && e is Serialization,
            },
    {
        let mut d = Decoder::new(bytes);
        let tenant_id = match d.take_str() {
            Ok(v) => v,
            Err(e) => return Err(e),
        };
        let namespace = match d.take_str() {
            Ok(v) => v,
            Err(e) => return Err(e),
        };
        let weight: u32 = match d.take_u32() {
            Ok(v) => v,
            Err(e) => return Err(e),
        };
        let max_inflight: u64 = match d.take_u64() {
            Ok(v) => v,
            Err(e) => return Err(e),
        };
        if max_inflight > usize::MAX as u64 {
            return Err(codec::invalid_integer(max_inflight, "usize"));
        }
        let burst_tokens: u32 = match d.take_u32() {
            Ok(v) => v,
            Err(e) => return Err(e),
        };
        let rate_per_sec: u32 = match d.take_u32() {
            Ok(v) => v,
            Err(e) => return Err(e),
        };
        let quota: Option<u64> = match d.take_opt() {
            Ok(v) => v,
            Err(e) => return Err(e),
        };
        let backlog_quota: Option<usize> = match quota {
            None => None,
            Some(q) => {
                if q > usize::MAX as u64 {
                    return Err(codec::invalid_integer(q, "usize"));
                }
                Some(q as usize)
            },
        };
        let tag: u32 = match d.take_u32() {
            Ok(v) => v,
            Err(e) => return Err(e),
        };
        let backlog_policy = if tag == 0 {
            BacklogPolicy::Reject
        } else if tag == 1 {
            let timeout_ms: u64 = match d.take_u64() {
                Ok(v) => v,
                Err(e) => return Err(e),
            };
            BacklogPolicy::Block { timeout_ms }
        } else if tag == 2 {
            BacklogPolicy::EvictOldest
        } else {
            return Err(codec::invalid_integer(tag as u64, "variant index 0 <= i < 3"));
        };
        let pending_retention_secs: u64 = match d.take_u64() {
            Ok(v) => v,
            Err(e) => return Err(e),
        };
        let dlq_retention_secs: u64 = match d.take_u64() {
            Ok(v) => v,
            Err(e) => return Err(e),
        };
        let inflight_stale_secs: u64 = match d.take_u64() {
            Ok(v) => v,
            Err(e) => return Err(e),
        };
        Ok(
            NamespacePolicy {
                tenant_id,
                namespace,
                weight,
                max_inflight: max_inflight as usize,
                burst_tokens,
                rate_per_sec,
                backlog_quota,
                backlog_policy,
                retention: RetentionPolicy {
                    pending_retention_secs,
                    dlq_retention_secs,
                    inflight_stale_secs,
                },
            },
        )
    }
}

/// The backlog part of a policy is read back as it was.
proof fn lemma_read_backlog(p: BacklogPolicy, rest: Seq<u8>)
    ensures
        read_backlog(backlog_code(p) + rest) == Some((p, rest)),
{
    match p {
        BacklogPolicy::Reject => {
            codec::lemma_read_u32(0, rest);
        },
        BacklogPolicy::Block { timeout_ms } => {
            let r = spec_u64_to_le_bytes(timeout_ms) + rest;
            assert(backlog_code(p) + rest =~= spec_u32_to_le_bytes(1) + r);
            codec::lemma_read_u32(1, r);
            codec::lemma_read_u64(timeout_ms, rest);
        },
        BacklogPolicy::EvictOldest => {
            codec::lemma_read_u32(2, rest);
        },
    }
}

/// A stored policy is read back as it was.
pub proof fn law_policy_roundtrip(p: PolicyView)
    requires
        encode_utf8(p.tenant_id).len() <= u64::MAX,
        encode_utf8(p.namespace).len() <= u64::MAX,
    ensures
        read_policy(policy_code(p)) == Some(p),
{
    let none = Seq::<u8>::empty();
    let r10 = spec_u64_to_le_bytes(p.retention.inflight_stale_secs) + none;
    let r9 = spec_u64_to_le_bytes(p.retention.dlq_retention_secs) + r10;
    let r8 = spec_u64_to_le_bytes(p.retention.pending_retention_secs) + r9;
    let r7 = backlog_code(p.backlog_policy) + r8;
    let r6 = codec::opt_code(stored_size(p.backlog_quota)) + r7;
    let r5 = spec_u32_to_le_bytes(p.rate_per_sec) + r6;
    let r4 = spec_u32_to_le_bytes(p.burst_tokens) + r5;
    let r3 = spec_u64_to_le_bytes(p.max_inflight as u64) + r4;
    let r2 = spec_u32_to_le_bytes(p.weight) + r3;
    let r1 = codec::str_code(p.namespace) + r2;
    assert(policy_code(p) =~= codec::str_code(p.tenant_id) + r1);
    codec::lemma_read_str(p.tenant_id, r1);
    codec::lemma_read_str(p.namespace, r2);
    codec::lemma_read_u32(p.weight, r3);
    codec::lemma_read_u64(p.max_inflight as u64, r4);
    codec::lemma_read_u32(p.burst_tokens, r5);
    codec::lemma_read_u32(p.rate_per_sec, r6);
    codec::lemma_read_opt(stored_size(p.backlog_quota), r7);
    lemma_read_backlog(p.backlog_policy, r8);
    codec::lemma_read_u64(p.retention.pending_retention_secs, r9);
    codec::lemma_read_u64(p.retention.dlq_retention_secs, r10);
    codec::lemma_read_u64(p.retention.inflight_stale_secs, none);
}

/// What a tier allows, and that a tenant's namespace is the tenant's own name.
pub proof fn law_tiers_allow(tenant_id: Seq<char>)
    ensures
        ({
            let s = standard_policy(tenant_id);
            &&& s.tenant_id == tenant_id && s.namespace == tenant_id
            &&& s.weight == 10 && s.max_inflight == 500
            &&& s.burst_tokens == 100 && s.rate_per_sec == 100
            &&& s.backlog_quota == Some(100_000usize)
            &&& s.backlog_policy == BacklogPolicy::Reject
            &&& s.retention == default_retention()
        }),
        ({
            let p = premium_policy(tenant_id);
            &&& p.tenant_id == tenant_id && p.namespace == tenant_id
            &&& p.weight == 50 && p.max_inflight == 5000
            &&& p.burst_tokens == 1000 && p.rate_per_sec == 1000
            &&& p.backlog_quota == Some(1_000_000usize)
            &&& p.backlog_policy == (BacklogPolicy::Block { timeout_ms: 5000 })
            &&& p.retention == default_retention()
        }),
        default_retention().pending_retention_secs == 0,
        default_retention().dlq_retention_secs == 7 * 24 * 60 * 60,
        default_retention().inflight_stale_secs == 5 * 60,
{
}

/// The premium tier allows more than the standard one in everything.
pub proof fn law_premium_allows_more(tenant_id: Seq<char>)
    ensures
        ({
            let s = standard_policy(tenant_id);
            let p = premium_policy(tenant_id);
            &&& p.weight > s.weight
            &&& p.max_inflight > s.max_inflight
            &&& p.burst_tokens > s.burst_tokens
            &&& p.rate_per_sec > s.rate_per_sec
            &&& p.backlog_quota->0 > s.backlog_quota->0
        }),
{
}

/// A stored policy begins with the two names, the weight, the bound on leases, the
/// tokens, the rate and the quota, in this order, and ends with the retention times.
pub proof fn law_policy_layout(p: PolicyView)
    ensures
        ({
            let b = policy_code(p);
            let n = b.len() as int;
            let head = codec::str_code(p.tenant_id) + codec::str_code(p.namespace);
            let h = head.len() as int;
            &&& b.take(h) == head
            &&& b.subrange(h, h + 4) == spec_u32_to_le_bytes(p.weight)
            &&& b.subrange(h + 4, h + 12) == spec_u64_to_le_bytes(p.max_inflight as u64)
            &&& b.subrange(h + 12, h + 16) == spec_u32_to_le_bytes(p.burst_tokens)
            &&& b.subrange(h + 16, h + 20) == spec_u32_to_le_bytes(p.rate_per_sec)
            &&& p.backlog_quota matches Some(q) ==> b[h + 20] == 1 && b.subrange(h + 21, h + 29)
                == spec_u64_to_le_bytes(q as u64)
            &&& p.backlog_quota is None ==> b[h + 20] == 0
            &&& b.subrange(n - 24, n - 16) == spec_u64_to_le_bytes(
                p.retention.pending_retention_secs,
            )
            &&& b.subrange(n - 16, n - 8) == spec_u64_to_le_bytes(p.retention.dlq_retention_secs)
            &&& b.skip(n - 8) == spec_u64_to_le_bytes(p.retention.inflight_stale_secs)
        }),
{
    lemma_auto_spec_u32_to_from_le_bytes();
    lemma_auto_spec_u64_to_from_le_bytes();
    let b = policy_code(p);
    let n = b.len() as int;
    let head = codec::str_code(p.tenant_id) + codec::str_code(p.namespace);
    let h = head.len() as int;
    assert(b.take(h) =~= head);
    assert(b.subrange(h, h + 4) =~= spec_u32_to_le_bytes(p.weight));
    assert(b.subrange(h + 4, h + 12) =~= spec_u64_to_le_bytes(p.max_inflight as u64));
    assert(b.subrange(h + 12, h + 16) =~= spec_u32_to_le_bytes(p.burst_tokens));
    assert(b.subrange(h + 16, h + 20) =~= spec_u32_to_le_bytes(p.rate_per_sec));
    match p.backlog_quota {
        None => {},
        Some(q) => {
            assert(b.subrange(h + 21, h + 29) =~= spec_u64_to_le_bytes(q as u64));
        },
    }
    assert(b.subrange(n - 24, n - 16) =~= spec_u64_to_le_bytes(p.retention.pending_retention_secs));
    assert(b.subrange(n - 16, n - 8) =~= spec_u64_to_le_bytes(p.retention.dlq_retention_secs));
    assert(b.skip(n - 8) =~= spec_u64_to_le_bytes(p.retention.inflight_stale_secs));
}

/// The backlog policy is stored as its number, and a wait's timeout behind it.
pub proof fn law_backlog_numbers(timeout_ms: u64)
    ensures
        backlog_code(BacklogPolicy::Reject) == spec_u32_to_le_bytes(0),
        backlog_code((BacklogPolicy::Block { timeout_ms })) == spec_u32_to_le_bytes(1)
            + spec_u64_to_le_bytes(timeout_ms),
        backlog_code(BacklogPolicy::EvictOldest) == spec_u32_to_le_bytes(2),
{
}

} // verus!
