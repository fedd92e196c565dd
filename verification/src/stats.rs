//! What is known of each tenant's traffic, and slots by need.
//!
//! Rates, scores and ratios are fractions. They are kept here as bit patterns,
//! which are compared as the numbers that they stand for; smoothing them is left
//! to the caller.

use vstd::prelude::*;

use crate::fraction;
use crate::stats_store::{PersistedStats, PersistedStatsView};
use crate::tenant::enqueue;
use crate::tenant_map;
use crate::tenant_map::TenantMap;

verus! {

/// A tenant's traffic.
#[derive(Debug)]
pub struct TenantStats {
    pub tenant_id: String,
    pub arrival_rate: u64,
    pub processing_rate: u64,
    pub avg_task_latency: u64,
    pub burst_score: u64,
    pub backlog_ratio: u64,
    /// When the tenant was registered, in nanoseconds of the caller's clock.
    /// Nothing moves it on later.
    pub last_enqueue_at: u64,
    /// When the tenant was registered, in nanoseconds of the caller's clock.
    /// Nothing moves it on later.
    pub last_dequeue_at: u64,
    pub last_alloc_fraction: u64,
    /// The tenant has not enqueued anything yet.
    pub is_new: bool,
    pub total_enqueued: u64,
    pub total_acked: u64,
    pub total_nacked: u64,
    pub stats_version: u64,
}

/// A tenant's traffic as a mathematical value.
#[verifier::ext_equal]
pub struct StatsView {
    pub tenant_id: Seq<char>,
    pub arrival_rate: u64,
    pub processing_rate: u64,
    pub avg_task_latency: u64,
    pub burst_score: u64,
    pub backlog_ratio: u64,
    pub last_enqueue_at: u64,
    pub last_dequeue_at: u64,
    pub last_alloc_fraction: u64,
    pub is_new: bool,
    pub total_enqueued: u64,
    pub total_acked: u64,
    pub total_nacked: u64,
    pub stats_version: u64,
}

impl View for TenantStats {
    type V = StatsView;

    open spec fn view(&self) -> StatsView {
        StatsView {
            tenant_id: self.tenant_id@,
            arrival_rate: self.arrival_rate,
            processing_rate: self.processing_rate,
            avg_task_latency: self.avg_task_latency,
            burst_score: self.burst_score,
            backlog_ratio: self.backlog_ratio,
            last_enqueue_at: self.last_enqueue_at,
            last_dequeue_at: self.last_dequeue_at,
            last_alloc_fraction: self.last_alloc_fraction,
            is_new: self.is_new,
            total_enqueued: self.total_enqueued,
            total_acked: self.total_acked,
            total_nacked: self.total_nacked,
            stats_version: self.stats_version,
        }
    }
}

impl Clone for TenantStats {
    fn clone(&self) -> (r: Self)
        ensures
            r@ == self@,
    {
        TenantStats {
            tenant_id: self.tenant_id.clone(),
            arrival_rate: self.arrival_rate,
            processing_rate: self.processing_rate,
            avg_task_latency: self.avg_task_latency,
            burst_score: self.burst_score,
            backlog_ratio: self.backlog_ratio,
            last_enqueue_at: self.last_enqueue_at,
            last_dequeue_at: self.last_dequeue_at,
            last_alloc_fraction: self.last_alloc_fraction,
            is_new: self.is_new,
            total_enqueued: self.total_enqueued,
            total_acked: self.total_acked,
            total_nacked: self.total_nacked,
            stats_version: self.stats_version,
        }
    }
}

/// What was counted since the last refresh, and in all. The counts wrap
/// around.
#[derive(Debug, Clone, Copy, PartialEq, Eq, Structural)]
pub struct TenantCounters {
    pub enqueue_count: u64,
    pub ack_count: u64,
    pub nack_count: u64,
    pub latency_sum_ms: u64,
    pub total_enqueued: u64,
    pub total_acked: u64,
    pub total_nacked: u64,
}

/// Nothing counted.
pub open spec fn no_counters() -> TenantCounters {
    TenantCounters {
        enqueue_count: 0,
        ack_count: 0,
        nack_count: 0,
        latency_sum_ms: 0,
        total_enqueued: 0,
        total_acked: 0,
        total_nacked: 0,
    }
}

/// A tenant's traffic and counters.
#[derive(Debug)]
pub struct Tally {
    pub stats: TenantStats,
    pub counters: TenantCounters,
}

/// A tenant's traffic and counters as a mathematical value.
#[verifier::ext_equal]
pub struct TallyView {
    pub stats: StatsView,
    pub counters: TenantCounters,
}

impl View for Tally {
    type V = TallyView;

    open spec fn view(&self) -> TallyView {
        TallyView { stats: self.stats@, counters: self.counters }
    }
}

impl Clone for Tally {
    fn clone(&self) -> (r: Self)
        ensures
            r@ == self@,
    {
        Tally { stats: self.stats.clone(), counters: self.counters }
    }
}

/// A tenant that has just been registered.
pub open spec fn new_tally(tenant_id: Seq<char>, now: u64) -> TallyView {
    TallyView {
        stats: StatsView {
            tenant_id,
            arrival_rate: 0,
            processing_rate: 0,
            avg_task_latency: 0,
            burst_score: 0,
            backlog_ratio: 0,
            last_enqueue_at: now,
            last_dequeue_at: now,
            last_alloc_fraction: 0,
            is_new: true,
            total_enqueued: 0,
            total_acked: 0,
            total_nacked: 0,
            stats_version: 0,
        },
        counters: no_counters(),
    }
}

/// The tally after tasks were enqueued.
pub open spec fn with_enqueued(t: TallyView, count: u64) -> TallyView {
    TallyView {
        counters: TenantCounters {
            enqueue_count: t.counters.enqueue_count.wrapping_add(count),
            total_enqueued: t.counters.total_enqueued.wrapping_add(count),
            ..t.counters
        },
        ..t
    }
}

/// The tally after tasks were acknowledged, each after the given time.
pub open spec fn with_acked(t: TallyView, count: u64, latency_ms: u64) -> TallyView {
    TallyView {
        counters: TenantCounters {
            ack_count: t.counters.ack_count.wrapping_add(count),
            latency_sum_ms: t.counters.latency_sum_ms.wrapping_add((latency_ms * count) as u64),
            total_acked: t.counters.total_acked.wrapping_add(count),
            ..t.counters
        },
        ..t
    }
}

/// The tally after a task was given back.
pub open spec fn with_nacked(t: TallyView) -> TallyView {
    TallyView {
        counters: TenantCounters {
            nack_count: t.counters.nack_count.wrapping_add(1),
            total_nacked: t.counters.total_nacked.wrapping_add(1),
            ..t.counters
        },
        ..t
    }
}

/// The tally after a refresh, before the rates are smoothed: the counts of the
/// cycle start again, the totals are taken over, and a tenant that has enqueued
/// is not new any more.
pub open spec fn refreshed(t: TallyView) -> TallyView {
    TallyView {
        stats: StatsView {
            total_enqueued: t.counters.total_enqueued,
            total_acked: t.counters.total_acked,
            total_nacked: t.counters.total_nacked,
            stats_version: (t.stats.stats_version + 1) as u64,
            is_new: t.stats.is_new && t.counters.enqueue_count == 0,
            ..t.stats
        },
        counters: TenantCounters {
            enqueue_count: 0,
            ack_count: 0,
            nack_count: 0,
            latency_sum_ms: 0,
            ..t.counters
        },
    }
}

/// What a cycle counted for a tenant.
#[derive(Debug)]
pub struct Cycle {
    pub tenant_id: String,
    pub enqueued: u64,
    pub acked: u64,
    /// Acknowledged and given back.
    pub processed: u64,
    pub latency_sum_ms: u64,
}

/// The cycle is what the counters say of the tenant.
pub open spec fn is_cycle(c: Cycle, name: Seq<char>, t: TallyView) -> bool {
    &&& c.tenant_id@ == name
    &&& c.enqueued == t.counters.enqueue_count
    &&& c.acked == t.counters.ack_count
    &&& c.processed == t.counters.ack_count + t.counters.nack_count
    &&& c.latency_sum_ms == t.counters.latency_sum_ms
}

/// The tally with the rates of a stored record.
pub open spec fn warmed(t: TallyView, p: PersistedStatsView) -> TallyView {
    TallyView {
        stats: StatsView {
            arrival_rate: p.arrival_rate,
            processing_rate: p.processing_rate,
            avg_task_latency: p.avg_task_latency,
            burst_score: p.burst_score,
            backlog_ratio: p.backlog_ratio,
            total_enqueued: p.total_enqueued,
            total_acked: p.total_acked,
            total_nacked: p.total_nacked,
            stats_version: p.stats_version,
            is_new: false,
            ..t.stats
        },
        ..t
    }
}

/// The tallies with stored records taken over, one after the other.
pub open spec fn warmed_all(
    m: Map<Seq<char>, TallyView>,
    ps: Seq<PersistedStatsView>,
) -> Map<Seq<char>, TallyView>
    decreases ps.len(),
{
    if ps.len() == 0 {
        m
    } else {
        let before = warmed_all(m, ps.drop_last());
        let p = ps.last();
        if before.contains_key(p.tenant_id) {
            before.insert(p.tenant_id, warmed(before[p.tenant_id], p))
        } else {
            before
        }
    }
}

/// How long after its `last_enqueue_at` a tenant counts as dormant, in
/// nanoseconds.
pub const DORMANT_AFTER_NS: u64 = 30_000_000_000;

/// The tenant's `last_enqueue_at` lies far back.
pub open spec fn dormant(s: StatsView, now: u64) -> bool {
    now >= s.last_enqueue_at && now - s.last_enqueue_at > DORMANT_AFTER_NS
}

/// The tenant gets slots whatever its history says.
pub open spec fn protected(s: StatsView, now: u64) -> bool {
    s.is_new || dormant(s, now)
}

/// The names of the tenants that are, or are not, protected, in the order in
/// which they are walked.
pub open spec fn chosen(
    m: Map<Seq<char>, TallyView>,
    names: Seq<Seq<char>>,
    now: u64,
    want: bool,
) -> Seq<Seq<char>>
    decreases names.len(),
{
    if names.len() == 0 {
        Seq::empty()
    } else if protected(m[names.last()].stats, now) == want {
        chosen(m, names.drop_last(), now, want).push(names.last())
    } else {
        chosen(m, names.drop_last(), now, want)
    }
}

/// The slots kept for protected tenants.
pub open spec fn protected_budget(total: nat, min_slots: nat, protected_tenants: nat) -> nat {
    if min_slots * protected_tenants <= total {
        min_slots * protected_tenants
    } else {
        total
    }
}

/// Slots for a tenant.
pub type Grant = (Seq<char>, nat);

/// The sum of the numbers.
pub open spec fn total_of(shares: Seq<nat>) -> nat
    decreases shares.len(),
{
    if shares.len() == 0 {
        0
    } else {
        total_of(shares.drop_last()) + shares.last()
    }
}

/// What is left of a budget.
pub open spec fn left_of(budget: nat, shares: Seq<nat>) -> nat {
    if total_of(shares) <= budget {
        (budget - total_of(shares)) as nat
    } else {
        0
    }
}

/// Where the largest fraction stands first; what is no number is below all that
/// are.
pub open spec fn first_largest(v: Seq<u64>) -> int
    decreases v.len(),
{
    if v.len() <= 1 {
        0
    } else {
        let before = first_largest(v.drop_last());
        if fraction::rank(v.last()) > fraction::rank(v[before]) {
            v.len() - 1
        } else {
            before
        }
    }
}

/// The backlog ratios of tenants.
pub open spec fn ratios(m: Map<Seq<char>, TallyView>, names: Seq<Seq<char>>) -> Seq<u64> {
    names.map_values(|n: Seq<char>| m[n].stats.backlog_ratio)
}

/// The grants to tenants that are not protected: their shares, and what is left
/// of the budget to the one with the highest backlog. Without shares there are
/// none.
pub open spec fn normal_grants(
    m: Map<Seq<char>, TallyView>,
    names: Seq<Seq<char>>,
    budget: nat,
    shares: Option<Seq<nat>>,
) -> Seq<Grant> {
    match shares {
        None => Seq::empty(),
        Some(ss) => Seq::new(
            names.len(),
            |i: int|
                (
                    names[i],
                    if i == first_largest(ratios(m, names)) {
                        ss[i] + left_of(budget, ss)
                    } else {
                        ss[i]
                    },
                ),
        ),
    }
}

/// The grants of no slots left out.
pub open spec fn nonzero(gs: Seq<Grant>) -> Seq<Grant>
    decreases gs.len(),
{
    if gs.len() == 0 {
        Seq::empty()
    } else if gs.last().1 > 0 {
        nonzero(gs.drop_last()).push(gs.last())
    } else {
        nonzero(gs.drop_last())
    }
}

/// The slots of all tenants.
pub open spec fn granted(
    m: Map<Seq<char>, TallyView>,
    order: Seq<Seq<char>>,
    total: nat,
    min_slots: nat,
    now: u64,
    shares: Option<Seq<nat>>,
) -> Seq<Grant> {
    if total == 0 {
        Seq::empty()
    } else {
        let safe = chosen(m, order, now, true);
        let rest = chosen(m, order, now, false);
        let budget = (total - protected_budget(total, min_slots, safe.len())) as nat;
        nonzero(
            normal_grants(m, rest, budget, shares) + safe.map_values(
                |n: Seq<char>| (n, min_slots),
            ),
        )
    }
}

/// Grants as mathematical values.
pub open spec fn grants_view(v: Seq<(String, usize)>) -> Seq<Grant> {
    v.map_values(|g: (String, usize)| (g.0@, g.1 as nat))
}

/// Numbers as mathematical values.
pub open spec fn numbers(v: Seq<usize>) -> Seq<nat> {
    v.map_values(|n: usize| n as nat)
}

/// Optional numbers as mathematical values.
pub open spec fn opt_numbers(v: Option<Vec<usize>>) -> Option<Seq<nat>> {
    match v {
        None => None,
        Some(v) => Some(numbers(v@)),
    }
}

/// The tallies of all tenants.
pub struct StatsCollector {
    /// The tallies by tenant.
    pub tenants: TenantMap<Tally>,
    /// The slots that a protected tenant gets.
    pub min_guarantee_slots: usize,
}

/// Tallies as mathematical values.
pub open spec fn tallies(m: Map<Seq<char>, Tally>) -> Map<Seq<char>, TallyView> {
    m.map_values(|t: Tally| t@)
}

impl View for StatsCollector {
    type V = Map<Seq<char>, TallyView>;

    closed spec fn view(&self) -> Map<Seq<char>, TallyView> {
        tallies(self.tenants@)
    }
}

/// A tenant's tally with another backlog ratio.
pub open spec fn with_backlog(t: TallyView, ratio: u64) -> TallyView {
    TallyView { stats: StatsView { backlog_ratio: ratio, ..t.stats }, ..t }
}

/// A tenant's tally with other rates.
pub open spec fn with_rates(
    t: TallyView,
    arrival_rate: u64,
    processing_rate: u64,
    avg_task_latency: u64,
    burst_score: u64,
) -> TallyView {
    TallyView {
        stats: StatsView {
            arrival_rate,
            processing_rate,
            avg_task_latency,
            burst_score,
            ..t.stats
        },
        ..t
    }
}

/// The waiting tasks among all, if there are any.
pub open spec fn waiting_share(pending: usize, inflight: usize) -> Option<(usize, usize)> {
    if pending + inflight > 0 {
        Some((pending, (pending + inflight) as usize))
    } else {
        None
    }
}

impl StatsCollector {
    /// The map of tenants is in order.
    pub closed spec fn wf(&self) -> bool {
        self.tenants.wf()
    }

    /// The slots that a protected tenant gets.
    pub open spec fn min_slots(&self) -> usize {
        self.min_guarantee_slots
    }

    /// The tenants in the order in which they are walked.
    pub closed spec fn order(&self) -> Seq<Seq<char>> {
        self.tenants.order()
    }

    /// The tenants that are walked are those that are known, each once.
    pub proof fn lemma_order(&self)
        requires
            self.wf(),
        ensures
            self.order().no_duplicates(),
            forall|k: Seq<char>| #[trigger] self@.contains_key(k) <==> self.order().contains(k),
            forall|i: int|
                0 <= i < self.order().len() ==> self@.contains_key(#[trigger] self.order()[i]),
    {
        self.tenants.lemma_order();
        assert forall|k: Seq<char>| #[trigger] self@.contains_key(k) <==> self.order().contains(
            k,
        ) by {
            assert(self@.contains_key(k) == self.tenants@.contains_key(k));
        }
        assert forall|i: int| 0 <= i < self.order().len() implies self@.contains_key(
            #[trigger] self.order()[i],
        ) by {
            assert(self.tenants@.contains_key(self.order()[i]));
        }
    }

    /// A collector without tenants.
    pub fn new() -> (r: Self)
        ensures
            r.wf(),
            r@ == Map::<Seq<char>, TallyView>::empty(),
            r.order() == Seq::<Seq<char>>::empty(),
            r.min_slots() == 5,
    {
        let r = StatsCollector { tenants: TenantMap::new(), min_guarantee_slots: 5 };
        assert(r@ =~= Map::<Seq<char>, TallyView>::empty());
        r
    }

    /// Puts a tenant's tally in place of what was there.
    fn put(&mut self, name: &str, tally: Tally)
        requires
            old(self).wf(),
        ensures
            final(self).wf(),
            final(self)@ == old(self)@.insert(name@, tally@),
            final(self).min_slots() == old(self).min_slots(),
            final(self).order() == (if old(self)@.contains_key(name@) {
                old(self).order()
            } else {
                old(self).order().push(name@)
            }),
    {
        assert(self@.contains_key(name@) == self.tenants@.contains_key(name@));
        self.tenants.insert(name, tally);
        assert(self@ =~= old(self)@.insert(name@, tally@));
    }

    /// A tenant's tally.
    fn find(&self, name: &str) -> (r: Option<Tally>)
        requires
            self.wf(),
        ensures
            r is Some <==> self@.contains_key(name@),
            r matches Some(t) ==> t@ == self@[name@],
    {
        match self.tenants.get(name) {
            None => None,
            Some(t) => Some(t.clone()),
        }
    }

    /// Registers a tenant anew.
    pub fn register(&mut self, tenant_id: &str, now: u64)
        requires
            old(self).wf(),
        ensures
            final(self).wf(),
            final(self).min_slots() == old(self).min_slots(),
            final(self)@ == old(self)@.insert(tenant_id@, new_tally(tenant_id@, now)),
            final(self).order() == (if old(self)@.contains_key(tenant_id@) {
                old(self).order()
            } else {
                old(self).order().push(tenant_id@)
            }),
    {
        let tally = Tally {
            stats: TenantStats {
                tenant_id: tenant_id.to_owned(),
                arrival_rate: 0,
                processing_rate: 0,
                avg_task_latency: 0,
                burst_score: 0,
                backlog_ratio: 0,
                last_enqueue_at: now,
                last_dequeue_at: now,
                last_alloc_fraction: 0,
                is_new: true,
                total_enqueued: 0,
                total_acked: 0,
                total_nacked: 0,
                stats_version: 0,
            },
            counters: TenantCounters {
                enqueue_count: 0,
                ack_count: 0,
                nack_count: 0,
                latency_sum_ms: 0,
                total_enqueued: 0,
                total_acked: 0,
                total_nacked: 0,
            },
        };
        assert(tally@ =~= new_tally(tenant_id@, now));
        self.put(tenant_id, tally);
    }

    /// Removes a tenant.
    pub fn deregister(&mut self, tenant_id: &str)
        requires
            old(self).wf(),
        ensures
            final(self).wf(),
            final(self).min_slots() == old(self).min_slots(),
            final(self)@ == old(self)@.remove(tenant_id@),
            final(self).order() == tenant_map::delisted(old(self).order(), tenant_id@),
    {
        self.tenants.remove(tenant_id);
        assert(self@ =~= old(self)@.remove(tenant_id@));
    }

    /// Counts tasks that a tenant enqueued.
    pub fn record_enqueue(&mut self, tenant_id: &str, count: u64)
        requires
            old(self).wf(),
        ensures
            final(self).wf(),
            final(self).min_slots() == old(self).min_slots(),
            final(self).order() == old(self).order(),
            final(self)@ == (if old(self)@.contains_key(tenant_id@) {
                old(self)@.insert(tenant_id@, with_enqueued(old(self)@[tenant_id@], count))
            } else {
                old(self)@
            }),
    {
        if let Some(found) = self.find(tenant_id) {
            let mut tally = found;
            tally.counters.enqueue_count = tally.counters.enqueue_count.wrapping_add(count);
            tally.counters.total_enqueued = tally.counters.total_enqueued.wrapping_add(count);
            self.put(tenant_id, tally);
        }
    }

    /// Counts a task that was acknowledged after the given time.
    pub fn record_ack(&mut self, tenant_id: &str, latency_ms: u64)
        requires
            old(self).wf(),
        ensures
            final(self).wf(),
            final(self).min_slots() == old(self).min_slots(),
            final(self).order() == old(self).order(),
            final(self)@ == (if old(self)@.contains_key(tenant_id@) {
                old(self)@.insert(tenant_id@, with_acked(old(self)@[tenant_id@], 1, latency_ms))
            } else {
                old(self)@
            }),
    {
        self.record_ack_count(tenant_id, 1, latency_ms);
    }

    /// Counts tasks that were acknowledged, each after the given time.
    pub fn record_ack_count(&mut self, tenant_id: &str, count: u64, latency_ms: u64)
        requires
            old(self).wf(),
            latency_ms * count <= u64::MAX,
        ensures
            final(self).wf(),
            final(self).min_slots() == old(self).min_slots(),
            final(self).order() == old(self).order(),
            final(self)@ == (if old(self)@.contains_key(tenant_id@) {
                old(self)@.insert(
                    tenant_id@,
                    with_acked(old(self)@[tenant_id@], count, latency_ms),
                )
            } else {
                old(self)@
            }),
    {
        if let Some(found) = self.find(tenant_id) {
            let mut tally = found;
            let sum: u64 = latency_ms * count;
            tally.counters.ack_count = tally.counters.ack_count.wrapping_add(count);
            tally.counters.latency_sum_ms = tally.counters.latency_sum_ms.wrapping_add(sum);
            tally.counters.total_acked = tally.counters.total_acked.wrapping_add(count);
            self.put(tenant_id, tally);
        }
    }

    /// Counts a task that was given back.
    pub fn record_nack(&mut self, tenant_id: &str)
        requires
            old(self).wf(),
        ensures
            final(self).wf(),
            final(self).min_slots() == old(self).min_slots(),
            final(self).order() == old(self).order(),
            final(self)@ == (if old(self)@.contains_key(tenant_id@) {
                old(self)@.insert(tenant_id@, with_nacked(old(self)@[tenant_id@]))
            } else {
                old(self)@
            }),
    {
        if let Some(found) = self.find(tenant_id) {
            let mut tally = found;
            tally.counters.nack_count = tally.counters.nack_count.wrapping_add(1);
            tally.counters.total_nacked = tally.counters.total_nacked.wrapping_add(1);
            self.put(tenant_id, tally);
        }
    }

    /// The share of waiting tasks among all as a pair of numbers; none where
    /// there are no tasks, which counts as no backlog.
    pub fn backlog_share(pending: usize, inflight: usize) -> (r: Option<(usize, usize)>)
        requires
            pending + inflight <= usize::MAX,
        ensures
            r == waiting_share(pending, inflight),
    {
        let total: usize = pending + inflight;
        if total > 0 {
            Some((pending, total))
        } else {
            None
        }
    }

    /// Notes a tenant's backlog ratio.
    pub fn record_backlog(&mut self, tenant_id: &str, ratio: u64)
        requires
            old(self).wf(),
        ensures
            final(self).wf(),
            final(self).min_slots() == old(self).min_slots(),
            final(self).order() == old(self).order(),
            final(self)@ == (if old(self)@.contains_key(tenant_id@) {
                old(self)@.insert(tenant_id@, with_backlog(old(self)@[tenant_id@], ratio))
            } else {
                old(self)@
            }),
    {
        if let Some(found) = self.find(tenant_id) {
            let mut tally = found;
            tally.stats.backlog_ratio = ratio;
            self.put(tenant_id, tally);
        }
    }

    /// Notes a tenant's smoothed rates.
    pub fn set_rates(
        &mut self,
        tenant_id: &str,
        arrival_rate: u64,
        processing_rate: u64,
        avg_task_latency: u64,
        burst_score: u64,
    )
        requires
            old(self).wf(),
        ensures
            final(self).wf(),
            final(self).min_slots() == old(self).min_slots(),
            final(self).order() == old(self).order(),
            final(self)@ == (if old(self)@.contains_key(tenant_id@) {
                old(self)@.insert(
                    tenant_id@,
                    with_rates(
                        old(self)@[tenant_id@],
                        arrival_rate,
                        processing_rate,
                        avg_task_latency,
                        burst_score,
                    ),
                )
            } else {
                old(self)@
            }),
    {
        if let Some(found) = self.find(tenant_id) {
            let mut tally = found;
            tally.stats.arrival_rate = arrival_rate;
            tally.stats.processing_rate = processing_rate;
            tally.stats.avg_task_latency = avg_task_latency;
            tally.stats.burst_score = burst_score;
            self.put(tenant_id, tally);
        }
    }

    /// Whether a cycle can be counted for all tenants.
    pub fn cycles_countable(&self) -> (r: bool)
        requires
            self.wf(),
        ensures
            r == cycles_fit(self@),
    {
        let n: usize = self.tenants.len();
        let mut i: usize = 0;
        while i < n
            invariant
                self.wf(),
                0 <= i <= n,
                n == self.order().len(),
                forall|k: int|
                    0 <= k < i ==> countable(self@[#[trigger] self.order()[k]]),
            decreases n - i,
        {
            let tally = self.tenants.value_at(i);
            proof {
                self.tenants.lemma_order();
                assert(self.tenants@.contains_key(self.order()[i as int]));
                assert(self@[self.order()[i as int]] == tally@);
            }
            if tally.stats.stats_version == u64::MAX || tally.counters.ack_count > u64::MAX
                - tally.counters.nack_count {
                assert(self@.contains_key(self.order()[i as int]));
                return false;
            }
            i = i + 1;
        }
        proof {
            self.tenants.lemma_order();
            assert forall|k: Seq<char>| #[trigger] self@.contains_key(k) implies countable(
                self@[k],
            ) by {
                assert(self.tenants@.contains_key(k));
                assert(self.order().contains(k));
            }
        }
        true
    }

    /// Ends a cycle for all tenants, and gives what it counted for each, in the
    /// order in which they are walked.
    pub fn refresh(&mut self) -> (r: Vec<Cycle>)
        requires
            old(self).wf(),
            cycles_fit(old(self)@),
        ensures
            final(self).wf(),
            final(self).min_slots() == old(self).min_slots(),
            final(self)@ == old(self)@.map_values(|t: TallyView| refreshed(t)),
            final(self).order() == old(self).order(),
            r@.len() == old(self).order().len(),
            forall|i: int|
                0 <= i < r@.len() ==> is_cycle(
                    #[trigger] r@[i],
                    old(self).order()[i],
                    old(self)@[old(self).order()[i]],
                ),
    {
        let mut cycles: Vec<Cycle> = Vec::new();
        let n: usize = self.tenants.len();
        let ghost order = self.order();
        let ghost before = self@;
        proof {
            self.tenants.lemma_order();
            assert forall|k: Seq<char>| #[trigger]
                self@.contains_key(k) <==> self.tenants@.contains_key(k) by {}
        }
        let mut i: usize = 0;
        while i < n
            invariant
                self.wf(),
                0 <= i <= n,
                n == order.len(),
                order == old(self).order(),
                self.order() == order,
                self.min_slots() == old(self).min_slots(),
                before == old(self)@,
                cycles_fit(before),
                order.no_duplicates(),
                self@.dom() == before.dom(),
                forall|k: int| 0 <= k < order.len() ==> before.contains_key(#[trigger] order[k]),
                forall|k: int|
                    0 <= k < order.len() ==> self@[#[trigger] order[k]] == (if k < i {
                        refreshed(before[order[k]])
                    } else {
                        before[order[k]]
                    }),
                cycles@.len() == i,
                forall|k: int|
                    0 <= k < i ==> is_cycle(#[trigger] cycles@[k], order[k], before[order[k]]),
            decreases n - i,
        {
            let ghost name = order[i as int];
            let id = self.tenants.name_at(i).to_owned();
            let mut tally = self.tenants.value_at(i).clone();
            proof {
                assert(before.contains_key(name));
                assert(self@.contains_key(name));
                assert(self@[name] == tally@);
                assert(tally@ == before[name]);
            }
            let cycle = Cycle {
                tenant_id: id.clone(),
                enqueued: tally.counters.enqueue_count,
                acked: tally.counters.ack_count,
                processed: tally.counters.ack_count + tally.counters.nack_count,
                latency_sum_ms: tally.counters.latency_sum_ms,
            };
            assert(is_cycle(cycle, name, before[name]));
            tally.stats.total_enqueued = tally.counters.total_enqueued;
            tally.stats.total_acked = tally.counters.total_acked;
            tally.stats.total_nacked = tally.counters.total_nacked;
            tally.stats.stats_version = tally.stats.stats_version + 1;
            if tally.stats.is_new && tally.counters.enqueue_count > 0 {
                tally.stats.is_new = false;
            }
            tally.counters.enqueue_count = 0;
            tally.counters.ack_count = 0;
            tally.counters.nack_count = 0;
            tally.counters.latency_sum_ms = 0;
            assert(tally@ =~= refreshed(before[name]));
            let ghost prior = self@;
            self.put(id.as_str(), tally);
            let ghost seen = cycles@;
            cycles.push(cycle);
            assert forall|k: int| 0 <= k < order.len() implies self@[#[trigger] order[k]] == (if k
                < i + 1 {
                refreshed(before[order[k]])
            } else {
                before[order[k]]
            }) by {
                if k != i {
                    assert(order[k] != name);
                    assert(prior[order[k]] == self@[order[k]]);
                }
            }
            assert forall|k: int| 0 <= k < i + 1 implies is_cycle(
                #[trigger] cycles@[k],
                order[k],
                before[order[k]],
            ) by {
                if k < i {
                    assert(cycles@[k] == seen[k]);
                }
            }
            assert(self@.dom() =~= before.dom());
            i = i + 1;
        }
        proof {
            let want = before.map_values(|t: TallyView| refreshed(t));
            assert forall|k: Seq<char>| before.contains_key(k) implies #[trigger] self@[k]
                == want[k] by {
                assert(order.contains(k));
                let j = choose|j: int| 0 <= j < order.len() && order[j] == k;
                assert(self@[order[j]] == refreshed(before[order[j]]));
            }
            assert(self@ =~= want);
        }
        cycles
    }

    /// Takes over stored records for the tenants that are known.
    pub fn warm_from_store(&mut self, records: &Vec<PersistedStats>)
        requires
            old(self).wf(),
        ensures
            final(self).wf(),
            final(self).min_slots() == old(self).min_slots(),
            final(self).order() == old(self).order(),
            final(self)@ == warmed_all(old(self)@, records@.map_values(|p: PersistedStats| p@)),
    {
        let ghost ps = records@.map_values(|p: PersistedStats| p@);
        let mut i: usize = 0;
        assert(ps.take(0) =~= Seq::<PersistedStatsView>::empty());
        while i < records.len()
            invariant
                self.wf(),
                0 <= i <= records@.len(),
                ps == records@.map_values(|p: PersistedStats| p@),
                self.min_slots() == old(self).min_slots(),
                self.order() == old(self).order(),
                self@ == warmed_all(old(self)@, ps.take(i as int)),
            decreases records@.len() - i,
        {
            let p = &records[i];
            assert(ps[i as int] == p@);
            assert(ps.take(i + 1).drop_last() =~= ps.take(i as int));
            assert(ps.take(i + 1).last() == p@);
            if let Some(found) = self.find(p.tenant_id.as_str()) {
                let mut tally = found;
                let ghost prior = tally@;
                tally.stats.arrival_rate = p.arrival_rate;
                tally.stats.processing_rate = p.processing_rate;
                tally.stats.avg_task_latency = p.avg_task_latency;
                tally.stats.burst_score = p.burst_score;
                tally.stats.backlog_ratio = p.backlog_ratio;
                tally.stats.total_enqueued = p.total_enqueued;
                tally.stats.total_acked = p.total_acked;
                tally.stats.total_nacked = p.total_nacked;
                tally.stats.stats_version = p.stats_version;
                tally.stats.is_new = false;
                assert(tally@ =~= warmed(prior, p@));
                self.put(p.tenant_id.as_str(), tally);
            }
            i = i + 1;
        }
        assert(ps.take(i as int) =~= ps);
    }

    /// The names of the tenants that are, or are not, protected.
    fn select(&self, now: u64, want: bool) -> (r: Vec<String>)
        requires
            self.wf(),
        ensures
            enqueue::texts(r@) == chosen(self@, self.order(), now, want),
    {
        let mut out: Vec<String> = Vec::new();
        let n: usize = self.tenants.len();
        let ghost order = self.order();
        let mut i: usize = 0;
        assert(order.take(0) =~= Seq::<Seq<char>>::empty());
        assert(enqueue::texts(out@) =~= Seq::<Seq<char>>::empty());
        while i < n
            invariant
                self.wf(),
                0 <= i <= n,
                order == self.order(),
                n == order.len(),
                enqueue::texts(out@) == chosen(self@, order.take(i as int), now, want),
            decreases n - i,
        {
            let tally = self.tenants.value_at(i);
            proof {
                self.tenants.lemma_order();
                assert(self.tenants@.contains_key(order[i as int]));
                assert(self@[order[i as int]] == tally@);
                assert(order.take(i + 1).drop_last() =~= order.take(i as int));
                assert(order.take(i + 1).last() == order[i as int]);
            }
            let silent = now >= tally.stats.last_enqueue_at && now - tally.stats.last_enqueue_at
                > DORMANT_AFTER_NS;
            if (tally.stats.is_new || silent) == want {
                let ghost before = enqueue::texts(out@);
                let name = self.tenants.name_at(i).to_owned();
                out.push(name);
                assert(enqueue::texts(out@) =~= before.push(name@));
            }
            i = i + 1;
        }
        assert(order.take(n as int) =~= order);
        out
    }

    /// The traffic of the tenants that are not protected, from which their
    /// shares are computed.
    pub fn normal_tenants(&self, now: u64) -> (r: Vec<TenantStats>)
        requires
            self.wf(),
        ensures
            r@.len() == chosen(self@, self.order(), now, false).len(),
            forall|i: int|
                0 <= i < r@.len() ==> (#[trigger] r@[i])@ == self@[chosen(
                    self@,
                    self.order(),
                    now,
                    false,
                )[i]].stats,
    {
        let names = self.select(now, false);
        let ghost want = chosen(self@, self.order(), now, false);
        let mut out: Vec<TenantStats> = Vec::new();
        let mut i: usize = 0;
        while i < names.len()
            invariant
                self.wf(),
                0 <= i <= names@.len(),
                want == chosen(self@, self.order(), now, false),
                enqueue::texts(names@) == want,
                out@.len() == i,
                forall|k: int| 0 <= k < i ==> (#[trigger] out@[k])@ == self@[want[k]].stats,
            decreases names@.len() - i,
        {
            assert(want[i as int] == names@[i as int]@);
            proof {
                self.lemma_chosen_known(now, false, i as int);
            }
            match self.tenants.get(names[i].as_str()) {
                Some(t) => out.push(t.stats.clone()),
                None => {
                    assert(self@.contains_key(want[i as int]));
                },
            }
            i = i + 1;
        }
        out
    }

    /// Chosen tenants are known.
    proof fn lemma_chosen_known(&self, now: u64, want: bool, i: int)
        requires
            self.wf(),
            0 <= i < chosen(self@, self.order(), now, want).len(),
        ensures
            self@.contains_key(chosen(self@, self.order(), now, want)[i]),
    {
        self.tenants.lemma_order();
        lemma_chosen_from(self@, self.order(), now, want);
        let name = chosen(self@, self.order(), now, want)[i];
        assert(self.order().contains(name));
        assert(self.tenants@.contains_key(name));
    }

    /// The slots that the shares of unprotected tenants are fractions of.
    pub fn normal_budget(&self, total_slots: usize, now: u64) -> (r: usize)
        requires
            self.wf(),
            self.min_slots() * chosen(self@, self.order(), now, true).len() <= usize::MAX,
        ensures
            r == total_slots - protected_budget(
                total_slots as nat,
                self.min_slots() as nat,
                chosen(self@, self.order(), now, true).len(),
            ),
    {
        let safe = self.select(now, true);
        assert(safe@.len() == enqueue::texts(safe@).len());
        let kept: usize = self.min_guarantee_slots * safe.len();
        if kept <= total_slots {
            total_slots - kept
        } else {
            0
        }
    }

    /// Hands out slots by need. Protected tenants get their minimum each;
    /// `shares` are the other tenants' parts of the remaining budget, in the
    /// order of `normal_tenants`, or none where no tenant has a score.
    pub fn allocate_slots(&self, total_slots: usize, now: u64, shares: &Option<Vec<usize>>) -> (r:
        Vec<(String, usize)>)
        requires
            self.wf(),
            self.min_slots() * chosen(self@, self.order(), now, true).len() <= usize::MAX,
            shares matches Some(ss) ==> ss@.len() == chosen(
                self@,
                self.order(),
                now,
                false,
            ).len(),
        ensures
            grants_view(r@) == granted(
                self@,
                self.order(),
                total_slots as nat,
                self.min_slots() as nat,
                now,
                opt_numbers(*shares),
            ),
    {
        let mut out: Vec<(String, usize)> = Vec::new();
        assert(grants_view(out@) =~= Seq::<Grant>::empty());
        if total_slots == 0 {
            return out;
        }
        let ghost m = self@;
        let ghost order = self.order();
        let budget: usize = self.normal_budget(total_slots, now);
        let safe = self.select(now, true);
        let rest = self.select(now, false);
        let ghost safe_names = chosen(m, order, now, true);
        let ghost rest_names = chosen(m, order, now, false);
        let ghost normal = normal_grants(m, rest_names, budget as nat, opt_numbers(*shares));
        if let Some(ss) = shares {
            let ghost nums = numbers(ss@);
            let left: usize = left_over(budget, ss);
            assert forall|k: int| 0 <= k < rest@.len() implies self@.contains_key(
                #[trigger] enqueue::texts(rest@)[k],
            ) by {
                self.lemma_chosen_known(now, false, k);
            }
            let top: usize = self.top_backlog(&rest);
            let mut i: usize = 0;
            assert(normal.take(0) =~= Seq::<Grant>::empty());
            while i < rest.len()
                invariant
                    0 <= i <= rest@.len(),
                    rest@.len() == ss@.len(),
                    nums == numbers(ss@),
                    enqueue::texts(rest@) == rest_names,
                    normal == normal_grants(m, rest_names, budget as nat, Some(nums)),
                    rest@.len() > 0 ==> top == first_largest(ratios(m, rest_names)),
                    left == left_of(budget as nat, nums),
                    grants_view(out@) == nonzero(normal.take(i as int)),
                decreases rest@.len() - i,
            {
                assert(rest_names[i as int] == rest@[i as int]@);
                assert(nums[i as int] == ss@[i as int]);
                let mut slots: usize = ss[i];
                if i == top && left > 0 {
                    proof {
                        lemma_part_of_total(nums, i as int);
                    }
                    slots = slots + left;
                }
                assert(normal[i as int] == (rest_names[i as int], slots as nat));
                assert(normal.take(i + 1).drop_last() =~= normal.take(i as int));
                assert(normal.take(i + 1).last() == normal[i as int]);
                if slots > 0 {
                    let ghost before = grants_view(out@);
                    let name = rest[i].clone();
                    out.push((name, slots));
                    assert(grants_view(out@) =~= before.push((name@, slots as nat)));
                }
                i = i + 1;
            }
            assert(normal.take(i as int) =~= normal);
        } else {
            assert(normal =~= Seq::<Grant>::empty());
        }
        let ghost mins = safe_names.map_values(
            |n: Seq<char>| (n, self.min_slots() as nat),
        );
        let ghost all = normal + mins;
        let mut j: usize = 0;
        assert(all.take(normal.len() as int) =~= normal);
        while j < safe.len()
            invariant
                0 <= j <= safe@.len(),
                enqueue::texts(safe@) == safe_names,
                mins == safe_names.map_values(
                    |n: Seq<char>| (n, self.min_slots() as nat),
                ),
                all == normal + mins,
                grants_view(out@) == nonzero(all.take(normal.len() + j)),
            decreases safe@.len() - j,
        {
            assert(safe_names[j as int] == safe@[j as int]@);
            let ghost at = normal.len() + j;
            assert(all.take(at + 1).drop_last() =~= all.take(at));
            assert(all.take(at + 1).last() == mins[j as int]);
            if self.min_guarantee_slots > 0 {
                let ghost before = grants_view(out@);
                let name = safe[j].clone();
                out.push((name, self.min_guarantee_slots));
                assert(grants_view(out@) =~= before.push(
                    (name@, self.min_slots() as nat),
                ));
            }
            j = j + 1;
        }
        assert(all.take(normal.len() + j) =~= all);
        out
    }

    /// Where the tenant with the highest backlog stands first.
    fn top_backlog(&self, names: &Vec<String>) -> (r: usize)
        requires
            self.wf(),
            forall|i: int|
                0 <= i < names@.len() ==> self@.contains_key(
                    #[trigger] enqueue::texts(names@)[i],
                ),
        ensures
            names@.len() > 0 ==> r == first_largest(ratios(self@, enqueue::texts(names@))),
            names@.len() > 0 ==> r < names@.len(),
    {
        let ghost ns = enqueue::texts(names@);
        let ghost rs = ratios(self@, ns);
        if names.len() == 0 {
            return 0;
        }
        let mut best: usize = 0;
        assert(ns[0] == names@[0]@ && self@.contains_key(ns[0]));
        let mut best_place: i64 = fraction::rank_of(self.ratio_of(names[0].as_str()));
        let mut i: usize = 1;
        assert(rs.take(1).len() == 1);
        while i < names.len()
            invariant
                self.wf(),
                1 <= i <= names@.len(),
                ns == enqueue::texts(names@),
                rs == ratios(self@, ns),
                forall|k: int| 0 <= k < ns.len() ==> self@.contains_key(#[trigger] ns[k]),
                best < i,
                best == first_largest(rs.take(i as int)),
                best_place == fraction::rank(rs[best as int]),
            decreases names@.len() - i,
        {
            assert(ns[i as int] == names@[i as int]@ && self@.contains_key(ns[i as int]));
            let ratio: u64 = self.ratio_of(names[i].as_str());
            assert(rs.take(i + 1).drop_last() =~= rs.take(i as int));
            assert(rs.take(i + 1).last() == rs[i as int]);
            let place: i64 = fraction::rank_of(ratio);
            if place > best_place {
                best = i;
                best_place = place;
            }
            i = i + 1;
        }
        assert(rs.take(i as int) =~= rs);
        best
    }

    /// A known tenant's backlog ratio.
    fn ratio_of(&self, name: &str) -> (r: u64)
        requires
            self.wf(),
            self@.contains_key(name@),
        ensures
            r == self@[name@].stats.backlog_ratio,
    {
        match self.tenants.get(name) {
            Some(t) => t.stats.backlog_ratio,
            None => 0,
        }
    }

    /// A tenant's traffic.
    pub fn snapshot(&self, tenant_id: &str) -> (r: Option<TenantStats>)
        requires
            self.wf(),
        ensures
            r is Some <==> self@.contains_key(tenant_id@),
            r matches Some(s) ==> s@ == self@[tenant_id@].stats,
    {
        match self.tenants.get(tenant_id) {
            None => None,
            Some(t) => Some(t.stats.clone()),
        }
    }

    /// The traffic of all tenants, in the order in which they are walked.
    pub fn all_snapshots(&self) -> (r: Vec<TenantStats>)
        requires
            self.wf(),
        ensures
            r@.len() == self.order().len(),
            forall|i: int|
                0 <= i < r@.len() ==> (#[trigger] r@[i])@ == self@[self.order()[i]].stats,
    {
        let mut r: Vec<TenantStats> = Vec::new();
        let n: usize = self.tenants.len();
        let mut i: usize = 0;
        while i < n
            invariant
                self.wf(),
                0 <= i <= n,
                n == self.order().len(),
                r@.len() == i,
                forall|k: int|
                    0 <= k < i ==> (#[trigger] r@[k])@ == self@[self.order()[k]].stats,
            decreases n - i,
        {
            proof {
                self.tenants.lemma_order();
                assert(self.tenants@.contains_key(self.order()[i as int]));
            }
            r.push(self.tenants.value_at(i).stats.clone());
            i = i + 1;
        }
        r
    }
}

impl Default for StatsCollector {
    fn default() -> (r: Self)
        ensures
            r.wf(),
            r@ == Map::<Seq<char>, TallyView>::empty(),
            r.order() == Seq::<Seq<char>>::empty(),
            r.min_slots() == 5,
    {
        StatsCollector::new()
    }
}

/// A cycle can be counted for a tenant.
pub open spec fn countable(t: TallyView) -> bool {
    t.stats.stats_version < u64::MAX && t.counters.ack_count + t.counters.nack_count <= u64::MAX
}

/// A cycle can be counted for all tenants.
pub open spec fn cycles_fit(m: Map<Seq<char>, TallyView>) -> bool {
    forall|k: Seq<char>| #[trigger] m.contains_key(k) ==> countable(m[k])
}

/// What is left of a budget.
fn left_over(budget: usize, shares: &Vec<usize>) -> (r: usize)
    ensures
        r == left_of(budget as nat, numbers(shares@)),
{
    let ghost nums = numbers(shares@);
    let mut left: usize = budget;
    let mut i: usize = 0;
    assert(nums.take(0) =~= Seq::<nat>::empty());
    while i < shares.len()
        invariant
            0 <= i <= shares@.len(),
            nums == numbers(shares@),
            left == left_of(budget as nat, nums.take(i as int)),
        decreases shares@.len() - i,
    {
        assert(nums[i as int] == shares@[i as int]);
        assert(nums.take(i + 1).drop_last() =~= nums.take(i as int));
        assert(nums.take(i + 1).last() == nums[i as int]);
        left = left.saturating_sub(shares[i]);
        i = i + 1;
    }
    assert(nums.take(i as int) =~= nums);
    left
}

/// A single number is no more than all together.
proof fn lemma_part_of_total(v: Seq<nat>, i: int)
    requires
        0 <= i < v.len(),
    ensures
        v[i] <= total_of(v),
    decreases v.len(),
{
    if i < v.len() - 1 {
        lemma_part_of_total(v.drop_last(), i);
    }
}

/// Chosen names come from the names.
pub proof fn lemma_chosen_from(
    m: Map<Seq<char>, TallyView>,
    names: Seq<Seq<char>>,
    now: u64,
    want: bool,
)
    ensures
        forall|k: Seq<char>| #[trigger]
            chosen(m, names, now, want).contains(k) <==> names.contains(k) && protected(
                m[k].stats,
                now,
            ) == want,
        forall|i: int|
            0 <= i < chosen(m, names, now, want).len() ==> names.contains(
                #[trigger] chosen(m, names, now, want)[i],
            ),
    decreases names.len(),
{
    if names.len() > 0 {
        let rest = names.drop_last();
        lemma_chosen_from(m, rest, now, want);
        let before = chosen(m, rest, now, want);
        let all = chosen(m, names, now, want);
        assert forall|k: Seq<char>| #[trigger] all.contains(k) <==> names.contains(k) && protected(
            m[k].stats,
            now,
        ) == want by {
            if all.contains(k) {
                let j = choose|j: int| 0 <= j < all.len() && all[j] == k;
                if j < before.len() {
                    assert(before[j] == k);
                    assert(before.contains(k));
                    let i = choose|i: int| 0 <= i < rest.len() && rest[i] == k;
                    assert(names[i] == k);
                } else {
                    assert(names[names.len() - 1] == k);
                }
            }
            if names.contains(k) && protected(m[k].stats, now) == want {
                let i = choose|i: int| 0 <= i < names.len() && names[i] == k;
                if i < rest.len() {
                    assert(rest[i] == k);
                    assert(before.contains(k));
                    let j = choose|j: int| 0 <= j < before.len() && before[j] == k;
                    assert(all[j] == k);
                } else {
                    assert(all[all.len() - 1] == k);
                }
            }
        }
        assert forall|i: int| 0 <= i < all.len() implies names.contains(#[trigger] all[i]) by {
            assert(all.contains(all[i]));
        }
    }
}

/// A grant of some slots is among those that are left.
proof fn lemma_nonzero_keeps(gs: Seq<Grant>, i: int)
    requires
        0 <= i < gs.len(),
        gs[i].1 > 0,
    ensures
        nonzero(gs).contains(gs[i]),
    decreases gs.len(),
{
    let rest = gs.drop_last();
    if i < rest.len() {
        lemma_nonzero_keeps(rest, i);
        assert(rest[i] == gs[i]);
        let j = choose|j: int| 0 <= j < nonzero(rest).len() && nonzero(rest)[j] == gs[i];
        assert(nonzero(gs)[j] == gs[i]);
    } else {
        assert(nonzero(gs).last() == gs[i]);
        assert(nonzero(gs)[nonzero(gs).len() - 1] == gs[i]);
    }
}

/// In every round that has a slot, new and dormant tenants get their minimum,
/// whatever their history and the others' shares.
pub proof fn law_protected_tenants_served(
    m: Map<Seq<char>, TallyView>,
    order: Seq<Seq<char>>,
    total: nat,
    min_slots: nat,
    now: u64,
    shares: Option<Seq<nat>>,
    name: Seq<char>,
)
    requires
        total > 0,
        min_slots > 0,
        order.contains(name),
        protected(m[name].stats, now),
    ensures
        granted(m, order, total, min_slots, now, shares).contains((name, min_slots)),
{
    let safe = chosen(m, order, now, true);
    let rest = chosen(m, order, now, false);
    let budget = (total - protected_budget(total, min_slots, safe.len())) as nat;
    let normal = normal_grants(m, rest, budget, shares);
    let mins = safe.map_values(|n: Seq<char>| (n, min_slots));
    let all = normal + mins;
    lemma_chosen_from(m, order, now, true);
    assert(safe.contains(name));
    let i = choose|i: int| 0 <= i < safe.len() && safe[i] == name;
    assert(all[normal.len() + i] == (name, min_slots));
    lemma_nonzero_keeps(all, normal.len() + i);
}

/// The slots of grants, together.
pub open spec fn grant_sum(gs: Seq<Grant>) -> nat
    decreases gs.len(),
{
    if gs.len() == 0 {
        0
    } else {
        grant_sum(gs.drop_last()) + gs.last().1
    }
}

/// The numbers of grants add up as the grants do.
proof fn lemma_grant_sum(
    m: Map<Seq<char>, TallyView>,
    names: Seq<Seq<char>>,
    budget: nat,
    ss: Seq<nat>,
    n: int,
)
    requires
        ss.len() == names.len(),
        0 <= n <= names.len(),
    ensures
        grant_sum(normal_grants(m, names, budget, Some(ss)).take(n)) == total_of(ss.take(n)) + (
        if first_largest(ratios(m, names)) < n {
            left_of(budget, ss)
        } else {
            0
        }),
    decreases n,
{
    let gs = normal_grants(m, names, budget, Some(ss));
    lemma_first_largest_bound(ratios(m, names));
    if n > 0 {
        lemma_grant_sum(m, names, budget, ss, n - 1);
        assert(gs.take(n).drop_last() =~= gs.take(n - 1));
        assert(ss.take(n).drop_last() =~= ss.take(n - 1));
        assert(gs.take(n).last() == gs[n - 1]);
    } else {
        assert(gs.take(0).len() == 0);
        assert(ss.take(0).len() == 0);
    }
}

/// The largest number stands at a place of the list.
proof fn lemma_first_largest_bound(v: Seq<u64>)
    ensures
        0 <= first_largest(v),
        v.len() > 0 ==> first_largest(v) < v.len(),
        forall|i: int|
            0 <= i < v.len() ==> fraction::rank(#[trigger] v[i]) <= fraction::rank(
                v[first_largest(v)],
            ),
    decreases v.len(),
{
    if v.len() > 1 {
        let rest = v.drop_last();
        lemma_first_largest_bound(rest);
        assert forall|i: int| 0 <= i < v.len() implies fraction::rank(#[trigger] v[i])
            <= fraction::rank(v[first_largest(v)]) by {
            if i < rest.len() {
                assert(rest[i] == v[i]);
            }
        }
    }
}

/// Where shares do not exceed the budget, the unprotected tenants get exactly
/// the budget together: nothing is lost to rounding.
pub proof fn law_budget_used_up(
    m: Map<Seq<char>, TallyView>,
    names: Seq<Seq<char>>,
    budget: nat,
    ss: Seq<nat>,
)
    requires
        names.len() > 0,
        ss.len() == names.len(),
        total_of(ss) <= budget,
    ensures
        grant_sum(normal_grants(m, names, budget, Some(ss))) == budget,
{
    let gs = normal_grants(m, names, budget, Some(ss));
    lemma_first_largest_bound(ratios(m, names));
    lemma_grant_sum(m, names, budget, ss, names.len() as int);
    assert(gs.take(names.len() as int) =~= gs);
    assert(ss.take(names.len() as int) =~= ss);
}

/// Tenants are chosen once each where they are named once each.
proof fn lemma_chosen_once(
    m: Map<Seq<char>, TallyView>,
    names: Seq<Seq<char>>,
    now: u64,
    want: bool,
)
    requires
        names.no_duplicates(),
    ensures
        chosen(m, names, now, want).no_duplicates(),
    decreases names.len(),
{
    if names.len() > 0 {
        let rest = names.drop_last();
        assert forall|i: int, j: int|
            0 <= i < rest.len() && 0 <= j < rest.len() && i != j implies rest[i] != rest[j] by {
            assert(names[i] != names[j]);
        }
        lemma_chosen_once(m, rest, now, want);
        lemma_chosen_from(m, rest, now, want);
        let before = chosen(m, rest, now, want);
        let all = chosen(m, names, now, want);
        assert(!rest.contains(names.last())) by {
            if rest.contains(names.last()) {
                let k = choose|k: int| 0 <= k < rest.len() && rest[k] == names.last();
                assert(names[k] == names[names.len() - 1]);
            }
        }
        assert forall|i: int, j: int|
            0 <= i < all.len() && 0 <= j < all.len() && i != j implies all[i] != all[j] by {
            if i < before.len() {
                assert(rest.contains(before[i]));
            }
            if j < before.len() {
                assert(rest.contains(before[j]));
            }
        }
    }
}

/// Leaving out grants of no slots goes part by part.
proof fn lemma_nonzero_concat(a: Seq<Grant>, b: Seq<Grant>)
    ensures
        nonzero(a + b) == nonzero(a) + nonzero(b),
    decreases b.len(),
{
    if b.len() == 0 {
        assert(a + b =~= a);
        assert(nonzero(a) + nonzero(b) =~= nonzero(a));
    } else {
        assert((a + b).drop_last() =~= a + b.drop_last());
        assert((a + b).last() == b.last());
        lemma_nonzero_concat(a, b.drop_last());
        assert(nonzero(a + b) =~= nonzero(a) + nonzero(b));
    }
}

/// Grants of some slots all stay.
proof fn lemma_nonzero_all(gs: Seq<Grant>)
    requires
        forall|i: int| 0 <= i < gs.len() ==> (#[trigger] gs[i]).1 > 0,
    ensures
        nonzero(gs) == gs,
    decreases gs.len(),
{
    if gs.len() > 0 {
        let rest = gs.drop_last();
        assert forall|i: int| 0 <= i < rest.len() implies (#[trigger] rest[i]).1 > 0 by {
            assert(rest[i] == gs[i]);
        }
        lemma_nonzero_all(rest);
        assert(rest.push(gs.last()) =~= gs);
    }
}

/// What stays are grants of some slots, in their order, with the same sum.
proof fn lemma_nonzero_part(gs: Seq<Grant>)
    ensures
        grant_sum(nonzero(gs)) == grant_sum(gs),
        forall|i: int|
            0 <= i < nonzero(gs).len() ==> (#[trigger] nonzero(gs)[i]).1 > 0 && gs.contains(
                nonzero(gs)[i],
            ),
        (forall|i: int, j: int|
            0 <= i < j < gs.len() ==> (#[trigger] gs[i]).0 != (#[trigger] gs[j]).0) ==> (forall|
            i: int,
            j: int,
        |
            0 <= i < j < nonzero(gs).len() ==> (#[trigger] nonzero(gs)[i]).0 != (
            #[trigger] nonzero(gs)[j]).0),
    decreases gs.len(),
{
    if gs.len() > 0 {
        let rest = gs.drop_last();
        let before = nonzero(rest);
        let all = nonzero(gs);
        lemma_nonzero_part(rest);
        if gs.last().1 > 0 {
            assert(all.drop_last() =~= before);
        }
        assert forall|i: int| 0 <= i < all.len() implies (#[trigger] all[i]).1 > 0 && gs.contains(
            all[i],
        ) by {
            if i < before.len() {
                assert(all[i] == before[i]);
                let k = choose|k: int| 0 <= k < rest.len() && rest[k] == before[i];
                assert(gs[k] == all[i]);
            } else {
                assert(gs[gs.len() - 1] == all[i]);
            }
        }
        if forall|i: int, j: int|
            0 <= i < j < gs.len() ==> (#[trigger] gs[i]).0 != (#[trigger] gs[j]).0 {
            assert forall|i: int, j: int| 0 <= i < j < rest.len() implies (#[trigger] rest[i]).0
                != (#[trigger] rest[j]).0 by {
                assert(gs[i].0 != gs[j].0);
            }
            assert forall|i: int, j: int| 0 <= i < j < all.len() implies (#[trigger] all[i]).0
                != (#[trigger] all[j]).0 by {
                assert(all[i] == before[i]);
                if j < before.len() {
                    assert(all[j] == before[j]);
                } else {
                    let k = choose|k: int| 0 <= k < rest.len() && rest[k] == before[i];
                    assert(gs[k].0 != gs[gs.len() - 1].0);
                }
            }
        }
    }
}

/// How the slots of a round are divided. Every protected tenant has one grant of
/// the minimum, also where there are fewer slots. The others share what the
/// minimums leave: all of it together where there are shares that do not exceed
/// it, and nothing without shares. No tenant is named twice or gets no slots,
/// and only known tenants are named.
pub proof fn law_slots_divided(
    m: Map<Seq<char>, TallyView>,
    order: Seq<Seq<char>>,
    total: nat,
    min_slots: nat,
    now: u64,
    shares: Option<Seq<nat>>,
)
    requires
        total > 0,
        min_slots > 0,
        order.no_duplicates(),
        shares matches Some(ss) ==> ss.len() == chosen(m, order, now, false).len(),
    ensures
        ({
            let safe = chosen(m, order, now, true);
            let rest = chosen(m, order, now, false);
            let budget = (total - protected_budget(total, min_slots, safe.len())) as nat;
            let outside = nonzero(normal_grants(m, rest, budget, shares));
            let g = granted(m, order, total, min_slots, now, shares);
            &&& g == outside + safe.map_values(|n: Seq<char>| (n, min_slots))
            &&& forall|i: int|
                0 <= i < outside.len() ==> rest.contains((#[trigger] outside[i]).0)
            &&& shares is None ==> outside.len() == 0
            &&& shares matches Some(ss) ==> rest.len() > 0 && total_of(ss) <= budget ==> grant_sum(
                outside,
            ) == budget
            &&& forall|i: int|
                0 <= i < g.len() ==> (#[trigger] g[i]).1 > 0 && order.contains(g[i].0)
            &&& forall|i: int, j: int|
                0 <= i < j < g.len() ==> (#[trigger] g[i]).0 != (#[trigger] g[j]).0
        }),
{
    let safe = chosen(m, order, now, true);
    let rest = chosen(m, order, now, false);
    let budget = (total - protected_budget(total, min_slots, safe.len())) as nat;
    let normal = normal_grants(m, rest, budget, shares);
    let outside = nonzero(normal);
    let mins = safe.map_values(|n: Seq<char>| (n, min_slots));
    let g = granted(m, order, total, min_slots, now, shares);
    lemma_nonzero_concat(normal, mins);
    lemma_nonzero_all(mins);
    lemma_nonzero_part(normal);
    lemma_chosen_once(m, order, now, true);
    lemma_chosen_once(m, order, now, false);
    lemma_chosen_from(m, order, now, true);
    lemma_chosen_from(m, order, now, false);
    assert(g == outside + mins);
    assert forall|i: int, j: int| 0 <= i < j < normal.len() implies (#[trigger] normal[i]).0 != (
    #[trigger] normal[j]).0 by {
        assert(rest[i] != rest[j]);
    }
    assert forall|i: int| 0 <= i < outside.len() implies rest.contains(
        (#[trigger] outside[i]).0,
    ) by {
        let k = choose|k: int| 0 <= k < normal.len() && normal[k] == outside[i];
        assert(rest[k] == outside[i].0);
    }
    if let Some(ss) = shares {
        if rest.len() > 0 && total_of(ss) <= budget {
            law_budget_used_up(m, rest, budget, ss);
        }
    }
    assert forall|i: int| 0 <= i < g.len() implies (#[trigger] g[i]).1 > 0 && order.contains(
        g[i].0,
    ) by {
        if i < outside.len() {
            assert(g[i] == outside[i]);
            assert(rest.contains(outside[i].0));
        } else {
            assert(safe.contains(safe[i - outside.len()]));
        }
    }
    assert forall|i: int, j: int| 0 <= i < j < g.len() implies (#[trigger] g[i]).0 != (
    #[trigger] g[j]).0 by {
        if j < outside.len() {
            assert(g[i] == outside[i] && g[j] == outside[j]);
        } else if i < outside.len() {
            assert(g[i] == outside[i]);
            assert(rest.contains(outside[i].0));
            assert(safe.contains(safe[j - outside.len()]));
        } else {
            assert(safe[i - outside.len()] != safe[j - outside.len()]);
        }
    }
}

/// What is left over goes to the tenant with the highest backlog.
pub proof fn law_leftover_to_highest_backlog(
    m: Map<Seq<char>, TallyView>,
    names: Seq<Seq<char>>,
    budget: nat,
    ss: Seq<nat>,
    i: int,
)
    requires
        ss.len() == names.len(),
        0 <= i < names.len(),
        normal_grants(m, names, budget, Some(ss))[i].1 != ss[i],
    ensures
        forall|k: int|
            0 <= k < names.len() ==> !fraction::above(
                m[#[trigger] names[k]].stats.backlog_ratio,
                m[names[i]].stats.backlog_ratio,
            ),
{
    let rs = ratios(m, names);
    lemma_first_largest_bound(rs);
    assert forall|k: int| 0 <= k < names.len() implies !fraction::above(
        m[#[trigger] names[k]].stats.backlog_ratio,
        m[names[i]].stats.backlog_ratio,
    ) by {
        assert(fraction::rank(rs[k]) <= fraction::rank(rs[first_largest(rs)]));
    }
}

/// A tenant whose share leads another's by what is left over, or by more, gets
/// at least as many slots, whoever gets the leftover.
pub proof fn law_lead_is_kept(
    m: Map<Seq<char>, TallyView>,
    names: Seq<Seq<char>>,
    budget: nat,
    ss: Seq<nat>,
    i: int,
    j: int,
)
    requires
        ss.len() == names.len(),
        0 <= i < names.len(),
        0 <= j < names.len(),
        ss[i] >= ss[j] + left_of(budget, ss),
    ensures
        normal_grants(m, names, budget, Some(ss))[i].1 >= normal_grants(
            m,
            names,
            budget,
            Some(ss),
        )[j].1,
{
}

/// A tenant stays new until a cycle counts an enqueue, and is not new after it.
pub proof fn law_new_until_first_enqueue(t: TallyView, count: u64)
    requires
        t.stats.is_new,
        t.counters.enqueue_count == 0,
    ensures
        refreshed(t).stats.is_new,
        count > 0 ==> !refreshed(with_enqueued(t, count)).stats.is_new,
{
}

/// Totals only grow by what was recorded, and a refresh takes them over.
pub proof fn law_totals_follow_records(t: TallyView, enqueued: u64, acked: u64, latency_ms: u64)
    requires
        t.counters.total_enqueued + enqueued <= u64::MAX,
        t.counters.total_acked + acked <= u64::MAX,
        t.counters.total_nacked < u64::MAX,
        latency_ms * acked <= u64::MAX,
    ensures
        ({
            let s = refreshed(with_nacked(with_acked(with_enqueued(t, enqueued), acked, latency_ms)));
            &&& s.stats.total_enqueued == t.counters.total_enqueued + enqueued
            &&& s.stats.total_acked == t.counters.total_acked + acked
            &&& s.stats.total_nacked == t.counters.total_nacked + 1
        }),
{
}

/// A tenant that has just been registered is new, has no traffic and no counts, and
/// was last seen now.
pub proof fn law_registered_tenant_is_new(tenant_id: Seq<char>, now: u64)
    ensures
        ({
            let t = new_tally(tenant_id, now);
            &&& t.stats.tenant_id == tenant_id
            &&& t.stats.is_new
            &&& t.stats.last_enqueue_at == now && t.stats.last_dequeue_at == now
            &&& t.stats.arrival_rate == 0 && t.stats.processing_rate == 0
                && t.stats.avg_task_latency == 0 && t.stats.burst_score == 0
                && t.stats.backlog_ratio == 0 && t.stats.last_alloc_fraction == 0
            &&& t.stats.total_enqueued == 0 && t.stats.total_acked == 0 && t.stats.total_nacked == 0
                && t.stats.stats_version == 0
            &&& t.counters.enqueue_count == 0 && t.counters.ack_count == 0
                && t.counters.nack_count == 0 && t.counters.latency_sum_ms == 0
                && t.counters.total_enqueued == 0 && t.counters.total_acked == 0
                && t.counters.total_nacked == 0
        }),
{
}

/// Enqueued tasks are counted for the cycle and in all, and nothing else is; counts
/// begin anew after the largest.
pub proof fn law_enqueued_counted(t: TallyView, count: u64)
    ensures
        ({
            let u = with_enqueued(t, count);
            &&& u.counters.enqueue_count == (t.counters.enqueue_count + count)
                % 0x1_0000_0000_0000_0000
            &&& u.counters.total_enqueued == (t.counters.total_enqueued + count)
                % 0x1_0000_0000_0000_0000
            &&& u.counters.ack_count == t.counters.ack_count && u.counters.nack_count
                == t.counters.nack_count && u.counters.latency_sum_ms == t.counters.latency_sum_ms
                && u.counters.total_acked == t.counters.total_acked && u.counters.total_nacked
                == t.counters.total_nacked
            &&& u.stats == t.stats
        }),
{
}

/// Acknowledged tasks are counted for the cycle and in all, each with the time that
/// it took, and nothing else is.
pub proof fn law_acked_counted(t: TallyView, count: u64, latency_ms: u64)
    requires
        latency_ms * count <= u64::MAX,
    ensures
        ({
            let u = with_acked(t, count, latency_ms);
            &&& u.counters.ack_count == (t.counters.ack_count + count) % 0x1_0000_0000_0000_0000
            &&& u.counters.total_acked == (t.counters.total_acked + count)
                % 0x1_0000_0000_0000_0000
            &&& u.counters.latency_sum_ms == (t.counters.latency_sum_ms + latency_ms * count)
                % 0x1_0000_0000_0000_0000
            &&& u.counters.enqueue_count == t.counters.enqueue_count && u.counters.nack_count
                == t.counters.nack_count && u.counters.total_enqueued == t.counters.total_enqueued
                && u.counters.total_nacked == t.counters.total_nacked
            &&& u.stats == t.stats
        }),
{
}

/// A task that is given back is counted for the cycle and in all, and nothing else
/// is.
pub proof fn law_nacked_counted(t: TallyView)
    ensures
        ({
            let u = with_nacked(t);
            &&& u.counters.nack_count == (t.counters.nack_count + 1) % 0x1_0000_0000_0000_0000
            &&& u.counters.total_nacked == (t.counters.total_nacked + 1)
                % 0x1_0000_0000_0000_0000
            &&& u.counters.enqueue_count == t.counters.enqueue_count && u.counters.ack_count
                == t.counters.ack_count && u.counters.latency_sum_ms == t.counters.latency_sum_ms
                && u.counters.total_enqueued == t.counters.total_enqueued && u.counters.total_acked
                == t.counters.total_acked
            &&& u.stats == t.stats
        }),
{
}

/// The end of a cycle: the counts of the cycle start over, the totals go on and are
/// told, the version grows, a tenant is new no more once it has enqueued, and its
/// rates and its times stay.
pub proof fn law_cycle_ends(t: TallyView)
    requires
        t.stats.stats_version < u64::MAX,
    ensures
        ({
            let u = refreshed(t);
            &&& u.counters.enqueue_count == 0 && u.counters.ack_count == 0 && u.counters.nack_count
                == 0 && u.counters.latency_sum_ms == 0
            &&& u.counters.total_enqueued == t.counters.total_enqueued && u.counters.total_acked
                == t.counters.total_acked && u.counters.total_nacked == t.counters.total_nacked
            &&& u.stats.total_enqueued == t.counters.total_enqueued && u.stats.total_acked
                == t.counters.total_acked && u.stats.total_nacked == t.counters.total_nacked
            &&& u.stats.stats_version == t.stats.stats_version + 1
            &&& u.stats.is_new <==> t.stats.is_new && t.counters.enqueue_count == 0
            &&& u.stats.tenant_id == t.stats.tenant_id && u.stats.arrival_rate
                == t.stats.arrival_rate && u.stats.processing_rate == t.stats.processing_rate
                && u.stats.avg_task_latency == t.stats.avg_task_latency && u.stats.burst_score
                == t.stats.burst_score && u.stats.backlog_ratio == t.stats.backlog_ratio
                && u.stats.last_enqueue_at == t.stats.last_enqueue_at && u.stats.last_dequeue_at
                == t.stats.last_dequeue_at && u.stats.last_alloc_fraction
                == t.stats.last_alloc_fraction
        }),
{
}

/// A cycle tells what was counted since the last: what was enqueued and acknowledged,
/// what was settled one way or the other, and the time that it took.
pub proof fn law_cycle_tells(c: Cycle, name: Seq<char>, t: TallyView)
    requires
        is_cycle(c, name, t),
    ensures
        c.tenant_id@ == name,
        c.enqueued == t.counters.enqueue_count,
        c.acked == t.counters.ack_count,
        c.processed - t.counters.nack_count == t.counters.ack_count,
        c.latency_sum_ms == t.counters.latency_sum_ms,
{
}

/// A kept record brings a tenant's traffic and totals back; the tenant is new no
/// more, and what was counted since stays.
pub proof fn law_kept_traffic_taken_over(t: TallyView, p: PersistedStatsView)
    ensures
        ({
            let u = warmed(t, p);
            &&& u.stats.arrival_rate == p.arrival_rate && u.stats.processing_rate
                == p.processing_rate && u.stats.avg_task_latency == p.avg_task_latency
                && u.stats.burst_score == p.burst_score && u.stats.backlog_ratio == p.backlog_ratio
            &&& u.stats.total_enqueued == p.total_enqueued && u.stats.total_acked == p.total_acked
                && u.stats.total_nacked == p.total_nacked && u.stats.stats_version
                == p.stats_version
            &&& !u.stats.is_new
            &&& u.stats.tenant_id == t.stats.tenant_id && u.stats.last_enqueue_at
                == t.stats.last_enqueue_at && u.stats.last_dequeue_at == t.stats.last_dequeue_at
                && u.stats.last_alloc_fraction == t.stats.last_alloc_fraction
            &&& u.counters == t.counters
        }),
{
}

/// Kept records are taken over one after the other, none is left out; one of a
/// tenant that is not known changes nothing.
pub proof fn law_records_taken_over_in_turn(
    m: Map<Seq<char>, TallyView>,
    x: Seq<PersistedStatsView>,
    y: Seq<PersistedStatsView>,
    p: PersistedStatsView,
)
    ensures
        warmed_all(m, x + y) == warmed_all(warmed_all(m, x), y),
        warmed_all(m, Seq::empty()) == m,
        m.contains_key(p.tenant_id) ==> warmed_all(m, seq![p]) == m.insert(
            p.tenant_id,
            warmed(m[p.tenant_id], p),
        ),
        !m.contains_key(p.tenant_id) ==> warmed_all(m, seq![p]) == m,
    decreases y.len(),
{
    assert(seq![p].drop_last() =~= Seq::<PersistedStatsView>::empty());
    reveal_with_fuel(warmed_all, 2);
    if y.len() == 0 {
        assert(x + y =~= x);
    } else {
        law_records_taken_over_in_turn(m, x, y.drop_last(), p);
        assert((x + y).drop_last() =~= x + y.drop_last());
    }
}

/// Who is served whatever its history says: a tenant that is new, and one that was
/// last seen more than thirty seconds ago.
pub proof fn law_who_is_protected(
    m: Map<Seq<char>, TallyView>,
    names: Seq<Seq<char>>,
    now: u64,
    name: Seq<char>,
)
    ensures
        ({
            let s = m[name].stats;
            let safe = s.is_new || now - s.last_enqueue_at > 30_000_000_000;
            &&& chosen(m, names, now, true).contains(name) <==> names.contains(name) && safe
            &&& chosen(m, names, now, false).contains(name) <==> names.contains(name) && !safe
        }),
{
    lemma_chosen_from(m, names, now, true);
    lemma_chosen_from(m, names, now, false);
    let a = chosen(m, names, now, true);
    let b = chosen(m, names, now, false);
    assert(a.contains(name) ==> names.contains(name));
    assert(b.contains(name) ==> names.contains(name));
}

/// Tenants are chosen in the order in which they are walked.
pub proof fn law_chosen_in_order(
    m: Map<Seq<char>, TallyView>,
    x: Seq<Seq<char>>,
    y: Seq<Seq<char>>,
    now: u64,
    want: bool,
)
    ensures
        chosen(m, x + y, now, want) == chosen(m, x, now, want) + chosen(m, y, now, want),
        chosen(m, x, now, true).len() + chosen(m, x, now, false).len() == x.len(),
    decreases y.len(), x.len(),
{
    if x.len() > 0 {
        law_chosen_in_order(m, x.drop_last(), Seq::empty(), now, want);
    }
    if y.len() == 0 {
        assert(x + y =~= x);
        assert(chosen(m, x, now, want) + chosen(m, y, now, want) =~= chosen(m, x, now, want));
    } else {
        law_chosen_in_order(m, x, y.drop_last(), now, want);
        assert((x + y).drop_last() =~= x + y.drop_last());
        assert((x + y).last() == y.last());
        assert(chosen(m, x + y, now, want) =~= chosen(m, x, now, want) + chosen(m, y, now, want));
    }
}

/// What is kept for the protected tenants: their minimum each, and no more than there
/// is.
pub proof fn law_minimum_is_kept_back(total: nat, min_slots: nat, n: nat)
    ensures
        protected_budget(total, min_slots, n) <= total,
        protected_budget(total, min_slots, n) <= min_slots * n,
        protected_budget(total, min_slots, n) == total || protected_budget(total, min_slots, n)
            == min_slots * n,
{
}

/// Every tenant that is not protected gets its share, and the one with the highest
/// backlog, the first of several, what the shares leave of the budget. Without shares
/// nobody gets any.
pub proof fn law_shares_are_given(
    m: Map<Seq<char>, TallyView>,
    names: Seq<Seq<char>>,
    budget: nat,
    ss: Seq<nat>,
    k: int,
)
    requires
        ss.len() == names.len(),
        0 <= k < names.len(),
        forall|j: int|
            0 <= j < names.len() ==> !fraction::is_nan(m[#[trigger] names[j]].stats.backlog_ratio),
    ensures
        normal_grants(m, names, budget, None).len() == 0,
        normal_grants(m, names, budget, Some(ss)).len() == names.len(),
        normal_grants(m, names, budget, Some(ss))[k].0 == names[k],
        ({
            let most = m[names[k]].stats.backlog_ratio;
            let top = (forall|j: int|
                0 <= j < names.len() ==> !fraction::above(
                    m[#[trigger] names[j]].stats.backlog_ratio,
                    most,
                )) && (forall|j: int|
                0 <= j < k ==> fraction::above(most, m[#[trigger] names[j]].stats.backlog_ratio));
            let got = normal_grants(m, names, budget, Some(ss))[k].1;
            &&& !top ==> got == ss[k]
            &&& top && total_of(ss) <= budget ==> got == ss[k] + (budget - total_of(ss))
            &&& top && total_of(ss) > budget ==> got == ss[k]
        }),
{
    let rs = ratios(m, names);
    lemma_first_largest_bound(rs);
    lemma_first_largest_first(rs);
    let f = first_largest(rs);
    assert(rs[k] == m[names[k]].stats.backlog_ratio);
    assert(rs[f] == m[names[f]].stats.backlog_ratio);
    if k == f {
        assert forall|j: int| 0 <= j < names.len() implies !fraction::above(
            m[#[trigger] names[j]].stats.backlog_ratio,
            m[names[k]].stats.backlog_ratio,
        ) by {
            assert(fraction::rank(rs[j]) <= fraction::rank(rs[f]));
        }
        assert forall|j: int| 0 <= j < k implies fraction::above(
            m[names[k]].stats.backlog_ratio,
            m[#[trigger] names[j]].stats.backlog_ratio,
        ) by {
            assert(fraction::rank(rs[j]) < fraction::rank(rs[f]));
        }
    } else if k < f {
        assert(fraction::rank(rs[k]) < fraction::rank(rs[f]));
        assert(fraction::above(m[names[f]].stats.backlog_ratio, m[names[k]].stats.backlog_ratio));
    } else {
        assert(fraction::rank(rs[k]) <= fraction::rank(rs[f]));
        assert(!fraction::above(
            m[names[k]].stats.backlog_ratio,
            m[names[f]].stats.backlog_ratio,
        ));
    }
}

/// What stands before the first of the largest is smaller.
proof fn lemma_first_largest_first(v: Seq<u64>)
    ensures
        forall|i: int|
            0 <= i < first_largest(v) ==> fraction::rank(#[trigger] v[i]) < fraction::rank(
                v[first_largest(v)],
            ),
    decreases v.len(),
{
    if v.len() > 1 {
        let rest = v.drop_last();
        lemma_first_largest_first(rest);
        lemma_first_largest_bound(rest);
        assert forall|i: int| 0 <= i < first_largest(v) implies fraction::rank(#[trigger] v[i])
            < fraction::rank(v[first_largest(v)]) by {
            assert(rest[i] == v[i]);
            assert(fraction::rank(rest[i]) <= fraction::rank(rest[first_largest(rest)]));
        }
    }
}

/// Who gets no slots is left out, and nobody else is; the others keep their order.
pub proof fn law_empty_grants_left_out(x: Seq<Grant>, y: Seq<Grant>, g: Grant)
    ensures
        nonzero(x + y) == nonzero(x) + nonzero(y),
        g.1 > 0 ==> nonzero(seq![g]) == seq![g],
        g.1 == 0 ==> nonzero(seq![g]).len() == 0,
        nonzero(Seq::empty()).len() == 0,
{
    assert(seq![g].drop_last() =~= Seq::<Grant>::empty());
    reveal_with_fuel(nonzero, 2);
    if g.1 > 0 {
        assert(nonzero(seq![g]) =~= seq![g]);
    }
    lemma_nonzero_concat(x, y);
}

/// A round as a whole: without slots nobody gets any. Else the protected tenants get
/// the minimum each, behind the others, who share what is left of the slots once
/// the minimum of each protected tenant is kept back.
pub proof fn law_round_of_slots(
    m: Map<Seq<char>, TallyView>,
    order: Seq<Seq<char>>,
    total: nat,
    min_slots: nat,
    now: u64,
    shares: Option<Seq<nat>>,
)
    requires
        min_slots > 0,
    ensures
        total == 0 ==> granted(m, order, total, min_slots, now, shares).len() == 0,
        total > 0 ==> {
            let safe = chosen(m, order, now, true);
            let rest = chosen(m, order, now, false);
            let kept = min_slots * safe.len();
            let budget = if kept <= total {
                (total - kept) as nat
            } else {
                0
            };
            let g = granted(m, order, total, min_slots, now, shares);
            let others = nonzero(normal_grants(m, rest, budget, shares));
            &&& g.len() == others.len() + safe.len()
            &&& forall|i: int| 0 <= i < others.len() ==> #[trigger] g[i] == others[i]
            &&& forall|i: int|
                0 <= i < safe.len() ==> g[others.len() + i].0 == #[trigger] safe[i] && g[others.len()
                    + i].1 == min_slots
        },
{
    if total > 0 {
        let safe = chosen(m, order, now, true);
        let rest = chosen(m, order, now, false);
        let budget = (total - protected_budget(total, min_slots, safe.len())) as nat;
        let normal = normal_grants(m, rest, budget, shares);
        let mins = safe.map_values(|n: Seq<char>| (n, min_slots));
        law_empty_grants_left_out(normal, mins, (Seq::empty(), 0));
        lemma_nonzero_all(mins);
    }
}

/// Shares add up one by one.
pub proof fn law_shares_add_up(x: Seq<nat>, n: nat)
    ensures
        total_of(Seq::empty()) == 0,
        total_of(x.push(n)) == total_of(x) + n,
{
    assert(x.push(n).drop_last() =~= x);
}

/// The share of a backlog is that of the waiting tasks among the waiting and the leased
/// ones, so it is never more than the whole; without tasks there is none.
pub proof fn law_backlog_is_what_waits(pending: usize, inflight: usize)
    requires
        pending + inflight <= usize::MAX,
    ensures
        waiting_share(pending, inflight) is Some <==> pending > 0 || inflight > 0,
        waiting_share(pending, inflight) matches Some((part, whole)) ==> part == pending && whole
            - part == inflight,
{
}

/// Rates and the backlog ratio are noted each in its place; what was counted, whether the
/// tenant is new and when it was last seen stay.
pub proof fn law_rates_noted(t: TallyView, arrival: u64, processing: u64, latency: u64, burst: u64)
    ensures
        ({
            let a = with_rates(t, arrival, processing, latency, burst);
            &&& a.stats.arrival_rate == arrival && a.stats.processing_rate == processing
            &&& a.stats.avg_task_latency == latency && a.stats.burst_score == burst
            &&& a.stats.backlog_ratio == t.stats.backlog_ratio
            &&& a.counters == t.counters && a.stats.tenant_id == t.stats.tenant_id
                && a.stats.is_new == t.stats.is_new && a.stats.last_enqueue_at
                == t.stats.last_enqueue_at && a.stats.last_dequeue_at == t.stats.last_dequeue_at
                && a.stats.stats_version == t.stats.stats_version && a.stats.total_enqueued
                == t.stats.total_enqueued && a.stats.total_acked == t.stats.total_acked
                && a.stats.total_nacked == t.stats.total_nacked && a.stats.last_alloc_fraction
                == t.stats.last_alloc_fraction
        }),
        with_backlog(t, burst).stats.backlog_ratio == burst,
        with_backlog(with_backlog(t, burst), t.stats.backlog_ratio) == t,
        with_backlog(with_rates(t, arrival, processing, latency, burst), processing) == with_rates(
            with_backlog(t, processing),
            arrival,
            processing,
            latency,
            burst,
        ),
{
}

} // verus!
