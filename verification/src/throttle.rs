//! Slowing down tenants whose traffic disturbs the others, and letting them go
//! again.
//!
//! Scores, ratios and rates of traffic are fractions. They are kept here as bit
//! patterns, which are compared as the numbers that they stand for; computing
//! with them is left to the caller.

use vstd::prelude::*;

use crate::baseline::{BaselineRegistry, BaselineView};
use crate::error::QueueError;
use crate::fraction;
use crate::scheduler::{SchedulerView, SharePolicy, Standing, WFQScheduler};
use crate::stats_store;
use crate::stats_store::{PersistedThrottle, StatsStore, ThrottleView};
use crate::store::{Batch, BatchView};
use crate::tenant_map::TenantMap;

verus! {

/// When tenants are slowed down, and by how much.
#[derive(Debug, Clone, Copy, PartialEq, Eq, Structural)]
pub struct ThrottleConfig {
    /// The pattern of the burst score above which a tenant is slowed down.
    pub burst_threshold: u64,
    /// The pattern of the factor of a spike.
    pub rate_spike_factor: u64,
    /// The pattern of the backlog ratio above which a tenant is slowed down.
    pub backlog_threshold: u64,
    /// The pattern of the factor by which a tenant is slowed down.
    pub reduction_factor: u64,
    /// No tenant is slowed down below this rate.
    pub min_rate_floor: u32,
    /// How long a tenant is slowed down at least.
    pub cooldown_secs: u64,
    pub baseline_window_secs: u64,
}

/// The usual configuration: the patterns are those of 5, 3, 0.85 and 0.25.
pub open spec fn default_config() -> ThrottleConfig {
    ThrottleConfig {
        burst_threshold: 0x4014_0000_0000_0000,
        rate_spike_factor: 0x4008_0000_0000_0000,
        backlog_threshold: 0x3feb_3333_3333_3333,
        reduction_factor: 0x3fd0_0000_0000_0000,
        min_rate_floor: 5,
        cooldown_secs: 30,
        baseline_window_secs: 300,
    }
}

impl Default for ThrottleConfig {
    fn default() -> (r: Self)
        ensures
            r == default_config(),
    {
        ThrottleConfig {
            burst_threshold: 0x4014_0000_0000_0000,
            rate_spike_factor: 0x4008_0000_0000_0000,
            backlog_threshold: 0x3feb_3333_3333_3333,
            reduction_factor: 0x3fd0_0000_0000_0000,
            min_rate_floor: 5,
            cooldown_secs: 30,
            baseline_window_secs: 300,
        }
    }
}

/// How a tenant is slowed down.
#[derive(Debug)]
pub struct ThrottleState {
    pub tenant_id: String,
    pub throttled: bool,
    pub reason: String,
    pub original_rate: u32,
    pub applied_rate: u32,
    pub triggered_at_ms: u64,
    pub cooldown_until_ms: u64,
}

impl View for ThrottleState {
    type V = ThrottleView;

    open spec fn view(&self) -> ThrottleView {
        ThrottleView {
            tenant_id: self.tenant_id@,
            throttled: self.throttled,
            reason: self.reason@,
            original_rate: self.original_rate,
            applied_rate: self.applied_rate,
            triggered_at_ms: self.triggered_at_ms,
            cooldown_until_ms: self.cooldown_until_ms,
        }
    }
}

impl Clone for ThrottleState {
    fn clone(&self) -> (r: Self)
        ensures
            r@ == self@,
    {
        ThrottleState {
            tenant_id: self.tenant_id.clone(),
            throttled: self.throttled,
            reason: self.reason.clone(),
            original_rate: self.original_rate,
            applied_rate: self.applied_rate,
            triggered_at_ms: self.triggered_at_ms,
            cooldown_until_ms: self.cooldown_until_ms,
        }
    }
}

/// What is known of a tenant when it is judged.
#[derive(Debug)]
pub struct Reading {
    pub tenant_id: String,
    pub burst_score: u64,
    pub backlog_ratio: u64,
    pub arrival_rate: u64,
    /// The rate below which the tenant may be let go.
    pub rate_below: u64,
    /// The tenant's rate times the reduction factor.
    pub scaled_rate: u32,
    /// The tenant's bound on leases times the reduction factor.
    pub scaled_inflight: usize,
}

/// What is known of a tenant, as a mathematical value.
#[verifier::ext_equal]
pub struct ReadingView {
    pub tenant_id: Seq<char>,
    pub burst_score: u64,
    pub backlog_ratio: u64,
    pub arrival_rate: u64,
    pub rate_below: u64,
    pub scaled_rate: u32,
    pub scaled_inflight: usize,
}

impl View for Reading {
    type V = ReadingView;

    open spec fn view(&self) -> ReadingView {
        ReadingView {
            tenant_id: self.tenant_id@,
            burst_score: self.burst_score,
            backlog_ratio: self.backlog_ratio,
            arrival_rate: self.arrival_rate,
            rate_below: self.rate_below,
            scaled_rate: self.scaled_rate,
            scaled_inflight: self.scaled_inflight,
        }
    }
}

/// Below which score and ratio a tenant may be let go.
#[derive(Debug, Clone, Copy, PartialEq, Eq, Structural)]
pub struct CalmBounds {
    pub burst_below: u64,
    pub backlog_below: u64,
}

/// What throttling works on: the throttles, where the tenants stand, and the
/// writes so far.
#[verifier::ext_equal]
pub struct Scene {
    pub states: Map<Seq<char>, ThrottleView>,
    pub tenants: Map<Seq<char>, Standing>,
    pub writes: Seq<BatchView>,
}

/// The rate is above what is normal for the tenant.
pub open spec fn spiking(baselines: Map<Seq<char>, BaselineView>, r: ReadingView) -> bool {
    baselines.contains_key(r.tenant_id) && fraction::above(
        r.arrival_rate,
        baselines[r.tenant_id].spike_threshold,
    )
}

/// The tenant disturbs the others.
pub open spec fn disturbs(
    c: ThrottleConfig,
    baselines: Map<Seq<char>, BaselineView>,
    r: ReadingView,
) -> bool {
    fraction::above(r.burst_score, c.burst_threshold) || fraction::above(
        r.backlog_ratio,
        c.backlog_threshold,
    ) || spiking(baselines, r)
}

/// Why a tenant is slowed down.
pub open spec fn reason_of(c: ThrottleConfig, r: ReadingView) -> Seq<char> {
    if fraction::above(r.burst_score, c.burst_threshold) {
        "burst_score_exceeded"@
    } else if fraction::above(r.backlog_ratio, c.backlog_threshold) {
        "backlog_threshold_exceeded"@
    } else {
        "rate_spike_detected"@
    }
}

/// The larger of two numbers.
pub open spec fn larger(a: u32, b: u32) -> u32 {
    if a >= b {
        a
    } else {
        b
    }
}

/// The throttle of a tenant.
pub open spec fn throttle_of(
    c: ThrottleConfig,
    r: ReadingView,
    original_rate: u32,
    now: u64,
) -> ThrottleView {
    ThrottleView {
        tenant_id: r.tenant_id,
        throttled: true,
        reason: reason_of(c, r),
        original_rate,
        applied_rate: larger(r.scaled_rate, c.min_rate_floor),
        triggered_at_ms: now,
        cooldown_until_ms: (now + c.cooldown_secs * 1000) as u64,
    }
}

/// The policy of a tenant with a rate, and a bucket as large as the rate.
pub open spec fn at_rate(p: SharePolicy, rate: u32, burst: u32) -> SharePolicy {
    SharePolicy { rate_per_sec: rate, burst_tokens: burst, ..p }
}

/// The scene after a tenant was slowed down; a tenant that the scheduler does
/// not know is left alone.
pub open spec fn slowed(s: Scene, c: ThrottleConfig, r: ReadingView, now: u64) -> Scene {
    if !s.tenants.contains_key(r.tenant_id) {
        s
    } else {
        let st = s.tenants[r.tenant_id];
        let t = throttle_of(c, r, st.policy.rate_per_sec, now);
        Scene {
            states: s.states.insert(r.tenant_id, t),
            tenants: s.tenants.insert(
                r.tenant_id,
                Standing {
                    policy: SharePolicy {
                        max_inflight: r.scaled_inflight,
                        ..at_rate(st.policy, t.applied_rate, larger(t.applied_rate, 1))
                    },
                    ..st
                },
            ),
            writes: s.writes.push(
                stats_store::keep("throttle:"@, r.tenant_id, stats_store::throttle_code(t)),
            ),
        }
    }
}

/// The scene after a tenant was let go: it has its rate again, and its throttle
/// is dropped.
pub open spec fn let_go(s: Scene, name: Seq<char>, original_rate: u32) -> Scene {
    Scene {
        states: s.states.remove(name),
        tenants: if s.tenants.contains_key(name) {
            let st = s.tenants[name];
            s.tenants.insert(
                name,
                Standing { policy: at_rate(st.policy, original_rate, original_rate), ..st },
            )
        } else {
            s.tenants
        },
        writes: s.writes.push(stats_store::forget("throttle:"@, name)),
    }
}

/// The tenant may be let go.
pub open spec fn calm(t: ThrottleView, b: CalmBounds, r: ReadingView, now: u64) -> bool {
    now >= t.cooldown_until_ms && fraction::above(b.burst_below, r.burst_score)
        && fraction::above(b.backlog_below, r.backlog_ratio) && fraction::above(
        r.rate_below,
        r.arrival_rate,
    )
}

/// The scene after a tenant was judged.
pub open spec fn judged(
    s: Scene,
    c: ThrottleConfig,
    baselines: Map<Seq<char>, BaselineView>,
    b: CalmBounds,
    r: ReadingView,
    now: u64,
) -> Scene {
    if s.states.contains_key(r.tenant_id) && s.states[r.tenant_id].throttled {
        if calm(s.states[r.tenant_id], b, r, now) {
            let_go(s, r.tenant_id, s.states[r.tenant_id].original_rate)
        } else {
            s
        }
    } else if disturbs(c, baselines, r) {
        slowed(s, c, r, now)
    } else {
        s
    }
}

/// The scene after tenants were judged, one after the other.
pub open spec fn judged_all(
    s: Scene,
    c: ThrottleConfig,
    baselines: Map<Seq<char>, BaselineView>,
    b: CalmBounds,
    rs: Seq<ReadingView>,
    now: u64,
) -> Scene
    decreases rs.len(),
{
    if rs.len() == 0 {
        s
    } else {
        judged(judged_all(s, c, baselines, b, rs.drop_last(), now), c, baselines, b, rs.last(), now)
    }
}

/// The scene after a kept throttle was taken up again: it counts while its
/// cooldown lasts, and is dropped afterwards.
pub open spec fn restored(s: Scene, t: ThrottleView, now: u64) -> Scene {
    if !t.throttled {
        s
    } else if t.cooldown_until_ms > now {
        Scene {
            states: s.states.insert(t.tenant_id, t),
            tenants: if s.tenants.contains_key(t.tenant_id) {
                let st = s.tenants[t.tenant_id];
                s.tenants.insert(
                    t.tenant_id,
                    Standing {
                        policy: at_rate(st.policy, t.applied_rate, larger(t.applied_rate, 1)),
                        ..st
                    },
                )
            } else {
                s.tenants
            },
            ..s
        }
    } else {
        Scene { writes: s.writes.push(stats_store::forget("throttle:"@, t.tenant_id)), ..s }
    }
}

/// The scene after kept throttles were taken up again, one after the other.
pub open spec fn restored_all(s: Scene, ts: Seq<ThrottleView>, now: u64) -> Scene
    decreases ts.len(),
{
    if ts.len() == 0 {
        s
    } else {
        restored(restored_all(s, ts.drop_last(), now), ts.last(), now)
    }
}

/// The scene that a throttle, a scheduler and writes make.
pub open spec fn scene(
    states: Map<Seq<char>, ThrottleView>,
    tenants: Map<Seq<char>, Standing>,
    writes: Seq<BatchView>,
) -> Scene {
    Scene { states, tenants, writes }
}

/// The tenants that are slowed down.
pub struct AutoThrottle {
    config: ThrottleConfig,
    states: TenantMap<ThrottleState>,
}

/// The throttles as a mathematical value.
#[verifier::ext_equal]
pub struct AutoThrottleView {
    pub config: ThrottleConfig,
    pub states: Map<Seq<char>, ThrottleView>,
}

/// Throttles as mathematical values.
pub open spec fn states_view(m: Map<Seq<char>, ThrottleState>) -> Map<Seq<char>, ThrottleView> {
    m.map_values(|t: ThrottleState| t@)
}

impl View for AutoThrottle {
    type V = AutoThrottleView;

    closed spec fn view(&self) -> AutoThrottleView {
        AutoThrottleView { config: self.config, states: states_view(self.states@) }
    }
}

/// Gives a known tenant's policy a rate and a bucket.
fn set_rate(scheduler: &mut WFQScheduler, tenant_id: &str, rate: u32, burst: u32)
    requires
        old(scheduler).wf(),
    ensures
        final(scheduler).wf(),
        final(scheduler)@ == (SchedulerView {
            tenants: if old(scheduler)@.tenants.contains_key(tenant_id@) {
                let st = old(scheduler)@.tenants[tenant_id@];
                old(scheduler)@.tenants.insert(
                    tenant_id@,
                    Standing { policy: at_rate(st.policy, rate, burst), ..st },
                )
            } else {
                old(scheduler)@.tenants
            },
            ..old(scheduler)@
        }),
{
    if let Some(found) = scheduler.policy(tenant_id) {
        proof {
            scheduler.lemma_keyed(tenant_id@);
        }
        let mut policy = found;
        policy.rate_per_sec = rate;
        policy.burst_tokens = burst;
        scheduler.update_policy(policy, 0, 0);
    }
}

impl AutoThrottle {
    /// The map of tenants is in order.
    pub closed spec fn wf(&self) -> bool {
        self.states.wf()
    }

    /// The slowed tenants in the order in which they are walked.
    pub closed spec fn order(&self) -> Seq<Seq<char>> {
        self.states.order()
    }

    /// The tenants that are walked are those that are known, each once.
    pub proof fn lemma_order(&self)
        requires
            self.wf(),
        ensures
            self.order().no_duplicates(),
            forall|k: Seq<char>| #[trigger] self@.states.contains_key(k) <==> self.order().contains(
                k,
            ),
            forall|i: int|
                0 <= i < self.order().len() ==> self@.states.contains_key(#[trigger] self.order()[i]),
    {
        self.states.lemma_order();
        assert forall|k: Seq<char>| #[trigger] self@.states.contains_key(k) <==> self.order().contains(
            k,
        ) by {
            assert(self@.states.contains_key(k) == self.states@.contains_key(k));
        }
        assert forall|i: int| 0 <= i < self.order().len() implies self@.states.contains_key(
            #[trigger] self.order()[i],
        ) by {
            assert(self.states@.contains_key(self.order()[i]));
        }
    }

    /// No tenant is slowed down.
    pub fn new(config: ThrottleConfig) -> (r: Self)
        ensures
            r.wf(),
            r@ == (AutoThrottleView { config, states: Map::empty() }),
    {
        let r = AutoThrottle { config, states: TenantMap::new() };
        assert(r@.states =~= Map::<Seq<char>, ThrottleView>::empty());
        r
    }

    /// The configuration.
    pub fn config(&self) -> (r: ThrottleConfig)
        ensures
            r == self@.config,
    {
        self.config
    }

    /// Puts a tenant's throttle in place of what was there.
    fn put(&mut self, name: &str, t: ThrottleState)
        requires
            old(self).wf(),
        ensures
            final(self).wf(),
            final(self)@ == (AutoThrottleView {
                states: old(self)@.states.insert(name@, t@),
                ..old(self)@
            }),
    {
        self.states.insert(name, t);
        assert(self@.states =~= old(self)@.states.insert(name@, t@));
    }

    /// Takes up kept throttles again, and gives the writes that drop those
    /// whose time is over.
    pub fn restore_from_store(
        &mut self,
        scheduler: &mut WFQScheduler,
        records: &Vec<PersistedThrottle>,
        now: u64,
    ) -> (r: Vec<Batch>)
        requires
            old(self).wf(),
            old(scheduler).wf(),
        ensures
            final(self).wf(),
            final(scheduler).wf(),
            final(self)@.config == old(self)@.config,
            final(scheduler)@.virtual_time == old(scheduler)@.virtual_time,
            scene(
                final(self)@.states,
                final(scheduler)@.tenants,
                stats_store::batches_view(r@),
            ) == restored_all(
                scene(old(self)@.states, old(scheduler)@.tenants, Seq::empty()),
                records@.map_values(|t: PersistedThrottle| t@),
                now,
            ),
    {
        let ghost ts = records@.map_values(|t: PersistedThrottle| t@);
        let ghost start = scene(self@.states, scheduler@.tenants, Seq::empty());
        let mut writes: Vec<Batch> = Vec::new();
        let mut i: usize = 0;
        assert(ts.take(0) =~= Seq::<ThrottleView>::empty());
        assert(stats_store::batches_view(writes@) =~= Seq::<BatchView>::empty());
        while i < records.len()
            invariant
                0 <= i <= records@.len(),
                self.wf(),
                scheduler.wf(),
                self@.config == old(self)@.config,
                scheduler@.virtual_time == old(scheduler)@.virtual_time,
                ts == records@.map_values(|t: PersistedThrottle| t@),
                scene(self@.states, scheduler@.tenants, stats_store::batches_view(writes@))
                    == restored_all(start, ts.take(i as int), now),
            decreases records@.len() - i,
        {
            let t = &records[i];
            assert(ts[i as int] == t@);
            assert(ts.take(i + 1).drop_last() =~= ts.take(i as int));
            assert(ts.take(i + 1).last() == t@);
            let ghost before = stats_store::batches_view(writes@);
            if t.throttled {
                if t.cooldown_until_ms > now {
                    let burst: u32 = if t.applied_rate >= 1 {
                        t.applied_rate
                    } else {
                        1
                    };
                    set_rate(scheduler, t.tenant_id.as_str(), t.applied_rate, burst);
                    let state = ThrottleState {
                        tenant_id: t.tenant_id.clone(),
                        throttled: true,
                        reason: t.reason.clone(),
                        original_rate: t.original_rate,
                        applied_rate: t.applied_rate,
                        triggered_at_ms: t.triggered_at_ms,
                        cooldown_until_ms: t.cooldown_until_ms,
                    };
                    assert(state@ =~= t@);
                    self.put(t.tenant_id.as_str(), state);
                } else {
                    let b = StatsStore::clear_throttle(t.tenant_id.as_str());
                    writes.push(b);
                    assert(stats_store::batches_view(writes@) =~= before.push(b@));
                }
            }
            i = i + 1;
        }
        assert(ts.take(i as int) =~= ts);
        writes
    }

    /// Judges tenants, one after the other: those that disturb the others are
    /// slowed down, and those that are slowed down are let go once their time
    /// is over and they are calm. Gives the writes that keep this.
    pub fn evaluate(
        &mut self,
        scheduler: &mut WFQScheduler,
        baselines: &BaselineRegistry,
        readings: &Vec<Reading>,
        bounds: &CalmBounds,
        now: u64,
    ) -> (r: Result<Vec<Batch>, QueueError>)
        requires
            old(self).wf(),
            old(scheduler).wf(),
            baselines.wf(),
            now + old(self)@.config.cooldown_secs * 1000 <= u64::MAX,
        ensures
            r is Ok,
            final(self).wf(),
            final(scheduler).wf(),
            final(self)@.config == old(self)@.config,
            final(scheduler)@.virtual_time == old(scheduler)@.virtual_time,
            scene(
                final(self)@.states,
                final(scheduler)@.tenants,
                stats_store::batches_view(r->Ok_0@),
            ) == judged_all(
                scene(old(self)@.states, old(scheduler)@.tenants, Seq::empty()),
                old(self)@.config,
                baselines@,
                *bounds,
                readings@.map_values(|x: Reading| x@),
                now,
            ),
    {
        let ghost rs = readings@.map_values(|x: Reading| x@);
        let ghost start = scene(self@.states, scheduler@.tenants, Seq::empty());
        let mut writes: Vec<Batch> = Vec::new();
        let mut i: usize = 0;
        assert(rs.take(0) =~= Seq::<ReadingView>::empty());
        assert(stats_store::batches_view(writes@) =~= Seq::<BatchView>::empty());
        while i < readings.len()
            invariant
                0 <= i <= readings@.len(),
                self.wf(),
                scheduler.wf(),
                baselines.wf(),
                self@.config == old(self)@.config,
                now + self@.config.cooldown_secs * 1000 <= u64::MAX,
                scheduler@.virtual_time == old(scheduler)@.virtual_time,
                rs == readings@.map_values(|x: Reading| x@),
                scene(self@.states, scheduler@.tenants, stats_store::batches_view(writes@))
                    == judged_all(
                    start,
                    self@.config,
                    baselines@,
                    *bounds,
                    rs.take(i as int),
                    now,
                ),
            decreases readings@.len() - i,
        {
            let x = &readings[i];
            assert(rs[i as int] == x@);
            assert(rs.take(i + 1).drop_last() =~= rs.take(i as int));
            assert(rs.take(i + 1).last() == x@);
            let existing = self.snapshot(x.tenant_id.as_str());
            let held = match &existing {
                Some(t) => t.throttled,
                None => false,
            };
            if held {
                if let Some(t) = existing {
                    if now >= t.cooldown_until_ms && fraction::is_above(
                        bounds.burst_below,
                        x.burst_score,
                    ) && fraction::is_above(bounds.backlog_below, x.backlog_ratio)
                        && fraction::is_above(x.rate_below, x.arrival_rate) {
                        self.release_throttle(
                            scheduler,
                            x.tenant_id.as_str(),
                            t.original_rate,
                            &mut writes,
                        );
                    }
                }
            } else {
                let spike = baselines.is_spike(x.tenant_id.as_str(), x.arrival_rate);
                if fraction::is_above(x.burst_score, self.config.burst_threshold)
                    || fraction::is_above(x.backlog_ratio, self.config.backlog_threshold)
                    || spike {
                    match self.apply_throttle(scheduler, x, now, &mut writes) {
                        Ok(_) => {},
                        Err(e) => return Err(e),
                    }
                }
            }
            i = i + 1;
        }
        assert(rs.take(i as int) =~= rs);
        Ok(writes)
    }

    /// Slows a tenant down.
    fn apply_throttle(
        &mut self,
        scheduler: &mut WFQScheduler,
        x: &Reading,
        now: u64,
        writes: &mut Vec<Batch>,
    ) -> (r: Result<(), QueueError>)
        requires
            old(self).wf(),
            old(scheduler).wf(),
            now + old(self)@.config.cooldown_secs * 1000 <= u64::MAX,
        ensures
            r is Ok,
            final(self).wf(),
            final(scheduler).wf(),
            final(self)@.config == old(self)@.config,
            final(scheduler)@.virtual_time == old(scheduler)@.virtual_time,
            scene(
                final(self)@.states,
                final(scheduler)@.tenants,
                stats_store::batches_view(final(writes)@),
            ) == slowed(
                scene(
                    old(self)@.states,
                    old(scheduler)@.tenants,
                    stats_store::batches_view(old(writes)@),
                ),
                old(self)@.config,
                x@,
                now,
            ),
    {
        let found = match scheduler.policy(x.tenant_id.as_str()) {
            None => return Ok(()),
            Some(p) => p,
        };
        proof {
            scheduler.lemma_keyed(x.tenant_id@);
        }
        let original_rate: u32 = found.rate_per_sec;
        let applied_rate: u32 = if x.scaled_rate >= self.config.min_rate_floor {
            x.scaled_rate
        } else {
            self.config.min_rate_floor
        };
        let mut policy = found;
        policy.rate_per_sec = applied_rate;
        policy.burst_tokens = if applied_rate >= 1 {
            applied_rate
        } else {
            1
        };
        policy.max_inflight = x.scaled_inflight;
        scheduler.update_policy(policy, 0, 0);
        let reason = if fraction::is_above(x.burst_score, self.config.burst_threshold) {
            "burst_score_exceeded"
        } else if fraction::is_above(x.backlog_ratio, self.config.backlog_threshold) {
            "backlog_threshold_exceeded"
        } else {
            "rate_spike_detected"
        };
        let cooldown_until_ms: u64 = now + self.config.cooldown_secs * 1000;
        let kept = PersistedThrottle {
            tenant_id: x.tenant_id.clone(),
            throttled: true,
            reason: reason.to_owned(),
            original_rate,
            applied_rate,
            triggered_at_ms: now,
            cooldown_until_ms,
        };
        assert(kept@ =~= throttle_of(self@.config, x@, original_rate, now));
        let b = match StatsStore::persist_throttle(&kept) {
            Ok(b) => b,
            Err(e) => return Err(e),
        };
        let ghost before = stats_store::batches_view(writes@);
        writes.push(b);
        assert(stats_store::batches_view(writes@) =~= before.push(b@));
        let state = ThrottleState {
            tenant_id: x.tenant_id.clone(),
            throttled: true,
            reason: reason.to_owned(),
            original_rate,
            applied_rate,
            triggered_at_ms: now,
            cooldown_until_ms,
        };
        assert(state@ =~= kept@);
        self.put(x.tenant_id.as_str(), state);
        Ok(())
    }

    /// Lets a tenant go.
    fn release_throttle(
        &mut self,
        scheduler: &mut WFQScheduler,
        tenant_id: &str,
        original_rate: u32,
        writes: &mut Vec<Batch>,
    )
        requires
            old(self).wf(),
            old(scheduler).wf(),
        ensures
            final(self).wf(),
            final(scheduler).wf(),
            final(self)@.config == old(self)@.config,
            final(scheduler)@.virtual_time == old(scheduler)@.virtual_time,
            scene(
                final(self)@.states,
                final(scheduler)@.tenants,
                stats_store::batches_view(final(writes)@),
            ) == let_go(
                scene(
                    old(self)@.states,
                    old(scheduler)@.tenants,
                    stats_store::batches_view(old(writes)@),
                ),
                tenant_id@,
                original_rate,
            ),
    {
        set_rate(scheduler, tenant_id, original_rate, original_rate);
        let b = StatsStore::clear_throttle(tenant_id);
        let ghost before = stats_store::batches_view(writes@);
        writes.push(b);
        assert(stats_store::batches_view(writes@) =~= before.push(b@));
        self.states.remove(tenant_id);
        assert(self@.states =~= old(self)@.states.remove(tenant_id@));
    }

    /// Lets a tenant go whatever its traffic; the kept throttle is dropped in
    /// any case.
    pub fn force_release(&mut self, scheduler: &mut WFQScheduler, tenant_id: &str) -> (r: Vec<
        Batch,
    >)
        requires
            old(self).wf(),
            old(scheduler).wf(),
        ensures
            final(self).wf(),
            final(scheduler).wf(),
            final(self)@.config == old(self)@.config,
            final(scheduler)@.virtual_time == old(scheduler)@.virtual_time,
            scene(
                final(self)@.states,
                final(scheduler)@.tenants,
                stats_store::batches_view(r@),
            ) == forced(
                scene(old(self)@.states, old(scheduler)@.tenants, Seq::empty()),
                tenant_id@,
            ),
    {
        let mut writes: Vec<Batch> = Vec::new();
        assert(stats_store::batches_view(writes@) =~= Seq::<BatchView>::empty());
        match self.snapshot(tenant_id) {
            Some(t) => {
                self.release_throttle(scheduler, tenant_id, t.original_rate, &mut writes);
            },
            None => {
                let b = StatsStore::clear_throttle(tenant_id);
                writes.push(b);
                assert(stats_store::batches_view(writes@) =~= Seq::<BatchView>::empty().push(b@));
            },
        }
        writes
    }

    /// A tenant's throttle.
    pub fn snapshot(&self, tenant_id: &str) -> (r: Option<ThrottleState>)
        requires
            self.wf(),
        ensures
            r is Some <==> self@.states.contains_key(tenant_id@),
            r matches Some(t) ==> t@ == self@.states[tenant_id@],
    {
        match self.states.get(tenant_id) {
            None => None,
            Some(t) => Some(t.clone()),
        }
    }

    /// All throttles, in the order in which they are walked.
    pub fn all_snapshots(&self) -> (r: Vec<ThrottleState>)
        requires
            self.wf(),
        ensures
            r@.len() == self.order().len(),
            forall|i: int|
                0 <= i < r@.len() ==> (#[trigger] r@[i])@ == self@.states[self.order()[i]],
    {
        let mut r: Vec<ThrottleState> = Vec::new();
        let n: usize = self.states.len();
        let mut i: usize = 0;
        while i < n
            invariant
                self.wf(),
                0 <= i <= n,
                n == self.order().len(),
                r@.len() == i,
                forall|k: int| 0 <= k < i ==> (#[trigger] r@[k])@ == self@.states[self.order()[k]],
            decreases n - i,
        {
            proof {
                self.states.lemma_order();
                assert(self.states@.contains_key(self.order()[i as int]));
            }
            r.push(self.states.value_at(i).clone());
            i = i + 1;
        }
        r
    }
}

/// The scene after a tenant was let go by force.
pub open spec fn forced(s: Scene, name: Seq<char>) -> Scene {
    if s.states.contains_key(name) {
        let_go(s, name, s.states[name].original_rate)
    } else {
        Scene { writes: s.writes.push(stats_store::forget("throttle:"@, name)), ..s }
    }
}

/// A slowed tenant is not let go before its time is over.
pub proof fn law_no_release_before_cooldown(
    s: Scene,
    c: ThrottleConfig,
    baselines: Map<Seq<char>, BaselineView>,
    b: CalmBounds,
    r: ReadingView,
    now: u64,
)
    requires
        s.states.contains_key(r.tenant_id),
        s.states[r.tenant_id].throttled,
        now < s.states[r.tenant_id].cooldown_until_ms,
    ensures
        judged(s, c, baselines, b, r, now) == s,
{
}

/// Letting a tenant go undoes what slowing it down did to its rate: it has its
/// original rate again, and is slowed down no more. Its bucket is as large as
/// its rate then, and its bound on leases stays reduced.
pub proof fn law_release_restores_rate(s: Scene, c: ThrottleConfig, r: ReadingView, now: u64)
    requires
        s.tenants.contains_key(r.tenant_id),
        !s.states.contains_key(r.tenant_id),
    ensures
        ({
            let slow = slowed(s, c, r, now);
            let free = let_go(slow, r.tenant_id, slow.states[r.tenant_id].original_rate);
            let before = s.tenants[r.tenant_id].policy;
            let after = free.tenants[r.tenant_id].policy;
            &&& after.rate_per_sec == before.rate_per_sec
            &&& after.burst_tokens == before.rate_per_sec
            &&& after.weight == before.weight
            &&& after.max_inflight == r.scaled_inflight
            &&& free.states =~= s.states
        }),
{
}

/// A tenant is slowed down only for a reason, never below the floor, and for
/// the whole cooldown.
pub proof fn law_throttle_bounds(
    s: Scene,
    c: ThrottleConfig,
    baselines: Map<Seq<char>, BaselineView>,
    b: CalmBounds,
    r: ReadingView,
    now: u64,
)
    requires
        now + c.cooldown_secs * 1000 <= u64::MAX,
        !s.states.contains_key(r.tenant_id),
        judged(s, c, baselines, b, r, now).states.contains_key(r.tenant_id),
    ensures
        ({
            let t = judged(s, c, baselines, b, r, now).states[r.tenant_id];
            &&& disturbs(c, baselines, r)
            &&& t.throttled
            &&& t.applied_rate >= c.min_rate_floor
            &&& t.applied_rate >= r.scaled_rate
            &&& t.cooldown_until_ms == now + c.cooldown_secs * 1000
            &&& t.original_rate == s.tenants[r.tenant_id].policy.rate_per_sec
        }),
{
}

/// Judging one tenant leaves the throttle and the standing of every other as
/// they are.
pub proof fn law_judgement_is_separate(
    s: Scene,
    c: ThrottleConfig,
    baselines: Map<Seq<char>, BaselineView>,
    b: CalmBounds,
    r: ReadingView,
    now: u64,
    other: Seq<char>,
)
    requires
        other != r.tenant_id,
    ensures
        ({
            let t = judged(s, c, baselines, b, r, now);
            &&& t.states.contains_key(other) == s.states.contains_key(other)
            &&& s.states.contains_key(other) ==> t.states[other] == s.states[other]
            &&& t.tenants.contains_key(other) == s.tenants.contains_key(other)
            &&& s.tenants.contains_key(other) ==> t.tenants[other] == s.tenants[other]
        }),
{
}

/// What a restart brings back: a throttle counts again exactly while its
/// cooldown lasts, with the rate that was applied.
pub proof fn law_throttle_survives_restart(s: Scene, t: ThrottleView, now: u64)
    requires
        t.throttled,
        !s.states.contains_key(t.tenant_id),
        s.tenants.contains_key(t.tenant_id),
        vstd::utf8::encode_utf8(t.tenant_id).len() <= u64::MAX,
        vstd::utf8::encode_utf8(t.reason).len() <= u64::MAX,
    ensures
        ({
            let kept = stats_store::read_throttle(stats_store::throttle_code(t));
            let after = restored(s, kept->0, now);
            &&& kept == Some(t)
            &&& after.states.contains_key(t.tenant_id) <==> now < t.cooldown_until_ms
            &&& now < t.cooldown_until_ms ==> after.states[t.tenant_id] == t
                && after.tenants[t.tenant_id].policy.rate_per_sec == t.applied_rate
        }),
{
    stats_store::law_throttle_roundtrip(t);
}

/// A slowed tenant that is not calm stays slowed, however long that lasts: as long
/// as its score, its ratio or its rate is not below its bound, judging it changes
/// nothing.
pub proof fn law_no_release_while_noisy(
    s: Scene,
    c: ThrottleConfig,
    baselines: Map<Seq<char>, BaselineView>,
    b: CalmBounds,
    r: ReadingView,
    now: u64,
)
    requires
        s.states.contains_key(r.tenant_id),
        s.states[r.tenant_id].throttled,
        !fraction::above(b.burst_below, r.burst_score) || !fraction::above(
            b.backlog_below,
            r.backlog_ratio,
        ) || !fraction::above(r.rate_below, r.arrival_rate),
    ensures
        judged(s, c, baselines, b, r, now) == s,
{
}

/// A slowed tenant is let go once its time is over and its score, its ratio and its
/// rate are all below their bounds: its throttle is gone, here and from the store,
/// and it has the rate again that it had, with a bucket of that size. The rest of its
/// standing is left.
pub proof fn law_released_when_calm(
    s: Scene,
    c: ThrottleConfig,
    baselines: Map<Seq<char>, BaselineView>,
    b: CalmBounds,
    r: ReadingView,
    now: u64,
)
    requires
        s.states.contains_key(r.tenant_id),
        s.states[r.tenant_id].throttled,
        now >= s.states[r.tenant_id].cooldown_until_ms,
        fraction::above(b.burst_below, r.burst_score),
        fraction::above(b.backlog_below, r.backlog_ratio),
        fraction::above(r.rate_below, r.arrival_rate),
    ensures
        ({
            let after = judged(s, c, baselines, b, r, now);
            let name = r.tenant_id;
            let rate = s.states[name].original_rate;
            &&& !after.states.contains_key(name)
            &&& after.tenants.contains_key(name) == s.tenants.contains_key(name)
            &&& s.tenants.contains_key(name) ==> {
                let new = after.tenants[name];
                let old = s.tenants[name];
                &&& new.policy.rate_per_sec == rate
                &&& new.policy.burst_tokens == rate
                &&& new.policy.weight == old.policy.weight
                &&& new.policy.max_inflight == old.policy.max_inflight
                &&& new.policy.tenant_id == old.policy.tenant_id
                &&& new.tokens == old.tokens && new.inflight == old.inflight && new.paused
                    == old.paused && new.finish == old.finish && new.last_refill
                    == old.last_refill && new.created_at == old.created_at
            }
            &&& after.writes.len() == s.writes.len() + 1
            &&& after.writes.drop_last() == s.writes
            &&& after.writes.last() == stats_store::forget("throttle:"@, name)
        }),
{
    assert(judged(s, c, baselines, b, r, now).writes.drop_last() =~= s.writes);
}

/// A tenant that is not slowed is slowed down exactly where its score or its ratio is
/// above its threshold, or its rate above what is normal for it, and the scheduler
/// knows it; else nothing changes.
pub proof fn law_slowed_when_noisy(
    s: Scene,
    c: ThrottleConfig,
    baselines: Map<Seq<char>, BaselineView>,
    b: CalmBounds,
    r: ReadingView,
    now: u64,
)
    requires
        !s.states.contains_key(r.tenant_id) || !s.states[r.tenant_id].throttled,
        now + c.cooldown_secs * 1000 <= u64::MAX,
    ensures
        ({
            let after = judged(s, c, baselines, b, r, now);
            let name = r.tenant_id;
            let bursts = fraction::above(r.burst_score, c.burst_threshold);
            let piles_up = fraction::above(r.backlog_ratio, c.backlog_threshold);
            let spikes = baselines.contains_key(name) && fraction::above(
                r.arrival_rate,
                baselines[name].spike_threshold,
            );
            if s.tenants.contains_key(name) && (bursts || piles_up || spikes) {
                let t = after.states[name];
                let new = after.tenants[name];
                let old = s.tenants[name];
                &&& after.states.contains_key(name)
                &&& t.tenant_id == name
                &&& t.throttled
                &&& t.original_rate == old.policy.rate_per_sec
                &&& t.triggered_at_ms == now
                &&& t.cooldown_until_ms == now + c.cooldown_secs * 1000
                &&& t.applied_rate >= r.scaled_rate && t.applied_rate >= c.min_rate_floor
                &&& t.applied_rate == r.scaled_rate || t.applied_rate == c.min_rate_floor
                &&& bursts ==> t.reason == "burst_score_exceeded"@
                &&& !bursts && piles_up ==> t.reason == "backlog_threshold_exceeded"@
                &&& !bursts && !piles_up ==> t.reason == "rate_spike_detected"@
                &&& after.tenants.contains_key(name)
                &&& new.policy.rate_per_sec == t.applied_rate
                &&& t.applied_rate > 0 ==> new.policy.burst_tokens == t.applied_rate
                &&& t.applied_rate == 0 ==> new.policy.burst_tokens == 1
                &&& new.policy.max_inflight == r.scaled_inflight
                &&& new.policy.weight == old.policy.weight
                &&& new.policy.tenant_id == old.policy.tenant_id
                &&& new.tokens == old.tokens && new.inflight == old.inflight && new.paused
                    == old.paused && new.finish == old.finish && new.last_refill
                    == old.last_refill && new.created_at == old.created_at
                &&& after.writes.len() == s.writes.len() + 1
                &&& after.writes.drop_last() == s.writes
                &&& after.writes.last() == stats_store::keep(
                    "throttle:"@,
                    name,
                    stats_store::throttle_code(t),
                )
            } else {
                after == s
            }
        }),
{
    let after = judged(s, c, baselines, b, r, now);
    if after != s {
        assert(after.writes.drop_last() =~= s.writes);
    }
}

/// Readings are judged one after the other, none is left out: those of two lists
/// after each other are those of the lists together, and a single reading is judged
/// as it stands.
pub proof fn law_readings_judged_in_turn(
    s: Scene,
    c: ThrottleConfig,
    baselines: Map<Seq<char>, BaselineView>,
    b: CalmBounds,
    x: Seq<ReadingView>,
    y: Seq<ReadingView>,
    r: ReadingView,
    now: u64,
)
    ensures
        judged_all(s, c, baselines, b, x + y, now) == judged_all(
            judged_all(s, c, baselines, b, x, now),
            c,
            baselines,
            b,
            y,
            now,
        ),
        judged_all(s, c, baselines, b, seq![r], now) == judged(s, c, baselines, b, r, now),
        judged_all(s, c, baselines, b, Seq::empty(), now) == s,
    decreases y.len(),
{
    assert(seq![r].drop_last() =~= Seq::<ReadingView>::empty());
    reveal_with_fuel(judged_all, 2);
    if y.len() == 0 {
        assert(x + y =~= x);
    } else {
        law_readings_judged_in_turn(s, c, baselines, b, x, y.drop_last(), r, now);
        assert((x + y).drop_last() =~= x + y.drop_last());
    }
}

/// A tenant's fate is its own: where no tenant is read twice, each comes out as if it
/// alone had been judged.
pub proof fn law_judged_as_if_alone(
    s: Scene,
    c: ThrottleConfig,
    baselines: Map<Seq<char>, BaselineView>,
    b: CalmBounds,
    rs: Seq<ReadingView>,
    i: int,
    now: u64,
)
    requires
        0 <= i < rs.len(),
        forall|j: int, k: int|
            0 <= j < k < rs.len() ==> (#[trigger] rs[j]).tenant_id != (#[trigger] rs[k]).tenant_id,
    ensures
        ({
            let all = judged_all(s, c, baselines, b, rs, now);
            let one = judged(s, c, baselines, b, rs[i], now);
            let name = rs[i].tenant_id;
            &&& all.states.contains_key(name) == one.states.contains_key(name)
            &&& one.states.contains_key(name) ==> all.states[name] == one.states[name]
            &&& all.tenants.contains_key(name) == one.tenants.contains_key(name)
            &&& one.tenants.contains_key(name) ==> all.tenants[name] == one.tenants[name]
        }),
    decreases rs.len(),
{
    let rest = rs.drop_last();
    let name = rs[i].tenant_id;
    assert forall|j: int, k: int| 0 <= j < k < rest.len() implies (#[trigger] rest[j]).tenant_id
        != (#[trigger] rest[k]).tenant_id by {
        assert(rs[j].tenant_id != rs[k].tenant_id);
    }
    let before = judged_all(s, c, baselines, b, rest, now);
    if i < rest.len() {
        assert(rest[i] == rs[i]);
        law_judged_as_if_alone(s, c, baselines, b, rest, i, now);
        assert(rs[i].tenant_id != rs[rs.len() - 1].tenant_id);
        law_judgement_is_separate(before, c, baselines, b, rs.last(), now, name);
    } else {
        assert forall|j: int| 0 <= j < rest.len() implies (#[trigger] rest[j]).tenant_id != name by {
            assert(rs[j].tenant_id != rs[i].tenant_id);
        }
        lemma_others_judged(s, c, baselines, b, rest, name, now);
        assert(rs.last() == rs[i]);
    }
}

/// Judging others leaves a tenant as it is.
proof fn lemma_others_judged(
    s: Scene,
    c: ThrottleConfig,
    baselines: Map<Seq<char>, BaselineView>,
    b: CalmBounds,
    rs: Seq<ReadingView>,
    name: Seq<char>,
    now: u64,
)
    requires
        forall|j: int| 0 <= j < rs.len() ==> (#[trigger] rs[j]).tenant_id != name,
    ensures
        ({
            let all = judged_all(s, c, baselines, b, rs, now);
            &&& all.states.contains_key(name) == s.states.contains_key(name)
            &&& s.states.contains_key(name) ==> all.states[name] == s.states[name]
            &&& all.tenants.contains_key(name) == s.tenants.contains_key(name)
            &&& s.tenants.contains_key(name) ==> all.tenants[name] == s.tenants[name]
        }),
    decreases rs.len(),
{
    if rs.len() > 0 {
        let rest = rs.drop_last();
        assert forall|j: int| 0 <= j < rest.len() implies (#[trigger] rest[j]).tenant_id != name by {
            assert(rest[j] == rs[j]);
        }
        lemma_others_judged(s, c, baselines, b, rest, name, now);
        assert(rs[rs.len() - 1].tenant_id != name);
        let before = judged_all(s, c, baselines, b, rest, now);
        law_judgement_is_separate(before, c, baselines, b, rs.last(), now, name);
    }
}

/// A kept throttle whose time is not over applies again as it did, and nothing is
/// written; one whose time is over is dropped from the store, and nothing else
/// changes; one that is no throttle is passed over.
pub proof fn law_kept_throttle_applies(s: Scene, t: ThrottleView, now: u64)
    ensures
        !t.throttled ==> restored(s, t, now) == s,
        t.throttled && now >= t.cooldown_until_ms ==> {
            let after = restored(s, t, now);
            &&& after.states == s.states
            &&& after.tenants == s.tenants
            &&& after.writes.len() == s.writes.len() + 1
            &&& after.writes.drop_last() == s.writes
            &&& after.writes.last() == stats_store::forget("throttle:"@, t.tenant_id)
        },
        t.throttled && now < t.cooldown_until_ms ==> {
            let after = restored(s, t, now);
            &&& after.writes == s.writes
            &&& after.states.contains_key(t.tenant_id) && after.states[t.tenant_id] == t
            &&& after.tenants.contains_key(t.tenant_id) == s.tenants.contains_key(t.tenant_id)
            &&& s.tenants.contains_key(t.tenant_id) ==> {
                let new = after.tenants[t.tenant_id];
                let old = s.tenants[t.tenant_id];
                &&& new.policy.rate_per_sec == t.applied_rate
                &&& t.applied_rate > 0 ==> new.policy.burst_tokens == t.applied_rate
                &&& t.applied_rate == 0 ==> new.policy.burst_tokens == 1
                &&& new.policy.weight == old.policy.weight
                &&& new.policy.max_inflight == old.policy.max_inflight
                &&& new.policy.tenant_id == old.policy.tenant_id
                &&& new.tokens == old.tokens && new.inflight == old.inflight && new.paused
                    == old.paused && new.finish == old.finish && new.last_refill
                    == old.last_refill && new.created_at == old.created_at
            }
        },
        forall|other: Seq<char>|
            #![trigger s.states.contains_key(other)]
            other != t.tenant_id ==> {
                let after = restored(s, t, now);
                &&& after.states.contains_key(other) == s.states.contains_key(other)
                &&& s.states.contains_key(other) ==> after.states[other] == s.states[other]
                &&& after.tenants.contains_key(other) == s.tenants.contains_key(other)
                &&& s.tenants.contains_key(other) ==> after.tenants[other] == s.tenants[other]
            },
{
    let after = restored(s, t, now);
    if t.throttled && now >= t.cooldown_until_ms {
        assert(after.writes.drop_last() =~= s.writes);
    }
}

/// Kept throttles are taken up one after the other, none is left out.
pub proof fn law_throttles_restored_in_turn(
    s: Scene,
    x: Seq<ThrottleView>,
    y: Seq<ThrottleView>,
    t: ThrottleView,
    now: u64,
)
    ensures
        restored_all(s, x + y, now) == restored_all(restored_all(s, x, now), y, now),
        restored_all(s, seq![t], now) == restored(s, t, now),
        restored_all(s, Seq::empty(), now) == s,
    decreases y.len(),
{
    assert(seq![t].drop_last() =~= Seq::<ThrottleView>::empty());
    reveal_with_fuel(restored_all, 2);
    if y.len() == 0 {
        assert(x + y =~= x);
    } else {
        law_throttles_restored_in_turn(s, x, y.drop_last(), t, now);
        assert((x + y).drop_last() =~= x + y.drop_last());
    }
}

/// By force a tenant is let go whatever the time and however noisy it is: its
/// throttle is gone, here and from the store, and it has its rate again.
pub proof fn law_forced_release(s: Scene, name: Seq<char>)
    ensures
        ({
            let after = forced(s, name);
            &&& !after.states.contains_key(name)
            &&& after.writes.len() == s.writes.len() + 1
            &&& after.writes.last() == stats_store::forget("throttle:"@, name)
            &&& !s.states.contains_key(name) ==> after.tenants == s.tenants && after.states
                == s.states
            &&& s.states.contains_key(name) && s.tenants.contains_key(name) ==> {
                let new = after.tenants[name];
                let old = s.tenants[name];
                &&& new.policy.rate_per_sec == s.states[name].original_rate
                &&& new.policy.burst_tokens == s.states[name].original_rate
                &&& new.policy.weight == old.policy.weight
                &&& new.policy.max_inflight == old.policy.max_inflight
                &&& new.tokens == old.tokens && new.inflight == old.inflight && new.paused
                    == old.paused && new.finish == old.finish
            }
            &&& forall|other: Seq<char>|
                #![trigger s.states.contains_key(other)]
                other != name ==> after.states.contains_key(other)
                    == s.states.contains_key(other) && (s.states.contains_key(other)
                    ==> after.states[other] == s.states[other]) && after.tenants.contains_key(other)
                    == s.tenants.contains_key(other) && (s.tenants.contains_key(other)
                    ==> after.tenants[other] == s.tenants[other])
        }),
{
}

/// The usual limits: a burst score above 5 or a backlog above 0.85 is too much; who is
/// slowed down keeps a quarter, but no less than five a second, for half a minute at
/// least. What is normal is measured over five minutes, and three times that is a spike.
pub proof fn law_usual_limits(value: u64)
    ensures
        ({
            let c = default_config();
            &&& fraction::above(value, c.burst_threshold) <==> fraction::above(
                value,
                0x4014_0000_0000_0000,
            )
            &&& fraction::above(value, c.backlog_threshold) <==> fraction::above(
                value,
                0x3feb_3333_3333_3333,
            )
            &&& c.rate_spike_factor == 0x4008_0000_0000_0000
            &&& c.reduction_factor == 0x3fd0_0000_0000_0000
            &&& c.min_rate_floor == 5
            &&& c.cooldown_secs == 30
            &&& c.baseline_window_secs == 5 * 60
        }),
{
}

} // verus!
