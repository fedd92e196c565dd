//! How workers are shared: statistics, scheduling, baselines and throttling.

use rocksqueue::baseline::{BaselineRegistry, BaselineStart, CusumState, Proposal, TenantBaseline};
use rocksqueue::fair_worker::FairWorkerPool;
use rocksqueue::fraction::{is_above, rank_of};
use rocksqueue::scheduler::{Offer, TenantPolicy, WFQScheduler};
use rocksqueue::stats::StatsCollector;
use rocksqueue::stats_daemon::{end_cycle, judge_baseline};
use rocksqueue::stats_store::{BaselineRecord, PersistedStats, PersistedThrottle, StatsStore};
use rocksqueue::store::{Batch, Record, Scan, WriteOp};
use rocksqueue::throttle::{AutoThrottle, CalmBounds, Reading, ThrottleConfig};

const ALPHA: f64 = 0.2;
const BURST_PENALTY: f64 = 2.0;

/// A cycle: the tallies are read out and smoothed.
fn refresh(collector: &mut StatsCollector) {
    for cycle in collector.refresh() {
        let stats = collector.snapshot(&cycle.tenant_id).unwrap();
        let smooth = |new: f64, old: u64| ALPHA * new + (1.0 - ALPHA) * f64::from_bits(old);
        let arrived = cycle.enqueued as f64;
        let arrival = smooth(arrived, stats.arrival_rate);
        let processing = smooth(cycle.processed as f64, stats.processing_rate);
        let latency = if cycle.acked > 0 {
            let seconds = cycle.latency_sum_ms as f64 / cycle.acked as f64 / 1000.0;
            smooth(seconds, stats.avg_task_latency)
        } else {
            f64::from_bits(stats.avg_task_latency)
        };
        let deviation = arrived - arrival;
        let burst = smooth(deviation * deviation, stats.burst_score);
        collector.set_rates(
            &cycle.tenant_id,
            arrival.to_bits(),
            processing.to_bits(),
            latency.to_bits(),
            burst.to_bits(),
        );
    }
}

fn allocate_slots(collector: &StatsCollector, total: usize, now: u64) -> Vec<(String, usize)> {
    let budget = collector.normal_budget(total, now);
    let scores: Vec<f64> = collector
        .normal_tenants(now)
        .iter()
        .map(|s| {
            let pressure = 1.0 + f64::from_bits(s.backlog_ratio);
            let damping = 1.0 + BURST_PENALTY * f64::from_bits(s.burst_score).sqrt();
            f64::from_bits(s.arrival_rate) * pressure / damping
        })
        .collect();
    let sum: f64 = scores.iter().sum();
    let shares = if sum > 0.0 {
        Some(scores.iter().map(|s| (budget as f64 * (s / sum)).floor() as usize).collect())
    } else {
        None
    };
    collector.allocate_slots(total, now, &shares)
}

fn slots_of(allocs: &[(String, usize)], tenant: &str) -> usize {
    allocs.iter().find(|(id, _)| id == tenant).map(|(_, s)| *s).unwrap_or(0)
}

#[test]
fn test_stats_ema_converges() {
    let mut collector = StatsCollector::new();
    collector.register("acme", 0);

    for _ in 0..10 {
        collector.record_enqueue("acme", 100);
        refresh(&mut collector);
    }

    let stats = collector.snapshot("acme").unwrap();
    assert!(
        f64::from_bits(stats.arrival_rate) > 50.0,
        "EMA should be converging toward 100"
    );
    assert!(!stats.is_new, "Should not be new after enqueues");
}

#[test]
fn test_stats_ack_tracking() {
    let mut collector = StatsCollector::new();
    collector.register("acme", 0);

    for _ in 0..5 {
        collector.record_ack("acme", 200);
    }
    refresh(&mut collector);

    let stats = collector.snapshot("acme").unwrap();
    assert_eq!(stats.total_acked, 5);
}

#[test]
fn test_allocate_slots_proportional() {
    let mut collector = StatsCollector::new();
    collector.register("heavy", 0);
    collector.register("light", 0);

    for _ in 0..20 {
        collector.record_enqueue("heavy", 100);
        collector.record_enqueue("light", 10);
        refresh(&mut collector);
    }

    let heavy = collector.snapshot("heavy").unwrap();
    let light = collector.snapshot("light").unwrap();
    assert!(!heavy.is_new);
    assert!(!light.is_new);

    let allocs = allocate_slots(&collector, 110, 1);
    let heavy_slots = slots_of(&allocs, "heavy");
    let light_slots = slots_of(&allocs, "light");
    assert!(heavy_slots >= light_slots, "heavy should get >= slots as light");
}

#[test]
fn test_new_tenant_gets_guaranteed_slots() {
    let mut collector = StatsCollector::new();
    collector.register("brand_new", 0);

    let stats = collector.snapshot("brand_new").unwrap();
    assert!(stats.is_new);

    let allocs = allocate_slots(&collector, 100, 1);
    let slots = slots_of(&allocs, "brand_new");
    assert!(slots >= collector.min_guarantee_slots, "new tenant must get guaranteed slots");
}

#[test]
fn a_round_gives_all_its_slots_away() {
    let mut collector = StatsCollector::new();
    for name in ["heavy", "light", "fresh"] {
        collector.register(name, 0);
    }
    for _ in 0..20 {
        collector.record_enqueue("heavy", 100);
        collector.record_enqueue("light", 10);
        refresh(&mut collector);
    }
    let allocs = allocate_slots(&collector, 110, 1);
    assert_eq!(allocs.iter().map(|(_, s)| s).sum::<usize>(), 110);
    assert_eq!(slots_of(&allocs, "fresh"), collector.min_guarantee_slots);
    assert_eq!(collector.min_guarantee_slots, 5);
}

#[test]
fn a_cycle_reads_the_counters_out() {
    let mut collector = StatsCollector::new();
    collector.register("acme", 0);
    collector.record_enqueue("acme", 7);
    collector.record_ack_count("acme", 3, 10);
    collector.record_nack("acme");
    collector.record_ack("nobody", 1);
    let cycles = collector.refresh();
    assert_eq!(cycles.len(), 1);
    assert_eq!(
        (cycles[0].enqueued, cycles[0].acked, cycles[0].processed, cycles[0].latency_sum_ms),
        (7, 3, 4, 30)
    );
    let again = collector.refresh();
    assert_eq!((again[0].enqueued, again[0].processed), (0, 0));
    let stats = collector.snapshot("acme").unwrap();
    assert_eq!((stats.total_enqueued, stats.total_acked, stats.total_nacked), (7, 3, 1));
    assert_eq!(stats.stats_version, 2);
}

#[test]
fn what_shares_leave_over_goes_to_the_largest_backlog() {
    let mut collector = StatsCollector::new();
    for name in ["a", "b", "c"] {
        collector.register(name, 0);
        collector.record_enqueue(name, 1);
    }
    collector.refresh();
    collector.record_backlog("b", 0.9f64.to_bits());
    collector.record_backlog("a", 0.1f64.to_bits());
    let names: Vec<String> =
        collector.normal_tenants(1).into_iter().map(|s| s.tenant_id).collect();
    assert_eq!(names.len(), 3);
    let allocs = collector.allocate_slots(10, 1, &Some(vec![3, 3, 3]));
    assert_eq!(slots_of(&allocs, "b"), 4);
    assert_eq!(slots_of(&allocs, "a") + slots_of(&allocs, "c"), 6);
}

#[test]
fn a_backlog_below_zero_is_the_smallest() {
    let mut collector = StatsCollector::new();
    for (name, ratio) in [("a", -0.5), ("b", 0.25), ("c", 0.25)] {
        collector.register(name, 0);
        let stats = PersistedStats {
            tenant_id: name.to_string(),
            arrival_rate: 0,
            processing_rate: 0,
            avg_task_latency: 0,
            burst_score: 0,
            backlog_ratio: f64::to_bits(ratio),
            total_enqueued: 0,
            total_acked: 0,
            total_nacked: 0,
            stats_version: 0,
            flushed_at_ms: 0,
        };
        collector.warm_from_store(&vec![stats]);
    }
    let allocs = collector.allocate_slots(10, 1, &Some(vec![3, 3, 3]));
    assert_eq!((slots_of(&allocs, "a"), slots_of(&allocs, "b"), slots_of(&allocs, "c")), (3, 4, 3));
}

#[test]
fn a_dormant_tenant_is_served_like_a_new_one() {
    let mut collector = StatsCollector::new();
    collector.register("sleepy", 0);
    collector.record_enqueue("sleepy", 1);
    collector.refresh();
    let thirty_seconds = 30_000_000_000;
    assert_eq!(collector.normal_tenants(thirty_seconds).len(), 1);
    assert_eq!(collector.normal_tenants(thirty_seconds + 1).len(), 0);
    assert_eq!(collector.normal_budget(100, thirty_seconds + 1), 95);
    let allocs = collector.allocate_slots(100, thirty_seconds + 1, &None);
    assert_eq!(allocs, vec![("sleepy".to_string(), 5)]);
    assert!(collector.allocate_slots(0, 1, &None).is_empty());
}

#[test]
fn the_backlog_share_is_waiting_over_all() {
    assert_eq!(StatsCollector::backlog_share(3, 1), Some((3, 4)));
    assert_eq!(StatsCollector::backlog_share(0, 0), None);
}

#[test]
fn kept_statistics_warm_a_tenant() {
    let mut collector = StatsCollector::new();
    collector.register("acme", 0);
    collector.warm_from_store(&vec![PersistedStats {
        tenant_id: "acme".to_string(),
        arrival_rate: 7f64.to_bits(),
        processing_rate: 6f64.to_bits(),
        avg_task_latency: 0,
        burst_score: 0,
        backlog_ratio: 0,
        total_enqueued: 70,
        total_acked: 60,
        total_nacked: 1,
        stats_version: 9,
        flushed_at_ms: 5,
    }]);
    let stats = collector.snapshot("acme").unwrap();
    assert_eq!(f64::from_bits(stats.arrival_rate), 7.0);
    assert_eq!((stats.total_enqueued, stats.stats_version), (70, 9));
    assert!(!stats.is_new);
}

#[test]
fn a_forgotten_tenant_has_no_statistics() {
    let mut collector = StatsCollector::new();
    collector.register("acme", 0);
    collector.register("globex", 0);
    collector.deregister("acme");
    assert!(collector.snapshot("acme").is_none());
    assert_eq!(collector.all_snapshots().len(), 1);
}

// The scheduler.

fn scheduler_of(policies: Vec<TenantPolicy>) -> WFQScheduler {
    let mut s = WFQScheduler::new();
    for p in policies {
        let full = (p.burst_tokens as f64).to_bits();
        s.register(p, full, 0);
    }
    s
}

fn offer(tenant: &str, raw_slots: usize, token_cap: usize) -> Offer {
    Offer { tenant_id: tenant.to_string(), raw_slots, token_cap }
}

#[test]
fn tiers_have_their_shares() {
    let s = TenantPolicy::standard("a");
    assert_eq!((s.weight, s.max_inflight, s.burst_tokens, s.rate_per_sec), (10, 500, 100, 100));
    let p = TenantPolicy::premium("a");
    assert_eq!((p.weight, p.max_inflight, p.burst_tokens, p.rate_per_sec), (50, 5000, 1000, 1000));
}

#[test]
fn slots_are_bound_by_share_tokens_and_what_is_left() {
    let mut s = scheduler_of(vec![TenantPolicy::standard("a"), TenantPolicy::premium("b")]);
    let got = s.schedule(12, &vec![offer("a", 2, 1), offer("b", 10, 100)]);
    let view: Vec<(&str, usize, usize)> =
        got.iter().map(|a| (a.tenant_id.as_str(), a.slots, a.extra)).collect();
    assert_eq!(view, vec![("a", 1, 1), ("b", 10, 0)]);
    assert_eq!(s.tenant_snapshot("a").unwrap().inflight, 2);
    assert_eq!(s.tenant_snapshot("b").unwrap().inflight, 10);
    assert_eq!(s.virtual_time(), 1);
    s.release("b", 4);
    s.release("a", 9);
    assert_eq!(s.tenant_snapshot("b").unwrap().inflight, 6);
    assert_eq!(s.tenant_snapshot("a").unwrap().inflight, 0);
}

#[test]
fn nobody_gets_slots_that_are_not_there() {
    let mut s = scheduler_of(vec![TenantPolicy::standard("a")]);
    assert!(s.schedule(0, &vec![]).is_empty());
    assert!(s.candidates(0).is_empty());
    assert_eq!(s.virtual_time(), 0);
    assert!(s.schedule(5, &vec![offer("a", 5, 0)]).is_empty());
    assert_eq!(s.virtual_time(), 1);
}

#[test]
fn only_who_takes_part_makes_an_offer() {
    let mut s = scheduler_of(vec![
        TenantPolicy::standard("a"),
        TenantPolicy::standard("b"),
        TenantPolicy::standard("c"),
    ]);
    s.finish_turn("a", 0, 3f64.to_bits());
    s.finish_turn("b", 0, 1.5f64.to_bits());
    s.set_paused("c", true);
    let in_turn = vec![offer("b", 4, 9), offer("a", 4, 9)];
    assert!(s.offers_in_turn(8, &in_turn));
    // Out of turn, incomplete, twice, paused, unknown, and without a slot.
    assert!(!s.offers_in_turn(8, &vec![offer("a", 4, 9), offer("b", 4, 9)]));
    assert!(!s.offers_in_turn(8, &vec![offer("b", 4, 9)]));
    assert!(!s.offers_in_turn(8, &vec![offer("b", 4, 9), offer("a", 4, 9), offer("a", 4, 9)]));
    assert!(!s.offers_in_turn(8, &vec![offer("c", 4, 9), offer("b", 4, 9), offer("a", 4, 9)]));
    assert!(!s.offers_in_turn(8, &vec![offer("b", 4, 9), offer("a", 4, 9), offer("x", 4, 9)]));
    assert!(!s.offers_in_turn(0, &in_turn));
    assert!(s.offers_in_turn(0, &vec![]));
    let got = s.schedule(8, &in_turn);
    let names: Vec<&str> = got.iter().map(|a| a.tenant_id.as_str()).collect();
    assert_eq!(names, vec!["b", "a"]);
    assert_eq!(s.tenant_snapshot("c").unwrap().inflight, 0);
}

#[test]
fn tenants_without_weight_take_no_part() {
    let mut p = TenantPolicy::standard("a");
    p.weight = 0;
    let s = scheduler_of(vec![p]);
    assert!(s.candidates(8).is_empty());
    assert!(s.offers_in_turn(8, &vec![]));
    assert!(!s.offers_in_turn(8, &vec![offer("a", 1, 1)]));
}

#[test]
fn patterns_are_ordered_as_their_numbers() {
    let numbers = [
        f64::NEG_INFINITY,
        -1.5,
        -f64::MIN_POSITIVE,
        -0.0,
        0.0,
        5e-324,
        0.85,
        1.0,
        f64::MAX,
        f64::INFINITY,
        f64::NAN,
        -f64::NAN,
    ];
    for a in numbers {
        for b in numbers {
            assert_eq!(is_above(a.to_bits(), b.to_bits()), a > b, "{a} {b}");
            if !a.is_nan() && !b.is_nan() {
                assert_eq!(rank_of(a.to_bits()) > rank_of(b.to_bits()), a > b, "{a} {b}");
            }
        }
    }
    assert_eq!(rank_of((-0.0f64).to_bits()), 0);
    assert_eq!(rank_of(f64::NAN.to_bits()), i64::MIN);
}

#[test]
fn finish_times_below_zero_come_first() {
    let mut s = scheduler_of(vec![TenantPolicy::standard("a"), TenantPolicy::standard("b")]);
    s.finish_turn("a", 0, 0);
    s.finish_turn("b", 0, (-2f64).to_bits());
    let names: Vec<String> = s.candidates(8).into_iter().map(|c| c.tenant_id).collect();
    assert_eq!(names, vec!["b", "a"]);
}

#[test]
fn candidates_come_by_finish_time_without_the_paused() {
    let mut s = scheduler_of(vec![
        TenantPolicy::standard("a"),
        TenantPolicy::standard("b"),
        TenantPolicy::standard("c"),
    ]);
    s.finish_turn("a", 0, 3f64.to_bits());
    s.finish_turn("b", 0, 1.5f64.to_bits());
    assert_eq!(s.set_paused("c", true), Some(()));
    assert_eq!(s.set_paused("nobody", true), None);
    assert!(s.weights_fit());
    assert_eq!(s.total_weight(), 20);
    let names: Vec<String> = s.candidates(8).into_iter().map(|c| c.tenant_id).collect();
    assert_eq!(names, vec!["b", "a"]);
    s.set_paused("c", false);
    let names: Vec<String> = s.candidates(8).into_iter().map(|c| c.tenant_id).collect();
    assert_eq!(names, vec!["c", "b", "a"]);
}

#[test]
fn a_tenant_at_its_bound_is_no_candidate() {
    let mut p = TenantPolicy::standard("a");
    p.max_inflight = 2;
    let mut s = scheduler_of(vec![p]);
    s.schedule(2, &vec![offer("a", 2, 2)]);
    assert!(s.candidates(5).is_empty());
    assert_eq!(s.total_weight(), 0);
    s.release("a", 1);
    assert_eq!(s.candidates(5).len(), 1);
}

#[test]
fn another_policy_keeps_the_standing() {
    let mut s = scheduler_of(vec![TenantPolicy::standard("a")]);
    s.schedule(3, &vec![offer("a", 3, 3)]);
    s.set_tokens("a", 97f64.to_bits(), 40);
    s.update_policy(TenantPolicy::premium("a"), 1000f64.to_bits(), 50);
    let st = s.tenant_snapshot("a").unwrap();
    assert_eq!((st.policy.weight, st.inflight, st.last_refill), (50, 3, 40));
    assert_eq!(f64::from_bits(st.tokens), 97.0);
    s.update_policy(TenantPolicy::standard("b"), 100f64.to_bits(), 50);
    assert_eq!(s.baseline_rate("b"), Some(100));
    assert_eq!(s.policy("b").unwrap().tenant_id, "b");
    s.deregister("a");
    assert_eq!(s.all_tenant_ids(), vec!["b"]);
    assert_eq!(s.all_snapshots().len(), 1);
    assert_eq!(s.baseline_rate("a"), None);
}

// Baselines.

fn start(rate: f64) -> BaselineStart {
    BaselineStart {
        rate: rate.to_bits(),
        spike_threshold: (rate * 3.0).max(10.0).to_bits(),
        k_slack: (rate * 0.3).to_bits(),
        h_threshold: 50f64.to_bits(),
    }
}

fn proposal(new_baseline: f64, bar: f64) -> Proposal {
    Proposal {
        new_baseline: new_baseline.to_bits(),
        new_threshold: (new_baseline * 3.0).to_bits(),
        bar: bar.to_bits(),
        promoted_slack: (new_baseline * 0.3).to_bits(),
        calm_slack: 1f64.to_bits(),
    }
}

#[test]
fn drift_is_confirmed_above_the_threshold() {
    let mut c = CusumState::new(1f64.to_bits(), 50f64.to_bits());
    assert!(!c.update(50f64.to_bits(), 45f64.to_bits()));
    assert_eq!((c.cusum, c.consecutive_calm), (45f64.to_bits(), 1));
    assert!(c.update(51f64.to_bits(), 0));
    assert_eq!((c.cusum, c.consecutive_calm), (51f64.to_bits(), 1));
    c.reset(2f64.to_bits());
    assert_eq!((c.cusum, c.k_slack, c.consecutive_calm), (0, 2f64.to_bits(), 0));
}

#[test]
fn the_peak_forgets_after_five_minutes() {
    let mut b = TenantBaseline::new("acme", &start(4.0), 0);
    let at = |b: &mut TenantBaseline, rate: f64, now: u64| {
        f64::from_bits(b.observe(rate.to_bits(), 0, 0, now))
    };
    assert_eq!(at(&mut b, 9.0, 1_000), 9.0);
    assert_eq!(at(&mut b, 2.0, 301_000), 9.0);
    assert_eq!(at(&mut b, 3.0, 301_001), 3.0);
}

#[test]
fn a_rate_below_zero_is_neither_peak_nor_spike() {
    let mut b = TenantBaseline::new("acme", &start(4.0), 0);
    assert_eq!(b.observe((-3f64).to_bits(), 0, 0, 1), 0);
    assert_eq!(b.observe(f64::NAN.to_bits(), 0, 0, 2), 0);
    assert_eq!(b.observe(2f64.to_bits(), 0, 0, 3), 2f64.to_bits());
    assert_eq!(b.observe((-3f64).to_bits(), 0, 0, 4), 2f64.to_bits());

    let mut reg = BaselineRegistry::new();
    reg.register("acme", &start(1.0), &None, 0);
    assert_eq!(reg.spike_threshold("acme"), Some(10f64.to_bits()));
    assert!(!reg.is_spike("acme", (-1f64).to_bits()));
    assert!(!reg.is_spike("acme", f64::NAN.to_bits()));
    assert!(reg.is_spike("acme", f64::INFINITY.to_bits()));
    // A bar below zero is passed, and a threshold below zero does not pass one.
    assert!(reg.update("acme", 60f64.to_bits(), 0, &proposal(1.0, -1.0), 5).is_some());
    assert!(reg.update("acme", 60f64.to_bits(), 0, &proposal(-1.0, 1.0), 6).is_none());
}

#[test]
fn a_promotion_needs_drift_and_growth() {
    let mut reg = BaselineRegistry::new();
    reg.register("acme", &start(4.0), &None, 0);
    assert_eq!(reg.spike_threshold("acme"), Some(12f64.to_bits()));
    assert!(reg.is_spike("acme", 13f64.to_bits()));
    assert!(!reg.is_spike("acme", 12f64.to_bits()));
    assert!(!reg.is_spike("nobody", u64::MAX));

    // Drift, but not enough growth: the sum starts over.
    assert!(reg.update("acme", 60f64.to_bits(), 0, &proposal(4.0, 12.6), 7).is_none());
    let b = reg.snapshot("acme").unwrap();
    assert_eq!((b.cusum.cusum, b.cusum.k_slack, b.last_updated_ms), (0, 1f64.to_bits(), 7));

    let p = reg.update("acme", 60f64.to_bits(), 0, &proposal(8.0, 12.6), 8).unwrap();
    assert_eq!(f64::from_bits(p.old_threshold), 12.0);
    assert_eq!(f64::from_bits(p.new_threshold), 24.0);
    assert_eq!(p.promoted_at_ms, 8);
    let b = reg.snapshot("acme").unwrap();
    assert_eq!(f64::from_bits(b.spike_threshold), 24.0);
    assert_eq!(f64::from_bits(b.long_ema), 8.0);
    assert_eq!(b.promotions.len(), 1);
}

#[test]
fn only_twenty_promotions_are_remembered() {
    let mut reg = BaselineRegistry::new();
    reg.register("acme", &start(1.0), &None, 0);
    for i in 0..25u64 {
        let p = proposal(10.0 + i as f64, 0.0);
        assert!(reg.update("acme", 60f64.to_bits(), 0, &p, i).is_some());
    }
    let b = reg.snapshot("acme").unwrap();
    assert_eq!(b.promotions.len(), 20);
    assert_eq!(b.promotions[0].promoted_at_ms, 5);
}

#[test]
fn a_kept_baseline_is_taken_up_again() {
    let mut reg = BaselineRegistry::new();
    let record = BaselineRecord {
        tenant_id: "acme".to_string(),
        short_ema: 5f64.to_bits(),
        long_ema: 6f64.to_bits(),
        spike_threshold: 33f64.to_bits(),
        saved_at_ms: 1,
    };
    reg.register("acme", &start(4.0), &Some(record), 2);
    let b = reg.snapshot("acme").unwrap();
    assert_eq!(f64::from_bits(b.short_ema), 5.0);
    assert_eq!(f64::from_bits(b.long_ema), 6.0);
    assert_eq!(f64::from_bits(b.spike_threshold), 33.0);
    assert_eq!(f64::from_bits(b.rolling_peak), 6.0);
    reg.deregister("acme");
    assert!(reg.snapshot("acme").is_none());
    assert!(reg.all_snapshots().is_empty());
}

// What is kept in the store.

fn puts(batches: Vec<Batch>) -> Vec<Record> {
    let mut out = Vec::new();
    for b in batches {
        assert!(b.sync);
        for op in b.ops {
            match op {
                WriteOp::Put { cf, key, value } => {
                    assert_eq!(cf, "__system__");
                    out.push(Record { key, value });
                }
                WriteOp::Delete { .. } => panic!("nothing is deleted here"),
            }
        }
    }
    out
}

#[test]
fn statistics_come_back_as_they_were_kept() {
    let mut collector = StatsCollector::new();
    collector.register("acme", 0);
    collector.record_enqueue("acme", 4);
    refresh(&mut collector);
    let mut records = puts(StatsStore::flush_stats(&collector.all_snapshots(), 99).unwrap());
    assert_eq!(records[0].key, b"stats:acme".to_vec());
    records.push(Record { key: b"stats:broken".to_vec(), value: vec![1, 2] });
    records.push(Record { key: b"throttle:acme".to_vec(), value: Vec::new() });
    let back = StatsStore::load_all_stats(&Scan { records, failure: None });
    assert_eq!(back.len(), 1);
    assert_eq!(back[0].tenant_id, "acme");
    assert_eq!(f64::from_bits(back[0].arrival_rate), 0.8);
    assert_eq!((back[0].total_enqueued, back[0].flushed_at_ms), (4, 99));
}

#[test]
fn throttles_and_baselines_come_back_as_they_were_kept() {
    let t = PersistedThrottle {
        tenant_id: "acme".to_string(),
        throttled: true,
        reason: "burst_score_exceeded".to_string(),
        original_rate: 100,
        applied_rate: 25,
        triggered_at_ms: 1,
        cooldown_until_ms: 2,
    };
    let records = puts(vec![StatsStore::persist_throttle(&t).unwrap()]);
    assert_eq!(records[0].key, b"throttle:acme".to_vec());
    let back = StatsStore::load_all_throttles(&Scan { records, failure: None });
    assert_eq!((back[0].reason.as_str(), back[0].applied_rate), ("burst_score_exceeded", 25));

    let b = TenantBaseline::new("acme", &start(2.0), 0);
    let records = puts(StatsStore::flush_baselines(&vec![b], 44).unwrap());
    assert_eq!(records[0].key, StatsStore::baseline_key("acme"));
    let value = records.into_iter().next().map(|r| r.value);
    let back = StatsStore::load_baseline(&value).unwrap();
    assert_eq!((back.saved_at_ms, f64::from_bits(back.long_ema)), (44, 2.0));
    assert!(StatsStore::load_baseline(&None).is_none());
    assert!(StatsStore::load_baseline(&Some(vec![0])).is_none());

    match &StatsStore::clear_throttle("acme").ops[0] {
        WriteOp::Delete { key, .. } => assert_eq!(key, b"throttle:acme"),
        WriteOp::Put { .. } => panic!("must delete"),
    }
    match &StatsStore::clear_baseline("acme").ops[0] {
        WriteOp::Delete { key, .. } => assert_eq!(key, b"baseline:acme"),
        WriteOp::Put { .. } => panic!("must delete"),
    }
}

#[test]
fn records_have_the_fixed_layout() {
    let r = BaselineRecord {
        tenant_id: "ab".to_string(),
        short_ema: 1,
        long_ema: 2,
        spike_threshold: 3,
        saved_at_ms: 4,
    };
    let mut want = vec![2, 0, 0, 0, 0, 0, 0, 0, b'a', b'b'];
    for n in 1..=4u8 {
        want.extend_from_slice(&[n, 0, 0, 0, 0, 0, 0, 0]);
    }
    assert_eq!(r.serialize().unwrap(), want);
}

// Throttling.

fn reading(tenant: &str, burst: f64, backlog: f64, rate: f64) -> Reading {
    Reading {
        tenant_id: tenant.to_string(),
        burst_score: burst.to_bits(),
        backlog_ratio: backlog.to_bits(),
        arrival_rate: rate.to_bits(),
        rate_below: f64::MAX.to_bits(),
        scaled_rate: 25,
        scaled_inflight: 125,
    }
}

fn bounds() -> CalmBounds {
    CalmBounds { burst_below: 2.5f64.to_bits(), backlog_below: (0.85f64 * 0.7).to_bits() }
}

#[test]
fn the_usual_thresholds() {
    let c = ThrottleConfig::default();
    assert_eq!(f64::from_bits(c.burst_threshold), 5.0);
    assert_eq!(f64::from_bits(c.rate_spike_factor), 3.0);
    assert_eq!(f64::from_bits(c.backlog_threshold), 0.85);
    assert_eq!(f64::from_bits(c.reduction_factor), 0.25);
    assert_eq!((c.min_rate_floor, c.cooldown_secs, c.baseline_window_secs), (5, 30, 300));
}

#[test]
fn a_noisy_tenant_is_slowed_and_let_go() {
    let mut s = scheduler_of(vec![TenantPolicy::standard("acme")]);
    let mut t = AutoThrottle::new(ThrottleConfig::default());
    let none = BaselineRegistry::new();
    let noisy = vec![reading("acme", 6.0, 0.0, 0.0), reading("ghost", 9.0, 0.0, 0.0)];
    let writes = t.evaluate(&mut s, &none, &noisy, &bounds(), 1_000).unwrap();
    assert_eq!(writes.len(), 1);
    let st = t.snapshot("acme").unwrap();
    assert_eq!(st.reason, "burst_score_exceeded");
    assert_eq!((st.original_rate, st.applied_rate, st.cooldown_until_ms), (100, 25, 31_000));
    let p = s.policy("acme").unwrap();
    assert_eq!((p.rate_per_sec, p.burst_tokens, p.max_inflight), (25, 25, 125));
    assert!(t.snapshot("ghost").is_none());

    // Calm too early, then calm after the cooldown.
    let calm = vec![reading("acme", 1.0, 0.1, 1.0)];
    assert!(t.evaluate(&mut s, &none, &calm, &bounds(), 30_999).unwrap().is_empty());
    assert_eq!(t.all_snapshots().len(), 1);
    assert_eq!(t.evaluate(&mut s, &none, &calm, &bounds(), 31_000).unwrap().len(), 1);
    assert!(t.snapshot("acme").is_none());
    let p = s.policy("acme").unwrap();
    assert_eq!((p.rate_per_sec, p.burst_tokens), (100, 100));
}

#[test]
fn a_threshold_below_zero_is_exceeded() {
    let mut s = scheduler_of(vec![TenantPolicy::standard("a"), TenantPolicy::standard("b")]);
    let mut c = ThrottleConfig::default();
    c.burst_threshold = (-1f64).to_bits();
    let mut t = AutoThrottle::new(c);
    let none = BaselineRegistry::new();
    let seen = vec![reading("a", 6.0, 0.0, 0.0), reading("b", -2.0, 0.0, 0.0)];
    assert_eq!(t.evaluate(&mut s, &none, &seen, &bounds(), 0).unwrap().len(), 1);
    assert_eq!(t.snapshot("a").unwrap().reason, "burst_score_exceeded");
    assert!(t.snapshot("b").is_none());
}

#[test]
fn the_reason_is_the_first_that_holds() {
    let mut s = scheduler_of(vec![TenantPolicy::standard("a"), TenantPolicy::standard("b")]);
    let mut t = AutoThrottle::new(ThrottleConfig::default());
    let mut base = BaselineRegistry::new();
    base.register("b", &start(4.0), &None, 0);
    let rs = vec![reading("a", 5.0, 0.9, 0.0), reading("b", 0.0, 0.85, 12.5)];
    t.evaluate(&mut s, &base, &rs, &bounds(), 0).unwrap();
    assert_eq!(t.snapshot("a").unwrap().reason, "backlog_threshold_exceeded");
    assert_eq!(t.snapshot("b").unwrap().reason, "rate_spike_detected");
}

#[test]
fn the_rate_does_not_fall_below_the_floor() {
    let mut s = scheduler_of(vec![TenantPolicy::standard("a")]);
    let mut t = AutoThrottle::new(ThrottleConfig::default());
    let mut r = reading("a", 6.0, 0.0, 0.0);
    r.scaled_rate = 2;
    t.evaluate(&mut s, &BaselineRegistry::new(), &vec![r], &bounds(), 0).unwrap();
    assert_eq!(t.snapshot("a").unwrap().applied_rate, 5);
}

#[test]
fn a_throttle_survives_a_restart_while_it_lasts() {
    let mut s = scheduler_of(vec![TenantPolicy::standard("a"), TenantPolicy::standard("b")]);
    let mut t = AutoThrottle::new(ThrottleConfig::default());
    let kept = |name: &str, until: u64| PersistedThrottle {
        tenant_id: name.to_string(),
        throttled: true,
        reason: "rate_spike_detected".to_string(),
        original_rate: 100,
        applied_rate: 25,
        triggered_at_ms: 0,
        cooldown_until_ms: until,
    };
    let writes = t.restore_from_store(&mut s, &vec![kept("a", 500), kept("b", 400)], 400);
    assert_eq!(writes.len(), 1);
    assert_eq!(s.policy("a").unwrap().rate_per_sec, 25);
    assert_eq!(s.policy("b").unwrap().rate_per_sec, 100);
    assert!(t.snapshot("b").is_none());

    assert_eq!(t.force_release(&mut s, "a").len(), 1);
    assert_eq!(s.policy("a").unwrap().rate_per_sec, 100);
    assert!(t.snapshot("a").is_none());
    assert_eq!(t.force_release(&mut s, "nobody").len(), 1);
}

// The daemon and the workers.

#[test]
fn a_promoted_baseline_is_kept_at_once() {
    let mut reg = BaselineRegistry::new();
    reg.register("acme", &start(4.0), &None, 0);
    let (none, writes) =
        judge_baseline(&mut reg, "acme", 10f64.to_bits(), 9f64.to_bits(), &proposal(8.0, 12.6), 5)
            .unwrap();
    assert!(none.is_none());
    assert!(writes.is_empty());
    let (some, writes) =
        judge_baseline(&mut reg, "acme", 60f64.to_bits(), 0, &proposal(8.0, 12.6), 6).unwrap();
    assert!(some.is_some());
    let records = puts(writes);
    let back = StatsStore::load_baseline(&Some(records[0].value.clone())).unwrap();
    assert_eq!((f64::from_bits(back.spike_threshold), back.saved_at_ms), (24.0, 6));
}

#[test]
fn every_tenth_cycle_keeps_everything() {
    let mut collector = StatsCollector::new();
    collector.register("acme", 0);
    let mut reg = BaselineRegistry::new();
    reg.register("acme", &start(4.0), &None, 0);
    let stats = collector.all_snapshots();
    assert!(end_cycle(9, &stats, &reg, 1).unwrap().is_empty());
    let records = puts(end_cycle(10, &stats, &reg, 1).unwrap());
    let keys: Vec<&[u8]> = records.iter().map(|r| r.key.as_slice()).collect();
    assert_eq!(keys, vec![b"stats:acme".as_slice(), b"baseline:acme".as_slice()]);
}

#[test]
fn a_worker_visits_every_queue_of_every_tenant_with_slots() {
    let pool = FairWorkerPool {
        queues: vec!["x".to_string(), "y".to_string()],
        concurrency: 3,
        tick_ms: 10,
        total_slots: 8,
    };
    assert_eq!(pool.worker_slots(), 2);
    let turns = pool.turns(&vec![
        ("a".to_string(), 2),
        ("b".to_string(), 0),
        ("c".to_string(), 1),
    ]);
    let view: Vec<(&str, &str, usize)> =
        turns.iter().map(|t| (t.tenant_id.as_str(), t.queue.as_str(), t.slots)).collect();
    assert_eq!(view, vec![("a", "x", 2), ("a", "y", 2), ("c", "x", 1), ("c", "y", 1)]);
    let small = FairWorkerPool { queues: Vec::new(), concurrency: 9, tick_ms: 1, total_slots: 8 };
    assert_eq!(small.worker_slots(), 1);
}
