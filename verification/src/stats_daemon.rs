//! The cycle of the daemon that keeps the statistics.
//!
//! A cycle refreshes the tallies, measures the backlogs, judges the baselines,
//! evaluates the throttle and, every tenth time, keeps what it knows.

use vstd::prelude::*;

use crate::baseline;
use crate::baseline::{BaselinePromotion, BaselineRegistry, Proposal};
use crate::error::QueueError;
use crate::fraction;
use crate::stats::TenantStats;
use crate::stats_store;
use crate::stats_store::StatsStore;
use crate::store::{Batch, BatchView};

verus! {

/// After how many cycles everything is kept.
pub const FLUSH_CYCLES: u64 = 10;

/// Judges a tenant's deviation. A promoted baseline is kept at once.
pub fn judge_baseline(
    baselines: &mut BaselineRegistry,
    tenant_id: &str,
    raised: u64,
    decayed: u64,
    proposal: &Proposal,
    now: u64,
) -> (r: Result<(Option<BaselinePromotion>, Vec<Batch>), QueueError>)
    requires
        old(baselines).wf(),
        old(baselines)@.contains_key(tenant_id@) ==> fraction::above(
            raised,
            old(baselines)@[tenant_id@].cusum.h_threshold,
        ) || old(baselines)@[tenant_id@].cusum.consecutive_calm < u32::MAX,
    ensures
        final(baselines).wf(),
        final(baselines)@ == (if old(baselines)@.contains_key(tenant_id@) {
            old(baselines)@.insert(
                tenant_id@,
                baseline::judged(old(baselines)@[tenant_id@], raised, decayed, *proposal, now),
            )
        } else {
            old(baselines)@
        }),
        r is Ok,
        ((r->Ok_0).0 is Some) == (old(baselines)@.contains_key(tenant_id@) && baseline::promotes(
            old(baselines)@[tenant_id@],
            raised,
            *proposal,
        )),
        (r->Ok_0).0 matches Some(p) ==> p@ == baseline::promotion_of(
            old(baselines)@[tenant_id@],
            *proposal,
            now,
        ),
        stats_store::batches_view((r->Ok_0).1@) == (if (r->Ok_0).0 is Some {
            seq![baseline::kept_as(final(baselines)@[tenant_id@], now)]
        } else {
            Seq::<BatchView>::empty()
        }),
{
    match baselines.update(tenant_id, raised, decayed, proposal, now) {
        None => {
            let none: Vec<Batch> = Vec::new();
            assert(stats_store::batches_view(none@) =~= Seq::<BatchView>::empty());
            Ok((None, none))
        },
        Some(p) => {
            let mut promoted: Vec<baseline::TenantBaseline> = Vec::new();
            if let Some(b) = baselines.snapshot(tenant_id) {
                promoted.push(b);
            }
            match StatsStore::flush_baselines(&promoted, now) {
                Ok(writes) => {
                    assert(stats_store::batches_view(writes@) =~= seq![
                        baseline::kept_as(baselines@[tenant_id@], now),
                    ]);
                    Ok((Some(p), writes))
                },
                Err(e) => Err(e),
            }
        },
    }
}

/// The writes at the end of a cycle: nothing but every tenth time, and then
/// all statistics and after them all baselines.
pub fn end_cycle(
    cycle: u64,
    snapshots: &Vec<TenantStats>,
    baselines: &BaselineRegistry,
    now: u64,
) -> (r: Result<Vec<Batch>, QueueError>)
    requires
        baselines.wf(),
    ensures
        r is Ok,
        stats_store::batches_view(r->Ok_0@) == (if cycle % FLUSH_CYCLES == 0 {
            snapshots@.map_values(
                |s: TenantStats|
                    stats_store::keep(
                        "stats:"@,
                        s@.tenant_id,
                        stats_store::stats_code(stats_store::stats_record(s@, now)),
                    ),
            ) + baselines.order().map_values(
                |n: Seq<char>| baseline::kept_as(baselines@[n], now),
            )
        } else {
            Seq::<BatchView>::empty()
        }),
        cycle % 10 == 0 ==> r->Ok_0@.len() == snapshots@.len() + baselines.order().len(),
        cycle % 10 != 0 ==> r->Ok_0@.len() == 0,
{
    if cycle % FLUSH_CYCLES != 0 {
        let none: Vec<Batch> = Vec::new();
        assert(stats_store::batches_view(none@) =~= Seq::<BatchView>::empty());
        return Ok(none);
    }
    let mut writes = match StatsStore::flush_stats(snapshots, now) {
        Ok(w) => w,
        Err(e) => return Err(e),
    };
    let mut more = match baselines.flush(now) {
        Ok(w) => w,
        Err(e) => return Err(e),
    };
    let ghost first = writes@;
    let ghost second = more@;
    writes.append(&mut more);
    assert(stats_store::batches_view(first + second) =~= stats_store::batches_view(first)
        + stats_store::batches_view(second));
    Ok(writes)
}

} // verus!
