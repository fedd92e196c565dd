//! Which stored tasks are dropped when the store compacts its files.

use vstd::prelude::*;

use crate::task;
use crate::task::{now_millis, Task, TaskView};

verus! {

/// How many tasks compaction has dropped, by reason, and how many it has kept.
/// The counts wrap around.
#[derive(Debug, Clone, Copy, PartialEq, Eq, Structural)]
pub struct CompactionCounters {
    pub pending_expired: u64,
    pub dlq_expired: u64,
    pub inflight_stale: u64,
    pub kept: u64,
}

/// All counts at zero.
pub open spec fn no_counts() -> CompactionCounters {
    CompactionCounters { pending_expired: 0, dlq_expired: 0, inflight_stale: 0, kept: 0 }
}

impl CompactionCounters {
    /// All counts at zero.
    pub fn new() -> (r: Self)
        ensures
            r == no_counts(),
    {
        CompactionCounters { pending_expired: 0, dlq_expired: 0, inflight_stale: 0, kept: 0 }
    }
}

impl Default for CompactionCounters {
    fn default() -> (r: Self)
        ensures
            r == no_counts(),
    {
        CompactionCounters::new()
    }
}

/// What compaction does with an entry.
#[derive(Debug, Clone, Copy, PartialEq, Eq, Structural)]
pub enum Decision {
    Keep,
    Remove,
}

/// The rule by which a family's entries are dropped.
#[derive(Debug, Clone, Copy, PartialEq, Eq, Structural)]
pub enum CompactionFilter {
    /// Tasks older than the retention go, unless it is 0.
    Pending { retention_secs: u64 },
    /// Leases overdue by more than the time go.
    Inflight { stale_after_secs: u64 },
    /// Tasks older than the retention go.
    Dlq { retention_secs: u64 },
}

/// How far `b` is behind `a`; 0 if it is not.
pub open spec fn past(a: u64, b: u64) -> int {
    if a >= b {
        a - b
    } else {
        0
    }
}

/// Whether a filter drops a value at a time. A value that is no task is
/// dropped, except where everything is kept.
pub open spec fn drops(f: CompactionFilter, value: Seq<u8>, now: u64) -> bool {
    match f {
        CompactionFilter::Pending { retention_secs } => {
            &&& retention_secs != 0
            &&& match task::read_task(value) {
                None => true,
                Some(t) => past(now, t.enqueued_at) > retention_secs * 1000,
            }
        },
        CompactionFilter::Inflight { stale_after_secs } => match task::read_task(value) {
            None => true,
            Some(t) => t.deadline > 0 && past(now, t.deadline) > stale_after_secs * 1000,
        },
        CompactionFilter::Dlq { retention_secs } => match task::read_task(value) {
            None => true,
            Some(t) => past(now, t.enqueued_at) > retention_secs * 1000,
        },
    }
}

/// The counters after a decision of a filter.
pub open spec fn counted(
    c: CompactionCounters,
    f: CompactionFilter,
    dropped: bool,
) -> CompactionCounters {
    if !dropped {
        CompactionCounters { kept: c.kept.wrapping_add(1), ..c }
    } else {
        match f {
            CompactionFilter::Pending { .. } => CompactionCounters {
                pending_expired: c.pending_expired.wrapping_add(1),
                ..c
            },
            CompactionFilter::Inflight { .. } => CompactionCounters {
                inflight_stale: c.inflight_stale.wrapping_add(1),
                ..c
            },
            CompactionFilter::Dlq { .. } => CompactionCounters {
                dlq_expired: c.dlq_expired.wrapping_add(1),
                ..c
            },
        }
    }
}

/// The time of a filter, in milliseconds.
pub open spec fn limit_ms(f: CompactionFilter) -> int {
    match f {
        CompactionFilter::Pending { retention_secs } => retention_secs * 1000,
        CompactionFilter::Inflight { stale_after_secs } => stale_after_secs * 1000,
        CompactionFilter::Dlq { retention_secs } => retention_secs * 1000,
    }
}

/// The filter of pending tasks: those older than `retention_secs` go; 0 keeps
/// all.
pub fn make_pending_filter(retention_secs: u64) -> (r: CompactionFilter)
    ensures
        r == (CompactionFilter::Pending { retention_secs }),
{
    CompactionFilter::Pending { retention_secs }
}

/// The filter of dead letters: those older than `dlq_retention_secs` go.
pub fn make_dlq_filter(dlq_retention_secs: u64) -> (r: CompactionFilter)
    ensures
        r == (CompactionFilter::Dlq { retention_secs: dlq_retention_secs }),
{
    CompactionFilter::Dlq { retention_secs: dlq_retention_secs }
}

/// The filter of leases, a safety net: those overdue by more than
/// `stale_after_secs` go.
pub fn make_inflight_filter(stale_after_secs: u64) -> (r: CompactionFilter)
    ensures
        r == (CompactionFilter::Inflight { stale_after_secs }),
{
    CompactionFilter::Inflight { stale_after_secs }
}

impl CompactionFilter {
    /// Decides about an entry at a time and counts the decision.
    pub fn decide(&self, value: &[u8], now: u64, counters: &mut CompactionCounters) -> (r: Decision)
        requires
            limit_ms(*self) <= u64::MAX,
        ensures
            r == (if drops(*self, value@, now) {
                Decision::Remove
            } else {
                Decision::Keep
            }),
            *final(counters) == counted(*old(counters), *self, drops(*self, value@, now)),
    {
        match *self {
            CompactionFilter::Pending { retention_secs } => {
                if retention_secs == 0 {
                    counters.kept = counters.kept.wrapping_add(1);
                    return Decision::Keep;
                }
                let expired = match Task::deserialize(value) {
                    Ok(task) => task.age_at(now) > retention_secs * 1000,
                    Err(_) => true,
                };
                if expired {
                    counters.pending_expired = counters.pending_expired.wrapping_add(1);
                    Decision::Remove
                } else {
                    counters.kept = counters.kept.wrapping_add(1);
                    Decision::Keep
                }
            },
            CompactionFilter::Inflight { stale_after_secs } => {
                let stale = match Task::deserialize(value) {
                    Ok(task) => {
                        let overdue_ms: u64 = now.saturating_sub(task.deadline);
                        task.deadline > 0 && overdue_ms > stale_after_secs * 1000
                    },
                    Err(_) => true,
                };
                if stale {
                    counters.inflight_stale = counters.inflight_stale.wrapping_add(1);
                    Decision::Remove
                } else {
                    counters.kept = counters.kept.wrapping_add(1);
                    Decision::Keep
                }
            },
            CompactionFilter::Dlq { retention_secs } => {
                let expired = match Task::deserialize(value) {
                    Ok(task) => task.age_at(now) > retention_secs * 1000,
                    Err(_) => true,
                };
                if expired {
                    counters.dlq_expired = counters.dlq_expired.wrapping_add(1);
                    Decision::Remove
                } else {
                    counters.kept = counters.kept.wrapping_add(1);
                    Decision::Keep
                }
            },
        }
    }

    /// Decides about an entry by the clock and counts the decision: it is the
    /// decision of some time.
    pub fn decide_now(&self, value: &[u8], counters: &mut CompactionCounters) -> (r: Decision)
        requires
            limit_ms(*self) <= u64::MAX,
        ensures
            exists|now: u64|
                r == (if #[trigger] drops(*self, value@, now) {
                    Decision::Remove
                } else {
                    Decision::Keep
                }) && *final(counters) == counted(
                    *old(counters),
                    *self,
                    drops(*self, value@, now),
                ),
    {
        let now: u64 = now_millis();
        let r = self.decide(value, now, counters);
        assert(r == (if drops(*self, value@, now) {
            Decision::Remove
        } else {
            Decision::Keep
        }));
        r
    }
}

/// Every decision is counted once: all counters together grow by one, as long
/// as none of them wraps around.
pub proof fn law_decisions_counted(c: CompactionCounters, f: CompactionFilter, dropped: bool)
    requires
        c.pending_expired < u64::MAX,
        c.dlq_expired < u64::MAX,
        c.inflight_stale < u64::MAX,
        c.kept < u64::MAX,
    ensures
        ({
            let d = counted(c, f, dropped);
            d.pending_expired + d.dlq_expired + d.inflight_stale + d.kept == c.pending_expired
                + c.dlq_expired + c.inflight_stale + c.kept + 1
        }),
        dropped <==> counted(c, f, dropped).kept == c.kept,
{
}

/// A pending retention of 0 keeps every entry.
pub proof fn law_zero_retention_keeps(value: Seq<u8>, now: u64)
    ensures
        !drops((CompactionFilter::Pending { retention_secs: 0 }), value, now),
{
}

/// Once a filter drops an entry it drops it at every later time.
pub proof fn law_drop_is_final(f: CompactionFilter, value: Seq<u8>, now: u64, later: u64)
    requires
        now <= later,
        drops(f, value, now),
    ensures
        drops(f, value, later),
{
}

/// A dead letter goes exactly when it is older than its retention, which is given
/// in seconds while times are in milliseconds.
pub proof fn law_dead_letters_expire(retention_secs: u64, value: Seq<u8>, t: TaskView, now: u64)
    requires
        task::read_task(value) == Some(t),
    ensures
        drops((CompactionFilter::Dlq { retention_secs }), value, now) <==> now - t.enqueued_at
            > retention_secs * 1000,
{
}

/// A waiting task goes exactly when there is a retention and it is older.
pub proof fn law_waiting_tasks_expire(retention_secs: u64, value: Seq<u8>, t: TaskView, now: u64)
    requires
        task::read_task(value) == Some(t),
    ensures
        drops((CompactionFilter::Pending { retention_secs }), value, now) <==> retention_secs > 0
            && now - t.enqueued_at > retention_secs * 1000,
{
}

/// A lease goes exactly when it has a deadline that passed longer ago than the
/// time given; how old the task is does not matter.
pub proof fn law_leases_go_stale(stale_after_secs: u64, value: Seq<u8>, t: TaskView, now: u64)
    requires
        task::read_task(value) == Some(t),
    ensures
        drops((CompactionFilter::Inflight { stale_after_secs }), value, now) <==> t.deadline > 0
            && now - t.deadline > stale_after_secs * 1000,
{
}

/// Bytes that are no task go, whenever that is; waiting ones stay where nothing
/// expires.
pub proof fn law_corrupt_entries_go(value: Seq<u8>, secs: u64, now: u64)
    requires
        task::read_task(value) is None,
    ensures
        drops((CompactionFilter::Dlq { retention_secs: secs }), value, now),
        drops((CompactionFilter::Inflight { stale_after_secs: secs }), value, now),
        drops((CompactionFilter::Pending { retention_secs: secs }), value, now) <==> secs > 0,
{
}

/// A decision is counted where it belongs: what is kept among the kept, what goes
/// by the family that it was in, and the other counts stay.
pub proof fn law_counted_by_family(c: CompactionCounters, secs: u64)
    requires
        c.pending_expired < u64::MAX,
        c.dlq_expired < u64::MAX,
        c.inflight_stale < u64::MAX,
        c.kept < u64::MAX,
    ensures
        forall|f: CompactionFilter|
            {
                let d = #[trigger] counted(c, f, false);
                d.kept == c.kept + 1 && d.pending_expired == c.pending_expired && d.dlq_expired
                    == c.dlq_expired && d.inflight_stale == c.inflight_stale
            },
        ({
            let d = counted(c, (CompactionFilter::Pending { retention_secs: secs }), true);
            d.pending_expired == c.pending_expired + 1 && d.kept == c.kept && d.dlq_expired
                == c.dlq_expired && d.inflight_stale == c.inflight_stale
        }),
        ({
            let d = counted(c, (CompactionFilter::Inflight { stale_after_secs: secs }), true);
            d.inflight_stale == c.inflight_stale + 1 && d.kept == c.kept && d.dlq_expired
                == c.dlq_expired && d.pending_expired == c.pending_expired
        }),
        ({
            let d = counted(c, (CompactionFilter::Dlq { retention_secs: secs }), true);
            d.dlq_expired == c.dlq_expired + 1 && d.kept == c.kept && d.inflight_stale
                == c.inflight_stale && d.pending_expired == c.pending_expired
        }),
{
}

/// Every decision is counted once, from nothing on: as a kept entry, or as one that was
/// dropped from its family.
pub proof fn law_counted_once(c: CompactionCounters, f: CompactionFilter, dropped: bool)
    requires
        c.pending_expired < u64::MAX,
        c.dlq_expired < u64::MAX,
        c.inflight_stale < u64::MAX,
        c.kept < u64::MAX,
    ensures
        no_counts().pending_expired == 0 && no_counts().dlq_expired == 0
            && no_counts().inflight_stale == 0 && no_counts().kept == 0,
        ({
            let d = counted(c, f, dropped);
            d.pending_expired + d.dlq_expired + d.inflight_stale + d.kept == c.pending_expired
                + c.dlq_expired + c.inflight_stale + c.kept + 1
        }),
        counted(c, f, dropped).kept == c.kept + (if dropped {
            0int
        } else {
            1
        }),
{
}

} // verus!
